use cutsplit::partitionsort::classifier::PartitionSortClassifier;
use cutsplit::classifier::Classifier;
use cutsplit::hicuts::builder::Builder as HiCutsBuilder;
use cutsplit::hicuts::tree::Node as HiCutsNode;
use cutsplit::cutsplit::builder::{count_split, endpoints, partition_rules, Builder};
use cutsplit::cutsplit::tree::{Dimension, Node};
use cutsplit::packet::{FiveTuple, IgmpHeader, Ipv4Header, L4Header, Packet, TcpHeader, UdpHeader};
use cutsplit::partitionsort::tree::IntervalTree;
use cutsplit::rule::{Action, Range, Rule};
use cutsplit::simulation::Simulation;
use cutsplit::tss::utils::{range_to_prefixes_u16, range_to_prefixes_u32, range_to_prefixes_u8, Prefix};

fn port_rule(id: u32, lo: u16, hi: u16) -> Rule {
    Rule {
        id,
        priority: id,
        src_ip: Range::any(0, u32::MAX),
        dst_ip: Range::any(0, u32::MAX),
        src_port: Range::new(lo, hi),
        dst_port: Range::any(0, 65535),
        proto: Range::any(0, 255),
        action: Action::Permit,
    }
}

#[test]
fn range_contains_is_inclusive() {
    let r = Range::new(10u32, 20u32);
    assert!(r.contains(10) && r.contains(15) && r.contains(20));
    assert!(!r.contains(9) && !r.contains(21));
    let e = Range::exact(7u16);
    assert!(e.contains(7) && !e.contains(8));
    let a = Range::any(0u8, 255u8);
    assert!(a.contains(0) && a.contains(255));
}

#[test]
fn rule_matches_needs_all_five_fields() {
    let r = Rule {
        id: 1,
        priority: 1,
        src_ip: Range::new(1, 5),
        dst_ip: Range::exact(9),
        src_port: Range::new(100, 200),
        dst_port: Range::exact(80),
        proto: Range::exact(6),
        action: Action::Deny,
    };
    let ok = FiveTuple { src_ip: 3, dst_ip: 9, src_port: 150, dst_port: 80, proto: 6 };
    assert!(r.matches(&ok));
    assert!(!r.matches(&FiveTuple { src_ip: 6, ..ok }));
    assert!(!r.matches(&FiveTuple { dst_ip: 8, ..ok }));
    assert!(!r.matches(&FiveTuple { src_port: 201, ..ok }));
    assert!(!r.matches(&FiveTuple { dst_port: 81, ..ok }));
    assert!(!r.matches(&FiveTuple { proto: 17, ..ok }));
    assert_eq!(r.describe(), "Rule(id=1, pri=1, action=Deny)");
}

#[test]
fn packet_to_five_tuple() {
    let ip = Ipv4Header { src: 1, dst: 2, proto: 6, version: 4, ihl: 5, ttl: 64 };
    let tcp = Packet { ip, l4: L4Header::Tcp(TcpHeader { src_port: 1234, dst_port: 80, sequence: 0, ack: 0, flags: 0 }) };
    assert_eq!(tcp.to_5tuple(), FiveTuple { src_ip: 1, dst_ip: 2, src_port: 1234, dst_port: 80, proto: 6 });
    let udp = Packet { ip: Ipv4Header { proto: 17, ..ip }, l4: L4Header::Udp(UdpHeader { src_port: 53, dst_port: 5353, length: 8 }) };
    assert_eq!(udp.to_5tuple(), FiveTuple { src_ip: 1, dst_ip: 2, src_port: 53, dst_port: 5353, proto: 17 });
    let igmp = Packet { ip: Ipv4Header { proto: 2, ..ip }, l4: L4Header::Igmp(IgmpHeader { igmp_type: 0x16, max_resp_time: 0, checksum: 0, group_addr: 0xE0000001 }) };
    assert_eq!(igmp.to_5tuple(), FiveTuple { src_ip: 1, dst_ip: 2, src_port: 0, dst_port: 0, proto: 2 });
    let unknown = Packet { ip, l4: L4Header::default() };
    assert_eq!(unknown.to_5tuple().src_port, 0);
}

#[test]
fn prefixes_of_whole_domain() {
    assert_eq!(range_to_prefixes_u32(0, u32::MAX, 32), vec![Prefix { value: 0, len: 0 }]);
    assert_eq!(range_to_prefixes_u16(0, 65535), vec![Prefix { value: 0, len: 0 }]);
    assert_eq!(range_to_prefixes_u8(0, 255), vec![Prefix { value: 0, len: 0 }]);
}

#[test]
fn prefixes_of_port_range() {
    // [1024, 65535] = 1024/6, 2048/5, 4096/4, 8192/3, 16384/2, 32768/1
    assert_eq!(
        range_to_prefixes_u16(1024, 65535),
        vec![
            Prefix { value: 1024, len: 6 },
            Prefix { value: 2048, len: 5 },
            Prefix { value: 4096, len: 4 },
            Prefix { value: 8192, len: 3 },
            Prefix { value: 16384, len: 2 },
            Prefix { value: 32768, len: 1 },
        ]
    );
    assert_eq!(range_to_prefixes_u16(80, 80), vec![Prefix { value: 80, len: 16 }]);
    assert_eq!(range_to_prefixes_u32(5, 10, 32), vec![
        Prefix { value: 5, len: 32 },
        Prefix { value: 6, len: 31 },
        Prefix { value: 8, len: 31 },
        Prefix { value: 10, len: 32 },
    ]);
    assert!(range_to_prefixes_u32(10, 5, 32).is_empty());
}

#[test]
fn prefixes_cover_exactly_by_enumeration() {
    for min in 0..=255u32 {
        for max in [min, min + 1, min + 7, 255u32.min(min + 100), 255] {
            if max < min || max > 255 {
                continue;
            }
            let ps = range_to_prefixes_u8(min as u8, max as u8);
            let mut count = vec![0u32; 256];
            for p in &ps {
                let size = 1u32 << (8 - p.len);
                assert_eq!(p.value as u32 % size, 0, "aligned");
                for v in p.value as u32..p.value as u32 + size {
                    count[v as usize] += 1;
                }
            }
            for v in 0..256u32 {
                let expected = if v >= min && v <= max { 1 } else { 0 };
                assert_eq!(count[v as usize], expected, "value {} of [{}, {}]", v, min, max);
            }
        }
    }
}

#[test]
fn endpoints_are_sorted_and_distinct() {
    let rules = vec![port_rule(0, 500, 900), port_rule(1, 100, 200), port_rule(2, 100, 65535)];
    assert_eq!(endpoints(&rules, Dimension::SrcPort), vec![100, 201, 500, 901, 65536]);
    assert_eq!(endpoints(&rules, Dimension::Proto), vec![0, 256]);
}

#[test]
fn split_counts_and_duplication() {
    let rules = vec![port_rule(0, 0, 99), port_rule(1, 50, 150), port_rule(2, 100, 199)];
    assert_eq!(count_split(&rules, Dimension::SrcPort, 100), (2, 2));
    let (left, right) = partition_rules(&rules, Dimension::SrcPort, 100);
    assert_eq!(left.iter().map(|r| r.id).collect::<Vec<_>>(), vec![0, 1]);
    assert_eq!(right.iter().map(|r| r.id).collect::<Vec<_>>(), vec![1, 2]);
}

#[test]
fn small_rule_sets_build_a_leaf() {
    let rules = vec![port_rule(0, 0, 99), port_rule(1, 50, 150)];
    let node = Builder::new(10, 20).build(&rules);
    assert!(node.is_leaf());
    let many: Vec<Rule> = (0..40).map(|i| port_rule(i, (i * 100) as u16, (i * 100 + 50) as u16)).collect();
    let node = Builder::new(4, 20).build(&many);
    assert!(!node.is_leaf());
    assert!(matches!(node, Node::Internal { .. }));
}

#[test]
fn interval_tree_finds_strongest_match() {
    let rules = vec![port_rule(5, 0, 1000), port_rule(3, 400, 600), port_rule(9, 450, 460)];
    let tree = IntervalTree::build(rules, 2);
    let p = FiveTuple { src_ip: 0, dst_ip: 0, src_port: 455, dst_port: 0, proto: 0 };
    assert_eq!(tree.classify_packet(&p, 455).map(|r| r.id), Some(3));
    let q = FiveTuple { src_port: 700, ..p };
    assert_eq!(tree.classify_packet(&q, 700).map(|r| r.id), Some(5));
    let empty = IntervalTree::build(Vec::new(), 0);
    assert!(empty.classify_packet(&p, 0).is_none());
}

#[test]
fn generated_rules_have_the_promised_shape() {
    let mut sim = Simulation::new(7);
    let rules = sim.generate_rules(200);
    assert_eq!(rules.len(), 201);
    for (i, r) in rules.iter().enumerate().take(200) {
        assert_eq!(r.priority as usize, i);
        assert_eq!(r.id as usize, i);
        let lan = r.src_ip.min >= 0xC0A80000 && r.src_ip.min <= 0xC0A8FFFF && r.src_port.min == 1024;
        let wan = r.dst_port.min == 80 && r.dst_ip.min == r.dst_ip.max && r.proto.min == 6;
        let igmp = r.proto.min == 2 && r.dst_ip.min == 0xE0000000 && r.dst_ip.max == 0xEFFFFFFF;
        assert!(lan || wan || igmp, "rule {} {:?}", i, r);
    }
    let last = rules[200];
    assert_eq!(last.priority, 200);
    assert_eq!(last.action, Action::Deny);
    assert_eq!((last.src_ip.min, last.src_ip.max), (0, u32::MAX));
    // Not all rules can be of one kind for this seed.
    assert!(rules.iter().any(|r| r.proto.min == 2));
    assert!(rules.iter().any(|r| r.src_port.min == 1024));

    let packets = sim.generate_packets(300);
    assert_eq!(packets.len(), 300);
    assert!(packets.iter().all(|p| p.proto == 2 || p.proto == 6 || p.proto == 17));
    assert!(packets.iter().any(|p| p.proto == 2));
}

#[test]
fn same_seed_same_workload() {
    let a = Simulation::new(99).generate_rules(50);
    let b = Simulation::new(99).generate_rules(50);
    for (x, y) in a.iter().zip(b.iter()) {
        assert_eq!((x.src_ip, x.dst_ip, x.src_port, x.dst_port, x.proto, x.action), (y.src_ip, y.dst_ip, y.src_port, y.dst_port, y.proto, y.action));
    }
}

#[test]
fn hicuts_root_cuts_into_equal_strides() {
    // Spread over the whole port space so that equal strides separate them.
    let many: Vec<Rule> = (0..40).map(|i| port_rule(i, (i * 1600) as u16, (i * 1600 + 50) as u16)).collect();
    match HiCutsBuilder::new(4, 20).build(&many) {
        HiCutsNode::Internal { start, step, num_cuts, children, .. } => {
            assert!([2u32, 4, 8, 16].contains(&num_cuts));
            assert_eq!(children.len(), num_cuts as usize);
            assert!(step >= 1);
            assert_eq!(start, 0);
        }
        HiCutsNode::Leaf { .. } => panic!("forty rules over threshold four must be cut"),
    }
}

#[test]
fn cutsplit_root_cuts_at_a_median_port_endpoint() {
    let many: Vec<Rule> = (0..40).map(|i| port_rule(i, (i * 100) as u16, (i * 100 + 50) as u16)).collect();
    match Builder::new(4, 20).build(&many) {
        Node::Internal { dimension, cut_val, .. } => {
            assert_eq!(dimension, Dimension::SrcPort);
            let pts = endpoints(&many, Dimension::SrcPort);
            assert_eq!(cut_val, pts[pts.len() / 2]);
        }
        Node::Leaf { .. } => panic!("forty rules over threshold four must be cut"),
    }
}

#[test]
fn interval_tree_ties_go_to_the_rule_given_first() {
    // Equal priorities, wildcard but for the source port: the center lands
    // on 10, so the first two rules sit in different nodes.
    let mut a = port_rule(0, 0, 0);
    let mut b = port_rule(1, 0, 10);
    let mut c = port_rule(2, 10, 10);
    a.priority = 0;
    b.priority = 0;
    c.priority = 0;
    let tree = IntervalTree::build(vec![a, b, c], 2);
    let p = FiveTuple { src_ip: 0, dst_ip: 0, src_port: 0, dst_port: 0, proto: 0 };
    assert_eq!(tree.classify_packet(&p, 0).map(|r| r.id), Some(0));
    let q = FiveTuple { src_port: 10, ..p };
    assert_eq!(tree.classify_packet(&q, 10).map(|r| r.id), Some(1));
}

#[test]
fn partitionsort_keeps_the_best_dimension() {
    let none: Vec<Rule> = Vec::new();
    assert_eq!(PartitionSortClassifier::build(&none).dimension(), None);
    // Rules that differ only in the source port: every other dimension puts
    // all of them in one node, so the source port (2) is chosen.
    let rules: Vec<Rule> = (0..20).map(|i| port_rule(i, (i * 1000) as u16, (i * 1000 + 10) as u16)).collect();
    assert_eq!(PartitionSortClassifier::build(&rules).dimension(), Some(2));
}
