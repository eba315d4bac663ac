use cutsplit::classifier::Classifier;
use cutsplit::cutsplit::classifier::CutSplitClassifier;
use cutsplit::hicuts::classifier::HiCutsClassifier;
use cutsplit::hypersplit::classifier::HyperSplitClassifier;
use cutsplit::linear::LinearClassifier;
use cutsplit::packet::{FiveTuple, PROTO_TCP, PROTO_UDP};
use cutsplit::partitionsort::classifier::PartitionSortClassifier;
use cutsplit::rule::{Action, Range, Rule};
use cutsplit::tss::classifier::TSSClassifier;

fn wildcard(id: u32, priority: u32, action: Action) -> Rule {
    Rule {
        id,
        priority,
        src_ip: Range::any(0, u32::MAX),
        dst_ip: Range::any(0, u32::MAX),
        src_port: Range::any(0, 65535),
        dst_port: Range::any(0, 65535),
        proto: Range::any(0, 255),
        action,
    }
}

fn tuple(src_ip: u32, dst_ip: u32, src_port: u16, dst_port: u16, proto: u8) -> FiveTuple {
    FiveTuple { src_ip, dst_ip, src_port, dst_port, proto }
}

/// The six engines built from one rule set.
struct Engines {
    linear: LinearClassifier,
    cutsplit: CutSplitClassifier,
    hicuts: HiCutsClassifier,
    hypersplit: HyperSplitClassifier,
    tss: TSSClassifier,
    partitionsort: PartitionSortClassifier,
}

impl Engines {
    fn new(rules: &[Rule]) -> Self {
        Engines {
            linear: LinearClassifier::build(rules),
            cutsplit: CutSplitClassifier::build(rules),
            hicuts: HiCutsClassifier::build(rules),
            hypersplit: HyperSplitClassifier::build(rules),
            tss: TSSClassifier::build(rules),
            partitionsort: PartitionSortClassifier::build(rules),
        }
    }

    /// Every engine's answer, in a fixed order.
    fn answers(&self, packet: &FiveTuple) -> Vec<Option<Action>> {
        vec![
            self.linear.classify(packet),
            self.cutsplit.classify(packet),
            self.hicuts.classify(packet),
            self.hypersplit.classify(packet),
            self.tss.classify(packet),
            self.partitionsort.classify(packet),
        ]
    }

    fn check(&self, packet: FiveTuple, expected: Option<Action>) {
        for (engine, got) in self.answers(&packet).into_iter().enumerate() {
            assert_eq!(got, expected, "engine {} on {:?}", engine, packet);
        }
    }
}

fn all_answers(rules: &[Rule], packet: &FiveTuple) -> Vec<Option<Action>> {
    Engines::new(rules).answers(packet)
}

fn assert_all(rules: &[Rule], packet: FiveTuple, expected: Option<Action>) {
    Engines::new(rules).check(packet, expected);
}

#[test]
fn catch_all_denies_everything() {
    let rules = vec![wildcard(0, 0, Action::Deny)];
    for p in [tuple(0, 0, 0, 0, 0), tuple(u32::MAX, u32::MAX, 65535, 65535, 255), tuple(0xC0A80101, 0x08080808, 5000, 443, PROTO_TCP)] {
        assert_all(&rules, p, Some(Action::Deny));
    }
}

#[test]
fn lower_priority_value_wins() {
    let rules = vec![wildcard(0, 1, Action::Permit), wildcard(1, 0, Action::Deny)];
    for p in [tuple(0, 0, 0, 0, 0), tuple(1, 2, 3, 4, 5), tuple(u32::MAX, 7, 65535, 1, PROTO_UDP)] {
        assert_all(&rules, p, Some(Action::Deny));
    }
}

#[test]
fn exact_tcp_80_match() {
    let rules = vec![Rule {
        id: 0,
        priority: 0,
        src_ip: Range::any(0, u32::MAX),
        dst_ip: Range::exact(0xC0A8010A),
        src_port: Range::any(0, 65535),
        dst_port: Range::exact(80),
        proto: Range::exact(PROTO_TCP),
        action: Action::Permit,
    }];
    assert_all(&rules, tuple(0x0A000001, 0xC0A8010A, 40000, 80, 6), Some(Action::Permit));
    assert_all(&rules, tuple(0x0A000001, 0xC0A8010A, 40000, 81, 6), None);
    assert_all(&rules, tuple(0x0A000001, 0xC0A8010B, 40000, 80, 6), None);
    assert_all(&rules, tuple(0x0A000001, 0xC0A8010A, 40000, 80, PROTO_UDP), None);
}

#[test]
fn range_straddle_on_source_port() {
    let mut rules = Vec::new();
    for i in 0..30u32 {
        let lo = (i * 100) as u16;
        rules.push(Rule {
            id: i,
            priority: i + 1,
            src_ip: Range::any(0, u32::MAX),
            dst_ip: Range::exact(0x0A000000 + i),
            src_port: Range::new(lo, lo + 50),
            dst_port: Range::any(0, 65535),
            proto: Range::any(0, 255),
            action: Action::Deny,
        });
    }
    rules.push(Rule {
        id: 100,
        priority: 0,
        src_ip: Range::any(0, u32::MAX),
        dst_ip: Range::any(0, u32::MAX),
        src_port: Range::new(1000, 2000),
        dst_port: Range::any(0, 65535),
        proto: Range::any(0, 255),
        action: Action::Permit,
    });
    assert_all(&rules, tuple(1, 0x0B000000, 1500, 80, 6), Some(Action::Permit));
    assert_all(&rules, tuple(1, 0x0B000000, 1000, 80, 6), Some(Action::Permit));
    assert_all(&rules, tuple(1, 0x0B000000, 2000, 80, 6), Some(Action::Permit));
    assert_all(&rules, tuple(1, 0x0B000000, 999, 80, 6), None);
    assert_all(&rules, tuple(1, 0x0B000000, 2001, 80, 6), None);
    // Inside a Deny range too: the Permit rule is stronger.
    assert_all(&rules, tuple(1, 0x0A000010, 1620, 80, 6), Some(Action::Permit));
    assert_all(&rules, tuple(1, 0x0A000011, 1720, 80, 6), Some(Action::Permit));
    // Outside the Permit range, inside a Deny one.
    assert_all(&rules, tuple(1, 0x0A000005, 520, 80, 6), Some(Action::Deny));
}

#[test]
fn empty_rule_set_matches_nothing() {
    let rules: Vec<Rule> = Vec::new();
    assert_all(&rules, tuple(1, 2, 3, 4, 5), None);
    assert_all(&rules, tuple(0, 0, 0, 0, 0), None);
}

#[test]
fn inverted_range_matches_nothing() {
    let mut r = wildcard(0, 0, Action::Permit);
    r.src_port = Range::new(2000, 1000);
    let rules = vec![r, wildcard(1, 5, Action::Deny)];
    for port in [0u16, 999, 1000, 1500, 2000, 65535] {
        assert_all(&rules, tuple(1, 2, port, 4, 6), Some(Action::Deny));
    }
    let only_inverted = vec![r, r];
    assert_all(&only_inverted, tuple(1, 2, 1500, 4, 6), None);
}

#[test]
fn equal_priorities_go_to_the_rule_given_first() {
    let rules = vec![wildcard(0, 3, Action::Permit), wildcard(1, 3, Action::Deny)];
    assert_all(&rules, tuple(9, 9, 9, 9, 9), Some(Action::Permit));
    let rules = vec![wildcard(0, 3, Action::Deny), wildcard(1, 3, Action::Permit)];
    assert_all(&rules, tuple(9, 9, 9, 9, 9), Some(Action::Deny));
}

#[test]
fn many_overlapping_rules_agree_with_linear() {
    // Enough rules to make every tree split, with ties and nested ranges.
    let mut rules = Vec::new();
    for i in 0..60u32 {
        let base = (i % 7) * 1000;
        rules.push(Rule {
            id: i,
            priority: i / 3,
            src_ip: Range::new(i * 17, i * 17 + 300),
            dst_ip: Range::new(base, base + 5000),
            src_port: Range::new((i * 13) as u16, (i * 13 + 700) as u16),
            dst_port: Range::new((i * 29) as u16, (i * 29 + 90) as u16),
            proto: Range::new((i % 4) as u8, (i % 4 + 10) as u8),
            action: if i % 2 == 0 { Action::Permit } else { Action::Deny },
        });
    }
    let engines = Engines::new(&rules);
    for k in 0..400u32 {
        let p = tuple(k * 3, k * 41, (k * 7) as u16, (k * 11 % 2000) as u16, (k % 16) as u8);
        let expected = engines.linear.classify(&p);
        engines.check(p, expected);
    }
}

#[test]
fn appending_weaker_rules_keeps_decisions() {
    let base = vec![
        Rule {
            id: 0,
            priority: 2,
            src_ip: Range::new(100, 200),
            dst_ip: Range::any(0, u32::MAX),
            src_port: Range::any(0, 65535),
            dst_port: Range::exact(22),
            proto: Range::exact(PROTO_TCP),
            action: Action::Permit,
        },
        wildcard(1, 4, Action::Deny),
    ];
    let mut extended = base.clone();
    extended.push(wildcard(2, 9, Action::Permit));
    extended.push(wildcard(3, 7, Action::Permit));
    for p in [tuple(150, 1, 2, 22, 6), tuple(50, 1, 2, 22, 6), tuple(150, 1, 2, 23, 6)] {
        let before = all_answers(&base, &p);
        let after = all_answers(&extended, &p);
        assert_eq!(before, after);
    }
    assert_eq!(LinearClassifier::build(&base).classify(&tuple(150, 1, 2, 22, 6)), Some(Action::Permit));
    assert_eq!(LinearClassifier::build(&base).classify(&tuple(50, 1, 2, 22, 6)), Some(Action::Deny));
}
