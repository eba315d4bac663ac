//! Deterministic workload generator: rule sets shaped like a small-office
//! firewall and packets biased toward them, from a seeded PCG32 stream.
use vstd::prelude::*;
use rand::{Rng, SeedableRng};
use crate::packet::{FiveTuple, PROTO_IGMP, PROTO_TCP, PROTO_UDP};
use crate::rule::{Action, Range, Rule};

verus! {

#[verifier::external_type_specification]
#[verifier::external_body]
pub struct ExPcg32(rand_pcg::Pcg32);

/// Relies on `SeedableRng::seed_from_u64` for PCG32: the stream is a
/// function of the seed.
#[verifier::external_body]
fn seeded_pcg32(seed: u64) -> rand_pcg::Pcg32 {
    rand_pcg::Pcg32::seed_from_u64(seed)
}

/// Relies on `Rng::gen_ratio`: true with probability
/// `numerator / denominator`; it panics on a zero denominator or a numerator
/// above it.
#[verifier::external_body]
fn draw_ratio(rng: &mut rand_pcg::Pcg32, numerator: u32, denominator: u32) -> bool
    requires
        0 < denominator,
        numerator <= denominator,
{
    rng.gen_ratio(numerator, denominator)
}

/// Relies on `Rng::gen_range` over `low..high`: a value of the half-open
/// range; it panics on an empty range.
#[verifier::external_body]
fn draw_below(rng: &mut rand_pcg::Pcg32, low: u32, high: u32) -> (r: u32)
    requires
        low < high,
    ensures
        low <= r < high,
{
    rng.gen_range(low..high)
}

/// Relies on `Rng::gen::<u32>`: any 32-bit value.
#[verifier::external_body]
fn draw_u32(rng: &mut rand_pcg::Pcg32) -> u32 {
    rng.gen::<u32>()
}

/// Relies on `Rng::gen::<u16>`: any 16-bit value.
#[verifier::external_body]
fn draw_u16(rng: &mut rand_pcg::Pcg32) -> u16 {
    rng.gen::<u16>()
}

/// Relies on `Rng::gen::<bool>`: a fair coin.
#[verifier::external_body]
fn draw_bool(rng: &mut rand_pcg::Pcg32) -> bool {
    rng.gen::<bool>()
}

/// Base of the LAN, 192.168.0.0/16.
pub const LAN_BASE: u32 = 0xC0A8_0000;

/// The multicast block 224.0.0.0/4.
pub const MULTICAST_MIN: u32 = 0xE000_0000;

pub const MULTICAST_MAX: u32 = 0xEFFF_FFFF;

/// `a + b`, or `u32::MAX` where that overflows.
pub open spec fn sat_add(a: u32, b: u32) -> u32 {
    if a + b > u32::MAX { u32::MAX } else { (a + b) as u32 }
}

/// A LAN-to-WAN service rule: a short range of LAN sources, 101 WAN
/// destinations from a random start, any unprivileged source port, one
/// well-known service port, TCP or UDP.
pub open spec fn lan_to_wan_shape(r: Rule) -> bool {
    &&& LAN_BASE <= r.src_ip.min <= LAN_BASE + 0xFFFF
    &&& r.src_ip.min <= r.src_ip.max <= r.src_ip.min + 254
    &&& r.dst_ip.max == sat_add(r.dst_ip.min, 100)
    &&& r.src_port.min == 1024 && r.src_port.max == 65535
    &&& r.dst_port.min == r.dst_port.max
    &&& (r.dst_port.min == 80 || r.dst_port.min == 443 || r.dst_port.min == 53 || r.dst_port.min == 8080)
    &&& r.proto.min == r.proto.max
    &&& (r.proto.min == PROTO_TCP || r.proto.min == PROTO_UDP)
}

/// A WAN-to-LAN web rule: 51 WAN sources from a random start, one LAN host,
/// TCP to port 80.
pub open spec fn wan_to_lan_shape(r: Rule) -> bool {
    &&& r.src_ip.max == sat_add(r.src_ip.min, 50)
    &&& r.dst_ip.min == r.dst_ip.max
    &&& LAN_BASE <= r.dst_ip.min <= LAN_BASE + 0xFFFF
    &&& r.src_port.min == 0 && r.src_port.max == 65535
    &&& r.dst_port.min == 80 && r.dst_port.max == 80
    &&& r.proto.min == PROTO_TCP && r.proto.max == PROTO_TCP
}

/// An IGMP rule: any source, multicast destinations, any ports, IGMP.
pub open spec fn igmp_shape(r: Rule) -> bool {
    &&& r.src_ip.min == 0 && r.src_ip.max == u32::MAX
    &&& r.dst_ip.min == MULTICAST_MIN && r.dst_ip.max == MULTICAST_MAX
    &&& r.src_port.min == 0 && r.src_port.max == 65535
    &&& r.dst_port.min == 0 && r.dst_port.max == 65535
    &&& r.proto.min == PROTO_IGMP && r.proto.max == PROTO_IGMP
}

/// The closing rule: every range a wildcard, Deny.
pub open spec fn catch_all_shape(r: Rule) -> bool {
    &&& r.src_ip.min == 0 && r.src_ip.max == u32::MAX
    &&& r.dst_ip.min == 0 && r.dst_ip.max == u32::MAX
    &&& r.src_port.min == 0 && r.src_port.max == 65535
    &&& r.dst_port.min == 0 && r.dst_port.max == 65535
    &&& r.proto.min == 0 && r.proto.max == 255
    &&& r.action == Action::Deny
}

/// Address `base | (x & 0xFFFF)` lies in the /16 at `base`.
proof fn lemma_lan_address(x: u32)
    ensures
        LAN_BASE <= (LAN_BASE | (x & 0xFFFF)) <= LAN_BASE + 0xFFFF,
{
    assert(LAN_BASE <= (0xC0A8_0000u32 | (x & 0xFFFFu32)) <= 0xC0A8_FFFFu32) by (bit_vector);
}

/// The source address of a LAN rule: the LAN base with the low
/// `32 - mask_len` bits taken from `suffix`.
pub open spec fn lan_source(mask_len: u32, suffix: u32) -> u32 {
    LAN_BASE | (suffix & (((1u32 << ((32 - mask_len) as u32)) - 1) as u32))
}

/// The LAN host whose low 16 bits come from `bits`.
pub open spec fn lan_host(bits: u32) -> u32 {
    LAN_BASE | (bits & 0xFFFF)
}

/// Service port number `choice`: 80, 443, 53, then 8080.
pub open spec fn spec_service_port(choice: u32) -> u16 {
    if choice == 0 {
        80
    } else if choice == 1 {
        443
    } else if choice == 2 {
        53
    } else {
        8080
    }
}

/// Permit on a true draw, Deny otherwise.
pub fn action_of_draw(permit: bool) -> (a: Action)
    ensures
        a == (if permit { Action::Permit } else { Action::Deny }),
{
    if permit { Action::Permit } else { Action::Deny }
}

/// Service port number `choice`.
pub fn service_port(choice: u32) -> (port: u16)
    ensures
        port == spec_service_port(choice),
{
    if choice == 0 {
        80
    } else if choice == 1 {
        443
    } else if choice == 2 {
        53
    } else {
        8080
    }
}

/// The LAN-to-WAN rule made from its draws: sources from
/// `lan_source(mask_len, suffix)` through `span` more addresses,
/// destinations from `dst_start` through 100 more (saturating), source ports
/// 1024 and up, service port number `port_choice`, TCP or else UDP.
pub fn lan_to_wan_rule(id: u32, action: Action, mask_len: u32, suffix: u32, span: u32, dst_start: u32, port_choice: u32, tcp: bool) -> (r: Rule)
    requires
        16 <= mask_len < 32,
        span < 255,
    ensures
        r.id == id && r.priority == id && r.action == action,
        r.src_ip.min == lan_source(mask_len, suffix),
        r.src_ip.max == lan_source(mask_len, suffix) + span,
        r.dst_ip.min == dst_start && r.dst_ip.max == sat_add(dst_start, 100),
        r.src_port.min == 1024 && r.src_port.max == 65535,
        r.dst_port.min == spec_service_port(port_choice) && r.dst_port.max == spec_service_port(port_choice),
        r.proto.min == (if tcp { PROTO_TCP } else { PROTO_UDP }) && r.proto.max == r.proto.min,
        lan_to_wan_shape(r),
{
    let shift = 32 - mask_len;
    assert(1u32 << shift >= 1u32) by (bit_vector)
        requires 1 <= shift <= 16;
    let src_ip_suffix = suffix & ((1u32 << shift) - 1);
    assert(src_ip_suffix <= 0xFFFF) by (bit_vector)
        requires src_ip_suffix == suffix & (((1u32 << shift) - 1u32) as u32), 1 <= shift <= 16;
    let src_start = LAN_BASE | src_ip_suffix;
    proof {
        assert(src_ip_suffix & 0xFFFF == src_ip_suffix) by (bit_vector)
            requires src_ip_suffix <= 0xFFFF;
        lemma_lan_address(src_ip_suffix);
    }
    let src_end = src_start + span;
    let dst_port = service_port(port_choice);
    let proto = if tcp { PROTO_TCP } else { PROTO_UDP };
    Rule {
        id,
        priority: id,
        src_ip: Range::new(src_start, src_end),
        dst_ip: Range::new(dst_start, dst_start.saturating_add(100)),
        src_port: Range::any(1024, 65535),
        dst_port: Range::exact(dst_port),
        proto: Range::exact(proto),
        action,
    }
}

/// The WAN-to-LAN rule made from its draws: sources from `src_start`
/// through 50 more (saturating), the one LAN host `lan_host(host)`, any
/// source port, TCP to port 80.
pub fn wan_to_lan_rule(id: u32, action: Action, src_start: u32, host: u32) -> (r: Rule)
    ensures
        r.id == id && r.priority == id && r.action == action,
        r.src_ip.min == src_start && r.src_ip.max == sat_add(src_start, 50),
        r.dst_ip.min == lan_host(host) && r.dst_ip.max == lan_host(host),
        wan_to_lan_shape(r),
{
    let dst_addr = LAN_BASE | (host & 0xFFFF);
    proof {
        lemma_lan_address(host);
    }
    Rule {
        id,
        priority: id,
        src_ip: Range::new(src_start, src_start.saturating_add(50)),
        dst_ip: Range::exact(dst_addr),
        src_port: Range::any(0, 65535),
        dst_port: Range::exact(80),
        proto: Range::exact(PROTO_TCP),
        action,
    }
}

/// The IGMP rule: any source, the multicast block, any ports, IGMP.
pub fn igmp_rule(id: u32, action: Action) -> (r: Rule)
    ensures
        r.id == id && r.priority == id && r.action == action,
        igmp_shape(r),
{
    Rule {
        id,
        priority: id,
        src_ip: Range::any(0, u32::MAX),
        dst_ip: Range::new(MULTICAST_MIN, MULTICAST_MAX),
        src_port: Range::any(0, 65535),
        dst_port: Range::any(0, 65535),
        proto: Range::exact(PROTO_IGMP),
        action,
    }
}

/// The packet made from its draws: each address a LAN host on a true coin,
/// else the drawn value itself; IGMP on a true `igmp`, else TCP on a true
/// `tcp`, else UDP.
pub fn packet_from_draws(src_lan: bool, src_bits: u32, dst_lan: bool, dst_bits: u32, src_port: u16, dst_port: u16, igmp: bool, tcp: bool) -> (p: FiveTuple)
    ensures
        p.src_ip == (if src_lan { lan_host(src_bits) } else { src_bits }),
        p.dst_ip == (if dst_lan { lan_host(dst_bits) } else { dst_bits }),
        p.src_port == src_port && p.dst_port == dst_port,
        p.proto == (if igmp { PROTO_IGMP } else if tcp { PROTO_TCP } else { PROTO_UDP }),
{
    let src_ip = if src_lan { LAN_BASE | (src_bits & 0xFFFF) } else { src_bits };
    let dst_ip = if dst_lan { LAN_BASE | (dst_bits & 0xFFFF) } else { dst_bits };
    let proto = if igmp { PROTO_IGMP } else if tcp { PROTO_TCP } else { PROTO_UDP };
    FiveTuple { src_ip, dst_ip, src_port, dst_port, proto }
}

/// Seeded generator of rules and packets.
pub struct Simulation {
    rng: rand_pcg::Pcg32,
}

impl Simulation {
    /// A generator whose output depends on `seed` alone.
    pub fn new(seed: u64) -> Self {
        Self { rng: seeded_pcg32(seed) }
    }

    /// `n_rules` random rules with ids and priorities `0..n_rules`, in the
    /// ratio 6 : 3 : 1 of LAN-to-WAN, WAN-to-LAN and IGMP rules, each Permit
    /// with probability 0.8; then a catch-all Deny with id and priority
    /// `n_rules`.
    pub fn generate_rules(&mut self, n_rules: usize) -> (rules: Vec<Rule>)
        requires
            n_rules <= u32::MAX,
        ensures
            rules@.len() == n_rules + 1,
            forall|i: int| 0 <= i < n_rules ==> {
                &&& (#[trigger] rules@[i]).id == i
                &&& rules@[i].priority == i
                &&& lan_to_wan_shape(rules@[i]) || wan_to_lan_shape(rules@[i]) || igmp_shape(rules@[i])
            },
            rules@[n_rules as int].id == n_rules,
            rules@[n_rules as int].priority == n_rules,
            catch_all_shape(rules@[n_rules as int]),
    {
        let mut rules: Vec<Rule> = Vec::new();
        let mut i: usize = 0;
        while i < n_rules
            invariant
                i <= n_rules <= u32::MAX,
                rules@.len() == i,
                forall|j: int| 0 <= j < i ==> {
                    &&& (#[trigger] rules@[j]).id == j
                    &&& rules@[j].priority == j
                    &&& lan_to_wan_shape(rules@[j]) || wan_to_lan_shape(rules@[j]) || igmp_shape(rules@[j])
                },
            decreases n_rules - i,
        {
            let priority = i as u32;
            let action = action_of_draw(draw_ratio(&mut self.rng, 4, 5));
            let kind = draw_below(&mut self.rng, 0, 10);
            let rule = if kind <= 5 {
                self.gen_lan_to_wan_rule(priority, action)
            } else if kind <= 8 {
                self.gen_wan_to_lan_rule(priority, action)
            } else {
                igmp_rule(priority, action)
            };
            rules.push(rule);
            i = i + 1;
        }
        rules.push(Rule {
            id: n_rules as u32,
            priority: n_rules as u32,
            src_ip: Range::any(0, u32::MAX),
            dst_ip: Range::any(0, u32::MAX),
            src_port: Range::any(0, 65535),
            dst_port: Range::any(0, 65535),
            proto: Range::any(0, 255),
            action: Action::Deny,
        });
        rules
    }

    fn gen_lan_to_wan_rule(&mut self, id: u32, action: Action) -> (r: Rule)
        ensures
            r.id == id,
            r.priority == id,
            r.action == action,
            lan_to_wan_shape(r),
    {
        let mask_len = draw_below(&mut self.rng, 16, 32);
        let suffix = draw_u32(&mut self.rng);
        let span = draw_below(&mut self.rng, 0, 255);
        let dst_start = draw_u32(&mut self.rng);
        let port_choice = draw_below(&mut self.rng, 0, 4);
        let tcp = draw_bool(&mut self.rng);
        lan_to_wan_rule(id, action, mask_len, suffix, span, dst_start, port_choice, tcp)
    }

    fn gen_wan_to_lan_rule(&mut self, id: u32, action: Action) -> (r: Rule)
        ensures
            r.id == id,
            r.priority == id,
            r.action == action,
            wan_to_lan_shape(r),
    {
        let src_start = draw_u32(&mut self.rng);
        let host = draw_u32(&mut self.rng);
        wan_to_lan_rule(id, action, src_start, host)
    }

    /// `n_packets` random packets: each address from the LAN with
    /// probability one half, random ports, and IGMP one time in ten, else
    /// TCP or UDP evenly.
    pub fn generate_packets(&mut self, n_packets: usize) -> (packets: Vec<FiveTuple>)
        ensures
            packets@.len() == n_packets,
            forall|i: int| 0 <= i < n_packets ==> {
                let pr = (#[trigger] packets@[i]).proto;
                pr == PROTO_IGMP || pr == PROTO_TCP || pr == PROTO_UDP
            },
    {
        let mut packets: Vec<FiveTuple> = Vec::new();
        let mut i: usize = 0;
        while i < n_packets
            invariant
                i <= n_packets,
                packets@.len() == i,
                forall|j: int| 0 <= j < i ==> {
                    let pr = (#[trigger] packets@[j]).proto;
                    pr == PROTO_IGMP || pr == PROTO_TCP || pr == PROTO_UDP
                },
            decreases n_packets - i,
        {
            let src_lan = draw_ratio(&mut self.rng, 1, 2);
            let src_bits = draw_u32(&mut self.rng);
            let dst_lan = draw_ratio(&mut self.rng, 1, 2);
            let dst_bits = draw_u32(&mut self.rng);
            let src_port = draw_u16(&mut self.rng);
            let dst_port = draw_u16(&mut self.rng);
            let igmp = draw_ratio(&mut self.rng, 1, 10);
            // The TCP-or-UDP coin is drawn only for a non-IGMP packet.
            let tcp = if igmp { false } else { draw_bool(&mut self.rng) };
            let packet = packet_from_draws(src_lan, src_bits, dst_lan, dst_bits, src_port, dst_port, igmp, tcp);
            packets.push(packet);
            i = i + 1;
        }
        packets
    }
}

} // verus!
