//! TupleMerge classifier: every rule is split into prefix combinations; each
//! combination is stored in a hash table keyed by a tuple of prefix lengths,
//! merged into an existing table with shorter lengths where one is close.
use vstd::prelude::*;
use vstd::arithmetic::power2::{pow2, lemma2_to64};
use vstd::arithmetic::div_mod::lemma_small_mod;
use vstd::bits::{lemma_u32_shl_is_mul, lemma_u32_pow2_no_overflow, lemma_u32_low_bits_mask_is_mod, lemma_u16_shl_is_mul, lemma_u16_pow2_no_overflow, lemma_u16_low_bits_mask_is_mod, lemma_u8_shl_is_mul, lemma_u8_pow2_no_overflow, lemma_u8_low_bits_mask_is_mod};
use crate::classifier::Classifier;
use crate::order::{first_match, lemma_first_match_some, sort_by_priority, sort_rules};
use crate::packet::FiveTuple;
use crate::rule::{Action, Rule};
use crate::tss::utils::{block, free_bits, mask, maximal, lemma_block_bounds, lemma_holds_iff_mask, lemma_mask_twice, held_by, decomposes, prefix_holds, Prefix, range_to_prefixes_u32, range_to_prefixes_u16, range_to_prefixes_u8};

verus! {

/// Prefix lengths of the five fields; names one hash table.
#[derive(Debug, Clone, Copy, PartialEq, Eq, Hash, Structural)]
struct Tuple {
    src_ip_len: u32,
    dst_ip_len: u32,
    src_port_len: u32,
    dst_port_len: u32,
    proto_len: u32,
}

/// Every length is at most its field's width.
spec fn tuple_ok(t: Tuple) -> bool {
    &&& t.src_ip_len <= 32
    &&& t.dst_ip_len <= 32
    &&& t.src_port_len <= 16
    &&& t.dst_port_len <= 16
    &&& t.proto_len <= 8
}

/// `a` is no longer than `b` in any field.
spec fn spec_subset(a: Tuple, b: Tuple) -> bool {
    &&& a.src_ip_len <= b.src_ip_len
    &&& a.dst_ip_len <= b.dst_ip_len
    &&& a.src_port_len <= b.src_port_len
    &&& a.dst_port_len <= b.dst_port_len
    &&& a.proto_len <= b.proto_len
}

impl Tuple {
    /// Whether `self` is no longer than `other` in any field, so that a
    /// combination of `other` can be stored in `self`'s table.
    fn is_subset_of(&self, other: &Tuple) -> (r: bool)
        ensures
            r == spec_subset(*self, *other),
    {
        self.src_ip_len <= other.src_ip_len && self.dst_ip_len <= other.dst_ip_len
            && self.src_port_len <= other.src_port_len && self.dst_port_len <= other.dst_port_len
            && self.proto_len <= other.proto_len
    }

    /// Total number of bits by which `other` is longer than `self`.
    fn bit_difference(&self, other: &Tuple) -> (r: u32)
        requires
            spec_subset(*self, *other),
            tuple_ok(*other),
        ensures
            r == (other.src_ip_len - self.src_ip_len) + (other.dst_ip_len - self.dst_ip_len) + (other.src_port_len
                - self.src_port_len) + (other.dst_port_len - self.dst_port_len) + (other.proto_len - self.proto_len),
    {
        (other.src_ip_len - self.src_ip_len) + (other.dst_ip_len - self.dst_ip_len) + (other.src_port_len
            - self.src_port_len) + (other.dst_port_len - self.dst_port_len) + (other.proto_len - self.proto_len)
    }
}

/// The key of a table: field values masked to the table's lengths.
#[derive(Debug, Clone, Copy, PartialEq, Eq, Hash, Structural)]
struct TupleKey {
    src_ip: u32,
    dst_ip: u32,
    src_port: u16,
    dst_port: u16,
    proto: u8,
}

/// The key under which table `t` files the given field values.
spec fn spec_key(src_ip: u32, dst_ip: u32, src_port: u16, dst_port: u16, proto: u8, t: Tuple) -> TupleKey {
    TupleKey {
        src_ip: mask(src_ip as int, t.src_ip_len, 32) as u32,
        dst_ip: mask(dst_ip as int, t.dst_ip_len, 32) as u32,
        src_port: mask(src_port as int, t.src_port_len, 16) as u16,
        dst_port: mask(dst_port as int, t.dst_port_len, 16) as u16,
        proto: mask(proto as int, t.proto_len, 8) as u8,
    }
}

/// The key a packet probes table `t` with.
spec fn packet_key(p: FiveTuple, t: Tuple) -> TupleKey {
    spec_key(p.src_ip, p.dst_ip, p.src_port, p.dst_port, p.proto, t)
}

impl TupleKey {
    /// The key of `packet` in the table of `tuple`.
    fn new(packet: &FiveTuple, tuple: &Tuple) -> (k: Self)
        ensures
            k == packet_key(*packet, *tuple),
    {
        Self {
            src_ip: Self::mask_u32(packet.src_ip, tuple.src_ip_len),
            dst_ip: Self::mask_u32(packet.dst_ip, tuple.dst_ip_len),
            src_port: Self::mask_u16(packet.src_port, tuple.src_port_len),
            dst_port: Self::mask_u16(packet.dst_port, tuple.dst_port_len),
            proto: Self::mask_u8(packet.proto, tuple.proto_len),
        }
    }

    /// The key of the given field values in the table of `tuple`.
    fn from_values(src_ip: u32, dst_ip: u32, src_port: u16, dst_port: u16, proto: u8, tuple: &Tuple) -> (k: Self)
        ensures
            k == spec_key(src_ip, dst_ip, src_port, dst_port, proto, *tuple),
    {
        Self {
            src_ip: Self::mask_u32(src_ip, tuple.src_ip_len),
            dst_ip: Self::mask_u32(dst_ip, tuple.dst_ip_len),
            src_port: Self::mask_u16(src_port, tuple.src_port_len),
            dst_port: Self::mask_u16(dst_port, tuple.dst_port_len),
            proto: Self::mask_u8(proto, tuple.proto_len),
        }
    }

    /// Clears the low `32 - len` bits of `val`.
    fn mask_u32(val: u32, len: u32) -> (r: u32)
        ensures
            r == mask(val as int, len, 32),
    {
        if len == 0 {
            proof {
                lemma2_to64();
                lemma_small_mod(val as nat, pow2(32));
            }
            return 0;
        }
        if len >= 32 {
            proof {
                lemma2_to64();
            }
            return val;
        }
        let s = 32 - len;
        proof {
            assert(val & (!0u32 << s) == val - (val & (((1u32 << s) - 1u32) as u32))) by (bit_vector)
                requires s < 32;
            lemma_u32_pow2_no_overflow(s as nat);
            lemma_u32_shl_is_mul(1, s);
            lemma_u32_low_bits_mask_is_mod(val, s as nat);
            assert(free_bits(len, 32) == s);
        }
        val & (!0u32 << s)
    }

    /// Clears the low `16 - len` bits of `val`.
    fn mask_u16(val: u16, len: u32) -> (r: u16)
        ensures
            r == mask(val as int, len, 16),
    {
        if len == 0 {
            proof {
                lemma2_to64();
                lemma_small_mod(val as nat, pow2(16));
            }
            return 0;
        }
        if len >= 16 {
            proof {
                lemma2_to64();
            }
            return val;
        }
        let s = (16 - len) as u16;
        proof {
            assert(val & (!0u16 << s) == val - (val & (((1u16 << s) - 1u16) as u16))) by (bit_vector)
                requires s < 16;
            lemma_u16_pow2_no_overflow(s as nat);
            lemma_u16_shl_is_mul(1, s);
            lemma_u16_low_bits_mask_is_mod(val, s as nat);
            assert(free_bits(len, 16) == s);
        }
        val & (!0u16 << s)
    }

    /// Clears the low `8 - len` bits of `val`.
    fn mask_u8(val: u8, len: u32) -> (r: u8)
        ensures
            r == mask(val as int, len, 8),
    {
        if len == 0 {
            proof {
                lemma2_to64();
                lemma_small_mod(val as nat, pow2(8));
            }
            return 0;
        }
        if len >= 8 {
            proof {
                lemma2_to64();
            }
            return val;
        }
        let s = (8 - len) as u8;
        proof {
            assert(val & (!0u8 << s) == val - (val & (((1u8 << s) - 1u8) as u8))) by (bit_vector)
                requires s < 8;
            lemma_u8_pow2_no_overflow(s as nat);
            lemma_u8_shl_is_mul(1, s);
            lemma_u8_low_bits_mask_is_mod(val, s as nat);
            assert(free_bits(len, 8) == s);
        }
        val & (!0u8 << s)
    }
}

/// One prefix combination of a rule: a prefix per field, with the tuple of
/// their lengths.
#[derive(Debug, Clone, Copy)]
struct Part {
    tuple: Tuple,
    src_ip: u32,
    dst_ip: u32,
    src_port: u16,
    dst_port: u16,
    proto: u8,
}

/// The lengths fit their fields and each value is aligned to its length.
spec fn part_ok(e: Part) -> bool {
    &&& tuple_ok(e.tuple)
    &&& e.src_ip as int % block(32, e.tuple.src_ip_len) == 0
    &&& e.dst_ip as int % block(32, e.tuple.dst_ip_len) == 0
    &&& e.src_port as int % block(16, e.tuple.src_port_len) == 0
    &&& e.dst_port as int % block(16, e.tuple.dst_port_len) == 0
    &&& e.proto as int % block(8, e.tuple.proto_len) == 0
}

/// Each prefix of the combination holds the packet's field.
spec fn part_holds(e: Part, p: FiveTuple) -> bool {
    &&& prefix_holds(e.src_ip as int, e.tuple.src_ip_len, 32, p.src_ip as int)
    &&& prefix_holds(e.dst_ip as int, e.tuple.dst_ip_len, 32, p.dst_ip as int)
    &&& prefix_holds(e.src_port as int, e.tuple.src_port_len, 16, p.src_port as int)
    &&& prefix_holds(e.dst_port as int, e.tuple.dst_port_len, 16, p.dst_port as int)
    &&& prefix_holds(e.proto as int, e.tuple.proto_len, 8, p.proto as int)
}

/// Some combination of `parts` holds the packet.
spec fn some_part_holds(parts: Seq<Part>, p: FiveTuple) -> bool {
    exists|e: int| 0 <= e < parts.len() && #[trigger] part_holds(parts[e], p)
}

proof fn lemma_some_part_push(parts: Seq<Part>, x: Part)
    ensures
        forall|p: FiveTuple| #[trigger] some_part_holds(parts.push(x), p) <== some_part_holds(parts, p) || part_holds(x, p),
{
    assert forall|p: FiveTuple| some_part_holds(parts, p) || part_holds(x, p) implies #[trigger] some_part_holds(parts.push(x), p) by {
        if some_part_holds(parts, p) {
            let e = choose|e: int| 0 <= e < parts.len() && #[trigger] part_holds(parts[e], p);
            assert(parts.push(x)[e] == parts[e]);
        } else {
            assert(parts.push(x)[parts.len() as int] == x);
        }
    }
}

/// A value held by the first `a + 1` prefixes is held by the first `a` or by prefix `a`.
proof fn lemma_held_by_take(s: Seq<Prefix<u32>>, bits: u32, a: int)
    requires
        0 <= a < s.len(),
    ensures
        forall|v: int| #[trigger] held_by(s.take(a + 1), bits, v) ==> held_by(s.take(a), bits, v) || prefix_holds(s[a].value as int, s[a].len, bits, v),
{
    assert forall|v: int| #[trigger] held_by(s.take(a + 1), bits, v) implies held_by(s.take(a), bits, v) || prefix_holds(s[a].value as int, s[a].len, bits, v) by {
        let i = choose|i: int| 0 <= i < s.take(a + 1).len() && #[trigger] prefix_holds(s.take(a + 1)[i].value as int, s.take(a + 1)[i].len, bits, v);
        if i < a {
            assert(s.take(a)[i] == s[i]);
        }
    }
}

proof fn lemma_take_all(s: Seq<Prefix<u32>>)
    ensures
        s.take(s.len() as int) == s,
{
    assert(s.take(s.len() as int) =~= s);
}

/// The four-byte form of 16-bit prefixes.
spec fn widen16(s: Seq<Prefix<u16>>) -> Seq<Prefix<u32>> {
    s.map_values(|q: Prefix<u16>| Prefix { value: q.value as u32, len: q.len })
}

/// The four-byte form of 8-bit prefixes.
spec fn widen8(s: Seq<Prefix<u8>>) -> Seq<Prefix<u32>> {
    s.map_values(|q: Prefix<u8>| Prefix { value: q.value as u32, len: q.len })
}

/// Prefix `x` over `bits`-wide values holds `v`.
spec fn ph(x: Prefix<u32>, bits: u32, v: int) -> bool {
    prefix_holds(x.value as int, x.len, bits, v)
}

/// `x` comes before `y` in lexicographic order.
spec fn lex_lt(x: (int, int, int, int, int), y: (int, int, int, int, int)) -> bool {
    x.0 < y.0 || (x.0 == y.0 && (x.1 < y.1 || (x.1 == y.1 && (x.2 < y.2 || (x.2 == y.2 && (x.3 < y.3 || (x.3 == y.3 && x.4 < y.4)))))))
}

/// The combination taking prefix `ix.0` of `s0`, `ix.1` of `s1`, and so on.
spec fn combo_at(
    s0: Seq<Prefix<u32>>,
    s1: Seq<Prefix<u32>>,
    s2: Seq<Prefix<u32>>,
    s3: Seq<Prefix<u32>>,
    s4: Seq<Prefix<u32>>,
    ix: (int, int, int, int, int),
) -> Part {
    Part {
        tuple: Tuple {
            src_ip_len: s0[ix.0].len,
            dst_ip_len: s1[ix.1].len,
            src_port_len: s2[ix.2].len,
            dst_port_len: s3[ix.3].len,
            proto_len: s4[ix.4].len,
        },
        src_ip: s0[ix.0].value,
        dst_ip: s1[ix.1].value,
        src_port: s2[ix.2].value as u16,
        dst_port: s3[ix.3].value as u16,
        proto: s4[ix.4].value as u8,
    }
}

/// `parts` are the combinations at the index tuples `idx`, in strictly
/// ascending lexicographic order and all before `bound`.
spec fn indexed(
    parts: Seq<Part>,
    idx: Seq<(int, int, int, int, int)>,
    s0: Seq<Prefix<u32>>,
    s1: Seq<Prefix<u32>>,
    s2: Seq<Prefix<u32>>,
    s3: Seq<Prefix<u32>>,
    s4: Seq<Prefix<u32>>,
    bound: (int, int, int, int, int),
) -> bool {
    &&& parts.len() == idx.len()
    &&& forall|e: int| 0 <= e < idx.len() ==> {
        &&& 0 <= (#[trigger] idx[e]).0 < s0.len() && 0 <= idx[e].1 < s1.len() && 0 <= idx[e].2 < s2.len()
        &&& 0 <= idx[e].3 < s3.len() && 0 <= idx[e].4 < s4.len()
        &&& parts[e] == combo_at(s0, s1, s2, s3, s4, idx[e])
        &&& lex_lt(idx[e], bound)
    }
    &&& forall|e1: int, e2: int| 0 <= e1 < e2 < idx.len() ==> lex_lt(#[trigger] idx[e1], #[trigger] idx[e2])
}

/// Position of index tuple `ix` in the lexicographic enumeration of a box of
/// sizes `sz`.
spec fn rank(sz: (int, int, int, int, int), ix: (int, int, int, int, int)) -> int {
    (((ix.0 * sz.1 + ix.1) * sz.2 + ix.2) * sz.3 + ix.3) * sz.4 + ix.4
}

/// `ix` indexes a box of sizes `sz`.
spec fn in_box(sz: (int, int, int, int, int), ix: (int, int, int, int, int)) -> bool {
    0 <= ix.0 < sz.0 && 0 <= ix.1 < sz.1 && 0 <= ix.2 < sz.2 && 0 <= ix.3 < sz.3 && 0 <= ix.4 < sz.4
}

/// Every index tuple of the box before `bound` occurs in `idx`, and `idx`
/// has exactly as many entries as there are such tuples.
spec fn enumerated(idx: Seq<(int, int, int, int, int)>, sz: (int, int, int, int, int), bound: (int, int, int, int, int)) -> bool {
    &&& idx.len() == rank(sz, bound)
    &&& forall|ix: (int, int, int, int, int)| #[trigger] in_box(sz, ix) && lex_lt(ix, bound) ==> idx.contains(ix)
}

/// `parts` is as long as the Cartesian product of the five prefix lists and
/// holds the combination of every choice of a prefix from each list.
spec fn product_of(
    parts: Seq<Part>,
    s0: Seq<Prefix<u32>>,
    s1: Seq<Prefix<u32>>,
    s2: Seq<Prefix<u32>>,
    s3: Seq<Prefix<u32>>,
    s4: Seq<Prefix<u32>>,
) -> bool {
    let sz = (s0.len() as int, s1.len() as int, s2.len() as int, s3.len() as int, s4.len() as int);
    &&& parts.len() == s0.len() * s1.len() * s2.len() * s3.len() * s4.len()
    &&& forall|ix: (int, int, int, int, int)| #[trigger] in_box(sz, ix) ==> parts.contains(combo_at(s0, s1, s2, s3, s4, ix))
}

/// The five lists are the greedy prefix decompositions of the rule's ranges.
spec fn prefix_lists_of(
    r: Rule,
    s0: Seq<Prefix<u32>>,
    s1: Seq<Prefix<u32>>,
    s2: Seq<Prefix<u32>>,
    s3: Seq<Prefix<u32>>,
    s4: Seq<Prefix<u32>>,
) -> bool {
    &&& decomposes(s0, r.src_ip.min, r.src_ip.max, 32) && maximal(s0, r.src_ip.max, 32)
    &&& decomposes(s1, r.dst_ip.min, r.dst_ip.max, 32) && maximal(s1, r.dst_ip.max, 32)
    &&& decomposes(s2, r.src_port.min as u32, r.src_port.max as u32, 16) && maximal(s2, r.src_port.max as u32, 16)
    &&& decomposes(s3, r.dst_port.min as u32, r.dst_port.max as u32, 16) && maximal(s3, r.dst_port.max as u32, 16)
    &&& decomposes(s4, r.proto.min as u32, r.proto.max as u32, 8) && maximal(s4, r.proto.max as u32, 8)
}

/// Prefixes at different positions of a decomposition hold no common value.
proof fn lemma_distinct_prefixes(s: Seq<Prefix<u32>>, min: u32, max: u32, bits: u32, i: int, j: int, v: int)
    requires
        decomposes(s, min, max, bits),
        0 <= i < s.len(),
        0 <= j < s.len(),
        i != j,
    ensures
        !(ph(s[i], bits, v) && ph(s[j], bits, v)),
{
    if i < j {
        assert(s[i].value + block(bits, s[i].len) <= s[j].value);
    } else {
        assert(s[j].value + block(bits, s[j].len) <= s[i].value);
    }
}

/// Splits a rule into the Cartesian product of the prefix decompositions of
/// its five ranges. Every packet the rule matches is held by one of them.
fn expand_rule(rule: &Rule) -> (parts: Vec<Part>)
    ensures
        exists|s0: Seq<Prefix<u32>>, s1: Seq<Prefix<u32>>, s2: Seq<Prefix<u32>>, s3: Seq<Prefix<u32>>, s4: Seq<Prefix<u32>>|
            #[trigger] prefix_lists_of(*rule, s0, s1, s2, s3, s4) && product_of(parts@, s0, s1, s2, s3, s4),
        forall|i: int, p: FiveTuple| 0 <= i < parts@.len() && #[trigger] part_holds(parts@[i], p) ==> rule.spec_matches(p),
        forall|i: int, j: int, p: FiveTuple|
            0 <= i < parts@.len() && 0 <= j < parts@.len() && i != j && #[trigger] part_holds(parts@[i], p) ==> !#[trigger] part_holds(parts@[j], p),
        rule.src_ip.min > rule.src_ip.max || rule.dst_ip.min > rule.dst_ip.max || rule.src_port.min > rule.src_port.max
            || rule.dst_port.min > rule.dst_port.max || rule.proto.min > rule.proto.max ==> parts@.len() == 0,
        forall|i: int| 0 <= i < parts@.len() ==> part_ok(#[trigger] parts@[i]),
        forall|p: FiveTuple| rule.spec_matches(p) ==> #[trigger] some_part_holds(parts@, p),
{
    proof {
        lemma2_to64();
    }
    let src_prefixes = range_to_prefixes_u32(rule.src_ip.min, rule.src_ip.max, 32);
    let dst_prefixes = range_to_prefixes_u32(rule.dst_ip.min, rule.dst_ip.max, 32);
    let sp_prefixes = range_to_prefixes_u16(rule.src_port.min, rule.src_port.max);
    let dp_prefixes = range_to_prefixes_u16(rule.dst_port.min, rule.dst_port.max);
    let proto_prefixes = range_to_prefixes_u8(rule.proto.min, rule.proto.max);
    let ghost s0 = src_prefixes@;
    let ghost s1 = dst_prefixes@;
    let ghost s2 = widen16(sp_prefixes@);
    let ghost s3 = widen16(dp_prefixes@);
    let ghost s4 = widen8(proto_prefixes@);
    let r = *rule;
    let mut expanded: Vec<Part> = Vec::new();
    let ghost mut idx: Seq<(int, int, int, int, int)> = Seq::empty();
    let ghost sz = (s0.len() as int, s1.len() as int, s2.len() as int, s3.len() as int, s4.len() as int);
    assert(rank(sz, (0, 0, 0, 0, 0)) == 0) by (nonlinear_arith);
    let mut a: usize = 0;
    while a < src_prefixes.len()
        invariant
            decomposes(s0, r.src_ip.min, r.src_ip.max, 32),
            decomposes(s1, r.dst_ip.min, r.dst_ip.max, 32),
            decomposes(s2, r.src_port.min as u32, r.src_port.max as u32, 16),
            decomposes(s3, r.dst_port.min as u32, r.dst_port.max as u32, 16),
            decomposes(s4, r.proto.min as u32, r.proto.max as u32, 8),
            s0 == src_prefixes@, s1 == dst_prefixes@, s2 == widen16(sp_prefixes@), s3 == widen16(dp_prefixes@), s4 == widen8(proto_prefixes@),
            r == *rule,
            a <= s0.len(),
            forall|i: int| 0 <= i < expanded@.len() ==> part_ok(#[trigger] expanded@[i]),
            forall|p: FiveTuple| r.spec_matches(p) && held_by(s0.take(a as int), 32, p.src_ip as int) ==> #[trigger] some_part_holds(expanded@, p),
            indexed(expanded@, idx, s0, s1, s2, s3, s4, (a as int, 0int, 0int, 0int, 0int)),
                            enumerated(idx, sz, (a as int, 0int, 0int, 0int, 0int)),
                            sz == (s0.len() as int, s1.len() as int, s2.len() as int, s3.len() as int, s4.len() as int),
        decreases src_prefixes.len() - a,
    {
        let s = src_prefixes[a];
        let mut b: usize = 0;
        while b < dst_prefixes.len()
            invariant
                decomposes(s0, r.src_ip.min, r.src_ip.max, 32),
                decomposes(s1, r.dst_ip.min, r.dst_ip.max, 32),
                decomposes(s2, r.src_port.min as u32, r.src_port.max as u32, 16),
                decomposes(s3, r.dst_port.min as u32, r.dst_port.max as u32, 16),
                decomposes(s4, r.proto.min as u32, r.proto.max as u32, 8),
                s0 == src_prefixes@, s1 == dst_prefixes@, s2 == widen16(sp_prefixes@), s3 == widen16(dp_prefixes@), s4 == widen8(proto_prefixes@),
                r == *rule,
                a < s0.len(),
                s == s0[a as int],
                b <= s1.len(),
                forall|i: int| 0 <= i < expanded@.len() ==> part_ok(#[trigger] expanded@[i]),
                forall|p: FiveTuple| r.spec_matches(p) && held_by(s0.take(a as int), 32, p.src_ip as int) ==> #[trigger] some_part_holds(expanded@, p),
                forall|p: FiveTuple| r.spec_matches(p) && ph(s, 32, p.src_ip as int) && held_by(s1.take(b as int), 32, p.dst_ip as int) ==> #[trigger] some_part_holds(expanded@, p),
                indexed(expanded@, idx, s0, s1, s2, s3, s4, (a as int, b as int, 0int, 0int, 0int)),
                            enumerated(idx, sz, (a as int, b as int, 0int, 0int, 0int)),
                            sz == (s0.len() as int, s1.len() as int, s2.len() as int, s3.len() as int, s4.len() as int),
            decreases dst_prefixes.len() - b,
        {
            let d = dst_prefixes[b];
            let mut c: usize = 0;
            while c < sp_prefixes.len()
                invariant
                    decomposes(s0, r.src_ip.min, r.src_ip.max, 32),
                    decomposes(s1, r.dst_ip.min, r.dst_ip.max, 32),
                    decomposes(s2, r.src_port.min as u32, r.src_port.max as u32, 16),
                    decomposes(s3, r.dst_port.min as u32, r.dst_port.max as u32, 16),
                    decomposes(s4, r.proto.min as u32, r.proto.max as u32, 8),
                    s0 == src_prefixes@, s1 == dst_prefixes@, s2 == widen16(sp_prefixes@), s3 == widen16(dp_prefixes@), s4 == widen8(proto_prefixes@),
                    r == *rule,
                    a < s0.len(),
                    s == s0[a as int],
                    b < s1.len(),
                    d == s1[b as int],
                    c <= s2.len(),
                    forall|i: int| 0 <= i < expanded@.len() ==> part_ok(#[trigger] expanded@[i]),
                    forall|p: FiveTuple| r.spec_matches(p) && held_by(s0.take(a as int), 32, p.src_ip as int) ==> #[trigger] some_part_holds(expanded@, p),
                    forall|p: FiveTuple| r.spec_matches(p) && ph(s, 32, p.src_ip as int) && held_by(s1.take(b as int), 32, p.dst_ip as int) ==> #[trigger] some_part_holds(expanded@, p),
                    forall|p: FiveTuple| r.spec_matches(p) && ph(s, 32, p.src_ip as int) && ph(d, 32, p.dst_ip as int) && held_by(s2.take(c as int), 16, p.src_port as int) ==> #[trigger] some_part_holds(expanded@, p),
                    indexed(expanded@, idx, s0, s1, s2, s3, s4, (a as int, b as int, c as int, 0int, 0int)),
                            enumerated(idx, sz, (a as int, b as int, c as int, 0int, 0int)),
                            sz == (s0.len() as int, s1.len() as int, s2.len() as int, s3.len() as int, s4.len() as int),
                decreases sp_prefixes.len() - c,
            {
                let sp = sp_prefixes[c];
                assert(s2[c as int] == Prefix { value: sp.value as u32, len: sp.len });
                let mut e: usize = 0;
                while e < dp_prefixes.len()
                    invariant
                        decomposes(s0, r.src_ip.min, r.src_ip.max, 32),
                        decomposes(s1, r.dst_ip.min, r.dst_ip.max, 32),
                        decomposes(s2, r.src_port.min as u32, r.src_port.max as u32, 16),
                        decomposes(s3, r.dst_port.min as u32, r.dst_port.max as u32, 16),
                        decomposes(s4, r.proto.min as u32, r.proto.max as u32, 8),
                        s0 == src_prefixes@, s1 == dst_prefixes@, s2 == widen16(sp_prefixes@), s3 == widen16(dp_prefixes@), s4 == widen8(proto_prefixes@),
                        r == *rule,
                        a < s0.len(),
                        s == s0[a as int],
                        b < s1.len(),
                        d == s1[b as int],
                        c < s2.len(),
                        s2[c as int] == (Prefix { value: sp.value as u32, len: sp.len }),
                        e <= s3.len(),
                        forall|i: int| 0 <= i < expanded@.len() ==> part_ok(#[trigger] expanded@[i]),
                        forall|p: FiveTuple| r.spec_matches(p) && held_by(s0.take(a as int), 32, p.src_ip as int) ==> #[trigger] some_part_holds(expanded@, p),
                        forall|p: FiveTuple| r.spec_matches(p) && ph(s, 32, p.src_ip as int) && held_by(s1.take(b as int), 32, p.dst_ip as int) ==> #[trigger] some_part_holds(expanded@, p),
                        forall|p: FiveTuple| r.spec_matches(p) && ph(s, 32, p.src_ip as int) && ph(d, 32, p.dst_ip as int) && held_by(s2.take(c as int), 16, p.src_port as int) ==> #[trigger] some_part_holds(expanded@, p),
                        forall|p: FiveTuple| r.spec_matches(p) && ph(s, 32, p.src_ip as int) && ph(d, 32, p.dst_ip as int) && ph(s2[c as int], 16, p.src_port as int) && held_by(s3.take(e as int), 16, p.dst_port as int) ==> #[trigger] some_part_holds(expanded@, p),
                        indexed(expanded@, idx, s0, s1, s2, s3, s4, (a as int, b as int, c as int, e as int, 0int)),
                            enumerated(idx, sz, (a as int, b as int, c as int, e as int, 0int)),
                            sz == (s0.len() as int, s1.len() as int, s2.len() as int, s3.len() as int, s4.len() as int),
                    decreases dp_prefixes.len() - e,
                {
                    let dp = dp_prefixes[e];
                    assert(s3[e as int] == Prefix { value: dp.value as u32, len: dp.len });
                    let mut f: usize = 0;
                    while f < proto_prefixes.len()
                        invariant
                            decomposes(s0, r.src_ip.min, r.src_ip.max, 32),
                            decomposes(s1, r.dst_ip.min, r.dst_ip.max, 32),
                            decomposes(s2, r.src_port.min as u32, r.src_port.max as u32, 16),
                            decomposes(s3, r.dst_port.min as u32, r.dst_port.max as u32, 16),
                            decomposes(s4, r.proto.min as u32, r.proto.max as u32, 8),
                            s0 == src_prefixes@, s1 == dst_prefixes@, s2 == widen16(sp_prefixes@), s3 == widen16(dp_prefixes@), s4 == widen8(proto_prefixes@),
                            r == *rule,
                            a < s0.len(),
                            s == s0[a as int],
                            b < s1.len(),
                            d == s1[b as int],
                            c < s2.len(),
                            s2[c as int] == (Prefix { value: sp.value as u32, len: sp.len }),
                            e < s3.len(),
                            s3[e as int] == (Prefix { value: dp.value as u32, len: dp.len }),
                            f <= s4.len(),
                            forall|i: int| 0 <= i < expanded@.len() ==> part_ok(#[trigger] expanded@[i]),
                            forall|p: FiveTuple| r.spec_matches(p) && held_by(s0.take(a as int), 32, p.src_ip as int) ==> #[trigger] some_part_holds(expanded@, p),
                            forall|p: FiveTuple| r.spec_matches(p) && ph(s, 32, p.src_ip as int) && held_by(s1.take(b as int), 32, p.dst_ip as int) ==> #[trigger] some_part_holds(expanded@, p),
                            forall|p: FiveTuple| r.spec_matches(p) && ph(s, 32, p.src_ip as int) && ph(d, 32, p.dst_ip as int) && held_by(s2.take(c as int), 16, p.src_port as int) ==> #[trigger] some_part_holds(expanded@, p),
                            forall|p: FiveTuple| r.spec_matches(p) && ph(s, 32, p.src_ip as int) && ph(d, 32, p.dst_ip as int) && ph(s2[c as int], 16, p.src_port as int) && held_by(s3.take(e as int), 16, p.dst_port as int) ==> #[trigger] some_part_holds(expanded@, p),
                            forall|p: FiveTuple| r.spec_matches(p) && ph(s, 32, p.src_ip as int) && ph(d, 32, p.dst_ip as int) && ph(s2[c as int], 16, p.src_port as int) && ph(s3[e as int], 16, p.dst_port as int) && held_by(s4.take(f as int), 8, p.proto as int) ==> #[trigger] some_part_holds(expanded@, p),
                            indexed(expanded@, idx, s0, s1, s2, s3, s4, (a as int, b as int, c as int, e as int, f as int)),
                            enumerated(idx, sz, (a as int, b as int, c as int, e as int, f as int)),
                            sz == (s0.len() as int, s1.len() as int, s2.len() as int, s3.len() as int, s4.len() as int),
                        decreases proto_prefixes.len() - f,
                    {
                        let pr = proto_prefixes[f];
                        assert(s4[f as int] == Prefix { value: pr.value as u32, len: pr.len });
                        let part = Part {
                            tuple: Tuple { src_ip_len: s.len, dst_ip_len: d.len, src_port_len: sp.len, dst_port_len: dp.len, proto_len: pr.len },
                            src_ip: s.value,
                            dst_ip: d.value,
                            src_port: sp.value,
                            dst_port: dp.value,
                            proto: pr.value,
                        };
                        proof {
                            lemma_some_part_push(expanded@, part);
                            lemma_held_by_take(s4, 8, f as int);
                            assert(part == combo_at(s0, s1, s2, s3, s4, (a as int, b as int, c as int, e as int, f as int)));
                        }
                        let ghost before = idx;
                        expanded.push(part);
                        proof {
                            idx = idx.push((a as int, b as int, c as int, e as int, f as int));
                            assert forall|q: int| 0 <= q < before.len() implies idx[q] == before[q] by {}
                            let nb = (a as int, b as int, c as int, e as int, f + 1);
                            assert(rank(sz, nb) == rank(sz, (a as int, b as int, c as int, e as int, f as int)) + 1);
                            assert forall|ix: (int, int, int, int, int)| #[trigger] in_box(sz, ix) && lex_lt(ix, nb) implies idx.contains(ix) by {
                                if ix == (a as int, b as int, c as int, e as int, f as int) {
                                    assert(idx[before.len() as int] == ix);
                                } else {
                                    assert(before.contains(ix));
                                    let q = choose|q: int| 0 <= q < before.len() && before[q] == ix;
                                    assert(idx[q] == ix);
                                }
                            }
                        }
                        f = f + 1;
                    }
                    proof {
                        let x = ((a * sz.1 + b) * sz.2 + c) * sz.3 + e;
                        assert(x * sz.4 + sz.4 == (x + 1) * sz.4) by (nonlinear_arith);
                        assert(rank(sz, (a as int, b as int, c as int, e as int, f as int)) == rank(sz, (a as int, b as int, c as int, e + 1, 0int)));
                        lemma_held_by_take(s3, 16, e as int);
                        lemma_take_all(s4);
                    }
                    e = e + 1;
                }
                proof {
                        let x = (a * sz.1 + b) * sz.2 + c;
                        assert((x * sz.3 + sz.3) * sz.4 == ((x + 1) * sz.3) * sz.4) by (nonlinear_arith);
                        assert(rank(sz, (a as int, b as int, c as int, e as int, 0int)) == rank(sz, (a as int, b as int, c + 1, 0int, 0int)));
                    lemma_held_by_take(s2, 16, c as int);
                    lemma_take_all(s3);
                }
                c = c + 1;
            }
            proof {
                let x = a * sz.1 + b;
                assert(((x * sz.2 + sz.2) * sz.3) * sz.4 == (((x + 1) * sz.2) * sz.3) * sz.4) by (nonlinear_arith);
                assert(rank(sz, (a as int, b as int, c as int, 0int, 0int)) == rank(sz, (a as int, b + 1, 0int, 0int, 0int)));
                lemma_held_by_take(s1, 32, b as int);
                lemma_take_all(s2);
            }
            b = b + 1;
        }
        proof {
            let x = a as int;
            assert((((x * sz.1 + sz.1) * sz.2) * sz.3) * sz.4 == ((((x + 1) * sz.1) * sz.2) * sz.3) * sz.4) by (nonlinear_arith);
            assert(rank(sz, (a as int, b as int, 0int, 0int, 0int)) == rank(sz, (a + 1, 0int, 0int, 0int, 0int)));
            lemma_held_by_take(s0, 32, a as int);
            lemma_take_all(s1);
        }
        a = a + 1;
    }
    proof {
        lemma_take_all(s0);
        let n0 = s0.len() as int;
        assert(rank(sz, (n0, 0int, 0int, 0int, 0int)) == n0 * sz.1 * sz.2 * sz.3 * sz.4) by (nonlinear_arith)
            requires sz.0 == n0;
        assert forall|ix: (int, int, int, int, int)| #[trigger] in_box(sz, ix) implies expanded@.contains(combo_at(s0, s1, s2, s3, s4, ix)) by {
            assert(lex_lt(ix, (n0, 0int, 0int, 0int, 0int)));
            assert(idx.contains(ix));
            let q = choose|q: int| 0 <= q < idx.len() && idx[q] == ix;
            assert(expanded@[q] == combo_at(s0, s1, s2, s3, s4, ix));
        }
        assert(expanded@.len() == idx.len());
        assert(idx.len() == rank(sz, (n0, 0int, 0int, 0int, 0int)));
        assert(expanded@.len() == s0.len() * s1.len() * s2.len() * s3.len() * s4.len());
        assert(product_of(expanded@, s0, s1, s2, s3, s4));
        assert(prefix_lists_of(*rule, s0, s1, s2, s3, s4));
        assert forall|i: int, p: FiveTuple| 0 <= i < expanded@.len() && #[trigger] part_holds(expanded@[i], p) implies rule.spec_matches(p) by {
            let ix = idx[i];
            assert(s2[ix.2].value == sp_prefixes@[ix.2].value as u32);
            assert(s3[ix.3].value == dp_prefixes@[ix.3].value as u32);
            assert(s4[ix.4].value == proto_prefixes@[ix.4].value as u32);
            lemma_block_bounds(32, s0[ix.0].len);
            lemma_block_bounds(32, s1[ix.1].len);
            lemma_block_bounds(16, s2[ix.2].len);
            lemma_block_bounds(16, s3[ix.3].len);
            lemma_block_bounds(8, s4[ix.4].len);
        }
        assert forall|i: int, j: int, p: FiveTuple|
            0 <= i < expanded@.len() && 0 <= j < expanded@.len() && i != j && #[trigger] part_holds(expanded@[i], p) implies !#[trigger] part_holds(expanded@[j], p) by {
            let x = idx[i];
            let y = idx[j];
            assert(x != y) by {
                if i < j {
                    assert(lex_lt(idx[i], idx[j]));
                } else {
                    assert(lex_lt(idx[j], idx[i]));
                }
            }
            assert(s2[x.2].value == sp_prefixes@[x.2].value as u32);
            assert(s3[x.3].value == dp_prefixes@[x.3].value as u32);
            assert(s4[x.4].value == proto_prefixes@[x.4].value as u32);
            assert(s2[y.2].value == sp_prefixes@[y.2].value as u32);
            assert(s3[y.3].value == dp_prefixes@[y.3].value as u32);
            assert(s4[y.4].value == proto_prefixes@[y.4].value as u32);
            if x.0 != y.0 {
                lemma_distinct_prefixes(s0, r.src_ip.min, r.src_ip.max, 32, x.0, y.0, p.src_ip as int);
            } else if x.1 != y.1 {
                lemma_distinct_prefixes(s1, r.dst_ip.min, r.dst_ip.max, 32, x.1, y.1, p.dst_ip as int);
            } else if x.2 != y.2 {
                lemma_distinct_prefixes(s2, r.src_port.min as u32, r.src_port.max as u32, 16, x.2, y.2, p.src_port as int);
            } else if x.3 != y.3 {
                lemma_distinct_prefixes(s3, r.dst_port.min as u32, r.dst_port.max as u32, 16, x.3, y.3, p.dst_port as int);
            } else {
                lemma_distinct_prefixes(s4, r.proto.min as u32, r.proto.max as u32, 8, x.4, y.4, p.proto as int);
            }
        }
        if expanded@.len() > 0 {
            let ix = idx[0];
            assert(s0.len() > 0 && s1.len() > 0 && s2.len() > 0 && s3.len() > 0 && s4.len() > 0);
        }
    }
    expanded
}

/// Most bits by which a combination may be shortened to join an existing table.
const MAX_MERGE_BITS: u32 = 12;

/// Bucket numbers of one hash table, by masked key.
#[verifier::external_body]
pub struct KeyIndex {
    map: hashbrown::HashMap<(u32, u32, u16, u16, u8), usize>,
}

/// The bucket number a key index holds for each key.
pub uninterp spec fn key_index_map(t: KeyIndex) -> Map<(u32, u32, u16, u16, u8), usize>;

/// A key as the tuple of its fields.
spec fn key_tuple(k: TupleKey) -> (u32, u32, u16, u16, u8) {
    (k.src_ip, k.dst_ip, k.src_port, k.dst_port, k.proto)
}

/// The map with no keys.
spec fn no_keys() -> Map<(u32, u32, u16, u16, u8), usize> {
    Map::empty()
}

/// Relies on `hashbrown::HashMap::new`: the map starts empty.
#[verifier::external_body]
fn key_index_new() -> (t: KeyIndex)
    ensures
        key_index_map(t) == no_keys(),
{
    KeyIndex { map: hashbrown::HashMap::new() }
}

/// Relies on `hashbrown::HashMap::get`: the value stored under the key, or
/// `None` when the key is absent.
#[verifier::external_body]
fn key_index_get(t: &KeyIndex, k: &TupleKey) -> (r: Option<usize>)
    ensures
        key_index_map(*t).contains_key(key_tuple(*k)) ==> r == Some(key_index_map(*t)[key_tuple(*k)]),
        !key_index_map(*t).contains_key(key_tuple(*k)) ==> r is None,
{
    t.map.get(&(k.src_ip, k.dst_ip, k.src_port, k.dst_port, k.proto)).copied()
}

/// Relies on `hashbrown::HashMap::insert`: afterwards the key maps to the
/// value and every other key keeps its value.
#[verifier::external_body]
fn key_index_insert(t: &mut KeyIndex, k: &TupleKey, v: usize)
    ensures
        key_index_map(*final(t)) == key_index_map(*old(t)).insert(key_tuple(*k), v),
{
    t.map.insert((k.src_ip, k.dst_ip, k.src_port, k.dst_port, k.proto), v);
}

/// One hash table: its tuple and its keys.
struct Table {
    tuple: Tuple,
    index: KeyIndex,
}

/// Table `tab` files rule number `k` under the key the packet probes it with.
spec fn bucket_has(tab: Table, buckets: Seq<Vec<usize>>, p: FiveTuple, k: int) -> bool {
    let m = key_index_map(tab.index);
    let key = key_tuple(packet_key(p, tab.tuple));
    &&& m.contains_key(key)
    &&& m[key] < buckets.len()
    &&& buckets[m[key] as int]@.contains(k as usize)
}

/// Some table files rule number `k` where the packet looks.
spec fn found(tables: Seq<Table>, buckets: Seq<Vec<usize>>, p: FiveTuple, k: int) -> bool {
    exists|t: int| 0 <= t < tables.len() && #[trigger] bucket_has(tables[t], buckets, p, k)
}

/// Tuples fit their fields, keys name existing buckets, and every bucket
/// holds rule numbers below `bound` in ascending order.
spec fn store_ok(tables: Seq<Table>, buckets: Seq<Vec<usize>>, bound: int) -> bool {
    &&& forall|t: int| 0 <= t < tables.len() ==> tuple_ok(#[trigger] tables[t].tuple)
    &&& forall|t: int, key: (u32, u32, u16, u16, u8)|
        0 <= t < tables.len() && #[trigger] key_index_map(tables[t].index).contains_key(key) ==> key_index_map(tables[t].index)[key] < buckets.len()
    &&& forall|b: int, i: int| 0 <= b < buckets.len() && 0 <= i < buckets[b]@.len() ==> #[trigger] buckets[b]@[i] < bound
    &&& forall|b: int, i: int, j: int|
        0 <= b < buckets.len() && 0 <= i <= j < buckets[b]@.len() ==> #[trigger] buckets[b]@[i] <= #[trigger] buckets[b]@[j]
}

/// A packet held by a combination probes a table of shorter lengths with the
/// key the combination is filed under there.
proof fn lemma_part_key(e: Part, target: Tuple, p: FiveTuple)
    requires
        part_ok(e),
        part_holds(e, p),
        spec_subset(target, e.tuple),
    ensures
        packet_key(p, target) == spec_key(e.src_ip, e.dst_ip, e.src_port, e.dst_port, e.proto, target),
{
    lemma_holds_iff_mask(e.src_ip as int, e.tuple.src_ip_len, 32, p.src_ip as int);
    lemma_mask_twice(p.src_ip as int, e.tuple.src_ip_len, target.src_ip_len, 32);
    lemma_holds_iff_mask(e.dst_ip as int, e.tuple.dst_ip_len, 32, p.dst_ip as int);
    lemma_mask_twice(p.dst_ip as int, e.tuple.dst_ip_len, target.dst_ip_len, 32);
    lemma_holds_iff_mask(e.src_port as int, e.tuple.src_port_len, 16, p.src_port as int);
    lemma_mask_twice(p.src_port as int, e.tuple.src_port_len, target.src_port_len, 16);
    lemma_holds_iff_mask(e.dst_port as int, e.tuple.dst_port_len, 16, p.dst_port as int);
    lemma_mask_twice(p.dst_port as int, e.tuple.dst_port_len, target.dst_port_len, 16);
    lemma_holds_iff_mask(e.proto as int, e.tuple.proto_len, 8, p.proto as int);
    lemma_mask_twice(p.proto as int, e.tuple.proto_len, target.proto_len, 8);
}

/// `e` is an aligned combination whose packets all match `r`.
spec fn inside(e: Part, r: Rule) -> bool {
    part_ok(e) && forall|p: FiveTuple| #[trigger] part_holds(e, p) ==> r.spec_matches(p)
}

/// `t` is the tuple of a combination lying inside one of `rules`.
spec fn from_rules(t: Tuple, rules: Seq<Rule>) -> bool {
    exists|k: int, e: Part| 0 <= k < rules.len() && e.tuple == t && #[trigger] inside(e, rules[k])
}

/// The tuples of the tables, in creation order.
spec fn tuples_of(tables: Seq<Table>) -> Seq<Tuple> {
    tables.map_values(|t: Table| t.tuple)
}

/// Total number of bits by which `b` is longer than `a`.
spec fn spec_bit_difference(a: Tuple, b: Tuple) -> int {
    (b.src_ip_len - a.src_ip_len) + (b.dst_ip_len - a.dst_ip_len) + (b.src_port_len - a.src_port_len) + (
    b.dst_port_len - a.dst_port_len) + (b.proto_len - a.proto_len)
}

/// Among the first `n` tuples, the one a combination of tuple `t` merges
/// into: no longer than `t` in any field, at most `MAX_MERGE_BITS` extra
/// bits, fewest extra bits, the earliest on ties; `-1` when none qualifies.
/// Paired with its extra bits.
spec fn merge_pick(tuples: Seq<Tuple>, t: Tuple, n: int) -> (int, int)
    decreases n,
{
    if n <= 0 {
        (-1, u32::MAX as int)
    } else {
        let prev = merge_pick(tuples, t, n - 1);
        let e = tuples[n - 1];
        if spec_subset(e, t) && spec_bit_difference(e, t) < prev.1 && spec_bit_difference(e, t) <= MAX_MERGE_BITS {
            (n - 1, spec_bit_difference(e, t))
        } else {
            prev
        }
    }
}

/// The table a combination of tuple `t` goes to: the merge target, or a new
/// table after the existing ones.
spec fn chosen_table(tuples: Seq<Tuple>, t: Tuple) -> int {
    let m = merge_pick(tuples, t, tuples.len() as int).0;
    if m >= 0 { m } else { tuples.len() as int }
}

/// Table `i` files rule number `k` under the key of the combination's
/// values masked to the table's lengths.
spec fn filed(tables: Seq<Table>, buckets: Seq<Vec<usize>>, i: int, e: Part, k: usize) -> bool {
    &&& 0 <= i < tables.len()
    &&& {
        let m = key_index_map(tables[i].index);
        let key = key_tuple(spec_key(e.src_ip, e.dst_ip, e.src_port, e.dst_port, e.proto, tables[i].tuple));
        &&& m.contains_key(key)
        &&& m[key] < buckets.len()
        &&& buckets[m[key] as int]@.contains(k)
    }
}

/// Files rule number `k` under one of its combinations: in the existing table
/// with the fewest extra bits (at most `MAX_MERGE_BITS`) whose lengths are no
/// longer than the combination's, or else in a new table of the
/// combination's own tuple. The key is masked to the chosen table's lengths.
fn insert_part(tables: &mut Vec<Table>, buckets: &mut Vec<Vec<usize>>, k: usize, part: &Part)
    requires
        store_ok(old(tables)@, old(buckets)@, k + 1),
        part_ok(*part),
    ensures
        store_ok(final(tables)@, final(buckets)@, k + 1),
        forall|p: FiveTuple, j: int| #[trigger] found(old(tables)@, old(buckets)@, p, j) ==> found(final(tables)@, final(buckets)@, p, j),
        forall|p: FiveTuple| part_holds(*part, p) ==> #[trigger] found(final(tables)@, final(buckets)@, p, k as int),
        merge_pick(tuples_of(old(tables)@), part.tuple, old(tables)@.len() as int).0 >= 0 ==> tuples_of(final(tables)@) == tuples_of(old(tables)@),
        merge_pick(tuples_of(old(tables)@), part.tuple, old(tables)@.len() as int).0 < 0 ==> tuples_of(final(tables)@) == tuples_of(old(tables)@).push(part.tuple),
        filed(final(tables)@, final(buckets)@, chosen_table(tuples_of(old(tables)@), part.tuple), *part, k),
        final(buckets)@.len() >= old(buckets)@.len(),
        forall|b: int| 0 <= b < old(buckets)@.len() ==> old(buckets)@[b]@.is_prefix_of(#[trigger] final(buckets)@[b]@),
{
    let rule_tuple = part.tuple;
    let ghost tuples = tuples_of(tables@);
    let mut best_table: Option<usize> = None;
    let mut min_diff: u32 = u32::MAX;
    let mut t: usize = 0;
    while t < tables.len()
        invariant
            tables@ == old(tables)@,
            part_ok(*part),
            rule_tuple == part.tuple,
            best_table matches Some(b) ==> b < tables@.len() && spec_subset(tables@[b as int].tuple, rule_tuple),
            t <= tables@.len(),
            tuples == tuples_of(tables@),
            merge_pick(tuples, rule_tuple, t as int) == (match best_table {
                Some(b) => (b as int, min_diff as int),
                None => (-1int, min_diff as int),
            }),
            best_table is None ==> min_diff == u32::MAX,
        decreases tables.len() - t,
    {
        let existing = tables[t].tuple;
        assert(tuples[t as int] == existing);
        if existing.is_subset_of(&rule_tuple) {
            let diff = existing.bit_difference(&rule_tuple);
            if diff < min_diff && diff <= MAX_MERGE_BITS {
                min_diff = diff;
                best_table = Some(t);
            }
        }
        t = t + 1;
    }
    let ghost tables0 = tables@;
    let ghost buckets0 = buckets@;
    let target: usize = match best_table {
        Some(b) => b,
        None => {
            tables.push(Table { tuple: rule_tuple, index: key_index_new() });
            tables.len() - 1
        },
    };
    let ghost tables1 = tables@;
    assert(target as int == chosen_table(tuples, rule_tuple));
    assert(forall|t2: int| 0 <= t2 < tables0.len() ==> tables1[t2] == tables0[t2]);
    assert(store_ok(tables1, buckets0, k + 1));
    let target_tuple = tables[target].tuple;
    assert(spec_subset(target_tuple, part.tuple));
    let key = TupleKey::from_values(part.src_ip, part.dst_ip, part.src_port, part.dst_port, part.proto, &target_tuple);
    match key_index_get(&tables[target].index, &key) {
        Some(b) => {
            buckets[b].push(k);
            proof {
                assert(buckets@[b as int]@ == buckets0[b as int]@.push(k));
                assert forall|b2: int, i: int| 0 <= b2 < buckets@.len() && 0 <= i < buckets@[b2]@.len() implies #[trigger] buckets@[b2]@[i] < k + 1 by {
                    if b2 != b {
                        assert(buckets@[b2] == buckets0[b2]);
                    } else if i < buckets0[b2]@.len() {
                        assert(buckets@[b2]@[i] == buckets0[b2]@[i]);
                    }
                }
                assert forall|b2: int, i: int, j: int| 0 <= b2 < buckets@.len() && 0 <= i <= j < buckets@[b2]@.len() implies #[trigger] buckets@[b2]@[i] <= #[trigger] buckets@[b2]@[j] by {
                    if b2 != b {
                        assert(buckets@[b2] == buckets0[b2]);
                    } else {
                        if j < buckets0[b2]@.len() {
                            assert(buckets@[b2]@[i] == buckets0[b2]@[i]);
                            assert(buckets@[b2]@[j] == buckets0[b2]@[j]);
                        } else if i < buckets0[b2]@.len() {
                            assert(buckets@[b2]@[i] == buckets0[b2]@[i]);
                        }
                    }
                }
                assert forall|p: FiveTuple, j: int| #[trigger] found(tables0, buckets0, p, j) implies found(tables@, buckets@, p, j) by {
                    let t2 = choose|t2: int| 0 <= t2 < tables0.len() && #[trigger] bucket_has(tables0[t2], buckets0, p, j);
                    let m = key_index_map(tables0[t2].index);
                    let kk = key_tuple(packet_key(p, tables0[t2].tuple));
                    let bb = m[kk] as int;
                    let i = choose|i: int| 0 <= i < buckets0[bb]@.len() && buckets0[bb]@[i] == j as usize;
                    if bb != b {
                        assert(buckets@[bb] == buckets0[bb]);
                    }
                    assert(buckets@[bb]@[i] == j as usize);
                    assert(tables@[t2] == tables0[t2]);
                    assert(bucket_has(tables@[t2], buckets@, p, j));
                }
                assert(buckets@[b as int]@[buckets0[b as int]@.len() as int] == k);
                assert(buckets@[b as int]@.contains(k));
                assert(filed(tables@, buckets@, target as int, *part, k));
                assert forall|p: FiveTuple| part_holds(*part, p) implies #[trigger] found(tables@, buckets@, p, k as int) by {
                    lemma_part_key(*part, target_tuple, p);
                    assert(buckets@[b as int]@[buckets0[b as int]@.len() as int] == k);
                    assert(bucket_has(tables@[target as int], buckets@, p, k as int));
                }
            }
        },
        None => {
            buckets.push(vec![k]);
            let nb = buckets.len() - 1;
            let ghost before_insert = tables@[target as int];
            key_index_insert(&mut tables[target].index, &key, nb);
            proof {
                let ghost m0 = key_index_map(before_insert.index);
                assert(!m0.contains_key(key_tuple(key)));
                assert(tables@.len() == tables1.len());
                assert forall|t2: int| 0 <= t2 < tables@.len() && t2 != target implies tables@[t2] == tables1[t2] by {}
                assert(tables@[target as int].tuple == target_tuple);
                assert(key_index_map(tables@[target as int].index) == m0.insert(key_tuple(key), nb));
                assert(buckets@[nb as int]@ == seq![k]);
                assert forall|b2: int| 0 <= b2 < buckets0.len() implies #[trigger] buckets@[b2] == buckets0[b2] by {}
                assert forall|t2: int, kk: (u32, u32, u16, u16, u8)|
                    0 <= t2 < tables@.len() && #[trigger] key_index_map(tables@[t2].index).contains_key(kk) implies key_index_map(tables@[t2].index)[kk] < buckets@.len() by {
                    if t2 != target {
                        assert(tables@[t2] == tables1[t2]);
                    } else if kk != key_tuple(key) {
                        assert(m0.contains_key(kk));
                    }
                }
                assert forall|t2: int| 0 <= t2 < tables@.len() implies tuple_ok(#[trigger] tables@[t2].tuple) by {
                    if t2 != target {
                        assert(tables@[t2] == tables1[t2]);
                    }
                }
                assert forall|b2: int, i: int| 0 <= b2 < buckets@.len() && 0 <= i < buckets@[b2]@.len() implies #[trigger] buckets@[b2]@[i] < k + 1 by {
                    if b2 < buckets0.len() {
                        assert(buckets@[b2] == buckets0[b2]);
                    }
                }
                assert forall|b2: int, i: int, j: int| 0 <= b2 < buckets@.len() && 0 <= i <= j < buckets@[b2]@.len() implies #[trigger] buckets@[b2]@[i] <= #[trigger] buckets@[b2]@[j] by {
                    if b2 < buckets0.len() {
                        assert(buckets@[b2] == buckets0[b2]);
                    }
                }
                assert forall|p: FiveTuple, j: int| #[trigger] found(tables0, buckets0, p, j) implies found(tables@, buckets@, p, j) by {
                    let t2 = choose|t2: int| 0 <= t2 < tables0.len() && #[trigger] bucket_has(tables0[t2], buckets0, p, j);
                    let kk = key_tuple(packet_key(p, tables0[t2].tuple));
                    let bb = key_index_map(tables0[t2].index)[kk] as int;
                    assert(buckets@[bb] == buckets0[bb]);
                    if t2 == target {
                        assert(tables1[t2] == tables0[t2]);
                        assert(kk != key_tuple(key));
                        assert(key_index_map(tables@[t2].index)[kk] == key_index_map(tables0[t2].index)[kk]);
                    } else {
                        assert(tables@[t2] == tables0[t2]);
                    }
                    assert(bucket_has(tables@[t2], buckets@, p, j));
                }
                assert(buckets@[nb as int]@[0] == k);
                assert(buckets@[nb as int]@.contains(k));
                assert(filed(tables@, buckets@, target as int, *part, k));
                assert forall|p: FiveTuple| part_holds(*part, p) implies #[trigger] found(tables@, buckets@, p, k as int) by {
                    lemma_part_key(*part, target_tuple, p);
                    assert(buckets@[nb as int]@[0] == k);
                    assert(bucket_has(tables@[target as int], buckets@, p, k as int));
                }
            }
        },
    }
}

/// TupleMerge classifier. Rules are kept sorted by priority and referred to
/// by position, so that a smaller position always means a stronger rule;
/// buckets hold positions in ascending order.
pub struct TSSClassifier {
    rules: Vec<Rule>,
    tables: Vec<Table>,
    buckets: Vec<Vec<usize>>,
    source: Ghost<Seq<Rule>>,
}

impl Classifier for TSSClassifier {
    closed spec fn rule_set(&self) -> Seq<Rule> {
        self.source@
    }

    closed spec fn wf(&self) -> bool {
        &&& self.rules@ == sort_by_priority(self.source@)
        &&& store_ok(self.tables@, self.buckets@, self.rules@.len() as int)
        &&& self.rules@.len() == 0 ==> self.tables@.len() == 0 && self.buckets@.len() == 0
        &&& forall|t: int| 0 <= t < self.tables@.len() ==> from_rules(#[trigger] self.tables@[t].tuple, self.rules@)
        &&& forall|k: int, p: FiveTuple| 0 <= k < self.rules@.len() && self.rules@[k].spec_matches(p) ==> #[trigger] found(self.tables@, self.buckets@, p, k)
    }

    /// Files every prefix combination of every rule, strongest rule first.
    fn build(rules: &[Rule]) -> (c: Self) {
        let sorted = sort_rules(rules);
        let mut tables: Vec<Table> = Vec::new();
        let mut buckets: Vec<Vec<usize>> = Vec::new();
        let mut k: usize = 0;
        while k < sorted.len()
            invariant
                k <= sorted@.len(),
                store_ok(tables@, buckets@, k as int),
                sorted@.len() == 0 ==> tables@.len() == 0 && buckets@.len() == 0,
                forall|t: int| 0 <= t < tables@.len() ==> from_rules(#[trigger] tables@[t].tuple, sorted@),
                forall|k2: int, p: FiveTuple| 0 <= k2 < k && sorted@[k2].spec_matches(p) ==> #[trigger] found(tables@, buckets@, p, k2),
            decreases sorted.len() - k,
        {
            let parts = expand_rule(&sorted[k]);
            let mut e: usize = 0;
            while e < parts.len()
                invariant
                    k < sorted@.len(),
                    e <= parts@.len(),
                    store_ok(tables@, buckets@, k + 1),
                    forall|i: int| 0 <= i < parts@.len() ==> part_ok(#[trigger] parts@[i]),
                    forall|p: FiveTuple| sorted@[k as int].spec_matches(p) ==> #[trigger] some_part_holds(parts@, p),
                    forall|k2: int, p: FiveTuple| 0 <= k2 < k && sorted@[k2].spec_matches(p) ==> #[trigger] found(tables@, buckets@, p, k2),
                    forall|p: FiveTuple| #[trigger] some_part_holds(parts@.take(e as int), p) ==> found(tables@, buckets@, p, k as int),
                    forall|i: int, p: FiveTuple| 0 <= i < parts@.len() && #[trigger] part_holds(parts@[i], p) ==> sorted@[k as int].spec_matches(p),
                    forall|t: int| 0 <= t < tables@.len() ==> from_rules(#[trigger] tables@[t].tuple, sorted@),
                decreases parts.len() - e,
            {
                let ghost tables0 = tables@;
                let ghost buckets0 = buckets@;
                insert_part(&mut tables, &mut buckets, k, &parts[e]);
                assert forall|t: int| 0 <= t < tables@.len() implies from_rules(#[trigger] tables@[t].tuple, sorted@) by {
                    assert(tuples_of(tables@)[t] == tables@[t].tuple);
                    if t < tables0.len() {
                        assert(tuples_of(tables0)[t] == tables0[t].tuple);
                        assert(from_rules(tables0[t].tuple, sorted@));
                    } else {
                        let e0 = parts@[e as int];
                        assert(tuples_of(tables@).len() == tables@.len());
                        assert(tuples_of(tables0).len() == tables0.len());
                        assert(tuples_of(tables@) == tuples_of(tables0).push(e0.tuple));
                        assert(tables@[t].tuple == e0.tuple);
                        assert(inside(e0, sorted@[k as int]));
                    }
                }
                assert forall|k2: int, p: FiveTuple| 0 <= k2 < k && sorted@[k2].spec_matches(p) implies #[trigger] found(tables@, buckets@, p, k2) by {
                    assert(found(tables0, buckets0, p, k2));
                }
                assert forall|p: FiveTuple| #[trigger] some_part_holds(parts@.take(e + 1), p) implies found(tables@, buckets@, p, k as int) by {
                    let i = choose|i: int| 0 <= i < parts@.take(e + 1).len() && #[trigger] part_holds(parts@.take(e + 1)[i], p);
                    if i < e {
                        assert(parts@.take(e as int)[i] == parts@[i]);
                        assert(some_part_holds(parts@.take(e as int), p));
                        assert(found(tables0, buckets0, p, k as int));
                    }
                }
                e = e + 1;
            }
            assert(parts@.take(e as int) =~= parts@);
            assert forall|k2: int, p: FiveTuple| 0 <= k2 < k + 1 && sorted@[k2].spec_matches(p) implies #[trigger] found(tables@, buckets@, p, k2) by {
                if k2 == k {
                    assert(some_part_holds(parts@.take(e as int), p));
                }
            }
            k = k + 1;
        }
        TSSClassifier { rules: sorted, tables, buckets, source: Ghost(rules@) }
    }

    /// Probes every table with the packet's key and walks the bucket it hits
    /// in ascending position, stopping at the first match or at a position no
    /// better than the best match so far.
    fn classify(&self, packet: &FiveTuple) -> (r: Option<Action>) {
        let mut best: Option<usize> = None;
        let mut t: usize = 0;
        while t < self.tables.len()
            invariant
                self.wf(),
                t <= self.tables@.len(),
                best matches Some(b) ==> b < self.rules@.len() && self.rules@[b as int].spec_matches(*packet),
                forall|t2: int, j: int|
                    0 <= t2 < t && 0 <= j < self.rules@.len() && #[trigger] bucket_has(self.tables@[t2], self.buckets@, *packet, j)
                        && self.rules@[j].spec_matches(*packet) ==> best is Some && best->0 <= j,
            decreases self.tables.len() - t,
        {
            let key = TupleKey::new(packet, &self.tables[t].tuple);
            match key_index_get(&self.tables[t].index, &key) {
                Some(bi) => {
                    let bucket = &self.buckets[bi];
                    let mut i: usize = 0;
                    let mut stop = false;
                    while i < bucket.len() && !stop
                        invariant
                            self.wf(),
                            bi < self.buckets@.len(),
                            *bucket == self.buckets@[bi as int],
                            i <= bucket@.len(),
                            best matches Some(b) ==> b < self.rules@.len() && self.rules@[b as int].spec_matches(*packet),
                            forall|i2: int| 0 <= i2 < i && self.rules@[bucket@[i2] as int].spec_matches(*packet) ==> best is Some && best->0 <= #[trigger] bucket@[i2],
                            stop ==> best is Some && forall|i2: int| i <= i2 < bucket@.len() ==> best->0 <= #[trigger] bucket@[i2],
                            forall|t2: int, j: int|
                                0 <= t2 < t && 0 <= j < self.rules@.len() && #[trigger] bucket_has(self.tables@[t2], self.buckets@, *packet, j)
                                    && self.rules@[j].spec_matches(*packet) ==> best is Some && best->0 <= j,
                        decreases bucket.len() - i,
                    {
                        let idx = bucket[i];
                        assert(idx < self.rules@.len());
                        match best {
                            Some(b) => {
                                if idx >= b {
                                    stop = true;
                                }
                            },
                            None => {},
                        }
                        if !stop && self.rules[idx].matches(packet) {
                            best = Some(idx);
                            stop = true;
                        }
                        proof {
                            if stop {
                                assert forall|i2: int| i + 1 <= i2 < bucket@.len() implies best->0 <= #[trigger] bucket@[i2] by {
                                    assert(bucket@[i as int] <= bucket@[i2]);
                                }
                            }
                        }
                        i = i + 1;
                    }
                    proof {
                        assert forall|t2: int, j: int|
                            0 <= t2 < t + 1 && 0 <= j < self.rules@.len() && #[trigger] bucket_has(self.tables@[t2], self.buckets@, *packet, j)
                                && self.rules@[j].spec_matches(*packet) implies best is Some && best->0 <= j by {
                            if t2 == t {
                                assert(key_tuple(key) == key_tuple(packet_key(*packet, self.tables@[t2].tuple)));
                                assert(bucket@.contains(j as usize));
                                let i2 = choose|i2: int| 0 <= i2 < bucket@.len() && bucket@[i2] == j as usize;
                                assert(self.rules@.len() == self.rules.len());
                                assert((j as usize) as int == j);
                                assert(bucket@[i2] as int == j);
                                assert(self.rules@[bucket@[i2] as int].spec_matches(*packet));
                            }
                        }
                    }
                },
                None => {
                    proof {
                        assert forall|t2: int, j: int|
                            0 <= t2 < t + 1 && 0 <= j < self.rules@.len() && #[trigger] bucket_has(self.tables@[t2], self.buckets@, *packet, j)
                                && self.rules@[j].spec_matches(*packet) implies best is Some && best->0 <= j by {
                            if t2 == t {
                                assert(key_tuple(key) == key_tuple(packet_key(*packet, self.tables@[t2].tuple)));
                            }
                        }
                    }
                },
            }
            t = t + 1;
        }
        proof {
            let s = self.rules@;
            lemma_first_match_some(s, *packet);
            if first_match(s, *packet) is Some {
                let i0 = choose|i: int|
                    #![trigger s[i]]
                    0 <= i < s.len() && first_match(s, *packet) == Some(s[i]) && s[i].spec_matches(*packet) && forall|j: int|
                        0 <= j < i ==> !#[trigger] s[j].spec_matches(*packet);
                assert(found(self.tables@, self.buckets@, *packet, i0));
                let t0 = choose|t0: int| 0 <= t0 < self.tables@.len() && #[trigger] bucket_has(self.tables@[t0], self.buckets@, *packet, i0);
                assert(bucket_has(self.tables@[t0], self.buckets@, *packet, i0));
            }
        }
        match best {
            Some(b) => Some(self.rules[b].action),
            None => None,
        }
    }
}

} // verus!
