//! Prefixes of fixed-width values: range decomposition and masking.
use vstd::prelude::*;
use vstd::arithmetic::power2::{pow2, lemma_pow2_pos, lemma_pow2_adds, lemma_pow2_strictly_increases, lemma2_to64};
use vstd::arithmetic::div_mod::{lemma_fundamental_div_mod, lemma_mod_mod, lemma_mod_multiples_vanish, lemma_small_mod, lemma_mod_bound, lemma_mod_multiples_basic};
use vstd::bits::{lemma_u64_shl_is_mul, lemma_u64_pow2_no_overflow};

verus! {

/// A prefix `value/len`: the values that agree with `value` on their top
/// `len` bits. The low bits of `value` are zero.
#[derive(Debug, Clone, Copy, PartialEq, Eq, Hash)]
pub struct Prefix<T> {
    pub value: T,
    pub len: u32,
}

/// How many of the low `bits - len` bits a prefix of length `len` leaves free.
pub open spec fn free_bits(len: u32, bits: u32) -> nat {
    if len >= bits { 0 } else { (bits - len) as nat }
}

/// How many values a prefix of length `len` over `bits`-wide values holds.
pub open spec fn block(bits: u32, len: u32) -> int {
    pow2(free_bits(len, bits)) as int
}

/// The prefix `value/len` holds `v`.
pub open spec fn prefix_holds(value: int, len: u32, bits: u32, v: int) -> bool {
    value <= v < value + block(bits, len)
}

/// `v` with its low `bits - len` bits cleared: zero for length zero, `v`
/// itself for a length of `bits` or more.
pub open spec fn mask(v: int, len: u32, bits: u32) -> int {
    v - v % block(bits, len)
}

/// Some prefix of `s` holds `v`.
pub open spec fn held_by(s: Seq<Prefix<u32>>, bits: u32, v: int) -> bool {
    exists|i: int| 0 <= i < s.len() && #[trigger] prefix_holds(s[i].value as int, s[i].len, bits, v)
}

/// `s` is the greedy decomposition of `[min, max]`: its prefixes are aligned,
/// lie inside the range, come in ascending order without overlap, and
/// together hold every value of the range.
pub open spec fn decomposes(s: Seq<Prefix<u32>>, min: u32, max: u32, bits: u32) -> bool {
    &&& forall|i: int| 0 <= i < s.len() ==> {
        &&& (#[trigger] s[i]).len <= bits
        &&& s[i].value as int % block(bits, s[i].len) == 0
        &&& min <= s[i].value
        &&& s[i].value + block(bits, s[i].len) - 1 <= max
    }
    &&& forall|i: int, j: int| #![trigger s[i], s[j]] 0 <= i < j < s.len() ==> s[i].value + block(bits, s[i].len) <= s[j].value
    &&& forall|v: int| min <= v <= max ==> #[trigger] held_by(s, bits, v)
}

/// No prefix of `s` could be one bit shorter: the block twice as large at
/// its value is misaligned or runs past `max`.
pub open spec fn maximal(s: Seq<Prefix<u32>>, max: u32, bits: u32) -> bool {
    forall|i: int| 0 <= i < s.len() && (#[trigger] s[i]).len > 0 ==> !fits_block(s[i].value as int, (s[i].len - 1) as u32, max, bits)
}

/// The prefix of length `len` at `start` is aligned and ends within `max`.
pub open spec fn fits_block(start: int, len: u32, max: u32, bits: u32) -> bool {
    start % block(bits, len) == 0 && start + block(bits, len) - 1 <= max
}

/// A block is positive and at most 2^bits.
pub proof fn lemma_block_bounds(bits: u32, len: u32)
    ensures
        1 <= block(bits, len),
        bits <= 32 ==> block(bits, len) <= pow2(bits as nat) <= 0x1_0000_0000,
{
    lemma_pow2_pos(free_bits(len, bits));
    if bits <= 32 {
        if free_bits(len, bits) < bits {
            lemma_pow2_strictly_increases(free_bits(len, bits), bits as nat);
        }
        if bits < 32 {
            lemma_pow2_strictly_increases(bits as nat, 32);
        }
        lemma2_to64();
    }
}

/// Decomposition law: the prefixes of a decomposition of `[min, max]` hold
/// exactly the values of the range, each value in one prefix only.
pub proof fn lemma_decomposition_exact(s: Seq<Prefix<u32>>, min: u32, max: u32, bits: u32, v: int)
    requires
        decomposes(s, min, max, bits),
    ensures
        (min <= v <= max) <==> held_by(s, bits, v),
        forall|i: int, j: int|
            0 <= i < s.len() && 0 <= j < s.len() && #[trigger] prefix_holds(s[i].value as int, s[i].len, bits, v)
                && #[trigger] prefix_holds(s[j].value as int, s[j].len, bits, v) ==> i == j,
{
    assert forall|i: int, j: int|
        0 <= i < s.len() && 0 <= j < s.len() && #[trigger] prefix_holds(s[i].value as int, s[i].len, bits, v)
            && #[trigger] prefix_holds(s[j].value as int, s[j].len, bits, v) implies i == j by {
        if i < j {
            assert(s[i].value + block(bits, s[i].len) <= s[j].value);
        } else if j < i {
            assert(s[j].value + block(bits, s[j].len) <= s[i].value);
        }
    }
}

/// Mask law: masking twice with the same length masks once.
pub proof fn lemma_mask_idempotent(v: int, len: u32, bits: u32)
    ensures
        mask(mask(v, len, bits), len, bits) == mask(v, len, bits),
{
    let b = block(bits, len);
    lemma_block_bounds(bits, len);
    lemma_fundamental_div_mod(v, b);
    lemma_mod_multiples_basic(v / b, b);
    assert(mask(v, len, bits) == (v / b) * b) by (nonlinear_arith)
        requires v == b * (v / b) + v % b, mask(v, len, bits) == v - v % b;
}

/// Masking to a length, then to a shorter one, is masking to the shorter one.
pub proof fn lemma_mask_twice(v: int, long: u32, short: u32, bits: u32)
    requires
        0 <= v,
        short <= long,
    ensures
        mask(mask(v, long, bits), short, bits) == mask(v, short, bits),
{
    let a = block(bits, long);
    let b = block(bits, short);
    let fa = free_bits(long, bits);
    let fb = free_bits(short, bits);
    assert(fa <= fb);
    lemma_pow2_adds(fa, (fb - fa) as nat);
    assert(fa + (fb - fa) as nat == fb);
    let c = pow2((fb - fa) as nat) as int;
    lemma_pow2_pos((fb - fa) as nat);
    lemma_block_bounds(bits, long);
    assert(b == a * c);
    lemma_mod_mod(v, a, c);
    let q = v / b;
    let r = v % b;
    lemma_fundamental_div_mod(v, b);
    lemma_mod_bound(v, b);
    lemma_mod_bound(v, a);
    let r2 = r % a;
    assert(r2 == v % a);
    lemma_fundamental_div_mod(r, a);
    let m = v - r2;
    assert(m == b * q + (r - r2));
    assert(0 <= r - r2 < b);
    lemma_mod_multiples_vanish(q, r - r2, b);
    lemma_small_mod((r - r2) as nat, b as nat);
    assert(m % b == r - r2);
}

/// An aligned prefix holds `v` exactly when masking `v` to its length gives its value.
pub proof fn lemma_holds_iff_mask(value: int, len: u32, bits: u32, v: int)
    requires
        0 <= value,
        0 <= v,
        value % block(bits, len) == 0,
    ensures
        prefix_holds(value, len, bits, v) <==> mask(v, len, bits) == value,
{
    let b = block(bits, len);
    lemma_block_bounds(bits, len);
    lemma_mod_bound(v, b);
    if prefix_holds(value, len, bits, v) {
        lemma_fundamental_div_mod(value, b);
        let k = value / b;
        lemma_mod_multiples_vanish(k, v - value, b);
        lemma_small_mod((v - value) as nat, b as nat);
        assert(v == b * k + (v - value));
    }
}

/// `2^(bits - len)` as a machine value.
pub fn block_size(bits: u32, len: u32) -> (size: u64)
    requires
        len <= bits <= 32,
    ensures
        size == block(bits, len),
        1 <= size <= 0x1_0000_0000,
{
    let s = bits - len;
    proof {
        lemma_u64_pow2_no_overflow(s as nat);
        lemma_u64_shl_is_mul(1, s as u64);
        lemma_block_bounds(bits, len);
    }
    1u64 << (s as u64)
}

/// Decomposes `[min, max]` over `bits`-wide values into the fewest prefixes:
/// from the low end, each step takes the largest block that is aligned at the
/// current value and ends within `max`. An empty range (`min > max`) gives no
/// prefixes.
pub fn range_to_prefixes_u32(min: u32, max: u32, bits: u32) -> (prefixes: Vec<Prefix<u32>>)
    requires
        bits <= 32,
        max < pow2(bits as nat),
    ensures
        decomposes(prefixes@, min, max, bits),
        maximal(prefixes@, max, bits),
        min > max ==> prefixes@.len() == 0,
{
    let mut prefixes: Vec<Prefix<u32>> = Vec::new();
    if min > max {
        return prefixes;
    }
    let mut current: u64 = min as u64;
    while current <= max as u64
        invariant
            bits <= 32,
            min <= max,
            min <= current <= max as int + 1,
            forall|i: int| 0 <= i < prefixes@.len() ==> {
                &&& (#[trigger] prefixes@[i]).len <= bits
                &&& prefixes@[i].value as int % block(bits, prefixes@[i].len) == 0
                &&& min <= prefixes@[i].value
                &&& prefixes@[i].value + block(bits, prefixes@[i].len) <= current
            },
            forall|i: int, j: int| #![trigger prefixes@[i], prefixes@[j]] 0 <= i < j < prefixes@.len() ==> prefixes@[i].value + block(bits, prefixes@[i].len) <= prefixes@[j].value,
            forall|v: int| min <= v < current ==> #[trigger] held_by(prefixes@, bits, v),
            maximal(prefixes@, max, bits),
        decreases max as int + 1 - current,
    {
        let cur = current as u32;
        let mut best_len = bits;
        let mut found = false;
        let mut l: u32 = 0;
        proof {
            lemma_block_bounds(bits, bits);
            assert(free_bits(bits, bits) == 0);
            lemma2_to64();
        }
        // The shortest length whose block is aligned here and ends within `max`.
        while !found && l <= bits
            invariant
                bits <= 32,
                current <= max,
                best_len <= bits,
                l <= bits + 1,
                fits_block(current as int, best_len, max, bits),
                fits_block(current as int, bits, max, bits),
                found ==> best_len == l,
                forall|l2: u32| l2 < l ==> !#[trigger] fits_block(current as int, l2, max, bits),
            decreases bits + 1 - l + (if found { 0int } else { 1int }),
        {
            let size = block_size(bits, l);
            if current % size == 0 && current + size - 1 <= max as u64 {
                best_len = l;
                found = true;
            } else {
                l = l + 1;
            }
        }
        assert(found) by {
            if !found {
                assert(!fits_block(current as int, bits, max, bits));
            }
        }
        let size = block_size(bits, best_len);
        let ghost old_prefixes = prefixes@;
        prefixes.push(Prefix { value: cur, len: best_len });
        assert forall|v: int| min <= v < current + size implies #[trigger] held_by(prefixes@, bits, v) by {
            if v < current {
                assert(held_by(old_prefixes, bits, v));
                let i = choose|i: int| 0 <= i < old_prefixes.len() && #[trigger] prefix_holds(old_prefixes[i].value as int, old_prefixes[i].len, bits, v);
                assert(prefixes@[i] == old_prefixes[i]);
            } else {
                assert(prefix_holds(prefixes@[old_prefixes.len() as int].value as int, prefixes@[old_prefixes.len() as int].len, bits, v));
            }
        }
        assert forall|i: int| 0 <= i < prefixes@.len() && (#[trigger] prefixes@[i]).len > 0 implies !fits_block(prefixes@[i].value as int, (prefixes@[i].len - 1) as u32, max, bits) by {
            if i < old_prefixes.len() {
                assert(prefixes@[i] == old_prefixes[i]);
            } else {
                assert(((best_len - 1) as u32) < best_len);
            }
        }
        current = current + size;
    }
    prefixes
}

/// Decomposes a range of 16-bit values (ports) into prefixes.
pub fn range_to_prefixes_u16(min: u16, max: u16) -> (prefixes: Vec<Prefix<u16>>)
    ensures
        decomposes(prefixes@.map_values(|p: Prefix<u16>| Prefix { value: p.value as u32, len: p.len }), min as u32, max as u32, 16),
        maximal(prefixes@.map_values(|p: Prefix<u16>| Prefix { value: p.value as u32, len: p.len }), max as u32, 16),
        min > max ==> prefixes@.len() == 0,
{
    proof {
        lemma2_to64();
    }
    let p32 = range_to_prefixes_u32(min as u32, max as u32, 16);
    let mut out: Vec<Prefix<u16>> = Vec::new();
    let mut i: usize = 0;
    while i < p32.len()
        invariant
            i <= p32@.len(),
            decomposes(p32@, min as u32, max as u32, 16),
            maximal(p32@, max as u32, 16),
            out@.map_values(|p: Prefix<u16>| Prefix { value: p.value as u32, len: p.len }) =~= p32@.take(i as int),
        decreases p32.len() - i,
    {
        let p = p32[i];
        assert(p32@[i as int] == p);
        proof {
            lemma_block_bounds(16, p.len);
        }
        assert(p.value <= max);
        out.push(Prefix { value: p.value as u16, len: p.len });
        assert(p32@.take(i + 1) =~= p32@.take(i as int).push(p));
        i = i + 1;
    }
    assert(p32@.take(i as int) =~= p32@);
    out
}

/// Decomposes a range of 8-bit values (protocols) into prefixes.
pub fn range_to_prefixes_u8(min: u8, max: u8) -> (prefixes: Vec<Prefix<u8>>)
    ensures
        decomposes(prefixes@.map_values(|p: Prefix<u8>| Prefix { value: p.value as u32, len: p.len }), min as u32, max as u32, 8),
        maximal(prefixes@.map_values(|p: Prefix<u8>| Prefix { value: p.value as u32, len: p.len }), max as u32, 8),
        min > max ==> prefixes@.len() == 0,
{
    proof {
        lemma2_to64();
    }
    let p32 = range_to_prefixes_u32(min as u32, max as u32, 8);
    let mut out: Vec<Prefix<u8>> = Vec::new();
    let mut i: usize = 0;
    while i < p32.len()
        invariant
            i <= p32@.len(),
            decomposes(p32@, min as u32, max as u32, 8),
            maximal(p32@, max as u32, 8),
            out@.map_values(|p: Prefix<u8>| Prefix { value: p.value as u32, len: p.len }) =~= p32@.take(i as int),
        decreases p32.len() - i,
    {
        let p = p32[i];
        assert(p32@[i as int] == p);
        proof {
            lemma_block_bounds(8, p.len);
        }
        assert(p.value <= max);
        out.push(Prefix { value: p.value as u8, len: p.len });
        assert(p32@.take(i + 1) =~= p32@.take(i as int).push(p));
        i = i + 1;
    }
    assert(p32@.take(i as int) =~= p32@);
    out
}

} // verus!
