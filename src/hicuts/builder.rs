use vstd::prelude::*;
use crate::cutsplit::tree::{Dimension, spec_field, spec_lo, spec_hi, spec_dim_max};
use crate::hicuts::tree::{Node, spec_child_index};
use crate::order::{action_of, first_match, lemma_first_match_push};
use crate::packet::FiveTuple;
use crate::rule::Rule;

verus! {

/// The packet lies in the region: each entry `(d, lo, hi)` holds its value in `d`.
pub open spec fn in_region(p: FiveTuple, ranges: Seq<(Dimension, u32, u32)>) -> bool {
    forall|i: int| 0 <= i < ranges.len() ==> ranges[i].1 <= #[trigger] spec_field(p, ranges[i].0) <= ranges[i].2
}

/// Lower end of bin `i` of `num_cuts` strides of `step` from `min`.
pub open spec fn bin_lo(min: u32, step: u32, i: int) -> int {
    min + i * step
}

/// Upper end of bin `i`; the last bin runs to `max`.
pub open spec fn bin_hi(min: u32, max: u32, step: u32, num_cuts: u32, i: int) -> int {
    if i == num_cuts - 1 { max as int } else { min + (i + 1) * step - 1 }
}

/// The stride of `num_cuts` equal bins over `[min, max]`.
pub open spec fn stride(min: u32, max: u32, num_cuts: u32) -> int {
    (max - min + 1) / (num_cuts as int)
}

/// Bin bounds are ordered and stay inside `[min, max]`.
pub proof fn lemma_bin_bounds(min: u32, max: u32, num_cuts: u32, step: u32, i: int)
    requires
        min <= max,
        1 <= num_cuts,
        num_cuts <= max - min + 1,
        step == stride(min, max, num_cuts),
        0 <= i < num_cuts,
    ensures
        step >= 1,
        min <= bin_lo(min, step, i) <= bin_hi(min, max, step, num_cuts, i) <= max,
        i < num_cuts - 1 ==> 1 <= (i + 1) * step && min + (i + 1) * step <= max,
{
    let size = max - min + 1;
    assert(step >= 1) by (nonlinear_arith)
        requires step == size / (num_cuts as int), num_cuts <= size, num_cuts >= 1;
    assert(num_cuts * step <= size) by (nonlinear_arith)
        requires step == size / (num_cuts as int), num_cuts >= 1;
    assert(i * step <= (num_cuts - 1) * step) by (nonlinear_arith)
        requires i <= num_cuts - 1, step >= 1, i >= 0;
    assert((i + 1) * step <= num_cuts * step) by (nonlinear_arith)
        requires i + 1 <= num_cuts, step >= 1;
    assert(i * step + step == (i + 1) * step) by (nonlinear_arith);
    assert((num_cuts - 1) * step + step == num_cuts * step) by (nonlinear_arith);
    assert(0 <= i * step) by (nonlinear_arith)
        requires i >= 0, step >= 1;
    assert(1 <= (i + 1) * step) by (nonlinear_arith)
        requires i >= 0, step >= 1;
    if i < num_cuts - 1 {
        assert((i + 1) * step <= (num_cuts - 1) * step) by (nonlinear_arith)
            requires i + 1 <= num_cuts - 1, step >= 1;
    }
}

/// The stride of at least two cuts over at most 2^32 values fits in `u32`.
proof fn lemma_stride_fits(size: u64, cuts: u32)
    requires
        2 <= cuts,
        1 <= size <= 0x1_0000_0000,
    ensures
        size / (cuts as u64) <= u32::MAX,
        (size / (cuts as u64)) as int == size as int / (cuts as int),
{
    assert(size as int / (cuts as int) <= size as int / 2) by (nonlinear_arith)
        requires 2 <= cuts, size >= 1;
}

/// A value of `[min, max]` lies in the bin that `spec_child_index` picks.
pub proof fn lemma_child_index(min: u32, max: u32, num_cuts: u32, step: u32, v: u32)
    requires
        min <= v <= max,
        1 <= num_cuts,
        num_cuts <= max - min + 1,
        step == stride(min, max, num_cuts),
    ensures
        0 <= spec_child_index(v, min, step, num_cuts) < num_cuts,
        bin_lo(min, step, spec_child_index(v, min, step, num_cuts)) <= v,
        v <= bin_hi(min, max, step, num_cuts, spec_child_index(v, min, step, num_cuts)),
{
    lemma_bin_bounds(min, max, num_cuts, step, 0);
    let off = (v - min) as int;
    let raw = off / (step as int);
    assert(raw * step <= off && off < (raw + 1) * step && raw >= 0) by (nonlinear_arith)
        requires raw == off / (step as int), step >= 1, off >= 0;
    if raw >= num_cuts {
        assert((num_cuts - 1) * step <= raw * step) by (nonlinear_arith)
            requires raw >= num_cuts, step >= 1;
    }
}

/// The rules whose range in `d` overlaps `[lo, hi]`, in order. A packet whose
/// value in `d` lies in `[lo, hi]` finds the same first match among them as
/// among all of `rules`.
pub fn rules_overlapping(rules: &[Rule], d: Dimension, lo: u32, hi: u32) -> (out: Vec<Rule>)
    ensures
        out@ == overlapping(rules@, d, lo as int, hi as int),
        out@.len() <= rules@.len(),
        forall|i: int| 0 <= i < out@.len() ==> spec_lo(#[trigger] out@[i], d) <= hi && spec_hi(out@[i], d) >= lo,
        forall|p: FiveTuple| lo <= spec_field(p, d) <= hi ==> #[trigger] first_match(out@, p) == first_match(rules@, p),
{
    let mut out: Vec<Rule> = Vec::new();
    let mut i: usize = 0;
    while i < rules.len()
        invariant
            i <= rules@.len(),
            out@ == overlapping(rules@.take(i as int), d, lo as int, hi as int),
            out@.len() <= i,
            forall|k: int| 0 <= k < out@.len() ==> spec_lo(#[trigger] out@[k], d) <= hi && spec_hi(out@[k], d) >= lo,
            forall|p: FiveTuple| lo <= spec_field(p, d) <= hi ==> #[trigger] first_match(out@, p) == first_match(rules@.take(i as int), p),
        decreases rules.len() - i,
    {
        let rule = rules[i];
        let ghost old_out = out@;
        let ghost pre = rules@.take(i as int);
        let keep = rule_overlaps(&rule, d, lo, hi);
        if keep {
            out.push(rule);
        }
        assert(rules@.take(i + 1) =~= pre.push(rule));
        proof {
            reveal(Seq::filter);
            assert(rules@.take(i + 1).drop_last() =~= pre);
            assert(rules@.take(i + 1).last() == rule);
        }
        assert forall|p: FiveTuple| lo <= spec_field(p, d) <= hi implies #[trigger] first_match(out@, p) == first_match(rules@.take(i + 1), p) by {
            lemma_first_match_push(pre, rule, p);
            if keep {
                lemma_first_match_push(old_out, rule, p);
            }
        }
        i = i + 1;
    }
    assert(rules@.take(i as int) =~= rules@);
    out
}

/// Whether the rule's range in `d` overlaps `[min_val, max_val]`.
pub fn rule_overlaps(rule: &Rule, d: Dimension, min_val: u32, max_val: u32) -> (r: bool)
    ensures
        r == (spec_lo(*rule, d) <= max_val && spec_hi(*rule, d) >= min_val),
{
    let range = d.range_of(rule);
    range.min <= max_val && range.max >= min_val
}

/// The rules whose range in `d` overlaps `[lo, hi]`, in order.
pub open spec fn overlapping(rules: Seq<Rule>, d: Dimension, lo: int, hi: int) -> Seq<Rule> {
    rules.filter(|r: Rule| spec_lo(r, d) <= hi && spec_hi(r, d) >= lo)
}

/// How many rules' ranges in `d` overlap `[lo, hi]`.
pub open spec fn overlap_count(rules: Seq<Rule>, d: Dimension, lo: int, hi: int) -> int
    decreases rules.len(),
{
    if rules.len() == 0 {
        0
    } else {
        overlap_count(rules.drop_last(), d, lo, hi) + (if spec_lo(rules.last(), d) <= hi && spec_hi(rules.last(), d) >= lo {
            1int
        } else {
            0int
        })
    }
}

/// The fullest of the first `i` of `cuts` equal-stride bins over `[min, max]`.
pub open spec fn max_bin(rules: Seq<Rule>, d: Dimension, min: u32, max: u32, cuts: u32, i: int) -> int
    decreases i,
{
    if i <= 0 {
        0
    } else {
        let prev = max_bin(rules, d, min, max, cuts, i - 1);
        let step = stride(min, max, cuts) as u32;
        let here = overlap_count(rules, d, bin_lo(min, step, i - 1), bin_hi(min, max, step, cuts, i - 1));
        if here > prev { here } else { prev }
    }
}

/// The cut counts tried, in order: 2, 4, 8, 16.
pub open spec fn cut_option(c: int) -> u32 {
    if c == 0 {
        2
    } else if c == 1 {
        4
    } else if c == 2 {
        8
    } else {
        16
    }
}

/// A choice in progress: region entry, number of cuts, fullest bin.
pub type Choice = (int, int, int);

/// The choice after also trying `cut_option(c)` cuts of region entry `e`: it
/// is taken when the entry spans more than one value and at least that many,
/// and its fullest bin is below both the best so far and the rule count.
pub open spec fn consider(rules: Seq<Rule>, ranges: Seq<(Dimension, u32, u32)>, st: Choice, e: int, c: int) -> Choice {
    let (dim, min, max) = ranges[e];
    let cuts = cut_option(c);
    if min < max && max - min + 1 >= cuts {
        let m = max_bin(rules, dim, min, max, cuts, cuts as int);
        if m < st.2 && m < rules.len() { (e, cuts as int, m) } else { st }
    } else {
        st
    }
}

/// The choice after trying the first `c` cut counts of entry `e`.
pub open spec fn entry_fold(rules: Seq<Rule>, ranges: Seq<(Dimension, u32, u32)>, st: Choice, e: int, c: int) -> Choice
    decreases c,
{
    if c <= 0 {
        st
    } else {
        consider(rules, ranges, entry_fold(rules, ranges, st, e, c - 1), e, c - 1)
    }
}

/// The choice after trying every cut count of the first `e` entries, from
/// "one cut" with an unbounded fullest bin.
pub open spec fn select_upto(rules: Seq<Rule>, ranges: Seq<(Dimension, u32, u32)>, e: int) -> Choice
    decreases e,
{
    if e <= 0 {
        (0, 1, usize::MAX as int)
    } else {
        entry_fold(rules, ranges, select_upto(rules, ranges, e - 1), e - 1, 4)
    }
}

/// The chosen region entry and number of cuts for `rules` in `ranges`.
pub open spec fn select(rules: Seq<Rule>, ranges: Seq<(Dimension, u32, u32)>) -> (int, int) {
    let st = select_upto(rules, ranges, ranges.len() as int);
    (st.0, st.1)
}

/// A choice of more than one cut names an entry wide enough for it.
pub open spec fn choice_ok(ranges: Seq<(Dimension, u32, u32)>, st: Choice) -> bool {
    st.1 == 1 || {
        &&& 0 <= st.0 < ranges.len()
        &&& 2 <= st.1 <= 16
        &&& ranges[st.0].1 < ranges[st.0].2
        &&& st.1 <= ranges[st.0].2 - ranges[st.0].1 + 1
    }
}

proof fn lemma_entry_fold_ok(rules: Seq<Rule>, ranges: Seq<(Dimension, u32, u32)>, st: Choice, e: int, c: int)
    requires
        choice_ok(ranges, st),
        0 <= e < ranges.len(),
        0 <= c <= 4,
    ensures
        choice_ok(ranges, entry_fold(rules, ranges, st, e, c)),
    decreases c,
{
    if c > 0 {
        lemma_entry_fold_ok(rules, ranges, st, e, c - 1);
    }
}

/// Every choice the selection makes is `choice_ok`.
pub proof fn lemma_select_ok(rules: Seq<Rule>, ranges: Seq<(Dimension, u32, u32)>, e: int)
    requires
        0 <= e <= ranges.len(),
    ensures
        choice_ok(ranges, select_upto(rules, ranges, e)),
    decreases e,
{
    if e > 0 {
        lemma_select_ok(rules, ranges, e - 1);
        lemma_entry_fold_ok(rules, ranges, select_upto(rules, ranges, e - 1), e - 1, 4);
    }
}

/// Trying `cut_option(c)` cuts of entry `e` makes progress: the entry spans
/// more than one value and at least that many, and the fullest bin holds
/// fewer than all the rules.
pub open spec fn progress(rules: Seq<Rule>, ranges: Seq<(Dimension, u32, u32)>, e: int, c: int) -> bool {
    let (dim, min, max) = ranges[e];
    let cuts = cut_option(c);
    &&& min < max && max - min + 1 >= cuts
    &&& max_bin(rules, dim, min, max, cuts, cuts as int) < rules.len()
}

/// The fullest bin when entry `e` is cut `cut_option(c)` ways.
pub open spec fn fullest(rules: Seq<Rule>, ranges: Seq<(Dimension, u32, u32)>, e: int, c: int) -> int {
    let (dim, min, max) = ranges[e];
    max_bin(rules, dim, min, max, cut_option(c), cut_option(c) as int)
}

/// A choice that keeps one cut still has an unbounded fullest bin; any
/// other choice is a candidate that makes progress, with its fullest bin.
pub open spec fn choice_sound(rules: Seq<Rule>, ranges: Seq<(Dimension, u32, u32)>, st: Choice) -> bool {
    &&& st.1 == 1 ==> st.2 == usize::MAX as int
    &&& st.1 != 1 ==> exists|c: int|
        0 <= c < 4 && cut_option(c) == st.1 && 0 <= st.0 < ranges.len() && #[trigger] progress(rules, ranges, st.0, c) && st.2 == fullest(rules, ranges, st.0, c)
}

proof fn lemma_entry_fold_least(rules: Seq<Rule>, ranges: Seq<(Dimension, u32, u32)>, st: Choice, e: int, c: int)
    requires
        rules.len() <= usize::MAX,
        0 <= e < ranges.len(),
        0 <= c <= 4,
        choice_sound(rules, ranges, st),
    ensures
        ({
            let r = entry_fold(rules, ranges, st, e, c);
            &&& choice_sound(rules, ranges, r)
            &&& r.2 <= st.2
            &&& (r.1 == 1 <==> st.1 == 1 && forall|c2: int| 0 <= c2 < c ==> !#[trigger] progress(rules, ranges, e, c2))
            &&& forall|c2: int| 0 <= c2 < c && #[trigger] progress(rules, ranges, e, c2) ==> r.2 <= fullest(rules, ranges, e, c2)
        }),
    decreases c,
{
    if c > 0 {
        lemma_entry_fold_least(rules, ranges, st, e, c - 1);
        let prev = entry_fold(rules, ranges, st, e, c - 1);
        let r = entry_fold(rules, ranges, st, e, c);
        if progress(rules, ranges, e, c - 1) && fullest(rules, ranges, e, c - 1) < prev.2 {
            assert(r == (e, cut_option(c - 1) as int, fullest(rules, ranges, e, c - 1)));
            assert(progress(rules, ranges, r.0, c - 1));
        }
    }
}

/// Least fullest bin: the selection keeps one cut exactly when no entry and
/// cut count makes progress; otherwise it is a candidate that makes progress
/// whose fullest bin is no larger than that of any other such candidate.
pub proof fn lemma_select_least(rules: Seq<Rule>, ranges: Seq<(Dimension, u32, u32)>, e: int)
    requires
        rules.len() <= usize::MAX,
        0 <= e <= ranges.len(),
    ensures
        choice_sound(rules, ranges, select_upto(rules, ranges, e)),
        select_upto(rules, ranges, e).1 == 1 <==> forall|e2: int, c2: int| 0 <= e2 < e && 0 <= c2 < 4 ==> !#[trigger] progress(rules, ranges, e2, c2),
        forall|e2: int, c2: int|
            0 <= e2 < e && 0 <= c2 < 4 && #[trigger] progress(rules, ranges, e2, c2) ==> select_upto(rules, ranges, e).2 <= fullest(rules, ranges, e2, c2),
    decreases e,
{
    if e > 0 {
        lemma_select_least(rules, ranges, e - 1);
        lemma_entry_fold_least(rules, ranges, select_upto(rules, ranges, e - 1), e - 1, 4);
        let r = select_upto(rules, ranges, e);
        assert forall|e2: int, c2: int| 0 <= e2 < e && 0 <= c2 < 4 && #[trigger] progress(rules, ranges, e2, c2) implies r.2 <= fullest(rules, ranges, e2, c2) by {
            if e2 < e - 1 {
                assert(select_upto(rules, ranges, e - 1).2 <= fullest(rules, ranges, e2, c2));
            }
        }
        if r.1 == 1 {
            assert forall|e2: int, c2: int| 0 <= e2 < e && 0 <= c2 < 4 implies !#[trigger] progress(rules, ranges, e2, c2) by {
                if e2 == e - 1 {
                    assert(!progress(rules, ranges, e - 1, c2));
                }
            }
        } else if select_upto(rules, ranges, e - 1).1 != 1 {
            assert(!(forall|e2: int, c2: int| 0 <= e2 < e - 1 && 0 <= c2 < 4 ==> !#[trigger] progress(rules, ranges, e2, c2)));
            let (e3, c3) = choose|e2: int, c2: int| 0 <= e2 < e - 1 && 0 <= c2 < 4 && #[trigger] progress(rules, ranges, e2, c2);
            assert(progress(rules, ranges, e3, c3));
        } else {
            let c3 = choose|c2: int| 0 <= c2 < 4 && #[trigger] progress(rules, ranges, e - 1, c2);
            assert(progress(rules, ranges, e - 1, c3));
        }
    }
}

/// The whole five-tuple space.
pub open spec fn full_region() -> Seq<(Dimension, u32, u32)> {
    seq![
        (Dimension::SrcIp, 0u32, u32::MAX),
        (Dimension::DstIp, 0u32, u32::MAX),
        (Dimension::SrcPort, 0u32, 65535u32),
        (Dimension::DstPort, 0u32, 65535u32),
        (Dimension::Proto, 0u32, 255u32),
    ]
}

/// `n` is the tree `b` builds for `rules` over the region `ranges` at
/// `depth`: a leaf of the rules themselves at the size or depth limit or
/// when the selection gives one cut; otherwise a node cutting the chosen
/// entry's range into `num_cuts` bins of `stride`, child `i` built one level
/// deeper for the rules overlapping bin `i`, over the region narrowed to it.
pub open spec fn built(b: Builder, rules: Seq<Rule>, depth: int, ranges: Seq<(Dimension, u32, u32)>, n: Node) -> bool
    decreases n,
{
    let sel = select(rules, ranges);
    if rules.len() <= b.leaf_threshold || depth >= b.max_depth || sel.1 <= 1 {
        n is Leaf && n->Leaf_rules@ == rules
    } else {
        let (dim, lo, hi) = ranges[sel.0];
        match n {
            Node::Internal { dimension, start, step, num_cuts, children } => {
                &&& dimension == dim
                &&& start == lo
                &&& num_cuts == sel.1
                &&& step == stride(lo, hi, num_cuts)
                &&& children@.len() == num_cuts
                &&& forall|i: int|
                    0 <= i < children@.len() ==> built(
                        b,
                        overlapping(rules, dim, bin_lo(lo, step, i), bin_hi(lo, hi, step, num_cuts, i)),
                        depth + 1,
                        ranges.update(sel.0, (dim, bin_lo(lo, step, i) as u32, bin_hi(lo, hi, step, num_cuts, i) as u32)),
                        *#[trigger] children@[i],
                    )
            },
            Node::Leaf { .. } => false,
        }
    }
}

/// Builder for the HiCuts decision tree.
#[derive(Clone, Copy)]
pub struct Builder {
    /// A node with at most this many rules becomes a leaf.
    pub leaf_threshold: usize,
    /// Nodes at this depth become leaves.
    pub max_depth: usize,
    /// Tuning knob kept with the builder; the cut choice does not read it.
    pub binth: usize,
    /// Space factor kept with the builder; the cut choice does not read it.
    pub spfac: usize,
}

impl Builder {
    /// Creates a builder with the given thresholds.
    pub fn new(leaf_threshold: usize, max_depth: usize) -> (b: Self)
        ensures
            b.leaf_threshold == leaf_threshold,
            b.max_depth == max_depth,
            b.binth == 8,
            b.spfac == 4,
    {
        Self { leaf_threshold, max_depth, binth: 8, spfac: 4 }
    }

    /// Builds a decision tree for `rules` over the whole five-tuple space. A
    /// descent from the root answers every packet as the first matching rule
    /// of `rules` in list order does.
    pub fn build(&self, rules: &[Rule]) -> (n: Node)
        ensures
            built(*self, rules@, 0, full_region(), n),
            forall|p: FiveTuple| #[trigger] n.spec_classify(p) == action_of(first_match(rules@, p)),
            rules@.len() <= self.leaf_threshold ==> n is Leaf && n->Leaf_rules@ == rules@,
    {
        let ranges: Vec<(Dimension, u32, u32)> = vec![
            (Dimension::SrcIp, 0, u32::MAX),
            (Dimension::DstIp, 0, u32::MAX),
            (Dimension::SrcPort, 0, 65535),
            (Dimension::DstPort, 0, 65535),
            (Dimension::Proto, 0, 255),
        ];
        assert(ranges@ =~= full_region());
        let n = self.build_recursive(rules, 0, &ranges);
        assert forall|p: FiveTuple| #[trigger] n.spec_classify(p) == action_of(first_match(rules@, p)) by {
            assert forall|i: int| 0 <= i < ranges@.len() implies ranges@[i].1 <= #[trigger] spec_field(p, ranges@[i].0) <= ranges@[i].2 by {
                assert(spec_field(p, ranges@[i].0) <= spec_dim_max(ranges@[i].0));
            }
            assert(in_region(p, ranges@));
        }
        n
    }

    fn build_recursive(&self, rules: &[Rule], depth: usize, ranges: &Vec<(Dimension, u32, u32)>) -> (n: Node)
        ensures
            built(*self, rules@, depth as int, ranges@, n),
            forall|p: FiveTuple| in_region(p, ranges@) ==> #[trigger] n.spec_classify(p) == action_of(first_match(rules@, p)),
            rules@.len() <= self.leaf_threshold || depth >= self.max_depth ==> n is Leaf && n->Leaf_rules@ == rules@,
        decreases self.max_depth - depth,
    {
        if rules.len() <= self.leaf_threshold || depth >= self.max_depth {
            return Node::Leaf { rules: vstd::slice::slice_to_vec(rules) };
        }
        let (j, num_cuts) = self.select_dimension_and_cuts(rules, ranges);
        if num_cuts <= 1 {
            return Node::Leaf { rules: vstd::slice::slice_to_vec(rules) };
        }
        let (dim, min_val, max_val) = ranges[j];
        let range_size: u64 = max_val as u64 - min_val as u64 + 1;
        proof {
            lemma_stride_fits(range_size, num_cuts);
        }
        let step: u32 = (range_size / num_cuts as u64) as u32;
        proof {
            lemma_bin_bounds(min_val, max_val, num_cuts, step, 0);
        }
        let mut children: Vec<Box<Node>> = Vec::new();
        let mut i: u32 = 0;
        while i < num_cuts
            invariant
                2 <= num_cuts <= max_val - min_val + 1,
                j < ranges@.len(),
                ranges@[j as int] == (dim, min_val, max_val),
                step == stride(min_val, max_val, num_cuts),
                depth < self.max_depth,
                i <= num_cuts,
                children@.len() == i,
                (j as int, num_cuts as int) == select(rules@, ranges@),
                forall|k: int| 0 <= k < i ==> built(
                    *self,
                    overlapping(rules@, dim, bin_lo(min_val, step, k), bin_hi(min_val, max_val, step, num_cuts, k)),
                    depth + 1,
                    ranges@.update(j as int, (dim, bin_lo(min_val, step, k) as u32, bin_hi(min_val, max_val, step, num_cuts, k) as u32)),
                    *#[trigger] children@[k],
                ),
                forall|k: int, p: FiveTuple| 0 <= k < i && in_region(p, ranges@) && bin_lo(min_val, step, k) <= spec_field(p, dim)
                    <= bin_hi(min_val, max_val, step, num_cuts, k) ==> #[trigger] children@[k].spec_classify(p) == action_of(first_match(rules@, p)),
            decreases num_cuts - i,
        {
            proof {
                lemma_bin_bounds(min_val, max_val, num_cuts, step, i as int);
            }
            let cut_min = min_val + i * step;
            let cut_max = if i == num_cuts - 1 { max_val } else { min_val + (i + 1) * step - 1 };
            let child_rules = rules_overlapping(rules, dim, cut_min, cut_max);
            let mut new_ranges = vstd::slice::slice_to_vec(ranges.as_slice());
            new_ranges.set(j, (dim, cut_min, cut_max));
            let child = self.build_recursive(child_rules.as_slice(), depth + 1, &new_ranges);
            let ghost old_children = children@;
            children.push(Box::new(child));
            assert(new_ranges@ == ranges@.update(j as int, (dim, cut_min, cut_max)));
            assert forall|k: int| 0 <= k < i + 1 implies built(
                *self,
                overlapping(rules@, dim, bin_lo(min_val, step, k), bin_hi(min_val, max_val, step, num_cuts, k)),
                depth + 1,
                ranges@.update(j as int, (dim, bin_lo(min_val, step, k) as u32, bin_hi(min_val, max_val, step, num_cuts, k) as u32)),
                *#[trigger] children@[k],
            ) by {
                if k < i {
                    assert(children@[k] == old_children[k]);
                }
            }
            assert forall|k: int, p: FiveTuple| 0 <= k < i + 1 && in_region(p, ranges@) && bin_lo(min_val, step, k) <= spec_field(p, dim)
                <= bin_hi(min_val, max_val, step, num_cuts, k) implies #[trigger] children@[k].spec_classify(p) == action_of(first_match(rules@, p)) by {
                if k == i {
                    assert forall|m: int| 0 <= m < new_ranges@.len() implies new_ranges@[m].1 <= #[trigger] spec_field(p, new_ranges@[m].0) <= new_ranges@[m].2 by {
                        if m != j {
                            assert(new_ranges@[m] == ranges@[m]);
                        }
                    }
                    assert(in_region(p, new_ranges@));
                    assert(children@[k] == Box::new(child));
                } else {
                    assert(children@[k] == old_children[k]);
                }
            }
            i = i + 1;
        }
        let n = Node::Internal { dimension: dim, start: min_val, step, num_cuts, children };
        assert(built(*self, rules@, depth as int, ranges@, n));
        assert forall|p: FiveTuple| in_region(p, ranges@) implies #[trigger] n.spec_classify(p) == action_of(first_match(rules@, p)) by {
            let v = spec_field(p, dim);
            assert(min_val <= spec_field(p, ranges@[j as int].0) <= max_val);
            lemma_child_index(min_val, max_val, num_cuts, step, v);
            let k = spec_child_index(v, min_val, step, num_cuts);
            assert(n.spec_classify(p) == children@[k].spec_classify(p));
        }
        n
    }

    /// Picks the region entry and the number of cuts (2, 4, 8 or 16) whose
    /// fullest bin holds the fewest rules, provided that bin holds fewer than
    /// all of them; the first candidate wins ties. Entries whose range is a
    /// single value, or narrower than the number of cuts, are skipped. One cut
    /// means no useful cut was found.
    fn select_dimension_and_cuts(&self, rules: &[Rule], ranges: &Vec<(Dimension, u32, u32)>) -> (res: (usize, u32))
        ensures
            (res.0 as int, res.1 as int) == select(rules@, ranges@),
            res.1 == 1 <==> forall|e: int, c: int| 0 <= e < ranges@.len() && 0 <= c < 4 ==> !#[trigger] progress(rules@, ranges@, e, c),
            res.1 != 1 ==> exists|c: int|
                0 <= c < 4 && cut_option(c) == res.1 && #[trigger] progress(rules@, ranges@, res.0 as int, c) && forall|e2: int, c2: int|
                    0 <= e2 < ranges@.len() && 0 <= c2 < 4 && #[trigger] progress(rules@, ranges@, e2, c2) ==> fullest(rules@, ranges@, res.0 as int, c)
                        <= fullest(rules@, ranges@, e2, c2),
            res.1 == 1 || {
                &&& res.0 < ranges@.len()
                &&& 2 <= res.1 <= 16
                &&& ranges@[res.0 as int].1 < ranges@[res.0 as int].2
                &&& res.1 <= ranges@[res.0 as int].2 - ranges@[res.0 as int].1 + 1
            },
    {
        let mut best_idx: usize = 0;
        let mut best_cut_count: u32 = 1;
        let mut min_max_rules: usize = usize::MAX;
        let mut e: usize = 0;
        while e < ranges.len()
            invariant
                e <= ranges@.len(),
                (best_idx as int, best_cut_count as int, min_max_rules as int) == select_upto(rules@, ranges@, e as int),
            decreases ranges.len() - e,
        {
            let (dim, min_val, max_val) = ranges[e];
            let ghost start = select_upto(rules@, ranges@, e as int);
            let mut c: usize = 0;
            while c < 4
                invariant
                    e < ranges@.len(),
                    c <= 4,
                    ranges@[e as int] == (dim, min_val, max_val),
                    (best_idx as int, best_cut_count as int, min_max_rules as int) == entry_fold(rules@, ranges@, start, e as int, c as int),
                decreases 4 - c,
            {
                let cuts: u32 = if c == 0 { 2 } else if c == 1 { 4 } else if c == 2 { 8 } else { 16 };
                let range_len: u64 = if min_val < max_val { max_val as u64 - min_val as u64 + 1 } else { 0 };
                if min_val < max_val && range_len >= cuts as u64 {
                    proof {
                        lemma_stride_fits(range_len, cuts);
                    }
                    let step: u32 = (range_len / cuts as u64) as u32;
                    let mut max_rules_in_bin: usize = 0;
                    let mut i: u32 = 0;
                    while i < cuts
                        invariant
                            2 <= cuts <= max_val - min_val + 1,
                            step == stride(min_val, max_val, cuts),
                            i <= cuts,
                            max_rules_in_bin <= rules@.len(),
                            max_rules_in_bin == max_bin(rules@, dim, min_val, max_val, cuts, i as int),
                        decreases cuts - i,
                    {
                        proof {
                            lemma_bin_bounds(min_val, max_val, cuts, step, i as int);
                        }
                        let c_min = min_val + i * step;
                        let c_max = if i == cuts - 1 { max_val } else { min_val + (i + 1) * step - 1 };
                        let mut bin_count: usize = 0;
                        let mut r: usize = 0;
                        while r < rules.len()
                            invariant
                                r <= rules@.len(),
                                bin_count <= r,
                                bin_count == overlap_count(rules@.take(r as int), dim, c_min as int, c_max as int),
                            decreases rules.len() - r,
                        {
                            assert(rules@.take(r + 1).drop_last() =~= rules@.take(r as int));
                            if rule_overlaps(&rules[r], dim, c_min, c_max) {
                                bin_count = bin_count + 1;
                            }
                            r = r + 1;
                        }
                        assert(rules@.take(r as int) =~= rules@);
                        if bin_count > max_rules_in_bin {
                            max_rules_in_bin = bin_count;
                        }
                        i = i + 1;
                    }
                    if max_rules_in_bin < min_max_rules && max_rules_in_bin < rules.len() {
                        min_max_rules = max_rules_in_bin;
                        best_idx = e;
                        best_cut_count = cuts;
                    }
                }
                c = c + 1;
            }
            e = e + 1;
        }
        proof {
            lemma_select_ok(rules@, ranges@, ranges@.len() as int);
            assert(rules@.len() == rules.len());
            lemma_select_least(rules@, ranges@, ranges@.len() as int);
        }
        (best_idx, best_cut_count)
    }
}

} // verus!
