use vstd::prelude::*;
use crate::cutsplit::tree::{Dimension, Node, spec_field, spec_lo, spec_hi};
use crate::order::{action_of, first_match, lemma_first_match_push, lemma_sorted_values, sort_values, u32_le};
use vstd::seq_lib::to_multiset_contains;
use crate::packet::FiveTuple;
use crate::rule::Rule;

verus! {

/// Number of rules whose range in `d` reaches below `val`.
pub open spec fn count_left(rules: Seq<Rule>, d: Dimension, val: u32) -> nat
    decreases rules.len(),
{
    if rules.len() == 0 {
        0
    } else {
        count_left(rules.drop_last(), d, val) + (if spec_lo(rules.last(), d) < val { 1nat } else { 0nat })
    }
}

/// Number of rules whose range in `d` reaches `val` or above.
pub open spec fn count_right(rules: Seq<Rule>, d: Dimension, val: u32) -> nat
    decreases rules.len(),
{
    if rules.len() == 0 {
        0
    } else {
        count_right(rules.drop_last(), d, val) + (if spec_hi(rules.last(), d) >= val { 1nat } else { 0nat })
    }
}

/// Each rule's lower bound in `d` and the value just past its upper bound, in rule order.
pub open spec fn cut_points_raw(rules: Seq<Rule>, d: Dimension) -> Seq<u32>
    decreases rules.len(),
{
    if rules.len() == 0 {
        Seq::empty()
    } else {
        cut_points_raw(rules.drop_last(), d).push(spec_lo(rules.last(), d)).push(past(spec_hi(rules.last(), d)))
    }
}

/// A sorted sequence with repeats removed.
pub open spec fn dedup_sorted(s: Seq<u32>) -> Seq<u32>
    decreases s.len(),
{
    if s.len() == 0 {
        s
    } else {
        let t = dedup_sorted(s.drop_last());
        if t.len() > 0 && t.last() == s.last() { t } else { t.push(s.last()) }
    }
}

/// The distinct candidate cut points of `d` in ascending order.
pub open spec fn cut_points(rules: Seq<Rule>, d: Dimension) -> Seq<u32> {
    dedup_sorted(cut_points_raw(rules, d).sort_by(u32_le()))
}

/// The rules reaching below `v` in `d`, in order.
pub open spec fn left_of(rules: Seq<Rule>, d: Dimension, v: u32) -> Seq<Rule> {
    rules.filter(|r: Rule| spec_lo(r, d) < v)
}

/// The rules reaching `v` or above in `d`, in order.
pub open spec fn right_of(rules: Seq<Rule>, d: Dimension, v: u32) -> Seq<Rule> {
    rules.filter(|r: Rule| spec_hi(r, d) >= v)
}

/// A cut at `v` in `d` puts some rule on each side and does not copy every rule to both.
pub open spec fn usable_cut(rules: Seq<Rule>, d: Dimension, v: u32) -> bool {
    let l = count_left(rules, d, v);
    let r = count_right(rules, d, v);
    &&& l > 0 && r > 0
    &&& !(l == rules.len() && r == rules.len())
}

/// Rules on the two sides of a cut, a straddling rule counted twice.
pub open spec fn split_cost(rules: Seq<Rule>, d: Dimension, v: u32) -> nat {
    count_left(rules, d, v) + count_right(rules, d, v)
}

/// `split_cost` of a chosen cut.
pub open spec fn cut_cost(rules: Seq<Rule>, c: (Dimension, u32)) -> nat {
    split_cost(rules, c.0, c.1)
}

/// The median candidate of `d`: the point at index `len / 2` of the distinct
/// sorted cut points, when that index is not 0.
pub open spec fn median_cut(rules: Seq<Rule>, d: Dimension) -> Option<u32> {
    let pts = cut_points(rules, d);
    if pts.len() / 2 > 0 { Some(pts[(pts.len() / 2) as int]) } else { None }
}

/// The dimensions CutSplit cuts on, in order of preference.
pub open spec fn cut_dim(k: int) -> Dimension {
    if k == 0 {
        Dimension::SrcIp
    } else if k == 1 {
        Dimension::DstIp
    } else if k == 2 {
        Dimension::SrcPort
    } else {
        Dimension::DstPort
    }
}

/// The usable median cut of `cut_dim(k)`, if there is one.
pub open spec fn median_candidate(rules: Seq<Rule>, k: int) -> Option<u32> {
    match median_cut(rules, cut_dim(k)) {
        Some(v) => if usable_cut(rules, cut_dim(k), v) { Some(v) } else { None },
        None => None,
    }
}

/// The best of the first `k` dimensions' usable median cuts: least
/// `split_cost`, the earlier dimension winning ties.
pub open spec fn best_cut_upto(rules: Seq<Rule>, k: int) -> Option<(Dimension, u32)>
    decreases k,
{
    if k <= 0 {
        None
    } else {
        let prev = best_cut_upto(rules, k - 1);
        match median_candidate(rules, k - 1) {
            Some(v) => if prev is None || split_cost(rules, cut_dim(k - 1), v) < cut_cost(rules, prev->0) {
                Some((cut_dim(k - 1), v))
            } else {
                prev
            },
            None => prev,
        }
    }
}

/// The least-cost choice among the first `k` dimensions: `None` exactly when
/// none has a usable median cut; otherwise a dimension's usable median cut of
/// least cost, strictly cheaper than every earlier one.
pub proof fn lemma_best_cut_upto(rules: Seq<Rule>, k: int)
    requires
        0 <= k <= 4,
    ensures
        best_cut_upto(rules, k) is None <==> forall|i: int| 0 <= i < k ==> #[trigger] median_candidate(rules, i) is None,
        best_cut_upto(rules, k) matches Some((d, v)) ==> exists|i: int|
            0 <= i < k && d == cut_dim(i) && #[trigger] median_candidate(rules, i) == Some(v) && forall|j: int|
                0 <= j < k && #[trigger] median_candidate(rules, j) is Some ==> split_cost(rules, d, v) <= split_cost(rules, cut_dim(j), median_candidate(rules, j)->0)
                    && (j < i ==> split_cost(rules, d, v) < split_cost(rules, cut_dim(j), median_candidate(rules, j)->0)),
    decreases k,
{
    if k > 0 {
        lemma_best_cut_upto(rules, k - 1);
    }
}

/// `n` is the tree `b` builds for `rules` at `depth`: a leaf of the rules
/// themselves at the size or depth limit or where no usable median cut
/// exists; otherwise a cut at `best_cut_upto(rules, 4)` whose subtrees are
/// built, one level deeper, for the rules reaching each side.
pub open spec fn built(b: Builder, rules: Seq<Rule>, depth: int, n: Node) -> bool
    decreases n,
{
    if rules.len() <= b.leaf_threshold || depth >= b.max_depth || best_cut_upto(rules, 4) is None {
        n is Leaf && n->Leaf_rules@ == rules
    } else {
        let c = best_cut_upto(rules, 4)->0;
        match n {
            Node::Internal { dimension, cut_val, left, right } => {
                &&& dimension == c.0
                &&& cut_val == c.1
                &&& built(b, left_of(rules, c.0, c.1), depth + 1, *left)
                &&& built(b, right_of(rules, c.0, c.1), depth + 1, *right)
            },
            Node::Leaf { .. } => false,
        }
    }
}

/// Builder for the CutSplit decision tree.
#[derive(Clone, Copy)]
pub struct Builder {
    /// A node with at most this many rules becomes a leaf.
    pub leaf_threshold: usize,
    /// Nodes at this depth become leaves.
    pub max_depth: usize,
}

/// Splits `rules` at `val` in dimension `d`: the left list keeps the rules
/// reaching below `val`, the right list those reaching `val` or above; a rule
/// that straddles the cut goes to both. Order is kept, so a packet on either
/// side finds the same first match in its list as in `rules`.
pub fn partition_rules(rules: &[Rule], d: Dimension, val: u32) -> (res: (Vec<Rule>, Vec<Rule>))
    ensures
        res.0@ == left_of(rules@, d, val),
        res.1@ == right_of(rules@, d, val),
        res.0@.len() == count_left(rules@, d, val),
        res.1@.len() == count_right(rules@, d, val),
        forall|i: int| 0 <= i < res.0@.len() ==> spec_lo(#[trigger] res.0@[i], d) < val,
        forall|i: int| 0 <= i < res.1@.len() ==> spec_hi(#[trigger] res.1@[i], d) >= val,
        forall|p: FiveTuple| spec_field(p, d) < val ==> #[trigger] first_match(res.0@, p) == first_match(rules@, p),
        forall|p: FiveTuple| spec_field(p, d) >= val ==> #[trigger] first_match(res.1@, p) == first_match(rules@, p),
{
    let mut left: Vec<Rule> = Vec::new();
    let mut right: Vec<Rule> = Vec::new();
    let mut i: usize = 0;
    while i < rules.len()
        invariant
            i <= rules@.len(),
            left@ == left_of(rules@.take(i as int), d, val),
            right@ == right_of(rules@.take(i as int), d, val),
            left@.len() == count_left(rules@.take(i as int), d, val),
            right@.len() == count_right(rules@.take(i as int), d, val),
            forall|k: int| 0 <= k < left@.len() ==> spec_lo(#[trigger] left@[k], d) < val,
            forall|k: int| 0 <= k < right@.len() ==> spec_hi(#[trigger] right@[k], d) >= val,
            forall|p: FiveTuple| spec_field(p, d) < val ==> #[trigger] first_match(left@, p) == first_match(rules@.take(i as int), p),
            forall|p: FiveTuple| spec_field(p, d) >= val ==> #[trigger] first_match(right@, p) == first_match(rules@.take(i as int), p),
        decreases rules.len() - i,
    {
        let rule = rules[i];
        let range = d.range_of(&rule);
        let ghost old_left = left@;
        let ghost old_right = right@;
        let ghost pre = rules@.take(i as int);
        if range.min < val {
            left.push(rule);
        }
        if range.max >= val {
            right.push(rule);
        }
        assert(rules@.take(i + 1) =~= pre.push(rule));
        assert(rules@.take(i + 1).drop_last() =~= pre);
        proof {
            reveal(Seq::filter);
            assert(rules@.take(i + 1).last() == rule);
        }
        assert forall|p: FiveTuple| spec_field(p, d) < val implies #[trigger] first_match(left@, p) == first_match(rules@.take(i + 1), p) by {
            lemma_first_match_push(pre, rule, p);
            if range.min < val {
                lemma_first_match_push(old_left, rule, p);
            }
        }
        assert forall|p: FiveTuple| spec_field(p, d) >= val implies #[trigger] first_match(right@, p) == first_match(rules@.take(i + 1), p) by {
            lemma_first_match_push(pre, rule, p);
            if range.max >= val {
                lemma_first_match_push(old_right, rule, p);
            }
        }
        i = i + 1;
    }
    assert(rules@.take(i as int) =~= rules@);
    (left, right)
}

/// Counts the rules on each side of a cut at `val` in dimension `d`, a
/// straddling rule on both.
pub fn count_split(rules: &[Rule], d: Dimension, val: u32) -> (res: (usize, usize))
    ensures
        res.0 == count_left(rules@, d, val),
        res.1 == count_right(rules@, d, val),
        res.0 <= rules@.len(),
        res.1 <= rules@.len(),
{
    let mut l: usize = 0;
    let mut r: usize = 0;
    let mut i: usize = 0;
    while i < rules.len()
        invariant
            i <= rules@.len(),
            l == count_left(rules@.take(i as int), d, val),
            r == count_right(rules@.take(i as int), d, val),
            l <= i,
            r <= i,
        decreases rules.len() - i,
    {
        let range = d.range_of(&rules[i]);
        assert(rules@.take(i + 1).drop_last() =~= rules@.take(i as int));
        if range.min < val {
            l = l + 1;
        }
        if range.max >= val {
            r = r + 1;
        }
        i = i + 1;
    }
    assert(rules@.take(i as int) =~= rules@);
    (l, r)
}

/// The value just past `h`, saturating at `u32::MAX`.
pub open spec fn past(h: u32) -> u32 {
    if h == u32::MAX { u32::MAX } else { (h + 1) as u32 }
}

/// `v` is the lower bound of some rule in `d`, or the value just past its upper bound.
pub open spec fn is_endpoint(rules: Seq<Rule>, d: Dimension, v: u32) -> bool {
    exists|j: int| 0 <= j < rules.len() && (spec_lo(#[trigger] rules[j], d) == v || past(spec_hi(rules[j], d)) == v)
}

/// The candidate cut points of dimension `d`: each rule's lower bound and the
/// value just past its upper bound (saturating), sorted, without repeats.
pub fn endpoints(rules: &[Rule], d: Dimension) -> (points: Vec<u32>)
    ensures
        points@ == cut_points(rules@, d),
        forall|i: int, j: int| 0 <= i < j < points@.len() ==> points@[i] < points@[j],
        forall|i: int| 0 <= i < points@.len() ==> is_endpoint(rules@, d, #[trigger] points@[i]),
        forall|j: int| 0 <= j < rules@.len() ==> points@.contains(spec_lo(#[trigger] rules@[j], d)) && points@.contains(past(spec_hi(rules@[j], d))),
{
    let mut raw: Vec<u32> = Vec::new();
    let mut i: usize = 0;
    while i < rules.len()
        invariant
            i <= rules@.len(),
            raw@.len() == 2 * i,
            raw@ == cut_points_raw(rules@.take(i as int), d),
            forall|j: int| 0 <= j < i ==> raw@[2 * j] == spec_lo(#[trigger] rules@[j], d) && raw@[2 * j + 1] == past(spec_hi(rules@[j], d)),
            forall|a: int| 0 <= a < raw@.len() ==> is_endpoint(rules@, d, #[trigger] raw@[a]),
        decreases rules.len() - i,
    {
        let range = d.range_of(&rules[i]);
        let ghost before = raw@;
        raw.push(range.min);
        raw.push(range.max.saturating_add(1));
        proof {
            assert(rules@.take(i + 1).drop_last() =~= rules@.take(i as int));
            assert(rules@.take(i + 1).last() == rules@[i as int]);
            assert(is_endpoint(rules@, d, raw@[2 * i as int]));
            assert(is_endpoint(rules@, d, raw@[2 * i + 1]));
            assert forall|a: int| 0 <= a < raw@.len() implies is_endpoint(rules@, d, #[trigger] raw@[a]) by {
                if a < before.len() {
                    assert(raw@[a] == before[a]);
                }
            }
        }
        i = i + 1;
    }
    let ghost unsorted = raw@;
    assert(rules@.take(i as int) =~= rules@);
    sort_values(&mut raw);
    proof {
        lemma_sorted_values(raw@, unsorted);
        assert forall|x: u32| raw@.contains(x) <==> unsorted.contains(x) by {
            to_multiset_contains(raw@, x);
            to_multiset_contains(unsorted, x);
        }
    }
    let mut points: Vec<u32> = Vec::new();
    let mut k: usize = 0;
    while k < raw.len()
        invariant
            k <= raw@.len(),
            forall|x: u32| raw@.contains(x) <==> unsorted.contains(x),
            forall|a: int| 0 <= a < unsorted.len() ==> is_endpoint(rules@, d, #[trigger] unsorted[a]),
            forall|a: int, b: int| 0 <= a <= b < raw@.len() ==> raw@[a] <= raw@[b],
            forall|a: int, b: int| 0 <= a < b < points@.len() ==> points@[a] < points@[b],
            points@.len() > 0 ==> k > 0 && points@.last() == raw@[k - 1],
            points@.len() == 0 ==> k == 0,
            forall|a: int| 0 <= a < k ==> points@.contains(#[trigger] raw@[a]),
            forall|i2: int| 0 <= i2 < points@.len() ==> raw@.contains(#[trigger] points@[i2]),
            points@ == dedup_sorted(raw@.take(k as int)),
        decreases raw.len() - k,
    {
        let v = raw[k];
        assert(raw@.take(k + 1).drop_last() =~= raw@.take(k as int));
        assert(raw@.take(k + 1).last() == v);
        let ghost before = points@;
        if points.len() == 0 || points[points.len() - 1] != v {
            points.push(v);
            proof {
                assert(points@[points@.len() - 1] == v);
                assert forall|a: int| 0 <= a < k + 1 implies points@.contains(#[trigger] raw@[a]) by {
                    if a < k {
                        let w = choose|w: int| 0 <= w < before.len() && before[w] == raw@[a];
                        assert(points@[w] == before[w]);
                    }
                }
                assert forall|i2: int| 0 <= i2 < points@.len() implies raw@.contains(#[trigger] points@[i2]) by {
                    if i2 < before.len() {
                        assert(points@[i2] == before[i2]);
                    } else {
                        assert(raw@[k as int] == v);
                    }
                }
            }
        } else {
            proof {
                assert(points@[points@.len() - 1] == v);
            }
        }
        k = k + 1;
    }
    proof {
        assert(raw@.take(k as int) =~= raw@);
        assert forall|i2: int| 0 <= i2 < points@.len() implies is_endpoint(rules@, d, #[trigger] points@[i2]) by {
            assert(raw@.contains(points@[i2]));
            assert(unsorted.contains(points@[i2]));
            let a = choose|a: int| 0 <= a < unsorted.len() && unsorted[a] == points@[i2];
            assert(is_endpoint(rules@, d, unsorted[a]));
        }
        assert forall|j: int| 0 <= j < rules@.len() implies points@.contains(spec_lo(#[trigger] rules@[j], d)) && points@.contains(past(spec_hi(rules@[j], d))) by {
            assert(unsorted[2 * j] == spec_lo(rules@[j], d));
            assert(unsorted[2 * j + 1] == past(spec_hi(rules@[j], d)));
            assert(unsorted.contains(unsorted[2 * j]));
            assert(unsorted.contains(unsorted[2 * j + 1]));
            let a = choose|a: int| 0 <= a < raw@.len() && raw@[a] == unsorted[2 * j];
            let b = choose|b: int| 0 <= b < raw@.len() && raw@[b] == unsorted[2 * j + 1];
            assert(points@.contains(raw@[a]));
            assert(points@.contains(raw@[b]));
        }
    }
    points
}

impl Builder {
    /// Creates a builder with the given thresholds.
    pub fn new(leaf_threshold: usize, max_depth: usize) -> (b: Self)
        ensures
            b.leaf_threshold == leaf_threshold,
            b.max_depth == max_depth,
    {
        Self { leaf_threshold, max_depth }
    }

    /// Builds a decision tree for `rules`. A descent from the root answers
    /// every packet as the first matching rule of `rules` in list order does.
    pub fn build(&self, rules: &[Rule]) -> (n: Node)
        ensures
            built(*self, rules@, 0, n),
            forall|p: FiveTuple| #[trigger] n.spec_classify(p) == action_of(first_match(rules@, p)),
            rules@.len() <= self.leaf_threshold ==> n is Leaf && n->Leaf_rules@ == rules@,
    {
        self.build_recursive(rules, 0)
    }

    fn build_recursive(&self, rules: &[Rule], depth: usize) -> (n: Node)
        ensures
            built(*self, rules@, depth as int, n),
            forall|p: FiveTuple| #[trigger] n.spec_classify(p) == action_of(first_match(rules@, p)),
            rules@.len() <= self.leaf_threshold || depth >= self.max_depth ==> n is Leaf && n->Leaf_rules@ == rules@,
        decreases self.max_depth - depth,
    {
        if rules.len() <= self.leaf_threshold || depth >= self.max_depth {
            return Node::Leaf { rules: vstd::slice::slice_to_vec(rules) };
        }
        match self.find_best_cut(rules) {
            Some((dim, val)) => {
                let (left_rules, right_rules) = partition_rules(rules, dim, val);
                let left = self.build_recursive(left_rules.as_slice(), depth + 1);
                let right = self.build_recursive(right_rules.as_slice(), depth + 1);
                let n = Node::Internal { dimension: dim, cut_val: val, left: Box::new(left), right: Box::new(right) };
                assert forall|p: FiveTuple| #[trigger] n.spec_classify(p) == action_of(first_match(rules@, p)) by {
                    if spec_field(p, dim) < val {
                        assert(n.spec_classify(p) == left.spec_classify(p));
                    } else {
                        assert(n.spec_classify(p) == right.spec_classify(p));
                    }
                }
                n
            },
            None => Node::Leaf { rules: vstd::slice::slice_to_vec(rules) },
        }
    }

    /// Picks the dimension (source or destination address or port) whose
    /// median endpoint cuts the rules with the least duplication: the cut
    /// that minimises `L + R`, the first dimension winning ties. Cuts that
    /// leave a side empty, or copy every rule to both sides, are skipped;
    /// the protocol is never cut.
    fn find_best_cut(&self, rules: &[Rule]) -> (res: Option<(Dimension, u32)>)
        ensures
            res == best_cut_upto(rules@, 4),
            res is None <==> forall|i: int| 0 <= i < 4 ==> #[trigger] median_candidate(rules@, i) is None,
            res matches Some((d, v)) ==> exists|i: int|
                0 <= i < 4 && d == cut_dim(i) && #[trigger] median_candidate(rules@, i) == Some(v) && forall|j: int|
                    0 <= j < 4 && #[trigger] median_candidate(rules@, j) is Some ==> split_cost(rules@, d, v) <= split_cost(rules@, cut_dim(j), median_candidate(rules@, j)->0)
                        && (j < i ==> split_cost(rules@, d, v) < split_cost(rules@, cut_dim(j), median_candidate(rules@, j)->0)),
    {
        let mut best_sum: u128 = 0;
        let mut best_cut: Option<(Dimension, u32)> = None;
        let mut k: usize = 0;
        while k < 4
            invariant
                k <= 4,
                best_cut == best_cut_upto(rules@, k as int),
                best_cut is Some ==> best_sum == cut_cost(rules@, best_cut->0),
            decreases 4 - k,
        {
            let dim = cut_dimension(k);
            let points = endpoints(rules, dim);
            let mid_idx = points.len() / 2;
            if mid_idx > 0 && mid_idx < points.len() {
                let val = points[mid_idx];
                let (l, r) = count_split(rules, dim, val);
                if !(l == rules.len() && r == rules.len()) && l != 0 && r != 0 {
                    // The duplication factor (L + R) / |rules| is smallest
                    // where L + R is.
                    let sum = l as u128 + r as u128;
                    if best_cut.is_none() || sum < best_sum {
                        best_sum = sum;
                        best_cut = Some((dim, val));
                    }
                }
            }
            k = k + 1;
        }
        proof {
            lemma_best_cut_upto(rules@, 4);
        }
        best_cut
    }
}

/// The dimension `cut_dim(k)`.
fn cut_dimension(k: usize) -> (d: Dimension)
    ensures
        d == cut_dim(k as int),
{
    if k == 0 {
        Dimension::SrcIp
    } else if k == 1 {
        Dimension::DstIp
    } else if k == 2 {
        Dimension::SrcPort
    } else {
        Dimension::DstPort
    }
}

} // verus!
