use vstd::prelude::*;
use crate::cutsplit::builder::{count_left, count_right, count_split, cut_points, endpoints, left_of, partition_rules, right_of, usable_cut};
use crate::cutsplit::tree::{Dimension, spec_field};
use crate::hypersplit::tree::Node;
use crate::order::{action_of, first_match};
use crate::packet::FiveTuple;
use crate::rule::Rule;

verus! {

/// The dimensions HyperSplit tries, in order.
pub open spec fn split_dim(k: int) -> Dimension {
    if k == 0 {
        Dimension::SrcIp
    } else if k == 1 {
        Dimension::DstIp
    } else if k == 2 {
        Dimension::SrcPort
    } else if k == 3 {
        Dimension::DstPort
    } else {
        Dimension::Proto
    }
}

/// The sampling stride for `n` candidates: `ceil(n / 16)`, at least 1.
pub open spec fn sample_stride(n: int) -> int {
    if n <= 16 { 1 } else { n / 16 + (if n % 16 == 0 { 0int } else { 1int }) }
}

/// How many candidates a stride of `step` samples out of `n`: `ceil(n / step)`.
pub open spec fn sample_count(n: int, step: int) -> int {
    (n + step - 1) / step
}

/// Cost of a pivot: `max(L, R) + 0.1 * (L + R)`, scaled by ten.
pub open spec fn pivot_cost(rules: Seq<Rule>, c: (Dimension, u32)) -> int {
    let l = count_left(rules, c.0, c.1) as int;
    let r = count_right(rules, c.0, c.1) as int;
    10 * (if l > r { l } else { r }) + l + r
}

/// A pivot is non-zero and a usable cut.
pub open spec fn usable_pivot(rules: Seq<Rule>, d: Dimension, v: u32) -> bool {
    v != 0 && usable_cut(rules, d, v)
}

/// The best pivot after `prev` and the first `j` sampled candidates of `d`
/// (indices `0, step, 2 * step, ...` of its distinct sorted cut points): the
/// least cost, the earlier candidate winning ties.
pub open spec fn best_in_dim(rules: Seq<Rule>, d: Dimension, prev: Option<(Dimension, u32)>, j: int) -> Option<(Dimension, u32)>
    decreases j,
{
    if j <= 0 {
        prev
    } else {
        let b = best_in_dim(rules, d, prev, j - 1);
        let pts = cut_points(rules, d);
        let v = pts[(j - 1) * sample_stride(pts.len() as int)];
        if usable_pivot(rules, d, v) && (b is None || pivot_cost(rules, (d, v)) < pivot_cost(rules, b->0)) {
            Some((d, v))
        } else {
            b
        }
    }
}

/// The best pivot over the sampled candidates of the first `k` dimensions.
pub open spec fn best_split_upto(rules: Seq<Rule>, k: int) -> Option<(Dimension, u32)>
    decreases k,
{
    if k <= 0 {
        None
    } else {
        let d = split_dim(k - 1);
        let n = cut_points(rules, d).len() as int;
        best_in_dim(rules, d, best_split_upto(rules, k - 1), sample_count(n, sample_stride(n)))
    }
}

/// Sample `j` of dimension `split_dim(k)`: the cut point at index
/// `j * sample_stride`.
pub open spec fn sampled(rules: Seq<Rule>, k: int, j: int) -> u32 {
    let pts = cut_points(rules, split_dim(k));
    pts[j * sample_stride(pts.len() as int)]
}

/// Sample `j` of dimension `split_dim(k)` exists and is a usable pivot.
pub open spec fn usable_sample(rules: Seq<Rule>, k: int, j: int) -> bool {
    let n = cut_points(rules, split_dim(k)).len() as int;
    0 <= j < sample_count(n, sample_stride(n)) && usable_pivot(rules, split_dim(k), sampled(rules, k, j))
}

proof fn lemma_best_in_dim(rules: Seq<Rule>, k: int, prev: Option<(Dimension, u32)>, j: int)
    requires
        0 <= j <= sample_count(cut_points(rules, split_dim(k)).len() as int, sample_stride(cut_points(rules, split_dim(k)).len() as int)),
    ensures
        ({
            let r = best_in_dim(rules, split_dim(k), prev, j);
            &&& r is None <==> prev is None && forall|j2: int| 0 <= j2 < j ==> !#[trigger] usable_sample(rules, k, j2)
            &&& r is Some ==> r == prev || exists|j2: int| 0 <= j2 < j && #[trigger] usable_sample(rules, k, j2) && r == Some((split_dim(k), sampled(rules, k, j2)))
            &&& (r is Some && prev is Some) ==> pivot_cost(rules, r->0) <= pivot_cost(rules, prev->0)
            &&& forall|j2: int| 0 <= j2 < j && #[trigger] usable_sample(rules, k, j2) ==> r is Some && pivot_cost(rules, r->0) <= pivot_cost(rules, (split_dim(k), sampled(rules, k, j2)))
        }),
    decreases j,
{
    if j > 0 {
        lemma_best_in_dim(rules, k, prev, j - 1);
        let b = best_in_dim(rules, split_dim(k), prev, j - 1);
        let r = best_in_dim(rules, split_dim(k), prev, j);
        if r != b {
            assert(usable_sample(rules, k, j - 1));
        }
        if b is Some && r is None {
            assert(false);
        }
    }
}

/// Least cost: no pivot exactly when no sampled candidate of any dimension is
/// usable; otherwise a usable sampled candidate whose cost is no larger than
/// that of any other usable sampled candidate.
pub proof fn lemma_best_split_least(rules: Seq<Rule>, k: int)
    requires
        0 <= k <= 5,
    ensures
        best_split_upto(rules, k) is None <==> forall|k2: int, j2: int| 0 <= k2 < k ==> !#[trigger] usable_sample(rules, k2, j2),
        best_split_upto(rules, k) is Some ==> exists|k2: int, j2: int|
            0 <= k2 < k && #[trigger] usable_sample(rules, k2, j2) && best_split_upto(rules, k) == Some((split_dim(k2), sampled(rules, k2, j2))),
        forall|k2: int, j2: int| 0 <= k2 < k && #[trigger] usable_sample(rules, k2, j2) ==> best_split_upto(rules, k) is Some
            && pivot_cost(rules, best_split_upto(rules, k)->0) <= pivot_cost(rules, (split_dim(k2), sampled(rules, k2, j2))),
    decreases k,
{
    if k > 0 {
        lemma_best_split_least(rules, k - 1);
        let n = cut_points(rules, split_dim(k - 1)).len() as int;
        let cnt = sample_count(n, sample_stride(n));
        assert(cnt >= 0) by (nonlinear_arith)
            requires cnt == sample_count(n, sample_stride(n)), n >= 0, sample_stride(n) >= 1;
        lemma_best_in_dim(rules, k - 1, best_split_upto(rules, k - 1), cnt);
        let prev = best_split_upto(rules, k - 1);
        let r = best_split_upto(rules, k);
        assert forall|k2: int, j2: int| 0 <= k2 < k && #[trigger] usable_sample(rules, k2, j2) implies r is Some
            && pivot_cost(rules, r->0) <= pivot_cost(rules, (split_dim(k2), sampled(rules, k2, j2))) by {
            if k2 < k - 1 {
                assert(prev is Some);
            }
        }
        if r is None {
            assert forall|k2: int, j2: int| 0 <= k2 < k implies !#[trigger] usable_sample(rules, k2, j2) by {
                if k2 == k - 1 && usable_sample(rules, k2, j2) {
                    assert(0 <= j2 < cnt);
                }
            }
        }
    }
}

proof fn lemma_samples(n: int, step: int, j: int)
    requires
        step >= 1,
        j * step < n <= (j + 1) * step,
        j >= 0,
    ensures
        sample_count(n, step) == j + 1,
{
    let q = j + 1;
    assert(q * step <= n + step - 1 < (q + 1) * step) by (nonlinear_arith)
        requires j * step < n, n <= (j + 1) * step, q == j + 1, step >= 1;
    vstd::arithmetic::div_mod::lemma_fundamental_div_mod_converse(n + step - 1, step, q, n + step - 1 - q * step);
}

/// `n` is the tree `b` builds for `rules` at `depth`: a leaf of the rules
/// themselves at the size or depth limit, where no usable pivot is sampled,
/// or where the pivot would copy every rule to both sides; otherwise a split
/// at `best_split_upto(rules, 5)` whose subtrees are built, one level
/// deeper, for the rules reaching each side.
pub open spec fn built(b: Builder, rules: Seq<Rule>, depth: int, n: Node) -> bool
    decreases n,
{
    if rules.len() <= b.leaf_threshold || depth >= b.max_depth || best_split_upto(rules, 5) is None {
        n is Leaf && n->Leaf_rules@ == rules
    } else {
        let c = best_split_upto(rules, 5)->0;
        if left_of(rules, c.0, c.1).len() == rules.len() && right_of(rules, c.0, c.1).len() == rules.len() {
            n is Leaf && n->Leaf_rules@ == rules
        } else {
            match n {
                Node::Internal { dimension, pivot, left, right } => {
                    &&& dimension == c.0
                    &&& pivot == c.1
                    &&& built(b, left_of(rules, c.0, c.1), depth + 1, *left)
                    &&& built(b, right_of(rules, c.0, c.1), depth + 1, *right)
                },
                Node::Leaf { .. } => false,
            }
        }
    }
}

/// Builder for the HyperSplit decision tree.
#[derive(Clone, Copy)]
pub struct Builder {
    /// A node with at most this many rules becomes a leaf.
    pub leaf_threshold: usize,
    /// Nodes at this depth become leaves.
    pub max_depth: usize,
}

impl Builder {
    /// Creates a builder with the given thresholds.
    pub fn new(leaf_threshold: usize, max_depth: usize) -> (b: Self)
        ensures
            b.leaf_threshold == leaf_threshold,
            b.max_depth == max_depth,
    {
        Self { leaf_threshold, max_depth }
    }

    /// Builds a decision tree for `rules`. A descent from the root answers
    /// every packet as the first matching rule of `rules` in list order does.
    pub fn build(&self, rules: &[Rule]) -> (n: Node)
        ensures
            built(*self, rules@, 0, n),
            forall|p: FiveTuple| #[trigger] n.spec_classify(p) == action_of(first_match(rules@, p)),
            rules@.len() <= self.leaf_threshold ==> n is Leaf && n->Leaf_rules@ == rules@,
    {
        self.build_recursive(rules, 0)
    }

    fn build_recursive(&self, rules: &[Rule], depth: usize) -> (n: Node)
        ensures
            built(*self, rules@, depth as int, n),
            forall|p: FiveTuple| #[trigger] n.spec_classify(p) == action_of(first_match(rules@, p)),
            rules@.len() <= self.leaf_threshold || depth >= self.max_depth ==> n is Leaf && n->Leaf_rules@ == rules@,
        decreases self.max_depth - depth,
    {
        if rules.len() <= self.leaf_threshold || depth >= self.max_depth {
            return Node::Leaf { rules: vstd::slice::slice_to_vec(rules) };
        }
        match self.find_best_split(rules) {
            Some((dim, pivot)) => {
                let (left_rules, right_rules) = partition_rules(rules, dim, pivot);
                if left_rules.len() == rules.len() && right_rules.len() == rules.len() {
                    return Node::Leaf { rules: vstd::slice::slice_to_vec(rules) };
                }
                let left = self.build_recursive(left_rules.as_slice(), depth + 1);
                let right = self.build_recursive(right_rules.as_slice(), depth + 1);
                let n = Node::Internal { dimension: dim, pivot, left: Box::new(left), right: Box::new(right) };
                assert forall|p: FiveTuple| #[trigger] n.spec_classify(p) == action_of(first_match(rules@, p)) by {
                    if spec_field(p, dim) < pivot {
                        assert(n.spec_classify(p) == left.spec_classify(p));
                    } else {
                        assert(n.spec_classify(p) == right.spec_classify(p));
                    }
                }
                n
            },
            None => Node::Leaf { rules: vstd::slice::slice_to_vec(rules) },
        }
    }

    /// Picks, over all five dimensions, the pivot of least cost
    /// `max(L, R) + 0.1 * (L + R)` (computed here scaled by ten), the first
    /// candidate winning ties. The candidates of a dimension are its distinct
    /// endpoints sampled at stride `ceil(count / 16)`; zero, and splits that
    /// leave a side empty or copy every rule to both sides, are skipped.
    fn find_best_split(&self, rules: &[Rule]) -> (res: Option<(Dimension, u32)>)
        ensures
            res == best_split_upto(rules@, 5),
            res is None <==> forall|k: int, j: int| 0 <= k < 5 ==> !#[trigger] usable_sample(rules@, k, j),
            res is Some ==> exists|k: int, j: int| 0 <= k < 5 && #[trigger] usable_sample(rules@, k, j) && res == Some((split_dim(k), sampled(rules@, k, j))),
            forall|k: int, j: int| 0 <= k < 5 && #[trigger] usable_sample(rules@, k, j) ==> res is Some
                && pivot_cost(rules@, res->0) <= pivot_cost(rules@, (split_dim(k), sampled(rules@, k, j))),
    {
        let mut best_score: u128 = 0;
        let mut best_split: Option<(Dimension, u32)> = None;
        let mut k: usize = 0;
        while k < 5
            invariant
                k <= 5,
                best_split == best_split_upto(rules@, k as int),
                best_split is Some ==> best_score == pivot_cost(rules@, best_split->0),
            decreases 5 - k,
        {
            let dim = split_dimension(k);
            let points = endpoints(rules, dim);
            let n = points.len();
            let step: usize = if n <= 16 { 1 } else { n / 16 + (if n % 16 == 0 { 0 } else { 1 }) };
            let ghost start = best_split;
            let ghost mut j: int = 0;
            let mut i: usize = 0;
            while i < n
                invariant
                    n == points@.len(),
                    points@ == cut_points(rules@, dim),
                    step == sample_stride(n as int),
                    step >= 1,
                    0 <= j,
                    i < n ==> i == j * step,
                    i == n ==> j == sample_count(n as int, step as int),
                    i <= n,
                    best_split == best_in_dim(rules@, dim, start, j),
                    best_split is Some ==> best_score == pivot_cost(rules@, best_split->0),
                decreases n - i,
            {
                let pivot = points[i];
                if pivot != 0 {
                    let (l, r) = count_split(rules, dim, pivot);
                    if l != 0 && r != 0 && !(l == rules.len() && r == rules.len()) {
                        let larger = if l > r { l } else { r };
                        let score = 10 * (larger as u128) + (l as u128 + r as u128);
                        if best_split.is_none() || score < best_score {
                            best_score = score;
                            best_split = Some((dim, pivot));
                        }
                    }
                }
                proof {
                    j = j + 1;
                    assert(j * step == (j - 1) * step + step) by (nonlinear_arith);
                    if n - i <= step {
                        lemma_samples(n as int, step as int, j - 1);
                    }
                }
                if n - i <= step {
                    i = n;
                } else {
                    i = i + step;
                }
            }
            proof {
                if n == 0 {
                    assert(sample_count(0, step as int) == 0) by (nonlinear_arith)
                        requires step >= 1;
                }
            }
            k = k + 1;
        }
        proof {
            lemma_best_split_least(rules@, 5);
        }
        best_split
    }
}

/// The dimension `split_dim(k)`.
fn split_dimension(k: usize) -> (d: Dimension)
    ensures
        d == split_dim(k as int),
{
    if k == 0 {
        Dimension::SrcIp
    } else if k == 1 {
        Dimension::DstIp
    } else if k == 2 {
        Dimension::SrcPort
    } else if k == 3 {
        Dimension::DstPort
    } else {
        Dimension::Proto
    }
}

} // verus!
