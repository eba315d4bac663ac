use vstd::prelude::*;
use crate::classifier::Classifier;
use crate::order::{decide, lemma_first_match_sorted, lemma_strongest_index, strongest_index};
use crate::packet::FiveTuple;
use crate::partitionsort::tree::{Entry, IntervalTree, Node, dim_of, interval_built, numbered, spec_dim};
use crate::rule::{Action, Rule};

verus! {

/// Largest number of rules held by one node of the subtree.
pub open spec fn max_bucket(n: Option<Box<Node>>) -> nat
    decreases n,
{
    match n {
        None => 0,
        Some(b) => {
            let l = max_bucket(b.left);
            let r = max_bucket(b.right);
            let m = if l >= r { l } else { r };
            if b.rules@.len() >= m { b.rules@.len() } else { m }
        },
    }
}

/// Trees built for the same rules in the same dimension have the same
/// largest node list.
proof fn lemma_max_bucket_unique(rules: Seq<Entry>, i: usize, a: Node, b: Node)
    requires
        i < 5,
        interval_built(rules, spec_dim(i), a),
        interval_built(rules, spec_dim(i), b),
    ensures
        max_bucket(Some(Box::new(a))) == max_bucket(Some(Box::new(b))),
    decreases a,
{
    match (a.left, b.left) {
        (Some(x), Some(y)) => {
            let c = crate::partitionsort::tree::median_end(rules, spec_dim(i));
            lemma_max_bucket_unique(crate::partitionsort::tree::below(rules, spec_dim(i), c), i, *x, *y);
        },
        _ => {},
    }
    match (a.right, b.right) {
        (Some(x), Some(y)) => {
            let c = crate::partitionsort::tree::median_end(rules, spec_dim(i));
            lemma_max_bucket_unique(crate::partitionsort::tree::above(rules, spec_dim(i), c), i, *x, *y);
        },
        _ => {},
    }
}

/// How good dimension `i` is for `rules`: the largest node list of the
/// interval tree built for them in it (smaller is better).
pub open spec fn dim_score(rules: Seq<Rule>, i: usize) -> nat {
    max_bucket(Some(Box::new(choose|n: Node| #[trigger] interval_built(numbered(rules), spec_dim(i), n))))
}

/// The dimension among the first `k` with the least score, the lower one
/// winning ties; with the least score so far, from an unbounded start.
pub open spec fn best_dim_upto(rules: Seq<Rule>, k: int) -> (int, int)
    decreases k,
{
    if k <= 0 {
        (0, usize::MAX as int)
    } else {
        let prev = best_dim_upto(rules, k - 1);
        let sc = dim_score(rules, (k - 1) as usize) as int;
        if sc < prev.1 { (k - 1, sc) } else { prev }
    }
}

/// PartitionSort classifier: one interval tree, built from the rules as
/// given, in the dimension whose tree has the shortest largest node list.
pub struct PartitionSortClassifier {
    trees: Vec<IntervalTree>,
    source: Ghost<Seq<Rule>>,
}

impl PartitionSortClassifier {
    /// How good a dimension is: the largest node list of the tree it gives
    /// (smaller is better).
    fn evaluate_dimension(rules: &[Rule], dim: usize) -> (r: usize)
        requires
            dim < 5,
        ensures
            r == dim_score(rules@, dim),
    {
        let tree = IntervalTree::build(vstd::slice::slice_to_vec(rules), dim);
        let r = Self::get_max_bucket_size(&tree);
        proof {
            let n = *tree.root->0;
            assert(Some(Box::new(n)) == tree.root);
            assert(interval_built(numbered(rules@), spec_dim(dim), n));
            let n2 = choose|n2: Node| #[trigger] interval_built(numbered(rules@), spec_dim(dim), n2);
            lemma_max_bucket_unique(numbered(rules@), dim, n, n2);
        }
        r
    }

    /// The largest number of rules in one node of the tree.
    fn get_max_bucket_size(tree: &IntervalTree) -> (r: usize)
        ensures
            r == max_bucket(tree.root),
    {
        match &tree.root {
            Some(n) => Self::max_bucket_recursive(n),
            None => 0,
        }
    }

    fn max_bucket_recursive(node: &Node) -> (r: usize)
        ensures
            r == max_bucket(Some(Box::new(*node))),
        decreases node,
    {
        let my_size = node.rules.len();
        let left_max = match &node.left {
            Some(n) => Self::max_bucket_recursive(n),
            None => {
                assert(max_bucket(node.left) == 0);
                0
            },
        };
        let right_max = match &node.right {
            Some(n) => Self::max_bucket_recursive(n),
            None => {
                assert(max_bucket(node.right) == 0);
                0
            },
        };
        assert(left_max == max_bucket(node.left));
        assert(right_max == max_bucket(node.right));
        let m = if left_max >= right_max { left_max } else { right_max };
        if my_size >= m { my_size } else { m }
    }
}

impl Classifier for PartitionSortClassifier {
    closed spec fn rule_set(&self) -> Seq<Rule> {
        self.source@
    }

    closed spec fn wf(&self) -> bool {
        &&& (self.source@.len() == 0 <==> self.trees@.len() == 0)
        &&& self.trees@.len() <= 1
        &&& self.trees@.len() == 1 ==> {
            let t = self.trees@[0];
            &&& t.wf()
            &&& t.given@ == self.source@
            &&& t.field_idx == best_dim_upto(self.source@, 5).0
            &&& t.root is Some
            &&& interval_built(numbered(self.source@), spec_dim(t.field_idx), *t.root->0)
        }
    }

    /// Builds an interval tree in each of the five dimensions and keeps the
    /// one whose largest node list is shortest, the lower dimension winning
    /// ties. An empty rule set gets no tree.
    fn build(rules: &[Rule]) -> (c: Self) {
        if rules.len() == 0 {
            return PartitionSortClassifier { trees: Vec::new(), source: Ghost(rules@) };
        }
        let mut best_dim: usize = 0;
        let mut min_max_bucket: usize = usize::MAX;
        let mut dim: usize = 0;
        while dim < 5
            invariant
                best_dim < 5,
                dim <= 5,
                (best_dim as int, min_max_bucket as int) == best_dim_upto(rules@, dim as int),
            decreases 5 - dim,
        {
            let score = Self::evaluate_dimension(rules, dim);
            if score < min_max_bucket {
                min_max_bucket = score;
                best_dim = dim;
            }
            dim = dim + 1;
        }
        let best_tree = IntervalTree::build(vstd::slice::slice_to_vec(rules), best_dim);
        PartitionSortClassifier { trees: vec![best_tree], source: Ghost(rules@) }
    }

    /// Stabs the tree with the packet's value in the tree's dimension. The
    /// tree returns the matching rule of least priority value given first,
    /// which is the decision.
    fn classify(&self, packet: &FiveTuple) -> (r: Option<Action>) {
        proof {
            lemma_strongest_index(self.source@, *packet);
            lemma_first_match_sorted(self.source@, *packet);
        }
        if self.trees.len() == 0 {
            return None;
        }
        let tree = &self.trees[0];
        let val = dim_of(tree.field_idx).value_of(packet);
        let found = tree.classify_packet(packet, val);
        proof {
            let g = self.source@;
            let b = strongest_index(g, *packet);
            if found is Some {
                let x = found->0;
                let i = choose|i: int|
                    0 <= i < g.len() && #[trigger] g[i] == x && x.spec_matches(*packet) && forall|j: int|
                        0 <= j < g.len() && (#[trigger] g[j]).spec_matches(*packet) ==> x.priority < g[j].priority
                            || (x.priority == g[j].priority && i <= j);
                assert(b >= 0);
                assert(g[b].spec_matches(*packet));
                assert(g[i].spec_matches(*packet));
                assert(i == b);
            }
        }
        match found {
            Some(rule) => Some(rule.action),
            None => None,
        }
    }
}

impl PartitionSortClassifier {
    /// The field number of the kept tree: the dimension whose tree has the
    /// shortest largest node list, the lower one on ties (`best_dim_upto`);
    /// `None` for an empty rule set, which gets no tree.
    pub fn dimension(&self) -> (r: Option<usize>)
        requires
            self.wf(),
        ensures
            self.rule_set().len() == 0 ==> r is None,
            self.rule_set().len() > 0 ==> r == Some(best_dim_upto(self.rule_set(), 5).0 as usize),
    {
        if self.trees.len() == 0 {
            None
        } else {
            Some(self.trees[0].field_idx)
        }
    }
}

} // verus!
