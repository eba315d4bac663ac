use vstd::prelude::*;
use crate::classifier::Classifier;
use crate::hypersplit::builder::{Builder, built};
use crate::hypersplit::tree::Node;
use crate::linear::scan_first_match;
use crate::order::{decide, sort_by_priority, sort_rules, action_of, first_match};
use crate::packet::FiveTuple;
use crate::rule::{Action, Rule};

verus! {

/// HyperSplit classifier: rules sorted by priority, then a binary tree whose
/// pivots balance cost against duplication.
pub struct HyperSplitClassifier {
    root: Node,
    source: Ghost<Seq<Rule>>,
}

impl Classifier for HyperSplitClassifier {
    closed spec fn rule_set(&self) -> Seq<Rule> {
        self.source@
    }

    closed spec fn wf(&self) -> bool {
        &&& built(Builder { leaf_threshold: 8, max_depth: 32 }, sort_by_priority(self.source@), 0, self.root)
        &&& forall|p: FiveTuple| #[trigger] self.root.spec_classify(p) == action_of(first_match(sort_by_priority(self.source@), p))
    }

    /// Builds the tree with a leaf threshold of 8 and a depth limit of 32.
    fn build(rules: &[Rule]) -> (c: Self) {
        let sorted = sort_rules(rules);
        let builder = Builder::new(8, 32);
        let root = builder.build(sorted.as_slice());
        HyperSplitClassifier { root, source: Ghost(rules@) }
    }

    /// Descends left on `value < pivot`, right otherwise, and scans the leaf.
    fn classify(&self, packet: &FiveTuple) -> (r: Option<Action>) {
        let mut current: &Node = &self.root;
        loop
            invariant
                self.wf(),
                current.spec_classify(*packet) == self.root.spec_classify(*packet),
            decreases current,
        {
            match current {
                Node::Internal { dimension, pivot, left, right } => {
                    let val = dimension.value_of(packet);
                    if val < *pivot {
                        current = left;
                    } else {
                        current = right;
                    }
                },
                Node::Leaf { rules } => {
                    assert(current.spec_classify(*packet) == action_of(first_match(rules@, *packet)));
                    assert(self.root.spec_classify(*packet) == decide(self.rule_set(), *packet));
                    return scan_first_match(rules, packet);
                },
            }
        }
    }
}

} // verus!
