use vstd::prelude::*;
use crate::classifier::Classifier;
use crate::cutsplit::builder::{Builder, built};
use crate::cutsplit::tree::Node;
use crate::linear::scan_first_match;
use crate::order::{decide, sort_by_priority, sort_rules, action_of, first_match};
use crate::packet::FiveTuple;
use crate::rule::{Action, Rule};

verus! {

/// CutSplit classifier: rules sorted by priority, then a binary decision tree
/// over them; a rule that straddles a cut is copied into both subtrees.
pub struct CutSplitClassifier {
    root: Node,
    source: Ghost<Seq<Rule>>,
}

impl Classifier for CutSplitClassifier {
    closed spec fn rule_set(&self) -> Seq<Rule> {
        self.source@
    }

    closed spec fn wf(&self) -> bool {
        &&& built(Builder { leaf_threshold: 10, max_depth: 20 }, sort_by_priority(self.source@), 0, self.root)
        &&& forall|p: FiveTuple| #[trigger] self.root.spec_classify(p) == action_of(first_match(sort_by_priority(self.source@), p))
    }

    /// Builds the tree with a leaf threshold of 10 and a depth limit of 20.
    fn build(rules: &[Rule]) -> (c: Self) {
        let sorted = sort_rules(rules);
        let builder = Builder::new(10, 20);
        let root = builder.build(sorted.as_slice());
        CutSplitClassifier { root, source: Ghost(rules@) }
    }

    /// Descends from the root, comparing with `<` at each cut, and scans the leaf.
    fn classify(&self, packet: &FiveTuple) -> (r: Option<Action>) {
        let mut current: &Node = &self.root;
        loop
            invariant
                self.wf(),
                current.spec_classify(*packet) == self.root.spec_classify(*packet),
            decreases current,
        {
            match current {
                Node::Internal { dimension, cut_val, left, right } => {
                    let val = dimension.value_of(packet);
                    if val < *cut_val {
                        current = left;
                    } else {
                        current = right;
                    }
                },
                Node::Leaf { rules } => {
                    assert(current.spec_classify(*packet) == action_of(first_match(rules@, *packet)));
                    assert(self.root.spec_classify(*packet) == decide(self.rule_set(), *packet));
                    return scan_first_match(rules, packet);
                },
            }
        }
    }
}

} // verus!
