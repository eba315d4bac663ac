use vstd::prelude::*;
use crate::cutsplit::tree::{Dimension, spec_field};
use crate::order::{action_of, first_match};
use crate::packet::FiveTuple;
use crate::rule::{Action, Rule};

verus! {

/// A node of the HyperSplit decision tree.
#[derive(Debug)]
pub enum Node {
    /// Values below `pivot` go left, the others right.
    Internal { dimension: Dimension, pivot: u32, left: Box<Node>, right: Box<Node> },
    /// Rules checked in order.
    Leaf { rules: Vec<Rule> },
}

impl Node {
    /// What a descent from this node answers for `p`.
    pub open spec fn spec_classify(&self, p: FiveTuple) -> Option<Action>
        decreases self,
    {
        match self {
            Node::Internal { dimension, pivot, left, right } => {
                if spec_field(p, *dimension) < *pivot {
                    left.spec_classify(p)
                } else {
                    right.spec_classify(p)
                }
            },
            Node::Leaf { rules } => action_of(first_match(rules@, p)),
        }
    }
}

} // verus!
