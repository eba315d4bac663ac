use vstd::prelude::*;
use crate::cutsplit::tree::{Dimension, spec_field};
use crate::order::{action_of, first_match};
use crate::packet::FiveTuple;
use crate::rule::{Action, Rule};

verus! {

/// The child a value `v` falls into: `(v - start) / step`, the last child
/// taking the remainder.
pub open spec fn spec_child_index(v: u32, start: u32, step: u32, num_cuts: u32) -> int {
    let raw = (v - start) as int / step as int;
    if raw >= num_cuts { num_cuts - 1 } else { raw }
}

/// A node of the HiCuts decision tree.
#[derive(Debug)]
pub enum Node {
    /// `num_cuts` children over equal strides of `step` from `start`.
    Internal { dimension: Dimension, start: u32, step: u32, num_cuts: u32, children: Vec<Box<Node>> },
    /// Rules checked in order.
    Leaf { rules: Vec<Rule> },
}

impl Node {
    /// What a descent from this node answers for `p`; a value outside the
    /// node's strides, which a built tree never sees, answers `None`.
    pub open spec fn spec_classify(&self, p: FiveTuple) -> Option<Action>
        decreases self,
    {
        match self {
            Node::Internal { dimension, start, step, num_cuts, children } => {
                let v = spec_field(p, *dimension);
                if v < *start || *step == 0 || *num_cuts == 0 {
                    None
                } else {
                    let idx = spec_child_index(v, *start, *step, *num_cuts);
                    if 0 <= idx < children@.len() {
                        children@[idx].spec_classify(p)
                    } else {
                        None
                    }
                }
            },
            Node::Leaf { rules } => action_of(first_match(rules@, p)),
        }
    }
}

} // verus!
