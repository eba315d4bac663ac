use vstd::prelude::*;
use crate::order::{action_of, first_match};
use crate::packet::FiveTuple;
use crate::rule::{Action, Range, Rule};

verus! {

/// A field of the five-tuple that a tree may cut on.
#[derive(Debug, Clone, Copy, PartialEq, Eq, Structural)]
pub enum Dimension {
    SrcIp,
    DstIp,
    SrcPort,
    DstPort,
    Proto,
}

/// The packet's value in dimension `d`, widened to `u32`.
pub open spec fn spec_field(p: FiveTuple, d: Dimension) -> u32 {
    match d {
        Dimension::SrcIp => p.src_ip,
        Dimension::DstIp => p.dst_ip,
        Dimension::SrcPort => p.src_port as u32,
        Dimension::DstPort => p.dst_port as u32,
        Dimension::Proto => p.proto as u32,
    }
}

/// Lower bound of the rule's range in dimension `d`.
pub open spec fn spec_lo(r: Rule, d: Dimension) -> u32 {
    match d {
        Dimension::SrcIp => r.src_ip.min,
        Dimension::DstIp => r.dst_ip.min,
        Dimension::SrcPort => r.src_port.min as u32,
        Dimension::DstPort => r.dst_port.min as u32,
        Dimension::Proto => r.proto.min as u32,
    }
}

/// Upper bound of the rule's range in dimension `d`.
pub open spec fn spec_hi(r: Rule, d: Dimension) -> u32 {
    match d {
        Dimension::SrcIp => r.src_ip.max,
        Dimension::DstIp => r.dst_ip.max,
        Dimension::SrcPort => r.src_port.max as u32,
        Dimension::DstPort => r.dst_port.max as u32,
        Dimension::Proto => r.proto.max as u32,
    }
}

/// Largest value of dimension `d`.
pub open spec fn spec_dim_max(d: Dimension) -> u32 {
    match d {
        Dimension::SrcIp | Dimension::DstIp => u32::MAX,
        Dimension::SrcPort | Dimension::DstPort => 65535,
        Dimension::Proto => 255,
    }
}

impl Dimension {
    /// The packet's value in this dimension.
    pub fn value_of(self, p: &FiveTuple) -> (v: u32)
        ensures
            v == spec_field(*p, self),
            v <= spec_dim_max(self),
    {
        match self {
            Dimension::SrcIp => p.src_ip,
            Dimension::DstIp => p.dst_ip,
            Dimension::SrcPort => p.src_port as u32,
            Dimension::DstPort => p.dst_port as u32,
            Dimension::Proto => p.proto as u32,
        }
    }

    /// The rule's range in this dimension, widened to `u32`.
    pub fn range_of(self, rule: &Rule) -> (r: Range<u32>)
        ensures
            r.min == spec_lo(*rule, self),
            r.max == spec_hi(*rule, self),
    {
        match self {
            Dimension::SrcIp => rule.src_ip,
            Dimension::DstIp => rule.dst_ip,
            Dimension::SrcPort => Range::new(rule.src_port.min as u32, rule.src_port.max as u32),
            Dimension::DstPort => Range::new(rule.dst_port.min as u32, rule.dst_port.max as u32),
            Dimension::Proto => Range::new(rule.proto.min as u32, rule.proto.max as u32),
        }
    }
}

/// A node of the CutSplit decision tree.
#[derive(Debug)]
pub enum Node {
    /// Values below `cut_val` go left, the others right.
    Internal { dimension: Dimension, cut_val: u32, left: Box<Node>, right: Box<Node> },
    /// Rules checked in order.
    Leaf { rules: Vec<Rule> },
}

impl Node {
    /// What a descent from this node answers for `p`.
    pub open spec fn spec_classify(&self, p: FiveTuple) -> Option<Action>
        decreases self,
    {
        match self {
            Node::Internal { dimension, cut_val, left, right } => {
                if spec_field(p, *dimension) < *cut_val {
                    left.spec_classify(p)
                } else {
                    right.spec_classify(p)
                }
            },
            Node::Leaf { rules } => action_of(first_match(rules@, p)),
        }
    }

    /// Returns true if the node is a leaf.
    pub fn is_leaf(&self) -> (r: bool)
        ensures
            r == self is Leaf,
    {
        match self {
            Node::Leaf { .. } => true,
            _ => false,
        }
    }
}

} // verus!
