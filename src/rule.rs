use vstd::prelude::*;
use crate::packet::FiveTuple;

verus! {

/// Closed interval `[min, max]`; a single value has `min == max`, a wildcard
/// spans the whole domain, and `min > max` holds nothing.
#[derive(Debug, Clone, Copy, PartialEq, Eq)]
pub struct Range<T> {
    /// Smallest value held.
    pub min: T,
    /// Largest value held.
    pub max: T,
}

impl<T: Copy> Range<T> {
    /// The range `[min, max]`.
    pub fn new(min: T, max: T) -> (r: Self)
        ensures
            r.min == min,
            r.max == max,
    {
        Self { min, max }
    }

    /// The range holding `val` alone.
    pub fn exact(val: T) -> (r: Self)
        ensures
            r.min == val,
            r.max == val,
    {
        Self { min: val, max: val }
    }

    /// A wildcard spelled as its bounds; the same as `new`.
    pub fn any(min: T, max: T) -> (r: Self)
        ensures
            r.min == min,
            r.max == max,
    {
        Self { min, max }
    }
}

impl Range<u32> {
    /// Whether `val` lies in the range.
    pub fn contains(&self, val: u32) -> (r: bool)
        ensures
            r == (self.min <= val && val <= self.max),
    {
        val >= self.min && val <= self.max
    }
}

impl Range<u16> {
    /// Whether `val` lies in the range.
    pub fn contains(&self, val: u16) -> (r: bool)
        ensures
            r == (self.min <= val && val <= self.max),
    {
        val >= self.min && val <= self.max
    }
}

impl Range<u8> {
    /// Whether `val` lies in the range.
    pub fn contains(&self, val: u8) -> (r: bool)
        ensures
            r == (self.min <= val && val <= self.max),
    {
        val >= self.min && val <= self.max
    }
}

/// What a matching rule decides.
#[derive(Debug, Clone, Copy, PartialEq, Eq, Structural)]
pub enum Action {
    Permit,
    Deny,
}

/// A classification rule: five ranges, a priority (lower value wins) and an action.
#[derive(Debug, Clone, Copy)]
pub struct Rule {
    pub id: u32,
    /// Lower value means higher priority.
    pub priority: u32,
    pub src_ip: Range<u32>,
    pub dst_ip: Range<u32>,
    pub src_port: Range<u16>,
    pub dst_port: Range<u16>,
    pub proto: Range<u8>,
    pub action: Action,
}

impl Rule {
    /// All five ranges hold the corresponding field of `t`.
    pub open spec fn spec_matches(&self, t: FiveTuple) -> bool {
        &&& self.src_ip.min <= t.src_ip <= self.src_ip.max
        &&& self.dst_ip.min <= t.dst_ip <= self.dst_ip.max
        &&& self.src_port.min <= t.src_port <= self.src_port.max
        &&& self.dst_port.min <= t.dst_port <= self.dst_port.max
        &&& self.proto.min <= t.proto <= self.proto.max
    }

    /// Whether the rule matches the five-tuple.
    pub fn matches(&self, tuple: &FiveTuple) -> (r: bool)
        ensures
            r == self.spec_matches(*tuple),
    {
        self.src_ip.contains(tuple.src_ip) && self.dst_ip.contains(tuple.dst_ip)
            && self.src_port.contains(tuple.src_port) && self.dst_port.contains(tuple.dst_port)
            && self.proto.contains(tuple.proto)
    }

    /// A short description: id, priority and action.
    pub fn describe(&self) -> String {
        let a = match self.action {
            Action::Permit => "Permit",
            Action::Deny => "Deny",
        };
        describe_rule(self.id, self.priority, a)
    }
}

/// Relies on `format!` to print the three values as
/// `Rule(id=.., pri=.., action=..)`.
#[verifier::external_body]
fn describe_rule(id: u32, priority: u32, action: &str) -> String {
    format!("Rule(id={}, pri={}, action={})", id, priority, action)
}

} // verus!
