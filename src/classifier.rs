use vstd::prelude::*;
use crate::order::decide;
use crate::packet::FiveTuple;
use crate::rule::{Action, Rule};

verus! {

/// A packet classifier: built once from a rule set, then queried.
pub trait Classifier: Sized {
    /// The rules the classifier was built from, in the order given.
    spec fn rule_set(&self) -> Seq<Rule>;

    /// The built structure is consistent with `rule_set`.
    spec fn wf(&self) -> bool;

    /// Builds the classifier for `rules`.
    fn build(rules: &[Rule]) -> (c: Self)
        ensures
            c.wf(),
            c.rule_set() == rules@,
    ;

    /// The action of the rule of lowest priority value that matches `packet`,
    /// ties going to the rule given first; `None` when no rule matches.
    fn classify(&self, packet: &FiveTuple) -> (r: Option<Action>)
        requires
            self.wf(),
        ensures
            r == decide(self.rule_set(), *packet),
    ;
}

} // verus!
