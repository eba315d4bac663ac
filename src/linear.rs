use vstd::prelude::*;
use crate::classifier::Classifier;
use crate::order::{action_of, first_match, sort_by_priority, sort_rules, lemma_first_match_at, lemma_first_match_none};
use crate::packet::FiveTuple;
use crate::rule::{Action, Rule};

verus! {

/// Scans rules sorted by priority; the first match wins. The reference
/// against which the other engines are held.
pub struct LinearClassifier {
    rules: Vec<Rule>,
    source: Ghost<Seq<Rule>>,
}

/// The action of the first rule of `rules` that matches `packet`.
pub fn scan_first_match(rules: &Vec<Rule>, packet: &FiveTuple) -> (r: Option<Action>)
    ensures
        r == action_of(first_match(rules@, *packet)),
{
    let mut i: usize = 0;
    while i < rules.len()
        invariant
            i <= rules@.len(),
            forall|j: int| 0 <= j < i ==> !#[trigger] rules@[j].spec_matches(*packet),
        decreases rules.len() - i,
    {
        if rules[i].matches(packet) {
            proof {
                lemma_first_match_at(rules@, *packet, i as int);
            }
            return Some(rules[i].action);
        }
        i = i + 1;
    }
    proof {
        lemma_first_match_none(rules@, *packet);
    }
    None
}

impl Classifier for LinearClassifier {
    closed spec fn rule_set(&self) -> Seq<Rule> {
        self.source@
    }

    closed spec fn wf(&self) -> bool {
        self.rules@ == sort_by_priority(self.source@)
    }

    fn build(rules: &[Rule]) -> (c: Self) {
        LinearClassifier { rules: sort_rules(rules), source: Ghost(rules@) }
    }

    fn classify(&self, packet: &FiveTuple) -> (r: Option<Action>) {
        scan_first_match(&self.rules, packet)
    }
}

} // verus!
