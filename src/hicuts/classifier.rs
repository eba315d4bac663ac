use vstd::prelude::*;
use crate::classifier::Classifier;
use crate::hicuts::builder::{Builder, built, full_region, in_region, lemma_bin_bounds, lemma_child_index, lemma_select_ok, select, bin_lo, bin_hi};
use crate::cutsplit::tree::{spec_field, spec_dim_max};
use crate::hicuts::tree::{Node, spec_child_index};
use crate::linear::scan_first_match;
use crate::order::{decide, sort_by_priority, sort_rules, action_of, first_match};
use crate::packet::FiveTuple;
use crate::rule::{Action, Rule};

verus! {

/// HiCuts classifier: rules sorted by priority, then a multiway tree of
/// equal-stride cuts.
pub struct HiCutsClassifier {
    root: Node,
    source: Ghost<Seq<Rule>>,
}

/// The builder a HiCuts classifier uses: leaf threshold 10, depth limit 20.
pub open spec fn hicuts_builder() -> Builder {
    Builder { leaf_threshold: 10, max_depth: 20, binth: 8, spfac: 4 }
}

impl Classifier for HiCutsClassifier {
    closed spec fn rule_set(&self) -> Seq<Rule> {
        self.source@
    }

    closed spec fn wf(&self) -> bool {
        &&& built(hicuts_builder(), sort_by_priority(self.source@), 0, full_region(), self.root)
        &&& forall|p: FiveTuple| #[trigger] self.root.spec_classify(p) == action_of(first_match(sort_by_priority(self.source@), p))
    }

    /// Builds the tree with a leaf threshold of 10 and a depth limit of 20.
    fn build(rules: &[Rule]) -> (c: Self) {
        let sorted = sort_rules(rules);
        let builder = Builder::new(10, 20);
        let root = builder.build(sorted.as_slice());
        HiCutsClassifier { root, source: Ghost(rules@) }
    }

    /// Descends into child `min((value - start) / step, num_cuts - 1)` at each
    /// node and scans the leaf.
    fn classify(&self, packet: &FiveTuple) -> (r: Option<Action>) {
        let mut current: &Node = &self.root;
        let ghost mut g_rules = sort_by_priority(self.source@);
        let ghost mut g_depth: int = 0;
        let ghost mut g_ranges = full_region();
        assert forall|i: int| 0 <= i < g_ranges.len() implies g_ranges[i].1 <= #[trigger] spec_field(*packet, g_ranges[i].0) <= g_ranges[i].2 by {
            assert(spec_field(*packet, g_ranges[i].0) <= spec_dim_max(g_ranges[i].0));
        }
        // Every node met on the way is one the builder made for a region that
        // holds the packet, so each cut below has a stride of at least one,
        // starts at or below the packet's value and has a child for its index.
        loop
            invariant
                self.wf(),
                current.spec_classify(*packet) == self.root.spec_classify(*packet),
                built(hicuts_builder(), g_rules, g_depth, g_ranges, *current),
                in_region(*packet, g_ranges),
            decreases current,
        {
            match current {
                Node::Internal { dimension, start, step, num_cuts, children } => {
                    let ghost sel = select(g_rules, g_ranges);
                    proof {
                        lemma_select_ok(g_rules, g_ranges, g_ranges.len() as int);
                        let (d, lo, hi) = g_ranges[sel.0];
                        assert(lo <= spec_field(*packet, d) <= hi);
                        lemma_bin_bounds(lo, hi, *num_cuts, *step, 0);
                        lemma_child_index(lo, hi, *num_cuts, *step, spec_field(*packet, d));
                    }
                    let val = dimension.value_of(packet);
                    let offset = val - *start;
                    let mut index = offset / *step;
                    if index >= *num_cuts {
                        index = *num_cuts - 1;
                    }
                    assert(index == spec_child_index(val, *start, *step, *num_cuts));
                    proof {
                        let (d, lo, hi) = g_ranges[sel.0];
                        let k = index as int;
                        lemma_bin_bounds(lo, hi, *num_cuts, *step, k);
                        let blo = bin_lo(lo, *step, k);
                        let bhi = bin_hi(lo, hi, *step, *num_cuts, k);
                        let nr = g_ranges.update(sel.0, (d, blo as u32, bhi as u32));
                        assert forall|m: int| 0 <= m < nr.len() implies nr[m].1 <= #[trigger] spec_field(*packet, nr[m].0) <= nr[m].2 by {
                            if m != sel.0 {
                                assert(nr[m] == g_ranges[m]);
                            }
                        }
                        g_rules = crate::hicuts::builder::overlapping(g_rules, d, blo, bhi);
                        g_depth = g_depth + 1;
                        g_ranges = nr;
                        assert(built(hicuts_builder(), g_rules, g_depth, g_ranges, *children@[k]));
                    }
                    current = &children[index as usize];
                },
                Node::Leaf { rules } => {
                    assert(current.spec_classify(*packet) == action_of(first_match(rules@, *packet)));
                    assert(self.root.spec_classify(*packet) == decide(self.rule_set(), *packet));
                    return scan_first_match(rules, packet);
                },
            }
        }
    }
}

} // verus!
