//! Priority order: the stable sort of a rule set by priority, the first match
//! in a rule list, and the decision that every classifier must return.
use vstd::prelude::*;
use crate::packet::FiveTuple;
use crate::rule::{Action, Rule};

verus! {

/// The first rule of `rules`, in list order, that matches `p`.
pub open spec fn first_match(rules: Seq<Rule>, p: FiveTuple) -> Option<Rule>
    decreases rules.len(),
{
    if rules.len() == 0 {
        None
    } else {
        let prev = first_match(rules.drop_last(), p);
        if prev is Some {
            prev
        } else if rules.last().spec_matches(p) {
            Some(rules.last())
        } else {
            None
        }
    }
}

/// The action of a matched rule, if any.
pub open spec fn action_of(m: Option<Rule>) -> Option<Action> {
    match m {
        Some(r) => Some(r.action),
        None => None,
    }
}

/// Where a rule of priority `prio` goes in `s` so that it lands after every
/// rule of priority at most `prio` at the end of `s`.
pub open spec fn insert_pos(s: Seq<Rule>, prio: u32) -> int
    decreases s.len(),
{
    if s.len() == 0 {
        0
    } else if s.last().priority > prio {
        insert_pos(s.drop_last(), prio)
    } else {
        s.len() as int
    }
}

/// The rules stably sorted by ascending priority value: ties keep their order
/// of insertion.
pub open spec fn sort_by_priority(rules: Seq<Rule>) -> Seq<Rule>
    decreases rules.len(),
{
    if rules.len() == 0 {
        Seq::empty()
    } else {
        let t = sort_by_priority(rules.drop_last());
        t.insert(insert_pos(t, rules.last().priority), rules.last())
    }
}

/// Priorities never decrease along `s`.
pub open spec fn priority_sorted(s: Seq<Rule>) -> bool {
    forall|i: int, j: int| 0 <= i <= j < s.len() ==> s[i].priority <= s[j].priority
}

/// What every classifier built from `rules` answers for `p`: the action of
/// the first rule that matches once the rules are stably sorted by priority.
pub open spec fn decide(rules: Seq<Rule>, p: FiveTuple) -> Option<Action> {
    action_of(first_match(sort_by_priority(rules), p))
}

/// The first match is the matching rule of smallest index.
pub proof fn lemma_first_match_at(s: Seq<Rule>, p: FiveTuple, i: int)
    requires
        0 <= i < s.len(),
        s[i].spec_matches(p),
        forall|j: int| 0 <= j < i ==> !#[trigger] s[j].spec_matches(p),
    ensures
        first_match(s, p) == Some(s[i]),
    decreases s.len(),
{
    if i < s.len() - 1 {
        lemma_first_match_at(s.drop_last(), p, i);
    } else {
        lemma_first_match_none(s.drop_last(), p);
    }
}

/// No rule matches: no first match.
pub proof fn lemma_first_match_none(s: Seq<Rule>, p: FiveTuple)
    requires
        forall|j: int| 0 <= j < s.len() ==> !#[trigger] s[j].spec_matches(p),
    ensures
        first_match(s, p) is None,
    decreases s.len(),
{
    if s.len() > 0 {
        lemma_first_match_none(s.drop_last(), p);
    }
}

/// A first match is a matching element with no matching element before it.
pub proof fn lemma_first_match_some(s: Seq<Rule>, p: FiveTuple)
    ensures
        first_match(s, p) is None <==> forall|j: int| 0 <= j < s.len() ==> !#[trigger] s[j].spec_matches(p),
        first_match(s, p) is Some ==> exists|i: int|
            #![trigger s[i]]
            0 <= i < s.len() && first_match(s, p) == Some(s[i]) && s[i].spec_matches(p) && forall|j: int|
                0 <= j < i ==> !#[trigger] s[j].spec_matches(p),
    decreases s.len(),
{
    if s.len() > 0 {
        let t = s.drop_last();
        lemma_first_match_some(t, p);
        if first_match(t, p) is Some {
            let i = choose|i: int|
                #![trigger t[i]]
                0 <= i < t.len() && first_match(t, p) == Some(t[i]) && t[i].spec_matches(p) && forall|j: int|
                    0 <= j < i ==> !#[trigger] t[j].spec_matches(p);
            assert(s[i] == t[i]);
            assert forall|j: int| 0 <= j < i implies !#[trigger] s[j].spec_matches(p) by {
                assert(s[j] == t[j]);
            }
        } else {
            assert forall|j: int| 0 <= j < s.len() - 1 implies !#[trigger] s[j].spec_matches(p) by {
                assert(s[j] == t[j]);
            }
            if s.last().spec_matches(p) {
                assert(s[s.len() - 1] == s.last());
            }
        }
    }
}

/// `insert_pos` splits a sorted list into the rules at most `prio` and those above.
pub proof fn lemma_insert_pos(s: Seq<Rule>, prio: u32)
    requires
        priority_sorted(s),
    ensures
        0 <= insert_pos(s, prio) <= s.len(),
        forall|i: int| 0 <= i < insert_pos(s, prio) ==> #[trigger] s[i].priority <= prio,
        forall|i: int| insert_pos(s, prio) <= i < s.len() ==> #[trigger] s[i].priority > prio,
    decreases s.len(),
{
    if s.len() > 0 {
        let t = s.drop_last();
        assert(priority_sorted(t));
        lemma_insert_pos(t, prio);
        if s.last().priority > prio {
            assert forall|i: int| insert_pos(s, prio) <= i < s.len() implies #[trigger] s[i].priority > prio by {
                if i < s.len() - 1 {
                    assert(s[i] == t[i]);
                }
            }
            assert forall|i: int| 0 <= i < insert_pos(s, prio) implies #[trigger] s[i].priority <= prio by {
                assert(s[i] == t[i]);
            }
        }
    }
}

/// The stable sort is sorted and holds the same rules, counted with multiplicity.
pub proof fn lemma_sort_by_priority(rules: Seq<Rule>)
    ensures
        sort_by_priority(rules).len() == rules.len(),
        priority_sorted(sort_by_priority(rules)),
        sort_by_priority(rules).to_multiset() == rules.to_multiset(),
    decreases rules.len(),
{
    if rules.len() > 0 {
        let r = rules.last();
        let t = sort_by_priority(rules.drop_last());
        lemma_sort_by_priority(rules.drop_last());
        lemma_insert_pos(t, r.priority);
        let k = insert_pos(t, r.priority);
        let u = t.insert(k, r);
        assert forall|i: int, j: int| 0 <= i <= j < u.len() implies u[i].priority <= u[j].priority by {
            if i < k && j > k {
                assert(u[i] == t[i] && u[j] == t[j - 1]);
            } else if i < k && j == k {
                assert(u[i] == t[i]);
            } else if i == k && j > k {
                assert(u[j] == t[j - 1]);
            } else if i < k {
                assert(u[i] == t[i] && u[j] == t[j]);
            } else if i > k {
                assert(u[i] == t[i - 1] && u[j] == t[j - 1]);
            }
        }
        vstd::seq_lib::to_multiset_insert(t, k, r);
        vstd::seq_lib::to_multiset_build(rules.drop_last(), r);
        assert(rules =~= rules.drop_last().push(r));
        assert(sort_by_priority(rules) == u);
        assert(u.to_multiset() == t.to_multiset().insert(r));
        assert(rules.to_multiset() == rules.drop_last().to_multiset().insert(r));
    } else {
        assert(rules =~= Seq::<Rule>::empty());
    }
}

/// Appending a rule changes the first match only when there was none.
pub proof fn lemma_first_match_push(s: Seq<Rule>, x: Rule, p: FiveTuple)
    ensures
        first_match(s.push(x), p) == (if first_match(s, p) is Some {
            first_match(s, p)
        } else if x.spec_matches(p) {
            Some(x)
        } else {
            None
        }),
{
    assert(s.push(x).drop_last() =~= s);
}

/// Relies on `slice::sort_unstable`: afterwards the values are in ascending
/// order and are the same values, counted with multiplicity.
#[verifier::external_body]
pub(crate) fn sort_values(v: &mut Vec<u32>)
    ensures
        final(v)@.to_multiset() == old(v)@.to_multiset(),
        forall|i: int, j: int| 0 <= i <= j < final(v)@.len() ==> final(v)@[i] <= final(v)@[j],
{
    v.sort_unstable()
}

/// The usual order on `u32`.
pub open spec fn u32_le() -> spec_fn(u32, u32) -> bool {
    |x: u32, y: u32| x <= y
}

/// A sorted rearrangement of `orig` is the sort of `orig`.
pub proof fn lemma_sorted_values(v: Seq<u32>, orig: Seq<u32>)
    requires
        v.to_multiset() == orig.to_multiset(),
        forall|i: int, j: int| 0 <= i <= j < v.len() ==> v[i] <= v[j],
    ensures
        v == orig.sort_by(u32_le()),
{
    let leq = u32_le();
    assert(vstd::relations::total_ordering(leq)) by {
        assert(vstd::relations::reflexive(leq));
        assert(vstd::relations::antisymmetric(leq));
        assert(vstd::relations::transitive(leq));
        assert(vstd::relations::strongly_connected(leq));
    }
    orig.lemma_sort_by_ensures(leq);
    assert(vstd::relations::sorted_by(v, leq));
    vstd::seq_lib::lemma_sorted_unique(v, orig.sort_by(leq), leq);
}

/// Sorts rules stably by ascending priority value.
pub fn sort_rules(rules: &[Rule]) -> (out: Vec<Rule>)
    ensures
        out@ == sort_by_priority(rules@),
{
    let mut out: Vec<Rule> = Vec::new();
    let mut i: usize = 0;
    while i < rules.len()
        invariant
            i <= rules@.len(),
            out@ == sort_by_priority(rules@.take(i as int)),
        decreases rules.len() - i,
    {
        let r = rules[i];
        let mut pos: usize = out.len();
        assert(out@.take(pos as int) =~= out@);
        while pos > 0 && out[pos - 1].priority > r.priority
            invariant
                pos <= out@.len(),
                insert_pos(out@, r.priority) == insert_pos(out@.take(pos as int), r.priority),
            decreases pos,
        {
            assert(out@.take(pos as int).drop_last() =~= out@.take(pos - 1));
            pos = pos - 1;
        }
        proof {
            if pos > 0 {
                assert(out@.take(pos as int).last() == out@[pos - 1]);
            }
        }
        out.insert(pos, r);
        assert(rules@.take(i + 1).drop_last() =~= rules@.take(i as int));
        i = i + 1;
    }
    assert(rules@.take(i as int) =~= rules@);
    out
}

/// Priority law: the decision is `None` exactly when no rule matches;
/// otherwise it is the action of a matching rule of the set whose priority
/// value is the smallest among all matching rules.
pub proof fn lemma_decision_is_strongest(rules: Seq<Rule>, p: FiveTuple)
    ensures
        decide(rules, p) is None <==> forall|j: int| 0 <= j < rules.len() ==> !(#[trigger] rules[j]).spec_matches(p),
        decide(rules, p) is Some ==> exists|i: int|
            0 <= i < rules.len() && (#[trigger] rules[i]).spec_matches(p) && decide(rules, p) == Some(rules[i].action) && forall|j: int|
                0 <= j < rules.len() && (#[trigger] rules[j]).spec_matches(p) ==> rules[i].priority <= rules[j].priority,
{
    let t = sort_by_priority(rules);
    lemma_sort_by_priority(rules);
    lemma_first_match_some(t, p);
    assert forall|x: Rule| t.contains(x) <==> rules.contains(x) by {
        vstd::seq_lib::to_multiset_contains(t, x);
        vstd::seq_lib::to_multiset_contains(rules, x);
    }
    if first_match(t, p) is None {
        assert forall|j: int| 0 <= j < rules.len() implies !(#[trigger] rules[j]).spec_matches(p) by {
            assert(rules.contains(rules[j]));
            let k = choose|k: int| 0 <= k < t.len() && t[k] == rules[j];
        }
    } else {
        let i = choose|i: int|
            #![trigger t[i]]
            0 <= i < t.len() && first_match(t, p) == Some(t[i]) && t[i].spec_matches(p) && forall|j: int|
                0 <= j < i ==> !#[trigger] t[j].spec_matches(p);
        assert(t.contains(t[i]));
        let i2 = choose|i2: int| 0 <= i2 < rules.len() && rules[i2] == t[i];
        assert forall|j: int| 0 <= j < rules.len() && (#[trigger] rules[j]).spec_matches(p) implies rules[i2].priority <= rules[j].priority by {
            assert(rules.contains(rules[j]));
            let k = choose|k: int| 0 <= k < t.len() && t[k] == rules[j];
            assert(!(k < i));
        }
        assert(rules[i2].spec_matches(p));
    }
}

/// Inserting rules of larger priority value than every rule of `rules`
/// keeps the sorted order of `rules` as a prefix.
proof fn lemma_sorted_prefix(rules: Seq<Rule>, extra: Seq<Rule>)
    requires
        forall|i: int, j: int| 0 <= i < rules.len() && 0 <= j < extra.len() ==> rules[i].priority < extra[j].priority,
    ensures
        sort_by_priority(rules + extra).len() >= rules.len(),
        sort_by_priority(rules + extra).take(rules.len() as int) == sort_by_priority(rules),
    decreases extra.len(),
{
    lemma_sort_by_priority(rules);
    lemma_sort_by_priority(rules + extra);
    if extra.len() == 0 {
        assert(rules + extra =~= rules);
        assert(sort_by_priority(rules).take(rules.len() as int) =~= sort_by_priority(rules));
    } else {
        let e = extra.drop_last();
        let x = extra.last();
        lemma_sorted_prefix(rules, e);
        assert((rules + extra).drop_last() =~= rules + e);
        assert((rules + extra).last() == x);
        let t = sort_by_priority(rules + e);
        lemma_sort_by_priority(rules + e);
        lemma_insert_pos(t, x.priority);
        let k = insert_pos(t, x.priority);
        let n = rules.len() as int;
        let s0 = sort_by_priority(rules);
        assert forall|x2: Rule| s0.contains(x2) <==> rules.contains(x2) by {
            vstd::seq_lib::to_multiset_contains(s0, x2);
            vstd::seq_lib::to_multiset_contains(rules, x2);
        }
        if n > 0 {
            assert(t[n - 1] == s0[n - 1]);
            assert(s0.contains(s0[n - 1]));
            let j = choose|j: int| 0 <= j < rules.len() && rules[j] == s0[n - 1];
            assert(x == extra[extra.len() - 1]);
            assert(t[n - 1].priority < x.priority);
            assert(k >= n);
        }
        assert(t.insert(k, x).take(n) =~= t.take(n));
    }
}

/// Closure law: appending rules whose priority values exceed those of every
/// rule of `rules` does not change the decision for a packet that some rule
/// of `rules` matches. (For a packet that no rule of `rules` matches, the
/// appended rules decide.)
pub proof fn lemma_append_weaker_rules(rules: Seq<Rule>, extra: Seq<Rule>, p: FiveTuple)
    requires
        forall|i: int, j: int| 0 <= i < rules.len() && 0 <= j < extra.len() ==> rules[i].priority < extra[j].priority,
        exists|i: int| 0 <= i < rules.len() && (#[trigger] rules[i]).spec_matches(p),
    ensures
        decide(rules + extra, p) == decide(rules, p),
{
    lemma_sorted_prefix(rules, extra);
    let s0 = sort_by_priority(rules);
    let s = sort_by_priority(rules + extra);
    lemma_sort_by_priority(rules);
    lemma_first_match_some(s0, p);
    let w = choose|i: int| 0 <= i < rules.len() && (#[trigger] rules[i]).spec_matches(p);
    assert(rules.contains(rules[w]));
    vstd::seq_lib::to_multiset_contains(s0, rules[w]);
    vstd::seq_lib::to_multiset_contains(rules, rules[w]);
    let k = choose|k: int| 0 <= k < s0.len() && s0[k] == rules[w];
    assert(s0[k].spec_matches(p));
    let i = choose|i: int|
        #![trigger s0[i]]
        0 <= i < s0.len() && first_match(s0, p) == Some(s0[i]) && s0[i].spec_matches(p) && forall|j: int|
            0 <= j < i ==> !#[trigger] s0[j].spec_matches(p);
    assert(s.take(rules.len() as int)[i] == s[i]);
    assert forall|j: int| 0 <= j < i implies !#[trigger] s[j].spec_matches(p) by {
        assert(s.take(rules.len() as int)[j] == s[j]);
        assert(s0[j] == s[j]);
    }
    lemma_first_match_at(s, p, i);
}

/// Position of the matching rule of smallest priority value, the earliest
/// one among equals; `-1` when no rule matches.
pub open spec fn strongest_index(rules: Seq<Rule>, p: FiveTuple) -> int
    decreases rules.len(),
{
    if rules.len() == 0 {
        -1
    } else {
        let b = strongest_index(rules.drop_last(), p);
        let l = rules.len() - 1;
        if rules[l].spec_matches(p) && (b < 0 || rules[l].priority < rules[b].priority) {
            l
        } else {
            b
        }
    }
}

pub proof fn lemma_strongest_index(rules: Seq<Rule>, p: FiveTuple)
    ensures
        -1 <= strongest_index(rules, p) < rules.len(),
        strongest_index(rules, p) < 0 <==> forall|j: int| 0 <= j < rules.len() ==> !(#[trigger] rules[j]).spec_matches(p),
        strongest_index(rules, p) >= 0 ==> {
            let b = strongest_index(rules, p);
            &&& rules[b].spec_matches(p)
            &&& forall|j: int|
                0 <= j < rules.len() && (#[trigger] rules[j]).spec_matches(p) ==> rules[b].priority < rules[j].priority
                    || (rules[b].priority == rules[j].priority && b <= j)
        },
    decreases rules.len(),
{
    if rules.len() > 0 {
        let t = rules.drop_last();
        lemma_strongest_index(t, p);
        assert forall|j: int| 0 <= j < t.len() implies t[j] == rules[j] by {}
    }
}

/// First match after the stable sort is the rule that `strongest_index` picks.
pub proof fn lemma_first_match_sorted(rules: Seq<Rule>, p: FiveTuple)
    ensures
        first_match(sort_by_priority(rules), p) == (if strongest_index(rules, p) < 0 {
            None
        } else {
            Some(rules[strongest_index(rules, p)])
        }),
    decreases rules.len(),
{
    lemma_strongest_index(rules, p);
    if rules.len() > 0 {
        let r0 = rules.drop_last();
        let x = rules.last();
        let t = sort_by_priority(r0);
        lemma_first_match_sorted(r0, p);
        lemma_strongest_index(r0, p);
        lemma_sort_by_priority(r0);
        lemma_insert_pos(t, x.priority);
        let k = insert_pos(t, x.priority);
        let u = t.insert(k, x);
        assert(sort_by_priority(rules) == u);
        let b0 = strongest_index(r0, p);
        assert forall|j: int| 0 <= j < r0.len() implies r0[j] == rules[j] by {}
        assert(x == rules[rules.len() - 1]);
        lemma_first_match_some(t, p);
        if first_match(t, p) is Some {
            let m = choose|i: int|
                #![trigger t[i]]
                0 <= i < t.len() && first_match(t, p) == Some(t[i]) && t[i].spec_matches(p) && forall|j: int|
                    0 <= j < i ==> !#[trigger] t[j].spec_matches(p);
            assert(t[m] == rules[b0]);
            if x.spec_matches(p) && x.priority < t[m].priority {
                assert(m >= k);
                assert forall|j: int| 0 <= j < k implies !#[trigger] u[j].spec_matches(p) by {
                    assert(u[j] == t[j]);
                }
                lemma_first_match_at(u, p, k);
            } else {
                if x.spec_matches(p) {
                    assert(m < k);
                }
                if m < k {
                    assert forall|j: int| 0 <= j < m implies !#[trigger] u[j].spec_matches(p) by {
                        assert(u[j] == t[j]);
                    }
                    assert(u[m] == t[m]);
                    lemma_first_match_at(u, p, m);
                } else {
                    assert forall|j: int| 0 <= j < m + 1 implies !#[trigger] u[j].spec_matches(p) by {
                        if j < k {
                            assert(u[j] == t[j]);
                        } else if j > k {
                            assert(u[j] == t[j - 1]);
                        }
                    }
                    assert(u[m + 1] == t[m]);
                    lemma_first_match_at(u, p, m + 1);
                }
            }
        } else {
            if x.spec_matches(p) {
                assert forall|j: int| 0 <= j < k implies !#[trigger] u[j].spec_matches(p) by {
                    assert(u[j] == t[j]);
                }
                lemma_first_match_at(u, p, k);
            } else {
                assert forall|j: int| 0 <= j < u.len() implies !#[trigger] u[j].spec_matches(p) by {
                    if j < k {
                        assert(u[j] == t[j]);
                    } else if j > k {
                        assert(u[j] == t[j - 1]);
                    }
                }
                lemma_first_match_none(u, p);
            }
        }
    } else {
        assert(sort_by_priority(rules) == Seq::<Rule>::empty());
    }
}

/// Tie law: the decision is the action of the matching rule of smallest
/// priority value, and among rules of that priority, of the one given first.
pub proof fn lemma_ties_go_to_first(rules: Seq<Rule>, p: FiveTuple)
    ensures
        decide(rules, p) is Some ==> exists|i: int|
            0 <= i < rules.len() && (#[trigger] rules[i]).spec_matches(p) && decide(rules, p) == Some(rules[i].action) && forall|j: int|
                0 <= j < rules.len() && (#[trigger] rules[j]).spec_matches(p) ==> rules[i].priority < rules[j].priority
                    || (rules[i].priority == rules[j].priority && i <= j),
{
    lemma_first_match_sorted(rules, p);
    lemma_strongest_index(rules, p);
    if decide(rules, p) is Some {
        let b = strongest_index(rules, p);
        assert(rules[b].spec_matches(p));
    }
}

} // verus!
