use vstd::prelude::*;
use crate::cutsplit::tree::{Dimension, spec_field, spec_lo, spec_hi};
use crate::order::{lemma_sorted_values, sort_values, u32_le};
use vstd::seq_lib::{lemma_multiset_commutative, to_multiset_build, to_multiset_contains};
use crate::packet::FiveTuple;
use crate::rule::{Range, Rule};
use crate::order::{lemma_strongest_index, strongest_index};

verus! {

/// The dimension that field number `i` names: 0 source address, 1
/// destination address, 2 source port, 3 destination port, 4 protocol.
pub open spec fn spec_dim(i: usize) -> Dimension {
    if i == 0 {
        Dimension::SrcIp
    } else if i == 1 {
        Dimension::DstIp
    } else if i == 2 {
        Dimension::SrcPort
    } else if i == 3 {
        Dimension::DstPort
    } else {
        Dimension::Proto
    }
}

/// The dimension of field number `i`.
pub fn dim_of(i: usize) -> (d: Dimension)
    requires
        i < 5,
    ensures
        d == spec_dim(i),
{
    if i == 0 {
        Dimension::SrcIp
    } else if i == 1 {
        Dimension::DstIp
    } else if i == 2 {
        Dimension::SrcPort
    } else if i == 3 {
        Dimension::DstPort
    } else {
        Dimension::Proto
    }
}

/// A rule with its position in the list the tree was built from.
pub type Entry = (Rule, usize);

/// A node of the interval tree: the rules whose range holds `center`, each
/// with its position in the list given to `build`, and subtrees for the
/// rules entirely below and entirely above it.
#[derive(Debug)]
pub struct Node {
    pub center: u32,
    pub left: Option<Box<Node>>,
    pub right: Option<Box<Node>>,
    pub rules: Vec<Rule>,
    /// `positions[i]` is where `rules[i]` stood in the list given to `build`.
    pub positions: Vec<usize>,
}

/// The node's rules paired with their positions.
pub open spec fn node_entries(b: Node) -> Seq<Entry> {
    Seq::new(b.rules@.len(), |i: int| (b.rules@[i], b.positions@[i]))
}

/// Every entry of the subtree: the node's own, then the left subtree's, then
/// the right subtree's.
pub open spec fn subtree_entries(n: Option<Box<Node>>) -> Seq<Entry>
    decreases n,
{
    match n {
        None => Seq::empty(),
        Some(b) => node_entries(*b) + subtree_entries(b.left) + subtree_entries(b.right),
    }
}

/// Search-tree order in dimension `d`: rules of a left subtree end below the
/// center, rules of a right subtree start above it; every node has one
/// position per rule.
pub open spec fn ordered(n: Option<Box<Node>>, d: Dimension) -> bool
    decreases n,
{
    match n {
        None => true,
        Some(b) => {
            &&& b.rules@.len() == b.positions@.len()
            &&& ordered(b.left, d)
            &&& ordered(b.right, d)
            &&& forall|i: int| 0 <= i < subtree_entries(b.left).len() ==> spec_hi((#[trigger] subtree_entries(b.left)[i]).0, d) < b.center
            &&& forall|i: int| 0 <= i < subtree_entries(b.right).len() ==> spec_lo((#[trigger] subtree_entries(b.right)[i]).0, d) > b.center
        },
    }
}

/// `x` is at least as strong as `y`: smaller priority value, or equal
/// priority and no later position.
pub open spec fn no_weaker(x: Entry, y: Entry) -> bool {
    x.0.priority < y.0.priority || (x.0.priority == y.0.priority && x.1 <= y.1)
}

/// `e` is strictly stronger than the current best.
pub open spec fn improves(best: Option<Entry>, e: Entry) -> bool {
    match best {
        None => true,
        Some(b) => e.0.priority < b.0.priority || (e.0.priority == b.0.priority && e.1 < b.1),
    }
}

/// The strongest match after scanning `es` in order from `best`.
pub open spec fn scan(best: Option<Entry>, es: Seq<Entry>, p: FiveTuple) -> Option<Entry>
    decreases es.len(),
{
    if es.len() == 0 {
        best
    } else {
        let b = scan(best, es.drop_last(), p);
        if es.last().0.spec_matches(p) && improves(b, es.last()) {
            Some(es.last())
        } else {
            b
        }
    }
}

/// A stabbing query from `n` with the packet's value `val`: scan each node
/// on the way, go left below the center, right above it, stop on it.
pub open spec fn stab(best: Option<Entry>, n: Option<Box<Node>>, p: FiveTuple, val: u32) -> Option<Entry>
    decreases n,
{
    match n {
        None => best,
        Some(b) => {
            let s = scan(best, node_entries(*b), p);
            if val < b.center {
                stab(s, b.left, p, val)
            } else if val > b.center {
                stab(s, b.right, p, val)
            } else {
                s
            }
        },
    }
}

/// `found` is the strongest match of `p` among `start` and the entries of
/// `s`: `None` exactly when neither holds a match, otherwise a matching entry
/// from one of them no weaker than any other match.
pub open spec fn strongest(start: Option<Entry>, s: Seq<Entry>, p: FiveTuple, found: Option<Entry>) -> bool {
    &&& found is None <==> (start is None && forall|i: int| 0 <= i < s.len() ==> !(#[trigger] s[i]).0.spec_matches(p))
    &&& found matches Some(x) ==> {
        &&& x.0.spec_matches(p)
        &&& (start == Some(x) || s.contains(x))
        &&& start matches Some(a) ==> no_weaker(x, a)
        &&& forall|i: int| 0 <= i < s.len() && (#[trigger] s[i]).0.spec_matches(p) ==> no_weaker(x, s[i])
    }
}

proof fn lemma_scan(best: Option<Entry>, es: Seq<Entry>, p: FiveTuple)
    requires
        best matches Some(a) ==> a.0.spec_matches(p),
    ensures
        strongest(best, es, p, scan(best, es, p)),
    decreases es.len(),
{
    if es.len() > 0 {
        let t = es.drop_last();
        lemma_scan(best, t, p);
        assert forall|i: int| 0 <= i < t.len() implies t[i] == es[i] by {}
        let b = scan(best, t, p);
        if b is Some && !(best == b) {
            assert(t.contains(b->0));
            let j = choose|j: int| 0 <= j < t.len() && t[j] == b->0;
            assert(es[j] == b->0);
        }
        if es.last().0.spec_matches(p) && improves(b, es.last()) {
            assert(es[es.len() - 1] == es.last());
        }
    }
}

/// The stabbing query over an ordered tree finds the strongest match among
/// the starting value and the whole subtree.
proof fn lemma_stab(best: Option<Entry>, n: Option<Box<Node>>, p: FiveTuple, d: Dimension)
    requires
        ordered(n, d),
        best matches Some(a) ==> a.0.spec_matches(p),
    ensures
        strongest(best, subtree_entries(n), p, stab(best, n, p, spec_field(p, d))),
    decreases n,
{
    let val = spec_field(p, d);
    match n {
        None => {},
        Some(b) => {
            let own = node_entries(*b);
            let s = scan(best, own, p);
            lemma_scan(best, own, p);
            let ls = subtree_entries(b.left);
            let rs = subtree_entries(b.right);
            let all = subtree_entries(n);
            assert(all == own + ls + rs);
            assert forall|i: int| 0 <= i < own.len() implies all[i] == own[i] by {}
            assert forall|i: int| 0 <= i < ls.len() implies all[own.len() + i] == ls[i] by {}
            assert forall|i: int| 0 <= i < rs.len() implies all[own.len() + ls.len() + i] == rs[i] by {}
            if s is Some && s != best {
                let j = choose|j: int| 0 <= j < own.len() && own[j] == s->0;
                assert(all[j] == s->0);
            }
            let res = stab(best, n, p, val);
            if val < b.center {
                lemma_stab(s, b.left, p, d);
                assert forall|i: int| 0 <= i < rs.len() implies !(#[trigger] rs[i]).0.spec_matches(p) by {
                    assert(spec_lo(rs[i].0, d) > b.center);
                }
                if res is Some && res != s {
                    let j = choose|j: int| 0 <= j < ls.len() && ls[j] == res->0;
                    assert(all[own.len() + j] == res->0);
                }
                assert forall|i: int| 0 <= i < all.len() && (#[trigger] all[i]).0.spec_matches(p) implies res is Some && no_weaker(res->0, all[i]) by {
                    if i >= own.len() + ls.len() {
                        assert(all[i] == rs[i - own.len() - ls.len()]);
                    } else if i >= own.len() {
                        assert(all[i] == ls[i - own.len()]);
                    }
                }
            } else if val > b.center {
                lemma_stab(s, b.right, p, d);
                assert forall|i: int| 0 <= i < ls.len() implies !(#[trigger] ls[i]).0.spec_matches(p) by {
                    assert(spec_hi(ls[i].0, d) < b.center);
                }
                if res is Some && res != s {
                    let j = choose|j: int| 0 <= j < rs.len() && rs[j] == res->0;
                    assert(all[own.len() + ls.len() + j] == res->0);
                }
                assert forall|i: int| 0 <= i < all.len() && (#[trigger] all[i]).0.spec_matches(p) implies res is Some && no_weaker(res->0, all[i]) by {
                    if i >= own.len() + ls.len() {
                        assert(all[i] == rs[i - own.len() - ls.len()]);
                    } else if i >= own.len() {
                        assert(all[i] == ls[i - own.len()]);
                    }
                }
            } else {
                assert forall|i: int| 0 <= i < ls.len() implies !(#[trigger] ls[i]).0.spec_matches(p) by {
                    assert(spec_hi(ls[i].0, d) < b.center);
                }
                assert forall|i: int| 0 <= i < rs.len() implies !(#[trigger] rs[i]).0.spec_matches(p) by {
                    assert(spec_lo(rs[i].0, d) > b.center);
                }
                assert forall|i: int| 0 <= i < all.len() && (#[trigger] all[i]).0.spec_matches(p) implies res is Some && no_weaker(res->0, all[i]) by {
                    if i >= own.len() + ls.len() {
                        assert(all[i] == rs[i - own.len() - ls.len()]);
                    } else if i >= own.len() {
                        assert(all[i] == ls[i - own.len()]);
                    }
                }
            }
        },
    }
}

/// Each entry's lower and upper bound in `d`, in order.
pub open spec fn interval_ends(es: Seq<Entry>, d: Dimension) -> Seq<u32>
    decreases es.len(),
{
    if es.len() == 0 {
        Seq::empty()
    } else {
        interval_ends(es.drop_last(), d).push(spec_lo(es.last().0, d)).push(spec_hi(es.last().0, d))
    }
}

/// The median endpoint: index `es.len()` of the sorted `2 * es.len()` endpoints.
pub open spec fn median_end(es: Seq<Entry>, d: Dimension) -> u32 {
    interval_ends(es, d).sort_by(u32_le())[es.len() as int]
}

/// The entries entirely below `c` in `d`, in order.
pub open spec fn below(es: Seq<Entry>, d: Dimension, c: u32) -> Seq<Entry> {
    es.filter(|e: Entry| spec_hi(e.0, d) < c)
}

/// The entries entirely above `c` in `d`, in order.
pub open spec fn above(es: Seq<Entry>, d: Dimension, c: u32) -> Seq<Entry> {
    es.filter(|e: Entry| !(spec_hi(e.0, d) < c) && spec_lo(e.0, d) > c)
}

/// The entries whose range in `d` holds `c`, in order.
pub open spec fn holding(es: Seq<Entry>, d: Dimension, c: u32) -> Seq<Entry> {
    es.filter(|e: Entry| !(spec_hi(e.0, d) < c) && !(spec_lo(e.0, d) > c))
}

/// The rules given to `build`, each with its position.
pub open spec fn numbered(rules: Seq<Rule>) -> Seq<Entry> {
    Seq::new(rules.len(), |i: int| (rules[i], i as usize))
}

/// `n` is the node built for `es` in `d`: no entries give an empty node
/// centered on 0; otherwise the center is the median endpoint, the node keeps
/// the entries holding it, and each side that has entries gets a subtree
/// built for exactly the entries below, respectively above, the center.
/// Should no entry hold the center (only empty ranges can do that), the node
/// keeps all the entries and has no subtrees.
pub open spec fn interval_built(es: Seq<Entry>, d: Dimension, n: Node) -> bool
    decreases n,
{
    &&& n.rules@.len() == n.positions@.len()
    &&& if es.len() == 0 {
        n.center == 0 && n.rules@.len() == 0 && n.left is None && n.right is None
    } else {
        let c = median_end(es, d);
        let lo = below(es, d, c);
        let hi = above(es, d, c);
        &&& n.center == c
        &&& if holding(es, d, c).len() == 0 {
            node_entries(n) == es && n.left is None && n.right is None
        } else {
            &&& node_entries(n) == holding(es, d, c)
            &&& match n.left {
                None => lo.len() == 0,
                Some(b) => lo.len() > 0 && interval_built(lo, d, *b),
            }
            &&& match n.right {
                None => hi.len() == 0,
                Some(b) => hi.len() > 0 && interval_built(hi, d, *b),
            }
        }
    }
}

/// Sequences with the same multiset hold the same elements.
pub proof fn lemma_same_elements(a: Seq<Entry>, b: Seq<Entry>)
    requires
        a.to_multiset() == b.to_multiset(),
    ensures
        forall|x: Entry| a.contains(x) <==> b.contains(x),
{
    assert forall|x: Entry| a.contains(x) <==> b.contains(x) by {
        to_multiset_contains(a, x);
        to_multiset_contains(b, x);
    }
}

impl Node {
    /// A node with the given center, rules and positions and no children.
    pub fn new(center: u32, rules: Vec<Rule>, positions: Vec<usize>) -> (n: Self)
        ensures
            n.center == center,
            n.left is None,
            n.right is None,
            n.rules == rules,
            n.positions == positions,
    {
        Self { center, left: None, right: None, rules, positions }
    }
}

/// Splits entries into their rules and their positions.
fn unzip_entries(es: Vec<Entry>) -> (res: (Vec<Rule>, Vec<usize>))
    ensures
        res.0@.len() == res.1@.len() == es@.len(),
        forall|i: int| 0 <= i < es@.len() ==> (#[trigger] es@[i]) == (res.0@[i], res.1@[i]),
{
    let mut rules: Vec<Rule> = Vec::new();
    let mut positions: Vec<usize> = Vec::new();
    let mut i: usize = 0;
    while i < es.len()
        invariant
            i <= es@.len(),
            rules@.len() == i && positions@.len() == i,
            forall|k: int| 0 <= k < i ==> (#[trigger] es@[k]) == (rules@[k], positions@[k]),
        decreases es.len() - i,
    {
        let e = es[i];
        rules.push(e.0);
        positions.push(e.1);
        i = i + 1;
    }
    (rules, positions)
}

/// An interval tree over one field of the five-tuple.
pub struct IntervalTree {
    pub root: Option<Box<Node>>,
    /// 0 source address, 1 destination address, 2 source port, 3 destination port, 4 protocol.
    pub field_idx: usize,
    /// The rules the tree was built from, in the order given.
    pub given: Ghost<Seq<Rule>>,
}

impl IntervalTree {
    /// The field number is valid, the tree is ordered in its dimension, and
    /// it holds exactly the given rules, each with its position.
    pub open spec fn wf(&self) -> bool {
        &&& self.field_idx < 5
        &&& self.given@.len() <= usize::MAX
        &&& ordered(self.root, spec_dim(self.field_idx))
        &&& subtree_entries(self.root).to_multiset() == numbered(self.given@).to_multiset()
    }

    fn get_range(rule: &Rule, field_idx: usize) -> (r: Range<u32>)
        requires
            field_idx < 5,
        ensures
            r.min == spec_lo(*rule, spec_dim(field_idx)),
            r.max == spec_hi(*rule, spec_dim(field_idx)),
    {
        dim_of(field_idx).range_of(rule)
    }

    /// Builds the tree over `rules` in field `field_idx`.
    pub fn build(rules: Vec<Rule>, field_idx: usize) -> (t: Self)
        requires
            field_idx < 5,
        ensures
            t.wf(),
            t.field_idx == field_idx,
            t.given@ == rules@,
            t.root is Some,
            interval_built(numbered(rules@), spec_dim(field_idx), *t.root->0),
    {
        let mut es: Vec<Entry> = Vec::new();
        let mut i: usize = 0;
        while i < rules.len()
            invariant
                i <= rules@.len(),
                es@ =~= numbered(rules@).take(i as int),
            decreases rules.len() - i,
        {
            es.push((rules[i], i));
            i = i + 1;
        }
        assert(numbered(rules@).take(i as int) =~= numbered(rules@));
        assert(rules@.len() == rules.len());
        let root = Self::build_recursive(es, field_idx);
        Self { root: Some(Box::new(root)), field_idx, given: Ghost(rules@) }
    }

    /// Centers the node on the median of the endpoints of `rules`; rules
    /// entirely below it go left, entirely above it right, the others stay.
    /// If no rule holds the center (only empty ranges can cause that), all
    /// stay, which ends the recursion.
    fn build_recursive(rules: Vec<Entry>, field_idx: usize) -> (n: Node)
        requires
            field_idx < 5,
        ensures
            ordered(Some(Box::new(n)), spec_dim(field_idx)),
            subtree_entries(Some(Box::new(n))).to_multiset() == rules@.to_multiset(),
            interval_built(rules@, spec_dim(field_idx), n),
        decreases rules@.len(),
    {
        let ghost d = spec_dim(field_idx);
        if rules.len() == 0 {
            let n = Node::new(0, Vec::new(), Vec::new());
            assert(node_entries(n) =~= Seq::<Entry>::empty());
            assert(subtree_entries(n.left) == Seq::<Entry>::empty());
            assert(subtree_entries(n.right) == Seq::<Entry>::empty());
            assert(ordered(n.left, d) && ordered(n.right, d));
            assert(subtree_entries(Some(Box::new(n))) =~= rules@);
            return n;
        }
        let mut endpoints: Vec<u32> = Vec::new();
        let mut i: usize = 0;
        while i < rules.len()
            invariant
                field_idx < 5,
                i <= rules@.len(),
                endpoints@.len() == 2 * i,
                endpoints@ == interval_ends(rules@.take(i as int), spec_dim(field_idx)),
            decreases rules.len() - i,
        {
            let range = Self::get_range(&rules[i].0, field_idx);
            assert(rules@.take(i + 1).drop_last() =~= rules@.take(i as int));
            assert(rules@.take(i + 1).last() == rules@[i as int]);
            endpoints.push(range.min);
            endpoints.push(range.max);
            i = i + 1;
        }
        assert(rules@.take(i as int) =~= rules@);
        let ghost unsorted = endpoints@;
        sort_values(&mut endpoints);
        proof {
            lemma_sorted_values(endpoints@, unsorted);
            vstd::seq_lib::to_multiset_len(endpoints@);
            vstd::seq_lib::to_multiset_len(unsorted);
        }
        let center = endpoints[endpoints.len() / 2];
        let mut left_rules: Vec<Entry> = Vec::new();
        let mut right_rules: Vec<Entry> = Vec::new();
        let mut center_rules: Vec<Entry> = Vec::new();
        let mut k: usize = 0;
        proof {
            broadcast use vstd::seq_lib::group_to_multiset_ensures;
            assert(rules@.take(0) =~= Seq::<Entry>::empty());
            assert(left_rules@.to_multiset() =~= vstd::multiset::Multiset::<Entry>::empty());
        }
        while k < rules.len()
            invariant
                field_idx < 5,
                d == spec_dim(field_idx),
                k <= rules@.len(),
                left_rules@.to_multiset().add(center_rules@.to_multiset()).add(right_rules@.to_multiset()) == rules@.take(k as int).to_multiset(),
                left_rules@.len() + center_rules@.len() + right_rules@.len() == k,
                left_rules@ == below(rules@.take(k as int), d, center),
                right_rules@ == above(rules@.take(k as int), d, center),
                center_rules@ == holding(rules@.take(k as int), d, center),
                forall|j: int| 0 <= j < left_rules@.len() ==> spec_hi((#[trigger] left_rules@[j]).0, d) < center,
                forall|j: int| 0 <= j < right_rules@.len() ==> spec_lo((#[trigger] right_rules@[j]).0, d) > center,
            decreases rules.len() - k,
        {
            let rule = rules[k];
            let range = Self::get_range(&rule.0, field_idx);
            proof {
                to_multiset_build(rules@.take(k as int), rule);
                assert(rules@.take(k + 1) =~= rules@.take(k as int).push(rule));
                reveal(Seq::filter);
                assert(rules@.take(k + 1).drop_last() =~= rules@.take(k as int));
                assert(rules@.take(k + 1).last() == rule);
            }
            if range.max < center {
                proof {
                    to_multiset_build(left_rules@, rule);
                }
                left_rules.push(rule);
            } else if range.min > center {
                proof {
                    to_multiset_build(right_rules@, rule);
                }
                right_rules.push(rule);
            } else {
                proof {
                    to_multiset_build(center_rules@, rule);
                }
                center_rules.push(rule);
            }
            k = k + 1;
        }
        assert(rules@.take(k as int) =~= rules@);
        if center_rules.len() == 0 {
            let ghost all = rules@;
            let (rs, ps) = unzip_entries(rules);
            let n = Node::new(center, rs, ps);
            assert(node_entries(n) =~= all);
            assert(subtree_entries(n.left) == Seq::<Entry>::empty());
            assert(subtree_entries(n.right) == Seq::<Entry>::empty());
            assert(ordered(n.left, d) && ordered(n.right, d));
            assert(subtree_entries(Some(Box::new(n))) =~= node_entries(n));
            return n;
        }
        let ghost lrules = left_rules@;
        let ghost rrules = right_rules@;
        let ghost crules = center_rules@;
        let (crs, cps) = unzip_entries(center_rules);
        let mut node = Node::new(center, crs, cps);
        assert(node_entries(node) =~= crules);
        if left_rules.len() > 0 {
            node.left = Some(Box::new(Self::build_recursive(left_rules, field_idx)));
        } else {
            assert(subtree_entries(node.left) =~= lrules);
        }
        if right_rules.len() > 0 {
            node.right = Some(Box::new(Self::build_recursive(right_rules, field_idx)));
        } else {
            assert(subtree_entries(node.right) =~= rrules);
        }
        proof {
            let ls = subtree_entries(node.left);
            let rs = subtree_entries(node.right);
            assert(ordered(node.left, d) && ordered(node.right, d));
            assert(ls.to_multiset() == lrules.to_multiset());
            assert(rs.to_multiset() == rrules.to_multiset());
            lemma_same_elements(ls, lrules);
            lemma_same_elements(rs, rrules);
            assert forall|i: int| 0 <= i < ls.len() implies spec_hi((#[trigger] ls[i]).0, d) < center by {
                assert(ls.contains(ls[i]));
                let j = choose|j: int| 0 <= j < lrules.len() && lrules[j] == ls[i];
            }
            assert forall|i: int| 0 <= i < rs.len() implies spec_lo((#[trigger] rs[i]).0, d) > center by {
                assert(rs.contains(rs[i]));
                let j = choose|j: int| 0 <= j < rrules.len() && rrules[j] == rs[i];
            }
            let all = subtree_entries(Some(Box::new(node)));
            assert(all == node_entries(node) + ls + rs);
            lemma_multiset_commutative(node_entries(node) + ls, rs);
            lemma_multiset_commutative(node_entries(node), ls);
            assert(all.to_multiset() =~= lrules.to_multiset().add(crules.to_multiset()).add(rrules.to_multiset()));
        }
        node
    }

    /// The strongest rule of the tree that matches `packet`, whose value in
    /// the tree's field is `val`: the matching rule of smallest priority
    /// value, and of those the one given first. Descends from the root,
    /// scanning each node's rules, left below the center, right above it,
    /// stopping on it.
    pub fn classify_packet(&self, packet: &FiveTuple, val: u32) -> (r: Option<Rule>)
        requires
            self.wf(),
            val == spec_field(*packet, spec_dim(self.field_idx)),
        ensures
            r is None <==> forall|j: int| 0 <= j < self.given@.len() ==> !(#[trigger] self.given@[j]).spec_matches(*packet),
            r matches Some(x) ==> exists|i: int|
                0 <= i < self.given@.len() && #[trigger] self.given@[i] == x && x.spec_matches(*packet) && forall|j: int|
                    0 <= j < self.given@.len() && (#[trigger] self.given@[j]).spec_matches(*packet) ==> x.priority < self.given@[j].priority
                        || (x.priority == self.given@[j].priority && i <= j),
    {
        let mut best: Option<Entry> = None;
        let mut current: &Option<Box<Node>> = &self.root;
        proof {
            lemma_stab(None, self.root, *packet, spec_dim(self.field_idx));
        }
        let ghost result = stab(None, self.root, *packet, val);
        loop
            invariant_except_break
                stab(best, *current, *packet, val) == result,
            invariant
                result == stab(None, self.root, *packet, val),
                ordered(*current, spec_dim(self.field_idx)),
            ensures
                best == result,
            decreases *current,
        {
            match current {
                None => {
                    break;
                },
                Some(node) => {
                    let mut i: usize = 0;
                    let ghost start = best;
                    let ghost own = node_entries(**node);
                    while i < node.rules.len()
                        invariant
                            i <= node.rules@.len(),
                            node.rules@.len() == node.positions@.len(),
                            own == node_entries(**node),
                            best == scan(start, own.take(i as int), *packet),
                        decreases node.rules.len() - i,
                    {
                        let rule = node.rules[i];
                        let pos = node.positions[i];
                        assert(own[i as int] == (rule, pos));
                        assert(own.take(i + 1).drop_last() =~= own.take(i as int));
                        if rule.matches(packet) {
                            match best {
                                None => {
                                    best = Some((rule, pos));
                                },
                                Some(b) => {
                                    if rule.priority < b.0.priority || (rule.priority == b.0.priority && pos < b.1) {
                                        best = Some((rule, pos));
                                    }
                                },
                            }
                        }
                        i = i + 1;
                    }
                    assert(own.take(i as int) =~= own);
                    if val < node.center {
                        current = &node.left;
                    } else if val > node.center {
                        current = &node.right;
                    } else {
                        assert(stab(start, *current, *packet, val) == best);
                        break;
                    }
                },
            }
        }
        proof {
            let g = self.given@;
            let num = numbered(g);
            let all = subtree_entries(self.root);
            lemma_same_elements(all, num);
            assert forall|j: int| 0 <= j < g.len() implies num[j] == (g[j], j as usize) by {}
            assert forall|j: int| 0 <= j < g.len() && (#[trigger] g[j]).spec_matches(*packet) implies result is Some && no_weaker(result->0, (g[j], j as usize)) by {
                assert(num.contains(num[j]));
                let k = choose|k: int| 0 <= k < all.len() && all[k] == num[j];
                assert(all[k].0.spec_matches(*packet));
            }
            if result is Some {
                let x = result->0;
                assert(all.contains(x));
                let i = choose|i: int| 0 <= i < num.len() && num[i] == x;
                assert(g[i] == x.0 && x.1 == i as usize);
                assert forall|j: int| 0 <= j < g.len() && (#[trigger] g[j]).spec_matches(*packet) implies x.0.priority < g[j].priority
                    || (x.0.priority == g[j].priority && i <= j) by {
                    assert(no_weaker(x, (g[j], j as usize)));
                }
            } else {
                assert forall|j: int| 0 <= j < g.len() implies !(#[trigger] g[j]).spec_matches(*packet) by {
                    if g[j].spec_matches(*packet) {
                        assert(result is Some);
                    }
                }
            }
        }
        match best {
            Some(e) => Some(e.0),
            None => None,
        }
    }
}

} // verus!
