//! The rule dependency resolver.
//!
//! Given a mapping of rule id to raw rule definition, the resolver
//! produces an insertion order in which every rule referenced by a
//! composite rule (`matches`, recursively inside `all`/`any`) is placed
//! strictly before the rule referencing it, so that compilation can
//! register each rule exactly once, dependencies first. References under
//! `not` are deliberately not traversed; a cycle hidden under `not`
//! surfaces later as a lookup failure instead.

use crate::rule::{dep_ids, list_dep_ids, lemma_list_dep_ids_elem, lemma_list_size_elem, list_size,
    rule_size, RuleDef};
use vstd::prelude::*;

verus! {

/// The set of views of a list of id strings.
pub open spec fn id_set(v: Seq<String>) -> Set<Seq<char>> {
    Set::new(|x: Seq<char>| exists|i: int| 0 <= i < v.len() && v[i]@ == x)
}

pub proof fn lemma_id_set_push(v: Seq<String>, s: String)
    ensures
        id_set(v.push(s)) =~= id_set(v).insert(s@),
{
    assert forall|x: Seq<char>| id_set(v.push(s)).contains(x) implies id_set(v).insert(s@).contains(
        x,
    ) by {
        let i = choose|i: int| 0 <= i < v.push(s).len() && v.push(s)[i]@ == x;
        if i < v.len() {
            assert(v[i]@ == x);
        }
    }
    assert forall|x: Seq<char>| id_set(v).insert(s@).contains(x) implies id_set(
        v.push(s),
    ).contains(x) by {
        if x == s@ {
            assert(v.push(s)[v.len() as int]@ == x);
        } else {
            let i = choose|i: int| 0 <= i < v.len() && v[i]@ == x;
            assert(v.push(s)[i]@ == x);
        }
    }
}

/// A mapping of rule id to raw rule definition, with unique ids.
pub struct RuleMap {
    pub entries: Vec<(String, RuleDef)>,
}

impl RuleMap {
    /// Ids are pairwise distinct.
    pub open spec fn wf(&self) -> bool {
        forall|i: int, j: int|
            0 <= i < j < self.entries@.len() ==> (#[trigger] self.entries@[i]).0@ != (
            #[trigger] self.entries@[j]).0@
    }

    /// The map has an entry under `id`.
    pub open spec fn contains_id(&self, id: Seq<char>) -> bool {
        exists|i: int| 0 <= i < self.entries@.len() && (#[trigger] self.entries@[i]).0@ == id
    }

    /// The definition stored under `id`.
    pub open spec fn rule_of(&self, id: Seq<char>) -> RuleDef {
        let i = choose|i: int| 0 <= i < self.entries@.len() && (#[trigger] self.entries@[i]).0@ == id;
        self.entries@[i].1
    }

    /// An empty map.
    pub fn new() -> (r: RuleMap)
        ensures
            r.entries@.len() == 0,
            r.wf(),
    {
        RuleMap { entries: Vec::new() }
    }

    /// Adds a definition under a fresh id.
    pub fn insert(&mut self, id: String, rule: RuleDef)
        requires
            !old(self).contains_id(id@),
        ensures
            final(self).entries@ == old(self).entries@.push((id, rule)),
            old(self).wf() ==> final(self).wf(),
    {
        proof {
            let pre = *self;
            assert forall|i: int, j: int|
                pre.wf() && 0 <= i < j < pre.entries@.push((id, rule)).len() implies (
            #[trigger] pre.entries@.push((id, rule))[i]).0@ != (#[trigger] pre.entries@.push(
                (id, rule),
            )[j]).0@ by {
                if j < pre.entries@.len() {
                } else {
                    assert(pre.entries@.push((id, rule))[j] == (id, rule));
                    if pre.entries@[i].0@ == id@ {
                        assert(pre.contains_id(id@));
                    }
                }
            }
        }
        self.entries.push((id, rule));
    }

    /// Looks the definition of `id` up.
    pub fn get(&self, id: &String) -> (r: Option<&RuleDef>)
        requires
            self.wf(),
        ensures
            match r {
                Some(v) => self.contains_id(id@) && *v == self.rule_of(id@),
                None => !self.contains_id(id@),
            },
    {
        let mut i: usize = 0;
        while i < self.entries.len()
            invariant
                i <= self.entries@.len(),
                self.wf(),
                forall|k: int| 0 <= k < i ==> (#[trigger] self.entries@[k]).0@ != id@,
            decreases self.entries@.len() - i,
        {
            if crate::text::str_eq(self.entries[i].0.as_str(), id.as_str()) {
                proof {
                    let w = choose|w: int|
                        0 <= w < self.entries@.len() && (#[trigger] self.entries@[w]).0@ == id@;
                    assert(w == i);
                }
                return Some(&self.entries[i].1);
            }
            i = i + 1;
        }
        None
    }
}

/// How many entries of the map are not yet in `seen`.
pub open spec fn unseen_count(entries: Seq<(String, RuleDef)>, seen: Set<Seq<char>>) -> nat
    decreases entries,
{
    if entries.len() == 0 {
        0
    } else {
        unseen_count(entries.drop_last(), seen) + if seen.contains(entries.last().0@) {
            0nat
        } else {
            1nat
        }
    }
}

pub proof fn lemma_unseen_mono(entries: Seq<(String, RuleDef)>, s1: Set<Seq<char>>, s2: Set<
    Seq<char>,
>)
    requires
        s1.subset_of(s2),
    ensures
        unseen_count(entries, s2) <= unseen_count(entries, s1),
    decreases entries,
{
    if entries.len() > 0 {
        lemma_unseen_mono(entries.drop_last(), s1, s2);
    }
}

pub proof fn lemma_unseen_insert(entries: Seq<(String, RuleDef)>, s: Set<Seq<char>>, k: Seq<char>)
    requires
        !s.contains(k),
        exists|i: int| 0 <= i < entries.len() && (#[trigger] entries[i]).0@ == k,
    ensures
        unseen_count(entries, s.insert(k)) < unseen_count(entries, s),
    decreases entries,
{
    let i = choose|i: int| 0 <= i < entries.len() && (#[trigger] entries[i]).0@ == k;
    if entries.last().0@ == k {
        lemma_unseen_mono(entries.drop_last(), s, s.insert(k));
    } else {
        assert(entries.drop_last()[i] == entries[i]);
        lemma_unseen_insert(entries.drop_last(), s, k);
    }
}

/// Rule `a` directly depends on rule `b`: both are in the map and `b`
/// is among the ids `a`'s definition references for ordering purposes.
pub open spec fn edge(m: RuleMap, a: Seq<char>, b: Seq<char>) -> bool {
    m.contains_id(a) && m.contains_id(b) && dep_ids(m.rule_of(a)).contains(b)
}

/// `p` is a walk along dependency edges.
pub open spec fn is_path(m: RuleMap, p: Seq<Seq<char>>) -> bool {
    p.len() >= 1 && forall|k: int| 0 <= k < p.len() - 1 ==> edge(m, #[trigger] p[k], p[k + 1])
}

/// Some dependency walk leads from `a` to `b`.
pub open spec fn reaches(m: RuleMap, a: Seq<char>, b: Seq<char>) -> bool {
    exists|p: Seq<Seq<char>>| #[trigger] is_path(m, p) && p.first() == a && p.last() == b
}

/// The dependency graph has a cycle through `matches`/`all`/`any`.
pub open spec fn has_cycle(m: RuleMap) -> bool {
    exists|p: Seq<Seq<char>>| #[trigger] is_path(m, p) && p.len() >= 2 && p.first() == p.last()
}

pub proof fn lemma_reaches_self(m: RuleMap, a: Seq<char>)
    ensures
        reaches(m, a, a),
{
    let p = seq![a];
    assert(is_path(m, p));
    assert(p.first() == a && p.last() == a);
}

pub proof fn lemma_reaches_step(m: RuleMap, a: Seq<char>, b: Seq<char>, c: Seq<char>)
    requires
        reaches(m, a, b),
        edge(m, b, c),
    ensures
        reaches(m, a, c),
{
    let p = choose|p: Seq<Seq<char>>| #[trigger] is_path(m, p) && p.first() == a && p.last() == b;
    let q = p.push(c);
    assert forall|k: int| 0 <= k < q.len() - 1 implies edge(m, #[trigger] q[k], q[k + 1]) by {
        if k < p.len() - 1 {
            assert(q[k] == p[k] && q[k + 1] == p[k + 1]);
        } else {
            assert(q[k] == p.last() && q[k + 1] == c);
        }
    }
    assert(is_path(m, q));
    assert(q.first() == a && q.last() == c);
}

pub proof fn lemma_reaches_trans(m: RuleMap, a: Seq<char>, b: Seq<char>, c: Seq<char>)
    requires
        reaches(m, a, b),
        reaches(m, b, c),
    ensures
        reaches(m, a, c),
{
    let p1 = choose|p: Seq<Seq<char>>| #[trigger] is_path(m, p) && p.first() == a && p.last() == b;
    let p2 = choose|p: Seq<Seq<char>>| #[trigger] is_path(m, p) && p.first() == b && p.last() == c;
    if p2.len() == 1 {
        assert(b == c);
    } else {
        let q = p1 + p2.drop_first();
        assert forall|k: int| 0 <= k < q.len() - 1 implies edge(m, #[trigger] q[k], q[k + 1]) by {
            if k < p1.len() - 1 {
                assert(q[k] == p1[k] && q[k + 1] == p1[k + 1]);
            } else if k == p1.len() - 1 {
                assert(q[k] == p1.last());
                assert(q[k + 1] == p2.drop_first()[0]);
                assert(p2.drop_first()[0] == p2[1]);
                assert(edge(m, p2[0], p2[1]));
            } else {
                assert(q[k] == p2.drop_first()[k - p1.len()]);
                assert(q[k + 1] == p2.drop_first()[k + 1 - p1.len()]);
                assert(p2.drop_first()[k - p1.len()] == p2[k - p1.len() + 1]);
                assert(p2.drop_first()[k + 1 - p1.len()] == p2[k - p1.len() + 2]);
                assert(edge(m, p2[k - p1.len() + 1], p2[k - p1.len() + 2]));
            }
        }
        assert(is_path(m, q));
        assert(q[0] == p1[0]);
        assert(q.last() == p2.drop_first().last());
        assert(p2.drop_first().last() == p2.last());
        assert(q.first() == a && q.last() == c);
    }
}

pub proof fn lemma_cycle_close(m: RuleMap, d: Seq<char>, x: Seq<char>)
    requires
        reaches(m, d, x),
        edge(m, x, d),
    ensures
        has_cycle(m),
{
    let p = choose|p: Seq<Seq<char>>| #[trigger] is_path(m, p) && p.first() == d && p.last() == x;
    let q = p.push(d);
    assert forall|k: int| 0 <= k < q.len() - 1 implies edge(m, #[trigger] q[k], q[k + 1]) by {
        if k < p.len() - 1 {
            assert(q[k] == p[k] && q[k + 1] == p[k + 1]);
        } else {
            assert(q[k] == p.last() && q[k + 1] == d);
        }
    }
    assert(is_path(m, q));
    assert(q.len() >= 2 && q.first() == d && q.last() == d);
}

/// The views of a list of id strings, in order.
pub open spec fn view_seq(s: Seq<String>) -> Seq<Seq<char>> {
    s.map_values(|x: String| x@)
}

/// What the resolver guarantees of an insertion order for `m`: every id
/// of the map exactly once and, when the reference graph through
/// `matches`/`all`/`any` is acyclic, every dependency present in the map
/// strictly before its dependent.
pub open spec fn topo_order_ok(m: RuleMap, ord: Seq<Seq<char>>) -> bool {
    &&& forall|i: int, j: int| 0 <= i < j < ord.len() ==> ord[i] != ord[j]
    &&& forall|i: int| 0 <= i < ord.len() ==> m.contains_id(#[trigger] ord[i])
    &&& forall|id: Seq<char>| #[trigger] m.contains_id(id) ==> ord.contains(id)
    &&& (!has_cycle(m) ==> forall|i: int, d: Seq<char>|
        0 <= i < ord.len() && #[trigger] dep_ids(m.rule_of(ord[i])).contains(d) && m.contains_id(
            d,
        ) ==> exists|j: int| 0 <= j < i && ord[j] == d)
}

/// The depth-first post-order walk that turns the reference graph into
/// an insertion order.
pub struct TopologicalSort<'a> {
    pub utils: &'a RuleMap,
    pub order: Vec<String>,
    pub seen: Vec<String>,
}

impl<'a> TopologicalSort<'a> {
    /// The ids already placed in the output order.
    pub open spec fn order_set(&self) -> Set<Seq<char>> {
        id_set(self.order@)
    }

    /// The ids already visited.
    pub open spec fn seen_set(&self) -> Set<Seq<char>> {
        id_set(self.seen@)
    }

    /// The output order never places a rule before a dependency that is
    /// present in the map — unless the reference graph has a cycle, in
    /// which case the walk still terminates and still emits every id
    /// once, but a cyclic dependency may follow its dependent.
    pub open spec fn order_ok(&self) -> bool {
        has_cycle(*self.utils) || forall|i: int, d: Seq<char>|
            0 <= i < self.order@.len() && #[trigger] dep_ids(
                self.utils.rule_of(self.order@[i]@),
            ).contains(d) && self.utils.contains_id(d) ==> exists|j: int|
                0 <= j < i && (#[trigger] self.order@[j])@ == d
    }

    /// The walk's internal invariant.
    pub open spec fn inv(&self) -> bool {
        &&& self.utils.wf()
        &&& forall|i: int, j: int|
            0 <= i < j < self.order@.len() ==> (#[trigger] self.order@[i])@ != (
            #[trigger] self.order@[j])@
        &&& forall|i: int|
            0 <= i < self.order@.len() ==> self.utils.contains_id((#[trigger] self.order@[i])@)
        &&& forall|i: int|
            0 <= i < self.seen@.len() ==> self.utils.contains_id((#[trigger] self.seen@[i])@)
        &&& self.order_ok()
    }

    /// The walk's state between visits, relative to the ghost set of
    /// ids whose visits are still in progress.
    pub open spec fn dfs_ok(&self, anc: Set<Seq<char>>) -> bool {
        &&& self.inv()
        &&& self.seen_set() == self.order_set().union(anc)
        &&& forall|x: Seq<char>| anc.contains(x) ==> !self.order_set().contains(x)
        &&& forall|x: Seq<char>| anc.contains(x) ==> self.utils.contains_id(x)
    }

    /// A fresh walk over `utils`.
    pub fn new(utils: &'a RuleMap) -> (r: TopologicalSort<'a>)
        requires
            utils.wf(),
        ensures
            r.utils == utils,
            r.dfs_ok(Set::empty()),
            r.order@.len() == 0,
            r.seen@.len() == 0,
    {
        let r = TopologicalSort { utils, order: Vec::new(), seen: Vec::new() };
        proof {
            assert(r.seen_set() =~= r.order_set().union(Set::empty()));
        }
        r
    }

    /// Visits one id: a seen id is skipped, an id absent from the map is
    /// left for later lookup (it may be a global rule), and otherwise the
    /// id is marked, its dependencies are visited first, and the id is
    /// appended to the order.
    pub fn visit(&mut self, rule_id: &String, Ghost(anc): Ghost<Set<Seq<char>>>)
        requires
            old(self).dfs_ok(anc),
            old(self).utils.contains_id(rule_id@) ==> forall|a: Seq<char>|
                anc.contains(a) ==> reaches(*old(self).utils, a, rule_id@),
        ensures
            final(self).utils == old(self).utils,
            final(self).dfs_ok(anc),
            old(self).seen_set().subset_of(final(self).seen_set()),
            old(self).utils.contains_id(rule_id@) ==> final(self).seen_set().contains(rule_id@),
            // an already-seen id is a no-op
            old(self).seen_set().contains(rule_id@) ==> *final(self) == *old(self),
            // an id absent from the map is no error and a no-op: it may
            // resolve against the other registry at compile time
            !old(self).utils.contains_id(rule_id@) ==> *final(self) == *old(self),
            // the walk stays within what the visited id reaches along
            // dependency edges; in particular a reference under `not` is
            // never visited through this id
            forall|x: Seq<char>|
                final(self).seen_set().contains(x) && !old(self).seen_set().contains(x)
                    ==> reaches(*old(self).utils, rule_id@, x),
        decreases unseen_count(self.utils.entries@, id_set(self.seen@)), 0nat,
    {
        if contains_str(&self.seen, rule_id) {
            return ;
        }
        let utils: &RuleMap = self.utils;
        let rule = match utils.get(rule_id) {
            Some(r) => r,
            None => {
                return ;
            },
        };
        let ghost pre = *self;
        self.seen.push(rule_id.clone());
        let ghost anc2 = anc.insert(rule_id@);
        proof {
            lemma_id_set_push(pre.seen@, *rule_id);
            assert(self.seen_set() =~= pre.seen_set().insert(rule_id@));
            assert(!anc.contains(rule_id@));
            assert(self.seen_set() =~= self.order_set().union(anc2));
            lemma_unseen_insert(utils.entries@, pre.seen_set(), rule_id@);
            lemma_reaches_self(*utils, rule_id@);
            assert forall|a: Seq<char>| anc2.contains(a) implies reaches(
                *utils,
                a,
                rule_id@,
            ) by {
                if a != rule_id@ {
                    assert(anc.contains(a));
                }
            }
        }
        visit_dependent_rule_ids(rule, self, Ghost(anc2), Ghost(rule_id@));
        let ghost mid = *self;
        self.order.push(rule_id.clone());
        proof {
            assert forall|x: Seq<char>|
                self.seen_set().contains(x) && !pre.seen_set().contains(x) implies reaches(
                *utils,
                rule_id@,
                x,
            ) by {
                if x != rule_id@ {
                    assert(mid.seen_set().contains(x));
                    assert(!pre.seen_set().insert(rule_id@).contains(x));
                }
            }
            lemma_id_set_push(mid.order@, *rule_id);
            assert(self.order_set() =~= mid.order_set().insert(rule_id@));
            assert(self.seen_set() =~= self.order_set().union(anc));
            let n = mid.order@.len() as int;
            assert(self.order@[n]@ == rule_id@);
            assert(!anc.contains(rule_id@));
            assert(anc2.contains(rule_id@));
            assert(!mid.order_set().contains(rule_id@));
            assert forall|x: Seq<char>| anc.contains(x) implies !self.order_set().contains(x) by {
                assert(anc2.contains(x));
                assert(!mid.order_set().contains(x));
            }
            assert forall|i: int, j: int| 0 <= i < j < self.order@.len() implies (
            #[trigger] self.order@[i])@ != (#[trigger] self.order@[j])@ by {
                if j < n {
                    assert(mid.order@[i] == self.order@[i] && mid.order@[j] == self.order@[j]);
                } else {
                    assert(self.order@[j]@ == rule_id@);
                    assert(self.order@[i] == mid.order@[i]);
                    assert(id_set(mid.order@).contains(mid.order@[i]@));
                }
            }
            assert forall|i: int| 0 <= i < self.order@.len() implies utils.contains_id(
                (#[trigger] self.order@[i])@,
            ) by {
                if i < n {
                    assert(self.order@[i] == mid.order@[i]);
                }
            }
            if !has_cycle(*utils) {
                assert forall|i: int, d: Seq<char>|
                    0 <= i < self.order@.len() && #[trigger] dep_ids(
                        utils.rule_of(self.order@[i]@),
                    ).contains(d) && utils.contains_id(d) implies exists|j: int|
                    0 <= j < i && (#[trigger] self.order@[j])@ == d by {
                    if i < n {
                        assert(self.order@[i] == mid.order@[i]);
                        let j = choose|j: int| 0 <= j < i && (#[trigger] mid.order@[j])@ == d;
                        assert(self.order@[j]@ == d);
                    } else {
                        assert(self.order@[i]@ == rule_id@);
                        assert(mid.seen_set().contains(d));
                        if mid.order_set().contains(d) {
                            let j = choose|j: int|
                                0 <= j < mid.order@.len() && (#[trigger] mid.order@[j])@ == d;
                            assert(self.order@[j]@ == d);
                        } else {
                            assert(anc2.contains(d));
                            assert(reaches(*utils, d, rule_id@));
                            assert(edge(*utils, rule_id@, d));
                            lemma_cycle_close(*utils, d, rule_id@);
                            assert(false);
                        }
                    }
                }
            }
        }
    }
}

/// Visits every id a definition references for ordering purposes: the
/// `matches` target and, recursively, the ids referenced inside `all`
/// and `any` lists. References under `not` are deliberately skipped.
#[verifier::loop_isolation(false)]
pub fn visit_dependent_rule_ids(
    rule: &RuleDef,
    sort: &mut TopologicalSort,
    Ghost(anc): Ghost<Set<Seq<char>>>,
    Ghost(owner): Ghost<Seq<char>>,
)
    requires
        old(sort).dfs_ok(anc),
        anc.contains(owner),
        old(sort).utils.contains_id(owner),
        dep_ids(*rule).subset_of(dep_ids(old(sort).utils.rule_of(owner))),
        forall|a: Seq<char>| anc.contains(a) ==> reaches(*old(sort).utils, a, owner),
    ensures
        final(sort).utils == old(sort).utils,
        final(sort).dfs_ok(anc),
        old(sort).seen_set().subset_of(final(sort).seen_set()),
        forall|d: Seq<char>|
            #[trigger] dep_ids(*rule).contains(d) && final(sort).utils.contains_id(d)
                ==> final(sort).seen_set().contains(d),
        // the walk visits nothing beyond what the owner reaches along
        // `matches`/`all`/`any` dependency edges: references under
        // `not` contribute no edge and are never visited here
        forall|x: Seq<char>|
            final(sort).seen_set().contains(x) && !old(sort).seen_set().contains(x) ==> reaches(
                *old(sort).utils,
                owner,
                x,
            ),
    decreases unseen_count(sort.utils.entries@, id_set(sort.seen@)), rule_size(*rule),
{
    let ghost entry = *sort;
    if let Some(id) = &rule.matches {
        proof {
            assert(dep_ids(*rule).contains(id@));
            if sort.utils.contains_id(id@) {
                assert(edge(*sort.utils, owner, id@));
                assert forall|a: Seq<char>| anc.contains(a) implies reaches(
                    *sort.utils,
                    a,
                    id@,
                ) by {
                    lemma_reaches_step(*sort.utils, a, owner, id@);
                }
            }
        }
        sort.visit(id, Ghost(anc));
        proof {
            assert forall|x: Seq<char>|
                sort.seen_set().contains(x) && !entry.seen_set().contains(x) implies reaches(
                *entry.utils,
                owner,
                x,
            ) by {
                if entry.utils.contains_id(id@) {
                    lemma_reaches_self(*entry.utils, owner);
                    lemma_reaches_step(*entry.utils, owner, owner, id@);
                    lemma_reaches_trans(*entry.utils, owner, id@, x);
                } else {
                    assert(false);
                }
            }
        }
    }
    let ghost after_matches = *sort;
    if let Some(subs) = &rule.all {
        let mut i: usize = 0;
        while i < subs.len()
            invariant
                i <= subs@.len(),
                sort.utils == entry.utils,
                sort.dfs_ok(anc),
                anc.contains(owner),
                entry.utils.contains_id(owner),
                dep_ids(*rule).subset_of(dep_ids(entry.utils.rule_of(owner))),
                forall|a: Seq<char>| anc.contains(a) ==> reaches(*entry.utils, a, owner),
                entry.seen_set().subset_of(sort.seen_set()),
                after_matches.seen_set().subset_of(sort.seen_set()),
                forall|x: Seq<char>|
                    sort.seen_set().contains(x) && !entry.seen_set().contains(x) ==> reaches(
                        *entry.utils,
                        owner,
                        x,
                    ),
                rule.all == Some(*subs),
                forall|d: Seq<char>|
                    #[trigger] list_dep_ids(subs@.take(i as int)).contains(d)
                        && sort.utils.contains_id(d) ==> sort.seen_set().contains(d),
            decreases subs@.len() - i,
        {
            proof {
                lemma_list_dep_ids_elem(subs@, i as int);
                assert(list_dep_ids(subs@).subset_of(dep_ids(*rule)));
                lemma_list_size_elem(subs@, i as int);
                assert(rule_size(*rule) >= 1 + list_size(subs@));
                lemma_unseen_mono(
                    sort.utils.entries@,
                    id_set(entry.seen@),
                    id_set(sort.seen@),
                );
            }
            let ghost before = *sort;
            visit_dependent_rule_ids(&subs[i], sort, Ghost(anc), Ghost(owner));
            proof {
                assert(subs@.take(i + 1).drop_last() =~= subs@.take(i as int));
                assert(subs@.take(i + 1).last() == subs@[i as int]);
                assert forall|d: Seq<char>|
                    #[trigger] list_dep_ids(subs@.take(i + 1)).contains(d)
                        && sort.utils.contains_id(d) implies sort.seen_set().contains(d) by {
                    if list_dep_ids(subs@.take(i as int)).contains(d) {
                        assert(before.seen_set().contains(d));
                    } else {
                        assert(dep_ids(subs@[i as int]).contains(d));
                    }
                }
            }
            i = i + 1;
        }
        proof {
            assert(subs@.take(subs@.len() as int) =~= subs@);
        }
    }
    let ghost after_all = *sort;
    if let Some(subs) = &rule.any {
        let mut i: usize = 0;
        while i < subs.len()
            invariant
                i <= subs@.len(),
                sort.utils == entry.utils,
                sort.dfs_ok(anc),
                anc.contains(owner),
                entry.utils.contains_id(owner),
                dep_ids(*rule).subset_of(dep_ids(entry.utils.rule_of(owner))),
                forall|a: Seq<char>| anc.contains(a) ==> reaches(*entry.utils, a, owner),
                entry.seen_set().subset_of(sort.seen_set()),
                after_all.seen_set().subset_of(sort.seen_set()),
                forall|x: Seq<char>|
                    sort.seen_set().contains(x) && !entry.seen_set().contains(x) ==> reaches(
                        *entry.utils,
                        owner,
                        x,
                    ),
                rule.any == Some(*subs),
                forall|d: Seq<char>|
                    #[trigger] list_dep_ids(subs@.take(i as int)).contains(d)
                        && sort.utils.contains_id(d) ==> sort.seen_set().contains(d),
            decreases subs@.len() - i,
        {
            proof {
                lemma_list_dep_ids_elem(subs@, i as int);
                assert(list_dep_ids(subs@).subset_of(dep_ids(*rule)));
                lemma_list_size_elem(subs@, i as int);
                assert(rule_size(*rule) >= 1 + list_size(subs@));
                lemma_unseen_mono(
                    sort.utils.entries@,
                    id_set(entry.seen@),
                    id_set(sort.seen@),
                );
            }
            let ghost before = *sort;
            visit_dependent_rule_ids(&subs[i], sort, Ghost(anc), Ghost(owner));
            proof {
                assert(subs@.take(i + 1).drop_last() =~= subs@.take(i as int));
                assert(subs@.take(i + 1).last() == subs@[i as int]);
                assert forall|d: Seq<char>|
                    #[trigger] list_dep_ids(subs@.take(i + 1)).contains(d)
                        && sort.utils.contains_id(d) implies sort.seen_set().contains(d) by {
                    if list_dep_ids(subs@.take(i as int)).contains(d) {
                        assert(before.seen_set().contains(d));
                    } else {
                        assert(dep_ids(subs@[i as int]).contains(d));
                    }
                }
            }
            i = i + 1;
        }
        proof {
            assert(subs@.take(subs@.len() as int) =~= subs@);
        }
    }
    // a reference under `not` is not a dependency for ordering purposes
    proof {
        assert(after_matches.seen_set().subset_of(after_all.seen_set()));
        assert(after_all.seen_set().subset_of(sort.seen_set()));
        assert forall|d: Seq<char>|
            #[trigger] dep_ids(*rule).contains(d) && sort.utils.contains_id(d) implies
            sort.seen_set().contains(d) by {
            let m_part = match rule.matches {
                Some(id) => Set::empty().insert(id@),
                None => Set::<Seq<char>>::empty(),
            };
            let a_part = match rule.all {
                Some(v) => list_dep_ids(v@),
                None => Set::<Seq<char>>::empty(),
            };
            let o_part = match rule.any {
                Some(v) => list_dep_ids(v@),
                None => Set::<Seq<char>>::empty(),
            };
            assert(dep_ids(*rule) == m_part.union(a_part).union(o_part));
            if m_part.contains(d) {
                assert(after_matches.seen_set().contains(d));
            } else if a_part.contains(d) {
                assert(after_all.seen_set().contains(d));
            } else {
                assert(o_part.contains(d));
            }
        }
    }
}

impl<'a> TopologicalSort<'a> {
    /// The dependency-respecting insertion order of a rule map: every id
    /// exactly once; when the reference graph is acyclic, every
    /// dependency strictly before its dependent.
    pub fn get_order(utils: &RuleMap) -> (order: Vec<String>)
        requires
            utils.wf(),
        ensures
            forall|i: int, j: int|
                0 <= i < j < order@.len() ==> (#[trigger] order@[i])@ != (#[trigger] order@[j])@,
            forall|i: int| 0 <= i < order@.len() ==> utils.contains_id((#[trigger] order@[i])@),
            forall|id: Seq<char>| utils.contains_id(id) ==> id_set(order@).contains(id),
            !has_cycle(*utils) ==> forall|i: int, d: Seq<char>|
                0 <= i < order@.len() && #[trigger] dep_ids(utils.rule_of(order@[i]@)).contains(d)
                    && utils.contains_id(d) ==> exists|j: int|
                    0 <= j < i && (#[trigger] order@[j])@ == d,
            topo_order_ok(*utils, view_seq(order@)),
    {
        let mut top_sort = TopologicalSort::new(utils);
        let mut i: usize = 0;
        while i < utils.entries.len()
            invariant
                i <= utils.entries@.len(),
                top_sort.utils == utils,
                utils.wf(),
                top_sort.dfs_ok(Set::empty()),
                forall|k: int|
                    0 <= k < i ==> top_sort.seen_set().contains(
                        (#[trigger] utils.entries@[k]).0@,
                    ),
            decreases utils.entries@.len() - i,
        {
            proof {
                assert(utils.contains_id(utils.entries@[i as int].0@));
            }
            top_sort.visit(&utils.entries[i].0, Ghost(Set::empty()));
            i = i + 1;
        }
        proof {
            assert(top_sort.seen_set() =~= top_sort.order_set());
            assert forall|id: Seq<char>| utils.contains_id(id) implies id_set(
                top_sort.order@,
            ).contains(id) by {
                let k = choose|k: int|
                    0 <= k < utils.entries@.len() && (#[trigger] utils.entries@[k]).0@ == id;
                assert(top_sort.seen_set().contains(utils.entries@[k].0@));
            }
        }
        proof {
            let ord = view_seq(top_sort.order@);
            assert forall|id: Seq<char>| #[trigger] utils.contains_id(id) implies ord.contains(
                id,
            ) by {
                let k = choose|k: int|
                    0 <= k < top_sort.order@.len() && (#[trigger] top_sort.order@[k])@ == id;
                assert(ord[k] == id);
            }
            if !has_cycle(*utils) {
                assert forall|i: int, d: Seq<char>|
                    0 <= i < ord.len() && #[trigger] dep_ids(utils.rule_of(ord[i])).contains(d)
                        && utils.contains_id(d) implies exists|j: int|
                    0 <= j < i && ord[j] == d by {
                    assert(ord[i] == top_sort.order@[i]@);
                    let j = choose|j: int|
                        0 <= j < i && (#[trigger] top_sort.order@[j])@ == d;
                    assert(ord[j] == d);
                }
            }
            assert(topo_order_ok(*utils, ord));
        }
        top_sort.order
    }
}

/// Whether a list of id strings holds `s`.
fn contains_str(v: &Vec<String>, s: &String) -> (r: bool)
    ensures
        r == id_set(v@).contains(s@),
{
    let mut i: usize = 0;
    while i < v.len()
        invariant
            i <= v@.len(),
            forall|k: int| 0 <= k < i ==> (#[trigger] v@[k])@ != s@,
        decreases v@.len() - i,
    {
        if crate::text::str_eq(v[i].as_str(), s.as_str()) {
            proof {
                assert(id_set(v@).contains(s@));
            }
            return true;
        }
        i = i + 1;
    }
    proof {
        if id_set(v@).contains(s@) {
            let k = choose|k: int| 0 <= k < v@.len() && (#[trigger] v@[k])@ == s@;
            assert(false);
        }
    }
    false
}

} // verus!
