//! Declarative rules over syntax nodes.
//!
//! A raw rule definition is a bundle of optional clauses, all of which
//! must hold: a kind test, a text test, an opaque compiled pattern, a
//! reference to another named rule, a conjunction, a disjunction, and a
//! negation. Compilation resolves every named reference to a slot in a
//! registry, so that a compiled rule never dangles.

use crate::strictness::MatchStrictness;
use vstd::prelude::*;

verus! {

/// An opaque compiled pattern: a terminal goal node (kind, text), the
/// fixed literal substring usable for cheap pre-filtering, and the
/// strictness level the pattern was compiled under.
pub struct Pattern {
    pub kind_id: u16,
    pub text: String,
    pub fixed: String,
    pub strictness: MatchStrictness,
}

impl Pattern {
    /// The literal (non-metavariable) portion of the pattern; empty when
    /// the pattern has no usable literal part.
    pub fn fixed_string(&self) -> (s: &String)
        ensures
            s == &self.fixed,
    {
        &self.fixed
    }

    /// An equal copy of the pattern.
    pub fn duplicate(&self) -> (r: Pattern)
        ensures
            r == *self,
    {
        Pattern {
            kind_id: self.kind_id,
            text: self.text.clone(),
            fixed: self.fixed.clone(),
            strictness: self.strictness,
        }
    }
}

/// A well-compiled pattern: its fixed literal portion occurs in its
/// goal text, so any text a node must carry to match the pattern also
/// carries the literal.
pub open spec fn pattern_valid(p: Pattern) -> bool {
    crate::text::spec_contains(p.text@, p.fixed@)
}

/// A raw rule definition, as a configuration file states it. Every
/// present clause must hold for the rule to match a node.
pub struct RuleDef {
    /// Matches nodes of this grammar kind.
    pub kind: Option<u16>,
    /// Matches nodes whose text contains this string.
    pub regex: Option<String>,
    /// Matches nodes agreeing with this compiled pattern.
    pub pattern: Option<Pattern>,
    /// Matches nodes matched by the named rule.
    pub matches: Option<String>,
    /// Matches nodes matched by every rule of the list.
    pub all: Option<Vec<RuleDef>>,
    /// Matches nodes matched by at least one rule of the list.
    pub any: Option<Vec<RuleDef>>,
    /// Matches nodes not matched by the inner rule.
    pub not: Option<Box<RuleDef>>,
}

/// The rule ids a definition depends on for ordering purposes: ids
/// referenced by `matches`, directly or inside `all`/`any` lists.
/// References inside `not` are deliberately not collected, mirroring
/// the resolver's dependency walk.
pub open spec fn dep_ids(r: RuleDef) -> Set<Seq<char>>
    decreases r,
{
    let m = match r.matches {
        Some(id) => Set::empty().insert(id@),
        None => Set::empty(),
    };
    let a = match r.all {
        Some(v) => list_dep_ids(v@),
        None => Set::empty(),
    };
    let o = match r.any {
        Some(v) => list_dep_ids(v@),
        None => Set::empty(),
    };
    m.union(a).union(o)
}

/// The union of the dependencies of a list of definitions.
pub open spec fn list_dep_ids(s: Seq<RuleDef>) -> Set<Seq<char>>
    decreases s,
{
    if s.len() == 0 {
        Set::empty()
    } else {
        list_dep_ids(s.drop_last()).union(dep_ids(s.last()))
    }
}

pub proof fn lemma_list_dep_ids_elem(s: Seq<RuleDef>, i: int)
    requires
        0 <= i < s.len(),
    ensures
        dep_ids(s[i]).subset_of(list_dep_ids(s)),
    decreases s.len(),
{
    if i == s.len() - 1 {
        assert(s.last() == s[i]);
    } else {
        lemma_list_dep_ids_elem(s.drop_last(), i);
        assert(s.drop_last()[i] == s[i]);
    }
}

/// A structural size measure used for termination of walks over a rule
/// definition.
pub open spec fn rule_size(r: RuleDef) -> nat
    decreases r,
{
    1 + (match r.all {
        Some(v) => list_size(v@),
        None => 0nat,
    }) + (match r.any {
        Some(v) => list_size(v@),
        None => 0nat,
    }) + (match r.not {
        Some(b) => rule_size(*b),
        None => 0nat,
    })
}

/// The combined size of a list of rule definitions.
pub open spec fn list_size(s: Seq<RuleDef>) -> nat
    decreases s,
{
    if s.len() == 0 {
        0
    } else {
        1 + rule_size(s.first()) + list_size(s.drop_first())
    }
}

pub proof fn lemma_list_size_elem(s: Seq<RuleDef>, i: int)
    requires
        0 <= i < s.len(),
    ensures
        rule_size(s[i]) < list_size(s),
    decreases s.len(),
{
    if i == 0 {
        assert(s.first() == s[0]);
    } else {
        lemma_list_size_elem(s.drop_first(), i - 1);
        assert(s.drop_first()[i - 1] == s[i]);
    }
}

/// A resolved reference into a rule registry: either a slot of the
/// configuration-local tier or a slot of the shared global tier.
#[derive(Clone, Copy, PartialEq, Eq, Structural)]
pub enum RuleRef {
    Local(usize),
    Global(usize),
}

/// A compiled rule: the same clause bundle as a raw definition, with
/// every named reference resolved to a registry slot.
pub struct CompiledRule {
    pub kind: Option<u16>,
    pub regex: Option<String>,
    pub pattern: Option<Pattern>,
    pub matches: Option<RuleRef>,
    pub all: Option<Vec<CompiledRule>>,
    pub any: Option<Vec<CompiledRule>>,
    pub not: Option<Box<CompiledRule>>,
}

/// Well-formedness of a compiled rule with respect to registry bounds:
/// local references point below `lb`, global references below `gb`.
/// Insertion order equals dependency order, so a registry slot only ever
/// refers to slots built before it.
pub open spec fn crule_wf(r: CompiledRule, lb: nat, gb: nat) -> bool
    decreases r,
{
    &&& match r.matches {
        Some(RuleRef::Local(i)) => (i as nat) < lb,
        Some(RuleRef::Global(j)) => (j as nat) < gb,
        None => true,
    }
    &&& match r.all {
        Some(v) => crules_wf(v@, lb, gb),
        None => true,
    }
    &&& match r.any {
        Some(v) => crules_wf(v@, lb, gb),
        None => true,
    }
    &&& match r.not {
        Some(b) => crule_wf(*b, lb, gb),
        None => true,
    }
}

/// Well-formedness of every compiled rule of a list.
pub open spec fn crules_wf(s: Seq<CompiledRule>, lb: nat, gb: nat) -> bool
    decreases s,
{
    s.len() == 0 || (crule_wf(s.last(), lb, gb) && crules_wf(s.drop_last(), lb, gb))
}

pub proof fn lemma_crules_wf_elem(s: Seq<CompiledRule>, lb: nat, gb: nat, i: int)
    requires
        crules_wf(s, lb, gb),
        0 <= i < s.len(),
    ensures
        crule_wf(s[i], lb, gb),
    decreases s.len(),
{
    if i == s.len() - 1 {
        assert(s.last() == s[i]);
    } else {
        lemma_crules_wf_elem(s.drop_last(), lb, gb, i);
        assert(s.drop_last()[i] == s[i]);
    }
}

/// A structural size measure used for termination of walks over a
/// compiled rule.
pub open spec fn crule_size(r: CompiledRule) -> nat
    decreases r,
{
    1 + (match r.all {
        Some(v) => crule_list_size(v@),
        None => 0nat,
    }) + (match r.any {
        Some(v) => crule_list_size(v@),
        None => 0nat,
    }) + (match r.not {
        Some(b) => crule_size(*b),
        None => 0nat,
    })
}

/// The combined size of a list of compiled rules.
pub open spec fn crule_list_size(s: Seq<CompiledRule>) -> nat
    decreases s,
{
    if s.len() == 0 {
        0
    } else {
        1 + crule_size(s.first()) + crule_list_size(s.drop_first())
    }
}

pub proof fn lemma_crule_list_size_elem(s: Seq<CompiledRule>, i: int)
    requires
        0 <= i < s.len(),
    ensures
        crule_size(s[i]) < crule_list_size(s),
    decreases s.len(),
{
    if i == 0 {
        assert(s.first() == s[0]);
    } else {
        lemma_crule_list_size_elem(s.drop_first(), i - 1);
        assert(s.drop_first()[i - 1] == s[i]);
    }
}

/// A structured rule-compilation failure.
pub enum RuleSerializeError {
    /// A `matches` clause names a rule found in neither the local nor
    /// the global registry.
    MatchesReference(String),
    /// A rule id was registered twice.
    DuplicateRule(String),
}

/// A structured rule-configuration failure.
pub enum RuleConfigError {
    Rule(RuleSerializeError),
}

/// The first position of `id` in a list of registered ids.
pub open spec fn find_id(ids: Seq<Seq<char>>, id: Seq<char>) -> Option<int>
    decreases ids.len(),
{
    if ids.len() == 0 {
        None
    } else if ids.first() == id {
        Some(0int)
    } else {
        match find_id(ids.drop_first(), id) {
            Some(i) => Some(i + 1),
            None => None,
        }
    }
}

pub proof fn lemma_find_id_props(ids: Seq<Seq<char>>, id: Seq<char>)
    ensures
        match find_id(ids, id) {
            Some(i) => 0 <= i < ids.len() && ids[i] == id,
            None => forall|k: int| 0 <= k < ids.len() ==> ids[k] != id,
        },
    decreases ids.len(),
{
    if ids.len() > 0 {
        lemma_find_id_props(ids.drop_first(), id);
        if ids.first() != id {
            match find_id(ids.drop_first(), id) {
                Some(i) => {
                    assert(ids.drop_first()[i] == ids[i + 1]);
                },
                None => {
                    assert forall|k: int| 0 <= k < ids.len() implies ids[k] != id by {
                        if k > 0 {
                            assert(ids.drop_first()[k - 1] == ids[k]);
                        }
                    }
                },
            }
        }
    }
}

/// Resolution of a named reference: the local tier is consulted first,
/// then the global tier.
pub open spec fn spec_resolve_id(lids: Seq<Seq<char>>, gids: Seq<Seq<char>>, id: Seq<char>) -> Option<
    RuleRef,
> {
    match find_id(lids, id) {
        Some(i) => Some(RuleRef::Local(i as usize)),
        None => match find_id(gids, id) {
            Some(j) => Some(RuleRef::Global(j as usize)),
            None => None,
        },
    }
}

/// Every named reference of `raw`, including those under `not`,
/// resolves against the given id lists.
pub open spec fn raw_resolvable(raw: RuleDef, lids: Seq<Seq<char>>, gids: Seq<Seq<char>>) -> bool
    decreases raw,
{
    &&& match raw.matches {
        Some(id) => spec_resolve_id(lids, gids, id@) is Some,
        None => true,
    }
    &&& match raw.all {
        Some(v) => raws_resolvable(v@, lids, gids),
        None => true,
    }
    &&& match raw.any {
        Some(v) => raws_resolvable(v@, lids, gids),
        None => true,
    }
    &&& match raw.not {
        Some(b) => raw_resolvable(*b, lids, gids),
        None => true,
    }
}

/// Every named reference of every definition of a list resolves.
pub open spec fn raws_resolvable(s: Seq<RuleDef>, lids: Seq<Seq<char>>, gids: Seq<Seq<char>>) -> bool
    decreases s,
{
    s.len() == 0 || (raw_resolvable(s.last(), lids, gids) && raws_resolvable(
        s.drop_last(),
        lids,
        gids,
    ))
}

/// The id of the first named reference of `raw` that does not resolve,
/// in compilation order: the `matches` clause, then the `all` list,
/// then the `any` list, then the `not` clause. This is the id a failed
/// compilation names.
pub open spec fn first_unresolved(raw: RuleDef, lids: Seq<Seq<char>>, gids: Seq<Seq<char>>) -> Option<
    Seq<char>,
>
    decreases raw,
{
    let m = match raw.matches {
        Some(id) => if spec_resolve_id(lids, gids, id@) is None {
            Some(id@)
        } else {
            None
        },
        None => None,
    };
    if m is Some {
        m
    } else {
        let a = match raw.all {
            Some(v) => list_first_unresolved(v@, lids, gids),
            None => None,
        };
        if a is Some {
            a
        } else {
            let o = match raw.any {
                Some(v) => list_first_unresolved(v@, lids, gids),
                None => None,
            };
            if o is Some {
                o
            } else {
                match raw.not {
                    Some(b) => first_unresolved(*b, lids, gids),
                    None => None,
                }
            }
        }
    }
}

/// The first unresolvable reference of a list of definitions.
pub open spec fn list_first_unresolved(
    s: Seq<RuleDef>,
    lids: Seq<Seq<char>>,
    gids: Seq<Seq<char>>,
) -> Option<Seq<char>>
    decreases s,
{
    if s.len() == 0 {
        None
    } else {
        let f = first_unresolved(s.first(), lids, gids);
        if f is Some {
            f
        } else {
            list_first_unresolved(s.drop_first(), lids, gids)
        }
    }
}

pub proof fn lemma_raws_resolvable_index(s: Seq<RuleDef>, lids: Seq<Seq<char>>, gids: Seq<Seq<char>>)
    ensures
        raws_resolvable(s, lids, gids) <==> forall|i: int|
            0 <= i < s.len() ==> raw_resolvable(#[trigger] s[i], lids, gids),
    decreases s.len(),
{
    if s.len() > 0 {
        lemma_raws_resolvable_index(s.drop_last(), lids, gids);
        assert(s.last() == s[s.len() - 1]);
        assert forall|i: int| 0 <= i < s.drop_last().len() implies s.drop_last()[i] == s[i] by {}
        if raws_resolvable(s, lids, gids) {
            assert forall|i: int| 0 <= i < s.len() implies raw_resolvable(
                #[trigger] s[i],
                lids,
                gids,
            ) by {
                if i < s.len() - 1 {
                    assert(s.drop_last()[i] == s[i]);
                }
            }
        }
    }
}

/// A definition is resolvable exactly when it has no first unresolvable
/// reference.
pub proof fn lemma_resolvable_iff_no_unresolved(raw: RuleDef, lids: Seq<Seq<char>>, gids: Seq<
    Seq<char>,
>)
    ensures
        raw_resolvable(raw, lids, gids) <==> first_unresolved(raw, lids, gids) is None,
    decreases raw,
{
    match raw.all {
        Some(v) => {
            lemma_list_resolvable_iff_no_unresolved(v@, lids, gids);
        },
        None => {},
    }
    match raw.any {
        Some(v) => {
            lemma_list_resolvable_iff_no_unresolved(v@, lids, gids);
        },
        None => {},
    }
    match raw.not {
        Some(b) => {
            lemma_resolvable_iff_no_unresolved(*b, lids, gids);
        },
        None => {},
    }
}

pub proof fn lemma_list_resolvable_iff_no_unresolved(
    s: Seq<RuleDef>,
    lids: Seq<Seq<char>>,
    gids: Seq<Seq<char>>,
)
    ensures
        raws_resolvable(s, lids, gids) <==> list_first_unresolved(s, lids, gids) is None,
    decreases s,
{
    lemma_raws_resolvable_index(s, lids, gids);
    if s.len() > 0 {
        lemma_resolvable_iff_no_unresolved(s.first(), lids, gids);
        lemma_list_resolvable_iff_no_unresolved(s.drop_first(), lids, gids);
        lemma_raws_resolvable_index(s.drop_first(), lids, gids);
        assert(s.first() == s[0]);
        assert forall|i: int| 0 <= i < s.drop_first().len() implies s.drop_first()[i] == s[i
            + 1] by {}
        if raws_resolvable(s, lids, gids) {
            assert forall|i: int| 0 <= i < s.drop_first().len() implies raw_resolvable(
                #[trigger] s.drop_first()[i],
                lids,
                gids,
            ) by {
                assert(s.drop_first()[i] == s[i + 1]);
            }
        }
        if list_first_unresolved(s, lids, gids) is None {
            assert forall|i: int| 0 <= i < s.len() implies raw_resolvable(
                #[trigger] s[i],
                lids,
                gids,
            ) by {
                if i == 0 {
                } else {
                    assert(s.drop_first()[i - 1] == s[i]);
                }
            }
        }
    }
}

/// When a prefix of the list resolves and element `i` does not, the
/// list's first unresolvable reference is element `i`'s.
pub proof fn lemma_list_first_unresolved_at(
    s: Seq<RuleDef>,
    lids: Seq<Seq<char>>,
    gids: Seq<Seq<char>>,
    i: int,
)
    requires
        0 <= i < s.len(),
        forall|k: int| 0 <= k < i ==> raw_resolvable(#[trigger] s[k], lids, gids),
        first_unresolved(s[i], lids, gids) is Some,
    ensures
        list_first_unresolved(s, lids, gids) == first_unresolved(s[i], lids, gids),
    decreases s.len(),
{
    assert(s.first() == s[0]);
    if i == 0 {
    } else {
        lemma_resolvable_iff_no_unresolved(s.first(), lids, gids);
        assert forall|k: int| 0 <= k < i - 1 implies raw_resolvable(
            #[trigger] s.drop_first()[k],
            lids,
            gids,
        ) by {
            assert(s.drop_first()[k] == s[k + 1]);
        }
        assert(s.drop_first()[i - 1] == s[i]);
        lemma_list_first_unresolved_at(s.drop_first(), lids, gids, i - 1);
    }
}

/// The compilation relation: `out` is the compiled form of `raw` with
/// every named reference resolved against the given id lists.
pub open spec fn compiles_to(
    raw: RuleDef,
    lids: Seq<Seq<char>>,
    gids: Seq<Seq<char>>,
    out: CompiledRule,
) -> bool
    decreases raw,
{
    &&& out.kind == raw.kind
    &&& match (raw.regex, out.regex) {
        (None, None) => true,
        (Some(a), Some(b)) => a@ == b@,
        _ => false,
    }
    &&& match (raw.pattern, out.pattern) {
        (None, None) => true,
        (Some(p), Some(q)) => p == q,
        _ => false,
    }
    &&& match raw.matches {
        None => out.matches is None,
        Some(id) => spec_resolve_id(lids, gids, id@) is Some && out.matches == spec_resolve_id(
            lids,
            gids,
            id@,
        ),
    }
    &&& match (raw.all, out.all) {
        (None, None) => true,
        (Some(rv), Some(ov)) => list_compiles_to(rv@, lids, gids, ov@),
        _ => false,
    }
    &&& match (raw.any, out.any) {
        (None, None) => true,
        (Some(rv), Some(ov)) => list_compiles_to(rv@, lids, gids, ov@),
        _ => false,
    }
    &&& match (raw.not, out.not) {
        (None, None) => true,
        (Some(b1), Some(b2)) => compiles_to(*b1, lids, gids, *b2),
        _ => false,
    }
}

/// Element-wise compilation of a list of definitions.
pub open spec fn list_compiles_to(
    raws: Seq<RuleDef>,
    lids: Seq<Seq<char>>,
    gids: Seq<Seq<char>>,
    outs: Seq<CompiledRule>,
) -> bool
    decreases raws,
{
    &&& raws.len() == outs.len()
    &&& (raws.len() == 0 || (compiles_to(raws.last(), lids, gids, outs.last()) && list_compiles_to(
        raws.drop_last(),
        lids,
        gids,
        outs.drop_last(),
    )))
}

} // verus!
