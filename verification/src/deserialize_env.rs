//! Rule registration.
//!
//! Compiled rules live in a two-tier registry: a shared set of global
//! rules built once per session, and a set of local rules scoped to one
//! configuration. Registration happens in dependency order, so a
//! registered rule only ever refers to rules registered before it, and
//! each id is registered exactly once.

use crate::resolver::{has_cycle, topo_order_ok, view_seq, RuleMap, TopologicalSort};
use crate::rule::{compiles_to, crule_wf, crules_wf, dep_ids, find_id, first_unresolved,
    lemma_find_id_props, lemma_list_first_unresolved_at, lemma_list_resolvable_iff_no_unresolved,
    lemma_raws_resolvable_index, lemma_resolvable_iff_no_unresolved, list_compiles_to,
    list_dep_ids, list_first_unresolved, raw_resolvable, raws_resolvable, spec_resolve_id,
    CompiledRule, RuleConfigError, RuleDef, RuleRef, RuleSerializeError};
use vstd::prelude::*;

verus! {

/// The id views of a list of registered rules.
pub open spec fn ids_of<T>(s: Seq<(String, T)>) -> Seq<Seq<char>> {
    s.map_values(|p: (String, T)| p.0@)
}

/// A definition with no named reference anywhere.
pub open spec fn no_refs(r: RuleDef) -> bool
    decreases r,
{
    &&& r.matches is None
    &&& match r.all {
        Some(v) => list_no_refs(v@),
        None => true,
    }
    &&& match r.any {
        Some(v) => list_no_refs(v@),
        None => true,
    }
    &&& match r.not {
        Some(b) => no_refs(*b),
        None => true,
    }
}

/// Every definition of a list has no named reference anywhere.
pub open spec fn list_no_refs(s: Seq<RuleDef>) -> bool
    decreases s,
{
    s.len() == 0 || (no_refs(s.last()) && list_no_refs(s.drop_last()))
}

/// Every `not` clause anywhere in the definition is reference-free; the
/// ordering dependencies are then exactly the references the compiler
/// will try to resolve.
pub open spec fn not_clauses_ref_free(r: RuleDef) -> bool
    decreases r,
{
    &&& match r.not {
        Some(b) => no_refs(*b),
        None => true,
    }
    &&& match r.all {
        Some(v) => list_not_clauses_ref_free(v@),
        None => true,
    }
    &&& match r.any {
        Some(v) => list_not_clauses_ref_free(v@),
        None => true,
    }
}

/// Every `not` clause of every definition of a list is reference-free.
pub open spec fn list_not_clauses_ref_free(s: Seq<RuleDef>) -> bool
    decreases s,
{
    s.len() == 0 || (not_clauses_ref_free(s.last()) && list_not_clauses_ref_free(s.drop_last()))
}

proof fn lemma_no_refs_resolvable(r: RuleDef, lids: Seq<Seq<char>>, gids: Seq<Seq<char>>)
    requires
        no_refs(r),
    ensures
        raw_resolvable(r, lids, gids),
    decreases r,
{
    match &r.all {
        Some(v) => {
            lemma_list_no_refs_resolvable(v@, lids, gids);
        },
        None => {},
    }
    match &r.any {
        Some(v) => {
            lemma_list_no_refs_resolvable(v@, lids, gids);
        },
        None => {},
    }
    match &r.not {
        Some(b) => {
            lemma_no_refs_resolvable(**b, lids, gids);
        },
        None => {},
    }
}

proof fn lemma_list_no_refs_resolvable(s: Seq<RuleDef>, lids: Seq<Seq<char>>, gids: Seq<Seq<char>>)
    requires
        list_no_refs(s),
    ensures
        raws_resolvable(s, lids, gids),
    decreases s,
{
    if s.len() > 0 {
        lemma_no_refs_resolvable(s.last(), lids, gids);
        lemma_list_no_refs_resolvable(s.drop_last(), lids, gids);
    }
}

proof fn lemma_find_id_first(ids: Seq<Seq<char>>, id: Seq<char>, k: int)
    requires
        0 <= k < ids.len(),
        ids[k] == id,
        forall|j: int| 0 <= j < k ==> ids[j] != id,
    ensures
        find_id(ids, id) == Some(k),
    decreases ids.len(),
{
    if k == 0 {
    } else {
        assert(ids.first() != id);
        lemma_find_id_first(ids.drop_first(), id, k - 1);
        assert forall|j: int| 0 <= j < k - 1 implies ids.drop_first()[j] != id by {
            assert(ids.drop_first()[j] == ids[j + 1]);
        }
        assert(ids.drop_first()[k - 1] == ids[k]);
    }
}

proof fn lemma_find_id_some(ids: Seq<Seq<char>>, id: Seq<char>, k: int)
    requires
        0 <= k < ids.len(),
        ids[k] == id,
    ensures
        find_id(ids, id) is Some,
{
    lemma_find_id_props(ids, id);
}

/// The owed-success core of registration: a definition whose `not`
/// clauses are reference-free and whose ordering dependencies all
/// resolve compiles successfully.
proof fn lemma_resolvable_of_deps(raw: RuleDef, lids: Seq<Seq<char>>, gids: Seq<Seq<char>>)
    requires
        not_clauses_ref_free(raw),
        forall|d: Seq<char>| #[trigger]
            dep_ids(raw).contains(d) ==> find_id(lids, d) is Some || find_id(gids, d) is Some,
    ensures
        raw_resolvable(raw, lids, gids),
    decreases raw,
{
    match raw.matches {
        Some(id) => {
            assert(dep_ids(raw).contains(id@));
        },
        None => {},
    }
    match raw.all {
        Some(v) => {
            assert(list_dep_ids(v@).subset_of(dep_ids(raw)));
            lemma_list_resolvable_of_deps(v@, lids, gids);
        },
        None => {},
    }
    match raw.any {
        Some(v) => {
            assert(list_dep_ids(v@).subset_of(dep_ids(raw)));
            lemma_list_resolvable_of_deps(v@, lids, gids);
        },
        None => {},
    }
    match &raw.not {
        Some(b) => {
            lemma_no_refs_resolvable(**b, lids, gids);
        },
        None => {},
    }
}

proof fn lemma_list_resolvable_of_deps(s: Seq<RuleDef>, lids: Seq<Seq<char>>, gids: Seq<Seq<char>>)
    requires
        list_not_clauses_ref_free(s),
        forall|d: Seq<char>| #[trigger]
            list_dep_ids(s).contains(d) ==> find_id(lids, d) is Some || find_id(gids, d) is Some,
    ensures
        raws_resolvable(s, lids, gids),
    decreases s,
{
    if s.len() > 0 {
        assert(dep_ids(s.last()).subset_of(list_dep_ids(s)));
        assert(list_dep_ids(s.drop_last()).subset_of(list_dep_ids(s)));
        lemma_resolvable_of_deps(s.last(), lids, gids);
        lemma_list_resolvable_of_deps(s.drop_last(), lids, gids);
    }
}

/// Finds the first slot registered under `id`.
fn find_in<T>(v: &Vec<(String, T)>, id: &String) -> (r: Option<usize>)
    ensures
        match r {
            Some(i) => find_id(ids_of(v@), id@) == Some(i as int),
            None => find_id(ids_of(v@), id@) is None,
        },
{
    let mut i: usize = 0;
    while i < v.len()
        invariant
            i <= v@.len(),
            forall|k: int| 0 <= k < i ==> ids_of(v@)[k] != id@,
        decreases v@.len() - i,
    {
        if crate::text::str_eq(v[i].0.as_str(), id.as_str()) {
            proof {
                lemma_find_id_first(ids_of(v@), id@, i as int);
            }
            return Some(i);
        }
        i = i + 1;
    }
    proof {
        lemma_find_id_props(ids_of(v@), id@);
        if find_id(ids_of(v@), id@) is Some {
            let w = choose|w: int| find_id(ids_of(v@), id@) == Some(w);
        }
    }
    None
}

/// The session-wide registry of named rules shared across all files and
/// languages. Each slot only refers to slots before it.
pub struct GlobalRules {
    pub rules: Vec<(String, CompiledRule)>,
}

impl GlobalRules {
    /// The registered ids, in registration order.
    pub open spec fn ids(&self) -> Seq<Seq<char>> {
        ids_of(self.rules@)
    }

    /// Ids are distinct and every slot refers only to earlier slots.
    pub open spec fn wf(&self) -> bool {
        &&& forall|i: int, j: int| 0 <= i < j < self.ids().len() ==> self.ids()[i] != self.ids()[j]
        &&& forall|j: int|
            0 <= j < self.rules@.len() ==> crule_wf((#[trigger] self.rules@[j]).1, 0, j as nat)
    }

    /// Registers a rule under a fresh id; a reused id is refused.
    pub fn insert(&mut self, id: &String, rule: CompiledRule) -> (r: Result<(), RuleSerializeError>)
        requires
            old(self).wf(),
            crule_wf(rule, 0, old(self).rules@.len() as nat),
        ensures
            match r {
                Ok(()) => find_id(old(self).ids(), id@) is None && final(self).rules@ == old(
                    self,
                ).rules@.push((*id, rule)) && final(self).wf(),
                Err(e) => *final(self) == *old(self) && find_id(old(self).ids(), id@) is Some && e
                    == RuleSerializeError::DuplicateRule(*id),
            },
    {
        match find_in(&self.rules, id) {
            Some(_) => Err(RuleSerializeError::DuplicateRule(id.clone())),
            None => {
                proof {
                    lemma_find_id_props(self.ids(), id@);
                }
                let ghost pre = *self;
                self.rules.push((id.clone(), rule));
                proof {
                    assert(self.rules@ =~= pre.rules@.push((*id, rule)));
                    assert forall|i: int, j: int| 0 <= i < j < self.ids().len() implies self.ids()[i]
                        != self.ids()[j] by {
                        if j < pre.ids().len() {
                            assert(self.ids()[i] == pre.ids()[i] && self.ids()[j] == pre.ids()[j]);
                        } else {
                            assert(self.ids()[j] == id@ && self.ids()[i] == pre.ids()[i]);
                        }
                    }
                    assert forall|j: int| 0 <= j < self.rules@.len() implies crule_wf(
                        (#[trigger] self.rules@[j]).1,
                        0,
                        j as nat,
                    ) by {
                        if j < pre.rules@.len() {
                            assert(self.rules@[j] == pre.rules@[j]);
                        } else {
                            assert(self.rules@[j].1 == rule);
                        }
                    }
                }
                Ok(())
            },
        }
    }
}

impl Default for GlobalRules {
    /// An empty global registry.
    fn default() -> (r: GlobalRules)
        ensures
            r.rules@.len() == 0,
            r.wf(),
    {
        GlobalRules { rules: Vec::new() }
    }
}

/// The two-tier registry a configuration compiles against: the shared
/// global rules and the configuration's own local rules.
pub struct RuleRegistration {
    pub globals: GlobalRules,
    pub locals: Vec<(String, CompiledRule)>,
}

impl RuleRegistration {
    /// The local ids, in registration order.
    pub open spec fn lids(&self) -> Seq<Seq<char>> {
        ids_of(self.locals@)
    }

    /// The global ids, in registration order.
    pub open spec fn gids(&self) -> Seq<Seq<char>> {
        self.globals.ids()
    }

    /// Both tiers are well formed and every local slot refers only to
    /// earlier local slots or to global slots.
    pub open spec fn wf(&self) -> bool {
        &&& self.globals.wf()
        &&& forall|i: int, j: int| 0 <= i < j < self.lids().len() ==> self.lids()[i] != self.lids()[j]
        &&& forall|i: int|
            0 <= i < self.locals@.len() ==> crule_wf(
                (#[trigger] self.locals@[i]).1,
                i as nat,
                self.gids().len() as nat,
            )
    }

    /// A registry over the given globals, with no local rules yet.
    pub fn from_globals(globals: GlobalRules) -> (r: RuleRegistration)
        ensures
            r.globals == globals,
            r.locals@.len() == 0,
            globals.wf() ==> r.wf(),
    {
        RuleRegistration { globals, locals: Vec::new() }
    }

    /// Registers a local rule under a fresh id; a reused id is refused.
    pub fn insert_local(&mut self, id: &String, rule: CompiledRule) -> (r: Result<
        (),
        RuleSerializeError,
    >)
        requires
            old(self).wf(),
            crule_wf(rule, old(self).locals@.len() as nat, old(self).gids().len() as nat),
        ensures
            final(self).globals == old(self).globals,
            match r {
                Ok(()) => find_id(old(self).lids(), id@) is None && final(self).locals@ == old(
                    self,
                ).locals@.push((*id, rule)) && final(self).wf(),
                Err(e) => *final(self) == *old(self) && find_id(old(self).lids(), id@) is Some && e
                    == RuleSerializeError::DuplicateRule(*id),
            },
    {
        match find_in(&self.locals, id) {
            Some(_) => Err(RuleSerializeError::DuplicateRule(id.clone())),
            None => {
                proof {
                    lemma_find_id_props(self.lids(), id@);
                }
                let ghost pre = *self;
                self.locals.push((id.clone(), rule));
                proof {
                    assert(self.locals@ =~= pre.locals@.push((*id, rule)));
                    assert forall|i: int, j: int| 0 <= i < j < self.lids().len() implies self.lids()[i]
                        != self.lids()[j] by {
                        if j < pre.lids().len() {
                            assert(self.lids()[i] == pre.lids()[i] && self.lids()[j] == pre.lids()[j]);
                        } else {
                            assert(self.lids()[j] == id@ && self.lids()[i] == pre.lids()[i]);
                        }
                    }
                    assert forall|i: int| 0 <= i < self.locals@.len() implies crule_wf(
                        (#[trigger] self.locals@[i]).1,
                        i as nat,
                        self.gids().len() as nat,
                    ) by {
                        if i < pre.locals@.len() {
                            assert(self.locals@[i] == pre.locals@[i]);
                        } else {
                            assert(self.locals@[i].1 == rule);
                        }
                    }
                }
                Ok(())
            },
        }
    }
}

/// Resolves a named reference: the local tier first, then the globals.
fn resolve_ref(reg: &RuleRegistration, id: &String) -> (r: Option<RuleRef>)
    ensures
        r == spec_resolve_id(reg.lids(), reg.gids(), id@),
{
    match find_in(&reg.locals, id) {
        Some(i) => Some(RuleRef::Local(i)),
        None => match find_in(&reg.globals.rules, id) {
            Some(j) => Some(RuleRef::Global(j)),
            None => None,
        },
    }
}

/// Compiles a raw definition against a registry, resolving every named
/// reference; an unresolvable reference fails the compilation of this
/// rule alone.
pub fn compile_rule(raw: &RuleDef, reg: &RuleRegistration) -> (r: Result<
    CompiledRule,
    RuleSerializeError,
>)
    ensures
        r is Ok <==> raw_resolvable(*raw, reg.lids(), reg.gids()),
        r matches Ok(c) ==> compiles_to(*raw, reg.lids(), reg.gids(), c) && crule_wf(
            c,
            reg.lids().len() as nat,
            reg.gids().len() as nat,
        ),
        r matches Err(e) ==> e matches RuleSerializeError::MatchesReference(mid) && Some(mid@)
            == first_unresolved(*raw, reg.lids(), reg.gids()),
    decreases crate::rule::rule_size(*raw),
{
    let matches: Option<RuleRef> = match &raw.matches {
        Some(id) => {
            match resolve_ref(reg, id) {
                Some(rr) => {
                    proof {
                        match spec_resolve_id(reg.lids(), reg.gids(), id@) {
                            Some(RuleRef::Local(i)) => {
                                lemma_find_id_props(reg.lids(), id@);
                            },
                            Some(RuleRef::Global(j)) => {
                                lemma_find_id_props(reg.gids(), id@);
                            },
                            None => {},
                        }
                    }
                    Some(rr)
                },
                None => {
                    proof {
                        assert(first_unresolved(*raw, reg.lids(), reg.gids()) == Some(id@));
                    }
                    return Err(RuleSerializeError::MatchesReference(id.clone()));
                },
            }
        },
        None => None,
    };
    let all: Option<Vec<CompiledRule>> = match &raw.all {
        Some(subs) => match compile_list(subs, reg) {
            Ok(v) => Some(v),
            Err(e) => {
                proof {
                    assert(first_unresolved(*raw, reg.lids(), reg.gids())
                        == list_first_unresolved(subs@, reg.lids(), reg.gids()));
                }
                return Err(e);
            },
        },
        None => None,
    };
    let any: Option<Vec<CompiledRule>> = match &raw.any {
        Some(subs) => match compile_list(subs, reg) {
            Ok(v) => Some(v),
            Err(e) => {
                proof {
                    match &raw.all {
                        Some(av) => {
                            lemma_list_resolvable_iff_no_unresolved(av@, reg.lids(), reg.gids());
                        },
                        None => {},
                    }
                    assert(first_unresolved(*raw, reg.lids(), reg.gids())
                        == list_first_unresolved(subs@, reg.lids(), reg.gids()));
                }
                return Err(e);
            },
        },
        None => None,
    };
    let not: Option<Box<CompiledRule>> = match &raw.not {
        Some(b) => match compile_rule(&**b, reg) {
            Ok(c) => Some(Box::new(c)),
            Err(e) => {
                proof {
                    match &raw.all {
                        Some(av) => {
                            lemma_list_resolvable_iff_no_unresolved(av@, reg.lids(), reg.gids());
                        },
                        None => {},
                    }
                    match &raw.any {
                        Some(ov) => {
                            lemma_list_resolvable_iff_no_unresolved(ov@, reg.lids(), reg.gids());
                        },
                        None => {},
                    }
                    assert(first_unresolved(*raw, reg.lids(), reg.gids()) == first_unresolved(
                        **b,
                        reg.lids(),
                        reg.gids(),
                    ));
                }
                return Err(e);
            },
        },
        None => None,
    };
    let regex: Option<String> = match &raw.regex {
        Some(s) => Some(s.clone()),
        None => None,
    };
    let pattern = match &raw.pattern {
        Some(p) => Some(p.duplicate()),
        None => None,
    };
    Ok(CompiledRule { kind: raw.kind, regex, pattern, matches, all, any, not })
}

/// Compiles a raw definition in an environment: every named reference
/// is resolved against the environment's registration.
pub fn deserialize_rule(raw: &RuleDef, env: &DeserializeEnv) -> (r: Result<
    CompiledRule,
    RuleSerializeError,
>)
    ensures
        r is Ok <==> raw_resolvable(*raw, env.registration.lids(), env.registration.gids()),
        r matches Ok(c) ==> compiles_to(*raw, env.registration.lids(), env.registration.gids(), c)
            && crule_wf(
            c,
            env.registration.lids().len() as nat,
            env.registration.gids().len() as nat,
        ),
        r matches Err(e) ==> e matches RuleSerializeError::MatchesReference(mid) && Some(mid@)
            == first_unresolved(*raw, env.registration.lids(), env.registration.gids()),
{
    compile_rule(raw, &env.registration)
}

/// Compiles every definition of a list.
fn compile_list(subs: &Vec<RuleDef>, reg: &RuleRegistration) -> (r: Result<
    Vec<CompiledRule>,
    RuleSerializeError,
>)
    ensures
        r is Ok <==> raws_resolvable(subs@, reg.lids(), reg.gids()),
        r matches Ok(v) ==> list_compiles_to(subs@, reg.lids(), reg.gids(), v@) && crules_wf(
            v@,
            reg.lids().len() as nat,
            reg.gids().len() as nat,
        ),
        r matches Err(e) ==> e matches RuleSerializeError::MatchesReference(mid) && Some(mid@)
            == list_first_unresolved(subs@, reg.lids(), reg.gids()),
    decreases crate::rule::list_size(subs@),
{
    let mut out: Vec<CompiledRule> = Vec::new();
    let mut i: usize = 0;
    while i < subs.len()
        invariant
            i <= subs@.len(),
            out@.len() == i,
            raws_resolvable(subs@.take(i as int), reg.lids(), reg.gids()),
            list_compiles_to(subs@.take(i as int), reg.lids(), reg.gids(), out@),
            crules_wf(out@, reg.lids().len() as nat, reg.gids().len() as nat),
        decreases subs@.len() - i,
    {
        proof {
            crate::rule::lemma_list_size_elem(subs@, i as int);
        }
        match compile_rule(&subs[i], reg) {
            Ok(c) => {
                let ghost pre = out@;
                out.push(c);
                proof {
                    assert(subs@.take(i + 1).drop_last() =~= subs@.take(i as int));
                    assert(subs@.take(i + 1).last() == subs@[i as int]);
                    assert(out@.drop_last() =~= pre);
                }
            },
            Err(e) => {
                proof {
                    if raws_resolvable(subs@, reg.lids(), reg.gids()) {
                        lemma_raws_resolvable_elem(subs@, reg.lids(), reg.gids(), i as int);
                    }
                    lemma_raws_resolvable_index(
                        subs@.take(i as int),
                        reg.lids(),
                        reg.gids(),
                    );
                    assert forall|k: int| 0 <= k < i implies raw_resolvable(
                        #[trigger] subs@[k],
                        reg.lids(),
                        reg.gids(),
                    ) by {
                        assert(subs@.take(i as int)[k] == subs@[k]);
                    }
                    lemma_resolvable_iff_no_unresolved(subs@[i as int], reg.lids(), reg.gids());
                    lemma_list_first_unresolved_at(subs@, reg.lids(), reg.gids(), i as int);
                }
                return Err(e);
            },
        }
        i = i + 1;
    }
    proof {
        assert(subs@.take(subs@.len() as int) =~= subs@);
    }
    Ok(out)
}

proof fn lemma_raws_resolvable_elem(s: Seq<RuleDef>, lids: Seq<Seq<char>>, gids: Seq<Seq<char>>, i: int)
    requires
        0 <= i < s.len(),
        raws_resolvable(s, lids, gids),
    ensures
        raw_resolvable(s[i], lids, gids),
    decreases s.len(),
{
    if i == s.len() - 1 {
        assert(s.last() == s[i]);
    } else {
        lemma_raws_resolvable_elem(s.drop_last(), lids, gids, i);
        assert(s.drop_last()[i] == s[i]);
    }
}

/// A named rule core: an id and the definition registered under it.
pub struct RuleCoreDef {
    pub id: String,
    pub rule: RuleDef,
}

/// The id views of a list of rule cores, in order.
pub open spec fn core_ids(s: Seq<RuleCoreDef>) -> Seq<Seq<char>> {
    s.map_values(|c: RuleCoreDef| c.id@)
}

/// Step `i` of global registration succeeds: the entry's references
/// resolve against the entries before it and its id is fresh.
pub open spec fn global_step_ok(utils: Seq<RuleCoreDef>, i: int) -> bool {
    &&& raw_resolvable(utils[i].rule, Seq::empty(), core_ids(utils).take(i))
    &&& find_id(core_ids(utils).take(i), utils[i].id@) is None
}

/// The condition a failed global registration reports for its first
/// failing entry: an unresolvable reference is named, and a reused id
/// is named.
pub open spec fn global_err_names(utils: Seq<RuleCoreDef>, i: int, e: RuleSerializeError) -> bool {
    if !raw_resolvable(utils[i].rule, Seq::empty(), core_ids(utils).take(i)) {
        e matches RuleSerializeError::MatchesReference(mid) && Some(mid@) == first_unresolved(
            utils[i].rule,
            Seq::empty(),
            core_ids(utils).take(i),
        )
    } else {
        e matches RuleSerializeError::DuplicateRule(did) && did@ == utils[i].id@
    }
}

/// The environment a configuration's rules are compiled in: the registry
/// and the language the configuration applies to.
pub struct DeserializeEnv {
    pub registration: RuleRegistration,
    pub lang: u32,
}

impl DeserializeEnv {
    /// A fresh environment for `lang` with empty registries.
    pub fn new(lang: u32) -> (r: DeserializeEnv)
        ensures
            r.lang == lang,
            r.registration.wf(),
            r.registration.locals@.len() == 0,
            r.registration.globals.rules@.len() == 0,
    {
        DeserializeEnv {
            registration: RuleRegistration { globals: GlobalRules { rules: Vec::new() }, locals: Vec::new() },
            lang,
        }
    }

    /// Registers every definition of `utils` as a local rule, in
    /// dependency order, compiling each against the rules registered
    /// before it. Registration fails exactly by propagating the first
    /// rule whose compilation fails, naming its first unresolvable
    /// reference. When the reference graph is acyclic, every `not`
    /// clause is reference-free, and every ordering dependency names a
    /// rule of `utils` or a global rule, success is owed.
    #[verifier::loop_isolation(false)]
    pub fn register_local_utils(self, utils: &RuleMap) -> (r: Result<
        DeserializeEnv,
        RuleSerializeError,
    >)
        requires
            utils.wf(),
            self.registration.wf(),
            self.registration.locals@.len() == 0,
        ensures
            r matches Ok(env) ==> {
                &&& env.lang == self.lang
                &&& env.registration.globals == self.registration.globals
                &&& env.registration.wf()
                &&& forall|id: Seq<char>|
                    #[trigger] utils.contains_id(id) ==> find_id(
                        env.registration.lids(),
                        id,
                    ) is Some
                &&& forall|id: Seq<char>|
                    #[trigger] find_id(env.registration.lids(), id) is Some
                        ==> utils.contains_id(id)
                &&& forall|i: int|
                    0 <= i < env.registration.locals@.len() ==> utils.contains_id(
                        #[trigger] env.registration.lids()[i],
                    ) && compiles_to(
                        utils.rule_of(env.registration.lids()[i]),
                        env.registration.lids().take(i),
                        env.registration.gids(),
                        env.registration.locals@[i].1,
                    )
            },
            (!has_cycle(*utils) && (forall|k: int|
                0 <= k < utils.entries@.len() ==> not_clauses_ref_free(
                    (#[trigger] utils.entries@[k]).1,
                ) && (forall|d: Seq<char>|
                    #[trigger] dep_ids(utils.entries@[k].1).contains(d) ==> utils.contains_id(d)
                        || find_id(self.registration.gids(), d) is Some))) ==> r is Ok,
            r matches Err(e) ==> e matches RuleSerializeError::MatchesReference(mid)
                && exists|ord: Seq<Seq<char>>|
                #[trigger] topo_order_ok(*utils, ord) && (exists|i: int|
                    0 <= i < ord.len() && (forall|k: int|
                        0 <= k < i ==> raw_resolvable(
                            utils.rule_of(#[trigger] ord[k]),
                            ord.take(k),
                            self.registration.gids(),
                        )) && !raw_resolvable(
                        utils.rule_of(#[trigger] ord[i]),
                        ord.take(i),
                        self.registration.gids(),
                    ) && Some(mid@) == first_unresolved(
                        utils.rule_of(ord[i]),
                        ord.take(i),
                        self.registration.gids(),
                    )),
    {
        let ghost g0 = self.registration.gids();
        let ghost globals0 = self.registration.globals;
        let ghost hyp = !has_cycle(*utils) && (forall|k: int|
            0 <= k < utils.entries@.len() ==> not_clauses_ref_free(
                (#[trigger] utils.entries@[k]).1,
            ) && (forall|d: Seq<char>|
                #[trigger] dep_ids(utils.entries@[k].1).contains(d) ==> utils.contains_id(d)
                    || find_id(g0, d) is Some));
        let order = TopologicalSort::get_order(utils);
        let DeserializeEnv { registration: mut reg, lang } = self;
        let mut i: usize = 0;
        while i < order.len()
            invariant
                i <= order@.len(),
                reg.wf(),
                reg.globals == globals0,
                reg.gids() == g0,
                reg.locals@.len() == i,
                forall|k: int| 0 <= k < i ==> reg.lids()[k] == (#[trigger] order@[k])@,
                forall|k: int|
                    0 <= k < i ==> utils.contains_id(#[trigger] reg.lids()[k]) && compiles_to(
                        utils.rule_of(reg.lids()[k]),
                        reg.lids().take(k),
                        reg.gids(),
                        reg.locals@[k].1,
                    ) && raw_resolvable(
                        utils.rule_of(reg.lids()[k]),
                        reg.lids().take(k),
                        reg.gids(),
                    ),
            decreases order@.len() - i,
        {
            let id = &order[i];
            let rule = match utils.get(id) {
                Some(rl) => rl,
                None => {
                    proof {
                        assert(utils.contains_id(order@[i as int]@));
                        assert(false);
                    }
                    return Err(RuleSerializeError::MatchesReference(id.clone()));
                },
            };
            match compile_rule(rule, &reg) {
                Ok(c) => {
                    let ghost pre = reg;
                    match reg.insert_local(id, c) {
                        Ok(()) => {},
                        Err(e) => {
                            proof {
                                lemma_find_id_props(pre.lids(), id@);
                                let w = choose|w: int|
                                    0 <= w < pre.lids().len() && pre.lids()[w] == id@;
                                assert(order@[w]@ == order@[i as int]@);
                                assert(false);
                            }
                            return Err(e);
                        },
                    }
                    proof {
                        assert(reg.lids() =~= pre.lids().push(id@));
                        assert forall|k: int|
                            0 <= k < i + 1 implies utils.contains_id(#[trigger] reg.lids()[k])
                            && compiles_to(
                            utils.rule_of(reg.lids()[k]),
                            reg.lids().take(k),
                            reg.gids(),
                            reg.locals@[k].1,
                        ) && raw_resolvable(
                            utils.rule_of(reg.lids()[k]),
                            reg.lids().take(k),
                            reg.gids(),
                        ) by {
                            assert(reg.lids().take(k) =~= pre.lids().take(k));
                            if k < i {
                                assert(pre.lids()[k] == reg.lids()[k]);
                                assert(pre.locals@[k] == reg.locals@[k]);
                            } else {
                                assert(reg.lids()[k] == id@);
                                assert(reg.lids().take(k) =~= pre.lids());
                                assert(reg.locals@[k].1 == c);
                                assert(utils.rule_of(id@) == *rule);
                            }
                        }
                    }
                },
                Err(e) => {
                    proof {
                        let ord = view_seq(order@);
                        assert(topo_order_ok(*utils, ord));
                        assert(ord.take(i as int) =~= reg.lids()) by {
                            assert forall|k: int| 0 <= k < i implies ord[k] == reg.lids()[k] by {
                                assert(ord[k] == order@[k]@);
                            }
                        }
                        assert forall|k: int| 0 <= k < i implies raw_resolvable(
                            utils.rule_of(#[trigger] ord[k]),
                            ord.take(k),
                            g0,
                        ) by {
                            assert(ord[k] == reg.lids()[k]);
                            assert(ord.take(k) =~= reg.lids().take(k));
                        }
                        assert(utils.rule_of(ord[i as int]) == *rule);
                        assert(!raw_resolvable(utils.rule_of(ord[i as int]), ord.take(i as int), g0));
                        if hyp {
                            let kk = choose|kk: int|
                                0 <= kk < utils.entries@.len() && (#[trigger] utils.entries@[kk]).0@
                                    == id@;
                            assert(utils.rule_of(id@) == utils.entries@[kk].1);
                            assert(not_clauses_ref_free(*rule));
                            assert forall|d: Seq<char>| #[trigger]
                                dep_ids(*rule).contains(d) implies find_id(reg.lids(), d) is Some
                                || find_id(reg.gids(), d) is Some by {
                                if utils.contains_id(d) {
                                    assert(dep_ids(utils.rule_of(order@[i as int]@)).contains(d));
                                    let j = choose|j: int|
                                        0 <= j < i && (#[trigger] order@[j])@ == d;
                                    assert(reg.lids()[j] == d);
                                    lemma_find_id_some(reg.lids(), d, j);
                                }
                            }
                            lemma_resolvable_of_deps(*rule, reg.lids(), reg.gids());
                            assert(false);
                        }
                    }
                    return Err(e);
                },
            }
            i = i + 1;
        }
        let env = DeserializeEnv { registration: reg, lang };
        proof {
            assert forall|id: Seq<char>| #[trigger] utils.contains_id(id) implies find_id(
                env.registration.lids(),
                id,
            ) is Some by {
                assert(crate::resolver::id_set(order@).contains(id));
                let k = choose|k: int| 0 <= k < order@.len() && (#[trigger] order@[k])@ == id;
                lemma_find_id_some(env.registration.lids(), id, k);
            }
            assert forall|id: Seq<char>| #[trigger]
                find_id(env.registration.lids(), id) is Some implies utils.contains_id(id) by {
                lemma_find_id_props(env.registration.lids(), id);
                let w = choose|w: int|
                    0 <= w < env.registration.lids().len() && env.registration.lids()[w] == id;
            }
        }
        Ok(env)
    }

    /// Compiles a flat list of already-independent rule cores into a
    /// shared global registry, in the given order; a definition whose
    /// reference cannot be resolved against the cores before it, or an
    /// id registered twice, fails the whole registry — and nothing else
    /// does. The first failing entry decides the error, which names the
    /// unresolvable reference or the duplicated id.
    #[verifier::loop_isolation(false)]
    pub fn parse_global_utils(utils: Vec<RuleCoreDef>) -> (r: Result<GlobalRules, RuleConfigError>)
        ensures
            r matches Ok(g) ==> {
                &&& g.wf()
                &&& g.rules@.len() == utils@.len()
                &&& forall|i: int|
                    0 <= i < utils@.len() ==> g.ids()[i] == (#[trigger] utils@[i]).id@
                        && compiles_to(
                        utils@[i].rule,
                        Seq::empty(),
                        g.ids().take(i),
                        g.rules@[i].1,
                    )
            },
            r is Ok <==> forall|i: int|
                0 <= i < utils@.len() ==> raw_resolvable(
                    (#[trigger] utils@[i]).rule,
                    Seq::empty(),
                    core_ids(utils@).take(i),
                ) && find_id(core_ids(utils@).take(i), utils@[i].id@) is None,
            r matches Err(ce) ==> ce matches RuleConfigError::Rule(e) && (exists|i: int|
                0 <= i < utils@.len() && (forall|k: int|
                    0 <= k < i ==> #[trigger] global_step_ok(utils@, k)) && !global_step_ok(
                    utils@,
                    i,
                ) && #[trigger] global_err_names(utils@, i, e)),
    {
        let mut acc = GlobalRules { rules: Vec::new() };
        let mut i: usize = 0;
        while i < utils.len()
            invariant
                i <= utils@.len(),
                acc.wf(),
                acc.rules@.len() == i,
                forall|k: int| 0 <= k < i ==> acc.ids()[k] == (#[trigger] utils@[k]).id@,
                forall|k: int|
                    0 <= k < i ==> compiles_to(
                        (#[trigger] utils@[k]).rule,
                        Seq::empty(),
                        acc.ids().take(k),
                        acc.rules@[k].1,
                    ),
                forall|k: int|
                    0 <= k < i ==> raw_resolvable(
                        (#[trigger] utils@[k]).rule,
                        Seq::empty(),
                        core_ids(utils@).take(k),
                    ) && find_id(core_ids(utils@).take(k), utils@[k].id@) is None,
            decreases utils@.len() - i,
        {
            proof {
                assert(acc.ids() =~= core_ids(utils@).take(i as int));
            }
            let reg = RuleRegistration { globals: acc, locals: Vec::new() };
            proof {
                assert(reg.lids() =~= Seq::<Seq<char>>::empty());
            }
            let compiled = match compile_rule(&utils[i].rule, &reg) {
                Ok(c) => c,
                Err(e) => {
                    proof {
                        assert(!raw_resolvable(
                            utils@[i as int].rule,
                            Seq::empty(),
                            core_ids(utils@).take(i as int),
                        ));
                        assert(!global_step_ok(utils@, i as int));
                        assert forall|k: int| 0 <= k < i implies #[trigger] global_step_ok(
                            utils@,
                            k,
                        ) by {}
                        assert(global_err_names(utils@, i as int, e));
                    }
                    return Err(RuleConfigError::Rule(e));
                },
            };
            let RuleRegistration { globals: acc2, locals: _ } = reg;
            acc = acc2;
            let ghost accpre = acc;
            match acc.insert(&utils[i].id, compiled) {
                Ok(()) => {},
                Err(e) => {
                    proof {
                        assert(accpre.ids() =~= core_ids(utils@).take(i as int));
                        assert(raw_resolvable(
                            utils@[i as int].rule,
                            Seq::empty(),
                            core_ids(utils@).take(i as int),
                        ));
                        assert(find_id(core_ids(utils@).take(i as int), utils@[i as int].id@)
                            is Some);
                        assert(!global_step_ok(utils@, i as int));
                        assert forall|k: int| 0 <= k < i implies #[trigger] global_step_ok(
                            utils@,
                            k,
                        ) by {}
                        assert(global_err_names(utils@, i as int, e));
                    }
                    return Err(RuleConfigError::Rule(e));
                },
            }
            proof {
                assert(acc.ids() =~= accpre.ids().push(utils@[i as int].id@));
                assert forall|k: int| 0 <= k < i + 1 implies compiles_to(
                    (#[trigger] utils@[k]).rule,
                    Seq::empty(),
                    acc.ids().take(k),
                    acc.rules@[k].1,
                ) by {
                    assert(acc.ids().take(k) =~= accpre.ids().take(k));
                    if k < i {
                        assert(acc.rules@[k] == accpre.rules@[k]);
                    } else {
                        assert(acc.ids().take(k) =~= accpre.ids());
                        assert(acc.rules@[k].1 == compiled);
                    }
                }
            }
            i = i + 1;
        }
        proof {
            assert(core_ids(utils@).take(utils@.len() as int) =~= core_ids(utils@));
        }
        Ok(acc)
    }

    /// An environment that compiles against the given shared globals.
    pub fn with_globals(self, globals: GlobalRules) -> (r: DeserializeEnv)
        ensures
            r.lang == self.lang,
            r.registration.globals == globals,
            r.registration.locals@.len() == 0,
            globals.wf() ==> r.registration.wf(),
    {
        DeserializeEnv { registration: RuleRegistration::from_globals(globals), lang: self.lang }
    }
}

} // verus!
