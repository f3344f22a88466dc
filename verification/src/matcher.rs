//! Evaluation of compiled rules against syntax nodes, and the tree
//! searches built on it.
//!
//! A compiled rule is a conjunction of its present clauses; a named
//! reference is followed into the registry it was compiled against,
//! which is possible because registration order is dependency order.

use crate::deserialize_env::RuleRegistration;
use crate::rule::{crule_list_size, crule_size, crule_wf, lemma_crule_list_size_elem,
    lemma_crules_wf_elem, CompiledRule, Pattern, RuleRef};
use crate::strictness::{spec_match_terminal, MatchOneNode};
use crate::text::{spec_contains, str_contains};
use crate::tree::Node;
use vstd::prelude::*;

verus! {

/// The compiled rules of a registry tier, in registration order.
pub open spec fn rule_values(s: Seq<(String, CompiledRule)>) -> Seq<CompiledRule> {
    s.map_values(|p: (String, CompiledRule)| p.1)
}

/// The pattern agrees with the node as a terminal comparison under the
/// pattern's strictness.
pub open spec fn spec_pattern_matches(p: Pattern, n: Node) -> bool {
    spec_match_terminal(p.strictness, true, p.text@, p.kind_id, n) is MatchedBoth
}

/// Whether a compiled rule matches a node: every present clause holds.
/// `lb` and `gb` bound the registry slots the rule may refer to.
pub open spec fn spec_rule_matches(
    g: Seq<CompiledRule>,
    l: Seq<CompiledRule>,
    lb: nat,
    gb: nat,
    r: CompiledRule,
    n: Node,
) -> bool
    decreases lb, gb, crule_size(r),
{
    &&& match r.kind {
        Some(k) => n.kind_id == k,
        None => true,
    }
    &&& match r.regex {
        Some(re) => spec_contains(n.text@, re@),
        None => true,
    }
    &&& match r.pattern {
        Some(p) => spec_pattern_matches(p, n),
        None => true,
    }
    &&& match r.matches {
        Some(RuleRef::Local(i)) => (i as nat) < lb && (i as int) < l.len() && spec_rule_matches(
            g,
            l,
            i as nat,
            g.len(),
            l[i as int],
            n,
        ),
        Some(RuleRef::Global(j)) => (j as nat) < gb && (j as int) < g.len() && spec_rule_matches(
            g,
            l,
            0,
            j as nat,
            g[j as int],
            n,
        ),
        None => true,
    }
    &&& match r.all {
        Some(v) => spec_all_match(g, l, lb, gb, v@, n),
        None => true,
    }
    &&& match r.any {
        Some(v) => spec_any_match(g, l, lb, gb, v@, n),
        None => true,
    }
    &&& match r.not {
        Some(b) => !spec_rule_matches(g, l, lb, gb, *b, n),
        None => true,
    }
}

/// Every rule of the list matches the node.
pub open spec fn spec_all_match(
    g: Seq<CompiledRule>,
    l: Seq<CompiledRule>,
    lb: nat,
    gb: nat,
    s: Seq<CompiledRule>,
    n: Node,
) -> bool
    decreases lb, gb, crule_list_size(s),
{
    s.len() == 0 || (spec_rule_matches(g, l, lb, gb, s.first(), n) && spec_all_match(
        g,
        l,
        lb,
        gb,
        s.drop_first(),
        n,
    ))
}

/// At least one rule of the list matches the node.
pub open spec fn spec_any_match(
    g: Seq<CompiledRule>,
    l: Seq<CompiledRule>,
    lb: nat,
    gb: nat,
    s: Seq<CompiledRule>,
    n: Node,
) -> bool
    decreases lb, gb, crule_list_size(s),
{
    s.len() > 0 && (spec_rule_matches(g, l, lb, gb, s.first(), n) || spec_any_match(
        g,
        l,
        lb,
        gb,
        s.drop_first(),
        n,
    ))
}

pub proof fn lemma_all_match_iff(
    g: Seq<CompiledRule>,
    l: Seq<CompiledRule>,
    lb: nat,
    gb: nat,
    s: Seq<CompiledRule>,
    n: Node,
)
    ensures
        spec_all_match(g, l, lb, gb, s, n) <==> forall|i: int|
            0 <= i < s.len() ==> spec_rule_matches(g, l, lb, gb, #[trigger] s[i], n),
    decreases s.len(),
{
    if s.len() > 0 {
        lemma_all_match_iff(g, l, lb, gb, s.drop_first(), n);
        assert(s.first() == s[0]);
        assert forall|i: int| 0 <= i < s.drop_first().len() implies s.drop_first()[i] == s[i
            + 1] by {}
        if spec_all_match(g, l, lb, gb, s, n) {
            assert forall|i: int| 0 <= i < s.len() implies spec_rule_matches(
                g,
                l,
                lb,
                gb,
                #[trigger] s[i],
                n,
            ) by {
                if i > 0 {
                    assert(s.drop_first()[i - 1] == s[i]);
                }
            }
        }
    }
}

pub proof fn lemma_any_match_iff(
    g: Seq<CompiledRule>,
    l: Seq<CompiledRule>,
    lb: nat,
    gb: nat,
    s: Seq<CompiledRule>,
    n: Node,
)
    ensures
        spec_any_match(g, l, lb, gb, s, n) <==> exists|i: int|
            0 <= i < s.len() && spec_rule_matches(g, l, lb, gb, #[trigger] s[i], n),
    decreases s.len(),
{
    if s.len() > 0 {
        lemma_any_match_iff(g, l, lb, gb, s.drop_first(), n);
        assert(s.first() == s[0]);
        if spec_any_match(g, l, lb, gb, s, n) {
            if !spec_rule_matches(g, l, lb, gb, s.first(), n) {
                let i = choose|i: int|
                    0 <= i < s.drop_first().len() && spec_rule_matches(
                        g,
                        l,
                        lb,
                        gb,
                        #[trigger] s.drop_first()[i],
                        n,
                    );
                assert(s.drop_first()[i] == s[i + 1]);
            }
        } else {
            if exists|i: int|
                0 <= i < s.len() && spec_rule_matches(g, l, lb, gb, #[trigger] s[i], n) {
                let i = choose|i: int|
                    0 <= i < s.len() && spec_rule_matches(g, l, lb, gb, #[trigger] s[i], n);
                if i > 0 {
                    assert(s.drop_first()[i - 1] == s[i]);
                }
            }
        }
    }
}

/// Whether the pattern agrees with the node, as a terminal comparison.
pub fn pattern_matches(p: &Pattern, node: &Node) -> (r: bool)
    ensures
        r == spec_pattern_matches(*p, *node),
{
    match p.strictness.match_terminal(true, p.text.as_str(), p.kind_id, node) {
        MatchOneNode::MatchedBoth => true,
        _ => false,
    }
}

/// Whether a compiled rule matches a node, following references into
/// the registry the rule was compiled against.
pub fn rule_matches(reg: &RuleRegistration, r: &CompiledRule, node: &Node) -> (res: bool)
    requires
        reg.wf(),
        crule_wf(*r, reg.locals@.len() as nat, reg.globals.rules@.len() as nat),
    ensures
        res == spec_rule_matches(
            rule_values(reg.globals.rules@),
            rule_values(reg.locals@),
            reg.locals@.len() as nat,
            reg.globals.rules@.len() as nat,
            *r,
            *node,
        ),
{
    eval_rule(
        reg,
        r,
        node,
        Ghost(reg.locals@.len() as nat),
        Ghost(reg.globals.rules@.len() as nat),
    )
}

#[verifier::loop_isolation(false)]
fn eval_rule(
    reg: &RuleRegistration,
    r: &CompiledRule,
    node: &Node,
    Ghost(lb): Ghost<nat>,
    Ghost(gb): Ghost<nat>,
) -> (res: bool)
    requires
        reg.wf(),
        crule_wf(*r, lb, gb),
        lb <= reg.locals@.len(),
        gb <= reg.globals.rules@.len(),
    ensures
        res == spec_rule_matches(
            rule_values(reg.globals.rules@),
            rule_values(reg.locals@),
            lb,
            gb,
            *r,
            *node,
        ),
    decreases lb, gb, crule_size(*r),
{
    let ghost g = rule_values(reg.globals.rules@);
    let ghost l = rule_values(reg.locals@);
    match &r.kind {
        Some(k) => {
            if node.kind_id() != *k {
                return false;
            }
        },
        None => {},
    }
    match &r.regex {
        Some(re) => {
            if !str_contains(node.text().as_str(), re.as_str()) {
                return false;
            }
        },
        None => {},
    }
    match &r.pattern {
        Some(p) => {
            if !pattern_matches(p, node) {
                return false;
            }
        },
        None => {},
    }
    match &r.matches {
        Some(RuleRef::Local(i)) => {
            proof {
                assert(l[*i as int] == reg.locals@[*i as int].1);
            }
            if !eval_rule(
                reg,
                &reg.locals[*i].1,
                node,
                Ghost(*i as nat),
                Ghost(reg.globals.rules@.len() as nat),
            ) {
                return false;
            }
        },
        Some(RuleRef::Global(j)) => {
            proof {
                assert(g[*j as int] == reg.globals.rules@[*j as int].1);
            }
            if !eval_rule(reg, &reg.globals.rules[*j].1, node, Ghost(0nat), Ghost(*j as nat)) {
                return false;
            }
        },
        None => {},
    }
    match &r.all {
        Some(subs) => {
            let mut i: usize = 0;
            while i < subs.len()
                invariant
                    i <= subs@.len(),
                    forall|k: int|
                        0 <= k < i ==> spec_rule_matches(g, l, lb, gb, #[trigger] subs@[k], *node),
                decreases subs@.len() - i,
            {
                proof {
                    lemma_crules_wf_elem(subs@, lb, gb, i as int);
                    lemma_crule_list_size_elem(subs@, i as int);
                }
                if !eval_rule(reg, &subs[i], node, Ghost(lb), Ghost(gb)) {
                    proof {
                        lemma_all_match_iff(g, l, lb, gb, subs@, *node);
                    }
                    return false;
                }
                i = i + 1;
            }
            proof {
                lemma_all_match_iff(g, l, lb, gb, subs@, *node);
            }
        },
        None => {},
    }
    match &r.any {
        Some(subs) => {
            let mut i: usize = 0;
            let mut hit = false;
            while i < subs.len() && !hit
                invariant
                    i <= subs@.len(),
                    !hit ==> forall|k: int|
                        0 <= k < i ==> !spec_rule_matches(g, l, lb, gb, #[trigger] subs@[k], *node),
                    hit ==> exists|k: int|
                        0 <= k < subs@.len() && spec_rule_matches(
                            g,
                            l,
                            lb,
                            gb,
                            #[trigger] subs@[k],
                            *node,
                        ),
                decreases subs@.len() - i,
            {
                proof {
                    lemma_crules_wf_elem(subs@, lb, gb, i as int);
                    lemma_crule_list_size_elem(subs@, i as int);
                }
                if eval_rule(reg, &subs[i], node, Ghost(lb), Ghost(gb)) {
                    hit = true;
                }
                i = i + 1;
            }
            proof {
                lemma_any_match_iff(g, l, lb, gb, subs@, *node);
            }
            if !hit {
                return false;
            }
        },
        None => {},
    }
    match &r.not {
        Some(b) => {
            if eval_rule(reg, &**b, node, Ghost(lb), Ghost(gb)) {
                return false;
            }
        },
        None => {},
    }
    true
}

/// Whether the rule matches the node or any node below it.
pub open spec fn spec_tree_has_match(
    g: Seq<CompiledRule>,
    l: Seq<CompiledRule>,
    lb: nat,
    gb: nat,
    r: CompiledRule,
    n: Node,
) -> bool
    decreases n,
{
    spec_rule_matches(g, l, lb, gb, r, n) || exists|i: int|
        0 <= i < n.children@.len() && spec_tree_has_match(g, l, lb, gb, r, #[trigger] n.children@[i])
}

/// Searches the subtree under `node` for a node the rule matches.
#[verifier::loop_isolation(false)]
pub fn find_in_tree(reg: &RuleRegistration, r: &CompiledRule, node: &Node) -> (res: bool)
    requires
        reg.wf(),
        crule_wf(*r, reg.locals@.len() as nat, reg.globals.rules@.len() as nat),
    ensures
        res == spec_tree_has_match(
            rule_values(reg.globals.rules@),
            rule_values(reg.locals@),
            reg.locals@.len() as nat,
            reg.globals.rules@.len() as nat,
            *r,
            *node,
        ),
    decreases *node,
{
    let ghost g = rule_values(reg.globals.rules@);
    let ghost l = rule_values(reg.locals@);
    let ghost lb = reg.locals@.len() as nat;
    let ghost gb = reg.globals.rules@.len() as nat;
    if rule_matches(reg, r, node) {
        return true;
    }
    let mut i: usize = 0;
    while i < node.children.len()
        invariant
            i <= node.children@.len(),
            forall|k: int|
                0 <= k < i ==> !spec_tree_has_match(g, l, lb, gb, *r, #[trigger] node.children@[k]),
        decreases node.children@.len() - i,
    {
        if find_in_tree(reg, r, &node.children[i]) {
            return true;
        }
        i = i + 1;
    }
    false
}

/// Whether the pattern agrees with the node or any node below it.
pub open spec fn spec_pattern_found(p: Pattern, n: Node) -> bool
    decreases n,
{
    spec_pattern_matches(p, n) || exists|i: int|
        0 <= i < n.children@.len() && spec_pattern_found(p, #[trigger] n.children@[i])
}

/// Searches the subtree under `node` for a node the pattern agrees with.
#[verifier::loop_isolation(false)]
pub fn pattern_found(p: &Pattern, node: &Node) -> (res: bool)
    ensures
        res == spec_pattern_found(*p, *node),
    decreases *node,
{
    if pattern_matches(p, node) {
        return true;
    }
    let mut i: usize = 0;
    while i < node.children.len()
        invariant
            i <= node.children@.len(),
            forall|k: int| 0 <= k < i ==> !spec_pattern_found(*p, #[trigger] node.children@[k]),
        decreases node.children@.len() - i,
    {
        if pattern_found(p, &node.children[i]) {
            return true;
        }
        i = i + 1;
    }
    false
}

} // verus!
