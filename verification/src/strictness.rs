//! The strictness-aware node comparison engine.
//!
//! When a goal (pattern) node is held against a candidate (source) node,
//! the active strictness level decides which incidental differences —
//! punctuation, trivia, comments, literal text — are binding and which
//! sides of the comparison may be skipped.

use crate::text::str_eq;
use crate::tree::Node;
use vstd::prelude::*;

verus! {

/// The configurable equivalence level used when comparing a goal node
/// against a candidate node.
#[derive(Clone, Copy)]
pub enum MatchStrictness {
    /// All nodes are matched.
    Cst,
    /// All nodes except source trivial nodes are matched.
    Smart,
    /// Only named (AST) nodes are matched.
    Ast,
    /// Named nodes excluding comments are matched.
    Lenient,
    /// Named nodes excluding comments are matched, without text.
    Signature,
}

/// The verdict on one goal/candidate node pair: agreement, a one-sided
/// or two-sided skip instruction for the tree-walking matcher, or a
/// final mismatch.
pub enum MatchOneNode {
    MatchedBoth,
    SkipBoth,
    SkipGoal,
    SkipCandidate,
    NoMatch,
}

/// Whether the goal side of a failed direct comparison may be skipped
/// under `s`.
pub open spec fn spec_skip_goal(s: MatchStrictness, goal_named: bool) -> bool {
    match s {
        MatchStrictness::Cst => false,
        MatchStrictness::Smart => false,
        MatchStrictness::Ast => !goal_named,
        MatchStrictness::Lenient => !goal_named,
        MatchStrictness::Signature => !goal_named,
    }
}

/// Whether the candidate side of a failed direct comparison may be
/// skipped under `s`.
pub open spec fn spec_skip_candidate(s: MatchStrictness, candidate: Node) -> bool {
    match s {
        MatchStrictness::Cst => false,
        MatchStrictness::Smart => !candidate.named,
        MatchStrictness::Ast => !candidate.named,
        MatchStrictness::Lenient => !candidate.named || candidate.comment_like,
        MatchStrictness::Signature => !candidate.named || candidate.comment_like,
    }
}

/// The verdict on a terminal goal node against a candidate node: equal
/// kind and text always agree; under `Signature` equal kind alone is
/// enough; otherwise the strictness level's skip table decides.
pub open spec fn spec_match_terminal(
    s: MatchStrictness,
    goal_named: bool,
    goal_text: Seq<char>,
    goal_kind: u16,
    candidate: Node,
) -> MatchOneNode {
    if candidate.kind_id == goal_kind && candidate.text@ == goal_text {
        MatchOneNode::MatchedBoth
    } else if candidate.kind_id == goal_kind && s is Signature {
        MatchOneNode::MatchedBoth
    } else {
        match (spec_skip_goal(s, goal_named), spec_skip_candidate(s, candidate)) {
            (true, true) => MatchOneNode::SkipBoth,
            (true, false) => MatchOneNode::SkipGoal,
            (false, true) => MatchOneNode::SkipCandidate,
            (false, false) => MatchOneNode::NoMatch,
        }
    }
}

/// Whether, under `s`, `node` is elided entirely from comparison while
/// walking a candidate tree.
pub open spec fn spec_should_skip_matching_node(s: MatchStrictness, node: Node) -> bool {
    match s {
        MatchStrictness::Cst => false,
        MatchStrictness::Smart => !node.named,
        MatchStrictness::Ast => !node.named,
        MatchStrictness::Lenient => !node.named || node.comment_like,
        MatchStrictness::Signature => !node.named || node.comment_like,
    }
}

/// Whether, under `s`, `node` is retained as a binding constraint when
/// a goal pattern tree is built from example code.
pub open spec fn spec_should_keep_in_pattern(s: MatchStrictness, node: Node) -> bool {
    match s {
        MatchStrictness::Cst => true,
        MatchStrictness::Smart => true,
        MatchStrictness::Ast => node.named,
        MatchStrictness::Lenient => node.named && !node.comment_like,
        MatchStrictness::Signature => node.named && !node.comment_like,
    }
}

impl MatchStrictness {
    /// Compares a terminal goal node (its named flag, text and kind)
    /// against a candidate node under this strictness level.
    pub fn match_terminal(
        &self,
        is_named: bool,
        text: &str,
        kind: u16,
        candidate: &Node,
    ) -> (r: MatchOneNode)
        ensures
            r == spec_match_terminal(*self, is_named, text@, kind, *candidate),
    {
        let k = candidate.kind_id();
        if k == kind && str_eq(text, candidate.text().as_str()) {
            return MatchOneNode::MatchedBoth;
        }
        let (skip_goal, skip_candidate): (bool, bool) = match self {
            MatchStrictness::Cst => (false, false),
            MatchStrictness::Smart => (false, !candidate.is_named()),
            MatchStrictness::Ast => (!is_named, !candidate.is_named()),
            MatchStrictness::Lenient => (
                !is_named,
                !candidate.is_named() || candidate.is_comment_like(),
            ),
            MatchStrictness::Signature => {
                if k == kind {
                    return MatchOneNode::MatchedBoth;
                }
                (!is_named, !candidate.is_named() || candidate.is_comment_like())
            },
        };
        match (skip_goal, skip_candidate) {
            (true, true) => MatchOneNode::SkipBoth,
            (true, false) => MatchOneNode::SkipGoal,
            (false, true) => MatchOneNode::SkipCandidate,
            (false, false) => MatchOneNode::NoMatch,
        }
    }

    /// Whether `node` is elided entirely from comparison under this
    /// strictness level.
    pub fn should_skip_matching_node(&self, node: &Node) -> (r: bool)
        ensures
            r == spec_should_skip_matching_node(*self, *node),
    {
        match self {
            MatchStrictness::Cst => false,
            MatchStrictness::Smart => !node.is_named(),
            MatchStrictness::Ast => !node.is_named(),
            MatchStrictness::Lenient => !node.is_named() || node.is_comment_like(),
            MatchStrictness::Signature => !node.is_named() || node.is_comment_like(),
        }
    }

    /// Whether `node` is kept as a binding constraint when building a
    /// pattern tree under this strictness level.
    pub fn should_keep_in_pattern(&self, node: &Node) -> (r: bool)
        ensures
            r == spec_should_keep_in_pattern(*self, *node),
    {
        match self {
            MatchStrictness::Cst => true,
            MatchStrictness::Smart => true,
            MatchStrictness::Ast => node.is_named(),
            MatchStrictness::Lenient => node.is_named() && !node.is_comment_like(),
            MatchStrictness::Signature => node.is_named() && !node.is_comment_like(),
        }
    }
}

/// A candidate whose kind and text both equal the goal's is matched on
/// both sides, whatever the strictness level.
pub proof fn lemma_equal_pair_always_matches(
    s: MatchStrictness,
    goal_named: bool,
    goal_text: Seq<char>,
    goal_kind: u16,
    candidate: Node,
)
    requires
        candidate.kind_id == goal_kind,
        candidate.text@ == goal_text,
    ensures
        spec_match_terminal(s, goal_named, goal_text, goal_kind, candidate)
            == MatchOneNode::MatchedBoth,
{
}

/// Under `Signature`, equal kinds agree regardless of text; under `Cst`
/// the same pair, when neither side is skippable, is a final mismatch.
pub proof fn lemma_signature_ignores_text(
    goal_named: bool,
    goal_text: Seq<char>,
    goal_kind: u16,
    candidate: Node,
)
    requires
        candidate.kind_id == goal_kind,
        candidate.text@ != goal_text,
    ensures
        spec_match_terminal(
            MatchStrictness::Signature,
            goal_named,
            goal_text,
            goal_kind,
            candidate,
        ) == MatchOneNode::MatchedBoth,
        spec_match_terminal(MatchStrictness::Cst, goal_named, goal_text, goal_kind, candidate)
            == MatchOneNode::NoMatch,
{
}

} // verus!
