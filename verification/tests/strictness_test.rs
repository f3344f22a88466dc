use ast_grep::strictness::{MatchOneNode, MatchStrictness};
use ast_grep::tree::Node;

fn leaf(kind_id: u16, kind: &str, named: bool, comment_like: bool, text: &str) -> Node {
    Node {
        kind_id,
        kind: kind.to_string(),
        named,
        comment_like,
        text: text.to_string(),
        children: Vec::new(),
    }
}

#[test]
fn equal_kind_and_text_matches_under_every_strictness() {
    let candidate = leaf(7, "identifier", true, false, "alpha");
    let levels = [
        MatchStrictness::Cst,
        MatchStrictness::Smart,
        MatchStrictness::Ast,
        MatchStrictness::Lenient,
        MatchStrictness::Signature,
    ];
    for s in levels {
        let r = s.match_terminal(true, "alpha", 7, &candidate);
        assert!(matches!(r, MatchOneNode::MatchedBoth));
    }
}

#[test]
fn signature_matches_on_kind_alone_cst_does_not() {
    let candidate = leaf(7, "identifier", true, false, "beta");
    let r = MatchStrictness::Signature.match_terminal(true, "alpha", 7, &candidate);
    assert!(matches!(r, MatchOneNode::MatchedBoth));
    let r = MatchStrictness::Cst.match_terminal(true, "alpha", 7, &candidate);
    assert!(matches!(r, MatchOneNode::NoMatch));
}

#[test]
fn smart_skips_unnamed_candidate_only() {
    let unnamed = leaf(3, "comma", false, false, ",");
    let r = MatchStrictness::Smart.match_terminal(true, "alpha", 7, &unnamed);
    assert!(matches!(r, MatchOneNode::SkipCandidate));
    let r = MatchStrictness::Ast.match_terminal(false, "alpha", 7, &unnamed);
    assert!(matches!(r, MatchOneNode::SkipBoth));
    let r = MatchStrictness::Ast.match_terminal(false, "alpha", 7, &leaf(5, "number", true, false, "1"));
    assert!(matches!(r, MatchOneNode::SkipGoal));
}

#[test]
fn lenient_skips_comment_like_candidates() {
    let comment = leaf(9, "comment", true, true, "// note");
    let r = MatchStrictness::Lenient.match_terminal(true, "alpha", 7, &comment);
    assert!(matches!(r, MatchOneNode::SkipCandidate));
    let r = MatchStrictness::Ast.match_terminal(true, "alpha", 7, &comment);
    assert!(matches!(r, MatchOneNode::NoMatch));
}

#[test]
fn should_skip_matching_node_by_level() {
    let unnamed = leaf(3, "comma", false, false, ",");
    let comment = leaf(9, "comment", true, true, "// note");
    let named = leaf(7, "identifier", true, false, "alpha");
    assert!(!MatchStrictness::Cst.should_skip_matching_node(&unnamed));
    assert!(MatchStrictness::Smart.should_skip_matching_node(&unnamed));
    assert!(MatchStrictness::Ast.should_skip_matching_node(&unnamed));
    assert!(!MatchStrictness::Ast.should_skip_matching_node(&comment));
    assert!(MatchStrictness::Lenient.should_skip_matching_node(&comment));
    assert!(MatchStrictness::Signature.should_skip_matching_node(&comment));
    assert!(!MatchStrictness::Signature.should_skip_matching_node(&named));
}

#[test]
fn should_keep_in_pattern_by_level() {
    let unnamed = leaf(3, "comma", false, false, ",");
    let comment = leaf(9, "comment", true, true, "// note");
    assert!(MatchStrictness::Cst.should_keep_in_pattern(&unnamed));
    assert!(MatchStrictness::Smart.should_keep_in_pattern(&unnamed));
    assert!(!MatchStrictness::Ast.should_keep_in_pattern(&unnamed));
    assert!(MatchStrictness::Ast.should_keep_in_pattern(&comment));
    assert!(!MatchStrictness::Lenient.should_keep_in_pattern(&comment));
    assert!(!MatchStrictness::Signature.should_keep_in_pattern(&comment));
}
