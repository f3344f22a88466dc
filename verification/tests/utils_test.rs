use ast_grep::deserialize_env::GlobalRules;
use ast_grep::deserialize_env::RuleRegistration;
use ast_grep::rule::{Pattern, RuleDef};
use ast_grep::scan::{file_too_large, filter_file_interactive, filter_file_pattern, CombinedScan,
    RuleCollection, ScanRule};
use ast_grep::strictness::MatchStrictness;
use ast_grep::text::{line_count, str_contains, str_eq};
use ast_grep::tree::{Injection, LangRegistry, LangSpec, Node, SyntaxTree};
use ast_grep::worker::{collect_items, filter_result, prompt_decision, walk_action_after_send,
    Items, ScanError,
    StdInWorker, WalkAction, Worker};

const HTML: u32 = 0;
const TYPESCRIPT: u32 = 1;

fn node(kind_id: u16, kind: &str, text: &str, children: Vec<Node>) -> Node {
    Node {
        kind_id,
        kind: kind.to_string(),
        named: true,
        comment_like: false,
        text: text.to_string(),
        children,
    }
}

fn lang_registry() -> LangRegistry {
    LangRegistry {
        langs: vec![
            LangSpec { id: HTML, name: "html".to_string(), injectable: vec![TYPESCRIPT] },
            LangSpec { id: TYPESCRIPT, name: "typescript".to_string(), injectable: vec![] },
        ],
    }
}

/// The parsed shape of `<script lang=typescript>alert(123)</script>`:
/// an html document with one embedded region tagged `typescript`,
/// parsed as a program whose first child is an expression statement.
fn html_with_script(tag: &str) -> SyntaxTree {
    let expr = node(20, "expression_statement", "alert(123)", vec![]);
    let program = node(21, "program", "alert(123)", vec![expr]);
    let root = node(
        10,
        "document",
        "<script lang=typescript>alert(123)</script>",
        vec![node(11, "script_element", "<script lang=typescript>alert(123)</script>", vec![])],
    );
    SyntaxTree {
        lang: HTML,
        root,
        injections: vec![Injection { tag: tag.to_string(), root: program }],
    }
}

#[test]
fn test_html_embedding() {
    let root = html_with_script("typescript");
    let docs = root.get_injections(&lang_registry());
    assert_eq!(docs.len(), 1);
    assert_eq!(docs[0].lang, TYPESCRIPT);
    let script = docs[0].root.child(0).expect("should exist");
    assert_eq!(script.kind(), "expression_statement");
}

#[test]
fn test_html_embedding_lang_not_found() {
    let root = html_with_script("xxx");
    let docs = root.get_injections(&lang_registry());
    assert_eq!(docs.len(), 0);
}

#[test]
fn file_size_cutoff_requires_both_bounds() {
    // over the byte bound alone: still scanned
    let big_bytes = "a".repeat(3_000_001);
    assert!(!file_too_large(&big_bytes));
    // over both bounds: skipped
    let big_both = "aaaaaaaaaaaaaaa\n".repeat(200_001);
    assert!(big_both.len() > 3_000_000);
    assert!(file_too_large(&big_both));
    // over the line bound alone: still scanned
    let many_lines = "\n".repeat(200_001);
    assert!(!file_too_large(&many_lines));
    assert!(!file_too_large(""));
}

fn empty_rule() -> RuleDef {
    RuleDef { kind: None, regex: None, pattern: None, matches: None, all: None, any: None, not: None }
}

fn collection_matching_expression() -> RuleCollection {
    let env = ast_grep::deserialize_env::DeserializeEnv::new(TYPESCRIPT);
    let raw = RuleDef { kind: Some(20), ..empty_rule() };
    let rule = ast_grep::deserialize_env::deserialize_rule(&raw, &env).ok().expect("compiles");
    RuleCollection {
        reg: env.registration,
        rules: vec![ScanRule { id: "expr".to_string(), lang: TYPESCRIPT, rule }],
    }
}

#[test]
fn interactive_filter_keeps_injected_layer() {
    let tree = html_with_script("typescript");
    let configs = collection_matching_expression();
    let langs = lang_registry();
    let layers = filter_file_interactive(
        &"a.html".to_string(),
        "<script lang=typescript>alert(123)</script>",
        &tree,
        &configs,
        &langs,
    )
    .expect("content is usable");
    // no rule matches the html root; the typescript layer matches
    assert_eq!(layers.len(), 1);
    assert_eq!(layers[0].lang, TYPESCRIPT);
    assert_eq!(layers[0].path, "a.html");
    assert_eq!(layers[0].pre_scan.hit_set, vec![0]);
}

#[test]
fn interactive_filter_rejects_empty_content() {
    let tree = html_with_script("typescript");
    let configs = collection_matching_expression();
    let langs = lang_registry();
    let r = filter_file_interactive(&"a.html".to_string(), "", &tree, &configs, &langs);
    assert!(r.is_none());
}

#[test]
fn combined_scan_reports_hit_rules_once() {
    let tree = html_with_script("typescript");
    let configs = collection_matching_expression();
    let scan = CombinedScan::new(TYPESCRIPT);
    let pre = scan.find(&configs, &tree.injections[0].root);
    assert_eq!(pre.hit_set, vec![0]);
    let pre_root = scan.find(&configs, &tree.root);
    assert_eq!(pre_root.hit_set.len(), 0);
}

fn alert_pattern(fixed: &str) -> Pattern {
    Pattern {
        kind_id: 20,
        text: "alert(123)".to_string(),
        fixed: fixed.to_string(),
        strictness: MatchStrictness::Smart,
    }
}

#[test]
fn pattern_filter_finds_injected_match() {
    let tree = html_with_script("typescript");
    let langs = lang_registry();
    let units = filter_file_pattern(
        &"a.html".to_string(),
        "<script lang=typescript>alert(123)</script>",
        &tree,
        None,
        &vec![(TYPESCRIPT, alert_pattern("alert("))],
        &langs,
    )
    .expect("content is usable");
    assert_eq!(units.len(), 1);
    assert_eq!(units[0].1, TYPESCRIPT);
    assert_eq!(units[0].0.path, "a.html");
    assert_eq!(units[0].0.grep.lang, TYPESCRIPT);
}

#[test]
fn pattern_filter_rejects_on_missing_fixed_string() {
    let tree = html_with_script("typescript");
    let langs = lang_registry();
    // a pattern whose fixed literal is not part of its own goal text is
    // not well compiled; only for such a pattern (or a tree whose node
    // texts are not part of the content) can the fixed-string rejection
    // be observed at all — for well-compiled, text-comparing patterns on
    // a faithfully parsed layer the rejection never changes the result
    let units = filter_file_pattern(
        &"a.html".to_string(),
        "<script lang=typescript>alert(123)</script>",
        &tree,
        None,
        &vec![(TYPESCRIPT, alert_pattern("zzz"))],
        &langs,
    )
    .expect("content is usable");
    assert_eq!(units.len(), 0);
}

#[test]
fn text_utilities_agree_with_their_specs() {
    assert!(str_eq("alpha", "alpha"));
    assert!(!str_eq("alpha", "alphb"));
    assert!(str_contains("hello world", "lo wo"));
    assert!(str_contains("hello", ""));
    assert!(!str_contains("hello", "world"));
    assert_eq!(line_count(""), 0);
    assert_eq!(line_count("a"), 1);
    assert_eq!(line_count("a\n"), 1);
    assert_eq!(line_count("a\nb"), 2);
    assert_eq!(line_count("\n\n"), 2);
}

#[test]
fn items_deliver_in_order_until_exhausted() {
    let mut items = Items::new(vec![1, 2, 3]);
    assert_eq!(items.next(), Some(1));
    assert_eq!(items.next(), Some(2));
    assert_eq!(items.next(), Some(3));
    assert_eq!(items.next(), None);
    let mut one = Items::once("x").ok().expect("once never fails");
    assert_eq!(one.next(), Some("x"));
    assert_eq!(one.next(), None);
}

#[test]
fn collect_items_delivers_every_produced_item_once() {
    let batches = vec![Some(vec![1, 2]), None, Some(vec![]), Some(vec![3])];
    let mut items = collect_items(batches);
    assert_eq!(items.next(), Some(1));
    assert_eq!(items.next(), Some(2));
    assert_eq!(items.next(), Some(3));
    assert_eq!(items.next(), None);
}

#[test]
fn failed_send_quits_the_walk() {
    assert_eq!(walk_action_after_send(true), WalkAction::Continue);
    assert_eq!(walk_action_after_send(false), WalkAction::Quit);
}

#[test]
fn filter_result_keeps_files_and_strips_dot_prefix() {
    assert_eq!(filter_result(true, "./src/a.rs".to_string()), Some("src/a.rs".to_string()));
    assert_eq!(filter_result(true, "src/a.rs".to_string()), Some("src/a.rs".to_string()));
    assert_eq!(filter_result(false, "./src".to_string()), None);
}

struct EchoWorker;

impl Worker for EchoWorker {
    type Item = String;

    fn consume_items(&self, mut items: Items<String>) -> Result<(), ScanError> {
        assert_eq!(items.next(), Some("alert(123)".to_string()));
        assert_eq!(items.next(), None);
        Ok(())
    }
}

impl StdInWorker for EchoWorker {
    fn parse_stdin(&self, src: String) -> Option<String> {
        if src.is_empty() {
            None
        } else {
            Some(src)
        }
    }
}

#[test]
fn stdin_worker_feeds_one_item_through_the_consumer() {
    let w = EchoWorker;
    assert!(w.run_std_in("alert(123)".to_string()).is_ok());
    assert!(w.run_std_in(String::new()).is_ok());
}

#[test]
fn prompt_decision_accepts_default_and_listed_letters() {
    assert_eq!(prompt_decision('\n', "ynq", Some('y')), Some('y'));
    assert_eq!(prompt_decision('\n', "ynq", None), None);
    assert_eq!(prompt_decision('n', "ynq", Some('y')), Some('n'));
    assert_eq!(prompt_decision('x', "ynq", Some('y')), None);
}
