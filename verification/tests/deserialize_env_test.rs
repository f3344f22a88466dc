use ast_grep::deserialize_env::{deserialize_rule, DeserializeEnv, RuleCoreDef};
use ast_grep::deserialize_env::RuleRegistration;
use ast_grep::matcher::{find_in_tree, rule_matches};
use ast_grep::resolver::{RuleMap, TopologicalSort};
use ast_grep::rule::{RuleConfigError, RuleDef, RuleSerializeError};
use ast_grep::tree::Node;

fn empty_rule() -> RuleDef {
    RuleDef { kind: None, regex: None, pattern: None, matches: None, all: None, any: None, not: None }
}

fn leaf(kind_id: u16, kind: &str, text: &str) -> Node {
    Node {
        kind_id,
        kind: kind.to_string(),
        named: true,
        comment_like: false,
        text: text.to_string(),
        children: Vec::new(),
    }
}

const IDENTIFIER: u16 = 1;

fn dependent_utils(reversed: bool) -> RuleMap {
    let accessor = RuleDef {
        matches: Some("member-name".to_string()),
        regex: Some("whatever".to_string()),
        ..empty_rule()
    };
    let member = RuleDef { kind: Some(IDENTIFIER), ..empty_rule() };
    let mut utils = RuleMap::new();
    if reversed {
        utils.insert("member-name".to_string(), member);
        utils.insert("accessor-name".to_string(), accessor);
    } else {
        utils.insert("accessor-name".to_string(), accessor);
        utils.insert("member-name".to_string(), member);
    }
    utils
}

fn check_local_util_matches(reversed: bool) {
    let utils = dependent_utils(reversed);
    assert_eq!(utils.entries.len(), 2);
    let env = DeserializeEnv::new(0).register_local_utils(&utils).ok().expect("should register");
    let top = RuleDef { matches: Some("accessor-name".to_string()), ..empty_rule() };
    let rule = deserialize_rule(&top, &env).ok().expect("should compile");
    let grep = leaf(IDENTIFIER, "identifier", "whatever");
    assert!(find_in_tree(&env.registration, &rule, &grep));
    let other = leaf(IDENTIFIER, "identifier", "other");
    assert!(!find_in_tree(&env.registration, &rule, &other));
}

#[test]
fn test_local_util_matches() {
    // insertion order must not matter: dependencies are resolved, not
    // taken in map order
    check_local_util_matches(false);
    check_local_util_matches(true);
}

#[test]
fn resolver_orders_dependencies_first() {
    let mut utils = RuleMap::new();
    utils.insert(
        "c".to_string(),
        RuleDef {
            all: Some(vec![RuleDef { matches: Some("a".to_string()), ..empty_rule() }]),
            ..empty_rule()
        },
    );
    utils.insert("a".to_string(), RuleDef { matches: Some("b".to_string()), ..empty_rule() });
    utils.insert("b".to_string(), RuleDef { kind: Some(2), ..empty_rule() });
    let order = TopologicalSort::get_order(&utils);
    assert_eq!(order.len(), 3);
    let pos = |id: &str| order.iter().position(|x| x == id).expect("id must appear");
    assert!(pos("b") < pos("a"));
    assert!(pos("a") < pos("c"));
}

#[test]
fn unresolved_reference_is_reported() {
    let env = DeserializeEnv::new(0);
    let top = RuleDef { matches: Some("missing".to_string()), ..empty_rule() };
    match deserialize_rule(&top, &env) {
        Err(RuleSerializeError::MatchesReference(id)) => assert_eq!(id, "missing"),
        _ => panic!("expected a reference failure"),
    }
}

#[test]
fn duplicate_global_id_is_reported() {
    let cores = vec![
        RuleCoreDef { id: "g".to_string(), rule: RuleDef { kind: Some(3), ..empty_rule() } },
        RuleCoreDef { id: "g".to_string(), rule: RuleDef { kind: Some(4), ..empty_rule() } },
    ];
    match DeserializeEnv::parse_global_utils(cores) {
        Err(RuleConfigError::Rule(RuleSerializeError::DuplicateRule(id))) => assert_eq!(id, "g"),
        _ => panic!("expected a duplicate-id failure"),
    }
}

#[test]
fn duplicate_local_id_is_reported() {
    let env = DeserializeEnv::new(0);
    let raw = RuleDef { kind: Some(3), ..empty_rule() };
    let first = deserialize_rule(&raw, &env).ok().expect("compiles");
    let second = deserialize_rule(&raw, &env).ok().expect("compiles");
    let mut reg: RuleRegistration = env.registration;
    assert!(reg.insert_local(&"dup".to_string(), first).is_ok());
    match reg.insert_local(&"dup".to_string(), second) {
        Err(RuleSerializeError::DuplicateRule(id)) => assert_eq!(id, "dup"),
        _ => panic!("expected a duplicate-id failure"),
    }
}

#[test]
fn local_rule_resolves_against_globals() {
    let cores = vec![RuleCoreDef {
        id: "global-ident".to_string(),
        rule: RuleDef { kind: Some(IDENTIFIER), ..empty_rule() },
    }];
    let globals = DeserializeEnv::parse_global_utils(cores).ok().expect("globals compile");
    let env = DeserializeEnv::new(0).with_globals(globals);
    let top = RuleDef { matches: Some("global-ident".to_string()), ..empty_rule() };
    let rule = deserialize_rule(&top, &env).ok().expect("resolves via globals");
    assert!(rule_matches(&env.registration, &rule, &leaf(IDENTIFIER, "identifier", "x")));
    assert!(!rule_matches(&env.registration, &rule, &leaf(2, "number", "1")));
}

#[test]
fn composite_rules_follow_all_any_not() {
    let mut utils = RuleMap::new();
    utils.insert("ident".to_string(), RuleDef { kind: Some(IDENTIFIER), ..empty_rule() });
    let env = DeserializeEnv::new(0).register_local_utils(&utils).ok().expect("registers");
    let top = RuleDef {
        all: Some(vec![
            RuleDef { matches: Some("ident".to_string()), ..empty_rule() },
            RuleDef {
                not: Some(Box::new(RuleDef { regex: Some("bad".to_string()), ..empty_rule() })),
                ..empty_rule()
            },
        ]),
        any: Some(vec![
            RuleDef { regex: Some("good".to_string()), ..empty_rule() },
            RuleDef { regex: Some("fine".to_string()), ..empty_rule() },
        ]),
        ..empty_rule()
    };
    let rule = deserialize_rule(&top, &env).ok().expect("compiles");
    assert!(rule_matches(&env.registration, &rule, &leaf(IDENTIFIER, "identifier", "good one")));
    assert!(rule_matches(&env.registration, &rule, &leaf(IDENTIFIER, "identifier", "fine too")));
    assert!(!rule_matches(&env.registration, &rule, &leaf(IDENTIFIER, "identifier", "good but bad")));
    assert!(!rule_matches(&env.registration, &rule, &leaf(IDENTIFIER, "identifier", "neither")));
    assert!(!rule_matches(&env.registration, &rule, &leaf(2, "number", "good")));
}

#[test]
fn cycle_terminates_and_fails_at_lookup() {
    // a cycle through `matches` still terminates the dependency walk,
    // emits each id once, and surfaces as a compile failure
    let mut utils = RuleMap::new();
    utils.insert("a".to_string(), RuleDef { matches: Some("b".to_string()), ..empty_rule() });
    utils.insert("b".to_string(), RuleDef { matches: Some("a".to_string()), ..empty_rule() });
    let order = TopologicalSort::get_order(&utils);
    assert_eq!(order.len(), 2);
    assert!(order.contains(&"a".to_string()));
    assert!(order.contains(&"b".to_string()));
    match DeserializeEnv::new(0).register_local_utils(&utils) {
        Err(RuleSerializeError::MatchesReference(_)) => {},
        _ => panic!("a cyclic reference cannot compile"),
    }
}

#[test]
fn reference_under_not_is_not_an_ordering_dependency() {
    // the dependency walk deliberately skips `not`: a rule referenced
    // only under `not` may be registered after its dependent, and then
    // fails at lookup time instead
    let mut utils = RuleMap::new();
    utils.insert(
        "z-late".to_string(),
        RuleDef { kind: Some(IDENTIFIER), ..empty_rule() },
    );
    utils.insert(
        "a-early".to_string(),
        RuleDef {
            not: Some(Box::new(RuleDef { matches: Some("z-late".to_string()), ..empty_rule() })),
            ..empty_rule()
        },
    );
    let r = DeserializeEnv::new(0).register_local_utils(&utils);
    match r {
        Ok(env) => {
            // registration order happened to satisfy the reference
            assert_eq!(env.registration.locals.len(), 2);
        },
        Err(RuleSerializeError::MatchesReference(id)) => assert_eq!(id, "z-late"),
        Err(_) => panic!("only a reference failure is possible here"),
    }
}
