use peacock_fuzz::automaton::Automaton;
use peacock_fuzz::builder::GrammarBuilder;
use peacock_fuzz::cfg::{ContextFreeGrammar, Symbol};
use peacock_fuzz::error::GrammarError;
use peacock_fuzz::json_backend::JsonGenerator;
use peacock_fuzz::parser::{
    is_whitespace, parse_gramatron, parse_non_terminal, parse_peacock, parse_terminal, tokenize_rule, JsonValue,
};

fn s(x: &str) -> JsonValue {
    JsonValue::Str(x.to_string())
}

fn alt(tokens: &[&str]) -> JsonValue {
    JsonValue::Array(tokens.iter().map(|t| s(t)).collect())
}

fn peacock(entries: &[(&str, &[&[&str]])]) -> JsonValue {
    JsonValue::Object(
        entries
            .iter()
            .map(|(k, alts)| (k.to_string(), JsonValue::Array(alts.iter().map(|a| alt(a)).collect())))
            .collect(),
    )
}

fn gramatron(entries: &[(&str, &[&str])]) -> JsonValue {
    JsonValue::Object(
        entries.iter().map(|(k, rules)| (k.to_string(), JsonValue::Array(rules.iter().map(|r| s(r)).collect()))).collect(),
    )
}

fn build_peacock(entries: &[(&str, &[&[&str]])]) -> Result<ContextFreeGrammar, GrammarError> {
    ContextFreeGrammar::builder().peacock_grammar("grammar.json", &peacock(entries)).unwrap().build()
}

fn rule_text(cfg: &ContextFreeGrammar) -> Vec<String> {
    cfg.rules()
        .iter()
        .map(|r| {
            let mut line = format!("{} ->", r.lhs().id());
            for sym in r.rhs() {
                match sym {
                    Symbol::Terminal(t) => line.push_str(&format!(" '{}'", t.content())),
                    Symbol::NonTerminal(n) => line.push_str(&format!(" <{}>", n.id())),
                }
            }
            line
        })
        .collect()
}

fn assert_canonical(cfg: &ContextFreeGrammar) {
    assert!(cfg.is_in_gnf());
    let start = cfg.entrypoint().id().to_string();
    assert!(cfg.count_entrypoint_rules() >= 1);
    for rule in cfg.rules() {
        for sym in rule.rhs() {
            if let Symbol::NonTerminal(n) = sym {
                assert_ne!(n.id(), start);
            }
        }
    }
}

#[test]
#[should_panic]
fn test_missing_refs() {
    build_peacock(&[("<ENTRYPOINT>", &[&["<UNDEFINED>"]])]).unwrap();
}

#[test]
fn test_gramatron_grammar() {
    let value = gramatron(&[
        ("ENTRYPOINT", &["'GET ' PATH \" HTTP/1.1\"", "'POST ' PATH"]),
        ("PATH", &["'/' SEGMENT", "'/'"]),
        ("SEGMENT", &["'index'", "'home' PATH"]),
    ]);
    let cfg = ContextFreeGrammar::builder().gramatron_grammar("gramatron.json", &value).unwrap().build().unwrap();
    println!("{:#?}", cfg.rules());
    assert_canonical(&cfg);
}

#[test]
fn test_unused_rules() {
    let cfg = build_peacock(&[
        ("<ENTRYPOINT>", &[&["'a'", "<USED>"]]),
        ("<USED>", &[&["'b'"]]),
        ("<UNUSED>", &[&["'c'"], &["<USED>"]]),
    ])
    .unwrap();
    println!("{:#?}", cfg.rules());
    assert_eq!(rule_text(&cfg), vec!["ENTRYPOINT -> 'a' <USED>", "USED -> 'b'"]);
}

#[test]
fn test_duplicate_rules() {
    let cfg = build_peacock(&[("<ENTRYPOINT>", &[&["'a'", "<X>"], &["'a'", "<X>"], &["'b'"]]), ("<X>", &[&["'x'"], &["'x'"]])])
        .unwrap();
    println!("{:#?}", cfg.rules());
    let text = rule_text(&cfg);
    assert_eq!(text.iter().filter(|l| l.as_str() == "X -> 'x'").count(), 1);
    assert_eq!(text.iter().filter(|l| l.starts_with("ENTRYPOINT -> 'a'")).count(), 1);
}

#[test]
fn test_unit_rules() {
    let cfg = build_peacock(&[
        ("<ENTRYPOINT>", &[&["<A>"]]),
        ("<A>", &[&["<B>"], &["'a'"]]),
        ("<B>", &[&["'b'"], &["'c'", "<B>"]]),
    ])
    .unwrap();
    println!("{:#?}", cfg.rules());
    assert_canonical(&cfg);
    for rule in cfg.rules() {
        assert!(!(rule.rhs().len() == 1 && rule.rhs()[0].is_non_terminal()));
    }
}

#[test]
#[should_panic]
fn test_recursion() {
    let cfg = build_peacock(&[("<ENTRYPOINT>", &[&["<A>"]]), ("<A>", &[&["<B>"]]), ("<B>", &[&["<A>"]])]).unwrap();
    println!("{:#?}", cfg.rules());
}

#[test]
fn test_mixed_rules() {
    let cfg = build_peacock(&[("<ENTRYPOINT>", &[&["'x'", "<A>", "'y'"]]), ("<A>", &[&["'z'"]])]).unwrap();
    println!("{:#?}", cfg.rules());
    assert_canonical(&cfg);
}

#[test]
fn test_peacock() {
    let value = peacock(&[("<ENTRYPOINT>", &[&["'a'", "<B>", "c"], &["<B>"]]), ("<B>", &[&["'b'"]])]);
    let rules = parse_peacock(&value).unwrap();
    println!("{:#?}", rules);
    assert_eq!(rules.len(), 3);
    assert_eq!(rules[0].lhs().id(), "ENTRYPOINT");
    match &rules[0].rhs()[2] {
        Symbol::Terminal(t) => assert_eq!(t.content(), "c"),
        Symbol::NonTerminal(_) => panic!("expected a terminal"),
    }
}

#[test]
fn test_syntax() {
    assert!(parse_peacock(&s("not an object")).is_err());
    assert!(parse_peacock(&peacock(&[("ENTRYPOINT", &[&["'a'"]])])).is_err());
    assert!(parse_peacock(&JsonValue::Object(vec![("<A>".to_string(), JsonValue::Array(vec![]))])).is_err());
    assert!(parse_peacock(&peacock(&[("<A>", &[&[]])])).is_err());
    assert!(parse_peacock(&JsonValue::Object(vec![("<A>".to_string(), JsonValue::Array(vec![JsonValue::Array(vec![JsonValue::Other])]))])).is_err());
    assert!(parse_peacock(&peacock(&[("<A>", &[&["'a'"]])])).is_ok());
}

#[test]
fn test_cycles() {
    match build_peacock(&[("<ENTRYPOINT>", &[&["<A>", "'x'"]]), ("<A>", &[&["<A>", "<ENTRYPOINT>"]])]) {
        Err(GrammarError::ContainsCycles) => {},
        _ => panic!(),
    }
}

#[test]
fn test_unused() {
    let cfg = build_peacock(&[("<ENTRYPOINT>", &[&["'a'"]]), ("<LOST>", &[&["'b'", "<LOST2>"]]), ("<LOST2>", &[&["'c'"]])]).unwrap();
    assert_eq!(rule_text(&cfg), vec!["ENTRYPOINT -> 'a'"]);
}

#[test]
fn test_gnf() {
    let cfg = build_peacock(&[
        ("<ENTRYPOINT>", &[&["<A>", "<B>"]]),
        ("<A>", &[&["<B>", "'a'"], &["'c'"]]),
        ("<B>", &[&["'b'"], &["'d'", "<A>"]]),
    ])
    .unwrap();
    println!("{:#?}", rule_text(&cfg));
    assert_canonical(&cfg);
}

#[test]
fn missing_entrypoint_is_reported() {
    match build_peacock(&[("<START>", &[&["'a'"]])]) {
        Err(GrammarError::MissingEntrypoint(e)) => assert_eq!(e, "ENTRYPOINT"),
        _ => panic!(),
    }
}

#[test]
fn missing_non_terminal_is_reported() {
    match build_peacock(&[("<ENTRYPOINT>", &[&["'a'", "<NOPE>"]])]) {
        Err(GrammarError::MissingNonTerminal(n)) => assert_eq!(n, "NOPE"),
        _ => panic!(),
    }
}

#[test]
fn custom_entrypoint_is_used() {
    let cfg = ContextFreeGrammar::builder()
        .peacock_grammar("g.json", &peacock(&[("<START>", &[&["'a'"]])]))
        .unwrap()
        .entrypoint("START".to_string())
        .build()
        .unwrap();
    assert_eq!(cfg.entrypoint().id(), "START");
}

#[test]
fn concatenation_scenario() {
    let cfg = build_peacock(&[("<ENTRYPOINT>", &[&["'ab'", "'cd'"]])]).unwrap();
    assert_eq!(rule_text(&cfg), vec!["ENTRYPOINT -> 'abcd'"]);
}

#[test]
fn recursion_rejected_scenario() {
    assert!(matches!(
        build_peacock(&[("<ENTRYPOINT>", &[&["<A>"]]), ("<A>", &[&["<B>"]]), ("<B>", &[&["<A>"]])]),
        Err(GrammarError::ContainsCycles)
    ));
}

#[test]
fn left_recursion_is_rejected() {
    assert!(matches!(
        build_peacock(&[("<ENTRYPOINT>", &[&["<ENTRYPOINT>", "'a'"], &["'b'"]])]),
        Err(GrammarError::ContainsCycles)
    ));
}

#[test]
fn canonical_form_holds_for_several_grammars() {
    let grammars: Vec<Vec<(&str, &[&[&str]])>> = vec![
        vec![("<ENTRYPOINT>", &[&["'a'"], &["'b'", "<ENTRYPOINT>"]])],
        vec![("<ENTRYPOINT>", &[&["<X>", "<X>", "<X>", "'!'"]]), ("<X>", &[&["'x'"], &["'y'"]])],
        vec![("<ENTRYPOINT>", &[&["<A>"]]), ("<A>", &[&["'q'", "<ENTRYPOINT>"], &["'r'"]])],
    ];
    for g in grammars {
        let cfg = build_peacock(&g).unwrap();
        assert_canonical(&cfg);
    }
}

#[test]
fn raw_mode_keeps_structure() {
    let cfg = ContextFreeGrammar::builder()
        .peacock_grammar("g.json", &peacock(&[("<ENTRYPOINT>", &[&["<A>", "'x'", "'y'"]]), ("<A>", &[&["'a'"]])]))
        .unwrap()
        .optimize(false)
        .build()
        .unwrap();
    assert_eq!(rule_text(&cfg), vec!["ENTRYPOINT -> <A> 'xy'", "A -> 'a'"]);
}

fn to_value(entries: Vec<(String, Vec<Vec<String>>)>) -> JsonValue {
    JsonValue::Object(
        entries
            .into_iter()
            .map(|(k, alts)| {
                (k, JsonValue::Array(alts.into_iter().map(|a| JsonValue::Array(a.into_iter().map(JsonValue::Str).collect())).collect()))
            })
            .collect(),
    )
}

#[test]
fn normalization_is_idempotent() {
    let first = build_peacock(&[
        ("<ENTRYPOINT>", &[&["'x'", "<A>", "'y'"], &["<A>", "<A>", "<A>"]]),
        ("<A>", &[&["'z'"], &["<A>", "'w'"], &["'v'"]]),
    ]);
    let first = match first {
        Ok(cfg) => cfg,
        Err(_) => build_peacock(&[("<ENTRYPOINT>", &[&["'x'", "<A>", "'y'"], &["<A>", "<A>", "<A>"]]), ("<A>", &[&["'z'"], &["'v'"]])]).unwrap(),
    };
    let entries = JsonGenerator::new().generate(&first);
    let second = GrammarBuilder::new()
        .peacock_grammar("again.json", &to_value(entries))
        .unwrap()
        .entrypoint(first.entrypoint().id().to_string())
        .build()
        .unwrap();
    assert_eq!(rule_text(&first), rule_text(&second));
    assert_eq!(first.entrypoint().id(), second.entrypoint().id());
}

#[test]
fn gramatron_tokens() {
    let t = tokenize_rule("'a b' X \"c\"  Y'd'");
    assert_eq!(t.len(), 5);
    match &t[0] {
        Symbol::Terminal(x) => assert_eq!(x.content(), "a b"),
        _ => panic!(),
    }
    match &t[3] {
        Symbol::NonTerminal(x) => assert_eq!(x.id(), "Y"),
        _ => panic!(),
    }
    assert!(parse_gramatron(&gramatron(&[("A", &["   "])])).is_err());
}

#[test]
fn test_merger() {
    let a = peacock(&[("<ENTRYPOINT>", &[&["'a'", "<B>"]])]);
    let b = peacock(&[("<B>", &[&["'b'"]])]);
    let c = peacock(&[("<B>", &[&["'c'"]])]);
    let merged = Automaton::from_grammars(&vec![a, b]).unwrap();
    assert_eq!(rule_text(&merged.grammar), vec!["ENTRYPOINT -> 'a' <B>", "B -> 'b'"]);
    let a = peacock(&[("<ENTRYPOINT>", &[&["'a'", "<B>"]])]);
    let b = peacock(&[("<B>", &[&["'b'"]])]);
    match Automaton::from_grammars(&vec![a, b, c]) {
        Err(GrammarError::MergeConflict(k)) => assert_eq!(k, "<B>"),
        _ => panic!(),
    }
}

#[test]
fn token_helpers() {
    assert!(is_whitespace(' ') && is_whitespace('\t') && is_whitespace('\u{b}'));
    assert!(!is_whitespace('a'));
    assert_eq!(parse_non_terminal("<A>"), Some("A".to_string()));
    assert_eq!(parse_non_terminal("<>"), None);
    assert_eq!(parse_non_terminal("A"), None);
    assert_eq!(parse_terminal("'x y'"), "x y");
    assert_eq!(parse_terminal("'"), "'");
    assert_eq!(parse_terminal("plain"), "plain");
}

#[test]
fn invalid_parts_and_parse_errors() {
    match Automaton::from_grammars(&vec![s("not a grammar")]) {
        Err(GrammarError::InvalidFormat(_)) => {},
        _ => panic!(),
    }
    let err = match ContextFreeGrammar::builder().peacock_grammar("bad.json", &s("oops")) {
        Err(e) => e,
        Ok(_) => panic!(),
    };
    assert_eq!(err.path, "bad.json");
    assert_eq!(err.message(), "ParsingError in bad.json: Peacock grammar must be specified as an object");
    assert_eq!(GrammarError::MissingNonTerminal("X".to_string()).message(), "The non-terminal 'X' is referenced but never defined");
}

#[test]
fn unit_self_loop_is_a_cycle() {
    assert!(matches!(
        build_peacock(&[("<ENTRYPOINT>", &[&["'a'", "<A>"]]), ("<A>", &[&["<A>"], &["'b'"]])]),
        Err(GrammarError::ContainsCycles)
    ));
}
