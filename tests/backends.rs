use peacock_fuzz::cfg::ContextFreeGrammar;
use peacock_fuzz::codegen::{hex_byte, rule_has_nonterminals, CGenerator};
use peacock_fuzz::formatter::CFormatter;
use peacock_fuzz::interpreter::GrammarInterpreter;
use peacock_fuzz::json_backend::{enclosed_in, terminal_string, JsonGenerator};
use peacock_fuzz::lowlevel::{LLNonTerminal, LLSymbol, LLTerminal, LowLevelGrammar};
use peacock_fuzz::parser::JsonValue;

fn gramatron(entries: &[(&str, &[&str])]) -> JsonValue {
    JsonValue::Object(
        entries
            .iter()
            .map(|(k, rules)| (k.to_string(), JsonValue::Array(rules.iter().map(|r| JsonValue::Str(r.to_string())).collect())))
            .collect(),
    )
}

fn sample_gramatron() -> JsonValue {
    gramatron(&[
        ("ENTRYPOINT", &["'{' MEMBERS '}'", "'[]'"]),
        ("MEMBERS", &["PAIR", "PAIR ',' MEMBERS"]),
        ("PAIR", &["'\"k\":' VALUE"]),
        ("VALUE", &["'1'", "'true'", "ENTRYPOINT"]),
    ])
}

fn peacock(entries: &[(&str, &[&[&str]])]) -> JsonValue {
    JsonValue::Object(
        entries
            .iter()
            .map(|(k, alts)| {
                (
                    k.to_string(),
                    JsonValue::Array(
                        alts.iter().map(|a| JsonValue::Array(a.iter().map(|t| JsonValue::Str(t.to_string())).collect())).collect(),
                    ),
                )
            })
            .collect(),
    )
}

#[test]
fn codegen_test_generator() {
    let cfg = ContextFreeGrammar::builder().gramatron_grammar("gramatron.json", &sample_gramatron()).unwrap().build().unwrap();
    let (source, header) = CGenerator::new().generate(&cfg);
    assert!(source.contains("size_t mutate_sequence (size_t* buf, size_t len, const size_t capacity) {"));
    assert!(source.contains("size_t serialize_sequence ("));
    assert!(source.contains("size_t unparse_sequence ("));
    assert!(source.contains("void seed_generator (size_t new_seed) {"));
    let header = header.unwrap();
    assert!(header.contains("#define __PEACOCK_GENERATOR_H"));
    assert!(header.contains("size_t unparse_sequence"));
    let (source, header) = CGenerator::new().generate_header(false).emit_mutation_procedure(false).generate(&cfg);
    assert!(header.is_none());
    assert!(!source.contains("mutate_sequence"));
}

#[test]
fn test_formatter() {
    let mut fmt = CFormatter::new();
    fmt.write("asdf {");
    fmt.indent();
    fmt.blankline();
    fmt.write("yeehaw");
    fmt.blankline();
    fmt.unindent();
    fmt.write("}");
    println!("{}", fmt.text);
    assert_eq!(fmt.text, "asdf {\n\n    yeehaw\n\n}\n");
}

#[test]
fn test_ll() {
    let cfg = ContextFreeGrammar::builder()
        .peacock_grammar(
            "unit_rules.json",
            &peacock(&[("<ENTRYPOINT>", &[&["<A>"]]), ("<A>", &[&["<B>"], &["'a'"]]), ("<B>", &[&["'b'"], &["'c'", "<B>"]])]),
        )
        .unwrap()
        .build()
        .unwrap();
    let ll = LowLevelGrammar::from_high_level_grammar(&cfg);
    println!("{:#?}", ll.rules());
    println!("terminals = {:?}", ll.terminals());
    println!("nonterminals = {:?}", ll.nonterminals());
    assert_eq!(ll.rules().len(), ll.nonterminals().len());
    assert_eq!(ll.nonterminals()[ll.entrypoint().id()], cfg.entrypoint().id());
    let total: usize = ll.rules().iter().map(|alts| alts.len()).sum();
    assert_eq!(total, cfg.rules().len());
    let mut terms = ll.terminals().to_vec();
    terms.sort();
    assert_eq!(terms, vec!["a", "b", "c"]);
}

#[test]
fn test_interpreter() {
    let cfg = ContextFreeGrammar::builder().gramatron_grammar("gramatron.json", &sample_gramatron()).unwrap().build().unwrap();
    let mut out: Vec<u8> = Vec::new();
    let mut interpreter = GrammarInterpreter::new(&cfg);
    interpreter.seed(1238);
    let len = interpreter.interpret(&mut out);
    println!("{}", String::from_utf8_lossy(&out));
    println!("Generated {} bytes", len);
    assert_eq!(len, out.len());
    assert!(len > 0);
    let first = out.clone();
    let mut again: Vec<u8> = Vec::new();
    let mut interpreter = GrammarInterpreter::new(&cfg);
    interpreter.seed(1238);
    interpreter.interpret(&mut again);
    assert_eq!(first, again);
}

#[test]
fn generator_test_generator() {
    let cfg = ContextFreeGrammar::builder()
        .gramatron_grammar("gramatron.json", &sample_gramatron())
        .unwrap()
        .optimize(false)
        .build()
        .unwrap();
    let entries = JsonGenerator::new().generate(&cfg);
    assert_eq!(entries[0].0, "<ENTRYPOINT>");
    assert_eq!(entries[0].1[0], vec!["{", "<MEMBERS>", "}"]);
    let value = JsonValue::Object(
        entries
            .into_iter()
            .map(|(k, alts)| {
                (k, JsonValue::Array(alts.into_iter().map(|a| JsonValue::Array(a.into_iter().map(JsonValue::Str).collect())).collect()))
            })
            .collect(),
    );
    ContextFreeGrammar::builder().peacock_grammar("/tmp/new.json", &value).unwrap().build().unwrap();
}

#[test]
fn terminal_strings_are_quoted_when_needed() {
    assert!(enclosed_in("<a>", '<', '>'));
    assert!(!enclosed_in("<", '<', '>'));
    assert_eq!(terminal_string("<a>"), "'<a>'");
    assert_eq!(terminal_string("'q'"), "''q''");
    assert_eq!(terminal_string("plain"), "plain");
}

#[test]
fn hex_literals() {
    assert_eq!(hex_byte(0x41), "0x41");
    assert_eq!(hex_byte(5), "0x5");
    assert_eq!(hex_byte(255), "0xFF");
}

#[test]
fn nonterminal_detection() {
    let rule = vec![LLSymbol::Terminal(LLTerminal(0)), LLSymbol::NonTerminal(LLNonTerminal(1))];
    assert!(rule_has_nonterminals(&rule));
    assert!(!rule_has_nonterminals(&rule[..1]));
}
