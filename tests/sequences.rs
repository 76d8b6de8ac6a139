use peacock_fuzz::cfg::ContextFreeGrammar;
use peacock_fuzz::components::{decode_raw, is_raw_name, PeacockGenerator, PeacockInput, PeacockMutator};
use peacock_fuzz::generator::{alternative_order, Generator};
use peacock_fuzz::lowlevel::{LLNonTerminal, LLSymbol, LLTerminal};
use peacock_fuzz::lowlevel::LowLevelGrammar;
use peacock_fuzz::parser::JsonValue;

fn peacock(entries: &[(&str, &[&[&str]])]) -> JsonValue {
    JsonValue::Object(
        entries
            .iter()
            .map(|(k, alts)| {
                (
                    k.to_string(),
                    JsonValue::Array(
                        alts.iter().map(|a| JsonValue::Array(a.iter().map(|t| JsonValue::Str(t.to_string())).collect())).collect(),
                    ),
                )
            })
            .collect(),
    )
}

fn generator(entries: &[(&str, &[&[&str]])]) -> Generator {
    let cfg = ContextFreeGrammar::builder().peacock_grammar("g.json", &peacock(entries)).unwrap().build().unwrap();
    Generator::new(LowLevelGrammar::from_high_level_grammar(&cfg))
}

fn branching() -> Generator {
    generator(&[("<ENTRYPOINT>", &[&["'x'", "<A>"]]), ("<A>", &[&["'y'"], &["'z'"]])])
}

#[test]
fn smallest_grammar() {
    let mut g = generator(&[("<ENTRYPOINT>", &[&["'a'"]])]);
    let mut buf = vec![7usize; 16];
    assert_eq!(g.mutate_sequence(&mut buf, 0), 1);
    assert_eq!(buf[0], 0);
    assert_eq!(g.serialize_sequence(&buf[..1], 16), b"a".to_vec());
    assert_eq!(g.unparse_sequence(16, b"a"), vec![0]);
}

#[test]
fn branching_grammar() {
    let mut g = branching();
    g.seed_generator(42);
    let mut buf = vec![0usize; 16];
    let n = g.mutate_sequence(&mut buf, 0);
    assert_eq!(n, 2);
    let out = g.serialize_sequence(&buf[..n], 16);
    assert!(out == b"xy".to_vec() || out == b"xz".to_vec());
    assert_eq!(out[1], if buf[1] == 0 { b'y' } else { b'z' });
    let mut h = branching();
    h.seed_generator(42);
    let mut again = vec![0usize; 16];
    h.mutate_sequence(&mut again, 0);
    assert_eq!(buf, again);
}

#[test]
fn concatenated_terminals_serialize_together() {
    let mut g = generator(&[("<ENTRYPOINT>", &[&["'ab'", "'cd'"]])]);
    let mut buf = vec![0usize; 4];
    assert_eq!(g.mutate_sequence(&mut buf, 0), 1);
    assert_eq!(g.serialize_sequence(&buf[..1], 4), b"abcd".to_vec());
}

#[test]
fn mixed_rule_round_trip() {
    let mut g = generator(&[("<ENTRYPOINT>", &[&["'x'", "<A>", "'y'"]]), ("<A>", &[&["'z'"]])]);
    let mut buf = vec![0usize; 32];
    let n = g.mutate_sequence(&mut buf, 0);
    let out = g.serialize_sequence(&buf[..n], 64);
    assert_eq!(out, b"xzy".to_vec());
    let seq = g.unparse_sequence(32, &out);
    assert_eq!(g.serialize_sequence(&seq, 64), out);
}

#[test]
fn capacity_exhaustion() {
    let mut g = generator(&[("<ENTRYPOINT>", &[&["'x'", "<ENTRYPOINT>"], &["'y'"]])]);
    for seed in 1..20 {
        g.seed_generator(seed);
        let mut buf = vec![0usize; 1];
        assert_eq!(g.mutate_sequence(&mut buf, 0), 1);
        let out = g.serialize_sequence(&buf, 8);
        assert!(out == b"y".to_vec() || out == b"x".to_vec());
    }
}

#[test]
fn empty_buffer_gives_zero() {
    let mut g = branching();
    let mut buf: Vec<usize> = Vec::new();
    assert_eq!(g.mutate_sequence(&mut buf, 0), 0);
    assert_eq!(g.unparse_sequence(0, b"xy"), Vec::<usize>::new());
    assert_eq!(g.unparse_sequence(8, b""), Vec::<usize>::new());
}

#[test]
fn serialize_never_exceeds_out_len() {
    let g = branching();
    for limit in 0..4 {
        let out = g.serialize_sequence(&[0, 1], limit);
        assert!(out.len() <= limit);
    }
    assert_eq!(g.serialize_sequence(&[0, 1], 1), b"x".to_vec());
}

#[test]
fn short_sequence_stops_early() {
    let g = branching();
    assert_eq!(g.serialize_sequence(&[0], 16), b"x".to_vec());
    assert_eq!(g.serialize_sequence(&[], 16), Vec::<u8>::new());
    assert_eq!(g.serialize_sequence(&[0, 5], 16), b"x".to_vec());
}

#[test]
fn round_trip_unambiguous() {
    let mut g = generator(&[("<ENTRYPOINT>", &[&["'('", "<L>"], &["'n'"]]), ("<L>", &[&["')'"], &["'n'", "<L>"]])]);
    for seed in 1..30 {
        g.seed_generator(seed);
        let mut buf = vec![0usize; 64];
        let n = g.mutate_sequence(&mut buf, 0);
        if n == 64 {
            continue;
        }
        let out = g.serialize_sequence(&buf[..n], 1024);
        let seq = g.unparse_sequence(64, &out);
        assert_eq!(seq, buf[..n].to_vec());
    }
}

#[test]
fn mutation_keeps_the_prefix() {
    let mut g = generator(&[("<ENTRYPOINT>", &[&["'a'", "<L>"]]), ("<L>", &[&["'b'"], &["'c'", "<L>"], &["'d'", "<L>", "<L>"]])]);
    g.seed_generator(7);
    let mut buf = vec![0usize; 256];
    let n = g.mutate_sequence(&mut buf, 0);
    let original = buf.clone();
    for k in 0..=n {
        let mut copy = original.clone();
        let m = g.mutate_sequence(&mut copy, k);
        assert_eq!(copy[..k.min(m)], original[..k.min(m)]);
        assert_eq!(copy[..k], original[..k]);
    }
}

#[test]
fn longer_prefix_leaves_the_tail() {
    let mut g = branching();
    let mut buf = vec![0usize, 1, 9, 9, 9];
    let n = g.mutate_sequence(&mut buf, 5);
    assert_eq!(n, 2);
    assert_eq!(buf, vec![0, 1, 9, 9, 9]);
}

#[test]
fn generated_sequences_serialize() {
    let mut g = generator(&[("<ENTRYPOINT>", &[&["'k'", "<V>"]]), ("<V>", &[&["'1'"], &["'['", "<V>", "<E>"]]), ("<E>", &[&["']'"]])]);
    for seed in 1..20 {
        g.seed_generator(seed);
        let mut buf = vec![0usize; 512];
        let n = g.mutate_sequence(&mut buf, 0);
        if n < 512 {
            let out = g.serialize_sequence(&buf[..n], 4096);
            assert_eq!(out[0], b'k');
            let opens = out.iter().filter(|c| **c == b'[').count();
            let closes = out.iter().filter(|c| **c == b']').count();
            assert_eq!(opens, closes);
        }
    }
}

#[test]
fn components_generate_and_mutate() {
    let mut g = branching();
    let input = PeacockGenerator::new().generate(&mut g, 16);
    assert_eq!(input.sequence().len(), 2);
    let mut input = PeacockInput::new(input.sequence().to_vec());
    let first = input.sequence()[0];
    PeacockMutator::new().mutate(&mut g, &mut input, 1, 16);
    assert_eq!(input.sequence()[0], first);
    assert_eq!(input.sequence().len(), 2);
}

#[test]
fn raw_inputs_decode_little_endian() {
    assert!(is_raw_name("peacock-raw-0123456789abcdef"));
    assert!(!is_raw_name("input.txt"));
    assert!(!is_raw_name("peacock-ra"));
    let bytes = [1u8, 0, 0, 0, 0, 0, 0, 0, 0, 1, 0, 0, 0, 0, 0, 0];
    assert_eq!(decode_raw(&bytes), Some(vec![1usize, 256]));
    assert_eq!(decode_raw(&bytes[..5]), None);
}

#[test]
fn inputs_from_files() {
    let g = branching();
    let raw = [0u8, 0, 0, 0, 0, 0, 0, 0, 1, 0, 0, 0, 0, 0, 0, 0];
    let input = PeacockInput::from_bytes("peacock-raw-00000000000000ff", &raw, &g, 16).unwrap();
    assert_eq!(input.sequence(), &[0, 1]);
    let input = PeacockInput::from_bytes("seed.txt", b"xz", &g, 16).unwrap();
    assert_eq!(input.sequence(), &[0, 1]);
    assert!(PeacockInput::from_bytes("seed.txt", b"q", &g, 16).is_none());
}

#[test]
fn alternatives_longest_first() {
    use_alternative_order();
}

fn use_alternative_order() {
    let short = vec![LLSymbol::Terminal(LLTerminal(0))];
    let long = vec![LLSymbol::Terminal(LLTerminal(0)), LLSymbol::NonTerminal(LLNonTerminal(0)), LLSymbol::NonTerminal(LLNonTerminal(0))];
    let mid = vec![LLSymbol::Terminal(LLTerminal(0)), LLSymbol::NonTerminal(LLNonTerminal(0))];
    let alts = vec![short.clone(), long.clone(), mid.clone(), short, long];
    assert_eq!(alternative_order(&alts), vec![1, 4, 2, 0, 3]);
}
