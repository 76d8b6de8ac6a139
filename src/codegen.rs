use vstd::prelude::*;
use vstd::string::*;

use crate::formatter::{text_line, CFormatter};
use vstd::seq_lib::lemma_concat_associative;
use crate::lowlevel::{alt_ok, LLSymbol, LowLevelGrammar};
use crate::text::{dec, decimal, join3};

verus! {

/// Some symbol of `rule` is a non-terminal.
pub open spec fn has_nonterminal(rule: Seq<LLSymbol>) -> bool {
    exists|k: int| 0 <= k < rule.len() && rule[k] is NonTerminal
}

/// Some symbol of `rule` is a terminal.
pub open spec fn has_terminal(rule: Seq<LLSymbol>) -> bool {
    exists|k: int| 0 <= k < rule.len() && rule[k] is Terminal
}

/// Whether some symbol of `rule` is a non-terminal.
pub fn rule_has_nonterminals(rule: &[LLSymbol]) -> (r: bool)
    ensures
        r == has_nonterminal(rule@),
{
    let mut k: usize = 0;
    while k < rule.len()
        invariant
            k <= rule@.len(),
            forall|m: int| 0 <= m < k ==> !(rule@[m] is NonTerminal),
        decreases rule@.len() - k,
    {
        if let LLSymbol::NonTerminal(_) = rule[k] {
            return true;
        }
        k += 1;
    }
    false
}

/// Whether some rule of `rules` has a non-terminal.
pub fn rules_have_nonterminals(rules: &[Vec<LLSymbol>]) -> (r: bool)
    ensures
        r == exists|a: int| 0 <= a < rules@.len() && has_nonterminal(#[trigger] rules@[a]@),
{
    let mut a: usize = 0;
    while a < rules.len()
        invariant
            a <= rules@.len(),
            forall|m: int| 0 <= m < a ==> !has_nonterminal(#[trigger] rules@[m]@),
        decreases rules@.len() - a,
    {
        if rule_has_nonterminals(rules[a].as_slice()) {
            return true;
        }
        a += 1;
    }
    false
}

/// Whether some symbol of `rule` is a terminal.
pub fn rule_has_terminals(rule: &[LLSymbol]) -> (r: bool)
    ensures
        r == has_terminal(rule@),
{
    let mut k: usize = 0;
    while k < rule.len()
        invariant
            k <= rule@.len(),
            forall|m: int| 0 <= m < k ==> !(rule@[m] is Terminal),
        decreases rule@.len() - k,
    {
        if let LLSymbol::Terminal(_) = rule[k] {
            return true;
        }
        k += 1;
    }
    false
}

/// Whether some rule of `rules` has a terminal.
pub fn rules_have_terminals(rules: &[Vec<LLSymbol>]) -> (r: bool)
    ensures
        r == exists|a: int| 0 <= a < rules@.len() && has_terminal(#[trigger] rules@[a]@),
{
    let mut a: usize = 0;
    while a < rules.len()
        invariant
            a <= rules@.len(),
            forall|m: int| 0 <= m < a ==> !has_terminal(#[trigger] rules@[m]@),
        decreases rules@.len() - a,
    {
        if rule_has_terminals(rules[a].as_slice()) {
            return true;
        }
        a += 1;
    }
    false
}

/// Write `a`, the decimal form of `n`, then `b`, as one line.
fn write_num(fmt: &mut CFormatter, a: &str, n: usize, b: &str)
    ensures
        final(fmt).indentation == old(fmt).indentation,
        final(fmt).text@ == old(fmt).text@ + text_line(old(fmt).indentation as nat, a@ + dec(n as nat) + b@),
{
    let d = decimal(n);
    let line = join3(a, d.as_str(), b);
    fmt.write(line.as_str());
}

/// Write `a`, `n`, `b`, `m`, `c` as one line, the numbers in decimal.
fn write_num2(fmt: &mut CFormatter, a: &str, n: usize, b: &str, m: usize, c: &str)
    ensures
        final(fmt).indentation == old(fmt).indentation,
        final(fmt).text@ == old(fmt).text@ + text_line(old(fmt).indentation as nat, a@ + dec(n as nat) + b@ + dec(m as nat) + c@),
{
    let d = decimal(n);
    let e = decimal(m);
    let mut line = join3(a, d.as_str(), b);
    line.append(e.as_str());
    line.append(c);
    assert(line@ =~= a@ + dec(n as nat) + b@ + dec(m as nat) + c@);
    fmt.write(line.as_str());
}

/// Write `a`, `n`, `b`, `n`, then `c`, as one line.
fn write_num_twice(fmt: &mut CFormatter, a: &str, n: usize, b: &str, c: &str)
    ensures
        final(fmt).indentation == old(fmt).indentation,
        final(fmt).text@ == old(fmt).text@ + text_line(old(fmt).indentation as nat, a@ + dec(n as nat) + b@ + dec(n as nat) + c@),
{
    let s = decimal(n);
    let mut line = join3(a, s.as_str(), b);
    line.append(s.as_str());
    line.append(c);
    assert(line@ =~= a@ + dec(n as nat) + b@ + dec(n as nat) + c@);
    fmt.write(line.as_str());
}

/// Write `a`, `n`, `b`, `n`, `c` and `n` again, then `d`, as one line.
fn write_num3(fmt: &mut CFormatter, a: &str, n: usize, b: &str, c: &str, d: &str)
    ensures
        final(fmt).indentation == old(fmt).indentation,
        final(fmt).text@ == old(fmt).text@ + text_line(
            old(fmt).indentation as nat,
            a@ + dec(n as nat) + b@ + dec(n as nat) + c@ + dec(n as nat) + d@,
        ),
{
    let s = decimal(n);
    let mut line = join3(a, s.as_str(), b);
    line.append(s.as_str());
    line.append(c);
    line.append(s.as_str());
    line.append(d);
    assert(line@ =~= a@ + dec(n as nat) + b@ + dec(n as nat) + c@ + dec(n as nat) + d@);
    fmt.write(line.as_str());
}

/// The uppercase hexadecimal digit for `d < 16`.
pub open spec fn hex_char(d: nat) -> char {
    if d < 10 {
        crate::text::digit_char(d)
    } else if d == 10 {
        'A'
    } else if d == 11 {
        'B'
    } else if d == 12 {
        'C'
    } else if d == 13 {
        'D'
    } else if d == 14 {
        'E'
    } else {
        'F'
    }
}

/// `b` in C hexadecimal notation without leading zeros.
pub open spec fn hex_text(b: u8) -> Seq<char> {
    if b >= 16 {
        seq!['0', 'x', hex_char((b / 16) as nat), hex_char((b % 16) as nat)]
    } else {
        seq!['0', 'x', hex_char(b as nat)]
    }
}

fn hex_digit(d: u8) -> (r: &'static str)
    requires
        d < 16,
    ensures
        r@ == seq![hex_char(d as nat)],
{
    proof {
        reveal_strlit("0");
        reveal_strlit("1");
        reveal_strlit("2");
        reveal_strlit("3");
        reveal_strlit("4");
        reveal_strlit("5");
        reveal_strlit("6");
        reveal_strlit("7");
        reveal_strlit("8");
        reveal_strlit("9");
        reveal_strlit("A");
        reveal_strlit("B");
        reveal_strlit("C");
        reveal_strlit("D");
        reveal_strlit("E");
        reveal_strlit("F");
    }
    if d < 10 {
        if d == 0 { "0" } else if d == 1 { "1" } else if d == 2 { "2" } else if d == 3 { "3" } else if d == 4 { "4" }
        else if d == 5 { "5" } else if d == 6 { "6" } else if d == 7 { "7" } else if d == 8 { "8" } else { "9" }
    } else {
        if d == 10 { "A" } else if d == 11 { "B" } else if d == 12 { "C" } else if d == 13 { "D" } else if d == 14 { "E" } else { "F" }
    }
}

/// `b` as a C hexadecimal literal without leading zeros, such as `0x41`.
pub fn hex_byte(b: u8) -> (r: String)
    ensures
        r@ == hex_text(b),
{
    proof {
        reveal_strlit("0x");
    }
    let mut s = String::from_str("0x");
    if b >= 16 {
        s.append(hex_digit(b / 16));
    }
    s.append(hex_digit(b % 16));
    assert(s@ =~= hex_text(b));
    s
}

/// The text of the standard headers at indentation `i`.
pub open spec fn includes_text(i: nat) -> Seq<char> {
    text_line(i, "#include <stddef.h>"@)
        + seq!['\n']
}

/// The standard headers.
fn emit_includes(fmt: &mut CFormatter)
    requires
        old(fmt).indentation <= usize::MAX - 4,
    ensures
        final(fmt).indentation == old(fmt).indentation,
        final(fmt).text@ == old(fmt).text@ + includes_text(old(fmt).indentation as nat),
{
    let ghost t0 = fmt.text@;
    fmt.write("#include <stddef.h>");
    let ghost mut acc = text_line(old(fmt).indentation as nat, "#include <stddef.h>"@);
    assert(fmt.text@ == t0 + acc);
    fmt.blankline();
    proof {
        lemma_concat_associative(t0, acc, seq!['\n']);
        acc = acc + seq!['\n'];
    }
    assert(fmt.text@ == t0 + acc);
    assert(acc == includes_text(old(fmt).indentation as nat));
}

/// The text of the helper macros for thread-locality, branch hints, copying and visibility at indentation `i`.
pub open spec fn macros_text(i: nat) -> Seq<char> {
    text_line(i, "/* Helper Macros */"@)
        + text_line(i, "#undef THREAD_LOCAL"@)
        + text_line(i, "#ifdef MULTITHREADING"@)
        + text_line(i, "#define THREAD_LOCAL __thread"@)
        + text_line(i, "#else"@)
        + text_line(i, "#define THREAD_LOCAL"@)
        + text_line(i, "#endif"@)
        + seq!['\n']
        + text_line(i, "#undef UNLIKELY"@)
        + text_line(i, "#define UNLIKELY(x) __builtin_expect(!!(x), 0)"@)
        + text_line(i, "#undef LIKELY"@)
        + text_line(i, "#define LIKELY(x) __builtin_expect(!!(x), 1)"@)
        + seq!['\n']
        + text_line(i, "#ifndef __clang__"@)
        + text_line(i, "#undef __builtin_memcpy_inline"@)
        + text_line(i, "#define __builtin_memcpy_inline __builtin_memcpy"@)
        + text_line(i, "#endif"@)
        + seq!['\n']
        + text_line(i, "#undef EXPORT_FUNCTION"@)
        + text_line(i, "#ifdef MAKE_VISIBLE"@)
        + text_line(i, "#define EXPORT_FUNCTION __attribute__((visibility (\"default\")))"@)
        + text_line(i, "#else"@)
        + text_line(i, "#define EXPORT_FUNCTION"@)
        + text_line(i, "#endif"@)
        + seq!['\n']
}

/// The helper macros for thread-locality, branch hints, copying and visibility.
#[verifier::rlimit(100)]
fn emit_macros(fmt: &mut CFormatter)
    requires
        old(fmt).indentation <= usize::MAX - 4,
    ensures
        final(fmt).indentation == old(fmt).indentation,
        final(fmt).text@ == old(fmt).text@ + macros_text(old(fmt).indentation as nat),
{
    let ghost t0 = fmt.text@;
    fmt.write("/* Helper Macros */");
    let ghost mut acc = text_line(old(fmt).indentation as nat, "/* Helper Macros */"@);
    assert(fmt.text@ == t0 + acc);
    fmt.write("#undef THREAD_LOCAL");
    proof {
        lemma_concat_associative(t0, acc, text_line(old(fmt).indentation as nat, "#undef THREAD_LOCAL"@));
        acc = acc + text_line(old(fmt).indentation as nat, "#undef THREAD_LOCAL"@);
    }
    assert(fmt.text@ == t0 + acc);
    fmt.write("#ifdef MULTITHREADING");
    proof {
        lemma_concat_associative(t0, acc, text_line(old(fmt).indentation as nat, "#ifdef MULTITHREADING"@));
        acc = acc + text_line(old(fmt).indentation as nat, "#ifdef MULTITHREADING"@);
    }
    assert(fmt.text@ == t0 + acc);
    fmt.write("#define THREAD_LOCAL __thread");
    proof {
        lemma_concat_associative(t0, acc, text_line(old(fmt).indentation as nat, "#define THREAD_LOCAL __thread"@));
        acc = acc + text_line(old(fmt).indentation as nat, "#define THREAD_LOCAL __thread"@);
    }
    assert(fmt.text@ == t0 + acc);
    fmt.write("#else");
    proof {
        lemma_concat_associative(t0, acc, text_line(old(fmt).indentation as nat, "#else"@));
        acc = acc + text_line(old(fmt).indentation as nat, "#else"@);
    }
    assert(fmt.text@ == t0 + acc);
    fmt.write("#define THREAD_LOCAL");
    proof {
        lemma_concat_associative(t0, acc, text_line(old(fmt).indentation as nat, "#define THREAD_LOCAL"@));
        acc = acc + text_line(old(fmt).indentation as nat, "#define THREAD_LOCAL"@);
    }
    assert(fmt.text@ == t0 + acc);
    fmt.write("#endif");
    proof {
        lemma_concat_associative(t0, acc, text_line(old(fmt).indentation as nat, "#endif"@));
        acc = acc + text_line(old(fmt).indentation as nat, "#endif"@);
    }
    assert(fmt.text@ == t0 + acc);
    fmt.blankline();
    proof {
        lemma_concat_associative(t0, acc, seq!['\n']);
        acc = acc + seq!['\n'];
    }
    assert(fmt.text@ == t0 + acc);
    fmt.write("#undef UNLIKELY");
    proof {
        lemma_concat_associative(t0, acc, text_line(old(fmt).indentation as nat, "#undef UNLIKELY"@));
        acc = acc + text_line(old(fmt).indentation as nat, "#undef UNLIKELY"@);
    }
    assert(fmt.text@ == t0 + acc);
    fmt.write("#define UNLIKELY(x) __builtin_expect(!!(x), 0)");
    proof {
        lemma_concat_associative(t0, acc, text_line(old(fmt).indentation as nat, "#define UNLIKELY(x) __builtin_expect(!!(x), 0)"@));
        acc = acc + text_line(old(fmt).indentation as nat, "#define UNLIKELY(x) __builtin_expect(!!(x), 0)"@);
    }
    assert(fmt.text@ == t0 + acc);
    fmt.write("#undef LIKELY");
    proof {
        lemma_concat_associative(t0, acc, text_line(old(fmt).indentation as nat, "#undef LIKELY"@));
        acc = acc + text_line(old(fmt).indentation as nat, "#undef LIKELY"@);
    }
    assert(fmt.text@ == t0 + acc);
    fmt.write("#define LIKELY(x) __builtin_expect(!!(x), 1)");
    proof {
        lemma_concat_associative(t0, acc, text_line(old(fmt).indentation as nat, "#define LIKELY(x) __builtin_expect(!!(x), 1)"@));
        acc = acc + text_line(old(fmt).indentation as nat, "#define LIKELY(x) __builtin_expect(!!(x), 1)"@);
    }
    assert(fmt.text@ == t0 + acc);
    fmt.blankline();
    proof {
        lemma_concat_associative(t0, acc, seq!['\n']);
        acc = acc + seq!['\n'];
    }
    assert(fmt.text@ == t0 + acc);
    fmt.write("#ifndef __clang__");
    proof {
        lemma_concat_associative(t0, acc, text_line(old(fmt).indentation as nat, "#ifndef __clang__"@));
        acc = acc + text_line(old(fmt).indentation as nat, "#ifndef __clang__"@);
    }
    assert(fmt.text@ == t0 + acc);
    fmt.write("#undef __builtin_memcpy_inline");
    proof {
        lemma_concat_associative(t0, acc, text_line(old(fmt).indentation as nat, "#undef __builtin_memcpy_inline"@));
        acc = acc + text_line(old(fmt).indentation as nat, "#undef __builtin_memcpy_inline"@);
    }
    assert(fmt.text@ == t0 + acc);
    fmt.write("#define __builtin_memcpy_inline __builtin_memcpy");
    proof {
        lemma_concat_associative(t0, acc, text_line(old(fmt).indentation as nat, "#define __builtin_memcpy_inline __builtin_memcpy"@));
        acc = acc + text_line(old(fmt).indentation as nat, "#define __builtin_memcpy_inline __builtin_memcpy"@);
    }
    assert(fmt.text@ == t0 + acc);
    fmt.write("#endif");
    proof {
        lemma_concat_associative(t0, acc, text_line(old(fmt).indentation as nat, "#endif"@));
        acc = acc + text_line(old(fmt).indentation as nat, "#endif"@);
    }
    assert(fmt.text@ == t0 + acc);
    fmt.blankline();
    proof {
        lemma_concat_associative(t0, acc, seq!['\n']);
        acc = acc + seq!['\n'];
    }
    assert(fmt.text@ == t0 + acc);
    fmt.write("#undef EXPORT_FUNCTION");
    proof {
        lemma_concat_associative(t0, acc, text_line(old(fmt).indentation as nat, "#undef EXPORT_FUNCTION"@));
        acc = acc + text_line(old(fmt).indentation as nat, "#undef EXPORT_FUNCTION"@);
    }
    assert(fmt.text@ == t0 + acc);
    fmt.write("#ifdef MAKE_VISIBLE");
    proof {
        lemma_concat_associative(t0, acc, text_line(old(fmt).indentation as nat, "#ifdef MAKE_VISIBLE"@));
        acc = acc + text_line(old(fmt).indentation as nat, "#ifdef MAKE_VISIBLE"@);
    }
    assert(fmt.text@ == t0 + acc);
    fmt.write("#define EXPORT_FUNCTION __attribute__((visibility (\"default\")))");
    proof {
        lemma_concat_associative(t0, acc, text_line(old(fmt).indentation as nat, "#define EXPORT_FUNCTION __attribute__((visibility (\"default\")))"@));
        acc = acc + text_line(old(fmt).indentation as nat, "#define EXPORT_FUNCTION __attribute__((visibility (\"default\")))"@);
    }
    assert(fmt.text@ == t0 + acc);
    fmt.write("#else");
    proof {
        lemma_concat_associative(t0, acc, text_line(old(fmt).indentation as nat, "#else"@));
        acc = acc + text_line(old(fmt).indentation as nat, "#else"@);
    }
    assert(fmt.text@ == t0 + acc);
    fmt.write("#define EXPORT_FUNCTION");
    proof {
        lemma_concat_associative(t0, acc, text_line(old(fmt).indentation as nat, "#define EXPORT_FUNCTION"@));
        acc = acc + text_line(old(fmt).indentation as nat, "#define EXPORT_FUNCTION"@);
    }
    assert(fmt.text@ == t0 + acc);
    fmt.write("#endif");
    proof {
        lemma_concat_associative(t0, acc, text_line(old(fmt).indentation as nat, "#endif"@));
        acc = acc + text_line(old(fmt).indentation as nat, "#endif"@);
    }
    assert(fmt.text@ == t0 + acc);
    fmt.blankline();
    proof {
        lemma_concat_associative(t0, acc, seq!['\n']);
        acc = acc + seq!['\n'];
    }
    assert(fmt.text@ == t0 + acc);
    assert(acc == macros_text(old(fmt).indentation as nat));
}

/// The text of the xorshift random number source and `seed_generator` at indentation `i`.
pub open spec fn rand_text(i: nat) -> Seq<char> {
    text_line(i, "/* RNG */"@)
        + text_line(i, "#ifndef SEED"@)
        + text_line(i, " #define SEED 0x35c6be9ba2548264"@)
        + text_line(i, "#endif"@)
        + seq!['\n']
        + text_line(i, "static THREAD_LOCAL size_t rand_state = SEED;"@)
        + seq!['\n']
        + text_line(i, "#ifndef DISABLE_rand"@)
        + text_line(i, "static inline size_t rand (void) {"@)
        + text_line(i + 4, "size_t x = rand_state;"@)
        + text_line(i + 4, "x ^= x << 13;"@)
        + text_line(i + 4, "x ^= x >> 7;"@)
        + text_line(i + 4, "x ^= x << 17;"@)
        + text_line(i + 4, "return rand_state = x;"@)
        + text_line(i, "}"@)
        + text_line(i, "#else"@)
        + text_line(i, "size_t rand (void);"@)
        + text_line(i, "#endif"@)
        + seq!['\n']
        + text_line(i, "#ifndef DISABLE_seed"@)
        + text_line(i, "EXPORT_FUNCTION"@)
        + text_line(i, "void seed_generator (size_t new_seed) {"@)
        + text_line(i + 4, "if (!new_seed) {"@)
        + text_line(i + 8, "new_seed = 0xDEADBEEF;"@)
        + text_line(i + 4, "}"@)
        + seq!['\n']
        + text_line(i + 4, "rand_state = new_seed;"@)
        + text_line(i, "}"@)
        + text_line(i, "#else"@)
        + text_line(i, "void seed_generator (size_t);"@)
        + text_line(i, "#endif"@)
        + seq!['\n']
}

/// The xorshift random number source and `seed_generator`.
#[verifier::rlimit(100)]
fn emit_rand(fmt: &mut CFormatter)
    requires
        old(fmt).indentation <= usize::MAX - 12,
    ensures
        final(fmt).indentation == old(fmt).indentation,
        final(fmt).text@ == old(fmt).text@ + rand_text(old(fmt).indentation as nat),
{
    let ghost t0 = fmt.text@;
    fmt.write("/* RNG */");
    let ghost mut acc = text_line(old(fmt).indentation as nat, "/* RNG */"@);
    assert(fmt.text@ == t0 + acc);
    fmt.write("#ifndef SEED");
    proof {
        lemma_concat_associative(t0, acc, text_line(old(fmt).indentation as nat, "#ifndef SEED"@));
        acc = acc + text_line(old(fmt).indentation as nat, "#ifndef SEED"@);
    }
    assert(fmt.text@ == t0 + acc);
    fmt.write(" #define SEED 0x35c6be9ba2548264");
    proof {
        lemma_concat_associative(t0, acc, text_line(old(fmt).indentation as nat, " #define SEED 0x35c6be9ba2548264"@));
        acc = acc + text_line(old(fmt).indentation as nat, " #define SEED 0x35c6be9ba2548264"@);
    }
    assert(fmt.text@ == t0 + acc);
    fmt.write("#endif");
    proof {
        lemma_concat_associative(t0, acc, text_line(old(fmt).indentation as nat, "#endif"@));
        acc = acc + text_line(old(fmt).indentation as nat, "#endif"@);
    }
    assert(fmt.text@ == t0 + acc);
    fmt.blankline();
    proof {
        lemma_concat_associative(t0, acc, seq!['\n']);
        acc = acc + seq!['\n'];
    }
    assert(fmt.text@ == t0 + acc);
    fmt.write("static THREAD_LOCAL size_t rand_state = SEED;");
    proof {
        lemma_concat_associative(t0, acc, text_line(old(fmt).indentation as nat, "static THREAD_LOCAL size_t rand_state = SEED;"@));
        acc = acc + text_line(old(fmt).indentation as nat, "static THREAD_LOCAL size_t rand_state = SEED;"@);
    }
    assert(fmt.text@ == t0 + acc);
    fmt.blankline();
    proof {
        lemma_concat_associative(t0, acc, seq!['\n']);
        acc = acc + seq!['\n'];
    }
    assert(fmt.text@ == t0 + acc);
    fmt.write("#ifndef DISABLE_rand");
    proof {
        lemma_concat_associative(t0, acc, text_line(old(fmt).indentation as nat, "#ifndef DISABLE_rand"@));
        acc = acc + text_line(old(fmt).indentation as nat, "#ifndef DISABLE_rand"@);
    }
    assert(fmt.text@ == t0 + acc);
    fmt.write("static inline size_t rand (void) {");
    proof {
        lemma_concat_associative(t0, acc, text_line(old(fmt).indentation as nat, "static inline size_t rand (void) {"@));
        acc = acc + text_line(old(fmt).indentation as nat, "static inline size_t rand (void) {"@);
    }
    assert(fmt.text@ == t0 + acc);
    fmt.indent();
    fmt.write("size_t x = rand_state;");
    proof {
        lemma_concat_associative(t0, acc, text_line(old(fmt).indentation as nat + 4, "size_t x = rand_state;"@));
        acc = acc + text_line(old(fmt).indentation as nat + 4, "size_t x = rand_state;"@);
    }
    assert(fmt.text@ == t0 + acc);
    fmt.write("x ^= x << 13;");
    proof {
        lemma_concat_associative(t0, acc, text_line(old(fmt).indentation as nat + 4, "x ^= x << 13;"@));
        acc = acc + text_line(old(fmt).indentation as nat + 4, "x ^= x << 13;"@);
    }
    assert(fmt.text@ == t0 + acc);
    fmt.write("x ^= x >> 7;");
    proof {
        lemma_concat_associative(t0, acc, text_line(old(fmt).indentation as nat + 4, "x ^= x >> 7;"@));
        acc = acc + text_line(old(fmt).indentation as nat + 4, "x ^= x >> 7;"@);
    }
    assert(fmt.text@ == t0 + acc);
    fmt.write("x ^= x << 17;");
    proof {
        lemma_concat_associative(t0, acc, text_line(old(fmt).indentation as nat + 4, "x ^= x << 17;"@));
        acc = acc + text_line(old(fmt).indentation as nat + 4, "x ^= x << 17;"@);
    }
    assert(fmt.text@ == t0 + acc);
    fmt.write("return rand_state = x;");
    proof {
        lemma_concat_associative(t0, acc, text_line(old(fmt).indentation as nat + 4, "return rand_state = x;"@));
        acc = acc + text_line(old(fmt).indentation as nat + 4, "return rand_state = x;"@);
    }
    assert(fmt.text@ == t0 + acc);
    fmt.unindent();
    fmt.write("}");
    proof {
        lemma_concat_associative(t0, acc, text_line(old(fmt).indentation as nat, "}"@));
        acc = acc + text_line(old(fmt).indentation as nat, "}"@);
    }
    assert(fmt.text@ == t0 + acc);
    fmt.write("#else");
    proof {
        lemma_concat_associative(t0, acc, text_line(old(fmt).indentation as nat, "#else"@));
        acc = acc + text_line(old(fmt).indentation as nat, "#else"@);
    }
    assert(fmt.text@ == t0 + acc);
    fmt.write("size_t rand (void);");
    proof {
        lemma_concat_associative(t0, acc, text_line(old(fmt).indentation as nat, "size_t rand (void);"@));
        acc = acc + text_line(old(fmt).indentation as nat, "size_t rand (void);"@);
    }
    assert(fmt.text@ == t0 + acc);
    fmt.write("#endif");
    proof {
        lemma_concat_associative(t0, acc, text_line(old(fmt).indentation as nat, "#endif"@));
        acc = acc + text_line(old(fmt).indentation as nat, "#endif"@);
    }
    assert(fmt.text@ == t0 + acc);
    fmt.blankline();
    proof {
        lemma_concat_associative(t0, acc, seq!['\n']);
        acc = acc + seq!['\n'];
    }
    assert(fmt.text@ == t0 + acc);
    fmt.write("#ifndef DISABLE_seed");
    proof {
        lemma_concat_associative(t0, acc, text_line(old(fmt).indentation as nat, "#ifndef DISABLE_seed"@));
        acc = acc + text_line(old(fmt).indentation as nat, "#ifndef DISABLE_seed"@);
    }
    assert(fmt.text@ == t0 + acc);
    fmt.write("EXPORT_FUNCTION");
    proof {
        lemma_concat_associative(t0, acc, text_line(old(fmt).indentation as nat, "EXPORT_FUNCTION"@));
        acc = acc + text_line(old(fmt).indentation as nat, "EXPORT_FUNCTION"@);
    }
    assert(fmt.text@ == t0 + acc);
    fmt.write("void seed_generator (size_t new_seed) {");
    proof {
        lemma_concat_associative(t0, acc, text_line(old(fmt).indentation as nat, "void seed_generator (size_t new_seed) {"@));
        acc = acc + text_line(old(fmt).indentation as nat, "void seed_generator (size_t new_seed) {"@);
    }
    assert(fmt.text@ == t0 + acc);
    fmt.indent();
    fmt.write("if (!new_seed) {");
    proof {
        lemma_concat_associative(t0, acc, text_line(old(fmt).indentation as nat + 4, "if (!new_seed) {"@));
        acc = acc + text_line(old(fmt).indentation as nat + 4, "if (!new_seed) {"@);
    }
    assert(fmt.text@ == t0 + acc);
    fmt.indent();
    fmt.write("new_seed = 0xDEADBEEF;");
    proof {
        lemma_concat_associative(t0, acc, text_line(old(fmt).indentation as nat + 8, "new_seed = 0xDEADBEEF;"@));
        acc = acc + text_line(old(fmt).indentation as nat + 8, "new_seed = 0xDEADBEEF;"@);
    }
    assert(fmt.text@ == t0 + acc);
    fmt.unindent();
    fmt.write("}");
    proof {
        lemma_concat_associative(t0, acc, text_line(old(fmt).indentation as nat + 4, "}"@));
        acc = acc + text_line(old(fmt).indentation as nat + 4, "}"@);
    }
    assert(fmt.text@ == t0 + acc);
    fmt.blankline();
    proof {
        lemma_concat_associative(t0, acc, seq!['\n']);
        acc = acc + seq!['\n'];
    }
    assert(fmt.text@ == t0 + acc);
    fmt.write("rand_state = new_seed;");
    proof {
        lemma_concat_associative(t0, acc, text_line(old(fmt).indentation as nat + 4, "rand_state = new_seed;"@));
        acc = acc + text_line(old(fmt).indentation as nat + 4, "rand_state = new_seed;"@);
    }
    assert(fmt.text@ == t0 + acc);
    fmt.unindent();
    fmt.write("}");
    proof {
        lemma_concat_associative(t0, acc, text_line(old(fmt).indentation as nat, "}"@));
        acc = acc + text_line(old(fmt).indentation as nat, "}"@);
    }
    assert(fmt.text@ == t0 + acc);
    fmt.write("#else");
    proof {
        lemma_concat_associative(t0, acc, text_line(old(fmt).indentation as nat, "#else"@));
        acc = acc + text_line(old(fmt).indentation as nat, "#else"@);
    }
    assert(fmt.text@ == t0 + acc);
    fmt.write("void seed_generator (size_t);");
    proof {
        lemma_concat_associative(t0, acc, text_line(old(fmt).indentation as nat, "void seed_generator (size_t);"@));
        acc = acc + text_line(old(fmt).indentation as nat, "void seed_generator (size_t);"@);
    }
    assert(fmt.text@ == t0 + acc);
    fmt.write("#endif");
    proof {
        lemma_concat_associative(t0, acc, text_line(old(fmt).indentation as nat, "#endif"@));
        acc = acc + text_line(old(fmt).indentation as nat, "#endif"@);
    }
    assert(fmt.text@ == t0 + acc);
    fmt.blankline();
    proof {
        lemma_concat_associative(t0, acc, seq!['\n']);
        acc = acc + seq!['\n'];
    }
    assert(fmt.text@ == t0 + acc);
    assert(acc == rand_text(old(fmt).indentation as nat));
}

/// The text of the sequence type that mutation and unparsing work on at indentation `i`.
pub open spec fn types_text(i: nat) -> Seq<char> {
    text_line(i, "// Used to represent a sequence of rules"@)
        + text_line(i, "typedef struct {"@)
        + text_line(i + 4, "size_t* buf;"@)
        + text_line(i + 4, "size_t len;"@)
        + text_line(i + 4, "size_t capacity;"@)
        + text_line(i, "} Sequence;"@)
        + seq!['\n']
}

/// The sequence type that mutation and unparsing work on.
fn emit_types(fmt: &mut CFormatter)
    requires
        old(fmt).indentation <= usize::MAX - 8,
    ensures
        final(fmt).indentation == old(fmt).indentation,
        final(fmt).text@ == old(fmt).text@ + types_text(old(fmt).indentation as nat),
{
    let ghost t0 = fmt.text@;
    fmt.write("// Used to represent a sequence of rules");
    let ghost mut acc = text_line(old(fmt).indentation as nat, "// Used to represent a sequence of rules"@);
    assert(fmt.text@ == t0 + acc);
    fmt.write("typedef struct {");
    proof {
        lemma_concat_associative(t0, acc, text_line(old(fmt).indentation as nat, "typedef struct {"@));
        acc = acc + text_line(old(fmt).indentation as nat, "typedef struct {"@);
    }
    assert(fmt.text@ == t0 + acc);
    fmt.indent();
    fmt.write("size_t* buf;");
    proof {
        lemma_concat_associative(t0, acc, text_line(old(fmt).indentation as nat + 4, "size_t* buf;"@));
        acc = acc + text_line(old(fmt).indentation as nat + 4, "size_t* buf;"@);
    }
    assert(fmt.text@ == t0 + acc);
    fmt.write("size_t len;");
    proof {
        lemma_concat_associative(t0, acc, text_line(old(fmt).indentation as nat + 4, "size_t len;"@));
        acc = acc + text_line(old(fmt).indentation as nat + 4, "size_t len;"@);
    }
    assert(fmt.text@ == t0 + acc);
    fmt.write("size_t capacity;");
    proof {
        lemma_concat_associative(t0, acc, text_line(old(fmt).indentation as nat + 4, "size_t capacity;"@));
        acc = acc + text_line(old(fmt).indentation as nat + 4, "size_t capacity;"@);
    }
    assert(fmt.text@ == t0 + acc);
    fmt.unindent();
    fmt.write("} Sequence;");
    proof {
        lemma_concat_associative(t0, acc, text_line(old(fmt).indentation as nat, "} Sequence;"@));
        acc = acc + text_line(old(fmt).indentation as nat, "} Sequence;"@);
    }
    assert(fmt.text@ == t0 + acc);
    fmt.blankline();
    proof {
        lemma_concat_associative(t0, acc, seq!['\n']);
        acc = acc + seq!['\n'];
    }
    assert(fmt.text@ == t0 + acc);
    assert(acc == types_text(old(fmt).indentation as nat));
}

/// The forward declarations of the first `k` mutation procedures.
pub open spec fn mut_decls_text(i: nat, k: int) -> Seq<char>
    decreases k,
{
    if k <= 0 {
        Seq::empty()
    } else {
        mut_decls_text(i, k - 1) + text_line(i, "static int mutate_seq_nonterm"@ + dec((k - 1) as nat)
            + " (Sequence* const, size_t* const);"@)
    }
}

/// Forward declarations of the mutation procedures.
fn emit_mutation_declarations(grammar: &LowLevelGrammar, fmt: &mut CFormatter)
    ensures
        final(fmt).indentation == old(fmt).indentation,
        final(fmt).text@ == old(fmt).text@ + text_line(old(fmt).indentation as nat, "/* Forward declarations for sequence mutation functions */"@)
            + mut_decls_text(old(fmt).indentation as nat, grammar.rules@.len() as int) + seq!['\n'],
{
    let ghost i = fmt.indentation as nat;
    fmt.write("/* Forward declarations for sequence mutation functions */");
    let ghost t1 = fmt.text@;
    let mut n: usize = 0;
    while n < grammar.rules.len()
        invariant
            fmt.indentation == old(fmt).indentation,
            i == fmt.indentation as nat,
            n <= grammar.rules@.len(),
            fmt.text@ == t1 + mut_decls_text(i, n as int),
        decreases grammar.rules@.len() - n,
    {
        write_num(fmt, "static int mutate_seq_nonterm", n, " (Sequence* const, size_t* const);");
        assert(fmt.text@ =~= t1 + mut_decls_text(i, n as int + 1));
        n += 1;
    }
    fmt.blankline();
}

/// The lines that mutate non-terminal child `sym`; nothing for a terminal.
pub open spec fn mut_call_text(i: nat, sym: LLSymbol) -> Seq<char> {
    match sym {
        LLSymbol::NonTerminal(d) => text_line(i, "if (UNLIKELY(!mutate_seq_nonterm"@ + dec(d.0 as nat) + "(seq, step))) {"@)
            + text_line(i + 4, "return 0;"@) + text_line(i, "}"@) + seq!['\n'],
        LLSymbol::Terminal(_) => Seq::empty(),
    }
}

/// The lines that mutate the non-terminals of `rule` in order.
pub open spec fn mut_rule_text(i: nat, rule: Seq<LLSymbol>) -> Seq<char>
    decreases rule.len(),
{
    if rule.len() == 0 {
        Seq::empty()
    } else {
        mut_rule_text(i, rule.drop_last()) + mut_call_text(i, rule.last())
    }
}

/// Mutate the non-terminals of one alternative in order, failing as soon as one fails.
fn emit_mutation_function_rule(rule: &[LLSymbol], fmt: &mut CFormatter)
    requires
        old(fmt).indentation <= usize::MAX - 4,
    ensures
        final(fmt).indentation == old(fmt).indentation,
        final(fmt).text@ == old(fmt).text@ + mut_rule_text(old(fmt).indentation as nat, rule@),
{
    let ghost t0 = fmt.text@;
    let ghost i = fmt.indentation as nat;
    let mut k: usize = 0;
    assert(rule@.subrange(0, 0) =~= Seq::<LLSymbol>::empty());
    while k < rule.len()
        invariant
            fmt.indentation == old(fmt).indentation,
            fmt.indentation <= usize::MAX - 4,
            i == fmt.indentation as nat,
            k <= rule@.len(),
            fmt.text@ == t0 + mut_rule_text(i, rule@.subrange(0, k as int)),
        decreases rule@.len() - k,
    {
        let ghost before = fmt.text@;
        let ghost cur = rule@.subrange(0, k as int + 1);
        assert(cur.drop_last() =~= rule@.subrange(0, k as int));
        assert(cur.last() == rule@[k as int]);
        if let LLSymbol::NonTerminal(dst) = rule[k] {
            write_num(fmt, "if (UNLIKELY(!mutate_seq_nonterm", dst.0, "(seq, step))) {");
            fmt.indent();
            fmt.write("return 0;");
            fmt.unindent();
            fmt.write("}");
            fmt.blankline();
        }
        assert(fmt.text@ =~= t0 + mut_rule_text(i, cur));
        k += 1;
    }
    assert(rule@.subrange(0, rule@.len() as int) =~= rule@);
}

/// The lines before the calls in the procedure of a non-terminal with one alternative.
pub open spec fn mut_single_head(i: nat) -> Seq<char> {
    text_line(i, "size_t idx = seq->len;"@) + seq!['\n'] + text_line(i, "if (*step >= idx) {"@)
        + text_line(i + 4, "if (UNLIKELY(idx >= seq->capacity)) {"@) + text_line(i + 8, "return 0;"@)
        + text_line(i + 4, "}"@) + seq!['\n'] + text_line(i + 4, "seq->buf[idx] = 0;"@)
        + text_line(i + 4, "seq->len = idx + 1;"@) + text_line(i, "}"@) + seq!['\n']
        + text_line(i, "*step += 1;"@) + seq!['\n']
}

/// The body of the mutation procedure of a non-terminal with the one alternative `rule`.
pub open spec fn mut_single_text(i: nat, rule: Seq<LLSymbol>) -> Seq<char> {
    mut_single_head(i) + mut_rule_text(i, rule) + text_line(i, "return 1;"@)
}

/// The body of the mutation procedure of a non-terminal with one alternative.
#[verifier::rlimit(100)]
fn emit_mutation_function_single(rule: &[LLSymbol], fmt: &mut CFormatter)
    requires
        old(fmt).indentation <= usize::MAX - 14,
    ensures
        final(fmt).indentation == old(fmt).indentation,
        final(fmt).text@ == old(fmt).text@ + mut_single_text(old(fmt).indentation as nat, rule@),
{
    let ghost t0 = fmt.text@;
    let ghost i = fmt.indentation as nat;
    fmt.write("size_t idx = seq->len;");
    fmt.blankline();
    fmt.write("if (*step >= idx) {");
    fmt.indent();
    fmt.write("if (UNLIKELY(idx >= seq->capacity)) {");
    fmt.indent();
    fmt.write("return 0;");
    fmt.unindent();
    fmt.write("}");
    fmt.blankline();
    fmt.write("seq->buf[idx] = 0;");
    fmt.write("seq->len = idx + 1;");
    fmt.unindent();
    fmt.write("}");
    fmt.blankline();
    fmt.write("*step += 1;");
    fmt.blankline();
    assert(fmt.text@ =~= t0 + mut_single_head(i));
    emit_mutation_function_rule(rule, fmt);
    fmt.write("return 1;");
    assert(fmt.text@ =~= t0 + mut_single_text(i, rule@));
}

/// Some rule of `rules` has a non-terminal.
pub open spec fn any_nonterminal(rules: Seq<Vec<LLSymbol>>) -> bool {
    exists|a: int| 0 <= a < rules.len() && has_nonterminal(#[trigger] rules[a]@)
}

/// The switch cases for the first `n` alternatives.
pub open spec fn mut_cases_text(i: nat, rules: Seq<Vec<LLSymbol>>, n: int) -> Seq<char>
    decreases n,
{
    if n <= 0 {
        Seq::empty()
    } else {
        mut_cases_text(i, rules, n - 1) + text_line(i, "case "@ + dec((n - 1) as nat) + ": {"@)
            + mut_rule_text(i + 4, rules[n - 1]@) + text_line(i + 4, "break;"@) + text_line(i, "}"@)
    }
}

/// The opening of the multi-alternative mutation procedure: replay the
/// stored tag when there are children to mutate.
pub open spec fn mut_multi_open(i: nat, have: bool) -> Seq<char> {
    text_line(i, "size_t idx = seq->len;"@) + text_line(i, "size_t target;"@) + seq!['\n']
        + (if have {
            text_line(i, "if (*step < idx) {"@) + text_line(i + 4, "target = seq->buf[*step];"@) + text_line(i, "} else {"@)
        } else {
            text_line(i, "if (*step >= idx) {"@)
        })
}

/// Drawing a new tag among `k` alternatives when the sequence has none.
pub open spec fn mut_multi_draw(i: nat, k: nat) -> Seq<char> {
    text_line(i + 4, "if (UNLIKELY(idx >= seq->capacity)) {"@) + text_line(i + 8, "return 0;"@)
        + text_line(i + 4, "}"@) + seq!['\n'] + text_line(i + 4, "target = rand() % "@ + dec(k) + ";"@)
        + text_line(i + 4, "seq->buf[idx] = target;"@) + text_line(i + 4, "seq->len = idx + 1;"@)
        + text_line(i, "}"@) + seq!['\n'] + text_line(i, "*step += 1;"@) + seq!['\n']
}

/// The dispatch on the tag, with `__builtin_unreachable` as default.
pub open spec fn mut_multi_switch(i: nat, rules: Seq<Vec<LLSymbol>>) -> Seq<char> {
    text_line(i, "switch (target) {"@) + mut_cases_text(i + 4, rules, rules.len() as int)
        + text_line(i + 4, "default: {"@) + text_line(i + 8, "__builtin_unreachable();"@)
        + text_line(i + 4, "}"@) + text_line(i, "}"@) + seq!['\n']
}

/// The body of the mutation procedure of a non-terminal with alternatives
/// `rules`: replay the stored tag, or draw `rand() % k` and store it, then
/// mutate the children of the chosen alternative.
pub open spec fn mut_multiple_text(i: nat, rules: Seq<Vec<LLSymbol>>) -> Seq<char> {
    mut_multi_open(i, any_nonterminal(rules)) + mut_multi_draw(i, rules.len())
        + (if any_nonterminal(rules) { mut_multi_switch(i, rules) } else { Seq::empty() })
        + text_line(i, "return 1;"@)
}

/// The body of the mutation procedure of a non-terminal with several
/// alternatives: replay the stored tag or draw a new one, then dispatch on it.
#[verifier::rlimit(100)]
fn emit_mutation_function_multiple(rules: &[Vec<LLSymbol>], fmt: &mut CFormatter)
    requires
        old(fmt).indentation <= usize::MAX - 14,
    ensures
        final(fmt).indentation == old(fmt).indentation,
        final(fmt).text@ == old(fmt).text@ + mut_multiple_text(old(fmt).indentation as nat, rules@),
{
    let ghost t0 = fmt.text@;
    let ghost i = fmt.indentation as nat;
    let have_nonterminals = rules_have_nonterminals(rules);
    fmt.write("size_t idx = seq->len;");
    fmt.write("size_t target;");
    fmt.blankline();
    if have_nonterminals {
        fmt.write("if (*step < idx) {");
        fmt.indent();
        fmt.write("target = seq->buf[*step];");
        fmt.unindent();
        fmt.write("} else {");
    } else {
        fmt.write("if (*step >= idx) {");
    }
    let ghost p1 = fmt.text@;
    assert(p1 =~= t0 + mut_multi_open(i, have_nonterminals));
    fmt.indent();
    fmt.write("if (UNLIKELY(idx >= seq->capacity)) {");
    fmt.indent();
    fmt.write("return 0;");
    fmt.unindent();
    fmt.write("}");
    fmt.blankline();
    write_num(fmt, "target = rand() % ", rules.len(), ";");
    fmt.write("seq->buf[idx] = target;");
    fmt.write("seq->len = idx + 1;");
    fmt.unindent();
    fmt.write("}");
    fmt.blankline();
    fmt.write("*step += 1;");
    fmt.blankline();
    let ghost p2 = fmt.text@;
    assert(p2 =~= p1 + mut_multi_draw(i, rules@.len()));
    if have_nonterminals {
        fmt.write("switch (target) {");
        fmt.indent();
        let ghost c0 = fmt.text@;
        let mut a: usize = 0;
        while a < rules.len()
            invariant
                fmt.indentation == old(fmt).indentation + 4,
                fmt.indentation <= usize::MAX - 10,
                i + 4 == fmt.indentation as nat,
                a <= rules@.len(),
                fmt.text@ == c0 + mut_cases_text(i + 4, rules@, a as int),
            decreases rules@.len() - a,
        {
            write_num(fmt, "case ", a, ": {");
            fmt.indent();
            emit_mutation_function_rule(rules[a].as_slice(), fmt);
            fmt.write("break;");
            fmt.unindent();
            fmt.write("}");
            assert(fmt.text@ =~= c0 + mut_cases_text(i + 4, rules@, a as int + 1));
            a += 1;
        }
        fmt.write("default: {");
        fmt.indent();
        fmt.write("__builtin_unreachable();");
        fmt.unindent();
        fmt.write("}");
        fmt.unindent();
        fmt.write("}");
        fmt.blankline();
        assert(fmt.text@ =~= p2 + mut_multi_switch(i, rules@));
    } else {
        assert(fmt.text@ =~= p2 + Seq::<char>::empty());
    }
    let ghost p3 = fmt.text@;
    fmt.write("return 1;");
    proof {
        let sw = if any_nonterminal(rules@) { mut_multi_switch(i, rules@) } else { Seq::empty() };
        let o = mut_multi_open(i, any_nonterminal(rules@));
        let d = mut_multi_draw(i, rules@.len());
        let r = text_line(i, "return 1;"@);
        lemma_concat_associative(t0, o, d);
        lemma_concat_associative(t0, o + d, sw);
        lemma_concat_associative(t0, o + d + sw, r);
    }
}

/// The mutation procedure of non-terminal `nonterm` with alternatives `rules`.
pub open spec fn mut_function_text(i: nat, nonterm: nat, rules: Seq<Vec<LLSymbol>>) -> Seq<char> {
    text_line(i, "// This is the sequence mutation function for non-terminal #"@ + dec(nonterm) + ""@)
        + text_line(i, "static int mutate_seq_nonterm"@ + dec(nonterm) + " (Sequence* const seq, size_t* const step) {"@)
        + (if rules.len() == 0 {
            text_line(i + 4, "(void) seq;"@) + text_line(i + 4, "(void) step;"@) + text_line(i + 4, "return 0;"@)
        } else if rules.len() == 1 {
            mut_single_text(i + 4, rules[0]@)
        } else {
            mut_multiple_text(i + 4, rules)
        })
        + text_line(i, "}"@) + seq!['\n']
}

/// The mutation procedure of non-terminal `nonterm`.
#[verifier::rlimit(100)]
fn emit_mutation_function(nonterm: usize, rules: &[Vec<LLSymbol>], fmt: &mut CFormatter)
    requires
        old(fmt).indentation <= usize::MAX - 24,
    ensures
        final(fmt).indentation == old(fmt).indentation,
        final(fmt).text@ == old(fmt).text@ + mut_function_text(old(fmt).indentation as nat, nonterm as nat, rules@),
{
    let ghost t0 = fmt.text@;
    let ghost i = fmt.indentation as nat;
    write_num(fmt, "// This is the sequence mutation function for non-terminal #", nonterm, "");
    write_num(fmt, "static int mutate_seq_nonterm", nonterm, " (Sequence* const seq, size_t* const step) {");
    let ghost h = fmt.text@;
    fmt.indent();
    if rules.len() == 0 {
        fmt.write("(void) seq;");
        fmt.write("(void) step;");
        fmt.write("return 0;");
    } else if rules.len() == 1 {
        emit_mutation_function_single(rules[0].as_slice(), fmt);
    } else {
        emit_mutation_function_multiple(rules, fmt);
    }
    fmt.unindent();
    fmt.write("}");
    fmt.blankline();
    assert(fmt.text@ =~= t0 + mut_function_text(i, nonterm as nat, rules@));
}

/// The exported `mutate_sequence`: 0 for a null buffer or zero capacity,
/// otherwise the mutation from the entrypoint `ep`.
pub open spec fn mut_entry_text(i: nat, ep: nat) -> Seq<char> {
    text_line(i, "EXPORT_FUNCTION"@) + text_line(i, "size_t mutate_sequence (size_t* buf, size_t len, const size_t capacity) {"@)
        + text_line(i + 4, "if (UNLIKELY(!buf || !capacity)) {"@) + text_line(i + 8, "return 0;"@) + text_line(i + 4, "}"@)
        + text_line(i + 4, "Sequence seq = {"@) + text_line(i + 8, ".buf = buf,"@) + text_line(i + 8, ".len = len,"@)
        + text_line(i + 8, ".capacity = capacity,"@) + text_line(i + 4, "};"@) + text_line(i + 4, "size_t step = 0;"@)
        + text_line(i + 4, "if (mutate_seq_nonterm"@ + dec(ep) + "(&seq, &step)) {"@) + text_line(i + 8, "return step;"@)
        + text_line(i + 4, "}"@) + text_line(i + 4, "return seq.len;"@) + text_line(i, "}"@) + seq!['\n']
}

/// The exported `mutate_sequence`.
#[verifier::rlimit(100)]
fn emit_mutation_entrypoint(grammar: &LowLevelGrammar, fmt: &mut CFormatter)
    requires
        old(fmt).indentation <= usize::MAX - 12,
    ensures
        final(fmt).indentation == old(fmt).indentation,
        final(fmt).text@ == old(fmt).text@ + mut_entry_text(old(fmt).indentation as nat, grammar.entrypoint.0 as nat),
{
    let ghost t0 = fmt.text@;
    fmt.write("EXPORT_FUNCTION");
    fmt.write("size_t mutate_sequence (size_t* buf, size_t len, const size_t capacity) {");
    fmt.indent();
    fmt.write("if (UNLIKELY(!buf || !capacity)) {");
    fmt.indent();
    fmt.write("return 0;");
    fmt.unindent();
    fmt.write("}");
    fmt.write("Sequence seq = {");
    fmt.indent();
    fmt.write(".buf = buf,");
    fmt.write(".len = len,");
    fmt.write(".capacity = capacity,");
    fmt.unindent();
    fmt.write("};");
    fmt.write("size_t step = 0;");
    write_num(fmt, "if (mutate_seq_nonterm", grammar.entrypoint.0, "(&seq, &step)) {");
    fmt.indent();
    fmt.write("return step;");
    fmt.unindent();
    fmt.write("}");
    fmt.write("return seq.len;");
    fmt.unindent();
    fmt.write("}");
    fmt.blankline();
    assert(fmt.text@ =~= t0 + mut_entry_text(old(fmt).indentation as nat, grammar.entrypoint.0 as nat));
}

/// The mutation procedures of the first `k` non-terminals.
pub open spec fn mut_functions_text(i: nat, rules: Seq<Vec<Vec<LLSymbol>>>, k: int) -> Seq<char>
    decreases k,
{
    if k <= 0 {
        Seq::empty()
    } else {
        mut_functions_text(i, rules, k - 1) + mut_function_text(i, (k - 1) as nat, rules[k - 1]@)
    }
}

/// All of the mutation code for `g`.
pub open spec fn mut_code_text(i: nat, g: LowLevelGrammar) -> Seq<char> {
    text_line(i, "/* Forward declarations for sequence mutation functions */"@) + mut_decls_text(i, g.rules@.len() as int)
        + seq!['\n'] + mut_functions_text(i, g.rules@, g.rules@.len() as int) + mut_entry_text(i, g.entrypoint.0 as nat)
}

/// All of the mutation code.
#[verifier::rlimit(100)]
fn emit_mutation_code(grammar: &LowLevelGrammar, fmt: &mut CFormatter)
    requires
        old(fmt).indentation <= usize::MAX - 34,
    ensures
        final(fmt).indentation == old(fmt).indentation,
        final(fmt).text@ == old(fmt).text@ + mut_code_text(old(fmt).indentation as nat, *grammar),
{
    let ghost t0 = fmt.text@;
    let ghost i = fmt.indentation as nat;
    emit_mutation_declarations(grammar, fmt);
    let ghost t1 = fmt.text@;
    let mut n: usize = 0;
    while n < grammar.rules.len()
        invariant
            fmt.indentation == old(fmt).indentation,
            fmt.indentation <= usize::MAX - 34,
            i == fmt.indentation as nat,
            n <= grammar.rules@.len(),
            fmt.text@ == t1 + mut_functions_text(i, grammar.rules@, n as int),
        decreases grammar.rules@.len() - n,
    {
        emit_mutation_function(n, grammar.rules[n].as_slice(), fmt);
        assert(fmt.text@ =~= t1 + mut_functions_text(i, grammar.rules@, n as int + 1));
        n += 1;
    }
    let ghost t2 = fmt.text@;
    emit_mutation_entrypoint(grammar, fmt);
    assert(fmt.text@ =~= t0 + mut_code_text(i, *grammar));
}

/// One constant byte array per terminal.
fn emit_terminals(grammar: &LowLevelGrammar, fmt: &mut CFormatter)
    requires
        old(fmt).indentation <= usize::MAX - 14,
    ensures
        final(fmt).indentation == old(fmt).indentation,
        old(fmt).text@.is_prefix_of(final(fmt).text@),
{
    fmt.write("/* Terminals */");
    let mut i: usize = 0;
    while i < grammar.terminals.len()
        invariant
            old(fmt).text@.is_prefix_of(fmt.text@),
            fmt.indentation == old(fmt).indentation,
            fmt.indentation <= usize::MAX - 14,
        decreases grammar.terminals@.len() - i,
    {
        let term = grammar.terminals[i].as_str().as_bytes();
        write_num2(fmt, "static const unsigned char TERM", i, "[", term.len(), "] = {");
        fmt.indent();
        let mut start: usize = 0;
        while start < term.len()
            invariant
                old(fmt).text@.is_prefix_of(fmt.text@),
            old(fmt).text@.is_prefix_of(fmt.text@),
                fmt.indentation == old(fmt).indentation + 4,
                fmt.indentation <= usize::MAX - 10,
            decreases term@.len() - start,
        {
            let end = if term.len() - start > 8 { start + 8 } else { term.len() };
            let mut line = String::new();
            let mut j = start;
            while j < end
                invariant
                old(fmt).text@.is_prefix_of(fmt.text@),
            old(fmt).text@.is_prefix_of(fmt.text@),
                    start <= j <= end,
                    end <= term@.len(),
                decreases end - j,
            {
                if j > start {
                    line.append(" ");
                }
                let h = hex_byte(term[j]);
                line.append(h.as_str());
                line.append(",");
                j += 1;
            }
            fmt.write(line.as_str());
            start = end;
        }
        fmt.unindent();
        fmt.write("};");
        i += 1;
    }
    fmt.blankline();
}

/// Forward declarations of the serialization procedures.
fn emit_serialization_declarations(grammar: &LowLevelGrammar, fmt: &mut CFormatter)
    ensures
        final(fmt).indentation == old(fmt).indentation,
        old(fmt).text@.is_prefix_of(final(fmt).text@),
{
    fmt.write("/* Forward declarations for serialization functions */");
    let mut n: usize = 0;
    while n < grammar.rules.len()
        invariant
            old(fmt).text@.is_prefix_of(fmt.text@),
            fmt.indentation == old(fmt).indentation,
        decreases grammar.rules@.len() - n,
    {
        write_num(
            fmt,
            "static size_t serialize_seq_nonterm",
            n,
            " (const size_t* const, const size_t, unsigned char*, size_t, size_t* const);",
        );
        n += 1;
    }
    fmt.blankline();
}

/// The lines that render symbol `sym` of an alternative.
pub open spec fn ser_sym_text(i: nat, sym: LLSymbol) -> Seq<char> {
    match sym {
        LLSymbol::NonTerminal(n) => text_line(i, "len = serialize_seq_nonterm"@ + dec(n.0 as nat) + "(seq, seq_len, out, out_len, step);"@)
            + text_line(i, "out += len; out_len -= len;"@) + text_line(i, "if (UNLIKELY(*step == (size_t) -1)) {"@)
            + text_line(i + 4, "goto end;"@) + text_line(i, "}"@) + seq!['\n'],
        LLSymbol::Terminal(t) => text_line(i, "if (UNLIKELY(out_len < sizeof(TERM"@ + dec(t.0 as nat) + "))) {"@)
            + text_line(i + 4, "*step = (size_t) -1;"@) + text_line(i + 4, "goto end;"@) + text_line(i, "}"@)
            + text_line(i, "__builtin_memcpy_inline(out, TERM"@ + dec(t.0 as nat) + ", sizeof(TERM"@ + dec(t.0 as nat) + "));"@)
            + text_line(i, "out += sizeof(TERM"@ + dec(t.0 as nat) + "); out_len -= sizeof(TERM"@ + dec(t.0 as nat) + ");"@)
            + seq!['\n'],
    }
}

/// The lines that render the symbols of `rule` in order.
pub open spec fn ser_rule_text(i: nat, rule: Seq<LLSymbol>) -> Seq<char>
    decreases rule.len(),
{
    if rule.len() == 0 {
        Seq::empty()
    } else {
        ser_rule_text(i, rule.drop_last()) + ser_sym_text(i, rule.last())
    }
}

/// The lines that render one symbol.
fn emit_serialization_symbol(sym: LLSymbol, fmt: &mut CFormatter)
    requires
        old(fmt).indentation <= usize::MAX - 4,
    ensures
        final(fmt).indentation == old(fmt).indentation,
        final(fmt).text@ == old(fmt).text@ + ser_sym_text(old(fmt).indentation as nat, sym),
{
    let ghost t0 = fmt.text@;
        match sym {
        LLSymbol::NonTerminal(nonterm) => {
            write_num(fmt, "len = serialize_seq_nonterm", nonterm.0, "(seq, seq_len, out, out_len, step);");
            fmt.write("out += len; out_len -= len;");
            fmt.write("if (UNLIKELY(*step == (size_t) -1)) {");
            fmt.indent();
            fmt.write("goto end;");
            fmt.unindent();
            fmt.write("}");
            fmt.blankline();
        },
        LLSymbol::Terminal(term) => {
            write_num(fmt, "if (UNLIKELY(out_len < sizeof(TERM", term.0, "))) {");
            fmt.indent();
            fmt.write("*step = (size_t) -1;");
            fmt.write("goto end;");
            fmt.unindent();
            fmt.write("}");
            write_num_twice(fmt, "__builtin_memcpy_inline(out, TERM", term.0, ", sizeof(TERM", "));");
            write_num_twice(fmt, "out += sizeof(TERM", term.0, "); out_len -= sizeof(TERM", ");");
            fmt.blankline();
        },
    }
    assert(fmt.text@ =~= t0 + ser_sym_text(old(fmt).indentation as nat, sym));
}

/// Render the symbols of one alternative in order. A terminal that does not
/// fit, or a child that stopped, stops the walk: `*step` is then set to the
/// largest `size_t` so that every pending procedure stops too.
fn emit_serialization_function_rule(rule: &[LLSymbol], fmt: &mut CFormatter)
    requires
        old(fmt).indentation <= usize::MAX - 4,
    ensures
        final(fmt).indentation == old(fmt).indentation,
        final(fmt).text@ == old(fmt).text@ + ser_rule_text(old(fmt).indentation as nat, rule@),
{
    let ghost t0 = fmt.text@;
    let ghost i = fmt.indentation as nat;
    let mut k: usize = 0;
    assert(rule@.subrange(0, 0) =~= Seq::<LLSymbol>::empty());
    while k < rule.len()
        invariant
            fmt.indentation == old(fmt).indentation,
            fmt.indentation <= usize::MAX - 4,
            i == fmt.indentation as nat,
            k <= rule@.len(),
            fmt.text@ == t0 + ser_rule_text(i, rule@.subrange(0, k as int)),
        decreases rule@.len() - k,
    {
        let ghost cur = rule@.subrange(0, k as int + 1);
        assert(cur.drop_last() =~= rule@.subrange(0, k as int));
        assert(cur.last() == rule@[k as int]);
        emit_serialization_symbol(rule[k], fmt);
        assert(fmt.text@ =~= t0 + ser_rule_text(i, cur));
        k += 1;
    }
    assert(rule@.subrange(0, rule@.len() as int) =~= rule@);
}

/// The start of every serialization procedure: stop when the sequence has ended.
pub open spec fn ser_guard_text(i: nat) -> Seq<char> {
    text_line(i, "if (UNLIKELY(*step >= seq_len)) {"@) + text_line(i + 4, "*step = (size_t) -1;"@)
        + text_line(i + 4, "return 0;"@) + text_line(i, "}"@) + seq!['\n']
}

/// The start of every serialization procedure: stop when the sequence has ended.
fn emit_serialization_guard(fmt: &mut CFormatter)
    requires
        old(fmt).indentation <= usize::MAX - 4,
    ensures
        final(fmt).indentation == old(fmt).indentation,
        final(fmt).text@ == old(fmt).text@ + ser_guard_text(old(fmt).indentation as nat),
{
    let ghost t0 = fmt.text@;
    fmt.write("if (UNLIKELY(*step >= seq_len)) {");
    fmt.indent();
    fmt.write("*step = (size_t) -1;");
    fmt.write("return 0;");
    fmt.unindent();
    fmt.write("}");
    fmt.blankline();
    assert(fmt.text@ =~= t0 + ser_guard_text(old(fmt).indentation as nat));
}

/// The end of every serialization procedure: the number of bytes written.
pub open spec fn ser_end_text(i: nat) -> Seq<char> {
    text_line(i, "goto end;"@) + text_line(i, "end:"@) + text_line(i, "return (size_t) (out - original_out);"@)
}

/// The body of the serialization procedure of a non-terminal with the one alternative `rule`.
pub open spec fn ser_single_text(i: nat, rule: Seq<LLSymbol>) -> Seq<char> {
    (if !has_nonterminal(rule) { text_line(i, "(void) seq;"@) + seq!['\n'] } else { Seq::empty() }) + ser_guard_text(i)
        + (if has_nonterminal(rule) { text_line(i, "size_t len;"@) } else { Seq::empty() })
        + text_line(i, "unsigned char* original_out = out;"@) + text_line(i, "*step += 1;"@) + seq!['\n']
        + ser_rule_text(i, rule) + ser_end_text(i)
}

/// The body of the serialization procedure of a non-terminal with one alternative.
#[verifier::rlimit(100)]
fn emit_serialization_function_single(rule: &[LLSymbol], fmt: &mut CFormatter)
    requires
        old(fmt).indentation <= usize::MAX - 14,
    ensures
        final(fmt).indentation == old(fmt).indentation,
        final(fmt).text@ == old(fmt).text@ + ser_single_text(old(fmt).indentation as nat, rule@),
{
    let ghost t0 = fmt.text@;
    let ghost i = fmt.indentation as nat;
    let has_nonterminals = rule_has_nonterminals(rule);
    if !has_nonterminals {
        fmt.write("(void) seq;");
        fmt.blankline();
    }
    emit_serialization_guard(fmt);
    if has_nonterminals {
        fmt.write("size_t len;");
    }
    fmt.write("unsigned char* original_out = out;");
    fmt.write("*step += 1;");
    fmt.blankline();
    let ghost p1 = fmt.text@;
    emit_serialization_function_rule(rule, fmt);
    let ghost p2 = fmt.text@;
    fmt.write("goto end;");
    fmt.write("end:");
    fmt.write("return (size_t) (out - original_out);");
    assert(fmt.text@ =~= p2 + ser_end_text(i));
    assert(fmt.text@ =~= t0 + ser_single_text(i, rule@));
}

/// The switch cases for the first `n` alternatives.
pub open spec fn ser_cases_text(i: nat, rules: Seq<Vec<LLSymbol>>, n: int) -> Seq<char>
    decreases n,
{
    if n <= 0 {
        Seq::empty()
    } else {
        ser_cases_text(i, rules, n - 1) + text_line(i, "case "@ + dec((n - 1) as nat) + ": {"@)
            + ser_rule_text(i + 4, rules[n - 1]@) + text_line(i + 4, "break;"@) + text_line(i, "}"@)
    }
}

/// The dispatch on the tag read from the sequence.
pub open spec fn ser_switch_text(i: nat, rules: Seq<Vec<LLSymbol>>) -> Seq<char> {
    text_line(i, "switch (target) {"@) + ser_cases_text(i + 4, rules, rules.len() as int)
        + text_line(i + 4, "default: {"@) + text_line(i + 8, "__builtin_unreachable();"@)
        + text_line(i + 4, "}"@) + text_line(i, "}"@) + seq!['\n']
}

/// The body of the serialization procedure of a non-terminal with alternatives `rules`.
pub open spec fn ser_multiple_text(i: nat, rules: Seq<Vec<LLSymbol>>) -> Seq<char> {
    ser_guard_text(i) + (if any_nonterminal(rules) { text_line(i, "size_t len;"@) } else { Seq::empty() })
        + text_line(i, "unsigned char* original_out = out;"@) + text_line(i, "size_t target = seq[*step];"@)
        + text_line(i, "*step += 1;"@) + seq!['\n'] + ser_switch_text(i, rules) + ser_end_text(i)
}

/// The dispatch on the tag read from the sequence.
#[verifier::rlimit(100)]
fn emit_serialization_switch(rules: &[Vec<LLSymbol>], fmt: &mut CFormatter)
    requires
        old(fmt).indentation <= usize::MAX - 14,
    ensures
        final(fmt).indentation == old(fmt).indentation,
        final(fmt).text@ == old(fmt).text@ + ser_switch_text(old(fmt).indentation as nat, rules@),
{
    let ghost p1 = fmt.text@;
    let ghost i = fmt.indentation as nat;
    fmt.write("switch (target) {");
    fmt.indent();
    let ghost c0 = fmt.text@;
    let mut a: usize = 0;
    while a < rules.len()
        invariant
            fmt.indentation == old(fmt).indentation + 4,
            fmt.indentation <= usize::MAX - 10,
            i + 4 == fmt.indentation as nat,
            a <= rules@.len(),
            fmt.text@ == c0 + ser_cases_text(i + 4, rules@, a as int),
        decreases rules@.len() - a,
    {
        write_num(fmt, "case ", a, ": {");
        fmt.indent();
        emit_serialization_function_rule(rules[a].as_slice(), fmt);
        fmt.write("break;");
        fmt.unindent();
        fmt.write("}");
        assert(fmt.text@ =~= c0 + ser_cases_text(i + 4, rules@, a as int + 1));
        a += 1;
    }
    fmt.write("default: {");
    fmt.indent();
    fmt.write("__builtin_unreachable();");
    fmt.unindent();
    fmt.write("}");
    fmt.unindent();
    fmt.write("}");
    fmt.blankline();
    assert(fmt.text@ =~= p1 + ser_switch_text(i, rules@));
}

/// The body of the serialization procedure of a non-terminal with several
/// alternatives: read the tag, then dispatch on it.
#[verifier::rlimit(100)]
fn emit_serialization_function_multiple(rules: &[Vec<LLSymbol>], fmt: &mut CFormatter)
    requires
        old(fmt).indentation <= usize::MAX - 14,
    ensures
        final(fmt).indentation == old(fmt).indentation,
        final(fmt).text@ == old(fmt).text@ + ser_multiple_text(old(fmt).indentation as nat, rules@),
{
    let ghost t0 = fmt.text@;
    let ghost i = fmt.indentation as nat;
    emit_serialization_guard(fmt);
    if rules_have_nonterminals(rules) {
        fmt.write("size_t len;");
    }
    fmt.write("unsigned char* original_out = out;");
    fmt.write("size_t target = seq[*step];");
    fmt.write("*step += 1;");
    fmt.blankline();
    let ghost p1 = fmt.text@;
    emit_serialization_switch(rules, fmt);
    assert(fmt.text@ =~= p1 + ser_switch_text(i, rules@));
    let ghost p2 = fmt.text@;
    fmt.write("goto end;");
    fmt.write("end:");
    fmt.write("return (size_t) (out - original_out);");
    assert(fmt.text@ =~= p2 + ser_end_text(i));
    assert(fmt.text@ =~= t0 + ser_multiple_text(i, rules@));
}

/// The serialization procedure of non-terminal `nonterm` with alternatives `rules`.
pub open spec fn ser_function_text(i: nat, nonterm: nat, rules: Seq<Vec<LLSymbol>>) -> Seq<char> {
    text_line(i, "// This is the serialization function for non-terminal #"@ + dec(nonterm) + ""@)
        + text_line(i, "static size_t serialize_seq_nonterm"@ + dec(nonterm)
        + " (const size_t* const seq, const size_t seq_len, unsigned char* out, size_t out_len, size_t* const step) {"@)
        + (if rules.len() == 0 {
            text_line(i + 4, "(void) seq; (void) seq_len; (void) out; (void) out_len;"@) + text_line(i + 4, "*step = (size_t) -1;"@)
                + text_line(i + 4, "return 0;"@)
        } else if rules.len() == 1 {
            ser_single_text(i + 4, rules[0]@)
        } else {
            ser_multiple_text(i + 4, rules)
        })
        + text_line(i, "}"@) + seq!['\n']
}

/// The serialization procedure of non-terminal `nonterm`.
#[verifier::rlimit(100)]
fn emit_serialization_function(nonterm: usize, rules: &[Vec<LLSymbol>], fmt: &mut CFormatter)
    requires
        old(fmt).indentation <= usize::MAX - 24,
    ensures
        final(fmt).indentation == old(fmt).indentation,
        final(fmt).text@ == old(fmt).text@ + ser_function_text(old(fmt).indentation as nat, nonterm as nat, rules@),
{
    let ghost t0 = fmt.text@;
    let ghost i = fmt.indentation as nat;
    write_num(fmt, "// This is the serialization function for non-terminal #", nonterm, "");
    write_num(
        fmt,
        "static size_t serialize_seq_nonterm",
        nonterm,
        " (const size_t* const seq, const size_t seq_len, unsigned char* out, size_t out_len, size_t* const step) {",
    );
    fmt.indent();
    if rules.len() == 0 {
        fmt.write("(void) seq; (void) seq_len; (void) out; (void) out_len;");
        fmt.write("*step = (size_t) -1;");
        fmt.write("return 0;");
    } else if rules.len() == 1 {
        emit_serialization_function_single(rules[0].as_slice(), fmt);
    } else {
        emit_serialization_function_multiple(rules, fmt);
    }
    fmt.unindent();
    fmt.write("}");
    fmt.blankline();
    assert(fmt.text@ =~= t0 + ser_function_text(i, nonterm as nat, rules@));
}

/// The exported `serialize_sequence`.
fn emit_serialization_entrypoint(grammar: &LowLevelGrammar, fmt: &mut CFormatter)
    requires
        old(fmt).indentation <= usize::MAX - 8,
    ensures
        final(fmt).indentation == old(fmt).indentation,
        old(fmt).text@.is_prefix_of(final(fmt).text@),
        final(fmt).text@ == old(fmt).text@ + ser_entry_text(old(fmt).indentation as nat, grammar.entrypoint.0 as nat),
{
    let ghost t0 = fmt.text@;
    fmt.write("EXPORT_FUNCTION");
    fmt.write("size_t serialize_sequence (const size_t* seq, const size_t seq_len, unsigned char* out, const size_t out_len) {");
    fmt.indent();
    fmt.write("if (UNLIKELY(!seq || !seq_len || !out || !out_len)) {");
    fmt.indent();
    fmt.write("return 0;");
    fmt.unindent();
    fmt.write("}");
    fmt.write("size_t step = 0;");
    write_num(fmt, "return serialize_seq_nonterm", grammar.entrypoint.0, "(seq, seq_len, out, out_len, &step);");
    fmt.unindent();
    fmt.write("}");
    fmt.blankline();
    assert(fmt.text@ =~= t0 + ser_entry_text(old(fmt).indentation as nat, grammar.entrypoint.0 as nat));
}

/// The exported `serialize_sequence`: 0 for a null or empty sequence or
/// output buffer, otherwise the serialization from the entrypoint `ep`.
pub open spec fn ser_entry_text(i: nat, ep: nat) -> Seq<char> {
    text_line(i, "EXPORT_FUNCTION"@)
        + text_line(i, "size_t serialize_sequence (const size_t* seq, const size_t seq_len, unsigned char* out, const size_t out_len) {"@)
        + text_line(i + 4, "if (UNLIKELY(!seq || !seq_len || !out || !out_len)) {"@) + text_line(i + 8, "return 0;"@)
        + text_line(i + 4, "}"@) + text_line(i + 4, "size_t step = 0;"@)
        + text_line(i + 4, "return serialize_seq_nonterm"@ + dec(ep) + "(seq, seq_len, out, out_len, &step);"@)
        + text_line(i, "}"@) + seq!['\n']
}

/// All of the serialization code.
fn emit_serialization_code(grammar: &LowLevelGrammar, fmt: &mut CFormatter)
    requires
        old(fmt).indentation <= usize::MAX - 34,
    ensures
        final(fmt).indentation == old(fmt).indentation,
        old(fmt).text@.is_prefix_of(final(fmt).text@),
{
    emit_terminals(grammar, fmt);
    emit_serialization_declarations(grammar, fmt);
    let mut n: usize = 0;
    while n < grammar.rules.len()
        invariant
            old(fmt).text@.is_prefix_of(fmt.text@),
            fmt.indentation == old(fmt).indentation,
            fmt.indentation <= usize::MAX - 34,
        decreases grammar.rules@.len() - n,
    {
        emit_serialization_function(n, grammar.rules[n].as_slice(), fmt);
        n += 1;
    }
    emit_serialization_entrypoint(grammar, fmt);
}

/// Forward declarations of the unparsing procedures.
fn emit_unparsing_declarations(grammar: &LowLevelGrammar, fmt: &mut CFormatter)
    ensures
        final(fmt).indentation == old(fmt).indentation,
        old(fmt).text@.is_prefix_of(final(fmt).text@),
{
    fmt.write("/* Forward declarations for unparsing functions */");
    let mut n: usize = 0;
    while n < grammar.rules.len()
        invariant
            old(fmt).text@.is_prefix_of(fmt.text@),
            fmt.indentation == old(fmt).indentation,
        decreases grammar.rules@.len() - n,
    {
        write_num(
            fmt,
            "static int unparse_seq_nonterm",
            n,
            " (Sequence* const, const unsigned char* const, const size_t, size_t* const);",
        );
        n += 1;
    }
    fmt.blankline();
}

/// The lines that match symbol `sym` at `cursor`.
pub open spec fn unp_sym_text(i: nat, sym: LLSymbol) -> Seq<char> {
    match sym {
        LLSymbol::Terminal(t) => text_line(
            i,
            "if (UNLIKELY(input_len - cursor < sizeof(TERM"@ + dec(t.0 as nat) + ")) || __builtin_memcmp(&input[cursor], TERM"@
                + dec(t.0 as nat) + ", sizeof(TERM"@ + dec(t.0 as nat) + ")) != 0) {"@,
        ) + text_line(i + 4, "return (size_t) -1;"@) + text_line(i, "}"@)
            + text_line(i, "cursor += sizeof(TERM"@ + dec(t.0 as nat) + ");"@),
        LLSymbol::NonTerminal(c) => text_line(i, "if (!unparse_seq_nonterm"@ + dec(c.0 as nat) + "(seq, input, input_len, &cursor)) {"@)
            + text_line(i + 4, "return (size_t) -1;"@) + text_line(i, "}"@),
    }
}

/// The lines that match the symbols of `rule` in order.
pub open spec fn unp_body_text(i: nat, rule: Seq<LLSymbol>) -> Seq<char>
    decreases rule.len(),
{
    if rule.len() == 0 {
        Seq::empty()
    } else {
        unp_body_text(i, rule.drop_last()) + unp_sym_text(i, rule.last())
    }
}

/// The procedure that matches alternative `a` of non-terminal `n`.
pub open spec fn unp_rule_text(i: nat, n: nat, a: nat, rule: Seq<LLSymbol>) -> Seq<char> {
    text_line(i, "static size_t unparse_seq_nonterm"@ + dec(n) + "_rule"@ + dec(a)
        + " (Sequence* const seq, const unsigned char* const input, const size_t input_len, size_t cursor) {"@)
        + text_line(i + 4, "(void) seq;"@) + unp_body_text(i + 4, rule) + text_line(i + 4, "return cursor;"@)
        + text_line(i, "}"@) + seq!['\n']
}

/// The lines that match one symbol.
fn emit_unparsing_symbol(sym: LLSymbol, fmt: &mut CFormatter)
    requires
        old(fmt).indentation <= usize::MAX - 4,
    ensures
        final(fmt).indentation == old(fmt).indentation,
        final(fmt).text@ == old(fmt).text@ + unp_sym_text(old(fmt).indentation as nat, sym),
{
    let ghost t0 = fmt.text@;
        match sym {
        LLSymbol::Terminal(term) => {
            write_num3(
                fmt,
                "if (UNLIKELY(input_len - cursor < sizeof(TERM",
                term.0,
                ")) || __builtin_memcmp(&input[cursor], TERM",
                ", sizeof(TERM",
                ")) != 0) {",
            );
            fmt.indent();
            fmt.write("return (size_t) -1;");
            fmt.unindent();
            fmt.write("}");
            write_num(fmt, "cursor += sizeof(TERM", term.0, ");");
        },
        LLSymbol::NonTerminal(child) => {
            write_num(fmt, "if (!unparse_seq_nonterm", child.0, "(seq, input, input_len, &cursor)) {");
            fmt.indent();
            fmt.write("return (size_t) -1;");
            fmt.unindent();
            fmt.write("}");
        },
    }
    assert(fmt.text@ =~= t0 + unp_sym_text(old(fmt).indentation as nat, sym));
}

/// The procedure that matches alternative `i` of non-terminal `nonterm` at
/// `cursor`: the cursor after the match, or the largest `size_t` on mismatch.
#[verifier::rlimit(100)]
fn emit_unparsing_rule(nonterm: usize, i: usize, rule: &[LLSymbol], fmt: &mut CFormatter)
    requires
        old(fmt).indentation <= usize::MAX - 14,
    ensures
        final(fmt).indentation == old(fmt).indentation,
        final(fmt).text@ == old(fmt).text@ + unp_rule_text(old(fmt).indentation as nat, nonterm as nat, i as nat, rule@),
{
    let ghost t0 = fmt.text@;
    let ghost ind = fmt.indentation as nat;
    write_num2(
        fmt,
        "static size_t unparse_seq_nonterm",
        nonterm,
        "_rule",
        i,
        " (Sequence* const seq, const unsigned char* const input, const size_t input_len, size_t cursor) {",
    );
    fmt.indent();
    fmt.write("(void) seq;");
    let ghost b0 = fmt.text@;
    let mut k: usize = 0;
    assert(rule@.subrange(0, 0) =~= Seq::<LLSymbol>::empty());
    while k < rule.len()
        invariant
            fmt.indentation == old(fmt).indentation + 4,
            fmt.indentation <= usize::MAX - 10,
            ind + 4 == fmt.indentation as nat,
            k <= rule@.len(),
            fmt.text@ == b0 + unp_body_text(ind + 4, rule@.subrange(0, k as int)),
        decreases rule@.len() - k,
    {
        let ghost cur = rule@.subrange(0, k as int + 1);
        assert(cur.drop_last() =~= rule@.subrange(0, k as int));
        assert(cur.last() == rule@[k as int]);
        emit_unparsing_symbol(rule[k], fmt);
        assert(fmt.text@ =~= b0 + unp_body_text(ind + 4, cur));
        k += 1;
    }
    assert(rule@.subrange(0, rule@.len() as int) =~= rule@);
    fmt.write("return cursor;");
    fmt.unindent();
    fmt.write("}");
    fmt.blankline();
    assert(fmt.text@ =~= t0 + unp_rule_text(ind, nonterm as nat, i as nat, rule@));
}

/// The matching procedures of the first `m` alternatives.
pub open spec fn unp_rules_text(i: nat, n: nat, rules: Seq<Vec<LLSymbol>>, m: int) -> Seq<char>
    decreases m,
{
    if m <= 0 {
        Seq::empty()
    } else {
        unp_rules_text(i, n, rules, m - 1) + unp_rule_text(i, n, (m - 1) as nat, rules[m - 1]@)
    }
}

/// Trying alternative `a` and keeping it when it reaches furthest so far.
pub open spec fn unp_try_text(j: nat, n: nat, a: nat) -> Seq<char> {
    text_line(j, "// Rule #"@ + dec(a) + ""@) + text_line(j, "seq->len = seq_idx + 1;"@)
        + text_line(j, "seq->buf[seq_idx] = "@ + dec(a) + ";"@)
        + text_line(j, "tmp_cursor = unparse_seq_nonterm"@ + dec(n) + "_rule"@ + dec(a) + "(seq, input, input_len, *cursor);"@)
        + text_line(j, "if (tmp_cursor != (size_t) -1 && tmp_cursor > target_cursor) {"@)
        + text_line(j + 4, "target_id = "@ + dec(a) + ";"@) + text_line(j + 4, "target_cursor = tmp_cursor;"@)
        + text_line(j, "}"@) + seq!['\n']
}

/// The tries of the first `m` alternatives of `order`.
pub open spec fn unp_tries_text(j: nat, n: nat, order: Seq<usize>, m: int) -> Seq<char>
    decreases m,
{
    if m <= 0 {
        Seq::empty()
    } else {
        unp_tries_text(j, n, order, m - 1) + unp_try_text(j, n, order[m - 1] as nat)
    }
}

/// Matching alternative `a` once more, so that the sequence holds its tags.
pub open spec fn unp_case_text(j: nat, n: nat, a: nat) -> Seq<char> {
    text_line(j, "case "@ + dec(a) + ": {"@) + text_line(j + 4, "seq->len = seq_idx + 1;"@)
        + text_line(j + 4, "seq->buf[seq_idx] = "@ + dec(a) + ";"@)
        + text_line(j + 4, "unparse_seq_nonterm"@ + dec(n) + "_rule"@ + dec(a) + "(seq, input, input_len, *cursor);"@)
        + text_line(j + 4, "break;"@) + text_line(j, "}"@)
}

/// The cases of the first `m` alternatives.
pub open spec fn unp_cases_text(j: nat, n: nat, m: int) -> Seq<char>
    decreases m,
{
    if m <= 0 {
        Seq::empty()
    } else {
        unp_cases_text(j, n, m - 1) + unp_case_text(j, n, (m - 1) as nat)
    }
}

/// The head of the unparsing procedure of non-terminal `n`.
pub open spec fn unp_head_text(i: nat, n: nat) -> Seq<char> {
    text_line(i, "// This is the unparsing function for non-terminal #"@ + dec(n) + ""@)
        + text_line(i, "static int unparse_seq_nonterm"@ + dec(n)
        + " (Sequence* const seq, const unsigned char* const input, const size_t input_len, size_t* const cursor) {"@)
        + text_line(i + 4, "size_t seq_idx = seq->len;"@) + seq!['\n']
        + text_line(i + 4, "if (UNLIKELY(seq_idx >= seq->capacity)) {"@) + text_line(i + 8, "return 0;"@)
        + text_line(i + 4, "}"@) + seq!['\n'] + text_line(i + 4, "size_t target_cursor = 0;"@)
        + text_line(i + 4, "size_t target_id = (size_t) -1LL;"@) + text_line(i + 4, "size_t tmp_cursor;"@) + seq!['\n']
}

/// The tail of the unparsing procedure: match the chosen alternative again.
pub open spec fn unp_tail_text(i: nat, n: nat, k: nat) -> Seq<char> {
    text_line(i + 4, "seq->len = seq_idx;"@) + seq!['\n'] + text_line(i + 4, "switch (target_id) {"@)
        + unp_cases_text(i + 8, n, k as int) + text_line(i + 8, "default: {"@) + text_line(i + 12, "return 0;"@)
        + text_line(i + 8, "}"@) + text_line(i + 4, "}"@) + seq!['\n'] + text_line(i + 4, "*cursor = target_cursor;"@)
        + text_line(i + 4, "return 1;"@) + text_line(i, "}"@) + seq!['\n']
}

/// The unparsing code of non-terminal `n`: its matching procedures, then the
/// procedure that tries the alternatives in `order`.
pub open spec fn unp_function_text(i: nat, n: nat, rules: Seq<Vec<LLSymbol>>, order: Seq<usize>) -> Seq<char> {
    unp_rules_text(i, n, rules, rules.len() as int) + unp_head_text(i, n) + unp_tries_text(i + 4, n, order, order.len() as int)
        + unp_tail_text(i, n, rules.len())
}

/// `order` lists the alternatives of `alts` by decreasing length, equal
/// lengths in their given order, each exactly once.
pub open spec fn longest_first(alts: Seq<Vec<LLSymbol>>, order: Seq<usize>) -> bool {
    &&& order.len() == alts.len()
    &&& forall|i: int| 0 <= i < order.len() ==> (#[trigger] order[i]) < alts.len()
    &&& forall|i: int, j: int| 0 <= i < j < order.len() ==> alts[order[i] as int]@.len() > alts[order[j] as int]@.len()
        || (alts[order[i] as int]@.len() == alts[order[j] as int]@.len() && order[i] < order[j])
    &&& forall|a: int| 0 <= a < alts.len() ==> #[trigger] crate::generator::has_index(order, a)
}

/// Try the alternatives in `order`, keeping the one that reaches furthest.
#[verifier::rlimit(100)]
fn emit_unparsing_tries(nonterm: usize, order: &Vec<usize>, fmt: &mut CFormatter)
    requires
        old(fmt).indentation <= usize::MAX - 20,
    ensures
        final(fmt).indentation == old(fmt).indentation,
        final(fmt).text@ == old(fmt).text@ + unp_tries_text(old(fmt).indentation as nat, nonterm as nat, order@, order@.len() as int),
{
    let ghost p2 = fmt.text@;
    let ghost ind = (fmt.indentation - 4) as nat;
    let mut o: usize = 0;
    while o < order.len()
        invariant
            fmt.indentation == old(fmt).indentation,
            fmt.indentation <= usize::MAX - 20,
            p2 == old(fmt).text@,
            o <= order@.len(),
            fmt.text@ == p2 + unp_tries_text(fmt.indentation as nat, nonterm as nat, order@, o as int),
        decreases order@.len() - o,
    {
        let a = order[o];
        write_num(fmt, "// Rule #", a, "");
        fmt.write("seq->len = seq_idx + 1;");
        write_num(fmt, "seq->buf[seq_idx] = ", a, ";");
        write_num2(fmt, "tmp_cursor = unparse_seq_nonterm", nonterm, "_rule", a, "(seq, input, input_len, *cursor);");
        fmt.write("if (tmp_cursor != (size_t) -1 && tmp_cursor > target_cursor) {");
        fmt.indent();
        write_num(fmt, "target_id = ", a, ";");
        fmt.write("target_cursor = tmp_cursor;");
        fmt.unindent();
        fmt.write("}");
        fmt.blankline();
        assert(fmt.text@ =~= p2 + unp_tries_text(fmt.indentation as nat, nonterm as nat, order@, o as int + 1));
        o += 1;
    }
}

/// Match the chosen alternative again; the indentation is that of the procedure body.
#[verifier::rlimit(100)]
fn emit_unparsing_tail(nonterm: usize, k: usize, fmt: &mut CFormatter)
    requires
        4 <= old(fmt).indentation <= usize::MAX - 20,
    ensures
        final(fmt).indentation == old(fmt).indentation - 4,
        final(fmt).text@ == old(fmt).text@ + unp_tail_text((old(fmt).indentation - 4) as nat, nonterm as nat, k as nat),
{
    let ghost ind = (fmt.indentation - 4) as nat;
    let ghost p3 = fmt.text@;
    fmt.write("seq->len = seq_idx;");
    fmt.blankline();
    fmt.write("switch (target_id) {");
    fmt.indent();
    let ghost c0 = fmt.text@;
    let mut a: usize = 0;
    while a < k
        invariant
            fmt.indentation == old(fmt).indentation + 4,
            fmt.indentation <= usize::MAX - 16,
            ind + 8 == fmt.indentation as nat,
            a <= k,
            fmt.text@ == c0 + unp_cases_text(ind + 8, nonterm as nat, a as int),
        decreases k - a,
    {
        write_num(fmt, "case ", a, ": {");
        fmt.indent();
        fmt.write("seq->len = seq_idx + 1;");
        write_num(fmt, "seq->buf[seq_idx] = ", a, ";");
        write_num2(fmt, "unparse_seq_nonterm", nonterm, "_rule", a, "(seq, input, input_len, *cursor);");
        fmt.write("break;");
        fmt.unindent();
        fmt.write("}");
        assert(fmt.text@ =~= c0 + unp_cases_text(ind + 8, nonterm as nat, a as int + 1));
        a += 1;
    }
    fmt.write("default: {");
    fmt.indent();
    fmt.write("return 0;");
    fmt.unindent();
    fmt.write("}");
    fmt.unindent();
    fmt.write("}");
    fmt.blankline();
    fmt.write("*cursor = target_cursor;");
    fmt.write("return 1;");
    fmt.unindent();
    fmt.write("}");
    fmt.blankline();
    assert(fmt.text@ =~= p3 + unp_tail_text(ind, nonterm as nat, k as nat));
}

/// The unparsing procedure of non-terminal `nonterm`: try every alternative,
/// longest first, keep the one that reaches furthest (the first of those in
/// that order), and match it once more so that the sequence holds its tags.
#[verifier::rlimit(100)]
fn emit_unparsing_function(nonterm: usize, rules: &Vec<Vec<LLSymbol>>, fmt: &mut CFormatter)
    requires
        old(fmt).indentation <= usize::MAX - 24,
    ensures
        final(fmt).indentation == old(fmt).indentation,
        exists|order: Seq<usize>|
            longest_first(rules@, order) && #[trigger] unp_function_text(old(fmt).indentation as nat, nonterm as nat, rules@, order)
                == final(fmt).text@.subrange(old(fmt).text@.len() as int, final(fmt).text@.len() as int),
        final(fmt).text@.subrange(0, old(fmt).text@.len() as int) == old(fmt).text@,
        old(fmt).text@.is_prefix_of(final(fmt).text@),
{
    let ghost t0 = fmt.text@;
    let ghost ind = fmt.indentation as nat;
    let mut i: usize = 0;
    while i < rules.len()
        invariant
            fmt.indentation == old(fmt).indentation,
            fmt.indentation <= usize::MAX - 24,
            ind == fmt.indentation as nat,
            i <= rules@.len(),
            fmt.text@ == t0 + unp_rules_text(ind, nonterm as nat, rules@, i as int),
        decreases rules@.len() - i,
    {
        emit_unparsing_rule(nonterm, i, rules[i].as_slice(), fmt);
        assert(fmt.text@ =~= t0 + unp_rules_text(ind, nonterm as nat, rules@, i as int + 1));
        i += 1;
    }
    let ghost p1 = fmt.text@;
    write_num(fmt, "// This is the unparsing function for non-terminal #", nonterm, "");
    write_num(
        fmt,
        "static int unparse_seq_nonterm",
        nonterm,
        " (Sequence* const seq, const unsigned char* const input, const size_t input_len, size_t* const cursor) {",
    );
    fmt.indent();
    fmt.write("size_t seq_idx = seq->len;");
    fmt.blankline();
    fmt.write("if (UNLIKELY(seq_idx >= seq->capacity)) {");
    fmt.indent();
    fmt.write("return 0;");
    fmt.unindent();
    fmt.write("}");
    fmt.blankline();
    fmt.write("size_t target_cursor = 0;");
    fmt.write("size_t target_id = (size_t) -1LL;");
    fmt.write("size_t tmp_cursor;");
    fmt.blankline();
    assert(fmt.text@ =~= p1 + unp_head_text(ind, nonterm as nat));
    let ghost p2 = fmt.text@;
    let order = crate::generator::alternative_order(rules);
    emit_unparsing_tries(nonterm, &order, fmt);
    let ghost p3 = fmt.text@;
    emit_unparsing_tail(nonterm, rules.len(), fmt);
    assert(fmt.text@ =~= p3 + unp_tail_text(ind, nonterm as nat, rules@.len()));
    proof {
        let u = unp_function_text(ind, nonterm as nat, rules@, order@);
        assert(longest_first(rules@, order@));
        assert(fmt.text@ =~= t0 + u);
        assert(fmt.text@.subrange(t0.len() as int, fmt.text@.len() as int) =~= u);
        assert(fmt.text@.subrange(0, t0.len() as int) =~= t0);
    }
}

/// The exported `unparse_sequence`.
#[verifier::rlimit(100)]
fn emit_unparsing_entrypoint(grammar: &LowLevelGrammar, fmt: &mut CFormatter)
    requires
        old(fmt).indentation <= usize::MAX - 14,
    ensures
        final(fmt).indentation == old(fmt).indentation,
        old(fmt).text@.is_prefix_of(final(fmt).text@),
        final(fmt).text@ == old(fmt).text@ + unp_entry_text(old(fmt).indentation as nat, grammar.entrypoint.0 as nat),
{
    let ghost t0 = fmt.text@;
    fmt.write("EXPORT_FUNCTION");
    fmt.write("size_t unparse_sequence (size_t* seq_buf, const size_t seq_capacity, const unsigned char* input, const size_t input_len) {");
    fmt.indent();
    fmt.write("if (UNLIKELY(!seq_buf || !seq_capacity || !input || !input_len)) {");
    fmt.indent();
    fmt.write("return 0;");
    fmt.unindent();
    fmt.write("}");
    fmt.write("Sequence seq = {");
    fmt.indent();
    fmt.write(".buf = seq_buf,");
    fmt.write(".len = 0,");
    fmt.write(".capacity = seq_capacity,");
    fmt.unindent();
    fmt.write("};");
    fmt.write("size_t cursor = 0;");
    write_num(fmt, "if (!unparse_seq_nonterm", grammar.entrypoint.0, "(&seq, input, input_len, &cursor)) {");
    fmt.indent();
    fmt.write("return 0;");
    fmt.unindent();
    fmt.write("} else {");
    fmt.indent();
    fmt.write("return seq.len;");
    fmt.unindent();
    fmt.write("}");
    fmt.unindent();
    fmt.write("}");
    fmt.blankline();
    assert(fmt.text@ =~= t0 + unp_entry_text(old(fmt).indentation as nat, grammar.entrypoint.0 as nat));
}

/// The exported `unparse_sequence`: 0 for a null or empty buffer or input,
/// or when the entrypoint does not match; otherwise the sequence length.
pub open spec fn unp_entry_text(i: nat, ep: nat) -> Seq<char> {
    text_line(i, "EXPORT_FUNCTION"@)
        + text_line(i, "size_t unparse_sequence (size_t* seq_buf, const size_t seq_capacity, const unsigned char* input, const size_t input_len) {"@)
        + text_line(i + 4, "if (UNLIKELY(!seq_buf || !seq_capacity || !input || !input_len)) {"@) + text_line(i + 8, "return 0;"@)
        + text_line(i + 4, "}"@) + text_line(i + 4, "Sequence seq = {"@) + text_line(i + 8, ".buf = seq_buf,"@)
        + text_line(i + 8, ".len = 0,"@) + text_line(i + 8, ".capacity = seq_capacity,"@) + text_line(i + 4, "};"@)
        + text_line(i + 4, "size_t cursor = 0;"@)
        + text_line(i + 4, "if (!unparse_seq_nonterm"@ + dec(ep) + "(&seq, input, input_len, &cursor)) {"@)
        + text_line(i + 8, "return 0;"@) + text_line(i + 4, "} else {"@) + text_line(i + 8, "return seq.len;"@)
        + text_line(i + 4, "}"@) + text_line(i, "}"@) + seq!['\n']
}

/// All of the unparsing code.
fn emit_unparsing_code(grammar: &LowLevelGrammar, fmt: &mut CFormatter)
    requires
        old(fmt).indentation <= usize::MAX - 34,
    ensures
        final(fmt).indentation == old(fmt).indentation,
        old(fmt).text@.is_prefix_of(final(fmt).text@),
{
    emit_unparsing_declarations(grammar, fmt);
    let mut n: usize = 0;
    while n < grammar.rules.len()
        invariant
            old(fmt).text@.is_prefix_of(fmt.text@),
            fmt.indentation == old(fmt).indentation,
            fmt.indentation <= usize::MAX - 34,
        decreases grammar.rules@.len() - n,
    {
        let ghost before = fmt.text@;
        emit_unparsing_function(n, &grammar.rules[n], fmt);
        assert(old(fmt).text@.is_prefix_of(fmt.text@)) by {
            assert(fmt.text@.subrange(0, old(fmt).text@.len() as int) =~= before.subrange(0, old(fmt).text@.len() as int));
        }
        n += 1;
    }
    emit_unparsing_entrypoint(grammar, fmt);
}

/// The fixed start of every emitted module.
pub open spec fn prelude_text(i: nat) -> Seq<char> {
    includes_text(i) + macros_text(i) + types_text(i) + rand_text(i)
}

/// The start of the module: the prelude, then the mutation code when asked for.
pub open spec fn module_start(mutations: bool, g: LowLevelGrammar) -> Seq<char> {
    prelude_text(0) + (if mutations { mut_code_text(0, g) } else { Seq::empty() })
}

/// The prototype of `mutate_sequence`.
pub open spec fn mutate_proto() -> Seq<char> {
    "size_t mutate_sequence (size_t* buf, size_t len, const size_t capacity);"@
}

/// The prototype of `serialize_sequence`.
pub open spec fn serialize_proto() -> Seq<char> {
    "size_t serialize_sequence (const size_t* seq, const size_t seq_len, unsigned char* out, const size_t out_len);"@
}

/// The prototype of `unparse_sequence`.
pub open spec fn unparse_proto() -> Seq<char> {
    "size_t unparse_sequence (size_t* seq_buf, const size_t seq_capacity, const unsigned char* input, const size_t input_len);"@
}

/// The header: an include guard, the stddef include, the prototypes of the
/// emitted procedures asked for, and `seed_generator`.
pub open spec fn header_text(mutations: bool, serializations: bool, unparsing: bool) -> Seq<char> {
    text_line(0, "#ifndef __PEACOCK_GENERATOR_H"@) + text_line(0, "#define __PEACOCK_GENERATOR_H"@) + seq!['\n']
        + text_line(0, "#include <stddef.h>"@) + seq!['\n']
        + (if mutations { text_line(0, mutate_proto()) } else { Seq::empty() })
        + (if serializations { text_line(0, serialize_proto()) } else { Seq::empty() })
        + (if unparsing { text_line(0, unparse_proto()) } else { Seq::empty() })
        + text_line(0, "void seed_generator (size_t new_seed);"@) + seq!['\n']
        + text_line(0, "#endif /* __PEACOCK_GENERATOR_H */"@)
}

/// The header that declares the exported functions.
#[verifier::rlimit(100)]
pub fn emit_header(mutations: bool, serializations: bool, unparsing: bool) -> (r: String)
    ensures
        r@ == header_text(mutations, serializations, unparsing),
{
    let mut fmt = CFormatter::new();
    fmt.write("#ifndef __PEACOCK_GENERATOR_H");
    fmt.write("#define __PEACOCK_GENERATOR_H");
    fmt.blankline();
    fmt.write("#include <stddef.h>");
    fmt.blankline();
    let ghost a = fmt.text@;
    assert(a =~= text_line(0, "#ifndef __PEACOCK_GENERATOR_H"@) + text_line(0, "#define __PEACOCK_GENERATOR_H"@) + seq!['\n']
        + text_line(0, "#include <stddef.h>"@) + seq!['\n']);
    if mutations {
        fmt.write("size_t mutate_sequence (size_t* buf, size_t len, const size_t capacity);");
    }
    let ghost b = fmt.text@;
    assert(b =~= a + (if mutations { text_line(0, mutate_proto()) } else { Seq::empty() }));
    if serializations {
        fmt.write("size_t serialize_sequence (const size_t* seq, const size_t seq_len, unsigned char* out, const size_t out_len);");
    }
    let ghost c = fmt.text@;
    assert(c =~= b + (if serializations { text_line(0, serialize_proto()) } else { Seq::empty() }));
    if unparsing {
        fmt.write("size_t unparse_sequence (size_t* seq_buf, const size_t seq_capacity, const unsigned char* input, const size_t input_len);");
    }
    let ghost d = fmt.text@;
    assert(d =~= c + (if unparsing { text_line(0, unparse_proto()) } else { Seq::empty() }));
    fmt.write("void seed_generator (size_t new_seed);");
    fmt.blankline();
    fmt.write("#endif /* __PEACOCK_GENERATOR_H */");
    assert(fmt.text@ =~= header_text(mutations, serializations, unparsing));
    fmt.text
}

/// This is the main struct of the C backend: it generates a grammar-based
/// mutator in C.
pub struct CGenerator {
    pub header: bool,
    pub mutations: bool,
    pub serializations: bool,
    pub unparsing: bool,
}

impl CGenerator {
    /// Create a new CGenerator that emits everything.
    pub fn new() -> (r: CGenerator)
        ensures
            r.header && r.mutations && r.serializations && r.unparsing,
    {
        CGenerator { header: true, mutations: true, serializations: true, unparsing: true }
    }

    /// Also generate a .h file with the definitions of the public C API.
    pub fn generate_header(self, flag: bool) -> (r: CGenerator)
        ensures
            r == (CGenerator { header: flag, ..self }),
    {
        CGenerator { header: flag, ..self }
    }

    /// Emit code that realizes the mutation of derivation sequences.
    pub fn emit_mutation_procedure(self, flag: bool) -> (r: CGenerator)
        ensures
            r == (CGenerator { mutations: flag, ..self }),
    {
        CGenerator { mutations: flag, ..self }
    }

    /// Emit code that realizes the serialization of derivation sequences.
    pub fn emit_serialization_procedure(self, flag: bool) -> (r: CGenerator)
        ensures
            r == (CGenerator { serializations: flag, ..self }),
    {
        CGenerator { serializations: flag, ..self }
    }

    /// Emit code that realizes the unparsing of inputs into derivation sequences.
    pub fn emit_unparsing_procedure(self, flag: bool) -> (r: CGenerator)
        ensures
            r == (CGenerator { unparsing: flag, ..self }),
    {
        CGenerator { unparsing: flag, ..self }
    }

    /// The C source for `grammar`, and the header when one was asked for.
    /// The source starts with the prelude and, when asked for, the mutation
    /// code of the lowered grammar; the serialization and unparsing code follow.
        pub fn generate(&self, grammar: &crate::cfg::ContextFreeGrammar) -> (r: (String, Option<String>))
        requires
            crate::cfg::defines(grammar@.rules, grammar@.start),
        ensures
            r.1 is Some <==> self.header,
            self.header ==> r.1->Some_0@ == header_text(self.mutations, self.serializations, self.unparsing),
            exists|ll: LowLevelGrammar|
                #[trigger] crate::lowlevel::lowering_of(ll, grammar@) && module_start(self.mutations, ll).is_prefix_of(r.0@),
    {
        let ghost hg = grammar@;
        let grammar = LowLevelGrammar::from_high_level_grammar(grammar);
        let mut fmt = CFormatter::new();
        emit_includes(&mut fmt);
        emit_macros(&mut fmt);
        emit_types(&mut fmt);
        emit_rand(&mut fmt);
        assert(fmt.text@ =~= prelude_text(0));
        if self.mutations {
            emit_mutation_code(&grammar, &mut fmt);
        }
        let ghost head = fmt.text@;
        assert(head =~= module_start(self.mutations, grammar));
        if self.serializations {
            emit_serialization_code(&grammar, &mut fmt);
        }
        if self.unparsing {
            if !self.serializations {
                emit_terminals(&grammar, &mut fmt);
            }
            emit_unparsing_code(&grammar, &mut fmt);
        }
        let header = if self.header {
            Some(emit_header(self.mutations, self.serializations, self.unparsing))
        } else {
            None
        };
        proof {
            assert(head.is_prefix_of(fmt.text@));
            assert(crate::lowlevel::lowering_of(grammar, hg));
        }
        (fmt.text, header)
    }
}

} // verus!
