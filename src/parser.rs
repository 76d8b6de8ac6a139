use vstd::prelude::*;
use vstd::string::*;

use crate::cfg::{syms, NonTerminal, ProductionRule, RuleV, Sym, Symbol, Terminal};
use crate::text::join3;

verus! {

/// A parsed JSON document, as far as grammar files use it.
pub enum JsonValue {
    Str(String),
    Array(Vec<JsonValue>),
    Object(Vec<(String, JsonValue)>),
    /// Any other JSON value: null, a boolean or a number.
    Other,
}

/// The name inside `<...>`, when `s` has that shape and a non-empty name.
pub open spec fn nonterm_of(s: Seq<char>) -> Option<Seq<char>> {
    if s.len() > 2 && s[0] == '<' && s[s.len() - 1] == '>' {
        Some(s.subrange(1, s.len() - 1))
    } else {
        None
    }
}

/// The text inside `'...'`, or `s` itself when it is not quoted that way.
pub open spec fn term_of(s: Seq<char>) -> Seq<char> {
    if s.len() >= 2 && s[0] == '\'' && s[s.len() - 1] == '\'' {
        s.subrange(1, s.len() - 1)
    } else {
        s
    }
}

/// A token of a peacock rule as a symbol.
pub open spec fn peacock_symbol(s: Seq<char>) -> Sym {
    match nonterm_of(s) {
        Some(n) => Sym::N(n),
        None => Sym::T(term_of(s)),
    }
}

/// If `keyword` is `<NAME>` with a non-empty name, the name.
pub fn parse_non_terminal(keyword: &str) -> (r: Option<String>)
    ensures
        r is Some <==> nonterm_of(keyword@) is Some,
        r is Some ==> r->Some_0@ == nonterm_of(keyword@)->Some_0,
{
    let n = keyword.unicode_len();
    if n > 2 && keyword.get_char(0) == '<' && keyword.get_char(n - 1) == '>' {
        Some(String::from_str(keyword.substring_char(1, n - 1)))
    } else {
        None
    }
}

/// The text of a terminal token: the quotes of `'text'` removed.
pub fn parse_terminal(keyword: &str) -> (r: String)
    ensures
        r@ == term_of(keyword@),
{
    let n = keyword.unicode_len();
    if n >= 2 && keyword.get_char(0) == '\'' && keyword.get_char(n - 1) == '\'' {
        String::from_str(keyword.substring_char(1, n - 1))
    } else {
        String::from_str(keyword)
    }
}

/// One alternative of a peacock rule is a non-empty array of strings.
pub open spec fn peacock_alt_ok(v: JsonValue) -> bool {
    match v {
        JsonValue::Array(toks) => toks@.len() > 0 && forall|k: int|
            0 <= k < toks@.len() ==> #[trigger] toks@[k] is Str,
        _ => false,
    }
}

/// The symbols of a well-formed alternative.
pub open spec fn peacock_alt(v: JsonValue) -> Seq<Sym> {
    match v {
        JsonValue::Array(toks) => toks@.map_values(|t: JsonValue| peacock_symbol(t->Str_0@)),
        _ => Seq::empty(),
    }
}

/// One entry of a peacock grammar: its key is `<NAME>` and its value a
/// non-empty array of well-formed alternatives.
pub open spec fn peacock_entry_ok(e: (String, JsonValue)) -> bool {
    nonterm_of(e.0@) is Some && match e.1 {
        JsonValue::Array(alts) => alts@.len() > 0 && forall|k: int|
            0 <= k < alts@.len() ==> peacock_alt_ok(#[trigger] alts@[k]),
        _ => false,
    }
}

/// The rules of one well-formed entry.
pub open spec fn peacock_entry_rules(e: (String, JsonValue)) -> Seq<RuleV> {
    match e.1 {
        JsonValue::Array(alts) => alts@.map_values(
            |a: JsonValue| RuleV { lhs: nonterm_of(e.0@)->Some_0, rhs: peacock_alt(a) },
        ),
        _ => Seq::empty(),
    }
}

/// A peacock grammar is an object of well-formed entries.
pub open spec fn peacock_ok(v: JsonValue) -> bool {
    match v {
        JsonValue::Object(es) => forall|i: int| 0 <= i < es@.len() ==> peacock_entry_ok(#[trigger] es@[i]),
        _ => false,
    }
}

/// The rules of the first `n` entries, entry by entry in order.
pub open spec fn entries_rules(es: Seq<(String, JsonValue)>, n: int, f: spec_fn((String, JsonValue)) -> Seq<RuleV>) -> Seq<RuleV>
    decreases n,
{
    if n <= 0 {
        Seq::empty()
    } else {
        entries_rules(es, n - 1, f) + f(es[n - 1])
    }
}

/// The rules that a well-formed peacock grammar describes.
pub open spec fn peacock_rules(v: JsonValue) -> Seq<RuleV> {
    match v {
        JsonValue::Object(es) => entries_rules(es@, es@.len() as int, |e: (String, JsonValue)| peacock_entry_rules(e)),
        _ => Seq::empty(),
    }
}

fn peacock_alternative(lhs: &String, alt: &JsonValue) -> (r: Option<ProductionRule>)
    ensures
        r is Some <==> peacock_alt_ok(*alt),
        r is Some ==> r->Some_0@ == (RuleV { lhs: lhs@, rhs: peacock_alt(*alt) }),
        r is Some ==> r->Some_0@.rhs.len() > 0,
{
    let toks = match alt {
        JsonValue::Array(toks) => toks,
        _ => return None,
    };
    if toks.len() == 0 {
        return None;
    }
    let mut symbols: Vec<Symbol> = Vec::new();
    let mut k: usize = 0;
    while k < toks.len()
        invariant
            k <= toks@.len(),
            *alt == JsonValue::Array(*toks),
            symbols@.len() == k,
            forall|m: int| 0 <= m < k ==> #[trigger] toks@[m] is Str,
            forall|m: int| 0 <= m < k ==> (#[trigger] symbols@[m])@ == peacock_symbol(toks@[m]->Str_0@),
        decreases toks@.len() - k,
    {
        let tok = match &toks[k] {
            JsonValue::Str(s) => s,
            _ => {
                assert(!(toks@[k as int] is Str));
                return None;
            },
        };
        match parse_non_terminal(tok.as_str()) {
            Some(n) => symbols.push(Symbol::NonTerminal(NonTerminal::new(n))),
            None => symbols.push(Symbol::Terminal(Terminal::new(parse_terminal(tok.as_str())))),
        }
        k += 1;
    }
    let rule = ProductionRule::new(NonTerminal::new(lhs.clone()), symbols);
    assert(syms(symbols@) =~= peacock_alt(*alt));
    Some(rule)
}

/// The production rules of a grammar in peacock format: an object that maps
/// `<NAME>` to a non-empty array of alternatives, each a non-empty array of
/// tokens, where a token is `<NAME>` for a non-terminal and anything else for
/// a terminal (`'text'` without its quotes).
pub fn parse_peacock(value: &JsonValue) -> (r: Result<Vec<ProductionRule>, String>)
    ensures
        r is Ok <==> peacock_ok(*value),
        r is Ok ==> crate::cfg::rules_view(r->Ok_0@) == peacock_rules(*value),
        r is Ok ==> forall|i: int| 0 <= i < r->Ok_0@.len() ==> (#[trigger] r->Ok_0@[i])@.rhs.len() > 0,
{
    let es = match value {
        JsonValue::Object(es) => es,
        _ => return Err(String::from_str("Peacock grammar must be specified as an object")),
    };
    assert(*value == JsonValue::Object(*es));
    let ghost f = |e: (String, JsonValue)| peacock_entry_rules(e);
    let mut rules: Vec<ProductionRule> = Vec::new();
    let mut i: usize = 0;
    while i < es.len()
        invariant
            i <= es@.len(),
            *value == JsonValue::Object(*es),
            f == (|e: (String, JsonValue)| peacock_entry_rules(e)),
            forall|m: int| 0 <= m < i ==> peacock_entry_ok(#[trigger] es@[m]),
            crate::cfg::rules_view(rules@) == entries_rules(es@, i as int, f),
            forall|m: int| 0 <= m < rules@.len() ==> (#[trigger] rules@[m])@.rhs.len() > 0,
        decreases es@.len() - i,
    {
        assert(peacock_ok(*value) ==> peacock_entry_ok(es@[i as int])) by {
            if peacock_ok(*value) {
                assert(value->Object_0 == *es);
                assert(forall|m: int| 0 <= m < es@.len() ==> peacock_entry_ok(#[trigger] es@[m]));
            }
        }
        let key = &es[i].0;
        let lhs = match parse_non_terminal(key.as_str()) {
            Some(lhs) => lhs,
            None => {
                assert(!peacock_entry_ok(es@[i as int]));
                return Err(join3("'", key.as_str(), "' is not a valid non-terminal"));
            },
        };
        let alts = match &es[i].1 {
            JsonValue::Array(alts) => alts,
            _ => {
                assert(!peacock_entry_ok(es@[i as int]));
                return Err(join3("Right-hand-side of '", key.as_str(), "' must be an array"));
            },
        };
        if alts.len() == 0 {
            assert(!peacock_entry_ok(es@[i as int]));
            return Err(join3("Invalid production rule '", key.as_str(), "': Must not be empty"));
        }
        let ghost before = crate::cfg::rules_view(rules@);
        let mut k: usize = 0;
        while k < alts.len()
            invariant
                k <= alts@.len(),
                i < es@.len(),
                *value == JsonValue::Object(*es),
                peacock_ok(*value) ==> peacock_entry_ok(es@[i as int]),
                es@[i as int].1 == JsonValue::Array(*alts),
                lhs@ == nonterm_of(es@[i as int].0@)->Some_0,
                forall|m: int| 0 <= m < k ==> peacock_alt_ok(#[trigger] alts@[m]),
                crate::cfg::rules_view(rules@) == before + peacock_entry_rules(es@[i as int]).subrange(0, k as int),
                forall|m: int| 0 <= m < rules@.len() ==> (#[trigger] rules@[m])@.rhs.len() > 0,
            decreases alts@.len() - k,
        {
            let rule = match peacock_alternative(&lhs, &alts[k]) {
                Some(rule) => rule,
                None => {
                    assert(!peacock_entry_ok(es@[i as int]));
                    return Err(join3("Right-hand-side of '", key.as_str(), "' must be an array of non-empty arrays of strings"));
                },
            };
            let ghost prev = crate::cfg::rules_view(rules@);
            let ghost nr = rule@;
            rules.push(rule);
            assert(crate::cfg::rules_view(rules@) =~= prev.push(nr));
            k += 1;
            assert(crate::cfg::rules_view(rules@) =~= before + peacock_entry_rules(es@[i as int]).subrange(0, k as int));
        }
        assert(peacock_entry_rules(es@[i as int]).subrange(0, k as int) =~= peacock_entry_rules(es@[i as int]));
        assert(peacock_entry_ok(es@[i as int]));
        i += 1;
    }
    Ok(rules)
}

/// Whitespace as gramatron rule strings use it.
pub open spec fn ws(c: char) -> bool {
    c == ' ' || c == '\t' || c == '\n' || c == '\r' || c == '\x0c' || c == '\x0b'
}

/// Whether `c` is whitespace as gramatron rule strings use it.
pub fn is_whitespace(c: char) -> (r: bool)
    ensures
        r == ws(c),
{
    c == ' ' || c == '\t' || c == '\n' || c == '\r' || c == '\x0c' || c == '\x0b'
}

/// The length of the longest prefix of `s` without `q`.
pub open spec fn span(s: Seq<char>, q: char) -> nat
    decreases s.len(),
{
    if s.len() == 0 || s[0] == q {
        0
    } else {
        1 + span(s.drop_first(), q)
    }
}

/// The length of the longest prefix of `s` without whitespace or quotes.
pub open spec fn word_span(s: Seq<char>) -> nat
    decreases s.len(),
{
    if s.len() == 0 || ws(s[0]) || s[0] == '\'' || s[0] == '"' {
        0
    } else {
        1 + word_span(s.drop_first())
    }
}

proof fn lemma_span_le(s: Seq<char>, q: char)
    ensures
        span(s, q) <= s.len(),
    decreases s.len(),
{
    if s.len() > 0 && s[0] != q {
        lemma_span_le(s.drop_first(), q);
    }
}

proof fn lemma_word_span_le(s: Seq<char>)
    ensures
        word_span(s) <= s.len(),
    decreases s.len(),
{
    if s.len() > 0 && !(ws(s[0]) || s[0] == '\'' || s[0] == '"') {
        lemma_word_span_le(s.drop_first());
    }
}

/// The symbols of a gramatron rule string: text in single or double quotes is
/// a terminal (an unclosed quote runs to the end), whitespace separates, and
/// any other run of characters is a non-terminal.
pub open spec fn tokenize(s: Seq<char>) -> Seq<Sym>
    decreases s.len(),
{
    if s.len() == 0 {
        Seq::empty()
    } else if s[0] == '\'' || s[0] == '"' {
        let r = s.drop_first();
        let e = span(r, s[0]);
        let next = if e + 1 <= r.len() { e + 1 } else { r.len() as nat };
        seq![Sym::T(r.take(e as int))] + tokenize(r.skip(next as int))
    } else if ws(s[0]) {
        tokenize(s.drop_first())
    } else {
        let e = if word_span(s) <= s.len() { word_span(s) } else { s.len() as nat };
        if e == 0 {
            Seq::empty()
        } else {
            seq![Sym::N(s.take(e as int))] + tokenize(s.skip(e as int))
        }
    }
}

fn to_chars(s: &str) -> (r: Vec<char>)
    ensures
        r@ == s@,
{
    let n = s.unicode_len();
    let mut r: Vec<char> = Vec::new();
    let mut i: usize = 0;
    while i < n
        invariant
            n == s@.len(),
            i <= n,
            r@ == s@.subrange(0, i as int),
        decreases n - i,
    {
        r.push(s.get_char(i));
        i += 1;
        assert(r@ =~= s@.subrange(0, i as int));
    }
    assert(s@.subrange(0, n as int) =~= s@);
    r
}

fn scan_span(c: &Vec<char>, from: usize, q: char) -> (e: usize)
    requires
        from <= c@.len(),
    ensures
        e == from + span(c@.skip(from as int), q),
        e <= c@.len(),
{
    let mut j = from;
    while j < c.len() && c[j] != q
        invariant
            from <= j <= c@.len(),
            span(c@.skip(from as int), q) == (j - from) + span(c@.skip(j as int), q),
        decreases c@.len() - j,
    {
        assert(c@.skip(j as int).drop_first() =~= c@.skip(j as int + 1));
        j += 1;
    }
    j
}

fn scan_word(c: &Vec<char>, from: usize) -> (e: usize)
    requires
        from <= c@.len(),
    ensures
        e == from + word_span(c@.skip(from as int)),
        e <= c@.len(),
{
    let mut j = from;
    while j < c.len() && !(is_whitespace(c[j]) || c[j] == '\'' || c[j] == '"')
        invariant
            from <= j <= c@.len(),
            word_span(c@.skip(from as int)) == (j - from) + word_span(c@.skip(j as int)),
        decreases c@.len() - j,
    {
        assert(c@.skip(j as int).drop_first() =~= c@.skip(j as int + 1));
        j += 1;
    }
    j
}

/// The symbols of one gramatron rule string.
pub fn tokenize_rule(rule: &str) -> (r: Vec<Symbol>)
    ensures
        syms(r@) == tokenize(rule@),
{
    let c = to_chars(rule);
    let mut symbols: Vec<Symbol> = Vec::new();
    let mut cursor: usize = 0;
    assert(c@.skip(0) =~= c@);
    while cursor < c.len()
        invariant
            c@ == rule@,
            cursor <= c@.len(),
            syms(symbols@) + tokenize(c@.skip(cursor as int)) == tokenize(rule@),
        decreases c@.len() - cursor,
    {
        let ghost rest = c@.skip(cursor as int);
        let ghost before = syms(symbols@);
        let q = c[cursor];
        if q == '\'' || q == '"' {
            let start = cursor + 1;
            let end = scan_span(&c, start, q);
            proof {
                assert(rest.drop_first() =~= c@.skip(start as int));
                lemma_span_le(rest.drop_first(), q);
            }
            let text = String::from_str(rule.substring_char(start, end));
            symbols.push(Symbol::Terminal(Terminal::new(text)));
            cursor = if end < c.len() { end + 1 } else { end };
            proof {
                let r = rest.drop_first();
                assert(r.take((end - start) as int) =~= c@.subrange(start as int, end as int));
                assert(r.skip(cursor - start) =~= c@.skip(cursor as int));
                assert(syms(symbols@) =~= before.push(Sym::T(c@.subrange(start as int, end as int))));
                assert(syms(symbols@) + tokenize(c@.skip(cursor as int)) =~= before + tokenize(rest));
            }
        } else if is_whitespace(q) {
            cursor += 1;
            assert(rest.drop_first() =~= c@.skip(cursor as int));
        } else {
            let end = scan_word(&c, cursor);
            proof {
                assert(rest[0] == q);
                assert(word_span(rest) >= 1);
                lemma_word_span_le(rest);
            }
            let text = String::from_str(rule.substring_char(cursor, end));
            symbols.push(Symbol::NonTerminal(NonTerminal::new(text)));
            proof {
                assert(rest.take((end - cursor) as int) =~= c@.subrange(cursor as int, end as int));
                assert(rest.skip((end - cursor) as int) =~= c@.skip(end as int));
                assert(syms(symbols@) =~= before.push(Sym::N(c@.subrange(cursor as int, end as int))));
                assert(syms(symbols@) + tokenize(c@.skip(end as int)) =~= before + tokenize(rest));
            }
            cursor = end;
        }
    }
    assert(c@.skip(cursor as int) =~= Seq::<char>::empty());
    assert(syms(symbols@) + tokenize(c@.skip(cursor as int)) =~= syms(symbols@));
    symbols
}

/// One entry of a gramatron grammar: a non-empty array of rule strings, each
/// with at least one token.
pub open spec fn gramatron_entry_ok(e: (String, JsonValue)) -> bool {
    match e.1 {
        JsonValue::Array(alts) => alts@.len() > 0 && forall|k: int|
            0 <= k < alts@.len() ==> (#[trigger] alts@[k]) is Str && tokenize(alts@[k]->Str_0@).len() > 0,
        _ => false,
    }
}

/// The rules of one well-formed gramatron entry.
pub open spec fn gramatron_entry_rules(e: (String, JsonValue)) -> Seq<RuleV> {
    match e.1 {
        JsonValue::Array(alts) => alts@.map_values(
            |a: JsonValue| RuleV { lhs: e.0@, rhs: tokenize(a->Str_0@) },
        ),
        _ => Seq::empty(),
    }
}

/// A gramatron grammar is an object of well-formed entries.
pub open spec fn gramatron_ok(v: JsonValue) -> bool {
    match v {
        JsonValue::Object(es) => forall|i: int| 0 <= i < es@.len() ==> gramatron_entry_ok(#[trigger] es@[i]),
        _ => false,
    }
}

/// The rules that a well-formed gramatron grammar describes.
pub open spec fn gramatron_rules(v: JsonValue) -> Seq<RuleV> {
    match v {
        JsonValue::Object(es) => entries_rules(es@, es@.len() as int, |e: (String, JsonValue)| gramatron_entry_rules(e)),
        _ => Seq::empty(),
    }
}

/// The production rules of a grammar in gramatron format: an object that maps
/// a non-terminal's name to a non-empty array of rule strings.
pub fn parse_gramatron(value: &JsonValue) -> (r: Result<Vec<ProductionRule>, String>)
    ensures
        r is Ok <==> gramatron_ok(*value),
        r is Ok ==> crate::cfg::rules_view(r->Ok_0@) == gramatron_rules(*value),
        r is Ok ==> forall|i: int| 0 <= i < r->Ok_0@.len() ==> (#[trigger] r->Ok_0@[i])@.rhs.len() > 0,
{
    let es = match value {
        JsonValue::Object(es) => es,
        _ => return Err(String::from_str("Gramatron grammar must be specified as an object")),
    };
    let ghost f = |e: (String, JsonValue)| gramatron_entry_rules(e);
    let mut rules: Vec<ProductionRule> = Vec::new();
    let mut i: usize = 0;
    while i < es.len()
        invariant
            i <= es@.len(),
            *value == JsonValue::Object(*es),
            f == (|e: (String, JsonValue)| gramatron_entry_rules(e)),
            forall|m: int| 0 <= m < i ==> gramatron_entry_ok(#[trigger] es@[m]),
            crate::cfg::rules_view(rules@) == entries_rules(es@, i as int, f),
            forall|m: int| 0 <= m < rules@.len() ==> (#[trigger] rules@[m])@.rhs.len() > 0,
        decreases es@.len() - i,
    {
        assert(gramatron_ok(*value) ==> gramatron_entry_ok(es@[i as int])) by {
            if gramatron_ok(*value) {
                assert(value->Object_0 == *es);
                assert(forall|m: int| 0 <= m < es@.len() ==> gramatron_entry_ok(#[trigger] es@[m]));
            }
        }
        let key = &es[i].0;
        let alts = match &es[i].1 {
            JsonValue::Array(alts) => alts,
            _ => {
                assert(!gramatron_entry_ok(es@[i as int]));
                return Err(join3("Right-hand-side of '", key.as_str(), "' must be an array"));
            },
        };
        if alts.len() == 0 {
            assert(!gramatron_entry_ok(es@[i as int]));
            return Err(join3("Invalid production rule '", key.as_str(), "': Must not be empty"));
        }
        let ghost before = crate::cfg::rules_view(rules@);
        let mut k: usize = 0;
        while k < alts.len()
            invariant
                k <= alts@.len(),
                i < es@.len(),
                *value == JsonValue::Object(*es),
                gramatron_ok(*value) ==> gramatron_entry_ok(es@[i as int]),
                es@[i as int].1 == JsonValue::Array(*alts),
                *key == es@[i as int].0,
                forall|m: int| 0 <= m < k ==> (#[trigger] alts@[m]) is Str && tokenize(alts@[m]->Str_0@).len() > 0,
                crate::cfg::rules_view(rules@) == before + gramatron_entry_rules(es@[i as int]).subrange(0, k as int),
                forall|m: int| 0 <= m < rules@.len() ==> (#[trigger] rules@[m])@.rhs.len() > 0,
            decreases alts@.len() - k,
        {
            let text = match &alts[k] {
                JsonValue::Str(text) => text,
                _ => {
                    assert(!gramatron_entry_ok(es@[i as int]));
                    return Err(join3("Right-hand-side of '", key.as_str(), "' must be an array of strings"));
                },
            };
            let symbols = tokenize_rule(text.as_str());
            if symbols.len() == 0 {
                assert(!gramatron_entry_ok(es@[i as int]));
                return Err(join3("Right-hand-side of '", key.as_str(), "' must not contain a string with no tokens"));
            }
            let rule = ProductionRule::new(NonTerminal::new(key.clone()), symbols);
            let ghost prev = crate::cfg::rules_view(rules@);
            let ghost nr = rule@;
            rules.push(rule);
            assert(crate::cfg::rules_view(rules@) =~= prev.push(nr));
            k += 1;
            assert(crate::cfg::rules_view(rules@) =~= before + gramatron_entry_rules(es@[i as int]).subrange(0, k as int));
        }
        assert(gramatron_entry_rules(es@[i as int]).subrange(0, k as int) =~= gramatron_entry_rules(es@[i as int]));
        i += 1;
    }
    Ok(rules)
}

} // verus!
