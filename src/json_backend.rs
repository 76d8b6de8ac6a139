use vstd::prelude::*;
use vstd::string::*;

use crate::cfg::{ContextFreeGrammar, RuleV, Sym, Symbol};
use crate::lowlevel::rhs_of;
use crate::text::join3;

verus! {

/// `s` has at least two characters, starts with `start` and ends with `end`.
pub open spec fn enclosed(s: Seq<char>, start: char, end: char) -> bool {
    s.len() >= 2 && s[0] == start && s[s.len() - 1] == end
}

/// How a terminal is written in peacock format: quoted when it would
/// otherwise read as a non-terminal or as a quoted terminal.
pub open spec fn terminal_text(c: Seq<char>) -> Seq<char> {
    if enclosed(c, '<', '>') || enclosed(c, '\'', '\'') {
        seq!['\''] + c + seq!['\'']
    } else {
        c
    }
}

/// How a symbol is written in peacock format.
pub open spec fn symbol_text(s: Sym) -> Seq<char> {
    match s {
        Sym::T(c) => terminal_text(c),
        Sym::N(n) => seq!['<'] + n + seq!['>'],
    }
}

pub fn enclosed_in(s: &str, start: char, end: char) -> (r: bool)
    ensures
        r == enclosed(s@, start, end),
{
    let n = s.unicode_len();
    n >= 2 && s.get_char(0) == start && s.get_char(n - 1) == end
}

pub fn terminal_string(content: &str) -> (r: String)
    ensures
        r@ == terminal_text(content@),
{
    proof {
        reveal_strlit("'");
    }
    if enclosed_in(content, '<', '>') || enclosed_in(content, '\'', '\'') {
        return join3("'", content, "'");
    }
    String::from_str(content)
}

fn symbol_string(s: &Symbol) -> (r: String)
    ensures
        r@ == symbol_text(s@),
{
    proof {
        reveal_strlit("<");
        reveal_strlit(">");
    }
    match s {
        Symbol::Terminal(t) => terminal_string(t.content()),
        Symbol::NonTerminal(n) => join3("<", n.id(), ">"),
    }
}

/// One entry of a grammar in peacock format: a key and its alternatives.
pub type Entry = (String, Vec<Vec<String>>);

/// The texts of an alternative's symbols.
pub open spec fn alt_text(rhs: Seq<Sym>) -> Seq<Seq<char>> {
    rhs.map_values(|s: Sym| symbol_text(s))
}

/// Some entry of `r` has the key `<n>`.
pub open spec fn has_entry(r: Seq<Entry>, n: Seq<char>) -> bool {
    exists|e: int| 0 <= e < r.len() && r[e].0@ == seq!['<'] + n + seq!['>']
}

/// The name inside a key `<NAME>`.
pub open spec fn key_name(k: Seq<char>) -> Seq<char> {
    k.subrange(1, k.len() - 1)
}

/// `e` is the entry of non-terminal `n`: its key is `<n>` and its
/// alternatives are the rules of `n` in order.
pub open spec fn entry_of(e: Entry, g: Seq<RuleV>, n: Seq<char>) -> bool {
    &&& e.0@ == seq!['<'] + n + seq!['>']
    &&& e.1@.len() == rhs_of(g, n).len()
    &&& forall|a: int| 0 <= a < e.1@.len() ==> (#[trigger] e.1@[a])@.map_values(|t: String| t@) == alt_text(rhs_of(g, n)[a])
}

/// This is the main struct of the json backend: it writes grammars in peacock format.
pub struct JsonGenerator {}

impl JsonGenerator {
    /// Create a new JsonGenerator.
    pub fn new() -> JsonGenerator {
        JsonGenerator {}
    }

    /// The production rules of `grammar` in peacock format: one entry per
    /// non-terminal, in order of its first rule, whose key is `<NAME>` and
    /// whose alternatives are its rules in order.
    pub fn generate(&self, grammar: &ContextFreeGrammar) -> (r: Vec<Entry>)
        ensures
            forall|e: int| 0 <= e < r@.len() ==> entry_of(#[trigger] r@[e], grammar@.rules, key_name(r@[e].0@)),
            forall|i: int| 0 <= i < grammar@.rules.len() ==> has_entry(r@, (#[trigger] grammar@.rules[i]).lhs),
            forall|e: int, f: int| 0 <= e < f < r@.len() ==> (#[trigger] r@[e]).0@ != (#[trigger] r@[f]).0@,
            forall|e: int| 0 <= e < r@.len() ==> crate::cfg::defines(grammar@.rules, key_name(#[trigger] r@[e].0@)),
    {
        let rules = grammar.rules();
        let ghost g = grammar@.rules;
        let mut entries: Vec<Entry> = Vec::new();
        let mut names: Vec<String> = Vec::new();
        let mut i: usize = 0;
        assert(g.subrange(0, 0) =~= Seq::<RuleV>::empty());
        while i < rules.len()
            invariant
                i <= rules@.len(),
                g == crate::cfg::rules_view(rules@),
                g == grammar@.rules,
                entries@.len() == names@.len(),
                crate::lowlevel::distinct(names@),
                forall|e: int| 0 <= e < entries@.len() ==> (#[trigger] entries@[e]).0@ == seq!['<'] + names@[e]@ + seq!['>'],
                forall|e: int| 0 <= e < entries@.len() ==> (#[trigger] entries@[e]).1@.len() == rhs_of(g.subrange(0, i as int), names@[e]@).len(),
                forall|e: int, a: int| 0 <= e < entries@.len() && 0 <= a < entries@[e].1@.len() ==> (#[trigger] entries@[e].1@[a])@.map_values(|t: String| t@)
                    == alt_text(rhs_of(g.subrange(0, i as int), names@[e]@)[a]),
                forall|m: int| 0 <= m < i ==> crate::lowlevel::has_name(names@, (#[trigger] g[m]).lhs),
                forall|x: int| 0 <= x < names@.len() ==> crate::cfg::defines(g, (#[trigger] names@[x])@),
            decreases rules@.len() - i,
        {
            let ghost pre = g.subrange(0, i as int);
            let ghost cur = g.subrange(0, i as int + 1);
            assert(cur.drop_last() =~= pre);
            assert(cur.last() == g[i as int]);
            let rule = &rules[i];
            let name = String::from_str(rule.lhs().id());
            let rhs = rule.rhs();
            let mut alt: Vec<String> = Vec::new();
            let mut k: usize = 0;
            while k < rhs.len()
                invariant
                    k <= rhs@.len(),
                    alt@.len() == k,
                    forall|m: int| 0 <= m < k ==> (#[trigger] alt@[m])@ == symbol_text(rhs@[m]@),
                decreases rhs@.len() - k,
            {
                alt.push(symbol_string(&rhs[k]));
                k += 1;
            }
            assert(alt@.map_values(|t: String| t@) =~= alt_text(g[i as int].rhs));
            let mut e: usize = 0;
            while e < names.len() && !(names[e] == name)
                invariant
                    e <= names@.len(),
                    forall|m: int| 0 <= m < e ==> names@[m]@ != name@,
                decreases names@.len() - e,
            {
                e += 1;
            }
            let ghost before = entries@;
            let ghost names_before = names@;
            if e == names.len() {
                proof {
                    assert forall|m: int| 0 <= m < pre.len() implies (#[trigger] pre[m]).lhs != name@ by {
                        assert(pre[m] == g[m]);
                        assert(crate::lowlevel::has_name(names@, g[m].lhs));
                    }
                    lemma_rhs_of_absent(pre, name@);
                }
                let key = join3("<", name.as_str(), ">");
                proof {
                    reveal_strlit("<");
                    reveal_strlit(">");
                }
                proof {
                    assert(g[i as int].lhs == name@);
                }
                names.push(name);
                entries.push((key, Vec::new()));
            }
            let ghost mid = entries@;
            let mut entry = entries.remove(e);
            entry.1.push(alt);
            entries.insert(e, entry);
            proof {
                assert forall|x: int| 0 <= x < entries@.len() implies (#[trigger] entries@[x]).0@ == seq!['<'] + names@[x]@ + seq!['>'] by {
                    assert(entries@[x].0 == mid[x].0);
                }
                assert forall|x: int| 0 <= x < entries@.len() implies (#[trigger] entries@[x]).1@.len() == rhs_of(cur, names@[x]@).len() by {
                    if x != e {
                        assert(entries@[x] == mid[x]);
                        assert(names@[x]@ != names@[e as int]@);
                    }
                }
                assert forall|x: int, a: int| 0 <= x < entries@.len() && 0 <= a < entries@[x].1@.len() implies (#[trigger] entries@[x].1@[a])@.map_values(|t: String| t@)
                    == alt_text(rhs_of(cur, names@[x]@)[a]) by {
                    if x != e {
                        assert(entries@[x] == mid[x]);
                        assert(names@[x]@ != names@[e as int]@);
                    } else if a < mid[x].1@.len() {
                        assert(entries@[x].1@[a] == mid[x].1@[a]);
                    }
                }
                assert forall|m: int| 0 <= m < i + 1 implies crate::lowlevel::has_name(names@, (#[trigger] g[m]).lhs) by {
                    if m == i {
                        assert(names@[e as int]@ == g[m].lhs);
                    } else {
                        assert(crate::lowlevel::has_name(names_before, g[m].lhs));
                        let k = choose|k: int| 0 <= k < names_before.len() && names_before[k]@ == g[m].lhs;
                        assert(names@[k] == names_before[k]);
                    }
                }
            }
            i += 1;
        }
        assert(g.subrange(0, g.len() as int) =~= g);
        proof {
            assert forall|x: int| 0 <= x < entries@.len() implies entry_of(#[trigger] entries@[x], grammar@.rules, key_name(entries@[x].0@)) by {
                let n = names@[x]@;
                assert(key_name(entries@[x].0@) =~= n);
                assert(g.subrange(0, i as int) == g);
                assert(entries@[x].0@ == seq!['<'] + n + seq!['>']);
                assert(entries@[x].1@.len() == rhs_of(g, n).len());
                assert(entry_of(entries@[x], g, n));
                assert(entry_of(entries@[x], grammar@.rules, n));
            }
            assert forall|x: int| 0 <= x < entries@.len() implies key_name(#[trigger] entries@[x].0@) == names@[x]@ by {
                assert(key_name(entries@[x].0@) =~= names@[x]@);
            }
            assert forall|m: int| 0 <= m < g.len() implies has_entry(entries@, (#[trigger] g[m]).lhs) by {
                assert(crate::lowlevel::has_name(names@, g[m].lhs));
                let k = choose|k: int| 0 <= k < names@.len() && names@[k]@ == g[m].lhs;
                assert(entries@[k].0@ == seq!['<'] + g[m].lhs + seq!['>']);
            }
            assert forall|e: int, f: int| 0 <= e < f < entries@.len() implies (#[trigger] entries@[e]).0@ != (#[trigger] entries@[f]).0@ by {
                if entries@[e].0@ == entries@[f].0@ {
                    assert(key_name(entries@[e].0@) == names@[e]@);
                    assert(key_name(entries@[f].0@) == names@[f]@);
                }
            }
            assert forall|x: int| 0 <= x < entries@.len() implies crate::cfg::defines(g, key_name(#[trigger] entries@[x].0@)) by {
                assert(key_name(entries@[x].0@) == names@[x]@);
            }
        }
        entries
    }
}

proof fn lemma_rhs_of_absent(s: Seq<RuleV>, n: Seq<char>)
    requires
        forall|m: int| 0 <= m < s.len() ==> (#[trigger] s[m]).lhs != n,
    ensures
        rhs_of(s, n).len() == 0,
    decreases s.len(),
{
    if s.len() > 0 {
        assert(s[s.len() - 1] == s.last());
        assert forall|m: int| 0 <= m < s.drop_last().len() implies (#[trigger] s.drop_last()[m]).lhs != n by {
            assert(s.drop_last()[m] == s[m]);
        }
        lemma_rhs_of_absent(s.drop_last(), n);
    }
}

} // verus!
