use vstd::prelude::*;

use crate::builder::{first_missing, GrammarBuilder, DEFAULT_ENTRYPOINT};
use crate::cfg::{all_nonempty, defines, has_cycle, normal_form, refs_defined, ContextFreeGrammar, RuleV};
use crate::error::GrammarError;
use crate::parser::{parse_peacock, peacock_ok, peacock_rules, JsonValue};
use crate::text::join3;

verus! {

/// The keys of an object, in order; nothing for any other value.
pub open spec fn keys_of(v: JsonValue) -> Seq<Seq<char>> {
    match v {
        JsonValue::Object(es) => es@.map_values(|e: (String, JsonValue)| e.0@),
        _ => Seq::empty(),
    }
}

/// Two different parts have a key in common.
pub open spec fn conflict(parts: Seq<JsonValue>) -> bool {
    exists|i: int, j: int, k: Seq<char>|
        0 <= i < j < parts.len() && #[trigger] keys_of(parts[i]).contains(k) && #[trigger] keys_of(parts[j]).contains(k)
}

/// The keys of the first `n` parts.
pub open spec fn keys_before(parts: Seq<JsonValue>, n: int) -> Seq<Seq<char>>
    decreases n,
{
    if n <= 0 {
        Seq::empty()
    } else {
        keys_before(parts, n - 1) + keys_of(parts[n - 1])
    }
}

proof fn lemma_keys_before(parts: Seq<JsonValue>, n: int, k: Seq<char>)
    requires
        0 <= n <= parts.len(),
    ensures
        keys_before(parts, n).contains(k) <==> exists|i: int| 0 <= i < n && #[trigger] keys_of(parts[i]).contains(k),
    decreases n,
{
    if n > 0 {
        lemma_keys_before(parts, n - 1, k);
        let a = keys_before(parts, n - 1);
        let b = keys_of(parts[n - 1]);
        assert(keys_before(parts, n) == a + b);
        if (a + b).contains(k) {
            let m = choose|m: int| 0 <= m < (a + b).len() && (a + b)[m] == k;
            if m >= a.len() {
                assert(b[m - a.len()] == k);
                assert(keys_of(parts[n - 1]).contains(k));
            } else {
                assert(a[m] == k);
                assert(a.contains(k));
                let i = choose|i: int| 0 <= i < n - 1 && #[trigger] keys_of(parts[i]).contains(k);
                assert(keys_of(parts[i]).contains(k));
            }
        }
        if exists|i: int| 0 <= i < n && #[trigger] keys_of(parts[i]).contains(k) {
            let i = choose|i: int| 0 <= i < n && #[trigger] keys_of(parts[i]).contains(k);
            if i == n - 1 {
                let m = choose|m: int| 0 <= m < b.len() && b[m] == k;
                assert((a + b)[a.len() + m] == k);
            } else {
                assert(a.contains(k));
                let m = choose|m: int| 0 <= m < a.len() && a[m] == k;
                assert((a + b)[m] == k);
            }
        }
    }
}

/// The rules of the first `n` parts, part by part in order.
pub open spec fn merged_rules(parts: Seq<JsonValue>, n: int) -> Seq<RuleV>
    decreases n,
{
    if n <= 0 {
        Seq::empty()
    } else {
        merged_rules(parts, n - 1) + peacock_rules(parts[n - 1])
    }
}

/// A grammar merged from several parts in peacock format and normalized.
pub struct Automaton {
    pub grammar: ContextFreeGrammar,
}

impl Automaton {
    /// Merge the grammars `parts`, none of which may define a non-terminal
    /// that another one defines, and normalize the result.
    pub fn from_grammars(parts: &Vec<JsonValue>) -> (r: Result<Automaton, GrammarError>)
        ensures
            (r matches Err(GrammarError::MergeConflict(_))) ==> conflict(parts@),
            (forall|i: int| 0 <= i < parts@.len() ==> peacock_ok(#[trigger] parts@[i])) && !conflict(parts@) ==> !(r matches Err(
                GrammarError::MergeConflict(_),
            )) && !(r matches Err(GrammarError::InvalidFormat(_))),
            r is Ok ==> normal_form(r->Ok_0.grammar@),
            !conflict(parts@) && (exists|i: int| 0 <= i < parts@.len() && !peacock_ok(#[trigger] parts@[i]))
                ==> r matches Err(GrammarError::InvalidFormat(_)),
            (forall|i: int| 0 <= i < parts@.len() ==> peacock_ok(#[trigger] parts@[i])) && !conflict(parts@) ==> {
                let m = merged_rules(parts@, parts@.len() as int);
                &&& (r matches Err(GrammarError::MissingEntrypoint(_))) <==> !defines(m, DEFAULT_ENTRYPOINT@)
                &&& (r matches Err(GrammarError::MissingNonTerminal(n))) <==> defines(m, DEFAULT_ENTRYPOINT@) && !refs_defined(m)
                &&& (r matches Err(GrammarError::MissingNonTerminal(n)) ==> first_missing(m, n@))
                &&& (defines(m, DEFAULT_ENTRYPOINT@) && refs_defined(m) && has_cycle(m) ==> r matches Err(GrammarError::ContainsCycles))
            },
    {
        let mut seen: Vec<String> = Vec::new();
        let mut i: usize = 0;
        while i < parts.len()
            invariant
                i <= parts@.len(),
                seen@.map_values(|s: String| s@) == keys_before(parts@, i as int),
                !conflict(parts@.subrange(0, i as int)),
            decreases parts@.len() - i,
        {
            if let JsonValue::Object(es) = &parts[i] {
                let mut k: usize = 0;
                while k < es.len()
                    invariant
                        k <= es@.len(),
                        i < parts@.len(),
                        parts@[i as int] == JsonValue::Object(*es),
                        seen@.map_values(|s: String| s@) == keys_before(parts@, i as int),
                        forall|m: int| 0 <= m < k ==> !keys_before(parts@, i as int).contains(#[trigger] es@[m].0@),
                    decreases es@.len() - k,
                {
                    let key = &es[k].0;
                    if crate::cfg::string_in(&seen, key) {
                        proof {
                            let x = choose|x: int| 0 <= x < seen@.len() && (#[trigger] seen@[x])@ == key@;
                            let ks = keys_before(parts@, i as int);
                            assert(ks[x] == seen@.map_values(|s: String| s@)[x]);
                            assert(ks.contains(key@));
                            lemma_keys_before(parts@, i as int, key@);
                            let a = choose|a: int| 0 <= a < i && #[trigger] keys_of(parts@[a]).contains(key@);
                            assert(keys_of(parts@[i as int])[k as int] == key@);
                            assert(keys_of(parts@[i as int]).contains(key@));
                        }
                        return Err(GrammarError::MergeConflict(join3("", key.as_str(), "")));
                    }
                    assert(!keys_before(parts@, i as int).contains(key@)) by {
                        if keys_before(parts@, i as int).contains(key@) {
                            let x = choose|x: int| 0 <= x < keys_before(parts@, i as int).len() && keys_before(parts@, i as int)[x] == key@;
                            assert(seen@[x]@ == key@);
                        }
                    }
                    k += 1;
                }
                let ghost before = seen@;
                let mut k: usize = 0;
                while k < es.len()
                    invariant
                        k <= es@.len(),
                        i < parts@.len(),
                        parts@[i as int] == JsonValue::Object(*es),
                        seen@.map_values(|s: String| s@) == keys_before(parts@, i as int) + keys_of(parts@[i as int]).subrange(0, k as int),
                    decreases es@.len() - k,
                {
                    let ghost prev = seen@;
                    seen.push(es[k].0.clone());
                    assert(seen@.map_values(|s: String| s@) =~= prev.map_values(|s: String| s@).push(es@[k as int].0@));
                    k += 1;
                    assert(keys_before(parts@, i as int) + keys_of(parts@[i as int]).subrange(0, k as int) =~= (keys_before(parts@, i as int) + keys_of(parts@[i as int]).subrange(0, k as int - 1)).push(es@[k as int - 1].0@));
                }
                assert(keys_of(parts@[i as int]).subrange(0, k as int) =~= keys_of(parts@[i as int]));
                proof {
                    let grown = parts@.subrange(0, i as int + 1);
                    if conflict(grown) {
                        let (a, b, key) = choose|a: int, b: int, key: Seq<char>|
                            0 <= a < b < grown.len() && #[trigger] keys_of(grown[a]).contains(key) && #[trigger] keys_of(grown[b]).contains(key);
                        if b < i {
                            assert(conflict(parts@.subrange(0, i as int))) by {
                                let shorter = parts@.subrange(0, i as int);
                                assert(shorter[a] == grown[a] && shorter[b] == grown[b]);
                                assert(keys_of(shorter[b]).contains(key));
                            }
                        } else {
                            lemma_keys_before(parts@, i as int, key);
                            assert(keys_of(parts@[a]).contains(key));
                            let m = choose|m: int| 0 <= m < keys_of(parts@[i as int]).len() && keys_of(parts@[i as int])[m] == key;
                            assert(es@[m].0@ == key);
                        }
                    }
                }
            } else {
                proof {
                    let grown = parts@.subrange(0, i as int + 1);
                    assert(keys_of(parts@[i as int]) =~= Seq::<Seq<char>>::empty());
                    assert(keys_before(parts@, i as int + 1) =~= keys_before(parts@, i as int));
                    if conflict(grown) {
                        let (a, b, key) = choose|a: int, b: int, key: Seq<char>|
                            0 <= a < b < grown.len() && #[trigger] keys_of(grown[a]).contains(key) && #[trigger] keys_of(grown[b]).contains(key);
                        let shorter = parts@.subrange(0, i as int);
                        assert(shorter[a] == grown[a] && shorter[b] == grown[b]);
                        assert(keys_of(shorter[b]).contains(key));
                    }
                }
            }
            i += 1;
        }
        assert(parts@.subrange(0, parts@.len() as int) =~= parts@);
        let mut builder = GrammarBuilder::new();
        assert(builder@.rules =~= merged_rules(parts@, 0));
        let mut i: usize = 0;
        while i < parts.len()
            invariant
                i <= parts@.len(),
                all_nonempty(builder@.rules),
                builder@.optimize,
                builder@.entrypoint == DEFAULT_ENTRYPOINT@,
                builder@.rules == merged_rules(parts@, i as int),
                !conflict(parts@),
                forall|j: int| 0 <= j < i ==> peacock_ok(#[trigger] parts@[j]),
            decreases parts@.len() - i,
        {
            assert((forall|j: int| 0 <= j < parts@.len() ==> peacock_ok(#[trigger] parts@[j])) ==> peacock_ok(parts@[i as int]));
            match builder.peacock_grammar("", &parts[i]) {
                Ok(b) => builder = b,
                Err(e) => return Err(GrammarError::InvalidFormat(e.msg)),
            }
            i += 1;
        }
        match builder.build() {
            Ok(grammar) => Ok(Automaton { grammar }),
            Err(e) => Err(e),
        }
    }
}

} // verus!
