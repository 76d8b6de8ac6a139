use vstd::prelude::*;
use vstd::string::*;

use crate::cfg::{defines, on_rhs, ContextFreeGrammar, RuleV, Sym, Symbol};

verus! {

/// A terminal of the lowered grammar: an index into its terminals.
#[derive(Copy, Clone, Debug)]
pub struct LLTerminal(pub usize);

impl LLTerminal {
    pub fn id(&self) -> (r: usize)
        ensures
            r == self.0,
    {
        self.0
    }
}

/// A non-terminal of the lowered grammar: an index into its non-terminals.
#[derive(Copy, Clone, Debug)]
pub struct LLNonTerminal(pub usize);

impl LLNonTerminal {
    pub fn id(&self) -> (r: usize)
        ensures
            r == self.0,
    {
        self.0
    }
}

#[derive(Copy, Clone, Debug)]
pub enum LLSymbol {
    Terminal(LLTerminal),
    NonTerminal(LLNonTerminal),
}

/// A grammar whose terminals and non-terminals are dense integer ids. The
/// alternatives of non-terminal `n` are `rules[n]`, in the order of the
/// grammar's rules; their position is the tag stored in a derivation sequence.
pub struct LowLevelGrammar {
    pub rules: Vec<Vec<Vec<LLSymbol>>>,
    pub terminals: Vec<String>,
    pub nonterminals: Vec<String>,
    pub entrypoint: LLNonTerminal,
}

/// Every id in `alt` is in range.
pub open spec fn alt_ok(alt: Seq<LLSymbol>, n_terms: nat, n_nts: nat) -> bool {
    forall|k: int|
        0 <= k < alt.len() ==> match #[trigger] alt[k] {
            LLSymbol::Terminal(t) => t.0 < n_terms,
            LLSymbol::NonTerminal(n) => n.0 < n_nts,
        }
}

/// A lowered right-hand side stands for `rhs` under the two name tables.
pub open spec fn lowers(alt: Seq<LLSymbol>, rhs: Seq<Sym>, terms: Seq<String>, nts: Seq<String>) -> bool {
    alt.len() == rhs.len() && forall|k: int|
        0 <= k < alt.len() ==> match #[trigger] alt[k] {
            LLSymbol::Terminal(t) => t.0 < terms.len() && rhs[k] == Sym::T(terms[t.0 as int]@),
            LLSymbol::NonTerminal(n) => n.0 < nts.len() && rhs[k] == Sym::N(nts[n.0 as int]@),
        }
}

/// The right-hand sides of the rules of `s` whose left-hand side is `n`, in order.
pub open spec fn rhs_of(s: Seq<RuleV>, n: Seq<char>) -> Seq<Seq<Sym>>
    decreases s.len(),
{
    if s.len() == 0 {
        Seq::empty()
    } else if s.last().lhs == n {
        rhs_of(s.drop_last(), n).push(s.last().rhs)
    } else {
        rhs_of(s.drop_last(), n)
    }
}

/// Some entry of `names` is `n`.
pub open spec fn has_name(names: Seq<String>, n: Seq<char>) -> bool {
    exists|k: int| 0 <= k < names.len() && names[k]@ == n
}

/// Every left-hand side, every non-terminal and every terminal of `g` has
/// an id in `ll`.
pub open spec fn names_complete(ll: LowLevelGrammar, g: Seq<RuleV>) -> bool {
    &&& forall|i: int| 0 <= i < g.len() ==> has_name(ll.nonterminals@, (#[trigger] g[i]).lhs)
    &&& forall|i: int, k: int| 0 <= i < g.len() && 0 <= k < g[i].rhs.len() ==> match #[trigger] g[i].rhs[k] {
        Sym::N(x) => has_name(ll.nonterminals@, x),
        Sym::T(t) => has_name(ll.terminals@, t),
    }
}

/// `ll` is the lowering of grammar `g`: ids in range, name tables holding
/// the names of `g` in order of first appearance, the start symbol's id, and
/// for each non-terminal its rules in order as lowered alternatives.
pub open spec fn lowering_of(ll: LowLevelGrammar, g: crate::cfg::GrammarV) -> bool {
    &&& ll.wf()
    &&& distinct(ll.terminals@)
    &&& distinct(ll.nonterminals@)
    &&& ll.nonterminals@[ll.entrypoint.0 as int]@ == g.start
    &&& forall|n: int| 0 <= n < ll.nonterminals@.len() ==> (#[trigger] ll.rules@[n])@.len() == rhs_of(g.rules, ll.nonterminals@[n]@).len()
    &&& forall|n: int, a: int|
        0 <= n < ll.nonterminals@.len() && 0 <= a < ll.rules@[n]@.len() ==> lowers(
            (#[trigger] ll.rules@[n]@[a])@,
            rhs_of(g.rules, ll.nonterminals@[n]@)[a],
            ll.terminals@,
            ll.nonterminals@,
        )
    &&& names_complete(ll, g.rules)
    &&& names_of(ll.nonterminals@) == nt_order(g.rules, g.rules.len() as int)
    &&& names_of(ll.terminals@) == t_order(g.rules, g.rules.len() as int)
}

/// `ns` with `x` added at the end unless it is there already.
pub open spec fn add_name(ns: Seq<Seq<char>>, x: Seq<char>) -> Seq<Seq<char>> {
    if ns.contains(x) { ns } else { ns.push(x) }
}

/// The names of a table.
pub open spec fn names_of(v: Seq<String>) -> Seq<Seq<char>> {
    v.map_values(|s: String| s@)
}

/// `ns` extended by the non-terminals among the first `k` symbols of `rhs`.
pub open spec fn nt_syms(ns: Seq<Seq<char>>, rhs: Seq<Sym>, k: int) -> Seq<Seq<char>>
    decreases k,
{
    if k <= 0 {
        ns
    } else {
        let p = nt_syms(ns, rhs, k - 1);
        match rhs[k - 1] {
            Sym::N(x) => add_name(p, x),
            Sym::T(_) => p,
        }
    }
}

/// `ns` extended by the terminals among the first `k` symbols of `rhs`.
pub open spec fn t_syms(ns: Seq<Seq<char>>, rhs: Seq<Sym>, k: int) -> Seq<Seq<char>>
    decreases k,
{
    if k <= 0 {
        ns
    } else {
        let p = t_syms(ns, rhs, k - 1);
        match rhs[k - 1] {
            Sym::T(x) => add_name(p, x),
            Sym::N(_) => p,
        }
    }
}

/// The non-terminals of the first `i` rules in order of first appearance:
/// each rule's left-hand side, then the non-terminals of its right-hand side.
pub open spec fn nt_order(g: Seq<RuleV>, i: int) -> Seq<Seq<char>>
    decreases i,
{
    if i <= 0 {
        Seq::empty()
    } else {
        nt_syms(add_name(nt_order(g, i - 1), g[i - 1].lhs), g[i - 1].rhs, g[i - 1].rhs.len() as int)
    }
}

/// The terminals of the first `i` rules in order of first appearance.
pub open spec fn t_order(g: Seq<RuleV>, i: int) -> Seq<Seq<char>>
    decreases i,
{
    if i <= 0 {
        Seq::empty()
    } else {
        t_syms(t_order(g, i - 1), g[i - 1].rhs, g[i - 1].rhs.len() as int)
    }
}

/// Terminal `t` occurs on some right-hand side of `g`.
pub open spec fn occurs_terminal(g: Seq<RuleV>, t: Seq<char>) -> bool {
    exists|i: int, k: int| 0 <= i < g.len() && 0 <= k < g[i].rhs.len() && #[trigger] g[i].rhs[k] == Sym::T(t)
}

/// Every rule's right-hand side is among the right-hand sides of its left-hand side.
proof fn lemma_rhs_of_has(s: Seq<RuleV>, i: int)
    requires
        0 <= i < s.len(),
    ensures
        exists|a: int| 0 <= a < rhs_of(s, s[i].lhs).len() && rhs_of(s, s[i].lhs)[a] == s[i].rhs,
    decreases s.len(),
{
    let n = s[i].lhs;
    if i == s.len() - 1 {
        assert(s.last() == s[i]);
        let a = rhs_of(s.drop_last(), n).len() as int;
        assert(rhs_of(s, n)[a] == s[i].rhs);
    } else {
        assert(s.drop_last()[i] == s[i]);
        lemma_rhs_of_has(s.drop_last(), i);
        let a = choose|a: int| 0 <= a < rhs_of(s.drop_last(), n).len() && rhs_of(s.drop_last(), n)[a] == s[i].rhs;
        if s.last().lhs == n {
            assert(rhs_of(s, n)[a] == rhs_of(s.drop_last(), n)[a]);
        } else {
            assert(rhs_of(s, n) == rhs_of(s.drop_last(), n));
        }
        assert(rhs_of(s, n)[a] == s[i].rhs);
    }
}

/// No two entries of `names` are equal.
pub open spec fn distinct(names: Seq<String>) -> bool {
    forall|a: int, b: int| 0 <= a < b < names.len() ==> names[a]@ != names[b]@
}

impl LowLevelGrammar {
    /// Ids are in range and each non-terminal has a list of alternatives.
    pub open spec fn wf(&self) -> bool {
        &&& self.rules@.len() == self.nonterminals@.len()
        &&& self.entrypoint.0 < self.nonterminals@.len()
        &&& forall|n: int, a: int|
            0 <= n < self.rules@.len() && 0 <= a < self.rules@[n]@.len() ==> alt_ok(
                (#[trigger] self.rules@[n]@[a])@,
                self.terminals@.len(),
                self.nonterminals@.len(),
            )
    }

    /// Each non-terminal has at least one alternative, and no alternative is empty.
    pub open spec fn complete(&self) -> bool {
        &&& self.wf()
        &&& forall|n: int| 0 <= n < self.rules@.len() ==> (#[trigger] self.rules@[n])@.len() > 0
        &&& forall|n: int, a: int|
            0 <= n < self.rules@.len() && 0 <= a < self.rules@[n]@.len() ==> (
            #[trigger] self.rules@[n]@[a])@.len() > 0
    }

    /// Assign dense ids to the non-terminals and terminals of `grammar` in
    /// order of first appearance, and group its rules by left-hand side.
    pub fn from_high_level_grammar(grammar: &ContextFreeGrammar) -> (r: LowLevelGrammar)
        requires
            defines(grammar@.rules, grammar@.start),
        ensures
            r.wf(),
            distinct(r.terminals@),
            distinct(r.nonterminals@),
            r.nonterminals@[r.entrypoint.0 as int]@ == grammar@.start,
            forall|n: int|
                0 <= n < r.nonterminals@.len() ==> (#[trigger] r.rules@[n])@.len() == rhs_of(
                    grammar@.rules,
                    r.nonterminals@[n]@,
                ).len(),
            forall|n: int, a: int|
                0 <= n < r.nonterminals@.len() && 0 <= a < r.rules@[n]@.len() ==> lowers(
                    (#[trigger] r.rules@[n]@[a])@,
                    rhs_of(grammar@.rules, r.nonterminals@[n]@)[a],
                    r.terminals@,
                    r.nonterminals@,
                ),
            forall|n: int|
                0 <= n < r.nonterminals@.len() ==> defines(grammar@.rules, (#[trigger] r.nonterminals@[n])@)
                    || on_rhs(grammar@.rules, r.nonterminals@[n]@),
            names_complete(r, grammar@.rules),
            lowering_of(r, grammar@),
            forall|x: int| 0 <= x < r.terminals@.len() ==> occurs_terminal(grammar@.rules, (#[trigger] r.terminals@[x])@),
    {
        let src = grammar.rules();
        let ghost g = grammar@.rules;
        let mut rules: Vec<Vec<Vec<LLSymbol>>> = Vec::new();
        let mut nonterminals: Vec<String> = Vec::new();
        let mut terminals: Vec<String> = Vec::new();
        let mut i: usize = 0;
        assert(g.subrange(0, 0) =~= Seq::<RuleV>::empty());
        while i < src.len()
            invariant
                i <= src@.len(),
                g == crate::cfg::rules_view(src@),
                rules@.len() == nonterminals@.len(),
                distinct(terminals@),
                distinct(nonterminals@),
                forall|n: int|
                    0 <= n < nonterminals@.len() ==> (#[trigger] rules@[n])@.len() == rhs_of(
                        g.subrange(0, i as int),
                        nonterminals@[n]@,
                    ).len(),
                forall|n: int, a: int|
                    0 <= n < nonterminals@.len() && 0 <= a < rules@[n]@.len() ==> lowers(
                        (#[trigger] rules@[n]@[a])@,
                        rhs_of(g.subrange(0, i as int), nonterminals@[n]@)[a],
                        terminals@,
                        nonterminals@,
                    ),
                forall|m: int| 0 <= m < i ==> has_name(nonterminals@, (#[trigger] g[m]).lhs),
                forall|n: int|
                    0 <= n < nonterminals@.len() ==> defines(g, (#[trigger] nonterminals@[n])@) || on_rhs(g, nonterminals@[n]@),
                forall|x: int| 0 <= x < terminals@.len() ==> occurs_terminal(g, (#[trigger] terminals@[x])@),
                names_of(nonterminals@) == nt_order(g, i as int),
                names_of(terminals@) == t_order(g, i as int),
            decreases src@.len() - i,
        {
            let ghost pre = g.subrange(0, i as int);
            let ghost cur = g.subrange(0, i as int + 1);
            assert(cur.drop_last() =~= pre);
            assert(cur.last() == g[i as int]);
            let rule = &src[i];
            let lhs_name = String::from_str(rule.lhs().id());
            assert(defines(g, lhs_name@)) by {
                assert(g[i as int].lhs == lhs_name@);
            }
            assert forall|m: int| 0 <= m < pre.len() implies has_name(nonterminals@, (#[trigger] pre[m]).lhs) by {
                assert(pre[m] == g[m]);
            }
            let lhs_id = intern(&mut nonterminals, &mut rules, &lhs_name, Ghost(g), Ghost(pre));
            let rhs = rule.rhs();
            assert(g[i as int].lhs == lhs_name@);
            let mut alt: Vec<LLSymbol> = Vec::new();
            let mut k: usize = 0;
            while k < rhs.len()
                invariant
                    k <= rhs@.len(),
                    i < src@.len(),
                    g == crate::cfg::rules_view(src@),
                    pre == g.subrange(0, i as int),
                    crate::cfg::syms(rhs@) == g[i as int].rhs,
                    rules@.len() == nonterminals@.len(),
                    distinct(terminals@),
                    distinct(nonterminals@),
                    lhs_id < nonterminals@.len(),
                    nonterminals@[lhs_id as int]@ == g[i as int].lhs,
                    alt@.len() == k,
                    lowers(alt@, g[i as int].rhs.subrange(0, k as int), terminals@, nonterminals@),
                    forall|n: int|
                        0 <= n < nonterminals@.len() ==> (#[trigger] rules@[n])@.len() == rhs_of(pre, nonterminals@[n]@).len(),
                    forall|n: int, a: int|
                        0 <= n < nonterminals@.len() && 0 <= a < rules@[n]@.len() ==> lowers(
                            (#[trigger] rules@[n]@[a])@,
                            rhs_of(pre, nonterminals@[n]@)[a],
                            terminals@,
                            nonterminals@,
                        ),
                    forall|m: int| 0 <= m < i ==> has_name(nonterminals@, (#[trigger] g[m]).lhs),
                    forall|n: int|
                        0 <= n < nonterminals@.len() ==> defines(g, (#[trigger] nonterminals@[n])@) || on_rhs(g, nonterminals@[n]@),
                    forall|x: int| 0 <= x < terminals@.len() ==> occurs_terminal(g, (#[trigger] terminals@[x])@),
                    names_of(nonterminals@) == nt_syms(add_name(nt_order(g, i as int), g[i as int].lhs), g[i as int].rhs, k as int),
                    names_of(terminals@) == t_syms(t_order(g, i as int), g[i as int].rhs, k as int),
                decreases rhs@.len() - k,
            {
                let ghost tl = terminals@;
                let ghost nl = nonterminals@;
                assert(g[i as int].rhs[k as int] == rhs@[k as int]@);
                match &rhs[k] {
                    Symbol::Terminal(t) => {
                        let name = String::from_str(t.content());
                        let ghost tl0 = terminals@;
                        let id = intern_terminal(&mut terminals, &name);
                        proof {
                            assert(g[i as int].rhs[k as int] == Sym::T(name@));
                            assert forall|x: int| 0 <= x < terminals@.len() implies occurs_terminal(g, (#[trigger] terminals@[x])@) by {
                                if x < tl0.len() {
                                    assert(terminals@[x] == tl0[x]);
                                } else {
                                    assert(terminals@[x]@ == name@);
                                }
                            }
                        }
                        alt.push(LLSymbol::Terminal(LLTerminal(id)));
                    },
                    Symbol::NonTerminal(n) => {
                        let name = String::from_str(n.id());
                        assert(on_rhs(g, name@)) by {
                            assert(g[i as int].rhs[k as int] == Sym::N(name@));
                        }
                        assert forall|m: int| 0 <= m < pre.len() implies has_name(nonterminals@, (#[trigger] pre[m]).lhs) by {
                            assert(pre[m] == g[m]);
                        }
                        let id = intern(&mut nonterminals, &mut rules, &name, Ghost(g), Ghost(pre));
                        alt.push(LLSymbol::NonTerminal(LLNonTerminal(id)));
                    },
                }
                proof {
                    lemma_lowers_grow(alt@.drop_last(), g[i as int].rhs.subrange(0, k as int), tl, nl, terminals@, nonterminals@);
                    assert forall|n: int, a: int|
                        0 <= n < nonterminals@.len() && 0 <= a < rules@[n]@.len() implies lowers(
                            (#[trigger] rules@[n]@[a])@,
                            rhs_of(pre, nonterminals@[n]@)[a],
                            terminals@,
                            nonterminals@,
                        ) by {
                        if n < nl.len() {
                            lemma_lowers_grow(rules@[n]@[a]@, rhs_of(pre, nonterminals@[n]@)[a], tl, nl, terminals@, nonterminals@);
                        }
                    }
                    assert(lowers(alt@, g[i as int].rhs.subrange(0, k as int + 1), terminals@, nonterminals@));
                }
                k += 1;
            }
            assert(g[i as int].rhs.subrange(0, k as int) =~= g[i as int].rhs);
            let ghost before_rules = rules@;
            let mut group = rules.remove(lhs_id);
            group.push(alt);
            rules.insert(lhs_id, group);
            proof {
                assert forall|n: int| 0 <= n < nonterminals@.len() implies (#[trigger] rules@[n])@.len() == rhs_of(
                    cur,
                    nonterminals@[n]@,
                ).len() by {
                    if n != lhs_id {
                        assert(rules@[n] == before_rules[n]);
                        assert(nonterminals@[n]@ != nonterminals@[lhs_id as int]@);
                    }
                }
                assert forall|n: int, a: int|
                    0 <= n < nonterminals@.len() && 0 <= a < rules@[n]@.len() implies lowers(
                        (#[trigger] rules@[n]@[a])@,
                        rhs_of(cur, nonterminals@[n]@)[a],
                        terminals@,
                        nonterminals@,
                    ) by {
                    if n != lhs_id {
                        assert(rules@[n] == before_rules[n]);
                        assert(nonterminals@[n]@ != nonterminals@[lhs_id as int]@);
                    } else if a < before_rules[n]@.len() {
                        assert(rules@[n]@[a] == before_rules[n]@[a]);
                    }
                }
                assert forall|m: int| 0 <= m < i + 1 implies has_name(nonterminals@, (#[trigger] g[m]).lhs) by {
                    if m == i {
                        assert(g[m].lhs == nonterminals@[lhs_id as int]@);
                    }
                }
            }
            i += 1;
        }
        assert(g.subrange(0, g.len() as int) =~= g);
        let start = String::from_str(grammar.entrypoint().id());
        let ghost w = choose|m: int| 0 <= m < g.len() && (#[trigger] g[m]).lhs == start@;
        assert(has_name(nonterminals@, g[w].lhs));
        let ep = find_name(&nonterminals, &start);
        let r = LowLevelGrammar { rules, terminals, nonterminals, entrypoint: LLNonTerminal(ep) };
        proof {
            assert forall|i: int, k: int| 0 <= i < g.len() && 0 <= k < g[i].rhs.len() implies match #[trigger] g[i].rhs[k] {
                Sym::N(x) => has_name(r.nonterminals@, x),
                Sym::T(t) => has_name(r.terminals@, t),
            } by {
                assert(has_name(r.nonterminals@, g[i].lhs));
                let n = choose|n: int| 0 <= n < r.nonterminals@.len() && r.nonterminals@[n]@ == g[i].lhs;
                lemma_rhs_of_has(g, i);
                let a = choose|a: int| 0 <= a < rhs_of(g, g[i].lhs).len() && rhs_of(g, g[i].lhs)[a] == g[i].rhs;
                assert(r.rules@[n]@.len() == rhs_of(g, r.nonterminals@[n]@).len());
                let alt = r.rules@[n]@[a]@;
                assert(lowers(alt, rhs_of(g, r.nonterminals@[n]@)[a], r.terminals@, r.nonterminals@));
                match alt[k] {
                    LLSymbol::Terminal(t) => {
                        assert(r.terminals@[t.0 as int]@ == g[i].rhs[k]->T_0);
                    },
                    LLSymbol::NonTerminal(m) => {
                        assert(r.nonterminals@[m.0 as int]@ == g[i].rhs[k]->N_0);
                    },
                }
            }
            assert forall|n: int, a: int|
                0 <= n < r.rules@.len() && 0 <= a < r.rules@[n]@.len() implies alt_ok(
                    (#[trigger] r.rules@[n]@[a])@,
                    r.terminals@.len(),
                    r.nonterminals@.len(),
                ) by {
                let alt = r.rules@[n]@[a]@;
                assert(lowers(alt, rhs_of(g, r.nonterminals@[n]@)[a], r.terminals@, r.nonterminals@));
                assert forall|k: int| 0 <= k < alt.len() implies match #[trigger] alt[k] {
                    LLSymbol::Terminal(t) => t.0 < r.terminals@.len(),
                    LLSymbol::NonTerminal(m) => m.0 < r.nonterminals@.len(),
                } by {
                    match alt[k] {
                        LLSymbol::Terminal(t) => {},
                        LLSymbol::NonTerminal(m) => {},
                    }
                }
            }
        }
        r
    }

    pub fn rules(&self) -> (r: &[Vec<Vec<LLSymbol>>])
        ensures
            r@ == self.rules@,
    {
        self.rules.as_slice()
    }

    pub fn terminals(&self) -> (r: &[String])
        ensures
            r@ == self.terminals@,
    {
        self.terminals.as_slice()
    }

    pub fn nonterminals(&self) -> (r: &[String])
        ensures
            r@ == self.nonterminals@,
    {
        self.nonterminals.as_slice()
    }

    pub fn entrypoint(&self) -> (r: &LLNonTerminal)
        ensures
            *r == self.entrypoint,
    {
        &self.entrypoint
    }
}

proof fn lemma_lowers_grow(
    alt: Seq<LLSymbol>,
    rhs: Seq<Sym>,
    t1: Seq<String>,
    n1: Seq<String>,
    t2: Seq<String>,
    n2: Seq<String>,
)
    requires
        lowers(alt, rhs, t1, n1),
        t1.len() <= t2.len(),
        n1.len() <= n2.len(),
        forall|k: int| 0 <= k < t1.len() ==> t2[k] == t1[k],
        forall|k: int| 0 <= k < n1.len() ==> n2[k] == n1[k],
    ensures
        lowers(alt, rhs, t2, n2),
{
    assert forall|k: int| 0 <= k < alt.len() implies match #[trigger] alt[k] {
        LLSymbol::Terminal(t) => t.0 < t2.len() && rhs[k] == Sym::T(t2[t.0 as int]@),
        LLSymbol::NonTerminal(n) => n.0 < n2.len() && rhs[k] == Sym::N(n2[n.0 as int]@),
    } by {
        match alt[k] {
            LLSymbol::Terminal(t) => {},
            LLSymbol::NonTerminal(n) => {},
        }
    }
}

fn find_name(names: &Vec<String>, name: &String) -> (r: usize)
    requires
        has_name(names@, name@),
    ensures
        r < names@.len(),
        names@[r as int]@ == name@,
{
    let mut i: usize = 0;
    while i < names.len()
        invariant
            i <= names@.len(),
            forall|m: int| 0 <= m < i ==> names@[m]@ != name@,
            has_name(names@, name@),
        decreases names@.len() - i,
    {
        if names[i] == *name {
            return i;
        }
        i += 1;
    }
    i
}

/// The id of terminal `name`, added at the end if it is new.
fn intern_terminal(names: &mut Vec<String>, name: &String) -> (r: usize)
    requires
        distinct(old(names)@),
    ensures
        distinct(final(names)@),
        r < final(names)@.len(),
        final(names)@[r as int]@ == name@,
        final(names)@.len() >= old(names)@.len(),
        forall|k: int| 0 <= k < old(names)@.len() ==> final(names)@[k] == old(names)@[k],
        forall|k: int| old(names)@.len() <= k < final(names)@.len() ==> (#[trigger] final(names)@[k])@ == name@,
        names_of(final(names)@) == add_name(names_of(old(names)@), name@),
{
    let mut i: usize = 0;
    while i < names.len() && !(names[i] == *name)
        invariant
            i <= names@.len(),
            forall|m: int| 0 <= m < i ==> names@[m]@ != name@,
        decreases names@.len() - i,
    {
        i += 1;
    }
    proof {
        if i < names@.len() {
            assert(names_of(names@)[i as int] == name@);
        } else {
            assert(!names_of(names@).contains(name@)) by {
                if names_of(names@).contains(name@) {
                    let j = choose|j: int| 0 <= j < names_of(names@).len() && names_of(names@)[j] == name@;
                    assert(names@[j]@ == name@);
                }
            }
        }
    }
    let ghost before = names@;
    if i == names.len() {
        names.push(name.clone());
        assert(names_of(names@) =~= names_of(before).push(name@));
    }
    i
}

/// The id of non-terminal `name`, added with no alternatives if it is new.
fn intern(
    names: &mut Vec<String>,
    rules: &mut Vec<Vec<Vec<LLSymbol>>>,
    name: &String,
    Ghost(g): Ghost<Seq<RuleV>>,
    Ghost(pre): Ghost<Seq<RuleV>>,
) -> (r: usize)
    requires
        distinct(old(names)@),
        old(rules)@.len() == old(names)@.len(),
        defines(g, name@) || on_rhs(g, name@),
        forall|m: int|
            0 <= m < pre.len() ==> has_name(old(names)@, (#[trigger] pre[m]).lhs),
    ensures
        distinct(final(names)@),
        final(rules)@.len() == final(names)@.len(),
        r < final(names)@.len(),
        final(names)@[r as int]@ == name@,
        final(names)@.len() >= old(names)@.len(),
        forall|k: int| 0 <= k < old(names)@.len() ==> final(names)@[k] == old(names)@[k],
        forall|k: int| 0 <= k < old(rules)@.len() ==> final(rules)@[k] == old(rules)@[k],
        forall|k: int| old(rules)@.len() <= k < final(rules)@.len() ==> (#[trigger] final(rules)@[k])@.len() == 0
            && rhs_of(pre, final(names)@[k]@).len() == 0,
        forall|k: int| old(names)@.len() <= k < final(names)@.len() ==> final(names)@[k]@ == name@,
        names_of(final(names)@) == add_name(names_of(old(names)@), name@),
{
    let mut i: usize = 0;
    while i < names.len() && !(names[i] == *name)
        invariant
            i <= names@.len(),
            forall|m: int| 0 <= m < i ==> names@[m]@ != name@,
        decreases names@.len() - i,
    {
        i += 1;
    }
    if i < names.len() {
        assert(names_of(names@)[i as int] == name@);
        return i;
    }
    assert(!names_of(names@).contains(name@)) by {
        if names_of(names@).contains(name@) {
            let j = choose|j: int| 0 <= j < names_of(names@).len() && names_of(names@)[j] == name@;
            assert(names@[j]@ == name@);
        }
    }
    let ghost before = names@;
    proof {
        assert forall|m: int| 0 <= m < pre.len() implies (#[trigger] pre[m]).lhs != name@ by {
            assert(has_name(names@, pre[m].lhs));
            let n = choose|n: int| 0 <= n < names@.len() && names@[n]@ == pre[m].lhs;
        }
        lemma_rhs_of_absent(pre, name@);
    }
    names.push(name.clone());
    rules.push(Vec::new());
    assert(names_of(names@) =~= names_of(before).push(name@));
    i
}

proof fn lemma_rhs_of_absent(s: Seq<RuleV>, n: Seq<char>)
    requires
        forall|m: int| 0 <= m < s.len() ==> (#[trigger] s[m]).lhs != n,
    ensures
        rhs_of(s, n).len() == 0,
    decreases s.len(),
{
    if s.len() > 0 {
        assert(s[s.len() - 1] == s.last());
        assert forall|m: int| 0 <= m < s.drop_last().len() implies (#[trigger] s.drop_last()[m]).lhs != n by {
            assert(s.drop_last()[m] == s[m]);
        }
        lemma_rhs_of_absent(s.drop_last(), n);
    }
}

} // verus!
