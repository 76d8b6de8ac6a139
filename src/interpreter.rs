use vstd::prelude::*;

use crate::cfg::{defines, ContextFreeGrammar};
use crate::generator::{
    agree, lemma_walk_alt_concat, lemma_walk_alt_suffix, lemma_walk_bounds, prepend, seeded, tbytes, walk, walk_alt,
};
use crate::lowlevel::{alt_ok, LLNonTerminal, LLSymbol, LowLevelGrammar};

verus! {

/// The most symbols one call of `interpret` expands or writes.
pub const MAX_STEPS: usize = 16777216;

/// The symbols still to expand, in order: the top of `stack` first.
pub open spec fn pending(stack: Seq<LLSymbol>) -> Seq<LLSymbol>
    decreases stack.len(),
{
    if stack.len() == 0 {
        stack
    } else {
        seq![stack.last()] + pending(stack.drop_last())
    }
}

/// The xorshift step of the interpreter's random number source.
pub open spec fn xorshift_word(x: usize) -> usize {
    let a = x ^ ((x << 13usize) as usize);
    let b = a ^ (a >> 7usize);
    b ^ ((b << 17usize) as usize)
}

/// `stack` with the symbols of `alt` pushed from last to first, so that the
/// first symbol of `alt` ends on top.
pub open spec fn push_reversed(stack: Seq<LLSymbol>, alt: Seq<LLSymbol>) -> Seq<LLSymbol>
    decreases alt.len(),
{
    if alt.len() == 0 {
        stack
    } else {
        push_reversed(stack.push(alt.last()), alt.drop_last())
    }
}

/// What the interpreter does from `stack` and random state `seed` in at most
/// `fuel` steps, `gen` bytes already written: the bytes it writes, its final
/// random state, and whether it expanded everything. A terminal is written;
/// a non-terminal is replaced by its alternative number `xorshift % count`.
pub open spec fn interp_run(g: LowLevelGrammar, stack: Seq<LLSymbol>, seed: usize, fuel: nat, gen: nat) -> (Seq<u8>, usize, bool)
    decreases fuel,
{
    if fuel == 0 || stack.len() == 0 {
        (Seq::empty(), seed, stack.len() == 0)
    } else {
        match stack.last() {
            LLSymbol::Terminal(t) => if gen + tbytes(g, t.0 as int).len() > usize::MAX {
                (Seq::empty(), seed, false)
            } else {
                let r = interp_run(g, stack.drop_last(), seed, (fuel - 1) as nat, gen + tbytes(g, t.0 as int).len());
                (tbytes(g, t.0 as int) + r.0, r.1, r.2)
            },
            LLSymbol::NonTerminal(n) => {
                let x = xorshift_word(seed);
                let alts = g.rules@[n.0 as int]@;
                interp_run(
                    g,
                    push_reversed(stack.drop_last(), alts[(x as int) % (alts.len() as int)]@),
                    x,
                    (fuel - 1) as nat,
                    gen,
                )
            },
        }
    }
}

/// `b` in front of the bytes of a run.
pub open spec fn after(b: Seq<u8>, r: (Seq<u8>, usize, bool)) -> (Seq<u8>, usize, bool) {
    (b + r.0, r.1, r.2)
}

/// The GrammarInterpreter interprets the rules of a grammar to generate inputs.
pub struct GrammarInterpreter {
    pub grammar: LowLevelGrammar,
    pub seed: usize,
    pub stack: Vec<LLSymbol>,
    /// Whether the last call of `interpret` expanded everything.
    pub finished: bool,
}

impl GrammarInterpreter {
    /// Create a new GrammarInterpreter.
    pub fn new(grammar: &ContextFreeGrammar) -> (r: GrammarInterpreter)
        requires
            defines(grammar@.rules, grammar@.start),
        ensures
            r.grammar.wf(),
            crate::lowlevel::lowering_of(r.grammar, grammar@),
            r.seed == 0xDEADBEEF,
            r.stack@.len() == 0,
    {
        GrammarInterpreter {
            grammar: LowLevelGrammar::from_high_level_grammar(grammar),
            seed: 0xDEADBEEF,
            stack: Vec::new(),
            finished: false,
        }
    }

    /// Seed the RNG of the GrammarInterpreter.
    pub fn seed(&mut self, seed: usize)
        ensures
            final(self).seed == seeded(seed),
            final(self).grammar == old(self).grammar,
            final(self).stack == old(self).stack,
    {
        if seed == 0 {
            self.seed = 0xDEADBEEF;
        } else {
            self.seed = seed;
        }
    }

    /// Generate one input from the entrypoint, choosing each alternative at
    /// random, and append it to `out`. Returns the number of bytes appended.
    /// Generation stops after `MAX_STEPS` symbols; `finished` tells whether
    /// it expanded everything. A finished input is what serializing the
    /// sequence of the alternatives chosen gives.
    pub fn interpret(&mut self, out: &mut Vec<u8>) -> (r: usize)
        requires
            old(self).grammar.complete(),
        ensures
            final(self).grammar == old(self).grammar,
            final(self).grammar.complete(),
            final(out)@.len() == old(out)@.len() + r,
            final(out)@.subrange(0, old(out)@.len() as int) == old(out)@,
            ({
                let t = interp_run(
                    old(self).grammar,
                    seq![LLSymbol::NonTerminal(old(self).grammar.entrypoint)],
                    old(self).seed,
                    MAX_STEPS as nat,
                    0,
                );
                &&& final(out)@.subrange(old(out)@.len() as int, final(out)@.len() as int) == t.0
                &&& final(self).seed == t.1
                &&& final(self).finished == t.2
            }),
            final(self).finished ==> exists|c: Seq<usize>|
                walk(final(self).grammar, final(self).grammar.entrypoint.0 as int, c, 0) == Some(
                    (c.len(), final(out)@.subrange(old(out)@.len() as int, final(out)@.len() as int)),
                ),
    {
        let ghost g = self.grammar;
        let ghost start = out@;
        let ghost ep = g.entrypoint.0 as int;
        let ghost mut choices: Seq<usize> = Seq::empty();
        let ghost total = interp_run(g, seq![LLSymbol::NonTerminal(g.entrypoint)], self.seed, MAX_STEPS as nat, 0);
        let mut stop = false;
        let mut generated: usize = 0;
        self.stack.clear();
        self.stack.push(LLSymbol::NonTerminal(LLNonTerminal(self.grammar.entrypoint.0)));
        proof {
            let p = pending(self.stack@);
            assert(pending(Seq::<LLSymbol>::empty()) == Seq::<LLSymbol>::empty());
            assert(self.stack@.drop_last() =~= Seq::<LLSymbol>::empty());
            assert(p =~= seq![LLSymbol::NonTerminal(LLNonTerminal(g.entrypoint.0))]);
            lemma_walk_alt_suffix_one(g, LLSymbol::NonTerminal(LLNonTerminal(g.entrypoint.0)), Seq::<LLSymbol>::empty());
            assert(out@.subrange(start.len() as int, out@.len() as int) =~= Seq::<u8>::empty());
            assert forall|x: Seq<usize>| #[trigger] agree(choices, x, 0) implies walk(g, ep, x, 0) == prepend(
                out@.subrange(start.len() as int, out@.len() as int),
                walk_alt(g, pending(self.stack@), 0, x, 0),
            ) by {
                let w = walk(g, ep, x, 0);
                let one = seq![LLSymbol::NonTerminal(LLNonTerminal(g.entrypoint.0))];
                assert(one =~= one + Seq::<LLSymbol>::empty());
                if w is Some {
                    lemma_walk_bounds(g, ep, x, 0);
                    let e = w->Some_0.0 as int;
                    assert(walk_alt(g, one, 1, x, e) == walk_alt(g, Seq::<LLSymbol>::empty(), 0, x, e));
                    assert(walk_alt(g, one, 1, x, e) == Some((e as nat, Seq::<u8>::empty())));
                    assert(w->Some_0.1 + Seq::<u8>::empty() =~= w->Some_0.1);
                    assert(Seq::<u8>::empty() + (w->Some_0.1 + Seq::<u8>::empty()) =~= w->Some_0.1);
                }
            }
        }
        let mut steps: usize = 0;
        assert(self.stack@ =~= seq![LLSymbol::NonTerminal(g.entrypoint)]);
        assert(total == after(out@.subrange(start.len() as int, out@.len() as int), interp_run(g, self.stack@, self.seed, MAX_STEPS as nat, 0))) by {
            let r = interp_run(g, self.stack@, self.seed, MAX_STEPS as nat, 0);
            assert(Seq::<u8>::empty() + r.0 =~= r.0);
        }
        while !stop && steps < MAX_STEPS && self.stack.len() > 0
            invariant
                start == old(out)@,
                stop ==> total == (out@.subrange(start.len() as int, out@.len() as int), self.seed, false) && self.stack@.len() > 0,
                !stop ==> total == after(
                    out@.subrange(start.len() as int, out@.len() as int),
                    interp_run(g, self.stack@, self.seed, (MAX_STEPS - steps) as nat, generated as nat),
                ),
                self.grammar == g,
                g.complete(),
                ep == g.entrypoint.0 as int,
                steps <= MAX_STEPS,
                out@.len() == start.len() + generated,
                out@.subrange(0, start.len() as int) == start,
                alt_ok(self.stack@, g.terminals@.len(), g.nonterminals@.len()),
                forall|x: Seq<usize>| #[trigger] agree(choices, x, choices.len() as int) ==> walk(g, ep, x, 0) == prepend(
                    out@.subrange(start.len() as int, out@.len() as int),
                    walk_alt(g, pending(self.stack@), 0, x, choices.len() as int),
                ),
            decreases MAX_STEPS - steps,
        {
            let ghost fuel_b = (MAX_STEPS - steps) as nat;
            let ghost gen_b = generated as nat;
            let ghost seed_b = self.seed;
            steps += 1;
            let ghost before_stack = self.stack@;
            let ghost out_before = out@.subrange(start.len() as int, out@.len() as int);
            let symbol = self.stack.pop().unwrap();
            proof {
                assert(pending(before_stack) == seq![symbol] + pending(self.stack@));
                lemma_walk_alt_suffix_one(g, symbol, pending(self.stack@));
            }
            assert(alt_ok(self.stack@, g.terminals@.len(), g.nonterminals@.len()));
            assert(symbol == before_stack[before_stack.len() - 1]);
            match symbol {
                LLSymbol::Terminal(term) => {
                    assert(term.0 < g.terminals@.len());
                    let bytes = self.grammar.terminals[term.0].as_str().as_bytes();
                    assert(bytes@ == tbytes(g, term.0 as int));
                    let n = bytes.len();
                    if n > usize::MAX - generated {
                        self.stack.push(symbol);
                        assert(self.stack@ =~= before_stack);
                        stop = true;
                        proof {
                            assert(before_stack.last() == symbol);
                            assert(out_before + Seq::<u8>::empty() =~= out_before);
                        }
                        continue;
                    }
                    let mut j: usize = 0;
                    let ghost before = out@;
                    while j < n
                        invariant
                            j <= n,
                            n == bytes@.len(),
                            out@ == before + bytes@.subrange(0, j as int),
                        decreases n - j,
                    {
                        out.push(bytes[j]);
                        j += 1;
                        assert(out@ =~= before + bytes@.subrange(0, j as int));
                    }
                    assert(out@.subrange(0, start.len() as int) =~= start) by {
                        assert(before.subrange(0, start.len() as int) == start);
                    }
                    generated = generated + n;
                    proof {
                        let r = interp_run(g, self.stack@, seed_b, (fuel_b - 1) as nat, (gen_b + n) as nat);
                        assert(before_stack.last() == symbol);
                        assert(before_stack.drop_last() =~= self.stack@);
                        assert(out_before + (bytes@ + r.0) =~= (out_before + bytes@) + r.0);
                    }
                    proof {
                        assert(bytes@.subrange(0, n as int) =~= bytes@);
                        assert(out@.subrange(start.len() as int, out@.len() as int) =~= out_before + bytes@);
                        assert forall|x: Seq<usize>| #[trigger] agree(choices, x, choices.len() as int) implies walk(g, ep, x, 0) == prepend(
                            out@.subrange(start.len() as int, out@.len() as int),
                            walk_alt(g, pending(self.stack@), 0, x, choices.len() as int),
                        ) by {
                            let w = walk_alt(g, pending(self.stack@), 0, x, choices.len() as int);
                            assert(walk_alt(g, seq![symbol] + pending(self.stack@), 1, x, choices.len() as int) == w);
                            assert((seq![symbol] + pending(self.stack@))[0] == symbol);
                            assert(walk_alt(g, seq![symbol] + pending(self.stack@), 0, x, choices.len() as int) == prepend(bytes@, w));
                            if w is Some {
                                assert(out_before + (bytes@ + w->Some_0.1) =~= (out_before + bytes@) + w->Some_0.1);
                            }
                        }
                    }
                },
                LLSymbol::NonTerminal(nonterm) => {
                    let x0 = self.seed;
                    let a = x0 ^ (x0 << 13usize);
                    let b = a ^ (a >> 7usize);
                    let x = b ^ (b << 17usize);
                    self.seed = x;
                    assert(x == xorshift_word(seed_b));
                    assert(nonterm.0 < g.nonterminals@.len());
                    let alts = &self.grammar.rules[nonterm.0];
                    let t = x % alts.len();
                    let rule = &alts[t];
                    assert(alt_ok(rule@, g.terminals@.len(), g.nonterminals@.len()));
                    let ghost rest = pending(self.stack@);
                    let ghost c0 = choices;
                    proof {
                        choices = choices.push(t);
                        assert forall|y: Seq<usize>| #[trigger] agree(choices, y, choices.len() as int) implies walk(g, ep, y, 0) == prepend(
                            out_before,
                            walk_alt(g, rule@ + rest, 0, y, choices.len() as int),
                        ) by {
                            assert(agree(c0, y, c0.len() as int));
                            assert(y[c0.len() as int] == t);
                            let p = c0.len() as int;
                            lemma_walk_alt_concat(g, rule@, rest, 0, y, p + 1);
                            let wn = walk(g, nonterm.0 as int, y, p);
                            assert(rule@ == g.rules@[nonterm.0 as int]@[t as int]@);
                            assert(wn == walk_alt(g, rule@, 0, y, p + 1));
                            let one = seq![symbol] + rest;
                            assert(one[0] == symbol);
                            if wn is Some {
                                lemma_walk_bounds(g, nonterm.0 as int, y, p);
                                let e = wn->Some_0.0 as int;
                                assert(walk_alt(g, one, 1, y, e) == walk_alt(g, rest, 0, y, e));
                            }
                            assert(walk_alt(g, one, 0, y, p) == walk_alt(g, rule@ + rest, 0, y, p + 1));
                        }
                    }
                    let ghost stack_pop = self.stack@;
                    let ghost out_mid = out@;
                    assert(rule@.subrange(0, rule@.len() as int) =~= rule@);
                    let mut k = rule.len();
                    while k > 0
                        invariant
                            k <= rule@.len(),
                            push_reversed(self.stack@, rule@.subrange(0, k as int)) == push_reversed(stack_pop, rule@),
                            self.seed == x,
                            out@ == out_mid,
                            self.grammar == g,
                            alt_ok(rule@, g.terminals@.len(), g.nonterminals@.len()),
                            alt_ok(self.stack@, g.terminals@.len(), g.nonterminals@.len()),
                            pending(self.stack@) == rule@.subrange(k as int, rule@.len() as int) + rest,
                        decreases k,
                    {
                        k -= 1;
                        let ghost prev = self.stack@;
                        self.stack.push(rule[k]);
                        proof {
                            assert(self.stack@.drop_last() =~= prev);
                            assert(pending(self.stack@) == seq![rule@[k as int]] + pending(prev));
                            assert(rule@.subrange(k as int, rule@.len() as int) =~= seq![rule@[k as int]] + rule@.subrange(k as int + 1, rule@.len() as int));
                            assert(pending(self.stack@) =~= rule@.subrange(k as int, rule@.len() as int) + rest);
                            let sub = rule@.subrange(0, k as int + 1);
                            assert(sub.drop_last() =~= rule@.subrange(0, k as int));
                            assert(sub.last() == rule@[k as int]);
                        }
                        assert forall|i: int| 0 <= i < self.stack@.len() implies match #[trigger] self.stack@[i] {
                            LLSymbol::Terminal(t) => t.0 < g.terminals@.len(),
                            LLSymbol::NonTerminal(n) => n.0 < g.nonterminals@.len(),
                        } by {
                            if i < prev.len() {
                                assert(self.stack@[i] == prev[i]);
                            }
                        }
                    }
                    proof {
                        assert(rule@.subrange(0, 0) =~= Seq::<LLSymbol>::empty());
                        assert(before_stack.last() == symbol);
                        assert(before_stack.drop_last() =~= stack_pop);
                        assert(rule@ == g.rules@[nonterm.0 as int]@[(x as int) % (alts@.len() as int)]@);
                    }
                },
            }
        }
        self.finished = self.stack.len() == 0;
        proof {
            if self.stack@.len() == 0 {
                let c = choices;
                assert(agree(c, c, c.len() as int));
                assert(pending(self.stack@) =~= Seq::<LLSymbol>::empty());
                let o = out@.subrange(start.len() as int, out@.len() as int);
                assert(o + Seq::<u8>::empty() =~= o);
                assert(walk_alt(g, pending(self.stack@), 0, c, c.len() as int) == Some((c.len(), Seq::<u8>::empty())));
                assert(walk(g, ep, c, 0) == Some((c.len(), o)));
                assert(self.grammar == g);
                assert(exists|c2: Seq<usize>| walk(self.grammar, self.grammar.entrypoint.0 as int, c2, 0) == Some((c2.len(), o)));
            }
        }
        assert(self.finished ==> exists|c2: Seq<usize>| walk(self.grammar, self.grammar.entrypoint.0 as int, c2, 0) == Some(
            (c2.len(), out@.subrange(old(out)@.len() as int, out@.len() as int)),
        ));
        let ghost fin_grammar = self.grammar;
        self.stack.clear();
        assert(self.grammar == fin_grammar);
        generated
    }
}

/// Walking `x` followed by `rest` is walking `x` alone and then `rest`.
proof fn lemma_walk_alt_suffix_one(g: LowLevelGrammar, x: LLSymbol, rest: Seq<LLSymbol>)
    ensures
        forall|s: Seq<usize>, step: int| #[trigger] walk_alt(g, seq![x] + rest, 1, s, step) == walk_alt(g, rest, 0, s, step),
{
    assert forall|s: Seq<usize>, step: int| #[trigger] walk_alt(g, seq![x] + rest, 1, s, step) == walk_alt(g, rest, 0, s, step) by {
        lemma_walk_alt_suffix(g, seq![x] + rest, 1, s, step);
        assert((seq![x] + rest).subrange(1, (seq![x] + rest).len() as int) =~= rest);
    }
}

} // verus!
