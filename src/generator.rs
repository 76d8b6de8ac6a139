use vstd::prelude::*;
use core::cmp::Ordering;
use itertools::Itertools;

use crate::lowlevel::{alt_ok, LLSymbol, LowLevelGrammar};

verus! {

/// The bytes of terminal `t`.
pub open spec fn tbytes(g: LowLevelGrammar, t: int) -> Seq<u8> {
    vstd::utf8::encode_utf8(g.terminals@[t]@)
}

/// `b` in front of the bytes of `o`.
pub open spec fn prepend(b: Seq<u8>, o: Option<(nat, Seq<u8>)>) -> Option<(nat, Seq<u8>)> {
    match o {
        Some((e, b2)) => Some((e, b + b2)),
        None => None,
    }
}

/// The derivation of non-terminal `n` that the sequence `s` encodes from
/// position `step` on: the position after its last tag and the bytes it
/// derives, or `None` when a tag is out of range or `s` ends too early.
pub open spec fn walk(g: LowLevelGrammar, n: int, s: Seq<usize>, step: int) -> Option<(nat, Seq<u8>)>
    decreases s.len() - step, 0int,
{
    if step < 0 || step >= s.len() || n < 0 || n >= g.rules@.len() {
        None
    } else if s[step] >= g.rules@[n]@.len() {
        None
    } else {
        walk_alt(g, g.rules@[n]@[s[step] as int]@, 0, s, step + 1)
    }
}

/// The derivation of the symbols of `alt` from index `k` on, their tags read
/// from position `step` of `s` on.
pub open spec fn walk_alt(g: LowLevelGrammar, alt: Seq<LLSymbol>, k: int, s: Seq<usize>, step: int) -> Option<(nat, Seq<u8>)>
    decreases s.len() - step, alt.len() - k + 1,
{
    if k < 0 || step < 0 || step > s.len() {
        None
    } else if k >= alt.len() {
        Some((step as nat, Seq::empty()))
    } else {
        match alt[k] {
            LLSymbol::Terminal(t) => if t.0 < g.terminals@.len() {
                prepend(tbytes(g, t.0 as int), walk_alt(g, alt, k + 1, s, step))
            } else {
                None
            },
            LLSymbol::NonTerminal(c) => match walk(g, c.0 as int, s, step) {
                Some((e, b1)) => if step < e <= s.len() {
                    prepend(b1, walk_alt(g, alt, k + 1, s, e as int))
                } else {
                    None
                },
                None => None,
            },
        }
    }
}

/// `x` and `y` hold the same values below `e`.
pub open spec fn agree(x: Seq<usize>, y: Seq<usize>, e: int) -> bool {
    x.len() >= e && y.len() >= e && forall|i: int| 0 <= i < e ==> x[i] == y[i]
}

/// A derivation ends after the position it starts at and within the sequence.
pub proof fn lemma_walk_bounds(g: LowLevelGrammar, n: int, x: Seq<usize>, step: int)
    requires
        walk(g, n, x, step) is Some,
    ensures
        step < walk(g, n, x, step)->Some_0.0 <= x.len(),
    decreases x.len() - step, 0int,
{
    lemma_walk_alt_bounds(g, g.rules@[n]@[x[step] as int]@, 0, x, step + 1);
}

pub proof fn lemma_walk_alt_bounds(g: LowLevelGrammar, alt: Seq<LLSymbol>, k: int, x: Seq<usize>, step: int)
    requires
        walk_alt(g, alt, k, x, step) is Some,
    ensures
        step <= walk_alt(g, alt, k, x, step)->Some_0.0 <= x.len(),
    decreases x.len() - step, alt.len() - k + 1,
{
    if k < alt.len() {
        match alt[k] {
            LLSymbol::Terminal(t) => {
                lemma_walk_alt_bounds(g, alt, k + 1, x, step);
            },
            LLSymbol::NonTerminal(c) => {
                let (e, b1) = walk(g, c.0 as int, x, step)->Some_0;
                lemma_walk_alt_bounds(g, alt, k + 1, x, e as int);
            },
        }
    }
}

/// A derivation reads only the tags below its end: any sequence that holds
/// the same tags there encodes the same derivation.
pub proof fn lemma_walk_frame(g: LowLevelGrammar, n: int, x: Seq<usize>, y: Seq<usize>, step: int)
    requires
        walk(g, n, x, step) is Some,
        agree(x, y, walk(g, n, x, step)->Some_0.0 as int),
    ensures
        walk(g, n, y, step) == walk(g, n, x, step),
    decreases x.len() - step, 0int,
{
    lemma_walk_bounds(g, n, x, step);
    let t = x[step];
    assert(y[step] == t);
    lemma_walk_alt_frame(g, g.rules@[n]@[t as int]@, 0, x, y, step + 1);
}

pub proof fn lemma_walk_alt_frame(g: LowLevelGrammar, alt: Seq<LLSymbol>, k: int, x: Seq<usize>, y: Seq<usize>, step: int)
    requires
        walk_alt(g, alt, k, x, step) is Some,
        agree(x, y, walk_alt(g, alt, k, x, step)->Some_0.0 as int),
    ensures
        walk_alt(g, alt, k, y, step) == walk_alt(g, alt, k, x, step),
    decreases x.len() - step, alt.len() - k + 1,
{
    lemma_walk_alt_bounds(g, alt, k, x, step);
    if k < alt.len() {
        match alt[k] {
            LLSymbol::Terminal(t) => {
                lemma_walk_alt_frame(g, alt, k + 1, x, y, step);
            },
            LLSymbol::NonTerminal(c) => {
                let (e, b1) = walk(g, c.0 as int, x, step)->Some_0;
                lemma_walk_alt_bounds(g, alt, k + 1, x, e as int);
                lemma_walk_alt_frame(g, alt, k + 1, x, y, e as int);
                lemma_walk_frame(g, c.0 as int, x, y, step);
            },
        }
    }
}

/// How far a sequence of tags derives a symbol: completely, ending before
/// the given position; not yet, as the tags run out; or not at all, as a tag
/// is out of range.
pub ghost enum Prefix {
    Done(nat),
    Short,
    Bad,
}

/// What the tags of `s` from position `step` on say about non-terminal `n`.
pub open spec fn pwalk(g: LowLevelGrammar, n: int, s: Seq<usize>, step: int) -> Prefix
    decreases s.len() - step, 0int,
{
    if step < 0 || step > s.len() || n < 0 || n >= g.rules@.len() {
        Prefix::Bad
    } else if step == s.len() {
        Prefix::Short
    } else if s[step] >= g.rules@[n]@.len() {
        Prefix::Bad
    } else {
        pwalk_alt(g, g.rules@[n]@[s[step] as int]@, 0, s, step + 1)
    }
}

/// What the tags of `s` from position `step` on say about the symbols of `alt` from `k` on.
pub open spec fn pwalk_alt(g: LowLevelGrammar, alt: Seq<LLSymbol>, k: int, s: Seq<usize>, step: int) -> Prefix
    decreases s.len() - step, alt.len() - k + 1,
{
    if k < 0 || step < 0 || step > s.len() {
        Prefix::Bad
    } else if k >= alt.len() {
        Prefix::Done(step as nat)
    } else {
        match alt[k] {
            LLSymbol::Terminal(_) => pwalk_alt(g, alt, k + 1, s, step),
            LLSymbol::NonTerminal(c) => match pwalk(g, c.0 as int, s, step) {
                Prefix::Done(e) => if step < e <= s.len() {
                    pwalk_alt(g, alt, k + 1, s, e as int)
                } else {
                    Prefix::Bad
                },
                Prefix::Short => Prefix::Short,
                Prefix::Bad => Prefix::Bad,
            },
        }
    }
}

/// A complete derivation is done where it ends.
pub proof fn lemma_walk_pwalk(g: LowLevelGrammar, n: int, s: Seq<usize>, step: int)
    requires
        g.wf(),
        walk(g, n, s, step) is Some,
    ensures
        pwalk(g, n, s, step) == Prefix::Done(walk(g, n, s, step)->Some_0.0),
    decreases s.len() - step, 0int,
{
    lemma_walk_alt_pwalk(g, g.rules@[n]@[s[step] as int]@, 0, s, step + 1);
}

pub proof fn lemma_walk_alt_pwalk(g: LowLevelGrammar, alt: Seq<LLSymbol>, k: int, s: Seq<usize>, step: int)
    requires
        g.wf(),
        walk_alt(g, alt, k, s, step) is Some,
    ensures
        pwalk_alt(g, alt, k, s, step) == Prefix::Done(walk_alt(g, alt, k, s, step)->Some_0.0),
    decreases s.len() - step, alt.len() - k + 1,
{
    if k < alt.len() {
        match alt[k] {
            LLSymbol::Terminal(_) => {
                lemma_walk_alt_pwalk(g, alt, k + 1, s, step);
            },
            LLSymbol::NonTerminal(c) => {
                let (e, b1) = walk(g, c.0 as int, s, step)->Some_0;
                lemma_walk_pwalk(g, c.0 as int, s, step);
                lemma_walk_alt_pwalk(g, alt, k + 1, s, e as int);
            },
        }
    }
}

/// The state that mutation works on: the buffer, its logical length and the
/// random state.
pub ghost struct MState {
    pub buf: Seq<usize>,
    pub len: nat,
    pub rng: u64,
}

/// What mutating non-terminal `n` from position `step` does to `st`, the
/// buffer holding `cap` tags: replay the tag below the length, or (room
/// left) draw `xorshift % k` (0 for a single alternative) and append it,
/// then mutate the non-terminals of the chosen alternative. The end
/// position, or `None` when the buffer filled or a replayed tag is out of range.
pub open spec fn mut_nt_spec(g: LowLevelGrammar, n: int, st: MState, step: int, cap: int) -> (MState, Option<nat>)
    decreases cap - step, 0int,
{
    if step < 0 || step >= cap || n < 0 || n >= g.rules@.len() {
        (st, None)
    } else {
        let k = g.rules@[n]@.len();
        if step < st.len {
            let t = st.buf[step];
            if t >= k {
                (st, None)
            } else {
                mut_alt_spec(g, g.rules@[n]@[t as int]@, 0, st, step + 1, cap)
            }
        } else if st.len >= cap {
            (st, None)
        } else {
            let rng2 = if k == 1 { st.rng } else { xorshift(st.rng) };
            let t: usize = if k == 1 { 0 } else { (xorshift(st.rng) % (k as u64)) as usize };
            let st2 = MState { buf: st.buf.update(st.len as int, t), len: st.len + 1, rng: rng2 };
            mut_alt_spec(g, g.rules@[n]@[t as int]@, 0, st2, step + 1, cap)
        }
    }
}

/// Mutating the non-terminals of `alt` from index `k` on, from position `cur`.
pub open spec fn mut_alt_spec(g: LowLevelGrammar, alt: Seq<LLSymbol>, k: int, st: MState, cur: int, cap: int) -> (MState, Option<nat>)
    decreases cap - cur, alt.len() - k + 1,
{
    if k < 0 || cur < 0 || cur > cap {
        (st, None)
    } else if k >= alt.len() {
        (st, Some(cur as nat))
    } else {
        match alt[k] {
            LLSymbol::Terminal(_) => mut_alt_spec(g, alt, k + 1, st, cur, cap),
            LLSymbol::NonTerminal(c) => {
                let (st2, r) = mut_nt_spec(g, c.0 as int, st, cur, cap);
                match r {
                    Some(e) => if cur < e <= cap {
                        mut_alt_spec(g, alt, k + 1, st2, e as int, cap)
                    } else {
                        (st2, None)
                    },
                    None => (st2, None),
                }
            },
        }
    }
}

/// The xorshift step of the generator's random number source.
pub open spec fn xorshift(x: u64) -> u64 {
    let a = x ^ ((x << 13u64) as u64);
    let b = a ^ (a >> 7u64);
    b ^ ((b << 17u64) as u64)
}

/// The state that a seed gives: zero is replaced by a fixed non-zero value.
pub open spec fn seeded(s: usize) -> u64 {
    if s == 0 {
        0xDEADBEEF
    } else {
        s as u64
    }
}

/// The default state of the random number source, as in the emitted module.
pub const DEFAULT_SEED: u64 = 0x35c6be9ba2548264;

/// Mutation, serialization and unparsing of derivation sequences for one
/// grammar, with the random number source that mutation draws from.
pub struct Generator {
    pub grammar: LowLevelGrammar,
    pub rng: u64,
}

impl Generator {
    /// A generator for `grammar`, its random number source at the default state.
    pub fn new(grammar: LowLevelGrammar) -> (r: Generator)
        ensures
            r.grammar == grammar,
            r.rng == DEFAULT_SEED,
    {
        Generator { grammar, rng: DEFAULT_SEED }
    }

    /// Replace the state of the random number source.
    pub fn seed_generator(&mut self, new_seed: usize)
        ensures
            final(self).rng == seeded(new_seed),
            final(self).grammar == old(self).grammar,
    {
        self.rng = if new_seed == 0 {
            0xDEADBEEF
        } else {
            new_seed as u64
        };
    }

    fn rand(&mut self) -> (r: u64)
        ensures
            r == xorshift(old(self).rng),
            final(self).rng == r,
            final(self).grammar == old(self).grammar,
    {
        let x = self.rng;
        let a = x ^ (x << 13u64);
        let b = a ^ (a >> 7u64);
        let c = b ^ (b << 17u64);
        self.rng = c;
        c
    }

    fn serialize_nt(&self, n: usize, seq: &[usize], step: usize, out: &mut Vec<u8>, limit: usize) -> (r: Option<usize>)
        requires
            self.grammar.wf(),
            n < self.grammar.rules@.len(),
            old(out)@.len() <= limit,
        ensures
            old(out)@.len() <= final(out)@.len() <= limit,
            final(out)@.subrange(0, old(out)@.len() as int) == old(out)@,
            r is Some ==> walk(self.grammar, n as int, seq@, step as int) == Some(
                (r->Some_0 as nat, final(out)@.subrange(old(out)@.len() as int, final(out)@.len() as int)),
            ),
            walk(self.grammar, n as int, seq@, step as int) is Some && old(out)@.len()
                + walk(self.grammar, n as int, seq@, step as int)->Some_0.1.len() <= limit ==> r is Some,
            walk(self.grammar, n as int, seq@, step as int) is Some ==> final(out)@.subrange(old(out)@.len() as int, final(out)@.len() as int)
                .is_prefix_of(walk(self.grammar, n as int, seq@, step as int)->Some_0.1),
            forall|x: Seq<usize>|
                #[trigger] agree(seq@, x, seq@.len() as int) && walk(self.grammar, n as int, x, step as int) is Some
                    ==> final(out)@.subrange(old(out)@.len() as int, final(out)@.len() as int).is_prefix_of(
                    walk(self.grammar, n as int, x, step as int)->Some_0.1,
                ),
        decreases seq@.len() - step,
    {
        let ghost g = self.grammar;
        let ghost start = out@;
        if step >= seq.len() {
            assert(out@.subrange(start.len() as int, out@.len() as int) =~= Seq::<u8>::empty());
            return None;
        }
        let t = seq[step];
        if t >= self.grammar.rules[n].len() {
            assert(out@.subrange(start.len() as int, out@.len() as int) =~= Seq::<u8>::empty());
            return None;
        }
        let alt = &self.grammar.rules[n][t];
        let ghost w0 = walk_alt(g, alt@, 0, seq@, step + 1);
        assert(walk(g, n as int, seq@, step as int) == w0);
        assert(alt_ok(alt@, g.terminals@.len(), g.nonterminals@.len()));
        let mut cur = step + 1;
        let mut k: usize = 0;
        assert(out@.subrange(start.len() as int, out@.len() as int) =~= Seq::<u8>::empty());
        proof {
            assert forall|x: Seq<usize>| #[trigger] agree(seq@, x, seq@.len() as int) implies walk_alt(g, alt@, 0, x, step + 1)
                == prepend(out@.subrange(start.len() as int, out@.len() as int), walk_alt(g, alt@, 0, x, cur as int)) by {
                let w = walk_alt(g, alt@, 0, x, step + 1);
                if w is Some {
                    assert(Seq::<u8>::empty() + w->Some_0.1 =~= w->Some_0.1);
                }
            }
        }
        while k < alt.len()
            invariant
                g == self.grammar,
                g.wf(),
                start == old(out)@,
                walk(g, n as int, seq@, step as int) == w0,
                alt_ok(alt@, g.terminals@.len(), g.nonterminals@.len()),
                k <= alt@.len(),
                step < cur <= seq@.len(),
                start.len() <= out@.len() <= limit,
                out@.subrange(0, start.len() as int) == start,
                w0 == prepend(out@.subrange(start.len() as int, out@.len() as int), walk_alt(g, alt@, k as int, seq@, cur as int)),
                w0 is Some && start.len() + w0->Some_0.1.len() <= limit ==> walk_alt(g, alt@, k as int, seq@, cur as int) is Some,
                n < g.rules@.len(),
                alt@ == g.rules@[n as int]@[t as int]@,
                t < g.rules@[n as int]@.len(),
                step < seq@.len(),
                seq@[step as int] == t,
                forall|x: Seq<usize>| #[trigger] agree(seq@, x, seq@.len() as int) ==> walk_alt(g, alt@, 0, x, step + 1)
                    == prepend(out@.subrange(start.len() as int, out@.len() as int), walk_alt(g, alt@, k as int, x, cur as int)),
            decreases alt@.len() - k,
        {
            let ghost app = out@.subrange(start.len() as int, out@.len() as int);
            match alt[k] {
                LLSymbol::Terminal(term) => {
                    let bytes = self.grammar.terminals[term.0].as_str().as_bytes();
                    assert(bytes@ == tbytes(g, term.0 as int));
                    if bytes.len() > limit - out.len() {
                        proof {
                            if w0 is Some && start.len() + w0->Some_0.1.len() <= limit {
                                let rest = walk_alt(g, alt@, k as int + 1, seq@, cur as int);
                                assert(w0->Some_0.1 == app + (bytes@ + rest->Some_0.1));
                                assert(app.len() == out@.len() - start.len());
                                assert(w0->Some_0.1.len() >= app.len() + bytes@.len());
                            }
                            lemma_prefix_halt(g, n as int, alt@, k as int, seq@, step as int, cur as int, app);
                        }
                        return None;
                    }
                    let mut j: usize = 0;
                    let ghost before = out@;
                    while j < bytes.len()
                        invariant
                            j <= bytes@.len(),
                            out@ == before + bytes@.subrange(0, j as int),
                            before.len() + bytes@.len() <= limit,
                        decreases bytes@.len() - j,
                    {
                        out.push(bytes[j]);
                        j += 1;
                        assert(out@ =~= before + bytes@.subrange(0, j as int));
                    }
                    proof {
                        assert(bytes@.subrange(0, j as int) =~= bytes@);
                        assert(out@.subrange(0, start.len() as int) =~= start) by {
                            assert(before.subrange(0, start.len() as int) == start);
                        }
                        let rest = walk_alt(g, alt@, k as int + 1, seq@, cur as int);
                        assert(out@.subrange(start.len() as int, out@.len() as int) =~= app + bytes@);
                        if rest is Some {
                            assert(app + (bytes@ + rest->Some_0.1) =~= (app + bytes@) + rest->Some_0.1);
                        }
                        if w0 is Some && start.len() + w0->Some_0.1.len() <= limit {
                            assert(rest is Some);
                        }
                        assert forall|x: Seq<usize>| #[trigger] agree(seq@, x, seq@.len() as int) implies walk_alt(g, alt@, 0, x, step + 1)
                            == prepend(out@.subrange(start.len() as int, out@.len() as int), walk_alt(g, alt@, k as int + 1, x, cur as int)) by {
                            let rx = walk_alt(g, alt@, k as int + 1, x, cur as int);
                            if rx is Some {
                                assert(app + (bytes@ + rx->Some_0.1) =~= (app + bytes@) + rx->Some_0.1);
                            }
                        }
                    }
                },
                LLSymbol::NonTerminal(c) => {
                    let ghost mid = out@;
                    let r = self.serialize_nt(c.0, seq, cur, out, limit);
                    let ghost cb = out@.subrange(mid.len() as int, out@.len() as int);
                    match r {
                        Some(e) => {
                            proof {
                                lemma_walk_bounds(g, c.0 as int, seq@, cur as int);
                                let rest = walk_alt(g, alt@, k as int + 1, seq@, e as int);
                                assert(out@.subrange(0, mid.len() as int) == mid);
                                assert(out@.subrange(0, start.len() as int) =~= start) by {
                                    assert(mid.subrange(0, start.len() as int) == start);
                                    assert(out@.subrange(0, start.len() as int) =~= mid.subrange(0, start.len() as int));
                                }
                                assert(out@.subrange(start.len() as int, out@.len() as int) =~= app + cb);
                                if rest is Some {
                                    assert(app + (cb + rest->Some_0.1) =~= (app + cb) + rest->Some_0.1);
                                }
                                assert forall|x: Seq<usize>| #[trigger] agree(seq@, x, seq@.len() as int) implies walk_alt(g, alt@, 0, x, step + 1)
                                    == prepend(out@.subrange(start.len() as int, out@.len() as int), walk_alt(g, alt@, k as int + 1, x, e as int)) by {
                                    assert(agree(seq@, x, e as int));
                                    lemma_walk_frame(g, c.0 as int, seq@, x, cur as int);
                                    let rx = walk_alt(g, alt@, k as int + 1, x, e as int);
                                    if rx is Some {
                                        assert(app + (cb + rx->Some_0.1) =~= (app + cb) + rx->Some_0.1);
                                    }
                                }
                            }
                            cur = e;
                        },
                        None => {
                            proof {
                                if w0 is Some && start.len() + w0->Some_0.1.len() <= limit {
                                    let wc = walk(g, c.0 as int, seq@, cur as int);
                                    let rest = walk_alt(g, alt@, k as int + 1, seq@, wc->Some_0.0 as int);
                                    assert(w0->Some_0.1 == app + (wc->Some_0.1 + rest->Some_0.1));
                                    assert(app.len() == mid.len() - start.len());
                                    assert(w0->Some_0.1.len() >= app.len() + wc->Some_0.1.len());
                                }
                                if w0 is Some {
                                    let wc = walk(g, c.0 as int, seq@, cur as int);
                                    let rest = walk_alt(g, alt@, k as int + 1, seq@, wc->Some_0.0 as int);
                                    let whole = w0->Some_0.1;
                                    assert(whole == app + (wc->Some_0.1 + rest->Some_0.1));
                                    assert(out@.subrange(0, mid.len() as int) == mid);
                                    assert(out@.subrange(start.len() as int, out@.len() as int) =~= app + cb) by {
                                        assert(mid.subrange(0, start.len() as int) == start);
                                    }
                                    assert forall|x: int| 0 <= x < (app + cb).len() implies (app + cb)[x] == whole[x] by {
                                        if x >= app.len() {
                                            assert(cb[x - app.len()] == wc->Some_0.1[x - app.len()]);
                                        }
                                    }
                                    assert(cb.len() <= wc->Some_0.1.len());
                                }
                                assert(out@.subrange(0, mid.len() as int) == mid);
                                assert(out@.subrange(start.len() as int, out@.len() as int) =~= app + cb) by {
                                    assert(mid.subrange(0, start.len() as int) == start);
                                }
                                assert forall|x: Seq<usize>|
                                    #[trigger] agree(seq@, x, seq@.len() as int) && walk(g, n as int, x, step as int) is Some
                                    implies (app + cb).is_prefix_of(walk(g, n as int, x, step as int)->Some_0.1) by {
                                    assert(x[step as int] == t);
                                    let whole = walk(g, n as int, x, step as int)->Some_0.1;
                                    let wc = walk(g, c.0 as int, x, cur as int);
                                    let rest = walk_alt(g, alt@, k as int + 1, x, wc->Some_0.0 as int);
                                    assert(whole == app + (wc->Some_0.1 + rest->Some_0.1));
                                    assert(cb.is_prefix_of(wc->Some_0.1));
                                    assert forall|y: int| 0 <= y < (app + cb).len() implies (app + cb)[y] == whole[y] by {
                                        if y >= app.len() {
                                            assert(cb[y - app.len()] == wc->Some_0.1[y - app.len()]);
                                        }
                                    }
                                }
                            }
                            return None;
                        },
                    }
                },
            }
            k += 1;
        }
        proof {
            let app = out@.subrange(start.len() as int, out@.len() as int);
            assert forall|x: Seq<usize>|
                #[trigger] agree(seq@, x, seq@.len() as int) && walk(g, n as int, x, step as int) is Some
                implies app.is_prefix_of(walk(g, n as int, x, step as int)->Some_0.1) by {
                assert(x[step as int] == t);
                assert(walk_alt(g, alt@, k as int, x, cur as int) == Some((cur as nat, Seq::<u8>::empty())));
                assert(app + Seq::<u8>::empty() =~= app);
            }
        }
        Some(cur)
    }

    /// Render the derivation that `seq` encodes from the entrypoint into at
    /// most `out_len` bytes. Stops early when the sequence ends too early, a
    /// tag is out of range, or the next terminal does not fit.
    pub fn serialize_sequence(&self, seq: &[usize], out_len: usize) -> (r: Vec<u8>)
        requires
            self.grammar.wf(),
        ensures
            r@.len() <= out_len,
            walk(self.grammar, self.grammar.entrypoint.0 as int, seq@, 0) is Some
                && walk(self.grammar, self.grammar.entrypoint.0 as int, seq@, 0)->Some_0.1.len() <= out_len
                ==> r@ == walk(self.grammar, self.grammar.entrypoint.0 as int, seq@, 0)->Some_0.1,
            walk(self.grammar, self.grammar.entrypoint.0 as int, seq@, 0) is Some
                ==> r@.is_prefix_of(walk(self.grammar, self.grammar.entrypoint.0 as int, seq@, 0)->Some_0.1),
            forall|x: Seq<usize>|
                #[trigger] agree(seq@, x, seq@.len() as int) && walk(self.grammar, self.grammar.entrypoint.0 as int, x, 0) is Some
                    ==> r@.is_prefix_of(walk(self.grammar, self.grammar.entrypoint.0 as int, x, 0)->Some_0.1),
    {
        let mut out: Vec<u8> = Vec::new();
        let _ = self.serialize_nt(self.grammar.entrypoint.0, seq, 0, &mut out, out_len);
        assert(out@.subrange(0, out@.len() as int) =~= out@);
        out
    }
}

/// When the bytes written so far stand in front of the rest of an
/// alternative's derivation, they are a prefix of the derivation of any
/// sequence that agrees with `s`.
proof fn lemma_prefix_halt(
    g: LowLevelGrammar,
    n: int,
    alt: Seq<LLSymbol>,
    k: int,
    s: Seq<usize>,
    step: int,
    cur: int,
    app: Seq<u8>,
)
    requires
        0 <= step < s.len(),
        0 <= n < g.rules@.len(),
        s[step] < g.rules@[n]@.len(),
        alt == g.rules@[n]@[s[step] as int]@,
        forall|x: Seq<usize>| #[trigger] agree(s, x, s.len() as int) ==> walk_alt(g, alt, 0, x, step + 1)
            == prepend(app, walk_alt(g, alt, k, x, cur)),
    ensures
        forall|x: Seq<usize>|
            #[trigger] agree(s, x, s.len() as int) && walk(g, n, x, step) is Some ==> app.is_prefix_of(walk(g, n, x, step)->Some_0.1),
{
    assert forall|x: Seq<usize>|
        #[trigger] agree(s, x, s.len() as int) && walk(g, n, x, step) is Some implies app.is_prefix_of(walk(g, n, x, step)->Some_0.1) by {
        assert(x[step] == s[step]);
        let r = walk_alt(g, alt, k, x, cur);
        assert(walk(g, n, x, step) == prepend(app, r));
    }
}

/// The end position of a derivation, without its bytes.
pub open spec fn ends(o: Option<(nat, Seq<u8>)>) -> Option<nat> {
    match o {
        Some((e, _)) => Some(e),
        None => None,
    }
}

/// `s` encodes one complete derivation from the entrypoint, with no tags left over.
pub open spec fn derives(g: LowLevelGrammar, s: Seq<usize>) -> bool {
    ends(walk(g, g.entrypoint.0 as int, s, 0)) == Some(s.len())
}

impl Generator {
    fn mutate_nt(&mut self, n: usize, buf: &mut Vec<usize>, len: &mut usize, step: usize) -> (r: Option<usize>)
        requires
            old(self).grammar.complete(),
            n < old(self).grammar.rules@.len(),
            step <= *old(len) <= old(buf)@.len(),
        ensures
            final(self).grammar == old(self).grammar,
            final(buf)@.len() == old(buf)@.len(),
            *old(len) <= *final(len) <= final(buf)@.len(),
            forall|i: int|
                0 <= i < old(buf)@.len() && !(*old(len) <= i < *final(len)) ==> final(buf)@[i] == old(buf)@[i],
            r is Some ==> step < r->Some_0 <= *final(len),
            r is Some ==> *final(len) == if r->Some_0 > *old(len) { r->Some_0 } else { *old(len) },
            r is None ==> *final(len) == final(buf)@.len() || (*final(len) == *old(len) && step < *old(len)),
            r is None ==> (*final(len) == final(buf)@.len() && pwalk(final(self).grammar, n as int, final(buf)@.subrange(0, *final(len) as int), step as int) is Short)
                || (*final(len) == *old(len) && step < *old(len) && final(buf)@ == old(buf)@
                    && pwalk(old(self).grammar, n as int, old(buf)@.subrange(0, *old(len) as int), step as int) is Bad),
            r is Some ==> ends(walk(final(self).grammar, n as int, final(buf)@.subrange(0, *final(len) as int), step as int))
                == Some(r->Some_0 as nat),
            ends(walk(old(self).grammar, n as int, old(buf)@.subrange(0, *old(len) as int), step as int)) is Some ==> r
                == Some(ends(walk(old(self).grammar, n as int, old(buf)@.subrange(0, *old(len) as int), step as int))->Some_0 as usize)
                && *final(len) == *old(len) && final(buf)@ == old(buf)@,
            mut_nt_spec(
                old(self).grammar,
                n as int,
                MState { buf: old(buf)@, len: *old(len) as nat, rng: old(self).rng },
                step as int,
                old(buf)@.len() as int,
            ) == (MState { buf: final(buf)@, len: *final(len) as nat, rng: final(self).rng }, match r {
                Some(e) => Some(e as nat),
                None => None,
            }),
        decreases old(buf)@.len() - step,
    {
        let ghost g = self.grammar;
        let ghost b0 = buf@;
        let ghost l0 = *len;
        let ghost pfx = b0.subrange(0, l0 as int);
        let ghost pw = ends(walk(g, n as int, pfx, step as int)) is Some;
        let ghost st0 = MState { buf: b0, len: l0 as nat, rng: self.rng };
        let ghost cap = b0.len() as int;
        let k = self.grammar.rules[n].len();
        let t: usize;
        if step < *len {
            t = buf[step];
            if t >= k {
                assert(pfx[step as int] == t);
                return None;
            }
        } else {
            if *len >= buf.len() {
                assert(buf@.subrange(0, *len as int) == pfx);
                return None;
            }
            if k == 1 {
                t = 0;
            } else {
                t = (self.rand() % (k as u64)) as usize;
            }
            buf.set(*len, t);
            *len = *len + 1;
        }
        assert(buf@[step as int] == t);
        let alt = self.grammar.rules[n][t].clone();
        assert(alt@ == g.rules@[n as int]@[t as int]@);
        assert(alt_ok(alt@, g.terminals@.len(), g.nonterminals@.len()));
        let ghost st1 = MState { buf: buf@, len: *len as nat, rng: self.rng };
        assert(mut_nt_spec(g, n as int, st0, step as int, cap) == mut_alt_spec(g, alt@, 0, st1, step + 1, cap));
        proof {
            if pw {
                assert(step < l0);
                assert(pfx[step as int] == t);
                assert(walk(g, n as int, pfx, step as int) == walk_alt(g, alt@, 0, pfx, step + 1));
            }
        }
        let mut cur = step + 1;
        let mut i: usize = 0;
        while i < alt.len()
            invariant
                self.grammar == g,
                g.complete(),
                b0 == old(buf)@,
                l0 == *old(len),
                g == old(self).grammar,
                n < g.rules@.len(),
                *len == if cur > l0 { cur } else { l0 },
                alt@ == g.rules@[n as int]@[t as int]@,
                alt_ok(alt@, g.terminals@.len(), g.nonterminals@.len()),
                t < g.rules@[n as int]@.len(),
                i <= alt@.len(),
                step < cur <= *len <= buf@.len(),
                buf@.len() == b0.len(),
                l0 <= *len,
                step < *len,
                buf@[step as int] == t,
                forall|j: int| 0 <= j < b0.len() && !(l0 <= j < *len) ==> buf@[j] == b0[j],
                forall|x: Seq<usize>|
                    agree(buf@.subrange(0, *len as int), x, cur as int) ==> ends(
                        #[trigger] walk_alt(g, alt@, 0, x, step + 1),
                    ) == ends(walk_alt(g, alt@, i as int, x, cur as int)),
                pfx == b0.subrange(0, l0 as int),
                pw == (ends(walk(g, n as int, pfx, step as int)) is Some),
                pw ==> *len == l0 && buf@ == b0 && walk_alt(g, alt@, i as int, pfx, cur as int) is Some
                    && ends(walk(g, n as int, pfx, step as int)) == ends(walk_alt(g, alt@, i as int, pfx, cur as int)),
                forall|x: Seq<usize>|
                    agree(buf@.subrange(0, *len as int), x, cur as int) ==> #[trigger] pwalk_alt(g, alt@, 0, x, step + 1)
                        == pwalk_alt(g, alt@, i as int, x, cur as int),
                cap == b0.len(),
                st0 == (MState { buf: old(buf)@, len: *old(len) as nat, rng: old(self).rng }),
                mut_nt_spec(g, n as int, st0, step as int, cap) == mut_alt_spec(
                    g,
                    alt@,
                    i as int,
                    MState { buf: buf@, len: *len as nat, rng: self.rng },
                    cur as int,
                    cap,
                ),
            decreases alt@.len() - i,
        {
            let ghost s_before = buf@.subrange(0, *len as int);
            let ghost cur0 = cur;
            let ghost len_before = *len;
            let ghost buf_before = buf@;
            match alt[i] {
                LLSymbol::Terminal(_) => {
                    proof {
                        assert forall|x: Seq<usize>|
                            agree(buf@.subrange(0, *len as int), x, cur as int) implies ends(
                                #[trigger] walk_alt(g, alt@, 0, x, step + 1),
                            ) == ends(walk_alt(g, alt@, i as int + 1, x, cur as int)) by {
                            assert(ends(walk_alt(g, alt@, 0, x, step + 1)) == ends(walk_alt(g, alt@, i as int, x, cur as int)));
                        }
                        if pw {
                            assert(ends(walk_alt(g, alt@, i as int, pfx, cur as int)) == ends(walk_alt(g, alt@, i as int + 1, pfx, cur as int)));
                        }
                        assert forall|x: Seq<usize>|
                            agree(buf@.subrange(0, *len as int), x, cur as int) implies #[trigger] pwalk_alt(g, alt@, 0, x, step + 1)
                                == pwalk_alt(g, alt@, i as int + 1, x, cur as int) by {
                            assert(pwalk_alt(g, alt@, 0, x, step + 1) == pwalk_alt(g, alt@, i as int, x, cur as int));
                        }
                    }
                },
                LLSymbol::NonTerminal(c) => {
                    proof {
                        if pw {
                            assert(buf@.subrange(0, *len as int) == pfx);
                            assert(walk(g, c.0 as int, pfx, cur as int) is Some);
                        }
                    }
                    let ghost st_now = MState { buf: buf@, len: *len as nat, rng: self.rng };
                    assert(alt@[i as int] == LLSymbol::NonTerminal(c));
                    assert(mut_nt_spec(g, n as int, st0, step as int, cap) == mut_alt_spec(g, alt@, i as int, st_now, cur as int, cap));
                    match self.mutate_nt(c.0, buf, len, cur) {
                        Some(e) => {
                            proof {
                                if pw {
                                    assert(buf@ =~= b0);
                                    let wc = walk(g, c.0 as int, pfx, cur0 as int);
                                    assert(e == wc->Some_0.0);
                                    assert(ends(walk_alt(g, alt@, i as int, pfx, cur0 as int)) == ends(walk_alt(g, alt@, i as int + 1, pfx, e as int)));
                                }
                                let s_after = buf@.subrange(0, *len as int);
                                let wc = walk(g, c.0 as int, s_after, cur as int);
                                assert forall|x: Seq<usize>|
                                    agree(s_after, x, e as int) implies ends(
                                        #[trigger] walk_alt(g, alt@, 0, x, step + 1),
                                    ) == ends(walk_alt(g, alt@, i as int + 1, x, e as int)) by {
                                    assert(agree(s_before, x, cur0 as int)) by {
                                        assert forall|j: int| 0 <= j < cur0 implies s_before[j] == x[j] by {
                                            assert(s_before[j] == buf_before[j]);
                                            assert(buf@[j] == buf_before[j]);
                                            assert(s_after[j] == buf@[j]);
                                        }
                                    }
                                    assert(ends(walk_alt(g, alt@, 0, x, step + 1)) == ends(walk_alt(g, alt@, i as int, x, cur0 as int)));
                                    lemma_walk_bounds(g, c.0 as int, s_after, cur0 as int);
                                    lemma_walk_frame(g, c.0 as int, s_after, x, cur0 as int);
                                }
                                assert forall|x: Seq<usize>|
                                    agree(s_after, x, e as int) implies #[trigger] pwalk_alt(g, alt@, 0, x, step + 1)
                                        == pwalk_alt(g, alt@, i as int + 1, x, e as int) by {
                                    assert(agree(s_before, x, cur0 as int)) by {
                                        assert forall|j: int| 0 <= j < cur0 implies s_before[j] == x[j] by {
                                            assert(s_before[j] == buf_before[j]);
                                            assert(buf@[j] == buf_before[j]);
                                            assert(s_after[j] == buf@[j]);
                                        }
                                    }
                                    assert(pwalk_alt(g, alt@, 0, x, step + 1) == pwalk_alt(g, alt@, i as int, x, cur0 as int));
                                    lemma_walk_bounds(g, c.0 as int, s_after, cur0 as int);
                                    lemma_walk_frame(g, c.0 as int, s_after, x, cur0 as int);
                                    lemma_walk_pwalk(g, c.0 as int, x, cur0 as int);
                                }
                            }
                            cur = e;
                        },
                        None => {
                            proof {
                                let st_after = MState { buf: buf@, len: *len as nat, rng: self.rng };
                                assert(mut_nt_spec(g, c.0 as int, st_now, cur0 as int, cap) == (st_after, None::<nat>));
                                assert(mut_alt_spec(g, alt@, i as int, st_now, cur0 as int, cap) == (st_after, None::<nat>));
                                assert(mut_nt_spec(g, n as int, st0, step as int, cap) == (st_after, None::<nat>));
                                assert(st0 == MState { buf: old(buf)@, len: *old(len) as nat, rng: old(self).rng });
                                let sf = buf@.subrange(0, *len as int);
                                assert(sf[step as int] == t);
                                if *len == buf@.len() && pwalk(g, c.0 as int, sf, cur0 as int) is Short {
                                    assert(agree(s_before, sf, cur0 as int)) by {
                                        assert forall|j: int| 0 <= j < cur0 implies s_before[j] == sf[j] by {
                                            assert(s_before[j] == buf_before[j]);
                                            assert(buf@[j] == buf_before[j]);
                                        }
                                    }
                                    assert(pwalk_alt(g, alt@, 0, sf, step + 1) == pwalk_alt(g, alt@, i as int, sf, cur0 as int));
                                    assert(pwalk(g, n as int, sf, step as int) is Short);
                                } else {
                                    assert(cur0 < len_before);
                                    assert(len_before == l0);
                                    assert(buf@ =~= b0);
                                    assert(s_before == pfx);
                                    assert(agree(s_before, pfx, cur0 as int));
                                    assert(pwalk_alt(g, alt@, 0, pfx, step + 1) == pwalk_alt(g, alt@, i as int, pfx, cur0 as int));
                                    assert(pfx[step as int] == t);
                                    assert(pwalk(g, n as int, pfx, step as int) is Bad);
                                }
                            }
                            return None;
                        },
                    }
                },
            }
            i += 1;
        }
        proof {
            let sf = buf@.subrange(0, *len as int);
            assert(agree(sf, sf, cur as int));
            assert(ends(walk_alt(g, alt@, 0, sf, step + 1)) == ends(walk_alt(g, alt@, i as int, sf, cur as int)));
            assert(sf[step as int] == t);
            if pw {
                assert(ends(walk_alt(g, alt@, i as int, pfx, cur as int)) == Some(cur as nat));
            }
        }
        Some(cur)
    }

    /// Extend the derivation in `buf`: replay the tags below `len` and draw
    /// new ones past it, writing at most up to the end of `buf`. Returns the
    /// length of the derivation, or the length reached when `buf` is full.
    pub fn mutate_sequence(&mut self, buf: &mut Vec<usize>, len: usize) -> (r: usize)
        requires
            old(self).grammar.complete(),
            len <= old(buf)@.len(),
        ensures
            final(self).grammar == old(self).grammar,
            final(buf)@.len() == old(buf)@.len(),
            r <= final(buf)@.len(),
            forall|i: int| 0 <= i < len ==> final(buf)@[i] == old(buf)@[i],
            forall|i: int| 0 <= i < old(buf)@.len() && !(len <= i < r) ==> final(buf)@[i] == old(buf)@[i],
            old(buf)@.len() == 0 ==> r == 0,
            derives(final(self).grammar, final(buf)@.subrange(0, r as int)) || r == final(buf)@.len() || r == len,
            old(buf)@.len() > 0 ==> pwalk(final(self).grammar, final(self).grammar.entrypoint.0 as int, final(buf)@.subrange(0, r as int), 0)
                == Prefix::Done(r as nat) || (r == final(buf)@.len() && pwalk(
                final(self).grammar,
                final(self).grammar.entrypoint.0 as int,
                final(buf)@.subrange(0, r as int),
                0,
            ) is Short) || (r == len && final(buf)@ == old(buf)@ && pwalk(
                old(self).grammar,
                old(self).grammar.entrypoint.0 as int,
                old(buf)@.subrange(0, len as int),
                0,
            ) is Bad),
            len == 0 && old(buf)@.len() > 0 ==> r > 0 && (derives(final(self).grammar, final(buf)@.subrange(0, r as int))
                || r == final(buf)@.len()),
            ({
                let sp = mut_nt_spec(
                    old(self).grammar,
                    old(self).grammar.entrypoint.0 as int,
                    MState { buf: old(buf)@, len: len as nat, rng: old(self).rng },
                    0,
                    old(buf)@.len() as int,
                );
                &&& final(buf)@ == sp.0.buf
                &&& final(self).rng == sp.0.rng
                &&& r as nat == match sp.1 {
                    Some(e) => e,
                    None => sp.0.len,
                }
            }),
            ends(walk(old(self).grammar, old(self).grammar.entrypoint.0 as int, old(buf)@.subrange(0, len as int), 0)) is Some
                ==> r as nat == ends(walk(old(self).grammar, old(self).grammar.entrypoint.0 as int, old(buf)@.subrange(0, len as int), 0))->Some_0
                && final(buf)@ == old(buf)@ && derives(final(self).grammar, final(buf)@.subrange(0, r as int)),
    {
        if buf.len() == 0 {
            return 0;
        }
        let mut cur_len = len;
        let ep = self.grammar.entrypoint.0;
        match self.mutate_nt(ep, buf, &mut cur_len, 0) {
            Some(e) => {
                proof {
                    let g = self.grammar;
                    let sf = buf@.subrange(0, cur_len as int);
                    let se = buf@.subrange(0, e as int);
                    lemma_walk_bounds(g, ep as int, sf, 0);
                    lemma_walk_frame(g, ep as int, sf, se, 0);
                    lemma_walk_pwalk(g, ep as int, se, 0);
                }
                e
            },
            None => {
                proof {
                    let g = self.grammar;
                    if cur_len == len {
                        assert(buf@.subrange(0, cur_len as int) =~= old(buf)@.subrange(0, len as int));
                    }
                }
                cur_len
            },
        }
    }
}

/// Some entry of `r` is `a`.
pub open spec fn has_index(r: Seq<usize>, a: int) -> bool {
    exists|i: int| 0 <= i < r.len() && r[i] as int == a
}

/// Longer first: compares two `(index, length)` pairs by length, descending.
pub fn longer_first(a: &(usize, usize), b: &(usize, usize)) -> (r: Ordering)
    ensures
        r == (if a.1 > b.1 {
            Ordering::Less
        } else if a.1 < b.1 {
            Ordering::Greater
        } else {
            Ordering::Equal
        }),
{
    if a.1 > b.1 {
        Ordering::Less
    } else if a.1 < b.1 {
        Ordering::Greater
    } else {
        Ordering::Equal
    }
}

/// `p` orders the indices of `pairs` by decreasing length, pairs of equal
/// length in their given order, and `r` lists the first components in that order.
pub open spec fn sorted_with(pairs: Seq<(usize, usize)>, r: Seq<usize>, p: Seq<int>) -> bool {
    &&& p.len() == pairs.len()
    &&& r.len() == pairs.len()
    &&& forall|i: int| 0 <= i < p.len() ==> 0 <= #[trigger] p[i] < pairs.len() && r[i] == pairs[p[i]].0
    &&& forall|a: int| #![trigger pairs[a]] 0 <= a < pairs.len() ==> exists|i: int| 0 <= i < p.len() && #[trigger] p[i] == a
    &&& forall|i: int, j: int| 0 <= i < j < p.len() ==> pairs[#[trigger] p[i]].1 > pairs[#[trigger] p[j]].1
        || (pairs[p[i]].1 == pairs[p[j]].1 && p[i] < p[j])
}

/// `r` holds the first components of `pairs`, sorted by decreasing length
/// and stable among equal lengths.
pub open spec fn sorted_longest(pairs: Seq<(usize, usize)>, r: Seq<usize>) -> bool {
    exists|p: Seq<int>| #[trigger] sorted_with(pairs, r, p)
}

/// Relies on itertools' `sorted_by`, which collects the items and sorts them
/// with std's stable `sort_by`: the pairs come out ordered by `longer_first`,
/// pairs that compare equal in their given order.
#[verifier::external_body]
fn sorted_longest_first(pairs: Vec<(usize, usize)>) -> (r: Vec<usize>)
    ensures
        r@.len() == pairs@.len(),
        sorted_longest(pairs@, r@),
{
    pairs.into_iter().sorted_by(|a, b| longer_first(a, b)).map(|p| p.0).collect()
}

/// The alternatives of `alts` by decreasing length, equal lengths in their own order.
pub fn alternative_order(alts: &Vec<Vec<LLSymbol>>) -> (r: Vec<usize>)
    ensures
        r@.len() == alts@.len(),
        forall|i: int| 0 <= i < r@.len() ==> (#[trigger] r@[i]) < alts@.len(),
        forall|i: int, j: int| 0 <= i < j < r@.len() ==> alts@[r@[i] as int]@.len() > alts@[r@[j] as int]@.len()
            || (alts@[r@[i] as int]@.len() == alts@[r@[j] as int]@.len() && r@[i] < r@[j]),
        forall|a: int| 0 <= a < alts@.len() ==> #[trigger] has_index(r@, a),
{
    let mut pairs: Vec<(usize, usize)> = Vec::new();
    let mut a: usize = 0;
    while a < alts.len()
        invariant
            a <= alts@.len(),
            pairs@.len() == a,
            forall|i: int| 0 <= i < a ==> (#[trigger] pairs@[i]).0 == i && pairs@[i].1 == alts@[i]@.len(),
        decreases alts@.len() - a,
    {
        pairs.push((a, alts[a].len()));
        a += 1;
    }
    let ghost ps = pairs@;
    let r = sorted_longest_first(pairs);
    proof {
        assert(sorted_longest(ps, r@));
        let p = choose|p: Seq<int>| #[trigger] sorted_with(ps, r@, p);
        assert forall|i: int| 0 <= i < r@.len() implies r@[i] as int == p[i] && #[trigger] r@[i] < alts@.len() by {
            assert(ps[p[i]].0 == p[i]);
        }
        assert forall|a: int| 0 <= a < alts@.len() implies #[trigger] has_index(r@, a) by {
            assert(ps[a].0 == a);
            let i = choose|i: int| 0 <= i < p.len() && #[trigger] p[i] == a;
            assert(r@[i] as int == p[i]);
        }
        assert forall|i: int, j: int| 0 <= i < j < r@.len() implies alts@[r@[i] as int]@.len() > alts@[r@[j] as int]@.len()
            || (alts@[r@[i] as int]@.len() == alts@[r@[j] as int]@.len() && r@[i] < r@[j]) by {
            assert(r@[i] as int == p[i]);
            assert(r@[j] as int == p[j]);
            assert(ps[p[i]].1 == alts@[p[i]]@.len());
            assert(ps[p[j]].1 == alts@[p[j]]@.len());
        }
    }
    r
}

impl Generator {
    fn match_terminal(&self, t: usize, input: &[u8], at: usize) -> (r: bool)
        requires
            t < self.grammar.terminals@.len(),
            at <= input@.len(),
        ensures
            r == (at + tbytes(self.grammar, t as int).len() <= input@.len()
                && input@.subrange(at as int, at + tbytes(self.grammar, t as int).len()) == tbytes(self.grammar, t as int)),
    {
        let bytes = self.grammar.terminals[t].as_str().as_bytes();
        assert(bytes@ == tbytes(self.grammar, t as int));
        let input_len = input.len();
        if bytes.len() > input_len - at {
            return false;
        }
        let mut j: usize = 0;
        while j < bytes.len()
            invariant
                j <= bytes@.len(),
                input_len == input@.len(),
                bytes@ == tbytes(self.grammar, t as int),
                at + bytes@.len() <= input@.len(),
                forall|m: int| 0 <= m < j ==> input@[at + m] == bytes@[m],
            decreases bytes@.len() - j,
        {
            assert(at + j < input@.len());
            if input[at + j] != bytes[j] {
                assert(input@.subrange(at as int, at + bytes@.len())[j as int] != bytes@[j as int]);
                assert(input@.subrange(at as int, at + bytes@.len()) != bytes@);
                return false;
            }
            j += 1;
        }
        assert(input@.subrange(at as int, at + bytes@.len()) =~= bytes@);
        true
    }

    fn unparse_nt(&self, n: usize, seq: &mut Vec<usize>, cap: usize, input: &[u8], cursor: usize) -> (r: Option<usize>)
        requires
            self.grammar.wf(),
            n < self.grammar.rules@.len(),
            old(seq)@.len() <= cap,
            cursor <= input@.len(),
        ensures
            r is None ==> final(seq)@ == old(seq)@,
            r is Some ==> cursor <= r->Some_0 <= input@.len(),
            r is Some ==> old(seq)@.len() < final(seq)@.len() <= cap,
            r is Some ==> final(seq)@.subrange(0, old(seq)@.len() as int) == old(seq)@,
            r is Some ==> walk(self.grammar, n as int, final(seq)@, old(seq)@.len() as int) == Some(
                (final(seq)@.len(), input@.subrange(cursor as int, r->Some_0 as int)),
            ),
        decreases cap - old(seq)@.len(),
    {
        let ghost g = self.grammar;
        let ghost s0 = seq@;
        let input_len = input.len();
        let idx = seq.len();
        if idx >= cap {
            return None;
        }
        let alts = &self.grammar.rules[n];
        let order = alternative_order(alts);
        let mut best_cursor: usize = 0;
        let mut best: Option<Vec<usize>> = None;
        let mut o: usize = 0;
        while o < order.len()
            invariant
                g == self.grammar,
                g.wf(),
                n < g.rules@.len(),
                *alts == g.rules@[n as int],
                idx == s0.len(),
                s0 == old(seq)@,
                idx < cap,
                input_len == input@.len(),
                cursor <= input@.len(),
                forall|i: int| 0 <= i < order@.len() ==> (#[trigger] order@[i]) < alts@.len(),
                seq@.len() >= idx,
                seq@.subrange(0, idx as int) == s0,
                best is Some ==> cursor <= best_cursor <= input@.len(),
                best is Some ==> ({
                    let sb = s0 + best->Some_0@;
                    &&& sb.len() <= cap
                    &&& sb.len() > idx
                    &&& walk(g, n as int, sb, idx as int) == Some((sb.len(), input@.subrange(cursor as int, best_cursor as int)))
                }),
            decreases order@.len() - o,
        {
            let a = order[o];
            seq.truncate(idx);
            seq.push(a);
            assert(seq@.subrange(0, idx as int) =~= s0);
            let alt = &alts[a];
            assert(alt_ok(alt@, g.terminals@.len(), g.nonterminals@.len()));
            let ghost s1 = seq@;
            let mut tmp = cursor;
            let mut ok = true;
            let mut k: usize = 0;
            assert(input@.subrange(cursor as int, cursor as int) =~= Seq::<u8>::empty());
            while ok && k < alt.len()
                invariant
                    g == self.grammar,
                    g.wf(),
                    alt_ok(alt@, g.terminals@.len(), g.nonterminals@.len()),
                    k <= alt@.len(),
                    idx == s0.len(),
                    s0 == old(seq)@,
                    input_len == input@.len(),
                    idx < seq@.len() <= cap,
                    seq@.subrange(0, idx as int) == s0,
                    seq@[idx as int] == a,
                    cursor <= tmp <= input@.len(),
                    forall|x: Seq<usize>|
                        agree(seq@, x, seq@.len() as int) ==> #[trigger] walk_alt(g, alt@, 0, x, idx + 1) == prepend(
                            input@.subrange(cursor as int, tmp as int),
                            walk_alt(g, alt@, k as int, x, seq@.len() as int),
                        ),
                decreases alt@.len() - k + if ok { 1int } else { 0int },
            {
                let ghost consumed = input@.subrange(cursor as int, tmp as int);
                let ghost sb = seq@;
                match alt[k] {
                    LLSymbol::Terminal(term) => {
                        if !self.match_terminal(term.0, input, tmp) {
                            ok = false;
                            continue;
                        }
                        let ghost tb = tbytes(g, term.0 as int);
                        let tlen = self.grammar.terminals[term.0].as_str().as_bytes().len();
                        assert(tlen == tb.len());
                        let new_tmp = tmp + tlen;
                        proof {
                            assert(input@.subrange(cursor as int, new_tmp as int) =~= consumed + tb);
                            assert forall|x: Seq<usize>|
                                agree(seq@, x, seq@.len() as int) implies #[trigger] walk_alt(g, alt@, 0, x, idx + 1) == prepend(
                                    input@.subrange(cursor as int, new_tmp as int),
                                    walk_alt(g, alt@, k as int + 1, x, seq@.len() as int),
                                ) by {
                                let w = walk_alt(g, alt@, k as int + 1, x, seq@.len() as int);
                                if w is Some {
                                    assert(consumed + (tb + w->Some_0.1) =~= (consumed + tb) + w->Some_0.1);
                                }
                            }
                        }
                        tmp = new_tmp;
                    },
                    LLSymbol::NonTerminal(c) => {
                        let len_before = seq.len();
                        match self.unparse_nt(c.0, seq, cap, input, tmp) {
                            Some(c2) => {
                                proof {
                                    let cb = input@.subrange(tmp as int, c2 as int);
                                    assert(input@.subrange(cursor as int, c2 as int) =~= consumed + cb);
                                    assert(seq@.subrange(0, idx as int) =~= s0) by {
                                        assert(seq@.subrange(0, len_before as int) == sb);
                                        assert(seq@.subrange(0, idx as int) =~= sb.subrange(0, idx as int));
                                    }
                                    assert(seq@[idx as int] == a) by {
                                        assert(seq@.subrange(0, len_before as int) == sb);
                                        assert(seq@[idx as int] == seq@.subrange(0, len_before as int)[idx as int]);
                                    }
                                    assert forall|x: Seq<usize>|
                                        agree(seq@, x, seq@.len() as int) implies #[trigger] walk_alt(g, alt@, 0, x, idx + 1) == prepend(
                                            input@.subrange(cursor as int, c2 as int),
                                            walk_alt(g, alt@, k as int + 1, x, seq@.len() as int),
                                        ) by {
                                        assert(agree(sb, x, sb.len() as int)) by {
                                            assert forall|j: int| 0 <= j < sb.len() implies sb[j] == x[j] by {
                                                assert(seq@.subrange(0, len_before as int)[j] == seq@[j]);
                                            }
                                        }
                                        lemma_walk_bounds(g, c.0 as int, seq@, len_before as int);
                                        lemma_walk_frame(g, c.0 as int, seq@, x, len_before as int);
                                        let w = walk_alt(g, alt@, k as int + 1, x, seq@.len() as int);
                                        if w is Some {
                                            assert(consumed + (cb + w->Some_0.1) =~= (consumed + cb) + w->Some_0.1);
                                        }
                                    }
                                }
                                tmp = c2;
                            },
                            None => {
                                ok = false;
                                continue;
                            },
                        }
                    },
                }
                k += 1;
            }
            if ok && tmp > best_cursor {
                proof {
                    let sf = seq@;
                    assert(k >= alt@.len());
                    assert(agree(sf, sf, sf.len() as int));
                    assert(walk_alt(g, alt@, 0, sf, idx + 1) == prepend(
                        input@.subrange(cursor as int, tmp as int),
                        walk_alt(g, alt@, k as int, sf, sf.len() as int),
                    ));
                    assert(walk_alt(g, alt@, k as int, sf, sf.len() as int) == Some((sf.len(), Seq::<u8>::empty())));
                    assert(input@.subrange(cursor as int, tmp as int) + Seq::<u8>::empty() =~= input@.subrange(cursor as int, tmp as int));
                    assert(sf[idx as int] == a);
                    assert(alts@[a as int]@ == alt@);
                    assert(a < g.rules@[n as int]@.len());
                    assert(walk(g, n as int, sf, idx as int) == Some((sf.len(), input@.subrange(cursor as int, tmp as int))));
                }
                let ghost sf = seq@;
                let tail = seq.split_off(idx);
                proof {
                    assert(s0 + tail@ =~= sf);
                    assert(sf.len() <= cap);
                }
                seq.extend_from_slice(tail.as_slice());
                best_cursor = tmp;
                best = Some(tail);
            }
            o += 1;
        }
        seq.truncate(idx);
        assert(seq@ =~= s0);
        match best {
            Some(tail) => {
                let ghost before = seq@;
                seq.extend_from_slice(tail.as_slice());
                assert(seq@ =~= s0 + tail@);
                assert(seq@.subrange(0, idx as int) =~= s0);
                Some(best_cursor)
            },
            None => None,
        }
    }

    /// Reconstruct a derivation of a prefix of `input` from the entrypoint,
    /// with at most `seq_capacity` tags. Each non-terminal takes, among its
    /// alternatives tried longest first, the one that reaches furthest.
    /// Returns the derivation, or an empty one when nothing matched.
    pub fn unparse_sequence(&self, seq_capacity: usize, input: &[u8]) -> (r: Vec<usize>)
        requires
            self.grammar.wf(),
        ensures
            r@.len() <= seq_capacity,
            input@.len() == 0 ==> r@.len() == 0,
            r@.len() > 0 ==> derives(self.grammar, r@),
            r@.len() > 0 ==> exists|e: int|
                0 < e <= input@.len() && walk(self.grammar, self.grammar.entrypoint.0 as int, r@, 0)
                    == Some((r@.len(), input@.subrange(0, e))),
    {
        let mut seq: Vec<usize> = Vec::new();
        if seq_capacity == 0 || input.len() == 0 {
            return seq;
        }
        match self.unparse_nt(self.grammar.entrypoint.0, &mut seq, seq_capacity, input, 0) {
            Some(e) => {
                proof {
                    lemma_walk_bounds(self.grammar, self.grammar.entrypoint.0 as int, seq@, 0);
                }
                if e == 0 {
                    return Vec::new();
                }
                seq
            },
            None => seq,
        }
    }
}

/// A sequence that unparsing returns is a complete derivation, and it
/// serializes back to the part of the input that unparsing consumed.
pub proof fn lemma_unparse_serializes_back(g: LowLevelGrammar, input: Seq<u8>, s: Seq<usize>)
    requires
        s.len() > 0,
        exists|e: int|
            0 < e <= input.len() && walk(g, g.entrypoint.0 as int, s, 0) == Some((s.len(), input.subrange(0, e))),
    ensures
        derives(g, s),
        exists|e: int| 0 < e <= input.len() && walk(g, g.entrypoint.0 as int, s, 0)->Some_0.1 == input.subrange(0, e),
{
    let e = choose|e: int|
        0 < e <= input.len() && walk(g, g.entrypoint.0 as int, s, 0) == Some((s.len(), input.subrange(0, e)));
    assert(walk(g, g.entrypoint.0 as int, s, 0)->Some_0.1 == input.subrange(0, e));
}

/// The derivation of `b` that follows a derivation `o` of earlier symbols.
pub open spec fn then_walk(g: LowLevelGrammar, o: Option<(nat, Seq<u8>)>, b: Seq<LLSymbol>, s: Seq<usize>) -> Option<(nat, Seq<u8>)> {
    match o {
        Some((e, bytes)) => prepend(bytes, walk_alt(g, b, 0, s, e as int)),
        None => None,
    }
}

/// Walking the symbols of `a` from index `k` on is walking its suffix from the start.
pub proof fn lemma_walk_alt_suffix(g: LowLevelGrammar, a: Seq<LLSymbol>, k: int, s: Seq<usize>, step: int)
    requires
        0 <= k <= a.len(),
    ensures
        walk_alt(g, a, k, s, step) == walk_alt(g, a.subrange(k, a.len() as int), 0, s, step),
    decreases s.len() - step, a.len() - k + 1,
{
    let t = a.subrange(k, a.len() as int);
    if k < a.len() && 0 <= step <= s.len() {
        assert(t[0] == a[k]);
        assert(t.subrange(1, t.len() as int) =~= a.subrange(k + 1, a.len() as int));
        lemma_walk_alt_suffix(g, t, 1, s, step);
        match a[k] {
            LLSymbol::Terminal(_) => {
                lemma_walk_alt_suffix(g, a, k + 1, s, step);
            },
            LLSymbol::NonTerminal(c) => {
                match walk(g, c.0 as int, s, step) {
                    Some((e, _)) => {
                        if step < e <= s.len() {
                            lemma_walk_alt_suffix(g, a, k + 1, s, e as int);
                            lemma_walk_alt_suffix(g, t, 1, s, e as int);
                        }
                    },
                    None => {},
                }
            },
        }
    }
}

/// Walking `a + b` is walking `a`, then `b` from where `a` ended.
pub proof fn lemma_walk_alt_concat(g: LowLevelGrammar, a: Seq<LLSymbol>, b: Seq<LLSymbol>, k: int, s: Seq<usize>, step: int)
    requires
        0 <= k <= a.len(),
    ensures
        walk_alt(g, a + b, k, s, step) == then_walk(g, walk_alt(g, a, k, s, step), b, s),
    decreases s.len() - step, a.len() - k + 1,
{
    if 0 <= step <= s.len() {
        if k == a.len() {
            lemma_walk_alt_suffix(g, a + b, k, s, step);
            assert((a + b).subrange(k, (a + b).len() as int) =~= b);
            let w = walk_alt(g, b, 0, s, step);
            if w is Some {
                assert(Seq::<u8>::empty() + w->Some_0.1 =~= w->Some_0.1);
            }
        } else {
            assert((a + b)[k] == a[k]);
            match a[k] {
                LLSymbol::Terminal(t) => {
                    lemma_walk_alt_concat(g, a, b, k + 1, s, step);
                    let w = walk_alt(g, a, k + 1, s, step);
                    if w is Some {
                        let r = walk_alt(g, b, 0, s, w->Some_0.0 as int);
                        if r is Some {
                            assert(tbytes(g, t.0 as int) + (w->Some_0.1 + r->Some_0.1) =~= (tbytes(g, t.0 as int) + w->Some_0.1) + r->Some_0.1);
                        }
                    }
                },
                LLSymbol::NonTerminal(c) => {
                    match walk(g, c.0 as int, s, step) {
                        Some((e, b1)) => {
                            if step < e <= s.len() {
                                lemma_walk_alt_concat(g, a, b, k + 1, s, e as int);
                                let w = walk_alt(g, a, k + 1, s, e as int);
                                if w is Some {
                                    let r = walk_alt(g, b, 0, s, w->Some_0.0 as int);
                                    if r is Some {
                                        assert(b1 + (w->Some_0.1 + r->Some_0.1) =~= (b1 + w->Some_0.1) + r->Some_0.1);
                                    }
                                }
                            }
                        },
                        None => {},
                    }
                },
            }
        }
    }
}

} // verus!
