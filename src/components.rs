use vstd::prelude::*;

use crate::generator::{derives, ends, lemma_walk_bounds, walk, Generator};

verus! {

/// The two grammar file formats.
#[derive(Debug, Copy, Clone, PartialEq, Eq, Structural)]
pub enum GrammarFormat {
    Peacock,
    Gramatron,
}

impl GrammarFormat {
    /// The format's name as the command line writes it.
    pub fn name(&self) -> (r: &'static str)
        ensures
            *self == GrammarFormat::Peacock ==> r@ == "peacock"@,
            *self == GrammarFormat::Gramatron ==> r@ == "gramatron"@,
    {
        match self {
            GrammarFormat::Peacock => "peacock",
            GrammarFormat::Gramatron => "gramatron",
        }
    }
}

/// A fuzzing input: a derivation sequence.
#[derive(Debug, Clone)]
pub struct PeacockInput {
    pub sequence: Vec<usize>,
}

impl PeacockInput {
    pub fn new(sequence: Vec<usize>) -> (r: PeacockInput)
        ensures
            r.sequence == sequence,
    {
        PeacockInput { sequence }
    }

    pub fn sequence(&self) -> (r: &[usize])
        ensures
            r@ == self.sequence@,
    {
        self.sequence.as_slice()
    }

    pub fn sequence_mut(&mut self) -> (r: &mut Vec<usize>)
        ensures
            *r == old(self).sequence,
            final(self).sequence == *final(r),
    {
        &mut self.sequence
    }
}

/// Resize `buf` to `capacity` tags, keeping the first `len`, run mutation on
/// it, and cut it back to the length that mutation returned.
fn mutate_into(generator: &mut Generator, seq: &mut Vec<usize>, len: usize, capacity: usize)
    requires
        old(generator).grammar.complete(),
        len <= old(seq)@.len(),
        len <= capacity,
    ensures
        final(generator).grammar == old(generator).grammar,
        final(seq)@.len() <= capacity,
        forall|i: int| 0 <= i < len && i < final(seq)@.len() ==> final(seq)@[i] == old(seq)@[i],
        derives(final(generator).grammar, final(seq)@) || final(seq)@.len() == capacity || final(seq)@.len() == len,
        len == 0 && capacity > 0 ==> final(seq)@.len() > 0 && (derives(final(generator).grammar, final(seq)@)
            || final(seq)@.len() == capacity),
        ends(walk(old(generator).grammar, old(generator).grammar.entrypoint.0 as int, old(seq)@.subrange(0, len as int), 0)) is Some
            ==> derives(final(generator).grammar, final(seq)@) && final(seq)@ == old(seq)@.subrange(0, final(seq)@.len() as int),
{
    let ghost s0 = seq@;
    seq.truncate(len);
    assert(seq@ == s0.subrange(0, len as int));
    seq.resize(capacity, 0);
    assert(forall|i: int| 0 <= i < len ==> seq@[i] == s0[i]) by {
        if len < capacity {
            assert(forall|i: int| 0 <= i < len ==> seq@.subrange(0, len as int)[i] == seq@[i]);
        }
    }
    let ghost s1 = seq@;
    assert(s1.subrange(0, len as int) =~= s0.subrange(0, len as int));
    let new_len = generator.mutate_sequence(seq, len);
    let ghost s2 = seq@;
    seq.truncate(new_len);
    assert(forall|i: int| 0 <= i < new_len ==> seq@[i] == s2[i]);
    assert(seq@ =~= s2.subrange(0, new_len as int));
    proof {
        if ends(walk(generator.grammar, generator.grammar.entrypoint.0 as int, s0.subrange(0, len as int), 0)) is Some {
            lemma_walk_bounds(generator.grammar, generator.grammar.entrypoint.0 as int, s0.subrange(0, len as int), 0);
            assert(seq@ =~= s0.subrange(0, new_len as int));
        }
    }
}

/// This component generates new inputs from scratch.
pub struct PeacockGenerator;

impl PeacockGenerator {
    /// Create a new generator.
    pub fn new() -> PeacockGenerator {
        PeacockGenerator
    }

    /// A new input: a derivation drawn from scratch with at most `capacity` tags.
    pub fn generate(&self, generator: &mut Generator, capacity: usize) -> (r: PeacockInput)
        requires
            old(generator).grammar.complete(),
        ensures
            final(generator).grammar == old(generator).grammar,
            r.sequence@.len() <= capacity,
            derives(final(generator).grammar, r.sequence@) || r.sequence@.len() == capacity || r.sequence@.len() == 0,
            capacity > 0 ==> r.sequence@.len() > 0 && (derives(final(generator).grammar, r.sequence@) || r.sequence@.len()
                == capacity),
    {
        let mut seq: Vec<usize> = Vec::new();
        mutate_into(generator, &mut seq, 0, capacity);
        PeacockInput { sequence: seq }
    }
}

/// This component implements grammar-based mutations.
pub struct PeacockMutator;

impl PeacockMutator {
    /// Create a new mutator.
    pub fn new() -> PeacockMutator {
        PeacockMutator
    }

    /// Keep the first `keep` tags of `input` and draw the rest anew, with at
    /// most `capacity` tags in all.
    pub fn mutate(&self, generator: &mut Generator, input: &mut PeacockInput, keep: usize, capacity: usize)
        requires
            old(generator).grammar.complete(),
            keep <= old(input).sequence@.len(),
            keep <= capacity,
        ensures
            final(generator).grammar == old(generator).grammar,
            final(input).sequence@.len() <= capacity,
            forall|i: int| 0 <= i < keep && i < final(input).sequence@.len() ==> final(input).sequence@[i] == old(input).sequence@[i],
            derives(final(generator).grammar, final(input).sequence@) || final(input).sequence@.len() == capacity
                || final(input).sequence@.len() == keep,
            keep == 0 && capacity > 0 ==> final(input).sequence@.len() > 0 && (derives(final(generator).grammar, final(input).sequence@)
                || final(input).sequence@.len() == capacity),
            ends(walk(old(generator).grammar, old(generator).grammar.entrypoint.0 as int, old(input).sequence@.subrange(0, keep as int), 0)) is Some
                ==> derives(final(generator).grammar, final(input).sequence@)
                && final(input).sequence@ == old(input).sequence@.subrange(0, final(input).sequence@.len() as int),
    {
        mutate_into(generator, &mut input.sequence, keep, capacity);
    }
}

/// The file-name prefix of inputs stored as raw derivation sequences.
pub const BINARY_PREFIX: &'static str = "peacock-raw-";

/// The value of the little-endian 8-byte word at `b[8 * i ..]`.
pub open spec fn word_at(b: Seq<u8>, i: int) -> int {
    b[8 * i] as int + 256 * (b[8 * i + 1] as int + 256 * (b[8 * i + 2] as int + 256 * (b[8 * i + 3] as int
        + 256 * (b[8 * i + 4] as int + 256 * (b[8 * i + 5] as int + 256 * (b[8 * i + 6] as int + 256 * (b[8 * i
        + 7] as int)))))))
}

/// Whether `name` starts with the raw-input prefix.
pub fn is_raw_name(name: &str) -> (r: bool)
    ensures
        r == (name@.len() >= BINARY_PREFIX@.len() && name@.subrange(0, BINARY_PREFIX@.len() as int) == BINARY_PREFIX@),
{
    let n = name.unicode_len();
    let p = BINARY_PREFIX.unicode_len();
    if n < p {
        return false;
    }
    let mut i: usize = 0;
    while i < p
        invariant
            i <= p,
            p == BINARY_PREFIX@.len(),
            p <= n,
            n == name@.len(),
            forall|k: int| 0 <= k < i ==> name@[k] == BINARY_PREFIX@[k],
        decreases p - i,
    {
        if name.get_char(i) != BINARY_PREFIX.get_char(i) {
            assert(name@.subrange(0, p as int)[i as int] != BINARY_PREFIX@[i as int]);
            return false;
        }
        i += 1;
    }
    assert(name@.subrange(0, p as int) =~= BINARY_PREFIX@);
    true
}

/// The tags of a raw input: its bytes read as little-endian 8-byte words.
/// Fails when the length is not a multiple of eight or a word does not fit
/// in `usize`.
pub fn decode_raw(bytes: &[u8]) -> (r: Option<Vec<usize>>)
    ensures
        r is Some ==> bytes@.len() % 8 == 0 && r->Some_0@.len() == bytes@.len() / 8,
        r is Some ==> forall|i: int| 0 <= i < r->Some_0@.len() ==> r->Some_0@[i] as int == word_at(bytes@, i),
        bytes@.len() % 8 != 0 ==> r is None,
        bytes@.len() % 8 == 0 && (forall|i: int| 0 <= i < bytes@.len() / 8 ==> word_at(bytes@, i) <= usize::MAX)
            ==> r is Some,
{
    if bytes.len() % 8 != 0 {
        return None;
    }
    let blen = bytes.len();
    let n = blen / 8;
    let mut out: Vec<usize> = Vec::new();
    let mut i: usize = 0;
    while i < n
        invariant
            blen == bytes@.len(),
            i <= n,
            n == bytes@.len() / 8,
            bytes@.len() % 8 == 0,
            out@.len() == i,
            forall|k: int| 0 <= k < i ==> out@[k] as int == word_at(bytes@, k),
        decreases n - i,
    {
        let base = 8 * i;
        let mut v: u128 = 0;
        let mut j: usize = 8;
        while j > 0
            invariant
                j <= 8,
                i < n,
                blen == bytes@.len(),
                base == 8 * i,
                n == bytes@.len() / 8,
                bytes@.len() % 8 == 0,
                v as int == partial_word(bytes@, base as int, j as int),
                v < pow256(8 - j),
            decreases j,
        {
            j -= 1;
            let byte = bytes[base + j];
            proof {
                lemma_pow256_step(7 - j);
                lemma_pow256_eight();
                let p = pow256(7 - j);
                assert(v < p);
                assert(v * 256 + byte < 256 * p) by (nonlinear_arith)
                    requires
                        v < p,
                        byte < 256,
                ;
            }
            v = v * 256 + byte as u128;
        }
        proof {
            lemma_partial_word(bytes@, i as int);
        }
        if v > usize::MAX as u128 {
            return None;
        }
        out.push(v as usize);
        i += 1;
    }
    Some(out)
}

/// The value of the bytes `b[base + j .. base + 8]`, read little-endian.
pub open spec fn partial_word(b: Seq<u8>, base: int, j: int) -> int
    decreases 8 - j,
{
    if j >= 8 {
        0
    } else {
        b[base + j] as int + 256 * partial_word(b, base, j + 1)
    }
}

pub open spec fn pow256(k: int) -> int
    decreases k,
{
    if k <= 0 {
        1
    } else {
        256 * pow256(k - 1)
    }
}

proof fn lemma_pow256_step(k: int)
    requires
        0 <= k < 8,
    ensures
        pow256(k + 1) == 256 * pow256(k),
        pow256(k + 1) <= pow256(8),
{
    reveal_with_fuel(pow256, 9);
    if k == 0 {} else if k == 1 {} else if k == 2 {} else if k == 3 {} else if k == 4 {} else if k == 5 {} else if k == 6 {} else {}
}

proof fn lemma_pow256_eight()
    ensures
        pow256(8) == 0x1_0000_0000_0000_0000,
{
    reveal_with_fuel(pow256, 9);
}

proof fn lemma_partial_word(b: Seq<u8>, i: int)
    ensures
        partial_word(b, 8 * i, 0) == word_at(b, i),
{
    reveal_with_fuel(partial_word, 9);
}

impl PeacockInput {
    /// The input stored in a file called `name` with contents `bytes`: a raw
    /// derivation sequence when the name has the raw prefix, otherwise a
    /// concrete output that is unparsed into a derivation.
    pub fn from_bytes(name: &str, bytes: &[u8], generator: &Generator, capacity: usize) -> (r: Option<PeacockInput>)
        requires
            generator.grammar.wf(),
        ensures
            r is Some && !is_raw_spec(name@) ==> r->Some_0.sequence@.len() > 0 && derives(generator.grammar, r->Some_0.sequence@),
            r is Some && is_raw_spec(name@) ==> r->Some_0.sequence@.len() == bytes@.len() / 8,
            r is Some && is_raw_spec(name@) ==> forall|i: int| 0 <= i < r->Some_0.sequence@.len()
                ==> r->Some_0.sequence@[i] as int == word_at(bytes@, i),
            is_raw_spec(name@) && bytes@.len() % 8 == 0 && (forall|i: int| 0 <= i < bytes@.len() / 8 ==> word_at(bytes@, i) <= usize::MAX)
                ==> r is Some,
    {
        if is_raw_name(name) {
            match decode_raw(bytes) {
                Some(seq) => Some(PeacockInput { sequence: seq }),
                None => None,
            }
        } else {
            let seq = generator.unparse_sequence(capacity, bytes);
            if seq.len() == 0 {
                None
            } else {
                Some(PeacockInput { sequence: seq })
            }
        }
    }
}

/// The name has the raw-input prefix.
pub open spec fn is_raw_spec(name: Seq<char>) -> bool {
    name.len() >= BINARY_PREFIX@.len() && name.subrange(0, BINARY_PREFIX@.len() as int) == BINARY_PREFIX@
}

} // verus!
