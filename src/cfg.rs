use vstd::prelude::*;

verus! {

/// A symbol of a grammar as a mathematical value: a terminal carries its text,
/// a non-terminal its name.
pub ghost enum Sym {
    T(Seq<char>),
    N(Seq<char>),
}

/// A production rule as a mathematical value.
pub ghost struct RuleV {
    pub lhs: Seq<char>,
    pub rhs: Seq<Sym>,
}

/// A grammar as a mathematical value: its rules in order and its start symbol.
pub ghost struct GrammarV {
    pub rules: Seq<RuleV>,
    pub start: Seq<char>,
}

/// This type represents a non-terminal in a context-free grammar.
#[derive(Debug, Clone)]
pub struct NonTerminal(pub(crate) String);

impl View for NonTerminal {
    type V = Seq<char>;

    closed spec fn view(&self) -> Seq<char> {
        self.0@
    }
}

impl NonTerminal {
    pub fn new(s: String) -> (r: NonTerminal)
        ensures
            r@ == s@,
    {
        NonTerminal(s)
    }

    /// The id of a non-terminal is its name from the grammar files.
    pub fn id(&self) -> (r: &str)
        ensures
            r@ == self@,
    {
        self.0.as_str()
    }

    pub(crate) fn dup(&self) -> (r: NonTerminal)
        ensures
            r@ == self@,
    {
        NonTerminal(self.0.clone())
    }

    pub(crate) fn same(&self, o: &NonTerminal) -> (r: bool)
        ensures
            r == (self@ == o@),
    {
        self.0 == o.0
    }

    pub(crate) fn is_named(&self, name: &String) -> (r: bool)
        ensures
            r == (self@ == name@),
    {
        self.0 == *name
    }
}

/// This type represents a terminal in a context-free grammar.
#[derive(Debug, Clone)]
pub struct Terminal(pub(crate) String);

impl View for Terminal {
    type V = Seq<char>;

    closed spec fn view(&self) -> Seq<char> {
        self.0@
    }
}

impl Terminal {
    pub fn new(s: String) -> (r: Terminal)
        ensures
            r@ == s@,
    {
        Terminal(s)
    }

    /// The data of the terminal.
    pub fn content(&self) -> (r: &str)
        ensures
            r@ == self@,
    {
        self.0.as_str()
    }

    pub(crate) fn dup(&self) -> (r: Terminal)
        ensures
            r@ == self@,
    {
        Terminal(self.0.clone())
    }
}

/// The right-hand side of a production rule is a sequence of Symbols.
#[derive(Debug, Clone)]
pub enum Symbol {
    Terminal(Terminal),
    NonTerminal(NonTerminal),
}

impl View for Symbol {
    type V = Sym;

    open spec fn view(&self) -> Sym {
        match self {
            Symbol::Terminal(t) => Sym::T(t@),
            Symbol::NonTerminal(n) => Sym::N(n@),
        }
    }
}

impl Symbol {
    /// Return whether the Symbol is a terminal
    pub fn is_terminal(&self) -> (r: bool)
        ensures
            r == self@ is T,
    {
        match self {
            Symbol::Terminal(_) => true,
            Symbol::NonTerminal(_) => false,
        }
    }

    /// Return whether the Symbol is a non-terminal
    pub fn is_non_terminal(&self) -> (r: bool)
        ensures
            r == self@ is N,
    {
        match self {
            Symbol::Terminal(_) => false,
            Symbol::NonTerminal(_) => true,
        }
    }

    pub(crate) fn dup(&self) -> (r: Symbol)
        ensures
            r@ == self@,
    {
        match self {
            Symbol::Terminal(t) => Symbol::Terminal(t.dup()),
            Symbol::NonTerminal(n) => Symbol::NonTerminal(n.dup()),
        }
    }

    pub(crate) fn same(&self, o: &Symbol) -> (r: bool)
        ensures
            r == (self@ == o@),
    {
        match (self, o) {
            (Symbol::Terminal(a), Symbol::Terminal(b)) => a.0 == b.0,
            (Symbol::NonTerminal(a), Symbol::NonTerminal(b)) => a.0 == b.0,
            _ => false,
        }
    }
}

/// The view of a sequence of symbols.
pub open spec fn syms(s: Seq<Symbol>) -> Seq<Sym> {
    s.map_values(|x: Symbol| x@)
}

pub(crate) fn dup_symbols(s: &[Symbol]) -> (r: Vec<Symbol>)
    ensures
        syms(r@) == syms(s@),
        r@.len() == s@.len(),
        forall|k: int| 0 <= k < s@.len() ==> (#[trigger] r@[k])@ == s@[k]@,
{
    let mut r: Vec<Symbol> = Vec::new();
    let mut i: usize = 0;
    while i < s.len()
        invariant
            i <= s@.len(),
            r@.len() == i,
            forall|k: int| 0 <= k < i ==> r@[k]@ == s@[k]@,
        decreases s@.len() - i,
    {
        r.push(s[i].dup());
        i += 1;
    }
    assert(syms(r@) =~= syms(s@));
    r
}

pub(crate) fn same_symbols(a: &[Symbol], b: &[Symbol]) -> (r: bool)
    ensures
        r == (syms(a@) == syms(b@)),
{
    if a.len() != b.len() {
        assert(syms(a@).len() != syms(b@).len());
        return false;
    }
    let mut i: usize = 0;
    while i < a.len()
        invariant
            i <= a@.len(),
            a@.len() == b@.len(),
            forall|k: int| 0 <= k < i ==> a@[k]@ == b@[k]@,
        decreases a@.len() - i,
    {
        if !a[i].same(&b[i]) {
            assert(syms(a@)[i as int] != syms(b@)[i as int]);
            return false;
        }
        i += 1;
    }
    assert(syms(a@) =~= syms(b@));
    true
}

/// A ProductionRule states how to expand a non-terminal.
///
/// If a grammar has multiple ways to expand a non-terminal, then there is one
/// `ProductionRule` for each variant.
#[derive(Debug, Clone)]
pub struct ProductionRule {
    pub(crate) lhs: NonTerminal,
    pub(crate) rhs: Vec<Symbol>,
}

impl View for ProductionRule {
    type V = RuleV;

    closed spec fn view(&self) -> RuleV {
        RuleV { lhs: self.lhs@, rhs: syms(self.rhs@) }
    }
}

impl ProductionRule {
    pub fn new(lhs: NonTerminal, rhs: Vec<Symbol>) -> (r: ProductionRule)
        ensures
            r@.lhs == lhs@,
            r@.rhs == syms(rhs@),
    {
        ProductionRule { lhs, rhs }
    }

    /// The left-hand side of a production rule: the non-terminal that is expanded.
    pub fn lhs(&self) -> (r: &NonTerminal)
        ensures
            r@ == self@.lhs,
    {
        &self.lhs
    }

    /// The right-hand side of a production rule: the Symbols that replace the left-hand side.
    pub fn rhs(&self) -> (r: &[Symbol])
        ensures
            syms(r@) == self@.rhs,
    {
        self.rhs.as_slice()
    }

    pub(crate) fn dup(&self) -> (r: ProductionRule)
        ensures
            r@ == self@,
    {
        ProductionRule { lhs: self.lhs.dup(), rhs: dup_symbols(self.rhs.as_slice()) }
    }

    pub(crate) fn same(&self, o: &ProductionRule) -> (r: bool)
        ensures
            r == (self@ == o@),
    {
        self.lhs.same(&o.lhs) && same_symbols(self.rhs.as_slice(), o.rhs.as_slice())
    }
}

/// The view of a sequence of rules.
pub open spec fn rules_view(s: Seq<ProductionRule>) -> Seq<RuleV> {
    s.map_values(|x: ProductionRule| x@)
}

/// A ContextFreeGrammar is a set of production rules that describe how to construct an input.
pub struct ContextFreeGrammar {
    pub(crate) rules: Vec<ProductionRule>,
    pub(crate) entrypoint: NonTerminal,
}

impl View for ContextFreeGrammar {
    type V = GrammarV;

    closed spec fn view(&self) -> GrammarV {
        GrammarV { rules: rules_view(self.rules@), start: self.entrypoint@ }
    }
}

impl ContextFreeGrammar {
    pub fn new(rules: Vec<ProductionRule>, entrypoint: NonTerminal) -> (r: ContextFreeGrammar)
        ensures
            r@.rules == rules_view(rules@),
            r@.start == entrypoint@,
    {
        ContextFreeGrammar { rules, entrypoint }
    }

    /// Access the production rules of this grammar.
    pub fn rules(&self) -> (r: &[ProductionRule])
        ensures
            rules_view(r@) == self@.rules,
    {
        self.rules.as_slice()
    }

    /// Access the entrypoint non-terminal of this grammar.
    pub fn entrypoint(&self) -> (r: &NonTerminal)
        ensures
            r@ == self@.start,
    {
        &self.entrypoint
    }
}

} // verus!

verus! {

/// The symbols of `s` with each run of adjacent terminals merged into one
/// terminal that carries their concatenated text.
pub open spec fn merge_terminals(s: Seq<Sym>) -> Seq<Sym>
    decreases s.len(),
{
    if s.len() == 0 {
        s
    } else {
        let p = merge_terminals(s.drop_last());
        let x = s.last();
        if x is T && p.len() > 0 && p.last() is T {
            p.drop_last().push(Sym::T(p.last()->T_0 + x->T_0))
        } else {
            p.push(x)
        }
    }
}

/// No two adjacent symbols are both terminals.
pub open spec fn no_adjacent_terminals(s: Seq<Sym>) -> bool {
    forall|k: int| 0 <= k < s.len() - 1 ==> !(s[k] is T && #[trigger] s[k + 1] is T)
}

/// `rules` without repetitions, each rule kept at its first occurrence.
pub open spec fn dedup(rules: Seq<RuleV>) -> Seq<RuleV>
    decreases rules.len(),
{
    if rules.len() == 0 {
        rules
    } else {
        let p = dedup(rules.drop_last());
        if p.contains(rules.last()) {
            p
        } else {
            p.push(rules.last())
        }
    }
}

pub proof fn lemma_merge_no_adjacent(s: Seq<Sym>)
    ensures
        no_adjacent_terminals(merge_terminals(s)),
        s.len() > 0 ==> merge_terminals(s).len() > 0,
    decreases s.len(),
{
    if s.len() > 0 {
        lemma_merge_no_adjacent(s.drop_last());
    }
}

fn merge_rhs(rhs: &[Symbol]) -> (r: Vec<Symbol>)
    ensures
        syms(r@) == merge_terminals(syms(rhs@)),
{
    let mut out: Vec<Symbol> = Vec::new();
    let mut i: usize = 0;
    assert(syms(rhs@.subrange(0, 0)) =~= Seq::<Sym>::empty());
    while i < rhs.len()
        invariant
            i <= rhs@.len(),
            syms(out@) == merge_terminals(syms(rhs@.subrange(0, i as int))),
        decreases rhs@.len() - i,
    {
        let ghost prev = syms(out@);
        let ghost pre = syms(rhs@.subrange(0, i as int));
        let ghost cur = syms(rhs@.subrange(0, i as int + 1));
        assert(cur.drop_last() =~= pre);
        assert(cur.last() == rhs@[i as int]@);
        let n = out.len();
        let mut merged = false;
        if n > 0 && out[n - 1].is_terminal() {
            if let Symbol::Terminal(t) = &rhs[i] {
                let last = out.pop().unwrap();
                assert(syms(out@) =~= prev.drop_last());
                if let Symbol::Terminal(Terminal(mut s)) = last {
                    s.append(t.0.as_str());
                    out.push(Symbol::Terminal(Terminal(s)));
                    merged = true;
                }
            }
        }
        if !merged {
            out.push(rhs[i].dup());
        }
        assert(syms(out@) =~= merge_terminals(cur));
        i += 1;
    }
    assert(rhs@.subrange(0, rhs@.len() as int) =~= rhs@);
    out
}

fn contains_rule(rules: &Vec<ProductionRule>, r: &ProductionRule) -> (b: bool)
    ensures
        b == rules_view(rules@).contains(r@),
{
    let mut i: usize = 0;
    while i < rules.len()
        invariant
            i <= rules@.len(),
            forall|k: int| 0 <= k < i ==> rules@[k]@ != r@,
        decreases rules@.len() - i,
    {
        if rules[i].same(r) {
            assert(rules_view(rules@)[i as int] == r@);
            return true;
        }
        i += 1;
    }
    assert(!rules_view(rules@).contains(r@)) by {
        if rules_view(rules@).contains(r@) {
            let k = choose|k: int| 0 <= k < rules_view(rules@).len() && rules_view(rules@)[k] == r@;
            assert(rules@[k]@ == r@);
        }
    }
    false
}

impl ContextFreeGrammar {
    /// Merge adjacent terminals of every rule into one.
    pub fn concatenate_terminals(&mut self)
        ensures
            final(self)@.start == old(self)@.start,
            final(self)@.rules.len() == old(self)@.rules.len(),
            forall|i: int|
                0 <= i < old(self)@.rules.len() ==> (#[trigger] final(self)@.rules[i]) == (RuleV {
                    lhs: old(self)@.rules[i].lhs,
                    rhs: merge_terminals(old(self)@.rules[i].rhs),
                }),
            forall|i: int| 0 <= i < final(self)@.rules.len() ==> no_adjacent_terminals(#[trigger] final(self)@.rules[i].rhs),
    {
        let mut out: Vec<ProductionRule> = Vec::new();
        let mut i: usize = 0;
        while i < self.rules.len()
            invariant
                i <= self.rules@.len(),
                out@.len() == i,
                forall|k: int|
                    0 <= k < i ==> (#[trigger] out@[k]@) == (RuleV {
                        lhs: self.rules@[k]@.lhs,
                        rhs: merge_terminals(self.rules@[k]@.rhs),
                    }),
            decreases self.rules@.len() - i,
        {
            let rule = &self.rules[i];
            out.push(ProductionRule { lhs: rule.lhs.dup(), rhs: merge_rhs(rule.rhs.as_slice()) });
            i += 1;
        }
        self.rules = out;
        proof {
            let fr = self@.rules;
            assert forall|i: int| 0 <= i < fr.len() implies no_adjacent_terminals(#[trigger] fr[i].rhs) by {
                lemma_merge_no_adjacent(old(self)@.rules[i].rhs);
            }
        }
    }

    /// Remove repeated rules, keeping the first occurrence of each.
    pub fn remove_duplicate_rules(&mut self)
        ensures
            final(self)@.start == old(self)@.start,
            final(self)@.rules == dedup(old(self)@.rules),
    {
        let mut out: Vec<ProductionRule> = Vec::new();
        let mut i: usize = 0;
        let ghost all = rules_view(self.rules@);
        assert(all.subrange(0, 0) =~= Seq::<RuleV>::empty());
        while i < self.rules.len()
            invariant
                i <= self.rules@.len(),
                all == rules_view(self.rules@),
                rules_view(out@) == dedup(all.subrange(0, i as int)),
            decreases self.rules@.len() - i,
        {
            let ghost cur = all.subrange(0, i as int + 1);
            assert(cur.drop_last() =~= all.subrange(0, i as int));
            if !contains_rule(&out, &self.rules[i]) {
                out.push(self.rules[i].dup());
                assert(rules_view(out@) =~= dedup(cur));
            }
            i += 1;
        }
        assert(all.subrange(0, all.len() as int) =~= all);
        self.rules = out;
    }
}

} // verus!

verus! {

/// Some non-terminal on the right-hand side of `r` belongs to `c`.
pub open spec fn mentions(r: RuleV, c: Set<Seq<char>>) -> bool {
    exists|k: int| 0 <= k < r.rhs.len() && r.rhs[k] is N && c.contains(#[trigger] r.rhs[k]->N_0)
}

/// Every rule whose left-hand side lies in `c` mentions a member of `c`: no
/// derivation from a member of `c` ever ends in terminals only.
pub open spec fn is_trap(rules: Seq<RuleV>, c: Set<Seq<char>>) -> bool {
    forall|i: int| 0 <= i < rules.len() && c.contains(#[trigger] rules[i].lhs) ==> mentions(rules[i], c)
}

/// `n` is the left-hand side of some rule.
pub open spec fn defines(rules: Seq<RuleV>, n: Seq<char>) -> bool {
    exists|i: int| 0 <= i < rules.len() && (#[trigger] rules[i]).lhs == n
}

/// Some set of defined non-terminals can only ever expand into itself.
pub open spec fn has_cycle(rules: Seq<RuleV>) -> bool {
    exists|c: Set<Seq<char>>|
        is_trap(rules, c) && exists|i: int| 0 <= i < rules.len() && c.contains(#[trigger] rules[i].lhs)
}

/// Every non-terminal on a right-hand side is the left-hand side of some rule.
pub open spec fn refs_defined(rules: Seq<RuleV>) -> bool {
    forall|i: int, k: int|
        0 <= i < rules.len() && 0 <= k < rules[i].rhs.len() && (#[trigger] rules[i].rhs[k]) is N
            ==> defines(rules, rules[i].rhs[k]->N_0)
}

spec fn known(rules: Seq<RuleV>, prod: Seq<bool>, n: Seq<char>) -> bool {
    exists|j: int| 0 <= j < rules.len() && prod[j] && (#[trigger] rules[j]).lhs == n
}

spec fn ready(rules: Seq<RuleV>, prod: Seq<bool>, i: int) -> bool {
    forall|k: int|
        0 <= k < rules[i].rhs.len() && (#[trigger] rules[i].rhs[k]) is N ==> known(
            rules,
            prod,
            rules[i].rhs[k]->N_0,
        )
}

spec fn sound(rules: Seq<RuleV>, prod: Seq<bool>) -> bool {
    forall|c: Set<Seq<char>>, j: int|
        #![trigger c.contains(rules[j].lhs)]
        is_trap(rules, c) && 0 <= j < rules.len() && prod[j] ==> !c.contains(rules[j].lhs)
}

spec fn count_false(s: Seq<bool>) -> nat
    decreases s.len(),
{
    if s.len() == 0 {
        0
    } else {
        count_false(s.drop_last()) + if s.last() {
            0nat
        } else {
            1nat
        }
    }
}

proof fn lemma_count_false_update(s: Seq<bool>, i: int)
    requires
        0 <= i < s.len(),
        !s[i],
    ensures
        count_false(s.update(i, true)) + 1 == count_false(s),
    decreases s.len(),
{
    let t = s.update(i, true);
    if i < s.len() - 1 {
        assert(t.drop_last() =~= s.drop_last().update(i, true));
        lemma_count_false_update(s.drop_last(), i);
    } else {
        assert(t.drop_last() =~= s.drop_last());
    }
}

fn name_known(rules: &Vec<ProductionRule>, prod: &Vec<bool>, name: &NonTerminal) -> (b: bool)
    requires
        prod@.len() == rules@.len(),
    ensures
        b == known(rules_view(rules@), prod@, name@),
{
    let ghost rv = rules_view(rules@);
    let mut j: usize = 0;
    while j < rules.len()
        invariant
            j <= rules@.len(),
            prod@.len() == rules@.len(),
            rv == rules_view(rules@),
            forall|m: int| 0 <= m < j ==> !(prod@[m] && rv[m].lhs == name@),
        decreases rules@.len() - j,
    {
        if prod[j] && rules[j].lhs.same(name) {
            assert(rv[j as int].lhs == name@);
            return true;
        }
        j += 1;
    }
    false
}

fn rule_ready(rules: &Vec<ProductionRule>, prod: &Vec<bool>, i: usize) -> (b: bool)
    requires
        prod@.len() == rules@.len(),
        i < rules@.len(),
    ensures
        b == ready(rules_view(rules@), prod@, i as int),
{
    let ghost rv = rules_view(rules@);
    let rhs = &rules[i].rhs;
    assert(rv[i as int].rhs == syms(rhs@));
    let mut k: usize = 0;
    while k < rhs.len()
        invariant
            k <= rhs@.len(),
            prod@.len() == rules@.len(),
            i < rules@.len(),
            rv == rules_view(rules@),
            rhs == rules@[i as int].rhs,
            rv[i as int].rhs == syms(rhs@),
            forall|m: int|
                0 <= m < k && (#[trigger] rv[i as int].rhs[m]) is N ==> known(
                    rv,
                    prod@,
                    rv[i as int].rhs[m]->N_0,
                ),
        decreases rhs@.len() - k,
    {
        if let Symbol::NonTerminal(n) = &rhs[k] {
            if !name_known(rules, prod, n) {
                assert(rv[i as int].rhs[k as int] is N);
                return false;
            }
        }
        k += 1;
    }
    true
}

fn mark_round(rules: &Vec<ProductionRule>, prod: &mut Vec<bool>) -> (changed: bool)
    requires
        old(prod)@.len() == rules@.len(),
        sound(rules_view(rules@), old(prod)@),
    ensures
        final(prod)@.len() == rules@.len(),
        sound(rules_view(rules@), final(prod)@),
        changed ==> count_false(final(prod)@) < count_false(old(prod)@),
        !changed ==> final(prod)@ == old(prod)@,
        !changed ==> forall|i: int|
            0 <= i < rules@.len() && !final(prod)@[i] ==> !ready(
                rules_view(rules@),
                final(prod)@,
                i,
            ),
{
    let ghost rv = rules_view(rules@);
    let ghost start = prod@;
    let mut changed = false;
    let mut i: usize = 0;
    while i < rules.len()
        invariant
            i <= rules@.len(),
            rv == rules_view(rules@),
            prod@.len() == rules@.len(),
            sound(rv, prod@),
            changed ==> count_false(prod@) < count_false(start),
            !changed ==> prod@ == start,
            !changed ==> forall|m: int| 0 <= m < i && !prod@[m] ==> !ready(rv, prod@, m),
        decreases rules@.len() - i,
    {
        if !prod[i] && rule_ready(rules, prod, i) {
            let ghost before = prod@;
            proof {
                assert forall|c: Set<Seq<char>>| is_trap(rv, c) implies !c.contains(
                    rv[i as int].lhs,
                ) by {
                    if c.contains(rv[i as int].lhs) {
                        assert(mentions(rv[i as int], c));
                        let k = choose|k: int|
                            0 <= k < rv[i as int].rhs.len() && rv[i as int].rhs[k] is N
                                && c.contains(#[trigger] rv[i as int].rhs[k]->N_0);
                        assert(known(rv, before, rv[i as int].rhs[k]->N_0));
                        let j = choose|j: int|
                            0 <= j < rv.len() && before[j] && (#[trigger] rv[j]).lhs
                                == rv[i as int].rhs[k]->N_0;
                        assert(!c.contains(rv[j].lhs));
                    }
                }
                lemma_count_false_update(before, i as int);
            }
            prod.set(i, true);
            proof {
                assert(prod@ == before.update(i as int, true));
            }
            changed = true;
        }
        i += 1;
    }
    changed
}

impl ContextFreeGrammar {
    /// Whether every non-terminal has a derivation that ends in terminals only.
    /// Returns `false` when the grammar contains cycles.
    pub fn check_cycles(&self) -> (r: bool)
        ensures
            r ==> !has_cycle(self@.rules),
            refs_defined(self@.rules) ==> (r == !has_cycle(self@.rules)),
    {
        let ghost rv = rules_view(self.rules@);
        let mut prod: Vec<bool> = Vec::new();
        let mut i: usize = 0;
        while i < self.rules.len()
            invariant
                i <= self.rules@.len(),
                prod@.len() == i,
                forall|m: int| 0 <= m < i ==> !prod@[m],
            decreases self.rules@.len() - i,
        {
            prod.push(false);
            i += 1;
        }
        loop
            invariant
                rv == rules_view(self.rules@),
                prod@.len() == self.rules@.len(),
                sound(rv, prod@),
            ensures
                prod@.len() == self.rules@.len(),
                sound(rv, prod@),
                forall|m: int| 0 <= m < rv.len() && !prod@[m] ==> !ready(rv, prod@, m),
            decreases count_false(prod@),
        {
            let changed = mark_round(&self.rules, &mut prod);
            if !changed {
                break;
            }
        }
        let ghost fixed = prod@;
        assert(forall|m: int| 0 <= m < rv.len() && !fixed[m] ==> !#[trigger] ready(rv, fixed, m));
        let mut i: usize = 0;
        while i < self.rules.len()
            invariant
                i <= self.rules@.len(),
                rv == rules_view(self.rules@),
                prod@ == fixed,
                prod@.len() == self.rules@.len(),
                forall|m: int| 0 <= m < rv.len() && !fixed[m] ==> !#[trigger] ready(rv, fixed, m),
                sound(rv, fixed),
                forall|m: int| 0 <= m < i ==> known(rv, fixed, #[trigger] rv[m].lhs),
            decreases self.rules@.len() - i,
        {
            if !name_known(&self.rules, &prod, &self.rules[i].lhs) {
                proof {
                    if refs_defined(rv) {
                        let c = Set::new(|n: Seq<char>| defines(rv, n) && !known(rv, fixed, n));
                        assert(c.contains(rv[i as int].lhs));
                        assert forall|a: int| 0 <= a < rv.len() && c.contains(
                            #[trigger] rv[a].lhs,
                        ) implies mentions(rv[a], c) by {
                            assert(!fixed[a]);
                            assert(!ready(rv, fixed, a));
                            assert(!(forall|k: int|
                                0 <= k < rv[a].rhs.len() && (#[trigger] rv[a].rhs[k]) is N
                                    ==> known(rv, fixed, rv[a].rhs[k]->N_0)));
                            let k = choose|k: int|
                                0 <= k < rv[a].rhs.len() && (#[trigger] rv[a].rhs[k]) is N
                                    && !known(rv, fixed, rv[a].rhs[k]->N_0);
                            assert(defines(rv, rv[a].rhs[k]->N_0));
                            assert(c.contains(rv[a].rhs[k]->N_0));
                        }
                        assert(is_trap(rv, c));
                    }
                }
                return false;
            }
            i += 1;
        }
        proof {
            assert forall|c: Set<Seq<char>>| is_trap(rv, c) implies !(exists|a: int|
                0 <= a < rv.len() && c.contains(#[trigger] rv[a].lhs)) by {
                if exists|a: int| 0 <= a < rv.len() && c.contains(#[trigger] rv[a].lhs) {
                    let a = choose|a: int| 0 <= a < rv.len() && c.contains(#[trigger] rv[a].lhs);
                    assert(known(rv, fixed, rv[a].lhs));
                    let j = choose|j: int|
                        0 <= j < rv.len() && fixed[j] && (#[trigger] rv[j]).lhs == rv[a].lhs;
                    assert(!c.contains(rv[j].lhs));
                }
            }
        }
        true
    }
}

} // verus!

verus! {

/// `n` can be reached from `start` in at most `k` expansion steps.
pub open spec fn reach_k(rules: Seq<RuleV>, start: Seq<char>, n: Seq<char>, k: nat) -> bool
    decreases k,
{
    if k == 0 {
        n == start
    } else {
        reach_k(rules, start, n, (k - 1) as nat) || exists|i: int, m: int|
            0 <= i < rules.len() && 0 <= m < rules[i].rhs.len() && reach_k(
                rules,
                start,
                rules[i].lhs,
                (k - 1) as nat,
            ) && #[trigger] rules[i].rhs[m] == Sym::N(n)
    }
}

/// `n` is reachable from `start` through right-hand sides.
pub open spec fn reachable(rules: Seq<RuleV>, start: Seq<char>, n: Seq<char>) -> bool {
    exists|k: nat| reach_k(rules, start, n, k)
}

/// The rules of `s` whose left-hand side is reachable from `start` in `g`, in order.
pub open spec fn keep_reachable(s: Seq<RuleV>, g: Seq<RuleV>, start: Seq<char>) -> Seq<RuleV>
    decreases s.len(),
{
    if s.len() == 0 {
        s
    } else {
        let p = keep_reachable(s.drop_last(), g, start);
        if reachable(g, start, s.last().lhs) {
            p.push(s.last())
        } else {
            p
        }
    }
}

spec fn hit(rules: Seq<RuleV>, live: Seq<bool>, start: Seq<char>, n: Seq<char>) -> bool {
    n == start || exists|j: int, m: int|
        0 <= j < rules.len() && 0 <= m < rules[j].rhs.len() && live[j] && #[trigger] rules[j].rhs[m]
            == Sym::N(n)
}

spec fn live_closed(rules: Seq<RuleV>, live: Seq<bool>, start: Seq<char>) -> bool {
    forall|i: int| 0 <= i < rules.len() && !live[i] ==> !#[trigger] hit(rules, live, start, rules[i].lhs)
}

proof fn lemma_reach_hit(rules: Seq<RuleV>, live: Seq<bool>, start: Seq<char>, n: Seq<char>, k: nat)
    requires
        live.len() == rules.len(),
        live_closed(rules, live, start),
        reach_k(rules, start, n, k),
    ensures
        hit(rules, live, start, n),
    decreases k,
{
    if k > 0 {
        if reach_k(rules, start, n, (k - 1) as nat) {
            lemma_reach_hit(rules, live, start, n, (k - 1) as nat);
        } else {
            let (i, m) = choose|i: int, m: int|
                0 <= i < rules.len() && 0 <= m < rules[i].rhs.len() && reach_k(
                    rules,
                    start,
                    rules[i].lhs,
                    (k - 1) as nat,
                ) && #[trigger] rules[i].rhs[m] == Sym::N(n);
            lemma_reach_hit(rules, live, start, rules[i].lhs, (k - 1) as nat);
            assert(live[i]);
        }
    }
}

/// `j` can be reached from `start` along `edges` in at most `k` steps.
pub open spec fn path_k(edges: Seq<(usize, usize)>, start: int, j: int, k: nat) -> bool
    decreases k,
{
    if k == 0 {
        j == start
    } else {
        path_k(edges, start, j, (k - 1) as nat) || exists|e: int|
            #![trigger edges[e]]
            0 <= e < edges.len() && edges[e].1 == j && path_k(edges, start, edges[e].0 as int, (k - 1) as nat)
    }
}

/// `j` can be reached from `start` along `edges`.
pub open spec fn path(edges: Seq<(usize, usize)>, start: int, j: int) -> bool {
    exists|k: nat| path_k(edges, start, j, k)
}

/// Relies on petgraph's `Graph` (with `usize` indices, which have no size
/// limit) and its breadth-first search `Bfs`, which visits every node
/// reachable from its start node, and no other.
#[verifier::external_body]
fn reachable_nodes(n: usize, edges: &Vec<(usize, usize)>, start: usize) -> (r: Vec<bool>)
    requires
        start < n,
        forall|e: int| 0 <= e < edges@.len() ==> (#[trigger] edges@[e]).0 < n && edges@[e].1 < n,
    ensures
        r@.len() == n,
        forall|j: int| 0 <= j < n ==> (r@[j] <==> path(edges@, start as int, j)),
{
    let mut graph = petgraph::Graph::<(), (), petgraph::Directed, usize>::with_capacity(n, edges.len());
    let nodes: Vec<_> = (0..n).map(|_| graph.add_node(())).collect();
    for &(a, b) in edges.iter() {
        graph.add_edge(nodes[a], nodes[b], ());
    }
    let mut seen = vec![false; n];
    let mut bfs = petgraph::visit::Bfs::new(&graph, nodes[start]);
    while let Some(x) = bfs.next(&graph) {
        seen[x.index()] = true;
    }
    seen
}

/// The edge from rule `a` to rule `j` of the reachability graph: a rule
/// leads to the rules of every non-terminal on its right-hand side.
spec fn rule_edge(rules: Seq<RuleV>, a: int, j: int) -> bool {
    0 <= a < rules.len() && 0 <= j < rules.len() && exists|m: int|
        0 <= m < rules[a].rhs.len() && #[trigger] rules[a].rhs[m] == Sym::N(rules[j].lhs)
}

/// Rule `j` lies on a path from a rule of the start symbol.
spec fn from_start(rules: Seq<RuleV>, start: Seq<char>, edges: Seq<(usize, usize)>, upto: int, j: int) -> bool {
    exists|s: int| 0 <= s < upto && rules[s].lhs == start && #[trigger] path(edges, s, j)
}

fn mentions_name(rule: &ProductionRule, name: &NonTerminal) -> (b: bool)
    ensures
        b == exists|m: int| 0 <= m < rule@.rhs.len() && #[trigger] rule@.rhs[m] == Sym::N(name@),
{
    let mut m: usize = 0;
    while m < rule.rhs.len()
        invariant
            m <= rule.rhs@.len(),
            rule@.rhs == syms(rule.rhs@),
            forall|x: int| 0 <= x < m ==> #[trigger] rule@.rhs[x] != Sym::N(name@),
        decreases rule.rhs@.len() - m,
    {
        if let Symbol::NonTerminal(n) = &rule.rhs[m] {
            if n.same(name) {
                assert(rule@.rhs[m as int] == Sym::N(name@));
                return true;
            }
        }
        m += 1;
    }
    false
}

proof fn lemma_path_sound(rules: Seq<RuleV>, start: Seq<char>, edges: Seq<(usize, usize)>, s: int, j: int, k: nat)
    requires
        forall|e: int| 0 <= e < edges.len() ==> rule_edge(rules, (#[trigger] edges[e]).0 as int, edges[e].1 as int),
        path_k(edges, s, j, k),
        0 <= s < rules.len(),
        rules[s].lhs == start,
        0 <= j < rules.len(),
    ensures
        reachable(rules, start, rules[j].lhs),
    decreases k,
{
    if k == 0 {
        assert(reach_k(rules, start, rules[j].lhs, 0));
    } else {
        let k1 = (k - 1) as nat;
        if path_k(edges, s, j, k1) {
            lemma_path_sound(rules, start, edges, s, j, k1);
        } else {
            let e = choose|e: int| #![trigger edges[e]] 0 <= e < edges.len() && edges[e].1 == j && path_k(edges, s, edges[e].0 as int, k1);
            let a = edges[e].0 as int;
            assert(rule_edge(rules, a, j));
            lemma_path_sound(rules, start, edges, s, a, k1);
            let kk = choose|kk: nat| reach_k(rules, start, rules[a].lhs, kk);
            let m = choose|m: int| 0 <= m < rules[a].rhs.len() && #[trigger] rules[a].rhs[m] == Sym::N(rules[j].lhs);
            assert(reach_k(rules, start, rules[j].lhs, kk + 1));
        }
    }
}

impl ContextFreeGrammar {
    /// The edges of the reachability graph over rules (see `rule_edge`).
    fn rule_edges(&self) -> (edges: Vec<(usize, usize)>)
        ensures
            forall|e: int| 0 <= e < edges@.len() ==> rule_edge(self@.rules, (#[trigger] edges@[e]).0 as int, edges@[e].1 as int),
            forall|a: int, j: int| rule_edge(self@.rules, a, j) ==> #[trigger] edges@.contains((a as usize, j as usize)),
    {
        let ghost g = self@.rules;
        let n = self.rules.len();
        let mut edges: Vec<(usize, usize)> = Vec::new();
        let mut a: usize = 0;
        while a < n
            invariant
                n == g.len(),
                g == self@.rules,
                a <= n,
                forall|e: int| 0 <= e < edges@.len() ==> rule_edge(g, (#[trigger] edges@[e]).0 as int, edges@[e].1 as int),
                forall|x: int, j: int| 0 <= x < a && rule_edge(g, x, j) ==> #[trigger] edges@.contains((x as usize, j as usize)),
            decreases n - a,
        {
            let mut j: usize = 0;
            while j < n
                invariant
                    n == g.len(),
                    g == self@.rules,
                    a < n,
                    j <= n,
                    forall|e: int| 0 <= e < edges@.len() ==> rule_edge(g, (#[trigger] edges@[e]).0 as int, edges@[e].1 as int),
                    forall|x: int, y: int| 0 <= x < a && rule_edge(g, x, y) ==> #[trigger] edges@.contains((x as usize, y as usize)),
                    forall|y: int| 0 <= y < j && rule_edge(g, a as int, y) ==> #[trigger] edges@.contains((a as usize, y as usize)),
                decreases n - j,
            {
                let linked = mentions_name(&self.rules[a], &self.rules[j].lhs);
                assert(self.rules@[a as int]@ == g[a as int]);
                assert(linked == rule_edge(g, a as int, j as int));
                if linked {
                    let ghost prev = edges@;
                    edges.push((a, j));
                    proof {
                        assert(edges@[prev.len() as int] == (a, j));
                        assert forall|x: int, y: int| 0 <= x < a && rule_edge(g, x, y) implies #[trigger] edges@.contains((x as usize, y as usize)) by {
                            assert(prev.contains((x as usize, y as usize)));
                            let w = choose|w: int| 0 <= w < prev.len() && prev[w] == (x as usize, y as usize);
                            assert(edges@[w] == prev[w]);
                        }
                        assert forall|y: int| 0 <= y < j + 1 && rule_edge(g, a as int, y) implies #[trigger] edges@.contains((a as usize, y as usize)) by {
                            if y < j {
                                assert(prev.contains((a as usize, y as usize)));
                                let w = choose|w: int| 0 <= w < prev.len() && prev[w] == (a as usize, y as usize);
                                assert(edges@[w] == prev[w]);
                            }
                        }
                    }
                }
                j += 1;
            }
            proof {
                assert forall|x: int, y: int| 0 <= x < a + 1 && rule_edge(g, x, y) implies #[trigger] edges@.contains((x as usize, y as usize)) by {
                    if x == a {
                        assert(0 <= y < n);
                    }
                }
            }
            a += 1;
        }
        edges
    }

    /// Drop the rules whose left-hand side cannot be reached from the entrypoint.
    pub fn remove_unused_rules(&mut self)
        ensures
            final(self)@.start == old(self)@.start,
            final(self)@.rules == keep_reachable(old(self)@.rules, old(self)@.rules, old(self)@.start),
    {
        let ghost rv = self@.rules;
        let ghost st = self@.start;
        let n = self.rules.len();
        let edges = self.rule_edges();
        let mut seen: Vec<bool> = Vec::new();
        let mut j: usize = 0;
        while j < n
            invariant
                j <= n,
                seen@.len() == j,
                forall|x: int| 0 <= x < j ==> !seen@[x],
            decreases n - j,
        {
            seen.push(false);
            j += 1;
        }
        let mut s: usize = 0;
        while s < n
            invariant
                n == rv.len(),
                rv == self@.rules,
                st == self@.start,
                s <= n,
                seen@.len() == n,
                forall|e: int| 0 <= e < edges@.len() ==> rule_edge(rv, (#[trigger] edges@[e]).0 as int, edges@[e].1 as int),
                forall|x: int| 0 <= x < n ==> (#[trigger] seen@[x] <==> from_start(rv, st, edges@, s as int, x)),
            decreases n - s,
        {
            if self.rules[s].lhs.same(&self.entrypoint) {
                let r = reachable_nodes(n, &edges, s);
                let mut x: usize = 0;
                let ghost before = seen@;
                while x < n
                    invariant
                        n == rv.len(),
                        s < n,
                        rv[s as int].lhs == st,
                        r@.len() == n,
                        seen@.len() == n,
                        before.len() == n,
                        x <= n,
                        forall|y: int| 0 <= y < n ==> (r@[y] <==> path(edges@, s as int, y)),
                        forall|y: int| 0 <= y < n ==> (before[y] <==> from_start(rv, st, edges@, s as int, y)),
                        forall|y: int| 0 <= y < x ==> (#[trigger] seen@[y] <==> (before[y] || r@[y])),
                        forall|y: int| x <= y < n ==> (#[trigger] seen@[y] == before[y]),
                    decreases n - x,
                {
                    if r[x] {
                        seen.set(x, true);
                    }
                    x += 1;
                }
                proof {
                    assert forall|y: int| 0 <= y < n implies (#[trigger] seen@[y] <==> from_start(rv, st, edges@, s as int + 1, y)) by {
                        if from_start(rv, st, edges@, s as int + 1, y) {
                            let w = choose|w: int| 0 <= w < s + 1 && rv[w].lhs == st && #[trigger] path(edges@, w, y);
                            if w < s {
                                assert(from_start(rv, st, edges@, s as int, y));
                            }
                        }
                        if seen@[y] && !before[y] {
                            assert(path(edges@, s as int, y));
                        }
                    }
                }
            } else {
                proof {
                    assert forall|y: int| 0 <= y < n implies (#[trigger] seen@[y] <==> from_start(rv, st, edges@, s as int + 1, y)) by {
                        if from_start(rv, st, edges@, s as int + 1, y) {
                            let w = choose|w: int| 0 <= w < s + 1 && rv[w].lhs == st && #[trigger] path(edges@, w, y);
                            assert(w != s);
                            assert(from_start(rv, st, edges@, s as int, y));
                        }
                    }
                }
            }
            s += 1;
        }
        let ghost live = seen@;
        proof {
            assert forall|j: int| 0 <= j < n && #[trigger] live[j] implies reachable(rv, st, rv[j].lhs) by {
                let w = choose|w: int| 0 <= w < n && rv[w].lhs == st && #[trigger] path(edges@, w, j);
                let k = choose|k: nat| path_k(edges@, w, j, k);
                lemma_path_sound(rv, st, edges@, w, j, k);
            }
            assert forall|i: int| 0 <= i < rv.len() && !live[i] implies !#[trigger] hit(rv, live, st, rv[i].lhs) by {
                if hit(rv, live, st, rv[i].lhs) {
                    if rv[i].lhs == st {
                        assert(path_k(edges@, i, i, 0));
                        assert(path(edges@, i, i));
                        assert(from_start(rv, st, edges@, n as int, i));
                    } else {
                        let (j, m) = choose|j: int, m: int|
                            0 <= j < rv.len() && 0 <= m < rv[j].rhs.len() && live[j] && #[trigger] rv[j].rhs[m] == Sym::N(rv[i].lhs);
                        assert(rule_edge(rv, j, i));
                        assert(edges@.contains((j as usize, i as usize)));
                        let e = choose|e: int| 0 <= e < edges@.len() && edges@[e] == (j as usize, i as usize);
                        assert(from_start(rv, st, edges@, n as int, j));
                        let w = choose|w: int| 0 <= w < n && rv[w].lhs == st && #[trigger] path(edges@, w, j);
                        let k = choose|k: nat| path_k(edges@, w, j, k);
                        assert(edges@[e].1 == i && path_k(edges@, w, edges@[e].0 as int, k));
                        assert(path_k(edges@, w, i, k + 1));
                        assert(path(edges@, w, i));
                        assert(from_start(rv, st, edges@, n as int, i));
                    }
                }
            }
            assert forall|a: int| 0 <= a < rv.len() implies (seen@[a] <==> reachable(rv, st, #[trigger] rv[a].lhs)) by {
                if reachable(rv, st, rv[a].lhs) {
                    let k = choose|k: nat| reach_k(rv, st, rv[a].lhs, k);
                    lemma_reach_hit(rv, live, st, rv[a].lhs, k);
                }
            }
        }
        let mut out: Vec<ProductionRule> = Vec::new();
        let mut i: usize = 0;
        assert(rv.subrange(0, 0) =~= Seq::<RuleV>::empty());
        while i < self.rules.len()
            invariant
                i <= self.rules@.len(),
                n == rv.len(),
                rv == self@.rules,
                st == self@.start,
                seen@.len() == n,
                forall|a: int| 0 <= a < rv.len() ==> (seen@[a] <==> reachable(rv, st, #[trigger] rv[a].lhs)),
                rules_view(out@) == keep_reachable(rv.subrange(0, i as int), rv, st),
            decreases self.rules@.len() - i,
        {
            let ghost cur = rv.subrange(0, i as int + 1);
            assert(cur.drop_last() =~= rv.subrange(0, i as int));
            assert(cur.last() == rv[i as int]);
            if seen[i] {
                out.push(self.rules[i].dup());
                assert(rules_view(out@) =~= keep_reachable(cur, rv, st));
            }
            i += 1;
        }
        assert(rv.subrange(0, rv.len() as int) =~= rv);
        self.rules = out;
    }
}

} // verus!

verus! {

/// The rule starts with a terminal and every later symbol is a non-terminal.
pub open spec fn gnf_rule(r: RuleV) -> bool {
    r.rhs.len() >= 1 && r.rhs[0] is T && forall|k: int| 1 <= k < r.rhs.len() ==> #[trigger] r.rhs[k] is N
}

/// The rule is not empty and every symbol after the first is a non-terminal.
pub open spec fn tail_ok(r: RuleV) -> bool {
    r.rhs.len() >= 1 && forall|k: int| 1 <= k < r.rhs.len() ==> #[trigger] r.rhs[k] is N
}

/// Every rule of `rules` is in leading-terminal form.
pub open spec fn all_gnf(rules: Seq<RuleV>) -> bool {
    forall|i: int| 0 <= i < rules.len() ==> gnf_rule(#[trigger] rules[i])
}

/// Every rule of `rules` has a non-empty right-hand side.
pub open spec fn all_nonempty(rules: Seq<RuleV>) -> bool {
    forall|i: int| 0 <= i < rules.len() ==> (#[trigger] rules[i]).rhs.len() >= 1
}

pub open spec fn all_tail_ok(rules: Seq<RuleV>) -> bool {
    forall|i: int| 0 <= i < rules.len() ==> tail_ok(#[trigger] rules[i])
}

pub open spec fn nfirst(r: RuleV) -> bool {
    r.rhs.len() > 0 && r.rhs[0] is N
}

pub open spec fn count_nfirst(s: Seq<RuleV>) -> nat
    decreases s.len(),
{
    if s.len() == 0 {
        0
    } else {
        count_nfirst(s.drop_last()) + if nfirst(s.last()) {
            1nat
        } else {
            0nat
        }
    }
}

proof fn lemma_count_nfirst_push(s: Seq<RuleV>, x: RuleV)
    ensures
        count_nfirst(s.push(x)) == count_nfirst(s) + if nfirst(x) {
            1nat
        } else {
            0nat
        },
{
    assert(s.push(x).drop_last() =~= s);
}

/// The rules of `n` all start with a terminal, and there is at least one.
pub open spec fn expanded(rules: Seq<RuleV>, n: Seq<char>) -> bool {
    defines(rules, n) && forall|j: int|
        0 <= j < rules.len() && (#[trigger] rules[j]).lhs == n ==> rules[j].rhs.len() > 0
            && rules[j].rhs[0] is T
}

fn all_expanded(rules: &Vec<ProductionRule>, n: &NonTerminal) -> (b: bool)
    ensures
        b == expanded(rules_view(rules@), n@),
{
    let ghost rv = rules_view(rules@);
    let mut found = false;
    let mut j: usize = 0;
    while j < rules.len()
        invariant
            j <= rules@.len(),
            rv == rules_view(rules@),
            found == exists|a: int| 0 <= a < j && (#[trigger] rv[a]).lhs == n@,
            forall|a: int|
                0 <= a < j && (#[trigger] rv[a]).lhs == n@ ==> rv[a].rhs.len() > 0 && rv[a].rhs[0] is T,
        decreases rules@.len() - j,
    {
        if rules[j].lhs.same(n) {
            if rules[j].rhs.len() == 0 || rules[j].rhs[0].is_non_terminal() {
                assert(rv[j as int].lhs == n@);
                return false;
            }
            found = true;
        }
        j += 1;
    }
    found
}

/// The symbols of `a` followed by `b` without its first symbol.
fn splice(a: &[Symbol], b: &[Symbol]) -> (r: Vec<Symbol>)
    requires
        b@.len() >= 1,
    ensures
        syms(r@) == syms(a@) + syms(b@).subrange(1, b@.len() as int),
{
    let mut r = dup_symbols(a);
    assert(forall|m: int| 0 <= m < a@.len() ==> syms(r@)[m] == a@[m]@);
    let mut k: usize = 1;
    while k < b.len()
        invariant
            1 <= k <= b@.len(),
            r@.len() == a@.len() + k - 1,
            forall|m: int| 0 <= m < a@.len() ==> (#[trigger] r@[m])@ == a@[m]@,
            forall|m: int| 1 <= m < k ==> (#[trigger] r@[a@.len() + m - 1])@ == b@[m]@,
        decreases b@.len() - k,
    {
        r.push(b[k].dup());
        k += 1;
    }
    assert(syms(r@) =~= syms(a@) + syms(b@).subrange(1, b@.len() as int)) by {
        assert forall|m: int| 0 <= m < r@.len() implies syms(r@)[m] == (syms(a@) + syms(b@).subrange(1, b@.len() as int))[m] by {
            if m >= a@.len() {
                assert(r@[a@.len() + (m - a@.len() + 1) - 1]@ == b@[m - a@.len() + 1]@);
            }
        }
    }
    r
}

impl ContextFreeGrammar {
    /// Whether every rule starts with a terminal followed by non-terminals only.
    pub fn is_in_gnf(&self) -> (r: bool)
        ensures
            r == all_gnf(self@.rules),
    {
        let ghost rv = self@.rules;
        let mut i: usize = 0;
        while i < self.rules.len()
            invariant
                i <= self.rules@.len(),
                rv == self@.rules,
                forall|a: int| 0 <= a < i ==> gnf_rule(#[trigger] rv[a]),
            decreases self.rules@.len() - i,
        {
            let rhs = &self.rules[i].rhs;
            assert(rv[i as int].rhs == syms(rhs@));
            if rhs.len() == 0 || rhs[0].is_non_terminal() {
                return false;
            }
            let mut k: usize = 1;
            while k < rhs.len()
                invariant
                    1 <= k <= rhs@.len(),
                    i < rv.len(),
                    rv == self@.rules,
                    rv[i as int].rhs == syms(rhs@),
                    forall|b: int| 1 <= b < k ==> #[trigger] rv[i as int].rhs[b] is N,
                decreases rhs@.len() - k,
            {
                if rhs[k].is_terminal() {
                    assert(!(rv[i as int].rhs[k as int] is N));
                    assert(!gnf_rule(rv[i as int]));
                    return false;
                }
                k += 1;
            }
            i += 1;
        }
        true
    }

    #[verifier::rlimit(100)]
    fn gnf_round(&mut self) -> (changed: bool)
        requires
            all_tail_ok(old(self)@.rules),
        ensures
            final(self)@.start == old(self)@.start,
            all_tail_ok(final(self)@.rules),
            changed ==> count_nfirst(final(self)@.rules) < count_nfirst(old(self)@.rules),
            !changed ==> final(self)@.rules == old(self)@.rules,
            !changed ==> lead_stuck(old(self)@.rules),
            refs_defined(old(self)@.rules) ==> refs_defined(final(self)@.rules),
            forall|o: int| 0 <= o < final(self)@.rules.len() && nfirst(#[trigger] final(self)@.rules[o])
                ==> old(self)@.rules.contains(final(self)@.rules[o]),
            final(self)@.rules == gnf_round_upto(old(self)@.rules, old(self)@.rules.len() as int),
    {
        let ghost rv = self@.rules;
        let ghost rd = refs_defined(rv);
        let mut out: Vec<ProductionRule> = Vec::new();
        let mut changed = false;
        let mut i: usize = 0;
        assert(rv.subrange(0, 0) =~= Seq::<RuleV>::empty());
        while i < self.rules.len()
            invariant
                i <= self.rules@.len(),
                rv == self@.rules,
                all_tail_ok(rv),
                all_tail_ok(rules_view(out@)),
                count_nfirst(rules_view(out@)) <= count_nfirst(rv.subrange(0, i as int)),
                changed ==> count_nfirst(rules_view(out@)) < count_nfirst(rv.subrange(0, i as int)),
                !changed ==> rules_view(out@) == rv.subrange(0, i as int),
                rd == refs_defined(rv),
                rd ==> forall|o: int, k: int|
                    0 <= o < out@.len() && 0 <= k < rules_view(out@)[o].rhs.len() && (#[trigger] rules_view(out@)[o].rhs[k]) is N
                        ==> defines(rv, rules_view(out@)[o].rhs[k]->N_0),
                forall|m: int| 0 <= m < i ==> defines(rules_view(out@), (#[trigger] rv[m]).lhs),
                forall|o: int| 0 <= o < out@.len() && nfirst(#[trigger] rules_view(out@)[o]) ==> rv.contains(rules_view(out@)[o]),
                !changed ==> forall|m: int| 0 <= m < i && nfirst(#[trigger] rv[m]) ==> !expanded(rv, rv[m].rhs[0]->N_0),
                rules_view(out@) == gnf_round_upto(rv, i as int),
            decreases self.rules@.len() - i,
        {
            let ghost cur = rv.subrange(0, i as int + 1);
            assert(cur.drop_last() =~= rv.subrange(0, i as int));
            assert(cur.last() == rv[i as int]);
            assert(tail_ok(rv[i as int]));
            let rule = &self.rules[i];
            assert(rv[i as int].rhs == syms(rule.rhs@));
            let mut done = false;
            if let Symbol::NonTerminal(b) = &rule.rhs[0] {
                if all_expanded(&self.rules, b) {
                    let ghost out0 = rules_view(out@);
                    let ghost ri = rv[i as int];
                    let ghost tail = ri.rhs.subrange(1, ri.rhs.len() as int);
                    assert(rv.subrange(0, 0) =~= Seq::<RuleV>::empty());
                    assert(out0 =~= out0 + crate::lowlevel::rhs_of(rv.subrange(0, 0), b@).map_values(
                        |rhs: Seq<Sym>| RuleV { lhs: ri.lhs, rhs: rhs + tail },
                    ));
                    let mut found = false;
                    let mut j: usize = 0;
                    while j < self.rules.len()
                        invariant
                            j <= self.rules@.len(),
                            i < self.rules@.len(),
                            rv == self@.rules,
                            rule == self.rules@[i as int],
                            rv[i as int].rhs == syms(rule.rhs@),
                            tail_ok(rv[i as int]),
                            all_tail_ok(rv),
                            expanded(rv, b@),
                            all_tail_ok(rules_view(out@)),
                            count_nfirst(rules_view(out@)) == count_nfirst(out0),
                            rd == refs_defined(rv),
                            out0.is_prefix_of(rules_view(out@)),
                            found == exists|x: int| 0 <= x < j && (#[trigger] rv[x]).lhs == b@,
                            found ==> defines(rules_view(out@), rv[i as int].lhs),
                            rv[i as int].lhs == rule@.lhs,
                            ri == rv[i as int],
                            tail == ri.rhs.subrange(1, ri.rhs.len() as int),
                            rules_view(out@) == out0 + crate::lowlevel::rhs_of(rv.subrange(0, j as int), b@).map_values(
                                |rhs: Seq<Sym>| RuleV { lhs: ri.lhs, rhs: rhs + tail },
                            ),
                            rd ==> forall|o: int, k: int|
                                0 <= o < out@.len() && 0 <= k < rules_view(out@)[o].rhs.len() && (#[trigger] rules_view(out@)[o].rhs[k]) is N
                                    ==> defines(rv, rules_view(out@)[o].rhs[k]->N_0),
                            forall|o: int| 0 <= o < out@.len() && nfirst(#[trigger] rules_view(out@)[o]) ==> rv.contains(rules_view(out@)[o]),
                        decreases self.rules@.len() - j,
                    {
                        let ghost cj = rv.subrange(0, j as int + 1);
                        let ghost outj = rules_view(out@);
                        assert(cj.drop_last() =~= rv.subrange(0, j as int));
                        assert(cj.last() == rv[j as int]);
                        if self.rules[j].lhs.same(b) {
                            let other = &self.rules[j];
                            assert(rv[j as int].rhs == syms(other.rhs@));
                            assert(tail_ok(rv[j as int]));
                            let new_rule = ProductionRule {
                                lhs: rule.lhs.dup(),
                                rhs: splice(other.rhs.as_slice(), rule.rhs.as_slice()),
                            };
                            proof {
                                let nr = new_rule@;
                                assert(nr.rhs[0] == rv[j as int].rhs[0]);
                                assert forall|k: int| 1 <= k < nr.rhs.len() implies #[trigger] nr.rhs[k] is N by {
                                    if k < rv[j as int].rhs.len() {
                                        assert(nr.rhs[k] == rv[j as int].rhs[k]);
                                    } else {
                                        assert(nr.rhs[k] == rv[i as int].rhs[k - rv[j as int].rhs.len() + 1]);
                                    }
                                }
                                lemma_count_nfirst_push(rules_view(out@), nr);
                            }
                            let ghost prev = rules_view(out@);
                            let ghost nr = new_rule@;
                            out.push(new_rule);
                            assert(rules_view(out@) =~= prev.push(nr));
                            proof {
                                let ov = rules_view(out@);
                                assert(ov[prev.len() as int] == nr);
                                assert(nr.rhs == rv[j as int].rhs + rv[i as int].rhs.subrange(1, rv[i as int].rhs.len() as int));
                                if rd {
                                    assert forall|o: int, k: int|
                                        0 <= o < ov.len() && 0 <= k < ov[o].rhs.len() && (#[trigger] ov[o].rhs[k]) is N
                                        implies defines(rv, ov[o].rhs[k]->N_0) by {
                                        if o == prev.len() {
                                            if k < rv[j as int].rhs.len() {
                                                assert(ov[o].rhs[k] == rv[j as int].rhs[k]);
                                            } else {
                                                assert(ov[o].rhs[k] == rv[i as int].rhs[k - rv[j as int].rhs.len() + 1]);
                                            }
                                        } else {
                                            assert(ov[o] == prev[o]);
                                        }
                                    }
                                }
                                assert(!nfirst(nr));
                                assert forall|o: int| 0 <= o < ov.len() && nfirst(#[trigger] ov[o]) implies rv.contains(ov[o]) by {
                                    if o < prev.len() {
                                        assert(ov[o] == prev[o]);
                                    }
                                }
                                assert(out0.is_prefix_of(ov)) by {
                                    assert(ov.subrange(0, out0.len() as int) =~= prev.subrange(0, out0.len() as int));
                                }
                            }
                            found = true;
                            proof {
                                let mp = |rhs: Seq<Sym>| RuleV { lhs: ri.lhs, rhs: rhs + tail };
                                assert(rules_view(out@) =~= outj.push(nr));
                                assert(nr.rhs =~= rv[j as int].rhs + tail);
                                assert(nr == mp(rv[j as int].rhs));
                                assert(crate::lowlevel::rhs_of(cj, b@) == crate::lowlevel::rhs_of(rv.subrange(0, j as int), b@).push(rv[j as int].rhs));
                                assert(crate::lowlevel::rhs_of(cj, b@).map_values(mp) =~= crate::lowlevel::rhs_of(rv.subrange(0, j as int), b@).map_values(mp).push(nr));
                                assert(rules_view(out@) =~= out0 + crate::lowlevel::rhs_of(cj, b@).map_values(mp));
                            }
                        } else {
                            proof {
                                if found {
                                    let w = choose|w: int| 0 <= w < rules_view(out@).len() && (#[trigger] rules_view(out@)[w]).lhs == rv[i as int].lhs;
                                }
                            }
                        }
                        j += 1;
                    }
                    proof {
                        assert(rv.subrange(0, rv.len() as int) =~= rv);
                        assert(nfirst(rv[i as int]) && expanded(rv, rv[i as int].rhs[0]->N_0));
                        assert(rules_view(out@) =~= gnf_round_upto(rv, i as int + 1));
                        lemma_count_nfirst_push(rv.subrange(0, i as int), rv[i as int]);
                        assert(defines(rv, b@));
                        let x = choose|x: int| 0 <= x < rv.len() && (#[trigger] rv[x]).lhs == b@;
                        assert(found);
                        let ov = rules_view(out@);
                        assert forall|m: int| 0 <= m < i + 1 implies defines(ov, (#[trigger] rv[m]).lhs) by {
                            if m < i {
                                assert(defines(out0, rv[m].lhs));
                                let w = choose|w: int| 0 <= w < out0.len() && (#[trigger] out0[w]).lhs == rv[m].lhs;
                                assert(ov[w] == out0[w]);
                            }
                        }
                    }
                    done = true;
                    changed = true;
                }
            }
            if !done {
                proof {
                    lemma_count_nfirst_push(rules_view(out@), rv[i as int]);
                    lemma_count_nfirst_push(rv.subrange(0, i as int), rv[i as int]);
                }
                let ghost prev = rules_view(out@);
                out.push(rule.dup());
                assert(rules_view(out@) =~= prev.push(rv[i as int]));
                proof {
                    assert(!(nfirst(rv[i as int]) && expanded(rv, rv[i as int].rhs[0]->N_0)));
                    assert(rules_view(out@) =~= gnf_round_upto(rv, i as int + 1));
                }
                proof {
                    let ov = rules_view(out@);
                    assert(ov[prev.len() as int] == rv[i as int]);
                    if rd {
                        assert forall|o: int, k: int|
                            0 <= o < ov.len() && 0 <= k < ov[o].rhs.len() && (#[trigger] ov[o].rhs[k]) is N
                            implies defines(rv, ov[o].rhs[k]->N_0) by {
                            if o < prev.len() {
                                assert(ov[o] == prev[o]);
                            }
                        }
                    }
                    assert forall|o: int| 0 <= o < ov.len() && nfirst(#[trigger] ov[o]) implies rv.contains(ov[o]) by {
                        if o < prev.len() {
                            assert(ov[o] == prev[o]);
                        }
                    }
                    assert forall|m: int| 0 <= m < i + 1 implies defines(ov, (#[trigger] rv[m]).lhs) by {
                        if m < i {
                            let w = choose|w: int| 0 <= w < prev.len() && (#[trigger] prev[w]).lhs == rv[m].lhs;
                            assert(ov[w] == prev[w]);
                        }
                    }
                }
            }
            i += 1;
        }
        assert(rv.subrange(0, rv.len() as int) =~= rv);
        self.rules = out;
        proof {
            let fr = self@.rules;
            if rd {
                assert forall|o: int, k: int| 0 <= o < fr.len() && 0 <= k < fr[o].rhs.len() && (#[trigger] fr[o].rhs[k]) is N
                    implies defines(fr, fr[o].rhs[k]->N_0) by {
                    let x = choose|x: int| 0 <= x < rv.len() && (#[trigger] rv[x]).lhs == fr[o].rhs[k]->N_0;
                    assert(defines(fr, rv[x].lhs));
                }
            }
        }
        changed
    }

    /// Inline leading non-terminals until every rule starts with a terminal.
    /// Returns `false`, leaving a grammar that is not yet in that form, when
    /// left recursion makes this impossible.
    pub fn convert_to_gnf(&mut self) -> (ok: bool)
        requires
            all_tail_ok(old(self)@.rules),
        ensures
            final(self)@.start == old(self)@.start,
            all_tail_ok(final(self)@.rules),
            ok ==> all_gnf(final(self)@.rules),
            refs_defined(old(self)@.rules) && !lead_cycle(old(self)@.rules) ==> ok,
            ok <==> gnf_fix(old(self)@.rules) is Some,
            ok ==> final(self)@.rules == gnf_fix(old(self)@.rules)->Some_0,
    {
        loop
            invariant
                all_tail_ok(self@.rules),
                self@.start == old(self)@.start,
                refs_defined(old(self)@.rules) ==> refs_defined(self@.rules),
                lead_cycle(self@.rules) ==> lead_cycle(old(self)@.rules),
                gnf_fix(old(self)@.rules) == gnf_fix(self@.rules),
            decreases count_nfirst(self@.rules),
        {
            if self.is_in_gnf() {
                proof {
                    lemma_gnf_count(self@.rules);
                }
                return true;
            }
            let ghost before = self@.rules;
            proof {
                let i = choose|i: int| 0 <= i < before.len() && !gnf_rule(#[trigger] before[i]);
                assert(tail_ok(before[i]));
                assert(nfirst(before[i]));
                lemma_count_nfirst_pos(before, i);
            }
            let changed = self.gnf_round();
            proof {
                if lead_cycle(self@.rules) {
                    lemma_lead_cycle_back(self@.rules, before);
                }
            }
            if !changed {
                proof {
                    if refs_defined(old(self)@.rules) {
                        lemma_lead_stuck_cycle(before);
                    }
                }
                return false;
            }
        }
    }
}

} // verus!

verus! {

/// The rule's right-hand side is a single non-terminal.
pub open spec fn unit_rule(r: RuleV) -> bool {
    r.rhs.len() == 1 && r.rhs[0] is N
}

pub open spec fn count_units(s: Seq<RuleV>) -> nat
    decreases s.len(),
{
    if s.len() == 0 {
        0
    } else {
        count_units(s.drop_last()) + if unit_rule(s.last()) {
            1nat
        } else {
            0nat
        }
    }
}

proof fn lemma_count_units_push(s: Seq<RuleV>, x: RuleV)
    ensures
        count_units(s.push(x)) == count_units(s) + if unit_rule(x) {
            1nat
        } else {
            0nat
        },
{
    assert(s.push(x).drop_last() =~= s);
}

/// No rule of `rules` is a unit rule.
pub open spec fn no_units(rules: Seq<RuleV>) -> bool {
    forall|i: int| 0 <= i < rules.len() ==> !unit_rule(#[trigger] rules[i])
}

/// What replaces rule `r` in one round of unit-rule removal over `rv`: when
/// `r` is a unit rule whose target has rules and no unit rule, one copy of
/// each rule of the target with `r`'s left-hand side, in order; else `r`.
pub open spec fn unit_piece(rv: Seq<RuleV>, r: RuleV) -> Seq<RuleV> {
    if unit_rule(r) && unit_free(rv, r.rhs[0]->N_0) {
        crate::lowlevel::rhs_of(rv, r.rhs[0]->N_0).map_values(|rhs: Seq<Sym>| RuleV { lhs: r.lhs, rhs })
    } else {
        seq![r]
    }
}

/// One round of unit-rule removal over the first `i` rules of `rv`.
pub open spec fn unit_round_upto(rv: Seq<RuleV>, i: int) -> Seq<RuleV>
    decreases i,
{
    if i <= 0 {
        Seq::empty()
    } else {
        unit_round_upto(rv, i - 1) + unit_piece(rv, rv[i - 1])
    }
}

/// Rounds of unit-rule removal until no unit rule is left, or `None` when a
/// round removes none.
pub open spec fn unit_fix(rv: Seq<RuleV>) -> Option<Seq<RuleV>>
    decreases count_units(rv),
{
    if count_units(rv) == 0 {
        Some(rv)
    } else {
        let r2 = unit_round_upto(rv, rv.len() as int);
        if count_units(r2) < count_units(rv) {
            unit_fix(r2)
        } else {
            None
        }
    }
}

/// No unit rule can be expanded: the target of each is itself the
/// left-hand side of a unit rule, or has no rule.
pub open spec fn unit_stuck(rules: Seq<RuleV>) -> bool {
    forall|i: int| 0 <= i < rules.len() && unit_rule(#[trigger] rules[i]) ==> !unit_free(rules, rules[i].rhs[0]->N_0)
}

/// The rules of `n` are no unit rules, and there is at least one.
pub open spec fn unit_free(rules: Seq<RuleV>, n: Seq<char>) -> bool {
    defines(rules, n) && forall|j: int|
        0 <= j < rules.len() && (#[trigger] rules[j]).lhs == n ==> !unit_rule(rules[j])
}

fn all_unit_free(rules: &Vec<ProductionRule>, n: &NonTerminal) -> (b: bool)
    ensures
        b == unit_free(rules_view(rules@), n@),
{
    let ghost rv = rules_view(rules@);
    let mut found = false;
    let mut j: usize = 0;
    while j < rules.len()
        invariant
            j <= rules@.len(),
            rv == rules_view(rules@),
            found == exists|a: int| 0 <= a < j && (#[trigger] rv[a]).lhs == n@,
            forall|a: int| 0 <= a < j && (#[trigger] rv[a]).lhs == n@ ==> !unit_rule(rv[a]),
        decreases rules@.len() - j,
    {
        if rules[j].lhs.same(n) {
            assert(rv[j as int].rhs == syms(rules@[j as int].rhs@));
            if rules[j].rhs.len() == 1 && rules[j].rhs[0].is_non_terminal() {
                assert(unit_rule(rv[j as int]));
                return false;
            }
            found = true;
        }
        j += 1;
    }
    found
}

impl ContextFreeGrammar {
    #[verifier::rlimit(100)]
    fn unit_round(&mut self) -> (changed: bool)
        requires
            all_nonempty(old(self)@.rules),
        ensures
            final(self)@.start == old(self)@.start,
            all_nonempty(final(self)@.rules),
            changed ==> count_units(final(self)@.rules) < count_units(old(self)@.rules),
            !changed ==> final(self)@.rules == old(self)@.rules,
            !changed ==> unit_stuck(old(self)@.rules),
            refs_defined(old(self)@.rules) ==> refs_defined(final(self)@.rules),
            forall|o: int| 0 <= o < final(self)@.rules.len() && unit_rule(#[trigger] final(self)@.rules[o])
                ==> old(self)@.rules.contains(final(self)@.rules[o]),
            final(self)@.rules == unit_round_upto(old(self)@.rules, old(self)@.rules.len() as int),
    {
        let ghost rv = self@.rules;
        let ghost rd = refs_defined(rv);
        let mut out: Vec<ProductionRule> = Vec::new();
        let mut changed = false;
        let mut i: usize = 0;
        assert(rv.subrange(0, 0) =~= Seq::<RuleV>::empty());
        while i < self.rules.len()
            invariant
                i <= self.rules@.len(),
                rv == self@.rules,
                rd == refs_defined(rv),
                all_nonempty(rv),
                all_nonempty(rules_view(out@)),
                count_units(rules_view(out@)) <= count_units(rv.subrange(0, i as int)),
                changed ==> count_units(rules_view(out@)) < count_units(rv.subrange(0, i as int)),
                !changed ==> rules_view(out@) == rv.subrange(0, i as int),
                rd ==> forall|o: int, k: int|
                    0 <= o < out@.len() && 0 <= k < rules_view(out@)[o].rhs.len() && (#[trigger] rules_view(out@)[o].rhs[k]) is N
                        ==> defines(rv, rules_view(out@)[o].rhs[k]->N_0),
                forall|m: int| 0 <= m < i ==> defines(rules_view(out@), (#[trigger] rv[m]).lhs),
                forall|o: int| 0 <= o < out@.len() && unit_rule(#[trigger] rules_view(out@)[o]) ==> rv.contains(rules_view(out@)[o]),
                !changed ==> forall|m: int| 0 <= m < i && unit_rule(#[trigger] rv[m]) ==> !unit_free(rv, rv[m].rhs[0]->N_0),
                rules_view(out@) == unit_round_upto(rv, i as int),
            decreases self.rules@.len() - i,
        {
            let ghost cur = rv.subrange(0, i as int + 1);
            let ghost out_start = rules_view(out@);
            assert(cur.drop_last() =~= rv.subrange(0, i as int));
            assert(cur.last() == rv[i as int]);
            let rule = &self.rules[i];
            assert(rv[i as int].rhs == syms(rule.rhs@));
            let mut done = false;
            if rule.rhs.len() == 1 {
                if let Symbol::NonTerminal(b) = &rule.rhs[0] {
                    if all_unit_free(&self.rules, b) {
                        let ghost out0 = rules_view(out@);
                        let ghost lhs_i = rv[i as int].lhs;
                        assert(rv.subrange(0, 0) =~= Seq::<RuleV>::empty());
                        assert(out0 =~= out0 + crate::lowlevel::rhs_of(rv.subrange(0, 0), b@).map_values(
                            |rhs: Seq<Sym>| RuleV { lhs: lhs_i, rhs },
                        ));
                        let mut found = false;
                        let mut j: usize = 0;
                        while j < self.rules.len()
                            invariant
                                j <= self.rules@.len(),
                                i < rv.len(),
                                rv == self@.rules,
                                rv[i as int] == rule@,
                                rd == refs_defined(rv),
                                all_nonempty(rv),
                                unit_free(rv, b@),
                                all_nonempty(rules_view(out@)),
                                count_units(rules_view(out@)) == count_units(out0),
                                out0.is_prefix_of(rules_view(out@)),
                                found == exists|x: int| 0 <= x < j && (#[trigger] rv[x]).lhs == b@,
                                found ==> defines(rules_view(out@), rv[i as int].lhs),
                                lhs_i == rv[i as int].lhs,
                                rules_view(out@) == out0 + crate::lowlevel::rhs_of(rv.subrange(0, j as int), b@).map_values(
                                    |rhs: Seq<Sym>| RuleV { lhs: rv[i as int].lhs, rhs },
                                ),
                                rd ==> forall|o: int, k: int|
                                    0 <= o < out@.len() && 0 <= k < rules_view(out@)[o].rhs.len() && (#[trigger] rules_view(out@)[o].rhs[k]) is N
                                        ==> defines(rv, rules_view(out@)[o].rhs[k]->N_0),
                                forall|o: int| 0 <= o < out@.len() && unit_rule(#[trigger] rules_view(out@)[o]) ==> rv.contains(rules_view(out@)[o]),
                            decreases self.rules@.len() - j,
                        {
                            let ghost cj = rv.subrange(0, j as int + 1);
                            let ghost outj = rules_view(out@);
                            assert(cj.drop_last() =~= rv.subrange(0, j as int));
                            assert(cj.last() == rv[j as int]);
                            if self.rules[j].lhs.same(b) {
                                let other = &self.rules[j];
                                assert(rv[j as int].rhs == syms(other.rhs@));
                                let new_rule = ProductionRule {
                                    lhs: rule.lhs.dup(),
                                    rhs: dup_symbols(other.rhs.as_slice()),
                                };
                                let ghost prev = rules_view(out@);
                                let ghost nr = new_rule@;
                                proof {
                                    assert(!unit_rule(rv[j as int]));
                                    lemma_count_units_push(prev, nr);
                                }
                                out.push(new_rule);
                                assert(rules_view(out@) =~= prev.push(nr));
                                proof {
                                    let ov = rules_view(out@);
                                    assert(ov[prev.len() as int] == nr);
                                    if rd {
                                        assert forall|o: int, k: int|
                                            0 <= o < ov.len() && 0 <= k < ov[o].rhs.len() && (#[trigger] ov[o].rhs[k]) is N
                                            implies defines(rv, ov[o].rhs[k]->N_0) by {
                                            if o == prev.len() {
                                                assert(ov[o].rhs[k] == rv[j as int].rhs[k]);
                                            } else {
                                                assert(ov[o] == prev[o]);
                                            }
                                        }
                                    }
                                    assert forall|o: int| 0 <= o < ov.len() && unit_rule(#[trigger] ov[o]) implies rv.contains(ov[o]) by {
                                        if o < prev.len() {
                                            assert(ov[o] == prev[o]);
                                        }
                                    }
                                    assert(ov[prev.len() as int].lhs == rv[i as int].lhs);
                                    assert(out0.is_prefix_of(ov)) by {
                                        assert(ov.subrange(0, out0.len() as int) =~= prev.subrange(0, out0.len() as int));
                                    }
                                }
                                found = true;
                                proof {
                                    let mp = |rhs: Seq<Sym>| RuleV { lhs: lhs_i, rhs };
                                    assert(rules_view(out@) =~= outj.push(nr));
                                    assert(nr.rhs =~= rv[j as int].rhs);
                                    assert(nr == (RuleV { lhs: lhs_i, rhs: rv[j as int].rhs }));
                                    assert(crate::lowlevel::rhs_of(cj, b@) == crate::lowlevel::rhs_of(rv.subrange(0, j as int), b@).push(rv[j as int].rhs));
                                    assert(crate::lowlevel::rhs_of(cj, b@).map_values(mp) =~= crate::lowlevel::rhs_of(rv.subrange(0, j as int), b@).map_values(mp).push(nr));
                                    assert(rules_view(out@) =~= out0 + crate::lowlevel::rhs_of(cj, b@).map_values(mp));
                                }
                            } else {
                                proof {
                                    if found {
                                        let w = choose|w: int| 0 <= w < rules_view(out@).len() && (#[trigger] rules_view(out@)[w]).lhs == rv[i as int].lhs;
                                    }
                                }
                            }
                            j += 1;
                        }
                        proof {
                            assert(rv.subrange(0, rv.len() as int) =~= rv);
                            assert(unit_rule(rv[i as int]) && unit_free(rv, rv[i as int].rhs[0]->N_0));
                            assert(rules_view(out@) =~= unit_round_upto(rv, i as int + 1));
                            lemma_count_units_push(rv.subrange(0, i as int), rv[i as int]);
                            assert(defines(rv, b@));
                            let x = choose|x: int| 0 <= x < rv.len() && (#[trigger] rv[x]).lhs == b@;
                            assert(found);
                            let ov = rules_view(out@);
                            assert forall|m: int| 0 <= m < i + 1 implies defines(ov, (#[trigger] rv[m]).lhs) by {
                                if m < i {
                                    assert(defines(out0, rv[m].lhs));
                                    let w = choose|w: int| 0 <= w < out0.len() && (#[trigger] out0[w]).lhs == rv[m].lhs;
                                    assert(ov[w] == out0[w]);
                                }
                            }
                        }
                        done = true;
                        changed = true;
                    }
                }
            }
            if !done {
                let ghost prev = rules_view(out@);
                proof {
                    lemma_count_units_push(prev, rv[i as int]);
                    lemma_count_units_push(rv.subrange(0, i as int), rv[i as int]);
                }
                out.push(rule.dup());
                assert(rules_view(out@) =~= prev.push(rv[i as int]));
                proof {
                    assert(!(unit_rule(rv[i as int]) && unit_free(rv, rv[i as int].rhs[0]->N_0)));
                    assert(rules_view(out@) =~= unit_round_upto(rv, i as int + 1));
                }
                proof {
                    let ov = rules_view(out@);
                    assert(ov[prev.len() as int] == rv[i as int]);
                    if rd {
                        assert forall|o: int, k: int|
                            0 <= o < ov.len() && 0 <= k < ov[o].rhs.len() && (#[trigger] ov[o].rhs[k]) is N
                            implies defines(rv, ov[o].rhs[k]->N_0) by {
                            if o < prev.len() {
                                assert(ov[o] == prev[o]);
                            }
                        }
                    }
                    assert forall|o: int| 0 <= o < ov.len() && unit_rule(#[trigger] ov[o]) implies rv.contains(ov[o]) by {
                        if o < prev.len() {
                            assert(ov[o] == prev[o]);
                        }
                    }
                    assert forall|m: int| 0 <= m < i + 1 implies defines(ov, (#[trigger] rv[m]).lhs) by {
                        if m < i {
                            let w = choose|w: int| 0 <= w < prev.len() && (#[trigger] prev[w]).lhs == rv[m].lhs;
                            assert(ov[w] == prev[w]);
                        }
                    }
                    if !changed && unit_rule(rv[i as int]) {
                        assert(!unit_free(rv, rv[i as int].rhs[0]->N_0));
                    }
                }
            }
            i += 1;
        }
        assert(rv.subrange(0, rv.len() as int) =~= rv);
        self.rules = out;
        proof {
            let fr = self@.rules;
            if rd {
                assert forall|o: int, k: int| 0 <= o < fr.len() && 0 <= k < fr[o].rhs.len() && (#[trigger] fr[o].rhs[k]) is N
                    implies defines(fr, fr[o].rhs[k]->N_0) by {
                    let x = choose|x: int| 0 <= x < rv.len() && (#[trigger] rv[x]).lhs == fr[o].rhs[k]->N_0;
                    assert(defines(fr, rv[x].lhs));
                }
            }
        }
        changed
    }


    /// Replace every unit rule `A -> B` by copies of the rules of `B`, transitively.
    /// Returns `false` when unit rules form a cycle (`A -> A` included).
    pub fn remove_unit_rules(&mut self) -> (ok: bool)
        requires
            all_nonempty(old(self)@.rules),
        ensures
            final(self)@.start == old(self)@.start,
            all_nonempty(final(self)@.rules),
            ok ==> no_units(final(self)@.rules),
            refs_defined(old(self)@.rules) && !unit_cycle(old(self)@.rules) ==> ok,
            no_units(old(self)@.rules) ==> ok && final(self)@ == old(self)@,
            ok <==> unit_fix(old(self)@.rules) is Some,
            ok ==> final(self)@.rules == unit_fix(old(self)@.rules)->Some_0,
    {
        proof {
            if no_units(self@.rules) {
                lemma_no_units_count(self@.rules);
            }
        }
        loop
            invariant
                all_nonempty(self@.rules),
                self@.start == old(self)@.start,
                no_units(old(self)@.rules) ==> self@ == old(self)@ && count_units(self@.rules) == 0,
                unit_fix(old(self)@.rules) == unit_fix(self@.rules),
                refs_defined(old(self)@.rules) ==> refs_defined(self@.rules),
                unit_cycle(self@.rules) ==> unit_cycle(old(self)@.rules),
            decreases count_units(self@.rules),
        {
            let ghost before = self@.rules;
            if self.count_unit_rules() == 0 {
                proof {
                    let rv = self@.rules;
                    assert forall|i: int| 0 <= i < rv.len() implies !unit_rule(#[trigger] rv[i]) by {
                        if unit_rule(rv[i]) {
                            lemma_count_units_pos(rv, i);
                        }
                    }
                }
                return true;
            }
            let changed = self.unit_round();
            proof {
                if unit_cycle(self@.rules) {
                    lemma_cycle_back(self@.rules, before);
                }
            }
            if !changed {
                proof {
                    if refs_defined(old(self)@.rules) {
                        lemma_stuck_cycle(before);
                    }
                }
                return false;
            }
        }
    }

    fn count_unit_rules(&self) -> (n: usize)
        ensures
            n == count_units(self@.rules),
    {
        let ghost rv = self@.rules;
        let mut n: usize = 0;
        let mut i: usize = 0;
        assert(rv.subrange(0, 0) =~= Seq::<RuleV>::empty());
        while i < self.rules.len()
            invariant
                i <= self.rules@.len(),
                rv == self@.rules,
                n == count_units(rv.subrange(0, i as int)),
                n <= i,
            decreases self.rules@.len() - i,
        {
            let ghost cur = rv.subrange(0, i as int + 1);
            assert(cur.drop_last() =~= rv.subrange(0, i as int));
            let rule = &self.rules[i];
            assert(rv[i as int].rhs == syms(rule.rhs@));
            if rule.rhs.len() == 1 && rule.rhs[0].is_non_terminal() {
                n += 1;
            }
            i += 1;
        }
        assert(rv.subrange(0, rv.len() as int) =~= rv);
        n
    }
}

proof fn lemma_no_units_count(s: Seq<RuleV>)
    requires
        no_units(s),
    ensures
        count_units(s) == 0,
    decreases s.len(),
{
    if s.len() > 0 {
        assert(!unit_rule(s[s.len() - 1]));
        assert forall|i: int| 0 <= i < s.drop_last().len() implies !unit_rule(#[trigger] s.drop_last()[i]) by {
            assert(s.drop_last()[i] == s[i]);
        }
        lemma_no_units_count(s.drop_last());
    }
}

proof fn lemma_count_units_pos(s: Seq<RuleV>, i: int)
    requires
        0 <= i < s.len(),
        unit_rule(s[i]),
    ensures
        count_units(s) > 0,
    decreases s.len(),
{
    if i < s.len() - 1 {
        lemma_count_units_pos(s.drop_last(), i);
    }
}

} // verus!

verus! {

/// The name of the non-terminal that stands for terminal `t` in longer rules.
pub open spec fn term_name(t: Seq<char>) -> Seq<char> {
    "(term:"@ + t + ")"@
}

/// A right-hand side longer than one symbol with each terminal replaced by its non-terminal.
pub open spec fn isolate(s: Seq<Sym>) -> Seq<Sym> {
    if s.len() > 1 {
        s.map_values(|x: Sym| if x is T { Sym::N(term_name(x->T_0)) } else { x })
    } else {
        s
    }
}

/// The rule is a single symbol, or non-terminals only.
pub open spec fn shaped(r: RuleV) -> bool {
    r.rhs.len() >= 1 && (r.rhs.len() == 1 || forall|k: int| 0 <= k < r.rhs.len() ==> #[trigger] r.rhs[k] is N)
}

pub open spec fn all_shaped(rules: Seq<RuleV>) -> bool {
    forall|i: int| 0 <= i < rules.len() ==> shaped(#[trigger] rules[i])
}

/// Some rule of `rules` has the left-hand side of `r`, two symbols, and the
/// last symbol of `r` as its second: the head of the chain that replaces `r`.
pub open spec fn has_tail_rule(rules: Seq<RuleV>, r: RuleV) -> bool {
    exists|j: int| 0 <= j < rules.len() && (#[trigger] rules[j]).lhs == r.lhs && rules[j].rhs.len() == 2
        && rules[j].rhs[1] == r.rhs.last()
}

/// `n` occurs on the right-hand side of some rule.
pub open spec fn on_rhs(rules: Seq<RuleV>, n: Seq<char>) -> bool {
    exists|i: int, k: int| 0 <= i < rules.len() && 0 <= k < rules[i].rhs.len() && #[trigger] rules[i].rhs[k] == Sym::N(n)
}

/// The number of rules of `s` whose left-hand side is `n`.
pub open spec fn count_lhs(s: Seq<RuleV>, n: Seq<char>) -> nat
    decreases s.len(),
{
    if s.len() == 0 {
        0
    } else {
        count_lhs(s.drop_last(), n) + if s.last().lhs == n {
            1nat
        } else {
            0nat
        }
    }
}

pub(crate) fn string_in(v: &Vec<String>, s: &String) -> (b: bool)
    ensures
        b == exists|k: int| 0 <= k < v@.len() && (#[trigger] v@[k])@ == s@,
{
    let mut k: usize = 0;
    while k < v.len()
        invariant
            k <= v@.len(),
            forall|m: int| 0 <= m < k ==> (#[trigger] v@[m])@ != s@,
        decreases v@.len() - k,
    {
        if v[k] == *s {
            return true;
        }
        k += 1;
    }
    false
}

fn make_term_name(t: &String) -> (r: String)
    ensures
        r@ == term_name(t@),
{
    crate::text::join3("(term:", t.as_str(), ")")
}

fn make_break_name(k: usize) -> (r: String)
    ensures
        r@ == "(break_rules:"@ + crate::text::dec(k as nat) + ")"@,
{
    let d = crate::text::decimal(k);
    crate::text::join3("(break_rules:", d.as_str(), ")")
}

impl ContextFreeGrammar {
    /// In every rule longer than one symbol, replace each terminal `t` by a
    /// non-terminal that expands to `t` alone, and add one such rule per terminal.
    pub fn remove_mixed_rules(&mut self)
        requires
            all_nonempty(old(self)@.rules),
        ensures
            final(self)@.start == old(self)@.start,
            final(self)@.rules.len() >= old(self)@.rules.len(),
            forall|i: int|
                0 <= i < old(self)@.rules.len() ==> (#[trigger] final(self)@.rules[i]) == (RuleV {
                    lhs: old(self)@.rules[i].lhs,
                    rhs: isolate(old(self)@.rules[i].rhs),
                }),
            forall|i: int|
                old(self)@.rules.len() <= i < final(self)@.rules.len() ==> {
                    let r = #[trigger] final(self)@.rules[i];
                    r.rhs.len() == 1 && r.rhs[0] is T && r.lhs == term_name(r.rhs[0]->T_0)
                },
            all_shaped(final(self)@.rules),
    {
        let ghost rv = self@.rules;
        let mut out: Vec<ProductionRule> = Vec::new();
        let mut seen: Vec<String> = Vec::new();
        let mut i: usize = 0;
        while i < self.rules.len()
            invariant
                i <= self.rules@.len(),
                rv == self@.rules,
                all_nonempty(rv),
                out@.len() == i,
                forall|a: int|
                    0 <= a < i ==> (#[trigger] rules_view(out@)[a]) == (RuleV {
                        lhs: rv[a].lhs,
                        rhs: isolate(rv[a].rhs),
                    }),
            decreases self.rules@.len() - i,
        {
            let rule = &self.rules[i];
            assert(rv[i as int].rhs == syms(rule.rhs@));
            let mut rhs: Vec<Symbol> = Vec::new();
            if rule.rhs.len() > 1 {
                let mut k: usize = 0;
                while k < rule.rhs.len()
                    invariant
                        k <= rule.rhs@.len(),
                        rhs@.len() == k,
                        rule.rhs@.len() > 1,
                        forall|m: int|
                            0 <= m < k ==> (#[trigger] rhs@[m])@ == isolate(syms(rule.rhs@))[m],
                    decreases rule.rhs@.len() - k,
                {
                    match &rule.rhs[k] {
                        Symbol::Terminal(t) => {
                            if !string_in(&seen, &t.0) {
                                seen.push(t.0.clone());
                            }
                            rhs.push(Symbol::NonTerminal(NonTerminal(make_term_name(&t.0))));
                        },
                        Symbol::NonTerminal(n) => {
                            rhs.push(Symbol::NonTerminal(n.dup()));
                        },
                    }
                    k += 1;
                }
                assert(syms(rhs@) =~= isolate(syms(rule.rhs@)));
            } else {
                rhs = dup_symbols(rule.rhs.as_slice());
            }
            let ghost prev = rules_view(out@);
            let new_rule = ProductionRule { lhs: rule.lhs.dup(), rhs };
            let ghost nr = new_rule@;
            out.push(new_rule);
            assert(rules_view(out@) =~= prev.push(nr));
            i += 1;
        }
        let ghost n0 = out@.len();
        let mut k: usize = 0;
        while k < seen.len()
            invariant
                k <= seen@.len(),
                n0 == rv.len(),
                out@.len() == n0 + k,
                forall|a: int|
                    0 <= a < n0 ==> (#[trigger] rules_view(out@)[a]) == (RuleV {
                        lhs: rv[a].lhs,
                        rhs: isolate(rv[a].rhs),
                    }),
                forall|a: int|
                    n0 <= a < out@.len() ==> {
                        let r = #[trigger] rules_view(out@)[a];
                        r.rhs.len() == 1 && r.rhs[0] is T && r.lhs == term_name(r.rhs[0]->T_0)
                    },
            decreases seen@.len() - k,
        {
            let t = &seen[k];
            let rule = ProductionRule {
                lhs: NonTerminal(make_term_name(t)),
                rhs: vec![Symbol::Terminal(Terminal(t.clone()))],
            };
            assert(rule@.rhs =~= seq![Sym::T(t@)]);
            let ghost prev = rules_view(out@);
            let ghost nr = rule@;
            out.push(rule);
            assert(rules_view(out@) =~= prev.push(nr));
            k += 1;
        }
        self.rules = out;
        proof {
            let fr = self@.rules;
            assert forall|a: int| 0 <= a < fr.len() implies shaped(#[trigger] fr[a]) by {
                if a < rv.len() {
                    assert(rv[a].rhs.len() >= 1);
                    if rv[a].rhs.len() > 1 {
                        assert forall|m: int| 0 <= m < fr[a].rhs.len() implies #[trigger] fr[a].rhs[m] is N by {
                            assert(fr[a].rhs[m] == (if rv[a].rhs[m] is T { Sym::N(term_name(rv[a].rhs[m]->T_0)) } else { rv[a].rhs[m] }));
                        }
                    }
                }
            }
        }
    }

    /// Split every rule with more than two symbols (all non-terminals) into a
    /// chain of rules with two symbols each, introducing fresh non-terminals.
    pub fn break_rules(&mut self)
        requires
            all_shaped(old(self)@.rules),
        ensures
            final(self)@.start == old(self)@.start,
            all_shaped(final(self)@.rules),
            forall|i: int| 0 <= i < final(self)@.rules.len() ==> (#[trigger] final(self)@.rules[i]).rhs.len() <= 2,
            forall|i: int| 0 <= i < old(self)@.rules.len() && (#[trigger] old(self)@.rules[i]).rhs.len() <= 2
                ==> final(self)@.rules.contains(old(self)@.rules[i]),
            forall|i: int| 0 <= i < old(self)@.rules.len() && (#[trigger] old(self)@.rules[i]).rhs.len() > 2
                ==> has_tail_rule(final(self)@.rules, old(self)@.rules[i]),
    {
        let ghost rv = self@.rules;
        let mut out: Vec<ProductionRule> = Vec::new();
        let mut cursor: usize = 0;
        let mut i: usize = 0;
        while i < self.rules.len()
            invariant
                i <= self.rules@.len(),
                rv == self@.rules,
                all_shaped(rv),
                all_shaped(rules_view(out@)),
                forall|a: int| 0 <= a < out@.len() ==> (#[trigger] rules_view(out@)[a]).rhs.len() <= 2,
                forall|m: int| 0 <= m < i && (#[trigger] rv[m]).rhs.len() <= 2 ==> rules_view(out@).contains(rv[m]),
                forall|m: int| 0 <= m < i && (#[trigger] rv[m]).rhs.len() > 2 ==> has_tail_rule(rules_view(out@), rv[m]),
            decreases self.rules@.len() - i,
        {
            let ghost out0 = rules_view(out@);
            let rule = &self.rules[i];
            assert(rv[i as int].rhs == syms(rule.rhs@));
            assert(shaped(rv[i as int]));
            let mut lhs = rule.lhs.dup();
            let mut rest = dup_symbols(rule.rhs.as_slice());
            assert(forall|m: int| 0 <= m < rest@.len() ==> (#[trigger] rest@[m])@ == rv[i as int].rhs[m]);
            while rest.len() > 2
                invariant
                    rest@.len() >= 1,
                    rest@.len() > 1 ==> forall|m: int| 0 <= m < rest@.len() ==> (#[trigger] rest@[m])@ is N,
                    all_shaped(rules_view(out@)),
                    forall|a: int| 0 <= a < out@.len() ==> (#[trigger] rules_view(out@)[a]).rhs.len() <= 2,
                    i < rv.len(),
                    rest@.len() <= rv[i as int].rhs.len(),
                    rest@.len() == rv[i as int].rhs.len() ==> lhs@ == rv[i as int].lhs && syms(rest@) == rv[i as int].rhs,
                    rest@.len() < rv[i as int].rhs.len() ==> has_tail_rule(rules_view(out@), rv[i as int])
                        && rv[i as int].rhs.len() > 2,
                    out0.is_prefix_of(rules_view(out@)),
                decreases rest@.len(),
            {
                let ghost first = rest@.len() == rv[i as int].rhs.len();
                let ghost rest0 = syms(rest@);
                let last = rest.pop().unwrap();
                let fresh = NonTerminal(make_break_name(cursor));
                cursor = cursor.wrapping_add(1);
                let new_rule = ProductionRule {
                    lhs,
                    rhs: vec![Symbol::NonTerminal(fresh.dup()), last],
                };
                let ghost prev = rules_view(out@);
                let ghost nr = new_rule@;
                assert(nr.rhs.len() == 2);
                assert(nr.rhs[0] is N);
                assert(nr.rhs[1] is N);
                assert(shaped(nr));
                out.push(new_rule);
                assert(rules_view(out@) =~= prev.push(nr));
                proof {
                    if first {
                        assert(rest0.last() == last@);
                        assert(rules_view(out@)[prev.len() as int] == nr);
                        assert(has_tail_rule(rules_view(out@), rv[i as int]));
                    } else {
                        let j = choose|j: int| 0 <= j < prev.len() && (#[trigger] prev[j]).lhs == rv[i as int].lhs
                            && prev[j].rhs.len() == 2 && prev[j].rhs[1] == rv[i as int].rhs.last();
                        assert(rules_view(out@)[j] == prev[j]);
                    }
                }
                lhs = fresh;
            }
            let new_rule = ProductionRule { lhs, rhs: rest };
            let ghost prev = rules_view(out@);
            let ghost nr = new_rule@;
            assert(shaped(nr));
            out.push(new_rule);
            assert(rules_view(out@) =~= prev.push(nr));
            proof {
                let o = rules_view(out@);
                assert forall|m: int| 0 <= m < i + 1 && (#[trigger] rv[m]).rhs.len() <= 2 implies o.contains(rv[m]) by {
                    if m < i {
                        let j = choose|j: int| 0 <= j < out0.len() && out0[j] == rv[m];
                        assert(o[j] == out0[j]);
                    } else {
                        assert(o[prev.len() as int] == nr);
                        assert(rest@.len() == rv[i as int].rhs.len());
                        assert(nr == rv[m]);
                    }
                }
                assert forall|m: int| 0 <= m < i + 1 && (#[trigger] rv[m]).rhs.len() > 2 implies has_tail_rule(o, rv[m]) by {
                    if m < i {
                        let j = choose|j: int| 0 <= j < out0.len() && (#[trigger] out0[j]).lhs == rv[m].lhs
                            && out0[j].rhs.len() == 2 && out0[j].rhs[1] == rv[m].rhs.last();
                        assert(o[j] == out0[j]);
                    } else {
                        let j = choose|j: int| 0 <= j < prev.len() && (#[trigger] prev[j]).lhs == rv[m].lhs
                            && prev[j].rhs.len() == 2 && prev[j].rhs[1] == rv[m].rhs.last();
                        assert(o[j] == prev[j]);
                    }
                }
            }
            i += 1;
        }
        self.rules = out;
    }

    /// The number of rules of the entrypoint.
    pub fn count_entrypoint_rules(&self) -> (n: usize)
        ensures
            n == count_lhs(self@.rules, self@.start),
    {
        let ghost rv = self@.rules;
        let mut n: usize = 0;
        let mut i: usize = 0;
        assert(rv.subrange(0, 0) =~= Seq::<RuleV>::empty());
        while i < self.rules.len()
            invariant
                i <= self.rules@.len(),
                rv == self@.rules,
                n == count_lhs(rv.subrange(0, i as int), self@.start),
                n <= i,
            decreases self.rules@.len() - i,
        {
            let ghost cur = rv.subrange(0, i as int + 1);
            assert(cur.drop_last() =~= rv.subrange(0, i as int));
            if self.rules[i].lhs.same(&self.entrypoint) {
                n += 1;
            }
            i += 1;
        }
        assert(rv.subrange(0, rv.len() as int) =~= rv);
        n
    }
}

} // verus!

verus! {

/// `n` occurs in the grammar, as a left-hand side or on a right-hand side.
pub open spec fn name_used(rules: Seq<RuleV>, n: Seq<char>) -> bool {
    defines(rules, n) || on_rhs(rules, n)
}

fn is_name_used(rules: &Vec<ProductionRule>, n: &String) -> (b: bool)
    ensures
        b == name_used(rules_view(rules@), n@),
{
    let ghost rv = rules_view(rules@);
    let mut i: usize = 0;
    while i < rules.len()
        invariant
            i <= rules@.len(),
            rv == rules_view(rules@),
            forall|a: int| 0 <= a < i ==> (#[trigger] rv[a]).lhs != n@,
            forall|a: int, k: int| 0 <= a < i && 0 <= k < rv[a].rhs.len() ==> #[trigger] rv[a].rhs[k] != Sym::N(n@),
        decreases rules@.len() - i,
    {
        let rule = &rules[i];
        assert(rv[i as int].rhs == syms(rule.rhs@));
        if rule.lhs.0 == *n {
            return true;
        }
        let mut k: usize = 0;
        while k < rule.rhs.len()
            invariant
                k <= rule.rhs@.len(),
                i < rules@.len(),
                rv == rules_view(rules@),
                rv[i as int].rhs == syms(rule.rhs@),
                forall|m: int| 0 <= m < k ==> #[trigger] rv[i as int].rhs[m] != Sym::N(n@),
            decreases rule.rhs@.len() - k,
        {
            if let Symbol::NonTerminal(x) = &rule.rhs[k] {
                if x.0 == *n {
                    assert(rv[i as int].rhs[k as int] == Sym::N(n@));
                    return true;
                }
            }
            k += 1;
        }
        i += 1;
    }
    false
}

/// A name that is longer than every name of the grammar.
fn long_name(rules: &Vec<ProductionRule>) -> (r: String)
    ensures
        !name_used(rules_view(rules@), r@),
{
    let ghost rv = rules_view(rules@);
    proof {
        reveal_strlit("(");
        reveal_strlit(")");
    }
    let mut acc = String::from_str("(");
    let mut i: usize = 0;
    while i < rules.len()
        invariant
            i <= rules@.len(),
            rv == rules_view(rules@),
            acc@.len() >= 1,
            forall|a: int| 0 <= a < i ==> acc@.len() >= (#[trigger] rv[a]).lhs.len() + 1,
            forall|a: int, k: int|
                0 <= a < i && 0 <= k < rv[a].rhs.len() && (#[trigger] rv[a].rhs[k]) is N ==> acc@.len()
                    >= rv[a].rhs[k]->N_0.len() + 1,
        decreases rules@.len() - i,
    {
        let rule = &rules[i];
        assert(rv[i as int].rhs == syms(rule.rhs@));
        acc.append(rule.lhs.0.as_str());
        let mut k: usize = 0;
        while k < rule.rhs.len()
            invariant
                k <= rule.rhs@.len(),
                i < rules@.len(),
                rv == rules_view(rules@),
                rv[i as int].rhs == syms(rule.rhs@),
                acc@.len() >= rv[i as int].lhs.len() + 1,
                forall|a: int| 0 <= a < i ==> acc@.len() >= (#[trigger] rv[a]).lhs.len() + 1,
                forall|a: int, m: int|
                    0 <= a < i && 0 <= m < rv[a].rhs.len() && (#[trigger] rv[a].rhs[m]) is N ==> acc@.len()
                        >= rv[a].rhs[m]->N_0.len() + 1,
                forall|m: int|
                    0 <= m < k && (#[trigger] rv[i as int].rhs[m]) is N ==> acc@.len()
                        >= rv[i as int].rhs[m]->N_0.len() + 1,
            decreases rule.rhs@.len() - k,
        {
            if let Symbol::NonTerminal(x) = &rule.rhs[k] {
                acc.append(x.0.as_str());
            }
            k += 1;
        }
        i += 1;
    }
    acc.append(")");
    proof {
        assert forall|a: int| 0 <= a < rv.len() implies (#[trigger] rv[a]).lhs != acc@ by {
            assert(acc@.len() > rv[a].lhs.len());
        }
        assert forall|a: int, k: int| 0 <= a < rv.len() && 0 <= k < rv[a].rhs.len() implies #[trigger] rv[a].rhs[k] != Sym::N(acc@) by {
            if rv[a].rhs[k] is N {
                assert(acc@.len() > rv[a].rhs[k]->N_0.len());
            }
        }
    }
    acc
}

impl ContextFreeGrammar {
    /// If the entrypoint occurs on a right-hand side, introduce a fresh
    /// entrypoint whose rules are copies of the old entrypoint's rules.
    pub fn set_new_entrypoint(&mut self)
        requires
            all_gnf(old(self)@.rules),
        ensures
            all_gnf(final(self)@.rules),
            !on_rhs(final(self)@.rules, final(self)@.start),
            defines(old(self)@.rules, old(self)@.start) ==> defines(final(self)@.rules, final(self)@.start),
            !on_rhs(old(self)@.rules, old(self)@.start) ==> final(self)@ == old(self)@,
            on_rhs(old(self)@.rules, old(self)@.start) ==> !name_used(old(self)@.rules, final(self)@.start),
            forall|i: int| 0 <= i < old(self)@.rules.len() ==> #[trigger] final(self)@.rules[i] == old(self)@.rules[i],
            on_rhs(old(self)@.rules, old(self)@.start) ==> final(self)@.rules == old(self)@.rules
                + crate::lowlevel::rhs_of(old(self)@.rules, old(self)@.start).map_values(
                |rhs: Seq<Sym>| RuleV { lhs: final(self)@.start, rhs },
            ),
            on_rhs(old(self)@.rules, old(self)@.start) && !name_used(old(self)@.rules, "(real_entrypoint)"@)
                ==> final(self)@.start == "(real_entrypoint)"@,
    {
        let ghost rv = self@.rules;
        let ghost st = self@.start;
        let name = String::from_str("(real_entrypoint)");
        if !is_name_used_on_rhs(&self.rules, &self.entrypoint) {
            return;
        }
        let fresh = if !is_name_used(&self.rules, &name) {
            name
        } else {
            long_name(&self.rules)
        };
        proof {
            reveal_strlit("(real_entrypoint)");
        }
        let mut i: usize = 0;
        let mut found = false;
        let n = self.rules.len();
        assert(rv.subrange(0, 0) =~= Seq::<RuleV>::empty());
        assert(self@.rules =~= rv + crate::lowlevel::rhs_of(rv.subrange(0, 0), st).map_values(
            |rhs: Seq<Sym>| RuleV { lhs: fresh@, rhs },
        ));
        while i < n
            invariant
                i <= n,
                n == rv.len(),
                self@.start == st,
                self@.rules.len() >= n,
                forall|a: int| 0 <= a < n ==> #[trigger] self@.rules[a] == rv[a],
                all_gnf(self@.rules),
                !name_used(rv, fresh@),
                forall|a: int| n <= a < self@.rules.len() ==> (#[trigger] self@.rules[a]).lhs == fresh@,
                forall|a: int, k: int|
                    n <= a < self@.rules.len() && 0 <= k < self@.rules[a].rhs.len() ==> #[trigger] self@.rules[a].rhs[k] != Sym::N(fresh@),
                found == exists|a: int| 0 <= a < i && (#[trigger] rv[a]).lhs == st,
                found ==> self@.rules.len() > n,
                self@.rules == rv + crate::lowlevel::rhs_of(rv.subrange(0, i as int), st).map_values(
                    |rhs: Seq<Sym>| RuleV { lhs: fresh@, rhs },
                ),
            decreases n - i,
        {
            assert(self@.rules[i as int] == self.rules@[i as int]@);
            assert(self@.rules[i as int] == rv[i as int]);
            let ghost ci = rv.subrange(0, i as int + 1);
            let ghost before_i = self@.rules;
            assert(ci.drop_last() =~= rv.subrange(0, i as int));
            assert(ci.last() == rv[i as int]);
            if self.rules[i].lhs.same(&self.entrypoint) {
                let new_rule = ProductionRule { lhs: NonTerminal(fresh.clone()), rhs: dup_symbols(self.rules[i].rhs.as_slice()) };
                let ghost nr = new_rule@;
                let ghost prev = self@.rules;
                found = true;
                proof {
                    assert(nr.rhs == rv[i as int].rhs);
                    assert(gnf_rule(rv[i as int]));
                    assert forall|k: int| 0 <= k < nr.rhs.len() implies #[trigger] nr.rhs[k] != Sym::N(fresh@) by {
                        if nr.rhs[k] == Sym::N(fresh@) {
                            assert(rv[i as int].rhs[k] == Sym::N(fresh@));
                            assert(on_rhs(rv, fresh@));
                        }
                    }
                }
                self.rules.push(new_rule);
                assert(self@.rules =~= prev.push(nr));
                proof {
                    let mp = |rhs: Seq<Sym>| RuleV { lhs: fresh@, rhs };
                    assert(nr == mp(rv[i as int].rhs));
                    assert(crate::lowlevel::rhs_of(ci, st).map_values(mp) =~= crate::lowlevel::rhs_of(rv.subrange(0, i as int), st).map_values(mp).push(nr));
                    assert(self@.rules =~= rv + crate::lowlevel::rhs_of(ci, st).map_values(mp));
                }
            }
            i += 1;
        }
        assert(rv.subrange(0, n as int) =~= rv);
        proof {
            if defines(rv, st) {
                assert(found);
                assert(self@.rules.len() > n);
                assert(self@.rules[n as int].lhs == fresh@);
            }
        }
        self.entrypoint = NonTerminal(fresh);
    }
}

fn is_name_used_on_rhs(rules: &Vec<ProductionRule>, n: &NonTerminal) -> (b: bool)
    ensures
        b == on_rhs(rules_view(rules@), n@),
{
    let ghost rv = rules_view(rules@);
    let mut i: usize = 0;
    while i < rules.len()
        invariant
            i <= rules@.len(),
            rv == rules_view(rules@),
            forall|a: int, k: int| 0 <= a < i && 0 <= k < rv[a].rhs.len() ==> #[trigger] rv[a].rhs[k] != Sym::N(n@),
        decreases rules@.len() - i,
    {
        let rule = &rules[i];
        assert(rv[i as int].rhs == syms(rule.rhs@));
        let mut k: usize = 0;
        while k < rule.rhs.len()
            invariant
                k <= rule.rhs@.len(),
                i < rules@.len(),
                rv == rules_view(rules@),
                rv[i as int].rhs == syms(rule.rhs@),
                forall|m: int| 0 <= m < k ==> #[trigger] rv[i as int].rhs[m] != Sym::N(n@),
            decreases rule.rhs@.len() - k,
        {
            if let Symbol::NonTerminal(x) = &rule.rhs[k] {
                if x.same(n) {
                    assert(rv[i as int].rhs[k as int] == Sym::N(n@));
                    return true;
                }
            }
            k += 1;
        }
        i += 1;
    }
    false
}

} // verus!

verus! {

pub proof fn lemma_dedup_subset(s: Seq<RuleV>)
    ensures
        forall|i: int| 0 <= i < dedup(s).len() ==> s.contains(#[trigger] dedup(s)[i]),
        forall|i: int| 0 <= i < s.len() ==> dedup(s).contains(#[trigger] s[i]),
    decreases s.len(),
{
    if s.len() > 0 {
        let p = s.drop_last();
        lemma_dedup_subset(p);
        assert forall|i: int| 0 <= i < dedup(s).len() implies s.contains(#[trigger] dedup(s)[i]) by {
            if i < dedup(p).len() {
                assert(p.contains(dedup(p)[i]));
                let k = choose|k: int| 0 <= k < p.len() && p[k] == dedup(p)[i];
                assert(s[k] == p[k]);
            } else {
                assert(s[s.len() - 1] == s.last());
            }
        }
        assert forall|i: int| 0 <= i < s.len() implies dedup(s).contains(#[trigger] s[i]) by {
            if i < s.len() - 1 {
                assert(s[i] == p[i]);
                assert(dedup(p).contains(p[i]));
                let k = choose|k: int| 0 <= k < dedup(p).len() && dedup(p)[k] == p[i];
                assert(dedup(s)[k] == dedup(p)[k]);
            } else if !dedup(p).contains(s.last()) {
                assert(dedup(s)[dedup(p).len() as int] == s.last());
            }
        }
    }
}

pub proof fn lemma_keep_subset(s: Seq<RuleV>, g: Seq<RuleV>, start: Seq<char>)
    ensures
        forall|i: int| 0 <= i < keep_reachable(s, g, start).len() ==> s.contains(#[trigger] keep_reachable(s, g, start)[i]),
        forall|i: int| 0 <= i < s.len() && reachable(g, start, s[i].lhs) ==> keep_reachable(s, g, start).contains(#[trigger] s[i]),
    decreases s.len(),
{
    if s.len() > 0 {
        let p = s.drop_last();
        lemma_keep_subset(p, g, start);
        let kp = keep_reachable(p, g, start);
        let ks = keep_reachable(s, g, start);
        assert forall|i: int| 0 <= i < ks.len() implies s.contains(#[trigger] ks[i]) by {
            if i < kp.len() {
                assert(p.contains(kp[i]));
                let k = choose|k: int| 0 <= k < p.len() && p[k] == kp[i];
                assert(s[k] == p[k]);
            } else {
                assert(s[s.len() - 1] == s.last());
            }
        }
        assert forall|i: int| 0 <= i < s.len() && reachable(g, start, s[i].lhs) implies ks.contains(#[trigger] s[i]) by {
            if i < s.len() - 1 {
                assert(s[i] == p[i]);
                assert(kp.contains(p[i]));
                let k = choose|k: int| 0 <= k < kp.len() && kp[k] == p[i];
                assert(ks[k] == kp[k]);
            } else {
                assert(ks[kp.len() as int] == s.last());
            }
        }
    }
}

pub proof fn lemma_defines_count_lhs(s: Seq<RuleV>, n: Seq<char>, i: int)
    requires
        0 <= i < s.len(),
        s[i].lhs == n,
    ensures
        count_lhs(s, n) > 0,
    decreases s.len(),
{
    if i < s.len() - 1 {
        assert(s.drop_last()[i] == s[i]);
        lemma_defines_count_lhs(s.drop_last(), n, i);
    }
}

pub proof fn lemma_count_lhs_defines(s: Seq<RuleV>, n: Seq<char>)
    requires
        count_lhs(s, n) > 0,
    ensures
        defines(s, n),
    decreases s.len(),
{
    if s.last().lhs == n {
        assert(s[s.len() - 1].lhs == n);
    } else {
        lemma_count_lhs_defines(s.drop_last(), n);
        let i = choose|i: int| 0 <= i < s.drop_last().len() && s.drop_last()[i].lhs == n;
        assert(s[i] == s.drop_last()[i]);
    }
}

/// Every rule of each right-hand side has the terminals merged.
pub open spec fn merge_all(rules: Seq<RuleV>) -> Seq<RuleV> {
    rules.map_values(|r: RuleV| RuleV { lhs: r.lhs, rhs: merge_terminals(r.rhs) })
}

/// What normalization establishes: every non-terminal on a right-hand side
/// has a rule, every non-terminal has a derivation that ends in terminals
/// only, every rule is in leading-terminal form, the start symbol has a rule
/// and occurs on no right-hand side, no rule occurs twice, and every rule's
/// left-hand side is reachable from the start.
pub open spec fn normal_form(g: GrammarV) -> bool {
    &&& refs_defined(g.rules)
    &&& !has_cycle(g.rules)
    &&& all_gnf(g.rules)
    &&& !on_rhs(g.rules, g.start)
    &&& defines(g.rules, g.start)
    &&& distinct_rules(g.rules)
    &&& forall|i: int| 0 <= i < g.rules.len() ==> reachable(g.rules, g.start, #[trigger] g.rules[i].lhs)
}

} // verus!

verus! {

/// Merging a sequence that has no adjacent terminals changes nothing.
pub proof fn lemma_merge_identity(s: Seq<Sym>)
    requires
        no_adjacent_terminals(s),
    ensures
        merge_terminals(s) == s,
    decreases s.len(),
{
    if s.len() > 0 {
        let p = s.drop_last();
        assert(no_adjacent_terminals(p)) by {
            assert forall|k: int| 0 <= k < p.len() - 1 implies !(p[k] is T && #[trigger] p[k + 1] is T) by {
                assert(p[k] == s[k] && p[k + 1] == s[k + 1]);
            }
        }
        lemma_merge_identity(p);
        if s.last() is T && p.len() > 0 && p.last() is T {
            assert(s[s.len() - 2] is T && s[s.len() - 2 + 1] is T);
        }
        assert(p.push(s.last()) =~= s);
    }
}

/// No rule occurs twice.
pub open spec fn distinct_rules(s: Seq<RuleV>) -> bool {
    forall|a: int, b: int| 0 <= a < b < s.len() ==> s[a] != s[b]
}

pub proof fn lemma_dedup_distinct(s: Seq<RuleV>)
    ensures
        distinct_rules(dedup(s)),
    decreases s.len(),
{
    if s.len() > 0 {
        lemma_dedup_distinct(s.drop_last());
        let p = dedup(s.drop_last());
        if !p.contains(s.last()) {
            let d = p.push(s.last());
            assert forall|a: int, b: int| 0 <= a < b < d.len() implies d[a] != d[b] by {
                if b == p.len() {
                    if d[a] == d[b] {
                        assert(p[a] == s.last());
                    }
                }
            }
        }
    }
}

pub proof fn lemma_dedup_identity(s: Seq<RuleV>)
    requires
        distinct_rules(s),
    ensures
        dedup(s) == s,
    decreases s.len(),
{
    if s.len() > 0 {
        let p = s.drop_last();
        assert(distinct_rules(p)) by {
            assert forall|a: int, b: int| 0 <= a < b < p.len() implies p[a] != p[b] by {
                assert(p[a] == s[a] && p[b] == s[b]);
            }
        }
        lemma_dedup_identity(p);
        if p.contains(s.last()) {
            let k = choose|k: int| 0 <= k < p.len() && p[k] == s.last();
            assert(s[k] == s[s.len() - 1]);
        }
        assert(p.push(s.last()) =~= s);
    }
}

pub proof fn lemma_keep_distinct(s: Seq<RuleV>, g: Seq<RuleV>, start: Seq<char>)
    requires
        distinct_rules(s),
    ensures
        distinct_rules(keep_reachable(s, g, start)),
    decreases s.len(),
{
    if s.len() > 0 {
        let p = s.drop_last();
        assert(distinct_rules(p)) by {
            assert forall|a: int, b: int| 0 <= a < b < p.len() implies p[a] != p[b] by {
                assert(p[a] == s[a] && p[b] == s[b]);
            }
        }
        lemma_keep_distinct(p, g, start);
        lemma_keep_subset(p, g, start);
        let kp = keep_reachable(p, g, start);
        if reachable(g, start, s.last().lhs) {
            let d = kp.push(s.last());
            assert forall|a: int, b: int| 0 <= a < b < d.len() implies d[a] != d[b] by {
                if b == kp.len() && d[a] == d[b] {
                    assert(p.contains(kp[a]));
                    let k = choose|k: int| 0 <= k < p.len() && p[k] == kp[a];
                    assert(s[k] == s[s.len() - 1]);
                }
            }
        }
    }
}

pub proof fn lemma_keep_all(s: Seq<RuleV>, g: Seq<RuleV>, start: Seq<char>)
    requires
        forall|i: int| 0 <= i < s.len() ==> reachable(g, start, #[trigger] s[i].lhs),
    ensures
        keep_reachable(s, g, start) == s,
    decreases s.len(),
{
    if s.len() > 0 {
        let p = s.drop_last();
        assert forall|i: int| 0 <= i < p.len() implies reachable(g, start, #[trigger] p[i].lhs) by {
            assert(p[i] == s[i]);
        }
        lemma_keep_all(p, g, start);
        assert(reachable(g, start, s[s.len() - 1].lhs));
        assert(p.push(s.last()) =~= s);
    }
}

pub proof fn lemma_keep_reachable_elements(s: Seq<RuleV>, g: Seq<RuleV>, start: Seq<char>)
    ensures
        forall|i: int| 0 <= i < keep_reachable(s, g, start).len() ==> reachable(g, start, #[trigger] keep_reachable(s, g, start)[i].lhs),
    decreases s.len(),
{
    if s.len() > 0 {
        lemma_keep_reachable_elements(s.drop_last(), g, start);
        let kp = keep_reachable(s.drop_last(), g, start);
        let ks = keep_reachable(s, g, start);
        assert forall|i: int| 0 <= i < ks.len() implies reachable(g, start, #[trigger] ks[i].lhs) by {
            if i < kp.len() {
                assert(ks[i] == kp[i]);
            }
        }
    }
}

/// What can be reached in `g` can be reached using the reachable rules alone.
pub proof fn lemma_reach_in_kept(g: Seq<RuleV>, start: Seq<char>, n: Seq<char>, k: nat)
    requires
        reach_k(g, start, n, k),
    ensures
        reach_k(keep_reachable(g, g, start), start, n, k),
    decreases k,
{
    let kept = keep_reachable(g, g, start);
    if k > 0 {
        if reach_k(g, start, n, (k - 1) as nat) {
            lemma_reach_in_kept(g, start, n, (k - 1) as nat);
        } else {
            let (i, m) = choose|i: int, m: int|
                0 <= i < g.len() && 0 <= m < g[i].rhs.len() && reach_k(g, start, g[i].lhs, (k - 1) as nat)
                    && #[trigger] g[i].rhs[m] == Sym::N(n);
            lemma_reach_in_kept(g, start, g[i].lhs, (k - 1) as nat);
            lemma_keep_subset(g, g, start);
            assert(reachable(g, start, g[i].lhs));
            assert(kept.contains(g[i]));
            let j = choose|j: int| 0 <= j < kept.len() && kept[j] == g[i];
            assert(kept[j].rhs[m] == Sym::N(n));
        }
    }
}

} // verus!

verus! {

/// Unit rules `p[0], p[1], ...` each lead to the next, the last back to the first.
pub open spec fn unit_cycle_at(rules: Seq<RuleV>, p: Seq<int>) -> bool {
    p.len() > 0 && forall|t: int|
        0 <= t < p.len() ==> 0 <= #[trigger] p[t] < rules.len() && unit_rule(rules[p[t]]) && rules[p[t]].rhs[0] == Sym::N(
            rules[p[(t + 1) % (p.len() as int)]].lhs,
        )
}

/// Some unit rules lead from a non-terminal back to itself.
pub open spec fn unit_cycle(rules: Seq<RuleV>) -> bool {
    exists|p: Seq<int>| #[trigger] unit_cycle_at(rules, p)
}

/// A sequence of `n + 1` values below `n` repeats a value.
proof fn lemma_pigeonhole(s: Seq<int>, n: nat)
    requires
        s.len() == n + 1,
        forall|i: int| 0 <= i < s.len() ==> 0 <= #[trigger] s[i] < n,
    ensures
        exists|p: int, q: int| 0 <= p < q < s.len() && s[p] == s[q],
    decreases n,
{
    if n == 0 {
        assert(0 <= s[0] && s[0] < n);
    } else {
        let v = s[n as int];
        if exists|i: int| 0 <= i < n && s[i] == v {
            let i = choose|i: int| 0 <= i < n && s[i] == v;
            assert(s[i] == s[n as int]);
        } else {
            let t = s.subrange(0, n as int).map_values(|x: int| if x > v { x - 1 } else { x });
            assert forall|i: int| 0 <= i < t.len() implies 0 <= #[trigger] t[i] < n - 1 by {
                assert(s[i] != v);
            }
            lemma_pigeonhole(t, (n - 1) as nat);
            let (p, q) = choose|p: int, q: int| 0 <= p < q < t.len() && t[p] == t[q];
            assert(s[p] != v && s[q] != v);
            assert(s[p] == s[q]);
        }
    }
}

/// A unit rule whose left-hand side is the target of unit rule `i`.
spec fn unit_next(rules: Seq<RuleV>, i: int) -> int {
    choose|j: int| 0 <= j < rules.len() && rules[j].lhs == rules[i].rhs[0]->N_0 && unit_rule(rules[j])
}

spec fn unit_chain(rules: Seq<RuleV>, i0: int, t: nat) -> int
    decreases t,
{
    if t == 0 {
        i0
    } else {
        unit_next(rules, unit_chain(rules, i0, (t - 1) as nat))
    }
}

proof fn lemma_unit_chain(rules: Seq<RuleV>, i0: int, t: nat)
    requires
        unit_stuck(rules),
        refs_defined(rules),
        0 <= i0 < rules.len(),
        unit_rule(rules[i0]),
    ensures
        0 <= unit_chain(rules, i0, t) < rules.len(),
        unit_rule(rules[unit_chain(rules, i0, t)]),
        rules[unit_chain(rules, i0, t)].rhs[0] == Sym::N(rules[unit_chain(rules, i0, t + 1)].lhs),
    decreases t,
{
    if t > 0 {
        lemma_unit_chain(rules, i0, (t - 1) as nat);
    }
    let c = unit_chain(rules, i0, t);
    let b = rules[c].rhs[0]->N_0;
    assert(!unit_free(rules, b));
    assert(rules[c].rhs[0] is N);
    assert(defines(rules, b));
    assert(exists|j: int| 0 <= j < rules.len() && rules[j].lhs == b && unit_rule(rules[j]));
    assert(unit_chain(rules, i0, t + 1) == unit_next(rules, c));
}

/// When no unit rule can be expanded and every referenced non-terminal is
/// defined, the unit rules form a cycle.
#[verifier::rlimit(100)]
proof fn lemma_stuck_cycle(rules: Seq<RuleV>)
    requires
        unit_stuck(rules),
        refs_defined(rules),
        count_units(rules) > 0,
    ensures
        unit_cycle(rules),
{
    lemma_count_units_witness(rules);
    let i0 = choose_unit(rules);
    let n = rules.len();
    let s = Seq::new((n + 1) as nat, |t: int| unit_chain(rules, i0, t as nat));
    assert forall|i: int| 0 <= i < s.len() implies 0 <= #[trigger] s[i] < n by {
        lemma_unit_chain(rules, i0, i as nat);
    }
    lemma_pigeonhole(s, n as nat);
    let (p, q) = choose|p: int, q: int| 0 <= p < q < s.len() && s[p] == s[q];
    let cyc = Seq::new((q - p) as nat, |t: int| unit_chain(rules, i0, (p + t) as nat));
    assert forall|t: int| 0 <= t < cyc.len() implies 0 <= #[trigger] cyc[t] < rules.len() && unit_rule(rules[cyc[t]])
        && rules[cyc[t]].rhs[0] == Sym::N(rules[cyc[(t + 1) % (cyc.len() as int)]].lhs) by {
        lemma_cycle_step(rules, i0, p, q, t);
    }
    assert(unit_cycle_at(rules, cyc));
}

proof fn lemma_cycle_step(rules: Seq<RuleV>, i0: int, p: int, q: int, t: int)
    requires
        unit_stuck(rules),
        refs_defined(rules),
        0 <= i0 < rules.len(),
        unit_rule(rules[i0]),
        0 <= p < q,
        unit_chain(rules, i0, p as nat) == unit_chain(rules, i0, q as nat),
        0 <= t < q - p,
    ensures
        ({
            let cyc = Seq::new((q - p) as nat, |u: int| unit_chain(rules, i0, (p + u) as nat));
            0 <= cyc[t] < rules.len() && unit_rule(rules[cyc[t]]) && rules[cyc[t]].rhs[0] == Sym::N(
                rules[cyc[(t + 1) % (cyc.len() as int)]].lhs,
            )
        }),
{
    let cyc = Seq::new((q - p) as nat, |u: int| unit_chain(rules, i0, (p + u) as nat));
    lemma_unit_chain(rules, i0, (p + t) as nat);
    assert(cyc.len() as int == q - p);
    let m = q - p;
    if t + 1 < q - p {
        assert((t + 1) % m == t + 1) by (nonlinear_arith)
            requires
                0 <= t + 1 < m,
        ;
        assert(cyc[t + 1] == unit_chain(rules, i0, (p + t + 1) as nat));
    } else {
        assert((t + 1) % m == 0) by (nonlinear_arith)
            requires
                t + 1 == m,
                m > 0,
        ;
        assert(cyc[0] == unit_chain(rules, i0, p as nat));
        assert((p + t + 1) as nat == q as nat);
    }
}

spec fn choose_unit(rules: Seq<RuleV>) -> int {
    choose|i: int| 0 <= i < rules.len() && unit_rule(rules[i])
}

/// A cycle of unit rules made of rules that `old` also has is a cycle in `old`.
proof fn lemma_cycle_back(rules: Seq<RuleV>, old: Seq<RuleV>)
    requires
        unit_cycle(rules),
        forall|o: int| 0 <= o < rules.len() && unit_rule(#[trigger] rules[o]) ==> old.contains(rules[o]),
    ensures
        unit_cycle(old),
{
    let p = choose|p: Seq<int>| #[trigger] unit_cycle_at(rules, p);
    let q = Seq::new(p.len(), |t: int| choose|j: int| 0 <= j < old.len() && old[j] == rules[p[t]]);
    assert forall|t: int| 0 <= t < q.len() implies 0 <= #[trigger] q[t] < old.len() && unit_rule(old[q[t]])
        && old[q[t]].rhs[0] == Sym::N(old[q[(t + 1) % (q.len() as int)]].lhs) by {
        assert(old.contains(rules[p[t]]));
        let u = (t + 1) % (q.len() as int);
        assert(0 <= u < q.len());
        assert(old.contains(rules[p[u]]));
    }
    assert(unit_cycle_at(old, q));
}

proof fn lemma_count_units_witness(s: Seq<RuleV>)
    requires
        count_units(s) > 0,
    ensures
        exists|i: int| 0 <= i < s.len() && unit_rule(s[i]),
    decreases s.len(),
{
    if !unit_rule(s.last()) {
        lemma_count_units_witness(s.drop_last());
        let i = choose|i: int| 0 <= i < s.drop_last().len() && unit_rule(s.drop_last()[i]);
        assert(s[i] == s.drop_last()[i]);
    } else {
        assert(unit_rule(s[s.len() - 1]));
    }
}



/// What replaces rule `r` in one round of inlining over `rv`: when `r`
/// starts with a non-terminal whose rules all start with a terminal, one
/// rule per rule of it, its right-hand side followed by the rest of `r`;
/// else `r`.
pub open spec fn gnf_piece(rv: Seq<RuleV>, r: RuleV) -> Seq<RuleV> {
    if nfirst(r) && expanded(rv, r.rhs[0]->N_0) {
        crate::lowlevel::rhs_of(rv, r.rhs[0]->N_0).map_values(
            |rhs: Seq<Sym>| RuleV { lhs: r.lhs, rhs: rhs + r.rhs.subrange(1, r.rhs.len() as int) },
        )
    } else {
        seq![r]
    }
}

/// One round of inlining over the first `i` rules of `rv`.
pub open spec fn gnf_round_upto(rv: Seq<RuleV>, i: int) -> Seq<RuleV>
    decreases i,
{
    if i <= 0 {
        Seq::empty()
    } else {
        gnf_round_upto(rv, i - 1) + gnf_piece(rv, rv[i - 1])
    }
}

/// Rounds of inlining until every rule starts with a terminal, or `None`
/// when a round inlines nothing.
pub open spec fn gnf_fix(rv: Seq<RuleV>) -> Option<Seq<RuleV>>
    decreases count_nfirst(rv),
{
    if count_nfirst(rv) == 0 {
        Some(rv)
    } else {
        let r2 = gnf_round_upto(rv, rv.len() as int);
        if count_nfirst(r2) < count_nfirst(rv) {
            gnf_fix(r2)
        } else {
            None
        }
    }
}

/// No rule that starts with a non-terminal can be expanded.
pub open spec fn lead_stuck(rules: Seq<RuleV>) -> bool {
    forall|i: int| 0 <= i < rules.len() && nfirst(#[trigger] rules[i]) ==> !expanded(rules, rules[i].rhs[0]->N_0)
}

proof fn lemma_gnf_count(s: Seq<RuleV>)
    requires
        all_gnf(s),
    ensures
        count_nfirst(s) == 0,
    decreases s.len(),
{
    if s.len() > 0 {
        assert(gnf_rule(s[s.len() - 1]));
        assert forall|i: int| 0 <= i < s.drop_last().len() implies gnf_rule(#[trigger] s.drop_last()[i]) by {
            assert(s.drop_last()[i] == s[i]);
        }
        lemma_gnf_count(s.drop_last());
    }
}

proof fn lemma_count_nfirst_pos(s: Seq<RuleV>, i: int)
    requires
        0 <= i < s.len(),
        nfirst(s[i]),
    ensures
        count_nfirst(s) > 0,
    decreases s.len(),
{
    if i < s.len() - 1 {
        lemma_count_nfirst_pos(s.drop_last(), i);
    }
}

proof fn lemma_count_nfirst_witness(s: Seq<RuleV>)
    requires
        count_nfirst(s) > 0,
    ensures
        exists|i: int| 0 <= i < s.len() && nfirst(s[i]),
    decreases s.len(),
{
    if !nfirst(s.last()) {
        lemma_count_nfirst_witness(s.drop_last());
        let i = choose|i: int| 0 <= i < s.drop_last().len() && nfirst(s.drop_last()[i]);
        assert(s[i] == s.drop_last()[i]);
    } else {
        assert(nfirst(s[s.len() - 1]));
    }
}

/// Rules `p[0], p[1], ...` each lead to the next, the last back to the first.
pub open spec fn lead_cycle_at(rules: Seq<RuleV>, p: Seq<int>) -> bool {
    p.len() > 0 && forall|t: int|
        0 <= t < p.len() ==> 0 <= #[trigger] p[t] < rules.len() && nfirst(rules[p[t]]) && rules[p[t]].rhs[0] == Sym::N(
            rules[p[(t + 1) % (p.len() as int)]].lhs,
        )
}

/// Leading non-terminals lead from a non-terminal back to itself: left recursion.
pub open spec fn lead_cycle(rules: Seq<RuleV>) -> bool {
    exists|p: Seq<int>| #[trigger] lead_cycle_at(rules, p)
}

/// A rule starting with a non-terminal whose left-hand side is the target of rule `i`.
spec fn lead_next(rules: Seq<RuleV>, i: int) -> int {
    choose|j: int| 0 <= j < rules.len() && rules[j].lhs == rules[i].rhs[0]->N_0 && nfirst(rules[j])
}

spec fn lead_chain(rules: Seq<RuleV>, i0: int, t: nat) -> int
    decreases t,
{
    if t == 0 {
        i0
    } else {
        lead_next(rules, lead_chain(rules, i0, (t - 1) as nat))
    }
}

proof fn lemma_lead_chain(rules: Seq<RuleV>, i0: int, t: nat)
    requires
        lead_stuck(rules),
        refs_defined(rules),
        all_tail_ok(rules),
        0 <= i0 < rules.len(),
        nfirst(rules[i0]),
    ensures
        0 <= lead_chain(rules, i0, t) < rules.len(),
        nfirst(rules[lead_chain(rules, i0, t)]),
        rules[lead_chain(rules, i0, t)].rhs[0] == Sym::N(rules[lead_chain(rules, i0, t + 1)].lhs),
    decreases t,
{
    if t > 0 {
        lemma_lead_chain(rules, i0, (t - 1) as nat);
    }
    let c = lead_chain(rules, i0, t);
    let b = rules[c].rhs[0]->N_0;
    assert(!expanded(rules, b));
    assert(rules[c].rhs[0] is N);
    assert(defines(rules, b));
    let w = choose|j: int| 0 <= j < rules.len() && (#[trigger] rules[j]).lhs == b && !(rules[j].rhs.len() > 0 && rules[j].rhs[0] is T);
    assert(tail_ok(rules[w]));
    assert(nfirst(rules[w]));
    assert(exists|j: int| 0 <= j < rules.len() && rules[j].lhs == b && nfirst(rules[j]));
    assert(lead_chain(rules, i0, t + 1) == lead_next(rules, c));
}

/// When no unit rule can be expanded and every referenced non-terminal is
/// defined, left recursion forms a cycle.
proof fn lemma_lead_stuck_cycle(rules: Seq<RuleV>)
    requires
        lead_stuck(rules),
        refs_defined(rules),
        all_tail_ok(rules),
        count_nfirst(rules) > 0,
    ensures
        lead_cycle(rules),
{
    lemma_count_nfirst_witness(rules);
    let i0 = choose_lead(rules);
    let n = rules.len();
    let s = Seq::new((n + 1) as nat, |t: int| lead_chain(rules, i0, t as nat));
    assert forall|i: int| 0 <= i < s.len() implies 0 <= #[trigger] s[i] < n by {
        lemma_lead_chain(rules, i0, i as nat);
    }
    lemma_pigeonhole(s, n as nat);
    let (p, q) = choose|p: int, q: int| 0 <= p < q < s.len() && s[p] == s[q];
    let cyc = Seq::new((q - p) as nat, |t: int| lead_chain(rules, i0, (p + t) as nat));
    assert forall|t: int| 0 <= t < cyc.len() implies 0 <= #[trigger] cyc[t] < rules.len() && nfirst(rules[cyc[t]])
        && rules[cyc[t]].rhs[0] == Sym::N(rules[cyc[(t + 1) % (cyc.len() as int)]].lhs) by {
        lemma_lead_cycle_step(rules, i0, p, q, t);
    }
    assert(lead_cycle_at(rules, cyc));
}

proof fn lemma_lead_cycle_step(rules: Seq<RuleV>, i0: int, p: int, q: int, t: int)
    requires
        lead_stuck(rules),
        refs_defined(rules),
        all_tail_ok(rules),
        0 <= i0 < rules.len(),
        nfirst(rules[i0]),
        0 <= p < q,
        lead_chain(rules, i0, p as nat) == lead_chain(rules, i0, q as nat),
        0 <= t < q - p,
    ensures
        ({
            let cyc = Seq::new((q - p) as nat, |u: int| lead_chain(rules, i0, (p + u) as nat));
            0 <= cyc[t] < rules.len() && nfirst(rules[cyc[t]]) && rules[cyc[t]].rhs[0] == Sym::N(
                rules[cyc[(t + 1) % (cyc.len() as int)]].lhs,
            )
        }),
{
    let cyc = Seq::new((q - p) as nat, |u: int| lead_chain(rules, i0, (p + u) as nat));
    lemma_lead_chain(rules, i0, (p + t) as nat);
    assert(cyc.len() as int == q - p);
    let m = q - p;
    if t + 1 < q - p {
        assert((t + 1) % m == t + 1) by (nonlinear_arith)
            requires
                0 <= t + 1 < m,
        ;
        assert(cyc[t + 1] == lead_chain(rules, i0, (p + t + 1) as nat));
    } else {
        assert((t + 1) % m == 0) by (nonlinear_arith)
            requires
                t + 1 == m,
                m > 0,
        ;
        assert(cyc[0] == lead_chain(rules, i0, p as nat));
        assert((p + t + 1) as nat == q as nat);
    }
}

spec fn choose_lead(rules: Seq<RuleV>) -> int {
    choose|i: int| 0 <= i < rules.len() && nfirst(rules[i])
}

/// A cycle of leading non-terminals made of rules that `old` also has is a cycle in `old`.
proof fn lemma_lead_cycle_back(rules: Seq<RuleV>, old: Seq<RuleV>)
    requires
        lead_cycle(rules),
        forall|o: int| 0 <= o < rules.len() && nfirst(#[trigger] rules[o]) ==> old.contains(rules[o]),
    ensures
        lead_cycle(old),
{
    let p = choose|p: Seq<int>| #[trigger] lead_cycle_at(rules, p);
    let q = Seq::new(p.len(), |t: int| choose|j: int| 0 <= j < old.len() && old[j] == rules[p[t]]);
    assert forall|t: int| 0 <= t < q.len() implies 0 <= #[trigger] q[t] < old.len() && nfirst(old[q[t]])
        && old[q[t]].rhs[0] == Sym::N(old[q[(t + 1) % (q.len() as int)]].lhs) by {
        assert(old.contains(rules[p[t]]));
        let u = (t + 1) % (q.len() as int);
        assert(0 <= u < q.len());
        assert(old.contains(rules[p[u]]));
    }
    assert(lead_cycle_at(old, q));
}

} // verus!

verus! {

impl ContextFreeGrammar {
    /// Whether every non-terminal on a right-hand side has a rule.
    pub fn references_defined(&self) -> (r: bool)
        ensures
            r == refs_defined(self@.rules),
    {
        let ghost rv = self@.rules;
        let mut i: usize = 0;
        while i < self.rules.len()
            invariant
                i <= self.rules@.len(),
                rv == self@.rules,
                forall|a: int, k: int|
                    0 <= a < i && 0 <= k < rv[a].rhs.len() && (#[trigger] rv[a].rhs[k]) is N ==> defines(rv, rv[a].rhs[k]->N_0),
            decreases self.rules@.len() - i,
        {
            let rhs = &self.rules[i].rhs;
            assert(rv[i as int].rhs == syms(rhs@));
            let mut k: usize = 0;
            while k < rhs.len()
                invariant
                    k <= rhs@.len(),
                    i < rv.len(),
                    rv == self@.rules,
                    syms(rhs@) == rv[i as int].rhs,
                    forall|a: int, m: int|
                        0 <= a < i && 0 <= m < rv[a].rhs.len() && (#[trigger] rv[a].rhs[m]) is N ==> defines(rv, rv[a].rhs[m]->N_0),
                    forall|m: int|
                        0 <= m < k && (#[trigger] rv[i as int].rhs[m]) is N ==> defines(rv, rv[i as int].rhs[m]->N_0),
                decreases rhs@.len() - k,
            {
                if let Symbol::NonTerminal(n) = &rhs[k] {
                    let mut found = false;
                    let mut j: usize = 0;
                    while j < self.rules.len()
                        invariant
                            j <= self.rules@.len(),
                            rv == self@.rules,
                            found == exists|b: int| 0 <= b < j && (#[trigger] rv[b]).lhs == n@,
                        decreases self.rules@.len() - j,
                    {
                        assert(rv[j as int] == self.rules@[j as int]@);
                        if self.rules[j].lhs.same(n) {
                            found = true;
                        }
                        j += 1;
                    }
                    assert(rv[i as int].rhs[k as int] == Sym::N(n@));
                    if !found {
                        assert(!defines(rv, n@));
                        return false;
                    }
                }
                k += 1;
            }
            i += 1;
        }
        true
    }
}

} // verus!
