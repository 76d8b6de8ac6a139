use vstd::prelude::*;
use vstd::string::*;

use crate::cfg::{
    all_gnf, all_nonempty, normal_form, dedup, defines, gnf_rule, has_cycle, keep_reachable, lemma_count_lhs_defines,
    lemma_dedup_distinct, lemma_dedup_identity, lemma_keep_all, lemma_keep_distinct, lemma_keep_reachable_elements,
    lemma_merge_identity, lemma_reach_in_kept, no_adjacent_terminals, reach_k, reachable,
    lemma_dedup_subset, lemma_keep_subset, lemma_merge_no_adjacent, merge_all, on_rhs, refs_defined, rules_view,
    shaped, syms, tail_ok, distinct_rules, ContextFreeGrammar, GrammarV, NonTerminal, ProductionRule, RuleV, Sym, Symbol,
};
use crate::error::{GrammarError, ParsingError};
use crate::parser::{gramatron_ok, gramatron_rules, parse_gramatron, parse_peacock, peacock_ok, peacock_rules, JsonValue};

verus! {

/// The default non-terminal that is used as an entrypoint to the grammar
pub const DEFAULT_ENTRYPOINT: &'static str = "ENTRYPOINT";

/// The builder's state as a mathematical value.
pub ghost struct BuilderV {
    pub rules: Seq<RuleV>,
    pub optimize: bool,
    pub entrypoint: Seq<char>,
}

/// The GrammarBuilder collects the rules of one or more grammars and returns
/// a unified [`ContextFreeGrammar`].
pub struct GrammarBuilder {
    rules: Vec<ProductionRule>,
    optimize: bool,
    entrypoint: String,
}

impl View for GrammarBuilder {
    type V = BuilderV;

    closed spec fn view(&self) -> BuilderV {
        BuilderV { rules: rules_view(self.rules@), optimize: self.optimize, entrypoint: self.entrypoint@ }
    }
}

/// The result of the passes that also run in raw mode: adjacent terminals
/// merged, repeated rules dropped, unreachable rules dropped.
pub open spec fn raw_rules(rules: Seq<RuleV>, start: Seq<char>) -> Seq<RuleV> {
    keep_reachable(dedup(merge_all(rules)), dedup(merge_all(rules)), start)
}

/// `n` is the first undefined non-terminal on a right-hand side, in rule
/// order and then in right-hand-side order.
pub open spec fn first_missing(rules: Seq<RuleV>, n: Seq<char>) -> bool {
    exists|i: int, k: int|
        #![trigger rules[i].rhs[k]]
        0 <= i < rules.len() && 0 <= k < rules[i].rhs.len() && rules[i].rhs[k] == Sym::N(n) && !defines(rules, n)
            && (forall|a: int, m: int|
            0 <= a < rules.len() && 0 <= m < rules[a].rhs.len() && (a < i || (a == i && m < k)) && (#[trigger] rules[a].rhs[m]) is N
                ==> defines(rules, rules[a].rhs[m]->N_0))
}

impl ContextFreeGrammar {
    /// Build a ContextFreeGrammar.
    pub fn builder() -> (r: GrammarBuilder)
        ensures
            r@.rules.len() == 0,
            r@.optimize,
            r@.entrypoint == DEFAULT_ENTRYPOINT@,
    {
        GrammarBuilder::new()
    }
}

impl GrammarBuilder {
    pub fn new() -> (r: GrammarBuilder)
        ensures
            r@.rules.len() == 0,
            r@.optimize,
            r@.entrypoint == DEFAULT_ENTRYPOINT@,
    {
        let r = GrammarBuilder { rules: Vec::new(), optimize: true, entrypoint: String::from_str(DEFAULT_ENTRYPOINT) };
        assert(r@.rules =~= Seq::<RuleV>::empty());
        r
    }

    /// Whether the entrypoint has no rule.
    fn check_entrypoint(&self) -> (missing: bool)
        ensures
            missing == !defines(self@.rules, self@.entrypoint),
    {
        let ghost rv = self@.rules;
        let mut i: usize = 0;
        while i < self.rules.len()
            invariant
                i <= self.rules@.len(),
                rv == self@.rules,
                forall|a: int| 0 <= a < i ==> (#[trigger] rv[a]).lhs != self@.entrypoint,
            decreases self.rules@.len() - i,
        {
            if self.rules[i].lhs().is_named(&self.entrypoint) {
                assert(rv[i as int].lhs == self@.entrypoint);
                return false;
            }
            i += 1;
        }
        true
    }

    /// The first non-terminal that is referenced but has no rule, if any.
    fn check_non_terminals(&self) -> (r: Option<String>)
        ensures
            r is None <==> refs_defined(self@.rules),
            r is Some ==> first_missing(self@.rules, r->Some_0@),
    {
        let ghost rv = self@.rules;
        let mut i: usize = 0;
        while i < self.rules.len()
            invariant
                i <= self.rules@.len(),
                rv == self@.rules,
                forall|a: int, k: int|
                    0 <= a < i && 0 <= k < rv[a].rhs.len() && (#[trigger] rv[a].rhs[k]) is N ==> defines(rv, rv[a].rhs[k]->N_0),
            decreases self.rules@.len() - i,
        {
            let rhs = self.rules[i].rhs();
            let mut k: usize = 0;
            while k < rhs.len()
                invariant
                    k <= rhs@.len(),
                    i < rv.len(),
                    rv == self@.rules,
                    syms(rhs@) == rv[i as int].rhs,
                    forall|a: int, m: int|
                        0 <= a < i && 0 <= m < rv[a].rhs.len() && (#[trigger] rv[a].rhs[m]) is N ==> defines(rv, rv[a].rhs[m]->N_0),
                    forall|m: int|
                        0 <= m < k && (#[trigger] rv[i as int].rhs[m]) is N ==> defines(rv, rv[i as int].rhs[m]->N_0),
                decreases rhs@.len() - k,
            {
                if let Symbol::NonTerminal(n) = &rhs[k] {
                    let id = String::from_str(n.id());
                    let mut found = false;
                    let mut j: usize = 0;
                    while j < self.rules.len()
                        invariant
                            j <= self.rules@.len(),
                            rv == self@.rules,
                            found == exists|b: int| 0 <= b < j && (#[trigger] rv[b]).lhs == id@,
                        decreases self.rules@.len() - j,
                    {
                        if self.rules[j].lhs().is_named(&id) {
                            assert(rv[j as int].lhs == id@);
                            found = true;
                        }
                        j += 1;
                    }
                    assert(rv[i as int].rhs[k as int] == Sym::N(id@));
                    if !found {
                        assert(!defines(rv, id@));
                        assert(first_missing(rv, id@)) by {
                            assert(rv[i as int].rhs[k as int] == Sym::N(id@));
                            assert forall|a: int, m: int|
                                0 <= a < rv.len() && 0 <= m < rv[a].rhs.len() && (a < i || (a == i && m < k)) && (#[trigger] rv[a].rhs[m]) is N
                                implies defines(rv, rv[a].rhs[m]->N_0) by {
                                if a == i {
                                    assert(defines(rv, rv[i as int].rhs[m]->N_0));
                                }
                            }
                        }
                        return Some(id);
                    }
                }
                k += 1;
            }
            i += 1;
        }
        None
    }

    /// Add the rules of a grammar in peacock format, read from `path`.
    pub fn peacock_grammar(self, path: &str, value: &JsonValue) -> (r: Result<GrammarBuilder, ParsingError>)
        requires
            all_nonempty(self@.rules),
        ensures
            r is Ok <==> peacock_ok(*value),
            r is Ok ==> r->Ok_0@ == (BuilderV { rules: self@.rules + peacock_rules(*value), ..self@ }),
            r is Ok ==> all_nonempty(r->Ok_0@.rules),
            r is Err ==> r->Err_0.path@ == path@,
    {
        match parse_peacock(value) {
            Ok(new_rules) => Ok(self.append_rules(new_rules)),
            Err(msg) => Err(ParsingError::new(String::from_str(path), msg)),
        }
    }

    /// Add the rules of a grammar in gramatron format, read from `path`.
    pub fn gramatron_grammar(self, path: &str, value: &JsonValue) -> (r: Result<GrammarBuilder, ParsingError>)
        requires
            all_nonempty(self@.rules),
        ensures
            r is Ok <==> gramatron_ok(*value),
            r is Ok ==> r->Ok_0@ == (BuilderV { rules: self@.rules + gramatron_rules(*value), ..self@ }),
            r is Ok ==> all_nonempty(r->Ok_0@.rules),
            r is Err ==> r->Err_0.path@ == path@,
    {
        match parse_gramatron(value) {
            Ok(new_rules) => Ok(self.append_rules(new_rules)),
            Err(msg) => Err(ParsingError::new(String::from_str(path), msg)),
        }
    }

    fn append_rules(self, new_rules: Vec<ProductionRule>) -> (r: GrammarBuilder)
        requires
            all_nonempty(self@.rules),
            forall|i: int| 0 <= i < new_rules@.len() ==> (#[trigger] new_rules@[i])@.rhs.len() > 0,
        ensures
            r@ == (BuilderV { rules: self@.rules + rules_view(new_rules@), ..self@ }),
            all_nonempty(r@.rules),
    {
        let ghost a = self@.rules;
        let ghost b = rules_view(new_rules@);
        let mut rules = self.rules;
        let mut new_rules = new_rules;
        rules.append(&mut new_rules);
        let r = GrammarBuilder { rules, optimize: self.optimize, entrypoint: self.entrypoint };
        assert(r@.rules =~= a + b);
        r
    }

    /// Whether to run the full normalization (on by default) or only the
    /// passes of raw mode.
    pub fn optimize(self, optimize: bool) -> (r: GrammarBuilder)
        ensures
            r@ == (BuilderV { optimize, ..self@ }),
    {
        GrammarBuilder { optimize, ..self }
    }

    /// Set the entrypoint of all loaded grammars to be the given non-terminal `entrypoint`.
    pub fn entrypoint(self, entrypoint: String) -> (r: GrammarBuilder)
        ensures
            r@ == (BuilderV { entrypoint: entrypoint@, ..self@ }),
    {
        GrammarBuilder { entrypoint, ..self }
    }

    /// Create a [`ContextFreeGrammar`].
    pub fn build(self) -> (r: Result<ContextFreeGrammar, GrammarError>)
        requires
            all_nonempty(self@.rules),
        ensures
            (r matches Err(GrammarError::MissingEntrypoint(e))) <==> !defines(self@.rules, self@.entrypoint),
            r matches Err(GrammarError::MissingEntrypoint(e)) ==> e@ == self@.entrypoint,
            (r matches Err(GrammarError::MissingNonTerminal(n))) <==> defines(self@.rules, self@.entrypoint)
                && !refs_defined(self@.rules),
            r matches Err(GrammarError::MissingNonTerminal(n)) ==> first_missing(self@.rules, n@),
            defines(self@.rules, self@.entrypoint) && refs_defined(self@.rules) && has_cycle(self@.rules)
                ==> r matches Err(GrammarError::ContainsCycles),
            r matches Err(GrammarError::ContainsCycles) ==> has_cycle(self@.rules) || self@.optimize,
            !(r matches Err(GrammarError::MergeConflict(_))),
            !(r matches Err(GrammarError::InvalidFormat(_))),
            !self@.optimize && defines(self@.rules, self@.entrypoint) && refs_defined(self@.rules) && !has_cycle(self@.rules)
                ==> r is Ok,
            r is Ok && !self@.optimize ==> r->Ok_0@ == (GrammarV {
                rules: raw_rules(self@.rules, self@.entrypoint),
                start: self@.entrypoint,
            }),
            r is Ok && self@.optimize ==> normal_form(r->Ok_0@),
            normal_form(GrammarV { rules: self@.rules, start: self@.entrypoint }) ==> r is Ok && r->Ok_0@ == (GrammarV {
                rules: self@.rules,
                start: self@.entrypoint,
            }),
            defines(self@.rules, self@.entrypoint) && refs_defined(self@.rules) && !has_cycle(self@.rules) && normal_form(
                GrammarV { rules: raw_rules(self@.rules, self@.entrypoint), start: self@.entrypoint },
            ) ==> r is Ok && r->Ok_0@ == (GrammarV {
                rules: raw_rules(self@.rules, self@.entrypoint),
                start: self@.entrypoint,
            }),
    {
        if self.check_entrypoint() {
            return Err(GrammarError::MissingEntrypoint(self.entrypoint));
        }
        if let Some(nonterm) = self.check_non_terminals() {
            return Err(GrammarError::MissingNonTerminal(nonterm));
        }
        let ghost rv = self@.rules;
        let ghost st = self@.entrypoint;
        let ghost nf = normal_form(GrammarV { rules: rv, start: st });
        proof {
            if nf {
                lemma_normal_form_fixed(rv, st);
            }
        }
        let ghost raw = raw_rules(rv, st);
        let ghost nf2 = defines(rv, st) && refs_defined(rv) && !has_cycle(rv) && normal_form(GrammarV { rules: raw, start: st });
        proof {
            if nf2 {
                lemma_normal_form_fixed(raw, st);
            }
        }
        let optimize = self.optimize;
        let mut cfg = ContextFreeGrammar::new(self.rules, NonTerminal::new(self.entrypoint));
        if !cfg.check_cycles() {
            return Err(GrammarError::ContainsCycles);
        }
        cfg.concatenate_terminals();
        proof {
            assert(cfg@.rules =~= merge_all(rv));
            assert forall|i: int| 0 <= i < cfg@.rules.len() implies (#[trigger] cfg@.rules[i]).rhs.len() >= 1 by {
                lemma_merge_no_adjacent(rv[i].rhs);
            }
        }
        cfg.remove_duplicate_rules();
        proof {
            let m = merge_all(rv);
            lemma_dedup_subset(m);
            assert forall|i: int| 0 <= i < cfg@.rules.len() implies (#[trigger] cfg@.rules[i]).rhs.len() >= 1 by {
                assert(m.contains(cfg@.rules[i]));
            }
        }
        let ghost deduped = cfg@.rules;
        cfg.remove_unused_rules();
        proof {
            if nf {
                assert(cfg@.rules == rv);
            }
            assert(cfg@.rules == raw);
            lemma_keep_subset(deduped, deduped, st);
            assert forall|i: int| 0 <= i < cfg@.rules.len() implies (#[trigger] cfg@.rules[i]).rhs.len() >= 1 by {
                assert(deduped.contains(cfg@.rules[i]));
            }
        }
        if !optimize {
            proof {
                if nf {
                    assert(raw_rules(rv, st) == rv);
                }
            }
            return Ok(cfg);
        }
        if !cfg.remove_unit_rules() {
            return Err(GrammarError::ContainsCycles);
        }
        if !cfg.is_in_gnf() {
            cfg.remove_mixed_rules();
            cfg.break_rules();
            proof {
                let r = cfg@.rules;
                assert forall|i: int| 0 <= i < r.len() implies tail_ok(#[trigger] r[i]) by {
                    assert(shaped(r[i]));
                }
            }
            if !cfg.convert_to_gnf() {
                return Err(GrammarError::ContainsCycles);
            }
        }
        let ghost gnf = cfg@.rules;
        proof {
            if nf2 {
                assert(gnf == raw);
            }
        }
        cfg.remove_unused_rules();
        proof {
            if nf2 {
                assert(cfg@.rules == raw);
                let w = choose|i: int| 0 <= i < raw.len() && (#[trigger] raw[i]).lhs == st;
                crate::cfg::lemma_defines_count_lhs(raw, st, w);
            }
            lemma_keep_subset(gnf, gnf, st);
            assert forall|i: int| 0 <= i < cfg@.rules.len() implies gnf_rule(#[trigger] cfg@.rules[i]) by {
                assert(gnf.contains(cfg@.rules[i]));
            }
        }
        if cfg.count_entrypoint_rules() == 0 {
            return Err(GrammarError::ContainsCycles);
        }
        proof {
            lemma_count_lhs_defines(cfg@.rules, cfg@.start);
        }
        cfg.set_new_entrypoint();
        let ghost single = cfg@;
        cfg.remove_duplicate_rules();
        let ghost deduped = cfg@;
        proof {
            lemma_dedup_subset(single.rules);
            lemma_dedup_distinct(single.rules);
            let dr = deduped.rules;
            assert forall|i: int| 0 <= i < dr.len() implies gnf_rule(#[trigger] dr[i]) by {
                assert(single.rules.contains(dr[i]));
            }
            if on_rhs(dr, deduped.start) {
                let (i, k) = choose|i: int, k: int| 0 <= i < dr.len() && 0 <= k < dr[i].rhs.len() && #[trigger] dr[i].rhs[k] == Sym::N(deduped.start);
                assert(single.rules.contains(dr[i]));
                let j = choose|j: int| 0 <= j < single.rules.len() && single.rules[j] == dr[i];
                assert(single.rules[j].rhs[k] == Sym::N(single.start));
            }
            let w = choose|i: int| 0 <= i < single.rules.len() && (#[trigger] single.rules[i]).lhs == single.start;
            assert(dr.contains(single.rules[w]));
        }
        cfg.remove_unused_rules();
        proof {
            let dr = deduped.rules;
            let st = deduped.start;
            lemma_keep_subset(dr, dr, st);
            lemma_keep_distinct(dr, dr, st);
            lemma_keep_reachable_elements(dr, dr, st);
            let fr = cfg@.rules;
            assert forall|i: int| 0 <= i < fr.len() implies gnf_rule(#[trigger] fr[i]) by {
                assert(dr.contains(fr[i]));
            }
            if on_rhs(fr, cfg@.start) {
                let (i, k) = choose|i: int, k: int| 0 <= i < fr.len() && 0 <= k < fr[i].rhs.len() && #[trigger] fr[i].rhs[k] == Sym::N(cfg@.start);
                assert(dr.contains(fr[i]));
                let j = choose|j: int| 0 <= j < dr.len() && dr[j] == fr[i];
                assert(dr[j].rhs[k] == Sym::N(st));
            }
            let w = choose|i: int| 0 <= i < dr.len() && (#[trigger] dr[i]).lhs == st;
            assert(crate::cfg::reach_k(dr, st, st, 0));
            assert(keep_reachable(dr, dr, st).contains(dr[w]));
            assert forall|i: int| 0 <= i < fr.len() implies reachable(fr, st, #[trigger] fr[i].lhs) by {
                let kk = choose|kk: nat| reach_k(dr, st, fr[i].lhs, kk);
                lemma_reach_in_kept(dr, st, fr[i].lhs, kk);
            }
        }
        proof {
            if nf2 {
                assert(cfg@.rules == raw);
                assert(cfg@.start == st);
            }
        }
        if !cfg.references_defined() || !cfg.check_cycles() {
            return Err(GrammarError::ContainsCycles);
        }
        Ok(cfg)
    }
}

} // verus!

verus! {

/// A grammar in normal form is left as it is by every pass: merging
/// terminals, dropping repeated rules, dropping unreachable rules, and
/// removing unit rules.
pub proof fn lemma_normal_form_fixed(rules: Seq<RuleV>, start: Seq<char>)
    requires
        normal_form(GrammarV { rules, start }),
    ensures
        merge_all(rules) == rules,
        dedup(rules) == rules,
        keep_reachable(rules, rules, start) == rules,
        raw_rules(rules, start) == rules,
        crate::cfg::no_units(rules),
        crate::cfg::all_nonempty(rules),
{
    assert forall|i: int| 0 <= i < rules.len() implies no_adjacent_terminals(#[trigger] rules[i].rhs) by {
        assert(gnf_rule(rules[i]));
        assert forall|k: int| 0 <= k < rules[i].rhs.len() - 1 implies !(rules[i].rhs[k] is T && #[trigger] rules[i].rhs[k + 1] is T) by {
            assert(rules[i].rhs[k + 1] is N);
        }
    }
    assert(merge_all(rules) =~= rules) by {
        assert forall|i: int| 0 <= i < rules.len() implies merge_all(rules)[i] == rules[i] by {
            lemma_merge_identity(rules[i].rhs);
        }
    }
    lemma_dedup_identity(rules);
    lemma_keep_all(rules, rules, start);
    assert forall|i: int| 0 <= i < rules.len() implies !crate::cfg::unit_rule(#[trigger] rules[i]) by {
        assert(gnf_rule(rules[i]));
    }
    assert forall|i: int| 0 <= i < rules.len() implies (#[trigger] rules[i]).rhs.len() >= 1 by {
        assert(gnf_rule(rules[i]));
    }
}

/// Normalizing in raw mode twice gives what normalizing once gives.
pub proof fn lemma_raw_normalization_idempotent(rules: Seq<RuleV>, start: Seq<char>)
    ensures
        raw_rules(raw_rules(rules, start), start) == raw_rules(rules, start),
{
    let m = merge_all(rules);
    let d = dedup(m);
    let k = raw_rules(rules, start);
    lemma_dedup_subset(m);
    lemma_keep_subset(d, d, start);
    assert forall|i: int| 0 <= i < k.len() implies no_adjacent_terminals(#[trigger] k[i].rhs) by {
        assert(d.contains(k[i]));
        let a = choose|a: int| 0 <= a < d.len() && d[a] == k[i];
        assert(m.contains(d[a]));
        let b = choose|b: int| 0 <= b < m.len() && m[b] == d[a];
        lemma_merge_no_adjacent(rules[b].rhs);
    }
    assert(merge_all(k) =~= k) by {
        assert forall|i: int| 0 <= i < k.len() implies merge_all(k)[i] == k[i] by {
            lemma_merge_identity(k[i].rhs);
        }
    }
    lemma_dedup_distinct(m);
    lemma_keep_distinct(d, d, start);
    lemma_dedup_identity(k);
    lemma_keep_reachable_elements(d, d, start);
    assert forall|i: int| 0 <= i < k.len() implies reachable(k, start, #[trigger] k[i].lhs) by {
        let kk = choose|kk: nat| reach_k(d, start, k[i].lhs, kk);
        lemma_reach_in_kept(d, start, k[i].lhs, kk);
    }
    lemma_keep_all(k, k, start);
}

} // verus!
