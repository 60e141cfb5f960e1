//! Incremental maintenance by delete and rederive: removing a triple first
//! over-deletes everything that could have been derived from it, then puts
//! back each over-deleted triple that a rule still derives from what is left.
use vstd::prelude::*;
use crate::triples::{Triple, Rule, RuleView, VarOrTerm, code_of};
use crate::bindings::{Binding, BindingView, bind_add, column, key_pos, lemma_key_pos};
use crate::tripleindex::{TripleIndex, TripleIndexView, contains_spec, add_spec, remove_spec, storable,
    lemma_contains_after_add_other, law_not_contains_after_remove};
use crate::ruleindex::{RuleIndex, RuleIndexView, match_spec, rules_at, ref_views};
use crate::reasoner::{Reasoner, SimpleQueryEngine, QueryEngine, specialize_all, heads_all, engine_spec, materializes, mat_result,
    sub_row, sub_elem, substitute_head_spec, lemma_triple_eq, lemma_heads_prefix, lemma_specialize_prefix};
use crate::parser::rule_views;
use crate::encoding::Encoder;
use crate::store::{TripleStore, add_triples_spec, add_rules_spec};
use crate::parser::{parse_ok, parse_lines_spec, lines_of};
use std::rc::Rc;

verus! {

/// The triples that the rules `rs` give against the index (see `heads_all`).
fn infer_rule_heads(triple_index: &TripleIndex, triple_counter: Option<usize>, rules: &Vec<Rule>) -> (res: Vec<Triple>)
    requires
        heads_all(triple_index@, rule_views(rules@), triple_counter) is Some,
    ensures
        res@ == heads_all(triple_index@, rule_views(rules@), triple_counter).unwrap(),
{
    let ghost v = triple_index@;
    let ghost srs = rule_views(rules@);
    proof {
        lemma_heads_prefix(v, srs, triple_counter);
    }
    let mut out: Vec<Triple> = Vec::new();
    let mut j: usize = 0;
    assert(srs.take(0) =~= Seq::<RuleView>::empty());
    while j < rules.len()
        invariant
            j <= rules@.len(),
            srs == rule_views(rules@),
            v == triple_index@,
            forall|m: int| 0 <= m <= srs.len() ==> (#[trigger] heads_all(v, srs.take(m), triple_counter)) is Some,
            heads_all(v, srs.take(j as int), triple_counter) == Some(out@),
        decreases rules@.len() - j,
    {
        proof {
            assert(srs.take(j + 1).drop_last() =~= srs.take(j as int));
            assert(srs.take(j + 1).last() == rules@[j as int]@);
            assert(heads_all(v, srs.take(j + 1), triple_counter) is Some);
        }
        let rule = &rules[j];
        match SimpleQueryEngine::query(triple_index, &rule.body, triple_counter) {
            Some(bindings) => {
                let mut heads = Reasoner::substitute_head_with_bindings(&rule.head, &bindings);
                let ghost before = out@;
                let ghost hv = heads@;
                out.append(&mut heads);
                assert(out@ =~= before + hv);
            },
            None => {},
        }
        j = j + 1;
    }
    assert(srs.take(srs.len() as int) =~= srs);
    out
}

/// Whether `ts` holds a triple equal to `t`.
fn triples_has(ts: &Vec<Triple>, t: &Triple) -> (res: bool)
    ensures
        res == ts@.contains(*t),
{
    proof {
        lemma_triple_eq();
    }
    let mut i: usize = 0;
    while i < ts.len()
        invariant
            i <= ts@.len(),
            forall|k: int| 0 <= k < i ==> ts@[k] != *t,
            vstd::laws_eq::obeys_concrete_eq::<Triple>(),
        decreases ts@.len() - i,
    {
        if ts[i] == *t {
            assert(ts@[i as int] == *t);
            return true;
        }
        i = i + 1;
    }
    false
}

/// Matching an element of a rule head against an element of a triple: a
/// variable against a term binds it; otherwise the two must be equal.
pub open spec fn elem_bind(left: VarOrTerm, right: VarOrTerm, b: BindingView) -> (bool, BindingView) {
    match (left, right) {
        (VarOrTerm::Var(x), VarOrTerm::Term(y)) => (true, bind_add(b, x.name, y.iri)),
        _ => (left == right, b),
    }
}

/// Matching a rule head against a triple, subject, predicate and object in
/// turn: the binding of the head's variables, or `None` on a mismatch.
pub open spec fn head_binding(head: Triple, t: Triple) -> Option<BindingView> {
    let (m1, b1) = elem_bind(head.s, t.s, seq![]);
    if !m1 {
        None
    } else {
        let (m2, b2) = elem_bind(head.p, t.p, b1);
        if !m2 {
            None
        } else {
            let (m3, b3) = elem_bind(head.o, t.o, b2);
            if m3 {
                Some(b3)
            } else {
                None
            }
        }
    }
}

/// The rules of `rs` whose head matches `t`, in order, each with the
/// binding of its head.
pub open spec fn rules_by_head(rs: Seq<RuleView>, t: Triple) -> Seq<(RuleView, BindingView)>
    decreases rs.len(),
{
    if rs.len() == 0 {
        seq![]
    } else {
        let a = rules_by_head(rs.drop_last(), t);
        match head_binding(rs.last().head, t) {
            Some(b) => a.push((rs.last(), b)),
            None => a,
        }
    }
}

/// Every column of the binding has a first value.
pub open spec fn first_row(b: BindingView) -> bool {
    forall|i: int| 0 <= i < b.len() ==> (#[trigger] b[i]).1.len() > 0
}

/// The body patterns with the first row of the binding substituted for
/// their bound variables; unbound variables stay.
pub open spec fn body_with(body: Seq<Triple>, b: BindingView) -> Seq<Triple> {
    Seq::new(body.len(), |j: int| sub_row(body[j], b, 0).unwrap())
}

pub(crate) proof fn lemma_bind_add_first_row(b: BindingView, k: usize, v: usize)
    requires
        first_row(b),
    ensures
        first_row(bind_add(b, k, v)),
{
    lemma_key_pos(b, k);
    let r = bind_add(b, k, v);
    assert forall|i: int| 0 <= i < r.len() implies (#[trigger] r[i]).1.len() > 0 by {
        if key_pos(b, k) >= 0 && i == key_pos(b, k) {
        } else if i < b.len() {
            assert(r[i] == b[i]);
        }
    }
}

proof fn lemma_elem_bind_first_row(l: VarOrTerm, r: VarOrTerm, b: BindingView)
    requires
        first_row(b),
    ensures
        first_row(elem_bind(l, r, b).1),
{
    match (l, r) {
        (VarOrTerm::Var(x), VarOrTerm::Term(y)) => lemma_bind_add_first_row(b, x.name, y.iri),
        _ => {},
    }
}

proof fn lemma_sub_row_first(h: Triple, b: BindingView)
    requires
        first_row(b),
    ensures
        sub_row(h, b, 0) is Some,
{
    assert forall|x: VarOrTerm| #[trigger] sub_elem(x, b, 0) is Some by {
        match x {
            VarOrTerm::Var(v) => {
                lemma_key_pos(b, v.name);
                if key_pos(b, v.name) >= 0 {
                    assert(b[key_pos(b, v.name)].1.len() > 0);
                }
            },
            VarOrTerm::Term(_) => {},
        }
    }
    assert(sub_elem(h.s, b, 0) is Some);
    assert(sub_elem(h.p, b, 0) is Some);
    assert(sub_elem(h.o, b, 0) is Some);
}


/// Marking the heads `hs` in order: each not yet marked is added to the
/// marked triples `od` and pushed on the `stack`.
pub open spec fn od_add(od: Seq<Triple>, stack: Seq<Triple>, hs: Seq<Triple>) -> (Seq<Triple>, Seq<Triple>)
    decreases hs.len(),
{
    if hs.len() == 0 {
        (od, stack)
    } else {
        let (o, s) = od_add(od, stack, hs.drop_last());
        if o.contains(hs.last()) {
            (o, s)
        } else {
            (o.push(hs.last()), s.push(hs.last()))
        }
    }
}

/// The heads that triple `t` leads to: the rules it can trigger,
/// specialized by it, give their heads against the whole index.
pub open spec fn od_step(v: TripleIndexView, ri: RuleIndexView, t: Triple) -> Option<Seq<Triple>> {
    match specialize_all(t, rules_at(ri.rules, match_spec(ri, t))) {
        Some(rs) => heads_all(v, rs, None),
        None => None,
    }
}

/// Over-deletion from the marked triples `od` and the `stack`, within
/// `fuel` steps: the last triple of the stack is taken off and the heads it
/// leads to are marked, until the stack is empty. Gives the marked triples.
pub open spec fn od_run(v: TripleIndexView, ri: RuleIndexView, od: Seq<Triple>, stack: Seq<Triple>, fuel: nat) -> Option<Seq<Triple>>
    decreases fuel,
{
    if stack.len() == 0 {
        Some(od)
    } else if fuel == 0 {
        None
    } else {
        match od_step(v, ri, stack.last()) {
            None => None,
            Some(hs) => {
                let (o, s) = od_add(od, stack.drop_last(), hs);
                od_run(v, ri, o, s, (fuel - 1) as nat)
            },
        }
    }
}

/// Over-deletion from `t` ends and no step of it fails.
pub open spec fn od_ends(v: TripleIndexView, ri: RuleIndexView, t: Triple) -> bool {
    exists|f: nat| (#[trigger] od_run(v, ri, seq![], seq![t], f)) is Some
}

/// The triples over-deleted for `t`, in the order they were marked.
pub open spec fn overdeleted(v: TripleIndexView, ri: RuleIndexView, t: Triple) -> Seq<Triple> {
    od_run(v, ri, seq![], seq![t], choose|f: nat| (#[trigger] od_run(v, ri, seq![], seq![t], f)) is Some).unwrap()
}

/// Removing the triples `ts` in order; fails when the counter would go
/// below zero.
pub open spec fn remove_all(v: TripleIndexView, ts: Seq<Triple>) -> Option<TripleIndexView>
    decreases ts.len(),
{
    if ts.len() == 0 {
        Some(v)
    } else {
        match remove_all(v, ts.drop_last()) {
            None => None,
            Some(v1) => if v1.counter > 0 {
                Some(remove_spec(v1, ts.last()))
            } else {
                None
            },
        }
    }
}

/// Trying to put back `t` with the rules `ms` (and their head bindings),
/// from position `i` on: the first rule whose substituted body has an
/// answer, while the index lacks `t`, adds it. Gives the index and whether
/// `t` was added.
pub open spec fn rederive_one(v: TripleIndexView, ms: Seq<(RuleView, BindingView)>, t: Triple, i: int) -> Option<(TripleIndexView, bool)>
    decreases ms.len() - i,
{
    if i < 0 || i >= ms.len() {
        Some((v, false))
    } else {
        match engine_spec(v, body_with(ms[i].0.body, ms[i].1), None) {
            None => None,
            Some(Some(_)) => if !contains_spec(v, t) {
                if storable(t) && v.counter < usize::MAX {
                    Some((add_spec(v, t), true))
                } else {
                    None
                }
            } else {
                rederive_one(v, ms, t, i + 1)
            },
            Some(None) => rederive_one(v, ms, t, i + 1),
        }
    }
}

/// One pass over the over-deleted triples `dl`, in order, trying to put
/// each back (see `rederive_one`). Gives the index and whether any was put
/// back.
pub open spec fn rederive_pass(v: TripleIndexView, rs: Seq<RuleView>, dl: Seq<Triple>) -> Option<(TripleIndexView, bool)>
    decreases dl.len(),
{
    if dl.len() == 0 {
        Some((v, false))
    } else {
        match rederive_pass(v, rs, dl.drop_last()) {
            None => None,
            Some((v1, c1)) => match rederive_one(v1, rules_by_head(rs, dl.last()), dl.last(), 0) {
                None => None,
                Some((v2, c2)) => Some((v2, c1 || c2)),
            },
        }
    }
}

/// Passes over `dl` until one puts nothing back, within `fuel` passes.
pub open spec fn rederive_run(v: TripleIndexView, rs: Seq<RuleView>, dl: Seq<Triple>, fuel: nat) -> Option<TripleIndexView>
    decreases fuel,
{
    if fuel == 0 {
        None
    } else {
        match rederive_pass(v, rs, dl) {
            None => None,
            Some((v1, c)) => if c {
                rederive_run(v1, rs, dl, (fuel - 1) as nat)
            } else {
                Some(v1)
            },
        }
    }
}

/// The index after the over-deleted triples and then `t` were removed.
pub open spec fn dred_removed(v: TripleIndexView, ri: RuleIndexView, t: Triple) -> Option<TripleIndexView> {
    remove_all(v, overdeleted(v, ri, t).push(t))
}

/// Removing `t` by delete and rederive ends, and no step of it fails.
pub open spec fn dred_ok(v: TripleIndexView, ri: RuleIndexView, t: Triple) -> bool {
    &&& od_ends(v, ri, t)
    &&& dred_removed(v, ri, t) is Some
    &&& exists|f: nat| (#[trigger] rederive_run(dred_removed(v, ri, t).unwrap(), ri.rules, overdeleted(v, ri, t), f)) is Some
}

/// The index after `t` was removed by delete and rederive.
pub open spec fn dred_result(v: TripleIndexView, ri: RuleIndexView, t: Triple) -> TripleIndexView {
    let r = dred_removed(v, ri, t).unwrap();
    let od = overdeleted(v, ri, t);
    rederive_run(r, ri.rules, od, choose|f: nat| (#[trigger] rederive_run(r, ri.rules, od, f)) is Some).unwrap()
}

proof fn lemma_remove_all_prefix(v: TripleIndexView, ts: Seq<Triple>)
    requires
        remove_all(v, ts) is Some,
    ensures
        forall|k: int| 0 <= k <= ts.len() ==> (#[trigger] remove_all(v, ts.take(k))) is Some,
    decreases ts.len(),
{
    if ts.len() > 0 {
        lemma_remove_all_prefix(v, ts.drop_last());
        assert forall|k: int| 0 <= k <= ts.len() implies (#[trigger] remove_all(v, ts.take(k))) is Some by {
            if k < ts.len() {
                assert(ts.take(k) =~= ts.drop_last().take(k));
            } else {
                assert(ts.take(k) =~= ts);
            }
        }
    }
}

proof fn lemma_pass_prefix(v: TripleIndexView, rs: Seq<RuleView>, dl: Seq<Triple>)
    requires
        rederive_pass(v, rs, dl) is Some,
    ensures
        forall|k: int| 0 <= k <= dl.len() ==> (#[trigger] rederive_pass(v, rs, dl.take(k))) is Some,
    decreases dl.len(),
{
    if dl.len() > 0 {
        lemma_pass_prefix(v, rs, dl.drop_last());
        assert forall|k: int| 0 <= k <= dl.len() implies (#[trigger] rederive_pass(v, rs, dl.take(k))) is Some by {
            if k < dl.len() {
                assert(dl.take(k) =~= dl.drop_last().take(k));
            } else {
                assert(dl.take(k) =~= dl);
            }
        }
    }
}

/// The rules with a head matching `t`, as pairs of a rule and a binding.
pub open spec fn pairs_view<'a>(ps: Seq<(&'a Rule, Binding)>) -> Seq<(RuleView, BindingView)> {
    ps.map_values(|e: (&'a Rule, Binding)| (e.0@, e.1@))
}

/// The body of `rule` with the first row of `bindings` substituted (see
/// `body_with`).
fn substitute_rule_body_with_binding(rule: &Rule, bindings: &Binding) -> (res: Vec<Triple>)
    requires
        first_row(bindings@),
    ensures
        res@ == body_with(rule.body@, bindings@),
{
    let mut out: Vec<Triple> = Vec::new();
    let mut j: usize = 0;
    while j < rule.body.len()
        invariant
            j <= rule.body@.len(),
            first_row(bindings@),
            out@ == body_with(rule.body@, bindings@).take(j as int),
        decreases rule.body@.len() - j,
    {
        let pattern = &rule.body[j];
        proof {
            lemma_sub_row_first(*pattern, bindings@);
        }
        let s = Reasoner::sub_elem_exec(&pattern.s, bindings, 0);
        let p = Reasoner::sub_elem_exec(&pattern.p, bindings, 0);
        let o = Reasoner::sub_elem_exec(&pattern.o, bindings, 0);
        out.push(Triple { s, p, o, g: None });
        proof {
            assert(body_with(rule.body@, bindings@).take(j + 1) =~= body_with(rule.body@, bindings@).take(j as int).push(
                body_with(rule.body@, bindings@)[j as int],
            ));
        }
        j = j + 1;
    }
    assert(body_with(rule.body@, bindings@).take(rule.body@.len() as int) =~= body_with(rule.body@, bindings@));
    out
}

/// Delete-and-rederive maintenance of a materialized store.
pub struct DRed {
    pub rules: Vec<Rule>,
    pub rules_index: RuleIndex,
    pub triple_index: TripleIndex,
    pub encoder: Encoder,
    pub reasoner: Reasoner,
}

impl DRed {
    /// Matches an element of a rule head against an element of a triple
    /// (see `elem_bind`), adding to `bindings`.
    fn eval_triple_element(left: &VarOrTerm, right: &VarOrTerm, bindings: &mut Binding) -> (res: bool)
        requires
            old(bindings).wf(),
        ensures
            final(bindings).wf(),
            (res, final(bindings)@) == elem_bind(*left, *right, old(bindings)@),
    {
        match (left, right) {
            (VarOrTerm::Var(left_name), VarOrTerm::Term(right_name)) => {
                bindings.add(&left_name.name, right_name.iri);
                true
            },
            _ => *left == *right,
        }
    }

    /// The rules whose head matches `head_triple`, in the index's order,
    /// each with the binding of its head (see `rules_by_head`).
    pub(crate) fn find_rules_by_head<'a>(rules_index: &'a RuleIndex, head_triple: &Triple) -> (res: Vec<(&'a Rule, Binding)>)
        ensures
            pairs_view(res@) == rules_by_head(rules_index@.rules, *head_triple),
            forall|k: int| 0 <= k < res@.len() ==> (#[trigger] res@[k]).1.wf() && first_row(res@[k].1@),
    {
        let rules = rules_index.rules();
        let ghost rs = rule_views(rules@);
        let mut rule_matches: Vec<(&'a Rule, Binding)> = Vec::new();
        let mut i: usize = 0;
        assert(rs.take(0) =~= Seq::<RuleView>::empty());
        while i < rules.len()
            invariant
                i <= rules@.len(),
                rs == rule_views(rules@),
                rs == rules_index@.rules,
                pairs_view(rule_matches@) == rules_by_head(rs.take(i as int), *head_triple),
                forall|k: int| 0 <= k < rule_matches@.len() ==> (#[trigger] rule_matches@[k]).1.wf() && first_row(
                    rule_matches@[k].1@,
                ),
            decreases rules@.len() - i,
        {
            let rule = &rules[i];
            let head: &Triple = &rule.head;
            let mut binding = Binding::new();
            proof {
                assert(first_row(binding@));
                lemma_elem_bind_first_row(head.s, head_triple.s, binding@);
            }
            let m1 = Self::eval_triple_element(&head.s, &head_triple.s, &mut binding);
            let mut matched = false;
            if m1 {
                proof {
                    lemma_elem_bind_first_row(head.p, head_triple.p, binding@);
                }
                let m2 = Self::eval_triple_element(&head.p, &head_triple.p, &mut binding);
                if m2 {
                    proof {
                        lemma_elem_bind_first_row(head.o, head_triple.o, binding@);
                    }
                    matched = Self::eval_triple_element(&head.o, &head_triple.o, &mut binding);
                }
            }
            proof {
                assert(rs.take(i + 1).drop_last() =~= rs.take(i as int));
                assert(rs.take(i + 1).last() == rule@);
            }
            if matched {
                let ghost before = rule_matches@;
                rule_matches.push((rule, binding));
                assert(pairs_view(rule_matches@) =~= pairs_view(before).push((rule@, binding@)));
            }
            i = i + 1;
        }
        assert(rs.take(rs.len() as int) =~= rs);
        rule_matches
    }

    /// An empty session.
    fn new() -> (res: DRed)
        ensures
            res.rules@ == Seq::<Rule>::empty(),
            res.rules_index.wf(),
            res.triple_index@ == crate::tripleindex::empty_index(),
            res.encoder@ == Seq::<Seq<char>>::empty(),
    {
        DRed {
            rules: Vec::new(),
            rules_index: RuleIndex::new(),
            triple_index: TripleIndex::new(),
            encoder: Encoder::new(),
            reasoner: Reasoner,
        }
    }

    /// A session filled from text in the line format (see
    /// `TripleStore::from`).
    pub fn from(data: &str) -> (res: DRed)
        requires
            parse_ok(data@),
        ensures
            ({
                let r = parse_lines_spec(Seq::empty(), lines_of(data@));
                &&& res.triple_index@ == add_triples_spec(crate::tripleindex::empty_index(), r.0)
                &&& rule_views(res.rules@) == r.1
                &&& res.rules_index.wf()
                &&& res.rules_index@ == add_rules_spec(crate::ruleindex::empty_rule_index(), r.1)
                &&& res.encoder@ == r.2
            }),
    {
        let triple_store = TripleStore::from(data);
        DRed {
            rules: triple_store.rules,
            rules_index: triple_store.rules_index,
            triple_index: triple_store.triple_index,
            encoder: triple_store.encoder,
            reasoner: Reasoner,
        }
    }

    /// Adds a triple (see `TripleIndex::add`).
    pub fn add(&mut self, triple: Triple)
        requires
            storable(triple),
            old(self).triple_index@.counter < usize::MAX,
        ensures
            final(self).triple_index@ == add_spec(old(self).triple_index@, triple),
            final(self).rules@ == old(self).rules@,
            final(self).rules_index@ == old(self).rules_index@,
            final(self).rules_index.wf() == old(self).rules_index.wf(),
            final(self).encoder@ == old(self).encoder@,
    {
        self.triple_index.add(triple);
    }

    /// Adds a shared triple (see `TripleIndex::add`).
    pub fn add_ref(&mut self, triple: Rc<Triple>)
        requires
            storable(*triple),
            old(self).triple_index@.counter < usize::MAX,
        ensures
            final(self).triple_index@ == add_spec(old(self).triple_index@, *triple),
            final(self).rules@ == old(self).rules@,
            final(self).rules_index@ == old(self).rules_index@,
            final(self).rules_index.wf() == old(self).rules_index.wf(),
            final(self).encoder@ == old(self).encoder@,
    {
        self.triple_index.add_ref(triple);
    }

    /// Removes `triple` by delete and rederive (see `dred_result`): every
    /// head that the rules it triggers give is over-deleted, and so on from
    /// each over-deleted triple; the over-deleted triples and then `triple`
    /// are removed; then, pass after pass until a pass puts nothing back,
    /// each over-deleted triple that a rule with a matching head still
    /// derives is put back.
    pub fn remove_ref(&mut self, triple: Rc<Triple>)
        requires
            old(self).rules_index.wf(),
            dred_ok(old(self).triple_index@, old(self).rules_index@, *triple),
        ensures
            final(self).triple_index@ == dred_result(old(self).triple_index@, old(self).rules_index@, *triple),
            final(self).rules@ == old(self).rules@,
            final(self).rules_index@ == old(self).rules_index@,
            final(self).rules_index.wf(),
            final(self).encoder@ == old(self).encoder@,
    {
        let t0: Triple = *triple;
        let ghost v0 = self.triple_index@;
        let ghost ri = self.rules_index@;
        // over-deletion
        let ghost fuel0 = choose|f: nat| (#[trigger] od_run(v0, ri, seq![], seq![t0], f)) is Some;
        let ghost mut fuel: nat = fuel0;
        let mut over_deletion: Vec<Triple> = Vec::new();
        let mut stack: Vec<Triple> = Vec::new();
        stack.push(t0);
        assert(stack@ =~= seq![t0]);
        assert(over_deletion@ =~= Seq::<Triple>::empty());
        while stack.len() > 0
            invariant
                self.rules_index.wf(),
                ri == self.rules_index@,
                v0 == self.triple_index@,
                self.rules@ == old(self).rules@,
                self.encoder@ == old(self).encoder@,
                od_run(v0, ri, seq![], seq![t0], fuel0) is Some,
                od_run(v0, ri, seq![], seq![t0], fuel0) == od_run(v0, ri, over_deletion@, stack@, fuel),
            decreases fuel,
        {
            let ghost st = stack@;
            let current_triple = stack.pop().unwrap();
            assert(current_triple == st.last());
            assert(stack@ == st.drop_last());
            let matching_rules = self.rules_index.find_match(&current_triple);
            let ghost rs = rules_at(ri.rules, match_spec(ri, current_triple));
            proof {
                lemma_specialize_prefix(current_triple, rs);
            }
            let mut specialized: Vec<Rule> = Vec::new();
            let mut k: usize = 0;
            assert(rs.take(0) =~= Seq::<RuleView>::empty());
            while k < matching_rules.len()
                invariant
                    k <= matching_rules@.len(),
                    ref_views(matching_rules@) == rs,
                    specialize_all(current_triple, rs) is Some,
                    forall|m: int| 0 <= m <= rs.len() ==> (#[trigger] specialize_all(current_triple, rs.take(m))) is Some,
                    specialize_all(current_triple, rs.take(k as int)) == Some(rule_views(specialized@)),
                decreases matching_rules@.len() - k,
            {
                proof {
                    assert(rs.take(k + 1).drop_last() =~= rs.take(k as int));
                    assert(rs.take(k + 1).last() == rs[k as int]);
                    assert(specialize_all(current_triple, rs.take(k + 1)) is Some);
                }
                let ghost before = rule_views(specialized@);
                let mut subs = Reasoner::substitute_rule(&current_triple, matching_rules[k]);
                let ghost sv = rule_views(subs@);
                specialized.append(&mut subs);
                assert(rule_views(specialized@) =~= before + sv);
                k = k + 1;
            }
            assert(rs.take(rs.len() as int) =~= rs);
            let delete_triples = infer_rule_heads(&self.triple_index, None, &specialized);
            let ghost hs = delete_triples@;
            let ghost od0 = over_deletion@;
            let ghost st0 = stack@;
            let mut m: usize = 0;
            assert(hs.take(0) =~= Seq::<Triple>::empty());
            while m < delete_triples.len()
                invariant
                    m <= hs.len(),
                    hs == delete_triples@,
                    (over_deletion@, stack@) == od_add(od0, st0, hs.take(m as int)),
                decreases hs.len() - m,
            {
                let t = delete_triples[m];
                proof {
                    assert(hs.take(m + 1).drop_last() =~= hs.take(m as int));
                    assert(hs.take(m + 1).last() == t);
                }
                if !triples_has(&over_deletion, &t) {
                    stack.push(t);
                    over_deletion.push(t);
                }
                m = m + 1;
            }
            assert(hs.take(hs.len() as int) =~= hs);
            proof {
                fuel = (fuel - 1) as nat;
            }
        }
        // removal of the over-deleted triples, then of the triple itself
        let ghost dl = over_deletion@;
        let ghost full = dl.push(t0);
        proof {
            lemma_remove_all_prefix(v0, full);
        }
        let mut i: usize = 0;
        assert(full.take(0) =~= Seq::<Triple>::empty());
        while i < over_deletion.len()
            invariant
                i <= dl.len(),
                dl == over_deletion@,
                full == dl.push(t0),
                self.rules_index.wf(),
                ri == self.rules_index@,
                self.rules@ == old(self).rules@,
                self.encoder@ == old(self).encoder@,
                forall|k: int| 0 <= k <= full.len() ==> (#[trigger] remove_all(v0, full.take(k))) is Some,
                remove_all(v0, full.take(i as int)) == Some(self.triple_index@),
            decreases dl.len() - i,
        {
            proof {
                assert(full.take(i + 1).drop_last() =~= full.take(i as int));
                assert(full.take(i + 1).last() == dl[i as int]);
                assert(remove_all(v0, full.take(i + 1)) is Some);
            }
            self.triple_index.remove_ref(&over_deletion[i]);
            i = i + 1;
        }
        proof {
            assert(full.take(dl.len() as int + 1).drop_last() =~= full.take(dl.len() as int));
            assert(full.take(dl.len() as int + 1) =~= full);
            assert(remove_all(v0, full) is Some);
        }
        self.triple_index.remove_ref(&t0);
        // rederivation
        let ghost r0 = self.triple_index@;
        let ghost rs = ri.rules;
        let ghost rfuel0 = choose|f: nat| (#[trigger] rederive_run(r0, rs, dl, f)) is Some;
        let ghost mut rfuel: nat = rfuel0;
        let mut changed = true;
        while changed
            invariant
                dl == over_deletion@,
                rs == ri.rules,
                self.rules_index.wf(),
                ri == self.rules_index@,
                self.rules@ == old(self).rules@,
                self.encoder@ == old(self).encoder@,
                rederive_run(r0, rs, dl, rfuel0) is Some,
                changed ==> rederive_run(r0, rs, dl, rfuel0) == rederive_run(self.triple_index@, rs, dl, rfuel),
                !changed ==> self.triple_index@ == rederive_run(r0, rs, dl, rfuel0).unwrap(),
            decreases rfuel,
        {
            let ghost vs = self.triple_index@;
            assert(rederive_pass(vs, rs, dl) is Some);
            proof {
                lemma_pass_prefix(vs, rs, dl);
            }
            changed = false;
            let mut i: usize = 0;
            assert(dl.take(0) =~= Seq::<Triple>::empty());
            while i < over_deletion.len()
                invariant
                    i <= dl.len(),
                    dl == over_deletion@,
                    rs == ri.rules,
                    self.rules_index.wf(),
                    ri == self.rules_index@,
                    self.rules@ == old(self).rules@,
                    self.encoder@ == old(self).encoder@,
                    forall|k: int| 0 <= k <= dl.len() ==> (#[trigger] rederive_pass(vs, rs, dl.take(k))) is Some,
                    rederive_pass(vs, rs, dl.take(i as int)) == Some((self.triple_index@, changed)),
                decreases dl.len() - i,
            {
                let delete_triple = over_deletion[i];
                let ghost v1 = self.triple_index@;
                let ghost c1 = changed;
                proof {
                    assert(dl.take(i + 1).drop_last() =~= dl.take(i as int));
                    assert(dl.take(i + 1).last() == delete_triple);
                    assert(rederive_pass(vs, rs, dl.take(i + 1)) is Some);
                }
                let matched_rules = Self::find_rules_by_head(&self.rules_index, &delete_triple);
                let ghost ms = pairs_view(matched_rules@);
                assert(rederive_one(v1, ms, delete_triple, 0) is Some);
                let mut j: usize = 0;
                let mut done = false;
                while j < matched_rules.len() && !done
                    invariant
                        j <= matched_rules@.len(),
                        ms == pairs_view(matched_rules@),
                        forall|k: int| 0 <= k < matched_rules@.len() ==> (#[trigger] matched_rules@[k]).1.wf() && first_row(
                            matched_rules@[k].1@,
                        ),
                        rederive_one(v1, ms, delete_triple, 0) is Some,
                        !done ==> self.triple_index@ == v1 && rederive_one(v1, ms, delete_triple, 0) == rederive_one(
                            v1,
                            ms,
                            delete_triple,
                            j as int,
                        ),
                        done ==> rederive_one(v1, ms, delete_triple, 0) == Some((self.triple_index@, true)),
                        changed == (c1 || done),
                        self.rules_index.wf(),
                        ri == self.rules_index@,
                        self.rules@ == old(self).rules@,
                        self.encoder@ == old(self).encoder@,
                    decreases matched_rules@.len() - j,
                {
                    let matched_rule: &Rule = matched_rules[j].0;
                    let bindings: &Binding = &matched_rules[j].1;
                    assert(ms[j as int] == (matched_rule@, bindings@));
                    let substitute_rule = substitute_rule_body_with_binding(matched_rule, bindings);
                    match SimpleQueryEngine::query(&self.triple_index, &substitute_rule, None) {
                        Some(_) => {
                            if !self.triple_index.contains(&delete_triple) {
                                self.triple_index.add(delete_triple);
                                changed = true;
                                done = true;
                            }
                        },
                        None => {},
                    }
                    j = j + 1;
                }
                i = i + 1;
            }
            assert(dl.take(dl.len() as int) =~= dl);
            proof {
                rfuel = (rfuel - 1) as nat;
            }
        }
    }

    /// Materializes the triples with the rules (see `Reasoner::materialize`)
    /// and returns the triples added.
    pub fn materialize(&mut self) -> (res: Vec<Triple>)
        requires
            old(self).rules_index.wf(),
            materializes(old(self).triple_index@, old(self).rules_index@),
        ensures
            (final(self).triple_index@, res@) == mat_result(old(self).triple_index@, old(self).rules_index@),
            final(self).rules_index@ == old(self).rules_index@,
            final(self).rules_index.wf(),
            final(self).rules@ == old(self).rules@,
            final(self).encoder@ == old(self).encoder@,
    {
        self.reasoner.materialize(&mut self.triple_index, &self.rules_index)
    }
}

/// Triples `a` and `b` have the same subject, predicate and object.
pub open spec fn same_codes(a: Triple, b: Triple) -> bool {
    &&& code_of(a.s) == code_of(b.s)
    &&& code_of(a.p) == code_of(b.p)
    &&& code_of(a.o) == code_of(b.o)
}

proof fn lemma_one_keeps_out(v: TripleIndexView, ms: Seq<(RuleView, BindingView)>, d: Triple, i: int, t: Triple)
    requires
        rederive_one(v, ms, d, i) is Some,
        !contains_spec(v, t),
        !same_codes(d, t),
    ensures
        !contains_spec(rederive_one(v, ms, d, i).unwrap().0, t),
    decreases ms.len() - i,
{
    if 0 <= i < ms.len() {
        match engine_spec(v, body_with(ms[i].0.body, ms[i].1), None) {
            Some(Some(_)) => if !contains_spec(v, d) {
                lemma_contains_after_add_other(v, d, t);
            } else {
                lemma_one_keeps_out(v, ms, d, i + 1, t);
            },
            Some(None) => lemma_one_keeps_out(v, ms, d, i + 1, t),
            None => {},
        }
    }
}

proof fn lemma_pass_keeps_out(v: TripleIndexView, rs: Seq<RuleView>, dl: Seq<Triple>, t: Triple)
    requires
        rederive_pass(v, rs, dl) is Some,
        !contains_spec(v, t),
        forall|k: int| 0 <= k < dl.len() ==> !same_codes(#[trigger] dl[k], t),
    ensures
        !contains_spec(rederive_pass(v, rs, dl).unwrap().0, t),
    decreases dl.len(),
{
    if dl.len() > 0 {
        let d = dl.drop_last();
        assert forall|k: int| 0 <= k < d.len() implies !same_codes(#[trigger] d[k], t) by {
            assert(d[k] == dl[k]);
        }
        lemma_pass_keeps_out(v, rs, d, t);
        let v1 = rederive_pass(v, rs, d).unwrap().0;
        assert(!same_codes(dl[dl.len() - 1], t));
        lemma_one_keeps_out(v1, rules_by_head(rs, dl.last()), dl.last(), 0, t);
    }
}

proof fn lemma_run_keeps_out(v: TripleIndexView, rs: Seq<RuleView>, dl: Seq<Triple>, fuel: nat, t: Triple)
    requires
        rederive_run(v, rs, dl, fuel) is Some,
        !contains_spec(v, t),
        forall|k: int| 0 <= k < dl.len() ==> !same_codes(#[trigger] dl[k], t),
    ensures
        !contains_spec(rederive_run(v, rs, dl, fuel).unwrap(), t),
    decreases fuel,
{
    lemma_pass_keeps_out(v, rs, dl, t);
    let (v1, c) = rederive_pass(v, rs, dl).unwrap();
    if c {
        lemma_run_keeps_out(v1, rs, dl, (fuel - 1) as nat, t);
    }
}

/// After `t` is removed by delete and rederive, the index no longer contains
/// it, unless an over-deleted triple has its subject, predicate and object
/// (only over-deleted triples are put back).
pub proof fn law_removed_stays_out(v: TripleIndexView, ri: RuleIndexView, t: Triple)
    requires
        dred_ok(v, ri, t),
        forall|k: int| 0 <= k < overdeleted(v, ri, t).len() ==> !same_codes(#[trigger] overdeleted(v, ri, t)[k], t),
    ensures
        !contains_spec(dred_result(v, ri, t), t),
{
    let od = overdeleted(v, ri, t);
    let full = od.push(t);
    assert(full.drop_last() =~= od);
    let v1 = remove_all(v, od).unwrap();
    law_not_contains_after_remove(v1, t);
    let r = dred_removed(v, ri, t).unwrap();
    assert(r == remove_spec(v1, t));
    let f = choose|f: nat| (#[trigger] rederive_run(r, ri.rules, od, f)) is Some;
    lemma_run_keeps_out(r, ri.rules, od, f, t);
}


/// Whether rule `m` (with the binding of its head) has an answer for its
/// substituted body in index `v`.
pub open spec fn still_derives(v: TripleIndexView, m: (RuleView, BindingView)) -> bool {
    engine_spec(v, body_with(m.0.body, m.1), None) matches Some(Some(_))
}

/// When trying to put `t` back puts nothing back, the index is unchanged,
/// and every rule from `i` on that still derives `t`'s body finds `t` in it.
proof fn lemma_one_nothing_back(v: TripleIndexView, ms: Seq<(RuleView, BindingView)>, t: Triple, i: int)
    requires
        0 <= i,
        rederive_one(v, ms, t, i) is Some,
        !rederive_one(v, ms, t, i).unwrap().1,
    ensures
        rederive_one(v, ms, t, i).unwrap().0 == v,
        forall|j: int| i <= j < ms.len() && still_derives(v, #[trigger] ms[j]) ==> contains_spec(v, t),
    decreases ms.len() - i,
{
    if i < ms.len() {
        lemma_one_nothing_back(v, ms, t, i + 1);
    }
}

/// When a pass puts nothing back, the index is unchanged, and each
/// over-deleted triple that a rule with a matching head still derives is in
/// it.
proof fn lemma_pass_nothing_back(v: TripleIndexView, rs: Seq<RuleView>, dl: Seq<Triple>)
    requires
        rederive_pass(v, rs, dl) is Some,
        !rederive_pass(v, rs, dl).unwrap().1,
    ensures
        rederive_pass(v, rs, dl).unwrap().0 == v,
        forall|k: int, j: int|
            0 <= k < dl.len() && 0 <= j < rules_by_head(rs, dl[k]).len() && still_derives(v, #[trigger] rules_by_head(rs, #[trigger] dl[k])[j])
                ==> contains_spec(v, dl[k]),
    decreases dl.len(),
{
    if dl.len() > 0 {
        let d = dl.drop_last();
        lemma_pass_nothing_back(v, rs, d);
        let ms = rules_by_head(rs, dl.last());
        lemma_one_nothing_back(v, ms, dl.last(), 0);
        assert forall|k: int, j: int|
            0 <= k < dl.len() && 0 <= j < rules_by_head(rs, dl[k]).len() && still_derives(v, #[trigger] rules_by_head(rs, #[trigger] dl[k])[j])
                implies contains_spec(v, dl[k]) by {
            if k < d.len() {
                assert(dl[k] == d[k]);
            } else {
                assert(dl[k] == dl.last());
            }
        }
    }
}

/// The index that the passes end with holds each over-deleted triple that a
/// rule with a matching head still derives from it.
proof fn lemma_run_closed(v: TripleIndexView, rs: Seq<RuleView>, dl: Seq<Triple>, fuel: nat)
    requires
        rederive_run(v, rs, dl, fuel) is Some,
    ensures
        forall|k: int, j: int|
            0 <= k < dl.len() && 0 <= j < rules_by_head(rs, dl[k]).len()
                && still_derives(rederive_run(v, rs, dl, fuel).unwrap(), #[trigger] rules_by_head(rs, #[trigger] dl[k])[j])
                ==> contains_spec(rederive_run(v, rs, dl, fuel).unwrap(), dl[k]),
    decreases fuel,
{
    let (v1, c) = rederive_pass(v, rs, dl).unwrap();
    if c {
        lemma_run_closed(v1, rs, dl, (fuel - 1) as nat);
    } else {
        lemma_pass_nothing_back(v, rs, dl);
    }
}

/// After `t` is removed by delete and rederive, every over-deleted triple
/// that some rule with a matching head still derives from the index (its
/// body, with the head's binding substituted, has an answer) is in the
/// index: rederivation tries every such rule.
pub proof fn law_rederived_present(v: TripleIndexView, ri: RuleIndexView, t: Triple, k: int, j: int)
    requires
        dred_ok(v, ri, t),
        0 <= k < overdeleted(v, ri, t).len(),
        0 <= j < rules_by_head(ri.rules, overdeleted(v, ri, t)[k]).len(),
        still_derives(dred_result(v, ri, t), rules_by_head(ri.rules, overdeleted(v, ri, t)[k])[j]),
    ensures
        contains_spec(dred_result(v, ri, t), overdeleted(v, ri, t)[k]),
{
    let r = dred_removed(v, ri, t).unwrap();
    let od = overdeleted(v, ri, t);
    let f = choose|f: nat| (#[trigger] rederive_run(r, ri.rules, od, f)) is Some;
    lemma_run_closed(r, ri.rules, od, f);
}

} // verus!
