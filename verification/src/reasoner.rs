//! Forward-chaining materialization: every triple of the index, in order,
//! specializes the rules it can trigger, the specialized bodies are queried
//! against the triples seen so far, and the heads they bind are added when
//! new.
//!
//! The contracts follow each step exactly, including the steps that fail
//! (a variable read where a term is expected, a binding read past its end):
//! the spec functions below return `None` for a failing step, and the
//! functions require that the step does not fail.
use vstd::prelude::*;
use crate::triples::{Triple, Rule, RuleView, VarOrTerm, TermImpl, Variable};
use crate::bindings::{Binding, BindingView, bind_add, bind_len, column, covers, join_spec};
use crate::tripleindex::{TripleIndex, TripleIndexView, query_spec, counter_bound, contains_spec, add_spec,
    storable, opt_binding, law_contains_after_add};
use crate::ruleindex::{RuleIndex, RuleIndexView, match_spec, rules_at, ref_views, index_ok, lemma_in_match,
    lemma_in_match_bound};
use crate::encoding::Encoder;
use crate::imars_window::{ImarsWindow, item_pos, place_after, unshared, copy_stamped};
use std::rc::Rc;
use vstd::std_specs::cmp::PartialEqSpec;
use crate::utils::{decodable, triple_string, push_triple};
use crate::text::string_of;

verus! {

/// Matching one element of a pattern against the element of a triple: a
/// variable is bound to the triple's code, a term must equal it. `None` when
/// the triple's element is a variable (it cannot be read as a term).
pub open spec fn match_elem(qx: VarOrTerm, tx: VarOrTerm, b: BindingView) -> Option<Option<BindingView>> {
    match tx {
        VarOrTerm::Var(_) => None,
        VarOrTerm::Term(t) => match qx {
            VarOrTerm::Var(v) => Some(Some(bind_add(b, v.name, t.iri))),
            VarOrTerm::Term(q) => if q.iri == t.iri {
                Some(Some(b))
            } else {
                Some(None)
            },
        },
    }
}

/// Matching pattern `q` against triple `t`, subject, predicate and object in
/// turn, stopping at the first mismatch: the binding of `q`'s variables, or
/// `Some(None)` on a mismatch.
pub open spec fn pattern_match(q: Triple, t: Triple) -> Option<Option<BindingView>> {
    match match_elem(q.s, t.s, seq![]) {
        None => None,
        Some(None) => Some(None),
        Some(Some(b1)) => match match_elem(q.p, t.p, b1) {
            None => None,
            Some(None) => Some(None),
            Some(Some(b2)) => match_elem(q.o, t.o, b2),
        },
    }
}

/// An element with row `rc` of the binding substituted for a bound
/// variable; an unbound variable stays. `None` when the row is missing.
pub open spec fn sub_elem(x: VarOrTerm, b: BindingView, rc: int) -> Option<VarOrTerm> {
    match x {
        VarOrTerm::Var(v) => match column(b, v.name) {
            Some(c) => if 0 <= rc < c.len() {
                Some(VarOrTerm::Term(TermImpl { iri: c[rc] }))
            } else {
                None
            },
            None => Some(x),
        },
        VarOrTerm::Term(_) => Some(x),
    }
}

/// A pattern with row `rc` of the binding substituted (without a graph).
pub open spec fn sub_row(h: Triple, b: BindingView, rc: int) -> Option<Triple> {
    match (sub_elem(h.s, b, rc), sub_elem(h.p, b, rc), sub_elem(h.o, b, rc)) {
        (Some(s), Some(p), Some(o)) => Some(Triple { s, p, o, g: None }),
        _ => None,
    }
}

/// The pattern with each of the first `n` rows substituted, in order.
pub open spec fn sub_rows(h: Triple, b: BindingView, n: nat) -> Option<Seq<Triple>>
    decreases n,
{
    if n == 0 {
        Some(seq![])
    } else {
        match (sub_rows(h, b, (n - 1) as nat), sub_row(h, b, n - 1)) {
            (Some(ts), Some(t)) => Some(ts.push(t)),
            _ => None,
        }
    }
}

/// The pattern with each row of the binding substituted.
pub open spec fn substitute_triple_spec(h: Triple, b: BindingView) -> Option<Seq<Triple>> {
    sub_rows(h, b, bind_len(b))
}

/// An element of a rule head with row `rc` of the binding substituted: a
/// variable must be bound and have that row.
pub open spec fn head_elem(x: VarOrTerm, b: BindingView, rc: int) -> Option<usize> {
    match x {
        VarOrTerm::Var(v) => match column(b, v.name) {
            Some(c) => if 0 <= rc < c.len() {
                Some(c[rc])
            } else {
                None
            },
            None => None,
        },
        VarOrTerm::Term(t) => Some(t.iri),
    }
}

/// The head with row `rc` substituted, as a triple of terms.
pub open spec fn head_row(h: Triple, b: BindingView, rc: int) -> Option<Triple> {
    match (head_elem(h.s, b, rc), head_elem(h.p, b, rc), head_elem(h.o, b, rc)) {
        (Some(s), Some(p), Some(o)) => Some(
            Triple {
                s: VarOrTerm::Term(TermImpl { iri: s }),
                p: VarOrTerm::Term(TermImpl { iri: p }),
                o: VarOrTerm::Term(TermImpl { iri: o }),
                g: None,
            },
        ),
        _ => None,
    }
}

/// The head with each of the first `n` rows substituted, in order.
pub open spec fn head_rows(h: Triple, b: BindingView, n: nat) -> Option<Seq<Triple>>
    decreases n,
{
    if n == 0 {
        Some(seq![])
    } else {
        match (head_rows(h, b, (n - 1) as nat), head_row(h, b, n - 1)) {
            (Some(ts), Some(t)) => Some(ts.push(t)),
            _ => None,
        }
    }
}

/// The triples that a head gives for a binding: the head itself when the
/// binding has no row, else one triple per row.
pub open spec fn substitute_head_spec(h: Triple, b: BindingView) -> Option<Seq<Triple>> {
    if bind_len(b) == 0 {
        Some(seq![h])
    } else {
        head_rows(h, b, bind_len(b))
    }
}

/// The patterns with the (single-row) binding substituted, in order.
pub open spec fn sub_body(body: Seq<Triple>, b: BindingView) -> Option<Seq<Triple>>
    decreases body.len(),
{
    if body.len() == 0 {
        Some(seq![])
    } else {
        match (sub_body(body.drop_last(), b), substitute_triple_spec(body.last(), b)) {
            (Some(ts), Some(r)) => if r.len() > 0 {
                Some(ts.push(r[0]))
            } else {
                None
            },
            _ => None,
        }
    }
}

/// The rule specialized by the (single-row) binding.
pub open spec fn sub_rule(r: RuleView, b: BindingView) -> Option<RuleView> {
    match (sub_body(r.body, b), substitute_triple_spec(r.head, b)) {
        (Some(body), Some(h)) => if h.len() > 0 {
            Some(RuleView { body, head: h[0] })
        } else {
            None
        },
        _ => None,
    }
}

/// Specializing rule `r` by triple `t`, from body pattern `i` on, with the
/// rules `acc` made so far: each body pattern that `t` matches gives the
/// rule with the match substituted; a match that binds nothing gives the
/// rule itself, alone; a match that binds more than one row fails.
pub open spec fn substitute_rule_from(t: Triple, r: RuleView, i: int, acc: Seq<RuleView>) -> Option<Seq<RuleView>>
    decreases r.body.len() - i,
{
    if i < 0 || i >= r.body.len() {
        Some(acc)
    } else {
        match pattern_match(r.body[i], t) {
            None => None,
            Some(None) => substitute_rule_from(t, r, i + 1, acc),
            Some(Some(b)) => if bind_len(b) > 1 {
                None
            } else if bind_len(b) == 0 {
                Some(seq![r])
            } else {
                match sub_rule(r, b) {
                    Some(nr) => substitute_rule_from(t, r, i + 1, acc.push(nr)),
                    None => None,
                }
            },
        }
    }
}

/// The rules that triple `t` specializes `r` into (see
/// `substitute_rule_from`).
pub open spec fn substitute_rule_spec(t: Triple, r: RuleView) -> Option<Seq<RuleView>> {
    substitute_rule_from(t, r, 0, seq![])
}

/// Answering the patterns `qs` in order against the index, counting entries
/// up to `check`, from the binding `acc`: each answer is joined in; a pattern
/// with no answer gives `None`. Fails (outer `None`) when a join would read a
/// column shorter than its binding.
pub open spec fn engine_from(v: TripleIndexView, qs: Seq<Triple>, check: usize, i: int, acc: BindingView) -> Option<Option<BindingView>>
    decreases qs.len() - i,
{
    if i < 0 || i >= qs.len() {
        Some(Some(acc))
    } else {
        match query_spec(v, qs[i], check) {
            None => Some(None),
            Some(c) => if bind_len(acc) > 0 && bind_len(c) > 0 && !(covers(acc) && covers(c)) {
                None
            } else {
                engine_from(v, qs, check, i + 1, join_spec(acc, c))
            },
        }
    }
}

/// The joined answers to the patterns `qs` (see `engine_from`).
pub open spec fn engine_spec(v: TripleIndexView, qs: Seq<Triple>, triple_counter: Option<usize>) -> Option<Option<BindingView>> {
    engine_from(v, qs, counter_bound(v, triple_counter), 0, seq![])
}

/// The rules that triple `t` specializes each rule of `rs` into, in order.
pub open spec fn specialize_all(t: Triple, rs: Seq<RuleView>) -> Option<Seq<RuleView>>
    decreases rs.len(),
{
    if rs.len() == 0 {
        Some(seq![])
    } else {
        match (specialize_all(t, rs.drop_last()), substitute_rule_spec(t, rs.last())) {
            (Some(a), Some(b)) => Some(a + b),
            _ => None,
        }
    }
}

/// The heads that the rules `rs` give against the index (see
/// `engine_spec` and `substitute_head_spec`), in order.
pub open spec fn heads_all(v: TripleIndexView, rs: Seq<RuleView>, tc: Option<usize>) -> Option<Seq<Triple>>
    decreases rs.len(),
{
    if rs.len() == 0 {
        Some(seq![])
    } else {
        match (heads_all(v, rs.drop_last(), tc), engine_spec(v, rs.last().body, tc)) {
            (Some(a), Some(None)) => Some(a),
            (Some(a), Some(Some(b))) => match substitute_head_spec(rs.last().head, b) {
                Some(h) => Some(a + h),
                None => None,
            },
            _ => None,
        }
    }
}

/// Adding the triples `ts` in order, each unless the index already holds it:
/// the index afterwards and the triples added. Fails when a triple to add
/// has a variable graph or the counter is at its largest value.
pub open spec fn add_new(v: TripleIndexView, ts: Seq<Triple>) -> Option<(TripleIndexView, Seq<Triple>)>
    decreases ts.len(),
{
    if ts.len() == 0 {
        Some((v, seq![]))
    } else {
        match add_new(v, ts.drop_last()) {
            None => None,
            Some((v1, inf)) => {
                let t = ts.last();
                if contains_spec(v1, t) {
                    Some((v1, inf))
                } else if storable(t) && v1.counter < usize::MAX {
                    Some((add_spec(v1, t), inf.push(t)))
                } else {
                    None
                }
            },
        }
    }
}

/// One step of materialization, for the triple at position `counter`: the
/// rules it can trigger are specialized by it, their bodies are answered
/// against the triples up to and including it, and the heads they give are
/// added when new.
pub open spec fn mat_step(v: TripleIndexView, ri: RuleIndexView, counter: int) -> Option<(TripleIndexView, Seq<Triple>)> {
    let t = v.triples[counter];
    match specialize_all(t, rules_at(ri.rules, match_spec(ri, t))) {
        None => None,
        Some(rs) => match heads_all(v, rs, Some((counter + 1) as usize)) {
            None => None,
            Some(hs) => add_new(v, hs),
        },
    }
}

/// Materialization from position `counter` on, with the triples `inferred`
/// so far, within `fuel` steps: the index at the end (when every triple,
/// the added ones included, has been processed) and all triples added.
pub open spec fn mat_run(v: TripleIndexView, ri: RuleIndexView, counter: nat, inferred: Seq<Triple>, fuel: nat) -> Option<(TripleIndexView, Seq<Triple>)>
    decreases fuel,
{
    if counter >= v.triples.len() {
        Some((v, inferred))
    } else if fuel == 0 {
        None
    } else {
        match mat_step(v, ri, counter as int) {
            None => None,
            Some((v2, new)) => mat_run(v2, ri, counter + 1, inferred + new, (fuel - 1) as nat),
        }
    }
}

/// Materialization of index `v` with the rules `ri` ends, and no step of it
/// fails.
pub open spec fn materializes(v: TripleIndexView, ri: RuleIndexView) -> bool {
    exists|f: nat| (#[trigger] mat_run(v, ri, 0, seq![], f)) is Some
}

/// A number of steps within which materialization ends.
pub open spec fn mat_fuel(v: TripleIndexView, ri: RuleIndexView) -> nat {
    choose|f: nat| (#[trigger] mat_run(v, ri, 0, seq![], f)) is Some
}

/// The index after materialization, and the triples it added.
pub open spec fn mat_result(v: TripleIndexView, ri: RuleIndexView) -> (TripleIndexView, Seq<Triple>) {
    mat_run(v, ri, 0, seq![], mat_fuel(v, ri)).unwrap()
}

pub(crate) proof fn lemma_specialize_prefix(t: Triple, rs: Seq<RuleView>)
    requires
        specialize_all(t, rs) is Some,
    ensures
        forall|k: int| 0 <= k <= rs.len() ==> (#[trigger] specialize_all(t, rs.take(k))) is Some,
    decreases rs.len(),
{
    if rs.len() > 0 {
        lemma_specialize_prefix(t, rs.drop_last());
        assert forall|k: int| 0 <= k <= rs.len() implies (#[trigger] specialize_all(t, rs.take(k))) is Some by {
            if k < rs.len() {
                assert(rs.take(k) =~= rs.drop_last().take(k));
            } else {
                assert(rs.take(k) =~= rs);
            }
        }
    }
}

pub(crate) proof fn lemma_heads_prefix(v: TripleIndexView, rs: Seq<RuleView>, tc: Option<usize>)
    requires
        heads_all(v, rs, tc) is Some,
    ensures
        forall|k: int| 0 <= k <= rs.len() ==> (#[trigger] heads_all(v, rs.take(k), tc)) is Some,
    decreases rs.len(),
{
    if rs.len() > 0 {
        lemma_heads_prefix(v, rs.drop_last(), tc);
        assert forall|k: int| 0 <= k <= rs.len() implies (#[trigger] heads_all(v, rs.take(k), tc)) is Some by {
            if k < rs.len() {
                assert(rs.take(k) =~= rs.drop_last().take(k));
            } else {
                assert(rs.take(k) =~= rs);
            }
        }
    }
}

proof fn lemma_add_new_prefix(v: TripleIndexView, ts: Seq<Triple>)
    requires
        add_new(v, ts) is Some,
    ensures
        forall|k: int| 0 <= k <= ts.len() ==> (#[trigger] add_new(v, ts.take(k))) is Some,
    decreases ts.len(),
{
    if ts.len() > 0 {
        lemma_add_new_prefix(v, ts.drop_last());
        assert forall|k: int| 0 <= k <= ts.len() implies (#[trigger] add_new(v, ts.take(k))) is Some by {
            if k < ts.len() {
                assert(ts.take(k) =~= ts.drop_last().take(k));
            } else {
                assert(ts.take(k) =~= ts);
            }
        }
    }
}

proof fn lemma_sub_rows_prefix(h: Triple, b: BindingView, n: nat)
    requires
        sub_rows(h, b, n) is Some,
    ensures
        forall|m: nat| m <= n ==> (#[trigger] sub_rows(h, b, m)) is Some,
        forall|m: int| 0 <= m < n ==> (#[trigger] sub_row(h, b, m)) is Some,
    decreases n,
{
    if n > 0 {
        lemma_sub_rows_prefix(h, b, (n - 1) as nat);
    }
}

proof fn lemma_head_rows_prefix(h: Triple, b: BindingView, n: nat)
    requires
        head_rows(h, b, n) is Some,
    ensures
        forall|m: nat| m <= n ==> (#[trigger] head_rows(h, b, m)) is Some,
        forall|m: int| 0 <= m < n ==> (#[trigger] head_row(h, b, m)) is Some,
    decreases n,
{
    if n > 0 {
        lemma_head_rows_prefix(h, b, (n - 1) as nat);
    }
}

proof fn lemma_sub_body_prefix(body: Seq<Triple>, b: BindingView)
    requires
        sub_body(body, b) is Some,
    ensures
        forall|j: int| 0 <= j <= body.len() ==> (#[trigger] sub_body(body.take(j), b)) is Some,
        forall|j: int|
            0 <= j < body.len() ==> (#[trigger] substitute_triple_spec(body[j], b)) is Some && substitute_triple_spec(
                body[j],
                b,
            ).unwrap().len() > 0,
    decreases body.len(),
{
    if body.len() > 0 {
        let d = body.drop_last();
        lemma_sub_body_prefix(d, b);
        assert forall|j: int| 0 <= j <= body.len() implies (#[trigger] sub_body(body.take(j), b)) is Some by {
            if j < body.len() {
                assert(body.take(j) =~= d.take(j));
            } else {
                assert(body.take(j) =~= body);
            }
        }
        assert forall|j: int| 0 <= j < body.len() implies (#[trigger] substitute_triple_spec(body[j], b)) is Some
            && substitute_triple_spec(body[j], b).unwrap().len() > 0 by {
            if j < d.len() {
                assert(body[j] == d[j]);
            }
        }
    }
}

/// Matches pattern `query_triple` against triple `match_triple` (see
/// `pattern_match`).
pub fn query(query_triple: &Triple, match_triple: &Triple) -> (res: Option<Binding>)
    requires
        pattern_match(*query_triple, *match_triple) is Some,
    ensures
        opt_binding(res) == pattern_match(*query_triple, *match_triple).unwrap(),
        res matches Some(b) ==> b.wf(),
{
    let mut bindings = Binding::new();
    match match_triple.s {
        VarOrTerm::Var(_) => {
            return None;
        },
        VarOrTerm::Term(t) => match query_triple.s {
            VarOrTerm::Var(v) => bindings.add(&v.name, t.iri),
            VarOrTerm::Term(q) => if q.iri != t.iri {
                return None;
            },
        },
    }
    match match_triple.p {
        VarOrTerm::Var(_) => {
            return None;
        },
        VarOrTerm::Term(t) => match query_triple.p {
            VarOrTerm::Var(v) => bindings.add(&v.name, t.iri),
            VarOrTerm::Term(q) => if q.iri != t.iri {
                return None;
            },
        },
    }
    match match_triple.o {
        VarOrTerm::Var(_) => {
            return None;
        },
        VarOrTerm::Term(t) => match query_triple.o {
            VarOrTerm::Var(v) => bindings.add(&v.name, t.iri),
            VarOrTerm::Term(q) => if q.iri != t.iri {
                return None;
            },
        },
    }
    Some(bindings)
}

/// Forward-chaining materialization over a triple index and a rule index.
pub struct Reasoner;

impl Reasoner {
    /// The element of a variable with row `binding_counter` of the binding
    /// substituted, the variable itself when unbound (see `sub_elem`).
    fn subsitute_binding(var_name: &usize, binding: &Binding, binding_counter: &usize) -> (res: VarOrTerm)
        requires
            sub_elem(VarOrTerm::Var(Variable { name: *var_name }), binding@, *binding_counter as int) is Some,
        ensures
            res == sub_elem(VarOrTerm::Var(Variable { name: *var_name }), binding@, *binding_counter as int).unwrap(),
    {
        match binding.get(var_name) {
            Some(s) => {
                let iri = s[*binding_counter];
                VarOrTerm::new_encoded_term(iri)
            },
            None => VarOrTerm::new_encoded_var(*var_name),
        }
    }

    pub(crate) fn sub_elem_exec(x: &VarOrTerm, binding: &Binding, rc: usize) -> (res: VarOrTerm)
        requires
            sub_elem(*x, binding@, rc as int) is Some,
        ensures
            res == sub_elem(*x, binding@, rc as int).unwrap(),
    {
        match x {
            VarOrTerm::Var(v) => Self::subsitute_binding(&v.name, binding, &rc),
            VarOrTerm::Term(t) => VarOrTerm::new_encoded_term(t.iri),
        }
    }

    /// The pattern with each row of the binding substituted (see
    /// `substitute_triple_spec`).
    pub fn substitute_triple_with_bindings(head: &Triple, binding: &Binding) -> (res: Vec<Triple>)
        requires
            substitute_triple_spec(*head, binding@) is Some,
        ensures
            res@ == substitute_triple_spec(*head, binding@).unwrap(),
    {
        let n = binding.len();
        proof {
            lemma_sub_rows_prefix(*head, binding@, n as nat);
        }
        let mut new_heads: Vec<Triple> = Vec::new();
        let mut rc: usize = 0;
        while rc < n
            invariant
                n == bind_len(binding@),
                rc <= n,
                forall|m: int| 0 <= m < n ==> (#[trigger] sub_row(*head, binding@, m)) is Some,
                sub_rows(*head, binding@, rc as nat) == Some(new_heads@),
            decreases n - rc,
        {
            assert(sub_row(*head, binding@, rc as int) is Some);
            let s = Self::sub_elem_exec(&head.s, binding, rc);
            let p = Self::sub_elem_exec(&head.p, binding, rc);
            let o = Self::sub_elem_exec(&head.o, binding, rc);
            new_heads.push(Triple { s, p, o, g: None });
            rc = rc + 1;
        }
        new_heads
    }

    fn head_elem_exec(x: &VarOrTerm, binding: &Binding, rc: usize) -> (res: usize)
        requires
            head_elem(*x, binding@, rc as int) is Some,
        ensures
            res == head_elem(*x, binding@, rc as int).unwrap(),
    {
        match x {
            VarOrTerm::Var(v) => {
                let col = binding.get(&v.name).unwrap();
                col[rc]
            },
            VarOrTerm::Term(t) => t.iri,
        }
    }

    /// The triples that a head gives for a binding (see
    /// `substitute_head_spec`).
    pub fn substitute_head_with_bindings(head: &Triple, binding: &Binding) -> (res: Vec<Triple>)
        requires
            substitute_head_spec(*head, binding@) is Some,
        ensures
            res@ == substitute_head_spec(*head, binding@).unwrap(),
    {
        let n = binding.len();
        if n == 0 {
            let mut v: Vec<Triple> = Vec::new();
            v.push(*head);
            assert(v@ =~= seq![*head]);
            return v;
        }
        proof {
            lemma_head_rows_prefix(*head, binding@, n as nat);
        }
        let mut new_heads: Vec<Triple> = Vec::new();
        let mut rc: usize = 0;
        while rc < n
            invariant
                n == bind_len(binding@),
                rc <= n,
                forall|m: int| 0 <= m < n ==> (#[trigger] head_row(*head, binding@, m)) is Some,
                head_rows(*head, binding@, rc as nat) == Some(new_heads@),
            decreases n - rc,
        {
            assert(head_row(*head, binding@, rc as int) is Some);
            let s = Self::head_elem_exec(&head.s, binding, rc);
            let p = Self::head_elem_exec(&head.p, binding, rc);
            let o = Self::head_elem_exec(&head.o, binding, rc);
            new_heads.push(
                Triple {
                    s: VarOrTerm::Term(TermImpl { iri: s }),
                    p: VarOrTerm::Term(TermImpl { iri: p }),
                    o: VarOrTerm::Term(TermImpl { iri: o }),
                    g: None,
                },
            );
            rc = rc + 1;
        }
        new_heads
    }

    /// The rules that `matching_triple` specializes `matching_rule` into
    /// (see `substitute_rule_spec`).
    pub fn substitute_rule(matching_triple: &Triple, matching_rule: &Rule) -> (res: Vec<Rule>)
        requires
            substitute_rule_spec(*matching_triple, matching_rule@) is Some,
        ensures
            crate::parser::rule_views(res@) == substitute_rule_spec(*matching_triple, matching_rule@).unwrap(),
    {
        let ghost r = matching_rule@;
        let ghost t = *matching_triple;
        let mut results: Vec<Rule> = Vec::new();
        let mut i: usize = 0;
        assert(crate::parser::rule_views(results@) =~= Seq::<RuleView>::empty());
        while i < matching_rule.body.len()
            invariant
                r == matching_rule@,
                t == *matching_triple,
                i <= r.body.len(),
                substitute_rule_spec(t, r) == substitute_rule_from(t, r, i as int, crate::parser::rule_views(results@)),
                substitute_rule_spec(t, r) is Some,
            decreases r.body.len() - i,
        {
            let ghost acc = crate::parser::rule_views(results@);
            match query(&matching_rule.body[i], matching_triple) {
                None => {},
                Some(bindings) => {
                    if bindings.len() == 0 {
                        let mut one: Vec<Rule> = Vec::new();
                        one.push(matching_rule.clone());
                        assert(crate::parser::rule_views(one@) =~= seq![r]);
                        return one;
                    }
                    let ghost b = bindings@;
                    proof {
                        lemma_sub_body_prefix(r.body, b);
                    }
                    let mut new_body: Vec<Triple> = Vec::new();
                    let mut j: usize = 0;
                    assert(r.body.take(0) =~= Seq::<Triple>::empty());
                    while j < matching_rule.body.len()
                        invariant
                            r == matching_rule@,
                            j <= r.body.len(),
                            b == bindings@,
                            sub_body(r.body, b) is Some,
                            forall|k: int|
                                0 <= k < r.body.len() ==> (#[trigger] substitute_triple_spec(r.body[k], b)) is Some
                                    && substitute_triple_spec(r.body[k], b).unwrap().len() > 0,
                            sub_body(r.body.take(j as int), b) == Some(new_body@),
                        decreases r.body.len() - j,
                    {
                        assert(substitute_triple_spec(r.body[j as int], b) is Some);
                        let subs = Self::substitute_triple_with_bindings(&matching_rule.body[j], &bindings);
                        new_body.push(subs[0]);
                        proof {
                            assert(r.body.take(j + 1).drop_last() =~= r.body.take(j as int));
                            assert(r.body.take(j + 1).last() == r.body[j as int]);
                        }
                        j = j + 1;
                    }
                    assert(r.body.take(r.body.len() as int) =~= r.body);
                    let heads = Self::substitute_triple_with_bindings(&matching_rule.head, &bindings);
                    let new_rule = Rule { body: new_body, head: heads[0] };
                    results.push(new_rule);
                    assert(crate::parser::rule_views(results@) =~= acc.push(new_rule@));
                },
            }
            i = i + 1;
        }
        results
    }
}

/// Answers a conjunction of triple patterns.
pub trait QueryEngine {
    /// The joined answers to `query_triples` against `data`, counting the
    /// entries added up to `triple_counter` (see `engine_spec`); `None` when a
    /// pattern has no answer.
    fn query(data: &TripleIndex, query_triples: &Vec<Triple>, triple_counter: Option<usize>) -> (res: Option<Binding>)
        requires
            engine_spec(data@, query_triples@, triple_counter) is Some,
        ensures
            opt_binding(res) == engine_spec(data@, query_triples@, triple_counter).unwrap(),
            res matches Some(b) ==> b.wf(),
    ;
}

/// Answers the patterns one after the other and joins the answers.
pub struct SimpleQueryEngine;

impl QueryEngine for SimpleQueryEngine {
    fn query(data: &TripleIndex, query_triples: &Vec<Triple>, triple_counter: Option<usize>) -> (res: Option<Binding>) {
        let ghost v = data@;
        let ghost qs = query_triples@;
        let ghost check = counter_bound(v, triple_counter);
        let mut bindings = Binding::new();
        let mut i: usize = 0;
        while i < query_triples.len()
            invariant
                v == data@,
                qs == query_triples@,
                check == counter_bound(v, triple_counter),
                i <= qs.len(),
                bindings.wf(),
                engine_spec(v, qs, triple_counter) == engine_from(v, qs, check, i as int, bindings@),
                engine_spec(v, qs, triple_counter) is Some,
            decreases qs.len() - i,
        {
            match data.query(&query_triples[i], triple_counter) {
                Some(current_bindings) => {
                    bindings = bindings.join(&current_bindings);
                },
                None => {
                    return None;
                },
            }
            i = i + 1;
        }
        Some(bindings)
    }
}

impl Reasoner {
    /// Materializes the index with the rules (see `mat_result`): every triple,
    /// in order and including the triples added on the way, is processed (see
    /// `mat_step`). Returns the triples added, in order.
    pub fn materialize(&mut self, triple_index: &mut TripleIndex, rules_index: &RuleIndex) -> (res: Vec<Triple>)
        requires
            rules_index.wf(),
            materializes(old(triple_index)@, rules_index@),
        ensures
            (final(triple_index)@, res@) == mat_result(old(triple_index)@, rules_index@),
    {
        let ghost v0 = triple_index@;
        let ghost ri = rules_index@;
        let ghost fuel0 = mat_fuel(v0, ri);
        let ghost mut fuel: nat = fuel0;
        let mut inferred: Vec<Triple> = Vec::new();
        let mut counter: usize = 0;
        while counter < triple_index.len()
            invariant
                rules_index.wf(),
                ri == rules_index@,
                mat_run(v0, ri, 0, seq![], fuel0) is Some,
                mat_run(v0, ri, 0, seq![], fuel0) == mat_run(triple_index@, ri, counter as nat, inferred@, fuel),
            decreases fuel,
        {
            let ghost v = triple_index@;
            let process_quad = *triple_index.get(counter).unwrap();
            let ghost step = mat_step(v, ri, counter as int);
            assert(step is Some);
            let matching_rules = rules_index.find_match(&process_quad);
            let ghost rs = rules_at(ri.rules, match_spec(ri, process_quad));
            proof {
                lemma_specialize_prefix(process_quad, rs);
            }
            let mut specialized: Vec<Rule> = Vec::new();
            let mut k: usize = 0;
            assert(rs.take(0) =~= Seq::<RuleView>::empty());
            while k < matching_rules.len()
                invariant
                    k <= matching_rules@.len(),
                    ref_views(matching_rules@) == rs,
                    specialize_all(process_quad, rs) is Some,
                    forall|m: int| 0 <= m <= rs.len() ==> (#[trigger] specialize_all(process_quad, rs.take(m))) is Some,
                    specialize_all(process_quad, rs.take(k as int)) == Some(crate::parser::rule_views(specialized@)),
                decreases matching_rules@.len() - k,
            {
                proof {
                    assert(rs.take(k + 1).drop_last() =~= rs.take(k as int));
                    assert(rs.take(k + 1).last() == rs[k as int]);
                    assert(specialize_all(process_quad, rs.take(k + 1)) is Some);
                }
                let ghost before = crate::parser::rule_views(specialized@);
                let mut subs = Self::substitute_rule(&process_quad, matching_rules[k]);
                let ghost sv = crate::parser::rule_views(subs@);
                specialized.append(&mut subs);
                assert(crate::parser::rule_views(specialized@) =~= before + sv);
                k = k + 1;
            }
            assert(rs.take(rs.len() as int) =~= rs);
            let ghost srs = crate::parser::rule_views(specialized@);
            let tc: Option<usize> = Some(counter + 1);
            proof {
                lemma_heads_prefix(v, srs, tc);
            }
            let mut new_triples: Vec<Triple> = Vec::new();
            let mut j: usize = 0;
            assert(srs.take(0) =~= Seq::<RuleView>::empty());
            while j < specialized.len()
                invariant
                    j <= specialized@.len(),
                    srs == crate::parser::rule_views(specialized@),
                    v == triple_index@,
                    tc == Some((counter + 1) as usize),
                    forall|m: int| 0 <= m <= srs.len() ==> (#[trigger] heads_all(v, srs.take(m), tc)) is Some,
                    heads_all(v, srs.take(j as int), tc) == Some(new_triples@),
                decreases specialized@.len() - j,
            {
                proof {
                    assert(srs.take(j + 1).drop_last() =~= srs.take(j as int));
                    assert(srs.take(j + 1).last() == specialized@[j as int]@);
                    assert(heads_all(v, srs.take(j + 1), tc) is Some);
                }
                let rule = &specialized[j];
                match SimpleQueryEngine::query(triple_index, &rule.body, tc) {
                    Some(temp_bindings) => {
                        let mut heads = Self::substitute_head_with_bindings(&rule.head, &temp_bindings);
                        let ghost before = new_triples@;
                        let ghost hv = heads@;
                        new_triples.append(&mut heads);
                        assert(new_triples@ =~= before + hv);
                    },
                    None => {},
                }
                j = j + 1;
            }
            assert(srs.take(srs.len() as int) =~= srs);
            let ghost hs = new_triples@;
            proof {
                lemma_add_new_prefix(v, hs);
            }
            let ghost inf0 = inferred@;
            let mut m: usize = 0;
            assert(hs.take(0) =~= Seq::<Triple>::empty());
            assert(inferred@ =~= inf0 + Seq::<Triple>::empty());
            while m < new_triples.len()
                invariant
                    m <= new_triples@.len(),
                    hs == new_triples@,
                    forall|q: int| 0 <= q <= hs.len() ==> (#[trigger] add_new(v, hs.take(q))) is Some,
                    add_new(v, hs.take(m as int)) == Some((triple_index@, inferred@.skip(inf0.len() as int))),
                    inferred@.len() >= inf0.len(),
                    inferred@.take(inf0.len() as int) == inf0,
                decreases new_triples@.len() - m,
            {
                proof {
                    assert(hs.take(m + 1).drop_last() =~= hs.take(m as int));
                    assert(hs.take(m + 1).last() == hs[m as int]);
                    assert(add_new(v, hs.take(m + 1)) is Some);
                }
                let triple = new_triples[m];
                if !triple_index.contains(&triple) {
                    let ghost before = inferred@;
                    inferred.push(triple);
                    triple_index.add(triple);
                    proof {
                        assert(inferred@.skip(inf0.len() as int) =~= before.skip(inf0.len() as int).push(triple));
                        assert(inferred@.take(inf0.len() as int) =~= before.take(inf0.len() as int));
                    }
                }
                m = m + 1;
            }
            assert(hs.take(hs.len() as int) =~= hs);
            proof {
                assert(inferred@ =~= inf0 + inferred@.skip(inf0.len() as int));
                fuel = (fuel - 1) as nat;
            }
            counter = counter + 1;
        }
        inferred
    }
}

/// The body patterns with row `rc` of the binding substituted, each as a
/// triple of terms (see `head_row`).
pub open spec fn body_row(body: Seq<Triple>, b: BindingView, rc: int) -> Seq<Triple> {
    Seq::new(body.len(), |j: int| head_row(body[j], b, rc).unwrap())
}

/// Every pattern of the body can be substituted with every row of the
/// binding.
pub open spec fn reconstructible(body: Seq<Triple>, b: BindingView) -> bool {
    forall|rc: int, j: int| 0 <= rc < bind_len(b) && 0 <= j < body.len() ==> (#[trigger] head_row(body[j], b, rc)) is Some
}

/// The body triples that each row of the binding stands for: one sequence
/// per row, in order (none when the binding has no row).
pub open spec fn reconstruct_spec(body: Seq<Triple>, b: BindingView) -> Seq<Seq<Triple>> {
    Seq::new(bind_len(b), |rc: int| body_row(body, b, rc))
}

/// The stamp and the triple of the earliest-stamped body triple that the
/// window holds (the first on ties), if the window holds any.
pub open spec fn earliest(wc: Seq<(i32, Triple)>, body: Seq<Triple>) -> Option<(i32, Triple)>
    decreases body.len(),
{
    if body.len() == 0 {
        None
    } else {
        let rest = earliest(wc, body.drop_last());
        let t = body.last();
        let p = item_pos(wc, t);
        if p < 0 {
            rest
        } else {
            match rest {
                Some(r) => if r.0 <= wc[p].0 {
                    rest
                } else {
                    Some((wc[p].0, t))
                },
                None => Some((wc[p].0, t)),
            }
        }
    }
}

/// What a rule infers with its stamps: for each row of the answers to its
/// body (against the whole index), the head with that row, stamped with the
/// earliest stamp among the row's body triples in the window, and that body
/// triple. Nothing when the body has no answer; `None` when a step fails (a
/// body without variables, a row none of whose triples is in the window).
pub open spec fn rule_news(v: TripleIndexView, wc: Seq<(i32, Triple)>, r: RuleView) -> Option<Seq<(i32, Triple, Triple)>> {
    match engine_spec(v, r.body, None) {
        None => None,
        Some(None) => Some(seq![]),
        Some(Some(b)) => {
            let n = bind_len(b);
            if n > 0 && substitute_head_spec(r.head, b) is Some && reconstructible(r.body, b) && forall|i: int|
                0 <= i < n ==> (#[trigger] earliest(wc, body_row(r.body, b, i))) is Some {
                let hs = substitute_head_spec(r.head, b).unwrap();
                Some(
                    Seq::new(
                        n,
                        |i: int| (earliest(wc, body_row(r.body, b, i)).unwrap().0, hs[i], earliest(wc, body_row(r.body, b, i)).unwrap().1),
                    ),
                )
            } else {
                None
            }
        },
    }
}

/// What the rules `rs` infer, in order (see `rule_news`).
pub open spec fn news_all(v: TripleIndexView, wc: Seq<(i32, Triple)>, rs: Seq<RuleView>) -> Option<Seq<(i32, Triple, Triple)>>
    decreases rs.len(),
{
    if rs.len() == 0 {
        Some(seq![])
    } else {
        match (news_all(v, wc, rs.drop_last()), rule_news(v, wc, rs.last())) {
            (Some(a), Some(b)) => Some(a + b),
            _ => None,
        }
    }
}

/// The state of a windowed materialization: the index, the window's
/// content, the stamped triples to process, the stamped triples inferred.
pub type CsState = (TripleIndexView, Seq<(i32, Triple)>, Seq<(i32, Triple)>, Seq<(i32, Triple)>);

/// Taking in the inferences `news` in order: a triple the index does not
/// hold is added to it, placed in the window right after the body triple it
/// was stamped from, and queued and counted as inferred. Fails when a triple
/// to add has a variable graph or the counter is at its largest value.
pub open spec fn add_news(st: CsState, news: Seq<(i32, Triple, Triple)>) -> Option<CsState>
    decreases news.len(),
{
    if news.len() == 0 {
        Some(st)
    } else {
        match add_news(st, news.drop_last()) {
            None => None,
            Some(s1) => {
                let (ts, nt, mt) = news.last();
                let (v1, wc1, p1, i1) = s1;
                if contains_spec(v1, nt) {
                    Some(s1)
                } else if storable(nt) && v1.counter < usize::MAX {
                    Some((add_spec(v1, nt), place_after(wc1, nt, mt, ts), p1.push((ts, nt)), i1.push((ts, nt))))
                } else {
                    None
                }
            },
        }
    }
}

/// One step of windowed materialization, for the queued triple at
/// `counter`: the rules it can trigger infer (see `news_all`) and the
/// inferences are taken in (see `add_news`).
pub open spec fn cs_step(st: CsState, ri: RuleIndexView, counter: int) -> Option<CsState> {
    let t = st.2[counter].1;
    match news_all(st.0, st.1, rules_at(ri.rules, match_spec(ri, t))) {
        None => None,
        Some(ns) => add_news(st, ns),
    }
}

/// Windowed materialization from the queued triple at `counter` on, within
/// `fuel` steps.
pub open spec fn cs_run(st: CsState, ri: RuleIndexView, counter: nat, fuel: nat) -> Option<CsState>
    decreases fuel,
{
    if counter >= st.2.len() {
        Some(st)
    } else if fuel == 0 {
        None
    } else {
        match cs_step(st, ri, counter as int) {
            None => None,
            Some(st2) => cs_run(st2, ri, counter + 1, (fuel - 1) as nat),
        }
    }
}

/// The windowed materialization of the new triples ends, and no step of it
/// fails.
pub open spec fn cs_total(v: TripleIndexView, wc: Seq<(i32, Triple)>, ri: RuleIndexView, new_data: Seq<(i32, Triple)>) -> bool {
    exists|f: nat| (#[trigger] cs_run((v, wc, new_data, seq![]), ri, 0, f)) is Some
}

/// The state at the end of the windowed materialization.
pub open spec fn cs_result(v: TripleIndexView, wc: Seq<(i32, Triple)>, ri: RuleIndexView, new_data: Seq<(i32, Triple)>) -> CsState {
    let f = choose|f: nat| (#[trigger] cs_run((v, wc, new_data, seq![]), ri, 0, f)) is Some;
    cs_run((v, wc, new_data, seq![]), ri, 0, f).unwrap()
}

proof fn lemma_news_prefix(v: TripleIndexView, wc: Seq<(i32, Triple)>, rs: Seq<RuleView>)
    requires
        news_all(v, wc, rs) is Some,
    ensures
        forall|k: int| 0 <= k <= rs.len() ==> (#[trigger] news_all(v, wc, rs.take(k))) is Some,
    decreases rs.len(),
{
    if rs.len() > 0 {
        lemma_news_prefix(v, wc, rs.drop_last());
        assert forall|k: int| 0 <= k <= rs.len() implies (#[trigger] news_all(v, wc, rs.take(k))) is Some by {
            if k < rs.len() {
                assert(rs.take(k) =~= rs.drop_last().take(k));
            } else {
                assert(rs.take(k) =~= rs);
            }
        }
    } else {
        assert(rs.take(0) =~= rs);
    }
}

proof fn lemma_add_news_prefix(st: CsState, news: Seq<(i32, Triple, Triple)>)
    requires
        add_news(st, news) is Some,
    ensures
        forall|k: int| 0 <= k <= news.len() ==> (#[trigger] add_news(st, news.take(k))) is Some,
    decreases news.len(),
{
    if news.len() > 0 {
        lemma_add_news_prefix(st, news.drop_last());
        assert forall|k: int| 0 <= k <= news.len() implies (#[trigger] add_news(st, news.take(k))) is Some by {
            if k < news.len() {
                assert(news.take(k) =~= news.drop_last().take(k));
            } else {
                assert(news.take(k) =~= news);
            }
        }
    } else {
        assert(news.take(0) =~= news);
    }
}

proof fn lemma_head_rows_len(h: Triple, b: BindingView, n: nat)
    requires
        head_rows(h, b, n) is Some,
    ensures
        head_rows(h, b, n).unwrap().len() == n,
    decreases n,
{
    if n > 0 {
        lemma_head_rows_len(h, b, (n - 1) as nat);
    }
}

/// Forward chaining that also rebuilds, for every inference, the triples it
/// rests on.
pub struct CSpriteReasoner;

impl CSpriteReasoner {
    /// The triple written as its three strings separated by spaces, then
    /// `.` and a line break.
    pub fn decode_triple(triple: &Triple, encoder: &Encoder) -> (res: String)
        requires
            decodable(encoder@, *triple),
        ensures
            res@ == triple_string(encoder@, *triple) + seq!['.', '\n'],
    {
        let mut out: Vec<char> = Vec::new();
        push_triple(&mut out, encoder, triple);
        out.push('.');
        out.push('\n');
        assert(out@ =~= triple_string(encoder@, *triple) + seq!['.', '\n']);
        string_of(&out)
    }

    /// The earliest-stamped triple of `body` in the window (see `earliest`).
    fn earliest_exec(window: &ImarsWindow<Triple>, body: &Vec<Triple>) -> (res: Option<(i32, Triple)>)
        ensures
            res == earliest(window@.content, body@),
    {
        proof {
            lemma_triple_eq();
        }
        let ghost wc = window@.content;
        let mut best: Option<(i32, Triple)> = None;
        let mut k: usize = 0;
        assert(body@.take(0) =~= Seq::<Triple>::empty());
        while k < body.len()
            invariant
                k <= body@.len(),
                wc == window@.content,
                vstd::laws_eq::obeys_concrete_eq::<Triple>(),
                best == earliest(wc, body@.take(k as int)),
            decreases body@.len() - k,
        {
            let t = body[k];
            proof {
                assert(body@.take(k + 1).drop_last() =~= body@.take(k as int));
                assert(body@.take(k + 1).last() == t);
            }
            match window.get_time_stamp(Rc::new(t)) {
                Some(ts) => {
                    best = match best {
                        Some(b) => if b.0 <= ts {
                            Some(b)
                        } else {
                            Some((ts, t))
                        },
                        None => Some((ts, t)),
                    };
                },
                None => {},
            }
            k = k + 1;
        }
        assert(body@.take(body@.len() as int) =~= body@);
        best
    }

    /// What a rule infers with its stamps (see `rule_news`).
    fn rule_news_exec(triple_index: &TripleIndex, window: &ImarsWindow<Triple>, rule: &Rule) -> (res: Vec<(i32, Triple, Triple)>)
        requires
            rule_news(triple_index@, window@.content, rule@) is Some,
        ensures
            res@ == rule_news(triple_index@, window@.content, rule@).unwrap(),
    {
        let ghost v = triple_index@;
        let ghost wc = window@.content;
        let mut out: Vec<(i32, Triple, Triple)> = Vec::new();
        match SimpleQueryEngine::query(triple_index, &rule.body, None) {
            Some(temp_bindings) => {
                let mut temp_bindings = temp_bindings;
                let ghost b = temp_bindings@;
                let new_heads = Reasoner::substitute_head_with_bindings(&rule.head, &temp_bindings);
                let reconstructed = Self::reconstruct_triples_from_bindings(&mut temp_bindings, rule);
                let ghost hs = substitute_head_spec(rule.head, b).unwrap();
                proof {
                    lemma_head_rows_len(rule.head, b, bind_len(b));
                }
                let n = reconstructed.len();
                let mut i: usize = 0;
                while i < n
                    invariant
                        n == bind_len(b),
                        n == reconstructed@.len(),
                        new_heads@ == hs,
                        hs.len() == n,
                        i <= n,
                        wc == window@.content,
                        forall|r: int| 0 <= r < n ==> (#[trigger] reconstructed@[r])@ == reconstruct_spec(rule.body@, b)[r],
                        forall|r: int| 0 <= r < n ==> (#[trigger] earliest(wc, body_row(rule.body@, b, r))) is Some,
                        out@ =~= Seq::new(
                            i as nat,
                            |r: int| (earliest(wc, body_row(rule.body@, b, r)).unwrap().0, hs[r], earliest(wc, body_row(rule.body@, b, r)).unwrap().1),
                        ),
                    decreases n - i,
                {
                    assert(reconstructed@[i as int]@ == body_row(rule.body@, b, i as int));
                    assert(earliest(wc, body_row(rule.body@, b, i as int)) is Some);
                    let e = Self::earliest_exec(window, &reconstructed[i]);
                    let (min_ts, min_triple) = e.unwrap();
                    out.push((min_ts, new_heads[i], min_triple));
                    i = i + 1;
                }
            },
            None => {},
        }
        out
    }

    /// Materializes newly arrived stamped triples against the index and the
    /// window (see `cs_result`): each queued triple, the new ones first and
    /// then those inferred on the way, triggers the rules it can trigger;
    /// each inference not yet held is added to the index, placed in the
    /// window right after the earliest-stamped body triple it rests on, with
    /// that stamp, and queued. Returns the stamped inferences, in order.
    pub fn materialize(
        &mut self,
        new_data: &Vec<(i32, Rc<Triple>)>,
        triple_index: &mut TripleIndex,
        rules_index: &RuleIndex,
        window: &mut ImarsWindow<Triple>,
        encoder: &Encoder,
    ) -> (res: Vec<(i32, Rc<Triple>)>)
        requires
            rules_index.wf(),
            old(window).wf(),
            cs_total(old(triple_index)@, old(window)@.content, rules_index@, unshared(new_data@)),
        ensures
            ({
                let st = cs_result(old(triple_index)@, old(window)@.content, rules_index@, unshared(new_data@));
                &&& final(triple_index)@ == st.0
                &&& final(window)@.content == st.1
                &&& unshared(res@) == st.3
            }),
            final(window).wf(),
            final(window)@.width == old(window)@.width,
            final(window)@.slide == old(window)@.slide,
            final(window)@.time == old(window)@.time,
            final(window)@.pending == old(window)@.pending,
    {
        proof {
            lemma_triple_eq();
        }
        let ghost ri = rules_index@;
        let ghost st0: CsState = (triple_index@, window@.content, unshared(new_data@), seq![]);
        let ghost fuel0 = choose|f: nat| (#[trigger] cs_run(st0, ri, 0, f)) is Some;
        let ghost mut fuel: nat = fuel0;
        let ghost w0 = window@;
        let mut inferred: Vec<(i32, Rc<Triple>)> = Vec::new();
        let mut pending_changes = copy_stamped(new_data);
        let mut counter: usize = 0;
        assert(unshared(inferred@) =~= Seq::<(i32, Triple)>::empty());
        while counter < pending_changes.len()
            invariant
                rules_index.wf(),
                ri == rules_index@,
                window.wf(),
                window@.width == w0.width,
                window@.slide == w0.slide,
                window@.time == w0.time,
                window@.pending == w0.pending,
                vstd::laws_eq::obeys_concrete_eq::<Triple>(),
                cs_run(st0, ri, 0, fuel0) is Some,
                cs_run(st0, ri, 0, fuel0) == cs_run(
                    (triple_index@, window@.content, unshared(pending_changes@), unshared(inferred@)),
                    ri,
                    counter as nat,
                    fuel,
                ),
            decreases fuel,
        {
            let ghost st: CsState = (triple_index@, window@.content, unshared(pending_changes@), unshared(inferred@));
            let process_quad: Triple = *pending_changes[counter].1;
            assert(process_quad == st.2[counter as int].1);
            let ghost step = cs_step(st, ri, counter as int);
            assert(step is Some);
            let matching_rules = rules_index.find_match(&process_quad);
            let ghost rs = rules_at(ri.rules, match_spec(ri, process_quad));
            proof {
                lemma_news_prefix(st.0, st.1, rs);
            }
            let mut new_triples: Vec<(i32, Triple, Triple)> = Vec::new();
            let mut j: usize = 0;
            assert(rs.take(0) =~= Seq::<RuleView>::empty());
            while j < matching_rules.len()
                invariant
                    j <= matching_rules@.len(),
                    ref_views(matching_rules@) == rs,
                    st.0 == triple_index@,
                    st.1 == window@.content,
                    forall|m: int| 0 <= m <= rs.len() ==> (#[trigger] news_all(st.0, st.1, rs.take(m))) is Some,
                    news_all(st.0, st.1, rs.take(j as int)) == Some(new_triples@),
                decreases matching_rules@.len() - j,
            {
                proof {
                    assert(rs.take(j + 1).drop_last() =~= rs.take(j as int));
                    assert(rs.take(j + 1).last() == rs[j as int]);
                    assert(news_all(st.0, st.1, rs.take(j + 1)) is Some);
                }
                let mut found = Self::rule_news_exec(triple_index, window, matching_rules[j]);
                new_triples.append(&mut found);
                j = j + 1;
            }
            assert(rs.take(rs.len() as int) =~= rs);
            let ghost ns = new_triples@;
            proof {
                lemma_add_news_prefix(st, ns);
                assert(ns.take(0) =~= Seq::<(i32, Triple, Triple)>::empty());
            }
            let mut m: usize = 0;
            while m < new_triples.len()
                invariant
                    m <= ns.len(),
                    ns == new_triples@,
                    window.wf(),
                    window@.width == w0.width,
                    window@.slide == w0.slide,
                    window@.time == w0.time,
                    window@.pending == w0.pending,
                    vstd::laws_eq::obeys_concrete_eq::<Triple>(),
                    forall|k: int| 0 <= k <= ns.len() ==> (#[trigger] add_news(st, ns.take(k))) is Some,
                    add_news(st, ns.take(m as int)) == Some(
                        (triple_index@, window@.content, unshared(pending_changes@), unshared(inferred@)),
                    ),
                decreases ns.len() - m,
            {
                proof {
                    assert(ns.take(m + 1).drop_last() =~= ns.take(m as int));
                    assert(ns.take(m + 1).last() == ns[m as int]);
                    assert(add_news(st, ns.take(m + 1)) is Some);
                }
                let (ts, new_triple, min_triple) = new_triples[m];
                if !triple_index.contains(&new_triple) {
                    let ghost p0 = pending_changes@;
                    let ghost i0 = inferred@;
                    let triple_ref = Rc::new(new_triple);
                    inferred.push((ts, Rc::new(new_triple)));
                    window.add_after(Rc::new(new_triple), Rc::new(min_triple), ts);
                    pending_changes.push((ts, Rc::new(new_triple)));
                    triple_index.add_ref(triple_ref);
                    proof {
                        assert(unshared(pending_changes@) =~= unshared(p0).push((ts, new_triple)));
                        assert(unshared(inferred@) =~= unshared(i0).push((ts, new_triple)));
                    }
                }
                m = m + 1;
            }
            assert(ns.take(ns.len() as int) =~= ns);
            proof {
                fuel = (fuel - 1) as nat;
            }
            counter = counter + 1;
        }
        inferred
    }

    /// For every row of the binding, the rule's body with that row
    /// substituted (see `reconstruct_spec`). The binding is left as it was.
    pub fn reconstruct_triples_from_bindings(result_bindings: &mut Binding, rule: &Rule) -> (res: Vec<Vec<Triple>>)
        requires
            reconstructible(rule.body@, old(result_bindings)@),
        ensures
            *final(result_bindings) == *old(result_bindings),
            res.len() == bind_len(old(result_bindings)@),
            forall|rc: int| 0 <= rc < res.len() ==> (#[trigger] res[rc])@ == reconstruct_spec(rule.body@, old(result_bindings)@)[rc],
    {
        let ghost b = result_bindings@;
        let ghost body = rule.body@;
        let n = result_bindings.len();
        let mut all_triples: Vec<Vec<Triple>> = Vec::new();
        let mut counter: usize = 0;
        while counter < n
            invariant
                b == result_bindings@,
                body == rule.body@,
                n == bind_len(b),
                counter <= n,
                reconstructible(body, b),
                all_triples.len() == counter,
                forall|rc: int| 0 <= rc < counter ==> (#[trigger] all_triples[rc])@ == reconstruct_spec(body, b)[rc],
            decreases n - counter,
        {
            let mut triples: Vec<Triple> = Vec::new();
            let mut j: usize = 0;
            while j < rule.body.len()
                invariant
                    b == result_bindings@,
                    body == rule.body@,
                    n == bind_len(b),
                    counter < n,
                    reconstructible(body, b),
                    j <= body.len(),
                    triples@ =~= body_row(body, b, counter as int).take(j as int),
                decreases body.len() - j,
            {
                let t = &rule.body[j];
                assert(head_row(body[j as int], b, counter as int) is Some);
                let s = Reasoner::head_elem_exec(&t.s, result_bindings, counter);
                let p = Reasoner::head_elem_exec(&t.p, result_bindings, counter);
                let o = Reasoner::head_elem_exec(&t.o, result_bindings, counter);
                triples.push(
                    Triple {
                        s: VarOrTerm::new_encoded_term(s),
                        p: VarOrTerm::new_encoded_term(p),
                        o: VarOrTerm::new_encoded_term(o),
                        g: None,
                    },
                );
                j = j + 1;
            }
            assert(body_row(body, b, counter as int).take(body.len() as int) =~= body_row(body, b, counter as int));
            all_triples.push(triples);
            counter = counter + 1;
        }
        all_triples
    }
}

/// Adding new triples appends exactly the added ones, each new before and
/// held afterwards, and keeps every triple held before.
pub(crate) proof fn lemma_add_new(v: TripleIndexView, ts: Seq<Triple>)
    requires
        add_new(v, ts) is Some,
    ensures
        ({
            let (v1, inf) = add_new(v, ts).unwrap();
            &&& v1.triples == v.triples + inf
            &&& forall|i: int| 0 <= i < inf.len() ==> contains_spec(v1, #[trigger] inf[i]) && !contains_spec(v, inf[i])
            &&& forall|u: Triple| contains_spec(v, u) ==> #[trigger] contains_spec(v1, u)
        }),
    decreases ts.len(),
{
    if ts.len() == 0 {
        assert(v.triples + Seq::<Triple>::empty() =~= v.triples);
    } else {
        lemma_add_new(v, ts.drop_last());
        let (v1, inf) = add_new(v, ts.drop_last()).unwrap();
        let t = ts.last();
        if !contains_spec(v1, t) {
            let v2 = add_spec(v1, t);
            law_contains_after_add(v1, t, t);
            assert forall|u: Triple| contains_spec(v1, u) implies #[trigger] contains_spec(v2, u) by {
                law_contains_after_add(v1, t, u);
            }
            assert(v2.triples =~= v.triples + inf.push(t));
            assert forall|i: int| 0 <= i < inf.push(t).len() implies contains_spec(v2, #[trigger] inf.push(t)[i])
                && !contains_spec(v, inf.push(t)[i]) by {
                if i < inf.len() {
                    assert(inf.push(t)[i] == inf[i]);
                }
            }
        }
    }
}

/// What a run of materialization keeps: the triples it adds come after the
/// index's own, each new before and held afterwards.
pub(crate) proof fn lemma_mat_run(v: TripleIndexView, ri: RuleIndexView, counter: nat, inferred: Seq<Triple>, fuel: nat)
    requires
        mat_run(v, ri, counter, inferred, fuel) is Some,
    ensures
        ({
            let (w, all) = mat_run(v, ri, counter, inferred, fuel).unwrap();
            &&& all.len() >= inferred.len()
            &&& all.take(inferred.len() as int) == inferred
            &&& w.triples == v.triples + all.skip(inferred.len() as int)
            &&& forall|i: int| inferred.len() <= i < all.len() ==> contains_spec(w, #[trigger] all[i]) && !contains_spec(v, all[i])
            &&& forall|u: Triple| contains_spec(v, u) ==> #[trigger] contains_spec(w, u)
        }),
    decreases fuel,
{
    if counter >= v.triples.len() {
        assert(inferred.take(inferred.len() as int) =~= inferred);
        assert(v.triples + inferred.skip(inferred.len() as int) =~= v.triples);
    } else {
        let (v2, new) = mat_step(v, ri, counter as int).unwrap();
        let t = v.triples[counter as int];
        let rs = specialize_all(t, rules_at(ri.rules, match_spec(ri, t))).unwrap();
        let hs = heads_all(v, rs, Some((counter + 1) as usize)).unwrap();
        lemma_add_new(v, hs);
        lemma_mat_run(v2, ri, counter + 1, inferred + new, (fuel - 1) as nat);
        let (w, all) = mat_run(v, ri, counter, inferred, fuel).unwrap();
        let i0 = inferred + new;
        assert(all.take(i0.len() as int) == i0);
        assert(all.take(inferred.len() as int) =~= i0.take(inferred.len() as int));
        assert(i0.take(inferred.len() as int) =~= inferred);
        assert(all.skip(inferred.len() as int) =~= new + all.skip(i0.len() as int)) by {
            assert forall|k: int| 0 <= k < new.len() implies all[inferred.len() + k] == new[k] by {
                assert(all.take(i0.len() as int)[inferred.len() + k] == i0[inferred.len() + k]);
            }
        }
        assert(w.triples =~= v.triples + all.skip(inferred.len() as int));
        assert forall|i: int| inferred.len() <= i < all.len() implies contains_spec(w, #[trigger] all[i]) && !contains_spec(v, all[i]) by {
            if i < i0.len() {
                let k = i - inferred.len();
                assert(all.take(i0.len() as int)[i] == i0[i]);
                assert(i0[i] == new[k]);
                assert(contains_spec(v2, new[k]));
            }
        }
    }
}

/// `t` keeps the terms of `h`: each term of `h` stands at the same place in
/// `t`.
pub open spec fn keeps_terms(h: Triple, t: Triple) -> bool {
    &&& (h.s is Term ==> t.s == h.s)
    &&& (h.p is Term ==> t.p == h.p)
    &&& (h.o is Term ==> t.o == h.o)
}

/// `t` keeps the terms of the head of one of the rules `rs`.
pub open spec fn head_instance(rs: Seq<RuleView>, t: Triple) -> bool {
    exists|j: int| 0 <= j < rs.len() && #[trigger] keeps_terms(rs[j].head, t)
}

proof fn lemma_head_rows_keep(h: Triple, b: BindingView, n: nat)
    requires
        head_rows(h, b, n) is Some,
    ensures
        forall|k: int| 0 <= k < head_rows(h, b, n).unwrap().len() ==> keeps_terms(h, #[trigger] head_rows(h, b, n).unwrap()[k]),
    decreases n,
{
    if n > 0 {
        lemma_head_rows_keep(h, b, (n - 1) as nat);
    }
}

proof fn lemma_sub_rows_keep(h: Triple, b: BindingView, n: nat)
    requires
        sub_rows(h, b, n) is Some,
    ensures
        forall|k: int| 0 <= k < sub_rows(h, b, n).unwrap().len() ==> keeps_terms(h, #[trigger] sub_rows(h, b, n).unwrap()[k]),
    decreases n,
{
    if n > 0 {
        lemma_sub_rows_keep(h, b, (n - 1) as nat);
    }
}

proof fn lemma_subst_head_keeps(h: Triple, b: BindingView)
    requires
        substitute_head_spec(h, b) is Some,
    ensures
        forall|k: int| 0 <= k < substitute_head_spec(h, b).unwrap().len() ==> keeps_terms(h, #[trigger] substitute_head_spec(h, b).unwrap()[k]),
{
    if bind_len(b) > 0 {
        lemma_head_rows_keep(h, b, bind_len(b));
    }
}

proof fn lemma_subst_rule_keeps(t: Triple, r: RuleView, i: int, acc: Seq<RuleView>)
    requires
        substitute_rule_from(t, r, i, acc) is Some,
        forall|k: int| 0 <= k < acc.len() ==> keeps_terms(r.head, #[trigger] acc[k].head),
    ensures
        forall|k: int| 0 <= k < substitute_rule_from(t, r, i, acc).unwrap().len() ==> keeps_terms(
            r.head,
            #[trigger] substitute_rule_from(t, r, i, acc).unwrap()[k].head,
        ),
    decreases r.body.len() - i,
{
    if 0 <= i < r.body.len() {
        match pattern_match(r.body[i], t) {
            None => {},
            Some(None) => lemma_subst_rule_keeps(t, r, i + 1, acc),
            Some(Some(b)) => if bind_len(b) > 1 {
            } else if bind_len(b) == 0 {
            } else {
                let nr = sub_rule(r, b).unwrap();
                lemma_sub_rows_keep(r.head, b, bind_len(b));
                assert(keeps_terms(r.head, nr.head));
                let acc2 = acc.push(nr);
                assert forall|k: int| 0 <= k < acc2.len() implies keeps_terms(r.head, #[trigger] acc2[k].head) by {
                    if k < acc.len() {
                        assert(acc2[k] == acc[k]);
                    }
                }
                lemma_subst_rule_keeps(t, r, i + 1, acc2);
            },
        }
    }
}

proof fn lemma_specialize_keeps(t: Triple, rs: Seq<RuleView>)
    requires
        specialize_all(t, rs) is Some,
    ensures
        forall|k: int| 0 <= k < specialize_all(t, rs).unwrap().len() ==> head_instance(rs, (#[trigger] specialize_all(t, rs).unwrap()[k]).head),
    decreases rs.len(),
{
    if rs.len() > 0 {
        let d = rs.drop_last();
        lemma_specialize_keeps(t, d);
        lemma_subst_rule_keeps(t, rs.last(), 0, seq![]);
        let a = specialize_all(t, d).unwrap();
        let b = substitute_rule_spec(t, rs.last()).unwrap();
        let out = specialize_all(t, rs).unwrap();
        assert(out == a + b);
        assert forall|k: int| 0 <= k < out.len() implies head_instance(rs, (#[trigger] out[k]).head) by {
            if k < a.len() {
                assert(head_instance(d, a[k].head));
                let j = choose|j: int| 0 <= j < d.len() && #[trigger] keeps_terms(d[j].head, a[k].head);
                assert(rs[j] == d[j]);
                assert(out[k] == a[k]);
                assert(keeps_terms(rs[j].head, out[k].head));
            } else {
                assert(out[k] == b[k - a.len()]);
                assert(keeps_terms(rs[rs.len() - 1].head, out[k].head));
            }
        }
    }
}

proof fn lemma_heads_keep(v: TripleIndexView, rs: Seq<RuleView>, tc: Option<usize>)
    requires
        heads_all(v, rs, tc) is Some,
    ensures
        forall|k: int| 0 <= k < heads_all(v, rs, tc).unwrap().len() ==> head_instance(rs, #[trigger] heads_all(v, rs, tc).unwrap()[k]),
    decreases rs.len(),
{
    if rs.len() > 0 {
        let d = rs.drop_last();
        lemma_heads_keep(v, d, tc);
        let a = heads_all(v, d, tc).unwrap();
        let out = heads_all(v, rs, tc).unwrap();
        assert forall|k: int| 0 <= k < out.len() implies head_instance(rs, #[trigger] out[k]) by {
            if k < a.len() {
                assert(head_instance(d, a[k]));
                let j = choose|j: int| 0 <= j < d.len() && #[trigger] keeps_terms(d[j].head, a[k]);
                assert(rs[j] == d[j]);
                match engine_spec(v, rs.last().body, tc) {
                    Some(Some(b)) => assert(out[k] == (a + substitute_head_spec(rs.last().head, b).unwrap())[k]),
                    _ => {},
                }
                assert(keeps_terms(rs[j].head, out[k]));
            } else {
                match engine_spec(v, rs.last().body, tc) {
                    Some(Some(b)) => {
                        lemma_subst_head_keeps(rs.last().head, b);
                        let h = substitute_head_spec(rs.last().head, b).unwrap();
                        assert(out[k] == h[k - a.len()]);
                        assert(keeps_terms(rs[rs.len() - 1].head, out[k]));
                    },
                    _ => {},
                }
            }
        }
    }
}

proof fn lemma_add_new_from(v: TripleIndexView, ts: Seq<Triple>)
    requires
        add_new(v, ts) is Some,
    ensures
        forall|k: int| 0 <= k < add_new(v, ts).unwrap().1.len() ==> ts.contains(#[trigger] add_new(v, ts).unwrap().1[k]),
    decreases ts.len(),
{
    if ts.len() > 0 {
        let d = ts.drop_last();
        lemma_add_new_from(v, d);
        let inf0 = add_new(v, d).unwrap().1;
        let inf = add_new(v, ts).unwrap().1;
        assert forall|k: int| 0 <= k < inf.len() implies ts.contains(#[trigger] inf[k]) by {
            if k < inf0.len() {
                assert(inf[k] == inf0[k]);
                let w = choose|w: int| 0 <= w < d.len() && d[w] == inf0[k];
                assert(ts[w] == d[w]);
            } else {
                assert(inf[k] == ts[ts.len() - 1]);
            }
        }
    }
}

proof fn lemma_step_heads(v: TripleIndexView, ri: RuleIndexView, counter: int)
    requires
        index_ok(ri),
        0 <= counter < v.triples.len(),
        mat_step(v, ri, counter) is Some,
    ensures
        forall|k: int| 0 <= k < mat_step(v, ri, counter).unwrap().1.len() ==> head_instance(ri.rules, #[trigger] mat_step(v, ri, counter).unwrap().1[k]),
{
    let t = v.triples[counter];
    let ms = match_spec(ri, t);
    let rs0 = rules_at(ri.rules, ms);
    let rs = specialize_all(t, rs0).unwrap();
    let tc = Some((counter + 1) as usize);
    let hs = heads_all(v, rs, tc).unwrap();
    lemma_specialize_keeps(t, rs0);
    lemma_heads_keep(v, rs, tc);
    lemma_add_new_from(v, hs);
    lemma_in_match_bound(ri, t);
    let inf = mat_step(v, ri, counter).unwrap().1;
    assert forall|k: int| 0 <= k < inf.len() implies head_instance(ri.rules, #[trigger] inf[k]) by {
        let w = choose|w: int| 0 <= w < hs.len() && hs[w] == inf[k];
        assert(head_instance(rs, hs[w]));
        let j = choose|j: int| 0 <= j < rs.len() && #[trigger] keeps_terms(rs[j].head, hs[w]);
        assert(head_instance(rs0, rs[j].head));
        let i = choose|i: int| 0 <= i < rs0.len() && #[trigger] keeps_terms(rs0[i].head, rs[j].head);
        let x = ms[i];
        assert(ms.contains(x));
        lemma_in_match(ri, t, x);
        assert(x < ri.rules.len());
        assert(rs0[i] == ri.rules[x as int]);
        assert(keeps_terms(ri.rules[x as int].head, inf[k]));
    }
}

proof fn lemma_mat_run_heads(v: TripleIndexView, ri: RuleIndexView, counter: nat, inferred: Seq<Triple>, fuel: nat)
    requires
        index_ok(ri),
        mat_run(v, ri, counter, inferred, fuel) is Some,
        forall|k: int| 0 <= k < inferred.len() ==> head_instance(ri.rules, #[trigger] inferred[k]),
    ensures
        forall|k: int| 0 <= k < mat_run(v, ri, counter, inferred, fuel).unwrap().1.len() ==> head_instance(
            ri.rules,
            #[trigger] mat_run(v, ri, counter, inferred, fuel).unwrap().1[k],
        ),
    decreases fuel,
{
    if counter < v.triples.len() {
        let (v2, new) = mat_step(v, ri, counter as int).unwrap();
        lemma_step_heads(v, ri, counter as int);
        let i0 = inferred + new;
        assert forall|k: int| 0 <= k < i0.len() implies head_instance(ri.rules, #[trigger] i0[k]) by {
            if k < inferred.len() {
                assert(i0[k] == inferred[k]);
            } else {
                assert(i0[k] == new[k - inferred.len()]);
            }
        }
        lemma_mat_run_heads(v2, ri, counter + 1, i0, (fuel - 1) as nat);
    }
}

/// Every triple that materialization adds keeps, at their places, the terms
/// of the head of one of the rules.
pub proof fn law_materialize_heads(v: TripleIndexView, ri: RuleIndexView)
    requires
        index_ok(ri),
        materializes(v, ri),
    ensures
        forall|k: int| 0 <= k < mat_result(v, ri).1.len() ==> head_instance(ri.rules, #[trigger] mat_result(v, ri).1[k]),
{
    lemma_mat_run_heads(v, ri, 0, seq![], mat_fuel(v, ri));
}

/// Materialization only adds: the index afterwards holds the triples it
/// held, followed by the returned triples in order; each returned triple
/// was not held before and is held afterwards, and every triple held before
/// is still held.
pub proof fn law_materialize_adds(v: TripleIndexView, ri: RuleIndexView)
    requires
        materializes(v, ri),
    ensures
        mat_result(v, ri).0.triples == v.triples + mat_result(v, ri).1,
        forall|i: int| 0 <= i < mat_result(v, ri).1.len() ==> contains_spec(mat_result(v, ri).0, #[trigger] mat_result(v, ri).1[i])
            && !contains_spec(v, mat_result(v, ri).1[i]),
        forall|u: Triple| contains_spec(v, u) ==> #[trigger] contains_spec(mat_result(v, ri).0, u),
{
    let f = mat_fuel(v, ri);
    lemma_mat_run(v, ri, 0, seq![], f);
    let all = mat_result(v, ri).1;
    assert(all.skip(0) =~= all);
}


pub(crate) proof fn lemma_triple_eq()
    ensures
        vstd::laws_eq::obeys_concrete_eq::<Triple>(),
{
    reveal(vstd::laws_eq::obeys_concrete_eq);
    assert forall|x: Triple, y: Triple| x.eq_spec(&y) <==> x == y by {
        if x.eq_spec(&y) {
            assert(x.s == y.s && x.p == y.p && x.o == y.o && x.g == y.g);
        }
    }
}

} // verus!
