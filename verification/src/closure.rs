//! What materialization computes for the rules with one body pattern: the
//! index it leaves is closed under them (rules with several body patterns
//! are the subject of `instances`). The proof rests on the object–subject
//! index standing for the stored triples (`osp_ok`), which adding keeps.
use vstd::prelude::*;
use crate::triples::{Triple, code_of};
use crate::tripleindex::{TripleIndexView, Entry, bucket_of, entries, add_spec, contains_spec, empty_index,
    lemma_bucket_insert_exact, lemma_find_pos};
use crate::store::add_triples_spec;
use crate::tripleindex::{law_contains_after_add, scan_exact, query_spec};
use crate::reasoner::{add_new, engine_spec, engine_from, pattern_match, sub_row, specialize_all, heads_all,
    substitute_rule_spec, substitute_head_spec};
use crate::triples::RuleView;
use crate::ruleindex::{pattern_matches, RuleIndexView, index_ok, complete, match_spec, rules_at, in_match, finds,
    lemma_in_match, lemma_in_match_bound};
use crate::reasoner::{mat_step, mat_run, mat_result, mat_fuel, materializes, lemma_mat_run};
use crate::bindings::{adds_to, join_spec, BindingView, bind_len};
use crate::dred::{first_row, lemma_bind_add_first_row};
use crate::triples::VarOrTerm;
use crate::reasoner::match_elem;
use crate::dred::same_codes;

verus! {

/// The entries `b` of the object–subject bucket of `o` and `s` name stored
/// triples with that object and subject and the entry's predicate, in the
/// order the triples were stored.
pub open spec fn bucket_sound(v: TripleIndexView, b: Seq<Entry>, o: usize, s: usize) -> bool {
    &&& forall|k: int| 0 <= k < b.len() ==> {
        let i = (#[trigger] b[k]).1 as int;
        &&& i < v.triples.len()
        &&& code_of(v.triples[i].o) == o
        &&& code_of(v.triples[i].s) == s
        &&& code_of(v.triples[i].p) == b[k].0
    }
    &&& forall|k1: int, k2: int| 0 <= k1 < k2 < b.len() ==> (#[trigger] b[k1]).1 < (#[trigger] b[k2]).1
}

/// The stored triple at position `i` has its entry in the object–subject
/// index.
pub open spec fn has_entry(v: TripleIndexView, i: int) -> bool {
    let t = v.triples[i];
    let b = entries(bucket_of(v.osp, code_of(t.o), code_of(t.s)));
    exists|k: int| 0 <= k < b.len() && (#[trigger] b[k]).0 == code_of(t.p) && b[k].1 == i
}

/// The object–subject index stands for the stored triples: every entry
/// names a stored triple, entries come in the order of storing, and every
/// stored triple has its entry; the counter is the number of triples.
pub open spec fn osp_ok(v: TripleIndexView) -> bool {
    &&& v.counter == v.triples.len()
    &&& forall|o: usize, s: usize| #[trigger] bucket_sound(v, entries(bucket_of(v.osp, o, s)), o, s)
    &&& forall|i: int| 0 <= i < v.triples.len() ==> #[trigger] has_entry(v, i)
}

/// Adding a triple keeps the object–subject index standing for the stored
/// triples.
pub proof fn lemma_add_osp_ok(v: TripleIndexView, t: Triple)
    requires
        osp_ok(v),
        v.counter < usize::MAX,
    ensures
        osp_ok(add_spec(v, t)),
{
    let w = add_spec(v, t);
    let ot = code_of(t.o);
    let st = code_of(t.s);
    let e: Entry = (code_of(t.p), v.counter, crate::tripleindex::graph_term(t.g));
    let n = v.triples.len() as int;
    assert(w.triples == v.triples.push(t));
    assert forall|o: usize, s: usize| #[trigger] bucket_sound(w, entries(bucket_of(w.osp, o, s)), o, s) by {
        lemma_bucket_insert_exact(v.osp, ot, st, e, o, s);
        let b0 = entries(bucket_of(v.osp, o, s));
        assert(bucket_sound(v, b0, o, s));
        let b = entries(bucket_of(w.osp, o, s));
        if o == ot && s == st {
            assert(b == b0.push(e));
            assert forall|k: int| 0 <= k < b.len() implies {
                let i = (#[trigger] b[k]).1 as int;
                &&& i < w.triples.len()
                &&& code_of(w.triples[i].o) == o
                &&& code_of(w.triples[i].s) == s
                &&& code_of(w.triples[i].p) == b[k].0
            } by {
                if k < b0.len() {
                    assert(b[k] == b0[k]);
                    assert(w.triples[b0[k].1 as int] == v.triples[b0[k].1 as int]);
                } else {
                    assert(b[k] == e);
                    assert(w.triples[n] == t);
                }
            }
            assert forall|k1: int, k2: int| 0 <= k1 < k2 < b.len() implies (#[trigger] b[k1]).1 < (#[trigger] b[k2]).1 by {
                assert(b[k1] == b0[k1]);
                if k2 < b0.len() {
                    assert(b[k2] == b0[k2]);
                } else {
                    assert(b[k2] == e);
                    assert(b0[k1].1 < n);
                }
            }
        } else {
            assert(b == b0);
            assert forall|k: int| 0 <= k < b.len() implies {
                let i = (#[trigger] b[k]).1 as int;
                &&& i < w.triples.len()
                &&& code_of(w.triples[i].o) == o
                &&& code_of(w.triples[i].s) == s
                &&& code_of(w.triples[i].p) == b[k].0
            } by {
                assert(w.triples[b0[k].1 as int] == v.triples[b0[k].1 as int]);
            }
        }
    }
    assert forall|i: int| 0 <= i < w.triples.len() implies #[trigger] has_entry(w, i) by {
        let u = w.triples[i];
        lemma_bucket_insert_exact(v.osp, ot, st, e, code_of(u.o), code_of(u.s));
        let b = entries(bucket_of(w.osp, code_of(u.o), code_of(u.s)));
        if i < n {
            assert(u == v.triples[i]);
            assert(has_entry(v, i));
            let b0 = entries(bucket_of(v.osp, code_of(u.o), code_of(u.s)));
            let k = choose|k: int| 0 <= k < b0.len() && (#[trigger] b0[k]).0 == code_of(u.p) && b0[k].1 == i;
            if code_of(u.o) == ot && code_of(u.s) == st {
                assert(b == b0.push(e));
                assert(b[k] == b0[k]);
            } else {
                assert(b[k] == b0[k]);
            }
        } else {
            assert(u == t);
            assert(b == entries(bucket_of(v.osp, ot, st)).push(e));
            assert(b[b.len() - 1] == e);
        }
    }
}

/// Adding triples keeps the object–subject index standing for the stored
/// triples.
pub proof fn law_add_triples_osp_ok(v: TripleIndexView, ts: Seq<Triple>)
    requires
        osp_ok(v),
        v.counter + ts.len() < usize::MAX,
    ensures
        osp_ok(add_triples_spec(v, ts)),
        add_triples_spec(v, ts).triples == v.triples + ts,
    decreases ts.len(),
{
    if ts.len() > 0 {
        law_add_triples_osp_ok(v, ts.drop_last());
        lemma_add_osp_ok(add_triples_spec(v, ts.drop_last()), ts.last());
        assert(v.triples + ts.drop_last() + seq![ts.last()] =~= v.triples + ts);
        assert((v.triples + ts.drop_last()).push(ts.last()) =~= v.triples + ts);
    } else {
        assert(v.triples + ts =~= v.triples);
    }
}

/// An index filled by adding triples to an empty one has an object–subject
/// index that stands for its triples.
pub proof fn law_added_index_osp_ok(ts: Seq<Triple>)
    requires
        ts.len() < usize::MAX,
    ensures
        osp_ok(add_triples_spec(empty_index(), ts)),
        add_triples_spec(empty_index(), ts).triples == ts,
    decreases ts.len(),
{
    if ts.len() == 0 {
        let v = empty_index();
        assert forall|o: usize, s: usize| #[trigger] bucket_sound(v, entries(bucket_of(v.osp, o, s)), o, s) by {
            lemma_find_pos(v.osp, o, 0);
        }
        assert(v.triples =~= ts);
    } else {
        law_added_index_osp_ok(ts.drop_last());
        lemma_add_osp_ok(add_triples_spec(empty_index(), ts.drop_last()), ts.last());
        assert(ts.drop_last().push(ts.last()) =~= ts);
    }
}

/// Adding the new ones of `ts` keeps the object–subject index standing for
/// the stored triples, and the index afterwards contains every triple of
/// `ts`.
pub proof fn lemma_add_new_closed(v: TripleIndexView, ts: Seq<Triple>)
    requires
        osp_ok(v),
        add_new(v, ts) is Some,
    ensures
        osp_ok(add_new(v, ts).unwrap().0),
        forall|k: int| 0 <= k < ts.len() ==> contains_spec(add_new(v, ts).unwrap().0, #[trigger] ts[k]),
        forall|u: Triple| contains_spec(v, u) ==> #[trigger] contains_spec(add_new(v, ts).unwrap().0, u),
        add_new(v, ts).unwrap().0.triples.len() >= v.triples.len(),
        v.triples.is_prefix_of(add_new(v, ts).unwrap().0.triples),
    decreases ts.len(),
{
    if ts.len() > 0 {
        let d = ts.drop_last();
        lemma_add_new_closed(v, d);
        let v1 = add_new(v, d).unwrap().0;
        let t = ts.last();
        let v2 = add_new(v, ts).unwrap().0;
        if !contains_spec(v1, t) {
            lemma_add_osp_ok(v1, t);
            assert(v2 == add_spec(v1, t));
            assert forall|u: Triple| contains_spec(v1, u) implies #[trigger] contains_spec(v2, u) by {
                law_contains_after_add(v1, t, u);
            }
            law_contains_after_add(v1, t, t);
            assert(v1.triples.is_prefix_of(v2.triples)) by {
                assert(v2.triples == v1.triples.push(t));
            }
        }
        assert forall|k: int| 0 <= k < ts.len() implies contains_spec(v2, #[trigger] ts[k]) by {
            if k < d.len() {
                assert(d[k] == ts[k]);
                assert(contains_spec(v1, d[k]));
            }
        }
        assert(v.triples.is_prefix_of(v2.triples)) by {
            assert forall|i: int| 0 <= i < v.triples.len() implies v2.triples[i] == v.triples[i] by {
                assert(v1.triples[i] == v.triples[i]);
                assert(v2.triples[i] == v1.triples[i]);
            }
        }
    }
}

/// A scan for predicate `p` over entries in the order of storing finds it
/// when an entry with `p` was stored no later than `check`, binding nothing.
pub(crate) proof fn lemma_scan_exact_finds(b: Seq<Entry>, p: usize, check: usize, k: int)
    requires
        0 <= k < b.len(),
        b[k].0 == p,
        b[k].1 <= check,
        forall|k1: int, k2: int| 0 <= k1 < k2 < b.len() ==> (#[trigger] b[k1]).1 < (#[trigger] b[k2]).1,
    ensures
        scan_exact(b, p, None, check) == (Seq::<(usize, usize)>::empty(), true),
    decreases b.len(),
{
    if k > 0 {
        assert(b[0].1 < b[k].1);
    }
    if b[0].0 != p {
        let r = b.drop_first();
        assert(k > 0);
        assert(r[k - 1] == b[k]);
        assert forall|k1: int, k2: int| 0 <= k1 < k2 < r.len() implies (#[trigger] r[k1]).1 < (#[trigger] r[k2]).1 by {
            assert(r[k1] == b[k1 + 1]);
            assert(r[k2] == b[k2 + 1]);
        }
        lemma_scan_exact_finds(r, p, check, k - 1);
        assert(Seq::<(usize, usize)>::empty() + Seq::<(usize, usize)>::empty() =~= Seq::<(usize, usize)>::empty());
    }
}

/// The triple of terms with `x`'s subject, predicate and object.
pub open spec fn terms_of(x: Triple) -> Triple {
    Triple { s: x.s, p: x.p, o: x.o, g: None }
}

/// Answering the single pattern `terms_of(x)`, when a triple with `x`'s
/// subject, predicate and object was stored no later than `check`, gives
/// one empty row.
proof fn lemma_ground_engine(v: TripleIndexView, x: Triple, m: int, check: usize)
    requires
        osp_ok(v),
        x.s is Term && x.p is Term && x.o is Term,
        0 <= m < v.triples.len(),
        m <= check,
        same_codes(v.triples[m], x),
    ensures
        engine_spec(v, seq![terms_of(x)], Some(check)) == Some(Some(Seq::<(usize, Seq<usize>)>::empty())),
{
    let q = terms_of(x);
    let u = v.triples[m];
    assert(has_entry(v, m));
    let b = entries(bucket_of(v.osp, code_of(u.o), code_of(u.s)));
    let k = choose|k: int| 0 <= k < b.len() && (#[trigger] b[k]).0 == code_of(u.p) && b[k].1 == m;
    assert(bucket_sound(v, b, code_of(u.o), code_of(u.s)));
    lemma_scan_exact_finds(b, code_of(q.p), check, k);
    assert(adds_to(seq![], seq![]) == Seq::<(usize, Seq<usize>)>::empty());
    assert(query_spec(v, q, check) == Some(Seq::<(usize, Seq<usize>)>::empty()));
    let qs = seq![q];
    assert(engine_from(v, qs, check, 1, join_spec(seq![], seq![])) == Some(Some(join_spec(seq![], seq![]))));
}

/// The binding that matching the single body pattern of `r` against `x`
/// gives.
pub open spec fn match_binding(r: RuleView, x: Triple) -> BindingView {
    pattern_match(r.body[0], x).unwrap().unwrap()
}

/// `x` is an instance of the one body pattern of `r` (which has no graph):
/// the pattern matches `x`, and its binding maps the pattern onto `x`.
pub open spec fn single_instance(r: RuleView, x: Triple) -> bool {
    &&& r.body.len() == 1
    &&& r.body[0].g is None
    &&& pattern_match(r.body[0], x) matches Some(Some(_))
    &&& sub_row(r.body[0], match_binding(r, x), 0) == Some(terms_of(x))
}

/// The head of `r` for the instance `x` of its body pattern: the head with
/// the pattern's binding substituted (the head itself when the pattern has
/// no variable).
pub open spec fn head_for(r: RuleView, x: Triple) -> Triple {
    let b = match_binding(r, x);
    if bind_len(b) == 0 {
        r.head
    } else {
        sub_row(r.head, b, 0).unwrap()
    }
}

/// Every rule with one body pattern that has an instance with `u`'s
/// subject, predicate and object has its head for it in `w`.
pub open spec fn step_closed(w: TripleIndexView, rules: Seq<RuleView>, u: Triple) -> bool {
    forall|j: int, x: Triple|
        0 <= j < rules.len() && #[trigger] single_instance(rules[j], x) && same_codes(u, x) ==> contains_spec(
            w,
            head_for(rules[j], x),
        )
}

pub(crate) proof fn lemma_specialize_contains(t: Triple, rs: Seq<RuleView>, w: int)
    requires
        specialize_all(t, rs) is Some,
        0 <= w < rs.len(),
    ensures
        substitute_rule_spec(t, rs[w]) is Some,
        forall|k: int| 0 <= k < substitute_rule_spec(t, rs[w]).unwrap().len() ==> specialize_all(t, rs).unwrap().contains(
            #[trigger] substitute_rule_spec(t, rs[w]).unwrap()[k],
        ),
    decreases rs.len(),
{
    let d = rs.drop_last();
    let a = specialize_all(t, d).unwrap();
    let out = specialize_all(t, rs).unwrap();
    if w < d.len() {
        lemma_specialize_contains(t, d, w);
        assert(d[w] == rs[w]);
        let sw = substitute_rule_spec(t, rs[w]).unwrap();
        assert forall|k: int| 0 <= k < sw.len() implies out.contains(#[trigger] sw[k]) by {
            let i = choose|i: int| 0 <= i < a.len() && a[i] == sw[k];
            assert(out[i] == a[i]);
        }
    } else {
        let sw = substitute_rule_spec(t, rs[w]).unwrap();
        assert(out == a + sw);
        assert forall|k: int| 0 <= k < sw.len() implies out.contains(#[trigger] sw[k]) by {
            assert(out[a.len() + k] == sw[k]);
        }
    }
}

pub(crate) proof fn lemma_heads_contains(v: TripleIndexView, rs: Seq<RuleView>, tc: Option<usize>, j: int, b: BindingView)
    requires
        heads_all(v, rs, tc) is Some,
        0 <= j < rs.len(),
        engine_spec(v, rs[j].body, tc) == Some(Some(b)),
    ensures
        substitute_head_spec(rs[j].head, b) is Some,
        forall|k: int| 0 <= k < substitute_head_spec(rs[j].head, b).unwrap().len() ==> heads_all(v, rs, tc).unwrap().contains(
            #[trigger] substitute_head_spec(rs[j].head, b).unwrap()[k],
        ),
    decreases rs.len(),
{
    let d = rs.drop_last();
    let a = heads_all(v, d, tc).unwrap();
    let out = heads_all(v, rs, tc).unwrap();
    if j < d.len() {
        assert(d[j] == rs[j]);
        lemma_heads_contains(v, d, tc, j, b);
        let h = substitute_head_spec(rs[j].head, b).unwrap();
        assert forall|k: int| 0 <= k < h.len() implies out.contains(#[trigger] h[k]) by {
            let i = choose|i: int| 0 <= i < a.len() && a[i] == h[k];
            match engine_spec(v, rs.last().body, tc) {
                Some(Some(c)) => assert(out[i] == (a + substitute_head_spec(rs.last().head, c).unwrap())[i]),
                _ => {},
            }
            assert(out[i] == a[i]);
        }
    } else {
        let h = substitute_head_spec(rs[j].head, b).unwrap();
        assert(out == a + h);
        assert forall|k: int| 0 <= k < h.len() implies out.contains(#[trigger] h[k]) by {
            assert(out[a.len() + k] == h[k]);
        }
    }
}

/// A pattern that matches `x` has `x`'s terms at its term places, `x` is
/// made of terms, and every column of the match has a first value.
proof fn lemma_pattern_match_terms(q: Triple, x: Triple)
    requires
        pattern_match(q, x) matches Some(Some(_)),
    ensures
        x.s is Term && x.p is Term && x.o is Term,
        pattern_matches(q, x),
        first_row(pattern_match(q, x).unwrap().unwrap()),
{
    let e: BindingView = seq![];
    assert(first_row(e));
    if let (VarOrTerm::Var(a), VarOrTerm::Term(t)) = (q.s, x.s) {
        lemma_bind_add_first_row(e, a.name, t.iri);
    }
    let b1 = match_elem(q.s, x.s, e).unwrap().unwrap();
    if let (VarOrTerm::Var(a), VarOrTerm::Term(t)) = (q.p, x.p) {
        lemma_bind_add_first_row(b1, a.name, t.iri);
    }
    let b2 = match_elem(q.p, x.p, b1).unwrap().unwrap();
    if let (VarOrTerm::Var(a), VarOrTerm::Term(t)) = (q.o, x.o) {
        lemma_bind_add_first_row(b2, a.name, t.iri);
    }
}

/// A triple with the codes of a triple of terms, on which matching `q` does
/// not fail, matches `q` as that triple does.
proof fn lemma_pattern_match_same(q: Triple, x: Triple, u: Triple)
    requires
        pattern_match(q, x) matches Some(Some(_)),
        same_codes(u, x),
        pattern_match(q, u) is Some,
    ensures
        u.s == x.s && u.p == x.p && u.o == x.o,
        pattern_match(q, u) == pattern_match(q, x),
{
}

/// The rule that specializing `r` by a triple with the codes of its
/// instance `x` gives has the body `terms_of(x)` and the head for `x`.
proof fn lemma_specialized_rule(r: RuleView, x: Triple, u: Triple)
    requires
        single_instance(r, x),
        same_codes(u, x),
        substitute_rule_spec(u, r) is Some,
    ensures
        exists|k: int| 0 <= k < substitute_rule_spec(u, r).unwrap().len() && (#[trigger] substitute_rule_spec(u, r).unwrap()[k]).body
            == seq![terms_of(x)] && substitute_rule_spec(u, r).unwrap()[k].head == head_for(r, x),
{
    let q = r.body[0];
    lemma_pattern_match_terms(q, x);
    assert(pattern_match(q, u) is Some);
    lemma_pattern_match_same(q, x, u);
    let b = match_binding(r, x);
    let out = substitute_rule_spec(u, r).unwrap();
    assert(first_row(b));
    assert(bind_len(b) <= 1);
    if bind_len(b) == 0 {
        assert(out == seq![r]);
        if b.len() > 0 {
            assert(b[0].1.len() > 0);
        }
        assert(b.len() == 0);
        assert(crate::bindings::key_pos(b, 0) == -1);
        assert(r.body =~= seq![q]);
        assert(q == terms_of(x));
        assert(out[0].body == seq![terms_of(x)]);
    } else {
        let nr = crate::reasoner::sub_rule(r, b).unwrap();
        assert(crate::reasoner::substitute_rule_from(u, r, 1, seq![nr]) == Some(seq![nr]));
        assert(out == seq![nr]);
        assert(r.body.drop_last() =~= Seq::<Triple>::empty());
        assert(bind_len(b) == 1);
        assert(crate::reasoner::sub_rule(r, b) is Some);
        let e = Seq::<Triple>::empty();
        assert(crate::reasoner::sub_rows(q, b, 0) == Some(e));
        assert(crate::reasoner::sub_rows(q, b, 1) == Some(e.push(sub_row(q, b, 0).unwrap())));
        assert(e.push(sub_row(q, b, 0).unwrap()) =~= seq![terms_of(x)]);
        assert(crate::reasoner::substitute_triple_spec(q, b) == Some(seq![terms_of(x)]));
        assert(r.body.last() == q);
        assert(crate::reasoner::sub_body(r.body.drop_last(), b) == Some(e));
        assert(crate::reasoner::sub_body(r.body, b) == Some(e.push(terms_of(x))));
        assert(e.push(terms_of(x)) =~= seq![terms_of(x)]);
        assert(nr.body == seq![terms_of(x)]);
        let hh = crate::reasoner::substitute_triple_spec(r.head, b).unwrap();
        assert(crate::reasoner::sub_rows(r.head, b, 0) == Some(e));
        assert(sub_row(r.head, b, 0) is Some);
        assert(hh == e.push(sub_row(r.head, b, 0).unwrap()));
        assert(nr.head == hh[0]);
        assert(out[0] == nr);
    }
}

/// Processing the triple at position `m` closes the index under the rules
/// with one body pattern for that triple (see `step_closed`).
proof fn lemma_step_closed(v: TripleIndexView, ri: RuleIndexView, m: int)
    requires
        osp_ok(v),
        index_ok(ri),
        complete(ri),
        0 <= m < v.triples.len(),
        mat_step(v, ri, m) is Some,
    ensures
        step_closed(mat_step(v, ri, m).unwrap().0, ri.rules, v.triples[m]),
{
    let u = v.triples[m];
    let ms = match_spec(ri, u);
    let rs0 = rules_at(ri.rules, ms);
    let rs = specialize_all(u, rs0).unwrap();
    let tc = Some((m + 1) as usize);
    let hs = heads_all(v, rs, tc).unwrap();
    let v2 = mat_step(v, ri, m).unwrap().0;
    lemma_add_new_closed(v, hs);
    lemma_in_match_bound(ri, u);
    assert forall|j: int, x: Triple|
        0 <= j < ri.rules.len() && #[trigger] single_instance(ri.rules[j], x) && same_codes(u, x) implies contains_spec(
            v2,
            head_for(ri.rules[j], x),
        ) by {
        lemma_step_closed_one(v, ri, m, j, x);
    }
}

/// Among the rules that the triple at `m` specializes is one with the body
/// `terms_of(x)` and the head for `x`.
/// A rule with a body pattern that `u` matches is among the rules `u`
/// triggers.
proof fn lemma_found(ri: RuleIndexView, u: Triple, j: int) -> (w: int)
    requires
        index_ok(ri),
        complete(ri),
        0 <= j < ri.rules.len(),
        ri.rules[j].body.len() > 0,
        pattern_matches(ri.rules[j].body[0], u),
    ensures
        0 <= w < match_spec(ri, u).len(),
        rules_at(ri.rules, match_spec(ri, u))[w] == ri.rules[j],
{
    assert(finds(ri, u, j));
    let xi = choose|xi: usize| #[trigger] in_match(ri, u, xi) && xi < ri.rules.len() && ri.rules[xi as int] == ri.rules[j];
    lemma_in_match(ri, u, xi);
    let ms = match_spec(ri, u);
    let w = choose|w: int| 0 <= w < ms.len() && ms[w] == xi;
    w
}

/// Among the rules that the triple at `m` specializes is one with the body
/// `terms_of(x)` and the head for `x`.
proof fn lemma_in_specialized(ri: RuleIndexView, u: Triple, j: int, x: Triple) -> (jj: int)
    requires
        index_ok(ri),
        complete(ri),
        specialize_all(u, rules_at(ri.rules, match_spec(ri, u))) is Some,
        0 <= j < ri.rules.len(),
        single_instance(ri.rules[j], x),
        same_codes(u, x),
    ensures
        ({
            let rs = specialize_all(u, rules_at(ri.rules, match_spec(ri, u))).unwrap();
            &&& 0 <= jj < rs.len()
            &&& rs[jj].body == seq![terms_of(x)]
            &&& rs[jj].head == head_for(ri.rules[j], x)
        }),
{
    let rs0 = rules_at(ri.rules, match_spec(ri, u));
    let rs = specialize_all(u, rs0).unwrap();
    let r = ri.rules[j];
    lemma_pattern_match_terms(r.body[0], x);
    let w = lemma_found(ri, u, j);
    lemma_specialize_contains(u, rs0, w);
    lemma_specialized_rule(r, x, u);
    let sr = substitute_rule_spec(u, r).unwrap();
    let k = choose|k: int| 0 <= k < sr.len() && (#[trigger] sr[k]).body == seq![terms_of(x)] && sr[k].head == head_for(r, x);
    assert(rs.contains(sr[k]));
    let jj = choose|jj: int| 0 <= jj < rs.len() && rs[jj] == sr[k];
    jj
}

proof fn lemma_step_closed_one(v: TripleIndexView, ri: RuleIndexView, m: int, j: int, x: Triple)
    requires
        osp_ok(v),
        index_ok(ri),
        complete(ri),
        0 <= m < v.triples.len(),
        mat_step(v, ri, m) is Some,
        0 <= j < ri.rules.len(),
        single_instance(ri.rules[j], x),
        same_codes(v.triples[m], x),
    ensures
        contains_spec(mat_step(v, ri, m).unwrap().0, head_for(ri.rules[j], x)),
{
    let u = v.triples[m];
    let ms = match_spec(ri, u);
    let rs0 = rules_at(ri.rules, ms);
    let rs = specialize_all(u, rs0).unwrap();
    let tc = Some((m + 1) as usize);
    let hs = heads_all(v, rs, tc).unwrap();
    let v2 = mat_step(v, ri, m).unwrap().0;
    assert(v2 == add_new(v, hs).unwrap().0);
    lemma_add_new_closed(v, hs);
    let jj = lemma_in_specialized(ri, u, j, x);
    lemma_pattern_match_terms(ri.rules[j].body[0], x);
    lemma_ground_engine(v, x, m, (m + 1) as usize);
    lemma_heads_contains(v, rs, tc, jj, seq![]);
    let h = substitute_head_spec(rs[jj].head, seq![]).unwrap();
    assert(h == seq![head_for(ri.rules[j], x)]);
    assert(hs.contains(h[0]));
    let i = choose|i: int| 0 <= i < hs.len() && hs[i] == h[0];
    assert(contains_spec(v2, hs[i]));
}

proof fn lemma_mat_run_closed(v: TripleIndexView, ri: RuleIndexView, counter: nat, inferred: Seq<Triple>, fuel: nat)
    requires
        osp_ok(v),
        index_ok(ri),
        complete(ri),
        mat_run(v, ri, counter, inferred, fuel) is Some,
    ensures
        ({
            let w = mat_run(v, ri, counter, inferred, fuel).unwrap().0;
            &&& osp_ok(w)
            &&& v.triples.is_prefix_of(w.triples)
            &&& forall|i: int| counter <= i < w.triples.len() ==> #[trigger] step_closed(w, ri.rules, w.triples[i])
        }),
    decreases fuel,
{
    if counter < v.triples.len() {
        let (v2, new) = mat_step(v, ri, counter as int).unwrap();
        let u = v.triples[counter as int];
        let rs = specialize_all(u, rules_at(ri.rules, match_spec(ri, u))).unwrap();
        let hs = heads_all(v, rs, Some((counter + 1) as usize)).unwrap();
        lemma_add_new_closed(v, hs);
        lemma_step_closed(v, ri, counter as int);
        lemma_mat_run_closed(v2, ri, counter + 1, inferred + new, (fuel - 1) as nat);
        lemma_mat_run(v2, ri, counter + 1, inferred + new, (fuel - 1) as nat);
        let w = mat_run(v, ri, counter, inferred, fuel).unwrap().0;
        assert(w == mat_run(v2, ri, counter + 1, inferred + new, (fuel - 1) as nat).unwrap().0);
        assert(v.triples.is_prefix_of(w.triples)) by {
            assert forall|i: int| 0 <= i < v.triples.len() implies w.triples[i] == v.triples[i] by {
                assert(v2.triples[i] == v.triples[i]);
            }
        }
        assert forall|i: int| counter <= i < w.triples.len() implies #[trigger] step_closed(w, ri.rules, w.triples[i]) by {
            if i == counter {
                assert(w.triples[i] == u);
                assert(step_closed(v2, ri.rules, u));
                assert forall|j: int, x: Triple|
                    0 <= j < ri.rules.len() && #[trigger] single_instance(ri.rules[j], x) && same_codes(u, x) implies contains_spec(
                        w,
                        head_for(ri.rules[j], x),
                    ) by {
                    assert(contains_spec(v2, head_for(ri.rules[j], x)));
                }
            }
        }
    }
}

/// The stored triple that a contained triple stands for.
pub(crate) proof fn lemma_contained_stored(w: TripleIndexView, x: Triple) -> (i: int)
    requires
        osp_ok(w),
        contains_spec(w, x),
    ensures
        0 <= i < w.triples.len(),
        same_codes(w.triples[i], x),
{
    let b = entries(bucket_of(w.osp, code_of(x.o), code_of(x.s)));
    assert(bucket_sound(w, b, code_of(x.o), code_of(x.s)));
    let k = choose|k: int| 0 <= k < b.len() && #[trigger] b[k].0 == code_of(x.p);
    let i = b[k].1 as int;
    i
}

/// Materialization closes the index under the rules with one body pattern:
/// for every such rule and every instance of its pattern that the index
/// holds afterwards, the index holds the rule's head for that instance.
pub proof fn law_materialize_closed(v: TripleIndexView, ri: RuleIndexView, j: int, x: Triple)
    requires
        materializes(v, ri),
        osp_ok(v),
        index_ok(ri),
        complete(ri),
        0 <= j < ri.rules.len(),
        single_instance(ri.rules[j], x),
        contains_spec(mat_result(v, ri).0, x),
    ensures
        contains_spec(mat_result(v, ri).0, head_for(ri.rules[j], x)),
{
    let f = mat_fuel(v, ri);
    lemma_mat_run_closed(v, ri, 0, seq![], f);
    let w = mat_result(v, ri).0;
    let i = lemma_contained_stored(w, x);
    assert(step_closed(w, ri.rules, w.triples[i]));
}

} // verus!
