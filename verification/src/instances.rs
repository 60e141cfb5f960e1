//! What the index's queries and materialization compute.
//!
//! A query of a plain pattern (no graph, no repeated variable) finds exactly
//! the stored triples that are its instances: one row per such triple, and
//! no other row; the same holds of the rows of `query_help`.
//!
//! Materialization closes the index under every rule whose body patterns
//! are plain and whose head's variables occur in its body, whatever the
//! number of body patterns: the index it leaves holds the head of every rule
//! instance whose body it holds. Windowed materialization does so for the
//! instances that involve a triple it processed (a new one or one it
//! inferred). Materialization adds each triple once.
//!
//! The proofs rest on the three indexes standing for the stored triples
//! (`indexes_ok`) and on the join keeping the rows that agree.
use vstd::prelude::*;
use crate::triples::{Triple, RuleView, VarOrTerm, TermImpl, code_of};
use crate::tripleindex::{TripleIndexView, Entry, IndexView, bucket_of, entries, add_spec, ix_insert, empty_index,
    lemma_bucket_insert_exact, lemma_find_pos, graph_term, query_spec, inner_of, inners, pos_of, some_rows,
    contains_spec, counter_bound, scan_single, scan_pair, scan_inner, scan_triple, scan_subject, scan_all,
    lemma_adds_concat, scan_exact};
use crate::tripleindex::{EncodedBinding, help_single, help_pair, pair_row, help_inner, help_triple, help_subject,
    help_all, help_exact, query_help_spec};
use crate::store::add_triples_spec;
use crate::tripleindex::{law_contains_after_add, lemma_contains_after_add_other};
use crate::reasoner::{CsState, cs_step, cs_run, cs_total, cs_result, add_news, news_all, rule_news};
use crate::closure::{osp_ok, bucket_sound, has_entry, lemma_scan_exact_finds, lemma_specialize_contains,
    lemma_heads_contains, lemma_add_new_closed, lemma_contained_stored};
use crate::dred::same_codes;
use crate::bindings::{BindingView, adds_to, bind_add, bind_len, covers, distinct_keys, key_pos, lemma_key_pos,
    join_spec, all_pairs, matches_row, left_col, right_col, column, law_join_rows, law_join_pairs, law_get_after_add};
use crate::reasoner::{engine_from, pattern_match, match_elem, sub_row, sub_rows, sub_body, sub_rule,
    substitute_rule_from, head_row, head_rows, substitute_head_spec, mat_step, specialize_all, heads_all,
    engine_spec, add_new, substitute_rule_spec, mat_run, mat_result, mat_fuel, materializes, lemma_mat_run};
use crate::ruleindex::{pattern_matches, RuleIndexView, index_ok, complete, match_spec, rules_at, in_match, finds,
    lemma_in_match};

verus! {

/// The three codes of `t` in the order of index `kind`: subject, predicate,
/// object (0); predicate, object, subject (1); object, subject, predicate
/// (otherwise).
pub open spec fn keys_of(t: Triple, kind: int) -> (usize, usize, usize) {
    let s = code_of(t.s);
    let p = code_of(t.p);
    let o = code_of(t.o);
    if kind == 0 {
        (s, p, o)
    } else if kind == 1 {
        (p, o, s)
    } else {
        (o, s, p)
    }
}

/// Index `kind` of `v` (see `keys_of`).
pub open spec fn index_of(v: TripleIndexView, kind: int) -> IndexView {
    if kind == 0 {
        v.spo
    } else if kind == 1 {
        v.pos
    } else {
        v.osp
    }
}

/// The entries `b` under keys `k1` and `k2` of index `kind` name stored
/// triples with those keys and the entry's third code, in the order the
/// triples were stored.
pub open spec fn kind_sound(v: TripleIndexView, kind: int, b: Seq<Entry>, k1: usize, k2: usize) -> bool {
    &&& forall|k: int| 0 <= k < b.len() ==> {
        let i = (#[trigger] b[k]).1 as int;
        &&& i < v.triples.len()
        &&& keys_of(v.triples[i], kind) == (k1, k2, b[k].0)
    }
    &&& forall|k1: int, k2: int| 0 <= k1 < k2 < b.len() ==> (#[trigger] b[k1]).1 < (#[trigger] b[k2]).1
}

/// The stored triple at position `i` has its entry in index `kind`.
pub open spec fn kind_entry(v: TripleIndexView, kind: int, i: int) -> bool {
    let (k1, k2, c) = keys_of(v.triples[i], kind);
    let b = entries(bucket_of(index_of(v, kind), k1, k2));
    exists|k: int| 0 <= k < b.len() && (#[trigger] b[k]).0 == c && b[k].1 == i
}

/// No key occurs twice in a list of keyed values.
pub open spec fn unique_keys<X>(s: Seq<(usize, X)>) -> bool {
    forall|i: int, j: int| 0 <= i < j < s.len() ==> s[i].0 != s[j].0
}

/// No key occurs twice at either level of an index.
pub open spec fn unique_index(ix: IndexView) -> bool {
    &&& unique_keys(ix)
    &&& forall|i: int| 0 <= i < ix.len() ==> unique_keys(#[trigger] ix[i].1)
}

/// Index `kind` stands for the stored triples.
pub open spec fn kind_ok(v: TripleIndexView, kind: int) -> bool {
    &&& forall|k1: usize, k2: usize| #[trigger] kind_sound(v, kind, entries(bucket_of(index_of(v, kind), k1, k2)), k1, k2)
    &&& forall|i: int| 0 <= i < v.triples.len() ==> #[trigger] kind_entry(v, kind, i)
    &&& unique_index(index_of(v, kind))
}

/// Inserting keeps keys unique.
proof fn lemma_insert_unique(ix: IndexView, k1: usize, k2: usize, e: Entry)
    requires
        unique_index(ix),
    ensures
        unique_index(ix_insert(ix, k1, k2, e)),
{
    let p1 = pos_of(ix, k1);
    lemma_find_pos(ix, k1, 0);
    let ix2 = ix_insert(ix, k1, k2, e);
    if p1 < 0 {
        assert forall|i: int| 0 <= i < ix2.len() implies unique_keys(#[trigger] ix2[i].1) by {
            if i < ix.len() {
                assert(ix2[i] == ix[i]);
            }
        }
    } else {
        let inner = ix[p1].1;
        let p2 = pos_of(inner, k2);
        lemma_find_pos(inner, k2, 0);
        let inner2 = if p2 < 0 { inner.push((k2, seq![e])) } else { inner.update(p2, (k2, inner[p2].1.push(e))) };
        assert(unique_keys(inner));
        assert(unique_keys(inner2));
        assert forall|i: int| 0 <= i < ix2.len() implies unique_keys(#[trigger] ix2[i].1) by {
            if i != p1 {
                assert(ix2[i] == ix[i]);
            }
        }
    }
}

/// In a list with unique keys, a key is found where it stands.
proof fn lemma_pos_unique<X>(s: Seq<(usize, X)>, i: int)
    requires
        unique_keys(s),
        0 <= i < s.len(),
    ensures
        pos_of(s, s[i].0) == i,
{
    lemma_find_pos(s, s[i].0, 0);
}

/// The three indexes stand for the stored triples, and the counter is their
/// number.
pub open spec fn indexes_ok(v: TripleIndexView) -> bool {
    &&& v.counter == v.triples.len()
    &&& kind_ok(v, 0)
    &&& kind_ok(v, 1)
    &&& kind_ok(v, 2)
}

/// The object–subject index is the index of kind 2.
pub proof fn lemma_indexes_osp(v: TripleIndexView)
    requires
        indexes_ok(v),
    ensures
        osp_ok(v),
{
    assert forall|o: usize, s: usize| #[trigger] bucket_sound(v, entries(bucket_of(v.osp, o, s)), o, s) by {
        assert(kind_sound(v, 2, entries(bucket_of(index_of(v, 2), o, s)), o, s));
    }
    assert forall|i: int| 0 <= i < v.triples.len() implies #[trigger] has_entry(v, i) by {
        assert(kind_entry(v, 2, i));
    }
}

/// Adding a triple keeps index `kind` standing for the stored triples.
proof fn lemma_add_kind_ok(v: TripleIndexView, t: Triple, kind: int)
    requires
        kind_ok(v, kind),
        v.counter == v.triples.len(),
        v.counter < usize::MAX,
    ensures
        kind_ok(add_spec(v, t), kind),
{
    let w = add_spec(v, t);
    let (t1, t2, tc) = keys_of(t, kind);
    let e: Entry = (tc, v.counter, graph_term(t.g));
    let n = v.triples.len() as int;
    assert(w.triples == v.triples.push(t));
    assert(index_of(w, kind) == ix_insert(index_of(v, kind), t1, t2, e));
    lemma_insert_unique(index_of(v, kind), t1, t2, e);
    assert forall|k1: usize, k2: usize| #[trigger] kind_sound(w, kind, entries(bucket_of(index_of(w, kind), k1, k2)), k1, k2) by {
        lemma_bucket_insert_exact(index_of(v, kind), t1, t2, e, k1, k2);
        let b0 = entries(bucket_of(index_of(v, kind), k1, k2));
        assert(kind_sound(v, kind, b0, k1, k2));
        let b = entries(bucket_of(index_of(w, kind), k1, k2));
        if k1 == t1 && k2 == t2 {
            assert(b == b0.push(e));
            assert forall|k: int| 0 <= k < b.len() implies {
                let i = (#[trigger] b[k]).1 as int;
                &&& i < w.triples.len()
                &&& keys_of(w.triples[i], kind) == (k1, k2, b[k].0)
            } by {
                if k < b0.len() {
                    assert(b[k] == b0[k]);
                    assert(w.triples[b0[k].1 as int] == v.triples[b0[k].1 as int]);
                } else {
                    assert(b[k] == e);
                    assert(w.triples[n] == t);
                }
            }
            assert forall|x1: int, x2: int| 0 <= x1 < x2 < b.len() implies (#[trigger] b[x1]).1 < (#[trigger] b[x2]).1 by {
                assert(b[x1] == b0[x1]);
                if x2 < b0.len() {
                    assert(b[x2] == b0[x2]);
                } else {
                    assert(b[x2] == e);
                    assert(b0[x1].1 < n);
                }
            }
        } else {
            assert(b == b0);
            assert forall|k: int| 0 <= k < b.len() implies {
                let i = (#[trigger] b[k]).1 as int;
                &&& i < w.triples.len()
                &&& keys_of(w.triples[i], kind) == (k1, k2, b[k].0)
            } by {
                assert(w.triples[b0[k].1 as int] == v.triples[b0[k].1 as int]);
            }
        }
    }
    assert forall|i: int| 0 <= i < w.triples.len() implies #[trigger] kind_entry(w, kind, i) by {
        let u = w.triples[i];
        let (u1, u2, uc) = keys_of(u, kind);
        lemma_bucket_insert_exact(index_of(v, kind), t1, t2, e, u1, u2);
        let b = entries(bucket_of(index_of(w, kind), u1, u2));
        if i < n {
            assert(u == v.triples[i]);
            assert(kind_entry(v, kind, i));
            let b0 = entries(bucket_of(index_of(v, kind), u1, u2));
            let k = choose|k: int| 0 <= k < b0.len() && (#[trigger] b0[k]).0 == uc && b0[k].1 == i;
            if u1 == t1 && u2 == t2 {
                assert(b == b0.push(e));
                assert(b[k] == b0[k]);
            } else {
                assert(b[k] == b0[k]);
            }
        } else {
            assert(u == t);
            assert(b == entries(bucket_of(index_of(v, kind), t1, t2)).push(e));
            assert(b[b.len() - 1] == e);
        }
    }
}

/// Adding a triple keeps the three indexes standing for the stored triples.
pub proof fn lemma_add_indexes_ok(v: TripleIndexView, t: Triple)
    requires
        indexes_ok(v),
        v.counter < usize::MAX,
    ensures
        indexes_ok(add_spec(v, t)),
{
    lemma_add_kind_ok(v, t, 0);
    lemma_add_kind_ok(v, t, 1);
    lemma_add_kind_ok(v, t, 2);
}

/// An index filled by adding triples to an empty one has indexes that stand
/// for its triples.
pub proof fn law_added_indexes_ok(ts: Seq<Triple>)
    requires
        ts.len() < usize::MAX,
    ensures
        indexes_ok(add_triples_spec(empty_index(), ts)),
        add_triples_spec(empty_index(), ts).triples == ts,
    decreases ts.len(),
{
    if ts.len() == 0 {
        let v = empty_index();
        assert forall|kind: int, k1: usize, k2: usize| #[trigger] kind_sound(v, kind, entries(bucket_of(index_of(v, kind), k1, k2)), k1, k2) by {
            lemma_find_pos(index_of(v, kind), k1, 0);
        }
        assert(unique_index(index_of(v, 0)) && unique_index(index_of(v, 1)) && unique_index(index_of(v, 2)));
        assert(v.triples =~= ts);
    } else {
        law_added_indexes_ok(ts.drop_last());
        lemma_add_indexes_ok(add_triples_spec(empty_index(), ts.drop_last()), ts.last());
        assert(ts.drop_last().push(ts.last()) =~= ts);
    }
}


/// Whether `c` is empty or has exactly the columns of the variables `vs`, in
/// order, all as long as the first and not empty.
pub open spec fn shaped(c: BindingView, vs: Seq<usize>) -> bool {
    c.len() == 0 || (c.len() == vs.len() && c[0].1.len() > 0 && forall|i: int|
        0 <= i < c.len() ==> (#[trigger] c[i]).0 == vs[i] && c[i].1.len() == c[0].1.len())
}

/// `n` columns of one length.
pub open spec fn rect(cols: Seq<Seq<usize>>, n: nat) -> bool {
    cols.len() == n && forall|i: int| 0 <= i < n ==> (#[trigger] cols[i]).len() == cols[0].len()
}

/// The binding `c` (empty, or with the columns `vs`) with the columns
/// `cols` appended to those of `vs`.
pub open spec fn ext(c: BindingView, vs: Seq<usize>, cols: Seq<Seq<usize>>) -> BindingView {
    if c.len() == 0 {
        if cols.len() == 0 || cols[0].len() == 0 {
            seq![]
        } else {
            Seq::new(vs.len(), |i: int| (vs[i], cols[i]))
        }
    } else {
        Seq::new(vs.len(), |i: int| (vs[i], c[i].1 + cols[i]))
    }
}

/// Columns appended to columns, one by one.
pub open spec fn cat(x: Seq<Seq<usize>>, y: Seq<Seq<usize>>) -> Seq<Seq<usize>> {
    Seq::new(x.len(), |i: int| x[i] + y[i])
}

/// The pairs of the variables `vs` and the values `vals`.
pub open spec fn zip(vs: Seq<usize>, vals: Seq<usize>) -> Seq<(usize, usize)> {
    Seq::new(vs.len(), |i: int| (vs[i], vals[i]))
}

/// No variable occurs twice in `vs`.
pub open spec fn distinct_vars(vs: Seq<usize>) -> bool {
    forall|i: int, j: int| 0 <= i < j < vs.len() ==> vs[i] != vs[j]
}

proof fn lemma_row_prefix(c: BindingView, vs: Seq<usize>, vals: Seq<usize>, j: int)
    requires
        shaped(c, vs),
        distinct_vars(vs),
        vals.len() == vs.len(),
        0 <= j <= vs.len(),
    ensures
        adds_to(c, zip(vs, vals).take(j)) == (if c.len() == 0 {
            Seq::new(j as nat, |i: int| (vs[i], seq![vals[i]]))
        } else {
            Seq::new(vs.len(), |i: int| (vs[i], if i < j { c[i].1.push(vals[i]) } else { c[i].1 }))
        }),
    decreases j,
{
    let z = zip(vs, vals);
    if j == 0 {
        assert(z.take(0) =~= Seq::<(usize, usize)>::empty());
        if c.len() == 0 {
            assert(c =~= Seq::new(0, |i: int| (vs[i], seq![vals[i]])));
        } else {
            assert(c =~= Seq::new(vs.len(), |i: int| (vs[i], if i < 0 { c[i].1.push(vals[i]) } else { c[i].1 })));
        }
    } else {
        lemma_row_prefix(c, vs, vals, j - 1);
        assert(z.take(j).drop_last() =~= z.take(j - 1));
        let x = adds_to(c, z.take(j - 1));
        assert(adds_to(c, z.take(j)) == bind_add(x, vs[j - 1], vals[j - 1]));
        lemma_key_pos(x, vs[j - 1]);
        if c.len() == 0 {
            assert forall|t: int| 0 <= t < x.len() implies x[t].0 != vs[j - 1] by {}
            assert(bind_add(x, vs[j - 1], vals[j - 1]) =~= Seq::new(j as nat, |i: int| (vs[i], seq![vals[i]])));
        } else {
            assert(distinct_keys(x));
            assert(x[j - 1].0 == vs[j - 1]);
            assert(key_pos(x, vs[j - 1]) == j - 1);
            assert(bind_add(x, vs[j - 1], vals[j - 1]) =~= Seq::new(
                vs.len(),
                |i: int| (vs[i], if i < j { c[i].1.push(vals[i]) } else { c[i].1 }),
            ));
        }
    }
}

/// Adding one value for each variable of `vs` appends a row.
proof fn lemma_row(c: BindingView, vs: Seq<usize>, vals: Seq<usize>)
    requires
        shaped(c, vs),
        distinct_vars(vs),
        vals.len() == vs.len(),
        vs.len() > 0,
    ensures
        adds_to(c, zip(vs, vals)) == ext(c, vs, Seq::new(vs.len(), |i: int| seq![vals[i]])),
        shaped(adds_to(c, zip(vs, vals)), vs),
{
    lemma_row_prefix(c, vs, vals, vs.len() as int);
    assert(zip(vs, vals).take(vs.len() as int) =~= zip(vs, vals));
    let cols = Seq::new(vs.len(), |i: int| seq![vals[i]]);
    if c.len() == 0 {
        assert(Seq::new(vs.len(), |i: int| (vs[i], seq![vals[i]])) =~= ext(c, vs, cols));
    } else {
        assert forall|i: int| 0 <= i < vs.len() implies c[i].1.push(vals[i]) == c[i].1 + cols[i] by {
            assert(c[i].1.push(vals[i]) =~= c[i].1 + cols[i]);
        }
        assert(Seq::new(vs.len(), |i: int| (vs[i], if i < vs.len() { c[i].1.push(vals[i]) } else { c[i].1 }))
            =~= ext(c, vs, cols));
    }
}

/// Appending columns twice appends them joined.
proof fn lemma_ext_cat(c: BindingView, vs: Seq<usize>, x: Seq<Seq<usize>>, y: Seq<Seq<usize>>)
    requires
        shaped(c, vs),
        vs.len() > 0,
        rect(x, vs.len()),
        rect(y, vs.len()),
    ensures
        ext(ext(c, vs, x), vs, y) == ext(c, vs, cat(x, y)),
        shaped(ext(c, vs, x), vs),
        rect(cat(x, y), vs.len()),
{
    let e = ext(c, vs, x);
    let z = cat(x, y);
    if c.len() == 0 && x[0].len() == 0 {
        assert forall|i: int| 0 <= i < vs.len() implies z[i] == y[i] by {
            assert(x[i] =~= Seq::<usize>::empty());
            assert(z[i] =~= y[i]);
        }
        assert(z =~= y);
    } else if c.len() == 0 {
        assert(ext(e, vs, y) =~= ext(c, vs, z));
    } else {
        assert forall|i: int| 0 <= i < vs.len() implies (#[trigger] ext(e, vs, y)[i]) == ext(c, vs, z)[i] by {
            assert(c[i].1 + x[i] + y[i] =~= c[i].1 + (x[i] + y[i]));
        }
        assert(ext(e, vs, y) =~= ext(c, vs, z));
    }
}

/// The third codes of the entries up to the first one stored after `check`.
pub open spec fn entry_vals(b: Seq<Entry>, check: usize) -> Seq<usize>
    decreases b.len(),
{
    if b.len() == 0 || b[0].1 > check {
        seq![]
    } else {
        seq![b[0].0] + entry_vals(b.drop_first(), check)
    }
}

/// `n` copies of `x`.
pub open spec fn rep(x: usize, n: nat) -> Seq<usize> {
    Seq::new(n, |i: int| x)
}

proof fn lemma_scan_single(b: Seq<Entry>, var: usize, check: usize, c: BindingView)
    requires
        shaped(c, seq![var]),
    ensures
        adds_to(c, scan_single(b, var, None, check)) == ext(c, seq![var], seq![entry_vals(b, check)]),
    decreases b.len(),
{
    let vs = seq![var];
    if b.len() == 0 || b[0].1 > check {
        if c.len() > 0 {
            assert(ext(c, vs, seq![entry_vals(b, check)]) =~= c);
        }
    } else {
        let row = zip(vs, seq![b[0].0]);
        assert(scan_single(b, var, None, check) == row + scan_single(b.drop_first(), var, None, check));
        lemma_adds_concat(c, row, scan_single(b.drop_first(), var, None, check));
        lemma_row(c, vs, seq![b[0].0]);
        let x = Seq::new(1, |i: int| seq![seq![b[0].0][i]]);
        let y = seq![entry_vals(b.drop_first(), check)];
        lemma_scan_single(b.drop_first(), var, check, adds_to(c, row));
        lemma_ext_cat(c, vs, x, y);
        assert(cat(x, y) =~= seq![entry_vals(b, check)]);
    }
}

proof fn lemma_scan_pair(b: Seq<Entry>, kvar: usize, key: usize, vvar: usize, check: usize, c: BindingView)
    requires
        kvar != vvar,
        shaped(c, seq![kvar, vvar]),
    ensures
        adds_to(c, scan_pair(b, kvar, key, vvar, None, check)) == ext(
            c,
            seq![kvar, vvar],
            seq![rep(key, entry_vals(b, check).len()), entry_vals(b, check)],
        ),
    decreases b.len(),
{
    let vs = seq![kvar, vvar];
    if b.len() == 0 || b[0].1 > check {
        if c.len() > 0 {
            assert(ext(c, vs, seq![rep(key, 0), entry_vals(b, check)]) =~= c);
        }
    } else {
        let row = zip(vs, seq![key, b[0].0]);
        assert(scan_pair(b, kvar, key, vvar, None, check) == row + scan_pair(b.drop_first(), kvar, key, vvar, None, check));
        lemma_adds_concat(c, row, scan_pair(b.drop_first(), kvar, key, vvar, None, check));
        lemma_row(c, vs, seq![key, b[0].0]);
        let x = Seq::new(2, |i: int| seq![seq![key, b[0].0][i]]);
        let r = entry_vals(b.drop_first(), check);
        let y = seq![rep(key, r.len()), r];
        lemma_scan_pair(b.drop_first(), kvar, key, vvar, check, adds_to(c, row));
        lemma_ext_cat(c, vs, x, y);
        let ev = entry_vals(b, check);
        assert(ev == seq![b[0].0] + r);
        assert(cat(x, y)[0] =~= rep(key, ev.len()));
        assert(cat(x, y)[1] =~= ev);
        assert(cat(x, y) =~= seq![rep(key, ev.len()), ev]);
    }
}

proof fn lemma_scan_triple(
    b: Seq<Entry>,
    s: usize,
    skey: usize,
    p: usize,
    pkey: usize,
    o: usize,
    check: usize,
    c: BindingView,
)
    requires
        s != p && p != o && s != o,
        shaped(c, seq![s, p, o]),
    ensures
        adds_to(c, scan_triple(b, s, skey, p, pkey, o, None, check)) == ext(
            c,
            seq![s, p, o],
            seq![rep(skey, entry_vals(b, check).len()), rep(pkey, entry_vals(b, check).len()), entry_vals(b, check)],
        ),
    decreases b.len(),
{
    let vs = seq![s, p, o];
    if b.len() == 0 || b[0].1 > check {
        if c.len() > 0 {
            assert(ext(c, vs, seq![rep(skey, 0), rep(pkey, 0), entry_vals(b, check)]) =~= c);
        }
    } else {
        let row = zip(vs, seq![skey, pkey, b[0].0]);
        assert(scan_triple(b, s, skey, p, pkey, o, None, check) == row + scan_triple(
            b.drop_first(),
            s,
            skey,
            p,
            pkey,
            o,
            None,
            check,
        ));
        lemma_adds_concat(c, row, scan_triple(b.drop_first(), s, skey, p, pkey, o, None, check));
        lemma_row(c, vs, seq![skey, pkey, b[0].0]);
        let x = Seq::new(3, |i: int| seq![seq![skey, pkey, b[0].0][i]]);
        let r = entry_vals(b.drop_first(), check);
        let y = seq![rep(skey, r.len()), rep(pkey, r.len()), r];
        lemma_scan_triple(b.drop_first(), s, skey, p, pkey, o, check, adds_to(c, row));
        lemma_ext_cat(c, vs, x, y);
        let ev = entry_vals(b, check);
        assert(ev == seq![b[0].0] + r);
        assert(cat(x, y)[0] =~= rep(skey, ev.len()));
        assert(cat(x, y)[1] =~= rep(pkey, ev.len()));
        assert(cat(x, y)[2] =~= ev);
        assert(cat(x, y) =~= seq![rep(skey, ev.len()), rep(pkey, ev.len()), ev]);
    }
}

/// The second keys of `inner`, one for each entry that a scan up to
/// `check` reads under it.
pub open spec fn inner_keys(inner: Seq<(usize, Seq<Entry>)>, check: usize) -> Seq<usize>
    decreases inner.len(),
{
    if inner.len() == 0 {
        seq![]
    } else {
        inner_keys(inner.drop_last(), check) + rep(inner.last().0, entry_vals(inner.last().1, check).len())
    }
}

/// The third codes that a scan of `inner` up to `check` reads.
pub open spec fn inner_vals(inner: Seq<(usize, Seq<Entry>)>, check: usize) -> Seq<usize>
    decreases inner.len(),
{
    if inner.len() == 0 {
        seq![]
    } else {
        inner_vals(inner.drop_last(), check) + entry_vals(inner.last().1, check)
    }
}

/// The first keys of `ix`, one for each entry that a scan up to `check`
/// reads under it.
pub open spec fn all_keys(ix: IndexView, check: usize) -> Seq<usize>
    decreases ix.len(),
{
    if ix.len() == 0 {
        seq![]
    } else {
        all_keys(ix.drop_last(), check) + rep(ix.last().0, inner_vals(ix.last().1, check).len())
    }
}

/// The second keys of `ix`, one for each entry that a scan up to `check`
/// reads under it.
pub open spec fn all_mid(ix: IndexView, check: usize) -> Seq<usize>
    decreases ix.len(),
{
    if ix.len() == 0 {
        seq![]
    } else {
        all_mid(ix.drop_last(), check) + inner_keys(ix.last().1, check)
    }
}

/// The third codes that a scan of `ix` up to `check` reads.
pub open spec fn all_vals(ix: IndexView, check: usize) -> Seq<usize>
    decreases ix.len(),
{
    if ix.len() == 0 {
        seq![]
    } else {
        all_vals(ix.drop_last(), check) + inner_vals(ix.last().1, check)
    }
}

proof fn lemma_inner_lens(inner: Seq<(usize, Seq<Entry>)>, check: usize)
    ensures
        inner_keys(inner, check).len() == inner_vals(inner, check).len(),
    decreases inner.len(),
{
    if inner.len() > 0 {
        lemma_inner_lens(inner.drop_last(), check);
    }
}

proof fn lemma_all_lens(ix: IndexView, check: usize)
    ensures
        all_keys(ix, check).len() == all_vals(ix, check).len(),
        all_mid(ix, check).len() == all_vals(ix, check).len(),
    decreases ix.len(),
{
    if ix.len() > 0 {
        lemma_all_lens(ix.drop_last(), check);
        lemma_inner_lens(ix.last().1, check);
    }
}

proof fn lemma_scan_inner(inner: Seq<(usize, Seq<Entry>)>, kvar: usize, vvar: usize, check: usize, c: BindingView)
    requires
        kvar != vvar,
        shaped(c, seq![kvar, vvar]),
    ensures
        adds_to(c, scan_inner(inner, kvar, vvar, None, check)) == ext(
            c,
            seq![kvar, vvar],
            seq![inner_keys(inner, check), inner_vals(inner, check)],
        ),
    decreases inner.len(),
{
    let vs = seq![kvar, vvar];
    if inner.len() == 0 {
        if c.len() > 0 {
            assert(ext(c, vs, seq![inner_keys(inner, check), inner_vals(inner, check)]) =~= c);
        }
    } else {
        let dl = inner.drop_last();
        let last = inner.last();
        lemma_scan_inner(dl, kvar, vvar, check, c);
        lemma_inner_lens(dl, check);
        let x = seq![inner_keys(dl, check), inner_vals(dl, check)];
        let r = entry_vals(last.1, check);
        let y = seq![rep(last.0, r.len()), r];
        lemma_ext_cat(c, vs, x, y);
        lemma_adds_concat(c, scan_inner(dl, kvar, vvar, None, check), scan_pair(last.1, kvar, last.0, vvar, None, check));
        lemma_scan_pair(last.1, kvar, last.0, vvar, check, ext(c, vs, x));
        assert(cat(x, y) =~= seq![inner_keys(inner, check), inner_vals(inner, check)]);
    }
}

proof fn lemma_scan_subject(
    inner: Seq<(usize, Seq<Entry>)>,
    s: usize,
    skey: usize,
    p: usize,
    o: usize,
    check: usize,
    c: BindingView,
)
    requires
        s != p && p != o && s != o,
        shaped(c, seq![s, p, o]),
    ensures
        adds_to(c, scan_subject(inner, s, skey, p, o, None, check)) == ext(
            c,
            seq![s, p, o],
            seq![rep(skey, inner_vals(inner, check).len()), inner_keys(inner, check), inner_vals(inner, check)],
        ),
    decreases inner.len(),
{
    let vs = seq![s, p, o];
    if inner.len() == 0 {
        if c.len() > 0 {
            assert(ext(c, vs, seq![rep(skey, 0), inner_keys(inner, check), inner_vals(inner, check)]) =~= c);
        }
    } else {
        let dl = inner.drop_last();
        let last = inner.last();
        lemma_scan_subject(dl, s, skey, p, o, check, c);
        lemma_inner_lens(dl, check);
        lemma_inner_lens(inner, check);
        let x = seq![rep(skey, inner_vals(dl, check).len()), inner_keys(dl, check), inner_vals(dl, check)];
        let r = entry_vals(last.1, check);
        let y = seq![rep(skey, r.len()), rep(last.0, r.len()), r];
        lemma_ext_cat(c, vs, x, y);
        lemma_adds_concat(c, scan_subject(dl, s, skey, p, o, None, check), scan_triple(last.1, s, skey, p, last.0, o, None, check));
        lemma_scan_triple(last.1, s, skey, p, last.0, o, check, ext(c, vs, x));
        assert(cat(x, y)[0] =~= rep(skey, inner_vals(inner, check).len()));
        assert(cat(x, y) =~= seq![rep(skey, inner_vals(inner, check).len()), inner_keys(inner, check), inner_vals(inner, check)]);
    }
}

proof fn lemma_scan_all(ix: IndexView, s: usize, p: usize, o: usize, check: usize, c: BindingView)
    requires
        s != p && p != o && s != o,
        shaped(c, seq![s, p, o]),
    ensures
        adds_to(c, scan_all(ix, s, p, o, None, check)) == ext(
            c,
            seq![s, p, o],
            seq![all_keys(ix, check), all_mid(ix, check), all_vals(ix, check)],
        ),
    decreases ix.len(),
{
    let vs = seq![s, p, o];
    if ix.len() == 0 {
        if c.len() > 0 {
            assert(ext(c, vs, seq![all_keys(ix, check), all_mid(ix, check), all_vals(ix, check)]) =~= c);
        }
    } else {
        let dl = ix.drop_last();
        let last = ix.last();
        lemma_scan_all(dl, s, p, o, check, c);
        lemma_all_lens(dl, check);
        lemma_inner_lens(last.1, check);
        let x = seq![all_keys(dl, check), all_mid(dl, check), all_vals(dl, check)];
        let y = seq![rep(last.0, inner_vals(last.1, check).len()), inner_keys(last.1, check), inner_vals(last.1, check)];
        lemma_ext_cat(c, vs, x, y);
        lemma_adds_concat(c, scan_all(dl, s, p, o, None, check), scan_subject(last.1, s, last.0, p, o, None, check));
        lemma_scan_subject(last.1, s, last.0, p, o, check, ext(c, vs, x));
        assert(cat(x, y) =~= seq![all_keys(ix, check), all_mid(ix, check), all_vals(ix, check)]);
    }
}

/// Entries in the order of storing.
pub open spec fn sorted_entries(b: Seq<Entry>) -> bool {
    forall|k1: int, k2: int| 0 <= k1 < k2 < b.len() ==> (#[trigger] b[k1]).1 < (#[trigger] b[k2]).1
}

proof fn lemma_ev_at(b: Seq<Entry>, check: usize, k: int)
    requires
        0 <= k < b.len(),
        b[k].1 <= check,
        sorted_entries(b),
    ensures
        k < entry_vals(b, check).len(),
        entry_vals(b, check)[k] == b[k].0,
    decreases k,
{
    if k > 0 {
        assert(b[0].1 < b[k].1);
        let r = b.drop_first();
        assert(r[k - 1] == b[k]);
        assert forall|k1: int, k2: int| 0 <= k1 < k2 < r.len() implies (#[trigger] r[k1]).1 < (#[trigger] r[k2]).1 by {
            assert(r[k1] == b[k1 + 1] && r[k2] == b[k2 + 1]);
        }
        lemma_ev_at(r, check, k - 1);
    }
}

proof fn lemma_inner_at(inner: Seq<(usize, Seq<Entry>)>, check: usize, pos: int, k: int) -> (r: int)
    requires
        0 <= pos < inner.len(),
        0 <= k < inner[pos].1.len(),
        inner[pos].1[k].1 <= check,
        sorted_entries(inner[pos].1),
    ensures
        0 <= r < inner_vals(inner, check).len(),
        inner_keys(inner, check)[r] == inner[pos].0,
        inner_vals(inner, check)[r] == inner[pos].1[k].0,
    decreases inner.len(),
{
    let dl = inner.drop_last();
    lemma_inner_lens(dl, check);
    if pos == inner.len() - 1 {
        lemma_ev_at(inner[pos].1, check, k);
        inner_vals(dl, check).len() + k
    } else {
        assert(dl[pos] == inner[pos]);
        let r = lemma_inner_at(dl, check, pos, k);
        r
    }
}

proof fn lemma_all_at(ix: IndexView, check: usize, p1: int, p2: int, k: int) -> (r: int)
    requires
        0 <= p1 < ix.len(),
        0 <= p2 < ix[p1].1.len(),
        0 <= k < ix[p1].1[p2].1.len(),
        ix[p1].1[p2].1[k].1 <= check,
        sorted_entries(ix[p1].1[p2].1),
    ensures
        0 <= r < all_vals(ix, check).len(),
        all_keys(ix, check)[r] == ix[p1].0,
        all_mid(ix, check)[r] == ix[p1].1[p2].0,
        all_vals(ix, check)[r] == ix[p1].1[p2].1[k].0,
    decreases ix.len(),
{
    let dl = ix.drop_last();
    lemma_all_lens(dl, check);
    if p1 == ix.len() - 1 {
        let r0 = lemma_inner_at(ix[p1].1, check, p2, k);
        lemma_inner_lens(ix[p1].1, check);
        all_vals(dl, check).len() + r0
    } else {
        assert(dl[p1] == ix[p1]);
        let r = lemma_all_at(dl, check, p1, p2, k);
        r
    }
}

/// An element with a variable replaced by its value under `sg`.
pub open spec fn inst_elem(x: VarOrTerm, sg: Map<usize, usize>) -> VarOrTerm {
    match x {
        VarOrTerm::Var(v) => VarOrTerm::Term(TermImpl { iri: sg[v.name] }),
        VarOrTerm::Term(_) => x,
    }
}

/// The triple that pattern `q` gives under `sg` (without a graph).
pub open spec fn inst(q: Triple, sg: Map<usize, usize>) -> Triple {
    Triple { s: inst_elem(q.s, sg), p: inst_elem(q.p, sg), o: inst_elem(q.o, sg), g: None }
}

/// `sg` gives the variable of `x`, if any, a value.
pub open spec fn binds_elem(x: VarOrTerm, sg: Map<usize, usize>) -> bool {
    x matches VarOrTerm::Var(v) ==> sg.contains_key(v.name)
}

/// `sg` gives every variable of `q` a value.
pub open spec fn binds(q: Triple, sg: Map<usize, usize>) -> bool {
    binds_elem(q.s, sg) && binds_elem(q.p, sg) && binds_elem(q.o, sg)
}

/// A pattern without a graph and without a variable repeated.
pub open spec fn plain_pattern(q: Triple) -> bool {
    &&& q.g is None
    &&& (q.s is Var && q.p is Var ==> code_of(q.s) != code_of(q.p))
    &&& (q.p is Var && q.o is Var ==> code_of(q.p) != code_of(q.o))
    &&& (q.s is Var && q.o is Var ==> code_of(q.s) != code_of(q.o))
}

/// A pattern made of terms.
pub open spec fn ground(q: Triple) -> bool {
    q.s is Term && q.p is Term && q.o is Term
}

/// Row `k` of `c` gives every variable of `c` its value under `sg`.
pub open spec fn row_agrees(c: BindingView, k: int, sg: Map<usize, usize>) -> bool {
    forall|t: int|
        0 <= t < c.len() ==> k < (#[trigger] c[t]).1.len() && sg.contains_key(c[t].0) && c[t].1[k] == sg[c[t].0]
}

/// `c` is the answer of a ground pattern (no column), or has rows, one of
/// them agreeing with `sg`.
pub open spec fn has_row(c: BindingView, sg: Map<usize, usize>) -> bool {
    ||| c.len() == 0
    ||| {
        &&& bind_len(c) > 0
        &&& covers(c)
        &&& distinct_keys(c)
        &&& exists|k: int| 0 <= k < bind_len(c) && #[trigger] row_agrees(c, k, sg)
    }
}

/// The entry of the stored triple at `i` in index `kind`.
proof fn lemma_entry_of(v: TripleIndexView, kind: int, i: int) -> (k: int)
    requires
        kind_ok(v, kind),
        0 <= i < v.triples.len(),
    ensures
        ({
            let (k1, k2, c) = keys_of(v.triples[i], kind);
            let b = entries(bucket_of(index_of(v, kind), k1, k2));
            &&& 0 <= k < b.len()
            &&& b[k].0 == c
            &&& b[k].1 == i
            &&& sorted_entries(b)
            &&& bucket_of(index_of(v, kind), k1, k2) is Some
        }),
{
    assert(kind_entry(v, kind, i));
    let (k1, k2, c) = keys_of(v.triples[i], kind);
    let b = entries(bucket_of(index_of(v, kind), k1, k2));
    assert(kind_sound(v, kind, b, k1, k2));
    let k = choose|k: int| 0 <= k < b.len() && (#[trigger] b[k]).0 == c && b[k].1 == i;
    k
}

/// A bucket that exists sits in the second-level list of its first key.
proof fn lemma_bucket_place(ix: IndexView, k1: usize, k2: usize)
    requires
        bucket_of(ix, k1, k2) is Some,
    ensures
        0 <= pos_of(ix, k1) < ix.len(),
        ix[pos_of(ix, k1)].0 == k1,
        inner_of(ix, k1) == Some(ix[pos_of(ix, k1)].1),
        0 <= pos_of(inners(inner_of(ix, k1)), k2) < inners(inner_of(ix, k1)).len(),
        inners(inner_of(ix, k1))[pos_of(inners(inner_of(ix, k1)), k2)].0 == k2,
        inners(inner_of(ix, k1))[pos_of(inners(inner_of(ix, k1)), k2)].1 == bucket_of(ix, k1, k2).unwrap(),
{
    lemma_find_pos(ix, k1, 0);
    lemma_find_pos(inners(inner_of(ix, k1)), k2, 0);
}

/// A pattern with one variable finds the stored triple at `i`.
proof fn lemma_query_one(v: TripleIndexView, kind: int, var: usize, check: usize, i: int, sg: Map<usize, usize>)
    requires
        kind_ok(v, kind),
        0 <= i < v.triples.len(),
        i <= check,
        sg.contains_key(var),
        keys_of(v.triples[i], kind).2 == sg[var],
    ensures
        ({
            let (k1, k2, c) = keys_of(v.triples[i], kind);
            let r = some_rows(scan_single(entries(bucket_of(index_of(v, kind), k1, k2)), var, None, check));
            r is Some && has_row(r.unwrap(), sg)
        }),
{
    let (k1, k2, cv) = keys_of(v.triples[i], kind);
    let b = entries(bucket_of(index_of(v, kind), k1, k2));
    let k = lemma_entry_of(v, kind, i);
    lemma_ev_at(b, check, k);
    lemma_scan_single(b, var, check, seq![]);
    let ev = entry_vals(b, check);
    let c = adds_to(seq![], scan_single(b, var, None, check));
    assert(c == seq![(var, ev)]) by {
        assert(ext(seq![], seq![var], seq![ev]) =~= seq![(var, ev)]);
    }
    assert(row_agrees(c, k, sg));
    assert(distinct_keys(c));
}

/// A pattern with two variables finds the stored triple at `i`.
proof fn lemma_query_two(v: TripleIndexView, kind: int, kvar: usize, vvar: usize, check: usize, i: int, sg: Map<usize, usize>)
    requires
        kind_ok(v, kind),
        0 <= i < v.triples.len(),
        i <= check,
        kvar != vvar,
        sg.contains_key(kvar),
        sg.contains_key(vvar),
        keys_of(v.triples[i], kind).1 == sg[kvar],
        keys_of(v.triples[i], kind).2 == sg[vvar],
    ensures
        ({
            let k1 = keys_of(v.triples[i], kind).0;
            let r = some_rows(scan_inner(inners(inner_of(index_of(v, kind), k1)), kvar, vvar, None, check));
            r is Some && has_row(r.unwrap(), sg)
        }),
{
    let (k1, k2, cv) = keys_of(v.triples[i], kind);
    let ix = index_of(v, kind);
    let k = lemma_entry_of(v, kind, i);
    lemma_bucket_place(ix, k1, k2);
    let inner = inners(inner_of(ix, k1));
    let pos = pos_of(inner, k2);
    let r = lemma_inner_at(inner, check, pos, k);
    lemma_scan_inner(inner, kvar, vvar, check, seq![]);
    lemma_inner_lens(inner, check);
    let ik = inner_keys(inner, check);
    let iv = inner_vals(inner, check);
    let c = adds_to(seq![], scan_inner(inner, kvar, vvar, None, check));
    assert(c == seq![(kvar, ik), (vvar, iv)]) by {
        assert(ext(seq![], seq![kvar, vvar], seq![ik, iv]) =~= seq![(kvar, ik), (vvar, iv)]);
    }
    assert(row_agrees(c, r, sg));
    assert(distinct_keys(c));
}

/// A pattern with three variables finds the stored triple at `i`.
proof fn lemma_query_three(v: TripleIndexView, s: usize, p: usize, o: usize, check: usize, i: int, sg: Map<usize, usize>)
    requires
        kind_ok(v, 0),
        0 <= i < v.triples.len(),
        i <= check,
        s != p && p != o && s != o,
        sg.contains_key(s),
        sg.contains_key(p),
        sg.contains_key(o),
        keys_of(v.triples[i], 0) == (sg[s], sg[p], sg[o]),
    ensures
        some_rows(scan_all(v.spo, s, p, o, None, check)) is Some,
        has_row(some_rows(scan_all(v.spo, s, p, o, None, check)).unwrap(), sg),
{
    let (k1, k2, cv) = keys_of(v.triples[i], 0);
    let ix = v.spo;
    let k = lemma_entry_of(v, 0, i);
    lemma_bucket_place(ix, k1, k2);
    let p1 = pos_of(ix, k1);
    let inner = ix[p1].1;
    let p2 = pos_of(inner, k2);
    let r = lemma_all_at(ix, check, p1, p2, k);
    lemma_scan_all(ix, s, p, o, check, seq![]);
    lemma_all_lens(ix, check);
    let a1 = all_keys(ix, check);
    let a2 = all_mid(ix, check);
    let a3 = all_vals(ix, check);
    let c = adds_to(seq![], scan_all(ix, s, p, o, None, check));
    assert(c == seq![(s, a1), (p, a2), (o, a3)]) by {
        assert(ext(seq![], seq![s, p, o], seq![a1, a2, a3]) =~= seq![(s, a1), (p, a2), (o, a3)]);
    }
    assert(row_agrees(c, r, sg));
    assert(distinct_keys(c));
}

/// Every query finds the stored triples that match it: answering a plain
/// pattern, counting entries up to `check`, when a triple stored at or
/// before `check` is the pattern's instance under `sg` (by codes), gives a
/// binding with a row that agrees with `sg` (no column when the pattern has
/// no variable).
pub proof fn law_query_finds(v: TripleIndexView, q: Triple, check: usize, i: int, sg: Map<usize, usize>)
    requires
        indexes_ok(v),
        plain_pattern(q),
        binds(q, sg),
        0 <= i < v.triples.len(),
        i <= check,
        same_codes(v.triples[i], inst(q, sg)),
    ensures
        query_spec(v, q, check) is Some,
        has_row(query_spec(v, q, check).unwrap(), sg),
        !ground(q) ==> bind_len(query_spec(v, q, check).unwrap()) > 0,
{
    let t = v.triples[i];
    let s = code_of(q.s);
    let p = code_of(q.p);
    let o = code_of(q.o);
    if q.s is Var && q.p is Term && q.o is Term {
        lemma_query_one(v, 1, s, check, i, sg);
    } else if q.s is Term && q.p is Var && q.o is Term {
        lemma_query_one(v, 2, p, check, i, sg);
    } else if q.s is Term && q.p is Term && q.o is Var {
        lemma_query_one(v, 0, o, check, i, sg);
    } else if q.s is Var && q.p is Var && q.o is Term {
        lemma_query_two(v, 2, s, p, check, i, sg);
    } else if q.s is Term && q.p is Var && q.o is Var {
        lemma_query_two(v, 0, p, o, check, i, sg);
    } else if q.s is Var && q.p is Term && q.o is Var {
        lemma_query_two(v, 1, o, s, check, i, sg);
    } else if q.s is Var && q.p is Var && q.o is Var {
        lemma_query_three(v, s, p, o, check, i, sg);
    } else {
        let k = lemma_entry_of(v, 2, i);
        let b = entries(bucket_of(v.osp, o, s));
        lemma_scan_exact_finds(b, p, check, k);
        assert(adds_to(seq![], Seq::<(usize, usize)>::empty()) == Seq::<(usize, Seq<usize>)>::empty());
    }
}

/// Joining two bindings that each have a row agreeing with `sg` gives a
/// binding with such a row.
proof fn lemma_join_row(l: BindingView, r: BindingView, sg: Map<usize, usize>)
    requires
        has_row(l, sg),
        has_row(r, sg),
    ensures
        has_row(join_spec(l, r), sg),
        bind_len(l) > 0 || bind_len(r) > 0 ==> bind_len(join_spec(l, r)) > 0,
{
    if bind_len(l) > 0 && bind_len(r) > 0 {
        let a = if bind_len(l) < bind_len(r) { r } else { l };
        let b = if bind_len(l) < bind_len(r) { l } else { r };
        let ps = all_pairs(a, b, bind_len(a));
        let j = join_spec(l, r);
        let xa = choose|k: int| 0 <= k < bind_len(a) && #[trigger] row_agrees(a, k, sg);
        let yb = choose|k: int| 0 <= k < bind_len(b) && #[trigger] row_agrees(b, k, sg);
        assert(matches_row(a, b, xa, yb)) by {
            assert forall|t: int| 0 <= t < a.len() && key_pos(b, a[t].0) >= 0 implies (#[trigger] a[t]).1[xa]
                == b[key_pos(b, a[t].0)].1[yb] by {
                lemma_key_pos(b, a[t].0);
                assert(row_agrees(b, yb, sg));
                assert(b[key_pos(b, a[t].0)].1[yb] == sg[b[key_pos(b, a[t].0)].0]);
            }
        }
        law_join_pairs(a, b, xa, yb);
        let m = choose|m: int| 0 <= m < ps.len() && ps[m] == (xa, yb);
        law_join_rows(l, r, 0);
        assert forall|t: int| 0 <= t < j.len() implies m < (#[trigger] j[t]).1.len() && sg.contains_key(j[t].0) && j[t].1[m]
            == sg[j[t].0] by {
            let x = j[t].0;
            law_join_rows(l, r, x);
            lemma_key_pos(j, x);
            assert(key_pos(j, x) == t);
            lemma_key_pos(a, x);
            lemma_key_pos(b, x);
            if key_pos(a, x) >= 0 {
                let ta = key_pos(a, x);
                assert(j[t].1 == left_col(a[ta].1, ps));
                assert(row_agrees(a, xa, sg));
                assert(a[ta].1[xa] == sg[x]);
            } else {
                let tb = key_pos(b, x);
                assert(j[t].1 == right_col(b[tb].1, ps));
                assert(row_agrees(b, yb, sg));
                assert(b[tb].1[yb] == sg[x]);
            }
        }
        assert(row_agrees(j, m, sg));
    }
}

/// A triple stored at or before `check` is the instance of `q` under `sg`.
pub open spec fn found(v: TripleIndexView, q: Triple, sg: Map<usize, usize>, check: int) -> bool {
    exists|p: int| 0 <= p < v.triples.len() && p <= check && #[trigger] same_codes(v.triples[p], inst(q, sg))
}

/// Answering patterns that all have an instance under `sg` stored at or
/// before `check`, when it does not fail, gives a binding with a row that
/// agrees with `sg`; it has rows when a pattern has a variable.
proof fn lemma_engine_rows(
    v: TripleIndexView,
    qs: Seq<Triple>,
    check: usize,
    i: int,
    acc: BindingView,
    sg: Map<usize, usize>,
)
    requires
        indexes_ok(v),
        0 <= i <= qs.len(),
        forall|j: int| i <= j < qs.len() ==> plain_pattern(#[trigger] qs[j]) && binds(qs[j], sg) && found(v, qs[j], sg, check as int),
        has_row(acc, sg),
        engine_from(v, qs, check, i, acc) is Some,
    ensures
        engine_from(v, qs, check, i, acc) matches Some(Some(b)) && has_row(b, sg) && ((bind_len(acc) > 0 || exists|j: int|
            i <= j < qs.len() && !ground(#[trigger] qs[j])) ==> bind_len(b) > 0),
    decreases qs.len() - i,
{
    if i < qs.len() {
        let q = qs[i];
        assert(plain_pattern(qs[i]) && binds(qs[i], sg) && found(v, qs[i], sg, check as int));
        let p = choose|p: int| 0 <= p < v.triples.len() && p <= check && #[trigger] same_codes(v.triples[p], inst(q, sg));
        law_query_finds(v, q, check, p, sg);
        let c = query_spec(v, q, check).unwrap();
        lemma_join_row(acc, c, sg);
        let acc2 = join_spec(acc, c);
        lemma_engine_rows(v, qs, check, i + 1, acc2, sg);
        if exists|j: int| i <= j < qs.len() && !ground(#[trigger] qs[j]) {
            let j = choose|j: int| i <= j < qs.len() && !ground(#[trigger] qs[j]);
            if j == i {
                assert(bind_len(c) > 0);
            } else {
                assert(i + 1 <= j < qs.len() && !ground(qs[j]));
            }
        }
    }
}

/// Matching a pattern against a triple that is its instance under `sg`
/// binds each variable first to its value under `sg`.
proof fn lemma_match_values(q: Triple, u: Triple, sg: Map<usize, usize>)
    requires
        binds(q, sg),
        same_codes(u, inst(q, sg)),
        pattern_match(q, u) matches Some(Some(_)),
    ensures
        ({
            let b = pattern_match(q, u).unwrap().unwrap();
            &&& distinct_keys(b)
            &&& forall|x: usize| #[trigger] column(b, x) is Some ==> column(b, x).unwrap().len() > 0
                && column(b, x).unwrap()[0] == sg[x]
        }),
{
    let e: BindingView = seq![];
    assert forall|x: usize| #[trigger] column(e, x) is Some ==> column(e, x).unwrap().len() > 0 && column(e, x).unwrap()[0]
        == sg[x] by {
        lemma_key_pos(e, x);
    }
    let b1 = match_elem(q.s, u.s, e).unwrap().unwrap();
    lemma_match_elem_values(q.s, u.s, e, sg);
    let b2 = match_elem(q.p, u.p, b1).unwrap().unwrap();
    lemma_match_elem_values(q.p, u.p, b1, sg);
    lemma_match_elem_values(q.o, u.o, b2, sg);
}

proof fn lemma_match_elem_values(qx: VarOrTerm, tx: VarOrTerm, b: BindingView, sg: Map<usize, usize>)
    requires
        binds_elem(qx, sg),
        code_of(tx) == code_of(inst_elem(qx, sg)),
        distinct_keys(b),
        forall|x: usize| #[trigger] column(b, x) is Some ==> column(b, x).unwrap().len() > 0 && column(b, x).unwrap()[0]
            == sg[x],
    ensures
        match_elem(qx, tx, b) matches Some(Some(b2)) ==> {
            &&& distinct_keys(b2)
            &&& forall|x: usize| #[trigger] column(b2, x) is Some ==> column(b2, x).unwrap().len() > 0
                && column(b2, x).unwrap()[0] == sg[x]
        },
{
    if let (VarOrTerm::Var(v), VarOrTerm::Term(t)) = (qx, tx) {
        let b2 = bind_add(b, v.name, t.iri);
        crate::bindings::lemma_bind_update_distinct(b, v.name, seq![]);
        assert forall|x: usize| #[trigger] column(b2, x) is Some implies column(b2, x).unwrap().len() > 0
            && column(b2, x).unwrap()[0] == sg[x] by {
            law_get_after_add(b, v.name, t.iri, x);
            if x == v.name {
                if column(b, x) is Some {
                    assert(column(b, x).unwrap().push(t.iri)[0] == column(b, x).unwrap()[0]);
                }
            }
        }
    }
}

/// Substituting the first row of such a match keeps the pattern's
/// instance under `sg`, keeps it plain, and keeps `sg` binding it.
proof fn lemma_sub_row_inst(q: Triple, b: BindingView, sg: Map<usize, usize>)
    requires
        binds(q, sg),
        forall|x: usize| #[trigger] column(b, x) is Some ==> column(b, x).unwrap().len() > 0 && column(b, x).unwrap()[0]
            == sg[x],
    ensures
        sub_row(q, b, 0) is Some,
        inst(sub_row(q, b, 0).unwrap(), sg) == inst(q, sg),
        plain_pattern(q) ==> plain_pattern(sub_row(q, b, 0).unwrap()),
        binds(sub_row(q, b, 0).unwrap(), sg),
        ground(sub_row(q, b, 0).unwrap()) ==> forall|x: usize| var_in(x, q) ==> (#[trigger] column(b, x)) is Some,
{
    if let VarOrTerm::Var(v) = q.s {
        assert(column(b, v.name) is Some ==> column(b, v.name).unwrap().len() > 0);
    }
    if let VarOrTerm::Var(v) = q.p {
        assert(column(b, v.name) is Some ==> column(b, v.name).unwrap().len() > 0);
    }
    if let VarOrTerm::Var(v) = q.o {
        assert(column(b, v.name) is Some ==> column(b, v.name).unwrap().len() > 0);
    }
}

/// `x` is a variable of `q`.
pub open spec fn var_in(x: usize, q: Triple) -> bool {
    ||| q.s == VarOrTerm::Var(crate::triples::Variable { name: x })
    ||| q.p == VarOrTerm::Var(crate::triples::Variable { name: x })
    ||| q.o == VarOrTerm::Var(crate::triples::Variable { name: x })
}

/// Every variable of the head of `r` is a variable of a body pattern.
pub open spec fn range_restricted(r: RuleView) -> bool {
    forall|x: usize| #[trigger] var_in(x, r.head) ==> exists|i: int| 0 <= i < r.body.len() && #[trigger] var_in(x, r.body[i])
}

/// A rule whose body patterns are plain and whose head's variables all
/// occur in its body.
pub open spec fn plain_rule(r: RuleView) -> bool {
    &&& forall|i: int| 0 <= i < r.body.len() ==> plain_pattern(#[trigger] r.body[i])
    &&& range_restricted(r)
}

/// `sg` gives every variable of the rule a value.
pub open spec fn binds_rule(r: RuleView, sg: Map<usize, usize>) -> bool {
    &&& forall|i: int| 0 <= i < r.body.len() ==> binds(#[trigger] r.body[i], sg)
    &&& binds(r.head, sg)
}

/// `r2` has the instances of `r` under `sg`: same number of body patterns,
/// each with the same instance, plain and bound by `sg`, the same head
/// instance, and a head made of terms when the body is.
pub open spec fn same_instances(r2: RuleView, r: RuleView, sg: Map<usize, usize>) -> bool {
    &&& r2.body.len() == r.body.len()
    &&& forall|i: int| 0 <= i < r.body.len() ==> inst(#[trigger] r2.body[i], sg) == inst(r.body[i], sg)
    &&& forall|i: int| 0 <= i < r.body.len() ==> plain_pattern(#[trigger] r2.body[i]) && binds(r2.body[i], sg)
    &&& inst(r2.head, sg) == inst(r.head, sg)
    &&& (forall|i: int| 0 <= i < r2.body.len() ==> ground(#[trigger] r2.body[i])) ==> ground(r2.head)
}

/// A plain rule has its own instances.
proof fn lemma_same_instances_self(r: RuleView, sg: Map<usize, usize>)
    requires
        plain_rule(r),
        binds_rule(r, sg),
    ensures
        same_instances(r, r, sg),
{
    if forall|i: int| 0 <= i < r.body.len() ==> ground(#[trigger] r.body[i]) {
        if !ground(r.head) {
            let x = if r.head.s is Var { code_of(r.head.s) } else if r.head.p is Var { code_of(r.head.p) } else { code_of(r.head.o) };
            assert(var_in(x, r.head));
            let i = choose|i: int| 0 <= i < r.body.len() && #[trigger] var_in(x, r.body[i]);
            assert(ground(r.body[i]));
        }
    }
}

proof fn lemma_sub_body_rows(body: Seq<Triple>, b: BindingView)
    requires
        sub_body(body, b) is Some,
        bind_len(b) == 1,
    ensures
        sub_body(body, b).unwrap().len() == body.len(),
        forall|i: int| 0 <= i < body.len() ==> sub_row(#[trigger] body[i], b, 0) is Some && sub_body(body, b).unwrap()[i]
            == sub_row(body[i], b, 0).unwrap(),
    decreases body.len(),
{
    if body.len() > 0 {
        let d = body.drop_last();
        lemma_sub_body_rows(d, b);
        let q = body.last();
        assert(sub_rows(q, b, 0) == Some(Seq::<Triple>::empty()));
        assert forall|i: int| 0 <= i < body.len() implies sub_row(#[trigger] body[i], b, 0) is Some && sub_body(body, b).unwrap()[i]
            == sub_row(body[i], b, 0).unwrap() by {
            if i < d.len() {
                assert(d[i] == body[i]);
            }
        }
    }
}

/// Specializing a plain rule by such a match has the rule's instances.
proof fn lemma_sub_rule_inst(r: RuleView, b: BindingView, sg: Map<usize, usize>)
    requires
        plain_rule(r),
        binds_rule(r, sg),
        bind_len(b) == 1,
        sub_rule(r, b) is Some,
        forall|x: usize| #[trigger] column(b, x) is Some ==> column(b, x).unwrap().len() > 0 && column(b, x).unwrap()[0]
            == sg[x],
    ensures
        same_instances(sub_rule(r, b).unwrap(), r, sg),
{
    let r2 = sub_rule(r, b).unwrap();
    lemma_sub_body_rows(r.body, b);
    assert forall|i: int| 0 <= i < r.body.len() implies inst(#[trigger] r2.body[i], sg) == inst(r.body[i], sg)
        && plain_pattern(r2.body[i]) && binds(r2.body[i], sg) by {
        lemma_sub_row_inst(r.body[i], b, sg);
    }
    lemma_sub_row_inst(r.head, b, sg);
    assert(sub_rows(r.head, b, 0) == Some(Seq::<Triple>::empty()));
    assert(r2.head == sub_row(r.head, b, 0).unwrap());
    if forall|i: int| 0 <= i < r2.body.len() ==> ground(#[trigger] r2.body[i]) {
        if !ground(r2.head) {
            let h = r.head;
            let x = if r2.head.s is Var { code_of(h.s) } else if r2.head.p is Var { code_of(h.p) } else { code_of(h.o) };
            assert(var_in(x, h));
            let i = choose|i: int| 0 <= i < r.body.len() && #[trigger] var_in(x, r.body[i]);
            assert(ground(r2.body[i]));
            lemma_sub_row_inst(r.body[i], b, sg);
            assert(column(b, x) is Some);
        }
    }
}

/// The rules made so far stay, unless the rule itself replaces them.
proof fn lemma_subst_keeps(t: Triple, r: RuleView, i: int, acc: Seq<RuleView>, x: RuleView)
    requires
        substitute_rule_from(t, r, i, acc) is Some,
        acc.contains(x),
    ensures
        substitute_rule_from(t, r, i, acc).unwrap().contains(x) || substitute_rule_from(t, r, i, acc).unwrap().contains(r),
    decreases r.body.len() - i,
{
    if 0 <= i < r.body.len() {
        match pattern_match(r.body[i], t) {
            Some(None) => lemma_subst_keeps(t, r, i + 1, acc, x),
            Some(Some(b)) => {
                if bind_len(b) == 0 {
                    assert(seq![r][0] == r);
                } else {
                    let nr = sub_rule(r, b).unwrap();
                    assert(acc.push(nr).contains(x)) by {
                        let w = choose|w: int| 0 <= w < acc.len() && acc[w] == x;
                        assert(acc.push(nr)[w] == x);
                    }
                    lemma_subst_keeps(t, r, i + 1, acc.push(nr), x);
                }
            },
            None => {},
        }
    }
}

/// Specializing `r` by a triple that body pattern `k` matches gives the
/// rule itself, or the rule specialized by that match.
proof fn lemma_subst_has(t: Triple, r: RuleView, i: int, acc: Seq<RuleView>, k: int)
    requires
        substitute_rule_from(t, r, i, acc) is Some,
        0 <= i <= k < r.body.len(),
        pattern_matches(r.body[k], t),
    ensures
        ({
            let out = substitute_rule_from(t, r, i, acc).unwrap();
            let b = pattern_match(r.body[k], t).unwrap().unwrap();
            ||| out.contains(r)
            ||| {
                &&& pattern_match(r.body[k], t) matches Some(Some(_))
                &&& bind_len(b) == 1
                &&& sub_rule(r, b) is Some
                &&& out.contains(sub_rule(r, b).unwrap())
            }
        }),
    decreases r.body.len() - i,
{
    match pattern_match(r.body[i], t) {
        Some(None) => {
            assert(i < k);
            lemma_subst_has(t, r, i + 1, acc, k);
        },
        Some(Some(b)) => {
            if bind_len(b) == 0 {
                assert(seq![r][0] == r);
            } else {
                let nr = sub_rule(r, b).unwrap();
                if i < k {
                    lemma_subst_has(t, r, i + 1, acc.push(nr), k);
                } else {
                    assert(acc.push(nr)[acc.len() as int] == nr);
                    lemma_subst_keeps(t, r, i + 1, acc.push(nr), nr);
                }
            }
        },
        None => {},
    }
}

/// A rule with a body pattern that `u` matches is among the rules `u`
/// triggers.
proof fn lemma_found_k(ri: RuleIndexView, u: Triple, j: int, k: int) -> (w: int)
    requires
        index_ok(ri),
        complete(ri),
        0 <= j < ri.rules.len(),
        0 <= k < ri.rules[j].body.len(),
        pattern_matches(ri.rules[j].body[k], u),
    ensures
        0 <= w < match_spec(ri, u).len(),
        rules_at(ri.rules, match_spec(ri, u))[w] == ri.rules[j],
{
    assert(finds(ri, u, j));
    let xi = choose|xi: usize| #[trigger] in_match(ri, u, xi) && xi < ri.rules.len() && ri.rules[xi as int] == ri.rules[j];
    lemma_in_match(ri, u, xi);
    let ms = match_spec(ri, u);
    let w = choose|w: int| 0 <= w < ms.len() && ms[w] == xi;
    w
}

/// When the heads of rules can be had, every rule's body can be answered.
proof fn lemma_heads_engine_some(v: TripleIndexView, rs: Seq<RuleView>, tc: Option<usize>, j: int)
    requires
        heads_all(v, rs, tc) is Some,
        0 <= j < rs.len(),
    ensures
        engine_spec(v, rs[j].body, tc) is Some,
    decreases rs.len(),
{
    if j < rs.len() - 1 {
        assert(rs.drop_last()[j] == rs[j]);
        lemma_heads_engine_some(v, rs.drop_last(), tc, j);
    }
}

proof fn lemma_head_rows_at(h: Triple, b: BindingView, n: nat, k: int)
    requires
        head_rows(h, b, n) is Some,
        0 <= k < n,
    ensures
        head_row(h, b, k) is Some,
        head_rows(h, b, n).unwrap().len() == n,
        head_rows(h, b, n).unwrap()[k] == head_row(h, b, k).unwrap(),
    decreases n,
{
    if n > 0 {
        if k < n - 1 {
            lemma_head_rows_at(h, b, (n - 1) as nat, k);
        } else if n > 1 {
            lemma_head_rows_at(h, b, (n - 1) as nat, 0);
        }
    }
}

/// A head substituted with a row that agrees with `sg` is the head's
/// instance under `sg`.
proof fn lemma_head_row_inst(h: Triple, b: BindingView, k: int, sg: Map<usize, usize>)
    requires
        head_row(h, b, k) is Some,
        distinct_keys(b),
        row_agrees(b, k, sg),
    ensures
        head_row(h, b, k).unwrap() == inst(h, sg),
{
    if let VarOrTerm::Var(v) = h.s {
        lemma_key_pos(b, v.name);
        assert(b[key_pos(b, v.name)].1[k] == sg[v.name]);
    }
    if let VarOrTerm::Var(v) = h.p {
        lemma_key_pos(b, v.name);
        assert(b[key_pos(b, v.name)].1[k] == sg[v.name]);
    }
    if let VarOrTerm::Var(v) = h.o {
        lemma_key_pos(b, v.name);
        assert(b[key_pos(b, v.name)].1[k] == sg[v.name]);
    }
}

/// The premise of a rule instance at step `m`: the rule is plain, `sg`
/// binds it, each body instance is stored at or before `m`, and one of them
/// is the triple at `m`.
pub open spec fn premise(w: TripleIndexView, r: RuleView, sg: Map<usize, usize>, m: int) -> bool {
    &&& plain_rule(r)
    &&& binds_rule(r, sg)
    &&& 0 <= m < w.triples.len()
    &&& forall|k: int| 0 <= k < r.body.len() ==> found(w, #[trigger] r.body[k], sg, m)
    &&& exists|k: int| 0 <= k < r.body.len() && #[trigger] same_codes(w.triples[m], inst(r.body[k], sg))
}

/// Processing the triple at `m` adds the head instance of every rule
/// instance whose premise holds at `m`.
proof fn lemma_step_derives(v: TripleIndexView, ri: RuleIndexView, m: int, j: int, sg: Map<usize, usize>)
    requires
        indexes_ok(v),
        index_ok(ri),
        complete(ri),
        mat_step(v, ri, m) is Some,
        0 <= j < ri.rules.len(),
        premise(v, ri.rules[j], sg, m),
    ensures
        contains_spec(mat_step(v, ri, m).unwrap().0, inst(ri.rules[j].head, sg)),
{
    let r = ri.rules[j];
    let u = v.triples[m];
    let ks = choose|k: int| 0 <= k < r.body.len() && #[trigger] same_codes(u, inst(r.body[k], sg));
    assert(binds(r.body[ks], sg));
    assert(pattern_matches(r.body[ks], u));
    let w = lemma_found_k(ri, u, j, ks);
    let rs0 = rules_at(ri.rules, match_spec(ri, u));
    let rs = specialize_all(u, rs0).unwrap();
    lemma_specialize_contains(u, rs0, w);
    let out = substitute_rule_spec(u, r).unwrap();
    lemma_subst_has(u, r, 0, seq![], ks);
    let r2 = if out.contains(r) {
        lemma_same_instances_self(r, sg);
        r
    } else {
        let b = pattern_match(r.body[ks], u).unwrap().unwrap();
        lemma_match_values(r.body[ks], u, sg);
        lemma_sub_rule_inst(r, b, sg);
        sub_rule(r, b).unwrap()
    };
    assert(same_instances(r2, r, sg));
    assert(out.contains(r2));
    let q = choose|q: int| 0 <= q < out.len() && out[q] == r2;
    assert(rs.contains(out[q]));
    let jj = choose|jj: int| 0 <= jj < rs.len() && rs[jj] == r2;
    let tc = Some((m + 1) as usize);
    let hs = heads_all(v, rs, tc).unwrap();
    let v2 = mat_step(v, ri, m).unwrap().0;
    assert(v2 == add_new(v, hs).unwrap().0);
    lemma_indexes_osp(v);
    lemma_add_new_closed(v, hs);
    lemma_heads_engine_some(v, rs, tc, jj);
    let check = (m + 1) as usize;
    assert(counter_bound(v, tc) == check);
    assert forall|i: int| 0 <= i < r2.body.len() implies plain_pattern(#[trigger] r2.body[i]) && binds(r2.body[i], sg) && found(
        v,
        r2.body[i],
        sg,
        check as int,
    ) by {
        assert(found(v, r.body[i], sg, m));
        let p = choose|p: int| 0 <= p < v.triples.len() && p <= m && #[trigger] same_codes(v.triples[p], inst(r.body[i], sg));
        assert(inst(r2.body[i], sg) == inst(r.body[i], sg));
        assert(same_codes(v.triples[p], inst(r2.body[i], sg)));
    }
    lemma_engine_rows(v, r2.body, check, 0, seq![], sg);
    let bb = engine_spec(v, r2.body, tc).unwrap().unwrap();
    lemma_heads_contains(v, rs, tc, jj, bb);
    let hh = substitute_head_spec(r2.head, bb).unwrap();
    if bind_len(bb) > 0 {
        let kk = choose|k: int| 0 <= k < bind_len(bb) && #[trigger] row_agrees(bb, k, sg);
        lemma_head_rows_at(r2.head, bb, bind_len(bb), kk);
        lemma_head_row_inst(r2.head, bb, kk, sg);
        assert(hh[kk] == inst(r.head, sg));
        assert(hs.contains(hh[kk]));
        let z = choose|z: int| 0 <= z < hs.len() && hs[z] == hh[kk];
        assert(contains_spec(v2, hs[z]));
    } else {
        assert forall|i: int| 0 <= i < r2.body.len() implies ground(#[trigger] r2.body[i]) by {
            if !ground(r2.body[i]) {
                assert(0 <= i < r2.body.len() && !ground(r2.body[i]));
            }
        }
        assert(ground(r2.head));
        assert(hh == seq![r2.head]);
        assert(hs.contains(hh[0]));
        let z = choose|z: int| 0 <= z < hs.len() && hs[z] == hh[0];
        assert(contains_spec(v2, hs[z]));
        assert(same_codes(r2.head, inst(r2.head, sg)));
    }
}

/// Adding the new ones of `ts` keeps the three indexes standing for the
/// stored triples.
proof fn lemma_add_new_indexes_ok(v: TripleIndexView, ts: Seq<Triple>)
    requires
        indexes_ok(v),
        add_new(v, ts) is Some,
    ensures
        indexes_ok(add_new(v, ts).unwrap().0),
    decreases ts.len(),
{
    if ts.len() > 0 {
        lemma_add_new_indexes_ok(v, ts.drop_last());
        let v1 = add_new(v, ts.drop_last()).unwrap().0;
        if !contains_spec(v1, ts.last()) {
            lemma_add_indexes_ok(v1, ts.last());
        }
    }
}

/// Every rule instance whose premise holds at `m` has its head instance in
/// `w`.
pub open spec fn closed_at(w: TripleIndexView, rules: Seq<RuleView>, m: int) -> bool {
    forall|j: int, sg: Map<usize, usize>|
        0 <= j < rules.len() && #[trigger] premise(w, rules[j], sg, m) ==> contains_spec(w, inst(rules[j].head, sg))
}

/// A premise at `m` holds alike in an index whose stored triples extend
/// those up to `m`.
proof fn lemma_premise_prefix(v: TripleIndexView, w: TripleIndexView, r: RuleView, sg: Map<usize, usize>, m: int)
    requires
        premise(w, r, sg, m),
        v.triples.is_prefix_of(w.triples),
        m < v.triples.len(),
    ensures
        premise(v, r, sg, m),
{
    assert forall|k: int| 0 <= k < r.body.len() implies found(v, #[trigger] r.body[k], sg, m) by {
        assert(found(w, r.body[k], sg, m));
        let p = choose|p: int| 0 <= p < w.triples.len() && p <= m && #[trigger] same_codes(w.triples[p], inst(r.body[k], sg));
        assert(v.triples[p] == w.triples[p]);
        assert(same_codes(v.triples[p], inst(r.body[k], sg)));
    }
    let k = choose|k: int| 0 <= k < r.body.len() && #[trigger] same_codes(w.triples[m], inst(r.body[k], sg));
    assert(v.triples[m] == w.triples[m]);
    assert(same_codes(v.triples[m], inst(r.body[k], sg)));
}

proof fn lemma_mat_run_derives(v: TripleIndexView, ri: RuleIndexView, counter: nat, inferred: Seq<Triple>, fuel: nat)
    requires
        indexes_ok(v),
        index_ok(ri),
        complete(ri),
        mat_run(v, ri, counter, inferred, fuel) is Some,
    ensures
        ({
            let w = mat_run(v, ri, counter, inferred, fuel).unwrap().0;
            &&& indexes_ok(w)
            &&& v.triples.is_prefix_of(w.triples)
            &&& forall|i: int| counter <= i < w.triples.len() ==> #[trigger] closed_at(w, ri.rules, i)
        }),
    decreases fuel,
{
    if counter < v.triples.len() {
        let (v2, new) = mat_step(v, ri, counter as int).unwrap();
        let u = v.triples[counter as int];
        let rs = specialize_all(u, rules_at(ri.rules, match_spec(ri, u))).unwrap();
        let hs = heads_all(v, rs, Some((counter + 1) as usize)).unwrap();
        lemma_indexes_osp(v);
        lemma_add_new_closed(v, hs);
        lemma_add_new_indexes_ok(v, hs);
        lemma_mat_run_derives(v2, ri, counter + 1, inferred + new, (fuel - 1) as nat);
        lemma_mat_run(v2, ri, counter + 1, inferred + new, (fuel - 1) as nat);
        let w = mat_run(v, ri, counter, inferred, fuel).unwrap().0;
        assert(w == mat_run(v2, ri, counter + 1, inferred + new, (fuel - 1) as nat).unwrap().0);
        assert(v.triples.is_prefix_of(w.triples)) by {
            assert forall|i: int| 0 <= i < v.triples.len() implies w.triples[i] == v.triples[i] by {
                assert(v2.triples[i] == v.triples[i]);
            }
        }
        assert forall|i: int| counter <= i < w.triples.len() implies #[trigger] closed_at(w, ri.rules, i) by {
            if i == counter {
                assert forall|j: int, sg: Map<usize, usize>|
                    0 <= j < ri.rules.len() && #[trigger] premise(w, ri.rules[j], sg, i) implies contains_spec(
                        w,
                        inst(ri.rules[j].head, sg),
                    ) by {
                    lemma_premise_prefix(v, w, ri.rules[j], sg, i);
                    lemma_step_derives(v, ri, i, j, sg);
                }
            }
        }
    }
}

/// The latest position among the stored triples that stand for the body
/// instances `k < n` of `r` under `sg`.
pub open spec fn latest(w: TripleIndexView, r: RuleView, sg: Map<usize, usize>, n: int) -> int
    decreases n,
{
    if n <= 0 {
        0
    } else {
        let p = choose|p: int| 0 <= p < w.triples.len() && #[trigger] same_codes(w.triples[p], inst(r.body[n - 1], sg));
        let q = latest(w, r, sg, n - 1);
        if n == 1 || p > q {
            p
        } else {
            q
        }
    }
}

proof fn lemma_latest(w: TripleIndexView, r: RuleView, sg: Map<usize, usize>, n: int)
    requires
        0 < n <= r.body.len(),
        forall|k: int|
            0 <= k < r.body.len() ==> exists|p: int| 0 <= p < w.triples.len() && #[trigger] same_codes(w.triples[p], inst(#[trigger] r.body[k], sg)),
    ensures
        0 <= latest(w, r, sg, n) < w.triples.len(),
        forall|k: int| 0 <= k < n ==> found(w, #[trigger] r.body[k], sg, latest(w, r, sg, n)),
        exists|k: int| 0 <= k < n && #[trigger] same_codes(w.triples[latest(w, r, sg, n)], inst(r.body[k], sg)),
    decreases n,
{
    assert(exists|p: int| 0 <= p < w.triples.len() && #[trigger] same_codes(w.triples[p], inst(r.body[n - 1], sg)));
    let p = choose|p: int| 0 <= p < w.triples.len() && #[trigger] same_codes(w.triples[p], inst(r.body[n - 1], sg));
    if n > 1 {
        lemma_latest(w, r, sg, n - 1);
        let q = latest(w, r, sg, n - 1);
        let l = latest(w, r, sg, n);
        assert forall|k: int| 0 <= k < n implies found(w, #[trigger] r.body[k], sg, l) by {
            if k < n - 1 {
                assert(found(w, r.body[k], sg, q));
                let pk = choose|pk: int| 0 <= pk < w.triples.len() && pk <= q && #[trigger] same_codes(w.triples[pk], inst(r.body[k], sg));
                assert(same_codes(w.triples[pk], inst(r.body[k], sg)));
            } else {
                assert(same_codes(w.triples[p], inst(r.body[k], sg)));
            }
        }
        if p > q {
            assert(l == p);
            assert(same_codes(w.triples[l], inst(r.body[n - 1], sg)));
        } else {
            assert(l == q);
            let k = choose|k: int| 0 <= k < n - 1 && #[trigger] same_codes(w.triples[q], inst(r.body[k], sg));
            assert(same_codes(w.triples[l], inst(r.body[k], sg)));
        }
    } else {
        assert(latest(w, r, sg, n) == p);
        assert(same_codes(w.triples[p], inst(r.body[0], sg)));
    }
}

/// Materialization closes the index under the rules: for every rule whose
/// body patterns have no graph and no repeated variable and whose head's
/// variables occur in its body, and every value of its variables under
/// which the index afterwards holds every body pattern, the index holds the
/// head under those values.
pub proof fn law_materialize_derives(v: TripleIndexView, ri: RuleIndexView, j: int, sg: Map<usize, usize>)
    requires
        materializes(v, ri),
        indexes_ok(v),
        index_ok(ri),
        complete(ri),
        0 <= j < ri.rules.len(),
        ri.rules[j].body.len() > 0,
        plain_rule(ri.rules[j]),
        binds_rule(ri.rules[j], sg),
        forall|k: int|
            0 <= k < ri.rules[j].body.len() ==> contains_spec(mat_result(v, ri).0, inst(#[trigger] ri.rules[j].body[k], sg)),
    ensures
        contains_spec(mat_result(v, ri).0, inst(ri.rules[j].head, sg)),
{
    let f = mat_fuel(v, ri);
    lemma_mat_run_derives(v, ri, 0, seq![], f);
    let w = mat_result(v, ri).0;
    let r = ri.rules[j];
    lemma_indexes_osp(w);
    assert forall|k: int| 0 <= k < r.body.len() implies exists|p: int| 0 <= p < w.triples.len() && #[trigger] same_codes(
        w.triples[p],
        inst(#[trigger] r.body[k], sg),
    ) by {
        let p = lemma_contained_stored(w, inst(r.body[k], sg));
        assert(same_codes(w.triples[p], inst(r.body[k], sg)));
    }
    lemma_latest(w, r, sg, r.body.len() as int);
    let m = latest(w, r, sg, r.body.len() as int);
    assert(premise(w, r, sg, m));
    assert(closed_at(w, ri.rules, m));
}

proof fn lemma_ev_inv(b: Seq<Entry>, check: usize, r: int)
    requires
        0 <= r < entry_vals(b, check).len(),
    ensures
        r < b.len(),
        entry_vals(b, check)[r] == b[r].0,
        b[r].1 <= check,
    decreases b.len(),
{
    if r > 0 {
        lemma_ev_inv(b.drop_first(), check, r - 1);
    }
}

proof fn lemma_inner_inv(inner: Seq<(usize, Seq<Entry>)>, check: usize, r: int) -> (pk: (int, int))
    requires
        0 <= r < inner_vals(inner, check).len(),
    ensures
        0 <= pk.0 < inner.len(),
        0 <= pk.1 < inner[pk.0].1.len(),
        inner_keys(inner, check)[r] == inner[pk.0].0,
        inner_vals(inner, check)[r] == inner[pk.0].1[pk.1].0,
        inner[pk.0].1[pk.1].1 <= check,
    decreases inner.len(),
{
    let dl = inner.drop_last();
    lemma_inner_lens(dl, check);
    if r < inner_vals(dl, check).len() {
        let pk = lemma_inner_inv(dl, check, r);
        assert(dl[pk.0] == inner[pk.0]);
        pk
    } else {
        let k = r - inner_vals(dl, check).len();
        lemma_ev_inv(inner.last().1, check, k);
        ((inner.len() - 1) as int, k)
    }
}

proof fn lemma_all_inv(ix: IndexView, check: usize, r: int) -> (pk: (int, int, int))
    requires
        0 <= r < all_vals(ix, check).len(),
    ensures
        0 <= pk.0 < ix.len(),
        0 <= pk.1 < ix[pk.0].1.len(),
        0 <= pk.2 < ix[pk.0].1[pk.1].1.len(),
        all_keys(ix, check)[r] == ix[pk.0].0,
        all_mid(ix, check)[r] == ix[pk.0].1[pk.1].0,
        all_vals(ix, check)[r] == ix[pk.0].1[pk.1].1[pk.2].0,
        ix[pk.0].1[pk.1].1[pk.2].1 <= check,
    decreases ix.len(),
{
    let dl = ix.drop_last();
    lemma_all_lens(dl, check);
    if r < all_vals(dl, check).len() {
        let pk = lemma_all_inv(dl, check, r);
        assert(dl[pk.0] == ix[pk.0]);
        pk
    } else {
        let r0 = r - all_vals(dl, check).len();
        lemma_inner_lens(ix.last().1, check);
        let q = lemma_inner_inv(ix.last().1, check, r0);
        ((ix.len() - 1) as int, q.0, q.1)
    }
}

/// The values that row `k` of `c` gives its variables.
pub open spec fn row_map(c: BindingView, k: int) -> Map<usize, usize> {
    Map::new(|x: usize| key_pos(c, x) >= 0, |x: usize| c[key_pos(c, x)].1[k])
}

/// An entry of a bucket of index `kind` stands for a stored triple with the
/// bucket's keys and the entry's third code.
proof fn lemma_entry_sound(v: TripleIndexView, kind: int, k1: usize, k2: usize, b: Seq<Entry>, k: int)
    requires
        kind_ok(v, kind),
        b == entries(bucket_of(index_of(v, kind), k1, k2)),
        0 <= k < b.len(),
    ensures
        0 <= b[k].1 < v.triples.len(),
        keys_of(v.triples[b[k].1 as int], kind) == (k1, k2, b[k].0),
{
    assert(kind_sound(v, kind, b, k1, k2));
}

/// A bucket found in the second-level list of an index with unique keys is
/// the bucket of its keys.
proof fn lemma_inner_bucket(ix: IndexView, k1: usize, pos: int)
    requires
        unique_index(ix),
        inner_of(ix, k1) is Some,
        0 <= pos < inners(inner_of(ix, k1)).len(),
    ensures
        bucket_of(ix, k1, inners(inner_of(ix, k1))[pos].0) == Some(inners(inner_of(ix, k1))[pos].1),
{
    lemma_find_pos(ix, k1, 0);
    let inner = inners(inner_of(ix, k1));
    assert(unique_keys(ix[pos_of(ix, k1)].1));
    lemma_pos_unique(inner, pos);
}

/// Every query answers from stored triples only: each row of the answer to
/// a plain pattern gives the pattern's variables values under which a
/// triple stored at or before `check` is the pattern's instance (for a
/// pattern of terms, row 0 of its empty answer: such a triple is stored).
pub proof fn law_query_sound(v: TripleIndexView, q: Triple, check: usize, k: int)
    requires
        indexes_ok(v),
        plain_pattern(q),
        query_spec(v, q, check) is Some,
        ground(q) ==> k == 0,
        !ground(q) ==> 0 <= k < bind_len(query_spec(v, q, check).unwrap()),
    ensures
        binds(q, row_map(query_spec(v, q, check).unwrap(), k)),
        found(v, q, row_map(query_spec(v, q, check).unwrap(), k), check as int),
{
    let c = query_spec(v, q, check).unwrap();
    let sg = row_map(c, k);
    let s = code_of(q.s);
    let p = code_of(q.p);
    let o = code_of(q.o);
    if q.s is Var && q.p is Term && q.o is Term {
        lemma_sound_one(v, 1, p, o, s, check, k);
        let i = choose|i: int| 0 <= i < v.triples.len() && i <= check && #[trigger] keys_of(v.triples[i], 1) == (p, o, sg[s]);
        assert(same_codes(v.triples[i], inst(q, sg)));
    } else if q.s is Term && q.p is Var && q.o is Term {
        lemma_sound_one(v, 2, o, s, p, check, k);
        let i = choose|i: int| 0 <= i < v.triples.len() && i <= check && #[trigger] keys_of(v.triples[i], 2) == (o, s, sg[p]);
        assert(same_codes(v.triples[i], inst(q, sg)));
    } else if q.s is Term && q.p is Term && q.o is Var {
        lemma_sound_one(v, 0, s, p, o, check, k);
        let i = choose|i: int| 0 <= i < v.triples.len() && i <= check && #[trigger] keys_of(v.triples[i], 0) == (s, p, sg[o]);
        assert(same_codes(v.triples[i], inst(q, sg)));
    } else if q.s is Var && q.p is Var && q.o is Term {
        lemma_sound_two(v, 2, o, s, p, check, k);
        let i = choose|i: int| 0 <= i < v.triples.len() && i <= check && #[trigger] keys_of(v.triples[i], 2) == (o, sg[s], sg[p]);
        assert(same_codes(v.triples[i], inst(q, sg)));
    } else if q.s is Term && q.p is Var && q.o is Var {
        lemma_sound_two(v, 0, s, p, o, check, k);
        let i = choose|i: int| 0 <= i < v.triples.len() && i <= check && #[trigger] keys_of(v.triples[i], 0) == (s, sg[p], sg[o]);
        assert(same_codes(v.triples[i], inst(q, sg)));
    } else if q.s is Var && q.p is Term && q.o is Var {
        lemma_sound_two(v, 1, p, o, s, check, k);
        let i = choose|i: int| 0 <= i < v.triples.len() && i <= check && #[trigger] keys_of(v.triples[i], 1) == (p, sg[o], sg[s]);
        assert(same_codes(v.triples[i], inst(q, sg)));
    } else if q.s is Var && q.p is Var && q.o is Var {
        lemma_sound_three(v, s, p, o, check, k);
        let i = choose|i: int| 0 <= i < v.triples.len() && i <= check && #[trigger] keys_of(v.triples[i], 0) == (sg[s], sg[p], sg[o]);
        assert(same_codes(v.triples[i], inst(q, sg)));
    } else {
        let b = entries(bucket_of(v.osp, o, s));
        let kk = lemma_scan_exact_inv(b, p, check);
        lemma_entry_sound(v, 2, o, s, b, kk);
        let i = b[kk].1 as int;
        assert(same_codes(v.triples[i], inst(q, sg)));
    }
}

/// A scan that reaches predicate `p` reached an entry with it stored at or
/// before `check`.
proof fn lemma_scan_exact_inv(b: Seq<Entry>, p: usize, check: usize) -> (k: int)
    requires
        scan_exact(b, p, None, check).1 || scan_exact(b, p, None, check).0.len() > 0,
    ensures
        0 <= k < b.len(),
        b[k].0 == p,
        b[k].1 <= check,
    decreases b.len(),
{
    if b[0].0 == p {
        0
    } else {
        let rest = scan_exact(b.drop_first(), p, None, check);
        assert(scan_exact(b, p, None, check).0 == Seq::<(usize, usize)>::empty() + rest.0);
        let k = lemma_scan_exact_inv(b.drop_first(), p, check);
        k + 1
    }
}

proof fn lemma_sound_one(v: TripleIndexView, kind: int, k1: usize, k2: usize, var: usize, check: usize, k: int)
    requires
        kind_ok(v, kind),
        some_rows(scan_single(entries(bucket_of(index_of(v, kind), k1, k2)), var, None, check)) is Some,
        0 <= k < bind_len(some_rows(scan_single(entries(bucket_of(index_of(v, kind), k1, k2)), var, None, check)).unwrap()),
    ensures
        ({
            let c = some_rows(scan_single(entries(bucket_of(index_of(v, kind), k1, k2)), var, None, check)).unwrap();
            let sg = row_map(c, k);
            &&& sg.contains_key(var)
            &&& exists|i: int| 0 <= i < v.triples.len() && i <= check && #[trigger] keys_of(v.triples[i], kind) == (
                k1,
                k2,
                sg[var],
            )
        }),
{
    let b = entries(bucket_of(index_of(v, kind), k1, k2));
    lemma_scan_single(b, var, check, seq![]);
    let ev = entry_vals(b, check);
    let c = adds_to(seq![], scan_single(b, var, None, check));
    assert(ev.len() > 0);
    assert(c == seq![(var, ev)]) by {
        assert(ext(seq![], seq![var], seq![ev]) =~= seq![(var, ev)]);
    }
    lemma_key_pos(c, var);
    lemma_ev_inv(b, check, k);
    lemma_entry_sound(v, kind, k1, k2, b, k);
    let i = b[k].1 as int;
    assert(keys_of(v.triples[i], kind) == (k1, k2, row_map(c, k)[var]));
}

proof fn lemma_sound_two(v: TripleIndexView, kind: int, k1: usize, kvar: usize, vvar: usize, check: usize, k: int)
    requires
        kind_ok(v, kind),
        kvar != vvar,
        some_rows(scan_inner(inners(inner_of(index_of(v, kind), k1)), kvar, vvar, None, check)) is Some,
        0 <= k < bind_len(some_rows(scan_inner(inners(inner_of(index_of(v, kind), k1)), kvar, vvar, None, check)).unwrap()),
    ensures
        ({
            let c = some_rows(scan_inner(inners(inner_of(index_of(v, kind), k1)), kvar, vvar, None, check)).unwrap();
            let sg = row_map(c, k);
            &&& sg.contains_key(kvar)
            &&& sg.contains_key(vvar)
            &&& exists|i: int| 0 <= i < v.triples.len() && i <= check && #[trigger] keys_of(v.triples[i], kind) == (
                k1,
                sg[kvar],
                sg[vvar],
            )
        }),
{
    let ix = index_of(v, kind);
    let inner = inners(inner_of(ix, k1));
    lemma_scan_inner(inner, kvar, vvar, check, seq![]);
    lemma_inner_lens(inner, check);
    let ik = inner_keys(inner, check);
    let iv = inner_vals(inner, check);
    let c = adds_to(seq![], scan_inner(inner, kvar, vvar, None, check));
    assert(ik.len() > 0);
    assert(c == seq![(kvar, ik), (vvar, iv)]) by {
        assert(ext(seq![], seq![kvar, vvar], seq![ik, iv]) =~= seq![(kvar, ik), (vvar, iv)]);
    }
    lemma_key_pos(c, kvar);
    lemma_key_pos(c, vvar);
    let pk = lemma_inner_inv(inner, check, k);
    assert(inner_of(ix, k1) is Some);
    lemma_inner_bucket(ix, k1, pk.0);
    lemma_entry_sound(v, kind, k1, inner[pk.0].0, inner[pk.0].1, pk.1);
    let i = inner[pk.0].1[pk.1].1 as int;
    assert(keys_of(v.triples[i], kind) == (k1, row_map(c, k)[kvar], row_map(c, k)[vvar]));
}

proof fn lemma_sound_three(v: TripleIndexView, s: usize, p: usize, o: usize, check: usize, k: int)
    requires
        kind_ok(v, 0),
        s != p && p != o && s != o,
        some_rows(scan_all(v.spo, s, p, o, None, check)) is Some,
        0 <= k < bind_len(some_rows(scan_all(v.spo, s, p, o, None, check)).unwrap()),
    ensures
        ({
            let c = some_rows(scan_all(v.spo, s, p, o, None, check)).unwrap();
            let sg = row_map(c, k);
            &&& sg.contains_key(s)
            &&& sg.contains_key(p)
            &&& sg.contains_key(o)
            &&& exists|i: int| 0 <= i < v.triples.len() && i <= check && #[trigger] keys_of(v.triples[i], 0) == (
                sg[s],
                sg[p],
                sg[o],
            )
        }),
{
    let ix = v.spo;
    lemma_scan_all(ix, s, p, o, check, seq![]);
    lemma_all_lens(ix, check);
    let a1 = all_keys(ix, check);
    let a2 = all_mid(ix, check);
    let a3 = all_vals(ix, check);
    let c = adds_to(seq![], scan_all(ix, s, p, o, None, check));
    assert(a1.len() > 0);
    assert(c == seq![(s, a1), (p, a2), (o, a3)]) by {
        assert(ext(seq![], seq![s, p, o], seq![a1, a2, a3]) =~= seq![(s, a1), (p, a2), (o, a3)]);
    }
    lemma_key_pos(c, s);
    lemma_key_pos(c, p);
    lemma_key_pos(c, o);
    let pk = lemma_all_inv(ix, check, k);
    assert(index_of(v, 0) == ix);
    lemma_pos_unique(ix, pk.0);
    assert(inner_of(ix, ix[pk.0].0) == Some(ix[pk.0].1));
    lemma_inner_bucket(ix, ix[pk.0].0, pk.1);
    let inner = ix[pk.0].1;
    lemma_entry_sound(v, 0, ix[pk.0].0, inner[pk.1].0, inner[pk.1].1, pk.2);
    let i = inner[pk.1].1[pk.2].1 as int;
    assert(keys_of(v.triples[i], 0) == (row_map(c, k)[s], row_map(c, k)[p], row_map(c, k)[o]));
}

/// A plain pattern is answered, counting entries up to `check`, exactly
/// when some values of its variables make it the instance of a triple
/// stored at or before `check`.
pub proof fn law_query_answered_iff(v: TripleIndexView, q: Triple, check: usize)
    requires
        indexes_ok(v),
        plain_pattern(q),
    ensures
        query_spec(v, q, check) is Some <==> exists|sg: Map<usize, usize>| binds(q, sg) && #[trigger] found(
            v,
            q,
            sg,
            check as int,
        ),
{
    if query_spec(v, q, check) is Some {
        let c = query_spec(v, q, check).unwrap();
        if !ground(q) {
            assert(bind_len(c) > 0);
        }
        law_query_sound(v, q, check, 0);
        assert(binds(q, row_map(c, 0)) && found(v, q, row_map(c, 0), check as int));
    }
    if exists|sg: Map<usize, usize>| binds(q, sg) && #[trigger] found(v, q, sg, check as int) {
        let sg = choose|sg: Map<usize, usize>| binds(q, sg) && #[trigger] found(v, q, sg, check as int);
        let i = choose|i: int| 0 <= i < v.triples.len() && i <= check && #[trigger] same_codes(v.triples[i], inst(q, sg));
        law_query_finds(v, q, check, i, sg);
    }
}

/// The binding of a pattern element against a code: the variable bound to
/// it, or nothing for a term.
pub open spec fn elem_row(x: VarOrTerm, c: usize) -> Seq<EncodedBinding> {
    match x {
        VarOrTerm::Var(v) => seq![EncodedBinding { var: v.name, val: c }],
        VarOrTerm::Term(_) => seq![],
    }
}

/// The row that triple `t` gives pattern `q`: its variables bound to `t`'s
/// codes, subject, predicate and object in turn.
pub open spec fn row_of(q: Triple, t: Triple) -> Seq<EncodedBinding> {
    elem_row(q.s, code_of(t.s)) + elem_row(q.p, code_of(t.p)) + elem_row(q.o, code_of(t.o))
}

proof fn lemma_help_single(b: Seq<Entry>, var: usize)
    ensures
        help_single(b, var, None) == b.map_values(|e: Entry| seq![EncodedBinding { var, val: e.0 }]),
    decreases b.len(),
{
    if b.len() > 0 {
        lemma_help_single(b.drop_last(), var);
        assert(seq![EncodedBinding { var, val: b.last().0 }] + Seq::<EncodedBinding>::empty() =~= seq![
            EncodedBinding { var, val: b.last().0 },
        ]);
        assert(help_single(b, var, None) =~= b.map_values(|e: Entry| seq![EncodedBinding { var, val: e.0 }]));
    } else {
        assert(help_single(b, var, None) =~= b.map_values(|e: Entry| seq![EncodedBinding { var, val: e.0 }]));
    }
}

proof fn lemma_help_pair(b: Seq<Entry>, kvar: usize, key: usize, vvar: usize, kf: bool)
    ensures
        help_pair(b, kvar, key, vvar, kf, None) == b.map_values(|e: Entry| pair_row(kvar, key, vvar, e.0, kf)),
    decreases b.len(),
{
    if b.len() > 0 {
        lemma_help_pair(b.drop_last(), kvar, key, vvar, kf);
        assert(pair_row(kvar, key, vvar, b.last().0, kf) + Seq::<EncodedBinding>::empty() =~= pair_row(
            kvar,
            key,
            vvar,
            b.last().0,
            kf,
        ));
    }
    assert(help_pair(b, kvar, key, vvar, kf, None) =~= b.map_values(|e: Entry| pair_row(kvar, key, vvar, e.0, kf)));
}

/// The row of three variables for subject `skey`, predicate `pkey` and
/// object `val`.
pub open spec fn triple_row(s: usize, skey: usize, p: usize, pkey: usize, o: usize, val: usize) -> Seq<EncodedBinding> {
    seq![EncodedBinding { var: s, val: skey }, EncodedBinding { var: p, val: pkey }, EncodedBinding { var: o, val }]
}

proof fn lemma_help_triple(b: Seq<Entry>, s: usize, skey: usize, p: usize, pkey: usize, o: usize)
    ensures
        help_triple(b, s, skey, p, pkey, o, None) == b.map_values(|e: Entry| triple_row(s, skey, p, pkey, o, e.0)),
    decreases b.len(),
{
    if b.len() > 0 {
        lemma_help_triple(b.drop_last(), s, skey, p, pkey, o);
        assert(triple_row(s, skey, p, pkey, o, b.last().0) + Seq::<EncodedBinding>::empty() =~= triple_row(
            s,
            skey,
            p,
            pkey,
            o,
            b.last().0,
        ));
    }
    assert(help_triple(b, s, skey, p, pkey, o, None) =~= b.map_values(|e: Entry| triple_row(s, skey, p, pkey, o, e.0)));
}

proof fn lemma_help_exact(b: Seq<Entry>, p: usize)
    ensures
        forall|w: int| 0 <= w < help_exact(b, p).len() ==> help_exact(b, p)[w] == Seq::<EncodedBinding>::empty(),
        help_exact(b, p).len() > 0 <==> exists|k: int| 0 <= k < b.len() && #[trigger] b[k].0 == p,
    decreases b.len(),
{
    if b.len() > 0 {
        let d = b.drop_last();
        lemma_help_exact(d, p);
        if exists|k: int| 0 <= k < b.len() && #[trigger] b[k].0 == p {
            let k = choose|k: int| 0 <= k < b.len() && #[trigger] b[k].0 == p;
            if k < d.len() {
                assert(d[k] == b[k]);
            }
        }
        if exists|k: int| 0 <= k < d.len() && #[trigger] d[k].0 == p {
            let k = choose|k: int| 0 <= k < d.len() && #[trigger] d[k].0 == p;
            assert(b[k] == d[k]);
        }
    }
}

/// Triples with the same codes are contained alike.
proof fn lemma_contains_codes(v: TripleIndexView, a: Triple, b: Triple)
    requires
        same_codes(a, b),
    ensures
        contains_spec(v, a) == contains_spec(v, b),
{
}

/// Facts of a windowed materialization that started from index `v0` with
/// `n0` new triples queued: the three indexes stand for the stored triples,
/// the index still holds what `v0` held, the triples queued after the new
/// ones are held, and every triple held was held by `v0` or is queued after
/// the new ones.
pub open spec fn cs_inv(st: CsState, v0: TripleIndexView, n0: int) -> bool {
    &&& indexes_ok(st.0)
    &&& 0 <= n0 <= st.2.len()
    &&& forall|u: Triple| #[trigger] contains_spec(v0, u) ==> contains_spec(st.0, u)
    &&& forall|q: int| n0 <= q < st.2.len() ==> contains_spec(st.0, (#[trigger] st.2[q]).1)
    &&& forall|u: Triple|
        #[trigger] contains_spec(st.0, u) ==> contains_spec(v0, u) || exists|q: int| n0 <= q < st.2.len() && same_codes(
            (#[trigger] st.2[q]).1,
            u,
        )
}

/// Taking in inferences keeps those facts, extends the queue, keeps what
/// was held, and holds every inferred triple.
proof fn lemma_add_news_inv(st: CsState, news: Seq<(i32, Triple, Triple)>, v0: TripleIndexView, n0: int)
    requires
        cs_inv(st, v0, n0),
        add_news(st, news) is Some,
    ensures
        cs_inv(add_news(st, news).unwrap(), v0, n0),
        st.2.is_prefix_of(add_news(st, news).unwrap().2),
        forall|u: Triple| contains_spec(st.0, u) ==> #[trigger] contains_spec(add_news(st, news).unwrap().0, u),
        forall|k: int| 0 <= k < news.len() ==> contains_spec(add_news(st, news).unwrap().0, (#[trigger] news[k]).1),
    decreases news.len(),
{
    if news.len() > 0 {
        let d = news.drop_last();
        lemma_add_news_inv(st, d, v0, n0);
        let s1 = add_news(st, d).unwrap();
        let s2 = add_news(st, news).unwrap();
        let (ts, nt, mt) = news.last();
        if !contains_spec(s1.0, nt) {
            let v2 = add_spec(s1.0, nt);
            assert(s2.0 == v2 && s2.2 == s1.2.push((ts, nt)));
            lemma_add_indexes_ok(s1.0, nt);
            assert forall|u: Triple| contains_spec(s1.0, u) implies #[trigger] contains_spec(v2, u) by {
                law_contains_after_add(s1.0, nt, u);
            }
            law_contains_after_add(s1.0, nt, nt);
            assert forall|q: int| n0 <= q < s2.2.len() implies contains_spec(s2.0, (#[trigger] s2.2[q]).1) by {
                if q < s1.2.len() {
                    assert(s2.2[q] == s1.2[q]);
                }
            }
            assert forall|u: Triple| #[trigger] contains_spec(s2.0, u) implies contains_spec(v0, u) || exists|q: int|
                n0 <= q < s2.2.len() && same_codes((#[trigger] s2.2[q]).1, u) by {
                if same_codes(nt, u) {
                    assert(s2.2[s1.2.len() as int] == (ts, nt));
                } else {
                    lemma_contains_after_add_other(s1.0, nt, u);
                    if !contains_spec(v0, u) {
                        let q = choose|q: int| n0 <= q < s1.2.len() && same_codes((#[trigger] s1.2[q]).1, u);
                        assert(s2.2[q] == s1.2[q]);
                    }
                }
            }
            assert(st.2.is_prefix_of(s2.2)) by {
                assert forall|q: int| 0 <= q < st.2.len() implies s2.2[q] == st.2[q] by {
                    assert(s1.2[q] == st.2[q]);
                }
            }
        }
        assert forall|k: int| 0 <= k < news.len() implies contains_spec(s2.0, (#[trigger] news[k]).1) by {
            if k < d.len() {
                assert(d[k] == news[k]);
                assert(contains_spec(s1.0, d[k].1));
            }
        }
    }
}

/// The inferences of each rule are among those of all rules.
proof fn lemma_news_contains(v: TripleIndexView, wc: Seq<(i32, Triple)>, rs: Seq<RuleView>, w: int)
    requires
        news_all(v, wc, rs) is Some,
        0 <= w < rs.len(),
    ensures
        rule_news(v, wc, rs[w]) is Some,
        forall|k: int| 0 <= k < rule_news(v, wc, rs[w]).unwrap().len() ==> news_all(v, wc, rs).unwrap().contains(
            #[trigger] rule_news(v, wc, rs[w]).unwrap()[k],
        ),
    decreases rs.len(),
{
    let d = rs.drop_last();
    let a = news_all(v, wc, d).unwrap();
    let out = news_all(v, wc, rs).unwrap();
    if w < d.len() {
        assert(d[w] == rs[w]);
        lemma_news_contains(v, wc, d, w);
        let nw = rule_news(v, wc, rs[w]).unwrap();
        assert forall|k: int| 0 <= k < nw.len() implies out.contains(#[trigger] nw[k]) by {
            let i = choose|i: int| 0 <= i < a.len() && a[i] == nw[k];
            assert(out[i] == a[i]);
        }
    } else {
        let nw = rule_news(v, wc, rs[w]).unwrap();
        assert(out == a + nw);
        assert forall|k: int| 0 <= k < nw.len() implies out.contains(#[trigger] nw[k]) by {
            assert(out[a.len() + k] == nw[k]);
        }
    }
}

/// Processing the queued triple at `c`, when the index holds every body
/// instance of a plain rule under `sg` and that triple is one of them, adds
/// the head instance.
proof fn lemma_cs_step_derives(st: CsState, ri: RuleIndexView, c: int, j: int, sg: Map<usize, usize>, v0: TripleIndexView, n0: int)
    requires
        cs_inv(st, v0, n0),
        index_ok(ri),
        complete(ri),
        0 <= c < st.2.len(),
        cs_step(st, ri, c) is Some,
        0 <= j < ri.rules.len(),
        plain_rule(ri.rules[j]),
        binds_rule(ri.rules[j], sg),
        forall|k: int| 0 <= k < ri.rules[j].body.len() ==> contains_spec(st.0, inst(#[trigger] ri.rules[j].body[k], sg)),
        exists|k: int| 0 <= k < ri.rules[j].body.len() && #[trigger] same_codes(st.2[c].1, inst(ri.rules[j].body[k], sg)),
    ensures
        contains_spec(cs_step(st, ri, c).unwrap().0, inst(ri.rules[j].head, sg)),
{
    let r = ri.rules[j];
    let t = st.2[c].1;
    let v = st.0;
    let ks = choose|k: int| 0 <= k < r.body.len() && #[trigger] same_codes(t, inst(r.body[k], sg));
    assert(binds(r.body[ks], sg));
    assert(pattern_matches(r.body[ks], t));
    let w = lemma_found_k(ri, t, j, ks);
    let rs0 = rules_at(ri.rules, match_spec(ri, t));
    let ns = news_all(v, st.1, rs0).unwrap();
    lemma_news_contains(v, st.1, rs0, w);
    lemma_indexes_osp(v);
    let check = v.counter;
    assert(counter_bound(v, None) == check);
    assert forall|i: int| 0 <= i < r.body.len() implies plain_pattern(#[trigger] r.body[i]) && binds(r.body[i], sg) && found(
        v,
        r.body[i],
        sg,
        check as int,
    ) by {
        let p = lemma_contained_stored(v, inst(r.body[i], sg));
        assert(same_codes(v.triples[p], inst(r.body[i], sg)));
    }
    assert(engine_spec(v, r.body, None) is Some);
    lemma_engine_rows(v, r.body, check, 0, seq![], sg);
    let bb = engine_spec(v, r.body, None).unwrap().unwrap();
    let nw = rule_news(v, st.1, r).unwrap();
    assert(bind_len(bb) > 0);
    let hs = substitute_head_spec(r.head, bb).unwrap();
    let kk = choose|k: int| 0 <= k < bind_len(bb) && #[trigger] row_agrees(bb, k, sg);
    lemma_head_rows_at(r.head, bb, bind_len(bb), kk);
    lemma_head_row_inst(r.head, bb, kk, sg);
    assert(nw[kk].1 == hs[kk]);
    assert(ns.contains(nw[kk]));
    let z = choose|z: int| 0 <= z < ns.len() && ns[z] == nw[kk];
    lemma_add_news_inv(st, ns, v0, n0);
    assert(contains_spec(cs_step(st, ri, c).unwrap().0, ns[z].1));
}

/// The instance of rule `r` under `sg` involves no queued triple after
/// position `c`, and involves the one at `c`.
pub open spec fn last_involved(qs: Seq<(i32, Triple)>, r: RuleView, sg: Map<usize, usize>, c: int) -> bool {
    &&& 0 <= c < qs.len()
    &&& exists|k: int| 0 <= k < r.body.len() && #[trigger] same_codes(qs[c].1, inst(r.body[k], sg))
    &&& forall|q: int, k: int| c < q < qs.len() && 0 <= k < r.body.len() ==> !same_codes(
        (#[trigger] qs[q]).1,
        inst(#[trigger] r.body[k], sg),
    )
}

/// Every rule instance that the final index holds, whose last involved
/// queued triple is at `c`, has its head in the final index.
pub open spec fn cs_closed_at(fin: CsState, rules: Seq<RuleView>, c: int) -> bool {
    forall|j: int, sg: Map<usize, usize>|
        0 <= j < rules.len() && plain_rule(rules[j]) && binds_rule(rules[j], sg) && #[trigger] last_involved(
            fin.2,
            rules[j],
            sg,
            c,
        ) && (forall|k: int| 0 <= k < rules[j].body.len() ==> contains_spec(fin.0, inst(#[trigger] rules[j].body[k], sg)))
            ==> contains_spec(fin.0, inst(rules[j].head, sg))
}

proof fn lemma_cs_run_derives(st: CsState, ri: RuleIndexView, counter: nat, fuel: nat, v0: TripleIndexView, n0: int)
    requires
        cs_inv(st, v0, n0),
        index_ok(ri),
        complete(ri),
        cs_run(st, ri, counter, fuel) is Some,
    ensures
        ({
            let fin = cs_run(st, ri, counter, fuel).unwrap();
            &&& cs_inv(fin, v0, n0)
            &&& st.2.is_prefix_of(fin.2)
            &&& forall|u: Triple| contains_spec(st.0, u) ==> #[trigger] contains_spec(fin.0, u)
            &&& forall|c: int| counter <= c < fin.2.len() ==> #[trigger] cs_closed_at(fin, ri.rules, c)
        }),
    decreases fuel,
{
    if counter < st.2.len() {
        let st2 = cs_step(st, ri, counter as int).unwrap();
        let t = st.2[counter as int].1;
        let ns = news_all(st.0, st.1, rules_at(ri.rules, match_spec(ri, t))).unwrap();
        lemma_add_news_inv(st, ns, v0, n0);
        lemma_cs_run_derives(st2, ri, counter + 1, (fuel - 1) as nat, v0, n0);
        let fin = cs_run(st, ri, counter, fuel).unwrap();
        assert(fin == cs_run(st2, ri, counter + 1, (fuel - 1) as nat).unwrap());
        assert(st.2.is_prefix_of(fin.2)) by {
            assert forall|q: int| 0 <= q < st.2.len() implies fin.2[q] == st.2[q] by {
                assert(st2.2[q] == st.2[q]);
            }
        }
        assert forall|c: int| counter <= c < fin.2.len() implies #[trigger] cs_closed_at(fin, ri.rules, c) by {
            if c == counter {
                assert forall|j: int, sg: Map<usize, usize>|
                    0 <= j < ri.rules.len() && plain_rule(ri.rules[j]) && binds_rule(ri.rules[j], sg) && #[trigger] last_involved(
                        fin.2,
                        ri.rules[j],
                        sg,
                        c,
                    ) && (forall|k: int|
                        0 <= k < ri.rules[j].body.len() ==> contains_spec(fin.0, inst(#[trigger] ri.rules[j].body[k], sg)))
                        implies contains_spec(fin.0, inst(ri.rules[j].head, sg)) by {
                    let r = ri.rules[j];
                    assert forall|k: int| 0 <= k < r.body.len() implies contains_spec(st.0, inst(#[trigger] r.body[k], sg)) by {
                        let u = inst(r.body[k], sg);
                        assert(contains_spec(fin.0, u));
                        if !contains_spec(v0, u) {
                            let q = choose|q: int| n0 <= q < fin.2.len() && same_codes((#[trigger] fin.2[q]).1, u);
                            assert(q <= c);
                            assert(fin.2[q] == st.2[q]);
                            assert(contains_spec(st.0, st.2[q].1));
                            lemma_contains_codes(st.0, st.2[q].1, u);
                        }
                    }
                    let k = choose|k: int| 0 <= k < r.body.len() && #[trigger] same_codes(fin.2[c].1, inst(r.body[k], sg));
                    assert(fin.2[c] == st.2[c]);
                    assert(same_codes(st.2[c].1, inst(r.body[k], sg)));
                    lemma_cs_step_derives(st, ri, c, j, sg, v0, n0);
                }
            }
        }
    } else {
        assert(st.2.is_prefix_of(st.2));
    }
}

/// The last queued triple that is one of the body instances of `r` under
/// `sg`, among the first `n`; -1 when there is none.
pub open spec fn last_queued(qs: Seq<(i32, Triple)>, r: RuleView, sg: Map<usize, usize>, n: int) -> int
    decreases n,
{
    if n <= 0 {
        -1
    } else if exists|k: int| 0 <= k < r.body.len() && #[trigger] same_codes(qs[n - 1].1, inst(r.body[k], sg)) {
        n - 1
    } else {
        last_queued(qs, r, sg, n - 1)
    }
}

proof fn lemma_last_queued(qs: Seq<(i32, Triple)>, r: RuleView, sg: Map<usize, usize>, n: int)
    requires
        0 <= n <= qs.len(),
        exists|q: int, k: int| 0 <= q < n && 0 <= k < r.body.len() && #[trigger] same_codes(qs[q].1, inst(r.body[k], sg)),
    ensures
        0 <= last_queued(qs, r, sg, n) < n,
        exists|k: int| 0 <= k < r.body.len() && #[trigger] same_codes(qs[last_queued(qs, r, sg, n)].1, inst(r.body[k], sg)),
        forall|q: int, k: int| last_queued(qs, r, sg, n) < q < n && 0 <= k < r.body.len() ==> !same_codes(
            (#[trigger] qs[q]).1,
            inst(#[trigger] r.body[k], sg),
        ),
    decreases n,
{
    if !(exists|k: int| 0 <= k < r.body.len() && #[trigger] same_codes(qs[n - 1].1, inst(r.body[k], sg))) {
        let (q, k) = choose|q: int, k: int| 0 <= q < n && 0 <= k < r.body.len() && #[trigger] same_codes(qs[q].1, inst(r.body[k], sg));
        if q == n - 1 {
            assert(same_codes(qs[n - 1].1, inst(r.body[k], sg)));
        }
        assert(0 <= q < n - 1 && 0 <= k < r.body.len() && same_codes(qs[q].1, inst(r.body[k], sg)));
        lemma_last_queued(qs, r, sg, n - 1);
        assert(last_queued(qs, r, sg, n) == last_queued(qs, r, sg, n - 1));
    } else {
        assert(last_queued(qs, r, sg, n) == n - 1);
        let k = choose|k: int| 0 <= k < r.body.len() && #[trigger] same_codes(qs[n - 1].1, inst(r.body[k], sg));
        assert(same_codes(qs[last_queued(qs, r, sg, n)].1, inst(r.body[k], sg)));
    }
}

/// Windowed materialization closes the index under the rules, for the rule
/// instances that involve a processed triple: for every rule whose body
/// patterns are plain and whose head's variables occur in its body, and
/// every value of its variables under which the index afterwards holds every
/// body pattern and one of them is a queued triple (a new one or one
/// inferred), the index holds the head under those values.
pub proof fn law_windowed_materialize_derives(
    v: TripleIndexView,
    wc: Seq<(i32, Triple)>,
    ri: RuleIndexView,
    new_data: Seq<(i32, Triple)>,
    j: int,
    sg: Map<usize, usize>,
)
    requires
        cs_total(v, wc, ri, new_data),
        indexes_ok(v),
        index_ok(ri),
        complete(ri),
        0 <= j < ri.rules.len(),
        plain_rule(ri.rules[j]),
        binds_rule(ri.rules[j], sg),
        forall|k: int|
            0 <= k < ri.rules[j].body.len() ==> contains_spec(cs_result(v, wc, ri, new_data).0, inst(#[trigger] ri.rules[j].body[k], sg)),
        exists|q: int, k: int|
            0 <= q < cs_result(v, wc, ri, new_data).2.len() && 0 <= k < ri.rules[j].body.len() && #[trigger] same_codes(
                cs_result(v, wc, ri, new_data).2[q].1,
                inst(ri.rules[j].body[k], sg),
            ),
    ensures
        contains_spec(cs_result(v, wc, ri, new_data).0, inst(ri.rules[j].head, sg)),
{
    let st0: CsState = (v, wc, new_data, seq![]);
    let f = choose|f: nat| (#[trigger] cs_run(st0, ri, 0, f)) is Some;
    let fin = cs_result(v, wc, ri, new_data);
    assert(fin == cs_run(st0, ri, 0, f).unwrap());
    assert(cs_inv(st0, v, new_data.len() as int));
    lemma_cs_run_derives(st0, ri, 0, f, v, new_data.len() as int);
    let r = ri.rules[j];
    lemma_last_queued(fin.2, r, sg, fin.2.len() as int);
    let c = last_queued(fin.2, r, sg, fin.2.len() as int);
    assert(last_involved(fin.2, r, sg, c));
    assert(cs_closed_at(fin, ri.rules, c));
}

/// The positions that the entries of a bucket name.
pub open spec fn bucket_pos(b: Seq<Entry>) -> Seq<int> {
    b.map_values(|e: Entry| e.1 as int)
}

/// The positions that the buckets of a second-level list name, in order.
pub open spec fn inner_pos(inner: Seq<(usize, Seq<Entry>)>) -> Seq<int>
    decreases inner.len(),
{
    if inner.len() == 0 {
        seq![]
    } else {
        inner_pos(inner.drop_last()) + bucket_pos(inner.last().1)
    }
}

/// The positions that every bucket of an index names, in order.
pub open spec fn all_pos(ix: IndexView) -> Seq<int>
    decreases ix.len(),
{
    if ix.len() == 0 {
        seq![]
    } else {
        all_pos(ix.drop_last()) + inner_pos(ix.last().1)
    }
}

/// Every bucket of an index with unique keys is the bucket of its keys.
proof fn lemma_ix_sound(v: TripleIndexView, kind: int, p1: int, p2: int)
    requires
        kind_ok(v, kind),
        0 <= p1 < index_of(v, kind).len(),
        0 <= p2 < index_of(v, kind)[p1].1.len(),
    ensures
        ({
            let ix = index_of(v, kind);
            kind_sound(v, kind, ix[p1].1[p2].1, ix[p1].0, ix[p1].1[p2].0)
        }),
{
    let ix = index_of(v, kind);
    lemma_pos_unique(ix, p1);
    assert(inner_of(ix, ix[p1].0) == Some(ix[p1].1));
    lemma_inner_bucket(ix, ix[p1].0, p2);
    assert(kind_sound(v, kind, entries(bucket_of(ix, ix[p1].0, ix[p1].1[p2].0)), ix[p1].0, ix[p1].1[p2].0));
}

/// A sound bucket: its positions are distinct stored triples with the
/// bucket's keys, and its rows for one variable are their third codes.
proof fn lemma_bucket_rows(v: TripleIndexView, kind: int, b: Seq<Entry>, k1: usize, k2: usize, var: usize)
    requires
        kind_sound(v, kind, b, k1, k2),
    ensures
        bucket_pos(b).no_duplicates(),
        forall|x: int| #[trigger] bucket_pos(b).contains(x) ==> 0 <= x < v.triples.len() && keys_of(v.triples[x], kind).0 == k1
            && keys_of(v.triples[x], kind).1 == k2,
        help_single(b, var, None) == bucket_pos(b).map_values(
            |i: int| seq![EncodedBinding { var, val: keys_of(v.triples[i], kind).2 }],
        ),
{
    lemma_help_single(b, var);
    let ps = bucket_pos(b);
    assert forall|i: int, j: int| 0 <= i < j < ps.len() implies ps[i] != ps[j] by {
        assert(b[i].1 < b[j].1);
    }
    assert forall|x: int| #[trigger] ps.contains(x) implies 0 <= x < v.triples.len() && keys_of(v.triples[x], kind).0 == k1
        && keys_of(v.triples[x], kind).1 == k2 by {
        let k = choose|k: int| 0 <= k < ps.len() && ps[k] == x;
        assert(b[k].1 as int == x);
    }
    assert(help_single(b, var, None) =~= ps.map_values(|i: int| seq![EncodedBinding { var, val: keys_of(v.triples[i], kind).2 }]));
}

/// The keys of a list of keyed values.
pub open spec fn keys_list<X>(s: Seq<(usize, X)>) -> Seq<usize> {
    s.map_values(|e: (usize, X)| e.0)
}

/// Two sequences without duplicates and without a common element join
/// without duplicates.
proof fn lemma_concat_no_dup(a: Seq<int>, b: Seq<int>)
    requires
        a.no_duplicates(),
        b.no_duplicates(),
        forall|x: int| a.contains(x) ==> !b.contains(x),
    ensures
        (a + b).no_duplicates(),
{
    let c = a + b;
    assert forall|i: int, j: int| 0 <= i < j < c.len() implies c[i] != c[j] by {
        if i < a.len() && j >= a.len() {
            assert(c[i] == a[i] && c[j] == b[j - a.len()]);
            assert(a.contains(a[i]));
            assert(b.contains(b[j - a.len()]));
        } else if i >= a.len() {
            assert(c[i] == b[i - a.len()] && c[j] == b[j - a.len()]);
        } else {
            assert(c[i] == a[i] && c[j] == a[j]);
        }
    }
}

/// The rows of a second-level list of sound buckets are those of the
/// triples its positions name, and the positions are distinct.
proof fn lemma_inner_rows(v: TripleIndexView, kind: int, k1: usize, inner: Seq<(usize, Seq<Entry>)>, kvar: usize, vvar: usize, kf: bool)
    requires
        unique_keys(inner),
        forall|p: int| 0 <= p < inner.len() ==> kind_sound(v, kind, (#[trigger] inner[p]).1, k1, inner[p].0),
    ensures
        inner_pos(inner).no_duplicates(),
        forall|x: int| #[trigger] inner_pos(inner).contains(x) ==> 0 <= x < v.triples.len() && keys_of(v.triples[x], kind).0
            == k1 && keys_list(inner).contains(keys_of(v.triples[x], kind).1),
        help_inner(inner, kvar, vvar, kf, None) == inner_pos(inner).map_values(
            |i: int| pair_row(kvar, keys_of(v.triples[i], kind).1, vvar, keys_of(v.triples[i], kind).2, kf),
        ),
    decreases inner.len(),
{
    let f = |i: int| pair_row(kvar, keys_of(v.triples[i], kind).1, vvar, keys_of(v.triples[i], kind).2, kf);
    if inner.len() == 0 {
        assert(help_inner(inner, kvar, vvar, kf, None) =~= inner_pos(inner).map_values(f));
    } else {
        let dl = inner.drop_last();
        let last = inner.last();
        assert forall|p: int| 0 <= p < dl.len() implies kind_sound(v, kind, (#[trigger] dl[p]).1, k1, dl[p].0) by {
            assert(dl[p] == inner[p]);
        }
        assert(unique_keys(dl));
        lemma_inner_rows(v, kind, k1, dl, kvar, vvar, kf);
        assert(kind_sound(v, kind, inner[inner.len() - 1].1, k1, inner[inner.len() - 1].0));
        lemma_bucket_rows(v, kind, last.1, k1, last.0, kvar);
        lemma_help_pair(last.1, kvar, last.0, vvar, kf);
        let a = inner_pos(dl);
        let b = bucket_pos(last.1);
        assert forall|x: int| a.contains(x) implies !b.contains(x) by {
            if b.contains(x) {
                assert(keys_list(dl).contains(keys_of(v.triples[x], kind).1));
                let p = choose|p: int| 0 <= p < keys_list(dl).len() && keys_list(dl)[p] == keys_of(v.triples[x], kind).1;
                assert(dl[p].0 == inner[p].0);
                assert(inner[p].0 != inner[inner.len() - 1].0);
            }
        }
        lemma_concat_no_dup(a, b);
        assert forall|x: int| #[trigger] inner_pos(inner).contains(x) implies 0 <= x < v.triples.len() && keys_of(v.triples[x], kind).0
            == k1 && keys_list(inner).contains(keys_of(v.triples[x], kind).1) by {
            let w = choose|w: int| 0 <= w < (a + b).len() && (a + b)[w] == x;
            if w < a.len() {
                assert(a.contains(x));
                let p = choose|p: int| 0 <= p < keys_list(dl).len() && keys_list(dl)[p] == keys_of(v.triples[x], kind).1;
                assert(keys_list(inner)[p] == keys_list(dl)[p]);
            } else {
                assert(b.contains(x));
                assert(keys_list(inner)[inner.len() - 1] == last.0);
            }
        }
        assert forall|k: int| 0 <= k < b.len() implies help_pair(last.1, kvar, last.0, vvar, kf, None)[k] == f(b[k]) by {
            assert(b.contains(b[k]));
            assert(kind_sound(v, kind, last.1, k1, last.0));
            assert(keys_of(v.triples[last.1[k].1 as int], kind) == (k1, last.0, last.1[k].0));
        }
        assert(help_inner(inner, kvar, vvar, kf, None) =~= (a + b).map_values(f));
    }
}

proof fn lemma_subject_rows(v: TripleIndexView, skey: usize, inner: Seq<(usize, Seq<Entry>)>, s: usize, p: usize, o: usize)
    requires
        unique_keys(inner),
        forall|q: int| 0 <= q < inner.len() ==> kind_sound(v, 0, (#[trigger] inner[q]).1, skey, inner[q].0),
    ensures
        help_subject(inner, s, skey, p, o, None) == inner_pos(inner).map_values(
            |i: int| triple_row(s, keys_of(v.triples[i], 0).0, p, keys_of(v.triples[i], 0).1, o, keys_of(v.triples[i], 0).2),
        ),
    decreases inner.len(),
{
    let f = |i: int| triple_row(s, keys_of(v.triples[i], 0).0, p, keys_of(v.triples[i], 0).1, o, keys_of(v.triples[i], 0).2);
    if inner.len() == 0 {
        assert(help_subject(inner, s, skey, p, o, None) =~= inner_pos(inner).map_values(f));
    } else {
        let dl = inner.drop_last();
        let last = inner.last();
        assert forall|q: int| 0 <= q < dl.len() implies kind_sound(v, 0, (#[trigger] dl[q]).1, skey, dl[q].0) by {
            assert(dl[q] == inner[q]);
        }
        assert(unique_keys(dl));
        lemma_subject_rows(v, skey, dl, s, p, o);
        assert(kind_sound(v, 0, inner[inner.len() - 1].1, skey, inner[inner.len() - 1].0));
        lemma_help_triple(last.1, s, skey, p, last.0, o);
        let a = inner_pos(dl);
        let b = bucket_pos(last.1);
        assert forall|k: int| 0 <= k < b.len() implies help_triple(last.1, s, skey, p, last.0, o, None)[k] == f(b[k]) by {
            assert(keys_of(v.triples[last.1[k].1 as int], 0) == (skey, last.0, last.1[k].0));
        }
        assert(help_subject(inner, s, skey, p, o, None) =~= (a + b).map_values(f));
    }
}

proof fn lemma_all_rows(v: TripleIndexView, n: int, s: usize, p: usize, o: usize)
    requires
        kind_ok(v, 0),
        0 <= n <= v.spo.len(),
    ensures
        all_pos(v.spo.take(n)).no_duplicates(),
        forall|x: int| #[trigger] all_pos(v.spo.take(n)).contains(x) ==> 0 <= x < v.triples.len() && keys_list(v.spo.take(n)).contains(
            keys_of(v.triples[x], 0).0,
        ),
        help_all(v.spo.take(n), s, p, o, None) == all_pos(v.spo.take(n)).map_values(
            |i: int| triple_row(s, keys_of(v.triples[i], 0).0, p, keys_of(v.triples[i], 0).1, o, keys_of(v.triples[i], 0).2),
        ),
    decreases n,
{
    let ix = v.spo;
    let f = |i: int| triple_row(s, keys_of(v.triples[i], 0).0, p, keys_of(v.triples[i], 0).1, o, keys_of(v.triples[i], 0).2);
    let t = ix.take(n);
    if n == 0 {
        assert(help_all(t, s, p, o, None) =~= all_pos(t).map_values(f));
    } else {
        lemma_all_rows(v, n - 1, s, p, o);
        assert(t.drop_last() =~= ix.take(n - 1));
        assert(t.last() == ix[n - 1]);
        let inner = ix[n - 1].1;
        assert(index_of(v, 0) == ix);
        assert(unique_keys(inner));
        assert forall|q: int| 0 <= q < inner.len() implies kind_sound(v, 0, (#[trigger] inner[q]).1, ix[n - 1].0, inner[q].0) by {
            lemma_ix_sound(v, 0, n - 1, q);
        }
        lemma_inner_rows(v, 0, ix[n - 1].0, inner, s, p, true);
        lemma_subject_rows(v, ix[n - 1].0, inner, s, p, o);
        let a = all_pos(ix.take(n - 1));
        let b = inner_pos(inner);
        assert forall|x: int| a.contains(x) implies !b.contains(x) by {
            if b.contains(x) {
                let q = choose|q: int| 0 <= q < keys_list(ix.take(n - 1)).len() && #[trigger] keys_list(ix.take(n - 1))[q] == keys_of(v.triples[x], 0).0;
                assert(ix.take(n - 1)[q] == ix[q]);
                assert(ix[q].0 != ix[n - 1].0);
            }
        }
        lemma_concat_no_dup(a, b);
        assert forall|x: int| #[trigger] all_pos(t).contains(x) implies 0 <= x < v.triples.len() && keys_list(t).contains(
            keys_of(v.triples[x], 0).0,
        ) by {
            let w = choose|w: int| 0 <= w < (a + b).len() && (a + b)[w] == x;
            if w < a.len() {
                assert(a.contains(x));
                let q = choose|q: int| 0 <= q < keys_list(ix.take(n - 1)).len() && #[trigger] keys_list(ix.take(n - 1))[q] == keys_of(v.triples[x], 0).0;
                assert(keys_list(t)[q] == keys_list(ix.take(n - 1))[q]);
            } else {
                assert(b.contains(x));
                assert(keys_list(t)[n - 1] == ix[n - 1].0);
            }
        }
        assert(help_all(t, s, p, o, None) =~= (a + b).map_values(f));
    }
}

proof fn lemma_inner_pos_has(inner: Seq<(usize, Seq<Entry>)>, p: int, k: int)
    requires
        0 <= p < inner.len(),
        0 <= k < inner[p].1.len(),
    ensures
        inner_pos(inner).contains(inner[p].1[k].1 as int),
    decreases inner.len(),
{
    let dl = inner.drop_last();
    let a = inner_pos(dl);
    let b = bucket_pos(inner.last().1);
    assert(inner_pos(inner) == a + b);
    if p == inner.len() - 1 {
        assert((a + b)[a.len() + k] == b[k]);
    } else {
        assert(dl[p] == inner[p]);
        lemma_inner_pos_has(dl, p, k);
        let w = choose|w: int| 0 <= w < a.len() && a[w] == inner[p].1[k].1 as int;
        assert((a + b)[w] == a[w]);
    }
}

proof fn lemma_all_pos_has(ix: IndexView, n: int, p1: int, p2: int, k: int)
    requires
        0 <= p1 < n <= ix.len(),
        0 <= p2 < ix[p1].1.len(),
        0 <= k < ix[p1].1[p2].1.len(),
    ensures
        all_pos(ix.take(n)).contains(ix[p1].1[p2].1[k].1 as int),
    decreases n,
{
    let t = ix.take(n);
    assert(t.drop_last() =~= ix.take(n - 1));
    let a = all_pos(ix.take(n - 1));
    let b = inner_pos(ix[n - 1].1);
    assert(all_pos(t) == a + b);
    if p1 == n - 1 {
        lemma_inner_pos_has(ix[n - 1].1, p2, k);
        let w = choose|w: int| 0 <= w < b.len() && b[w] == ix[p1].1[p2].1[k].1 as int;
        assert((a + b)[a.len() + w] == b[w]);
    } else {
        lemma_all_pos_has(ix, n - 1, p1, p2, k);
        let w = choose|w: int| 0 <= w < a.len() && a[w] == ix[p1].1[p2].1[k].1 as int;
        assert((a + b)[w] == a[w]);
    }
}

/// The positions of the entries of `b` with third code `p`, in order.
pub open spec fn exact_pos(b: Seq<Entry>, p: usize) -> Seq<int>
    decreases b.len(),
{
    if b.len() == 0 {
        seq![]
    } else if b.last().0 == p {
        exact_pos(b.drop_last(), p).push(b.last().1 as int)
    } else {
        exact_pos(b.drop_last(), p)
    }
}

proof fn lemma_exact_rows(b: Seq<Entry>, p: usize)
    requires
        sorted_entries(b),
    ensures
        exact_pos(b, p).no_duplicates(),
        forall|x: int| exact_pos(b, p).contains(x) <==> exists|k: int| 0 <= k < b.len() && b[k].0 == p && #[trigger] b[k].1 as int == x,
        exact_pos(b, p).len() == help_exact(b, p).len(),
        forall|w: int| 0 <= w < help_exact(b, p).len() ==> help_exact(b, p)[w] == Seq::<EncodedBinding>::empty(),
    decreases b.len(),
{
    lemma_help_exact(b, p);
    if b.len() > 0 {
        let d = b.drop_last();
        assert(sorted_entries(d)) by {
            assert forall|k1: int, k2: int| 0 <= k1 < k2 < d.len() implies (#[trigger] d[k1]).1 < (#[trigger] d[k2]).1 by {
                assert(d[k1] == b[k1] && d[k2] == b[k2]);
            }
        }
        lemma_exact_rows(d, p);
        let e = exact_pos(d, p);
        assert forall|x: int| exact_pos(b, p).contains(x) <==> exists|k: int| 0 <= k < b.len() && b[k].0 == p && #[trigger] b[k].1 as int
            == x by {
            if exact_pos(b, p).contains(x) {
                let w = choose|w: int| 0 <= w < exact_pos(b, p).len() && exact_pos(b, p)[w] == x;
                if w < e.len() && (b.last().0 != p || w < e.len()) {
                    assert(e[w] == x || b.last().0 != p);
                    if b.last().0 == p {
                        assert(e.push(b.last().1 as int)[w] == e[w]);
                    }
                    assert(e.contains(x));
                    let k = choose|k: int| 0 <= k < d.len() && d[k].0 == p && #[trigger] d[k].1 as int == x;
                    assert(b[k] == d[k]);
                } else {
                    assert(b[b.len() - 1].1 as int == x);
                }
            }
            if exists|k: int| 0 <= k < b.len() && b[k].0 == p && #[trigger] b[k].1 as int == x {
                let k = choose|k: int| 0 <= k < b.len() && b[k].0 == p && #[trigger] b[k].1 as int == x;
                if k < d.len() {
                    assert(d[k] == b[k]);
                    assert(e.contains(x));
                    let w = choose|w: int| 0 <= w < e.len() && e[w] == x;
                    if b.last().0 == p {
                        assert(e.push(b.last().1 as int)[w] == e[w]);
                    }
                } else {
                    assert(exact_pos(b, p)[e.len() as int] == x);
                }
            }
        }
        if b.last().0 == p {
            assert forall|x: int| e.contains(x) implies x != b.last().1 as int by {
                let k = choose|k: int| 0 <= k < d.len() && d[k].0 == p && #[trigger] d[k].1 as int == x;
                assert(b[k].1 < b[b.len() - 1].1);
            }
            assert forall|i: int, j: int| 0 <= i < j < e.push(b.last().1 as int).len() implies e.push(b.last().1 as int)[i]
                != e.push(b.last().1 as int)[j] by {
                if j == e.len() {
                    assert(e.contains(e[i]));
                }
            }
        }
    }
}

/// `query_help` gives one row per stored triple that matches a plain
/// pattern, and no other row: its rows are the rows of the matching
/// triples, each taken once, at distinct positions that are exactly the
/// positions of the matching triples (a pattern of terms gets one empty row
/// per matching triple).
pub proof fn law_query_help_rows(v: TripleIndexView, q: Triple)
    requires
        indexes_ok(v),
        plain_pattern(q),
    ensures
        exists|ps: Seq<int>|
            #![trigger ps.no_duplicates()]
            ps.no_duplicates() && (forall|i: int|
                ps.contains(i) <==> 0 <= i < v.triples.len() && pattern_matches(q, #[trigger] v.triples[i]))
                && query_help_spec(v, q) == ps.map_values(|i: int| row_of(q, v.triples[i])),
{
    let s = code_of(q.s);
    let p = code_of(q.p);
    let o = code_of(q.o);
    let f = |i: int| row_of(q, v.triples[i]);
    if (q.s is Var && q.p is Term && q.o is Term) || (q.s is Term && q.p is Var && q.o is Term) || (q.s is Term && q.p is Term
        && q.o is Var) {
        let (kind, k1, k2, var) = if q.s is Var {
            (1int, p, o, s)
        } else if q.p is Var {
            (2int, o, s, p)
        } else {
            (0int, s, p, o)
        };
        let b = entries(bucket_of(index_of(v, kind), k1, k2));
        assert(kind_sound(v, kind, b, k1, k2));
        lemma_bucket_rows(v, kind, b, k1, k2, var);
        let ps = bucket_pos(b);
        assert forall|i: int| ps.contains(i) <==> 0 <= i < v.triples.len() && pattern_matches(q, #[trigger] v.triples[i]) by {
            if 0 <= i < v.triples.len() && pattern_matches(q, v.triples[i]) {
                let k = lemma_entry_of(v, kind, i);
                assert(ps[k] == i);
            }
        }
        assert forall|k: int| 0 <= k < ps.len() implies query_help_spec(v, q)[k] == f(ps[k]) by {
            assert(ps.contains(ps[k]));
            assert(row_of(q, v.triples[ps[k]]) =~= seq![EncodedBinding { var, val: keys_of(v.triples[ps[k]], kind).2 }]);
        }
        assert(query_help_spec(v, q) =~= ps.map_values(f));
    } else if (q.s is Var && q.p is Var && q.o is Term) || (q.s is Term && q.p is Var && q.o is Var) || (q.s is Var
        && q.p is Term && q.o is Var) {
        let (kind, k1, kvar, vvar, kf) = if q.o is Term {
            (2int, o, s, p, true)
        } else if q.s is Term {
            (0int, s, p, o, true)
        } else {
            (1int, p, o, s, false)
        };
        let ix = index_of(v, kind);
        let inner = inners(inner_of(ix, k1));
        lemma_find_pos(ix, k1, 0);
        if inner_of(ix, k1) is Some {
            assert(unique_keys(ix[pos_of(ix, k1)].1));
            assert forall|q2: int| 0 <= q2 < inner.len() implies kind_sound(v, kind, (#[trigger] inner[q2]).1, k1, inner[q2].0) by {
                lemma_ix_sound(v, kind, pos_of(ix, k1), q2);
            }
        }
        lemma_inner_rows(v, kind, k1, inner, kvar, vvar, kf);
        let ps = inner_pos(inner);
        assert forall|i: int| ps.contains(i) <==> 0 <= i < v.triples.len() && pattern_matches(q, #[trigger] v.triples[i]) by {
            if 0 <= i < v.triples.len() && pattern_matches(q, v.triples[i]) {
                let k = lemma_entry_of(v, kind, i);
                let t = v.triples[i];
                lemma_bucket_place(ix, k1, keys_of(t, kind).1);
                lemma_inner_pos_has(inner, pos_of(inner, keys_of(t, kind).1), k);
            }
        }
        assert forall|k: int| 0 <= k < ps.len() implies query_help_spec(v, q)[k] == f(ps[k]) by {
            assert(ps.contains(ps[k]));
            let t = v.triples[ps[k]];
            assert(row_of(q, t) =~= pair_row(kvar, keys_of(t, kind).1, vvar, keys_of(t, kind).2, kf));
        }
        assert(query_help_spec(v, q) =~= ps.map_values(f));
    } else if q.s is Var && q.p is Var && q.o is Var {
        lemma_all_rows(v, v.spo.len() as int, s, p, o);
        assert(v.spo.take(v.spo.len() as int) =~= v.spo);
        let ps = all_pos(v.spo);
        assert forall|i: int| ps.contains(i) <==> 0 <= i < v.triples.len() && pattern_matches(q, #[trigger] v.triples[i]) by {
            if 0 <= i < v.triples.len() {
                let k = lemma_entry_of(v, 0, i);
                let t = v.triples[i];
                lemma_bucket_place(v.spo, keys_of(t, 0).0, keys_of(t, 0).1);
                let p1 = pos_of(v.spo, keys_of(t, 0).0);
                let inner = v.spo[p1].1;
                lemma_all_pos_has(v.spo, v.spo.len() as int, p1, pos_of(inner, keys_of(t, 0).1), k);
            }
        }
        assert forall|k: int| 0 <= k < ps.len() implies query_help_spec(v, q)[k] == f(ps[k]) by {
            assert(ps.contains(ps[k]));
            let t = v.triples[ps[k]];
            assert(row_of(q, t) =~= triple_row(s, keys_of(t, 0).0, p, keys_of(t, 0).1, o, keys_of(t, 0).2));
        }
        assert(query_help_spec(v, q) =~= ps.map_values(f));
    } else {
        let b = entries(bucket_of(v.osp, o, s));
        assert(index_of(v, 2) == v.osp);
        assert(kind_sound(v, 2, b, o, s));
        lemma_exact_rows(b, p);
        let ps = exact_pos(b, p);
        assert forall|i: int| ps.contains(i) <==> 0 <= i < v.triples.len() && pattern_matches(q, #[trigger] v.triples[i]) by {
            if 0 <= i < v.triples.len() && pattern_matches(q, v.triples[i]) {
                let k = lemma_entry_of(v, 2, i);
                assert(b[k].1 as int == i);
            }
            if ps.contains(i) {
                let k = choose|k: int| 0 <= k < b.len() && b[k].0 == p && #[trigger] b[k].1 as int == i;
                lemma_entry_sound(v, 2, o, s, b, k);
            }
        }
        assert forall|k: int| 0 <= k < ps.len() implies query_help_spec(v, q)[k] == f(ps[k]) by {
            assert(row_of(q, v.triples[ps[k]]) =~= Seq::<EncodedBinding>::empty());
        }
        assert(query_help_spec(v, q) =~= ps.map_values(f));
    }
}

/// The positions of the entries of `b` that a scan up to `check` reads.
pub open spec fn check_pos(b: Seq<Entry>, check: usize) -> Seq<int>
    decreases b.len(),
{
    if b.len() == 0 || b[0].1 > check {
        seq![]
    } else {
        seq![b[0].1 as int] + check_pos(b.drop_first(), check)
    }
}

/// The positions that a scan of a second-level list up to `check` reads.
pub open spec fn inner_check_pos(inner: Seq<(usize, Seq<Entry>)>, check: usize) -> Seq<int>
    decreases inner.len(),
{
    if inner.len() == 0 {
        seq![]
    } else {
        inner_check_pos(inner.drop_last(), check) + check_pos(inner.last().1, check)
    }
}

/// The positions that a scan of an index up to `check` reads.
pub open spec fn all_check_pos(ix: IndexView, check: usize) -> Seq<int>
    decreases ix.len(),
{
    if ix.len() == 0 {
        seq![]
    } else {
        all_check_pos(ix.drop_last(), check) + inner_check_pos(ix.last().1, check)
    }
}

/// A scan of a bucket in the order of storing reads the entries stored up
/// to `check`: their positions, distinct, and their third codes.
proof fn lemma_check_pos(b: Seq<Entry>, check: usize)
    requires
        sorted_entries(b),
    ensures
        check_pos(b, check).len() == entry_vals(b, check).len(),
        check_pos(b, check).len() <= b.len(),
        check_pos(b, check).no_duplicates(),
        forall|k: int| 0 <= k < check_pos(b, check).len() ==> check_pos(b, check)[k] == b[k].1 as int && entry_vals(b, check)[k]
            == b[k].0 && b[k].1 <= check,
        forall|x: int| check_pos(b, check).contains(x) <==> exists|k: int| 0 <= k < b.len() && b[k].1 <= check && #[trigger] b[k].1 as int == x,
    decreases b.len(),
{
    if b.len() > 0 && b[0].1 <= check {
        let r = b.drop_first();
        assert(sorted_entries(r)) by {
            assert forall|k1: int, k2: int| 0 <= k1 < k2 < r.len() implies (#[trigger] r[k1]).1 < (#[trigger] r[k2]).1 by {
                assert(r[k1] == b[k1 + 1] && r[k2] == b[k2 + 1]);
            }
        }
        lemma_check_pos(r, check);
        let c = check_pos(b, check);
        let cr = check_pos(r, check);
        assert(c == seq![b[0].1 as int] + cr);
        assert forall|k: int| 0 <= k < c.len() implies c[k] == b[k].1 as int && entry_vals(b, check)[k] == b[k].0 && b[k].1 <= check by {
            if k > 0 {
                assert(c[k] == cr[k - 1]);
                assert(r[k - 1] == b[k]);
            }
        }
        assert forall|i: int, j: int| 0 <= i < j < c.len() implies c[i] != c[j] by {
            if i == 0 {
                assert(c[j] == b[j].1 as int);
                assert(b[0].1 < b[j].1);
            } else {
                assert(c[i] == cr[i - 1] && c[j] == cr[j - 1]);
            }
        }
        assert forall|x: int| c.contains(x) <==> exists|k: int| 0 <= k < b.len() && b[k].1 <= check && #[trigger] b[k].1 as int == x by {
            if c.contains(x) {
                let w = choose|w: int| 0 <= w < c.len() && c[w] == x;
                assert(b[w].1 as int == x);
            }
            if exists|k: int| 0 <= k < b.len() && b[k].1 <= check && #[trigger] b[k].1 as int == x {
                let k = choose|k: int| 0 <= k < b.len() && b[k].1 <= check && #[trigger] b[k].1 as int == x;
                if k == 0 {
                    assert(c[0] == x);
                } else {
                    assert(r[k - 1] == b[k]);
                    assert(cr.contains(x));
                    let w = choose|w: int| 0 <= w < cr.len() && cr[w] == x;
                    assert(c[w + 1] == cr[w]);
                }
            }
        }
    } else if b.len() > 0 {
        assert forall|x: int| check_pos(b, check).contains(x) <==> exists|k: int| 0 <= k < b.len() && b[k].1 <= check && #[trigger] b[k].1 as int == x by {
            if exists|k: int| 0 <= k < b.len() && b[k].1 <= check && #[trigger] b[k].1 as int == x {
                let k = choose|k: int| 0 <= k < b.len() && b[k].1 <= check && #[trigger] b[k].1 as int == x;
                if k > 0 {
                    assert(b[0].1 < b[k].1);
                }
            }
        }
    }
}

proof fn lemma_inner_check(v: TripleIndexView, kind: int, k1: usize, inner: Seq<(usize, Seq<Entry>)>, check: usize)
    requires
        unique_keys(inner),
        forall|p: int| 0 <= p < inner.len() ==> kind_sound(v, kind, (#[trigger] inner[p]).1, k1, inner[p].0),
    ensures
        inner_check_pos(inner, check).len() == inner_vals(inner, check).len(),
        inner_check_pos(inner, check).no_duplicates(),
        forall|r: int|
            0 <= r < inner_check_pos(inner, check).len() ==> {
                let x = #[trigger] inner_check_pos(inner, check)[r];
                &&& 0 <= x < v.triples.len()
                &&& x <= check
                &&& keys_of(v.triples[x], kind) == (k1, inner_keys(inner, check)[r], inner_vals(inner, check)[r])
                &&& keys_list(inner).contains(inner_keys(inner, check)[r])
            },
    decreases inner.len(),
{
    lemma_inner_lens(inner, check);
    if inner.len() > 0 {
        let dl = inner.drop_last();
        let last = inner.last();
        assert forall|p: int| 0 <= p < dl.len() implies kind_sound(v, kind, (#[trigger] dl[p]).1, k1, dl[p].0) by {
            assert(dl[p] == inner[p]);
        }
        assert(unique_keys(dl));
        lemma_inner_check(v, kind, k1, dl, check);
        lemma_inner_lens(dl, check);
        assert(kind_sound(v, kind, inner[inner.len() - 1].1, k1, inner[inner.len() - 1].0));
        assert(sorted_entries(last.1));
        lemma_check_pos(last.1, check);
        let a = inner_check_pos(dl, check);
        let b = check_pos(last.1, check);
        let c = inner_check_pos(inner, check);
        assert(c == a + b);
        assert forall|x: int| a.contains(x) implies !b.contains(x) by {
            if b.contains(x) {
                let ra = choose|ra: int| 0 <= ra < a.len() && a[ra] == x;
                let kb = choose|kb: int| 0 <= kb < last.1.len() && last.1[kb].1 <= check && #[trigger] last.1[kb].1 as int == x;
                assert(keys_of(v.triples[x], kind).1 == last.0);
                let key = inner_keys(dl, check)[ra];
                let p = choose|p: int| 0 <= p < keys_list(dl).len() && keys_list(dl)[p] == key;
                assert(dl[p] == inner[p]);
                assert(inner[p].0 != inner[inner.len() - 1].0);
            }
        }
        lemma_concat_no_dup(a, b);
        let ik = inner_keys(inner, check);
        let iv = inner_vals(inner, check);
        assert forall|r: int| 0 <= r < c.len() implies {
            let x = #[trigger] c[r];
            &&& 0 <= x < v.triples.len()
            &&& x <= check
            &&& keys_of(v.triples[x], kind) == (k1, ik[r], iv[r])
            &&& keys_list(inner).contains(ik[r])
        } by {
            if r < a.len() {
                assert(c[r] == a[r]);
                assert(ik[r] == inner_keys(dl, check)[r]);
                assert(iv[r] == inner_vals(dl, check)[r]);
                let key = inner_keys(dl, check)[r];
                let p = choose|p: int| 0 <= p < keys_list(dl).len() && keys_list(dl)[p] == key;
                assert(keys_list(inner)[p] == keys_list(dl)[p]);
            } else {
                let k = r - a.len();
                assert(c[r] == b[k]);
                assert(ik[r] == last.0);
                assert(iv[r] == entry_vals(last.1, check)[k]);
                assert(keys_list(inner)[inner.len() - 1] == last.0);
            }
        }
    }
}

proof fn lemma_inner_check_has(inner: Seq<(usize, Seq<Entry>)>, check: usize, pos: int, k: int)
    requires
        0 <= pos < inner.len(),
        0 <= k < inner[pos].1.len(),
        inner[pos].1[k].1 <= check,
        sorted_entries(inner[pos].1),
    ensures
        inner_check_pos(inner, check).contains(inner[pos].1[k].1 as int),
    decreases inner.len(),
{
    let dl = inner.drop_last();
    let a = inner_check_pos(dl, check);
    let b = check_pos(inner.last().1, check);
    assert(inner_check_pos(inner, check) == a + b);
    if pos == inner.len() - 1 {
        lemma_check_pos(inner.last().1, check);
        assert(b.contains(inner[pos].1[k].1 as int));
        let w = choose|w: int| 0 <= w < b.len() && b[w] == inner[pos].1[k].1 as int;
        assert((a + b)[a.len() + w] == b[w]);
    } else {
        assert(dl[pos] == inner[pos]);
        lemma_inner_check_has(dl, check, pos, k);
        let w = choose|w: int| 0 <= w < a.len() && a[w] == inner[pos].1[k].1 as int;
        assert((a + b)[w] == a[w]);
    }
}

proof fn lemma_all_check(v: TripleIndexView, n: int, check: usize)
    requires
        kind_ok(v, 0),
        0 <= n <= v.spo.len(),
    ensures
        all_check_pos(v.spo.take(n), check).len() == all_vals(v.spo.take(n), check).len(),
        all_check_pos(v.spo.take(n), check).no_duplicates(),
        forall|r: int|
            0 <= r < all_check_pos(v.spo.take(n), check).len() ==> {
                let x = #[trigger] all_check_pos(v.spo.take(n), check)[r];
                &&& 0 <= x < v.triples.len()
                &&& x <= check
                &&& keys_of(v.triples[x], 0) == (
                    all_keys(v.spo.take(n), check)[r],
                    all_mid(v.spo.take(n), check)[r],
                    all_vals(v.spo.take(n), check)[r],
                )
                &&& keys_list(v.spo.take(n)).contains(all_keys(v.spo.take(n), check)[r])
            },
    decreases n,
{
    let ix = v.spo;
    let t = ix.take(n);
    lemma_all_lens(t, check);
    if n > 0 {
        lemma_all_check(v, n - 1, check);
        assert(t.drop_last() =~= ix.take(n - 1));
        let dl = ix.take(n - 1);
        lemma_all_lens(dl, check);
        let inner = ix[n - 1].1;
        assert(index_of(v, 0) == ix);
        assert(unique_keys(inner));
        assert forall|q: int| 0 <= q < inner.len() implies kind_sound(v, 0, (#[trigger] inner[q]).1, ix[n - 1].0, inner[q].0) by {
            lemma_ix_sound(v, 0, n - 1, q);
        }
        lemma_inner_check(v, 0, ix[n - 1].0, inner, check);
        let a = all_check_pos(dl, check);
        let b = inner_check_pos(inner, check);
        let c = all_check_pos(t, check);
        assert(c == a + b);
        assert forall|x: int| a.contains(x) implies !b.contains(x) by {
            if b.contains(x) {
                let ra = choose|ra: int| 0 <= ra < a.len() && a[ra] == x;
                let rb = choose|rb: int| 0 <= rb < b.len() && b[rb] == x;
                let key = all_keys(dl, check)[ra];
                let q = choose|q: int| 0 <= q < keys_list(dl).len() && #[trigger] keys_list(dl)[q] == key;
                assert(dl[q] == ix[q]);
                assert(ix[q].0 != ix[n - 1].0);
            }
        }
        lemma_concat_no_dup(a, b);
        lemma_inner_lens(inner, check);
        assert forall|r: int| 0 <= r < c.len() implies {
            let x = #[trigger] c[r];
            &&& 0 <= x < v.triples.len()
            &&& x <= check
            &&& keys_of(v.triples[x], 0) == (all_keys(t, check)[r], all_mid(t, check)[r], all_vals(t, check)[r])
            &&& keys_list(t).contains(all_keys(t, check)[r])
        } by {
            if r < a.len() {
                assert(c[r] == a[r]);
                assert(all_keys(t, check)[r] == all_keys(dl, check)[r]);
                assert(all_mid(t, check)[r] == all_mid(dl, check)[r]);
                assert(all_vals(t, check)[r] == all_vals(dl, check)[r]);
                let key = all_keys(dl, check)[r];
                let q = choose|q: int| 0 <= q < keys_list(dl).len() && #[trigger] keys_list(dl)[q] == key;
                assert(keys_list(t)[q] == keys_list(dl)[q]);
            } else {
                let k = r - a.len();
                assert(c[r] == b[k]);
                assert(all_keys(t, check)[r] == ix[n - 1].0);
                assert(all_mid(t, check)[r] == inner_keys(inner, check)[k]);
                assert(all_vals(t, check)[r] == inner_vals(inner, check)[k]);
                assert(keys_list(t)[n - 1] == ix[n - 1].0);
            }
        }
    }
}

proof fn lemma_all_check_has(ix: IndexView, check: usize, n: int, p1: int, p2: int, k: int)
    requires
        0 <= p1 < n <= ix.len(),
        0 <= p2 < ix[p1].1.len(),
        0 <= k < ix[p1].1[p2].1.len(),
        ix[p1].1[p2].1[k].1 <= check,
        sorted_entries(ix[p1].1[p2].1),
    ensures
        all_check_pos(ix.take(n), check).contains(ix[p1].1[p2].1[k].1 as int),
    decreases n,
{
    let t = ix.take(n);
    assert(t.drop_last() =~= ix.take(n - 1));
    let a = all_check_pos(ix.take(n - 1), check);
    let b = inner_check_pos(ix[n - 1].1, check);
    assert(all_check_pos(t, check) == a + b);
    let x = ix[p1].1[p2].1[k].1 as int;
    if p1 == n - 1 {
        lemma_inner_check_has(ix[n - 1].1, check, p2, k);
        let w = choose|w: int| 0 <= w < b.len() && b[w] == x;
        assert((a + b)[a.len() + w] == b[w]);
    } else {
        lemma_all_check_has(ix, check, n - 1, p1, p2, k);
        let w = choose|w: int| 0 <= w < a.len() && a[w] == x;
        assert((a + b)[w] == a[w]);
    }
}

/// The rows of a query answer for the positions `ps`: row `k` makes the
/// pattern the instance of the triple at `ps[k]`.
pub open spec fn rows_at(v: TripleIndexView, q: Triple, c: BindingView, ps: Seq<int>) -> bool {
    &&& bind_len(c) == ps.len()
    &&& forall|k: int|
        0 <= k < ps.len() ==> binds(q, row_map(c, k)) && same_codes(v.triples[#[trigger] ps[k]], inst(q, row_map(c, k)))
}

/// A query of a plain pattern with variables, counting entries up to
/// `check`, answers with one row per triple stored at or before `check`
/// that matches it, and no other row: the rows stand for distinct positions
/// that are exactly those of the matching triples, row `k` making the
/// pattern the instance of the triple at the `k`-th; without a matching
/// triple there is no answer.
pub proof fn law_query_rows(v: TripleIndexView, q: Triple, check: usize)
    requires
        indexes_ok(v),
        plain_pattern(q),
        !ground(q),
    ensures
        exists|ps: Seq<int>|
            #![trigger ps.no_duplicates()]
            ps.no_duplicates() && (forall|i: int|
                ps.contains(i) <==> 0 <= i < v.triples.len() && i <= check && pattern_matches(q, #[trigger] v.triples[i]))
                && (query_spec(v, q, check) is Some <==> ps.len() > 0) && (ps.len() > 0 ==> rows_at(
                v,
                q,
                query_spec(v, q, check).unwrap(),
                ps,
            )),
{
    let s = code_of(q.s);
    let p = code_of(q.p);
    let o = code_of(q.o);
    if (q.s is Var && q.p is Term && q.o is Term) || (q.s is Term && q.p is Var && q.o is Term) || (q.s is Term && q.p is Term
        && q.o is Var) {
        let (kind, k1, k2, var) = if q.s is Var {
            (1int, p, o, s)
        } else if q.p is Var {
            (2int, o, s, p)
        } else {
            (0int, s, p, o)
        };
        let b = entries(bucket_of(index_of(v, kind), k1, k2));
        assert(kind_sound(v, kind, b, k1, k2));
        lemma_check_pos(b, check);
        lemma_scan_single(b, var, check, seq![]);
        let ps = check_pos(b, check);
        let ev = entry_vals(b, check);
        let c = adds_to(seq![], scan_single(b, var, None, check));
        assert forall|i: int| ps.contains(i) <==> 0 <= i < v.triples.len() && i <= check && pattern_matches(q, #[trigger] v.triples[i]) by {
            if ps.contains(i) {
                let k = choose|k: int| 0 <= k < b.len() && b[k].1 <= check && #[trigger] b[k].1 as int == i;
                lemma_entry_sound(v, kind, k1, k2, b, k);
            }
            if 0 <= i < v.triples.len() && i <= check && pattern_matches(q, v.triples[i]) {
                let k = lemma_entry_of(v, kind, i);
                assert(b[k].1 as int == i);
            }
        }
        if ps.len() > 0 {
            assert(c == seq![(var, ev)]) by {
                assert(ext(seq![], seq![var], seq![ev]) =~= seq![(var, ev)]);
            }
            lemma_key_pos(c, var);
            assert forall|k: int| 0 <= k < ps.len() implies binds(q, row_map(c, k)) && same_codes(v.triples[#[trigger] ps[k]], inst(q, row_map(c, k))) by {
                lemma_entry_sound(v, kind, k1, k2, b, k);
            }
        } else {
            assert(c =~= Seq::<(usize, Seq<usize>)>::empty());
        }
    } else if (q.s is Var && q.p is Var && q.o is Term) || (q.s is Term && q.p is Var && q.o is Var) || (q.s is Var
        && q.p is Term && q.o is Var) {
        let (kind, k1, kvar, vvar) = if q.o is Term {
            (2int, o, s, p)
        } else if q.s is Term {
            (0int, s, p, o)
        } else {
            (1int, p, o, s)
        };
        let ix = index_of(v, kind);
        let inner = inners(inner_of(ix, k1));
        lemma_find_pos(ix, k1, 0);
        if inner_of(ix, k1) is Some {
            assert(unique_keys(ix[pos_of(ix, k1)].1));
            assert forall|q2: int| 0 <= q2 < inner.len() implies kind_sound(v, kind, (#[trigger] inner[q2]).1, k1, inner[q2].0) by {
                lemma_ix_sound(v, kind, pos_of(ix, k1), q2);
            }
        }
        lemma_inner_check(v, kind, k1, inner, check);
        lemma_scan_inner(inner, kvar, vvar, check, seq![]);
        lemma_inner_lens(inner, check);
        let ps = inner_check_pos(inner, check);
        let ik = inner_keys(inner, check);
        let iv = inner_vals(inner, check);
        let c = adds_to(seq![], scan_inner(inner, kvar, vvar, None, check));
        assert forall|i: int| ps.contains(i) <==> 0 <= i < v.triples.len() && i <= check && pattern_matches(q, #[trigger] v.triples[i]) by {
            if ps.contains(i) {
                let r = choose|r: int| 0 <= r < ps.len() && ps[r] == i;
                assert(keys_of(v.triples[ps[r]], kind).0 == k1);
            }
            if 0 <= i < v.triples.len() && i <= check && pattern_matches(q, v.triples[i]) {
                let k = lemma_entry_of(v, kind, i);
                let t = v.triples[i];
                lemma_bucket_place(ix, k1, keys_of(t, kind).1);
                lemma_inner_check_has(inner, check, pos_of(inner, keys_of(t, kind).1), k);
            }
        }
        if ps.len() > 0 {
            assert(c == seq![(kvar, ik), (vvar, iv)]) by {
                assert(ext(seq![], seq![kvar, vvar], seq![ik, iv]) =~= seq![(kvar, ik), (vvar, iv)]);
            }
            lemma_key_pos(c, kvar);
            lemma_key_pos(c, vvar);
            assert forall|k: int| 0 <= k < ps.len() implies binds(q, row_map(c, k)) && same_codes(v.triples[#[trigger] ps[k]], inst(q, row_map(c, k))) by {
                assert(keys_of(v.triples[ps[k]], kind) == (k1, ik[k], iv[k]));
            }
        } else {
            assert(c =~= Seq::<(usize, Seq<usize>)>::empty());
        }
    } else {
        let ix = v.spo;
        lemma_all_check(v, ix.len() as int, check);
        assert(ix.take(ix.len() as int) =~= ix);
        lemma_scan_all(ix, s, p, o, check, seq![]);
        lemma_all_lens(ix, check);
        let ps = all_check_pos(ix, check);
        let a1 = all_keys(ix, check);
        let a2 = all_mid(ix, check);
        let a3 = all_vals(ix, check);
        let c = adds_to(seq![], scan_all(ix, s, p, o, None, check));
        assert forall|i: int| ps.contains(i) <==> 0 <= i < v.triples.len() && i <= check && pattern_matches(q, #[trigger] v.triples[i]) by {
            if 0 <= i < v.triples.len() && i <= check {
                let k = lemma_entry_of(v, 0, i);
                let t = v.triples[i];
                assert(index_of(v, 0) == ix);
                lemma_bucket_place(ix, keys_of(t, 0).0, keys_of(t, 0).1);
                let p1 = pos_of(ix, keys_of(t, 0).0);
                let inner = ix[p1].1;
                lemma_all_check_has(ix, check, ix.len() as int, p1, pos_of(inner, keys_of(t, 0).1), k);
            }
        }
        if ps.len() > 0 {
            assert(c == seq![(s, a1), (p, a2), (o, a3)]) by {
                assert(ext(seq![], seq![s, p, o], seq![a1, a2, a3]) =~= seq![(s, a1), (p, a2), (o, a3)]);
            }
            lemma_key_pos(c, s);
            lemma_key_pos(c, p);
            lemma_key_pos(c, o);
            assert forall|k: int| 0 <= k < ps.len() implies binds(q, row_map(c, k)) && same_codes(v.triples[#[trigger] ps[k]], inst(q, row_map(c, k))) by {
                assert(keys_of(v.triples[ps[k]], 0) == (a1[k], a2[k], a3[k]));
            }
        } else {
            assert(c =~= Seq::<(usize, Seq<usize>)>::empty());
        }
    }
}

/// The triples that adding the new ones of `ts` adds are held afterwards,
/// were not held before, and no two have the same codes.
proof fn lemma_add_new_distinct(v: TripleIndexView, ts: Seq<Triple>)
    requires
        add_new(v, ts) is Some,
    ensures
        ({
            let (v2, inf) = add_new(v, ts).unwrap();
            &&& forall|i: int| 0 <= i < inf.len() ==> contains_spec(v2, #[trigger] inf[i]) && !contains_spec(v, inf[i])
            &&& forall|i: int, j: int| 0 <= i < j < inf.len() ==> !same_codes(#[trigger] inf[i], #[trigger] inf[j])
            &&& forall|u: Triple| contains_spec(v, u) ==> #[trigger] contains_spec(v2, u)
        }),
    decreases ts.len(),
{
    if ts.len() > 0 {
        lemma_add_new_distinct(v, ts.drop_last());
        let (v1, inf1) = add_new(v, ts.drop_last()).unwrap();
        let t = ts.last();
        if !contains_spec(v1, t) {
            let v2 = add_spec(v1, t);
            let inf = inf1.push(t);
            law_contains_after_add(v1, t, t);
            assert forall|u: Triple| contains_spec(v1, u) implies #[trigger] contains_spec(v2, u) by {
                law_contains_after_add(v1, t, u);
            }
            assert forall|i: int| 0 <= i < inf.len() implies contains_spec(v2, #[trigger] inf[i]) && !contains_spec(v, inf[i]) by {
                if i < inf1.len() {
                    assert(inf[i] == inf1[i]);
                } else {
                    assert(inf[i] == t);
                }
            }
            assert forall|i: int, j: int| 0 <= i < j < inf.len() implies !same_codes(#[trigger] inf[i], #[trigger] inf[j]) by {
                if j == inf1.len() {
                    assert(inf[i] == inf1[i]);
                    assert(contains_spec(v1, inf1[i]));
                    if same_codes(inf1[i], t) {
                        lemma_contains_codes(v1, inf1[i], t);
                    }
                } else {
                    assert(inf[i] == inf1[i] && inf[j] == inf1[j]);
                }
            }
        }
    }
}

proof fn lemma_mat_run_distinct(v: TripleIndexView, ri: RuleIndexView, counter: nat, inferred: Seq<Triple>, fuel: nat)
    requires
        mat_run(v, ri, counter, inferred, fuel) is Some,
        forall|i: int| 0 <= i < inferred.len() ==> contains_spec(v, #[trigger] inferred[i]),
        forall|i: int, j: int| 0 <= i < j < inferred.len() ==> !same_codes(#[trigger] inferred[i], #[trigger] inferred[j]),
    ensures
        ({
            let all = mat_run(v, ri, counter, inferred, fuel).unwrap().1;
            forall|i: int, j: int| 0 <= i < j < all.len() ==> !same_codes(#[trigger] all[i], #[trigger] all[j])
        }),
    decreases fuel,
{
    if counter < v.triples.len() {
        let (v2, new) = mat_step(v, ri, counter as int).unwrap();
        let u = v.triples[counter as int];
        let rs = specialize_all(u, rules_at(ri.rules, match_spec(ri, u))).unwrap();
        let hs = heads_all(v, rs, Some((counter + 1) as usize)).unwrap();
        lemma_add_new_distinct(v, hs);
        let i0 = inferred + new;
        assert forall|i: int| 0 <= i < i0.len() implies contains_spec(v2, #[trigger] i0[i]) by {
            if i < inferred.len() {
                assert(i0[i] == inferred[i]);
            } else {
                assert(i0[i] == new[i - inferred.len()]);
            }
        }
        assert forall|i: int, j: int| 0 <= i < j < i0.len() implies !same_codes(#[trigger] i0[i], #[trigger] i0[j]) by {
            if j < inferred.len() {
                assert(i0[i] == inferred[i] && i0[j] == inferred[j]);
            } else if i >= inferred.len() {
                assert(i0[i] == new[i - inferred.len()] && i0[j] == new[j - inferred.len()]);
            } else {
                assert(i0[i] == inferred[i] && i0[j] == new[j - inferred.len()]);
                assert(contains_spec(v, inferred[i]));
                assert(!contains_spec(v, new[j - inferred.len()]));
                if same_codes(inferred[i], new[j - inferred.len()]) {
                    lemma_contains_codes(v, inferred[i], new[j - inferred.len()]);
                }
            }
        }
        lemma_mat_run_distinct(v2, ri, counter + 1, i0, (fuel - 1) as nat);
    }
}

/// Materialization adds each triple once: no two of the triples it returns
/// have the same subject, predicate and object.
pub proof fn law_materialize_distinct(v: TripleIndexView, ri: RuleIndexView)
    requires
        materializes(v, ri),
    ensures
        forall|i: int, j: int|
            0 <= i < j < mat_result(v, ri).1.len() ==> !same_codes(#[trigger] mat_result(v, ri).1[i], #[trigger] mat_result(v, ri).1[j]),
{
    lemma_mat_run_distinct(v, ri, 0, seq![], mat_fuel(v, ri));
}

} // verus!
