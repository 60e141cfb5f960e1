//! The triple index: the triples of a store, and three nested indexes over
//! their codes (subject-predicate-object, predicate-object-subject and
//! object-subject-predicate) that triple patterns are answered from.
//!
//! Each index maps a first code to a map from a second code to the list of
//! entries `(third code, counter, graph)` in order of insertion; the maps keep
//! their keys in order of first insertion, which is the order in which
//! queries visit them.
use vstd::prelude::*;
use std::rc::Rc;
use crate::triples::{Triple, TermImpl, VarOrTerm, code_of};
use crate::bindings::{Binding, BindingView, adds_to, bind_len, bind_add};

verus! {

/// An entry of an index: the third code, the counter of the triple when it
/// was added, and its graph.
pub type Entry = (usize, usize, Option<TermImpl>);

/// An index seen as its first keys in order, each with its second keys in
/// order, each with its entries.
pub type IndexView = Seq<(usize, Seq<(usize, Seq<Entry>)>)>;

/// The position of the first key `k` at or after `i` in an association
/// list, or -1.
pub open spec fn find_pos<X>(s: Seq<(usize, X)>, k: usize, i: int) -> int
    decreases s.len() - i,
{
    if i < 0 || i >= s.len() {
        -1
    } else if s[i].0 == k {
        i
    } else {
        find_pos(s, k, i + 1)
    }
}

/// The position of key `k` in an association list, or -1.
pub open spec fn pos_of<X>(s: Seq<(usize, X)>, k: usize) -> int {
    find_pos(s, k, 0)
}

pub proof fn lemma_find_pos<X>(s: Seq<(usize, X)>, k: usize, i: int)
    requires
        0 <= i,
    ensures
        find_pos(s, k, i) == -1 || (i <= find_pos(s, k, i) < s.len() && s[find_pos(s, k, i)].0 == k),
        find_pos(s, k, i) == -1 ==> forall|t: int| i <= t < s.len() ==> s[t].0 != k,
    decreases s.len() - i,
{
    if i < s.len() && s[i].0 != k {
        lemma_find_pos(s, k, i + 1);
    }
}

/// The second-level map of first key `k1`, if any.
pub open spec fn inner_of(ix: IndexView, k1: usize) -> Option<Seq<(usize, Seq<Entry>)>> {
    if pos_of(ix, k1) >= 0 {
        Some(ix[pos_of(ix, k1)].1)
    } else {
        None
    }
}

/// The entries under keys `k1` and `k2`, if any.
pub open spec fn bucket_of(ix: IndexView, k1: usize, k2: usize) -> Option<Seq<Entry>> {
    match inner_of(ix, k1) {
        Some(inner) => if pos_of(inner, k2) >= 0 {
            Some(inner[pos_of(inner, k2)].1)
        } else {
            None
        },
        None => None,
    }
}

/// The index with `e` appended to the entries under `k1` and `k2` (keys that
/// are missing are added last).
pub open spec fn ix_insert(ix: IndexView, k1: usize, k2: usize, e: Entry) -> IndexView {
    let p1 = pos_of(ix, k1);
    if p1 < 0 {
        ix.push((k1, seq![(k2, seq![e])]))
    } else {
        let inner = ix[p1].1;
        let p2 = pos_of(inner, k2);
        let inner2 = if p2 < 0 {
            inner.push((k2, seq![e]))
        } else {
            inner.update(p2, (k2, inner[p2].1.push(e)))
        };
        ix.update(p1, (k1, inner2))
    }
}

/// The entries without those whose third code is `v`.
pub open spec fn drop_value(b: Seq<Entry>, v: usize) -> Seq<Entry>
    decreases b.len(),
{
    if b.len() == 0 {
        seq![]
    } else if b.last().0 == v {
        drop_value(b.drop_last(), v)
    } else {
        drop_value(b.drop_last(), v).push(b.last())
    }
}

/// The index with the entries of third code `v` under `k1` and `k2` removed.
pub open spec fn ix_remove(ix: IndexView, k1: usize, k2: usize, v: usize) -> IndexView {
    let p1 = pos_of(ix, k1);
    if p1 < 0 {
        ix
    } else {
        let inner = ix[p1].1;
        let p2 = pos_of(inner, k2);
        if p2 < 0 {
            ix
        } else {
            ix.update(p1, (k1, inner.update(p2, (k2, drop_value(inner[p2].1, v)))))
        }
    }
}

/// The triples other than `t`.
pub open spec fn without(ts: Seq<Triple>, t: Triple) -> Seq<Triple>
    decreases ts.len(),
{
    if ts.len() == 0 {
        seq![]
    } else if ts.last() == t {
        without(ts.drop_last(), t)
    } else {
        without(ts.drop_last(), t).push(ts.last())
    }
}

/// The graph of a triple as a term (a triple's graph, when it has one, is a
/// term).
pub open spec fn graph_term(g: Option<VarOrTerm>) -> Option<TermImpl> {
    match g {
        Some(VarOrTerm::Term(t)) => Some(t),
        _ => None,
    }
}

/// A triple that can be stored: its graph, if any, is a term.
pub open spec fn storable(t: Triple) -> bool {
    match t.g {
        Some(g) => g is Term,
        None => true,
    }
}

/// Checking an entry's graph against the graph of a pattern: a variable
/// graph is bound to the entry's graph when it has one; a term graph must be
/// the entry's graph. Gives whether the entry passes and the values bound.
pub open spec fn graph_check(qg: Option<VarOrTerm>, eg: Option<TermImpl>) -> (bool, Seq<(usize, usize)>) {
    match qg {
        Some(VarOrTerm::Var(v)) => match eg {
            Some(t) => (true, seq![(v.name, t.iri)]),
            None => (true, seq![]),
        },
        Some(VarOrTerm::Term(t)) => if eg == Some(t) {
            (true, seq![])
        } else {
            (false, seq![])
        },
        None => (true, seq![]),
    }
}

/// The values that scanning entries binds, one variable bound to each
/// entry's third code; the scan stops at the first entry added after
/// `check` or whose graph does not pass.
pub open spec fn scan_single(b: Seq<Entry>, var: usize, qg: Option<VarOrTerm>, check: usize) -> Seq<(usize, usize)>
    decreases b.len(),
{
    if b.len() == 0 {
        seq![]
    } else if b[0].1 > check || !graph_check(qg, b[0].2).0 {
        seq![]
    } else {
        graph_check(qg, b[0].2).1.push((var, b[0].0)) + scan_single(b.drop_first(), var, qg, check)
    }
}

/// Like `scan_single`, binding `kvar` to `key` and `vvar` to each entry's
/// third code.
pub open spec fn scan_pair(
    b: Seq<Entry>,
    kvar: usize,
    key: usize,
    vvar: usize,
    qg: Option<VarOrTerm>,
    check: usize,
) -> Seq<(usize, usize)>
    decreases b.len(),
{
    if b.len() == 0 {
        seq![]
    } else if b[0].1 > check || !graph_check(qg, b[0].2).0 {
        seq![]
    } else {
        graph_check(qg, b[0].2).1.push((kvar, key)).push((vvar, b[0].0)) + scan_pair(
            b.drop_first(),
            kvar,
            key,
            vvar,
            qg,
            check,
        )
    }
}

/// `scan_pair` over every second-level key in order.
pub open spec fn scan_inner(
    inner: Seq<(usize, Seq<Entry>)>,
    kvar: usize,
    vvar: usize,
    qg: Option<VarOrTerm>,
    check: usize,
) -> Seq<(usize, usize)>
    decreases inner.len(),
{
    if inner.len() == 0 {
        seq![]
    } else {
        scan_inner(inner.drop_last(), kvar, vvar, qg, check) + scan_pair(
            inner.last().1,
            kvar,
            inner.last().0,
            vvar,
            qg,
            check,
        )
    }
}

/// Like `scan_single`, binding subject, predicate and object.
pub open spec fn scan_triple(
    b: Seq<Entry>,
    s: usize,
    skey: usize,
    p: usize,
    pkey: usize,
    o: usize,
    qg: Option<VarOrTerm>,
    check: usize,
) -> Seq<(usize, usize)>
    decreases b.len(),
{
    if b.len() == 0 {
        seq![]
    } else if b[0].1 > check || !graph_check(qg, b[0].2).0 {
        seq![]
    } else {
        graph_check(qg, b[0].2).1.push((s, skey)).push((p, pkey)).push((o, b[0].0)) + scan_triple(
            b.drop_first(),
            s,
            skey,
            p,
            pkey,
            o,
            qg,
            check,
        )
    }
}

/// `scan_triple` over every second-level key of subject `skey`.
pub open spec fn scan_subject(
    inner: Seq<(usize, Seq<Entry>)>,
    s: usize,
    skey: usize,
    p: usize,
    o: usize,
    qg: Option<VarOrTerm>,
    check: usize,
) -> Seq<(usize, usize)>
    decreases inner.len(),
{
    if inner.len() == 0 {
        seq![]
    } else {
        scan_subject(inner.drop_last(), s, skey, p, o, qg, check) + scan_triple(
            inner.last().1,
            s,
            skey,
            p,
            inner.last().0,
            o,
            qg,
            check,
        )
    }
}

/// `scan_subject` over every subject of the index.
pub open spec fn scan_all(ix: IndexView, s: usize, p: usize, o: usize, qg: Option<VarOrTerm>, check: usize) -> Seq<(usize, usize)>
    decreases ix.len(),
{
    if ix.len() == 0 {
        seq![]
    } else {
        scan_all(ix.drop_last(), s, p, o, qg, check) + scan_subject(ix.last().1, s, ix.last().0, p, o, qg, check)
    }
}

/// Scanning the entries for predicate `p` (all three codes given): the values
/// bound by the graph checks before a stop, and whether an entry with
/// predicate `p` was reached.
pub open spec fn scan_exact(b: Seq<Entry>, p: usize, qg: Option<VarOrTerm>, check: usize) -> (Seq<(usize, usize)>, bool)
    decreases b.len(),
{
    if b.len() == 0 {
        (seq![], false)
    } else if b[0].1 > check || !graph_check(qg, b[0].2).0 {
        (seq![], false)
    } else if b[0].0 == p {
        (graph_check(qg, b[0].2).1, true)
    } else {
        let rest = scan_exact(b.drop_first(), p, qg, check);
        (graph_check(qg, b[0].2).1 + rest.0, rest.1)
    }
}

/// A binding made of the values `adds`, when it has at least one row.
pub open spec fn some_rows(adds: Seq<(usize, usize)>) -> Option<BindingView> {
    let b = adds_to(seq![], adds);
    if bind_len(b) > 0 {
        Some(b)
    } else {
        None
    }
}

/// The entries of a bucket that may be missing.
pub open spec fn entries(b: Option<Seq<Entry>>) -> Seq<Entry> {
    match b {
        Some(e) => e,
        None => seq![],
    }
}

/// The second-level map that may be missing.
pub open spec fn inners(b: Option<Seq<(usize, Seq<Entry>)>>) -> Seq<(usize, Seq<(Entry)>)> {
    match b {
        Some(e) => e,
        None => seq![],
    }
}

/// The answer to pattern `q` over the index `v`, counting only entries
/// added at or before `check`: the pattern's terms select the index and the
/// keys, its variables are bound to the codes found; `None` when no row was
/// bound, except that a pattern of three terms that is found gives the
/// (possibly empty) binding of its graph variable.
pub open spec fn query_spec(v: TripleIndexView, q: Triple, check: usize) -> Option<BindingView> {
    let s = code_of(q.s);
    let p = code_of(q.p);
    let o = code_of(q.o);
    if q.s is Var && q.p is Term && q.o is Term {
        some_rows(scan_single(entries(bucket_of(v.pos, p, o)), s, q.g, check))
    } else if q.s is Term && q.p is Var && q.o is Term {
        some_rows(scan_single(entries(bucket_of(v.osp, o, s)), p, q.g, check))
    } else if q.s is Term && q.p is Term && q.o is Var {
        some_rows(scan_single(entries(bucket_of(v.spo, s, p)), o, q.g, check))
    } else if q.s is Var && q.p is Var && q.o is Term {
        some_rows(scan_inner(inners(inner_of(v.osp, o)), s, p, q.g, check))
    } else if q.s is Term && q.p is Var && q.o is Var {
        some_rows(scan_inner(inners(inner_of(v.spo, s)), p, o, q.g, check))
    } else if q.s is Var && q.p is Term && q.o is Var {
        some_rows(scan_inner(inners(inner_of(v.pos, p)), o, s, q.g, check))
    } else if q.s is Var && q.p is Var && q.o is Var {
        some_rows(scan_all(v.spo, s, p, o, q.g, check))
    } else {
        let r = scan_exact(entries(bucket_of(v.osp, o, s)), p, q.g, check);
        if r.1 {
            Some(adds_to(seq![], r.0))
        } else {
            some_rows(r.0)
        }
    }
}

/// The counter bound of a query: the given one, else the index's counter.
pub open spec fn counter_bound(v: TripleIndexView, triple_counter: Option<usize>) -> usize {
    match triple_counter {
        Some(c) => c,
        None => v.counter,
    }
}

/// The index after `t` was added: its entries appended under its codes in
/// the three indexes (with the current counter), `t` appended to the
/// triples, and the counter increased.
pub open spec fn add_spec(v: TripleIndexView, t: Triple) -> TripleIndexView {
    let s = code_of(t.s);
    let p = code_of(t.p);
    let o = code_of(t.o);
    let g = graph_term(t.g);
    TripleIndexView {
        triples: v.triples.push(t),
        spo: ix_insert(v.spo, s, p, (o, v.counter, g)),
        pos: ix_insert(v.pos, p, o, (s, v.counter, g)),
        osp: ix_insert(v.osp, o, s, (p, v.counter, g)),
        counter: (v.counter + 1) as usize,
    }
}

/// Whether the index holds an entry for `t`'s subject, predicate and
/// object (in any graph).
pub open spec fn contains_spec(v: TripleIndexView, t: Triple) -> bool {
    match bucket_of(v.osp, code_of(t.o), code_of(t.s)) {
        Some(b) => has_value(b, code_of(t.p)),
        None => false,
    }
}

/// Whether some entry has third code `v`.
pub open spec fn has_value(b: Seq<Entry>, v: usize) -> bool {
    exists|i: int| 0 <= i < b.len() && #[trigger] b[i].0 == v
}

/// The empty index.
pub open spec fn empty_index() -> TripleIndexView {
    TripleIndexView { triples: seq![], spo: seq![], pos: seq![], osp: seq![], counter: 0 }
}

/// The index after removing a triple: every equal triple leaves the
/// triples, the entries of its subject, predicate and object (in every
/// graph) leave the indexes, and the counter decreases by one.
pub open spec fn remove_spec(v: TripleIndexView, t: Triple) -> TripleIndexView {
    TripleIndexView {
        triples: without(v.triples, t),
        spo: ix_remove(v.spo, code_of(t.s), code_of(t.p), code_of(t.o)),
        pos: ix_remove(v.pos, code_of(t.p), code_of(t.o), code_of(t.s)),
        osp: ix_remove(v.osp, code_of(t.o), code_of(t.s), code_of(t.p)),
        counter: (v.counter - 1) as usize,
    }
}

/// The index of a store's triples.
pub struct TripleIndex {
    pub triples: Vec<Triple>,
    spo: Vec<(usize, Vec<(usize, Vec<Entry>)>)>,
    pos: Vec<(usize, Vec<(usize, Vec<Entry>)>)>,
    osp: Vec<(usize, Vec<(usize, Vec<Entry>)>)>,
    counter: usize,
}

/// An index seen as its triples, its three indexes and its counter.
pub struct TripleIndexView {
    pub triples: Seq<Triple>,
    pub spo: IndexView,
    pub pos: IndexView,
    pub osp: IndexView,
    pub counter: usize,
}

/// The view of an index's nested lists.
pub open spec fn index_view(ix: Seq<(usize, Vec<(usize, Vec<Entry>)>)>) -> IndexView {
    ix.map_values(|e: (usize, Vec<(usize, Vec<Entry>)>)| (e.0, inner_view(e.1@)))
}

/// The view of a second-level list.
pub open spec fn inner_view(inner: Seq<(usize, Vec<Entry>)>) -> Seq<(usize, Seq<Entry>)> {
    inner.map_values(|e: (usize, Vec<Entry>)| (e.0, e.1@))
}

impl View for TripleIndex {
    type V = TripleIndexView;

    closed spec fn view(&self) -> TripleIndexView {
        TripleIndexView {
            triples: self.triples@,
            spo: index_view(self.spo@),
            pos: index_view(self.pos@),
            osp: index_view(self.osp@),
            counter: self.counter,
        }
    }
}

/// Adding the values `x` and then `y` is adding `x + y`.
pub proof fn lemma_adds_concat(b: BindingView, x: Seq<(usize, usize)>, y: Seq<(usize, usize)>)
    ensures
        adds_to(b, x + y) == adds_to(adds_to(b, x), y),
    decreases y.len(),
{
    if y.len() == 0 {
        assert(x + y =~= x);
    } else {
        lemma_adds_concat(b, x, y.drop_last());
        assert((x + y).drop_last() =~= x + y.drop_last());
        assert((x + y).last() == y.last());
    }
}

/// The position of key `k` in an association list.
fn find_key_pos<X>(s: &Vec<(usize, X)>, k: usize) -> (res: Option<usize>)
    ensures
        match res {
            Some(p) => pos_of(s@, k) == p as int && p < s@.len(),
            None => pos_of(s@, k) == -1,
        },
{
    let mut i: usize = 0;
    while i < s.len()
        invariant
            i <= s@.len(),
            find_pos(s@, k, 0) == find_pos(s@, k, i as int),
        decreases s@.len() - i,
    {
        if s[i].0 == k {
            return Some(i);
        }
        i = i + 1;
    }
    None
}

/// The second-level list of first key `k1`.
fn inner_ref(ix: &Vec<(usize, Vec<(usize, Vec<Entry>)>)>, k1: usize) -> (res: Option<&Vec<(usize, Vec<Entry>)>>)
    ensures
        match res {
            Some(inner) => inner_of(index_view(ix@), k1) == Some(inner_view(inner@)),
            None => inner_of(index_view(ix@), k1) is None,
        },
{
    let ghost v = index_view(ix@);
    proof {
        assert forall|t: int| 0 <= t < ix@.len() implies v[t].0 == ix@[t].0 by {}
        assert(find_pos(v, k1, 0) == find_pos(ix@, k1, 0)) by {
            lemma_find_pos_same(v, ix@, k1, 0);
        }
    }
    match find_key_pos(ix, k1) {
        Some(p) => Some(&ix[p].1),
        None => None,
    }
}

/// The entries under keys `k1` and `k2`.
fn bucket_ref(ix: &Vec<(usize, Vec<(usize, Vec<Entry>)>)>, k1: usize, k2: usize) -> (res: Option<&Vec<Entry>>)
    ensures
        match res {
            Some(b) => bucket_of(index_view(ix@), k1, k2) == Some(b@),
            None => bucket_of(index_view(ix@), k1, k2) is None,
        },
{
    match inner_ref(ix, k1) {
        Some(inner) => {
            let ghost iv = inner_view(inner@);
            proof {
                lemma_find_pos_same(iv, inner@, k2, 0);
            }
            match find_key_pos(inner, k2) {
                Some(p) => Some(&inner[p].1),
                None => None,
            }
        },
        None => None,
    }
}

/// Two association lists with the same keys position by position find keys
/// at the same place.
pub proof fn lemma_find_pos_same<X, Y>(a: Seq<(usize, X)>, b: Seq<(usize, Y)>, k: usize, i: int)
    requires
        a.len() == b.len(),
        forall|t: int| 0 <= t < a.len() ==> a[t].0 == b[t].0,
    ensures
        find_pos(a, k, i) == find_pos(b, k, i),
    decreases a.len() - i,
{
    if 0 <= i < a.len() && a[i].0 != k {
        lemma_find_pos_same(a, b, k, i + 1);
    }
}

/// Appends `e` under `k1` and `k2` (see `ix_insert`).
fn index_insert(ix: &mut Vec<(usize, Vec<(usize, Vec<Entry>)>)>, k1: usize, k2: usize, e: Entry)
    ensures
        index_view(final(ix)@) == ix_insert(index_view(old(ix)@), k1, k2, e),
{
    let ghost v0 = index_view(ix@);
    proof {
        lemma_find_pos_same(v0, ix@, k1, 0);
    }
    match find_key_pos(ix, k1) {
        None => {
            let mut b: Vec<Entry> = Vec::new();
            b.push(e);
            let mut inner: Vec<(usize, Vec<Entry>)> = Vec::new();
            inner.push((k2, b));
            assert(inner_view(inner@) =~= seq![(k2, seq![e])]);
            ix.push((k1, inner));
            assert(index_view(ix@) =~= v0.push((k1, seq![(k2, seq![e])])));
        },
        Some(p1) => {
            let (key, mut inner) = ix.remove(p1);
            let ghost iv = inner_view(inner@);
            proof {
                lemma_find_pos_same(iv, inner@, k2, 0);
                lemma_find_pos(v0, k1, 0);
                lemma_find_pos(iv, k2, 0);
                assert(v0[p1 as int] == (key, iv));
            }
            match find_key_pos(&inner, k2) {
                None => {
                    let mut b: Vec<Entry> = Vec::new();
                    b.push(e);
                    inner.push((k2, b));
                    assert(inner_view(inner@) =~= iv.push((k2, seq![e])));
                },
                Some(p2) => {
                    let ghost inner0 = inner@;
                    let (k, mut b) = inner.remove(p2);
                    assert(iv[p2 as int] == (k, b@));
                    b.push(e);
                    inner.insert(p2, (k, b));
                    assert(inner_view(inner@) =~= iv.update(p2 as int, (k2, iv[p2 as int].1.push(e))));
                },
            }
            let ghost iv2 = inner_view(inner@);
            ix.insert(p1, (key, inner));
            assert(index_view(ix@) =~= v0.update(p1 as int, (k1, iv2)));
        },
    }
}

/// The entries without those whose third code is `v`.
fn drop_value_exec(b: &Vec<Entry>, v: usize) -> (res: Vec<Entry>)
    ensures
        res@ == drop_value(b@, v),
{
    let mut out: Vec<Entry> = Vec::new();
    let mut i: usize = 0;
    while i < b.len()
        invariant
            i <= b@.len(),
            out@ == drop_value(b@.take(i as int), v),
        decreases b@.len() - i,
    {
        proof {
            assert(b@.take(i + 1).drop_last() =~= b@.take(i as int));
            assert(b@.take(i + 1).last() == b@[i as int]);
        }
        if b[i].0 != v {
            out.push(b[i]);
        }
        i = i + 1;
    }
    assert(b@.take(b@.len() as int) =~= b@);
    out
}

/// Removes the entries of third code `v` under `k1` and `k2` (see
/// `ix_remove`).
fn index_remove(ix: &mut Vec<(usize, Vec<(usize, Vec<Entry>)>)>, k1: usize, k2: usize, v: usize)
    ensures
        index_view(final(ix)@) == ix_remove(index_view(old(ix)@), k1, k2, v),
{
    let ghost v0 = index_view(ix@);
    proof {
        lemma_find_pos_same(v0, ix@, k1, 0);
    }
    match find_key_pos(ix, k1) {
        None => {},
        Some(p1) => {
            let ghost iv = inner_view(ix@[p1 as int].1@);
            proof {
                lemma_find_pos_same(iv, ix@[p1 as int].1@, k2, 0);
                lemma_find_pos(v0, k1, 0);
                lemma_find_pos(iv, k2, 0);
                assert(v0[p1 as int] == (k1, iv));
            }
            match find_key_pos(&ix[p1].1, k2) {
                None => {},
                Some(p2) => {
                    let (key, mut inner) = ix.remove(p1);
                    let (k, b) = inner.remove(p2);
                    assert(iv[p2 as int] == (k, b@));
                    let kept = drop_value_exec(&b, v);
                    inner.insert(p2, (k, kept));
                    assert(inner_view(inner@) =~= iv.update(p2 as int, (k2, drop_value(iv[p2 as int].1, v))));
                    let ghost iv2 = inner_view(inner@);
                    ix.insert(p1, (key, inner));
                    assert(index_view(ix@) =~= v0.update(p1 as int, (k1, iv2)));
                },
            }
        },
    }
}

/// The triples other than `t`.
fn without_exec(ts: &Vec<Triple>, t: &Triple) -> (res: Vec<Triple>)
    ensures
        res@ == without(ts@, *t),
{
    let mut out: Vec<Triple> = Vec::new();
    let mut i: usize = 0;
    while i < ts.len()
        invariant
            i <= ts@.len(),
            out@ == without(ts@.take(i as int), *t),
        decreases ts@.len() - i,
    {
        proof {
            assert(ts@.take(i + 1).drop_last() =~= ts@.take(i as int));
            assert(ts@.take(i + 1).last() == ts@[i as int]);
        }
        if ts[i] != *t {
            out.push(ts[i]);
        }
        i = i + 1;
    }
    assert(ts@.take(ts@.len() as int) =~= ts@);
    out
}

/// Checks an entry's graph against the graph `qg` of a pattern, binding a
/// variable graph (see `graph_check`).
fn check_quad_match_and_add(qg: &Option<VarOrTerm>, matched_binding: &mut Binding, graph_name: &Option<TermImpl>) -> (res: bool)
    requires
        old(matched_binding).wf(),
    ensures
        final(matched_binding).wf(),
        res == graph_check(*qg, *graph_name).0,
        final(matched_binding)@ == adds_to(old(matched_binding)@, graph_check(*qg, *graph_name).1),
{
    let ghost b0 = matched_binding@;
    proof {
        reveal_with_fuel(adds_to, 2);
    }
    match qg {
        Some(VarOrTerm::Var(var_name)) => {
            match graph_name {
                Some(g) => {
                    matched_binding.add(&var_name.name, g.iri);
                    proof {
                        let a = seq![(var_name.name, g.iri)];
                        assert(a.drop_last() =~= Seq::<(usize, usize)>::empty());
                    }
                },
                None => {},
            }
            true
        },
        Some(VarOrTerm::Term(term)) => {
            match graph_name {
                Some(g) => g.iri == term.iri,
                None => false,
            }
        },
        None => true,
    }
}

/// Adds the values of `scan_single` to `out`.
fn scan_single_exec(b: &Vec<Entry>, var: usize, qg: &Option<VarOrTerm>, check: usize, out: &mut Binding)
    requires
        old(out).wf(),
    ensures
        final(out).wf(),
        final(out)@ == adds_to(old(out)@, scan_single(b@, var, *qg, check)),
{
    let mut i: usize = 0;
    assert(b@.skip(0) =~= b@);
    while i < b.len()
        invariant
            i <= b@.len(),
            out.wf(),
            adds_to(old(out)@, scan_single(b@, var, *qg, check)) == adds_to(out@, scan_single(b@.skip(i as int), var, *qg, check)),
        decreases b@.len() - i,
    {
        let e = b[i];
        let ghost rest = b@.skip(i as int);
        let ghost b1 = out@;
        proof {
            assert(rest[0] == e);
            assert(rest.drop_first() =~= b@.skip(i + 1));
        }
        if e.1 > check {
            return;
        }
        if !check_quad_match_and_add(qg, out, &e.2) {
            return;
        }
        out.add(&var, e.0);
        proof {
            let g = graph_check(*qg, e.2).1;
            let tail = scan_single(b@.skip(i + 1), var, *qg, check);
            lemma_adds_concat(b1, g.push((var, e.0)), tail);
            assert(g.push((var, e.0)).drop_last() =~= g);
        }
        i = i + 1;
    }
    assert(b@.skip(b@.len() as int) =~= Seq::<Entry>::empty());
}

/// Adds the values of `scan_pair` to `out`.
fn scan_pair_exec(b: &Vec<Entry>, kvar: usize, key: usize, vvar: usize, qg: &Option<VarOrTerm>, check: usize, out: &mut Binding)
    requires
        old(out).wf(),
    ensures
        final(out).wf(),
        final(out)@ == adds_to(old(out)@, scan_pair(b@, kvar, key, vvar, *qg, check)),
{
    let mut i: usize = 0;
    assert(b@.skip(0) =~= b@);
    while i < b.len()
        invariant
            i <= b@.len(),
            out.wf(),
            adds_to(old(out)@, scan_pair(b@, kvar, key, vvar, *qg, check)) == adds_to(
                out@,
                scan_pair(b@.skip(i as int), kvar, key, vvar, *qg, check),
            ),
        decreases b@.len() - i,
    {
        let e = b[i];
        let ghost rest = b@.skip(i as int);
        let ghost b1 = out@;
        proof {
            assert(rest[0] == e);
            assert(rest.drop_first() =~= b@.skip(i + 1));
        }
        if e.1 > check {
            return;
        }
        if !check_quad_match_and_add(qg, out, &e.2) {
            return;
        }
        out.add(&kvar, key);
        out.add(&vvar, e.0);
        proof {
            let g = graph_check(*qg, e.2).1;
            let tail = scan_pair(b@.skip(i + 1), kvar, key, vvar, *qg, check);
            let h = g.push((kvar, key)).push((vvar, e.0));
            lemma_adds_concat(b1, h, tail);
            assert(h.drop_last() =~= g.push((kvar, key)));
            assert(g.push((kvar, key)).drop_last() =~= g);
            assert(adds_to(b1, g.push((kvar, key))) == bind_add(adds_to(b1, g), kvar, key));
            assert(adds_to(b1, h) == bind_add(adds_to(b1, g.push((kvar, key))), vvar, e.0));
        }
        i = i + 1;
    }
    assert(b@.skip(b@.len() as int) =~= Seq::<Entry>::empty());
}

/// Adds the values of `scan_triple` to `out`.
fn scan_triple_exec(
    b: &Vec<Entry>,
    s: usize,
    skey: usize,
    p: usize,
    pkey: usize,
    o: usize,
    qg: &Option<VarOrTerm>,
    check: usize,
    out: &mut Binding,
)
    requires
        old(out).wf(),
    ensures
        final(out).wf(),
        final(out)@ == adds_to(old(out)@, scan_triple(b@, s, skey, p, pkey, o, *qg, check)),
{
    let mut i: usize = 0;
    assert(b@.skip(0) =~= b@);
    while i < b.len()
        invariant
            i <= b@.len(),
            out.wf(),
            adds_to(old(out)@, scan_triple(b@, s, skey, p, pkey, o, *qg, check)) == adds_to(
                out@,
                scan_triple(b@.skip(i as int), s, skey, p, pkey, o, *qg, check),
            ),
        decreases b@.len() - i,
    {
        let e = b[i];
        let ghost rest = b@.skip(i as int);
        let ghost b1 = out@;
        proof {
            assert(rest[0] == e);
            assert(rest.drop_first() =~= b@.skip(i + 1));
        }
        if e.1 > check {
            return;
        }
        if !check_quad_match_and_add(qg, out, &e.2) {
            return;
        }
        out.add(&s, skey);
        out.add(&p, pkey);
        out.add(&o, e.0);
        proof {
            let g = graph_check(*qg, e.2).1;
            let tail = scan_triple(b@.skip(i + 1), s, skey, p, pkey, o, *qg, check);
            let h = g.push((s, skey)).push((p, pkey)).push((o, e.0));
            lemma_adds_concat(b1, h, tail);
            let h1 = g.push((s, skey));
            let h2 = h1.push((p, pkey));
            assert(h.drop_last() =~= h2);
            assert(h2.drop_last() =~= h1);
            assert(h1.drop_last() =~= g);
            assert(adds_to(b1, h1) == bind_add(adds_to(b1, g), s, skey));
            assert(adds_to(b1, h2) == bind_add(adds_to(b1, h1), p, pkey));
            assert(adds_to(b1, h) == bind_add(adds_to(b1, h2), o, e.0));
        }
        i = i + 1;
    }
    assert(b@.skip(b@.len() as int) =~= Seq::<Entry>::empty());
}

/// Adds the values of `scan_inner` to `out`.
fn scan_inner_exec(inner: &Vec<(usize, Vec<Entry>)>, kvar: usize, vvar: usize, qg: &Option<VarOrTerm>, check: usize, out: &mut Binding)
    requires
        old(out).wf(),
    ensures
        final(out).wf(),
        final(out)@ == adds_to(old(out)@, scan_inner(inner_view(inner@), kvar, vvar, *qg, check)),
{
    let ghost iv = inner_view(inner@);
    let mut i: usize = 0;
    while i < inner.len()
        invariant
            i <= inner@.len(),
            iv == inner_view(inner@),
            out.wf(),
            out@ == adds_to(old(out)@, scan_inner(iv.take(i as int), kvar, vvar, *qg, check)),
        decreases inner@.len() - i,
    {
        let ghost b1 = out@;
        proof {
            assert(iv.take(i + 1).drop_last() =~= iv.take(i as int));
            assert(iv.take(i + 1).last() == (inner@[i as int].0, inner@[i as int].1@));
        }
        scan_pair_exec(&inner[i].1, kvar, inner[i].0, vvar, qg, check, out);
        proof {
            lemma_adds_concat(
                old(out)@,
                scan_inner(iv.take(i as int), kvar, vvar, *qg, check),
                scan_pair(inner@[i as int].1@, kvar, inner@[i as int].0, vvar, *qg, check),
            );
        }
        i = i + 1;
    }
    assert(iv.take(iv.len() as int) =~= iv);
}

/// Adds the values of `scan_subject` to `out`.
fn scan_subject_exec(
    inner: &Vec<(usize, Vec<Entry>)>,
    s: usize,
    skey: usize,
    p: usize,
    o: usize,
    qg: &Option<VarOrTerm>,
    check: usize,
    out: &mut Binding,
)
    requires
        old(out).wf(),
    ensures
        final(out).wf(),
        final(out)@ == adds_to(old(out)@, scan_subject(inner_view(inner@), s, skey, p, o, *qg, check)),
{
    let ghost iv = inner_view(inner@);
    let mut i: usize = 0;
    while i < inner.len()
        invariant
            i <= inner@.len(),
            iv == inner_view(inner@),
            out.wf(),
            out@ == adds_to(old(out)@, scan_subject(iv.take(i as int), s, skey, p, o, *qg, check)),
        decreases inner@.len() - i,
    {
        proof {
            assert(iv.take(i + 1).drop_last() =~= iv.take(i as int));
            assert(iv.take(i + 1).last() == (inner@[i as int].0, inner@[i as int].1@));
        }
        scan_triple_exec(&inner[i].1, s, skey, p, inner[i].0, o, qg, check, out);
        proof {
            lemma_adds_concat(
                old(out)@,
                scan_subject(iv.take(i as int), s, skey, p, o, *qg, check),
                scan_triple(inner@[i as int].1@, s, skey, p, inner@[i as int].0, o, *qg, check),
            );
        }
        i = i + 1;
    }
    assert(iv.take(iv.len() as int) =~= iv);
}

/// Adds the values of `scan_all` to `out`.
fn scan_all_exec(ix: &Vec<(usize, Vec<(usize, Vec<Entry>)>)>, s: usize, p: usize, o: usize, qg: &Option<VarOrTerm>, check: usize, out: &mut Binding)
    requires
        old(out).wf(),
    ensures
        final(out).wf(),
        final(out)@ == adds_to(old(out)@, scan_all(index_view(ix@), s, p, o, *qg, check)),
{
    let ghost v = index_view(ix@);
    let mut i: usize = 0;
    while i < ix.len()
        invariant
            i <= ix@.len(),
            v == index_view(ix@),
            out.wf(),
            out@ == adds_to(old(out)@, scan_all(v.take(i as int), s, p, o, *qg, check)),
        decreases ix@.len() - i,
    {
        proof {
            assert(v.take(i + 1).drop_last() =~= v.take(i as int));
            assert(v.take(i + 1).last() == (ix@[i as int].0, inner_view(ix@[i as int].1@)));
        }
        scan_subject_exec(&ix[i].1, s, ix[i].0, p, o, qg, check, out);
        proof {
            lemma_adds_concat(
                old(out)@,
                scan_all(v.take(i as int), s, p, o, *qg, check),
                scan_subject(inner_view(ix@[i as int].1@), s, ix@[i as int].0, p, o, *qg, check),
            );
        }
        i = i + 1;
    }
    assert(v.take(v.len() as int) =~= v);
}

/// Scans for predicate `p` (see `scan_exact`), adding the graph values to
/// `out`; returns whether the predicate was reached.
fn scan_exact_exec(b: &Vec<Entry>, p: usize, qg: &Option<VarOrTerm>, check: usize, out: &mut Binding) -> (found: bool)
    requires
        old(out).wf(),
    ensures
        final(out).wf(),
        final(out)@ == adds_to(old(out)@, scan_exact(b@, p, *qg, check).0),
        found == scan_exact(b@, p, *qg, check).1,
{
    let mut i: usize = 0;
    assert(b@.skip(0) =~= b@);
    while i < b.len()
        invariant
            i <= b@.len(),
            out.wf(),
            adds_to(old(out)@, scan_exact(b@, p, *qg, check).0) == adds_to(out@, scan_exact(b@.skip(i as int), p, *qg, check).0),
            scan_exact(b@, p, *qg, check).1 == scan_exact(b@.skip(i as int), p, *qg, check).1,
        decreases b@.len() - i,
    {
        let e = b[i];
        let ghost rest = b@.skip(i as int);
        let ghost b1 = out@;
        proof {
            assert(rest[0] == e);
            assert(rest.drop_first() =~= b@.skip(i + 1));
        }
        if e.1 > check {
            return false;
        }
        if !check_quad_match_and_add(qg, out, &e.2) {
            return false;
        }
        if e.0 == p {
            return true;
        }
        proof {
            let g = graph_check(*qg, e.2).1;
            let tail = scan_exact(b@.skip(i + 1), p, *qg, check).0;
            lemma_adds_concat(b1, g, tail);
        }
        i = i + 1;
    }
    assert(b@.skip(b@.len() as int) =~= Seq::<Entry>::empty());
    false
}

/// The view of a binding that may be missing.
pub open spec fn opt_binding(b: Option<Binding>) -> Option<BindingView> {
    match b {
        Some(x) => Some(x@),
        None => None,
    }
}

/// A binding with at least one row, or none.
fn rows_or_none(b: Binding) -> (res: Option<Binding>)
    requires
        b.wf(),
    ensures
        opt_binding(res) == (if bind_len(b@) > 0 { Some(b@) } else { None }),
        res matches Some(x) ==> x.wf(),
{
    if b.len() > 0 {
        Some(b)
    } else {
        None
    }
}

impl TripleIndex {
    /// The number of triples.
    /// The number of triples added so far, less those removed.
    pub fn counter(&self) -> (res: usize)
        ensures
            res == self@.counter,
    {
        self.counter
    }

    pub fn len(&self) -> (res: usize)
        ensures
            res == self@.triples.len(),
    {
        self.triples.len()
    }

    /// The triple at position `index`, if any.
    pub fn get(&self, index: usize) -> (res: Option<&Triple>)
        ensures
            match res {
                Some(t) => index < self@.triples.len() && *t == self@.triples[index as int],
                None => index >= self@.triples.len(),
            },
    {
        if index < self.triples.len() {
            Some(&self.triples[index])
        } else {
            None
        }
    }

    /// An empty index.
    pub fn new() -> (res: TripleIndex)
        ensures
            res@ == (TripleIndexView {
                triples: seq![],
                spo: seq![],
                pos: seq![],
                osp: seq![],
                counter: 0,
            }),
    {
        let res = TripleIndex { triples: Vec::new(), spo: Vec::new(), pos: Vec::new(), osp: Vec::new(), counter: 0 };
        assert(res@.spo =~= Seq::<(usize, Seq<(usize, Seq<Entry>)>)>::empty());
        assert(res@.pos =~= Seq::<(usize, Seq<(usize, Seq<Entry>)>)>::empty());
        assert(res@.osp =~= Seq::<(usize, Seq<(usize, Seq<Entry>)>)>::empty());
        res
    }

    /// Adds a triple (see `add_spec`). Its graph, if any, must be a term.
    pub fn add(&mut self, triple: Triple)
        requires
            storable(triple),
            old(self)@.counter < usize::MAX,
        ensures
            final(self)@ == add_spec(old(self)@, triple),
    {
        let s = triple.s.to_encoded();
        let p = triple.p.to_encoded();
        let o = triple.o.to_encoded();
        let g: Option<TermImpl> = match triple.g {
            Some(gt) => Some(*gt.as_term()),
            None => None,
        };
        assert(g == graph_term(triple.g));
        index_insert(&mut self.spo, s, p, (o, self.counter, g));
        index_insert(&mut self.pos, p, o, (s, self.counter, g));
        index_insert(&mut self.osp, o, s, (p, self.counter, g));
        self.triples.push(triple);
        self.counter = self.counter + 1;
    }

    /// Adds a shared triple (see `add_spec`).
    pub fn add_ref(&mut self, triple: Rc<Triple>)
        requires
            storable(*triple),
            old(self)@.counter < usize::MAX,
        ensures
            final(self)@ == add_spec(old(self)@, *triple),
    {
        self.add(*triple);
    }

    /// Removes a triple: every equal triple leaves the triples, and the
    /// entries of its subject, predicate and object (in every graph) leave
    /// the indexes; the counter decreases by one.
    pub fn remove_ref(&mut self, triple: &Triple)
        requires
            old(self)@.counter > 0,
        ensures
            final(self)@ == remove_spec(old(self)@, *triple),
    {
        let s = triple.s.to_encoded();
        let p = triple.p.to_encoded();
        let o = triple.o.to_encoded();
        index_remove(&mut self.spo, s, p, o);
        index_remove(&mut self.pos, p, o, s);
        index_remove(&mut self.osp, o, s, p);
        self.triples = without_exec(&self.triples, triple);
        self.counter = self.counter - 1;
    }

    /// Whether the index holds the triple's subject, predicate and object
    /// (see `contains_spec`).
    pub fn contains(&self, triple: &Triple) -> (res: bool)
        ensures
            res == contains_spec(self@, *triple),
    {
        match bucket_ref(&self.osp, triple.o.to_encoded(), triple.s.to_encoded()) {
            None => false,
            Some(b) => {
                let p = triple.p.to_encoded();
                let mut i: usize = 0;
                while i < b.len()
                    invariant
                        i <= b@.len(),
                        p == code_of(triple.p),
                        bucket_of(self@.osp, code_of(triple.o), code_of(triple.s)) == Some(b@),
                        forall|k: int| 0 <= k < i ==> b@[k].0 != p,
                    decreases b@.len() - i,
                {
                    if b[i].0 == p {
                        assert(b@[i as int].0 == code_of(triple.p));
                        assert(has_value(b@, p));
                        return true;
                    }
                    i = i + 1;
                }
                false
            },
        }
    }

    /// Removes every triple and entry, and resets the counter.
    pub fn clear(&mut self)
        ensures
            final(self)@ == (TripleIndexView {
                triples: seq![],
                spo: seq![],
                pos: seq![],
                osp: seq![],
                counter: 0,
            }),
    {
        self.triples.clear();
        self.spo.clear();
        self.pos.clear();
        self.osp.clear();
        self.counter = 0;
        assert(self@.spo =~= Seq::<(usize, Seq<(usize, Seq<Entry>)>)>::empty());
        assert(self@.pos =~= Seq::<(usize, Seq<(usize, Seq<Entry>)>)>::empty());
        assert(self@.osp =~= Seq::<(usize, Seq<(usize, Seq<Entry>)>)>::empty());
    }

    /// The answer to the pattern `query_triple`, counting only the entries
    /// added at or before `triple_counter` (all of them by default); see
    /// `query_spec`.
    pub fn query(&self, query_triple: &Triple, triple_counter: Option<usize>) -> (res: Option<Binding>)
        ensures
            opt_binding(res) == query_spec(self@, *query_triple, counter_bound(self@, triple_counter)),
            res matches Some(b) ==> b.wf(),
    {
        let mut matched_binding = Binding::new();
        let counter_check = match triple_counter {
            Some(size) => size,
            None => self.counter,
        };
        let q = query_triple;
        let s = q.s.to_encoded();
        let p = q.p.to_encoded();
        let o = q.o.to_encoded();
        let ghost empty = matched_binding@;
        if q.s.is_var() && q.p.is_term() && q.o.is_term() {
            match bucket_ref(&self.pos, p, o) {
                Some(b) => scan_single_exec(b, s, &q.g, counter_check, &mut matched_binding),
                None => {},
            }
            rows_or_none(matched_binding)
        } else if q.s.is_term() && q.p.is_var() && q.o.is_term() {
            match bucket_ref(&self.osp, o, s) {
                Some(b) => scan_single_exec(b, p, &q.g, counter_check, &mut matched_binding),
                None => {},
            }
            rows_or_none(matched_binding)
        } else if q.s.is_term() && q.p.is_term() && q.o.is_var() {
            match bucket_ref(&self.spo, s, p) {
                Some(b) => scan_single_exec(b, o, &q.g, counter_check, &mut matched_binding),
                None => {},
            }
            rows_or_none(matched_binding)
        } else if q.s.is_var() && q.p.is_var() && q.o.is_term() {
            match inner_ref(&self.osp, o) {
                Some(inner) => scan_inner_exec(inner, s, p, &q.g, counter_check, &mut matched_binding),
                None => {},
            }
            rows_or_none(matched_binding)
        } else if q.s.is_term() && q.p.is_var() && q.o.is_var() {
            match inner_ref(&self.spo, s) {
                Some(inner) => scan_inner_exec(inner, p, o, &q.g, counter_check, &mut matched_binding),
                None => {},
            }
            rows_or_none(matched_binding)
        } else if q.s.is_var() && q.p.is_term() && q.o.is_var() {
            match inner_ref(&self.pos, p) {
                Some(inner) => scan_inner_exec(inner, o, s, &q.g, counter_check, &mut matched_binding),
                None => {},
            }
            rows_or_none(matched_binding)
        } else if q.s.is_var() && q.p.is_var() && q.o.is_var() {
            scan_all_exec(&self.spo, s, p, o, &q.g, counter_check, &mut matched_binding);
            rows_or_none(matched_binding)
        } else {
            let found = match bucket_ref(&self.osp, o, s) {
                Some(b) => scan_exact_exec(b, p, &q.g, counter_check, &mut matched_binding),
                None => false,
            };
            if found {
                Some(matched_binding)
            } else {
                rows_or_none(matched_binding)
            }
        }
    }
}

/// A variable bound to a value, as a row of `TripleIndex::query_help` holds it.
#[derive(Debug, Clone, Copy, PartialEq, Eq, Structural)]
pub struct EncodedBinding {
    pub var: usize,
    pub val: usize,
}

/// The graph part of a row of `query_help` for an entry with graph `eg`:
/// the graph variable bound when the pattern's graph is a variable and the
/// entry has a graph; `None` (the entry is skipped) when the pattern's graph
/// is a term other than the entry's.
pub open spec fn help_graph(qg: Option<VarOrTerm>, eg: Option<TermImpl>) -> Option<Seq<EncodedBinding>> {
    match qg {
        Some(VarOrTerm::Var(v)) => match eg {
            Some(t) => Some(seq![EncodedBinding { var: v.name, val: t.iri }]),
            None => Some(seq![]),
        },
        Some(VarOrTerm::Term(t)) => if eg == Some(t) {
            Some(seq![])
        } else {
            None
        },
        None => Some(seq![]),
    }
}

/// The rows for the entries of a bucket, one variable bound to each entry's
/// third code.
pub open spec fn help_single(b: Seq<Entry>, var: usize, qg: Option<VarOrTerm>) -> Seq<Seq<EncodedBinding>>
    decreases b.len(),
{
    if b.len() == 0 {
        seq![]
    } else {
        let r = help_single(b.drop_last(), var, qg);
        match help_graph(qg, b.last().2) {
            Some(g) => r.push(seq![EncodedBinding { var, val: b.last().0 }] + g),
            None => r,
        }
    }
}

/// The two bindings of a row of two variables: the key's first when
/// `key_first`.
pub open spec fn pair_row(kvar: usize, key: usize, vvar: usize, val: usize, key_first: bool) -> Seq<EncodedBinding> {
    if key_first {
        seq![EncodedBinding { var: kvar, val: key }, EncodedBinding { var: vvar, val }]
    } else {
        seq![EncodedBinding { var: vvar, val }, EncodedBinding { var: kvar, val: key }]
    }
}

/// The rows for the entries of a bucket under `key`.
pub open spec fn help_pair(
    b: Seq<Entry>,
    kvar: usize,
    key: usize,
    vvar: usize,
    key_first: bool,
    qg: Option<VarOrTerm>,
) -> Seq<Seq<EncodedBinding>>
    decreases b.len(),
{
    if b.len() == 0 {
        seq![]
    } else {
        let r = help_pair(b.drop_last(), kvar, key, vvar, key_first, qg);
        match help_graph(qg, b.last().2) {
            Some(g) => r.push(pair_row(kvar, key, vvar, b.last().0, key_first) + g),
            None => r,
        }
    }
}

/// `help_pair` over every second-level key in order.
pub open spec fn help_inner(
    inner: Seq<(usize, Seq<Entry>)>,
    kvar: usize,
    vvar: usize,
    key_first: bool,
    qg: Option<VarOrTerm>,
) -> Seq<Seq<EncodedBinding>>
    decreases inner.len(),
{
    if inner.len() == 0 {
        seq![]
    } else {
        help_inner(inner.drop_last(), kvar, vvar, key_first, qg) + help_pair(
            inner.last().1,
            kvar,
            inner.last().0,
            vvar,
            key_first,
            qg,
        )
    }
}

/// The rows for the entries of a bucket under subject `skey` and predicate
/// `pkey`.
pub open spec fn help_triple(
    b: Seq<Entry>,
    s: usize,
    skey: usize,
    p: usize,
    pkey: usize,
    o: usize,
    qg: Option<VarOrTerm>,
) -> Seq<Seq<EncodedBinding>>
    decreases b.len(),
{
    if b.len() == 0 {
        seq![]
    } else {
        let r = help_triple(b.drop_last(), s, skey, p, pkey, o, qg);
        match help_graph(qg, b.last().2) {
            Some(g) => r.push(
                seq![
                    EncodedBinding { var: s, val: skey },
                    EncodedBinding { var: p, val: pkey },
                    EncodedBinding { var: o, val: b.last().0 },
                ] + g,
            ),
            None => r,
        }
    }
}

/// `help_triple` over every predicate of subject `skey`.
pub open spec fn help_subject(
    inner: Seq<(usize, Seq<Entry>)>,
    s: usize,
    skey: usize,
    p: usize,
    o: usize,
    qg: Option<VarOrTerm>,
) -> Seq<Seq<EncodedBinding>>
    decreases inner.len(),
{
    if inner.len() == 0 {
        seq![]
    } else {
        help_subject(inner.drop_last(), s, skey, p, o, qg) + help_triple(
            inner.last().1,
            s,
            skey,
            p,
            inner.last().0,
            o,
            qg,
        )
    }
}

/// `help_subject` over every subject.
pub open spec fn help_all(ix: IndexView, s: usize, p: usize, o: usize, qg: Option<VarOrTerm>) -> Seq<Seq<EncodedBinding>>
    decreases ix.len(),
{
    if ix.len() == 0 {
        seq![]
    } else {
        help_all(ix.drop_last(), s, p, o, qg) + help_subject(ix.last().1, s, ix.last().0, p, o, qg)
    }
}

/// One empty row for each entry with predicate `p`.
pub open spec fn help_exact(b: Seq<Entry>, p: usize) -> Seq<Seq<EncodedBinding>>
    decreases b.len(),
{
    if b.len() == 0 {
        seq![]
    } else if b.last().0 == p {
        help_exact(b.drop_last(), p).push(seq![])
    } else {
        help_exact(b.drop_last(), p)
    }
}

/// The rows that `query_help` gives for pattern `q`: one row per matching
/// entry (the counter is not consulted, and an entry whose graph does not
/// pass is skipped), the pattern's variables bound in the row and the graph
/// variable last.
pub open spec fn query_help_spec(v: TripleIndexView, q: Triple) -> Seq<Seq<EncodedBinding>> {
    let s = code_of(q.s);
    let p = code_of(q.p);
    let o = code_of(q.o);
    if q.s is Var && q.p is Term && q.o is Term {
        help_single(entries(bucket_of(v.pos, p, o)), s, q.g)
    } else if q.s is Term && q.p is Var && q.o is Term {
        help_single(entries(bucket_of(v.osp, o, s)), p, q.g)
    } else if q.s is Term && q.p is Term && q.o is Var {
        help_single(entries(bucket_of(v.spo, s, p)), o, q.g)
    } else if q.s is Var && q.p is Var && q.o is Term {
        help_inner(inners(inner_of(v.osp, o)), s, p, true, q.g)
    } else if q.s is Term && q.p is Var && q.o is Var {
        help_inner(inners(inner_of(v.spo, s)), p, o, true, q.g)
    } else if q.s is Var && q.p is Term && q.o is Var {
        help_inner(inners(inner_of(v.pos, p)), o, s, false, q.g)
    } else if q.s is Var && q.p is Var && q.o is Var {
        help_all(v.spo, s, p, o, q.g)
    } else {
        help_exact(entries(bucket_of(v.osp, o, s)), p)
    }
}

/// The views of rows.
pub open spec fn rows_view(rows: Seq<Vec<EncodedBinding>>) -> Seq<Seq<EncodedBinding>> {
    rows.map_values(|r: Vec<EncodedBinding>| r@)
}

/// The graph part of a row (see `help_graph`).
fn help_graph_exec(qg: &Option<VarOrTerm>, eg: &Option<TermImpl>) -> (res: Option<Vec<EncodedBinding>>)
    ensures
        match res {
            Some(g) => help_graph(*qg, *eg) == Some(g@),
            None => help_graph(*qg, *eg) is None,
        },
{
    match qg {
        Some(VarOrTerm::Var(v)) => match eg {
            Some(t) => {
                let mut g: Vec<EncodedBinding> = Vec::new();
                g.push(EncodedBinding { var: v.name, val: t.iri });
                assert(g@ =~= seq![EncodedBinding { var: v.name, val: t.iri }]);
                Some(g)
            },
            None => {
                let g: Vec<EncodedBinding> = Vec::new();
                assert(g@ =~= Seq::<EncodedBinding>::empty());
                Some(g)
            },
        },
        Some(VarOrTerm::Term(t)) => {
            let same = match eg {
                Some(e) => e.iri == t.iri,
                None => false,
            };
            if same {
                let g: Vec<EncodedBinding> = Vec::new();
                assert(g@ =~= Seq::<EncodedBinding>::empty());
                Some(g)
            } else {
                None
            }
        },
        None => {
            let g: Vec<EncodedBinding> = Vec::new();
            assert(g@ =~= Seq::<EncodedBinding>::empty());
            Some(g)
        },
    }
}

/// `main` followed by the bindings of `g`.
fn row_with(main: Vec<EncodedBinding>, g: &Vec<EncodedBinding>) -> (res: Vec<EncodedBinding>)
    ensures
        res@ == main@ + g@,
{
    let mut out = main;
    let ghost m = out@;
    let mut i: usize = 0;
    while i < g.len()
        invariant
            i <= g@.len(),
            out@ == m + g@.take(i as int),
        decreases g@.len() - i,
    {
        out.push(g[i]);
        assert(g@.take(i + 1) =~= g@.take(i as int).push(g@[i as int]));
        i = i + 1;
    }
    assert(g@.take(g@.len() as int) =~= g@);
    out
}

/// Appends the rows of `help_single`.
fn help_single_exec(b: &Vec<Entry>, var: usize, qg: &Option<VarOrTerm>, rows: &mut Vec<Vec<EncodedBinding>>)
    ensures
        rows_view(final(rows)@) == rows_view(old(rows)@) + help_single(b@, var, *qg),
{
    let mut i: usize = 0;
    while i < b.len()
        invariant
            i <= b@.len(),
            rows_view(rows@) == rows_view(old(rows)@) + help_single(b@.take(i as int), var, *qg),
        decreases b@.len() - i,
    {
        let e = b[i];
        proof {
            assert(b@.take(i + 1).drop_last() =~= b@.take(i as int));
            assert(b@.take(i + 1).last() == e);
        }
        let ghost before = rows_view(rows@);
        match help_graph_exec(qg, &e.2) {
            Some(g) => {
                let mut main: Vec<EncodedBinding> = Vec::new();
                main.push(EncodedBinding { var, val: e.0 });
                let row = row_with(main, &g);
                rows.push(row);
                assert(row@ =~= seq![EncodedBinding { var, val: e.0 }] + g@);
                assert(rows_view(rows@) =~= before.push(row@));
            },
            None => {},
        }
        i = i + 1;
    }
    assert(b@.take(b@.len() as int) =~= b@);
}

/// Appends the rows of `help_pair`.
fn help_pair_exec(
    b: &Vec<Entry>,
    kvar: usize,
    key: usize,
    vvar: usize,
    key_first: bool,
    qg: &Option<VarOrTerm>,
    rows: &mut Vec<Vec<EncodedBinding>>,
)
    ensures
        rows_view(final(rows)@) == rows_view(old(rows)@) + help_pair(b@, kvar, key, vvar, key_first, *qg),
{
    let mut i: usize = 0;
    while i < b.len()
        invariant
            i <= b@.len(),
            rows_view(rows@) == rows_view(old(rows)@) + help_pair(b@.take(i as int), kvar, key, vvar, key_first, *qg),
        decreases b@.len() - i,
    {
        let e = b[i];
        proof {
            assert(b@.take(i + 1).drop_last() =~= b@.take(i as int));
            assert(b@.take(i + 1).last() == e);
        }
        let ghost before = rows_view(rows@);
        match help_graph_exec(qg, &e.2) {
            Some(g) => {
                let mut main: Vec<EncodedBinding> = Vec::new();
                if key_first {
                    main.push(EncodedBinding { var: kvar, val: key });
                    main.push(EncodedBinding { var: vvar, val: e.0 });
                } else {
                    main.push(EncodedBinding { var: vvar, val: e.0 });
                    main.push(EncodedBinding { var: kvar, val: key });
                }
                assert(main@ =~= pair_row(kvar, key, vvar, e.0, key_first));
                let row = row_with(main, &g);
                rows.push(row);
                assert(rows_view(rows@) =~= before.push(row@));
            },
            None => {},
        }
        i = i + 1;
    }
    assert(b@.take(b@.len() as int) =~= b@);
}

/// Appends the rows of `help_inner`.
fn help_inner_exec(
    inner: &Vec<(usize, Vec<Entry>)>,
    kvar: usize,
    vvar: usize,
    key_first: bool,
    qg: &Option<VarOrTerm>,
    rows: &mut Vec<Vec<EncodedBinding>>,
)
    ensures
        rows_view(final(rows)@) == rows_view(old(rows)@) + help_inner(inner_view(inner@), kvar, vvar, key_first, *qg),
{
    let ghost iv = inner_view(inner@);
    let mut i: usize = 0;
    while i < inner.len()
        invariant
            i <= inner@.len(),
            iv == inner_view(inner@),
            rows_view(rows@) == rows_view(old(rows)@) + help_inner(iv.take(i as int), kvar, vvar, key_first, *qg),
        decreases inner@.len() - i,
    {
        proof {
            assert(iv.take(i + 1).drop_last() =~= iv.take(i as int));
            assert(iv.take(i + 1).last() == (inner@[i as int].0, inner@[i as int].1@));
        }
        let ghost before = rows_view(rows@);
        help_pair_exec(&inner[i].1, kvar, inner[i].0, vvar, key_first, qg, rows);
        assert(rows_view(rows@) =~= rows_view(old(rows)@) + help_inner(iv.take(i + 1), kvar, vvar, key_first, *qg));
        i = i + 1;
    }
    assert(iv.take(iv.len() as int) =~= iv);
}

/// Appends the rows of `help_triple`.
fn help_triple_exec(
    b: &Vec<Entry>,
    s: usize,
    skey: usize,
    p: usize,
    pkey: usize,
    o: usize,
    qg: &Option<VarOrTerm>,
    rows: &mut Vec<Vec<EncodedBinding>>,
)
    ensures
        rows_view(final(rows)@) == rows_view(old(rows)@) + help_triple(b@, s, skey, p, pkey, o, *qg),
{
    let mut i: usize = 0;
    while i < b.len()
        invariant
            i <= b@.len(),
            rows_view(rows@) == rows_view(old(rows)@) + help_triple(b@.take(i as int), s, skey, p, pkey, o, *qg),
        decreases b@.len() - i,
    {
        let e = b[i];
        proof {
            assert(b@.take(i + 1).drop_last() =~= b@.take(i as int));
            assert(b@.take(i + 1).last() == e);
        }
        let ghost before = rows_view(rows@);
        match help_graph_exec(qg, &e.2) {
            Some(g) => {
                let mut main: Vec<EncodedBinding> = Vec::new();
                main.push(EncodedBinding { var: s, val: skey });
                main.push(EncodedBinding { var: p, val: pkey });
                main.push(EncodedBinding { var: o, val: e.0 });
                let row = row_with(main, &g);
                rows.push(row);
                assert(row@ =~= seq![
                    EncodedBinding { var: s, val: skey },
                    EncodedBinding { var: p, val: pkey },
                    EncodedBinding { var: o, val: e.0 },
                ] + g@);
                assert(rows_view(rows@) =~= before.push(row@));
            },
            None => {},
        }
        i = i + 1;
    }
    assert(b@.take(b@.len() as int) =~= b@);
}

/// Appends the rows of `help_subject`.
fn help_subject_exec(
    inner: &Vec<(usize, Vec<Entry>)>,
    s: usize,
    skey: usize,
    p: usize,
    o: usize,
    qg: &Option<VarOrTerm>,
    rows: &mut Vec<Vec<EncodedBinding>>,
)
    ensures
        rows_view(final(rows)@) == rows_view(old(rows)@) + help_subject(inner_view(inner@), s, skey, p, o, *qg),
{
    let ghost iv = inner_view(inner@);
    let mut i: usize = 0;
    while i < inner.len()
        invariant
            i <= inner@.len(),
            iv == inner_view(inner@),
            rows_view(rows@) == rows_view(old(rows)@) + help_subject(iv.take(i as int), s, skey, p, o, *qg),
        decreases inner@.len() - i,
    {
        proof {
            assert(iv.take(i + 1).drop_last() =~= iv.take(i as int));
            assert(iv.take(i + 1).last() == (inner@[i as int].0, inner@[i as int].1@));
        }
        help_triple_exec(&inner[i].1, s, skey, p, inner[i].0, o, qg, rows);
        assert(rows_view(rows@) =~= rows_view(old(rows)@) + help_subject(iv.take(i + 1), s, skey, p, o, *qg));
        i = i + 1;
    }
    assert(iv.take(iv.len() as int) =~= iv);
}

impl TripleIndex {
    /// The rows of the entries that match the pattern `query_triple` (see
    /// `query_help_spec`); `triple_counter` is not consulted.
    pub fn query_help(&self, query_triple: &Triple, triple_counter: Option<usize>) -> (res: Vec<Vec<EncodedBinding>>)
        ensures
            rows_view(res@) == query_help_spec(self@, *query_triple),
    {
        let mut rows: Vec<Vec<EncodedBinding>> = Vec::new();
        let q = query_triple;
        let s = q.s.to_encoded();
        let p = q.p.to_encoded();
        let o = q.o.to_encoded();
        assert(rows_view(rows@) =~= Seq::<Seq<EncodedBinding>>::empty());
        if q.s.is_var() && q.p.is_term() && q.o.is_term() {
            match bucket_ref(&self.pos, p, o) {
                Some(b) => help_single_exec(b, s, &q.g, &mut rows),
                None => {},
            }
        } else if q.s.is_term() && q.p.is_var() && q.o.is_term() {
            match bucket_ref(&self.osp, o, s) {
                Some(b) => help_single_exec(b, p, &q.g, &mut rows),
                None => {},
            }
        } else if q.s.is_term() && q.p.is_term() && q.o.is_var() {
            match bucket_ref(&self.spo, s, p) {
                Some(b) => help_single_exec(b, o, &q.g, &mut rows),
                None => {},
            }
        } else if q.s.is_var() && q.p.is_var() && q.o.is_term() {
            match inner_ref(&self.osp, o) {
                Some(inner) => help_inner_exec(inner, s, p, true, &q.g, &mut rows),
                None => {},
            }
        } else if q.s.is_term() && q.p.is_var() && q.o.is_var() {
            match inner_ref(&self.spo, s) {
                Some(inner) => help_inner_exec(inner, p, o, true, &q.g, &mut rows),
                None => {},
            }
        } else if q.s.is_var() && q.p.is_term() && q.o.is_var() {
            match inner_ref(&self.pos, p) {
                Some(inner) => help_inner_exec(inner, o, s, false, &q.g, &mut rows),
                None => {},
            }
        } else if q.s.is_var() && q.p.is_var() && q.o.is_var() {
            let ghost v = self@.spo;
            let mut i: usize = 0;
            while i < self.spo.len()
                invariant
                    i <= self.spo@.len(),
                    v == index_view(self.spo@),
                    rows_view(rows@) == help_all(v.take(i as int), s, p, o, q.g),
                decreases self.spo@.len() - i,
            {
                proof {
                    assert(v.take(i + 1).drop_last() =~= v.take(i as int));
                    assert(v.take(i + 1).last() == (self.spo@[i as int].0, inner_view(self.spo@[i as int].1@)));
                }
                help_subject_exec(&self.spo[i].1, s, self.spo[i].0, p, o, &q.g, &mut rows);
                i = i + 1;
            }
            assert(v.take(v.len() as int) =~= v);
        } else {
            match bucket_ref(&self.osp, o, s) {
                Some(b) => {
                    let mut i: usize = 0;
                    while i < b.len()
                        invariant
                            i <= b@.len(),
                            rows_view(rows@) == help_exact(b@.take(i as int), p),
                        decreases b@.len() - i,
                    {
                        proof {
                            assert(b@.take(i + 1).drop_last() =~= b@.take(i as int));
                            assert(b@.take(i + 1).last() == b@[i as int]);
                        }
                        if b[i].0 == p {
                            let ghost before = rows_view(rows@);
                            let row: Vec<EncodedBinding> = Vec::new();
                            rows.push(row);
                            assert(rows_view(rows@) =~= before.push(seq![]));
                        }
                        i = i + 1;
                    }
                    assert(b@.take(b@.len() as int) =~= b@);
                },
                None => {},
            }
        }
        rows
    }
}

/// Looking a key up after a new pair was appended under it finds that pair.
proof fn lemma_find_pos_push<X>(s: Seq<(usize, X)>, x: (usize, X), k: usize, i: int)
    requires
        0 <= i <= s.len(),
        find_pos(s, k, i) == -1,
        x.0 == k,
    ensures
        find_pos(s.push(x), k, i) == s.len(),
    decreases s.len() - i,
{
    if i < s.len() {
        assert(s.push(x)[i] == s[i]);
        lemma_find_pos_push(s, x, k, i + 1);
    }
}

/// Appending a pair does not move a key that is already there.
proof fn lemma_find_pos_push_found<X>(s: Seq<(usize, X)>, x: (usize, X), k: usize, i: int)
    requires
        0 <= i,
        find_pos(s, k, i) >= 0,
    ensures
        find_pos(s.push(x), k, i) == find_pos(s, k, i),
    decreases s.len() - i,
{
    lemma_find_pos(s, k, i);
    if i < s.len() && s[i].0 != k {
        assert(s.push(x)[i] == s[i]);
        lemma_find_pos_push_found(s, x, k, i + 1);
    }
}

/// Looking up a key that is missing after a pair with another key was
/// appended still finds nothing.
proof fn lemma_find_pos_push_other<X>(s: Seq<(usize, X)>, x: (usize, X), k: usize, i: int)
    requires
        0 <= i <= s.len(),
        find_pos(s, k, i) == -1,
        x.0 != k,
    ensures
        find_pos(s.push(x), k, i) == -1,
    decreases s.len() - i,
{
    if i < s.len() {
        assert(s.push(x)[i] == s[i]);
        lemma_find_pos_push_other(s, x, k, i + 1);
    } else {
        assert(s.push(x)[i].0 != k);
        assert(find_pos(s.push(x), k, i + 1) == -1);
    }
}

/// Where a key sits after `ix_insert`: the position it had, or the end.
pub(crate) proof fn lemma_pos_after_push_or_update<X>(s: Seq<(usize, X)>, p: int, x: (usize, X), k: usize)
    requires
        p == pos_of(s, x.0),
    ensures
        ({
            let s2 = if p < 0 { s.push(x) } else { s.update(p, x) };
            &&& pos_of(s, k) >= 0 ==> pos_of(s2, k) == pos_of(s, k)
            &&& k == x.0 ==> pos_of(s2, k) >= 0 && s2[pos_of(s2, k)] == x
            &&& k != x.0 && pos_of(s, k) < 0 ==> pos_of(s2, k) < 0
        }),
{
    lemma_find_pos(s, x.0, 0);
    lemma_find_pos(s, k, 0);
    if p < 0 {
        if pos_of(s, k) >= 0 {
            lemma_find_pos_push_found(s, x, k, 0);
        }
        if k == x.0 {
            lemma_find_pos_push(s, x, k, 0);
        } else if pos_of(s, k) < 0 {
            lemma_find_pos_push_other(s, x, k, 0);
        }
    } else {
        let s2 = s.update(p, x);
        lemma_find_pos_same(s, s2, k, 0);
    }
}

/// After `ix_insert(ix, k1, k2, e)` the bucket of `k1`, `k2` ends with `e`,
/// and every other bucket that existed keeps its entries as a prefix.
proof fn lemma_bucket_after_insert(ix: IndexView, k1: usize, k2: usize, e: Entry, j1: usize, j2: usize)
    ensures
        bucket_of(ix_insert(ix, k1, k2, e), k1, k2) is Some,
        bucket_of(ix_insert(ix, k1, k2, e), k1, k2).unwrap().len() > 0,
        bucket_of(ix_insert(ix, k1, k2, e), k1, k2).unwrap().last() == e,
        bucket_of(ix, j1, j2) is Some ==> bucket_of(ix_insert(ix, k1, k2, e), j1, j2) is Some
            && bucket_of(ix, j1, j2).unwrap().is_prefix_of(bucket_of(ix_insert(ix, k1, k2, e), j1, j2).unwrap()),
{
    let ix2 = ix_insert(ix, k1, k2, e);
    let p1 = pos_of(ix, k1);
    let q1 = pos_of(ix, j1);
    lemma_find_pos(ix, k1, 0);
    lemma_find_pos(ix, j1, 0);
    if p1 < 0 {
        let x = (k1, seq![(k2, seq![e])]);
        lemma_pos_after_push_or_update(ix, p1, x, k1);
        lemma_pos_after_push_or_update(ix, p1, x, j1);
        let inner = seq![(k2, seq![e])];
        assert(inner[0].0 == k2);
        assert(find_pos(inner, k2, 0) == 0);
        if q1 >= 0 {
            assert(ix2[q1] == ix[q1]);
        }
    } else {
        let inner = ix[p1].1;
        let p2 = pos_of(inner, k2);
        lemma_find_pos(inner, k2, 0);
        let y = if p2 < 0 { (k2, seq![e]) } else { (k2, inner[p2].1.push(e)) };
        let inner2 = if p2 < 0 { inner.push(y) } else { inner.update(p2, y) };
        lemma_pos_after_push_or_update(inner, p2, y, k2);
        lemma_pos_after_push_or_update(inner, p2, y, j2);
        let x = (k1, inner2);
        lemma_pos_after_push_or_update(ix, p1, x, k1);
        lemma_pos_after_push_or_update(ix, p1, x, j1);
        assert(ix2 == ix.update(p1, x));
        if bucket_of(ix, j1, j2) is Some {
            if j1 == k1 {
                assert(q1 == p1);
                let q2 = pos_of(inner, j2);
                lemma_find_pos(inner, j2, 0);
                assert(q2 >= 0);
                if j2 != k2 {
                    assert(inner2[q2] == inner[q2]);
                } else {
                    assert(q2 == p2);
                    assert(inner2[q2] == y);
                    assert(inner[p2].1.is_prefix_of(inner[p2].1.push(e)));
                }
            } else {
                assert(q1 != p1);
                assert(ix2[q1] == ix[q1]);
            }
        }
    }
}

/// After `ix_insert(ix, k1, k2, e)` the bucket of `k1`, `k2` holds its
/// former entries and then `e`; every other bucket is as it was.
pub(crate) proof fn lemma_bucket_insert_exact(ix: IndexView, k1: usize, k2: usize, e: Entry, j1: usize, j2: usize)
    ensures
        (j1 != k1 || j2 != k2) ==> bucket_of(ix_insert(ix, k1, k2, e), j1, j2) == bucket_of(ix, j1, j2),
        bucket_of(ix_insert(ix, k1, k2, e), k1, k2) == Some(entries(bucket_of(ix, k1, k2)).push(e)),
{
    let ix2 = ix_insert(ix, k1, k2, e);
    let p1 = pos_of(ix, k1);
    let q1 = pos_of(ix, j1);
    lemma_find_pos(ix, k1, 0);
    lemma_find_pos(ix, j1, 0);
    if p1 < 0 {
        let x = (k1, seq![(k2, seq![e])]);
        lemma_pos_after_push_or_update(ix, p1, x, k1);
        lemma_pos_after_push_or_update(ix, p1, x, j1);
        let inner = seq![(k2, seq![e])];
        lemma_find_pos(inner, k2, 0);
        lemma_find_pos(inner, j2, 0);
        assert(find_pos(inner, k2, 0) == 0);
        if q1 >= 0 {
            assert(ix2[q1] == ix[q1]);
        }
        assert(entries(bucket_of(ix, k1, k2)) =~= Seq::<Entry>::empty());
        assert(bucket_of(ix2, k1, k2) == Some(seq![e]));
        assert(seq![e] =~= Seq::<Entry>::empty().push(e));
    } else {
        let inner = ix[p1].1;
        let p2 = pos_of(inner, k2);
        let q2 = pos_of(inner, j2);
        lemma_find_pos(inner, k2, 0);
        lemma_find_pos(inner, j2, 0);
        let y = if p2 < 0 { (k2, seq![e]) } else { (k2, inner[p2].1.push(e)) };
        let inner2 = if p2 < 0 { inner.push(y) } else { inner.update(p2, y) };
        lemma_pos_after_push_or_update(inner, p2, y, k2);
        lemma_pos_after_push_or_update(inner, p2, y, j2);
        let x = (k1, inner2);
        lemma_pos_after_push_or_update(ix, p1, x, k1);
        lemma_pos_after_push_or_update(ix, p1, x, j1);
        assert(ix2 == ix.update(p1, x));
        if j1 != k1 {
            if q1 >= 0 {
                assert(q1 != p1);
                assert(ix2[q1] == ix[q1]);
            }
        } else {
            assert(q1 == p1);
            if j2 != k2 {
                if q2 >= 0 {
                    assert(q2 != p2);
                    assert(inner2[q2] == inner[q2]);
                }
            }
            if p2 < 0 {
                assert(seq![e] =~= Seq::<Entry>::empty().push(e));
            }
        }
    }
}

/// Adding a triple with another subject, predicate or object than `t`
/// does not make the index contain `t`.
pub(crate) proof fn lemma_contains_after_add_other(v: TripleIndexView, u: Triple, t: Triple)
    requires
        code_of(u.s) != code_of(t.s) || code_of(u.p) != code_of(t.p) || code_of(u.o) != code_of(t.o),
    ensures
        contains_spec(add_spec(v, u), t) == contains_spec(v, t),
{
    let e = (code_of(u.p), v.counter, graph_term(u.g));
    lemma_bucket_insert_exact(v.osp, code_of(u.o), code_of(u.s), e, code_of(t.o), code_of(t.s));
    if code_of(u.o) == code_of(t.o) && code_of(u.s) == code_of(t.s) {
        let b0 = entries(bucket_of(v.osp, code_of(t.o), code_of(t.s)));
        let b1 = b0.push(e);
        if has_value(b1, code_of(t.p)) {
            let i = choose|i: int| 0 <= i < b1.len() && #[trigger] b1[i].0 == code_of(t.p);
            assert(i < b0.len());
            assert(b0[i] == b1[i]);
            assert(bucket_of(v.osp, code_of(t.o), code_of(t.s)) is Some);
        }
        if contains_spec(v, t) {
            let i = choose|i: int| 0 <= i < b0.len() && #[trigger] b0[i].0 == code_of(t.p);
            assert(b1[i] == b0[i]);
        }
    }
}

/// The entries of a bucket other than those with value `v`.
proof fn lemma_drop_value(b: Seq<Entry>, v: usize)
    ensures
        !has_value(drop_value(b, v), v),
    decreases b.len(),
{
    if b.len() > 0 {
        lemma_drop_value(b.drop_last(), v);
        let d = drop_value(b.drop_last(), v);
        if b.last().0 != v {
            assert forall|i: int| 0 <= i < d.push(b.last()).len() implies #[trigger] d.push(b.last())[i].0 != v by {
                if i < d.len() {
                    assert(d.push(b.last())[i] == d[i]);
                }
            }
        }
    }
}

/// After a triple is added, the index contains it, holds one more triple,
/// and still contains every triple it contained.
pub proof fn law_contains_after_add(v: TripleIndexView, t: Triple, u: Triple)
    ensures
        contains_spec(add_spec(v, t), t),
        add_spec(v, t).triples == v.triples.push(t),
        contains_spec(v, u) ==> contains_spec(add_spec(v, t), u),
{
    let e = (code_of(t.p), v.counter, graph_term(t.g));
    lemma_bucket_after_insert(v.osp, code_of(t.o), code_of(t.s), e, code_of(u.o), code_of(u.s));
    let b = bucket_of(add_spec(v, t).osp, code_of(t.o), code_of(t.s)).unwrap();
    assert(b[b.len() - 1].0 == code_of(t.p));
    if contains_spec(v, u) {
        let b0 = bucket_of(v.osp, code_of(u.o), code_of(u.s)).unwrap();
        let b1 = bucket_of(add_spec(v, t).osp, code_of(u.o), code_of(u.s)).unwrap();
        let i = choose|i: int| 0 <= i < b0.len() && #[trigger] b0[i].0 == code_of(u.p);
        assert(b1[i] == b0[i]);
    }
}

/// After a triple is removed, the index no longer contains it, and none of
/// its triples equals it.
pub proof fn law_not_contains_after_remove(v: TripleIndexView, t: Triple)
    ensures
        !contains_spec(remove_spec(v, t), t),
        !remove_spec(v, t).triples.contains(t),
{
    let o = code_of(t.o);
    let s = code_of(t.s);
    let p = code_of(t.p);
    let ix = v.osp;
    let p1 = pos_of(ix, o);
    lemma_find_pos(ix, o, 0);
    if p1 >= 0 {
        let inner = ix[p1].1;
        let p2 = pos_of(inner, s);
        lemma_find_pos(inner, s, 0);
        if p2 >= 0 {
            let inner2 = inner.update(p2, (s, drop_value(inner[p2].1, p)));
            let ix2 = ix.update(p1, (o, inner2));
            lemma_find_pos_same(ix, ix2, o, 0);
            lemma_find_pos_same(inner, inner2, s, 0);
            lemma_drop_value(inner[p2].1, p);
        }
    }
    lemma_without(v.triples, t);
}

/// No triple equal to `t` is left in `without(ts, t)`.
proof fn lemma_without(ts: Seq<Triple>, t: Triple)
    ensures
        !without(ts, t).contains(t),
    decreases ts.len(),
{
    if ts.len() > 0 {
        lemma_without(ts.drop_last(), t);
        let w = without(ts.drop_last(), t);
        if ts.last() != t {
            assert forall|i: int| 0 <= i < w.push(ts.last()).len() implies w.push(ts.last())[i] != t by {
                if i < w.len() {
                    assert(w.push(ts.last())[i] == w[i]);
                }
            }
        }
    }
}

} // verus!
