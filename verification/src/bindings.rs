//! Variable bindings: for each variable (by its code), the column of values
//! (codes) that it takes; row `i` of a binding is the `i`-th value of every
//! column.
//!
//! The variables are kept in the order in which they first received a value.
use vstd::prelude::*;

verus! {

/// A binding seen as its variables, in order, each with its column.
pub type BindingView = Seq<(usize, Seq<usize>)>;

/// The position of the first variable `k` at or after `i`, or -1.
pub open spec fn find_key(b: BindingView, k: usize, i: int) -> int
    decreases b.len() - i,
{
    if i < 0 || i >= b.len() {
        -1
    } else if b[i].0 == k {
        i
    } else {
        find_key(b, k, i + 1)
    }
}

/// The position of variable `k`, or -1 when it has no column.
pub open spec fn key_pos(b: BindingView, k: usize) -> int {
    find_key(b, k, 0)
}

/// The column of variable `k`, if it has one.
pub open spec fn column(b: BindingView, k: usize) -> Option<Seq<usize>> {
    if key_pos(b, k) >= 0 {
        Some(b[key_pos(b, k)].1)
    } else {
        None
    }
}

/// No variable has two columns.
pub open spec fn distinct_keys(b: BindingView) -> bool {
    forall|i: int, j: int| 0 <= i < j < b.len() ==> b[i].0 != b[j].0
}

/// The binding with `v` appended to the column of `k` (a new last column
/// when `k` has none).
pub open spec fn bind_add(b: BindingView, k: usize, v: usize) -> BindingView {
    let p = key_pos(b, k);
    if p >= 0 {
        b.update(p, (k, b[p].1.push(v)))
    } else {
        b.push((k, seq![v]))
    }
}

/// The binding with the values `vs` appended to the column of `k` (a new
/// last column when `k` has none).
pub open spec fn bind_extend(b: BindingView, k: usize, vs: Seq<usize>) -> BindingView {
    let p = key_pos(b, k);
    if p >= 0 {
        b.update(p, (k, b[p].1 + vs))
    } else {
        b.push((k, vs))
    }
}

/// The binding with the column of `k` set to `vs` (a new last column when
/// `k` has none).
pub open spec fn bind_set(b: BindingView, k: usize, vs: Seq<usize>) -> BindingView {
    let p = key_pos(b, k);
    if p >= 0 {
        b.update(p, (k, vs))
    } else {
        b.push((k, vs))
    }
}

/// The number of rows: the length of the first column, 0 without columns.
pub open spec fn bind_len(b: BindingView) -> nat {
    if b.len() == 0 {
        0
    } else {
        b[0].1.len()
    }
}

/// Every column is at least as long as the number of rows.
pub open spec fn covers(b: BindingView) -> bool {
    forall|t: int| 0 <= t < b.len() ==> (#[trigger] b[t]).1.len() >= bind_len(b)
}

/// The binding after the values `adds` (variable, value) were added in order.
pub open spec fn adds_to(b: BindingView, adds: Seq<(usize, usize)>) -> BindingView
    decreases adds.len(),
{
    if adds.len() == 0 {
        b
    } else {
        bind_add(adds_to(b, adds.drop_last()), adds.last().0, adds.last().1)
    }
}

/// Row `i` of `a` agrees with row `j` of `b` on every variable they share.
pub open spec fn matches_row(a: BindingView, b: BindingView, i: int, j: int) -> bool {
    forall|t: int|
        0 <= t < a.len() && key_pos(b, a[t].0) >= 0 ==> (#[trigger] a[t]).1[i] == b[key_pos(b, a[t].0)].1[j]
}

/// The pairs `(i, j)`, `j < jn`, of agreeing rows for row `i` of `a`.
pub open spec fn row_pairs(a: BindingView, b: BindingView, i: int, jn: nat) -> Seq<(int, int)>
    decreases jn,
{
    if jn == 0 {
        seq![]
    } else {
        let p = row_pairs(a, b, i, (jn - 1) as nat);
        if matches_row(a, b, i, jn - 1) {
            p.push((i, jn - 1))
        } else {
            p
        }
    }
}

/// The pairs of agreeing rows for the first `n` rows of `a`, row by row.
pub open spec fn all_pairs(a: BindingView, b: BindingView, n: nat) -> Seq<(int, int)>
    decreases n,
{
    if n == 0 {
        seq![]
    } else {
        all_pairs(a, b, (n - 1) as nat) + row_pairs(a, b, n - 1, bind_len(b))
    }
}

/// The columns of `b` whose variable has no column in `a`.
pub open spec fn right_only(a: BindingView, b: BindingView) -> BindingView
    decreases b.len(),
{
    if b.len() == 0 {
        seq![]
    } else if key_pos(a, b.last().0) >= 0 {
        right_only(a, b.drop_last())
    } else {
        right_only(a, b.drop_last()).push(b.last())
    }
}

/// The column of `a`'s values at the first rows of the pairs `ps`.
pub open spec fn left_col(col: Seq<usize>, ps: Seq<(int, int)>) -> Seq<usize> {
    ps.map_values(|p: (int, int)| col[p.0])
}

/// The column of `b`'s values at the second rows of the pairs `ps`.
pub open spec fn right_col(col: Seq<usize>, ps: Seq<(int, int)>) -> Seq<usize> {
    ps.map_values(|p: (int, int)| col[p.1])
}

/// The joined rows for the pairs `ps`: the variables of `a`, then those of
/// `b` that `a` lacks; nothing when there is no pair.
pub open spec fn join_cols(a: BindingView, b: BindingView, ps: Seq<(int, int)>) -> BindingView {
    if ps.len() == 0 {
        seq![]
    } else {
        a.map_values(|e: (usize, Seq<usize>)| (e.0, left_col(e.1, ps))) + right_only(a, b).map_values(
            |e: (usize, Seq<usize>)| (e.0, right_col(e.1, ps)),
        )
    }
}

/// The join of two bindings: an empty side gives the other; else, with `a`
/// the side with more rows (the first on a tie) and `b` the other, every
/// pair of a row of `a` and a row of `b` that agree on the shared variables,
/// in the order of `a`'s rows and then `b`'s.
pub open spec fn join_spec(l: BindingView, r: BindingView) -> BindingView {
    if bind_len(l) == 0 {
        r
    } else if bind_len(r) == 0 {
        l
    } else {
        let a = if bind_len(l) < bind_len(r) { r } else { l };
        let b = if bind_len(l) < bind_len(r) { l } else { r };
        join_cols(a, b, all_pairs(a, b, bind_len(a)))
    }
}

/// The binding after the columns of `o` were appended, in order, to those of
/// `s` (see `bind_extend`).
pub open spec fn combine_spec(s: BindingView, o: BindingView) -> BindingView
    decreases o.len(),
{
    if o.len() == 0 {
        s
    } else {
        combine_spec(bind_extend(s, o[0].0, o[0].1), o.drop_first())
    }
}

/// The binding that renaming makes: for each `(orig, new)` in order, the
/// column of `orig` in `b` becomes the column of `new`.
pub open spec fn rename_spec(b: BindingView, subs: Seq<(usize, usize)>) -> BindingView
    decreases subs.len(),
{
    if subs.len() == 0 {
        seq![]
    } else {
        bind_set(rename_spec(b, subs.drop_last()), subs.last().1, column(b, subs.last().0).unwrap())
    }
}

pub proof fn lemma_find_key(b: BindingView, k: usize, i: int)
    requires
        0 <= i,
    ensures
        find_key(b, k, i) == -1 || (i <= find_key(b, k, i) < b.len() && b[find_key(b, k, i)].0 == k),
        find_key(b, k, i) == -1 ==> forall|t: int| i <= t < b.len() ==> b[t].0 != k,
        find_key(b, k, i) >= 0 ==> forall|t: int| i <= t < find_key(b, k, i) ==> b[t].0 != k,
    decreases b.len() - i,
{
    if i < b.len() && b[i].0 != k {
        lemma_find_key(b, k, i + 1);
    }
}

/// `key_pos` finds the variable, and only it.
pub proof fn lemma_key_pos(b: BindingView, k: usize)
    ensures
        key_pos(b, k) == -1 || (0 <= key_pos(b, k) < b.len() && b[key_pos(b, k)].0 == k),
        key_pos(b, k) == -1 <==> forall|t: int| 0 <= t < b.len() ==> b[t].0 != k,
        distinct_keys(b) ==> forall|t: int| 0 <= t < b.len() && b[t].0 == k ==> key_pos(b, k) == t,
{
    lemma_find_key(b, k, 0);
}

/// Appending to a column keeps the variables distinct.
pub proof fn lemma_bind_update_distinct(b: BindingView, k: usize, c: Seq<usize>)
    requires
        distinct_keys(b),
    ensures
        distinct_keys(bind_set(b, k, c)),
        distinct_keys(bind_extend(b, k, c)),
        forall|v: usize| distinct_keys(#[trigger] bind_add(b, k, v)),
{
    lemma_key_pos(b, k);
}

/// Pairs of positions as integers.
pub open spec fn int_pairs(ps: Seq<(usize, usize)>) -> Seq<(int, int)> {
    ps.map_values(|p: (usize, usize)| (p.0 as int, p.1 as int))
}

/// The columns that `right_only` keeps come from `b`, their variables have
/// no column in `a`, and they are distinct when `b`'s are.
pub proof fn lemma_right_only(a: BindingView, b: BindingView)
    ensures
        forall|m: int| 0 <= m < right_only(a, b).len() ==> key_pos(a, (#[trigger] right_only(a, b)[m]).0) == -1,
        forall|m: int| 0 <= m < right_only(a, b).len() ==> exists|u: int| 0 <= u < b.len() && b[u] == #[trigger] right_only(a, b)[m],
        distinct_keys(b) ==> distinct_keys(right_only(a, b)),
    decreases b.len(),
{
    if b.len() > 0 {
        let bd = b.drop_last();
        lemma_right_only(a, bd);
        let r0 = right_only(a, bd);
        assert forall|m: int| 0 <= m < r0.len() implies exists|u: int| 0 <= u < b.len() && b[u] == #[trigger] r0[m] by {
            let u = choose|u: int| 0 <= u < bd.len() && bd[u] == r0[m];
            assert(b[u] == r0[m]);
        }
        lemma_key_pos(a, b.last().0);
        if key_pos(a, b.last().0) < 0 {
            let r = r0.push(b.last());
            assert forall|m: int| 0 <= m < r.len() implies key_pos(a, (#[trigger] r[m]).0) == -1 by {
                if m < r0.len() {
                    assert(r[m] == r0[m]);
                }
            }
            assert forall|m: int| 0 <= m < r.len() implies exists|u: int| 0 <= u < b.len() && b[u] == #[trigger] r[m] by {
                if m == r0.len() {
                    assert(b[b.len() - 1] == r[m]);
                } else {
                    assert(r[m] == r0[m]);
                }
            }
            if distinct_keys(b) {
                assert(distinct_keys(bd));
                assert forall|i: int, j: int| 0 <= i < j < r.len() implies r[i].0 != r[j].0 by {
                    if j == r0.len() {
                        let u = choose|u: int| 0 <= u < bd.len() && bd[u] == r0[i];
                        assert(b[u] == r0[i]);
                    }
                }
            }
        }
    }
}

/// A variable binding: for each variable, its column of values.
#[derive(Debug)]
pub struct Binding {
    bindings: Vec<(usize, Vec<usize>)>,
}

impl View for Binding {
    type V = BindingView;

    closed spec fn view(&self) -> BindingView {
        self.bindings@.map_values(|e: (usize, Vec<usize>)| (e.0, e.1@))
    }
}

impl Clone for Binding {
    fn clone(&self) -> (res: Self)
        ensures
            res@ == self@,
    {
        let mut bindings: Vec<(usize, Vec<usize>)> = Vec::new();
        let mut i: usize = 0;
        while i < self.bindings.len()
            invariant
                i <= self.bindings@.len(),
                bindings@.map_values(|e: (usize, Vec<usize>)| (e.0, e.1@)) =~= self@.take(i as int),
            decreases self.bindings@.len() - i,
        {
            let col = copy_column(&self.bindings[i].1);
            bindings.push((self.bindings[i].0, col));
            proof {
                assert(self@.take(i + 1) =~= self@.take(i as int).push(self@[i as int]));
            }
            i = i + 1;
        }
        let res = Binding { bindings };
        assert(res@ =~= self@);
        res
    }
}

/// A copy of a column.
fn copy_column(v: &Vec<usize>) -> (res: Vec<usize>)
    ensures
        res@ == v@,
{
    let mut out: Vec<usize> = Vec::new();
    let mut i: usize = 0;
    while i < v.len()
        invariant
            i <= v@.len(),
            out@ == v@.take(i as int),
        decreases v@.len() - i,
    {
        out.push(v[i]);
        assert(v@.take(i + 1) =~= v@.take(i as int).push(v@[i as int]));
        i = i + 1;
    }
    assert(v@.take(v@.len() as int) =~= v@);
    out
}

impl Binding {
    /// No variable has two columns.
    pub closed spec fn wf(&self) -> bool {
        distinct_keys(self@)
    }

    pub fn new() -> (res: Binding)
        ensures
            res.wf(),
            res@ == Seq::<(usize, Seq<usize>)>::empty(),
    {
        let res = Binding { bindings: Vec::new() };
        assert(res@ =~= Seq::<(usize, Seq<usize>)>::empty());
        res
    }

    /// The position of the column of `k`, if any.
    fn position(&self, k: usize) -> (res: Option<usize>)
        ensures
            match res {
                Some(p) => key_pos(self@, k) == p as int && p < self@.len(),
                None => key_pos(self@, k) == -1,
            },
    {
        let mut i: usize = 0;
        while i < self.bindings.len()
            invariant
                i <= self.bindings@.len(),
                find_key(self@, k, 0) == find_key(self@, k, i as int),
            decreases self.bindings@.len() - i,
        {
            if self.bindings[i].0 == k {
                return Some(i);
            }
            i = i + 1;
        }
        None
    }

    /// Appends `term` to the column of `var_name` (see `bind_add`).
    pub fn add(&mut self, var_name: &usize, term: usize)
        requires
            old(self).wf(),
        ensures
            final(self).wf(),
            final(self)@ == bind_add(old(self)@, *var_name, term),
    {
        let ghost b0 = self@;
        proof {
            lemma_bind_update_distinct(b0, *var_name, seq![]);
        }
        match self.position(*var_name) {
            Some(p) => {
                let (k, mut col) = self.bindings.remove(p);
                col.push(term);
                self.bindings.insert(p, (k, col));
                proof {
                    lemma_key_pos(b0, *var_name);
                    assert(self@ =~= b0.update(p as int, (*var_name, b0[p as int].1.push(term))));
                }
            },
            None => {
                let mut col: Vec<usize> = Vec::new();
                col.push(term);
                self.bindings.push((*var_name, col));
                assert(self@ =~= b0.push((*var_name, seq![term])));
            },
        }
        assert(distinct_keys(bind_add(b0, *var_name, term)));
    }

    /// The number of rows (see `bind_len`).
    pub fn len(&self) -> (res: usize)
        ensures
            res == bind_len(self@),
    {
        if self.bindings.len() == 0 {
            0
        } else {
            self.bindings[0].1.len()
        }
    }

    /// The column of `key`, if it has one.
    pub fn get(&self, key: &usize) -> (res: Option<&Vec<usize>>)
        ensures
            match res {
                Some(v) => column(self@, *key) == Some(v@),
                None => column(self@, *key) is None,
            },
    {
        match self.position(*key) {
            Some(p) => Some(&self.bindings[p].1),
            None => None,
        }
    }

    /// Sets the column of `k` to `col` (see `bind_set`).
    fn set_column(&mut self, k: usize, col: Vec<usize>)
        requires
            old(self).wf(),
        ensures
            final(self).wf(),
            final(self)@ == bind_set(old(self)@, k, col@),
    {
        let ghost b0 = self@;
        proof {
            lemma_bind_update_distinct(b0, k, col@);
            lemma_key_pos(b0, k);
        }
        match self.position(k) {
            Some(p) => {
                let _ = self.bindings.remove(p);
                self.bindings.insert(p, (k, col));
                assert(self@ =~= b0.update(p as int, (k, col@)));
            },
            None => {
                self.bindings.push((k, col));
                assert(self@ =~= b0.push((k, col@)));
            },
        }
    }

    /// Appends the values `vs` to the column of `k` (see `bind_extend`).
    fn extend_column(&mut self, k: usize, vs: &Vec<usize>)
        requires
            old(self).wf(),
        ensures
            final(self).wf(),
            final(self)@ == bind_extend(old(self)@, k, vs@),
    {
        let ghost b0 = self@;
        proof {
            lemma_bind_update_distinct(b0, k, vs@);
            lemma_key_pos(b0, k);
        }
        match self.position(k) {
            Some(p) => {
                let (k0, mut col) = self.bindings.remove(p);
                let mut i: usize = 0;
                let ghost c0 = col@;
                while i < vs.len()
                    invariant
                        i <= vs@.len(),
                        col@ == c0 + vs@.take(i as int),
                    decreases vs@.len() - i,
                {
                    col.push(vs[i]);
                    assert(vs@.take(i + 1) =~= vs@.take(i as int).push(vs@[i as int]));
                    i = i + 1;
                }
                assert(vs@.take(vs@.len() as int) =~= vs@);
                self.bindings.insert(p, (k0, col));
                assert(self@ =~= b0.update(p as int, (k, b0[p as int].1 + vs@)));
            },
            None => {
                let col = copy_column(vs);
                self.bindings.push((k, col));
                assert(self@ =~= b0.push((k, vs@)));
            },
        }
    }

    /// Appends the columns of `to_combine`, in order, to this binding (see
    /// `combine_spec`).
    pub fn combine(&mut self, to_combine: Binding)
        requires
            old(self).wf(),
        ensures
            final(self).wf(),
            final(self)@ == combine_spec(old(self)@, to_combine@),
    {
        let ghost o = to_combine@;
        let mut i: usize = 0;
        assert(o.skip(0) =~= o);
        while i < to_combine.bindings.len()
            invariant
                i <= to_combine.bindings@.len(),
                o == to_combine@,
                self.wf(),
                combine_spec(old(self)@, o) == combine_spec(self@, o.skip(i as int)),
            decreases to_combine.bindings@.len() - i,
        {
            proof {
                assert(o.skip(i as int)[0] == o[i as int]);
                assert(o.skip(i as int).drop_first() =~= o.skip(i + 1));
            }
            self.extend_column(to_combine.bindings[i].0, &to_combine.bindings[i].1);
            i = i + 1;
        }
        assert(o.skip(o.len() as int) =~= Seq::<(usize, Seq<usize>)>::empty());
    }

    /// The binding whose column `new` is the column `orig` of this one, for
    /// each `(orig, new)` in order (see `rename_spec`). Every `orig` must have
    /// a column.
    pub fn rename(&self, var_subs: Vec<(usize, usize)>) -> (res: Binding)
        requires
            self.wf(),
            forall|m: int| 0 <= m < var_subs@.len() ==> key_pos(self@, (#[trigger] var_subs@[m]).0) >= 0,
        ensures
            res.wf(),
            res@ == rename_spec(self@, var_subs@),
    {
        let mut renamed = Binding::new();
        let mut m: usize = 0;
        while m < var_subs.len()
            invariant
                m <= var_subs@.len(),
                self.wf(),
                renamed.wf(),
                forall|n: int| 0 <= n < var_subs@.len() ==> key_pos(self@, (#[trigger] var_subs@[n]).0) >= 0,
                renamed@ == rename_spec(self@, var_subs@.take(m as int)),
            decreases var_subs@.len() - m,
        {
            let (orig, new_name) = var_subs[m];
            proof {
                assert(key_pos(self@, var_subs@[m as int].0) >= 0);
                assert(var_subs@.take(m + 1).drop_last() =~= var_subs@.take(m as int));
                assert(var_subs@.take(m + 1).last() == var_subs@[m as int]);
            }
            match self.get(&orig) {
                Some(col) => {
                    let c = copy_column(col);
                    renamed.set_column(new_name, c);
                },
                None => {},
            }
            m = m + 1;
        }
        assert(var_subs@.take(var_subs@.len() as int) =~= var_subs@);
        renamed
    }

    /// Whether row `i` of `a` and row `j` of `b` agree on every variable they
    /// share (see `matches_row`).
    fn rows_agree(a: &Binding, b: &Binding, i: usize, j: usize) -> (res: bool)
        requires
            covers(a@),
            covers(b@),
            i < bind_len(a@),
            j < bind_len(b@),
        ensures
            res == matches_row(a@, b@, i as int, j as int),
    {
        let mut t: usize = 0;
        while t < a.bindings.len()
            invariant
                t <= a.bindings@.len(),
                covers(a@),
                covers(b@),
                i < bind_len(a@),
                j < bind_len(b@),
                forall|u: int|
                    0 <= u < t && key_pos(b@, a@[u].0) >= 0 ==> (#[trigger] a@[u]).1[i as int] == b@[key_pos(b@, a@[u].0)].1[j as int],
            decreases a.bindings@.len() - t,
        {
            proof {
                assert(a@[t as int].1.len() >= bind_len(a@));
            }
            match b.position(a.bindings[t].0) {
                Some(q) => {
                    proof {
                        assert(b@[q as int].1.len() >= bind_len(b@));
                    }
                    if a.bindings[t].1[i] != b.bindings[q].1[j] {
                        return false;
                    }
                },
                None => {},
            }
            t = t + 1;
        }
        true
    }

    /// The values of `col` at the first (`left`) or second rows of `pairs`.
    fn pick_col(col: &Vec<usize>, pairs: &Vec<(usize, usize)>, left: bool) -> (res: Vec<usize>)
        requires
            forall|m: int| 0 <= m < pairs@.len() ==> (if left { (#[trigger] pairs@[m]).0 } else { pairs@[m].1 }) < col@.len(),
        ensures
            left ==> res@ == left_col(col@, int_pairs(pairs@)),
            !left ==> res@ == right_col(col@, int_pairs(pairs@)),
    {
        let mut out: Vec<usize> = Vec::new();
        let mut m: usize = 0;
        while m < pairs.len()
            invariant
                m <= pairs@.len(),
                forall|n: int| 0 <= n < pairs@.len() ==> (if left { (#[trigger] pairs@[n]).0 } else { pairs@[n].1 }) < col@.len(),
                left ==> out@ == left_col(col@, int_pairs(pairs@.take(m as int))),
                !left ==> out@ == right_col(col@, int_pairs(pairs@.take(m as int))),
            decreases pairs@.len() - m,
        {
            let idx = if left { pairs[m].0 } else { pairs[m].1 };
            proof {
                assert(if left { pairs@[m as int].0 } else { pairs@[m as int].1 } < col@.len());
            }
            out.push(col[idx]);
            proof {
                assert(int_pairs(pairs@.take(m + 1)) =~= int_pairs(pairs@.take(m as int)).push(
                    (pairs@[m as int].0 as int, pairs@[m as int].1 as int),
                ));
                if left {
                    assert(out@ =~= left_col(col@, int_pairs(pairs@.take(m + 1))));
                } else {
                    assert(out@ =~= right_col(col@, int_pairs(pairs@.take(m + 1))));
                }
            }
            m = m + 1;
        }
        assert(pairs@.take(pairs@.len() as int) =~= pairs@);
        out
    }

    /// The joined rows of `a` and `b` (see `join_cols`).
    fn join_rows(a: &Binding, b: &Binding) -> (res: Binding)
        requires
            a.wf(),
            b.wf(),
            covers(a@),
            covers(b@),
        ensures
            res.wf(),
            res@ == join_cols(a@, b@, all_pairs(a@, b@, bind_len(a@))),
    {
        let alen = a.len();
        let blen = b.len();
        let mut pairs: Vec<(usize, usize)> = Vec::new();
        let mut i: usize = 0;
        while i < alen
            invariant
                alen == bind_len(a@),
                blen == bind_len(b@),
                i <= alen,
                covers(a@),
                covers(b@),
                int_pairs(pairs@) == all_pairs(a@, b@, i as nat),
                forall|m: int| 0 <= m < pairs@.len() ==> (#[trigger] pairs@[m]).0 < alen && pairs@[m].1 < blen,
            decreases alen - i,
        {
            let mut j: usize = 0;
            while j < blen
                invariant
                    alen == bind_len(a@),
                    blen == bind_len(b@),
                    i < alen,
                    j <= blen,
                    covers(a@),
                    covers(b@),
                    int_pairs(pairs@) == all_pairs(a@, b@, i as nat) + row_pairs(a@, b@, i as int, j as nat),
                    forall|m: int| 0 <= m < pairs@.len() ==> (#[trigger] pairs@[m]).0 < alen && pairs@[m].1 < blen,
                decreases blen - j,
            {
                let ghost before = int_pairs(pairs@);
                if Self::rows_agree(a, b, i, j) {
                    pairs.push((i, j));
                    assert(int_pairs(pairs@) =~= before.push((i as int, j as int)));
                }
                j = j + 1;
            }
            i = i + 1;
        }
        if pairs.len() == 0 {
            let res = Binding::new();
            assert(res@ =~= join_cols(a@, b@, all_pairs(a@, b@, bind_len(a@))));
            return res;
        }
        let ghost ps = int_pairs(pairs@);
        let mut out: Vec<(usize, Vec<usize>)> = Vec::new();
        let mut t: usize = 0;
        while t < a.bindings.len()
            invariant
                t <= a.bindings@.len(),
                ps == int_pairs(pairs@),
                covers(a@),
                alen == bind_len(a@),
                forall|m: int| 0 <= m < pairs@.len() ==> (#[trigger] pairs@[m]).0 < alen && pairs@[m].1 < blen,
                out@.map_values(|e: (usize, Vec<usize>)| (e.0, e.1@)) =~= a@.take(t as int).map_values(
                    |e: (usize, Seq<usize>)| (e.0, left_col(e.1, ps)),
                ),
            decreases a.bindings@.len() - t,
        {
            proof {
                assert(a@[t as int].1.len() >= bind_len(a@));
            }
            let col = Self::pick_col(&a.bindings[t].1, &pairs, true);
            let ghost before = out@.map_values(|e: (usize, Vec<usize>)| (e.0, e.1@));
            let ghost cv = col@;
            out.push((a.bindings[t].0, col));
            proof {
                assert(out@.map_values(|e: (usize, Vec<usize>)| (e.0, e.1@)) =~= before.push((a@[t as int].0, cv)));
                assert(a@.take(t + 1) =~= a@.take(t as int).push(a@[t as int]));
                assert(a@.take(t + 1).map_values(|e: (usize, Seq<usize>)| (e.0, left_col(e.1, ps))) =~= a@.take(
                    t as int,
                ).map_values(|e: (usize, Seq<usize>)| (e.0, left_col(e.1, ps))).push((a@[t as int].0, left_col(a@[t as int].1, ps))));
            }
            t = t + 1;
        }
        assert(a@.take(a@.len() as int) =~= a@);
        let ghost a_part = out@.map_values(|e: (usize, Vec<usize>)| (e.0, e.1@));
        let mut u: usize = 0;
        while u < b.bindings.len()
            invariant
                u <= b.bindings@.len(),
                ps == int_pairs(pairs@),
                covers(b@),
                blen == bind_len(b@),
                forall|m: int| 0 <= m < pairs@.len() ==> (#[trigger] pairs@[m]).0 < alen && pairs@[m].1 < blen,
                out@.map_values(|e: (usize, Vec<usize>)| (e.0, e.1@)) =~= a_part + right_only(a@, b@.take(u as int)).map_values(
                    |e: (usize, Seq<usize>)| (e.0, right_col(e.1, ps)),
                ),
            decreases b.bindings@.len() - u,
        {
            proof {
                assert(b@.take(u + 1).drop_last() =~= b@.take(u as int));
                assert(b@.take(u + 1).last() == b@[u as int]);
            }
            match a.position(b.bindings[u].0) {
                Some(_) => {
                    proof {
                        assert(right_only(a@, b@.take(u + 1)) == right_only(a@, b@.take(u as int)));
                    }
                },
                None => {
                    proof {
                        assert(b@[u as int].1.len() >= bind_len(b@));
                    }
                    let col = Self::pick_col(&b.bindings[u].1, &pairs, false);
                    let ghost before = out@.map_values(|e: (usize, Vec<usize>)| (e.0, e.1@));
                    let ghost cv = col@;
                    out.push((b.bindings[u].0, col));
                    proof {
                        assert(out@.map_values(|e: (usize, Vec<usize>)| (e.0, e.1@)) =~= before.push((b@[u as int].0, cv)));
                        let r0 = right_only(a@, b@.take(u as int));
                        assert(right_only(a@, b@.take(u + 1)) == r0.push(b@[u as int]));
                        assert(r0.push(b@[u as int]).map_values(|e: (usize, Seq<usize>)| (e.0, right_col(e.1, ps))) =~= r0.map_values(
                            |e: (usize, Seq<usize>)| (e.0, right_col(e.1, ps)),
                        ).push((b@[u as int].0, right_col(b@[u as int].1, ps))));
                    }
                },
            }
            u = u + 1;
        }
        assert(b@.take(b@.len() as int) =~= b@);
        let res = Binding { bindings: out };
        proof {
            let ro = right_only(a@, b@);
            lemma_right_only(a@, b@);
            let r = res@;
            assert(r =~= join_cols(a@, b@, ps));
            assert forall|x: int, y: int| 0 <= x < y < r.len() implies r[x].0 != r[y].0 by {
                if y < a@.len() {
                    assert(r[x].0 == a@[x].0 && r[y].0 == a@[y].0);
                } else if x < a@.len() {
                    let m = y - a@.len();
                    assert(r[y].0 == ro[m].0);
                    assert(key_pos(a@, ro[m].0) == -1);
                    lemma_key_pos(a@, ro[m].0);
                    assert(r[x].0 == a@[x].0);
                } else {
                    assert(r[x].0 == ro[x - a@.len()].0);
                    assert(r[y].0 == ro[y - a@.len()].0);
                }
            }
        }
        res
    }

    /// The join of this binding with `join_binding` (see `join_spec`). Every
    /// column must be at least as long as its binding's number of rows.
    pub fn join(&self, join_binding: &Binding) -> (res: Binding)
        requires
            self.wf(),
            join_binding.wf(),
            bind_len(self@) > 0 && bind_len(join_binding@) > 0 ==> covers(self@) && covers(join_binding@),
        ensures
            res.wf(),
            res@ == join_spec(self@, join_binding@),
    {
        let left_len = self.len();
        let right_len = join_binding.len();
        if left_len == 0 {
            return join_binding.clone();
        }
        if right_len == 0 {
            return self.clone();
        }
        if left_len < right_len {
            Self::join_rows(join_binding, self)
        } else {
            Self::join_rows(self, join_binding)
        }
    }
}

/// Adding a value to a variable appends it to that variable's column (a new
/// column when it had none) and leaves every other column as it was.
pub proof fn law_get_after_add(b: BindingView, k: usize, v: usize, k2: usize)
    requires
        distinct_keys(b),
    ensures
        column(bind_add(b, k, v), k) == Some(
            match column(b, k) {
                Some(c) => c.push(v),
                None => seq![v],
            },
        ),
        k2 != k ==> column(bind_add(b, k, v), k2) == column(b, k2),
{
    lemma_key_pos(b, k);
    lemma_key_pos(b, k2);
    let b2 = bind_add(b, k, v);
    lemma_bind_update_distinct(b, k, seq![]);
    lemma_key_pos(b2, k);
    lemma_key_pos(b2, k2);
    if key_pos(b, k) >= 0 {
        let p = key_pos(b, k);
        assert(b2[p].0 == k);
        if k2 != k && key_pos(b, k2) >= 0 {
            assert(b2[key_pos(b, k2)] == b[key_pos(b, k2)]);
        }
        if k2 != k && key_pos(b, k2) < 0 {
            assert forall|t: int| 0 <= t < b2.len() implies b2[t].0 != k2 by {
                if t != p {
                    assert(b2[t] == b[t]);
                }
            }
        }
    } else {
        assert(b2[b.len() as int].0 == k);
        if k2 != k && key_pos(b, k2) >= 0 {
            assert(b2[key_pos(b, k2)] == b[key_pos(b, k2)]);
        }
        if k2 != k && key_pos(b, k2) < 0 {
            assert forall|t: int| 0 <= t < b2.len() implies b2[t].0 != k2 by {
                if t < b.len() {
                    assert(b2[t] == b[t]);
                }
            }
        }
    }
}

/// Joining with a binding that has no row gives the other binding back.
pub proof fn law_join_with_empty(b: BindingView, e: BindingView)
    requires
        bind_len(e) == 0,
    ensures
        join_spec(e, b) == b,
        bind_len(b) > 0 ==> join_spec(b, e) == b,
{
}

proof fn lemma_row_pairs(a: BindingView, b: BindingView, i: int, jn: nat, x: int, y: int)
    ensures
        row_pairs(a, b, i, jn).contains((x, y)) <==> x == i && 0 <= y < jn && matches_row(a, b, i, y),
    decreases jn,
{
    if jn > 0 {
        lemma_row_pairs(a, b, i, (jn - 1) as nat, x, y);
        let p = row_pairs(a, b, i, (jn - 1) as nat);
        if matches_row(a, b, i, jn - 1) {
            let q = p.push((i, jn - 1));
            if q.contains((x, y)) {
                let w = choose|w: int| 0 <= w < q.len() && q[w] == (x, y);
                if w < p.len() {
                    assert(p[w] == (x, y));
                    assert(p.contains((x, y)));
                }
            }
            if p.contains((x, y)) {
                let w = choose|w: int| 0 <= w < p.len() && p[w] == (x, y);
                assert(q[w] == (x, y));
            }
            if x == i && y == jn - 1 {
                assert(q[p.len() as int] == (x, y));
            }
        }
    }
}

proof fn lemma_all_pairs(a: BindingView, b: BindingView, n: nat, x: int, y: int)
    ensures
        all_pairs(a, b, n).contains((x, y)) <==> 0 <= x < n && 0 <= y < bind_len(b) && matches_row(a, b, x, y),
    decreases n,
{
    if n > 0 {
        lemma_all_pairs(a, b, (n - 1) as nat, x, y);
        lemma_row_pairs(a, b, n - 1, bind_len(b), x, y);
        let p = all_pairs(a, b, (n - 1) as nat);
        let r = row_pairs(a, b, n - 1, bind_len(b));
        let q = p + r;
        if q.contains((x, y)) {
            let w = choose|w: int| 0 <= w < q.len() && q[w] == (x, y);
            if w < p.len() {
                assert(p[w] == (x, y));
                assert(p.contains((x, y)));
            } else {
                assert(r[w - p.len()] == (x, y));
                assert(r.contains((x, y)));
            }
        }
        if p.contains((x, y)) {
            let w = choose|w: int| 0 <= w < p.len() && p[w] == (x, y);
            assert(q[w] == (x, y));
        }
        if r.contains((x, y)) {
            let w = choose|w: int| 0 <= w < r.len() && r[w] == (x, y);
            assert(q[p.len() + w] == (x, y));
        }
    }
}

/// The rows that a join pairs are exactly the pairs of a row of the larger
/// side and a row of the other that agree on every shared variable.
pub proof fn law_join_pairs(a: BindingView, b: BindingView, x: int, y: int)
    ensures
        all_pairs(a, b, bind_len(a)).contains((x, y)) <==> 0 <= x < bind_len(a) && 0 <= y < bind_len(b) && matches_row(
            a,
            b,
            x,
            y,
        ),
{
    lemma_all_pairs(a, b, bind_len(a), x, y);
}


/// A column of `b` whose variable `a` lacks is among the columns that
/// `right_only` keeps.
proof fn lemma_right_only_keeps(a: BindingView, b: BindingView, u: int)
    requires
        0 <= u < b.len(),
        key_pos(a, b[u].0) == -1,
    ensures
        exists|m: int| 0 <= m < right_only(a, b).len() && right_only(a, b)[m] == b[u],
    decreases b.len(),
{
    let bd = b.drop_last();
    if u < bd.len() {
        lemma_right_only_keeps(a, bd, u);
        let m = choose|m: int| 0 <= m < right_only(a, bd).len() && right_only(a, bd)[m] == bd[u];
        if key_pos(a, b.last().0) < 0 {
            assert(right_only(a, b) == right_only(a, bd).push(b.last()));
            assert(right_only(a, b)[m] == right_only(a, bd)[m]);
        }
    } else {
        assert(right_only(a, b) == right_only(a, bd).push(b.last()));
        assert(right_only(a, b)[right_only(a, bd).len() as int] == b[u]);
    }
}

/// Row by row, the join of two bindings that have rows and distinct
/// variables is the list `ps` of agreeing pairs of rows (see
/// `law_join_pairs`), taken from the side with more rows (the left one on a
/// tie) and the other side: in row `k`, a variable of the first side has its
/// value in the first row of the `k`-th pair, a variable of the other side
/// its value in the second row of that pair (the two agree on a shared
/// variable), and no other variable has a column. Without an agreeing pair
/// the join is empty.
pub proof fn law_join_rows(l: BindingView, r: BindingView, x: usize)
    requires
        bind_len(l) > 0,
        bind_len(r) > 0,
        covers(l),
        covers(r),
        distinct_keys(l),
        distinct_keys(r),
    ensures
        ({
            let a = if bind_len(l) < bind_len(r) { r } else { l };
            let b = if bind_len(l) < bind_len(r) { l } else { r };
            let ps = all_pairs(a, b, bind_len(a));
            let j = join_spec(l, r);
            &&& bind_len(j) == ps.len()
            &&& covers(j)
            &&& distinct_keys(j)
            &&& ps.len() == 0 ==> j == Seq::<(usize, Seq<usize>)>::empty()
            &&& ps.len() > 0 && key_pos(a, x) >= 0 ==> column(j, x) == Some(left_col(column(a, x).unwrap(), ps))
            &&& ps.len() > 0 && key_pos(b, x) >= 0 ==> column(j, x) == Some(right_col(column(b, x).unwrap(), ps))
            &&& key_pos(a, x) < 0 && key_pos(b, x) < 0 ==> column(j, x) is None
        }),
{
    let a = if bind_len(l) < bind_len(r) { r } else { l };
    let b = if bind_len(l) < bind_len(r) { l } else { r };
    let ps = all_pairs(a, b, bind_len(a));
    let j = join_spec(l, r);
    assert(j == join_cols(a, b, ps));
    lemma_key_pos(a, x);
    lemma_key_pos(b, x);
    lemma_right_only(a, b);
    if ps.len() > 0 {
        let la = a.map_values(|e: (usize, Seq<usize>)| (e.0, left_col(e.1, ps)));
        let ro = right_only(a, b);
        let rb = ro.map_values(|e: (usize, Seq<usize>)| (e.0, right_col(e.1, ps)));
        assert(j == la + rb);
        assert(j[0] == la[0]);
        assert forall|t: int| 0 <= t < j.len() implies (#[trigger] j[t]).1.len() >= bind_len(j) by {
            if t >= la.len() {
                assert(j[t] == rb[t - la.len()]);
            }
        }
        assert forall|i: int, k: int| 0 <= i < k < j.len() implies j[i].0 != j[k].0 by {
            if k < la.len() {
                assert(j[i] == la[i] && j[k] == la[k]);
                assert(la[i].0 == a[i].0 && la[k].0 == a[k].0);
            } else if i >= la.len() {
                assert(j[i] == rb[i - la.len()] && j[k] == rb[k - la.len()]);
                assert(rb[i - la.len()].0 == ro[i - la.len()].0 && rb[k - la.len()].0 == ro[k - la.len()].0);
            } else {
                assert(j[i] == la[i] && j[k] == rb[k - la.len()]);
                assert(la[i].0 == a[i].0 && rb[k - la.len()].0 == ro[k - la.len()].0);
                assert(key_pos(a, ro[k - la.len()].0) == -1);
                lemma_key_pos(a, ro[k - la.len()].0);
            }
        }
        lemma_key_pos(j, x);
        if key_pos(a, x) >= 0 {
            let p = key_pos(a, x);
            assert(j[p] == la[p]);
            assert(key_pos(j, x) == p);
            if key_pos(b, x) >= 0 {
                let q = key_pos(b, x);
                assert(left_col(a[p].1, ps) =~= right_col(b[q].1, ps)) by {
                    assert forall|k: int| 0 <= k < ps.len() implies left_col(a[p].1, ps)[k] == right_col(b[q].1, ps)[k] by {
                        assert(ps.contains(ps[k]));
                        law_join_pairs(a, b, ps[k].0, ps[k].1);
                        assert(matches_row(a, b, ps[k].0, ps[k].1));
                        assert(a[p].1[ps[k].0] == b[key_pos(b, a[p].0)].1[ps[k].1]);
                    }
                }
            }
        } else if key_pos(b, x) >= 0 {
            let q = key_pos(b, x);
            lemma_right_only_keeps(a, b, q);
            let m = choose|m: int| 0 <= m < ro.len() && ro[m] == b[q];
            assert(j[la.len() + m] == rb[m]);
            assert(key_pos(j, x) == la.len() + m);
        } else {
            assert forall|t: int| 0 <= t < j.len() implies j[t].0 != x by {
                if t < la.len() {
                    assert(j[t] == la[t]);
                } else {
                    assert(j[t] == rb[t - la.len()]);
                    let u = choose|u: int| 0 <= u < b.len() && b[u] == #[trigger] ro[t - la.len()];
                }
            }
        }
    } else {
        assert(distinct_keys(j));
        assert(covers(j));
        lemma_key_pos(j, x);
    }
}


/// The values of variable `k`: its column, or nothing when it has none.
pub open spec fn column_values(b: BindingView, k: usize) -> Seq<usize> {
    match column(b, k) {
        Some(c) => c,
        None => seq![],
    }
}

/// The first position that holds variable `k` is its position.
proof fn lemma_key_pos_first(b: BindingView, k: usize, p: int)
    requires
        0 <= p < b.len(),
        b[p].0 == k,
        forall|t: int| 0 <= t < p ==> b[t].0 != k,
    ensures
        key_pos(b, k) == p,
{
    lemma_key_pos(b, k);
    lemma_find_key(b, k, 0);
}

/// Bindings with the same variable at each position give each variable the
/// same position.
proof fn lemma_key_pos_same_keys(a: BindingView, b: BindingView, k: usize)
    requires
        a.len() == b.len(),
        forall|t: int| 0 <= t < a.len() ==> (#[trigger] a[t]).0 == b[t].0,
    ensures
        key_pos(a, k) == key_pos(b, k),
{
    lemma_key_pos(a, k);
    lemma_find_key(a, k, 0);
    if key_pos(a, k) >= 0 {
        let p = key_pos(a, k);
        assert forall|t: int| 0 <= t < p implies b[t].0 != k by {
            assert(a[t].0 == b[t].0);
        }
        assert(a[p].0 == b[p].0);
        lemma_key_pos_first(b, k, p);
    } else {
        lemma_key_pos(b, k);
        assert forall|t: int| 0 <= t < b.len() implies b[t].0 != k by {
            assert(a[t].0 == b[t].0);
        }
    }
}

/// Appending values to the column of `k` leaves the other columns as they
/// were, and the column of `k` gets the values at its end.
proof fn lemma_extend_column(s: BindingView, k: usize, vs: Seq<usize>, x: usize)
    ensures
        column_values(bind_extend(s, k, vs), x) == if x == k { column_values(s, k) + vs } else { column_values(s, x) },
        column(s, x) is Some ==> column(bind_extend(s, k, vs), x) is Some,
        x == k ==> column(bind_extend(s, k, vs), x) is Some,
{
    let e = bind_extend(s, k, vs);
    lemma_key_pos(s, k);
    lemma_key_pos(s, x);
    lemma_find_key(s, x, 0);
    let p = key_pos(s, k);
    if p >= 0 {
        lemma_key_pos_same_keys(e, s, x);
        if x != k && key_pos(s, x) >= 0 {
            assert(e[key_pos(s, x)] == s[key_pos(s, x)]);
        }
    } else {
        assert(e[s.len() as int].0 == k);
        if x == k {
            lemma_key_pos_first(e, k, s.len() as int);
            assert(column_values(s, k) + vs =~= vs);
        } else if key_pos(s, x) >= 0 {
            let q = key_pos(s, x);
            assert(e[q] == s[q]);
            lemma_key_pos_first(e, x, q);
        } else {
            lemma_key_pos(e, x);
            assert forall|t: int| 0 <= t < e.len() implies e[t].0 != x by {
                if t < s.len() {
                    assert(e[t] == s[t]);
                }
            }
        }
    }
}

/// Combining keeps each column of the first binding as the start of the
/// combined column.
pub proof fn lemma_combine_keeps(s: BindingView, o: BindingView, x: usize)
    requires
        column(s, x) is Some,
    ensures
        column(combine_spec(s, o), x) is Some,
        column_values(s, x).len() <= column_values(combine_spec(s, o), x).len(),
        forall|m: int| 0 <= m < column_values(s, x).len() ==>
            #[trigger] column_values(combine_spec(s, o), x)[m] == column_values(s, x)[m],
    decreases o.len(),
{
    if o.len() > 0 {
        let s1 = bind_extend(s, o[0].0, o[0].1);
        lemma_extend_column(s, o[0].0, o[0].1, x);
        lemma_combine_keeps(s1, o.drop_first(), x);
    }
}

/// The column of `x` in `o` without its first entry, when that entry is
/// another variable's.
proof fn lemma_column_drop_first(o: BindingView, x: usize)
    requires
        o.len() > 0,
        o[0].0 != x,
    ensures
        column(o, x) == column(o.drop_first(), x),
{
    let d = o.drop_first();
    lemma_key_pos(d, x);
    lemma_find_key(d, x, 0);
    if key_pos(d, x) >= 0 {
        let q = key_pos(d, x);
        assert(o[q + 1] == d[q]);
        assert forall|t: int| 0 <= t < q + 1 implies o[t].0 != x by {
            if t > 0 {
                assert(o[t] == d[t - 1]);
            }
        }
        lemma_key_pos_first(o, x, q + 1);
    } else {
        lemma_key_pos(o, x);
        assert forall|t: int| 0 <= t < o.len() implies o[t].0 != x by {
            if t > 0 {
                assert(o[t] == d[t - 1]);
            }
        }
    }
}

/// Combining appends the values of each column of the second binding to
/// the column of its variable.
pub proof fn lemma_combine_adds(s: BindingView, o: BindingView, x: usize)
    ensures
        forall|m: int| 0 <= m < column_values(o, x).len() ==>
            column_values(combine_spec(s, o), x).contains(#[trigger] column_values(o, x)[m]),
    decreases o.len(),
{
    if o.len() > 0 {
        let s1 = bind_extend(s, o[0].0, o[0].1);
        let c = combine_spec(s, o);
        lemma_extend_column(s, o[0].0, o[0].1, x);
        if o[0].0 == x {
            lemma_key_pos_first(o, x, 0);
            lemma_combine_keeps(s1, o.drop_first(), x);
            let base = column_values(s, x).len();
            assert(c == combine_spec(s1, o.drop_first()));
            assert(column_values(o, x) == o[0].1);
            assert(column_values(s1, x) == column_values(s, x) + o[0].1);
            assert forall|m: int| 0 <= m < column_values(o, x).len() implies
                column_values(c, x).contains(#[trigger] column_values(o, x)[m]) by {
                assert(column_values(s1, x)[base + m] == o[0].1[m]);
                assert(column_values(c, x)[base + m] == column_values(s1, x)[base + m]);
            }
        } else {
            lemma_column_drop_first(o, x);
            lemma_combine_adds(s1, o.drop_first(), x);
            assert(c == combine_spec(s1, o.drop_first()));
            assert(column_values(o, x) == column_values(o.drop_first(), x));
            assert forall|m: int| 0 <= m < column_values(o, x).len() implies
                column_values(c, x).contains(#[trigger] column_values(o, x)[m]) by {
                assert(column_values(o, x)[m] == column_values(o.drop_first(), x)[m]);
            }
        }
    }
}

} // verus!
