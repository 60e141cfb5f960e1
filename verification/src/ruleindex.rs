//! The rule index: rules filed under the terms of their body patterns, so
//! that the rules a triple can trigger are found without walking every rule.
//!
//! A body pattern is filed by the positions that hold terms: subject only
//! (`s`), predicate only (`p`), object only (`o`), two of them (`sp`, `po`,
//! `so`), all three (`ground`), or none (`spo`). A bucket
//! holds a rule once, however many of its patterns, or equal rules, land
//! there.
use vstd::prelude::*;
use crate::triples::{Triple, Rule, RuleView, code_of};
use crate::tripleindex::{find_pos, pos_of, lemma_find_pos, lemma_find_pos_same, lemma_pos_after_push_or_update};
use crate::parser::rule_views;

verus! {

/// A one-key map from codes to rules (their positions in the rule list).
pub type Map1View = Seq<(usize, Seq<usize>)>;

/// A two-key map from codes to rules.
pub type Map2View = Seq<(usize, Seq<(usize, Seq<usize>)>)>;

/// A three-key map from codes to rules.
pub type Map3View = Seq<(usize, Map2View)>;

/// The rule at position `n` joins the bucket unless an equal rule is there.
pub open spec fn bucket_add(b: Seq<usize>, rules: Seq<RuleView>, n: usize) -> Seq<usize> {
    if exists|j: int| 0 <= j < b.len() && #[trigger] rules[b[j] as int] == rules[n as int] {
        b
    } else {
        b.push(n)
    }
}

/// `bucket_add` under key `k` (a missing key is added last).
pub open spec fn map1_add(m: Map1View, k: usize, rules: Seq<RuleView>, n: usize) -> Map1View {
    let p = pos_of(m, k);
    if p < 0 {
        m.push((k, seq![n]))
    } else {
        m.update(p, (k, bucket_add(m[p].1, rules, n)))
    }
}

/// `bucket_add` under keys `k1` and `k2` (missing keys are added last).
pub open spec fn map2_add(m: Map2View, k1: usize, k2: usize, rules: Seq<RuleView>, n: usize) -> Map2View {
    let p1 = pos_of(m, k1);
    if p1 < 0 {
        m.push((k1, seq![(k2, seq![n])]))
    } else {
        m.update(p1, (k1, map1_add(m[p1].1, k2, rules, n)))
    }
}

/// `bucket_add` under keys `k1`, `k2` and `k3` (missing keys are added
/// last).
pub open spec fn map3_add(m: Map3View, k1: usize, k2: usize, k3: usize, rules: Seq<RuleView>, n: usize) -> Map3View {
    let p1 = pos_of(m, k1);
    if p1 < 0 {
        m.push((k1, seq![(k2, seq![(k3, seq![n])])]))
    } else {
        m.update(p1, (k1, map2_add(m[p1].1, k2, k3, rules, n)))
    }
}

/// The rule index seen as its rules and its eight maps.
pub struct RuleIndexView {
    pub rules: Seq<RuleView>,
    pub spo: Seq<usize>,
    pub s: Map1View,
    pub p: Map1View,
    pub o: Map1View,
    pub sp: Map2View,
    pub po: Map2View,
    pub so: Map2View,
    pub ground: Map3View,
}

/// The empty rule index.
pub open spec fn empty_rule_index() -> RuleIndexView {
    RuleIndexView { rules: seq![], spo: seq![], s: seq![], p: seq![], o: seq![], sp: seq![], po: seq![], so: seq![], ground: seq![] }
}

/// The index after the body pattern `t` of the rule at position `n` was
/// filed: under its terms, by which of subject, predicate and object are
/// terms.
pub open spec fn file_pattern(v: RuleIndexView, t: Triple, n: usize) -> RuleIndexView {
    let s = code_of(t.s);
    let p = code_of(t.p);
    let o = code_of(t.o);
    if t.s is Term && t.p is Var && t.o is Var {
        RuleIndexView { s: map1_add(v.s, s, v.rules, n), ..v }
    } else if t.s is Var && t.p is Term && t.o is Var {
        RuleIndexView { p: map1_add(v.p, p, v.rules, n), ..v }
    } else if t.s is Var && t.p is Var && t.o is Term {
        RuleIndexView { o: map1_add(v.o, o, v.rules, n), ..v }
    } else if t.s is Term && t.p is Term && t.o is Var {
        RuleIndexView { sp: map2_add(v.sp, s, p, v.rules, n), ..v }
    } else if t.s is Term && t.p is Var && t.o is Term {
        RuleIndexView { so: map2_add(v.so, s, o, v.rules, n), ..v }
    } else if t.s is Var && t.p is Term && t.o is Term {
        RuleIndexView { po: map2_add(v.po, p, o, v.rules, n), ..v }
    } else if t.s is Var && t.p is Var && t.o is Var {
        RuleIndexView { spo: bucket_add(v.spo, v.rules, n), ..v }
    } else if t.s is Term && t.p is Term && t.o is Term {
        RuleIndexView { ground: map3_add(v.ground, s, p, o, v.rules, n), ..v }
    } else {
        v
    }
}

/// The index after the body patterns `body` of the rule at position `n`
/// were filed in order.
pub open spec fn file_patterns(v: RuleIndexView, body: Seq<Triple>, n: usize) -> RuleIndexView
    decreases body.len(),
{
    if body.len() == 0 {
        v
    } else {
        file_pattern(file_patterns(v, body.drop_last(), n), body.last(), n)
    }
}

/// The index after `r` was added: appended to the rules and filed under each
/// of its body patterns.
pub open spec fn rule_add_spec(v: RuleIndexView, r: RuleView) -> RuleIndexView {
    let n = v.rules.len() as usize;
    file_patterns(RuleIndexView { rules: v.rules.push(r), ..v }, r.body, n)
}

/// The bucket of a one-key map, empty when the key is missing.
pub open spec fn bucket1(m: Map1View, k: usize) -> Seq<usize> {
    if pos_of(m, k) >= 0 {
        m[pos_of(m, k)].1
    } else {
        seq![]
    }
}

/// The bucket of a two-key map, empty when a key is missing.
pub open spec fn bucket2(m: Map2View, k1: usize, k2: usize) -> Seq<usize> {
    if pos_of(m, k1) >= 0 {
        bucket1(m[pos_of(m, k1)].1, k2)
    } else {
        seq![]
    }
}

/// The bucket of a three-key map, empty when a key is missing.
pub open spec fn bucket3(m: Map3View, k1: usize, k2: usize, k3: usize) -> Seq<usize> {
    if pos_of(m, k1) >= 0 {
        bucket2(m[pos_of(m, k1)].1, k2, k3)
    } else {
        seq![]
    }
}

/// The rules (positions) that a triple can trigger: those filed under its
/// subject, its predicate, its object, its subject and object, its predicate
/// and object, its subject and predicate, those filed with no term, and those
/// filed under all three, in that order.
pub open spec fn match_spec(v: RuleIndexView, t: Triple) -> Seq<usize> {
    let s = code_of(t.s);
    let p = code_of(t.p);
    let o = code_of(t.o);
    bucket1(v.s, s) + bucket1(v.p, p) + bucket1(v.o, o) + bucket2(v.so, s, o) + bucket2(v.po, p, o) + bucket2(
        v.sp,
        s,
        p,
    ) + v.spo + bucket3(v.ground, s, p, o)
}

/// Every position filed in a bucket is the position of a rule.
pub open spec fn bucket_ok(b: Seq<usize>, n: nat) -> bool {
    forall|j: int| 0 <= j < b.len() ==> b[j] < n
}

pub open spec fn map1_ok(m: Map1View, n: nat) -> bool {
    forall|i: int| 0 <= i < m.len() ==> bucket_ok(#[trigger] m[i].1, n)
}

pub open spec fn map2_ok(m: Map2View, n: nat) -> bool {
    forall|i: int| 0 <= i < m.len() ==> map1_ok(#[trigger] m[i].1, n)
}

pub open spec fn map3_ok(m: Map3View, n: nat) -> bool {
    forall|i: int| 0 <= i < m.len() ==> map2_ok(#[trigger] m[i].1, n)
}

/// Every filed position is the position of a rule.
pub open spec fn index_ok(v: RuleIndexView) -> bool {
    let n = v.rules.len();
    &&& bucket_ok(v.spo, n)
    &&& map1_ok(v.s, n)
    &&& map1_ok(v.p, n)
    &&& map1_ok(v.o, n)
    &&& map2_ok(v.sp, n)
    &&& map2_ok(v.po, n)
    &&& map2_ok(v.so, n)
    &&& map3_ok(v.ground, n)
}

/// Whether two rules have equal bodies and heads.
pub fn rule_eq(a: &Rule, b: &Rule) -> (res: bool)
    ensures
        res == (a@ == b@),
{
    if a.head != b.head || a.body.len() != b.body.len() {
        return false;
    }
    let mut i: usize = 0;
    while i < a.body.len()
        invariant
            i <= a.body@.len(),
            a.body@.len() == b.body@.len(),
            forall|k: int| 0 <= k < i ==> a.body@[k] == b.body@[k],
        decreases a.body@.len() - i,
    {
        if a.body[i] != b.body[i] {
            return false;
        }
        i = i + 1;
    }
    assert(a.body@ =~= b.body@);
    true
}

/// Adds the rule at position `n` to a bucket (see `bucket_add`).
fn bucket_add_exec(b: &mut Vec<usize>, rules: &Vec<Rule>, n: usize)
    requires
        n < rules@.len(),
        bucket_ok(old(b)@, rules@.len()),
    ensures
        final(b)@ == bucket_add(old(b)@, rule_views(rules@), n),
        bucket_ok(final(b)@, rules@.len()),
{
    let ghost rv = rule_views(rules@);
    let mut j: usize = 0;
    while j < b.len()
        invariant
            j <= b@.len(),
            n < rules@.len(),
            rv == rule_views(rules@),
            bucket_ok(b@, rules@.len()),
            forall|k: int| 0 <= k < j ==> rv[b@[k] as int] != rv[n as int],
        decreases b@.len() - j,
    {
        if rule_eq(&rules[b[j]], &rules[n]) {
            assert(rv[b@[j as int] as int] == rv[n as int]);
            return;
        }
        j = j + 1;
    }
    b.push(n);
}

/// Adds the rule at position `n` under key `k` (see `map1_add`).
fn map1_add_exec(m: &mut Vec<(usize, Vec<usize>)>, k: usize, rules: &Vec<Rule>, n: usize)
    requires
        n < rules@.len(),
        map1_ok(map1_view(old(m)@), rules@.len()),
    ensures
        map1_view(final(m)@) == map1_add(map1_view(old(m)@), k, rule_views(rules@), n),
        map1_ok(map1_view(final(m)@), rules@.len()),
{
    let ghost v0 = map1_view(m@);
    proof {
        lemma_find_pos_same(v0, m@, k, 0);
        lemma_find_pos(v0, k, 0);
    }
    match find_key_in(m, k) {
        None => {
            let mut b: Vec<usize> = Vec::new();
            b.push(n);
            m.push((k, b));
            assert(map1_view(m@) =~= v0.push((k, seq![n])));
        },
        Some(p) => {
            let (key, mut b) = m.remove(p);
            assert(v0[p as int] == (key, b@));
            assert(bucket_ok(v0[p as int].1, rules@.len()));
            bucket_add_exec(&mut b, rules, n);
            let ghost bv = b@;
            m.insert(p, (key, b));
            assert(map1_view(m@) =~= v0.update(p as int, (k, bv)));
        },
    }
}

/// Adds the rule at position `n` under keys `k1` and `k2` (see `map2_add`).
fn map2_add_exec(m: &mut Vec<(usize, Vec<(usize, Vec<usize>)>)>, k1: usize, k2: usize, rules: &Vec<Rule>, n: usize)
    requires
        n < rules@.len(),
        map2_ok(map2_view(old(m)@), rules@.len()),
    ensures
        map2_view(final(m)@) == map2_add(map2_view(old(m)@), k1, k2, rule_views(rules@), n),
        map2_ok(map2_view(final(m)@), rules@.len()),
{
    let ghost v0 = map2_view(m@);
    proof {
        lemma_find_pos_same(v0, m@, k1, 0);
        lemma_find_pos(v0, k1, 0);
    }
    match find_key_in(m, k1) {
        None => {
            let mut b: Vec<usize> = Vec::new();
            b.push(n);
            let mut inner: Vec<(usize, Vec<usize>)> = Vec::new();
            inner.push((k2, b));
            assert(map1_view(inner@) =~= seq![(k2, seq![n])]);
            m.push((k1, inner));
            assert(map2_view(m@) =~= v0.push((k1, seq![(k2, seq![n])])));
        },
        Some(p) => {
            let (key, mut inner) = m.remove(p);
            assert(v0[p as int] == (key, map1_view(inner@)));
            assert(map1_ok(v0[p as int].1, rules@.len()));
            map1_add_exec(&mut inner, k2, rules, n);
            let ghost iv = map1_view(inner@);
            m.insert(p, (key, inner));
            assert(map2_view(m@) =~= v0.update(p as int, (k1, iv)));
        },
    }
}

/// Adds the rule at position `n` under keys `k1`, `k2` and `k3` (see
/// `map3_add`).
fn map3_add_exec(
    m: &mut Vec<(usize, Vec<(usize, Vec<(usize, Vec<usize>)>)>)>,
    k1: usize,
    k2: usize,
    k3: usize,
    rules: &Vec<Rule>,
    n: usize,
)
    requires
        n < rules@.len(),
        map3_ok(map3_view(old(m)@), rules@.len()),
    ensures
        map3_view(final(m)@) == map3_add(map3_view(old(m)@), k1, k2, k3, rule_views(rules@), n),
        map3_ok(map3_view(final(m)@), rules@.len()),
{
    let ghost v0 = map3_view(m@);
    proof {
        lemma_find_pos_same(v0, m@, k1, 0);
        lemma_find_pos(v0, k1, 0);
    }
    match find_key_in(m, k1) {
        None => {
            let mut b: Vec<usize> = Vec::new();
            b.push(n);
            let mut inner: Vec<(usize, Vec<usize>)> = Vec::new();
            inner.push((k3, b));
            let mut mid: Vec<(usize, Vec<(usize, Vec<usize>)>)> = Vec::new();
            mid.push((k2, inner));
            assert(map1_view(inner@) =~= seq![(k3, seq![n])]);
            assert(map2_view(mid@) =~= seq![(k2, seq![(k3, seq![n])])]);
            m.push((k1, mid));
            assert(map3_view(m@) =~= v0.push((k1, seq![(k2, seq![(k3, seq![n])])])));
            proof {
                let w = map3_view(m@);
                assert forall|i: int| 0 <= i < w.len() implies map2_ok(#[trigger] w[i].1, rules@.len()) by {
                    if i == v0.len() {
                        let mv: Map2View = seq![(k2, seq![(k3, seq![n])])];
                        assert forall|j: int| 0 <= j < mv.len() implies map1_ok(#[trigger] mv[j].1, rules@.len()) by {
                            let iv: Map1View = seq![(k3, seq![n])];
                            assert forall|q: int| 0 <= q < iv.len() implies bucket_ok(#[trigger] iv[q].1, rules@.len()) by {}
                        }
                    } else {
                        assert(w[i] == v0[i]);
                    }
                }
            }
        },
        Some(p) => {
            let (key, mut mid) = m.remove(p);
            assert(v0[p as int] == (key, map2_view(mid@)));
            assert(map2_ok(v0[p as int].1, rules@.len()));
            map2_add_exec(&mut mid, k2, k3, rules, n);
            let ghost iv = map2_view(mid@);
            m.insert(p, (key, mid));
            assert(map3_view(m@) =~= v0.update(p as int, (k1, iv)));
            proof {
                let w = map3_view(m@);
                assert forall|i: int| 0 <= i < w.len() implies map2_ok(#[trigger] w[i].1, rules@.len()) by {
                    if i != p {
                        assert(w[i] == v0[i]);
                    }
                }
            }
        },
    }
}

/// The position of key `k` in an association list.
fn find_key_in<X>(s: &Vec<(usize, X)>, k: usize) -> (res: Option<usize>)
    ensures
        match res {
            Some(p) => pos_of(s@, k) == p as int && p < s@.len(),
            None => pos_of(s@, k) == -1,
        },
{
    let mut i: usize = 0;
    while i < s.len()
        invariant
            i <= s@.len(),
            find_pos(s@, k, 0) == find_pos(s@, k, i as int),
        decreases s@.len() - i,
    {
        if s[i].0 == k {
            return Some(i);
        }
        i = i + 1;
    }
    None
}

/// The view of a one-key map.
pub open spec fn map1_view(m: Seq<(usize, Vec<usize>)>) -> Map1View {
    m.map_values(|e: (usize, Vec<usize>)| (e.0, e.1@))
}

/// The view of a two-key map.
pub open spec fn map2_view(m: Seq<(usize, Vec<(usize, Vec<usize>)>)>) -> Map2View {
    m.map_values(|e: (usize, Vec<(usize, Vec<usize>)>)| (e.0, map1_view(e.1@)))
}

/// The view of a three-key map.
pub open spec fn map3_view(m: Seq<(usize, Vec<(usize, Vec<(usize, Vec<usize>)>)>)>) -> Map3View {
    m.map_values(|e: (usize, Vec<(usize, Vec<(usize, Vec<usize>)>)>)| (e.0, map2_view(e.1@)))
}

/// The rules of a store, filed by the terms of their body patterns.
pub struct RuleIndex {
    pub(crate) rules: Vec<Rule>,
    spo: Vec<usize>,
    s: Vec<(usize, Vec<usize>)>,
    p: Vec<(usize, Vec<usize>)>,
    o: Vec<(usize, Vec<usize>)>,
    sp: Vec<(usize, Vec<(usize, Vec<usize>)>)>,
    po: Vec<(usize, Vec<(usize, Vec<usize>)>)>,
    so: Vec<(usize, Vec<(usize, Vec<usize>)>)>,
    ground: Vec<(usize, Vec<(usize, Vec<(usize, Vec<usize>)>)>)>,
}

impl View for RuleIndex {
    type V = RuleIndexView;

    closed spec fn view(&self) -> RuleIndexView {
        RuleIndexView {
            rules: rule_views(self.rules@),
            spo: self.spo@,
            s: map1_view(self.s@),
            p: map1_view(self.p@),
            o: map1_view(self.o@),
            sp: map2_view(self.sp@),
            po: map2_view(self.po@),
            so: map2_view(self.so@),
            ground: map3_view(self.ground@),
        }
    }
}

/// The number of keys of an index: its unfiled rules and the first-level
/// keys of its six maps.
pub open spec fn index_len(v: RuleIndexView) -> nat {
    v.spo.len() + v.s.len() + v.o.len() + v.p.len() + v.sp.len() + v.po.len() + v.so.len()
}

impl RuleIndex {
    /// Every filed position is the position of a rule, and every triple
    /// finds the rules that have a body pattern it matches (`complete`).
    pub open spec fn wf(&self) -> bool {
        index_ok(self@) && complete(self@) && sound(self@)
    }

    /// The number of keys (see `index_len`).
    pub fn len(&self) -> (res: usize)
        requires
            index_len(self@) <= usize::MAX,
        ensures
            res == index_len(self@),
    {
        self.spo.len() + self.s.len() + self.o.len() + self.p.len() + self.sp.len() + self.po.len() + self.so.len()
    }

    /// An index with no rule.
    pub fn new() -> (res: RuleIndex)
        ensures
            res.wf(),
            res@ == (RuleIndexView {
                rules: seq![],
                spo: seq![],
                s: seq![],
                p: seq![],
                o: seq![],
                sp: seq![],
                po: seq![],
                so: seq![],
                ground: seq![],
            }),
    {
        let res = RuleIndex {
            s: Vec::new(),
            p: Vec::new(),
            o: Vec::new(),
            so: Vec::new(),
            po: Vec::new(),
            sp: Vec::new(),
            spo: Vec::new(),
            ground: Vec::new(),
            rules: Vec::new(),
        };
        assert(res@.rules =~= Seq::<RuleView>::empty());
        assert(res@.s =~= Seq::<(usize, Seq<usize>)>::empty());
        assert(res@.p =~= Seq::<(usize, Seq<usize>)>::empty());
        assert(res@.o =~= Seq::<(usize, Seq<usize>)>::empty());
        assert(res@.sp =~= Seq::<(usize, Seq<(usize, Seq<usize>)>)>::empty());
        assert(res@.po =~= Seq::<(usize, Seq<(usize, Seq<usize>)>)>::empty());
        assert(res@.so =~= Seq::<(usize, Seq<(usize, Seq<usize>)>)>::empty());
        assert(res@.ground =~= Seq::<(usize, Map2View)>::empty());
        res
    }

    /// The rules added, in order.
    pub fn rules(&self) -> (res: &Vec<Rule>)
        ensures
            rule_views(res@) == self@.rules,
    {
        &self.rules
    }

    /// Adds a rule (see `rule_add_spec`).
    pub fn add(&mut self, rule: &Rule)
        requires
            old(self).wf(),
        ensures
            final(self).wf(),
            final(self)@ == rule_add_spec(old(self)@, rule@),
    {
        let ghost v0 = self@;
        let n = self.rules.len();
        self.rules.push(rule.clone());
        let ghost v1 = self@;
        assert(v1 == RuleIndexView { rules: v0.rules.push(rule@), ..v0 }) by {
            assert(rule_views(self.rules@) =~= v0.rules.push(rule@));
        }
        let mut i: usize = 0;
        assert(rule.body@.take(0) =~= Seq::<Triple>::empty());
        while i < rule.body.len()
            invariant
                i <= rule.body@.len(),
                n == v0.rules.len(),
                n < self.rules@.len(),
                self.rules@.len() == n + 1,
                rule_views(self.rules@) == v0.rules.push(rule@),
                index_ok(self@),
                self@ == file_patterns(v1, rule.body@.take(i as int), n),
            decreases rule.body@.len() - i,
        {
            let t = rule.body[i];
            proof {
                assert(rule.body@.take(i + 1).drop_last() =~= rule.body@.take(i as int));
                assert(rule.body@.take(i + 1).last() == t);
            }
            let s = t.s.to_encoded();
            let p = t.p.to_encoded();
            let o = t.o.to_encoded();
            if t.s.is_term() && t.p.is_var() && t.o.is_var() {
                map1_add_exec(&mut self.s, s, &self.rules, n);
            } else if t.s.is_var() && t.p.is_term() && t.o.is_var() {
                map1_add_exec(&mut self.p, p, &self.rules, n);
            } else if t.s.is_var() && t.p.is_var() && t.o.is_term() {
                map1_add_exec(&mut self.o, o, &self.rules, n);
            } else if t.s.is_term() && t.p.is_term() && t.o.is_var() {
                map2_add_exec(&mut self.sp, s, p, &self.rules, n);
            } else if t.s.is_term() && t.p.is_var() && t.o.is_term() {
                map2_add_exec(&mut self.so, s, o, &self.rules, n);
            } else if t.s.is_var() && t.p.is_term() && t.o.is_term() {
                map2_add_exec(&mut self.po, p, o, &self.rules, n);
            } else if t.s.is_var() && t.p.is_var() && t.o.is_var() {
                bucket_add_exec(&mut self.spo, &self.rules, n);
            } else if t.s.is_term() && t.p.is_term() && t.o.is_term() {
                map3_add_exec(&mut self.ground, s, p, o, &self.rules, n);
            }
            i = i + 1;
        }
        assert(rule.body@.take(rule.body@.len() as int) =~= rule.body@);
        proof {
            law_add_keeps_complete(v0, rule@);
            law_add_keeps_sound(v0, rule@);
        }
    }
}

/// The rules at the positions `ps`.
pub open spec fn rules_at(rules: Seq<RuleView>, ps: Seq<usize>) -> Seq<RuleView> {
    ps.map_values(|p: usize| rules[p as int])
}

/// The views of rule references.
pub open spec fn ref_views(rs: Seq<&Rule>) -> Seq<RuleView> {
    rs.map_values(|r: &Rule| r@)
}

/// Appends the rules at the positions of `b`.
fn push_rules<'a>(rules: &'a Vec<Rule>, b: &Vec<usize>, out: &mut Vec<&'a Rule>)
    requires
        bucket_ok(b@, rules@.len()),
    ensures
        ref_views(final(out)@) == ref_views(old(out)@) + rules_at(rule_views(rules@), b@),
{
    let mut j: usize = 0;
    while j < b.len()
        invariant
            j <= b@.len(),
            bucket_ok(b@, rules@.len()),
            ref_views(out@) == ref_views(old(out)@) + rules_at(rule_views(rules@), b@.take(j as int)),
        decreases b@.len() - j,
    {
        let ghost before = ref_views(out@);
        out.push(&rules[b[j]]);
        proof {
            assert(ref_views(out@) =~= before.push(rules@[b@[j as int] as int]@));
            assert(rules_at(rule_views(rules@), b@.take(j + 1)) =~= rules_at(rule_views(rules@), b@.take(j as int)).push(
                rules@[b@[j as int] as int]@,
            ));
        }
        j = j + 1;
    }
    assert(b@.take(b@.len() as int) =~= b@);
}

/// The bucket of key `k`, if any.
fn bucket1_ref(m: &Vec<(usize, Vec<usize>)>, k: usize) -> (res: Option<&Vec<usize>>)
    ensures
        match res {
            Some(b) => pos_of(map1_view(m@), k) >= 0 && bucket1(map1_view(m@), k) == b@,
            None => pos_of(map1_view(m@), k) < 0,
        },
{
    proof {
        lemma_find_pos_same(map1_view(m@), m@, k, 0);
    }
    match find_key_in(m, k) {
        Some(p) => Some(&m[p].1),
        None => None,
    }
}

/// The bucket of keys `k1` and `k2`, if any.
fn bucket2_ref(m: &Vec<(usize, Vec<(usize, Vec<usize>)>)>, k1: usize, k2: usize) -> (res: Option<&Vec<usize>>)
    ensures
        match res {
            Some(b) => pos_of(map2_view(m@), k1) >= 0 && pos_of(map2_view(m@)[pos_of(map2_view(m@), k1)].1, k2) >= 0
                && bucket2(map2_view(m@), k1, k2) == b@,
            None => bucket2(map2_view(m@), k1, k2) == Seq::<usize>::empty(),
        },
{
    proof {
        lemma_find_pos_same(map2_view(m@), m@, k1, 0);
    }
    match find_key_in(m, k1) {
        Some(p) => {
            assert(map2_view(m@)[p as int].1 == map1_view(m@[p as int].1@));
            bucket1_ref(&m[p].1, k2)
        },
        None => None,
    }
}

/// Appends the rules of the bucket of key `k`.
fn push_bucket1<'a>(rules: &'a Vec<Rule>, m: &Vec<(usize, Vec<usize>)>, k: usize, out: &mut Vec<&'a Rule>)
    requires
        map1_ok(map1_view(m@), rules@.len()),
    ensures
        ref_views(final(out)@) == ref_views(old(out)@) + rules_at(rule_views(rules@), bucket1(map1_view(m@), k)),
{
    match bucket1_ref(m, k) {
        Some(b) => {
            assert(bucket_ok(b@, rules@.len())) by {
                lemma_find_pos(map1_view(m@), k, 0);
            }
            push_rules(rules, b, out);
        },
        None => {
            assert(rules_at(rule_views(rules@), bucket1(map1_view(m@), k)) =~= Seq::<RuleView>::empty());
            assert(ref_views(out@) + Seq::<RuleView>::empty() =~= ref_views(out@));
        },
    }
}

/// Appends the rules of the bucket of keys `k1` and `k2`.
fn push_bucket2<'a>(rules: &'a Vec<Rule>, m: &Vec<(usize, Vec<(usize, Vec<usize>)>)>, k1: usize, k2: usize, out: &mut Vec<&'a Rule>)
    requires
        map2_ok(map2_view(m@), rules@.len()),
    ensures
        ref_views(final(out)@) == ref_views(old(out)@) + rules_at(rule_views(rules@), bucket2(map2_view(m@), k1, k2)),
{
    match bucket2_ref(m, k1, k2) {
        Some(b) => {
            assert(bucket_ok(b@, rules@.len())) by {
                let v = map2_view(m@);
                lemma_find_pos(v, k1, 0);
                let i = pos_of(v, k1);
                assert(map1_ok(v[i].1, rules@.len()));
                lemma_find_pos(v[i].1, k2, 0);
            }
            push_rules(rules, b, out);
        },
        None => {
            assert(rules_at(rule_views(rules@), bucket2(map2_view(m@), k1, k2)) =~= Seq::<RuleView>::empty());
            assert(ref_views(out@) + Seq::<RuleView>::empty() =~= ref_views(out@));
        },
    }
}

/// Appends the rules of the bucket of keys `k1`, `k2` and `k3`.
fn push_bucket3<'a>(
    rules: &'a Vec<Rule>,
    m: &Vec<(usize, Vec<(usize, Vec<(usize, Vec<usize>)>)>)>,
    k1: usize,
    k2: usize,
    k3: usize,
    out: &mut Vec<&'a Rule>,
)
    requires
        map3_ok(map3_view(m@), rules@.len()),
    ensures
        ref_views(final(out)@) == ref_views(old(out)@) + rules_at(rule_views(rules@), bucket3(map3_view(m@), k1, k2, k3)),
{
    proof {
        lemma_find_pos_same(map3_view(m@), m@, k1, 0);
        lemma_find_pos(map3_view(m@), k1, 0);
    }
    match find_key_in(m, k1) {
        Some(p) => {
            assert(map3_view(m@)[p as int].1 == map2_view(m@[p as int].1@));
            assert(map2_ok(map3_view(m@)[p as int].1, rules@.len()));
            push_bucket2(rules, &m[p].1, k2, k3, out);
        },
        None => {
            assert(rules_at(rule_views(rules@), bucket3(map3_view(m@), k1, k2, k3)) =~= Seq::<RuleView>::empty());
            assert(ref_views(out@) + Seq::<RuleView>::empty() =~= ref_views(out@));
        },
    }
}

/// The rules at a concatenation of positions.
proof fn lemma_rules_at_concat(rules: Seq<RuleView>, a: Seq<usize>, b: Seq<usize>)
    ensures
        rules_at(rules, a + b) == rules_at(rules, a) + rules_at(rules, b),
{
    assert(rules_at(rules, a + b) =~= rules_at(rules, a) + rules_at(rules, b));
}

impl RuleIndex {
    /// The rules that `triple` can trigger (see `match_spec`).
    pub fn find_match(&self, triple: &Triple) -> (res: Vec<&Rule>)
        requires
            self.wf(),
        ensures
            ref_views(res@) == rules_at(self@.rules, match_spec(self@, *triple)),
            forall|n: int, k: int|
                0 <= n < self@.rules.len() && 0 <= k < self@.rules[n].body.len() && #[trigger] pattern_matches(
                    self@.rules[n].body[k],
                    *triple,
                ) ==> ref_views(res@).contains(self@.rules[n]),
            forall|i: int| 0 <= i < res@.len() ==> has_match(#[trigger] res@[i]@, *triple),
    {
        let s = triple.s.to_encoded();
        let p = triple.p.to_encoded();
        let o = triple.o.to_encoded();
        let ghost v = self@;
        let ghost rv = v.rules;
        let mut out: Vec<&Rule> = Vec::new();
        assert(ref_views(out@) =~= Seq::<RuleView>::empty());
        push_bucket1(&self.rules, &self.s, s, &mut out);
        push_bucket1(&self.rules, &self.p, p, &mut out);
        push_bucket1(&self.rules, &self.o, o, &mut out);
        push_bucket2(&self.rules, &self.so, s, o, &mut out);
        push_bucket2(&self.rules, &self.po, p, o, &mut out);
        push_bucket2(&self.rules, &self.sp, s, p, &mut out);
        push_rules(&self.rules, &self.spo, &mut out);
        push_bucket3(&self.rules, &self.ground, s, p, o, &mut out);
        proof {
            let b1 = bucket1(v.s, s);
            let b2 = bucket1(v.p, p);
            let b3 = bucket1(v.o, o);
            let b4 = bucket2(v.so, s, o);
            let b5 = bucket2(v.po, p, o);
            let b6 = bucket2(v.sp, s, p);
            lemma_rules_at_concat(rv, b1, b2);
            lemma_rules_at_concat(rv, b1 + b2, b3);
            lemma_rules_at_concat(rv, b1 + b2 + b3, b4);
            lemma_rules_at_concat(rv, b1 + b2 + b3 + b4, b5);
            lemma_rules_at_concat(rv, b1 + b2 + b3 + b4 + b5, b6);
            lemma_rules_at_concat(rv, b1 + b2 + b3 + b4 + b5 + b6, v.spo);
            let b7 = bucket3(v.ground, s, p, o);
            lemma_rules_at_concat(rv, b1 + b2 + b3 + b4 + b5 + b6 + v.spo, b7);
            assert(ref_views(out@) =~= rules_at(rv, b1 + b2 + b3 + b4 + b5 + b6 + v.spo + b7));
            assert forall|n: int, k: int|
                0 <= n < v.rules.len() && 0 <= k < v.rules[n].body.len() && #[trigger] pattern_matches(
                    v.rules[n].body[k],
                    *triple,
                ) implies ref_views(out@).contains(v.rules[n]) by {
                assert(finds(v, *triple, n));
                let x = choose|x: usize| #[trigger] in_match(v, *triple, x) && x < v.rules.len() && v.rules[x as int] == v.rules[n];
                lemma_in_match(v, *triple, x);
                let ms = match_spec(v, *triple);
                let j = choose|j: int| 0 <= j < ms.len() && ms[j] == x;
                assert(rules_at(rv, ms)[j] == v.rules[n]);
            }
            let ms = match_spec(v, *triple);
            lemma_in_match_bound(v, *triple);
            assert forall|i: int| 0 <= i < out@.len() implies has_match(#[trigger] out@[i]@, *triple) by {
                assert(ref_views(out@)[i] == out@[i]@);
                let x = ms[i];
                assert(ms.contains(x));
                lemma_in_match(v, *triple, x);
                assert(in_match(v, *triple, x));
                assert(out@[i]@ == v.rules[x as int]);
            }
        }
        out
    }
}

/// A body pattern matches a triple: each of the pattern's terms is the
/// triple's element at that place.
pub open spec fn pattern_matches(pat: Triple, t: Triple) -> bool {
    &&& (pat.s is Term ==> code_of(pat.s) == code_of(t.s))
    &&& (pat.p is Term ==> code_of(pat.p) == code_of(t.p))
    &&& (pat.o is Term ==> code_of(pat.o) == code_of(t.o))
}

/// Position `x` is among the rules that `t` can trigger (see `match_spec`).
pub open spec fn in_match(v: RuleIndexView, t: Triple, x: usize) -> bool {
    let s = code_of(t.s);
    let p = code_of(t.p);
    let o = code_of(t.o);
    ||| bucket1(v.s, s).contains(x)
    ||| bucket1(v.p, p).contains(x)
    ||| bucket1(v.o, o).contains(x)
    ||| bucket2(v.so, s, o).contains(x)
    ||| bucket2(v.po, p, o).contains(x)
    ||| bucket2(v.sp, s, p).contains(x)
    ||| v.spo.contains(x)
    ||| bucket3(v.ground, s, p, o).contains(x)
}

/// The triple `t` finds the rule at position `n`, or a rule equal to it.
pub open spec fn finds(v: RuleIndexView, t: Triple, n: int) -> bool {
    exists|x: usize| #[trigger] in_match(v, t, x) && x < v.rules.len() && v.rules[x as int] == v.rules[n]
}

/// Every triple finds every rule that has a body pattern it matches.
pub open spec fn complete(v: RuleIndexView) -> bool {
    forall|n: int, k: int, t: Triple|
        0 <= n < v.rules.len() && 0 <= k < v.rules[n].body.len() && #[trigger] pattern_matches(v.rules[n].body[k], t)
            ==> finds(v, t, n)
}

/// Membership in a concatenation is membership in one of its parts.
proof fn lemma_contains_add(a: Seq<usize>, b: Seq<usize>, x: usize)
    ensures
        (a + b).contains(x) <==> a.contains(x) || b.contains(x),
{
    if (a + b).contains(x) {
        let w = choose|w: int| 0 <= w < (a + b).len() && (a + b)[w] == x;
        if w < a.len() {
            assert(a[w] == x);
        } else {
            assert(b[w - a.len()] == x);
        }
    }
    if a.contains(x) {
        let w = choose|w: int| 0 <= w < a.len() && a[w] == x;
        assert((a + b)[w] == x);
    }
    if b.contains(x) {
        let w = choose|w: int| 0 <= w < b.len() && b[w] == x;
        assert((a + b)[a.len() + w] == x);
    }
}

/// `in_match` is membership in `match_spec`.
pub proof fn lemma_in_match(v: RuleIndexView, t: Triple, x: usize)
    ensures
        match_spec(v, t).contains(x) <==> in_match(v, t, x),
{
    let s = code_of(t.s);
    let p = code_of(t.p);
    let o = code_of(t.o);
    let a1 = bucket1(v.s, s);
    let a2 = a1 + bucket1(v.p, p);
    let a3 = a2 + bucket1(v.o, o);
    let a4 = a3 + bucket2(v.so, s, o);
    let a5 = a4 + bucket2(v.po, p, o);
    let a6 = a5 + bucket2(v.sp, s, p);
    lemma_contains_add(a1, bucket1(v.p, p), x);
    lemma_contains_add(a2, bucket1(v.o, o), x);
    lemma_contains_add(a3, bucket2(v.so, s, o), x);
    lemma_contains_add(a4, bucket2(v.po, p, o), x);
    lemma_contains_add(a5, bucket2(v.sp, s, p), x);
    lemma_contains_add(a6, v.spo, x);
    lemma_contains_add(a6 + v.spo, bucket3(v.ground, s, p, o), x);
}

/// `bucket_add` keeps the bucket's entries and leaves an entry for a rule
/// equal to rule `n`.
proof fn lemma_bucket_add(b: Seq<usize>, rules: Seq<RuleView>, n: usize)
    ensures
        b.is_prefix_of(bucket_add(b, rules, n)),
        exists|j: int| 0 <= j < bucket_add(b, rules, n).len() && #[trigger] rules[bucket_add(b, rules, n)[j] as int] == rules[n as int],
{
    let b2 = bucket_add(b, rules, n);
    if exists|j: int| 0 <= j < b.len() && #[trigger] rules[b[j] as int] == rules[n as int] {
        let j = choose|j: int| 0 <= j < b.len() && #[trigger] rules[b[j] as int] == rules[n as int];
        assert(rules[b2[j] as int] == rules[n as int]);
    } else {
        assert(b2[b.len() as int] == n);
        assert(rules[b2[b.len() as int] as int] == rules[n as int]);
    }
}

/// `map1_add` keeps every bucket's entries as a prefix, and the bucket of
/// its key holds an entry for a rule equal to rule `n`.
proof fn lemma_map1_add(m: Map1View, k: usize, rules: Seq<RuleView>, n: usize, k2: usize)
    ensures
        bucket1(m, k2).is_prefix_of(bucket1(map1_add(m, k, rules, n), k2)),
        exists|j: int| 0 <= j < bucket1(map1_add(m, k, rules, n), k).len()
            && #[trigger] rules[bucket1(map1_add(m, k, rules, n), k)[j] as int] == rules[n as int],
{
    let p = pos_of(m, k);
    lemma_find_pos(m, k, 0);
    lemma_find_pos(m, k2, 0);
    let x = if p < 0 { (k, seq![n]) } else { (k, bucket_add(m[p].1, rules, n)) };
    lemma_pos_after_push_or_update(m, p, x, k);
    lemma_pos_after_push_or_update(m, p, x, k2);
    let m2 = map1_add(m, k, rules, n);
    if p >= 0 {
        lemma_bucket_add(m[p].1, rules, n);
        assert(m2 == m.update(p, x));
        assert(bucket1(m2, k) == bucket_add(m[p].1, rules, n));
    } else {
        assert(m2 == m.push(x));
        assert(bucket1(m2, k) == seq![n]);
        assert(rules[bucket1(m2, k)[0] as int] == rules[n as int]);
    }
    let q = pos_of(m, k2);
    if q >= 0 && k2 != k {
        assert(m2[q] == m[q]);
    }
    if q >= 0 && k2 == k {
        assert(q == p);
    }
}

/// `map2_add` keeps every bucket's entries as a prefix, and the bucket of
/// its keys holds an entry for a rule equal to rule `n`.
proof fn lemma_map2_add(m: Map2View, k1: usize, k2: usize, rules: Seq<RuleView>, n: usize, j1: usize, j2: usize)
    ensures
        bucket2(m, j1, j2).is_prefix_of(bucket2(map2_add(m, k1, k2, rules, n), j1, j2)),
        exists|j: int| 0 <= j < bucket2(map2_add(m, k1, k2, rules, n), k1, k2).len()
            && #[trigger] rules[bucket2(map2_add(m, k1, k2, rules, n), k1, k2)[j] as int] == rules[n as int],
{
    let p1 = pos_of(m, k1);
    lemma_find_pos(m, k1, 0);
    lemma_find_pos(m, j1, 0);
    let m2 = map2_add(m, k1, k2, rules, n);
    if p1 < 0 {
        let inner: Map1View = seq![(k2, seq![n])];
        let x = (k1, inner);
        lemma_pos_after_push_or_update(m, p1, x, k1);
        lemma_pos_after_push_or_update(m, p1, x, j1);
        assert(m2 == m.push(x));
        assert(inner[0].0 == k2);
        assert(find_pos(inner, k2, 0) == 0);
        assert(bucket2(m2, k1, k2) == seq![n]);
        assert(rules[bucket2(m2, k1, k2)[0] as int] == rules[n as int]);
        let q1 = pos_of(m, j1);
        if q1 >= 0 {
            assert(m2[q1] == m[q1]);
        }
    } else {
        let inner = m[p1].1;
        lemma_map1_add(inner, k2, rules, n, j2);
        let x = (k1, map1_add(inner, k2, rules, n));
        lemma_pos_after_push_or_update(m, p1, x, k1);
        lemma_pos_after_push_or_update(m, p1, x, j1);
        assert(m2 == m.update(p1, x));
        assert(bucket2(m2, k1, k2) == bucket1(map1_add(inner, k2, rules, n), k2));
        let q1 = pos_of(m, j1);
        if q1 >= 0 && j1 != k1 {
            assert(m2[q1] == m[q1]);
        }
        if q1 >= 0 && j1 == k1 {
            assert(q1 == p1);
        }
    }
}

/// `map3_add` keeps every bucket's entries as a prefix, and the bucket of
/// its keys holds an entry for a rule equal to rule `n`.
proof fn lemma_map3_add(m: Map3View, k1: usize, k2: usize, k3: usize, rules: Seq<RuleView>, n: usize, j1: usize, j2: usize, j3: usize)
    ensures
        bucket3(m, j1, j2, j3).is_prefix_of(bucket3(map3_add(m, k1, k2, k3, rules, n), j1, j2, j3)),
        exists|j: int| 0 <= j < bucket3(map3_add(m, k1, k2, k3, rules, n), k1, k2, k3).len()
            && #[trigger] rules[bucket3(map3_add(m, k1, k2, k3, rules, n), k1, k2, k3)[j] as int] == rules[n as int],
{
    let p1 = pos_of(m, k1);
    lemma_find_pos(m, k1, 0);
    lemma_find_pos(m, j1, 0);
    let m2 = map3_add(m, k1, k2, k3, rules, n);
    if p1 < 0 {
        let mid: Map2View = seq![(k2, seq![(k3, seq![n])])];
        let x = (k1, mid);
        lemma_pos_after_push_or_update(m, p1, x, k1);
        lemma_pos_after_push_or_update(m, p1, x, j1);
        assert(m2 == m.push(x));
        let inner: Map1View = seq![(k3, seq![n])];
        assert(mid[0].0 == k2);
        assert(find_pos(mid, k2, 0) == 0);
        assert(inner[0].0 == k3);
        assert(find_pos(inner, k3, 0) == 0);
        assert(bucket3(m2, k1, k2, k3) == seq![n]);
        assert(rules[bucket3(m2, k1, k2, k3)[0] as int] == rules[n as int]);
        let q1 = pos_of(m, j1);
        if q1 >= 0 {
            assert(m2[q1] == m[q1]);
        }
    } else {
        let mid = m[p1].1;
        lemma_map2_add(mid, k2, k3, rules, n, j2, j3);
        let x = (k1, map2_add(mid, k2, k3, rules, n));
        lemma_pos_after_push_or_update(m, p1, x, k1);
        lemma_pos_after_push_or_update(m, p1, x, j1);
        assert(m2 == m.update(p1, x));
        assert(bucket3(m2, k1, k2, k3) == bucket2(map2_add(mid, k2, k3, rules, n), k2, k3));
        let q1 = pos_of(m, j1);
        if q1 >= 0 && j1 != k1 {
            assert(m2[q1] == m[q1]);
        }
        if q1 >= 0 && j1 == k1 {
            assert(q1 == p1);
        }
    }
}

/// A prefix's entries are entries of the longer sequence.
proof fn lemma_prefix_contains(a: Seq<usize>, b: Seq<usize>, x: usize)
    requires
        a.is_prefix_of(b),
        a.contains(x),
    ensures
        b.contains(x),
{
    let w = choose|w: int| 0 <= w < a.len() && a[w] == x;
    assert(b[w] == x);
}

/// Filing a pattern of rule `n` keeps every position that a triple could
/// trigger, and a triple that matches the pattern can then trigger a rule
/// equal to rule `n`.
proof fn lemma_file_pattern(v: RuleIndexView, pat: Triple, n: usize, t: Triple)
    requires
        n < v.rules.len(),
        index_ok(v),
    ensures
        file_pattern(v, pat, n).rules == v.rules,
        index_ok(file_pattern(v, pat, n)),
        forall|x: usize| in_match(v, t, x) ==> #[trigger] in_match(file_pattern(v, pat, n), t, x),
        forall|x: usize| in_match(file_pattern(v, pat, n), t, x) ==> x < v.rules.len(),
        pattern_matches(pat, t) ==> exists|x: usize| #[trigger] in_match(file_pattern(v, pat, n), t, x)
            && v.rules[x as int] == v.rules[n as int],
{
    let w = file_pattern(v, pat, n);
    lemma_file_pattern_ok(v, pat, n);
    lemma_in_match_bound(w, t);
    let s = code_of(t.s);
    let p = code_of(t.p);
    let o = code_of(t.o);
    let ps = code_of(pat.s);
    let pp = code_of(pat.p);
    let po = code_of(pat.o);
    lemma_map1_add(v.s, ps, v.rules, n, s);
    lemma_map1_add(v.p, pp, v.rules, n, p);
    lemma_map1_add(v.o, po, v.rules, n, o);
    lemma_map2_add(v.so, ps, po, v.rules, n, s, o);
    lemma_map2_add(v.po, pp, po, v.rules, n, p, o);
    lemma_map2_add(v.sp, ps, pp, v.rules, n, s, p);
    lemma_bucket_add(v.spo, v.rules, n);
    lemma_map3_add(v.ground, ps, pp, po, v.rules, n, s, p, o);
    assert forall|x: usize| in_match(v, t, x) implies #[trigger] in_match(w, t, x) by {
        if bucket1(v.s, s).contains(x) {
            if w.s != v.s { lemma_prefix_contains(bucket1(v.s, s), bucket1(w.s, s), x); }
        }
        if bucket1(v.p, p).contains(x) {
            if w.p != v.p { lemma_prefix_contains(bucket1(v.p, p), bucket1(w.p, p), x); }
        }
        if bucket1(v.o, o).contains(x) {
            if w.o != v.o { lemma_prefix_contains(bucket1(v.o, o), bucket1(w.o, o), x); }
        }
        if bucket2(v.so, s, o).contains(x) {
            if w.so != v.so { lemma_prefix_contains(bucket2(v.so, s, o), bucket2(w.so, s, o), x); }
        }
        if bucket2(v.po, p, o).contains(x) {
            if w.po != v.po { lemma_prefix_contains(bucket2(v.po, p, o), bucket2(w.po, p, o), x); }
        }
        if bucket2(v.sp, s, p).contains(x) {
            if w.sp != v.sp { lemma_prefix_contains(bucket2(v.sp, s, p), bucket2(w.sp, s, p), x); }
        }
        if v.spo.contains(x) {
            if w.spo != v.spo { lemma_prefix_contains(v.spo, w.spo, x); }
        }
        if bucket3(v.ground, s, p, o).contains(x) {
            if w.ground != v.ground { lemma_prefix_contains(bucket3(v.ground, s, p, o), bucket3(w.ground, s, p, o), x); }
        }
    }
    if pattern_matches(pat, t) {
        if pat.s is Term && pat.p is Var && pat.o is Var {
            let b = bucket1(w.s, s);
            let j = choose|j: int| 0 <= j < b.len() && #[trigger] v.rules[b[j] as int] == v.rules[n as int];
            assert(b.contains(b[j]));
            assert(in_match(w, t, b[j]));
        } else if pat.s is Var && pat.p is Term && pat.o is Var {
            let b = bucket1(w.p, p);
            let j = choose|j: int| 0 <= j < b.len() && #[trigger] v.rules[b[j] as int] == v.rules[n as int];
            assert(b.contains(b[j]));
            assert(in_match(w, t, b[j]));
        } else if pat.s is Var && pat.p is Var && pat.o is Term {
            let b = bucket1(w.o, o);
            let j = choose|j: int| 0 <= j < b.len() && #[trigger] v.rules[b[j] as int] == v.rules[n as int];
            assert(b.contains(b[j]));
            assert(in_match(w, t, b[j]));
        } else if pat.s is Term && pat.p is Term && pat.o is Var {
            let b = bucket2(w.sp, s, p);
            let j = choose|j: int| 0 <= j < b.len() && #[trigger] v.rules[b[j] as int] == v.rules[n as int];
            assert(b.contains(b[j]));
            assert(in_match(w, t, b[j]));
        } else if pat.s is Term && pat.p is Var && pat.o is Term {
            let b = bucket2(w.so, s, o);
            let j = choose|j: int| 0 <= j < b.len() && #[trigger] v.rules[b[j] as int] == v.rules[n as int];
            assert(b.contains(b[j]));
            assert(in_match(w, t, b[j]));
        } else if pat.s is Var && pat.p is Term && pat.o is Term {
            let b = bucket2(w.po, p, o);
            let j = choose|j: int| 0 <= j < b.len() && #[trigger] v.rules[b[j] as int] == v.rules[n as int];
            assert(b.contains(b[j]));
            assert(in_match(w, t, b[j]));
        } else if pat.s is Var && pat.p is Var && pat.o is Var {
            let b = w.spo;
            let j = choose|j: int| 0 <= j < b.len() && #[trigger] v.rules[b[j] as int] == v.rules[n as int];
            assert(b.contains(b[j]));
            assert(in_match(w, t, b[j]));
        } else {
            let b = bucket3(w.ground, s, p, o);
            let j = choose|j: int| 0 <= j < b.len() && #[trigger] v.rules[b[j] as int] == v.rules[n as int];
            assert(b.contains(b[j]));
            assert(in_match(w, t, b[j]));
        }
    }
}

/// Adding to a bucket positions of rules keeps it one.
proof fn lemma_bucket_add_ok(b: Seq<usize>, rules: Seq<RuleView>, n: usize)
    requires
        bucket_ok(b, rules.len()),
        n < rules.len(),
    ensures
        bucket_ok(bucket_add(b, rules, n), rules.len()),
{
}

proof fn lemma_map1_add_ok(m: Map1View, k: usize, rules: Seq<RuleView>, n: usize)
    requires
        map1_ok(m, rules.len()),
        n < rules.len(),
    ensures
        map1_ok(map1_add(m, k, rules, n), rules.len()),
{
    let p = pos_of(m, k);
    lemma_find_pos(m, k, 0);
    let m2 = map1_add(m, k, rules, n);
    if p >= 0 {
        lemma_bucket_add_ok(m[p].1, rules, n);
    }
    assert forall|i: int| 0 <= i < m2.len() implies bucket_ok(#[trigger] m2[i].1, rules.len()) by {
        if i < m.len() && i != p {
            assert(m2[i] == m[i]);
        }
    }
}

proof fn lemma_map2_add_ok(m: Map2View, k1: usize, k2: usize, rules: Seq<RuleView>, n: usize)
    requires
        map2_ok(m, rules.len()),
        n < rules.len(),
    ensures
        map2_ok(map2_add(m, k1, k2, rules, n), rules.len()),
{
    let p = pos_of(m, k1);
    lemma_find_pos(m, k1, 0);
    let m2 = map2_add(m, k1, k2, rules, n);
    if p >= 0 {
        lemma_map1_add_ok(m[p].1, k2, rules, n);
    } else {
        let inner: Map1View = seq![(k2, seq![n])];
        assert(map1_ok(inner, rules.len())) by {
            assert forall|i: int| 0 <= i < inner.len() implies bucket_ok(#[trigger] inner[i].1, rules.len()) by {}
        }
        assert(m2[m.len() as int].1 == inner);
    }
    assert forall|i: int| 0 <= i < m2.len() implies map1_ok(#[trigger] m2[i].1, rules.len()) by {
        if i < m.len() && i != p {
            assert(m2[i] == m[i]);
        }
    }
}

proof fn lemma_map3_add_ok(m: Map3View, k1: usize, k2: usize, k3: usize, rules: Seq<RuleView>, n: usize)
    requires
        map3_ok(m, rules.len()),
        n < rules.len(),
    ensures
        map3_ok(map3_add(m, k1, k2, k3, rules, n), rules.len()),
{
    let p = pos_of(m, k1);
    lemma_find_pos(m, k1, 0);
    let m2 = map3_add(m, k1, k2, k3, rules, n);
    if p >= 0 {
        lemma_map2_add_ok(m[p].1, k2, k3, rules, n);
    } else {
        let mid: Map2View = seq![(k2, seq![(k3, seq![n])])];
        assert(map2_ok(mid, rules.len())) by {
            assert forall|i: int| 0 <= i < mid.len() implies map1_ok(#[trigger] mid[i].1, rules.len()) by {
                let inner: Map1View = seq![(k3, seq![n])];
                assert(mid[i].1 == inner);
                assert forall|j: int| 0 <= j < inner.len() implies bucket_ok(#[trigger] inner[j].1, rules.len()) by {}
            }
        }
        assert(m2[m.len() as int].1 == mid);
    }
    assert forall|i: int| 0 <= i < m2.len() implies map2_ok(#[trigger] m2[i].1, rules.len()) by {
        if i < m.len() && i != p {
            assert(m2[i] == m[i]);
        }
    }
}

/// Filing a pattern keeps every filed position a position of a rule.
proof fn lemma_file_pattern_ok(v: RuleIndexView, pat: Triple, n: usize)
    requires
        index_ok(v),
        n < v.rules.len(),
    ensures
        index_ok(file_pattern(v, pat, n)),
{
    lemma_map1_add_ok(v.s, code_of(pat.s), v.rules, n);
    lemma_map1_add_ok(v.p, code_of(pat.p), v.rules, n);
    lemma_map1_add_ok(v.o, code_of(pat.o), v.rules, n);
    lemma_map2_add_ok(v.so, code_of(pat.s), code_of(pat.o), v.rules, n);
    lemma_map2_add_ok(v.po, code_of(pat.p), code_of(pat.o), v.rules, n);
    lemma_map2_add_ok(v.sp, code_of(pat.s), code_of(pat.p), v.rules, n);
    lemma_bucket_add_ok(v.spo, v.rules, n);
    lemma_map3_add_ok(v.ground, code_of(pat.s), code_of(pat.p), code_of(pat.o), v.rules, n);
}

proof fn lemma_bucket1_ok(m: Map1View, k: usize, len: nat)
    requires
        map1_ok(m, len),
    ensures
        bucket_ok(bucket1(m, k), len),
{
    lemma_find_pos(m, k, 0);
    if pos_of(m, k) >= 0 {
        assert(bucket_ok(m[pos_of(m, k)].1, len));
    }
}

proof fn lemma_bucket2_ok(m: Map2View, k1: usize, k2: usize, len: nat)
    requires
        map2_ok(m, len),
    ensures
        bucket_ok(bucket2(m, k1, k2), len),
{
    lemma_find_pos(m, k1, 0);
    if pos_of(m, k1) >= 0 {
        assert(map1_ok(m[pos_of(m, k1)].1, len));
        lemma_bucket1_ok(m[pos_of(m, k1)].1, k2, len);
    }
}

proof fn lemma_bucket3_ok(m: Map3View, k1: usize, k2: usize, k3: usize, len: nat)
    requires
        map3_ok(m, len),
    ensures
        bucket_ok(bucket3(m, k1, k2, k3), len),
{
    lemma_find_pos(m, k1, 0);
    if pos_of(m, k1) >= 0 {
        assert(map2_ok(m[pos_of(m, k1)].1, len));
        lemma_bucket2_ok(m[pos_of(m, k1)].1, k2, k3, len);
    }
}

/// In a sound index every position a triple can trigger is that of a rule.
pub(crate) proof fn lemma_in_match_bound(v: RuleIndexView, t: Triple)
    requires
        index_ok(v),
    ensures
        forall|x: usize| in_match(v, t, x) ==> x < v.rules.len(),
{
    let s = code_of(t.s);
    let p = code_of(t.p);
    let o = code_of(t.o);
    let n = v.rules.len();
    lemma_bucket1_ok(v.s, s, n);
    lemma_bucket1_ok(v.p, p, n);
    lemma_bucket1_ok(v.o, o, n);
    lemma_bucket2_ok(v.so, s, o, n);
    lemma_bucket2_ok(v.po, p, o, n);
    lemma_bucket2_ok(v.sp, s, p, n);
    lemma_bucket3_ok(v.ground, s, p, o, n);
}

/// Filing the patterns of rule `n` in order (see `lemma_file_pattern`).
proof fn lemma_file_patterns(v: RuleIndexView, body: Seq<Triple>, n: usize, t: Triple)
    requires
        n < v.rules.len(),
        index_ok(v),
    ensures
        file_patterns(v, body, n).rules == v.rules,
        index_ok(file_patterns(v, body, n)),
        forall|x: usize| in_match(v, t, x) ==> #[trigger] in_match(file_patterns(v, body, n), t, x),
        forall|k: int| 0 <= k < body.len() && #[trigger] pattern_matches(body[k], t) ==> exists|x: usize|
            #[trigger] in_match(file_patterns(v, body, n), t, x) && v.rules[x as int] == v.rules[n as int],
    decreases body.len(),
{
    if body.len() > 0 {
        let d = body.drop_last();
        let v1 = file_patterns(v, d, n);
        lemma_file_patterns(v, d, n, t);
        lemma_file_pattern(v1, body.last(), n, t);
        let w = file_patterns(v, body, n);
        assert(w == file_pattern(v1, body.last(), n));
        assert forall|k: int| 0 <= k < body.len() && #[trigger] pattern_matches(body[k], t) implies exists|x: usize|
            #[trigger] in_match(w, t, x) && v.rules[x as int] == v.rules[n as int] by {
            if k < d.len() {
                assert(d[k] == body[k]);
                let x = choose|x: usize| #[trigger] in_match(v1, t, x) && v.rules[x as int] == v.rules[n as int];
                assert(in_match(w, t, x));
            }
        }
    }
}

/// Every rule that a triple can trigger has a body pattern that the
/// triple matches.
pub open spec fn sound(v: RuleIndexView) -> bool {
    forall|t: Triple, x: usize| #[trigger] in_match(v, t, x) && x < v.rules.len() ==> has_match(v.rules[x as int], t)
}

/// Some body pattern of `r` matches `t`.
pub open spec fn has_match(r: RuleView, t: Triple) -> bool {
    exists|k: int| 0 <= k < r.body.len() && #[trigger] pattern_matches(r.body[k], t)
}

proof fn lemma_bucket_add_new(b: Seq<usize>, rules: Seq<RuleView>, n: usize, x: usize)
    ensures
        bucket_add(b, rules, n).contains(x) ==> b.contains(x) || x == n,
{
    if bucket_add(b, rules, n).contains(x) && bucket_add(b, rules, n) != b {
        let w = choose|w: int| 0 <= w < b.push(n).len() && b.push(n)[w] == x;
        if w < b.len() {
            assert(b[w] == x);
        }
    }
}

proof fn lemma_map1_add_new(m: Map1View, k: usize, rules: Seq<RuleView>, n: usize, j: usize, x: usize)
    ensures
        bucket1(map1_add(m, k, rules, n), j).contains(x) ==> bucket1(m, j).contains(x) || (x == n && j == k),
{
    let p = pos_of(m, k);
    lemma_find_pos(m, k, 0);
    lemma_find_pos(m, j, 0);
    let x2 = if p < 0 { (k, seq![n]) } else { (k, bucket_add(m[p].1, rules, n)) };
    lemma_pos_after_push_or_update(m, p, x2, k);
    lemma_pos_after_push_or_update(m, p, x2, j);
    let m2 = map1_add(m, k, rules, n);
    let q = pos_of(m, j);
    if j != k {
        if q >= 0 {
            assert(m2[q] == m[q]);
        }
    } else if p >= 0 {
        lemma_bucket_add_new(m[p].1, rules, n, x);
    } else {
        if bucket1(m2, j).contains(x) {
            assert(bucket1(m2, j) == seq![n]);
            let w = choose|w: int| 0 <= w < bucket1(m2, j).len() && bucket1(m2, j)[w] == x;
        }
    }
}

proof fn lemma_map2_add_new(m: Map2View, k1: usize, k2: usize, rules: Seq<RuleView>, n: usize, j1: usize, j2: usize, x: usize)
    ensures
        bucket2(map2_add(m, k1, k2, rules, n), j1, j2).contains(x) ==> bucket2(m, j1, j2).contains(x) || (x == n && j1 == k1
            && j2 == k2),
{
    let p1 = pos_of(m, k1);
    lemma_find_pos(m, k1, 0);
    lemma_find_pos(m, j1, 0);
    let m2 = map2_add(m, k1, k2, rules, n);
    let q1 = pos_of(m, j1);
    if p1 < 0 {
        let inner: Map1View = seq![(k2, seq![n])];
        let x2 = (k1, inner);
        lemma_pos_after_push_or_update(m, p1, x2, k1);
        lemma_pos_after_push_or_update(m, p1, x2, j1);
        if j1 != k1 {
            if q1 >= 0 {
                assert(m2[q1] == m[q1]);
            }
        } else {
            lemma_find_pos(inner, j2, 0);
            if bucket2(m2, j1, j2).contains(x) {
                assert(pos_of(inner, j2) == 0);
                assert(bucket2(m2, j1, j2) == seq![n]);
                let w = choose|w: int| 0 <= w < bucket2(m2, j1, j2).len() && bucket2(m2, j1, j2)[w] == x;
            }
        }
    } else {
        let inner = m[p1].1;
        lemma_map1_add_new(inner, k2, rules, n, j2, x);
        let x2 = (k1, map1_add(inner, k2, rules, n));
        lemma_pos_after_push_or_update(m, p1, x2, k1);
        lemma_pos_after_push_or_update(m, p1, x2, j1);
        if j1 != k1 {
            if q1 >= 0 {
                assert(m2[q1] == m[q1]);
            }
        } else {
            assert(q1 == p1);
        }
    }
}

proof fn lemma_map3_add_new(
    m: Map3View,
    k1: usize,
    k2: usize,
    k3: usize,
    rules: Seq<RuleView>,
    n: usize,
    j1: usize,
    j2: usize,
    j3: usize,
    x: usize,
)
    ensures
        bucket3(map3_add(m, k1, k2, k3, rules, n), j1, j2, j3).contains(x) ==> bucket3(m, j1, j2, j3).contains(x) || (x
            == n && j1 == k1 && j2 == k2 && j3 == k3),
{
    let p1 = pos_of(m, k1);
    lemma_find_pos(m, k1, 0);
    lemma_find_pos(m, j1, 0);
    let m2 = map3_add(m, k1, k2, k3, rules, n);
    let q1 = pos_of(m, j1);
    if p1 < 0 {
        let mid: Map2View = seq![(k2, seq![(k3, seq![n])])];
        let x2 = (k1, mid);
        lemma_pos_after_push_or_update(m, p1, x2, k1);
        lemma_pos_after_push_or_update(m, p1, x2, j1);
        if j1 != k1 {
            if q1 >= 0 {
                assert(m2[q1] == m[q1]);
            }
        } else {
            lemma_map2_add_new(seq![], k2, k3, rules, n, j2, j3, x);
            assert(map2_add(seq![], k2, k3, rules, n) =~= mid);
            assert(bucket2(Seq::<(usize, Map1View)>::empty(), j2, j3) =~= Seq::<usize>::empty());
        }
    } else {
        let mid = m[p1].1;
        lemma_map2_add_new(mid, k2, k3, rules, n, j2, j3, x);
        let x2 = (k1, map2_add(mid, k2, k3, rules, n));
        lemma_pos_after_push_or_update(m, p1, x2, k1);
        lemma_pos_after_push_or_update(m, p1, x2, j1);
        if j1 != k1 {
            if q1 >= 0 {
                assert(m2[q1] == m[q1]);
            }
        } else {
            assert(q1 == p1);
        }
    }
}

/// A position that a triple triggers after a pattern of rule `n` was filed
/// was triggered before, or it is `n` and the triple matches the pattern.
proof fn lemma_file_pattern_new(v: RuleIndexView, pat: Triple, n: usize, t: Triple, x: usize)
    ensures
        in_match(file_pattern(v, pat, n), t, x) ==> in_match(v, t, x) || (x == n && pattern_matches(pat, t)),
{
    let s = code_of(t.s);
    let p = code_of(t.p);
    let o = code_of(t.o);
    let ps = code_of(pat.s);
    let pp = code_of(pat.p);
    let po = code_of(pat.o);
    lemma_map1_add_new(v.s, ps, v.rules, n, s, x);
    lemma_map1_add_new(v.p, pp, v.rules, n, p, x);
    lemma_map1_add_new(v.o, po, v.rules, n, o, x);
    lemma_map2_add_new(v.so, ps, po, v.rules, n, s, o, x);
    lemma_map2_add_new(v.po, pp, po, v.rules, n, p, o, x);
    lemma_map2_add_new(v.sp, ps, pp, v.rules, n, s, p, x);
    lemma_bucket_add_new(v.spo, v.rules, n, x);
    lemma_map3_add_new(v.ground, ps, pp, po, v.rules, n, s, p, o, x);
}

proof fn lemma_file_patterns_new(v: RuleIndexView, body: Seq<Triple>, n: usize, t: Triple, x: usize)
    ensures
        in_match(file_patterns(v, body, n), t, x) ==> in_match(v, t, x) || (x == n && exists|k: int|
            0 <= k < body.len() && #[trigger] pattern_matches(body[k], t)),
    decreases body.len(),
{
    if body.len() > 0 {
        let d = body.drop_last();
        lemma_file_patterns_new(v, d, n, t, x);
        lemma_file_pattern_new(file_patterns(v, d, n), body.last(), n, t, x);
        if in_match(file_patterns(v, body, n), t, x) && !in_match(v, t, x) {
            if in_match(file_patterns(v, d, n), t, x) {
                let k = choose|k: int| 0 <= k < d.len() && #[trigger] pattern_matches(d[k], t);
                assert(body[k] == d[k]);
            } else {
                assert(pattern_matches(body[body.len() - 1], t));
            }
        }
    }
}

/// Adding a rule to a sound index (see `sound`) gives a sound index.
pub proof fn law_add_keeps_sound(v: RuleIndexView, r: RuleView)
    requires
        index_ok(v),
        sound(v),
        v.rules.len() <= usize::MAX,
    ensures
        sound(rule_add_spec(v, r)),
{
    let n = v.rules.len() as usize;
    let v0 = RuleIndexView { rules: v.rules.push(r), ..v };
    let w = rule_add_spec(v, r);
    assert(w == file_patterns(v0, r.body, n));
    assert forall|t: Triple, x: usize| #[trigger] in_match(w, t, x) && x < w.rules.len() implies has_match(w.rules[x as int], t) by {
        lemma_file_patterns_new(v0, r.body, n, t, x);
        lemma_file_patterns(v0, r.body, n, t);
        lemma_in_match_bound(v, t);
        if in_match(v0, t, x) {
            assert(in_match(v, t, x));
            assert(x < v.rules.len());
            assert(w.rules[x as int] == v.rules[x as int]);
        } else {
            assert(w.rules[x as int] == r);
        }
    }
}

/// An empty rule index finds every rule it holds (it holds none).
pub proof fn law_empty_index_complete()
    ensures
        complete(empty_rule_index()),
        index_ok(empty_rule_index()),
        sound(empty_rule_index()),
{
}

/// Adding a rule to an index that finds its rules (see `complete`) gives an
/// index that still finds them and finds the new rule for every triple that
/// matches one of its body patterns.
pub proof fn law_add_keeps_complete(v: RuleIndexView, r: RuleView)
    requires
        index_ok(v),
        complete(v),
        v.rules.len() <= usize::MAX,
    ensures
        complete(rule_add_spec(v, r)),
        index_ok(rule_add_spec(v, r)),
{
    let n = v.rules.len() as usize;
    let v0 = RuleIndexView { rules: v.rules.push(r), ..v };
    let w = rule_add_spec(v, r);
    assert(index_ok(v0)) by {
        assert forall|i: int| 0 <= i < v0.spo.len() implies v0.spo[i] < v0.rules.len() by {}
        assert forall|i: int| 0 <= i < v0.s.len() implies bucket_ok(#[trigger] v0.s[i].1, v0.rules.len()) by {
            assert(bucket_ok(v.s[i].1, v.rules.len()));
        }
        assert forall|i: int| 0 <= i < v0.p.len() implies bucket_ok(#[trigger] v0.p[i].1, v0.rules.len()) by {
            assert(bucket_ok(v.p[i].1, v.rules.len()));
        }
        assert forall|i: int| 0 <= i < v0.o.len() implies bucket_ok(#[trigger] v0.o[i].1, v0.rules.len()) by {
            assert(bucket_ok(v.o[i].1, v.rules.len()));
        }
        assert forall|i: int| 0 <= i < v0.sp.len() implies map1_ok(#[trigger] v0.sp[i].1, v0.rules.len()) by {
            assert(map1_ok(v.sp[i].1, v.rules.len()));
            assert forall|j: int| 0 <= j < v0.sp[i].1.len() implies bucket_ok(#[trigger] v0.sp[i].1[j].1, v0.rules.len()) by {
                assert(bucket_ok(v.sp[i].1[j].1, v.rules.len()));
            }
        }
        assert forall|i: int| 0 <= i < v0.po.len() implies map1_ok(#[trigger] v0.po[i].1, v0.rules.len()) by {
            assert(map1_ok(v.po[i].1, v.rules.len()));
            assert forall|j: int| 0 <= j < v0.po[i].1.len() implies bucket_ok(#[trigger] v0.po[i].1[j].1, v0.rules.len()) by {
                assert(bucket_ok(v.po[i].1[j].1, v.rules.len()));
            }
        }
        assert forall|i: int| 0 <= i < v0.so.len() implies map1_ok(#[trigger] v0.so[i].1, v0.rules.len()) by {
            assert(map1_ok(v.so[i].1, v.rules.len()));
            assert forall|j: int| 0 <= j < v0.so[i].1.len() implies bucket_ok(#[trigger] v0.so[i].1[j].1, v0.rules.len()) by {
                assert(bucket_ok(v.so[i].1[j].1, v.rules.len()));
            }
        }
        assert forall|i: int| 0 <= i < v0.ground.len() implies map2_ok(#[trigger] v0.ground[i].1, v0.rules.len()) by {
            assert(map2_ok(v.ground[i].1, v.rules.len()));
            assert forall|j: int| 0 <= j < v0.ground[i].1.len() implies map1_ok(#[trigger] v0.ground[i].1[j].1, v0.rules.len()) by {
                assert(map1_ok(v.ground[i].1[j].1, v.rules.len()));
                assert forall|q: int| 0 <= q < v0.ground[i].1[j].1.len() implies bucket_ok(#[trigger] v0.ground[i].1[j].1[q].1, v0.rules.len()) by {
                    assert(bucket_ok(v.ground[i].1[j].1[q].1, v.rules.len()));
                }
            }
        }
    }
    assert(w == file_patterns(v0, r.body, n));
    lemma_file_patterns(v0, r.body, n, r.head);
    assert forall|m: int, k: int, t: Triple|
        0 <= m < w.rules.len() && 0 <= k < w.rules[m].body.len() && #[trigger] pattern_matches(w.rules[m].body[k], t)
        implies finds(w, t, m) by {
        lemma_file_patterns(v0, r.body, n, t);
        lemma_in_match_bound(w, t);
        if m < v.rules.len() {
            assert(w.rules[m] == v.rules[m]);
            assert(finds(v, t, m));
            let x = choose|x: usize| #[trigger] in_match(v, t, x) && x < v.rules.len() && v.rules[x as int] == v.rules[m];
            assert(in_match(v0, t, x));
            assert(in_match(w, t, x));
            assert(w.rules[x as int] == v.rules[x as int]);
        } else {
            assert(m == n);
            assert(w.rules[m] == r);
            let x = choose|x: usize| #[trigger] in_match(w, t, x) && v0.rules[x as int] == v0.rules[n as int];
            assert(x < w.rules.len());
        }
    }
}

} // verus!
