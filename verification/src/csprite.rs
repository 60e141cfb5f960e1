//! C-Sprite: materialization restricted to the rules that a query needs,
//! over a window of timestamped triples. The rules that can derive a query
//! pattern are found backward from it; chains of single-pattern rules
//! (hierarchies) are flattened so that each of their rules derives the
//! chain's top head directly.
use vstd::prelude::*;
use std::rc::Rc;
use crate::backwardchaining::{BackwardChainer, unify_head, subrules_spec, subrule_views};
use crate::triples::{Triple, Rule, RuleView};
use crate::ruleindex::{RuleIndex, RuleIndexView, rule_eq, empty_rule_index};
use crate::parser::{rule_views, parse_ok, parse_lines_spec, lines_of};
use crate::encoding::Encoder;
use crate::tripleindex::{TripleIndex, TripleIndexView, add_spec, remove_spec, storable, empty_index};
use crate::reasoner::{Reasoner, CSpriteReasoner, materializes, mat_result, cs_total, cs_result, lemma_triple_eq};
use crate::imars_window::{ImarsWindow, ImarsView, expired_prefix, place, unshared, share, lemma_expired_prefix};
use crate::store::{TripleStore, add_triples_spec, add_rules_spec};
use crate::utils::{decodable, triple_string, push_triple};
use crate::sparql::{decimal, decimal_chars};
use crate::text::{append_chars, string_of};

verus! {

/// `r` is a rule of `rules` whose head unifies with `goal`.
pub open spec fn is_subrule(rules: Seq<RuleView>, goal: Triple, r: RuleView) -> bool {
    rules.contains(r) && unify_head(r.head, goal) is Some
}

/// A chain of rules backward from `goal`: the first derives `goal`, and
/// each next one derives the body pattern at `at[k]` of the one before.
pub open spec fn is_chain(rules: Seq<RuleView>, goal: Triple, c: Seq<RuleView>, at: Seq<int>) -> bool {
    &&& c.len() > 0
    &&& at.len() == c.len()
    &&& is_subrule(rules, goal, c[0])
    &&& forall|k: int|
        0 < k < c.len() ==> 0 <= #[trigger] at[k] < c[k - 1].body.len() && is_subrule(rules, c[k - 1].body[at[k]], c[k])
}

/// `r` is reached backward from `goal`: it ends a chain from `goal`.
pub open spec fn reachable(rules: Seq<RuleView>, goal: Triple, r: RuleView) -> bool {
    exists|c: Seq<RuleView>, at: Seq<int>| #[trigger] is_chain(rules, goal, c, at) && c.last() == r
}

/// Every rule that derives a body pattern of a rule of `m` from position
/// `from` on is in `m`.
pub open spec fn closed_from(rules: Seq<RuleView>, m: Seq<RuleView>, from: int) -> bool {
    forall|k: int, i: int, r2: RuleView|
        #![trigger m[k].body[i], is_subrule(rules, m[k].body[i], r2)]
        from <= k < m.len() && 0 <= i < m[k].body.len() && is_subrule(rules, m[k].body[i], r2) ==> m.contains(r2)
}

/// The backward closure of `goal`: every rule that is reached from it is in
/// `m`, and every rule of `m` is reached from it, once.
pub open spec fn backward_closure(rules: Seq<RuleView>, goal: Triple, m: Seq<RuleView>) -> bool {
    &&& m.no_duplicates()
    &&& forall|r: RuleView| m.contains(r) <==> #[trigger] reachable(rules, goal, r)
}

/// Every hierarchy is a non-empty chain of rules of `m` with one body
/// pattern each.
pub open spec fn hierarchies_ok(m: Seq<RuleView>, hs: Seq<Seq<RuleView>>) -> bool {
    forall|h: int, j: int|
        0 <= h < hs.len() ==> hs[h].len() > 0 && (0 <= j < hs[h].len() ==> (#[trigger] hs[h][j]).body.len() == 1
            && m.contains(hs[h][j]))
}

/// The views of hierarchies.
pub open spec fn hierarchy_views(hs: Seq<Vec<Rule>>) -> Seq<Seq<RuleView>> {
    hs.map_values(|h: Vec<Rule>| rule_views(h@))
}

/// The rules of hierarchies, one hierarchy after the other.
pub open spec fn hierarchy_rules(hs: Seq<Seq<RuleView>>) -> Seq<RuleView>
    decreases hs.len(),
{
    if hs.len() == 0 {
        seq![]
    } else {
        hierarchy_rules(hs.drop_last()) + hs.last()
    }
}

/// The rules of `m` with one body pattern, in order.
pub open spec fn single_pattern_rules(m: Seq<RuleView>) -> Seq<RuleView>
    decreases m.len(),
{
    if m.len() == 0 {
        seq![]
    } else if m.last().body.len() == 1 {
        single_pattern_rules(m.drop_last()).push(m.last())
    } else {
        single_pattern_rules(m.drop_last())
    }
}

/// The sub-rules that `find_subrules` lists are the rules of the index whose
/// head unifies with the goal, each with its unification, and all of them.
proof fn lemma_subrules(rules: Seq<RuleView>, goal: Triple)
    ensures
        forall|j: int| 0 <= j < subrules_spec(rules, goal).len() ==> is_subrule(rules, goal, (#[trigger] subrules_spec(rules, goal)[j]).0),
        forall|r: RuleView| is_subrule(rules, goal, r) ==> exists|j: int|
            0 <= j < subrules_spec(rules, goal).len() && (#[trigger] subrules_spec(rules, goal)[j]).0 == r,
    decreases rules.len(),
{
    let s = subrules_spec(rules, goal);
    if rules.len() > 0 {
        let d = rules.drop_last();
        lemma_subrules(d, goal);
        let rest = subrules_spec(d, goal);
        assert forall|j: int| 0 <= j < s.len() implies is_subrule(rules, goal, (#[trigger] s[j]).0) by {
            if j < rest.len() {
                assert(s[j] == rest[j]);
                assert(is_subrule(d, goal, rest[j].0));
                let w = choose|x: int| 0 <= x < d.len() && d[x] == rest[j].0;
                assert(rules[w] == d[w]);
            } else {
                assert(rules[rules.len() - 1] == rules.last());
            }
        }
        assert forall|r: RuleView| is_subrule(rules, goal, r) implies exists|j: int|
            0 <= j < s.len() && (#[trigger] s[j]).0 == r by {
            let w = choose|x: int| 0 <= x < rules.len() && rules[x] == r;
            if w < rules.len() - 1 {
                assert(d[w] == r);
                assert(is_subrule(d, goal, r));
                let j = choose|j: int| 0 <= j < rest.len() && (#[trigger] rest[j]).0 == r;
                assert(s[j] == rest[j]);
            } else {
                assert(s[s.len() - 1].0 == r);
            }
        }
    }
}

/// A sequence without duplicates whose items are all in `b` is no longer
/// than `b`.
proof fn lemma_distinct_len(a: Seq<RuleView>, b: Seq<RuleView>)
    requires
        a.no_duplicates(),
        forall|i: int| 0 <= i < a.len() ==> b.contains(#[trigger] a[i]),
    ensures
        a.len() <= b.len(),
{
    a.unique_seq_to_set();
    b.lemma_cardinality_of_set();
    assert(a.to_set().subset_of(b.to_set())) by {
        assert forall|x: RuleView| a.to_set().contains(x) implies b.to_set().contains(x) by {
            let i = choose|i: int| 0 <= i < a.len() && a[i] == x;
        }
    }
    vstd::set_lib::lemma_len_subset(a.to_set(), b.to_set());
}

/// Whether a rule equal to `r` is in `m`.
fn rule_in(m: &Vec<Rule>, r: &Rule) -> (res: bool)
    ensures
        res == rule_views(m@).contains(r@),
{
    let mut i: usize = 0;
    while i < m.len()
        invariant
            i <= m@.len(),
            forall|k: int| 0 <= k < i ==> rule_views(m@)[k] != r@,
        decreases m@.len() - i,
    {
        if rule_eq(&m[i], r) {
            assert(rule_views(m@)[i as int] == r@);
            return true;
        }
        i = i + 1;
    }
    false
}

/// Each hierarchy's rules, all deriving the head of its first rule.
pub open spec fn rewrite_spec(rules: Seq<RuleView>) -> Seq<RuleView> {
    rules.map_values(|r: RuleView| RuleView { body: r.body, head: rules[0].head })
}



/// `goal` is the query, or a body pattern of a rule reached from it.
pub open spec fn goal_from(rules: Seq<RuleView>, top: Triple, goal: Triple) -> bool {
    goal == top || exists|r: RuleView, i: int|
        #![trigger reachable(rules, top, r), r.body[i]]
        reachable(rules, top, r) && 0 <= i < r.body.len() && r.body[i] == goal
}

/// `m2` starts with `m`.
pub open spec fn extends(m: Seq<RuleView>, m2: Seq<RuleView>) -> bool {
    m.len() <= m2.len() && m2.subrange(0, m.len() as int) == m
}

/// The rules of `m` from `from` on are closed (see `closed_from`), except
/// the body patterns from `t` on of the rule at `p`.
pub open spec fn closed_upto(rules: Seq<RuleView>, m: Seq<RuleView>, from: int, p: int, t: int) -> bool {
    forall|k: int, i: int, r2: RuleView|
        #![trigger m[k].body[i], is_subrule(rules, m[k].body[i], r2)]
        from <= k < m.len() && 0 <= i < m[k].body.len() && (k != p || i < t) && is_subrule(rules, m[k].body[i], r2)
            ==> m.contains(r2)
}

/// What the backward search keeps: its rules are distinct rules of the
/// index, each reached from the query.
pub open spec fn search_ok(rules: Seq<RuleView>, top: Triple, m: Seq<RuleView>) -> bool {
    &&& m.no_duplicates()
    &&& forall|i: int| 0 <= i < m.len() ==> rules.contains(#[trigger] m[i])
    &&& forall|i: int| 0 <= i < m.len() ==> reachable(rules, top, #[trigger] m[i])
}

/// A rule that derives a goal of the search is reached from the query.
proof fn lemma_goal_reach(rules: Seq<RuleView>, top: Triple, goal: Triple, s: RuleView)
    requires
        goal_from(rules, top, goal),
        is_subrule(rules, goal, s),
    ensures
        reachable(rules, top, s),
{
    if goal == top {
        assert(is_chain(rules, top, seq![s], seq![0int]));
        assert(seq![s].last() == s);
    } else {
        let (r, i) = choose|r: RuleView, i: int|
            #![trigger reachable(rules, top, r), r.body[i]]
            reachable(rules, top, r) && 0 <= i < r.body.len() && r.body[i] == goal;
        let (c, at) = choose|c: Seq<RuleView>, at: Seq<int>| #[trigger] is_chain(rules, top, c, at) && c.last() == r;
        let c2 = c.push(s);
        let at2 = at.push(i);
        assert(is_chain(rules, top, c2, at2)) by {
            assert forall|k: int| 0 < k < c2.len() implies 0 <= #[trigger] at2[k] < c2[k - 1].body.len()
                && is_subrule(rules, c2[k - 1].body[at2[k]], c2[k]) by {
                if k < c.len() {
                    assert(at2[k] == at[k]);
                    assert(c2[k - 1] == c[k - 1]);
                    assert(c2[k] == c[k]);
                } else {
                    assert(c2[k - 1] == r);
                    assert(at2[k] == i);
                }
            }
        }
        assert(c2.last() == s);
    }
}

/// What a longer search keeps of a shorter one: membership, closure and
/// hierarchies.
proof fn lemma_extend_keeps(
    rules: Seq<RuleView>,
    m: Seq<RuleView>,
    m2: Seq<RuleView>,
    from: int,
    p: int,
    t: int,
    hs: Seq<Seq<RuleView>>,
)
    requires
        extends(m, m2),
        closed_upto(rules, m, from, p, t),
        closed_from(rules, m2, m.len() as int),
        0 <= from,
    ensures
        forall|x: RuleView| m.contains(x) ==> m2.contains(x),
        closed_upto(rules, m2, from, p, t),
        hierarchies_ok(m, hs) ==> hierarchies_ok(m2, hs),
{
    assert forall|x: RuleView| m.contains(x) implies m2.contains(x) by {
        let i = choose|i: int| 0 <= i < m.len() && m[i] == x;
        assert(m2[i] == m2.subrange(0, m.len() as int)[i]);
    }
    assert forall|k: int, i: int, r2: RuleView|
        #![trigger m2[k].body[i], is_subrule(rules, m2[k].body[i], r2)]
        from <= k < m2.len() && 0 <= i < m2[k].body.len() && (k != p || i < t) && is_subrule(rules, m2[k].body[i], r2)
            implies m2.contains(r2) by {
        if k < m.len() {
            assert(m2[k] == m2.subrange(0, m.len() as int)[k]);
            assert(m[k].body[i] == m2[k].body[i]);
            assert(m.contains(r2));
        }
    }
}

/// A search that extends one that extends `a` extends `a`.
proof fn lemma_extends_trans(a: Seq<RuleView>, b: Seq<RuleView>, c: Seq<RuleView>)
    requires
        extends(a, b),
        extends(b, c),
    ensures
        extends(a, c),
        forall|x: RuleView| a.contains(x) ==> c.contains(x),
{
    assert(c.subrange(0, a.len() as int) =~= a) by {
        assert forall|x: int| 0 <= x < a.len() implies c.subrange(0, a.len() as int)[x] == a[x] by {
            assert(c.subrange(0, b.len() as int)[x] == c[x]);
            assert(b.subrange(0, a.len() as int)[x] == b[x]);
        }
    }
    assert forall|x: RuleView| a.contains(x) implies c.contains(x) by {
        let i = choose|i: int| 0 <= i < a.len() && a[i] == x;
        assert(c.subrange(0, a.len() as int)[i] == c[i]);
    }
}

/// A rule of the search with one body pattern can join the last hierarchy.
proof fn lemma_hier_join(m: Seq<RuleView>, hb: Seq<Seq<RuleView>>, s: RuleView)
    requires
        hierarchies_ok(m, hb),
        hb.len() > 0,
        m.contains(s),
        s.body.len() == 1,
    ensures
        hierarchies_ok(m, hb.update(hb.len() - 1, hb[hb.len() - 1].push(s))),
{
    let ha = hb.update(hb.len() - 1, hb[hb.len() - 1].push(s));
    assert forall|h: int, jj: int|
        0 <= h < ha.len() implies ha[h].len() > 0 && (0 <= jj < ha[h].len() ==> (#[trigger] ha[h][jj]).body.len() == 1
            && m.contains(ha[h][jj])) by {
        if h == ha.len() - 1 && jj == ha[h].len() - 1 {
            assert(ha[h][jj] == s);
        } else if 0 <= jj < ha[h].len() {
            assert(ha[h][jj] == hb[h][jj]);
        }
    }
}

/// A rule of the search with one body pattern can start a hierarchy.
proof fn lemma_hier_start(m: Seq<RuleView>, hb: Seq<Seq<RuleView>>, s: RuleView)
    requires
        hierarchies_ok(m, hb),
        m.contains(s),
        s.body.len() == 1,
    ensures
        hierarchies_ok(m, hb.push(seq![s])),
{
    let ha = hb.push(seq![s]);
    assert forall|h: int, jj: int|
        0 <= h < ha.len() implies ha[h].len() > 0 && (0 <= jj < ha[h].len() ==> (#[trigger] ha[h][jj]).body.len() == 1
            && m.contains(ha[h][jj])) by {
        if h == ha.len() - 1 {
            if jj == 0 {
                assert(ha[h][jj] == s);
            }
        } else if 0 <= jj < ha[h].len() {
            assert(ha[h][jj] == hb[h][jj]);
        }
    }
}



/// A closed search from the query that starts empty holds every rule
/// reached from the query.
proof fn lemma_closed_complete(rules: Seq<RuleView>, top: Triple, m: Seq<RuleView>, r: RuleView)
    requires
        forall|x: RuleView| is_subrule(rules, top, x) ==> m.contains(x),
        closed_from(rules, m, 0),
        reachable(rules, top, r),
    ensures
        m.contains(r),
{
    let (c, at) = choose|c: Seq<RuleView>, at: Seq<int>| #[trigger] is_chain(rules, top, c, at) && c.last() == r;
    lemma_chain_in(rules, top, m, c, at, c.len() - 1);
}

proof fn lemma_chain_in(rules: Seq<RuleView>, top: Triple, m: Seq<RuleView>, c: Seq<RuleView>, at: Seq<int>, k: int)
    requires
        forall|x: RuleView| is_subrule(rules, top, x) ==> m.contains(x),
        closed_from(rules, m, 0),
        is_chain(rules, top, c, at),
        0 <= k < c.len(),
    ensures
        m.contains(c[k]),
    decreases k,
{
    if k > 0 {
        lemma_chain_in(rules, top, m, c, at, k - 1);
        let w = choose|w: int| 0 <= w < m.len() && m[w] == c[k - 1];
        assert(0 <= at[k] < c[k - 1].body.len() && is_subrule(rules, c[k - 1].body[at[k]], c[k]));
        assert(m[w].body[at[k]] == c[k - 1].body[at[k]]);
    }
}


/// Every rule that derives `g` is in `m`.
pub open spec fn done_goal(rules: Seq<RuleView>, m: Seq<RuleView>, g: Triple) -> bool {
    forall|r2: RuleView| is_subrule(rules, g, r2) ==> m.contains(r2)
}

/// Each goal of the search, the query and the body patterns of found rules,
/// is waiting on the stack, is done, or is `g`.
pub open spec fn stack_ok(rules: Seq<RuleView>, top: Triple, m: Seq<RuleView>, stack: Seq<Triple>, g: Option<Triple>) -> bool {
    &&& (stack.contains(top) || done_goal(rules, m, top) || g == Some(top))
    &&& forall|k: int, i: int|
        0 <= k < m.len() && 0 <= i < m[k].body.len() ==> (stack.contains(#[trigger] m[k].body[i]) || done_goal(rules, m, m[k].body[i])
            || g == Some(m[k].body[i]))
}



/// A store for C-Sprite: rules, triples, dictionary, and a window that
/// keeps the triples with their time stamps.
pub struct CSprite {
    pub rules: Vec<Rule>,
    pub rules_index: RuleIndex,
    pub triple_index: TripleIndex,
    pub encoder: Encoder,
    pub window_reasoner: CSpriteReasoner,
    pub reasoner: Reasoner,
    pub imars: ImarsWindow<Triple>,
}

/// A time stamp written in decimal, with `-` when negative.
pub open spec fn stamp_text(ts: i32) -> Seq<char> {
    if ts < 0 {
        seq!['-'] + decimal((-ts) as nat)
    } else {
        decimal(ts as nat)
    }
}

/// Stamped triples written out: each as `s p o @ ts.` and a line break.
pub open spec fn stamped_string(strings: Seq<Seq<char>>, ts: Seq<(i32, Triple)>) -> Seq<char>
    decreases ts.len(),
{
    if ts.len() == 0 {
        seq![]
    } else {
        stamped_string(strings, ts.drop_last()) + triple_string(strings, ts.last().1) + seq![' ', '@', ' ']
            + stamp_text(ts.last().0) + seq!['.', '\n']
    }
}

/// The index after the triples of `items` were removed, in order.
pub open spec fn remove_items(v: TripleIndexView, items: Seq<(i32, Triple)>) -> TripleIndexView
    decreases items.len(),
{
    if items.len() == 0 {
        v
    } else {
        remove_spec(remove_items(v, items.drop_last()), items.last().1)
    }
}

/// The index after the triples of `items` were added, in order.
pub open spec fn add_items(v: TripleIndexView, items: Seq<(i32, Triple)>) -> TripleIndexView
    decreases items.len(),
{
    if items.len() == 0 {
        v
    } else {
        add_spec(add_items(v, items.drop_last()), items.last().1)
    }
}

/// The window content after the items were stamped in order (see `place`).
pub open spec fn place_items(c: Seq<(i32, Triple)>, items: Seq<(i32, Triple)>) -> Seq<(i32, Triple)>
    decreases items.len(),
{
    if items.len() == 0 {
        c
    } else {
        place(place_items(c, items.drop_last()), items.last().1, items.last().0)
    }
}

/// The state of a window update: the items that expire at `last_ts`, the
/// index without them and with the new triples, and the window content
/// without them and with the new triples stamped.
pub open spec fn window_update_state(
    v: TripleIndexView,
    w: ImarsView<Triple>,
    new_data: Seq<(i32, Triple)>,
    last_ts: i32,
) -> (Seq<(i32, Triple)>, TripleIndexView, Seq<(i32, Triple)>) {
    let k = expired_prefix(w.content, last_ts as int) as int;
    let expired = w.content.take(k);
    (expired, add_items(remove_items(v, expired), new_data), place_items(w.content.skip(k), new_data))
}

/// A window update can run: the index counts the expired triples, the new
/// triples can be stored and counted, and the materialization of the new
/// triples ends.
pub open spec fn window_update_ok(
    v: TripleIndexView,
    w: ImarsView<Triple>,
    ri: RuleIndexView,
    new_data: Seq<(i32, Triple)>,
    last_ts: i32,
) -> bool {
    let (expired, v2, c2) = window_update_state(v, w, new_data, last_ts);
    &&& v.counter >= expired.len()
    &&& v.counter - expired.len() + new_data.len() < usize::MAX
    &&& forall|i: int| 0 <= i < new_data.len() ==> storable(#[trigger] new_data[i].1)
    &&& cs_total(v2, c2, ri, new_data)
}

impl CSprite {
    /// The window that keeps the triples with their time stamps.
    pub open spec fn window(&self) -> ImarsView<Triple> {
        self.imars@
    }

    /// The rule index is well formed, and so is the window.
    pub open spec fn wf(&self) -> bool {
        self.rules_index.wf() && self.imars.wf()
    }

    /// An empty store with a window of width and slide 0.
    pub fn new() -> (res: CSprite)
        ensures
            res.wf(),
            res.rules@ == Seq::<Rule>::empty(),
            res.rules_index@ == empty_rule_index(),
            res.triple_index@ == empty_index(),
            res.encoder@ == Seq::<Seq<char>>::empty(),
            res.window() == (ImarsView::<Triple> { content: seq![], pending: seq![], width: 0, slide: 0, time: 0 }),
    {
        CSprite {
            rules: Vec::new(),
            rules_index: RuleIndex::new(),
            triple_index: TripleIndex::new(),
            encoder: Encoder::new(),
            window_reasoner: CSpriteReasoner,
            reasoner: Reasoner,
            imars: ImarsWindow::new_no_window(),
        }
    }

    /// A store filled from text in the line format (see `TripleStore::from`).
    pub fn from(data: &str) -> (res: CSprite)
        requires
            parse_ok(data@),
        ensures
            res.wf(),
            ({
                let r = parse_lines_spec(Seq::empty(), lines_of(data@));
                &&& res.triple_index@ == add_triples_spec(empty_index(), r.0)
                &&& rule_views(res.rules@) == r.1
                &&& res.rules_index@ == add_rules_spec(empty_rule_index(), r.1)
                &&& res.encoder@ == r.2
            }),
            res.window() == (ImarsView::<Triple> { content: seq![], pending: seq![], width: 0, slide: 0, time: 0 }),
    {
        let triple_store = TripleStore::from(data);
        CSprite {
            rules: triple_store.rules,
            rules_index: triple_store.rules_index,
            triple_index: triple_store.triple_index,
            encoder: triple_store.encoder,
            window_reasoner: CSpriteReasoner,
            reasoner: Reasoner,
            imars: ImarsWindow::new_no_window(),
        }
    }

    /// Stamped triples written out (see `stamped_string`); every code must
    /// have its string.
    pub fn decode_triples(triples: &Vec<(i32, Rc<Triple>)>, encoder: &Encoder) -> (res: String)
        requires
            forall|i: int| 0 <= i < triples@.len() ==> decodable(encoder@, *(#[trigger] triples@[i]).1),
        ensures
            res@ == stamped_string(encoder@, unshared(triples@)),
    {
        let ghost tv = unshared(triples@);
        let mut out: Vec<char> = Vec::new();
        let mut i: usize = 0;
        assert(tv.take(0) =~= Seq::<(i32, Triple)>::empty());
        while i < triples.len()
            invariant
                i <= triples@.len(),
                tv == unshared(triples@),
                forall|j: int| 0 <= j < triples@.len() ==> decodable(encoder@, *(#[trigger] triples@[j]).1),
                out@ == stamped_string(encoder@, tv.take(i as int)),
            decreases triples@.len() - i,
        {
            let (ts, triple) = (triples[i].0, &triples[i].1);
            push_triple(&mut out, encoder, triple);
            out.push(' ');
            out.push('@');
            out.push(' ');
            let digits = if ts < 0 {
                let mut d: Vec<char> = Vec::new();
                d.push('-');
                let m = decimal_chars((-(ts as i64)) as usize);
                append_chars(&mut d, &m);
                d
            } else {
                decimal_chars(ts as usize)
            };
            append_chars(&mut out, &digits);
            out.push('.');
            out.push('\n');
            proof {
                assert(tv.take(i + 1).drop_last() =~= tv.take(i as int));
                assert(tv.take(i + 1).last() == tv[i as int]);
                assert(tv[i as int] == (ts, **triple));
            }
            assert(out@ =~= stamped_string(encoder@, tv.take(i + 1)));
            i = i + 1;
        }
        assert(tv.take(triples@.len() as int) =~= tv);
        string_of(&out)
    }

    /// Adds a triple (see `TripleIndex::add`).
    pub fn add(&mut self, triple: Triple)
        requires
            storable(triple),
            old(self).triple_index@.counter < usize::MAX,
        ensures
            final(self).triple_index@ == add_spec(old(self).triple_index@, triple),
            final(self).rules_index@ == old(self).rules_index@,
            final(self).wf() == old(self).wf(),
            final(self).window() == old(self).window(),
    {
        self.triple_index.add(triple);
    }

    /// Adds a shared triple (see `TripleIndex::add`).
    pub fn add_ref(&mut self, triple: Rc<Triple>)
        requires
            storable(*triple),
            old(self).triple_index@.counter < usize::MAX,
        ensures
            final(self).triple_index@ == add_spec(old(self).triple_index@, *triple),
            final(self).rules_index@ == old(self).rules_index@,
            final(self).wf() == old(self).wf(),
            final(self).window() == old(self).window(),
            final(self).encoder@ == old(self).encoder@,
    {
        self.triple_index.add_ref(triple);
    }

    /// Removes a shared triple (see `TripleIndex::remove_ref`).
    pub fn remove_ref(&mut self, triple: Rc<Triple>)
        requires
            old(self).triple_index@.counter > 0,
        ensures
            final(self).triple_index@ == remove_spec(old(self).triple_index@, *triple),
            final(self).rules_index@ == old(self).rules_index@,
            final(self).wf() == old(self).wf(),
            final(self).window() == old(self).window(),
    {
        self.triple_index.remove_ref(&*triple);
    }

    /// Files the rules in the rule index, in order.
    pub fn add_rules(&mut self, rules: Vec<Rule>)
        requires
            old(self).wf(),
        ensures
            final(self).wf(),
            final(self).rules_index@ == add_rules_spec(old(self).rules_index@, rule_views(rules@)),
            final(self).triple_index@ == old(self).triple_index@,
            final(self).window() == old(self).window(),
            final(self).encoder@ == old(self).encoder@,
    {
        let ghost r0 = self.rules_index@;
        let mut j: usize = 0;
        while j < rules.len()
            invariant
                j <= rules@.len(),
                self.wf(),
                self.triple_index@ == old(self).triple_index@,
                self.window() == old(self).window(),
                self.encoder@ == old(self).encoder@,
                self.rules_index@ == add_rules_spec(r0, rule_views(rules@).take(j as int)),
            decreases rules@.len() - j,
        {
            self.rules_index.add(&rules[j]);
            proof {
                assert(rule_views(rules@).take(j + 1).drop_last() =~= rule_views(rules@).take(j as int));
            }
            j = j + 1;
        }
        assert(rule_views(rules@).take(rules@.len() as int) =~= rule_views(rules@));
    }

    /// The number of triples.
    pub fn len(&self) -> (res: usize)
        ensures
            res == self.triple_index@.triples.len(),
    {
        self.triple_index.len()
    }

    /// Materializing against a shared window is not done: nothing is
    /// inferred.
    pub fn materialize_window(&mut self, _window: &ImarsWindow<Triple>) -> (res: Vec<(i32, Triple)>)
        ensures
            res@.len() == 0,
            final(self).triple_index@ == old(self).triple_index@,
            final(self).rules_index@ == old(self).rules_index@,
            final(self).wf() == old(self).wf(),
            final(self).window() == old(self).window(),
    {
        Vec::new()
    }

    /// Materializes the triples with the rules (see `Reasoner::materialize`)
    /// and returns the triples added.
    pub fn materialize(&mut self) -> (res: Vec<Triple>)
        requires
            old(self).wf(),
            materializes(old(self).triple_index@, old(self).rules_index@),
        ensures
            (final(self).triple_index@, res@) == mat_result(old(self).triple_index@, old(self).rules_index@),
            final(self).rules_index@ == old(self).rules_index@,
            final(self).wf(),
            final(self).window() == old(self).window(),
    {
        self.reasoner.materialize(&mut self.triple_index, &self.rules_index)
    }

    /// Removes every triple.
    pub fn clear(&mut self)
        ensures
            final(self).triple_index@ == empty_index(),
            final(self).rules_index@ == old(self).rules_index@,
            final(self).wf() == old(self).wf(),
            final(self).window() == old(self).window(),
    {
        self.triple_index.clear();
    }

    /// The rules that derive `rule_head`, found backward (see
    /// `backward_closure`), with the hierarchies of single-pattern rules met
    /// on the way: each single-pattern rule found joins the hierarchy built
    /// last or starts a new one, so that the hierarchies, one after the
    /// other, hold the single-pattern rules in the order they were found.
    pub fn eval_backward_csprite(&self, rule_head: &Triple) -> (res: (Vec<Rule>, Vec<Vec<Rule>>))
        ensures
            backward_closure(self.rules_index@.rules, *rule_head, rule_views(res.0@)),
            hierarchies_ok(rule_views(res.0@), hierarchy_views(res.1@)),
            hierarchy_rules(hierarchy_views(res.1@)) == single_pattern_rules(rule_views(res.0@)),
    {
        let mut matched_rules: Vec<Rule> = Vec::new();
        let mut hierarchies: Vec<Vec<Rule>> = Vec::new();
        assert(hierarchy_views(hierarchies@) =~= Seq::<Seq<RuleView>>::empty());
        assert(rule_views(matched_rules@) =~= Seq::<RuleView>::empty());
        assert(hierarchy_rules(hierarchy_views(hierarchies@)) == single_pattern_rules(rule_views(matched_rules@)));
        self.eval_backward_csprite_helper(rule_head, &mut matched_rules, false, &mut hierarchies, Ghost(*rule_head));
        proof {
            let rules = self.rules_index@.rules;
            let m = rule_views(matched_rules@);
            assert forall|r: RuleView| m.contains(r) <==> #[trigger] reachable(rules, *rule_head, r) by {
                if reachable(rules, *rule_head, r) {
                    lemma_closed_complete(rules, *rule_head, m, r);
                }
                if m.contains(r) {
                    let w = choose|w: int| 0 <= w < m.len() && m[w] == r;
                }
            }
        }
        (matched_rules, hierarchies)
    }

    /// The backward search from `rule_head` (the query, or a body pattern of a
    /// rule reached from it): every rule of the index that derives it and is
    /// not yet found is added; a rule with one body pattern joins the current
    /// hierarchy when the caller is in one, else starts a new one; then the
    /// search goes on from the body patterns of each added rule.
    fn eval_backward_csprite_helper(
        &self,
        rule_head: &Triple,
        matched_rules: &mut Vec<Rule>,
        hierarchy: bool,
        hierarchies: &mut Vec<Vec<Rule>>,
        Ghost(top): Ghost<Triple>,
    )
        requires
            search_ok(self.rules_index@.rules, top, rule_views(old(matched_rules)@)),
            goal_from(self.rules_index@.rules, top, *rule_head),
            hierarchies_ok(rule_views(old(matched_rules)@), hierarchy_views(old(hierarchies)@)),
            hierarchy_rules(hierarchy_views(old(hierarchies)@)) == single_pattern_rules(rule_views(old(matched_rules)@)),
            hierarchy ==> old(hierarchies)@.len() > 0,
        ensures
            ({
                let rules = self.rules_index@.rules;
                let m0 = rule_views(old(matched_rules)@);
                let m = rule_views(final(matched_rules)@);
                &&& extends(m0, m)
                &&& search_ok(rules, top, m)
                &&& forall|r: RuleView| is_subrule(rules, *rule_head, r) ==> m.contains(r)
                &&& closed_from(rules, m, m0.len() as int)
                &&& hierarchies_ok(m, hierarchy_views(final(hierarchies)@))
                &&& hierarchy_rules(hierarchy_views(final(hierarchies)@)) == single_pattern_rules(m)
                &&& final(hierarchies)@.len() >= old(hierarchies)@.len()
            }),
        decreases self.rules_index@.rules.len() - old(matched_rules)@.len(),
    {
        let ghost rules = self.rules_index@.rules;
        let ghost m0 = rule_views(matched_rules@);
        proof {
            lemma_distinct_len(m0, rules);
            lemma_subrules(rules, *rule_head);
        }
        let sub_rules = BackwardChainer::find_subrules(&self.rules_index, rule_head);
        let ghost sv = subrule_views(sub_rules@);
        let mut current_hierarchy = false;
        let mut j: usize = 0;
        assert(m0.subrange(0, m0.len() as int) =~= m0);
        while j < sub_rules.len()
            invariant
                rules == self.rules_index@.rules,
                m0.len() <= rules.len(),
                m0.len() == old(matched_rules)@.len(),
                sv == subrule_views(sub_rules@),
                sv == subrules_spec(rules, *rule_head),
                j <= sub_rules@.len(),
                goal_from(rules, top, *rule_head),
                extends(m0, rule_views(matched_rules@)),
                search_ok(rules, top, rule_views(matched_rules@)),
                forall|x: int| 0 <= x < j ==> rule_views(matched_rules@).contains(#[trigger] sv[x].0),
                closed_from(rules, rule_views(matched_rules@), m0.len() as int),
                hierarchies_ok(rule_views(matched_rules@), hierarchy_views(hierarchies@)),
                hierarchy_rules(hierarchy_views(hierarchies@)) == single_pattern_rules(rule_views(matched_rules@)),
                hierarchies@.len() >= old(hierarchies)@.len(),
                hierarchy ==> old(hierarchies)@.len() > 0,
                current_hierarchy ==> hierarchies@.len() > 0,
            decreases sub_rules@.len() - j,
        {
            let sub_rule = &sub_rules[j].0;
            let ghost m_iter = rule_views(matched_rules@);
            proof {
                lemma_subrules(rules, *rule_head);
                assert(subrules_spec(rules, *rule_head)[j as int].0 == sub_rule@);
            }
            assert(is_subrule(rules, *rule_head, sub_rule@));
            if !rule_in(matched_rules, sub_rule) {
                let ghost mb = rule_views(matched_rules@);
                matched_rules.push(sub_rule.clone());
                let ghost p = mb.len() as int;
                proof {
                    let m1 = rule_views(matched_rules@);
                    assert(m1 =~= mb.push(sub_rule@));
                    lemma_goal_reach(rules, top, *rule_head, sub_rule@);
                    assert(m1.no_duplicates()) by {
                        assert forall|a: int, b: int| 0 <= a < b < m1.len() implies m1[a] != m1[b] by {
                            if b == p {
                                assert(mb.contains(mb[a]));
                            }
                        }
                    }
                    assert(extends(mb, m1)) by {
                        assert(m1.subrange(0, mb.len() as int) =~= mb);
                    }
                    lemma_extends_trans(m0, mb, m1);
                    assert(closed_upto(rules, m1, m0.len() as int, p, 0)) by {
                        assert forall|k: int, i: int, r2: RuleView|
                            #![trigger m1[k].body[i], is_subrule(rules, m1[k].body[i], r2)]
                            m0.len() <= k < m1.len() && 0 <= i < m1[k].body.len() && (k != p || i < 0) && is_subrule(rules, m1[k].body[i], r2)
                                implies m1.contains(r2) by {
                            assert(m1[k] == mb[k]);
                            assert(mb.contains(r2));
                            let w = choose|w: int| 0 <= w < mb.len() && mb[w] == r2;
                            assert(m1[w] == r2);
                        }
                    }
                    assert(hierarchies_ok(m1, hierarchy_views(hierarchies@))) by {
                        assert forall|h: int, jj: int|
                            0 <= h < hierarchy_views(hierarchies@).len() implies hierarchy_views(hierarchies@)[h].len() > 0 && (0 <= jj < hierarchy_views(hierarchies@)[h].len()
                                ==> (#[trigger] hierarchy_views(hierarchies@)[h][jj]).body.len() == 1 && m1.contains(hierarchy_views(hierarchies@)[h][jj])) by {
                            if 0 <= jj < hierarchy_views(hierarchies@)[h].len() {
                                let x = hierarchy_views(hierarchies@)[h][jj];
                                assert(mb.contains(x));
                                let w = choose|w: int| 0 <= w < mb.len() && mb[w] == x;
                                assert(m1[w] == x);
                            }
                        }
                    }
                }
                proof {
                    let m1 = rule_views(matched_rules@);
                    assert(m1.drop_last() =~= mb);
                    assert(m1.last() == sub_rule@);
                }
                if sub_rule.body.len() == 1 {
                    let ghost hb = hierarchy_views(hierarchies@);
                    let ghost m1 = rule_views(matched_rules@);
                    if hierarchy {
                        if hierarchies.len() > 0 {
                            let ghost h_old = hierarchies@;
                            let mut last = hierarchies.pop().unwrap();
                            assert(last == h_old[h_old.len() - 1]);
                            last.push(sub_rule.clone());
                            let ghost lastv = last;
                            hierarchies.push(last);
                            proof {
                                assert(hierarchies@ =~= h_old.update(h_old.len() - 1, lastv));
                                assert(rule_views(lastv@) =~= hb[hb.len() - 1].push(sub_rule@));
                                assert(m1[p] == sub_rule@);
                                assert(m1.contains(sub_rule@));
                                assert(hierarchy_views(hierarchies@) =~= hb.update(hb.len() - 1, hb[hb.len() - 1].push(sub_rule@)));
                                lemma_hier_join(m1, hb, sub_rule@);
                                let ha = hierarchy_views(hierarchies@);
                                assert(ha.drop_last() =~= hb.drop_last());
                                assert(hb.last() == hb[hb.len() - 1]);
                                assert(hierarchy_rules(ha) =~= hierarchy_rules(hb).push(sub_rule@));
                            }
                        }
                    } else {
                        let mut fresh: Vec<Rule> = Vec::new();
                        fresh.push(sub_rule.clone());
                        assert(rule_views(fresh@) =~= seq![sub_rule@]);
                        hierarchies.push(fresh);
                        proof {
                            assert(m1[p] == sub_rule@);
                            assert(m1.contains(sub_rule@));
                            assert(hierarchy_views(hierarchies@) =~= hb.push(seq![sub_rule@]));
                            lemma_hier_start(m1, hb, sub_rule@);
                            let ha = hierarchy_views(hierarchies@);
                            assert(ha.drop_last() =~= hb);
                            assert(hierarchy_rules(ha) =~= hierarchy_rules(hb).push(sub_rule@));
                        }
                    }
                    current_hierarchy = true;
                }
                let mut t: usize = 0;
                while t < sub_rule.body.len()
                    invariant
                        rules == self.rules_index@.rules,
                        m0.len() <= rules.len(),
                        m0.len() == old(matched_rules)@.len(),
                        0 <= m0.len() <= p,
                        p < rule_views(matched_rules@).len(),
                        rule_views(matched_rules@)[p] == sub_rule@,
                        reachable(rules, top, sub_rule@),
                        t <= sub_rule.body@.len(),
                        extends(m0, rule_views(matched_rules@)),
                        extends(m_iter, rule_views(matched_rules@)),
                        search_ok(rules, top, rule_views(matched_rules@)),
                        closed_upto(rules, rule_views(matched_rules@), m0.len() as int, p, t as int),
                        hierarchies_ok(rule_views(matched_rules@), hierarchy_views(hierarchies@)),
                        hierarchy_rules(hierarchy_views(hierarchies@)) == single_pattern_rules(rule_views(matched_rules@)),
                        hierarchies@.len() >= old(hierarchies)@.len(),
                        hierarchy ==> old(hierarchies)@.len() > 0,
                        current_hierarchy ==> hierarchies@.len() > 0,
                    decreases sub_rule.body@.len() - t,
                {
                    let ghost mb = rule_views(matched_rules@);
                    proof {
                        lemma_distinct_len(mb, rules);
                        assert(sub_rule@.body[t as int] == sub_rule.body@[t as int]);
                        assert(goal_from(rules, top, sub_rule.body@[t as int])) by {
                            assert(reachable(rules, top, sub_rule@) && sub_rule@.body[t as int] == sub_rule.body@[t as int]);
                        }
                    }
                    self.eval_backward_csprite_helper(&sub_rule.body[t], matched_rules, current_hierarchy, hierarchies, Ghost(top));
                    proof {
                        let ma = rule_views(matched_rules@);
                        lemma_extend_keeps(rules, mb, ma, m0.len() as int, p, t as int, hierarchy_views(hierarchies@));
                        assert(ma[p] == mb[p]) by {
                            assert(ma.subrange(0, mb.len() as int)[p] == ma[p]);
                        }
                        lemma_extends_trans(m0, mb, ma);
                        lemma_extends_trans(m_iter, mb, ma);
                        assert(closed_upto(rules, ma, m0.len() as int, p, t + 1)) by {
                            assert forall|k: int, i: int, r2: RuleView|
                                #![trigger ma[k].body[i], is_subrule(rules, ma[k].body[i], r2)]
                                m0.len() <= k < ma.len() && 0 <= i < ma[k].body.len() && (k != p || i < t + 1) && is_subrule(rules, ma[k].body[i], r2)
                                    implies ma.contains(r2) by {
                                if k == p && i == t {
                                    assert(ma[k].body[i] == sub_rule.body@[t as int]);
                                }
                            }
                        }
                    }
                    t = t + 1;
                }
                proof {
                    let ma = rule_views(matched_rules@);
                    assert(closed_from(rules, ma, m0.len() as int)) by {
                        assert forall|k: int, i: int, r2: RuleView|
                            #![trigger ma[k].body[i], is_subrule(rules, ma[k].body[i], r2)]
                            m0.len() <= k < ma.len() && 0 <= i < ma[k].body.len() && is_subrule(rules, ma[k].body[i], r2)
                                implies ma.contains(r2) by {
                            assert(k != p || i < t);
                        }
                    }
                    assert(ma.contains(sub_rule@)) by {
                        assert(ma[p] == sub_rule@);
                    }
                    assert(m_iter.subrange(0, m_iter.len() as int) =~= m_iter);
                    lemma_extends_trans(m_iter, m_iter, ma);
                    assert forall|x: int| 0 <= x < j + 1 implies ma.contains(#[trigger] sv[x].0) by {
                        if x < j {
                            assert(m_iter.contains(sv[x].0));
                        }
                    }
                }
            }
            j = j + 1;
        }
        proof {
            let m = rule_views(matched_rules@);
            assert forall|r: RuleView| is_subrule(rules, *rule_head, r) implies m.contains(r) by {
                let x = choose|x: int| 0 <= x < sv.len() && (#[trigger] sv[x]).0 == r;
            }
        }
    }

    /// The backward search from `rule_head` with an explicit stack of goals in
    /// place of recursion (see `eval_backward_csprite_helper`). A rule with one
    /// body pattern joins the hierarchy built last when the rule whose pattern
    /// was pushed last had one body pattern too, else starts a new one.
    pub fn eval_backward_csprite_helper_with_stack(&self, rule_head: &Triple) -> (res: (Vec<Rule>, Vec<Vec<Rule>>))
        ensures
            backward_closure(self.rules_index@.rules, *rule_head, rule_views(res.0@)),
            hierarchies_ok(rule_views(res.0@), hierarchy_views(res.1@)),
            hierarchy_rules(hierarchy_views(res.1@)) == single_pattern_rules(rule_views(res.0@)),
    {
        let ghost rules = self.rules_index@.rules;
        let ghost top = *rule_head;
        let mut stack: Vec<Triple> = Vec::new();
        stack.push(*rule_head);
        let mut matched_rules: Vec<Rule> = Vec::new();
        let mut hierarchies: Vec<Vec<Rule>> = Vec::new();
        let mut hierarchy = false;
        assert(stack@[0] == top);
        assert(hierarchy_views(hierarchies@) =~= Seq::<Seq<RuleView>>::empty());
        assert(rule_views(matched_rules@) =~= Seq::<RuleView>::empty());
        while stack.len() > 0
            invariant
                rules == self.rules_index@.rules,
                top == *rule_head,
                search_ok(rules, top, rule_views(matched_rules@)),
                forall|x: int| 0 <= x < stack@.len() ==> goal_from(rules, top, #[trigger] stack@[x]),
                stack_ok(rules, top, rule_views(matched_rules@), stack@, None),
                hierarchies_ok(rule_views(matched_rules@), hierarchy_views(hierarchies@)),
                hierarchy_rules(hierarchy_views(hierarchies@)) == single_pattern_rules(rule_views(matched_rules@)),
                hierarchy ==> hierarchies@.len() > 0,
            decreases rules.len() - matched_rules@.len(), stack@.len(),
        {
            proof {
                lemma_distinct_len(rule_views(matched_rules@), rules);
            }
            let ghost s_before = stack@;
            let ghost m_before = rule_views(matched_rules@);
            let current_head = stack.pop().unwrap();
            assert(s_before =~= stack@.push(current_head));
            assert(goal_from(rules, top, current_head)) by {
                assert(s_before[s_before.len() - 1] == current_head);
            }
            proof {
                lemma_subrules(rules, current_head);
                assert forall|k: int, i: int|
                    0 <= k < m_before.len() && 0 <= i < m_before[k].body.len() implies (stack@.contains(#[trigger] m_before[k].body[i])
                        || done_goal(rules, m_before, m_before[k].body[i]) || Some(current_head) == Some(m_before[k].body[i])) by {
                    let a = m_before[k].body[i];
                    if s_before.contains(a) && a != current_head {
                        let x = choose|x: int| 0 <= x < s_before.len() && s_before[x] == a;
                        assert(stack@[x] == a);
                    }
                }
                if s_before.contains(top) && top != current_head {
                    let x = choose|x: int| 0 <= x < s_before.len() && s_before[x] == top;
                    assert(stack@[x] == top);
                }
                assert(stack_ok(rules, top, m_before, stack@, Some(current_head)));
            }
            let sub_rules = BackwardChainer::find_subrules(&self.rules_index, &current_head);
            let ghost sv = subrule_views(sub_rules@);
            let mut current_hierarchy = false;
            let mut j: usize = 0;
            assert(m_before.subrange(0, m_before.len() as int) =~= m_before);
            while j < sub_rules.len()
                invariant
                    rules == self.rules_index@.rules,
                    top == *rule_head,
                    sv == subrule_views(sub_rules@),
                    sv == subrules_spec(rules, current_head),
                    j <= sub_rules@.len(),
                    goal_from(rules, top, current_head),
                    m_before.len() <= rules.len(),
                    m_before.len() <= matched_rules@.len(),
                    stack@.len() + 1 == s_before.len() || m_before.len() < matched_rules@.len(),
                    search_ok(rules, top, rule_views(matched_rules@)),
                    forall|x: int| 0 <= x < stack@.len() ==> goal_from(rules, top, #[trigger] stack@[x]),
                    forall|x: int| 0 <= x < j ==> rule_views(matched_rules@).contains(#[trigger] sv[x].0),
                    stack_ok(rules, top, rule_views(matched_rules@), stack@, Some(current_head)),
                    hierarchies_ok(rule_views(matched_rules@), hierarchy_views(hierarchies@)),
                    hierarchy_rules(hierarchy_views(hierarchies@)) == single_pattern_rules(rule_views(matched_rules@)),
                    hierarchy ==> hierarchies@.len() > 0,
                    current_hierarchy ==> hierarchies@.len() > 0,
                decreases sub_rules@.len() - j,
            {
                let sub_rule = &sub_rules[j].0;
                proof {
                    lemma_subrules(rules, current_head);
                    assert(subrules_spec(rules, current_head)[j as int].0 == sub_rule@);
                }
                let ghost m_iter = rule_views(matched_rules@);
                if !rule_in(&matched_rules, sub_rule) {
                    matched_rules.push(sub_rule.clone());
                    let ghost m1 = rule_views(matched_rules@);
                    let ghost p = m_iter.len() as int;
                    proof {
                        assert(m1 =~= m_iter.push(sub_rule@));
                        assert(m1.drop_last() =~= m_iter);
                        assert(m1.last() == sub_rule@);
                        lemma_goal_reach(rules, top, current_head, sub_rule@);
                        assert(m1.no_duplicates()) by {
                            assert forall|a: int, b: int| 0 <= a < b < m1.len() implies m1[a] != m1[b] by {
                                if b == p {
                                    assert(m_iter.contains(m_iter[a]));
                                }
                            }
                        }
                        assert forall|x: RuleView| m_iter.contains(x) implies m1.contains(x) by {
                            let w = choose|w: int| 0 <= w < m_iter.len() && m_iter[w] == x;
                            assert(m1[w] == x);
                        }
                        assert(hierarchies_ok(m1, hierarchy_views(hierarchies@))) by {
                            assert forall|h: int, jj: int|
                                0 <= h < hierarchy_views(hierarchies@).len() implies hierarchy_views(hierarchies@)[h].len() > 0 && (0 <= jj < hierarchy_views(hierarchies@)[h].len()
                                    ==> (#[trigger] hierarchy_views(hierarchies@)[h][jj]).body.len() == 1 && m1.contains(hierarchy_views(hierarchies@)[h][jj])) by {
                                if 0 <= jj < hierarchy_views(hierarchies@)[h].len() {
                                    assert(m_iter.contains(hierarchy_views(hierarchies@)[h][jj]));
                                }
                            }
                        }
                    }
                    if sub_rule.body.len() == 1 {
                        let ghost hb = hierarchy_views(hierarchies@);
                        if hierarchy {
                            if hierarchies.len() > 0 {
                                let ghost h_old = hierarchies@;
                                let mut last = hierarchies.pop().unwrap();
                                assert(last == h_old[h_old.len() - 1]);
                                last.push(sub_rule.clone());
                                let ghost lastv = last;
                                hierarchies.push(last);
                                proof {
                                    assert(hierarchies@ =~= h_old.update(h_old.len() - 1, lastv));
                                    assert(rule_views(lastv@) =~= hb[hb.len() - 1].push(sub_rule@));
                                    assert(m1[p] == sub_rule@);
                                    assert(m1.contains(sub_rule@));
                                    assert(hierarchy_views(hierarchies@) =~= hb.update(hb.len() - 1, hb[hb.len() - 1].push(sub_rule@)));
                                    lemma_hier_join(m1, hb, sub_rule@);
                                    let ha = hierarchy_views(hierarchies@);
                                    assert(ha.drop_last() =~= hb.drop_last());
                                    assert(hb.last() == hb[hb.len() - 1]);
                                    assert(hierarchy_rules(ha) =~= hierarchy_rules(hb).push(sub_rule@));
                                }
                            }
                        } else {
                            let mut fresh: Vec<Rule> = Vec::new();
                            fresh.push(sub_rule.clone());
                            assert(rule_views(fresh@) =~= seq![sub_rule@]);
                            hierarchies.push(fresh);
                            proof {
                                assert(m1[p] == sub_rule@);
                                assert(m1.contains(sub_rule@));
                                assert(hierarchy_views(hierarchies@) =~= hb.push(seq![sub_rule@]));
                                lemma_hier_start(m1, hb, sub_rule@);
                                let ha = hierarchy_views(hierarchies@);
                                assert(ha.drop_last() =~= hb);
                                assert(hierarchy_rules(ha) =~= hierarchy_rules(hb).push(sub_rule@));
                            }
                        }
                        current_hierarchy = true;
                    }
                    let ghost st_mid = stack@;
                    let mut t: usize = 0;
                    #[verifier::loop_isolation(false)]
                    while t < sub_rule.body.len()
                        invariant
                            t <= sub_rule.body@.len(),
                            reachable(rules, top, sub_rule@),
                            stack@ == st_mid + sub_rule.body@.take(t as int),
                            forall|x: int| 0 <= x < stack@.len() ==> goal_from(rules, top, #[trigger] stack@[x]),
                            hierarchy ==> hierarchies@.len() > 0,
                        decreases sub_rule.body@.len() - t,
                    {
                        proof {
                            assert(sub_rule@.body[t as int] == sub_rule.body@[t as int]);
                            assert(goal_from(rules, top, sub_rule.body@[t as int])) by {
                                assert(reachable(rules, top, sub_rule@) && sub_rule@.body[t as int] == sub_rule.body@[t as int]);
                            }
                        }
                        stack.push(sub_rule.body[t]);
                        hierarchy = current_hierarchy;
                        assert(stack@ =~= st_mid + sub_rule.body@.take(t + 1));
                        t = t + 1;
                    }
                    proof {
                        assert(sub_rule.body@.take(t as int) =~= sub_rule.body@);
                        let ma = rule_views(matched_rules@);
                        let sa = stack@;
                        assert forall|x: Triple| st_mid.contains(x) implies sa.contains(x) by {
                            let w = choose|w: int| 0 <= w < st_mid.len() && st_mid[w] == x;
                            assert(sa[w] == x);
                        }
                        assert forall|x: RuleView| m_iter.contains(x) implies ma.contains(x) by {
                            let w = choose|w: int| 0 <= w < m_iter.len() && m_iter[w] == x;
                            assert(ma[w] == x);
                        }
                        assert forall|g: Triple| done_goal(rules, m_iter, g) implies done_goal(rules, ma, g) by {
                        }
                        assert forall|k: int, i: int|
                            0 <= k < ma.len() && 0 <= i < ma[k].body.len() implies (sa.contains(#[trigger] ma[k].body[i])
                                || done_goal(rules, ma, ma[k].body[i]) || Some(current_head) == Some(ma[k].body[i])) by {
                            if k == p {
                                assert(ma[k].body[i] == sub_rule.body@[i]);
                                assert(sa[st_mid.len() + i] == sub_rule.body@[i]);
                            } else {
                                assert(ma[k] == m_iter[k]);
                            }
                        }
                        assert(ma.contains(sub_rule@)) by {
                            assert(ma[p] == sub_rule@);
                        }
                        assert forall|x: int| 0 <= x < j + 1 implies ma.contains(#[trigger] sv[x].0) by {
                            if x < j {
                                assert(m_iter.contains(sv[x].0));
                            }
                        }
                    }
                }
                j = j + 1;
            }
            proof {
                let m = rule_views(matched_rules@);
                lemma_distinct_len(m, rules);
                assert(done_goal(rules, m, current_head)) by {
                    assert forall|r: RuleView| is_subrule(rules, current_head, r) implies m.contains(r) by {
                        let x = choose|x: int| 0 <= x < sv.len() && (#[trigger] sv[x]).0 == r;
                    }
                }
            }
        }
        proof {
            let m = rule_views(matched_rules@);
            assert(done_goal(rules, m, top));
            assert(closed_from(rules, m, 0)) by {
                assert forall|k: int, i: int, r2: RuleView|
                    #![trigger m[k].body[i], is_subrule(rules, m[k].body[i], r2)]
                    0 <= k < m.len() && 0 <= i < m[k].body.len() && is_subrule(rules, m[k].body[i], r2) implies m.contains(r2) by {
                    assert(done_goal(rules, m, m[k].body[i]));
                }
            }
            assert forall|r: RuleView| m.contains(r) <==> #[trigger] reachable(rules, top, r) by {
                if reachable(rules, top, r) {
                    lemma_closed_complete(rules, top, m, r);
                }
                if m.contains(r) {
                    let w = choose|w: int| 0 <= w < m.len() && m[w] == r;
                }
            }
        }
        (matched_rules, hierarchies)
    }


    /// The rules of a hierarchy, each with the head of the first one.
    pub fn rewrite_hierarchy(rules: &Vec<Rule>) -> (res: Vec<Rule>)
        ensures
            rule_views(res@) == rewrite_spec(rule_views(rules@)),
    {
        let mut new_rules: Vec<Rule> = Vec::new();
        if rules.len() > 0 {
            let new_head = rules[0].head;
            let mut i: usize = 0;
            while i < rules.len()
                invariant
                    i <= rules@.len(),
                    rules@.len() > 0,
                    new_head == rules@[0].head,
                    new_rules@.len() == i,
                    forall|k: int| 0 <= k < i ==> (#[trigger] new_rules@[k])@ == (RuleView { body: rules@[k]@.body, head: new_head }),
                decreases rules@.len() - i,
            {
                let copy = rules[i].clone();
                new_rules.push(Rule { body: copy.body, head: new_head });
                i = i + 1;
            }
        }
        assert(rule_views(new_rules@) =~= rewrite_spec(rule_views(rules@)));
        new_rules
    }

    /// The rules that C-Sprite keeps for a query: those found backward with
    /// more than one body pattern, then each hierarchy rewritten to derive
    /// its first rule's head (see `rewrite_spec`).
    pub open spec fn sprite_rules(backward: Seq<RuleView>, hierarchies: Seq<Seq<RuleView>>) -> Seq<RuleView> {
        backward.filter(|r: RuleView| r.body.len() > 1) + hierarchies.map_values(|h: Seq<RuleView>| rewrite_spec(h)).flatten()
    }

    /// Replaces the rule index with one holding the rules that the query
    /// needs (see `sprite_rules`), for the backward rules and hierarchies
    /// that `eval_backward_csprite` finds.
    pub fn compute_sprite(&mut self, query: &Triple)
        requires
            old(self).wf(),
        ensures
            final(self).wf(),
            exists|backward: Seq<RuleView>, hierarchies: Seq<Seq<RuleView>>|
                #![trigger Self::sprite_rules(backward, hierarchies)]
                backward_closure(old(self).rules_index@.rules, *query, backward) && hierarchies_ok(backward, hierarchies)
                    && final(self).rules_index@ == add_rules_spec(empty_rule_index(), Self::sprite_rules(backward, hierarchies)),
            final(self).triple_index@ == old(self).triple_index@,
            final(self).window() == old(self).window(),
            final(self).encoder@ == old(self).encoder@,
    {
        let (backward_rules, hierarchies) = self.eval_backward_csprite(query);
        let ghost bv = rule_views(backward_rules@);
        let ghost hv = hierarchy_views(hierarchies@);
        let mut new_rules: Vec<Rule> = Vec::new();
        let mut i: usize = 0;
        assert(bv.take(0).filter(|r: RuleView| r.body.len() > 1) =~= Seq::<RuleView>::empty());
        while i < backward_rules.len()
            invariant
                i <= backward_rules@.len(),
                bv == rule_views(backward_rules@),
                rule_views(new_rules@) == bv.take(i as int).filter(|r: RuleView| r.body.len() > 1),
            decreases backward_rules@.len() - i,
        {
            proof {
                assert(bv.take(i + 1).drop_last() =~= bv.take(i as int));
                assert(bv.take(i + 1).last() == backward_rules@[i as int]@);
                reveal(Seq::filter);
            }
            let ghost prev = new_rules@;
            if backward_rules[i].body.len() > 1 {
                new_rules.push(backward_rules[i].clone());
                assert(rule_views(new_rules@) =~= rule_views(prev).push(backward_rules@[i as int]@));
            }
            proof {
                reveal(Seq::filter);
                assert(rule_views(new_rules@) =~= bv.take(i + 1).filter(|r: RuleView| r.body.len() > 1));
            }
            i = i + 1;
        }
        assert(bv.take(backward_rules@.len() as int) =~= bv);
        let ghost filtered = rule_views(new_rules@);
        let mut h: usize = 0;
        assert(hv.take(0).map_values(|x: Seq<RuleView>| rewrite_spec(x)).flatten() =~= Seq::<RuleView>::empty());
        assert(rule_views(new_rules@) =~= filtered + hv.take(0).map_values(|x: Seq<RuleView>| rewrite_spec(x)).flatten());
        while h < hierarchies.len()
            invariant
                h <= hierarchies@.len(),
                hv == hierarchy_views(hierarchies@),
                rule_views(new_rules@) == filtered + hv.take(h as int).map_values(|x: Seq<RuleView>| rewrite_spec(x)).flatten(),
            decreases hierarchies@.len() - h,
        {
            let rewritten = Self::rewrite_hierarchy(&hierarchies[h]);
            let ghost before = rule_views(new_rules@);
            let mut k: usize = 0;
            while k < rewritten.len()
                invariant
                    k <= rewritten@.len(),
                    rule_views(new_rules@) == before + rule_views(rewritten@).take(k as int),
                decreases rewritten@.len() - k,
            {
                let ghost prev = new_rules@;
                new_rules.push(rewritten[k].clone());
                assert(rule_views(new_rules@) =~= rule_views(prev).push(rewritten@[k as int]@));
                assert(rule_views(rewritten@).take(k + 1) =~= rule_views(rewritten@).take(k as int).push(rewritten@[k as int]@));
                assert(rule_views(new_rules@) =~= before + rule_views(rewritten@).take(k + 1));
                k = k + 1;
            }
            proof {
                assert(rule_views(rewritten@).take(rewritten@.len() as int) =~= rule_views(rewritten@));
                let f = |x: Seq<RuleView>| rewrite_spec(x);
                assert(hv.take(h + 1).map_values(f) =~= hv.take(h as int).map_values(f).push(rewrite_spec(hv[h as int])));
                hv.take(h as int).map_values(f).lemma_flatten_push(rewrite_spec(hv[h as int]));
                assert(hv[h as int] == rule_views(hierarchies@[h as int]@));
            }
            h = h + 1;
        }
        assert(hv.take(hierarchies@.len() as int) =~= hv);
        let mut parsed_rules_index = RuleIndex::new();
        let mut r: usize = 0;
        while r < new_rules.len()
            invariant
                r <= new_rules@.len(),
                parsed_rules_index.wf(),
                parsed_rules_index@ == add_rules_spec(empty_rule_index(), rule_views(new_rules@).take(r as int)),
            decreases new_rules@.len() - r,
        {
            parsed_rules_index.add(&new_rules[r]);
            proof {
                assert(rule_views(new_rules@).take(r + 1).drop_last() =~= rule_views(new_rules@).take(r as int));
            }
            r = r + 1;
        }
        assert(rule_views(new_rules@).take(new_rules@.len() as int) =~= rule_views(new_rules@));
        self.rules_index = parsed_rules_index;
        assert(rule_views(new_rules@) == Self::sprite_rules(bv, hv));
    }

    /// Adds new triples from a window that slid to `last_ts`: the items of
    /// the store's own window stamped at or before `last_ts` leave it and the
    /// index; each new triple is stamped in the window and added to the
    /// index; then the new triples are materialized against the window
    /// (see `CSpriteReasoner::materialize`).
    pub fn window_update(&mut self, new_data: Vec<(i32, Rc<Triple>)>, _old_data: Vec<(i32, Rc<Triple>)>, last_ts: &i32)
        requires
            old(self).wf(),
            window_update_ok(old(self).triple_index@, old(self).window(), old(self).rules_index@, unshared(new_data@), *last_ts),
        ensures
            final(self).wf(),
            ({
                let (expired, v2, c2) = window_update_state(old(self).triple_index@, old(self).window(), unshared(new_data@), *last_ts);
                let st = cs_result(v2, c2, old(self).rules_index@, unshared(new_data@));
                &&& final(self).triple_index@ == st.0
                &&& final(self).window().content == st.1
            }),
            final(self).rules_index@ == old(self).rules_index@,
            final(self).encoder@ == old(self).encoder@,
    {
        proof {
            lemma_triple_eq();
        }
        let ghost nd = unshared(new_data@);
        let ghost (expired, v2, c2) = window_update_state(self.triple_index@, self.window(), nd, *last_ts);
        let ghost v0 = self.triple_index@;
        proof {
            lemma_expired_prefix(self.window().content, *last_ts as int);
        }
        let old_items = self.imars.remove_old_elements(last_ts);
        let mut i: usize = 0;
        assert(expired.take(0) =~= Seq::<(i32, Triple)>::empty());
        while i < old_items.len()
            invariant
                i <= old_items@.len(),
                unshared(old_items@) == expired,
                v0.counter >= expired.len(),
                self.triple_index@ == remove_items(v0, expired.take(i as int)),
                self.triple_index@.counter == v0.counter - i,
                self.wf(),
                self.rules_index@ == old(self).rules_index@,
                self.encoder@ == old(self).encoder@,
                self.window().content == old(self).window().content.skip(expired.len() as int),
                self.window().width == old(self).window().width,
                self.window().slide == old(self).window().slide,
                self.window().time == old(self).window().time,
                self.window().pending == old(self).window().pending,
            decreases old_items@.len() - i,
        {
            assert(expired[i as int].1 == *old_items@[i as int].1);
            self.triple_index.remove_ref(&old_items[i].1);
            proof {
                assert(expired.take(i + 1).drop_last() =~= expired.take(i as int));
            }
            i = i + 1;
        }
        assert(expired.take(expired.len() as int) =~= expired);
        let ghost v1 = self.triple_index@;
        let ghost c1 = self.window().content;
        let mut j: usize = 0;
        assert(nd.take(0) =~= Seq::<(i32, Triple)>::empty());
        while j < new_data.len()
            invariant
                j <= new_data@.len(),
                nd == unshared(new_data@),
                v1.counter + nd.len() < usize::MAX,
                forall|x: int| 0 <= x < nd.len() ==> storable(#[trigger] nd[x].1),
                self.triple_index@ == add_items(v1, nd.take(j as int)),
                self.triple_index@.counter == v1.counter + j,
                self.window().content == place_items(c1, nd.take(j as int)),
                self.wf(),
                self.rules_index@ == old(self).rules_index@,
                self.encoder@ == old(self).encoder@,
                self.window().width == old(self).window().width,
                self.window().slide == old(self).window().slide,
                self.window().time == old(self).window().time,
                self.window().pending == old(self).window().pending,
                vstd::laws_eq::obeys_concrete_eq::<Triple>(),
            decreases new_data@.len() - j,
        {
            let ts = new_data[j].0;
            let triple = share(&new_data[j].1);
            assert(nd[j as int] == (ts, *triple));
            self.imars.add_without_update(share(&triple), ts);
            self.add_ref(triple);
            proof {
                assert(nd.take(j + 1).drop_last() =~= nd.take(j as int));
                assert(nd.take(j + 1).last() == nd[j as int]);
            }
            j = j + 1;
        }
        assert(nd.take(nd.len() as int) =~= nd);
        self.window_reasoner.materialize(&new_data, &mut self.triple_index, &self.rules_index, &mut self.imars, &self.encoder);
    }
}

} // verus!
