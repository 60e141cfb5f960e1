//! Stream-to-relation windows in the style of C-SPARQL: timestamped items
//! fall into sliding time windows, and a report policy decides when the
//! content of a window is handed on.
//!
//! The content of a window is a set of items, compared by the items' `==`;
//! it is kept as the sequence of its distinct items in order of arrival. What
//! is said of contents holds, over the items' deep views, for item types
//! whose `==` compares deep views and whose `clone` keeps them
//! (`well_behaved`), such as `WindowTriple`.
use vstd::prelude::*;
use std::fmt::Debug;
use std::hash::Hash;
use std::sync::mpsc::{Receiver, Sender};
use vstd::laws_eq::obeys_deep_eq;
use vstd::std_specs::iter::IteratorSpec;
use crate::rsp::{contains_item, clones_of, deep_seq, clone_keeps_deep_view, lemma_eq_in_deep};

verus! {

/// The item types for which contents behave as sets of values: `==` is
/// equality of deep views and a clone has the deep view of the item it copies.
pub open spec fn well_behaved<I: Clone + PartialEq + DeepView>() -> bool {
    &&& obeys_deep_eq::<I>()
    &&& clone_keeps_deep_view::<I>()
}

/// When the content of a window is reported: when it is not empty, when it
/// changed since the last evaluation, when the window has closed, or at
/// instants that are multiples of a period.
#[derive(Debug, Clone, Copy, PartialEq, Eq, Structural)]
pub enum ReportStrategy {
    NonEmptyContent,
    OnContentChange,
    OnWindowClose,
    Periodic(usize),
}

impl Default for ReportStrategy {
    fn default() -> (res: Self)
        ensures
            res == ReportStrategy::OnWindowClose,
    {
        ReportStrategy::OnWindowClose
    }
}

/// What drives the window forward: time, single items, or batches.
#[derive(Debug, Clone, Copy, PartialEq, Eq, Structural)]
pub enum Tick {
    TimeDriven,
    TupleDriven,
    BatchDriven,
}

impl Default for Tick {
    fn default() -> (res: Self)
        ensures
            res == Tick::TimeDriven,
    {
        Tick::TimeDriven
    }
}

/// A time window `[open, close]`.
#[derive(Debug, Clone, Copy, PartialEq, Eq, Hash, Structural)]
pub struct Window {
    pub open: usize,
    pub close: usize,
}

/// The content of a window: its items and the instant of its last change.
#[derive(Debug)]
pub struct ContentContainer<I> {
    elements: Vec<I>,
    last_timestamp_changed: usize,
}

/// A content seen as the sequence of its items and its last change.
pub struct ContentView<I> {
    pub elements: Seq<I>,
    pub last_timestamp_changed: usize,
}

impl<I> View for ContentContainer<I> {
    type V = ContentView<I>;

    closed spec fn view(&self) -> ContentView<I> {
        ContentView { elements: self.elements@, last_timestamp_changed: self.last_timestamp_changed }
    }
}

/// A content with each item taken by its deep view.
pub open spec fn content_deep<I: DeepView>(c: ContentView<I>) -> ContentView<I::V> {
    ContentView { elements: deep_seq(c.elements), last_timestamp_changed: c.last_timestamp_changed }
}

/// Clones of the items of a content have their deep views.
proof fn lemma_clones_deep<I: Clone + DeepView>(a: Seq<I>, b: Seq<I>)
    requires
        clone_keeps_deep_view::<I>(),
        clones_of(a, b),
    ensures
        deep_seq(a) == deep_seq(b),
{
    assert forall|k: int| 0 <= k < a.len() implies deep_seq(a)[k] == deep_seq(b)[k] by {
        assert(cloned::<I>(a[k], b[k]));
    }
    assert(deep_seq(a) =~= deep_seq(b));
}

/// The empty content.
pub open spec fn empty_content<I>() -> ContentView<I> {
    ContentView { elements: seq![], last_timestamp_changed: 0 }
}

/// The content after `item` arrived at `ts`: the item joins it unless it is
/// already there, and the last change is `ts`.
pub open spec fn content_add<I>(c: ContentView<I>, item: I, ts: usize) -> ContentView<I> {
    ContentView {
        elements: if c.elements.contains(item) { c.elements } else { c.elements.push(item) },
        last_timestamp_changed: ts,
    }
}

/// Two contents are equal when they hold the same items and changed last at
/// the same instant.
pub open spec fn content_eq<I>(a: ContentView<I>, b: ContentView<I>) -> bool {
    a.elements.to_set() == b.elements.to_set() && a.last_timestamp_changed == b.last_timestamp_changed
}

impl<I: Clone> Clone for ContentContainer<I> {
    fn clone(&self) -> (res: Self)
        ensures
            res@.last_timestamp_changed == self@.last_timestamp_changed,
            clones_of(self@.elements, res@.elements),
    {
        let mut elements: Vec<I> = Vec::new();
        let mut i: usize = 0;
        while i < self.elements.len()
            invariant
                i <= self.elements@.len(),
                clones_of(self.elements@.subrange(0, i as int), elements@),
            decreases self.elements@.len() - i,
        {
            let c = self.elements[i].clone();
            elements.push(c);
            i = i + 1;
        }
        assert(self.elements@.subrange(0, self.elements@.len() as int) =~= self.elements@);
        ContentContainer { elements, last_timestamp_changed: self.last_timestamp_changed }
    }
}

impl<I: Clone + PartialEq + DeepView> ContentContainer<I> {
    /// Each item is held once.
    pub closed spec fn wf(&self) -> bool {
        well_behaved::<I>() ==> deep_seq(self.elements@).no_duplicates()
    }

    fn new() -> (res: ContentContainer<I>)
        ensures
            res@ == empty_content::<I>(),
            res.wf(),
    {
        let res = ContentContainer { elements: Vec::new(), last_timestamp_changed: 0 };
        assert(deep_seq(res.elements@) =~= Seq::<I::V>::empty());
        res
    }

    /// The number of items.
    fn len(&self) -> (res: usize)
        ensures
            res == self@.elements.len(),
    {
        self.elements.len()
    }

    /// Adds an item that arrived at `ts` (see `content_add`).
    fn add(&mut self, triple: I, ts: usize)
        requires
            old(self).wf(),
        ensures
            final(self).wf(),
            final(self)@.last_timestamp_changed == ts,
            well_behaved::<I>() ==> content_deep(final(self)@) == content_add(
                content_deep(old(self)@),
                triple.deep_view(),
                ts,
            ),
    {
        let ghost e0 = self.elements@;
        proof {
            if well_behaved::<I>() {
                lemma_eq_in_deep(e0, triple);
            }
        }
        if !contains_item(&self.elements, &triple) {
            self.elements.push(triple);
            proof {
                assert(deep_seq(self.elements@) =~= deep_seq(e0).push(triple.deep_view()));
                if well_behaved::<I>() {
                    let s = deep_seq(self.elements@);
                    assert forall|i: int, j: int| 0 <= i < j < s.len() implies s[i] != s[j] by {
                        if j == s.len() - 1 {
                            assert(deep_seq(e0).contains(s[i]));
                        }
                    }
                }
            }
        }
        self.last_timestamp_changed = ts;
    }

    /// Whether both contents hold the same items and changed last at the
    /// same instant.
    fn same_as(&self, other: &ContentContainer<I>) -> (res: bool)
        requires
            self.wf(),
            other.wf(),
        ensures
            well_behaved::<I>() ==> res == content_eq(content_deep(self@), content_deep(other@)),
    {
        let ghost a = deep_seq(self.elements@);
        let ghost b = deep_seq(other.elements@);
        if self.last_timestamp_changed != other.last_timestamp_changed {
            return false;
        }
        if self.elements.len() != other.elements.len() {
            proof {
                if well_behaved::<I>() {
                    a.unique_seq_to_set();
                    b.unique_seq_to_set();
                }
            }
            return false;
        }
        let mut i: usize = 0;
        while i < self.elements.len()
            invariant
                i <= self.elements@.len(),
                a == deep_seq(self.elements@),
                b == deep_seq(other.elements@),
                well_behaved::<I>() ==> forall|k: int| 0 <= k < i ==> b.contains(#[trigger] a[k]),
            decreases self.elements@.len() - i,
        {
            proof {
                if well_behaved::<I>() {
                    lemma_eq_in_deep(other.elements@, self.elements@[i as int]);
                }
            }
            if !contains_item(&other.elements, &self.elements[i]) {
                proof {
                    if well_behaved::<I>() {
                        assert(a.to_set().contains(a[i as int]));
                    }
                }
                return false;
            }
            i = i + 1;
        }
        proof {
            if well_behaved::<I>() {
                let sa = a.to_set();
                let sb = b.to_set();
                assert(sa.subset_of(sb)) by {
                    assert forall|x: I::V| sa.contains(x) implies sb.contains(x) by {
                        let k = choose|k: int| 0 <= k < a.len() && a[k] == x;
                    }
                }
                a.unique_seq_to_set();
                b.unique_seq_to_set();
                vstd::seq_lib::seq_to_set_is_finite(b);
                vstd::set_lib::lemma_subset_equality(sa, sb);
            }
        }
        true
    }

    /// The instant at which the content last changed.
    pub fn get_last_timestamp_changed(&self) -> (res: usize)
        ensures
            res == self@.last_timestamp_changed,
    {
        self.last_timestamp_changed
    }

    /// The items, in order of arrival.
    pub fn iter(&self) -> (res: std::slice::Iter<'_, I>)
        ensures
            IteratorSpec::remaining(&res) == self@.elements.map_values(|x: I| &x),
    {
        self.elements.iter()
    }

    /// The items, in order of arrival, as a vector.
    pub fn into_elements(self) -> (res: Vec<I>)
        ensures
            res@ == self@.elements,
    {
        self.elements
    }

    /// The items, in order of arrival, by value.
    pub fn into_iter(self) -> (res: std::vec::IntoIter<I>)
        ensures
            IteratorSpec::remaining(&res) == self@.elements,
    {
        self.elements.into_iter()
    }
}


/// The strategies of a report and the content it compared last.
pub struct Report<I> {
    strategies: Vec<ReportStrategy>,
    last_change: ContentContainer<I>,
}

/// A report seen as its strategies and the content it remembers.
pub struct ReportView<I> {
    pub strategies: Seq<ReportStrategy>,
    pub last_change: ContentView<I>,
}

impl<I> View for Report<I> {
    type V = ReportView<I>;

    closed spec fn view(&self) -> ReportView<I> {
        ReportView { strategies: self.strategies@, last_change: self.last_change@ }
    }
}

/// Evaluating the strategies `ss` in order for window `w` with content `c`
/// at `ts`, stopping at the first that does not hold: whether all held, and
/// the content remembered afterwards (`OnContentChange` compares with the
/// remembered content and then remembers `c`). `None` when a `Periodic(0)`
/// is reached.
pub open spec fn report_spec<I>(
    ss: Seq<ReportStrategy>,
    last: ContentView<I>,
    w: Window,
    c: ContentView<I>,
    ts: usize,
) -> Option<(bool, ContentView<I>)>
    decreases ss.len(),
{
    if ss.len() == 0 {
        Some((true, last))
    } else {
        match ss[0] {
            ReportStrategy::NonEmptyContent => if c.elements.len() > 0 {
                report_spec(ss.drop_first(), last, w, c, ts)
            } else {
                Some((false, last))
            },
            ReportStrategy::OnContentChange => if content_eq(c, last) {
                report_spec(ss.drop_first(), c, w, c, ts)
            } else {
                Some((false, c))
            },
            ReportStrategy::OnWindowClose => if w.close < ts {
                report_spec(ss.drop_first(), last, w, c, ts)
            } else {
                Some((false, last))
            },
            ReportStrategy::Periodic(p) => if p == 0 {
                None
            } else if ts % p == 0 {
                report_spec(ss.drop_first(), last, w, c, ts)
            } else {
                Some((false, last))
            },
        }
    }
}

/// Whether evaluating `ss` can reach a `Periodic(0)`, whatever the content
/// comparisons give.
pub open spec fn zero_period_reachable<I>(ss: Seq<ReportStrategy>, w: Window, c: ContentView<I>, ts: usize) -> bool
    decreases ss.len(),
{
    if ss.len() == 0 {
        false
    } else {
        match ss[0] {
            ReportStrategy::NonEmptyContent => c.elements.len() > 0 && zero_period_reachable(
                ss.drop_first(),
                w,
                c,
                ts,
            ),
            ReportStrategy::OnContentChange => zero_period_reachable(ss.drop_first(), w, c, ts),
            ReportStrategy::OnWindowClose => w.close < ts && zero_period_reachable(ss.drop_first(), w, c, ts),
            ReportStrategy::Periodic(p) => p == 0 || (ts % p == 0 && zero_period_reachable(
                ss.drop_first(),
                w,
                c,
                ts,
            )),
        }
    }
}

proof fn lemma_report_defined<I>(ss: Seq<ReportStrategy>, last: ContentView<I>, w: Window, c: ContentView<I>, ts: usize)
    requires
        !zero_period_reachable(ss, w, c, ts),
    ensures
        report_spec(ss, last, w, c, ts) is Some,
    decreases ss.len(),
{
    if ss.len() > 0 {
        match ss[0] {
            ReportStrategy::NonEmptyContent => if c.elements.len() > 0 {
                lemma_report_defined(ss.drop_first(), last, w, c, ts);
            },
            ReportStrategy::OnContentChange => {
                lemma_report_defined(ss.drop_first(), c, w, c, ts);
            },
            ReportStrategy::OnWindowClose => if w.close < ts {
                lemma_report_defined(ss.drop_first(), last, w, c, ts);
            },
            ReportStrategy::Periodic(p) => if ts % p == 0 {
                lemma_report_defined(ss.drop_first(), last, w, c, ts);
            },
        }
    }
}

/// No strategy of `ss` compares contents.
pub open spec fn no_content_change(ss: Seq<ReportStrategy>) -> bool {
    forall|i: int| 0 <= i < ss.len() ==> !((#[trigger] ss[i]) is OnContentChange)
}

/// Whether strategy `s`, which does not compare contents, holds for window
/// `w` with content `c` at `ts`.
pub open spec fn strategy_holds<I>(s: ReportStrategy, w: Window, c: ContentView<I>, ts: usize) -> bool {
    match s {
        ReportStrategy::NonEmptyContent => c.elements.len() > 0,
        ReportStrategy::OnWindowClose => w.close < ts,
        ReportStrategy::Periodic(p) => p != 0 && ts % p == 0,
        ReportStrategy::OnContentChange => true,
    }
}

/// With strategies that do not compare contents and no zero period, a
/// report holds exactly when every strategy holds; so adding a strategy
/// gives the old answer and the new strategy's.
pub proof fn law_report_all<I>(ss: Seq<ReportStrategy>, last: ContentView<I>, w: Window, c: ContentView<I>, ts: usize)
    requires
        no_content_change(ss),
        forall|i: int| 0 <= i < ss.len() ==> !((#[trigger] ss[i]) matches ReportStrategy::Periodic(0)),
    ensures
        report_spec(ss, last, w, c, ts) == Some(
            ((forall|i: int| 0 <= i < ss.len() ==> strategy_holds(#[trigger] ss[i], w, c, ts)), last),
        ),
    decreases ss.len(),
{
    if ss.len() > 0 {
        let r = ss.drop_first();
        assert forall|i: int| 0 <= i < r.len() implies !((#[trigger] r[i]) is OnContentChange) by {
            assert(r[i] == ss[i + 1]);
        }
        assert forall|i: int| 0 <= i < r.len() implies !((#[trigger] r[i]) matches ReportStrategy::Periodic(0)) by {
            assert(r[i] == ss[i + 1]);
        }
        law_report_all(r, last, w, c, ts);
        assert(!(ss[0] is OnContentChange));
        assert(!(ss[0] matches ReportStrategy::Periodic(0)));
        if strategy_holds(ss[0], w, c, ts) {
            assert((forall|i: int| 0 <= i < ss.len() ==> strategy_holds(#[trigger] ss[i], w, c, ts)) == (forall|i: int|
                0 <= i < r.len() ==> strategy_holds(#[trigger] r[i], w, c, ts))) by {
                if forall|i: int| 0 <= i < r.len() ==> strategy_holds(#[trigger] r[i], w, c, ts) {
                    assert forall|i: int| 0 <= i < ss.len() implies strategy_holds(#[trigger] ss[i], w, c, ts) by {
                        if i > 0 {
                            assert(ss[i] == r[i - 1]);
                        }
                    }
                }
                if forall|i: int| 0 <= i < ss.len() ==> strategy_holds(#[trigger] ss[i], w, c, ts) {
                    assert forall|i: int| 0 <= i < r.len() implies strategy_holds(#[trigger] r[i], w, c, ts) by {
                        assert(r[i] == ss[i + 1]);
                    }
                }
            }
        } else {
            assert(!strategy_holds(ss[0], w, c, ts));
        }
    }
}

/// A report that starts out remembering the content it is given keeps
/// remembering it.
proof fn lemma_report_keeps_current<I>(ss: Seq<ReportStrategy>, w: Window, c: ContentView<I>, ts: usize)
    requires
        report_spec(ss, c, w, c, ts) is Some,
    ensures
        report_spec(ss, c, w, c, ts).unwrap().1 == c,
    decreases ss.len(),
{
    if ss.len() > 0 {
        assert(content_eq(c, c));
        if report_spec(ss, c, w, c, ts) == report_spec(ss.drop_first(), c, w, c, ts) {
            lemma_report_keeps_current(ss.drop_first(), w, c, ts);
        }
    }
}

/// Once a report reaches a strategy that compares contents (every strategy
/// before it held), it remembers the content just reported on, whether the
/// comparison found it changed or not.
pub proof fn law_report_remembers_content<I>(
    ss: Seq<ReportStrategy>,
    last: ContentView<I>,
    w: Window,
    c: ContentView<I>,
    ts: usize,
    p: int,
)
    requires
        0 <= p < ss.len(),
        ss[p] is OnContentChange,
        forall|i: int| 0 <= i < p ==> !((#[trigger] ss[i]) is OnContentChange) && strategy_holds(ss[i], w, c, ts),
        report_spec(ss, last, w, c, ts) is Some,
    ensures
        report_spec(ss, last, w, c, ts).unwrap().1 == c,
    decreases p,
{
    if p == 0 {
        if content_eq(c, last) {
            lemma_report_keeps_current(ss.drop_first(), w, c, ts);
        }
    } else {
        assert(!(ss[0] is OnContentChange) && strategy_holds(ss[0], w, c, ts));
        let r = ss.drop_first();
        assert forall|i: int| 0 <= i < p - 1 implies !((#[trigger] r[i]) is OnContentChange) && strategy_holds(r[i], w, c, ts) by {
            assert(r[i] == ss[i + 1]);
        }
        assert(report_spec(ss, last, w, c, ts) == report_spec(r, last, w, c, ts));
        law_report_remembers_content(r, last, w, c, ts, p - 1);
    }
}

/// A report on content changes, asked twice about the same content, finds
/// it unchanged the second time, whatever it remembered before the first.
pub proof fn law_report_same_content_twice<I>(last: ContentView<I>, w: Window, c: ContentView<I>, ts1: usize, ts2: usize)
    ensures
        report_spec(seq![ReportStrategy::OnContentChange], last, w, c, ts1) is Some,
        report_spec(
            seq![ReportStrategy::OnContentChange],
            report_spec(seq![ReportStrategy::OnContentChange], last, w, c, ts1).unwrap().1,
            w,
            c,
            ts2,
        ) == Some((true, c)),
{
    let ss = seq![ReportStrategy::OnContentChange];
    assert(ss[0] is OnContentChange);
    assert(ss.drop_first() =~= Seq::<ReportStrategy>::empty());
    assert(content_eq(c, c));
    reveal_with_fuel(report_spec, 2);
    assert(report_spec(ss, last, w, c, ts1) is Some);
    law_report_remembers_content(ss, last, w, c, ts1, 0);
    assert(report_spec(ss, c, w, c, ts2) == Some((true, c)));
}

/// Whether a period of 0 can be reached depends on a content only through
/// its number of items.
proof fn lemma_zero_period_deep<I: DeepView>(ss: Seq<ReportStrategy>, w: Window, c: ContentView<I>, ts: usize)
    ensures
        zero_period_reachable(ss, w, c, ts) == zero_period_reachable(ss, w, content_deep(c), ts),
    decreases ss.len(),
{
    if ss.len() > 0 {
        lemma_zero_period_deep(ss.drop_first(), w, c, ts);
    }
}

impl<I: Clone + PartialEq + DeepView> Report<I> {
    /// The remembered content holds each item once.
    pub closed spec fn wf(&self) -> bool {
        self.last_change.wf()
    }

    /// A report with no strategy, remembering the empty content.
    pub fn new() -> (res: Report<I>)
        ensures
            res.wf(),
            res@ == (ReportView::<I> { strategies: seq![], last_change: empty_content() }),
    {
        Report { strategies: Vec::new(), last_change: ContentContainer::new() }
    }

    /// Adds a strategy; a window is reported when all strategies hold.
    pub fn add(&mut self, strategy: ReportStrategy)
        ensures
            final(self).wf() == old(self).wf(),
            final(self)@.strategies == old(self)@.strategies.push(strategy),
            final(self)@.last_change == old(self)@.last_change,
    {
        self.strategies.push(strategy);
    }

    /// Whether window `window` with content `content` is reported at `ts`:
    /// whether all strategies hold, evaluated in order up to the first that
    /// does not (see `report_spec`).
    pub fn report(&mut self, window: &Window, content: &ContentContainer<I>, ts: usize) -> (res: bool)
        requires
            old(self).wf(),
            content.wf(),
            !zero_period_reachable(old(self)@.strategies, *window, content@, ts),
        ensures
            final(self).wf(),
            final(self)@.strategies == old(self)@.strategies,
            well_behaved::<I>() ==> (res, content_deep(final(self)@.last_change)) == report_spec(
                old(self)@.strategies,
                content_deep(old(self)@.last_change),
                *window,
                content_deep(content@),
                ts,
            ).unwrap(),
            no_content_change(old(self)@.strategies) ==> res == report_spec(
                old(self)@.strategies,
                old(self)@.last_change,
                *window,
                content@,
                ts,
            ).unwrap().0 && final(self)@.last_change == old(self)@.last_change,
    {
        let ghost ss = self.strategies@;
        let ghost last0 = self.last_change@;
        let ghost cd = content_deep(content@);
        let mut i: usize = 0;
        assert(ss.subrange(0, ss.len() as int) =~= ss);
        proof {
            lemma_zero_period_deep(ss, *window, content@, ts);
            lemma_report_defined(ss, content_deep(last0), *window, cd, ts);
        }
        while i < self.strategies.len()
            invariant
                ss == self.strategies@,
                ss == old(self)@.strategies,
                last0 == old(self)@.last_change,
                i <= ss.len(),
                self.wf(),
                content.wf(),
                !zero_period_reachable(ss.subrange(i as int, ss.len() as int), *window, content@, ts),
                cd == content_deep(content@),
                well_behaved::<I>() ==> report_spec(ss, content_deep(last0), *window, cd, ts) == report_spec(
                    ss.subrange(i as int, ss.len() as int),
                    content_deep(self.last_change@),
                    *window,
                    cd,
                    ts,
                ),
                no_content_change(ss) ==> self.last_change@ == last0 && report_spec(ss, last0, *window, content@, ts)
                    == report_spec(ss.subrange(i as int, ss.len() as int), last0, *window, content@, ts),
            decreases ss.len() - i,
        {
            let ghost rest = ss.subrange(i as int, ss.len() as int);
            proof {
                assert(rest[0] == ss[i as int]);
                assert(rest.drop_first() =~= ss.subrange(i + 1, ss.len() as int));
            }
            let ghost last_before = self.last_change@;
            let holds = match self.strategies[i] {
                ReportStrategy::NonEmptyContent => content.len() > 0,
                ReportStrategy::OnContentChange => {
                    let comp = content.same_as(&self.last_change);
                    self.last_change = content.clone();
                    proof {
                        if well_behaved::<I>() {
                            lemma_clones_deep(content@.elements, self.last_change@.elements);
                        }
                    }
                    comp
                },
                ReportStrategy::OnWindowClose => window.close < ts,
                ReportStrategy::Periodic(period) => ts % period == 0,
            };
            proof {
                if no_content_change(ss) {
                    assert(!(ss[i as int] is OnContentChange));
                    if holds {
                        assert(report_spec(rest, last0, *window, content@, ts) == report_spec(
                            rest.drop_first(),
                            last0,
                            *window,
                            content@,
                            ts,
                        ));
                    } else {
                        assert(report_spec(rest, last0, *window, content@, ts) == Some((false, last0)));
                    }
                }
                if well_behaved::<I>() {
                    if holds {
                        assert(report_spec(rest, content_deep(last_before), *window, cd, ts) == report_spec(
                            rest.drop_first(),
                            content_deep(self.last_change@),
                            *window,
                            cd,
                            ts,
                        ));
                    } else {
                        assert(report_spec(rest, content_deep(last_before), *window, cd, ts) == Some(
                            (false, content_deep(self.last_change@)),
                        ));
                    }
                }
            }
            if !holds {
                return false;
            }
            i = i + 1;
        }
        true
    }
}

/// The distance between two instants.
pub open spec fn time_distance(a: usize, b: usize) -> int {
    if a >= b {
        a - b
    } else {
        b - a
    }
}

/// The close of the first window considered for an item at `ts`: the
/// distance from `t_0` rounded up to a multiple of `slide`.
pub open spec fn first_close(t_0: usize, slide: usize, ts: usize) -> int {
    ((time_distance(ts, t_0) + slide - 1) / (slide as int)) * slide
}

/// A time as a `usize`: negative times are 0 and times beyond the largest
/// `usize` are the largest `usize`.
pub open spec fn clamp(x: int) -> usize {
    if x < 0 {
        0
    } else if x > usize::MAX {
        usize::MAX
    } else {
        x as usize
    }
}

/// The window that opens at `o`.
pub open spec fn window_at(o: int, width: usize) -> Window {
    Window { open: clamp(o), close: clamp(o + width) }
}

/// How many windows an item at `ts` makes sure of: the first one, opening
/// at `o0`, and then one more per slide while the opening is at most `ts`.
pub open spec fn scope_count(o0: int, slide: usize, ts: usize) -> int {
    if o0 > ts {
        1
    } else {
        (ts - o0) / (slide as int) + 1
    }
}

/// The windows that an item at `ts` makes sure of, in order: they open at
/// `first_close - width` and every `slide` after that.
pub open spec fn scope_windows(t_0: usize, width: usize, slide: usize, ts: usize) -> Seq<Window> {
    let o0 = first_close(t_0, slide, ts) - width;
    Seq::new(scope_count(o0, slide, ts) as nat, |k: int| window_at(o0 + k * slide, width))
}

/// The windows of a list of windows with contents.
pub open spec fn windows_of<I>(aw: Seq<(Window, ContentView<I>)>) -> Seq<Window> {
    aw.map_values(|p: (Window, ContentView<I>)| p.0)
}

/// The active windows with `w` added, with an empty content, when absent.
pub open spec fn insert_window<I>(aw: Seq<(Window, ContentView<I>)>, w: Window) -> Seq<(Window, ContentView<I>)> {
    if windows_of(aw).contains(w) {
        aw
    } else {
        aw.push((w, empty_content()))
    }
}

/// The active windows with each of `ws` added in order when absent.
pub open spec fn scope_insert<I>(aw: Seq<(Window, ContentView<I>)>, ws: Seq<Window>) -> Seq<(Window, ContentView<I>)>
    decreases ws.len(),
{
    if ws.len() == 0 {
        aw
    } else {
        insert_window(scope_insert(aw, ws.drop_last()), ws.last())
    }
}

/// Evaluating the report for the first `n` active windows in order: the
/// position of the reported window with the latest close (the later one on
/// a tie), and the content the report remembers afterwards.
pub open spec fn pick_spec<I>(
    aw: Seq<(Window, ContentView<I>)>,
    ss: Seq<ReportStrategy>,
    last: ContentView<I>,
    ts: usize,
    n: nat,
) -> Option<(Option<int>, ContentView<I>)>
    decreases n,
{
    if n == 0 {
        Some((None, last))
    } else {
        match pick_spec(aw, ss, last, ts, (n - 1) as nat) {
            None => None,
            Some((best, l)) => match report_spec(ss, l, aw[n - 1].0, aw[n - 1].1, ts) {
                None => None,
                Some((b, l2)) => Some(
                    (
                        if b && (best is None || aw[best->0].0.close <= aw[n - 1].0.close) {
                            Some(n - 1)
                        } else {
                            best
                        },
                        l2,
                    ),
                ),
            },
        }
    }
}

/// The windows that cover `ts`, each with `item` added to its content; the
/// others are dropped.
pub open spec fn keep_windows<I>(aw: Seq<(Window, ContentView<I>)>, item: I, ts: usize) -> Seq<(Window, ContentView<I>)>
    decreases aw.len(),
{
    if aw.len() == 0 {
        seq![]
    } else {
        let (w, c) = aw.last();
        if w.open <= ts && ts <= w.close {
            keep_windows(aw.drop_last(), item, ts).push((w, content_add(c, item, ts)))
        } else {
            keep_windows(aw.drop_last(), item, ts)
        }
    }
}

/// The active windows once an item arrived at `ts` made sure of its windows.
pub open spec fn scoped<I>(v: CSPARQLWindowView<I>, ts: usize) -> Seq<(Window, ContentView<I>)> {
    scope_insert(v.active_windows, scope_windows(v.t_0, v.width, v.slide, ts))
}

/// An item can be processed at `ts`: the slide is positive and no report
/// evaluation can reach a period of 0.
pub open spec fn can_process<I>(v: CSPARQLWindowView<I>, ts: usize) -> bool {
    &&& v.slide > 0
    &&& forall|i: int| 0 <= i < scoped(v, ts).len() ==> !zero_period_reachable(
        v.report.strategies,
        #[trigger] scoped(v, ts)[i].0,
        scoped(v, ts)[i].1,
        ts,
    )
}

/// The state after `item` arrived at `ts`, and the content handed on, if any:
/// the windows of the item are made sure of; the report picks, among the
/// windows it reports, the one with the latest close; when the operator is
/// time driven and `ts` is later than the last hand-on, that window's content
/// (as it was before the item) is handed on and `ts` becomes the last
/// hand-on; finally the windows that cover `ts` get the item and the others
/// are dropped.
pub open spec fn process_spec<I>(v: CSPARQLWindowView<I>, item: I, ts: usize) -> (CSPARQLWindowView<I>, Option<ContentView<I>>) {
    let aw = scoped(v, ts);
    let pk = pick_spec(aw, v.report.strategies, v.report.last_change, ts, aw.len()).unwrap();
    let out = match pk.0 {
        Some(i) => if v.tick == Tick::TimeDriven && ts > v.app_time {
            Some(aw[i].1)
        } else {
            None
        },
        None => None,
    };
    (
        CSPARQLWindowView {
            active_windows: keep_windows(aw, item, ts),
            report: ReportView { strategies: v.report.strategies, last_change: pk.1 },
            app_time: if out is Some { ts } else { v.app_time },
            ..v
        },
        out,
    )
}

/// A sliding time window over timestamped items: windows of `width` open
/// every `slide` time units (counted from `t_0`); an item joins every window
/// that covers its time, and the report decides which window's content is
/// handed on to the registered channel and callback.
#[verifier::reject_recursive_types(I)]
pub struct CSPARQLWindow<I> {
    width: usize,
    slide: usize,
    t_0: usize,
    active_windows: Vec<(Window, ContentContainer<I>)>,
    report: Report<I>,
    tick: Tick,
    app_time: usize,
    consumer: Option<Sender<ContentContainer<I>>>,
    call_back: Option<Box<dyn ContentConsumer<I>>>,
}

/// A window operator seen as its parameters, its active windows with their
/// contents (in order of creation), its report, the last instant at which it
/// handed a content on, and whether a channel and a callback are registered.
pub struct CSPARQLWindowView<I> {
    pub width: usize,
    pub slide: usize,
    pub t_0: usize,
    pub active_windows: Seq<(Window, ContentView<I>)>,
    pub report: ReportView<I>,
    pub tick: Tick,
    pub app_time: usize,
    pub has_consumer: bool,
    pub has_call_back: bool,
}

impl<I> View for CSPARQLWindow<I> {
    type V = CSPARQLWindowView<I>;

    closed spec fn view(&self) -> CSPARQLWindowView<I> {
        CSPARQLWindowView {
            width: self.width,
            slide: self.slide,
            t_0: self.t_0,
            active_windows: self.active_windows@.map_values(|p: (Window, ContentContainer<I>)| (p.0, p.1@)),
            report: self.report@,
            tick: self.tick,
            app_time: self.app_time,
            has_consumer: self.consumer is Some,
            has_call_back: self.call_back is Some,
        }
    }
}

/// A report with the remembered content taken by deep views.
pub open spec fn report_deep<I: DeepView>(r: ReportView<I>) -> ReportView<I::V> {
    ReportView { strategies: r.strategies, last_change: content_deep(r.last_change) }
}

/// Windows with their contents taken by deep views.
pub open spec fn windows_deep<I: DeepView>(aw: Seq<(Window, ContentView<I>)>) -> Seq<(Window, ContentView<I::V>)> {
    aw.map_values(|p: (Window, ContentView<I>)| (p.0, content_deep(p.1)))
}

/// A window operator with every content taken by deep views.
pub open spec fn window_deep<I: DeepView>(v: CSPARQLWindowView<I>) -> CSPARQLWindowView<I::V> {
    CSPARQLWindowView {
        width: v.width,
        slide: v.slide,
        t_0: v.t_0,
        active_windows: windows_deep(v.active_windows),
        report: report_deep(v.report),
        tick: v.tick,
        app_time: v.app_time,
        has_consumer: v.has_consumer,
        has_call_back: v.has_call_back,
    }
}

/// The deep view of a content, if any.
pub open spec fn opt_deep<I: DeepView>(o: Option<ContentContainer<I>>) -> Option<ContentView<I::V>> {
    match o {
        Some(c) => Some(content_deep(c@)),
        None => None,
    }
}

/// Making sure of windows does not look at contents.
proof fn lemma_scope_insert_deep<I: DeepView>(aw: Seq<(Window, ContentView<I>)>, ws: Seq<Window>)
    ensures
        windows_deep(scope_insert(aw, ws)) == scope_insert(windows_deep(aw), ws),
    decreases ws.len(),
{
    if ws.len() > 0 {
        lemma_scope_insert_deep(aw, ws.drop_last());
        let a = scope_insert(aw, ws.drop_last());
        assert(windows_of(windows_deep(a)) =~= windows_of(a));
        assert(deep_seq(Seq::<I>::empty()) =~= Seq::<I::V>::empty());
        if !windows_of(a).contains(ws.last()) {
            assert(windows_deep(a.push((ws.last(), empty_content()))) =~= windows_deep(a).push(
                (ws.last(), empty_content()),
            ));
        }
    }
}

/// The sending end of a channel (`std::sync::mpsc::Sender`).
#[verifier::external_type_specification]
#[verifier::external_body]
#[verifier::reject_recursive_types(T)]
pub struct ExSender<T>(Sender<T>);

/// The receiving end of a channel (`std::sync::mpsc::Receiver`).
#[verifier::external_type_specification]
#[verifier::external_body]
#[verifier::reject_recursive_types(T)]
pub struct ExReceiver<T>(Receiver<T>);

/// Creates a channel (`std::sync::mpsc::channel`).
#[verifier::external_body]
fn new_channel<T>() -> (Sender<T>, Receiver<T>) {
    std::sync::mpsc::channel()
}

/// Sends an item on a channel (`Sender::send`); a send to a closed channel
/// is dropped.
#[verifier::external_body]
fn send_item<T>(sender: &Sender<T>, item: T) {
    let _ = sender.send(item);
}

/// What a window hands reported contents to.
pub trait ContentConsumer<I> {
    /// Whether the consumer can take `content`.
    spec fn accepts(&self, content: ContentContainer<I>) -> bool;

    fn consume(&mut self, content: ContentContainer<I>)
        requires
            old(self).accepts(content),
    ;
}

/// Calls a closure with an item (`FnMut::call_mut`). Claims only that the
/// call took place: the closure's postcondition holds of the item. What a
/// closure changes in what it captured is left unsaid.
#[verifier::external_body]
fn call_closure<T, F: FnMut(T)>(f: &mut F, item: T)
    requires
        call_requires(*old(f), (item,)),
    ensures
        call_ensures(*old(f), (item,), ()),
{
    f(item)
}

/// A closure over contents consumes them by being called.
impl<I, F: FnMut(ContentContainer<I>)> ContentConsumer<I> for F {
    /// A closure takes what its own precondition admits.
    open spec fn accepts(&self, content: ContentContainer<I>) -> bool {
        call_requires(*self, (content,))
    }

    fn consume(&mut self, content: ContentContainer<I>)
        ensures
            call_ensures(*old(self), (content,), ()),
    {
        call_closure(self, content)
    }
}

/// A time as a `usize` (see `clamp`).
fn clamp_exec(x: i128) -> (res: usize)
    ensures
        res == clamp(x as int),
{
    if x < 0 {
        0
    } else if x > usize::MAX as i128 {
        usize::MAX
    } else {
        x as usize
    }
}

/// The window that opens at `o`.
fn make_window(o: i128, width: usize) -> (res: Window)
    requires
        -0x1_0000_0000_0000_0000_0000 < o < 0x1_0000_0000_0000_0000_0000,
    ensures
        res == window_at(o as int, width),
{
    Window { open: clamp_exec(o), close: clamp_exec(o + width as i128) }
}

/// `a / s` is `k` when `a` lies between `k * s` and `(k + 1) * s`.
proof fn lemma_div_between(a: int, s: int, k: int)
    requires
        s > 0,
        k >= 0,
        k * s <= a < (k + 1) * s,
    ensures
        a / s == k,
{
    assert((k + 1) * s == k * s + s) by (nonlinear_arith);
    vstd::arithmetic::div_mod::lemma_fundamental_div_mod_converse(a, s, k, a - k * s);
}

/// The first positions of `best`, as an integer.
pub open spec fn opt_int(o: Option<usize>) -> Option<int> {
    match o {
        Some(i) => Some(i as int),
        None => None,
    }
}

/// The view of a content, if any.
pub open spec fn opt_view<I>(o: Option<ContentContainer<I>>) -> Option<ContentView<I>> {
    match o {
        Some(c) => Some(c@),
        None => None,
    }
}

/// The views of windows with their contents.
pub open spec fn pair_views<I>(s: Seq<(Window, ContentContainer<I>)>) -> Seq<(Window, ContentView<I>)> {
    s.map_values(|p: (Window, ContentContainer<I>)| (p.0, p.1@))
}

impl<I: Clone + PartialEq + DeepView> CSPARQLWindow<I> {
    /// The report and every content hold each item once.
    pub closed spec fn wf(&self) -> bool {
        &&& self.report.wf()
        &&& forall|i: int| 0 <= i < self.active_windows@.len() ==> (#[trigger] self.active_windows@[i]).1.wf()
    }

    /// A window operator with no active window, starting at time 0, with no
    /// channel and no callback.
    pub fn new(width: usize, slide: usize, report: Report<I>, tick: Tick) -> (res: CSPARQLWindow<I>)
        requires
            report.wf(),
        ensures
            res.wf(),
            res@ == (CSPARQLWindowView::<I> {
                width,
                slide,
                t_0: 0,
                active_windows: seq![],
                report: report@,
                tick,
                app_time: 0,
                has_consumer: false,
                has_call_back: false,
            }),
            res.callback_accepts(),
    {
        let res = CSPARQLWindow {
            slide,
            width,
            t_0: 0,
            app_time: 0,
            report,
            consumer: None,
            active_windows: Vec::new(),
            tick,
            call_back: None,
        };
        assert(res@.active_windows =~= seq![]);
        res
    }

    /// Registers a channel on which reported contents are sent, and returns
    /// its receiving end; a channel registered before is dropped.
    pub fn register(&mut self) -> (res: Receiver<ContentContainer<I>>)
        ensures
            final(self).wf() == old(self).wf(),
            final(self)@ == (CSPARQLWindowView::<I> { has_consumer: true, ..old(self)@ }),
            final(self).callback_accepts() == old(self).callback_accepts(),
    {
        let (send, recv) = new_channel::<ContentContainer<I>>();
        self.consumer = Some(send);
        recv
    }

    /// The registered callback, if any, takes every content.
    pub closed spec fn callback_accepts(&self) -> bool {
        match self.call_back {
            Some(cb) => forall|c: ContentContainer<I>| #[trigger] cb.accepts(c),
            None => true,
        }
    }

    /// Registers the callback that reported contents are handed to.
    pub fn register_callback(&mut self, function: Box<dyn ContentConsumer<I>>)
        ensures
            final(self).wf() == old(self).wf(),
            final(self)@ == (CSPARQLWindowView::<I> { has_call_back: true, ..old(self)@ }),
            final(self).callback_accepts() == forall|c: ContentContainer<I>| #[trigger] function.accepts(c),
    {
        let ghost f = function;
        self.call_back = Some(function);
        assert forall|c: ContentContainer<I>| #[trigger] f.accepts(c) == self.call_back.unwrap().accepts(c) by {}
    }

    /// Adds the window `w`, with an empty content, when it is not active.
    fn ensure_window(&mut self, w: Window)
        requires
            old(self).wf(),
        ensures
            final(self).callback_accepts() == old(self).callback_accepts(),
            final(self).wf(),
            final(self)@ == (CSPARQLWindowView::<I> {
                active_windows: insert_window(old(self)@.active_windows, w),
                ..old(self)@
            }),
    {
        let ghost aw = self@.active_windows;
        let mut i: usize = 0;
        let mut found = false;
        while i < self.active_windows.len()
            invariant
                i <= self.active_windows@.len(),
                aw == self@.active_windows,
                aw.len() == self.active_windows@.len(),
                found == windows_of(aw).take(i as int).contains(w),
            decreases self.active_windows@.len() - i,
        {
            proof {
                broadcast use vstd::seq_lib::group_seq_properties;
                assert(windows_of(aw).take(i + 1) =~= windows_of(aw).take(i as int).push(aw[i as int].0));
                assert(aw[i as int].0 == self.active_windows@[i as int].0);
            }
            if self.active_windows[i].0 == w {
                found = true;
            }
            proof {
                broadcast use vstd::seq_lib::group_seq_properties;
            }
            i = i + 1;
        }
        assert(windows_of(aw).take(aw.len() as int) =~= windows_of(aw));
        if !found {
            self.active_windows.push((w, ContentContainer::new()));
            assert(self@.active_windows =~= aw.push((w, empty_content())));
        }
    }

    /// Makes sure that the windows of an item at `event_time` are active (see
    /// `scope_windows`).
    fn scope(&mut self, event_time: usize)
        requires
            old(self).wf(),
            old(self)@.slide > 0,
        ensures
            final(self).callback_accepts() == old(self).callback_accepts(),
            final(self).wf(),
            final(self)@ == (CSPARQLWindowView::<I> { active_windows: scoped(old(self)@, event_time), ..old(self)@ }),
    {
        let ghost v0 = self@;
        let ghost ws = scope_windows(self.t_0, self.width, self.slide, event_time);
        let d: u128 = if event_time >= self.t_0 {
            (event_time - self.t_0) as u128
        } else {
            (self.t_0 - event_time) as u128
        };
        let s: u128 = self.slide as u128;
        let x: u128 = d + s - 1;
        proof {
            assert((x / s) * s <= x) by (nonlinear_arith)
                requires
                    s > 0,
            ;
        }
        let c_sup: u128 = (x / s) * s;
        let o0: i128 = c_sup as i128 - self.width as i128;
        let ghost go0: int = first_close(v0.t_0, v0.slide, event_time) - v0.width;
        assert(o0 == go0);
        let mut o: i128 = o0;
        let ghost mut k: int = 0;
        let w = make_window(o, self.width);
        proof {
            if go0 <= event_time {
                assert((event_time - go0) / (v0.slide as int) >= 0) by (nonlinear_arith)
                    requires
                        event_time - go0 >= 0,
                        v0.slide > 0,
                ;
            }
            assert(ws[0] == w);
            assert(ws.take(1).drop_last() =~= Seq::<Window>::empty());
        }
        self.ensure_window(w);
        proof {
            reveal_with_fuel(scope_insert, 2);
            assert(ws.take(1).last() == w);
            assert(scope_insert(v0.active_windows, ws.take(1)) == insert_window(v0.active_windows, w));
        }
        while o + (self.slide as i128) <= event_time as i128
            invariant
                self.callback_accepts() == old(self).callback_accepts(),
                self.wf(),
                self@ == (CSPARQLWindowView::<I> { active_windows: self@.active_windows, ..v0 }),
                ws == scope_windows(v0.t_0, v0.width, v0.slide, event_time),
                go0 == first_close(v0.t_0, v0.slide, event_time) - v0.width,
                v0.slide > 0,
                0 <= k,
                o == go0 + k * v0.slide,
                k > 0 ==> o <= event_time,
                -0x1_0000_0000_0000_0000 <= go0 < 0x4_0000_0000_0000_0000,
                k + 1 <= ws.len(),
                self@.active_windows == scope_insert(v0.active_windows, ws.take(k + 1)),
            decreases event_time - o,
        {
            let ghost prev = self@.active_windows;
            o = o + self.slide as i128;
            proof {
                assert(go0 + (k + 1) * v0.slide == go0 + k * v0.slide + v0.slide) by (nonlinear_arith);
                k = k + 1;
                assert(go0 <= event_time) by (nonlinear_arith)
                    requires
                        o == go0 + k * v0.slide,
                        o <= event_time,
                        k > 0,
                        v0.slide > 0,
                ;
                assert((event_time - go0) / (v0.slide as int) >= k) by {
                    let q = (event_time - go0) / (v0.slide as int);
                    vstd::arithmetic::div_mod::lemma_fundamental_div_mod(event_time - go0, v0.slide as int);
                    assert(event_time - go0 == v0.slide * q + (event_time - go0) % (v0.slide as int));
                    if q < k {
                        assert(v0.slide * q + v0.slide <= k * v0.slide) by (nonlinear_arith)
                            requires
                                q < k,
                                v0.slide > 0,
                        ;
                    }
                }
            }
            let w = make_window(o, self.width);
            proof {
                assert(ws[k] == w);
                assert(ws.take(k + 1).drop_last() =~= ws.take(k));
                assert(ws.take(k + 1).last() == w);
            }
            self.ensure_window(w);
        }
        proof {
            let sl = v0.slide as int;
            if go0 > event_time {
                if k > 0 {
                    assert(k * sl >= 0) by (nonlinear_arith)
                        requires
                            k > 0,
                            sl > 0,
                    ;
                }
                assert(k == 0);
            } else {
                assert(go0 + (k + 1) * sl == go0 + k * sl + sl) by (nonlinear_arith);
                lemma_div_between(event_time - go0, sl, k);
            }
            assert(ws.take(k + 1) =~= ws);
        }
    }

    /// Evaluates the report for every active window in order and returns the
    /// position of the reported window with the latest close (see
    /// `pick_spec`).
    fn pick(&mut self, ts: usize) -> (best: Option<usize>)
        requires
            old(self).wf(),
            forall|i: int| 0 <= i < old(self)@.active_windows.len() ==> !zero_period_reachable(
                old(self)@.report.strategies,
                #[trigger] old(self)@.active_windows[i].0,
                old(self)@.active_windows[i].1,
                ts,
            ),
        ensures
            final(self).callback_accepts() == old(self).callback_accepts(),
            final(self).wf(),
            final(self)@ == (CSPARQLWindowView::<I> {
                report: ReportView { last_change: final(self)@.report.last_change, ..old(self)@.report },
                ..old(self)@
            }),
            best matches Some(i) ==> i < old(self)@.active_windows.len(),
            well_behaved::<I>() ==> pick_spec(
                windows_deep(old(self)@.active_windows),
                old(self)@.report.strategies,
                content_deep(old(self)@.report.last_change),
                ts,
                old(self)@.active_windows.len(),
            ) == Some((opt_int(best), content_deep(final(self)@.report.last_change))),
    {
        let ghost v0 = self@;
        let mut best: Option<usize> = None;
        let mut i: usize = 0;
        while i < self.active_windows.len()
            invariant
                self.callback_accepts() == old(self).callback_accepts(),
                i <= self.active_windows@.len(),
                self.wf(),
                self@ == (CSPARQLWindowView::<I> {
                    report: ReportView { last_change: self@.report.last_change, ..v0.report },
                    ..v0
                }),
                forall|j: int| 0 <= j < v0.active_windows.len() ==> !zero_period_reachable(
                    v0.report.strategies,
                    #[trigger] v0.active_windows[j].0,
                    v0.active_windows[j].1,
                    ts,
                ),
                best matches Some(b) ==> b < i,
                well_behaved::<I>() ==> pick_spec(
                    windows_deep(v0.active_windows),
                    v0.report.strategies,
                    content_deep(v0.report.last_change),
                    ts,
                    i as nat,
                ) == Some((opt_int(best), content_deep(self@.report.last_change))),
            decreases self.active_windows@.len() - i,
        {
            let ghost best0 = best;
            let ghost last_before = self@.report.last_change;
            proof {
                assert(v0.active_windows[i as int] == (self.active_windows@[i as int].0, self.active_windows@[i as int].1@));
                assert(self.active_windows@[i as int].1.wf());
                assert(!zero_period_reachable(v0.report.strategies, v0.active_windows[i as int].0, v0.active_windows[i as int].1, ts));
                lemma_report_defined(v0.report.strategies, last_before, v0.active_windows[i as int].0, v0.active_windows[i as int].1, ts);
                lemma_zero_period_deep(v0.report.strategies, v0.active_windows[i as int].0, v0.active_windows[i as int].1, ts);
                lemma_report_defined(
                    v0.report.strategies,
                    content_deep(last_before),
                    v0.active_windows[i as int].0,
                    content_deep(v0.active_windows[i as int].1),
                    ts,
                );
                assert(windows_deep(v0.active_windows)[i as int] == (v0.active_windows[i as int].0, content_deep(v0.active_windows[i as int].1)));
            }
            let r = self.report.report(&self.active_windows[i].0, &self.active_windows[i].1, ts);
            if r {
                match best {
                    None => {
                        best = Some(i);
                    },
                    Some(b) => {
                        if self.active_windows[b].0.close <= self.active_windows[i].0.close {
                            best = Some(i);
                        }
                    },
                }
            }
            proof {
                if let Some(b) = best0 {
                    assert(v0.active_windows[b as int].0 == self.active_windows@[b as int].0);
                }
                if well_behaved::<I>() {
                    if let Some(b) = best0 {
                        assert(windows_deep(v0.active_windows)[b as int].0 == v0.active_windows[b as int].0);
                    }
                    assert(pick_spec(
                        windows_deep(v0.active_windows),
                        v0.report.strategies,
                        content_deep(v0.report.last_change),
                        ts,
                        (i + 1) as nat,
                    ) == Some((opt_int(best), content_deep(self@.report.last_change))));
                }
            }
            i = i + 1;
        }
        best
    }

    /// Adds the item to the windows that cover `ts` and drops the others
    /// (see `keep_windows`).
    fn keep(&mut self, item: &I, ts: usize)
        requires
            old(self).wf(),
        ensures
            final(self).callback_accepts() == old(self).callback_accepts(),
            final(self).wf(),
            final(self)@ == (CSPARQLWindowView::<I> { active_windows: final(self)@.active_windows, ..old(self)@ }),
            windows_of(final(self)@.active_windows) == windows_of(keep_windows(old(self)@.active_windows, *item, ts)),
            well_behaved::<I>() ==> windows_deep(final(self)@.active_windows) == keep_windows(
                windows_deep(old(self)@.active_windows),
                item.deep_view(),
                ts,
            ),
    {
        let ghost v0 = self@;
        let mut old_aw: Vec<(Window, ContentContainer<I>)> = Vec::new();
        std::mem::swap(&mut old_aw, &mut self.active_windows);
        let ghost src = old_aw@;
        assert(pair_views(src) == v0.active_windows);
        let mut kept: Vec<(Window, ContentContainer<I>)> = Vec::new();
        for pair in it: old_aw.into_iter()
            invariant
                it.seq() == src,
                pair_views(src) == v0.active_windows,
                forall|j: int| 0 <= j < src.len() ==> (#[trigger] src[j]).1.wf(),
                forall|j: int| 0 <= j < kept@.len() ==> (#[trigger] kept@[j]).1.wf(),
                windows_of(pair_views(kept@)) == windows_of(keep_windows(v0.active_windows.take(it.index()), *item, ts)),
                well_behaved::<I>() ==> windows_deep(pair_views(kept@)) == keep_windows(
                    windows_deep(v0.active_windows).take(it.index()),
                    item.deep_view(),
                    ts,
                ),
        {
            let ghost j = it.index();
            proof {
                assert(v0.active_windows.take(j + 1).drop_last() =~= v0.active_windows.take(j));
                assert(v0.active_windows.take(j + 1).last() == (src[j].0, src[j].1@));
                let dw = windows_deep(v0.active_windows);
                assert(dw.take(j + 1).drop_last() =~= dw.take(j));
                assert(dw.take(j + 1).last() == (src[j].0, content_deep(src[j].1@)));
            }
            let (w, mut c) = pair;
            if w.open <= ts && ts <= w.close {
                let x = item.clone();
                c.add(x, ts);
                let ghost before = pair_views(kept@);
                kept.push((w, c));
                proof {
                    assert(pair_views(kept@) =~= before.push((w, c@)));
                    assert(windows_of(before.push((w, c@))) =~= windows_of(before).push(w));
                    let kw = keep_windows(v0.active_windows.take(j), *item, ts);
                    let c0 = src[j].1@;
                    assert(windows_of(kw.push((w, content_add(c0, *item, ts)))) =~= windows_of(kw).push(w));
                    if well_behaved::<I>() {
                        assert(cloned::<I>(*item, x));
                        assert(x.deep_view() == item.deep_view());
                        let dw = windows_deep(v0.active_windows);
                        let dk = keep_windows(dw.take(j), item.deep_view(), ts);
                        assert(windows_deep(before.push((w, c@))) =~= windows_deep(before).push((w, content_deep(c@))));
                    }
                }
            }
        }
        proof {
            assert(v0.active_windows.take(v0.active_windows.len() as int) =~= v0.active_windows);
            let dw = windows_deep(v0.active_windows);
            assert(dw.take(dw.len() as int) =~= dw);
        }
        self.active_windows = kept;
    }

    /// Processes an item that arrived at `ts` (see `process_spec`) and
    /// returns the content to hand on, if any.
    pub fn process(&mut self, event_item: I, ts: usize) -> (res: Option<ContentContainer<I>>)
        requires
            old(self).wf(),
            can_process(old(self)@, ts),
        ensures
            final(self).wf(),
            final(self)@.width == old(self)@.width,
            final(self)@.slide == old(self)@.slide,
            final(self)@.t_0 == old(self)@.t_0,
            final(self)@.tick == old(self)@.tick,
            final(self)@.has_consumer == old(self)@.has_consumer,
            final(self)@.has_call_back == old(self)@.has_call_back,
            final(self)@.report.strategies == old(self)@.report.strategies,
            windows_of(final(self)@.active_windows) == windows_of(process_spec(old(self)@, event_item, ts).0.active_windows),
            well_behaved::<I>() ==> window_deep(final(self)@) == process_spec(
                window_deep(old(self)@),
                event_item.deep_view(),
                ts,
            ).0,
            well_behaved::<I>() ==> opt_deep(res) == process_spec(window_deep(old(self)@), event_item.deep_view(), ts).1,
            final(self).callback_accepts() == old(self).callback_accepts(),
    {
        let ghost v0 = self@;
        self.scope(ts);
        let ghost aw = self@.active_windows;
        proof {
            lemma_scope_insert_deep(v0.active_windows, scope_windows(v0.t_0, v0.width, v0.slide, ts));
            assert(scoped(window_deep(v0), ts) == windows_deep(aw));
        }
        let best = self.pick(ts);
        let ghost last = self@.report.last_change;
        let out = match best {
            Some(i) => {
                if self.tick == Tick::TimeDriven && ts > self.app_time {
                    self.app_time = ts;
                    let c = self.active_windows[i].1.clone();
                    proof {
                        if well_behaved::<I>() {
                            let e = self.active_windows@[i as int].1;
                            lemma_clones_deep(e@.elements, c@.elements);
                            assert(aw[i as int].1 == e@);
                            assert(windows_deep(aw)[i as int].1 == content_deep(c@));
                        }
                    }
                    Some(c)
                } else {
                    None
                }
            },
            None => None,
        };
        self.keep(&event_item, ts);
        proof {
            if well_behaved::<I>() {
                assert(report_deep(self@.report) == ReportView {
                    strategies: v0.report.strategies,
                    last_change: content_deep(last),
                });
            }
        }
        out
    }

    /// Processes an item that arrived at `ts` (see `process_spec`), and hands
    /// the reported content, if any, to the registered channel and callback.
    pub fn add_to_window(&mut self, event_item: I, ts: usize)
        requires
            old(self).wf(),
            old(self).callback_accepts(),
            can_process(old(self)@, ts),
        ensures
            final(self).wf(),
            final(self)@.width == old(self)@.width,
            final(self)@.slide == old(self)@.slide,
            final(self)@.t_0 == old(self)@.t_0,
            final(self)@.tick == old(self)@.tick,
            final(self)@.has_consumer == old(self)@.has_consumer,
            final(self)@.has_call_back == old(self)@.has_call_back,
            final(self)@.report.strategies == old(self)@.report.strategies,
            windows_of(final(self)@.active_windows) == windows_of(process_spec(old(self)@, event_item, ts).0.active_windows),
            well_behaved::<I>() ==> window_deep(final(self)@) == process_spec(
                window_deep(old(self)@),
                event_item.deep_view(),
                ts,
            ).0,
    {
        let out = self.process(event_item, ts);
        match out {
            Some(content) => {
                match &self.consumer {
                    Some(sender) => send_item(sender, content.clone()),
                    None => {},
                }
                match &mut self.call_back {
                    Some(cb) => {
                        assert(cb.accepts(content));
                        cb.consume(content)
                    },
                    None => {},
                }
            },
            None => {},
        }
    }

    /// Drops the registered channel, which ends the receiving side.
    pub fn stop(&mut self)
        ensures
            final(self).wf() == old(self).wf(),
            final(self)@ == (CSPARQLWindowView::<I> { has_consumer: false, ..old(self)@ }),
            final(self).callback_accepts() == old(self).callback_accepts(),
    {
        self.consumer = None;
    }
}
/// A stream item made of three strings: subject, predicate and object.
#[derive(Debug, Eq, Hash)]
pub struct WindowTriple {
    pub s: String,
    pub p: String,
    pub o: String,
}

/// Two window triples are equal when their three strings read the same.
impl PartialEq for WindowTriple {
    fn eq(&self, other: &Self) -> (res: bool) {
        self.s == other.s && self.p == other.p && self.o == other.o
    }
}

impl vstd::std_specs::cmp::PartialEqSpecImpl for WindowTriple {
    open spec fn obeys_eq_spec() -> bool {
        true
    }

    open spec fn eq_spec(&self, other: &Self) -> bool {
        self.s@ == other.s@ && self.p@ == other.p@ && self.o@ == other.o@
    }
}

impl Clone for WindowTriple {
    fn clone(&self) -> (res: Self)
        ensures
            res == *self,
    {
        WindowTriple { s: self.s.clone(), p: self.p.clone(), o: self.o.clone() }
    }
}

impl DeepView for WindowTriple {
    type V = (Seq<char>, Seq<char>, Seq<char>);

    /// The three strings.
    open spec fn deep_view(&self) -> (Seq<char>, Seq<char>, Seq<char>) {
        (self.s@, self.p@, self.o@)
    }
}

/// Window triples behave as values in contents: `==` compares what their
/// strings read, and a clone reads the same.
pub proof fn lemma_window_triples_well_behaved()
    ensures
        well_behaved::<WindowTriple>(),
{
    reveal(obeys_deep_eq);
    assert forall|a: WindowTriple, b: WindowTriple| #[trigger] cloned::<WindowTriple>(a, b) implies a.deep_view()
        == b.deep_view() by {}
}

/// The content of a window over triples.
pub type ContentGraph = ContentContainer<WindowTriple>;
} // verus!
