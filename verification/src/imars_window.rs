//! IMaRS windows: a single time-based window over timestamped items, kept in
//! the order in which they arrived or were last stamped. When an item comes
//! in whose time lies past the end of the window, the window slides, the
//! items that fell out of it are dropped, and the consumers are handed what
//! came in and what went out; what they answer is added back.
//!
//! Items are compared by their `==`; what is said of the content holds for
//! item types whose `==` is equality (`obeys_concrete_eq`).
use vstd::prelude::*;
use std::rc::Rc;
use vstd::laws_eq::obeys_concrete_eq;

verus! {

/// Another handle to the same item (`Rc::clone`).
#[verifier::external_body]
pub(crate) fn share<T>(r: &Rc<T>) -> (res: Rc<T>)
    ensures
        res == *r,
{
    Rc::clone(r)
}

/// The first position at or after `i` whose item is `x`, or -1.
pub open spec fn find_item<T>(c: Seq<(i32, T)>, x: T, i: int) -> int
    decreases c.len() - i,
{
    if i < 0 || i >= c.len() {
        -1
    } else if c[i].1 == x {
        i
    } else {
        find_item(c, x, i + 1)
    }
}

/// The position of item `x`, or -1 when it is not there.
pub open spec fn item_pos<T>(c: Seq<(i32, T)>, x: T) -> int {
    find_item(c, x, 0)
}

/// No item is there twice.
pub open spec fn distinct_items<T>(c: Seq<(i32, T)>) -> bool {
    forall|i: int, j: int| 0 <= i < j < c.len() ==> c[i].1 != c[j].1
}

/// The content with the item at `p` moved to the end, stamped `ts`.
pub open spec fn restamp<T>(c: Seq<(i32, T)>, p: int, ts: i32) -> Seq<(i32, T)> {
    c.remove(p).push((ts, c[p].1))
}

/// The content after `x` was stamped `ts`: moved to the end when it is
/// there, appended otherwise.
pub open spec fn place<T>(c: Seq<(i32, T)>, x: T, ts: i32) -> Seq<(i32, T)> {
    let p = item_pos(c, x);
    if p >= 0 {
        restamp(c, p, ts)
    } else {
        c.push((ts, x))
    }
}

/// The content after `x` was placed right after `existing` with stamp `ts`:
/// restamped when it is there already; nothing happens when `existing` is
/// not there.
pub open spec fn place_after<T>(c: Seq<(i32, T)>, x: T, existing: T, ts: i32) -> Seq<(i32, T)> {
    let p = item_pos(c, x);
    let q = item_pos(c, existing);
    if p >= 0 {
        restamp(c, p, ts)
    } else if q >= 0 {
        c.insert(q + 1, (ts, x))
    } else {
        c
    }
}

/// The number of leading items stamped at or before `last`.
pub open spec fn expired_prefix<T>(c: Seq<(i32, T)>, last: int) -> nat
    decreases c.len(),
{
    if c.len() == 0 || c[0].0 > last {
        0
    } else {
        1 + expired_prefix(c.drop_first(), last)
    }
}

/// The last instant that falls out of the window when time reaches `ts`.
pub open spec fn last_valid(ts: i32, width: i32) -> int {
    if ts - width > 0 {
        ts - width
    } else {
        0
    }
}

/// The opening time of the window once time reaches `ts`: the multiple of
/// `slide` that `ts - width` reaches, rounded away from the window's past
/// (Rust's truncating division, plus one slide when there is a remainder).
pub open spec fn open_time(ts: i32, width: i32, slide: i32) -> int {
    let x = ts - width;
    let residue = if x >= 0 {
        x / (slide as int) + if x % (slide as int) != 0 { 1int } else { 0int }
    } else {
        -((-x) / (slide as int)) + if (-x) % (slide as int) != 0 { 1int } else { 0int }
    };
    residue * slide
}

/// The opening time of a window once time reaches `ts` (see `open_time`).
pub(crate) fn open_time_exec(ts: i32, width: i32, slide: i32) -> (res: i32)
    requires
        slide > 0,
        i32::MIN <= open_time(ts, width, slide) <= i32::MAX,
    ensures
        res == open_time(ts, width, slide),
{
    let x: i64 = ts as i64 - width as i64;
    let s: i64 = slide as i64;
    let residue: i64 = if x >= 0 {
        let q: i64 = x / s;
        assert(q <= x) by (nonlinear_arith)
            requires x >= 0, s >= 1, q == x / s;
        q + if x % s != 0 { 1 } else { 0 }
    } else {
        let nx: i64 = -x;
        let q: i64 = nx / s;
        assert(q <= nx) by (nonlinear_arith)
            requires nx >= 0, s >= 1, q == nx / s;
        -q + if nx % s != 0 { 1 } else { 0 }
    };
    assert(-0x1_0000_0001 <= residue <= 0x1_0000_0001);
    let t: i128 = residue as i128 * s as i128;
    assert(t == open_time(ts, width, slide));
    t as i32
}

/// A window seen as its content, the items added since it last slid, its
/// width and slide, and its opening time.
pub struct ImarsView<T> {
    pub content: Seq<(i32, T)>,
    pub pending: Seq<(i32, T)>,
    pub width: i32,
    pub slide: i32,
    pub time: i32,
}

/// The window after `x` came in at `ts`, before any sliding: a new item is
/// appended and counted as added, a known one is restamped.
pub open spec fn add_item_spec<T>(v: ImarsView<T>, x: T, ts: i32) -> ImarsView<T> {
    if item_pos(v.content, x) >= 0 {
        ImarsView { content: place(v.content, x, ts), ..v }
    } else {
        ImarsView { content: v.content.push((ts, x)), pending: v.pending.push((ts, x)), ..v }
    }
}

/// The window after the items `xs` came in, in order (see `add_item_spec`).
pub open spec fn add_items_spec<T>(v: ImarsView<T>, xs: Seq<(i32, T)>) -> ImarsView<T>
    decreases xs.len(),
{
    if xs.len() == 0 {
        v
    } else {
        add_item_spec(add_items_spec(v, xs.drop_last()), xs.last().1, xs.last().0)
    }
}

/// An item at `ts` lies past the end of the window.
pub open spec fn triggers<T>(v: ImarsView<T>, ts: i32) -> bool {
    ts > v.time + v.width
}

/// The window slid to `ts` (its items that fell out removed, its opening
/// time moved), and the items removed.
pub open spec fn slide_spec<T>(v: ImarsView<T>, ts: i32) -> (ImarsView<T>, Seq<(i32, T)>) {
    let k = expired_prefix(v.content, last_valid(ts, v.width)) as int;
    (ImarsView { content: v.content.skip(k), time: open_time(ts, v.width, v.slide) as i32, ..v }, v.content.take(k))
}

/// Sliding to `ts` is possible: the slide is positive and the new opening
/// time is an `i32`.
pub open spec fn can_slide<T>(v: ImarsView<T>, ts: i32) -> bool {
    &&& v.slide > 0
    &&& i32::MIN <= open_time(ts, v.width, v.slide) <= i32::MAX
}

/// What consumers of a window do with what came in and what went out.
pub trait WindowConsumer<T> {
    /// Takes the items added since the window last slid and those that fell
    /// out when it slid to `ts`; answers items to add back, each stamped no
    /// later than `ts`. (An answer stamped past the end of the window would
    /// make the window slide again while this consumer is still being
    /// handed its update.)
    fn update(&mut self, new: Vec<(i32, Rc<T>)>, old: Vec<(i32, Rc<T>)>, ts: i32) -> (res: Vec<(i32, T)>)
        ensures
            forall|i: int| 0 <= i < res@.len() ==> (#[trigger] res@[i]).0 <= ts,
    ;
}

/// A consumer that keeps the last items it was handed and answers nothing.
pub struct SimpleWindowConsumer<T> {
    pub new: Vec<(i32, Rc<T>)>,
    pub old: Vec<(i32, Rc<T>)>,
}

impl<T> SimpleWindowConsumer<T> {
    pub fn new() -> (res: SimpleWindowConsumer<T>)
        ensures
            res.new@.len() == 0,
            res.old@.len() == 0,
    {
        SimpleWindowConsumer { new: Vec::new(), old: Vec::new() }
    }
}

impl<T> WindowConsumer<T> for SimpleWindowConsumer<T> {
    fn update(&mut self, new: Vec<(i32, Rc<T>)>, old: Vec<(i32, Rc<T>)>, ts: i32) -> (res: Vec<(i32, T)>)
        ensures
            final(self).new == new,
            final(self).old == old,
            res@.len() == 0,
    {
        self.new = new;
        self.old = old;
        Vec::new()
    }
}

/// A time-based window with IMaRS maintenance: one content in order of
/// arrival (or of last stamping), which slides by `slide` once an item lies
/// more than `width` past its opening time.
#[verifier::reject_recursive_types(T)]
pub struct ImarsWindow<T> {
    content: Vec<(i32, Rc<T>)>,
    consumers: Vec<Box<dyn WindowConsumer<T>>>,
    width: i32,
    slide: i32,
    time: i32,
    pending_adds: Vec<(i32, Rc<T>)>,
}

/// The item that a shared handle points to.
pub open spec fn shared_item<T>(r: Rc<T>) -> T {
    *r
}

/// Stamped shared items seen as stamped items.
pub open spec fn unshared<T>(s: Seq<(i32, Rc<T>)>) -> Seq<(i32, T)> {
    s.map_values(|e: (i32, Rc<T>)| (e.0, *e.1))
}

impl<T> View for ImarsWindow<T> {
    type V = ImarsView<T>;

    closed spec fn view(&self) -> ImarsView<T> {
        ImarsView {
            content: unshared(self.content@),
            pending: unshared(self.pending_adds@),
            width: self.width,
            slide: self.slide,
            time: self.time,
        }
    }
}

pub proof fn lemma_find_item<T>(c: Seq<(i32, T)>, x: T, i: int)
    requires
        0 <= i,
    ensures
        find_item(c, x, i) == -1 || (i <= find_item(c, x, i) < c.len() && c[find_item(c, x, i)].1 == x),
        find_item(c, x, i) == -1 ==> forall|t: int| i <= t < c.len() ==> c[t].1 != x,
        find_item(c, x, i) >= 0 ==> forall|t: int| i <= t < find_item(c, x, i) ==> c[t].1 != x,
    decreases c.len() - i,
{
    if i < c.len() && c[i].1 != x {
        lemma_find_item(c, x, i + 1);
    }
}

/// Finds the position of `x` by the items' `==`.
fn find_item_exec<T: PartialEq>(c: &Vec<(i32, Rc<T>)>, x: &T) -> (res: Option<usize>)
    ensures
        res matches Some(p) ==> p < c@.len(),
        obeys_concrete_eq::<T>() ==> match res {
            Some(p) => item_pos(unshared(c@), *x) == p,
            None => item_pos(unshared(c@), *x) == -1,
        },
{
    let ghost u = unshared(c@);
    proof {
        lemma_find_item(u, *x, 0);
    }
    let mut i: usize = 0;
    while i < c.len()
        invariant
            i <= c@.len(),
            u == unshared(c@),
            obeys_concrete_eq::<T>() ==> item_pos(u, *x) == find_item(u, *x, i as int),
        decreases c@.len() - i,
    {
        let same = *c[i].1 == *x;
        proof {
            if obeys_concrete_eq::<T>() {
                reveal(obeys_concrete_eq);
                assert(u[i as int].1 == *c@[i as int].1);
            }
        }
        if same {
            return Some(i);
        }
        i = i + 1;
    }
    None
}

/// Moving an item to the end keeps the items distinct.
proof fn lemma_restamp_distinct<T>(c: Seq<(i32, T)>, p: int, ts: i32)
    requires
        distinct_items(c),
        0 <= p < c.len(),
    ensures
        distinct_items(restamp(c, p, ts)),
{
    let r = restamp(c, p, ts);
    let c2 = c.remove(p);
    assert forall|i: int, j: int| 0 <= i < j < r.len() implies r[i].1 != r[j].1 by {
        let oi = if i < p { i } else { i + 1 };
        assert(r[i] == c[oi]);
        if j < c2.len() {
            let oj = if j < p { j } else { j + 1 };
            assert(r[j] == c[oj]);
        } else {
            assert(r[j].1 == c[p].1);
        }
    }
}

/// Appending an item that is not there keeps the items distinct.
proof fn lemma_push_distinct<T>(c: Seq<(i32, T)>, x: T, ts: i32)
    requires
        distinct_items(c),
        item_pos(c, x) < 0,
    ensures
        distinct_items(c.push((ts, x))),
{
    lemma_find_item(c, x, 0);
    let r = c.push((ts, x));
    assert forall|i: int, j: int| 0 <= i < j < r.len() implies r[i].1 != r[j].1 by {
        assert(r[i] == c[i]);
        if j < c.len() {
            assert(r[j] == c[j]);
        }
    }
}

impl<T: PartialEq> ImarsWindow<T> {
    /// The items are distinct (for item types whose `==` is equality).
    pub closed spec fn wf(&self) -> bool {
        obeys_concrete_eq::<T>() ==> distinct_items(self@.content)
    }

    /// The registered consumers, in order of registration.
    pub closed spec fn consumers(&self) -> Seq<Box<dyn WindowConsumer<T>>> {
        self.consumers@
    }

    /// An empty window of the given width and slide, opening at time 0.
    pub fn new(width: i32, slide: i32) -> (res: ImarsWindow<T>)
        ensures
            res.wf(),
            res@ == (ImarsView::<T> { content: seq![], pending: seq![], width, slide, time: 0 }),
    {
        let res = ImarsWindow { content: Vec::new(), consumers: Vec::new(), width, slide, time: 0, pending_adds: Vec::new() };
        assert(res@.content =~= Seq::<(i32, T)>::empty());
        assert(res@.pending =~= Seq::<(i32, T)>::empty());
        res
    }

    /// An empty window of width and slide 0, for maintenance without
    /// windowing.
    pub fn new_no_window() -> (res: ImarsWindow<T>)
        ensures
            res.wf(),
            res@ == (ImarsView::<T> { content: seq![], pending: seq![], width: 0, slide: 0, time: 0 }),
    {
        Self::new(0, 0)
    }

    /// The number of items.
    pub fn len(&self) -> (res: usize)
        ensures
            res == self@.content.len(),
    {
        self.content.len()
    }

    /// The oldest item with its stamp, if any.
    pub fn front(&self) -> (res: Option<&(i32, Rc<T>)>)
        ensures
            match res {
                Some(e) => self@.content.len() > 0 && e.0 == self@.content[0].0 && *e.1 == self@.content[0].1,
                None => self@.content.len() == 0,
            },
    {
        if self.content.len() == 0 {
            None
        } else {
            Some(&self.content[0])
        }
    }

    /// Stamps a known item `ts` and moves it to the end (see `restamp`);
    /// nothing happens to an unknown one.
    fn update(&mut self, item: &T, ts: i32)
        requires
            old(self).wf(),
        ensures
            final(self).consumers() == old(self).consumers(),
            final(self).wf(),
            final(self)@.pending == old(self)@.pending,
            final(self)@.width == old(self)@.width,
            final(self)@.slide == old(self)@.slide,
            final(self)@.time == old(self)@.time,
            obeys_concrete_eq::<T>() ==> final(self)@.content == if item_pos(old(self)@.content, *item) >= 0 {
                restamp(old(self)@.content, item_pos(old(self)@.content, *item), ts)
            } else {
                old(self)@.content
            },
    {
        match find_item_exec(&self.content, item) {
            Some(p) => {
                let ghost c0 = self.content@;
                let (_old_ts, stored) = self.content.remove(p);
                self.content.push((ts, stored));
                proof {
                    if obeys_concrete_eq::<T>() {
                        assert(unshared(self.content@) =~= restamp(unshared(c0), p as int, ts));
                        lemma_restamp_distinct(unshared(c0), p as int, ts);
                    }
                }
            },
            None => {},
        }
    }

    /// Appends an item stamped `ts`, whether or not it is there.
    pub fn add_to_list_and_index(&mut self, item: Rc<T>, ts: i32)
        ensures
            final(self).consumers() == old(self).consumers(),
            final(self)@ == (ImarsView { content: old(self)@.content.push((ts, *item)), ..old(self)@ }),
            old(self).wf() && (obeys_concrete_eq::<T>() ==> item_pos(old(self)@.content, *item) < 0) ==> final(self).wf(),
    {
        let ghost c0 = self.content@;
        self.content.push((ts, item));
        proof {
            assert(unshared(self.content@) =~= unshared(c0).push((ts, *item)));
            if obeys_concrete_eq::<T>() && item_pos(unshared(c0), shared_item(item)) < 0 && old(self).wf() {
                lemma_push_distinct(unshared(c0), shared_item(item), ts);
            }
        }
    }

    /// Stamps `item` with `ts` without sliding: a known item is restamped,
    /// a new one appended (see `place`).
    pub fn add_without_update(&mut self, item: Rc<T>, ts: i32)
        requires
            old(self).wf(),
        ensures
            final(self).wf(),
            final(self)@.pending == old(self)@.pending,
            final(self)@.width == old(self)@.width,
            final(self)@.slide == old(self)@.slide,
            final(self)@.time == old(self)@.time,
            obeys_concrete_eq::<T>() ==> final(self)@.content == place(old(self)@.content, *item, ts),
    {
        match find_item_exec(&self.content, &*item) {
            Some(_) => self.update(&*item, ts),
            None => self.add_to_list_and_index(item, ts),
        }
    }

    /// Like `add_without_update`.
    pub fn add_in_between(&mut self, item: Rc<T>, ts: i32)
        requires
            old(self).wf(),
        ensures
            final(self).wf(),
            final(self)@.pending == old(self)@.pending,
            final(self)@.width == old(self)@.width,
            final(self)@.slide == old(self)@.slide,
            final(self)@.time == old(self)@.time,
            obeys_concrete_eq::<T>() ==> final(self)@.content == place(old(self)@.content, *item, ts),
    {
        self.add_without_update(item, ts)
    }

    /// Stamps `new_item` with `ts` right after `existing_item` (see
    /// `place_after`).
    pub fn add_after(&mut self, new_item: Rc<T>, existing_item: Rc<T>, ts: i32)
        requires
            old(self).wf(),
        ensures
            final(self).wf(),
            final(self)@.pending == old(self)@.pending,
            final(self)@.width == old(self)@.width,
            final(self)@.slide == old(self)@.slide,
            final(self)@.time == old(self)@.time,
            obeys_concrete_eq::<T>() ==> final(self)@.content == place_after(old(self)@.content, *new_item, *existing_item, ts),
    {
        match find_item_exec(&self.content, &*new_item) {
            Some(_) => self.update(&*new_item, ts),
            None => {
                let len = self.content.len();
                match find_item_exec(&self.content, &*existing_item) {
                    Some(q) => {
                        let ghost c0 = unshared(self.content@);
                        self.content.insert(q + 1, (ts, new_item));
                        proof {
                            let c = unshared(self.content@);
                            assert(c =~= c0.insert(q + 1, (ts, *new_item)));
                            if obeys_concrete_eq::<T>() {
                                lemma_find_item(c0, shared_item(new_item), 0);
                                assert forall|i: int, j: int| 0 <= i < j < c.len() implies c[i].1 != c[j].1 by {
                                    let oi = if i <= q { i } else { i - 1 };
                                    let oj = if j <= q { j } else { j - 1 };
                                    if i != q + 1 && j != q + 1 {
                                        assert(c[i] == c0[oi]);
                                        assert(c[j] == c0[oj]);
                                    } else if i == q + 1 {
                                        assert(c[j] == c0[oj]);
                                    } else {
                                        assert(c[i] == c0[oi]);
                                    }
                                }
                            }
                        }
                    },
                    None => {},
                }
            },
        }
    }

    /// The stamp of `item`, if it is there.
    pub fn get_time_stamp(&self, item: Rc<T>) -> (res: Option<i32>)
        ensures
            obeys_concrete_eq::<T>() ==> res == if item_pos(self@.content, *item) >= 0 {
                Some(self@.content[item_pos(self@.content, *item)].0)
            } else {
                None::<i32>
            },
    {
        match find_item_exec(&self.content, &*item) {
            Some(p) => Some(self.content[p].0),
            None => None,
        }
    }

    /// Whether an item at `ts` lies past the end of the window.
    pub fn does_window_trigger(&self, ts: i32) -> (res: bool)
        ensures
            res == triggers(self@, ts),
    {
        (ts as i64) > (self.time as i64) + (self.width as i64)
    }

    /// Moves the opening time as time reaches `ts` (see `open_time`).
    pub fn update_window_open_time(&mut self, ts: i32)
        requires
            can_slide(old(self)@, ts),
        ensures
            final(self).consumers() == old(self).consumers(),
            final(self)@ == (ImarsView { time: open_time(ts, old(self)@.width, old(self)@.slide) as i32, ..old(self)@ }),
            final(self).wf() == old(self).wf(),
    {
        self.time = open_time_exec(ts, self.width, self.slide);
    }

    fn remove_expired(&mut self, last: i64) -> (res: Vec<(i32, Rc<T>)>)
        requires
            old(self).wf(),
        ensures
            final(self).consumers() == old(self).consumers(),
            final(self).wf(),
            ({
                let k = expired_prefix(old(self)@.content, last as int) as int;
                &&& unshared(res@) == old(self)@.content.take(k)
                &&& final(self)@ == (ImarsView { content: old(self)@.content.skip(k), ..old(self)@ })
            }),
    {
        let ghost c0 = unshared(self.content@);
        let ghost k = expired_prefix(c0, last as int) as int;
        proof {
            lemma_expired_prefix(c0, last as int);
        }
        let mut n: usize = 0;
        while n < self.content.len() && self.content[n].0 as i64 <= last
            invariant
                c0 == unshared(self.content@),
                n <= k,
                k <= c0.len(),
                forall|i: int| 0 <= i < k ==> c0[i].0 <= last,
                k < c0.len() ==> c0[k].0 > last,
            decreases c0.len() - n,
        {
            assert(c0[n as int].0 == self.content@[n as int].0);
            n = n + 1;
        }
        proof {
            if n < c0.len() {
                assert(c0[n as int].0 == self.content@[n as int].0);
            }
        }
        let ghost full = self.content@;
        let mut old_values = self.content.split_off(n);
        std::mem::swap(&mut self.content, &mut old_values);
        proof {
            assert(unshared(old_values@) =~= c0.take(k));
            assert(unshared(self.content@) =~= c0.skip(k));
            if obeys_concrete_eq::<T>() {
                let c = unshared(self.content@);
                assert forall|i: int, j: int| 0 <= i < j < c.len() implies c[i].1 != c[j].1 by {
                    assert(c[i] == c0[i + k]);
                    assert(c[j] == c0[j + k]);
                }
            }
        }
        old_values
    }

    /// Removes the leading items stamped at or before `last_ts` and returns
    /// them, in order (see `expired_prefix`).
    pub fn remove_old_elements(&mut self, last_ts: &i32) -> (res: Vec<(i32, Rc<T>)>)
        requires
            old(self).wf(),
        ensures
            final(self).wf(),
            ({
                let k = expired_prefix(old(self)@.content, *last_ts as int) as int;
                &&& unshared(res@) == old(self)@.content.take(k)
                &&& final(self)@ == (ImarsView { content: old(self)@.content.skip(k), ..old(self)@ })
            }),
    {
        self.remove_expired(*last_ts as i64)
    }

    /// Slides the content to `ts`: removes the items that fell out of the
    /// window (those stamped at or before `ts - width`, or 0) and returns
    /// them.
    pub fn progress_time_and_delete_old(&mut self, ts: &i32) -> (res: Vec<(i32, Rc<T>)>)
        requires
            old(self).wf(),
        ensures
            final(self).consumers() == old(self).consumers(),
            final(self).wf(),
            ({
                let k = expired_prefix(old(self)@.content, last_valid(*ts, old(self)@.width)) as int;
                &&& unshared(res@) == old(self)@.content.take(k)
                &&& final(self)@ == (ImarsView { content: old(self)@.content.skip(k), ..old(self)@ })
            }),
    {
        let d: i64 = *ts as i64 - self.width as i64;
        let last: i64 = if d > 0 { d } else { 0 };
        self.remove_expired(last)
    }

    /// Registers a consumer, handed the window's changes each time it slides.
    pub fn register_consumer(&mut self, consumer: Box<dyn WindowConsumer<T>>)
        ensures
            final(self)@ == old(self)@,
            final(self).wf() == old(self).wf(),
            final(self).consumers() == old(self).consumers().push(consumer),
    {
        self.consumers.push(consumer);
    }

    /// Adds an item without sliding (see `add_item_spec`).
    fn add_item(&mut self, item: Rc<T>, ts: i32)
        requires
            old(self).wf(),
        ensures
            final(self).consumers() == old(self).consumers(),
            final(self).wf(),
            final(self)@.width == old(self)@.width,
            final(self)@.slide == old(self)@.slide,
            final(self)@.time == old(self)@.time,
            obeys_concrete_eq::<T>() ==> final(self)@ == add_item_spec(old(self)@, *item, ts),
    {
        match find_item_exec(&self.content, &*item) {
            Some(_) => self.update(&*item, ts),
            None => {
                let ghost p0 = self.pending_adds@;
                self.pending_adds.push((ts, share(&item)));
                assert(unshared(self.pending_adds@) =~= unshared(p0).push((ts, *item)));
                self.add_to_list_and_index(item, ts);
            },
        }
    }

    /// Adds the items that a consumer answered, in order, none of which
    /// lies past the end of the window (see `add_items_spec`).
    pub fn add_answers(&mut self, answers: Vec<(i32, T)>)
        requires
            old(self).wf(),
            forall|i: int| 0 <= i < answers@.len() ==> !triggers(old(self)@, (#[trigger] answers@[i]).0),
        ensures
            final(self).wf(),
            final(self)@.time == old(self)@.time,
            final(self)@.width == old(self)@.width,
            final(self)@.slide == old(self)@.slide,
            obeys_concrete_eq::<T>() ==> final(self)@ == add_items_spec(old(self)@, answers@),
    {
        let ghost xs = answers@;
        let mut answers = answers;
        let mut rev: Vec<(i32, T)> = Vec::new();
        while answers.len() > 0
            invariant
                answers@ + rev@.reverse() == xs,
            decreases answers@.len(),
        {
            let ghost before = answers@;
            let a = answers.pop().unwrap();
            rev.push(a);
            proof {
                assert(before == answers@.push(a));
                assert(rev@.reverse() =~= seq![a] + rev@.drop_last().reverse());
            }
        }
        assert(rev@.reverse() =~= xs);
        let ghost v0 = self@;
        while rev.len() > 0
            invariant
                self.wf(),
                self@.time == v0.time,
                self@.width == v0.width,
                self@.slide == v0.slide,
                obeys_concrete_eq::<T>() ==> add_items_spec(v0, xs) == add_items_spec(self@, rev@.reverse()),
            decreases rev@.len(),
        {
            let ghost before = rev@;
            let (ts, item) = rev.pop().unwrap();
            proof {
                assert(before == rev@.push((ts, item)));
                assert(before.reverse() =~= seq![(ts, item)] + rev@.reverse());
                lemma_add_items_first(self@, (ts, item), rev@.reverse());
            }
            let rc = Rc::new(item);
            self.add_item(rc, ts);
        }
        assert(rev@.reverse() =~= Seq::<(i32, T)>::empty());
    }

    /// Adds an item at `ts` (see `add_item_spec`). When it lies past the
    /// end of the window, the window slides to `ts` (see `slide_spec`): the
    /// consumers are handed, one after the other, the items added since the
    /// last slide and those that fell out, and what each answers is added
    /// (see `add_answers`); the count of added items then restarts.
    pub fn add(&mut self, item: T, ts: i32)
        requires
            old(self).wf(),
            triggers(old(self)@, ts) ==> can_slide(old(self)@, ts),
        ensures
            final(self).wf(),
            final(self)@.width == old(self)@.width,
            final(self)@.slide == old(self)@.slide,
            obeys_concrete_eq::<T>() && !triggers(old(self)@, ts) ==> final(self)@ == add_item_spec(old(self)@, item, ts),
            obeys_concrete_eq::<T>() && triggers(old(self)@, ts) ==> ({
                let slid = slide_spec(add_item_spec(old(self)@, item, ts), ts).0;
                &&& final(self)@.time == slid.time
                &&& final(self)@.pending.len() == 0
                &&& exists|answers: Seq<(i32, T)>|
                    (forall|i: int| 0 <= i < answers.len() ==> (#[trigger] answers[i]).0 <= ts)
                    && final(self)@.content == (#[trigger] add_items_spec(slid, answers)).content
                &&& old(self).consumers().len() == 0 ==> final(self)@.content == slid.content
            }),
    {
        let ghost item_v = item;
        let rc_item = Rc::new(item);
        self.add_item(rc_item, ts);
        if self.does_window_trigger(ts) {
            let ghost v1 = self@;
            self.update_window_open_time(ts);
            let old_values = self.progress_time_and_delete_old(&ts);
            let ghost slid = self@;
            proof {
                lemma_open_time_bound(ts, v1.width, v1.slide);
                assert(add_items_spec(slid, seq![]) == slid);
                if obeys_concrete_eq::<T>() {
                    assert(slid == slide_spec(v1, ts).0);
                }
            }
            let ghost mut all: Seq<(i32, T)> = seq![];
            let mut waiting: Vec<Box<dyn WindowConsumer<T>>> = Vec::new();
            std::mem::swap(&mut self.consumers, &mut waiting);
            let ghost n_consumers = waiting@.len();
            assert(n_consumers == old(self).consumers().len());
            let mut done: Vec<Box<dyn WindowConsumer<T>>> = Vec::new();
            while waiting.len() > 0
                invariant
                    waiting@.len() <= n_consumers,
                    n_consumers == 0 ==> all.len() == 0,
                    forall|i: int| 0 <= i < all.len() ==> (#[trigger] all[i]).0 <= ts,
                    self.wf(),
                    self@.time == slid.time,
                    self@.width == slid.width,
                    self@.slide == slid.slide,
                    self@.time + self@.width >= ts,
                    obeys_concrete_eq::<T>() ==> self@ == add_items_spec(slid, all),
                decreases waiting@.len(),
            {
                let mut consumer = waiting.remove(0);
                let new_copy = copy_stamped(&self.pending_adds);
                let old_copy = copy_stamped(&old_values);
                let answers = consumer.update(new_copy, old_copy, ts);
                let ghost av = answers@;
                self.add_answers(answers);
                proof {
                    if obeys_concrete_eq::<T>() {
                        lemma_add_items_concat(slid, all, av);
                    }
                    let a0 = all;
                    all = all + av;
                    assert forall|i: int| 0 <= i < all.len() implies (#[trigger] all[i]).0 <= ts by {
                        if i < a0.len() {
                            assert(all[i] == a0[i]);
                        } else {
                            assert(all[i] == av[i - a0.len()]);
                        }
                    }
                }
                done.push(consumer);
            }
            self.consumers = done;
            let ghost before_clear = self@;
            self.pending_adds.clear();
            proof {
                assert(self@.content == before_clear.content);
                if obeys_concrete_eq::<T>() {
                    assert(self@.content == add_items_spec(slid, all).content);
                }
            }
        }
    }
}

/// A copy of stamped items, sharing the items.
pub(crate) fn copy_stamped<T>(v: &Vec<(i32, Rc<T>)>) -> (res: Vec<(i32, Rc<T>)>)
    ensures
        unshared(res@) == unshared(v@),
{
    let mut res: Vec<(i32, Rc<T>)> = Vec::new();
    let mut j: usize = 0;
    while j < v.len()
        invariant
            j <= v@.len(),
            unshared(res@) =~= unshared(v@).take(j as int),
        decreases v@.len() - j,
    {
        let ghost before = res@;
        res.push((v[j].0, share(&v[j].1)));
        proof {
            assert(unshared(res@) =~= unshared(before).push(unshared(v@)[j as int]));
            assert(unshared(v@).take(j + 1) =~= unshared(v@).take(j as int).push(unshared(v@)[j as int]));
        }
        j = j + 1;
    }
    assert(unshared(v@).take(v@.len() as int) =~= unshared(v@));
    res
}

/// The leading expired items are those counted by `expired_prefix`.
pub(crate) proof fn lemma_expired_prefix<T>(c: Seq<(i32, T)>, last: int)
    ensures
        expired_prefix(c, last) <= c.len(),
        forall|i: int| 0 <= i < expired_prefix(c, last) ==> c[i].0 <= last,
        expired_prefix(c, last) < c.len() ==> c[expired_prefix(c, last) as int].0 > last,
    decreases c.len(),
{
    if c.len() > 0 && c[0].0 <= last {
        lemma_expired_prefix(c.drop_first(), last);
        assert forall|i: int| 0 <= i < expired_prefix(c, last) implies c[i].0 <= last by {
            if i > 0 {
                assert(c[i] == c.drop_first()[i - 1]);
            }
        }
        if expired_prefix(c, last) < c.len() {
            assert(c[expired_prefix(c, last) as int] == c.drop_first()[expired_prefix(c.drop_first(), last) as int]);
        }
    }
}

/// Adding items one after another is adding their concatenation.
proof fn lemma_add_items_concat<T>(v: ImarsView<T>, a: Seq<(i32, T)>, b: Seq<(i32, T)>)
    ensures
        add_items_spec(add_items_spec(v, a), b) == add_items_spec(v, a + b),
    decreases b.len(),
{
    if b.len() == 0 {
        assert(a + b =~= a);
    } else {
        lemma_add_items_concat(v, a, b.drop_last());
        assert((a + b).drop_last() =~= a + b.drop_last());
    }
}

/// Adding a first item, then the rest.
proof fn lemma_add_items_first<T>(v: ImarsView<T>, x: (i32, T), rest: Seq<(i32, T)>)
    ensures
        add_items_spec(v, seq![x] + rest) == add_items_spec(add_item_spec(v, x.1, x.0), rest),
{
    lemma_add_items_concat(v, seq![x], rest);
    let one = seq![x];
    let e = one.drop_last();
    assert(e =~= Seq::<(i32, T)>::empty());
    assert(add_items_spec(v, e) == v);
    assert(one.last() == x);
    assert(add_items_spec(v, one) == add_item_spec(add_items_spec(v, e), x.1, x.0));
}

/// Once time reaches `ts`, the window's end is at or after `ts`.
pub(crate) proof fn lemma_open_time_bound(ts: i32, width: i32, slide: i32)
    requires
        slide > 0,
    ensures
        open_time(ts, width, slide) + width >= ts,
{
    let x = ts - width;
    let s = slide as int;
    if x >= 0 {
        let q = x / s;
        let r = x % s;
        assert(x == q * s + r && 0 <= r < s) by (nonlinear_arith)
            requires s > 0, q == x / s, r == x % s;
        if r != 0 {
            assert((q + 1) * s == q * s + s) by (nonlinear_arith);
        }
    } else {
        let a = -x;
        let q = a / s;
        let r = a % s;
        assert(a == q * s + r && 0 <= r < s) by (nonlinear_arith)
            requires s > 0, q == a / s, r == a % s;
        if r != 0 {
            assert((-q + 1) * s == -(q * s) + s) by (nonlinear_arith);
        } else {
            assert((-q) * s == -(q * s)) by (nonlinear_arith);
        }
    }
}

} // verus!
