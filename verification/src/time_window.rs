//! Time-based windows: items come in with a time stamp and are kept in the
//! order of arrival; once an item lies past the end of the window, the
//! window slides, the items that fell out of it are dropped, and the
//! consumers are handed what is left.
use vstd::prelude::*;
use std::rc::Rc;
use crate::imars_window::{
    copy_stamped, expired_prefix, last_valid, lemma_expired_prefix, open_time, open_time_exec, unshared,
};

verus! {

/// A consumer of what a window holds each time it slides.
pub trait TimeWindowConsumer<T> {
    /// Takes the content of the window after it slid, and the last instant
    /// that fell out of it.
    fn update(&mut self, data: Vec<(i32, Rc<T>)>, ts: &i32);
}

/// A consumer that keeps the last content it was handed.
pub struct SimpleWindowConsumer<T> {
    pub data: Vec<(i32, Rc<T>)>,
}

impl<T> SimpleWindowConsumer<T> {
    pub fn new() -> (res: SimpleWindowConsumer<T>)
        ensures
            res.data@.len() == 0,
    {
        SimpleWindowConsumer { data: Vec::new() }
    }
}

impl<T> TimeWindowConsumer<T> for SimpleWindowConsumer<T> {
    fn update(&mut self, data: Vec<(i32, Rc<T>)>, _ts: &i32)
        ensures
            final(self).data == data,
    {
        self.data = data;
    }
}

/// A time window seen as its content in order of arrival, its width and
/// slide, and its opening time.
pub struct TimeWindowView<T> {
    pub content: Seq<(i32, T)>,
    pub width: i32,
    pub slide: i32,
    pub time: i32,
}

/// Whether an item stamped `ts` lies past the end of the window.
pub open spec fn time_triggers<T>(v: TimeWindowView<T>, ts: i32) -> bool {
    ts > v.time + v.width
}

/// The window after sliding to `ts`: the leading items stamped at or
/// before `ts - width` (or 0) dropped, the opening time moved.
pub open spec fn time_slide<T>(v: TimeWindowView<T>, ts: i32) -> TimeWindowView<T> {
    TimeWindowView {
        content: v.content.skip(expired_prefix(v.content, last_valid(ts, v.width)) as int),
        time: open_time(ts, v.width, v.slide) as i32,
        ..v
    }
}

/// The window after an item was added at `ts`: appended, then the window
/// slides to `ts` when the item lies past its end.
pub open spec fn time_add<T>(v: TimeWindowView<T>, item: T, ts: i32) -> TimeWindowView<T> {
    let added = TimeWindowView { content: v.content.push((ts, item)), ..v };
    if time_triggers(v, ts) {
        time_slide(added, ts)
    } else {
        added
    }
}

/// Sliding to `ts` is possible: the slide is positive, and the new opening
/// time and the last instant that falls out are `i32`s.
pub open spec fn time_can_slide<T>(v: TimeWindowView<T>, ts: i32) -> bool {
    &&& v.slide > 0
    &&& i32::MIN <= open_time(ts, v.width, v.slide) <= i32::MAX
    &&& last_valid(ts, v.width) <= i32::MAX
}

/// A time-based window of `width` that slides by `slide`.
#[verifier::reject_recursive_types(T)]
pub struct TimeWindow<T> {
    content: Vec<(i32, Rc<T>)>,
    consumers: Vec<Box<dyn TimeWindowConsumer<T>>>,
    width: i32,
    slide: i32,
    time: i32,
    pending_adds: Vec<(i32, Rc<T>)>,
}

impl<T> View for TimeWindow<T> {
    type V = TimeWindowView<T>;

    closed spec fn view(&self) -> TimeWindowView<T> {
        TimeWindowView { content: unshared(self.content@), width: self.width, slide: self.slide, time: self.time }
    }
}

impl<T> TimeWindow<T> {
    /// The registered consumers, in order of registration.
    pub closed spec fn consumers(&self) -> Seq<Box<dyn TimeWindowConsumer<T>>> {
        self.consumers@
    }

    /// An empty window of the given width and slide, open at time 0.
    pub fn new(width: i32, slide: i32) -> (res: TimeWindow<T>)
        ensures
            res@ == (TimeWindowView::<T> { content: seq![], width, slide, time: 0 }),
    {
        let res = TimeWindow { content: Vec::new(), consumers: Vec::new(), width, slide, time: 0, pending_adds: Vec::new() };
        assert(res@.content =~= Seq::<(i32, T)>::empty());
        res
    }

    /// The number of items.
    pub fn len(&self) -> (res: usize)
        ensures
            res == self@.content.len(),
    {
        self.content.len()
    }

    /// The oldest item with its stamp, if any.
    pub fn front(&self) -> (res: Option<&(i32, Rc<T>)>)
        ensures
            match res {
                Some(e) => self@.content.len() > 0 && e.0 == self@.content[0].0 && *e.1 == self@.content[0].1,
                None => self@.content.len() == 0,
            },
    {
        if self.content.len() == 0 {
            None
        } else {
            Some(&self.content[0])
        }
    }

    /// The last instant that falls out of the window when time reaches
    /// `new_time` (see `last_valid`).
    pub fn get_last_valid_time_for(&self, new_time: &i32) -> (res: i32)
        requires
            last_valid(*new_time, self@.width) <= i32::MAX,
        ensures
            res == last_valid(*new_time, self@.width),
    {
        let d: i64 = *new_time as i64 - self.width as i64;
        if d > 0 {
            d as i32
        } else {
            0
        }
    }

    /// Whether an item stamped `ts` lies past the end of the window.
    pub fn does_window_trigger(&self, ts: i32) -> (res: bool)
        ensures
            res == time_triggers(self@, ts),
    {
        (ts as i64) > (self.time as i64) + (self.width as i64)
    }

    /// Moves the opening time as time reaches `ts` (see `open_time`).
    pub fn update_window_open_time(&mut self, ts: i32)
        requires
            old(self)@.slide > 0,
            i32::MIN <= open_time(ts, old(self)@.width, old(self)@.slide) <= i32::MAX,
        ensures
            final(self)@ == (TimeWindowView { time: open_time(ts, old(self)@.width, old(self)@.slide) as i32, ..old(self)@ }),
    {
        self.time = open_time_exec(ts, self.width, self.slide);
    }

    /// Drops the leading items that fell out of the window when time
    /// reaches `ts` (those stamped at or before `ts - width`, or 0) and
    /// returns the items that are left, in order.
    pub fn progress_time_and_extract_content(&mut self, ts: &i32) -> (res: Vec<(i32, Rc<T>)>)
        ensures
            ({
                let k = expired_prefix(old(self)@.content, last_valid(*ts, old(self)@.width)) as int;
                &&& final(self)@ == (TimeWindowView { content: old(self)@.content.skip(k), ..old(self)@ })
                &&& unshared(res@) == final(self)@.content
            }),
    {
        let d: i64 = *ts as i64 - self.width as i64;
        let last: i64 = if d > 0 { d } else { 0 };
        let ghost c0 = unshared(self.content@);
        let ghost k = expired_prefix(c0, last as int) as int;
        proof {
            lemma_expired_prefix(c0, last as int);
        }
        let mut n: usize = 0;
        while n < self.content.len() && self.content[n].0 as i64 <= last
            invariant
                c0 == unshared(self.content@),
                n <= k,
                k <= c0.len(),
                forall|i: int| 0 <= i < k ==> c0[i].0 <= last,
                k < c0.len() ==> c0[k].0 > last,
            decreases c0.len() - n,
        {
            assert(c0[n as int].0 == self.content@[n as int].0);
            n = n + 1;
        }
        proof {
            if n < c0.len() {
                assert(c0[n as int].0 == self.content@[n as int].0);
            }
        }
        let mut rest = self.content.split_off(n);
        std::mem::swap(&mut self.content, &mut rest);
        assert(unshared(self.content@) =~= c0.skip(k));
        copy_stamped(&self.content)
    }

    /// Registers a consumer, handed the window's content each time it
    /// slides.
    pub fn register_consumer(&mut self, consumer: Box<dyn TimeWindowConsumer<T>>)
        ensures
            final(self)@ == old(self)@,
            final(self).consumers() == old(self).consumers().push(consumer),
    {
        self.consumers.push(consumer);
    }

    /// Adds an item at `ts` (see `time_add`). When it lies past the end of
    /// the window, the window slides to `ts` and each consumer, in order of
    /// registration, is handed the content that is left and the last
    /// instant that fell out.
    pub fn add(&mut self, item: T, ts: i32)
        requires
            time_triggers(old(self)@, ts) ==> time_can_slide(old(self)@, ts),
        ensures
            final(self)@ == time_add(old(self)@, item, ts),
    {
        let ghost v0 = self@;
        let rc_item = Rc::new(item);
        self.content.push((ts, rc_item));
        assert(self@.content =~= v0.content.push((ts, item)));
        if self.does_window_trigger(ts) {
            self.update_window_open_time(ts);
            let window_content = self.progress_time_and_extract_content(&ts);
            let last_valid_ts = self.get_last_valid_time_for(&ts);
            let mut waiting: Vec<Box<dyn TimeWindowConsumer<T>>> = Vec::new();
            std::mem::swap(&mut self.consumers, &mut waiting);
            let mut done: Vec<Box<dyn TimeWindowConsumer<T>>> = Vec::new();
            let ghost slid = self@;
            while waiting.len() > 0
                invariant
                    self@ == slid,
                decreases waiting@.len(),
            {
                let mut consumer = waiting.remove(0);
                consumer.update(copy_stamped(&window_content), &last_valid_ts);
                done.push(consumer);
            }
            self.consumers = done;
            self.pending_adds.clear();
        }
    }
}

} // verus!
