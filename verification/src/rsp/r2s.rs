//! Relation-to-stream operators: turning the successive answers of a
//! continuous query into a stream (all answers, the new ones, or the ones
//! that disappeared).
//!
//! An answer is a set of items, compared by the items' `==`; the operator
//! keeps each answer as the sequence of its distinct items in the order in
//! which they arrived, each item seen by its deep view. What is said of the
//! answers' contents holds for item types whose `==` compares deep views
//! (`obeys_deep_eq`) and whose clones keep them (`clone_keeps_deep_view`).
use vstd::prelude::*;
use std::hash::Hash;
use vstd::laws_eq::obeys_deep_eq;
use crate::rsp::{contains_item, add_distinct, fresh_items, push_distinct, deep_seq, clone_keeps_deep_view,
    lemma_add_distinct_no_dup, lemma_eq_in_deep};

verus! {

/// Which answers the operator streams: all of them (`RSTREAM`), those not
/// in the previous answer (`ISTREAM`) or those of the previous answer that
/// are no longer there (`DSTREAM`).
#[derive(Debug, Clone, Copy, PartialEq, Eq, Structural)]
pub enum StreamOperator {
    RSTREAM,
    ISTREAM,
    DSTREAM,
}

impl Default for StreamOperator {
    fn default() -> (res: Self)
        ensures
            res == StreamOperator::RSTREAM,
    {
        StreamOperator::RSTREAM
    }
}

/// A relation-to-stream operator. It keeps the answer of the previous time
/// instant (`old_result`) and the answer gathered at the current one
/// (`new_result`).
pub struct Relation2StreamOperator<O> {
    stream_operator: StreamOperator,
    old_result: Vec<O>,
    new_result: Vec<O>,
    ts: usize,
}

/// The state of an operator: its kind, the previous and current answers (as
/// the deep views of their items in order of arrival), and the current time
/// instant.
pub struct R2SView<O> {
    pub stream_operator: StreamOperator,
    pub old_result: Seq<O>,
    pub new_result: Seq<O>,
    pub ts: usize,
}

impl<O: DeepView> View for Relation2StreamOperator<O> {
    type V = R2SView<O::V>;

    closed spec fn view(&self) -> R2SView<O::V> {
        R2SView {
            stream_operator: self.stream_operator,
            old_result: deep_seq(self.old_result@),
            new_result: deep_seq(self.new_result@),
            ts: self.ts,
        }
    }
}

/// The state once time has moved to `ts`: when `ts` is later than the
/// current instant, the current answer becomes the previous one and the
/// current one starts empty.
pub open spec fn advanced<O>(v: R2SView<O>, ts: usize) -> R2SView<O> {
    if v.ts < ts {
        R2SView { stream_operator: v.stream_operator, old_result: v.new_result, new_result: seq![], ts }
    } else {
        v
    }
}

/// The state once the answer `items` arrived at `ts`: time advanced, and the
/// items added to the current answer.
pub open spec fn prepared<O>(v: R2SView<O>, items: Seq<O>, ts: usize) -> R2SView<O> {
    let a = advanced(v, ts);
    R2SView { new_result: add_distinct(a.new_result, items), ..a }
}

impl<O: PartialEq + DeepView> Relation2StreamOperator<O> {
    /// Each answer holds an item at most once.
    pub closed spec fn wf(&self) -> bool {
        obeys_deep_eq::<O>() ==> self@.old_result.no_duplicates() && self@.new_result.no_duplicates()
    }
}

/// The item type's `==` compares deep views and its clones keep them.
pub open spec fn items_compare_deeply<O: PartialEq + Clone + DeepView>() -> bool {
    obeys_deep_eq::<O>() && clone_keeps_deep_view::<O>()
}

impl<O: Clone + Hash + Eq + DeepView> Relation2StreamOperator<O> {
    /// An operator of kind `stream_operator` whose current instant is
    /// `start_time` and whose answers are empty.
    pub fn new(stream_operator: StreamOperator, start_time: usize) -> (res: Relation2StreamOperator<O>)
        ensures
            res.wf(),
            res@ == (R2SView::<O::V> {
                stream_operator,
                old_result: seq![],
                new_result: seq![],
                ts: start_time,
            }),
    {
        let res = Relation2StreamOperator { stream_operator, old_result: Vec::new(), new_result: Vec::new(), ts: start_time };
        assert(deep_seq(res.old_result@) =~= Seq::<O::V>::empty());
        assert(deep_seq(res.new_result@) =~= Seq::<O::V>::empty());
        res
    }

    /// Takes the answer `new_response` of instant `ts` and returns what the
    /// operator streams. `RSTREAM`: the answer itself, and the state stays as
    /// it was. Otherwise time moves to `ts` and the answer's items join the
    /// current answer (see `prepared`); `ISTREAM` then returns the items of
    /// `new_response`, in order, that are not in the previous instant's
    /// answer, and `DSTREAM` the items of the previous instant's answer, in
    /// order, that are not in the current one.
    pub fn eval(&mut self, new_response: Vec<O>, ts: usize) -> (res: Vec<O>)
        requires
            old(self).wf(),
        ensures
            final(self).wf(),
            final(self)@.stream_operator == old(self)@.stream_operator,
            old(self)@.stream_operator == StreamOperator::RSTREAM ==> res@ == new_response@ && final(self)@
                == old(self)@,
            old(self)@.stream_operator != StreamOperator::RSTREAM ==> final(self)@.ts == advanced(
                old(self)@,
                ts,
            ).ts,
            items_compare_deeply::<O>() && old(self)@.stream_operator != StreamOperator::RSTREAM ==> {
                &&& final(self)@ == prepared(old(self)@, deep_seq(new_response@), ts)
                &&& old(self)@.stream_operator == StreamOperator::ISTREAM ==> deep_seq(res@) == fresh_items(
                    deep_seq(new_response@),
                    final(self)@.old_result.to_set(),
                )
                &&& old(self)@.stream_operator == StreamOperator::DSTREAM ==> deep_seq(res@) == fresh_items(
                    final(self)@.old_result,
                    final(self)@.new_result.to_set(),
                )
            },
    {
        match self.stream_operator {
            StreamOperator::RSTREAM => new_response,
            StreamOperator::ISTREAM => {
                self.advance(ts);
                let out = Self::absent_from(&new_response, &self.old_result);
                self.add_items(new_response);
                out
            },
            StreamOperator::DSTREAM => {
                self.advance(ts);
                self.add_items(new_response);
                Self::absent_from(&self.old_result, &self.new_result)
            },
        }
    }

    /// Moves time to `ts` (see `advanced`).
    fn advance(&mut self, ts: usize)
        requires
            old(self).wf(),
        ensures
            final(self).wf(),
            final(self)@ == advanced(old(self)@, ts),
    {
        if self.ts < ts {
            std::mem::swap(&mut self.new_result, &mut self.old_result);
            self.new_result.clear();
            self.ts = ts;
            assert(deep_seq(self.new_result@) =~= Seq::<O::V>::empty());
        }
    }

    /// Adds the items to the current answer.
    fn add_items(&mut self, items: Vec<O>)
        requires
            old(self).wf(),
        ensures
            final(self).wf(),
            final(self)@.stream_operator == old(self)@.stream_operator,
            final(self)@.old_result == old(self)@.old_result,
            final(self)@.ts == old(self)@.ts,
            obeys_deep_eq::<O>() ==> final(self)@.new_result == add_distinct(old(self)@.new_result, deep_seq(items@)),
    {
        push_distinct(&mut self.new_result, items);
        proof {
            if obeys_deep_eq::<O>() {
                lemma_add_distinct_no_dup(old(self)@.new_result, deep_seq(items@));
            }
        }
    }

    /// Clones of the items of `src`, in order, that are not in `other`.
    fn absent_from(src: &Vec<O>, other: &Vec<O>) -> (res: Vec<O>)
        ensures
            items_compare_deeply::<O>() ==> deep_seq(res@) == fresh_items(deep_seq(src@), deep_seq(other@).to_set()),
    {
        let mut out: Vec<O> = Vec::new();
        let mut i: usize = 0;
        while i < src.len()
            invariant
                i <= src@.len(),
                items_compare_deeply::<O>() ==> deep_seq(out@) == fresh_items(
                    deep_seq(src@.subrange(0, i as int)),
                    deep_seq(other@).to_set(),
                ),
            decreases src@.len() - i,
        {
            let ghost out0 = out@;
            proof {
                let post = src@.subrange(0, i + 1);
                assert(deep_seq(post).len() == i + 1);
                assert(deep_seq(post).drop_last() =~= deep_seq(src@.subrange(0, i as int)));
                assert(deep_seq(post).last() == src@[i as int].deep_view());
                if items_compare_deeply::<O>() {
                    lemma_eq_in_deep(other@, src@[i as int]);
                }
            }
            if !contains_item(other, &src[i]) {
                let c = src[i].clone();
                out.push(c);
                proof {
                    if items_compare_deeply::<O>() {
                        assert(cloned::<O>(src@[i as int], c));
                        assert(c.deep_view() == src@[i as int].deep_view());
                    }
                    assert(deep_seq(out@) =~= deep_seq(out0).push(c.deep_view()));
                }
            }
            i = i + 1;
        }
        assert(src@.subrange(0, src@.len() as int) =~= src@);
        out
    }
}

} // verus!
