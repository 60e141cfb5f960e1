//! A reasoner fed by a time window: each time the window slides, the
//! difference with the content it held before is computed, the triples that
//! left are dropped and the new ones materialized with C-Sprite.
use vstd::prelude::*;
use std::rc::Rc;
use crate::triples::Triple;
use crate::csprite::{CSprite, window_update_ok, window_update_state};
use crate::imars_window::{unshared, copy_stamped, ImarsView};
use crate::reasoner::{cs_result, lemma_triple_eq};
use crate::ruleindex::empty_rule_index;
use crate::tripleindex::empty_index;

verus! {

/// What came into a window's content: when the previous content is empty,
/// all of it; when the new content is empty, nothing; else the items after
/// the first occurrence of the previous content's last item, skipping that
/// item where it occurs again.
pub open spec fn diff_additions(new: Seq<(i32, Triple)>, old: Seq<(i32, Triple)>) -> Seq<(i32, Triple)> {
    if old.len() == 0 {
        new
    } else if new.len() == 0 {
        seq![]
    } else {
        additions_after(new, old.last()).0
    }
}

/// The items after the first occurrence of `last`, without `last`, and
/// whether it occurs.
pub open spec fn additions_after(new: Seq<(i32, Triple)>, last: (i32, Triple)) -> (Seq<(i32, Triple)>, bool)
    decreases new.len(),
{
    if new.len() == 0 {
        (seq![], false)
    } else {
        let (a, found) = additions_after(new.drop_last(), last);
        if new.last() == last {
            (a, true)
        } else if found {
            (a.push(new.last()), true)
        } else {
            (a, false)
        }
    }
}

/// What left a window's content: when the previous content is empty,
/// nothing; when the new content is empty, all of it; else the previous
/// items before the first occurrence of the new content's first item.
pub open spec fn diff_removals(new: Seq<(i32, Triple)>, old: Seq<(i32, Triple)>) -> Seq<(i32, Triple)> {
    if old.len() == 0 {
        seq![]
    } else if new.len() == 0 {
        old
    } else {
        match old.index_of_first(new[0]) {
            Some(i) => old.take(i),
            None => old,
        }
    }
}

/// A reasoner over the successive contents of a time window.
pub struct WindowReasoner {
    pub store: CSprite,
    pub prev: Vec<(i32, Rc<Triple>)>,
}

impl WindowReasoner {
    /// A reasoner with an empty store and no previous content.
    pub fn new() -> (res: WindowReasoner)
        ensures
            res.store.wf(),
            res.store.rules_index@ == empty_rule_index(),
            res.store.triple_index@ == empty_index(),
            res.store.encoder@ == Seq::<Seq<char>>::empty(),
            res.store.window() == (ImarsView::<Triple> { content: seq![], pending: seq![], width: 0, slide: 0, time: 0 }),
            res.prev@.len() == 0,
    {
        WindowReasoner { store: CSprite::new(), prev: Vec::new() }
    }

    /// The additions and removals between a window's previous and new
    /// content (see `diff_additions` and `diff_removals`).
    pub fn compute_diff(new: &Vec<(i32, Rc<Triple>)>, old: &Vec<(i32, Rc<Triple>)>) -> (res: (Vec<(i32, Rc<Triple>)>, Vec<(i32, Rc<Triple>)>))
        ensures
            unshared(res.0@) == diff_additions(unshared(new@), unshared(old@)),
            unshared(res.1@) == diff_removals(unshared(new@), unshared(old@)),
    {
        proof {
            lemma_triple_eq();
            reveal(vstd::laws_eq::obeys_concrete_eq);
        }
        let ghost nv = unshared(new@);
        let ghost ov = unshared(old@);
        if old.len() == 0 {
            return (copy_stamped(new), Vec::new());
        }
        if new.len() == 0 {
            return (Vec::new(), copy_stamped(old));
        }
        let mut additions: Vec<(i32, Rc<Triple>)> = Vec::new();
        let mut removals: Vec<(i32, Rc<Triple>)> = Vec::new();
        let last = &old[old.len() - 1];
        assert(ov.last() == (last.0, *last.1));
        let mut found = false;
        let mut i: usize = 0;
        assert(nv.take(0) =~= Seq::<(i32, Triple)>::empty());
        while i < new.len()
            invariant
                i <= new@.len(),
                nv == unshared(new@),
                ov.len() > 0,
                ov.last() == (last.0, *last.1),
                additions_after(nv.take(i as int), ov.last()) == (unshared(additions@), found),
            decreases new@.len() - i,
        {
            let item = &new[i];
            proof {
                assert(nv.take(i + 1).drop_last() =~= nv.take(i as int));
                assert(nv.take(i + 1).last() == nv[i as int]);
                assert(nv[i as int] == (item.0, *item.1));
            }
            let ghost a0 = additions@;
            if item.0 == last.0 && *item.1 == *last.1 {
                found = true;
            } else if found {
                additions.push((item.0, crate::imars_window::share(&item.1)));
                assert(unshared(additions@) =~= unshared(a0).push((item.0, *item.1)));
            }
            i = i + 1;
        }
        assert(nv.take(nv.len() as int) =~= nv);
        let first = &new[0];
        assert(nv[0] == (first.0, *first.1));
        let mut j: usize = 0;
        let mut stop = false;
        while j < old.len() && !stop
            invariant
                j <= old@.len(),
                ov == unshared(old@),
                nv.len() > 0,
                nv[0] == (first.0, *first.1),
                unshared(removals@) == ov.take(j as int),
                forall|k: int| 0 <= k < j ==> ov[k] != nv[0],
                stop ==> j < ov.len() && ov[j as int] == nv[0],
            decreases old@.len() - j, if stop { 0int } else { 1int },
        {
            let old_item = &old[j];
            assert(ov[j as int] == (old_item.0, *old_item.1));
            if !(first.0 == old_item.0 && *first.1 == *old_item.1) {
                let ghost r0 = removals@;
                removals.push((old_item.0, crate::imars_window::share(&old_item.1)));
                assert(unshared(removals@) =~= unshared(r0).push(ov[j as int]));
                assert(ov.take(j + 1) =~= ov.take(j as int).push(ov[j as int]));
                j = j + 1;
            } else {
                stop = true;
            }
        }
        proof {
            if stop {
                ov.index_of_first_ensures(nv[0]);
                assert(ov.contains(nv[0]));
                let f = ov.index_of_first(nv[0]).unwrap();
                assert(f == j);
            } else {
                assert(ov.take(j as int) =~= ov);
                ov.index_of_first_ensures(nv[0]);
                assert(!ov.contains(nv[0]));
            }
        }
        (additions, removals)
    }

    /// Takes a window's new content: computes what came in and what left
    /// since the previous content (see `compute_diff`), updates the store
    /// with them (see `CSprite::window_update`), and keeps the content.
    pub fn update(&mut self, data: Vec<(i32, Rc<Triple>)>, ts: &i32)
        requires
            old(self).store.wf(),
            window_update_ok(
                old(self).store.triple_index@,
                old(self).store.window(),
                old(self).store.rules_index@,
                diff_additions(unshared(data@), unshared(old(self).prev@)),
                *ts,
            ),
        ensures
            final(self).store.wf(),
            ({
                let adds = diff_additions(unshared(data@), unshared(old(self).prev@));
                let (expired, v2, c2) = window_update_state(old(self).store.triple_index@, old(self).store.window(), adds, *ts);
                let st = cs_result(v2, c2, old(self).store.rules_index@, adds);
                &&& final(self).store.triple_index@ == st.0
                &&& final(self).store.window().content == st.1
            }),
            final(self).store.rules_index@ == old(self).store.rules_index@,
            unshared(final(self).prev@) == unshared(data@),
    {
        let (new, old) = Self::compute_diff(&data, &self.prev);
        self.store.window_update(new, old, ts);
        self.prev = data;
    }
}


/// The items after the first occurrence of `last` in `pre + seq![last] +
/// post`, when `last` occurs nowhere else, are those of `post`.
proof fn lemma_additions_after(pre: Seq<(i32, Triple)>, last: (i32, Triple), post: Seq<(i32, Triple)>)
    requires
        !pre.contains(last),
        !post.contains(last),
    ensures
        additions_after(pre + seq![last] + post, last) == (post, true),
    decreases post.len(),
{
    let s = pre + seq![last] + post;
    if post.len() == 0 {
        assert(s.drop_last() =~= pre);
        lemma_additions_none(pre, last);
    } else {
        assert(s.drop_last() =~= pre + seq![last] + post.drop_last());
        assert(!post.drop_last().contains(last)) by {
            if post.drop_last().contains(last) {
                let i = choose|i: int| 0 <= i < post.drop_last().len() && post.drop_last()[i] == last;
                assert(post[i] == last);
            }
        }
        lemma_additions_after(pre, last, post.drop_last());
        assert(s.last() == post.last());
        assert(post.last() != last) by {
            assert(post[post.len() - 1] == post.last());
        }
        assert(post.drop_last().push(post.last()) =~= post);
    }
}

/// Without `last`, nothing is found.
proof fn lemma_additions_none(s: Seq<(i32, Triple)>, last: (i32, Triple))
    requires
        !s.contains(last),
    ensures
        additions_after(s, last) == (Seq::<(i32, Triple)>::empty(), false),
    decreases s.len(),
{
    if s.len() > 0 {
        assert(!s.drop_last().contains(last)) by {
            if s.drop_last().contains(last) {
                let i = choose|i: int| 0 <= i < s.drop_last().len() && s.drop_last()[i] == last;
                assert(s[i] == last);
            }
        }
        lemma_additions_none(s.drop_last(), last);
        assert(s[s.len() - 1] == s.last());
    }
}

/// When a window slides over distinct items, dropping the first `k` items
/// of its previous content and taking in `fresh` ones, the difference
/// between the contents gives back exactly the items taken in and those
/// dropped.
pub proof fn law_diff_of_slide(old: Seq<(i32, Triple)>, k: int, fresh: Seq<(i32, Triple)>)
    requires
        0 <= k < old.len(),
        (old + fresh).no_duplicates(),
    ensures
        diff_additions(old.skip(k) + fresh, old) == fresh,
        diff_removals(old.skip(k) + fresh, old) == old.take(k),
{
    let new = old.skip(k) + fresh;
    let all = old + fresh;
    let last = old.last();
    let pre = old.skip(k).drop_last();
    assert(new =~= pre + seq![last] + fresh);
    assert(!pre.contains(last)) by {
        if pre.contains(last) {
            let i = choose|i: int| 0 <= i < pre.len() && pre[i] == last;
            assert(all[k + i] == pre[i]);
            assert(all[old.len() - 1] == last);
        }
    }
    assert(!fresh.contains(last)) by {
        if fresh.contains(last) {
            let i = choose|i: int| 0 <= i < fresh.len() && fresh[i] == last;
            assert(all[old.len() + i] == fresh[i]);
            assert(all[old.len() - 1] == last);
        }
    }
    lemma_additions_after(pre, last, fresh);
    assert(new[0] == old[k]);
    old.index_of_first_ensures(old[k]);
    assert(old.contains(old[k]));
    let f = old.index_of_first(old[k]).unwrap();
    assert(f == k) by {
        if f < k {
            assert(all[f] == old[f]);
            assert(all[k] == old[k]);
        }
    }
}

} // verus!
