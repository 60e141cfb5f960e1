//! Stream processing: windows over timestamped items (stream to relation)
//! and operators that turn query answers back into streams (relation to
//! stream).
use vstd::prelude::*;
use vstd::laws_eq::{obeys_concrete_eq, obeys_deep_eq};
use vstd::std_specs::cmp::PartialEqSpec;

pub mod r2s;
pub mod s2r;
pub mod r2r;

verus! {

/// The items of `s`, each taken by its deep view.
pub open spec fn deep_seq<O: DeepView>(s: Seq<O>) -> Seq<O::V> {
    s.map_values(|x: O| x.deep_view())
}

/// A clone of an item has the item's deep view.
pub open spec fn clone_keeps_deep_view<O: Clone + DeepView>() -> bool {
    forall|a: O, b: O| #[trigger] cloned::<O>(a, b) ==> a.deep_view() == b.deep_view()
}

/// Whether `x` is among the items of `v`, by the items' `==`.
pub fn contains_item<O: PartialEq>(v: &Vec<O>, x: &O) -> (r: bool)
    ensures
        O::obeys_eq_spec() ==> (r <==> exists|k: int| 0 <= k < v@.len() && #[trigger] v@[k].eq_spec(x)),
        obeys_concrete_eq::<O>() ==> r == v@.contains(*x),
{
    let mut i: usize = 0;
    while i < v.len()
        invariant
            i <= v@.len(),
            O::obeys_eq_spec() ==> forall|k: int| 0 <= k < i ==> !(#[trigger] v@[k].eq_spec(x)),
        decreases v@.len() - i,
    {
        if v[i] == *x {
            proof {
                if obeys_concrete_eq::<O>() {
                    reveal(obeys_concrete_eq);
                    assert(v@[i as int] == *x);
                }
            }
            return true;
        }
        i = i + 1;
    }
    proof {
        if obeys_concrete_eq::<O>() {
            reveal(obeys_concrete_eq);
            assert forall|k: int| 0 <= k < v@.len() implies v@[k] != *x by {
                assert(!v@[k].eq_spec(x));
            }
        }
    }
    false
}

/// Under an `==` that compares deep views, an item equal to `x` is among
/// `s` exactly when `x`'s deep view is among theirs.
pub proof fn lemma_eq_in_deep<O: PartialEq + DeepView>(s: Seq<O>, x: O)
    requires
        obeys_deep_eq::<O>(),
    ensures
        O::obeys_eq_spec(),
        (exists|k: int| 0 <= k < s.len() && #[trigger] s[k].eq_spec(&x)) <==> deep_seq(s).contains(x.deep_view()),
{
    reveal(obeys_deep_eq);
    if exists|k: int| 0 <= k < s.len() && #[trigger] s[k].eq_spec(&x) {
        let k = choose|k: int| 0 <= k < s.len() && #[trigger] s[k].eq_spec(&x);
        assert(deep_seq(s)[k] == x.deep_view());
    }
    if deep_seq(s).contains(x.deep_view()) {
        let k = choose|k: int| 0 <= k < deep_seq(s).len() && deep_seq(s)[k] == x.deep_view();
        assert(s[k].eq_spec(&x));
    }
}

/// `s` followed by the items of `items` that are not already there, each
/// once, in order.
pub open spec fn add_distinct<O>(s: Seq<O>, items: Seq<O>) -> Seq<O>
    decreases items.len(),
{
    if items.len() == 0 {
        s
    } else {
        let s1 = if s.contains(items[0]) { s } else { s.push(items[0]) };
        add_distinct(s1, items.drop_first())
    }
}

/// The items of `s`, in order, that are not in `seen`.
pub open spec fn fresh_items<O>(s: Seq<O>, seen: Set<O>) -> Seq<O>
    decreases s.len(),
{
    if s.len() == 0 {
        seq![]
    } else if seen.contains(s.last()) {
        fresh_items(s.drop_last(), seen)
    } else {
        fresh_items(s.drop_last(), seen).push(s.last())
    }
}

/// `out` holds clones of the items of `src`, position by position.
pub open spec fn clones_of<O: Clone>(src: Seq<O>, out: Seq<O>) -> bool {
    &&& out.len() == src.len()
    &&& forall|i: int| 0 <= i < src.len() ==> cloned::<O>(#[trigger] src[i], out[i])
}

/// Adding items keeps a sequence free of duplicates.
pub proof fn lemma_add_distinct_no_dup<O>(s: Seq<O>, items: Seq<O>)
    requires
        s.no_duplicates(),
    ensures
        add_distinct(s, items).no_duplicates(),
    decreases items.len(),
{
    if items.len() > 0 {
        let s1 = if s.contains(items[0]) { s } else { s.push(items[0]) };
        if !s.contains(items[0]) {
            assert forall|i: int, j: int| 0 <= i < j < s1.len() implies s1[i] != s1[j] by {
                if j == s.len() {
                    assert(s.contains(s[i]));
                }
            }
        }
        lemma_add_distinct_no_dup(s1, items.drop_first());
    }
}

/// Moves the items of `items` to the end of `v`, skipping those already
/// there (see `add_distinct`, over the items' deep views).
pub fn push_distinct<O: PartialEq + DeepView>(v: &mut Vec<O>, items: Vec<O>)
    ensures
        obeys_deep_eq::<O>() ==> deep_seq(final(v)@) == add_distinct(deep_seq(old(v)@), deep_seq(items@)),
{
    let ghost all = items@;
    let mut rest: Vec<O> = Vec::new();
    let mut items = items;
    // reverse, so that popping gives the items in their order
    while items.len() > 0
        invariant
            items@ + rest@.reverse() == all,
        decreases items@.len(),
    {
        let ghost before = items@;
        let x = items.pop().unwrap();
        rest.push(x);
        proof {
            assert(before == items@.push(x));
            assert(rest@.reverse() =~= seq![x] + rest@.drop_last().reverse());
            assert(items@ + rest@.reverse() =~= before + rest@.drop_last().reverse());
        }
    }
    assert(rest@.reverse() =~= all);
    while rest.len() > 0
        invariant
            obeys_deep_eq::<O>() ==> add_distinct(deep_seq(old(v)@), deep_seq(all)) == add_distinct(
                deep_seq(v@),
                deep_seq(rest@.reverse()),
            ),
        decreases rest@.len(),
    {
        let ghost before = rest@;
        let ghost v0 = v@;
        let x = rest.pop().unwrap();
        proof {
            assert(before == rest@.push(x));
            assert(before.reverse() =~= seq![x] + rest@.reverse());
            assert(deep_seq(before.reverse()) =~= seq![x.deep_view()] + deep_seq(rest@.reverse()));
            assert((seq![x.deep_view()] + deep_seq(rest@.reverse())).drop_first() =~= deep_seq(rest@.reverse()));
            assert((seq![x.deep_view()] + deep_seq(rest@.reverse()))[0] == x.deep_view());
            if obeys_deep_eq::<O>() {
                lemma_eq_in_deep(v0, x);
            }
        }
        if !contains_item(v, &x) {
            v.push(x);
            proof {
                assert(deep_seq(v@) =~= deep_seq(v0).push(x.deep_view()));
            }
        }
    }
    assert(rest@.reverse() =~= Seq::<O>::empty());
    assert(deep_seq(rest@.reverse()) =~= Seq::<O::V>::empty());
}

} // verus!
