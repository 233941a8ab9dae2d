//! Keeping some of a sequence's items.

use crate::ord_map;
use crate::ord_map::{MapKey, OrdMap};
use crate::order::TotalOrder;
use vstd::prelude::*;

verus! {

/// The items at the positions that are to be kept, in their order.
pub open spec fn kept<T>(items: Seq<T>, keep: spec_fn(int) -> bool) -> Seq<T>
    decreases items.len(),
{
    if items.len() == 0 {
        Seq::empty()
    } else {
        let init = kept(items.drop_last(), keep);
        if keep(items.len() - 1) {
            init.push(items.last())
        } else {
            init
        }
    }
}

/// Keeping goes by positions as filtering goes by items.
pub proof fn lemma_kept_is_filter<T>(items: Seq<T>, keep: spec_fn(int) -> bool, pred: spec_fn(T) -> bool)
    requires
        forall|i: int| 0 <= i < items.len() ==> keep(i) == pred(#[trigger] items[i]),
    ensures
        kept(items, keep) == items.filter(pred),
    decreases items.len(),
{
    reveal(Seq::filter);
    if items.len() > 0 {
        assert forall|i: int| 0 <= i < items.drop_last().len() implies keep(i) == pred(
            #[trigger] items.drop_last()[i],
        ) by {
            assert(items[i] == items.drop_last()[i]);
        }
        lemma_kept_is_filter(items.drop_last(), keep, pred);
        assert(items[items.len() - 1] == items.last());
    } else {
        assert(items.filter(pred) =~= Seq::empty());
    }
}

/// What is kept of increasing entries is increasing.
pub proof fn lemma_kept_increasing<K: MapKey, V>(entries: Seq<(K, V)>, keep: spec_fn(int) -> bool)
    requires
        ord_map::increasing(entries),
    ensures
        ord_map::increasing(kept(entries, keep)),
        forall|i: int|
            0 <= i < kept(entries, keep).len() ==> entries.contains(#[trigger] kept(entries, keep)[i]),
    decreases entries.len(),
{
    if entries.len() > 0 {
        let init = entries.drop_last();
        let before = kept(init, keep);
        let all = kept(entries, keep);
        lemma_kept_increasing(init, keep);
        assert forall|i: int| 0 <= i < before.len() implies entries.contains(#[trigger] before[i])
            && before[i].0.order().before(entries.last().0.order()) by {
            assert(init.contains(before[i]));
            let j = choose|j: int| 0 <= j < init.len() && init[j] == before[i];
            assert(entries[j] == before[i]);
            assert(entries[j].0.order().before(entries[entries.len() - 1].0.order()));
        }
        if keep(entries.len() - 1) {
            assert forall|i: int| 0 <= i < all.len() implies entries.contains(
                #[trigger] all[i],
            ) by {
                if i < before.len() {
                    assert(all[i] == before[i]);
                } else {
                    assert(all[i] == entries[entries.len() - 1]);
                }
            }
        }
    }
}

/// What a filter lets pass.
pub proof fn lemma_filter_contains<T>(items: Seq<T>, pred: spec_fn(T) -> bool, item: T)
    ensures
        items.filter(pred).contains(item) <==> items.contains(item) && pred(item),
{
    if items.contains(item) && pred(item) {
        let i = choose|i: int| 0 <= i < items.len() && items[i] == item;
        items.lemma_filter_contains(pred, i);
    }
    if items.filter(pred).contains(item) {
        items.lemma_filter_contains_rev(pred, item);
        let i = choose|i: int|
            0 <= i < items.filter(pred).len() && items.filter(pred)[i] == item;
        items.lemma_filter_pred(pred, i);
    }
}

/// A filter lets all pass that it let pass.
pub proof fn lemma_filter_twice<T>(items: Seq<T>, pred: spec_fn(T) -> bool)
    ensures
        items.filter(pred).filter(pred) == items.filter(pred),
    decreases items.len(),
{
    reveal(Seq::filter);
    if items.len() > 0 {
        lemma_filter_twice(items.drop_last(), pred);
        let init = items.drop_last().filter(pred);
        assert(init.push(items.last()).drop_last() =~= init);
    } else {
        assert(items.filter(pred) =~= Seq::empty());
        assert(Seq::<T>::empty().filter(pred) =~= Seq::empty());
    }
}

/// It makes no difference which of two filters comes first.
pub proof fn lemma_filters_commute<T>(items: Seq<T>, a: spec_fn(T) -> bool, b: spec_fn(T) -> bool)
    ensures
        items.filter(a).filter(b) == items.filter(b).filter(a),
    decreases items.len(),
{
    reveal(Seq::filter);
    if items.len() > 0 {
        let init = items.drop_last();
        let last = items.last();
        lemma_filters_commute(init, a, b);
        assert(init.filter(a).push(last).drop_last() =~= init.filter(a));
        assert(init.filter(b).push(last).drop_last() =~= init.filter(b));
    }
}

/// Filtering rests on nothing but which items pass.
pub proof fn lemma_filter_same<T>(items: Seq<T>, a: spec_fn(T) -> bool, b: spec_fn(T) -> bool)
    requires
        forall|item: T| #[trigger] a(item) == b(item),
    ensures
        items.filter(a) == items.filter(b),
    decreases items.len(),
{
    reveal(Seq::filter);
    if items.len() > 0 {
        lemma_filter_same(items.drop_last(), a, b);
        assert(a(items.last()) == b(items.last()));
    }
}

/// Keeps the items with a mark.
pub fn keep_marked<T>(items: Vec<T>, marks: &Vec<bool>) -> (result: Vec<T>)
    requires
        items@.len() == marks@.len(),
    ensures
        result@ == kept(items@, |i: int| marks@[i]),
{
    let ghost keep = |i: int| marks@[i];
    let ghost all = items@;
    let mut result: Vec<T> = Vec::new();
    let count: usize = marks.len();
    let mut at: usize = 0;
    assert(all.take(0) =~= Seq::empty());
    for item in it: items
        invariant
            it.seq() == all,
            at == it.index(),
            all.len() == count,
            count == marks@.len(),
            keep == (|i: int| marks@[i]),
            result@ == kept(all.take(at as int), keep),
    {
        assert(all.take(at + 1).drop_last() =~= all.take(at as int));
        if marks[at] {
            result.push(item);
        }
        at = at + 1;
    }
    assert(all.take(all.len() as int) =~= all);
    result
}

/// Keeping rests on nothing but which positions are to be kept.
pub proof fn lemma_kept_same<T>(items: Seq<T>, a: spec_fn(int) -> bool, b: spec_fn(int) -> bool)
    requires
        forall|i: int| 0 <= i < items.len() ==> #[trigger] a(i) == b(i),
    ensures
        kept(items, a) == kept(items, b),
    decreases items.len(),
{
    if items.len() > 0 {
        lemma_kept_same(items.drop_last(), a, b);
        assert(a(items.len() - 1) == b(items.len() - 1));
    }
}

/// Keeps the entries with a mark.
pub fn retain_marked<V>(entries: &mut OrdMap<String, V>, marks: &Vec<bool>)
    requires
        marks@.len() == old(entries)@.len(),
    ensures
        final(entries)@ == kept(old(entries)@, |i: int| marks@[i]),
{
    let mut all: OrdMap<String, V> = OrdMap::new();
    std::mem::swap(&mut all, entries);
    let list = all.into_entries();
    proof {
        lemma_kept_increasing(list@, |i: int| marks@[i]);
    }
    *entries = OrdMap::from_increasing(keep_marked(list, marks));
}

} // verus!
