//! A map that keeps its entries in the order of their keys.

use crate::order;
use crate::order::{compare_text, Rank, TotalOrder};
use vstd::prelude::*;

verus! {

/// A key of an [`OrdMap`]. Two keys are the same entry of a map when their orders are equal.
pub trait MapKey: Sized {
    type Order: TotalOrder;

    /// What places the key among others.
    spec fn order(&self) -> Self::Order;

    /// Compares two keys by their orders.
    fn compare(&self, other: &Self) -> (rank: Rank)
        ensures
            order::ranks(self.order(), other.order(), rank),
    ;

    /// Makes a second copy of the key.
    fn duplicate(&self) -> (copy: Self)
        ensures
            copy == *self,
    ;
}

/// Texts are keys in the order of their code points.
impl MapKey for String {
    type Order = Seq<char>;

    open spec fn order(&self) -> Seq<char> {
        self@
    }

    fn compare(&self, other: &Self) -> (rank: Rank) {
        compare_text(self.as_str(), other.as_str())
    }

    fn duplicate(&self) -> (copy: Self) {
        self.clone()
    }
}

/// Whether each entry's key comes before those of all later entries.
pub open spec fn increasing<K: MapKey, V>(entries: Seq<(K, V)>) -> bool {
    forall|i: int, j: int|
        #![trigger entries[i], entries[j]]
        0 <= i < j < entries.len() ==> entries[i].0.order().before(entries[j].0.order())
}

/// Whether entry `i` is the one of `key`.
pub open spec fn entry_at<K: MapKey, V>(entries: Seq<(K, V)>, key: K::Order, i: int) -> bool {
    0 <= i < entries.len() && entries[i].0.order() == key
}

/// Whether there is an entry of `key`.
pub open spec fn has_entry<K: MapKey, V>(entries: Seq<(K, V)>, key: K::Order) -> bool {
    exists|i: int| entry_at(entries, key, i)
}

/// The entry of `key`, where there is one.
pub open spec fn entry_of<K: MapKey, V>(entries: Seq<(K, V)>, key: K::Order) -> (K, V) {
    entries[choose|i: int| entry_at(entries, key, i)]
}

/// The entries as a mathematical map from keys to values.
pub open spec fn dict<K: MapKey, V>(entries: Seq<(K, V)>) -> Map<K::Order, V> {
    Map::new(|key: K::Order| has_entry(entries, key), |key: K::Order| entry_of(entries, key).1)
}

/// The entries whose keys come before `key`.
pub open spec fn entries_before<K: MapKey, V>(entries: Seq<(K, V)>, key: K::Order) -> Seq<(K, V)> {
    entries.filter(|e: (K, V)| e.0.order().before(key))
}

/// The entries whose keys come after `key`.
pub open spec fn entries_after<K: MapKey, V>(entries: Seq<(K, V)>, key: K::Order) -> Seq<(K, V)> {
    entries.filter(|e: (K, V)| key.before(e.0.order()))
}

/// The entries with `value` set for `key`. An entry that is there already keeps its own key.
pub open spec fn put<K: MapKey, V>(entries: Seq<(K, V)>, key: K, value: V) -> Seq<(K, V)> {
    let stored = if has_entry(entries, key.order()) {
        entry_of(entries, key.order()).0
    } else {
        key
    };
    entries_before(entries, key.order()) + seq![(stored, value)] + entries_after(
        entries,
        key.order(),
    )
}

/// The entries with all values of others set.
pub open spec fn put_all<K: MapKey, V>(entries: Seq<(K, V)>, others: Seq<(K, V)>) -> Seq<(K, V)>
    decreases others.len(),
{
    if others.len() == 0 {
        entries
    } else {
        put(put_all(entries, others.drop_last()), others.last().0, others.last().1)
    }
}

/// The entries but that of `key`.
pub open spec fn without<K: MapKey, V>(entries: Seq<(K, V)>, key: K::Order) -> Seq<(K, V)> {
    entries.filter(|e: (K, V)| e.0.order() != key)
}

/// The pairs behind pairs of references.
pub open spec fn behind<K, V>(borrowed: Seq<(&K, &V)>) -> Seq<(K, V)> {
    borrowed.map_values(|e: (&K, &V)| (*e.0, *e.1))
}

/// In increasing entries each key has at most one entry, which is what [`dict`] and [`entry_of`]
/// give for it.
pub proof fn lemma_entry<K: MapKey, V>(entries: Seq<(K, V)>, i: int)
    requires
        increasing(entries),
        0 <= i < entries.len(),
    ensures
        has_entry(entries, entries[i].0.order()),
        entry_of(entries, entries[i].0.order()) == entries[i],
        dict(entries).contains_key(entries[i].0.order()),
        dict(entries)[entries[i].0.order()] == entries[i].1,
{
    let key = entries[i].0.order();
    assert(entry_at(entries, key, i));
    let j = choose|j: int| entry_at(entries, key, j);
    K::Order::lemma_irreflexive(key);
    if i < j {
        assert(entries[i].0.order().before(entries[j].0.order()));
    } else if j < i {
        assert(entries[j].0.order().before(entries[i].0.order()));
    }
}

/// A filter that lets exactly the first `i` elements pass yields them.
proof fn lemma_filter_prefix<A>(s: Seq<A>, pred: spec_fn(A) -> bool, i: int)
    requires
        0 <= i <= s.len(),
        forall|j: int| 0 <= j < i ==> pred(#[trigger] s[j]),
        forall|j: int| i <= j < s.len() ==> !pred(#[trigger] s[j]),
    ensures
        s.filter(pred) == s.take(i),
    decreases s.len(),
{
    reveal(Seq::filter);
    if s.len() > 0 {
        let rest = s.drop_last();
        if i == s.len() {
            lemma_filter_prefix(rest, pred, i - 1);
            assert(s.take(i) =~= rest.take(i - 1).push(s.last()));
        } else {
            lemma_filter_prefix(rest, pred, i);
            assert(s.take(i) =~= rest.take(i));
        }
    } else {
        assert(s.take(i) =~= s);
    }
}

/// A filter that lets all but the first `i` elements pass yields the others.
proof fn lemma_filter_suffix<A>(s: Seq<A>, pred: spec_fn(A) -> bool, i: int)
    requires
        0 <= i <= s.len(),
        forall|j: int| 0 <= j < i ==> !pred(#[trigger] s[j]),
        forall|j: int| i <= j < s.len() ==> pred(#[trigger] s[j]),
    ensures
        s.filter(pred) == s.skip(i),
    decreases s.len(),
{
    reveal(Seq::filter);
    if s.len() > 0 {
        let rest = s.drop_last();
        if i == s.len() {
            lemma_filter_suffix(rest, pred, i - 1);
            assert(rest.skip(i - 1) =~= s.skip(i));
        } else {
            lemma_filter_suffix(rest, pred, i);
            assert(s.skip(i) =~= rest.skip(i).push(s.last()));
        }
    } else {
        assert(s.skip(i) =~= s);
    }
}

/// Where `key` belongs among increasing entries.
spec fn slot<K: MapKey, V>(entries: Seq<(K, V)>, key: K::Order, found: bool, at: int) -> bool {
    &&& 0 <= at <= entries.len()
    &&& forall|i: int| 0 <= i < at ==> (#[trigger] entries[i]).0.order().before(key)
    &&& found ==> at < entries.len() && entries[at].0.order() == key
    &&& forall|i: int|
        (if found {
            at + 1
        } else {
            at
        }) <= i < entries.len() ==> key.before((#[trigger] entries[i]).0.order())
}

/// A filter that stops only the element at `i` removes it.
proof fn lemma_filter_one_out<A>(s: Seq<A>, pred: spec_fn(A) -> bool, i: int)
    requires
        0 <= i < s.len(),
        !pred(s[i]),
        forall|j: int| 0 <= j < s.len() && j != i ==> pred(#[trigger] s[j]),
    ensures
        s.filter(pred) == s.remove(i),
    decreases s.len(),
{
    reveal(Seq::filter);
    let rest = s.drop_last();
    if i == s.len() - 1 {
        lemma_filter_prefix(rest, pred, rest.len() as int);
        assert(s.remove(i) =~= rest.take(rest.len() as int));
    } else {
        lemma_filter_one_out(rest, pred, i);
        assert(s.remove(i) =~= rest.remove(i).push(s.last()));
    }
}

/// The place of `key` tells whether it has an entry, and which.
proof fn lemma_slot_entry<K: MapKey, V>(entries: Seq<(K, V)>, key: K::Order, found: bool, at: int)
    requires
        increasing(entries),
        slot(entries, key, found, at),
    ensures
        has_entry(entries, key) == found,
        dict(entries).contains_key(key) == found,
        found ==> entry_of(entries, key) == entries[at] && dict(entries)[key] == entries[at].1,
{
    K::Order::lemma_irreflexive(key);
    if found {
        lemma_entry(entries, at);
    } else {
        assert forall|i: int| !entry_at(entries, key, i) by {
            if 0 <= i < entries.len() {
                assert(entries[i].0.order().before(key) || key.before(entries[i].0.order()));
            }
        }
    }
}

/// The place of `key` parts the entries into those before and those after it.
proof fn lemma_slot_parts<K: MapKey, V>(entries: Seq<(K, V)>, key: K::Order, found: bool, at: int)
    requires
        increasing(entries),
        slot(entries, key, found, at),
    ensures
        entries_before(entries, key) == entries.take(at),
        entries_after(entries, key) == entries.skip(
            if found {
                at + 1
            } else {
                at
            },
        ),
{
    let after = if found {
        at + 1
    } else {
        at
    };
    K::Order::lemma_irreflexive(key);
    assert forall|i: int| at <= i < entries.len() implies !(#[trigger] entries[i]).0.order().before(
        key,
    ) by {
        if i >= after && entries[i].0.order().before(key) {
            K::Order::lemma_transitive(key, entries[i].0.order(), key);
        }
    }
    assert forall|i: int| 0 <= i < after implies !key.before((#[trigger] entries[i]).0.order()) by {
        if i < at && key.before(entries[i].0.order()) {
            K::Order::lemma_transitive(key, entries[i].0.order(), key);
        }
    }
    lemma_filter_prefix(entries, |e: (K, V)| e.0.order().before(key), at);
    lemma_filter_suffix(entries, |e: (K, V)| key.before(e.0.order()), after);
}

/// The place of `key` tells what is left without its entry.
proof fn lemma_slot_without<K: MapKey, V>(entries: Seq<(K, V)>, key: K::Order, found: bool, at: int)
    requires
        increasing(entries),
        slot(entries, key, found, at),
    ensures
        without(entries, key) == (if found {
            entries.remove(at)
        } else {
            entries
        }),
{
    K::Order::lemma_irreflexive(key);
    let other = |e: (K, V)| e.0.order() != key;
    assert forall|i: int| 0 <= i < entries.len() && !(found && i == at) implies other(
        #[trigger] entries[i],
    ) by {
        assert(entries[i].0.order().before(key) || key.before(entries[i].0.order()));
    }
    if found {
        lemma_filter_one_out(entries, other, at);
    } else {
        lemma_filter_prefix(entries, other, entries.len() as int);
        assert(entries.take(entries.len() as int) =~= entries);
    }
}

/// Whether a key has the same entry in two lists, or none in both.
spec fn same_entry<K: MapKey, V>(a: Seq<(K, V)>, b: Seq<(K, V)>, key: K::Order) -> bool {
    &&& has_entry(a, key) == has_entry(b, key)
    &&& has_entry(a, key) ==> entry_of(a, key) == entry_of(b, key)
}

/// Setting a value in increasing entries, seen from the place of the key.
proof fn lemma_put<K: MapKey, V>(
    entries: Seq<(K, V)>,
    key: K,
    value: V,
    found: bool,
    at: int,
    result: Seq<(K, V)>,
)
    requires
        increasing(entries),
        slot(entries, key.order(), found, at),
        found ==> result == entries.update(at, (entries[at].0, value)),
        !found ==> result == entries.insert(at, (key, value)),
    ensures
        result == put(entries, key, value),
        increasing(result),
        dict(result) == dict(entries).insert(key.order(), value),
        has_entry(result, key.order()),
        entry_of(result, key.order()) == result[at],
        forall|k: K::Order| k != key.order() ==> #[trigger] same_entry(result, entries, k),
{
    lemma_slot_entry(entries, key.order(), found, at);
    lemma_slot_parts(entries, key.order(), found, at);
    assert(result =~= put(entries, key, value));
    assert(increasing(result));
    lemma_entry(result, at);
    assert forall|k: K::Order| k != key.order() implies #[trigger] has_entry(result, k)
        == has_entry(entries, k) && (has_entry(entries, k) ==> entry_of(result, k) == entry_of(
        entries,
        k,
    )) by {
        if has_entry(entries, k) {
            let i = choose|i: int| entry_at(entries, k, i);
            let j = if found || i < at {
                i
            } else {
                i + 1
            };
            assert(result[j] == entries[i]);
            lemma_entry(entries, i);
            lemma_entry(result, j);
        }
        if has_entry(result, k) {
            let j = choose|j: int| entry_at(result, k, j);
            let i = if found || j < at {
                j
            } else {
                j - 1
            };
            assert(result[j] == entries[i]);
            lemma_entry(entries, i);
        }
    }
    assert(dict(result) =~= dict(entries).insert(key.order(), value));
}

/// Leaving an entry out of increasing entries, seen from the place of the key.
proof fn lemma_without<K: MapKey, V>(entries: Seq<(K, V)>, key: K::Order, found: bool, at: int)
    requires
        increasing(entries),
        slot(entries, key, found, at),
    ensures
        increasing(without(entries, key)),
        dict(without(entries, key)) == dict(entries).remove(key),
{
    lemma_slot_entry(entries, key, found, at);
    lemma_slot_without(entries, key, found, at);
    let result = without(entries, key);
    assert(increasing(result));
    assert forall|k: K::Order| k != key implies #[trigger] has_entry(result, k) == has_entry(
        entries,
        k,
    ) && (has_entry(entries, k) ==> entry_of(result, k) == entry_of(entries, k)) by {
        if has_entry(entries, k) {
            let i = choose|i: int| entry_at(entries, k, i);
            let j = if !found || i < at {
                i
            } else {
                i - 1
            };
            assert(result[j] == entries[i]);
            lemma_entry(entries, i);
            lemma_entry(result, j);
        }
        if has_entry(result, k) {
            let j = choose|j: int| entry_at(result, k, j);
            let i = if !found || j < at {
                j
            } else {
                j + 1
            };
            assert(result[j] == entries[i]);
            lemma_entry(entries, i);
        }
    }
    assert(!has_entry(result, key)) by {
        if has_entry(result, key) {
            let j = choose|j: int| entry_at(result, key, j);
            let i = if !found || j < at {
                j
            } else {
                j + 1
            };
            assert(result[j] == entries[i]);
            K::Order::lemma_irreflexive(key);
            assert(entries[i].0.order().before(key) || key.before(entries[i].0.order()));
        }
    }
    assert(dict(result) =~= dict(entries).remove(key));
}

/// Every key has its place among increasing entries.
proof fn lemma_slot_exists<K: MapKey, V>(entries: Seq<(K, V)>, key: K::Order) -> (place: (bool, int))
    requires
        increasing(entries),
    ensures
        slot(entries, key, place.0, place.1),
    decreases entries.len(),
{
    if entries.len() == 0 {
        (false, 0)
    } else {
        let at = entries.len() - 1;
        let last = entries[at].0.order();
        K::Order::lemma_total(last, key);
        assert forall|i: int| 0 <= i < at && (last.before(key) || last == key) implies (
        #[trigger] entries[i]).0.order().before(key) by {
            assert(entries[i].0.order().before(last));
            if last.before(key) {
                K::Order::lemma_transitive(entries[i].0.order(), last, key);
            }
        }
        if last.before(key) {
            (false, entries.len() as int)
        } else if last == key {
            (true, at)
        } else {
            let init = entries.drop_last();
            let place = lemma_slot_exists(init, key);
            assert forall|i: int| 0 <= i < place.1 implies (#[trigger] entries[i]).0.order().before(
                key,
            ) by {
                assert(init[i] == entries[i]);
            }
            let after = if place.0 {
                place.1 + 1
            } else {
                place.1
            };
            assert forall|i: int| after <= i < entries.len() implies key.before(
                (#[trigger] entries[i]).0.order(),
            ) by {
                if i < at {
                    assert(init[i] == entries[i]);
                }
            }
            if place.0 {
                assert(init[place.1] == entries[place.1]);
            }
            place
        }
    }
}

/// Setting a value in a map keeps its entries increasing and sets the value of that key alone.
pub proof fn lemma_put_dict<K: MapKey, V>(entries: Seq<(K, V)>, key: K, value: V)
    requires
        increasing(entries),
    ensures
        increasing(put(entries, key, value)),
        dict(put(entries, key, value)) == dict(entries).insert(key.order(), value),
{
    let (found, at) = lemma_slot_exists(entries, key.order());
    if found {
        lemma_put(
            entries,
            key,
            value,
            found,
            at,
            entries.update(at, (entries[at].0, value)),
        );
    } else {
        lemma_put(entries, key, value, found, at, entries.insert(at, (key, value)));
    }
}

/// In increasing entries, all but those of one entry's key are all but that entry.
pub proof fn lemma_without_entry<K: MapKey, V>(entries: Seq<(K, V)>, i: int)
    requires
        increasing(entries),
        0 <= i < entries.len(),
    ensures
        without(entries, entries[i].0.order()) == entries.remove(i),
{
    let key = entries[i].0.order();
    assert(slot(entries, key, true, i)) by {
        assert forall|j: int| 0 <= j < i implies (#[trigger] entries[j]).0.order().before(key) by {
            assert(entries[j].0.order().before(entries[i].0.order()));
        }
        assert forall|j: int| i + 1 <= j < entries.len() implies key.before(
            (#[trigger] entries[j]).0.order(),
        ) by {
            assert(entries[i].0.order().before(entries[j].0.order()));
        }
    }
    lemma_slot_without(entries, key, true, i);
}

/// The greatest key of increasing entries.
proof fn lemma_last_key<K: MapKey, V>(entries: Seq<(K, V)>, key: K::Order)
    requires
        increasing(entries),
        has_entry(entries, key),
    ensures
        key == entries.last().0.order() || key.before(entries.last().0.order()),
{
    let i = choose|i: int| entry_at(entries, key, i);
    if i < entries.len() - 1 {
        assert(entries[i].0.order().before(entries[entries.len() - 1].0.order()));
    }
}

/// Leaving out the last of increasing entries removes its key.
proof fn lemma_drop_last<K: MapKey, V>(entries: Seq<(K, V)>)
    requires
        increasing(entries),
        entries.len() > 0,
    ensures
        increasing(entries.drop_last()),
        dict(entries.drop_last()) == dict(entries).remove(entries.last().0.order()),
{
    let key = entries.last().0.order();
    let at = entries.len() - 1;
    assert(slot(entries, key, true, at)) by {
        assert forall|i: int| 0 <= i < at implies (#[trigger] entries[i]).0.order().before(key) by {
            assert(entries[i].0.order().before(entries[at].0.order()));
        }
    }
    lemma_slot_without(entries, key, true, at);
    lemma_without(entries, key, true, at);
    assert(entries.remove(at) =~= entries.drop_last());
}

/// Two maps that hold the same values for the same keys have them in the same order.
pub proof fn lemma_dict_fixes_order<K: MapKey, V>(a: Seq<(K, V)>, b: Seq<(K, V)>)
    requires
        increasing(a),
        increasing(b),
        dict(a) == dict(b),
    ensures
        a.len() == b.len(),
        forall|i: int|
            #![trigger a[i]]
            #![trigger b[i]]
            0 <= i < a.len() ==> a[i].0.order() == b[i].0.order() && a[i].1 == b[i].1,
    decreases a.len(),
{
    if a.len() == 0 {
        if b.len() > 0 {
            lemma_entry(b, 0);
            assert(dict(a).contains_key(b[0].0.order()));
        }
    } else {
        lemma_entry(a, a.len() - 1);
        let x = a.last().0.order();
        assert(dict(b).contains_key(x));
        assert(b.len() > 0);
        lemma_entry(b, b.len() - 1);
        let y = b.last().0.order();
        assert(dict(a).contains_key(y));
        lemma_last_key(a, y);
        lemma_last_key(b, x);
        if x != y {
            K::Order::lemma_transitive(x, y, x);
            K::Order::lemma_irreflexive(x);
        }
        lemma_drop_last(a);
        lemma_drop_last(b);
        lemma_dict_fixes_order(a.drop_last(), b.drop_last());
        assert forall|i: int|
            #![trigger a[i]]
            #![trigger b[i]]
            0 <= i < a.len() implies a[i].0.order() == b[i].0.order() && a[i].1 == b[i].1 by {
            if i < a.len() - 1 {
                assert(a[i] == a.drop_last()[i]);
                assert(b[i] == b.drop_last()[i]);
            }
        }
    }
}

/// Setting a value in increasing entries sets the entry of that key alone. An entry that is there
/// already keeps its own key.
proof fn lemma_put_entry<K: MapKey, V>(entries: Seq<(K, V)>, key: K, value: V, k: K::Order)
    requires
        increasing(entries),
    ensures
        increasing(put(entries, key, value)),
        has_entry(put(entries, key, value), k) == (k == key.order() || has_entry(entries, k)),
        k == key.order() ==> entry_of(put(entries, key, value), k) == (
            if has_entry(entries, k) {
                entry_of(entries, k).0
            } else {
                key
            },
            value,
        ),
        k != key.order() && has_entry(entries, k) ==> entry_of(put(entries, key, value), k)
            == entry_of(entries, k),
{
    let (found, at) = lemma_slot_exists(entries, key.order());
    lemma_slot_entry(entries, key.order(), found, at);
    let result = if found {
        entries.update(at, (entries[at].0, value))
    } else {
        entries.insert(at, (key, value))
    };
    lemma_put(entries, key, value, found, at, result);
    assert(k != key.order() ==> same_entry(result, entries, k));
}

/// The last of increasing entries is as if it had been set after the others.
proof fn lemma_put_last<K: MapKey, V>(entries: Seq<(K, V)>, k: K::Order)
    requires
        increasing(entries),
        entries.len() > 0,
    ensures
        increasing(entries.drop_last()),
        !has_entry(entries.drop_last(), entries.last().0.order()),
        has_entry(entries, k) == (k == entries.last().0.order() || has_entry(
            entries.drop_last(),
            k,
        )),
        k == entries.last().0.order() ==> entry_of(entries, k) == entries.last(),
        k != entries.last().0.order() && has_entry(entries, k) ==> entry_of(entries, k)
            == entry_of(entries.drop_last(), k),
{
    let init = entries.drop_last();
    let (key, value) = entries.last();
    let at = init.len() as int;
    assert(slot(init, key.order(), false, at)) by {
        assert forall|i: int| 0 <= i < at implies (#[trigger] init[i]).0.order().before(
            key.order(),
        ) by {
            assert(entries[i].0.order().before(entries[at].0.order()));
        }
    }
    lemma_slot_entry(init, key.order(), false, at);
    assert(entries =~= init.insert(at, (key, value)));
    lemma_put(init, key, value, false, at, entries);
    assert(k != key.order() ==> same_entry(entries, init, k));
}

/// The entries with all values of others set: the others give the values, and their keys where
/// there was none.
proof fn lemma_put_all_entry<K: MapKey, V>(a: Seq<(K, V)>, b: Seq<(K, V)>, k: K::Order)
    requires
        increasing(a),
        increasing(b),
    ensures
        increasing(put_all(a, b)),
        has_entry(put_all(a, b), k) == (has_entry(a, k) || has_entry(b, k)),
        has_entry(b, k) ==> entry_of(put_all(a, b), k) == (
            if has_entry(a, k) {
                entry_of(a, k).0
            } else {
                entry_of(b, k).0
            },
            entry_of(b, k).1,
        ),
        has_entry(a, k) && !has_entry(b, k) ==> entry_of(put_all(a, b), k) == entry_of(a, k),
    decreases b.len(),
{
    if b.len() > 0 {
        let init = b.drop_last();
        lemma_put_last(b, k);
        lemma_put_all_entry(a, init, k);
        lemma_put_entry(put_all(a, init), b.last().0, b.last().1, k);
    } else {
        assert(!has_entry(b, k));
    }
}

/// Entries are the same where each key has the same entry in both.
proof fn lemma_same_entries<K: MapKey, V>(a: Seq<(K, V)>, b: Seq<(K, V)>)
    requires
        increasing(a),
        increasing(b),
        forall|k: K::Order| #[trigger] same_entry(a, b, k),
    ensures
        a == b,
    decreases a.len(),
{
    if a.len() == 0 {
        if b.len() > 0 {
            lemma_entry(b, 0);
            assert(same_entry(a, b, b[0].0.order()));
        }
        assert(a =~= b);
    } else {
        let x = a.last().0.order();
        lemma_entry(a, a.len() - 1);
        assert(same_entry(a, b, x));
        assert(b.len() > 0);
        let y = b.last().0.order();
        lemma_entry(b, b.len() - 1);
        assert(same_entry(a, b, y));
        lemma_last_key(a, y);
        lemma_last_key(b, x);
        if x != y {
            K::Order::lemma_transitive(x, y, x);
            K::Order::lemma_irreflexive(x);
        }
        let (c, d) = (a.drop_last(), b.drop_last());
        assert forall|k: K::Order| #[trigger] same_entry(c, d, k) by {
            lemma_put_last(a, k);
            lemma_put_last(b, k);
            assert(same_entry(a, b, k));
        }
        lemma_put_last(a, x);
        lemma_put_last(b, x);
        lemma_same_entries(c, d);
        assert(a =~= c.push(a.last()));
        assert(b =~= d.push(b.last()));
    }
}

/// Setting the values of two maps in a third gives the same whichever two are taken first.
pub proof fn lemma_put_all_associative<K: MapKey, V>(
    a: Seq<(K, V)>,
    b: Seq<(K, V)>,
    c: Seq<(K, V)>,
)
    requires
        increasing(a),
        increasing(b),
        increasing(c),
    ensures
        put_all(put_all(a, b), c) == put_all(a, put_all(b, c)),
{
    let left = put_all(put_all(a, b), c);
    let right = put_all(a, put_all(b, c));
    assert forall|k: K::Order| #[trigger] same_entry(left, right, k) by {
        lemma_put_all_entry(a, b, k);
        lemma_put_all_entry(b, c, k);
        lemma_put_all_entry(put_all(a, b), c, k);
        lemma_put_all_entry(a, put_all(b, c), k);
    }
    lemma_put_all_increasing(a, b);
    lemma_put_all_increasing(b, c);
    lemma_put_all_increasing(put_all(a, b), c);
    lemma_put_all_increasing(a, put_all(b, c));
    lemma_same_entries(left, right);
}

/// Setting values keeps entries increasing.
proof fn lemma_put_all_increasing<K: MapKey, V>(a: Seq<(K, V)>, b: Seq<(K, V)>)
    requires
        increasing(a),
    ensures
        increasing(put_all(a, b)),
    decreases b.len(),
{
    if b.len() > 0 {
        lemma_put_all_increasing(a, b.drop_last());
        lemma_put_dict(put_all(a, b.drop_last()), b.last().0, b.last().1);
    }
}

/// Setting the values of a map in an empty one gives that map.
pub proof fn lemma_put_all_into_empty<K: MapKey, V>(entries: Seq<(K, V)>)
    requires
        increasing(entries),
    ensures
        put_all(Seq::empty(), entries) == entries,
{
    let none = Seq::<(K, V)>::empty();
    let all = put_all(none, entries);
    lemma_put_all_increasing(none, entries);
    assert forall|k: K::Order| #[trigger] same_entry(all, entries, k) by {
        lemma_put_all_entry(none, entries, k);
        assert(!has_entry(none, k));
    }
    lemma_same_entries(all, entries);
}

/// A map from keys to values that keeps its entries in the order of their keys.
///
/// Its view is the sequence of its entries; [`dict`] of the view is the mathematical map.
#[derive(Debug, PartialEq, Eq)]
pub struct OrdMap<K: MapKey, V> {
    entries: Vec<(K, V)>,
}

impl<K: MapKey, V> View for OrdMap<K, V> {
    type V = Seq<(K, V)>;

    closed spec fn view(&self) -> Seq<(K, V)> {
        self.entries@
    }
}

impl<K: MapKey, V> OrdMap<K, V> {
    /// Every map's entries are increasing.
    #[verifier::type_invariant]
    pub open spec fn well_formed(self) -> bool {
        increasing(self@)
    }

    /// The map as a mathematical one.
    pub open spec fn dict(self) -> Map<K::Order, V> {
        dict(self@)
    }

    /// Makes an empty map.
    pub fn new() -> (map: Self)
        ensures
            map@ == Seq::<(K, V)>::empty(),
            map.dict() == Map::<K::Order, V>::empty(),
    {
        let map = OrdMap { entries: Vec::new() };
        assert(map.dict() =~= Map::<K::Order, V>::empty());
        map
    }

    /// The number of entries.
    pub fn len(&self) -> (n: usize)
        ensures
            n == self@.len(),
    {
        self.entries.len()
    }

    /// Whether there are no entries.
    pub fn is_empty(&self) -> (b: bool)
        ensures
            b == (self@.len() == 0),
    {
        self.entries.len() == 0
    }

    /// Finds where `key` belongs by halving the range that is left.
    fn locate(entries: &Vec<(K, V)>, key: &K) -> (place: (bool, usize))
        requires
            increasing(entries@),
        ensures
            slot(entries@, key.order(), place.0, place.1 as int),
    {
        let mut low: usize = 0;
        let mut high: usize = entries.len();
        while low < high
            invariant
                increasing(entries@),
                low <= high <= entries@.len(),
                forall|i: int| 0 <= i < low ==> (#[trigger] entries@[i]).0.order().before(key.order()),
                forall|i: int|
                    high <= i < entries@.len() ==> key.order().before(
                        (#[trigger] entries@[i]).0.order(),
                    ),
            decreases high - low,
        {
            let mid: usize = low + (high - low) / 2;
            let ghost middle = entries@[mid as int].0.order();
            match entries[mid].0.compare(key) {
                Rank::Less => {
                    assert forall|i: int| 0 <= i < mid + 1 implies (
                    #[trigger] entries@[i]).0.order().before(key.order()) by {
                        if i < mid {
                            assert(entries@[i].0.order().before(middle));
                            K::Order::lemma_transitive(entries@[i].0.order(), middle, key.order());
                        }
                    }
                    low = mid + 1;
                },
                Rank::Equal => {
                    assert forall|i: int| 0 <= i < mid implies (
                    #[trigger] entries@[i]).0.order().before(key.order()) by {
                        assert(entries@[i].0.order().before(entries@[mid as int].0.order()));
                    }
                    assert forall|i: int| mid + 1 <= i < entries@.len() implies key.order().before(
                        (#[trigger] entries@[i]).0.order(),
                    ) by {
                        assert(entries@[mid as int].0.order().before(entries@[i].0.order()));
                    }
                    return (true, mid);
                },
                Rank::Greater => {
                    assert forall|i: int| mid <= i < entries@.len() implies key.order().before(
                        (#[trigger] entries@[i]).0.order(),
                    ) by {
                        if i > mid {
                            assert(middle.before(entries@[i].0.order()));
                            K::Order::lemma_transitive(key.order(), middle, entries@[i].0.order());
                        }
                    }
                    high = mid;
                },
            }
        }
        (false, low)
    }

    /// The value of `key`, if it has one.
    pub fn get(&self, key: &K) -> (value: Option<&V>)
        ensures
            match value {
                Some(v) => self.dict().contains_key(key.order()) && *v == self.dict()[key.order()],
                None => !self.dict().contains_key(key.order()),
            },
    {
        proof {
            use_type_invariant(self);
        }
        let (found, at) = Self::locate(&self.entries, key);
        proof {
            lemma_slot_entry(self@, key.order(), found, at as int);
        }
        if found {
            Some(&self.entries[at].1)
        } else {
            None
        }
    }

    /// Whether `key` has a value.
    pub fn contains_key(&self, key: &K) -> (b: bool)
        ensures
            b == self.dict().contains_key(key.order()),
    {
        self.get(key).is_some()
    }

    /// Sets the value of `key` and returns the value that it had before, if any. A key that is
    /// there already is kept.
    pub fn insert(&mut self, key: K, value: V) -> (previous: Option<V>)
        ensures
            final(self)@ == put(old(self)@, key, value),
            final(self).dict() == old(self).dict().insert(key.order(), value),
            match previous {
                Some(v) => old(self).dict().contains_key(key.order()) && v == old(
                    self,
                ).dict()[key.order()],
                None => !old(self).dict().contains_key(key.order()),
            },
    {
        proof {
            use_type_invariant(&*self);
        }
        let ghost before = self@;
        let mut entries: Vec<(K, V)> = Vec::new();
        std::mem::swap(&mut entries, &mut self.entries);
        let (found, at) = Self::locate(&entries, &key);
        proof {
            lemma_slot_entry(before, key.order(), found, at as int);
        }
        if found {
            let (stored, old_value) = entries.remove(at);
            entries.insert(at, (stored, value));
            proof {
                assert(entries@ =~= before.update(at as int, (before[at as int].0, value)));
                lemma_put(before, key, value, found, at as int, entries@);
            }
            self.entries = entries;
            Some(old_value)
        } else {
            let ghost k = key;
            entries.insert(at, (key, value));
            proof {
                lemma_put(before, k, value, found, at as int, entries@);
            }
            self.entries = entries;
            None
        }
    }

    /// Removes `key` and returns the value that it had, if any.
    pub fn remove(&mut self, key: &K) -> (previous: Option<V>)
        ensures
            final(self)@ == without(old(self)@, key.order()),
            final(self).dict() == old(self).dict().remove(key.order()),
            match previous {
                Some(v) => old(self).dict().contains_key(key.order()) && v == old(
                    self,
                ).dict()[key.order()],
                None => !old(self).dict().contains_key(key.order()),
            },
    {
        proof {
            use_type_invariant(&*self);
        }
        let ghost before = self@;
        let mut entries: Vec<(K, V)> = Vec::new();
        std::mem::swap(&mut entries, &mut self.entries);
        let (found, at) = Self::locate(&entries, key);
        proof {
            lemma_slot_entry(before, key.order(), found, at as int);
            lemma_slot_without(before, key.order(), found, at as int);
            lemma_without(before, key.order(), found, at as int);
        }
        if found {
            let (_, old_value) = entries.remove(at);
            self.entries = entries;
            Some(old_value)
        } else {
            self.entries = entries;
            None
        }
    }

    /// The entry at a position in the order of keys.
    pub fn nth(&self, i: usize) -> (entry: (&K, &V))
        requires
            i < self@.len(),
        ensures
            *entry.0 == self@[i as int].0,
            *entry.1 == self@[i as int].1,
    {
        (&self.entries[i].0, &self.entries[i].1)
    }

    /// The entries in the order of their keys.
    pub fn iter(&self) -> (entries: Vec<(&K, &V)>)
        ensures
            behind(entries@) == self@,
    {
        let mut entries: Vec<(&K, &V)> = Vec::new();
        for i in 0..self.entries.len()
            invariant
                entries@.len() == i,
                forall|j: int|
                    #![trigger entries@[j]]
                    0 <= j < i ==> *entries@[j].0 == self@[j].0 && *entries@[j].1 == self@[j].1,
        {
            entries.push((&self.entries[i].0, &self.entries[i].1));
        }
        assert(behind(entries@) =~= self@);
        entries
    }

    /// Takes the map apart into its entries.
    pub fn into_entries(self) -> (entries: Vec<(K, V)>)
        ensures
            entries@ == self@,
            increasing(entries@),
    {
        proof {
            use_type_invariant(&self);
        }
        self.entries
    }

    /// Makes a map of entries that are increasing.
    pub fn from_increasing(entries: Vec<(K, V)>) -> (map: Self)
        requires
            increasing(entries@),
        ensures
            map@ == entries@,
    {
        OrdMap { entries }
    }

    /// Sets the value of the entry at a position and returns the one that it had.
    pub fn replace_nth(&mut self, i: usize, value: V) -> (previous: V)
        requires
            i < old(self)@.len(),
        ensures
            final(self)@ == old(self)@.update(i as int, (old(self)@[i as int].0, value)),
            previous == old(self)@[i as int].1,
    {
        proof {
            use_type_invariant(&*self);
        }
        let ghost before = self@;
        let mut entries: Vec<(K, V)> = Vec::new();
        std::mem::swap(&mut entries, &mut self.entries);
        let (key, previous) = entries.remove(i);
        entries.insert(i, (key, value));
        assert(entries@ =~= before.update(i as int, (before[i as int].0, value)));
        self.entries = entries;
        previous
    }

    /// Sets all the values of another map in this one.
    pub fn extend(&mut self, other: Self)
        ensures
            final(self)@ == put_all(old(self)@, other@),
            final(self).dict() == old(self).dict().union_prefer_right(other.dict()),
    {
        let ghost added = other@;
        proof {
            use_type_invariant(&other);
            assert(dict(added.take(0)) =~= Map::empty());
            assert(self.dict() =~= old(self).dict().union_prefer_right(dict(added.take(0))));
        }
        for entry in it: other.entries
            invariant
                increasing(added),
                it.seq() == added,
                self@ == put_all(old(self)@, added.take(it.index() as int)),
                self.dict() == old(self).dict().union_prefer_right(
                    dict(added.take(it.index() as int)),
                ),
        {
            let ghost n = it.index() as int;
            let (key, value) = entry;
            proof {
                let prefix = added.take(n);
                let order = key.order();
                assert(slot(prefix, order, false, n)) by {
                    assert forall|i: int| 0 <= i < n implies (
                    #[trigger] prefix[i]).0.order().before(order) by {
                        assert(added[i].0.order().before(added[n].0.order()));
                    }
                }
                assert(added.take(n + 1) =~= prefix.insert(n, (key, value)));
                lemma_put(prefix, key, value, false, n, added.take(n + 1));
            }
            self.insert(key, value);
            assert(added.take(n + 1).drop_last() =~= added.take(n));
            assert(self.dict() =~= old(self).dict().union_prefer_right(dict(added.take(n + 1))));
        }
        assert(added.take(added.len() as int) =~= added);
    }
}

impl<K: MapKey, V> Default for OrdMap<K, V> {
    fn default() -> (map: Self)
        ensures
            map@ == Seq::<(K, V)>::empty(),
    {
        OrdMap::new()
    }
}

/// A copy has the keys of the map and copies of its values.
impl<K: MapKey, V: Clone> Clone for OrdMap<K, V> {
    fn clone(&self) -> (copy: Self)
        ensures
            copy@.len() == self@.len(),
            forall|i: int|
                #![trigger copy@[i]]
                0 <= i < self@.len() ==> copy@[i].0 == self@[i].0 && cloned(self@[i].1, copy@[i].1),
    {
        proof {
            use_type_invariant(self);
        }
        let mut entries: Vec<(K, V)> = Vec::new();
        for i in 0..self.entries.len()
            invariant
                entries@.len() == i,
                forall|j: int|
                    #![trigger entries@[j]]
                    0 <= j < i ==> entries@[j].0 == self@[j].0 && cloned(self@[j].1, entries@[j].1),
        {
            entries.push((self.entries[i].0.duplicate(), self.entries[i].1.clone()));
        }
        assert forall|i: int, j: int|
            #![trigger entries@[i], entries@[j]]
            0 <= i < j < entries@.len() implies entries@[i].0.order().before(
            entries@[j].0.order(),
        ) by {
            assert(self@[i].0.order().before(self@[j].0.order()));
        }
        OrdMap { entries }
    }
}

/// A map gives a value for a key just if it has an entry of both. Texts are the same key just if
/// they are the same text.
pub proof fn lemma_dict_has_entries<K: MapKey, V>(
    entries: Seq<(K, V)>,
    key: K::Order,
    value: V,
    a: String,
    b: String,
)
    requires
        increasing(entries),
    ensures
        dict(entries).contains_key(key) && dict(entries)[key] == value <==> exists|i: int|
            0 <= i < entries.len() && (#[trigger] entries[i]).0.order() == key && entries[i].1
                == value,
        a.order() == b.order() <==> a@ == b@,
{
    if dict(entries).contains_key(key) && dict(entries)[key] == value {
        let i = choose|i: int| entry_at(entries, key, i);
        lemma_entry(entries, i);
        assert(entries[i].0.order() == key);
    }
    if exists|i: int|
        0 <= i < entries.len() && (#[trigger] entries[i]).0.order() == key && entries[i].1
            == value {
        let i = choose|i: int|
            0 <= i < entries.len() && (#[trigger] entries[i]).0.order() == key && entries[i].1
                == value;
        lemma_entry(entries, i);
    }
}

/// After a value is set for a key there is one entry for the key, with that value, and all entries
/// of other keys are those that there were.
pub proof fn lemma_put_entries<K: MapKey, V>(
    entries: Seq<(K, V)>,
    key: K,
    value: V,
    entry: (K, V),
)
    requires
        increasing(entries),
    ensures
        increasing(put(entries, key, value)),
        exists|i: int|
            0 <= i < put(entries, key, value).len() && (#[trigger] put(
                entries,
                key,
                value,
            )[i]).0.order() == key.order() && put(entries, key, value)[i].1 == value,
        entry.0.order() == key.order() && put(entries, key, value).contains(entry) ==> entry.1
            == value,
        entry.0.order() != key.order() ==> (put(entries, key, value).contains(entry)
            <==> entries.contains(entry)),
{
    let (found, at) = lemma_slot_exists(entries, key.order());
    lemma_slot_entry(entries, key.order(), found, at);
    let result = if found {
        entries.update(at, (entries[at].0, value))
    } else {
        entries.insert(at, (key, value))
    };
    lemma_put(entries, key, value, found, at, result);
    assert(result[at].0.order() == key.order() && result[at].1 == value);
    if result.contains(entry) {
        let i = choose|i: int| 0 <= i < result.len() && result[i] == entry;
        if entry.0.order() == key.order() {
            lemma_entry(result, i);
            lemma_entry(result, at);
        } else if found || i < at {
            assert(entries[i] == entry);
        } else {
            assert(entries[i - 1] == entry);
        }
    }
    if entries.contains(entry) && entry.0.order() != key.order() {
        let i = choose|i: int| 0 <= i < entries.len() && entries[i] == entry;
        if found || i < at {
            assert(result[i] == entry);
        } else {
            assert(result[i + 1] == entry);
        }
    }
}

/// After a key is removed there is no entry for it, and all entries of other keys are those that
/// there were.
pub proof fn lemma_without_entries<K: MapKey, V>(
    entries: Seq<(K, V)>,
    key: K::Order,
    entry: (K, V),
)
    requires
        increasing(entries),
    ensures
        increasing(without(entries, key)),
        without(entries, key).contains(entry) <==> entries.contains(entry) && entry.0.order()
            != key,
{
    let (found, at) = lemma_slot_exists(entries, key);
    lemma_without(entries, key, found, at);
    crate::keep::lemma_filter_contains(entries, |e: (K, V)| e.0.order() != key, entry);
}

/// After all values of others are set, each of them is there, with the entries of all other keys
/// that there were, and nothing else.
pub proof fn lemma_put_all_entries<K: MapKey, V>(a: Seq<(K, V)>, b: Seq<(K, V)>, i: int)
    requires
        increasing(a),
        increasing(b),
    ensures
        0 <= i < b.len() ==> exists|n: int|
            0 <= n < put_all(a, b).len() && (#[trigger] put_all(a, b)[n]).0.order()
                == b[i].0.order() && put_all(a, b)[n].1 == b[i].1,
        0 <= i < a.len() && (forall|j: int|
            0 <= j < b.len() ==> (#[trigger] b[j]).0.order() != a[i].0.order()) ==> put_all(
            a,
            b,
        ).contains(a[i]),
        0 <= i < put_all(a, b).len() ==> (exists|j: int|
            0 <= j < a.len() && (#[trigger] a[j]).0.order() == put_all(a, b)[i].0.order()) || (
        exists|j: int|
            0 <= j < b.len() && (#[trigger] b[j]).0.order() == put_all(a, b)[i].0.order()),
{
    let all = put_all(a, b);
    lemma_put_all_increasing(a, b);
    if 0 <= i < b.len() {
        let k = b[i].0.order();
        lemma_entry(b, i);
        lemma_put_all_entry(a, b, k);
        let n = choose|n: int| entry_at(all, k, n);
        lemma_entry(all, n);
        assert(all[n].0.order() == k && all[n].1 == b[i].1);
    }
    if 0 <= i < a.len() && (forall|j: int|
        0 <= j < b.len() ==> (#[trigger] b[j]).0.order() != a[i].0.order()) {
        let k = a[i].0.order();
        lemma_entry(a, i);
        assert(!has_entry(b, k)) by {
            if has_entry(b, k) {
                let j = choose|j: int| entry_at(b, k, j);
                assert(b[j].0.order() != a[i].0.order());
            }
        }
        lemma_put_all_entry(a, b, k);
        let n = choose|n: int| entry_at(all, k, n);
        lemma_entry(all, n);
        assert(all[n] == a[i]);
    }
    if 0 <= i < all.len() {
        let k = all[i].0.order();
        lemma_entry(all, i);
        lemma_put_all_entry(a, b, k);
        if has_entry(a, k) {
            let j = choose|j: int| entry_at(a, k, j);
            assert(a[j].0.order() == k);
        } else {
            let j = choose|j: int| entry_at(b, k, j);
            assert(b[j].0.order() == k);
        }
    }
}

/// Pairs of references stand for the pairs behind them, one for one.
pub proof fn lemma_behind_one_for_one<K, V>(borrowed: Seq<(&K, &V)>, i: int)
    ensures
        behind(borrowed).len() == borrowed.len(),
        0 <= i < borrowed.len() ==> behind(borrowed)[i] == (*borrowed[i].0, *borrowed[i].1),
{
}

} // verus!
