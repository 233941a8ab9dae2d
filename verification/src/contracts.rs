//! Contracts by file and name.

use crate::contract;
use crate::contract::{CompactContractRef, CompiledContract};
use crate::ord_map;
use crate::ord_map::OrdMap;
use vstd::prelude::*;

verus! {

/// Solidity files are made up of multiple `source units`, a solidity contract is such a `source
/// unit`, therefore a solidity file can contain multiple contracts: (1-N*) relationship.
///
/// This type represents this mapping as `file name -> (contract name -> T)`, where the generic is
/// intended to represent contract specific information.
pub type FileToContractsMap<T> = OrdMap<String, OrdMap<String, T>>;

/// file -> (contract name -> contract)
pub type Contracts = FileToContractsMap<CompiledContract>;

/// The files of a [`Contracts`], in their order.
pub type Files = Seq<(String, OrdMap<String, CompiledContract>)>;

/// All contracts with their names: file after file, and by name within a file.
pub open spec fn listed(files: Files) -> Seq<(String, CompiledContract)>
    decreases files.len(),
{
    if files.len() == 0 {
        Seq::empty()
    } else {
        listed(files.drop_last()) + files.last().1@
    }
}

/// Whether a file has a contract of that name.
pub open spec fn file_has(file: (String, OrdMap<String, CompiledContract>), name: Seq<char>) -> bool {
    file.1.dict().contains_key(name)
}

/// The position of the first file that has a contract of that name, or the number of files.
pub open spec fn first_file(files: Files, name: Seq<char>) -> int
    decreases files.len(),
{
    if files.len() == 0 {
        0
    } else if first_file(files.drop_last(), name) < files.len() - 1 {
        first_file(files.drop_last(), name)
    } else if file_has(files.last(), name) {
        files.len() - 1
    } else {
        files.len() as int
    }
}

/// The first contract of that name, if there is one.
pub open spec fn first_contract(files: Files, name: Seq<char>) -> Option<CompiledContract> {
    let i = first_file(files, name);
    if i < files.len() {
        Some(files[i].1.dict()[name])
    } else {
        None
    }
}

/// The first file with a contract has it, and none before does.
pub proof fn lemma_first_file(files: Files, name: Seq<char>)
    ensures
        0 <= first_file(files, name) <= files.len(),
        first_file(files, name) < files.len() ==> file_has(files[first_file(files, name)], name),
        forall|i: int|
            0 <= i < first_file(files, name) ==> !file_has(#[trigger] files[i], name),
    decreases files.len(),
{
    if files.len() > 0 {
        lemma_first_file(files.drop_last(), name);
        assert forall|i: int| 0 <= i < first_file(files, name) implies !file_has(
            #[trigger] files[i],
            name,
        ) by {
            if i < files.len() - 1 {
                assert(files[i] == files.drop_last()[i]);
            }
        }
    }
}

/// Being the first file with a contract determines its position.
proof fn lemma_first_file_is(files: Files, name: Seq<char>, at: int)
    requires
        0 <= at <= files.len(),
        at < files.len() ==> file_has(files[at], name),
        forall|i: int| 0 <= i < at ==> !file_has(#[trigger] files[i], name),
    ensures
        first_file(files, name) == at,
{
    lemma_first_file(files, name);
    let first = first_file(files, name);
    if first < at {
        assert(!file_has(files[first], name));
    } else if at < first {
        assert(!file_has(files[at], name));
    }
}

/// The first contract of a name is the first one of that name in the list of all contracts.
pub proof fn lemma_first_contract_is_first_listed(files: Files, name: Seq<char>)
    requires
        forall|i: int| 0 <= i < files.len() ==> (#[trigger] files[i]).1.well_formed(),
    ensures
        match first_contract(files, name) {
            Some(found) => exists|i: int|
                0 <= i < listed(files).len() && (#[trigger] listed(files)[i]).0@ == name
                    && listed(files)[i].1 == found && (forall|j: int|
                    0 <= j < i ==> (#[trigger] listed(files)[j]).0@ != name),
            None => forall|i: int|
                0 <= i < listed(files).len() ==> (#[trigger] listed(files)[i]).0@ != name,
        },
    decreases files.len(),
{
    if files.len() > 0 {
        let init = files.drop_last();
        let last = files.last().1;
        let before = listed(init);
        let all = listed(files);
        assert forall|i: int| 0 <= i < init.len() implies (#[trigger] init[i]).1.well_formed() by {
            assert(init[i] == files[i]);
        }
        lemma_first_contract_is_first_listed(init, name);
        lemma_first_file(files, name);
        lemma_first_file(init, name);
        assert(last.well_formed()) by {
            assert(files[files.len() - 1].1.well_formed());
        }
        if first_file(init, name) < init.len() {
            assert(init[first_file(init, name)] == files[first_file(init, name)]);
            let i = choose|i: int|
                0 <= i < before.len() && (#[trigger] before[i]).0@ == name && before[i].1
                    == first_contract(init, name)->0 && (forall|j: int|
                    0 <= j < i ==> (#[trigger] before[j]).0@ != name);
            assert(all[i] == before[i]);
            assert forall|j: int| 0 <= j < i implies (#[trigger] all[j]).0@ != name by {
                assert(all[j] == before[j]);
            }
        } else if file_has(files.last(), name) {
            let k = choose|k: int| ord_map::entry_at(last@, name, k);
            ord_map::lemma_entry(last@, k);
            let i = before.len() + k;
            assert(all[i] == last@[k]);
            assert forall|j: int| 0 <= j < i implies (#[trigger] all[j]).0@ != name by {
                if j < before.len() {
                    assert(all[j] == before[j]);
                } else {
                    let m = j - before.len();
                    assert(all[j] == last@[m]);
                    ord_map::lemma_entry(last@, m);
                    if last@[m].0@ == name {
                        assert(crate::order::lexicographic(last@[m].0@, last@[k].0@));
                        <Seq<char> as crate::order::TotalOrder>::lemma_irreflexive(name);
                    }
                }
            }
        } else {
            assert forall|j: int| 0 <= j < all.len() implies (#[trigger] all[j]).0@ != name by {
                if j < before.len() {
                    assert(all[j] == before[j]);
                } else {
                    let m = j - before.len();
                    assert(all[j] == last@[m]);
                    ord_map::lemma_entry(last@, m);
                }
            }
        }
    }
}

/// A contract that some file has under a name is found under it, though maybe in another file.
pub proof fn lemma_found_if_there(files: Files, i: int, name: Seq<char>)
    requires
        0 <= i < files.len(),
        file_has(files[i], name),
    ensures
        first_contract(files, name) is Some,
{
    lemma_first_file(files, name);
}

/// The list of all contracts goes through the files in their order.
proof fn lemma_listed_add(a: Files, b: Files)
    ensures
        listed(a + b) == listed(a) + listed(b),
    decreases b.len(),
{
    if b.len() == 0 {
        assert(a + b =~= a);
        assert(listed(a) + listed(b) =~= listed(a));
    } else {
        lemma_listed_add(a, b.drop_last());
        assert((a + b).drop_last() =~= a + b.drop_last());
        assert(listed(a + b) =~= listed(a) + listed(b));
    }
}

/// The contracts of one file.
proof fn lemma_listed_one(file: (String, OrdMap<String, CompiledContract>))
    ensures
        listed(seq![file]) == file.1@,
{
    reveal_with_fuel(listed, 2);
    assert(seq![file].drop_last() =~= Seq::empty());
    assert(listed(seq![file]) =~= file.1@);
}

/// Files without a contract of a name list none.
proof fn lemma_none_before(files: Files, name: Seq<char>)
    requires
        forall|i: int| 0 <= i < files.len() ==> (#[trigger] files[i]).1.well_formed(),
        forall|i: int| 0 <= i < files.len() ==> !file_has(#[trigger] files[i], name),
    ensures
        forall|m: int| 0 <= m < listed(files).len() ==> (#[trigger] listed(files)[m]).0@ != name,
{
    lemma_first_file_is(files, name, files.len() as int);
    lemma_first_contract_is_first_listed(files, name);
}

/// Removing the first contract of a name takes that one contract out of the list of all contracts
/// and leaves all others where they are.
pub proof fn lemma_removed_from_list(before: Files, after: Files, name: Seq<char>)
    requires
        forall|i: int| 0 <= i < before.len() ==> (#[trigger] before[i]).1.well_formed(),
        first_removed(before, after, name),
    ensures
        match first_contract(before, name) {
            Some(removed) => exists|k: int|
                0 <= k < listed(before).len() && (#[trigger] listed(before)[k]).0@ == name
                    && listed(before)[k].1 == removed && listed(after) == listed(before).remove(k)
                    && (forall|m: int| 0 <= m < k ==> (#[trigger] listed(before)[m]).0@ != name),
            None => listed(after) == listed(before),
        },
{
    lemma_first_file(before, name);
    let at = first_file(before, name);
    if at < before.len() {
        let low = before.take(at);
        let high = before.skip(at + 1);
        let old_file = before[at].1;
        let new_file = after[at].1;
        assert(old_file.well_formed());
        assert forall|i: int| 0 <= i < low.len() implies (#[trigger] low[i]).1.well_formed()
            && !file_has(low[i], name) by {
            assert(low[i] == before[i]);
        }
        assert(before =~= low + seq![before[at]] + high);
        assert(after =~= low + seq![after[at]] + high);
        lemma_listed_add(low + seq![before[at]], high);
        lemma_listed_add(low, seq![before[at]]);
        lemma_listed_add(low + seq![after[at]], high);
        lemma_listed_add(low, seq![after[at]]);
        lemma_listed_one(before[at]);
        lemma_listed_one(after[at]);
        let j = choose|j: int| ord_map::entry_at(old_file@, name, j);
        ord_map::lemma_entry(old_file@, j);
        ord_map::lemma_without_entry(old_file@, j);
        let k = listed(low).len() + j;
        assert(listed(before)[k] == old_file@[j]);
        assert(listed(after) =~= listed(before).remove(k));
        lemma_none_before(low, name);
        assert forall|m: int| 0 <= m < k implies (#[trigger] listed(before)[m]).0@ != name by {
            if m < listed(low).len() {
                assert(listed(before)[m] == listed(low)[m]);
            } else {
                let n = m - listed(low).len();
                assert(listed(before)[m] == old_file@[n]);
                assert(crate::order::lexicographic(old_file@[n].0@, old_file@[j].0@));
                <Seq<char> as crate::order::TotalOrder>::lemma_irreflexive(name);
            }
        }
    }
}

/// All contracts of a name, file after file.
pub open spec fn named(files: Files, name: Seq<char>) -> Seq<CompiledContract>
    decreases files.len(),
{
    if files.len() == 0 {
        Seq::empty()
    } else if file_has(files.last(), name) {
        named(files.drop_last(), name).push(files.last().1.dict()[name])
    } else {
        named(files.drop_last(), name)
    }
}

/// The contracts of a name in some files and then others.
proof fn lemma_named_add(a: Files, b: Files, name: Seq<char>)
    ensures
        named(a + b, name) == named(a, name) + named(b, name),
    decreases b.len(),
{
    if b.len() == 0 {
        assert(a + b =~= a);
        assert(named(a, name) + named(b, name) =~= named(a, name));
    } else {
        lemma_named_add(a, b.drop_last(), name);
        assert((a + b).drop_last() =~= a + b.drop_last());
        assert(named(a + b, name) =~= named(a, name) + named(b, name));
    }
}

/// The contract of a name in one file.
proof fn lemma_named_one(file: (String, OrdMap<String, CompiledContract>), name: Seq<char>)
    ensures
        named(seq![file], name) == (if file_has(file, name) {
            seq![file.1.dict()[name]]
        } else {
            Seq::empty()
        }),
{
    reveal_with_fuel(named, 2);
    assert(seq![file].drop_last() =~= Seq::empty());
    assert(Seq::<CompiledContract>::empty().push(file.1.dict()[name]) =~= seq![
        file.1.dict()[name],
    ]);
}

/// Files that have no contract of a name have none in all.
proof fn lemma_none_named(files: Files, name: Seq<char>)
    requires
        forall|i: int| 0 <= i < files.len() ==> !file_has(#[trigger] files[i], name),
    ensures
        named(files, name) == Seq::<CompiledContract>::empty(),
    decreases files.len(),
{
    if files.len() > 0 {
        let init = files.drop_last();
        assert forall|i: int| 0 <= i < init.len() implies !file_has(#[trigger] init[i], name) by {
            assert(init[i] == files[i]);
        }
        lemma_none_named(init, name);
        assert(!file_has(files[files.len() - 1], name));
    }
}

/// Removing a contract by its name takes the first one of that name, and leaves the others of it
/// in their order.
pub proof fn lemma_removed_in_order(before: Files, after: Files, name: Seq<char>)
    requires
        first_removed(before, after, name),
    ensures
        match first_contract(before, name) {
            Some(removed) => named(before, name).len() > 0 && removed == named(before, name)[0]
                && named(after, name) == named(before, name).drop_first(),
            None => named(before, name).len() == 0 && named(after, name).len() == 0,
        },
{
    lemma_first_file(before, name);
    let at = first_file(before, name);
    if at < before.len() {
        let low = before.take(at);
        let high = before.skip(at + 1);
        assert(before =~= low + seq![before[at]] + high);
        assert(after =~= low + seq![after[at]] + high);
        assert forall|i: int| 0 <= i < low.len() implies !file_has(#[trigger] low[i], name) by {
            assert(low[i] == before[i]);
        }
        lemma_none_named(low, name);
        lemma_named_add(low + seq![before[at]], high, name);
        lemma_named_add(low, seq![before[at]], name);
        lemma_named_one(before[at], name);
        lemma_named_add(low + seq![after[at]], high, name);
        lemma_named_add(low, seq![after[at]], name);
        lemma_named_one(after[at], name);
        assert(!file_has(after[at], name));
        assert(named(after, name) =~= named(before, name).drop_first());
    } else {
        lemma_none_named(before, name);
    }
}

/// Removing contracts of one name again and again gives all of them, file after file, and then
/// none.
pub proof fn lemma_removed_one_after_another(states: Seq<Files>, name: Seq<char>, n: int)
    requires
        0 <= n < states.len(),
        forall|i: int|
            0 <= i < states.len() - 1 ==> first_removed(#[trigger] states[i], states[i + 1], name),
    ensures
        first_contract(states[n], name) == (if n < named(states[0], name).len() {
            Some(named(states[0], name)[n])
        } else {
            None
        }),
{
    lemma_left_after(states, name, n);
    lemma_first_is_named(states[n], name);
}

/// The first contract of a name is the first of those of that name.
proof fn lemma_first_is_named(files: Files, name: Seq<char>)
    ensures
        first_contract(files, name) == (if named(files, name).len() > 0 {
            Some(named(files, name)[0])
        } else {
            None
        }),
    decreases files.len(),
{
    if files.len() > 0 {
        let init = files.drop_last();
        lemma_first_is_named(init, name);
        lemma_first_file(init, name);
        if first_file(init, name) < init.len() {
            assert(init[first_file(init, name)] == files[first_file(init, name)]);
        }
    }
}

/// What is left of the contracts of a name after some removals.
proof fn lemma_left_after(states: Seq<Files>, name: Seq<char>, n: int)
    requires
        0 <= n < states.len(),
        forall|i: int|
            0 <= i < states.len() - 1 ==> first_removed(#[trigger] states[i], states[i + 1], name),
    ensures
        named(states[n], name) == named(states[0], name).skip(
            if n < named(states[0], name).len() {
                n
            } else {
                named(states[0], name).len() as int
            },
        ),
    decreases n,
{
    let all = named(states[0], name);
    if n == 0 {
        assert(all.skip(0) =~= all);
    } else {
        lemma_left_after(states, name, n - 1);
        assert(first_removed(states[n - 1], states[n - 1 + 1], name));
        lemma_removed_in_order(states[n - 1], states[n], name);
        lemma_first_is_named(states[n - 1], name);
        if n - 1 < all.len() {
            assert(all.skip(n - 1).drop_first() =~= all.skip(n));
        } else {
            assert(named(states[n], name) =~= all.skip(all.len() as int));
        }
    }
}

/// Lists all contracts with their names.
pub fn list_contracts(contracts: &Contracts) -> (list: Vec<(&String, &CompiledContract)>)
    ensures
        ord_map::behind(list@) == listed(contracts@),
{
    let mut list: Vec<(&String, &CompiledContract)> = Vec::new();
    let ghost files = contracts@;
    assert(files.take(0) =~= Seq::empty());
    assert(ord_map::behind(list@) =~= Seq::empty());
    let count: usize = contracts.len();
    for i in 0..count
        invariant
            files == contracts@,
            count == files.len(),
            ord_map::behind(list@) == listed(files.take(i as int)),
    {
        let file: &OrdMap<String, CompiledContract> = contracts.nth(i).1;
        let mut names = file.iter();
        let ghost before = list@;
        let ghost added = names@;
        list.append(&mut names);
        proof {
            assert(files.take(i + 1).drop_last() =~= files.take(i as int));
            assert(ord_map::behind(before + added) =~= ord_map::behind(before) + ord_map::behind(added));
        }
    }
    assert(files.take(files.len() as int) =~= files);
    list
}

/// Takes the map apart into all contracts with their names.
pub fn into_list(contracts: Contracts) -> (list: Vec<(String, CompiledContract)>)
    ensures
        list@ == listed(contracts@),
{
    let ghost files = contracts@;
    let mut list: Vec<(String, CompiledContract)> = Vec::new();
    assert(files.take(0) =~= Seq::empty());
    assert(list@ =~= listed(files.take(0)));
    for entry in it: contracts.into_entries()
        invariant
            it.seq() == files,
            list@ == listed(files.take(it.index() as int)),
    {
        let mut names = entry.1.into_entries();
        assert(files.take(it.index() + 1).drop_last() =~= files.take(it.index() as int));
        list.append(&mut names);
    }
    assert(files.take(files.len() as int) =~= files);
    list
}

/// The position of the first file that has a contract of that name.
fn locate_first(contracts: &Contracts, name: &String) -> (at: usize)
    ensures
        at == first_file(contracts@, name@),
{
    let mut i: usize = 0;
    while i < contracts.len()
        invariant
            i <= contracts@.len(),
            forall|j: int| 0 <= j < i ==> !file_has(#[trigger] contracts@[j], name@),
        decreases contracts@.len() - i,
    {
        if contracts.nth(i).1.contains_key(name) {
            proof {
                lemma_first_file_is(contracts@, name@, i as int);
            }
            return i;
        }
        i = i + 1;
    }
    proof {
        lemma_first_file_is(contracts@, name@, i as int);
    }
    i
}

/// Finds the first contract of that name.
pub fn find_contract<'a>(contracts: &'a Contracts, name: &str) -> (found: Option<
    CompactContractRef<'a>,
>)
    ensures
        found == contract::compact_ref(first_contract(contracts@, name@)),
{
    let name = name.to_owned();
    let at = locate_first(contracts, &name);
    proof {
        lemma_first_file(contracts@, name@);
    }
    if at < contracts.len() {
        match contracts.nth(at).1.get(&name) {
            Some(found) => Some(CompactContractRef::from(found)),
            None => None,
        }
    } else {
        None
    }
}

/// What removing the first contract of that name does: the file keeps its place and its other
/// contracts, and no other file changes.
pub open spec fn first_removed(before: Files, after: Files, name: Seq<char>) -> bool {
    let at = first_file(before, name);
    if at < before.len() {
        &&& after.len() == before.len()
        &&& forall|i: int| 0 <= i < before.len() && i != at ==> #[trigger] after[i] == before[i]
        &&& after[at].0 == before[at].0
        &&& after[at].1@ == ord_map::without(before[at].1@, name)
        &&& after[at].1.dict() == before[at].1.dict().remove(name)
    } else {
        after == before
    }
}

/// Finds the first contract of that name and removes it.
pub fn remove_contract(contracts: &mut Contracts, name: &str) -> (removed: Option<CompiledContract>)
    ensures
        removed == first_contract(old(contracts)@, name@),
        first_removed(old(contracts)@, final(contracts)@, name@),
{
    let name = name.to_owned();
    let at = locate_first(contracts, &name);
    proof {
        lemma_first_file(contracts@, name@);
    }
    if at < contracts.len() {
        let mut file = contracts.replace_nth(at, OrdMap::new());
        let removed = file.remove(&name);
        contracts.replace_nth(at, file);
        removed
    } else {
        None
    }
}

/// The list of all contracts is the contracts of each file, one file after the other.
pub proof fn lemma_listed_file_by_file(files: Files)
    ensures
        listed(files) == files.map_values(
            |f: (String, OrdMap<String, CompiledContract>)| f.1@,
        ).flatten(),
{
    let contents = |f: (String, OrdMap<String, CompiledContract>)| f.1@;
    lemma_listed_backwards(files);
    files.map_values(contents).lemma_flatten_and_flatten_alt_are_equivalent();
}

/// The list of all contracts, from the last file on.
proof fn lemma_listed_backwards(files: Files)
    ensures
        listed(files) == files.map_values(
            |f: (String, OrdMap<String, CompiledContract>)| f.1@,
        ).flatten_alt(),
    decreases files.len(),
{
    let contents = |f: (String, OrdMap<String, CompiledContract>)| f.1@;
    if files.len() > 0 {
        lemma_listed_backwards(files.drop_last());
        assert(files.map_values(contents).drop_last() =~= files.drop_last().map_values(contents));
    }
}

/// Removing a contract by its name leaves all files where they are, and all files as they are that
/// hold no contract of that name. Only one file changes.
pub proof fn lemma_removed_keeps_files(
    before: Files,
    after: Files,
    name: Seq<char>,
    i: int,
    j: int,
)
    requires
        first_removed(before, after, name),
        0 <= i < before.len(),
        0 <= j < before.len(),
    ensures
        after.len() == before.len(),
        after[i].0 == before[i].0,
        (forall|n: int| 0 <= n < before[i].1@.len() ==> (#[trigger] before[i].1@[n]).0@ != name)
            ==> after[i] == before[i],
        after[i] != before[i] && after[j] != before[j] ==> i == j,
{
    lemma_first_file(before, name);
    if first_file(before, name) == i {
        assert(file_has(before[i], name));
        let n = choose|n: int| ord_map::entry_at(before[i].1@, name, n);
        assert(before[i].1@[n].0@ == name);
    }
}

/// A filter that lets one element pass yields it.
proof fn lemma_filter_only<A>(s: Seq<A>, pred: spec_fn(A) -> bool, k: int)
    requires
        0 <= k < s.len(),
        forall|i: int| 0 <= i < s.len() ==> (pred(#[trigger] s[i]) <==> i == k),
    ensures
        s.filter(pred) == seq![s[k]],
    decreases s.len(),
{
    reveal(Seq::filter);
    let init = s.drop_last();
    assert(s[s.len() - 1] == s.last());
    if k == s.len() - 1 {
        lemma_filter_nothing(init, pred);
        assert(Seq::<A>::empty().push(s[k]) =~= seq![s[k]]);
    } else {
        assert forall|i: int| 0 <= i < init.len() implies (pred(#[trigger] init[i]) <==> i
            == k) by {
            assert(init[i] == s[i]);
        }
        lemma_filter_only(init, pred, k);
    }
}

/// A filter that lets no element pass yields nothing.
proof fn lemma_filter_nothing<A>(s: Seq<A>, pred: spec_fn(A) -> bool)
    requires
        forall|i: int| 0 <= i < s.len() ==> !pred(#[trigger] s[i]),
    ensures
        s.filter(pred) == Seq::<A>::empty(),
    decreases s.len(),
{
    reveal(Seq::filter);
    if s.len() > 0 {
        let init = s.drop_last();
        assert forall|i: int| 0 <= i < init.len() implies !pred(#[trigger] init[i]) by {
            assert(init[i] == s[i]);
        }
        lemma_filter_nothing(init, pred);
        assert(!pred(s[s.len() - 1]));
    }
}

/// The contracts of a name are those of that name in the list of all contracts.
pub proof fn lemma_named_are_listed(files: Files, name: Seq<char>)
    requires
        forall|i: int| 0 <= i < files.len() ==> (#[trigger] files[i]).1.well_formed(),
    ensures
        named(files, name) == listed(files).filter(
            |e: (String, CompiledContract)| e.0@ == name,
        ).map_values(|e: (String, CompiledContract)| e.1),
    decreases files.len(),
{
    let pred = |e: (String, CompiledContract)| e.0@ == name;
    let value = |e: (String, CompiledContract)| e.1;
    if files.len() == 0 {
        lemma_filter_nothing(listed(files), pred);
        assert(listed(files).filter(pred).map_values(value) =~= Seq::empty());
    } else {
        let init = files.drop_last();
        let last = files.last().1@;
        assert forall|i: int| 0 <= i < init.len() implies (#[trigger] init[i]).1.well_formed() by {
            assert(init[i] == files[i]);
        }
        assert(files[files.len() - 1].1.well_formed());
        lemma_named_are_listed(init, name);
        Seq::filter_distributes_over_add(listed(init), last, pred);
        if file_has(files.last(), name) {
            let k = choose|k: int| ord_map::entry_at(last, name, k);
            ord_map::lemma_entry(last, k);
            assert forall|i: int| 0 <= i < last.len() implies (pred(#[trigger] last[i]) <==> i
                == k) by {
                <Seq<char> as crate::order::TotalOrder>::lemma_irreflexive(name);
                if i < k {
                    assert(crate::order::lexicographic(last[i].0@, last[k].0@));
                } else if k < i {
                    assert(crate::order::lexicographic(last[k].0@, last[i].0@));
                }
            }
            lemma_filter_only(last, pred, k);
        } else {
            assert forall|i: int| 0 <= i < last.len() implies !pred(#[trigger] last[i]) by {
                if last[i].0@ == name {
                    ord_map::lemma_entry(last, i);
                }
            }
            lemma_filter_nothing(last, pred);
        }
        assert(named(files, name) =~= listed(files).filter(pred).map_values(value));
    }
}

} // verus!
