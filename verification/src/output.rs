//! Output of the compiler.

use crate::contract;
use crate::contract::{CompactContractRef, CompiledContract};
use crate::contracts;
use crate::contracts::{find_contract, into_list, list_contracts, remove_contract, Contracts};
use crate::error::Error;
use crate::keep;
use crate::keep::{keep_marked, retain_marked};
use crate::ord_map;
use crate::ord_map::OrdMap;
use crate::text;
use crate::text::contains_text;
use vstd::prelude::*;

verus! {

/// What the compiler found out about a source file.
#[derive(Clone, Debug, PartialEq, Eq)]
pub struct SourceFile {
    pub id: u32,
    pub ast: serde_json::Value,
}

/// A wrapper type for a list of source files
/// `path -> SourceFile`
#[derive(Clone, Debug, PartialEq, Eq)]
pub struct SourceFiles(pub OrdMap<String, SourceFile>);

impl SourceFiles {
    /// The ids and paths of the source files, in the order of the paths.
    pub fn into_ids(self) -> (ids: Vec<(u32, String)>)
        ensures
            ids@ == self.0@.map_values(|e: (String, SourceFile)| (e.1.id, e.0)),
    {
        let ghost files = self.0@;
        let mut ids: Vec<(u32, String)> = Vec::new();
        for entry in it: self.0.into_entries()
            invariant
                it.seq() == files,
                ids@.len() == it.index(),
                forall|i: int|
                    0 <= i < it.index() ==> #[trigger] ids@[i] == (files[i].1.id, files[i].0),
        {
            ids.push((entry.1.id, entry.0));
        }
        assert(ids@ =~= files.map_values(|e: (String, SourceFile)| (e.1.id, e.0)));
        ids
    }

    /// The paths and ids of the source files, in the order of the paths.
    pub fn into_paths(self) -> (paths: Vec<(String, u32)>)
        ensures
            paths@ == self.0@.map_values(|e: (String, SourceFile)| (e.0, e.1.id)),
    {
        let ghost files = self.0@;
        let mut paths: Vec<(String, u32)> = Vec::new();
        for entry in it: self.0.into_entries()
            invariant
                it.seq() == files,
                paths@.len() == it.index(),
                forall|i: int|
                    0 <= i < it.index() ==> #[trigger] paths@[i] == (files[i].0, files[i].1.id),
        {
            paths.push((entry.0, entry.1.id));
        }
        assert(paths@ =~= files.map_values(|e: (String, SourceFile)| (e.0, e.1.id)));
        paths
    }
}

/// The ids and paths of source files are their paths and ids the other way round.
pub proof fn lemma_ids_and_paths(files: Seq<(String, SourceFile)>)
    ensures
        files.map_values(|e: (String, SourceFile)| (e.1.id, e.0)) == files.map_values(
            |e: (String, SourceFile)| (e.0, e.1.id),
        ).map_values(|p: (String, u32)| (p.1, p.0)),
{
}

/// A wrapper helper type for the `Contracts` type alias
#[derive(Clone, Debug, PartialEq)]
pub struct OutputContracts(pub Contracts);

impl OutputContracts {
    /// All contracts with their names.
    pub fn into_contracts(self) -> (list: Vec<(String, CompiledContract)>)
        ensures
            list@ == contracts::listed(self.0@),
    {
        into_list(self.0)
    }

    /// All contracts with their names.
    pub fn contracts_iter(&self) -> (list: Vec<(&String, &CompiledContract)>)
        ensures
            ord_map::behind(list@) == contracts::listed(self.0@),
    {
        list_contracts(&self.0)
    }

    /// Finds the _first_ contract with the given name
    pub fn find(&self, contract: &str) -> (found: Option<CompactContractRef<'_>>)
        ensures
            found == contract::compact_ref(contracts::first_contract(self.0@, contract@)),
    {
        find_contract(&self.0, contract)
    }

    /// Finds the first contract with the given name and removes it from the set
    pub fn remove(&mut self, contract: &str) -> (removed: Option<CompiledContract>)
        ensures
            removed == contracts::first_contract(old(self).0@, contract@),
            contracts::first_removed(old(self).0@, final(self).0@, contract@),
    {
        remove_contract(&mut self.0, contract)
    }
}

/// Marks which of some texts are among others.
fn mark_listed(names: &Vec<String>, files: &Vec<String>) -> (marks: Vec<bool>)
    ensures
        marks@.len() == names@.len(),
        forall|i: int|
            0 <= i < names@.len() ==> #[trigger] marks@[i] == text::contents(files@).contains(
                names@[i]@,
            ),
{
    let mut marks: Vec<bool> = Vec::new();
    for i in 0..names.len()
        invariant
            marks@.len() == i,
            forall|j: int|
                0 <= j < i ==> #[trigger] marks@[j] == text::contents(files@).contains(names@[j]@),
    {
        marks.push(contains_text(files, names[i].as_str()));
    }
    marks
}

/// The lowercase equivalent of a text.
pub uninterp spec fn lowercase(text: Seq<char>) -> Seq<char>;

/// `str::to_lowercase`, which maps a text to its lowercase equivalent by the rules of Unicode,
/// whatever the locale.
#[verifier::external_body]
fn to_lowercase(text: &str) -> (lower: String)
    ensures
        lower@ == lowercase(text@),
{
    text.to_lowercase()
}

/// Whether a file is among some, but for upper and lower case.
pub open spec fn is_among(files: Seq<Seq<char>>, file: Seq<char>) -> bool {
    exists|i: int| 0 <= i < files.len() && lowercase(#[trigger] files[i]) == lowercase(file)
}

/// Output type `solc` produces
#[derive(Clone, Debug, PartialEq, Default)]
pub struct CompilerOutput {
    pub errors: Vec<Error>,
    pub sources: OrdMap<String, SourceFile>,
    pub contracts: Contracts,
}

/// Whether a message is an error.
pub open spec fn is_error(message: Error) -> bool {
    message.severity is Error
}

/// Whether a message is a warning whose code is not to be ignored. A warning without a code always
/// counts.
pub open spec fn is_reported_warning(message: Error, ignored: Seq<u64>) -> bool {
    &&& message.severity is Warning
    &&& match message.error_code {
        Some(code) => !ignored.contains(code),
        None => true,
    }
}

/// Whether there is an error among messages.
pub open spec fn any_error(messages: Seq<Error>) -> bool {
    exists|i: int| 0 <= i < messages.len() && is_error(#[trigger] messages[i])
}

/// Whether there is a warning among messages whose code is not to be ignored.
pub open spec fn any_warning(messages: Seq<Error>, ignored: Seq<u64>) -> bool {
    exists|i: int| 0 <= i < messages.len() && is_reported_warning(#[trigger] messages[i], ignored)
}

/// There is an error in an output to which another was added just if there was one in either.
pub proof fn lemma_merged_errors(first: Seq<Error>, second: Seq<Error>)
    ensures
        any_error(first + second) <==> any_error(first) || any_error(second),
{
    let all = first + second;
    if any_error(first) {
        let i = choose|i: int| 0 <= i < first.len() && is_error(#[trigger] first[i]);
        assert(is_error(all[i]));
    }
    if any_error(second) {
        let i = choose|i: int| 0 <= i < second.len() && is_error(#[trigger] second[i]);
        assert(is_error(all[first.len() + i]));
    }
    if any_error(all) {
        let i = choose|i: int| 0 <= i < all.len() && is_error(#[trigger] all[i]);
        if i < first.len() {
            assert(is_error(first[i]));
        } else {
            assert(is_error(second[i - first.len()]));
        }
    }
}

/// There is a warning in an output to which another was added just if there was one in either.
pub proof fn lemma_merged_warnings(first: Seq<Error>, second: Seq<Error>, ignored: Seq<u64>)
    ensures
        any_warning(first + second, ignored) <==> any_warning(first, ignored) || any_warning(
            second,
            ignored,
        ),
{
    let all = first + second;
    if any_warning(first, ignored) {
        let i = choose|i: int|
            0 <= i < first.len() && is_reported_warning(#[trigger] first[i], ignored);
        assert(is_reported_warning(all[i], ignored));
    }
    if any_warning(second, ignored) {
        let i = choose|i: int|
            0 <= i < second.len() && is_reported_warning(#[trigger] second[i], ignored);
        assert(is_reported_warning(all[first.len() + i], ignored));
    }
    if any_warning(all, ignored) {
        let i = choose|i: int|
            0 <= i < all.len() && is_reported_warning(#[trigger] all[i], ignored);
        if i < first.len() {
            assert(is_reported_warning(first[i], ignored));
        } else {
            assert(is_reported_warning(second[i - first.len()], ignored));
        }
    }
}

/// Ignoring more codes brings no new warning.
pub proof fn lemma_ignoring_more(messages: Seq<Error>, fewer: Seq<u64>, more: Seq<u64>)
    requires
        forall|code: u64| #[trigger] fewer.contains(code) ==> more.contains(code),
    ensures
        any_warning(messages, more) ==> any_warning(messages, fewer),
{
    if any_warning(messages, more) {
        let i = choose|i: int|
            0 <= i < messages.len() && is_reported_warning(#[trigger] messages[i], more);
        assert(is_reported_warning(messages[i], fewer));
    }
}

/// The contract of that name in the file of that path.
pub open spec fn contract_at(
    files: Map<Seq<char>, OrdMap<String, CompiledContract>>,
    path: Seq<char>,
    name: Seq<char>,
) -> Option<CompiledContract> {
    if files.contains_key(path) && files[path].dict().contains_key(name) {
        Some(files[path].dict()[name])
    } else {
        None
    }
}

/// In an output to which another was added, the contracts of a file are those of the added one if
/// it has the file, and else those that were there.
pub proof fn lemma_merged_contracts(
    first: Map<Seq<char>, OrdMap<String, CompiledContract>>,
    second: Map<Seq<char>, OrdMap<String, CompiledContract>>,
    path: Seq<char>,
    name: Seq<char>,
)
    ensures
        contract_at(first.union_prefer_right(second), path, name) == (if second.contains_key(path) {
            contract_at(second, path, name)
        } else {
            contract_at(first, path, name)
        }),
{
}

/// Merging three outputs gives the same whichever two are merged first, for the entries by file
/// and for the messages.
pub proof fn lemma_merged_associative<V>(
    first: Seq<(String, V)>,
    second: Seq<(String, V)>,
    third: Seq<(String, V)>,
    first_errors: Seq<Error>,
    second_errors: Seq<Error>,
    third_errors: Seq<Error>,
)
    requires
        ord_map::increasing(first),
        ord_map::increasing(second),
        ord_map::increasing(third),
    ensures
        ord_map::put_all(ord_map::put_all(first, second), third) == ord_map::put_all(
            first,
            ord_map::put_all(second, third),
        ),
        (first_errors + second_errors) + third_errors == first_errors + (second_errors
            + third_errors),
{
    ord_map::lemma_put_all_associative(first, second, third);
    assert((first_errors + second_errors) + third_errors =~= first_errors + (second_errors
        + third_errors));
}

/// Merging with an empty output, on either side, changes nothing.
pub proof fn lemma_merged_empty<V>(entries: Seq<(String, V)>, errors: Seq<Error>)
    requires
        ord_map::increasing(entries),
    ensures
        ord_map::put_all(entries, Seq::empty()) == entries,
        ord_map::put_all(Seq::empty(), entries) == entries,
        errors + Seq::<Error>::empty() == errors,
        Seq::<Error>::empty() + errors == errors,
{
    ord_map::lemma_put_all_into_empty(entries);
    assert(errors + Seq::<Error>::empty() =~= errors);
    assert(Seq::<Error>::empty() + errors =~= errors);
}

/// A contract that is at some path is also found by its name alone, though another one of that
/// name may come before it.
pub proof fn lemma_contract_at_is_found(files: contracts::Files, path: Seq<char>, name: Seq<char>)
    requires
        contract_at(ord_map::dict(files), path, name) is Some,
    ensures
        contracts::first_contract(files, name) is Some,
{
    let i = choose|i: int| ord_map::entry_at(files, path, i);
    contracts::lemma_found_if_there(files, i, name);
}

/// The entries of a map that belong to some files.
pub open spec fn retained<V>(files: Seq<Seq<char>>, entries: Seq<(String, V)>) -> Seq<(String, V)> {
    entries.filter(|e: (String, V)| is_among(files, e.0@))
}

/// Whether a message belongs to some files. One without a place belongs to all.
pub open spec fn concerns(files: Seq<Seq<char>>, message: Error) -> bool {
    match message.source_location {
        Some(location) => is_among(files, location.file@),
        None => true,
    }
}

/// The messages that belong to some files.
pub open spec fn retained_messages(files: Seq<Seq<char>>, messages: Seq<Error>) -> Seq<Error> {
    messages.filter(|e: Error| concerns(files, e))
}

/// Retaining leaves the entries and messages that belong to the files, all of them and no others.
pub proof fn lemma_retained<V>(
    files: Seq<Seq<char>>,
    entries: Seq<(String, V)>,
    messages: Seq<Error>,
    entry: (String, V),
    message: Error,
)
    ensures
        retained(files, entries).contains(entry) <==> entries.contains(entry) && is_among(
            files,
            entry.0@,
        ),
        retained_messages(files, messages).contains(message) <==> messages.contains(message)
            && concerns(files, message),
{
    keep::lemma_filter_contains(entries, |e: (String, V)| is_among(files, e.0@), entry);
    keep::lemma_filter_contains(messages, |e: Error| concerns(files, e), message);
}

/// Retaining the same files again changes nothing.
pub proof fn lemma_retained_twice<V>(
    files: Seq<Seq<char>>,
    entries: Seq<(String, V)>,
    messages: Seq<Error>,
)
    ensures
        retained(files, retained(files, entries)) == retained(files, entries),
        retained_messages(files, retained_messages(files, messages)) == retained_messages(
            files,
            messages,
        ),
{
    keep::lemma_filter_twice(entries, |e: (String, V)| is_among(files, e.0@));
    keep::lemma_filter_twice(messages, |e: Error| concerns(files, e));
}

/// It makes no difference which of two lists of files is retained first.
pub proof fn lemma_retained_in_any_order<V>(
    files: Seq<Seq<char>>,
    others: Seq<Seq<char>>,
    entries: Seq<(String, V)>,
    messages: Seq<Error>,
)
    ensures
        retained(files, retained(others, entries)) == retained(others, retained(files, entries)),
        retained_messages(files, retained_messages(others, messages)) == retained_messages(
            others,
            retained_messages(files, messages),
        ),
{
    keep::lemma_filters_commute(
        entries,
        |e: (String, V)| is_among(others, e.0@),
        |e: (String, V)| is_among(files, e.0@),
    );
    keep::lemma_filters_commute(
        messages,
        |e: Error| concerns(others, e),
        |e: Error| concerns(files, e),
    );
}

/// Upper and lower case make no difference to what is retained.
pub proof fn lemma_retained_whatever_case<V>(
    files: Seq<Seq<char>>,
    others: Seq<Seq<char>>,
    entries: Seq<(String, V)>,
    messages: Seq<Error>,
)
    requires
        files.len() == others.len(),
        forall|i: int|
            #![trigger files[i]]
            #![trigger others[i]]
            0 <= i < files.len() ==> lowercase(files[i]) == lowercase(others[i]),
    ensures
        retained(files, entries) == retained(others, entries),
        retained_messages(files, messages) == retained_messages(others, messages),
{
    assert forall|file: Seq<char>| #[trigger] is_among(files, file) == is_among(others, file) by {
        if is_among(files, file) {
            let i = choose|i: int|
                0 <= i < files.len() && lowercase(#[trigger] files[i]) == lowercase(file);
            assert(lowercase(others[i]) == lowercase(file));
        }
        if is_among(others, file) {
            let i = choose|i: int|
                0 <= i < others.len() && lowercase(#[trigger] others[i]) == lowercase(file);
            assert(lowercase(files[i]) == lowercase(file));
        }
    }
    keep::lemma_filter_same(
        entries,
        |e: (String, V)| is_among(files, e.0@),
        |e: (String, V)| is_among(others, e.0@),
    );
    keep::lemma_filter_same(
        messages,
        |e: Error| concerns(files, e),
        |e: Error| concerns(others, e),
    );
}

impl CompilerOutput {
    /// Whether the output contains a compiler error
    pub fn has_error(&self) -> (b: bool)
        ensures
            b == any_error(self.errors@),
    {
        for i in 0..self.errors.len()
            invariant
                forall|j: int| 0 <= j < i ==> !is_error(#[trigger] self.errors@[j]),
        {
            if self.errors[i].severity.is_error() {
                assert(is_error(self.errors@[i as int]));
                return true;
            }
        }
        false
    }

    /// Whether the output contains a compiler warning, other than those with an ignored code
    pub fn has_warning(&self, ignored_error_codes: &[u64]) -> (b: bool)
        ensures
            b == any_warning(self.errors@, ignored_error_codes@),
    {
        for i in 0..self.errors.len()
            invariant
                forall|j: int|
                    0 <= j < i ==> !is_reported_warning(
                        #[trigger] self.errors@[j],
                        ignored_error_codes@,
                    ),
        {
            let message: &Error = &self.errors[i];
            let reported = if message.severity.is_warning() {
                match message.error_code {
                    Some(code) => !contains_code(ignored_error_codes, code),
                    None => true,
                }
            } else {
                false
            };
            if reported {
                assert(is_reported_warning(self.errors@[i as int], ignored_error_codes@));
                return true;
            }
        }
        false
    }

    /// Finds the _first_ contract with the given name
    pub fn find(&self, contract: &str) -> (found: Option<CompactContractRef<'_>>)
        ensures
            found == contract::compact_ref(contracts::first_contract(self.contracts@, contract@)),
    {
        find_contract(&self.contracts, contract)
    }

    /// Finds the first contract with the given name and removes it from the set
    pub fn remove(&mut self, contract: &str) -> (removed: Option<CompiledContract>)
        ensures
            removed == contracts::first_contract(old(self).contracts@, contract@),
            contracts::first_removed(old(self).contracts@, final(self).contracts@, contract@),
            *final(self) == (CompilerOutput { contracts: final(self).contracts, ..*old(self) }),
    {
        remove_contract(&mut self.contracts, contract)
    }

    /// All contracts with their names.
    pub fn contracts_iter(&self) -> (list: Vec<(&String, &CompiledContract)>)
        ensures
            ord_map::behind(list@) == contracts::listed(self.contracts@),
    {
        list_contracts(&self.contracts)
    }

    /// All contracts with their names.
    pub fn contracts_into_iter(self) -> (list: Vec<(String, CompiledContract)>)
        ensures
            list@ == contracts::listed(self.contracts@),
    {
        into_list(self.contracts)
    }

    /// Given the contract file's path and the contract's name, tries to return the contract's
    /// bytecode, runtime bytecode, and abi
    pub fn get(&self, path: &str, contract: &str) -> (found: Option<CompactContractRef<'_>>)
        ensures
            found == contract::compact_ref(
                contract_at(self.contracts.dict(), path@, contract@),
            ),
    {
        match self.contracts.get(&path.to_owned()) {
            Some(file) => match file.get(&contract.to_owned()) {
                Some(found) => Some(CompactContractRef::from(found)),
                None => None,
            },
            None => None,
        }
    }

    /// Returns the output's source files and contracts separately, wrapped in helper types that
    /// provide several helper methods
    pub fn split(self) -> (parts: (SourceFiles, OutputContracts))
        ensures
            parts.0 == SourceFiles(self.sources),
            parts.1 == OutputContracts(self.contracts),
    {
        (SourceFiles(self.sources), OutputContracts(self.contracts))
    }

    /// Retains only what belongs to the given files.
    ///
    /// In other words, removes all contracts, sources and messages of other files. Messages
    /// without a place stay.
    ///
    /// Upper and lower case make no difference, because solc does not necessarily emit the exact
    /// file name, e.g. `src/utils/upgradeProxy.sol` is emitted as `src/utils/UpgradeProxy.sol`.
    pub fn retain_files(&mut self, files: Vec<&str>)
        ensures
            final(self).contracts@ == retained(text::texts(files@), old(self).contracts@),
            final(self).sources@ == retained(text::texts(files@), old(self).sources@),
            final(self).errors@ == retained_messages(text::texts(files@), old(self).errors@),
    {
        let lower = lower_all(&files);
        let contract_files = lower_keys(&self.contracts);
        let source_files = lower_keys(&self.sources);
        let error_files = lower_places(&self.errors);
        let ghost wanted = text::texts(files@);
        let ghost listed = text::contents(lower@);
        assert forall|file: Seq<char>| listed.contains(lowercase(file)) == #[trigger] is_among(
            wanted,
            file,
        ) by {
            if is_among(wanted, file) {
                let i = choose|i: int|
                    0 <= i < wanted.len() && lowercase(#[trigger] wanted[i]) == lowercase(file);
                assert(listed[i] == lowercase(file));
            }
            if listed.contains(lowercase(file)) {
                let i = choose|i: int| 0 <= i < listed.len() && listed[i] == lowercase(file);
                assert(lowercase(wanted[i]) == lowercase(file));
            }
        }
        proof {
            keep::lemma_kept_is_filter(
                self.contracts@,
                |i: int| listed.contains(contract_files@[i]@),
                |e: (String, OrdMap<String, CompiledContract>)| is_among(wanted, e.0@),
            );
            keep::lemma_kept_is_filter(
                self.sources@,
                |i: int| listed.contains(source_files@[i]@),
                |e: (String, SourceFile)| is_among(wanted, e.0@),
            );
            keep::lemma_kept_is_filter(
                self.errors@,
                |i: int|
                    match error_files@[i] {
                        Some(file) => listed.contains(file@),
                        None => true,
                    },
                |e: Error| concerns(wanted, e),
            );
        }
        self.retain_lowercase(&lower, &contract_files, &source_files, &error_files);
    }

    /// Retains only what belongs to the given files, where all names are in lower case already:
    /// those of the files, and those that the contracts, sources and messages belong to, in their
    /// order.
    pub fn retain_lowercase(
        &mut self,
        files: &Vec<String>,
        contract_files: &Vec<String>,
        source_files: &Vec<String>,
        error_files: &Vec<Option<String>>,
    )
        requires
            contract_files@.len() == old(self).contracts@.len(),
            source_files@.len() == old(self).sources@.len(),
            error_files@.len() == old(self).errors@.len(),
        ensures
            final(self).contracts@ == keep::kept(
                old(self).contracts@,
                |i: int| text::contents(files@).contains(contract_files@[i]@),
            ),
            final(self).sources@ == keep::kept(
                old(self).sources@,
                |i: int| text::contents(files@).contains(source_files@[i]@),
            ),
            final(self).errors@ == keep::kept(
                old(self).errors@,
                |i: int|
                    match error_files@[i] {
                        Some(file) => text::contents(files@).contains(file@),
                        None => true,
                    },
            ),
    {
        let contract_marks = mark_listed(contract_files, files);
        let source_marks = mark_listed(source_files, files);
        let mut error_marks: Vec<bool> = Vec::new();
        for i in 0..error_files.len()
            invariant
                error_marks@.len() == i,
                forall|j: int|
                    0 <= j < i ==> #[trigger] error_marks@[j] == (match error_files@[j] {
                        Some(file) => text::contents(files@).contains(file@),
                        None => true,
                    }),
        {
            error_marks.push(
                match &error_files[i] {
                    Some(file) => contains_text(files, file.as_str()),
                    None => true,
                },
            );
        }
        retain_marked(&mut self.contracts, &contract_marks);
        retain_marked(&mut self.sources, &source_marks);
        let mut errors: Vec<Error> = Vec::new();
        std::mem::swap(&mut errors, &mut self.errors);
        self.errors = keep_marked(errors, &error_marks);
        proof {
            keep::lemma_kept_same(
                old(self).contracts@,
                |i: int| contract_marks@[i],
                |i: int| text::contents(files@).contains(contract_files@[i]@),
            );
            keep::lemma_kept_same(
                old(self).sources@,
                |i: int| source_marks@[i],
                |i: int| text::contents(files@).contains(source_files@[i]@),
            );
            keep::lemma_kept_same(
                old(self).errors@,
                |i: int| error_marks@[i],
                |i: int|
                    match error_files@[i] {
                        Some(file) => text::contents(files@).contains(file@),
                        None => true,
                    },
            );
        }
    }

    /// Adds another output to this one. Its messages come after those of this one, and what it
    /// says of a file replaces what this one says of it.
    pub fn merge(&mut self, other: CompilerOutput)
        ensures
            final(self).errors@ == old(self).errors@ + other.errors@,
            final(self).contracts@ == ord_map::put_all(old(self).contracts@, other.contracts@),
            final(self).sources@ == ord_map::put_all(old(self).sources@, other.sources@),
            final(self).contracts.dict() == old(self).contracts.dict().union_prefer_right(
                other.contracts.dict(),
            ),
            final(self).sources.dict() == old(self).sources.dict().union_prefer_right(
                other.sources.dict(),
            ),
    {
        let mut errors = other.errors;
        self.errors.append(&mut errors);
        self.contracts.extend(other.contracts);
        self.sources.extend(other.sources);
    }
}

/// Whether a code is among some.
fn contains_code(codes: &[u64], code: u64) -> (found: bool)
    ensures
        found == codes@.contains(code),
{
    for i in 0..codes.len()
        invariant
            forall|j: int| 0 <= j < i ==> codes@[j] != code,
    {
        if codes[i] == code {
            return true;
        }
    }
    false
}

/// Texts in lower case.
fn lower_all(names: &Vec<&str>) -> (lower: Vec<String>)
    ensures
        lower@.len() == names@.len(),
        forall|i: int| 0 <= i < names@.len() ==> (#[trigger] lower@[i])@ == lowercase(names@[i]@),
{
    let mut lower: Vec<String> = Vec::new();
    for i in 0..names.len()
        invariant
            lower@.len() == i,
            forall|j: int| 0 <= j < i ==> (#[trigger] lower@[j])@ == lowercase(names@[j]@),
    {
        lower.push(to_lowercase(names[i]));
    }
    lower
}

/// The keys of a map in lower case.
fn lower_keys<V>(entries: &OrdMap<String, V>) -> (lower: Vec<String>)
    ensures
        lower@.len() == entries@.len(),
        forall|i: int|
            0 <= i < entries@.len() ==> (#[trigger] lower@[i])@ == lowercase(entries@[i].0@),
{
    let mut lower: Vec<String> = Vec::new();
    let count: usize = entries.len();
    for i in 0..count
        invariant
            count == entries@.len(),
            lower@.len() == i,
            forall|j: int| 0 <= j < i ==> (#[trigger] lower@[j])@ == lowercase(entries@[j].0@),
    {
        lower.push(to_lowercase(entries.nth(i).0.as_str()));
    }
    lower
}

/// The files that messages are about, in lower case.
fn lower_places(messages: &Vec<Error>) -> (lower: Vec<Option<String>>)
    ensures
        lower@.len() == messages@.len(),
        forall|i: int|
            0 <= i < messages@.len() ==> match (
                #[trigger] lower@[i],
                messages@[i].source_location,
            ) {
                (Some(file), Some(location)) => file@ == lowercase(location.file@),
                (None, None) => true,
                _ => false,
            },
{
    let mut lower: Vec<Option<String>> = Vec::new();
    for i in 0..messages.len()
        invariant
            lower@.len() == i,
            forall|j: int|
                0 <= j < i ==> match (#[trigger] lower@[j], messages@[j].source_location) {
                    (Some(file), Some(location)) => file@ == lowercase(location.file@),
                    (None, None) => true,
                    _ => false,
                },
    {
        let place = match &messages[i].source_location {
            Some(location) => Some(to_lowercase(location.file.as_str())),
            None => None,
        };
        lower.push(place);
    }
    lower
}

/// There is an error just if some message is one, and a warning just if some message is one that
/// has no code or one that is not ignored.
pub proof fn lemma_errors_and_warnings(messages: Seq<Error>, ignored: Seq<u64>)
    ensures
        any_error(messages) <==> exists|i: int|
            0 <= i < messages.len() && (#[trigger] messages[i]).severity
                == crate::error::Severity::Error,
        any_warning(messages, ignored) <==> exists|i: int|
            0 <= i < messages.len() && (#[trigger] messages[i]).severity
                == crate::error::Severity::Warning && (messages[i].error_code is None
                || !ignored.contains(messages[i].error_code->0)),
{
    if any_error(messages) {
        let i = choose|i: int| 0 <= i < messages.len() && is_error(#[trigger] messages[i]);
        assert(messages[i].severity == crate::error::Severity::Error);
    }
    if any_warning(messages, ignored) {
        let i = choose|i: int|
            0 <= i < messages.len() && is_reported_warning(#[trigger] messages[i], ignored);
        assert(messages[i].severity == crate::error::Severity::Warning);
    }
}

/// A filter of one item.
proof fn lemma_filter_one<T>(item: T, pred: spec_fn(T) -> bool)
    ensures
        seq![item].filter(pred) == (if pred(item) {
            seq![item]
        } else {
            Seq::empty()
        }),
{
    reveal_with_fuel(Seq::filter, 2);
    assert(seq![item].drop_last() =~= Seq::empty());
    assert(Seq::<T>::empty().push(item) =~= seq![item]);
}

/// What is retained of entries is what is retained of each, in their order. One entry is retained
/// just if its file equals one of the given files but for upper and lower case.
pub proof fn lemma_entries_retained_one_by_one<V>(
    files: Seq<Seq<char>>,
    entry: (String, V),
    before: Seq<(String, V)>,
    after: Seq<(String, V)>,
)
    ensures
        retained(files, Seq::<(String, V)>::empty()) == Seq::<(String, V)>::empty(),
        retained(files, seq![entry]) == (if exists|i: int|
            0 <= i < files.len() && lowercase(#[trigger] files[i]) == lowercase(entry.0@) {
            seq![entry]
        } else {
            Seq::empty()
        }),
        retained(files, before + after) == retained(files, before) + retained(files, after),
{
    let pred = |e: (String, V)| is_among(files, e.0@);
    reveal(Seq::filter);
    lemma_filter_one(entry, pred);
    Seq::filter_distributes_over_add(before, after, pred);
}

/// What is retained of messages is what is retained of each, in their order. One message is
/// retained just if it has no place, or one in a file that equals one of the given files but for
/// upper and lower case, whatever else it says.
pub proof fn lemma_messages_retained_one_by_one(
    files: Seq<Seq<char>>,
    message: Error,
    before: Seq<Error>,
    after: Seq<Error>,
)
    ensures
        retained_messages(files, Seq::<Error>::empty()) == Seq::<Error>::empty(),
        retained_messages(files, seq![message]) == (if message.source_location is None || exists|
            i: int,
        |
            0 <= i < files.len() && lowercase(#[trigger] files[i]) == lowercase(
                message.source_location->0.file@,
            ) {
            seq![message]
        } else {
            Seq::empty()
        }),
        retained_messages(files, before + after) == retained_messages(files, before)
            + retained_messages(files, after),
{
    let pred = |e: Error| concerns(files, e);
    reveal(Seq::filter);
    lemma_filter_one(message, pred);
    Seq::filter_distributes_over_add(before, after, pred);
}

/// Two messages about the same place, or both about none, are retained or dropped together.
pub proof fn lemma_retained_by_place(
    files: Seq<Seq<char>>,
    messages: Seq<Error>,
    message: Error,
    other: Error,
)
    requires
        messages.contains(message),
        messages.contains(other),
        message.source_location == other.source_location,
    ensures
        retained_messages(files, messages).contains(message) <==> retained_messages(
            files,
            messages,
        ).contains(other),
{
    keep::lemma_filter_contains(messages, |e: Error| concerns(files, e), message);
    keep::lemma_filter_contains(messages, |e: Error| concerns(files, e), other);
}

/// The contract that stands under a name in the file at a path is the one that is got for them.
pub proof fn lemma_got_as_it_stands(files: contracts::Files, i: int, j: int)
    requires
        ord_map::increasing(files),
        0 <= i < files.len(),
        files[i].1.well_formed(),
        0 <= j < files[i].1@.len(),
    ensures
        contract_at(ord_map::dict(files), files[i].0@, files[i].1@[j].0@) == Some(
            files[i].1@[j].1,
        ),
{
    ord_map::lemma_entry(files, i);
    ord_map::lemma_entry(files[i].1@, j);
}

/// Nothing is got for a path and a name unless the file at that path holds a contract of the name.
pub proof fn lemma_got_nothing(files: contracts::Files, path: Seq<char>, name: Seq<char>)
    requires
        ord_map::increasing(files),
        forall|i: int, j: int|
            #![trigger files[i].1@[j]]
            0 <= i < files.len() && 0 <= j < files[i].1@.len() && files[i].0@ == path
                ==> files[i].1@[j].0@ != name,
    ensures
        contract_at(ord_map::dict(files), path, name) is None,
{
    if contract_at(ord_map::dict(files), path, name) is Some {
        let i = choose|i: int| ord_map::entry_at(files, path, i);
        ord_map::lemma_entry(files, i);
        let j = choose|j: int| ord_map::entry_at(files[i].1@, name, j);
        assert(files[i].1@[j].0@ == name);
    }
}

/// Setting the contract of a name in a file and getting it gives back what was set, and changes
/// what is got for no other name and no other file.
pub proof fn lemma_set_and_got(
    files: contracts::Files,
    path: String,
    file: OrdMap<String, CompiledContract>,
    changed: OrdMap<String, CompiledContract>,
    name: String,
    contract: CompiledContract,
    other_path: Seq<char>,
    other_name: Seq<char>,
)
    requires
        ord_map::increasing(files),
        file.well_formed(),
        ord_map::dict(files).contains_key(path@),
        ord_map::dict(files)[path@] == file,
        changed@ == ord_map::put(file@, name, contract),
    ensures
        contract_at(ord_map::dict(ord_map::put(files, path, changed)), path@, name@) == Some(
            contract,
        ),
        other_name != name@ || other_path != path@ ==> contract_at(
            ord_map::dict(ord_map::put(files, path, changed)),
            other_path,
            other_name,
        ) == contract_at(ord_map::dict(files), other_path, other_name),
{
    ord_map::lemma_put_dict(files, path, changed);
    ord_map::lemma_put_dict(file@, name, contract);
}

} // verus!
