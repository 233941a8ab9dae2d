//! Input of the compiler.

use crate::evm_version::EvmVersion;
use crate::keep;
use crate::ord_map;
use crate::ord_map::OrdMap;
use crate::order::same_text;
use crate::path;
use crate::path::SourcePath;
use crate::settings::{Optimizer, Remapping, Settings};
use crate::source::{Source, Sources};
use crate::version::Version;
use vstd::prelude::*;

verus! {

/// Input type `solc` expects
#[derive(Clone, Debug)]
pub struct CompilerInput {
    pub language: String,
    pub sources: Sources,
    pub settings: Settings,
}

/// Whether the source of an entry is in Yul, by its file's extension.
pub open spec fn is_yul(entry: (SourcePath, Source)) -> bool {
    path::extension(entry.0@) == Some("yul"@)
}

/// The sources in Yul.
pub open spec fn yul_sources(sources: Seq<(SourcePath, Source)>) -> Seq<(SourcePath, Source)> {
    sources.filter(|e: (SourcePath, Source)| is_yul(e))
}

/// The other sources, which are in Solidity.
pub open spec fn solidity_sources(sources: Seq<(SourcePath, Source)>) -> Seq<(SourcePath, Source)> {
    sources.filter(|e: (SourcePath, Source)| !is_yul(e))
}

/// What is left of increasing entries is increasing.
proof fn lemma_filter_increasing(
    entries: Seq<(SourcePath, Source)>,
    pred: spec_fn((SourcePath, Source)) -> bool,
)
    requires
        ord_map::increasing(entries),
    ensures
        ord_map::increasing(entries.filter(pred)),
{
    let keep = |i: int| pred(entries[i]);
    keep::lemma_kept_is_filter(entries, keep, pred);
    keep::lemma_kept_increasing(entries, keep);
}

/// The inputs for some sources hold each of them in exactly one input, that of its language, and
/// nothing else. No input is empty.
pub proof fn lemma_inputs_part_sources(
    inputs: Seq<CompilerInput>,
    sources: Seq<(SourcePath, Source)>,
    entry: (SourcePath, Source),
)
    requires
        CompilerInput::are_inputs_of(inputs, sources),
    ensures
        sources.contains(entry) <==> exists|i: int|
            0 <= i < inputs.len() && (#[trigger] inputs[i]).sources@.contains(entry),
        forall|i: int|
            0 <= i < inputs.len() ==> (#[trigger] inputs[i]).sources@.len() > 0 && (
            inputs[i].sources@.contains(entry) ==> inputs[i].language@ == (if is_yul(entry) {
                "Yul"@
            } else {
                "Solidity"@
            })),
        forall|i: int, j: int|
            0 <= i < inputs.len() && 0 <= j < inputs.len() && (
            #[trigger] inputs[i]).sources@.contains(entry) && (
            #[trigger] inputs[j]).sources@.contains(entry) ==> i == j,
{
    keep::lemma_filter_contains(sources, |e: (SourcePath, Source)| is_yul(e), entry);
    keep::lemma_filter_contains(sources, |e: (SourcePath, Source)| !is_yul(e), entry);
    if sources.contains(entry) {
        if is_yul(entry) {
            assert(inputs[inputs.len() - 1].sources@.contains(entry));
        } else {
            assert(inputs[0].sources@.contains(entry));
        }
    }
}

impl CompilerInput {
    /// Whether this is the input with default settings for sources in a language.
    pub open spec fn is_standard(
        self,
        language: Seq<char>,
        sources: Seq<(SourcePath, Source)>,
    ) -> bool {
        &&& self.language@ == language
        &&& self.sources@ == sources
        &&& self.settings.is_standard()
    }

    /// Creates the inputs for sources that were read, unless reading failed.
    pub fn new<E>(read: Result<Sources, E>) -> (result: Result<Vec<Self>, E>)
        ensures
            match (read, result) {
                (Ok(sources), Ok(inputs)) => Self::are_inputs_of(inputs@, sources@),
                (Err(failure), Err(error)) => failure == error,
                _ => false,
            },
    {
        match read {
            Ok(sources) => Ok(CompilerInput::with_sources(sources)),
            Err(error) => Err(error),
        }
    }

    /// Whether these are the inputs with default settings for some sources: one for those in
    /// Solidity and then one for those in Yul, as far as there are any.
    pub open spec fn are_inputs_of(inputs: Seq<Self>, sources: Seq<(SourcePath, Source)>) -> bool {
        let solidity = solidity_sources(sources);
        let yul = yul_sources(sources);
        if solidity.len() > 0 && yul.len() > 0 {
            &&& inputs.len() == 2
            &&& inputs[0].is_standard("Solidity"@, solidity)
            &&& inputs[1].is_standard("Yul"@, yul)
        } else if solidity.len() > 0 {
            &&& inputs.len() == 1
            &&& inputs[0].is_standard("Solidity"@, solidity)
        } else if yul.len() > 0 {
            &&& inputs.len() == 1
            &&& inputs[0].is_standard("Yul"@, yul)
        } else {
            inputs.len() == 0
        }
    }

    /// Creates a new [CompilerInput](s) with default settings and the given sources
    ///
    /// A [CompilerInput] expects a language setting, supported by solc are solidity or yul.
    /// In case the `sources` is a mix of solidity and yul files, 2 CompilerInputs are returned
    pub fn with_sources(sources: Sources) -> (inputs: Vec<Self>)
        ensures
            Self::are_inputs_of(inputs@, sources@),
    {
        let entries = sources.into_entries();
        let ghost all = entries@;
        let ghost yul = |e: (SourcePath, Source)| is_yul(e);
        let ghost other = |e: (SourcePath, Source)| !is_yul(e);
        let mut solidity_entries: Vec<(SourcePath, Source)> = Vec::new();
        let mut yul_entries: Vec<(SourcePath, Source)> = Vec::new();
        proof {
            reveal(Seq::filter);
            assert(all.take(0) =~= Seq::empty());
        }
        for entry in it: entries
            invariant
                it.seq() == all,
                yul == (|e: (SourcePath, Source)| is_yul(e)),
                other == (|e: (SourcePath, Source)| !is_yul(e)),
                yul_entries@ == all.take(it.index() as int).filter(yul),
                solidity_entries@ == all.take(it.index() as int).filter(other),
        {
            proof {
                reveal(Seq::filter);
                let more = all.take(it.index() + 1);
                assert(more.drop_last() =~= all.take(it.index() as int));
                assert(more.last() == entry);
            }
            let in_yul = match entry.0.extension() {
                Some(extension) => same_text(extension.as_str(), "yul"),
                None => false,
            };
            if in_yul {
                yul_entries.push(entry);
            } else {
                solidity_entries.push(entry);
            }
        }
        proof {
            assert(all.take(all.len() as int) =~= all);
            lemma_filter_increasing(all, yul);
            lemma_filter_increasing(all, other);
        }
        let mut inputs: Vec<Self> = Vec::new();
        if !solidity_entries.is_empty() {
            inputs.push(
                CompilerInput {
                    language: "Solidity".to_owned(),
                    sources: OrdMap::from_increasing(solidity_entries),
                    settings: Settings::default(),
                },
            );
        }
        if !yul_entries.is_empty() {
            inputs.push(
                CompilerInput {
                    language: "Yul".to_owned(),
                    sources: OrdMap::from_increasing(yul_entries),
                    settings: Settings::default(),
                },
            );
        }
        inputs
    }

    /// Sets the settings for compilation
    #[must_use]
    pub fn settings(self, settings: Settings) -> (changed: Self)
        ensures
            changed == (CompilerInput { settings, ..self }),
    {
        let mut changed = self;
        changed.settings = settings;
        changed
    }

    /// Sets the EVM version for compilation
    #[must_use]
    pub fn evm_version(self, version: EvmVersion) -> (changed: Self)
        ensures
            changed == (CompilerInput {
                settings: Settings { evm_version: Some(version), ..self.settings },
                ..self
            }),
    {
        let mut changed = self;
        changed.settings.evm_version = Some(version);
        changed
    }

    /// Sets the optimizer runs (default = 200)
    #[must_use]
    pub fn optimizer(self, runs: usize) -> (changed: Self)
        ensures
            changed == (CompilerInput {
                settings: Settings {
                    optimizer: Optimizer { runs: Some(runs), ..self.settings.optimizer },
                    ..self.settings
                },
                ..self
            }),
    {
        let mut changed = self;
        changed.settings.optimizer.runs(runs);
        changed
    }

    /// Normalizes the EVM version used in the settings to be up to the latest one
    /// supported by the provided compiler version.
    #[must_use]
    pub fn normalize_evm_version(self, version: &Version) -> (changed: Self)
        ensures
            changed == (CompilerInput {
                settings: Settings {
                    evm_version: match self.settings.evm_version {
                        Some(evm_version) => evm_version.normalized(version@),
                        None => None,
                    },
                    ..self.settings
                },
                ..self
            }),
    {
        let mut changed = self;
        if let Some(evm_version) = changed.settings.evm_version {
            changed.settings.evm_version = evm_version.normalize_version(version);
        }
        changed
    }

    /// Sets the remappings for compilation
    #[must_use]
    pub fn with_remappings(self, remappings: Vec<Remapping>) -> (changed: Self)
        ensures
            changed == (CompilerInput {
                settings: Settings { remappings, ..self.settings },
                ..self
            }),
    {
        let mut changed = self;
        changed.settings.remappings = remappings;
        changed
    }
}

/// A source is in Yul just if its file's name ends in `.yul` with something before the dot,
/// whatever directory the file is in.
pub proof fn lemma_language_by_file_name(
    entry: (SourcePath, Source),
    directory: Seq<char>,
    name: Seq<char>,
)
    requires
        entry.0.text@ == name || entry.0.text@ == directory.push('/') + name,
        name.len() > 0,
        !name.contains('/'),
        name != seq!['.'],
        name != seq!['.', '.'],
    ensures
        is_yul(entry) <==> name.len() > 4 && name.skip(name.len() - 4) == seq!['.', 'y', 'u', 'l'],
{
    reveal_strlit("yul");
    assert("yul"@ =~= seq!['y', 'u', 'l']);
    path::lemma_one_more_step(directory, name);
    let steps = entry.0@;
    assert(path::file_name(steps) == Some(name));
    let ending = seq!['.', 'y', 'u', 'l'];
    if name.len() > 4 && name.skip(name.len() - 4) == ending {
        let stem = name.take(name.len() - 4);
        assert(!"yul"@.contains('.'));
        assert forall|i: int| 0 <= i < 4 implies name[name.len() - 4 + i] == #[trigger] ending[i] by {
            assert(name.skip(name.len() - 4)[i] == ending[i]);
        }
        assert(stem.push('.') + "yul"@ =~= name);
        path::lemma_extension_of_name(Seq::empty(), stem, "yul"@);
        assert(path::file_name(Seq::<path::Part>::empty().push(path::Part::Normal(name))) == Some(
            name,
        ));
    }
    if is_yul(entry) {
        name.index_of_last_ensures('.');
        let dot = name.index_of_last('.')->0;
        assert(name.skip(dot + 1) == "yul"@);
        assert(name.skip(dot + 1).len() == 3);
        assert forall|i: int| 0 <= i < 3 implies name[dot + 1 + i] == #[trigger] "yul"@[i] by {
            assert(name.skip(dot + 1)[i] == "yul"@[i]);
        }
        assert(name.skip(name.len() - 4) =~= ending);
    }
}

/// A path that does not end in a name is not in Yul, and two spellings of one path are in the same
/// language.
pub proof fn lemma_language_by_steps(
    entry: (SourcePath, Source),
    other: (SourcePath, Source),
    directory: Seq<char>,
)
    ensures
        entry.0@ == other.0@ ==> is_yul(entry) == is_yul(other),
        entry.0.text@ == directory.push('/') + seq!['.', '.'] ==> !is_yul(entry),
        entry.0.text@ == seq!['.', '.'] || entry.0.text@ == seq!['.'] || entry.0.text@ == seq!['/']
            || entry.0.text@.len() == 0 ==> !is_yul(entry),
{
    let dots = seq!['.', '.'];
    assert(!dots.contains('/'));
    assert(dots.len() != seq!['.'].len());
    path::lemma_one_more_step(directory, dots);
    path::lemma_shortest_paths();
    if entry.0.text@.len() == 0 {
        assert(entry.0.text@ =~= Seq::empty());
    }
}

/// Each source is in an input of its language, which goes by the name of its file: Yul just if the
/// name ends in `.yul` with something before the dot, and else Solidity.
pub proof fn lemma_inputs_by_file_name(
    inputs: Seq<CompilerInput>,
    sources: Seq<(SourcePath, Source)>,
    entry: (SourcePath, Source),
    directory: Seq<char>,
    name: Seq<char>,
)
    requires
        CompilerInput::are_inputs_of(inputs, sources),
        sources.contains(entry),
        entry.0.text@ == name || entry.0.text@ == directory.push('/') + name,
        name.len() > 0,
        !name.contains('/'),
        name != seq!['.'],
        name != seq!['.', '.'],
    ensures
        exists|i: int| 0 <= i < inputs.len() && (#[trigger] inputs[i]).sources@.contains(entry),
        forall|i: int|
            0 <= i < inputs.len() && (#[trigger] inputs[i]).sources@.contains(entry)
                ==> inputs[i].language@ == (if name.len() > 4 && name.skip(name.len() - 4) == seq![
                '.',
                'y',
                'u',
                'l',
            ] {
                "Yul"@
            } else {
                "Solidity"@
            }),
{
    lemma_inputs_part_sources(inputs, sources, entry);
    lemma_language_by_file_name(entry, directory, name);
}

/// Two sources whose files have the same name are in inputs of the same language.
pub proof fn lemma_same_name_same_language(
    inputs: Seq<CompilerInput>,
    sources: Seq<(SourcePath, Source)>,
    entry: (SourcePath, Source),
    other: (SourcePath, Source),
    directory: Seq<char>,
    elsewhere: Seq<char>,
    name: Seq<char>,
    i: int,
    j: int,
)
    requires
        CompilerInput::are_inputs_of(inputs, sources),
        entry.0.text@ == name || entry.0.text@ == directory.push('/') + name,
        other.0.text@ == elsewhere.push('/') + name,
        name.len() > 0,
        !name.contains('/'),
        0 <= i < inputs.len(),
        0 <= j < inputs.len(),
        inputs[i].sources@.contains(entry),
        inputs[j].sources@.contains(other),
        name != seq!['.'],
        name != seq!['.', '.'],
    ensures
        inputs[i].language@ == inputs[j].language@,
{
    lemma_inputs_part_sources(inputs, sources, entry);
    lemma_inputs_part_sources(inputs, sources, other);
    lemma_language_by_file_name(entry, directory, name);
    lemma_language_by_file_name(other, elsewhere, name);
}

/// How many items a filter and its opposite let pass.
proof fn lemma_filter_parts(sources: Seq<(SourcePath, Source)>)
    ensures
        yul_sources(sources).len() + solidity_sources(sources).len() == sources.len(),
    decreases sources.len(),
{
    reveal(Seq::filter);
    if sources.len() > 0 {
        lemma_filter_parts(sources.drop_last());
    }
}

/// There are at most two inputs, Solidity before Yul. All have the default settings, and together
/// they hold as many sources as there are, in their order.
pub proof fn lemma_inputs_in_order(
    inputs: Seq<CompilerInput>,
    sources: Seq<(SourcePath, Source)>,
)
    requires
        CompilerInput::are_inputs_of(inputs, sources),
        ord_map::increasing(sources),
    ensures
        inputs.len() <= 2,
        inputs.len() == 0 <==> sources.len() == 0,
        inputs.len() == 2 ==> inputs[0].language@ == "Solidity"@ && inputs[1].language@ == "Yul"@
            && inputs[0].sources@.len() + inputs[1].sources@.len() == sources.len(),
        inputs.len() == 1 ==> inputs[0].sources@ == sources,
        forall|i: int|
            0 <= i < inputs.len() ==> (#[trigger] inputs[i]).settings.is_standard()
                && ord_map::increasing(inputs[i].sources@),
{
    lemma_filter_parts(sources);
    let yul = |e: (SourcePath, Source)| is_yul(e);
    let other = |e: (SourcePath, Source)| !is_yul(e);
    lemma_filter_increasing(sources, yul);
    lemma_filter_increasing(sources, other);
    if inputs.len() == 1 {
        if yul_sources(sources).len() == 0 {
            lemma_filter_all(sources, other);
        } else {
            lemma_filter_all(sources, yul);
        }
    }
}

/// A filter that lets as many items pass as there are lets all pass.
proof fn lemma_filter_all<T>(items: Seq<T>, pred: spec_fn(T) -> bool)
    requires
        items.filter(pred).len() == items.len(),
    ensures
        items.filter(pred) == items,
    decreases items.len(),
{
    reveal(Seq::filter);
    if items.len() > 0 {
        items.drop_last().lemma_filter_len(pred);
        lemma_filter_all(items.drop_last(), pred);
        assert(items.drop_last().push(items.last()) =~= items);
    }
}

} // verus!
