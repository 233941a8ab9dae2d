//! Settings of a compilation.

use crate::evm_version::EvmVersion;
use crate::ord_map::OrdMap;
use crate::text;
use crate::text::contains_text;
use vstd::prelude::*;

verus! {

/// Which outputs are selected, as mathematical maps: file, then contract, then the outputs in
/// their order.
pub type Selection = Map<Seq<char>, Map<Seq<char>, Seq<Seq<char>>>>;

/// The outputs that are selected for the contracts of a file.
pub type FileOutputSelection = OrdMap<String, Vec<String>>;

/// The outputs that are selected, by file and contract name. `*` stands for all files or all
/// contracts, the empty contract name for the file itself.
#[derive(Clone, Debug, PartialEq, Eq)]
pub struct OutputSelection(pub OrdMap<String, FileOutputSelection>);

/// What a file's selection holds.
pub open spec fn file_selection(file: FileOutputSelection) -> Map<Seq<char>, Seq<Seq<char>>> {
    file.dict().map_values(|outputs: Vec<String>| text::contents(outputs@))
}

impl View for OutputSelection {
    type V = Selection;

    open spec fn view(&self) -> Selection {
        self.0.dict().map_values(|file: FileOutputSelection| file_selection(file))
    }
}

/// What is selected for all files.
pub open spec fn all_files(selection: Selection) -> Map<Seq<char>, Seq<Seq<char>>> {
    if selection.contains_key("*"@) {
        selection["*"@]
    } else {
        Map::empty()
    }
}

/// The selection with the outputs of a contract set for all files.
pub open spec fn selecting(
    selection: Selection,
    contract: Seq<char>,
    outputs: Seq<Seq<char>>,
) -> Selection {
    selection.insert("*"@, all_files(selection).insert(contract, outputs))
}

/// The outputs that are selected for a contract in all files.
pub open spec fn outputs_of(selection: Selection, contract: Seq<char>) -> Seq<Seq<char>> {
    if all_files(selection).contains_key(contract) {
        all_files(selection)[contract]
    } else {
        Seq::empty()
    }
}

/// The selection with one more output for a contract in all files. One that is there already is
/// not added again.
pub open spec fn adding(selection: Selection, contract: Seq<char>, output: Seq<char>) -> Selection {
    let outputs = outputs_of(selection, contract);
    selecting(
        selection,
        contract,
        if outputs.contains(output) {
            outputs
        } else {
            outputs.push(output)
        },
    )
}

/// The selection with several more outputs for a contract in all files, added one after another.
pub open spec fn adding_all(
    selection: Selection,
    contract: Seq<char>,
    outputs: Seq<Seq<char>>,
) -> Selection
    decreases outputs.len(),
{
    if outputs.len() == 0 {
        selection
    } else {
        adding(adding_all(selection, contract, outputs.drop_last()), contract, outputs.last())
    }
}

/// What is selected by default.
pub open spec fn default_selection() -> Selection {
    map!["*"@ => map![
        "*"@ => seq![
            "abi"@,
            "evm.bytecode"@,
            "evm.deployedBytecode"@,
            "evm.methodIdentifiers"@,
        ],
    ]]
}

impl OutputSelection {
    /// The default selection: the outputs that are most commonly used, for all contracts.
    pub fn default_output_selection() -> (selection: Self)
        ensures
            selection@ == default_selection(),
    {
        let mut outputs: Vec<String> = Vec::new();
        outputs.push("abi".to_owned());
        outputs.push("evm.bytecode".to_owned());
        outputs.push("evm.deployedBytecode".to_owned());
        outputs.push("evm.methodIdentifiers".to_owned());
        assert(text::contents(outputs@) =~= default_selection()["*"@]["*"@]);
        let mut file: FileOutputSelection = OrdMap::new();
        file.insert("*".to_owned(), outputs);
        assert(file_selection(file) =~= default_selection()["*"@]);
        let mut files: OrdMap<String, FileOutputSelection> = OrdMap::new();
        files.insert("*".to_owned(), file);
        let selection = OutputSelection(files);
        assert(selection@ =~= default_selection());
        selection
    }

    /// Takes the selection for all files out, for [`OutputSelection::put_all_files`] to put back.
    fn take_all_files(&mut self) -> (file: FileOutputSelection)
        ensures
            file_selection(file) == all_files(old(self)@),
            final(self)@ == old(self)@.remove("*"@),
    {
        let taken = self.0.remove(&"*".to_owned());
        assert(self@ =~= old(self)@.remove("*"@));
        match taken {
            Some(file) => file,
            None => {
                let file: FileOutputSelection = OrdMap::new();
                assert(file_selection(file) =~= Map::empty());
                file
            },
        }
    }

    /// Sets the selection for all files.
    fn put_all_files(&mut self, file: FileOutputSelection)
        ensures
            final(self)@ == old(self)@.insert("*"@, file_selection(file)),
    {
        self.0.insert("*".to_owned(), file);
        assert(self@ =~= old(self)@.insert("*"@, file_selection(file)));
    }

    /// Sets the outputs of a contract for all files.
    fn select(&mut self, contract: String, outputs: Vec<String>)
        ensures
            final(self)@ == selecting(old(self)@, contract@, text::contents(outputs@)),
    {
        let mut file = self.take_all_files();
        let ghost before = file_selection(file);
        file.insert(contract, outputs);
        assert(file_selection(file) =~= before.insert(contract@, text::contents(outputs@)));
        self.put_all_files(file);
        assert(self@ =~= selecting(old(self)@, contract@, text::contents(outputs@)));
    }

    /// Adds an output of a contract for all files, unless it is there.
    fn add_output(&mut self, contract: String, output: String)
        ensures
            final(self)@ == adding(old(self)@, contract@, output@),
    {
        let mut file = self.take_all_files();
        let ghost before = file_selection(file);
        let taken = file.remove(&contract);
        let mut outputs = match taken {
            Some(outputs) => outputs,
            None => Vec::new(),
        };
        let ghost previous = text::contents(outputs@);
        assert(previous =~= outputs_of(old(self)@, contract@));
        if !contains_text(&outputs, output.as_str()) {
            outputs.push(output);
            assert(text::contents(outputs@) =~= previous.push(output@));
        }
        let ghost chosen = text::contents(outputs@);
        file.insert(contract, outputs);
        assert(file_selection(file) =~= before.insert(contract@, chosen));
        self.put_all_files(file);
        assert(self@ =~= adding(old(self)@, contract@, output@));
    }
}

/// A mapping of an import prefix to the place that it stands for.
#[derive(Clone, Debug, PartialEq, Eq)]
pub struct Remapping {
    pub name: String,
    pub path: String,
}

/// Tuning options for the Yul optimizer.
#[derive(Clone, Debug, PartialEq, Eq, Default)]
pub struct YulDetails {
    /// Improve allocation of stack slots for variables, can free up stack slots early.
    /// Activated by default if the Yul optimizer is activated.
    pub stack_allocation: Option<bool>,
    /// Select optimization steps to be applied.
    /// Optional, the optimizer will use the default sequence if omitted.
    pub optimizer_steps: Option<String>,
}

/// Optimizer components, each switched on or off.
#[derive(Clone, Debug, PartialEq, Eq, Default)]
pub struct OptimizerDetails {
    /// The peephole optimizer is always on if no details are given,
    /// use details to switch it off.
    pub peephole: Option<bool>,
    /// The inliner is always on if no details are given,
    /// use details to switch it off.
    pub inliner: Option<bool>,
    /// The unused jumpdest remover is always on if no details are given,
    /// use details to switch it off.
    pub jumpdest_remover: Option<bool>,
    /// Sometimes re-orders literals in commutative operations.
    pub order_literals: Option<bool>,
    /// Removes duplicate code blocks
    pub deduplicate: Option<bool>,
    /// Common subexpression elimination, this is the most complicated step but
    /// can also provide the largest gain.
    pub cse: Option<bool>,
    /// Optimize representation of literal numbers and strings in code.
    pub constant_optimizer: Option<bool>,
    /// The new Yul optimizer. Mostly operates on the code of ABI coder v2
    /// and inline assembly.
    /// It is activated together with the global optimizer setting
    /// and can be deactivated here.
    /// Before Solidity 0.6.0 it had to be activated through this switch.
    pub yul: Option<bool>,
    /// Tuning options for the Yul optimizer.
    pub yul_details: Option<YulDetails>,
}

/// Settings of the optimizer.
#[derive(Clone, Debug, PartialEq, Eq)]
pub struct Optimizer {
    pub enabled: Option<bool>,
    pub runs: Option<usize>,
    /// Switch optimizer components on or off in detail.
    /// The "enabled" switch above provides two defaults which can be
    /// tweaked here. If "details" is given, "enabled" can be omitted.
    pub details: Option<OptimizerDetails>,
}

impl Optimizer {
    /// Sets for how many runs the optimizer optimizes.
    pub fn runs(&mut self, runs: usize)
        ensures
            *final(self) == (Optimizer { runs: Some(runs), ..*old(self) }),
    {
        self.runs = Some(runs);
    }

    /// Says nothing of whether the optimizer is enabled.
    pub fn disable(&mut self)
        ensures
            *final(self) == (Optimizer { enabled: None, ..*old(self) }),
    {
        self.enabled.take();
    }

    /// Enables the optimizer.
    pub fn enable(&mut self)
        ensures
            *final(self) == (Optimizer { enabled: Some(true), ..*old(self) }),
    {
        self.enabled = Some(true);
    }

    /// The default: not enabled, two hundred runs, no details.
    pub open spec fn standard() -> Optimizer {
        Optimizer { enabled: Some(false), runs: Some(200), details: None }
    }
}

impl Default for Optimizer {
    fn default() -> (optimizer: Self)
        ensures
            optimizer == Optimizer::standard(),
    {
        Optimizer { enabled: Some(false), runs: Some(200), details: None }
    }
}

/// Settings of the metadata that the compiler emits.
#[derive(Clone, Debug, PartialEq, Eq)]
pub struct SettingsMetadata {
    /// Use only literal content and not URLs (false by default)
    pub use_literal_content: Option<bool>,
    /// Use the given hash method for the metadata hash that is appended to the bytecode.
    /// The metadata hash can be removed from the bytecode via option "none".
    /// The other options are "ipfs" and "bzzr1".
    /// If the option is omitted, "ipfs" is used by default.
    pub bytecode_hash: Option<String>,
}

/// Settings of a compilation.
#[derive(Clone, Debug, PartialEq, Eq)]
pub struct Settings {
    /// Stop compilation after the given stage.
    /// since 0.8.11: only "parsing" is valid here
    pub stop_after: Option<String>,
    pub remappings: Vec<Remapping>,
    pub optimizer: Optimizer,
    /// Metadata settings
    pub metadata: Option<SettingsMetadata>,
    /// This field can be used to select desired outputs based
    /// on file and contract names.
    /// If this field is omitted, then the compiler loads and does type
    /// checking, but will not generate any outputs apart from errors.
    pub output_selection: OutputSelection,
    pub evm_version: Option<EvmVersion>,
    /// Change compilation pipeline to go through the Yul intermediate representation. This is
    /// false by default.
    pub via_ir: Option<bool>,
    pub libraries: OrdMap<String, OrdMap<String, String>>,
}

impl Settings {
    /// Whether all but the output selection is as by default.
    pub open spec fn standard_but_selection(self) -> bool {
        &&& self.stop_after is None
        &&& self.remappings@.len() == 0
        &&& self.optimizer == Optimizer::standard()
        &&& self.metadata is None
        &&& self.evm_version == Some(EvmVersion::London)
        &&& self.via_ir is None
        &&& self.libraries@.len() == 0
    }

    /// Whether the settings are the default ones: the default output selection with the ast added
    /// to it, and the latest EVM version.
    pub open spec fn is_standard(self) -> bool {
        &&& self.standard_but_selection()
        &&& self.output_selection@ == selecting(default_selection(), ""@, seq!["ast"@])
    }

    /// Creates new settings with the given output selection and all else as by default.
    pub fn new(output_selection: OutputSelection) -> (settings: Self)
        ensures
            settings.standard_but_selection(),
            settings.output_selection == output_selection,
    {
        Settings {
            stop_after: None,
            remappings: Vec::new(),
            optimizer: Optimizer::default(),
            metadata: None,
            output_selection,
            evm_version: Some(EvmVersion::default()),
            via_ir: None,
            libraries: OrdMap::new(),
        }
    }

    /// Adds outputs for all files and contracts.
    pub fn push_all(&mut self, settings: Vec<String>)
        ensures
            final(self).output_selection@ == adding_all(
                old(self).output_selection@,
                "*"@,
                text::contents(settings@),
            ),
            *final(self) == (Settings {
                output_selection: final(self).output_selection,
                ..*old(self)
            }),
    {
        let ghost outputs = text::contents(settings@);
        assert(outputs.take(0) =~= Seq::empty());
        for value in it: settings
            invariant
                it.seq() == settings@,
                outputs == text::contents(settings@),
                self.output_selection@ == adding_all(
                    old(self).output_selection@,
                    "*"@,
                    outputs.take(it.index() as int),
                ),
                *self == (Settings { output_selection: self.output_selection, ..*old(self) }),
        {
            proof {
                let more = outputs.take(it.index() + 1);
                assert(more.drop_last() =~= outputs.take(it.index() as int));
                assert(more.last() == value@);
            }
            self.push_output_selection(value);
        }
        assert(outputs.take(outputs.len() as int) =~= outputs);
    }

    /// Adds outputs for all files and contracts.
    #[must_use]
    pub fn with_extra_output(self, settings: Vec<String>) -> (extended: Self)
        ensures
            extended.output_selection@ == adding_all(
                self.output_selection@,
                "*"@,
                text::contents(settings@),
            ),
            extended == (Settings { output_selection: extended.output_selection, ..self }),
    {
        let mut extended = self;
        extended.push_all(settings);
        extended
    }

    /// Adds an output for all files and contracts.
    pub fn push_output_selection(&mut self, value: String)
        ensures
            final(self).output_selection@ == adding(old(self).output_selection@, "*"@, value@),
            *final(self) == (Settings {
                output_selection: final(self).output_selection,
                ..*old(self)
            }),
    {
        self.push_contract_output_selection("*".to_owned(), value)
    }

    /// Adds an output of the contracts of that name to the `output_selection` for all files.
    ///
    /// If there are outputs for the name already, then the value is added to the existing list,
    /// unless it is in it.
    pub fn push_contract_output_selection(&mut self, contracts: String, value: String)
        ensures
            final(self).output_selection@ == adding(
                old(self).output_selection@,
                contracts@,
                value@,
            ),
            *final(self) == (Settings {
                output_selection: final(self).output_selection,
                ..*old(self)
            }),
    {
        self.output_selection.add_output(contracts, value);
    }

    /// Sets the outputs for all files and contracts.
    pub fn set_output_selection(&mut self, values: Vec<String>)
        ensures
            final(self).output_selection@ == selecting(
                old(self).output_selection@,
                "*"@,
                text::contents(values@),
            ),
            *final(self) == (Settings {
                output_selection: final(self).output_selection,
                ..*old(self)
            }),
    {
        self.set_contract_output_selection("*".to_owned(), values)
    }

    /// Sets the outputs of the contracts of that name for all files.
    ///
    /// This will replace the existing values for `key` if they're present.
    pub fn set_contract_output_selection(&mut self, key: String, values: Vec<String>)
        ensures
            final(self).output_selection@ == selecting(
                old(self).output_selection@,
                key@,
                text::contents(values@),
            ),
            *final(self) == (Settings {
                output_selection: final(self).output_selection,
                ..*old(self)
            }),
    {
        self.output_selection.select(key, values);
    }

    /// Sets the `viaIR` value.
    #[must_use]
    pub fn set_via_ir(self, via_ir: bool) -> (changed: Self)
        ensures
            changed == (Settings { via_ir: Some(via_ir), ..self }),
    {
        let mut changed = self;
        changed.via_ir = Some(via_ir);
        changed
    }

    /// Enables `viaIR`.
    #[must_use]
    pub fn with_via_ir(self) -> (changed: Self)
        ensures
            changed == (Settings { via_ir: Some(true), ..self }),
    {
        self.set_via_ir(true)
    }

    /// Adds `ast` to the output of all files.
    #[must_use]
    pub fn with_ast(self) -> (changed: Self)
        ensures
            changed.output_selection@ == selecting(self.output_selection@, ""@, seq!["ast"@]),
            changed == (Settings { output_selection: changed.output_selection, ..self }),
    {
        let mut changed = self;
        let mut outputs: Vec<String> = Vec::new();
        outputs.push("ast".to_owned());
        assert(text::contents(outputs@) =~= seq!["ast"@]);
        changed.output_selection.select("".to_owned(), outputs);
        changed
    }
}

impl Default for Settings {
    fn default() -> (settings: Self)
        ensures
            settings.is_standard(),
    {
        Settings::new(OutputSelection::default_output_selection()).with_ast()
    }
}

/// What is set for a contract is what is selected for it.
pub proof fn lemma_selecting(
    selection: Selection,
    contract: Seq<char>,
    outputs: Seq<Seq<char>>,
    other: Seq<char>,
)
    ensures
        outputs_of(selecting(selection, contract, outputs), contract) == outputs,
        other != contract ==> outputs_of(selecting(selection, contract, outputs), other)
            == outputs_of(selection, other),
{
}

/// Of two settings for a contract the later one counts.
pub proof fn lemma_selecting_twice(
    selection: Selection,
    contract: Seq<char>,
    first: Seq<Seq<char>>,
    second: Seq<Seq<char>>,
)
    ensures
        selecting(selecting(selection, contract, first), contract, second) == selecting(
            selection,
            contract,
            second,
        ),
{
    assert(all_files(selecting(selection, contract, first)).insert(contract, second) =~= all_files(
        selection,
    ).insert(contract, second));
    assert(selecting(selecting(selection, contract, first), contract, second) =~= selecting(
        selection,
        contract,
        second,
    ));
}

/// An output that is added is selected, after all that was selected before.
pub proof fn lemma_adding(selection: Selection, contract: Seq<char>, output: Seq<char>)
    ensures
        outputs_of(adding(selection, contract, output), contract).contains(output),
        outputs_of(selection, contract).is_prefix_of(
            outputs_of(adding(selection, contract, output), contract),
        ),
{
    let before = outputs_of(selection, contract);
    let after = outputs_of(adding(selection, contract, output), contract);
    if !before.contains(output) {
        assert(after[after.len() - 1] == output);
    }
}

/// Adding an output for some contracts leaves other contracts and single files as they are.
pub proof fn lemma_adding_leaves_others(
    selection: Selection,
    contract: Seq<char>,
    output: Seq<char>,
    other: Seq<char>,
    file: Seq<char>,
)
    requires
        other != contract,
        file != "*"@,
    ensures
        outputs_of(adding(selection, contract, output), other) == outputs_of(selection, other),
        adding(selection, contract, output).contains_key(file) == selection.contains_key(file),
        selection.contains_key(file) ==> adding(selection, contract, output)[file]
            == selection[file],
{
}

/// An output that is selected already can be added any number of times more.
pub proof fn lemma_adding_twice(selection: Selection, contract: Seq<char>, output: Seq<char>)
    ensures
        adding(adding(selection, contract, output), contract, output) == adding(
            selection,
            contract,
            output,
        ),
{
    lemma_adding(selection, contract, output);
    lemma_selecting_twice(
        selection,
        contract,
        outputs_of(adding(selection, contract, output), contract),
        outputs_of(adding(selection, contract, output), contract),
    );
}

/// Adding outputs selects none twice.
pub proof fn lemma_adding_all_no_duplicates(
    selection: Selection,
    contract: Seq<char>,
    outputs: Seq<Seq<char>>,
)
    requires
        outputs_of(selection, contract).no_duplicates(),
    ensures
        outputs_of(adding_all(selection, contract, outputs), contract).no_duplicates(),
    decreases outputs.len(),
{
    if outputs.len() > 0 {
        lemma_adding_all_no_duplicates(selection, contract, outputs.drop_last());
    }
}

/// All outputs that are added are selected.
pub proof fn lemma_adding_all(
    selection: Selection,
    contract: Seq<char>,
    outputs: Seq<Seq<char>>,
    output: Seq<char>,
)
    ensures
        outputs_of(adding_all(selection, contract, outputs), contract).contains(output) <==> (
        outputs_of(selection, contract).contains(output) || outputs.contains(output)),
    decreases outputs.len(),
{
    if outputs.len() > 0 {
        let init = outputs.drop_last();
        let before = outputs_of(adding_all(selection, contract, init), contract);
        let after = outputs_of(adding_all(selection, contract, outputs), contract);
        lemma_adding_all(selection, contract, init, output);
        assert(outputs =~= init.push(outputs.last()));
        assert(outputs.contains(output) <==> init.contains(output) || outputs.last() == output) by {
            if outputs.contains(output) && outputs.last() != output {
                let i = choose|i: int| 0 <= i < outputs.len() && outputs[i] == output;
                assert(init[i] == output);
            }
            if init.contains(output) {
                let i = choose|i: int| 0 <= i < init.len() && init[i] == output;
                assert(outputs[i] == output);
            }
            assert(outputs[outputs.len() - 1] == outputs.last());
        }
        assert(after.contains(output) <==> before.contains(output) || outputs.last() == output) by {
            if !before.contains(outputs.last()) {
                assert(after == before.push(outputs.last()));
                assert(after[after.len() - 1] == outputs.last());
                if before.contains(output) {
                    let i = choose|i: int| 0 <= i < before.len() && before[i] == output;
                    assert(after[i] == output);
                }
            }
        }
    }
}

/// Setting the outputs of a contract for all files changes nothing else: no other contract of
/// these, and no selection for single files.
pub proof fn lemma_selecting_one_entry(
    selection: Selection,
    contract: Seq<char>,
    outputs: Seq<Seq<char>>,
    file: Seq<char>,
    other: Seq<char>,
)
    ensures
        selecting(selection, contract, outputs).contains_key("*"@),
        selecting(selection, contract, outputs)["*"@].contains_key(contract),
        selecting(selection, contract, outputs)["*"@][contract] == outputs,
        file != "*"@ ==> selecting(selection, contract, outputs).contains_key(file)
            == selection.contains_key(file),
        file != "*"@ && selection.contains_key(file) ==> selecting(
            selection,
            contract,
            outputs,
        )[file] == selection[file],
        other != contract ==> selecting(selection, contract, outputs)["*"@].contains_key(other) == (
        selection.contains_key("*"@) && selection["*"@].contains_key(other)),
        other != contract && selection.contains_key("*"@) && selection["*"@].contains_key(other)
            ==> selecting(selection, contract, outputs)["*"@][other] == selection["*"@][other],
{
}

/// Adding an output of a contract for all files puts it behind those that there are, unless it is
/// among them, and changes nothing else.
pub proof fn lemma_adding_one_output(
    selection: Selection,
    contract: Seq<char>,
    output: Seq<char>,
    file: Seq<char>,
    other: Seq<char>,
)
    ensures
        adding(selection, contract, output).contains_key("*"@),
        adding(selection, contract, output)["*"@].contains_key(contract),
        selection.contains_key("*"@) && selection["*"@].contains_key(contract) ==> adding(
            selection,
            contract,
            output,
        )["*"@][contract] == (if selection["*"@][contract].contains(output) {
            selection["*"@][contract]
        } else {
            selection["*"@][contract].push(output)
        }),
        !(selection.contains_key("*"@) && selection["*"@].contains_key(contract)) ==> adding(
            selection,
            contract,
            output,
        )["*"@][contract] == seq![output],
        file != "*"@ ==> adding(selection, contract, output).contains_key(file)
            == selection.contains_key(file),
        file != "*"@ && selection.contains_key(file) ==> adding(selection, contract, output)[file]
            == selection[file],
        other != contract ==> adding(selection, contract, output)["*"@].contains_key(other) == (
        selection.contains_key("*"@) && selection["*"@].contains_key(other)),
        other != contract && selection.contains_key("*"@) && selection["*"@].contains_key(other)
            ==> adding(selection, contract, output)["*"@][other] == selection["*"@][other],
{
    assert(Seq::<Seq<char>>::empty().push(output) =~= seq![output]);
}

/// Adding no outputs changes nothing, and adding one more is adding it after the others.
pub proof fn lemma_adding_one_by_one(
    selection: Selection,
    contract: Seq<char>,
    outputs: Seq<Seq<char>>,
    output: Seq<char>,
)
    ensures
        adding_all(selection, contract, Seq::empty()) == selection,
        adding_all(selection, contract, outputs.push(output)) == adding(
            adding_all(selection, contract, outputs),
            contract,
            output,
        ),
{
    assert(outputs.push(output).drop_last() =~= outputs);
}

/// What a selection says of a file and a contract is what stands under them.
pub proof fn lemma_selection_as_it_stands(selection: OutputSelection, i: int, j: int)
    requires
        selection.0.well_formed(),
        0 <= i < selection.0@.len(),
        selection.0@[i].1.well_formed(),
        0 <= j < selection.0@[i].1@.len(),
    ensures
        selection@.contains_key(selection.0@[i].0@),
        selection@[selection.0@[i].0@].contains_key(selection.0@[i].1@[j].0@),
        selection@[selection.0@[i].0@][selection.0@[i].1@[j].0@].len()
            == selection.0@[i].1@[j].1@.len(),
        forall|n: int|
            0 <= n < selection.0@[i].1@[j].1@.len()
                ==> selection@[selection.0@[i].0@][selection.0@[i].1@[j].0@][n] == (
            #[trigger] selection.0@[i].1@[j].1@[n])@,
{
    crate::ord_map::lemma_entry(selection.0@, i);
    crate::ord_map::lemma_entry(selection.0@[i].1@, j);
}

/// A selection says nothing of a file that is not in it, nor of a contract that is not in the
/// file's.
pub proof fn lemma_selection_says_no_more(
    selection: OutputSelection,
    file: Seq<char>,
    contract: Seq<char>,
)
    ensures
        selection@.contains_key(file) ==> exists|i: int|
            0 <= i < selection.0@.len() && (#[trigger] selection.0@[i]).0@ == file,
        selection@.contains_key(file) && selection@[file].contains_key(contract) ==> exists|
            i: int,
            j: int,
        |
            #![trigger selection.0@[i].1@[j]]
            0 <= i < selection.0@.len() && selection.0@[i].0@ == file && 0 <= j
                < selection.0@[i].1@.len() && selection.0@[i].1@[j].0@ == contract,
{
    if selection@.contains_key(file) {
        let i = choose|i: int| crate::ord_map::entry_at(selection.0@, file, i);
        assert(selection.0@[i].0@ == file);
        if selection@[file].contains_key(contract) {
            let inner = selection.0@[i].1@;
            let j = choose|j: int| crate::ord_map::entry_at(inner, contract, j);
            assert(selection.0@[i].1@[j].0@ == contract);
        }
    }
}

/// New settings have nothing set but the output selection, an optimizer that is not enabled with
/// two hundred runs, and London.
pub proof fn lemma_new_settings(settings: Settings)
    requires
        settings.standard_but_selection(),
    ensures
        settings.stop_after is None,
        settings.remappings@.len() == 0,
        settings.optimizer.enabled == Some(false),
        settings.optimizer.runs == Some(200usize),
        settings.optimizer.details is None,
        settings.metadata is None,
        settings.evm_version == Some(EvmVersion::London),
        settings.via_ir is None,
        settings.libraries@.len() == 0,
{
}

/// By default four outputs are selected for all contracts and the ast for all files, and nothing
/// else.
pub proof fn lemma_default_settings(settings: Settings, file: Seq<char>, contract: Seq<char>)
    requires
        settings.is_standard(),
    ensures
        settings.standard_but_selection(),
        settings.output_selection@.contains_key(file) <==> file == "*"@,
        settings.output_selection@["*"@].contains_key(contract) <==> contract == "*"@ || contract
            == ""@,
        settings.output_selection@["*"@]["*"@] == seq![
            "abi"@,
            "evm.bytecode"@,
            "evm.deployedBytecode"@,
            "evm.methodIdentifiers"@,
        ],
        settings.output_selection@["*"@][""@] == seq!["ast"@],
{
    reveal_strlit("*");
    reveal_strlit("");
    assert("*"@.len() != ""@.len());
}

} // verus!
