//! Compiled contracts.

use crate::abi;
use crate::abi::{check_interface, read_abi};
use crate::metadata::Metadata;
use crate::ord_map::OrdMap;
use vstd::prelude::*;

verus! {

/// A contract's interface together with the JSON value that it was read from.
///
/// The interface does not hold all that the value says, such as the components of nested structs.
/// The value is kept so that the interface can be written without loss.
#[derive(Clone, Debug, PartialEq, Default)]
pub struct LosslessAbi {
    /// The complete abi as json value
    pub abi_value: serde_json::Value,
    /// The deserialised version of `abi_value`
    pub abi: ethabi::Contract,
}

impl LosslessAbi {
    /// The lossless interface of a JSON value: what the value reads as, beside the value itself.
    /// There is none where the type of a parameter cannot be read.
    pub open spec fn read(value: serde_json::Value) -> Result<LosslessAbi, Seq<char>> {
        if !abi::is_readable(value) {
            Err("Invalid parameter type"@)
        } else {
            match abi::abi_of(value) {
                Ok(abi) => Ok(LosslessAbi { abi_value: value, abi }),
                Err(message) => Err(message),
            }
        }
    }

    /// What the interface is written as.
    pub open spec fn written(self) -> serde_json::Value {
        self.abi_value
    }

    /// Makes a lossless interface of a JSON value: what the value reads as, beside the value
    /// itself. A value with a parameter whose type cannot be read is refused.
    pub fn from_value(abi_value: serde_json::Value) -> (result: Result<Self, String>)
        ensures
            match result {
                Ok(lossless) => Self::read(abi_value) == Ok::<Self, Seq<char>>(lossless),
                Err(message) => Self::read(abi_value) == Err::<Self, Seq<char>>(message@),
            },
    {
        if !check_interface(&abi_value) {
            return Err("Invalid parameter type".to_owned());
        }
        let abi = read_abi(abi_value.clone());
        LosslessAbi::from_parts(abi_value, abi)
    }

    /// Puts a JSON value together with what reading it gave.
    pub fn from_parts(
        abi_value: serde_json::Value,
        abi: Result<ethabi::Contract, String>,
    ) -> (result: Result<Self, String>)
        ensures
            match abi {
                Ok(abi) => result == Ok::<Self, String>(LosslessAbi { abi_value, abi }),
                Err(message) => result == Err::<Self, String>(message),
            },
    {
        match abi {
            Ok(abi) => Ok(LosslessAbi { abi_value, abi }),
            Err(message) => Err(message),
        }
    }

    /// What the interface is written as: the value that it was read from.
    pub fn to_value(&self) -> (value: &serde_json::Value)
        ensures
            *value == self.written(),
    {
        &self.abi_value
    }
}

/// Reading loses nothing: an interface is written as the value that it was read from, and what it
/// is written as reads as the same interface again.
pub proof fn lemma_lossless(value: serde_json::Value, lossless: LosslessAbi)
    requires
        LosslessAbi::read(value) == Ok::<LosslessAbi, Seq<char>>(lossless),
    ensures
        lossless.written() == value,
        LosslessAbi::read(lossless.written()) == Ok::<LosslessAbi, Seq<char>>(lossless),
{
}

impl From<LosslessAbi> for ethabi::Contract {
    fn from(abi: LosslessAbi) -> (inner: Self) {
        abi.abi
    }
}

impl vstd::std_specs::convert::FromSpecImpl<LosslessAbi> for ethabi::Contract {
    open spec fn obeys_from_spec() -> bool {
        true
    }

    open spec fn from_spec(abi: LosslessAbi) -> Self {
        abi.abi
    }
}

/// A value whose parameters have types that can be given to the reader makes a lossless interface
/// just if it reads as an interface, and then it is that one.
pub proof fn lemma_read_as_interface(value: serde_json::Value)
    requires
        abi::is_readable(value),
    ensures
        match (LosslessAbi::read(value), abi::abi_of(value)) {
            (Ok(lossless), Ok(interface)) => lossless.abi == interface,
            (Err(message), Err(text)) => message == text,
            _ => false,
        },
{
}

/// Documentation for the users of a contract.
#[derive(Clone, Debug, Default, PartialEq, Eq)]
pub struct UserDoc {
    pub version: Option<u32>,
    pub kind: Option<String>,
    pub methods: OrdMap<String, OrdMap<String, String>>,
    pub notice: Option<String>,
}

/// Documentation for the developers of a contract.
#[derive(Clone, Debug, Default, PartialEq, Eq)]
pub struct DevDoc {
    pub version: Option<u32>,
    pub kind: Option<String>,
    pub author: Option<String>,
    pub details: Option<String>,
    pub custom_experimental: Option<String>,
    pub methods: OrdMap<String, MethodDoc>,
    pub title: Option<String>,
}

/// Documentation of a method.
#[derive(Clone, Debug, Default, PartialEq, Eq)]
pub struct MethodDoc {
    pub details: Option<String>,
    pub params: OrdMap<String, String>,
    /// What the method returns.
    pub returned: Option<String>,
}

/// Bytecode, or the text of one that still has to be linked.
#[derive(Clone, Debug, PartialEq, Eq)]
pub enum BytecodeObject {
    /// Fully linked bytecode.
    Bytecode(Vec<u8>),
    /// Bytecode as a hex string that contains library placeholders.
    Unlinked(String),
}

/// Byte offsets into the bytecode.
/// Linking replaces the 20 bytes located there.
#[derive(Clone, Debug, PartialEq, Eq)]
pub struct Offsets {
    pub start: u32,
    pub length: u32,
}

/// Debugging information of a function.
#[derive(Clone, Debug, PartialEq, Eq)]
pub struct FunctionDebugData {
    pub entry_point: Option<u32>,
    pub id: Option<u32>,
    pub parameter_slots: Option<u32>,
    pub return_slots: Option<u32>,
}

/// A source that the compiler generated.
#[derive(Clone, Debug, PartialEq, Eq)]
pub struct GeneratedSource {
    pub ast: serde_json::Value,
    pub contents: String,
    pub id: u32,
    pub language: String,
    pub name: String,
}

/// Bytecode with all that the compiler says of it.
#[derive(Clone, Debug, PartialEq, Eq)]
pub struct Bytecode {
    /// Debugging information at function level
    pub function_debug_data: OrdMap<String, FunctionDebugData>,
    /// The bytecode as a hex string.
    pub object: BytecodeObject,
    /// Opcodes list (string)
    pub opcodes: Option<String>,
    /// The source mapping as a string. See the source mapping definition.
    pub source_map: Option<String>,
    /// Array of sources generated by the compiler. Currently only contains a single Yul file.
    pub generated_sources: Vec<GeneratedSource>,
    /// If given, this is an unlinked object.
    pub link_references: OrdMap<String, OrdMap<String, Vec<Offsets>>>,
}

/// Bytecode with what is needed to link it and to map it to its source.
#[derive(Clone, Debug, PartialEq, Eq)]
pub struct CompactBytecode {
    pub object: BytecodeObject,
    pub source_map: Option<String>,
    pub link_references: OrdMap<String, OrdMap<String, Vec<Offsets>>>,
}

impl From<Bytecode> for CompactBytecode {
    fn from(code: Bytecode) -> (compact: Self) {
        CompactBytecode {
            object: code.object,
            source_map: code.source_map,
            link_references: code.link_references,
        }
    }
}

impl vstd::std_specs::convert::FromSpecImpl<Bytecode> for CompactBytecode {
    open spec fn obeys_from_spec() -> bool {
        true
    }

    open spec fn from_spec(code: Bytecode) -> Self {
        CompactBytecode {
            object: code.object,
            source_map: code.source_map,
            link_references: code.link_references,
        }
    }
}

/// Bytecode as it is on the chain.
#[derive(Clone, Debug, PartialEq, Eq)]
pub struct DeployedBytecode {
    pub bytecode: Option<Bytecode>,
    pub immutable_references: OrdMap<String, Vec<Offsets>>,
}

/// Bytecode as it is on the chain, in its compact form.
#[derive(Clone, Debug, PartialEq, Eq)]
pub struct CompactDeployedBytecode {
    pub bytecode: Option<CompactBytecode>,
    pub immutable_references: OrdMap<String, Vec<Offsets>>,
}

/// The compact form of bytecode that may be missing.
pub open spec fn compact_bytecode(code: Option<Bytecode>) -> Option<CompactBytecode> {
    match code {
        Some(code) => Some(
            <CompactBytecode as vstd::std_specs::convert::FromSpec<Bytecode>>::from_spec(code),
        ),
        None => None,
    }
}

impl From<DeployedBytecode> for CompactDeployedBytecode {
    fn from(code: DeployedBytecode) -> (compact: Self) {
        let bytecode = match code.bytecode {
            Some(bytecode) => Some(CompactBytecode::from(bytecode)),
            None => None,
        };
        CompactDeployedBytecode { bytecode, immutable_references: code.immutable_references }
    }
}

impl vstd::std_specs::convert::FromSpecImpl<DeployedBytecode> for CompactDeployedBytecode {
    open spec fn obeys_from_spec() -> bool {
        true
    }

    open spec fn from_spec(code: DeployedBytecode) -> Self {
        CompactDeployedBytecode {
            bytecode: compact_bytecode(code.bytecode),
            immutable_references: code.immutable_references,
        }
    }
}

/// The compact form of deployed bytecode that may be missing.
pub open spec fn compact_deployed(code: Option<DeployedBytecode>) -> Option<
    CompactDeployedBytecode,
> {
    match code {
        Some(code) => Some(
            <CompactDeployedBytecode as vstd::std_specs::convert::FromSpec<
                DeployedBytecode,
            >>::from_spec(code),
        ),
        None => None,
    }
}

/// Estimated costs of a contract.
#[derive(Clone, Debug, PartialEq, Eq)]
pub struct GasEstimates {
    pub creation: Creation,
    pub external: OrdMap<String, String>,
    pub internal: OrdMap<String, String>,
}

/// Estimated costs of creating a contract.
#[derive(Clone, Debug, PartialEq, Eq)]
pub struct Creation {
    pub code_deposit_cost: String,
    pub execution_cost: String,
    pub total_cost: String,
}

/// Outputs for the Ethereum virtual machine.
#[derive(Clone, Debug, PartialEq, Eq)]
pub struct Evm {
    pub assembly: Option<String>,
    pub legacy_assembly: Option<serde_json::Value>,
    pub bytecode: Option<Bytecode>,
    pub deployed_bytecode: Option<DeployedBytecode>,
    /// The list of function hashes
    pub method_identifiers: OrdMap<String, String>,
    /// Function gas estimates
    pub gas_estimates: Option<GasEstimates>,
}

/// Outputs for the Ethereum virtual machine with bytecode in its compact form.
#[derive(Clone, Debug, PartialEq, Eq)]
pub struct CompactEvm {
    pub assembly: Option<String>,
    pub legacy_assembly: Option<serde_json::Value>,
    pub bytecode: Option<CompactBytecode>,
    pub deployed_bytecode: Option<CompactDeployedBytecode>,
    /// The list of function hashes
    pub method_identifiers: OrdMap<String, String>,
    /// Function gas estimates
    pub gas_estimates: Option<GasEstimates>,
}

impl Evm {
    /// Transforms the underlying bytecode artifacts into a more convenient structure.
    pub fn into_compact(self) -> (compact: CompactEvm)
        ensures
            compact == (CompactEvm {
                assembly: self.assembly,
                legacy_assembly: self.legacy_assembly,
                bytecode: compact_bytecode(self.bytecode),
                deployed_bytecode: compact_deployed(self.deployed_bytecode),
                method_identifiers: self.method_identifiers,
                gas_estimates: self.gas_estimates,
            }),
    {
        let (bytecode, deployed_bytecode) = match (self.bytecode, self.deployed_bytecode) {
            (Some(bcode), Some(dbcode)) => (
                Some(CompactBytecode::from(bcode)),
                Some(CompactDeployedBytecode::from(dbcode)),
            ),
            (None, Some(dbcode)) => (None, Some(CompactDeployedBytecode::from(dbcode))),
            (Some(bcode), None) => (Some(CompactBytecode::from(bcode)), None),
            (None, None) => (None, None),
        };
        CompactEvm {
            assembly: self.assembly,
            legacy_assembly: self.legacy_assembly,
            bytecode,
            deployed_bytecode,
            method_identifiers: self.method_identifiers,
            gas_estimates: self.gas_estimates,
        }
    }
}

/// Outputs for Ewasm.
#[derive(Clone, Debug, PartialEq, Eq)]
pub struct Ewasm {
    pub wast: String,
    pub wasm: String,
}

/// How the variables of a contract are laid out in storage.
#[derive(Clone, Debug, Default, PartialEq, Eq)]
pub struct StorageLayout {
    pub storage: Vec<Storage>,
    pub types: OrdMap<String, StorageType>,
}

impl StorageLayout {
    /// Whether there are neither variables nor types.
    pub fn is_empty(&self) -> (b: bool)
        ensures
            b == (self.storage@.len() == 0 && self.types@.len() == 0),
    {
        self.storage.is_empty() && self.types.is_empty()
    }
}

/// A variable in storage.
#[derive(Clone, Debug, PartialEq, Eq)]
pub struct Storage {
    pub ast_id: u64,
    pub contract: String,
    pub label: String,
    pub offset: i64,
    pub slot: String,
    pub storage_type: String,
}

/// The type of a variable in storage.
#[derive(Clone, Debug, PartialEq, Eq)]
pub struct StorageType {
    pub encoding: String,
    pub label: String,
    pub number_of_bytes: String,
}

/// A compiled contract.
#[derive(Clone, Debug, PartialEq)]
pub struct CompiledContract {
    pub abi: Option<LosslessAbi>,
    pub metadata: Option<Metadata>,
    pub userdoc: UserDoc,
    pub devdoc: DevDoc,
    pub ir: Option<String>,
    pub storage_layout: StorageLayout,
    /// EVM-related outputs
    pub evm: Option<Evm>,
    /// Ewasm related outputs
    pub ewasm: Option<Ewasm>,
    pub ir_optimized: Option<String>,
}

/// A contract's interface, bytecode and runtime bytecode, borrowed from it.
#[derive(Copy, Clone, Debug, PartialEq)]
pub struct CompactContractRef<'a> {
    pub abi: Option<&'a ethabi::Contract>,
    pub bin: Option<&'a BytecodeObject>,
    pub bin_runtime: Option<&'a BytecodeObject>,
}

impl CompiledContract {
    /// The bytecode that creates the contract.
    pub open spec fn creation_code(&self) -> Option<&BytecodeObject> {
        match &self.evm {
            Some(evm) => match &evm.bytecode {
                Some(code) => Some(&code.object),
                None => None,
            },
            None => None,
        }
    }

    /// The bytecode of the deployed contract.
    pub open spec fn runtime_code(&self) -> Option<&BytecodeObject> {
        match &self.evm {
            Some(evm) => match &evm.deployed_bytecode {
                Some(deployed) => match &deployed.bytecode {
                    Some(code) => Some(&code.object),
                    None => None,
                },
                None => None,
            },
            None => None,
        }
    }

    /// The contract's interface.
    pub open spec fn interface(&self) -> Option<&ethabi::Contract> {
        match &self.abi {
            Some(abi) => Some(&abi.abi),
            None => None,
        }
    }
}

impl<'a> From<&'a CompiledContract> for CompactContractRef<'a> {
    fn from(contract: &'a CompiledContract) -> (compact: Self) {
        let (bin, bin_runtime) = match &contract.evm {
            Some(evm) => (
                match &evm.bytecode {
                    Some(code) => Some(&code.object),
                    None => None,
                },
                match &evm.deployed_bytecode {
                    Some(deployed) => match &deployed.bytecode {
                        Some(code) => Some(&code.object),
                        None => None,
                    },
                    None => None,
                },
            ),
            None => (None, None),
        };
        let abi = match &contract.abi {
            Some(abi) => Some(&abi.abi),
            None => None,
        };
        CompactContractRef { abi, bin, bin_runtime }
    }
}

impl<'a> vstd::std_specs::convert::FromSpecImpl<&'a CompiledContract> for CompactContractRef<'a> {
    open spec fn obeys_from_spec() -> bool {
        true
    }

    open spec fn from_spec(contract: &'a CompiledContract) -> Self {
        CompactContractRef {
            abi: contract.interface(),
            bin: contract.creation_code(),
            bin_runtime: contract.runtime_code(),
        }
    }
}

/// What is borrowed from a contract that may be missing.
pub open spec fn compact_ref(contract: Option<CompiledContract>) -> Option<
    CompactContractRef<'static>,
> {
    match contract {
        Some(contract) => Some(
            <CompactContractRef<'static> as vstd::std_specs::convert::FromSpec<
                &'static CompiledContract,
            >>::from_spec(&contract),
        ),
        None => None,
    }
}

/// What is handed out of a contract is its own interface, the bytecode that creates it and the
/// bytecode that is deployed, each where the contract has it, and nothing where there is no
/// contract.
pub proof fn lemma_handed_out(contract: CompiledContract)
    ensures
        compact_ref(None) is None,
        compact_ref(Some(contract)) matches Some(parts) && {
            &&& match contract.abi {
                Some(lossless) => parts.abi == Some(&lossless.abi),
                None => parts.abi is None,
            }
            &&& match contract.evm {
                Some(evm) => {
                    &&& match evm.bytecode {
                        Some(code) => parts.bin == Some(&code.object),
                        None => parts.bin is None,
                    }
                    &&& match evm.deployed_bytecode {
                        Some(deployed) => match deployed.bytecode {
                            Some(code) => parts.bin_runtime == Some(&code.object),
                            None => parts.bin_runtime is None,
                        },
                        None => parts.bin_runtime is None,
                    }
                },
                None => parts.bin is None && parts.bin_runtime is None,
            }
        },
{
}

/// Making bytecode compact leaves its object, source map and links as they are, and those of
/// deployed bytecode with its immutable references. What is missing stays missing.
pub proof fn lemma_compact_keeps(code: Bytecode, deployed: DeployedBytecode)
    ensures
        compact_bytecode(None) is None,
        compact_deployed(None) is None,
        compact_bytecode(Some(code)) matches Some(compact) && compact.object == code.object
            && compact.source_map == code.source_map && compact.link_references
            == code.link_references,
        compact_deployed(Some(deployed)) matches Some(compact) && compact.immutable_references
            == deployed.immutable_references && match (deployed.bytecode, compact.bytecode) {
            (Some(code), Some(kept)) => kept.object == code.object && kept.source_map
                == code.source_map && kept.link_references == code.link_references,
            (None, None) => true,
            _ => false,
        },
{
}

/// A lossless interface is turned into the interface that was read.
pub proof fn lemma_interface_of_lossless(lossless: LosslessAbi)
    ensures
        <ethabi::Contract as vstd::std_specs::convert::FromSpec<LosslessAbi>>::from_spec(lossless)
            == lossless.abi,
{
}

} // verus!
