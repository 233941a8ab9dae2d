//! Contract metadata that the compiler emits, see
//! <https://docs.soliditylang.org/en/latest/metadata.html>.

use crate::ord_map::OrdMap;
use crate::settings::Settings;
use vstd::prelude::*;

verus! {

/// The metadata of a contract.
#[derive(Clone, Debug, PartialEq, Eq)]
pub struct Metadata {
    pub compiler: Compiler,
    pub language: String,
    pub output: Output,
    pub settings: MetadataSettings,
    pub sources: MetadataSources,
    pub version: i64,
}

/// Compiler settings
#[derive(Debug, Clone, PartialEq, Eq)]
pub struct MetadataSettings {
    /// Required for Solidity: File and name of the contract or library this metadata is created
    /// for.
    pub compilation_target: OrdMap<String, String>,
    pub inner: Settings,
}

/// Compilation source files/source units, keys are file names
#[derive(Clone, Debug, PartialEq, Eq)]
pub struct MetadataSources {
    pub inner: OrdMap<String, MetadataSource>,
}

/// A source file that a contract was compiled from.
#[derive(Debug, Clone, PartialEq, Eq)]
pub struct MetadataSource {
    /// Required: keccak256 hash of the source file
    pub keccak256: String,
    /// Required (unless "content" is used, see below): Sorted URL(s)
    /// to the source file, protocol is more or less arbitrary, but a
    /// Swarm URL is recommended
    pub urls: Vec<String>,
    /// Required (unless "url" is used): literal contents of the source file
    pub content: Option<String>,
    /// Optional: SPDX license identifier as given in the source file
    pub license: Option<String>,
}

/// The compiler that a contract was compiled with.
#[derive(Clone, Debug, PartialEq, Eq)]
pub struct Compiler {
    pub version: String,
}

/// What the compiler found out about a contract.
#[derive(Clone, Debug, PartialEq, Eq)]
pub struct Output {
    pub abi: Vec<SolcAbi>,
    pub devdoc: Option<Doc>,
    pub userdoc: Option<Doc>,
}

/// One entry of a contract's interface.
#[derive(Clone, Debug, PartialEq, Eq)]
pub struct SolcAbi {
    pub inputs: Vec<Item>,
    pub state_mutability: Option<String>,
    pub abi_type: String,
    pub name: Option<String>,
    pub outputs: Vec<Item>,
}

/// A parameter or result.
#[derive(Clone, Debug, PartialEq, Eq)]
pub struct Item {
    pub internal_type: String,
    pub name: String,
    pub put_type: String,
}

/// Documentation of a contract.
#[derive(Clone, Debug, PartialEq, Eq)]
pub struct Doc {
    pub kind: Option<String>,
    pub methods: Option<Libraries>,
    pub version: Option<u32>,
}

/// Values by name.
#[derive(Clone, Debug, PartialEq, Eq, Default)]
pub struct Libraries {
    pub libs: OrdMap<String, serde_json::Value>,
}

} // verus!
