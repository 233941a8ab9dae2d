//! Types that the Solidity compiler takes and gives: its standard input with the settings of a
//! compilation, and its output with messages and compiled contracts.

pub mod abi;
pub mod abi_type;
pub mod contract;
pub mod contracts;
pub mod error;
pub mod evm_version;
pub mod input;
pub mod keep;
pub mod metadata;
pub mod opaque;
pub mod ord_map;
pub mod order;
pub mod output;
pub mod path;
pub mod settings;
pub mod source;
pub mod text;
pub mod version;
