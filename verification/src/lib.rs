//! Verified core of the Hanzo node libraries: retrieval and text helpers of
//! the brain, wallet addresses, the machine backends' wire handling, and the
//! VM's precompile registry and calldata decoding.

pub mod text;
pub mod base58;
pub mod address;
pub mod numtext;
pub mod machine;
pub mod sidecar;
pub mod script;
pub mod tokens;
pub mod query;
pub mod range;
pub mod temporal;
pub mod embed;
pub mod config;
pub mod dedup;
pub mod evm;
pub mod precompiles;
pub mod api;
pub mod captions;
pub mod eval;
