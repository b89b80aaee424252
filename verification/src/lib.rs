//! Library around the Solidity compiler: it decodes contract ABI JSON,
//! parses the compiler's captured text output into typed contract
//! artifacts, and serializes those artifacts as JSON documents.

pub mod abi;
pub mod config;
pub mod contract;
pub mod json;
pub mod solc;
pub mod text;
