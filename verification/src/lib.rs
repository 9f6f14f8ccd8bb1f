//! A memory scanner's core: little-endian value encoding, pattern search over
//! memory snapshots, candidate narrowing, pin bookkeeping and the decisions of
//! the scanning worker, each proved against its contract.

pub mod app;
pub mod memory;
pub mod process;
pub mod scanner;
pub mod text;
pub mod types;
pub mod worker;
