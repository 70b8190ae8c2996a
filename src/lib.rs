//! A storage-agnostic SQL execution core: commands, row evaluators, a storage
//! contract and the executor that joins them.

pub mod value;
pub mod data;
pub mod translate;
pub mod store;
pub mod execute;
pub mod memory;
pub mod laws;
