//! Incremental snippet collection with a deduplicating embedding ledger.
//!
//! Source files are cut into chunks with reproducible identities
//! (`chunker`, `identity`, `locator`). A ledger records which chunks were
//! discovered and which are embedded (`ledger`, `codec`), and is checked
//! against the keys of the vector store (`store`). The orchestrator works
//! the new chunks off in batches and commits a batch only when the store
//! has it (`orchestrator`, `run_model`, `run_laws`). The report generator
//! turns the answers of a completion service into one row per unit
//! (`report`).
//!
//! The library decides and computes; reading files, calling services and
//! writing results is left to the caller.

pub mod chunker;
pub mod codec;
pub mod fields;
pub mod identity;
pub mod ledger;
pub mod locator;
pub mod orchestrator;
pub mod report;
pub mod run_laws;
pub mod run_model;
pub mod store;
pub mod text;
