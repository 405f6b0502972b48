//! Build-time derivation of record-type partitions.
//!
//! Given a record schema whose fields carry optional partition tags, the
//! library validates the schema, computes for every declared partition the
//! ordered list of member fields and its complement, and emits a pair of
//! record-type definitions (projection and complement) per partition.

pub mod emit;
pub mod engine;
pub mod interfaces;
pub mod laws;
pub mod schema;
pub mod text;
