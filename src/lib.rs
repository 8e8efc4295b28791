//! A per-repository registry that maps workspace names to the absolute paths
//! of their working copies, with the record format it stores and the
//! decisions of the commands that consult and change it.
//!
//! - `varint`: base-128 integers of the record format.
//! - `codec`: the workspace record and its field-tagged encoding.
//! - `store`: the on-disk registry's file names and file contents.
//! - `memory`: the registry held in memory.
//! - `commands`: what `workspace forget` and `workspace root` decide.

pub mod varint;
pub mod codec;
pub mod store;
pub mod commands;
pub mod memory;
