//! A command-line option registry and parser.
//!
//! Callers register named options with default values and an arity, receive a
//! handle to each option's storage, then invoke a single parse step over the
//! token list.  Parsing matches key tokens against the registry and feeds the
//! following value tokens into the matched option's cells.
//!
//! Option storage is an arena of string cells owned by the registry.  A value
//! (scalar or sequence) is a set of indices into that arena, so two handles
//! that share a cell index observe each other's writes, and a clone of a
//! sequence value is a fresh container over the same cells.

pub mod laws;
pub mod model;
pub mod numeric;
pub mod registry;

pub use registry::Flag;
pub use registry::ItemValue;
pub use registry::ParseOutcome;
pub use registry::ToItem;
pub use registry::Value;
