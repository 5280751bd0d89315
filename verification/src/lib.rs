//! Builds the symbol-resolution dependency graph of a set of binary files:
//! each file defines some symbols and requires others, and every satisfied
//! requirement becomes a directed edge from the consumer file to a provider
//! file. Names are first sanitized into canonical identifiers, interned into
//! small integer ids, and the finished graph is rendered in the DOT textual
//! graph format.

pub mod dot;
pub mod graph;
pub mod index;
pub mod laws;
pub mod sanitize;
pub mod table;

pub use graph::{Graph, NodeProperties, SubGraph, SymbolRecord};
pub use sanitize::mangle_as_valid_dot_name;
pub use table::StringTable;
