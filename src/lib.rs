//! Line-level differences between two texts by Heckel's symbol-table method.
pub mod laws;
pub mod matcher;
pub mod model;
pub mod occurrences;
pub mod symbols;

pub use matcher::{heckel_diff, Edit, Symbol};
pub use occurrences::Occurrences;
pub use symbols::{hash_str, SymbolEntry, SymbolTable};
