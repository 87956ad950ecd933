//! Symbolic variable storage and dereferencing.
//!
//! Structured input is turned into named `$VAR` references and kept in a
//! variable store; references in text are later replaced by the values.

pub mod deref;
pub mod json;
pub mod naming;
pub mod store;
pub mod table;
pub mod text;
pub mod types;

pub use store::store;
pub use types::{StoreOutput, VarRef, VarStore};
