//! The store's table types and the result of a store.

use vstd::prelude::*;
use std::path::PathBuf;
use crate::json::JsonValue;
use crate::table::NameMap;

verus! {

#[verifier::external_type_specification]
#[verifier::external_body]
pub struct ExPathBuf(PathBuf);

/// The variable store: `$VAR` names and their JSON values.
pub type VarStore = NameMap<JsonValue>;

/// A reference entry in the result of a store: the summary shown for the
/// stored value and the `$VAR` name that refers to it.
#[derive(Debug)]
pub struct VarRef {
    pub summary: String,
    pub var_ref: String,
}

/// The model of a reference entry.
pub struct RefView {
    pub summary: Seq<char>,
    pub var_ref: Seq<char>,
}

impl View for VarRef {
    type V = RefView;

    open spec fn view(&self) -> RefView {
        RefView { summary: self.summary@, var_ref: self.var_ref@ }
    }
}

/// The result of a store: the new references, by name, and the path of the
/// store file.
pub struct StoreOutput {
    pub refs: NameMap<VarRef>,
    pub store_path: PathBuf,
}

} // verus!
