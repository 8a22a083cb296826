//! The local store of raw symbol mappings.
use vstd::prelude::*;

use crate::symbolize::SymbolEntry;

verus! {

#[derive(Debug, Clone, PartialEq, Eq)]
pub struct VaultHandle {
    pub case_id: String,
    /// The symbol table recorded for the case.
    pub entries: Vec<SymbolEntry>,
}

#[derive(Debug, Clone, PartialEq, Eq)]
pub enum VaultError {
    NotYetImplemented,
}

impl VaultError {
    /// The message this error is reported with.
    pub fn message(&self) -> (s: &'static str)
        ensures
            s@ == "vault support is not implemented yet"@,
    {
        "vault support is not implemented yet"
    }
}

/// Vaults are not available yet: opening one always fails.
pub fn open(_case_id: &str) -> (r: Result<VaultHandle, VaultError>)
    ensures
        r == Err::<VaultHandle, VaultError>(VaultError::NotYetImplemented),
{
    Err(VaultError::NotYetImplemented)
}

} // verus!
