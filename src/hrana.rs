//! Entries of a cursor over a remote batch, as the server reports them.
use vstd::prelude::*;

verus! {

/// The server's answer to opening a cursor.
pub struct CursorResp {
    pub baton: Option<String>,
    pub base_url: Option<String>,
}

/// Marks the end of one step of the batch.
pub struct StepEndEntry {
    pub affected_row_count: u32,
    pub last_inserted_rowid: Option<String>,
}

/// Reports that one step of the batch failed.
pub struct StepErrorEntry {
    pub step: u32,
    pub error: String,
}

/// Reports that the whole cursor failed.
pub struct ErrorEntry {
    pub error: String,
}

} // verus!
