//! The outcomes of storing and recalling memories.

use crate::db::MemoryRecord;
use crate::text;
use vstd::prelude::*;

verus! {

/// What is reported when something was stored.
pub struct StoreResult {
    pub status: String,
    pub key: String,
    pub project: String,
    pub embedded: bool,
}

/// What a search for memories found, and how it searched.
pub struct RecallResult {
    pub count: usize,
    pub search_mode: String,
    pub memories: Vec<MemoryRecord>,
}

/// Reports a stored memory. `embedded` tells whether it has an embedding.
pub fn memory_stored(key: String, project: String, embedded: bool) -> (r: StoreResult)
    ensures
        r.status@ == "stored"@,
        r.key == key,
        r.project == project,
        r.embedded == embedded,
{
    StoreResult { status: text::copy("stored"), key, project, embedded }
}

/// Reports a recorded decision.
pub fn decision_recorded(decision: String, project: String) -> (r: StoreResult)
    ensures
        r.status@ == "decision_recorded"@,
        r.key == decision,
        r.project == project,
        !r.embedded,
{
    StoreResult {
        status: text::copy("decision_recorded"),
        key: decision,
        project,
        embedded: false,
    }
}

/// How a search is done: by vectors and words where the query has an embedding, and by words
/// alone where not.
pub open spec fn mode_text(embedded: bool) -> Seq<char> {
    if embedded {
        "vector+bm25"@
    } else {
        "bm25"@
    }
}

/// Reports the memories that a search found.
pub fn memories_recalled(memories: Vec<MemoryRecord>, embedded: bool) -> (r: RecallResult)
    ensures
        r.count == memories@.len(),
        r.search_mode@ == mode_text(embedded),
        r.memories == memories,
{
    RecallResult {
        count: memories.len(),
        search_mode: text::copy(if embedded {
            "vector+bm25"
        } else {
            "bm25"
        }),
        memories,
    }
}

} // verus!
