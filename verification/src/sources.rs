//! Identities of record sources and the full-replacement snapshots they
//! publish.

use vstd::prelude::*;
use crate::dns::RecordSet;

verus! {

/// Stable identity of one configured record-producing collaborator.
#[derive(PartialEq, Eq, Structural, Clone, Copy, Debug, Hash)]
pub struct SourceId {
    pub id: u64,
}

impl SourceId {
    pub fn new(id: u64) -> (r: SourceId)
        ensures
            r.id == id,
    {
        SourceId { id }
    }
}

/// A full, self-contained snapshot of everything one source currently
/// claims to know; never a delta.
pub struct SourceRecords {
    pub source_id: SourceId,
    pub records: RecordSet,
}

impl SourceRecords {
    pub fn new(source_id: SourceId, records: RecordSet) -> (r: SourceRecords)
        ensures
            r.source_id == source_id,
            r.records@ == records@,
    {
        SourceRecords { source_id, records }
    }
}

} // verus!
