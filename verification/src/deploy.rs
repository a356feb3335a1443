//! The orchestrator's decisions: the working copy of the loaded store,
//! the persist-if-changed rule, and the summary handed back to the
//! caller. The surrounding binary sequences the I/O around them.
use vstd::prelude::*;
use crate::docfmt::{doc_of, serialize_store};
use crate::vars::VarStore;

verus! {

/// What one deployment did, for the caller's report.
pub struct Summary {
    /// The source root that was walked, as path bytes.
    pub source_root: Vec<u8>,
    /// The destination root that was written, as path bytes.
    pub dest_root: Vec<u8>,
    /// Whether the variable document was rewritten.
    pub vars_written: bool,
}

/// The persist-if-changed rule: the serialized document to write, or
/// nothing. The document is rewritten if and only if the entries changed
/// since they were loaded — on well-formed stores that is the same as
/// its content changing — so an unchanged run touches nothing on disk.
pub fn persist_payload(original: &VarStore, current: &VarStore) -> (r: Option<Vec<u8>>)
    ensures
        r is None <==> current@ == original@,
        r matches Some(d) ==> d@ == doc_of(current@),
        original.wf() && current.wf() ==> (r is None <==> doc_of(current@) == doc_of(
            original@,
        )),
{
    proof {
        if original.wf() && current.wf() && doc_of(current@) == doc_of(original@) {
            crate::docfmt::lemma_doc_injective(current@, original@);
        }
    }
    if current.same_entries(original) {
        None
    } else {
        Some(serialize_store(current))
    }
}

} // verus!
