//! Rules for deleting and rolling back knowledge nodes.
use crate::access::MemoryError;
use crate::context::{is_worker, MemoryContext};
use crate::model::{NodeDraft, WikiRevision};
use vstd::prelude::*;

verus! {

/// Only a person deletes nodes; background workers never do.
pub fn check_delete(context: &MemoryContext) -> (r: Result<(), MemoryError>)
    ensures
        r is Ok <==> !is_worker(context.context_id),
        r matches Err(e) ==> e is Access,
{
    if context.worker() {
        return Err(MemoryError::Access);
    }
    Ok(())
}

/// The draft that rolls node at `current_version` back to revision
/// `version`, chosen from its revisions (newest first): `Stale` when the
/// node moved on since the caller looked (`seen_version`), `Missing` when
/// there is no such revision. The draft restores the revision on top of
/// the current version.
pub fn rollback_draft(
    revisions: &Vec<WikiRevision>,
    version: i64,
    seen_version: i64,
    current_version: i64,
) -> (r: Result<NodeDraft, MemoryError>)
    ensures
        current_version != seen_version ==> r == Err::<NodeDraft, MemoryError>(MemoryError::Stale),
        current_version == seen_version ==> match r {
            Ok(d) => exists|k: int|
                0 <= k < revisions@.len() && (#[trigger] revisions@[k]).version == version
                    && (forall|m: int| 0 <= m < k ==> revisions@[m].version != version)
                    && d@ == (revisions@[k].draft@.0, revisions@[k].draft@.1, revisions@[k].draft@.2, revisions@[k].draft@.3, revisions@[k].draft@.4, Some(current_version), revisions@[k].draft@.6),
            Err(e) => e is Missing && forall|k: int| 0 <= k < revisions@.len() ==> (#[trigger] revisions@[k]).version != version,
        },
{
    if current_version != seen_version {
        return Err(MemoryError::Stale);
    }
    let mut k: usize = 0;
    while k < revisions.len()
        invariant
            k <= revisions.len(),
            current_version == seen_version,
            forall|m: int| 0 <= m < k ==> (#[trigger] revisions@[m]).version != version,
        decreases revisions.len() - k,
    {
        if revisions[k].version == version {
            let mut d = revisions[k].draft.duplicate();
            d.version = Some(current_version);
            return Ok(d);
        }
        k = k + 1;
    }
    Err(MemoryError::Missing)
}

} // verus!
