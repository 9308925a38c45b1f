//! Who may see or share a stored secret.
use crate::access::MemoryError;
use crate::context::{is_worker, MemoryContext};
use crate::model::SecretSummary;
use crate::text::{byte_len, trim, trim_str};
use crate::validation::input_error;
use vstd::prelude::*;

verus! {

/// Revealing a secret needs a person (never a background worker) who owns
/// it or was granted the right to reveal it.
pub fn check_reveal(context: &MemoryContext, can_reveal: bool) -> (r: Result<(), MemoryError>)
    ensures
        r is Ok <==> !is_worker(context.context_id) && can_reveal,
        r matches Err(e) ==> e is Access,
{
    if context.worker() || !can_reveal {
        return Err(MemoryError::Access);
    }
    Ok(())
}

/// Checks who may share a secret; `member` tells whether the target
/// belongs to the secret's space (asked only once the rest is in order).
pub fn check_grant_target(context: &MemoryContext, can_manage: bool, target: &str) -> (r: Result<(), MemoryError>)
    ensures
        r is Ok <==> !is_worker(context.context_id) && can_manage && trim(target@).len() > 0 && byte_len(target@) <= 128,
        r matches Err(e) ==> (is_worker(context.context_id) || !can_manage) && e is Access || (!is_worker(context.context_id) && can_manage && input_error(e, "成员无效"@)),
{
    if context.worker() || !can_manage {
        return Err(MemoryError::Access);
    }
    if trim_str(target).unicode_len() == 0 || crate::text::byte_len_exceeds(&crate::text::chars_of(target), 128) {
        return Err(MemoryError::Input(String::from_str("成员无效")));
    }
    Ok(())
}

/// A grant goes only to a member of the secret's space.
pub fn check_grant_member(member: bool) -> (r: Result<(), MemoryError>)
    ensures
        r is Ok <==> member,
        r matches Err(e) ==> input_error(e, "目标用户不是当前空间成员"@),
{
    if !member {
        return Err(MemoryError::Input(String::from_str("目标用户不是当前空间成员")));
    }
    Ok(())
}

/// How a secret is listed to the caller: a worker may never reveal or
/// manage it.
pub fn secret_summary(
    context: &MemoryContext,
    id: String,
    label: String,
    source_id: String,
    can_reveal: bool,
    can_manage: bool,
) -> (r: SecretSummary)
    ensures
        r.id == id,
        r.label == label,
        r.source_id == source_id,
        r.can_reveal == (!is_worker(context.context_id) && can_reveal),
        r.can_manage == (!is_worker(context.context_id) && can_manage),
{
    let worker = context.worker();
    SecretSummary { id, label, source_id, can_reveal: !worker && can_reveal, can_manage: !worker && can_manage }
}

} // verus!
