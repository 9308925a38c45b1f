//! Revising a source's original text: who may, and how secrets whose value
//! did not change keep their identity and grants.
use crate::access::MemoryError;
use crate::context::{is_worker, MemoryContext};
use crate::isolate::{IsolatedSecret, Isolation};
use crate::model::SourceUpdate;
use crate::text::{byte_len, byte_len_exceeds, chars_of, replace_spec, string_of, trim};
use crate::validation::input_error;
use vstd::prelude::*;

verus! {

/// A revision is made by a person, with text that is not blank and at
/// most 100000 bytes, against a version from 1 on.
pub fn check_source_update(context: &MemoryContext, request: &SourceUpdate) -> (r: Result<(), MemoryError>)
    ensures
        is_worker(context.context_id) ==> (r matches Err(e) && e is Access),
        !is_worker(context.context_id) ==> (r is Ok <==> (trim(request.text@).len() > 0 && byte_len(request.text@) <= 100_000 && request.version >= 1)),
        !is_worker(context.context_id) ==> (r matches Err(e) ==> input_error(e, "正文不能为空且不能超过 100 KB"@)),
{
    if context.worker() {
        return Err(MemoryError::Access);
    }
    let blank = crate::text::trim_str(request.text.as_str()).unicode_len() == 0;
    if blank || byte_len_exceeds(&chars_of(request.text.as_str()), 100_000) || request.version < 1 {
        return Err(MemoryError::Input(String::from_str("正文不能为空且不能超过 100 KB")));
    }
    Ok(())
}

/// Only someone who may edit the source revises it, and only the version
/// they saw.
pub fn check_editable(can_edit: bool, current_version: i64, seen_version: i64) -> (r: Result<(), MemoryError>)
    ensures
        !can_edit ==> (r matches Err(e) && e is Access),
        can_edit ==> (r is Ok <==> current_version == seen_version),
        can_edit ==> (r matches Err(e) ==> e is Stale),
{
    if !can_edit {
        return Err(MemoryError::Access);
    }
    if current_version != seen_version {
        return Err(MemoryError::Stale);
    }
    Ok(())
}

pub open spec fn secret_view(s: IsolatedSecret) -> (Seq<char>, Seq<char>, Seq<char>) {
    (s.id@, s.label@, s.value@)
}

/// The first secret whose value has these bytes.
pub open spec fn first_with_value(s: Seq<IsolatedSecret>, value: Seq<u8>) -> Option<int>
    decreases s.len(),
{
    if s.len() == 0 {
        None
    } else {
        match first_with_value(s.drop_last(), value) {
            Some(k) => Some(k),
            None => if vstd::utf8::encode_utf8(s.last().value@) == value {
                Some(s.len() - 1)
            } else {
                None
            },
        }
    }
}

proof fn lemma_first_with_value(s: Seq<IsolatedSecret>, value: Seq<u8>)
    ensures
        match first_with_value(s, value) {
            Some(k) => 0 <= k < s.len() && vstd::utf8::encode_utf8(s[k].value@) == value && forall|m: int|
                0 <= m < k ==> vstd::utf8::encode_utf8(#[trigger] s[m].value@) != value,
            None => forall|m: int| 0 <= m < s.len() ==> vstd::utf8::encode_utf8(#[trigger] s[m].value@) != value,
        },
    decreases s.len(),
{
    if s.len() > 0 {
        lemma_first_with_value(s.drop_last(), value);
        match first_with_value(s.drop_last(), value) {
            Some(k) => {
                assert(s[k] == s.drop_last()[k]);
                assert forall|m: int| 0 <= m < k implies vstd::utf8::encode_utf8(#[trigger] s[m].value@) != value by {
                    assert(s[m] == s.drop_last()[m]);
                }
            },
            None => {
                assert forall|m: int| 0 <= m < s.len() - 1 implies vstd::utf8::encode_utf8(#[trigger] s[m].value@) != value by {
                    assert(s[m] == s.drop_last()[m]);
                }
            },
        }
    }
}

fn same_bytes(a: &[u8], b: &Vec<u8>) -> (r: bool)
    ensures
        r == (a@ == b@),
{
    if a.len() != b.len() {
        return false;
    }
    let mut i: usize = 0;
    while i < a.len()
        invariant
            a@.len() == b@.len(),
            i <= a@.len(),
            forall|k: int| 0 <= k < i ==> a@[k] == b@[k],
        decreases a@.len() - i,
    {
        if a[i] != b[i] {
            return false;
        }
        i = i + 1;
    }
    proof {
        assert(a@ =~= b@);
    }
    true
}

/// A stored secret of the source (`existing_id`, whose value has the bytes
/// `existing_value`) keeps its id when the revised text still holds that
/// value: the new secret with that value takes the stored id, in the text
/// too. Returns whether the stored secret is kept. Secret ids are never
/// empty (isolation issues them).
pub fn retain_secret(isolation: &mut Isolation, existing_id: &str, existing_value: &Vec<u8>) -> (kept: bool)
    requires
        existing_id@.len() > 0,
        forall|k: int| 0 <= k < old(isolation).secrets@.len() ==> (#[trigger] old(isolation).secrets@[k]).id@.len() > 0,
    ensures
        final(isolation).quarantined == old(isolation).quarantined,
        final(isolation).secrets@.len() == old(isolation).secrets@.len(),
        forall|k: int| 0 <= k < final(isolation).secrets@.len() ==> (#[trigger] final(isolation).secrets@[k]).id@.len() > 0,
        match first_with_value(old(isolation).secrets@, existing_value@) {
            Some(k) => {
                &&& kept
                &&& final(isolation).text@ == replace_spec(old(isolation).text@, old(isolation).secrets@[k].id@, existing_id@)
                &&& secret_view(final(isolation).secrets@[k]) == (existing_id@, old(isolation).secrets@[k].label@, old(isolation).secrets@[k].value@)
                &&& forall|m: int| 0 <= m < old(isolation).secrets@.len() && m != k ==> secret_view(#[trigger] final(isolation).secrets@[m]) == secret_view(old(isolation).secrets@[m])
            },
            None => {
                &&& !kept
                &&& final(isolation).text@ == old(isolation).text@
                &&& forall|m: int| 0 <= m < old(isolation).secrets@.len() ==> secret_view(#[trigger] final(isolation).secrets@[m]) == secret_view(old(isolation).secrets@[m])
            },
        },
{
    proof {
        lemma_first_with_value(old(isolation).secrets@, existing_value@);
    }
    let mut k: usize = 0;
    while k < isolation.secrets.len()
        invariant
            k <= isolation.secrets@.len(),
            isolation.secrets@ == old(isolation).secrets@,
            isolation.text@ == old(isolation).text@,
            isolation.quarantined == old(isolation).quarantined,
            existing_id@.len() > 0,
            forall|m: int| 0 <= m < old(isolation).secrets@.len() ==> (#[trigger] old(isolation).secrets@[m]).id@.len() > 0,
            forall|m: int| 0 <= m < k ==> vstd::utf8::encode_utf8(#[trigger] isolation.secrets@[m].value@) != existing_value@,
        decreases isolation.secrets.len() - k,
    {
        if same_bytes(isolation.secrets[k].value.as_str().as_bytes(), existing_value) {
            proof {
                lemma_first_with_value(old(isolation).secrets@, existing_value@);
                assert(old(isolation).secrets@[k as int].id@.len() > 0);
            }
            let from = chars_of(isolation.secrets[k].id.as_str());
            let to = chars_of(existing_id);
            let text = crate::text::replace_chars(&chars_of(isolation.text.as_str()), &from, &to);
            isolation.text = string_of(text.as_slice());
            let old_secret = &isolation.secrets[k];
            let updated = IsolatedSecret {
                id: String::from_str(existing_id),
                label: old_secret.label.clone(),
                value: old_secret.value.clone(),
            };
            isolation.secrets.set(k, updated);
            return true;
        }
        k = k + 1;
    }
    proof {
        lemma_first_with_value(old(isolation).secrets@, existing_value@);
    }
    false
}

} // verus!
