//! Memory spaces: roles and who may read, write or manage a space, and
//! the checks on space settings and memberships.
use crate::access::MemoryError;
use crate::context::MemoryContext;
use crate::model::{MemorySpace, SpaceDraft, SpaceRole};
use crate::text::{byte_len, str_eq, trim, trim_str};
use crate::validation::input_error;
use vstd::prelude::*;

verus! {

/// The stored name of each role.
pub open spec fn role_key(role: SpaceRole) -> Seq<char> {
    match role {
        SpaceRole::Owner => "OWNER"@,
        SpaceRole::Editor => "EDITOR"@,
        SpaceRole::Reader => "READER"@,
    }
}

pub fn role_name(role: SpaceRole) -> (r: &'static str)
    ensures
        r@ == role_key(role),
{
    match role {
        SpaceRole::Owner => "OWNER",
        SpaceRole::Editor => "EDITOR",
        SpaceRole::Reader => "READER",
    }
}

/// Reads a stored role name; an unknown name is a storage fault.
pub fn parse_role(value: &str) -> (r: Result<SpaceRole, MemoryError>)
    ensures
        match r {
            Ok(role) => role_key(role) == value@,
            Err(e) => (forall|role: SpaceRole| role_key(role) != value@) && e is Storage,
        },
{
    if str_eq(value, "OWNER") {
        Ok(SpaceRole::Owner)
    } else if str_eq(value, "EDITOR") {
        Ok(SpaceRole::Editor)
    } else if str_eq(value, "READER") {
        Ok(SpaceRole::Reader)
    } else {
        proof {
            assert forall|role: SpaceRole| role_key(role) != value@ by {
                match role {
                    SpaceRole::Owner => {},
                    SpaceRole::Editor => {},
                    SpaceRole::Reader => {},
                }
            }
        }
        Err(MemoryError::Storage(String::from_str("未知空间角色")))
    }
}

/// Reading a role's name back gives the role.
pub proof fn lemma_role_names(a: SpaceRole, b: SpaceRole)
    ensures
        role_key(a) == role_key(b) <==> a == b,
{
    reveal_strlit("OWNER");
    reveal_strlit("EDITOR");
    reveal_strlit("READER");
    if role_key(a) == role_key(b) && a != b {
        assert(role_key(a).len() != role_key(b).len() || role_key(a)[0] != role_key(b)[0]);
    }
}

/// A member may use a space for what the request needs: writing needs an
/// owner or editor, managing needs the owner.
pub open spec fn space_allows(role: SpaceRole, write: bool, owner: bool) -> bool {
    !(write && !(role is Owner || role is Editor)) && !(owner && role != SpaceRole::Owner)
}

pub fn check_space_role(space: &MemorySpace, write: bool, owner: bool) -> (r: Result<(), MemoryError>)
    ensures
        r is Ok <==> space_allows(space.role, write, owner),
        r matches Err(e) ==> e is Access,
{
    if (write && !space.role.can_write()) || (owner && space.role != SpaceRole::Owner) {
        return Err(MemoryError::Access);
    }
    Ok(())
}

/// Space settings: a title of 1 to 80 characters once trimmed and a model
/// binding of at most 160 bytes.
pub open spec fn space_draft_ok(draft: SpaceDraft) -> bool {
    &&& 1 <= trim(draft.title@).len() <= 80
    &&& !(draft.model_binding matches Some(b) && byte_len(b@) > 160)
}

pub fn validate(draft: &SpaceDraft) -> (r: Result<(), MemoryError>)
    ensures
        r is Ok <==> space_draft_ok(*draft),
        r matches Err(e) ==> input_error(e, "空间配置无效"@),
{
    let title = trim_str(draft.title.as_str());
    let n = title.unicode_len();
    let binding_too_long = match &draft.model_binding {
        Some(b) => crate::text::byte_len_exceeds(&crate::text::chars_of(b.as_str()), 160),
        None => false,
    };
    if n == 0 || n > 80 || binding_too_long {
        return Err(MemoryError::Input(String::from_str("空间配置无效")));
    }
    Ok(())
}

/// Memberships of a personal space, and one's own, cannot be changed; the
/// member named must be 1 to 128 bytes and not blank.
pub open spec fn member_change_ok(personal: bool, user: Seq<char>, target: Seq<char>) -> bool {
    &&& !personal
    &&& trim(target).len() > 0
    &&& byte_len(target) <= 128
    &&& target != user
}

pub fn validate_member(space: &MemorySpace, context: &MemoryContext, target: &str) -> (r: Result<(), MemoryError>)
    ensures
        r is Ok <==> member_change_ok(space.personal, context.user_id@, target@),
        r matches Err(e) ==> input_error(e, "不能更改个人空间或自己的成员权限"@),
{
    let blank = trim_str(target).unicode_len() == 0;
    let long = crate::text::byte_len_exceeds(&crate::text::chars_of(target), 128);
    if space.personal || blank || long || str_eq(target, context.user_id.as_str()) {
        return Err(MemoryError::Input(String::from_str("不能更改个人空间或自己的成员权限")));
    }
    Ok(())
}

} // verus!
