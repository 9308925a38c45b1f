//! Who a request acts for.
use crate::text::is_prefix;
use vstd::prelude::*;

verus! {

/// The tenant and user a request acts for, and the session it comes from.
#[derive(Clone, Debug)]
pub struct MemoryContext {
    pub tenant_id: String,
    pub user_id: String,
    pub context_id: Option<String>,
}

/// A background worker's session is named `service:...`.
pub open spec fn is_worker(context_id: Option<String>) -> bool {
    context_id matches Some(id) && is_prefix("service:"@, id@)
}

impl MemoryContext {
    /// Whether the request comes from a background worker rather than a
    /// person.
    pub fn worker(&self) -> (r: bool)
        ensures
            r == is_worker(self.context_id),
    {
        match &self.context_id {
            Some(id) => crate::text::str_starts_with(id.as_str(), "service:"),
            None => false,
        }
    }
}

} // verus!
