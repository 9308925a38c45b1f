//! How the service is bound to its host: the host's configuration, and
//! which requests the ingress admits and on whose behalf.
use crate::context::MemoryContext;
use crate::text::{byte_len, is_prefix, str_eq};
use subtle::ConstantTimeEq;
use vstd::prelude::*;

verus! {

/// Whether two byte strings are equal, compared in constant time for equal
/// lengths (subtle crate, `ConstantTimeEq::ct_eq` on slices, whose `Choice`
/// is 1 exactly when lengths and bytes agree).
#[verifier::external_body]
fn bytes_equal(a: &[u8], b: &[u8]) -> (r: bool)
    ensures
        r == (a@ == b@),
{
    a.ct_eq(b).unwrap_u8() == 1
}

/// What the host hands the service when it starts it.
#[derive(Clone, Debug)]
pub struct HostConfiguration {
    pub abi_version: u32,
    pub tenant_id: String,
    pub ingress_token: String,
    pub broker_socket: String,
    pub database_url: Option<String>,
}

/// Where the service keeps its data and reaches the cryptography broker.
#[derive(Clone, Debug)]
pub struct RuntimeConfig {
    pub database_url: String,
    pub broker_socket: Option<String>,
    pub broker_token: Option<String>,
}

/// The ticket requests must carry and, under a host, the tenant they must
/// come from.
#[derive(Clone, Debug)]
pub struct Ingress {
    pub token: String,
    pub tenant: Option<String>,
}

/// A binding the service accepts: the current interface version, a tenant,
/// a ticket of at least 32 bytes and an absolute broker socket path.
pub open spec fn binding_ok(host: HostConfiguration) -> bool {
    &&& host.abi_version == 2
    &&& host.tenant_id@.len() > 0
    &&& byte_len(host.ingress_token@) >= 32
    &&& is_prefix("/"@, host.broker_socket@)
}

impl RuntimeConfig {
    /// The configuration under a host; the broker is reached with the
    /// ingress ticket.
    pub fn from_host(host: HostConfiguration) -> (r: Result<RuntimeConfig, String>)
        ensures
            !binding_ok(host) ==> (r matches Err(m) && m@ == "宿主绑定无效"@),
            binding_ok(host) && host.database_url is None ==> (r matches Err(m) && m@ == "宿主未授权数据库"@),
            binding_ok(host) && host.database_url is Some ==> (r matches Ok(c) && c.database_url == host.database_url.unwrap()
                && c.broker_socket == Some(host.broker_socket) && c.broker_token == Some(host.ingress_token)),
    {
        let long = crate::text::byte_len_exceeds(&crate::text::chars_of(host.ingress_token.as_str()), 31);
        if !(host.abi_version == 2 && host.tenant_id.unicode_len() > 0 && long && crate::text::str_starts_with(
            host.broker_socket.as_str(),
            "/",
        )) {
            return Err(String::from_str("宿主绑定无效"));
        }
        match host.database_url {
            Some(url) => Ok(RuntimeConfig {
                database_url: url,
                broker_socket: Some(host.broker_socket),
                broker_token: Some(host.ingress_token),
            }),
            None => Err(String::from_str("宿主未授权数据库")),
        }
    }
}

impl Ingress {
    /// Under a host, requests carry the host's ticket and come from its
    /// tenant.
    pub fn hosted(host: &HostConfiguration) -> (r: Ingress)
        ensures
            r.token@ == host.ingress_token@,
            (r.tenant matches Some(t) && t@ == host.tenant_id@),
    {
        Ingress { token: host.ingress_token.clone(), tenant: Some(host.tenant_id.clone()) }
    }

    /// Run alone, the service takes any tenant but needs a ticket of at
    /// least 32 bytes.
    pub fn local(token: String) -> (r: Result<Ingress, String>)
        ensures
            byte_len(token@) >= 32 ==> (r matches Ok(i) && i.token == token && i.tenant is None),
            byte_len(token@) < 32 ==> (r matches Err(m) && m@ == "入口票据至少 32 字节"@),
    {
        if !crate::text::byte_len_exceeds(&crate::text::chars_of(token.as_str()), 31) {
            return Err(String::from_str("入口票据至少 32 字节"));
        }
        Ok(Ingress { token, tenant: None })
    }
}

/// A header value the service reads: present, not empty, at most 128
/// bytes.
pub open spec fn header_ok(h: Option<&str>) -> bool {
    h matches Some(v) && v@.len() > 0 && byte_len(v@) <= 128
}

fn read_header(h: Option<&str>) -> (r: Option<String>)
    ensures
        header_ok(h) ==> (r matches Some(s) && s@ == h.unwrap()@),
        !header_ok(h) ==> r is None,
{
    match h {
        Some(v) => {
            if v.unicode_len() > 0 && !crate::text::byte_len_exceeds(&crate::text::chars_of(v), 128) {
                Some(String::from_str(v))
            } else {
                None
            }
        },
        None => None,
    }
}

/// Who a request acts for, from its headers: the ticket must match the
/// ingress's (a missing one counts as empty), tenant and user must be
/// readable, and a hosted ingress admits only its own tenant; `None` when
/// the request is refused.
pub fn authenticate(
    ingress: &Ingress,
    token: Option<&str>,
    tenant: Option<&str>,
    user: Option<&str>,
    context: Option<&str>,
) -> (r: Option<MemoryContext>)
    ensures
        ({
            let tok = match token {
                Some(t) => t@,
                None => Seq::empty(),
            };
            let accepted = vstd::utf8::encode_utf8(tok) == vstd::utf8::encode_utf8(ingress.token@) && header_ok(tenant)
                && header_ok(user) && !(ingress.tenant matches Some(b) && b@ != tenant.unwrap()@);
            &&& accepted ==> (r matches Some(c) && c.tenant_id@ == tenant.unwrap()@ && c.user_id@ == user.unwrap()@
                && (header_ok(context) ==> (c.context_id matches Some(x) && x@ == context.unwrap()@))
                && (!header_ok(context) ==> c.context_id is None))
            &&& !accepted ==> r is None
        }),
{
    let given = match token {
        Some(t) => t,
        None => "",
    };
    proof {
        reveal_strlit("");
    }
    if !bytes_equal(given.as_bytes(), ingress.token.as_str().as_bytes()) {
        return None;
    }
    let tenant_id = match read_header(tenant) {
        Some(t) => t,
        None => {
            return None;
        },
    };
    let user_id = match read_header(user) {
        Some(u) => u,
        None => {
            return None;
        },
    };
    match &ingress.tenant {
        Some(bound) => {
            if !str_eq(bound.as_str(), tenant_id.as_str()) {
                return None;
            }
        },
        None => {},
    }
    Some(MemoryContext { tenant_id, user_id, context_id: read_header(context) })
}

} // verus!
