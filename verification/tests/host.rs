use az_memory::broker::{broker_reply, decode_reply_value, Cryptography};
use az_memory::development::{development_key, DevelopmentServices};
use az_memory::hosting::{authenticate, HostConfiguration, Ingress, RuntimeConfig};

#[test]
fn broker_requests_carry_purpose_and_encoded_value() {
    let crypto = Cryptography::new(Some("/run/broker.sock".into()), Some("ticket".into()));
    let call = crypto.prepare("seal", "space/source/id", b"hi").ok().unwrap();
    assert_eq!(call.socket, "/run/broker.sock");
    assert_eq!(call.body, "{\"purpose\":\"space/source/id\",\"value\":\"aGk=\"}");
    assert_eq!(
        call.head,
        format!(
            "POST /cryptography/seal HTTP/1.1\r\nhost: localhost\r\ncontent-type: application/json\r\ncontent-length: {}\r\nx-aio-token: ticket\r\nconnection: close\r\n\r\n",
            call.body.len()
        )
    );
    assert!(crypto.prepare("seal", "", b"x").is_err());
    assert!(crypto.prepare("seal", &"p".repeat(513), b"x").is_err());
    let unbound = Cryptography::new(None, Some("t".into()));
    match unbound.prepare("open", "p", b"x") {
        Err(az_memory::access::MemoryError::Storage(m)) => assert_eq!(m, "宿主加密通道未绑定"),
        _ => panic!("an unbound broker is refused"),
    }
    let no_ticket = Cryptography::new(Some("/s".into()), None);
    assert!(no_ticket.prepare("open", "p", b"x").is_err());
}

#[test]
fn broker_replies_are_read_after_the_head() {
    let reply = b"HTTP/1.1 200 OK\r\ncontent-type: application/json\r\n\r\n{\"value\":\"aGk=\"}".to_vec();
    assert_eq!(broker_reply(&reply).ok().unwrap(), b"{\"value\":\"aGk=\"}".to_vec());
    assert!(broker_reply(&b"HTTP/1.1 403 Forbidden\r\n\r\n".to_vec()).is_err());
    assert!(broker_reply(&b"HTTP/1.0 200 OK\r\n\r\n".to_vec()).ok().unwrap().is_empty());
    assert!(broker_reply(&b"HTTP/1.1 200 OK".to_vec()).is_err());
    assert_eq!(decode_reply_value("aGk=").ok().unwrap(), b"hi".to_vec());
    assert!(decode_reply_value("***").is_err());
}

fn host(abi: u32, token: &str, socket: &str, db: Option<&str>) -> HostConfiguration {
    HostConfiguration { abi_version: abi, tenant_id: "tenant".into(), ingress_token: token.into(), broker_socket: socket.into(), database_url: db.map(String::from) }
}

#[test]
fn host_bindings_are_checked() {
    let token = "t".repeat(32);
    let config = RuntimeConfig::from_host(host(2, &token, "/run/b.sock", Some("postgres://x"))).unwrap();
    assert_eq!(config.database_url, "postgres://x");
    assert_eq!(config.broker_token.as_deref(), Some(token.as_str()));
    assert_eq!(RuntimeConfig::from_host(host(1, &token, "/s", Some("d"))).err().unwrap(), "宿主绑定无效");
    assert_eq!(RuntimeConfig::from_host(host(2, "short", "/s", Some("d"))).err().unwrap(), "宿主绑定无效");
    assert_eq!(RuntimeConfig::from_host(host(2, &token, "relative", Some("d"))).err().unwrap(), "宿主绑定无效");
    assert_eq!(RuntimeConfig::from_host(host(2, &token, "/s", None)).err().unwrap(), "宿主未授权数据库");
    let ingress = Ingress::hosted(&host(2, &token, "/s", None));
    assert_eq!(ingress.tenant.as_deref(), Some("tenant"));
    assert!(Ingress::local("short".into()).is_err());
    assert!(Ingress::local(token.clone()).unwrap().tenant.is_none());
}

#[test]
fn requests_need_the_ticket_and_their_identity() {
    let ingress = Ingress { token: "secret-ticket".into(), tenant: Some("t1".into()) };
    let ok = authenticate(&ingress, Some("secret-ticket"), Some("t1"), Some("u1"), Some("service:agent")).unwrap();
    assert_eq!((ok.tenant_id.as_str(), ok.user_id.as_str(), ok.context_id.as_deref()), ("t1", "u1", Some("service:agent")));
    assert!(ok.worker());
    assert!(authenticate(&ingress, Some("wrong"), Some("t1"), Some("u1"), None).is_none());
    assert!(authenticate(&ingress, None, Some("t1"), Some("u1"), None).is_none());
    assert!(authenticate(&ingress, Some("secret-ticket"), Some("t2"), Some("u1"), None).is_none());
    assert!(authenticate(&ingress, Some("secret-ticket"), Some("t1"), Some(""), None).is_none());
    let long = "u".repeat(129);
    assert!(authenticate(&ingress, Some("secret-ticket"), Some("t1"), Some(&long), None).is_none());
    let plain = authenticate(&ingress, Some("secret-ticket"), Some("t1"), Some("u1"), Some("")).unwrap();
    assert!(plain.context_id.is_none());
    assert!(!plain.worker());
    let open = Ingress { token: "x".into(), tenant: None };
    assert!(authenticate(&open, Some("x"), Some("any"), Some("u"), None).is_some());
}

#[test]
fn development_host_grants_compilation_to_the_agent() {
    let services = DevelopmentServices;
    assert!(services.authorize(&Some("service:agent".into()), "memory:compile"));
    assert!(!services.authorize(&Some("preview-browser".into()), "memory:compile"));
    assert!(!services.authorize(&Some("service:agent".into()), "memory:other"));
    let key = development_key(&"0f".repeat(32)).unwrap();
    assert_eq!(key, vec![15u8; 32]);
    assert_eq!(development_key(&"+a".repeat(32)).unwrap(), vec![10u8; 32]);
    assert_eq!(development_key("00").unwrap_err(), "开发宿主密钥无效");
    assert_eq!(development_key(&"zz".repeat(32)).unwrap_err(), "invalid digit found in string");
}

#[test]
fn broker_values_are_standard_base64_with_padding() {
    let crypto = Cryptography::new(Some("/s".into()), Some("t".into()));
    let body = |value: &[u8]| crypto.prepare("seal", "p", value).ok().unwrap().body;
    assert_eq!(body(b"Man"), "{\"purpose\":\"p\",\"value\":\"TWFu\"}");
    assert_eq!(body(b"Ma"), "{\"purpose\":\"p\",\"value\":\"TWE=\"}");
    assert_eq!(body(b"M"), "{\"purpose\":\"p\",\"value\":\"TQ==\"}");
    assert_eq!(body(&[0xff, 0xfe]), "{\"purpose\":\"p\",\"value\":\"//4=\"}");
    assert_eq!(body(b"hello world"), "{\"purpose\":\"p\",\"value\":\"aGVsbG8gd29ybGQ=\"}");
    assert_eq!(body(b""), "{\"purpose\":\"p\",\"value\":\"\"}");
}

#[test]
fn broker_values_decode_only_canonical_base64() {
    assert_eq!(decode_reply_value("TWFu").ok(), Some(b"Man".to_vec()));
    assert_eq!(decode_reply_value("TQ==").ok(), Some(b"M".to_vec()));
    assert_eq!(decode_reply_value("").ok(), Some(Vec::new()));
    assert!(decode_reply_value("TQ").is_err());
    assert!(decode_reply_value("TR==").is_err());
    assert!(decode_reply_value("TQ==TWFu").is_err());
    assert!(decode_reply_value("T Fu").is_err());
}
