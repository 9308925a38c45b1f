use az_memory::isolate::{is_sensitive, isolate, mask_allowed};
use az_memory::json::{push_quoted, parse_document, JsonToken};

#[test]
fn isolates_assignments_and_reuses_references() {
    let result = isolate("password: canary\n再次 canary", &vec![]);
    assert!(!result.quarantined);
    assert_eq!(result.secrets.len(), 1);
    assert!(!result.text.contains("canary"));
    assert!(result.text.contains("[[secret:"));
}

#[test]
fn quarantines_unknown_secret_references() {
    let result = isolate("[[secret:aaaaaaaaaaaaaaaaaaaaaaaaaaaaaaaa]]", &vec![]);
    assert!(result.quarantined);
}

fn outside_references(text: &str) -> String {
    let mut out = String::new();
    let mut rest = text;
    while let Some(start) = rest.find("[[secret:") {
        out.push_str(&rest[..start]);
        let after = &rest[start..];
        match after.find("]]") {
            Some(end) => rest = &after[end + 2..],
            None => {
                rest = "";
            }
        }
    }
    out.push_str(rest);
    out
}

#[test]
fn kept_text_holds_no_secret_value_outside_references() {
    let input = "token=SECRET-REDACTED and api_key: 'k3y-value' again SECRET-REDACTED k3y-value\nBearer abc.def";
    let result = isolate(input, &vec![]);
    assert!(!result.quarantined);
    assert!(result.secrets.len() >= 2);
    let outside = outside_references(&result.text);
    for secret in &result.secrets {
        assert!(!outside.contains(&secret.value), "{} left in {}", secret.value, result.text);
        assert_eq!(secret.id.len(), 32);
        assert!(result.text.contains(&format!("[[secret:{}]]", secret.id)));
    }
}

#[test]
fn allowed_references_are_kept_as_protected() {
    let id = "0123456789abcdef0123456789abcdef".to_string();
    let text = format!("see [[secret:{id}]] here");
    assert_eq!(mask_allowed(&text, &vec![id.clone()]), "see [protected] here");
    let result = isolate(&text, &vec![id]);
    assert!(!result.quarantined);
    assert_eq!(result.text, "see [protected] here");
}

#[test]
fn blank_values_make_the_text_uncertain() {
    let result = isolate("password: \"\"", &vec![]);
    assert!(result.quarantined);
    assert_eq!(result.text, "[资料已保密暂存，等待补充说明]");
}

#[test]
fn json_documents_protect_sensitive_keys_and_strings() {
    let text = "{\"name\":\"demo\",\"password\":\"hunter22\"}";
    let result = isolate(text, &vec![]);
    assert!(!result.quarantined);
    assert!(!result.text.contains("hunter22"));
    assert!(result.secrets.iter().any(|s| s.value == "hunter22" && s.label == "password"));
    assert!(is_sensitive("api-Key"));
    assert!(!is_sensitive("name"));
}

#[test]
fn json_documents_are_read_depth_first() {
    let doc = parse_document(" {\"b\":[1,true,null],\"a\":\"x\"} ").unwrap();
    let expected = vec![
        JsonToken::ObjectStart,
        JsonToken::Key("a".into()),
        JsonToken::Str("x".into()),
        JsonToken::Key("b".into()),
        JsonToken::ArrayStart,
        JsonToken::Number("1".into()),
        JsonToken::Bool(true),
        JsonToken::Null,
        JsonToken::ArrayEnd,
        JsonToken::ObjectEnd,
    ];
    assert_eq!(format!("{doc:?}"), format!("{expected:?}"));
    assert!(parse_document("{\"a\":").is_none());
    assert!(parse_document("plain words").is_none());
}

#[test]
fn json_text_is_rewritten_compactly() {
    let result = isolate("{ \"note\" : \"hi\\n\" , \"n\": 2 }", &vec![]);
    assert!(!result.quarantined);
    assert_eq!(result.secrets.len(), 1);
    let id = &result.secrets[0].id;
    assert_eq!(result.secrets[0].value, "hi\n");
    assert_eq!(result.text, format!("{{\"n\":2,\"note\":\"[[secret:{id}]]\"}}"));
}

#[test]
fn unknown_references_are_held_back() {
    let id = "0123456789abcdef0123456789abcdef".to_string();
    let kept = isolate(&format!("see [[secret:{id}]]"), &vec![id.clone()]);
    assert!(!kept.quarantined);
    let held = isolate("see [[secret:fedcba9876543210fedcba9876543210]]", &vec![id]);
    assert!(held.quarantined);
}

#[test]
fn json_strings_are_escaped_as_serde_json_writes_them() {
    let mut out = Vec::new();
    push_quoted(&mut out, "a\"b\\c\n\t\u{1}\u{1f}\u{7f}é");
    let text: String = out.into_iter().collect();
    assert_eq!(text, "\"a\\\"b\\\\c\\n\\t\\u0001\\u001f\u{7f}é\"");
}
