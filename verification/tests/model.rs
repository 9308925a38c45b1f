use az_memory::access::{millis_from, now, require_id, MemoryError};
use az_memory::context::MemoryContext;
use az_memory::model::{
    chat_origin, default_characters, default_depth, default_kind, default_limit, default_recall_limit, initial_version,
    model_unavailable, source_limit, true_value, MemorySpace, NodeKind, SpaceDraft, SpaceRole,
};
use az_memory::nodes::{check_delete, rollback_draft};
use az_memory::secrets::{check_grant_member, check_grant_target, check_reveal, secret_summary};
use az_memory::source_edit::{check_editable, check_source_update, retain_secret};
use az_memory::spaces::{check_space_role, parse_role, role_name, validate, validate_member};
use az_memory::isolate::{IsolatedSecret, Isolation};
use az_memory::model::{NodeDraft, SourceUpdate, WikiRevision};

fn person(user: &str) -> MemoryContext {
    MemoryContext { tenant_id: "t".into(), user_id: user.into(), context_id: Some("browser".into()) }
}

fn worker() -> MemoryContext {
    MemoryContext { tenant_id: "t".into(), user_id: "w".into(), context_id: Some("service:agent".into()) }
}

#[test]
fn ids_errors_and_defaults() {
    assert!(require_id("0123456789ABCDEF0123456789abcdef").is_ok());
    assert!(require_id("0123456789abcdef0123456789abcde").is_err());
    assert!(require_id("0123456789abcdef0123456789abcdeg").is_err());
    assert_eq!(MemoryError::Stale.status_code(), 409);
    assert_eq!(MemoryError::Input("x".into()).public_message(), "x");
    assert_eq!(MemoryError::storage("db down".into()).public_message(), "存储暂不可用，请稍后重试");
    assert_eq!(MemoryError::Access.status_code(), 403);
    assert_eq!(MemoryError::Missing.public_message(), "记录不存在或已被删除");
    assert!(now() > 1_600_000_000_000);
    assert_eq!(az_memory::access::id().len(), 32);
    assert!(true_value());
    assert_eq!((source_limit(), initial_version(), default_limit(), default_recall_limit(), default_depth(), default_characters()), (200, 1, 200, 8, 1, 16_000));
    assert_eq!(default_kind(), NodeKind::Note);
    assert_eq!(chat_origin(), "chat");
    assert_eq!(model_unavailable(), "model_unavailable");
    assert_eq!(NodeKind::Project.label(), "项目");
}

#[test]
fn roles_read_back_and_limit_writes() {
    for role in [SpaceRole::Owner, SpaceRole::Editor, SpaceRole::Reader] {
        assert_eq!(parse_role(role_name(role)).ok(), Some(role));
    }
    assert!(parse_role("ADMIN").is_err());
    assert!(SpaceRole::Editor.can_write());
    assert!(!SpaceRole::Reader.can_write());
    let space = |role: SpaceRole, personal: bool| MemorySpace { id: "s".into(), title: "t".into(), personal, role, model_binding: None };
    assert!(check_space_role(&space(SpaceRole::Reader, false), false, false).is_ok());
    assert!(check_space_role(&space(SpaceRole::Reader, false), true, false).is_err());
    assert!(check_space_role(&space(SpaceRole::Editor, false), true, true).is_err());
    assert!(check_space_role(&space(SpaceRole::Owner, false), true, true).is_ok());
    assert!(validate(&SpaceDraft { title: " 工作 ".into(), model_binding: None }).is_ok());
    assert!(validate(&SpaceDraft { title: "  ".into(), model_binding: None }).is_err());
    assert!(validate(&SpaceDraft { title: "t".into(), model_binding: Some("m".repeat(161)) }).is_err());
    let me = person("me");
    assert!(validate_member(&space(SpaceRole::Owner, false), &me, "you").is_ok());
    assert!(validate_member(&space(SpaceRole::Owner, true), &me, "you").is_err());
    assert!(validate_member(&space(SpaceRole::Owner, false), &me, "me").is_err());
    assert!(validate_member(&space(SpaceRole::Owner, false), &me, " ").is_err());
}

#[test]
fn secrets_are_never_shown_to_workers() {
    assert!(check_reveal(&person("me"), true).is_ok());
    assert!(check_reveal(&person("me"), false).is_err());
    assert!(check_reveal(&worker(), true).is_err());
    assert!(check_grant_target(&person("me"), true, "you").is_ok());
    assert!(matches!(check_grant_target(&person("me"), false, "you"), Err(MemoryError::Access)));
    assert!(matches!(check_grant_target(&person("me"), true, " "), Err(MemoryError::Input(_))));
    assert!(check_grant_member(false).is_err());
    let summary = secret_summary(&worker(), "i".into(), "l".into(), "s".into(), true, true);
    assert!(!summary.can_reveal && !summary.can_manage);
    let summary = secret_summary(&person("me"), "i".into(), "l".into(), "s".into(), true, false);
    assert!(summary.can_reveal && !summary.can_manage);
}

#[test]
fn deletes_and_rollbacks_follow_versions() {
    assert!(check_delete(&person("me")).is_ok());
    assert!(check_delete(&worker()).is_err());
    let draft = NodeDraft { title: "old".into(), kind: NodeKind::Note, content: "c".into(), url: String::new(), tags: Vec::new(), version: Some(1), aliases: Vec::new() };
    let revisions = vec![
        WikiRevision { version: 3, draft: draft.clone(), author_id: "a".into(), author_type: "human".into(), source_id: None, updated_at: 0 },
        WikiRevision { version: 1, draft, author_id: "a".into(), author_type: "human".into(), source_id: None, updated_at: 0 },
    ];
    let back = rollback_draft(&revisions, 1, 4, 4).unwrap();
    assert_eq!((back.title.as_str(), back.version), ("old", Some(4)));
    assert!(matches!(rollback_draft(&revisions, 1, 3, 4), Err(MemoryError::Stale)));
    assert!(matches!(rollback_draft(&revisions, 2, 4, 4), Err(MemoryError::Missing)));
}

#[test]
fn source_revisions_keep_unchanged_secrets() {
    let update = |text: &str, version: i64| SourceUpdate { text: text.into(), version };
    assert!(check_source_update(&person("me"), &update("new", 1)).is_ok());
    assert!(check_source_update(&worker(), &update("new", 1)).is_err());
    assert!(check_source_update(&person("me"), &update(" ", 1)).is_err());
    assert!(check_source_update(&person("me"), &update("x", 0)).is_err());
    assert!(check_editable(true, 2, 2).is_ok());
    assert!(matches!(check_editable(false, 2, 2), Err(MemoryError::Access)));
    assert!(matches!(check_editable(true, 3, 2), Err(MemoryError::Stale)));
    let fresh = "aaaaaaaaaaaaaaaaaaaaaaaaaaaaaaaa".to_string();
    let kept = "bbbbbbbbbbbbbbbbbbbbbbbbbbbbbbbb".to_string();
    let mut isolation = Isolation {
        text: format!("pw [[secret:{fresh}]]"),
        secrets: vec![IsolatedSecret { id: fresh.clone(), label: "password".into(), value: "hunter2".into() }],
        quarantined: false,
    };
    assert!(!retain_secret(&mut isolation, &kept, &b"other".to_vec()));
    assert!(retain_secret(&mut isolation, &kept, &b"hunter2".to_vec()));
    assert_eq!(isolation.text, format!("pw [[secret:{kept}]]"));
    assert_eq!(isolation.secrets[0].id, kept);
}

#[test]
fn clock_readings_are_kept_as_milliseconds() {
    assert_eq!(millis_from(None), 0);
    assert_eq!(millis_from(Some(1_700_000_000_123)), 1_700_000_000_123);
    assert_eq!(millis_from(Some(u64::MAX as u128 + 5)), 4);
}

#[test]
fn identifiers_are_thirty_two_ascii_hex_bytes() {
    assert!(require_id(&"a".repeat(32)).is_ok());
    assert!(require_id(&"a".repeat(31)).is_err());
    assert!(require_id(&"g".repeat(32)).is_err());
    assert!(require_id(&"é".repeat(16)).is_err());
    assert!(matches!(require_id(&"a".repeat(33)), Err(MemoryError::Input(_))));
}

#[test]
fn failures_are_answered_as_json_without_storage_details() {
    assert_eq!(MemoryError::Input("标题\"无效\"".into()).error_body(), "{\"error\":\"标题\\\"无效\\\"\"}");
    assert_eq!(MemoryError::Input("x".into()).status_code(), 400);
    assert_eq!(MemoryError::Stale.error_body(), "{\"error\":\"内容已被其他会话修改，请刷新后重试\"}");
    let storage = MemoryError::storage("password=db-secret".into());
    assert_eq!(storage.status_code(), 503);
    assert_eq!(storage.error_body(), "{\"error\":\"存储暂不可用，请稍后重试\"}");
    assert!(!storage.error_body().contains("db-secret"));
}
