use az_memory::context::MemoryContext;
use az_memory::intake::{
    capture_plan, check_original, clarification, clarification_release, clarified_label, released_isolation, HeldSource,
    check_replay_status, check_replay_text, check_retry, check_source_query, concept_draft,
    import_request, isolated_title, link_names_of, link_wanted, list_truncated, mention_edge, sealing_purpose,
    source_permissions, source_status, source_title, task_state, validate_capture, wiki_links,
};
use az_memory::isolate::Isolation;
use az_memory::model::{CaptureRequest, ImportRequest, SourceQuery, SpaceRole};

fn capture(text: &str, origin: &str) -> CaptureRequest {
    CaptureRequest {
        request_id: "r1".into(),
        text: text.into(),
        space_id: None,
        origin: origin.into(),
        reference: String::new(),
        clarifies: None,
    }
}

fn context(user: &str, session: Option<&str>) -> MemoryContext {
    MemoryContext { tenant_id: "t".into(), user_id: user.into(), context_id: session.map(String::from) }
}

#[test]
fn captures_need_text_an_id_and_a_known_origin() {
    assert!(validate_capture(&capture("hello", "chat")).is_ok());
    assert!(validate_capture(&capture("hello", "import")).is_ok());
    assert!(validate_capture(&capture("   ", "chat")).is_err());
    assert!(validate_capture(&capture("hello", "email")).is_err());
    assert!(validate_capture(&capture(&"x".repeat(100_001), "note")).is_err());
    let mut c = capture("hello", "note");
    c.request_id = String::new();
    assert!(validate_capture(&c).is_err());
    c.request_id = "x".repeat(161);
    assert!(validate_capture(&c).is_err());
}

#[test]
fn listings_are_checked_and_paged() {
    let q = |status: &str, offset: i64, limit: i64| SourceQuery { space_id: None, query: String::new(), status: status.into(), offset, limit };
    assert!(check_source_query(&q("", 0, 200)).is_ok());
    assert!(check_source_query(&q("recorded", 5, 1)).is_ok());
    assert!(check_source_query(&q("deleted", 0, 10)).is_err());
    assert!(check_source_query(&q("", -1, 10)).is_err());
    assert!(check_source_query(&q("", 0, 201)).is_err());
    assert!(list_truncated(0, 10, 11));
    assert!(!list_truncated(1, 10, 11));
    assert!(!list_truncated(i64::MAX, 5, 3));
}

#[test]
fn titles_come_from_objects_or_the_first_line() {
    assert_eq!(source_title("\n  \n第一行 [[secret:0123456789abcdef0123456789abcdef]]\n第二行"), "第一行 [保密字段]");
    assert_eq!(source_title("   \n\t"), "新资料");
    assert_eq!(source_title(&"长".repeat(150)).chars().count(), 100);
    assert_eq!(source_title("line\r\nnext"), "line");
    let object = "{\"name\":\"Acme\",\"title\":\"[[secret:0123456789abcdef0123456789abcdef]]\",\"nested\":{\"title\":\"inner\"}}";
    assert_eq!(source_title(object), "Acme");
    assert_eq!(source_title("{\"x\":1}"), "账号与资料");
    assert_eq!(source_title(" {\"项目\": \"星图\"} "), "星图");
    assert_eq!(source_title("[]"), "[]");
    assert_eq!(source_title("{\"title\":\"first\",\"title\":\"second\"}"), "second");
    assert_eq!(source_title("{not json"), "{not json");
}

#[test]
fn wiki_links_name_their_targets() {
    assert_eq!(wiki_links("[[PostgreSQL]] 保存 [[知识图谱]]，[[PostgreSQL]] 是来源。"), vec!["PostgreSQL", "知识图谱", "PostgreSQL"]);
    assert_eq!(wiki_links("[[ Page | label ]] and [[ | blank]]"), vec!["Page"]);
    let many: String = (0..50).map(|i| format!("[[n{i}]]")).collect();
    assert_eq!(wiki_links(&many).len(), 40);
    let caps = vec![vec![Some("[[a|b]]".to_string()), Some("a|b".to_string())], vec![Some("x".to_string())]];
    assert_eq!(link_names_of(&caps), vec!["a"]);
    assert!(link_wanted("Page", "Other"));
    assert!(!link_wanted("Same", "Same"));
    assert!(!link_wanted("secret:abc", "x"));
    let d = concept_draft("Page".into());
    assert_eq!(d.title, "Page");
    let e = mention_edge("s", "c");
    assert_eq!((e.relation.as_str(), e.evidence.as_str()), ("提及", "显式双向链接"));
}

#[test]
fn replays_and_retries_follow_the_source_state() {
    assert!(check_replay_status("pending").is_ok());
    assert!(check_replay_status("deleted").is_err());
    assert!(check_replay_text(&"同一".as_bytes().to_vec(), "同一").is_ok());
    assert!(check_replay_text(&b"a".to_vec(), "b").is_err());
    assert!(check_retry("failed").is_ok());
    assert!(check_retry("pending").is_ok());
    assert!(check_retry("complete").is_err());
    match check_retry("quarantined") {
        Err(az_memory::access::MemoryError::Input(m)) => assert_eq!(m, "请在对话中补充字段名称后重新提交资料"),
        _ => panic!("quarantined sources are not retried"),
    }
    assert_eq!(source_status(true), "quarantined");
    assert_eq!(source_status(false), "pending");
    assert_eq!(task_state(true), "cancelled");
}

#[test]
fn sources_are_titled_and_sealed_for_their_space() {
    let held = Isolation { text: "x".into(), secrets: Vec::new(), quarantined: true };
    assert_eq!(isolated_title(&held), "待整理的保密资料");
    let kept = Isolation { text: "Notes\nmore".into(), secrets: Vec::new(), quarantined: false };
    assert_eq!(isolated_title(&kept), "Notes");
    assert_eq!(sealing_purpose("space", "secret", "id"), "space/secret/id");
}

#[test]
fn writers_edit_their_own_sources_and_workers_nothing() {
    let me = context("me", None);
    assert_eq!(source_permissions(SpaceRole::Editor, &me, "me"), (true, true));
    assert_eq!(source_permissions(SpaceRole::Editor, &me, "you"), (false, true));
    assert_eq!(source_permissions(SpaceRole::Reader, &me, "me"), (false, false));
    let worker = context("me", Some("service:agent"));
    assert_eq!(source_permissions(SpaceRole::Owner, &worker, "me"), (false, false));
    assert!(check_original(&me, "me").is_ok());
    assert!(check_original(&me, "you").is_err());
    assert!(check_original(&worker, "me").is_err());
}

#[test]
fn imports_join_their_parts() {
    let import = ImportRequest { request_id: "r".into(), title: "设计笔记".into(), text: "正文".into(), url: String::new() };
    let request = import_request(&import, Some("s".into()));
    assert_eq!(request.text, "设计笔记\n正文");
    assert_eq!(request.origin, "import");
    assert_eq!(request.space_id.as_deref(), Some("s"));
    let full = ImportRequest { request_id: "r".into(), title: "t".into(), text: "x".into(), url: "https://e".into() };
    assert_eq!(import_request(&full, None).text, "t\nhttps://e\nx");
}

fn chat_note(text: &str, reference: &str) -> CaptureRequest {
    CaptureRequest {
        request_id: "r2".into(),
        text: text.into(),
        space_id: None,
        origin: "chat".into(),
        reference: reference.into(),
        clarifies: Some("held".into()),
    }
}

fn held(created_by: &str, status: &str, reference: &str) -> HeldSource {
    HeldSource { created_by: created_by.into(), status: status.into(), origin: "chat".into(), reference: reference.into() }
}

#[test]
fn plain_clarifications_name_the_credential() {
    assert_eq!(clarification("上一条是密码").as_deref(), Some("密码"));
    assert_eq!(clarification("  刚才那段其实是 GitHub token。 ").as_deref(), Some("GitHub token"));
    assert_eq!(clarification("以上为数据库口令！").as_deref(), Some("数据库口令"));
    assert_eq!(clarification("上一条是什么意思，我忘了"), None);
    assert_eq!(clarification("密码"), None);
    assert_eq!(clarified_label(&None), None);
    assert_eq!(clarified_label(&Some(Vec::new())), None);
    assert_eq!(clarified_label(&Some(vec![vec![Some("x".into()), Some("口令".into())]])).as_deref(), Some("口令"));
    assert_eq!(clarified_label(&Some(vec![vec![Some("x".into()), Some(String::new())]])), None);
}

#[test]
fn only_the_submitter_releases_a_held_source_of_the_same_conversation() {
    let note = chat_note("上一条是密码", "conv-1");
    assert_eq!(clarification_release(&context("u", None), &note, &held("u", "quarantined", "conv-1")).as_deref(), Some("密码"));
    assert_eq!(clarification_release(&context("v", None), &note, &held("u", "quarantined", "conv-1")), None);
    assert_eq!(clarification_release(&context("u", None), &note, &held("u", "pending", "conv-1")), None);
    assert_eq!(clarification_release(&context("u", None), &note, &held("u", "quarantined", "conv-2")), None);
    assert_eq!(clarification_release(&context("u", None), &chat_note("上一条是密码", ""), &held("u", "quarantined", "")), None);
    assert_eq!(clarification_release(&context("u", Some("service:w")), &note, &held("u", "quarantined", "conv-1")), None);
    let unclear = chat_note("这个你看着办", "conv-1");
    assert_eq!(clarification_release(&context("u", None), &unclear, &held("u", "quarantined", "conv-1")), None);
}

#[test]
fn a_released_source_becomes_one_credential() {
    let released = released_isolation("密码".into(), "hunter2 x9".into());
    assert!(!released.quarantined);
    assert_eq!(released.secrets.len(), 1);
    assert_eq!(released.secrets[0].label, "密码");
    assert_eq!(released.secrets[0].value, "hunter2 x9");
    assert_eq!(released.text, format!("[[secret:{}]]", released.secrets[0].id));
    assert_eq!(released.secrets[0].id.len(), 32);
    assert!(!released.text.contains("hunter2"));
}

#[test]
fn held_back_captures_get_no_task() {
    let held = Isolation { text: "[资料已保密暂存，等待补充说明]".into(), secrets: Vec::new(), quarantined: true };
    let plan = capture_plan(&held);
    assert_eq!(plan.status, "quarantined");
    assert_eq!(plan.title, "待整理的保密资料");
    assert!(!plan.queued);
    let kept = Isolation { text: "会议纪要\n第二行".into(), secrets: Vec::new(), quarantined: false };
    let plan = capture_plan(&kept);
    assert_eq!(plan.status, "pending");
    assert_eq!(plan.title, source_title("会议纪要\n第二行"));
    assert!(plan.queued);
}
