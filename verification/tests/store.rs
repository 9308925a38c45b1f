use az_memory::model::{EdgeDraft, NodeDraft, NodeKind};
use az_memory::store::{check_edit_secrets, check_links, check_save, check_search, check_visibility, like_pattern, link_operator};
use az_memory::validation::{validate_draft, validate_edge};
use az_memory::model::SearchRequest;
use az_memory::access::MemoryError;

#[test]
fn validates_node_and_edge_drafts() {
    let node = validate_draft(NodeDraft {
        title: " 标题 ".into(),
        kind: NodeKind::Note,
        content: String::new(),
        url: String::new(),
        tags: vec![" tag ".into(), "tag".into()],
        version: None,
        aliases: vec![" alias ".into(), "alias".into()],
    })
    .expect("节点应有效");
    assert_eq!(node.title, "标题");
    assert_eq!(node.tags, vec!["tag"]);
    assert_eq!(node.aliases, vec!["alias"]);
    assert!(
        validate_edge(EdgeDraft {
            source: "a".repeat(32),
            target: "a".repeat(32),
            relation: "关系".into(),
            evidence: String::new(),
        })
        .is_err()
    );
}

fn draft(title: &str) -> NodeDraft {
    NodeDraft {
        title: title.into(),
        kind: NodeKind::Note,
        content: String::new(),
        url: String::new(),
        tags: Vec::new(),
        version: None,
        aliases: Vec::new(),
    }
}

fn input_message(e: MemoryError) -> String {
    match e {
        MemoryError::Input(m) => m,
        other => panic!("expected an input error, got {:?}", other),
    }
}

#[test]
fn draft_errors_name_the_field() {
    assert_eq!(input_message(validate_draft(draft("  ")).unwrap_err()), "标题须为 1 至 160 个字符");
    let mut d = draft("t");
    d.url = "ftp://x".into();
    assert_eq!(input_message(validate_draft(d).unwrap_err()), "来源地址须为 HTTP 或 HTTPS URL");
    let mut d = draft("t");
    d.tags = (0..13).map(|i| format!("t{i}")).collect();
    assert_eq!(input_message(validate_draft(d).unwrap_err()), "最多 12 个标签，每个不超过 32 个字符");
    let mut d = draft("t");
    d.url = " https://example.com ".into();
    assert_eq!(validate_draft(d).unwrap().url, "https://example.com");
}

#[test]
fn validating_a_draft_twice_changes_nothing_more() {
    let mut d = draft("  Title ");
    d.tags = vec![" a".into(), "b ".into(), "a".into()];
    d.aliases = vec!["x".into(), " x ".into()];
    let once = validate_draft(d).unwrap();
    let twice = validate_draft(once.clone()).unwrap();
    assert_eq!(once, twice);
    assert_eq!(once.tags, vec!["a", "b"]);
}

#[test]
fn edges_need_distinct_valid_ends_and_a_short_name() {
    let a = "0123456789abcdef0123456789abcdef".to_string();
    let b = "fedcba9876543210fedcba9876543210".to_string();
    let ok = validate_edge(EdgeDraft { source: a.clone(), target: b.clone(), relation: " 提及 ".into(), evidence: "e".into() }).unwrap();
    assert_eq!(ok.relation, "提及");
    let bad = validate_edge(EdgeDraft { source: a.clone(), target: "xyz".into(), relation: "r".into(), evidence: String::new() });
    assert_eq!(input_message(bad.unwrap_err()), "节点或关系 ID 无效");
    let long = validate_edge(EdgeDraft { source: a, target: b, relation: "x".repeat(49), evidence: String::new() });
    assert_eq!(input_message(long.unwrap_err()), "关系名称须为 1 至 48 个字符");
}

#[test]
fn search_patterns_are_literal() {
    assert_eq!(like_pattern("%' OR 1=1 --"), "%\\%' OR 1=1 --%");
    assert_eq!(like_pattern("a_b\\c"), "%a\\_b\\\\c%");
    assert!(check_search(&SearchRequest { query: "x".repeat(256), kind: None, limit: 200 }).is_ok());
    assert!(check_search(&SearchRequest { query: "x".repeat(257), kind: None, limit: 1 }).is_err());
    assert!(check_search(&SearchRequest { query: String::new(), kind: None, limit: 0 }).is_err());
}

#[test]
fn link_and_visibility_queries_are_bounded() {
    assert_eq!(check_links(&Vec::new()).unwrap(), false);
    assert_eq!(check_links(&vec!["a".into()]).unwrap(), true);
    assert!(check_links(&vec![String::new(); 201]).is_err());
    assert!(check_visibility(&vec!["0123456789abcdef0123456789abcdef".to_string()]).is_ok());
    assert!(check_visibility(&vec!["nothex".to_string()]).is_err());
    assert_eq!(link_operator(true), "AND");
    assert_eq!(link_operator(false), "OR");
}

#[test]
fn only_intake_writes_sources() {
    assert!(check_save("human", None, NodeKind::Source, None).is_err());
    assert!(check_save("source", None, NodeKind::Source, None).is_ok());
    assert!(check_save("human", Some(NodeKind::Source), NodeKind::Note, Some(1)).is_err());
    assert_eq!(input_message(check_save("human", Some(NodeKind::Note), NodeKind::Note, None).unwrap_err()), "编辑时必须携带当前版本");
    assert!(check_save("model", Some(NodeKind::Note), NodeKind::Note, Some(3)).is_ok());
}

fn draft_with(content: &str) -> NodeDraft {
    NodeDraft {
        title: "账号".into(),
        kind: NodeKind::Note,
        content: content.into(),
        url: String::new(),
        tags: Vec::new(),
        version: None,
        aliases: Vec::new(),
    }
}

#[test]
fn human_edits_with_suspected_secrets_are_refused() {
    match check_edit_secrets("human", &draft_with("password: hunter22")) {
        Err(MemoryError::Input(m)) => assert_eq!(m, "内容包含疑似秘密，请通过收件管线保存"),
        other => panic!("应拒绝：{other:?}"),
    }
    assert!(check_edit_secrets("human", &draft_with("登录用 [[secret:0123456789abcdef0123456789abcdef]]")).is_ok());
    assert!(check_edit_secrets("human", &draft_with("普通笔记")).is_ok());
    assert!(check_edit_secrets("model", &draft_with("password: hunter22")).is_ok());
}
