use az_memory::classifier::ChatIntent;
use az_memory::model::{ContextResult, MemoryEdge, MemoryNode, MemoryReference, NodeKind, SourceView};
use az_memory::routing::{
    citation, context_included, direct_route, greeting_route, model_route, recall_included, recall_reply, recall_route, route_start,
    save_route,
};

fn source(space: &str, status: &str) -> SourceView {
    SourceView {
        id: "src".into(),
        space_id: space.into(),
        text: "t".into(),
        status: status.into(),
        created_by: "u".into(),
        updated_at: 0,
        secrets: Vec::new(),
        error: None,
        title: "t".into(),
        version: 1,
        origin: "chat".into(),
        can_edit: true,
        can_delete: true,
    }
}

fn node(id: &str, title: &str, content: &str) -> MemoryNode {
    MemoryNode { id: id.into(), title: title.into(), kind: NodeKind::Note, content: content.into(), url: String::new(), tags: Vec::new(), version: 1, updated_at: 0, aliases: Vec::new() }
}

#[test]
fn messages_from_other_spaces_or_held_back_are_answered_first() {
    assert!(matches!(route_start(&source("a", "pending"), "b"), Err(az_memory::access::MemoryError::Missing)));
    let held = route_start(&source("a", "quarantined"), "a").unwrap().unwrap();
    assert_eq!(held.route, "quarantined");
    assert!(route_start(&source("a", "pending"), "a").unwrap().is_none());
    assert_eq!(greeting_route().route, "greeting");
    let saved = save_route(false, "src");
    assert_eq!(saved.reply.as_deref(), Some("已收下，资料已保存。模型配置完成后继续整理。"));
    assert_eq!(saved.activated_node_ids, vec!["src"]);
    assert_eq!(save_route(true, "src").reply.as_deref(), Some("已收下，正在后台整理。"));
}

#[test]
fn recall_answers_list_the_notes_found() {
    assert_eq!(recall_reply(&Vec::new()), "当前空间没有找到相关资料。");
    let nodes = vec![
        node("a", "Wi-Fi", "密码 [[secret:0123456789abcdef0123456789abcdef]]"),
        node("b", "Door", "code 12"),
    ];
    assert_eq!(recall_reply(&nodes), "找到 2 条相关资料：\n\nWi-Fi\n密码 [保密字段]\n\nDoor\ncode 12");
    let matched = vec!["b".to_string(), "a".to_string()];
    let edges = vec![MemoryEdge { id: "e".into(), source: "a".into(), target: "src".into(), relation: "r".into(), evidence: String::new() }];
    assert_eq!(recall_included(&matched, &edges, "src"), vec!["a", "b"]);
    let cites = vec![citation(&nodes[0])];
    assert_eq!(cites[0], MemoryReference { id: "a".into(), title: "Wi-Fi".into() });
    let route = recall_route("r".into(), cites, matched, vec!["a".into()]);
    assert_eq!(route.route, "recall");
}

#[test]
fn model_answers_cite_their_context() {
    let context = Some(ContextResult { markdown: "# ctx".into(), node_ids: vec!["src".into(), "a".into(), "c".into()], truncated: false });
    let included = context_included(&context, "src");
    assert_eq!(included, vec!["a", "c"]);
    let route = model_route(context, Vec::new(), &vec!["b".to_string(), "a".to_string()], included);
    assert_eq!(route.route, "model");
    assert!(route.reply.is_none());
    assert_eq!(route.context, "# ctx");
    assert_eq!(route.matched_node_ids, vec!["a"]);
    let empty = model_route(None, Vec::new(), &Vec::new(), context_included(&None, "src"));
    assert!(empty.context.is_empty());
}

#[test]
fn greetings_and_saves_are_answered_directly() {
    let greeting = direct_route(ChatIntent::Greeting, true, "src").expect("问候直接回复");
    assert_eq!(greeting.route, "greeting");
    let saved = direct_route(ChatIntent::Save, true, "src").expect("保存直接回复");
    assert_eq!(saved.route, "save");
    assert_eq!(saved.reply.as_deref(), Some("已收下，正在后台整理。"));
    assert_eq!(saved.matched_node_ids, vec!["src"]);
    assert!(direct_route(ChatIntent::Recall, true, "src").is_none());
    assert!(direct_route(ChatIntent::Model, false, "src").is_none());
}
