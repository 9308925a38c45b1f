use az_memory::model::{MemorySpace, NodeKind, SourceView, SpaceRole};
use az_memory::workspace::{
    can_save_note, chosen_kind, draft, kind_options, note_error, origin_label, page_position, previous_offset, quick_card,
    source_status, space_title, space_writable, split, tag_text, waiting, View,
};

fn source(status: &str) -> SourceView {
    SourceView {
        id: "s".into(),
        space_id: "sp".into(),
        text: String::new(),
        status: status.into(),
        created_by: "u".into(),
        updated_at: 0,
        secrets: Vec::new(),
        error: None,
        title: String::new(),
        version: 1,
        origin: "manual".into(),
        can_edit: true,
        can_delete: true,
    }
}

#[test]
fn view_labels_and_default() {
    assert_eq!(View::Wiki.label(), "Wiki");
    assert_eq!(View::Graph.label(), "图谱");
    assert_eq!(View::Pending.label(), "待整理");
    assert_eq!(View::current(None), View::Wiki);
    assert_eq!(View::current(Some(View::Sources)), View::Sources);
}

#[test]
fn creatable_kinds_leave_out_sources() {
    let kinds = kind_options();
    assert_eq!(kinds.len(), 5);
    assert_eq!(kinds[0], ("笔记", NodeKind::Note));
    assert_eq!(kinds[4], ("项目", NodeKind::Project));
    assert!(kinds.iter().all(|(_, k)| *k != NodeKind::Source));
}

#[test]
fn source_states_read_in_words() {
    assert_eq!(source_status(&source("pending")), "待整理");
    assert_eq!(source_status(&source("complete")), "已整理");
    assert_eq!(source_status(&source("quarantined")), "保密暂存");
    assert_eq!(source_status(&source("odd")), "未知");
}

#[test]
fn typed_lists_are_trimmed_and_blanks_dropped() {
    assert_eq!(split(" a, b ,,c ,  ".into()), vec!["a".to_string(), "b".into(), "c".into()]);
    assert!(split(String::new()).is_empty());
    assert_eq!(tag_text(&vec!["rust".into(), "memory".into()]), "#rust #memory");
    assert_eq!(tag_text(&Vec::new()), "");
}

#[test]
fn node_dialog_draft_reads_lists() {
    let d = draft("T".into(), NodeKind::Concept, "body".into(), String::new(), "x, y".into(), " alias ".into(), Some(3));
    assert_eq!(d.tags, vec!["x".to_string(), "y".into()]);
    assert_eq!(d.aliases, vec!["alias".to_string()]);
    assert_eq!(d.version, Some(3));
    assert_eq!(d.kind, NodeKind::Concept);
}

fn space(id: &str, title: &str, role: SpaceRole) -> MemorySpace {
    MemorySpace { id: id.into(), title: title.into(), personal: false, role, model_binding: None }
}

#[test]
fn notes_show_origin_and_cards() {
    assert_eq!(origin_label("chat"), "对话");
    assert_eq!(origin_label("import"), "导入");
    assert_eq!(origin_label("note"), "随心记");
    let mut s = source("pending");
    s.text = "  first line\nsecond  ".into();
    assert_eq!(quick_card(&s), ("first line second".to_string(), "first line second".to_string()));
    s.text = "x".repeat(40);
    let (title, preview) = quick_card(&s);
    assert_eq!(title, format!("{}…", "x".repeat(34)));
    assert_eq!(preview.chars().count(), 40);
}

#[test]
fn pending_view_lists_unsettled_sources() {
    for status in ["pending", "processing", "failed", "conflict", "quarantined"] {
        assert!(waiting(&source(status)));
    }
    for status in ["complete", "recorded", "deleted"] {
        assert!(!waiting(&source(status)));
    }
}

#[test]
fn listings_page_by_24() {
    assert_eq!(page_position(0, 0), (1, 1));
    assert_eq!(page_position(0, 24), (1, 1));
    assert_eq!(page_position(24, 25), (2, 2));
    assert_eq!(page_position(48, 100), (3, 5));
    assert_eq!(previous_offset(48), 24);
    assert_eq!(previous_offset(10), 0);
}

#[test]
fn kind_selector_and_spaces() {
    assert_eq!(chosen_kind("Person"), NodeKind::Person);
    assert_eq!(chosen_kind("Project"), NodeKind::Project);
    assert_eq!(chosen_kind("Source"), NodeKind::Note);
    let spaces = vec![space("a", "Team", SpaceRole::Reader), space("b", "Mine", SpaceRole::Owner)];
    assert!(!space_writable(&spaces, "a"));
    assert!(space_writable(&spaces, "b"));
    assert!(!space_writable(&spaces, "c"));
    assert_eq!(space_title(&spaces, Some("a")), "Team");
    assert_eq!(space_title(&spaces, Some("c")), "个人空间");
    assert_eq!(space_title(&spaces, None), "个人空间");
}

#[test]
fn notes_are_saved_when_writable_and_filled() {
    assert!(can_save_note(true, false, " text "));
    assert!(!can_save_note(true, false, "   "));
    assert!(!can_save_note(true, true, "text"));
    assert!(!can_save_note(false, false, "text"));
    assert_eq!(note_error("short"), None);
    assert_eq!(note_error(&"x".repeat(100_001)), Some("正文不能超过 100 KB"));
    assert_eq!(note_error(&"x".repeat(100_000)), None);
}
