use az_memory::access::MemoryError;
use az_memory::context::MemoryContext;
use az_memory::model::{CompilationResult, EntryProposal, NodeDraft, NodeKind, RelationProposal};
use az_memory::queue::{
    apply_review, author_type, binding_ready, check_proposal_text, check_quota, check_relations, check_task_access,
    check_person, check_task_ids, check_worker, entry_draft, evidence_edge, failure_plan, lease_deadline, relation_edge, replay_check,
    select_existing, ReviewProgress,
};

const A: &str = "0123456789abcdef0123456789abcdef";
const B: &str = "fedcba9876543210fedcba9876543210";

fn draft(title: &str, kind: NodeKind) -> NodeDraft {
    NodeDraft { title: title.into(), kind, content: "c".into(), url: String::new(), tags: Vec::new(), version: None, aliases: Vec::new() }
}

fn entry(title: &str, existing: Option<&str>, base: Option<i64>) -> EntryProposal {
    EntryProposal { draft: draft(title, NodeKind::Note), existing_id: existing.map(String::from), base_version: base, secret_ids: Vec::new() }
}

fn result(entries: Vec<EntryProposal>, relations: Vec<RelationProposal>) -> CompilationResult {
    CompilationResult { entries, relations, needs_review: false }
}

#[test]
fn failures_reschedule_with_growing_delays() {
    let p = failure_plan(1, "model_unavailable", 1_000);
    assert_eq!((p.state.as_str(), p.attempts, p.error.as_str(), p.available_at), ("pending", 1, "模型暂不可用，等待重试", 11_000));
    let p = failure_plan(3, "invalid_result", 0);
    assert_eq!((p.state.as_str(), p.attempts, p.error.as_str(), p.available_at), ("pending", 3, "模型整理结果无效", 120_000));
    let p = failure_plan(5, "timeout", 0);
    assert_eq!((p.state.as_str(), p.available_at), ("failed", 900_000));
    let p = failure_plan(5, "cancelled", 0);
    assert_eq!((p.state.as_str(), p.attempts, p.error.as_str()), ("pending", 4, "整理已中断，等待重试"));
    let p = failure_plan(0, "cancelled", 0);
    assert_eq!((p.attempts, p.available_at), (0, 10_000));
    assert_eq!(failure_plan(2, "x", 0).available_at, 30_000);
    assert_eq!(failure_plan(4, "x", 0).available_at, 300_000);
}

#[test]
fn claims_need_a_model_and_lease_three_minutes() {
    assert!(!binding_ready(&None));
    assert!(!binding_ready(&Some(String::new())));
    assert!(binding_ready(&Some("gpt".into())));
    assert_eq!(lease_deadline(5), 180_005);
}

#[test]
fn existing_notes_skip_the_task_sources_and_repeats() {
    let mut candidates = vec![
        (A.to_string(), NodeKind::Note),
        ("s".to_string(), NodeKind::Source),
        ("n1".to_string(), NodeKind::Concept),
        ("n1".to_string(), NodeKind::Concept),
        ("n2".to_string(), NodeKind::Note),
    ];
    assert_eq!(select_existing(A, &candidates), vec!["n1", "n2"]);
    for i in 0..40 {
        candidates.push((format!("m{i}"), NodeKind::Note));
    }
    let picked = select_existing(A, &candidates);
    assert_eq!(picked.len(), 24);
    assert_eq!(picked[2], "m0");
}

#[test]
fn leases_belong_to_their_worker() {
    let me = Some("worker".to_string());
    assert!(check_task_access(true, &me, "worker", "running", 100, 50).is_ok());
    assert!(matches!(check_task_access(false, &me, "worker", "running", 100, 50), Err(MemoryError::Access)));
    assert!(matches!(check_task_access(true, &me, "other", "running", 100, 50), Err(MemoryError::Access)));
    assert!(matches!(check_task_access(true, &me, "worker", "running", 100, 100), Err(MemoryError::Stale)));
    assert!(matches!(check_task_access(true, &me, "worker", "pending", 100, 50), Err(MemoryError::Stale)));
    assert!(check_task_access(true, &me, "worker", "complete", 0, 50).is_ok());
    assert!(check_task_ids(A, B).is_ok());
    assert!(check_task_ids(A, "short").is_err());
}

#[test]
fn repeated_submissions_must_match() {
    let r = result(vec![entry("a", None, None)], Vec::new());
    assert_eq!(replay_check("running", &None, &r).unwrap(), false);
    assert_eq!(replay_check("complete", &Some(r.clone()), &r).unwrap(), true);
    let other = result(vec![entry("b", None, None)], Vec::new());
    assert!(matches!(replay_check("conflict", &Some(r.clone()), &other), Err(MemoryError::Stale)));
    assert!(matches!(replay_check("complete", &None, &r), Err(MemoryError::Stale)));
}

#[test]
fn reviews_fix_the_versions_seen() {
    let r = result(vec![entry("a", Some(A), Some(1)), entry("b", None, Some(7))], Vec::new());
    let reviewed = apply_review(&r, &vec![(A.to_string(), 3), (A.to_string(), 4)]).unwrap();
    assert_eq!(reviewed.entries[0].base_version, Some(4));
    assert_eq!(reviewed.entries[1].base_version, Some(7));
    match apply_review(&r, &vec![(B.to_string(), 1)]) {
        Err(MemoryError::Input(m)) => assert_eq!(m, "审核必须携带已查看的当前版本"),
        other => panic!("unexpected {:?}", other.is_ok()),
    }
}

#[test]
fn proposals_stay_within_quota_and_reference_rules() {
    assert!(check_quota(&result(vec![entry("a", None, None); 24], Vec::new())).is_ok());
    assert!(check_quota(&result(vec![entry("a", None, None); 25], Vec::new())).is_err());
    let rel = |s: usize, t: usize, name: &str| RelationProposal { source_index: s, target_index: t, relation: name.into(), evidence: String::new() };
    let two = vec![entry("a", None, None), entry("b", None, None)];
    assert!(check_relations(&result(two.clone(), vec![rel(0, 1, "属于")])).is_ok());
    assert!(check_relations(&result(two.clone(), vec![rel(0, 0, "属于")])).is_err());
    assert!(check_relations(&result(two.clone(), vec![rel(0, 2, "属于")])).is_err());
    assert!(check_relations(&result(two, vec![rel(0, 1, "  ")])).is_err());
    assert!(check_proposal_text("[]", "[]", &Vec::new()).is_ok());
    assert!(check_proposal_text("password: hunter22", "[]", &Vec::new()).is_err());
}

#[test]
fn entries_are_checked_in_order() {
    let allowed = vec![B.to_string()];
    let r = result(vec![entry("a", Some(A), Some(2))], Vec::new());
    let mut progress = ReviewProgress::start(&r, false);
    assert!(!progress.conflict);
    let task = "11111111111111111111111111111111";
    assert!(progress.check_entry(&r.entries[0], task, &allowed).is_ok());
    assert_eq!(progress.edited, vec![A]);
    assert!(progress.check_entry(&r.entries[0], task, &allowed).is_err());
    let mut with_secret = entry("b", None, None);
    with_secret.secret_ids = vec!["nope".into()];
    assert!(progress.check_entry(&with_secret, task, &allowed).is_err());
    let mut source = entry("c", None, None);
    source.draft.kind = NodeKind::Source;
    assert!(progress.check_entry(&source, task, &allowed).is_err());
    assert!(progress.check_current(&r.entries[0], NodeKind::Note, 2, false).is_ok());
    assert!(!progress.conflict);
    assert!(progress.check_current(&r.entries[0], NodeKind::Note, 3, false).is_ok());
    assert!(progress.conflict);
    assert!(matches!(progress.check_current(&r.entries[0], NodeKind::Note, 3, true), Err(MemoryError::Stale)));
    assert!(progress.check_current(&r.entries[0], NodeKind::Source, 2, false).is_err());
    let mut fresh = ReviewProgress::start(&CompilationResult { entries: Vec::new(), relations: Vec::new(), needs_review: true }, false);
    assert!(fresh.conflict);
    fresh.conflict = false;
    fresh.note_author("model");
    assert!(!fresh.conflict);
    fresh.note_author("human");
    assert!(fresh.conflict);
}

#[test]
fn applied_entries_save_at_their_base_version() {
    let e = entry("a", Some(A), Some(5));
    assert_eq!(entry_draft(&e).version, Some(5));
    assert_eq!(author_type(true), "human");
    assert_eq!(author_type(false), "model");
    let edge = evidence_edge(A, B);
    assert_eq!((edge.source.as_str(), edge.target.as_str(), edge.relation.as_str(), edge.evidence.as_str()), (A, B, "来源", "来自已净化的资料"));
    let ids = vec!["x".to_string(), "y".to_string()];
    let r = relation_edge(&ids, &RelationProposal { source_index: 1, target_index: 0, relation: "r".into(), evidence: "e".into() });
    assert_eq!((r.source.as_str(), r.target.as_str()), ("y", "x"));
}

#[test]
fn only_workers_run_tasks_and_only_people_settle_them() {
    let worker = MemoryContext { tenant_id: "t".into(), user_id: "w".into(), context_id: Some("service:agent".into()) };
    let person = MemoryContext { tenant_id: "t".into(), user_id: "u".into(), context_id: Some("browser".into()) };
    let anonymous = MemoryContext { tenant_id: "t".into(), user_id: "u".into(), context_id: None };
    assert!(check_worker(&worker).is_ok());
    assert!(matches!(check_worker(&person), Err(MemoryError::Access)));
    assert!(matches!(check_worker(&anonymous), Err(MemoryError::Access)));
    assert!(matches!(check_person(&worker), Err(MemoryError::Access)));
    assert!(check_person(&person).is_ok());
    assert!(check_person(&anonymous).is_ok());
}
