use az_memory::model::{ActivationRequest, ContextRequest, MemoryEdge, MemoryNode, NodeKind, RecallRequest};
use az_memory::retrieval::{
    activation_graph, check_activation, check_context, check_recall, expand_context, focus_ids, header_chars,
    merge_overview, rank_recall, recall_graph, recall_terms, score_node, search_graph, without_content,
    ContextDraft,
};

fn node(id: &str, title: &str, aliases: &[&str]) -> MemoryNode {
    MemoryNode {
        id: id.into(),
        title: title.into(),
        kind: NodeKind::Note,
        content: format!("content of {title}"),
        url: String::new(),
        tags: Vec::new(),
        version: 1,
        updated_at: 0,
        aliases: aliases.iter().map(|a| a.to_string()).collect(),
    }
}

fn edge(source: &str, target: &str) -> MemoryEdge {
    MemoryEdge { id: format!("{source}-{target}"), source: source.into(), target: target.into(), relation: "关联".into(), evidence: "e".into() }
}

#[test]
fn terms_are_words_and_ideograph_pairs() {
    assert_eq!(recall_terms("Aurora project"), vec!["Aurora", "project"]);
    assert_eq!(recall_terms("项目计划"), vec!["目计", "计划", "项目", "项目计划"]);
    assert!(recall_terms("密码 token a").is_empty());
    let many = recall_terms("aa bb cc dd ee ff gg hh ii jj kk ll mm nn");
    assert_eq!(many.len(), 12);
    assert_eq!(many[0], "aa");
    assert_eq!(recall_terms("x-ray ok"), vec!["ok", "ray"]);
}

#[test]
fn recall_requests_are_checked() {
    let req = |q: &str, limit: usize, ex: Vec<String>| RecallRequest { query: q.into(), limit, exclude_ids: ex };
    assert!(check_recall(&req("q", 1, Vec::new())).is_ok());
    assert!(check_recall(&req("q", 0, Vec::new())).is_err());
    assert!(check_recall(&req("q", 25, Vec::new())).is_err());
    assert!(check_recall(&req("q", 4, vec!["bad".into()])).is_err());
    assert!(check_recall(&req("q", 4, vec!["0123456789abcdef0123456789abcdef".into()])).is_ok());
}

#[test]
fn scores_prefer_exact_titles_then_matching_terms() {
    assert_eq!(score_node(&node("1", "Aurora", &[]), "aurora", "aurora"), 12);
    assert_eq!(score_node(&node("1", "x", &["AURORA"]), "aurora", "zz"), 12);
    assert_eq!(score_node(&node("1", "Aurora Borealis", &[]), "what is aurora", "aurora"), 3);
    assert_eq!(score_node(&node("1", "Sky", &["Aurora lights"]), "what", "AURORA"), 3);
    assert_eq!(score_node(&node("1", "Sky", &[]), "what", "aurora"), 1);
}

#[test]
fn recalled_notes_rank_by_total_score_then_id() {
    let terms = vec!["aurora".to_string(), "borealis".to_string()];
    let results = vec![
        vec![node("b", "Aurora", &[]), node("a", "Misc", &[]), node("x", "Excluded", &[])],
        vec![node("a", "Misc updated", &[]), node("c", "Borealis", &[])],
    ];
    let (ranked, total) = rank_recall("aurora", &terms, &results, &vec!["x".to_string()], 2);
    assert_eq!(total, 3);
    let ids: Vec<&str> = ranked.iter().map(|n| n.id.as_str()).collect();
    assert_eq!(ids, vec!["b", "c"]);
    let (all, _) = rank_recall("aurora", &terms, &results, &Vec::new(), 24);
    let ids: Vec<&str> = all.iter().map(|n| n.id.as_str()).collect();
    assert_eq!(ids, vec!["b", "c", "a", "x"]);
    assert_eq!(all[2].title, "Misc updated");
    let graph = recall_graph(ranked, Vec::new(), total);
    assert!(graph.truncated);
    assert_eq!(graph.total, 3);
}

#[test]
fn context_requests_are_checked() {
    let req = |n: usize, depth: usize, max: usize| ContextRequest { node_ids: vec!["a".to_string(); n], depth, max_characters: max };
    assert!(check_context(&req(1, 0, 1000)).is_ok());
    assert!(check_context(&req(0, 0, 1000)).is_err());
    assert!(check_context(&req(25, 0, 1000)).is_err());
    assert!(check_context(&req(1, 4, 1000)).is_err());
    assert!(check_context(&req(1, 1, 999)).is_err());
    assert!(check_context(&req(1, 1, 48_001)).is_err());
}

#[test]
fn context_expansion_keeps_the_least_24_ids() {
    let ids = vec!["m".to_string(), "a".to_string()];
    let (next, cut) = expand_context(&ids, &vec![edge("a", "b"), edge("z", "m")]);
    assert_eq!(next, vec!["a", "b", "m", "z"]);
    assert!(!cut);
    let many: Vec<String> = (0..30).map(|i| format!("{i:02}")).collect();
    let (next, cut) = expand_context(&many, &Vec::new());
    assert_eq!(next.len(), 24);
    assert_eq!(next[23], "23");
    assert!(cut);
}

#[test]
fn contexts_stay_within_their_budget() {
    let mut n = node("0123456789abcdef0123456789abcdef", "Title\nsecond", &["a1", "a2"]);
    n.url = "https://example.com/note".into();
    let header: String = header_chars(&n).into_iter().collect();
    assert_eq!(header, "## Title second\n- ID: 0123456789abcdef0123456789abcdef\n- 类型: 笔记\n- 别名: a1, a2\n- 来源: https://example.com/note\n\n");
    let mut draft = ContextDraft::start(1000, false);
    assert!(draft.included().is_empty());
    assert!(draft.add_node(&n));
    assert_eq!(draft.included(), vec!["0123456789abcdef0123456789abcdef"]);
    let result = draft.finish(&vec![edge("0123456789abcdef0123456789abcdef", "fedcba9876543210fedcba9876543210")]);
    assert!(result.markdown.starts_with("# Memory context\n\n"));
    assert!(result.markdown.contains("https://example.com/note"));
    assert!(result.markdown.contains("### 关系\n- [0123456789abcdef0123456789abcdef] --关联--> [fedcba9876543210fedcba9876543210] e\n"));
    assert!(!result.truncated);
    assert_eq!(result.node_ids, vec!["0123456789abcdef0123456789abcdef"]);

    let mut big = node("b", "Big", &[]);
    big.content = "x".repeat(5000);
    let mut draft = ContextDraft::start(1000, false);
    assert!(!draft.add_node(&big));
    let result = draft.finish(&vec![edge("b", "c"); 30]);
    assert!(result.truncated);
    assert!(result.markdown.chars().count() <= 1000);
    assert!(result.markdown.ends_with("\n[上下文已截断]\n"));

    let cut = ContextDraft::start(1000, true).finish(&Vec::new());
    assert!(cut.truncated);
    assert!(cut.node_ids.is_empty());
    assert!(cut.markdown.ends_with("\n[上下文已截断]\n"));
}

#[test]
fn activation_focuses_and_fills_up_to_120() {
    assert!(check_activation(&ActivationRequest { node_ids: vec![String::new(); 24] }).is_ok());
    assert!(check_activation(&ActivationRequest { node_ids: vec![String::new(); 25] }).is_err());
    let focus = focus_ids(&vec!["s".to_string()], &vec![edge("s", "t"), edge("u", "s")]);
    assert_eq!(focus, vec!["s", "t", "u"]);
    let cleared = without_content(&node("a", "A", &[]));
    assert!(cleared.content.is_empty());
    let overview: Vec<MemoryNode> = (0..200).map(|i| node(&format!("o{i}"), "O", &[])).collect();
    let merged = merge_overview(vec![cleared, without_content(&node("o0", "dup", &[]))], &overview);
    assert_eq!(merged.len(), 120);
    assert_eq!(merged[1].title, "dup");
    assert_eq!(merged[2].id, "o1");
    assert!(merged[2].content.is_empty());
    let g = activation_graph(merged, vec![edge("a", "b"); 801], -5, false, 0, 3);
    assert_eq!(g.edges.len(), 800);
    assert_eq!(g.total, 0);
    assert!(g.truncated);
    let g = search_graph(vec![node("a", "A", &[])], vec![edge("a", "a")], 1);
    assert!(!g.truncated);
    assert_eq!(g.edges.len(), 1);
}

#[test]
fn recall_terms_are_sorted_bounded_and_free_of_stop_words() {
    let stop = ["帮我", "一下", "找下", "记下", "密码", "什么", "我的", "怎么", "这个", "是啥", "secret", "password", "username", "token"];
    let terms = recall_terms("帮我找下我的 Wi-Fi 密码是什么 token router-admin 北京办公室");
    assert!(terms.len() <= 12);
    assert!(terms.windows(2).all(|w| w[0] < w[1]));
    for t in &terms {
        assert!(!stop.contains(&t.as_str()));
        let n = t.chars().count();
        assert!((2..=80).contains(&n));
        assert!(t.chars().all(|c| c.is_ascii_alphanumeric() || ('\u{4e00}'..='\u{9fff}').contains(&c)));
    }
}
