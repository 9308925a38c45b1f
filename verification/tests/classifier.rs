use az_memory::classifier::{accept_subject, classify, classify_with, clean_subject, lookup_subject, subject_candidate, ChatIntent};

#[test]
fn classifies_greeting_lookup_save_and_model() {
    assert_eq!(classify("你好").intent, ChatIntent::Greeting);
    assert_eq!(classify("查找 Aurora").intent, ChatIntent::Recall);
    assert_eq!(classify("项目是什么").intent, ChatIntent::Recall);
    assert_eq!(classify("记住 明天开会").intent, ChatIntent::Save);
    assert_eq!(classify("分析一下资料").intent, ChatIntent::Model);
}

#[test]
fn lookup_subjects_are_cleaned() {
    assert_eq!(lookup_subject("查找 Aurora").as_deref(), Some("aurora"));
    assert_eq!(lookup_subject("项目是什么").as_deref(), Some("项目"));
    assert_eq!(lookup_subject("search   nebula?"), Some("nebula".to_string()));
    assert_eq!(lookup_subject("查找 a，b"), None);
    assert_eq!(lookup_subject("find x and y"), None);
    assert_eq!(clean_subject("  nebula？！ "), "nebula");
    assert!(accept_subject("nebula", Some(false)));
    assert!(!accept_subject("nebula", Some(true)));
    assert!(!accept_subject("", None));
}

#[test]
fn candidates_come_from_lookup_words_before_facts() {
    let fact = Some(vec![vec![Some("门牌是什么".to_string()), Some("门牌".to_string())]]);
    assert_eq!(subject_candidate("门牌是什么", &fact).as_deref(), Some("门牌"));
    assert_eq!(subject_candidate("请：门牌", &fact).as_deref(), Some("门牌"));
    assert_eq!(subject_candidate("hello", &None), None);
}

#[test]
fn decisions_follow_the_pattern_results() {
    assert_eq!(classify_with("Hello!!", None, None, None).intent, ChatIntent::Greeting);
    assert_eq!(classify_with("Hello!!", None, None, None).query, "Hello!!");
    let m = classify_with(" plan it ", Some(true), Some("x".into()), Some(true));
    assert_eq!(m.intent, ChatIntent::Model);
    assert_eq!(m.query, "plan it");
    let r = classify_with("where", Some(false), Some("office".into()), Some(true));
    assert_eq!(r.intent, ChatIntent::Recall);
    assert_eq!(r.query, "office");
    assert_eq!(classify_with("{\"a\":1}", None, None, None).intent, ChatIntent::Save);
    let reference = "[[secret:0123456789abcdef0123456789abcdef]]";
    let s = classify_with(&format!("wifi {reference}"), None, Some("x".into()), None);
    assert_eq!(s.intent, ChatIntent::Save);
    assert_eq!(s.query, "wifi");
    assert_eq!(classify_with(&format!("wifi? {reference}"), None, None, None).intent, ChatIntent::Model);
    assert_eq!(classify_with("random words", Some(false), None, Some(false)).intent, ChatIntent::Model);
}

#[test]
fn messages_holding_references_are_never_greetings_or_lookups() {
    let reference = format!("[[secret:{}]]", "a".repeat(32));
    let bare = classify(&reference);
    assert_eq!(bare.intent, ChatIntent::Save);
    assert_eq!(bare.query, "");
    let greeting = classify(&format!("你好 {reference}"));
    assert_eq!(greeting.intent, ChatIntent::Save);
    assert_eq!(greeting.query, "你好");
    let lookup = classify(&format!("查找 Wi-Fi {reference}"));
    assert_ne!(lookup.intent, ChatIntent::Recall);
    let asked = classify(&format!("{reference} 这是什么？"));
    assert_ne!(asked.intent, ChatIntent::Recall);
    assert_ne!(asked.intent, ChatIntent::Greeting);
}
