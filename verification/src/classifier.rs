//! Chat intent: whether a message is a greeting, something to remember, a
//! lookup in memory, or a question for the model.
use crate::patterns::{captures_view, pattern_captures, pattern_matches, regex_captures, regex_is_match, CaptureView};
use crate::references::{contains_ref, has_ref, is_ref_at, remove_refs, strip_refs};
use crate::text::{
    ascii_lower, ascii_lower_chars, chars_of, has_char, is_prefix, str_eq, string_of, strip_end,
    strip_end_chars, strip_start, strip_start_chars, trim, trim_chars, trim_start, vec_has_char,
    vec_prefix,
};
use vstd::prelude::*;

verus! {

#[derive(Clone, Copy, Debug, PartialEq, Eq, Structural)]
pub enum ChatIntent {
    Greeting,
    Save,
    Recall,
    Model,
}

#[derive(Clone, Debug)]
pub struct Decision {
    pub intent: ChatIntent,
    pub query: String,
}

/// Words that ask for analysis, comparison, explanation or writing.
pub const COMPLEX_PATTERN: &'static str = r"(分析|比较|对比|总结|归纳|解释|为什么|为何|怎么|如何|建议|规划|设计|推理|翻译|生成|撰写|编写|\b(analy[sz]e|compare|summari[sz]e|explain|why|how|recommend|plan|write|translate)\b)";

/// An explicit request to remember something.
pub const SAVE_PATTERN: &'static str = r"^(?:请)?(?:帮我)?(?:记下|记住|记录|保存|备忘|收下)(?:来)?[\s:：，,][\s\S]+|[\s\S]+[，,。\s](?:请)?(?:帮我)?(?:记下|记住|保存|记录)(?:来)?[。!！]*$|^(?:remember|save|note)\s+[\s\S]+";

/// A short factual question about a subject.
pub const FACT_PATTERN: &'static str = r"^(.{2,80}?)(?:是什么|是啥|在哪里|在哪儿|在哪|是多少|是哪天|是什么时候)[？?。!！]*$";

/// Words that join several requests into one.
pub const COMPOUND_PATTERN: &'static str = r"然后|并且|顺便|以及|\band\b";

// ---------------------------------------------------------------- subjects

pub open spec fn lookup_prefixes() -> Seq<Seq<char>> {
    seq![
        "请"@,
        "帮我"@,
        "查找"@,
        "搜索"@,
        "检索"@,
        "查一下"@,
        "查下"@,
        "找一下"@,
        "找下"@,
        "找出"@,
        "查询"@,
        "查阅"@,
        "查看"@,
    ]
}

pub open spec fn english_prefixes() -> Seq<Seq<char>> {
    seq!["find"@, "search"@, "search for"@, "look up"@, "lookup"@, "show"@]
}

/// Separators dropped after a lookup word.
pub open spec fn lookup_separators() -> Seq<char> {
    seq![':', '：', ' ']
}

/// Punctuation dropped from the end of a subject.
pub open spec fn subject_end() -> Seq<char> {
    seq!['?', '？', '。', '!', '！']
}

/// The first lookup word, from position `k` of the list, that starts
/// `lower` and leaves something after it and its separators.
pub open spec fn lookup_rest(lower: Seq<char>, k: int) -> Option<Seq<char>>
    decreases lookup_prefixes().len() - k,
{
    if k < 0 || k >= lookup_prefixes().len() {
        None
    } else {
        let p = lookup_prefixes()[k];
        let rest = strip_start(lower.subrange(p.len() as int, lower.len() as int), lookup_separators());
        if is_prefix(p, lower) && rest.len() > 0 {
            Some(rest)
        } else {
            lookup_rest(lower, k + 1)
        }
    }
}

/// The same with the English lookup words, dropping whitespace after them.
pub open spec fn english_rest(lower: Seq<char>, k: int) -> Option<Seq<char>>
    decreases english_prefixes().len() - k,
{
    if k < 0 || k >= english_prefixes().len() {
        None
    } else {
        let p = english_prefixes()[k];
        let rest = trim_start(lower.subrange(p.len() as int, lower.len() as int));
        if is_prefix(p, lower) && rest.len() > 0 {
            Some(rest)
        } else {
            english_rest(lower, k + 1)
        }
    }
}

/// The first group of the first match, when there is one.
pub open spec fn first_group(matches: Option<Seq<CaptureView>>) -> Option<Seq<char>> {
    match matches {
        Some(ms) => if ms.len() > 0 && ms[0].len() > 1 {
            ms[0][1]
        } else {
            None
        },
        None => None,
    }
}

/// The subject a question names before it is cleaned: after a lookup
/// word, else the part before a "what is / where is" ending, which the
/// fact pattern's matches in the lowered question (`fact`) give.
pub open spec fn candidate_spec(question: Seq<char>, fact: Option<Seq<CaptureView>>) -> Option<
    Seq<char>,
> {
    let lower = ascii_lower(question);
    match lookup_rest(lower, 0) {
        Some(r) => Some(r),
        None => match english_rest(lower, 0) {
            Some(r) => Some(r),
            None => first_group(fact),
        },
    }
}

/// A subject trimmed and without closing punctuation.
pub open spec fn clean_spec(value: Seq<char>) -> Seq<char> {
    strip_end(trim(value), subject_end())
}

/// A cleaned subject is usable: not empty, a single clause, and not
/// joining several requests (`compound_hit`: whether the compound pattern
/// matches it).
pub open spec fn acceptable(value: Seq<char>, compound_hit: Option<bool>) -> bool {
    &&& value.len() > 0
    &&& !has_char(value, ',')
    &&& !has_char(value, '，')
    &&& !has_char(value, '。')
    &&& !has_char(value, '？')
    &&& !has_char(value, '?')
    &&& compound_hit != Some(true)
}

/// The subject of a lookup question, with the regular-expression results
/// it depends on taken from their names.
pub open spec fn subject_spec(question: Seq<char>) -> Option<Seq<char>> {
    match candidate_spec(question, regex_captures(FACT_PATTERN@, ascii_lower(question))) {
        None => None,
        Some(v) => {
            let c = clean_spec(v);
            if acceptable(c, regex_is_match(COMPOUND_PATTERN@, c)) {
                Some(c)
            } else {
                None
            }
        },
    }
}

fn lookup_prefix_list() -> (r: Vec<&'static str>)
    ensures
        r@.len() == lookup_prefixes().len(),
        forall|k: int| 0 <= k < r@.len() ==> (#[trigger] r@[k])@ == lookup_prefixes()[k],
{
    let r = vec![
        "请",
        "帮我",
        "查找",
        "搜索",
        "检索",
        "查一下",
        "查下",
        "找一下",
        "找下",
        "找出",
        "查询",
        "查阅",
        "查看",
    ];
    r
}

fn english_prefix_list() -> (r: Vec<&'static str>)
    ensures
        r@.len() == english_prefixes().len(),
        forall|k: int| 0 <= k < r@.len() ==> (#[trigger] r@[k])@ == english_prefixes()[k],
{
    vec!["find", "search", "search for", "look up", "lookup", "show"]
}

fn tail_from(s: &Vec<char>, a: usize) -> (r: Vec<char>)
    requires
        a <= s.len(),
    ensures
        r@ == s@.subrange(a as int, s@.len() as int),
{
    let mut t: Vec<char> = Vec::new();
    let mut i: usize = a;
    while i < s.len()
        invariant
            a <= i <= s.len(),
            t@ == s@.subrange(a as int, i as int),
        decreases s.len() - i,
    {
        t.push(s[i]);
        i = i + 1;
        proof {
            assert(t@ =~= s@.subrange(a as int, i as int));
        }
    }
    t
}

/// The subject named by a question, before cleaning. `fact` is what the
/// fact pattern finds in the lowered question.
pub fn subject_candidate(question: &str, fact: &Option<Vec<Vec<Option<String>>>>) -> (r: Option<
    String,
>)
    ensures
        match r {
            Some(v) => candidate_spec(question@, match fact {
                Some(f) => Some(captures_view(f@)),
                None => None,
            }) == Some(v@),
            None => candidate_spec(question@, match fact {
                Some(f) => Some(captures_view(f@)),
                None => None,
            }) is None,
        },
{
    let lower = ascii_lower_chars(&chars_of(question));
    let prefixes = lookup_prefix_list();
    let seps = vec![':', '：', ' '];
    proof {
        assert(seps@ =~= lookup_separators());
    }
    let mut k: usize = 0;
    while k < prefixes.len()
        invariant
            prefixes@.len() == lookup_prefixes().len(),
            forall|m: int| 0 <= m < prefixes@.len() ==> (#[trigger] prefixes@[m])@ == lookup_prefixes()[m],
            seps@ == lookup_separators(),
            lower@ == ascii_lower(question@),
            k <= prefixes.len(),
            lookup_rest(lower@, k as int) == lookup_rest(lower@, 0),
        decreases prefixes.len() - k,
    {
        let p = chars_of(prefixes[k]);
        if vec_prefix(&p, &lower) {
            let rest = strip_start_chars(&tail_from(&lower, p.len()), &seps);
            if rest.len() > 0 {
                proof {
                    assert(p@ == lookup_prefixes()[k as int]);
                    assert(lookup_rest(lower@, k as int) == Some(rest@));
                }
                return Some(string_of(rest.as_slice()));
            }
        }
        k = k + 1;
    }
    let english = english_prefix_list();
    let mut k: usize = 0;
    while k < english.len()
        invariant
            english@.len() == english_prefixes().len(),
            forall|m: int| 0 <= m < english@.len() ==> (#[trigger] english@[m])@ == english_prefixes()[m],
            k <= english.len(),
            lower@ == ascii_lower(question@),
            lookup_rest(lower@, 0) is None,
            english_rest(lower@, k as int) == english_rest(lower@, 0),
        decreases english.len() - k,
    {
        let p = chars_of(english[k]);
        if vec_prefix(&p, &lower) {
            let tail = string_of(tail_from(&lower, p.len()).as_slice());
            let rest = crate::text::trim_start_chars(tail.as_str());
            if rest.len() > 0 {
                proof {
                    assert(p@ == english_prefixes()[k as int]);
                    assert(english_rest(lower@, k as int) == Some(rest@));
                }
                return Some(string_of(rest.as_slice()));
            }
        }
        k = k + 1;
    }
    match fact {
        Some(ms) => {
            if ms.len() > 0 && ms[0].len() > 1 {
                match &ms[0][1] {
                    Some(g) => Some(g.clone()),
                    None => None,
                }
            } else {
                None
            }
        },
        None => None,
    }
}

/// A subject trimmed and without closing punctuation.
pub fn clean_subject(value: &str) -> (r: String)
    ensures
        r@ == clean_spec(value@),
{
    let ends = vec!['?', '？', '。', '!', '！'];
    proof {
        assert(ends@ =~= subject_end());
    }
    let t = trim_chars(&chars_of(value));
    string_of(strip_end_chars(&t, &ends).as_slice())
}

/// Whether a cleaned subject is usable; `compound_hit` is whether the
/// compound pattern matches it.
pub fn accept_subject(value: &str, compound_hit: Option<bool>) -> (r: bool)
    ensures
        r == acceptable(value@, compound_hit),
{
    let c = chars_of(value);
    c.len() > 0 && !vec_has_char(&c, ',') && !vec_has_char(&c, '，') && !vec_has_char(&c, '。')
        && !vec_has_char(&c, '？') && !vec_has_char(&c, '?') && !matches!(compound_hit, Some(true))
}

/// The subject of a lookup question: after a lookup word, or before a
/// "what is / where is" ending; `None` when there is none or it is not a
/// single plain subject.
pub fn lookup_subject(question: &str) -> (r: Option<String>)
    ensures
        match r {
            Some(v) => subject_spec(question@) == Some(v@),
            None => subject_spec(question@) is None,
        },
{
    let lower = crate::text::ascii_lower_str(question);
    let fact = pattern_captures(FACT_PATTERN, lower.as_str());
    match subject_candidate(question, &fact) {
        None => None,
        Some(v) => {
            let c = clean_subject(v.as_str());
            let compound = pattern_matches(COMPOUND_PATTERN, c.as_str());
            if accept_subject(c.as_str(), compound) {
                Some(c)
            } else {
                None
            }
        },
    }
}

// ---------------------------------------------------------------- decision

/// Characters a greeting may end with.
pub open spec fn greeting_end() -> Seq<char> {
    seq!['!', '！', '?', '？', '.', '。', '~', '～']
}

pub open spec fn is_greeting(g: Seq<char>) -> bool {
    ||| g == "hi"@
    ||| g == "hello"@
    ||| g == "hey"@
    ||| g == "你好"@
    ||| g == "您好"@
    ||| g == "嗨"@
    ||| g == "哈喽"@
    ||| g == "在吗"@
    ||| g == "早上好"@
    ||| g == "下午好"@
    ||| g == "晚上好"@
}

/// The message without references, trimmed.
pub open spec fn question_of(text: Seq<char>) -> Seq<char> {
    trim(strip_refs(text))
}

/// A lookup is considered only for a single short line without
/// references.
pub open spec fn lookup_allowed(text: Seq<char>, question: Seq<char>) -> bool {
    &&& !has_ref(text)
    &&& !has_char(question, '\n')
    &&& !has_char(question, ';')
    &&& !has_char(question, '；')
    &&& question.len() <= 180
}

pub open spec fn looks_structured(question: Seq<char>) -> bool {
    is_prefix(seq!['{'], trim_start(question)) || is_prefix(seq!['['], trim_start(question))
}

/// The decision for a message given the outside results it depends on:
/// whether the complex pattern matches the lowered question, the lookup
/// subject, and whether the save pattern matches the lowered question.
pub open spec fn decide_spec(
    sanitized: Seq<char>,
    complex_hit: Option<bool>,
    subject: Option<Seq<char>>,
    save_hit: Option<bool>,
) -> (ChatIntent, Seq<char>) {
    let text = trim(sanitized);
    let q = question_of(text);
    if is_greeting(ascii_lower(strip_end(text, greeting_end()))) {
        (ChatIntent::Greeting, text)
    } else if complex_hit == Some(true) {
        (ChatIntent::Model, q)
    } else if lookup_allowed(text, q) && subject is Some {
        (ChatIntent::Recall, subject.unwrap())
    } else if save_hit == Some(true) || looks_structured(q) || (has_ref(text) && !has_char(q, '?')
        && !has_char(q, '？')) {
        (ChatIntent::Save, q)
    } else {
        (ChatIntent::Model, q)
    }
}

/// The decision for a message, with the patterns' results taken from
/// their names.
pub open spec fn classify_spec(sanitized: Seq<char>) -> (ChatIntent, Seq<char>) {
    let q = question_of(trim(sanitized));
    let comparable = ascii_lower(q);
    decide_spec(
        sanitized,
        regex_is_match(COMPLEX_PATTERN@, comparable),
        subject_spec(q),
        regex_is_match(SAVE_PATTERN@, comparable),
    )
}

/// Stripping trailing characters of a set never reaches past a character
/// outside the set.
proof fn lemma_strip_end_keeps(s: Seq<char>, set: Seq<char>, n: int)
    requires
        0 < n <= s.len(),
        !set.contains(s[n - 1]),
    ensures
        strip_end(s, set).len() >= n,
    decreases s.len(),
{
    if s.len() > 0 && set.contains(s.last()) {
        assert(n < s.len());
        assert(s.drop_last()[n - 1] == s[n - 1]);
        lemma_strip_end_keeps(s.drop_last(), set, n);
    }
}

/// Greeting words are short.
proof fn lemma_greeting_short(g: Seq<char>)
    requires
        is_greeting(g),
    ensures
        g.len() <= 5,
{
    reveal_strlit("hi");
    reveal_strlit("hello");
    reveal_strlit("hey");
    reveal_strlit("你好");
    reveal_strlit("您好");
    reveal_strlit("嗨");
    reveal_strlit("哈喽");
    reveal_strlit("在吗");
    reveal_strlit("早上好");
    reveal_strlit("下午好");
    reveal_strlit("晚上好");
}

/// A message whose trimmed text holds a secret reference is never taken as
/// a greeting or a lookup; unless the complex pattern matches it or its
/// question asks something (`?`), it is saved.
pub proof fn lemma_references_are_never_looked_up(sanitized: Seq<char>)
    requires
        has_ref(trim(sanitized)),
    ensures
        !(classify_spec(sanitized).0 is Greeting),
        !(classify_spec(sanitized).0 is Recall),
        ({
            let q = question_of(trim(sanitized));
            regex_is_match(COMPLEX_PATTERN@, ascii_lower(q)) != Some(true) && !has_char(q, '?') && !has_char(
                q,
                '？',
            ) ==> classify_spec(sanitized).0 is Save
        }),
{
    let text = trim(sanitized);
    let q = choose|q: int| is_ref_at(text, q);
    assert(is_ref_at(text, q));
    assert(text[q + 42] == ']');
    assert(!greeting_end().contains(']')) by {
        if greeting_end().contains(']') {
            let k = choose|k: int| 0 <= k < greeting_end().len() && greeting_end()[k] == ']';
            assert(greeting_end()[k] != ']');
        }
    }
    lemma_strip_end_keeps(text, greeting_end(), q + 43);
    let g = ascii_lower(strip_end(text, greeting_end()));
    assert(g.len() >= 43);
    if is_greeting(g) {
        lemma_greeting_short(g);
    }
}

fn greeting_word(g: &str) -> (r: bool)
    ensures
        r == is_greeting(g@),
{
    str_eq(g, "hi") || str_eq(g, "hello") || str_eq(g, "hey") || str_eq(g, "你好") || str_eq(g, "您好")
        || str_eq(g, "嗨") || str_eq(g, "哈喽") || str_eq(g, "在吗") || str_eq(g, "早上好") || str_eq(
        g,
        "下午好",
    ) || str_eq(g, "晚上好")
}

/// Classifies a message given the outside results it depends on (see
/// `decide_spec`).
pub fn classify_with(
    sanitized: &str,
    complex_hit: Option<bool>,
    subject: Option<String>,
    save_hit: Option<bool>,
) -> (r: Decision)
    ensures
        (r.intent, r.query@) == decide_spec(
            sanitized@,
            complex_hit,
            match subject {
                Some(s) => Some(s@),
                None => None,
            },
            save_hit,
        ),
{
    let text = trim_chars(&chars_of(sanitized));
    let ends = vec!['!', '！', '?', '？', '.', '。', '~', '～'];
    proof {
        assert(ends@ =~= greeting_end());
    }
    let greeting = string_of(ascii_lower_chars(&strip_end_chars(&text, &ends)).as_slice());
    if greeting_word(greeting.as_str()) {
        return Decision { intent: ChatIntent::Greeting, query: string_of(text.as_slice()) };
    }
    let qc = trim_chars(&remove_refs(&text));
    let question = string_of(qc.as_slice());
    if matches!(complex_hit, Some(true)) {
        return Decision { intent: ChatIntent::Model, query: question };
    }
    let with_ref = contains_ref(&text);
    if !with_ref && !vec_has_char(&qc, '\n') && !vec_has_char(&qc, ';') && !vec_has_char(&qc, '；')
        && qc.len() <= 180 {
        if let Some(s) = subject {
            return Decision { intent: ChatIntent::Recall, query: s };
        }
    }
    let start = crate::text::trim_start_chars(question.as_str());
    let structured = start.len() > 0 && (start[0] == '{' || start[0] == '[');
    proof {
        let st = trim_start(question@);
        assert(is_prefix(seq!['{'], st) <==> (st.len() > 0 && st[0] == '{')) by {
            if st.len() > 0 && st[0] == '{' {
                assert(st.subrange(0, 1) =~= seq!['{']);
            }
            if is_prefix(seq!['{'], st) {
                assert(st.subrange(0, 1)[0] == st[0]);
            }
        }
        assert(is_prefix(seq!['['], st) <==> (st.len() > 0 && st[0] == '[')) by {
            if st.len() > 0 && st[0] == '[' {
                assert(st.subrange(0, 1) =~= seq!['[']);
            }
            if is_prefix(seq!['['], st) {
                assert(st.subrange(0, 1)[0] == st[0]);
            }
        }
    }
    if matches!(save_hit, Some(true)) || structured || (with_ref && !vec_has_char(&qc, '?')
        && !vec_has_char(&qc, '？')) {
        return Decision { intent: ChatIntent::Save, query: question };
    }
    Decision { intent: ChatIntent::Model, query: question }
}

/// Decides what a chat message asks for. Greetings are answered directly;
/// analysis words go to the model; a short lookup question recalls its
/// subject from memory; an explicit request to remember, structured data
/// or a message made of references is saved; anything else goes to the
/// model.
pub fn classify(sanitized: &str) -> (r: Decision)
    ensures
        (r.intent, r.query@) == classify_spec(sanitized@),
{
    let text = trim_chars(&chars_of(sanitized));
    let question = string_of(trim_chars(&remove_refs(&text)).as_slice());
    let comparable = crate::text::ascii_lower_str(question.as_str());
    let complex_hit = pattern_matches(COMPLEX_PATTERN, comparable.as_str());
    let subject = lookup_subject(question.as_str());
    let save_hit = pattern_matches(SAVE_PATTERN, comparable.as_str());
    classify_with(sanitized, complex_hit, subject, save_hit)
}

/// Greetings: a message is answered as a greeting, with its trimmed text
/// as query, exactly when that text, with trailing `!！?？.。~～` removed
/// and ASCII-lowercased, is one of hi, hello, hey, 你好, 您好, 嗨, 哈喽,
/// 在吗, 早上好, 下午好, 晚上好.
pub proof fn lemma_greetings_are_answered(sanitized: Seq<char>)
    ensures
        ({
            let text = trim(sanitized);
            let g = ascii_lower(strip_end(text, seq!['!', '！', '?', '？', '.', '。', '~', '～']));
            let words = seq![
                "hi"@,
                "hello"@,
                "hey"@,
                "你好"@,
                "您好"@,
                "嗨"@,
                "哈喽"@,
                "在吗"@,
                "早上好"@,
                "下午好"@,
                "晚上好"@,
            ];
            &&& words.contains(g) ==> classify_spec(sanitized) == (ChatIntent::Greeting, text)
            &&& classify_spec(sanitized).0 is Greeting ==> words.contains(g)
        }),
{
    let text = trim(sanitized);
    let ends = seq!['!', '！', '?', '？', '.', '。', '~', '～'];
    assert(ends =~= greeting_end());
    let g = ascii_lower(strip_end(text, ends));
    let words = seq![
        "hi"@,
        "hello"@,
        "hey"@,
        "你好"@,
        "您好"@,
        "嗨"@,
        "哈喽"@,
        "在吗"@,
        "早上好"@,
        "下午好"@,
        "晚上好"@,
    ];
    if words.contains(g) {
        let i = choose|i: int| 0 <= i < words.len() && words[i] == g;
        assert(is_greeting(g));
    }
    if is_greeting(g) {
        if g == "hi"@ { assert(words[0] == g); }
        else if g == "hello"@ { assert(words[1] == g); }
        else if g == "hey"@ { assert(words[2] == g); }
        else if g == "你好"@ { assert(words[3] == g); }
        else if g == "您好"@ { assert(words[4] == g); }
        else if g == "嗨"@ { assert(words[5] == g); }
        else if g == "哈喽"@ { assert(words[6] == g); }
        else if g == "在吗"@ { assert(words[7] == g); }
        else if g == "早上好"@ { assert(words[8] == g); }
        else if g == "下午好"@ { assert(words[9] == g); }
        else { assert(words[10] == g); }
    }
}

} // verus!
