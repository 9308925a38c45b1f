//! Validation of node and edge drafts before they are stored, and the
//! storage names of node kinds.
use crate::access::{require_id, valid_id, MemoryError};
use crate::model::{EdgeDraft, NodeDraft, NodeKind};
use crate::text::{byte_len, byte_len_exceeds, chars_of, is_prefix, str_starts_with, trim, trim_chars, trim_str, vec_eq};
use vstd::prelude::*;

verus! {

/// The character views of a list of strings.
pub open spec fn views(v: Seq<String>) -> Seq<Seq<char>> {
    v.map_values(|s: String| s@)
}

/// The character views of a list of character vectors.
pub open spec fn vec_views(v: Seq<Vec<char>>) -> Seq<Seq<char>> {
    v.map_values(|s: Vec<char>| s@)
}

/// Trims each value and keeps the first occurrence of each trimmed value,
/// in input order.
pub open spec fn distinct_spec(s: Seq<Seq<char>>) -> Seq<Seq<char>>
    decreases s.len(),
{
    if s.len() == 0 {
        Seq::empty()
    } else {
        let prev = distinct_spec(s.drop_last());
        let t = trim(s.last());
        if prev.contains(t) {
            prev
        } else {
            prev.push(t)
        }
    }
}

/// No value occurs twice.
pub open spec fn no_duplicates(s: Seq<Seq<char>>) -> bool {
    forall|i: int, j: int| 0 <= i < j < s.len() ==> s[i] != s[j]
}

/// Every value is already trimmed.
pub open spec fn all_trimmed(s: Seq<Seq<char>>) -> bool {
    forall|i: int| 0 <= i < s.len() ==> trim(#[trigger] s[i]) == s[i]
}

pub proof fn lemma_distinct_props(s: Seq<Seq<char>>)
    ensures
        no_duplicates(distinct_spec(s)),
        all_trimmed(distinct_spec(s)),
        distinct_spec(s).len() <= s.len(),
        forall|t: Seq<char>| distinct_spec(s).contains(t) <==> exists|i: int|
            0 <= i < s.len() && trim(#[trigger] s[i]) == t,
    decreases s.len(),
{
    if s.len() > 0 {
        let p = s.drop_last();
        lemma_distinct_props(p);
        crate::text::lemma_trim_idempotent(s.last());
        let d = distinct_spec(s);
        let dp = distinct_spec(p);
        let tl = trim(s.last());
        assert forall|t: Seq<char>| d.contains(t) implies exists|i: int|
            0 <= i < s.len() && trim(#[trigger] s[i]) == t by {
            if dp.contains(t) {
                let i = choose|i: int| 0 <= i < p.len() && trim(#[trigger] p[i]) == t;
                assert(s[i] == p[i]);
                assert(trim(s[i]) == t);
            } else {
                let k = choose|k: int| 0 <= k < d.len() && d[k] == t;
                assert(d == dp.push(tl));
                assert(k == dp.len());
                assert(trim(s[s.len() - 1]) == t);
            }
        }
        assert forall|t: Seq<char>| (exists|i: int| 0 <= i < s.len() && trim(#[trigger] s[i]) == t)
            implies d.contains(t) by {
            let i = choose|i: int| 0 <= i < s.len() && trim(#[trigger] s[i]) == t;
            if i < s.len() - 1 {
                assert(p[i] == s[i]);
                assert(trim(p[i]) == t);
                assert(dp.contains(t));
                if !dp.contains(tl) {
                    let k = choose|k: int| 0 <= k < dp.len() && dp[k] == t;
                    assert(d[k] == t);
                }
            } else {
                if !dp.contains(tl) {
                    assert(d[d.len() - 1] == t);
                }
            }
        }
        if !dp.contains(tl) {
            assert forall|i: int| 0 <= i < d.len() implies trim(#[trigger] d[i]) == d[i] by {
                if i < dp.len() {
                    assert(d[i] == dp[i]);
                }
            }
            assert forall|i: int, j: int| 0 <= i < j < d.len() implies d[i] != d[j] by {
                if j == d.len() - 1 {
                    assert(d[i] == dp[i]);
                }
            }
        }
    }
}

/// Trimming and dropping repeats a second time changes nothing.
pub proof fn lemma_distinct_idempotent(s: Seq<Seq<char>>)
    ensures
        distinct_spec(distinct_spec(s)) == distinct_spec(s),
{
    lemma_distinct_props(s);
    lemma_distinct_of_clean(distinct_spec(s));
}

/// A list of distinct trimmed values is its own `distinct`.
pub proof fn lemma_distinct_of_clean(s: Seq<Seq<char>>)
    requires
        no_duplicates(s),
        all_trimmed(s),
    ensures
        distinct_spec(s) == s,
    decreases s.len(),
{
    if s.len() > 0 {
        let p = s.drop_last();
        assert(no_duplicates(p));
        assert(all_trimmed(p));
        lemma_distinct_of_clean(p);
        assert(trim(s.last()) == s.last());
        if p.contains(s.last()) {
            let k = choose|k: int| 0 <= k < p.len() && p[k] == s.last();
            assert(s[k] == s[s.len() - 1]);
        }
        assert(p.push(s.last()) =~= s);
    }
}

fn seen_contains(seen: &Vec<Vec<char>>, t: &Vec<char>) -> (r: bool)
    ensures
        r == vec_views(seen@).contains(t@),
{
    let ghost sv = vec_views(seen@);
    let mut i: usize = 0;
    while i < seen.len()
        invariant
            sv == vec_views(seen@),
            i <= seen.len(),
            forall|k: int| 0 <= k < i ==> sv[k] != t@,
        decreases seen.len() - i,
    {
        if vec_eq(&seen[i], t) {
            assert(sv[i as int] == t@);
            return true;
        }
        i = i + 1;
    }
    false
}

/// Trims every value and drops later repeats of a trimmed value.
pub fn distinct(values: Vec<String>) -> (r: Vec<String>)
    ensures
        views(r@) == distinct_spec(views(values@)),
{
    let mut seen: Vec<Vec<char>> = Vec::new();
    let mut out: Vec<String> = Vec::new();
    let mut i: usize = 0;
    while i < values.len()
        invariant
            i <= values.len(),
            views(out@) == distinct_spec(views(values@).take(i as int)),
            vec_views(seen@) == views(out@),
        decreases values.len() - i,
    {
        let c = chars_of(values[i].as_str());
        let t = trim_chars(&c);
        let ghost before = views(values@).take(i as int);
        let ghost after = views(values@).take(i + 1);
        proof {
            assert(after.drop_last() =~= before);
            assert(after.last() == values@[i as int]@);
        }
        if !seen_contains(&seen, &t) {
            let s = crate::text::string_of(t.as_slice());
            let ghost old_seen = seen@;
            let ghost old_out = out@;
            proof {
                assert(vec_views(old_seen).len() == old_seen.len());
                assert(views(old_out).len() == old_out.len());
            }
            out.push(s);
            seen.push(t);
            proof {
                assert(vec_views(seen@).len() == seen@.len());
                assert(views(out@).len() == out@.len());
                assert forall|k: int| 0 <= k < seen@.len() implies vec_views(seen@)[k] == views(out@)[k] by {
                    if k < old_seen.len() {
                        assert(seen@[k] == old_seen[k]);
                        assert(out@[k] == old_out[k]);
                        assert(vec_views(old_seen)[k] == views(old_out)[k]);
                    }
                }
                assert(views(out@) =~= views(out@).drop_last().push(t@));
                assert(vec_views(seen@) =~= views(out@));
            }
        }
        i = i + 1;
    }
    proof {
        assert(views(values@).take(values.len() as int) =~= views(values@));
    }
    out
}

/// The first reason a node draft is refused, if any.
pub open spec fn draft_error(d: NodeDraft) -> Option<Seq<char>> {
    let title = trim(d.title@);
    let url = trim(d.url@);
    if title.len() == 0 || title.len() > 160 {
        Some("标题须为 1 至 160 个字符"@)
    } else if d.content@.len() > 100_000 {
        Some("正文不能超过 100000 个字符"@)
    } else if byte_len(url) > 2048 || (url.len() > 0 && !is_prefix("https://"@, url)
        && !is_prefix("http://"@, url)) {
        Some("来源地址须为 HTTP 或 HTTPS URL"@)
    } else if d.tags@.len() > 12 || exists|i: int|
        0 <= i < d.tags@.len() && !(1 <= trim(#[trigger] d.tags@[i]@).len() <= 32) {
        Some("最多 12 个标签，每个不超过 32 个字符"@)
    } else if d.aliases@.len() > 16 || exists|i: int|
        0 <= i < d.aliases@.len() && !(1 <= trim(#[trigger] d.aliases@[i]@).len() <= 160) {
        Some("最多 16 个别名，每个不超过 160 个字符"@)
    } else {
        None
    }
}

/// The stored form of an accepted draft: title and URL trimmed, tags and
/// aliases trimmed without repeats; kind, content and version unchanged.
pub open spec fn normalized_draft(d: NodeDraft, r: NodeDraft) -> bool {
    &&& r.title@ == trim(d.title@)
    &&& r.url@ == trim(d.url@)
    &&& views(r.tags@) == distinct_spec(views(d.tags@))
    &&& views(r.aliases@) == distinct_spec(views(d.aliases@))
    &&& r.kind == d.kind
    &&& r.content@ == d.content@
    &&& r.version == d.version
}

/// An error of kind `Input` with the given message.
pub open spec fn input_error(e: MemoryError, message: Seq<char>) -> bool {
    e matches MemoryError::Input(m) && m@ == message
}

fn all_counts_within(values: &Vec<String>, max: usize) -> (r: bool)
    ensures
        r == forall|i: int|
            0 <= i < values@.len() ==> 1 <= trim(#[trigger] values@[i]@).len() <= max,
{
    let mut i: usize = 0;
    while i < values.len()
        invariant
            i <= values.len(),
            forall|k: int| 0 <= k < i ==> 1 <= trim(#[trigger] values@[k]@).len() <= max,
        decreases values.len() - i,
    {
        let t = trim_str(values[i].as_str());
        let n = t.unicode_len();
        if n < 1 || n > max {
            return false;
        }
        i = i + 1;
    }
    true
}

fn input(message: &str) -> (e: MemoryError)
    ensures
        input_error(e, message@),
{
    MemoryError::Input(String::from_str(message))
}

/// Checks a node draft and returns its stored form.
pub fn validate_draft(draft: NodeDraft) -> (r: Result<NodeDraft, MemoryError>)
    ensures
        match r {
            Ok(v) => draft_error(draft) is None && normalized_draft(draft, v),
            Err(e) => draft_error(draft) matches Some(m) && input_error(e, m),
        },
{
    let title = trim_str(draft.title.as_str());
    let title_count = title.unicode_len();
    if title_count == 0 || title_count > 160 {
        return Err(input("标题须为 1 至 160 个字符"));
    }
    if draft.content.unicode_len() > 100_000 {
        return Err(input("正文不能超过 100000 个字符"));
    }
    let url = trim_str(draft.url.as_str());
    if byte_len_exceeds(&chars_of(url.as_str()), 2048) || (url.unicode_len() > 0 && !str_starts_with(url.as_str(), "https://")
        && !str_starts_with(url.as_str(), "http://")) {
        return Err(input("来源地址须为 HTTP 或 HTTPS URL"));
    }
    if draft.tags.len() > 12 || !all_counts_within(&draft.tags, 32) {
        return Err(input("最多 12 个标签，每个不超过 32 个字符"));
    }
    if draft.aliases.len() > 16 || !all_counts_within(&draft.aliases, 160) {
        return Err(input("最多 16 个别名，每个不超过 160 个字符"));
    }
    let NodeDraft { title: _, kind, content, url: _, tags, version, aliases } = draft;
    Ok(NodeDraft { title, kind, content, url, tags: distinct(tags), version, aliases: distinct(aliases) })
}

/// Validating an accepted draft again accepts it unchanged.
pub proof fn lemma_validate_draft_idempotent(d: NodeDraft, v: NodeDraft)
    requires
        draft_error(d) is None,
        normalized_draft(d, v),
    ensures
        draft_error(v) is None,
        normalized_draft(v, v),
{
    crate::text::lemma_trim_idempotent(d.title@);
    crate::text::lemma_trim_idempotent(d.url@);
    lemma_distinct_idempotent(views(d.tags@));
    lemma_distinct_idempotent(views(d.aliases@));
    lemma_distinct_props(views(d.tags@));
    lemma_distinct_props(views(d.aliases@));
    assert forall|i: int| 0 <= i < v.tags@.len() implies 1 <= trim(#[trigger] v.tags@[i]@).len()
        <= 32 by {
        let t = views(v.tags@)[i];
        assert(t == v.tags@[i]@);
        assert(distinct_spec(views(d.tags@))[i] == t);
        assert(distinct_spec(views(d.tags@)).contains(t));
        let k = choose|k: int| 0 <= k < views(d.tags@).len() && trim(#[trigger] views(d.tags@)[k]) == t;
        assert(views(d.tags@)[k] == d.tags@[k]@);
        assert(trim(t) == t);
    }
    assert forall|i: int| 0 <= i < v.aliases@.len() implies 1 <= trim(
        #[trigger] v.aliases@[i]@,
    ).len() <= 160 by {
        let t = views(v.aliases@)[i];
        assert(t == v.aliases@[i]@);
        assert(distinct_spec(views(d.aliases@))[i] == t);
        assert(distinct_spec(views(d.aliases@)).contains(t));
        let k = choose|k: int|
            0 <= k < views(d.aliases@).len() && trim(#[trigger] views(d.aliases@)[k]) == t;
        assert(views(d.aliases@)[k] == d.aliases@[k]@);
        assert(trim(t) == t);
    }
}

/// The first reason an edge draft is refused, if any.
pub open spec fn edge_error(d: EdgeDraft) -> Option<Seq<char>> {
    if !valid_id(d.source@) || !valid_id(d.target@) {
        Some("节点或关系 ID 无效"@)
    } else if d.source@ == d.target@ {
        Some("关系的两个节点不能相同"@)
    } else if !(1 <= trim(d.relation@).len() <= 48) {
        Some("关系名称须为 1 至 48 个字符"@)
    } else if d.evidence@.len() > 2000 {
        Some("关系依据不能超过 2000 个字符"@)
    } else {
        None
    }
}

/// Checks an edge draft and returns it with its relation name trimmed.
pub fn validate_edge(draft: EdgeDraft) -> (r: Result<EdgeDraft, MemoryError>)
    ensures
        match r {
            Ok(v) => edge_error(draft) is None && v.source@ == draft.source@ && v.target@
                == draft.target@ && v.relation@ == trim(draft.relation@) && v.evidence@
                == draft.evidence@,
            Err(e) => edge_error(draft) matches Some(m) && input_error(e, m),
        },
{
    require_id(draft.source.as_str())?;
    require_id(draft.target.as_str())?;
    if crate::text::str_eq(draft.source.as_str(), draft.target.as_str()) {
        return Err(input("关系的两个节点不能相同"));
    }
    let relation = trim_str(draft.relation.as_str());
    let count = relation.unicode_len();
    if count < 1 || count > 48 {
        return Err(input("关系名称须为 1 至 48 个字符"));
    }
    if draft.evidence.unicode_len() > 2000 {
        return Err(input("关系依据不能超过 2000 个字符"));
    }
    let EdgeDraft { source, target, relation: _, evidence } = draft;
    Ok(EdgeDraft { source, target, relation, evidence })
}

/// The storage name of each node kind.
pub open spec fn kind_key(kind: NodeKind) -> Seq<char> {
    match kind {
        NodeKind::Note => "NOTE"@,
        NodeKind::Concept => "CONCEPT"@,
        NodeKind::Person => "PERSON"@,
        NodeKind::Event => "EVENT"@,
        NodeKind::Source => "SOURCE"@,
        NodeKind::Project => "PROJECT"@,
    }
}

pub fn kind_name(kind: NodeKind) -> (r: &'static str)
    ensures
        r@ == kind_key(kind),
{
    match kind {
        NodeKind::Note => "NOTE",
        NodeKind::Concept => "CONCEPT",
        NodeKind::Person => "PERSON",
        NodeKind::Event => "EVENT",
        NodeKind::Source => "SOURCE",
        NodeKind::Project => "PROJECT",
    }
}

/// Reads a stored kind name; an unknown name is a storage fault.
pub fn parse_kind(value: &str) -> (r: Result<NodeKind, MemoryError>)
    ensures
        match r {
            Ok(k) => kind_key(k) == value@,
            Err(e) => (forall|k: NodeKind| kind_key(k) != value@) && e is Storage,
        },
{
    proof {
        reveal_strlit("NOTE");
        reveal_strlit("CONCEPT");
        reveal_strlit("PERSON");
        reveal_strlit("EVENT");
        reveal_strlit("SOURCE");
        reveal_strlit("PROJECT");
    }
    if crate::text::str_eq(value, "NOTE") {
        Ok(NodeKind::Note)
    } else if crate::text::str_eq(value, "CONCEPT") {
        Ok(NodeKind::Concept)
    } else if crate::text::str_eq(value, "PERSON") {
        Ok(NodeKind::Person)
    } else if crate::text::str_eq(value, "EVENT") {
        Ok(NodeKind::Event)
    } else if crate::text::str_eq(value, "SOURCE") {
        Ok(NodeKind::Source)
    } else if crate::text::str_eq(value, "PROJECT") {
        Ok(NodeKind::Project)
    } else {
        Err(MemoryError::Storage(String::from_str("未知节点类型")))
    }
}

/// Names each kind and reads it back: parsing a stored name gives the kind.
pub proof fn lemma_kind_names_distinct(a: NodeKind, b: NodeKind)
    ensures
        kind_key(a) == kind_key(b) <==> a == b,
{
    reveal_strlit("NOTE");
    reveal_strlit("CONCEPT");
    reveal_strlit("PERSON");
    reveal_strlit("EVENT");
    reveal_strlit("SOURCE");
    reveal_strlit("PROJECT");
    if kind_key(a) == kind_key(b) && a != b {
        assert(kind_key(a).len() != kind_key(b).len() || kind_key(a)[0] != kind_key(b)[0]
            || kind_key(a)[1] != kind_key(b)[1]);
    }
}

} // verus!
