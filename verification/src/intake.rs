//! Intake of sources: the checks on captured material and listings, how a
//! source is titled and which wiki links it makes, and the rules for
//! replaying, retrying, revealing and importing sources.
use crate::access::MemoryError;
use crate::context::{is_worker, MemoryContext};
use crate::isolate::{value_end, lemma_value_end, IsolatedSecret, Isolation};
use crate::json::{json_document, parse_document, token_view, tokens_view, JsonToken, TokenView};
use crate::model::{texts, CaptureRequest, EdgeDraft, ImportRequest, NodeDraft, NodeKind, SourceQuery, SpaceRole};
use crate::patterns::{captures_view, pattern_captures, regex_captures, CaptureView};
use crate::references::{mask_refs, mask_refs_spec, ref_open};
use crate::text::{byte_len, byte_len_exceeds, chars_of, contains, is_prefix, str_eq, string_of, trim, trim_chars};
use crate::validation::input_error;
use vstd::prelude::*;

verus! {

// ---------------------------------------------------------------- checks

/// Captured material: text that is not blank and at most 100000 bytes, a
/// request id of 1 to 160 bytes, a known origin and a reference of at most
/// 256 bytes.
pub open spec fn capture_ok(r: CaptureRequest) -> bool {
    &&& trim(r.text@).len() > 0
    &&& byte_len(r.text@) <= 100_000
    &&& r.request_id@.len() > 0
    &&& byte_len(r.request_id@) <= 160
    &&& (r.origin@ == "chat"@ || r.origin@ == "note"@ || r.origin@ == "import"@)
    &&& byte_len(r.reference@) <= 256
}

pub fn validate_capture(request: &CaptureRequest) -> (r: Result<(), MemoryError>)
    ensures
        r is Ok <==> capture_ok(*request),
        r matches Err(e) ==> input_error(e, "收件内容或来源无效"@),
{
    let blank = crate::text::trim_str(request.text.as_str()).unicode_len() == 0;
    let origin = request.origin.as_str();
    if blank || byte_len_exceeds(&chars_of(request.text.as_str()), 100_000) || request.request_id.unicode_len() == 0
        || byte_len_exceeds(&chars_of(request.request_id.as_str()), 160) || !(str_eq(origin, "chat")
        || str_eq(origin, "note") || str_eq(origin, "import")) || byte_len_exceeds(
        &chars_of(request.reference.as_str()),
        256,
    ) {
        return Err(MemoryError::Input(String::from_str("收件内容或来源无效")));
    }
    Ok(())
}

/// The states a source listing may be filtered by (`""` for all).
pub open spec fn listed_status(s: Seq<char>) -> bool {
    s == ""@ || s == "pending"@ || s == "processing"@ || s == "complete"@ || s == "conflict"@
        || s == "failed"@ || s == "quarantined"@ || s == "recorded"@
}

/// A listing names at most 256 characters, a page from a non-negative
/// offset of 1 to 200 sources, and a known state.
pub open spec fn source_query_ok(q: SourceQuery) -> bool {
    &&& q.query@.len() <= 256
    &&& q.offset >= 0
    &&& 1 <= q.limit <= 200
    &&& listed_status(q.status@)
}

pub fn check_source_query(query: &SourceQuery) -> (r: Result<(), MemoryError>)
    ensures
        r is Ok <==> source_query_ok(*query),
        r matches Err(e) ==> input_error(e, "搜索或分页条件无效"@),
{
    let s = query.status.as_str();
    let known = str_eq(s, "") || str_eq(s, "pending") || str_eq(s, "processing") || str_eq(s, "complete")
        || str_eq(s, "conflict") || str_eq(s, "failed") || str_eq(s, "quarantined") || str_eq(
        s,
        "recorded",
    );
    if query.query.unicode_len() > 256 || query.offset < 0 || query.limit < 1 || query.limit > 200
        || !known {
        return Err(MemoryError::Input(String::from_str("搜索或分页条件无效")));
    }
    Ok(())
}

/// More sources match than the page from `offset` holding `count` shows.
pub open spec fn listing_truncated(offset: i64, count: int, total: i64) -> bool {
    (if offset + count > i64::MAX {
        i64::MAX as int
    } else {
        offset + count
    }) < total
}

pub fn list_truncated(offset: i64, count: usize, total: i64) -> (r: bool)
    requires
        offset >= 0,
        count <= i64::MAX,
    ensures
        r == listing_truncated(offset, count as int, total),
{
    let c = count as i64;
    if offset > i64::MAX - c {
        i64::MAX < total
    } else {
        offset + c < total
    }
}

// ---------------------------------------------------------------- titles

/// The keys whose string value titles a JSON object, in order of
/// preference.
pub open spec fn title_keys() -> Seq<Seq<char>> {
    seq!["title"@, "project"@, "website"@, "name"@, "项目"@, "标题"@, "网站"@]
}

/// The value of `key` among the members of an object from position `p`
/// on (the last one when the key repeats).
pub open spec fn member_value(t: Seq<TokenView>, p: int, key: Seq<char>) -> Option<TokenView>
    decreases t.len() - p,
{
    if p < 0 || p >= t.len() {
        None
    } else {
        match t[p] {
            TokenView::Key(k) => {
                let e = value_end(t, p + 1);
                proof {
                    lemma_value_end(t, p + 1);
                }
                let later = member_value(t, e, key);
                if later is Some {
                    later
                } else if k == key && p + 1 < t.len() {
                    Some(t[p + 1])
                } else {
                    None
                }
            },
            _ => None,
        }
    }
}

/// At most the first 100 characters.
pub open spec fn first_100(s: Seq<char>) -> Seq<char> {
    if s.len() <= 100 {
        s
    } else {
        s.subrange(0, 100)
    }
}

/// The title an object gives itself: the first title key, in order of
/// preference, holding a non-empty string without secret references.
pub open spec fn object_title(t: Seq<TokenView>, k: int) -> Option<Seq<char>>
    decreases title_keys().len() - k,
{
    if k < 0 || k >= title_keys().len() {
        None
    } else {
        match member_value(t, 1, title_keys()[k]) {
            Some(TokenView::Str(s)) => if s.len() > 0 && !contains(s, ref_open()) {
                Some(first_100(s))
            } else {
                object_title(t, k + 1)
            },
            _ => object_title(t, k + 1),
        }
    }
}

/// The lines read so far and the line being read.
pub open spec fn lines_acc(s: Seq<char>) -> (Seq<Seq<char>>, Seq<char>)
    decreases s.len(),
{
    if s.len() == 0 {
        (Seq::empty(), Seq::empty())
    } else {
        let (d, c) = lines_acc(s.drop_last());
        if s.last() == '\n' {
            (d.push(strip_cr(c)), Seq::empty())
        } else {
            (d, c.push(s.last()))
        }
    }
}

/// A line ended by `\r\n` loses the `\r`.
pub open spec fn strip_cr(l: Seq<char>) -> Seq<char> {
    if l.len() > 0 && l.last() == '\r' {
        l.drop_last()
    } else {
        l
    }
}

/// `str::lines`: the lines of a text, a final line ending being optional.
pub open spec fn line_list(s: Seq<char>) -> Seq<Seq<char>> {
    let (d, c) = lines_acc(s);
    if c.len() > 0 {
        d.push(c)
    } else {
        d
    }
}

/// The first line that is not blank.
pub open spec fn first_filled(lines: Seq<Seq<char>>) -> Option<Seq<char>>
    decreases lines.len(),
{
    if lines.len() == 0 {
        None
    } else if trim(lines[0]).len() > 0 {
        Some(lines[0])
    } else {
        first_filled(lines.drop_first())
    }
}

/// A source's title. A JSON object (`document`, when the text is one)
/// titles itself by its first usable title key, else "账号与资料"; other
/// text by its first non-blank line with references masked, at most 100
/// characters, else "新资料".
pub open spec fn title_spec(text: Seq<char>, document: Option<Seq<TokenView>>) -> Seq<char> {
    if document matches Some(t) && t.len() > 0 && t[0] is ObjectStart {
        match object_title(document.unwrap(), 0) {
            Some(s) => s,
            None => "账号与资料"@,
        }
    } else {
        match first_filled(line_list(text)) {
            Some(l) => {
                let m = first_100(mask_refs_spec(l, "[保密字段]"@));
                if m.len() > 0 {
                    m
                } else {
                    "新资料"@
                }
            },
            None => "新资料"@,
        }
    }
}

fn find_member(t: &Vec<JsonToken>, key: &str) -> (r: Option<usize>)
    ensures
        match r {
            Some(q) => q < t@.len() && member_value(tokens_view(t@), 1, key@) == Some(token_view(t@[q as int])),
            None => member_value(tokens_view(t@), 1, key@) is None,
        },
    decreases t@.len(),
{
    member_from(t, 1, key)
}

fn member_from(t: &Vec<JsonToken>, p: usize, key: &str) -> (r: Option<usize>)
    ensures
        match r {
            Some(q) => q < t@.len() && member_value(tokens_view(t@), p as int, key@) == Some(token_view(t@[q as int])),
            None => member_value(tokens_view(t@), p as int, key@) is None,
        },
    decreases t@.len() - p,
{
    if p >= t.len() {
        return None;
    }
    let ghost tv = tokens_view(t@);
    proof {
        assert(tv[p as int] == token_view(t@[p as int]));
        lemma_value_end(tv, p + 1);
    }
    match &t[p] {
        JsonToken::Key(k) => {
            let e = crate::isolate::value_end_index(t, p + 1);
            match member_from(t, e, key) {
                Some(q) => Some(q),
                None => {
                    if str_eq(k.as_str(), key) && p + 1 < t.len() {
                        proof {
                            assert(tv[p + 1] == token_view(t@[p + 1]));
                        }
                        Some(p + 1)
                    } else {
                        None
                    }
                },
            }
        },
        _ => None,
    }
}

/// The title a JSON object gives itself, if any.
fn title_of_object(t: &Vec<JsonToken>) -> (r: Option<String>)
    ensures
        match r {
            Some(s) => object_title(tokens_view(t@), 0) == Some(s@),
            None => object_title(tokens_view(t@), 0) is None,
        },
{
    let keys = vec!["title", "project", "website", "name", "项目", "标题", "网站"];
    proof {
        assert(keys@.map_values(|s: &str| s@) =~= title_keys());
    }
    let ghost tv = tokens_view(t@);
    let mut k: usize = 0;
    while k < keys.len()
        invariant
            k <= keys.len(),
            keys@.map_values(|s: &str| s@) == title_keys(),
            tv == tokens_view(t@),
            object_title(tv, k as int) == object_title(tv, 0),
        decreases keys.len() - k,
    {
        proof {
            assert(keys@.map_values(|s: &str| s@)[k as int] == keys@[k as int]@);
        }
        match find_member(t, keys[k]) {
            Some(q) => match &t[q] {
                JsonToken::Str(s) => {
                    let c = chars_of(s.as_str());
                    if c.len() > 0 && !crate::text::vec_contains(&c, &crate::references::ref_open_chars()) {
                        let mut out: Vec<char> = Vec::new();
                        let mut i: usize = 0;
                        while i < c.len() && i < 100
                            invariant
                                i <= c.len(),
                                i <= 100,
                                out@ == c@.subrange(0, i as int),
                            decreases c.len() - i,
                        {
                            out.push(c[i]);
                            i = i + 1;
                            proof {
                                assert(out@ =~= c@.subrange(0, i as int));
                            }
                        }
                        proof {
                            if c.len() <= 100 {
                                assert(c@.subrange(0, c@.len() as int) =~= c@);
                            }
                        }
                        return Some(string_of(out.as_slice()));
                    }
                },
                _ => {},
            },
            None => {},
        }
        k = k + 1;
    }
    None
}

fn take_100(s: &Vec<char>) -> (r: Vec<char>)
    ensures
        r@ == first_100(s@),
{
    let mut out: Vec<char> = Vec::new();
    let mut i: usize = 0;
    while i < s.len() && i < 100
        invariant
            i <= s.len(),
            i <= 100,
            out@ == s@.subrange(0, i as int),
        decreases s.len() - i,
    {
        out.push(s[i]);
        i = i + 1;
        proof {
            assert(out@ =~= s@.subrange(0, i as int));
        }
    }
    proof {
        if s.len() <= 100 {
            assert(s@.subrange(0, s@.len() as int) =~= s@);
        }
    }
    out
}

fn filled(l: &Vec<char>) -> (r: bool)
    ensures
        r == (trim(l@).len() > 0),
{
    trim_chars(l).len() > 0
}

/// The lines of a text (`str::lines`).
fn lines_of(text: &Vec<char>) -> (r: Vec<Vec<char>>)
    ensures
        r@.map_values(|l: Vec<char>| l@) == line_list(text@),
{
    let mut done: Vec<Vec<char>> = Vec::new();
    let mut cur: Vec<char> = Vec::new();
    let mut i: usize = 0;
    proof {
        assert(text@.take(0) =~= Seq::<char>::empty());
    }
    while i < text.len()
        invariant
            i <= text.len(),
            lines_acc(text@.take(i as int)) == (done@.map_values(|l: Vec<char>| l@), cur@),
        decreases text.len() - i,
    {
        proof {
            assert(text@.take(i + 1).drop_last() =~= text@.take(i as int));
            assert(text@.take(i + 1).last() == text@[i as int]);
        }
        if text[i] == '\n' {
            let mut line: Vec<char> = Vec::new();
            crate::text::append_chars(&mut line, &cur);
            if line.len() > 0 && line[line.len() - 1] == '\r' {
                line.pop();
            }
            proof {
                assert(line@ =~= strip_cr(cur@));
            }
            let ghost before = done@;
            done.push(line);
            proof {
                assert(done@.map_values(|l: Vec<char>| l@) =~= before.map_values(|l: Vec<char>| l@).push(strip_cr(cur@)));
            }
            cur = Vec::new();
        } else {
            cur.push(text[i]);
        }
        i = i + 1;
    }
    proof {
        assert(text@.take(text@.len() as int) =~= text@);
    }
    if cur.len() > 0 {
        let ghost before = done@;
        done.push(cur);
        proof {
            assert(done@.map_values(|l: Vec<char>| l@) =~= before.map_values(|l: Vec<char>| l@).push(cur@));
        }
    }
    done
}

/// The first non-blank line of a text.
fn first_line(text: &Vec<char>) -> (r: Option<Vec<char>>)
    ensures
        match r {
            Some(l) => first_filled(line_list(text@)) == Some(l@),
            None => first_filled(line_list(text@)) is None,
        },
{
    let lines = lines_of(text);
    let ghost lv = lines@.map_values(|l: Vec<char>| l@);
    let mut k: usize = 0;
    proof {
        assert(lv.skip(0) =~= lv);
    }
    while k < lines.len()
        invariant
            k <= lines.len(),
            lv == lines@.map_values(|l: Vec<char>| l@),
            lv == line_list(text@),
            first_filled(lv.skip(k as int)) == first_filled(lv),
        decreases lines.len() - k,
    {
        proof {
            assert(lv.skip(k as int)[0] == lines@[k as int]@);
            assert(lv.skip(k as int).drop_first() =~= lv.skip(k + 1));
        }
        if filled(&lines[k]) {
            let mut l: Vec<char> = Vec::new();
            crate::text::append_chars(&mut l, &lines[k]);
            proof {
                assert(l@ =~= lines@[k as int]@);
                assert(lv.skip(k as int).len() > 0);
            }
            return Some(l);
        }
        k = k + 1;
    }
    proof {
        assert(lv.skip(k as int) =~= Seq::<Seq<char>>::empty());
    }
    None
}

/// A source's title (see `title_spec`), reading the text as a JSON
/// document when it is one.
pub fn source_title(text: &str) -> (r: String)
    ensures
        r@ == title_spec(text@, json_document(text@)),
{
    proof {
        reveal_strlit("账号与资料");
        reveal_strlit("新资料");
    }
    let parsed = parse_document(text);
    match parsed.as_ref() {
        Some(d) => {
            let object = d.len() > 0 && matches!(d[0], JsonToken::ObjectStart);
            proof {
                if d@.len() > 0 {
                    assert(tokens_view(d@)[0] == token_view(d@[0]));
                }
            }
            if object {
                return match title_of_object(d) {
                    Some(s) => s,
                    None => String::from_str("账号与资料"),
                };
            }
        },
        None => {},
    }
    match first_line(&chars_of(text)) {
        Some(l) => {
            let masked = mask_refs(&l, &chars_of("[保密字段]"));
            let m = take_100(&masked);
            if m.len() > 0 {
                string_of(m.as_slice())
            } else {
                String::from_str("新资料")
            }
        },
        None => String::from_str("新资料"),
    }
}

// ---------------------------------------------------------------- links

/// An explicit wiki link: `[[name]]` or `[[name|label]]`, up to 160
/// characters without brackets or line breaks.
pub const WIKI_PATTERN: &'static str = r"\[\[([^\[\]\n]{1,160})\]\]";

/// Most wiki links a source makes.
pub const MAX_LINKS: usize = 40;

/// The part of a link before its first `|`.
pub open spec fn bar_prefix(v: Seq<char>) -> Seq<char>
    decreases v.len(),
{
    if v.len() == 0 || v[0] == '|' {
        Seq::empty()
    } else {
        seq![v[0]] + bar_prefix(v.drop_first())
    }
}

/// The names the matches of the wiki pattern link to, in order, blank
/// ones left out, at most 40.
pub open spec fn link_names(caps: Seq<CaptureView>) -> Seq<Seq<char>>
    decreases caps.len(),
{
    if caps.len() == 0 {
        Seq::empty()
    } else {
        let prev = link_names(caps.drop_last());
        let c = caps.last();
        if prev.len() < MAX_LINKS && c.len() > 1 && (c[1] matches Some(v) && trim(bar_prefix(v)).len() > 0) {
            prev.push(trim(bar_prefix(c[1].unwrap())))
        } else {
            prev
        }
    }
}

fn before_bar(v: &Vec<char>) -> (r: Vec<char>)
    ensures
        r@ == bar_prefix(v@),
{
    let mut out: Vec<char> = Vec::new();
    let mut i: usize = 0;
    proof {
        assert(v@.skip(0) =~= v@);
        assert(out@ + bar_prefix(v@) =~= bar_prefix(v@));
    }
    while i < v.len() && v[i] != '|'
        invariant
            i <= v.len(),
            out@ + bar_prefix(v@.skip(i as int)) == bar_prefix(v@),
        decreases v.len() - i,
    {
        proof {
            assert(v@.skip(i as int)[0] == v@[i as int]);
            assert(v@.skip(i as int).drop_first() =~= v@.skip(i + 1));
            assert(out@ + bar_prefix(v@.skip(i as int)) =~= out@.push(v@[i as int]) + bar_prefix(v@.skip(i + 1)));
        }
        out.push(v[i]);
        i = i + 1;
    }
    proof {
        if i < v.len() {
            assert(v@.skip(i as int)[0] == '|');
        }
        assert(out@ + Seq::<char>::empty() =~= out@);
    }
    out
}

/// The names matches of the wiki pattern link to (see `link_names`).
pub fn link_names_of(caps: &Vec<Vec<Option<String>>>) -> (r: Vec<String>)
    ensures
        texts(r@) == link_names(captures_view(caps@)),
{
    let ghost cv = captures_view(caps@);
    let mut out: Vec<String> = Vec::new();
    let mut k: usize = 0;
    proof {
        assert(cv.take(0) =~= Seq::<CaptureView>::empty());
    }
    while k < caps.len()
        invariant
            k <= caps.len(),
            cv == captures_view(caps@),
            texts(out@) == link_names(cv.take(k as int)),
        decreases caps.len() - k,
    {
        proof {
            assert(cv.take(k + 1).drop_last() =~= cv.take(k as int));
            assert(cv.take(k + 1).last() == crate::patterns::capture_view(caps@[k as int]));
            assert(link_names(cv.take(k as int)).len() == out@.len());
        }
        let c = &caps[k];
        if out.len() < MAX_LINKS && c.len() > 1 {
            proof {
                assert(crate::patterns::capture_view(caps@[k as int])[1] == crate::patterns::opt_view(c@[1]));
            }
            match &c[1] {
                Some(v) => {
                    let name = trim_chars(&before_bar(&chars_of(v.as_str())));
                    if name.len() > 0 {
                        let ghost before = out@;
                        out.push(string_of(name.as_slice()));
                        proof {
                            assert(texts(out@) =~= texts(before).push(name@));
                        }
                    }
                },
                None => {},
            }
        }
        k = k + 1;
    }
    proof {
        assert(cv.take(caps@.len() as int) =~= cv);
    }
    out
}

/// The wiki links of a text: the names the wiki pattern's matches link
/// to; none when the pattern does not compile.
pub fn wiki_links(text: &str) -> (r: Vec<String>)
    ensures
        match regex_captures(WIKI_PATTERN@, text@) {
            Some(c) => texts(r@) == link_names(c),
            None => r@.len() == 0,
        },
{
    match pattern_captures(WIKI_PATTERN, text) {
        Some(caps) => link_names_of(&caps),
        None => Vec::new(),
    }
}

/// A link to the source's own title or to a secret makes no concept.
pub fn link_wanted(name: &str, title: &str) -> (r: bool)
    ensures
        r == !(name@ == title@ || is_prefix("secret:"@, name@)),
{
    !(str_eq(name, title) || crate::text::str_starts_with(name, "secret:"))
}

/// The concept a wiki link creates when no node has its title yet.
pub fn concept_draft(name: String) -> (r: NodeDraft)
    ensures
        r.title == name,
        r.kind == NodeKind::Concept,
        r.content@.len() == 0 && r.url@.len() == 0 && r.tags@.len() == 0 && r.aliases@.len() == 0,
        r.version is None,
{
    NodeDraft { title: name, kind: NodeKind::Concept, content: String::new(), url: String::new(), tags: Vec::new(), version: None, aliases: Vec::new() }
}

/// The edge recording that a source mentions a concept.
pub fn mention_edge(source_id: &str, concept_id: &str) -> (r: EdgeDraft)
    ensures
        r.source@ == source_id@,
        r.target@ == concept_id@,
        r.relation@ == "提及"@,
        r.evidence@ == "显式双向链接"@,
{
    EdgeDraft {
        source: String::from_str(source_id),
        target: String::from_str(concept_id),
        relation: String::from_str("提及"),
        evidence: String::from_str("显式双向链接"),
    }
}

// ---------------------------------------------------------------- sources

/// A repeated capture may not revive a deleted source.
pub fn check_replay_status(status: &str) -> (r: Result<(), MemoryError>)
    ensures
        r is Ok <==> status@ != "deleted"@,
        r matches Err(e) ==> e is Stale,
{
    if str_eq(status, "deleted") {
        return Err(MemoryError::Stale);
    }
    Ok(())
}

/// A repeated capture must carry the same text as the first.
pub fn check_replay_text(original: &Vec<u8>, text: &str) -> (r: Result<(), MemoryError>)
    ensures
        r is Ok <==> original@ == vstd::utf8::encode_utf8(text@),
        r matches Err(e) ==> input_error(e, "同一请求 ID 不能提交不同内容"@),
{
    let bytes = text.as_bytes();
    let mut same = original.len() == bytes.len();
    let mut i: usize = 0;
    while same && i < bytes.len()
        invariant
            i <= bytes@.len(),
            same ==> original@.len() == bytes@.len(),
            same ==> forall|k: int| 0 <= k < i ==> original@[k] == bytes@[k],
            !same ==> original@ != bytes@,
        decreases bytes@.len() - i,
    {
        if original[i] != bytes[i] {
            same = false;
        }
        i = i + 1;
    }
    proof {
        if same {
            assert(original@ =~= bytes@);
        }
    }
    if !same {
        return Err(MemoryError::Input(String::from_str("同一请求 ID 不能提交不同内容")));
    }
    Ok(())
}

/// The state of a source after isolation: held back, or waiting to be
/// compiled.
pub fn source_status(quarantined: bool) -> (r: &'static str)
    ensures
        r@ == (if quarantined {
            "quarantined"@
        } else {
            "pending"@
        }),
{
    if quarantined {
        "quarantined"
    } else {
        "pending"
    }
}

/// The state of a source's task after a revision: cancelled when held back.
pub fn task_state(quarantined: bool) -> (r: &'static str)
    ensures
        r@ == (if quarantined {
            "cancelled"@
        } else {
            "pending"@
        }),
{
    if quarantined {
        "cancelled"
    } else {
        "pending"
    }
}

/// The title of an isolated source: a fixed one when held back, else its
/// own.
pub fn isolated_title(isolation: &Isolation) -> (r: String)
    ensures
        r@ == (if isolation.quarantined {
            "待整理的保密资料"@
        } else {
            title_spec(isolation.text@, json_document(isolation.text@))
        }),
{
    if isolation.quarantined {
        String::from_str("待整理的保密资料")
    } else {
        source_title(isolation.text.as_str())
    }
}

/// What capturing an isolated text leads to: the state and title the new
/// source gets, and whether it is queued for compilation.
pub struct CapturePlan {
    pub status: &'static str,
    pub title: String,
    pub queued: bool,
}

/// A held-back capture is kept under a fixed title, in state
/// `quarantined`, with its placeholder text and no task; any other is
/// titled from its own text, `pending`, and queued.
pub fn capture_plan(isolation: &Isolation) -> (r: CapturePlan)
    ensures
        isolation.quarantined ==> r.status@ == "quarantined"@ && r.title@ == "待整理的保密资料"@ && !r.queued,
        !isolation.quarantined ==> r.status@ == "pending"@ && r.title@ == title_spec(
            isolation.text@,
            json_document(isolation.text@),
        ) && r.queued,
{
    CapturePlan {
        status: source_status(isolation.quarantined),
        title: isolated_title(isolation),
        queued: !isolation.quarantined,
    }
}

/// The node a source is kept as.
pub fn source_draft(title: String, content: String, version: Option<i64>) -> (r: NodeDraft)
    ensures
        r.title == title,
        r.content == content,
        r.kind == NodeKind::Source,
        r.url@.len() == 0 && r.tags@.len() == 0 && r.aliases@.len() == 0,
        r.version == version,
{
    NodeDraft { title, kind: NodeKind::Source, content, url: String::new(), tags: Vec::new(), version, aliases: Vec::new() }
}

/// What sealed material is for: `space/kind/id`.
pub fn sealing_purpose(space_id: &str, kind: &str, id: &str) -> (r: String)
    ensures
        r@ == space_id@ + "/"@ + kind@ + "/"@ + id@,
{
    let mut out = chars_of(space_id);
    crate::text::append_chars(&mut out, &chars_of("/"));
    crate::text::append_chars(&mut out, &chars_of(kind));
    crate::text::append_chars(&mut out, &chars_of("/"));
    crate::text::append_chars(&mut out, &chars_of(id));
    string_of(out.as_slice())
}

/// What a caller may do with a source: writers edit their own sources and
/// delete any; workers neither.
pub fn source_permissions(role: SpaceRole, context: &MemoryContext, created_by: &str) -> (r: (bool, bool))
    ensures
        r.0 == ((role is Owner || role is Editor) && !is_worker(context.context_id) && created_by@ == context.user_id@),
        r.1 == ((role is Owner || role is Editor) && !is_worker(context.context_id)),
{
    let write = role.can_write() && !context.worker();
    (write && str_eq(created_by, context.user_id.as_str()), write)
}

/// Only the person who captured a source sees its original text.
pub fn check_original(context: &MemoryContext, created_by: &str) -> (r: Result<(), MemoryError>)
    ensures
        r is Ok <==> created_by@ == context.user_id@ && !is_worker(context.context_id),
        r matches Err(e) ==> e is Access,
{
    if !str_eq(created_by, context.user_id.as_str()) || context.worker() {
        return Err(MemoryError::Access);
    }
    Ok(())
}

/// A source may be compiled again when it failed, conflicts or waits; a
/// held-back source needs its fields explained first.
pub fn check_retry(status: &str) -> (r: Result<(), MemoryError>)
    ensures
        status@ == "quarantined"@ ==> (r matches Err(e) && input_error(e, "请在对话中补充字段名称后重新提交资料"@)),
        status@ != "quarantined"@ ==> (r is Ok <==> (status@ == "failed"@ || status@ == "conflict"@ || status@ == "pending"@)),
        status@ != "quarantined"@ ==> (r matches Err(e) ==> input_error(e, "当前状态不能重试"@)),
{
    if str_eq(status, "quarantined") {
        return Err(MemoryError::Input(String::from_str("请在对话中补充字段名称后重新提交资料")));
    }
    if !(str_eq(status, "failed") || str_eq(status, "conflict") || str_eq(status, "pending")) {
        return Err(MemoryError::Input(String::from_str("当前状态不能重试")));
    }
    Ok(())
}

// ---------------------------------------------------------- clarifications

/// A note in the same conversation saying that the previous passage, as a
/// whole, is one credential: "上一条是密码". Group 1 is what it is.
pub const CLARIFY_PATTERN: &'static str = r"^\s*(?:上一条|上条|刚才那条|刚才那段|上面那段|上面这段|前面那条|这段|以上)(?:都是|其实是|是|为)\s*([^\s。.!！,，](?:[^。.!！,，\n]{0,30}[^\s。.!！,，])?)\s*[。.!！]*\s*$";

/// The label a clarifying note gives, from the matches of
/// `CLARIFY_PATTERN` in it: the first group of the first match.
pub open spec fn clarified_label_spec(caps: Option<Seq<CaptureView>>) -> Option<Seq<char>> {
    match caps {
        Some(m) => if m.len() > 0 && m[0].len() > 1 {
            match m[0][1] {
                Some(l) => if l.len() > 0 {
                    Some(l)
                } else {
                    None
                },
                None => None,
            }
        } else {
            None
        },
        None => None,
    }
}

/// What a note says the previous passage is, if it says so plainly.
pub open spec fn clarification_spec(text: Seq<char>) -> Option<Seq<char>> {
    clarified_label_spec(regex_captures(CLARIFY_PATTERN@, text))
}

/// The label given by the matches of `CLARIFY_PATTERN` in a note.
pub fn clarified_label(caps: &Option<Vec<Vec<Option<String>>>>) -> (r: Option<String>)
    ensures
        crate::patterns::opt_view(r) == clarified_label_spec(
            match caps {
                Some(v) => Some(captures_view(v@)),
                None => None,
            },
        ),
{
    match caps {
        None => None,
        Some(v) => {
            if v.len() == 0 || v[0].len() < 2 {
                return None;
            }
            proof {
                assert(captures_view(v@)[0] == crate::patterns::capture_view(v@[0]));
                assert(crate::patterns::capture_view(v@[0])[1] == crate::patterns::opt_view(v@[0]@[1]));
            }
            match &v[0][1] {
                Some(l) => if l.unicode_len() > 0 {
                    Some(l.clone())
                } else {
                    None
                },
                None => None,
            }
        },
    }
}

/// What a note says the previous passage is (see `CLARIFY_PATTERN`).
pub fn clarification(text: &str) -> (r: Option<String>)
    ensures
        crate::patterns::opt_view(r) == clarification_spec(text@),
{
    let caps = pattern_captures(CLARIFY_PATTERN, text);
    clarified_label(&caps)
}

/// The facts about a held-back source that a clarification is checked
/// against.
pub struct HeldSource {
    pub created_by: String,
    pub status: String,
    pub origin: String,
    pub reference: String,
}

/// A note may release a source held back from the same conversation, by
/// the same person who captured it, both taken from chat.
pub open spec fn releasable(context: MemoryContext, request: CaptureRequest, held: HeldSource) -> bool {
    &&& !is_worker(context.context_id)
    &&& request.origin@ == "chat"@
    &&& held.origin@ == "chat"@
    &&& held.status@ == "quarantined"@
    &&& held.created_by@ == context.user_id@
    &&& held.reference@.len() > 0
    &&& held.reference@ == request.reference@
}

/// The label under which a held-back source becomes one credential, when
/// the captured note is a plain clarification of it; `None` leaves the
/// source as it is.
pub fn clarification_release(context: &MemoryContext, request: &CaptureRequest, held: &HeldSource) -> (r: Option<
    String,
>)
    ensures
        crate::patterns::opt_view(r) == (if releasable(*context, *request, *held) {
            clarification_spec(request.text@)
        } else {
            None
        }),
        r is Some ==> releasable(*context, *request, *held),
{
    if context.worker() || !str_eq(request.origin.as_str(), "chat") || !str_eq(held.origin.as_str(), "chat")
        || !str_eq(held.status.as_str(), "quarantined") || !str_eq(
        held.created_by.as_str(),
        context.user_id.as_str(),
    ) || held.reference.unicode_len() == 0 || !str_eq(held.reference.as_str(), request.reference.as_str()) {
        return None;
    }
    clarification(request.text.as_str())
}

/// A released source: its whole original text becomes one credential with
/// a fresh id, and the kept text is the reference to it.
pub fn released_isolation(label: String, original: String) -> (r: Isolation)
    ensures
        r.secrets@.len() == 1,
        r.secrets@[0].label == label,
        r.secrets@[0].value == original,
        crate::access::issued_id(r.secrets@[0].id@),
        r.text@ == crate::references::reference(r.secrets@[0].id@),
        !r.quarantined,
{
    let fresh = crate::access::id();
    let text = crate::references::reference_text(fresh.as_str());
    let mut secrets: Vec<IsolatedSecret> = Vec::new();
    secrets.push(IsolatedSecret { id: fresh, label, value: original });
    Isolation { text, secrets, quarantined: false }
}

/// The text an import captures: its title, address and text, those that
/// are not empty, one per line.
pub open spec fn import_text_spec(title: Seq<char>, url: Seq<char>, text: Seq<char>) -> Seq<char> {
    crate::retrieval::joined(
        seq![title, url, text].filter(|v: Seq<char>| v.len() > 0),
        "\n"@,
    )
}

/// The capture an import makes.
pub fn import_request(import: &ImportRequest, space_id: Option<String>) -> (r: CaptureRequest)
    ensures
        r.request_id@ == import.request_id@,
        r.text@ == import_text_spec(import.title@, import.url@, import.text@),
        r.space_id == space_id,
        r.origin@ == "import"@,
        r.reference@.len() == 0,
        r.clarifies is None,
{
    let mut parts: Vec<String> = Vec::new();
    if import.title.unicode_len() > 0 {
        parts.push(import.title.clone());
    }
    if import.url.unicode_len() > 0 {
        parts.push(import.url.clone());
    }
    if import.text.unicode_len() > 0 {
        parts.push(import.text.clone());
    }
    proof {
        let all = seq![import.title@, import.url@, import.text@];
        reveal_with_fuel(Seq::filter, 4);
        assert(all.drop_last().drop_last().drop_last() =~= Seq::<Seq<char>>::empty());
        assert(all.drop_last().drop_last() =~= seq![import.title@]);
        assert(all.drop_last() =~= seq![import.title@, import.url@]);
        assert(texts(parts@) =~= all.filter(|v: Seq<char>| v.len() > 0));
    }
    let joined = crate::retrieval::join_texts(&parts, "\n");
    CaptureRequest {
        request_id: import.request_id.clone(),
        text: string_of(joined.as_slice()),
        space_id,
        origin: String::from_str("import"),
        reference: String::new(),
        clarifies: None,
    }
}

/// The title a key of a JSON object offers: its value, when that is a
/// non-empty string without secret references.
pub open spec fn offered_title(t: Seq<TokenView>, key: Seq<char>) -> Option<Seq<char>> {
    match member_value(t, 1, key) {
        Some(TokenView::Str(s)) => if s.len() > 0 && !contains(s, ref_open()) {
            Some(s)
        } else {
            None
        },
        _ => None,
    }
}

proof fn lemma_object_title_at(t: Seq<TokenView>, k: int, i: int)
    requires
        0 <= k <= i < title_keys().len(),
        offered_title(t, title_keys()[i]) is Some,
        forall|j: int| k <= j < i ==> offered_title(t, #[trigger] title_keys()[j]) is None,
    ensures
        object_title(t, k) == Some(first_100(offered_title(t, title_keys()[i]).unwrap())),
    decreases i - k,
{
    if k < i {
        assert(offered_title(t, title_keys()[k]) is None);
        lemma_object_title_at(t, k + 1, i);
    }
}

proof fn lemma_object_title_none(t: Seq<TokenView>, k: int)
    requires
        0 <= k <= title_keys().len(),
        forall|j: int| k <= j < title_keys().len() ==> offered_title(t, #[trigger] title_keys()[j]) is None,
    ensures
        object_title(t, k) is None,
    decreases title_keys().len() - k,
{
    if k < title_keys().len() {
        assert(offered_title(t, title_keys()[k]) is None);
        lemma_object_title_none(t, k + 1);
    }
}

/// A JSON object is titled by the first of title, project, website, name,
/// 项目, 标题, 网站 that offers a title (at most its first 100
/// characters), and
/// "账号与资料" when none does: an object with a usable "title" is titled
/// by it whatever else it holds.
pub proof fn lemma_objects_are_titled_by_preferred_keys(text: Seq<char>, t: Seq<TokenView>)
    requires
        t.len() > 0,
        t[0] is ObjectStart,
    ensures
        ({
            let keys = seq!["title"@, "project"@, "website"@, "name"@, "项目"@, "标题"@, "网站"@];
            &&& forall|i: int|
                0 <= i < keys.len() && offered_title(t, #[trigger] keys[i]) is Some && (forall|j: int|
                    0 <= j < i ==> offered_title(t, #[trigger] keys[j]) is None) ==> title_spec(text, Some(t))
                    == ({
                    let v = offered_title(t, keys[i]).unwrap();
                    if v.len() <= 100 {
                        v
                    } else {
                        v.subrange(0, 100)
                    }
                })
            &&& (forall|j: int| 0 <= j < keys.len() ==> offered_title(t, #[trigger] keys[j]) is None) ==> title_spec(
                text,
                Some(t),
            ) == "账号与资料"@
        }),
{
    let keys = seq!["title"@, "project"@, "website"@, "name"@, "项目"@, "标题"@, "网站"@];
    assert(keys =~= title_keys());
    assert forall|i: int|
        0 <= i < keys.len() && offered_title(t, #[trigger] keys[i]) is Some && (forall|j: int|
            0 <= j < i ==> offered_title(t, #[trigger] keys[j]) is None) implies title_spec(text, Some(t))
            == ({
            let v = offered_title(t, keys[i]).unwrap();
            if v.len() <= 100 {
                v
            } else {
                v.subrange(0, 100)
            }
        }) by {
        lemma_object_title_at(t, 0, i);
    }
    if forall|j: int| 0 <= j < keys.len() ==> offered_title(t, #[trigger] keys[j]) is None {
        lemma_object_title_none(t, 0);
    }
}

} // verus!
