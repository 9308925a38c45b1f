//! What the memory workbench shows: its views, the kinds a person may
//! create, how a source's state reads, and how typed lists of tags and
//! aliases are read and shown.
use crate::model::{texts, MemorySpace, NodeDraft, NodeKind, SourceView};
use crate::text::{chars_of, replace_spec, str_eq, string_of, trim, trim_chars};
use vstd::prelude::*;
use vstd::view::View as _;

verus! {

#[derive(Clone, Copy, Debug, PartialEq, Eq, Structural)]
pub enum View {
    Wiki,
    Graph,
    Sources,
    Credentials,
    Pending,
}

pub open spec fn view_label(v: View) -> Seq<char> {
    match v {
        View::Wiki => "Wiki"@,
        View::Graph => "图谱"@,
        View::Sources => "来源"@,
        View::Credentials => "凭据"@,
        View::Pending => "待整理"@,
    }
}

impl View {
    pub fn label(self) -> (r: &'static str)
        ensures
            r@ == view_label(self),
    {
        match self {
            View::Wiki => "Wiki",
            View::Graph => "图谱",
            View::Sources => "来源",
            View::Credentials => "凭据",
            View::Pending => "待整理",
        }
    }

    /// The view shown when none was chosen.
    pub fn current(chosen: Option<View>) -> (r: View)
        ensures
            r == match chosen {
                Some(v) => v,
                None => View::Wiki,
            },
    {
        match chosen {
            Some(v) => v,
            None => View::Wiki,
        }
    }
}

/// The kinds a person may create, with their labels; sources come only
/// from the intake.
pub fn kind_options() -> (r: Vec<(&'static str, NodeKind)>)
    ensures
        r@.len() == 5,
        r@[0].0@ == "笔记"@ && r@[0].1 == NodeKind::Note,
        r@[1].0@ == "概念"@ && r@[1].1 == NodeKind::Concept,
        r@[2].0@ == "人物"@ && r@[2].1 == NodeKind::Person,
        r@[3].0@ == "事件"@ && r@[3].1 == NodeKind::Event,
        r@[4].0@ == "项目"@ && r@[4].1 == NodeKind::Project,
{
    vec![("笔记", NodeKind::Note), ("概念", NodeKind::Concept), ("人物", NodeKind::Person), ("事件", NodeKind::Event), ("项目", NodeKind::Project)]
}

/// How a source's state reads.
pub open spec fn status_label(status: Seq<char>) -> Seq<char> {
    if status == "pending"@ {
        "待整理"@
    } else if status == "processing"@ {
        "整理中"@
    } else if status == "complete"@ {
        "已整理"@
    } else if status == "conflict"@ {
        "待核实"@
    } else if status == "failed"@ {
        "整理失败"@
    } else if status == "quarantined"@ {
        "保密暂存"@
    } else if status == "recorded"@ {
        "对话记录"@
    } else {
        "未知"@
    }
}

pub fn source_status(source: &SourceView) -> (r: &'static str)
    ensures
        r@ == status_label(source.status@),
{
    let s = source.status.as_str();
    if str_eq(s, "pending") {
        "待整理"
    } else if str_eq(s, "processing") {
        "整理中"
    } else if str_eq(s, "complete") {
        "已整理"
    } else if str_eq(s, "conflict") {
        "待核实"
    } else if str_eq(s, "failed") {
        "整理失败"
    } else if str_eq(s, "quarantined") {
        "保密暂存"
    } else if str_eq(s, "recorded") {
        "对话记录"
    } else {
        "未知"
    }
}

/// The pieces of a text between commas.
pub open spec fn comma_pieces(s: Seq<char>) -> Seq<Seq<char>>
    decreases s.len(),
{
    if s.len() == 0 {
        seq![Seq::empty()]
    } else {
        let p = comma_pieces(s.drop_last());
        if s.last() == ',' {
            p.push(Seq::empty())
        } else {
            p.update(p.len() - 1, p.last().push(s.last()))
        }
    }
}

proof fn lemma_comma_pieces_len(s: Seq<char>)
    ensures
        comma_pieces(s).len() >= 1,
    decreases s.len(),
{
    if s.len() > 0 {
        lemma_comma_pieces_len(s.drop_last());
    }
}

/// The trimmed pieces that are not blank.
pub open spec fn filled_pieces(p: Seq<Seq<char>>) -> Seq<Seq<char>>
    decreases p.len(),
{
    if p.len() == 0 {
        Seq::empty()
    } else if trim(p.last()).len() > 0 {
        filled_pieces(p.drop_last()).push(trim(p.last()))
    } else {
        filled_pieces(p.drop_last())
    }
}

/// A comma-separated list as typed: each item trimmed, blank ones dropped.
pub fn split(value: String) -> (r: Vec<String>)
    ensures
        texts(r@) == filled_pieces(comma_pieces(value@)),
{
    let c = chars_of(value.as_str());
    let mut done: Vec<Vec<char>> = Vec::new();
    let mut cur: Vec<char> = Vec::new();
    let mut i: usize = 0;
    proof {
        assert(c@.take(0) =~= Seq::<char>::empty());
    }
    while i < c.len()
        invariant
            i <= c.len(),
            c@ == value@,
            done@.map_values(|v: Vec<char>| v@).push(cur@) == comma_pieces(c@.take(i as int)),
        decreases c.len() - i,
    {
        let ch = c[i];
        let ghost prev = done@.map_values(|v: Vec<char>| v@).push(cur@);
        proof {
            assert(c@.take(i + 1).drop_last() =~= c@.take(i as int));
            assert(c@.take(i + 1).last() == ch);
            lemma_comma_pieces_len(c@.take(i as int));
        }
        if ch == ',' {
            let finished = cur;
            let ghost before = done@;
            done.push(finished);
            cur = Vec::new();
            proof {
                assert(done@.map_values(|v: Vec<char>| v@) =~= before.map_values(|v: Vec<char>| v@).push(finished@));
                assert(done@.map_values(|v: Vec<char>| v@).push(cur@) =~= prev.push(Seq::empty()));
            }
        } else {
            cur.push(ch);
            proof {
                assert(done@.map_values(|v: Vec<char>| v@).push(cur@) =~= prev.update(prev.len() - 1, prev.last().push(ch)));
            }
        }
        i = i + 1;
    }
    proof {
        assert(c@.take(c@.len() as int) =~= c@);
    }
    let ghost before = done@;
    done.push(cur);
    let ghost pv = done@.map_values(|v: Vec<char>| v@);
    proof {
        assert(pv =~= before.map_values(|v: Vec<char>| v@).push(cur@));
    }
    let mut out: Vec<String> = Vec::new();
    let mut k: usize = 0;
    proof {
        assert(pv.take(0) =~= Seq::<Seq<char>>::empty());
    }
    while k < done.len()
        invariant
            k <= done.len(),
            pv == done@.map_values(|v: Vec<char>| v@),
            texts(out@) == filled_pieces(pv.take(k as int)),
        decreases done.len() - k,
    {
        proof {
            assert(pv.take(k + 1).drop_last() =~= pv.take(k as int));
            assert(pv.take(k + 1).last() == done@[k as int]@);
        }
        let t = trim_chars(&done[k]);
        if t.len() > 0 {
            let ghost old_out = out@;
            out.push(string_of(t.as_slice()));
            proof {
                assert(texts(out@) =~= texts(old_out).push(t@));
            }
        }
        k = k + 1;
    }
    proof {
        assert(pv.take(done@.len() as int) =~= pv);
    }
    out
}

/// Tags shown as `#tag`, separated by spaces.
pub open spec fn tags_shown(tags: Seq<Seq<char>>) -> Seq<char> {
    crate::retrieval::joined(tags.map_values(|t: Seq<char>| "#"@ + t), " "@)
}

pub fn tag_text(tags: &Vec<String>) -> (r: String)
    ensures
        r@ == tags_shown(texts(tags@)),
{
    let mut marked: Vec<String> = Vec::new();
    let mut k: usize = 0;
    while k < tags.len()
        invariant
            k <= tags.len(),
            texts(marked@) == texts(tags@).take(k as int).map_values(|t: Seq<char>| "#"@ + t),
        decreases tags.len() - k,
    {
        let mut c = chars_of("#");
        crate::text::append_chars(&mut c, &chars_of(tags[k].as_str()));
        let ghost before = marked@;
        let s = string_of(c.as_slice());
        marked.push(s);
        proof {
            assert(texts(marked@) =~= texts(before).push(s@));
            assert(texts(tags@).take(k + 1).map_values(|t: Seq<char>| "#"@ + t) =~= texts(tags@).take(k as int).map_values(|t: Seq<char>| "#"@ + t).push("#"@ + tags@[k as int]@));
        }
        k = k + 1;
    }
    proof {
        assert(texts(tags@).take(tags@.len() as int) =~= texts(tags@));
    }
    string_of(crate::retrieval::join_texts(&marked, " ").as_slice())
}

/// The draft a node dialog submits, tags and aliases read as typed lists.
pub fn draft(title: String, kind: NodeKind, content: String, url: String, tags: String, aliases: String, version: Option<i64>) -> (r: NodeDraft)
    ensures
        r.title == title,
        r.kind == kind,
        r.content == content,
        r.url == url,
        texts(r.tags@) == filled_pieces(comma_pieces(tags@)),
        texts(r.aliases@) == filled_pieces(comma_pieces(aliases@)),
        r.version == version,
{
    NodeDraft { title, kind, content, url, tags: split(tags), version, aliases: split(aliases) }
}

/// How a note's origin reads.
pub open spec fn origin_text(origin: Seq<char>) -> Seq<char> {
    if origin == "chat"@ {
        "对话"@
    } else if origin == "import"@ {
        "导入"@
    } else {
        "随心记"@
    }
}

pub fn origin_label(origin: &str) -> (r: &'static str)
    ensures
        r@ == origin_text(origin@),
{
    if str_eq(origin, "chat") {
        "对话"
    } else if str_eq(origin, "import") {
        "导入"
    } else {
        "随心记"
    }
}

/// A source's text on one line: trimmed, line breaks as spaces.
pub open spec fn preview_text(text: Seq<char>) -> Seq<char> {
    replace_spec(trim(text), seq!['\n'], seq![' '])
}

/// A card's title: the first 34 characters of the preview, with `…` when
/// the preview is longer.
pub open spec fn card_title(preview: Seq<char>) -> Seq<char> {
    if preview.len() > 34 {
        preview.take(34) + seq!['…']
    } else {
        preview
    }
}

/// The title and preview a recent source's card shows.
pub fn quick_card(source: &SourceView) -> (r: (String, String))
    ensures
        r.1@ == preview_text(source.text@),
        r.0@ == card_title(preview_text(source.text@)),
{
    let line_break = vec!['\n'];
    let space = vec![' '];
    proof {
        assert(line_break@ =~= seq!['\n']);
        assert(space@ =~= seq![' ']);
    }
    let preview = crate::text::replace_chars(&trim_chars(&chars_of(source.text.as_str())), &line_break, &space);
    let title = if preview.len() > 34 {
        let mut t: Vec<char> = Vec::new();
        let mut k: usize = 0;
        while k < 34
            invariant
                k <= 34 < preview@.len(),
                t@ == preview@.take(k as int),
            decreases 34 - k,
        {
            t.push(preview[k]);
            proof {
                assert(preview@.take(k + 1) =~= preview@.take(k as int).push(preview@[k as int]));
            }
            k = k + 1;
        }
        t.push('…');
        proof {
            assert(t@ =~= preview@.take(34) + seq!['…']);
        }
        string_of(t.as_slice())
    } else {
        string_of(preview.as_slice())
    };
    (title, string_of(preview.as_slice()))
}

/// Sources still to be compiled or settled.
pub open spec fn waiting_status(status: Seq<char>) -> bool {
    status == "pending"@ || status == "processing"@ || status == "failed"@ || status == "conflict"@
        || status == "quarantined"@
}

/// Whether the pending view lists a source.
pub fn waiting(source: &SourceView) -> (r: bool)
    ensures
        r == waiting_status(source.status@),
{
    let st = source.status.as_str();
    str_eq(st, "pending") || str_eq(st, "processing") || str_eq(st, "failed") || str_eq(st, "conflict") || str_eq(
        st,
        "quarantined",
    )
}

/// The page a listing of 24 per page shows at `offset`, and how many
/// pages there are (at least one).
pub fn page_position(offset: i64, total: i64) -> (r: (i64, i64))
    requires
        offset >= 0,
        total <= i64::MAX - 23,
    ensures
        r.0 == offset / 24 + 1,
        r.1 == (if total + 23 > 24 { total + 23 } else { 24 }) / 24,
{
    let padded = if total + 23 > 24 { total + 23 } else { 24 };
    (offset / 24 + 1, padded / 24)
}

/// The offset of the previous page, never below 0.
pub fn previous_offset(offset: i64) -> (r: i64)
    requires
        offset >= i64::MIN + 24,
    ensures
        r == (if offset - 24 > 0 { offset - 24 } else { 0 }),
{
    if offset - 24 > 0 {
        offset - 24
    } else {
        0
    }
}

/// The kind a kind selector's value names; anything else is a note.
pub open spec fn chosen_kind_spec(value: Seq<char>) -> NodeKind {
    if value == "Concept"@ {
        NodeKind::Concept
    } else if value == "Person"@ {
        NodeKind::Person
    } else if value == "Event"@ {
        NodeKind::Event
    } else if value == "Project"@ {
        NodeKind::Project
    } else {
        NodeKind::Note
    }
}

pub fn chosen_kind(value: &str) -> (r: NodeKind)
    ensures
        r == chosen_kind_spec(value@),
{
    if str_eq(value, "Concept") {
        NodeKind::Concept
    } else if str_eq(value, "Person") {
        NodeKind::Person
    } else if str_eq(value, "Event") {
        NodeKind::Event
    } else if str_eq(value, "Project") {
        NodeKind::Project
    } else {
        NodeKind::Note
    }
}

/// Whether the caller may write to the chosen space.
pub fn space_writable(spaces: &Vec<MemorySpace>, space_id: &str) -> (r: bool)
    ensures
        r == exists|k: int|
            0 <= k < spaces@.len() && (#[trigger] spaces@[k]).id@ == space_id@ && (spaces@[k].role is Owner
                || spaces@[k].role is Editor),
{
    let mut k: usize = 0;
    while k < spaces.len()
        invariant
            k <= spaces.len(),
            forall|m: int|
                0 <= m < k ==> !((#[trigger] spaces@[m]).id@ == space_id@ && (spaces@[m].role is Owner
                    || spaces@[m].role is Editor)),
        decreases spaces.len() - k,
    {
        if str_eq(spaces[k].id.as_str(), space_id) && spaces[k].role.can_write() {
            return true;
        }
        k = k + 1;
    }
    false
}

/// The title shown for the chosen space: its own, or the personal space's.
pub open spec fn title_shown(spaces: Seq<MemorySpace>, space_id: Option<Seq<char>>) -> Seq<char> {
    match space_id {
        Some(id) => match first_space(spaces, id) {
            Some(k) => spaces[k].title@,
            None => "个人空间"@,
        },
        None => "个人空间"@,
    }
}

pub fn space_title(spaces: &Vec<MemorySpace>, space_id: Option<&str>) -> (r: String)
    ensures
        r@ == title_shown(spaces@, match space_id {
            Some(id) => Some(id@),
            None => None,
        }),
{
    if let Some(id) = space_id {
        let mut k: usize = 0;
        while k < spaces.len()
            invariant
                k <= spaces.len(),
                space_id == Some(id),
                forall|m: int| 0 <= m < k ==> (#[trigger] spaces@[m]).id@ != id@,
            decreases spaces.len() - k,
        {
            if str_eq(spaces[k].id.as_str(), id) {
                proof {
                    lemma_first_space(spaces@, id@, k as int);
                }
                return String::from_str(spaces[k].title.as_str());
            }
            k = k + 1;
        }
        proof {
            lemma_no_space(spaces@, id@);
        }
    }
    String::from_str("个人空间")
}

/// The first space with this id.
pub open spec fn first_space(spaces: Seq<MemorySpace>, id: Seq<char>) -> Option<int>
    decreases spaces.len(),
{
    if spaces.len() == 0 {
        None
    } else if spaces[0].id@ == id {
        Some(0)
    } else {
        match first_space(spaces.drop_first(), id) {
            Some(k) => Some(k + 1),
            None => None,
        }
    }
}

proof fn lemma_first_space(spaces: Seq<MemorySpace>, id: Seq<char>, k: int)
    requires
        0 <= k < spaces.len(),
        spaces[k].id@ == id,
        forall|m: int| 0 <= m < k ==> (#[trigger] spaces[m]).id@ != id,
    ensures
        first_space(spaces, id) == Some(k),
    decreases k,
{
    if k > 0 {
        lemma_first_space(spaces.drop_first(), id, k - 1);
    }
}

proof fn lemma_no_space(spaces: Seq<MemorySpace>, id: Seq<char>)
    requires
        forall|m: int| 0 <= m < spaces.len() ==> (#[trigger] spaces[m]).id@ != id,
    ensures
        first_space(spaces, id) is None,
    decreases spaces.len(),
{
    if spaces.len() > 0 {
        lemma_no_space(spaces.drop_first(), id);
    }
}

/// A note may be saved into a writable space while nothing is being saved
/// and its text is not blank.
pub fn can_save_note(can_write: bool, saving: bool, text: &str) -> (r: bool)
    ensures
        r == (can_write && !saving && trim(text@).len() > 0),
{
    can_write && !saving && trim_chars(&chars_of(text)).len() > 0
}

/// A note longer than 100 KB is refused before it is sent.
pub fn note_error(text: &str) -> (r: Option<&'static str>)
    ensures
        crate::text::byte_len(text@) > 100_000 ==> (r matches Some(m) && m@ == "正文不能超过 100 KB"@),
        crate::text::byte_len(text@) <= 100_000 ==> r is None,
{
    if crate::text::byte_len_exceeds(&chars_of(text), 100_000) {
        Some("正文不能超过 100 KB")
    } else {
        None
    }
}

} // verus!
