//! Checks on searches, visibility and link queries, and on saving nodes.
use crate::access::{require_id, valid_id, MemoryError};
use crate::isolate::{ids_of, isolate, isolate_spec, isolation_document, entries_of};
use crate::model::{texts, NodeDraft, NodeKind, SearchRequest};
use crate::queue::isolation_clean;
use crate::references::{remove_refs, strip_refs};
use crate::order::{least_texts, least_texts_of};
use crate::text::{replace_spec, str_eq};
use crate::validation::{input_error, kind_key, kind_name};
use vstd::prelude::*;

verus! {

/// A search names at most 256 characters and asks for 1 to 200 nodes.
pub open spec fn search_ok(query: Seq<char>, limit: usize) -> bool {
    query.len() <= 256 && 1 <= limit <= 200
}

pub fn check_search(search: &SearchRequest) -> (r: Result<(), MemoryError>)
    ensures
        r is Ok <==> search_ok(search.query@, search.limit),
        r matches Err(e) ==> input_error(e, "搜索条件超出限制"@),
{
    if search.query.unicode_len() > 256 || search.limit < 1 || search.limit > 200 {
        return Err(MemoryError::Input(String::from_str("搜索条件超出限制")));
    }
    Ok(())
}

/// The `LIKE` pattern that finds `query` literally anywhere: backslash,
/// `%` and `_` escaped, wrapped in `%`.
pub open spec fn like_spec(query: Seq<char>) -> Seq<char> {
    seq!['%'] + replace_spec(
        replace_spec(replace_spec(query, seq!['\\'], seq!['\\', '\\']), seq!['%'], seq!['\\', '%']),
        seq!['_'],
        seq!['\\', '_'],
    ) + seq!['%']
}

pub fn like_pattern(query: &str) -> (r: String)
    ensures
        r@ == like_spec(query@),
{
    let back = vec!['\\'];
    let back2 = vec!['\\', '\\'];
    let pct = vec!['%'];
    let pct2 = vec!['\\', '%'];
    let und = vec!['_'];
    let und2 = vec!['\\', '_'];
    let a = crate::text::replace_chars(&crate::text::chars_of(query), &back, &back2);
    let b = crate::text::replace_chars(&a, &pct, &pct2);
    let c = crate::text::replace_chars(&b, &und, &und2);
    let mut out: Vec<char> = vec!['%'];
    crate::text::append_chars(&mut out, &c);
    out.push('%');
    proof {
        assert(back@ =~= seq!['\\']);
        assert(back2@ =~= seq!['\\', '\\']);
        assert(pct@ =~= seq!['%']);
        assert(pct2@ =~= seq!['\\', '%']);
        assert(und@ =~= seq!['_']);
        assert(und2@ =~= seq!['\\', '_']);
        assert(out@ =~= like_spec(query@));
    }
    crate::text::string_of(out.as_slice())
}

/// The kind a search is restricted to, by its stored name, or `""`.
pub fn kind_filter(kind: Option<NodeKind>) -> (r: &'static str)
    ensures
        r@ == match kind {
            Some(k) => kind_key(k),
            None => Seq::empty(),
        },
{
    proof {
        reveal_strlit("");
    }
    match kind {
        Some(k) => kind_name(k),
        None => "",
    }
}

/// A visibility query names at most 400 well-formed ids.
pub open spec fn visibility_error(ids: Seq<Seq<char>>) -> Option<Seq<char>> {
    if ids.len() > 400 {
        Some("引用数量超出限制"@)
    } else if exists|k: int| 0 <= k < ids.len() && !valid_id(#[trigger] ids[k]) {
        Some("节点或关系 ID 无效"@)
    } else {
        None
    }
}

pub fn check_visibility(ids: &Vec<String>) -> (r: Result<(), MemoryError>)
    ensures
        match visibility_error(texts(ids@)) {
            Some(m) => (r matches Err(e) && input_error(e, m)),
            None => r is Ok,
        },
{
    if ids.len() > 400 {
        return Err(MemoryError::Input(String::from_str("引用数量超出限制")));
    }
    let mut k: usize = 0;
    while k < ids.len()
        invariant
            k <= ids.len() <= 400,
            texts(ids@).len() == ids@.len(),
            forall|m: int| 0 <= m < k ==> valid_id(#[trigger] texts(ids@)[m]),
        decreases ids.len() - k,
    {
        proof {
            assert(texts(ids@)[k as int] == ids@[k as int]@);
        }
        match require_id(ids[k].as_str()) {
            Err(e) => {
                return Err(e);
            },
            Ok(()) => {},
        }
        k = k + 1;
    }
    Ok(())
}

/// The visible ids found, sorted and once each.
pub fn visible_ids(found: &Vec<String>) -> (r: Vec<String>)
    ensures
        least_texts_of(texts(r@), texts(found@), found@.len() as int),
{
    least_texts(found, found.len())
}

/// A link query on no node asks nothing (`Ok(false)`); at most 200 nodes
/// may be named.
pub fn check_links(ids: &Vec<String>) -> (r: Result<bool, MemoryError>)
    ensures
        ids@.len() == 0 ==> r == Ok::<bool, MemoryError>(false),
        0 < ids@.len() <= 200 ==> r == Ok::<bool, MemoryError>(true),
        ids@.len() > 200 ==> (r matches Err(e) && input_error(e, "一次最多查询 200 个节点"@)),
{
    if ids.len() == 0 {
        return Ok(false);
    }
    if ids.len() > 200 {
        return Err(MemoryError::Input(String::from_str("一次最多查询 200 个节点")));
    }
    Ok(true)
}

/// Every node named must be visible.
pub fn check_all_visible(visible: usize, named: usize) -> (r: Result<(), MemoryError>)
    ensures
        r is Ok <==> visible == named,
        r matches Err(e) ==> e is Missing,
{
    if visible != named {
        return Err(MemoryError::Missing);
    }
    Ok(())
}

/// Edges within the nodes (`AND`) or touching them (`OR`).
pub fn link_operator(internal_only: bool) -> (r: &'static str)
    ensures
        r@ == (if internal_only {
            "AND"@
        } else {
            "OR"@
        }),
{
    if internal_only {
        "AND"
    } else {
        "OR"
    }
}

/// Why saving a draft by `author` is refused: sources are written only by
/// the intake (`author` "source"); a revision must carry the version it
/// revises. `existing` is the kind of the node revised, if any.
pub open spec fn save_error(author: Seq<char>, existing: Option<NodeKind>, kind: NodeKind, version: Option<i64>) -> Option<Seq<char>> {
    match existing {
        Some(k) => if author != "source"@ && k == NodeKind::Source {
            Some("来源只能通过收件管线新增或修订"@)
        } else if version is None {
            Some("编辑时必须携带当前版本"@)
        } else {
            None
        },
        None => if author != "source"@ && kind == NodeKind::Source {
            Some("来源只能通过收件管线新增或修订"@)
        } else {
            None
        },
    }
}

pub fn check_save(author: &str, existing: Option<NodeKind>, kind: NodeKind, version: Option<i64>) -> (r: Result<(), MemoryError>)
    ensures
        match save_error(author@, existing, kind, version) {
            Some(m) => (r matches Err(e) && input_error(e, m)),
            None => r is Ok,
        },
{
    let intake = str_eq(author, "source");
    match existing {
        Some(k) => {
            if !intake && k == NodeKind::Source {
                return Err(MemoryError::Input(String::from_str("来源只能通过收件管线新增或修订")));
            }
            if version.is_none() {
                return Err(MemoryError::Input(String::from_str("编辑时必须携带当前版本")));
            }
        },
        None => {
            if !intake && kind == NodeKind::Source {
                return Err(MemoryError::Input(String::from_str("来源只能通过收件管线新增或修订")));
            }
        },
    }
    Ok(())
}

/// A revision that changed no row met a newer version.
pub fn check_updated(rows: u64) -> (r: Result<(), MemoryError>)
    ensures
        r is Ok <==> rows > 0,
        r matches Err(e) ==> e is Stale,
{
    if rows == 0 {
        return Err(MemoryError::Stale);
    }
    Ok(())
}

/// The texts of a draft: title, content, address, tags and aliases.
pub open spec fn draft_texts(d: NodeDraft) -> Seq<Seq<char>> {
    seq![d.title@, d.content@, d.url@] + texts(d.tags@) + texts(d.aliases@)
}

/// What isolation makes of a text, the references it already holds set
/// aside, when new secrets get the ids `ids`.
pub open spec fn edit_isolation(t: Seq<char>, ids: Seq<Seq<char>>) -> Option<(Seq<char>, crate::isolate::Entries, bool)> {
    isolate_spec(strip_refs(t), Seq::empty(), isolation_document(strip_refs(t), Seq::empty()), ids)
}

/// Isolation finds nothing in the text, for some ids it could draw.
pub open spec fn clean_text(t: Seq<char>) -> bool {
    exists|ids: Seq<Seq<char>>| isolation_clean(#[trigger] edit_isolation(t, ids))
}

/// A person's edit may not carry credentials: a draft written by "human"
/// is refused when isolating one of its texts, with the references they
/// already hold set aside, finds a secret or holds the text back. Other
/// authors are checked elsewhere. The ids isolation would give are random,
/// so the contract speaks of the ids it drew.
pub fn check_edit_secrets(author: &str, draft: &NodeDraft) -> (r: Result<(), MemoryError>)
    ensures
        author@ != "human"@ ==> r is Ok,
        author@ == "human"@ ==> match r {
            Ok(()) => forall|k: int| 0 <= k < draft_texts(*draft).len() ==> clean_text(#[trigger] draft_texts(*draft)[k]),
            Err(e) => input_error(e, "内容包含疑似秘密，请通过收件管线保存"@) && exists|k: int, ids: Seq<Seq<char>>|
                0 <= k < draft_texts(*draft).len() && (#[trigger] edit_isolation(draft_texts(*draft)[k], ids)) is Some
                    && !isolation_clean(edit_isolation(draft_texts(*draft)[k], ids)),
        },
{
    if !str_eq(author, "human") {
        return Ok(());
    }
    let mut fields: Vec<String> = Vec::new();
    fields.push(String::from_str(draft.title.as_str()));
    fields.push(String::from_str(draft.content.as_str()));
    fields.push(String::from_str(draft.url.as_str()));
    let mut k: usize = 0;
    while k < draft.tags.len()
        invariant
            k <= draft.tags.len(),
            texts(fields@) == seq![draft.title@, draft.content@, draft.url@] + texts(draft.tags@).take(k as int),
        decreases draft.tags.len() - k,
    {
        let ghost before = fields@;
        fields.push(String::from_str(draft.tags[k].as_str()));
        proof {
            assert(texts(draft.tags@).take(k + 1) =~= texts(draft.tags@).take(k as int).push(draft.tags@[k as int]@));
            assert(texts(fields@) =~= texts(before).push(draft.tags@[k as int]@));
        }
        k = k + 1;
    }
    let mut k: usize = 0;
    proof {
        assert(texts(draft.tags@).take(draft.tags@.len() as int) =~= texts(draft.tags@));
    }
    while k < draft.aliases.len()
        invariant
            k <= draft.aliases.len(),
            texts(fields@) == seq![draft.title@, draft.content@, draft.url@] + texts(draft.tags@) + texts(draft.aliases@).take(k as int),
        decreases draft.aliases.len() - k,
    {
        let ghost before = fields@;
        fields.push(String::from_str(draft.aliases[k].as_str()));
        proof {
            assert(texts(draft.aliases@).take(k + 1) =~= texts(draft.aliases@).take(k as int).push(draft.aliases@[k as int]@));
            assert(texts(fields@) =~= texts(before).push(draft.aliases@[k as int]@));
        }
        k = k + 1;
    }
    proof {
        assert(texts(draft.aliases@).take(draft.aliases@.len() as int) =~= texts(draft.aliases@));
        assert(texts(fields@) =~= draft_texts(*draft));
    }
    let none: Vec<String> = Vec::new();
    proof {
        assert(crate::patterns::strings_view(none@) =~= Seq::<Seq<char>>::empty());
    }
    let ghost all = draft_texts(*draft);
    let mut i: usize = 0;
    while i < fields.len()
        invariant
            i <= fields.len(),
            texts(fields@) == all,
            all == draft_texts(*draft),
            author@ == "human"@,
            none@.len() == 0,
            crate::patterns::strings_view(none@) == Seq::<Seq<char>>::empty(),
            forall|m: int| 0 <= m < i ==> clean_text(#[trigger] all[m]),
        decreases fields.len() - i,
    {
        let stripped = crate::text::string_of(remove_refs(&crate::text::chars_of(fields[i].as_str())).as_slice());
        proof {
            assert(stripped@ == strip_refs(all[i as int]));
        }
        let found = isolate(stripped.as_str(), &none);
        let ghost ids = ids_of(found.secrets@);
        proof {
            assert(all[i as int] == fields@[i as int]@);
            assert(entries_of(found.secrets@).len() == found.secrets@.len());
            assert(edit_isolation(all[i as int], ids) == Some(crate::isolate::isolation_view(found)));
        }
        if found.quarantined || found.secrets.len() > 0 {
            proof {
                assert(!isolation_clean(edit_isolation(all[i as int], ids)));
            }
            return Err(MemoryError::Input(String::from_str("内容包含疑似秘密，请通过收件管线保存")));
        }
        proof {
            assert(isolation_clean(edit_isolation(all[i as int], ids)));
            assert(clean_text(all[i as int]));
        }
        i = i + 1;
    }
    proof {
        assert(texts(fields@).len() == fields@.len());
    }
    Ok(())
}

} // verus!
