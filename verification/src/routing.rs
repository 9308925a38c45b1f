//! How a chat message is answered: held back, greeted, saved, answered
//! from memory, or handed to the model with context.
use crate::access::MemoryError;
use crate::classifier::ChatIntent;
use crate::model::{texts, ChatRoute, ContextResult, MemoryEdge, MemoryNode, MemoryReference, SourceView, edges_view, nodes_view};
use crate::order::{least_texts, least_texts_of};
use crate::references::{mask_refs, mask_refs_spec};
use crate::retrieval::{joined, with_ends};
use crate::text::{chars_of, decimal, str_eq, string_of};
use vstd::prelude::*;

verus! {

pub open spec fn reference_view(r: MemoryReference) -> (Seq<char>, Seq<char>) {
    (r.id@, r.title@)
}

/// The first answer to a message, before it is classified: a message from
/// another space is `Missing`; a held-back one is acknowledged only.
pub fn route_start(source: &SourceView, space_id: &str) -> (r: Result<Option<ChatRoute>, MemoryError>)
    ensures
        source.space_id@ != space_id@ ==> (r matches Err(e) && e is Missing),
        source.space_id@ == space_id@ && source.status@ == "quarantined"@ ==> (r matches Ok(Some(c)) && c.route@ == "quarantined"@
            && (c.reply matches Some(t) && t@ == "已收下，资料已保密暂存。可以在这里补充这段资料的字段用途。"@)
            && c.context@.len() == 0 && c.citations@.len() == 0 && c.matched_node_ids@.len() == 0 && c.activated_node_ids@.len() == 0),
        source.space_id@ == space_id@ && source.status@ != "quarantined"@ ==> r matches Ok(None),
{
    if !str_eq(source.space_id.as_str(), space_id) {
        return Err(MemoryError::Missing);
    }
    if str_eq(source.status.as_str(), "quarantined") {
        return Ok(Some(ChatRoute {
            route: String::from_str("quarantined"),
            reply: Some(String::from_str("已收下，资料已保密暂存。可以在这里补充这段资料的字段用途。")),
            context: String::new(),
            citations: Vec::new(),
            matched_node_ids: Vec::new(),
            activated_node_ids: Vec::new(),
        }));
    }
    Ok(None)
}

/// The answer to a greeting.
pub open spec fn is_greeting_route(r: ChatRoute) -> bool {
    &&& r.route@ == "greeting"@
    &&& (r.reply matches Some(t) && t@ == "你好！可以直接发资料让我记住，也可以问我之前记录的内容。"@)
    &&& r.context@.len() == 0 && r.citations@.len() == 0 && r.matched_node_ids@.len() == 0 && r.activated_node_ids@.len() == 0
}

pub fn greeting_route() -> (r: ChatRoute)
    ensures
        is_greeting_route(r),
{
    ChatRoute {
        route: String::from_str("greeting"),
        reply: Some(String::from_str("你好！可以直接发资料让我记住，也可以问我之前记录的内容。")),
        context: String::new(),
        citations: Vec::new(),
        matched_node_ids: Vec::new(),
        activated_node_ids: Vec::new(),
    }
}

/// The answer to a message that is saved: compiled in the background when
/// the space has a model, kept until one is configured otherwise.
pub open spec fn is_save_route(r: ChatRoute, model_bound: bool, source_id: Seq<char>) -> bool {
    &&& r.route@ == "save"@
    &&& (r.reply matches Some(t) && t@ == (if model_bound {
        "已收下，正在后台整理。"@
    } else {
        "已收下，资料已保存。模型配置完成后继续整理。"@
    }))
    &&& r.context@.len() == 0 && r.citations@.len() == 0
    &&& texts(r.matched_node_ids@) == seq![source_id]
    &&& texts(r.activated_node_ids@) == seq![source_id]
}

pub fn save_route(model_bound: bool, source_id: &str) -> (r: ChatRoute)
    ensures
        is_save_route(r, model_bound, source_id@),
{
    let reply = if model_bound {
        String::from_str("已收下，正在后台整理。")
    } else {
        String::from_str("已收下，资料已保存。模型配置完成后继续整理。")
    };
    let matched = vec![String::from_str(source_id)];
    let activated = vec![String::from_str(source_id)];
    proof {
        assert(texts(matched@) =~= seq![source_id@]);
        assert(texts(activated@) =~= seq![source_id@]);
    }
    ChatRoute {
        route: String::from_str("save"),
        reply: Some(reply),
        context: String::new(),
        citations: Vec::new(),
        matched_node_ids: matched,
        activated_node_ids: activated,
    }
}

/// How a classified message is answered without memory: a greeting is
/// greeted and a message to remember is saved (`model_bound` telling
/// whether the space has a model); a question needs recall (`None`).
pub fn direct_route(intent: ChatIntent, model_bound: bool, source_id: &str) -> (r: Option<ChatRoute>)
    ensures
        intent is Greeting ==> (r matches Some(c) && is_greeting_route(c)),
        intent is Save ==> (r matches Some(c) && is_save_route(c, model_bound, source_id@)),
        (intent is Recall || intent is Model) ==> r is None,
{
    match intent {
        ChatIntent::Greeting => Some(greeting_route()),
        ChatIntent::Save => Some(save_route(model_bound, source_id)),
        ChatIntent::Recall => None,
        ChatIntent::Model => None,
    }
}

/// The texts other than `x`.
pub open spec fn without(s: Seq<Seq<char>>, x: Seq<char>) -> Seq<Seq<char>>
    decreases s.len(),
{
    if s.len() == 0 {
        Seq::empty()
    } else if s.last() == x {
        without(s.drop_last(), x)
    } else {
        without(s.drop_last(), x).push(s.last())
    }
}

fn all_but(items: &Vec<String>, x: &str) -> (r: Vec<String>)
    ensures
        texts(r@) == without(texts(items@), x@),
{
    let ghost iv = texts(items@);
    let mut out: Vec<String> = Vec::new();
    let mut k: usize = 0;
    proof {
        assert(iv.take(0) =~= Seq::<Seq<char>>::empty());
    }
    while k < items.len()
        invariant
            k <= items.len(),
            iv == texts(items@),
            texts(out@) == without(iv.take(k as int), x@),
        decreases items.len() - k,
    {
        proof {
            assert(iv.take(k + 1).drop_last() =~= iv.take(k as int));
            assert(iv.take(k + 1).last() == items@[k as int]@);
        }
        if !str_eq(items[k].as_str(), x) {
            let ghost before = out@;
            out.push(items[k].clone());
            proof {
                assert(texts(out@) =~= texts(before).push(items@[k as int]@));
            }
        }
        k = k + 1;
    }
    proof {
        assert(iv.take(items@.len() as int) =~= iv);
    }
    out
}

/// The notes a recall answer activates: the matched notes and their
/// neighbours, least 24 by id, the message's own source left out.
pub fn recall_included(matched: &Vec<String>, edges: &Vec<MemoryEdge>, source_id: &str) -> (r: Vec<String>)
    ensures
        least_texts_of(texts(r@), without(with_ends(texts(matched@), edges_view(edges@)), source_id@), 24),
{
    let mut all = crate::model::copy_texts(matched);
    let mut k: usize = 0;
    let ghost ev = edges_view(edges@);
    proof {
        assert(ev.take(0) =~= Seq::<crate::model::EdgeView>::empty());
    }
    while k < edges.len()
        invariant
            k <= edges.len(),
            ev == edges_view(edges@),
            texts(all@) == with_ends(texts(matched@), ev.take(k as int)),
        decreases edges.len() - k,
    {
        proof {
            assert(ev.take(k + 1).drop_last() =~= ev.take(k as int));
            assert(ev.take(k + 1).last() == edges@[k as int]@);
        }
        let ghost before = all@;
        all.push(edges[k].source.clone());
        all.push(edges[k].target.clone());
        proof {
            assert(texts(all@) =~= texts(before).push(edges@[k as int].source@).push(edges@[k as int].target@));
        }
        k = k + 1;
    }
    proof {
        assert(ev.take(edges@.len() as int) =~= ev);
    }
    least_texts(&all_but(&all, source_id), 24)
}

/// A recalled note as shown in an answer: its title, then its content
/// with references masked.
pub open spec fn recalled_text(n: crate::model::NodeView) -> Seq<char> {
    n.1 + "\n"@ + mask_refs_spec(n.3, "[保密字段]"@)
}

/// The answer from memory: how many notes were found and each of them,
/// or that nothing was found.
pub open spec fn recall_reply_spec(nodes: Seq<crate::model::NodeView>) -> Seq<char> {
    if nodes.len() == 0 {
        "当前空间没有找到相关资料。"@
    } else {
        "找到 "@ + decimal(nodes.len()) + " 条相关资料：\n\n"@ + joined(nodes.map_values(|n: crate::model::NodeView| recalled_text(n)), "\n\n"@)
    }
}

pub fn recall_reply(nodes: &Vec<MemoryNode>) -> (r: String)
    ensures
        r@ == recall_reply_spec(nodes_view(nodes@)),
{
    if nodes.len() == 0 {
        return String::from_str("当前空间没有找到相关资料。");
    }
    let mut bodies: Vec<String> = Vec::new();
    let mut k: usize = 0;
    let ghost nv = nodes_view(nodes@);
    while k < nodes.len()
        invariant
            k <= nodes.len(),
            nv == nodes_view(nodes@),
            texts(bodies@) == nv.take(k as int).map_values(|n: crate::model::NodeView| recalled_text(n)),
        decreases nodes.len() - k,
    {
        let mut b = chars_of(nodes[k].title.as_str());
        crate::text::append_chars(&mut b, &chars_of("\n"));
        crate::text::append_chars(&mut b, &mask_refs(&chars_of(nodes[k].content.as_str()), &chars_of("[保密字段]")));
        let ghost before = bodies@;
        let body = string_of(b.as_slice());
        bodies.push(body);
        proof {
            assert(nv[k as int] == nodes@[k as int]@);
            assert(body@ == recalled_text(nv[k as int]));
            assert(texts(bodies@) =~= texts(before).push(body@));
            assert(texts(bodies@) =~= nv.take(k + 1).map_values(|n: crate::model::NodeView| recalled_text(n)));
        }
        k = k + 1;
    }
    proof {
        assert(nv.take(nodes@.len() as int) =~= nv);
    }
    let mut out = chars_of("找到 ");
    crate::text::append_chars(&mut out, &crate::text::decimal_chars(nodes.len() as u128));
    crate::text::append_chars(&mut out, &chars_of(" 条相关资料：\n\n"));
    crate::text::append_chars(&mut out, &crate::retrieval::join_texts(&bodies, "\n\n"));
    proof {
        assert(nv.len() == nodes@.len());
    }
    string_of(out.as_slice())
}

/// How a note is cited.
pub fn citation(node: &MemoryNode) -> (r: MemoryReference)
    ensures
        reference_view(r) == (node.id@, node.title@),
{
    MemoryReference { id: node.id.clone(), title: node.title.clone() }
}

/// The answer from memory.
pub fn recall_route(reply: String, citations: Vec<MemoryReference>, matched: Vec<String>, included: Vec<String>) -> (r: ChatRoute)
    ensures
        r.route@ == "recall"@,
        r.reply == Some(reply),
        r.context@.len() == 0,
        r.citations == citations,
        r.matched_node_ids == matched,
        r.activated_node_ids == included,
{
    ChatRoute {
        route: String::from_str("recall"),
        reply: Some(reply),
        context: String::new(),
        citations,
        matched_node_ids: matched,
        activated_node_ids: included,
    }
}

/// The notes a model answer cites: those its context includes, the
/// message's own source left out.
pub fn context_included(context: &Option<ContextResult>, source_id: &str) -> (r: Vec<String>)
    ensures
        texts(r@) == match context {
            Some(c) => without(texts(c.node_ids@), source_id@),
            None => Seq::empty(),
        },
{
    match context {
        Some(c) => all_but(&c.node_ids, source_id),
        None => Vec::new(),
    }
}

/// The matched notes that the context includes, in order.
pub open spec fn kept_in(matched: Seq<Seq<char>>, included: Seq<Seq<char>>) -> Seq<Seq<char>>
    decreases matched.len(),
{
    if matched.len() == 0 {
        Seq::empty()
    } else if included.contains(matched.last()) {
        kept_in(matched.drop_last(), included).push(matched.last())
    } else {
        kept_in(matched.drop_last(), included)
    }
}

/// The answer the model gives with context: the context's text (empty
/// when nothing matched), its citations, the matched notes it includes.
pub fn model_route(context: Option<ContextResult>, citations: Vec<MemoryReference>, matched: &Vec<String>, included: Vec<String>) -> (r: ChatRoute)
    ensures
        r.route@ == "model"@,
        r.reply is None,
        r.context@ == match context {
            Some(c) => c.markdown@,
            None => Seq::empty(),
        },
        r.citations == citations,
        texts(r.matched_node_ids@) == kept_in(texts(matched@), texts(included@)),
        r.activated_node_ids == included,
{
    let ghost mv = texts(matched@);
    let mut kept: Vec<String> = Vec::new();
    let mut k: usize = 0;
    proof {
        assert(mv.take(0) =~= Seq::<Seq<char>>::empty());
    }
    while k < matched.len()
        invariant
            k <= matched.len(),
            mv == texts(matched@),
            texts(kept@) == kept_in(mv.take(k as int), texts(included@)),
        decreases matched.len() - k,
    {
        proof {
            assert(mv.take(k + 1).drop_last() =~= mv.take(k as int));
            assert(mv.take(k + 1).last() == matched@[k as int]@);
        }
        if crate::model::texts_contain(&included, matched[k].as_str()) {
            let ghost before = kept@;
            kept.push(matched[k].clone());
            proof {
                assert(texts(kept@) =~= texts(before).push(matched@[k as int]@));
            }
        }
        k = k + 1;
    }
    proof {
        assert(mv.take(matched@.len() as int) =~= mv);
    }
    let text = match context {
        Some(c) => c.markdown,
        None => String::new(),
    };
    ChatRoute {
        route: String::from_str("model"),
        reply: None,
        context: text,
        citations,
        matched_node_ids: kept,
        activated_node_ids: included,
    }
}

} // verus!
