//! The memory model shared by the service and its clients: spaces and
//! roles, knowledge nodes and edges, intake sources, compilation tasks and
//! chat routing records.
use vstd::prelude::*;

verus! {

// ---------------------------------------------------------------- spaces

#[derive(Clone, Copy, Debug, PartialEq, Eq, Structural)]
pub enum SpaceRole {
    Owner,
    Editor,
    Reader,
}

impl SpaceRole {
    /// Owners and editors write; readers only read.
    pub fn can_write(self) -> (r: bool)
        ensures
            r == (self is Owner || self is Editor),
    {
        match self {
            SpaceRole::Owner => true,
            SpaceRole::Editor => true,
            SpaceRole::Reader => false,
        }
    }
}

#[derive(Clone, Debug)]
pub struct MemorySpace {
    pub id: String,
    pub title: String,
    pub personal: bool,
    pub role: SpaceRole,
    pub model_binding: Option<String>,
}

#[derive(Clone, Debug)]
pub struct SpaceDraft {
    pub title: String,
    pub model_binding: Option<String>,
}

#[derive(Clone, Debug)]
pub struct MemberDraft {
    pub user_id: String,
    pub role: SpaceRole,
}

#[derive(Clone, Debug)]
pub struct SpaceMember {
    pub user_id: String,
    pub role: SpaceRole,
}

#[derive(Clone, Debug)]
pub struct SecretGrant {
    pub user_id: String,
    pub reveal: bool,
    pub manage: bool,
}

#[derive(Clone, Debug)]
pub struct RevealedSecret {
    pub value: String,
}

/// Default of `SecretGrant::reveal` when a grant omits it.
pub fn true_value() -> (r: bool)
    ensures
        r,
{
    true
}

// ---------------------------------------------------------------- intake

#[derive(Clone, Debug)]
pub struct CaptureRequest {
    pub request_id: String,
    pub text: String,
    pub space_id: Option<String>,
    pub origin: String,
    pub reference: String,
    pub clarifies: Option<String>,
}

#[derive(Clone, Debug, PartialEq)]
pub struct SecretSummary {
    pub id: String,
    pub label: String,
    pub source_id: String,
    pub can_reveal: bool,
    pub can_manage: bool,
}

#[derive(Clone, Debug, PartialEq)]
pub struct SourceView {
    pub id: String,
    pub space_id: String,
    pub text: String,
    pub status: String,
    pub created_by: String,
    pub updated_at: i64,
    pub secrets: Vec<SecretSummary>,
    pub error: Option<String>,
    pub title: String,
    pub version: i64,
    pub origin: String,
    pub can_edit: bool,
    pub can_delete: bool,
}

/// A revision of a source's original text, carrying the version it was
/// previewed at.
#[derive(Clone, Debug)]
pub struct SourceUpdate {
    pub text: String,
    pub version: i64,
}

#[derive(Clone, Debug)]
pub struct SourceQuery {
    pub space_id: Option<String>,
    pub query: String,
    pub status: String,
    pub offset: i64,
    pub limit: i64,
}

/// Default page size of a source listing.
pub fn source_limit() -> (r: i64)
    ensures
        r == 200,
{
    200
}

#[derive(Clone, Debug)]
pub struct TaskRequest {
    pub space_id: String,
}

#[derive(Clone, Debug)]
pub struct CompilationTask {
    pub id: String,
    pub lease: String,
    pub source: SourceView,
    pub existing: Vec<MemoryNode>,
    pub model_binding: Option<String>,
    pub instructions: String,
}

#[derive(Clone, Debug, PartialEq)]
pub struct EntryProposal {
    pub draft: NodeDraft,
    pub existing_id: Option<String>,
    pub base_version: Option<i64>,
    pub secret_ids: Vec<String>,
}

#[derive(Clone, Debug, PartialEq)]
pub struct RelationProposal {
    pub source_index: usize,
    pub target_index: usize,
    pub relation: String,
    pub evidence: String,
}

#[derive(Clone, Debug, PartialEq)]
pub struct CompilationResult {
    pub entries: Vec<EntryProposal>,
    pub relations: Vec<RelationProposal>,
    pub needs_review: bool,
}

#[derive(Clone, Debug)]
pub struct TaskSubmission {
    pub lease: String,
    pub result: CompilationResult,
}

#[derive(Clone, Debug)]
pub struct TaskFailure {
    pub lease: String,
    pub code: String,
}

/// A person's decision on a conflicting proposal; `versions` pairs each
/// existing entry id with the version that person saw (ids are distinct).
#[derive(Clone, Debug)]
pub struct ReviewRequest {
    pub accept: bool,
    pub versions: Vec<(String, i64)>,
}

#[derive(Clone, Debug)]
pub struct SourceList {
    pub sources: Vec<SourceView>,
    pub truncated: bool,
    pub total: i64,
}

/// Default origin of a capture.
pub fn chat_origin() -> (r: String)
    ensures
        r@ == "chat"@,
{
    String::from_str("chat")
}

/// Default failure code reported by a worker.
pub fn model_unavailable() -> (r: String)
    ensures
        r@ == "model_unavailable"@,
{
    String::from_str("model_unavailable")
}

// ---------------------------------------------------------------- knowledge

#[derive(Clone, Copy, Debug, PartialEq, Eq, Structural)]
pub enum NodeKind {
    Note,
    Concept,
    Person,
    Event,
    Source,
    Project,
}

/// The display label of each node kind.
pub open spec fn kind_label(kind: NodeKind) -> Seq<char> {
    match kind {
        NodeKind::Note => "笔记"@,
        NodeKind::Concept => "概念"@,
        NodeKind::Person => "人物"@,
        NodeKind::Event => "事件"@,
        NodeKind::Source => "来源"@,
        NodeKind::Project => "项目"@,
    }
}

impl NodeKind {
    pub fn label(self) -> (r: &'static str)
        ensures
            r@ == kind_label(self),
    {
        match self {
            NodeKind::Note => "笔记",
            NodeKind::Concept => "概念",
            NodeKind::Person => "人物",
            NodeKind::Event => "事件",
            NodeKind::Source => "来源",
            NodeKind::Project => "项目",
        }
    }
}

#[derive(Clone, Debug, PartialEq)]
pub struct MemoryNode {
    pub id: String,
    pub title: String,
    pub kind: NodeKind,
    pub content: String,
    pub url: String,
    pub tags: Vec<String>,
    pub version: i64,
    pub updated_at: i64,
    pub aliases: Vec<String>,
}

#[derive(Clone, Debug, PartialEq)]
pub struct NodeDraft {
    pub title: String,
    pub kind: NodeKind,
    pub content: String,
    pub url: String,
    pub tags: Vec<String>,
    pub version: Option<i64>,
    pub aliases: Vec<String>,
}

#[derive(Clone, Debug, PartialEq)]
pub struct MemoryEdge {
    pub id: String,
    pub source: String,
    pub target: String,
    pub relation: String,
    pub evidence: String,
}

#[derive(Clone, Debug, PartialEq)]
pub struct EdgeDraft {
    pub source: String,
    pub target: String,
    pub relation: String,
    pub evidence: String,
}

#[derive(Clone, Debug, PartialEq)]
pub struct MemoryGraph {
    pub nodes: Vec<MemoryNode>,
    pub edges: Vec<MemoryEdge>,
    pub total: i64,
    pub truncated: bool,
}

#[derive(Clone, Debug)]
pub struct SearchRequest {
    pub query: String,
    pub kind: Option<NodeKind>,
    pub limit: usize,
}

#[derive(Clone, Debug)]
pub struct RecallRequest {
    pub query: String,
    pub limit: usize,
    pub exclude_ids: Vec<String>,
}

#[derive(Clone, Debug)]
pub struct VisibilityRequest {
    pub node_ids: Vec<String>,
}

#[derive(Clone, Debug)]
pub struct ImportRequest {
    pub request_id: String,
    pub title: String,
    pub text: String,
    pub url: String,
}

#[derive(Clone, Debug)]
pub struct ImportResult {
    pub source: MemoryNode,
    pub linked_nodes: i64,
}

#[derive(Clone, Debug)]
pub struct ContextRequest {
    pub node_ids: Vec<String>,
    pub depth: usize,
    pub max_characters: usize,
}

#[derive(Clone, Debug)]
pub struct ContextResult {
    pub markdown: String,
    pub node_ids: Vec<String>,
    pub truncated: bool,
}

#[derive(Clone, Debug)]
pub struct Failure {
    pub error: String,
}

#[derive(Clone, Debug)]
pub struct WikiRevision {
    pub version: i64,
    pub draft: NodeDraft,
    pub author_id: String,
    pub author_type: String,
    pub source_id: Option<String>,
    pub updated_at: i64,
}

#[derive(Clone, Debug)]
pub struct RollbackRequest {
    pub version: i64,
    pub current_version: i64,
}

/// Version of a node that omits one.
pub fn initial_version() -> (r: i64)
    ensures
        r == 1,
{
    1
}

/// Kind of a draft that omits one.
pub fn default_kind() -> (r: NodeKind)
    ensures
        r == NodeKind::Note,
{
    NodeKind::Note
}

/// Default result count of a search.
pub fn default_limit() -> (r: usize)
    ensures
        r == 200,
{
    200
}

/// Default result count of a recall.
pub fn default_recall_limit() -> (r: usize)
    ensures
        r == 8,
{
    8
}

/// Default relation depth of a context request.
pub fn default_depth() -> (r: usize)
    ensures
        r == 1,
{
    1
}

/// Default character budget of a context request.
pub fn default_characters() -> (r: usize)
    ensures
        r == 16000,
{
    16_000
}

// ---------------------------------------------------------------- routing

#[derive(Clone, Debug)]
pub struct RouteRequest {
    pub source_id: String,
}

#[derive(Clone, Debug, PartialEq)]
pub struct MemoryReference {
    pub id: String,
    pub title: String,
}

#[derive(Clone, Debug)]
pub struct ChatRoute {
    pub route: String,
    pub reply: Option<String>,
    pub context: String,
    pub citations: Vec<MemoryReference>,
    pub matched_node_ids: Vec<String>,
    pub activated_node_ids: Vec<String>,
}

#[derive(Clone, Debug)]
pub struct ActivationRequest {
    pub node_ids: Vec<String>,
}

// ---------------------------------------------------------------- views

/// The texts of a list of strings.
pub open spec fn texts(v: Seq<String>) -> Seq<Seq<char>> {
    v.map_values(|s: String| s@)
}

/// Title, kind, content, URL, tags, version and aliases.
pub type DraftView = (Seq<char>, NodeKind, Seq<char>, Seq<char>, Seq<Seq<char>>, Option<i64>, Seq<Seq<char>>);

impl View for NodeDraft {
    type V = DraftView;

    open spec fn view(&self) -> DraftView {
        (
            self.title@,
            self.kind,
            self.content@,
            self.url@,
            texts(self.tags@),
            self.version,
            texts(self.aliases@),
        )
    }
}

/// Draft, id of the node it revises, version it was based on, secrets it
/// may refer to.
pub type EntryView = (DraftView, Option<Seq<char>>, Option<i64>, Seq<Seq<char>>);

pub open spec fn opt_text(o: Option<String>) -> Option<Seq<char>> {
    match o {
        Some(s) => Some(s@),
        None => None,
    }
}

impl View for EntryProposal {
    type V = EntryView;

    open spec fn view(&self) -> EntryView {
        (self.draft@, opt_text(self.existing_id), self.base_version, texts(self.secret_ids@))
    }
}

/// Source entry, target entry, relation name, evidence.
pub type RelationView = (usize, usize, Seq<char>, Seq<char>);

impl View for RelationProposal {
    type V = RelationView;

    open spec fn view(&self) -> RelationView {
        (self.source_index, self.target_index, self.relation@, self.evidence@)
    }
}

pub type ResultView = (Seq<EntryView>, Seq<RelationView>, bool);

impl View for CompilationResult {
    type V = ResultView;

    open spec fn view(&self) -> ResultView {
        (
            self.entries@.map_values(|e: EntryProposal| e@),
            self.relations@.map_values(|r: RelationProposal| r@),
            self.needs_review,
        )
    }
}

/// A copy of a list of strings.
pub fn copy_texts(v: &Vec<String>) -> (r: Vec<String>)
    ensures
        texts(r@) == texts(v@),
{
    let mut r: Vec<String> = Vec::new();
    let mut i: usize = 0;
    while i < v.len()
        invariant
            i <= v.len(),
            r@.len() == i,
            forall|k: int| 0 <= k < i ==> (#[trigger] r@[k])@ == v@[k]@,
        decreases v.len() - i,
    {
        let c = v[i].clone();
        r.push(c);
        i = i + 1;
    }
    proof {
        assert(texts(r@) =~= texts(v@));
    }
    r
}

/// Whether two lists of strings hold the same texts in the same order.
pub fn same_texts(a: &Vec<String>, b: &Vec<String>) -> (r: bool)
    ensures
        r == (texts(a@) == texts(b@)),
{
    if a.len() != b.len() {
        proof {
            assert(texts(a@).len() != texts(b@).len());
        }
        return false;
    }
    let mut i: usize = 0;
    while i < a.len()
        invariant
            a.len() == b.len(),
            i <= a.len(),
            forall|k: int| 0 <= k < i ==> a@[k]@ == b@[k]@,
        decreases a.len() - i,
    {
        if !crate::text::str_eq(a[i].as_str(), b[i].as_str()) {
            proof {
                assert(texts(a@)[i as int] != texts(b@)[i as int]);
            }
            return false;
        }
        i = i + 1;
    }
    proof {
        assert(texts(a@) =~= texts(b@));
    }
    true
}

fn copy_opt(o: &Option<String>) -> (r: Option<String>)
    ensures
        opt_text(r) == opt_text(*o),
{
    match o {
        Some(s) => Some(s.clone()),
        None => None,
    }
}

fn same_opt(a: &Option<String>, b: &Option<String>) -> (r: bool)
    ensures
        r == (opt_text(*a) == opt_text(*b)),
{
    match (a, b) {
        (Some(x), Some(y)) => crate::text::str_eq(x.as_str(), y.as_str()),
        (None, None) => true,
        _ => false,
    }
}

impl NodeDraft {
    /// A field-by-field copy.
    pub fn duplicate(&self) -> (r: NodeDraft)
        ensures
            r@ == self@,
    {
        NodeDraft {
            title: self.title.clone(),
            kind: self.kind,
            content: self.content.clone(),
            url: self.url.clone(),
            tags: copy_texts(&self.tags),
            version: self.version,
            aliases: copy_texts(&self.aliases),
        }
    }

    /// Whether two drafts hold the same fields.
    pub fn same(&self, other: &NodeDraft) -> (r: bool)
        ensures
            r == (self@ == other@),
    {
        crate::text::str_eq(self.title.as_str(), other.title.as_str()) && self.kind == other.kind
            && crate::text::str_eq(self.content.as_str(), other.content.as_str())
            && crate::text::str_eq(self.url.as_str(), other.url.as_str()) && same_texts(
            &self.tags,
            &other.tags,
        ) && self.version == other.version && same_texts(&self.aliases, &other.aliases)
    }
}

impl EntryProposal {
    /// A field-by-field copy.
    pub fn duplicate(&self) -> (r: EntryProposal)
        ensures
            r@ == self@,
    {
        EntryProposal {
            draft: self.draft.duplicate(),
            existing_id: copy_opt(&self.existing_id),
            base_version: self.base_version,
            secret_ids: copy_texts(&self.secret_ids),
        }
    }

    pub fn same(&self, other: &EntryProposal) -> (r: bool)
        ensures
            r == (self@ == other@),
    {
        self.draft.same(&other.draft) && same_opt(&self.existing_id, &other.existing_id)
            && self.base_version == other.base_version && same_texts(
            &self.secret_ids,
            &other.secret_ids,
        )
    }
}

impl RelationProposal {
    pub fn duplicate(&self) -> (r: RelationProposal)
        ensures
            r@ == self@,
    {
        RelationProposal {
            source_index: self.source_index,
            target_index: self.target_index,
            relation: self.relation.clone(),
            evidence: self.evidence.clone(),
        }
    }

    pub fn same(&self, other: &RelationProposal) -> (r: bool)
        ensures
            r == (self@ == other@),
    {
        self.source_index == other.source_index && self.target_index == other.target_index
            && crate::text::str_eq(self.relation.as_str(), other.relation.as_str())
            && crate::text::str_eq(self.evidence.as_str(), other.evidence.as_str())
    }
}

impl CompilationResult {
    /// Whether two results propose the same entries, relations and review
    /// flag.
    pub fn same(&self, other: &CompilationResult) -> (r: bool)
        ensures
            r == (self@ == other@),
    {
        if self.needs_review != other.needs_review || self.entries.len() != other.entries.len()
            || self.relations.len() != other.relations.len() {
            proof {
                if self.entries.len() != other.entries.len() {
                    assert(self@.0.len() != other@.0.len());
                }
                if self.relations.len() != other.relations.len() {
                    assert(self@.1.len() != other@.1.len());
                }
            }
            return false;
        }
        let mut i: usize = 0;
        while i < self.entries.len()
            invariant
                self.entries.len() == other.entries.len(),
                i <= self.entries.len(),
                forall|k: int| 0 <= k < i ==> self.entries@[k]@ == other.entries@[k]@,
            decreases self.entries.len() - i,
        {
            if !self.entries[i].same(&other.entries[i]) {
                proof {
                    assert(self@.0[i as int] != other@.0[i as int]);
                }
                return false;
            }
            i = i + 1;
        }
        let mut j: usize = 0;
        while j < self.relations.len()
            invariant
                self.relations.len() == other.relations.len(),
                j <= self.relations.len(),
                forall|k: int| 0 <= k < j ==> self.relations@[k]@ == other.relations@[k]@,
            decreases self.relations.len() - j,
        {
            if !self.relations[j].same(&other.relations[j]) {
                proof {
                    assert(self@.1[j as int] != other@.1[j as int]);
                }
                return false;
            }
            j = j + 1;
        }
        proof {
            assert(self@.0 =~= other@.0);
            assert(self@.1 =~= other@.1);
        }
        true
    }
}

/// Id, title, kind, content, URL, tags, version, update time and aliases.
pub type NodeView = (
    Seq<char>,
    Seq<char>,
    NodeKind,
    Seq<char>,
    Seq<char>,
    Seq<Seq<char>>,
    i64,
    i64,
    Seq<Seq<char>>,
);

impl View for MemoryNode {
    type V = NodeView;

    open spec fn view(&self) -> NodeView {
        (
            self.id@,
            self.title@,
            self.kind,
            self.content@,
            self.url@,
            texts(self.tags@),
            self.version,
            self.updated_at,
            texts(self.aliases@),
        )
    }
}

impl MemoryNode {
    /// A field-by-field copy.
    pub fn duplicate(&self) -> (r: MemoryNode)
        ensures
            r@ == self@,
    {
        MemoryNode {
            id: self.id.clone(),
            title: self.title.clone(),
            kind: self.kind,
            content: self.content.clone(),
            url: self.url.clone(),
            tags: copy_texts(&self.tags),
            version: self.version,
            updated_at: self.updated_at,
            aliases: copy_texts(&self.aliases),
        }
    }
}

/// Whether one of the strings is `x`.
pub fn texts_contain(v: &Vec<String>, x: &str) -> (r: bool)
    ensures
        r == texts(v@).contains(x@),
{
    let mut i: usize = 0;
    while i < v.len()
        invariant
            i <= v.len(),
            forall|k: int| 0 <= k < i ==> v@[k]@ != x@,
        decreases v.len() - i,
    {
        if crate::text::str_eq(v[i].as_str(), x) {
            proof {
                assert(texts(v@)[i as int] == x@);
            }
            return true;
        }
        i = i + 1;
    }
    proof {
        if texts(v@).contains(x@) {
            let k = choose|k: int| 0 <= k < texts(v@).len() && texts(v@)[k] == x@;
            assert(v@[k]@ == x@);
        }
    }
    false
}

/// Id, source, target, relation and evidence.
pub type EdgeView = (Seq<char>, Seq<char>, Seq<char>, Seq<char>, Seq<char>);

impl View for MemoryEdge {
    type V = EdgeView;

    open spec fn view(&self) -> EdgeView {
        (self.id@, self.source@, self.target@, self.relation@, self.evidence@)
    }
}

impl MemoryEdge {
    pub fn duplicate(&self) -> (r: MemoryEdge)
        ensures
            r@ == self@,
    {
        MemoryEdge {
            id: self.id.clone(),
            source: self.source.clone(),
            target: self.target.clone(),
            relation: self.relation.clone(),
            evidence: self.evidence.clone(),
        }
    }
}

pub open spec fn nodes_view(v: Seq<MemoryNode>) -> Seq<NodeView> {
    v.map_values(|n: MemoryNode| n@)
}

pub open spec fn edges_view(v: Seq<MemoryEdge>) -> Seq<EdgeView> {
    v.map_values(|e: MemoryEdge| e@)
}

} // verus!
