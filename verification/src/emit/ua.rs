//! Tagged-PDF (PDF/UA-1) decisions: how a box's paint is bracketed in the
//! content stream, the per-page marked-content numbering, and the XMP packet
//! identifying the document as PDF/UA.
use vstd::prelude::*;
use crate::chars::{chars_of, push_chars, string_of};
use crate::layout::fragment::UaRole;
use crate::layout::value::{BorderEdges, Rgba};
use crate::template::regions::{replace_all, replace_all_chars};

verus! {

/// How a fragment's paint is bracketed in the content stream.
#[derive(Debug, Clone, Copy, PartialEq, Eq, Structural)]
pub enum WrapKind {
    /// Not bracketed (paints nothing, or is a directive).
    NoWrap,
    /// Bracketed as `/Artifact … BDC … EMC` (decoration, skipped by readers).
    Artifact,
    /// Bracketed as real content with an `/MCID` (linked into the struct tree).
    Content,
}

/// A box's wrap: an artifact when it paints (a background or a visible
/// border), else nothing.
pub fn box_wrap(background: Option<Rgba>, border: &BorderEdges) -> (res: WrapKind)
    ensures
        res == if background is Some || border.top.width > 0 || border.right.width > 0
            || border.bottom.width > 0 || border.left.width > 0 {
            WrapKind::Artifact
        } else {
            WrapKind::NoWrap
        },
{
    if background.is_some() || border.any_visible() {
        WrapKind::Artifact
    } else {
        WrapKind::NoWrap
    }
}

/// What a placed fragment paints, as the tagging decisions read it.
#[derive(Debug, Clone, Copy)]
pub enum PaintKind {
    /// A line of text.
    TextLine,
    /// A raster image.
    Image,
    /// A box, with its background and border.
    Box { background: Option<Rgba>, border: BorderEdges },
    /// A paged-media directive marker (paints nothing).
    Directive,
}

/// Whether a box paints: a background or a visible border side.
pub open spec fn box_paints(background: Option<Rgba>, border: BorderEdges) -> bool {
    background is Some || border.top.width > 0 || border.right.width > 0 || border.bottom.width > 0
        || border.left.width > 0
}

/// Whether a fragment emits any paint at all.
pub open spec fn paints_spec(k: PaintKind) -> bool {
    match k {
        PaintKind::TextLine => true,
        PaintKind::Image => true,
        PaintKind::Box { background, border } => box_paints(background, border),
        PaintKind::Directive => false,
    }
}

/// Whether a fragment is real content (text or an image).
pub open spec fn is_content_spec(k: PaintKind) -> bool {
    k is TextLine || k is Image
}

/// The bracket of a fragment: in an artifact band (running header or footer)
/// anything that paints is an artifact; in a content band text and images
/// are content, a painting box is decoration, the rest is unbracketed.
pub open spec fn wrap_kind_spec(k: PaintKind, artifact_band: bool) -> WrapKind {
    if artifact_band {
        if paints_spec(k) {
            WrapKind::Artifact
        } else {
            WrapKind::NoWrap
        }
    } else if is_content_spec(k) {
        WrapKind::Content
    } else if paints_spec(k) {
        WrapKind::Artifact
    } else {
        WrapKind::NoWrap
    }
}

/// Whether a fragment emits any paint operators at all (so a bracket would
/// wrap real bytes).
pub fn paints(k: &PaintKind) -> (res: bool)
    ensures
        res == paints_spec(*k),
{
    match k {
        PaintKind::TextLine | PaintKind::Image => true,
        PaintKind::Box { background, border } => background.is_some() || border.any_visible(),
        PaintKind::Directive => false,
    }
}

/// Whether a fragment takes a content id in a content band.
pub fn is_content(k: &PaintKind) -> (res: bool)
    ensures
        res == is_content_spec(*k),
{
    matches!(k, PaintKind::TextLine | PaintKind::Image)
}

/// In an artifact band, a painting fragment is an artifact; an empty one
/// needs no bracket.
fn artifact_or_none(k: &PaintKind) -> (res: WrapKind)
    ensures
        res == wrap_kind_spec(*k, true),
{
    if paints(k) {
        WrapKind::Artifact
    } else {
        WrapKind::NoWrap
    }
}

/// The bracket of a fragment in a content band.
fn content_band_kind(k: &PaintKind) -> (res: WrapKind)
    ensures
        res == wrap_kind_spec(*k, false),
{
    match k {
        PaintKind::TextLine | PaintKind::Image => WrapKind::Content,
        PaintKind::Box { background, border } => box_wrap(*background, border),
        PaintKind::Directive => WrapKind::NoWrap,
    }
}

/// How a fragment's own paint is bracketed in the content stream.
pub fn wrap_kind(k: &PaintKind, artifact_band: bool) -> (res: WrapKind)
    ensures
        res == wrap_kind_spec(*k, artifact_band),
{
    if artifact_band {
        return artifact_or_none(k);
    }
    content_band_kind(k)
}

/// The painter and the structure planner number content alike: in a content
/// band a fragment is bracketed as content exactly when the planner gives it
/// a content id, and nothing in an artifact band is ever content; a fragment
/// bracketed at all paints something.
pub proof fn painter_and_planner_agree(k: PaintKind, artifact_band: bool)
    ensures
        !artifact_band ==> (wrap_kind_spec(k, artifact_band) == WrapKind::Content <==> is_content_spec(k)),
        artifact_band ==> wrap_kind_spec(k, artifact_band) != WrapKind::Content,
        wrap_kind_spec(k, artifact_band) != WrapKind::NoWrap ==> paints_spec(k),
{
}

/// Per-page marked-content info handed to the painter: how many content
/// MCIDs the planner assigned for the page.
pub struct PageTags {
    pub mcid_count: i32,
}

/// Hands the painter the next MCID for a page, in paint order.
pub struct Marker {
    pub next: i32,
    pub count: i32,
}

impl Marker {
    /// A marker at MCID 0 for a page with the planned count.
    pub fn new(tags: &PageTags) -> (res: Marker)
        ensures
            res.next == 0,
            res.count == tags.mcid_count,
    {
        Marker { next: 0, count: tags.mcid_count }
    }

    /// The next MCID for this page; the painter never asks for more than the
    /// planner assigned.
    pub fn next(&mut self) -> (res: i32)
        requires
            old(self).next < old(self).count,
        ensures
            res == old(self).next,
            final(self).next == old(self).next + 1,
            final(self).count == old(self).count,
    {
        let id = self.next;
        self.next = self.next + 1;
        id
    }
}

/// Minimal XML text escaping: `&`, then `<`, then `>`.
pub open spec fn xml_escape_spec(s: Seq<char>) -> Seq<char> {
    let a = replace_all(s, seq!['&'], seq!['&', 'a', 'm', 'p', ';']);
    let b = replace_all(a, seq!['<'], seq!['&', 'l', 't', ';']);
    replace_all(b, seq!['>'], seq!['&', 'g', 't', ';'])
}

/// Minimal XML text escaping for the title in the XMP packet.
pub fn xml_escape(s: &str) -> (res: String)
    ensures
        res@ == xml_escape_spec(s@),
{
    let cs = chars_of(s);
    let amp: Vec<char> = vec!['&'];
    let amp_e: Vec<char> = vec!['&', 'a', 'm', 'p', ';'];
    let lt: Vec<char> = vec!['<'];
    let lt_e: Vec<char> = vec!['&', 'l', 't', ';'];
    let gt: Vec<char> = vec!['>'];
    let gt_e: Vec<char> = vec!['&', 'g', 't', ';'];
    let a = replace_all_chars(cs.as_slice(), amp.as_slice(), amp_e.as_slice());
    let b = replace_all_chars(a.as_slice(), lt.as_slice(), lt_e.as_slice());
    let c = replace_all_chars(b.as_slice(), gt.as_slice(), gt_e.as_slice());
    assert(amp@ =~= seq!['&'] && amp_e@ =~= seq!['&', 'a', 'm', 'p', ';']);
    assert(lt@ =~= seq!['<'] && lt_e@ =~= seq!['&', 'l', 't', ';']);
    assert(gt@ =~= seq!['>'] && gt_e@ =~= seq!['&', 'g', 't', ';']);
    string_of(c.as_slice())
}

/// The packet text before the title.
pub const UA_HEAD: &'static str = "<?xpacket begin=\"\u{feff}\" id=\"W5M0MpCehiHzreSzNTczkc9d\"?>\
<x:xmpmeta xmlns:x=\"adobe:ns:meta/\">\
<rdf:RDF xmlns:rdf=\"http://www.w3.org/1999/02/22-rdf-syntax-ns#\">\
<rdf:Description rdf:about=\"\" xmlns:dc=\"http://purl.org/dc/elements/1.1/\">\
<dc:title><rdf:Alt><rdf:li xml:lang=\"x-default\">";

/// The packet text after the title.
pub const UA_TAIL: &'static str = "</rdf:li></rdf:Alt></dc:title>\
</rdf:Description>\
<rdf:Description rdf:about=\"\" xmlns:pdfuaid=\"http://www.aiim.org/pdfua/ns/id/\">\
<pdfuaid:part>1</pdfuaid:part>\
</rdf:Description>\
</rdf:RDF></x:xmpmeta>\
<?xpacket end=\"r\"?>";

/// The XMP packet identifying the document as PDF/UA-1, carrying the
/// escaped title (`Untitled` when there is none).
pub open spec fn ua_packet_spec(title: Option<Seq<char>>) -> Seq<char> {
    let t = match title {
        Some(t) => t,
        None => "Untitled"@,
    };
    UA_HEAD@ + xml_escape_spec(t) + UA_TAIL@
}

/// Build the XMP metadata packet identifying the document as PDF/UA-1 and
/// carrying the title.
pub fn xmp_packet(title: Option<&str>) -> (res: String)
    ensures
        res@ == ua_packet_spec(
            match title {
                Some(t) => Some(t@),
                None => None,
            },
        ),
{
    let t: &str = match title {
        Some(t) => t,
        None => "Untitled",
    };
    let e = xml_escape(t);
    let mut out = chars_of(UA_HEAD);
    let ec = chars_of(e.as_str());
    push_chars(&mut out, ec.as_slice());
    let tail = chars_of(UA_TAIL);
    push_chars(&mut out, tail.as_slice());
    string_of(out.as_slice())
}


// ---------------------------------------------------------------------------
// Structure tree planning
// ---------------------------------------------------------------------------
/// What the structure-tree planner reads of a placed fragment: its role, its
/// figure text, whether it paints real content (a text line or an image),
/// and its children.
pub struct TagFrag {
    pub role: Option<UaRole>,
    pub alt: Option<String>,
    pub content: bool,
    pub children: Vec<TagFrag>,
}

/// The plain-value picture of a [`TagFrag`].
pub struct TagFragV {
    pub role: Option<UaRole>,
    pub alt: Option<Seq<char>>,
    pub content: bool,
    pub children: Seq<TagFragV>,
}

/// The view of one fragment.
pub open spec fn frag_view(f: TagFrag) -> TagFragV
    decreases f, 1nat,
{
    TagFragV {
        role: f.role,
        alt: match f.alt {
            Some(a) => Some(a@),
            None => None,
        },
        content: f.content,
        children: frags_view(f.children@),
    }
}

/// The views of a list of fragments.
pub open spec fn frags_view(s: Seq<TagFrag>) -> Seq<TagFragV>
    decreases s, 0nat,
{
    if s.len() == 0 {
        Seq::empty()
    } else {
        frags_view(s.drop_last()).push(frag_view(s.last()))
    }
}

/// A standard structure type of the tagged-PDF structure tree.
#[derive(Debug, Clone, Copy, PartialEq, Eq, Structural)]
pub enum SRole {
    Div,
    H1,
    H2,
    H3,
    H4,
    H5,
    H6,
    P,
    L,
    LI,
    LBody,
    Table,
    TR,
    TH,
    TD,
    Figure,
    Span,
    NonStruct,
}

/// The heading type for a 1-based level, clamped to 1..=6.
pub open spec fn heading_spec(level: u8) -> SRole {
    if level <= 1 {
        SRole::H1
    } else if level == 2 {
        SRole::H2
    } else if level == 3 {
        SRole::H3
    } else if level == 4 {
        SRole::H4
    } else if level == 5 {
        SRole::H5
    } else {
        SRole::H6
    }
}

/// The `H1`..`H6` type for a 1-based heading level (clamped to the range).
pub fn heading_role(level: u8) -> (res: SRole)
    ensures
        res == heading_spec(level),
{
    if level <= 1 {
        SRole::H1
    } else if level == 2 {
        SRole::H2
    } else if level == 3 {
        SRole::H3
    } else if level == 4 {
        SRole::H4
    } else if level == 5 {
        SRole::H5
    } else {
        SRole::H6
    }
}

/// The structure type of a layout role.
pub open spec fn map_role_spec(role: UaRole) -> SRole {
    match role {
        UaRole::Group => SRole::Div,
        UaRole::Heading(level) => heading_spec(level),
        UaRole::Paragraph => SRole::P,
        UaRole::List => SRole::L,
        UaRole::ListItem => SRole::LI,
        UaRole::ListBody => SRole::LBody,
        UaRole::Table => SRole::Table,
        UaRole::TableRow => SRole::TR,
        UaRole::TableHeader => SRole::TH,
        UaRole::TableData => SRole::TD,
        UaRole::Figure => SRole::Figure,
        UaRole::Span => SRole::Span,
        UaRole::Artifact => SRole::NonStruct,
    }
}

/// Map a layout role to its structure type.
pub fn map_role(role: UaRole) -> (res: SRole)
    ensures
        res == map_role_spec(role),
{
    match role {
        UaRole::Group => SRole::Div,
        UaRole::Heading(level) => heading_role(level),
        UaRole::Paragraph => SRole::P,
        UaRole::List => SRole::L,
        UaRole::ListItem => SRole::LI,
        UaRole::ListBody => SRole::LBody,
        UaRole::Table => SRole::Table,
        UaRole::TableRow => SRole::TR,
        UaRole::TableHeader => SRole::TH,
        UaRole::TableData => SRole::TD,
        UaRole::Figure => SRole::Figure,
        UaRole::Span => SRole::Span,
        UaRole::Artifact => SRole::NonStruct,
    }
}

/// One structure element before it is written out: its type, figure text,
/// page, child elements (indices) and own marked-content ids, in order.
pub struct StructNode {
    pub role: SRole,
    pub alt: Option<String>,
    pub page: usize,
    pub children: Vec<usize>,
    pub mcids: Vec<i32>,
}

/// The plain-value picture of a [`StructNode`].
pub struct NodeV {
    pub role: SRole,
    pub alt: Option<Seq<char>>,
    pub page: int,
    pub children: Seq<int>,
    pub mcids: Seq<int>,
}

/// The view of a structure element.
pub open spec fn node_v(n: StructNode) -> NodeV {
    NodeV {
        role: n.role,
        alt: match n.alt {
            Some(a) => Some(a@),
            None => None,
        },
        page: n.page as int,
        children: n.children@.map_values(|c: usize| c as int),
        mcids: n.mcids@.map_values(|m: i32| m as int),
    }
}

/// The structure tree under construction: its elements and the top-level
/// ones, in reading order.
pub struct TreeV {
    pub nodes: Seq<NodeV>,
    pub roots: Seq<int>,
}

/// A new element.
pub open spec fn push_node_spec(t: TreeV, role: SRole, alt: Option<Seq<char>>, page: int) -> TreeV {
    TreeV {
        nodes: t.nodes.push(NodeV { role, alt, page, children: seq![], mcids: seq![] }),
        roots: t.roots,
    }
}

/// `idx` appended under `parent`, or at the top level.
pub open spec fn add_child_spec(t: TreeV, parent: Option<int>, idx: int) -> TreeV {
    match parent {
        Some(p) => TreeV {
            nodes: t.nodes.update(
                p,
                NodeV { children: t.nodes[p].children.push(idx), ..t.nodes[p] },
            ),
            roots: t.roots,
        },
        None => TreeV { nodes: t.nodes, roots: t.roots.push(idx) },
    }
}

/// Open a fragment's element if it has a (non-artifact) role; returns the
/// element its content and its descendants' content attach to.
pub open spec fn open_spec(t: TreeV, f: TagFragV, page: int, parent: Option<int>) -> (TreeV, Option<int>) {
    match f.role {
        None => (t, parent),
        Some(UaRole::Artifact) => (t, parent),
        Some(r) => {
            let idx = t.nodes.len() as int;
            (add_child_spec(push_node_spec(t, map_role_spec(r), f.alt, page), parent, idx), Some(idx))
        },
    }
}

/// Attach a content fragment's id to its holder (a new top-level paragraph
/// when there is none); the next id follows.
pub open spec fn attach_spec(t: TreeV, f: TagFragV, page: int, holder: Option<int>, mcid: int) -> (TreeV, int) {
    if !f.content {
        (t, mcid)
    } else {
        let (t1, owner) = match holder {
            Some(h) => (t, h),
            None => {
                let idx = t.nodes.len() as int;
                (add_child_spec(push_node_spec(t, SRole::P, None, page), None, idx), idx)
            },
        };
        (
            TreeV {
                nodes: t1.nodes.update(
                    owner,
                    NodeV { mcids: t1.nodes[owner].mcids.push(mcid), ..t1.nodes[owner] },
                ),
                roots: t1.roots,
            },
            mcid + 1,
        )
    }
}

/// Walk one fragment: open its element, attach its content, then its
/// children in order.
pub open spec fn walk_spec(t: TreeV, f: TagFragV, page: int, parent: Option<int>, mcid: int) -> (TreeV, int)
    decreases f, 1nat,
{
    let (t1, holder) = open_spec(t, f, page, parent);
    let (t2, m2) = attach_spec(t1, f, page, holder, mcid);
    walk_all_spec(t2, f.children, page, holder, m2)
}

/// Walk a list of fragments in order.
pub open spec fn walk_all_spec(t: TreeV, fs: Seq<TagFragV>, page: int, parent: Option<int>, mcid: int) -> (TreeV, int)
    decreases fs, 0nat,
{
    if fs.len() == 0 {
        (t, mcid)
    } else {
        let (t1, m1) = walk_all_spec(t, fs.drop_last(), page, parent, mcid);
        walk_spec(t1, fs.last(), page, parent, m1)
    }
}

/// The number of content fragments in a forest.
pub open spec fn content_count(fs: Seq<TagFragV>) -> int
    decreases fs, 0nat,
{
    if fs.len() == 0 {
        0
    } else {
        content_count(fs.drop_last()) + frag_content_count(fs.last())
    }
}

/// The number of content fragments in a tree.
pub open spec fn frag_content_count(f: TagFragV) -> int
    decreases f, 1nat,
{
    (if f.content {
        1int
    } else {
        0int
    }) + content_count(f.children)
}


/// The picture of a builder's tree.
pub open spec fn tree_v(nodes: Seq<StructNode>, roots: Seq<usize>) -> TreeV {
    TreeV {
        nodes: nodes.map_values(|n: StructNode| node_v(n)),
        roots: roots.map_values(|r: usize| r as int),
    }
}

/// The view of an optional string.
pub open spec fn alt_v(a: Option<String>) -> Option<Seq<char>> {
    match a {
        Some(t) => Some(t@),
        None => None,
    }
}

/// Whether an optional holder names an existing element.
pub open spec fn holder_ok(h: Option<usize>, n: int) -> bool {
    match h {
        Some(i) => i < n,
        None => true,
    }
}

/// The model of an optional holder.
pub open spec fn holder_v(h: Option<usize>) -> Option<int> {
    match h {
        Some(i) => Some(i as int),
        None => None,
    }
}

/// A copy of an optional string.
fn copy_alt(a: &Option<String>) -> (res: Option<String>)
    ensures
        alt_v(res) == alt_v(*a),
{
    match a {
        Some(t) => Some(t.clone()),
        None => None,
    }
}

proof fn lemma_content_count_prefix(fs: Seq<TagFragV>, i: int)
    requires
        0 <= i < fs.len(),
    ensures
        content_count(fs.take(i + 1)) == content_count(fs.take(i)) + frag_content_count(fs[i]),
        content_count(fs.take(i + 1)) <= content_count(fs),
    decreases fs.len() - i,
{
    assert(fs.take(i + 1).drop_last() =~= fs.take(i));
    if i + 1 < fs.len() {
        lemma_content_count_prefix(fs, i + 1);
        lemma_frag_count_nonneg(fs[i + 1]);
    } else {
        assert(fs.take(i + 1) =~= fs);
    }
}

proof fn lemma_frag_count_nonneg(f: TagFragV)
    ensures
        frag_content_count(f) >= 0,
    decreases f, 1nat,
{
    lemma_count_nonneg(f.children);
}

proof fn lemma_count_nonneg(fs: Seq<TagFragV>)
    ensures
        content_count(fs) >= 0,
    decreases fs, 0nat,
{
    if fs.len() > 0 {
        lemma_count_nonneg(fs.drop_last());
        lemma_frag_count_nonneg(fs.last());
    }
}

proof fn lemma_frags_view_index(s: Seq<TagFrag>, i: int)
    requires
        0 <= i < s.len(),
    ensures
        frags_view(s).len() == s.len(),
        frags_view(s)[i] == frag_view(s[i]),
        frags_view(s.take(i + 1)) == frags_view(s).take(i + 1),
    decreases s.len(),
{
    if i + 1 < s.len() {
        lemma_frags_view_index(s.drop_last(), i);
        assert(s.drop_last().take(i + 1) =~= s.take(i + 1));
    } else {
        lemma_frags_view_len(s);
        assert(s.take(i + 1) =~= s);
    }
    lemma_frags_view_len(s);
}

proof fn lemma_frags_view_len(s: Seq<TagFrag>)
    ensures
        frags_view(s).len() == s.len(),
    decreases s.len(),
{
    if s.len() > 0 {
        lemma_frags_view_len(s.drop_last());
    }
}

/// The pages' fragments as the planner reads them: the body band and the
/// footnote band.
pub struct PageFrags {
    pub body: Vec<TagFrag>,
    pub footnotes: Vec<TagFrag>,
}

/// The planner's model over a run of pages: the tree and each page's count
/// of marked-content ids.
pub open spec fn run_spec(pages: Seq<PageFrags>) -> (TreeV, Seq<int>)
    decreases pages.len(),
{
    if pages.len() == 0 {
        (TreeV { nodes: seq![], roots: seq![] }, seq![])
    } else {
        let (t1, c1) = run_spec(pages.drop_last());
        let p = pages.len() - 1;
        let (t2, m2) = walk_all_spec(t1, frags_view(pages.last().body@), p, None, 0);
        let (t3, m3) = walk_all_spec(t2, frags_view(pages.last().footnotes@), p, None, m2);
        (t3, c1.push(m3))
    }
}

/// Builds the structure tree by walking pages in reading order.
pub struct TreeBuilder {
    pub nodes: Vec<StructNode>,
    pub roots: Vec<usize>,
    pub mcid_counts: Vec<i32>,
}

impl TreeBuilder {
    /// An empty tree.
    pub fn new() -> (res: TreeBuilder)
        ensures
            res.nodes@.len() == 0,
            res.roots@.len() == 0,
            res.mcid_counts@.len() == 0,
    {
        TreeBuilder { nodes: Vec::new(), roots: Vec::new(), mcid_counts: Vec::new() }
    }

    /// Push a new element, returning its index.
    fn push_node(&mut self, role: SRole, alt: Option<String>, page: usize) -> (res: usize)
        ensures
            res == old(self).nodes@.len(),
            final(self).nodes@.len() == old(self).nodes@.len() + 1,
            tree_v(final(self).nodes@, final(self).roots@) == push_node_spec(
                tree_v(old(self).nodes@, old(self).roots@),
                role,
                alt_v(alt),
                page as int,
            ),
            final(self).mcid_counts@ == old(self).mcid_counts@,
    {
        let idx = self.nodes.len();
        let ghost before = self.nodes@;
        let node = StructNode { role, alt, page, children: Vec::new(), mcids: Vec::new() };
        assert(node_v(node).children =~= Seq::<int>::empty());
        assert(node_v(node).mcids =~= Seq::<int>::empty());
        self.nodes.push(node);
        assert(self.nodes@.map_values(|n: StructNode| node_v(n)) =~= before.map_values(|n: StructNode| node_v(n)).push(node_v(node)));
        idx
    }

    /// Append `idx` under `parent`, or at the top level.
    fn add_child(&mut self, parent: Option<usize>, idx: usize)
        requires
            holder_ok(parent, old(self).nodes@.len() as int),
        ensures
            tree_v(final(self).nodes@, final(self).roots@) == add_child_spec(
                tree_v(old(self).nodes@, old(self).roots@),
                holder_v(parent),
                idx as int,
            ),
            final(self).nodes@.len() == old(self).nodes@.len(),
            final(self).mcid_counts@ == old(self).mcid_counts@,
    {
        let ghost t0 = tree_v(self.nodes@, self.roots@);
        match parent {
            Some(p) => {
                let ghost before = self.nodes@;
                let mut node = self.nodes.remove(p);
                let ghost nv = node_v(node);
                node.children.push(idx);
                assert(node_v(node).children =~= nv.children.push(idx as int));
                self.nodes.insert(p, node);
                assert(self.nodes@ =~= before.update(p as int, node));
                assert(tree_v(self.nodes@, self.roots@).nodes =~= t0.nodes.update(
                    p as int,
                    NodeV { children: t0.nodes[p as int].children.push(idx as int), ..t0.nodes[p as int] },
                ));
            },
            None => {
                let ghost before = self.roots@;
                self.roots.push(idx);
                assert(self.roots@.map_values(|r: usize| r as int) =~= before.map_values(|r: usize| r as int).push(idx as int));
            },
        }
    }

    /// Open a fragment's element if it has a role; returns its content holder.
    fn open_element(&mut self, f: &TagFrag, page: usize, parent: Option<usize>) -> (res: Option<usize>)
        requires
            holder_ok(parent, old(self).nodes@.len() as int),
        ensures
            (tree_v(final(self).nodes@, final(self).roots@), holder_v(res)) == open_spec(
                tree_v(old(self).nodes@, old(self).roots@),
                frag_view(*f),
                page as int,
                holder_v(parent),
            ),
            holder_ok(res, final(self).nodes@.len() as int),
            final(self).nodes@.len() >= old(self).nodes@.len(),
            final(self).mcid_counts@ == old(self).mcid_counts@,
    {
        match f.role {
            None => parent,
            Some(UaRole::Artifact) => parent,
            Some(r) => {
                let role = map_role(r);
                let alt = copy_alt(&f.alt);
                let idx = self.push_node(role, alt, page);
                self.add_child(parent, idx);
                Some(idx)
            },
        }
    }

    /// Attach a content fragment's id to its holder.
    fn attach_content(&mut self, f: &TagFrag, page: usize, holder: Option<usize>, mcid: &mut i32)
        requires
            holder_ok(holder, old(self).nodes@.len() as int),
            f.content ==> *old(mcid) < i32::MAX,
        ensures
            (tree_v(final(self).nodes@, final(self).roots@), *final(mcid) as int) == attach_spec(
                tree_v(old(self).nodes@, old(self).roots@),
                frag_view(*f),
                page as int,
                holder_v(holder),
                *old(mcid) as int,
            ),
            final(self).nodes@.len() >= old(self).nodes@.len(),
            final(self).mcid_counts@ == old(self).mcid_counts@,
    {
        if !f.content {
            return;
        }
        let owner = match holder {
            Some(h) => h,
            None => {
                let idx = self.push_node(SRole::P, None, page);
                self.add_child(None, idx);
                idx
            },
        };
        let id = *mcid;
        *mcid = *mcid + 1;
        let ghost t1 = tree_v(self.nodes@, self.roots@);
        let ghost before = self.nodes@;
        let mut node = self.nodes.remove(owner);
        let ghost nv = node_v(node);
        node.mcids.push(id);
        assert(node_v(node).mcids =~= nv.mcids.push(id as int));
        self.nodes.insert(owner, node);
        assert(self.nodes@ =~= before.update(owner as int, node));
        assert(tree_v(self.nodes@, self.roots@).nodes =~= t1.nodes.update(
            owner as int,
            NodeV { mcids: t1.nodes[owner as int].mcids.push(id as int), ..t1.nodes[owner as int] },
        ));
    }

    /// Walk one fragment: open its element, attach its content, descend.
    fn walk(&mut self, f: &TagFrag, page: usize, parent: Option<usize>, mcid: &mut i32)
        requires
            holder_ok(parent, old(self).nodes@.len() as int),
            *old(mcid) + frag_content_count(frag_view(*f)) <= i32::MAX,
        ensures
            (tree_v(final(self).nodes@, final(self).roots@), *final(mcid) as int) == walk_spec(
                tree_v(old(self).nodes@, old(self).roots@),
                frag_view(*f),
                page as int,
                holder_v(parent),
                *old(mcid) as int,
            ),
            *final(mcid) == *old(mcid) + frag_content_count(frag_view(*f)),
            final(self).nodes@.len() >= old(self).nodes@.len(),
            final(self).mcid_counts@ == old(self).mcid_counts@,
        decreases f, 1nat,
    {
        proof {
            lemma_count_nonneg(frag_view(*f).children);
        }
        let holder = self.open_element(f, page, parent);
        self.attach_content(f, page, holder, mcid);
        self.walk_band(&f.children, page, holder, mcid);
    }

    /// Walk a list of fragments in order.
    fn walk_band(&mut self, fs: &Vec<TagFrag>, page: usize, parent: Option<usize>, mcid: &mut i32)
        requires
            holder_ok(parent, old(self).nodes@.len() as int),
            *old(mcid) + content_count(frags_view(fs@)) <= i32::MAX,
        ensures
            (tree_v(final(self).nodes@, final(self).roots@), *final(mcid) as int) == walk_all_spec(
                tree_v(old(self).nodes@, old(self).roots@),
                frags_view(fs@),
                page as int,
                holder_v(parent),
                *old(mcid) as int,
            ),
            *final(mcid) == *old(mcid) + content_count(frags_view(fs@)),
            final(self).nodes@.len() >= old(self).nodes@.len(),
            final(self).mcid_counts@ == old(self).mcid_counts@,
        decreases fs, 0nat,
    {
        let ghost t0 = tree_v(self.nodes@, self.roots@);
        let ghost m0 = *mcid as int;
        let ghost all = frags_view(fs@);
        proof {
            lemma_frags_view_len(fs@);
            lemma_count_nonneg(all);
            assert(all.take(0) =~= Seq::<TagFragV>::empty());
        }
        let mut i: usize = 0;
        assert(all.take(0) =~= Seq::<TagFragV>::empty());
        while i < fs.len()
            invariant
                i <= fs@.len(),
                all == frags_view(fs@),
                all.len() == fs@.len(),
                holder_ok(parent, self.nodes@.len() as int),
                m0 + content_count(all) <= i32::MAX,
                *mcid == m0 + content_count(all.take(i as int)),
                content_count(all.take(i as int)) <= content_count(all),
                (tree_v(self.nodes@, self.roots@), *mcid as int) == walk_all_spec(t0, all.take(i as int), page as int, holder_v(parent), m0),
                self.nodes@.len() >= old(self).nodes@.len(),
                self.mcid_counts@ == old(self).mcid_counts@,
                t0 == tree_v(old(self).nodes@, old(self).roots@),
                m0 == *old(mcid),
            decreases fs.len() - i,
        {
            proof {
                lemma_frags_view_index(fs@, i as int);
                lemma_content_count_prefix(all, i as int);
                lemma_frag_count_nonneg(all[i as int]);
                assert(all.take(i + 1).drop_last() =~= all.take(i as int));
            }
            assert(decreases_to!(fs => fs@[i as int]));
            self.walk(&fs[i], page, parent, mcid);
            i += 1;
        }
        assert(all.take(i as int) =~= all);
    }

    /// Walk every page's content bands (body, then footnotes), growing the
    /// tree and recording each page's count of marked-content ids.
    pub fn run(&mut self, pages: &Vec<PageFrags>)
        requires
            old(self).nodes@.len() == 0,
            old(self).roots@.len() == 0,
            old(self).mcid_counts@.len() == 0,
            forall|p: int|
                0 <= p < pages@.len() ==> content_count(frags_view(#[trigger] pages@[p].body@))
                    + content_count(frags_view(pages@[p].footnotes@)) <= i32::MAX,
        ensures
            tree_v(final(self).nodes@, final(self).roots@) == run_spec(pages@).0,
            final(self).mcid_counts@.map_values(|c: i32| c as int) == run_spec(pages@).1,
    {
        let mut p: usize = 0;
        assert(pages@.take(0) =~= Seq::<PageFrags>::empty());
        assert(tree_v(self.nodes@, self.roots@).nodes =~= Seq::<NodeV>::empty());
        assert(tree_v(self.nodes@, self.roots@).roots =~= Seq::<int>::empty());
        assert(tree_v(self.nodes@, self.roots@) == run_spec(pages@.take(0)).0);
        assert(self.mcid_counts@.map_values(|c: i32| c as int) =~= run_spec(pages@.take(0)).1);
        while p < pages.len()
            invariant
                p <= pages@.len(),
                forall|q: int|
                    0 <= q < pages@.len() ==> content_count(frags_view(#[trigger] pages@[q].body@))
                        + content_count(frags_view(pages@[q].footnotes@)) <= i32::MAX,
                tree_v(self.nodes@, self.roots@) == run_spec(pages@.take(p as int)).0,
                self.mcid_counts@.map_values(|c: i32| c as int) == run_spec(pages@.take(p as int)).1,
            decreases pages.len() - p,
        {
            assert(pages@.take(p + 1).drop_last() =~= pages@.take(p as int));
            let page = &pages[p];
            let ghost pv = pages@[p as int];
            assert(pages@.take(p + 1).last() == pv);
            proof {
                lemma_count_nonneg(frags_view(pv.body@));
                lemma_count_nonneg(frags_view(pv.footnotes@));
            }
            let mut mcid: i32 = 0;
            self.walk_band(&page.body, p, None, &mut mcid);
            self.walk_band(&page.footnotes, p, None, &mut mcid);
            let ghost before = self.mcid_counts@;
            self.mcid_counts.push(mcid);
            assert(self.mcid_counts@.map_values(|c: i32| c as int) =~= before.map_values(|c: i32| c as int).push(mcid as int));
            p += 1;
        }
        assert(pages@.take(p as int) =~= pages@);
    }
}


// ---------------------------------------------------------------------------
// Object numbering and the parent tree
// ---------------------------------------------------------------------------
/// The whole tagged-PDF plan: the structure tree plus the object numbers it
/// is written to.
pub struct UaPlan {
    pub nodes: Vec<StructNode>,
    /// Top-level elements (the `Document`'s children), in reading order.
    pub roots: Vec<usize>,
    /// The structure-tree root object.
    pub root_ref: i32,
    /// The `Document` element wrapping every page's content.
    pub doc_ref: i32,
    /// One object per element (`nodes[i]` is written to `node_refs[i]`).
    pub node_refs: Vec<i32>,
    /// One parent-tree array object per page.
    pub parent_tree_refs: Vec<i32>,
    /// The XMP metadata stream object.
    pub metadata_ref: i32,
    /// Marked-content id count per page.
    pub mcid_counts: Vec<i32>,
}

/// The object numbers of a plan for `n` elements over `pages` pages, laid
/// out from `first` in order (root, document, elements, parent-tree arrays,
/// metadata), with `next` the first number after them.
pub open spec fn numbered(plan: UaPlan, n: int, pages: int, first: int, next: int) -> bool {
    &&& plan.root_ref == first
    &&& plan.doc_ref == first + 1
    &&& plan.node_refs@.len() == n
    &&& forall|i: int| 0 <= i < n ==> #[trigger] plan.node_refs@[i] == first + 2 + i
    &&& plan.parent_tree_refs@.len() == pages
    &&& forall|p: int| 0 <= p < pages ==> #[trigger] plan.parent_tree_refs@[p] == first + 2 + n + p
    &&& plan.metadata_ref == first + 2 + n + pages
    &&& next == first + 3 + n + pages
}

/// The model of a plan's elements.
pub open spec fn plan_nodes(plan: UaPlan) -> Seq<NodeV> {
    plan.nodes@.map_values(|n: StructNode| node_v(n))
}

/// The element owning marked-content id `m` on `page`: the last element on
/// that page listing it, else the `Document`.
pub open spec fn owner_spec(nodes: Seq<NodeV>, refs: Seq<i32>, page: int, doc: i32, m: int) -> i32
    decreases nodes.len(),
{
    if nodes.len() == 0 {
        doc
    } else if nodes.last().page == page && nodes.last().mcids.contains(m) {
        refs[nodes.len() - 1]
    } else {
        owner_spec(nodes.drop_last(), refs, page, doc, m)
    }
}

/// The parent object of element `i`: the first element from `p` on listing
/// it as a child, else the `Document`.
pub open spec fn parent_from(nodes: Seq<NodeV>, refs: Seq<i32>, doc: i32, i: int, p: int) -> i32
    decreases nodes.len() - p,
{
    if p < 0 || p >= nodes.len() {
        doc
    } else if nodes[p].children.contains(i) {
        refs[p]
    } else {
        parent_from(nodes, refs, doc, i, p + 1)
    }
}

impl UaPlan {
    /// Build the structure tree from the pages' fragments, numbering every
    /// object it needs from `first`; also the next free object number.
    /// Object numbers are positive `i32`s.
    pub fn build(pages: &Vec<PageFrags>, first: i32) -> (res: (UaPlan, i32))
        requires
            1 <= first,
            forall|p: int|
                0 <= p < pages@.len() ==> content_count(frags_view(#[trigger] pages@[p].body@))
                    + content_count(frags_view(pages@[p].footnotes@)) <= i32::MAX,
            first + 3 + run_spec(pages@).0.nodes.len() + pages@.len() <= i32::MAX,
        ensures
            tree_v(res.0.nodes@, res.0.roots@) == run_spec(pages@).0,
            res.0.mcid_counts@.map_values(|c: i32| c as int) == run_spec(pages@).1,
            numbered(res.0, run_spec(pages@).0.nodes.len() as int, pages@.len() as int, first as int, res.1 as int),
    {
        let mut builder = TreeBuilder::new();
        builder.run(pages);
        proof {
            assert(tree_v(builder.nodes@, builder.roots@).nodes.len() == builder.nodes@.len());
        }
        UaPlan::allocate(builder, pages.len(), first)
    }

    /// Lay the built tree out over a contiguous block of object numbers.
    fn allocate(builder: TreeBuilder, page_count: usize, first: i32) -> (res: (UaPlan, i32))
        requires
            1 <= first,
            first + 3 + builder.nodes@.len() + page_count <= i32::MAX,
        ensures
            res.0.nodes == builder.nodes,
            res.0.roots == builder.roots,
            res.0.mcid_counts == builder.mcid_counts,
            numbered(res.0, builder.nodes@.len() as int, page_count as int, first as int, res.1 as int),
    {
        let n = builder.nodes.len();
        let mut next = first;
        let root_ref = next;
        next = next + 1;
        let doc_ref = next;
        next = next + 1;
        let mut node_refs: Vec<i32> = Vec::new();
        let mut i: usize = 0;
        while i < n
            invariant
                i <= n,
                n == builder.nodes@.len(),
                first + 3 + n + page_count <= i32::MAX,
                next == first + 2 + i,
                node_refs@.len() == i,
                forall|k: int| 0 <= k < i ==> #[trigger] node_refs@[k] == first + 2 + k,
            decreases n - i,
        {
            node_refs.push(next);
            next = next + 1;
            i += 1;
        }
        let mut parent_tree_refs: Vec<i32> = Vec::new();
        let mut p: usize = 0;
        while p < page_count
            invariant
                p <= page_count,
                first + 3 + n + page_count <= i32::MAX,
                next == first + 2 + n + p,
                parent_tree_refs@.len() == p,
                forall|k: int| 0 <= k < p ==> #[trigger] parent_tree_refs@[k] == first + 2 + n + k,
            decreases page_count - p,
        {
            parent_tree_refs.push(next);
            next = next + 1;
            p += 1;
        }
        let metadata_ref = next;
        next = next + 1;
        let plan = UaPlan {
            nodes: builder.nodes,
            roots: builder.roots,
            root_ref,
            doc_ref,
            node_refs,
            parent_tree_refs,
            metadata_ref,
            mcid_counts: builder.mcid_counts,
        };
        (plan, next)
    }

    /// The marked-content info of page `i`, for the painter.
    pub fn page_tags(&self, i: usize) -> (res: PageTags)
        requires
            i < self.mcid_counts@.len(),
        ensures
            res.mcid_count == self.mcid_counts@[i as int],
    {
        PageTags { mcid_count: self.mcid_counts[i] }
    }

    /// The parent object of element `i`: the element listing it as a child,
    /// or the `Document`.
    pub fn parent_ref(&self, i: usize) -> (res: i32)
        requires
            self.node_refs@.len() == self.nodes@.len(),
        ensures
            res == parent_from(plan_nodes(*self), self.node_refs@, self.doc_ref, i as int, 0),
    {
        let ghost nv = plan_nodes(*self);
        let mut p: usize = 0;
        while p < self.nodes.len()
            invariant
                p <= self.nodes@.len(),
                nv == plan_nodes(*self),
                self.node_refs@.len() == self.nodes@.len(),
                parent_from(nv, self.node_refs@, self.doc_ref, i as int, 0) == parent_from(
                    nv,
                    self.node_refs@,
                    self.doc_ref,
                    i as int,
                    p as int,
                ),
            decreases self.nodes.len() - p,
        {
            let kids = &self.nodes[p].children;
            let ghost cv = nv[p as int].children;
            assert(cv == kids@.map_values(|c: usize| c as int));
            let mut found = false;
            let mut k: usize = 0;
            while k < kids.len()
                invariant
                    k <= kids@.len(),
                    cv == kids@.map_values(|c: usize| c as int),
                    found == exists|j: int| 0 <= j < k && #[trigger] cv[j] == i as int,
                decreases kids.len() - k,
            {
                assert(cv[k as int] == kids@[k as int] as int);
                if kids[k] == i {
                    found = true;
                }
                k += 1;
            }
            if found {
                return self.node_refs[p];
            }
            p += 1;
        }
        self.doc_ref
    }

    /// For a page, the owning object of each marked-content id `0..count`, in
    /// order.
    pub fn mcid_owners(&self, page: usize) -> (res: Vec<i32>)
        requires
            page < self.mcid_counts@.len(),
            0 <= self.mcid_counts@[page as int],
            self.node_refs@.len() == self.nodes@.len(),
            forall|i: int, k: int|
                0 <= i < self.nodes@.len() && self.nodes@[i].page == page && 0 <= k
                    < self.nodes@[i].mcids@.len() ==> 0 <= #[trigger] self.nodes@[i].mcids@[k]
                    < self.mcid_counts@[page as int],
        ensures
            res@.len() == self.mcid_counts@[page as int],
            forall|m: int|
                0 <= m < res@.len() ==> #[trigger] res@[m] == owner_spec(
                    plan_nodes(*self),
                    self.node_refs@,
                    page as int,
                    self.doc_ref,
                    m,
                ),
    {
        let ghost nv = plan_nodes(*self);
        let count = self.mcid_counts[page] as usize;
        let mut owners: Vec<i32> = Vec::new();
        while owners.len() < count
            invariant
                owners@.len() <= count,
                forall|m: int| 0 <= m < owners@.len() ==> #[trigger] owners@[m] == self.doc_ref,
            decreases count - owners.len(),
        {
            owners.push(self.doc_ref);
        }
        let mut i: usize = 0;
        while i < self.nodes.len()
            invariant
                i <= self.nodes@.len(),
                nv == plan_nodes(*self),
                count == self.mcid_counts@[page as int],
                owners@.len() == count,
                page < self.mcid_counts@.len(),
                self.node_refs@.len() == self.nodes@.len(),
                forall|a: int, k: int|
                    0 <= a < self.nodes@.len() && self.nodes@[a].page == page && 0 <= k
                        < self.nodes@[a].mcids@.len() ==> 0 <= #[trigger] self.nodes@[a].mcids@[k]
                        < self.mcid_counts@[page as int],
                forall|m: int|
                    0 <= m < count ==> #[trigger] owners@[m] == owner_spec(
                        nv.take(i as int),
                        self.node_refs@,
                        page as int,
                        self.doc_ref,
                        m,
                    ),
            decreases self.nodes.len() - i,
        {
            let ghost before = owners@;
            let ghost node = nv[i as int];
            assert(nv.take(i + 1).drop_last() =~= nv.take(i as int));
            assert(nv.take(i + 1).last() == node);
            if self.nodes[i].page == page {
                let ms = &self.nodes[i].mcids;
                let r = self.node_refs[i];
                assert(node.mcids == ms@.map_values(|c: i32| c as int));
                let mut j: usize = 0;
                while j < ms.len()
                    invariant
                        j <= ms@.len(),
                        owners@.len() == count,
                        node.mcids == ms@.map_values(|c: i32| c as int),
                        forall|k: int| 0 <= k < ms@.len() ==> 0 <= #[trigger] ms@[k] < count,
                        forall|m: int|
                            0 <= m < count ==> #[trigger] owners@[m] == if node.mcids.take(
                                j as int,
                            ).contains(m) {
                                r
                            } else {
                                before[m]
                            },
                    decreases ms.len() - j,
                {
                    let m = ms[j] as usize;
                    owners.set(m, r);
                    assert forall|q: int| 0 <= q < count implies #[trigger] owners@[q] == if node.mcids.take(
                        j + 1,
                    ).contains(q) {
                        r
                    } else {
                        before[q]
                    } by {
                        let t1 = node.mcids.take(j + 1);
                        let t0 = node.mcids.take(j as int);
                        if t1.contains(q) && q != m as int {
                            let w = choose|w: int| 0 <= w < t1.len() && #[trigger] t1[w] == q;
                            assert(t0[w] == q);
                        }
                        if t0.contains(q) {
                            let w = choose|w: int| 0 <= w < t0.len() && #[trigger] t0[w] == q;
                            assert(t1[w] == q);
                        }
                        if q == m as int {
                            assert(t1[j as int] == q);
                        }
                    }
                    j += 1;
                }
                assert(node.mcids.take(j as int) =~= node.mcids);
            }
            i += 1;
        }
        assert(nv.take(i as int) =~= nv);
        owners
    }
}

// ---------------------------------------------------------------------------
// Laws
// ---------------------------------------------------------------------------
/// A structure tree is a forest laid out in creation order: every child
/// comes after its parent and exists, and every top-level index exists.
pub open spec fn tree_wf(t: TreeV) -> bool {
    &&& forall|i: int, k: int|
        0 <= i < t.nodes.len() && 0 <= k < t.nodes[i].children.len() ==> i
            < #[trigger] t.nodes[i].children[k] < t.nodes.len()
    &&& forall|k: int| 0 <= k < t.roots.len() ==> 0 <= #[trigger] t.roots[k] < t.nodes.len()
}

/// Whether an optional element index exists in a tree of `n` elements.
pub open spec fn opt_ok(h: Option<int>, n: int) -> bool {
    match h {
        Some(i) => 0 <= i < n,
        None => true,
    }
}

proof fn lemma_push_add_wf(t: TreeV, role: SRole, alt: Option<Seq<char>>, page: int, parent: Option<int>)
    requires
        tree_wf(t),
        opt_ok(parent, t.nodes.len() as int),
    ensures
        tree_wf(add_child_spec(push_node_spec(t, role, alt, page), parent, t.nodes.len() as int)),
        add_child_spec(push_node_spec(t, role, alt, page), parent, t.nodes.len() as int).nodes.len()
            == t.nodes.len() + 1,
{
    let n = t.nodes.len() as int;
    let t1 = push_node_spec(t, role, alt, page);
    let t2 = add_child_spec(t1, parent, n);
    assert forall|i: int, k: int|
        0 <= i < t2.nodes.len() && 0 <= k < t2.nodes[i].children.len() implies i
            < #[trigger] t2.nodes[i].children[k] < t2.nodes.len() by {
        if i < n {
            assert(t1.nodes[i] == t.nodes[i]);
            match parent {
                Some(p) => {
                    if i == p {
                        if k < t.nodes[i].children.len() {
                            assert(t2.nodes[i].children[k] == t.nodes[i].children[k]);
                        }
                    } else {
                        assert(t2.nodes[i] == t.nodes[i]);
                    }
                },
                None => {},
            }
        } else {
            assert(t1.nodes[i].children.len() == 0);
            match parent {
                Some(p) => {
                    assert(t2.nodes[i] == t1.nodes[i]);
                },
                None => {},
            }
        }
    }
    assert forall|k: int| 0 <= k < t2.roots.len() implies 0 <= #[trigger] t2.roots[k] < t2.nodes.len() by {
        match parent {
            Some(p) => {},
            None => {
                if k < t.roots.len() {
                    assert(t2.roots[k] == t.roots[k]);
                }
            },
        }
    }
}

proof fn lemma_open_wf(t: TreeV, f: TagFragV, page: int, parent: Option<int>)
    requires
        tree_wf(t),
        opt_ok(parent, t.nodes.len() as int),
    ensures
        tree_wf(open_spec(t, f, page, parent).0),
        opt_ok(open_spec(t, f, page, parent).1, open_spec(t, f, page, parent).0.nodes.len() as int),
        open_spec(t, f, page, parent).0.nodes.len() >= t.nodes.len(),
{
    match f.role {
        None => {},
        Some(UaRole::Artifact) => {},
        Some(r) => {
            lemma_push_add_wf(t, map_role_spec(r), f.alt, page, parent);
        },
    }
}

proof fn lemma_attach_wf(t: TreeV, f: TagFragV, page: int, holder: Option<int>, mcid: int)
    requires
        tree_wf(t),
        opt_ok(holder, t.nodes.len() as int),
    ensures
        tree_wf(attach_spec(t, f, page, holder, mcid).0),
        attach_spec(t, f, page, holder, mcid).0.nodes.len() >= t.nodes.len(),
        attach_spec(t, f, page, holder, mcid).1 == mcid + if f.content {
            1int
        } else {
            0int
        },
{
    if f.content {
        let (t1, owner) = match holder {
            Some(h) => (t, h),
            None => {
                lemma_push_add_wf(t, SRole::P, None, page, None);
                let idx = t.nodes.len() as int;
                (add_child_spec(push_node_spec(t, SRole::P, None, page), None, idx), idx)
            },
        };
        let t2 = attach_spec(t, f, page, holder, mcid).0;
        assert forall|i: int, k: int|
            0 <= i < t2.nodes.len() && 0 <= k < t2.nodes[i].children.len() implies i
                < #[trigger] t2.nodes[i].children[k] < t2.nodes.len() by {
            assert(t2.nodes[i].children == t1.nodes[i].children);
        }
        assert forall|k: int| 0 <= k < t2.roots.len() implies 0 <= #[trigger] t2.roots[k] < t2.nodes.len() by {
            assert(t2.roots == t1.roots);
        }
    }
}

proof fn lemma_walk_wf(t: TreeV, f: TagFragV, page: int, parent: Option<int>, mcid: int)
    requires
        tree_wf(t),
        opt_ok(parent, t.nodes.len() as int),
    ensures
        tree_wf(walk_spec(t, f, page, parent, mcid).0),
        walk_spec(t, f, page, parent, mcid).0.nodes.len() >= t.nodes.len(),
        walk_spec(t, f, page, parent, mcid).1 == mcid + frag_content_count(f),
    decreases f, 1nat,
{
    lemma_open_wf(t, f, page, parent);
    let (t1, holder) = open_spec(t, f, page, parent);
    lemma_attach_wf(t1, f, page, holder, mcid);
    let (t2, m2) = attach_spec(t1, f, page, holder, mcid);
    lemma_walk_all_wf(t2, f.children, page, holder, m2);
}

proof fn lemma_walk_all_wf(t: TreeV, fs: Seq<TagFragV>, page: int, parent: Option<int>, mcid: int)
    requires
        tree_wf(t),
        opt_ok(parent, t.nodes.len() as int),
    ensures
        tree_wf(walk_all_spec(t, fs, page, parent, mcid).0),
        walk_all_spec(t, fs, page, parent, mcid).0.nodes.len() >= t.nodes.len(),
        walk_all_spec(t, fs, page, parent, mcid).1 == mcid + content_count(fs),
    decreases fs, 0nat,
{
    if fs.len() > 0 {
        lemma_walk_all_wf(t, fs.drop_last(), page, parent, mcid);
        let (t1, m1) = walk_all_spec(t, fs.drop_last(), page, parent, mcid);
        lemma_walk_wf(t1, fs.last(), page, parent, m1);
    }
}

/// The tagged-PDF plan is a forest of structure elements (children after
/// their parents, every index in range), with one marked-content count per
/// page equal to the number of content fragments in its body and footnote
/// bands.
pub proof fn plan_is_forest_with_counts(pages: Seq<PageFrags>)
    ensures
        tree_wf(run_spec(pages).0),
        run_spec(pages).1.len() == pages.len(),
        forall|p: int|
            0 <= p < pages.len() ==> #[trigger] run_spec(pages).1[p] == content_count(
                frags_view(pages[p].body@),
            ) + content_count(frags_view(pages[p].footnotes@)),
    decreases pages.len(),
{
    if pages.len() > 0 {
        let d = pages.drop_last();
        plan_is_forest_with_counts(d);
        let (t1, c1) = run_spec(d);
        let p = pages.len() - 1;
        lemma_walk_all_wf(t1, frags_view(pages.last().body@), p, None, 0);
        let (t2, m2) = walk_all_spec(t1, frags_view(pages.last().body@), p, None, 0);
        lemma_walk_all_wf(t2, frags_view(pages.last().footnotes@), p, None, m2);
        assert forall|q: int| 0 <= q < pages.len() implies #[trigger] run_spec(pages).1[q] == content_count(
            frags_view(pages[q].body@),
        ) + content_count(frags_view(pages[q].footnotes@)) by {
            if q < d.len() {
                assert(run_spec(pages).1[q] == c1[q]);
                assert(d[q] == pages[q]);
            }
        }
    } else {
        assert(tree_wf(TreeV { nodes: seq![], roots: seq![] }));
    }
}


/// The marked-content ids held by elements on `page` are exactly
/// `0..count`, each held once, by one element.
pub open spec fn mcids_exact(t: TreeV, page: int, count: int) -> bool {
    &&& forall|i: int, k: int|
        0 <= i < t.nodes.len() && t.nodes[i].page == page && 0 <= k < t.nodes[i].mcids.len() ==> 0
            <= #[trigger] t.nodes[i].mcids[k] < count
    &&& forall|i: int, k: int, j: int, l: int|
        0 <= i < t.nodes.len() && 0 <= j < t.nodes.len() && t.nodes[i].page == page
            && t.nodes[j].page == page && 0 <= k < t.nodes[i].mcids.len() && 0 <= l
            < t.nodes[j].mcids.len() && #[trigger] t.nodes[i].mcids[k] == #[trigger] t.nodes[j].mcids[l]
            ==> i == j && k == l
    &&& forall|m: int| 0 <= m < count ==> #[trigger] held(t, page, m)
}

/// Whether an element on `page` holds marked-content id `m`.
pub open spec fn held(t: TreeV, page: int, m: int) -> bool {
    exists|i: int, k: int|
        0 <= i < t.nodes.len() && t.nodes[i].page == page && 0 <= k < t.nodes[i].mcids.len()
            && #[trigger] t.nodes[i].mcids[k] == m
}

/// Walking `page` from `t` to `u` only adds elements on that page and only
/// adds marked content to elements on that page.
pub open spec fn frame(t: TreeV, u: TreeV, page: int) -> bool {
    &&& t.nodes.len() <= u.nodes.len()
    &&& forall|i: int| 0 <= i < t.nodes.len() ==> #[trigger] u.nodes[i].page == t.nodes[i].page
    &&& forall|i: int|
        0 <= i < t.nodes.len() && t.nodes[i].page != page ==> #[trigger] u.nodes[i].mcids
            == t.nodes[i].mcids
    &&& forall|i: int| t.nodes.len() <= i < u.nodes.len() ==> #[trigger] u.nodes[i].page == page
}

/// An optional holder that is an element on `page`.
pub open spec fn holder_on(t: TreeV, h: Option<int>, page: int) -> bool {
    match h {
        Some(i) => 0 <= i < t.nodes.len() && t.nodes[i].page == page,
        None => true,
    }
}

proof fn lemma_frame_trans(t: TreeV, u: TreeV, v: TreeV, page: int)
    requires
        frame(t, u, page),
        frame(u, v, page),
    ensures
        frame(t, v, page),
{
    assert forall|i: int| 0 <= i < t.nodes.len() && t.nodes[i].page != page implies #[trigger] v.nodes[i].mcids
        == t.nodes[i].mcids by {
        assert(u.nodes[i].page == t.nodes[i].page);
    }
}

proof fn lemma_frame_other(t: TreeV, u: TreeV, page: int, q: int, c: int)
    requires
        frame(t, u, page),
        q != page,
        mcids_exact(t, q, c),
    ensures
        mcids_exact(u, q, c),
{
    assert forall|i: int, k: int|
        0 <= i < u.nodes.len() && u.nodes[i].page == q && 0 <= k < u.nodes[i].mcids.len() implies 0
            <= #[trigger] u.nodes[i].mcids[k] < c by {
        assert(i < t.nodes.len());
        assert(u.nodes[i].mcids == t.nodes[i].mcids);
    }
    assert forall|i: int, k: int, j: int, l: int|
        0 <= i < u.nodes.len() && 0 <= j < u.nodes.len() && u.nodes[i].page == q && u.nodes[j].page
            == q && 0 <= k < u.nodes[i].mcids.len() && 0 <= l < u.nodes[j].mcids.len()
            && #[trigger] u.nodes[i].mcids[k] == #[trigger] u.nodes[j].mcids[l] implies i == j && k
        == l by {
        assert(i < t.nodes.len());
        assert(j < t.nodes.len());
        assert(u.nodes[i].mcids == t.nodes[i].mcids);
        assert(u.nodes[j].mcids == t.nodes[j].mcids);
        assert(t.nodes[i].mcids[k] == t.nodes[j].mcids[l]);
    }
    assert forall|m: int| 0 <= m < c implies held(u, q, m) by {
        assert(held(t, q, m));
        let (i, k) = choose|i: int, k: int|
            0 <= i < t.nodes.len() && t.nodes[i].page == q && 0 <= k < t.nodes[i].mcids.len()
                && #[trigger] t.nodes[i].mcids[k] == m;
        assert(u.nodes[i].mcids == t.nodes[i].mcids);
        assert(u.nodes[i].mcids[k] == m);
    }
}

/// A new element (no content yet) or a new child link changes no element's
/// page or marked content.
proof fn lemma_open_mcids(t: TreeV, f: TagFragV, page: int, parent: Option<int>, c: int)
    requires
        mcids_exact(t, page, c),
        holder_on(t, parent, page),
    ensures
        mcids_exact(open_spec(t, f, page, parent).0, page, c),
        frame(t, open_spec(t, f, page, parent).0, page),
        holder_on(open_spec(t, f, page, parent).0, open_spec(t, f, page, parent).1, page),
{
    match f.role {
        None => {},
        Some(UaRole::Artifact) => {},
        Some(r) => {
            let idx = t.nodes.len() as int;
            let t1 = push_node_spec(t, map_role_spec(r), f.alt, page);
            let t2 = add_child_spec(t1, parent, idx);
            assert forall|i: int| 0 <= i < t2.nodes.len() implies #[trigger] t2.nodes[i].page
                == t1.nodes[i].page && t2.nodes[i].mcids == t1.nodes[i].mcids by {}
            lemma_same_mcids(t, t2, page, c);
        },
    }
}

/// Appending an element with no content keeps the picture of marked content.
proof fn lemma_same_mcids(t: TreeV, u: TreeV, page: int, c: int)
    requires
        mcids_exact(t, page, c),
        t.nodes.len() <= u.nodes.len(),
        forall|i: int|
            0 <= i < t.nodes.len() ==> #[trigger] u.nodes[i].page == t.nodes[i].page
                && u.nodes[i].mcids == t.nodes[i].mcids,
        forall|i: int| t.nodes.len() <= i < u.nodes.len() ==> #[trigger] u.nodes[i].mcids.len() == 0
            && u.nodes[i].page == page,
    ensures
        mcids_exact(u, page, c),
        frame(t, u, page),
{
    assert forall|i: int| 0 <= i < t.nodes.len() implies #[trigger] u.nodes[i].page == t.nodes[i].page by {}
    assert forall|i: int| t.nodes.len() <= i < u.nodes.len() implies #[trigger] u.nodes[i].page == page by {
        assert(u.nodes[i].mcids.len() == 0);
    }
    assert forall|i: int| 0 <= i < t.nodes.len() && t.nodes[i].page != page implies #[trigger] u.nodes[i].mcids
        == t.nodes[i].mcids by {
        assert(u.nodes[i].page == t.nodes[i].page);
    }
    assert forall|i: int, k: int|
        0 <= i < u.nodes.len() && u.nodes[i].page == page && 0 <= k < u.nodes[i].mcids.len() implies 0
            <= #[trigger] u.nodes[i].mcids[k] < c by {
        assert(i < t.nodes.len());
    }
    assert forall|i: int, k: int, j: int, l: int|
        0 <= i < u.nodes.len() && 0 <= j < u.nodes.len() && u.nodes[i].page == page
            && u.nodes[j].page == page && 0 <= k < u.nodes[i].mcids.len() && 0 <= l
            < u.nodes[j].mcids.len() && #[trigger] u.nodes[i].mcids[k] == #[trigger] u.nodes[j].mcids[l]
            implies i == j && k == l by {
        assert(i < t.nodes.len());
        assert(j < t.nodes.len());
        assert(t.nodes[i].mcids[k] == t.nodes[j].mcids[l]);
    }
    assert forall|m: int| 0 <= m < c implies held(u, page, m) by {
        assert(held(t, page, m));
        let (i, k) = choose|i: int, k: int|
            0 <= i < t.nodes.len() && t.nodes[i].page == page && 0 <= k < t.nodes[i].mcids.len()
                && #[trigger] t.nodes[i].mcids[k] == m;
        assert(u.nodes[i].mcids[k] == m);
    }
}

/// Attaching content gives it the next id, held by exactly its holder.
proof fn lemma_attach_mcids(t: TreeV, f: TagFragV, page: int, holder: Option<int>, c: int)
    requires
        0 <= c,
        mcids_exact(t, page, c),
        holder_on(t, holder, page),
    ensures
        mcids_exact(attach_spec(t, f, page, holder, c).0, page, attach_spec(t, f, page, holder, c).1),
        frame(t, attach_spec(t, f, page, holder, c).0, page),
        attach_spec(t, f, page, holder, c).1 >= c,
        holder_on(attach_spec(t, f, page, holder, c).0, holder, page),
{
    if f.content {
        let (t1, owner) = match holder {
            Some(h) => (t, h),
            None => {
                let idx = t.nodes.len() as int;
                (add_child_spec(push_node_spec(t, SRole::P, None, page), None, idx), idx)
            },
        };
        if holder is None {
            lemma_same_mcids(t, t1, page, c);
        }
        assert(mcids_exact(t1, page, c));
        assert(frame(t, t1, page));
        assert(0 <= owner < t1.nodes.len() && t1.nodes[owner].page == page);
        let old_m = t1.nodes[owner].mcids;
        let u = TreeV {
            nodes: t1.nodes.update(owner, NodeV { mcids: old_m.push(c), ..t1.nodes[owner] }),
            roots: t1.roots,
        };
        assert(u == attach_spec(t, f, page, holder, c).0);
        assert(u.nodes[owner].mcids == old_m.push(c));
        assert forall|i: int, k: int|
            0 <= i < u.nodes.len() && u.nodes[i].page == page && 0 <= k < u.nodes[i].mcids.len()
                implies 0 <= #[trigger] u.nodes[i].mcids[k] < c + 1 by {
            if i == owner && k == old_m.len() {
                assert(u.nodes[i].mcids[k] == c);
            } else if i == owner {
                assert(u.nodes[i].mcids[k] == t1.nodes[i].mcids[k]);
                assert(t1.nodes[i].mcids[k] < c);
            } else {
                assert(u.nodes[i] == t1.nodes[i]);
                assert(t1.nodes[i].mcids[k] < c);
            }
        }
        assert forall|i: int, k: int, j: int, l: int|
            0 <= i < u.nodes.len() && 0 <= j < u.nodes.len() && u.nodes[i].page == page
                && u.nodes[j].page == page && 0 <= k < u.nodes[i].mcids.len() && 0 <= l
                < u.nodes[j].mcids.len() && #[trigger] u.nodes[i].mcids[k]
                == #[trigger] u.nodes[j].mcids[l] implies i == j && k == l by {
            let new_i = i == owner && k == old_m.len();
            let new_j = j == owner && l == old_m.len();
            if !new_i {
                assert(u.nodes[i].mcids[k] == t1.nodes[i].mcids[k]);
                assert(t1.nodes[i].mcids[k] < c);
            }
            if !new_j {
                assert(u.nodes[j].mcids[l] == t1.nodes[j].mcids[l]);
                assert(t1.nodes[j].mcids[l] < c);
            }
            if !new_i && !new_j {
                assert(t1.nodes[i].mcids[k] == t1.nodes[j].mcids[l]);
            }
        }
        assert forall|m: int| 0 <= m < c + 1 implies held(u, page, m) by {
            if m == c {
                assert(u.nodes[owner].mcids[old_m.len() as int] == m);
            } else {
                assert(held(t1, page, m));
                let (i, k) = choose|i: int, k: int|
                    0 <= i < t1.nodes.len() && t1.nodes[i].page == page && 0 <= k
                        < t1.nodes[i].mcids.len() && #[trigger] t1.nodes[i].mcids[k] == m;
                assert(u.nodes[i].mcids[k] == m);
            }
        }
        assert forall|i: int|
            0 <= i < t.nodes.len() && t.nodes[i].page != page implies #[trigger] u.nodes[i].mcids
            == t.nodes[i].mcids by {
            assert(t1.nodes[i].page == t.nodes[i].page);
            assert(i != owner);
        }
        assert forall|i: int| 0 <= i < t.nodes.len() implies #[trigger] u.nodes[i].page
            == t.nodes[i].page by {
            assert(t1.nodes[i].page == t.nodes[i].page);
        }
        assert forall|i: int| t.nodes.len() <= i < u.nodes.len() implies #[trigger] u.nodes[i].page
            == page by {
            assert(t1.nodes[i].page == page);
        }
    }
}

proof fn lemma_walk_mcids(t: TreeV, f: TagFragV, page: int, parent: Option<int>, c: int)
    requires
        0 <= c,
        mcids_exact(t, page, c),
        holder_on(t, parent, page),
    ensures
        mcids_exact(walk_spec(t, f, page, parent, c).0, page, walk_spec(t, f, page, parent, c).1),
        frame(t, walk_spec(t, f, page, parent, c).0, page),
        walk_spec(t, f, page, parent, c).1 >= c,
        holder_on(walk_spec(t, f, page, parent, c).0, parent, page),
    decreases f, 1nat,
{
    lemma_open_mcids(t, f, page, parent, c);
    let (t1, holder) = open_spec(t, f, page, parent);
    lemma_attach_mcids(t1, f, page, holder, c);
    let (t2, m2) = attach_spec(t1, f, page, holder, c);
    lemma_frame_trans(t, t1, t2, page);
    lemma_walk_all_mcids(t2, f.children, page, holder, m2);
    let (t3, m3) = walk_all_spec(t2, f.children, page, holder, m2);
    lemma_frame_trans(t, t2, t3, page);
}

proof fn lemma_walk_all_mcids(t: TreeV, fs: Seq<TagFragV>, page: int, parent: Option<int>, c: int)
    requires
        0 <= c,
        mcids_exact(t, page, c),
        holder_on(t, parent, page),
    ensures
        mcids_exact(walk_all_spec(t, fs, page, parent, c).0, page, walk_all_spec(t, fs, page, parent, c).1),
        frame(t, walk_all_spec(t, fs, page, parent, c).0, page),
        walk_all_spec(t, fs, page, parent, c).1 >= c,
        holder_on(walk_all_spec(t, fs, page, parent, c).0, parent, page),
    decreases fs, 0nat,
{
    if fs.len() > 0 {
        lemma_walk_all_mcids(t, fs.drop_last(), page, parent, c);
        let (t1, m1) = walk_all_spec(t, fs.drop_last(), page, parent, c);
        lemma_walk_mcids(t1, fs.last(), page, parent, m1);
        let (t2, m2) = walk_spec(t1, fs.last(), page, parent, m1);
        lemma_frame_trans(t, t1, t2, page);
    }
}

proof fn lemma_run_mcids(pages: Seq<PageFrags>)
    ensures
        run_spec(pages).1.len() == pages.len(),
        forall|i: int|
            0 <= i < run_spec(pages).0.nodes.len() ==> 0 <= #[trigger] run_spec(pages).0.nodes[i].page
                < pages.len(),
        forall|p: int| 0 <= p < pages.len() ==> mcids_exact(run_spec(pages).0, p, #[trigger] run_spec(pages).1[p]),
    decreases pages.len(),
{
    if pages.len() > 0 {
        let d = pages.drop_last();
        lemma_run_mcids(d);
        let (t1, c1) = run_spec(d);
        let p = pages.len() - 1;
        assert(mcids_exact(t1, p, 0)) by {
            assert forall|m: int| 0 <= m < 0 implies held(t1, p, m) by {}
        }
        lemma_walk_all_mcids(t1, frags_view(pages.last().body@), p, None, 0);
        let (t2, m2) = walk_all_spec(t1, frags_view(pages.last().body@), p, None, 0);
        lemma_walk_all_mcids(t2, frags_view(pages.last().footnotes@), p, None, m2);
        let (t3, m3) = walk_all_spec(t2, frags_view(pages.last().footnotes@), p, None, m2);
        lemma_frame_trans(t1, t2, t3, p);
        assert forall|q: int| 0 <= q < pages.len() implies mcids_exact(t3, q, #[trigger] c1.push(m3)[q]) by {
            if q < p {
                lemma_frame_other(t1, t3, p, q, c1[q]);
            }
        }
        assert forall|i: int| 0 <= i < t3.nodes.len() implies 0 <= #[trigger] t3.nodes[i].page
            < pages.len() by {
            if i < t1.nodes.len() {
                assert(t3.nodes[i].page == t1.nodes[i].page);
            }
        }
    }
}

proof fn lemma_owner_unique(nodes: Seq<NodeV>, refs: Seq<i32>, page: int, doc: i32, m: int, h: int)
    requires
        0 <= h < nodes.len(),
        nodes[h].page == page,
        nodes[h].mcids.contains(m),
        forall|j: int| 0 <= j < nodes.len() && nodes[j].page == page && #[trigger] nodes[j].mcids.contains(m) ==> j == h,
    ensures
        owner_spec(nodes, refs, page, doc, m) == refs[h],
    decreases nodes.len(),
{
    if h < nodes.len() - 1 {
        assert(!(nodes.last().page == page && nodes.last().mcids.contains(m)));
        lemma_owner_unique(nodes.drop_last(), refs, page, doc, m, h);
    }
}

/// In the tagged-PDF plan each marked-content id of a page is held by
/// exactly one structure element on that page, every id an element holds
/// there is below the page's count, and the parent tree maps the id to that
/// element's object.
pub proof fn marked_content_has_one_owner(pages: Seq<PageFrags>, refs: Seq<i32>, doc: i32, p: int, m: int)
    requires
        0 <= p < pages.len(),
        0 <= m < run_spec(pages).1[p],
    ensures
        forall|i: int, k: int|
            0 <= i < run_spec(pages).0.nodes.len() && run_spec(pages).0.nodes[i].page == p && 0 <= k
                < run_spec(pages).0.nodes[i].mcids.len() ==> 0 <= #[trigger] run_spec(pages).0.nodes[i].mcids[k]
                < run_spec(pages).1[p],
        exists|h: int|
            0 <= h < run_spec(pages).0.nodes.len() && run_spec(pages).0.nodes[h].page == p
                && run_spec(pages).0.nodes[h].mcids.contains(m) && (forall|j: int|
                0 <= j < run_spec(pages).0.nodes.len() && run_spec(pages).0.nodes[j].page == p
                    && #[trigger] run_spec(pages).0.nodes[j].mcids.contains(m) ==> j == h)
                && owner_spec(run_spec(pages).0.nodes, refs, p, doc, m) == refs[h],
{
    lemma_run_mcids(pages);
    let t = run_spec(pages).0;
    let c = run_spec(pages).1[p];
    assert(mcids_exact(t, p, c));
    assert(held(t, p, m));
    let (h, kh) = choose|i: int, k: int|
        0 <= i < t.nodes.len() && t.nodes[i].page == p && 0 <= k < t.nodes[i].mcids.len()
            && #[trigger] t.nodes[i].mcids[k] == m;
    assert(t.nodes[h].mcids.contains(m));
    assert forall|j: int| 0 <= j < t.nodes.len() && t.nodes[j].page == p && #[trigger] t.nodes[j].mcids.contains(m) implies j == h by {
        let l = choose|l: int| 0 <= l < t.nodes[j].mcids.len() && t.nodes[j].mcids[l] == m;
        assert(t.nodes[j].mcids[l] == t.nodes[h].mcids[kh]);
    }
    lemma_owner_unique(t.nodes, refs, p, doc, m, h);
}

} // verus!
