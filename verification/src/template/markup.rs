//! Parse rendered markup into the resolved node tree. The HTML parser turns the
//! markup into a document tree, which is lowered into the owned [`Node`] tree,
//! recognizing `t:` elements as typed directives.
use vstd::prelude::*;
use html5ever::tendril::TendrilSink;
use markup5ever_rcdom::{Handle, NodeData};
use markup5ever_rcdom::Node as RcdomNode;
use crate::bytes::{find_spec, lemma_find_skip, lemma_find_spec_props};
use crate::chars::{chars_eq, chars_of, copy_range, find_chars, has_prefix, has_suffix, is_ws, is_whitespace, push_chars, push_str, starts_with, ends_with, string_of};
use crate::error::{ErrorCode, RenderError, Span};
use crate::node::{Attr, AttrView, Element, Node, NodeView, Tag, TagView, attrs_view, node_view, nodes_view, t_kind, t_kind_spec};

verus! {

#[verifier::external_type_specification]
#[verifier::external_body]
pub struct ExRcdomNode(RcdomNode);

/// A node of the document tree the HTML parser builds, as plain values: the
/// kind of node, and for text and elements what the lowering reads.
#[derive(Debug)]
pub enum DomNode {
    Document { children: Vec<DomNode> },
    Doctype,
    Text(String),
    Comment,
    Element { name: String, attrs: Vec<Attr>, children: Vec<DomNode> },
    ProcessingInstruction,
}

/// The plain-value picture of a [`DomNode`].
pub enum DomView {
    Document { children: Seq<DomView> },
    Doctype,
    Text(Seq<char>),
    Comment,
    Element { name: Seq<char>, attrs: Seq<AttrView>, children: Seq<DomView> },
    ProcessingInstruction,
}

/// The view of one document node.
pub open spec fn dom_view(d: DomNode) -> DomView
    decreases d, 1nat,
{
    match d {
        DomNode::Document { children } => DomView::Document { children: doms_view(children@) },
        DomNode::Doctype => DomView::Doctype,
        DomNode::Text(t) => DomView::Text(t@),
        DomNode::Comment => DomView::Comment,
        DomNode::Element { name, attrs, children } => DomView::Element {
            name: name@,
            attrs: attrs_view(attrs@),
            children: doms_view(children@),
        },
        DomNode::ProcessingInstruction => DomView::ProcessingInstruction,
    }
}

/// The views of a list of document nodes.
pub open spec fn doms_view(s: Seq<DomNode>) -> Seq<DomView>
    decreases s, 0nat,
{
    if s.len() == 0 {
        Seq::empty()
    } else {
        doms_view(s.drop_last()).push(dom_view(s.last()))
    }
}

/// The document tree html5ever builds from `markup`. The HTML parsing
/// algorithm is not restated here: the tree is named, and the lowering below
/// is stated over whatever tree it is.
pub uninterp spec fn html_document(markup: Seq<char>) -> DomView;

/// `html5ever::parse_document` with default options into an `RcDom`, fed
/// `markup` as UTF-8; the resulting document converted node for node into a
/// [`DomNode`]. The contract only names the tree the parser builds.
#[verifier::external_body]
fn parse_document_tree(markup: &str) -> (res: DomNode)
    ensures
        dom_view(res) == html_document(markup@),
{
    let dom = html5ever::parse_document(markup5ever_rcdom::RcDom::default(), Default::default())
        .from_utf8()
        .read_from(&mut markup.as_bytes())
        .unwrap();
    dom_tree(&dom.document)
}

/// A `markup5ever_rcdom` node and its subtree, each node converted to the
/// [`DomNode`] of its kind: text contents, element local names and attribute
/// local names and values read out as strings, all other fields dropped.
#[verifier::external_body]
fn dom_tree(h: &Handle) -> DomNode {
    let kids = || h.children.borrow().iter().map(dom_tree).collect();
    match &h.data {
        NodeData::Document => DomNode::Document { children: kids() },
        NodeData::Doctype { .. } => DomNode::Doctype,
        NodeData::Text { contents } => DomNode::Text(contents.borrow().to_string()),
        NodeData::Comment { .. } => DomNode::Comment,
        NodeData::Element { name, attrs, .. } => DomNode::Element {
            name: name.local.to_string(),
            attrs: attrs.borrow().iter().map(|a| Attr { name: a.name.local.to_string(), value: a.value.to_string() }).collect(),
            children: kids(),
        },
        NodeData::ProcessingInstruction { .. } => DomNode::ProcessingInstruction,
    }
}

/// `<t:`.
pub open spec fn t_open() -> Seq<char> {
    seq!['<', 't', ':']
}

/// The length of the leading run of non-whitespace characters of `s`.
pub open spec fn name_end(s: Seq<char>) -> int
    decreases s.len(),
{
    if s.len() == 0 || is_ws(s[0]) {
        0
    } else {
        1 + name_end(s.drop_first())
    }
}

/// The element name in an open tag prefix like `<t:region slot="x"`: what
/// follows the `<` up to the first whitespace.
pub open spec fn elem_name_spec(open: Seq<char>) -> Seq<char> {
    open.drop_first().take(name_end(open.drop_first()))
}

/// The rewrite of the `t:` tag at the start of `s`: how many characters it
/// spans (through the first `>`, or all of `s` when there is none) and what
/// replaces them — a self-closing `<t:NAME …/>` becomes `<t:NAME …></t:NAME>`,
/// any other tag stays as it is.
pub open spec fn rewrite_spec(s: Seq<char>) -> (int, Seq<char>) {
    match find_spec(s, seq!['>'], 0) {
        None => (s.len() as int, s),
        Some(gt) => {
            let tag = s.take(gt + 1);
            if ends_with(tag, seq!['/', '>']) {
                let open = tag.take(tag.len() - 2);
                (gt + 1, open + seq!['>', '<', '/'] + elem_name_spec(open) + seq!['>'])
            } else {
                (gt + 1, tag)
            }
        },
    }
}

/// `s` with every self-closing `t:` element expanded into an explicit open and
/// close pair, scanning from the left.
pub open spec fn expand_spec(s: Seq<char>) -> Seq<char>
    decreases s.len(),
{
    match find_spec(s, t_open(), 0) {
        None => s,
        Some(idx) => {
            proof {
                lemma_find_spec_props(s, t_open(), 0);
                lemma_find_spec_props(s.skip(idx), seq!['>'], 0);
            }
            let (consumed, rw) = rewrite_spec(s.skip(idx));
            s.take(idx) + rw + expand_spec(s.skip(idx + consumed))
        },
    }
}

/// The directive name of a local element name that starts with `t:`.
pub open spec fn t_rest(local: Seq<char>) -> Option<Seq<char>> {
    if starts_with(local, seq!['t', ':']) {
        Some(local.skip(2))
    } else {
        None
    }
}

/// The tag of a local element name: a directive for a known `t:NAME`, a plain
/// element for a name without `t:`, and the unknown `NAME` as the error.
pub open spec fn tag_of_spec(local: Seq<char>) -> Result<TagView, Seq<char>> {
    match t_rest(local) {
        Some(rest) => match t_kind_spec(rest) {
            Some(k) => Ok(TagView::Directive(k)),
            None => Err(rest),
        },
        None => Ok(TagView::Html(local)),
    }
}

/// One document node lowered: text and elements become nodes, other kinds
/// are dropped; the first unknown `t:` name met in document order is the
/// error.
pub open spec fn convert_node_spec(d: DomView) -> Result<Option<NodeView>, Seq<char>>
    decreases d, 1nat,
{
    match d {
        DomView::Text(t) => Ok(Some(NodeView::Text(t))),
        DomView::Element { name, attrs, children } => match tag_of_spec(name) {
            Err(r) => Err(r),
            Ok(tag) => match convert_children_spec(children) {
                Err(r) => Err(r),
                Ok(c) => Ok(Some(NodeView::Element { tag, attrs, children: c })),
            },
        },
        _ => Ok(None),
    }
}

/// A list of document nodes lowered, in order.
pub open spec fn convert_children_spec(s: Seq<DomView>) -> Result<Seq<NodeView>, Seq<char>>
    decreases s, 0nat,
{
    if s.len() == 0 {
        Ok(Seq::empty())
    } else {
        match convert_children_spec(s.drop_last()) {
            Err(r) => Err(r),
            Ok(init) => match convert_node_spec(s.last()) {
                Err(r) => Err(r),
                Ok(None) => Ok(init),
                Ok(Some(n)) => Ok(init.push(n)),
            },
        }
    }
}

/// The first element named `name` strictly below `d`, depth first in document
/// order.
pub open spec fn find_element_spec(d: DomView, name: Seq<char>) -> Option<DomView>
    decreases d, 1nat,
{
    match d {
        DomView::Document { children } => find_in_spec(children, name),
        DomView::Element { children, .. } => find_in_spec(children, name),
        _ => None,
    }
}

/// The first element named `name` among `s` and their descendants, depth
/// first in document order.
pub open spec fn find_in_spec(s: Seq<DomView>, name: Seq<char>) -> Option<DomView>
    decreases s, 0nat,
{
    if s.len() == 0 {
        None
    } else {
        match find_in_spec(s.drop_last(), name) {
            Some(f) => Some(f),
            None => if s.last() matches DomView::Element { name: n, .. } && n == name {
                Some(s.last())
            } else {
                find_element_spec(s.last(), name)
            },
        }
    }
}

/// The children of the document's first `<body>` element.
pub open spec fn body_children(doc: DomView) -> Option<Seq<DomView>> {
    match find_element_spec(doc, "body"@) {
        Some(DomView::Element { children, .. }) => Some(children),
        _ => None,
    }
}

/// The message for an unknown `t:` element named `rest` after the `t:`.
pub open spec fn unknown_t_message(rest: Seq<char>) -> Seq<char> {
    "unknown t: element 't:"@ + rest + "'"@
}

/// The default span.
pub open spec fn no_span() -> Span {
    Span { line: 0, col: 0, byte_offset: 0 }
}

/// `e` reports the unknown `t:` element `rest`.
pub open spec fn is_unknown_t_error(e: RenderError, rest: Seq<char>) -> bool {
    e.code == ErrorCode::UnknownElement && e.message@ == unknown_t_message(rest) && e.span == no_span()
}

/// `e` reports a document without a `<body>`.
pub open spec fn is_no_body_error(e: RenderError) -> bool {
    e.code == ErrorCode::Render && e.message@ == "the parsed document has no <body>"@ && e.span == no_span()
}

/// What lowering a document tree gives: the lowered `<body>` children, the
/// first unknown `t:` name, or (outer `None`) no `<body>` at all.
pub open spec fn lower_spec(doc: DomView) -> Option<Result<Seq<NodeView>, Seq<char>>> {
    match body_children(doc) {
        None => None,
        Some(c) => Some(convert_children_spec(c)),
    }
}

/// `res` is what [`lower_spec`] says of `doc`.
pub open spec fn lowers_to(doc: DomView, res: Result<Vec<Node>, RenderError>) -> bool {
    match lower_spec(doc) {
        None => res matches Err(e) && is_no_body_error(e),
        Some(Ok(v)) => res matches Ok(out) && nodes_view(out@) == v,
        Some(Err(r)) => res matches Err(e) && is_unknown_t_error(e, r),
    }
}

proof fn lemma_doms_view_push(s: Seq<DomNode>, d: DomNode)
    ensures
        doms_view(s.push(d)) == doms_view(s).push(dom_view(d)),
{
    assert(s.push(d).drop_last() =~= s);
}

proof fn lemma_nodes_view_push(s: Seq<Node>, n: Node)
    ensures
        nodes_view(s.push(n)) == nodes_view(s).push(node_view(n)),
{
    assert(s.push(n).drop_last() =~= s);
}

proof fn lemma_find_in_prefix(s: Seq<DomView>, j: int, name: Seq<char>)
    requires
        0 <= j <= s.len(),
        find_in_spec(s.take(j), name) is Some,
    ensures
        find_in_spec(s, name) == find_in_spec(s.take(j), name),
    decreases s.len(),
{
    if j == s.len() {
        assert(s.take(j) =~= s);
    } else {
        assert(s.drop_last().take(j) =~= s.take(j));
        lemma_find_in_prefix(s.drop_last(), j, name);
    }
}

proof fn lemma_convert_prefix_err(s: Seq<DomView>, j: int)
    requires
        0 <= j <= s.len(),
        convert_children_spec(s.take(j)) is Err,
    ensures
        convert_children_spec(s) == convert_children_spec(s.take(j)),
    decreases s.len(),
{
    if j == s.len() {
        assert(s.take(j) =~= s);
    } else {
        assert(s.drop_last().take(j) =~= s.take(j));
        lemma_convert_prefix_err(s.drop_last(), j);
    }
}

/// The length of the leading run of non-whitespace characters of `s[from..]`.
fn name_end_from(s: &[char], from: usize) -> (res: usize)
    requires
        from <= s@.len(),
    ensures
        res == name_end(s@.skip(from as int)),
        from + res <= s@.len(),
{
    let mut i = from;
    let _n = s.len();
    while i < s.len() && !is_whitespace(s[i])
        invariant
            from <= i <= s@.len(),
            name_end(s@.skip(from as int)) == (i - from) + name_end(s@.skip(i as int)),
        decreases s.len() - i,
    {
        assert(s@.skip(i as int).drop_first() =~= s@.skip(i + 1));
        i += 1;
    }
    i - from
}

/// The element name in an open tag prefix like `<t:region slot="x"`.
fn elem_name(open: &[char]) -> (res: Vec<char>)
    requires
        open@.len() >= 1,
    ensures
        res@ == elem_name_spec(open@),
{
    let _n = open.len();
    let end = name_end_from(open, 1);
    assert(open@.drop_first() =~= open@.skip(1));
    let res = copy_range(open, 1, 1 + end);
    assert(res@ =~= open@.drop_first().take(end as int));
    res
}

/// Rewrite the `t:` tag starting at `s[at]`, expanding a self-closing form
/// into an explicit open and close pair: (characters consumed, replacement).
fn rewrite_one(s: &[char], at: usize) -> (res: (usize, Vec<char>))
    requires
        at <= s@.len(),
        starts_with(s@.skip(at as int), t_open()),
    ensures
        res.0 as int == rewrite_spec(s@.skip(at as int)).0,
        res.1@ == rewrite_spec(s@.skip(at as int)).1,
{
    let ghost t = s@.skip(at as int);
    let gt_needle: [char; 1] = ['>'];
    assert(gt_needle@ =~= seq!['>']);
    let _n = s.len();
    proof {
        lemma_find_skip(s@, seq!['>'], at as int, 0);
    }
    match find_chars(s, &gt_needle, at) {
        None => {
            let all = copy_range(s, at, s.len());
            assert(all@ =~= t);
            (s.len() - at, all)
        },
        Some(p) => {
            let tag = copy_range(s, at, p + 1);
            assert(tag@ =~= t.take(p - at + 1));
            let slash_gt: [char; 2] = ['/', '>'];
            assert(slash_gt@ =~= seq!['/', '>']);
            if has_suffix(tag.as_slice(), &slash_gt) {
                assert(t.take(3) =~= t_open());
                let open = copy_range(tag.as_slice(), 0, tag.len() - 2);
                assert(open@ =~= tag@.take(tag@.len() - 2));
                let name = elem_name(open.as_slice());
                let mut out = open;
                let mid: [char; 3] = ['>', '<', '/'];
                assert(mid@ =~= seq!['>', '<', '/']);
                push_chars(&mut out, &mid);
                push_chars(&mut out, name.as_slice());
                out.push('>');
                assert(out@ =~= open@ + seq!['>', '<', '/'] + name@ + seq!['>']);
                (p + 1 - at, out)
            } else {
                (p + 1 - at, tag)
            }
        },
    }
}

/// Expand self-closing `t:` convenience elements (`<t:page/>`) into balanced
/// pairs (`<t:page></t:page>`), since the HTML parser does not honor `/>` on
/// unknown elements and would otherwise nest following siblings inside them.
pub fn expand_self_closing(markup: &str) -> (res: String)
    ensures
        res@ == expand_spec(markup@),
{
    let s = chars_of(markup);
    let needle: [char; 3] = ['<', 't', ':'];
    assert(needle@ =~= t_open());
    let ghost full = expand_spec(s@);
    let mut out: Vec<char> = Vec::new();
    let mut j: usize = 0;
    assert(s@.skip(0) =~= s@);
    assert(out@ + full =~= full);
    loop
        invariant
            j <= s@.len(),
            needle@ == t_open(),
            s@ == markup@,
            full == expand_spec(s@),
            out@ + expand_spec(s@.skip(j as int)) == full,
        decreases s@.len() - j,
    {
        let ghost rest = s@.skip(j as int);
        let _len = s.len();
        proof {
            lemma_find_skip(s@, t_open(), j as int, 0);
            lemma_find_spec_props(s@, t_open(), j as int);
        }
        match find_chars(s.as_slice(), &needle, j) {
            None => {
                let tail = copy_range(s.as_slice(), j, s.len());
                assert(tail@ =~= rest);
                assert(expand_spec(rest) == rest);
                push_chars(&mut out, tail.as_slice());
                return string_of(out.as_slice());
            },
            Some(idx) => {
                proof {
                    assert(rest.skip(idx - j) =~= s@.skip(idx as int));
                    assert(s@.skip(idx as int).take(3) =~= s@.subrange(idx as int, idx + 3));
                    lemma_find_spec_props(s@.skip(idx as int), seq!['>'], 0);
                }
                let (consumed, rewritten) = rewrite_one(s.as_slice(), idx);
                proof {
                    assert(rest.take(idx - j) =~= s@.subrange(j as int, idx as int));
                    assert(consumed >= 1);
                    assert(rest.skip(idx - j + consumed) =~= s@.skip(idx + consumed));
                }
                let head = copy_range(s.as_slice(), j, idx);
                let ghost o0 = out@;
                push_chars(&mut out, head.as_slice());
                push_chars(&mut out, rewritten.as_slice());
                j = idx + consumed;
                assert(o0 + (head@ + rewritten@ + expand_spec(s@.skip(j as int))) =~= out@ + expand_spec(
                    s@.skip(j as int),
                ));
            },
        }
    }
}

/// `e` with the default span.
fn render_error(code: ErrorCode, message: String) -> (res: RenderError)
    ensures
        res.code == code,
        res.message == message,
        res.span == no_span(),
{
    RenderError { code, message, span: Span { line: 0, col: 0, byte_offset: 0 } }
}

/// The tag of a local element name, or the error for an unknown `t:` name.
fn tag_of(local: &str) -> (res: Result<Tag, RenderError>)
    ensures
        match res {
            Ok(t) => tag_of_spec(local@) == Ok::<TagView, Seq<char>>(t@),
            Err(e) => tag_of_spec(local@) matches Err(r) && is_unknown_t_error(e, r),
        },
{
    let l = chars_of(local);
    let tp: [char; 2] = ['t', ':'];
    assert(tp@ =~= seq!['t', ':']);
    if has_prefix(l.as_slice(), &tp) {
        let rest = copy_range(l.as_slice(), 2, l.len());
        assert(rest@ =~= l@.skip(2));
        let rest_s = string_of(rest.as_slice());
        match t_kind(rest_s.as_str()) {
            Some(k) => Ok(Tag::Directive(k)),
            None => {
                let mut msg: Vec<char> = Vec::new();
                push_str(&mut msg, "unknown t: element 't:");
                push_chars(&mut msg, rest.as_slice());
                push_str(&mut msg, "'");
                Err(render_error(ErrorCode::UnknownElement, string_of(msg.as_slice())))
            },
        }
    } else {
        Ok(Tag::Html(local.to_owned()))
    }
}

/// A copy of a list of attributes.
fn copy_attrs(attrs: &Vec<Attr>) -> (res: Vec<Attr>)
    ensures
        attrs_view(res@) == attrs_view(attrs@),
{
    let mut out: Vec<Attr> = Vec::new();
    let mut i: usize = 0;
    while i < attrs.len()
        invariant
            i <= attrs@.len(),
            attrs_view(out@) == attrs_view(attrs@.take(i as int)),
        decreases attrs.len() - i,
    {
        let a = Attr { name: attrs[i].name.clone(), value: attrs[i].value.clone() };
        let ghost before = out@;
        out.push(a);
        assert(attrs_view(out@) =~= attrs_view(before).push(a@));
        assert(attrs_view(attrs@.take(i + 1)) =~= attrs_view(attrs@.take(i as int)).push(attrs@[i as int]@));
        i += 1;
    }
    assert(attrs@.take(i as int) =~= attrs@);
    out
}

/// Lower one document node.
fn convert_node(d: &DomNode) -> (res: Result<Option<Node>, RenderError>)
    ensures
        match res {
            Ok(Some(n)) => convert_node_spec(dom_view(*d)) == Ok::<Option<NodeView>, Seq<char>>(Some(node_view(n))),
            Ok(None) => convert_node_spec(dom_view(*d)) == Ok::<Option<NodeView>, Seq<char>>(None),
            Err(e) => convert_node_spec(dom_view(*d)) matches Err(r) && is_unknown_t_error(e, r),
        },
    decreases d, 1nat,
{
    match d {
        DomNode::Text(t) => Ok(Some(Node::Text(t.clone()))),
        DomNode::Element { name, attrs, children } => {
            let tag = match tag_of(name.as_str()) {
                Ok(t) => t,
                Err(e) => return Err(e),
            };
            let kids = match convert_children(children) {
                Ok(k) => k,
                Err(e) => return Err(e),
            };
            Ok(Some(Node::Element(Element { tag, attrs: copy_attrs(attrs), children: kids })))
        },
        _ => Ok(None),
    }
}

/// Lower a list of document nodes, in order.
fn convert_children(s: &Vec<DomNode>) -> (res: Result<Vec<Node>, RenderError>)
    ensures
        match res {
            Ok(v) => convert_children_spec(doms_view(s@)) == Ok::<Seq<NodeView>, Seq<char>>(nodes_view(v@)),
            Err(e) => convert_children_spec(doms_view(s@)) matches Err(r) && is_unknown_t_error(e, r),
        },
    decreases s, 0nat,
{
    let mut out: Vec<Node> = Vec::new();
    let mut i: usize = 0;
    assert(doms_view(s@.take(0)) =~= Seq::<DomView>::empty());
    while i < s.len()
        invariant
            i <= s@.len(),
            convert_children_spec(doms_view(s@.take(i as int))) == Ok::<Seq<NodeView>, Seq<char>>(nodes_view(out@)),
        decreases s.len() - i,
    {
        assert(decreases_to!(s => s@[i as int]));
        let ghost prefix = doms_view(s@.take(i as int));
        proof {
            assert(s@.take(i + 1) =~= s@.take(i as int).push(s@[i as int]));
            lemma_doms_view_push(s@.take(i as int), s@[i as int]);
            assert(prefix.push(dom_view(s@[i as int])).drop_last() =~= prefix);
        }
        match convert_node(&s[i]) {
            Err(e) => {
                proof {
                    lemma_doms_view_len(s@);
                    assert(doms_view(s@).take(i + 1) =~= doms_view(s@.take(i + 1))) by {
                        lemma_doms_view_take(s@, i + 1);
                    }
                    lemma_convert_prefix_err(doms_view(s@), i + 1);
                }
                return Err(e);
            },
            Ok(None) => {},
            Ok(Some(n)) => {
                proof {
                    lemma_nodes_view_push(out@, n);
                }
                out.push(n);
            },
        }
        i += 1;
    }
    assert(s@.take(i as int) =~= s@);
    Ok(out)
}

proof fn lemma_doms_view_len(s: Seq<DomNode>)
    ensures
        doms_view(s).len() == s.len(),
    decreases s.len(),
{
    if s.len() > 0 {
        lemma_doms_view_len(s.drop_last());
    }
}

proof fn lemma_doms_view_take(s: Seq<DomNode>, j: int)
    requires
        0 <= j <= s.len(),
    ensures
        doms_view(s).take(j) == doms_view(s.take(j)),
    decreases s.len(),
{
    lemma_doms_view_len(s);
    lemma_doms_view_len(s.take(j));
    if j == s.len() {
        assert(s.take(j) =~= s);
        assert(doms_view(s).take(j) =~= doms_view(s));
    } else {
        lemma_doms_view_take(s.drop_last(), j);
        assert(s.drop_last().take(j) =~= s.take(j));
        lemma_doms_view_len(s.drop_last());
        assert(doms_view(s).take(j) =~= doms_view(s.drop_last()).take(j));
    }
}

/// The first element named `name` strictly below `d`, depth first.
fn find_element<'a>(d: &'a DomNode, name: &[char]) -> (res: Option<&'a DomNode>)
    ensures
        match res {
            Some(r) => find_element_spec(dom_view(*d), name@) == Some(dom_view(*r)),
            None => find_element_spec(dom_view(*d), name@) is None,
        },
    decreases d, 1nat,
{
    match d {
        DomNode::Document { children } => find_in(children, name),
        DomNode::Element { children, .. } => find_in(children, name),
        _ => None,
    }
}

/// The first element named `name` among `s` and their descendants.
fn find_in<'a>(s: &'a Vec<DomNode>, name: &[char]) -> (res: Option<&'a DomNode>)
    ensures
        match res {
            Some(r) => find_in_spec(doms_view(s@), name@) == Some(dom_view(*r)),
            None => find_in_spec(doms_view(s@), name@) is None,
        },
    decreases s, 0nat,
{
    let mut i: usize = 0;
    assert(doms_view(s@.take(0)) =~= Seq::<DomView>::empty());
    while i < s.len()
        invariant
            i <= s@.len(),
            find_in_spec(doms_view(s@.take(i as int)), name@) is None,
        decreases s.len() - i,
    {
        assert(decreases_to!(s => s@[i as int]));
        let ghost prefix = doms_view(s@.take(i as int));
        proof {
            assert(s@.take(i + 1) =~= s@.take(i as int).push(s@[i as int]));
            lemma_doms_view_push(s@.take(i as int), s@[i as int]);
            assert(prefix.push(dom_view(s@[i as int])).drop_last() =~= prefix);
            lemma_doms_view_len(s@);
            lemma_doms_view_take(s@, i + 1);
        }
        let c = &s[i];
        let hit = match c {
            DomNode::Element { name: n, .. } => {
                let nc = chars_of(n.as_str());
                chars_eq(nc.as_slice(), name)
            },
            _ => false,
        };
        if hit {
            proof {
                lemma_find_in_prefix(doms_view(s@), i + 1, name@);
            }
            return Some(c);
        }
        match find_element(c, name) {
            Some(f) => {
                proof {
                    lemma_find_in_prefix(doms_view(s@), i + 1, name@);
                }
                return Some(f);
            },
            None => {},
        }
        i += 1;
    }
    assert(s@.take(i as int) =~= s@);
    None
}

/// Lower a document tree: find its first `<body>` and lower the body's
/// children, recognizing `t:` elements as directives.
pub fn lower_document(doc: &DomNode) -> (res: Result<Vec<Node>, RenderError>)
    ensures
        lowers_to(dom_view(*doc), res),
{
    let body: [char; 4] = ['b', 'o', 'd', 'y'];
    proof {
        reveal_strlit("body");
        assert(body@ =~= "body"@);
    }
    match find_element(doc, &body) {
        Some(DomNode::Element { children, .. }) => convert_children(children),
        _ => Err(render_error(ErrorCode::Render, "the parsed document has no <body>".to_owned())),
    }
}

/// Parse `markup` into the top-level flow nodes (the `<body>` children).
pub fn parse(markup: &str) -> (res: Result<Vec<Node>, RenderError>)
    ensures
        lowers_to(html_document(expand_spec(markup@)), res),
{
    let expanded = expand_self_closing(markup);
    let doc = parse_document_tree(expanded.as_str());
    lower_document(&doc)
}

} // verus!
