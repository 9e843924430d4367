//! Drive a raw HTML string straight into the resolved node tree, without the
//! template pass: for callers that already hold final HTML, where `{{ … }}` /
//! `{% … %}` sequences are page content and must not be evaluated.
//!
//! The page's own `<style>` blocks are collected as author CSS, and the
//! non-visual subtrees (`<style>`, `<script>`, …) are dropped from the flow.
use vstd::prelude::*;
use crate::chars::{ascii_lower, chars_of, eq_str, push_str, string_of, to_lower};
use crate::error::RenderError;
use crate::node::{Attr, Element, Node, NodeView, Tag, TagView, attrs_view, node_view, nodes_view};
use crate::template::markup::{expand_spec, html_document, lowers_to, parse};

verus! {

/// Parse an HTML document/fragment string into the resolved node tree, skipping
/// the template pass.
pub fn parse_html(html: &str) -> (res: Result<Vec<Node>, RenderError>)
    ensures
        lowers_to(html_document(expand_spec(html@)), res),
{
    parse(html)
}

/// Elements whose text content is not visible page content: their bodies are
/// CSS/JS/metadata, collected separately or dropped.
pub open spec fn is_non_visual_spec(name: Seq<char>) -> bool {
    let l = ascii_lower(name);
    l == "style"@ || l == "script"@ || l == "head"@ || l == "title"@ || l == "meta"@ || l == "link"@
        || l == "noscript"@ || l == "template"@
}

/// Whether an element name (any ASCII case) names a non-visual element.
fn is_non_visual(name: &str) -> (res: bool)
    ensures
        res == is_non_visual_spec(name@),
{
    let n = chars_of(name);
    let l = to_lower(n.as_slice());
    let s = l.as_slice();
    eq_str(s, "style") || eq_str(s, "script") || eq_str(s, "head") || eq_str(s, "title") || eq_str(s, "meta")
        || eq_str(s, "link") || eq_str(s, "noscript") || eq_str(s, "template")
}

/// One node with the non-visual element subtrees dropped: nothing for a
/// non-visual element, the element with its children stripped otherwise.
pub open spec fn strip_node_spec(n: NodeView) -> Seq<NodeView>
    decreases n, 1nat,
{
    match n {
        NodeView::Element { tag, attrs, children } => if tag matches TagView::Html(name) && is_non_visual_spec(name) {
            Seq::empty()
        } else {
            seq![NodeView::Element { tag, attrs, children: strip_nodes_spec(children) }]
        },
        NodeView::Text(_) => seq![n],
    }
}

/// A list of nodes with the non-visual element subtrees dropped.
pub open spec fn strip_nodes_spec(s: Seq<NodeView>) -> Seq<NodeView>
    decreases s, 0nat,
{
    if s.len() == 0 {
        Seq::empty()
    } else {
        strip_nodes_spec(s.drop_last()) + strip_node_spec(s.last())
    }
}

proof fn lemma_nodes_view_push(s: Seq<Node>, n: Node)
    ensures
        nodes_view(s.push(n)) == nodes_view(s).push(node_view(n)),
{
    assert(s.push(n).drop_last() =~= s);
}

/// A copy of a list of attributes.
fn copy_attrs(attrs: &Vec<Attr>) -> (res: Vec<Attr>)
    ensures
        attrs_view(res@) == attrs_view(attrs@),
{
    let mut out: Vec<Attr> = Vec::new();
    let mut i: usize = 0;
    while i < attrs.len()
        invariant
            i <= attrs@.len(),
            attrs_view(out@) == attrs_view(attrs@.take(i as int)),
        decreases attrs.len() - i,
    {
        let a = Attr { name: attrs[i].name.clone(), value: attrs[i].value.clone() };
        let ghost before = out@;
        out.push(a);
        assert(attrs_view(out@) =~= attrs_view(before).push(a@));
        assert(attrs_view(attrs@.take(i + 1)) =~= attrs_view(attrs@.take(i as int)).push(attrs@[i as int]@));
        i += 1;
    }
    assert(attrs@.take(i as int) =~= attrs@);
    out
}

/// One node stripped, or nothing when it is a non-visual element.
fn strip_node(n: &Node) -> (res: Option<Node>)
    ensures
        strip_node_spec(node_view(*n)) == (match res {
            Some(r) => seq![node_view(r)],
            None => Seq::<NodeView>::empty(),
        }),
    decreases n, 1nat,
{
    match n {
        Node::Element(e) => {
            if let Tag::Html(name) = &e.tag {
                if is_non_visual(name.as_str()) {
                    return None;
                }
            }
            let children = strip_nodes(&e.children);
            let tag = match &e.tag {
                Tag::Html(name) => Tag::Html(name.clone()),
                Tag::Directive(k) => Tag::Directive(*k),
            };
            Some(Node::Element(Element { tag, attrs: copy_attrs(&e.attrs), children }))
        },
        Node::Text(t) => Some(Node::Text(t.clone())),
    }
}

/// A list of nodes stripped.
fn strip_nodes(s: &Vec<Node>) -> (res: Vec<Node>)
    ensures
        nodes_view(res@) == strip_nodes_spec(nodes_view(s@)),
    decreases s, 0nat,
{
    let mut out: Vec<Node> = Vec::new();
    let mut i: usize = 0;
    while i < s.len()
        invariant
            i <= s@.len(),
            nodes_view(out@) == strip_nodes_spec(nodes_view(s@.take(i as int))),
        decreases s.len() - i,
    {
        assert(decreases_to!(s => s@[i as int]));
        let ghost prefix = nodes_view(s@.take(i as int));
        proof {
            assert(s@.take(i + 1) =~= s@.take(i as int).push(s@[i as int]));
            lemma_nodes_view_push(s@.take(i as int), s@[i as int]);
            assert(prefix.push(node_view(s@[i as int])).drop_last() =~= prefix);
        }
        match strip_node(&s[i]) {
            Some(r) => {
                proof {
                    lemma_nodes_view_push(out@, r);
                }
                out.push(r);
            },
            None => {
                assert(nodes_view(out@) + Seq::<NodeView>::empty() =~= nodes_view(out@));
            },
        }
        i += 1;
    }
    assert(s@.take(i as int) =~= s@);
    out
}

/// Drop non-visual element subtrees (`<style>`/`<script>`/…) so their bodies
/// don't render as visible text. Author CSS is collected before this, so styles
/// still apply; only their raw text is removed from the flow.
pub fn strip_non_visual(nodes: Vec<Node>) -> (res: Vec<Node>)
    ensures
        nodes_view(res@) == strip_nodes_spec(nodes_view(nodes@)),
{
    strip_nodes(&nodes)
}

/// The texts of the text nodes of `s`, each followed by a newline.
pub open spec fn style_texts(s: Seq<NodeView>) -> Seq<char>
    decreases s.len(),
{
    if s.len() == 0 {
        Seq::empty()
    } else {
        style_texts(s.drop_last()) + match s.last() {
            NodeView::Text(t) => t + "\n"@,
            _ => Seq::empty(),
        }
    }
}

/// The author CSS of one node: for a `<style>` element the text of its text
/// children (each followed by a newline), then that of its descendants.
pub open spec fn css_of_node(n: NodeView) -> Seq<char>
    decreases n, 1nat,
{
    match n {
        NodeView::Element { tag, children, .. } => (if tag == TagView::Html("style"@) {
            style_texts(children)
        } else {
            Seq::empty()
        }) + css_of_nodes(children),
        NodeView::Text(_) => Seq::empty(),
    }
}

/// The author CSS of a node forest, in document order.
pub open spec fn css_of_nodes(s: Seq<NodeView>) -> Seq<char>
    decreases s, 0nat,
{
    if s.len() == 0 {
        Seq::empty()
    } else {
        css_of_nodes(s.drop_last()) + css_of_node(s.last())
    }
}

/// Append the texts of the text children of a `<style>` element.
fn collect_texts(children: &Vec<Node>, css: &mut Vec<char>)
    ensures
        final(css)@ == old(css)@ + style_texts(nodes_view(children@)),
{
    let mut i: usize = 0;
    let ghost start = css@;
    while i < children.len()
        invariant
            i <= children@.len(),
            css@ == start + style_texts(nodes_view(children@.take(i as int))),
        decreases children.len() - i,
    {
        let ghost prefix = nodes_view(children@.take(i as int));
        proof {
            assert(children@.take(i + 1) =~= children@.take(i as int).push(children@[i as int]));
            lemma_nodes_view_push(children@.take(i as int), children@[i as int]);
            assert(prefix.push(node_view(children@[i as int])).drop_last() =~= prefix);
        }
        let ghost before = css@;
        match children[i].as_text() {
            Some(text) => {
                push_str(css, text);
                css.push('\n');
                proof {
                    reveal_strlit("\n");
                }
                assert(css@ =~= before + (text@ + "\n"@));
            },
            None => {
                assert(css@ =~= before + Seq::<char>::empty());
            },
        }
        i += 1;
    }
    assert(children@.take(i as int) =~= children@);
}

/// Append the author CSS of one node.
fn collect_node(n: &Node, css: &mut Vec<char>)
    ensures
        final(css)@ == old(css)@ + css_of_node(node_view(*n)),
    decreases n, 1nat,
{
    match n {
        Node::Element(el) => {
            let ghost start = css@;
            let is_style = match &el.tag {
                Tag::Html(name) => {
                    let c = chars_of(name.as_str());
                    eq_str(c.as_slice(), "style")
                },
                Tag::Directive(_) => false,
            };
            if is_style {
                collect_texts(&el.children, css);
            }
            let ghost mid = css@;
            collect_nodes(&el.children, css);
            assert(css@ =~= start + ((if el.tag@ == TagView::Html("style"@) {
                style_texts(nodes_view(el.children@))
            } else {
                Seq::empty()
            }) + css_of_nodes(nodes_view(el.children@))));
        },
        Node::Text(_) => {
            assert(css@ =~= css@ + Seq::<char>::empty());
        },
    }
}

/// Append the author CSS of a node forest.
fn collect_nodes(s: &Vec<Node>, css: &mut Vec<char>)
    ensures
        final(css)@ == old(css)@ + css_of_nodes(nodes_view(s@)),
    decreases s, 0nat,
{
    let mut i: usize = 0;
    let ghost start = css@;
    assert(css@ =~= start + css_of_nodes(nodes_view(s@.take(0))));
    while i < s.len()
        invariant
            i <= s@.len(),
            css@ == start + css_of_nodes(nodes_view(s@.take(i as int))),
        decreases s.len() - i,
    {
        assert(decreases_to!(s => s@[i as int]));
        let ghost prefix = nodes_view(s@.take(i as int));
        proof {
            assert(s@.take(i + 1) =~= s@.take(i as int).push(s@[i as int]));
            lemma_nodes_view_push(s@.take(i as int), s@[i as int]);
            assert(prefix.push(node_view(s@[i as int])).drop_last() =~= prefix);
        }
        let ghost before = css@;
        collect_node(&s[i], css);
        assert(css@ =~= start + (css_of_nodes(prefix) + css_of_node(node_view(s@[i as int]))));
        i += 1;
    }
    assert(s@.take(i as int) =~= s@);
}

/// Concatenate the text of every `<style>` element in a node forest, in
/// document order — the page's author stylesheet. Inline `style=` attributes
/// are applied separately by the cascade, so they are not collected here.
pub fn collect_style_css(nodes: &[Node]) -> (res: String)
    ensures
        res@ == css_of_nodes(nodes_view(nodes@)),
{
    let mut css: Vec<char> = Vec::new();
    let mut i: usize = 0;
    assert(css@ =~= css_of_nodes(nodes_view(nodes@.take(0))));
    while i < nodes.len()
        invariant
            i <= nodes@.len(),
            css@ == css_of_nodes(nodes_view(nodes@.take(i as int))),
        decreases nodes.len() - i,
    {
        let ghost prefix = nodes_view(nodes@.take(i as int));
        proof {
            assert(nodes@.take(i + 1) =~= nodes@.take(i as int).push(nodes@[i as int]));
            lemma_nodes_view_push(nodes@.take(i as int), nodes@[i as int]);
            assert(prefix.push(node_view(nodes@[i as int])).drop_last() =~= prefix);
        }
        collect_node(&nodes[i], &mut css);
        i += 1;
    }
    assert(nodes@.take(i as int) =~= nodes@);
    string_of(css.as_slice())
}

} // verus!
