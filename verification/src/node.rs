//! The resolved node tree: the tree the HTML parser yields, with `t:` elements
//! recognised as typed layout directives.
use vstd::prelude::*;
use crate::chars::{chars_of, eq_str, chars_eq};

verus! {

/// A name/value attribute on an element.
#[derive(Debug, Clone, PartialEq, Eq)]
pub struct Attr {
    pub name: String,
    pub value: String,
}

/// A recognised `t:` paged-media directive element.
#[derive(Debug, Clone, Copy, PartialEq, Eq, Structural)]
pub enum TKind {
    Footnote,
    FootnoteSeparator,
    RunningHeader,
    RunningFooter,
    PageMaster,
    Region,
    Variant,
    Page,
    Pages,
    UseMaster,
    Counter,
    Leader,
    Anchor,
    Endnote,
    Endnotes,
}

/// The directive a `t:`-stripped local name stands for.
pub open spec fn t_kind_spec(name: Seq<char>) -> Option<TKind> {
    if name == "footnote"@ {
        Some(TKind::Footnote)
    } else if name == "footnote-separator"@ {
        Some(TKind::FootnoteSeparator)
    } else if name == "running-header"@ {
        Some(TKind::RunningHeader)
    } else if name == "running-footer"@ {
        Some(TKind::RunningFooter)
    } else if name == "page-master"@ {
        Some(TKind::PageMaster)
    } else if name == "region"@ {
        Some(TKind::Region)
    } else if name == "variant"@ {
        Some(TKind::Variant)
    } else if name == "page"@ {
        Some(TKind::Page)
    } else if name == "pages"@ {
        Some(TKind::Pages)
    } else if name == "use-master"@ {
        Some(TKind::UseMaster)
    } else if name == "counter"@ {
        Some(TKind::Counter)
    } else if name == "leader"@ {
        Some(TKind::Leader)
    } else if name == "anchor"@ {
        Some(TKind::Anchor)
    } else if name == "endnote"@ {
        Some(TKind::Endnote)
    } else if name == "endnotes"@ {
        Some(TKind::Endnotes)
    } else {
        None
    }
}

/// Map a `t:`-stripped local name to its directive kind, or `None` if unknown.
pub fn t_kind(name: &str) -> (res: Option<TKind>)
    ensures
        res == t_kind_spec(name@),
{
    let n = chars_of(name);
    if eq_str(n.as_slice(), "footnote") {
        Some(TKind::Footnote)
    } else if eq_str(n.as_slice(), "footnote-separator") {
        Some(TKind::FootnoteSeparator)
    } else if eq_str(n.as_slice(), "running-header") {
        Some(TKind::RunningHeader)
    } else if eq_str(n.as_slice(), "running-footer") {
        Some(TKind::RunningFooter)
    } else if eq_str(n.as_slice(), "page-master") {
        Some(TKind::PageMaster)
    } else if eq_str(n.as_slice(), "region") {
        Some(TKind::Region)
    } else if eq_str(n.as_slice(), "variant") {
        Some(TKind::Variant)
    } else if eq_str(n.as_slice(), "page") {
        Some(TKind::Page)
    } else if eq_str(n.as_slice(), "pages") {
        Some(TKind::Pages)
    } else if eq_str(n.as_slice(), "use-master") {
        Some(TKind::UseMaster)
    } else if eq_str(n.as_slice(), "counter") {
        Some(TKind::Counter)
    } else if eq_str(n.as_slice(), "leader") {
        Some(TKind::Leader)
    } else if eq_str(n.as_slice(), "anchor") {
        Some(TKind::Anchor)
    } else if eq_str(n.as_slice(), "endnote") {
        Some(TKind::Endnote)
    } else if eq_str(n.as_slice(), "endnotes") {
        Some(TKind::Endnotes)
    } else {
        None
    }
}

/// An element's tag: either a plain HTML element or a `t:` directive.
#[derive(Debug, Clone, PartialEq, Eq)]
pub enum Tag {
    /// A normal HTML element, by lowercase local name (e.g. `div`, `table`).
    Html(String),
    /// A recognised `t:` directive.
    Directive(TKind),
}

/// A styled-but-unpositioned element node.
#[derive(Debug)]
pub struct Element {
    pub tag: Tag,
    pub attrs: Vec<Attr>,
    pub children: Vec<Node>,
}

/// A node in the resolved tree.
#[derive(Debug)]
pub enum Node {
    Element(Element),
    Text(String),
}

/// The plain-value picture of a [`Tag`].
pub enum TagView {
    Html(Seq<char>),
    Directive(TKind),
}

/// The plain-value picture of an [`Attr`].
pub struct AttrView {
    pub name: Seq<char>,
    pub value: Seq<char>,
}

/// The plain-value picture of a [`Node`].
pub enum NodeView {
    Element { tag: TagView, attrs: Seq<AttrView>, children: Seq<NodeView> },
    Text(Seq<char>),
}

impl View for Tag {
    type V = TagView;

    open spec fn view(&self) -> TagView {
        match self {
            Tag::Html(n) => TagView::Html(n@),
            Tag::Directive(k) => TagView::Directive(*k),
        }
    }
}

impl View for Attr {
    type V = AttrView;

    open spec fn view(&self) -> AttrView {
        AttrView { name: self.name@, value: self.value@ }
    }
}

/// The views of a list of attributes.
pub open spec fn attrs_view(s: Seq<Attr>) -> Seq<AttrView> {
    s.map_values(|a: Attr| a@)
}

/// The view of one node.
pub open spec fn node_view(n: Node) -> NodeView
    decreases n, 1nat,
{
    match n {
        Node::Element(e) => NodeView::Element {
            tag: e.tag@,
            attrs: attrs_view(e.attrs@),
            children: nodes_view(e.children@),
        },
        Node::Text(t) => NodeView::Text(t@),
    }
}

/// The views of a list of nodes.
pub open spec fn nodes_view(s: Seq<Node>) -> Seq<NodeView>
    decreases s, 0nat,
{
    if s.len() == 0 {
        Seq::empty()
    } else {
        nodes_view(s.drop_last()).push(node_view(s.last()))
    }
}

impl View for Node {
    type V = NodeView;

    open spec fn view(&self) -> NodeView {
        node_view(*self)
    }
}

impl Element {
    /// The value of the first attribute named `name`, if present.
    pub fn attr(&self, name: &str) -> (res: Option<&str>)
        ensures
            res matches Some(v) ==> exists|i: int|
                0 <= i < self.attrs@.len() && #[trigger] self.attrs@[i].name@ == name@
                    && v@ == self.attrs@[i].value@ && forall|j: int|
                    0 <= j < i ==> self.attrs@[j].name@ != name@,
            res is None ==> forall|i: int| 0 <= i < self.attrs@.len() ==> #[trigger] self.attrs@[i].name@ != name@,
    {
        let n = chars_of(name);
        let mut i: usize = 0;
        while i < self.attrs.len()
            invariant
                i <= self.attrs@.len(),
                n@ == name@,
                forall|j: int| 0 <= j < i ==> #[trigger] self.attrs@[j].name@ != name@,
            decreases self.attrs.len() - i,
        {
            let a = &self.attrs[i];
            let an = chars_of(a.name.as_str());
            if chars_eq(an.as_slice(), n.as_slice()) {
                return Some(a.value.as_str());
            }
            i += 1;
        }
        None
    }
}

impl Node {
    /// Borrow the element if this node is one.
    pub fn as_element(&self) -> (res: Option<&Element>)
        ensures
            res matches Some(e) ==> *self == Node::Element(*e),
            res is None ==> self is Text,
    {
        match self {
            Node::Element(e) => Some(e),
            Node::Text(_) => None,
        }
    }

    /// Borrow the text if this node is a text node.
    pub fn as_text(&self) -> (res: Option<&str>)
        ensures
            res matches Some(t) ==> self is Text && t@ == self->Text_0@,
            res is None ==> self is Element,
    {
        match self {
            Node::Text(t) => Some(t.as_str()),
            Node::Element(_) => None,
        }
    }
}

} // verus!
