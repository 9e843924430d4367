//! Endnotes: `<t:endnote>` collects a note out of the body flow and leaves a
//! superscript number where it stood; `<t:endnotes/>` renders the collected
//! notes, in document order, as a numbered list at its own position.
//!
//! The rewrite uses only plain HTML elements (`<sup>` for the marker, `<div>` for
//! each rendered note), so the rest of the pipeline lays it out like any other
//! markup.
use vstd::prelude::*;
use crate::chars::{decimal_chars, decimal_text, string_of};
use crate::node::{Attr, AttrView, Element, Node, NodeView, Tag, TagView, TKind, attrs_view, node_view, nodes_view};

verus! {

/// A `class="…"` attribute.
pub open spec fn class_view(value: Seq<char>) -> AttrView {
    AttrView { name: "class"@, value }
}

/// The superscript marker left where note `number` stood.
pub open spec fn marker_view(number: nat) -> NodeView {
    NodeView::Element {
        tag: TagView::Html("sup"@),
        attrs: seq![class_view("endnote-ref"@)],
        children: seq![NodeView::Text(decimal_text(number))],
    }
}

/// Whether a node is an `<t:endnote>`.
pub open spec fn is_endnote(n: NodeView) -> bool {
    n matches NodeView::Element { tag: TagView::Directive(TKind::Endnote), .. }
}

/// Whether a node is an `<t:endnotes/>` slot.
pub open spec fn is_endnotes_slot(n: NodeView) -> bool {
    n matches NodeView::Element { tag: TagView::Directive(TKind::Endnotes), .. }
}

/// One node with every `<t:endnote>` replaced by its numbered marker, and the
/// notes collected after `collected`, in document order. A note's own body is
/// kept verbatim.
pub open spec fn mark_node_spec(n: NodeView, collected: Seq<Seq<NodeView>>) -> (NodeView, Seq<Seq<NodeView>>)
    decreases n, 1nat,
{
    match n {
        NodeView::Element { tag, attrs, children } => if is_endnote(n) {
            (marker_view((collected.len() + 1) as nat), collected.push(children))
        } else {
            let (c2, col2) = mark_nodes_spec(children, collected);
            (NodeView::Element { tag, attrs, children: c2 }, col2)
        },
        NodeView::Text(_) => (n, collected),
    }
}

/// The nodes of `s`, in order, each marked as [`mark_node_spec`] says, the
/// collected notes threaded from first to last.
pub open spec fn mark_nodes_spec(s: Seq<NodeView>, collected: Seq<Seq<NodeView>>) -> (Seq<NodeView>, Seq<Seq<NodeView>>)
    decreases s, 0nat,
{
    if s.len() == 0 {
        (s, collected)
    } else {
        let (init, c1) = mark_nodes_spec(s.drop_last(), collected);
        let (last, c2) = mark_node_spec(s.last(), c1);
        (init.push(last), c2)
    }
}

/// One rendered note: `<div class="endnote">N. <body…></div>`.
pub open spec fn note_item_view(number: nat, body: Seq<NodeView>) -> NodeView {
    NodeView::Element {
        tag: TagView::Html("div"@),
        attrs: seq![class_view("endnote"@)],
        children: seq![NodeView::Text(decimal_text(number) + ". "@)] + body,
    }
}

/// The rendered notes: a `<div class="endnotes">` wrapping one item per note.
pub open spec fn notes_list_view(collected: Seq<Seq<NodeView>>) -> NodeView {
    NodeView::Element {
        tag: TagView::Html("div"@),
        attrs: seq![class_view("endnotes"@)],
        children: Seq::new(collected.len(), |i: int| note_item_view((i + 1) as nat, collected[i])),
    }
}

/// One node with the notes placed: the first `<t:endnotes/>` met while
/// `emitted` is false becomes the list, and every other slot met, however
/// deeply nested, is dropped.
pub open spec fn place_node_spec(n: NodeView, list: NodeView, emitted: bool) -> (Seq<NodeView>, bool)
    decreases n, 1nat,
{
    if is_endnotes_slot(n) {
        if !emitted {
            (seq![list], true)
        } else {
            (Seq::empty(), true)
        }
    } else {
        match n {
            NodeView::Element { tag, attrs, children } => {
                let (c2, e2) = place_nodes_spec(children, list, emitted);
                (seq![NodeView::Element { tag, attrs, children: c2 }], e2)
            },
            NodeView::Text(_) => (seq![n], emitted),
        }
    }
}

/// The nodes of `s`, in order, each placed as [`place_node_spec`] says, the
/// "already placed" flag threaded from first to last.
pub open spec fn place_nodes_spec(s: Seq<NodeView>, list: NodeView, emitted: bool) -> (Seq<NodeView>, bool)
    decreases s, 0nat,
{
    if s.len() == 0 {
        (s, emitted)
    } else {
        let (init, e1) = place_nodes_spec(s.drop_last(), list, emitted);
        let (last, e2) = place_node_spec(s.last(), list, e1);
        (init + last, e2)
    }
}

/// The tree with every `<t:endnote>` replaced by its marker and, when there was
/// at least one note, the notes placed at the first `<t:endnotes/>`.
pub open spec fn expand_spec(nodes: Seq<NodeView>) -> Seq<NodeView> {
    let (marked, collected) = mark_nodes_spec(nodes, Seq::empty());
    if collected.len() == 0 {
        marked
    } else {
        place_nodes_spec(marked, notes_list_view(collected), false).0
    }
}

/// Whether `n` is, or holds anywhere below it, an `<t:endnote>`.
pub open spec fn has_endnote(n: NodeView) -> bool
    decreases n, 1nat,
{
    match n {
        NodeView::Element { children, .. } => is_endnote(n) || any_endnote(children),
        NodeView::Text(_) => false,
    }
}

/// Whether any node of `s` holds an `<t:endnote>`.
pub open spec fn any_endnote(s: Seq<NodeView>) -> bool
    decreases s, 0nat,
{
    if s.len() == 0 {
        false
    } else {
        any_endnote(s.drop_last()) || has_endnote(s.last())
    }
}

proof fn lemma_mark_node_untouched(n: NodeView, c: Seq<Seq<NodeView>>)
    requires
        !has_endnote(n),
    ensures
        mark_node_spec(n, c) == (n, c),
    decreases n, 1nat,
{
    match n {
        NodeView::Element { tag, attrs, children } => {
            lemma_mark_nodes_untouched(children, c);
        },
        NodeView::Text(_) => {},
    }
}

proof fn lemma_mark_nodes_untouched(s: Seq<NodeView>, c: Seq<Seq<NodeView>>)
    requires
        !any_endnote(s),
    ensures
        mark_nodes_spec(s, c) == (s, c),
    decreases s, 0nat,
{
    if s.len() > 0 {
        lemma_mark_nodes_untouched(s.drop_last(), c);
        lemma_mark_node_untouched(s.last(), c);
        assert(s.drop_last().push(s.last()) =~= s);
    }
}

/// A tree without any `<t:endnote>` comes back from the rewrite unchanged
/// (an `<t:endnotes/>` slot in it stays where it is).
pub proof fn expand_without_notes_is_identity(nodes: Seq<NodeView>)
    requires
        !any_endnote(nodes),
    ensures
        expand_spec(nodes) == nodes,
{
    lemma_mark_nodes_untouched(nodes, Seq::empty());
}

/// Whether `n` is, or holds anywhere below it, an `<t:endnotes/>` slot.
pub open spec fn has_slot(n: NodeView) -> bool
    decreases n, 1nat,
{
    match n {
        NodeView::Element { children, .. } => is_endnotes_slot(n) || any_slot(children),
        NodeView::Text(_) => false,
    }
}

/// Whether any node of `s` holds an `<t:endnotes/>` slot.
pub open spec fn any_slot(s: Seq<NodeView>) -> bool
    decreases s, 0nat,
{
    if s.len() == 0 {
        false
    } else {
        any_slot(s.drop_last()) || has_slot(s.last())
    }
}

proof fn lemma_any_slot_concat(a: Seq<NodeView>, b: Seq<NodeView>)
    ensures
        any_slot(a + b) == (any_slot(a) || any_slot(b)),
    decreases b.len(),
{
    if b.len() == 0 {
        assert(a + b =~= a);
    } else {
        lemma_any_slot_concat(a, b.drop_last());
        assert((a + b).drop_last() =~= a + b.drop_last());
        assert((a + b).last() == b.last());
    }
}

proof fn lemma_single_slot(n: NodeView)
    ensures
        any_slot(seq![n]) == has_slot(n),
{
    assert(seq![n].drop_last() =~= Seq::<NodeView>::empty());
    assert(!any_slot(Seq::<NodeView>::empty()));
    assert(seq![n].last() == n);
}

proof fn lemma_place_node_leaves_no_slot(n: NodeView, list: NodeView, emitted: bool)
    requires
        !has_slot(list),
    ensures
        !any_slot(place_node_spec(n, list, emitted).0),
    decreases n, 1nat,
{
    if is_endnotes_slot(n) {
        lemma_single_slot(list);
    } else {
        match n {
            NodeView::Element { tag, attrs, children } => {
                placing_notes_leaves_no_slot(children, list, emitted);
                let c2 = place_nodes_spec(children, list, emitted).0;
                lemma_single_slot(NodeView::Element { tag, attrs, children: c2 });
            },
            NodeView::Text(_) => {
                lemma_single_slot(n);
            },
        }
    }
}

/// Placing the notes leaves no `<t:endnotes/>` slot anywhere in the tree,
/// however deeply nested: the first one met becomes the list and every later
/// one is dropped (the list itself holding none).
pub proof fn placing_notes_leaves_no_slot(s: Seq<NodeView>, list: NodeView, emitted: bool)
    requires
        !has_slot(list),
    ensures
        !any_slot(place_nodes_spec(s, list, emitted).0),
    decreases s, 0nat,
{
    if s.len() > 0 {
        placing_notes_leaves_no_slot(s.drop_last(), list, emitted);
        let (init, e1) = place_nodes_spec(s.drop_last(), list, emitted);
        lemma_place_node_leaves_no_slot(s.last(), list, e1);
        lemma_any_slot_concat(init, place_node_spec(s.last(), list, e1).0);
    }
}

proof fn lemma_none_has_slot(s: Seq<NodeView>)
    requires
        forall|i: int| 0 <= i < s.len() ==> !has_slot(#[trigger] s[i]),
    ensures
        !any_slot(s),
    decreases s.len(),
{
    if s.len() > 0 {
        lemma_none_has_slot(s.drop_last());
        assert(s.last() == s[s.len() - 1]);
    }
}

/// Once the notes are placed, no `<t:endnotes/>` slot is left anywhere in the
/// expanded tree, when the tree has at least one note and no note's own body
/// holds a slot.
pub proof fn expanded_tree_has_no_slot(nodes: Seq<NodeView>)
    requires
        mark_nodes_spec(nodes, Seq::empty()).1.len() > 0,
        forall|i: int| 0 <= i < mark_nodes_spec(nodes, Seq::empty()).1.len() ==> !any_slot(
            #[trigger] mark_nodes_spec(nodes, Seq::empty()).1[i],
        ),
    ensures
        !any_slot(expand_spec(nodes)),
{
    let (marked, collected) = mark_nodes_spec(nodes, Seq::empty());
    let list = notes_list_view(collected);
    let items = Seq::new(collected.len(), |i: int| note_item_view((i + 1) as nat, collected[i]));
    assert forall|i: int| 0 <= i < items.len() implies !has_slot(#[trigger] items[i]) by {
        let head = seq![NodeView::Text(decimal_text((i + 1) as nat) + ". "@)];
        lemma_single_slot(head[0]);
        lemma_any_slot_concat(head, collected[i]);
    }
    lemma_none_has_slot(items);
    assert(list matches NodeView::Element { children, .. } && children == items);
    placing_notes_leaves_no_slot(marked, list, false);
}

/// The views of lists of nodes.
pub open spec fn lists_view(s: Seq<Vec<Node>>) -> Seq<Seq<NodeView>> {
    s.map_values(|v: Vec<Node>| nodes_view(v@))
}

proof fn lemma_nodes_view_index(s: Seq<Node>, i: int)
    requires
        0 <= i < s.len(),
    ensures
        nodes_view(s).len() == s.len(),
        nodes_view(s)[i] == node_view(s[i]),
    decreases s.len(),
{
    if i < s.len() - 1 {
        lemma_nodes_view_index(s.drop_last(), i);
    } else {
        lemma_nodes_view_len(s.drop_last());
    }
}

proof fn lemma_nodes_view_len(s: Seq<Node>)
    ensures
        nodes_view(s).len() == s.len(),
    decreases s.len(),
{
    if s.len() > 0 {
        lemma_nodes_view_len(s.drop_last());
    }
}

proof fn lemma_nodes_view_push(s: Seq<Node>, n: Node)
    ensures
        nodes_view(s.push(n)) == nodes_view(s).push(node_view(n)),
{
    assert(s.push(n).drop_last() =~= s);
}

/// A copy of an attribute.
pub(crate) fn copy_attr(a: &Attr) -> (res: Attr)
    ensures
        res@ == a@,
{
    Attr { name: a.name.clone(), value: a.value.clone() }
}

/// A copy of a list of attributes.
pub(crate) fn copy_attrs(attrs: &Vec<Attr>) -> (res: Vec<Attr>)
    ensures
        attrs_view(res@) == attrs_view(attrs@),
{
    let mut out: Vec<Attr> = Vec::new();
    let mut i: usize = 0;
    while i < attrs.len()
        invariant
            i <= attrs@.len(),
            attrs_view(out@) == attrs_view(attrs@.take(i as int)),
        decreases attrs.len() - i,
    {
        let a = copy_attr(&attrs[i]);
        let ghost before = out@;
        out.push(a);
        assert(out@ == before.push(a));
        assert(attrs_view(out@) =~= attrs_view(before).push(a@));
        assert(attrs@.take(i + 1) =~= attrs@.take(i as int).push(attrs@[i as int]));
        assert(attrs_view(attrs@.take(i + 1)) =~= attrs_view(attrs@.take(i as int)).push(attrs@[i as int]@));
        i += 1;
    }
    assert(attrs@.take(i as int) =~= attrs@);
    out
}

/// A copy of a tag.
fn copy_tag(t: &Tag) -> (res: Tag)
    ensures
        res@ == t@,
{
    match t {
        Tag::Html(n) => Tag::Html(n.clone()),
        Tag::Directive(k) => Tag::Directive(*k),
    }
}

/// A deep copy of a node.
pub fn copy_node(n: &Node) -> (res: Node)
    ensures
        node_view(res) == node_view(*n),
    decreases n, 1nat,
{
    match n {
        Node::Element(e) => {
            let children = copy_nodes(&e.children);
            Node::Element(Element { tag: copy_tag(&e.tag), attrs: copy_attrs(&e.attrs), children })
        },
        Node::Text(t) => Node::Text(t.clone()),
    }
}

/// A deep copy of a list of nodes.
pub fn copy_nodes(s: &Vec<Node>) -> (res: Vec<Node>)
    ensures
        nodes_view(res@) == nodes_view(s@),
    decreases s, 0nat,
{
    let mut out: Vec<Node> = Vec::new();
    let mut i: usize = 0;
    while i < s.len()
        invariant
            i <= s@.len(),
            nodes_view(out@) == nodes_view(s@.take(i as int)),
        decreases s.len() - i,
    {
        assert(decreases_to!(s => s@[i as int]));
        let c = copy_node(&s[i]);
        proof {
            lemma_nodes_view_push(out@, c);
            assert(s@.take(i + 1).drop_last() =~= s@.take(i as int));
        }
        out.push(c);
        i += 1;
    }
    assert(s@.take(i as int) =~= s@);
    out
}


proof fn lemma_nodes_view_add(a: Seq<Node>, b: Seq<Node>)
    ensures
        nodes_view(a + b) == nodes_view(a) + nodes_view(b),
    decreases b.len(),
{
    if b.len() == 0 {
        assert(a + b =~= a);
        assert(nodes_view(a) + nodes_view(b) =~= nodes_view(a));
    } else {
        lemma_nodes_view_add(a, b.drop_last());
        assert((a + b).drop_last() =~= a + b.drop_last());
        assert(nodes_view(a) + nodes_view(b) =~= (nodes_view(a) + nodes_view(b.drop_last())).push(
            node_view(b.last()),
        ));
    }
}

proof fn lemma_one_node(n: Node)
    ensures
        nodes_view(seq![n]) == seq![node_view(n)],
{
    assert(seq![n] =~= Seq::<Node>::empty().push(n));
    lemma_nodes_view_push(Seq::<Node>::empty(), n);
    assert(nodes_view(Seq::<Node>::empty()).push(node_view(n)) =~= seq![node_view(n)]);
}

/// A `class="…"` attribute.
fn class_attr(value: &str) -> (res: Attr)
    ensures
        res@ == class_view(value@),
{
    Attr { name: "class".to_owned(), value: value.to_owned() }
}

/// A one-element list of nodes.
fn one_node(n: Node) -> (res: Vec<Node>)
    ensures
        nodes_view(res@) == seq![node_view(n)],
{
    let mut v: Vec<Node> = Vec::new();
    v.push(n);
    proof {
        lemma_one_node(n);
        assert(v@ =~= seq![n]);
    }
    v
}

/// A one-element list of attributes.
fn one_attr(a: Attr) -> (res: Vec<Attr>)
    ensures
        attrs_view(res@) == seq![a@],
{
    let mut v: Vec<Attr> = Vec::new();
    v.push(a);
    assert(attrs_view(v@) =~= seq![a@]);
    v
}

/// A superscript marker element holding the note number as text.
fn marker(number: usize) -> (res: Node)
    ensures
        node_view(res) == marker_view(number as nat),
{
    let digits = decimal_chars(number);
    let text = Node::Text(string_of(digits.as_slice()));
    let children = one_node(text);
    let attrs = one_attr(class_attr("endnote-ref"));
    Node::Element(Element { tag: Tag::Html("sup".to_owned()), attrs, children })
}

/// Replace every `<t:endnote>` in `n` with its superscript marker, pushing its
/// body onto `collected` and assigning the next document-order number.
fn mark_node(n: &Node, collected: &mut Vec<Vec<Node>>) -> (res: Node)
    ensures
        node_view(res) == mark_node_spec(node_view(*n), lists_view(old(collected)@)).0,
        lists_view(final(collected)@) == mark_node_spec(node_view(*n), lists_view(old(collected)@)).1,
    decreases n, 1nat,
{
    match n {
        Node::Element(e) => {
            if let Tag::Directive(TKind::Endnote) = &e.tag {
                let body = copy_nodes(&e.children);
                let ghost before = collected@;
                collected.push(body);
                assert(lists_view(collected@) =~= lists_view(before).push(nodes_view(body@)));
                return marker(collected.len());
            }
            let children = mark_nodes(&e.children, collected);
            Node::Element(Element { tag: copy_tag(&e.tag), attrs: copy_attrs(&e.attrs), children })
        },
        Node::Text(t) => Node::Text(t.clone()),
    }
}

/// Mark each node of `s` in order, as [`mark_node`] does.
fn mark_nodes(s: &Vec<Node>, collected: &mut Vec<Vec<Node>>) -> (res: Vec<Node>)
    ensures
        nodes_view(res@) == mark_nodes_spec(nodes_view(s@), lists_view(old(collected)@)).0,
        lists_view(final(collected)@) == mark_nodes_spec(nodes_view(s@), lists_view(old(collected)@)).1,
    decreases s, 0nat,
{
    let ghost c0 = lists_view(collected@);
    let mut out: Vec<Node> = Vec::new();
    let mut i: usize = 0;
    while i < s.len()
        invariant
            i <= s@.len(),
            nodes_view(out@) == mark_nodes_spec(nodes_view(s@.take(i as int)), c0).0,
            lists_view(collected@) == mark_nodes_spec(nodes_view(s@.take(i as int)), c0).1,
        decreases s.len() - i,
    {
        assert(decreases_to!(s => s@[i as int]));
        let ghost prefix = nodes_view(s@.take(i as int));
        let m = mark_node(&s[i], collected);
        proof {
            lemma_nodes_view_push(out@, m);
            assert(s@.take(i + 1) =~= s@.take(i as int).push(s@[i as int]));
            lemma_nodes_view_push(s@.take(i as int), s@[i as int]);
            assert(prefix.push(node_view(s@[i as int])).drop_last() =~= prefix);
        }
        out.push(m);
        i += 1;
    }
    assert(s@.take(i as int) =~= s@);
    out
}

/// One rendered note: `<div class="endnote">N. <body…></div>`.
fn note_item(number: usize, body: &Vec<Node>) -> (res: Node)
    ensures
        node_view(res) == note_item_view(number as nat, nodes_view(body@)),
{
    let mut label = decimal_chars(number);
    label.push('.');
    label.push(' ');
    proof {
        reveal_strlit(". ");
        assert(label@ =~= decimal_text(number as nat) + ". "@);
    }
    let mut children = one_node(Node::Text(string_of(label.as_slice())));
    let mut tail = copy_nodes(body);
    let ghost (a, b) = (children@, tail@);
    children.append(&mut tail);
    proof {
        lemma_nodes_view_add(a, b);
    }
    Node::Element(Element { tag: Tag::Html("div".to_owned()), attrs: one_attr(class_attr("endnote")), children })
}

/// The rendered notes as a `<div class="endnotes">` wrapping one
/// `<div class="endnote">` per note, each prefixed with its number.
fn notes_list(collected: &Vec<Vec<Node>>) -> (res: Node)
    ensures
        node_view(res) == notes_list_view(lists_view(collected@)),
{
    let ghost lv = lists_view(collected@);
    let mut items: Vec<Node> = Vec::new();
    let mut i: usize = 0;
    while i < collected.len()
        invariant
            i <= collected@.len(),
            lv == lists_view(collected@),
            nodes_view(items@) =~= Seq::new(i as nat, |k: int| note_item_view((k + 1) as nat, lv[k])),
        decreases collected.len() - i,
    {
        let item = note_item(i + 1, &collected[i]);
        proof {
            lemma_nodes_view_push(items@, item);
        }
        items.push(item);
        i += 1;
    }
    Node::Element(Element { tag: Tag::Html("div".to_owned()), attrs: one_attr(class_attr("endnotes")), children: items })
}

/// Place the rendered list into one node, as [`place_node_spec`] says: the
/// node it becomes, if any.
fn place_node(n: &Node, list: &Node, emitted: &mut bool) -> (res: Option<Node>)
    ensures
        place_node_spec(node_view(*n), node_view(*list), *old(emitted)).0 == (match res {
            Some(r) => seq![node_view(r)],
            None => Seq::<NodeView>::empty(),
        }),
        *final(emitted) == place_node_spec(node_view(*n), node_view(*list), *old(emitted)).1,
    decreases n, 1nat,
{
    match n {
        Node::Element(e) => {
            if let Tag::Directive(TKind::Endnotes) = &e.tag {
                if !*emitted {
                    *emitted = true;
                    return Some(copy_node(list));
                }
                return None;
            }
            let children = place_nodes(&e.children, list, emitted);
            Some(Node::Element(Element { tag: copy_tag(&e.tag), attrs: copy_attrs(&e.attrs), children }))
        },
        Node::Text(t) => Some(Node::Text(t.clone())),
    }
}

/// Place the rendered list into each node of `s` in order, as
/// [`place_node`] does.
fn place_nodes(s: &Vec<Node>, list: &Node, emitted: &mut bool) -> (res: Vec<Node>)
    ensures
        nodes_view(res@) == place_nodes_spec(nodes_view(s@), node_view(*list), *old(emitted)).0,
        *final(emitted) == place_nodes_spec(nodes_view(s@), node_view(*list), *old(emitted)).1,
    decreases s, 0nat,
{
    let ghost e0 = *emitted;
    let ghost lv = node_view(*list);
    let mut out: Vec<Node> = Vec::new();
    let mut i: usize = 0;
    while i < s.len()
        invariant
            i <= s@.len(),
            lv == node_view(*list),
            nodes_view(out@) == place_nodes_spec(nodes_view(s@.take(i as int)), lv, e0).0,
            *emitted == place_nodes_spec(nodes_view(s@.take(i as int)), lv, e0).1,
        decreases s.len() - i,
    {
        assert(decreases_to!(s => s@[i as int]));
        let ghost prefix = nodes_view(s@.take(i as int));
        let placed = place_node(&s[i], list, emitted);
        proof {
            assert(s@.take(i + 1) =~= s@.take(i as int).push(s@[i as int]));
            lemma_nodes_view_push(s@.take(i as int), s@[i as int]);
            assert(prefix.push(node_view(s@[i as int])).drop_last() =~= prefix);
        }
        match placed {
            Some(p) => {
                proof {
                    lemma_nodes_view_push(out@, p);
                }
                out.push(p);
            },
            None => {
                assert(nodes_view(out@) + Seq::<NodeView>::empty() =~= nodes_view(out@));
            },
        }
        i += 1;
    }
    assert(s@.take(i as int) =~= s@);
    out
}

/// Rewrite `<t:endnote>`/`<t:endnotes/>`: replace each `<t:endnote>` with a
/// `<sup>` marker carrying its number, collect the note bodies in document
/// order, then expand the first `<t:endnotes/>` into the rendered list. A tree
/// with neither directive comes back unchanged.
pub fn expand(nodes: Vec<Node>) -> (res: Vec<Node>)
    ensures
        nodes_view(res@) == expand_spec(nodes_view(nodes@)),
{
    let mut collected: Vec<Vec<Node>> = Vec::new();
    assert(lists_view(collected@) =~= Seq::<Seq<NodeView>>::empty());
    let marked = mark_nodes(&nodes, &mut collected);
    if collected.len() == 0 {
        return marked;
    }
    let list = notes_list(&collected);
    let mut emitted = false;
    place_nodes(&marked, &list, &mut emitted)
}


/// Marking a `<t:endnote>` appends its body to the notes collected so far and
/// leaves in its place a `<sup class="endnote-ref">` whose text is the
/// 1-based position the body takes among them: the first note shows 1, and a
/// note's marker shows the number that its item in the rendered list starts
/// with.
pub proof fn endnote_marker_matches_its_item(n: NodeView, c: Seq<Seq<NodeView>>)
    requires
        is_endnote(n),
    ensures
        ({
            let (m, c2) = mark_node_spec(n, c);
            &&& c2.len() == c.len() + 1
            &&& c2.take(c.len() as int) == c
            &&& (n matches NodeView::Element { children, .. } && c2[c.len() as int] == children)
            &&& m == NodeView::Element {
                tag: TagView::Html("sup"@),
                attrs: seq![class_view("endnote-ref"@)],
                children: seq![NodeView::Text(decimal_text(c2.len()))],
            }
            &&& (notes_list_view(c2) matches NodeView::Element { children: items, .. } && items[c.len() as int]
                == note_item_view(c2.len(), children_of(n)))
            &&& note_item_view(c2.len(), children_of(n)) matches NodeView::Element { children: ic, .. }
                && ic[0] == NodeView::Text(decimal_text(c2.len()) + ". "@)
        }),
        c.len() == 0 ==> mark_node_spec(n, c).0 == marker_view(1),
{
    let (m, c2) = mark_node_spec(n, c);
    assert(c2.take(c.len() as int) =~= c);
}

/// The children of an element (none for text).
pub open spec fn children_of(n: NodeView) -> Seq<NodeView> {
    match n {
        NodeView::Element { children, .. } => children,
        NodeView::Text(_) => Seq::empty(),
    }
}


/// The bodies of the `<t:endnote>`s in a node, in document order (a note
/// inside a note's body is part of that body, not a note of its own).
pub open spec fn notes_in(n: NodeView) -> Seq<Seq<NodeView>>
    decreases n, 1nat,
{
    match n {
        NodeView::Element { children, .. } => if is_endnote(n) {
            seq![children]
        } else {
            notes_in_all(children)
        },
        NodeView::Text(_) => Seq::empty(),
    }
}

/// The bodies of the `<t:endnote>`s in a list of nodes, in document order.
pub open spec fn notes_in_all(s: Seq<NodeView>) -> Seq<Seq<NodeView>>
    decreases s, 0nat,
{
    if s.len() == 0 {
        Seq::empty()
    } else {
        notes_in_all(s.drop_last()) + notes_in(s.last())
    }
}

proof fn lemma_mark_node_collects(n: NodeView, c: Seq<Seq<NodeView>>)
    ensures
        mark_node_spec(n, c).1 == c + notes_in(n),
    decreases n, 1nat,
{
    match n {
        NodeView::Element { children, .. } => {
            if is_endnote(n) {
                assert(c.push(children) =~= c + seq![children]);
            } else {
                marking_collects_notes_in_order(children, c);
            }
        },
        NodeView::Text(_) => {
            assert(c + Seq::<Seq<NodeView>>::empty() =~= c);
        },
    }
}

/// Marking collects the notes of a node list, in document order, after
/// those collected before: so the `k`-th note of the document (from 1) is
/// the `k`-th item of the rendered list, and its marker shows `k`.
pub proof fn marking_collects_notes_in_order(s: Seq<NodeView>, c: Seq<Seq<NodeView>>)
    ensures
        mark_nodes_spec(s, c).1 == c + notes_in_all(s),
    decreases s, 0nat,
{
    if s.len() == 0 {
        assert(c + Seq::<Seq<NodeView>>::empty() =~= c);
    } else {
        marking_collects_notes_in_order(s.drop_last(), c);
        let c1 = mark_nodes_spec(s.drop_last(), c).1;
        lemma_mark_node_collects(s.last(), c1);
        assert(c + notes_in_all(s.drop_last()) + notes_in(s.last()) =~= c + notes_in_all(s));
    }
}

} // verus!
