//! Box generation: the styled tree becomes a box tree. A block container
//! holding a mix of block-level and inline-level children wraps each
//! non-blank inline run in an anonymous block, so its children are uniformly
//! block-level; `display: none` is dropped; `t:` directives become opaque
//! markers. Every box and inline item gets a pre-order node id.
//!
//! The construction is stated as mutually recursive spec functions over the
//! styled tree's picture (`classify_spec`, `block_spec`, `flow_spec`, …) and
//! the executable builder is proved to compute exactly them.
use vstd::prelude::*;
use crate::chars::{chars_of, trim, trim_chars};
use crate::endnotes::copy_attrs;
use crate::layout::boxgen::{
    alt_of, attr_first, attr_value, background_image_spec, image_of, img_src_v, inline_directive,
    is_directive, is_inline_directive, role_for_tag_spec, role_of, Ids, ImageSource,
};
use crate::layout::fragment::{NodeId, UaRole};
use crate::layout::value::{display_of, display_spec, Display};
use crate::node::{attrs_view, Attr, AttrView, TKind, Tag, TagView};
use crate::style::cascade::{styled_nodes_view, styled_view, ComputedStyle, StyledElement, StyledNode, StyledView};

verus! {

/// A computed style's picture: its properties, in key order.
pub type StyleV = Seq<(Seq<char>, Seq<char>)>;

/// One inline-level item inside a lines context.
pub enum ItemV {
    /// A run of text, styled by its containing element.
    Text { id: nat, style: StyleV, text: Seq<char> },
    /// An atomic inline box.
    Atomic(BoxV),
    /// An inline paged-media directive; a `<t:anchor>` carries its `name`.
    Directive { id: nat, kind: TKind, anchor: Option<Seq<char>> },
}

/// A box of the layout tree.
pub struct BoxV {
    pub id: nat,
    pub style: StyleV,
    pub attrs: Seq<AttrView>,
    pub display: Display,
    pub kind: KindV,
    /// The image the box paints: its name and whether it is replaced content.
    pub image: Option<(Seq<char>, bool)>,
    pub role: Option<UaRole>,
    pub alt: Option<Seq<char>>,
}

/// What a box contains, by formatting context.
pub enum KindV {
    Block(Seq<BoxV>),
    Lines(Seq<ItemV>),
    Flex(Seq<BoxV>),
    Table(Seq<BoxV>),
    Directive(TKind),
}

/// A block-level box or an inline-level run, before anonymous wrapping.
pub enum LevelV {
    Block(BoxV),
    Inline(Seq<ItemV>),
}

/// The image an element paints: its `<img src>` (replaced), else its
/// background image.
pub open spec fn image_v(tag: TagView, attrs: Seq<AttrView>, style: StyleV) -> Option<(Seq<char>, bool)> {
    match img_src_v(tag, attrs) {
        Some(s) => Some((s, true)),
        None => match background_image_spec(style) {
            Some(b) => Some((b, false)),
            None => None,
        },
    }
}

/// The figure text of an `<img>`: its `alt`, empty when absent.
pub open spec fn alt_v(name: Seq<char>, attrs: Seq<AttrView>) -> Option<Seq<char>> {
    if name == "img"@ {
        Some(
            match attr_first(attrs, "alt"@) {
                Some(a) => a,
                None => seq![],
            },
        )
    } else {
        None
    }
}

/// The anonymous block wrapping an inline run: a paragraph of text.
pub open spec fn anon_box(run: Seq<ItemV>, ps: StyleV, id: nat) -> BoxV {
    BoxV {
        id,
        style: ps,
        attrs: seq![],
        display: Display::Block,
        kind: KindV::Lines(run),
        image: None,
        role: Some(UaRole::Paragraph),
        alt: None,
    }
}

/// Whether every item of a run is whitespace-only text.
pub open spec fn run_blank(run: Seq<ItemV>) -> bool {
    forall|k: int|
        0 <= k < run.len() ==> match #[trigger] run[k] {
            ItemV::Text { text, .. } => trim(text).len() == 0,
            _ => false,
        }
}

/// Close an inline run: a non-blank run becomes an anonymous block.
pub open spec fn flush_spec(out: Seq<BoxV>, run: Seq<ItemV>, ps: StyleV, id: nat) -> (Seq<BoxV>, nat) {
    if run.len() == 0 || run_blank(run) {
        (out, id)
    } else {
        (out.push(anon_box(run, ps, id)), id + 1)
    }
}

/// Wrap the levels seen so far: the boxes out, the pending inline run and
/// the next id.
pub open spec fn wrap_fold(levels: Seq<LevelV>, ps: StyleV, id: nat) -> (Seq<BoxV>, Seq<ItemV>, nat)
    decreases levels.len(),
{
    if levels.len() == 0 {
        (seq![], seq![], id)
    } else {
        let (out, run, i) = wrap_fold(levels.drop_last(), ps, id);
        match levels.last() {
            LevelV::Inline(items) => (out, run + items, i),
            LevelV::Block(b) => {
                let (out2, i2) = flush_spec(out, run, ps, i);
                (out2.push(b), seq![], i2)
            },
        }
    }
}

/// Every inline run of a mixed flow wrapped in an anonymous block.
pub open spec fn wrap_spec(levels: Seq<LevelV>, ps: StyleV, id: nat) -> (Seq<BoxV>, nat) {
    let (out, run, i) = wrap_fold(levels, ps, id);
    flush_spec(out, run, ps, i)
}

/// The inline items of a flow with no block-level child.
pub open spec fn inline_items_spec(levels: Seq<LevelV>) -> Seq<ItemV>
    decreases levels.len(),
{
    if levels.len() == 0 {
        seq![]
    } else {
        inline_items_spec(levels.drop_last()) + match levels.last() {
            LevelV::Inline(items) => items,
            LevelV::Block(_) => seq![],
        }
    }
}

/// Whether a flow has a block-level child.
pub open spec fn any_block(levels: Seq<LevelV>) -> bool {
    exists|k: int| 0 <= k < levels.len() && #[trigger] levels[k] is Block
}

/// Classify one styled node under its parent's style: text is an inline run;
/// an inline directive an inline marker, any other directive a block; an
/// element by its `display` (`none` dropped).
pub open spec fn classify_spec(n: StyledView, ps: StyleV, id: nat) -> (Option<LevelV>, nat)
    decreases n, 4nat,
{
    match n {
        StyledView::Text(t) => (Some(LevelV::Inline(seq![ItemV::Text { id, style: ps, text: t }])), id + 1),
        StyledView::Element { tag, attrs, style, children } => match tag {
            TagView::Directive(k) => if is_inline_directive(k) {
                (Some(LevelV::Inline(seq![ItemV::Directive { id, kind: k, anchor: anchor_name_spec(k, attrs) }])), id + 1)
            } else {
                let (b, i2) = block_spec(n, id);
                (Some(LevelV::Block(b)), i2)
            },
            TagView::Html(_) => classify_html_spec(n, id),
        },
    }
}

/// The `#name` target of an internal link: an element whose first `href`
/// is `#` followed by a non-empty name.
pub open spec fn internal_link_spec(attrs: Seq<AttrView>) -> Option<Seq<char>> {
    match attr_first(attrs, "href"@) {
        Some(v) => if v.len() > 1 && v[0] == '#' {
            Some(v.skip(1))
        } else {
            None
        },
        None => None,
    }
}

/// The destination name an inline directive carries: a `<t:anchor>`'s
/// `name`, nothing for the others.
pub open spec fn anchor_name_spec(k: TKind, attrs: Seq<AttrView>) -> Option<Seq<char>> {
    if k == TKind::Anchor {
        attr_first(attrs, "name"@)
    } else {
        None
    }
}

/// Classify an HTML element: an internal link is an atomic inline box (so it
/// keeps a rectangle of its own through layout), whatever its `display`; any
/// other element goes by its `display`.
pub open spec fn classify_html_spec(n: StyledView, id: nat) -> (Option<LevelV>, nat)
    decreases n, 3nat,
{
    match n {
        StyledView::Element { tag, attrs, style, children } => if internal_link_spec(attrs) is Some {
            let (b, i2) = block_spec(n, id);
            (Some(LevelV::Inline(seq![ItemV::Atomic(b)])), i2)
        } else {
            match display_spec(style) {
            Display::NoDisplay => (None, id),
            Display::Inline => {
                let (items, i2) = flatten_spec(children, style, id);
                (Some(LevelV::Inline(items)), i2)
            },
            Display::InlineBlock => {
                let (b, i2) = block_spec(n, id);
                (Some(LevelV::Inline(seq![ItemV::Atomic(b)])), i2)
            },
            _ => {
                let (b, i2) = block_spec(n, id);
                (Some(LevelV::Block(b)), i2)
            },
        }
        },
        StyledView::Text(_) => (None, id),
    }
}

/// An inline element's content as inline items: its own style applies, a
/// nested block becomes an atomic inline.
pub open spec fn flatten_spec(cs: Seq<StyledView>, ps: StyleV, id: nat) -> (Seq<ItemV>, nat)
    decreases cs, 2nat,
{
    if cs.len() == 0 {
        (seq![], id)
    } else {
        let (out, i1) = flatten_spec(cs.drop_last(), ps, id);
        let (l, i2) = classify_spec(cs.last(), ps, i1);
        (
            match l {
                Some(LevelV::Inline(items)) => out + items,
                Some(LevelV::Block(b)) => out.push(ItemV::Atomic(b)),
                None => out,
            },
            i2,
        )
    }
}

/// The block box of an element (a directive marker for a directive).
pub open spec fn block_spec(n: StyledView, id: nat) -> (BoxV, nat)
    decreases n, 2nat,
{
    match n {
        StyledView::Element { tag, attrs, style, children } => match tag {
            TagView::Directive(k) => (
                BoxV {
                    id,
                    style,
                    attrs,
                    display: Display::Block,
                    kind: KindV::Directive(k),
                    image: None,
                    role: None,
                    alt: None,
                },
                id + 1,
            ),
            TagView::Html(name) => {
                let d = display_spec(style);
                let (kind, i2) = kind_spec(d, children, style, id + 1);
                (
                    BoxV {
                        id,
                        style,
                        attrs,
                        display: d,
                        kind,
                        image: image_v(tag, attrs, style),
                        role: role_for_tag_spec(name),
                        alt: alt_v(name, attrs),
                    },
                    i2,
                )
            },
        },
        StyledView::Text(_) => (
            BoxV {
                id,
                style: seq![],
                attrs: seq![],
                display: Display::Block,
                kind: KindV::Block(seq![]),
                image: None,
                role: None,
                alt: None,
            },
            id,
        ),
    }
}

/// The formatting context of a container by its `display`.
pub open spec fn kind_spec(d: Display, cs: Seq<StyledView>, style: StyleV, id: nat) -> (KindV, nat)
    decreases cs, 4nat,
{
    match d {
        Display::Flex => {
            let (bs, i2) = child_blocks_spec(cs, id);
            (KindV::Flex(bs), i2)
        },
        Display::Table => {
            let (bs, i2) = child_blocks_spec(cs, id);
            (KindV::Table(bs), i2)
        },
        _ => flow_spec(cs, style, id),
    }
}

/// A flex or table container's children as block boxes: text dropped, and
/// elements with `display: none` (but not directives) dropped.
pub open spec fn child_blocks_spec(cs: Seq<StyledView>, id: nat) -> (Seq<BoxV>, nat)
    decreases cs, 2nat,
{
    if cs.len() == 0 {
        (seq![], id)
    } else {
        let (out, i1) = child_blocks_spec(cs.drop_last(), id);
        match cs.last() {
            StyledView::Element { tag, attrs, style, children } => if !(tag is Directive)
                && display_spec(style) == Display::NoDisplay {
                (out, i1)
            } else {
                let (b, i2) = block_spec(cs.last(), i1);
                (out.push(b), i2)
            },
            StyledView::Text(_) => (out, i1),
        }
    }
}

/// The levels of a flow of children (dropped ones left out).
pub open spec fn classify_list_spec(cs: Seq<StyledView>, ps: StyleV, id: nat) -> (Seq<LevelV>, nat)
    decreases cs, 2nat,
{
    if cs.len() == 0 {
        (seq![], id)
    } else {
        let (ls, i1) = classify_list_spec(cs.drop_last(), ps, id);
        let (l, i2) = classify_spec(cs.last(), ps, i1);
        (
            match l {
                Some(x) => ls.push(x),
                None => ls,
            },
            i2,
        )
    }
}

/// The formatting context of a flow: a block context (inline runs wrapped)
/// when any child is block-level, else a lines context.
pub open spec fn flow_spec(cs: Seq<StyledView>, ps: StyleV, id: nat) -> (KindV, nat)
    decreases cs, 3nat,
{
    let (levels, i1) = classify_list_spec(cs, ps, id);
    if any_block(levels) {
        let (bs, i2) = wrap_spec(levels, ps, i1);
        (KindV::Block(bs), i2)
    } else {
        (KindV::Lines(inline_items_spec(levels)), i1)
    }
}

/// The box tree of a document flow: an anonymous root block (id 0) whose
/// formatting context is the top-level flow; also the number of ids used.
pub open spec fn box_tree_spec(styled: Seq<StyledView>) -> (BoxV, nat) {
    let (kind, n) = flow_spec(styled, seq![], 1);
    (
        BoxV {
            id: 0,
            style: seq![],
            attrs: seq![],
            display: Display::Block,
            kind,
            image: None,
            role: Some(UaRole::Group),
            alt: None,
        },
        n,
    )
}


// ---------------------------------------------------------------------------
// Ids only move forward
// ---------------------------------------------------------------------------
proof fn lemma_classify_mono(n: StyledView, ps: StyleV, id: nat)
    ensures
        classify_spec(n, ps, id).1 >= id,
    decreases n, 4nat,
{
    match n {
        StyledView::Text(_) => {},
        StyledView::Element { tag, attrs, .. } => match tag {
            TagView::Directive(k) => {
                lemma_block_mono(n, id);
            },
            TagView::Html(_) => {
                lemma_classify_html_mono(n, id);
            },
        },
    }
}

proof fn lemma_classify_html_mono(n: StyledView, id: nat)
    ensures
        classify_html_spec(n, id).1 >= id,
    decreases n, 3nat,
{
    match n {
        StyledView::Element { style, children, .. } => {
            lemma_flatten_mono(children, style, id);
            lemma_block_mono(n, id);
        },
        _ => {},
    }
}

proof fn lemma_flatten_mono(cs: Seq<StyledView>, ps: StyleV, id: nat)
    ensures
        flatten_spec(cs, ps, id).1 >= id,
    decreases cs, 2nat,
{
    if cs.len() > 0 {
        lemma_flatten_mono(cs.drop_last(), ps, id);
        lemma_classify_mono(cs.last(), ps, flatten_spec(cs.drop_last(), ps, id).1);
    }
}

proof fn lemma_block_mono(n: StyledView, id: nat)
    ensures
        block_spec(n, id).1 >= id,
        n is Element ==> block_spec(n, id).1 >= id + 1,
    decreases n, 2nat,
{
    match n {
        StyledView::Element { tag, style, children, .. } => match tag {
            TagView::Html(_) => {
                lemma_kind_mono(display_spec(style), children, style, id + 1);
            },
            _ => {},
        },
        _ => {},
    }
}

proof fn lemma_kind_mono(d: Display, cs: Seq<StyledView>, style: StyleV, id: nat)
    ensures
        kind_spec(d, cs, style, id).1 >= id,
    decreases cs, 4nat,
{
    lemma_child_blocks_mono(cs, id);
    lemma_flow_mono(cs, style, id);
}

proof fn lemma_child_blocks_mono(cs: Seq<StyledView>, id: nat)
    ensures
        child_blocks_spec(cs, id).1 >= id,
    decreases cs, 2nat,
{
    if cs.len() > 0 {
        lemma_child_blocks_mono(cs.drop_last(), id);
        lemma_block_mono(cs.last(), child_blocks_spec(cs.drop_last(), id).1);
    }
}

proof fn lemma_classify_list_mono(cs: Seq<StyledView>, ps: StyleV, id: nat)
    ensures
        classify_list_spec(cs, ps, id).1 >= id,
    decreases cs, 2nat,
{
    if cs.len() > 0 {
        lemma_classify_list_mono(cs.drop_last(), ps, id);
        lemma_classify_mono(cs.last(), ps, classify_list_spec(cs.drop_last(), ps, id).1);
    }
}

proof fn lemma_wrap_fold_mono(levels: Seq<LevelV>, ps: StyleV, id: nat)
    ensures
        wrap_fold(levels, ps, id).2 >= id,
    decreases levels.len(),
{
    if levels.len() > 0 {
        lemma_wrap_fold_mono(levels.drop_last(), ps, id);
    }
}

proof fn lemma_flow_mono(cs: Seq<StyledView>, ps: StyleV, id: nat)
    ensures
        flow_spec(cs, ps, id).1 >= id,
    decreases cs, 3nat,
{
    lemma_classify_list_mono(cs, ps, id);
    let (levels, i1) = classify_list_spec(cs, ps, id);
    lemma_wrap_fold_mono(levels, ps, i1);
}

proof fn lemma_flatten_prefix(cs: Seq<StyledView>, ps: StyleV, id: nat, i: int)
    requires
        0 <= i <= cs.len(),
    ensures
        flatten_spec(cs.take(i), ps, id).1 <= flatten_spec(cs, ps, id).1,
    decreases cs.len(),
{
    if i < cs.len() {
        assert(cs.drop_last().take(i) =~= cs.take(i));
        lemma_flatten_prefix(cs.drop_last(), ps, id, i);
        lemma_classify_mono(cs.last(), ps, flatten_spec(cs.drop_last(), ps, id).1);
    } else {
        assert(cs.take(i) =~= cs);
    }
}

proof fn lemma_child_blocks_prefix(cs: Seq<StyledView>, id: nat, i: int)
    requires
        0 <= i <= cs.len(),
    ensures
        child_blocks_spec(cs.take(i), id).1 <= child_blocks_spec(cs, id).1,
    decreases cs.len(),
{
    if i < cs.len() {
        assert(cs.drop_last().take(i) =~= cs.take(i));
        lemma_child_blocks_prefix(cs.drop_last(), id, i);
        lemma_block_mono(cs.last(), child_blocks_spec(cs.drop_last(), id).1);
    } else {
        assert(cs.take(i) =~= cs);
    }
}

proof fn lemma_classify_list_prefix(cs: Seq<StyledView>, ps: StyleV, id: nat, i: int)
    requires
        0 <= i <= cs.len(),
    ensures
        classify_list_spec(cs.take(i), ps, id).1 <= classify_list_spec(cs, ps, id).1,
    decreases cs.len(),
{
    if i < cs.len() {
        assert(cs.drop_last().take(i) =~= cs.take(i));
        lemma_classify_list_prefix(cs.drop_last(), ps, id, i);
        lemma_classify_mono(cs.last(), ps, classify_list_spec(cs.drop_last(), ps, id).1);
    } else {
        assert(cs.take(i) =~= cs);
    }
}

proof fn lemma_wrap_fold_prefix(levels: Seq<LevelV>, ps: StyleV, id: nat, i: int)
    requires
        0 <= i <= levels.len(),
    ensures
        wrap_fold(levels.take(i), ps, id).2 <= wrap_fold(levels, ps, id).2,
    decreases levels.len(),
{
    if i < levels.len() {
        assert(levels.drop_last().take(i) =~= levels.take(i));
        lemma_wrap_fold_prefix(levels.drop_last(), ps, id, i);
    } else {
        assert(levels.take(i) =~= levels);
    }
}

proof fn lemma_styled_index(s: Seq<StyledNode>, i: int)
    requires
        0 <= i < s.len(),
    ensures
        styled_nodes_view(s).len() == s.len(),
        styled_nodes_view(s)[i] == styled_view(s[i]),
        styled_nodes_view(s.take(i + 1)) == styled_nodes_view(s).take(i + 1),
        styled_nodes_view(s.take(i)) == styled_nodes_view(s).take(i),
    decreases s.len(),
{
    lemma_styled_len(s);
    if i + 1 < s.len() {
        lemma_styled_index(s.drop_last(), i);
        assert(s.drop_last().take(i + 1) =~= s.take(i + 1));
        assert(s.drop_last().take(i) =~= s.take(i));
    } else {
        assert(s.take(i + 1) =~= s);
        assert(s.take(i) =~= s.drop_last());
    }
}

proof fn lemma_styled_len(s: Seq<StyledNode>)
    ensures
        styled_nodes_view(s).len() == s.len(),
    decreases s.len(),
{
    if s.len() > 0 {
        lemma_styled_len(s.drop_last());
    }
}

// ---------------------------------------------------------------------------
// `display: none` makes no box
// ---------------------------------------------------------------------------
/// Whether a box and everything inside it is displayed (none has
/// `display: none`, unless it is an internal link's box).
pub open spec fn shown_box(b: BoxV) -> bool
    decreases b, 2nat,
{
    (b.display != Display::NoDisplay || internal_link_spec(b.attrs) is Some) && shown_kind(b.kind)
}

/// Whether every box inside a formatting context is displayed.
pub open spec fn shown_kind(k: KindV) -> bool
    decreases k, 1nat,
{
    match k {
        KindV::Block(bs) => shown_boxes(bs),
        KindV::Lines(items) => shown_items(items),
        KindV::Flex(bs) => shown_boxes(bs),
        KindV::Table(bs) => shown_boxes(bs),
        KindV::Directive(_) => true,
    }
}

/// Whether every box of a list is displayed.
pub open spec fn shown_boxes(bs: Seq<BoxV>) -> bool
    decreases bs, 0nat,
{
    if bs.len() == 0 {
        true
    } else {
        shown_boxes(bs.drop_last()) && shown_box(bs.last())
    }
}

/// Whether every atomic box of an inline run is displayed.
pub open spec fn shown_items(items: Seq<ItemV>) -> bool
    decreases items, 0nat,
{
    if items.len() == 0 {
        true
    } else {
        shown_items(items.drop_last()) && match items.last() {
            ItemV::Atomic(b) => shown_box(b),
            _ => true,
        }
    }
}

/// Whether a level is displayed.
pub open spec fn shown_level(l: LevelV) -> bool {
    match l {
        LevelV::Block(b) => shown_box(b),
        LevelV::Inline(items) => shown_items(items),
    }
}

/// Whether every level of a list is displayed.
pub open spec fn shown_levels(ls: Seq<LevelV>) -> bool {
    forall|k: int| 0 <= k < ls.len() ==> shown_level(#[trigger] ls[k])
}

proof fn lemma_shown_items_add(a: Seq<ItemV>, b: Seq<ItemV>)
    requires
        shown_items(a),
        shown_items(b),
    ensures
        shown_items(a + b),
    decreases b.len(),
{
    if b.len() == 0 {
        assert(a + b =~= a);
    } else {
        lemma_shown_items_add(a, b.drop_last());
        assert((a + b).drop_last() =~= a + b.drop_last());
        assert((a + b).last() == b.last());
    }
}

proof fn lemma_shown_items_one(x: ItemV)
    requires
        x matches ItemV::Atomic(b) ==> shown_box(b),
    ensures
        shown_items(seq![x]),
{
    assert(seq![x].drop_last() =~= Seq::<ItemV>::empty());
    assert(shown_items(Seq::<ItemV>::empty()));
    assert(seq![x].last() == x);
}

proof fn lemma_classify_shown(n: StyledView, ps: StyleV, id: nat)
    ensures
        classify_spec(n, ps, id).0 matches Some(l) ==> shown_level(l),
    decreases n, 4nat,
{
    match n {
        StyledView::Text(t) => {
            lemma_shown_items_one(ItemV::Text { id, style: ps, text: t });
        },
        StyledView::Element { tag, attrs, .. } => match tag {
            TagView::Directive(k) => {
                lemma_shown_items_one(ItemV::Directive { id, kind: k, anchor: anchor_name_spec(k, attrs) });
                lemma_block_shown(n, id);
            },
            TagView::Html(_) => {
                lemma_classify_html_shown(n, id);
            },
        },
    }
}

proof fn lemma_classify_html_shown(n: StyledView, id: nat)
    ensures
        classify_html_spec(n, id).0 matches Some(l) ==> shown_level(l),
    decreases n, 3nat,
{
    match n {
        StyledView::Element { attrs, style, children, .. } => {
            if display_spec(style) != Display::NoDisplay || internal_link_spec(attrs) is Some {
                lemma_flatten_shown(children, style, id);
                lemma_block_shown(n, id);
                lemma_shown_items_one(ItemV::Atomic(block_spec(n, id).0));
            }
        },
        _ => {},
    }
}

proof fn lemma_flatten_shown(cs: Seq<StyledView>, ps: StyleV, id: nat)
    ensures
        shown_items(flatten_spec(cs, ps, id).0),
    decreases cs, 2nat,
{
    if cs.len() > 0 {
        let (out, i1) = flatten_spec(cs.drop_last(), ps, id);
        lemma_flatten_shown(cs.drop_last(), ps, id);
        lemma_classify_shown(cs.last(), ps, i1);
        match classify_spec(cs.last(), ps, i1).0 {
            Some(LevelV::Inline(items)) => {
                lemma_shown_items_add(out, items);
            },
            Some(LevelV::Block(b)) => {
                assert(out.push(ItemV::Atomic(b)).drop_last() =~= out);
            },
            None => {},
        }
    }
}

proof fn lemma_block_shown(n: StyledView, id: nat)
    requires
        n matches StyledView::Element { tag, attrs, style, .. } && (tag is Directive || display_spec(style)
            != Display::NoDisplay || internal_link_spec(attrs) is Some),
    ensures
        shown_box(block_spec(n, id).0),
    decreases n, 2nat,
{
    match n {
        StyledView::Element { tag, style, children, .. } => match tag {
            TagView::Html(_) => {
                lemma_kind_shown(display_spec(style), children, style, id + 1);
            },
            _ => {},
        },
        _ => {},
    }
}

proof fn lemma_kind_shown(d: Display, cs: Seq<StyledView>, style: StyleV, id: nat)
    ensures
        shown_kind(kind_spec(d, cs, style, id).0),
    decreases cs, 4nat,
{
    lemma_child_blocks_shown(cs, id);
    lemma_flow_shown(cs, style, id);
}

proof fn lemma_child_blocks_shown(cs: Seq<StyledView>, id: nat)
    ensures
        shown_boxes(child_blocks_spec(cs, id).0),
    decreases cs, 2nat,
{
    if cs.len() > 0 {
        let (out, i1) = child_blocks_spec(cs.drop_last(), id);
        lemma_child_blocks_shown(cs.drop_last(), id);
        match cs.last() {
            StyledView::Element { tag, style, .. } => {
                if tag is Directive || display_spec(style) != Display::NoDisplay {
                    lemma_block_shown(cs.last(), i1);
                    assert(out.push(block_spec(cs.last(), i1).0).drop_last() =~= out);
                }
            },
            _ => {},
        }
    }
}

proof fn lemma_classify_list_shown(cs: Seq<StyledView>, ps: StyleV, id: nat)
    ensures
        shown_levels(classify_list_spec(cs, ps, id).0),
    decreases cs, 2nat,
{
    if cs.len() > 0 {
        let (ls, i1) = classify_list_spec(cs.drop_last(), ps, id);
        lemma_classify_list_shown(cs.drop_last(), ps, id);
        lemma_classify_shown(cs.last(), ps, i1);
        match classify_spec(cs.last(), ps, i1).0 {
            Some(x) => {
                assert forall|k: int| 0 <= k < ls.push(x).len() implies shown_level(
                    #[trigger] ls.push(x)[k],
                ) by {
                    if k < ls.len() {
                        assert(ls.push(x)[k] == ls[k]);
                    }
                }
            },
            None => {},
        }
    }
}

proof fn lemma_wrap_fold_shown(levels: Seq<LevelV>, ps: StyleV, id: nat)
    requires
        shown_levels(levels),
    ensures
        shown_boxes(wrap_fold(levels, ps, id).0),
        shown_items(wrap_fold(levels, ps, id).1),
    decreases levels.len(),
{
    if levels.len() > 0 {
        let (out, run, i) = wrap_fold(levels.drop_last(), ps, id);
        assert forall|k: int| 0 <= k < levels.drop_last().len() implies shown_level(
            #[trigger] levels.drop_last()[k],
        ) by {
            assert(levels.drop_last()[k] == levels[k]);
        }
        lemma_wrap_fold_shown(levels.drop_last(), ps, id);
        assert(shown_level(levels[levels.len() - 1]));
        match levels.last() {
            LevelV::Inline(items) => {
                lemma_shown_items_add(run, items);
            },
            LevelV::Block(b) => {
                lemma_flush_shown(out, run, ps, i);
                let out2 = flush_spec(out, run, ps, i).0;
                assert(out2.push(b).drop_last() =~= out2);
            },
        }
    }
}

proof fn lemma_flush_shown(out: Seq<BoxV>, run: Seq<ItemV>, ps: StyleV, id: nat)
    requires
        shown_boxes(out),
        shown_items(run),
    ensures
        shown_boxes(flush_spec(out, run, ps, id).0),
{
    let b = anon_box(run, ps, id);
    assert(shown_kind(b.kind));
    assert(shown_box(b));
    assert(out.push(b).drop_last() =~= out);
    assert(out.push(b).last() == b);
}

proof fn lemma_inline_items_shown(levels: Seq<LevelV>)
    requires
        shown_levels(levels),
    ensures
        shown_items(inline_items_spec(levels)),
    decreases levels.len(),
{
    if levels.len() > 0 {
        assert forall|k: int| 0 <= k < levels.drop_last().len() implies shown_level(
            #[trigger] levels.drop_last()[k],
        ) by {
            assert(levels.drop_last()[k] == levels[k]);
        }
        lemma_inline_items_shown(levels.drop_last());
        assert(shown_level(levels[levels.len() - 1]));
        match levels.last() {
            LevelV::Inline(items) => {
                lemma_shown_items_add(inline_items_spec(levels.drop_last()), items);
            },
            LevelV::Block(_) => {
                lemma_shown_items_add(inline_items_spec(levels.drop_last()), seq![]);
            },
        }
    }
}

proof fn lemma_flow_shown(cs: Seq<StyledView>, ps: StyleV, id: nat)
    ensures
        shown_kind(flow_spec(cs, ps, id).0),
    decreases cs, 3nat,
{
    lemma_classify_list_shown(cs, ps, id);
    let (levels, i1) = classify_list_spec(cs, ps, id);
    lemma_wrap_fold_shown(levels, ps, i1);
    let (out, run, i2) = wrap_fold(levels, ps, i1);
    lemma_flush_shown(out, run, ps, i2);
    lemma_inline_items_shown(levels);
}

/// An element with `display: none` makes no box: no box anywhere in the box
/// tree of a document flow has `display: none`, save an internal link's,
/// which is laid out whatever its `display`.
pub proof fn hidden_elements_make_no_box(styled: Seq<StyledView>)
    ensures
        shown_box(box_tree_spec(styled).0),
{
    lemma_flow_shown(styled, seq![], 1);
}

// ---------------------------------------------------------------------------
// Node ids are distinct
// ---------------------------------------------------------------------------
/// The node ids of a box and of everything inside it, in tree order.
pub open spec fn box_ids(b: BoxV) -> Seq<nat>
    decreases b, 2nat,
{
    seq![b.id] + kind_ids(b.kind)
}

/// The node ids inside a formatting context.
pub open spec fn kind_ids(k: KindV) -> Seq<nat>
    decreases k, 1nat,
{
    match k {
        KindV::Block(bs) => boxes_ids(bs),
        KindV::Lines(items) => items_ids(items),
        KindV::Flex(bs) => boxes_ids(bs),
        KindV::Table(bs) => boxes_ids(bs),
        KindV::Directive(_) => seq![],
    }
}

/// The node ids of a list of boxes.
pub open spec fn boxes_ids(bs: Seq<BoxV>) -> Seq<nat>
    decreases bs, 0nat,
{
    if bs.len() == 0 {
        seq![]
    } else {
        boxes_ids(bs.drop_last()) + box_ids(bs.last())
    }
}

/// The node ids of an inline run.
pub open spec fn items_ids(items: Seq<ItemV>) -> Seq<nat>
    decreases items, 0nat,
{
    if items.len() == 0 {
        seq![]
    } else {
        items_ids(items.drop_last()) + match items.last() {
            ItemV::Text { id, .. } => seq![id],
            ItemV::Atomic(b) => box_ids(b),
            ItemV::Directive { id, .. } => seq![id],
        }
    }
}

/// The node ids of a level.
pub open spec fn level_ids(l: LevelV) -> Seq<nat> {
    match l {
        LevelV::Block(b) => box_ids(b),
        LevelV::Inline(items) => items_ids(items),
    }
}

/// The node ids of an optional level.
pub open spec fn opt_level_ids(o: Option<LevelV>) -> Seq<nat> {
    match o {
        Some(l) => level_ids(l),
        None => seq![],
    }
}

/// The node ids of a list of levels.
pub open spec fn levels_ids(ls: Seq<LevelV>) -> Seq<nat>
    decreases ls.len(),
{
    if ls.len() == 0 {
        seq![]
    } else {
        levels_ids(ls.drop_last()) + level_ids(ls.last())
    }
}

/// Ids that are pairwise distinct and all in `[lo, hi)`.
pub open spec fn ids_within(s: Seq<nat>, lo: nat, hi: nat) -> bool {
    &&& s.no_duplicates()
    &&& forall|k: int| 0 <= k < s.len() ==> lo <= #[trigger] s[k] < hi
}

/// Ids each of which is one of `old` or lies in `[lo, hi)`.
pub open spec fn ids_from(s: Seq<nat>, old: Seq<nat>, lo: nat, hi: nat) -> bool {
    forall|k: int| 0 <= k < s.len() ==> old.contains(#[trigger] s[k]) || (lo <= s[k] && s[k] < hi)
}

proof fn lemma_join(a: Seq<nat>, b: Seq<nat>, lo: nat, mid: nat, hi: nat)
    requires
        lo <= mid <= hi,
        ids_within(a, lo, mid),
        ids_within(b, mid, hi),
    ensures
        ids_within(a + b, lo, hi),
{
    vstd::seq_lib::lemma_no_dup_in_concat(a, b);
    assert forall|k: int| 0 <= k < (a + b).len() implies lo <= #[trigger] (a + b)[k] < hi by {
        if k < a.len() {
            assert((a + b)[k] == a[k]);
        } else {
            assert((a + b)[k] == b[k - a.len()]);
        }
    }
}

proof fn lemma_split(a: Seq<nat>, b: Seq<nat>)
    requires
        (a + b).no_duplicates(),
    ensures
        a.no_duplicates(),
        b.no_duplicates(),
        forall|x: nat| a.contains(x) ==> !b.contains(x),
{
    assert forall|i: int, j: int| 0 <= i < a.len() && 0 <= j < a.len() && i != j implies a[i]
        != a[j] by {
        assert((a + b)[i] == a[i]);
        assert((a + b)[j] == a[j]);
    }
    assert forall|i: int, j: int| 0 <= i < b.len() && 0 <= j < b.len() && i != j implies b[i]
        != b[j] by {
        assert((a + b)[a.len() + i] == b[i]);
        assert((a + b)[a.len() + j] == b[j]);
    }
    assert forall|x: nat| a.contains(x) implies !b.contains(x) by {
        let i = choose|i: int| 0 <= i < a.len() && a[i] == x;
        if b.contains(x) {
            let j = choose|j: int| 0 <= j < b.len() && b[j] == x;
            assert((a + b)[i] == x);
            assert((a + b)[a.len() + j] == x);
        }
    }
}

proof fn lemma_contains_add(a: Seq<nat>, b: Seq<nat>, x: nat)
    ensures
        a.contains(x) ==> (a + b).contains(x),
        b.contains(x) ==> (a + b).contains(x),
{
    if a.contains(x) {
        let i = choose|i: int| 0 <= i < a.len() && a[i] == x;
        assert((a + b)[i] == x);
    }
    if b.contains(x) {
        let j = choose|j: int| 0 <= j < b.len() && b[j] == x;
        assert((a + b)[a.len() + j] == x);
    }
}

/// Appending the ids of the next level to ids drawn from the earlier levels
/// and from fresh ids keeps them distinct.
proof fn lemma_extend(t: Seq<nat>, earlier: Seq<nat>, next: Seq<nat>, id: nat, hi: nat)
    requires
        t.no_duplicates(),
        (earlier + next).no_duplicates(),
        forall|k: int| 0 <= k < next.len() ==> #[trigger] next[k] < id,
        ids_from(t, earlier, id, hi),
    ensures
        (t + next).no_duplicates(),
        ids_from(t + next, earlier + next, id, hi),
{
    lemma_split(earlier, next);
    assert forall|i: int, j: int| 0 <= i < t.len() && 0 <= j < next.len() implies t[i]
        != next[j] by {
        if earlier.contains(t[i]) {
            assert(next.contains(next[j]));
        }
    }
    vstd::seq_lib::lemma_no_dup_in_concat(t, next);
    assert forall|k: int| 0 <= k < (t + next).len() implies (earlier + next).contains(
        #[trigger] (t + next)[k],
    ) || (id <= (t + next)[k] && (t + next)[k] < hi) by {
        if k < t.len() {
            assert((t + next)[k] == t[k]);
            lemma_contains_add(earlier, next, t[k]);
        } else {
            assert((t + next)[k] == next[k - t.len()]);
            assert(next.contains(next[k - t.len()]));
            lemma_contains_add(earlier, next, next[k - t.len()]);
        }
    }
}

proof fn lemma_items_ids_add(a: Seq<ItemV>, b: Seq<ItemV>)
    ensures
        items_ids(a + b) == items_ids(a) + items_ids(b),
    decreases b.len(),
{
    if b.len() == 0 {
        assert(a + b =~= a);
        assert(items_ids(a) + items_ids(b) =~= items_ids(a));
    } else {
        lemma_items_ids_add(a, b.drop_last());
        assert((a + b).drop_last() =~= a + b.drop_last());
        assert((a + b).last() == b.last());
        assert(items_ids(a + b) =~= items_ids(a) + items_ids(b));
    }
}

proof fn lemma_items_ids_one(x: ItemV)
    ensures
        items_ids(seq![x]) == match x {
            ItemV::Text { id, .. } => seq![id],
            ItemV::Atomic(b) => box_ids(b),
            ItemV::Directive { id, .. } => seq![id],
        },
{
    assert(seq![x].drop_last() =~= Seq::<ItemV>::empty());
    assert(seq![x].last() == x);
    assert(items_ids(Seq::<ItemV>::empty()) + items_ids(seq![x]).skip(0) =~= items_ids(seq![x]));
}

proof fn lemma_one_within(id: nat)
    ensures
        ids_within(seq![id], id, id + 1),
{
}

proof fn lemma_classify_ids(n: StyledView, ps: StyleV, id: nat)
    ensures
        ids_within(opt_level_ids(classify_spec(n, ps, id).0), id, classify_spec(n, ps, id).1),
    decreases n, 4nat,
{
    match n {
        StyledView::Text(t) => {
            lemma_items_ids_one(ItemV::Text { id, style: ps, text: t });
            lemma_one_within(id);
        },
        StyledView::Element { tag, attrs, .. } => match tag {
            TagView::Directive(k) => {
                lemma_items_ids_one(ItemV::Directive { id, kind: k, anchor: anchor_name_spec(k, attrs) });
                lemma_one_within(id);
                lemma_block_ids(n, id);
            },
            TagView::Html(_) => {
                lemma_classify_html_ids(n, id);
            },
        },
    }
}

proof fn lemma_classify_html_ids(n: StyledView, id: nat)
    ensures
        ids_within(opt_level_ids(classify_html_spec(n, id).0), id, classify_html_spec(n, id).1),
    decreases n, 3nat,
{
    match n {
        StyledView::Element { style, children, .. } => {
            lemma_flatten_ids(children, style, id);
            lemma_block_ids(n, id);
            lemma_items_ids_one(ItemV::Atomic(block_spec(n, id).0));
            assert(ids_within(Seq::<nat>::empty(), id, id));
        },
        _ => {
            assert(ids_within(Seq::<nat>::empty(), id, id));
        },
    }
}

proof fn lemma_flatten_ids(cs: Seq<StyledView>, ps: StyleV, id: nat)
    ensures
        ids_within(items_ids(flatten_spec(cs, ps, id).0), id, flatten_spec(cs, ps, id).1),
    decreases cs, 2nat,
{
    if cs.len() == 0 {
        assert(ids_within(Seq::<nat>::empty(), id, id));
    } else {
        let (out, i1) = flatten_spec(cs.drop_last(), ps, id);
        lemma_flatten_ids(cs.drop_last(), ps, id);
        lemma_flatten_mono(cs.drop_last(), ps, id);
        lemma_classify_ids(cs.last(), ps, i1);
        lemma_classify_mono(cs.last(), ps, i1);
        let (l, i2) = classify_spec(cs.last(), ps, i1);
        match l {
            Some(LevelV::Inline(items)) => {
                lemma_items_ids_add(out, items);
                lemma_join(items_ids(out), items_ids(items), id, i1, i2);
            },
            Some(LevelV::Block(b)) => {
                let x = ItemV::Atomic(b);
                assert(out.push(x).drop_last() =~= out);
                lemma_join(items_ids(out), box_ids(b), id, i1, i2);
            },
            None => {},
        }
    }
}

proof fn lemma_block_ids(n: StyledView, id: nat)
    requires
        n is Element,
    ensures
        ids_within(box_ids(block_spec(n, id).0), id, block_spec(n, id).1),
    decreases n, 2nat,
{
    lemma_one_within(id);
    match n {
        StyledView::Element { tag, style, children, .. } => match tag {
            TagView::Html(_) => {
                let d = display_spec(style);
                lemma_kind_ids(d, children, style, id + 1);
                lemma_kind_mono(d, children, style, id + 1);
                let (kind, i2) = kind_spec(d, children, style, id + 1);
                lemma_join(seq![id], kind_ids(kind), id, id + 1, i2);
            },
            TagView::Directive(_) => {
                assert(seq![id] + Seq::<nat>::empty() =~= seq![id]);
            },
        },
        _ => {},
    }
}

proof fn lemma_kind_ids(d: Display, cs: Seq<StyledView>, style: StyleV, id: nat)
    ensures
        ids_within(kind_ids(kind_spec(d, cs, style, id).0), id, kind_spec(d, cs, style, id).1),
    decreases cs, 4nat,
{
    lemma_child_blocks_ids(cs, id);
    lemma_flow_ids(cs, style, id);
}

proof fn lemma_child_blocks_ids(cs: Seq<StyledView>, id: nat)
    ensures
        ids_within(boxes_ids(child_blocks_spec(cs, id).0), id, child_blocks_spec(cs, id).1),
    decreases cs, 2nat,
{
    if cs.len() == 0 {
        assert(ids_within(Seq::<nat>::empty(), id, id));
    } else {
        let (out, i1) = child_blocks_spec(cs.drop_last(), id);
        lemma_child_blocks_ids(cs.drop_last(), id);
        lemma_child_blocks_mono(cs.drop_last(), id);
        match cs.last() {
            StyledView::Element { .. } => {
                lemma_block_ids(cs.last(), i1);
                lemma_block_mono(cs.last(), i1);
                let (b, i2) = block_spec(cs.last(), i1);
                assert(out.push(b).drop_last() =~= out);
                lemma_join(boxes_ids(out), box_ids(b), id, i1, i2);
            },
            _ => {},
        }
    }
}

proof fn lemma_classify_list_ids(cs: Seq<StyledView>, ps: StyleV, id: nat)
    ensures
        ids_within(levels_ids(classify_list_spec(cs, ps, id).0), id, classify_list_spec(cs, ps, id).1),
    decreases cs, 2nat,
{
    if cs.len() == 0 {
        assert(ids_within(Seq::<nat>::empty(), id, id));
    } else {
        let (ls, i1) = classify_list_spec(cs.drop_last(), ps, id);
        lemma_classify_list_ids(cs.drop_last(), ps, id);
        lemma_classify_list_mono(cs.drop_last(), ps, id);
        lemma_classify_ids(cs.last(), ps, i1);
        lemma_classify_mono(cs.last(), ps, i1);
        let (l, i2) = classify_spec(cs.last(), ps, i1);
        match l {
            Some(x) => {
                assert(ls.push(x).drop_last() =~= ls);
                lemma_join(levels_ids(ls), level_ids(x), id, i1, i2);
            },
            None => {},
        }
    }
}

proof fn lemma_flush_ids(out: Seq<BoxV>, run: Seq<ItemV>, ps: StyleV, i: nat, earlier: Seq<nat>, id: nat)
    requires
        id <= i,
        (boxes_ids(out) + items_ids(run)).no_duplicates(),
        ids_from(boxes_ids(out) + items_ids(run), earlier, id, i),
        forall|k: int| 0 <= k < earlier.len() ==> #[trigger] earlier[k] < id,
    ensures
        boxes_ids(flush_spec(out, run, ps, i).0).no_duplicates(),
        ids_from(boxes_ids(flush_spec(out, run, ps, i).0), earlier, id, flush_spec(out, run, ps, i).1),
{
    let a = boxes_ids(out);
    let r = items_ids(run);
    lemma_split(a, r);
    assert forall|k: int| 0 <= k < a.len() implies earlier.contains(#[trigger] a[k]) || (id <= a[k]
        && a[k] < i) by {
        assert((a + r)[k] == a[k]);
    }
    if !(run.len() == 0 || run_blank(run)) {
        let b = anon_box(run, ps, i);
        assert(out.push(b).drop_last() =~= out);
        assert(kind_ids(b.kind) == r);
        let t = a + seq![i];
        assert(!a.contains(i)) by {
            if a.contains(i) {
                let k = choose|k: int| 0 <= k < a.len() && a[k] == i;
                if earlier.contains(i) {
                    let q = choose|q: int| 0 <= q < earlier.len() && earlier[q] == i;
                }
            }
        }
        vstd::seq_lib::lemma_no_dup_in_concat(a, seq![i]);
        assert forall|p: int, q: int| 0 <= p < t.len() && 0 <= q < r.len() implies t[p] != r[q] by {
            if p < a.len() {
                assert(t[p] == a[p]);
                assert(a.contains(a[p]));
                assert(r.contains(r[q]));
            } else {
                assert((a + r)[a.len() + q] == r[q]);
                if earlier.contains(r[q]) {
                    let w = choose|w: int| 0 <= w < earlier.len() && earlier[w] == r[q];
                }
            }
        }
        vstd::seq_lib::lemma_no_dup_in_concat(t, r);
        assert(box_ids(b) == seq![i] + r);
        assert(boxes_ids(out.push(b)) == a + box_ids(b));
        assert(a + (seq![i] + r) =~= t + r);
        assert forall|k: int| 0 <= k < (t + r).len() implies earlier.contains(#[trigger] (t + r)[k])
            || (id <= (t + r)[k] && (t + r)[k] < i + 1) by {
            if k < a.len() {
                assert((t + r)[k] == a[k]);
            } else if k == a.len() {
                assert((t + r)[k] == i);
            } else {
                assert((t + r)[k] == r[k - a.len() - 1]);
                assert((a + r)[k - 1] == r[k - a.len() - 1]);
            }
        }
    }
}

proof fn lemma_wrap_fold_ids(levels: Seq<LevelV>, ps: StyleV, id: nat)
    requires
        levels_ids(levels).no_duplicates(),
        forall|k: int| 0 <= k < levels_ids(levels).len() ==> #[trigger] levels_ids(levels)[k] < id,
    ensures
        (boxes_ids(wrap_fold(levels, ps, id).0) + items_ids(wrap_fold(levels, ps, id).1)).no_duplicates(),
        ids_from(
            boxes_ids(wrap_fold(levels, ps, id).0) + items_ids(wrap_fold(levels, ps, id).1),
            levels_ids(levels),
            id,
            wrap_fold(levels, ps, id).2,
        ),
    decreases levels.len(),
{
    if levels.len() == 0 {
        assert(boxes_ids(Seq::<BoxV>::empty()) + items_ids(Seq::<ItemV>::empty()) =~= Seq::<nat>::empty());
    } else {
        let pre = levels.drop_last();
        let e = levels_ids(pre);
        let nx = level_ids(levels.last());
        assert(levels_ids(levels) == e + nx);
        lemma_split(e, nx);
        assert forall|k: int| 0 <= k < e.len() implies #[trigger] e[k] < id by {
            assert((e + nx)[k] == e[k]);
        }
        assert forall|k: int| 0 <= k < nx.len() implies #[trigger] nx[k] < id by {
            assert((e + nx)[e.len() + k] == nx[k]);
        }
        lemma_wrap_fold_ids(pre, ps, id);
        lemma_wrap_fold_mono(pre, ps, id);
        let (out, run, i) = wrap_fold(pre, ps, id);
        match levels.last() {
            LevelV::Inline(items) => {
                lemma_items_ids_add(run, items);
                assert(boxes_ids(out) + items_ids(run + items) =~= (boxes_ids(out) + items_ids(run))
                    + nx);
                lemma_extend(boxes_ids(out) + items_ids(run), e, nx, id, i);
            },
            LevelV::Block(b) => {
                lemma_flush_ids(out, run, ps, i, e, id);
                let (out2, i2) = flush_spec(out, run, ps, i);
                assert(out2.push(b).drop_last() =~= out2);
                assert(boxes_ids(out2.push(b)) + items_ids(Seq::<ItemV>::empty()) =~= boxes_ids(
                    out2,
                ) + nx);
                lemma_extend(boxes_ids(out2), e, nx, id, i2);
            },
        }
    }
}

proof fn lemma_inline_items_ids(levels: Seq<LevelV>)
    requires
        levels_ids(levels).no_duplicates(),
    ensures
        items_ids(inline_items_spec(levels)).no_duplicates(),
        ids_from(items_ids(inline_items_spec(levels)), levels_ids(levels), 0, 0),
    decreases levels.len(),
{
    if levels.len() == 0 {
        assert(items_ids(Seq::<ItemV>::empty()) =~= Seq::<nat>::empty());
    } else {
        let pre = levels.drop_last();
        let e = levels_ids(pre);
        let nx = level_ids(levels.last());
        assert(levels_ids(levels) == e + nx);
        lemma_split(e, nx);
        lemma_inline_items_ids(pre);
        let t = items_ids(inline_items_spec(pre));
        match levels.last() {
            LevelV::Inline(items) => {
                lemma_items_ids_add(inline_items_spec(pre), items);
                assert forall|k: int| 0 <= k < nx.len() implies #[trigger] nx[k] < nx[k] + 1 by {}
                assert forall|i: int, j: int| 0 <= i < t.len() && 0 <= j < nx.len() implies t[i]
                    != nx[j] by {
                    assert(e.contains(t[i]));
                    assert(nx.contains(nx[j]));
                }
                vstd::seq_lib::lemma_no_dup_in_concat(t, nx);
                assert forall|k: int| 0 <= k < (t + nx).len() implies (e + nx).contains(
                    #[trigger] (t + nx)[k],
                ) by {
                    if k < t.len() {
                        assert((t + nx)[k] == t[k]);
                        lemma_contains_add(e, nx, t[k]);
                    } else {
                        assert((t + nx)[k] == nx[k - t.len()]);
                        assert(nx.contains(nx[k - t.len()]));
                        lemma_contains_add(e, nx, nx[k - t.len()]);
                    }
                }
            },
            LevelV::Block(_) => {
                lemma_items_ids_add(inline_items_spec(pre), seq![]);
                assert(items_ids(Seq::<ItemV>::empty()) =~= Seq::<nat>::empty());
                assert(t + Seq::<nat>::empty() =~= t);
                assert forall|k: int| 0 <= k < t.len() implies (e + nx).contains(#[trigger] t[k]) by {
                    lemma_contains_add(e, nx, t[k]);
                }
            },
        }
    }
}

proof fn lemma_flow_ids(cs: Seq<StyledView>, ps: StyleV, id: nat)
    ensures
        ids_within(kind_ids(flow_spec(cs, ps, id).0), id, flow_spec(cs, ps, id).1),
    decreases cs, 3nat,
{
    lemma_classify_list_ids(cs, ps, id);
    lemma_classify_list_mono(cs, ps, id);
    let (levels, i1) = classify_list_spec(cs, ps, id);
    let lids = levels_ids(levels);
    if any_block(levels) {
        lemma_wrap_fold_ids(levels, ps, i1);
        lemma_wrap_fold_mono(levels, ps, i1);
        let (out, run, i2) = wrap_fold(levels, ps, i1);
        lemma_flush_ids(out, run, ps, i2, lids, i1);
        let (bs, i3) = flush_spec(out, run, ps, i2);
        let ids = boxes_ids(bs);
        assert forall|k: int| 0 <= k < ids.len() implies id <= #[trigger] ids[k] < i3 by {
            if lids.contains(ids[k]) {
                let w = choose|w: int| 0 <= w < lids.len() && lids[w] == ids[k];
            }
        }
    } else {
        lemma_inline_items_ids(levels);
        let ids = items_ids(inline_items_spec(levels));
        assert forall|k: int| 0 <= k < ids.len() implies id <= #[trigger] ids[k] < i1 by {
            let w = choose|w: int| 0 <= w < lids.len() && lids[w] == ids[k];
        }
    }
}

/// Every box and inline item of the box tree has its own node id: the ids
/// are pairwise distinct, and all below the count of ids used.
pub proof fn node_ids_are_distinct(styled: Seq<StyledView>)
    ensures
        ids_within(box_ids(box_tree_spec(styled).0), 0, box_tree_spec(styled).1),
{
    lemma_flow_ids(styled, seq![], 1);
    lemma_flow_mono(styled, seq![], 1);
    let (kind, n) = flow_spec(styled, seq![], 1);
    lemma_one_within(0);
    lemma_join(seq![0], kind_ids(kind), 0, 1, n);
}

// ---------------------------------------------------------------------------
// The executable box tree
// ---------------------------------------------------------------------------
/// A box of the layout tree.
pub struct LayoutBox {
    pub node_id: NodeId,
    pub style: ComputedStyle,
    /// Source element attributes (e.g. `colspan`, `href`); empty for
    /// anonymous boxes.
    pub attrs: Vec<Attr>,
    pub display: Display,
    pub kind: BoxKind,
    /// A raster image this box paints.
    pub image: Option<ImageSource>,
    /// The tagged-PDF structure role derived from the box's HTML tag.
    pub ua_role: Option<UaRole>,
    /// Alternate text for an `<img>`.
    pub ua_alt: Option<String>,
}

/// What a box contains, by formatting context.
pub enum BoxKind {
    /// A block container whose children are all block-level.
    Block(Vec<LayoutBox>),
    /// A block container establishing an inline formatting context.
    Lines(Vec<InlineItem>),
    /// A flex container; children are flex items.
    Flex(Vec<LayoutBox>),
    /// A table; children are rows and row groups.
    Table(Vec<LayoutBox>),
    /// An opaque paged-media directive marker.
    Directive(TKind),
}

/// One inline-level item inside a [`BoxKind::Lines`] context.
pub enum InlineItem {
    /// A run of text, styled by its containing element.
    Text { node_id: NodeId, style: ComputedStyle, text: String },
    /// An atomic inline box (`inline-block`, or a block nested in inline flow).
    Atomic(LayoutBox),
    /// An inline paged-media directive (e.g. a footnote reference); a
    /// `<t:anchor name>` carries its destination name.
    Directive { node_id: NodeId, kind: TKind, anchor: Option<String> },
}

/// A block-level box or an inline-level run, before anonymous wrapping.
pub enum Level {
    Block(LayoutBox),
    Inline(Vec<InlineItem>),
}

/// The picture of an optional image.
pub open spec fn image_view(o: Option<ImageSource>) -> Option<(Seq<char>, bool)> {
    match o {
        Some(i) => Some((i.name@, i.replaced)),
        None => None,
    }
}

/// The picture of a box.
pub open spec fn box_view(b: LayoutBox) -> BoxV
    decreases b, 2nat,
{
    BoxV {
        id: b.node_id.0 as nat,
        style: b.style@,
        attrs: attrs_view(b.attrs@),
        display: b.display,
        kind: kind_view(b.kind),
        image: image_view(b.image),
        role: b.ua_role,
        alt: match b.ua_alt {
            Some(a) => Some(a@),
            None => None,
        },
    }
}

/// The picture of a formatting context.
pub open spec fn kind_view(k: BoxKind) -> KindV
    decreases k, 1nat,
{
    match k {
        BoxKind::Block(v) => KindV::Block(boxes_view(v@)),
        BoxKind::Lines(v) => KindV::Lines(items_view(v@)),
        BoxKind::Flex(v) => KindV::Flex(boxes_view(v@)),
        BoxKind::Table(v) => KindV::Table(boxes_view(v@)),
        BoxKind::Directive(t) => KindV::Directive(t),
    }
}

/// The pictures of a list of boxes.
pub open spec fn boxes_view(s: Seq<LayoutBox>) -> Seq<BoxV>
    decreases s, 0nat,
{
    if s.len() == 0 {
        seq![]
    } else {
        boxes_view(s.drop_last()).push(box_view(s.last()))
    }
}

/// The picture of an inline item.
pub open spec fn item_view(i: InlineItem) -> ItemV
    decreases i, 1nat,
{
    match i {
        InlineItem::Text { node_id, style, text } => ItemV::Text { id: node_id.0 as nat, style: style@, text: text@ },
        InlineItem::Atomic(b) => ItemV::Atomic(box_view(b)),
        InlineItem::Directive { node_id, kind, anchor } => ItemV::Directive {
            id: node_id.0 as nat,
            kind,
            anchor: match anchor {
                Some(a) => Some(a@),
                None => None,
            },
        },
    }
}

/// The pictures of a list of inline items.
pub open spec fn items_view(s: Seq<InlineItem>) -> Seq<ItemV>
    decreases s, 0nat,
{
    if s.len() == 0 {
        seq![]
    } else {
        items_view(s.drop_last()).push(item_view(s.last()))
    }
}

/// The picture of a level.
pub open spec fn level_view(l: Level) -> LevelV {
    match l {
        Level::Block(b) => LevelV::Block(box_view(b)),
        Level::Inline(v) => LevelV::Inline(items_view(v@)),
    }
}

/// The pictures of a list of levels.
pub open spec fn levels_view(s: Seq<Level>) -> Seq<LevelV> {
    s.map_values(|l: Level| level_view(l))
}

/// The picture of an optional level.
pub open spec fn opt_level_view(o: Option<Level>) -> Option<LevelV> {
    match o {
        Some(l) => Some(level_view(l)),
        None => None,
    }
}

proof fn lemma_boxes_push(s: Seq<LayoutBox>, b: LayoutBox)
    ensures
        boxes_view(s.push(b)) == boxes_view(s).push(box_view(b)),
{
    assert(s.push(b).drop_last() =~= s);
}

proof fn lemma_items_push(s: Seq<InlineItem>, x: InlineItem)
    ensures
        items_view(s.push(x)) == items_view(s).push(item_view(x)),
{
    assert(s.push(x).drop_last() =~= s);
}

proof fn lemma_items_add(a: Seq<InlineItem>, b: Seq<InlineItem>)
    ensures
        items_view(a + b) == items_view(a) + items_view(b),
    decreases b.len(),
{
    if b.len() == 0 {
        assert(a + b =~= a);
        assert(items_view(b) =~= Seq::<ItemV>::empty());
        assert(items_view(a) + items_view(b) =~= items_view(a));
    } else {
        lemma_items_add(a, b.drop_last());
        assert((a + b).drop_last() =~= a + b.drop_last());
        assert((a + b).last() == b.last());
        assert(items_view(a + b) =~= items_view(a) + items_view(b));
    }
}

proof fn lemma_items_one(x: InlineItem)
    ensures
        items_view(seq![x]) == seq![item_view(x)],
{
    assert(seq![x].drop_last() =~= Seq::<InlineItem>::empty());
    assert(items_view(Seq::<InlineItem>::empty()) =~= Seq::<ItemV>::empty());
    assert(items_view(seq![x]) =~= seq![item_view(x)]);
}

/// Move a vector's items onto the end of another.
fn append_items(out: &mut Vec<InlineItem>, items: Vec<InlineItem>)
    ensures
        items_view(final(out)@) == items_view(old(out)@) + items_view(items@),
{
    let mut items = items;
    proof {
        lemma_items_add(out@, items@);
    }
    out.append(&mut items);
}


proof fn lemma_items_index(s: Seq<InlineItem>)
    ensures
        items_view(s).len() == s.len(),
        forall|k: int| 0 <= k < s.len() ==> #[trigger] items_view(s)[k] == item_view(s[k]),
    decreases s.len(),
{
    if s.len() > 0 {
        lemma_items_index(s.drop_last());
    }
}

proof fn lemma_levels_push(s: Seq<Level>, x: Level)
    ensures
        levels_view(s.push(x)) == levels_view(s).push(level_view(x)),
{
    assert(levels_view(s.push(x)) =~= levels_view(s).push(level_view(x)));
}

/// Whether every item of a run is whitespace-only text.
fn run_is_blank(run: &Vec<InlineItem>) -> (res: bool)
    ensures
        res == run_blank(items_view(run@)),
{
    proof {
        lemma_items_index(run@);
    }
    let mut i: usize = 0;
    while i < run.len()
        invariant
            i <= run@.len(),
            items_view(run@).len() == run@.len(),
            forall|k: int| 0 <= k < run@.len() ==> #[trigger] items_view(run@)[k] == item_view(run@[k]),
            forall|k: int|
                0 <= k < i ==> match #[trigger] items_view(run@)[k] {
                    ItemV::Text { text, .. } => trim(text).len() == 0,
                    _ => false,
                },
        decreases run.len() - i,
    {
        let blank = match &run[i] {
            InlineItem::Text { text, .. } => {
                let cs = chars_of(text.as_str());
                trim_chars(cs.as_slice()).len() == 0
            },
            _ => false,
        };
        if !blank {
            assert(items_view(run@)[i as int] == item_view(run@[i as int]));
            return false;
        }
        i += 1;
    }
    true
}

/// A text item styled by its container, with the next id.
fn text_item(text: &String, style: &ComputedStyle, ids: &mut Ids) -> (res: InlineItem)
    requires
        old(ids).next < u32::MAX,
    ensures
        item_view(res) == (ItemV::Text { id: old(ids).next as nat, style: style@, text: text@ }),
        final(ids).next == old(ids).next + 1,
{
    let node_id = ids.next_id();
    InlineItem::Text { node_id, style: style.copy(), text: text.clone() }
}

/// A one-item inline level.
fn single(item: InlineItem) -> (res: Level)
    ensures
        level_view(res) == LevelV::Inline(seq![item_view(item)]),
{
    proof {
        lemma_items_one(item);
    }
    let mut v: Vec<InlineItem> = Vec::new();
    v.push(item);
    proof {
        assert(v@ =~= seq![item]);
    }
    Level::Inline(v)
}

/// The anonymous block wrapping a run, with the next id.
fn anon_lines_box(items: Vec<InlineItem>, ps: &ComputedStyle, ids: &mut Ids) -> (res: LayoutBox)
    requires
        old(ids).next < u32::MAX,
    ensures
        box_view(res) == anon_box(items_view(items@), ps@, old(ids).next as nat),
        final(ids).next == old(ids).next + 1,
{
    let node_id = ids.next_id();
    let attrs: Vec<Attr> = Vec::new();
    proof {
        assert(attrs_view(attrs@) =~= Seq::<AttrView>::empty());
    }
    LayoutBox {
        node_id,
        style: ps.copy(),
        attrs,
        display: Display::Block,
        kind: BoxKind::Lines(items),
        image: None,
        ua_role: Some(UaRole::Paragraph),
        ua_alt: None,
    }
}

/// Close the pending run: a non-blank run becomes an anonymous block.
fn flush_run(run: &mut Vec<InlineItem>, ps: &ComputedStyle, ids: &mut Ids, out: &mut Vec<LayoutBox>)
    requires
        flush_spec(boxes_view(old(out)@), items_view(old(run)@), ps@, old(ids).next as nat).1
            <= u32::MAX,
    ensures
        (boxes_view(final(out)@), final(ids).next as nat) == flush_spec(
            boxes_view(old(out)@),
            items_view(old(run)@),
            ps@,
            old(ids).next as nat,
        ),
        final(run)@.len() == 0,
{
    proof {
        lemma_items_index(run@);
    }
    if run.len() == 0 || run_is_blank(run) {
        run.clear();
        return;
    }
    let mut items: Vec<InlineItem> = Vec::new();
    std::mem::swap(run, &mut items);
    let b = anon_lines_box(items, ps, ids);
    proof {
        lemma_boxes_push(out@, b);
    }
    out.push(b);
}

/// The levels last to first, so that popping yields them first to last.
fn flip(levels: Vec<Level>) -> (res: Vec<Level>)
    ensures
        res@.len() == levels@.len(),
        forall|k: int| 0 <= k < levels@.len() ==> #[trigger] res@[k] == levels@[levels@.len() - 1 - k],
{
    let ghost orig = levels@;
    let mut rest = levels;
    let mut res: Vec<Level> = Vec::new();
    while rest.len() > 0
        invariant
            rest@ == orig.take(rest@.len() as int),
            res@.len() + rest@.len() == orig.len(),
            forall|k: int| 0 <= k < res@.len() ==> #[trigger] res@[k] == orig[orig.len() - 1 - k],
        decreases rest.len(),
    {
        match rest.pop() {
            Some(x) => {
                res.push(x);
            },
            None => {},
        }
    }
    res
}

/// Wrap every inline run of a mixed flow in an anonymous block.
fn wrap_runs(levels: Vec<Level>, ps: &ComputedStyle, ids: &mut Ids) -> (res: Vec<LayoutBox>)
    requires
        wrap_spec(levels_view(levels@), ps@, old(ids).next as nat).1 <= u32::MAX,
    ensures
        (boxes_view(res@), final(ids).next as nat) == wrap_spec(
            levels_view(levels@),
            ps@,
            old(ids).next as nat,
        ),
{
    let ghost lv = levels_view(levels@);
    let ghost id0 = ids.next as nat;
    let ghost n = levels@.len();
    let ghost orig = levels@;
    let mut pending = flip(levels);
    let mut out: Vec<LayoutBox> = Vec::new();
    let mut run: Vec<InlineItem> = Vec::new();
    let ghost mut j: int = 0;
    proof {
        lemma_wrap_fold_mono(lv, ps@, id0);
        assert(lv.take(0) =~= Seq::<LevelV>::empty());
        assert(boxes_view(out@) =~= Seq::<BoxV>::empty());
        assert(items_view(run@) =~= Seq::<ItemV>::empty());
    }
    while pending.len() > 0
        invariant
            n == orig.len(),
            lv == levels_view(orig),
            0 <= j <= n,
            pending@.len() + j == n,
            forall|k: int| 0 <= k < pending@.len() ==> #[trigger] pending@[k] == orig[n - 1 - k],
            (boxes_view(out@), items_view(run@), ids.next as nat) == wrap_fold(lv.take(j), ps@, id0),
            wrap_spec(lv, ps@, id0).1 <= u32::MAX,
            wrap_fold(lv, ps@, id0).2 <= wrap_spec(lv, ps@, id0).1,
        decreases pending.len(),
    {
        let ghost last = pending@.len() - 1;
        let popped = pending.pop();
        proof {
            assert(popped == Some(orig[j]));
            assert(lv.take(j + 1).drop_last() =~= lv.take(j));
            assert(lv.take(j + 1).last() == level_view(orig[j]));
            lemma_wrap_fold_prefix(lv, ps@, id0, j + 1);
        }
        match popped {
            Some(Level::Inline(items)) => {
                append_items(&mut run, items);
            },
            Some(Level::Block(b)) => {
                flush_run(&mut run, ps, ids, &mut out);
                proof {
                    lemma_boxes_push(out@, b);
                }
                out.push(b);
            },
            None => {},
        }
        proof {
            j = j + 1;
            assert(forall|k: int| 0 <= k < pending@.len() ==> #[trigger] pending@[k] == orig[n - 1 - k]);
        }
    }
    proof {
        assert(lv.take(j) =~= lv);
    }
    flush_run(&mut run, ps, ids, &mut out);
    out
}

/// The inline items of a flow with no block-level child.
fn inline_items_of(levels: Vec<Level>) -> (res: Vec<InlineItem>)
    ensures
        items_view(res@) == inline_items_spec(levels_view(levels@)),
{
    let ghost lv = levels_view(levels@);
    let ghost n = levels@.len();
    let ghost orig = levels@;
    let mut pending = flip(levels);
    let mut out: Vec<InlineItem> = Vec::new();
    let ghost mut j: int = 0;
    proof {
        assert(lv.take(0) =~= Seq::<LevelV>::empty());
        assert(items_view(out@) =~= Seq::<ItemV>::empty());
    }
    while pending.len() > 0
        invariant
            n == orig.len(),
            lv == levels_view(orig),
            0 <= j <= n,
            pending@.len() + j == n,
            forall|k: int| 0 <= k < pending@.len() ==> #[trigger] pending@[k] == orig[n - 1 - k],
            items_view(out@) == inline_items_spec(lv.take(j)),
        decreases pending.len(),
    {
        let popped = pending.pop();
        proof {
            assert(popped == Some(orig[j]));
            assert(lv.take(j + 1).drop_last() =~= lv.take(j));
            assert(lv.take(j + 1).last() == level_view(orig[j]));
        }
        match popped {
            Some(Level::Inline(items)) => {
                append_items(&mut out, items);
            },
            _ => {
                proof {
                    assert(items_view(out@) + Seq::<ItemV>::empty() =~= items_view(out@));
                }
            },
        }
        proof {
            j = j + 1;
        }
    }
    proof {
        assert(lv.take(j) =~= lv);
    }
    out
}


/// The picture of a styled element as a node.
pub open spec fn element_view(e: StyledElement) -> StyledView {
    styled_view(StyledNode::Element(e))
}

/// Classify one styled node under its parent's style.
fn classify(node: &StyledNode, ps: &ComputedStyle, ids: &mut Ids) -> (res: Option<Level>)
    requires
        classify_spec(styled_view(*node), ps@, old(ids).next as nat).1 <= u32::MAX,
    ensures
        (opt_level_view(res), final(ids).next as nat) == classify_spec(
            styled_view(*node),
            ps@,
            old(ids).next as nat,
        ),
    decreases node, 5nat,
{
    match node {
        StyledNode::Text(t) => {
            let it = text_item(t, ps, ids);
            Some(single(it))
        },
        StyledNode::Element(e) => match &e.tag {
            Tag::Directive(k) => {
                if inline_directive(*k) {
                    let node_id = ids.next_id();
                    let anchor = anchor_name(*k, &e.attrs);
                    Some(single(InlineItem::Directive { node_id, kind: *k, anchor }))
                } else {
                    Some(Level::Block(build_block(e, ids)))
                }
            },
            Tag::Html(_) => classify_html(e, ids),
        },
    }
}

/// Whether `attrs` make their element an internal link (`href="#name"`).
fn is_internal_link(attrs: &[Attr]) -> (res: bool)
    ensures
        res == (internal_link_spec(attrs_view(attrs@)) is Some),
{
    match attr_value(attrs, "href") {
        Some(v) => {
            let cs = chars_of(v);
            cs.len() > 1 && cs[0] == '#'
        },
        None => false,
    }
}

/// The destination name a directive of kind `k` carries.
fn anchor_name(k: TKind, attrs: &[Attr]) -> (res: Option<String>)
    ensures
        match res {
            Some(a) => anchor_name_spec(k, attrs_view(attrs@)) == Some(a@),
            None => anchor_name_spec(k, attrs_view(attrs@)) is None,
        },
{
    match k {
        TKind::Anchor => match attr_value(attrs, "name") {
            Some(v) => Some(v.to_string()),
            None => None,
        },
        _ => None,
    }
}

/// Classify an HTML element: an internal link as an atomic inline box,
/// anything else by its `display`.
fn classify_html(e: &StyledElement, ids: &mut Ids) -> (res: Option<Level>)
    requires
        e.tag is Html,
        classify_html_spec(element_view(*e), old(ids).next as nat).1 <= u32::MAX,
    ensures
        (opt_level_view(res), final(ids).next as nat) == classify_html_spec(
            element_view(*e),
            old(ids).next as nat,
        ),
    decreases e, 4nat,
{
    if is_internal_link(&e.attrs) {
        let b = build_block(e, ids);
        return Some(single(InlineItem::Atomic(b)));
    }
    match display_of(&e.style) {
        Display::NoDisplay => None,
        Display::Inline => {
            let items = flatten(&e.children, &e.style, ids);
            Some(Level::Inline(items))
        },
        Display::InlineBlock => {
            let b = build_block(e, ids);
            Some(single(InlineItem::Atomic(b)))
        },
        _ => Some(Level::Block(build_block(e, ids))),
    }
}

/// An inline element's content as inline items: its own style applies, a
/// nested block becomes an atomic inline.
fn flatten(cs: &Vec<StyledNode>, ps: &ComputedStyle, ids: &mut Ids) -> (res: Vec<InlineItem>)
    requires
        flatten_spec(styled_nodes_view(cs@), ps@, old(ids).next as nat).1 <= u32::MAX,
    ensures
        (items_view(res@), final(ids).next as nat) == flatten_spec(
            styled_nodes_view(cs@),
            ps@,
            old(ids).next as nat,
        ),
    decreases cs, 1nat,
{
    let ghost sv = styled_nodes_view(cs@);
    let ghost id0 = ids.next as nat;
    let mut out: Vec<InlineItem> = Vec::new();
    let mut i: usize = 0;
    proof {
        lemma_styled_len(cs@);
        assert(sv.take(0) =~= Seq::<StyledView>::empty());
        assert(items_view(out@) =~= Seq::<ItemV>::empty());
    }
    while i < cs.len()
        invariant
            i <= cs@.len(),
            sv == styled_nodes_view(cs@),
            sv.len() == cs@.len(),
            (items_view(out@), ids.next as nat) == flatten_spec(sv.take(i as int), ps@, id0),
            flatten_spec(sv, ps@, id0).1 <= u32::MAX,
        decreases cs.len() - i,
    {
        assert(decreases_to!(cs => cs@[i as int]));
        proof {
            lemma_styled_index(cs@, i as int);
            assert(sv.take(i + 1).drop_last() =~= sv.take(i as int));
            assert(sv.take(i + 1).last() == styled_view(cs@[i as int]));
            lemma_flatten_prefix(sv, ps@, id0, i + 1);
        }
        let l = classify(&cs[i], ps, ids);
        match l {
            Some(Level::Inline(items)) => {
                append_items(&mut out, items);
            },
            Some(Level::Block(b)) => {
                let it = InlineItem::Atomic(b);
                proof {
                    lemma_items_push(out@, it);
                }
                out.push(it);
            },
            None => {},
        }
        i += 1;
    }
    proof {
        assert(sv.take(i as int) =~= sv);
    }
    out
}

/// The block box of an element (a directive marker for a directive).
fn build_block(e: &StyledElement, ids: &mut Ids) -> (res: LayoutBox)
    requires
        block_spec(element_view(*e), old(ids).next as nat).1 <= u32::MAX,
    ensures
        (box_view(res), final(ids).next as nat) == block_spec(element_view(*e), old(ids).next as nat),
    decreases e, 3nat,
{
    proof {
        lemma_block_mono(element_view(*e), ids.next as nat);
    }
    let node_id = ids.next_id();
    match &e.tag {
        Tag::Directive(k) => LayoutBox {
            node_id,
            style: e.style.copy(),
            attrs: copy_attrs(&e.attrs),
            display: Display::Block,
            kind: BoxKind::Directive(*k),
            image: None,
            ua_role: None,
            ua_alt: None,
        },
        Tag::Html(_) => {
            let d = display_of(&e.style);
            let kind = kind_for(d, &e.children, &e.style, ids);
            LayoutBox {
                node_id,
                style: e.style.copy(),
                attrs: copy_attrs(&e.attrs),
                display: d,
                kind,
                image: image_of(e),
                ua_role: role_of(e),
                ua_alt: alt_of(e),
            }
        },
    }
}

/// The formatting context of a container by its `display`.
fn kind_for(d: Display, cs: &Vec<StyledNode>, style: &ComputedStyle, ids: &mut Ids) -> (res: BoxKind)
    requires
        kind_spec(d, styled_nodes_view(cs@), style@, old(ids).next as nat).1 <= u32::MAX,
    ensures
        (kind_view(res), final(ids).next as nat) == kind_spec(
            d,
            styled_nodes_view(cs@),
            style@,
            old(ids).next as nat,
        ),
    decreases cs, 3nat,
{
    match d {
        Display::Flex => BoxKind::Flex(child_blocks(cs, ids)),
        Display::Table => BoxKind::Table(child_blocks(cs, ids)),
        _ => flow(cs, style, ids),
    }
}

/// A flex or table container's children as block boxes: text dropped, and
/// elements with `display: none` (but not directives) dropped.
fn child_blocks(cs: &Vec<StyledNode>, ids: &mut Ids) -> (res: Vec<LayoutBox>)
    requires
        child_blocks_spec(styled_nodes_view(cs@), old(ids).next as nat).1 <= u32::MAX,
    ensures
        (boxes_view(res@), final(ids).next as nat) == child_blocks_spec(
            styled_nodes_view(cs@),
            old(ids).next as nat,
        ),
    decreases cs, 1nat,
{
    let ghost sv = styled_nodes_view(cs@);
    let ghost id0 = ids.next as nat;
    let mut out: Vec<LayoutBox> = Vec::new();
    let mut i: usize = 0;
    proof {
        lemma_styled_len(cs@);
        assert(sv.take(0) =~= Seq::<StyledView>::empty());
        assert(boxes_view(out@) =~= Seq::<BoxV>::empty());
    }
    while i < cs.len()
        invariant
            i <= cs@.len(),
            sv == styled_nodes_view(cs@),
            sv.len() == cs@.len(),
            (boxes_view(out@), ids.next as nat) == child_blocks_spec(sv.take(i as int), id0),
            child_blocks_spec(sv, id0).1 <= u32::MAX,
        decreases cs.len() - i,
    {
        assert(decreases_to!(cs => cs@[i as int]));
        proof {
            lemma_styled_index(cs@, i as int);
            assert(sv.take(i + 1).drop_last() =~= sv.take(i as int));
            assert(sv.take(i + 1).last() == styled_view(cs@[i as int]));
            lemma_child_blocks_prefix(sv, id0, i + 1);
        }
        match &cs[i] {
            StyledNode::Element(e) => {
                if is_directive(e) || !matches!(display_of(&e.style), Display::NoDisplay) {
                    let b = build_block(e, ids);
                    proof {
                        lemma_boxes_push(out@, b);
                    }
                    out.push(b);
                }
            },
            StyledNode::Text(_) => {},
        }
        i += 1;
    }
    proof {
        assert(sv.take(i as int) =~= sv);
    }
    out
}

/// The levels of a flow of children (dropped ones left out).
fn classify_list(cs: &Vec<StyledNode>, ps: &ComputedStyle, ids: &mut Ids) -> (res: Vec<Level>)
    requires
        classify_list_spec(styled_nodes_view(cs@), ps@, old(ids).next as nat).1 <= u32::MAX,
    ensures
        (levels_view(res@), final(ids).next as nat) == classify_list_spec(
            styled_nodes_view(cs@),
            ps@,
            old(ids).next as nat,
        ),
    decreases cs, 1nat,
{
    let ghost sv = styled_nodes_view(cs@);
    let ghost id0 = ids.next as nat;
    let mut out: Vec<Level> = Vec::new();
    let mut i: usize = 0;
    proof {
        lemma_styled_len(cs@);
        assert(sv.take(0) =~= Seq::<StyledView>::empty());
        assert(levels_view(out@) =~= Seq::<LevelV>::empty());
    }
    while i < cs.len()
        invariant
            i <= cs@.len(),
            sv == styled_nodes_view(cs@),
            sv.len() == cs@.len(),
            (levels_view(out@), ids.next as nat) == classify_list_spec(sv.take(i as int), ps@, id0),
            classify_list_spec(sv, ps@, id0).1 <= u32::MAX,
        decreases cs.len() - i,
    {
        assert(decreases_to!(cs => cs@[i as int]));
        proof {
            lemma_styled_index(cs@, i as int);
            assert(sv.take(i + 1).drop_last() =~= sv.take(i as int));
            assert(sv.take(i + 1).last() == styled_view(cs@[i as int]));
            lemma_classify_list_prefix(sv, ps@, id0, i + 1);
        }
        let l = classify(&cs[i], ps, ids);
        match l {
            Some(x) => {
                proof {
                    lemma_levels_push(out@, x);
                }
                out.push(x);
            },
            None => {},
        }
        i += 1;
    }
    proof {
        assert(sv.take(i as int) =~= sv);
    }
    out
}

/// The formatting context of a flow: a block context (inline runs wrapped)
/// when any child is block-level, else a lines context.
fn flow(cs: &Vec<StyledNode>, ps: &ComputedStyle, ids: &mut Ids) -> (res: BoxKind)
    requires
        flow_spec(styled_nodes_view(cs@), ps@, old(ids).next as nat).1 <= u32::MAX,
    ensures
        (kind_view(res), final(ids).next as nat) == flow_spec(
            styled_nodes_view(cs@),
            ps@,
            old(ids).next as nat,
        ),
    decreases cs, 2nat,
{
    let ghost sv = styled_nodes_view(cs@);
    let ghost id0 = ids.next as nat;
    proof {
        lemma_classify_list_mono(sv, ps@, id0);
        let (lv, i1) = classify_list_spec(sv, ps@, id0);
        lemma_wrap_fold_mono(lv, ps@, i1);
    }
    let levels = classify_list(cs, ps, ids);
    let mut has_block = false;
    let mut j: usize = 0;
    while j < levels.len()
        invariant
            j <= levels@.len(),
            has_block == exists|k: int| 0 <= k < j && #[trigger] levels_view(levels@)[k] is Block,
        decreases levels.len() - j,
    {
        assert(levels_view(levels@)[j as int] == level_view(levels@[j as int]));
        if matches!(levels[j], Level::Block(_)) {
            has_block = true;
        }
        j += 1;
    }
    if has_block {
        BoxKind::Block(wrap_runs(levels, ps, ids))
    } else {
        BoxKind::Lines(inline_items_of(levels))
    }
}

/// Build the box tree of a document flow: an anonymous root block (id 0)
/// whose formatting context is the top-level flow. Node ids are `u32`, so the
/// tree's boxes and items must number at most `u32::MAX`.
pub fn build_box_tree(styled: &Vec<StyledNode>) -> (res: LayoutBox)
    requires
        box_tree_spec(styled_nodes_view(styled@)).1 <= u32::MAX,
    ensures
        box_view(res) == box_tree_spec(styled_nodes_view(styled@)).0,
{
    let mut ids = Ids { next: 0 };
    let node_id = ids.next_id();
    let style = ComputedStyle::new();
    let kind = flow(styled, &style, &mut ids);
    let attrs: Vec<Attr> = Vec::new();
    proof {
        assert(attrs_view(attrs@) =~= Seq::<AttrView>::empty());
    }
    LayoutBox {
        node_id,
        style,
        attrs,
        display: Display::Block,
        kind,
        image: None,
        ua_role: Some(UaRole::Group),
        ua_alt: None,
    }
}

} // verus!
