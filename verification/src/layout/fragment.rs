//! The plain-value parts of the galley, layout's output: the source node id a
//! fragment carries, its tagged-PDF structure role, table repeat kinds, image
//! placements and the break hints the fragmenter reads.
use vstd::prelude::*;
use crate::layout::value::BreakRule;

verus! {

/// A stable identifier round-tripping a fragment to its source template node.
#[derive(Debug, Clone, Copy, PartialEq, Eq, Hash, Structural)]
pub struct NodeId(pub u32);

impl Default for NodeId {
    fn default() -> (res: NodeId)
        ensures
            res.0 == 0,
    {
        NodeId(0)
    }
}

/// A tagged-PDF structure role carried from the semantic HTML tag down to the
/// fragment, for the structure tree.
#[derive(Debug, Clone, Copy, PartialEq, Eq, Structural)]
pub enum UaRole {
    /// A structural container with no own marked content (`<div>`, `<section>`).
    Group,
    /// `<h1>`..`<h6>`, by 1-based level.
    Heading(u8),
    /// A paragraph (`<p>` and block text).
    Paragraph,
    /// A list (`<ul>`/`<ol>`).
    List,
    /// A list item (`<li>`).
    ListItem,
    /// A list item's body (the content of an `<li>`).
    ListBody,
    /// A table (`<table>`).
    Table,
    /// A table row (`<tr>`).
    TableRow,
    /// A table header cell (`<th>`).
    TableHeader,
    /// A table data cell (`<td>`).
    TableData,
    /// A figure (`<img>`); carries `/Alt` from the `alt` attribute.
    Figure,
    /// A run of inline text (`<span>`, `<a>`, anonymous inline boxes).
    Span,
    /// Page decoration to be skipped by assistive tech (`/Artifact`).
    Artifact,
}

/// A repeatable table part: re-emitted atop each page a table spans.
#[derive(Debug, Clone, Copy, PartialEq, Eq, Structural)]
pub enum RepeatKind {
    Header,
    Footer,
}

/// A placed raster image: the resolver key plus its intrinsic pixel size and
/// alpha flag.
#[derive(Debug, Clone, PartialEq, Eq)]
pub struct ImagePlacement {
    /// The image name passed to the image resolver (the `<img>` `src` or the
    /// `background-image` `url(...)`).
    pub name: String,
    /// Intrinsic width in source pixels.
    pub intrinsic_w: u32,
    /// Intrinsic height in source pixels.
    pub intrinsic_h: u32,
    /// Whether the source had transparency (drives soft-mask emission).
    pub has_alpha: bool,
}

/// Break hints attached to a fragment, consumed by the fragmenter.
#[derive(Debug, Clone, PartialEq, Eq)]
pub struct BreakMeta {
    pub break_before: BreakRule,
    pub break_after: BreakRule,
    pub break_inside_avoid: bool,
    pub orphans: u8,
    pub widows: u8,
    pub repeatable: Option<RepeatKind>,
    /// Indices into the document's footnote list owned by this fragment: the
    /// footnote markers it carries, in document order.
    pub footnotes: Vec<usize>,
}

impl Default for BreakMeta {
    /// No forced or avoided breaks, two orphans and two widows, not
    /// repeatable, no footnotes.
    fn default() -> (res: BreakMeta)
        ensures
            res.break_before == BreakRule::Auto,
            res.break_after == BreakRule::Auto,
            !res.break_inside_avoid,
            res.orphans == 2,
            res.widows == 2,
            res.repeatable is None,
            res.footnotes@.len() == 0,
    {
        BreakMeta {
            break_before: BreakRule::Auto,
            break_after: BreakRule::Auto,
            break_inside_avoid: false,
            orphans: 2,
            widows: 2,
            repeatable: None,
            footnotes: Vec::new(),
        }
    }
}

/// Cross-reference data a fragment carries: an optional named destination it
/// defines and an optional internal-link target it activates.
#[derive(Debug, Clone, PartialEq, Eq)]
pub struct XrefMeta {
    /// The `name` of a `<t:anchor name>` positioned at this fragment.
    pub anchor: Option<String>,
    /// The bare destination name from an `<a href="#name">` whose box this is.
    pub link_href: Option<String>,
}

impl Default for XrefMeta {
    fn default() -> (res: XrefMeta)
        ensures
            res.anchor is None,
            res.link_href is None,
    {
        XrefMeta { anchor: None, link_href: None }
    }
}

} // verus!
