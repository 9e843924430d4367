//! Typed CSS value resolution: the cascade keeps values as raw strings; layout
//! needs typed keywords, colors and numbers.
use vstd::prelude::*;
use crate::chars::{chars_of, eq_str, split_char, split_on, string_of, texts_view, texts_view_s, trim, trim_chars};
use crate::style::cascade::{ComputedStyle, map_get};
use crate::text::inline::{Align, WhiteSpace};
use crate::numbers::{parse_unsigned, parse_unsigned_spec};


verus! {

/// CSS `display` (the supported subset).
#[derive(Debug, Clone, Copy, PartialEq, Eq, Structural)]
pub enum Display {
    Block,
    Inline,
    InlineBlock,
    Flex,
    /// `display: none`.
    NoDisplay,
    Table,
    TableRow,
    TableCell,
    TableHeaderGroup,
    TableFooterGroup,
    ListItem,
}

/// CSS `box-sizing`.
#[derive(Debug, Clone, Copy, PartialEq, Eq, Structural)]
pub enum BoxSizing {
    ContentBox,
    BorderBox,
}

impl Default for BoxSizing {
    fn default() -> (res: BoxSizing)
        ensures
            res == BoxSizing::ContentBox,
    {
        BoxSizing::ContentBox
    }
}

/// CSS `vertical-align` (the inline/table-cell subset).
#[derive(Debug, Clone, Copy, PartialEq, Eq, Structural)]
pub enum VAlign {
    Baseline,
    Sub,
    Super,
    Middle,
    Top,
    Bottom,
}

impl Default for VAlign {
    fn default() -> (res: VAlign)
        ensures
            res == VAlign::Baseline,
    {
        VAlign::Baseline
    }
}

/// CSS fragmentation rule (`break-before`/`break-after`/`break-inside`).
#[derive(Debug, Clone, Copy, PartialEq, Eq, Structural)]
pub enum BreakRule {
    Auto,
    Avoid,
    Page,
}

impl Default for BreakRule {
    fn default() -> (res: BreakRule)
        ensures
            res == BreakRule::Auto,
    {
        BreakRule::Auto
    }
}

/// An RGBA color, 8 bits per channel.
#[derive(Debug, Clone, Copy, PartialEq, Eq, Structural)]
pub struct Rgba {
    pub r: u8,
    pub g: u8,
    pub b: u8,
    pub a: u8,
}

impl Rgba {
    /// Opaque black.
    pub fn black() -> (res: Rgba)
        ensures
            res == (Rgba { r: 0, g: 0, b: 0, a: 255 }),
    {
        Rgba { r: 0, g: 0, b: 0, a: 255 }
    }

    /// The color with the given channels.
    pub fn new(r: u8, g: u8, b: u8, a: u8) -> (res: Rgba)
        ensures
            res == (Rgba { r, g, b, a }),
    {
        Rgba { r, g, b, a }
    }
}

/// One border side: width (px) and color.
#[derive(Debug, Clone, Copy, PartialEq, Eq, Structural)]
pub struct BorderSide {
    pub width: u16,
    pub color: Option<Rgba>,
}

impl Default for BorderSide {
    fn default() -> (res: BorderSide)
        ensures
            res == (BorderSide { width: 0, color: None }),
    {
        BorderSide { width: 0, color: None }
    }
}

/// The four border sides.
#[derive(Debug, Clone, Copy, PartialEq, Eq, Structural)]
pub struct BorderEdges {
    pub top: BorderSide,
    pub right: BorderSide,
    pub bottom: BorderSide,
    pub left: BorderSide,
}

impl Default for BorderEdges {
    fn default() -> (res: BorderEdges)
        ensures
            res.top.width == 0 && res.right.width == 0 && res.bottom.width == 0 && res.left.width == 0,
            res.top.color is None && res.right.color is None && res.bottom.color is None && res.left.color is None,
    {
        BorderEdges {
            top: BorderSide::default(),
            right: BorderSide::default(),
            bottom: BorderSide::default(),
            left: BorderSide::default(),
        }
    }
}

impl BorderEdges {
    /// Whether any side has a non-zero width, i.e. the border paints something.
    pub fn any_visible(&self) -> (res: bool)
        ensures
            res == (self.top.width > 0 || self.right.width > 0 || self.bottom.width > 0 || self.left.width > 0),
    {
        self.top.width > 0 || self.right.width > 0 || self.bottom.width > 0 || self.left.width > 0
    }
}

/// The trimmed value of `prop`, or `default` when unset.
pub open spec fn keyword(s: Seq<(Seq<char>, Seq<char>)>, prop: Seq<char>, default: Seq<char>) -> Seq<char> {
    match map_get(s, prop) {
        Some(v) => trim(v),
        None => trim(default),
    }
}

/// The trimmed value of `prop`, or `default` when unset.
fn keyword_of(s: &ComputedStyle, prop: &str, default: &str) -> (res: Vec<char>)
    ensures
        res@ == keyword(s@, prop@, default@),
{
    match s.get(prop) {
        Some(v) => trim_chars(chars_of(v).as_slice()),
        None => trim_chars(chars_of(default).as_slice()),
    }
}

/// The `display` a style resolves to (`block` when unset or unknown).
pub open spec fn display_spec(s: Seq<(Seq<char>, Seq<char>)>) -> Display {
    let k = keyword(s, "display"@, "block"@);
    if k == "inline"@ {
        Display::Inline
    } else if k == "inline-block"@ {
        Display::InlineBlock
    } else if k == "flex"@ {
        Display::Flex
    } else if k == "none"@ {
        Display::NoDisplay
    } else if k == "table"@ {
        Display::Table
    } else if k == "table-row"@ {
        Display::TableRow
    } else if k == "table-cell"@ {
        Display::TableCell
    } else if k == "table-header-group"@ {
        Display::TableHeaderGroup
    } else if k == "table-footer-group"@ {
        Display::TableFooterGroup
    } else if k == "list-item"@ {
        Display::ListItem
    } else {
        Display::Block
    }
}

/// The resolved `display` keyword (needed at box-generation time, before
/// widths are known).
pub fn display_of(s: &ComputedStyle) -> (res: Display)
    ensures
        res == display_spec(s@),
{
    let k = keyword_of(s, "display", "block");
    let t = k.as_slice();
    if eq_str(t, "inline") {
        Display::Inline
    } else if eq_str(t, "inline-block") {
        Display::InlineBlock
    } else if eq_str(t, "flex") {
        Display::Flex
    } else if eq_str(t, "none") {
        Display::NoDisplay
    } else if eq_str(t, "table") {
        Display::Table
    } else if eq_str(t, "table-row") {
        Display::TableRow
    } else if eq_str(t, "table-cell") {
        Display::TableCell
    } else if eq_str(t, "table-header-group") {
        Display::TableHeaderGroup
    } else if eq_str(t, "table-footer-group") {
        Display::TableFooterGroup
    } else if eq_str(t, "list-item") {
        Display::ListItem
    } else {
        Display::Block
    }
}

/// The `text-align` a style resolves to (`left` when unset or unknown).
pub open spec fn align_spec(s: Seq<(Seq<char>, Seq<char>)>) -> Align {
    let k = keyword(s, "text-align"@, "left"@);
    if k == "right"@ {
        Align::Right
    } else if k == "center"@ {
        Align::Center
    } else if k == "justify"@ {
        Align::Justify
    } else {
        Align::Left
    }
}

/// The resolved `text-align`.
pub fn align_of(s: &ComputedStyle) -> (res: Align)
    ensures
        res == align_spec(s@),
{
    let k = keyword_of(s, "text-align", "left");
    let t = k.as_slice();
    if eq_str(t, "right") {
        Align::Right
    } else if eq_str(t, "center") {
        Align::Center
    } else if eq_str(t, "justify") {
        Align::Justify
    } else {
        Align::Left
    }
}

/// The `white-space` a style resolves to (`normal` when unset or unknown).
pub open spec fn white_space_spec(s: Seq<(Seq<char>, Seq<char>)>) -> WhiteSpace {
    let k = keyword(s, "white-space"@, "normal"@);
    if k == "pre"@ {
        WhiteSpace::Pre
    } else if k == "nowrap"@ {
        WhiteSpace::NoWrap
    } else {
        WhiteSpace::Normal
    }
}

/// The resolved `white-space`.
pub fn white_space_of(s: &ComputedStyle) -> (res: WhiteSpace)
    ensures
        res == white_space_spec(s@),
{
    let k = keyword_of(s, "white-space", "normal");
    let t = k.as_slice();
    if eq_str(t, "pre") {
        WhiteSpace::Pre
    } else if eq_str(t, "nowrap") {
        WhiteSpace::NoWrap
    } else {
        WhiteSpace::Normal
    }
}

/// The `vertical-align` a style resolves to (`baseline` when unset or
/// unknown).
pub open spec fn vertical_align_spec(s: Seq<(Seq<char>, Seq<char>)>) -> VAlign {
    let k = keyword(s, "vertical-align"@, "baseline"@);
    if k == "sub"@ {
        VAlign::Sub
    } else if k == "super"@ {
        VAlign::Super
    } else if k == "middle"@ {
        VAlign::Middle
    } else if k == "top"@ {
        VAlign::Top
    } else if k == "bottom"@ {
        VAlign::Bottom
    } else {
        VAlign::Baseline
    }
}

/// The resolved `vertical-align`.
pub fn vertical_align_of(s: &ComputedStyle) -> (res: VAlign)
    ensures
        res == vertical_align_spec(s@),
{
    let k = keyword_of(s, "vertical-align", "baseline");
    let t = k.as_slice();
    if eq_str(t, "sub") {
        VAlign::Sub
    } else if eq_str(t, "super") {
        VAlign::Super
    } else if eq_str(t, "middle") {
        VAlign::Middle
    } else if eq_str(t, "top") {
        VAlign::Top
    } else if eq_str(t, "bottom") {
        VAlign::Bottom
    } else {
        VAlign::Baseline
    }
}

/// The fragmentation rule of `prop` (`auto` when unset or unknown; `column`
/// counts as `page`).
pub open spec fn break_rule_spec(s: Seq<(Seq<char>, Seq<char>)>, prop: Seq<char>) -> BreakRule {
    let k = keyword(s, prop, "auto"@);
    if k == "avoid"@ {
        BreakRule::Avoid
    } else if k == "page"@ || k == "column"@ {
        BreakRule::Page
    } else {
        BreakRule::Auto
    }
}

/// The resolved fragmentation rule of `prop`.
pub fn break_rule_of(s: &ComputedStyle, prop: &str) -> (res: BreakRule)
    ensures
        res == break_rule_spec(s@, prop@),
{
    let k = keyword_of(s, prop, "auto");
    let t = k.as_slice();
    if eq_str(t, "avoid") {
        BreakRule::Avoid
    } else if eq_str(t, "page") || eq_str(t, "column") {
        BreakRule::Page
    } else {
        BreakRule::Auto
    }
}

/// The `box-sizing` a style resolves to.
pub open spec fn box_sizing_spec(s: Seq<(Seq<char>, Seq<char>)>) -> BoxSizing {
    match map_get(s, "box-sizing"@) {
        Some(v) => if trim(v) == "border-box"@ {
            BoxSizing::BorderBox
        } else {
            BoxSizing::ContentBox
        },
        None => BoxSizing::ContentBox,
    }
}

/// The resolved `box-sizing`.
pub fn box_sizing_of(s: &ComputedStyle) -> (res: BoxSizing)
    ensures
        res == box_sizing_spec(s@),
{
    match s.get("box-sizing") {
        Some(v) => {
            let t = trim_chars(chars_of(v).as_slice());
            if eq_str(t.as_slice(), "border-box") {
                BoxSizing::BorderBox
            } else {
                BoxSizing::ContentBox
            }
        },
        None => BoxSizing::ContentBox,
    }
}

/// Whether `prop` is set to exactly `word` (trimmed).
pub open spec fn prop_is(s: Seq<(Seq<char>, Seq<char>)>, prop: Seq<char>, word: Seq<char>) -> bool {
    match map_get(s, prop) {
        Some(v) => trim(v) == word,
        None => false,
    }
}

/// Whether `prop` is set to exactly `word` (trimmed).
pub fn prop_is_x(s: &ComputedStyle, prop: &str, word: &str) -> (res: bool)
    ensures
        res == prop_is(s@, prop@, word@),
{
    match s.get(prop) {
        Some(v) => eq_str(trim_chars(chars_of(v).as_slice()).as_slice(), word),
        None => false,
    }
}


/// The `font-weight` a style resolves to: `normal` 400, `bold` 700, else the
/// number (400 when it is none).
pub open spec fn font_weight_spec(s: Seq<(Seq<char>, Seq<char>)>) -> u16 {
    let k = keyword(s, "font-weight"@, "normal"@);
    if k == "normal"@ {
        400
    } else if k == "bold"@ {
        700
    } else {
        match parse_unsigned_spec(k, 65535) {
            Some(v) => v as u16,
            None => 400,
        }
    }
}

/// The resolved `font-weight`.
pub fn font_weight(s: &ComputedStyle) -> (res: u16)
    ensures
        res == font_weight_spec(s@),
{
    let k = keyword_of(s, "font-weight", "normal");
    if eq_str(k.as_slice(), "normal") {
        400
    } else if eq_str(k.as_slice(), "bold") {
        700
    } else {
        match parse_unsigned(k.as_slice(), 65535) {
            Some(v) => v as u16,
            None => 400,
        }
    }
}

/// A small integer property (`orphans`, `widows`): the trimmed value read as
/// a `u8`, else `default`.
pub open spec fn int_prop_spec(s: Seq<(Seq<char>, Seq<char>)>, prop: Seq<char>, default: u8) -> u8 {
    match map_get(s, prop) {
        Some(v) => match parse_unsigned_spec(trim(v), 255) {
            Some(n) => n as u8,
            None => default,
        },
        None => default,
    }
}

/// The resolved small integer property.
pub fn int_prop(s: &ComputedStyle, prop: &str, default: u8) -> (res: u8)
    ensures
        res == int_prop_spec(s@, prop@, default),
{
    match s.get(prop) {
        Some(v) => match parse_unsigned(trim_chars(chars_of(v).as_slice()).as_slice(), 255) {
            Some(n) => n as u8,
            None => default,
        },
        None => default,
    }
}

/// A quote character.
pub open spec fn is_quote(c: char) -> bool {
    c == '"' || c == '\''
}

/// `s` without leading and trailing quote characters.
pub open spec fn trim_quotes(s: Seq<char>) -> Seq<char>
    decreases s.len(),
{
    if s.len() > 0 && is_quote(s[0]) {
        trim_quotes(s.drop_first())
    } else if s.len() > 0 && is_quote(s.last()) {
        trim_quotes(s.drop_last())
    } else {
        s
    }
}

/// The family names of a list of `font-family` pieces: each trimmed and
/// unquoted, the empty ones dropped.
pub open spec fn families_of(pieces: Seq<Seq<char>>) -> Seq<Seq<char>>
    decreases pieces.len(),
{
    if pieces.len() == 0 {
        Seq::empty()
    } else {
        let f = trim_quotes(trim(pieces.last()));
        families_of(pieces.drop_last()) + if f.len() > 0 {
            seq![f]
        } else {
            Seq::empty()
        }
    }
}

/// The `font-family` list a style resolves to.
pub open spec fn font_families_spec(s: Seq<(Seq<char>, Seq<char>)>) -> Seq<Seq<char>> {
    match map_get(s, "font-family"@) {
        Some(v) => families_of(split_on(v, ',')),
        None => Seq::empty(),
    }
}

pub(crate) fn trim_quotes_x(s: &[char]) -> (res: Vec<char>)
    ensures
        res@ == trim_quotes(s@),
{
    let n = s.len();
    let mut a: usize = 0;
    let mut b: usize = n;
    assert(s@.subrange(0, n as int) =~= s@);
    while a < b && (s[a] == '"' || s[a] == '\'' || s[b - 1] == '"' || s[b - 1] == '\'')
        invariant
            a <= b <= n,
            n == s@.len(),
            trim_quotes(s@) == trim_quotes(s@.subrange(a as int, b as int)),
        decreases b - a,
    {
        if s[a] == '"' || s[a] == '\'' {
            assert(s@.subrange(a as int, b as int).drop_first() =~= s@.subrange(a + 1, b as int));
            a += 1;
        } else {
            assert(s@.subrange(a as int, b as int).drop_last() =~= s@.subrange(a as int, b - 1));
            b -= 1;
        }
    }
    crate::chars::copy_range(s, a, b)
}

/// The resolved `font-family` list.
pub fn font_families(s: &ComputedStyle) -> (res: Vec<String>)
    ensures
        texts_view_s(res@) == font_families_spec(s@),
{
    let mut out: Vec<String> = Vec::new();
    assert(texts_view_s(out@) =~= Seq::<Seq<char>>::empty());
    match s.get("font-family") {
        Some(v) => {
            let pieces = split_char(chars_of(v).as_slice(), ',');
            let ghost pv = texts_view(pieces@);
            let mut i: usize = 0;
            assert(pv.take(0) =~= Seq::<Seq<char>>::empty());
            while i < pieces.len()
                invariant
                    i <= pieces@.len(),
                    pv == texts_view(pieces@),
                    texts_view_s(out@) == families_of(pv.take(i as int)),
                decreases pieces@.len() - i,
            {
                assert(pv.take(i + 1).drop_last() =~= pv.take(i as int));
                assert(pv.take(i + 1).last() == pieces@[i as int]@);
                let f = trim_quotes_x(trim_chars(pieces[i].as_slice()).as_slice());
                let ghost o0 = texts_view_s(out@);
                if f.len() > 0 {
                    let st = string_of(f.as_slice());
                    out.push(st);
                    assert(texts_view_s(out@) =~= o0 + seq![st@]);
                } else {
                    assert(texts_view_s(out@) =~= o0 + Seq::<Seq<char>>::empty());
                }
                i += 1;
            }
            assert(pv.take(i as int) =~= pv);
        },
        None => {},
    }
    out
}

/// One of the named colors.
pub open spec fn named_color_spec(name: Seq<char>) -> Option<Rgba> {
    if name == "black"@ {
        Some(Rgba { r: 0, g: 0, b: 0, a: 255 })
    } else if name == "white"@ {
        Some(Rgba { r: 255, g: 255, b: 255, a: 255 })
    } else if name == "red"@ {
        Some(Rgba { r: 255, g: 0, b: 0, a: 255 })
    } else if name == "green"@ {
        Some(Rgba { r: 0, g: 128, b: 0, a: 255 })
    } else if name == "blue"@ {
        Some(Rgba { r: 0, g: 0, b: 255, a: 255 })
    } else if name == "gray"@ || name == "grey"@ {
        Some(Rgba { r: 128, g: 128, b: 128, a: 255 })
    } else if name == "transparent"@ {
        Some(Rgba { r: 0, g: 0, b: 0, a: 0 })
    } else {
        None
    }
}

/// The named color `name` (exact, lowercase), if it is one.
pub fn named_color(name: &str) -> (res: Option<Rgba>)
    ensures
        res == named_color_spec(name@),
{
    let n = chars_of(name);
    let t = n.as_slice();
    if eq_str(t, "black") {
        Some(Rgba::new(0, 0, 0, 255))
    } else if eq_str(t, "white") {
        Some(Rgba::new(255, 255, 255, 255))
    } else if eq_str(t, "red") {
        Some(Rgba::new(255, 0, 0, 255))
    } else if eq_str(t, "green") {
        Some(Rgba::new(0, 128, 0, 255))
    } else if eq_str(t, "blue") {
        Some(Rgba::new(0, 0, 255, 255))
    } else if eq_str(t, "gray") || eq_str(t, "grey") {
        Some(Rgba::new(128, 128, 128, 255))
    } else if eq_str(t, "transparent") {
        Some(Rgba::new(0, 0, 0, 0))
    } else {
        None
    }
}

/// The value of a hexadecimal digit byte.
pub open spec fn hex_val(x: u8) -> Option<u8> {
    if 48 <= x <= 57 {
        Some((x - 48) as u8)
    } else if 97 <= x <= 102 {
        Some((x - 87) as u8)
    } else if 65 <= x <= 70 {
        Some((x - 55) as u8)
    } else {
        None
    }
}

/// What `u8::from_str_radix(_, 16)` gives for the one- or two-byte text `p`:
/// an optional `+` before the digits, every digit hexadecimal.
pub open spec fn hex_byte_spec(p: Seq<u8>) -> Option<u8> {
    let d = if p.len() > 1 && p[0] == 43 {
        p.drop_first()
    } else {
        p
    };
    if d.len() == 1 {
        hex_val(d[0])
    } else if d.len() == 2 {
        match (hex_val(d[0]), hex_val(d[1])) {
            (Some(h), Some(l)) => Some((h * 16 + l) as u8),
            _ => None,
        }
    } else {
        None
    }
}

/// Whether index `i` of the UTF-8 text `b` starts a character (or ends it).
pub open spec fn boundary(b: Seq<u8>, i: int) -> bool {
    i == b.len() || (0 <= i < b.len() && !(0x80 <= b[i] && b[i] < 0xC0))
}

/// The color a hex body gives, and whether reading it slices the text
/// inside a character (the outer `None`): three digits doubled, six, or eight
/// with alpha; any other length is no color. The slices are taken in order,
/// and a digit pair that fails stops the reading.
pub open spec fn parse_hex_spec(b: Seq<u8>) -> Option<Option<Rgba>> {
    if b.len() == 3 {
        if !boundary(b, 1) {
            None
        } else {
            match hex_byte_spec(seq![b[0], b[0]]) {
                None => Some(None),
                Some(r) => if !boundary(b, 2) {
                    None
                } else {
                    match hex_byte_spec(seq![b[1], b[1]]) {
                        None => Some(None),
                        Some(g) => match hex_byte_spec(seq![b[2], b[2]]) {
                            None => Some(None),
                            Some(bl) => Some(Some(Rgba { r, g, b: bl, a: 255 })),
                        },
                    }
                },
            }
        }
    } else if b.len() == 6 || b.len() == 8 {
        if b.len() == 8 && !boundary(b, 6) {
            None
        } else if !boundary(b, 2) {
            None
        } else {
            match hex_byte_spec(b.subrange(0, 2)) {
                None => Some(None),
                Some(r) => if !boundary(b, 4) {
                    None
                } else {
                    match hex_byte_spec(b.subrange(2, 4)) {
                        None => Some(None),
                        Some(g) => match hex_byte_spec(b.subrange(4, 6)) {
                            None => Some(None),
                            Some(bl) => if b.len() == 6 {
                                Some(Some(Rgba { r, g, b: bl, a: 255 }))
                            } else {
                                match hex_byte_spec(b.subrange(6, 8)) {
                                    None => Some(None),
                                    Some(a) => Some(Some(Rgba { r, g, b: bl, a })),
                                }
                            },
                        },
                    }
                },
            }
        }
    } else {
        Some(None)
    }
}

fn hex_val_x(x: u8) -> (res: Option<u8>)
    ensures
        res == hex_val(x),
{
    if 48 <= x && x <= 57 {
        Some(x - 48)
    } else if 97 <= x && x <= 102 {
        Some(x - 87)
    } else if 65 <= x && x <= 70 {
        Some(x - 55)
    } else {
        None
    }
}

fn hex_byte(p: &[u8]) -> (res: Option<u8>)
    ensures
        res == hex_byte_spec(p@),
{
    let n = p.len();
    let (start, len): (usize, usize) = if n > 1 && p[0] == 43 {
        (1, n - 1)
    } else {
        (0, n)
    };
    let ghost d = if p@.len() > 1 && p@[0] == 43 {
        p@.drop_first()
    } else {
        p@
    };
    assert(d.len() == len);
    if len == 1 {
        assert(d[0] == p@[start as int]);
        hex_val_x(p[start])
    } else if len == 2 {
        assert(d[0] == p@[start as int]);
        assert(d[1] == p@[start + 1]);
        match (hex_val_x(p[start]), hex_val_x(p[start + 1])) {
            (Some(h), Some(l)) => Some(h * 16 + l),
            _ => None,
        }
    } else {
        None
    }
}

fn is_boundary(b: &[u8], i: usize) -> (res: bool)
    ensures
        res == boundary(b@, i as int),
{
    i == b.len() || (i < b.len() && !(0x80 <= b[i] && b[i] < 0xC0))
}

fn parse_hex_bytes(b: &[u8]) -> (res: Option<Option<Rgba>>)
    ensures
        res == parse_hex_spec(b@),
{
    let n = b.len();
    if n == 3 {
        if !is_boundary(b, 1) {
            return None;
        }
        let p0: [u8; 2] = [b[0], b[0]];
        assert(p0@ =~= seq![b@[0], b@[0]]);
        let r = match hex_byte(&p0) {
            None => return Some(None),
            Some(v) => v,
        };
        if !is_boundary(b, 2) {
            return None;
        }
        let p1: [u8; 2] = [b[1], b[1]];
        assert(p1@ =~= seq![b@[1], b@[1]]);
        let g = match hex_byte(&p1) {
            None => return Some(None),
            Some(v) => v,
        };
        let p2: [u8; 2] = [b[2], b[2]];
        assert(p2@ =~= seq![b@[2], b@[2]]);
        let bl = match hex_byte(&p2) {
            None => return Some(None),
            Some(v) => v,
        };
        Some(Some(Rgba { r, g, b: bl, a: 255 }))
    } else if n == 6 || n == 8 {
        if n == 8 && !is_boundary(b, 6) {
            return None;
        }
        if !is_boundary(b, 2) {
            return None;
        }
        let r = match hex_byte(&b[0..2]) {
            None => return Some(None),
            Some(v) => v,
        };
        if !is_boundary(b, 4) {
            return None;
        }
        let g = match hex_byte(&b[2..4]) {
            None => return Some(None),
            Some(v) => v,
        };
        let bl = match hex_byte(&b[4..6]) {
            None => return Some(None),
            Some(v) => v,
        };
        if n == 6 {
            return Some(Some(Rgba { r, g, b: bl, a: 255 }));
        }
        match hex_byte(&b[6..8]) {
            None => Some(None),
            Some(a) => Some(Some(Rgba { r, g, b: bl, a })),
        }
    } else {
        Some(None)
    }
}

/// The color a hex body (what follows `#`) gives: three digits doubled, six,
/// or eight with alpha; `None` for anything else, a body whose reading would
/// split a character included.
pub open spec fn hex_color_spec(b: Seq<u8>) -> Option<Rgba> {
    match parse_hex_spec(b) {
        Some(c) => c,
        None => None,
    }
}

/// The color a hex body (what follows `#`) gives: three digits doubled, six,
/// or eight with alpha; `None` for anything else.
pub fn parse_hex_color(hex: &str) -> (res: Option<Rgba>)
    ensures
        res == hex_color_spec(vstd::utf8::encode_utf8(hex@)),
{
    let b = hex.as_bytes();
    match parse_hex_bytes(b) {
        Some(c) => c,
        None => None,
    }
}

} // verus!
