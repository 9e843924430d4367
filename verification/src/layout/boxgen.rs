//! Box-generation decisions read straight off a styled element: node-id
//! allocation, which directives flow inline, where an element's image comes
//! from, and the tagged-PDF structure role and alternate text of an element.
use vstd::prelude::*;
use crate::chars::{chars_eq, chars_of, eq_str, has_prefix, has_suffix, copy_range, starts_with, ends_with, trim, trim_chars};
use crate::layout::fragment::{NodeId, UaRole};
use crate::layout::value::{trim_quotes, trim_quotes_x};
use crate::node::{attrs_view, Attr, AttrView, TKind, Tag, TagView};
use crate::numbers::{parse_unsigned, parse_unsigned_spec};
use crate::style::cascade::{map_get, StyledElement};

verus! {

/// A counter handing out fresh node ids.
pub struct Ids {
    pub next: u32,
}

impl Ids {
    /// The next id; the counter moves past it.
    pub fn next_id(&mut self) -> (res: NodeId)
        requires
            old(self).next < u32::MAX,
        ensures
            res.0 == old(self).next,
            final(self).next == old(self).next + 1,
    {
        let id = NodeId(self.next);
        self.next = self.next + 1;
        id
    }
}

/// The `t:` directives that sit inline within text flow.
pub open spec fn is_inline_directive(kind: TKind) -> bool {
    kind == TKind::Footnote || kind == TKind::Page || kind == TKind::Pages || kind
        == TKind::Counter || kind == TKind::Leader || kind == TKind::Anchor
}

/// Whether a directive sits inline within text flow (vs. block-level).
pub fn inline_directive(kind: TKind) -> (res: bool)
    ensures
        res == is_inline_directive(kind),
{
    match kind {
        TKind::Footnote | TKind::Page | TKind::Pages | TKind::Counter | TKind::Leader
        | TKind::Anchor => true,
        _ => false,
    }
}

/// Whether an element is a `t:` directive.
pub fn is_directive(el: &StyledElement) -> (res: bool)
    ensures
        res == (el.tag is Directive),
{
    match &el.tag {
        Tag::Directive(_) => true,
        _ => false,
    }
}

/// The value of the first attribute named `name`.
pub open spec fn attr_first(attrs: Seq<AttrView>, name: Seq<char>) -> Option<Seq<char>>
    decreases attrs.len(),
{
    if attrs.len() == 0 {
        None
    } else if attrs[0].name == name {
        Some(attrs[0].value)
    } else {
        attr_first(attrs.drop_first(), name)
    }
}

/// The value of the first attribute named `name`.
pub open spec fn attr_value_spec(attrs: Seq<Attr>, name: Seq<char>) -> Option<Seq<char>> {
    attr_first(attrs_view(attrs), name)
}

/// The value of the named attribute in `attrs`, if present.
pub fn attr_value<'a>(attrs: &'a [Attr], name: &str) -> (res: Option<&'a str>)
    ensures
        match res {
            Some(v) => attr_value_spec(attrs@, name@) == Some(v@),
            None => attr_value_spec(attrs@, name@) is None,
        },
{
    let n = chars_of(name);
    let ghost av = attrs_view(attrs@);
    let mut i: usize = 0;
    assert(av.skip(0) =~= av);
    while i < attrs.len()
        invariant
            i <= attrs@.len(),
            n@ == name@,
            av == attrs_view(attrs@),
            av.len() == attrs@.len(),
            attr_first(av, name@) == attr_first(av.skip(i as int), name@),
        decreases attrs.len() - i,
    {
        let ghost rest = av.skip(i as int);
        assert(rest[0] == attrs@[i as int]@);
        assert(rest.drop_first() =~= av.skip(i + 1));
        let an = chars_of(attrs[i].name.as_str());
        if chars_eq(an.as_slice(), n.as_slice()) {
            return Some(attrs[i].value.as_str());
        }
        i += 1;
    }
    assert(av.skip(i as int).len() == 0);
    None
}

/// The `src` of an `<img>` (`None` for any other tag).
pub open spec fn img_src_v(tag: TagView, attrs: Seq<AttrView>) -> Option<Seq<char>> {
    match tag {
        TagView::Html(name) => if name == "img"@ {
            attr_first(attrs, "src"@)
        } else {
            None
        },
        _ => None,
    }
}

/// The `src` of an `<img>` element (`None` for any other tag).
pub open spec fn img_src_spec(el: StyledElement) -> Option<Seq<char>> {
    img_src_v(el.tag@, attrs_view(el.attrs@))
}

/// The `src` of an `<img>` element, or `None` for any other tag.
pub fn img_src(el: &StyledElement) -> (res: Option<&str>)
    ensures
        match res {
            Some(v) => img_src_spec(*el) == Some(v@),
            None => img_src_spec(*el) is None,
        },
{
    match &el.tag {
        Tag::Html(name) => {
            let n = chars_of(name.as_str());
            if eq_str(n.as_slice(), "img") {
                attr_value(el.attrs.as_slice(), "src")
            } else {
                None
            }
        },
        _ => None,
    }
}

/// The url of a `background-image: url(...)` value: trimmed, unwrapped,
/// trimmed, unquoted and trimmed again; `None` when it is not of that shape or
/// names nothing.
pub open spec fn url_of(value: Seq<char>) -> Option<Seq<char>> {
    let v = trim(value);
    let k = "url("@.len() as int;
    if starts_with(v, "url("@) && ends_with(v.skip(k), seq![')']) {
        let inner = v.skip(k).drop_last();
        let name = trim(trim_quotes(trim(inner)));
        if name.len() > 0 {
            Some(name)
        } else {
            None
        }
    } else {
        None
    }
}

/// The background image a style names, if any.
pub open spec fn background_image_spec(style: Seq<(Seq<char>, Seq<char>)>) -> Option<Seq<char>> {
    match map_get(style, "background-image"@) {
        Some(v) => url_of(v),
        None => None,
    }
}

/// The url of a `background-image: url(...)` declaration, or `None`. A
/// `background-image: none` (or unparsable value) yields `None`.
pub fn background_image(style: &crate::style::cascade::ComputedStyle) -> (res: Option<String>)
    ensures
        match res {
            Some(v) => background_image_spec(style@) == Some(v@),
            None => background_image_spec(style@) is None,
        },
{
    let raw = match style.get("background-image") {
        Some(r) => r,
        None => return None,
    };
    let rc = chars_of(raw);
    let v = trim_chars(rc.as_slice());
    let url = chars_of("url(");
    if !has_prefix(v.as_slice(), url.as_slice()) {
        return None;
    }
    let rest = copy_range(v.as_slice(), url.len(), v.len());
    assert(rest@ =~= v@.skip(url@.len() as int));
    let close: Vec<char> = vec![')'];
    assert(close@ =~= seq![')']);
    if !has_suffix(rest.as_slice(), close.as_slice()) {
        return None;
    }
    let inner = copy_range(rest.as_slice(), 0, rest.len() - 1);
    assert(inner@ =~= rest@.drop_last());
    let t1 = trim_chars(inner.as_slice());
    let t2 = trim_quotes_x(t1.as_slice());
    let name = trim_chars(t2.as_slice());
    if name.len() > 0 {
        Some(crate::chars::string_of(name.as_slice()))
    } else {
        None
    }
}

/// Where an element's image comes from: the resolver key, and whether it is a
/// replaced `<img>` (vs. a background image).
#[derive(Debug, Clone, PartialEq, Eq)]
pub struct ImageSource {
    pub name: String,
    pub replaced: bool,
}

/// An element's image: its `<img src>` if it has one, else its background
/// image.
pub fn image_of(el: &StyledElement) -> (res: Option<ImageSource>)
    ensures
        match img_src_spec(*el) {
            Some(s) => res matches Some(r) && r.name@ == s && r.replaced,
            None => match background_image_spec(el.style@) {
                Some(b) => res matches Some(r) && r.name@ == b && !r.replaced,
                None => res is None,
            },
        },
{
    if let Some(src) = img_src(el) {
        return Some(ImageSource { name: src.to_string(), replaced: true });
    }
    match background_image(&el.style) {
        Some(name) => Some(ImageSource { name, replaced: false }),
        None => None,
    }
}

// ---------------------------------------------------------------------------
// Tagged-PDF roles
// ---------------------------------------------------------------------------
/// The 1-based heading level of `h1`..`h6`: an `h` followed by what parses as
/// an unsigned byte between 1 and 6.
pub open spec fn heading_level_spec(name: Seq<char>) -> Option<u8> {
    if name.len() > 0 && name[0] == 'h' {
        match parse_unsigned_spec(name.drop_first(), 255) {
            Some(v) => if 1 <= v <= 6 {
                Some(v as u8)
            } else {
                None
            },
            None => None,
        }
    } else {
        None
    }
}

/// The 1-based heading level of `h1`..`h6`, or `None`.
pub fn heading_level(name: &str) -> (res: Option<u8>)
    ensures
        res == heading_level_spec(name@),
{
    let n = chars_of(name);
    if n.len() == 0 || n[0] != 'h' {
        return None;
    }
    let rest = copy_range(n.as_slice(), 1, n.len());
    assert(rest@ =~= name@.drop_first());
    match parse_unsigned(rest.as_slice(), 255) {
        Some(v) => if 1 <= v && v <= 6 {
            Some(v as u8)
        } else {
            None
        },
        None => None,
    }
}

/// The structure role of a lowercase HTML tag name.
pub open spec fn role_for_tag_spec(name: Seq<char>) -> Option<UaRole> {
    match heading_level_spec(name) {
        Some(l) => Some(UaRole::Heading(l)),
        None => if name == "p"@ {
            Some(UaRole::Paragraph)
        } else if name == "ul"@ || name == "ol"@ {
            Some(UaRole::List)
        } else if name == "li"@ {
            Some(UaRole::ListItem)
        } else if name == "table"@ {
            Some(UaRole::Table)
        } else if name == "tr"@ {
            Some(UaRole::TableRow)
        } else if name == "th"@ {
            Some(UaRole::TableHeader)
        } else if name == "td"@ {
            Some(UaRole::TableData)
        } else if name == "img"@ {
            Some(UaRole::Figure)
        } else if name == "span"@ || name == "a"@ || name == "em"@ || name == "strong"@ || name
            == "b"@ || name == "i"@ {
            Some(UaRole::Span)
        } else if name == "div"@ || name == "section"@ || name == "article"@ || name
            == "header"@ || name == "footer"@ || name == "main"@ || name == "nav"@ || name
            == "aside"@ {
            Some(UaRole::Group)
        } else {
            None
        },
    }
}

/// Map a lowercase HTML tag name to its structure role.
pub fn role_for_tag(name: &str) -> (res: Option<UaRole>)
    ensures
        res == role_for_tag_spec(name@),
{
    if let Some(level) = heading_level(name) {
        return Some(UaRole::Heading(level));
    }
    let n = chars_of(name);
    let s = n.as_slice();
    if eq_str(s, "p") {
        Some(UaRole::Paragraph)
    } else if eq_str(s, "ul") || eq_str(s, "ol") {
        Some(UaRole::List)
    } else if eq_str(s, "li") {
        Some(UaRole::ListItem)
    } else if eq_str(s, "table") {
        Some(UaRole::Table)
    } else if eq_str(s, "tr") {
        Some(UaRole::TableRow)
    } else if eq_str(s, "th") {
        Some(UaRole::TableHeader)
    } else if eq_str(s, "td") {
        Some(UaRole::TableData)
    } else if eq_str(s, "img") {
        Some(UaRole::Figure)
    } else if eq_str(s, "span") || eq_str(s, "a") || eq_str(s, "em") || eq_str(s, "strong")
        || eq_str(s, "b") || eq_str(s, "i") {
        Some(UaRole::Span)
    } else if eq_str(s, "div") || eq_str(s, "section") || eq_str(s, "article") || eq_str(
        s,
        "header",
    ) || eq_str(s, "footer") || eq_str(s, "main") || eq_str(s, "nav") || eq_str(s, "aside") {
        Some(UaRole::Group)
    } else {
        None
    }
}

/// The structure role of a styled element: by its HTML tag; directives are
/// transparent to tagging.
pub fn role_of(el: &StyledElement) -> (res: Option<UaRole>)
    ensures
        res == match el.tag {
            Tag::Html(name) => role_for_tag_spec(name@),
            _ => None,
        },
{
    match &el.tag {
        Tag::Html(name) => role_for_tag(name.as_str()),
        _ => None,
    }
}

/// The `alt` attribute value of a styled element, if present.
pub fn alt_attr(el: &StyledElement) -> (res: Option<&str>)
    ensures
        match res {
            Some(v) => attr_value_spec(el.attrs@, "alt"@) == Some(v@),
            None => attr_value_spec(el.attrs@, "alt"@) is None,
        },
{
    attr_value(el.attrs.as_slice(), "alt")
}

/// The alternate text of an `<img>`: its `alt`, empty when absent; `None` for
/// any other element.
pub fn alt_of(el: &StyledElement) -> (res: Option<String>)
    ensures
        match el.tag {
            Tag::Html(name) => if name@ == "img"@ {
                res matches Some(t) && t@ == match attr_value_spec(el.attrs@, "alt"@) {
                    Some(a) => a,
                    None => Seq::<char>::empty(),
                }
            } else {
                res is None
            },
            _ => res is None,
        },
{
    match &el.tag {
        Tag::Html(name) => {
            let n = chars_of(name.as_str());
            if eq_str(n.as_slice(), "img") {
                match alt_attr(el) {
                    Some(a) => Some(a.to_string()),
                    None => Some(String::new()),
                }
            } else {
                None
            }
        },
        _ => None,
    }
}

} // verus!
