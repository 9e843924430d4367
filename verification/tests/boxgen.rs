use turbo_html2pdf_core::layout::boxgen::{
    alt_attr, alt_of, attr_value, background_image, heading_level, image_of, img_src,
    inline_directive, is_directive, role_for_tag, role_of, Ids,
};
use turbo_html2pdf_core::layout::block::auto_x_margins;
use turbo_html2pdf_core::layout::fragment::{BreakMeta, NodeId, UaRole, XrefMeta};
use turbo_html2pdf_core::layout::value::BreakRule;
use turbo_html2pdf_core::node::{Attr, TKind, Tag};
use turbo_html2pdf_core::style::cascade::{ComputedStyle, StyledElement};

fn attr(n: &str, v: &str) -> Attr {
    Attr { name: n.to_string(), value: v.to_string() }
}

fn el(tag: Tag, attrs: Vec<Attr>, style: Vec<(&str, &str)>) -> StyledElement {
    StyledElement {
        tag,
        attrs,
        style: ComputedStyle::from_pairs(
            style.into_iter().map(|(k, v)| (k.to_string(), v.to_string())).collect(),
        ),
        children: Vec::new(),
    }
}

#[test]
fn ids_count_up() {
    let mut ids = Ids { next: 7 };
    assert_eq!(ids.next_id(), NodeId(7));
    assert_eq!(ids.next_id(), NodeId(8));
    assert_eq!(NodeId::default(), NodeId(0));
}

#[test]
fn inline_directives() {
    assert!(inline_directive(TKind::Footnote));
    assert!(inline_directive(TKind::Anchor));
    assert!(!inline_directive(TKind::Endnotes));
    assert!(!inline_directive(TKind::RunningHeader));
    assert!(is_directive(&el(Tag::Directive(TKind::Page), vec![], vec![])));
    assert!(!is_directive(&el(Tag::Html("p".into()), vec![], vec![])));
}

#[test]
fn first_matching_attribute_wins() {
    let attrs = vec![attr("src", "a.png"), attr("src", "b.png"), attr("alt", "")];
    assert_eq!(attr_value(&attrs, "src"), Some("a.png"));
    assert_eq!(attr_value(&attrs, "alt"), Some(""));
    assert_eq!(attr_value(&attrs, "title"), None);
}

#[test]
fn images_come_from_src_then_background() {
    let img = el(Tag::Html("img".into()), vec![attr("src", "logo.png")], vec![]);
    assert_eq!(img_src(&img), Some("logo.png"));
    let i = image_of(&img).unwrap();
    assert_eq!((i.name.as_str(), i.replaced), ("logo.png", true));
    let div = el(
        Tag::Html("div".into()),
        vec![attr("src", "ignored.png")],
        vec![("background-image", "  url( 'bg.jpg' ) ")],
    );
    assert_eq!(img_src(&div), None);
    let b = image_of(&div).unwrap();
    assert_eq!((b.name.as_str(), b.replaced), ("bg.jpg", false));
    let none = el(Tag::Html("div".into()), vec![], vec![("background-image", "none")]);
    assert!(image_of(&none).is_none());
    assert!(background_image(&none.style).is_none());
    let empty = el(Tag::Html("div".into()), vec![], vec![("background-image", "url(\"\")")]);
    assert!(background_image(&empty.style).is_none());
}

#[test]
fn heading_levels() {
    assert_eq!(heading_level("h1"), Some(1));
    assert_eq!(heading_level("h6"), Some(6));
    assert_eq!(heading_level("h7"), None);
    assert_eq!(heading_level("h0"), None);
    assert_eq!(heading_level("h"), None);
    assert_eq!(heading_level("h+2"), Some(2));
    assert_eq!(heading_level("hr"), None);
}

#[test]
fn roles_follow_the_html_tag() {
    assert_eq!(role_for_tag("h3"), Some(UaRole::Heading(3)));
    assert_eq!(role_for_tag("p"), Some(UaRole::Paragraph));
    assert_eq!(role_for_tag("ol"), Some(UaRole::List));
    assert_eq!(role_for_tag("li"), Some(UaRole::ListItem));
    assert_eq!(role_for_tag("th"), Some(UaRole::TableHeader));
    assert_eq!(role_for_tag("img"), Some(UaRole::Figure));
    assert_eq!(role_for_tag("strong"), Some(UaRole::Span));
    assert_eq!(role_for_tag("aside"), Some(UaRole::Group));
    assert_eq!(role_for_tag("br"), None);
    assert_eq!(role_of(&el(Tag::Html("td".into()), vec![], vec![])), Some(UaRole::TableData));
    assert_eq!(role_of(&el(Tag::Directive(TKind::Page), vec![], vec![])), None);
}

#[test]
fn images_carry_alt_text() {
    let with = el(Tag::Html("img".into()), vec![attr("alt", "A chart")], vec![]);
    assert_eq!(alt_attr(&with), Some("A chart"));
    assert_eq!(alt_of(&with).as_deref(), Some("A chart"));
    let without = el(Tag::Html("img".into()), vec![], vec![]);
    assert_eq!(alt_of(&without).as_deref(), Some(""));
    let p = el(Tag::Html("p".into()), vec![attr("alt", "x")], vec![]);
    assert_eq!(alt_of(&p), None);
}

#[test]
fn fragment_defaults() {
    let b = BreakMeta::default();
    assert_eq!(b.break_before, BreakRule::Auto);
    assert_eq!((b.orphans, b.widows), (2, 2));
    assert!(b.repeatable.is_none() && b.footnotes.is_empty() && !b.break_inside_avoid);
    let x = XrefMeta::default();
    assert!(x.anchor.is_none() && x.link_href.is_none());
}

#[test]
fn auto_margins_center_a_box() {
    let style = |pairs: Vec<(&str, &str)>| {
        ComputedStyle::from_pairs(pairs.into_iter().map(|(k, v)| (k.to_string(), v.to_string())).collect())
    };
    assert!(auto_x_margins(&style(vec![("margin-left", " auto"), ("margin-right", "auto ")])));
    assert!(!auto_x_margins(&style(vec![("margin-left", "auto")])));
    assert!(auto_x_margins(&style(vec![("margin", "0 auto")])));
    assert!(!auto_x_margins(&style(vec![("margin", "0 autox")])));
    assert!(!auto_x_margins(&ComputedStyle::new()));
}
