use turbo_html2pdf_core::html_layout::{collect_style_css, parse_html, strip_non_visual};
use turbo_html2pdf_core::node::{Node, Tag, TKind};
use turbo_html2pdf_core::template::markup::{expand_self_closing, parse};

#[test]
fn parse_html_keeps_body_and_skips_jinja() {
    let nodes = parse_html("<body><p>a {{ x }} b</p></body>").expect("parse");
    assert!(!nodes.is_empty());
    let css = collect_style_css(&parse_html("<body><style>.a{color:red}</style></body>").unwrap());
    assert!(css.contains(".a{color:red}"));
}

#[test]
fn collect_style_css_empty_without_styles() {
    let nodes = parse_html("<body><div>plain</div></body>").expect("parse");
    assert_eq!(collect_style_css(&nodes), "");
}

#[test]
fn braces_survive_as_text() {
    let nodes = parse_html("<body><p>a {{ x }} b</p></body>").expect("parse");
    let p = nodes[0].as_element().expect("p");
    assert_eq!(p.tag, Tag::Html("p".to_string()));
    assert_eq!(p.children[0].as_text(), Some("a {{ x }} b"));
}

#[test]
fn style_text_gets_a_newline_each() {
    let nodes = parse_html("<body><style>a{}</style><div><style>b{}</style></div></body>").unwrap();
    assert_eq!(collect_style_css(&nodes), "a{}\nb{}\n");
}

#[test]
fn directives_are_recognised_and_self_closing_expanded() {
    assert_eq!(expand_self_closing("x<t:page/>y"), "x<t:page></t:page>y");
    assert_eq!(expand_self_closing("<t:anchor id=\"a\"/>"), "<t:anchor id=\"a\"></t:anchor>");
    let nodes = parse("<body><t:page/>after</body>").expect("parse");
    let el = nodes[0].as_element().expect("element");
    assert_eq!(el.tag, Tag::Directive(TKind::Page));
    assert!(el.children.is_empty());
    assert_eq!(nodes[1].as_text(), Some("after"));
}

#[test]
fn unknown_directive_is_an_error() {
    let err = parse("<body><t:bogus></t:bogus></body>").unwrap_err();
    assert_eq!(err.message, "unknown t: element 't:bogus'");
}

#[test]
fn non_visual_subtrees_are_dropped() {
    let nodes = parse_html("<body><script>x()</script><p>kept</p><STYLE>a{}</STYLE></body>").unwrap();
    let kept = strip_non_visual(nodes);
    assert_eq!(kept.len(), 1);
    match &kept[0] {
        Node::Element(e) => assert_eq!(e.tag, Tag::Html("p".to_string())),
        Node::Text(_) => panic!("expected an element"),
    }
}
