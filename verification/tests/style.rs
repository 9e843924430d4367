use turbo_html2pdf_core::node::{Attr, Element, Node, Tag};
use turbo_html2pdf_core::style::cascade::{style_tree, StyledNode};
use turbo_html2pdf_core::style::build_cascade_with;
use turbo_html2pdf_core::style::parser::{parse_declarations, parse_stylesheet, strip_comments};
use turbo_html2pdf_core::style::selector::{parse_selector_list, Combinator, Pseudo};
use turbo_html2pdf_core::style::token::{resolve_tokens, StyleToken, TokenSet};
use turbo_html2pdf_core::style::parser::Declaration;

#[test]
fn comments_are_stripped() {
    assert_eq!(strip_comments("a/* x */b/* y"), "ab");
    assert_eq!(strip_comments("no comments"), "no comments");
}

#[test]
fn declarations_parse_with_important() {
    let d = parse_declarations("Font-Weight: 700 !important; color : red;;bad; :x");
    assert_eq!(d.len(), 2);
    assert_eq!(d[0].property, "font-weight");
    assert_eq!(d[0].value, "700");
    assert!(d[0].important);
    assert_eq!(d[1].property, "color");
    assert_eq!(d[1].value, "red");
    assert!(!d[1].important);
}

#[test]
fn stylesheet_splits_rules_and_at_rules() {
    let sheet = parse_stylesheet("p { color: red } @media(min-width:640px){ a { b: c } } /* c */ h1, h2 { x: y }");
    assert_eq!(sheet.rules.len(), 2);
    assert_eq!(sheet.at_rules.len(), 1);
    assert_eq!(sheet.at_rules[0].name, "media");
    assert_eq!(sheet.at_rules[0].prelude, "(min-width:640px)");
    assert_eq!(sheet.at_rules[0].body, "a { b: c }");
    assert_eq!(sheet.rules[1].selectors.len(), 2);
}

#[test]
fn selectors_parse_with_combinators_and_specificity() {
    let sels = parse_selector_list("div > p.a.b + #x ~ span[data-k='v'], li:nth-child(2n+1)");
    assert_eq!(sels.len(), 2);
    let s = &sels[0];
    assert_eq!(s.compounds.len(), 4);
    assert_eq!(
        s.combinators,
        vec![Combinator::Child, Combinator::NextSibling, Combinator::SubsequentSibling]
    );
    assert_eq!(s.specificity, (1, 3, 3));
    assert_eq!(s.compounds[3].attrs[0].value, "v");
    assert_eq!(sels[1].compounds[0].pseudos, vec![Pseudo::NthChild(2, 1)]);
}

#[test]
fn nth_arguments_parse() {
    let s = parse_selector_list("a:nth-of-type(odd), b:nth-child(-n + 3), c:nth-child(7)");
    assert_eq!(s[0].compounds[0].pseudos, vec![Pseudo::NthOfType(2, 1)]);
    assert_eq!(s[1].compounds[0].pseudos, vec![Pseudo::NthChild(-1, 3)]);
    assert_eq!(s[2].compounds[0].pseudos, vec![Pseudo::NthChild(0, 7)]);
}

#[test]
fn tokens_resolve_with_extends() {
    let mut set = TokenSet::new();
    let decl = |p: &str, v: &str| Declaration { property: p.to_string(), value: v.to_string(), important: false };
    set.insert("base".to_string(), StyleToken { extends: vec![], declarations: vec![decl("color", "red")] });
    set.insert(
        "title".to_string(),
        StyleToken { extends: vec!["base".to_string()], declarations: vec![decl("font-size", "20px")] },
    );
    let out = resolve_tokens("title  missing", &set);
    assert_eq!(out.len(), 2);
    assert_eq!(out[0].property, "color");
    assert_eq!(out[1].property, "font-size");
}

#[test]
fn cyclic_tokens_stop_at_the_depth_limit() {
    let mut set = TokenSet::new();
    set.insert(
        "loop".to_string(),
        StyleToken {
            extends: vec!["loop".to_string()],
            declarations: vec![Declaration { property: "a".to_string(), value: "b".to_string(), important: false }],
        },
    );
    assert_eq!(resolve_tokens("loop", &set).len(), 32);
}

fn styled_color(css: &str) -> Option<String> {
    let cascade = build_cascade_with(css, "", TokenSet::new(), &Vec::new());
    let p = Node::Element(Element {
        tag: Tag::Html("p".to_string()),
        attrs: vec![
            Attr { name: "class".to_string(), value: "x".to_string() },
            Attr { name: "id".to_string(), value: "y".to_string() },
        ],
        children: Vec::new(),
    });
    let styled = style_tree(&vec![p], &cascade, &Vec::new());
    match &styled[0] {
        StyledNode::Element(e) => e.style.get("color").map(|s| s.to_string()),
        StyledNode::Text(_) => None,
    }
}

#[test]
fn cascade_picks_the_greatest_key() {
    // Specificity beats source order.
    assert_eq!(styled_color("#y { color: green } p.x { color: blue } p { color: red }").as_deref(), Some("green"));
    // Importance beats specificity.
    assert_eq!(styled_color("p { color: red !important } #y { color: green }").as_deref(), Some("red"));
    // On a tie the later declaration wins.
    assert_eq!(styled_color("p { color: red } p { color: blue }").as_deref(), Some("blue"));
    // No declaration, no value.
    assert_eq!(styled_color("p { margin: 0 }"), None);
}
