use turbo_html2pdf_core::layout::boxtree::{build_box_tree, BoxKind, InlineItem, LayoutBox};
use turbo_html2pdf_core::layout::fragment::{NodeId, UaRole};
use turbo_html2pdf_core::layout::value::Display;
use turbo_html2pdf_core::node::{Attr, TKind, Tag};
use turbo_html2pdf_core::style::cascade::{ComputedStyle, StyledElement, StyledNode};

fn style(pairs: Vec<(&str, &str)>) -> ComputedStyle {
    ComputedStyle::from_pairs(pairs.into_iter().map(|(k, v)| (k.to_string(), v.to_string())).collect())
}

fn element(tag: &str, pairs: Vec<(&str, &str)>, children: Vec<StyledNode>) -> StyledNode {
    StyledNode::Element(StyledElement {
        tag: Tag::Html(tag.to_string()),
        attrs: Vec::new(),
        style: style(pairs),
        children,
    })
}

fn directive(kind: TKind) -> StyledNode {
    StyledNode::Element(StyledElement {
        tag: Tag::Directive(kind),
        attrs: Vec::new(),
        style: style(vec![]),
        children: Vec::new(),
    })
}

fn text(t: &str) -> StyledNode {
    StyledNode::Text(t.to_string())
}

fn blocks(b: &LayoutBox) -> &Vec<LayoutBox> {
    match &b.kind {
        BoxKind::Block(v) => v,
        _ => panic!("not a block context"),
    }
}

fn lines(b: &LayoutBox) -> &Vec<InlineItem> {
    match &b.kind {
        BoxKind::Lines(v) => v,
        _ => panic!("not a lines context"),
    }
}

#[test]
fn mixed_flow_wraps_inline_runs_in_anonymous_blocks() {
    let styled = vec![text("hello "), element("div", vec![], vec![text("x")]), text("   ")];
    let root = build_box_tree(&styled);
    assert_eq!(root.node_id, NodeId(0));
    assert_eq!(root.ua_role, Some(UaRole::Group));
    let kids = blocks(&root);
    assert_eq!(kids.len(), 2);
    // ids: text 1, div 2, its text 3, the blank text 4, the anonymous block 5.
    assert_eq!(kids[0].node_id, NodeId(5));
    assert_eq!(kids[0].ua_role, Some(UaRole::Paragraph));
    assert!(kids[0].attrs.is_empty());
    match &lines(&kids[0])[..] {
        [InlineItem::Text { node_id, text, .. }] => {
            assert_eq!(*node_id, NodeId(1));
            assert_eq!(text, "hello ");
        }
        _ => panic!("expected one text item"),
    }
    assert_eq!(kids[1].node_id, NodeId(2));
    assert_eq!(kids[1].display, Display::Block);
    assert_eq!(lines(&kids[1]).len(), 1);
}

#[test]
fn inline_only_flow_is_a_lines_context() {
    let styled = vec![
        text("a"),
        element("span", vec![("display", "inline")], vec![text("b"), element("div", vec![], vec![])]),
        directive(TKind::Page),
    ];
    let root = build_box_tree(&styled);
    let items = lines(&root);
    assert_eq!(items.len(), 4);
    assert!(matches!(&items[0], InlineItem::Text { text, .. } if text == "a"));
    assert!(matches!(&items[1], InlineItem::Text { text, .. } if text == "b"));
    // A block nested in inline flow becomes an atomic inline.
    match &items[2] {
        InlineItem::Atomic(b) => assert_eq!(b.node_id, NodeId(3)),
        _ => panic!("expected an atomic inline"),
    }
    assert!(matches!(items[3], InlineItem::Directive { kind: TKind::Page, node_id: NodeId(4), anchor: None }));
}

#[test]
fn display_none_is_dropped() {
    let styled = vec![
        element("p", vec![("display", "none")], vec![text("hidden")]),
        element("p", vec![], vec![text("shown")]),
    ];
    let root = build_box_tree(&styled);
    let kids = blocks(&root);
    assert_eq!(kids.len(), 1);
    assert_eq!(kids[0].node_id, NodeId(1));
    assert_eq!(kids[0].ua_role, Some(UaRole::Paragraph));
}

#[test]
fn flex_children_are_blocks_without_text_or_hidden_items() {
    let styled = vec![element(
        "div",
        vec![("display", "flex")],
        vec![
            text("loose"),
            element("span", vec![("display", "none")], vec![]),
            element("span", vec![("display", "inline")], vec![text("item")]),
            directive(TKind::Endnotes),
        ],
    )];
    let root = build_box_tree(&styled);
    let flex = &blocks(&root)[0];
    assert_eq!(flex.display, Display::Flex);
    match &flex.kind {
        BoxKind::Flex(items) => {
            assert_eq!(items.len(), 2);
            assert_eq!(items[0].display, Display::Inline);
            assert!(matches!(items[1].kind, BoxKind::Directive(TKind::Endnotes)));
        }
        _ => panic!("expected a flex context"),
    }
}

#[test]
fn images_roles_and_alt_text_are_carried() {
    let img = StyledNode::Element(StyledElement {
        tag: Tag::Html("img".to_string()),
        attrs: vec![
            Attr { name: "src".to_string(), value: "logo.png".to_string() },
            Attr { name: "alt".to_string(), value: "Logo".to_string() },
        ],
        style: style(vec![]),
        children: Vec::new(),
    });
    let styled = vec![element("h2", vec![], vec![]), img];
    let root = build_box_tree(&styled);
    let kids = blocks(&root);
    assert_eq!(kids[0].ua_role, Some(UaRole::Heading(2)));
    let image = kids[1].image.as_ref().unwrap();
    assert_eq!(image.name, "logo.png");
    assert!(image.replaced);
    assert_eq!(kids[1].ua_alt.as_deref(), Some("Logo"));
    assert_eq!(kids[1].attrs.len(), 2);
}

fn collect_ids(b: &LayoutBox, out: &mut Vec<u32>) {
    out.push(b.node_id.0);
    match &b.kind {
        BoxKind::Block(v) | BoxKind::Flex(v) | BoxKind::Table(v) => {
            for c in v {
                collect_ids(c, out);
            }
        }
        BoxKind::Lines(items) => {
            for it in items {
                match it {
                    InlineItem::Text { node_id, .. } | InlineItem::Directive { node_id, .. } => {
                        out.push(node_id.0)
                    }
                    InlineItem::Atomic(c) => collect_ids(c, out),
                }
            }
        }
        BoxKind::Directive(_) => {}
    }
}

#[test]
fn every_box_and_item_has_its_own_id() {
    let styled = vec![
        text("intro "),
        element(
            "div",
            vec![],
            vec![
                text("a"),
                element("span", vec![("display", "inline-block")], vec![text("b")]),
                element("p", vec![], vec![text("c")]),
                text("d"),
            ],
        ),
        element("div", vec![("display", "table")], vec![element("tr", vec![], vec![text("e")])]),
        text(" outro"),
    ];
    let root = build_box_tree(&styled);
    let mut ids = Vec::new();
    collect_ids(&root, &mut ids);
    let mut sorted = ids.clone();
    sorted.sort();
    sorted.dedup();
    assert_eq!(sorted.len(), ids.len());
    assert_eq!(ids[0], 0);
    assert!(ids.iter().all(|&i| i < 20));
}

fn with_attrs(node: StyledNode, attrs: Vec<(&str, &str)>) -> StyledNode {
    match node {
        StyledNode::Element(mut e) => {
            e.attrs = attrs.into_iter().map(|(n, v)| Attr { name: n.to_string(), value: v.to_string() }).collect();
            StyledNode::Element(e)
        }
        t => t,
    }
}

#[test]
fn internal_links_are_atomic_and_anchors_keep_their_name() {
    let styled = vec![element(
        "p",
        vec![],
        vec![
            with_attrs(directive(TKind::Anchor), vec![("name", "ch2")]),
            with_attrs(element("a", vec![("display", "inline")], vec![text("see")]), vec![("href", "#ch2")]),
            with_attrs(element("a", vec![("display", "inline")], vec![text("out")]), vec![("href", "https://x")]),
        ],
    )];
    let root = build_box_tree(&styled);
    let kids = blocks(&root);
    let items = match &kids[0].kind {
        BoxKind::Lines(items) => items,
        _ => panic!("expected lines"),
    };
    assert!(matches!(&items[0], InlineItem::Directive { kind: TKind::Anchor, anchor: Some(a), .. } if a == "ch2"));
    assert!(matches!(&items[1], InlineItem::Atomic(_)));
    assert!(matches!(&items[2], InlineItem::Text { text, .. } if text == "out"));
    // A hidden internal link still gets its box.
    let hidden = vec![with_attrs(element("a", vec![("display", "none")], vec![text("x")]), vec![("href", "#a")])];
    let root = build_box_tree(&hidden);
    assert!(matches!(&lines(&root)[0], InlineItem::Atomic(_)));
}
