use turbo_html2pdf_core::endnotes::expand;
use turbo_html2pdf_core::node::{Element, Node, TKind, Tag};

fn el(tag: Tag, children: Vec<Node>) -> Node {
    Node::Element(Element { tag, attrs: Vec::new(), children })
}

#[test]
fn notes_are_placed_once_and_later_slots_dropped() {
    let nodes = vec![
        el(Tag::Directive(TKind::Endnote), vec![Node::Text("A".to_string())]),
        el(Tag::Directive(TKind::Endnotes), vec![]),
        el(Tag::Html("div".to_string()), vec![el(Tag::Directive(TKind::Endnotes), vec![])]),
    ];
    let r = expand(nodes);
    assert_eq!(r.len(), 3);
    match &r[0] {
        Node::Element(e) => assert_eq!(e.tag, Tag::Html("sup".to_string())),
        _ => panic!("expected the marker"),
    }
    match &r[1] {
        Node::Element(e) => {
            assert_eq!(e.tag, Tag::Html("div".to_string()));
            assert_eq!(e.attrs[0].value, "endnotes");
            assert_eq!(e.children.len(), 1);
        }
        _ => panic!("expected the list"),
    }
    match &r[2] {
        Node::Element(e) => assert!(e.children.is_empty()),
        _ => panic!("expected the div"),
    }
}

fn has_slot(n: &Node) -> bool {
    match n {
        Node::Element(e) => e.tag == Tag::Directive(TKind::Endnotes) || e.children.iter().any(has_slot),
        Node::Text(_) => false,
    }
}

#[test]
fn nested_first_slot_takes_the_list_and_no_slot_survives() {
    let nodes = vec![
        el(Tag::Html("section".to_string()), vec![
            el(Tag::Html("div".to_string()), vec![el(Tag::Directive(TKind::Endnotes), vec![])]),
            el(Tag::Directive(TKind::Endnote), vec![Node::Text("B".to_string())]),
        ]),
        el(Tag::Directive(TKind::Endnotes), vec![]),
        el(Tag::Html("p".to_string()), vec![el(Tag::Html("span".to_string()), vec![el(Tag::Directive(TKind::Endnotes), vec![])])]),
    ];
    let r = expand(nodes);
    assert!(!r.iter().any(has_slot));
    assert_eq!(r.len(), 2);
    match &r[0] {
        Node::Element(section) => match &section.children[0] {
            Node::Element(div) => match &div.children[0] {
                Node::Element(list) => assert_eq!(list.attrs[0].value, "endnotes"),
                _ => panic!("expected the list"),
            },
            _ => panic!("expected the div"),
        },
        _ => panic!("expected the section"),
    }
}
