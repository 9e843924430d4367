use turbo_html2pdf_core::emit::xref::{Xref, XrefFrag};

fn frag(anchor: Option<&str>, link: Option<&str>, key: usize, children: Vec<XrefFrag>) -> XrefFrag {
    XrefFrag {
        anchor: anchor.map(|s| s.to_string()),
        link_href: link.map(|s| s.to_string()),
        key,
        children,
    }
}

#[test]
fn destinations_keep_the_first_anchor_and_sort_by_name() {
    let page0 = vec![
        frag(None, Some("intro"), 1, vec![frag(Some("zeta"), None, 2, vec![])]),
        frag(Some("intro"), Some("zeta"), 3, vec![]),
    ];
    let page1 = vec![frag(Some("intro"), None, 4, vec![frag(Some("alpha"), Some("alpha"), 5, vec![])])];
    let x = Xref::collect(&vec![page0, page1]);
    let names: Vec<&str> = x.dests.iter().map(|(n, _)| n.as_str()).collect();
    assert_eq!(names, vec!["alpha", "intro", "zeta"]);
    let at: Vec<(usize, usize)> = x.dests.iter().map(|(_, d)| (d.page, d.key)).collect();
    // `intro` is defined again on page 1, but the first anchor wins.
    assert_eq!(at, vec![(1, 5), (0, 3), (0, 2)]);
    assert!(x.has_dests());
    assert_eq!(x.links.len(), 2);
    let page0_links: Vec<(&str, usize)> = x.links[0].iter().map(|l| (l.target.as_str(), l.key)).collect();
    assert_eq!(page0_links, vec![("intro", 1), ("zeta", 3)]);
    assert_eq!(x.links[1].len(), 1);
    assert_eq!(x.link_count(), 3);
}

#[test]
fn no_anchors_no_destinations() {
    let x = Xref::collect(&vec![vec![frag(None, None, 0, vec![])], vec![]]);
    assert!(!x.has_dests());
    assert_eq!(x.link_count(), 0);
    assert_eq!(x.links.len(), 2);
}
