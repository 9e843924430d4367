use turbo_html2pdf_core::emit::pdfa::{file_id, fnv_bytes, metadata_digest, push_escaped, xmp_packet};
use turbo_html2pdf_core::emit::tounicode::{
    build, char_units, first_per_glyph, hex4, reverse_cmap, sorted_pairs, to_unicode_cmap, FOOTER, HEADER,
};
use turbo_html2pdf_core::emit::ua::{
    box_wrap, heading_role, map_role, xml_escape, Marker, PageFrags, PageTags, SRole, TreeBuilder,
    UaPlan, wrap_kind, paints, is_content, PaintKind,
    WrapKind,
};
use turbo_html2pdf_core::layout::fragment::UaRole;
use turbo_html2pdf_core::emit::{
    is_artifact_band, objects_per_font, pdf_a_on, pdf_ua_on, EmitOptions, SENTINEL_DATE,
};
use turbo_html2pdf_core::layout::value::{BorderEdges, Rgba};

fn s(v: Vec<char>) -> String {
    v.into_iter().collect()
}

#[test]
fn emitter_switches_follow_the_options() {
    assert_eq!(objects_per_font(false), 4);
    assert_eq!(objects_per_font(true), 5);
    let mut o = EmitOptions::default();
    assert!(!pdf_a_on(&o) && !pdf_ua_on(&o));
    o.pdf_a = true;
    o.pdf_ua = true;
    assert!(pdf_a_on(&o) && pdf_ua_on(&o));
    assert!(!is_artifact_band(0));
    assert!(is_artifact_band(1));
    assert!(is_artifact_band(2));
    assert!(!is_artifact_band(3));
    assert_eq!(SENTINEL_DATE, 946_684_800);
}

#[test]
fn hex_and_utf16_units() {
    assert_eq!(s(hex4(0xABCD)), "ABCD");
    assert_eq!(s(hex4(0x0041)), "0041");
    assert_eq!(char_units(0x41), vec![0x41]);
    assert_eq!(char_units(0x1F600), vec![0xD83D, 0xDE00]);
    assert_eq!(char_units(0xD800), vec![0xFFFD]);
    assert_eq!(char_units(0x110000), vec![0xFFFD]);
    assert_eq!(char_units(0xFFFF), vec![0xFFFF]);
}

#[test]
fn code_table_is_sorted_with_smallest_codepoint() {
    let t = sorted_pairs(&[(3, 0x41), (1, 0x1F600), (3, 0x40), (2, 7), (1, 0x1F601)]);
    assert_eq!(t, vec![(1, 0x1F600), (2, 7), (3, 0x40)]);
    assert!(sorted_pairs(&[]).is_empty());
}

#[test]
fn cmap_text_lists_entries_in_blocks() {
    assert_eq!(build(&[]), format!("{HEADER}{FOOTER}"));
    let text = build(&[(3, 0x41), (1, 0x1F600), (3, 0x40)]);
    assert_eq!(
        text,
        format!("{HEADER}2 beginbfchar\n<0001> <D83DDE00>\n<0003> <0040>\nendbfchar\n{FOOTER}")
    );
    let many: Vec<(u16, u32)> = (0..150u16).map(|c| (c, 0x41)).collect();
    let text = build(&many);
    assert!(text.contains("100 beginbfchar\n<0000> <0041>\n"));
    assert!(text.contains("endbfchar\n50 beginbfchar\n<0064> <0041>\n"));
    assert_eq!(text.matches("endbfchar").count(), 2);
}

#[test]
fn fnv_matches_the_reference_value() {
    let mut h: u64 = 0xcbf2_9ce4_8422_2325;
    fnv_bytes(&mut h, b"a");
    assert_eq!(h, 0xaf63_dc4c_8601_ec8c);
    let mut e: u64 = 0xcbf2_9ce4_8422_2325;
    fnv_bytes(&mut e, b"");
    assert_eq!(e, 0xcbf2_9ce4_8422_2325);
}

#[test]
fn file_id_is_deterministic_and_distinguishes_documents() {
    let mut a = EmitOptions::default();
    a.title = Some("Report".to_string());
    let (x, y) = file_id(&a, "producer");
    assert_eq!(x.len(), 16);
    assert_eq!(x, y);
    assert_eq!(file_id(&a, "producer"), (x.clone(), x.clone()));
    let mut b = a.clone();
    b.title = Some("Other".to_string());
    assert_ne!(metadata_digest(&b, "producer"), x);
    let mut c = a.clone();
    c.creation_date = Some(SENTINEL_DATE);
    assert_eq!(metadata_digest(&c, "producer"), x);
    c.creation_date = Some(0);
    assert_ne!(metadata_digest(&c, "producer"), x);
}

#[test]
fn digest_second_half_rehashes_the_first() {
    let o = EmitOptions::default();
    let d = metadata_digest(&o, "p");
    let mut h: u64 = u64::from_be_bytes(d[..8].try_into().unwrap());
    let first = h;
    fnv_bytes(&mut h, &first.to_be_bytes());
    assert_eq!(&d[8..], &h.to_be_bytes());
}

#[test]
fn xml_metacharacters_are_escaped() {
    let mut out = Vec::new();
    push_escaped(&mut out, "a<b&'\">");
    assert_eq!(s(out), "a&lt;b&amp;&apos;&quot;&gt;");
    assert_eq!(xml_escape("a&<b>\"'"), "a&amp;&lt;b&gt;\"'");
}

#[test]
fn archival_packet_mirrors_the_metadata() {
    let mut o = EmitOptions::default();
    o.title = Some("x & y".to_string());
    o.keywords = Some("k".to_string());
    let p = xmp_packet(&o, "2000-01-01T00:00:00Z", "engine");
    assert!(p.starts_with("<?xpacket begin=\"\u{feff}\""));
    assert!(p.contains("<dc:title><rdf:Alt><rdf:li xml:lang=\"x-default\">x &amp; y</rdf:li>"));
    assert!(!p.contains("dc:creator"));
    assert!(!p.contains("dc:description"));
    assert!(p.contains("<xmp:CreateDate>2000-01-01T00:00:00Z</xmp:CreateDate>"));
    assert!(p.contains("<xmp:ModifyDate>2000-01-01T00:00:00Z</xmp:ModifyDate>"));
    assert!(p.contains("<pdf:Producer>engine</pdf:Producer>\n<pdf:Keywords>k</pdf:Keywords>\n"));
    assert!(p.contains("<pdfaid:part>2</pdfaid:part>\n<pdfaid:conformance>B</pdfaid:conformance>\n"));
    assert!(p.ends_with("<?xpacket end=\"w\"?>"));
}

#[test]
fn accessibility_packet_carries_the_title() {
    let p = turbo_html2pdf_core::emit::ua::xmp_packet(None);
    assert!(p.contains(">Untitled</rdf:li>"));
    let p = turbo_html2pdf_core::emit::ua::xmp_packet(Some("A<B"));
    assert!(p.contains(">A&lt;B</rdf:li>"));
    assert!(p.contains("<pdfuaid:part>1</pdfuaid:part>"));
    assert!(p.ends_with("<?xpacket end=\"r\"?>"));
}

#[test]
fn marked_content_ids_count_up() {
    let mut m = Marker::new(&PageTags { mcid_count: 2 });
    assert_eq!(m.next(), 0);
    assert_eq!(m.next(), 1);
    assert_eq!(m.count, 2);
}

#[test]
fn boxes_wrap_as_artifacts_only_when_painting() {
    let none = BorderEdges::default();
    assert_eq!(box_wrap(None, &none), WrapKind::NoWrap);
    assert_eq!(box_wrap(Some(Rgba::black()), &none), WrapKind::Artifact);
    let mut b = BorderEdges::default();
    b.left.width = 1;
    assert_eq!(box_wrap(None, &b), WrapKind::Artifact);
}

fn frag(
    role: Option<turbo_html2pdf_core::layout::fragment::UaRole>,
    content: bool,
    children: Vec<turbo_html2pdf_core::emit::ua::TagFrag>,
) -> turbo_html2pdf_core::emit::ua::TagFrag {
    turbo_html2pdf_core::emit::ua::TagFrag { role, alt: None, content, children }
}

#[test]
fn structure_tree_attaches_content_to_nearest_role() {
    use_tree();
}

fn use_tree() {
    let body = vec![
        frag(
            Some(UaRole::Paragraph),
            false,
            vec![frag(None, true, vec![]), frag(Some(UaRole::Span), true, vec![])],
        ),
        frag(Some(UaRole::Artifact), false, vec![frag(None, true, vec![])]),
    ];
    let notes = vec![frag(Some(UaRole::Heading(9)), true, vec![])];
    let mut b = TreeBuilder::new();
    b.run(&vec![PageFrags { body, footnotes: notes }, PageFrags { body: vec![], footnotes: vec![] }]);
    assert_eq!(b.mcid_counts, vec![4, 0]);
    assert_eq!(b.roots, vec![0, 2, 3]);
    assert_eq!(b.nodes.len(), 4);
    assert_eq!(b.nodes[0].role, SRole::P);
    assert_eq!(b.nodes[0].children, vec![1]);
    assert_eq!(b.nodes[0].mcids, vec![0]);
    assert_eq!(b.nodes[1].role, SRole::Span);
    assert_eq!(b.nodes[1].mcids, vec![1]);
    assert_eq!(b.nodes[2].role, SRole::P);
    assert_eq!(b.nodes[2].mcids, vec![2]);
    assert_eq!(b.nodes[3].role, SRole::H6);
    assert_eq!(b.nodes[3].mcids, vec![3]);
    assert!(b.nodes.iter().all(|n| n.page == 0));
}

#[test]
fn heading_levels_clamp() {
    assert_eq!(heading_role(0), SRole::H1);
    assert_eq!(heading_role(3), SRole::H3);
    assert_eq!(heading_role(200), SRole::H6);
    assert_eq!(map_role(UaRole::TableHeader), SRole::TH);
}

#[test]
fn plan_numbers_objects_and_maps_marked_content_to_owners() {
    let body = vec![
        frag(
            Some(UaRole::Paragraph),
            false,
            vec![frag(None, true, vec![]), frag(Some(UaRole::Span), true, vec![])],
        ),
        frag(Some(UaRole::Artifact), false, vec![frag(None, true, vec![])]),
    ];
    let notes = vec![frag(Some(UaRole::Heading(9)), true, vec![])];
    let second = vec![frag(None, true, vec![])];
    let pages = vec![
        PageFrags { body, footnotes: notes },
        PageFrags { body: second, footnotes: vec![] },
    ];
    let (plan, next) = UaPlan::build(&pages, 10);
    // root 10, document 11, five elements 12..=16, two parent-tree arrays
    // 17 and 18, metadata 19.
    assert_eq!(plan.root_ref, 10);
    assert_eq!(plan.doc_ref, 11);
    assert_eq!(plan.node_refs, vec![12, 13, 14, 15, 16]);
    assert_eq!(plan.parent_tree_refs, vec![17, 18]);
    assert_eq!(plan.metadata_ref, 19);
    assert_eq!(next, 20);
    assert_eq!(plan.mcid_counts, vec![4, 1]);
    assert_eq!(plan.mcid_owners(0), vec![12, 13, 14, 15]);
    assert_eq!(plan.mcid_owners(1), vec![16]);
    // The span sits under the paragraph; the others hang off the document.
    assert_eq!(plan.parent_ref(1), 12);
    assert_eq!(plan.parent_ref(0), 11);
    assert_eq!(plan.parent_ref(4), 11);
}

#[test]
fn wrap_kinds_follow_the_band_and_the_paint() {
    let plain = PaintKind::Box { background: None, border: BorderEdges::default() };
    let filled = PaintKind::Box { background: Some(Rgba::black()), border: BorderEdges::default() };
    assert_eq!(wrap_kind(&PaintKind::TextLine, false), WrapKind::Content);
    assert_eq!(wrap_kind(&PaintKind::Image, false), WrapKind::Content);
    assert_eq!(wrap_kind(&filled, false), WrapKind::Artifact);
    assert_eq!(wrap_kind(&plain, false), WrapKind::NoWrap);
    assert_eq!(wrap_kind(&PaintKind::Directive, false), WrapKind::NoWrap);
    assert_eq!(wrap_kind(&PaintKind::TextLine, true), WrapKind::Artifact);
    assert_eq!(wrap_kind(&plain, true), WrapKind::NoWrap);
    assert!(paints(&filled) && !paints(&plain) && !paints(&PaintKind::Directive));
    assert!(is_content(&PaintKind::Image) && !is_content(&filled));
}

#[test]
fn first_codepoint_per_glyph_in_walk_order() {
    // Two subtables walked in turn: glyph 7 is first reached by U+0062 in the
    // first one, though the second maps it from the lower U+0041.
    let walk = vec![(0x61, 5), (0x62, 7), (0x63, 5), (0x41, 7), (0x20, 3)];
    assert_eq!(first_per_glyph(&walk), vec![(3, 0x20), (5, 0x61), (7, 0x62)]);
    assert!(first_per_glyph(&[]).is_empty());
}

#[test]
fn non_font_bytes_have_no_cmap() {
    assert_eq!(reverse_cmap(b"not a font", 0), None);
    assert_eq!(to_unicode_cmap(b"not a font", 0), None);
}
