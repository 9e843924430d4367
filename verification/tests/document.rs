use turbo_html2pdf_core::emit::document::{
    catalog_entries, page_annots, page_ref_pairs, type0_refs, xref_object_count, xref_refs, CatalogEntry,
    Plan,
};
use turbo_html2pdf_core::emit::ua::{PageFrags, UaPlan};
use turbo_html2pdf_core::emit::EmitOptions;

#[test]
fn page_pairs_take_two_ids_each() {
    let mut next = 3;
    assert_eq!(page_ref_pairs(3, &mut next), vec![(3, 4), (5, 6), (7, 8)]);
    assert_eq!(next, 9);
    let mut next = 10;
    assert!(page_ref_pairs(0, &mut next).is_empty());
    assert_eq!(next, 10);
}

#[test]
fn type0_refs_step_by_objects_per_face() {
    assert_eq!(type0_refs(9, 3, 4), vec![9, 13, 17]);
    assert_eq!(type0_refs(9, 2, 5), vec![9, 14]);
}

#[test]
fn xref_objects_follow_the_optional_dests() {
    assert_eq!(xref_refs(20, true, 2), (20, vec![21, 22]));
    assert_eq!(xref_refs(20, false, 2), (20, vec![20, 21]));
    assert_eq!(xref_object_count(true, 2), 3);
    assert_eq!(xref_object_count(false, 0), 0);
}

#[test]
fn page_annots_slice_by_page() {
    let links = vec![2, 0, 1];
    let refs = vec![30, 31, 32];
    assert_eq!(page_annots(&links, 0, &refs), vec![30, 31]);
    assert!(page_annots(&links, 1, &refs).is_empty());
    assert_eq!(page_annots(&links, 2, &refs), vec![32]);
}

#[test]
fn default_layout_is_catalog_pages_fonts_images_info() {
    let opts = EmitOptions::default();
    let plan = Plan::new(2, 1, 3, false, &vec![0, 0], &opts);
    assert_eq!(plan.catalog, 1);
    assert_eq!(plan.page_tree, 2);
    assert_eq!(plan.page_refs, vec![(3, 4), (5, 6)]);
    assert_eq!(plan.fonts_start, 7);
    assert_eq!(plan.font_refs, vec![7]);
    assert_eq!(plan.images_start, 11);
    assert_eq!(plan.info, 14);
    assert!(plan.link_refs.is_empty());
    assert_eq!(plan.next_free_id(), 15);
}

#[test]
fn tagged_archival_layout_with_links() {
    let mut opts = EmitOptions::default();
    opts.pdf_ua = true;
    opts.pdf_a = true;
    let plan = Plan::new(2, 2, 0, true, &vec![1, 2], &opts);
    assert_eq!(plan.font_refs, vec![7, 12]);
    assert_eq!(plan.images_start, 17);
    assert_eq!(plan.info, 17);
    assert_eq!(plan.dests, 18);
    assert_eq!(plan.link_refs, vec![19, 20, 21]);
    assert_eq!(plan.page_annot_refs, vec![vec![19], vec![20, 21]]);
    assert_eq!((plan.icc, plan.xmp), (22, 23));
    // The structure tree starts right after the archival objects.
    assert_eq!(plan.next_free_id(), 24);
}

#[test]
fn catalog_entries_follow_the_render() {
    let opts = EmitOptions::default();
    let plan = Plan::new(1, 0, 0, false, &vec![0], &opts);
    assert_eq!(catalog_entries(&plan, &opts, None), vec![CatalogEntry::Pages(2)]);

    let mut opts = EmitOptions::default();
    opts.pdf_ua = true;
    let plan = Plan::new(1, 0, 0, true, &vec![0], &opts);
    let (ua, _) = UaPlan::build(&vec![PageFrags { body: vec![], footnotes: vec![] }], plan.next_free_id());
    assert_eq!(
        catalog_entries(&plan, &opts, Some(&ua)),
        vec![
            CatalogEntry::Pages(2),
            CatalogEntry::Dests(plan.dests),
            CatalogEntry::StructTreeRoot(ua.root_ref),
            CatalogEntry::MarkInfo,
            CatalogEntry::Metadata(ua.metadata_ref),
            CatalogEntry::Lang("en-US".to_string()),
            CatalogEntry::DisplayDocTitle,
        ]
    );

    opts.pdf_a = true;
    opts.lang = Some("de".to_string());
    let plan = Plan::new(1, 0, 0, false, &vec![0], &opts);
    assert_eq!(
        catalog_entries(&plan, &opts, Some(&ua)),
        vec![
            CatalogEntry::Pages(2),
            CatalogEntry::Metadata(plan.xmp),
            CatalogEntry::OutputIntent(plan.icc),
            CatalogEntry::StructTreeRoot(ua.root_ref),
            CatalogEntry::MarkInfo,
            CatalogEntry::Lang("de".to_string()),
            CatalogEntry::DisplayDocTitle,
        ]
    );
}
