use turbo_html2pdf_core::style::media::media_clauses;

#[test]
fn media_query_clauses_and_feature_values() {
    let cs = media_clauses("Screen AND (min-width: 40em), print");
    assert_eq!(cs.len(), 2);
    assert!(!cs[0].print);
    assert_eq!(cs[0].features.len(), 2);
    assert_eq!(cs[0].features[0].min_width, None);
    assert_eq!(cs[0].features[1].min_width.as_deref(), Some("40em"));
    assert_eq!(cs[0].features[1].max_width, None);
    assert!(cs[1].print);
    let cs = media_clauses("(max-width:600px ) ");
    assert_eq!(cs.len(), 1);
    assert_eq!(cs[0].features[0].max_width.as_deref(), Some("600px"));
    // A name without a colon after it states no value.
    let cs = media_clauses("(min-width 10px)");
    assert_eq!(cs[0].features[0].min_width, None);
}
