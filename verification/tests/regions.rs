use turbo_html2pdf_core::template::regions::{extract, self_closing_end};

#[test]
fn no_region_is_a_noop() {
    let out = extract("<p>hi</p>");
    assert_eq!(out.body, "<p>hi</p>");
    assert!(out.header.is_none() && out.footer.is_none());
}

#[test]
fn extracts_both_regions_and_desugars_codes() {
    let out = extract(
        "<t:running-header>H</t:running-header><p>x</p>\
         <t:running-footer>Page <t:page/> of <t:pages/></t:running-footer>",
    );
    assert_eq!(out.body, "<p>x</p>");
    assert_eq!(out.header.as_deref(), Some("H"));
    assert_eq!(
        out.footer.as_deref(),
        Some("Page {{ page.number }} of {{ page.total }}")
    );
}

#[test]
fn explicit_pair_field_codes_desugar() {
    let out =
        extract("<t:running-footer><t:page></t:page>/<t:pages></t:pages></t:running-footer>");
    assert_eq!(
        out.footer.as_deref(),
        Some("{{ page.number }}/{{ page.total }}")
    );
}

#[test]
fn region_without_close_tag_is_left_in_body() {
    let out = extract("<t:running-footer>unterminated");
    assert!(out.footer.is_none());
    assert_eq!(out.body, "<t:running-footer>unterminated");
}

#[test]
fn non_self_closing_field_code_is_left_alone() {
    let out = extract("<t:running-footer><t:page>x</t:running-footer>");
    assert_eq!(out.footer.as_deref(), Some("<t:page>x"));
}

#[test]
fn self_closing_end_classifies_tags() {
    assert_eq!(self_closing_end("<t:page/>", "<t:page".len()), Some(9));
    assert_eq!(self_closing_end("<t:page>", "<t:page".len()), None);
    assert_eq!(self_closing_end("<t:page", "<t:page".len()), None);
}

#[test]
fn self_closing_with_attributes_is_replaced() {
    let out = extract("<t:running-header>n=<t:page x=\"1\"/>!</t:running-header>body");
    assert_eq!(out.body, "body");
    assert_eq!(out.header.as_deref(), Some("n={{ page.number }}!"));
}

#[test]
fn only_first_region_of_each_kind_is_taken() {
    let out = extract(
        "<t:running-header>A</t:running-header>mid<t:running-header>B</t:running-header>",
    );
    assert_eq!(out.header.as_deref(), Some("A"));
    assert_eq!(out.body, "mid<t:running-header>B</t:running-header>");
}

#[test]
fn self_closing_end_counts_bytes() {
    assert_eq!(self_closing_end("<t:page é/>", "<t:page".len()), Some(12));
}
