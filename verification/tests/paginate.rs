use turbo_html2pdf_core::error::{Diagnostics, ErrorCode, LintCode};
use turbo_html2pdf_core::paginate::{
    adjust_widows_orphans, declarations, unknown_size, enforce_orphans, find_page, force_progress, page_kind, resolve_take,
    satisfy_widows, PageKind,
};
use turbo_html2pdf_core::style::parser::AtRule;

#[test]
fn page_kinds_alternate_after_the_first() {
    assert_eq!(page_kind(1), PageKind::First);
    assert_eq!(page_kind(2), PageKind::Left);
    assert_eq!(page_kind(3), PageKind::Right);
    assert_eq!(page_kind(10), PageKind::Left);
    assert_eq!(page_kind(0), PageKind::Left);
}

#[test]
fn widows_pull_lines_back_from_the_break() {
    // 6 lines, 5 fit: one would be a widow, so pull one more back.
    assert_eq!(adjust_widows_orphans(0, 5, 6, 2, 2), 4);
    assert_eq!(satisfy_widows(5, 1, 2), 4);
    assert_eq!(satisfy_widows(1, 0, 3), 0);
    assert_eq!(satisfy_widows(3, 5, 2), 3);
}

#[test]
fn orphans_defer_the_whole_run() {
    assert_eq!(adjust_widows_orphans(0, 1, 10, 2, 2), 0);
    assert_eq!(enforce_orphans(1, 2), 0);
    assert_eq!(enforce_orphans(2, 2), 2);
}

#[test]
fn no_break_places_everything_that_fits() {
    assert_eq!(adjust_widows_orphans(0, 8, 8, 2, 2), 8);
    assert_eq!(adjust_widows_orphans(3, 5, 8, 4, 4), 5);
}

#[test]
fn empty_page_places_what_fits_despite_orphans() {
    assert_eq!(resolve_take(0, 1, 10, 2, 2, true), 1);
    assert_eq!(resolve_take(0, 1, 10, 2, 2, false), 0);
    assert_eq!(resolve_take(2, 3, 9, 2, 2, false), 3);
}

#[test]
fn forced_progress_raises_an_overflow_lint() {
    let mut d = Diagnostics::default();
    assert_eq!(force_progress(0, true, false, &mut d), 1);
    assert_eq!(d.lints.len(), 1);
    assert_eq!(d.lints[0].code, LintCode::RegionOverflow);
    assert_eq!(d.lints[0].message, "a single line is taller than the page body");
    assert_eq!(force_progress(0, false, false, &mut d), 0);
    assert_eq!(force_progress(0, true, true, &mut d), 0);
    assert_eq!(force_progress(3, true, false, &mut d), 3);
    assert_eq!(d.lints.len(), 1);
}

#[test]
fn first_page_rule_is_found_in_any_case() {
    let rule = |name: &str, body: &str| AtRule {
        name: name.to_string(),
        prelude: String::new(),
        body: body.to_string(),
    };
    let rules = vec![rule("media", "a"), rule("PAGE", "b"), rule("page", "c")];
    assert_eq!(find_page(&rules).map(|r| r.body.as_str()), Some("b"));
    let none = vec![rule("media", "a"), rule("pages", "x")];
    assert!(find_page(&none).is_none());
}

#[test]
fn unknown_page_sizes_are_render_errors() {
    let e = unknown_size("B9");
    assert_eq!(e.code, ErrorCode::Render);
    assert_eq!(
        e.message,
        "unknown @page size `B9` (valid: A3, A4, A5, Letter, Legal, or `W H` lengths)"
    );
}

#[test]
fn page_declarations_split_at_first_colon() {
    let d = declarations(" SIZE : A4 landscape ; margin:1in;bad; x:y:z;");
    let pairs: Vec<(&str, &str)> = d.iter().map(|(a, b)| (a.as_str(), b.as_str())).collect();
    assert_eq!(pairs, vec![("size", "A4 landscape"), ("margin", "1in"), ("x", "y:z")]);
    assert!(declarations("").is_empty());
}
