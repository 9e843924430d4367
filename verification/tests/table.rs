use turbo_html2pdf_core::layout::fragment::RepeatKind;
use turbo_html2pdf_core::layout::table::{
    attr_usize, build_grid, cell_spans, group_repeat, is_fixed, Slot,
};
use turbo_html2pdf_core::layout::value::Display;
use turbo_html2pdf_core::node::Attr;
use turbo_html2pdf_core::style::cascade::ComputedStyle;

fn attr(n: &str, v: &str) -> Attr {
    Attr { name: n.to_string(), value: v.to_string() }
}

fn slot(row: usize, col: usize, colspan: usize, rowspan: usize) -> Slot {
    Slot { row, col, colspan, rowspan }
}

#[test]
fn row_groups_repeat() {
    assert_eq!(group_repeat(Display::TableHeaderGroup), Some(RepeatKind::Header));
    assert_eq!(group_repeat(Display::TableFooterGroup), Some(RepeatKind::Footer));
    assert_eq!(group_repeat(Display::TableRow), None);
}

#[test]
fn spans_default_to_one() {
    let a = vec![attr("colspan", " 3 "), attr("rowspan", "0"), attr("x", "+4"), attr("y", "z")];
    assert_eq!(attr_usize(&a, "colspan"), 3);
    assert_eq!(attr_usize(&a, "rowspan"), 1);
    assert_eq!(attr_usize(&a, "x"), 4);
    assert_eq!(attr_usize(&a, "y"), 1);
    assert_eq!(attr_usize(&a, "missing"), 1);
    assert_eq!(cell_spans(&a), (3, 1));
}

#[test]
fn fixed_layout_is_detected() {
    let f = ComputedStyle::from_pairs(vec![("table-layout".to_string(), " fixed ".to_string())]);
    assert!(is_fixed(&f));
    let a = ComputedStyle::from_pairs(vec![("table-layout".to_string(), "auto".to_string())]);
    assert!(!is_fixed(&a));
    assert!(!is_fixed(&ComputedStyle::new()));
}

#[test]
fn rowspans_push_later_cells_right() {
    let (slots, n) = build_grid(&[vec![(1, 2), (1, 1)], vec![(1, 1)]]);
    assert_eq!(slots, vec![slot(0, 0, 1, 2), slot(0, 1, 1, 1), slot(1, 1, 1, 1)]);
    assert_eq!(n, 2);
}

#[test]
fn colspans_widen_the_grid() {
    let (slots, n) = build_grid(&[vec![(2, 1), (1, 1)], vec![(1, 1), (1, 1), (1, 1)]]);
    assert_eq!(
        slots,
        vec![
            slot(0, 0, 2, 1),
            slot(0, 2, 1, 1),
            slot(1, 0, 1, 1),
            slot(1, 1, 1, 1),
            slot(1, 2, 1, 1)
        ]
    );
    assert_eq!(n, 3);
}

#[test]
fn empty_tables_have_no_columns() {
    assert_eq!(build_grid(&[]), (vec![], 0));
    assert_eq!(build_grid(&[vec![], vec![]]), (vec![], 0));
}

#[test]
fn a_wide_cell_is_placed_at_the_first_free_column() {
    let (slots, n) = build_grid(&[vec![(1, 1), (1, 2)], vec![(3, 1)]]);
    assert_eq!(slots, vec![slot(0, 0, 1, 1), slot(0, 1, 1, 2), slot(1, 0, 3, 1)]);
    assert_eq!(n, 3);
}
