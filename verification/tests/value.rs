use turbo_html2pdf_core::layout::value::{parse_hex_color, Rgba};

#[test]
fn hex_colors() {
    assert_eq!(parse_hex_color("fa0"), Some(Rgba::new(255, 170, 0, 255)));
    assert_eq!(parse_hex_color("102030"), Some(Rgba::new(16, 32, 48, 255)));
    assert_eq!(parse_hex_color("10203040"), Some(Rgba::new(16, 32, 48, 64)));
    assert_eq!(parse_hex_color("12345"), None);
    assert_eq!(parse_hex_color("zzz"), None);
    // A body whose reading would split a character is no colour either.
    assert_eq!(parse_hex_color("é1"), None);
}
