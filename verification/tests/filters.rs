use turbo_html2pdf_core::template::filters::{
    amount_text, assemble_currency, currency_text, group_int, is_euro_locale, locale_of, ordinal,
    pad, split_decimal, symbol_of, translate_fmt, truncate, wordwrap, wrap_words,
};

#[test]
fn ordinals_follow_english_rules() {
    assert_eq!(ordinal(1), "1st");
    assert_eq!(ordinal(2), "2nd");
    assert_eq!(ordinal(3), "3rd");
    assert_eq!(ordinal(4), "4th");
    assert_eq!(ordinal(11), "11th");
    assert_eq!(ordinal(12), "12th");
    assert_eq!(ordinal(13), "13th");
    assert_eq!(ordinal(21), "21st");
    assert_eq!(ordinal(22), "22nd");
    assert_eq!(ordinal(101), "101st");
    assert_eq!(ordinal(111), "111th");
    assert_eq!(ordinal(0), "0th");
}

#[test]
fn negative_ordinals_keep_sign_and_suffix() {
    assert_eq!(ordinal(-1), "-1st");
    assert_eq!(ordinal(-12), "-12th");
    assert_eq!(ordinal(i64::MIN), "-9223372036854775808th");
    assert_eq!(ordinal(i64::MAX), "9223372036854775807th");
}

#[test]
fn euro_locales_are_detected_by_language() {
    assert!(is_euro_locale("de"));
    assert!(is_euro_locale("pt-BR"));
    assert!(is_euro_locale("fr-CA"));
    assert!(!is_euro_locale("en"));
    assert!(!is_euro_locale("en-GB"));
    assert!(!is_euro_locale(""));
    assert!(!is_euro_locale("DE"));
    let de = locale_of("de-AT");
    assert_eq!((de.thousands, de.decimal, de.symbol_before), ('.', ',', false));
    let en = locale_of("en");
    assert_eq!((en.thousands, en.decimal, en.symbol_before), (',', '.', true));
}

#[test]
fn grouping_counts_from_the_right() {
    assert_eq!(group_int("1234567", ','), "1,234,567");
    assert_eq!(group_int("123", ','), "123");
    assert_eq!(group_int("1234", '.'), "1.234");
    assert_eq!(group_int("", ','), "");
}

#[test]
fn decimal_split_at_first_dot() {
    let (a, b) = split_decimal(&['1', '2', '.', '5', '.', '0']);
    assert_eq!(a, vec!['1', '2']);
    assert_eq!(b, vec!['5', '.', '0']);
    let (c, d) = split_decimal(&['7']);
    assert_eq!(c, vec!['7']);
    assert!(d.is_empty());
}

#[test]
fn amounts_are_laid_out_per_locale() {
    let en = locale_of("en");
    let de = locale_of("de");
    assert_eq!(amount_text("1234.50", false, &en), "1,234.50");
    assert_eq!(amount_text("1234.50", true, &en), "-1,234.50");
    assert_eq!(amount_text("1234567.89", false, &de), "1.234.567,89");
    assert_eq!(amount_text("12", false, &en), "12");
}

#[test]
fn currency_symbols_and_placement() {
    assert_eq!(symbol_of("eur"), "\u{20ac}");
    assert_eq!(symbol_of("Gbp"), "\u{a3}");
    assert_eq!(symbol_of("pln"), "z\u{142}");
    assert_eq!(symbol_of("chf"), "CHF ");
    let en = locale_of("en");
    let fr = locale_of("fr");
    assert_eq!(assemble_currency("5.00", "$", &en), "$5.00");
    assert_eq!(assemble_currency("5,00", "\u{20ac}", &fr), "5,00\u{a0}\u{20ac}");
}

#[test]
fn currency_sign_sits_outside_the_symbol() {
    assert_eq!(currency_text("5.00", true, "GBP", None), "-\u{a3}5.00");
    assert_eq!(currency_text("1234.50", false, "usd", None), "$1,234.50");
    assert_eq!(
        currency_text("1234567.89", false, "EUR", Some("de-DE")),
        "1.234.567,89\u{a0}\u{20ac}"
    );
    assert_eq!(currency_text("12.00", false, "chf", Some("en")), "CHF 12.00");
}

#[test]
fn pad_left_pads_to_width() {
    assert_eq!(pad("7", 3, Some("0".to_string())), "007");
    assert_eq!(pad("7", 3, None), "  7");
    assert_eq!(pad("1234", 3, None), "1234");
    assert_eq!(pad("x", -5, None), "x");
    assert_eq!(pad("x", 2, Some(String::new())), " x");
    assert_eq!(pad("é", 3, Some("ab".to_string())), "aaé");
}

#[test]
fn truncate_keeps_suffix_within_length() {
    assert_eq!(truncate("hello world", 8, None), "hello w\u{2026}");
    assert_eq!(truncate("hello", 8, None), "hello");
    assert_eq!(truncate("hello world", 8, Some("...".to_string())), "hello...");
    assert_eq!(truncate("hello", 2, Some("...".to_string())), "..");
    assert_eq!(truncate("abcdef", 2, Some("...".to_string())).chars().count(), 2);
    assert_eq!(truncate("hello", -1, None), "");
}

#[test]
fn wordwrap_is_greedy() {
    assert_eq!(wordwrap("the quick brown fox", 10), "the quick\nbrown fox");
    assert_eq!(wordwrap("  a   b  ", 80), "a b");
    assert_eq!(wordwrap("supercalifragilistic is long", 5), "supercalifragilistic\nis\nlong");
    assert_eq!(wordwrap("a b c", 0), "a\nb\nc");
    assert_eq!(wordwrap("", 10), "");
    let w: Vec<char> = "one two three".chars().collect();
    assert_eq!(wrap_words(&w, 7).into_iter().collect::<String>(), "one two\nthree");
}

#[test]
fn date_tokens_translate_to_strftime() {
    assert_eq!(translate_fmt("YYYY-MM-DD"), "%Y-%m-%d");
    assert_eq!(translate_fmt("YYYY-MM-DD HH:mm:ss"), "%Y-%m-%d %H:%M:%S");
    assert_eq!(translate_fmt("DD/MM/YY"), "%d/%m/%y");
    assert_eq!(translate_fmt("plain"), "plain");
}

#[test]
fn zone_offsets_parse_to_seconds() {
    use_tz();
}

fn use_tz() {
    let f = turbo_html2pdf_core::template::filters::tz_offset_seconds;
    assert_eq!(f(None), Ok(0));
    assert_eq!(f(Some("UTC")), Ok(0));
    assert_eq!(f(Some("uTc")), Ok(0));
    assert_eq!(f(Some("Z")), Ok(0));
    assert_eq!(f(Some("+05:30")), Ok(19_800));
    assert_eq!(f(Some("-01:00")), Ok(-3_600));
    assert_eq!(f(Some("+01:-30")), Ok(1_800));
    assert_eq!(f(Some("+24:00")), Err("date(): tz out of range".to_string()));
    assert_eq!(f(Some("05:00")), Err("date(): bad tz offset".to_string()));
    assert_eq!(f(Some("+5")), Err("date(): bad tz offset".to_string()));
    assert_eq!(f(Some("+x:00")), Err("date(): bad tz offset".to_string()));
    assert_eq!(f(Some("z")), Err("date(): bad tz offset".to_string()));
    let fits = turbo_html2pdf_core::template::filters::tz_fits;
    assert!(fits(Some("+05:30")));
    assert!(!fits(Some("+999999:00")));
    assert!(fits(Some("nonsense")));
}
