use turbo_html2pdf_core::text::inline::collapse_ws;
use turbo_html2pdf_core::text::registry::{same_face, FontFace, FontRegistry};

#[test]
fn whitespace_runs_collapse_to_one_space() {
    assert_eq!(collapse_ws("  a \t b\n\nc  "), "a b c");
    assert_eq!(collapse_ws(""), "");
    assert_eq!(collapse_ws(" \u{3000} "), "");
    assert_eq!(collapse_ws("one"), "one");
    assert_eq!(collapse_ws(&collapse_ws(" x  y ")), "x y");
}

#[test]
fn faces_match_on_family_weight_and_slant() {
    let f = |family: &str, weight: u16, italic: bool| FontFace {
        family: family.to_string(),
        weight,
        italic,
        ranges: vec![],
    };
    assert!(same_face(&f("Inter", 400, false), &f("Inter", 400, false)));
    assert!(!same_face(&f("Inter", 400, false), &f("Inter", 700, false)));
    assert!(!same_face(&f("Inter", 400, false), &f("Inter", 400, true)));
    assert!(!same_face(&f("Inter", 400, false), &f("inter", 400, false)));
}

fn face(family: &str, weight: u16, italic: bool, ranges: Vec<(char, char)>) -> FontFace {
    FontFace { family: family.to_string(), weight, italic, ranges }
}

fn registry() -> FontRegistry {
    let mut reg = FontRegistry::new();
    reg.add(face("Inter", 400, false, vec![('a', 'z')]));
    reg.add(face("Inter", 700, false, vec![('a', 'z')]));
    reg.add(face("Inter", 400, true, vec![('a', 'z')]));
    reg.add(face("Symbols", 400, false, vec![('\u{2600}', '\u{26ff}')]));
    reg
}

#[test]
fn select_prefers_the_closest_weight_and_slant() {
    let reg = registry();
    assert_eq!(reg.len(), 4);
    let f = reg.select(&["Missing", " inter "], 600, false).unwrap();
    assert_eq!((f.weight, f.italic), (700, false));
    let f = reg.select(&["Inter"], 400, true).unwrap();
    assert!(f.italic);
    // No family matches: the first face.
    let f = reg.select(&["Nope"], 400, false).unwrap();
    assert_eq!((f.family.as_str(), f.weight), ("Inter", 400));
    assert!(FontRegistry::new().select(&["Inter"], 400, false).is_none());
    assert!(FontRegistry::new().is_empty());
}

#[test]
fn glyph_fallback_walks_families_then_any_face() {
    let reg = registry();
    let f = reg.resolve_glyph(&["Inter"], 400, false, 'q').unwrap();
    assert_eq!(f.family, "Inter");
    // Inter lacks the sun, so any face that has it serves.
    let f = reg.resolve_glyph(&["Inter"], 400, false, '\u{2600}').unwrap();
    assert_eq!(f.family, "Symbols");
    // No face has it.
    assert!(reg.resolve_glyph(&["Inter"], 400, false, '\u{4e00}').is_none());
}

#[test]
fn generic_families_expand_to_the_built_in_names() {
    let mut reg = FontRegistry::new();
    reg.add(face("Foo", 400, false, vec![('a', 'z')]));
    reg.add(face("Inter", 400, false, vec![('a', 'z')]));
    let f = reg.select(&["sans-serif"], 400, false).unwrap();
    assert_eq!(f.family, "Inter");
    let f = reg.resolve_glyph(&[" SANS-SERIF "], 400, false, 'q').unwrap();
    assert_eq!(f.family, "Inter");
    let mut reg = FontRegistry::new();
    reg.add(face("Foo", 400, false, vec![('a', 'z')]));
    reg.add(face("IBM Plex Mono", 400, false, vec![('a', 'z')]));
    reg.add(face("PT Serif", 400, false, vec![('a', 'z')]));
    assert_eq!(reg.select(&["monospace"], 400, false).unwrap().family, "IBM Plex Mono");
    assert_eq!(reg.select(&["serif"], 400, false).unwrap().family, "PT Serif");
}

#[test]
fn built_in_faces_come_after_caller_faces() {
    let mut reg = FontRegistry::with_fallbacks(vec![
        face("Inter", 400, false, vec![('a', 'z')]),
        face("Roboto", 400, false, vec![('a', 'z'), ('\u{2600}', '\u{26ff}')]),
    ]);
    assert_eq!(reg.len(), 0);
    assert!(!reg.is_empty());
    assert_eq!(reg.select(&["Nope"], 400, false).unwrap().family, "Inter");
    reg.add(face("Foo", 400, false, vec![('a', 'z')]));
    assert_eq!(reg.len(), 1);
    // No family matches: the first caller face.
    assert_eq!(reg.select(&["Nope"], 400, false).unwrap().family, "Foo");
    // A generic keyword reaches the built-in faces.
    assert_eq!(reg.select(&["sans-serif"], 400, false).unwrap().family, "Inter");
    // Per-glyph fallback reaches them too.
    assert_eq!(reg.resolve_glyph(&["Foo"], 400, false, '\u{2600}').unwrap().family, "Roboto");
}

#[test]
fn sans_serif_falls_back_from_inter_to_roboto() {
    let mut reg = FontRegistry::new();
    reg.add(face("Foo", 400, false, vec![('a', 'z')]));
    reg.add(face("Roboto", 700, false, vec![('a', 'z')]));
    assert_eq!(reg.select(&["sans-serif"], 400, false).unwrap().family, "Roboto");
    reg.add(face("Inter", 100, true, vec![('a', 'z')]));
    assert_eq!(reg.select(&["sans-serif"], 400, false).unwrap().family, "Inter");
}
