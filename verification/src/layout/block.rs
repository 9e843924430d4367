//! Block-layout decisions read straight off a computed style.
use vstd::prelude::*;
use crate::chars::{chars_of, eq_str, split_words, texts_view, trim, trim_chars, words};
use crate::style::cascade::{map_get, ComputedStyle};

verus! {

/// Whether a property's trimmed value is `auto`.
pub open spec fn is_auto_spec(style: Seq<(Seq<char>, Seq<char>)>, prop: Seq<char>) -> bool {
    match map_get(style, prop) {
        Some(v) => trim(v) == "auto"@,
        None => false,
    }
}

/// Whether a box centers itself with horizontal `auto` margins: both
/// `margin-left` and `margin-right` are `auto`, or the `margin` shorthand
/// has an `auto` word.
pub open spec fn auto_x_margins_spec(style: Seq<(Seq<char>, Seq<char>)>) -> bool {
    (is_auto_spec(style, "margin-left"@) && is_auto_spec(style, "margin-right"@)) || match map_get(
        style,
        "margin"@,
    ) {
        Some(m) => has_auto_word(m),
        None => false,
    }
}

/// Whether a value has an `auto` word.
pub open spec fn has_auto_word(m: Seq<char>) -> bool {
    exists|k: int| 0 <= k < words(m).len() && #[trigger] words(m)[k] == "auto"@
}

fn is_auto(s: &ComputedStyle, prop: &str) -> (res: bool)
    ensures
        res == is_auto_spec(s@, prop@),
{
    match s.get(prop) {
        Some(v) => {
            let c = chars_of(v);
            let t = trim_chars(c.as_slice());
            eq_str(t.as_slice(), "auto")
        },
        None => false,
    }
}

/// Whether a box centers itself via `margin: … auto` (horizontal auto margins).
pub fn auto_x_margins(s: &ComputedStyle) -> (res: bool)
    ensures
        res == auto_x_margins_spec(s@),
{
    if is_auto(s, "margin-left") && is_auto(s, "margin-right") {
        return true;
    }
    match s.get("margin") {
        Some(m) => {
            let c = chars_of(m);
            let ws = split_words(c.as_slice());
            let ghost all = texts_view(ws@);
            let mut k: usize = 0;
            while k < ws.len()
                invariant
                    k <= ws@.len(),
                    all == texts_view(ws@),
                    all == words(m@),
                    map_get(s@, "margin"@) == Some(m@),
                    forall|j: int| 0 <= j < k ==> #[trigger] all[j] != "auto"@,
                decreases ws.len() - k,
            {
                if eq_str(ws[k].as_slice(), "auto") {
                    assert(all[k as int] == "auto"@);
                    assert(words(m@)[k as int] == "auto"@);
                    assert(0 <= k < words(m@).len());
                    assert(has_auto_word(m@));
                    return true;
                }
                k += 1;
            }
            false
        },
        None => false,
    }
}

} // verus!
