//! The text side of the document-domain filters: ordinals, locale-aware
//! grouping and currency assembly, padding, truncation, greedy word wrap and
//! the date-format token rewriting. Rendering a float to its digits and
//! reading/writing dates are done by the caller; everything decided on the
//! resulting text is here.
use vstd::prelude::*;
use crate::bytes::find_spec;
use crate::chars::{
    chars_of, copy_range, decimal_chars_u64, decimal_text, find_chars, lemma_utf8_len_ge,
    push_chars, split_char, split_on, split_words, string_of, words,
};
use crate::numbers::{parse_i32, parse_i32_spec};
use crate::chars::lemma_words_split;
use crate::text::inline::{is_word, lemma_words_are_words, lemma_words_prefix};
use crate::template::regions::{replace_all, replace_all_chars};

verus! {

// ---------------------------------------------------------------------------
// Ordinals
// ---------------------------------------------------------------------------
/// `|n|` as an integer.
pub open spec fn abs_int(n: int) -> int {
    if n < 0 {
        -n
    } else {
        n
    }
}

/// The English ordinal suffix of a number whose magnitude mod 100 is `a`.
pub open spec fn suffix_of(a: int) -> Seq<char> {
    if 11 <= a <= 13 {
        seq!['t', 'h']
    } else if a % 10 == 1 {
        seq!['s', 't']
    } else if a % 10 == 2 {
        seq!['n', 'd']
    } else if a % 10 == 3 {
        seq!['r', 'd']
    } else {
        seq!['t', 'h']
    }
}

/// The ordinal suffix of `n`.
pub open spec fn ordinal_suffix_spec(n: int) -> Seq<char> {
    suffix_of(abs_int(n) % 100)
}

/// The decimal text of a signed number, with a leading `-` when negative.
pub open spec fn signed_text(n: int) -> Seq<char> {
    if n < 0 {
        seq!['-'] + decimal_text((-n) as nat)
    } else {
        decimal_text(n as nat)
    }
}

/// The magnitude of `n`.
fn magnitude(n: i64) -> (res: u64)
    ensures
        res as int == abs_int(n as int),
{
    if n < 0 {
        ((-(n + 1)) as u64) + 1
    } else {
        n as u64
    }
}

/// The English ordinal suffix of `n`: `th` for 11–13 (mod 100), else by the
/// last digit.
pub fn ordinal_suffix(n: i64) -> (res: Vec<char>)
    ensures
        res@ == ordinal_suffix_spec(n as int),
{
    let abs = magnitude(n) % 100;
    if 11 <= abs && abs <= 13 {
        return vec!['t', 'h'];
    }
    if abs % 10 == 1 {
        vec!['s', 't']
    } else if abs % 10 == 2 {
        vec!['n', 'd']
    } else if abs % 10 == 3 {
        vec!['r', 'd']
    } else {
        vec!['t', 'h']
    }
}

/// `ordinal(n)`: `1` → `1st`, `2` → `2nd`, `13` → `13th`.
pub fn ordinal(n: i64) -> (res: String)
    ensures
        res@ == signed_text(n as int) + ordinal_suffix_spec(n as int),
{
    let mut out: Vec<char> = Vec::new();
    if n < 0 {
        out.push('-');
    }
    let digits = decimal_chars_u64(magnitude(n));
    push_chars(&mut out, digits.as_slice());
    let suffix = ordinal_suffix(n);
    push_chars(&mut out, suffix.as_slice());
    proof {
        if n < 0 {
            assert(out@ =~= seq!['-'] + decimal_text((-n) as nat) + ordinal_suffix_spec(n as int));
        } else {
            assert(out@ =~= decimal_text(n as nat) + ordinal_suffix_spec(n as int));
        }
    }
    string_of(out.as_slice())
}

// ---------------------------------------------------------------------------
// Locales and grouping
// ---------------------------------------------------------------------------
/// Locale-specific grouping/decimal/symbol placement.
#[derive(Debug, Clone, Copy, PartialEq, Eq, Structural)]
pub struct Locale {
    pub thousands: char,
    pub decimal: char,
    pub symbol_before: bool,
}

/// The languages whose numbers use `.` to group and `,` for decimals.
pub open spec fn euro_lang(l: Seq<char>) -> bool {
    ||| l == seq!['p', 't']
    ||| l == seq!['d', 'e']
    ||| l == seq!['e', 's']
    ||| l == seq!['i', 't']
    ||| l == seq!['n', 'l']
    ||| l == seq!['p', 'l']
    ||| l == seq!['f', 'r']
}

/// Whether a locale code (its language, the part before the first `-`) is
/// one of the euro-style locales.
pub open spec fn is_euro_spec(code: Seq<char>) -> bool {
    euro_lang(split_on(code, '-')[0])
}

/// The locale a code resolves to.
pub open spec fn locale_spec(code: Seq<char>) -> Locale {
    if is_euro_spec(code) {
        Locale { thousands: '.', decimal: ',', symbol_before: false }
    } else {
        Locale { thousands: ',', decimal: '.', symbol_before: true }
    }
}

/// Whether a two-letter text equals `a b`.
fn is_pair(l: &[char], a: char, b: char) -> (res: bool)
    ensures
        res == (l@ == seq![a, b]),
{
    if l.len() == 2 && l[0] == a && l[1] == b {
        assert(l@ =~= seq![a, b]);
        true
    } else {
        false
    }
}

/// Whether the language of `code` is a euro-style one.
pub fn is_euro_locale(code: &str) -> (res: bool)
    ensures
        res == is_euro_spec(code@),
{
    let cs = chars_of(code);
    let parts = split_char(cs.as_slice(), '-');
    let lang = parts[0].as_slice();
    assert(lang@ == split_on(code@, '-')[0]);
    is_pair(lang, 'p', 't') || is_pair(lang, 'd', 'e') || is_pair(lang, 'e', 's') || is_pair(
        lang,
        'i',
        't',
    ) || is_pair(lang, 'n', 'l') || is_pair(lang, 'p', 'l') || is_pair(lang, 'f', 'r')
}

/// The locale a code resolves to.
pub fn locale_of(code: &str) -> (res: Locale)
    ensures
        res == locale_spec(code@),
{
    if is_euro_locale(code) {
        Locale { thousands: '.', decimal: ',', symbol_before: false }
    } else {
        Locale { thousands: ',', decimal: '.', symbol_before: true }
    }
}

/// `s` with `sep` inserted before each character at index `i > 0` whose
/// distance `n - i` from `n` is a multiple of three.
pub open spec fn grouped(s: Seq<char>, n: int, sep: char) -> Seq<char>
    decreases s.len(),
{
    if s.len() == 0 {
        seq![]
    } else {
        let i = s.len() - 1;
        let prev = grouped(s.drop_last(), n, sep);
        if i > 0 && (n - i) % 3 == 0 {
            prev.push(sep).push(s[i])
        } else {
            prev.push(s[i])
        }
    }
}

/// The length of the UTF-8 encoding of a text.
pub open spec fn utf8_len(s: Seq<char>) -> int {
    vstd::utf8::encode_utf8(s).len() as int
}

/// Insert the thousands separator every three digits counted from the end of
/// the text (measured, as `str::len` does, in UTF-8 bytes).
pub fn group_int(int_digits: &str, sep: char) -> (res: String)
    ensures
        res@ == grouped(int_digits@, utf8_len(int_digits@), sep),
{
    let n = int_digits.as_bytes().len();
    let cs = chars_of(int_digits);
    proof {
        lemma_utf8_len_ge(int_digits@);
    }
    let mut out: Vec<char> = Vec::new();
    let mut i: usize = 0;
    while i < cs.len()
        invariant
            i <= cs@.len(),
            cs@ == int_digits@,
            n as int == utf8_len(int_digits@),
            cs@.len() <= n,
            out@ == grouped(cs@.take(i as int), n as int, sep),
        decreases cs.len() - i,
    {
        assert(cs@.take(i + 1).drop_last() =~= cs@.take(i as int));
        if i > 0 && (n - i) % 3 == 0 {
            out.push(sep);
        }
        out.push(cs[i]);
        i += 1;
    }
    assert(cs@.take(i as int) =~= cs@);
    string_of(out.as_slice())
}

/// The integer and fraction parts of a rendered number, split at the first
/// `.` (the fraction empty when there is none).
pub open spec fn split_decimal_spec(s: Seq<char>) -> (Seq<char>, Seq<char>) {
    match find_spec(s, seq!['.'], 0) {
        Some(k) => (s.take(k), s.skip(k + 1)),
        None => (s, seq![]),
    }
}

/// Split a rendered number at its first `.`.
pub fn split_decimal(s: &[char]) -> (res: (Vec<char>, Vec<char>))
    ensures
        res.0@ == split_decimal_spec(s@).0,
        res.1@ == split_decimal_spec(s@).1,
{
    let dot: Vec<char> = vec!['.'];
    assert(dot@ =~= seq!['.']);
    match find_chars(s, dot.as_slice(), 0) {
        Some(k) => {
            assert(k + dot@.len() <= s@.len());
            assert(dot@.len() == 1);
            assert(s@.len() == s.len());
            (copy_range(s, 0, k), copy_range(s, k + 1, s.len()))
        },
        None => {
            let whole = copy_range(s, 0, s.len());
            assert(s@.subrange(0, s@.len() as int) =~= s@);
            (whole, Vec::new())
        },
    }
}

/// A rendered amount with its sign, grouped integer part and the locale's
/// decimal mark before a non-empty fraction.
pub open spec fn amount_spec(rendered: Seq<char>, negative: bool, loc: Locale) -> Seq<char> {
    let (int_part, frac) = split_decimal_spec(rendered);
    (if negative {
        seq!['-']
    } else {
        seq![]
    }) + grouped(int_part, utf8_len(int_part), loc.thousands) + (if frac.len() > 0 {
        seq![loc.decimal] + frac
    } else {
        seq![]
    })
}

/// Lay out an amount already rendered to digits (`"1234.50"`) for a locale:
/// a `-` when `negative`, the integer part grouped, then the fraction after
/// the locale's decimal mark.
pub fn amount_text(rendered: &str, negative: bool, loc: &Locale) -> (res: String)
    ensures
        res@ == amount_spec(rendered@, negative, *loc),
{
    let cs = chars_of(rendered);
    let (int_part, frac) = split_decimal(cs.as_slice());
    let int_text = string_of(int_part.as_slice());
    let grouped_int = group_int(int_text.as_str(), loc.thousands);
    let mut out: Vec<char> = Vec::new();
    if negative {
        out.push('-');
    }
    let g = chars_of(grouped_int.as_str());
    push_chars(&mut out, g.as_slice());
    if frac.len() > 0 {
        out.push(loc.decimal);
        push_chars(&mut out, frac.as_slice());
    }
    proof {
        let sign: Seq<char> = if negative { seq!['-'] } else { seq![] };
        let tail: Seq<char> = if frac@.len() > 0 { seq![loc.decimal] + frac@ } else { seq![] };
        assert(out@ =~= sign + g@ + tail);
    }
    string_of(out.as_slice())
}

// ---------------------------------------------------------------------------
// Currency
// ---------------------------------------------------------------------------
/// What `str::to_uppercase` gives for a text: its Unicode uppercase mapping.
pub uninterp spec fn unicode_upper(s: Seq<char>) -> Seq<char>;

/// `str::to_uppercase`. Its result is the full Unicode uppercase mapping of
/// the text, which depends on the text alone; it is named, not spelled out.
#[verifier::external_body]
fn to_upper(s: &str) -> (res: String)
    ensures
        res@ == unicode_upper(s@),
{
    s.to_uppercase()
}

/// The symbol written for an (uppercased) currency code: the five known
/// codes get their sign, any other code itself followed by a space.
pub open spec fn symbol_spec(upper: Seq<char>) -> Seq<char> {
    if upper == seq!['E', 'U', 'R'] {
        seq!['\u{20ac}']
    } else if upper == seq!['U', 'S', 'D'] {
        seq!['$']
    } else if upper == seq!['G', 'B', 'P'] {
        seq!['\u{a3}']
    } else if upper == seq!['J', 'P', 'Y'] {
        seq!['\u{a5}']
    } else if upper == seq!['P', 'L', 'N'] {
        seq!['z', '\u{142}']
    } else {
        upper.push(' ')
    }
}

/// Whether a three-letter text equals `a b c`.
fn is_triple(l: &[char], a: char, b: char, c: char) -> (res: bool)
    ensures
        res == (l@ == seq![a, b, c]),
{
    if l.len() == 3 && l[0] == a && l[1] == b && l[2] == c {
        assert(l@ =~= seq![a, b, c]);
        true
    } else {
        false
    }
}

/// The symbol for a currency code, matched case-insensitively.
pub fn symbol_of(ccy: &str) -> (res: String)
    ensures
        res@ == symbol_spec(unicode_upper(ccy@)),
{
    let upper_s = to_upper(ccy);
    let upper = chars_of(upper_s.as_str());
    let u = upper.as_slice();
    let out: Vec<char> = if is_triple(u, 'E', 'U', 'R') {
        vec!['\u{20ac}']
    } else if is_triple(u, 'U', 'S', 'D') {
        vec!['$']
    } else if is_triple(u, 'G', 'B', 'P') {
        vec!['\u{a3}']
    } else if is_triple(u, 'J', 'P', 'Y') {
        vec!['\u{a5}']
    } else if is_triple(u, 'P', 'L', 'N') {
        vec!['z', '\u{142}']
    } else {
        let mut o = upper.clone();
        assert(o@ == upper@);
        o.push(' ');
        o
    };
    proof {
        if u@ == seq!['E', 'U', 'R'] {
            assert(out@ =~= seq!['\u{20ac}']);
        } else if u@ == seq!['U', 'S', 'D'] {
            assert(out@ =~= seq!['$']);
        } else if u@ == seq!['G', 'B', 'P'] {
            assert(out@ =~= seq!['\u{a3}']);
        } else if u@ == seq!['J', 'P', 'Y'] {
            assert(out@ =~= seq!['\u{a5}']);
        } else if u@ == seq!['P', 'L', 'N'] {
            assert(out@ =~= seq!['z', '\u{142}']);
        }
    }
    string_of(out.as_slice())
}

/// The amount and symbol in the locale's order: symbol first, or amount, a
/// no-break space, then the symbol.
pub open spec fn assembled(amount: Seq<char>, symbol: Seq<char>, loc: Locale) -> Seq<char> {
    if loc.symbol_before {
        symbol + amount
    } else {
        amount + seq!['\u{a0}'] + symbol
    }
}

/// Place the currency symbol per locale.
pub fn assemble_currency(amount: &str, symbol: &str, loc: &Locale) -> (res: String)
    ensures
        res@ == assembled(amount@, symbol@, *loc),
{
    let a = chars_of(amount);
    let s = chars_of(symbol);
    let mut out: Vec<char> = Vec::new();
    if loc.symbol_before {
        push_chars(&mut out, s.as_slice());
        push_chars(&mut out, a.as_slice());
    } else {
        push_chars(&mut out, a.as_slice());
        out.push('\u{a0}');
        push_chars(&mut out, s.as_slice());
    }
    assert(out@ =~= assembled(amount@, symbol@, *loc));
    string_of(out.as_slice())
}

/// The locale code a `currency` call uses: the given one, or `en`.
pub open spec fn code_or_en(locale: Option<Seq<char>>) -> Seq<char> {
    match locale {
        Some(c) => c,
        None => seq!['e', 'n'],
    }
}

/// A currency amount: the absolute amount laid out for the locale, its
/// symbol placed, and a `-` outside the symbol when negative.
pub open spec fn currency_spec(
    rendered_abs: Seq<char>,
    negative: bool,
    ccy: Seq<char>,
    locale: Option<Seq<char>>,
) -> Seq<char> {
    let loc = locale_spec(code_or_en(locale));
    let body = assembled(
        amount_spec(rendered_abs, false, loc),
        symbol_spec(unicode_upper(ccy)),
        loc,
    );
    if negative {
        seq!['-'] + body
    } else {
        body
    }
}

/// `currency(value, ccy, locale="en")` on the amount's absolute value already
/// rendered with two decimals (`rendered_abs`) and its sign (`negative`):
/// grouping, decimal mark and symbol placement per locale, with a negative
/// sign outside the symbol (`-£5.00`, not `£-5.00`).
pub fn currency_text(rendered_abs: &str, negative: bool, ccy: &str, locale: Option<&str>) -> (res:
    String)
    ensures
        res@ == currency_spec(
            rendered_abs@,
            negative,
            ccy@,
            match locale {
                Some(l) => Some(l@),
                None => None,
            },
        ),
{
    let loc = match locale {
        Some(l) => locale_of(l),
        None => {
            let en: Vec<char> = vec!['e', 'n'];
            let en_s = string_of(en.as_slice());
            assert(en_s@ =~= seq!['e', 'n']);
            locale_of(en_s.as_str())
        },
    };
    let amount = amount_text(rendered_abs, false, &loc);
    let symbol = symbol_of(ccy);
    let body = assemble_currency(amount.as_str(), symbol.as_str(), &loc);
    if negative {
        let mut out: Vec<char> = vec!['-'];
        let b = chars_of(body.as_str());
        push_chars(&mut out, b.as_slice());
        assert(out@ =~= seq!['-'] + body@);
        string_of(out.as_slice())
    } else {
        body
    }
}

// ---------------------------------------------------------------------------
// Padding, truncation, word wrap
// ---------------------------------------------------------------------------
/// A width argument clamped at zero, as the filters read it.
pub open spec fn clamp_width(width: i64) -> int {
    (if width < 0 {
        0
    } else {
        width
    }) as usize as int
}

/// The first character of an optional text, if it has one.
pub open spec fn first_char(f: Option<Seq<char>>) -> Option<char> {
    match f {
        Some(t) => if t.len() > 0 {
            Some(t[0])
        } else {
            None
        },
        None => None,
    }
}

/// `s` left-padded with `fill`'s first character (a space by default) to
/// `width` characters.
pub open spec fn pad_spec(s: Seq<char>, width: i64, fill: Option<Seq<char>>) -> Seq<char> {
    let ch = match first_char(fill) {
        Some(c) => c,
        None => ' ',
    };
    let deficit: int = if clamp_width(width) > s.len() {
        clamp_width(width) - s.len()
    } else {
        0
    };
    Seq::new(deficit as nat, |i: int| ch) + s
}

/// The view of an optional string.
pub open spec fn opt_view(o: Option<String>) -> Option<Seq<char>> {
    match o {
        Some(s) => Some(s@),
        None => None,
    }
}

/// `pad(value, width, fill=" ")` on the value's text: left-pads it to `width`
/// characters.
pub fn pad(value: &str, width: i64, fill: Option<String>) -> (res: String)
    ensures
        res@ == pad_spec(value@, width, opt_view(fill)),
        res@.len() == if clamp_width(width) > value@.len() {
            clamp_width(width)
        } else {
            value@.len() as int
        },
        res@.skip(res@.len() - value@.len()) == value@,
{
    let s = chars_of(value);
    let target: usize = if width < 0 {
        0
    } else {
        width as usize
    };
    let ch: char = match &fill {
        Some(f) => {
            let fc = chars_of(f.as_str());
            if fc.len() > 0 {
                fc[0]
            } else {
                ' '
            }
        },
        None => ' ',
    };
    let deficit: usize = target.saturating_sub(s.len());
    let mut out: Vec<char> = Vec::new();
    let mut i: usize = 0;
    while i < deficit
        invariant
            i <= deficit,
            out@ == Seq::new(i as nat, |j: int| ch),
        decreases deficit - i,
    {
        out.push(ch);
        i += 1;
        assert(out@ =~= Seq::new(i as nat, |j: int| ch));
    }
    push_chars(&mut out, s.as_slice());
    let ghost pad_part = Seq::new(deficit as nat, |j: int| ch);
    assert(out@ =~= pad_part + value@);
    assert((pad_part + value@).skip(pad_part.len() as int) =~= value@);
    string_of(out.as_slice())
}

/// `s` shortened to `length` characters, the suffix (`…` by default)
/// included, when it is longer; otherwise unchanged. A suffix longer than
/// `length` is itself cut to `length` characters.
pub open spec fn truncate_spec(s: Seq<char>, length: i64, suffix: Option<Seq<char>>) -> Seq<char> {
    let max = clamp_width(length);
    if s.len() <= max {
        s
    } else {
        let suf = match suffix {
            Some(t) => t,
            None => seq!['\u{2026}'],
        };
        if suf.len() > max {
            suf.take(max)
        } else {
            s.take(max - suf.len()) + suf
        }
    }
}

/// `truncate(value, length, suffix="…")` on the value's text.
pub fn truncate(value: &str, length: i64, suffix: Option<String>) -> (res: String)
    ensures
        res@ == truncate_spec(value@, length, opt_view(suffix)),
        value@.len() <= clamp_width(length) ==> res@ == value@,
{
    let s = chars_of(value);
    let max: usize = if length < 0 {
        0
    } else {
        length as usize
    };
    if s.len() <= max {
        return string_of(s.as_slice());
    }
    let suf: Vec<char> = match &suffix {
        Some(t) => chars_of(t.as_str()),
        None => vec!['\u{2026}'],
    };
    if suf.len() > max {
        let cut = copy_range(suf.as_slice(), 0, max);
        assert(suf@.subrange(0, max as int) =~= suf@.take(max as int));
        return string_of(cut.as_slice());
    }
    let keep: usize = max - suf.len();
    let mut out = copy_range(s.as_slice(), 0, keep);
    push_chars(&mut out, suf.as_slice());
    assert(s@.subrange(0, keep as int) =~= s@.take(keep as int));
    string_of(out.as_slice())
}

/// The greedy wrap state: finished lines and the line being filled.
pub open spec fn wrap_step(
    st: (Seq<Seq<char>>, Seq<char>),
    word: Seq<char>,
    width: int,
) -> (Seq<Seq<char>>, Seq<char>) {
    if st.1.len() == 0 {
        (st.0, word)
    } else if st.1.len() + 1 + word.len() <= width {
        (st.0, st.1 + seq![' '] + word)
    } else {
        (st.0.push(st.1), word)
    }
}

/// The wrap state after placing each of `ws` in turn.
pub open spec fn wrap_fold(ws: Seq<Seq<char>>, width: int) -> (Seq<Seq<char>>, Seq<char>)
    decreases ws.len(),
{
    if ws.len() == 0 {
        (seq![], seq![])
    } else {
        wrap_step(wrap_fold(ws.drop_last(), width), ws.last(), width)
    }
}

/// The lines of a greedy wrap of the words of `s` at `width` characters.
pub open spec fn wrapped_lines(s: Seq<char>, width: int) -> Seq<Seq<char>> {
    let st = wrap_fold(words(s), width);
    if st.1.len() > 0 {
        st.0.push(st.1)
    } else {
        st.0
    }
}

/// Lines joined with `\n`.
pub open spec fn join_lines(ls: Seq<Seq<char>>) -> Seq<char>
    decreases ls.len(),
{
    if ls.len() == 0 {
        seq![]
    } else if ls.len() == 1 {
        ls[0]
    } else {
        join_lines(ls.drop_last()) + seq!['\n'] + ls.last()
    }
}

/// Greedy word wrap of `s` at `width` characters, lines joined with `\n`.
pub fn wrap_words(s: &[char], width: usize) -> (res: Vec<char>)
    ensures
        res@ == join_lines(wrapped_lines(s@, width as int)),
{
    let ws = split_words(s);
    let mut lines: Vec<Vec<char>> = Vec::new();
    let mut line: Vec<char> = Vec::new();
    let mut k: usize = 0;
    while k < ws.len()
        invariant
            k <= ws@.len(),
            crate::chars::texts_view(ws@) == words(s@),
            (crate::chars::texts_view(lines@), line@) == wrap_fold(
                words(s@).take(k as int),
                width as int,
            ),
        decreases ws.len() - k,
    {
        assert(words(s@).take(k + 1).drop_last() =~= words(s@).take(k as int));
        let w = &ws[k];
        assert(w@ == words(s@)[k as int]);
        if line.len() == 0 {
            line = w.clone();
            assert(line@ == w@);
        } else if line.len() < width && w.len() <= width - line.len() - 1 {
            line.push(' ');
            push_chars(&mut line, w.as_slice());
        } else {
            let ghost old_lines = crate::chars::texts_view(lines@);
            let ghost old_line = line@;
            let done = line;
            lines.push(done);
            line = w.clone();
            assert(line@ == w@);
            assert(crate::chars::texts_view(lines@) =~= old_lines.push(old_line));
        }
        k += 1;
    }
    assert(words(s@).take(k as int) =~= words(s@));
    if line.len() > 0 {
        let ghost old_lines = crate::chars::texts_view(lines@);
        let ghost old_line = line@;
        lines.push(line);
        assert(crate::chars::texts_view(lines@) =~= old_lines.push(old_line));
    }
    let ghost all = crate::chars::texts_view(lines@);
    assert(all == wrapped_lines(s@, width as int));
    let mut out: Vec<char> = Vec::new();
    let mut j: usize = 0;
    while j < lines.len()
        invariant
            j <= lines@.len(),
            all == crate::chars::texts_view(lines@),
            out@ == join_lines(all.take(j as int)),
        decreases lines.len() - j,
    {
        assert(all.take(j + 1).drop_last() =~= all.take(j as int));
        if j > 0 {
            out.push('\n');
        }
        push_chars(&mut out, lines[j].as_slice());
        proof {
            if j == 0 {
                assert(all.take(1) =~= seq![all[0]]);
            }
        }
        j += 1;
    }
    assert(all.take(j as int) =~= all);
    out
}

/// `wordwrap(value, width)` on the value's text: greedy word wrap at `width`
/// characters (at least 1).
pub fn wordwrap(value: &str, width: i64) -> (res: String)
    ensures
        res@ == join_lines(
            wrapped_lines(
                value@,
                (if width < 1 {
                    1
                } else {
                    width
                }) as usize as int,
            ),
        ),
{
    let s = chars_of(value);
    let w: usize = if width < 1 {
        1
    } else {
        width as usize
    };
    let out = wrap_words(s.as_slice(), w);
    string_of(out.as_slice())
}

// ---------------------------------------------------------------------------
// Date formats
// ---------------------------------------------------------------------------
/// The template's date-format tokens rewritten, in order, to strftime ones:
/// `YYYY`, `YY`, `MM`, `DD`, `HH`, `mm`, `ss`.
pub open spec fn translate_fmt_spec(fmt: Seq<char>) -> Seq<char> {
    let a = replace_all(fmt, seq!['Y', 'Y', 'Y', 'Y'], seq!['%', 'Y']);
    let b = replace_all(a, seq!['Y', 'Y'], seq!['%', 'y']);
    let c = replace_all(b, seq!['M', 'M'], seq!['%', 'm']);
    let d = replace_all(c, seq!['D', 'D'], seq!['%', 'd']);
    let e = replace_all(d, seq!['H', 'H'], seq!['%', 'H']);
    let f = replace_all(e, seq!['m', 'm'], seq!['%', 'M']);
    replace_all(f, seq!['s', 's'], seq!['%', 'S'])
}

/// Rewrite `YYYY MM DD HH mm ss` format tokens into strftime ones.
pub fn translate_fmt(fmt: &str) -> (res: String)
    ensures
        res@ == translate_fmt_spec(fmt@),
{
    let s = chars_of(fmt);
    let t1: Vec<char> = vec!['Y', 'Y', 'Y', 'Y'];
    let r1: Vec<char> = vec!['%', 'Y'];
    let t2: Vec<char> = vec!['Y', 'Y'];
    let r2: Vec<char> = vec!['%', 'y'];
    let t3: Vec<char> = vec!['M', 'M'];
    let r3: Vec<char> = vec!['%', 'm'];
    let t4: Vec<char> = vec!['D', 'D'];
    let r4: Vec<char> = vec!['%', 'd'];
    let t5: Vec<char> = vec!['H', 'H'];
    let r5: Vec<char> = vec!['%', 'H'];
    let t6: Vec<char> = vec!['m', 'm'];
    let r6: Vec<char> = vec!['%', 'M'];
    let t7: Vec<char> = vec!['s', 's'];
    let r7: Vec<char> = vec!['%', 'S'];
    let a = replace_all_chars(s.as_slice(), t1.as_slice(), r1.as_slice());
    let b = replace_all_chars(a.as_slice(), t2.as_slice(), r2.as_slice());
    let c = replace_all_chars(b.as_slice(), t3.as_slice(), r3.as_slice());
    let d = replace_all_chars(c.as_slice(), t4.as_slice(), r4.as_slice());
    let e = replace_all_chars(d.as_slice(), t5.as_slice(), r5.as_slice());
    let f = replace_all_chars(e.as_slice(), t6.as_slice(), r6.as_slice());
    let g = replace_all_chars(f.as_slice(), t7.as_slice(), r7.as_slice());
    string_of(g.as_slice())
}



/// Whether a zone name means UTC: `utc` in any case, or `Z`.
pub open spec fn is_utc(s: Seq<char>) -> bool {
    crate::chars::eq_ignore_case(s, seq!['u', 't', 'c']) || s == seq!['Z']
}

/// The sign, hours and minutes of a `±HH:MM` offset, when it has that shape
/// (a sign, then two `i32` numbers around the first `:`).
pub open spec fn tz_fields(s: Seq<char>) -> Option<(int, i32, i32)> {
    if s.len() > 0 && (s[0] == '+' || s[0] == '-') {
        let rest = s.drop_first();
        match find_spec(rest, seq![':'], 0) {
            Some(k) => match parse_i32_spec(rest.take(k)) {
                Some(h) => match parse_i32_spec(rest.skip(k + 1)) {
                    Some(m) => Some(
                        (
                            if s[0] == '+' {
                                1int
                            } else {
                                -1int
                            },
                            h,
                            m,
                        ),
                    ),
                    None => None,
                },
                None => None,
            },
            None => None,
        }
    } else {
        None
    }
}

/// Whether `v` is an `i32` value.
pub open spec fn fits_i32(v: int) -> bool {
    i32::MIN <= v <= i32::MAX
}

/// Whether computing the offset's seconds stays within `i32` arithmetic.
pub open spec fn tz_fits_spec(tz: Option<Seq<char>>) -> bool {
    match tz {
        Some(s) => !is_utc(s) ==> match tz_fields(s) {
            Some((sg, h, m)) => fits_i32(h * 3600) && fits_i32(m * 60) && fits_i32(h * 3600 + m * 60)
                && fits_i32(sg * (h * 3600 + m * 60)),
            None => true,
        },
        None => true,
    }
}

/// The message for a malformed zone offset.
pub open spec fn bad_tz() -> Seq<char> {
    "date(): bad tz offset"@
}

/// The offset in seconds east of UTC that a `tz` argument names: none, `utc`
/// or `Z` is 0; `±HH:MM` is its signed seconds, which must lie strictly
/// within one day.
pub open spec fn tz_spec(tz: Option<Seq<char>>) -> Result<int, Seq<char>> {
    match tz {
        None => Ok(0),
        Some(s) => if is_utc(s) {
            Ok(0)
        } else {
            match tz_fields(s) {
                None => Err(bad_tz()),
                Some((sg, h, m)) => {
                    let secs = sg * (h * 3600 + m * 60);
                    if -86_400 < secs < 86_400 {
                        Ok(secs)
                    } else {
                        Err("date(): tz out of range"@)
                    }
                },
            }
        },
    }
}

/// Whether a zone name means UTC.
fn utc_name(s: &[char]) -> (res: bool)
    ensures
        res == is_utc(s@),
{
    let u: Vec<char> = vec!['u', 't', 'c'];
    assert(u@ =~= seq!['u', 't', 'c']);
    let z = s.len() == 1 && s[0] == 'Z';
    if z {
        assert(s@ =~= seq!['Z']);
    } else {
        assert(s@ != seq!['Z']);
    }
    crate::chars::chars_eq_ignore_case(s, u.as_slice()) || z
}

/// The sign, hours and minutes of a `±HH:MM` offset.
fn tz_fields_of(s: &[char]) -> (res: Option<(i32, i32, i32)>)
    ensures
        match res {
            Some((sg, h, m)) => tz_fields(s@) == Some((sg as int, h, m)),
            None => tz_fields(s@) is None,
        },
{
    if s.len() == 0 || (s[0] != '+' && s[0] != '-') {
        return None;
    }
    let sign: i32 = if s[0] == '+' {
        1
    } else {
        -1
    };
    let rest = copy_range(s, 1, s.len());
    assert(rest@ =~= s@.drop_first());
    let colon: Vec<char> = vec![':'];
    assert(colon@ =~= seq![':']);
    match find_chars(rest.as_slice(), colon.as_slice(), 0) {
        None => None,
        Some(k) => {
            assert(k + colon@.len() <= rest@.len());
            assert(colon@.len() == 1);
            assert(rest@.len() == rest.len());
            let hs = copy_range(rest.as_slice(), 0, k);
            let ms = copy_range(rest.as_slice(), k + 1, rest.len());
            assert(hs@ =~= rest@.take(k as int));
            assert(ms@ =~= rest@.skip(k + 1));
            match parse_i32(hs.as_slice()) {
                None => None,
                Some(h) => match parse_i32(ms.as_slice()) {
                    None => None,
                    Some(m) => Some((sign, h, m)),
                },
            }
        },
    }
}

/// Whether computing a `tz` argument's seconds stays within `i32`
/// arithmetic (the offset arithmetic overflows otherwise).
pub fn tz_fits(tz: Option<&str>) -> (res: bool)
    ensures
        res == tz_fits_spec(
            match tz {
                Some(s) => Some(s@),
                None => None,
            },
        ),
{
    match tz {
        None => true,
        Some(t) => {
            let s = chars_of(t);
            if utc_name(s.as_slice()) {
                return true;
            }
            match tz_fields_of(s.as_slice()) {
                None => true,
                Some((sg, h, m)) => {
                    let hh = (h as i64) * 3600;
                    let mm = (m as i64) * 60;
                    let fits = |v: i64| -> (r: bool)
                        ensures
                            r == fits_i32(v as int),
                        { -2147483648 <= v && v <= 2147483647 };
                    let sum = hh + mm;
                    assert(sg == 1 || sg == -1);
                    let prod: i64 = if sg == 1 {
                        sum
                    } else {
                        -sum
                    };
                    assert(prod == sg * sum) by (nonlinear_arith)
                        requires
                            sg == 1 || sg == -1,
                            sg == 1 ==> prod == sum,
                            sg == -1 ==> prod == -sum,
                    ;
                    fits(hh) && fits(mm) && fits(sum) && fits(prod)
                },
            }
        },
    }
}

/// The offset in seconds east of UTC named by a `date` filter's `tz`
/// argument: UTC when absent, `utc` or `Z`; else `±HH:MM`, which must lie
/// strictly within one day.
pub fn tz_offset_seconds(tz: Option<&str>) -> (res: Result<i32, String>)
    requires
        tz_fits_spec(
            match tz {
                Some(s) => Some(s@),
                None => None,
            },
        ),
    ensures
        match res {
            Ok(v) => tz_spec(
                match tz {
                    Some(s) => Some(s@),
                    None => None,
                },
            ) == Ok::<int, Seq<char>>(v as int),
            Err(e) => tz_spec(
                match tz {
                    Some(s) => Some(s@),
                    None => None,
                },
            ) == Err::<int, Seq<char>>(e@),
        },
{
    match tz {
        None => Ok(0),
        Some(t) => {
            let s = chars_of(t);
            if utc_name(s.as_slice()) {
                return Ok(0);
            }
            match tz_fields_of(s.as_slice()) {
                None => Err(string_of(chars_of("date(): bad tz offset").as_slice())),
                Some((sg, h, m)) => {
                    let secs = sg * (h * 3600 + m * 60);
                    if -86_400 < secs && secs < 86_400 {
                        Ok(secs)
                    } else {
                        Err(string_of(chars_of("date(): tz out of range").as_slice()))
                    }
                },
            }
        },
    }
}

// ---------------------------------------------------------------------------
// Laws
// ---------------------------------------------------------------------------
/// An ordinal's suffix depends only on the magnitude modulo 100: `n`, `-n`
/// and `n + 100` share it.
pub proof fn ordinal_suffix_periodic(n: int)
    requires
        n >= 0,
    ensures
        ordinal_suffix_spec(-n) == ordinal_suffix_spec(n),
        ordinal_suffix_spec(n + 100) == ordinal_suffix_spec(n),
{
    assert((n + 100) % 100 == n % 100);
}

/// The teens 11, 12 and 13 (mod 100) always take `th`.
pub proof fn ordinal_teens_take_th(n: int)
    requires
        11 <= abs_int(n) % 100 <= 13,
    ensures
        ordinal_suffix_spec(n) == seq!['t', 'h'],
{
}

/// A negative amount is the positive one with a `-` in front of the symbol.
pub proof fn currency_sign_outside_symbol(
    rendered_abs: Seq<char>,
    ccy: Seq<char>,
    locale: Option<Seq<char>>,
)
    ensures
        currency_spec(rendered_abs, true, ccy, locale) == seq!['-'] + currency_spec(
            rendered_abs,
            false,
            ccy,
            locale,
        ),
{
}

/// A truncated text is exactly `length` characters long, suffix included:
/// it ends with the suffix when the suffix fits, and is the suffix cut to
/// `length` characters when it does not.
pub proof fn truncate_fits_length(s: Seq<char>, length: i64, suffix: Seq<char>)
    requires
        s.len() > clamp_width(length),
    ensures
        truncate_spec(s, length, Some(suffix)).len() == clamp_width(length),
        suffix.len() <= clamp_width(length) ==> truncate_spec(s, length, Some(suffix)).skip(
            truncate_spec(s, length, Some(suffix)).len() - suffix.len(),
        ) == suffix,
        suffix.len() > clamp_width(length) ==> truncate_spec(s, length, Some(suffix)) == suffix.take(
            clamp_width(length),
        ),
{
    let r = truncate_spec(s, length, Some(suffix));
    if suffix.len() <= clamp_width(length) {
        let keep = clamp_width(length) - suffix.len();
        assert(r == s.take(keep) + suffix);
        assert(r.skip(r.len() - suffix.len()) =~= suffix);
    }
}


/// The words of each line, in order.
pub open spec fn line_words(ls: Seq<Seq<char>>) -> Seq<Seq<char>>
    decreases ls.len(),
{
    if ls.len() == 0 {
        seq![]
    } else {
        line_words(ls.drop_last()) + words(ls.last())
    }
}

proof fn lemma_words_join_lines(ls: Seq<Seq<char>>)
    ensures
        words(join_lines(ls)) == line_words(ls),
    decreases ls.len(),
{
    if ls.len() == 0 {
        assert(words(Seq::<char>::empty()) =~= Seq::<Seq<char>>::empty());
    } else if ls.len() == 1 {
        assert(ls.drop_last() =~= Seq::<Seq<char>>::empty());
        assert(line_words(ls.drop_last()) =~= Seq::<Seq<char>>::empty());
        assert(ls.last() == ls[0]);
        assert(line_words(ls) =~= words(ls[0]));
    } else {
        lemma_words_join_lines(ls.drop_last());
        lemma_words_split(join_lines(ls.drop_last()), '\n', ls.last());
    }
}

proof fn lemma_word_alone(w: Seq<char>)
    requires
        is_word(w),
    ensures
        words(w) == seq![w],
{
    lemma_words_prefix(w, seq![]);
    assert(w + Seq::<char>::empty() =~= w);
    assert(words(Seq::<char>::empty()) =~= Seq::<Seq<char>>::empty());
    assert(seq![w] + Seq::<Seq<char>>::empty() =~= seq![w]);
}

proof fn lemma_wrap_fold(ws: Seq<Seq<char>>, width: int)
    requires
        forall|k: int| 0 <= k < ws.len() ==> is_word(#[trigger] ws[k]),
    ensures
        line_words(wrap_fold(ws, width).0) + words(wrap_fold(ws, width).1) == ws,
        wrap_fold(ws, width).1.len() == 0 ==> ws.len() == 0,
    decreases ws.len(),
{
    if ws.len() == 0 {
        assert(words(Seq::<char>::empty()) =~= Seq::<Seq<char>>::empty());
        assert(line_words(Seq::<Seq<char>>::empty()) + Seq::<Seq<char>>::empty() =~= ws);
    } else {
        let d = ws.drop_last();
        assert forall|k: int| 0 <= k < d.len() implies is_word(#[trigger] d[k]) by {
            assert(d[k] == ws[k]);
        }
        lemma_wrap_fold(d, width);
        let st = wrap_fold(d, width);
        let w = ws.last();
        assert(is_word(w));
        lemma_word_alone(w);
        let r = wrap_step(st, w, width);
        assert(wrap_fold(ws, width) == r);
        if st.1.len() == 0 {
            assert(words(st.1) =~= Seq::<Seq<char>>::empty());
            assert(line_words(st.0) =~= d);
            assert(line_words(r.0) + words(r.1) =~= ws);
        } else if st.1.len() + 1 + w.len() <= width {
            lemma_words_split(st.1, ' ', w);
            assert(st.1 + seq![' '] + w == r.1);
            assert(r.0 == st.0);
            assert(words(r.1) == words(st.1) + seq![w]);
            assert(d.push(w) =~= ws);
            assert(line_words(r.0) + words(r.1) =~= (line_words(st.0) + words(st.1)).push(w));
        } else {
            assert(r.0.drop_last() =~= st.0);
            assert(line_words(r.0) == line_words(st.0) + words(st.1));
            assert(line_words(r.0) + words(r.1) =~= ws);
        }
    }
}

/// Wrapping never loses, adds or reorders words: the words of the wrapped
/// text are the words of the input.
pub proof fn wrap_keeps_words(s: Seq<char>, width: int)
    ensures
        words(join_lines(wrapped_lines(s, width))) == words(s),
{
    lemma_words_are_words(s);
    lemma_wrap_fold(words(s), width);
    lemma_words_join_lines(wrapped_lines(s, width));
    let st = wrap_fold(words(s), width);
    if st.1.len() > 0 {
        assert(st.0.push(st.1).drop_last() =~= st.0);
    } else {
        assert(words(st.1) =~= Seq::<Seq<char>>::empty());
        assert(line_words(st.0) =~= line_words(st.0) + words(st.1));
    }
}


/// The currency signs: EUR is `€` (U+20AC), USD `$`, GBP `£` (U+00A3), JPY
/// `¥` (U+00A5) and PLN `zł`; no two of these codes share a sign, and no
/// sign is the code itself. Any other code is written as itself followed by
/// a space, so it never takes one of the five signs.
pub proof fn currency_signs_are_distinct(code: Seq<char>)
    ensures
        symbol_spec(seq!['E', 'U', 'R']) == seq!['\u{20ac}'],
        symbol_spec(seq!['U', 'S', 'D']) == seq!['$'],
        symbol_spec(seq!['G', 'B', 'P']) == seq!['\u{a3}'],
        symbol_spec(seq!['J', 'P', 'Y']) == seq!['\u{a5}'],
        symbol_spec(seq!['P', 'L', 'N']) == seq!['z', '\u{142}'],
        forall|a: Seq<char>, b: Seq<char>|
            known_code(a) && known_code(b) && a != b ==> #[trigger] symbol_spec(a) != #[trigger] symbol_spec(b),
        !known_code(code) ==> symbol_spec(code) == code.push(' '),
        !known_code(code) ==> forall|a: Seq<char>| known_code(a) ==> #[trigger] symbol_spec(a) != symbol_spec(code),
{
    assert(seq!['\u{20ac}'] != seq!['$']) by {
        assert(seq!['\u{20ac}'][0] != seq!['$'][0]);
    }
    let eur = seq!['\u{20ac}'];
    let usd = seq!['$'];
    let gbp = seq!['\u{a3}'];
    let jpy = seq!['\u{a5}'];
    let pln = seq!['z', '\u{142}'];
    assert(eur[0] != usd[0] && eur[0] != gbp[0] && eur[0] != jpy[0] && usd[0] != gbp[0] && usd[0] != jpy[0]
        && gbp[0] != jpy[0]);
    assert(pln.len() == 2 && eur.len() == 1 && usd.len() == 1 && gbp.len() == 1 && jpy.len() == 1);
    if !known_code(code) {
        let t = code.push(' ');
        assert(t.last() == ' ');
        assert(eur.last() != ' ' && usd.last() != ' ' && gbp.last() != ' ' && jpy.last() != ' ' && pln.last() != ' ');
    }
}

/// Whether a code is one of the five with a sign of its own.
pub open spec fn known_code(code: Seq<char>) -> bool {
    code == seq!['E', 'U', 'R'] || code == seq!['U', 'S', 'D'] || code == seq!['G', 'B', 'P'] || code == seq![
        'J',
        'P',
        'Y',
    ] || code == seq!['P', 'L', 'N']
}

} // verus!
