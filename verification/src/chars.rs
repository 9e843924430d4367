//! Text as sequences of characters: the string operations the CSS, template and
//! markup code share, each with its meaning stated over `Seq<char>`.
use vstd::prelude::*;
use crate::bytes::{find_spec, matches_at};

verus! {

/// The characters of `s`, in order.
pub fn chars_of(s: &str) -> (res: Vec<char>)
    ensures
        res@ == s@,
{
    let mut out: Vec<char> = Vec::new();
    for c in it: s.chars()
        invariant
            it.seq() == s@,
            out@ == it.seq().take(it.index() as int),
    {
        out.push(c);
    }
    out
}

/// `std::string::String::from_iter`: a `String` holding exactly the
/// characters `cs`.
#[verifier::external_body]
pub fn string_of(cs: &[char]) -> (res: String)
    ensures
        res@ == cs@,
{
    String::from_iter(cs)
}

/// A Unicode `White_Space` character (what `char::is_whitespace` accepts).
pub open spec fn is_ws(c: char) -> bool {
    c == ' ' || c == '\t' || c == '\n' || c == '\x0B' || c == '\x0C' || c == '\r'
        || c == '\u{85}' || c == '\u{A0}' || c == '\u{1680}' || ('\u{2000}' <= c
        && c <= '\u{200A}') || c == '\u{2028}' || c == '\u{2029}' || c == '\u{202F}'
        || c == '\u{205F}' || c == '\u{3000}'
}

/// Whether `c` is whitespace.
pub fn is_whitespace(c: char) -> (res: bool)
    ensures
        res == is_ws(c),
{
    c == ' ' || c == '\t' || c == '\n' || c == '\x0B' || c == '\x0C' || c == '\r'
        || c == '\u{85}' || c == '\u{A0}' || c == '\u{1680}' || ('\u{2000}' <= c
        && c <= '\u{200A}') || c == '\u{2028}' || c == '\u{2029}' || c == '\u{202F}'
        || c == '\u{205F}' || c == '\u{3000}'
}

/// `s` without leading whitespace.
pub open spec fn trim_start(s: Seq<char>) -> Seq<char>
    decreases s.len(),
{
    if s.len() > 0 && is_ws(s[0]) {
        trim_start(s.drop_first())
    } else {
        s
    }
}

/// `s` without trailing whitespace.
pub open spec fn trim_end(s: Seq<char>) -> Seq<char>
    decreases s.len(),
{
    if s.len() > 0 && is_ws(s.last()) {
        trim_end(s.drop_last())
    } else {
        s
    }
}

/// `s` without leading or trailing whitespace.
pub open spec fn trim(s: Seq<char>) -> Seq<char> {
    trim_end(trim_start(s))
}

/// Indices `(a, b)` of the trimmed part of `s[from..to]`.
pub fn trim_bounds(s: &[char], from: usize, to: usize) -> (res: (usize, usize))
    requires
        from <= to <= s@.len(),
    ensures
        from <= res.0 <= res.1 <= to,
        s@.subrange(res.0 as int, res.1 as int) == trim(s@.subrange(from as int, to as int)),
{
    let mut a = from;
    while a < to && is_whitespace(s[a])
        invariant
            from <= a <= to,
            to <= s@.len(),
            trim_start(s@.subrange(from as int, to as int)) == trim_start(s@.subrange(a as int, to as int)),
        decreases to - a,
    {
        assert(s@.subrange(a as int, to as int).drop_first() =~= s@.subrange(a + 1, to as int));
        a += 1;
    }
    let mut b = to;
    while b > a && is_whitespace(s[b - 1])
        invariant
            from <= a <= b <= to,
            to <= s@.len(),
            trim_end(s@.subrange(a as int, to as int)) == trim_end(s@.subrange(a as int, b as int)),
        decreases b,
    {
        assert(s@.subrange(a as int, b as int).drop_last() =~= s@.subrange(a as int, b - 1));
        b -= 1;
    }
    (a, b)
}

/// The trimmed characters of `s`.
pub fn trim_chars(s: &[char]) -> (res: Vec<char>)
    ensures
        res@ == trim(s@),
{
    let n = s.len();
    let (a, b) = trim_bounds(s, 0, n);
    assert(s@.subrange(0, n as int) =~= s@);
    copy_range(s, a, b)
}

/// A copy of `s[a..b]`.
pub fn copy_range(s: &[char], a: usize, b: usize) -> (res: Vec<char>)
    requires
        a <= b <= s@.len(),
    ensures
        res@ == s@.subrange(a as int, b as int),
{
    let mut out: Vec<char> = Vec::new();
    let mut i = a;
    while i < b
        invariant
            a <= i <= b,
            b <= s@.len(),
            out@ == s@.subrange(a as int, i as int),
        decreases b - i,
    {
        out.push(s[i]);
        i += 1;
        assert(out@ =~= s@.subrange(a as int, i as int));
    }
    out
}

/// Append `s` to `out`.
pub fn push_chars(out: &mut Vec<char>, s: &[char])
    ensures
        final(out)@ == old(out)@ + s@,
{
    let mut i: usize = 0;
    while i < s.len()
        invariant
            i <= s.len(),
            out@ == old(out)@ + s@.take(i as int),
        decreases s.len() - i,
    {
        out.push(s[i]);
        i += 1;
        assert(out@ =~= old(out)@ + s@.take(i as int));
    }
    assert(s@.take(i as int) =~= s@);
}

/// Append the characters of `s` to `out`.
pub fn push_str(out: &mut Vec<char>, s: &str)
    ensures
        final(out)@ == old(out)@ + s@,
{
    let c = chars_of(s);
    push_chars(out, c.as_slice());
}

/// Whether `needle` occurs in `hay` at `i`.
pub fn chars_match_at(hay: &[char], needle: &[char], i: usize) -> (res: bool)
    ensures
        res == matches_at(hay@, needle@, i as int),
{
    if i > hay.len() || needle.len() > hay.len() - i {
        return false;
    }
    let mut k: usize = 0;
    while k < needle.len()
        invariant
            i + needle.len() <= hay.len(),
            k <= needle.len(),
            forall|m: int| 0 <= m < k ==> hay@[i + m] == needle@[m],
        decreases needle.len() - k,
    {
        if hay[i + k] != needle[k] {
            assert(hay@.subrange(i as int, i + needle.len())[k as int] != needle@[k as int]);
            return false;
        }
        k += 1;
    }
    assert(hay@.subrange(i as int, i + needle.len()) =~= needle@);
    true
}

/// First index of `needle` in `hay` at or after `from`.
pub fn find_chars(hay: &[char], needle: &[char], from: usize) -> (res: Option<usize>)
    ensures
        res matches Some(i) ==> find_spec(hay@, needle@, from as int) == Some(i as int),
        res is None ==> find_spec(hay@, needle@, from as int) is None,
        res matches Some(i) ==> from <= i && i + needle@.len() <= hay@.len() && matches_at(hay@, needle@, i as int),
{
    if from > hay.len() || needle.len() > hay.len() - from {
        return None;
    }
    let mut i = from;
    let last = hay.len() - needle.len();
    loop
        invariant
            from <= i <= last,
            last + needle.len() == hay.len(),
            find_spec(hay@, needle@, from as int) == find_spec(hay@, needle@, i as int),
        decreases last - i,
    {
        if chars_match_at(hay, needle, i) {
            return Some(i);
        }
        if i == last {
            assert(find_spec(hay@, needle@, i + 1) is None);
            return None;
        }
        i += 1;
    }
}

/// Whether two character sequences are equal.
pub fn chars_eq(a: &[char], b: &[char]) -> (res: bool)
    ensures
        res == (a@ == b@),
{
    if a.len() != b.len() {
        return false;
    }
    let r = chars_match_at(a, b, 0);
    assert(a@.subrange(0, b@.len() as int) =~= a@);
    r
}

/// Whether `a` spells the text `lit`.
pub fn eq_str(a: &[char], lit: &str) -> (res: bool)
    ensures
        res == (a@ == lit@),
{
    let l = chars_of(lit);
    chars_eq(a, l.as_slice())
}

/// `s` begins with `p`.
pub open spec fn starts_with(s: Seq<char>, p: Seq<char>) -> bool {
    p.len() <= s.len() && s.take(p.len() as int) == p
}

/// `s` ends with `p`.
pub open spec fn ends_with(s: Seq<char>, p: Seq<char>) -> bool {
    p.len() <= s.len() && s.skip(s.len() - p.len()) == p
}

/// Whether `s` begins with `p`.
pub fn has_prefix(s: &[char], p: &[char]) -> (res: bool)
    ensures
        res == starts_with(s@, p@),
{
    if p.len() > s.len() {
        return false;
    }
    let r = chars_match_at(s, p, 0);
    assert(s@.subrange(0, p@.len() as int) =~= s@.take(p@.len() as int));
    r
}

/// Whether `s` ends with `p`.
pub fn has_suffix(s: &[char], p: &[char]) -> (res: bool)
    ensures
        res == ends_with(s@, p@),
{
    if p.len() > s.len() {
        return false;
    }
    let r = chars_match_at(s, p, s.len() - p.len());
    assert(s@.subrange(s@.len() - p@.len(), s@.len() as int) =~= s@.skip(s@.len() - p@.len()));
    r
}

/// The ASCII lowercase of one character.
pub open spec fn lower(c: char) -> char {
    if 'A' <= c && c <= 'Z' {
        ((c as u8) + 32) as char
    } else {
        c
    }
}

/// `s` with ASCII letters lowercased.
pub open spec fn ascii_lower(s: Seq<char>) -> Seq<char> {
    Seq::new(s.len(), |i: int| lower(s[i]))
}

/// The ASCII lowercase of one character.
pub fn lower_char(c: char) -> (res: char)
    ensures
        res == lower(c),
{
    if 'A' <= c && c <= 'Z' {
        ((c as u8) + 32) as char
    } else {
        c
    }
}

/// `s` with ASCII letters lowercased.
pub fn to_lower(s: &[char]) -> (res: Vec<char>)
    ensures
        res@ == ascii_lower(s@),
{
    let mut out: Vec<char> = Vec::new();
    let mut i: usize = 0;
    while i < s.len()
        invariant
            i <= s.len(),
            out@ == ascii_lower(s@.take(i as int)),
        decreases s.len() - i,
    {
        out.push(lower_char(s[i]));
        i += 1;
        assert(out@ =~= ascii_lower(s@.take(i as int)));
    }
    assert(s@.take(i as int) =~= s@);
    out
}

/// Two texts equal up to ASCII case.
pub open spec fn eq_ignore_case(a: Seq<char>, b: Seq<char>) -> bool {
    ascii_lower(a) == ascii_lower(b)
}

/// Whether two texts are equal up to ASCII case.
pub fn chars_eq_ignore_case(a: &[char], b: &[char]) -> (res: bool)
    ensures
        res == eq_ignore_case(a@, b@),
{
    let la = to_lower(a);
    let lb = to_lower(b);
    chars_eq(la.as_slice(), lb.as_slice())
}

/// The whitespace-separated words of `s`, in order.
pub open spec fn words(s: Seq<char>) -> Seq<Seq<char>>
    decreases s.len(),
{
    if s.len() == 0 {
        Seq::empty()
    } else if is_ws(s[0]) {
        words(s.drop_first())
    } else {
        let j = word_len(s);
        if j <= 0 || j > s.len() {
            Seq::empty()
        } else {
            seq![s.take(j)] + words(s.skip(j))
        }
    }
}

/// The length of the leading run of non-whitespace characters.
pub open spec fn word_len(s: Seq<char>) -> int
    decreases s.len(),
{
    if s.len() == 0 || is_ws(s[0]) {
        0
    } else {
        1 + word_len(s.drop_first())
    }
}

/// The views of a list of character vectors.
pub open spec fn texts_view(s: Seq<Vec<char>>) -> Seq<Seq<char>> {
    s.map_values(|v: Vec<char>| v@)
}

/// The whitespace-separated words of `s`.
pub fn split_words(s: &[char]) -> (res: Vec<Vec<char>>)
    ensures
        texts_view(res@) == words(s@),
{
    let mut out: Vec<Vec<char>> = Vec::new();
    let mut i: usize = 0;
    let n = s.len();
    assert(s@.skip(0) =~= s@);
    assert(texts_view(out@) =~= Seq::<Seq<char>>::empty());
    while i < n
        invariant
            i <= n,
            n == s@.len(),
            words(s@) == texts_view(out@) + words(s@.skip(i as int)),
        decreases n - i,
    {
        if is_whitespace(s[i]) {
            assert(s@.skip(i as int).drop_first() =~= s@.skip(i + 1));
            i += 1;
        } else {
            let mut k = i;
            while k < n && !is_whitespace(s[k])
                invariant
                    i <= k <= n,
                    n == s@.len(),
                    word_len(s@.skip(i as int)) == (k - i) + word_len(s@.skip(k as int)),
                decreases n - k,
            {
                assert(s@.skip(k as int).drop_first() =~= s@.skip(k + 1));
                k += 1;
            }
            assert(word_len(s@.skip(k as int)) == 0);
            let ghost old_out = out@;
            out.push(copy_range(s, i, k));
            assert(s@.skip(i as int).take(k - i) =~= s@.subrange(i as int, k as int));
            assert(s@.skip(i as int).skip(k - i) =~= s@.skip(k as int));
            assert(texts_view(out@) =~= texts_view(old_out).push(s@.subrange(i as int, k as int)));
            assert(texts_view(out@) + words(s@.skip(k as int)) =~= texts_view(old_out) + (seq![
                s@.subrange(i as int, k as int),
            ] + words(s@.skip(k as int))));
            i = k;
        }
    }
    assert(texts_view(out@) + words(s@.skip(i as int)) =~= texts_view(out@));
    out
}

/// The pieces of `s` between occurrences of `sep` (all of them, empty ones
/// included), in order.
pub open spec fn split_on(s: Seq<char>, sep: char) -> Seq<Seq<char>>
    decreases s.len(),
{
    match find_spec(s, seq![sep], 0) {
        Some(i) => if 0 <= i < s.len() {
            seq![s.take(i)] + split_on(s.skip(i + 1), sep)
        } else {
            seq![s]
        },
        None => seq![s],
    }
}

/// The pieces of `s` between occurrences of `sep`.
pub fn split_char(s: &[char], sep: char) -> (res: Vec<Vec<char>>)
    ensures
        texts_view(res@) == split_on(s@, sep),
        res@.len() >= 1,
{
    let mut out: Vec<Vec<char>> = Vec::new();
    let mut start: usize = 0;
    let n = s.len();
    let pat: [char; 1] = [sep];
    assert(pat@ =~= seq![sep]);
    assert(s@.skip(0) =~= s@);
    assert(texts_view(out@) =~= Seq::<Seq<char>>::empty());
    loop
        invariant
            start <= n,
            n == s@.len(),
            pat@ == seq![sep],
            split_on(s@, sep) == texts_view(out@) + split_on(s@.skip(start as int), sep),
        decreases n - start,
    {
        let rest = copy_range(s, start, n);
        assert(rest@ =~= s@.skip(start as int));
        let ghost old_out = out@;
        match find_chars(rest.as_slice(), &pat, 0) {
            Some(i) => {
                out.push(copy_range(rest.as_slice(), 0, i));
                assert(rest@.subrange(0, i as int) =~= rest@.take(i as int));
                assert(rest@.skip(i + 1) =~= s@.skip(start + i + 1));
                assert(texts_view(out@) + split_on(s@.skip(start + i + 1), sep) =~= texts_view(old_out)
                    + split_on(rest@, sep));
                start = start + i + 1;
            },
            None => {
                out.push(rest);
                assert(texts_view(out@) =~= texts_view(old_out) + split_on(rest@, sep));
                return out;
            },
        }
    }
}


/// The decimal digits of `n` as characters.
pub open spec fn decimal_text(n: nat) -> Seq<char>
    decreases n,
{
    if n < 10 {
        seq![(48 + n) as char]
    } else {
        decimal_text(n / 10).push((48 + n % 10) as char)
    }
}

/// The decimal digits of `n`.
pub fn decimal_chars(n: usize) -> (res: Vec<char>)
    ensures
        res@ == decimal_text(n as nat),
    decreases n,
{
    if n < 10 {
        let mut v: Vec<char> = Vec::new();
        v.push(((48 + n) as u8) as char);
        assert(v@ =~= decimal_text(n as nat));
        v
    } else {
        let mut v = decimal_chars(n / 10);
        v.push(((48 + n % 10) as u8) as char);
        v
    }
}



/// The length of the leading word of `a + t`: that of `a` when `a` holds
/// whitespace, else all of `a` and the leading word of `t`.
proof fn lemma_word_len_concat(a: Seq<char>, t: Seq<char>)
    ensures
        0 <= word_len(a) <= a.len(),
        word_len(a) < a.len() ==> word_len(a + t) == word_len(a),
        word_len(a) == a.len() ==> word_len(a + t) == a.len() + word_len(t),
    decreases a.len(),
{
    if a.len() == 0 {
        assert(a + t =~= t);
    } else {
        assert((a + t).drop_first() =~= a.drop_first() + t);
        assert((a + t)[0] == a[0]);
        lemma_word_len_concat(a.drop_first(), t);
    }
}

/// Whitespace separates words: the words of `a`, a whitespace character and
/// `b` are the words of `a` followed by those of `b`.
pub proof fn lemma_words_split(a: Seq<char>, c: char, b: Seq<char>)
    requires
        is_ws(c),
    ensures
        words(a + seq![c] + b) == words(a) + words(b),
    decreases a.len(),
{
    let s = a + seq![c] + b;
    if a.len() == 0 {
        assert(s.drop_first() =~= b);
        assert(s[0] == c);
        assert(words(a) =~= Seq::<Seq<char>>::empty());
        assert(words(a) + words(b) =~= words(b));
    } else if is_ws(a[0]) {
        assert(s[0] == a[0]);
        assert(s.drop_first() =~= a.drop_first() + seq![c] + b);
        lemma_words_split(a.drop_first(), c, b);
    } else {
        assert(s[0] == a[0]);
        let t = seq![c] + b;
        assert(s =~= a + t);
        lemma_word_len_concat(a, t);
        let j = word_len(a);
        assert(word_len(t) == 0);
        lemma_word_len_concat(a.drop_first(), t);
        assert(j == 1 + word_len(a.drop_first()));
        assert(s.take(j) =~= a.take(j));
        if j < a.len() {
            assert(s.skip(j) =~= a.skip(j) + seq![c] + b);
            lemma_words_split(a.skip(j), c, b);
            assert(words(a) == seq![a.take(j)] + words(a.skip(j)));
            assert(words(s) == seq![s.take(j)] + words(s.skip(j)));
            assert(words(s) =~= words(a) + words(b));
        } else {
            assert(s.skip(j) =~= t);
            assert(t.drop_first() =~= b);
            assert(words(t) == words(b));
            assert(a.skip(j) =~= Seq::<char>::empty());
            assert(words(a) == seq![a.take(j)] + words(a.skip(j)));
            assert(words(s) == seq![s.take(j)] + words(s.skip(j)));
            assert(words(s) =~= words(a) + words(b));
        }
    }
}

/// The decimal digits of a 64-bit unsigned number.
pub fn decimal_chars_u64(n: u64) -> (res: Vec<char>)
    ensures
        res@ == decimal_text(n as nat),
    decreases n,
{
    if n < 10 {
        let mut v: Vec<char> = Vec::new();
        v.push(((48 + n) as u8) as char);
        assert(v@ =~= decimal_text(n as nat));
        v
    } else {
        let mut v = decimal_chars_u64(n / 10);
        v.push(((48 + n % 10) as u8) as char);
        v
    }
}

/// A UTF-8 encoding is never shorter than the text it encodes.
pub proof fn lemma_utf8_len_ge(s: Seq<char>)
    ensures
        vstd::utf8::encode_utf8(s).len() >= s.len(),
    decreases s.len(),
{
    if s.len() > 0 {
        lemma_utf8_len_ge(s.drop_first());
    }
}

pub proof fn lemma_trim_start_len(s: Seq<char>)
    ensures
        trim_start(s).len() <= s.len(),
    decreases s.len(),
{
    if s.len() > 0 && is_ws(s[0]) {
        lemma_trim_start_len(s.drop_first());
    }
}

pub proof fn lemma_trim_end_len(s: Seq<char>)
    ensures
        trim_end(s).len() <= s.len(),
    decreases s.len(),
{
    if s.len() > 0 && is_ws(s.last()) {
        lemma_trim_end_len(s.drop_last());
    }
}

/// Trimming never lengthens a text.
pub proof fn lemma_trim_len(s: Seq<char>)
    ensures
        trim(s).len() <= s.len(),
{
    lemma_trim_start_len(s);
    lemma_trim_end_len(trim_start(s));
}

/// `s` without leading and trailing occurrences of `c`.
pub open spec fn trim_char(s: Seq<char>, c: char) -> Seq<char>
    decreases s.len(),
{
    if s.len() > 0 && s[0] == c {
        trim_char(s.drop_first(), c)
    } else if s.len() > 0 && s.last() == c {
        trim_char(s.drop_last(), c)
    } else {
        s
    }
}

/// `s` without leading and trailing occurrences of `c`.
pub fn trim_char_chars(s: &[char], c: char) -> (res: Vec<char>)
    ensures
        res@ == trim_char(s@, c),
{
    let n = s.len();
    let mut a: usize = 0;
    let mut b: usize = n;
    assert(s@.subrange(0, n as int) =~= s@);
    while a < b && (s[a] == c || s[b - 1] == c)
        invariant
            a <= b <= n,
            n == s@.len(),
            trim_char(s@, c) == trim_char(s@.subrange(a as int, b as int), c),
        decreases b - a,
    {
        if s[a] == c {
            assert(s@.subrange(a as int, b as int).drop_first() =~= s@.subrange(a + 1, b as int));
            a += 1;
        } else {
            assert(s@.subrange(a as int, b as int).drop_last() =~= s@.subrange(a as int, b - 1));
            b -= 1;
        }
    }
    copy_range(s, a, b)
}

/// The views of a list of strings.
pub open spec fn texts_view_s(s: Seq<String>) -> Seq<Seq<char>> {
    s.map_values(|x: String| x@)
}

} // verus!
