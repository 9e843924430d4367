//! Searching and number reading over byte strings, shared by the PDF reader
//! and writer.
use vstd::prelude::*;

verus! {

/// `needle` occurs in `hay` starting at index `i`.
pub open spec fn matches_at<T>(hay: Seq<T>, needle: Seq<T>, i: int) -> bool {
    0 <= i && i + needle.len() <= hay.len() && hay.subrange(i, i + needle.len()) == needle
}

/// The first index `>= from` at which `needle` occurs in `hay`.
pub open spec fn find_spec<T>(hay: Seq<T>, needle: Seq<T>, from: int) -> Option<int>
    decreases hay.len() + 1 - from,
{
    if from < 0 || from + needle.len() > hay.len() {
        None
    } else if matches_at(hay, needle, from) {
        Some(from)
    } else {
        find_spec(hay, needle, from + 1)
    }
}

/// The last index `<= upto` at which `needle` occurs in `hay`.
pub open spec fn rfind_spec<T>(hay: Seq<T>, needle: Seq<T>, upto: int) -> Option<int>
    decreases upto + 1,
{
    if upto < 0 {
        None
    } else if matches_at(hay, needle, upto) {
        Some(upto)
    } else {
        rfind_spec(hay, needle, upto - 1)
    }
}

/// The last occurrence of `needle` in `hay`.
pub open spec fn find_last_spec<T>(hay: Seq<T>, needle: Seq<T>) -> Option<int> {
    rfind_spec(hay, needle, hay.len() - needle.len())
}

pub proof fn lemma_find_spec_props<T>(hay: Seq<T>, needle: Seq<T>, from: int)
    requires
        from >= 0,
    ensures
        find_spec(hay, needle, from) matches Some(i) ==> from <= i && matches_at(hay, needle, i)
            && forall|j: int| from <= j < i ==> !matches_at(hay, needle, j),
        find_spec(hay, needle, from) is None ==> forall|j: int|
            from <= j ==> !matches_at(hay, needle, j),
    decreases hay.len() + 1 - from,
{
    if from + needle.len() <= hay.len() && !matches_at(hay, needle, from) {
        lemma_find_spec_props(hay, needle, from + 1);
    }
}

/// Searching a suffix of `s` is searching `s` itself, shifted.
pub proof fn lemma_find_skip<T>(s: Seq<T>, n: Seq<T>, k: int, f: int)
    requires
        0 <= k <= s.len(),
        0 <= f,
    ensures
        find_spec(s.skip(k), n, f) == (match find_spec(s, n, f + k) {
            Some(i) => Some(i - k),
            None => None::<int>,
        }),
    decreases s.len() + 1 - (f + k),
{
    if f + k + n.len() <= s.len() {
        assert(s.skip(k).subrange(f, f + n.len()) =~= s.subrange(f + k, f + k + n.len()));
        if !matches_at(s, n, f + k) {
            lemma_find_skip(s, n, k, f + 1);
        }
    }
}

pub proof fn lemma_rfind_spec_props<T>(hay: Seq<T>, needle: Seq<T>, upto: int)
    ensures
        rfind_spec(hay, needle, upto) matches Some(i) ==> i <= upto && matches_at(hay, needle, i),
    decreases upto + 1,
{
    if upto >= 0 && !matches_at(hay, needle, upto) {
        lemma_rfind_spec_props(hay, needle, upto - 1);
    }
}

/// Whether `needle` occurs in `hay` at `i`.
pub fn bytes_match_at(hay: &[u8], needle: &[u8], i: usize) -> (res: bool)
    ensures
        res == matches_at(hay@, needle@, i as int),
{
    if i > hay.len() || needle.len() > hay.len() - i {
        return false;
    }
    let mut k: usize = 0;
    while k < needle.len()
        invariant
            i + needle.len() <= hay.len(),
            k <= needle.len(),
            forall|m: int| 0 <= m < k ==> hay@[i + m] == needle@[m],
        decreases needle.len() - k,
    {
        if hay[i + k] != needle[k] {
            assert(hay@.subrange(i as int, i + needle.len())[k as int] != needle@[k as int]);
            return false;
        }
        k += 1;
    }
    assert(hay@.subrange(i as int, i + needle.len()) =~= needle@);
    true
}

/// First index of `needle` in `hay` at or after `from`.
pub fn find_from(hay: &[u8], needle: &[u8], from: usize) -> (res: Option<usize>)
    ensures
        res matches Some(i) ==> find_spec(hay@, needle@, from as int) == Some(i as int),
        res is None ==> find_spec(hay@, needle@, from as int) is None,
{
    if from > hay.len() || needle.len() > hay.len() - from {
        return None;
    }
    let mut i = from;
    let last = hay.len() - needle.len();
    loop
        invariant
            from <= i <= last,
            last + needle.len() == hay.len(),
            find_spec(hay@, needle@, from as int) == find_spec(hay@, needle@, i as int),
        decreases last - i,
    {
        if bytes_match_at(hay, needle, i) {
            return Some(i);
        }
        if i == last {
            assert(find_spec(hay@, needle@, i + 1) is None);
            return None;
        }
        i += 1;
    }
}

/// Last index of `needle` in `hay`.
pub fn find_last(hay: &[u8], needle: &[u8]) -> (res: Option<usize>)
    ensures
        res matches Some(i) ==> find_last_spec(hay@, needle@) == Some(i as int),
        res is None ==> find_last_spec(hay@, needle@) is None,
{
    if needle.len() > hay.len() {
        return None;
    }
    let mut i = hay.len() - needle.len();
    loop
        invariant
            i + needle.len() <= hay.len(),
            find_last_spec(hay@, needle@) == rfind_spec(hay@, needle@, i as int),
        decreases i,
    {
        if bytes_match_at(hay, needle, i) {
            return Some(i);
        }
        if i == 0 {
            assert(rfind_spec(hay@, needle@, -1) is None);
            return None;
        }
        i -= 1;
    }
}

/// An ASCII digit.
pub open spec fn is_digit(b: u8) -> bool {
    48 <= b <= 57
}

/// The decimal value of the digit bytes of `s`, read left to right; other
/// bytes are skipped.
pub open spec fn ascii_value(s: Seq<u8>) -> int
    decreases s.len(),
{
    if s.len() == 0 {
        0
    } else if is_digit(s.last()) {
        ascii_value(s.drop_last()) * 10 + (s.last() - 48)
    } else {
        ascii_value(s.drop_last())
    }
}

pub proof fn lemma_ascii_value_prefix(s: Seq<u8>, k: int)
    requires
        0 <= k <= s.len(),
    ensures
        0 <= ascii_value(s.take(k)) <= ascii_value(s),
    decreases s.len(),
{
    if s.len() > 0 {
        if k == s.len() {
            assert(s.take(k) =~= s);
            lemma_ascii_value_prefix(s.drop_last(), s.len() - 1);
            assert(s.drop_last().take(s.len() - 1) =~= s.drop_last());
        } else {
            lemma_ascii_value_prefix(s.drop_last(), k);
            assert(s.drop_last().take(k) =~= s.take(k));
            lemma_ascii_value_prefix(s.drop_last(), s.len() - 1);
            assert(s.drop_last().take(s.len() - 1) =~= s.drop_last());
        }
    }
}

/// Parse an ASCII integer (no sign), defaulting to 0 on empty input.
pub fn ascii_int(bytes: &[u8]) -> (res: i32)
    requires
        ascii_value(bytes@) <= i32::MAX,
    ensures
        res == ascii_value(bytes@),
{
    let mut acc: i32 = 0;
    let mut i: usize = 0;
    while i < bytes.len()
        invariant
            i <= bytes.len(),
            ascii_value(bytes@) <= i32::MAX,
            acc == ascii_value(bytes@.take(i as int)),
        decreases bytes.len() - i,
    {
        proof {
            lemma_ascii_value_prefix(bytes@, i + 1);
            assert(bytes@.take(i + 1).drop_last() =~= bytes@.take(i as int));
        }
        let b = bytes[i];
        if b >= 48 && b <= 57 {
            acc = acc * 10 + (b - 48) as i32;
        }
        i += 1;
    }
    assert(bytes@.take(i as int) =~= bytes@);
    acc
}

/// Append `s` to `out`.
pub fn push_all(out: &mut Vec<u8>, s: &[u8])
    ensures
        final(out)@ == old(out)@ + s@,
{
    let mut i: usize = 0;
    while i < s.len()
        invariant
            i <= s.len(),
            out@ == old(out)@ + s@.take(i as int),
        decreases s.len() - i,
    {
        out.push(s[i]);
        i += 1;
        assert(out@ =~= old(out)@ + s@.take(i as int));
    }
    assert(s@.take(i as int) =~= s@);
}

/// The bytes from `skip_nondigits`: everything from the first ASCII digit on.
pub open spec fn skip_nondigits(s: Seq<u8>) -> Seq<u8>
    decreases s.len(),
{
    if s.len() == 0 || is_digit(s[0]) {
        s
    } else {
        skip_nondigits(s.drop_first())
    }
}

/// The leading run of ASCII digits of `s`.
pub open spec fn take_digits(s: Seq<u8>) -> Seq<u8>
    decreases s.len(),
{
    if s.len() == 0 || !is_digit(s[0]) {
        Seq::empty()
    } else {
        seq![s[0]] + take_digits(s.drop_first())
    }
}

/// The bytes of `s` after its leading run of spaces.
pub open spec fn skip_spaces_spec(s: Seq<u8>) -> Seq<u8>
    decreases s.len(),
{
    if s.len() == 0 || s[0] != 32u8 {
        s
    } else {
        skip_spaces_spec(s.drop_first())
    }
}

/// Index of the first digit in `s` at or after `from` (or `s.len()`).
pub fn first_digit_from(s: &[u8], from: usize) -> (res: usize)
    requires
        from <= s.len(),
    ensures
        from <= res <= s.len(),
        skip_nondigits(s@.skip(from as int)) == s@.skip(res as int),
{
    let mut i = from;
    while i < s.len() && !(s[i] >= 48 && s[i] <= 57)
        invariant
            from <= i <= s.len(),
            skip_nondigits(s@.skip(from as int)) == skip_nondigits(s@.skip(i as int)),
        decreases s.len() - i,
    {
        assert(s@.skip(i as int).drop_first() =~= s@.skip(i + 1));
        i += 1;
    }
    i
}

/// Index of the first space-free byte in `s` at or after `from`.
pub fn skip_spaces(s: &[u8], from: usize) -> (res: usize)
    requires
        from <= s.len(),
    ensures
        from <= res <= s.len(),
        skip_spaces_spec(s@.skip(from as int)) == s@.skip(res as int),
{
    let mut i = from;
    while i < s.len() && s[i] == 32
        invariant
            from <= i <= s.len(),
            skip_spaces_spec(s@.skip(from as int)) == skip_spaces_spec(s@.skip(i as int)),
        decreases s.len() - i,
    {
        assert(s@.skip(i as int).drop_first() =~= s@.skip(i + 1));
        i += 1;
    }
    i
}

/// Index just past a run of ASCII digits starting at `from`.
pub fn skip_digits(s: &[u8], from: usize) -> (res: usize)
    requires
        from <= s.len(),
    ensures
        from <= res <= s.len(),
        take_digits(s@.skip(from as int)) == s@.subrange(from as int, res as int),
{
    let mut i = from;
    while i < s.len() && s[i] >= 48 && s[i] <= 57
        invariant
            from <= i <= s.len(),
            forall|k: int| from <= k < i ==> is_digit(#[trigger] s@[k]),
            take_digits(s@.skip(from as int)) == s@.subrange(from as int, i as int) + take_digits(
                s@.skip(i as int),
            ),
        decreases s.len() - i,
    {
        assert(s@.skip(i as int).drop_first() =~= s@.skip(i + 1));
        assert(s@.subrange(from as int, i as int) + seq![s@[i as int]] =~= s@.subrange(
            from as int,
            i + 1,
        ));
        i += 1;
    }
    assert(take_digits(s@.skip(i as int)) =~= Seq::<u8>::empty());
    assert(s@.subrange(from as int, i as int) + Seq::<u8>::empty() =~= s@.subrange(
        from as int,
        i as int,
    ));
    i
}

} // verus!
