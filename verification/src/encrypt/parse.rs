//! Reading the finished PDF back into the objects the encryptor mutates.
//!
//! The grammar is the one this crate writes: a header, a run of top-level
//! indirect objects (`N G obj … endobj`, optionally carrying one stream), then a
//! classic `xref` table and a `trailer`. Each object's body is split into the
//! literal/hex string spans that must be encrypted and its raw stream bytes.
use vstd::prelude::*;
use crate::sort::{sort_offsets, sorted_spec};
use crate::bytes::{ascii_int, ascii_value, find_from, find_last, find_spec, find_last_spec, matches_at, push_all, skip_nondigits, take_digits, skip_spaces_spec, first_digit_from, skip_digits, skip_spaces};

verus! {

/// One located string inside an object body: its byte range in the body and
/// the decoded plaintext that range stands for.
pub struct StringSpan {
    pub start: usize,
    pub end: usize,
    pub bytes: Vec<u8>,
}

/// The plain-value picture of a [`StringSpan`].
pub struct SpanView {
    pub start: int,
    pub end: int,
    pub bytes: Seq<u8>,
}

impl View for StringSpan {
    type V = SpanView;

    open spec fn view(&self) -> SpanView {
        SpanView { start: self.start as int, end: self.end as int, bytes: self.bytes@ }
    }
}

/// The bytes of an optional buffer.
pub open spec fn opt_bytes(o: Option<Vec<u8>>) -> Option<Seq<u8>> {
    match o {
        Some(v) => Some(v@),
        None => None,
    }
}

/// The views of a list of spans.
pub open spec fn spans_view(s: Seq<StringSpan>) -> Seq<SpanView> {
    s.map_values(|x: StringSpan| x@)
}

// ---------------------------------------------------------------------------
// literal strings
// ---------------------------------------------------------------------------

/// A byte from `0..=7` in ASCII.
pub open spec fn is_octal(b: u8) -> bool {
    48 <= b <= 55
}

/// Decoding of an octal escape: the value of up to `left` octal digits read
/// from `i`, accumulated onto `value`, and the index after them.
pub open spec fn octal_spec(body: Seq<u8>, i: int, left: int, value: int) -> (int, int)
    decreases left,
{
    if left <= 0 || i < 0 || i >= body.len() || !is_octal(body[i]) {
        (i, value)
    } else {
        octal_spec(body, i + 1, left - 1, value * 8 + (body[i] - 48))
    }
}

/// The byte an escape `\\x` stands for, for the single-letter escapes.
pub open spec fn escape_byte(next: u8) -> u8 {
    if next == 110u8 {
        10u8
    } else if next == 114u8 {
        13u8
    } else if next == 116u8 {
        9u8
    } else if next == 98u8 {
        8u8
    } else if next == 102u8 {
        12u8
    } else {
        next
    }
}

/// One backslash escape at `i`: the next index and the output after it.
pub open spec fn escape_spec(body: Seq<u8>, i: int, out: Seq<u8>) -> (int, Seq<u8>) {
    let next = if i + 1 < body.len() {
        body[i + 1]
    } else {
        92u8
    };
    if is_octal(next) && i + 1 < body.len() {
        let (j, v) = octal_spec(body, i + 1, 3, 0);
        (j, out.push((v % 256) as u8))
    } else {
        (i + 2, out.push(escape_byte(next)))
    }
}

/// The literal string scanner, from index `i` at nesting `depth` with output
/// `out` so far: the index after the closing paren and the decoded bytes.
pub open spec fn literal_spec(body: Seq<u8>, i: int, depth: int, out: Seq<u8>) -> (int, Seq<u8>)
    decreases body.len() + 2 - i,
{
    if i < 0 || i >= body.len() {
        (i, out)
    } else if body[i] == 92u8 {
        let (j, o) = escape_spec(body, i, out);
        if j <= i || j > body.len() + 1 {
            (j, o)
        } else {
            literal_spec(body, j, depth, o)
        }
    } else {
        let b = body[i];
        if b == 40u8 {
            literal_spec(body, i + 1, depth + 1, out.push(b))
        } else if b == 41u8 && depth == 1 {
            (i + 1, out)
        } else if b == 41u8 {
            literal_spec(body, i + 1, depth - 1, out.push(b))
        } else {
            literal_spec(body, i + 1, depth, out.push(b))
        }
    }
}

proof fn lemma_octal_bounds(body: Seq<u8>, i: int, left: int, value: int)
    requires
        0 <= i <= body.len(),
        0 <= left <= 3,
        0 <= value,
        value < pow8(3 - left),
    ensures
        i <= octal_spec(body, i, left, value).0 <= body.len(),
        octal_spec(body, i, left, value).0 <= i + left,
        0 <= octal_spec(body, i, left, value).1 < 512,
    decreases left,
{
    if left > 0 && i < body.len() && is_octal(body[i]) {
        lemma_octal_bounds(body, i + 1, left - 1, value * 8 + (body[i] - 48));
    }
}

/// The literal scanner stops at or after where it starts, and at most one
/// past the end of the body.
proof fn lemma_literal_bounds(body: Seq<u8>, i: int, depth: int, out: Seq<u8>)
    requires
        0 <= i <= body.len() + 1,
    ensures
        i <= literal_spec(body, i, depth, out).0 <= body.len() + 1,
    decreases body.len() + 2 - i,
{
    if i < body.len() {
        if body[i] == 92u8 {
            let next = if i + 1 < body.len() {
                body[i + 1]
            } else {
                92u8
            };
            if is_octal(next) && i + 1 < body.len() {
                lemma_octal_bounds(body, i + 1, 3, 0);
            }
            let (j, o) = escape_spec(body, i, out);
            if !(j <= i || j > body.len() + 1) {
                lemma_literal_bounds(body, j, depth, o);
            }
        } else {
            let b = body[i];
            if b == 40u8 {
                lemma_literal_bounds(body, i + 1, depth + 1, out.push(b));
            } else if b == 41u8 && depth == 1 {
            } else if b == 41u8 {
                lemma_literal_bounds(body, i + 1, depth - 1, out.push(b));
            } else {
                lemma_literal_bounds(body, i + 1, depth, out.push(b));
            }
        }
    }
}

/// The string scanner reads through any body that does not end in `<`.
pub(crate) proof fn lemma_scan_some(body: Seq<u8>, i: int)
    requires
        body.len() > 0,
        body.last() != 60u8,
        0 <= i,
    ensures
        scan_spec(body, i) is Some,
    decreases body.len() + 2 - i,
{
    if i < body.len() {
        if body[i] == 40u8 {
            lemma_literal_bounds(body, i + 1, 1, Seq::empty());
            let (end, bytes) = literal_spec(body, i + 1, 1, Seq::empty());
            lemma_scan_some(body, end);
        } else if body[i] == 60u8 && i + 1 < body.len() && body[i + 1] == 60u8 {
            lemma_scan_some(body, i + 2);
        } else if body[i] == 60u8 {
            crate::bytes::lemma_find_spec_props(body, seq![62u8], i);
            match find_spec(body, seq![62u8], i) {
                Some(e) => {
                    assert(body.subrange(e, e + 1)[0] == 62u8);
                    assert(e != i);
                    lemma_scan_some(body, e + 1);
                },
                None => {
                    assert(i != body.len() - 1);
                    lemma_scan_some(body, body.len() as int);
                },
            }
        } else {
            lemma_scan_some(body, i + 1);
        }
    }
}

/// `8^k` for the few exponents octal escapes need.
pub open spec fn pow8(k: int) -> int {
    if k <= 0 {
        1
    } else if k == 1 {
        8
    } else if k == 2 {
        64
    } else {
        512
    }
}

/// Decode a 1–3 digit octal escape beginning at `start`, push the byte, return
/// the index after the last octal digit.
fn decode_octal(body: &[u8], start: usize, out: &mut Vec<u8>) -> (res: usize)
    requires
        start < body.len(),
        is_octal(body@[start as int]),
    ensures
        ({
            let (j, v) = octal_spec(body@, start as int, 3, 0);
            res == j && final(out)@ == old(out)@.push((v % 256) as u8)
        }),
        start < res <= body.len(),
{
    let mut value: u32 = 0;
    let mut i = start;
    proof {
        lemma_octal_bounds(body@, start as int, 3, 0);
    }
    while i < body.len() && i - start < 3 && body[i] >= 48 && body[i] < 56
        invariant
            start <= i <= body.len(),
            i <= start + 3,
            value < pow8(i - start),
            octal_spec(body@, start as int, 3, 0) == octal_spec(
                body@,
                i as int,
                3 - (i - start),
                value as int,
            ),
        decreases start + 3 - i,
    {
        value = value * 8 + (body[i] - 48) as u32;
        i += 1;
    }
    assert(octal_spec(body@, i as int, 3 - (i - start), value as int) == (i as int, value as int));
    out.push((value % 256) as u8);
    i
}

/// Decode one backslash escape at `i` (`body[i]` is a backslash), pushing the
/// resulting byte and returning the next index.
fn decode_escape(body: &[u8], i: usize, out: &mut Vec<u8>) -> (res: usize)
    requires
        i < body.len(),
        body.len() < usize::MAX - 2,
    ensures
        (res as int, final(out)@) == escape_spec(body@, i as int, old(out)@),
        i < res <= body.len() + 1,
{
    let next = if i + 1 < body.len() {
        body[i + 1]
    } else {
        92u8
    };
    if next >= 48 && next <= 55 && i + 1 < body.len() {
        decode_octal(body, i + 1, out)
    } else {
        let b = if next == 110 {
            10u8
        } else if next == 114 {
            13u8
        } else if next == 116 {
            9u8
        } else if next == 98 {
            8u8
        } else if next == 102 {
            12u8
        } else {
            next
        };
        out.push(b);
        i + 2
    }
}

/// Decode a literal string starting at `start` (`body[start]` is `(`),
/// returning the index after the closing paren and the decoded bytes.
fn decode_literal(body: &[u8], start: usize) -> (res: (usize, Vec<u8>))
    requires
        start < body.len(),
        body.len() < 0x7fff_ffff,
    ensures
        (res.0 as int, res.1@) == literal_spec(body@, start + 1, 1, Seq::empty()),
        start < res.0 <= body.len() + 1,
{
    let mut out: Vec<u8> = Vec::new();
    let mut depth: i32 = 1;
    let mut i = start + 1;
    while i < body.len()
        invariant
            start < i <= body.len() + 1,
            body.len() < 0x7fff_ffff,
            1 <= depth <= i,
            literal_spec(body@, start + 1, 1, Seq::empty()) == literal_spec(
                body@,
                i as int,
                depth as int,
                out@,
            ),
        decreases body.len() + 2 - i,
    {
        let b = body[i];
        if b == 92 {
            i = decode_escape(body, i, &mut out);
            continue;
        }
        i += 1;
        if b == 40 {
            out.push(b);
            depth = depth + 1;
        } else if b == 41 && depth == 1 {
            return (i, out);
        } else if b == 41 {
            out.push(b);
            depth = depth - 1;
        } else {
            out.push(b);
        }
    }
    (i, out)
}

// ---------------------------------------------------------------------------
// hex strings
// ---------------------------------------------------------------------------

/// One hex digit's value, or `None` for other bytes.
pub open spec fn hex_val_spec(b: u8) -> Option<u8> {
    if 48 <= b <= 57 {
        Some((b - 48) as u8)
    } else if 97 <= b <= 102 {
        Some((b - 97 + 10) as u8)
    } else if 65 <= b <= 70 {
        Some((b - 65 + 10) as u8)
    } else {
        None
    }
}

/// The bytes a run of hex digits stands for: digits pair up high nibble first,
/// and an odd trailing digit is padded with a zero nibble.
pub open spec fn pair_nibbles(d: Seq<u8>) -> Seq<u8> {
    Seq::new(
        ((d.len() + 1) / 2) as nat,
        |k: int|
            (d[2 * k] * 16 + (if 2 * k + 1 < d.len() {
                d[2 * k + 1] as int
            } else {
                0
            })) as u8,
    )
}

/// The decoded bytes of a hex string's inner text (non-hex bytes ignored).
pub open spec fn decode_hex_spec(inner: Seq<u8>) -> Seq<u8> {
    pair_nibbles(hex_digits(inner))
}

/// The values of the hex digits of `s`, in order.
pub open spec fn hex_digits(s: Seq<u8>) -> Seq<u8> {
    s.filter_map(|b: u8| hex_val_spec(b))
}

/// One hex digit's value, or `None` for non-hex bytes (whitespace etc.).
fn hex_val(b: u8) -> (res: Option<u8>)
    ensures
        res == hex_val_spec(b),
{
    if b >= 48 && b <= 57 {
        Some(b - 48)
    } else if b >= 97 && b <= 102 {
        Some(b - 97 + 10)
    } else if b >= 65 && b <= 70 {
        Some(b - 65 + 10)
    } else {
        None
    }
}

/// Decode the inner bytes of a hex string (whitespace ignored, odd trailing
/// nibble padded with 0).
pub fn decode_hex(inner: &[u8]) -> (res: Vec<u8>)
    ensures
        res@ == decode_hex_spec(inner@),
{
    let mut digits: Vec<u8> = Vec::new();
    let mut i: usize = 0;
    while i < inner.len()
        invariant
            i <= inner.len(),
            digits@ == hex_digits(inner@.take(i as int)),
            forall|k: int| 0 <= k < digits@.len() ==> #[trigger] digits@[k] < 16,
        decreases inner.len() - i,
    {
        assert(inner@.take(i + 1).drop_last() =~= inner@.take(i as int));
        match hex_val(inner[i]) {
            Some(v) => {
                digits.push(v);
            },
            None => {},
        }
        i += 1;
    }
    assert(inner@.take(i as int) =~= inner@);
    let mut out: Vec<u8> = Vec::new();
    let n = digits.len();
    let pairs = n / 2 + n % 2;
    let mut p: usize = 0;
    while p < pairs
        invariant
            p <= pairs,
            pairs == (n + 1) / 2,
            n == digits@.len(),
            forall|m: int| 0 <= m < digits@.len() ==> #[trigger] digits@[m] < 16,
            out@ == pair_nibbles(digits@).take(p as int),
        decreases pairs - p,
    {
        let k = p * 2;
        let lo = if k + 1 < n {
            digits[k + 1]
        } else {
            0
        };
        out.push(digits[k] * 16 + lo);
        assert(out@ =~= pair_nibbles(digits@).take(p + 1));
        p += 1;
    }
    assert(pair_nibbles(digits@).take(p as int) =~= pair_nibbles(digits@));
    out
}


// ---------------------------------------------------------------------------
// locating the strings of a body
// ---------------------------------------------------------------------------

/// The literal/hex strings of `body` from index `i` on, in order; `None` where
/// the scanner meets a lone `<` as the body's last byte, which it cannot slice.
pub open spec fn scan_spec(body: Seq<u8>, i: int) -> Option<Seq<SpanView>>
    decreases body.len() + 2 - i,
{
    if i < 0 || i >= body.len() {
        Some(Seq::empty())
    } else if body[i] == 40u8 {
        let (end, bytes) = literal_spec(body, i + 1, 1, Seq::empty());
        if end <= i || end > body.len() + 1 {
            None
        } else {
            match scan_spec(body, end) {
                Some(r) => Some(seq![SpanView { start: i, end, bytes }] + r),
                None => None,
            }
        }
    } else if body[i] == 60u8 && i + 1 < body.len() && body[i + 1] == 60u8 {
        scan_spec(body, i + 2)
    } else if body[i] == 60u8 {
        let end = match find_spec(body, seq![62u8], i) {
            Some(e) => e + 1,
            None => body.len() as int,
        };
        if end <= i || end - 1 < i + 1 || end > body.len() {
            None
        } else {
            match scan_spec(body, end) {
                Some(r) => Some(
                    seq![SpanView { start: i, end, bytes: decode_hex_spec(body.subrange(i + 1, end - 1)) }]
                        + r,
                ),
                None => None,
            }
        }
    } else {
        scan_spec(body, i + 1)
    }
}

/// Scan a literal `(...)` from `start`, decode it, push the span, return the
/// index just past the closing `)`.
fn scan_literal(body: &[u8], start: usize, spans: &mut Vec<StringSpan>) -> (res: usize)
    requires
        start < body.len(),
        body.len() < 0x7fff_ffff,
    ensures
        ({
            let (end, bytes) = literal_spec(body@, start + 1, 1, Seq::empty());
            res == end && spans_view(final(spans)@) == spans_view(old(spans)@).push(
                SpanView { start: start as int, end, bytes },
            )
        }),
        start < res <= body.len() + 1,
{
    let (end, bytes) = decode_literal(body, start);
    let ghost old_spans = spans@;
    spans.push(StringSpan { start, end, bytes });
    assert(spans_view(spans@) =~= spans_view(old_spans).push(spans@.last()@));
    end
}

/// Scan a hex `<...>` from `start`, decode it, push the span, return the index
/// just past the closing `>`.
fn scan_hex(body: &[u8], start: usize, spans: &mut Vec<StringSpan>) -> (res: usize)
    requires
        start < body.len(),
        scan_spec(body@, start as int) is Some,
        body@[start as int] == 60u8,
        !(start + 1 < body.len() && body@[start + 1] == 60u8),
    ensures
        ({
            let end = match find_spec(body@, seq![62u8], start as int) {
                Some(e) => e + 1,
                None => body@.len() as int,
            };
            res == end && spans_view(final(spans)@) == spans_view(old(spans)@).push(
                SpanView {
                    start: start as int,
                    end,
                    bytes: decode_hex_spec(body@.subrange(start + 1, end - 1)),
                },
            )
        }),
        start < res <= body.len(),
{
    let gt: [u8; 1] = [62];
    assert(gt@ =~= seq![62u8]);
    let end = match find_from(body, &gt, start) {
        Some(e) => {
            proof {
                crate::bytes::lemma_find_spec_props(body@, seq![62u8], start as int);
            }
            e + 1
        },
        None => body.len(),
    };
    let bytes = decode_hex(&body[start + 1..end - 1]);
    let ghost old_spans = spans@;
    spans.push(StringSpan { start, end, bytes });
    assert(spans_view(spans@) =~= spans_view(old_spans).push(spans@.last()@));
    end
}

/// Inspect the byte at `i`: enter a string scan, skip a dict delimiter, or
/// step. Returns the next index to inspect.
fn scan_token(body: &[u8], i: usize, spans: &mut Vec<StringSpan>) -> (res: usize)
    requires
        i < body.len(),
        body.len() < 0x7fff_ffff,
        scan_spec(body@, i as int) is Some,
    ensures
        i < res <= body.len() + 1,
        scan_spec(body@, res as int) is Some,
        spans_view(final(spans)@) + scan_spec(body@, res as int).unwrap() == spans_view(
            old(spans)@,
        ) + scan_spec(body@, i as int).unwrap(),
{
    let ghost old_spans = spans_view(spans@);
    if body[i] == 40 {
        let r = scan_literal(body, i, spans);
        assert(spans_view(spans@) + scan_spec(body@, r as int).unwrap() =~= old_spans
            + scan_spec(body@, i as int).unwrap());
        r
    } else if body[i] == 60 && i + 1 < body.len() && body[i + 1] == 60 {
        assert(spans_view(spans@) =~= old_spans);
        i + 2
    } else if body[i] == 60 {
        let r = scan_hex(body, i, spans);
        assert(spans_view(spans@) + scan_spec(body@, r as int).unwrap() =~= old_spans
            + scan_spec(body@, i as int).unwrap());
        r
    } else {
        i + 1
    }
}

/// Locate every literal `(...)` and hex `<...>` string in `body`, in order.
fn find_strings(body: &[u8]) -> (res: Vec<StringSpan>)
    requires
        body.len() < 0x7fff_ffff,
        scan_spec(body@, 0) is Some,
    ensures
        spans_view(res@) == scan_spec(body@, 0).unwrap(),
{
    let mut spans: Vec<StringSpan> = Vec::new();
    let mut i: usize = 0;
    assert(spans_view(spans@) =~= Seq::<SpanView>::empty());
    while i < body.len()
        invariant
            i <= body.len() + 1,
            body.len() < 0x7fff_ffff,
            scan_spec(body@, i as int) is Some,
            spans_view(spans@) + scan_spec(body@, i as int).unwrap() == scan_spec(
                body@,
                0,
            ).unwrap(),
        decreases body.len() + 1 - i,
    {
        i = scan_token(body, i, &mut spans);
    }
    assert(spans_view(spans@) + Seq::<SpanView>::empty() =~= spans_view(spans@));
    spans
}


// ---------------------------------------------------------------------------
// stream splitting
// ---------------------------------------------------------------------------

pub open spec fn kw_obj() -> Seq<u8> {
    seq![111u8, 98, 106]
}

pub open spec fn kw_endobj() -> Seq<u8> {
    seq![101u8, 110, 100, 111, 98, 106]
}

pub open spec fn kw_stream() -> Seq<u8> {
    seq![115u8, 116, 114, 101, 97, 109]
}

pub open spec fn kw_endstream() -> Seq<u8> {
    seq![101u8, 110, 100, 115, 116, 114, 101, 97, 109]
}

pub open spec fn kw_startxref() -> Seq<u8> {
    seq![115u8, 116, 97, 114, 116, 120, 114, 101, 102]
}

pub open spec fn kw_trailer() -> Seq<u8> {
    seq![116u8, 114, 97, 105, 108, 101, 114]
}

pub open spec fn key_size() -> Seq<u8> {
    seq![47u8, 83, 105, 122, 101]
}

pub open spec fn key_root() -> Seq<u8> {
    seq![47u8, 82, 111, 111, 116]
}

pub open spec fn key_info() -> Seq<u8> {
    seq![47u8, 73, 110, 102, 111]
}

/// The index after a single EOL (`\r\n` or `\n`) at `pos`.
pub open spec fn after_eol_spec(rest: Seq<u8>, pos: int) -> int {
    if 0 <= pos && pos + 1 < rest.len() && rest[pos] == 13u8 && rest[pos + 1] == 10u8 {
        pos + 2
    } else if 0 <= pos && pos < rest.len() && rest[pos] == 10u8 {
        pos + 1
    } else {
        pos
    }
}

/// `data` without one trailing EOL.
pub open spec fn strip_eol_spec(data: Seq<u8>) -> Seq<u8> {
    if data.len() >= 2 && data[data.len() - 2] == 13u8 && data[data.len() - 1] == 10u8 {
        data.take(data.len() - 2)
    } else if data.len() >= 1 && data[data.len() - 1] == 10u8 {
        data.take(data.len() - 1)
    } else {
        data
    }
}

/// The post-`obj` bytes of an object split into dictionary body and stream
/// payload; `None` where a `stream` has no `endstream`.
pub open spec fn split_stream_spec(rest: Seq<u8>) -> Option<(Seq<u8>, Option<Seq<u8>>)> {
    match find_spec(rest, kw_stream(), 0) {
        Some(kw) => {
            let ds = after_eol_spec(rest, kw + 6);
            match find_spec(rest, kw_endstream(), ds) {
                Some(de) => Some((rest.take(kw), Some(strip_eol_spec(rest.subrange(ds, de))))),
                None => None,
            }
        },
        None => Some((trim_endobj_spec(rest), None)),
    }
}

/// A stream-less body: everything before the first `endobj`.
pub open spec fn trim_endobj_spec(rest: Seq<u8>) -> Seq<u8> {
    match find_spec(rest, kw_endobj(), 0) {
        Some(e) => rest.take(e),
        None => rest,
    }
}

/// Advance past a single EOL following the `stream` keyword.
fn after_eol(rest: &[u8], pos: usize) -> (res: usize)
    requires
        pos <= rest.len(),
    ensures
        res == after_eol_spec(rest@, pos as int),
        pos <= res <= rest.len(),
{
    if pos < rest.len() && rest.len() - pos > 1 && rest[pos] == 13 && rest[pos + 1] == 10 {
        pos + 2
    } else if pos < rest.len() && rest[pos] == 10 {
        pos + 1
    } else {
        pos
    }
}

/// Drop a single trailing EOL before `endstream`.
fn strip_trailing_eol(data: &[u8]) -> (res: &[u8])
    ensures
        res@ == strip_eol_spec(data@),
{
    let n = data.len();
    if n >= 2 && data[n - 2] == 13 && data[n - 1] == 10 {
        &data[0..n - 2]
    } else if n >= 1 && data[n - 1] == 10 {
        &data[0..n - 1]
    } else {
        data
    }
}

/// Trim the trailing `endobj` region from a stream-less body.
fn trim_endobj(rest: &[u8]) -> (res: Vec<u8>)
    ensures
        res@ == trim_endobj_spec(rest@),
        res@.len() <= rest@.len(),
{
    let kw: [u8; 6] = [101, 110, 100, 111, 98, 106];
    assert(kw@ =~= kw_endobj());
    let end = match find_from(rest, &kw, 0) {
        Some(e) => {
            proof {
                crate::bytes::lemma_find_spec_props(rest@, kw_endobj(), 0);
            }
            e
        },
        None => rest.len(),
    };
    vstd::slice::slice_to_vec(&rest[0..end])
}

/// Split an object's post-`obj` bytes into the dictionary body and the stream
/// payload (if any).
fn split_stream(rest: &[u8]) -> (res: (Vec<u8>, Option<Vec<u8>>))
    requires
        split_stream_spec(rest@) is Some,
    ensures
        (res.0@, opt_bytes(res.1)) == split_stream_spec(rest@).unwrap(),
        res.0@.len() <= rest@.len(),
{
    let kw: [u8; 6] = [115, 116, 114, 101, 97, 109];
    assert(kw@ =~= kw_stream());
    let _n = rest.len();
    match find_from(rest, &kw, 0) {
        Some(k) => {
            proof {
                crate::bytes::lemma_find_spec_props(rest@, kw_stream(), 0);
                assert(kw_stream().len() == 6);
                assert(find_spec(rest@, kw_stream(), 0) == Some(k as int));
                assert(matches_at(rest@, kw_stream(), k as int));
                assert(k + 6 <= rest@.len());
            }
            let after_kw = k + 6;
            let body = vstd::slice::slice_to_vec(&rest[0..k]);
            let data_start = after_eol(rest, after_kw);
            let ekw: [u8; 9] = [101, 110, 100, 115, 116, 114, 101, 97, 109];
            assert(ekw@ =~= kw_endstream());
            let data_end = match find_from(rest, &ekw, data_start) {
                Some(e) => e,
                None => {
                    return (body, None);
                },
            };
            proof {
                crate::bytes::lemma_find_spec_props(rest@, kw_endstream(), data_start as int);
            }
            let payload = vstd::slice::slice_to_vec(strip_trailing_eol(&rest[data_start..data_end]));
            (body, Some(payload))
        },
        None => (trim_endobj(rest), None),
    }
}


// ---------------------------------------------------------------------------
// objects
// ---------------------------------------------------------------------------

/// One parsed indirect object, ready to be encrypted and re-serialised.
pub struct Object {
    /// The object number `N` (generation is always 0 here).
    pub number: i32,
    /// The dictionary/value body between `obj` and `stream`/`endobj`, verbatim.
    pub body: Vec<u8>,
    /// The plaintext stream payload, if this object has a `stream … endstream`.
    pub stream: Option<Vec<u8>>,
    /// The encrypted stream payload, filled in by the encryptor.
    pub encrypted_stream: Option<Vec<u8>>,
    /// The literal/hex string spans inside `body`, in source order.
    pub strings: Vec<StringSpan>,
}

/// The plain-value picture of an [`Object`].
pub struct ObjectView {
    pub number: int,
    pub body: Seq<u8>,
    pub stream: Option<Seq<u8>>,
    pub encrypted_stream: Option<Seq<u8>>,
    pub strings: Seq<SpanView>,
}

impl View for Object {
    type V = ObjectView;

    open spec fn view(&self) -> ObjectView {
        ObjectView {
            number: self.number as int,
            body: self.body@,
            stream: opt_bytes(self.stream),
            encrypted_stream: opt_bytes(self.encrypted_stream),
            strings: spans_view(self.strings@),
        }
    }
}

/// The views of a list of objects.
pub open spec fn objects_view(s: Seq<Object>) -> Seq<ObjectView> {
    s.map_values(|o: Object| o@)
}

/// The value of an unsigned decimal that must fit an `i32`.
pub open spec fn checked_ascii(s: Seq<u8>) -> Option<int> {
    if ascii_value(s) <= i32::MAX {
        Some(ascii_value(s))
    } else {
        None
    }
}

/// The bytes of `s` before its first space.
pub open spec fn before_space(s: Seq<u8>) -> Seq<u8> {
    match find_spec(s, seq![32u8], 0) {
        Some(i) => s.take(i),
        None => s,
    }
}

/// The object whose `N 0 obj … endobj` lives in `input[start..end)`; `None`
/// where the reader would fail on it.
pub open spec fn object_spec(input: Seq<u8>, start: int, end: int) -> Option<ObjectView> {
    if !(0 <= start <= end <= input.len()) {
        None
    } else {
        let span = input.subrange(start, end);
        match (checked_ascii(before_space(span)), find_spec(span, kw_obj(), 0)) {
            (Some(number), Some(obj_kw)) => {
                let body_end = match find_last_spec(span, kw_endobj()) {
                    Some(e) => e,
                    None => span.len() as int,
                };
                if obj_kw + 3 > body_end {
                    None
                } else {
                    match split_stream_spec(span.subrange(obj_kw + 3, body_end)) {
                        Some((body, stream)) => match scan_spec(body, 0) {
                            Some(strings) => Some(
                                ObjectView {
                                    number,
                                    body,
                                    stream,
                                    encrypted_stream: None,
                                    strings,
                                },
                            ),
                            None => None,
                        },
                        None => None,
                    }
                }
            },
            _ => None,
        }
    }
}

/// Parse the object whose `N 0 obj … endobj` lives in `input[start..end)`.
fn parse_object(input: &[u8], start: usize, end: usize) -> (res: Object)
    requires
        object_spec(input@, start as int, end as int) is Some,
        input.len() < 0x7fff_ffff,
    ensures
        res@ == object_spec(input@, start as int, end as int).unwrap(),
{
    let span = &input[start..end];
    let sp: [u8; 1] = [32];
    assert(sp@ =~= seq![32u8]);
    let first = match find_from(span, &sp, 0) {
        Some(i) => {
            proof {
                crate::bytes::lemma_find_spec_props(span@, seq![32u8], 0);
            }
            &span[0..i]
        },
        None => span,
    };
    let number = ascii_int(first);
    let okw: [u8; 3] = [111, 98, 106];
    assert(okw@ =~= kw_obj());
    let _n = span.len();
    let obj_kw = match find_from(span, &okw, 0) {
        Some(k) => k,
        None => {
            return Object {
                number,
                body: Vec::new(),
                stream: None,
                encrypted_stream: None,
                strings: Vec::new(),
            };
        },
    };
    let ekw: [u8; 6] = [101, 110, 100, 111, 98, 106];
    assert(ekw@ =~= kw_endobj());
    let body_end = match find_last(span, &ekw) {
        Some(e) => {
            proof {
                crate::bytes::lemma_rfind_spec_props(span@, kw_endobj(), span@.len() - 6);
            }
            e
        },
        None => span.len(),
    };
    let (body, stream) = split_stream(&span[obj_kw + 3..body_end]);
    assert(body@.len() <= span@.len());
    let strings = find_strings(body.as_slice());
    let res = Object { number, body, stream, encrypted_stream: None, strings };
    assert(res@.strings == scan_spec(res@.body, 0).unwrap());
    res
}

// ---------------------------------------------------------------------------
// the cross-reference table
// ---------------------------------------------------------------------------

/// A separator inside an xref row.
pub open spec fn is_row_sep(b: u8) -> bool {
    b == 32u8 || b == 13u8
}

/// The length of the leading run of non-separator bytes.
pub open spec fn run_len(s: Seq<u8>) -> int
    decreases s.len(),
{
    if s.len() == 0 || is_row_sep(s[0]) {
        0
    } else {
        1 + run_len(s.drop_first())
    }
}

/// The non-empty fields of a row, split at spaces and carriage returns.
pub open spec fn row_fields(s: Seq<u8>) -> Seq<Seq<u8>>
    decreases s.len(),
{
    if s.len() == 0 {
        Seq::empty()
    } else if is_row_sep(s[0]) {
        row_fields(s.drop_first())
    } else {
        let j = run_len(s);
        if j <= 0 || j > s.len() {
            Seq::empty()
        } else {
            seq![s.take(j)] + row_fields(s.skip(j))
        }
    }
}

/// The views of a list of buffers.
pub open spec fn bufs_view(s: Seq<Vec<u8>>) -> Seq<Seq<u8>> {
    s.map_values(|v: Vec<u8>| v@)
}

/// The fields of one xref row.
fn row_tokens(line: &[u8]) -> (res: Vec<Vec<u8>>)
    ensures
        bufs_view(res@) == row_fields(line@),
{
    let mut out: Vec<Vec<u8>> = Vec::new();
    let mut i: usize = 0;
    let n = line.len();
    assert(line@.skip(0) =~= line@);
    assert(bufs_view(out@) =~= Seq::<Seq<u8>>::empty());
    while i < n
        invariant
            i <= n,
            n == line@.len(),
            row_fields(line@) == bufs_view(out@) + row_fields(line@.skip(i as int)),
        decreases n - i,
    {
        if line[i] == 32 || line[i] == 13 {
            assert(line@.skip(i as int).drop_first() =~= line@.skip(i + 1));
            i += 1;
        } else {
            let mut k = i;
            while k < n && line[k] != 32 && line[k] != 13
                invariant
                    i <= k <= n,
                    n == line@.len(),
                    run_len(line@.skip(i as int)) == (k - i) + run_len(line@.skip(k as int)),
                decreases n - k,
            {
                assert(line@.skip(k as int).drop_first() =~= line@.skip(k + 1));
                k += 1;
            }
            assert(run_len(line@.skip(k as int)) == 0);
            let ghost old_out = out@;
            out.push(vstd::slice::slice_to_vec(&line[i..k]));
            assert(line@.skip(i as int).take(k - i) =~= line@.subrange(i as int, k as int));
            assert(line@.skip(i as int).skip(k - i) =~= line@.skip(k as int));
            assert(bufs_view(out@) =~= bufs_view(old_out).push(line@.subrange(i as int, k as int)));
            assert(bufs_view(out@) + row_fields(line@.skip(k as int)) =~= bufs_view(old_out) + (seq![
                line@.subrange(i as int, k as int),
            ] + row_fields(line@.skip(k as int))));
            i = k;
        }
    }
    assert(bufs_view(out@) + row_fields(line@.skip(i as int)) =~= bufs_view(out@));
    out
}

/// One xref row's offset: `Some(Some(v))` for an in-use (`n`) row, `Some(None)`
/// for any other line, `None` where the offset overflows the reader.
pub open spec fn xref_entry_spec(line: Seq<u8>) -> Option<Option<int>> {
    let t = row_fields(line);
    if t.len() == 3 && t[2] == seq![110u8] {
        match checked_ascii(t[0]) {
            Some(v) => Some(Some(v)),
            None => None,
        }
    } else {
        Some(None)
    }
}

/// The byte offset of one xref row, if it is an in-use (`n`) entry.
fn xref_entry_offset(line: &[u8]) -> (res: Option<usize>)
    requires
        xref_entry_spec(line@) is Some,
    ensures
        res matches Some(v) ==> xref_entry_spec(line@) == Some(Some(v as int)),
        res is None ==> xref_entry_spec(line@) == Some(None::<int>),
{
    let parts = row_tokens(line);
    if parts.len() == 3 && parts[2].len() == 1 && parts[2][0] == 110 {
        assert(bufs_view(parts@)[2] =~= seq![110u8]);
        assert(bufs_view(parts@)[0] == parts@[0]@);
        let v = ascii_int(parts[0].as_slice());
        proof {
            crate::bytes::lemma_ascii_value_prefix(parts@[0]@, 0);
        }
        Some(v as usize)
    } else {
        proof {
            if parts@.len() == 3 {
                assert(bufs_view(parts@)[2] == parts@[2]@);
                if bufs_view(parts@)[2] =~= seq![110u8] {
                    assert(parts@[2]@.len() == 1);
                }
            }
        }
        None
    }
}

/// The in-use offsets of the rows of `s` (lines split at `\n`), in order;
/// `None` where an offset overflows the reader.
pub open spec fn xref_rows(s: Seq<u8>) -> Option<Seq<int>>
    decreases s.len(),
{
    let (line, rest) = match find_spec(s, seq![10u8], 0) {
        Some(i) => (s.take(i), Some(i + 1)),
        None => (s, None),
    };
    match xref_entry_spec(line) {
        None => None,
        Some(e) => {
            let here = match e {
                Some(v) => seq![v],
                None => Seq::empty(),
            };
            match rest {
                None => Some(here),
                Some(r) => if 0 < r <= s.len() {
                    match xref_rows(s.skip(r)) {
                        Some(tail) => Some(here + tail),
                        None => None,
                    }
                } else {
                    None
                },
            }
        },
    }
}

/// Offsets as integers.
pub open spec fn offsets_view(s: Seq<usize>) -> Seq<int> {
    s.map_values(|x: usize| x as int)
}

/// Parse the `OOOOOOOOOO GGGGG n` rows of the xref table into byte offsets,
/// skipping the subsection header line and free (`f`) entries.
fn parse_xref_entries(body: &[u8]) -> (res: Vec<usize>)
    requires
        xref_rows(body@) is Some,
    ensures
        offsets_view(res@) == xref_rows(body@).unwrap(),
{
    let mut out: Vec<usize> = Vec::new();
    let mut start: usize = 0;
    let n = body.len();
    let nl: [u8; 1] = [10];
    assert(nl@ =~= seq![10u8]);
    assert(body@.skip(0) =~= body@);
    assert(offsets_view(out@) =~= Seq::<int>::empty());
    loop
        invariant
            start <= n,
            n == body@.len(),
            nl@ == seq![10u8],
            xref_rows(body@.skip(start as int)) is Some,
            xref_rows(body@).unwrap() == offsets_view(out@) + xref_rows(
                body@.skip(start as int),
            ).unwrap(),
        decreases n - start,
    {
        let rest = &body[start..n];
        assert(rest@ =~= body@.skip(start as int));
        let _m = rest.len();
        let ghost old_out = out@;
        match find_from(rest, &nl, 0) {
            Some(i) => {
                proof {
                    crate::bytes::lemma_find_spec_props(rest@, seq![10u8], 0);
                }
                let line = &rest[0..i];
                match xref_entry_offset(line) {
                    Some(v) => {
                        out.push(v);
                    },
                    None => {},
                }
                assert(rest@.skip(i + 1) =~= body@.skip(start + i + 1));
                assert(offsets_view(out@) + xref_rows(body@.skip(start + i + 1)).unwrap()
                    =~= offsets_view(old_out) + xref_rows(rest@).unwrap());
                start = start + i + 1;
            },
            None => {
                match xref_entry_offset(rest) {
                    Some(v) => {
                        out.push(v);
                    },
                    None => {},
                }
                assert(offsets_view(out@) =~= offsets_view(old_out) + xref_rows(rest@).unwrap());
                return out;
            },
        }
    }
}


// ---------------------------------------------------------------------------
// the whole document
// ---------------------------------------------------------------------------

/// The byte offset of the xref table, read from the `startxref` pointer.
pub open spec fn startxref_spec(input: Seq<u8>) -> Option<int> {
    match find_last_spec(input, kw_startxref()) {
        Some(kw) => checked_ascii(take_digits(skip_nondigits(input.skip(kw + 9)))),
        None => None,
    }
}

/// The objects spanning `starts[k..]`, each ending at the next start (the last
/// at `limit`).
pub open spec fn objects_from(input: Seq<u8>, starts: Seq<usize>, limit: int, k: int) -> Option<
    Seq<ObjectView>,
>
    decreases starts.len() - k,
{
    if k < 0 || k >= starts.len() {
        Some(Seq::empty())
    } else {
        let end = if k + 1 < starts.len() {
            starts[k + 1] as int
        } else {
            limit
        };
        match object_spec(input, starts[k] as int, end) {
            Some(o) => match objects_from(input, starts, limit, k + 1) {
                Some(rest) => Some(seq![o] + rest),
                None => None,
            },
            None => None,
        }
    }
}

/// The in-use offsets of the xref table found through `startxref`.
pub open spec fn xref_spec(input: Seq<u8>) -> Option<(int, Seq<int>)> {
    match startxref_spec(input) {
        Some(x) => if x + 4 <= input.len() {
            match xref_rows(input.skip(x + 4)) {
                Some(rows) => Some((x, rows)),
                None => None,
            }
        } else {
            None
        },
        None => None,
    }
}

/// Every object, located by the xref offsets in ascending order.
pub open spec fn objects_spec(input: Seq<u8>) -> Option<Seq<ObjectView>> {
    match xref_spec(input) {
        Some((x, rows)) => objects_from(
            input,
            sorted_spec(rows.map_values(|v: int| v as usize)),
            x,
            0,
        ),
        None => None,
    }
}

/// The integer after `key` in a trailer dictionary: `Some(None)` when the key
/// is absent, `None` where the value overflows the reader.
pub open spec fn ref_after_spec(dict: Seq<u8>, key: Seq<u8>) -> Option<Option<int>> {
    match find_spec(dict, key, 0) {
        Some(at) => match checked_ascii(take_digits(skip_spaces_spec(dict.skip(at + key.len())))) {
            Some(v) => Some(Some(v)),
            None => None,
        },
        None => Some(None),
    }
}

/// The trailer's `/Size`, `/Root` and optional `/Info`.
pub open spec fn trailer_spec(input: Seq<u8>) -> Option<(int, int, Option<int>)> {
    match find_last_spec(input, kw_trailer()) {
        Some(kw) => {
            let dict = input.skip(kw);
            match (
                ref_after_spec(dict, key_size()),
                ref_after_spec(dict, key_root()),
                ref_after_spec(dict, key_info()),
            ) {
                (Some(Some(size)), Some(Some(root)), Some(info)) => Some((size, root, info)),
                _ => None,
            }
        },
        None => None,
    }
}

/// Whether `input` is a file of the shape this reader accepts.
pub open spec fn parsable(input: Seq<u8>) -> bool {
    &&& input.len() < 0x7fff_ffff
    &&& objects_spec(input) is Some
    &&& trailer_spec(input) is Some
}

/// The byte offset of the xref table, read from the `startxref` pointer.
fn startxref_offset(input: &[u8]) -> (res: usize)
    requires
        startxref_spec(input@) is Some,
    ensures
        res as int == startxref_spec(input@).unwrap(),
{
    let kw: [u8; 9] = [115, 116, 97, 114, 116, 120, 114, 101, 102];
    assert(kw@ =~= kw_startxref());
    let n = input.len();
    let at = match find_last(input, &kw) {
        Some(a) => a,
        None => {
            return 0;
        },
    };
    proof {
        crate::bytes::lemma_rfind_spec_props(input@, kw_startxref(), input@.len() - 9);
    }
    let first = first_digit_from(input, at + 9);
    let last = skip_digits(input, first);
    assert(input@.skip(at + 9) =~= input@.subrange(at + 9, n as int));
    let v = ascii_int(&input[first..last]);
    proof {
        crate::bytes::lemma_ascii_value_prefix(input@.subrange(first as int, last as int), 0);
    }
    v as usize
}

/// The integer following `key` in a trailer dictionary.
fn ref_after(dict: &[u8], key: &[u8]) -> (res: Option<i32>)
    requires
        ref_after_spec(dict@, key@) is Some,
        key@.len() > 0,
    ensures
        res matches Some(v) ==> ref_after_spec(dict@, key@) == Some(Some(v as int)),
        res is None ==> ref_after_spec(dict@, key@) == Some(None::<int>),
{
    let _n = dict.len();
    let at = match find_from(dict, key, 0) {
        Some(a) => a,
        None => {
            return None;
        },
    };
    proof {
        crate::bytes::lemma_find_spec_props(dict@, key@, 0);
    }
    let from = at + key.len();
    let first = skip_spaces(dict, from);
    let last = skip_digits(dict, first);
    Some(ascii_int(&dict[first..last]))
}

/// The references the trailer must reproduce.
pub struct Trailer {
    pub size: i32,
    pub root: i32,
    pub info: Option<i32>,
}

/// The optional integer as a mathematical one.
pub open spec fn opt_int(o: Option<i32>) -> Option<int> {
    match o {
        Some(v) => Some(v as int),
        None => None,
    }
}

/// Parse the trailer dictionary's `/Size`, `/Root` and optional `/Info`.
fn parse_trailer(input: &[u8]) -> (res: Trailer)
    requires
        trailer_spec(input@) is Some,
    ensures
        (res.size as int, res.root as int, opt_int(res.info)) == trailer_spec(input@).unwrap(),
{
    let kw: [u8; 7] = [116, 114, 97, 105, 108, 101, 114];
    assert(kw@ =~= kw_trailer());
    let n = input.len();
    let at = match find_last(input, &kw) {
        Some(a) => a,
        None => {
            return Trailer { size: 0, root: 0, info: None };
        },
    };
    proof {
        crate::bytes::lemma_rfind_spec_props(input@, kw_trailer(), input@.len() - 7);
    }
    let dict = &input[at..n];
    assert(dict@ =~= input@.skip(at as int));
    let ks: [u8; 5] = [47, 83, 105, 122, 101];
    let kr: [u8; 5] = [47, 82, 111, 111, 116];
    let ki: [u8; 5] = [47, 73, 110, 102, 111];
    assert(ks@ =~= key_size());
    assert(kr@ =~= key_root());
    assert(ki@ =~= key_info());
    let size = match ref_after(dict, &ks) {
        Some(v) => v,
        None => 0,
    };
    let root = match ref_after(dict, &kr) {
        Some(v) => v,
        None => 0,
    };
    let info = ref_after(dict, &ki);
    Trailer { size, root, info }
}

/// Read the in-use object offsets from the classic xref table at `xref_at`.
fn xref_offsets(input: &[u8], xref_at: usize) -> (res: Vec<usize>)
    requires
        xref_at + 4 <= input@.len(),
        xref_rows(input@.skip(xref_at + 4)) is Some,
    ensures
        offsets_view(res@) == xref_rows(input@.skip(xref_at + 4)).unwrap(),
{
    let n = input.len();
    let body = &input[xref_at + 4..n];
    assert(body@ =~= input@.skip(xref_at + 4));
    parse_xref_entries(body)
}

/// Discover and parse every object using the xref table offsets, so binary
/// stream content that happens to contain `obj`/`endobj` cannot be mistaken for
/// an object boundary.
fn parse_objects(input: &[u8]) -> (res: Vec<Object>)
    requires
        input.len() < 0x7fff_ffff,
        objects_spec(input@) is Some,
    ensures
        objects_view(res@) == objects_spec(input@).unwrap(),
{
    let xref_at = startxref_offset(input);
    let rows = xref_offsets(input, xref_at);
    let ghost rows_int = xref_rows(input@.skip(xref_at + 4)).unwrap();
    assert(rows@ =~= rows_int.map_values(|v: int| v as usize));
    let starts = sort_offsets(rows);
    let mut objects: Vec<Object> = Vec::new();
    let mut k: usize = 0;
    let count = starts.len();
    assert(objects_view(objects@) =~= Seq::<ObjectView>::empty());
    while k < count
        invariant
            k <= count,
            count == starts@.len(),
            input.len() < 0x7fff_ffff,
            objects_from(input@, starts@, xref_at as int, k as int) is Some,
            objects_spec(input@).unwrap() == objects_view(objects@) + objects_from(
                input@,
                starts@,
                xref_at as int,
                k as int,
            ).unwrap(),
        decreases count - k,
    {
        let end = if k + 1 < count {
            starts[k + 1]
        } else {
            xref_at
        };
        let obj = parse_object(input, starts[k], end);
        let ghost old_objects = objects@;
        objects.push(obj);
        assert(objects_view(objects@) =~= objects_view(old_objects).push(obj@));
        assert(objects_view(objects@) + objects_from(input@, starts@, xref_at as int, k + 1).unwrap()
            =~= objects_view(old_objects) + objects_from(
            input@,
            starts@,
            xref_at as int,
            k as int,
        ).unwrap());
        k += 1;
    }
    assert(objects_view(objects@) + Seq::<ObjectView>::empty() =~= objects_view(objects@));
    objects
}

/// A whole parsed document: the objects plus the trailer references.
pub struct Document {
    pub objects: Vec<Object>,
    pub trailer: Trailer,
}

impl Document {
    /// Parse `input` (the finished PDF) into objects + trailer.
    pub fn parse(input: &[u8]) -> (res: Document)
        requires
            parsable(input@),
        ensures
            objects_view(res.objects@) == objects_spec(input@).unwrap(),
            (res.trailer.size as int, res.trailer.root as int, opt_int(res.trailer.info))
                == trailer_spec(input@).unwrap(),
    {
        let objects = parse_objects(input);
        let trailer = parse_trailer(input);
        Document { objects, trailer }
    }
}

/// Replace `body[start..end]` with `replacement`, returning the new buffer.
pub fn splice(body: &[u8], start: usize, end: usize, replacement: &[u8]) -> (res: Vec<u8>)
    requires
        start <= end <= body@.len(),
    ensures
        res@ == body@.take(start as int) + replacement@ + body@.skip(end as int),
{
    let n = body.len();
    let mut out: Vec<u8> = Vec::new();
    push_all(&mut out, &body[0..start]);
    push_all(&mut out, replacement);
    push_all(&mut out, &body[end..n]);
    assert(out@ =~= body@.take(start as int) + replacement@ + body@.skip(end as int));
    out
}


// ---------------------------------------------------------------------------
// deciding whether the reader accepts a file
// ---------------------------------------------------------------------------

/// The value of an unsigned decimal, when it fits an `i32`.
fn checked_ascii_x(bytes: &[u8]) -> (res: Option<i32>)
    ensures
        match res {
            Some(v) => checked_ascii(bytes@) == Some(v as int),
            None => checked_ascii(bytes@) is None,
        },
{
    let mut acc: i64 = 0;
    let mut i: usize = 0;
    while i < bytes.len()
        invariant
            i <= bytes.len(),
            acc == ascii_value(bytes@.take(i as int)),
            0 <= acc <= i32::MAX,
        decreases bytes.len() - i,
    {
        assert(bytes@.take(i + 1).drop_last() =~= bytes@.take(i as int));
        let b = bytes[i];
        if b >= 48 && b <= 57 {
            acc = acc * 10 + (b - 48) as i64;
        }
        i += 1;
        if acc > i32::MAX as i64 {
            proof {
                crate::bytes::lemma_ascii_value_prefix(bytes@, i as int);
            }
            return None;
        }
    }
    assert(bytes@.take(i as int) =~= bytes@);
    Some(acc as i32)
}

/// The `startxref` pointer, when the reader finds one it can read.
fn startxref_checked(input: &[u8]) -> (res: Option<usize>)
    ensures
        match res {
            Some(v) => startxref_spec(input@) == Some(v as int),
            None => startxref_spec(input@) is None,
        },
{
    let kw: [u8; 9] = [115, 116, 97, 114, 116, 120, 114, 101, 102];
    assert(kw@ =~= kw_startxref());
    let n = input.len();
    let at = match find_last(input, &kw) {
        Some(a) => a,
        None => {
            return None;
        },
    };
    proof {
        crate::bytes::lemma_rfind_spec_props(input@, kw_startxref(), input@.len() - 9);
    }
    let first = first_digit_from(input, at + 9);
    let last = skip_digits(input, first);
    assert(input@.skip(at + 9) =~= input@.subrange(at + 9, n as int));
    match checked_ascii_x(&input[first..last]) {
        Some(v) => {
            proof {
                crate::bytes::lemma_ascii_value_prefix(input@.subrange(first as int, last as int), 0);
            }
            Some(v as usize)
        },
        None => None,
    }
}

/// Whether one xref row can be read (its offset, if it has one, fits).
fn xref_entry_ok(line: &[u8]) -> (res: bool)
    ensures
        res == (xref_entry_spec(line@) is Some),
{
    let parts = row_tokens(line);
    if parts.len() == 3 && parts[2].len() == 1 && parts[2][0] == 110 {
        assert(bufs_view(parts@)[2] =~= seq![110u8]);
        assert(bufs_view(parts@)[0] == parts@[0]@);
        checked_ascii_x(parts[0].as_slice()).is_some()
    } else {
        proof {
            if parts@.len() == 3 {
                assert(bufs_view(parts@)[2] == parts@[2]@);
                if bufs_view(parts@)[2] =~= seq![110u8] {
                    assert(parts@[2]@.len() == 1);
                }
            }
        }
        true
    }
}

/// Whether every row of an xref table can be read.
fn xref_rows_ok(body: &[u8]) -> (res: bool)
    ensures
        res == (xref_rows(body@) is Some),
{
    let mut start: usize = 0;
    let n = body.len();
    let nl: [u8; 1] = [10];
    assert(nl@ =~= seq![10u8]);
    assert(body@.skip(0) =~= body@);
    loop
        invariant
            start <= n,
            n == body@.len(),
            nl@ == seq![10u8],
            (xref_rows(body@) is Some) == (xref_rows(body@.skip(start as int)) is Some),
        decreases n - start,
    {
        let rest = &body[start..n];
        assert(rest@ =~= body@.skip(start as int));
        match find_from(rest, &nl, 0) {
            Some(i) => {
                proof {
                    crate::bytes::lemma_find_spec_props(rest@, seq![10u8], 0);
                }
                let line = &rest[0..i];
                assert(line@ =~= rest@.take(i as int));
                if !xref_entry_ok(line) {
                    return false;
                }
                assert(rest@.skip(i + 1) =~= body@.skip(start + i + 1));
                start = start + i + 1;
            },
            None => {
                return xref_entry_ok(rest);
            },
        }
    }
}

/// The integer after `key` in a trailer dictionary: `Some(None)` when the key
/// is absent, `None` when the value does not fit.
fn ref_after_checked(dict: &[u8], key: &[u8]) -> (res: Option<Option<i32>>)
    requires
        key@.len() > 0,
    ensures
        match res {
            Some(Some(v)) => ref_after_spec(dict@, key@) == Some(Some(v as int)),
            Some(None) => ref_after_spec(dict@, key@) == Some(None::<int>),
            None => ref_after_spec(dict@, key@) is None,
        },
{
    let _n = dict.len();
    let at = match find_from(dict, key, 0) {
        Some(a) => a,
        None => {
            return Some(None);
        },
    };
    proof {
        crate::bytes::lemma_find_spec_props(dict@, key@, 0);
    }
    let from = at + key.len();
    let first = skip_spaces(dict, from);
    let last = skip_digits(dict, first);
    match checked_ascii_x(&dict[first..last]) {
        Some(v) => Some(Some(v)),
        None => None,
    }
}

/// Whether the reader finds a trailer with a `/Size` and a `/Root` it can
/// read (and an `/Info`, if present, it can read).
fn trailer_ok(input: &[u8]) -> (res: bool)
    ensures
        res == (trailer_spec(input@) is Some),
{
    let kw: [u8; 7] = [116, 114, 97, 105, 108, 101, 114];
    assert(kw@ =~= kw_trailer());
    let n = input.len();
    let at = match find_last(input, &kw) {
        Some(a) => a,
        None => {
            return false;
        },
    };
    proof {
        crate::bytes::lemma_rfind_spec_props(input@, kw_trailer(), input@.len() - 7);
    }
    let dict = &input[at..n];
    assert(dict@ =~= input@.skip(at as int));
    let ks: [u8; 5] = [47, 83, 105, 122, 101];
    let kr: [u8; 5] = [47, 82, 111, 111, 116];
    let ki: [u8; 5] = [47, 73, 110, 102, 111];
    assert(ks@ =~= key_size());
    assert(kr@ =~= key_root());
    assert(ki@ =~= key_info());
    let size = ref_after_checked(dict, &ks);
    let root = ref_after_checked(dict, &kr);
    let info = ref_after_checked(dict, &ki);
    matches!(size, Some(Some(_))) && matches!(root, Some(Some(_))) && info.is_some()
}


/// Whether the string scanner reads `body` through without failing.
fn scan_ok(body: &[u8]) -> (res: bool)
    requires
        body.len() < 0x7fff_ffff,
    ensures
        res == (scan_spec(body@, 0) is Some),
{
    let gt: [u8; 1] = [62];
    assert(gt@ =~= seq![62u8]);
    let n = body.len();
    let mut i: usize = 0;
    while i < n
        invariant
            i <= n + 1,
            n == body@.len(),
            n < 0x7fff_ffff,
            gt@ == seq![62u8],
            (scan_spec(body@, 0) is Some) == (scan_spec(body@, i as int) is Some),
        decreases n + 1 - i,
    {
        if body[i] == 40 {
            let (end, _bytes) = decode_literal(body, i);
            i = end;
        } else if body[i] == 60 && i + 1 < n && body[i + 1] == 60 {
            i = i + 2;
        } else if body[i] == 60 {
            let end = match find_from(body, &gt, i) {
                Some(e) => {
                    proof {
                        crate::bytes::lemma_find_spec_props(body@, seq![62u8], i as int);
                    }
                    e + 1
                },
                None => n,
            };
            if end <= i || end - 1 < i + 1 || end > n {
                return false;
            }
            i = end;
        } else {
            i = i + 1;
        }
    }
    true
}

/// Whether an object's post-`obj` bytes split into body and stream.
fn split_ok(rest: &[u8]) -> (res: bool)
    ensures
        res == (split_stream_spec(rest@) is Some),
{
    let kw: [u8; 6] = [115, 116, 114, 101, 97, 109];
    assert(kw@ =~= kw_stream());
    let _n = rest.len();
    match find_from(rest, &kw, 0) {
        Some(k) => {
            proof {
                crate::bytes::lemma_find_spec_props(rest@, kw_stream(), 0);
                assert(kw_stream().len() == 6);
                assert(matches_at(rest@, kw_stream(), k as int));
            }
            let data_start = after_eol(rest, k + 6);
            let ekw: [u8; 9] = [101, 110, 100, 115, 116, 114, 101, 97, 109];
            assert(ekw@ =~= kw_endstream());
            find_from(rest, &ekw, data_start).is_some()
        },
        None => true,
    }
}

/// Whether the reader reads the object in `input[start..end)`.
fn object_ok(input: &[u8], start: usize, end: usize) -> (res: bool)
    requires
        input.len() < 0x7fff_ffff,
    ensures
        res == (object_spec(input@, start as int, end as int) is Some),
{
    if !(start <= end && end <= input.len()) {
        return false;
    }
    let span = &input[start..end];
    assert(span@ =~= input@.subrange(start as int, end as int));
    let sp: [u8; 1] = [32];
    assert(sp@ =~= seq![32u8]);
    let first = match find_from(span, &sp, 0) {
        Some(i) => {
            proof {
                crate::bytes::lemma_find_spec_props(span@, seq![32u8], 0);
            }
            &span[0..i]
        },
        None => span,
    };
    assert(first@ =~= before_space(span@));
    if checked_ascii_x(first).is_none() {
        return false;
    }
    let okw: [u8; 3] = [111, 98, 106];
    assert(okw@ =~= kw_obj());
    let _n = span.len();
    let obj_kw = match find_from(span, &okw, 0) {
        Some(k) => k,
        None => {
            return false;
        },
    };
    let ekw: [u8; 6] = [101, 110, 100, 111, 98, 106];
    assert(ekw@ =~= kw_endobj());
    let body_end = match find_last(span, &ekw) {
        Some(e) => {
            proof {
                crate::bytes::lemma_rfind_spec_props(span@, kw_endobj(), span@.len() - 6);
            }
            e
        },
        None => span.len(),
    };
    if obj_kw > body_end || body_end - obj_kw < 3 {
        return false;
    }
    let rest = &span[obj_kw + 3..body_end];
    assert(rest@ =~= span@.subrange(obj_kw + 3, body_end as int));
    if !split_ok(rest) {
        return false;
    }
    let (body, _stream) = split_stream(rest);
    scan_ok(body.as_slice())
}

/// Whether the reader reads every object the xref table points at.
fn objects_ok(input: &[u8]) -> (res: bool)
    requires
        input.len() < 0x7fff_ffff,
    ensures
        res == (objects_spec(input@) is Some),
{
    let n = input.len();
    let xref_at = match startxref_checked(input) {
        Some(x) => x,
        None => {
            return false;
        },
    };
    if xref_at > n || n - xref_at < 4 {
        return false;
    }
    let body = &input[xref_at + 4..n];
    assert(body@ =~= input@.skip(xref_at + 4));
    if !xref_rows_ok(body) {
        return false;
    }
    let rows = xref_offsets(input, xref_at);
    let ghost rows_int = xref_rows(input@.skip(xref_at + 4)).unwrap();
    assert(rows@ =~= rows_int.map_values(|v: int| v as usize));
    let starts = sort_offsets(rows);
    let count = starts.len();
    let mut k: usize = 0;
    while k < count
        invariant
            k <= count,
            count == starts@.len(),
            input.len() < 0x7fff_ffff,
            (objects_spec(input@) is Some) == (objects_from(input@, starts@, xref_at as int, k as int) is Some),
        decreases count - k,
    {
        let end = if k + 1 < count {
            starts[k + 1]
        } else {
            xref_at
        };
        if !object_ok(input, starts[k], end) {
            return false;
        }
        k += 1;
    }
    true
}

/// Whether `input` is a file of the shape the reader accepts: what
/// [`Document::parse`] requires.
pub fn is_parsable(input: &[u8]) -> (res: bool)
    ensures
        res == parsable(input@),
{
    input.len() < 0x7fff_ffff && objects_ok(input) && trailer_ok(input)
}

} // verus!
