//! Re-serialising the encrypted objects into a complete PDF.
//!
//! Writes the header, every (mutated) indirect object — rewriting a stream's
//! `/Length` to the ciphertext length — then a freshly added `/Encrypt`
//! dictionary object, a classic `xref` table over all of them, and a trailer
//! carrying `/Root`, `/Info`, `/Size`, `/Encrypt` and `/ID`.
use vstd::prelude::*;
use crate::bytes::{find_from, find_spec, push_all, skip_digits, skip_spaces, skip_spaces_spec, take_digits};
use super::parse::{Object, ObjectView, Trailer, objects_view, opt_int};
use super::{Encryption, Keys, p_value};

verus! {

// ---------------------------------------------------------------------------
// numbers and hex
// ---------------------------------------------------------------------------

/// The decimal ASCII digits of `n`.
pub open spec fn decimal(n: nat) -> Seq<u8>
    decreases n,
{
    if n < 10 {
        seq![(48 + n) as u8]
    } else {
        decimal(n / 10).push((48 + n % 10) as u8)
    }
}

/// The decimal ASCII text of a signed integer.
pub open spec fn int_text(n: int) -> Seq<u8> {
    if n < 0 {
        seq![45u8] + decimal((-n) as nat)
    } else {
        decimal(n as nat)
    }
}

/// `s` left-padded with ASCII zeros to at least `width` bytes.
pub open spec fn zero_pad(s: Seq<u8>, width: int) -> Seq<u8> {
    if s.len() >= width {
        s
    } else {
        Seq::new((width - s.len()) as nat, |i: int| 48u8) + s
    }
}

/// One uppercase hex digit for a nibble.
pub open spec fn hex_digit_spec(n: u8) -> u8 {
    if n < 10 {
        (48 + n) as u8
    } else {
        (65 + n - 10) as u8
    }
}

/// `bytes` as a PDF hex string `<...>`: uppercase, two digits per byte, high
/// nibble first.
pub open spec fn hex_string_spec(bytes: Seq<u8>) -> Seq<u8> {
    seq![60u8] + Seq::new(
        2 * bytes.len(),
        |i: int|
            if i % 2 == 0 {
                hex_digit_spec(bytes[i / 2] / 16)
            } else {
                hex_digit_spec(bytes[i / 2] % 16)
            },
    ) + seq![62u8]
}

/// The decimal digits of `n`.
fn decimal_bytes(n: u64) -> (res: Vec<u8>)
    ensures
        res@ == decimal(n as nat),
    decreases n,
{
    if n < 10 {
        let mut v: Vec<u8> = Vec::new();
        v.push((48 + n) as u8);
        assert(v@ =~= decimal(n as nat));
        v
    } else {
        let mut v = decimal_bytes(n / 10);
        v.push((48 + n % 10) as u8);
        v
    }
}

/// Append the decimal ASCII of `n`.
fn push_int(out: &mut Vec<u8>, n: i32)
    ensures
        final(out)@ == old(out)@ + int_text(n as int),
{
    if n < 0 {
        out.push(45);
        let m: i64 = -(n as i64);
        let d = decimal_bytes(m as u64);
        push_all(out, d.as_slice());
        assert(final(out)@ =~= old(out)@ + int_text(n as int));
    } else {
        let d = decimal_bytes(n as u64);
        push_all(out, d.as_slice());
    }
}

/// One uppercase hex digit for a nibble `0..=15`.
fn hex_digit(n: u8) -> (res: u8)
    requires
        n < 16,
    ensures
        res == hex_digit_spec(n),
{
    if n < 10 {
        48 + n
    } else {
        65 + (n - 10)
    }
}

/// Encode `bytes` as a PDF hex string `<...>` (uppercase, no whitespace).
pub fn hex_string(bytes: &[u8]) -> (res: Vec<u8>)
    ensures
        res@ == hex_string_spec(bytes@),
{
    let mut out: Vec<u8> = Vec::new();
    out.push(60);
    let mut i: usize = 0;
    let n = bytes.len();
    let ghost inner = Seq::new(
        2 * bytes@.len(),
        |i: int|
            if i % 2 == 0 {
                hex_digit_spec(bytes@[i / 2] / 16)
            } else {
                hex_digit_spec(bytes@[i / 2] % 16)
            },
    );
    while i < n
        invariant
            i <= n,
            n == bytes@.len(),
            inner.len() == 2 * n,
            forall|j: int|
                0 <= j < 2 * n ==> #[trigger] inner[j] == (if j % 2 == 0 {
                    hex_digit_spec(bytes@[j / 2] / 16)
                } else {
                    hex_digit_spec(bytes@[j / 2] % 16)
                }),
            out@ == seq![60u8] + inner.take(2 * i),
        decreases n - i,
    {
        let b = bytes[i];
        assert(b >> 4 == b / 16) by (bit_vector);
        assert(b & 0x0F == b % 16) by (bit_vector);
        out.push(hex_digit(b >> 4));
        out.push(hex_digit(b & 0x0F));
        assert(inner[2 * i] == hex_digit_spec(b / 16));
        assert(inner[2 * i + 1] == hex_digit_spec(b % 16));
        assert(out@ =~= seq![60u8] + inner.take(2 * i + 2));
        i += 1;
    }
    out.push(62);
    assert(inner.take(2 * i) =~= inner);
    out
}

// ---------------------------------------------------------------------------
// objects
// ---------------------------------------------------------------------------

pub open spec fn key_length() -> Seq<u8> {
    seq![47u8, 76, 101, 110, 103, 116, 104]
}

/// `body` with the integer after `/Length` replaced by `len`; `None` where the
/// body has no `/Length`.
pub open spec fn patch_length_spec(body: Seq<u8>, len: int) -> Option<Seq<u8>> {
    match find_spec(body, key_length(), 0) {
        Some(at) => {
            let after = body.skip(at + 7);
            let spaces = after.len() - skip_spaces_spec(after).len();
            let num_start = at + 7 + spaces;
            let num_end = num_start + take_digits(body.skip(num_start)).len();
            Some(body.take(num_start) + int_text(len) + body.skip(num_end))
        },
        None => None,
    }
}

pub open spec fn lit_obj_open() -> Seq<u8> {
    seq![32u8, 48, 32, 111, 98, 106, 10]
}

pub open spec fn lit_obj_close() -> Seq<u8> {
    seq![10u8, 101, 110, 100, 111, 98, 106, 10]
}

pub open spec fn lit_stream_open() -> Seq<u8> {
    seq![115u8, 116, 114, 101, 97, 109, 10]
}

pub open spec fn lit_stream_close() -> Seq<u8> {
    seq![10u8, 101, 110, 100, 115, 116, 114, 101, 97, 109]
}

/// The serialised form of one object: `N 0 obj … endobj`, with an encrypted
/// stream and its patched `/Length` when the object carries one; `None` where a
/// stream dictionary has no `/Length`.
pub open spec fn object_bytes(o: ObjectView) -> Option<Seq<u8>> {
    let head = int_text(o.number) + lit_obj_open();
    match o.encrypted_stream {
        Some(st) => match patch_length_spec(o.body, (st.len() as i32) as int) {
            Some(patched) => Some(
                head + patched + lit_stream_open() + st + lit_stream_close() + lit_obj_close(),
            ),
            None => None,
        },
        None => Some(head + o.body + lit_obj_close()),
    }
}

/// Replace the integer after `/Length` in `body` with `len`.
fn patch_length(body: &[u8], len: usize) -> (res: Vec<u8>)
    requires
        patch_length_spec(body@, (len as i32) as int) is Some,
    ensures
        res@ == patch_length_spec(body@, (len as i32) as int).unwrap(),
{
    let key: [u8; 7] = [47, 76, 101, 110, 103, 116, 104];
    assert(key@ =~= key_length());
    let n = body.len();
    let at = match find_from(body, &key, 0) {
        Some(a) => a,
        None => {
            return Vec::new();
        },
    };
    proof {
        crate::bytes::lemma_find_spec_props(body@, key_length(), 0);
    }
    let num_start = skip_spaces(body, at + 7);
    let num_end = skip_digits(body, num_start);
    let mut out: Vec<u8> = Vec::new();
    push_all(&mut out, &body[0..num_start]);
    push_int(&mut out, len as i32);
    push_all(&mut out, &body[num_end..n]);
    proof {
        let after = body@.skip(at + 7);
        assert(after.skip(num_start - (at + 7)) =~= body@.skip(num_start as int));
        assert(skip_spaces_spec(after) =~= body@.skip(num_start as int));
        assert(after.len() - skip_spaces_spec(after).len() == num_start - (at + 7));
        assert(take_digits(body@.skip(num_start as int)).len() == num_end - num_start);
        assert(out@ =~= patch_length_spec(body@, (len as i32) as int).unwrap());
    }
    out
}

/// Write a stream object body: the dict with its `/Length` patched to the
/// ciphertext length, then `stream … endstream`.
fn write_stream_object(out: &mut Vec<u8>, body: &[u8], stream: &[u8])
    requires
        patch_length_spec(body@, (stream@.len() as i32) as int) is Some,
    ensures
        final(out)@ == old(out)@ + patch_length_spec(body@, (stream@.len() as i32) as int).unwrap()
            + lit_stream_open() + stream@ + lit_stream_close(),
{
    let patched = patch_length(body, stream.len());
    push_all(out, patched.as_slice());
    push_all(out, &[115u8, 116, 114, 101, 97, 109, 10]);
    push_all(out, stream);
    push_all(out, &[10u8, 101, 110, 100, 115, 116, 114, 101, 97, 109]);
    assert(final(out)@ =~= old(out)@ + patch_length_spec(body@, (stream@.len() as i32) as int).unwrap()
        + lit_stream_open() + stream@ + lit_stream_close());
}

/// Write one `N 0 obj … endobj` block.
fn write_object(out: &mut Vec<u8>, obj: &Object)
    requires
        object_bytes(obj@) is Some,
    ensures
        final(out)@ == old(out)@ + object_bytes(obj@).unwrap(),
{
    push_int(out, obj.number);
    push_all(out, &[32u8, 48, 32, 111, 98, 106, 10]);
    match &obj.encrypted_stream {
        Some(stream) => write_stream_object(out, obj.body.as_slice(), stream.as_slice()),
        None => push_all(out, obj.body.as_slice()),
    }
    push_all(out, &[10u8, 101, 110, 100, 111, 98, 106, 10]);
    assert(final(out)@ =~= old(out)@ + object_bytes(obj@).unwrap());
}

pub open spec fn lit_header() -> Seq<u8> {
    seq![37u8, 80, 68, 70, 45, 49, 46, 55, 10, 37, 128, 128, 128, 128, 10, 10]
}

pub open spec fn lit_enc_head() -> Seq<u8> {
    seq![60u8, 60, 32, 47, 70, 105, 108, 116, 101, 114, 32, 47, 83, 116, 97, 110, 100, 97, 114, 100, 32, 47, 86, 32, 53, 32, 47, 82, 32, 54, 32, 47, 76, 101, 110, 103, 116, 104, 32, 50, 53, 54]
}

pub open spec fn lit_enc_cf() -> Seq<u8> {
    seq![32u8, 47, 67, 70, 32, 60, 60, 32, 47, 83, 116, 100, 67, 70, 32, 60, 60, 32, 47, 67, 70, 77, 32, 47, 65, 69, 83, 86, 51, 32, 47, 65, 117, 116, 104, 69, 118, 101, 110, 116, 32, 47, 68, 111, 99, 79, 112, 101, 110, 32, 47, 76, 101, 110, 103, 116, 104, 32, 51, 50, 32, 62, 62, 32, 62, 62]
}

pub open spec fn lit_enc_filters() -> Seq<u8> {
    seq![32u8, 47, 83, 116, 109, 70, 32, 47, 83, 116, 100, 67, 70, 32, 47, 83, 116, 114, 70, 32, 47, 83, 116, 100, 67, 70, 32, 47, 69, 110, 99, 114, 121, 112, 116, 77, 101, 116, 97, 100, 97, 116, 97, 32, 116, 114, 117, 101]
}

pub open spec fn lit_key_u() -> Seq<u8> {
    seq![32u8, 47, 85, 32]
}

pub open spec fn lit_key_ue() -> Seq<u8> {
    seq![32u8, 47, 85, 69, 32]
}

pub open spec fn lit_key_o() -> Seq<u8> {
    seq![32u8, 47, 79, 32]
}

pub open spec fn lit_key_oe() -> Seq<u8> {
    seq![32u8, 47, 79, 69, 32]
}

pub open spec fn lit_key_perms() -> Seq<u8> {
    seq![32u8, 47, 80, 101, 114, 109, 115, 32]
}

pub open spec fn lit_key_p() -> Seq<u8> {
    seq![32u8, 47, 80, 32]
}

pub open spec fn lit_enc_close() -> Seq<u8> {
    seq![32u8, 62, 62, 10, 101, 110, 100, 111, 98, 106, 10]
}

pub open spec fn lit_xref_head() -> Seq<u8> {
    seq![120u8, 114, 101, 102, 10, 48, 32]
}

pub open spec fn lit_xref_free() -> Seq<u8> {
    seq![48u8, 48, 48, 48, 48, 48, 48, 48, 48, 48, 32, 54, 53, 53, 51, 53, 32, 102, 32, 10]
}

pub open spec fn lit_xref_tail() -> Seq<u8> {
    seq![32u8, 48, 48, 48, 48, 48, 32, 110, 32, 10]
}

pub open spec fn lit_trailer_head() -> Seq<u8> {
    seq![116u8, 114, 97, 105, 108, 101, 114, 10, 60, 60, 32, 47, 83, 105, 122, 101, 32]
}

pub open spec fn lit_ref_root() -> Seq<u8> {
    seq![32u8, 47, 82, 111, 111, 116, 32]
}

pub open spec fn lit_ref_info() -> Seq<u8> {
    seq![32u8, 47, 73, 110, 102, 111, 32]
}

pub open spec fn lit_ref_encrypt() -> Seq<u8> {
    seq![32u8, 47, 69, 110, 99, 114, 121, 112, 116, 32]
}

pub open spec fn lit_ref_suffix() -> Seq<u8> {
    seq![32u8, 48, 32, 82]
}

pub open spec fn lit_id_open() -> Seq<u8> {
    seq![32u8, 47, 73, 68, 32, 91]
}

pub open spec fn lit_startxref() -> Seq<u8> {
    seq![32u8, 62, 62, 10, 115, 116, 97, 114, 116, 120, 114, 101, 102, 10]
}

pub open spec fn lit_eof() -> Seq<u8> {
    seq![10u8, 37, 37, 69, 79, 70, 10]
}

/// The `/Encrypt` dictionary written as object `num`.
pub open spec fn encrypt_object_bytes(num: int, u: Seq<u8>, ue: Seq<u8>, o: Seq<u8>, oe: Seq<u8>, perms: Seq<u8>, p: int) -> Seq<u8> {
    int_text(num) + lit_obj_open() + lit_enc_head() + lit_enc_cf() + lit_enc_filters() + lit_key_u()
        + hex_string_spec(u) + lit_key_ue() + hex_string_spec(ue) + lit_key_o() + hex_string_spec(o)
        + lit_key_oe() + hex_string_spec(oe) + lit_key_perms() + hex_string_spec(perms) + lit_key_p()
        + int_text(p) + lit_enc_close()
}

/// Write ` /Key <hex>` for a key-material entry.
fn push_named_hex(out: &mut Vec<u8>, key: &[u8], bytes: &[u8])
    ensures
        final(out)@ == old(out)@ + key@ + hex_string_spec(bytes@),
{
    push_all(out, key);
    let h = hex_string(bytes);
    push_all(out, h.as_slice());
    assert(final(out)@ =~= old(out)@ + key@ + hex_string_spec(bytes@));
}

/// Write the `/Encrypt` dictionary as object `num`.
fn write_encrypt_object(out: &mut Vec<u8>, num: i32, keys: &Keys, enc: &Encryption)
    ensures
        final(out)@ == old(out)@ + encrypt_object_bytes(num as int, keys.u@, keys.ue@, keys.o@, keys.oe@, keys.perms@, p_value(enc.permissions)),
{
    push_int(out, num);
    push_all(out, &[32u8, 48, 32, 111, 98, 106, 10]);
    push_all(out, &[60u8, 60, 32, 47, 70, 105, 108, 116, 101, 114, 32, 47, 83, 116, 97, 110, 100, 97, 114, 100, 32, 47, 86, 32, 53, 32, 47, 82, 32, 54, 32, 47, 76, 101, 110, 103, 116, 104, 32, 50, 53, 54]);
    push_all(out, &[32u8, 47, 67, 70, 32, 60, 60, 32, 47, 83, 116, 100, 67, 70, 32, 60, 60, 32, 47, 67, 70, 77, 32, 47, 65, 69, 83, 86, 51, 32, 47, 65, 117, 116, 104, 69, 118, 101, 110, 116, 32, 47, 68, 111, 99, 79, 112, 101, 110, 32, 47, 76, 101, 110, 103, 116, 104, 32, 51, 50, 32, 62, 62, 32, 62, 62]);
    push_all(out, &[32u8, 47, 83, 116, 109, 70, 32, 47, 83, 116, 100, 67, 70, 32, 47, 83, 116, 114, 70, 32, 47, 83, 116, 100, 67, 70, 32, 47, 69, 110, 99, 114, 121, 112, 116, 77, 101, 116, 97, 100, 97, 116, 97, 32, 116, 114, 117, 101]);
    push_named_hex(out, &[32u8, 47, 85, 32], &keys.u);
    push_named_hex(out, &[32u8, 47, 85, 69, 32], &keys.ue);
    push_named_hex(out, &[32u8, 47, 79, 32], &keys.o);
    push_named_hex(out, &[32u8, 47, 79, 69, 32], &keys.oe);
    push_named_hex(out, &[32u8, 47, 80, 101, 114, 109, 115, 32], &keys.perms);
    push_all(out, &[32u8, 47, 80, 32]);
    push_int(out, enc.permissions.to_p());
    push_all(out, &[32u8, 62, 62, 10, 101, 110, 100, 111, 98, 106, 10]);
    assert(final(out)@ =~= old(out)@ + encrypt_object_bytes(num as int, keys.u@, keys.ue@, keys.o@, keys.oe@, keys.perms@, p_value(enc.permissions)));
}

/// The first index of `s` whose number is greater than `key` (or `s.len()`).
pub open spec fn first_greater(s: Seq<(i32, usize)>, key: i32) -> int
    decreases s.len(),
{
    if s.len() == 0 {
        0
    } else if s[0].0 > key {
        0
    } else {
        1 + first_greater(s.drop_first(), key)
    }
}

/// `s` ordered by object number, entries with equal numbers kept in their
/// original order (a stable sort by number).
pub open spec fn sorted_by_number(s: Seq<(i32, usize)>) -> Seq<(i32, usize)>
    decreases s.len(),
{
    if s.len() == 0 {
        s
    } else {
        let t = sorted_by_number(s.drop_last());
        t.insert(first_greater(t, s.last().0), s.last())
    }
}

pub(crate) proof fn lemma_first_greater_bounds(s: Seq<(i32, usize)>, key: i32)
    ensures
        0 <= first_greater(s, key) <= s.len(),
        forall|m: int| 0 <= m < first_greater(s, key) ==> s[m].0 <= key,
        first_greater(s, key) < s.len() ==> s[first_greater(s, key)].0 > key,
    decreases s.len(),
{
    if s.len() > 0 && s[0].0 <= key {
        lemma_first_greater_bounds(s.drop_first(), key);
        assert forall|m: int| 0 <= m < first_greater(s, key) implies s[m].0 <= key by {
            if m > 0 {
                assert(s[m] == s.drop_first()[m - 1]);
            }
        }
    }
}

pub(crate) proof fn lemma_sorted_by_number_len(s: Seq<(i32, usize)>)
    ensures
        sorted_by_number(s).len() == s.len(),
    decreases s.len(),
{
    if s.len() > 0 {
        lemma_sorted_by_number_len(s.drop_last());
        lemma_first_greater_bounds(sorted_by_number(s.drop_last()), s.last().0);
    }
}

/// Order `(number, offset)` pairs by number, stably.
fn sort_by_number(v: &Vec<(i32, usize)>) -> (res: Vec<(i32, usize)>)
    ensures
        res@ == sorted_by_number(v@),
{
    let mut out: Vec<(i32, usize)> = Vec::new();
    let mut i: usize = 0;
    while i < v.len()
        invariant
            i <= v.len(),
            out@ == sorted_by_number(v@.take(i as int)),
        decreases v.len() - i,
    {
        let x = v[i];
        let mut pos: usize = 0;
        assert(out@.skip(0) =~= out@);
        while pos < out.len() && out[pos].0 <= x.0
            invariant
                pos <= out.len(),
                first_greater(out@, x.0) == pos + first_greater(out@.skip(pos as int), x.0),
            decreases out.len() - pos,
        {
            assert(out@.skip(pos as int).drop_first() =~= out@.skip(pos + 1));
            pos += 1;
        }
        proof {
            assert(v@.take(i + 1).drop_last() =~= v@.take(i as int));
            lemma_first_greater_bounds(out@, x.0);
            if pos < out.len() {
                assert(out@.skip(pos as int)[0].0 > x.0);
            }
        }
        out.insert(pos, x);
        i += 1;
    }
    assert(v@.take(i as int) =~= v@);
    out
}

/// One in-use xref row for `offset`: ten zero-padded digits then ` 00000 n `.
pub open spec fn xref_row(offset: usize) -> Seq<u8> {
    zero_pad(decimal(offset as nat), 10) + lit_xref_tail()
}

/// The rows for `s`, in order.
pub open spec fn xref_rows_bytes(s: Seq<(i32, usize)>) -> Seq<u8>
    decreases s.len(),
{
    if s.len() == 0 {
        Seq::empty()
    } else {
        xref_rows_bytes(s.drop_last()) + xref_row(s.last().1)
    }
}

/// The cross-reference table for `size` objects over `offsets`.
pub open spec fn xref_bytes(offsets: Seq<(i32, usize)>, size: int) -> Seq<u8> {
    lit_xref_head() + int_text(size) + seq![10u8] + lit_xref_free() + xref_rows_bytes(sorted_by_number(offsets))
}

/// One 20-byte in-use xref entry: `OOOOOOOOOO 00000 n \n`.
fn push_xref_entry(out: &mut Vec<u8>, offset: usize)
    ensures
        final(out)@ == old(out)@ + xref_row(offset),
{
    let d = decimal_bytes(offset as u64);
    let mut k = d.len();
    while k < 10
        invariant
            d.len() <= k <= 10 || (k == d.len() && k > 10),
            d@ == decimal(offset as nat),
            out@ == old(out)@ + Seq::new((k - d.len()) as nat, |i: int| 48u8),
        decreases 10 - k,
    {
        out.push(48);
        k += 1;
        assert(out@ =~= old(out)@ + Seq::new((k - d.len()) as nat, |i: int| 48u8));
    }
    push_all(out, d.as_slice());
    push_all(out, &[32u8, 48, 48, 48, 48, 48, 32, 110, 32, 10]);
    proof {
        if d@.len() >= 10 {
            assert(Seq::new((k - d.len()) as nat, |i: int| 48u8) =~= Seq::<u8>::empty());
        }
        assert(final(out)@ =~= old(out)@ + xref_row(offset));
    }
}

/// Write the classic cross-reference table for `size` objects (object 0 is the
/// free head).
fn write_xref(out: &mut Vec<u8>, offsets: &Vec<(i32, usize)>, size: i32)
    ensures
        final(out)@ == old(out)@ + xref_bytes(offsets@, size as int),
{
    push_all(out, &[120u8, 114, 101, 102, 10, 48, 32]);
    push_int(out, size);
    out.push(10);
    push_all(out, &[48u8, 48, 48, 48, 48, 48, 48, 48, 48, 48, 32, 54, 53, 53, 51, 53, 32, 102, 32, 10]);
    let sorted = sort_by_number(offsets);
    let ghost start = out@;
    let mut i: usize = 0;
    while i < sorted.len()
        invariant
            i <= sorted.len(),
            out@ == start + xref_rows_bytes(sorted@.take(i as int)),
        decreases sorted.len() - i,
    {
        push_xref_entry(out, sorted[i].1);
        assert(sorted@.take(i + 1).drop_last() =~= sorted@.take(i as int));
        i += 1;
    }
    assert(sorted@.take(i as int) =~= sorted@);
    assert(final(out)@ =~= old(out)@ + xref_bytes(offsets@, size as int));
}

/// ` /Key N 0 R`.
pub open spec fn ref_bytes(key: Seq<u8>, num: int) -> Seq<u8> {
    key + int_text(num) + lit_ref_suffix()
}

/// Write ` /Key N 0 R`.
fn push_ref(out: &mut Vec<u8>, key: &[u8], num: i32)
    ensures
        final(out)@ == old(out)@ + ref_bytes(key@, num as int),
{
    push_all(out, key);
    push_int(out, num);
    push_all(out, &[32u8, 48, 32, 82]);
    assert(final(out)@ =~= old(out)@ + ref_bytes(key@, num as int));
}

/// ` /ID [<hex> <hex>]`, both halves the file identifier.
pub open spec fn id_bytes(id: Seq<u8>) -> Seq<u8> {
    lit_id_open() + hex_string_spec(id) + seq![32u8] + hex_string_spec(id) + seq![93u8]
}

/// Write ` /ID [<hex> <hex>]` (both halves identical for a one-revision file).
fn write_id(out: &mut Vec<u8>, id: &[u8; 16])
    ensures
        final(out)@ == old(out)@ + id_bytes(id@),
{
    push_all(out, &[32u8, 47, 73, 68, 32, 91]);
    let h = hex_string(id);
    push_all(out, h.as_slice());
    out.push(32);
    push_all(out, h.as_slice());
    out.push(93);
    assert(final(out)@ =~= old(out)@ + id_bytes(id@));
}

/// The trailer dictionary + `startxref` + `%%EOF`.
pub open spec fn trailer_bytes(root: int, info: Option<int>, encrypt_num: int, id: Seq<u8>, xref_offset: usize, size: int) -> Seq<u8> {
    lit_trailer_head() + int_text(size) + ref_bytes(lit_ref_root(), root) + (match info {
        Some(i) => ref_bytes(lit_ref_info(), i),
        None => Seq::empty(),
    }) + ref_bytes(lit_ref_encrypt(), encrypt_num) + id_bytes(id) + lit_startxref() + int_text(
        (xref_offset as i32) as int,
    ) + lit_eof()
}

/// Write the trailer dict + `startxref` + `%%EOF`.
fn write_trailer(out: &mut Vec<u8>, trailer: &Trailer, encrypt_num: i32, id: &[u8; 16], xref_offset: usize, size: i32)
    ensures
        final(out)@ == old(out)@ + trailer_bytes(trailer.root as int, opt_int(trailer.info), encrypt_num as int, id@, xref_offset, size as int),
{
    push_all(out, &[116u8, 114, 97, 105, 108, 101, 114, 10, 60, 60, 32, 47, 83, 105, 122, 101, 32]);
    push_int(out, size);
    push_ref(out, &[32u8, 47, 82, 111, 111, 116, 32], trailer.root);
    let ghost mid = out@;
    match trailer.info {
        Some(info) => push_ref(out, &[32u8, 47, 73, 110, 102, 111, 32], info),
        None => {},
    }
    push_ref(out, &[32u8, 47, 69, 110, 99, 114, 121, 112, 116, 32], encrypt_num);
    write_id(out, id);
    push_all(out, &[32u8, 62, 62, 10, 115, 116, 97, 114, 116, 120, 114, 101, 102, 10]);
    push_int(out, xref_offset as i32);
    push_all(out, &[10u8, 37, 37, 69, 79, 70, 10]);
    assert(final(out)@ =~= old(out)@ + trailer_bytes(trailer.root as int, opt_int(trailer.info), encrypt_num as int, id@, xref_offset, size as int));
}

/// The objects written after `out`, from index `k` on, with the offsets
/// recorded so far: the bytes and the `(number, offset)` pairs; `None` where an
/// object cannot be written.
pub open spec fn objects_bytes(objs: Seq<ObjectView>, k: int, out: Seq<u8>, offs: Seq<(i32, usize)>) -> Option<(Seq<u8>, Seq<(i32, usize)>)>
    decreases objs.len() - k,
{
    if k < 0 || k >= objs.len() {
        Some((out, offs))
    } else {
        match object_bytes(objs[k]) {
            Some(b) => objects_bytes(objs, k + 1, out + b, offs.push((objs[k].number as i32, out.len() as usize))),
            None => None,
        }
    }
}

/// The whole encrypted file: header, objects, the `/Encrypt` object numbered
/// `size`, the xref table over `size + 1` objects and the trailer; `None` where
/// an object cannot be written.
pub open spec fn file_bytes(objs: Seq<ObjectView>, size: int, root: int, info: Option<int>, u: Seq<u8>, ue: Seq<u8>, o: Seq<u8>, oe: Seq<u8>, perms: Seq<u8>, p: int, id: Seq<u8>) -> Option<Seq<u8>> {
    match objects_bytes(objs, 0, lit_header(), Seq::empty()) {
        Some((out, offs)) => {
            let offs2 = offs.push((size as i32, out.len() as usize));
            let out2 = out + encrypt_object_bytes(size, u, ue, o, oe, perms, p);
            Some(out2 + xref_bytes(offs2, size + 1) + trailer_bytes(root, info, size, id, out2.len() as usize, size + 1))
        },
        None => None,
    }
}

/// Serialise the document. `id` is the random 16-byte file identifier; both
/// halves of `/ID` use it.
pub fn write(objects: &[Object], trailer: Trailer, keys: &Keys, enc: &Encryption, id: &[u8; 16]) -> (res: Vec<u8>)
    requires
        trailer.size < i32::MAX,
        objects_bytes(objects_view(objects@), 0, lit_header(), Seq::empty()) is Some,
    ensures
        Some(res@) == file_bytes(objects_view(objects@), trailer.size as int, trailer.root as int, opt_int(trailer.info), keys.u@, keys.ue@, keys.o@, keys.oe@, keys.perms@, p_value(enc.permissions), id@),
{
    let ghost objs = objects_view(objects@);
    let encrypt_num = trailer.size;
    let mut out: Vec<u8> = Vec::new();
    push_all(&mut out, &[37u8, 80, 68, 70, 45, 49, 46, 55, 10, 37, 128, 128, 128, 128, 10, 10]);
    assert(out@ =~= lit_header());
    let mut offsets: Vec<(i32, usize)> = Vec::new();
    let mut k: usize = 0;
    while k < objects.len()
        invariant
            k <= objects@.len(),
            objs == objects_view(objects@),
            objects_bytes(objs, k as int, out@, offsets@) is Some,
            objects_bytes(objs, k as int, out@, offsets@) == objects_bytes(objs, 0, lit_header(), Seq::empty()),
        decreases objects.len() - k,
    {
        offsets.push((objects[k].number, out.len()));
        write_object(&mut out, &objects[k]);
        k += 1;
    }
    offsets.push((encrypt_num, out.len()));
    write_encrypt_object(&mut out, encrypt_num, keys, enc);
    let xref_offset = out.len();
    let size = encrypt_num + 1;
    write_xref(&mut out, &offsets, size);
    write_trailer(&mut out, &trailer, encrypt_num, id, xref_offset, size);
    out
}

} // verus!
