//! What the reader finds again in a file this crate wrote: the trailer's
//! `/Size`, `/Root` and `/Info`, and the `startxref` pointer to the xref table.
use vstd::prelude::*;
use crate::bytes::{ascii_value, find_last_spec, find_spec, is_digit, lemma_find_skip, matches_at, rfind_spec, skip_nondigits, skip_spaces_spec, take_digits};
use super::parse::{ObjectView, before_space, objects_from, objects_spec, is_row_sep, row_fields, run_len, xref_entry_spec, xref_rows, xref_spec, checked_ascii, kw_endobj, kw_obj, kw_stream, object_spec, scan_spec, split_stream_spec, key_info, key_root, key_size, kw_startxref, kw_trailer, ref_after_spec, startxref_spec, trailer_spec};
use super::serialize::{decimal, encrypt_object_bytes, first_greater, lit_enc_close, lit_enc_cf, lit_enc_filters, lit_enc_head, lit_key_o, lit_key_oe, lit_key_p, lit_key_perms, lit_key_u, lit_key_ue, lit_xref_free, lit_xref_head, lit_xref_tail, sorted_by_number, xref_row, xref_rows_bytes, zero_pad, lit_obj_close, lit_obj_open, object_bytes, file_bytes, hex_string_spec, id_bytes, int_text, lit_eof, lit_header, lit_ref_encrypt, lit_ref_info, lit_ref_root, lit_ref_suffix, lit_startxref, lit_trailer_head, objects_bytes, ref_bytes, trailer_bytes, xref_bytes};

verus! {

/// Whether the byte `b` occurs in `s`.
pub open spec fn has_byte(s: Seq<u8>, b: u8) -> bool
    decreases s.len(),
{
    s.len() > 0 && (s[0] == b || has_byte(s.drop_first(), b))
}

/// Whether the byte `x` is directly followed by the byte `y` somewhere in `s`.
pub open spec fn has_pair(s: Seq<u8>, x: u8, y: u8) -> bool
    decreases s.len(),
{
    s.len() >= 2 && ((s[0] == x && s[1] == y) || has_pair(s.drop_first(), x, y))
}

proof fn lemma_has_byte_index(s: Seq<u8>, b: u8)
    ensures
        has_byte(s, b) <==> exists|i: int| 0 <= i < s.len() && s[i] == b,
    decreases s.len(),
{
    if s.len() > 0 {
        lemma_has_byte_index(s.drop_first(), b);
        if has_byte(s.drop_first(), b) {
            let i = choose|i: int| 0 <= i < s.drop_first().len() && s.drop_first()[i] == b;
            assert(s[i + 1] == b);
        }
        if exists|i: int| 0 <= i < s.len() && s[i] == b {
            let i = choose|i: int| 0 <= i < s.len() && s[i] == b;
            if i > 0 {
                assert(s.drop_first()[i - 1] == b);
            }
        }
    }
}

proof fn lemma_has_pair_index(s: Seq<u8>, x: u8, y: u8, k: int)
    requires
        0 <= k,
        k + 1 < s.len(),
        s[k] == x,
        s[k + 1] == y,
    ensures
        has_pair(s, x, y),
    decreases k,
{
    if k > 0 {
        lemma_has_pair_index(s.drop_first(), x, y, k - 1);
    }
}

proof fn lemma_pair_needs_byte(s: Seq<u8>, x: u8, y: u8)
    requires
        !has_byte(s, x),
    ensures
        !has_pair(s, x, y),
    decreases s.len(),
{
    if s.len() > 0 {
        lemma_pair_needs_byte(s.drop_first(), x, y);
    }
}

proof fn lemma_has_byte_concat(a: Seq<u8>, c: Seq<u8>, b: u8)
    ensures
        has_byte(a + c, b) == (has_byte(a, b) || has_byte(c, b)),
{
    lemma_has_byte_index(a, b);
    lemma_has_byte_index(c, b);
    lemma_has_byte_index(a + c, b);
    if has_byte(a + c, b) {
        let i = choose|i: int| 0 <= i < (a + c).len() && (a + c)[i] == b;
        if i >= a.len() {
            assert(c[i - a.len()] == b);
        }
    }
    if has_byte(a, b) {
        let i = choose|i: int| 0 <= i < a.len() && a[i] == b;
        assert((a + c)[i] == b);
    }
    if has_byte(c, b) {
        let i = choose|i: int| 0 <= i < c.len() && c[i] == b;
        assert((a + c)[a.len() + i] == b);
    }
}

proof fn lemma_has_pair_concat(a: Seq<u8>, c: Seq<u8>, x: u8, y: u8)
    requires
        !has_pair(a, x, y),
        !has_pair(c, x, y),
        a.len() == 0 || c.len() == 0 || a.last() != x || c[0] != y,
    ensures
        !has_pair(a + c, x, y),
    decreases a.len(),
{
    if a.len() == 0 {
        assert(a + c =~= c);
    } else {
        lemma_has_pair_concat(a.drop_first(), c, x, y);
        assert((a + c).drop_first() =~= a.drop_first() + c);
        if a.len() == 1 && c.len() > 0 {
            assert((a + c)[1] == c[0]);
        }
    }
}

/// No byte of `s` is `b`, index by index.
proof fn lemma_no_byte(s: Seq<u8>, b: u8)
    requires
        forall|i: int| 0 <= i < s.len() ==> s[i] != b,
    ensures
        !has_byte(s, b),
{
    lemma_has_byte_index(s, b);
}

/// The first occurrence of `k` in `p + k + r` is right after `p`, when `p`
/// never shows `k`'s first two bytes in a row.
proof fn lemma_find_first(p: Seq<u8>, k: Seq<u8>, r: Seq<u8>)
    requires
        k.len() >= 2,
        !has_pair(p, k[0], k[1]),
        p.len() == 0 || p.last() != k[0],
    ensures
        find_spec(p + k + r, k, 0) == Some(p.len() as int),
    decreases p.len(),
{
    let hay = p + k + r;
    if p.len() == 0 {
        assert(hay.subrange(0, k.len() as int) =~= k);
    } else {
        assert(!matches_at(hay, k, 0)) by {
            if p[0] == k[0] {
                if p.len() >= 2 {
                    assert(p[1] != k[1]) by {
                        if p[1] == k[1] {
                            lemma_has_pair_index(p, k[0], k[1], 0);
                        }
                    }
                    assert(hay.subrange(0, k.len() as int)[1] == p[1]);
                } else {
                    assert(p.last() == p[0]);
                }
            } else {
                assert(hay.subrange(0, k.len() as int)[0] == p[0]);
            }
        }
        let q = p.drop_first();
        assert(!has_pair(q, k[0], k[1]));
        lemma_find_first(q, k, r);
        assert(hay.skip(1) =~= q + k + r);
        lemma_find_skip(hay, k, 1, 0);
    }
}

/// `k` does not occur in `s` when two of its bytes in a row never do.
proof fn lemma_find_none(s: Seq<u8>, k: Seq<u8>, i: int, from: int)
    requires
        0 <= i,
        i + 1 < k.len(),
        0 <= from,
        !has_pair(s, k[i], k[i + 1]),
    ensures
        find_spec(s, k, from) is None,
    decreases s.len() + 1 - from,
{
    if from + k.len() <= s.len() {
        assert(!matches_at(s, k, from)) by {
            if matches_at(s, k, from) {
                assert(s.subrange(from, from + k.len())[i] == k[i]);
                assert(s.subrange(from, from + k.len())[i + 1] == k[i + 1]);
                lemma_has_pair_index(s, k[i], k[i + 1], from + i);
            }
        }
        lemma_find_none(s, k, i, from + 1);
    }
}

/// The last occurrence of `n` at or before `upto` is `at`, when none lies
/// between.
proof fn lemma_rfind_at(hay: Seq<u8>, n: Seq<u8>, at: int, upto: int)
    requires
        matches_at(hay, n, at),
        at <= upto,
        forall|j: int| at < j <= upto ==> !matches_at(hay, n, j),
    ensures
        rfind_spec(hay, n, upto) == Some(at),
    decreases upto - at,
{
    if upto > at {
        lemma_rfind_at(hay, n, at, upto - 1);
    }
}

/// The decimal text of `n` is all digits and reads back as `n`.
proof fn lemma_decimal_reads_back(n: nat)
    ensures
        decimal(n).len() >= 1,
        forall|i: int| 0 <= i < decimal(n).len() ==> is_digit(#[trigger] decimal(n)[i]),
        ascii_value(decimal(n)) == n,
    decreases n,
{
    if n >= 10 {
        lemma_decimal_reads_back(n / 10);
        assert(decimal(n).drop_last() =~= decimal(n / 10));
        assert(forall|i: int| 0 <= i < decimal(n / 10).len() ==> decimal(n)[i] == decimal(n / 10)[i]);
        let d = decimal(n);
        assert(d.last() == 48 + n % 10);
        assert(is_digit(d.last()));
        assert(ascii_value(d) == ascii_value(d.drop_last()) * 10 + (d.last() - 48));
        assert(n == (n / 10) * 10 + n % 10);
    } else {
        assert(decimal(n).drop_last() =~= Seq::<u8>::empty());
        let d = decimal(n);
        assert(d.last() == 48 + n);
        assert(is_digit(d.last()));
        assert(ascii_value(d.drop_last()) == 0);
        assert(ascii_value(d) == ascii_value(d.drop_last()) * 10 + (d.last() - 48));
    }
}

/// The leading digits of `d + rest` are `d` when `rest` starts with a
/// non-digit.
proof fn lemma_take_digits_of(d: Seq<u8>, rest: Seq<u8>)
    requires
        forall|i: int| 0 <= i < d.len() ==> is_digit(#[trigger] d[i]),
        rest.len() > 0,
        !is_digit(rest[0]),
    ensures
        take_digits(d + rest) == d,
    decreases d.len(),
{
    if d.len() == 0 {
        assert(d + rest =~= rest);
    } else {
        lemma_take_digits_of(d.drop_first(), rest);
        assert((d + rest).drop_first() =~= d.drop_first() + rest);
        assert(seq![d[0]] + d.drop_first() =~= d);
    }
}

/// A key found at `at`, followed by a space and a decimal number, reads back
/// as that number.
proof fn lemma_reads_number(dict: Seq<u8>, key: Seq<u8>, at: int, n: nat, rest: Seq<u8>)
    requires
        find_spec(dict, key, 0) == Some(at),
        0 <= at,
        at + key.len() <= dict.len(),
        dict.skip(at + key.len()) == seq![32u8] + decimal(n) + rest,
        rest.len() > 0,
        rest[0] == 32u8,
        n <= i32::MAX,
    ensures
        ref_after_spec(dict, key) == Some(Some(n as int)),
{
    lemma_decimal_reads_back(n);
    let s = seq![32u8] + decimal(n) + rest;
    assert(s.drop_first() =~= decimal(n) + rest);
    assert((decimal(n) + rest)[0] == decimal(n)[0]);
    assert(skip_spaces_spec(decimal(n) + rest) == decimal(n) + rest);
    assert(skip_spaces_spec(s) == decimal(n) + rest);
    lemma_take_digits_of(decimal(n), rest);
}

/// `s` never shows `x` then `y`, and does not end in `x`: a piece that can be
/// joined to any other such piece without making the pair.
pub open spec fn clean(s: Seq<u8>, x: u8, y: u8) -> bool {
    !has_pair(s, x, y) && (s.len() == 0 || s.last() != x)
}

proof fn lemma_clean_concat(a: Seq<u8>, c: Seq<u8>, x: u8, y: u8)
    requires
        clean(a, x, y),
        clean(c, x, y),
    ensures
        clean(a + c, x, y),
{
    lemma_has_pair_concat(a, c, x, y);
    if c.len() == 0 {
        assert(a + c =~= a);
    } else {
        assert((a + c).last() == c.last());
    }
}

proof fn lemma_clean_without(s: Seq<u8>, x: u8, y: u8)
    requires
        !has_byte(s, x),
    ensures
        clean(s, x, y),
{
    lemma_pair_needs_byte(s, x, y);
    lemma_has_byte_index(s, x);
    if s.len() > 0 {
        assert(s[s.len() - 1] == s.last());
    }
}

/// The text of an integer holds only digits and `-`.
proof fn lemma_int_text_lacks(n: int, b: u8)
    requires
        !is_digit(b),
        b != 45u8,
    ensures
        !has_byte(int_text(n), b),
{
    let m: nat = if n < 0 {
        (-n) as nat
    } else {
        n as nat
    };
    lemma_decimal_reads_back(m);
    lemma_no_byte(decimal(m), b);
    if n < 0 {
        lemma_has_byte_concat(seq![45u8], decimal(m), b);
        assert(!has_byte(seq![45u8].drop_first(), b));
    }
}

/// A hex string holds only `<`, `>` and the digits `0-9A-F`.
proof fn lemma_hex_lacks(bytes: Seq<u8>, b: u8)
    requires
        !is_digit(b),
        b != 60u8,
        b != 62u8,
        !(65 <= b <= 70),
    ensures
        !has_byte(hex_string_spec(bytes), b),
{
    let h = hex_string_spec(bytes);
    assert forall|i: int| 0 <= i < h.len() implies h[i] != b by {
        if 0 < i < h.len() - 1 {
            let v = bytes[(i - 1) / 2];
            assert(v / 16 < 16 && v % 16 < 16);
        }
    }
    lemma_no_byte(h, b);
}

/// ` /ID [<hex> <hex>]` holds no lowercase letter and no line break.
proof fn lemma_id_lacks(id: Seq<u8>, b: u8)
    requires
        97 <= b <= 122 || b == 10u8,
    ensures
        !has_byte(id_bytes(id), b),
{
    let h = hex_string_spec(id);
    lemma_hex_lacks(id, b);
    let o = seq![32u8, 47, 73, 68, 32, 91];
    lemma_no_byte(o, b);
    lemma_no_byte(seq![32u8], b);
    lemma_no_byte(seq![93u8], b);
    lemma_has_byte_concat(o, h, b);
    lemma_has_byte_concat(o + h, seq![32u8], b);
    lemma_has_byte_concat(o + h + seq![32u8], h, b);
    lemma_has_byte_concat(o + h + seq![32u8] + h, seq![93u8], b);
}

/// ` /Key N 0 R` holds no byte that neither the key nor a number holds.
proof fn lemma_ref_lacks(key: Seq<u8>, n: int, b: u8)
    requires
        !has_byte(key, b),
        97 <= b <= 122 || b == 10u8,
    ensures
        !has_byte(ref_bytes(key, n), b),
{
    lemma_int_text_lacks(n, b);
    lemma_no_byte(lit_ref_suffix(), b);
    lemma_has_byte_concat(key, int_text(n), b);
    lemma_has_byte_concat(key + int_text(n), lit_ref_suffix(), b);
}

/// No `x` is directly followed by `y` in `s`, index by index, and `s` does
/// not end in `x`.
proof fn lemma_lit_clean(s: Seq<u8>, x: u8, y: u8)
    requires
        forall|i: int| 0 <= i && i + 1 < s.len() ==> !(#[trigger] s[i] == x && s[i + 1] == y),
        s.len() == 0 || s[s.len() - 1] != x,
    ensures
        clean(s, x, y),
    decreases s.len(),
{
    if s.len() >= 2 {
        let q = s.drop_first();
        assert forall|i: int| 0 <= i && i + 1 < q.len() implies !(#[trigger] q[i] == x && q[i + 1] == y) by {
            assert(q[i] == s[i + 1] && q[i + 1] == s[i + 2]);
        }
        lemma_lit_clean(q, x, y);
    }
}

/// The keyword `k` found at `at` is the last one in `f` when its byte at
/// `idx` never comes again after it.
proof fn lemma_last_keyword(f: Seq<u8>, k: Seq<u8>, at: int, idx: int)
    requires
        matches_at(f, k, at),
        0 <= idx < k.len(),
        !has_byte(f.skip(at + idx + 1), k[idx]),
    ensures
        find_last_spec(f, k) == Some(at),
{
    lemma_has_byte_index(f.skip(at + idx + 1), k[idx]);
    assert forall|j: int| at < j <= f.len() - k.len() implies !matches_at(f, k, j) by {
        if matches_at(f, k, j) {
            assert(f.subrange(j, j + k.len())[idx] == k[idx]);
            assert(f.skip(at + idx + 1)[j - at - 1] == f[j + idx]);
        }
    }
    lemma_rfind_at(f, k, at, f.len() - k.len());
}

/// The trailer's `/Size` entry reads back.
proof fn lemma_size_reads_back(t: Seq<u8>, n: nat, rest: Seq<u8>)
    requires
        t == lit_trailer_head() + decimal(n) + rest,
        rest.len() > 0,
        rest[0] == 32u8,
        n <= i32::MAX,
    ensures
        ref_after_spec(t, key_size()) == Some(Some(n as int)),
{
    let h = lit_trailer_head();
    let p = h.take(11);
    assert(h =~= p + key_size() + seq![32u8]);
    lemma_lit_clean(p, 47u8, 83u8);
    let r = seq![32u8] + decimal(n) + rest;
    assert(t =~= p + key_size() + r);
    lemma_find_first(p, key_size(), r);
    assert(t.skip(16) =~= seq![32u8] + decimal(n) + rest);
    lemma_reads_number(t, key_size(), 11, n, rest);
}

/// A ` /Key N 0 R` entry reads back when the part before it never shows the
/// key's first two bytes in a row.
proof fn lemma_ref_reads_back(t: Seq<u8>, before: Seq<u8>, key: Seq<u8>, n: nat, after: Seq<u8>)
    requires
        t == before + (seq![32u8] + key + seq![32u8]) + decimal(n) + lit_ref_suffix() + after,
        key.len() >= 2,
        key[0] == 47u8,
        key[1] != 47u8,
        clean(before, 47u8, key[1]),
        n <= i32::MAX,
    ensures
        ref_after_spec(t, key) == Some(Some(n as int)),
{
    let p = before + seq![32u8];
    assert(clean(seq![32u8], 47u8, key[1]));
    lemma_clean_concat(before, seq![32u8], 47u8, key[1]);
    let rest = lit_ref_suffix() + after;
    let r = seq![32u8] + decimal(n) + rest;
    assert(t =~= p + key + r);
    lemma_find_first(p, key, r);
    assert(t.skip((p.len() + key.len()) as int) =~= seq![32u8] + decimal(n) + rest);
    assert(lit_ref_suffix()[0] == 32u8);
    assert(rest[0] == 32u8);
    lemma_reads_number(t, key, p.len() as int, n, rest);
}

/// The pieces of the trailer the writer lays out, in order.
proof fn lemma_trailer_layout(root: int, info: Option<int>, enc: int, id: Seq<u8>, x: usize, size: int)
    ensures
        trailer_bytes(root, info, enc, id, x, size) == lit_trailer_head() + int_text(size)
            + ref_bytes(lit_ref_root(), root) + (match info {
            Some(i) => ref_bytes(lit_ref_info(), i),
            None => Seq::<u8>::empty(),
        }) + ref_bytes(lit_ref_encrypt(), enc) + id_bytes(id) + lit_startxref() + int_text(
            (x as i32) as int,
        ) + lit_eof(),
{
}

/// The written trailer opens with `trailer`, and no `l` follows it.
proof fn lemma_trailer_keyword(root: int, info: Option<int>, enc: int, id: Seq<u8>, x: usize, size: int)
    ensures
        trailer_bytes(root, info, enc, id, x, size).len() >= 7,
        trailer_bytes(root, info, enc, id, x, size).take(7) == kw_trailer(),
        !has_byte(trailer_bytes(root, info, enc, id, x, size).skip(5), 108u8),
{
    let t = trailer_bytes(root, info, enc, id, x, size);
    let h = lit_trailer_head();
    let ds = int_text(size);
    let rr = ref_bytes(lit_ref_root(), root);
    let ri: Seq<u8> = match info {
        Some(i) => ref_bytes(lit_ref_info(), i),
        None => Seq::empty(),
    };
    let re = ref_bytes(lit_ref_encrypt(), enc);
    let idb = id_bytes(id);
    let sx = lit_startxref();
    let xo = int_text((x as i32) as int);
    let eof = lit_eof();
    lemma_trailer_layout(root, info, enc, id, x, size);
    let l = 108u8;
    lemma_no_byte(h.skip(5), l);
    lemma_int_text_lacks(size, l);
    lemma_no_byte(lit_ref_root(), l);
    lemma_no_byte(lit_ref_info(), l);
    lemma_no_byte(lit_ref_encrypt(), l);
    lemma_no_byte(sx, l);
    lemma_no_byte(eof, l);
    lemma_ref_lacks(lit_ref_root(), root, l);
    match info {
        Some(i) => lemma_ref_lacks(lit_ref_info(), i, l),
        None => {},
    }
    lemma_ref_lacks(lit_ref_encrypt(), enc, l);
    lemma_id_lacks(id, l);
    lemma_int_text_lacks((x as i32) as int, l);
    lemma_has_byte_concat(h.skip(5), ds, l);
    lemma_has_byte_concat(h.skip(5) + ds, rr, l);
    lemma_has_byte_concat(h.skip(5) + ds + rr, ri, l);
    lemma_has_byte_concat(h.skip(5) + ds + rr + ri, re, l);
    lemma_has_byte_concat(h.skip(5) + ds + rr + ri + re, idb, l);
    lemma_has_byte_concat(h.skip(5) + ds + rr + ri + re + idb, sx, l);
    lemma_has_byte_concat(h.skip(5) + ds + rr + ri + re + idb + sx, xo, l);
    lemma_has_byte_concat(h.skip(5) + ds + rr + ri + re + idb + sx + xo, eof, l);
    assert(t.skip(5) =~= h.skip(5) + ds + rr + ri + re + idb + sx + xo + eof);
    assert(t.take(7) =~= kw_trailer());
}

/// The written trailer's `/Size` and `/Root` read back.
proof fn lemma_trailer_size_root(root: int, info: Option<int>, enc: int, id: Seq<u8>, x: usize, size: int)
    requires
        0 <= size <= i32::MAX,
        0 <= root <= i32::MAX,
    ensures
        ref_after_spec(trailer_bytes(root, info, enc, id, x, size), key_size()) == Some(Some(size)),
        ref_after_spec(trailer_bytes(root, info, enc, id, x, size), key_root()) == Some(Some(root)),
{
    let t = trailer_bytes(root, info, enc, id, x, size);
    let h = lit_trailer_head();
    let ds = int_text(size);
    let rr = ref_bytes(lit_ref_root(), root);
    let ri: Seq<u8> = match info {
        Some(i) => ref_bytes(lit_ref_info(), i),
        None => Seq::empty(),
    };
    let after2 = ri + ref_bytes(lit_ref_encrypt(), enc) + id_bytes(id) + lit_startxref() + int_text(
        (x as i32) as int,
    ) + lit_eof();
    lemma_trailer_layout(root, info, enc, id, x, size);
    let dn = decimal(size as nat);
    assert(ds == dn);
    let rest1 = rr + after2;
    assert(t =~= h + dn + rest1);
    assert(rest1[0] == rr[0]);
    lemma_size_reads_back(t, size as nat, rest1);

    let rk = key_root();
    assert(lit_ref_root() =~= seq![32u8] + rk + seq![32u8]);
    assert(int_text(root) == decimal(root as nat));
    assert(t =~= (h + ds) + (seq![32u8] + rk + seq![32u8]) + decimal(root as nat) + lit_ref_suffix() + after2);
    lemma_lit_clean(h, 47u8, rk[1]);
    lemma_int_text_lacks(size, 47u8);
    lemma_clean_without(ds, 47u8, rk[1]);
    lemma_clean_concat(h, ds, 47u8, rk[1]);
    lemma_ref_reads_back(t, h + ds, rk, root as nat, after2);
}

/// The written trailer's `/Info` reads back, present or absent.
proof fn lemma_trailer_info(root: int, info: Option<int>, enc: int, id: Seq<u8>, x: usize, size: int)
    requires
        0 <= size,
        0 <= enc,
        info matches Some(i) ==> 0 <= i <= i32::MAX,
    ensures
        ref_after_spec(trailer_bytes(root, info, enc, id, x, size), key_info()) == Some(info),
{
    let t = trailer_bytes(root, info, enc, id, x, size);
    let h = lit_trailer_head();
    let ds = int_text(size);
    let rr = ref_bytes(lit_ref_root(), root);
    let re = ref_bytes(lit_ref_encrypt(), enc);
    let idb = id_bytes(id);
    let sx = lit_startxref();
    let xo = int_text((x as i32) as int);
    let eof = lit_eof();
    lemma_trailer_layout(root, info, enc, id, x, size);
    let ik = key_info();
    match info {
        Some(i) => {
            assert(lit_ref_info() =~= seq![32u8] + ik + seq![32u8]);
            let after3 = re + idb + sx + xo + eof;
            assert(int_text(i) == decimal(i as nat));
            assert(t =~= (h + ds + rr) + (seq![32u8] + ik + seq![32u8]) + decimal(i as nat) + lit_ref_suffix() + after3);
            lemma_lit_clean(h, 47u8, ik[1]);
            lemma_int_text_lacks(size, 47u8);
            lemma_clean_without(ds, 47u8, ik[1]);
            lemma_lit_clean(lit_ref_root(), 47u8, ik[1]);
            lemma_lit_clean(lit_ref_suffix(), 47u8, ik[1]);
            lemma_int_text_lacks(root, 47u8);
            lemma_clean_without(int_text(root), 47u8, ik[1]);
            lemma_clean_concat(lit_ref_root(), int_text(root), 47u8, ik[1]);
            lemma_clean_concat(lit_ref_root() + int_text(root), lit_ref_suffix(), 47u8, ik[1]);
            lemma_clean_concat(h, ds, 47u8, ik[1]);
            lemma_clean_concat(h + ds, rr, 47u8, ik[1]);
            lemma_ref_reads_back(t, h + ds + rr, ik, i as nat, after3);
        },
        None => {
            let ri = Seq::<u8>::empty();
            let n = 110u8;
            let fch = 102u8;
            lemma_lit_clean(h, n, fch);
            lemma_int_text_lacks(size, n);
            lemma_clean_without(ds, n, fch);
            lemma_no_byte(lit_ref_root(), n);
            lemma_ref_lacks(lit_ref_root(), root, n);
            lemma_clean_without(rr, n, fch);
            assert(clean(ri, n, fch));
            lemma_lit_clean(lit_ref_encrypt(), n, fch);
            lemma_lit_clean(lit_ref_suffix(), n, fch);
            lemma_int_text_lacks(enc, n);
            lemma_clean_without(int_text(enc), n, fch);
            lemma_clean_concat(lit_ref_encrypt(), int_text(enc), n, fch);
            lemma_clean_concat(lit_ref_encrypt() + int_text(enc), lit_ref_suffix(), n, fch);
            lemma_id_lacks(id, n);
            lemma_clean_without(idb, n, fch);
            lemma_lit_clean(sx, n, fch);
            lemma_int_text_lacks((x as i32) as int, n);
            lemma_clean_without(xo, n, fch);
            lemma_lit_clean(eof, n, fch);
            lemma_clean_concat(h, ds, n, fch);
            lemma_clean_concat(h + ds, rr, n, fch);
            lemma_clean_concat(h + ds + rr, ri, n, fch);
            lemma_clean_concat(h + ds + rr + ri, re, n, fch);
            lemma_clean_concat(h + ds + rr + ri + re, idb, n, fch);
            lemma_clean_concat(h + ds + rr + ri + re + idb, sx, n, fch);
            lemma_clean_concat(h + ds + rr + ri + re + idb + sx, xo, n, fch);
            lemma_clean_concat(h + ds + rr + ri + re + idb + sx + xo, eof, n, fch);
            assert(t == h + ds + rr + ri + re + idb + sx + xo + eof);
            assert(ik[2] == n && ik[3] == fch);
            lemma_find_none(t, ik, 2, 0);
        },
    }
}

/// A file this crate wrote carries its trailer through the reader: `/Size` is
/// `size + 1` (the `/Encrypt` dictionary takes number `size`), and `/Root`
/// and `/Info` are read back exactly as they were written.
pub proof fn written_trailer_reads_back(
    objs: Seq<ObjectView>,
    size: int,
    root: int,
    info: Option<int>,
    u: Seq<u8>,
    ue: Seq<u8>,
    o: Seq<u8>,
    oe: Seq<u8>,
    perms: Seq<u8>,
    p: int,
    id: Seq<u8>,
)
    requires
        file_bytes(objs, size, root, info, u, ue, o, oe, perms, p, id) is Some,
        0 <= size < i32::MAX,
        0 <= root <= i32::MAX,
        info matches Some(i) ==> 0 <= i <= i32::MAX,
    ensures
        trailer_spec(file_bytes(objs, size, root, info, u, ue, o, oe, perms, p, id).unwrap())
            == Some((size + 1, root, info)),
{
    let (out, offs) = objects_bytes(objs, 0, lit_header(), Seq::empty()).unwrap();
    let out2 = out + encrypt_object_bytes(size, u, ue, o, oe, perms, p);
    let offs2 = offs.push((size as i32, out.len() as usize));
    let pre = out2 + xref_bytes(offs2, size + 1);
    let x = out2.len() as usize;
    let t = trailer_bytes(root, info, size, id, x, size + 1);
    let f = pre + t;
    assert(file_bytes(objs, size, root, info, u, ue, o, oe, perms, p, id).unwrap() == f);
    lemma_trailer_keyword(root, info, size, id, x, size + 1);
    assert(t.subrange(0, 7) =~= t.take(7));
    lemma_keyword_in(pre, t, kw_trailer(), 0, 4);
    assert(t.skip(0) =~= t);
    lemma_trailer_size_root(root, info, size, id, x, size + 1);
    lemma_trailer_info(root, info, size, id, x, size + 1);
}

/// Where `startxref` stands in a written trailer, and what follows it.
proof fn lemma_trailer_pointer(root: int, info: Option<int>, enc: int, id: Seq<u8>, x: usize, size: int) -> (pos: int)
    requires
        x <= i32::MAX,
    ensures
        0 <= pos,
        pos + 9 <= trailer_bytes(root, info, enc, id, x, size).len(),
        trailer_bytes(root, info, enc, id, x, size).subrange(pos, pos + 9) == kw_startxref(),
        !has_byte(trailer_bytes(root, info, enc, id, x, size).skip(pos + 6), 120u8),
        trailer_bytes(root, info, enc, id, x, size).skip(pos + 9) == seq![10u8] + decimal(x as nat) + lit_eof(),
{
    let t = trailer_bytes(root, info, enc, id, x, size);
    lemma_trailer_layout(root, info, enc, id, x, size);
    let a = lit_trailer_head() + int_text(size) + ref_bytes(lit_ref_root(), root) + (match info {
        Some(i) => ref_bytes(lit_ref_info(), i),
        None => Seq::<u8>::empty(),
    }) + ref_bytes(lit_ref_encrypt(), enc) + id_bytes(id);
    let sx = lit_startxref();
    let xo = int_text((x as i32) as int);
    let eof = lit_eof();
    assert(t == a + sx + xo + eof);
    assert((x as i32) as int == x as int);
    assert(xo == decimal(x as nat));
    let pos: int = a.len() + 4int;
    assert(t.subrange(pos, pos + 9) =~= kw_startxref());
    assert(sx.skip(10) =~= seq![114u8, 101, 102, 10]);
    lemma_no_byte(sx.skip(10), 120u8);
    lemma_int_text_lacks((x as i32) as int, 120u8);
    lemma_no_byte(eof, 120u8);
    lemma_has_byte_concat(sx.skip(10), xo, 120u8);
    lemma_has_byte_concat(sx.skip(10) + xo, eof, 120u8);
    assert(t.skip(pos + 6) =~= sx.skip(10) + xo + eof);
    assert(t.skip(pos + 9) =~= seq![10u8] + decimal(x as nat) + eof);
    pos
}

/// A keyword that `t` holds at `pos`, whose byte at `idx` never comes again
/// after it, is the last one in `pre + t`.
proof fn lemma_keyword_in(pre: Seq<u8>, t: Seq<u8>, k: Seq<u8>, pos: int, idx: int)
    requires
        0 <= pos,
        pos + k.len() <= t.len(),
        t.subrange(pos, pos + k.len()) == k,
        0 <= idx < k.len(),
        !has_byte(t.skip(pos + idx + 1), k[idx]),
    ensures
        find_last_spec(pre + t, k) == Some(pre.len() + pos),
        (pre + t).skip(pre.len() + pos) == t.skip(pos),
        (pre + t).skip(pre.len() + pos + k.len()) == t.skip(pos + k.len()),
{
    let f = pre + t;
    let at = pre.len() + pos;
    assert(f.subrange(at, at + k.len()) =~= t.subrange(pos, pos + k.len()));
    assert(f.skip(at + idx + 1) =~= t.skip(pos + idx + 1));
    lemma_last_keyword(f, k, at, idx);
    assert(f.skip(at) =~= t.skip(pos));
    assert(f.skip(at + k.len()) =~= t.skip(pos + k.len()));
}

/// The number after `startxref` reads back.
proof fn lemma_pointer_value(s9: Seq<u8>, x: nat)
    requires
        s9 == seq![10u8] + decimal(x) + lit_eof(),
        x <= i32::MAX,
    ensures
        checked_ascii(take_digits(skip_nondigits(s9))) == Some(x as int),
{
    lemma_decimal_reads_back(x);
    assert(s9.drop_first() =~= decimal(x) + lit_eof());
    assert((decimal(x) + lit_eof())[0] == decimal(x)[0]);
    assert(skip_nondigits(decimal(x) + lit_eof()) == decimal(x) + lit_eof());
    assert(skip_nondigits(s9) == decimal(x) + lit_eof());
    lemma_take_digits_of(decimal(x), lit_eof());
}

/// The bytes at the start of the middle piece of `a + b + c`.
proof fn lemma_prefix_of_middle(a: Seq<u8>, b: Seq<u8>, c: Seq<u8>, n: int)
    requires
        0 <= n <= b.len(),
    ensures
        (a + b + c).subrange(a.len() as int, a.len() + n) == b.take(n),
{
    assert((a + b + c).subrange(a.len() as int, a.len() + n) =~= b.take(n));
}

/// A file `a + xb + t` whose trailer `t` points at `a.len()` and whose `xb`
/// opens with `xref`: the pointer reads back and lands on that keyword.
proof fn lemma_pointer_in(a: Seq<u8>, xb: Seq<u8>, t: Seq<u8>, pos: int)
    requires
        a.len() <= i32::MAX,
        xb.len() >= 5,
        xb.take(5) == seq![120u8, 114, 101, 102, 10],
        0 <= pos,
        pos + 9 <= t.len(),
        t.subrange(pos, pos + 9) == kw_startxref(),
        !has_byte(t.skip(pos + 6), 120u8),
        t.skip(pos + 9) == seq![10u8] + decimal(a.len()) + lit_eof(),
    ensures
        startxref_spec(a + xb + t) == Some(a.len() as int),
        (a + xb + t).subrange(a.len() as int, a.len() + 5int) == seq![120u8, 114, 101, 102, 10],
{
    let pre = a + xb;
    assert(kw_startxref().len() == 9);
    assert(kw_startxref()[5] == 120u8);
    lemma_keyword_in(pre, t, kw_startxref(), pos, 5);
    lemma_pointer_value(t.skip(pos + 9), a.len());
    lemma_prefix_of_middle(a, xb, t, 5);
}

/// The `startxref` pointer of a file this crate wrote is read back as the
/// offset at which its `xref` table starts.
pub proof fn written_xref_pointer_reads_back(
    objs: Seq<ObjectView>,
    size: int,
    root: int,
    info: Option<int>,
    u: Seq<u8>,
    ue: Seq<u8>,
    o: Seq<u8>,
    oe: Seq<u8>,
    perms: Seq<u8>,
    p: int,
    id: Seq<u8>,
)
    requires
        file_bytes(objs, size, root, info, u, ue, o, oe, perms, p, id) is Some,
        file_bytes(objs, size, root, info, u, ue, o, oe, perms, p, id).unwrap().len() <= i32::MAX,
    ensures
        ({
            let f = file_bytes(objs, size, root, info, u, ue, o, oe, perms, p, id).unwrap();
            startxref_spec(f) matches Some(x) && 0 <= x && x + 5 <= f.len() && f.subrange(x, x + 5)
                == seq![120u8, 114, 101, 102, 10]
        }),
{
    let (out, offs) = objects_bytes(objs, 0, lit_header(), Seq::empty()).unwrap();
    let out2 = out + encrypt_object_bytes(size, u, ue, o, oe, perms, p);
    let offs2 = offs.push((size as i32, out.len() as usize));
    let xb = xref_bytes(offs2, size + 1);
    let pre = out2 + xb;
    let x = out2.len() as usize;
    let t = trailer_bytes(root, info, size, id, x, size + 1);
    let f = pre + t;
    assert(file_bytes(objs, size, root, info, u, ue, o, oe, perms, p, id).unwrap() == f);
    assert(x as nat == out2.len());
    assert(xb.take(5) =~= seq![120u8, 114, 101, 102, 10]);
    let pos = lemma_trailer_pointer(root, info, size, id, x, size + 1);
    lemma_pointer_in(out2, xb, t, pos);
}


/// The first occurrence of `n` at or after `from` is `at`, when it occurs
/// there and nowhere between.
proof fn lemma_find_at(hay: Seq<u8>, n: Seq<u8>, from: int, at: int)
    requires
        0 <= from <= at,
        matches_at(hay, n, at),
        forall|j: int| from <= j < at ==> !matches_at(hay, n, j),
    ensures
        find_spec(hay, n, from) == Some(at),
    decreases at - from,
{
    if from < at {
        lemma_find_at(hay, n, from + 1, at);
    }
}

/// A keyword without line breaks that `body` does not hold is not found
/// between two line breaks around `body` either.
proof fn lemma_wrapped_absent(body: Seq<u8>, k: Seq<u8>)
    requires
        k.len() > 0,
        !has_byte(k, 10u8),
        find_spec(body, k, 0) is None,
    ensures
        find_spec(seq![10u8] + body + seq![10u8], k, 0) is None,
{
    let w = seq![10u8] + body + seq![10u8];
    crate::bytes::lemma_find_spec_props(body, k, 0);
    lemma_has_byte_index(k, 10u8);
    assert forall|j: int| 0 <= j implies !matches_at(w, k, j) by {
        if matches_at(w, k, j) {
            if j == 0 {
                assert(w.subrange(0, k.len() as int)[0] == k[0]);
            } else if j + k.len() == w.len() {
                assert(w.subrange(j, j + k.len())[k.len() - 1] == k[k.len() - 1]);
            } else {
                assert(body.subrange(j - 1, j - 1 + k.len()) =~= w.subrange(j, j + k.len()));
                assert(matches_at(body, k, j - 1));
            }
        }
    }
    lemma_no_match_none(w, k, 0);
}

/// `n` is not found from `from` on when it occurs nowhere.
proof fn lemma_no_match_none(hay: Seq<u8>, n: Seq<u8>, from: int)
    requires
        0 <= from,
        forall|j: int| 0 <= j ==> !matches_at(hay, n, j),
    ensures
        find_spec(hay, n, from) is None,
    decreases hay.len() + 1 - from,
{
    if from + n.len() <= hay.len() {
        lemma_no_match_none(hay, n, from + 1);
    }
}

/// Where the reader finds the number, `obj` and the last `endobj` in the
/// bytes `d + " 0 obj\n" + body + "\nendobj\n"` the writer lays out.
proof fn lemma_object_layout(d: Seq<u8>, body: Seq<u8>)
    requires
        d.len() >= 1,
        forall|i: int| 0 <= i < d.len() ==> is_digit(#[trigger] d[i]),
    ensures
        ({
            let b = d + lit_obj_open() + body + lit_obj_close();
            &&& before_space(b) == d
            &&& find_spec(b, kw_obj(), 0) == Some(d.len() + 3int)
            &&& find_last_spec(b, kw_endobj()) == Some(b.len() - 7)
            &&& b.subrange(d.len() + 6int, b.len() - 7) == seq![10u8] + body + seq![10u8]
        }),
{
    let open = lit_obj_open();
    let close = lit_obj_close();
    let b = d + open + body + close;
    // the number
    assert forall|j: int| 0 <= j < d.len() implies !matches_at(b, seq![32u8], j) by {
        assert(b.subrange(j, j + 1)[0] == d[j]);
    }
    assert(b.subrange(d.len() as int, d.len() + 1int) =~= seq![32u8]);
    lemma_find_at(b, seq![32u8], 0, d.len() as int);
    assert(b.take(d.len() as int) =~= d);
    // the `obj` keyword
    let p = d + seq![32u8, 48, 32];
    let r = seq![10u8] + body + close;
    assert(b =~= p + kw_obj() + r);
    lemma_no_byte(d, 111u8);
    lemma_no_byte(seq![32u8, 48, 32], 111u8);
    lemma_has_byte_concat(d, seq![32u8, 48, 32], 111u8);
    lemma_clean_without(p, 111u8, 98u8);
    lemma_find_first(p, kw_obj(), r);
    // the last `endobj`
    let at = b.len() - 7;
    assert(b.subrange(at, at + 6) =~= kw_endobj());
    assert(b.skip(at + 6) =~= seq![10u8]);
    lemma_no_byte(seq![10u8], 106u8);
    assert(kw_endobj()[5] == 106u8);
    lemma_last_keyword(b, kw_endobj(), at, 5);
    assert(b.subrange(d.len() + 6int, b.len() - 7) =~= seq![10u8] + body + seq![10u8]);
}

/// A stream-less body between two line breaks splits as itself.
proof fn lemma_wrapped_split(body: Seq<u8>)
    requires
        find_spec(body, kw_stream(), 0) is None,
        find_spec(body, kw_endobj(), 0) is None,
    ensures
        split_stream_spec(seq![10u8] + body + seq![10u8]) == Some((seq![10u8] + body + seq![10u8], None::<Seq<u8>>)),
        scan_spec(seq![10u8] + body + seq![10u8], 0) is Some,
{
    let w = seq![10u8] + body + seq![10u8];
    lemma_no_byte(kw_stream(), 10u8);
    lemma_no_byte(kw_endobj(), 10u8);
    lemma_wrapped_absent(body, kw_stream());
    lemma_wrapped_absent(body, kw_endobj());
    crate::encrypt::parse::lemma_scan_some(w, 0);
}

/// An object this crate writes without a stream reads back, over its own
/// bytes wherever they stand in a file, as the same number, with its body
/// between the two line breaks the writer puts around it, no stream, and the
/// strings the scanner finds in that body.
pub proof fn written_object_reads_back(pre: Seq<u8>, o: ObjectView, post: Seq<u8>)
    requires
        o.encrypted_stream is None,
        0 <= o.number <= i32::MAX,
        find_spec(o.body, kw_stream(), 0) is None,
        find_spec(o.body, kw_endobj(), 0) is None,
    ensures
        object_bytes(o) is Some,
        ({
            let b = object_bytes(o).unwrap();
            let body = seq![10u8] + o.body + seq![10u8];
            object_spec(pre + b + post, pre.len() as int, (pre.len() + b.len()) as int) == Some(
                ObjectView {
                    number: o.number,
                    body,
                    stream: None,
                    encrypted_stream: None,
                    strings: scan_spec(body, 0).unwrap(),
                },
            )
        }),
{
    let d = decimal(o.number as nat);
    lemma_decimal_reads_back(o.number as nat);
    assert(int_text(o.number) == d);
    let b = d + lit_obj_open() + o.body + lit_obj_close();
    assert(object_bytes(o) == Some(b));
    let input = pre + b + post;
    assert(input.subrange(pre.len() as int, (pre.len() + b.len()) as int) =~= b);
    lemma_object_layout(d, o.body);
    lemma_wrapped_split(o.body);
}


// ---------------------------------------------------------------------------
// the xref table
// ---------------------------------------------------------------------------

/// A run of bytes that holds no row separator.
pub open spec fn no_sep(s: Seq<u8>) -> bool {
    forall|i: int| 0 <= i < s.len() ==> !is_row_sep(#[trigger] s[i])
}

/// The in-use offset one xref line contributes, if any.
pub open spec fn line_offsets(line: Seq<u8>) -> Seq<int> {
    match xref_entry_spec(line) {
        Some(Some(v)) => seq![v],
        _ => Seq::empty(),
    }
}

/// The offsets an ordered list of `(number, offset)` pairs records.
pub open spec fn pair_offsets(s: Seq<(i32, usize)>) -> Seq<int> {
    s.map_values(|e: (i32, usize)| e.1 as int)
}

proof fn lemma_run_len_token(tok: Seq<u8>, rest: Seq<u8>)
    requires
        no_sep(tok),
        rest.len() == 0 || is_row_sep(rest[0]),
    ensures
        run_len(tok + rest) == tok.len(),
    decreases tok.len(),
{
    if tok.len() == 0 {
        assert(tok + rest =~= rest);
    } else {
        lemma_run_len_token(tok.drop_first(), rest);
        assert((tok + rest).drop_first() =~= tok.drop_first() + rest);
    }
}

/// A row that opens with a separator-free token.
proof fn lemma_fields_token(tok: Seq<u8>, rest: Seq<u8>)
    requires
        tok.len() > 0,
        no_sep(tok),
        rest.len() == 0 || is_row_sep(rest[0]),
    ensures
        row_fields(tok + rest) == seq![tok] + row_fields(rest),
{
    lemma_run_len_token(tok, rest);
    let s = tok + rest;
    assert(s[0] == tok[0]);
    assert(s.take(tok.len() as int) =~= tok);
    assert(s.skip(tok.len() as int) =~= rest);
}

/// A row that opens with a separator.
proof fn lemma_fields_sep(rest: Seq<u8>)
    ensures
        row_fields(seq![32u8] + rest) == row_fields(rest),
{
    assert((seq![32u8] + rest).drop_first() =~= rest);
}

/// Reading a line and the lines after it.
proof fn lemma_rows_cons(line: Seq<u8>, rest: Seq<u8>)
    requires
        !has_byte(line, 10u8),
        xref_entry_spec(line) is Some,
    ensures
        xref_rows(line + seq![10u8] + rest) == (match xref_rows(rest) {
            Some(t) => Some(line_offsets(line) + t),
            None => None,
        }),
{
    let s = line + seq![10u8] + rest;
    lemma_has_byte_index(line, 10u8);
    assert forall|j: int| 0 <= j < line.len() implies !matches_at(s, seq![10u8], j) by {
        assert(s.subrange(j, j + 1)[0] == line[j]);
    }
    assert(s.subrange(line.len() as int, line.len() + 1int) =~= seq![10u8]);
    lemma_find_at(s, seq![10u8], 0, line.len() as int);
    assert(s.take(line.len() as int) =~= line);
    assert(s.skip(line.len() + 1int) =~= rest);
}

/// Reading the last line.
proof fn lemma_rows_end(line: Seq<u8>)
    requires
        !has_byte(line, 10u8),
        xref_entry_spec(line) is Some,
    ensures
        xref_rows(line) == Some(line_offsets(line)),
{
    lemma_has_byte_index(line, 10u8);
    assert forall|j: int| 0 <= j implies !matches_at(line, seq![10u8], j) by {
        if matches_at(line, seq![10u8], j) {
            assert(line.subrange(j, j + 1)[0] == line[j]);
        }
    }
    lemma_no_match_none(line, seq![10u8], 0);
}

/// Leading ASCII zeros do not change a decimal's value.
proof fn lemma_ascii_leading_zeros(z: Seq<u8>, s: Seq<u8>)
    requires
        forall|i: int| 0 <= i < z.len() ==> #[trigger] z[i] == 48u8,
    ensures
        ascii_value(z + s) == ascii_value(s),
    decreases s.len(), z.len(),
{
    if s.len() == 0 {
        assert(z + s =~= z);
        if z.len() > 0 {
            lemma_ascii_leading_zeros(z.drop_last(), s);
            assert(z.drop_last() + s =~= z.drop_last());
            assert(z.last() == 48u8);
        }
    } else {
        lemma_ascii_leading_zeros(z, s.drop_last());
        assert((z + s).drop_last() =~= z + s.drop_last());
        assert((z + s).last() == s.last());
    }
}

/// One written xref row reads back as its offset.
proof fn lemma_row_reads_back(o: usize)
    requires
        o <= i32::MAX,
    ensures
        !has_byte(zero_pad(decimal(o as nat), 10) + seq![32u8, 48, 48, 48, 48, 48, 32, 110, 32], 10u8),
        xref_entry_spec(zero_pad(decimal(o as nat), 10) + seq![32u8, 48, 48, 48, 48, 48, 32, 110, 32])
            == Some(Some(o as int)),
        xref_row(o) == zero_pad(decimal(o as nat), 10) + seq![32u8, 48, 48, 48, 48, 48, 32, 110, 32]
            + seq![10u8],
{
    let d = decimal(o as nat);
    lemma_decimal_reads_back(o as nat);
    let zp = zero_pad(d, 10);
    let z: Seq<u8> = if d.len() >= 10 {
        Seq::empty()
    } else {
        Seq::new((10 - d.len()) as nat, |i: int| 48u8)
    };
    assert(zp =~= z + d);
    lemma_ascii_leading_zeros(z, d);
    assert forall|i: int| 0 <= i < zp.len() implies is_digit(#[trigger] zp[i]) by {
        if i < z.len() {
            assert(zp[i] == z[i]);
        } else {
            assert(zp[i] == d[i - z.len()]);
        }
    }
    let tail = seq![32u8, 48, 48, 48, 48, 48, 32, 110, 32];
    let line = zp + tail;
    assert forall|i: int| 0 <= i < zp.len() implies zp[i] != 10u8 by {
        assert(is_digit(zp[i]));
    }
    lemma_no_byte(zp, 10u8);
    lemma_no_byte(tail, 10u8);
    lemma_has_byte_concat(zp, tail, 10u8);
    // the fields
    assert forall|i: int| 0 <= i < zp.len() implies !is_row_sep(#[trigger] zp[i]) by {
        assert(is_digit(zp[i]));
    }
    lemma_fields_token(zp, tail);
    let t1 = seq![48u8, 48, 48, 48, 48];
    let r1 = seq![32u8, 110, 32];
    assert(tail =~= seq![32u8] + (t1 + r1));
    lemma_fields_sep(t1 + r1);
    lemma_fields_token(t1, r1);
    let r2 = seq![32u8];
    assert(r1 =~= seq![32u8] + (seq![110u8] + r2));
    lemma_fields_sep(seq![110u8] + r2);
    lemma_fields_token(seq![110u8], r2);
    assert(r2 =~= seq![32u8] + Seq::<u8>::empty());
    lemma_fields_sep(Seq::<u8>::empty());
    assert(row_fields(line) =~= seq![zp, t1, seq![110u8]]);
    assert(lit_xref_tail() =~= tail + seq![10u8]);
}


/// The written rows for `s`, followed by any lines, read back as the offsets
/// of `s`, then what those lines give.
proof fn lemma_rows_table(s: Seq<(i32, usize)>, rest: Seq<u8>)
    requires
        forall|i: int| 0 <= i < s.len() ==> (#[trigger] s[i]).1 <= i32::MAX,
    ensures
        xref_rows(xref_rows_bytes(s) + rest) == (match xref_rows(rest) {
            Some(t) => Some(pair_offsets(s) + t),
            None => None,
        }),
    decreases s.len(),
{
    if s.len() == 0 {
        assert(xref_rows_bytes(s) + rest =~= rest);
        match xref_rows(rest) {
            Some(t) => {
                assert(pair_offsets(s) + t =~= t);
            },
            None => {},
        }
    } else {
        let o = s.last().1;
        let line = zero_pad(decimal(o as nat), 10) + seq![32u8, 48, 48, 48, 48, 48, 32, 110, 32];
        lemma_row_reads_back(o);
        let rest2 = xref_row(o) + rest;
        assert(xref_rows_bytes(s) + rest =~= xref_rows_bytes(s.drop_last()) + rest2);
        assert(rest2 =~= line + seq![10u8] + rest);
        lemma_rows_cons(line, rest);
        lemma_rows_table(s.drop_last(), rest2);
        match xref_rows(rest) {
            Some(t) => {
                assert(pair_offsets(s) =~= pair_offsets(s.drop_last()).push(o as int));
                assert(pair_offsets(s.drop_last()) + (seq![o as int] + t) =~= pair_offsets(s) + t);
            },
            None => {},
        }
    }
}

/// A line holding a single separator-free token reads as no offset.
proof fn lemma_token_line(tok: Seq<u8>)
    requires
        tok.len() > 0,
        no_sep(tok),
    ensures
        xref_entry_spec(tok) == Some(None::<int>),
{
    lemma_fields_token(tok, Seq::<u8>::empty());
    assert(tok + Seq::<u8>::empty() =~= tok);
}


/// The trailer dictionary's line: its third field is the `/Size` digits, so
/// it is no in-use row.
proof fn lemma_dict_line(ds: Seq<u8>, mid: Seq<u8>)
    requires
        ds.len() > 0,
        forall|i: int| 0 <= i < ds.len() ==> is_digit(#[trigger] ds[i]),
        mid.len() > 0,
        mid[0] == 32u8,
    ensures
        xref_entry_spec(seq![60u8, 60, 32, 47, 83, 105, 122, 101, 32] + ds + mid) == Some(None::<int>),
{
    let size_key = seq![47u8, 83, 105, 122, 101];
    assert forall|i: int| 0 <= i < ds.len() implies !is_row_sep(#[trigger] ds[i]) by {
        assert(is_digit(ds[i]));
    }
    lemma_fields_token(ds, mid);
    lemma_fields_sep(ds + mid);
    lemma_fields_token(size_key, seq![32u8] + (ds + mid));
    lemma_fields_sep(size_key + (seq![32u8] + (ds + mid)));
    lemma_fields_token(seq![60u8, 60], seq![32u8] + (size_key + (seq![32u8] + (ds + mid))));
    let l2 = seq![60u8, 60, 32, 47, 83, 105, 122, 101, 32] + ds + mid;
    assert(l2 =~= seq![60u8, 60] + (seq![32u8] + (size_key + (seq![32u8] + (ds + mid)))));
    let f2 = row_fields(l2);
    assert(f2 =~= seq![seq![60u8, 60], size_key, ds] + row_fields(mid));
    assert(f2[2] == ds);
    assert(is_digit(ds[0]));
    assert(f2[2] != seq![110u8]);
}

/// Six lines of which none is an in-use row read as no offsets.
proof fn lemma_six_lines(l1: Seq<u8>, l2: Seq<u8>, l3: Seq<u8>, l4: Seq<u8>, l5: Seq<u8>)
    requires
        !has_byte(l1, 10u8) && xref_entry_spec(l1) == Some(None::<int>),
        !has_byte(l2, 10u8) && xref_entry_spec(l2) == Some(None::<int>),
        !has_byte(l3, 10u8) && xref_entry_spec(l3) == Some(None::<int>),
        !has_byte(l4, 10u8) && xref_entry_spec(l4) == Some(None::<int>),
        !has_byte(l5, 10u8) && xref_entry_spec(l5) == Some(None::<int>),
    ensures
        xref_rows(l1 + seq![10u8] + (l2 + seq![10u8] + (l3 + seq![10u8] + (l4 + seq![10u8] + (l5 + seq![10u8]
            + Seq::<u8>::empty()))))) == Some(Seq::<int>::empty()),
{
    let nl = seq![10u8];
    let e = Seq::<u8>::empty();
    lemma_fields_sep(e);
    assert(row_fields(e) =~= Seq::<Seq<u8>>::empty());
    lemma_no_byte(e, 10u8);
    lemma_rows_end(e);
    lemma_rows_cons(l5, e);
    lemma_rows_cons(l4, l5 + nl + e);
    lemma_rows_cons(l3, l4 + nl + (l5 + nl + e));
    lemma_rows_cons(l2, l3 + nl + (l4 + nl + (l5 + nl + e)));
    lemma_rows_cons(l1, l2 + nl + (l3 + nl + (l4 + nl + (l5 + nl + e))));
    assert(line_offsets(l1) =~= Seq::<int>::empty());
    assert(line_offsets(e) =~= Seq::<int>::empty());
}

/// The dictionary line of a written trailer holds no line break.
proof fn lemma_dict_no_nl(root: int, info: Option<int>, enc: int, id: Seq<u8>, size: int)
    ensures
        !has_byte(
            ref_bytes(lit_ref_root(), root) + (match info {
                Some(i) => ref_bytes(lit_ref_info(), i),
                None => Seq::<u8>::empty(),
            }) + ref_bytes(lit_ref_encrypt(), enc) + id_bytes(id) + lit_startxref().take(3),
            10u8,
        ),
{
    let rr = ref_bytes(lit_ref_root(), root);
    let ri: Seq<u8> = match info {
        Some(i) => ref_bytes(lit_ref_info(), i),
        None => Seq::empty(),
    };
    let re = ref_bytes(lit_ref_encrypt(), enc);
    let idb = id_bytes(id);
    lemma_no_byte(lit_ref_root(), 10u8);
    lemma_no_byte(lit_ref_info(), 10u8);
    lemma_no_byte(lit_ref_encrypt(), 10u8);
    lemma_ref_lacks(lit_ref_root(), root, 10u8);
    match info {
        Some(i) => lemma_ref_lacks(lit_ref_info(), i, 10u8),
        None => {},
    }
    lemma_no_byte(Seq::<u8>::empty(), 10u8);
    lemma_ref_lacks(lit_ref_encrypt(), enc, 10u8);
    lemma_id_lacks(id, 10u8);
    lemma_no_byte(lit_startxref().take(3), 10u8);
    lemma_has_byte_concat(rr, ri, 10u8);
    lemma_has_byte_concat(rr + ri, re, 10u8);
    lemma_has_byte_concat(rr + ri + re, idb, 10u8);
    lemma_has_byte_concat(rr + ri + re + idb, lit_startxref().take(3), 10u8);
}

/// The lines of a written trailer read as no offsets.
#[verifier::rlimit(50)]
proof fn lemma_trailer_rows(root: int, info: Option<int>, enc: int, id: Seq<u8>, x: usize, size: int)
    requires
        0 <= size,
    ensures
        xref_rows(trailer_bytes(root, info, enc, id, x, size)) == Some(Seq::<int>::empty()),
{
    let t = trailer_bytes(root, info, enc, id, x, size);
    lemma_trailer_layout(root, info, enc, id, x, size);
    let h = lit_trailer_head();
    let ds = int_text(size);
    let rr = ref_bytes(lit_ref_root(), root);
    let ri: Seq<u8> = match info {
        Some(i) => ref_bytes(lit_ref_info(), i),
        None => Seq::empty(),
    };
    let re = ref_bytes(lit_ref_encrypt(), enc);
    let idb = id_bytes(id);
    let sx = lit_startxref();
    let xo = int_text((x as i32) as int);
    let eof = lit_eof();
    let nl = seq![10u8];
    let l1 = h.take(7);
    let mid = rr + ri + re + idb + sx.take(3);
    let head8 = seq![60u8, 60, 32, 47, 83, 105, 122, 101, 32];
    let l2 = head8 + ds + mid;
    let l3 = sx.subrange(4, 13);
    let l5 = eof.subrange(1, 6);
    let e = Seq::<u8>::empty();
    assert(h.skip(8) =~= head8);
    assert(t =~= l1 + nl + (l2 + nl + (l3 + nl + (xo + nl + (l5 + nl + e)))));
    lemma_token_line(l1);
    lemma_token_line(l3);
    lemma_token_line(l5);
    lemma_no_byte(l1, 10u8);
    lemma_no_byte(l3, 10u8);
    lemma_no_byte(l5, 10u8);
    // the pointer line
    let m: nat = if (x as i32) < 0 {
        (-((x as i32) as int)) as nat
    } else {
        (x as i32) as nat
    };
    lemma_decimal_reads_back(m);
    assert forall|i: int| 0 <= i < xo.len() implies !is_row_sep(#[trigger] xo[i]) by {
        if (x as i32) < 0 {
            if i > 0 {
                assert(xo[i] == decimal(m)[i - 1]);
            }
        } else {
            assert(is_digit(decimal(m)[i]));
        }
    }
    lemma_token_line(xo);
    lemma_int_text_lacks((x as i32) as int, 10u8);
    // the dictionary line
    lemma_decimal_reads_back(size as nat);
    assert(ds == decimal(size as nat));
    assert(rr[0] == 32u8);
    assert(mid[0] == rr[0]);
    lemma_dict_line(ds, mid);
    lemma_dict_no_nl(root, info, enc, id, size);
    lemma_no_byte(head8, 10u8);
    lemma_int_text_lacks(size, 10u8);
    lemma_has_byte_concat(head8, ds, 10u8);
    lemma_has_byte_concat(head8 + ds, mid, 10u8);
    lemma_six_lines(l1, l2, l3, xo, l5);
}


/// The three lines at the head of a written xref table (the empty rest of
/// the `xref` line, the subsection line, the free entry) read as no offsets.
proof fn lemma_head_lines(ds: Seq<u8>, rest: Seq<u8>)
    requires
        ds.len() > 0,
        forall|i: int| 0 <= i < ds.len() ==> is_digit(#[trigger] ds[i]),
    ensures
        xref_rows(seq![10u8] + (seq![48u8, 32] + ds) + seq![10u8] + lit_xref_free() + rest) == xref_rows(rest),
{
    let nl = seq![10u8];
    let e = Seq::<u8>::empty();
    let m2 = seq![48u8, 32] + ds;
    let m3 = lit_xref_free().take(19);
    assert(seq![10u8] + (seq![48u8, 32] + ds) + seq![10u8] + lit_xref_free() + rest =~= e + nl + (m2 + nl + (m3
        + nl + rest)));
    // the empty line
    lemma_fields_sep(e);
    assert(row_fields(e) =~= Seq::<Seq<u8>>::empty());
    lemma_no_byte(e, 10u8);
    // the subsection line
    assert forall|i: int| 0 <= i < ds.len() implies !is_row_sep(#[trigger] ds[i]) by {
        assert(is_digit(ds[i]));
    }
    lemma_fields_token(ds, e);
    assert(ds + e =~= ds);
    lemma_fields_sep(ds);
    lemma_fields_token(seq![48u8], seq![32u8] + ds);
    assert(m2 =~= seq![48u8] + (seq![32u8] + ds));
    assert(row_fields(m2) =~= seq![seq![48u8], ds]);
    assert forall|i: int| 0 <= i < ds.len() implies ds[i] != 10u8 by {
        assert(is_digit(ds[i]));
    }
    lemma_no_byte(ds, 10u8);
    lemma_no_byte(seq![48u8, 32], 10u8);
    lemma_has_byte_concat(seq![48u8, 32], ds, 10u8);
    // the free entry
    let z = seq![48u8, 48, 48, 48, 48, 48, 48, 48, 48, 48];
    let g = seq![54u8, 53, 53, 51, 53];
    let fch = seq![102u8];
    assert(m3 =~= z + (seq![32u8] + (g + (seq![32u8] + (fch + (seq![32u8] + e))))));
    lemma_fields_sep(e);
    lemma_fields_token(fch, seq![32u8] + e);
    lemma_fields_sep(fch + (seq![32u8] + e));
    lemma_fields_token(g, seq![32u8] + (fch + (seq![32u8] + e)));
    lemma_fields_sep(g + (seq![32u8] + (fch + (seq![32u8] + e))));
    lemma_fields_token(z, seq![32u8] + (g + (seq![32u8] + (fch + (seq![32u8] + e)))));
    assert(row_fields(m3) =~= seq![z, g, fch]);
    assert(row_fields(m3)[2] != seq![110u8]);
    lemma_no_byte(m3, 10u8);
    lemma_rows_cons(m3, rest);
    lemma_rows_cons(m2, m3 + nl + rest);
    lemma_rows_cons(e, m2 + nl + (m3 + nl + rest));
    assert(line_offsets(e) =~= Seq::<int>::empty());
    assert(line_offsets(m2) =~= Seq::<int>::empty());
    assert(line_offsets(m3) =~= Seq::<int>::empty());
    match xref_rows(rest) {
        Some(t) => {
            assert(line_offsets(e) + (line_offsets(m2) + (line_offsets(m3) + t)) =~= t);
        },
        None => {},
    }
}

/// Writing objects only appends.
proof fn lemma_written_grows(objs: Seq<ObjectView>, k: int, out: Seq<u8>, offs: Seq<(i32, usize)>)
    requires
        objects_bytes(objs, k, out, offs) is Some,
    ensures
        out.len() <= objects_bytes(objs, k, out, offs).unwrap().0.len(),
    decreases objs.len() - k,
{
    if 0 <= k < objs.len() {
        let b = object_bytes(objs[k]).unwrap();
        lemma_written_grows(objs, k + 1, out + b, offs.push((objs[k].number as i32, out.len() as usize)));
    }
}

/// Every offset the writer records lies within what it wrote.
proof fn lemma_written_offsets(objs: Seq<ObjectView>, k: int, out: Seq<u8>, offs: Seq<(i32, usize)>)
    requires
        objects_bytes(objs, k, out, offs) is Some,
        objects_bytes(objs, k, out, offs).unwrap().0.len() <= i32::MAX,
        forall|i: int| 0 <= i < offs.len() ==> (#[trigger] offs[i]).1 <= out.len(),
    ensures
        forall|i: int| 0 <= i < objects_bytes(objs, k, out, offs).unwrap().1.len() ==> (
        #[trigger] objects_bytes(objs, k, out, offs).unwrap().1[i]).1 <= objects_bytes(objs, k, out, offs).unwrap().0.len(),
    decreases objs.len() - k,
{
    if 0 <= k < objs.len() {
        let b = object_bytes(objs[k]).unwrap();
        let offs2 = offs.push((objs[k].number as i32, out.len() as usize));
        lemma_written_grows(objs, k + 1, out + b, offs2);
        assert((out.len() as usize) as int == out.len());
        lemma_written_offsets(objs, k + 1, out + b, offs2);
    }
}

/// Ordering by number keeps every entry, so a bound on the offsets holds
/// after it too.
proof fn lemma_sorted_bound(s: Seq<(i32, usize)>, bound: int)
    requires
        forall|i: int| 0 <= i < s.len() ==> (#[trigger] s[i]).1 <= bound,
    ensures
        forall|i: int| 0 <= i < sorted_by_number(s).len() ==> (#[trigger] sorted_by_number(s)[i]).1 <= bound,
    decreases s.len(),
{
    if s.len() > 0 {
        let t = sorted_by_number(s.drop_last());
        lemma_sorted_bound(s.drop_last(), bound);
        crate::encrypt::serialize::lemma_first_greater_bounds(t, s.last().0);
        let pos = crate::encrypt::serialize::first_greater(t, s.last().0);
        let r = t.insert(pos, s.last());
        assert forall|i: int| 0 <= i < r.len() implies (#[trigger] r[i]).1 <= bound by {
            if i < pos {
                assert(r[i] == t[i]);
            } else if i > pos {
                assert(r[i] == t[i - 1]);
            }
        }
    }
}


/// A written table `xb` followed by its trailer `t`: the rows read back as
/// the recorded offsets in number order.
proof fn lemma_table_then_trailer(offs2: Seq<(i32, usize)>, n: int, t: Seq<u8>)
    requires
        0 <= n,
        xref_rows(t) == Some(Seq::<int>::empty()),
        forall|i: int| 0 <= i < offs2.len() ==> (#[trigger] offs2[i]).1 <= i32::MAX,
    ensures
        xref_rows(xref_bytes(offs2, n).skip(4) + t) == Some(pair_offsets(sorted_by_number(offs2))),
{
    let xb = xref_bytes(offs2, n);
    let ds = int_text(n);
    lemma_decimal_reads_back(n as nat);
    assert(ds == decimal(n as nat));
    let sorted = sorted_by_number(offs2);
    lemma_sorted_bound(offs2, i32::MAX as int);
    let rows = xref_rows_bytes(sorted);
    assert(xb.skip(4) + t =~= seq![10u8] + (seq![48u8, 32] + ds) + seq![10u8] + lit_xref_free() + (rows + t));
    lemma_head_lines(ds, rows + t);
    lemma_rows_table(sorted, t);
    assert(pair_offsets(sorted) + Seq::<int>::empty() =~= pair_offsets(sorted));
}

/// The xref table of a file this crate wrote sits where its `startxref`
/// points and reads back as the offsets the writer recorded: each object's
/// then the `/Encrypt` dictionary's, in object-number order.
#[verifier::rlimit(50)]
pub proof fn written_xref_reads_back(
    objs: Seq<ObjectView>,
    size: int,
    root: int,
    info: Option<int>,
    u: Seq<u8>,
    ue: Seq<u8>,
    o: Seq<u8>,
    oe: Seq<u8>,
    perms: Seq<u8>,
    p: int,
    id: Seq<u8>,
)
    requires
        file_bytes(objs, size, root, info, u, ue, o, oe, perms, p, id) is Some,
        file_bytes(objs, size, root, info, u, ue, o, oe, perms, p, id).unwrap().len() <= i32::MAX,
        0 <= size < i32::MAX,
    ensures
        ({
            let f = file_bytes(objs, size, root, info, u, ue, o, oe, perms, p, id).unwrap();
            let (out, offs) = objects_bytes(objs, 0, lit_header(), Seq::empty()).unwrap();
            let offs2 = offs.push((size as i32, out.len() as usize));
            let x = out.len() + encrypt_object_bytes(size, u, ue, o, oe, perms, p).len();
            xref_spec(f) == Some((x as int, pair_offsets(sorted_by_number(offs2))))
        }),
{
    let (out, offs) = objects_bytes(objs, 0, lit_header(), Seq::empty()).unwrap();
    let out2 = out + encrypt_object_bytes(size, u, ue, o, oe, perms, p);
    let offs2 = offs.push((size as i32, out.len() as usize));
    let xb = xref_bytes(offs2, size + 1);
    let pre = out2 + xb;
    let x = out2.len() as usize;
    let t = trailer_bytes(root, info, size, id, x, size + 1);
    let f = pre + t;
    assert(file_bytes(objs, size, root, info, u, ue, o, oe, perms, p, id).unwrap() == f);
    // where the table sits
    assert(x as nat == out2.len());
    assert(xb.take(5) =~= seq![120u8, 114, 101, 102, 10]);
    let pos = lemma_trailer_pointer(root, info, size, id, x, size + 1);
    lemma_pointer_in(out2, xb, t, pos);
    // the offsets are within the file
    lemma_written_offsets(objs, 0, lit_header(), Seq::empty());
    assert((out.len() as usize) as int == out.len());
    assert forall|i: int| 0 <= i < offs2.len() implies (#[trigger] offs2[i]).1 <= i32::MAX by {
        if i < offs.len() {
            assert(offs2[i] == offs[i]);
        }
    }
    // the rows
    lemma_trailer_rows(root, info, size, id, x, size + 1);
    lemma_table_then_trailer(offs2, size + 1, t);
    assert(f.skip(x + 4) =~= xb.skip(4) + t);
}


// ---------------------------------------------------------------------------
// the objects
// ---------------------------------------------------------------------------

/// The dictionary of the `/Encrypt` object, between `obj` and `endobj`.
pub open spec fn encrypt_dict(u: Seq<u8>, ue: Seq<u8>, o: Seq<u8>, oe: Seq<u8>, perms: Seq<u8>, p: int) -> Seq<u8> {
    lit_enc_head() + lit_enc_cf() + lit_enc_filters() + lit_key_u() + hex_string_spec(u) + lit_key_ue()
        + hex_string_spec(ue) + lit_key_o() + hex_string_spec(o) + lit_key_oe() + hex_string_spec(oe)
        + lit_key_perms() + hex_string_spec(perms) + lit_key_p() + int_text(p) + seq![32u8, 62, 62]
}

/// The `/Encrypt` object as the object it is written as.
pub open spec fn encrypt_object_view(num: int, u: Seq<u8>, ue: Seq<u8>, o: Seq<u8>, oe: Seq<u8>, perms: Seq<u8>, p: int) -> ObjectView {
    ObjectView {
        number: num,
        body: encrypt_dict(u, ue, o, oe, perms, p),
        stream: None,
        encrypted_stream: None,
        strings: Seq::empty(),
    }
}

/// The `/Encrypt` dictionary holds neither `st` nor `bj` anywhere (so no
/// `stream` and no `endobj`).
proof fn lemma_encrypt_dict_clean(u: Seq<u8>, ue: Seq<u8>, o: Seq<u8>, oe: Seq<u8>, perms: Seq<u8>, p: int, x: u8, y: u8)
    requires
        (x == 115u8 && y == 116u8) || (x == 98u8 && y == 106u8),
    ensures
        clean(encrypt_dict(u, ue, o, oe, perms, p), x, y),
{
    lemma_lit_clean(lit_enc_head(), x, y);
    lemma_lit_clean(lit_enc_cf(), x, y);
    lemma_lit_clean(lit_enc_filters(), x, y);
    lemma_lit_clean(lit_key_u(), x, y);
    lemma_lit_clean(lit_key_ue(), x, y);
    lemma_lit_clean(lit_key_o(), x, y);
    lemma_lit_clean(lit_key_oe(), x, y);
    lemma_lit_clean(lit_key_perms(), x, y);
    lemma_lit_clean(lit_key_p(), x, y);
    lemma_lit_clean(seq![32u8, 62, 62], x, y);
    lemma_hex_lacks(u, x);
    lemma_hex_lacks(ue, x);
    lemma_hex_lacks(o, x);
    lemma_hex_lacks(oe, x);
    lemma_hex_lacks(perms, x);
    lemma_clean_without(hex_string_spec(u), x, y);
    lemma_clean_without(hex_string_spec(ue), x, y);
    lemma_clean_without(hex_string_spec(o), x, y);
    lemma_clean_without(hex_string_spec(oe), x, y);
    lemma_clean_without(hex_string_spec(perms), x, y);
    lemma_int_text_lacks(p, x);
    lemma_clean_without(int_text(p), x, y);
    let a1 = lit_enc_head() + lit_enc_cf();
    lemma_clean_concat(lit_enc_head(), lit_enc_cf(), x, y);
    let a2 = a1 + lit_enc_filters();
    lemma_clean_concat(a1, lit_enc_filters(), x, y);
    let a3 = a2 + lit_key_u();
    lemma_clean_concat(a2, lit_key_u(), x, y);
    let a4 = a3 + hex_string_spec(u);
    lemma_clean_concat(a3, hex_string_spec(u), x, y);
    let a5 = a4 + lit_key_ue();
    lemma_clean_concat(a4, lit_key_ue(), x, y);
    let a6 = a5 + hex_string_spec(ue);
    lemma_clean_concat(a5, hex_string_spec(ue), x, y);
    let a7 = a6 + lit_key_o();
    lemma_clean_concat(a6, lit_key_o(), x, y);
    let a8 = a7 + hex_string_spec(o);
    lemma_clean_concat(a7, hex_string_spec(o), x, y);
    let a9 = a8 + lit_key_oe();
    lemma_clean_concat(a8, lit_key_oe(), x, y);
    let a10 = a9 + hex_string_spec(oe);
    lemma_clean_concat(a9, hex_string_spec(oe), x, y);
    let a11 = a10 + lit_key_perms();
    lemma_clean_concat(a10, lit_key_perms(), x, y);
    let a12 = a11 + hex_string_spec(perms);
    lemma_clean_concat(a11, hex_string_spec(perms), x, y);
    let a13 = a12 + lit_key_p();
    lemma_clean_concat(a12, lit_key_p(), x, y);
    let a14 = a13 + int_text(p);
    lemma_clean_concat(a13, int_text(p), x, y);
    lemma_clean_concat(a14, seq![32u8, 62, 62], x, y);
}

/// The `/Encrypt` object is written as an ordinary stream-less object whose
/// body holds no `stream` or `endobj`.
proof fn lemma_encrypt_object_shape(num: int, u: Seq<u8>, ue: Seq<u8>, o: Seq<u8>, oe: Seq<u8>, perms: Seq<u8>, p: int)
    ensures
        object_bytes(encrypt_object_view(num, u, ue, o, oe, perms, p)) == Some(encrypt_object_bytes(num, u, ue, o, oe, perms, p)),
        find_spec(encrypt_dict(u, ue, o, oe, perms, p), kw_stream(), 0) is None,
        find_spec(encrypt_dict(u, ue, o, oe, perms, p), kw_endobj(), 0) is None,
{
    assert(lit_enc_close() =~= seq![32u8, 62, 62] + lit_obj_close());
    assert(encrypt_object_bytes(num, u, ue, o, oe, perms, p) =~= int_text(num) + lit_obj_open() + encrypt_dict(
        u, ue, o, oe, perms, p) + lit_obj_close());
    lemma_encrypt_dict_clean(u, ue, o, oe, perms, p, 115u8, 116u8);
    lemma_encrypt_dict_clean(u, ue, o, oe, perms, p, 98u8, 106u8);
    assert(kw_stream()[0] == 115u8 && kw_stream()[1] == 116u8);
    assert(kw_endobj()[4] == 98u8 && kw_endobj()[5] == 106u8);
    lemma_find_none(encrypt_dict(u, ue, o, oe, perms, p), kw_stream(), 0, 0);
    lemma_find_none(encrypt_dict(u, ue, o, oe, perms, p), kw_endobj(), 4, 0);
}

proof fn lemma_first_greater_all(s: Seq<(i32, usize)>, key: i32)
    requires
        forall|i: int| 0 <= i < s.len() ==> (#[trigger] s[i]).0 <= key,
    ensures
        first_greater(s, key) == s.len(),
    decreases s.len(),
{
    if s.len() > 0 {
        assert(s[0].0 <= key);
        lemma_first_greater_all(s.drop_first(), key);
    }
}

/// Ordering by number leaves pairs already in number order as they are.
proof fn lemma_sorted_identity(s: Seq<(i32, usize)>)
    requires
        forall|i: int, j: int| 0 <= i < j < s.len() ==> (#[trigger] s[i]).0 <= (#[trigger] s[j]).0,
    ensures
        sorted_by_number(s) == s,
    decreases s.len(),
{
    if s.len() > 0 {
        let t = s.drop_last();
        lemma_sorted_identity(t);
        assert forall|i: int| 0 <= i < t.len() implies (#[trigger] t[i]).0 <= s.last().0 by {
            assert(s[i].0 <= s[s.len() - 1].0);
        }
        lemma_first_greater_all(t, s.last().0);
        assert(t.insert(t.len() as int, s.last()) =~= s);
    }
}

/// Writing one more object after a list is writing the longer list.
proof fn lemma_bytes_push(objs: Seq<ObjectView>, e: ObjectView, k: int, out: Seq<u8>, offs: Seq<(i32, usize)>)
    requires
        0 <= k <= objs.len(),
        objects_bytes(objs, k, out, offs) is Some,
        object_bytes(e) is Some,
    ensures
        ({
            let (o1, f1) = objects_bytes(objs, k, out, offs).unwrap();
            objects_bytes(objs.push(e), k, out, offs) == Some((o1 + object_bytes(e).unwrap(), f1.push((e.number as i32, o1.len() as usize))))
        }),
    decreases objs.len() - k,
{
    if k < objs.len() {
        assert(objs.push(e)[k] == objs[k]);
        let b = object_bytes(objs[k]).unwrap();
        lemma_bytes_push(objs, e, k + 1, out + b, offs.push((objs[k].number as i32, out.len() as usize)));
    } else {
        let b = object_bytes(e).unwrap();
        assert(objs.push(e)[k] == e);
        let out2 = out + b;
        let offs2 = offs.push((e.number as i32, out.len() as usize));
        assert(objects_bytes(objs.push(e), k + 1, out2, offs2) == Some((out2, offs2)));
    }
}


/// Where the `j`-th written object ends: where the next one starts, or the
/// end of what was written.
pub open spec fn layout_end(f2: Seq<(i32, usize)>, j: int, total: int) -> int {
    if j + 1 < f2.len() {
        f2[j + 1].1 as int
    } else {
        total
    }
}

/// Where each written object's bytes lie, and that they follow one another.
proof fn lemma_written_layout(objs: Seq<ObjectView>, k: int, out: Seq<u8>, offs: Seq<(i32, usize)>)
    requires
        0 <= k <= objs.len(),
        offs.len() == k,
        objects_bytes(objs, k, out, offs) is Some,
        objects_bytes(objs, k, out, offs).unwrap().0.len() <= i32::MAX,
        forall|i: int| 0 <= i < objs.len() ==> 0 <= (#[trigger] objs[i]).number <= i32::MAX,
    ensures
        ({
            let (o2, f2) = objects_bytes(objs, k, out, offs).unwrap();
            &&& f2.len() == objs.len()
            &&& f2.take(k) == offs
            &&& o2.take(out.len() as int) == out
            &&& k < objs.len() ==> f2[k].1 == out.len()
            &&& forall|j: int| k <= j < objs.len() ==> (#[trigger] f2[j]).0 as int == objs[j].number
            &&& forall|j: int| k <= j < objs.len() ==> out.len() <= (#[trigger] f2[j]).1 <= layout_end(f2, j, o2.len() as int) <= o2.len()
            &&& forall|j: int| k <= j < objs.len() ==> o2.subrange((#[trigger] f2[j]).1 as int, layout_end(f2, j, o2.len() as int))
                == object_bytes(objs[j]).unwrap()
            &&& forall|i: int, j: int| k <= i < j < objs.len() ==> (#[trigger] f2[i]).1 < (#[trigger] f2[j]).1
        }),
    decreases objs.len() - k,
{
    if k < objs.len() {
        let b = object_bytes(objs[k]).unwrap();
        let num = objs[k].number;
        let offs1 = offs.push((num as i32, out.len() as usize));
        lemma_written_grows(objs, k + 1, out + b, offs1);
        lemma_written_layout(objs, k + 1, out + b, offs1);
        let (o2, f2) = objects_bytes(objs, k, out, offs).unwrap();
        assert((out.len() as usize) as int == out.len());
        assert((num as i32) as int == num);
        assert(f2.take(k + 1)[k] == f2[k]);
        assert(f2[k] == (num as i32, out.len() as usize));
        assert(f2.take(k) =~= f2.take(k + 1).take(k));
        assert(offs1.take(k) =~= offs);
        assert(o2.take(out.len() as int) =~= o2.take((out + b).len() as int).take(out.len() as int));
        assert((out + b).take(out.len() as int) =~= out);
        // the object at `k`
        assert(b.len() > 0) by {
            assert(lit_obj_open().len() == 7);
        }
        if k + 1 < objs.len() {
            assert(layout_end(f2, k, o2.len() as int) == (out + b).len());
        } else {
            assert(o2 == out + b);
        }
        assert(o2.subrange(out.len() as int, (out + b).len() as int) =~= o2.take((out + b).len() as int).subrange(
            out.len() as int,
            (out + b).len() as int,
        ));
        assert((out + b).subrange(out.len() as int, (out + b).len() as int) =~= b);
        assert forall|i: int, j: int| k <= i < j < objs.len() implies (#[trigger] f2[i]).1 < (#[trigger] f2[j]).1 by {
            if i == k {
                assert(f2[j].1 >= (out + b).len());
            }
        }
    } else {
        assert(offs.take(k) =~= offs);
        assert(out.take(out.len() as int) =~= out);
    }
}

/// How the reader sees a written object: its number, its body between the
/// writer's two line breaks, no stream, and the body's strings.
pub open spec fn read_view(o: ObjectView) -> ObjectView {
    let body = seq![10u8] + o.body + seq![10u8];
    ObjectView { number: o.number, body, stream: None, encrypted_stream: None, strings: scan_spec(body, 0).unwrap() }
}

/// The objects as the reader sees them.
pub open spec fn read_views(s: Seq<ObjectView>) -> Seq<ObjectView> {
    s.map_values(|o: ObjectView| read_view(o))
}

/// The offsets of `(number, offset)` pairs.
pub open spec fn pair_starts(s: Seq<(i32, usize)>) -> Seq<usize> {
    s.map_values(|e: (i32, usize)| e.1)
}

/// An object the reader gets back as [`read_view`] says.
pub open spec fn plain_object(o: ObjectView) -> bool {
    &&& o.encrypted_stream is None
    &&& 0 <= o.number <= i32::MAX
    &&& find_spec(o.body, kw_stream(), 0) is None
    &&& find_spec(o.body, kw_endobj(), 0) is None
}

/// Reading the objects laid out in `o2` (a prefix of `f`) from `k` on.
proof fn lemma_objects_from_written(f: Seq<u8>, all: Seq<ObjectView>, f2: Seq<(i32, usize)>, o2: Seq<u8>, k: int)
    requires
        f2.len() == all.len(),
        o2.len() <= f.len(),
        f.take(o2.len() as int) == o2,
        0 <= k <= all.len(),
        forall|j: int| 0 <= j < all.len() ==> plain_object(#[trigger] all[j]),
        forall|j: int| 0 <= j < all.len() ==> (#[trigger] f2[j]).1 <= layout_end(f2, j, o2.len() as int) <= o2.len(),
        forall|j: int| 0 <= j < all.len() ==> o2.subrange((#[trigger] f2[j]).1 as int, layout_end(f2, j, o2.len() as int))
            == object_bytes(all[j]).unwrap(),
    ensures
        objects_from(f, pair_starts(f2), o2.len() as int, k) == Some(read_views(all).skip(k)),
    decreases all.len() - k,
{
    let starts = pair_starts(f2);
    if k < all.len() {
        lemma_objects_from_written(f, all, f2, o2, k + 1);
        let s0 = f2[k].1 as int;
        let e0 = layout_end(f2, k, o2.len() as int);
        let end = if k + 1 < starts.len() {
            starts[k + 1] as int
        } else {
            o2.len() as int
        };
        assert(end == e0);
        assert(starts[k] as int == s0);
        let b = object_bytes(all[k]).unwrap();
        assert(f.subrange(s0, e0) =~= o2.subrange(s0, e0));
        let pre = f.take(s0);
        let post = f.skip(e0);
        assert(f =~= pre + b + post);
        written_object_reads_back(pre, all[k], post);
        assert(object_spec(f, s0, e0) == Some(read_view(all[k])));
        assert(read_views(all).skip(k) =~= seq![read_view(all[k])] + read_views(all).skip(k + 1));
    } else {
        assert(read_views(all).skip(k) =~= Seq::<ObjectView>::empty());
    }
}


/// A file this crate wrote gives back its objects: when the objects are
/// stream-less, in number order below the `/Encrypt` object's number `size`,
/// and no body holds `stream` or `endobj`, the reader finds each of them, in
/// order, with its number and its body (between the writer's two line
/// breaks), and then the `/Encrypt` dictionary as object `size`.
#[verifier::rlimit(50)]
pub proof fn written_objects_read_back(
    objs: Seq<ObjectView>,
    size: int,
    root: int,
    info: Option<int>,
    u: Seq<u8>,
    ue: Seq<u8>,
    o: Seq<u8>,
    oe: Seq<u8>,
    perms: Seq<u8>,
    p: int,
    id: Seq<u8>,
)
    requires
        file_bytes(objs, size, root, info, u, ue, o, oe, perms, p, id) is Some,
        file_bytes(objs, size, root, info, u, ue, o, oe, perms, p, id).unwrap().len() <= i32::MAX,
        0 <= size < i32::MAX,
        forall|i: int| 0 <= i < objs.len() ==> plain_object(#[trigger] objs[i]) && objs[i].number <= size,
        forall|i: int, j: int| 0 <= i < j < objs.len() ==> (#[trigger] objs[i]).number <= (#[trigger] objs[j]).number,
    ensures
        objects_spec(file_bytes(objs, size, root, info, u, ue, o, oe, perms, p, id).unwrap()) == Some(
            read_views(objs.push(encrypt_object_view(size, u, ue, o, oe, perms, p))),
        ),
{
    let f = file_bytes(objs, size, root, info, u, ue, o, oe, perms, p, id).unwrap();
    let (out, offs) = objects_bytes(objs, 0, lit_header(), Seq::empty()).unwrap();
    let ev = encrypt_object_view(size, u, ue, o, oe, perms, p);
    let all = objs.push(ev);
    let enc = encrypt_object_bytes(size, u, ue, o, oe, perms, p);
    let out2 = out + enc;
    let offs2 = offs.push((size as i32, out.len() as usize));
    let xb = xref_bytes(offs2, size + 1);
    let x = out2.len() as usize;
    let t = trailer_bytes(root, info, size, id, x, size + 1);
    assert(f == out2 + xb + t);
    // the objects, the `/Encrypt` one last, as one written list
    lemma_encrypt_object_shape(size, u, ue, o, oe, perms, p);
    lemma_bytes_push(objs, ev, 0, lit_header(), Seq::empty());
    assert(objects_bytes(all, 0, lit_header(), Seq::empty()) == Some((out2, offs2)));
    assert forall|i: int| 0 <= i < all.len() implies plain_object(#[trigger] all[i]) by {
        if i < objs.len() {
            assert(all[i] == objs[i]);
        }
    }
    assert forall|i: int| 0 <= i < all.len() implies 0 <= (#[trigger] all[i]).number <= i32::MAX by {
        assert(plain_object(all[i]));
    }
    lemma_written_layout(all, 0, lit_header(), Seq::empty());
    // the table, in writing order
    written_xref_reads_back(objs, size, root, info, u, ue, o, oe, perms, p, id);
    assert forall|i: int, j: int| 0 <= i < j < offs2.len() implies (#[trigger] offs2[i]).0 <= (#[trigger] offs2[j]).0 by {
        assert(offs2[i].0 as int == all[i].number);
        assert(offs2[j].0 as int == all[j].number);
        if j < objs.len() {
            assert(all[i] == objs[i] && all[j] == objs[j]);
        } else {
            assert(all[i] == objs[i]);
        }
    }
    lemma_sorted_identity(offs2);
    let starts = pair_starts(offs2);
    let rows = pair_offsets(offs2);
    assert(rows.map_values(|v: int| v as usize) =~= starts);
    crate::sort::lemma_sorted_spec(starts);
    assert(crate::sort::ascending(starts)) by {
        assert forall|i: int, j: int| 0 <= i < j < starts.len() implies starts[i] <= starts[j] by {
            assert(offs2[i].1 < offs2[j].1);
        }
    }
    crate::sort::lemma_ascending_unique(crate::sort::sorted_spec(starts), starts);
    // each object over its own bytes
    assert(f.take(out2.len() as int) =~= out2);
    lemma_objects_from_written(f, all, offs2, out2, 0);
    assert(read_views(all).skip(0) =~= read_views(all));
}

} // verus!
