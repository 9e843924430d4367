//! PDF 2.0 password encryption: the Standard Security Handler, V=5 / R=6
//! (AESV3, AES-256).
//!
//! A caller supplies a user password (to open) and optionally an owner password
//! plus a [`Permissions`] set; every string and stream of the finished PDF is
//! AES-256-CBC encrypted with a random per-object IV under one random 32-byte
//! file encryption key, and an `/Encrypt` dictionary plus a file `/ID` are
//! written so a reader demands the password. Salts, the file key and the IVs come
//! from the OS random source, so an encrypted PDF is not byte-deterministic.
use vstd::prelude::*;
use crate::bytes::push_all;
use aes::cipher::generic_array::GenericArray;
use aes::cipher::{BlockEncrypt, KeyInit};
use aes::Aes256;
use cbc::cipher::block_padding::NoPadding;
use cbc::cipher::{BlockEncryptMut, KeyIvInit};
use sha2::{Digest, Sha256, Sha384, Sha512};

pub mod parse;
pub mod serialize;
pub mod reread;

verus! {

// ---------------------------------------------------------------------------
// permissions
// ---------------------------------------------------------------------------

/// What an opened reader is allowed to do with the document (the `/P`
/// permission bits). A field that is `false` clears the
/// corresponding bit in `/P`.
#[derive(Debug, Clone, Copy, PartialEq, Eq, Structural)]
pub struct Permissions {
    /// Print the document (bit 3).
    pub print: bool,
    /// Modify the contents (bit 4).
    pub modify: bool,
    /// Copy or extract text and graphics (bit 5).
    pub copy: bool,
    /// Add or modify annotations and fill form fields (bit 6).
    pub annotate: bool,
    /// Fill in existing interactive form fields (bit 9).
    pub fill_forms: bool,
    /// Extract text/graphics for accessibility (bit 10).
    pub accessibility: bool,
    /// Assemble the document — insert/rotate/delete pages (bit 11).
    pub assemble: bool,
    /// Print at full resolution (bit 12).
    pub high_quality_print: bool,
}

/// The value a flag contributes to `/P` when it is granted.
pub open spec fn flag(on: bool, bit_value: int) -> int {
    if on {
        bit_value
    } else {
        0
    }
}

/// The unsigned 32-bit `/P` word: the reserved bits (1, 2, 7, 8, 13–32) set,
/// plus one bit per granted action.
pub open spec fn p_word(p: Permissions) -> int {
    0xFFFF_F0C0 + flag(p.print, 4) + flag(p.modify, 8) + flag(p.copy, 16) + flag(p.annotate, 32)
        + flag(p.fill_forms, 256) + flag(p.accessibility, 512) + flag(p.assemble, 1024) + flag(
        p.high_quality_print,
        2048,
    )
}

/// The `/P` entry: the 32-bit word read as a signed integer (always negative,
/// since the top reserved bit is set).
pub open spec fn p_value(p: Permissions) -> int {
    p_word(p) - 0x1_0000_0000
}

/// `bits` with bit `n` (1-based) set or cleared.
pub open spec fn with_bit(bits: u32, n: u32, on: bool) -> u32 {
    if on {
        bits | (1u32 << (n - 1) as u32)
    } else {
        bits & !(1u32 << (n - 1) as u32)
    }
}

impl Permissions {
    /// Grant every permission.
    pub fn all() -> (res: Permissions)
        ensures
            res.print && res.modify && res.copy && res.annotate && res.fill_forms
                && res.accessibility && res.assemble && res.high_quality_print,
    {
        Permissions {
            print: true,
            modify: true,
            copy: true,
            annotate: true,
            fill_forms: true,
            accessibility: true,
            assemble: true,
            high_quality_print: true,
        }
    }

    /// The `/P` value: reserved high bits set to 1, each granted action setting
    /// its bit, everything else 0, as the signed `i32` the `/P` entry stores.
    pub fn to_p(self) -> (res: i32)
        ensures
            res == p_value(self),
    {
        let mut bits: u32 = 0xFFFF_F0C0;
        let ghost b0 = bits;
        self.apply_bit(&mut bits, 3, self.print);
        self.apply_bit(&mut bits, 4, self.modify);
        self.apply_bit(&mut bits, 5, self.copy);
        self.apply_bit(&mut bits, 6, self.annotate);
        self.apply_bit(&mut bits, 9, self.fill_forms);
        self.apply_bit(&mut bits, 10, self.accessibility);
        self.apply_bit(&mut bits, 11, self.assemble);
        self.apply_bit(&mut bits, 12, self.high_quality_print);
        let (a, b, c, d, e, f, g, h) = (
            self.print,
            self.modify,
            self.copy,
            self.annotate,
            self.fill_forms,
            self.accessibility,
            self.assemble,
            self.high_quality_print,
        );
        proof {
            lemma_p_word(a, b, c, d, e, f, g, h);
        }
        assert(bits as int == p_word(self));
        let r = bits as i32;
        assert(bits >= 0x8000_0000u32 ==> (bits as i32) as int == bits as int - 0x1_0000_0000) by (bit_vector);
        r
    }

    /// Set or clear bit `n` (1-based) in `bits`.
    fn apply_bit(self, bits: &mut u32, n: u32, on: bool)
        requires
            1 <= n <= 32,
        ensures
            *final(bits) == with_bit(*old(bits), n, on),
    {
        let mask = 1u32 << (n - 1);
        if on {
            *bits |= mask;
        } else {
            *bits &= !mask;
        }
    }
}

proof fn lemma_p_word(a: bool, b: bool, c: bool, d: bool, e: bool, f: bool, g: bool, h: bool)
    ensures
        with_bit(
            with_bit(
                with_bit(
                    with_bit(
                        with_bit(
                            with_bit(
                                with_bit(with_bit(0xFFFF_F0C0u32, 3, a), 4, b),
                                5,
                                c,
                            ),
                            6,
                            d,
                        ),
                        9,
                        e,
                    ),
                    10,
                    f,
                ),
                11,
                g,
            ),
            12,
            h,
        ) as int == 0xFFFF_F0C0 + flag(a, 4) + flag(b, 8) + flag(c, 16) + flag(d, 32) + flag(e, 256)
            + flag(f, 512) + flag(g, 1024) + flag(h, 2048),
{
    let x0: u32 = 0xFFFF_F0C0u32;
    assert(1u32 << 2u32 == 4u32) by (bit_vector);
    assert(1u32 << 3u32 == 8u32) by (bit_vector);
    assert(1u32 << 4u32 == 16u32) by (bit_vector);
    assert(1u32 << 5u32 == 32u32) by (bit_vector);
    assert(1u32 << 8u32 == 256u32) by (bit_vector);
    assert(1u32 << 9u32 == 512u32) by (bit_vector);
    assert(1u32 << 10u32 == 1024u32) by (bit_vector);
    assert(1u32 << 11u32 == 2048u32) by (bit_vector);
    let x1 = with_bit(x0, 3, a);
    assert(x1 == (if a { x0 | 4 } else { x0 & !4u32 }));
    assert(x0 | 4 == x0 + 4 && x0 & !4u32 == x0) by (bit_vector)
        requires x0 == 0xFFFF_F0C0u32;
    let x2 = with_bit(x1, 4, b);
    assert(x2 == (if b { x1 | 8 } else { x1 & !8u32 }));
    assert((x1 == x0 || x1 == x0 + 4) ==> (x1 | 8 == x1 + 8 && x1 & !8u32 == x1)) by (bit_vector)
        requires x0 == 0xFFFF_F0C0u32;
    let x3 = with_bit(x2, 5, c);
    assert(x3 == (if c { x2 | 16 } else { x2 & !16u32 }));
    assert((x2 & 0x10u32 == 0 && x2 < 0xFFFF_FFF0u32) ==> (x2 | 16 == x2 + 16 && x2 & !16u32 == x2)) by (bit_vector);
    assert(x2 & 0x10u32 == 0) by (bit_vector)
        requires x2 == x0 || x2 == x0 + 4 || x2 == x0 + 8 || x2 == x0 + 12, x0 == 0xFFFF_F0C0u32;
    let x4 = with_bit(x3, 6, d);
    assert(x4 == (if d { x3 | 32 } else { x3 & !32u32 }));
    assert(x3 & 0x20u32 == 0) by (bit_vector)
        requires x3 >= x0, x3 <= x0 + 28, x0 == 0xFFFF_F0C0u32;
    assert((x3 & 0x20u32 == 0) ==> (x3 | 32 == x3 + 32 && x3 & !32u32 == x3)) by (bit_vector);
    let x5 = with_bit(x4, 9, e);
    assert(x5 == (if e { x4 | 256 } else { x4 & !256u32 }));
    assert(x4 & 0x100u32 == 0) by (bit_vector)
        requires x4 >= x0, x4 <= x0 + 60, x0 == 0xFFFF_F0C0u32;
    assert((x4 & 0x100u32 == 0) ==> (x4 | 256 == x4 + 256 && x4 & !256u32 == x4)) by (bit_vector);
    let x6 = with_bit(x5, 10, f);
    assert(x6 == (if f { x5 | 512 } else { x5 & !512u32 }));
    assert(x5 & 0x200u32 == 0) by (bit_vector)
        requires x5 >= x0, x5 <= x0 + 316, x0 == 0xFFFF_F0C0u32;
    assert((x5 & 0x200u32 == 0) ==> (x5 | 512 == x5 + 512 && x5 & !512u32 == x5)) by (bit_vector);
    let x7 = with_bit(x6, 11, g);
    assert(x7 == (if g { x6 | 1024 } else { x6 & !1024u32 }));
    assert(x6 & 0x400u32 == 0) by (bit_vector)
        requires x6 >= x0, x6 <= x0 + 828, x0 == 0xFFFF_F0C0u32;
    assert((x6 & 0x400u32 == 0) ==> (x6 | 1024 == x6 + 1024 && x6 & !1024u32 == x6)) by (bit_vector);
    let x8 = with_bit(x7, 12, h);
    assert(x8 == (if h { x7 | 2048 } else { x7 & !2048u32 }));
    assert(x7 & 0x800u32 == 0) by (bit_vector)
        requires x7 >= x0, x7 <= x0 + 1852, x0 == 0xFFFF_F0C0u32;
    assert((x7 & 0x800u32 == 0) ==> (x7 | 2048 == x7 + 2048 && x7 & !2048u32 == x7)) by (bit_vector);
}


impl Default for Permissions {
    fn default() -> (res: Permissions)
        ensures
            res == Permissions::all_spec(),
    {
        Permissions::all()
    }
}

impl Permissions {
    /// Every permission granted.
    pub open spec fn all_spec() -> Permissions {
        Permissions {
            print: true,
            modify: true,
            copy: true,
            annotate: true,
            fill_forms: true,
            accessibility: true,
            assemble: true,
            high_quality_print: true,
        }
    }
}

/// Password-encryption settings. `user_password` is required to open the
/// document; `owner_password`, when set, grants full permissions, and when
/// `None` the owner password is the user password.
#[derive(Debug, Clone)]
pub struct Encryption {
    pub user_password: String,
    pub owner_password: Option<String>,
    pub permissions: Permissions,
}

/// AES block size in bytes.
pub const BLOCK: usize = 16;
/// AES-256 key size in bytes.
pub const KEY_LEN: usize = 32;
/// Salt size in bytes.
pub const SALT_LEN: usize = 8;

// ---------------------------------------------------------------------------
// the cipher and hash primitives
// ---------------------------------------------------------------------------

/// What SHA-256 gives for `data`.
pub uninterp spec fn sha256_digest(data: Seq<u8>) -> Seq<u8>;

/// What SHA-384 gives for `data`.
pub uninterp spec fn sha384_digest(data: Seq<u8>) -> Seq<u8>;

/// What SHA-512 gives for `data`.
pub uninterp spec fn sha512_digest(data: Seq<u8>) -> Seq<u8>;

/// What AES-256 in CBC mode without padding gives for `data` under `key` and `iv`.
pub uninterp spec fn aes256_cbc(key: Seq<u8>, iv: Seq<u8>, data: Seq<u8>) -> Seq<u8>;

/// What AES-128 in CBC mode without padding gives for `data` under `key` and `iv`.
pub uninterp spec fn aes128_cbc(key: Seq<u8>, iv: Seq<u8>, data: Seq<u8>) -> Seq<u8>;

/// What AES-256 gives for one 16-byte block under `key`.
pub uninterp spec fn aes256_block(key: Seq<u8>, block: Seq<u8>) -> Seq<u8>;

/// `sha2::Sha256::digest`: the result is the 32-byte SHA-256 digest of `data`.
#[verifier::external_body]
fn sha256(data: &[u8]) -> (res: Vec<u8>)
    ensures
        res@ == sha256_digest(data@),
        res@.len() == 32,
{
    Sha256::digest(data).to_vec()
}

/// `sha2::Sha384::digest`: the result is the 48-byte SHA-384 digest of `data`.
#[verifier::external_body]
fn sha384(data: &[u8]) -> (res: Vec<u8>)
    ensures
        res@ == sha384_digest(data@),
        res@.len() == 48,
{
    Sha384::digest(data).to_vec()
}

/// `sha2::Sha512::digest`: the result is the 64-byte SHA-512 digest of `data`.
#[verifier::external_body]
fn sha512(data: &[u8]) -> (res: Vec<u8>)
    ensures
        res@ == sha512_digest(data@),
        res@.len() == 64,
{
    Sha512::digest(data).to_vec()
}

/// `cbc::Encryptor::<aes::Aes256>::encrypt_padded_mut::<NoPadding>` over a whole
/// block-aligned buffer: the ciphertext has the plaintext's length and is the
/// named AES-256-CBC result for this key, IV and data.
#[verifier::external_body]
fn aes256_cbc_encrypt(key: &[u8; 32], iv: &[u8; 16], data: &[u8]) -> (res: Vec<u8>)
    requires
        data@.len() % 16 == 0,
    ensures
        res@ == aes256_cbc(key@, iv@, data@),
        res@.len() == data@.len(),
{
    let mut buf = data.to_vec();
    let n = buf.len();
    let enc = cbc::Encryptor::<Aes256>::new(key.into(), iv.into());
    enc.encrypt_padded_mut::<NoPadding>(&mut buf, n).expect("block-aligned buffer");
    buf
}

/// `cbc::Encryptor::<aes::Aes128>::encrypt_padded_mut::<NoPadding>` over a whole
/// block-aligned buffer: the ciphertext has the plaintext's length and is the
/// named AES-128-CBC result for this key, IV and data.
#[verifier::external_body]
fn aes128_cbc_encrypt(key: &[u8], iv: &[u8], data: &[u8]) -> (res: Vec<u8>)
    requires
        key@.len() == 16,
        iv@.len() == 16,
        data@.len() % 16 == 0,
    ensures
        res@ == aes128_cbc(key@, iv@, data@),
        res@.len() == data@.len(),
{
    let mut buf = data.to_vec();
    let n = buf.len();
    let enc = cbc::Encryptor::<aes::Aes128>::new(GenericArray::from_slice(key), GenericArray::from_slice(iv));
    enc.encrypt_padded_mut::<NoPadding>(&mut buf, n).expect("block-aligned buffer");
    buf
}

/// `aes::Aes256::encrypt_block`: one 16-byte block enciphered under `key`, the
/// named AES-256 block result.
#[verifier::external_body]
fn aes256_encrypt_block(key: &[u8; 32], block: &[u8; 16]) -> (res: [u8; 16])
    ensures
        res@ == aes256_block(key@, block@),
{
    let cipher = Aes256::new(key.into());
    let mut ga = GenericArray::clone_from_slice(block);
    cipher.encrypt_block(&mut ga);
    let mut out = [0u8; 16];
    out.copy_from_slice(&ga);
    out
}

/// `getrandom::getrandom`: `N` bytes from the OS random source, or `None`
/// when the OS source fails. Nothing is promised of the bytes' values, nor of
/// when the source fails.
#[verifier::external_body]
fn random_bytes<const N: usize>() -> (res: Option<[u8; N]>)
    ensures
        res matches Some(b) ==> b@.len() == N,
{
    let mut buf = [0u8; N];
    match getrandom::getrandom(&mut buf) {
        Ok(()) => Some(buf),
        Err(_) => None,
    }
}


// ---------------------------------------------------------------------------
// padding and string/stream encryption
// ---------------------------------------------------------------------------

/// `data` padded to a whole number of AES blocks with PKCS#7: `n` copies of the
/// byte `n`, where `n = 16 - len % 16` (a full block for aligned input).
pub open spec fn pkcs_pad_spec(data: Seq<u8>) -> Seq<u8> {
    let pad = 16 - data.len() % 16;
    data + Seq::new(pad as nat, |i: int| pad as u8)
}

/// An IV-prefixed AES-256-CBC encryption of `data` under `key`: 16 bytes of IV
/// followed by the cipher of the padded data under that IV.
pub open spec fn is_cbc_encryption(key: Seq<u8>, data: Seq<u8>, out: Seq<u8>) -> bool {
    &&& out.len() == 16 + pkcs_pad_spec(data).len()
    &&& out.skip(16) == aes256_cbc(key, out.take(16), pkcs_pad_spec(data))
}

/// Pad `data` to a whole number of AES blocks with PKCS#7 padding.
fn pkcs_pad(data: &[u8]) -> (res: Vec<u8>)
    ensures
        res@ == pkcs_pad_spec(data@),
        res@.len() % 16 == 0,
        data@.len() < res@.len() <= data@.len() + 16,
{
    let n = data.len();
    let pad = BLOCK - (n % BLOCK);
    assert((n + pad) % 16 == 0 && 1 <= pad <= 16) by (nonlinear_arith)
        requires pad == 16 - n % 16;
    let mut buf: Vec<u8> = Vec::new();
    push_all(&mut buf, data);
    let mut k: usize = 0;
    while k < pad
        invariant
            k <= pad,
            pad == 16 - n % 16,
            n == data@.len(),
            buf@ == data@ + Seq::new(k as nat, |i: int| pad as u8),
        decreases pad - k,
    {
        let ghost before = buf@;
        buf.push(pad as u8);
        k += 1;
        assert(Seq::new(k as nat, |i: int| pad as u8) =~= Seq::new((k - 1) as nat, |i: int| pad as u8).push(pad as u8));
        assert(buf@ =~= data@ + Seq::new(k as nat, |i: int| pad as u8));
    }
    buf
}

/// AES-256-CBC encrypt `data` with a fresh random 16-byte IV, returning the IV
/// followed by the ciphertext.
fn aes_cbc_encrypt(data: &[u8], key: &[u8; 32]) -> (res: Option<Vec<u8>>)
    ensures
        res matches Some(out) ==> is_cbc_encryption(key@, data@, out@),
{
    let iv = match random_bytes::<16>() {
        Some(b) => b,
        None => return None,
    };
    let buf = pkcs_pad(data);
    let ct = aes256_cbc_encrypt(key, &iv, buf.as_slice());
    let mut out: Vec<u8> = Vec::new();
    push_all(&mut out, &iv);
    push_all(&mut out, ct.as_slice());
    assert(out@.take(16) =~= iv@);
    assert(out@.skip(16) =~= ct@);
    Some(out)
}

/// The spans of an object body are in order, apart, and inside the body.
pub open spec fn spans_fit(body: Seq<u8>, spans: Seq<parse::SpanView>) -> bool {
    &&& forall|k: int| 0 <= k < spans.len() ==> 0 <= #[trigger] spans[k].start <= spans[k].end <= body.len()
    &&& forall|k: int| 0 <= k < spans.len() - 1 ==> #[trigger] spans[k].end <= spans[k + 1].start
}

/// `body` with spans `k-1` down to `0` each replaced by the hex string of the
/// matching ciphertext, the later span first so earlier offsets stay valid.
pub open spec fn splice_down(body: Seq<u8>, spans: Seq<parse::SpanView>, cts: Seq<Seq<u8>>, k: int) -> Seq<u8>
    decreases k,
{
    if k <= 0 {
        body
    } else {
        let s = spans[k - 1];
        splice_down(
            body.take(s.start) + serialize::hex_string_spec(cts[k - 1]) + body.skip(s.end),
            spans,
            cts,
            k - 1,
        )
    }
}

/// `body` with every span replaced by the hex string of its ciphertext.
pub open spec fn splice_all(body: Seq<u8>, spans: Seq<parse::SpanView>, cts: Seq<Seq<u8>>) -> Seq<u8> {
    splice_down(body, spans, cts, spans.len() as int)
}

/// What encrypting one object under `key` produced: the strings replaced by
/// the hex of IV-prefixed ciphertexts of their plaintexts, the stream (if any)
/// moved to an IV-prefixed ciphertext of itself, and the spans consumed.
pub open spec fn is_encrypted_object(key: Seq<u8>, before: parse::ObjectView, after: parse::ObjectView) -> bool {
    &&& after.number == before.number
    &&& after.strings.len() == 0
    &&& after.stream is None
    &&& exists|cts: Seq<Seq<u8>>|
        {
            &&& cts.len() == before.strings.len()
            &&& forall|k: int| 0 <= k < cts.len() ==> is_cbc_encryption(key, before.strings[k].bytes, #[trigger] cts[k])
            &&& after.body == splice_all(before.body, before.strings, cts)
        }
    &&& match before.stream {
        Some(st) => after.encrypted_stream matches Some(ct) && is_cbc_encryption(key, st, ct),
        None => after.encrypted_stream == before.encrypted_stream,
    }
}

/// Encrypt every string and the stream of one parsed object under `file_key`.
///
/// Strings are spliced back-to-front so that an earlier span's byte offsets are
/// not invalidated by a later replacement of different length.
fn encrypt_object(obj: &mut parse::Object, file_key: &[u8; 32]) -> (res: bool)
    requires
        spans_fit(old(obj)@.body, old(obj)@.strings),
    ensures
        res ==> is_encrypted_object(file_key@, old(obj)@, final(obj)@),
{
    let mut spans: Vec<parse::StringSpan> = Vec::new();
    std::mem::swap(&mut spans, &mut obj.strings);
    let ghost sv = parse::spans_view(spans@);
    let ghost body0 = obj.body@;
    let n = spans.len();
    let mut k = n;
    let ghost mut tail: Seq<Seq<u8>> = Seq::empty();
    while k > 0
        invariant
            k <= n,
            n == spans@.len(),
            sv == parse::spans_view(spans@),
            sv == old(obj)@.strings,
            body0 == old(obj)@.body,
            spans_fit(body0, sv),
            obj.number == old(obj).number,
            obj.stream == old(obj).stream,
            obj.encrypted_stream == old(obj).encrypted_stream,
            obj.strings@.len() == 0,
            tail.len() == n - k,
            forall|m: int| 0 <= m < tail.len() ==> is_cbc_encryption(file_key@, sv[k + m].bytes, #[trigger] tail[m]),
            forall|c: Seq<Seq<u8>>| c.len() == k ==> #[trigger] splice_down(body0, sv, c + tail, n as int)
                == splice_down(obj.body@, sv, c + tail, k as int),
            k == n ==> obj.body@ == body0,
            k < n ==> sv[k as int].start <= obj.body@.len() && obj.body@.take(sv[k as int].start)
                == body0.take(sv[k as int].start),
        decreases k,
    {
        let span = &spans[k - 1];
        let ghost sp = sv[k - 1];
        assert(sp == span@);
        let cipher = match aes_cbc_encrypt(span.bytes.as_slice(), file_key) {
            Some(c) => c,
            None => return false,
        };
        let hex = serialize::hex_string(cipher.as_slice());
        let ghost body_k = obj.body@;
        proof {
            assert(0 <= sp.start <= sp.end <= body0.len());
            if k < n {
                assert(sv[k - 1].end <= sv[k as int].start);
                assert(sp.end <= body_k.len());
            } else {
                assert(body_k == body0);
            }
            assert(sp.end <= body_k.len());
            assert(body_k.take(sp.start) =~= body0.take(sp.start)) by {
                if k < n {
                    assert(body_k.take(sp.start) =~= body_k.take(sv[k as int].start).take(sp.start));
                    assert(body0.take(sp.start) =~= body0.take(sv[k as int].start).take(sp.start));
                }
            }
        }
        obj.body = parse::splice(obj.body.as_slice(), span.start, span.end, hex.as_slice());
        proof {
            let new_tail = seq![cipher@] + tail;
            assert forall|c: Seq<Seq<u8>>| c.len() == k - 1 implies #[trigger] splice_down(body0, sv, c + new_tail, n as int)
                == splice_down(obj.body@, sv, c + new_tail, k - 1) by {
                let c2 = c.push(cipher@);
                assert(c2 + tail =~= c + new_tail);
                assert(c2.len() == k);
                assert(splice_down(body0, sv, c2 + tail, n as int) == splice_down(body_k, sv, c2 + tail, k as int));
                assert((c + new_tail)[k - 1] == cipher@);
            }
            assert forall|m: int| 0 <= m < new_tail.len() implies is_cbc_encryption(file_key@, sv[k - 1 + m].bytes, #[trigger] new_tail[m]) by {
                if m > 0 {
                    assert(new_tail[m] == tail[m - 1]);
                }
            }
            tail = new_tail;
            assert(obj.body@.take(sp.start) =~= body0.take(sp.start));
        }
        k -= 1;
    }
    proof {
        let c: Seq<Seq<u8>> = Seq::empty();
        assert(c + tail =~= tail);
        assert(splice_down(body0, sv, c + tail, n as int) == splice_down(obj.body@, sv, c + tail, 0));
        assert(obj.body@ == splice_all(body0, sv, tail));
        assert(forall|m: int| 0 <= m < tail.len() ==> is_cbc_encryption(file_key@, sv[m].bytes, #[trigger] tail[m]));
    }
    match obj.stream.take() {
        Some(stream) => {
            match aes_cbc_encrypt(stream.as_slice(), file_key) {
                Some(ct) => {
                    obj.encrypted_stream = Some(ct);
                },
                None => return false,
            }
        },
        None => {},
    }
    assert(obj@.strings =~= Seq::<parse::SpanView>::empty());
    assert(obj@.body == splice_all(old(obj)@.body, old(obj)@.strings, tail));
    true
}


// ---------------------------------------------------------------------------
// the hardened hash (Algorithm 2.B)
// ---------------------------------------------------------------------------

/// The bytes read as a big-endian unsigned integer.
pub open spec fn be_value(s: Seq<u8>) -> int
    decreases s.len(),
{
    if s.len() == 0 {
        0
    } else {
        be_value(s.drop_last()) * 256 + s.last()
    }
}

/// `unit` repeated `n` times.
pub open spec fn repeat(unit: Seq<u8>, n: nat) -> Seq<u8>
    decreases n,
{
    if n == 0 {
        Seq::empty()
    } else {
        repeat(unit, (n - 1) as nat) + unit
    }
}

/// The digest a round ends with: SHA-256, -384 or -512 of `e`, chosen by the
/// first 16 bytes of `e` as a big-endian number mod 3.
pub open spec fn next_hash_spec(e: Seq<u8>) -> Seq<u8> {
    let m = be_value(e.take(16)) % 3;
    if m == 0 {
        sha256_digest(e)
    } else if m == 1 {
        sha384_digest(e)
    } else {
        sha512_digest(e)
    }
}

/// One round's cipher output: AES-128-CBC of `(password ‖ K ‖ extra)` repeated
/// 64 times, keyed by the first 16 bytes of `K` with the next 16 as IV.
pub open spec fn round_cipher(password: Seq<u8>, k: Seq<u8>, extra: Seq<u8>) -> Seq<u8> {
    aes128_cbc(k.take(16), k.subrange(16, 32), repeat(password + k + extra, 64))
}

/// The rounds of Algorithm 2.B from round number `round` with current hash `k`:
/// at least 64 rounds, ending after the first round `r` (counted from 1) whose
/// cipher output's last byte is at most `r - 32`.
pub open spec fn rounds_spec(password: Seq<u8>, k: Seq<u8>, extra: Seq<u8>, round: int) -> Seq<u8>
    decreases 288 - round,
{
    let e = round_cipher(password, k, extra);
    let nk = next_hash_spec(e);
    let r = round + 1;
    if r >= 288 || (r >= 64 && e.last() <= r - 32) {
        nk
    } else {
        rounds_spec(password, nk, extra, r)
    }
}

/// The hardened Algorithm 2.B hash of `password` with `salt` and `extra`.
pub open spec fn hash_2b_spec(password: Seq<u8>, salt: Seq<u8>, extra: Seq<u8>) -> Seq<u8> {
    rounds_spec(password, sha256_digest(password + salt + extra), extra, 0).take(32)
}

/// Round step: `K1` is `(password ‖ K ‖ extra)` repeated 64 times.
fn build_k1(password: &[u8], k: &[u8], extra: &[u8]) -> (res: Vec<u8>)
    ensures
        res@ == repeat(password@ + k@ + extra@, 64),
        res@.len() == 64 * (password@.len() + k@.len() + extra@.len()),
{
    let mut unit: Vec<u8> = Vec::new();
    push_all(&mut unit, password);
    push_all(&mut unit, k);
    push_all(&mut unit, extra);
    let mut out: Vec<u8> = Vec::new();
    let mut i: usize = 0;
    while i < 64
        invariant
            i <= 64,
            unit@ == password@ + k@ + extra@,
            out@ == repeat(unit@, i as nat),
            out@.len() == i * unit@.len(),
        decreases 64 - i,
    {
        push_all(&mut out, unit.as_slice());
        i += 1;
        assert(out@.len() == i * unit@.len()) by (nonlinear_arith)
            requires out@.len() == (i - 1) * unit@.len() + unit@.len();
    }
    out
}

/// Round step: AES-128-CBC encrypt `k1` using the first 16 bytes of `k` as key
/// and the next 16 as IV.
fn aes128_cbc_round(k: &[u8], k1: &[u8]) -> (res: Vec<u8>)
    requires
        k@.len() >= 32,
        k1@.len() % 16 == 0,
    ensures
        res@ == aes128_cbc(k@.take(16), k@.subrange(16, 32), k1@),
        res@.len() == k1@.len(),
{
    let key = &k[0..16];
    let iv = &k[16..32];
    aes128_cbc_encrypt(key, iv, k1)
}

/// The first 16 bytes of `e` interpreted as a big-endian integer, mod 3.
fn mod3(bytes: &[u8]) -> (res: u32)
    ensures
        res == be_value(bytes@) % 3,
{
    let mut acc: u32 = 0;
    let mut i: usize = 0;
    while i < bytes.len()
        invariant
            i <= bytes.len(),
            acc == be_value(bytes@.take(i as int)) % 3,
        decreases bytes.len() - i,
    {
        let b = bytes[i];
        proof {
            assert(bytes@.take(i + 1).drop_last() =~= bytes@.take(i as int));
            let v = be_value(bytes@.take(i as int));
            assert(v >= 0) by {
                lemma_be_value_nonneg(bytes@.take(i as int));
            }
            assert((acc * 256 + b) % 3 == (v * 256 + b) % 3) by (nonlinear_arith)
                requires acc == v % 3, v >= 0, 0 <= b;
        }
        acc = (acc * 256 + b as u32) % 3;
        i += 1;
    }
    assert(bytes@.take(i as int) =~= bytes@);
    acc
}

proof fn lemma_be_value_nonneg(s: Seq<u8>)
    ensures
        be_value(s) >= 0,
    decreases s.len(),
{
    if s.len() > 0 {
        lemma_be_value_nonneg(s.drop_last());
    }
}

/// Round step: pick the hash by `E[..16]` as a big number mod 3 and digest `E`.
fn next_hash(e: &[u8]) -> (res: Vec<u8>)
    requires
        e@.len() >= 16,
    ensures
        res@ == next_hash_spec(e@),
        res@.len() >= 32,
{
    let m = mod3(&e[0..16]);
    if m == 0 {
        sha256(e)
    } else if m == 1 {
        sha384(e)
    } else {
        sha512(e)
    }
}

/// Initial SHA-256 of `a ‖ b ‖ c` (the Algorithm 2.B seed).
fn sha256_concat(a: &[u8], b: &[u8], c: &[u8]) -> (res: Vec<u8>)
    ensures
        res@ == sha256_digest(a@ + b@ + c@),
        res@.len() == 32,
{
    let mut buf: Vec<u8> = Vec::new();
    push_all(&mut buf, a);
    push_all(&mut buf, b);
    push_all(&mut buf, c);
    sha256(buf.as_slice())
}

/// The hardened revision-6 password hash: SHA-256 of
/// `password ‖ salt ‖ extra`, then at least 64 rounds of an AES-128-CBC mix whose
/// per-round modulus selects SHA-256/384/512.
fn hash_2b(password: &[u8], salt: &[u8], extra: &[u8]) -> (res: [u8; 32])
    ensures
        res@ == hash_2b_spec(password@, salt@, extra@),
{
    let mut k = sha256_concat(password, salt, extra);
    let mut round: usize = 0;
    loop
        invariant_except_break
            round < 288,
            k@.len() >= 32,
            rounds_spec(password@, sha256_digest(password@ + salt@ + extra@), extra@, 0)
                == rounds_spec(password@, k@, extra@, round as int),
        ensures
            k@.len() >= 32,
            k@ == rounds_spec(password@, sha256_digest(password@ + salt@ + extra@), extra@, 0),
        decreases 288 - round,
    {
        let k1 = build_k1(password, k.as_slice(), extra);
        proof {
            assert(k1@.len() % 16 == 0) by (nonlinear_arith)
                requires k1@.len() == 64 * (password@.len() + k@.len() + extra@.len());
            assert(k1@.len() >= 64) by (nonlinear_arith)
                requires k1@.len() == 64 * (password@.len() + k@.len() + extra@.len()), k@.len() >= 32;
        }
        let e = aes128_cbc_round(k.as_slice(), k1.as_slice());
        let ghost old_k = k@;
        k = next_hash(e.as_slice());
        round += 1;
        let last = e[e.len() - 1];
        assert(e@.last() == last);
        if round >= 288 || (round >= 64 && (last as usize) <= round - 32) {
            break;
        }
    }
    let mut out = [0u8; 32];
    let mut i: usize = 0;
    while i < 32
        invariant
            i <= 32,
            k@.len() >= 32,
            forall|m: int| 0 <= m < i ==> out@[m] == k@[m],
        decreases 32 - i,
    {
        out[i] = k[i];
        i += 1;
    }
    assert(out@ =~= k@.take(32));
    out
}


// ---------------------------------------------------------------------------
// key derivation
// ---------------------------------------------------------------------------

/// The derived key material for the `/Encrypt` dictionary plus the file key
/// used to encrypt object bodies.
pub struct Keys {
    /// The random 32-byte file encryption key.
    pub file_key: [u8; 32],
    /// `/U` (48 bytes: 32 hash + 8 validation salt + 8 key salt).
    pub u: [u8; 48],
    /// `/UE` (32 bytes: file key wrapped under the user-key hash).
    pub ue: [u8; 32],
    /// `/O` (48 bytes).
    pub o: [u8; 48],
    /// `/OE` (32 bytes).
    pub oe: [u8; 32],
    /// `/Perms` (16 bytes).
    pub perms: [u8; 16],
}

/// Sixteen zero bytes, the IV of the key wrap.
pub open spec fn zero_iv() -> Seq<u8> {
    Seq::new(16, |i: int| 0u8)
}

/// A `/U`-style entry and its `/UE`-style wrap for `password`: the first 32
/// bytes of `entry` are the Algorithm 2.B hash under the validation salt (the
/// next 8 bytes), and `wrapped` is the file key AES-256-CBC wrapped (zero IV)
/// under the hash with the key salt (the last 8 bytes); `extra` is folded into
/// both hashes.
pub open spec fn is_key_entry(password: Seq<u8>, extra: Seq<u8>, file_key: Seq<u8>, entry: Seq<u8>, wrapped: Seq<u8>) -> bool {
    &&& entry.len() == 48
    &&& entry.take(32) == hash_2b_spec(password, entry.subrange(32, 40), extra)
    &&& wrapped == aes256_cbc(hash_2b_spec(password, entry.subrange(40, 48), extra), zero_iv(), file_key)
}

/// The byte `i` (little-endian) of a 32-bit word.
pub open spec fn le_byte(w: int, i: int) -> u8 {
    if i == 0 {
        (w % 256) as u8
    } else if i == 1 {
        ((w / 256) % 256) as u8
    } else if i == 2 {
        ((w / 65536) % 256) as u8
    } else {
        ((w / 16777216) % 256) as u8
    }
}

/// The 16-byte permission block: the little-endian `/P` word, four `0xFF`
/// bytes, `T` (metadata is encrypted), `adb`, then the four filler bytes.
pub open spec fn perms_block_spec(p: Permissions, filler: Seq<u8>) -> Seq<u8> {
    let w = p_word(p);
    seq![le_byte(w, 0), le_byte(w, 1), le_byte(w, 2), le_byte(w, 3), 255u8, 255u8, 255u8, 255u8, 84u8, 97u8, 100u8, 98u8]
        + filler
}

/// The password bytes of a string (its UTF-8 encoding).
pub open spec fn pw_bytes(s: String) -> Seq<u8> {
    vstd::utf8::encode_utf8(s@)
}

/// The owner password's bytes: the owner password, or the user password.
pub open spec fn owner_bytes(enc: Encryption) -> Seq<u8> {
    match enc.owner_password {
        Some(o) => pw_bytes(o),
        None => pw_bytes(enc.user_password),
    }
}

/// Key material that opens with `enc`'s passwords and carries its permissions.
pub open spec fn keys_valid(enc: Encryption, k: Keys) -> bool {
    &&& is_key_entry(pw_bytes(enc.user_password), Seq::empty(), k.file_key@, k.u@, k.ue@)
    &&& is_key_entry(owner_bytes(enc), k.u@, k.file_key@, k.o@, k.oe@)
    &&& exists|filler: Seq<u8>| filler.len() == 4 && k.perms@ == aes256_block(k.file_key@, #[trigger] perms_block_spec(enc.permissions, filler))
}

/// Copy a 32-byte digest into an array.
fn first_32(v: &[u8]) -> (res: [u8; 32])
    requires
        v@.len() >= 32,
    ensures
        res@ == v@.take(32),
{
    let mut out = [0u8; 32];
    let mut i: usize = 0;
    while i < 32
        invariant
            i <= 32,
            v@.len() >= 32,
            forall|m: int| 0 <= m < i ==> out@[m] == v@[m],
        decreases 32 - i,
    {
        out[i] = v[i];
        i += 1;
    }
    assert(out@ =~= v@.take(32));
    out
}

/// Pack a 32-byte hash + two 8-byte salts into the 48-byte `/U` or `/O` value.
fn pack_u_or_o(hash: &[u8; 32], validation_salt: &[u8; 8], key_salt: &[u8; 8]) -> (res: [u8; 48])
    ensures
        res@ == hash@ + validation_salt@ + key_salt@,
{
    let mut out = [0u8; 48];
    let mut i: usize = 0;
    while i < 48
        invariant
            i <= 48,
            forall|m: int| 0 <= m < i ==> out@[m] == (hash@ + validation_salt@ + key_salt@)[m],
        decreases 48 - i,
    {
        out[i] = if i < 32 {
            hash[i]
        } else if i < 40 {
            validation_salt[i - 32]
        } else {
            key_salt[i - 40]
        };
        i += 1;
    }
    assert(out@ =~= hash@ + validation_salt@ + key_salt@);
    out
}

/// AES-256-CBC, no padding, zero IV — wraps the 32-byte file key under the
/// 32-byte intermediate key for `/UE` / `/OE`.
fn aes_cbc_nopad_noiv(file_key: &[u8; 32], intermediate: &[u8; 32]) -> (res: [u8; 32])
    ensures
        res@ == aes256_cbc(intermediate@, zero_iv(), file_key@),
{
    let iv = [0u8; 16];
    assert(iv@ =~= zero_iv());
    let buf = aes256_cbc_encrypt(intermediate, &iv, file_key);
    let out = first_32(buf.as_slice());
    assert(out@ =~= buf@);
    out
}

/// Derive an `/U`-or-`/O` entry and its wrap from a password.
fn derive_entry(pw: &[u8], file_key: &[u8; 32], extra: &[u8]) -> (res: Option<([u8; 48], [u8; 32])>)
    ensures
        res matches Some(r) ==> is_key_entry(pw@, extra@, file_key@, r.0@, r.1@),
{
    let validation_salt = match random_bytes::<8>() {
        Some(b) => b,
        None => return None,
    };
    let key_salt = match random_bytes::<8>() {
        Some(b) => b,
        None => return None,
    };
    let hash = hash_2b(pw, &validation_salt, extra);
    let entry = pack_u_or_o(&hash, &validation_salt, &key_salt);
    let intermediate = hash_2b(pw, &key_salt, extra);
    let wrapped = aes_cbc_nopad_noiv(file_key, &intermediate);
    assert(entry@.take(32) =~= hash@);
    assert(entry@.subrange(32, 40) =~= validation_salt@);
    assert(entry@.subrange(40, 48) =~= key_salt@);
    Some((entry, wrapped))
}

/// Derive `/U` and `/UE` from the user password.
fn derive_user(pw: &[u8], file_key: &[u8; 32]) -> (res: Option<([u8; 48], [u8; 32])>)
    ensures
        res matches Some(r) ==> is_key_entry(pw@, Seq::empty(), file_key@, r.0@, r.1@),
{
    let empty: [u8; 0] = [];
    assert(empty@ =~= Seq::<u8>::empty());
    derive_entry(pw, file_key, &empty)
}

/// Derive `/O` and `/OE` from the owner password (the owner hashes also fold in
/// the 48-byte `/U`).
fn derive_owner(pw: &[u8], file_key: &[u8; 32], u: &[u8; 48]) -> (res: Option<([u8; 48], [u8; 32])>)
    ensures
        res matches Some(r) ==> is_key_entry(pw@, u@, file_key@, r.0@, r.1@),
{
    derive_entry(pw, file_key, u)
}

/// The plaintext 16-byte permission block fed to AES-ECB for `/Perms`.
fn perms_block(perms: Permissions) -> (res: Option<[u8; 16]>)
    ensures
        res matches Some(b) ==> exists|filler: Seq<u8>| filler.len() == 4 && b@ == perms_block_spec(perms, filler),
{
    let r = perms.to_p();
    let w = r as u32;
    assert((r as u32) as int == r as int + 0x1_0000_0000) by (bit_vector)
        requires r < 0i32;
    let filler = match random_bytes::<4>() {
        Some(b) => b,
        None => return None,
    };
    let mut b = [0u8; 16];
    b[0] = (w % 256) as u8;
    b[1] = ((w / 256) % 256) as u8;
    b[2] = ((w / 65536) % 256) as u8;
    b[3] = ((w / 16777216) % 256) as u8;
    b[4] = 255;
    b[5] = 255;
    b[6] = 255;
    b[7] = 255;
    b[8] = 84;
    b[9] = 97;
    b[10] = 100;
    b[11] = 98;
    b[12] = filler[0];
    b[13] = filler[1];
    b[14] = filler[2];
    b[15] = filler[3];
    assert(b@ =~= perms_block_spec(perms, filler@));
    Some(b)
}

/// Build the 16-byte `/Perms` value: AES-256-ECB of the permission block.
fn derive_perms(perms: Permissions, file_key: &[u8; 32]) -> (res: Option<[u8; 16]>)
    ensures
        res matches Some(p) ==> exists|filler: Seq<u8>| filler.len() == 4 && p@ == aes256_block(file_key@, #[trigger] perms_block_spec(perms, filler)),
{
    let block = match perms_block(perms) {
        Some(b) => b,
        None => return None,
    };
    let res = aes256_encrypt_block(file_key, &block);
    let ghost filler = choose|filler: Seq<u8>| filler.len() == 4 && block@ == perms_block_spec(perms, filler);
    assert(res@ == aes256_block(file_key@, perms_block_spec(perms, filler)));
    Some(res)
}

impl Keys {
    /// Run the V5/R6 key derivations (the revision-6 password hash and the
    /// U/UE/O/OE/Perms derivations) for `enc` under a fresh random file key;
    /// `None` when the OS random source fails.
    pub fn derive(enc: &Encryption) -> (res: Option<Keys>)
        ensures
            res matches Some(k) ==> keys_valid(*enc, k),
    {
        let file_key = match random_bytes::<32>() {
            Some(b) => b,
            None => return None,
        };
        let user_pw = enc.user_password.as_str().as_bytes();
        let owner_pw = match &enc.owner_password {
            Some(o) => o.as_str().as_bytes(),
            None => enc.user_password.as_str().as_bytes(),
        };
        let (u, ue) = match derive_user(user_pw, &file_key) {
            Some(r) => r,
            None => return None,
        };
        let (o, oe) = match derive_owner(owner_pw, &file_key, &u) {
            Some(r) => r,
            None => return None,
        };
        let perms = match derive_perms(enc.permissions, &file_key) {
            Some(p) => p,
            None => return None,
        };
        Some(Keys { file_key, u, ue, o, oe, perms })
    }
}


// ---------------------------------------------------------------------------
// the whole file
// ---------------------------------------------------------------------------

/// A `/Length` key occurs in `body` in a place no string span touches.
pub open spec fn length_outside_strings(body: Seq<u8>, spans: Seq<parse::SpanView>) -> bool {
    exists|a: int|
        #![trigger crate::bytes::matches_at(body, serialize::key_length(), a)]
        crate::bytes::matches_at(body, serialize::key_length(), a) && forall|j: int|
            0 <= j < spans.len() ==> a + 7 <= #[trigger] spans[j].start || spans[j].end <= a
}

/// An object the encryptor can handle: its strings lie in order inside the
/// body, and a stream object's `/Length` lies outside its strings.
pub open spec fn encryptable(o: parse::ObjectView) -> bool {
    &&& spans_fit(o.body, o.strings)
    &&& o.stream is Some ==> length_outside_strings(o.body, o.strings)
    &&& o.encrypted_stream is None
}

/// The files `encrypt_pdf` may produce for `input` and `enc`: the parsed objects,
/// each encrypted under the file key of key material valid for `enc`, written
/// with a 16-byte file identifier.
pub open spec fn is_encryption_of(input: Seq<u8>, enc: Encryption, out: Seq<u8>) -> bool {
    let objs = parse::objects_spec(input).unwrap();
    let (size, root, info) = parse::trailer_spec(input).unwrap();
    exists|k: Keys, id: Seq<u8>, enc_objs: Seq<parse::ObjectView>|
        {
            &&& id.len() == 16
            &&& keys_valid(enc, k)
            &&& enc_objs.len() == objs.len()
            &&& forall|i: int| 0 <= i < objs.len() ==> is_encrypted_object(k.file_key@, #[trigger] objs[i], enc_objs[i])
            &&& serialize::file_bytes(enc_objs, size, root, info, k.u@, k.ue@, k.o@, k.oe@, k.perms@, p_value(enc.permissions), id) == Some(out)
        }
}

/// The inputs `encrypt_pdf` accepts: a file of the shape this crate writes whose
/// objects are all encryptable and whose trailer leaves room for one more
/// object number.
pub open spec fn encrypt_input_ok(input: Seq<u8>) -> bool {
    &&& parse::parsable(input)
    &&& parse::trailer_spec(input).unwrap().0 < i32::MAX
    &&& forall|i: int| 0 <= i < parse::objects_spec(input).unwrap().len() ==> encryptable(#[trigger] parse::objects_spec(input).unwrap()[i])
}

proof fn lemma_find_some(h: Seq<u8>, n: Seq<u8>, from: int, a: int)
    requires
        0 <= from <= a,
        crate::bytes::matches_at(h, n, a),
    ensures
        crate::bytes::find_spec(h, n, from) is Some,
    decreases a - from,
{
    if !crate::bytes::matches_at(h, n, from) {
        lemma_find_some(h, n, from + 1, a);
    }
}

/// Splicing the strings keeps a `/Length` key that lies outside them.
proof fn lemma_splice_keeps_key(b: Seq<u8>, spans: Seq<parse::SpanView>, cts: Seq<Seq<u8>>, k: int, a: int)
    requires
        0 <= k <= spans.len(),
        cts.len() == spans.len(),
        forall|j: int| 0 <= j < k ==> 0 <= #[trigger] spans[j].start <= spans[j].end,
        forall|j: int| 0 <= j < k - 1 ==> #[trigger] spans[j].end <= spans[j + 1].start,
        k > 0 ==> spans[k - 1].end <= b.len(),
        crate::bytes::matches_at(b, serialize::key_length(), a),
        forall|j: int| 0 <= j < k ==> a + 7 <= #[trigger] spans[j].start || spans[j].end <= a,
    ensures
        exists|a2: int| crate::bytes::matches_at(splice_down(b, spans, cts, k), serialize::key_length(), a2),
    decreases k,
{
    let key = serialize::key_length();
    assert(key.len() == 7);
    if k == 0 {
        assert(crate::bytes::matches_at(splice_down(b, spans, cts, k), key, a));
    } else {
        let s = spans[k - 1];
        let h = serialize::hex_string_spec(cts[k - 1]);
        let b2 = b.take(s.start) + h + b.skip(s.end);
        if a + 7 <= s.start {
            assert(b2.subrange(a, a + 7) =~= b.subrange(a, a + 7));
            assert forall|j: int| 0 <= j < k - 1 implies a + 7 <= #[trigger] spans[j].start || spans[j].end <= a by {
            }
            if k > 1 {
                assert(spans[k - 2].end <= s.start);
            }
            lemma_splice_keeps_key(b2, spans, cts, k - 1, a);
        } else {
            assert(s.end <= a);
            let a2 = a - (s.end - s.start) + h.len();
            assert(b2.subrange(a2, a2 + 7) =~= b.subrange(a, a + 7));
            assert forall|j: int| 0 <= j < k - 1 implies a2 + 7 <= #[trigger] spans[j].start || spans[j].end <= a2 by {
                if j < k - 1 {
                    lemma_spans_ordered(spans, j, k - 1);
                }
            }
            if k > 1 {
                assert(spans[k - 2].end <= s.start);
            }
            lemma_splice_keeps_key(b2, spans, cts, k - 1, a2);
        }
        assert(splice_down(b, spans, cts, k) == splice_down(b2, spans, cts, k - 1));
    }
}

proof fn lemma_spans_ordered(spans: Seq<parse::SpanView>, j: int, m: int)
    requires
        0 <= j < m < spans.len(),
        forall|i: int| 0 <= i <= m ==> 0 <= #[trigger] spans[i].start <= spans[i].end,
        forall|i: int| 0 <= i < m ==> #[trigger] spans[i].end <= spans[i + 1].start,
    ensures
        spans[j].end <= spans[m].start,
    decreases m - j,
{
    if j + 1 < m {
        lemma_spans_ordered(spans, j + 1, m);
    }
}

proof fn lemma_objects_bytes_some(objs: Seq<parse::ObjectView>, k: int, out: Seq<u8>, offs: Seq<(i32, usize)>)
    requires
        0 <= k,
        forall|j: int| k <= j < objs.len() ==> serialize::object_bytes(#[trigger] objs[j]) is Some,
    ensures
        serialize::objects_bytes(objs, k, out, offs) is Some,
    decreases objs.len() - k,
{
    if k < objs.len() {
        let b = serialize::object_bytes(objs[k]).unwrap();
        lemma_objects_bytes_some(objs, k + 1, out + b, offs.push((objs[k].number as i32, out.len() as usize)));
    }
}

/// An encrypted encryptable object can be written.
proof fn lemma_encrypted_writable(key: Seq<u8>, before: parse::ObjectView, after: parse::ObjectView)
    requires
        encryptable(before),
        is_encrypted_object(key, before, after),
    ensures
        serialize::object_bytes(after) is Some,
{
    if let Some(st) = after.encrypted_stream {
        assert(before.stream is Some);
        let cts = choose|cts: Seq<Seq<u8>>|
            {
                &&& cts.len() == before.strings.len()
                &&& forall|k: int| 0 <= k < cts.len() ==> is_cbc_encryption(key, before.strings[k].bytes, #[trigger] cts[k])
                &&& after.body == splice_all(before.body, before.strings, cts)
            };
        let a = choose|a: int|
            #![trigger crate::bytes::matches_at(before.body, serialize::key_length(), a)]
            crate::bytes::matches_at(before.body, serialize::key_length(), a) && forall|j: int|
                0 <= j < before.strings.len() ==> a + 7 <= #[trigger] before.strings[j].start || before.strings[j].end <= a;
        let n = before.strings.len() as int;
        lemma_splice_keeps_key(before.body, before.strings, cts, n, a);
        let a2 = choose|a2: int| crate::bytes::matches_at(after.body, serialize::key_length(), a2);
        lemma_find_some(after.body, serialize::key_length(), 0, a2);
    }
}

/// Encrypt the finished PDF `input`: every literal/hex string and every stream
/// is replaced by its IV-prefixed AES-256-CBC ciphertext, and an `/Encrypt`
/// dictionary + file `/ID` are added. Object numbering is preserved; only
/// bodies and the xref/trailer change. `None` when the OS random source,
/// which the keys, salts and IVs are drawn from, fails.
pub fn encrypt_pdf(input: &[u8], enc: &Encryption) -> (res: Option<Vec<u8>>)
    requires
        encrypt_input_ok(input@),
    ensures
        res matches Some(out) ==> is_encryption_of(input@, *enc, out@),
{
    let doc = parse::Document::parse(input);
    let keys = match Keys::derive(enc) {
        Some(k) => k,
        None => return None,
    };
    let id = match random_bytes::<16>() {
        Some(b) => b,
        None => return None,
    };
    let mut objects = doc.objects;
    let ghost objs = parse::objects_view(objects@);
    let ghost mut enc_objs: Seq<parse::ObjectView> = Seq::empty();
    let mut i: usize = 0;
    while i < objects.len()
        invariant
            i <= objects@.len(),
            objs.len() == objects@.len(),
            forall|j: int| 0 <= j < objs.len() ==> encryptable(#[trigger] objs[j]),
            forall|j: int| i <= j < objs.len() ==> #[trigger] objects@[j]@ == objs[j],
            forall|j: int| 0 <= j < i ==> #[trigger] objects@[j]@ == enc_objs[j],
            enc_objs.len() == i,
            forall|j: int| 0 <= j < i ==> is_encrypted_object(keys.file_key@, #[trigger] objs[j], enc_objs[j]),
        decreases objects.len() - i,
    {
        assert(objects@[i as int]@ == objs[i as int]);
        if !encrypt_object(&mut objects[i], &keys.file_key) {
            return None;
        }
        proof {
            enc_objs = enc_objs.push(objects@[i as int]@);
        }
        i += 1;
    }
    proof {
        assert(parse::objects_view(objects@) =~= enc_objs);
        assert forall|j: int| 0 <= j < enc_objs.len() implies serialize::object_bytes(#[trigger] enc_objs[j]) is Some by {
            lemma_encrypted_writable(keys.file_key@, objs[j], enc_objs[j]);
        }
        lemma_objects_bytes_some(enc_objs, 0, serialize::lit_header(), Seq::empty());
    }
    let res = serialize::write(objects.as_slice(), doc.trailer, &keys, enc, &id);
    assert(id@.len() == 16);
    Some(res)
}


/// Whether the strings of `o` lie in order inside its body.
fn spans_fit_x(o: &parse::Object) -> (res: bool)
    ensures
        res == spans_fit(o@.body, o@.strings),
{
    let n = o.strings.len();
    let len = o.body.len();
    let ghost sv = o@.strings;
    assert(sv.len() == n);
    let mut k: usize = 0;
    while k < n
        invariant
            k <= n,
            n == sv.len(),
            sv == o@.strings,
            len == o@.body.len(),
            forall|j: int| 0 <= j < k ==> 0 <= #[trigger] sv[j].start <= sv[j].end <= len,
            forall|j: int| 0 <= j < k && j < n - 1 ==> #[trigger] sv[j].end <= sv[j + 1].start,
        decreases n - k,
    {
        let sp = &o.strings[k];
        assert(sv[k as int] == sp@);
        assert(sv[k as int].start == sp.start && sv[k as int].end == sp.end);
        if !(sp.start <= sp.end && sp.end <= len) {
            assert(!(0 <= sv[k as int].start <= sv[k as int].end <= len));
            return false;
        }
        if k + 1 < n {
            let nx = &o.strings[k + 1];
            assert(sv[k + 1] == nx@);
            assert(sv[k + 1].start == nx.start);
            if sp.end > nx.start {
                assert(!(sv[k as int].end <= sv[k as int + 1].start));
                return false;
            }
        }
        k += 1;
    }
    true
}

/// Whether every string of `spans` stays clear of the seven bytes at `a`.
fn clear_of_strings(spans: &Vec<parse::StringSpan>, a: usize) -> (res: bool)
    ensures
        res == (forall|j: int| 0 <= j < spans@.len() ==> a + 7 <= #[trigger] parse::spans_view(spans@)[j].start
            || parse::spans_view(spans@)[j].end <= a),
{
    let ghost sv = parse::spans_view(spans@);
    let mut k: usize = 0;
    while k < spans.len()
        invariant
            k <= spans@.len(),
            sv == parse::spans_view(spans@),
            forall|j: int| 0 <= j < k ==> a + 7 <= #[trigger] sv[j].start || sv[j].end <= a,
        decreases spans@.len() - k,
    {
        let sp = &spans[k];
        assert(sv[k as int] == sp@);
        assert(sv[k as int].start == sp.start && sv[k as int].end == sp.end);
        if !((sp.start >= 7 && a <= sp.start - 7) || sp.end <= a) {
            assert(!(a + 7 <= sv[k as int].start || sv[k as int].end <= a));
            return false;
        }
        k += 1;
    }
    true
}

/// Whether a `/Length` of `o`'s body lies outside its strings.
fn length_outside_strings_x(o: &parse::Object) -> (res: bool)
    ensures
        res == length_outside_strings(o@.body, o@.strings),
{
    let key: [u8; 7] = [47, 76, 101, 110, 103, 116, 104];
    assert(key@ =~= serialize::key_length());
    let n = o.body.len();
    let mut a: usize = 0;
    while a < n
        invariant
            a <= n,
            n == o@.body.len(),
            key@ == serialize::key_length(),
            forall|b: int| 0 <= b < a ==> !(crate::bytes::matches_at(o@.body, serialize::key_length(), b) && forall|j: int|
                0 <= j < o@.strings.len() ==> b + 7 <= #[trigger] o@.strings[j].start || o@.strings[j].end <= b),
        decreases n - a,
    {
        if crate::bytes::bytes_match_at(o.body.as_slice(), &key, a) && clear_of_strings(&o.strings, a) {
            return true;
        }
        a += 1;
    }
    assert forall|b: int| #[trigger] crate::bytes::matches_at(o@.body, serialize::key_length(), b) implies !(forall|j: int|
        0 <= j < o@.strings.len() ==> b + 7 <= #[trigger] o@.strings[j].start || o@.strings[j].end <= b) by {
        assert(0 <= b < n);
    }
    false
}

/// Whether the encryptor can handle `o`.
fn encryptable_x(o: &parse::Object) -> (res: bool)
    ensures
        res == encryptable(o@),
{
    spans_fit_x(o) && (o.stream.is_none() || length_outside_strings_x(o)) && o.encrypted_stream.is_none()
}

/// Whether `input` is a file [`encrypt_pdf`] accepts: one the reader parses,
/// whose objects the encryptor can all handle, and whose trailer leaves room
/// for one more object number.
pub fn is_encryptable_input(input: &[u8]) -> (res: bool)
    ensures
        res == encrypt_input_ok(input@),
{
    if !parse::is_parsable(input) {
        return false;
    }
    let doc = parse::Document::parse(input);
    if doc.trailer.size == i32::MAX {
        return false;
    }
    let ghost objs = parse::objects_spec(input@).unwrap();
    let mut i: usize = 0;
    while i < doc.objects.len()
        invariant
            i <= doc.objects@.len(),
            parse::objects_view(doc.objects@) == objs,
            objs == parse::objects_spec(input@).unwrap(),
            forall|j: int| 0 <= j < i ==> encryptable(#[trigger] objs[j]),
        decreases doc.objects@.len() - i,
    {
        assert(objs[i as int] == doc.objects@[i as int]@);
        if !encryptable_x(&doc.objects[i]) {
            return false;
        }
        i += 1;
    }
    true
}


/// The `/P` word with every bit in `bits` (given by value) read off: bit `n`
/// (1-based) of the unsigned word is `(w / 2^(n-1)) % 2`.
pub open spec fn p_bit(p: Permissions, value: int) -> bool {
    ((p_value(p) + 0x1_0000_0000) / value) % 2 == 1
}

/// Each permission controls its own fixed bit of `/P` (ISO 32000 Table 22):
/// print bit 3, modify bit 4, copy bit 5, annotate bit 6, fill forms bit 9,
/// accessibility bit 10, assemble bit 11, high-quality print bit 12; the
/// reserved bits 7, 8 and 13–32 are set and bits 1–2 clear; and `/P` is that
/// unsigned word read as a signed 32-bit integer.
pub proof fn permission_bits(p: Permissions)
    ensures
        p_bit(p, 4) == p.print,
        p_bit(p, 8) == p.modify,
        p_bit(p, 16) == p.copy,
        p_bit(p, 32) == p.annotate,
        p_bit(p, 256) == p.fill_forms,
        p_bit(p, 512) == p.accessibility,
        p_bit(p, 1024) == p.assemble,
        p_bit(p, 2048) == p.high_quality_print,
        !p_bit(p, 1) && !p_bit(p, 2),
        p_bit(p, 64) && p_bit(p, 128),
        forall|k: int| 12 <= k < 32 ==> #[trigger] p_bit(p, vstd::arithmetic::power2::pow2(k as nat) as int),
        i32::MIN <= p_value(p) < 0,
{
    let w = p_value(p) + 0x1_0000_0000;
    let low = flag(p.print, 4) + flag(p.copy, 16) + flag(p.modify, 8) + flag(p.annotate, 32) + flag(p.fill_forms, 256)
        + flag(p.accessibility, 512) + flag(p.assemble, 1024) + flag(p.high_quality_print, 2048);
    assert(w == 0xFFFF_F000 + 0xC0 + low);
    assert(0 <= low < 4096);
    assert forall|k: int| 12 <= k < 32 implies #[trigger] p_bit(p, vstd::arithmetic::power2::pow2(k as nat) as int) by {
        let m = vstd::arithmetic::power2::pow2(k as nat) as int;
        vstd::arithmetic::power2::lemma_pow2_pos(k as nat);
        lemma_high_bit(k, w);
    }
}

/// Every bit from 13 up of a word between `0xFFFF_F000` and `0xFFFF_FFFF` is set.
proof fn lemma_high_bit(k: int, w: int)
    requires
        12 <= k < 32,
        0xFFFF_F000 <= w <= 0xFFFF_FFFF,
    ensures
        (w / vstd::arithmetic::power2::pow2(k as nat) as int) % 2 == 1,
{
    let m = vstd::arithmetic::power2::pow2(k as nat) as int;
    vstd::arithmetic::power2::lemma2_to64();
    assert(m == 4096 || m == 8192 || m == 16384 || m == 32768 || m == 65536 || m == 131072 || m == 262144
        || m == 524288 || m == 1048576 || m == 2097152 || m == 4194304 || m == 8388608 || m == 16777216
        || m == 33554432 || m == 67108864 || m == 134217728 || m == 268435456 || m == 536870912
        || m == 1073741824 || m == 2147483648);
}

} // verus!
