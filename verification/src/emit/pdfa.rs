//! Archival (PDF/A-2b) text pieces: the XMP metadata packet declaring the
//! conformance level, kept consistent with the info dictionary, and the
//! deterministic trailer `/ID` derived from the document metadata (no clock,
//! no entropy, so identical inputs give identical bytes).
use vstd::prelude::*;
use crate::chars::{chars_of, push_chars, string_of};
use crate::emit::{effective_date, EmitOptions};

verus! {

// ---------------------------------------------------------------------------
// The file identifier
// ---------------------------------------------------------------------------
/// The FNV-1a offset basis.
pub const FNV_OFFSET: u64 = 0xcbf2_9ce4_8422_2325;

/// The FNV-1a prime.
pub const FNV_PRIME: u64 = 0x0000_0100_0000_01b3;

/// One FNV-1a step: mix in a byte, then multiply (wrapping).
pub open spec fn fnv_step(h: u64, b: u8) -> u64 {
    vstd::wrapping::u64_specs::wrapping_mul(h ^ (b as u64), FNV_PRIME)
}

/// The FNV-1a hash state after folding in `bytes`.
pub open spec fn fnv(h: u64, bytes: Seq<u8>) -> u64
    decreases bytes.len(),
{
    if bytes.len() == 0 {
        h
    } else {
        fnv_step(fnv(h, bytes.drop_last()), bytes.last())
    }
}

/// Fold `bytes` into the running FNV-1a hash.
pub fn fnv_bytes(hash: &mut u64, bytes: &[u8])
    ensures
        *final(hash) == fnv(*old(hash), bytes@),
{
    let ghost h0 = *hash;
    let mut i: usize = 0;
    while i < bytes.len()
        invariant
            i <= bytes@.len(),
            *hash == fnv(h0, bytes@.take(i as int)),
        decreases bytes.len() - i,
    {
        assert(bytes@.take(i + 1).drop_last() =~= bytes@.take(i as int));
        *hash = (*hash ^ (bytes[i] as u64)).wrapping_mul(FNV_PRIME);
        i += 1;
    }
    assert(bytes@.take(i as int) =~= bytes@);
}

/// The eight big-endian bytes of a 64-bit value.
pub open spec fn be8(v: u64) -> Seq<u8> {
    seq![
        (v >> 56u64) as u8,
        (v >> 48u64) as u8,
        (v >> 40u64) as u8,
        (v >> 32u64) as u8,
        (v >> 24u64) as u8,
        (v >> 16u64) as u8,
        (v >> 8u64) as u8,
        v as u8,
    ]
}

/// The eight big-endian bytes of `v`.
pub fn be_bytes(v: u64) -> (res: Vec<u8>)
    ensures
        res@ == be8(v),
{
    let out: Vec<u8> = vec![
        (v >> 56u64) as u8,
        (v >> 48u64) as u8,
        (v >> 40u64) as u8,
        (v >> 32u64) as u8,
        (v >> 24u64) as u8,
        (v >> 16u64) as u8,
        (v >> 8u64) as u8,
        v as u8,
    ];
    assert(out@ =~= be8(v));
    out
}

/// The UTF-8 bytes of an optional metadata field (empty when absent).
pub open spec fn field_bytes(f: Option<String>) -> Seq<u8> {
    match f {
        Some(s) => vstd::utf8::encode_utf8(s@),
        None => seq![],
    }
}

/// The hash state over the four text fields, each followed by a zero byte,
/// then the producer and the creation date's big-endian bytes.
pub open spec fn metadata_hash(opts: EmitOptions, producer: Seq<char>) -> u64 {
    let h1 = fnv(fnv(FNV_OFFSET, field_bytes(opts.title)), seq![0u8]);
    let h2 = fnv(fnv(h1, field_bytes(opts.author)), seq![0u8]);
    let h3 = fnv(fnv(h2, field_bytes(opts.subject)), seq![0u8]);
    let h4 = fnv(fnv(h3, field_bytes(opts.keywords)), seq![0u8]);
    let h5 = fnv(h4, vstd::utf8::encode_utf8(producer));
    fnv(h5, be8(effective_date(opts) as u64))
}

/// The 16-byte digest: the hash, then the hash folded over its own bytes.
pub open spec fn digest_spec(opts: EmitOptions, producer: Seq<char>) -> Seq<u8> {
    let h = metadata_hash(opts, producer);
    be8(h) + be8(fnv(h, be8(h)))
}

/// Fold an optional field and its zero terminator into the hash.
fn fold_field(hash: &mut u64, f: &Option<String>)
    ensures
        *final(hash) == fnv(fnv(*old(hash), field_bytes(*f)), seq![0u8]),
{
    match f {
        Some(s) => fnv_bytes(hash, s.as_str().as_bytes()),
        None => {
            let empty: Vec<u8> = Vec::new();
            fnv_bytes(hash, empty.as_slice());
            assert(empty@ =~= Seq::<u8>::empty());
        },
    }
    let zero: Vec<u8> = vec![0u8];
    assert(zero@ =~= seq![0u8]);
    fnv_bytes(hash, zero.as_slice());
}

/// A 16-byte FNV-1a-derived digest over the metadata that distinguishes one
/// document from another (`producer` is the producer string written into
/// the document). Pure and total: same inputs, same bytes.
pub fn metadata_digest(opts: &EmitOptions, producer: &str) -> (res: Vec<u8>)
    ensures
        res@ == digest_spec(*opts, producer@),
        res@.len() == 16,
{
    let mut hash: u64 = FNV_OFFSET;
    fold_field(&mut hash, &opts.title);
    fold_field(&mut hash, &opts.author);
    fold_field(&mut hash, &opts.subject);
    fold_field(&mut hash, &opts.keywords);
    fnv_bytes(&mut hash, producer.as_bytes());
    let date: i64 = match opts.creation_date {
        Some(d) => d,
        None => crate::emit::SENTINEL_DATE,
    };
    let db = be_bytes(date as u64);
    fnv_bytes(&mut hash, db.as_slice());
    let mut second = hash;
    let hb = be_bytes(hash);
    fnv_bytes(&mut second, hb.as_slice());
    let mut id = be_bytes(hash);
    let sb = be_bytes(second);
    let mut k: usize = 0;
    let ghost first = id@;
    while k < 8
        invariant
            k <= 8,
            sb@.len() == 8,
            id@ == first + sb@.take(k as int),
        decreases 8 - k,
    {
        assert(sb@.take(k + 1) =~= sb@.take(k as int).push(sb@[k as int]));
        id.push(sb[k]);
        k += 1;
    }
    assert(sb@.take(8) =~= sb@);
    id
}

/// A deterministic trailer `/ID` pair: both halves are the same 16-byte
/// digest of the document metadata.
pub fn file_id(opts: &EmitOptions, producer: &str) -> (res: (Vec<u8>, Vec<u8>))
    ensures
        res.0@ == digest_spec(*opts, producer@),
        res.1@ == res.0@,
{
    let digest = metadata_digest(opts, producer);
    let copy = digest.clone();
    assert(copy@ == digest@);
    (copy, digest)
}

// ---------------------------------------------------------------------------
// The XMP packet
// ---------------------------------------------------------------------------
/// What a character becomes in XML text: the five metacharacters as
/// entities, anything else itself.
pub open spec fn esc(c: char) -> Seq<char> {
    if c == '&' {
        seq!['&', 'a', 'm', 'p', ';']
    } else if c == '<' {
        seq!['&', 'l', 't', ';']
    } else if c == '>' {
        seq!['&', 'g', 't', ';']
    } else if c == '"' {
        seq!['&', 'q', 'u', 'o', 't', ';']
    } else if c == '\'' {
        seq!['&', 'a', 'p', 'o', 's', ';']
    } else {
        seq![c]
    }
}

/// XML-escaped text.
pub open spec fn escape_xml(s: Seq<char>) -> Seq<char>
    decreases s.len(),
{
    if s.len() == 0 {
        seq![]
    } else {
        escape_xml(s.drop_last()) + esc(s.last())
    }
}

/// Append `s` to `out`, escaping the five XML metacharacters.
pub fn push_escaped(out: &mut Vec<char>, s: &str)
    ensures
        final(out)@ == old(out)@ + escape_xml(s@),
{
    let cs = chars_of(s);
    let ghost before = out@;
    let mut i: usize = 0;
    while i < cs.len()
        invariant
            i <= cs@.len(),
            cs@ == s@,
            out@ == before + escape_xml(cs@.take(i as int)),
        decreases cs.len() - i,
    {
        assert(cs@.take(i + 1).drop_last() =~= cs@.take(i as int));
        let ch = cs[i];
        let e: Vec<char> = if ch == '&' {
            vec!['&', 'a', 'm', 'p', ';']
        } else if ch == '<' {
            vec!['&', 'l', 't', ';']
        } else if ch == '>' {
            vec!['&', 'g', 't', ';']
        } else if ch == '"' {
            vec!['&', 'q', 'u', 'o', 't', ';']
        } else if ch == '\'' {
            vec!['&', 'a', 'p', 'o', 's', ';']
        } else {
            vec![ch]
        };
        assert(e@ =~= esc(ch));
        push_chars(out, e.as_slice());
        assert(out@ =~= before + escape_xml(cs@.take(i + 1)));
        i += 1;
    }
    assert(cs@.take(i as int) =~= s@);
}

/// An optional property: `open`, the escaped value and `close`, or nothing.
pub open spec fn opt_part(v: Option<String>, open: Seq<char>, close: Seq<char>) -> Seq<char> {
    match v {
        Some(t) => open + escape_xml(t@) + close,
        None => seq![],
    }
}

/// Append an optional property.
fn push_opt(out: &mut Vec<char>, v: &Option<String>, open: &str, close: &str)
    ensures
        final(out)@ == old(out)@ + opt_part(*v, open@, close@),
{
    let ghost before = out@;
    if let Some(t) = v {
        let o = chars_of(open);
        push_chars(out, o.as_slice());
        push_escaped(out, t.as_str());
        let c = chars_of(close);
        push_chars(out, c.as_slice());
        assert(out@ =~= before + opt_part(*v, open@, close@));
    } else {
        assert(out@ =~= before + opt_part(*v, open@, close@));
    }
}

/// The `dc:title` property (a language alternative), omitted without a title.
pub open spec fn title_part(opts: EmitOptions) -> Seq<char> {
    opt_part(
        opts.title,
        "<dc:title><rdf:Alt><rdf:li xml:lang=\"x-default\">"@,
        "</rdf:li></rdf:Alt></dc:title>\n"@,
    )
}

/// The `dc:creator` property (an ordered list of one author).
pub open spec fn creator_part(opts: EmitOptions) -> Seq<char> {
    opt_part(
        opts.author,
        "<dc:creator><rdf:Seq><rdf:li>"@,
        "</rdf:li></rdf:Seq></dc:creator>\n"@,
    )
}

/// The `dc:description` property, mirroring the subject.
pub open spec fn description_part(opts: EmitOptions) -> Seq<char> {
    opt_part(
        opts.subject,
        "<dc:description><rdf:Alt><rdf:li xml:lang=\"x-default\">"@,
        "</rdf:li></rdf:Alt></dc:description>\n"@,
    )
}

/// The `pdf:Keywords` property.
pub open spec fn keywords_part(opts: EmitOptions) -> Seq<char> {
    opt_part(opts.keywords, "<pdf:Keywords>"@, "</pdf:Keywords>\n"@)
}

/// The create and modify dates, both the creation date.
pub open spec fn dates_part(date: Seq<char>) -> Seq<char> {
    "<xmp:CreateDate>"@ + date + "</xmp:CreateDate>\n<xmp:ModifyDate>"@ + date
        + "</xmp:ModifyDate>\n"@
}

/// The producer property.
pub open spec fn producer_part(producer: Seq<char>) -> Seq<char> {
    "<pdf:Producer>"@ + escape_xml(producer) + "</pdf:Producer>\n"@
}

/// The packet's opening: the `<?xpacket?>` envelope, the `<x:xmpmeta>` root
/// and one all-namespaces `<rdf:Description>`.
pub const XMP_HEAD: &'static str = "<?xpacket begin=\"\u{feff}\" id=\"W5M0MpCehiHzreSzNTczkc9d\"?>\n\
<x:xmpmeta xmlns:x=\"adobe:ns:meta/\">\n\
<rdf:RDF xmlns:rdf=\"http://www.w3.org/1999/02/22-rdf-syntax-ns#\">\n\
<rdf:Description rdf:about=\"\"\n\
xmlns:dc=\"http://purl.org/dc/elements/1.1/\"\n\
xmlns:xmp=\"http://ns.adobe.com/xap/1.0/\"\n\
xmlns:pdf=\"http://ns.adobe.com/pdf/1.3/\"\n\
xmlns:pdfaid=\"http://www.aiim.org/pdfa/ns/id/\">\n";

/// The packet's closing.
pub const XMP_TAIL: &'static str = "</rdf:Description>\n\
</rdf:RDF>\n\
</x:xmpmeta>\n\
<?xpacket end=\"w\"?>";

/// The conformance claim.
pub const PDFAID: &'static str = "<pdfaid:part>2</pdfaid:part>\n<pdfaid:conformance>B</pdfaid:conformance>\n";

/// The whole XMP packet for a document with the given creation timestamp
/// text and producer.
pub open spec fn packet_spec(opts: EmitOptions, date: Seq<char>, producer: Seq<char>) -> Seq<char> {
    XMP_HEAD@ + title_part(opts) + creator_part(opts) + description_part(opts) + dates_part(date)
        + producer_part(producer) + keywords_part(opts) + PDFAID@ + XMP_TAIL@
}

/// Build the XMP packet: title, creator and description when present, the
/// create/modify dates (both `date`, the XMP form of the creation date), the
/// producer, the keywords when present, and the PDF/A-2b claim.
pub fn xmp_packet(opts: &EmitOptions, date: &str, producer: &str) -> (res: String)
    ensures
        res@ == packet_spec(*opts, date@, producer@),
{
    let mut out = chars_of(XMP_HEAD);
    push_opt(
        &mut out,
        &opts.title,
        "<dc:title><rdf:Alt><rdf:li xml:lang=\"x-default\">",
        "</rdf:li></rdf:Alt></dc:title>\n",
    );
    push_opt(&mut out, &opts.author, "<dc:creator><rdf:Seq><rdf:li>", "</rdf:li></rdf:Seq></dc:creator>\n");
    push_opt(
        &mut out,
        &opts.subject,
        "<dc:description><rdf:Alt><rdf:li xml:lang=\"x-default\">",
        "</rdf:li></rdf:Alt></dc:description>\n",
    );
    let ghost before_dates = out@;
    let a = chars_of("<xmp:CreateDate>");
    push_chars(&mut out, a.as_slice());
    let d = chars_of(date);
    push_chars(&mut out, d.as_slice());
    let b = chars_of("</xmp:CreateDate>\n<xmp:ModifyDate>");
    push_chars(&mut out, b.as_slice());
    push_chars(&mut out, d.as_slice());
    let c = chars_of("</xmp:ModifyDate>\n");
    push_chars(&mut out, c.as_slice());
    assert(out@ =~= before_dates + dates_part(date@));
    let ghost before_producer = out@;
    let p1 = chars_of("<pdf:Producer>");
    push_chars(&mut out, p1.as_slice());
    push_escaped(&mut out, producer);
    let p2 = chars_of("</pdf:Producer>\n");
    push_chars(&mut out, p2.as_slice());
    assert(out@ =~= before_producer + producer_part(producer@));
    push_opt(&mut out, &opts.keywords, "<pdf:Keywords>", "</pdf:Keywords>\n");
    let id = chars_of(PDFAID);
    push_chars(&mut out, id.as_slice());
    let tail = chars_of(XMP_TAIL);
    push_chars(&mut out, tail.as_slice());
    assert(out@ =~= packet_spec(*opts, date@, producer@));
    string_of(out.as_slice())
}

// ---------------------------------------------------------------------------
// Laws
// ---------------------------------------------------------------------------
/// Escaped text holds none of the raw markup characters `<`, `>`, `"`, `'`.
pub proof fn escaped_text_has_no_markup(s: Seq<char>)
    ensures
        forall|i: int|
            0 <= i < escape_xml(s).len() ==> {
                let c = #[trigger] escape_xml(s)[i];
                c != '<' && c != '>' && c != '"' && c != '\''
            },
    decreases s.len(),
{
    if s.len() > 0 {
        escaped_text_has_no_markup(s.drop_last());
        let p = escape_xml(s.drop_last());
        let e = esc(s.last());
        assert(escape_xml(s) == p + e);
        assert forall|i: int| 0 <= i < escape_xml(s).len() implies {
            let c = #[trigger] escape_xml(s)[i];
            c != '<' && c != '>' && c != '"' && c != '\''
        } by {
            if i < p.len() {
                assert(escape_xml(s)[i] == p[i]);
            } else {
                assert(escape_xml(s)[i] == e[i - p.len()]);
            }
        }
    }
}

/// Text without markup characters or `&` is left as it is.
pub proof fn plain_text_is_not_escaped(s: Seq<char>)
    requires
        forall|i: int|
            0 <= i < s.len() ==> {
                let c = #[trigger] s[i];
                c != '&' && c != '<' && c != '>' && c != '"' && c != '\''
            },
    ensures
        escape_xml(s) == s,
    decreases s.len(),
{
    if s.len() > 0 {
        let d = s.drop_last();
        assert forall|i: int| 0 <= i < d.len() implies {
            let c = #[trigger] d[i];
            c != '&' && c != '<' && c != '>' && c != '"' && c != '\''
        } by {
            assert(d[i] == s[i]);
        }
        plain_text_is_not_escaped(d);
        let c = s[s.len() - 1];
        assert(c != '&' && c != '<' && c != '>' && c != '"' && c != '\'');
        assert(esc(c) =~= seq![c]);
        assert(d.push(s.last()) =~= s);
    }
}

} // verus!
