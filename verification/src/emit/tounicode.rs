//! `/ToUnicode` CMap construction for tagged PDF: a CMap mapping each 2-byte
//! glyph code shown under `Identity-H` to its Unicode text, so assistive
//! technology can recover the text behind each glyph.
use vstd::prelude::*;
use crate::chars::{chars_of, decimal_chars, decimal_text, push_chars, string_of};
use rustybuzz::ttf_parser::Face;

verus! {

/// The CMap prologue.
pub const HEADER: &'static str = "/CIDInit /ProcSet findresource begin\n\
12 dict begin\n\
begincmap\n\
/CIDSystemInfo <</Registry (Adobe) /Ordering (UCS) /Supplement 0>> def\n\
/CMapName /Adobe-Identity-UCS def\n\
/CMapType 2 def\n\
1 begincodespacerange\n\
<0000> <FFFF>\n\
endcodespacerange\n";

/// The CMap epilogue.
pub const FOOTER: &'static str = "endcmap\n\
CMapName currentdict /CMap defineresource pop\n\
end\n\
end\n";

// ---------------------------------------------------------------------------
// The code table
// ---------------------------------------------------------------------------
/// `(code, cp)` added to a code-ordered table: a new code goes in its place,
/// an existing one keeps the smaller codepoint.
pub open spec fn ins(t: Seq<(u16, u32)>, c: u16, p: u32) -> Seq<(u16, u32)>
    decreases t.len(),
{
    if t.len() == 0 {
        seq![(c, p)]
    } else if t[0].0 == c {
        if p < t[0].1 {
            seq![(c, p)] + t.drop_first()
        } else {
            t
        }
    } else if c < t[0].0 {
        seq![(c, p)] + t
    } else {
        seq![t[0]] + ins(t.drop_first(), c, p)
    }
}

/// The code table of a list of pairs: ascending codes, one entry per code,
/// each with the smallest codepoint given for it.
pub open spec fn table(pairs: Seq<(u16, u32)>) -> Seq<(u16, u32)>
    decreases pairs.len(),
{
    if pairs.len() == 0 {
        seq![]
    } else {
        ins(table(pairs.drop_last()), pairs.last().0, pairs.last().1)
    }
}

/// The smallest codepoint given for `code`, if any.
pub open spec fn min_cp(pairs: Seq<(u16, u32)>, code: u16) -> Option<u32>
    decreases pairs.len(),
{
    if pairs.len() == 0 {
        None
    } else {
        let prev = min_cp(pairs.drop_last(), code);
        if pairs.last().0 == code {
            match prev {
                Some(q) => Some(
                    if pairs.last().1 < q {
                        pairs.last().1
                    } else {
                        q
                    },
                ),
                None => Some(pairs.last().1),
            }
        } else {
            prev
        }
    }
}

/// The codepoint a table holds for `code`.
pub open spec fn lookup(t: Seq<(u16, u32)>, code: u16) -> Option<u32>
    decreases t.len(),
{
    if t.len() == 0 {
        None
    } else if t[0].0 == code {
        Some(t[0].1)
    } else {
        lookup(t.drop_first(), code)
    }
}

/// Strictly ascending codes.
pub open spec fn ascending(t: Seq<(u16, u32)>) -> bool {
    forall|i: int, j: int| 0 <= i < j < t.len() ==> t[i].0 < t[j].0
}

/// Every code of `t` is above `c`.
pub open spec fn all_above(t: Seq<(u16, u32)>, c: u16) -> bool {
    forall|i: int| 0 <= i < t.len() ==> c < t[i].0
}

proof fn lemma_ins(t: Seq<(u16, u32)>, c: u16, p: u32, below: u16)
    requires
        ascending(t),
    ensures
        ascending(ins(t, c, p)),
        all_above(t, below) && below < c ==> all_above(ins(t, c, p), below),
        forall|k: u16|
            #[trigger] lookup(ins(t, c, p), k) == if k == c {
                match lookup(t, c) {
                    Some(q) => Some(
                        if p < q {
                            p
                        } else {
                            q
                        },
                    ),
                    None => Some(p),
                }
            } else {
                lookup(t, k)
            },
    decreases t.len(),
{
    if t.len() == 0 {
        let r = ins(t, c, p);
        assert(r =~= seq![(c, p)]);
        assert(r.drop_first() =~= Seq::<(u16, u32)>::empty());
        assert forall|k: u16| #[trigger] lookup(r, k) == (if k == c { Some(p) } else { None }) by {
            assert(lookup(r.drop_first(), k) is None);
        }
    } else if t[0].0 == c {
        let r = ins(t, c, p);
        assert(r.drop_first() =~= t.drop_first());
        assert forall|k: u16| k != c implies #[trigger] lookup(t.drop_first(), k) == lookup(t, k) by {}
        lemma_lookup_absent(t.drop_first(), c);
    } else if c < t[0].0 {
        let r = ins(t, c, p);
        assert(r.drop_first() =~= t);
        lemma_lookup_absent(t, c);
    } else {
        let rest = t.drop_first();
        assert(ascending(rest)) by {
            assert forall|i: int, j: int| 0 <= i < j < rest.len() implies rest[i].0 < rest[j].0 by {
                assert(rest[i] == t[i + 1] && rest[j] == t[j + 1]);
            }
        }
        assert(all_above(rest, t[0].0)) by {
            assert forall|i: int| 0 <= i < rest.len() implies t[0].0 < rest[i].0 by {
                assert(rest[i] == t[i + 1]);
            }
        }
        lemma_ins(rest, c, p, t[0].0);
        if all_above(t, below) && below < c {
            assert(all_above(rest, below)) by {
                assert forall|i: int| 0 <= i < rest.len() implies below < rest[i].0 by {
                    assert(rest[i] == t[i + 1]);
                }
            }
            lemma_ins(rest, c, p, below);
        }
        let r = ins(t, c, p);
        let ir = ins(rest, c, p);
        assert(r =~= seq![t[0]] + ir);
        assert(r.drop_first() =~= ir);
        assert(ascending(r)) by {
            assert forall|i: int, j: int| 0 <= i < j < r.len() implies r[i].0 < r[j].0 by {
                if i > 0 {
                    assert(r[i] == ir[i - 1] && r[j] == ir[j - 1]);
                } else {
                    assert(r[j] == ir[j - 1]);
                }
            }
        }
        if all_above(t, below) && below < c {
            assert forall|i: int| 0 <= i < r.len() implies below < r[i].0 by {
                if i > 0 {
                    assert(r[i] == ir[i - 1]);
                }
            }
        }
    }
}

/// A code below every code of an ascending table is absent from it.
proof fn lemma_lookup_absent(t: Seq<(u16, u32)>, c: u16)
    requires
        ascending(t),
        all_above(t, c) || (t.len() > 0 && t[0].0 == c),
    ensures
        all_above(t, c) ==> lookup(t, c) is None,
        t.len() > 0 && t[0].0 == c ==> lookup(t.drop_first(), c) is None,
    decreases t.len(),
{
    if t.len() > 0 {
        let rest = t.drop_first();
        assert(ascending(rest)) by {
            assert forall|i: int, j: int| 0 <= i < j < rest.len() implies rest[i].0 < rest[j].0 by {
                assert(rest[i] == t[i + 1] && rest[j] == t[j + 1]);
            }
        }
        assert(all_above(rest, c)) by {
            assert forall|i: int| 0 <= i < rest.len() implies c < rest[i].0 by {
                assert(rest[i] == t[i + 1]);
                assert(t[0].0 < t[i + 1].0);
            }
        }
        lemma_lookup_absent(rest, c);
    }
}

/// The code table is in strictly ascending code order, and holds for each
/// code exactly the smallest codepoint the pairs give for it (and nothing
/// for codes they do not mention).
pub proof fn table_is_sorted_minimal(pairs: Seq<(u16, u32)>)
    ensures
        ascending(table(pairs)),
        forall|k: u16| #[trigger] lookup(table(pairs), k) == min_cp(pairs, k),
    decreases pairs.len(),
{
    if pairs.len() > 0 {
        table_is_sorted_minimal(pairs.drop_last());
        lemma_ins(table(pairs.drop_last()), pairs.last().0, pairs.last().1, 0);
    }
}

/// Insert `(c, p)` into an ascending table in place.
fn insert_pair(t: &mut Vec<(u16, u32)>, c: u16, p: u32)
    requires
        ascending(old(t)@),
    ensures
        final(t)@ == ins(old(t)@, c, p),
        ascending(final(t)@),
{
    proof {
        lemma_ins(t@, c, p, 0);
    }
    let ghost t0 = t@;
    let mut i: usize = 0;
    assert(t0.skip(0) =~= t0);
    assert(t0.take(0) + ins(t0.skip(0), c, p) =~= ins(t0, c, p));
    while i < t.len() && t[i].0 < c
        invariant
            i <= t@.len(),
            t@ == t0,
            ascending(t0),
            ins(t0, c, p) == t0.take(i as int) + ins(t0.skip(i as int), c, p),
        decreases t.len() - i,
    {
        let ghost s = t0.skip(i as int);
        assert(s.drop_first() =~= t0.skip(i + 1));
        assert(ins(s, c, p) == seq![s[0]] + ins(s.drop_first(), c, p));
        assert(t0.take(i + 1) =~= t0.take(i as int).push(t0[i as int]));
        assert(t0.take(i as int) + (seq![s[0]] + ins(t0.skip(i + 1), c, p)) =~= t0.take(i + 1) + ins(
            t0.skip(i + 1),
            c,
            p,
        ));
        i += 1;
    }
    let ghost s = t0.skip(i as int);
    if i < t.len() && t[i].0 == c {
        if p < t[i].1 {
            t.set(i, (c, p));
            assert(ins(s, c, p) =~= seq![(c, p)] + s.drop_first());
            assert(t@ =~= t0.take(i as int) + ins(s, c, p));
        } else {
            assert(t@ =~= t0.take(i as int) + s);
        }
    } else {
        let at_end = i == t.len();
        t.insert(i, (c, p));
        proof {
            if !at_end {
                assert(ins(s, c, p) =~= seq![(c, p)] + s);
            } else {
                assert(s.len() == 0);
            }
        }
        assert(t@ =~= t0.take(i as int) + ins(s, c, p));
    }
}

/// The code table of a list of pairs.
pub fn sorted_pairs(pairs: &[(u16, u32)]) -> (res: Vec<(u16, u32)>)
    ensures
        res@ == table(pairs@),
        ascending(res@),
{
    let mut t: Vec<(u16, u32)> = Vec::new();
    let mut k: usize = 0;
    while k < pairs.len()
        invariant
            k <= pairs@.len(),
            t@ == table(pairs@.take(k as int)),
            ascending(t@),
        decreases pairs.len() - k,
    {
        assert(pairs@.take(k + 1).drop_last() =~= pairs@.take(k as int));
        let (c, p) = pairs[k];
        insert_pair(&mut t, c, p);
        k += 1;
    }
    assert(pairs@.take(k as int) =~= pairs@);
    t
}

// ---------------------------------------------------------------------------
// The text
// ---------------------------------------------------------------------------
/// The uppercase hexadecimal digit for a value below 16.
pub open spec fn hex_upper(d: int) -> char {
    if d < 10 {
        (48 + d) as char
    } else {
        (55 + d) as char
    }
}

/// Four uppercase hexadecimal digits of a 16-bit value.
pub open spec fn hex4_spec(v: int) -> Seq<char> {
    seq![
        hex_upper((v / 4096) % 16),
        hex_upper((v / 256) % 16),
        hex_upper((v / 16) % 16),
        hex_upper(v % 16),
    ]
}

/// The hexadecimal digit of `d` (below 16).
fn hex_char(d: u16) -> (res: char)
    requires
        d < 16,
    ensures
        res == hex_upper(d as int),
{
    if d < 10 {
        ((48 + d) as u8) as char
    } else {
        ((55 + d) as u8) as char
    }
}

/// Four uppercase hexadecimal digits of `v`, as `{v:04X}` writes them.
pub fn hex4(v: u16) -> (res: Vec<char>)
    ensures
        res@ == hex4_spec(v as int),
{
    let mut out: Vec<char> = Vec::new();
    out.push(hex_char((v / 4096) % 16));
    out.push(hex_char((v / 256) % 16));
    out.push(hex_char((v / 16) % 16));
    out.push(hex_char(v % 16));
    assert(out@ =~= hex4_spec(v as int));
    out
}

/// The UTF-16 code units of a codepoint: itself inside the basic plane, a
/// surrogate pair above it, and U+FFFD for a value that is no Unicode scalar.
pub open spec fn units_spec(cp: u32) -> Seq<u16> {
    if cp < 0xD800 {
        seq![cp as u16]
    } else if cp < 0xE000 {
        seq![0xFFFDu16]
    } else if cp < 0x10000 {
        seq![cp as u16]
    } else if cp <= 0x10FFFF {
        seq![(0xD800 + (cp - 0x10000) / 1024) as u16, (0xDC00 + (cp - 0x10000) % 1024) as u16]
    } else {
        seq![0xFFFDu16]
    }
}

/// The UTF-16 code units for a codepoint (a surrogate pair above the basic
/// plane), U+FFFD for an invalid scalar so the CMap is always well-formed.
pub fn char_units(cp: u32) -> (res: Vec<u16>)
    ensures
        res@ == units_spec(cp),
{
    if cp < 0xD800 {
        vec![cp as u16]
    } else if cp < 0xE000 {
        vec![0xFFFD]
    } else if cp < 0x10000 {
        vec![cp as u16]
    } else if cp <= 0x10FFFF {
        let v = cp - 0x10000;
        vec![(0xD800 + v / 1024) as u16, (0xDC00 + v % 1024) as u16]
    } else {
        vec![0xFFFD]
    }
}

/// The hexadecimal digits of a list of code units, four each.
pub open spec fn units_hex(us: Seq<u16>) -> Seq<char>
    decreases us.len(),
{
    if us.len() == 0 {
        seq![]
    } else {
        units_hex(us.drop_last()) + hex4_spec(us.last() as int)
    }
}

/// One `<src> <dst>` line: the 2-byte code and its UTF-16BE destination.
pub open spec fn entry_text(code: u16, cp: u32) -> Seq<char> {
    seq!['<'] + hex4_spec(code as int) + seq!['>', ' ', '<'] + units_hex(units_spec(cp)) + seq![
        '>',
        '\n',
    ]
}

/// The lines of a run of entries.
pub open spec fn entries_text(s: Seq<(u16, u32)>) -> Seq<char>
    decreases s.len(),
{
    if s.len() == 0 {
        seq![]
    } else {
        entries_text(s.drop_last()) + entry_text(s.last().0, s.last().1)
    }
}

/// The entries in `bfchar` blocks of at most 100 each, every block headed by
/// its size.
pub open spec fn blocks_text(s: Seq<(u16, u32)>) -> Seq<char>
    decreases s.len(),
{
    if s.len() == 0 {
        seq![]
    } else {
        let n: int = if s.len() < 100 {
            s.len() as int
        } else {
            100
        };
        decimal_text(n as nat) + " beginbfchar\n"@ + entries_text(s.take(n)) + "endbfchar\n"@
            + blocks_text(s.skip(n))
    }
}

/// Append one entry line.
pub fn write_entry(out: &mut Vec<char>, code: u16, cp: u32)
    ensures
        final(out)@ == old(out)@ + entry_text(code, cp),
{
    let ghost before = out@;
    out.push('<');
    let h = hex4(code);
    push_chars(out, h.as_slice());
    out.push('>');
    out.push(' ');
    out.push('<');
    let units = char_units(cp);
    let ghost mid = out@;
    let mut k: usize = 0;
    while k < units.len()
        invariant
            k <= units@.len(),
            units@ == units_spec(cp),
            out@ == mid + units_hex(units@.take(k as int)),
        decreases units.len() - k,
    {
        assert(units@.take(k + 1).drop_last() =~= units@.take(k as int));
        let hu = hex4(units[k]);
        push_chars(out, hu.as_slice());
        k += 1;
    }
    assert(units@.take(k as int) =~= units@);
    out.push('>');
    out.push('\n');
    assert(out@ =~= before + entry_text(code, cp));
}

/// Append the `bfchar` blocks, at most 100 entries each.
pub fn write_bfchars(out: &mut Vec<char>, pairs: &[(u16, u32)])
    ensures
        final(out)@ == old(out)@ + blocks_text(pairs@),
{
    let ghost before = out@;
    let begin = chars_of(" beginbfchar\n");
    let end = chars_of("endbfchar\n");
    let mut start: usize = 0;
    assert(pairs@.skip(0) =~= pairs@);
    assert(before + blocks_text(pairs@) =~= out@ + blocks_text(pairs@.skip(0)));
    while start < pairs.len()
        invariant
            start <= pairs@.len(),
            begin@ == " beginbfchar\n"@,
            end@ == "endbfchar\n"@,
            before + blocks_text(pairs@) == out@ + blocks_text(pairs@.skip(start as int)),
        decreases pairs.len() - start,
    {
        let ghost rest = pairs@.skip(start as int);
        let left = pairs.len() - start;
        let n: usize = if left < 100 {
            left
        } else {
            100
        };
        let ghost block_start = out@;
        let d = decimal_chars(n);
        push_chars(out, d.as_slice());
        push_chars(out, begin.as_slice());
        let ghost entries_start = out@;
        let mut k: usize = 0;
        while k < n
            invariant
                k <= n,
                start + n <= pairs@.len(),
                rest == pairs@.skip(start as int),
                out@ == entries_start + entries_text(rest.take(k as int)),
            decreases n - k,
        {
            assert(rest.take(k + 1).drop_last() =~= rest.take(k as int));
            assert(rest[k as int] == pairs@[start + k]);
            assert(start + k < pairs@.len());
            assert(pairs@.len() == pairs.len());
            let (code, cp) = pairs[start + k];
            write_entry(out, code, cp);
            k += 1;
        }
        push_chars(out, end.as_slice());
        assert(rest.skip(n as int) =~= pairs@.skip(start + n));
        assert(out@ + blocks_text(pairs@.skip(start + n)) =~= block_start + blocks_text(rest));
        start += n;
    }
    assert(pairs@.skip(start as int).len() == 0);
    assert(out@ + blocks_text(pairs@.skip(start as int)) =~= out@);
}

/// The whole `/ToUnicode` CMap text for a list of pairs.
pub open spec fn cmap_text(pairs: Seq<(u16, u32)>) -> Seq<char> {
    HEADER@ + blocks_text(table(pairs)) + FOOTER@
}

/// Build a `/ToUnicode` CMap stream body from `(code, codepoint)` pairs: one
/// entry per code in ascending order, each with the smallest codepoint given
/// for it, in `bfchar` blocks of at most 100 entries. An empty mapping still
/// yields a structurally valid CMap.
pub fn build(pairs: &[(u16, u32)]) -> (res: String)
    ensures
        res@ == cmap_text(pairs@),
{
    let sorted = sorted_pairs(pairs);
    let mut out = chars_of(HEADER);
    write_bfchars(&mut out, sorted.as_slice());
    let f = chars_of(FOOTER);
    push_chars(&mut out, f.as_slice());
    string_of(out.as_slice())
}

// ---------------------------------------------------------------------------
// Laws
// ---------------------------------------------------------------------------
/// The code units round-trip: a basic-plane scalar is its own unit, and a
/// supplementary one becomes a high/low surrogate pair that decodes back to
/// it.
pub proof fn units_decode_back(cp: u32)
    requires
        cp < 0xD800 || (0xE000 <= cp <= 0x10FFFF),
    ensures
        cp < 0x10000 ==> units_spec(cp) == seq![cp as u16],
        cp >= 0x10000 ==> ({
            let u = units_spec(cp);
            &&& u.len() == 2
            &&& 0xD800 <= u[0] < 0xDC00
            &&& 0xDC00 <= u[1] < 0xE000
            &&& 0x10000 + (u[0] - 0xD800) * 1024 + (u[1] - 0xDC00) == cp
        }),
{
    if cp >= 0x10000 {
        let v = cp - 0x10000;
        assert(v / 1024 < 1024) by (nonlinear_arith)
            requires
                0 <= v <= 0xFFFFF,
        ;
        assert(v == (v / 1024) * 1024 + v % 1024) by (nonlinear_arith);
    }
}


// ---------------------------------------------------------------------------
// Reversing a font's cmap
// ---------------------------------------------------------------------------
/// A font's `cmap` subtables as the font crate reads them from the font
/// bytes and the face index: for each subtable in table order, whether it is
/// a Unicode subtable, and each codepoint it lists (ascending) with the glyph
/// it maps that codepoint to; `None` when the bytes are not a font face.
pub uninterp spec fn cmap_subtables(data: Seq<u8>, index: u32) -> Option<Seq<(bool, Seq<(u32, Option<u16>)>)>>;

/// The view of the subtables read out of a font.
pub open spec fn subtables_view(v: Seq<(bool, Vec<(u32, Option<u16>)>)>) -> Seq<(bool, Seq<(u32, Option<u16>)>)> {
    v.map_values(|t: (bool, Vec<(u32, Option<u16>)>)| (t.0, t.1@))
}

/// `ttf_parser::Face::parse`, then for each subtable of its `cmap` (none
/// without one) `Subtable::is_unicode` and, over `Subtable::codepoints`,
/// each codepoint with its `Subtable::glyph_index`.
#[verifier::external_body]
fn font_cmap(data: &[u8], index: u32) -> (res: Option<Vec<(bool, Vec<(u32, Option<u16>)>)>>)
    ensures
        match res {
            Some(v) => cmap_subtables(data@, index) == Some(subtables_view(v@)),
            None => cmap_subtables(data@, index) is None,
        },
{
    let face = match Face::parse(data, index) {
        Ok(f) => f,
        Err(_) => return None,
    };
    let mut out = Vec::new();
    if let Some(cmap) = face.tables().cmap {
        for sub in cmap.subtables {
            let mut cps: Vec<u32> = Vec::new();
            sub.codepoints(|cp| cps.push(cp));
            out.push((sub.is_unicode(), cps.iter().map(|&cp| (cp, sub.glyph_index(cp).map(|g| g.0))).collect()));
        }
    }
    Some(out)
}

/// The mapped `(codepoint, glyph)` pairs of one subtable, in its order.
pub open spec fn mapped_pairs(cps: Seq<(u32, Option<u16>)>) -> Seq<(u32, u16)>
    decreases cps.len(),
{
    if cps.len() == 0 {
        seq![]
    } else {
        mapped_pairs(cps.drop_last()) + match cps.last().1 {
            Some(g) => seq![(cps.last().0, g)],
            None => seq![],
        }
    }
}

/// The walk over a font's Unicode subtables: their mapped pairs, subtable
/// after subtable.
pub open spec fn unicode_walk(subs: Seq<(bool, Seq<(u32, Option<u16>)>)>) -> Seq<(u32, u16)>
    decreases subs.len(),
{
    if subs.len() == 0 {
        seq![]
    } else {
        unicode_walk(subs.drop_last()) + if subs.last().0 {
            mapped_pairs(subs.last().1)
        } else {
            seq![]
        }
    }
}

/// The first codepoint the walk maps to glyph `g`.
pub open spec fn first_cp(walk: Seq<(u32, u16)>, g: u16) -> Option<u32>
    decreases walk.len(),
{
    if walk.len() == 0 {
        None
    } else {
        match first_cp(walk.drop_last(), g) {
            Some(c) => Some(c),
            None => if walk.last().1 == g {
                Some(walk.last().0)
            } else {
                None
            },
        }
    }
}

/// The glyphs below `n` that the walk maps, ascending, each with the first
/// codepoint mapped to it.
pub open spec fn first_pairs_below(walk: Seq<(u32, u16)>, n: int) -> Seq<(u16, u32)>
    decreases n,
{
    if n <= 0 {
        seq![]
    } else {
        first_pairs_below(walk, n - 1) + match first_cp(walk, (n - 1) as u16) {
            Some(c) => seq![((n - 1) as u16, c)],
            None => seq![],
        }
    }
}

/// Every glyph the walk maps, ascending, each with the first codepoint the
/// walk maps to it.
pub open spec fn first_per_glyph_spec(walk: Seq<(u32, u16)>) -> Seq<(u16, u32)> {
    first_pairs_below(walk, 0x10000)
}

/// Keep the first codepoint the walk maps to each glyph, glyphs ascending.
/// The pairs are gathered in a table indexed by glyph id (one slot per
/// possible `u16`), so reading the filled slots out in index order yields
/// each glyph once, in ascending order, with no ordered map needed.
pub fn first_per_glyph(walk: &[(u32, u16)]) -> (res: Vec<(u16, u32)>)
    ensures
        res@ == first_per_glyph_spec(walk@),
{
    let mut first: Vec<Option<u32>> = Vec::new();
    while first.len() < 0x10000
        invariant
            first@.len() <= 0x10000,
            forall|g: int| 0 <= g < first@.len() ==> #[trigger] first@[g] is None,
        decreases 0x10000 - first.len(),
    {
        first.push(None);
    }
    assert(walk@.take(0) =~= Seq::<(u32, u16)>::empty());
    let mut i: usize = 0;
    while i < walk.len()
        invariant
            i <= walk@.len(),
            first@.len() == 0x10000,
            forall|g: int| 0 <= g < 0x10000 ==> #[trigger] first@[g] == first_cp(walk@.take(i as int), g as u16),
        decreases walk.len() - i,
    {
        let (cp, g) = walk[i];
        assert(walk@.take(i + 1).drop_last() =~= walk@.take(i as int));
        assert(walk@.take(i + 1).last() == (cp, g));
        let ghost before = first@;
        if first[g as usize].is_none() {
            first.set(g as usize, Some(cp));
        }
        assert forall|h: int| 0 <= h < 0x10000 implies #[trigger] first@[h] == first_cp(walk@.take(i + 1), h as u16) by {
            assert(before[h] == first_cp(walk@.take(i as int), h as u16));
            if h != g as int {
                assert(h as u16 != g);
            }
        }
        i += 1;
    }
    assert(walk@.take(i as int) =~= walk@);
    let mut out: Vec<(u16, u32)> = Vec::new();
    let mut k: usize = 0;
    while k < 0x10000
        invariant
            k <= 0x10000,
            first@.len() == 0x10000,
            forall|g: int| 0 <= g < 0x10000 ==> #[trigger] first@[g] == first_cp(walk@, g as u16),
            out@ == first_pairs_below(walk@, k as int),
        decreases 0x10000 - k,
    {
        assert(first@[k as int] == first_cp(walk@, k as u16));
        match first[k] {
            Some(c) => {
                out.push((k as u16, c));
            },
            None => {},
        }
        k += 1;
    }
    out
}

/// The glyph → codepoint pairs a font's Unicode `cmap` gives: each glyph it
/// maps, ascending, with the first codepoint mapped to it (subtables in
/// order, each ascending); `None` when the bytes are not a font face.
pub fn reverse_cmap(data: &[u8], index: u32) -> (res: Option<Vec<(u16, u32)>>)
    ensures
        match res {
            Some(v) => cmap_subtables(data@, index) matches Some(subs) && v@ == first_per_glyph_spec(
                unicode_walk(subs),
            ),
            None => cmap_subtables(data@, index) is None,
        },
{
    let subs = match font_cmap(data, index) {
        Some(v) => v,
        None => return None,
    };
    let ghost sv = subtables_view(subs@);
    let mut walk: Vec<(u32, u16)> = Vec::new();
    let mut t: usize = 0;
    assert(sv.take(0) =~= Seq::<(bool, Seq<(u32, Option<u16>)>)>::empty());
    while t < subs.len()
        invariant
            t <= subs@.len(),
            sv == subtables_view(subs@),
            walk@ == unicode_walk(sv.take(t as int)),
        decreases subs.len() - t,
    {
        assert(sv.take(t + 1).drop_last() =~= sv.take(t as int));
        assert(sv.take(t + 1).last() == (subs@[t as int].0, subs@[t as int].1@));
        let ghost w0 = walk@;
        if subs[t].0 {
            let cps = &subs[t].1;
            let mut j: usize = 0;
            assert(cps@.take(0) =~= Seq::<(u32, Option<u16>)>::empty());
            while j < cps.len()
                invariant
                    j <= cps@.len(),
                    walk@ == w0 + mapped_pairs(cps@.take(j as int)),
                decreases cps.len() - j,
            {
                assert(cps@.take(j + 1).drop_last() =~= cps@.take(j as int));
                let (cp, gi) = cps[j];
                match gi {
                    Some(g) => {
                        walk.push((cp, g));
                        assert(walk@ =~= w0 + mapped_pairs(cps@.take(j + 1)));
                    },
                    None => {
                        assert(walk@ =~= w0 + mapped_pairs(cps@.take(j + 1)));
                    },
                }
                j += 1;
            }
            assert(cps@.take(j as int) =~= cps@);
        } else {
            assert(walk@ =~= w0 + Seq::<(u32, u16)>::empty());
        }
        t += 1;
    }
    assert(sv.take(t as int) =~= sv);
    Some(first_per_glyph(walk.as_slice()))
}

/// The `/ToUnicode` CMap of a font's glyphs, from its reversed Unicode
/// `cmap`; `None` when the bytes are not a font face.
pub fn to_unicode_cmap(data: &[u8], index: u32) -> (res: Option<String>)
    ensures
        match res {
            Some(t) => cmap_subtables(data@, index) matches Some(subs) && t@ == cmap_text(
                first_per_glyph_spec(unicode_walk(subs)),
            ),
            None => cmap_subtables(data@, index) is None,
        },
{
    match reverse_cmap(data, index) {
        Some(pairs) => Some(build(pairs.as_slice())),
        None => None,
    }
}

} // verus!
