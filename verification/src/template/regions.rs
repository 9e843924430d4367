//! Running header/footer region extraction, performed as a compile-time source
//! transform.
//!
//! A `<t:running-header>…</t:running-header>` (or `…-footer…`) placed anywhere in
//! the flow is not body content: its inner markup is pulled out of the template
//! source so it never renders in body flow, and is rendered per page instead.
//!
//! Inside an extracted region, the convenience elements `<t:page/>` and
//! `<t:pages/>` desugar to `{{ page.number }}` / `{{ page.total }}`, so a
//! "Page X of N" footer needs no expression syntax.
use vstd::prelude::*;
use crate::bytes::{find_from, find_spec, lemma_find_skip, lemma_find_spec_props, matches_at};
use crate::chars::{chars_match_at, chars_of, copy_range, find_chars, push_chars, push_str, string_of};

verus! {

/// Internal template name for the extracted running header.
pub const HEADER: &'static str = "__header__";

/// Internal template name for the extracted running footer.
pub const FOOTER: &'static str = "__footer__";

/// The result of pulling the running regions out of a template source: the body
/// with the region elements removed, plus each region's inner markup (already
/// `<t:page/>`/`<t:pages/>`-desugared) when present.
#[derive(Debug, PartialEq, Eq)]
pub struct Extracted {
    pub body: String,
    pub header: Option<String>,
    pub footer: Option<String>,
}

impl Default for Extracted {
    fn default() -> (res: Extracted)
        ensures
            res.body@.len() == 0,
            res.header is None,
            res.footer is None,
    {
        Extracted { body: String::new(), header: None, footer: None }
    }
}

/// The text of an optional string.
pub open spec fn opt_text(o: Option<String>) -> Option<Seq<char>> {
    match o {
        Some(s) => Some(s@),
        None => None,
    }
}

/// The open tag `<t:NAME` (attributes and `>` follow).
pub open spec fn open_tag(name: Seq<char>) -> Seq<char> {
    "<t:"@ + name
}

/// The close tag `</t:NAME>`.
pub open spec fn close_tag(name: Seq<char>) -> Seq<char> {
    "</t:"@ + name + ">"@
}

/// The explicit empty pair `<t:NAME></t:NAME>`.
pub open spec fn pair_tag(name: Seq<char>) -> Seq<char> {
    "<t:"@ + name + "></t:"@ + name + ">"@
}

/// The boundaries `(open_start, inner_start, inner_end, close_end)` of the
/// first `open…>…close` element of `s`: the first open tag, the first `>` after
/// it, and the first close tag after that.
pub open spec fn locate_spec(s: Seq<char>, open: Seq<char>, close: Seq<char>) -> Option<(int, int, int, int)> {
    match find_spec(s, open, 0) {
        None => None,
        Some(os) => match find_spec(s, seq!['>'], os + open.len()) {
            None => None,
            Some(gt) => match find_spec(s, close, gt + 1) {
                None => None,
                Some(ie) => Some((os, gt + 1, ie, ie + close.len())),
            },
        },
    }
}

/// `s` with its first `<t:NAME …>…</t:NAME>` element cut out, and that
/// element's inner markup; `s` itself and nothing when no complete element is
/// found.
pub open spec fn take_region_spec(s: Seq<char>, name: Seq<char>) -> (Seq<char>, Option<Seq<char>>) {
    match locate_spec(s, open_tag(name), close_tag(name)) {
        None => (s, None),
        Some((os, is, ie, ce)) => (s.take(os) + s.skip(ce), Some(s.subrange(is, ie))),
    }
}

/// Every occurrence of `pat` in `s`, scanning from the left without overlap,
/// replaced by `rep`.
pub open spec fn replace_all(s: Seq<char>, pat: Seq<char>, rep: Seq<char>) -> Seq<char>
    decreases s.len(),
{
    if s.len() == 0 || pat.len() == 0 {
        s
    } else if pat.len() <= s.len() && s.take(pat.len() as int) == pat {
        rep + replace_all(s.skip(pat.len() as int), pat, rep)
    } else {
        seq![s[0]] + replace_all(s.drop_first(), pat, rep)
    }
}

/// The length of a self-closing tag at the start of `t`: up to and including
/// the first `>`, when that `>` lies at or past `name_len` and follows a `/`.
pub open spec fn self_closing_len(t: Seq<char>, name_len: int) -> Option<int> {
    match find_spec(t, seq!['>'], 0) {
        None => None,
        Some(g) => if g >= name_len && g > 0 && t[g - 1] == '/' {
            Some(g + 1)
        } else {
            None
        },
    }
}

/// Every self-closing `<t:NAME …/>` of `s` (where `needle` is `<t:NAME`)
/// replaced by `repl`, scanning from the left; an occurrence of the needle that
/// does not start a self-closing tag is kept and the scan goes on after it.
pub open spec fn replace_self_closing_spec(s: Seq<char>, needle: Seq<char>, repl: Seq<char>) -> Seq<char>
    decreases s.len(),
{
    if needle.len() == 0 {
        s
    } else {
        match find_spec(s, needle, 0) {
            None => s,
            Some(idx) => {
                proof {
                    lemma_find_spec_props(s, needle, 0);
                    lemma_find_spec_props(s.skip(idx), seq!['>'], 0);
                }
                match self_closing_len(s.skip(idx), needle.len() as int) {
                    Some(consumed) => s.take(idx) + repl + replace_self_closing_spec(
                        s.skip(idx + consumed),
                        needle,
                        repl,
                    ),
                    None => s.take(idx + needle.len()) + replace_self_closing_spec(
                        s.skip(idx + needle.len()),
                        needle,
                        repl,
                    ),
                }
            },
        }
    }
}

/// Both spellings of the field code `NAME` — `<t:NAME></t:NAME>` and
/// `<t:NAME …/>` — replaced by `repl`.
pub open spec fn replace_code_spec(s: Seq<char>, name: Seq<char>, repl: Seq<char>) -> Seq<char> {
    replace_self_closing_spec(replace_all(s, pair_tag(name), repl), open_tag(name), repl)
}

/// The page-number field codes of a region rewritten: `pages` first (its name
/// starts with `page`), then `page`.
pub open spec fn desugar_codes_spec(inner: Seq<char>) -> Seq<char> {
    replace_code_spec(
        replace_code_spec(inner, "pages"@, "{{ page.total }}"@),
        "page"@,
        "{{ page.number }}"@,
    )
}

/// A region's inner markup, desugared.
pub open spec fn desugared(o: Option<Seq<char>>) -> Option<Seq<char>> {
    match o {
        Some(inner) => Some(desugar_codes_spec(inner)),
        None => None,
    }
}

/// What [`extract`] makes of `src`: the body, the header, the footer.
pub open spec fn extract_spec(src: Seq<char>) -> (Seq<char>, Option<Seq<char>>, Option<Seq<char>>) {
    let (b1, h) = take_region_spec(src, "running-header"@);
    let (b2, f) = take_region_spec(b1, "running-footer"@);
    (b2, desugared(h), desugared(f))
}

/// `<t:` followed by `name`.
fn open_tag_chars(name: &str) -> (res: Vec<char>)
    ensures
        res@ == open_tag(name@),
        res@.len() > 0,
{
    let mut v: Vec<char> = Vec::new();
    push_str(&mut v, "<t:");
    push_str(&mut v, name);
    proof {
        reveal_strlit("<t:");
    }
    v
}

/// The byte boundaries of a located region element.
struct Region {
    open_start: usize,
    inner_start: usize,
    inner_end: usize,
    close_end: usize,
}

/// Find the open tag, the `>` ending it, and its matching close tag.
fn locate(s: &[char], open: &[char], close: &[char]) -> (res: Option<Region>)
    ensures
        res matches Some(r) ==> locate_spec(s@, open@, close@) == Some(
            (r.open_start as int, r.inner_start as int, r.inner_end as int, r.close_end as int),
        ) && r.open_start <= r.inner_start <= r.inner_end <= r.close_end <= s@.len(),
        res is None ==> locate_spec(s@, open@, close@) is None,
{
    let gt: [char; 1] = ['>'];
    assert(gt@ =~= seq!['>']);
    let _n = s.len();
    let found_open = find_chars(s, open, 0);
    let open_start = match found_open {
        Some(i) => i,
        None => return None,
    };
    assert(open_start + open@.len() <= s@.len());
    let after_open = open_start + open.len();
    let found_gt = find_chars(s, &gt, after_open);
    let g = match found_gt {
        Some(i) => i,
        None => return None,
    };
    assert(g + 1 <= s@.len());
    let inner_start = g + 1;
    let found_close = find_chars(s, close, inner_start);
    let inner_end = match found_close {
        Some(i) => i,
        None => return None,
    };
    Some(Region { open_start, inner_start, inner_end, close_end: inner_end + close.len() })
}

/// Remove the first `<t:NAME …>…</t:NAME>` element from `s`, returning the body
/// with it cut out and its inner markup. A region missing its close tag is left
/// in place, keeping this transform total.
fn take_region(s: &[char], name: &str) -> (res: (Vec<char>, Option<Vec<char>>))
    ensures
        res.0@ == take_region_spec(s@, name@).0,
        (match res.1 {
            Some(v) => take_region_spec(s@, name@).1 == Some(v@),
            None => take_region_spec(s@, name@).1 is None,
        }),
{
    let open = open_tag_chars(name);
    let mut close: Vec<char> = Vec::new();
    push_str(&mut close, "</t:");
    push_str(&mut close, name);
    push_str(&mut close, ">");
    match locate(s, open.as_slice(), close.as_slice()) {
        None => (copy_range(s, 0, s.len()), None),
        Some(r) => {
            let mut body = copy_range(s, 0, r.open_start);
            let tail = copy_range(s, r.close_end, s.len());
            push_chars(&mut body, tail.as_slice());
            assert(s@.take(r.open_start as int) =~= s@.subrange(0, r.open_start as int));
            assert(s@.skip(r.close_end as int) =~= s@.subrange(r.close_end as int, s@.len() as int));
            let inner = copy_range(s, r.inner_start, r.inner_end);
            (body, Some(inner))
        },
    }
}

/// Every occurrence of `pat` in `s` replaced by `rep`, as `str::replace` does.
pub(crate) fn replace_all_chars(s: &[char], pat: &[char], rep: &[char]) -> (res: Vec<char>)
    requires
        pat@.len() > 0,
    ensures
        res@ == replace_all(s@, pat@, rep@),
{
    let mut out: Vec<char> = Vec::new();
    let mut i: usize = 0;
    assert(s@.skip(0) =~= s@);
    assert(out@ + replace_all(s@, pat@, rep@) =~= replace_all(s@, pat@, rep@));
    while i < s.len()
        invariant
            i <= s@.len(),
            pat@.len() > 0,
            out@ + replace_all(s@.skip(i as int), pat@, rep@) == replace_all(s@, pat@, rep@),
        decreases s.len() - i,
    {
        let ghost rest = s@.skip(i as int);
        if chars_match_at(s, pat, i) {
            proof {
                assert(rest.take(pat@.len() as int) =~= s@.subrange(i as int, i + pat@.len()));
                assert(rest.skip(pat@.len() as int) =~= s@.skip(i + pat@.len()));
                assert(out@ + (rep@ + replace_all(s@.skip(i + pat@.len()), pat@, rep@)) =~= (out@ + rep@)
                    + replace_all(s@.skip(i + pat@.len()), pat@, rep@));
            }
            push_chars(&mut out, rep);
            i += pat.len();
        } else {
            proof {
                if pat@.len() <= rest.len() {
                    assert(rest.take(pat@.len() as int) =~= s@.subrange(i as int, i + pat@.len()));
                }
                assert(rest.drop_first() =~= s@.skip(i + 1));
                assert(out@ + (seq![s@[i as int]] + replace_all(s@.skip(i + 1), pat@, rep@)) =~= out@.push(
                    s@[i as int],
                ) + replace_all(s@.skip(i + 1), pat@, rep@));
            }
            out.push(s[i]);
            i += 1;
        }
    }
    assert(s@.skip(i as int).len() == 0);
    assert(out@ + s@.skip(i as int) =~= out@);
    out
}

/// The length of a self-closing tag starting at `s[idx]`, as
/// [`self_closing_len`] says of `s[idx..]`.
fn self_closing_at(s: &[char], idx: usize, name_len: usize) -> (res: Option<usize>)
    requires
        idx <= s@.len(),
    ensures
        res matches Some(c) ==> self_closing_len(s@.skip(idx as int), name_len as int) == Some(c as int),
        res is None ==> self_closing_len(s@.skip(idx as int), name_len as int) is None,
{
    let gt: [char; 1] = ['>'];
    assert(gt@ =~= seq!['>']);
    proof {
        lemma_find_skip(s@, seq!['>'], idx as int, 0);
    }
    match find_chars(s, &gt, idx) {
        None => None,
        Some(p) => {
            let g = p - idx;
            if g >= name_len && g > 0 && s[p - 1] == '/' {
                Some(g + 1)
            } else {
                None
            }
        },
    }
}

/// Replace `<t:NAME/>` and `<t:NAME …/>` (self-closing, attributes ignored)
/// with `repl`.
fn replace_self_closing(s: &[char], name: &str, repl: &str) -> (res: Vec<char>)
    ensures
        res@ == replace_self_closing_spec(s@, open_tag(name@), repl@),
{
    let needle = open_tag_chars(name);
    let r = chars_of(repl);
    let ghost full = replace_self_closing_spec(s@, needle@, r@);
    let mut out: Vec<char> = Vec::new();
    let mut j: usize = 0;
    let _n = s.len();
    assert(s@.skip(0) =~= s@);
    assert(out@ + full =~= full);
    loop
        invariant
            j <= s@.len(),
            needle@.len() > 0,
            needle@ == open_tag(name@),
            r@ == repl@,
            full == replace_self_closing_spec(s@, needle@, r@),
            out@ + replace_self_closing_spec(s@.skip(j as int), needle@, r@) == full,
        decreases s@.len() - j,
    {
        let ghost rest = s@.skip(j as int);
        let _len = s.len();
        proof {
            lemma_find_skip(s@, needle@, j as int, 0);
            lemma_find_spec_props(s@, needle@, j as int);
        }
        match find_chars(s, needle.as_slice(), j) {
            None => {
                let tail = copy_range(s, j, s.len());
                assert(tail@ =~= rest);
                assert(replace_self_closing_spec(rest, needle@, r@) == rest);
                push_chars(&mut out, tail.as_slice());
                return out;
            },
            Some(idx) => {
                proof {
                    assert(rest.skip(idx - j) =~= s@.skip(idx as int));
                }
                match self_closing_at(s, idx, needle.len()) {
                    Some(consumed) => {
                        proof {
                            lemma_find_spec_props(s@.skip(idx as int), seq!['>'], 0);
                            let g = consumed - 1;
                            assert(matches_at(s@.skip(idx as int), seq!['>'], g));
                            assert(consumed <= s@.len() - idx);
                            assert(rest.take(idx - j) =~= s@.subrange(j as int, idx as int));
                            assert(rest.skip(idx - j + consumed) =~= s@.skip(idx + consumed));
                        }
                        let head = copy_range(s, j, idx);
                        let ghost o0 = out@;
                        push_chars(&mut out, head.as_slice());
                        push_chars(&mut out, r.as_slice());
                        j = idx + consumed;
                        assert(o0 + (head@ + r@ + replace_self_closing_spec(s@.skip(j as int), needle@, r@))
                            =~= out@ + replace_self_closing_spec(s@.skip(j as int), needle@, r@));
                    },
                    None => {
                        let keep = idx + needle.len();
                        proof {
                            assert(rest.take(keep - j) =~= s@.subrange(j as int, keep as int));
                            assert(rest.skip(keep - j) =~= s@.skip(keep as int));
                        }
                        let head = copy_range(s, j, keep);
                        let ghost o0 = out@;
                        push_chars(&mut out, head.as_slice());
                        j = keep;
                        assert(o0 + (head@ + replace_self_closing_spec(s@.skip(j as int), needle@, r@))
                            =~= out@ + replace_self_closing_spec(s@.skip(j as int), needle@, r@));
                    },
                }
            },
        }
    }
}

/// Replace every `<t:NAME/>` and `<t:NAME></t:NAME>` in `s` with `repl`.
fn replace_code(s: &[char], name: &str, repl: &str) -> (res: Vec<char>)
    ensures
        res@ == replace_code_spec(s@, name@, repl@),
{
    let mut pair: Vec<char> = Vec::new();
    push_str(&mut pair, "<t:");
    push_str(&mut pair, name);
    push_str(&mut pair, "></t:");
    push_str(&mut pair, name);
    push_str(&mut pair, ">");
    proof {
        reveal_strlit("<t:");
    }
    let r = chars_of(repl);
    let with_pairs = replace_all_chars(s, pair.as_slice(), r.as_slice());
    replace_self_closing(with_pairs.as_slice(), name, repl)
}

/// Rewrite the page-number field codes inside an extracted region:
/// `<t:page/>` → `{{ page.number }}` and `<t:pages/>` → `{{ page.total }}`, in
/// both the self-closing and the explicit-pair spelling.
fn desugar_codes(inner: &[char]) -> (res: Vec<char>)
    ensures
        res@ == desugar_codes_spec(inner@),
{
    let with_pages = replace_code(inner, "pages", "{{ page.total }}");
    replace_code(with_pages.as_slice(), "page", "{{ page.number }}")
}

/// A desugared region as a string.
fn desugar_region(o: Option<Vec<char>>) -> (res: Option<String>)
    ensures
        opt_text(res) == desugared(match o {
            Some(v) => Some(v@),
            None => None,
        }),
{
    match o {
        Some(v) => Some(string_of(desugar_codes(v.as_slice()).as_slice())),
        None => None,
    }
}

/// Pull the first running-header and running-footer out of `src`. The remaining
/// body keeps every other character unchanged.
pub fn extract(src: &str) -> (res: Extracted)
    ensures
        res.body@ == extract_spec(src@).0,
        opt_text(res.header) == extract_spec(src@).1,
        opt_text(res.footer) == extract_spec(src@).2,
{
    let s = chars_of(src);
    let (b1, h) = take_region(s.as_slice(), "running-header");
    let (b2, f) = take_region(b1.as_slice(), "running-footer");
    Extracted { body: string_of(b2.as_slice()), header: desugar_region(h), footer: desugar_region(f) }
}

/// The byte length of a self-closing tag at the start of the UTF-8 bytes `b`:
/// up to and including the first `>` (byte 62), when that `>` lies at or past
/// byte `name_len` and follows a `/` (byte 47).
pub open spec fn self_closing_bytes(b: Seq<u8>, name_len: int) -> Option<int> {
    match find_spec(b, seq![62u8], 0) {
        None => None,
        Some(g) => if g >= name_len && g > 0 && b[g - 1] == 47u8 {
            Some(g + 1)
        } else {
            None
        },
    }
}

/// If `tag` is a self-closing `<t:NAME …/>` whose name ends at byte
/// `name_len`, the byte length to consume; otherwise `None`.
pub fn self_closing_end(tag: &str, name_len: usize) -> (res: Option<usize>)
    ensures
        res matches Some(n) ==> self_closing_bytes(vstd::utf8::encode_utf8(tag@), name_len as int) == Some(
            n as int,
        ),
        res is None ==> self_closing_bytes(vstd::utf8::encode_utf8(tag@), name_len as int) is None,
{
    let b = tag.as_bytes();
    let gt: [u8; 1] = [62u8];
    assert(gt@ =~= seq![62u8]);
    proof {
        lemma_find_spec_props(b@, gt@, 0);
    }
    match find_from(b, &gt, 0) {
        None => None,
        Some(g) => {
            assert(g + 1 <= b@.len());
            if g >= name_len && g > 0 && b[g - 1] == 47u8 {
                Some(g + 1)
            } else {
                None
            }
        },
    }
}

/// A source with no running-header and no running-footer open tag comes out of
/// [`extract`] unchanged, with no regions.
pub proof fn extract_without_regions_is_identity(src: Seq<char>)
    requires
        find_spec(src, open_tag("running-header"@), 0) is None,
        find_spec(src, open_tag("running-footer"@), 0) is None,
    ensures
        extract_spec(src) == (src, None::<Seq<char>>, None::<Seq<char>>),
{
}

} // verus!
