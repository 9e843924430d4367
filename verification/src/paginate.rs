//! The integer decisions of the fragmenter: which kind a page is, and how
//! many lines of a paragraph go on the current page once widows, orphans and
//! forced progress are taken into account. The geometry itself (float
//! extents) is measured by the caller; the rules that decide the break live
//! here.
use vstd::prelude::*;
use crate::bytes::find_spec;
use crate::chars::{
    ascii_lower, chars_eq_ignore_case, chars_of, copy_range, eq_ignore_case, find_chars, push_chars,
    split_char, split_on, string_of, texts_view, to_lower, trim, trim_chars,
};
use crate::error::{Diagnostics, ErrorCode, LintCode, RenderError, Span};
use crate::style::parser::AtRule;

verus! {

/// Which master/variant a page resolves to: page 1 is the first page, then
/// even/odd pages are the left/right (verso/recto) of a duplex spread.
#[derive(Debug, Clone, Copy, PartialEq, Eq, Structural)]
pub enum PageKind {
    First,
    Left,
    Right,
    Blank,
}

/// The kind of the page with the given 1-based number.
pub open spec fn kind_of(number: u32) -> PageKind {
    if number == 1 {
        PageKind::First
    } else if number % 2 == 0 {
        PageKind::Left
    } else {
        PageKind::Right
    }
}

/// Derive a page's kind from its 1-based number.
pub fn page_kind(number: u32) -> (res: PageKind)
    ensures
        res == kind_of(number),
{
    if number == 1 {
        PageKind::First
    } else if number % 2 == 0 {
        PageKind::Left
    } else {
        PageKind::Right
    }
}

/// The message of the lint raised when a single line cannot fit a page.
pub open spec fn overflow_message() -> Seq<char> {
    seq![
        'a', ' ', 's', 'i', 'n', 'g', 'l', 'e', ' ', 'l', 'i', 'n', 'e', ' ', 'i', 's', ' ',
        't', 'a', 'l', 'l', 'e', 'r', ' ', 't', 'h', 'a', 'n', ' ', 't', 'h', 'e', ' ',
        'p', 'a', 'g', 'e', ' ', 'b', 'o', 'd', 'y',
    ]
}

/// Whether an empty page with lines left but none fitting must be forced to
/// take one line.
pub open spec fn must_force(count: nat, empty: bool, no_lines: bool) -> bool {
    count == 0 && empty && !no_lines
}

/// Guarantee at least one line is taken on an empty page so the walk
/// terminates, flagging the overflow with a lint.
pub fn force_progress(count: usize, empty: bool, no_lines: bool, diags: &mut Diagnostics) -> (res:
    usize)
    ensures
        must_force(count as nat, empty, no_lines) ==> res == 1 && final(diags).lints@.len()
            == old(diags).lints@.len() + 1 && final(diags).lints@.drop_last() == old(
            diags,
        ).lints@ && final(diags).lints@.last().code == LintCode::RegionOverflow
            && final(diags).lints@.last().message@ == overflow_message()
            && final(diags).lints@.last().span == (Span { line: 0, col: 0, byte_offset: 0 }),
        !must_force(count as nat, empty, no_lines) ==> res == count && final(diags).lints@ == old(
            diags,
        ).lints@,
{
    if count == 0 && empty && !no_lines {
        let msg: Vec<char> = vec![
            'a', ' ', 's', 'i', 'n', 'g', 'l', 'e', ' ', 'l', 'i', 'n', 'e', ' ', 'i', 's', ' ',
            't', 'a', 'l', 'l', 'e', 'r', ' ', 't', 'h', 'a', 'n', ' ', 't', 'h', 'e', ' ',
            'p', 'a', 'g', 'e', ' ', 'b', 'o', 'd', 'y',
        ];
        let message = crate::chars::string_of(msg.as_slice());
        assert(message@ == overflow_message());
        let ghost before = diags.lints@;
        diags.push(LintCode::RegionOverflow, message, Span::default());
        assert(diags.lints@.drop_last() == before);
        return 1;
    }
    count
}

/// Lines kept on the page after pulling back enough of them that at least
/// `widows` follow the break.
pub open spec fn widows_take(take: int, remaining: int, widows: int) -> int {
    if remaining < widows {
        if take >= widows - remaining {
            take - (widows - remaining)
        } else {
            0
        }
    } else {
        take
    }
}

/// `take`, or none at all when fewer than `orphans` would stay.
pub open spec fn orphans_take(take: int, orphans: int) -> int {
    if take < orphans {
        0
    } else {
        take
    }
}

/// How many of the `fit` lines that fit at `start` (of `total`) to place so
/// that widows and orphans hold.
pub open spec fn adjusted_take(start: int, fit: int, total: int, orphans: int, widows: int) -> int {
    if start + fit >= total {
        fit
    } else {
        orphans_take(widows_take(fit, total - start - fit, widows), orphans)
    }
}

/// How many lines to place: the widows/orphans-adjusted count, except on an
/// empty page where orphans cannot be satisfied, there whatever fits.
pub open spec fn resolved_take(
    start: int,
    fit: int,
    total: int,
    orphans: int,
    widows: int,
    empty: bool,
) -> int {
    let take = adjusted_take(start, fit, total, orphans, widows);
    if take == 0 && empty {
        fit
    } else {
        take
    }
}

/// Reduce `take` so the lines pushed past the break number at least `widows`.
pub fn satisfy_widows(take: usize, remaining: usize, widows: usize) -> (res: usize)
    ensures
        res == widows_take(take as int, remaining as int, widows as int),
{
    if remaining < widows {
        return take.saturating_sub(widows - remaining);
    }
    take
}

/// If fewer than `orphans` lines would stay on this page, take none (defer the
/// whole run to the next page).
pub fn enforce_orphans(take: usize, orphans: usize) -> (res: usize)
    ensures
        res == orphans_take(take as int, orphans as int),
{
    if take < orphans {
        0
    } else {
        take
    }
}

/// Pull lines back from a page break to satisfy widows (min lines after) and
/// orphans (min lines before), within what fits.
pub fn adjust_widows_orphans(start: usize, fit: usize, total: usize, orphans: usize, widows: usize) -> (res:
    usize)
    requires
        start + fit <= usize::MAX,
    ensures
        res == adjusted_take(start as int, fit as int, total as int, orphans as int, widows as int),
{
    if start + fit >= total {
        return fit;
    }
    let take = satisfy_widows(fit, total - start - fit, widows);
    enforce_orphans(take, orphans)
}

/// Resolve how many lines to place at `start`.
pub fn resolve_take(
    start: usize,
    fit: usize,
    total: usize,
    orphans: usize,
    widows: usize,
    empty: bool,
) -> (res: usize)
    requires
        start + fit <= usize::MAX,
    ensures
        res == resolved_take(
            start as int,
            fit as int,
            total as int,
            orphans as int,
            widows as int,
            empty,
        ),
{
    let take = adjust_widows_orphans(start, fit, total, orphans, widows);
    if take == 0 && empty {
        fit
    } else {
        take
    }
}

/// Whether an at-rule is an `@page` rule (its name is `page`, in any case).
pub open spec fn is_page_rule(r: AtRule) -> bool {
    eq_ignore_case(r.name@, seq!['p', 'a', 'g', 'e'])
}

/// The first `@page` at-rule, if any.
pub fn find_page(at_rules: &[AtRule]) -> (res: Option<&AtRule>)
    ensures
        match res {
            Some(r) => exists|i: int|
                0 <= i < at_rules@.len() && *r == at_rules@[i] && is_page_rule(at_rules@[i])
                    && forall|j: int| 0 <= j < i ==> !is_page_rule(#[trigger] at_rules@[j]),
            None => forall|j: int| 0 <= j < at_rules@.len() ==> !is_page_rule(#[trigger] at_rules@[j]),
        },
{
    let page: Vec<char> = vec!['p', 'a', 'g', 'e'];
    assert(page@ == seq!['p', 'a', 'g', 'e']);
    let mut i: usize = 0;
    while i < at_rules.len()
        invariant
            0 <= i <= at_rules@.len(),
            page@ == seq!['p', 'a', 'g', 'e'],
            forall|j: int| 0 <= j < i ==> !is_page_rule(#[trigger] at_rules@[j]),
        decreases at_rules@.len() - i,
    {
        let name = chars_of(at_rules[i].name.as_str());
        if chars_eq_ignore_case(name.as_slice(), page.as_slice()) {
            return Some(&at_rules[i]);
        }
        i += 1;
    }
    None
}


/// The message for a `size:` token that is neither a keyword, a known page
/// name nor a length.
pub open spec fn unknown_size_message(token: Seq<char>) -> Seq<char> {
    "unknown @page size `"@ + token + "` (valid: A3, A4, A5, Letter, Legal, or `W H` lengths)"@
}

/// The render error for an unknown `@page` size token.
pub fn unknown_size(token: &str) -> (res: RenderError)
    ensures
        res.code == ErrorCode::Render,
        res.message@ == unknown_size_message(token@),
        res.span == (Span { line: 0, col: 0, byte_offset: 0 }),
{
    let mut m = chars_of("unknown @page size `");
    let t = chars_of(token);
    push_chars(&mut m, t.as_slice());
    let tail = chars_of("` (valid: A3, A4, A5, Letter, Legal, or `W H` lengths)");
    push_chars(&mut m, tail.as_slice());
    RenderError { code: ErrorCode::Render, message: string_of(m.as_slice()), span: Span::default() }
}

/// One declaration of an at-rule body: the lowercased trimmed property
/// before the first `:` and the trimmed value after it; nothing without a
/// `:`.
pub open spec fn decl_of(piece: Seq<char>) -> Option<(Seq<char>, Seq<char>)> {
    match find_spec(piece, seq![':'], 0) {
        Some(k) => Some((ascii_lower(trim(piece.take(k))), trim(piece.skip(k + 1)))),
        None => None,
    }
}

/// The declarations of a list of `;`-separated pieces, in order.
pub open spec fn decls_of(pieces: Seq<Seq<char>>) -> Seq<(Seq<char>, Seq<char>)>
    decreases pieces.len(),
{
    if pieces.len() == 0 {
        seq![]
    } else {
        decls_of(pieces.drop_last()) + match decl_of(pieces.last()) {
            Some(d) => seq![d],
            None => seq![],
        }
    }
}

/// The views of a list of string pairs.
pub open spec fn string_pairs_view(v: Seq<(String, String)>) -> Seq<(Seq<char>, Seq<char>)> {
    v.map_values(|p: (String, String)| (p.0@, p.1@))
}

/// Split an at-rule body into `(property, value)` declaration pairs.
pub fn declarations(body: &str) -> (res: Vec<(String, String)>)
    ensures
        string_pairs_view(res@) == decls_of(split_on(body@, ';')),
{
    let cs = chars_of(body);
    let pieces = split_char(cs.as_slice(), ';');
    let ghost ps = texts_view(pieces@);
    let colon: Vec<char> = vec![':'];
    assert(colon@ =~= seq![':']);
    let mut out: Vec<(String, String)> = Vec::new();
    let mut i: usize = 0;
    while i < pieces.len()
        invariant
            i <= pieces@.len(),
            ps == texts_view(pieces@),
            ps == split_on(body@, ';'),
            colon@ == seq![':'],
            string_pairs_view(out@) == decls_of(ps.take(i as int)),
        decreases pieces.len() - i,
    {
        assert(ps.take(i + 1).drop_last() =~= ps.take(i as int));
        let piece = pieces[i].as_slice();
        assert(piece@ == ps[i as int]);
        let ghost before = string_pairs_view(out@);
        match find_chars(piece, colon.as_slice(), 0) {
            Some(k) => {
                assert(k + colon@.len() <= piece@.len());
                assert(colon@.len() == 1);
                assert(piece@.len() == piece.len());
                let head = copy_range(piece, 0, k);
                let prop = to_lower(trim_chars(head.as_slice()).as_slice());
                let tail = copy_range(piece, k + 1, piece.len());
                let value = trim_chars(tail.as_slice());
                assert(head@ =~= piece@.take(k as int));
                assert(tail@ =~= piece@.skip(k + 1));
                out.push((string_of(prop.as_slice()), string_of(value.as_slice())));
                assert(string_pairs_view(out@) =~= before.push((prop@, value@)));
            },
            None => {},
        }
        i += 1;
    }
    assert(ps.take(i as int) =~= ps);
    out
}

/// On a break (lines remain beyond those that fit), the adjusted count never
/// exceeds what fits, and is either zero or leaves at least `orphans` lines
/// before the break and at least `widows` after it.
pub proof fn widows_and_orphans_hold(start: int, fit: int, total: int, orphans: int, widows: int)
    requires
        0 <= start,
        0 <= fit,
        0 <= orphans,
        0 <= widows,
        start + fit < total,
    ensures
        0 <= adjusted_take(start, fit, total, orphans, widows) <= fit,
        adjusted_take(start, fit, total, orphans, widows) == 0 || (adjusted_take(
            start,
            fit,
            total,
            orphans,
            widows,
        ) >= orphans && total - start - adjusted_take(start, fit, total, orphans, widows)
            >= widows),
{
}

/// Without a break the whole remainder that fits is placed.
pub proof fn no_break_takes_all(start: int, fit: int, total: int, orphans: int, widows: int)
    requires
        start + fit >= total,
    ensures
        adjusted_take(start, fit, total, orphans, widows) == fit,
{
}

/// The walk always makes progress: on an empty page with lines left, the
/// count placed after forcing progress is at least one and at most what was
/// forced to fit.
pub proof fn empty_page_progress(
    start: int,
    count: nat,
    total: int,
    orphans: int,
    widows: int,
)
    requires
        0 <= start < total,
        0 <= orphans,
        0 <= widows,
    ensures
        ({
            let fit: int = if must_force(count, true, false) { 1 } else { count as int };
            1 <= resolved_take(start, fit, total, orphans, widows, true) <= fit
        }),
{
}

} // verus!
