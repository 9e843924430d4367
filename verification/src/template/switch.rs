//! The `{% switch %}` extension, implemented as a source-level desugaring to
//! `{% if/elif/else %}` performed before the template engine parses the
//! template. The subject is bound once with `{% set %}`, comma-separated case
//! values become `==` membership, the first match wins, and `{% default %}`
//! must be last and unique. Whitespace-control markers (`{%- … -%}`) on the
//! switch tags trim adjacent text. Templates without `switch` come back
//! unchanged.
//!
//! The rewrite is stated as a family of mutually recursive spec functions over
//! the template's characters (`scan_loop`, `body_spec`, `switch_spec`,
//! `gather_spec`); the executable functions are proved to compute exactly
//! them.
use vstd::prelude::*;
use crate::bytes::find_spec;
use crate::chars::{
    chars_eq, chars_of, copy_range, decimal_chars, decimal_text, find_chars, has_prefix, is_whitespace,
    is_ws, push_chars, starts_with, string_of, trim, trim_char, trim_char_chars, trim_chars,
    trim_end, trim_start, word_len,
};
use crate::error::{CompileError, ErrorCode, Span};

verus! {

// ---------------------------------------------------------------------------
// The model
// ---------------------------------------------------------------------------
/// The tag that ends a body segment inside switch processing, with the
/// position just past it and its whitespace-control markers.
pub enum Bd {
    Case { args: Seq<char>, after: int, lstrip: bool, rstrip: bool },
    Default { after: int, lstrip: bool, rstrip: bool },
    EndSwitch { after: int, lstrip: bool, rstrip: bool },
    Eof { at: int },
}

/// The position a boundary leaves the cursor at.
pub open spec fn bd_pos(b: Bd) -> int {
    match b {
        Bd::Case { after, .. } => after,
        Bd::Default { after, .. } => after,
        Bd::EndSwitch { after, .. } => after,
        Bd::Eof { at } => at,
    }
}

/// Whether a boundary tag opens with `{%-` (trimming the text before it).
pub open spec fn bd_lstrip(b: Bd) -> bool {
    match b {
        Bd::Case { lstrip, .. } => lstrip,
        Bd::Default { lstrip, .. } => lstrip,
        Bd::EndSwitch { lstrip, .. } => lstrip,
        Bd::Eof { .. } => false,
    }
}

/// A boundary found by scanning from `from` lies past it and inside the
/// text; the end of input is at its very end.
pub open spec fn advances(b: Bd, from: int, len: int) -> bool {
    match b {
        Bd::Eof { at } => at == len,
        _ => from < bd_pos(b) <= len,
    }
}

/// One arm of a switch: a case with its value list, or the default.
pub enum BranchV {
    Case { args: Seq<char>, body: Seq<char> },
    Default { body: Seq<char> },
}

/// A `{% ... %}` tag: `src[start]` is its `{`, `src[end]` the `%` of its
/// closing `%}`.
pub struct TagV {
    pub start: int,
    pub end: int,
}

/// The first statement tag at or after `from`.
pub open spec fn tag_at(src: Seq<char>, from: int) -> Option<TagV> {
    match find_spec(src, seq!['{', '%'], from) {
        None => None,
        Some(s) => match find_spec(src, seq!['%', '}'], s + 2) {
            None => None,
            Some(e) => Some(TagV { start: s, end: e }),
        },
    }
}

/// Whether a tag lies well inside the text from `cur` on.
pub open spec fn tag_ok(t: TagV, cur: int, len: int) -> bool {
    0 <= cur <= t.start && t.start + 2 <= t.end && t.end + 2 <= len
}

/// Record `m` unless an error was already recorded (the first one wins).
pub open spec fn set_err(e: Option<Seq<char>>, m: Seq<char>) -> Option<Seq<char>> {
    if e is Some {
        e
    } else {
        Some(m)
    }
}

/// Copy raw text, left-trimmed when the previous tag ended with `-%}`.
pub open spec fn raw(out: Seq<char>, slice: Seq<char>, trim_next: bool) -> Seq<char> {
    if trim_next {
        out + trim_start(slice)
    } else {
        out + slice
    }
}

/// A finished body, left-trimmed when the tag that opened it ended with `-%}`.
pub open spec fn finish_body(body: Seq<char>, trim_open: bool) -> Seq<char> {
    if trim_open {
        trim_start(body)
    } else {
        body
    }
}

/// A branch body, right-trimmed when the tag that closes it opens with `{%-`.
pub open spec fn close_trim(body: Seq<char>, next: Bd) -> Seq<char> {
    if bd_lstrip(next) {
        trim_end(body)
    } else {
        body
    }
}

/// `s` without its leading whitespace and `-` characters.
pub open spec fn skip_ws_dash(s: Seq<char>) -> Seq<char>
    decreases s.len(),
{
    if s.len() > 0 && (is_ws(s[0]) || s[0] == '-') {
        skip_ws_dash(s.drop_first())
    } else {
        s
    }
}

/// The keyword of a tag: its first word once markers and blanks are skipped.
pub open spec fn keyword_spec(inner: Seq<char>) -> Seq<char> {
    let t = skip_ws_dash(inner);
    t.take(word_len(t))
}

/// What follows the keyword `kw` in a tag, trimmed (empty when the tag does
/// not start with `kw`).
pub open spec fn args_after_spec(inner: Seq<char>, kw: Seq<char>) -> Seq<char> {
    let a = trim(trim_char(trim(inner), '-'));
    if starts_with(a, kw) {
        trim(a.skip(kw.len() as int))
    } else {
        seq![]
    }
}

/// Whether a tag's text starts with `-` (it was written `{%-`).
pub open spec fn opens_trim(inner: Seq<char>) -> bool {
    inner.len() > 0 && inner[0] == '-'
}

/// Whether a tag's text ends with `-` (it was written `-%}`).
pub open spec fn closes_trim(inner: Seq<char>) -> bool {
    inner.len() > 0 && inner.last() == '-'
}

/// The boundary a `case`, `default` or `endswitch` tag makes.
pub open spec fn boundary_for_spec(kw: Seq<char>, inner: Seq<char>, after: int) -> Option<Bd> {
    let lstrip = opens_trim(inner);
    let rstrip = closes_trim(inner);
    if kw == "case"@ {
        Some(Bd::Case { args: args_after_spec(inner, "case"@), after, lstrip, rstrip })
    } else if kw == "default"@ {
        Some(Bd::Default { after, lstrip, rstrip })
    } else if kw == "endswitch"@ {
        Some(Bd::EndSwitch { after, lstrip, rstrip })
    } else {
        None
    }
}

/// Scan from `cur`, appending to `out`, until a switch boundary or the end:
/// nested switches are rewritten in place, other tags copied through.
/// Returns the text, the boundary, the switch counter and the first error.
pub open spec fn scan_loop(
    src: Seq<char>,
    cur: int,
    out: Seq<char>,
    trim_next: bool,
    ctr: nat,
    err: Option<Seq<char>>,
) -> (Seq<char>, Bd, nat, Option<Seq<char>>)
    decreases 2 * (src.len() - cur) + 1, 1int,
{
    if !(0 <= cur <= src.len()) {
        (out, Bd::Eof { at: src.len() as int }, ctr, err)
    } else {
        match tag_at(src, cur) {
            None => (raw(out, src.skip(cur), trim_next), Bd::Eof { at: src.len() as int }, ctr, err),
            Some(t) => if !tag_ok(t, cur, src.len() as int) {
                (out, Bd::Eof { at: src.len() as int }, ctr, err)
            } else {
                let out1 = raw(out, src.subrange(cur, t.start), trim_next);
                let inner = src.subrange(t.start + 2, t.end);
                let kw = keyword_spec(inner);
                if kw == "switch"@ {
                    let out2 = if opens_trim(inner) {
                        trim_end(out1)
                    } else {
                        out1
                    };
                    let (text, after, rstrip, c2, e2) = switch_spec(src, t, ctr, err);
                    if cur < after <= src.len() {
                        scan_loop(src, after, out2 + text, rstrip, c2, e2)
                    } else {
                        (out2, Bd::Eof { at: src.len() as int }, c2, e2)
                    }
                } else {
                    match boundary_for_spec(kw, inner, t.end + 2) {
                        Some(b) => (out1, b, ctr, err),
                        None => scan_loop(
                            src,
                            t.end + 2,
                            out1 + src.subrange(t.start, t.end + 2),
                            false,
                            ctr,
                            err,
                        ),
                    }
                }
            },
        }
    }
}

/// A body segment read from `start`, left-trimmed when `trim_open`.
pub open spec fn body_spec(
    src: Seq<char>,
    start: int,
    trim_open: bool,
    ctr: nat,
    err: Option<Seq<char>>,
) -> (Seq<char>, Bd, nat, Option<Seq<char>>)
    decreases 2 * (src.len() - start) + 1, 2int,
{
    let (out, b, c, e) = scan_loop(src, start, seq![], false, ctr, err);
    (finish_body(out, trim_open), b, c, e)
}

/// Whether any branch is a default.
pub open spec fn has_default(branches: Seq<BranchV>) -> bool {
    exists|i: int| 0 <= i < branches.len() && branches[i] is Default
}

/// Collect the branches of a switch from boundary `b` on, up to its
/// `endswitch` (or the end of input, an error). Returns the branches, the
/// position after the switch, whether its `endswitch` ended with `-%}`, the
/// counter and the first error.
pub open spec fn gather_spec(
    src: Seq<char>,
    b: Bd,
    seen_default: bool,
    branches: Seq<BranchV>,
    ctr: nat,
    err: Option<Seq<char>>,
) -> (Seq<BranchV>, int, bool, nat, Option<Seq<char>>)
    decreases 2 * (src.len() - bd_pos(b)) + (if b is Eof {
        0int
    } else {
        1int
    }), 3int,
{
    match b {
        Bd::EndSwitch { after, rstrip, .. } => (branches, after, rstrip, ctr, err),
        Bd::Eof { at } => (branches, at, false, ctr, set_err(err, "unterminated {% switch %}"@)),
        Bd::Case { args, after, rstrip, .. } => if !(0 <= after <= src.len()) {
            (branches, src.len() as int, false, ctr, err)
        } else {
            let (body, next, c1, e1) = body_spec(src, after, rstrip, ctr, err);
            let e2 = if seen_default {
                set_err(e1, "{% case %} after {% default %}"@)
            } else {
                e1
            };
            let br = branches.push(BranchV::Case { args, body: close_trim(body, next) });
            if advances(next, after, src.len() as int) {
                gather_spec(src, next, seen_default, br, c1, e2)
            } else {
                (br, src.len() as int, false, c1, e2)
            }
        },
        Bd::Default { after, rstrip, .. } => if !(0 <= after <= src.len()) {
            (branches, src.len() as int, false, ctr, err)
        } else {
            let (body, next, c1, e1) = body_spec(src, after, rstrip, ctr, err);
            let e2 = if has_default(branches) {
                set_err(e1, "multiple {% default %} in {% switch %}"@)
            } else {
                e1
            };
            let br = branches.push(BranchV::Default { body: close_trim(body, next) });
            if advances(next, after, src.len() as int) {
                gather_spec(src, next, true, br, c1, e2)
            } else {
                (br, src.len() as int, false, c1, e2)
            }
        },
    }
}

/// The name bound to the subject of the switch numbered `ctr`.
pub open spec fn var_name(ctr: nat) -> Seq<char> {
    "__tpdf_switch_"@ + decimal_text(ctr)
}

/// Rewrite the switch whose opening tag is `t`: bind the subject, collect
/// the branches and render them. Returns the rendered text, the position
/// after the switch, the trim marker of its `endswitch`, the counter and the
/// first error.
pub open spec fn switch_spec(src: Seq<char>, t: TagV, ctr: nat, err: Option<Seq<char>>) -> (
    Seq<char>,
    int,
    bool,
    nat,
    Option<Seq<char>>,
)
    decreases 2 * (src.len() - t.start) + 1, 0int,
{
    if !tag_ok(t, 0, src.len() as int) {
        (seq![], src.len() as int, false, ctr, err)
    } else {
        let inner = src.subrange(t.start + 2, t.end);
        let subject = args_after_spec(inner, "switch"@);
        let var = var_name(ctr);
        let (pre, first, c1, e1) = body_spec(src, t.end + 2, false, ctr + 1, err);
        let e2 = if trim(pre).len() > 0 {
            set_err(e1, "text before first {% case %} in {% switch %}"@)
        } else {
            e1
        };
        if advances(first, t.end + 2, src.len() as int) {
            let (branches, after, rstrip, c3, e3) = gather_spec(src, first, false, seq![], c1, e2);
            (render_spec(var, subject, branches), after, rstrip, c3, e3)
        } else {
            (seq![], src.len() as int, false, c1, e2)
        }
    }
}

// ---------------------------------------------------------------------------
// Rendering the if/elif/else chain
// ---------------------------------------------------------------------------
/// `args[from..to]` trimmed, appended when not empty.
pub open spec fn push_part(args: Seq<char>, from: int, to: int, parts: Seq<Seq<char>>) -> Seq<
    Seq<char>,
> {
    let piece = trim(args.subrange(from, to));
    if piece.len() > 0 {
        parts.push(piece)
    } else {
        parts
    }
}

/// `d + 1`, wrapping at the top of the `i32` range.
pub open spec fn wrap_inc(d: i32) -> i32 {
    if d == i32::MAX {
        i32::MIN
    } else {
        (d + 1) as i32
    }
}

/// `d - 1`, wrapping at the bottom of the `i32` range.
pub open spec fn wrap_dec(d: i32) -> i32 {
    if d == i32::MIN {
        i32::MAX
    } else {
        (d - 1) as i32
    }
}

/// Split `args` at commas outside brackets, scanning from `i` with bracket
/// depth `depth` and the current piece starting at `last`.
pub open spec fn commas_from(
    args: Seq<char>,
    i: int,
    depth: i32,
    last: int,
    parts: Seq<Seq<char>>,
) -> Seq<Seq<char>>
    decreases args.len() - i,
{
    if i >= args.len() || i < 0 {
        push_part(args, last, args.len() as int, parts)
    } else {
        let ch = args[i];
        if ch == '(' || ch == '[' {
            commas_from(args, i + 1, wrap_inc(depth), last, parts)
        } else if ch == ')' || ch == ']' {
            commas_from(args, i + 1, wrap_dec(depth), last, parts)
        } else if ch == ',' && depth == 0 {
            commas_from(args, i + 1, depth, i + 1, push_part(args, last, i, parts))
        } else {
            commas_from(args, i + 1, depth, last, parts)
        }
    }
}

/// The case values of a `case` tag: its arguments split at top-level commas,
/// each trimmed, empty ones dropped.
pub open spec fn split_top_commas_spec(args: Seq<char>) -> Seq<Seq<char>> {
    commas_from(args, 0, 0, 0, seq![])
}

/// Texts joined with ` or `.
pub open spec fn join_or(ts: Seq<Seq<char>>) -> Seq<char>
    decreases ts.len(),
{
    if ts.len() == 0 {
        seq![]
    } else if ts.len() == 1 {
        ts[0]
    } else {
        join_or(ts.drop_last()) + " or "@ + ts.last()
    }
}

/// The condition of a case: `var == v` for each value, joined with ` or `.
pub open spec fn cond_spec(var: Seq<char>, args: Seq<char>) -> Seq<char> {
    join_or(split_top_commas_spec(args).map_values(|v: Seq<char>| var + " == "@ + v))
}

/// The text of one branch; the first one opens the `if`.
pub open spec fn branch_text(var: Seq<char>, b: BranchV, first: bool) -> Seq<char> {
    match b {
        BranchV::Case { args, body } => "{% "@ + (if first {
            "if"@
        } else {
            "elif"@
        }) + " "@ + cond_spec(var, args) + " %}"@ + body,
        BranchV::Default { body } => (if first {
            "{% if true %}"@
        } else {
            "{% else %}"@
        }) + body,
    }
}

/// The texts of the branches, in order.
pub open spec fn branches_text(var: Seq<char>, bs: Seq<BranchV>) -> Seq<char>
    decreases bs.len(),
{
    if bs.len() == 0 {
        seq![]
    } else {
        branches_text(var, bs.drop_last()) + branch_text(var, bs.last(), bs.len() == 1)
    }
}

/// The whole rewritten switch: the subject bound once, the branches as an
/// if/elif/else chain, closed when there is at least one branch.
pub open spec fn render_spec(var: Seq<char>, subject: Seq<char>, bs: Seq<BranchV>) -> Seq<char> {
    "{% set "@ + var + " = "@ + subject + " %}"@ + branches_text(var, bs) + (if bs.len() > 0 {
        "{% endif %}"@
    } else {
        seq![]
    })
}

/// The result of desugaring a whole template: the rewritten text, or the
/// message of the first error (a stray `case`/`default`/`endswitch` at the
/// top level is one).
pub open spec fn desugar_spec(src: Seq<char>) -> Result<Seq<char>, Seq<char>> {
    let (out, b, c, e) = body_spec(src, 0, false, 0, None);
    match e {
        Some(m) => Err(m),
        None => match b {
            Bd::Eof { .. } => Ok(out),
            Bd::Case { .. } => Err("{% case %} outside of {% switch %}"@),
            Bd::Default { .. } => Err("{% default %} outside of {% switch %}"@),
            Bd::EndSwitch { .. } => Err("{% endswitch %} without {% switch %}"@),
        },
    }
}


// ---------------------------------------------------------------------------
// Executable pieces
// ---------------------------------------------------------------------------
/// The first statement tag at or after `from`, as `(start, end)`.
fn find_tag(src: &[char], from: usize) -> (res: Option<(usize, usize)>)
    ensures
        match res {
            Some((s, e)) => tag_at(src@, from as int) == Some(TagV { start: s as int, end: e as int })
                && tag_ok(TagV { start: s as int, end: e as int }, from as int, src@.len() as int),
            None => tag_at(src@, from as int) is None,
        },
{
    let open: Vec<char> = vec!['{', '%'];
    let close: Vec<char> = vec!['%', '}'];
    assert(open@ =~= seq!['{', '%']);
    assert(close@ =~= seq!['%', '}']);
    match find_chars(src, open.as_slice(), from) {
        None => None,
        Some(s) => {
            assert(s + open@.len() <= src@.len());
            assert(open@.len() == 2);
            assert(src@.len() == src.len());
            match find_chars(src, close.as_slice(), s + 2) {
                None => None,
                Some(e) => {
                    assert(e + close@.len() <= src@.len());
                    assert(close@.len() == 2);
                    Some((s, e))
                },
            }
        },
    }
}

/// `s` without leading whitespace.
fn trim_start_vec(s: &[char]) -> (res: Vec<char>)
    ensures
        res@ == trim_start(s@),
{
    let n = s.len();
    let mut i: usize = 0;
    assert(s@.subrange(0, n as int) =~= s@);
    while i < n && is_whitespace(s[i])
        invariant
            i <= n,
            n == s@.len(),
            trim_start(s@) == trim_start(s@.subrange(i as int, n as int)),
        decreases n - i,
    {
        assert(s@.subrange(i as int, n as int).drop_first() =~= s@.subrange(i + 1, n as int));
        i += 1;
    }
    copy_range(s, i, n)
}

/// `s` without trailing whitespace.
fn trim_end_vec(s: &[char]) -> (res: Vec<char>)
    ensures
        res@ == trim_end(s@),
{
    let mut j: usize = s.len();
    assert(s@.subrange(0, j as int) =~= s@);
    while j > 0 && is_whitespace(s[j - 1])
        invariant
            j <= s@.len(),
            trim_end(s@) == trim_end(s@.subrange(0, j as int)),
        decreases j,
    {
        assert(s@.subrange(0, j as int).drop_last() =~= s@.subrange(0, j - 1));
        j -= 1;
    }
    copy_range(s, 0, j)
}

/// The keyword of a tag.
fn keyword(inner: &[char]) -> (res: Vec<char>)
    ensures
        res@ == keyword_spec(inner@),
{
    let n = inner.len();
    let mut i: usize = 0;
    assert(inner@.subrange(0, n as int) =~= inner@);
    while i < n && (is_whitespace(inner[i]) || inner[i] == '-')
        invariant
            i <= n,
            n == inner@.len(),
            skip_ws_dash(inner@) == skip_ws_dash(inner@.subrange(i as int, n as int)),
        decreases n - i,
    {
        assert(inner@.subrange(i as int, n as int).drop_first() =~= inner@.subrange(i + 1, n as int));
        i += 1;
    }
    let ghost t = inner@.subrange(i as int, n as int);
    assert(skip_ws_dash(t) == t);
    let mut j: usize = i;
    while j < n && !is_whitespace(inner[j])
        invariant
            i <= j <= n,
            n == inner@.len(),
            t == inner@.subrange(i as int, n as int),
            word_len(t) == (j - i) + word_len(inner@.subrange(j as int, n as int)),
        decreases n - j,
    {
        assert(inner@.subrange(j as int, n as int).drop_first() =~= inner@.subrange(j + 1, n as int));
        j += 1;
    }
    assert(word_len(inner@.subrange(j as int, n as int)) == 0);
    assert(t.take(j - i) =~= inner@.subrange(i as int, j as int));
    copy_range(inner, i, j)
}

/// What follows the keyword `kw` in a tag, trimmed.
fn args_after(inner: &[char], kw: &[char]) -> (res: Vec<char>)
    ensures
        res@ == args_after_spec(inner@, kw@),
{
    let a = trim_chars(inner);
    let b = trim_char_chars(a.as_slice(), '-');
    let c = trim_chars(b.as_slice());
    if has_prefix(c.as_slice(), kw) {
        let d = copy_range(c.as_slice(), kw.len(), c.len());
        assert(d@ =~= c@.skip(kw@.len() as int));
        trim_chars(d.as_slice())
    } else {
        Vec::new()
    }
}

/// Record `m` unless an error was already recorded.
fn set_error(err: &mut Option<Vec<char>>, m: &str)
    ensures
        opt_seq(*final(err)) == set_err(opt_seq(*old(err)), m@),
{
    if err.is_none() {
        *err = Some(chars_of(m));
    }
}

/// The view of an optional character vector.
pub open spec fn opt_seq(o: Option<Vec<char>>) -> Option<Seq<char>> {
    match o {
        Some(v) => Some(v@),
        None => None,
    }
}

/// Copy raw text, left-trimmed when `trim_next`.
fn push_raw(out: &mut Vec<char>, slice: &[char], trim_next: bool)
    ensures
        final(out)@ == raw(old(out)@, slice@, trim_next),
{
    if trim_next {
        let t = trim_start_vec(slice);
        push_chars(out, t.as_slice());
    } else {
        push_chars(out, slice);
    }
}

/// Append `args[from..to]` trimmed, when it is not empty.
fn push_part_vec(args: &[char], from: usize, to: usize, parts: &mut Vec<Vec<char>>)
    requires
        from <= to <= args@.len(),
    ensures
        crate::chars::texts_view(final(parts)@) == push_part(
            args@,
            from as int,
            to as int,
            crate::chars::texts_view(old(parts)@),
        ),
{
    let piece_raw = copy_range(args, from, to);
    let piece = trim_chars(piece_raw.as_slice());
    if piece.len() > 0 {
        let ghost before = crate::chars::texts_view(parts@);
        parts.push(piece);
        assert(crate::chars::texts_view(parts@) =~= before.push(piece@));
    }
}

/// The case values of a `case` tag.
fn split_top_commas(args: &[char]) -> (res: Vec<Vec<char>>)
    ensures
        crate::chars::texts_view(res@) == split_top_commas_spec(args@),
{
    let mut parts: Vec<Vec<char>> = Vec::new();
    let mut depth: i32 = 0;
    let mut last: usize = 0;
    let mut i: usize = 0;
    assert(crate::chars::texts_view(parts@) =~= Seq::<Seq<char>>::empty());
    while i < args.len()
        invariant
            i <= args@.len(),
            last <= i,
            commas_from(args@, i as int, depth, last as int, crate::chars::texts_view(parts@))
                == split_top_commas_spec(args@),
        decreases args.len() - i,
    {
        let ch = args[i];
        if ch == '(' || ch == '[' {
            depth = if depth == i32::MAX {
                i32::MIN
            } else {
                depth + 1
            };
        } else if ch == ')' || ch == ']' {
            depth = if depth == i32::MIN {
                i32::MAX
            } else {
                depth - 1
            };
        } else if ch == ',' && depth == 0 {
            push_part_vec(args, last, i, &mut parts);
            last = i + 1;
        }
        i += 1;
    }
    push_part_vec(args, last, args.len(), &mut parts);
    parts
}

/// The condition of a case.
fn build_cond(var: &[char], args: &[char]) -> (res: Vec<char>)
    ensures
        res@ == cond_spec(var@, args@),
{
    let parts = split_top_commas(args);
    let ghost ps = crate::chars::texts_view(parts@);
    let ghost terms = ps.map_values(|v: Seq<char>| var@ + " == "@ + v);
    let eq = chars_of(" == ");
    let or = chars_of(" or ");
    let mut out: Vec<char> = Vec::new();
    let mut k: usize = 0;
    while k < parts.len()
        invariant
            k <= parts@.len(),
            ps == crate::chars::texts_view(parts@),
            ps == split_top_commas_spec(args@),
            terms == ps.map_values(|v: Seq<char>| var@ + " == "@ + v),
            eq@ == " == "@,
            or@ == " or "@,
            out@ == join_or(terms.take(k as int)),
        decreases parts.len() - k,
    {
        assert(terms.take(k + 1).drop_last() =~= terms.take(k as int));
        if k > 0 {
            push_chars(&mut out, or.as_slice());
        }
        push_chars(&mut out, var);
        push_chars(&mut out, eq.as_slice());
        push_chars(&mut out, parts[k].as_slice());
        proof {
            assert(terms[k as int] == var@ + " == "@ + ps[k as int]);
            if k == 0 {
                assert(terms.take(1) =~= seq![terms[0]]);
                assert(out@ =~= terms[0]);
            } else {
                assert(out@ =~= join_or(terms.take(k as int)) + " or "@ + terms[k as int]);
            }
        }
        k += 1;
    }
    assert(terms.take(k as int) =~= terms);
    out
}

/// One arm of a switch, as collected.
enum Branch {
    Case { args: Vec<char>, body: Vec<char> },
    Default { body: Vec<char> },
}

/// The model of a collected arm.
spec fn branch_view(b: Branch) -> BranchV {
    match b {
        Branch::Case { args, body } => BranchV::Case { args: args@, body: body@ },
        Branch::Default { body } => BranchV::Default { body: body@ },
    }
}

/// The models of collected arms.
spec fn branches_view(bs: Seq<Branch>) -> Seq<BranchV> {
    bs.map_values(|b: Branch| branch_view(b))
}

/// Whether any collected arm is a default.
fn has_prior_default(branches: &Vec<Branch>) -> (res: bool)
    ensures
        res == has_default(branches_view(branches@)),
{
    let mut i: usize = 0;
    while i < branches.len()
        invariant
            i <= branches@.len(),
            forall|j: int| 0 <= j < i ==> !(branches_view(branches@)[j] is Default),
        decreases branches.len() - i,
    {
        if let Branch::Default { .. } = &branches[i] {
            assert(branches_view(branches@)[i as int] is Default);
            return true;
        }
        i += 1;
    }
    false
}

/// Render a collected switch.
fn render_switch(var: &[char], subject: &[char], branches: &Vec<Branch>) -> (res: Vec<char>)
    ensures
        res@ == render_spec(var@, subject@, branches_view(branches@)),
{
    let ghost bs = branches_view(branches@);
    let mut out = chars_of("{% set ");
    push_chars(&mut out, var);
    let s1 = chars_of(" = ");
    push_chars(&mut out, s1.as_slice());
    push_chars(&mut out, subject);
    let s2 = chars_of(" %}");
    push_chars(&mut out, s2.as_slice());
    let ghost head = out@;
    assert(head == "{% set "@ + var@ + " = "@ + subject@ + " %}"@);
    let mut k: usize = 0;
    while k < branches.len()
        invariant
            k <= branches@.len(),
            bs == branches_view(branches@),
            out@ == head + branches_text(var@, bs.take(k as int)),
        decreases branches.len() - k,
    {
        assert(bs.take(k + 1).drop_last() =~= bs.take(k as int));
        let ghost before = out@;
        match &branches[k] {
            Branch::Case { args, body } => {
                let cond = build_cond(var, args.as_slice());
                let open = chars_of("{% ");
                push_chars(&mut out, open.as_slice());
                let kw = if k == 0 {
                    chars_of("if")
                } else {
                    chars_of("elif")
                };
                push_chars(&mut out, kw.as_slice());
                let sp = chars_of(" ");
                push_chars(&mut out, sp.as_slice());
                push_chars(&mut out, cond.as_slice());
                let close = chars_of(" %}");
                push_chars(&mut out, close.as_slice());
                push_chars(&mut out, body.as_slice());
                assert(out@ =~= before + branch_text(var@, bs[k as int], k == 0));
            },
            Branch::Default { body } => {
                let opener = if k == 0 {
                    chars_of("{% if true %}")
                } else {
                    chars_of("{% else %}")
                };
                push_chars(&mut out, opener.as_slice());
                push_chars(&mut out, body.as_slice());
                assert(out@ =~= before + branch_text(var@, bs[k as int], k == 0));
            },
        }
        assert(bs.take(k + 1).last() == bs[k as int]);
        assert(bs.take(k + 1).len() == 1 <==> k == 0);
        k += 1;
    }
    assert(bs.take(k as int) =~= bs);
    if branches.len() > 0 {
        let end = chars_of("{% endif %}");
        push_chars(&mut out, end.as_slice());
    }
    assert(out@ =~= render_spec(var@, subject@, bs));
    out
}


/// The tag that ended a body segment, as found.
enum Boundary {
    Case { args: Vec<char>, after: usize, lstrip: bool, rstrip: bool },
    Default { after: usize, lstrip: bool, rstrip: bool },
    EndSwitch { after: usize, lstrip: bool, rstrip: bool },
    Eof(usize),
}

/// The model of a found boundary.
spec fn bview(b: Boundary) -> Bd {
    match b {
        Boundary::Case { args, after, lstrip, rstrip } => Bd::Case {
            args: args@,
            after: after as int,
            lstrip,
            rstrip,
        },
        Boundary::Default { after, lstrip, rstrip } => Bd::Default {
            after: after as int,
            lstrip,
            rstrip,
        },
        Boundary::EndSwitch { after, lstrip, rstrip } => Bd::EndSwitch {
            after: after as int,
            lstrip,
            rstrip,
        },
        Boundary::Eof(at) => Bd::Eof { at: at as int },
    }
}

/// The boundary a `case`, `default` or `endswitch` tag makes.
fn boundary_for(kw: &[char], inner: &[char], after: usize) -> (res: Option<Boundary>)
    ensures
        match res {
            Some(b) => boundary_for_spec(kw@, inner@, after as int) == Some(bview(b)),
            None => boundary_for_spec(kw@, inner@, after as int) is None,
        },
{
    let lstrip = inner.len() > 0 && inner[0] == '-';
    let rstrip = inner.len() > 0 && inner[inner.len() - 1] == '-';
    let case_kw = chars_of("case");
    let default_kw = chars_of("default");
    let end_kw = chars_of("endswitch");
    if chars_eq(kw, case_kw.as_slice()) {
        let args = args_after(inner, case_kw.as_slice());
        Some(Boundary::Case { args, after, lstrip, rstrip })
    } else if chars_eq(kw, default_kw.as_slice()) {
        Some(Boundary::Default { after, lstrip, rstrip })
    } else if chars_eq(kw, end_kw.as_slice()) {
        Some(Boundary::EndSwitch { after, lstrip, rstrip })
    } else {
        None
    }
}

/// A finished body, left-trimmed when `trim_open`.
fn finish(body: Vec<char>, trim_open: bool) -> (res: Vec<char>)
    ensures
        res@ == finish_body(body@, trim_open),
{
    if trim_open {
        trim_start_vec(body.as_slice())
    } else {
        body
    }
}

/// A branch body, right-trimmed when the closing tag opens with `{%-`.
fn close_trim_vec(body: Vec<char>, next: &Boundary) -> (res: Vec<char>)
    ensures
        res@ == close_trim(body@, bview(*next)),
{
    let lstrip = match next {
        Boundary::Case { lstrip, .. } => *lstrip,
        Boundary::Default { lstrip, .. } => *lstrip,
        Boundary::EndSwitch { lstrip, .. } => *lstrip,
        Boundary::Eof(_) => false,
    };
    if lstrip {
        trim_end_vec(body.as_slice())
    } else {
        body
    }
}

/// Copy and transform source from `start` until a switch boundary tag (or
/// the end), rewriting nested switches.
fn read_body(
    src: &[char],
    start: usize,
    trim_open: bool,
    ctr: &mut usize,
    err: &mut Option<Vec<char>>,
) -> (res: (Vec<char>, Boundary))
    requires
        start <= src@.len(),
        *old(ctr) <= start,
    ensures
        (res.0@, bview(res.1), *final(ctr) as nat, opt_seq(*final(err))) == body_spec(
            src@,
            start as int,
            trim_open,
            *old(ctr) as nat,
            opt_seq(*old(err)),
        ),
        advances(bview(res.1), start as int, src@.len() as int),
        *final(ctr) <= bd_pos(bview(res.1)),
    decreases 2 * (src@.len() - start) + 1, 2int,
{
    let ghost c0 = *ctr as nat;
    let ghost e0 = opt_seq(*err);
    let mut out: Vec<char> = Vec::new();
    let mut cur: usize = start;
    let mut trim_next = false;
    let switch_kw = chars_of("switch");
    loop
        invariant
            start <= cur <= src@.len(),
            *ctr <= cur,
            switch_kw@ == "switch"@,
            c0 == *old(ctr) as nat,
            e0 == opt_seq(*old(err)),
            scan_loop(src@, cur as int, out@, trim_next, *ctr as nat, opt_seq(*err)) == scan_loop(
                src@,
                start as int,
                seq![],
                false,
                c0,
                e0,
            ),
        decreases src@.len() - cur,
    {
        match find_tag(src, cur) {
            None => {
                let tail = copy_range(src, cur, src.len());
                assert(tail@ =~= src@.skip(cur as int));
                push_raw(&mut out, tail.as_slice(), trim_next);
                let body = finish(out, trim_open);
                return (body, Boundary::Eof(src.len()));
            },
            Some((s, e)) => {
                let mid = copy_range(src, cur, s);
                push_raw(&mut out, mid.as_slice(), trim_next);
                trim_next = false;
                let inner = copy_range(src, s + 2, e);
                let kw = keyword(inner.as_slice());
                if chars_eq(kw.as_slice(), switch_kw.as_slice()) {
                    if inner.len() > 0 && inner[0] == '-' {
                        out = trim_end_vec(out.as_slice());
                    }
                    let (text, after, rstrip) = switch_block(src, s, e, ctr, err);
                    push_chars(&mut out, text.as_slice());
                    trim_next = rstrip;
                    cur = after;
                } else {
                    assert(src@.len() == src.len());
                    match boundary_for(kw.as_slice(), inner.as_slice(), e + 2) {
                        Some(b) => {
                            let body = finish(out, trim_open);
                            return (body, b);
                        },
                        None => {
                            let tag = copy_range(src, s, e + 2);
                            push_chars(&mut out, tag.as_slice());
                            cur = e + 2;
                        },
                    }
                }
            },
        }
    }
}

/// Rewrite the switch whose opening tag spans `src[s..e + 2]`; returns the
/// rendered chain, the position after its `endswitch` and that tag's
/// trailing trim marker.
fn switch_block(
    src: &[char],
    s: usize,
    e: usize,
    ctr: &mut usize,
    err: &mut Option<Vec<char>>,
) -> (res: (Vec<char>, usize, bool))
    requires
        tag_ok(TagV { start: s as int, end: e as int }, 0, src@.len() as int),
        *old(ctr) <= s,
    ensures
        (res.0@, res.1 as int, res.2, *final(ctr) as nat, opt_seq(*final(err))) == switch_spec(
            src@,
            TagV { start: s as int, end: e as int },
            *old(ctr) as nat,
            opt_seq(*old(err)),
        ),
        e + 2 <= res.1 <= src@.len(),
        *final(ctr) <= res.1,
    decreases 2 * (src@.len() - s) + 1, 0int,
{
    let ghost c0 = *ctr as nat;
    let ghost e0 = opt_seq(*err);
    let inner = copy_range(src, s + 2, e);
    let switch_kw = chars_of("switch");
    let subject = args_after(inner.as_slice(), switch_kw.as_slice());
    let mut var = chars_of("__tpdf_switch_");
    let digits = decimal_chars(*ctr);
    push_chars(&mut var, digits.as_slice());
    assert(var@ == var_name(c0));
    assert(src@.len() == src.len());
    *ctr = *ctr + 1;
    let (pre, first) = read_body(src, e + 2, false, ctr, err);
    let pre_t = trim_chars(pre.as_slice());
    if pre_t.len() > 0 {
        set_error(err, "text before first {% case %} in {% switch %}");
    }
    let ghost c1 = *ctr as nat;
    let ghost e2 = opt_seq(*err);
    let ghost g = gather_spec(src@, bview(first), false, seq![], c1, e2);
    assert(switch_spec(src@, TagV { start: s as int, end: e as int }, c0, e0) == (
        render_spec(var@, subject@, g.0),
        g.1,
        g.2,
        g.3,
        g.4,
    ));
    let mut b = first;
    let mut seen_default = false;
    let mut branches: Vec<Branch> = Vec::new();
    assert(branches_view(branches@) =~= Seq::<BranchV>::empty());
    loop
        invariant
            tag_ok(TagV { start: s as int, end: e as int }, 0, src@.len() as int),
            advances(bview(b), e + 2, src@.len() as int),
            *ctr <= bd_pos(bview(b)),
            gather_spec(
                src@,
                bview(b),
                seen_default,
                branches_view(branches@),
                *ctr as nat,
                opt_seq(*err),
            ) == g,
            switch_spec(src@, TagV { start: s as int, end: e as int }, c0, e0) == (
                render_spec(var@, subject@, g.0),
                g.1,
                g.2,
                g.3,
                g.4,
            ),
            c0 == *old(ctr) as nat,
            e0 == opt_seq(*old(err)),
        decreases 2 * (src@.len() - bd_pos(bview(b))) + (if bview(b) is Eof {
            0int
        } else {
            1int
        }),
    {
        match b {
            Boundary::EndSwitch { after, rstrip, .. } => {
                let text = render_switch(var.as_slice(), subject.as_slice(), &branches);
                return (text, after, rstrip);
            },
            Boundary::Eof(at) => {
                set_error(err, "unterminated {% switch %}");
                let text = render_switch(var.as_slice(), subject.as_slice(), &branches);
                return (text, at, false);
            },
            Boundary::Case { args, after, rstrip, .. } => {
                let (body, next) = read_body(src, after, rstrip, ctr, err);
                if seen_default {
                    set_error(err, "{% case %} after {% default %}");
                }
                let body2 = close_trim_vec(body, &next);
                let ghost before = branches_view(branches@);
                branches.push(Branch::Case { args, body: body2 });
                assert(branches_view(branches@) =~= before.push(
                    BranchV::Case { args: args@, body: body2@ },
                ));
                b = next;
            },
            Boundary::Default { after, rstrip, .. } => {
                let (body, next) = read_body(src, after, rstrip, ctr, err);
                if has_prior_default(&branches) {
                    set_error(err, "multiple {% default %} in {% switch %}");
                }
                let body2 = close_trim_vec(body, &next);
                let ghost before = branches_view(branches@);
                branches.push(Branch::Default { body: body2 });
                assert(branches_view(branches@) =~= before.push(BranchV::Default { body: body2@ }));
                seen_default = true;
                b = next;
            },
        }
    }
}

/// The error every malformed switch reports.
fn syntax_error(message: Vec<char>) -> (res: CompileError)
    ensures
        res.message@ == message@,
        res.code == ErrorCode::TemplateSyntax,
        res.span == (Span { line: 0, col: 0, byte_offset: 0 }),
{
    CompileError {
        code: ErrorCode::TemplateSyntax,
        message: string_of(message.as_slice()),
        span: Span::default(),
    }
}

/// Rewrite every `{% switch %}` block in `src` into equivalent `{% if %}`
/// chains; templates without `switch` come back unchanged. Fails with the
/// first syntax error found (a template-syntax error with no position).
pub fn desugar(src: &str) -> (res: Result<String, CompileError>)
    ensures
        match res {
            Ok(s) => desugar_spec(src@) == Ok::<Seq<char>, Seq<char>>(s@),
            Err(e) => desugar_spec(src@) == Err::<Seq<char>, Seq<char>>(e.message@) && e.code
                == ErrorCode::TemplateSyntax && e.span == (Span { line: 0, col: 0, byte_offset: 0 }),
        },
{
    let cs = chars_of(src);
    let mut ctr: usize = 0;
    let mut err: Option<Vec<char>> = None;
    let (out, b) = read_body(cs.as_slice(), 0, false, &mut ctr, &mut err);
    match err {
        Some(m) => Err(syntax_error(m)),
        None => match b {
            Boundary::Eof(_) => Ok(string_of(out.as_slice())),
            Boundary::Case { .. } => Err(syntax_error(chars_of("{% case %} outside of {% switch %}"))),
            Boundary::Default { .. } => Err(
                syntax_error(chars_of("{% default %} outside of {% switch %}")),
            ),
            Boundary::EndSwitch { .. } => Err(
                syntax_error(chars_of("{% endswitch %} without {% switch %}")),
            ),
        },
    }
}


// ---------------------------------------------------------------------------
// Laws
// ---------------------------------------------------------------------------
/// The keywords that take part in a switch.
pub open spec fn switch_keyword(kw: Seq<char>) -> bool {
    kw == "switch"@ || kw == "case"@ || kw == "default"@ || kw == "endswitch"@
}

/// Whether every statement tag from `cur` on has an ordinary keyword (none
/// of `switch`, `case`, `default`, `endswitch`).
pub open spec fn plain_from(src: Seq<char>, cur: int) -> bool
    decreases src.len() - cur,
{
    if !(0 <= cur <= src.len()) {
        false
    } else {
        match tag_at(src, cur) {
            None => true,
            Some(t) => tag_ok(t, cur, src.len() as int) && !switch_keyword(
                keyword_spec(src.subrange(t.start + 2, t.end)),
            ) && plain_from(src, t.end + 2),
        }
    }
}

/// Scanning text whose tags are all ordinary copies it through unchanged.
pub proof fn lemma_plain_scan(
    src: Seq<char>,
    cur: int,
    out: Seq<char>,
    ctr: nat,
    err: Option<Seq<char>>,
)
    requires
        plain_from(src, cur),
    ensures
        scan_loop(src, cur, out, false, ctr, err) == (
            out + src.skip(cur),
            Bd::Eof { at: src.len() as int },
            ctr,
            err,
        ),
    decreases src.len() - cur,
{
    match tag_at(src, cur) {
        None => {},
        Some(t) => {
            let inner = src.subrange(t.start + 2, t.end);
            assert(boundary_for_spec(keyword_spec(inner), inner, t.end + 2) is None);
            let out1 = out + src.subrange(cur, t.start);
            lemma_plain_scan(src, t.end + 2, out1 + src.subrange(t.start, t.end + 2), ctr, err);
            assert(out1 + src.subrange(t.start, t.end + 2) + src.skip(t.end + 2) =~= out + src.skip(
                cur,
            ));
        },
    }
}

/// A template none of whose statement tags is `switch`, `case`, `default` or
/// `endswitch` desugars to itself.
pub proof fn desugar_without_switch_is_identity(src: Seq<char>)
    requires
        plain_from(src, 0),
    ensures
        desugar_spec(src) == Ok::<Seq<char>, Seq<char>>(src),
{
    lemma_plain_scan(src, 0, seq![], 0, None);
    assert(seq![] + src.skip(0) =~= src);
}

} // verus!
