//! A small CSS parser for the supported subset. At-rules (`@page`, `@media`,
//! …) are sliced out here and handled elsewhere; unknown at-rules are kept for
//! the later phases to drop.
use vstd::prelude::*;
use crate::bytes::{find_spec, lemma_find_skip, lemma_find_spec_props};
use crate::chars::{
    ascii_lower, chars_of, copy_range, ends_with, find_chars, has_suffix, is_whitespace, is_ws,
    push_chars, split_char, split_on, string_of, texts_view, to_lower, trim, trim_chars,
};
use crate::style::selector::{
    Selector, SelectorView, parse_selector_list, parse_selector_list_spec, selectors_view,
};

verus! {

/// A single `property: value` declaration.
#[derive(Debug, Clone, PartialEq, Eq)]
pub struct Declaration {
    pub property: String,
    pub value: String,
    pub important: bool,
}

/// The plain-value picture of a [`Declaration`].
pub struct DeclView {
    pub property: Seq<char>,
    pub value: Seq<char>,
    pub important: bool,
}

impl View for Declaration {
    type V = DeclView;

    open spec fn view(&self) -> DeclView {
        DeclView { property: self.property@, value: self.value@, important: self.important }
    }
}

/// The views of a list of declarations.
pub open spec fn decls_view(s: Seq<Declaration>) -> Seq<DeclView> {
    s.map_values(|d: Declaration| d@)
}

/// A style rule: a selector list sharing a declaration block.
#[derive(Debug, PartialEq, Eq)]
pub struct Rule {
    pub selectors: Vec<Selector>,
    pub declarations: Vec<Declaration>,
}

/// The plain-value picture of a [`Rule`].
pub struct RuleView {
    pub selectors: Seq<SelectorView>,
    pub declarations: Seq<DeclView>,
}

/// The view of a rule.
pub open spec fn rule_view(r: Rule) -> RuleView {
    RuleView { selectors: selectors_view(r.selectors@), declarations: decls_view(r.declarations@) }
}

/// The views of a list of rules.
pub open spec fn rules_view(s: Seq<Rule>) -> Seq<RuleView> {
    s.map_values(|r: Rule| rule_view(r))
}

/// An at-rule kept for a later phase, e.g. `@page { ... }`.
#[derive(Debug, Clone, PartialEq, Eq)]
pub struct AtRule {
    pub name: String,
    pub prelude: String,
    pub body: String,
}

/// The plain-value picture of an [`AtRule`].
pub struct AtRuleView {
    pub name: Seq<char>,
    pub prelude: Seq<char>,
    pub body: Seq<char>,
}

impl View for AtRule {
    type V = AtRuleView;

    open spec fn view(&self) -> AtRuleView {
        AtRuleView { name: self.name@, prelude: self.prelude@, body: self.body@ }
    }
}

/// The views of a list of at-rules.
pub open spec fn at_rules_view(s: Seq<AtRule>) -> Seq<AtRuleView> {
    s.map_values(|a: AtRule| a@)
}

/// A parsed stylesheet plus the at-rules kept verbatim for later phases.
#[derive(Debug, PartialEq, Eq)]
pub struct Stylesheet {
    pub rules: Vec<Rule>,
    pub at_rules: Vec<AtRule>,
}

impl Default for Stylesheet {
    fn default() -> (res: Stylesheet)
        ensures
            res.rules@.len() == 0,
            res.at_rules@.len() == 0,
    {
        Stylesheet { rules: Vec::new(), at_rules: Vec::new() }
    }
}

// ---------------------------------------------------------------------------
// comments and declarations
// ---------------------------------------------------------------------------

/// `css` without its `/* … */` comments; an unterminated comment runs to the
/// end.
pub open spec fn strip_comments_spec(s: Seq<char>) -> Seq<char>
    decreases s.len(),
{
    match find_spec(s, seq!['/', '*'], 0) {
        None => s,
        Some(o) => {
            proof {
                lemma_find_spec_props(s, seq!['/', '*'], 0);
            }
            let after = s.skip(o + 2);
            s.take(o) + match find_spec(after, seq!['*', '/'], 0) {
                None => Seq::empty(),
                Some(c) => {
                    proof {
                        lemma_find_spec_props(after, seq!['*', '/'], 0);
                    }
                    strip_comments_spec(after.skip(c + 2))
                },
            }
        },
    }
}

/// Remove `/* ... */` comments from CSS source.
pub fn strip_comments(css: &str) -> (res: String)
    ensures
        res@ == strip_comments_spec(css@),
{
    let s = chars_of(css);
    let n = s.len();
    let open: [char; 2] = ['/', '*'];
    let close: [char; 2] = ['*', '/'];
    assert(open@ =~= seq!['/', '*']);
    assert(close@ =~= seq!['*', '/']);
    let ghost full = strip_comments_spec(s@);
    let mut out: Vec<char> = Vec::new();
    let mut j: usize = 0;
    assert(s@.skip(0) =~= s@);
    assert(out@ + full =~= full);
    loop
        invariant
            j <= n,
            n == s@.len(),
            s@ == css@,
            open@ == seq!['/', '*'],
            close@ == seq!['*', '/'],
            full == strip_comments_spec(s@),
            out@ + strip_comments_spec(s@.skip(j as int)) == full,
        decreases n - j,
    {
        let ghost rest = s@.skip(j as int);
        proof {
            lemma_find_skip(s@, seq!['/', '*'], j as int, 0);
            lemma_find_spec_props(s@, seq!['/', '*'], j as int);
        }
        match find_chars(s.as_slice(), &open, j) {
            None => {
                let tail = copy_range(s.as_slice(), j, n);
                assert(tail@ =~= rest);
                push_chars(&mut out, tail.as_slice());
                return string_of(out.as_slice());
            },
            Some(o) => {
                let head = copy_range(s.as_slice(), j, o);
                assert(head@ =~= rest.take(o - j));
                let ghost o0 = out@;
                push_chars(&mut out, head.as_slice());
                let ghost after = rest.skip(o - j + 2);
                assert(after =~= s@.skip(o + 2));
                proof {
                    lemma_find_skip(s@, seq!['*', '/'], o + 2, 0);
                    lemma_find_spec_props(s@, seq!['*', '/'], o + 2);
                }
                match find_chars(s.as_slice(), &close, o + 2) {
                    None => {
                        assert(out@ =~= o0 + (head@ + Seq::<char>::empty()));
                        return string_of(out.as_slice());
                    },
                    Some(c) => {
                        assert(after.skip(c - (o + 2) + 2) =~= s@.skip(c + 2));
                        assert(o0 + (head@ + strip_comments_spec(s@.skip(c + 2))) =~= out@ + strip_comments_spec(
                            s@.skip(c + 2),
                        ));
                        j = c + 2;
                    },
                }
            },
        }
    }
}

/// A value and whether it ended in `!important` (removed, and the rest
/// trimmed).
pub open spec fn split_important_spec(v: Seq<char>) -> (Seq<char>, bool) {
    if ends_with(v, "!important"@) {
        (trim(v.take(v.len() - "!important"@.len())), true)
    } else {
        (trim(v), false)
    }
}

/// The declaration `property: value [!important]` written as `text`: the
/// property is what precedes the first `:`, trimmed and lowercased; `None`
/// without a `:`, or when the property or the value is empty.
pub open spec fn parse_declaration_spec(text: Seq<char>) -> Option<DeclView> {
    match find_spec(text, seq![':'], 0) {
        None => None,
        Some(k) => {
            let property = ascii_lower(trim(text.take(k)));
            let (value, important) = split_important_spec(trim(text.skip(k + 1)));
            if property.len() == 0 || value.len() == 0 {
                None
            } else {
                Some(DeclView { property, value, important })
            }
        },
    }
}

/// The declarations of a list of pieces, the ones that are none dropped.
pub open spec fn decls_of(pieces: Seq<Seq<char>>) -> Seq<DeclView>
    decreases pieces.len(),
{
    if pieces.len() == 0 {
        Seq::empty()
    } else {
        decls_of(pieces.drop_last()) + match parse_declaration_spec(pieces.last()) {
            Some(d) => seq![d],
            None => Seq::empty(),
        }
    }
}

/// The declarations of a `;`-separated declaration block body.
pub open spec fn parse_declarations_spec(body: Seq<char>) -> Seq<DeclView> {
    decls_of(split_on(body, ';'))
}

/// Parse a single declaration like `font-weight: 700 !important`.
fn parse_declaration(text: &[char]) -> (res: Option<Declaration>)
    ensures
        match res {
            Some(d) => parse_declaration_spec(text@) == Some(d@),
            None => parse_declaration_spec(text@) is None,
        },
{
    let colon: [char; 1] = [':'];
    assert(colon@ =~= seq![':']);
    let k = match find_chars(text, &colon, 0) {
        Some(k) => k,
        None => return None,
    };
    let n = text.len();
    let head = copy_range(text, 0, k);
    let tail = copy_range(text, k + 1, n);
    assert(head@ =~= text@.take(k as int));
    assert(tail@ =~= text@.skip(k + 1));
    let prop = to_lower(trim_chars(head.as_slice()).as_slice());
    let v = trim_chars(tail.as_slice());
    let imp = chars_of("!important");
    let (value, important) = if has_suffix(v.as_slice(), imp.as_slice()) {
        let h = copy_range(v.as_slice(), 0, v.len() - imp.len());
        assert(h@ =~= v@.take(v@.len() - "!important"@.len()));
        (trim_chars(h.as_slice()), true)
    } else {
        (trim_chars(v.as_slice()), false)
    };
    if prop.len() == 0 || value.len() == 0 {
        return None;
    }
    Some(Declaration { property: string_of(prop.as_slice()), value: string_of(value.as_slice()), important })
}

/// The declarations of the pieces of a `;`-separated block.
fn decls_of_pieces(pieces: &Vec<Vec<char>>) -> (res: Vec<Declaration>)
    ensures
        decls_view(res@) == decls_of(texts_view(pieces@)),
{
    let ghost pv = texts_view(pieces@);
    let mut out: Vec<Declaration> = Vec::new();
    let mut i: usize = 0;
    assert(decls_view(out@) =~= Seq::<DeclView>::empty());
    assert(pv.take(0) =~= Seq::<Seq<char>>::empty());
    while i < pieces.len()
        invariant
            i <= pieces@.len(),
            pv == texts_view(pieces@),
            decls_view(out@) == decls_of(pv.take(i as int)),
        decreases pieces@.len() - i,
    {
        assert(pv.take(i + 1).drop_last() =~= pv.take(i as int));
        assert(pv.take(i + 1).last() == pieces@[i as int]@);
        let ghost o0 = out@;
        match parse_declaration(pieces[i].as_slice()) {
            Some(d) => {
                out.push(d);
                assert(decls_view(out@) =~= decls_view(o0) + seq![d@]);
            },
            None => {
                assert(decls_view(out@) =~= decls_view(o0) + Seq::<DeclView>::empty());
            },
        }
        i += 1;
    }
    assert(pv.take(i as int) =~= pv);
    out
}

/// Parse a `;`-separated declaration block body.
pub fn parse_declarations(body: &str) -> (res: Vec<Declaration>)
    ensures
        decls_view(res@) == parse_declarations_spec(body@),
{
    let s = chars_of(body);
    let pieces = split_char(s.as_slice(), ';');
    decls_of_pieces(&pieces)
}


// ---------------------------------------------------------------------------
// top-level chunks
// ---------------------------------------------------------------------------

/// A top-level chunk of the stylesheet: either a qualified rule or an at-rule.
struct Chunk {
    prelude: Vec<char>,
    body: Vec<char>,
    is_at_rule: bool,
}

/// The plain-value picture of a chunk.
pub struct ChunkView {
    pub prelude: Seq<char>,
    pub body: Seq<char>,
    pub is_at_rule: bool,
}

spec fn chunk_view(c: Chunk) -> ChunkView {
    ChunkView { prelude: c.prelude@, body: c.body@, is_at_rule: c.is_at_rule }
}

spec fn chunks_view(s: Seq<Chunk>) -> Seq<ChunkView> {
    s.map_values(|c: Chunk| chunk_view(c))
}

/// The chunk a closed block makes: its trimmed prelude (none when empty) and
/// its body.
pub open spec fn finish_chunk_spec(prelude: Seq<char>, body: Seq<char>) -> Option<ChunkView> {
    let t = trim(prelude);
    if t.len() == 0 {
        None
    } else {
        Some(ChunkView { prelude: t, body, is_at_rule: t[0] == '@' })
    }
}

/// The scanner's state: the prelude and body being read, the brace depth, and
/// the chunks so far.
pub struct ScanState {
    pub prelude: Seq<char>,
    pub body: Seq<char>,
    pub depth: u32,
    pub chunks: Seq<ChunkView>,
}

/// The scanner after one more character. A `{` at depth 0 opens a block; a
/// `}` at depth 1 closes it into a chunk; other braces nest inside the body.
/// The depth counter wraps around at the ends of its range (a `}` with no open
/// block wraps it to the top).
pub open spec fn scan_step(st: ScanState, ch: char) -> ScanState {
    if ch == '{' && st.depth == 0 {
        ScanState { depth: 1, ..st }
    } else if ch == '{' {
        ScanState { depth: if st.depth == u32::MAX { 0 } else { (st.depth + 1) as u32 }, body: st.body.push(ch), ..st }
    } else if ch == '}' && st.depth == 1 {
        ScanState {
            chunks: match finish_chunk_spec(st.prelude, st.body) {
                Some(c) => st.chunks.push(c),
                None => st.chunks,
            },
            prelude: Seq::empty(),
            body: Seq::empty(),
            depth: 0,
        }
    } else if ch == '}' {
        ScanState { depth: if st.depth == 0 { u32::MAX } else { (st.depth - 1) as u32 }, body: st.body.push(ch), ..st }
    } else if st.depth == 0 {
        ScanState { prelude: st.prelude.push(ch), ..st }
    } else {
        ScanState { body: st.body.push(ch), ..st }
    }
}

/// The scanner after all of `s`.
pub open spec fn scan_fold(s: Seq<char>) -> ScanState
    decreases s.len(),
{
    if s.len() == 0 {
        ScanState { prelude: Seq::empty(), body: Seq::empty(), depth: 0, chunks: Seq::empty() }
    } else {
        scan_step(scan_fold(s.drop_last()), s.last())
    }
}

/// Split a stylesheet into top-level brace-delimited chunks, tracking nesting
/// so at-rule bodies with inner braces stay intact.
fn split_chunks(css: &[char]) -> (res: Vec<Chunk>)
    ensures
        chunks_view(res@) == scan_fold(css@).chunks,
{
    let mut prelude: Vec<char> = Vec::new();
    let mut body: Vec<char> = Vec::new();
    let mut depth: u32 = 0;
    let mut chunks: Vec<Chunk> = Vec::new();
    let mut i: usize = 0;
    assert(chunks_view(chunks@) =~= Seq::<ChunkView>::empty());
    while i < css.len()
        invariant
            i <= css@.len(),
            (ScanState { prelude: prelude@, body: body@, depth, chunks: chunks_view(chunks@) }) == scan_fold(
                css@.take(i as int),
            ),
        decreases css@.len() - i,
    {
        assert(css@.take(i + 1).drop_last() =~= css@.take(i as int));
        let ghost st = ScanState { prelude: prelude@, body: body@, depth, chunks: chunks_view(chunks@) };
        let ch = css[i];
        if ch == '{' && depth == 0 {
            depth = 1;
        } else if ch == '{' {
            depth = if depth == u32::MAX {
                0
            } else {
                depth + 1
            };
            body.push(ch);
        } else if ch == '}' && depth == 1 {
            let t = trim_chars(prelude.as_slice());
            if t.len() > 0 {
                let mut b: Vec<char> = Vec::new();
                std::mem::swap(&mut b, &mut body);
                let at = t[0] == '@';
                let c = Chunk { prelude: t, body: b, is_at_rule: at };
                let ghost c0 = chunks@;
                chunks.push(c);
                assert(chunks_view(chunks@) =~= chunks_view(c0).push(chunk_view(c)));
            }
            prelude = Vec::new();
            body = Vec::new();
            depth = 0;
        } else if ch == '}' {
            depth = if depth == 0 {
                u32::MAX
            } else {
                depth - 1
            };
            body.push(ch);
        } else if depth == 0 {
            prelude.push(ch);
        } else {
            body.push(ch);
        }
        assert((ScanState { prelude: prelude@, body: body@, depth, chunks: chunks_view(chunks@) }) =~= scan_step(st, ch));
        i += 1;
    }
    assert(css@.take(i as int) =~= css@);
    chunks
}

/// `s` without its leading `@` characters.
pub open spec fn skip_ats(s: Seq<char>) -> Seq<char>
    decreases s.len(),
{
    if s.len() > 0 && s[0] == '@' {
        skip_ats(s.drop_first())
    } else {
        s
    }
}

/// The index of the first whitespace or `(` of `s`, if any.
pub open spec fn name_stop(s: Seq<char>, i: int) -> Option<int>
    decreases s.len() - i,
{
    if i < 0 || i >= s.len() {
        None
    } else if is_ws(s[i]) || s[i] == '(' {
        Some(i)
    } else {
        name_stop(s, i + 1)
    }
}

/// The at-rule a chunk holds: the name (up to the first whitespace or `(`,
/// trimmed and lowercased) after the leading `@`s, the rest of the prelude
/// trimmed, and the trimmed body.
pub open spec fn at_rule_spec(c: ChunkView) -> AtRuleView {
    let p = skip_ats(c.prelude);
    let (name, rest) = match name_stop(p, 0) {
        Some(i) => (p.take(i), p.skip(i)),
        None => (p, Seq::empty()),
    };
    AtRuleView { name: ascii_lower(trim(name)), prelude: trim(rest), body: trim(c.body) }
}

/// The rule a chunk holds, or `None` when its prelude holds no selector.
pub open spec fn rule_spec(c: ChunkView) -> Option<RuleView> {
    let selectors = parse_selector_list_spec(c.prelude);
    if selectors.len() == 0 {
        None
    } else {
        Some(RuleView { selectors, declarations: parse_declarations_spec(c.body) })
    }
}

/// The stylesheet the chunks make, in order.
pub struct SheetView {
    pub rules: Seq<RuleView>,
    pub at_rules: Seq<AtRuleView>,
}

/// The rules and at-rules of a list of chunks, each in order.
pub open spec fn sheet_of(chunks: Seq<ChunkView>) -> SheetView
    decreases chunks.len(),
{
    if chunks.len() == 0 {
        SheetView { rules: Seq::empty(), at_rules: Seq::empty() }
    } else {
        let sh = sheet_of(chunks.drop_last());
        let c = chunks.last();
        if c.is_at_rule {
            SheetView { at_rules: sh.at_rules.push(at_rule_spec(c)), ..sh }
        } else {
            match rule_spec(c) {
                Some(r) => SheetView { rules: sh.rules.push(r), ..sh },
                None => sh,
            }
        }
    }
}

/// The stylesheet written as `css`.
pub open spec fn parse_stylesheet_spec(css: Seq<char>) -> SheetView {
    sheet_of(scan_fold(strip_comments_spec(css)).chunks)
}

/// The view of a stylesheet.
pub open spec fn sheet_view(s: Stylesheet) -> SheetView {
    SheetView { rules: rules_view(s.rules@), at_rules: at_rules_view(s.at_rules@) }
}

fn at_rule_from(c: &Chunk) -> (res: AtRule)
    ensures
        res@ == at_rule_spec(chunk_view(*c)),
{
    let pre = c.prelude.as_slice();
    let n = pre.len();
    let mut a: usize = 0;
    assert(pre@.skip(0) =~= pre@);
    while a < n && pre[a] == '@'
        invariant
            a <= n,
            n == pre@.len(),
            skip_ats(pre@) == skip_ats(pre@.skip(a as int)),
        decreases n - a,
    {
        assert(pre@.skip(a as int).drop_first() =~= pre@.skip(a + 1));
        a += 1;
    }
    assert(skip_ats(pre@.skip(a as int)) == pre@.skip(a as int));
    let ghost p = pre@.skip(a as int);
    let mut i = a;
    while i < n && !(is_whitespace(pre[i]) || pre[i] == '(')
        invariant
            a <= i <= n,
            n == pre@.len(),
            p == pre@.skip(a as int),
            name_stop(p, 0) == name_stop(p, i - a),
        decreases n - i,
    {
        i += 1;
    }
    let name = copy_range(pre, a, i);
    let rest = copy_range(pre, i, n);
    assert(name@ =~= (if i < n { p.take(i - a) } else { p }));
    assert(rest@ =~= (if i < n { p.skip(i - a) } else { Seq::<char>::empty() }));
    let lname = to_lower(trim_chars(name.as_slice()).as_slice());
    let tr = trim_chars(rest.as_slice());
    let tb = trim_chars(c.body.as_slice());
    AtRule { name: string_of(lname.as_slice()), prelude: string_of(tr.as_slice()), body: string_of(tb.as_slice()) }
}

fn rule_from(c: &Chunk) -> (res: Option<Rule>)
    ensures
        match res {
            Some(r) => rule_spec(chunk_view(*c)) == Some(rule_view(r)),
            None => rule_spec(chunk_view(*c)) is None,
        },
{
    let pre = string_of(c.prelude.as_slice());
    let selectors = parse_selector_list(pre.as_str());
    if selectors.len() == 0 {
        assert(selectors_view(selectors@).len() == 0);
        return None;
    }
    let b = string_of(c.body.as_slice());
    let declarations = parse_declarations(b.as_str());
    Some(Rule { selectors, declarations })
}

/// Parse a CSS stylesheet into qualified rules and at-rules.
pub fn parse_stylesheet(css: &str) -> (res: Stylesheet)
    ensures
        sheet_view(res) == parse_stylesheet_spec(css@),
{
    let cleaned = strip_comments(css);
    let cs = chars_of(cleaned.as_str());
    let chunks = split_chunks(cs.as_slice());
    let ghost cv = chunks_view(chunks@);
    let mut sheet = Stylesheet::default();
    let mut i: usize = 0;
    assert(rules_view(sheet.rules@) =~= Seq::<RuleView>::empty());
    assert(at_rules_view(sheet.at_rules@) =~= Seq::<AtRuleView>::empty());
    assert(sheet_view(sheet) == sheet_of(cv.take(0)));
    while i < chunks.len()
        invariant
            i <= chunks@.len(),
            cv == chunks_view(chunks@),
            sheet_view(sheet) == sheet_of(cv.take(i as int)),
        decreases chunks@.len() - i,
    {
        assert(cv.take(i + 1).drop_last() =~= cv.take(i as int));
        assert(cv.take(i + 1).last() == chunk_view(chunks@[i as int]));
        let c = &chunks[i];
        let ghost sv = sheet_view(sheet);
        if c.is_at_rule {
            let a = at_rule_from(c);
            let ghost a0 = sheet.at_rules@;
            sheet.at_rules.push(a);
            assert(at_rules_view(sheet.at_rules@) =~= at_rules_view(a0).push(a@));
        } else {
            match rule_from(c) {
                Some(r) => {
                    let ghost r0 = sheet.rules@;
                    sheet.rules.push(r);
                    assert(rules_view(sheet.rules@) =~= rules_view(r0).push(rule_view(r)));
                },
                None => {},
            }
        }
        i += 1;
    }
    assert(cv.take(i as int) =~= cv);
    sheet
}
} // verus!
