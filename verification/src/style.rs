//! The style system: CSS parsing, the selector engine, named style tokens, and
//! cascade + inheritance into a styled tree.
pub mod cascade;
pub mod media;
pub mod parser;
pub mod selector;
pub mod token;

use vstd::prelude::*;
use crate::chars::{chars_eq, chars_of};
use crate::style::cascade::{Cascade, LeveledRule, LeveledView, cascade_view, cascade_wf, leveled_view};
use crate::style::parser::{Rule, RuleView, Stylesheet, at_rules_view, parse_stylesheet, parse_stylesheet_spec, rule_view, rules_view};
use crate::style::selector::{TokenView, build_fold, parse_selector_list_spec, selectors_of};
use crate::style::cascade::selector_wf;
use crate::style::token::TokenSet;

verus! {

/// A minimal user-agent stylesheet: the defaults the cascade starts from.
pub const UA_CSS: &'static str = "
body { font-family: sans-serif }
code, kbd, samp, pre { font-family: monospace }
b { font-weight: bold }
strong { font-weight: bold }
i { font-style: italic }
em { font-style: italic }
a { color: #0000ee; display: inline }
h1 { font-weight: bold; font-size: 2em }
h2 { font-weight: bold; font-size: 1.5em }
small { font-size: 0.8em; display: inline }
span { display: inline }
b, strong, i, em { display: inline }
code, kbd, samp { display: inline }
sub, sup, abbr, cite, q, mark, u, s, label, time { display: inline }
sub { vertical-align: sub }
sup { vertical-align: super }
table { display: table; text-align: left }
thead { display: table-header-group }
tfoot { display: table-footer-group }
tr { display: table-row }
td, th { display: table-cell }
li { display: list-item }
center { display: block; text-align: center }
";

/// Whether the media table says a `@media` query matches (no entry: it does
/// not).
pub open spec fn media_of(media: Seq<(Seq<char>, bool)>, q: Seq<char>) -> bool
    decreases media.len(),
{
    if media.len() == 0 {
        false
    } else if media[0].0 == q {
        media[0].1
    } else {
        media_of(media.drop_first(), q)
    }
}

/// The views of a media table.
pub open spec fn media_view(m: Seq<(String, bool)>) -> Seq<(Seq<char>, bool)> {
    m.map_values(|e: (String, bool)| (e.0@, e.1))
}

/// The rules `rules` tagged with `level` and the source orders from `order`
/// on.
pub open spec fn leveled(rules: Seq<RuleView>, level: u8, order: int) -> Seq<LeveledView> {
    Seq::new(rules.len(), |i: int| LeveledView { level, order: (order + i) as usize, rule: rules[i] })
}

/// The rules a stylesheet contributes at `level` with source orders from
/// `order` on: its own rules, then those of each `@media` block whose query
/// matches (in turn, the blocks nested in those). A block whose body is not
/// shorter than its sheet would not be read.
pub open spec fn add_css(css: Seq<char>, level: u8, order: int, media: Seq<(Seq<char>, bool)>) -> Seq<LeveledView>
    decreases css.len(), 1nat, 0int,
{
    let sheet = parse_stylesheet_spec(css);
    let own = leveled(sheet.rules, level, order);
    own + add_media(sheet.at_rules, sheet.at_rules.len() as int, css.len() as int, level, order + own.len(), media)
}

/// The rules of the matching `@media` blocks among the first `n` at-rules
/// (bodies shorter than `bound` only).
pub open spec fn add_media(
    ats: Seq<crate::style::parser::AtRuleView>,
    n: int,
    bound: int,
    level: u8,
    order: int,
    media: Seq<(Seq<char>, bool)>,
) -> Seq<LeveledView>
    decreases bound, 0nat, n,
{
    if n <= 0 || n > ats.len() {
        Seq::empty()
    } else {
        let before = add_media(ats, n - 1, bound, level, order, media);
        let at = ats[n - 1];
        if at.name == "media"@ && media_of(media, at.prelude) && at.body.len() < bound {
            before + add_css(at.body, level, order + before.len(), media)
        } else {
            before
        }
    }
}


/// The views of a list of leveled rules.
pub open spec fn leveled_rules_view(s: Seq<LeveledRule>) -> Seq<LeveledView> {
    s.map_values(|lr: LeveledRule| leveled_view(lr))
}

/// Whether the media table says the query `q` matches.
fn media_get(media: &Vec<(String, bool)>, q: &String) -> (res: bool)
    ensures
        res == media_of(media_view(media@), q@),
{
    let ghost mv = media_view(media@);
    let qc = chars_of(q.as_str());
    let mut i: usize = 0;
    assert(mv.skip(0) =~= mv);
    while i < media.len()
        invariant
            i <= media@.len(),
            mv == media_view(media@),
            qc@ == q@,
            media_of(mv, q@) == media_of(mv.skip(i as int), q@),
        decreases media@.len() - i,
    {
        let k = chars_of(media[i].0.as_str());
        assert(mv.skip(i as int)[0] == mv[i as int]);
        if chars_eq(k.as_slice(), qc.as_slice()) {
            return media[i].1;
        }
        assert(mv.skip(i as int).drop_first() =~= mv.skip(i + 1));
        i += 1;
    }
    false
}

/// Append the rules `css` contributes at `level` (see [`add_css`]); each rule
/// takes the next source order, which is the number of rules so far.
fn add_leveled(rules: &mut Vec<LeveledRule>, level: u8, css: &str, media: &Vec<(String, bool)>)
    ensures
        leveled_rules_view(final(rules)@) == leveled_rules_view(old(rules)@) + add_css(
            css@,
            level,
            old(rules)@.len() as int,
            media_view(media@),
        ),
    decreases css@.len(),
{
    let ghost start = leveled_rules_view(rules@);
    let ghost o0 = rules@.len() as int;
    let sheet = parse_stylesheet(css);
    let ghost sv = parse_stylesheet_spec(css@);
    assert(rules_view(sheet.rules@) == sv.rules);
    let Stylesheet { rules: mut rs, at_rules } = sheet;
    let ghost orig = rules_view(rs@);
    let n = rs.len();
    let mut rev: Vec<Rule> = Vec::new();
    while rs.len() > 0
        invariant
            rev@.len() + rs@.len() == n,
            orig.len() == n,
            rules_view(rs@) == orig.take(rs@.len() as int),
            forall|j: int| 0 <= j < rev@.len() ==> rule_view(#[trigger] rev@[j]) == orig[n - 1 - j],
        decreases rs@.len(),
    {
        let ghost before = rs@;
        let r = rs.pop().unwrap();
        assert(rules_view(before)[before.len() - 1] == rule_view(r));
        assert(rules_view(rs@) =~= orig.take(rs@.len() as int));
        rev.push(r);
    }
    let mut done: usize = 0;
    assert(leveled_rules_view(rules@) == start + leveled(orig, level, o0).take(0));
    while rev.len() > 0
        invariant
            done + rev@.len() == n,
            orig.len() == n,
            rules@.len() == o0 + done,
            forall|j: int| 0 <= j < rev@.len() ==> rule_view(#[trigger] rev@[j]) == orig[n - 1 - j],
            leveled_rules_view(rules@) == start + leveled(orig, level, o0).take(done as int),
        decreases rev@.len(),
    {
        let ghost before = rev@;
        let r = rev.pop().unwrap();
        assert(rule_view(r) == orig[done as int]);
        let order = rules.len();
        let lr = LeveledRule { level, order, rule: r };
        let ghost r0 = rules@;
        rules.push(lr);
        assert(leveled_rules_view(rules@) =~= leveled_rules_view(r0).push(leveled_view(lr)));
        assert(leveled(orig, level, o0).take(done + 1) =~= leveled(orig, level, o0).take(done as int).push(
            leveled(orig, level, o0)[done as int],
        ));
        done += 1;
    }
    assert(leveled(orig, level, o0).take(n as int) =~= leveled(orig, level, o0));
    let ghost mid = leveled_rules_view(rules@);
    let ghost ats = at_rules_view(at_rules@);
    let ghost o1 = o0 + n;
    let css_len = chars_of(css).len();
    let mut k: usize = 0;
    assert(add_media(ats, 0, css@.len() as int, level, o1, media_view(media@)) =~= Seq::<LeveledView>::empty());
    while k < at_rules.len()
        invariant
            k <= at_rules@.len(),
            ats == at_rules_view(at_rules@),
            ats == sv.at_rules,
            css_len == css@.len(),
            leveled_rules_view(rules@) == mid + add_media(ats, k as int, css@.len() as int, level, o1, media_view(media@)),
            rules@.len() == o1 + add_media(ats, k as int, css@.len() as int, level, o1, media_view(media@)).len(),
        decreases at_rules@.len() - k,
    {
        let at = &at_rules[k];
        let is_media = crate::chars::eq_str(chars_of(at.name.as_str()).as_slice(), "media");
        if is_media && media_get(media, &at.prelude) && chars_of(at.body.as_str()).len() < css_len {
            let ghost r0 = leveled_rules_view(rules@);
            add_leveled(rules, level, at.body.as_str(), media);
        }
        k += 1;
    }
    assert(mid + add_media(ats, ats.len() as int, css@.len() as int, level, o1, media_view(media@)) =~= leveled_rules_view(
        rules@,
    ));
}


proof fn lemma_build_fold_shape(toks: Seq<TokenView>)
    ensures
        (build_fold(toks).compounds.len() == 0 && build_fold(toks).combinators.len() == 0)
            || build_fold(toks).combinators.len() + 1 == build_fold(toks).compounds.len(),
    decreases toks.len(),
{
    if toks.len() > 0 {
        lemma_build_fold_shape(toks.drop_last());
    }
}

/// Every selector the selector-list parser yields can be run by the matcher:
/// it has a compound, and one combinator between each two.
pub proof fn parsed_selectors_are_wf(list: Seq<char>)
    ensures
        forall|i: int| 0 <= i < parse_selector_list_spec(list).len() ==> selector_wf(
            #[trigger] parse_selector_list_spec(list)[i],
        ),
{
    lemma_selectors_of_wf(crate::chars::split_on(list, ','));
}

proof fn lemma_selectors_of_wf(pieces: Seq<Seq<char>>)
    ensures
        forall|i: int| 0 <= i < selectors_of(pieces).len() ==> selector_wf(#[trigger] selectors_of(pieces)[i]),
    decreases pieces.len(),
{
    if pieces.len() > 0 {
        lemma_selectors_of_wf(pieces.drop_last());
        let t = crate::chars::trim(pieces.last());
        lemma_build_fold_shape(crate::style::selector::lex_spec(t));
        let a = selectors_of(pieces.drop_last());
        assert forall|i: int| 0 <= i < selectors_of(pieces).len() implies selector_wf(#[trigger] selectors_of(pieces)[i]) by {
            if i < a.len() {
                assert(selectors_of(pieces)[i] == a[i]);
            }
        }
    }
}

/// The rules a stylesheet parses into can all be run by the matcher.
proof fn lemma_sheet_wf(chunks: Seq<crate::style::parser::ChunkView>)
    ensures
        forall|i: int, j: int|
            0 <= i < crate::style::parser::sheet_of(chunks).rules.len() && 0 <= j
                < crate::style::parser::sheet_of(chunks).rules[i].selectors.len() ==> selector_wf(
                #[trigger] crate::style::parser::sheet_of(chunks).rules[i].selectors[j],
            ),
    decreases chunks.len(),
{
    if chunks.len() > 0 {
        lemma_sheet_wf(chunks.drop_last());
        parsed_selectors_are_wf(chunks.last().prelude);
        let sh = crate::style::parser::sheet_of(chunks.drop_last());
        let full = crate::style::parser::sheet_of(chunks);
        assert forall|i: int, j: int| 0 <= i < full.rules.len() && 0 <= j < full.rules[i].selectors.len() implies selector_wf(
            #[trigger] full.rules[i].selectors[j],
        ) by {
            if i < sh.rules.len() {
                assert(full.rules[i] == sh.rules[i]);
            } else {
                assert(full.rules[i].selectors == parse_selector_list_spec(chunks.last().prelude));
            }
        }
    }
}

proof fn lemma_add_css_wf(css: Seq<char>, level: u8, order: int, media: Seq<(Seq<char>, bool)>)
    ensures
        forall|i: int, j: int|
            0 <= i < add_css(css, level, order, media).len() && 0 <= j < add_css(css, level, order, media)[i].rule.selectors.len()
                ==> selector_wf(#[trigger] add_css(css, level, order, media)[i].rule.selectors[j]),
    decreases css.len(), 1nat, 0int,
{
    let sheet = parse_stylesheet_spec(css);
    lemma_sheet_wf(crate::style::parser::scan_fold(crate::style::parser::strip_comments_spec(css)).chunks);
    let own = leveled(sheet.rules, level, order);
    lemma_add_media_wf(sheet.at_rules, sheet.at_rules.len() as int, css.len() as int, level, order + own.len(), media);
    let rest = add_media(sheet.at_rules, sheet.at_rules.len() as int, css.len() as int, level, order + own.len(), media);
    assert forall|i: int, j: int|
        0 <= i < add_css(css, level, order, media).len() && 0 <= j < add_css(css, level, order, media)[i].rule.selectors.len()
            implies selector_wf(#[trigger] add_css(css, level, order, media)[i].rule.selectors[j]) by {
        if i < own.len() {
            assert(add_css(css, level, order, media)[i] == own[i]);
            assert(own[i].rule == sheet.rules[i]);
        } else {
            assert(add_css(css, level, order, media)[i] == rest[i - own.len()]);
        }
    }
}

proof fn lemma_add_media_wf(
    ats: Seq<crate::style::parser::AtRuleView>,
    n: int,
    bound: int,
    level: u8,
    order: int,
    media: Seq<(Seq<char>, bool)>,
)
    ensures
        forall|i: int, j: int|
            0 <= i < add_media(ats, n, bound, level, order, media).len() && 0 <= j < add_media(
                ats,
                n,
                bound,
                level,
                order,
                media,
            )[i].rule.selectors.len() ==> selector_wf(#[trigger] add_media(ats, n, bound, level, order, media)[i].rule.selectors[j]),
    decreases bound, 0nat, n,
{
    if n > 0 && n <= ats.len() {
        lemma_add_media_wf(ats, n - 1, bound, level, order, media);
        let before = add_media(ats, n - 1, bound, level, order, media);
        let at = ats[n - 1];
        if at.name == "media"@ && media_of(media, at.prelude) && at.body.len() < bound {
            lemma_add_css_wf(at.body, level, order + before.len(), media);
            let more = add_css(at.body, level, order + before.len(), media);
            assert forall|i: int, j: int|
                0 <= i < add_media(ats, n, bound, level, order, media).len() && 0 <= j < add_media(
                    ats,
                    n,
                    bound,
                    level,
                    order,
                    media,
                )[i].rule.selectors.len() implies selector_wf(
                #[trigger] add_media(ats, n, bound, level, order, media)[i].rule.selectors[j],
            ) by {
                if i < before.len() {
                    assert(add_media(ats, n, bound, level, order, media)[i] == before[i]);
                } else {
                    assert(add_media(ats, n, bound, level, order, media)[i] == more[i - before.len()]);
                }
            }
        }
    }
}

/// The rules of a cascade: the UA sheet at level 0, the author sheet at
/// level 1, the render-time node styles at level 3, source orders counting
/// from 0 across all three.
pub open spec fn cascade_rules_spec(author: Seq<char>, node: Seq<char>, media: Seq<(Seq<char>, bool)>) -> Seq<LeveledView> {
    let ua = add_css(UA_CSS@, 0, 0, media);
    let au = add_css(author, 1, ua.len() as int, media);
    ua + au + add_css(node, 3, (ua.len() + au.len()) as int, media)
}

/// Build a [`Cascade`] from author CSS, render-time node-style CSS, and
/// tokens, the UA stylesheet layered underneath; `media` says, for the
/// `@media` queries of the sheets, which ones match (see [`media_queries`]).
pub fn build_cascade_with(author_css: &str, node_style_css: &str, tokens: TokenSet, media: &Vec<(String, bool)>) -> (res: Cascade)
    ensures
        cascade_view(res).rules == cascade_rules_spec(author_css@, node_style_css@, media_view(media@)),
        cascade_view(res).tokens == tokens@,
        cascade_wf(cascade_view(res)),
{
    let mut rules: Vec<LeveledRule> = Vec::new();
    assert(leveled_rules_view(rules@) =~= Seq::<LeveledView>::empty());
    add_leveled(&mut rules, 0, UA_CSS, media);
    add_leveled(&mut rules, 1, author_css, media);
    add_leveled(&mut rules, 3, node_style_css, media);
    let res = Cascade { rules, tokens };
    proof {
        let mv = media_view(media@);
        let ua = add_css(UA_CSS@, 0, 0, mv);
        let au = add_css(author_css@, 1, ua.len() as int, mv);
        let nd = add_css(node_style_css@, 3, (ua.len() + au.len()) as int, mv);
        assert(cascade_view(res).rules =~= leveled_rules_view(rules@));
        assert(leveled_rules_view(rules@) =~= ua + au + nd);
        lemma_add_css_wf(UA_CSS@, 0, 0, mv);
        lemma_add_css_wf(author_css@, 1, ua.len() as int, mv);
        lemma_add_css_wf(node_style_css@, 3, (ua.len() + au.len()) as int, mv);
        let all = ua + au + nd;
        assert forall|i: int, j: int|
            0 <= i < all.len() && 0 <= j < all[i].rule.selectors.len() implies selector_wf(
                #[trigger] all[i].rule.selectors[j],
            ) by {
            if i < ua.len() {
                assert(all[i] == ua[i]);
            } else if i < ua.len() + au.len() {
                assert(all[i] == au[i - ua.len()]);
            } else {
                assert(all[i] == nd[i - ua.len() - au.len()]);
            }
        }
    }
    res
}


/// The queries of every `@media` block of `css`, nested ones included (a
/// block whose body is not shorter than its sheet is not read).
pub open spec fn media_preludes(css: Seq<char>) -> Seq<Seq<char>>
    decreases css.len(), 1nat, 0int,
{
    let sheet = parse_stylesheet_spec(css);
    media_in(sheet.at_rules, sheet.at_rules.len() as int, css.len() as int)
}

/// The `@media` queries among the first `n` at-rules and inside them.
pub open spec fn media_in(ats: Seq<crate::style::parser::AtRuleView>, n: int, bound: int) -> Seq<Seq<char>>
    decreases bound, 0nat, n,
{
    if n <= 0 || n > ats.len() {
        Seq::empty()
    } else {
        let before = media_in(ats, n - 1, bound);
        let at = ats[n - 1];
        if at.name == "media"@ {
            before.push(at.prelude) + if at.body.len() < bound {
                media_preludes(at.body)
            } else {
                Seq::empty()
            }
        } else {
            before
        }
    }
}

fn collect_media(css: &str, out: &mut Vec<String>)
    ensures
        crate::chars::texts_view_s(final(out)@) == crate::chars::texts_view_s(old(out)@) + media_preludes(css@),
    decreases css@.len(),
{
    let ghost start = crate::chars::texts_view_s(out@);
    let sheet = parse_stylesheet(css);
    let ghost ats = at_rules_view(sheet.at_rules@);
    let css_len = chars_of(css).len();
    let mut k: usize = 0;
    assert(crate::chars::texts_view_s(out@) =~= start + media_in(ats, 0, css@.len() as int));
    while k < sheet.at_rules.len()
        invariant
            k <= sheet.at_rules@.len(),
            ats == at_rules_view(sheet.at_rules@),
            ats == parse_stylesheet_spec(css@).at_rules,
            css_len == css@.len(),
            crate::chars::texts_view_s(out@) == start + media_in(ats, k as int, css@.len() as int),
        decreases sheet.at_rules@.len() - k,
    {
        let at = &sheet.at_rules[k];
        if crate::chars::eq_str(chars_of(at.name.as_str()).as_slice(), "media") {
            let ghost o0 = crate::chars::texts_view_s(out@);
            out.push(at.prelude.clone());
            assert(crate::chars::texts_view_s(out@) =~= o0.push(at.prelude@));
            if chars_of(at.body.as_str()).len() < css_len {
                collect_media(at.body.as_str(), out);
            }
        }
        assert(crate::chars::texts_view_s(out@) =~= start + media_in(ats, k + 1, css@.len() as int));
        k += 1;
    }
}

/// The `@media` queries of the UA sheet, the author sheet and the node
/// styles, nested ones included: what a media table for
/// [`build_cascade_with`] answers.
pub fn media_queries(author_css: &str, node_style_css: &str) -> (res: Vec<String>)
    ensures
        crate::chars::texts_view_s(res@) == media_preludes(UA_CSS@) + media_preludes(author_css@) + media_preludes(
            node_style_css@,
        ),
{
    let mut out: Vec<String> = Vec::new();
    assert(crate::chars::texts_view_s(out@) =~= Seq::<Seq<char>>::empty());
    collect_media(UA_CSS, &mut out);
    collect_media(author_css, &mut out);
    collect_media(node_style_css, &mut out);
    out
}

} // verus!
