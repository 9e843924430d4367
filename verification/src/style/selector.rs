//! CSS selectors for the supported subset: type, universal, `.class`, `#id`,
//! attribute selectors, structural and stateful pseudo-classes
//! (`:first-child`/`:last-child`/`:nth-child`/`:nth-of-type`/`:only-child`/
//! `:first-of-type`/`:last-of-type`/`:only-of-type`/`:root`/`:empty`/`:not()`/
//! `:checked`/`:enabled`/`:disabled`), and all four combinators (descendant,
//! child `>`, next-sibling `+`, subsequent-sibling `~`). Interactive
//! pseudo-classes (`:hover`/`:focus`/…) parse but never match: a static render
//! is the resting state.
use vstd::prelude::*;
use crate::bytes::{find_spec, lemma_find_skip, lemma_find_spec_props};
use crate::chars::{ascii_lower, chars_of, copy_range, eq_str, find_chars, is_whitespace, is_ws, lemma_trim_len, split_char, split_on, string_of, texts_view, to_lower, trim, trim_char, trim_char_chars, trim_chars};
use crate::numbers::{parse_i32, parse_i32_spec};

verus! {

/// How two compounds of a complex selector relate.
#[derive(Debug, Clone, Copy, PartialEq, Eq, Structural)]
pub enum Combinator {
    Descendant,
    Child,
    NextSibling,
    SubsequentSibling,
}

/// The comparison of an attribute selector.
#[derive(Debug, Clone, Copy, PartialEq, Eq, Structural)]
pub enum AttrOp {
    Exists,
    Equals,
    Includes,
    DashMatch,
    Prefix,
    Suffix,
    Substring,
}

/// An attribute selector `[name op value]`.
#[derive(Debug, Clone, PartialEq, Eq)]
pub struct AttrSel {
    pub name: String,
    pub op: AttrOp,
    pub value: String,
}

/// A pseudo-class.
#[derive(Debug, PartialEq, Eq)]
pub enum Pseudo {
    FirstChild,
    LastChild,
    OnlyChild,
    FirstOfType,
    LastOfType,
    OnlyOfType,
    NthChild(i32, i32),
    NthOfType(i32, i32),
    Root,
    Empty,
    Checked,
    Enabled,
    Disabled,
    /// `:not(...)` — matches when the element matches none of the inner compound
    /// selectors (a simple selector list; combinators inside `:not` are not split).
    Not(Vec<Compound>),
    /// An interactive/dynamic pseudo-class (`:hover`/`:focus`/`:active`/…) —
    /// never matches in a static render.
    NeverMatch,
}

/// A compound selector: an optional type, an optional id, classes, attribute
/// selectors and pseudo-classes, all of which must hold.
#[derive(Debug, PartialEq, Eq)]
pub struct Compound {
    pub tag: Option<String>,
    pub id: Option<String>,
    pub classes: Vec<String>,
    pub attrs: Vec<AttrSel>,
    pub pseudos: Vec<Pseudo>,
}

impl Default for Compound {
    fn default() -> (res: Compound)
        ensures
            compound_view(res) == empty_compound(),
    {
        let res = Compound { tag: None, id: None, classes: Vec::new(), attrs: Vec::new(), pseudos: Vec::new() };
        proof {
            assert(strings_view(res.classes@) =~= Seq::<Seq<char>>::empty());
            assert(attr_sels_view(res.attrs@) =~= Seq::<AttrSelView>::empty());
        }
        res
    }
}

/// CSS specificity as (ids, classes+attrs+pseudo-classes, type/element).
pub type Specificity = (u32, u32, u32);

/// A complex selector: compounds joined by combinators, with its specificity.
#[derive(Debug, PartialEq, Eq)]
pub struct Selector {
    pub compounds: Vec<Compound>,
    pub combinators: Vec<Combinator>,
    pub specificity: (u32, u32, u32),
}

/// The plain-value picture of an [`AttrSel`].
pub struct AttrSelView {
    pub name: Seq<char>,
    pub op: AttrOp,
    pub value: Seq<char>,
}

/// The plain-value picture of a [`Pseudo`].
pub enum PseudoView {
    FirstChild,
    LastChild,
    OnlyChild,
    FirstOfType,
    LastOfType,
    OnlyOfType,
    NthChild(i32, i32),
    NthOfType(i32, i32),
    Root,
    Empty,
    Checked,
    Enabled,
    Disabled,
    Not(Seq<CompoundView>),
    NeverMatch,
}

/// The plain-value picture of a [`Compound`].
pub struct CompoundView {
    pub tag: Option<Seq<char>>,
    pub id: Option<Seq<char>>,
    pub classes: Seq<Seq<char>>,
    pub attrs: Seq<AttrSelView>,
    pub pseudos: Seq<PseudoView>,
}

/// The plain-value picture of a [`Selector`].
pub struct SelectorView {
    pub compounds: Seq<CompoundView>,
    pub combinators: Seq<Combinator>,
    pub specificity: (u32, u32, u32),
}

impl View for AttrSel {
    type V = AttrSelView;

    open spec fn view(&self) -> AttrSelView {
        AttrSelView { name: self.name@, op: self.op, value: self.value@ }
    }
}

/// The views of a list of strings.
pub open spec fn strings_view(s: Seq<String>) -> Seq<Seq<char>> {
    s.map_values(|x: String| x@)
}

/// The views of a list of attribute selectors.
pub open spec fn attr_sels_view(s: Seq<AttrSel>) -> Seq<AttrSelView> {
    s.map_values(|a: AttrSel| a@)
}

/// The view of an optional string.
pub open spec fn opt_view(o: Option<String>) -> Option<Seq<char>> {
    match o {
        Some(s) => Some(s@),
        None => None,
    }
}

/// The view of a compound selector.
pub open spec fn compound_view(c: Compound) -> CompoundView
    decreases c, 3nat,
{
    CompoundView {
        tag: opt_view(c.tag),
        id: opt_view(c.id),
        classes: strings_view(c.classes@),
        attrs: attr_sels_view(c.attrs@),
        pseudos: pseudos_view(c.pseudos@),
    }
}

/// The views of a list of pseudo-classes.
pub open spec fn pseudos_view(s: Seq<Pseudo>) -> Seq<PseudoView>
    decreases s, 2nat,
{
    if s.len() == 0 {
        Seq::empty()
    } else {
        pseudos_view(s.drop_last()).push(pseudo_view(s.last()))
    }
}

/// The view of a pseudo-class.
pub open spec fn pseudo_view(p: Pseudo) -> PseudoView
    decreases p, 1nat,
{
    match p {
        Pseudo::FirstChild => PseudoView::FirstChild,
        Pseudo::LastChild => PseudoView::LastChild,
        Pseudo::OnlyChild => PseudoView::OnlyChild,
        Pseudo::FirstOfType => PseudoView::FirstOfType,
        Pseudo::LastOfType => PseudoView::LastOfType,
        Pseudo::OnlyOfType => PseudoView::OnlyOfType,
        Pseudo::NthChild(a, b) => PseudoView::NthChild(a, b),
        Pseudo::NthOfType(a, b) => PseudoView::NthOfType(a, b),
        Pseudo::Root => PseudoView::Root,
        Pseudo::Empty => PseudoView::Empty,
        Pseudo::Checked => PseudoView::Checked,
        Pseudo::Enabled => PseudoView::Enabled,
        Pseudo::Disabled => PseudoView::Disabled,
        Pseudo::Not(v) => PseudoView::Not(compounds_view(v@)),
        Pseudo::NeverMatch => PseudoView::NeverMatch,
    }
}

/// The views of a list of compound selectors.
pub open spec fn compounds_view(s: Seq<Compound>) -> Seq<CompoundView>
    decreases s, 0nat,
{
    if s.len() == 0 {
        Seq::empty()
    } else {
        compounds_view(s.drop_last()).push(compound_view(s.last()))
    }
}

/// The view of a complex selector.
pub open spec fn selector_view(s: Selector) -> SelectorView {
    SelectorView {
        compounds: compounds_view(s.compounds@),
        combinators: s.combinators@,
        specificity: s.specificity,
    }
}

/// The views of a list of complex selectors.
pub open spec fn selectors_view(s: Seq<Selector>) -> Seq<SelectorView> {
    s.map_values(|x: Selector| selector_view(x))
}

/// The compound selector that holds nothing.
pub open spec fn empty_compound() -> CompoundView {
    CompoundView { tag: None, id: None, classes: Seq::empty(), attrs: Seq::empty(), pseudos: Seq::empty() }
}

// ---------------------------------------------------------------------------
// parsing a compound selector
// ---------------------------------------------------------------------------

/// Whether `c` is Unicode Alphabetic or Numeric (what `char::is_alphanumeric`
/// answers, by the Unicode tables of the standard library).
pub uninterp spec fn unicode_alphanumeric(c: char) -> bool;

/// `char::is_alphanumeric`: the contract names the Unicode property without
/// restating its tables.
#[verifier::external_body]
fn is_alphanumeric(c: char) -> (res: bool)
    ensures
        res == unicode_alphanumeric(c),
{
    c.is_alphanumeric()
}

/// A character that may appear in a CSS name.
pub open spec fn is_name_char_spec(c: char) -> bool {
    unicode_alphanumeric(c) || c == '-' || c == '_'
}

fn is_name_char(c: char) -> (res: bool)
    ensures
        res == is_name_char_spec(c),
{
    is_alphanumeric(c) || c == '-' || c == '_'
}

/// The end of the run of name characters of `t` starting at `i`.
pub open spec fn name_run(t: Seq<char>, i: int) -> int
    decreases t.len() - i,
{
    if 0 <= i < t.len() && is_name_char_spec(t[i]) {
        name_run(t, i + 1)
    } else {
        i
    }
}

/// The first index at or after `i` holding `e`, or the end of `t`.
pub open spec fn until(t: Seq<char>, i: int, e: char) -> int
    decreases t.len() - i,
{
    if 0 <= i < t.len() && t[i] != e {
        until(t, i + 1, e)
    } else {
        i
    }
}

pub proof fn lemma_name_run_bounds(t: Seq<char>, i: int)
    requires
        0 <= i <= t.len(),
    ensures
        i <= name_run(t, i) <= t.len(),
    decreases t.len() - i,
{
    if i < t.len() && is_name_char_spec(t[i]) {
        lemma_name_run_bounds(t, i + 1);
    }
}

pub proof fn lemma_until_bounds(t: Seq<char>, i: int, e: char)
    requires
        0 <= i <= t.len(),
    ensures
        i <= until(t, i, e) <= t.len(),
    decreases t.len() - i,
{
    if i < t.len() && t[i] != e {
        lemma_until_bounds(t, i + 1, e);
    }
}

fn name_run_from(t: &[char], i: usize) -> (res: usize)
    requires
        i <= t@.len(),
    ensures
        res == name_run(t@, i as int),
        i <= res <= t@.len(),
{
    let mut j = i;
    while j < t.len() && is_name_char(t[j])
        invariant
            i <= j <= t@.len(),
            name_run(t@, i as int) == name_run(t@, j as int),
        decreases t@.len() - j,
    {
        j += 1;
    }
    j
}

fn until_from(t: &[char], i: usize, e: char) -> (res: usize)
    requires
        i <= t@.len(),
    ensures
        res == until(t@, i as int, e),
        i <= res <= t@.len(),
{
    let mut j = i;
    while j < t.len() && t[j] != e
        invariant
            i <= j <= t@.len(),
            until(t@, i as int, e) == until(t@, j as int, e),
        decreases t@.len() - j,
    {
        j += 1;
    }
    j
}

/// `v` trimmed, then stripped of surrounding `"` and then of `'`.
pub open spec fn unquote_spec(v: Seq<char>) -> Seq<char> {
    trim_char(trim_char(trim(v), '"'), '\'')
}

/// An attribute selector split at the operator found at `idx`.
pub open spec fn split_attr_spec(body: Seq<char>, idx: int, op_len: int, op: AttrOp) -> AttrSelView {
    AttrSelView { name: trim(body.take(idx)), op, value: unquote_spec(body.skip(idx + op_len)) }
}

/// The first two-character operator, in the order `~=`, `|=`, `^=`, `$=`,
/// `*=`, that occurs in `body`, with the index of its first occurrence.
pub open spec fn detect_op_spec(body: Seq<char>) -> Option<(int, AttrOp)> {
    match find_spec(body, seq!['~', '='], 0) {
        Some(i) => Some((i, AttrOp::Includes)),
        None => match find_spec(body, seq!['|', '='], 0) {
            Some(i) => Some((i, AttrOp::DashMatch)),
            None => match find_spec(body, seq!['^', '='], 0) {
                Some(i) => Some((i, AttrOp::Prefix)),
                None => match find_spec(body, seq!['$', '='], 0) {
                    Some(i) => Some((i, AttrOp::Suffix)),
                    None => match find_spec(body, seq!['*', '='], 0) {
                        Some(i) => Some((i, AttrOp::Substring)),
                        None => None,
                    },
                },
            },
        },
    }
}

/// The attribute selector written inside `[` `]`.
pub open spec fn parse_attr_spec(raw: Seq<char>) -> AttrSelView {
    let body = trim(raw);
    match detect_op_spec(body) {
        Some((idx, op)) => split_attr_spec(body, idx, 2, op),
        None => match find_spec(body, seq!['='], 0) {
            Some(idx) => split_attr_spec(body, idx, 1, AttrOp::Equals),
            None => AttrSelView { name: body, op: AttrOp::Exists, value: Seq::empty() },
        },
    }
}

/// `s` without its whitespace characters.
pub open spec fn strip_ws(s: Seq<char>) -> Seq<char>
    decreases s.len(),
{
    if s.len() == 0 {
        s
    } else if is_ws(s.last()) {
        strip_ws(s.drop_last())
    } else {
        strip_ws(s.drop_last()).push(s.last())
    }
}

/// The `a` of `an+b`: empty or `+` is 1, `-` is -1, else the number (1 when
/// it is not one).
pub open spec fn coeff_spec(a: Seq<char>) -> i32 {
    if a == Seq::<char>::empty() || a == seq!['+'] {
        1
    } else if a == seq!['-'] {
        -1i32
    } else {
        match parse_i32_spec(a) {
            Some(v) => v,
            None => 1,
        }
    }
}

/// The `(a, b)` of an `:nth-*` argument: `even`, `odd`, `an+b`, or a plain
/// `b` (0 where a number does not parse).
pub open spec fn parse_nth_spec(arg: Seq<char>) -> (i32, i32) {
    let s = strip_ws(arg);
    if s == seq!['e', 'v', 'e', 'n'] {
        (2, 0)
    } else if s == seq!['o', 'd', 'd'] {
        (2, 1)
    } else {
        match find_spec(s, seq!['n'], 0) {
            Some(k) => (
                coeff_spec(s.take(k)),
                match parse_i32_spec(s.skip(k + 1)) {
                    Some(v) => v,
                    None => 0,
                },
            ),
            None => (
                0,
                match parse_i32_spec(s) {
                    Some(v) => v,
                    None => 0,
                },
            ),
        }
    }
}

/// The pseudo-class `:name(arg)` other than `:not`, or `None` for a
/// pseudo-element or an unknown name.
pub open spec fn parse_pseudo_spec(name: Seq<char>, arg: Seq<char>) -> Option<PseudoView> {
    if name == "first-child"@ {
        Some(PseudoView::FirstChild)
    } else if name == "last-child"@ {
        Some(PseudoView::LastChild)
    } else if name == "only-child"@ {
        Some(PseudoView::OnlyChild)
    } else if name == "first-of-type"@ {
        Some(PseudoView::FirstOfType)
    } else if name == "last-of-type"@ {
        Some(PseudoView::LastOfType)
    } else if name == "only-of-type"@ {
        Some(PseudoView::OnlyOfType)
    } else if name == "nth-child"@ {
        Some(PseudoView::NthChild(parse_nth_spec(arg).0, parse_nth_spec(arg).1))
    } else if name == "nth-of-type"@ {
        Some(PseudoView::NthOfType(parse_nth_spec(arg).0, parse_nth_spec(arg).1))
    } else if name == "root"@ {
        Some(PseudoView::Root)
    } else if name == "empty"@ {
        Some(PseudoView::Empty)
    } else if name == "checked"@ {
        Some(PseudoView::Checked)
    } else if name == "enabled"@ {
        Some(PseudoView::Enabled)
    } else if name == "disabled"@ {
        Some(PseudoView::Disabled)
    } else if name == "hover"@ || name == "focus"@ || name == "focus-within"@ || name == "focus-visible"@
        || name == "active"@ || name == "target"@ || name == "visited"@ || name == "link"@ || name
        == "any-link"@ || name == "autofocus"@ || name == "default"@ || name == "placeholder-shown"@ {
        Some(PseudoView::NeverMatch)
    } else {
        None
    }
}

/// The compound selector written as `t`: an optional leading `*` or type
/// name, then the pieces read by [`compound_loop`].
pub open spec fn parse_compound_spec(t: Seq<char>) -> CompoundView
    decreases t.len(), t.len() + 1,
{
    if t.len() > 0 && t[0] == '*' {
        compound_loop(t, 1, empty_compound())
    } else if t.len() > 0 && is_name_char_spec(t[0]) {
        proof {
            lemma_name_run_bounds(t, 0);
        }
        let e = name_run(t, 0);
        compound_loop(t, e, CompoundView { tag: Some(ascii_lower(t.take(e))), ..empty_compound() })
    } else {
        compound_loop(t, 0, empty_compound())
    }
}

/// The pieces of a compound selector from index `i` on, added to `acc`:
/// `.class`, `#id` (the last one wins), `[attr]`, and `:pseudo` or
/// `:pseudo(arg)`; any other character is skipped.
pub open spec fn compound_loop(t: Seq<char>, i: int, acc: CompoundView) -> CompoundView
    decreases t.len(), t.len() - i,
{
    if i < 0 || i >= t.len() {
        acc
    } else if t[i] == '.' {
        proof {
            lemma_name_run_bounds(t, i + 1);
        }
        let e = name_run(t, i + 1);
        compound_loop(t, e, CompoundView { classes: acc.classes.push(t.subrange(i + 1, e)), ..acc })
    } else if t[i] == '#' {
        proof {
            lemma_name_run_bounds(t, i + 1);
        }
        let e = name_run(t, i + 1);
        compound_loop(t, e, CompoundView { id: Some(t.subrange(i + 1, e)), ..acc })
    } else if t[i] == '[' {
        proof {
            lemma_until_bounds(t, i + 1, ']');
        }
        let s = until(t, i + 1, ']');
        let next = if s + 1 < t.len() { s + 1 } else { t.len() as int };
        compound_loop(t, next, CompoundView { attrs: acc.attrs.push(parse_attr_spec(t.subrange(i + 1, s))), ..acc })
    } else if t[i] == ':' {
        proof {
            lemma_name_run_bounds(t, i + 1);
        }
        let e = name_run(t, i + 1);
        let name = t.subrange(i + 1, e);
        let has_arg = e < t.len() && t[e] == '(';
        proof {
            if has_arg {
                lemma_until_bounds(t, e + 1, ')');
            }
        }
        let s = if has_arg { until(t, e + 1, ')') } else { e };
        let arg = if has_arg { t.subrange(e + 1, s) } else { Seq::<char>::empty() };
        let next = if has_arg { if s + 1 < t.len() { s + 1 } else { t.len() as int } } else { e };
        let pseudo = if name == "not"@ {
            Some(PseudoView::Not(not_list(arg)))
        } else {
            parse_pseudo_spec(name, arg)
        };
        let acc2 = match pseudo {
            Some(p) => CompoundView { pseudos: acc.pseudos.push(p), ..acc },
            None => acc,
        };
        compound_loop(t, next, acc2)
    } else {
        compound_loop(t, i + 1, acc)
    }
}

/// The compounds of a `:not(...)` argument: its comma-separated pieces,
/// trimmed, the empty ones dropped.
pub open spec fn not_list(arg: Seq<char>) -> Seq<CompoundView>
    decreases arg.len(), arg.len() + 2,
{
    match find_spec(arg, seq![','], 0) {
        None => {
            proof {
                lemma_trim_len(arg);
            }
            let p = trim(arg);
            if p.len() == 0 {
                Seq::empty()
            } else {
                seq![parse_compound_spec(p)]
            }
        },
        Some(k) => {
            proof {
                lemma_find_spec_props(arg, seq![','], 0);
                lemma_trim_len(arg.take(k));
            }
            let p = trim(arg.take(k));
            (if p.len() == 0 {
                Seq::empty()
            } else {
                seq![parse_compound_spec(p)]
            }) + not_list(arg.skip(k + 1))
        },
    }
}


proof fn lemma_strings_view_push(s: Seq<String>, x: String)
    ensures
        strings_view(s.push(x)) == strings_view(s).push(x@),
{
    assert(strings_view(s.push(x)) =~= strings_view(s).push(x@));
}

proof fn lemma_attr_sels_view_push(s: Seq<AttrSel>, x: AttrSel)
    ensures
        attr_sels_view(s.push(x)) == attr_sels_view(s).push(x@),
{
    assert(attr_sels_view(s.push(x)) =~= attr_sels_view(s).push(x@));
}

proof fn lemma_pseudos_view_push(s: Seq<Pseudo>, x: Pseudo)
    ensures
        pseudos_view(s.push(x)) == pseudos_view(s).push(pseudo_view(x)),
{
    assert(s.push(x).drop_last() =~= s);
}

proof fn lemma_compounds_view_push(s: Seq<Compound>, x: Compound)
    ensures
        compounds_view(s.push(x)) == compounds_view(s).push(compound_view(x)),
{
    assert(s.push(x).drop_last() =~= s);
}

/// `s` without its whitespace characters.
fn strip_ws_chars(s: &[char]) -> (res: Vec<char>)
    ensures
        res@ == strip_ws(s@),
{
    let mut out: Vec<char> = Vec::new();
    let mut i: usize = 0;
    while i < s.len()
        invariant
            i <= s@.len(),
            out@ == strip_ws(s@.take(i as int)),
        decreases s@.len() - i,
    {
        assert(s@.take(i + 1).drop_last() =~= s@.take(i as int));
        if !is_whitespace(s[i]) {
            out.push(s[i]);
        }
        i += 1;
    }
    assert(s@.take(i as int) =~= s@);
    out
}

/// The `a` of `an+b`.
fn coeff(a: &[char]) -> (res: i32)
    ensures
        res == coeff_spec(a@),
{
    if a.len() == 0 {
        assert(a@ =~= Seq::<char>::empty());
        return 1;
    }
    if a.len() == 1 && a[0] == '+' {
        assert(a@ =~= seq!['+']);
        return 1;
    }
    if a.len() == 1 && a[0] == '-' {
        assert(a@ =~= seq!['-']);
        return -1;
    }
    assert(a@ != Seq::<char>::empty());
    assert(a@.len() != 1 || a@[0] != '+' ==> a@ != seq!['+']);
    assert(a@.len() != 1 || a@[0] != '-' ==> a@ != seq!['-']);
    match parse_i32(a) {
        Some(v) => v,
        None => 1,
    }
}

/// The `(a, b)` of an `:nth-*` argument.
fn parse_nth(arg: &[char]) -> (res: (i32, i32))
    ensures
        res == parse_nth_spec(arg@),
{
    let s = strip_ws_chars(arg);
    let even: [char; 4] = ['e', 'v', 'e', 'n'];
    let odd: [char; 3] = ['o', 'd', 'd'];
    let n: [char; 1] = ['n'];
    assert(even@ =~= seq!['e', 'v', 'e', 'n']);
    assert(odd@ =~= seq!['o', 'd', 'd']);
    assert(n@ =~= seq!['n']);
    if crate::chars::chars_eq(s.as_slice(), &even) {
        return (2, 0);
    }
    if crate::chars::chars_eq(s.as_slice(), &odd) {
        return (2, 1);
    }
    match find_chars(s.as_slice(), &n, 0) {
        Some(k) => {
            let a = copy_range(s.as_slice(), 0, k);
            let b = copy_range(s.as_slice(), k + 1, s.len());
            assert(a@ =~= s@.take(k as int));
            assert(b@ =~= s@.skip(k + 1));
            let bv = match parse_i32(b.as_slice()) {
                Some(v) => v,
                None => 0,
            };
            (coeff(a.as_slice()), bv)
        },
        None => {
            let bv = match parse_i32(s.as_slice()) {
                Some(v) => v,
                None => 0,
            };
            (0, bv)
        },
    }
}

/// The pseudo-class `:name(arg)` other than `:not`.
fn parse_pseudo(name: &[char], arg: &[char]) -> (res: Option<Pseudo>)
    ensures
        match res {
            Some(p) => parse_pseudo_spec(name@, arg@) == Some(pseudo_view(p)),
            None => parse_pseudo_spec(name@, arg@) is None,
        },
{
    if eq_str(name, "first-child") {
        Some(Pseudo::FirstChild)
    } else if eq_str(name, "last-child") {
        Some(Pseudo::LastChild)
    } else if eq_str(name, "only-child") {
        Some(Pseudo::OnlyChild)
    } else if eq_str(name, "first-of-type") {
        Some(Pseudo::FirstOfType)
    } else if eq_str(name, "last-of-type") {
        Some(Pseudo::LastOfType)
    } else if eq_str(name, "only-of-type") {
        Some(Pseudo::OnlyOfType)
    } else if eq_str(name, "nth-child") {
        let (a, b) = parse_nth(arg);
        Some(Pseudo::NthChild(a, b))
    } else if eq_str(name, "nth-of-type") {
        let (a, b) = parse_nth(arg);
        Some(Pseudo::NthOfType(a, b))
    } else if eq_str(name, "root") {
        Some(Pseudo::Root)
    } else if eq_str(name, "empty") {
        Some(Pseudo::Empty)
    } else if eq_str(name, "checked") {
        Some(Pseudo::Checked)
    } else if eq_str(name, "enabled") {
        Some(Pseudo::Enabled)
    } else if eq_str(name, "disabled") {
        Some(Pseudo::Disabled)
    } else if eq_str(name, "hover") || eq_str(name, "focus") || eq_str(name, "focus-within") || eq_str(
        name,
        "focus-visible",
    ) || eq_str(name, "active") || eq_str(name, "target") || eq_str(name, "visited") || eq_str(
        name,
        "link",
    ) || eq_str(name, "any-link") || eq_str(name, "autofocus") || eq_str(name, "default") || eq_str(
        name,
        "placeholder-shown",
    ) {
        Some(Pseudo::NeverMatch)
    } else {
        None
    }
}

/// `v` trimmed and unquoted.
fn unquote(v: &[char]) -> (res: Vec<char>)
    ensures
        res@ == unquote_spec(v@),
{
    let t = trim_chars(v);
    let a = trim_char_chars(t.as_slice(), '"');
    trim_char_chars(a.as_slice(), '\'')
}

/// An attribute selector split at the operator found at `idx`.
fn split_attr(body: &[char], idx: usize, op_len: usize, op: AttrOp) -> (res: AttrSel)
    requires
        idx + op_len <= body@.len(),
    ensures
        res@ == split_attr_spec(body@, idx as int, op_len as int, op),
{
    let blen = body.len();
    let head = copy_range(body, 0, idx);
    let tail = copy_range(body, idx + op_len, blen);
    assert(head@ =~= body@.take(idx as int));
    assert(tail@ =~= body@.skip(idx + op_len));
    let name = trim_chars(head.as_slice());
    let value = unquote(tail.as_slice());
    AttrSel { name: string_of(name.as_slice()), op, value: string_of(value.as_slice()) }
}

/// The first attribute operator that occurs in `body`, in priority order.
fn detect_op(body: &[char]) -> (res: Option<(usize, AttrOp)>)
    ensures
        match res {
            Some((i, op)) => detect_op_spec(body@) == Some((i as int, op)) && i + 2 <= body@.len(),
            None => detect_op_spec(body@) is None,
        },
{
    let ops: [(char, AttrOp); 5] = [
        ('~', AttrOp::Includes),
        ('|', AttrOp::DashMatch),
        ('^', AttrOp::Prefix),
        ('$', AttrOp::Suffix),
        ('*', AttrOp::Substring),
    ];
    let t0: [char; 2] = ['~', '='];
    let t1: [char; 2] = ['|', '='];
    let t2: [char; 2] = ['^', '='];
    let t3: [char; 2] = ['$', '='];
    let t4: [char; 2] = ['*', '='];
    assert(t0@ =~= seq!['~', '=']);
    assert(t1@ =~= seq!['|', '=']);
    assert(t2@ =~= seq!['^', '=']);
    assert(t3@ =~= seq!['$', '=']);
    assert(t4@ =~= seq!['*', '=']);
    if let Some(i) = find_chars(body, &t0, 0) {
        return Some((i, AttrOp::Includes));
    }
    if let Some(i) = find_chars(body, &t1, 0) {
        return Some((i, AttrOp::DashMatch));
    }
    if let Some(i) = find_chars(body, &t2, 0) {
        return Some((i, AttrOp::Prefix));
    }
    if let Some(i) = find_chars(body, &t3, 0) {
        return Some((i, AttrOp::Suffix));
    }
    if let Some(i) = find_chars(body, &t4, 0) {
        return Some((i, AttrOp::Substring));
    }
    None
}

/// The attribute selector written inside `[` `]`.
fn parse_attr(raw: &[char]) -> (res: AttrSel)
    ensures
        res@ == parse_attr_spec(raw@),
{
    let body = trim_chars(raw);
    match detect_op(body.as_slice()) {
        Some((idx, op)) => split_attr(body.as_slice(), idx, 2, op),
        None => {
            let eq: [char; 1] = ['='];
            assert(eq@ =~= seq!['=']);
            match find_chars(body.as_slice(), &eq, 0) {
                Some(idx) => split_attr(body.as_slice(), idx, 1, AttrOp::Equals),
                None => AttrSel { name: string_of(body.as_slice()), op: AttrOp::Exists, value: String::new() },
            }
        },
    }
}

/// The compound selector written as `t`.
fn parse_compound(t: &[char]) -> (res: Compound)
    ensures
        compound_view(res) == parse_compound_spec(t@),
    decreases t@.len(), 1nat,
{
    let n = t.len();
    let mut acc = Compound::default();
    let mut i: usize = 0;
    if n > 0 && t[0] == '*' {
        i = 1;
    } else if n > 0 && is_name_char(t[0]) {
        let e = name_run_from(t, 0);
        let name = copy_range(t, 0, e);
        assert(name@ =~= t@.take(e as int));
        let lower = to_lower(name.as_slice());
        acc.tag = Some(string_of(lower.as_slice()));
        i = e;
    }
    let ghost target = parse_compound_spec(t@);
    assert(compound_loop(t@, i as int, compound_view(acc)) == target);
    while i < n
        invariant
            i <= n,
            n == t@.len(),
            compound_loop(t@, i as int, compound_view(acc)) == target,
        decreases n - i,
    {
        let ghost av = compound_view(acc);
        let c = t[i];
        if c == '.' {
            let e = name_run_from(t, i + 1);
            let name = copy_range(t, i + 1, e);
            let ghost cl = acc.classes@;
            let s = string_of(name.as_slice());
            acc.classes.push(s);
            proof {
                lemma_strings_view_push(cl, s);
            }
            assert(compound_view(acc) == (CompoundView { classes: av.classes.push(t@.subrange(i + 1, e as int)), ..av }));
            i = e;
        } else if c == '#' {
            let e = name_run_from(t, i + 1);
            let name = copy_range(t, i + 1, e);
            acc.id = Some(string_of(name.as_slice()));
            assert(compound_view(acc) == (CompoundView { id: Some(t@.subrange(i + 1, e as int)), ..av }));
            i = e;
        } else if c == '[' {
            let s = until_from(t, i + 1, ']');
            let body = copy_range(t, i + 1, s);
            let a = parse_attr(body.as_slice());
            let ghost at = acc.attrs@;
            acc.attrs.push(a);
            proof {
                lemma_attr_sels_view_push(at, a);
            }
            assert(compound_view(acc) == (CompoundView { attrs: av.attrs.push(parse_attr_spec(t@.subrange(i + 1, s as int))), ..av }));
            i = if s < n {
                s + 1
            } else {
                n
            };
        } else if c == ':' {
            let e = name_run_from(t, i + 1);
            let name = copy_range(t, i + 1, e);
            let has_arg = e < n && t[e] == '(';
            let s = if has_arg {
                until_from(t, e + 1, ')')
            } else {
                e
            };
            let arg = if has_arg {
                copy_range(t, e + 1, s)
            } else {
                Vec::new()
            };
            assert(has_arg ==> arg@ == t@.subrange(e + 1, s as int));
            assert(!has_arg ==> arg@ =~= Seq::<char>::empty());
            let next = if has_arg {
                if s < n {
                    s + 1
                } else {
                    n
                }
            } else {
                e
            };
            let pseudo = if eq_str(name.as_slice(), "not") {
                Some(Pseudo::Not(parse_not(arg.as_slice())))
            } else {
                parse_pseudo(name.as_slice(), arg.as_slice())
            };
            match pseudo {
                Some(p) => {
                    let ghost ps = acc.pseudos@;
                    acc.pseudos.push(p);
                    proof {
                        lemma_pseudos_view_push(ps, p);
                    }
                },
                None => {},
            }
            i = next;
        } else {
            i += 1;
        }
    }
    acc
}

/// The compounds of a `:not(...)` argument.
fn parse_not(arg: &[char]) -> (res: Vec<Compound>)
    ensures
        compounds_view(res@) == not_list(arg@),
    decreases arg@.len(), 2nat,
{
    let n = arg.len();
    let comma: [char; 1] = [','];
    assert(comma@ =~= seq![',']);
    let mut out: Vec<Compound> = Vec::new();
    let mut j: usize = 0;
    assert(arg@.skip(0) =~= arg@);
    assert(compounds_view(out@) + not_list(arg@) =~= not_list(arg@));
    loop
        invariant
            j <= n,
            n == arg@.len(),
            comma@ == seq![','],
            compounds_view(out@) + not_list(arg@.skip(j as int)) == not_list(arg@),
        decreases n - j,
    {
        let ghost rest = arg@.skip(j as int);
        proof {
            lemma_find_skip(arg@, seq![','], j as int, 0);
        }
        let ghost o0 = compounds_view(out@);
        match find_chars(arg, &comma, j) {
            None => {
                let piece = copy_range(arg, j, n);
                assert(piece@ =~= rest);
                let p = trim_chars(piece.as_slice());
                proof {
                    lemma_trim_len(piece@);
                }
                if p.len() > 0 {
                    let c = parse_compound(p.as_slice());
                    proof {
                        lemma_compounds_view_push(out@, c);
                    }
                    out.push(c);
                    assert(compounds_view(out@) =~= o0 + not_list(rest));
                } else {
                    assert(compounds_view(out@) =~= o0 + not_list(rest));
                }
                return out;
            },
            Some(k) => {
                let piece = copy_range(arg, j, k);
                assert(piece@ =~= rest.take(k - j));
                assert(rest.skip(k - j + 1) =~= arg@.skip(k + 1));
                let p = trim_chars(piece.as_slice());
                proof {
                    lemma_trim_len(piece@);
                }
                if p.len() > 0 {
                    let c = parse_compound(p.as_slice());
                    proof {
                        lemma_compounds_view_push(out@, c);
                    }
                    out.push(c);
                    assert(compounds_view(out@) + not_list(arg@.skip(k + 1)) =~= o0 + not_list(rest));
                } else {
                    assert(compounds_view(out@) + not_list(arg@.skip(k + 1)) =~= o0 + not_list(rest));
                }
                j = k + 1;
            },
        }
    }
}

// ---------------------------------------------------------------------------
// tokenizing a complex selector into compounds and combinators
// ---------------------------------------------------------------------------

/// A token of a complex selector.
enum Token {
    Compound(Vec<char>),
    Explicit(Combinator),
    Space,
}

/// The plain-value picture of a selector token.
pub enum TokenView {
    Compound(Seq<char>),
    Explicit(Combinator),
    Space,
}

spec fn token_view(t: Token) -> TokenView {
    match t {
        Token::Compound(b) => TokenView::Compound(b@),
        Token::Explicit(c) => TokenView::Explicit(c),
        Token::Space => TokenView::Space,
    }
}

spec fn tokens_view(s: Seq<Token>) -> Seq<TokenView> {
    s.map_values(|t: Token| token_view(t))
}

/// The lexer's state: the compound being read, the tokens so far, whether an
/// attribute selector is open, and the parenthesis depth (saturating).
pub struct LexState {
    pub buf: Seq<char>,
    pub tokens: Seq<TokenView>,
    pub in_attr: bool,
    pub parens: u32,
}

/// The pending compound, if any, moved to the tokens.
pub open spec fn lex_flush(st: LexState) -> LexState {
    if st.buf.len() == 0 {
        st
    } else {
        LexState { tokens: st.tokens.push(TokenView::Compound(st.buf)), buf: Seq::empty(), ..st }
    }
}

/// Whether combinator and whitespace characters are structural here (not
/// inside an attribute selector or a pseudo-class argument).
pub open spec fn top_level(st: LexState) -> bool {
    !st.in_attr && st.parens == 0
}

/// The lexer after one more character.
pub open spec fn lex_step(st: LexState, ch: char) -> LexState {
    if ch == '[' {
        LexState { in_attr: true, buf: st.buf.push(ch), ..st }
    } else if ch == ']' {
        LexState { in_attr: false, buf: st.buf.push(ch), ..st }
    } else if ch == '(' {
        LexState { parens: if st.parens == u32::MAX { st.parens } else { (st.parens + 1) as u32 }, buf: st.buf.push(ch), ..st }
    } else if ch == ')' {
        LexState { parens: if st.parens == 0 { 0 } else { (st.parens - 1) as u32 }, buf: st.buf.push(ch), ..st }
    } else if (ch == '>' || ch == '+' || ch == '~' || is_ws(ch)) && top_level(st) {
        let f = lex_flush(st);
        let tok = if ch == '>' {
            TokenView::Explicit(Combinator::Child)
        } else if ch == '+' {
            TokenView::Explicit(Combinator::NextSibling)
        } else if ch == '~' {
            TokenView::Explicit(Combinator::SubsequentSibling)
        } else {
            TokenView::Space
        };
        LexState { tokens: f.tokens.push(tok), ..f }
    } else {
        LexState { buf: st.buf.push(ch), ..st }
    }
}

/// The lexer after reading all of `s`.
pub open spec fn lex_fold(s: Seq<char>) -> LexState
    decreases s.len(),
{
    if s.len() == 0 {
        LexState { buf: Seq::empty(), tokens: Seq::empty(), in_attr: false, parens: 0 }
    } else {
        lex_step(lex_fold(s.drop_last()), s.last())
    }
}

/// The tokens of a complex selector.
pub open spec fn lex_spec(s: Seq<char>) -> Seq<TokenView> {
    lex_flush(lex_fold(s)).tokens
}

/// The builder's state: the compounds and combinators so far and the
/// combinator waiting for the next compound.
pub struct BuildState {
    pub compounds: Seq<CompoundView>,
    pub combinators: Seq<Combinator>,
    pub pending: Option<Combinator>,
}

/// The builder after one more token: a compound joins with the pending
/// combinator (descendant when none), an explicit combinator becomes pending,
/// and whitespace makes the descendant combinator pending unless another is.
pub open spec fn build_step(st: BuildState, tok: TokenView) -> BuildState {
    match tok {
        TokenView::Compound(text) => BuildState {
            combinators: if st.compounds.len() > 0 {
                st.combinators.push(
                    match st.pending {
                        Some(c) => c,
                        None => Combinator::Descendant,
                    },
                )
            } else {
                st.combinators
            },
            compounds: st.compounds.push(parse_compound_spec(text)),
            pending: None,
        },
        TokenView::Explicit(c) => BuildState { pending: Some(c), ..st },
        TokenView::Space => if st.pending is None {
            BuildState { pending: Some(Combinator::Descendant), ..st }
        } else {
            st
        },
    }
}

/// The builder after all of `toks`.
pub open spec fn build_fold(toks: Seq<TokenView>) -> BuildState
    decreases toks.len(),
{
    if toks.len() == 0 {
        BuildState { compounds: Seq::empty(), combinators: Seq::empty(), pending: None }
    } else {
        build_step(build_fold(toks.drop_last()), toks.last())
    }
}

/// The number of classes, attribute selectors and pseudo-classes of a
/// compound, modulo 2^32.
pub open spec fn class_count(c: CompoundView) -> u32 {
    ((c.classes.len() as u32).wrapping_add(c.attrs.len() as u32)).wrapping_add(c.pseudos.len() as u32)
}

/// The specificity of a list of compounds: ids, classes+attributes+pseudos,
/// types, each summed modulo 2^32.
pub open spec fn specificity_spec(cs: Seq<CompoundView>) -> (u32, u32, u32)
    decreases cs.len(),
{
    if cs.len() == 0 {
        (0, 0, 0)
    } else {
        let acc = specificity_spec(cs.drop_last());
        let c = cs.last();
        (
            acc.0.wrapping_add(if c.id is Some { 1u32 } else { 0u32 }),
            acc.1.wrapping_add(class_count(c)),
            acc.2.wrapping_add(if c.tag is Some { 1u32 } else { 0u32 }),
        )
    }
}

/// The complex selector written as `sel`, or `None` when it has no compound.
pub open spec fn parse_selector_spec(sel: Seq<char>) -> Option<SelectorView> {
    let st = build_fold(lex_spec(sel));
    if st.compounds.len() == 0 {
        None
    } else {
        Some(SelectorView { compounds: st.compounds, combinators: st.combinators, specificity: specificity_spec(st.compounds) })
    }
}

/// The selectors of the comma-separated pieces of a list, each trimmed; the
/// pieces without a selector are dropped.
pub open spec fn selectors_of(pieces: Seq<Seq<char>>) -> Seq<SelectorView>
    decreases pieces.len(),
{
    if pieces.len() == 0 {
        Seq::empty()
    } else {
        selectors_of(pieces.drop_last()) + match parse_selector_spec(trim(pieces.last())) {
            Some(s) => seq![s],
            None => Seq::empty(),
        }
    }
}

/// The selectors of a comma-separated selector list.
pub open spec fn parse_selector_list_spec(list: Seq<char>) -> Seq<SelectorView> {
    selectors_of(split_on(list, ','))
}

fn flush(buf: &mut Vec<char>, tokens: &mut Vec<Token>)
    ensures
        (LexState { buf: final(buf)@, tokens: tokens_view(final(tokens)@), in_attr: false, parens: 0 }) == lex_flush(
            LexState { buf: old(buf)@, tokens: tokens_view(old(tokens)@), in_attr: false, parens: 0 },
        ),
{
    if buf.len() > 0 {
        let mut b: Vec<char> = Vec::new();
        std::mem::swap(&mut b, buf);
        let ghost t0 = tokens@;
        tokens.push(Token::Compound(b));
        assert(tokens_view(tokens@) =~= tokens_view(t0).push(TokenView::Compound(b@)));
        assert(buf@ =~= Seq::<char>::empty());
    }
}

/// The tokens of a complex selector.
fn lex(sel: &[char]) -> (res: Vec<Token>)
    ensures
        tokens_view(res@) == lex_spec(sel@),
{
    let mut buf: Vec<char> = Vec::new();
    let mut tokens: Vec<Token> = Vec::new();
    let mut in_attr = false;
    let mut parens: u32 = 0;
    let mut i: usize = 0;
    assert(tokens_view(tokens@) =~= Seq::<TokenView>::empty());
    while i < sel.len()
        invariant
            i <= sel@.len(),
            (LexState { buf: buf@, tokens: tokens_view(tokens@), in_attr, parens }) == lex_fold(sel@.take(i as int)),
        decreases sel@.len() - i,
    {
        assert(sel@.take(i + 1).drop_last() =~= sel@.take(i as int));
        let ghost st = LexState { buf: buf@, tokens: tokens_view(tokens@), in_attr, parens };
        let ch = sel[i];
        let top = !in_attr && parens == 0;
        if ch == '[' {
            in_attr = true;
            buf.push(ch);
        } else if ch == ']' {
            in_attr = false;
            buf.push(ch);
        } else if ch == '(' {
            if parens < u32::MAX {
                parens += 1;
            }
            buf.push(ch);
        } else if ch == ')' {
            if parens > 0 {
                parens -= 1;
            }
            buf.push(ch);
        } else if (ch == '>' || ch == '+' || ch == '~' || is_whitespace(ch)) && top {
            flush(&mut buf, &mut tokens);
            let tok = if ch == '>' {
                Token::Explicit(Combinator::Child)
            } else if ch == '+' {
                Token::Explicit(Combinator::NextSibling)
            } else if ch == '~' {
                Token::Explicit(Combinator::SubsequentSibling)
            } else {
                Token::Space
            };
            let ghost t0 = tokens@;
            tokens.push(tok);
            assert(tokens_view(tokens@) =~= tokens_view(t0).push(token_view(tok)));
        } else {
            buf.push(ch);
        }
        assert((LexState { buf: buf@, tokens: tokens_view(tokens@), in_attr, parens }) == lex_step(st, ch));
        i += 1;
    }
    assert(sel@.take(i as int) =~= sel@);
    let ghost st = LexState { buf: buf@, tokens: tokens_view(tokens@), in_attr, parens };
    flush(&mut buf, &mut tokens);
    assert(tokens_view(tokens@) == lex_flush(st).tokens);
    tokens
}

/// The specificity of a list of compounds.
fn specificity_of(cs: &Vec<Compound>) -> (res: (u32, u32, u32))
    ensures
        res == specificity_spec(compounds_view(cs@)),
{
    let mut acc: (u32, u32, u32) = (0, 0, 0);
    let mut i: usize = 0;
    assert(compounds_view(cs@.take(0)) =~= Seq::<CompoundView>::empty());
    while i < cs.len()
        invariant
            i <= cs@.len(),
            acc == specificity_spec(compounds_view(cs@.take(i as int))),
        decreases cs@.len() - i,
    {
        let c = &cs[i];
        proof {
            assert(cs@.take(i + 1) =~= cs@.take(i as int).push(cs@[i as int]));
            lemma_compounds_view_push(cs@.take(i as int), cs@[i as int]);
            assert(compounds_view(cs@.take(i + 1)).drop_last() =~= compounds_view(cs@.take(i as int)));
        }
        let ids: u32 = if c.id.is_some() {
            1
        } else {
            0
        };
        let tags: u32 = if c.tag.is_some() {
            1
        } else {
            0
        };
        let count = ((c.classes.len() as u32).wrapping_add(c.attrs.len() as u32)).wrapping_add(
            c.pseudos.len() as u32,
        );
        proof {
            let cv = compound_view(*c);
            assert(cv.classes.len() == c.classes@.len());
            assert(cv.attrs.len() == c.attrs@.len());
            lemma_pseudos_view_len(c.pseudos@);
        }
        acc = (acc.0.wrapping_add(ids), acc.1.wrapping_add(count), acc.2.wrapping_add(tags));
        i += 1;
    }
    assert(cs@.take(i as int) =~= cs@);
    acc
}

proof fn lemma_pseudos_view_len(s: Seq<Pseudo>)
    ensures
        pseudos_view(s).len() == s.len(),
    decreases s.len(),
{
    if s.len() > 0 {
        lemma_pseudos_view_len(s.drop_last());
    }
}

/// Parse one complex selector, or `None` if it has no compound.
fn parse_selector(sel: &[char]) -> (res: Option<Selector>)
    ensures
        match res {
            Some(s) => parse_selector_spec(sel@) == Some(selector_view(s)),
            None => parse_selector_spec(sel@) is None,
        },
{
    let tokens = lex(sel);
    let mut compounds: Vec<Compound> = Vec::new();
    let mut combinators: Vec<Combinator> = Vec::new();
    let mut pending: Option<Combinator> = None;
    let mut i: usize = 0;
    assert(tokens_view(tokens@).take(0) =~= Seq::<TokenView>::empty());
    assert(compounds_view(compounds@) =~= Seq::<CompoundView>::empty());
    while i < tokens.len()
        invariant
            i <= tokens@.len(),
            tokens_view(tokens@) == lex_spec(sel@),
            (BuildState { compounds: compounds_view(compounds@), combinators: combinators@, pending }) == build_fold(
                tokens_view(tokens@).take(i as int),
            ),
        decreases tokens@.len() - i,
    {
        assert(tokens_view(tokens@).take(i + 1).drop_last() =~= tokens_view(tokens@).take(i as int));
        assert(tokens_view(tokens@).take(i + 1).last() == token_view(tokens@[i as int]));
        let ghost st = BuildState { compounds: compounds_view(compounds@), combinators: combinators@, pending };
        match &tokens[i] {
            Token::Compound(text) => {
                if compounds.len() > 0 {
                    let c = match pending {
                        Some(c) => c,
                        None => Combinator::Descendant,
                    };
                    combinators.push(c);
                }
                let c = parse_compound(text.as_slice());
                let ghost cs0 = compounds@;
                compounds.push(c);
                proof {
                    lemma_compounds_view_push(cs0, c);
                    lemma_compounds_view_len(cs0);
                }
                pending = None;
            },
            Token::Explicit(c) => {
                pending = Some(*c);
            },
            Token::Space => {
                if pending.is_none() {
                    pending = Some(Combinator::Descendant);
                }
            },
        }
        i += 1;
    }
    assert(tokens_view(tokens@).take(i as int) =~= tokens_view(tokens@));
    proof {
        lemma_compounds_view_len(compounds@);
    }
    if compounds.len() == 0 {
        return None;
    }
    let specificity = specificity_of(&compounds);
    Some(Selector { compounds, combinators, specificity })
}

proof fn lemma_compounds_view_len(s: Seq<Compound>)
    ensures
        compounds_view(s).len() == s.len(),
    decreases s.len(),
{
    if s.len() > 0 {
        lemma_compounds_view_len(s.drop_last());
    }
}

/// Parse a comma-separated selector list; pieces that hold no selector are
/// dropped.
pub fn parse_selector_list(list: &str) -> (res: Vec<Selector>)
    ensures
        selectors_view(res@) == parse_selector_list_spec(list@),
{
    let s = chars_of(list);
    let pieces = split_char(s.as_slice(), ',');
    let ghost pv = texts_view(pieces@);
    let mut out: Vec<Selector> = Vec::new();
    let mut i: usize = 0;
    assert(selectors_view(out@) =~= Seq::<SelectorView>::empty());
    assert(pv.take(0) =~= Seq::<Seq<char>>::empty());
    while i < pieces.len()
        invariant
            i <= pieces@.len(),
            pv == texts_view(pieces@),
            pv == split_on(s@, ','),
            selectors_view(out@) == selectors_of(pv.take(i as int)),
        decreases pieces@.len() - i,
    {
        assert(pv.take(i + 1).drop_last() =~= pv.take(i as int));
        assert(pv.take(i + 1).last() == pieces@[i as int]@);
        let t = trim_chars(pieces[i].as_slice());
        let ghost o0 = out@;
        match parse_selector(t.as_slice()) {
            Some(sel) => {
                out.push(sel);
                assert(selectors_view(out@) =~= selectors_view(o0) + seq![selector_view(sel)]);
            },
            None => {
                assert(selectors_view(out@) =~= selectors_view(o0) + Seq::<SelectorView>::empty());
            },
        }
        i += 1;
    }
    assert(pv.take(i as int) =~= pv);
    out
}
} // verus!
