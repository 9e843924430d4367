//! Font registry and fallback chain: selects a face for a `font-family` list by
//! weight/style closeness, and resolves per-character fallback so a glyph
//! missing from the primary face is found in a later one. A glyph absent from
//! every face yields `None`, which the caller turns into `.notdef` and a lint.
//!
//! Besides the caller's faces a registry may carry built-in fallback faces,
//! kept after every caller face so a caller's own font always wins. The CSS
//! generic keywords `sans-serif`, `serif` and `monospace` stand for the
//! built-in families (Inter then Roboto, Liberation Serif then PT Serif, Fira
//! Code then IBM Plex Mono), so `font-family: sans-serif` selects Inter first.
use vstd::prelude::*;
use crate::chars::{chars_eq_ignore_case, chars_of, eq_ignore_case, trim, trim_chars, trim_end, trim_start};

verus! {

/// A font face as the registry sees it: family name, weight, style, and the
/// inclusive character ranges it has glyphs for.
#[derive(Debug, Clone)]
pub struct FontFace {
    pub family: String,
    pub weight: u16,
    pub italic: bool,
    pub ranges: Vec<(char, char)>,
}

/// The plain-value picture of a [`FontFace`].
pub struct FaceView {
    pub family: Seq<char>,
    pub weight: u16,
    pub italic: bool,
    pub ranges: Seq<(char, char)>,
}

impl View for FontFace {
    type V = FaceView;

    open spec fn view(&self) -> FaceView {
        FaceView { family: self.family@, weight: self.weight, italic: self.italic, ranges: self.ranges@ }
    }
}

/// Whether a face has a glyph for `ch`.
pub open spec fn covers(f: FaceView, ch: char) -> bool {
    exists|i: int| 0 <= i < f.ranges.len() && (#[trigger] f.ranges[i]).0 <= ch && ch <= f.ranges[i].1
}

impl FontFace {
    /// The family name.
    pub fn family(&self) -> (res: &str)
        ensures
            res@ == self.family@,
    {
        self.family.as_str()
    }

    /// The weight (100–900).
    pub fn weight(&self) -> (res: u16)
        ensures
            res == self.weight,
    {
        self.weight
    }

    /// Whether the face is italic.
    pub fn is_italic(&self) -> (res: bool)
        ensures
            res == self.italic,
    {
        self.italic
    }

    /// Whether the face has a glyph for `ch`.
    pub fn has_glyph(&self, ch: char) -> (res: bool)
        ensures
            res == covers(self@, ch),
    {
        let mut i: usize = 0;
        while i < self.ranges.len()
            invariant
                i <= self.ranges@.len(),
                forall|j: int| 0 <= j < i ==> !((#[trigger] self.ranges@[j]).0 <= ch && ch <= self.ranges@[j].1),
            decreases self.ranges@.len() - i,
        {
            let (lo, hi) = self.ranges[i];
            if lo <= ch && ch <= hi {
                assert(self.ranges@[i as int] == (lo, hi));
                assert(self@.ranges[i as int] == (lo, hi));
                assert(self@.ranges[i as int].0 <= ch && ch <= self@.ranges[i as int].1);
                assert(covers(self@, ch));
                return true;
            }
            i += 1;
        }
        false
    }
}

/// A set of font faces in lookup order: the caller's faces, in registration
/// order, then the built-in fallback faces.
#[derive(Debug)]
pub struct FontRegistry {
    faces: Vec<FontFace>,
    caller: usize,
}

/// The views of a list of faces.
pub open spec fn faces_view(s: Seq<FontFace>) -> Seq<FaceView> {
    s.map_values(|f: FontFace| f@)
}

impl FontRegistry {
    /// The caller's faces come first: `caller` counts them.
    #[verifier::type_invariant]
    spec fn callers_first(self) -> bool {
        self.caller <= self.faces@.len()
    }

    /// All faces in lookup order: caller faces, then built-in fallbacks.
    pub closed spec fn all(&self) -> Seq<FaceView> {
        faces_view(self.faces@)
    }

    /// The number of caller faces.
    pub closed spec fn caller_len(&self) -> nat {
        self.caller as nat
    }

    /// The built-in fallback faces, after the caller's.
    pub open spec fn fallbacks(&self) -> Seq<FaceView> {
        self.all().skip(self.caller_len() as int)
    }
}

/// The real families a CSS generic keyword stands for (the built-in primary
/// face, then the secondary one); `None` for any other name.
pub open spec fn generic_families(name: Seq<char>) -> Option<Seq<Seq<char>>> {
    let key = trim(name);
    if eq_ignore_case(key, "sans-serif"@) {
        Some(seq!["Inter"@, "Roboto"@])
    } else if eq_ignore_case(key, "serif"@) {
        Some(seq!["Liberation Serif"@, "PT Serif"@])
    } else if eq_ignore_case(key, "monospace"@) {
        Some(seq!["Fira Code"@, "IBM Plex Mono"@])
    } else {
        None
    }
}

/// The family names one CSS family name stands for: a generic keyword's real
/// families, any other name itself.
pub open spec fn expand_family(name: Seq<char>) -> Seq<Seq<char>> {
    match generic_families(name) {
        Some(reals) => reals,
        None => seq![name],
    }
}

/// A family list with every name expanded, in order.
pub open spec fn expand_families(families: Seq<Seq<char>>) -> Seq<Seq<char>>
    decreases families.len(),
{
    if families.len() == 0 {
        Seq::empty()
    } else {
        expand_families(families.drop_last()) + expand_family(families.last())
    }
}

/// The texts of a list of strings.
pub open spec fn strings_view(s: Seq<String>) -> Seq<Seq<char>> {
    s.map_values(|x: String| x@)
}

/// Whether a face belongs to the family `name` (trimmed, any ASCII case).
pub open spec fn family_matches(f: FaceView, name: Seq<char>) -> bool {
    eq_ignore_case(f.family, trim(name))
}

/// How far a face is from the wanted weight and style: the weight difference,
/// plus 1000 when the style differs.
pub open spec fn score(f: FaceView, weight: u16, italic: bool) -> int {
    (if f.weight >= weight { f.weight - weight } else { weight - f.weight }) + if f.italic == italic {
        0int
    } else {
        1000int
    }
}

/// The face (by index among the first `n`) of family `name` — and covering
/// `ch`, when given — with the lowest score; the first of those on a tie.
pub open spec fn best_in(all: Seq<FaceView>, n: int, name: Seq<char>, ch: Option<char>, weight: u16, italic: bool) -> Option<int>
    decreases n,
{
    if n <= 0 || n > all.len() {
        None
    } else {
        let b = best_in(all, n - 1, name, ch, weight, italic);
        let f = all[n - 1];
        let ok = family_matches(f, name) && match ch {
            Some(c) => covers(f, c),
            None => true,
        };
        if ok && (b is None || score(f, weight, italic) < score(all[b->0], weight, italic)) {
            Some(n - 1)
        } else {
            b
        }
    }
}

/// The best face of the first family of `families` that has a match.
pub open spec fn first_family(all: Seq<FaceView>, families: Seq<Seq<char>>, ch: Option<char>, weight: u16, italic: bool) -> Option<int>
    decreases families.len(),
{
    if families.len() == 0 {
        None
    } else {
        match best_in(all, all.len() as int, families[0], ch, weight, italic) {
            Some(i) => Some(i),
            None => first_family(all, families.drop_first(), ch, weight, italic),
        }
    }
}

/// The first face covering `ch`.
pub open spec fn first_covering(all: Seq<FaceView>, ch: char, i: int) -> Option<int>
    decreases all.len() - i,
{
    if i < 0 || i >= all.len() {
        None
    } else if covers(all[i], ch) {
        Some(i)
    } else {
        first_covering(all, ch, i + 1)
    }
}

/// The face [`FontRegistry::select`] picks: the best of the first (expanded)
/// family with a match, else the first face.
pub open spec fn select_spec(all: Seq<FaceView>, families: Seq<Seq<char>>, weight: u16, italic: bool) -> Option<int> {
    match first_family(all, expand_families(families), None, weight, italic) {
        Some(i) => Some(i),
        None => if all.len() > 0 {
            Some(0)
        } else {
            None
        },
    }
}

/// The face [`FontRegistry::resolve_glyph`] picks for `ch`: the best face of
/// the first (expanded) family that covers it, else the first face that
/// covers it.
pub open spec fn resolve_spec(all: Seq<FaceView>, families: Seq<Seq<char>>, weight: u16, italic: bool, ch: char) -> Option<int> {
    match first_family(all, expand_families(families), Some(ch), weight, italic) {
        Some(i) => Some(i),
        None => first_covering(all, ch, 0),
    }
}

proof fn lemma_best_in_bounds(all: Seq<FaceView>, n: int, name: Seq<char>, ch: Option<char>, weight: u16, italic: bool)
    ensures
        best_in(all, n, name, ch, weight, italic) matches Some(i) ==> 0 <= i < n && i < all.len(),
    decreases n,
{
    if n > 0 && n <= all.len() {
        lemma_best_in_bounds(all, n - 1, name, ch, weight, italic);
    }
}

fn score_x(f: &FontFace, weight: u16, italic: bool) -> (res: u32)
    ensures
        res == score(f@, weight, italic),
{
    let d: u32 = if f.weight >= weight {
        (f.weight - weight) as u32
    } else {
        (weight - f.weight) as u32
    };
    let p: u32 = if f.italic == italic {
        0
    } else {
        1000
    };
    d + p
}

/// Append the family names `name` stands for.
fn push_expanded(out: &mut Vec<String>, name: &str)
    ensures
        strings_view(final(out)@) == strings_view(old(out)@) + expand_family(name@),
{
    let key = trim_chars(chars_of(name).as_slice());
    let sans = chars_of("sans-serif");
    let serif = chars_of("serif");
    let mono = chars_of("monospace");
    if chars_eq_ignore_case(key.as_slice(), sans.as_slice()) {
        out.push("Inter".to_string());
        out.push("Roboto".to_string());
        assert(strings_view(out@) =~= strings_view(old(out)@) + seq!["Inter"@, "Roboto"@]);
    } else if chars_eq_ignore_case(key.as_slice(), serif.as_slice()) {
        out.push("Liberation Serif".to_string());
        out.push("PT Serif".to_string());
        assert(strings_view(out@) =~= strings_view(old(out)@) + seq!["Liberation Serif"@, "PT Serif"@]);
    } else if chars_eq_ignore_case(key.as_slice(), mono.as_slice()) {
        out.push("Fira Code".to_string());
        out.push("IBM Plex Mono".to_string());
        assert(strings_view(out@) =~= strings_view(old(out)@) + seq!["Fira Code"@, "IBM Plex Mono"@]);
    } else {
        out.push(name.to_string());
        assert(strings_view(out@) =~= strings_view(old(out)@) + seq![name@]);
    }
}

/// Every name of `families` expanded, in order.
fn expand_families_x(families: &[&str]) -> (res: Vec<String>)
    ensures
        strings_view(res@) == expand_families(families@.map_values(|s: &str| s@)),
{
    let ghost fams = families@.map_values(|s: &str| s@);
    let mut out: Vec<String> = Vec::new();
    let mut k: usize = 0;
    assert(fams.take(0) =~= Seq::<Seq<char>>::empty());
    assert(strings_view(out@) =~= Seq::<Seq<char>>::empty());
    while k < families.len()
        invariant
            k <= families@.len(),
            fams == families@.map_values(|s: &str| s@),
            strings_view(out@) == expand_families(fams.take(k as int)),
        decreases families@.len() - k,
    {
        push_expanded(&mut out, families[k]);
        assert(fams.take(k + 1).drop_last() =~= fams.take(k as int));
        assert(fams.take(k + 1).last() == families@[k as int]@);
        k += 1;
    }
    assert(fams.take(k as int) =~= fams);
    out
}

impl FontRegistry {
    /// A registry with no caller faces and no built-in fallback faces.
    pub fn new() -> (res: FontRegistry)
        ensures
            res.all().len() == 0,
            res.caller_len() == 0,
    {
        let res = FontRegistry { faces: Vec::new(), caller: 0 };
        assert(res.all() =~= Seq::<FaceView>::empty());
        res
    }

    /// A registry with no caller faces that carries `fallbacks` as its
    /// built-in faces, consulted after every caller face.
    pub fn with_fallbacks(fallbacks: Vec<FontFace>) -> (res: FontRegistry)
        ensures
            res.all() == faces_view(fallbacks@),
            res.caller_len() == 0,
    {
        FontRegistry { faces: fallbacks, caller: 0 }
    }

    /// Register a caller face, after the caller faces before it and ahead of
    /// every built-in fallback.
    pub fn add(&mut self, face: FontFace)
        ensures
            final(self).caller_len() == old(self).caller_len() + 1,
            final(self).all() == old(self).all().insert(old(self).caller_len() as int, face@),
    {
        let ghost fv = face@;
        let ghost before = self.all();
        let mut current = FontRegistry::new();
        std::mem::swap(self, &mut current);
        proof {
            use_type_invariant(&current);
        }
        let FontRegistry { mut faces, caller } = current;
        let ghost n = faces@.len();
        faces.insert(caller, face);
        assert(faces@.len() == n + 1);
        let total = faces.len();
        assert(caller < total);
        assert(faces_view(faces@) =~= before.insert(caller as int, fv));
        *self = FontRegistry { faces, caller: caller + 1 };
    }

    /// True when the registry has no usable face at all (neither caller nor
    /// built-in).
    pub fn is_empty(&self) -> (res: bool)
        ensures
            res == (self.all().len() == 0),
    {
        self.faces.len() == 0
    }

    /// The number of caller-supplied faces; built-in fallbacks are not counted.
    pub fn len(&self) -> (res: usize)
        ensures
            res == self.caller_len(),
    {
        self.caller
    }

    /// The face at `i` in lookup order.
    fn at(&self, i: usize) -> (res: &FontFace)
        requires
            i < self.all().len(),
        ensures
            res@ == self.all()[i as int],
    {
        &self.faces[i]
    }

    fn count(&self) -> (res: usize)
        ensures
            res == self.all().len(),
    {
        self.faces.len()
    }

    /// The best face of family `name` (covering `ch` when given).
    fn best_in_x(&self, name: &str, ch: Option<char>, weight: u16, italic: bool) -> (res: Option<usize>)
        ensures
            match res {
                Some(i) => best_in(self.all(), self.all().len() as int, name@, ch, weight, italic) == Some(i as int),
                None => best_in(self.all(), self.all().len() as int, name@, ch, weight, italic) is None,
            },
    {
        let total = self.count();
        let want = trim_chars(chars_of(name).as_slice());
        let ghost all = self.all();
        let mut best: Option<usize> = None;
        let mut best_score: u32 = 0;
        let mut i: usize = 0;
        while i < total
            invariant
                i <= total,
                total == all.len(),
                all == self.all(),
                want@ == trim(name@),
                match best {
                    Some(b) => best_in(all, i as int, name@, ch, weight, italic) == Some(b as int) && b < i
                        && best_score == score(all[b as int], weight, italic),
                    None => best_in(all, i as int, name@, ch, weight, italic) is None,
                },
            decreases total - i,
        {
            let f = self.at(i);
            let fam = chars_of(f.family());
            let mut ok = chars_eq_ignore_case(fam.as_slice(), want.as_slice());
            if ok {
                match ch {
                    Some(c) => {
                        ok = f.has_glyph(c);
                    },
                    None => {},
                }
            }
            if ok {
                let sc = score_x(f, weight, italic);
                let take = match best {
                    Some(_) => sc < best_score,
                    None => true,
                };
                if take {
                    best = Some(i);
                    best_score = sc;
                }
            }
            i += 1;
        }
        best
    }

    /// Select the best face for a family list + weight/style (generic keywords
    /// expanded to the built-in families), falling back to the first available
    /// face (caller, else built-in) if no family matches.
    pub fn select(&self, families: &[&str], weight: u16, italic: bool) -> (res: Option<&FontFace>)
        ensures
            match res {
                Some(f) => select_spec(self.all(), families@.map_values(|s: &str| s@), weight, italic) matches Some(i)
                    && 0 <= i < self.all().len() && f@ == self.all()[i],
                None => select_spec(self.all(), families@.map_values(|s: &str| s@), weight, italic) is None,
            },
    {
        let names = expand_families_x(families);
        let ghost fams = strings_view(names@);
        let ghost raw = families@.map_values(|s: &str| s@);
        assert(fams == expand_families(raw));
        let mut k: usize = 0;
        assert(fams.skip(0) =~= fams);
        while k < names.len()
            invariant
                k <= names@.len(),
                fams == strings_view(names@),
                fams == expand_families(raw),
                raw == families@.map_values(|s: &str| s@),
                first_family(self.all(), fams, None, weight, italic) == first_family(self.all(), fams.skip(k as int), None, weight, italic),
            decreases names@.len() - k,
        {
            assert(fams.skip(k as int)[0] == names@[k as int]@);
            match self.best_in_x(names[k].as_str(), None, weight, italic) {
                Some(i) => {
                    proof {
                        lemma_best_in_bounds(self.all(), self.all().len() as int, names@[k as int]@, None, weight, italic);
                    }
                    return Some(self.at(i));
                },
                None => {},
            }
            assert(fams.skip(k as int).drop_first() =~= fams.skip(k + 1));
            k += 1;
        }
        if self.count() > 0 {
            Some(self.at(0))
        } else {
            None
        }
    }

    /// Resolve the face that should render `ch`, walking the (expanded) family
    /// list then any available face. Returns `None` if no face covers it.
    pub fn resolve_glyph(&self, families: &[&str], weight: u16, italic: bool, ch: char) -> (res: Option<&FontFace>)
        ensures
            match res {
                Some(f) => resolve_spec(self.all(), families@.map_values(|s: &str| s@), weight, italic, ch) matches Some(i)
                    && 0 <= i < self.all().len() && f@ == self.all()[i],
                None => resolve_spec(self.all(), families@.map_values(|s: &str| s@), weight, italic, ch) is None,
            },
    {
        let names = expand_families_x(families);
        let ghost fams = strings_view(names@);
        let ghost raw = families@.map_values(|s: &str| s@);
        assert(fams == expand_families(raw));
        let mut k: usize = 0;
        assert(fams.skip(0) =~= fams);
        while k < names.len()
            invariant
                k <= names@.len(),
                fams == strings_view(names@),
                fams == expand_families(raw),
                raw == families@.map_values(|s: &str| s@),
                first_family(self.all(), fams, Some(ch), weight, italic) == first_family(self.all(), fams.skip(k as int), Some(ch), weight, italic),
            decreases names@.len() - k,
        {
            assert(fams.skip(k as int)[0] == names@[k as int]@);
            match self.best_in_x(names[k].as_str(), Some(ch), weight, italic) {
                Some(i) => {
                    proof {
                        lemma_best_in_bounds(self.all(), self.all().len() as int, names@[k as int]@, Some(ch), weight, italic);
                    }
                    return Some(self.at(i));
                },
                None => {},
            }
            assert(fams.skip(k as int).drop_first() =~= fams.skip(k + 1));
            k += 1;
        }
        let total = self.count();
        let mut i: usize = 0;
        while i < total
            invariant
                i <= total,
                total == self.all().len(),
                fams == strings_view(names@),
                fams == expand_families(raw),
                raw == families@.map_values(|s: &str| s@),
                first_family(self.all(), fams, Some(ch), weight, italic) is None,
                first_covering(self.all(), ch, 0) == first_covering(self.all(), ch, i as int),
            decreases total - i,
        {
            let f = self.at(i);
            if f.has_glyph(ch) {
                assert(first_covering(self.all(), ch, i as int) == Some(i as int));
                return Some(f);
            }
            i += 1;
        }
        None
    }
}

impl Default for FontRegistry {
    fn default() -> (res: FontRegistry)
        ensures
            res.all().len() == 0,
    {
        FontRegistry::new()
    }
}


/// Whether two faces are the same face: same family, weight and slant.
pub fn same_face(a: &FontFace, b: &FontFace) -> (res: bool)
    ensures
        res == (a.family@ == b.family@ && a.weight == b.weight && a.italic == b.italic),
{
    let fa = crate::chars::chars_of(a.family.as_str());
    let fb = crate::chars::chars_of(b.family.as_str());
    crate::chars::chars_eq(fa.as_slice(), fb.as_slice()) && a.weight == b.weight && a.italic == b.italic
}


proof fn lemma_best_in_covers(all: Seq<FaceView>, n: int, name: Seq<char>, c: char, weight: u16, italic: bool)
    ensures
        best_in(all, n, name, Some(c), weight, italic) matches Some(i) ==> 0 <= i < all.len() && covers(
            all[i],
            c,
        ),
    decreases n,
{
    if n > 0 && n <= all.len() {
        lemma_best_in_covers(all, n - 1, name, c, weight, italic);
    }
}

proof fn lemma_first_family_covers(all: Seq<FaceView>, families: Seq<Seq<char>>, c: char, weight: u16, italic: bool)
    ensures
        first_family(all, families, Some(c), weight, italic) matches Some(i) ==> 0 <= i < all.len()
            && covers(all[i], c),
    decreases families.len(),
{
    if families.len() > 0 {
        lemma_best_in_covers(all, all.len() as int, families[0], c, weight, italic);
        lemma_first_family_covers(all, families.drop_first(), c, weight, italic);
    }
}

proof fn lemma_first_covering(all: Seq<FaceView>, c: char, i: int)
    requires
        0 <= i,
    ensures
        first_covering(all, c, i) matches Some(j) ==> i <= j < all.len() && covers(all[j], c),
        first_covering(all, c, i) is None ==> forall|j: int| i <= j < all.len() ==> !covers(
            #[trigger] all[j],
            c,
        ),
    decreases all.len() - i,
{
    if i < all.len() {
        lemma_first_covering(all, c, i + 1);
    }
}

/// Per-character fallback finds a face whenever any face has the glyph, and
/// the face it finds has it; a glyph no face has resolves to none.
pub proof fn fallback_finds_a_covering_face(
    all: Seq<FaceView>,
    families: Seq<Seq<char>>,
    weight: u16,
    italic: bool,
    ch: char,
)
    ensures
        resolve_spec(all, families, weight, italic, ch) matches Some(i) ==> 0 <= i < all.len() && covers(
            all[i],
            ch,
        ),
        resolve_spec(all, families, weight, italic, ch) is None <==> forall|j: int|
            0 <= j < all.len() ==> !covers(#[trigger] all[j], ch),
{
    lemma_first_family_covers(all, expand_families(families), ch, weight, italic);
    lemma_first_covering(all, ch, 0);
}


proof fn lemma_best_in_found(all: Seq<FaceView>, n: int, name: Seq<char>, weight: u16, italic: bool)
    requires
        0 <= n <= all.len(),
    ensures
        (exists|i: int| 0 <= i < n && family_matches(#[trigger] all[i], name)) ==> (best_in(all, n, name, None, weight, italic) matches Some(j)
            && 0 <= j < n && family_matches(all[j], name)),
        !(exists|i: int| 0 <= i < n && family_matches(#[trigger] all[i], name)) ==> best_in(all, n, name, None, weight, italic) is None,
    decreases n,
{
    if n > 0 {
        lemma_best_in_found(all, n - 1, name, weight, italic);
        if exists|i: int| 0 <= i < n && family_matches(#[trigger] all[i], name) {
            let i = choose|i: int| 0 <= i < n && family_matches(#[trigger] all[i], name);
            if i < n - 1 {
                assert(exists|i: int| 0 <= i < n - 1 && family_matches(#[trigger] all[i], name));
            }
        } else {
            assert(!family_matches(all[n - 1], name));
            assert(!(exists|i: int| 0 <= i < n - 1 && family_matches(#[trigger] all[i], name)));
        }
    }
}

/// `font-family: sans-serif` selects an Inter face whenever the registry has
/// one, and otherwise a Roboto face whenever it has one.
pub proof fn sans_serif_selects_inter_then_roboto(all: Seq<FaceView>, weight: u16, italic: bool)
    ensures
        (exists|i: int| 0 <= i < all.len() && family_matches(#[trigger] all[i], "Inter"@)) ==> (select_spec(
            all,
            seq!["sans-serif"@],
            weight,
            italic,
        ) matches Some(j) && 0 <= j < all.len() && family_matches(all[j], "Inter"@)),
        (!(exists|i: int| 0 <= i < all.len() && family_matches(#[trigger] all[i], "Inter"@)) && (exists|i: int|
            0 <= i < all.len() && family_matches(#[trigger] all[i], "Roboto"@))) ==> (select_spec(
            all,
            seq!["sans-serif"@],
            weight,
            italic,
        ) matches Some(j) && 0 <= j < all.len() && family_matches(all[j], "Roboto"@)),
{
    reveal_strlit("sans-serif");
    let key = "sans-serif"@;
    assert(trim_start(key) == key);
    assert(trim_end(key) == key);
    assert(trim(key) == key);
    assert(eq_ignore_case(trim(key), "sans-serif"@));
    assert(generic_families(key) == Some(seq!["Inter"@, "Roboto"@]));
    let fams = seq![key];
    assert(fams.drop_last() =~= Seq::<Seq<char>>::empty());
    assert(expand_families(Seq::<Seq<char>>::empty()) =~= Seq::<Seq<char>>::empty());
    assert(fams.last() == key);
    assert(expand_family(key) == seq!["Inter"@, "Roboto"@]);
    assert(expand_families(fams) =~= seq!["Inter"@, "Roboto"@]);
    let names = seq!["Inter"@, "Roboto"@];
    assert(names.drop_first() =~= seq!["Roboto"@]);
    assert(seq!["Roboto"@].drop_first() =~= Seq::<Seq<char>>::empty());
    lemma_best_in_found(all, all.len() as int, "Inter"@, weight, italic);
    lemma_best_in_found(all, all.len() as int, "Roboto"@, weight, italic);
    let rob = seq!["Roboto"@];
    assert(rob[0] == "Roboto"@);
    assert(names[0] == "Inter"@);
    if best_in(all, all.len() as int, "Inter"@, None, weight, italic) is None {
        assert(first_family(all, names, None, weight, italic) == first_family(all, rob, None, weight, italic));
    }
}

} // verus!
