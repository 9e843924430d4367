//! The text side of an `@media` query: its comma-separated clauses, whether a
//! clause names `print`, and the `min-width` / `max-width` values of each
//! `and`-separated feature, as written. Reading those values as lengths and
//! comparing them with a viewport width is left to the caller.
use vstd::prelude::*;
use crate::bytes::find_spec;
use crate::chars::{
    ascii_lower, chars_of, copy_range, find_chars, is_whitespace, split_char, split_on,
    string_of, texts_view, to_lower, trim, trim_chars, trim_start,
};

verus! {

/// The `min-width` and `max-width` values one feature states, as written.
pub struct MediaFeature {
    pub min_width: Option<String>,
    pub max_width: Option<String>,
}

/// One comma-separated clause of a media query.
pub struct MediaClause {
    /// Whether the clause names `print` (it then never matches a screen).
    pub print: bool,
    /// Its `and`-separated features, in order.
    pub features: Vec<MediaFeature>,
}

/// The plain-value picture of a [`MediaClause`].
pub struct MediaClauseV {
    pub print: bool,
    pub features: Seq<(Option<Seq<char>>, Option<Seq<char>>)>,
}

/// The text of an optional string.
pub open spec fn opt_text(o: Option<String>) -> Option<Seq<char>> {
    match o {
        Some(s) => Some(s@),
        None => None,
    }
}

/// The picture of a feature.
pub open spec fn feature_view(f: MediaFeature) -> (Option<Seq<char>>, Option<Seq<char>>) {
    (opt_text(f.min_width), opt_text(f.max_width))
}

/// The pictures of a list of features.
pub open spec fn features_view(s: Seq<MediaFeature>) -> Seq<(Option<Seq<char>>, Option<Seq<char>>)> {
    s.map_values(|f: MediaFeature| feature_view(f))
}

/// The picture of a clause.
pub open spec fn clause_view(c: MediaClause) -> MediaClauseV {
    MediaClauseV { print: c.print, features: features_view(c.features@) }
}

/// The features of a list of `and`-separated parts.
pub open spec fn parts_features(s: Seq<Seq<char>>) -> Seq<(Option<Seq<char>>, Option<Seq<char>>)> {
    s.map_values(|p: Seq<char>| feature_spec(p))
}

/// The pictures of a list of clauses.
pub open spec fn clauses_view(s: Seq<MediaClause>) -> Seq<MediaClauseV> {
    s.map_values(|c: MediaClause| clause_view(c))
}

/// The pieces of `s` between occurrences of the non-empty `sep`, in order.
pub open spec fn split_text(s: Seq<char>, sep: Seq<char>) -> Seq<Seq<char>>
    decreases s.len(),
{
    if sep.len() == 0 {
        seq![s]
    } else {
        match find_spec(s, sep, 0) {
            Some(i) => if 0 <= i && i + sep.len() <= s.len() {
                seq![s.take(i)] + split_text(s.skip(i + sep.len()), sep)
            } else {
                seq![s]
            },
            None => seq![s],
        }
    }
}

/// `s` without its trailing `)` and space characters.
pub open spec fn trim_end_parens(s: Seq<char>) -> Seq<char>
    decreases s.len(),
{
    if s.len() > 0 && (s.last() == ')' || s.last() == ' ') {
        trim_end_parens(s.drop_last())
    } else {
        s
    }
}

/// The value after the first `name` in `feat`: past whitespace, a `:` must
/// follow; the rest, trimmed and without trailing `)` and spaces.
pub open spec fn feature_value_spec(feat: Seq<char>, name: Seq<char>) -> Option<Seq<char>> {
    match find_spec(feat, name, 0) {
        Some(i) => {
            let rest = trim_start(feat.skip(i + name.len()));
            if rest.len() > 0 && rest[0] == ':' {
                Some(trim_end_parens(trim(rest.skip(1))))
            } else {
                None
            }
        },
        None => None,
    }
}

/// One feature's `min-width` and `max-width` values.
pub open spec fn feature_spec(part: Seq<char>) -> (Option<Seq<char>>, Option<Seq<char>>) {
    let f = trim(part);
    (feature_value_spec(f, "min-width"@), feature_value_spec(f, "max-width"@))
}

/// One clause (already lowercased): whether it names `print`, and its features.
pub open spec fn clause_spec(raw: Seq<char>) -> MediaClauseV {
    let c = trim(raw);
    MediaClauseV {
        print: find_spec(c, "print"@, 0) is Some,
        features: parts_features(split_text(c, "and"@)),
    }
}

/// The clauses of a media query, read case-insensitively.
pub open spec fn media_clauses_spec(query: Seq<char>) -> Seq<MediaClauseV> {
    split_on(ascii_lower(query), ',').map_values(|c: Seq<char>| clause_spec(c))
}

/// The pieces of `s` between occurrences of `sep`.
fn split_text_x(s: &[char], sep: &[char]) -> (res: Vec<Vec<char>>)
    requires
        sep@.len() > 0,
    ensures
        texts_view(res@) == split_text(s@, sep@),
{
    let mut out: Vec<Vec<char>> = Vec::new();
    let mut start: usize = 0;
    let n = s.len();
    assert(s@.skip(0) =~= s@);
    assert(texts_view(out@) =~= Seq::<Seq<char>>::empty());
    loop
        invariant
            start <= n,
            n == s@.len(),
            sep@.len() > 0,
            split_text(s@, sep@) == texts_view(out@) + split_text(s@.skip(start as int), sep@),
        decreases n - start,
    {
        let rest = copy_range(s, start, n);
        assert(rest@ =~= s@.skip(start as int));
        let ghost old_out = out@;
        match find_chars(rest.as_slice(), sep, 0) {
            Some(i) => {
                out.push(copy_range(rest.as_slice(), 0, i));
                assert(rest@.subrange(0, i as int) =~= rest@.take(i as int));
                assert(rest@.skip(i + sep@.len()) =~= s@.skip(start + i + sep@.len()));
                assert(texts_view(out@) + split_text(s@.skip(start + i + sep@.len()), sep@) =~= texts_view(old_out)
                    + split_text(rest@, sep@));
                start = start + i + sep.len();
            },
            None => {
                out.push(rest);
                assert(texts_view(out@) =~= texts_view(old_out) + split_text(rest@, sep@));
                return out;
            },
        }
    }
}

/// The index of the first non-whitespace character of `s` at or after `from`.
fn skip_ws(s: &[char], from: usize) -> (res: usize)
    requires
        from <= s@.len(),
    ensures
        from <= res <= s@.len(),
        s@.skip(res as int) == trim_start(s@.skip(from as int)),
{
    let mut a = from;
    while a < s.len() && is_whitespace(s[a])
        invariant
            from <= a <= s@.len(),
            trim_start(s@.skip(from as int)) == trim_start(s@.skip(a as int)),
        decreases s@.len() - a,
    {
        assert(s@.skip(a as int).drop_first() =~= s@.skip(a + 1));
        a += 1;
    }
    a
}

/// `s` without its trailing `)` and space characters.
fn trim_end_parens_x(s: &[char]) -> (res: Vec<char>)
    ensures
        res@ == trim_end_parens(s@),
{
    let mut b = s.len();
    assert(s@.take(b as int) =~= s@);
    while b > 0 && (s[b - 1] == ')' || s[b - 1] == ' ')
        invariant
            b <= s@.len(),
            trim_end_parens(s@) == trim_end_parens(s@.take(b as int)),
        decreases b,
    {
        assert(s@.take(b as int).drop_last() =~= s@.take(b - 1));
        b -= 1;
    }
    copy_range(s, 0, b)
}

/// The value after the first `name` in `feat`.
fn feature_value(feat: &[char], name: &str) -> (res: Option<String>)
    ensures
        opt_text(res) == feature_value_spec(feat@, name@),
{
    let nm = chars_of(name);
    match find_chars(feat, nm.as_slice(), 0) {
        Some(i) => {
            assert(i + nm.len() <= feat.len());
            let a = skip_ws(feat, i + nm.len());
            if a < feat.len() && feat[a] == ':' {
                let tail = copy_range(feat, a + 1, feat.len());
                assert(tail@ =~= feat@.skip(a as int).skip(1));
                let t = trim_chars(tail.as_slice());
                let v = trim_end_parens_x(t.as_slice());
                Some(string_of(v.as_slice()))
            } else {
                None
            }
        },
        None => None,
    }
}

/// The clauses of a media query, read case-insensitively: for each, whether
/// it names `print` and the `min-width` / `max-width` values of its features.
pub fn media_clauses(query: &str) -> (res: Vec<MediaClause>)
    ensures
        clauses_view(res@) == media_clauses_spec(query@),
{
    let q = to_lower(chars_of(query).as_slice());
    let raw = split_char(q.as_slice(), ',');
    let and_sep = chars_of("and");
    let print_kw = chars_of("print");
    let ghost want = media_clauses_spec(query@);
    let mut out: Vec<MediaClause> = Vec::new();
    let mut k: usize = 0;
    while k < raw.len()
        invariant
            k <= raw@.len(),
            texts_view(raw@) == split_on(ascii_lower(query@), ','),
            and_sep@ == "and"@,
            print_kw@ == "print"@,
            want == media_clauses_spec(query@),
            want.len() == raw@.len(),
            clauses_view(out@) == want.take(k as int),
        decreases raw@.len() - k,
    {
        let c = trim_chars(raw[k].as_slice());
        assert(raw@[k as int]@ == texts_view(raw@)[k as int]);
        proof {
            reveal_strlit("and");
        }
        let parts = split_text_x(c.as_slice(), and_sep.as_slice());
        let mut feats: Vec<MediaFeature> = Vec::new();
        let mut j: usize = 0;
        while j < parts.len()
            invariant
                j <= parts@.len(),
                texts_view(parts@) == split_text(c@, "and"@),
                features_view(feats@) == parts_features(split_text(c@, "and"@).take(j as int)),
            decreases parts@.len() - j,
        {
            let f = trim_chars(parts[j].as_slice());
            assert(parts@[j as int]@ == texts_view(parts@)[j as int]);
            let min_width = feature_value(f.as_slice(), "min-width");
            let max_width = feature_value(f.as_slice(), "max-width");
            let ghost before = feats@;
            let feat = MediaFeature { min_width, max_width };
            assert(feature_view(feat) == feature_spec(split_text(c@, "and"@)[j as int]));
            feats.push(feat);
            let ghost ps = split_text(c@, "and"@);
            assert(feats@ == before.push(feat));
            assert(features_view(before).len() == before.len());
            assert(parts_features(ps.take(j as int)).len() == ps.take(j as int).len());
            assert(texts_view(parts@).len() == parts@.len());
            assert(before.len() == j);
            assert forall|i: int| 0 <= i < j + 1 implies #[trigger] features_view(feats@)[i] == parts_features(ps.take(j + 1))[i] by {
                if i < j {
                    assert(features_view(before)[i] == parts_features(ps.take(j as int))[i]);
                    assert(feats@[i] == before[i]);
                }
            }
            assert(features_view(feats@) =~= parts_features(ps.take(j + 1)));
            j += 1;
        }
        assert(split_text(c@, "and"@).take(j as int) =~= split_text(c@, "and"@));
        assert(features_view(feats@) == parts_features(split_text(c@, "and"@)));
        let print = find_chars(c.as_slice(), print_kw.as_slice(), 0).is_some();
        let ghost old_out = out@;
        let clause = MediaClause { print, features: feats };
        assert(want[k as int] == clause_spec(texts_view(raw@)[k as int]));
        assert(clause_view(clause).features == clause_spec(texts_view(raw@)[k as int]).features);
        assert(clause_view(clause) == want[k as int]);
        out.push(clause);
        assert(clauses_view(old_out).len() == old_out.len());
        assert(texts_view(raw@).len() == raw@.len());
        assert(old_out.len() == k);
        assert forall|i: int| 0 <= i < k + 1 implies #[trigger] clauses_view(out@)[i] == want.take(k + 1)[i] by {
            if i < k {
                assert(clauses_view(old_out)[i] == want.take(k as int)[i]);
                assert(out@[i] == old_out[i]);
            }
        }
        assert(clauses_view(out@) =~= want.take(k + 1));
        k += 1;
    }
    assert(want.take(k as int) =~= want);
    out
}

} // verus!
