//! The inline text options, and the whitespace collapsing that normal and
//! no-wrap text undergo before it is measured.
use vstd::prelude::*;
use crate::chars::{chars_of, is_ws, push_chars, split_words, string_of, texts_view, word_len, words};

verus! {

/// CSS `white-space` handling (subset).
#[derive(Debug, Clone, Copy, PartialEq, Eq, Structural)]
pub enum WhiteSpace {
    /// Collapse runs of whitespace and wrap at break opportunities.
    Normal,
    /// Preserve whitespace and line breaks; do not wrap.
    Pre,
    /// Collapse whitespace but never wrap.
    NoWrap,
}

impl Default for WhiteSpace {
    fn default() -> (res: WhiteSpace)
        ensures
            res == WhiteSpace::Normal,
    {
        WhiteSpace::Normal
    }
}

/// CSS `text-align` (subset).
#[derive(Debug, Clone, Copy, PartialEq, Eq, Structural)]
pub enum Align {
    Left,
    Right,
    Center,
    Justify,
}

impl Default for Align {
    fn default() -> (res: Align)
        ensures
            res == Align::Left,
    {
        Align::Left
    }
}


/// Words joined with single spaces.
pub open spec fn join_spaces(ws: Seq<Seq<char>>) -> Seq<char>
    decreases ws.len(),
{
    if ws.len() == 0 {
        seq![]
    } else if ws.len() == 1 {
        ws[0]
    } else {
        join_spaces(ws.drop_last()) + seq![' '] + ws.last()
    }
}

/// Collapse every run of whitespace to a single space and drop leading and
/// trailing whitespace.
pub fn collapse_ws(text: &str) -> (res: String)
    ensures
        res@ == join_spaces(words(text@)),
{
    let cs = chars_of(text);
    let ws = split_words(cs.as_slice());
    let ghost all = texts_view(ws@);
    let mut out: Vec<char> = Vec::new();
    let mut k: usize = 0;
    while k < ws.len()
        invariant
            k <= ws@.len(),
            all == texts_view(ws@),
            all == words(text@),
            out@ == join_spaces(all.take(k as int)),
        decreases ws.len() - k,
    {
        assert(all.take(k + 1).drop_last() =~= all.take(k as int));
        if k > 0 {
            out.push(' ');
        }
        push_chars(&mut out, ws[k].as_slice());
        proof {
            if k == 0 {
                assert(all.take(1) =~= seq![all[0]]);
            }
        }
        k += 1;
    }
    assert(all.take(k as int) =~= all);
    string_of(out.as_slice())
}


/// A word: non-empty, with no whitespace in it.
pub open spec fn is_word(w: Seq<char>) -> bool {
    w.len() > 0 && forall|i: int| 0 <= i < w.len() ==> !is_ws(#[trigger] w[i])
}

proof fn lemma_word_len_of_word(w: Seq<char>, r: Seq<char>)
    requires
        forall|i: int| 0 <= i < w.len() ==> !is_ws(#[trigger] w[i]),
        r.len() == 0 || is_ws(r[0]),
    ensures
        word_len(w + r) == w.len(),
    decreases w.len(),
{
    if w.len() > 0 {
        assert((w + r).drop_first() =~= w.drop_first() + r);
        assert(!is_ws(w[0]));
        lemma_word_len_of_word(w.drop_first(), r);
    } else {
        assert(w + r =~= r);
    }
}

proof fn lemma_word_len_bounds(s: Seq<char>)
    ensures
        0 <= word_len(s) <= s.len(),
        forall|i: int| 0 <= i < word_len(s) ==> !is_ws(#[trigger] s[i]),
        word_len(s) < s.len() ==> is_ws(s[word_len(s)]),
    decreases s.len(),
{
    if s.len() > 0 && !is_ws(s[0]) {
        lemma_word_len_bounds(s.drop_first());
        assert forall|i: int| 0 <= i < word_len(s) implies !is_ws(#[trigger] s[i]) by {
            if i > 0 {
                assert(s[i] == s.drop_first()[i - 1]);
            }
        }
    }
}

/// Every word the splitting yields is a word.
pub proof fn lemma_words_are_words(s: Seq<char>)
    ensures
        forall|k: int| 0 <= k < words(s).len() ==> is_word(#[trigger] words(s)[k]),
    decreases s.len(),
{
    if s.len() > 0 {
        if is_ws(s[0]) {
            lemma_words_are_words(s.drop_first());
            assert(words(s) == words(s.drop_first()));
        } else {
            lemma_word_len_bounds(s);
            let j = word_len(s);
            if j > 0 && j <= s.len() {
                assert(words(s) == seq![s.take(j)] + words(s.skip(j)));
                lemma_words_are_words(s.skip(j));
                let w = s.take(j);
                assert forall|i: int| 0 <= i < w.len() implies !is_ws(#[trigger] w[i]) by {
                    assert(w[i] == s[i]);
                }
                assert forall|k: int| 0 <= k < words(s).len() implies is_word(#[trigger] words(s)[k]) by {
                    if k > 0 {
                        assert(words(s)[k] == words(s.skip(j))[k - 1]);
                    } else {
                        assert(words(s)[k] == w);
                    }
                }
            }
        }
    }
}

/// Splitting `w` followed by whitespace-led text gives `w` and then the
/// words of that text.
pub proof fn lemma_words_prefix(w: Seq<char>, r: Seq<char>)
    requires
        is_word(w),
        r.len() == 0 || is_ws(r[0]),
    ensures
        words(w + r) == seq![w] + words(r),
{
    lemma_word_len_of_word(w, r);
    let s = w + r;
    assert(s[0] == w[0]);
    assert(s.take(w.len() as int) =~= w);
    assert(s.skip(w.len() as int) =~= r);
}

/// Joining from the front: the first word, then a space and the rest.
proof fn lemma_join_front(ws: Seq<Seq<char>>)
    requires
        ws.len() >= 2,
    ensures
        join_spaces(ws) == ws[0] + (seq![' '] + join_spaces(ws.drop_first())),
    decreases ws.len(),
{
    if ws.len() == 2 {
        assert(ws.drop_last() =~= seq![ws[0]]);
        assert(ws.drop_first() =~= seq![ws[1]]);
        assert(join_spaces(ws.drop_last()) == ws[0]);
        assert(join_spaces(ws.drop_first()) == ws[1]);
        assert(join_spaces(ws) =~= ws[0] + (seq![' '] + join_spaces(ws.drop_first())));
    } else {
        lemma_join_front(ws.drop_last());
        let d = ws.drop_last();
        let f = ws.drop_first();
        assert(d.drop_first() =~= f.drop_last());
        assert(f.last() == ws.last());
        assert(d[0] == ws[0]);
        assert(join_spaces(ws) == join_spaces(d) + seq![' '] + ws.last());
        assert(join_spaces(d) == d[0] + (seq![' '] + join_spaces(d.drop_first())));
        assert(join_spaces(f) == join_spaces(f.drop_last()) + seq![' '] + f.last());
        assert(join_spaces(ws) =~= ws[0] + (seq![' '] + join_spaces(f)));
    }
}

/// The words of words joined with spaces are those words.
proof fn lemma_words_of_joined(ws: Seq<Seq<char>>)
    requires
        forall|k: int| 0 <= k < ws.len() ==> is_word(#[trigger] ws[k]),
    ensures
        words(join_spaces(ws)) == ws,
    decreases ws.len(),
{
    if ws.len() == 0 {
    } else if ws.len() == 1 {
        assert(is_word(ws[0]));
        lemma_words_prefix(ws[0], seq![]);
        assert(ws[0] + Seq::<char>::empty() =~= ws[0]);
        assert(seq![ws[0]] + Seq::<Seq<char>>::empty() =~= ws);
    } else {
        let rest = ws.drop_first();
        assert forall|k: int| 0 <= k < rest.len() implies is_word(#[trigger] rest[k]) by {
            assert(rest[k] == ws[k + 1]);
        }
        lemma_words_of_joined(rest);
        lemma_join_front(ws);
        assert(is_word(ws[0]));
        let tail = seq![' '] + join_spaces(rest);
        lemma_words_prefix(ws[0], tail);
        assert(tail.drop_first() =~= join_spaces(rest));
        assert(words(tail) == words(join_spaces(rest)));
        assert(seq![ws[0]] + rest =~= ws);
    }
}

/// Collapsing whitespace twice is collapsing it once.
pub proof fn collapse_is_idempotent(s: Seq<char>)
    ensures
        join_spaces(words(join_spaces(words(s)))) == join_spaces(words(s)),
{
    lemma_words_are_words(s);
    lemma_words_of_joined(words(s));
}

} // verus!
