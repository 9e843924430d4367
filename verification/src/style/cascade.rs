//! Cascade and computed-style resolution: a styled tree from the node tree, by
//! matching selectors, applying style tokens and render-time node styles, and
//! folding in inheritance. Cascade order (low→high): UA < author sheets <
//! tokens < node styles < inline < `!important`.
use vstd::prelude::*;
use crate::chars::{chars_eq, chars_eq_ignore_case, chars_of, ends_with, eq_ignore_case, find_chars, has_prefix, has_suffix, split_words, starts_with, string_of, texts_view, words};
use crate::bytes::find_spec;
use crate::node::{Attr, AttrView, Element, Node, NodeView, Tag, TagView, TKind, attrs_view, node_view, nodes_view};
use crate::style::parser::{DeclView, Declaration, Rule, RuleView, decls_view, parse_declarations, parse_declarations_spec, rule_view};
use crate::style::token::{StyleTokenView, TokenSet, resolve_tokens, resolve_tokens_spec};
use crate::chars::{trim, trim_chars};
use crate::style::selector::{AttrOp, AttrSel, AttrSelView, Combinator, Compound, CompoundView, Pseudo, PseudoView, Selector, SelectorView, compound_view, compounds_view, opt_view, pseudo_view, pseudos_view, selector_view, strings_view};

verus! {

/// `a` sorts strictly before `b`, comparing characters by code point and a
/// proper prefix first (the order of `String`).
pub open spec fn text_lt(a: Seq<char>, b: Seq<char>) -> bool
    decreases a.len(),
{
    if a.len() == 0 {
        b.len() > 0
    } else if b.len() == 0 {
        false
    } else if a[0] != b[0] {
        (a[0] as u32) < (b[0] as u32)
    } else {
        text_lt(a.drop_first(), b.drop_first())
    }
}

/// Whether `a` sorts strictly before `b`.
pub(crate) fn text_less(a: &[char], b: &[char]) -> (res: bool)
    ensures
        res == text_lt(a@, b@),
{
    let mut i: usize = 0;
    assert(a@.skip(0) =~= a@);
    assert(b@.skip(0) =~= b@);
    while i < a.len() && i < b.len() && a[i] == b[i]
        invariant
            i <= a@.len(),
            i <= b@.len(),
            text_lt(a@, b@) == text_lt(a@.skip(i as int), b@.skip(i as int)),
        decreases a@.len() - i,
    {
        assert(a@.skip(i as int).drop_first() =~= a@.skip(i + 1));
        assert(b@.skip(i as int).drop_first() =~= b@.skip(i + 1));
        i += 1;
    }
    if i == a.len() {
        i < b.len()
    } else if i == b.len() {
        false
    } else {
        (a[i] as u32) < (b[i] as u32)
    }
}

/// `s` (kept in key order) with `k` set to `v`: an entry of key `k` is
/// replaced, otherwise a new one goes before the first larger key.
pub open spec fn sorted_insert<V>(s: Seq<(Seq<char>, V)>, k: Seq<char>, v: V) -> Seq<(Seq<char>, V)>
    decreases s.len(),
{
    if s.len() == 0 {
        seq![(k, v)]
    } else if s[0].0 == k {
        seq![(k, v)] + s.drop_first()
    } else if text_lt(k, s[0].0) {
        seq![(k, v)] + s
    } else {
        seq![s[0]] + sorted_insert(s.drop_first(), k, v)
    }
}

/// The value of the first entry of key `k`.
pub open spec fn map_get<V>(s: Seq<(Seq<char>, V)>, k: Seq<char>) -> Option<V>
    decreases s.len(),
{
    if s.len() == 0 {
        None
    } else if s[0].0 == k {
        Some(s[0].1)
    } else {
        map_get(s.drop_first(), k)
    }
}

/// Reading a key after setting it gives what was set; other keys keep their
/// values.
pub proof fn sorted_insert_then_get<V>(s: Seq<(Seq<char>, V)>, k: Seq<char>, v: V, q: Seq<char>)
    ensures
        map_get(sorted_insert(s, k, v), q) == (if q == k { Some(v) } else { map_get(s, q) }),
    decreases s.len(),
{
    let t = sorted_insert(s, k, v);
    if s.len() == 0 {
        assert(t[0] == (k, v));
        assert(t.drop_first() =~= Seq::<(Seq<char>, V)>::empty());
        if q != k {
            assert(map_get(t, q) == map_get(t.drop_first(), q));
        }
    } else if s[0].0 == k {
        assert(t[0] == (k, v));
        assert(t.drop_first() =~= s.drop_first());
        if q != k {
            assert(map_get(t, q) == map_get(t.drop_first(), q));
            assert(map_get(s, q) == map_get(s.drop_first(), q));
        }
    } else if text_lt(k, s[0].0) {
        assert(t[0] == (k, v));
        assert(t.drop_first() =~= s);
        if q != k {
            assert(map_get(t, q) == map_get(t.drop_first(), q));
        }
    } else {
        assert(t[0] == s[0]);
        assert(t.drop_first() =~= sorted_insert(s.drop_first(), k, v));
        sorted_insert_then_get(s.drop_first(), k, v, q);
        if s[0].0 == q {
            assert(map_get(t, q) == Some(s[0].1));
        } else {
            assert(map_get(t, q) == map_get(t.drop_first(), q));
            assert(map_get(s, q) == map_get(s.drop_first(), q));
        }
    }
}

/// Keys in strictly increasing order.
pub open spec fn keys_sorted<V>(s: Seq<(Seq<char>, V)>) -> bool {
    forall|i: int, j: int| 0 <= i < j < s.len() ==> text_lt(#[trigger] s[i].0, #[trigger] s[j].0)
}

proof fn lemma_text_lt_irrefl(a: Seq<char>)
    ensures
        !text_lt(a, a),
    decreases a.len(),
{
    if a.len() > 0 {
        lemma_text_lt_irrefl(a.drop_first());
    }
}

proof fn lemma_text_lt_trans(a: Seq<char>, b: Seq<char>, c: Seq<char>)
    requires
        text_lt(a, b),
        text_lt(b, c),
    ensures
        text_lt(a, c),
    decreases a.len(),
{
    if a.len() > 0 && b.len() > 0 && c.len() > 0 && a[0] == b[0] && b[0] == c[0] {
        lemma_text_lt_trans(a.drop_first(), b.drop_first(), c.drop_first());
    }
}

proof fn lemma_text_lt_total(a: Seq<char>, b: Seq<char>)
    requires
        a != b,
    ensures
        text_lt(a, b) || text_lt(b, a),
    decreases a.len(),
{
    if a.len() == 0 && b.len() == 0 {
        assert(a =~= b);
    } else if a.len() > 0 && b.len() > 0 {
        if a[0] == b[0] {
            assert(a.drop_first() != b.drop_first()) by {
                if a.drop_first() == b.drop_first() {
                    assert(a =~= seq![a[0]] + a.drop_first());
                    assert(b =~= seq![b[0]] + b.drop_first());
                }
            }
            lemma_text_lt_total(a.drop_first(), b.drop_first());
        } else {
            let x = a[0];
            let y = b[0];
            vstd::utf8::char_u32_cast(x, x as u32);
            vstd::utf8::char_u32_cast(y, y as u32);
            assert((x as u32) != (y as u32));
        }
    }
}

proof fn lemma_text_lt_order(a: Seq<char>, b: Seq<char>, c: Seq<char>)
    ensures
        !text_lt(a, a),
        text_lt(a, b) && text_lt(b, c) ==> text_lt(a, c),
        a != b ==> text_lt(a, b) || text_lt(b, a),
{
    lemma_text_lt_irrefl(a);
    if text_lt(a, b) && text_lt(b, c) {
        lemma_text_lt_trans(a, b, c);
    }
    if a != b {
        lemma_text_lt_total(a, b);
    }
}

/// Setting a key keeps a key-ordered list in key order.
pub proof fn sorted_insert_keeps_order<V>(s: Seq<(Seq<char>, V)>, k: Seq<char>, v: V)
    requires
        keys_sorted(s),
    ensures
        keys_sorted(sorted_insert(s, k, v)),
        forall|i: int|
            0 <= i < sorted_insert(s, k, v).len() ==> (#[trigger] sorted_insert(s, k, v)[i]).0 == k
                || exists|j: int| 0 <= j < s.len() && s[j].0 == sorted_insert(s, k, v)[i].0,
    decreases s.len(),
{
    let t = sorted_insert(s, k, v);
    if s.len() == 0 {
    } else if s[0].0 == k {
        assert forall|i: int, j: int| 0 <= i < j < t.len() implies text_lt(#[trigger] t[i].0, #[trigger] t[j].0) by {
            assert(t[j] == s[j]);
            if i > 0 {
                assert(t[i] == s[i]);
            }
        }
        assert forall|i: int| 0 <= i < t.len() implies (#[trigger] t[i]).0 == k || exists|j: int|
            0 <= j < s.len() && s[j].0 == t[i].0 by {
            if i > 0 {
                assert(t[i] == s[i]);
            }
        }
    } else if text_lt(k, s[0].0) {
        assert forall|i: int, j: int| 0 <= i < j < t.len() implies text_lt(#[trigger] t[i].0, #[trigger] t[j].0) by {
            assert(t[j] == s[j - 1]);
            if i > 0 {
                assert(t[i] == s[i - 1]);
            } else if j > 1 {
                lemma_text_lt_order(k, s[0].0, s[j - 1].0);
            }
        }
        assert forall|i: int| 0 <= i < t.len() implies (#[trigger] t[i]).0 == k || exists|j: int|
            0 <= j < s.len() && s[j].0 == t[i].0 by {
            if i > 0 {
                assert(t[i] == s[i - 1]);
            }
        }
    } else {
        let r = s.drop_first();
        assert(keys_sorted(r)) by {
            assert forall|i: int, j: int| 0 <= i < j < r.len() implies text_lt(#[trigger] r[i].0, #[trigger] r[j].0) by {
                assert(r[i] == s[i + 1]);
                assert(r[j] == s[j + 1]);
            }
        }
        sorted_insert_keeps_order(r, k, v);
        let u = sorted_insert(r, k, v);
        assert(t == seq![s[0]] + u);
        lemma_text_lt_order(k, s[0].0, k);
        assert forall|i: int, j: int| 0 <= i < j < t.len() implies text_lt(#[trigger] t[i].0, #[trigger] t[j].0) by {
            assert(t[j] == u[j - 1]);
            if i > 0 {
                assert(t[i] == u[i - 1]);
            } else {
                assert(t[0] == s[0]);
                let x = u[j - 1].0;
                if x == k {
                    assert(text_lt(s[0].0, k));
                } else {
                    let w = choose|w: int| 0 <= w < r.len() && r[w].0 == x;
                    assert(r[w] == s[w + 1]);
                    assert(text_lt(s[0].0, s[w + 1].0));
                }
            }
        }
        assert forall|i: int| 0 <= i < t.len() implies (#[trigger] t[i]).0 == k || exists|j: int|
            0 <= j < s.len() && s[j].0 == t[i].0 by {
            if i == 0 {
                assert(s[0].0 == t[0].0);
            } else {
                assert(t[i] == u[i - 1]);
                if u[i - 1].0 != k {
                    let w = choose|w: int| 0 <= w < r.len() && r[w].0 == u[i - 1].0;
                    assert(s[w + 1].0 == t[i].0);
                }
            }
        }
    }
}

proof fn lemma_map_of_pairs_sorted(s: Seq<(Seq<char>, Seq<char>)>)
    ensures
        keys_sorted(map_of_pairs(s)),
    decreases s.len(),
{
    if s.len() > 0 {
        lemma_map_of_pairs_sorted(s.drop_last());
        sorted_insert_keeps_order(map_of_pairs(s.drop_last()), s.last().0, s.last().1);
    }
}

proof fn lemma_extend_sorted(m: Seq<(Seq<char>, Seq<char>)>, own: Seq<(Seq<char>, Seq<char>)>)
    requires
        keys_sorted(m),
    ensures
        keys_sorted(extend_spec(m, own)),
    decreases own.len(),
{
    if own.len() > 0 {
        lemma_extend_sorted(m, own.drop_last());
        sorted_insert_keeps_order(extend_spec(m, own.drop_last()), own.last().0, own.last().1);
    }
}

proof fn lemma_inherit_base_sorted(props: Seq<Seq<char>>, parent: Seq<(Seq<char>, Seq<char>)>)
    ensures
        keys_sorted(inherit_base(props, parent)),
    decreases props.len(),
{
    if props.len() > 0 {
        lemma_inherit_base_sorted(props.drop_last(), parent);
        match map_get(parent, props.last()) {
            Some(v) => sorted_insert_keeps_order(inherit_base(props.drop_last(), parent), props.last(), v),
            None => {},
        }
    }
}

/// Computed property values for one element, kept in property-name order.
#[derive(Debug, PartialEq, Eq)]
pub struct ComputedStyle {
    map: Vec<(String, String)>,
}

/// The views of a list of name/value pairs.
pub open spec fn pairs_view(s: Seq<(String, String)>) -> Seq<(Seq<char>, Seq<char>)> {
    s.map_values(|p: (String, String)| (p.0@, p.1@))
}

impl View for ComputedStyle {
    type V = Seq<(Seq<char>, Seq<char>)>;

    closed spec fn view(&self) -> Seq<(Seq<char>, Seq<char>)> {
        pairs_view(self.map@)
    }
}

/// Set `k` to `v` in a key-ordered list of pairs.
fn insert_pair(map: &mut Vec<(String, String)>, k: String, v: String)
    ensures
        pairs_view(final(map)@) == sorted_insert(pairs_view(old(map)@), k@, v@),
{
    let kc = chars_of(k.as_str());
    let ghost s0 = pairs_view(map@);
    let mut i: usize = 0;
    while i < map.len()
        invariant
            i <= map@.len(),
            kc@ == k@,
            map@ == old(map)@,
            s0 == pairs_view(map@),
            forall|j: int| 0 <= j < i ==> s0[j].0 != k@ && !text_lt(k@, #[trigger] s0[j].0),
        decreases map@.len() - i,
    {
        let key = chars_of(map[i].0.as_str());
        if chars_eq(key.as_slice(), kc.as_slice()) {
            proof {
                lemma_insert_at(s0, k@, v@, i as int);
            }
            map.set(i, (k, v));
            assert(pairs_view(map@) =~= s0.update(i as int, (kc@, v@)));
            return;
        }
        if text_less(kc.as_slice(), key.as_slice()) {
            proof {
                lemma_insert_at(s0, k@, v@, i as int);
            }
            let ghost kv = (k@, v@);
            map.insert(i, (k, v));
            assert(pairs_view(map@) =~= s0.insert(i as int, kv));
            return;
        }
        i += 1;
    }
    proof {
        lemma_insert_at(s0, k@, v@, i as int);
    }
    let ghost kv = (k@, v@);
    map.push((k, v));
    assert(pairs_view(map@) =~= s0.push(kv));
}

/// Where [`sorted_insert`] puts a key that no earlier entry holds and that
/// sorts no earlier than them.
pub(crate) proof fn lemma_insert_at<V>(s: Seq<(Seq<char>, V)>, k: Seq<char>, v: V, i: int)
    requires
        0 <= i <= s.len(),
        forall|j: int| 0 <= j < i ==> s[j].0 != k && !text_lt(k, #[trigger] s[j].0),
    ensures
        i < s.len() && s[i].0 == k ==> sorted_insert(s, k, v) == s.update(i, (k, v)),
        i < s.len() && s[i].0 != k && text_lt(k, s[i].0) ==> sorted_insert(s, k, v) == s.insert(i, (k, v)),
        i == s.len() ==> sorted_insert(s, k, v) == s.push((k, v)),
    decreases i,
{
    if i > 0 {
        assert forall|j: int| 0 <= j < i - 1 implies s.drop_first()[j].0 != k && !text_lt(
            k,
            #[trigger] s.drop_first()[j].0,
        ) by {
            assert(s.drop_first()[j] == s[j + 1]);
        }
        lemma_insert_at(s.drop_first(), k, v, i - 1);
        assert(s[0].0 != k && !text_lt(k, s[0].0));
        if i < s.len() && s[i].0 == k {
            assert(seq![s[0]] + s.drop_first().update(i - 1, (k, v)) =~= s.update(i, (k, v)));
        }
        if i < s.len() && s[i].0 != k && text_lt(k, s[i].0) {
            assert(seq![s[0]] + s.drop_first().insert(i - 1, (k, v)) =~= s.insert(i, (k, v)));
        }
        if i == s.len() {
            assert(seq![s[0]] + s.drop_first().push((k, v)) =~= s.push((k, v)));
        }
    } else {
        if s.len() > 0 && s[0].0 == k {
            assert(seq![(k, v)] + s.drop_first() =~= s.update(0, (k, v)));
        }
        if s.len() > 0 && s[0].0 != k && text_lt(k, s[0].0) {
            assert(seq![(k, v)] + s =~= s.insert(0, (k, v)));
        }
        if s.len() == 0 {
            assert(seq![(k, v)] =~= s.push((k, v)));
        }
    }
}

/// The key-ordered map the pairs make, each pair set in turn (a later pair
/// for the same key wins).
pub open spec fn map_of_pairs(s: Seq<(Seq<char>, Seq<char>)>) -> Seq<(Seq<char>, Seq<char>)>
    decreases s.len(),
{
    if s.len() == 0 {
        Seq::empty()
    } else {
        sorted_insert(map_of_pairs(s.drop_last()), s.last().0, s.last().1)
    }
}

/// Whether a value holds a percent sign or `em` anywhere.
pub open spec fn has_relative_unit(v: Seq<char>) -> bool {
    find_spec(v, seq!['%'], 0) is Some || find_spec(v, seq!['e', 'm'], 0) is Some
}

impl ComputedStyle {
    /// A computed style lists each property once, in increasing name order.
    #[verifier::type_invariant]
    spec fn in_name_order(self) -> bool {
        keys_sorted(pairs_view(self.map@))
    }

    /// The style with no property set.
    pub fn new() -> (res: ComputedStyle)
        ensures
            res@ == Seq::<(Seq<char>, Seq<char>)>::empty(),
            keys_sorted(res@),
    {
        let map: Vec<(String, String)> = Vec::new();
        assert(pairs_view(map@) =~= Seq::<(Seq<char>, Seq<char>)>::empty());
        let res = ComputedStyle { map };
        assert(res@ =~= Seq::<(Seq<char>, Seq<char>)>::empty());
        res
    }

    /// The computed value of a property, if set.
    pub fn get(&self, property: &str) -> (res: Option<&str>)
        ensures
            match res {
                Some(v) => map_get(self@, property@) == Some(v@),
                None => map_get(self@, property@) is None,
            },
    {
        let p = chars_of(property);
        let ghost s = self@;
        let mut i: usize = 0;
        assert(s.skip(0) =~= s);
        while i < self.map.len()
            invariant
                i <= self.map@.len(),
                s == self@,
                s == pairs_view(self.map@),
                p@ == property@,
                map_get(s, property@) == map_get(s.skip(i as int), property@),
            decreases self.map@.len() - i,
        {
            let key = chars_of(self.map[i].0.as_str());
            assert(s.skip(i as int)[0] == s[i as int]);
            if chars_eq(key.as_slice(), p.as_slice()) {
                return Some(self.map[i].1.as_str());
            }
            assert(s.skip(i as int).drop_first() =~= s.skip(i + 1));
            i += 1;
        }
        None
    }

    /// Whether no value uses a containing-block-relative (`%`) or
    /// font-relative (`em`/`rem`) unit: any `%` or `em` substring (even
    /// inside a value like `lemonchiffon`) counts.
    pub fn has_no_relative_units(&self) -> (res: bool)
        ensures
            res == forall|i: int| 0 <= i < self@.len() ==> !has_relative_unit(#[trigger] self@[i].1),
    {
        let pct: [char; 1] = ['%'];
        let em: [char; 2] = ['e', 'm'];
        assert(pct@ =~= seq!['%']);
        assert(em@ =~= seq!['e', 'm']);
        let mut i: usize = 0;
        while i < self.map.len()
            invariant
                i <= self.map@.len(),
                self@ == pairs_view(self.map@),
                pct@ == seq!['%'],
                em@ == seq!['e', 'm'],
                forall|j: int| 0 <= j < i ==> !has_relative_unit(#[trigger] self@[j].1),
            decreases self.map@.len() - i,
        {
            let v = chars_of(self.map[i].1.as_str());
            assert(self@[i as int].1 == v@);
            if find_chars(v.as_slice(), &pct, 0).is_some() || find_chars(v.as_slice(), &em, 0).is_some() {
                return false;
            }
            i += 1;
        }
        true
    }

    /// Build a computed style directly from property/value pairs, each set in
    /// turn (a later pair for the same property wins).
    pub fn from_pairs(pairs: Vec<(String, String)>) -> (res: ComputedStyle)
        ensures
            res@ == map_of_pairs(pairs_view(pairs@)),
            keys_sorted(res@),
    {
        let mut map: Vec<(String, String)> = Vec::new();
        let ghost pv = pairs_view(pairs@);
        assert(pairs_view(map@) =~= Seq::<(Seq<char>, Seq<char>)>::empty());
        assert(pv.take(0) =~= Seq::<(Seq<char>, Seq<char>)>::empty());
        let mut i: usize = 0;
        while i < pairs.len()
            invariant
                i <= pairs@.len(),
                pv == pairs_view(pairs@),
                pairs_view(map@) == map_of_pairs(pv.take(i as int)),
            decreases pairs@.len() - i,
        {
            assert(pv.take(i + 1).drop_last() =~= pv.take(i as int));
            assert(pv[i as int] == (pairs@[i as int].0@, pairs@[i as int].1@));
            insert_pair(&mut map, pairs[i].0.clone(), pairs[i].1.clone());
            i += 1;
        }
        assert(pv.take(i as int) =~= pv);
        proof {
            lemma_map_of_pairs_sorted(pv);
        }
        ComputedStyle { map }
    }
}

impl ComputedStyle {
    /// A copy of this style.
    pub fn copy(&self) -> (res: ComputedStyle)
        ensures
            res@ == self@,
            keys_sorted(res@),
    {
        proof {
            use_type_invariant(self);
        }
        let mut map: Vec<(String, String)> = Vec::new();
        let mut i: usize = 0;
        while i < self.map.len()
            invariant
                i <= self.map@.len(),
                pairs_view(map@) == pairs_view(self.map@.take(i as int)),
            decreases self.map.len() - i,
        {
            let (k, v) = &self.map[i];
            let ghost before = pairs_view(map@);
            map.push((k.clone(), v.clone()));
            assert(pairs_view(map@) =~= before.push((k@, v@)));
            assert(pairs_view(self.map@.take(i + 1)) =~= pairs_view(self.map@.take(i as int)).push((k@, v@)));
            i += 1;
        }
        assert(self.map@.take(i as int) =~= self.map@);
        ComputedStyle { map }
    }
}

impl Default for ComputedStyle {
    fn default() -> (res: ComputedStyle)
        ensures
            res@ == Seq::<(Seq<char>, Seq<char>)>::empty(),
            keys_sorted(res@),
    {
        ComputedStyle::new()
    }
}


// ---------------------------------------------------------------------------
// element position and match context
// ---------------------------------------------------------------------------

/// An element's position among its element siblings (1-based), among the
/// siblings of its own tag, and the sizes of both groups.
#[derive(Debug, Clone, Copy, PartialEq, Eq, Structural)]
pub struct ElemPos {
    pub index: usize,
    pub of_type_index: usize,
    pub of_type_total: usize,
    pub siblings: usize,
}

/// What selector matching reads of an element: its HTML name (none for a
/// directive), its first `id`, the words of its first `class`, its
/// attributes, its position, whether it has no children, and the contexts of
/// its preceding element siblings (each without siblings of its own).
pub struct CtxView {
    pub tag: Option<Seq<char>>,
    pub id: Option<Seq<char>>,
    pub classes: Seq<Seq<char>>,
    pub attrs: Seq<AttrView>,
    pub pos: ElemPos,
    pub empty: bool,
    pub prev: Seq<CtxView>,
}

/// The value of the first attribute named exactly `name`.
pub open spec fn find_attr(attrs: Seq<AttrView>, name: Seq<char>) -> Option<Seq<char>>
    decreases attrs.len(),
{
    if attrs.len() == 0 {
        None
    } else if attrs[0].name == name {
        Some(attrs[0].value)
    } else {
        find_attr(attrs.drop_first(), name)
    }
}

/// Whether some attribute is named `name`, ignoring ASCII case.
pub open spec fn has_attr(attrs: Seq<AttrView>, name: Seq<char>) -> bool {
    exists|i: int| 0 <= i < attrs.len() && eq_ignore_case(#[trigger] attrs[i].name, name)
}

/// Whether an attribute value satisfies an attribute selector's comparison.
pub open spec fn op_matches(op: AttrOp, actual: Seq<char>, expected: Seq<char>) -> bool {
    match op {
        AttrOp::Exists => true,
        AttrOp::Equals => actual == expected,
        AttrOp::Includes => words(actual).contains(expected),
        AttrOp::DashMatch => actual == expected || starts_with(actual, expected.push('-')),
        AttrOp::Prefix => starts_with(actual, expected),
        AttrOp::Suffix => ends_with(actual, expected),
        AttrOp::Substring => find_spec(actual, expected, 0) is Some,
    }
}

/// Whether the element's attributes satisfy an attribute selector.
pub open spec fn attr_matches(sel: AttrSelView, attrs: Seq<AttrView>) -> bool {
    match find_attr(attrs, sel.name) {
        Some(actual) => op_matches(sel.op, actual, sel.value),
        None => false,
    }
}

/// Whether the 1-based position `index` is `a·k + b` for some `k >= 0`
/// (`index` read as an `i32`, as `a` and `b` are).
pub open spec fn nth_ok(a: i32, b: i32, index: usize) -> bool {
    let idx = (index as i32) as int;
    if a == 0 {
        idx == b
    } else {
        exists|k: int| k >= 0 && #[trigger] (a * k) == idx - b
    }
}

/// Whether an HTML name is one of the form controls.
pub open spec fn is_form_control(tag: Option<Seq<char>>) -> bool {
    match tag {
        Some(t) => t == "input"@ || t == "button"@ || t == "select"@ || t == "textarea"@ || t == "option"@,
        None => false,
    }
}

/// Whether a compound selector matches the element.
pub open spec fn compound_matches(c: CompoundView, ctx: CtxView) -> bool
    decreases c, 3nat,
{
    &&& (match c.tag {
        Some(t) => ctx.tag == Some(t),
        None => true,
    })
    &&& (match c.id {
        Some(i) => ctx.id == Some(i),
        None => true,
    })
    &&& forall|k: int| 0 <= k < c.classes.len() ==> ctx.classes.contains(#[trigger] c.classes[k])
    &&& forall|k: int| 0 <= k < c.attrs.len() ==> attr_matches(#[trigger] c.attrs[k], ctx.attrs)
    &&& pseudos_ok(c.pseudos, ctx)
}

/// Whether every pseudo-class of `ps` holds of the element.
pub open spec fn pseudos_ok(ps: Seq<PseudoView>, ctx: CtxView) -> bool
    decreases ps, 2nat,
{
    if ps.len() == 0 {
        true
    } else {
        pseudos_ok(ps.drop_last(), ctx) && pseudo_ok(ps.last(), ctx)
    }
}

/// Whether a pseudo-class holds of the element.
pub open spec fn pseudo_ok(p: PseudoView, ctx: CtxView) -> bool
    decreases p, 1nat,
{
    let pos = ctx.pos;
    match p {
        PseudoView::FirstChild => pos.index == 1,
        PseudoView::LastChild => pos.index == pos.siblings,
        PseudoView::OnlyChild => pos.siblings == 1,
        PseudoView::FirstOfType => pos.of_type_index == 1,
        PseudoView::LastOfType => pos.of_type_index == pos.of_type_total,
        PseudoView::OnlyOfType => pos.of_type_total == 1,
        PseudoView::NthChild(a, b) => nth_ok(a, b, pos.index),
        PseudoView::NthOfType(a, b) => nth_ok(a, b, pos.of_type_index),
        PseudoView::Root => ctx.tag == Some("html"@),
        PseudoView::Empty => ctx.empty,
        PseudoView::Checked => has_attr(ctx.attrs, "checked"@),
        PseudoView::Disabled => has_attr(ctx.attrs, "disabled"@),
        PseudoView::Enabled => is_form_control(ctx.tag) && !has_attr(ctx.attrs, "disabled"@),
        PseudoView::Not(cs) => !any_compound(cs, ctx),
        PseudoView::NeverMatch => false,
    }
}

/// Whether some compound of `cs` matches the element.
pub open spec fn any_compound(cs: Seq<CompoundView>, ctx: CtxView) -> bool
    decreases cs, 0nat,
{
    if cs.len() == 0 {
        false
    } else {
        any_compound(cs.drop_last(), ctx) || compound_matches(cs.last(), ctx)
    }
}

/// A selector the matcher can run: at least one compound, and one combinator
/// between each two.
pub open spec fn selector_wf(sel: SelectorView) -> bool {
    sel.compounds.len() >= 1 && sel.combinators.len() + 1 == sel.compounds.len()
}

/// Whether compounds `0..ci` of `sel` match, leftwards from the element at
/// `path[pi]` (its ancestors are `path[..pi]`), by combinator `ci - 1`.
pub open spec fn match_anc(sel: SelectorView, ci: int, path: Seq<CtxView>, pi: int) -> bool
    decreases ci, 2nat, 0int,
{
    if ci <= 0 || ci > sel.compounds.len() || ci > sel.combinators.len() + 1 || pi < 0 || pi >= path.len() {
        ci <= 0
    } else {
        match sel.combinators[ci - 1] {
            Combinator::Child => pi > 0 && compound_matches(sel.compounds[ci - 1], path[pi - 1]) && match_anc(
                sel,
                ci - 1,
                path,
                pi - 1,
            ),
            Combinator::Descendant => any_parent(sel, ci, path, pi),
            Combinator::NextSibling => {
                let n = path[pi].prev.len();
                any_sibling(sel, ci, path, pi, if n > 0 { n - 1 } else { 0 }, n as int)
            },
            Combinator::SubsequentSibling => any_sibling(sel, ci, path, pi, 0, path[pi].prev.len() as int),
        }
    }
}

/// Whether compound `ci - 1` matches one of `path[..p]` from which the rest
/// of the selector matches.
pub open spec fn any_parent(sel: SelectorView, ci: int, path: Seq<CtxView>, p: int) -> bool
    decreases ci, 1nat, p,
{
    if p <= 0 || ci <= 0 || ci > sel.compounds.len() || p > path.len() {
        false
    } else {
        (compound_matches(sel.compounds[ci - 1], path[p - 1]) && match_anc(sel, ci - 1, path, p - 1))
            || any_parent(sel, ci, path, p - 1)
    }
}

/// The path with its element `pi` replaced by preceding sibling `k`, which
/// takes the siblings before it.
pub open spec fn sibling_path(path: Seq<CtxView>, pi: int, k: int) -> Seq<CtxView> {
    let sibs = path[pi].prev;
    path.take(pi).push(CtxView { prev: sibs.take(k), ..sibs[k] })
}

/// Whether compound `ci - 1` matches one of the preceding siblings
/// `lo..hi` of `path[pi]` from which the rest of the selector matches.
pub open spec fn any_sibling(sel: SelectorView, ci: int, path: Seq<CtxView>, pi: int, lo: int, hi: int) -> bool
    decreases ci, 1nat, hi - lo,
{
    if hi <= lo || lo < 0 || ci <= 0 || ci > sel.compounds.len() || pi < 0 || pi >= path.len() || hi > path[pi].prev.len() {
        false
    } else {
        (compound_matches(sel.compounds[ci - 1], path[pi].prev[hi - 1]) && match_anc(
            sel,
            ci - 1,
            sibling_path(path, pi, hi - 1),
            pi,
        )) || any_sibling(sel, ci, path, pi, lo, hi - 1)
    }
}

/// Whether `sel` matches the last element of `path`.
pub open spec fn matches_spec(sel: SelectorView, path: Seq<CtxView>) -> bool {
    let last = path.len() - 1;
    compound_matches(sel.compounds.last(), path[last]) && match_anc(sel, sel.compounds.len() - 1, path, last)
}



// ---------------------------------------------------------------------------
// matching, executable
// ---------------------------------------------------------------------------

proof fn lemma_multiple(m: int, a: int)
    requires
        a > 0,
        m >= 0,
    ensures
        (m % a == 0) <==> exists|k: int| k >= 0 && #[trigger] (a * k) == m,
{
    vstd::arithmetic::div_mod::lemma_fundamental_div_mod(m, a);
    if m % a == 0 {
        let k = m / a;
        assert(a * k == m);
        vstd::arithmetic::div_mod::lemma_div_pos_is_pos(m, a);
        assert(k >= 0 && a * k == m);
    }
    if exists|k: int| k >= 0 && #[trigger] (a * k) == m {
        let k = choose|k: int| k >= 0 && #[trigger] (a * k) == m;
        vstd::arithmetic::div_mod::lemma_mod_multiples_basic(k, a);
        assert(k * a == a * k) by (nonlinear_arith);
    }
}

/// Whether the position `index` is `a·k + b` for some `k >= 0`.
fn nth_match(a: i32, b: i32, index: usize) -> (res: bool)
    ensures
        res == nth_ok(a, b, index),
{
    let idx = index as i32;
    if a == 0 {
        return idx == b;
    }
    let m: i64 = idx as i64 - b as i64;
    if a > 0 {
        if m < 0 {
            assert forall|k: int| k >= 0 implies #[trigger] (a * k) != m by {
                assert(a * k >= 0) by (nonlinear_arith)
                    requires
                        a > 0,
                        k >= 0,
                ;
            }
            return false;
        }
        let r = (m as u64) % (a as u64) == 0;
        proof {
            lemma_multiple(m as int, a as int);
        }
        r
    } else {
        if m > 0 {
            assert forall|k: int| k >= 0 implies #[trigger] (a * k) != m by {
                assert(a * k <= 0) by (nonlinear_arith)
                    requires
                        a < 0,
                        k >= 0,
                ;
            }
            return false;
        }
        let mm: u64 = (0 - m) as u64;
        let aa: u64 = (0 - (a as i64)) as u64;
        let r = mm % aa == 0;
        proof {
            lemma_multiple(mm as int, aa as int);
            assert forall|k: int| #[trigger] (a * k) == m <==> aa * k == mm by {
                assert((a * k == m) <==> ((-a) * k == -m)) by (nonlinear_arith);
            }
            if r {
                let k = choose|k: int| k >= 0 && #[trigger] (aa * k) == mm;
                assert(a * k == m);
            }
        }
        r
    }
}


/// An element's match context (see [`CtxView`]).
struct Ctx {
    tag: Option<String>,
    id: Option<String>,
    classes: Vec<String>,
    attrs: Vec<Attr>,
    pos: ElemPos,
    empty: bool,
    prev: Vec<Ctx>,
}

spec fn ctx_view(c: Ctx) -> CtxView
    decreases c, 1nat,
{
    CtxView {
        tag: opt_view(c.tag),
        id: opt_view(c.id),
        classes: strings_view(c.classes@),
        attrs: attrs_view(c.attrs@),
        pos: c.pos,
        empty: c.empty,
        prev: ctxs_view(c.prev@),
    }
}

spec fn ctxs_view(s: Seq<Ctx>) -> Seq<CtxView>
    decreases s, 0nat,
{
    if s.len() == 0 {
        Seq::empty()
    } else {
        ctxs_view(s.drop_last()).push(ctx_view(s.last()))
    }
}

proof fn lemma_ctxs_view_push(s: Seq<Ctx>, c: Ctx)
    ensures
        ctxs_view(s.push(c)) == ctxs_view(s).push(ctx_view(c)),
{
    assert(s.push(c).drop_last() =~= s);
}

proof fn lemma_ctxs_view_len(s: Seq<Ctx>)
    ensures
        ctxs_view(s).len() == s.len(),
    decreases s.len(),
{
    if s.len() > 0 {
        lemma_ctxs_view_len(s.drop_last());
    }
}

proof fn lemma_ctxs_view_index(s: Seq<Ctx>, i: int)
    requires
        0 <= i < s.len(),
    ensures
        ctxs_view(s)[i] == ctx_view(s[i]),
        ctxs_view(s).len() == s.len(),
    decreases s.len(),
{
    lemma_ctxs_view_len(s);
    if i < s.len() - 1 {
        lemma_ctxs_view_index(s.drop_last(), i);
    }
}

proof fn lemma_ctxs_view_take(s: Seq<Ctx>, k: int)
    requires
        0 <= k <= s.len(),
    ensures
        ctxs_view(s.take(k)) == ctxs_view(s).take(k),
    decreases s.len(),
{
    lemma_ctxs_view_len(s);
    lemma_ctxs_view_len(s.take(k));
    if k == s.len() {
        assert(s.take(k) =~= s);
        assert(ctxs_view(s).take(k) =~= ctxs_view(s));
    } else {
        assert(s.drop_last().take(k) =~= s.take(k));
        lemma_ctxs_view_take(s.drop_last(), k);
        lemma_ctxs_view_len(s.drop_last());
        assert(ctxs_view(s).take(k) =~= ctxs_view(s.drop_last()).take(k));
    }
}

fn copy_opt(o: &Option<String>) -> (res: Option<String>)
    ensures
        opt_view(res) == opt_view(*o),
{
    match o {
        Some(s) => Some(s.clone()),
        None => None,
    }
}

fn copy_strings(s: &Vec<String>) -> (res: Vec<String>)
    ensures
        strings_view(res@) == strings_view(s@),
{
    let mut out: Vec<String> = Vec::new();
    let mut i: usize = 0;
    while i < s.len()
        invariant
            i <= s@.len(),
            strings_view(out@) == strings_view(s@.take(i as int)),
        decreases s@.len() - i,
    {
        let ghost before = out@;
        let x = s[i].clone();
        out.push(x);
        assert(strings_view(out@) =~= strings_view(before).push(x@));
        assert(strings_view(s@.take(i + 1)) =~= strings_view(s@.take(i as int)).push(s@[i as int]@));
        i += 1;
    }
    assert(s@.take(i as int) =~= s@);
    out
}

fn copy_attrs(attrs: &Vec<Attr>) -> (res: Vec<Attr>)
    ensures
        attrs_view(res@) == attrs_view(attrs@),
{
    let mut out: Vec<Attr> = Vec::new();
    let mut i: usize = 0;
    while i < attrs.len()
        invariant
            i <= attrs@.len(),
            attrs_view(out@) == attrs_view(attrs@.take(i as int)),
        decreases attrs.len() - i,
    {
        let a = Attr { name: attrs[i].name.clone(), value: attrs[i].value.clone() };
        let ghost before = out@;
        out.push(a);
        assert(attrs_view(out@) =~= attrs_view(before).push(a@));
        assert(attrs_view(attrs@.take(i + 1)) =~= attrs_view(attrs@.take(i as int)).push(attrs@[i as int]@));
        i += 1;
    }
    assert(attrs@.take(i as int) =~= attrs@);
    out
}

/// A deep copy of a match context.
fn copy_ctx(c: &Ctx) -> (res: Ctx)
    ensures
        ctx_view(res) == ctx_view(*c),
    decreases c, 1nat,
{
    let prev = copy_ctx_prefix(&c.prev, c.prev.len());
    assert(c.prev@.take(c.prev@.len() as int) =~= c.prev@);
    Ctx {
        tag: copy_opt(&c.tag),
        id: copy_opt(&c.id),
        classes: copy_strings(&c.classes),
        attrs: copy_attrs(&c.attrs),
        pos: c.pos,
        empty: c.empty,
        prev,
    }
}

/// A deep copy of the first `k` contexts of `s`.
fn copy_ctx_prefix(s: &Vec<Ctx>, k: usize) -> (res: Vec<Ctx>)
    requires
        k <= s@.len(),
    ensures
        ctxs_view(res@) == ctxs_view(s@.take(k as int)),
    decreases s, 0nat,
{
    let mut out: Vec<Ctx> = Vec::new();
    let mut i: usize = 0;
    assert(s@.take(0) =~= Seq::<Ctx>::empty());
    while i < k
        invariant
            i <= k <= s@.len(),
            ctxs_view(out@) == ctxs_view(s@.take(i as int)),
        decreases k - i,
    {
        assert(decreases_to!(s => s@[i as int]));
        let c = copy_ctx(&s[i]);
        proof {
            lemma_ctxs_view_push(out@, c);
            assert(s@.take(i + 1) =~= s@.take(i as int).push(s@[i as int]));
            lemma_ctxs_view_push(s@.take(i as int), s@[i as int]);
        }
        out.push(c);
        i += 1;
    }
    out
}

/// The value of the first attribute named exactly `name`.
fn find_attr_x<'a>(attrs: &'a Vec<Attr>, name: &[char]) -> (res: Option<&'a String>)
    ensures
        match res {
            Some(v) => find_attr(attrs_view(attrs@), name@) == Some(v@),
            None => find_attr(attrs_view(attrs@), name@) is None,
        },
{
    let ghost av = attrs_view(attrs@);
    let mut i: usize = 0;
    assert(av.skip(0) =~= av);
    while i < attrs.len()
        invariant
            i <= attrs@.len(),
            av == attrs_view(attrs@),
            find_attr(av, name@) == find_attr(av.skip(i as int), name@),
        decreases attrs@.len() - i,
    {
        let n = chars_of(attrs[i].name.as_str());
        assert(av.skip(i as int)[0] == attrs@[i as int]@);
        if chars_eq(n.as_slice(), name) {
            return Some(&attrs[i].value);
        }
        assert(av.skip(i as int).drop_first() =~= av.skip(i + 1));
        i += 1;
    }
    None
}

/// Whether some attribute is named `name`, ignoring ASCII case.
fn has_attr_x(attrs: &Vec<Attr>, name: &str) -> (res: bool)
    ensures
        res == has_attr(attrs_view(attrs@), name@),
{
    let n = chars_of(name);
    let ghost av = attrs_view(attrs@);
    let mut i: usize = 0;
    while i < attrs.len()
        invariant
            i <= attrs@.len(),
            av == attrs_view(attrs@),
            n@ == name@,
            forall|j: int| 0 <= j < i ==> !eq_ignore_case(#[trigger] av[j].name, name@),
        decreases attrs@.len() - i,
    {
        let an = chars_of(attrs[i].name.as_str());
        if chars_eq_ignore_case(an.as_slice(), n.as_slice()) {
            assert(av[i as int].name == an@);
            return true;
        }
        i += 1;
    }
    false
}

/// Whether `expected` is one of the whitespace-separated words of `actual`.
fn has_word(actual: &[char], expected: &[char]) -> (res: bool)
    ensures
        res == words(actual@).contains(expected@),
{
    let ws = split_words(actual);
    let ghost wv = texts_view(ws@);
    let mut i: usize = 0;
    while i < ws.len()
        invariant
            i <= ws@.len(),
            wv == texts_view(ws@),
            wv == words(actual@),
            forall|j: int| 0 <= j < i ==> #[trigger] wv[j] != expected@,
        decreases ws@.len() - i,
    {
        if chars_eq(ws[i].as_slice(), expected) {
            assert(wv[i as int] == expected@);
            return true;
        }
        i += 1;
    }
    false
}

/// Whether an attribute value satisfies an attribute selector's comparison.
fn op_matches_x(op: AttrOp, actual: &[char], expected: &[char]) -> (res: bool)
    ensures
        res == op_matches(op, actual@, expected@),
{
    match op {
        AttrOp::Exists => true,
        AttrOp::Equals => chars_eq(actual, expected),
        AttrOp::Includes => has_word(actual, expected),
        AttrOp::DashMatch => {
            if chars_eq(actual, expected) {
                return true;
            }
            let mut p: Vec<char> = Vec::new();
            crate::chars::push_chars(&mut p, expected);
            p.push('-');
            assert(p@ =~= expected@.push('-'));
            has_prefix(actual, p.as_slice())
        },
        AttrOp::Prefix => has_prefix(actual, expected),
        AttrOp::Suffix => has_suffix(actual, expected),
        AttrOp::Substring => find_chars(actual, expected, 0).is_some(),
    }
}

/// Whether the element's attributes satisfy an attribute selector.
fn attr_matches_x(sel: &AttrSel, attrs: &Vec<Attr>) -> (res: bool)
    ensures
        res == attr_matches(sel@, attrs_view(attrs@)),
{
    let n = chars_of(sel.name.as_str());
    match find_attr_x(attrs, n.as_slice()) {
        Some(actual) => {
            let a = chars_of(actual.as_str());
            let v = chars_of(sel.value.as_str());
            op_matches_x(sel.op, a.as_slice(), v.as_slice())
        },
        None => false,
    }
}

fn opt_eq(a: &Option<String>, b: &String) -> (res: bool)
    ensures
        res == (opt_view(*a) == Some(b@)),
{
    match a {
        Some(x) => {
            let xc = chars_of(x.as_str());
            let bc = chars_of(b.as_str());
            chars_eq(xc.as_slice(), bc.as_slice())
        },
        None => false,
    }
}

/// Whether a compound selector matches the element.
fn compound_matches_x(c: &Compound, ctx: &Ctx) -> (res: bool)
    ensures
        res == compound_matches(compound_view(*c), ctx_view(*ctx)),
    decreases c, 2nat,
{
    let ghost cv = compound_view(*c);
    let ghost xv = ctx_view(*ctx);
    match &c.tag {
        Some(t) => {
            if !opt_eq(&ctx.tag, t) {
                return false;
            }
        },
        None => {},
    }
    match &c.id {
        Some(i) => {
            if !opt_eq(&ctx.id, i) {
                return false;
            }
        },
        None => {},
    }
    let mut k: usize = 0;
    while k < c.classes.len()
        invariant
            k <= c.classes@.len(),
            cv == compound_view(*c),
            xv == ctx_view(*ctx),
            forall|j: int| 0 <= j < k ==> xv.classes.contains(#[trigger] cv.classes[j]),
        decreases c.classes@.len() - k,
    {
        let want = chars_of(c.classes[k].as_str());
        let mut m: usize = 0;
        let mut found = false;
        while m < ctx.classes.len()
            invariant
                m <= ctx.classes@.len(),
                xv == ctx_view(*ctx),
                want@ == cv.classes[k as int],
                found ==> xv.classes.contains(cv.classes[k as int]),
                !found ==> forall|j: int| 0 <= j < m ==> #[trigger] xv.classes[j] != cv.classes[k as int],
            decreases ctx.classes@.len() - m,
        {
            let have = chars_of(ctx.classes[m].as_str());
            if !found && chars_eq(have.as_slice(), want.as_slice()) {
                found = true;
                assert(xv.classes[m as int] == cv.classes[k as int]);
            }
            m += 1;
        }
        if !found {
            assert(!xv.classes.contains(cv.classes[k as int]));
            return false;
        }
        k += 1;
    }
    let mut k: usize = 0;
    while k < c.attrs.len()
        invariant
            k <= c.attrs@.len(),
            cv == compound_view(*c),
            xv == ctx_view(*ctx),
            forall|j: int| 0 <= j < k ==> attr_matches(#[trigger] cv.attrs[j], xv.attrs),
        decreases c.attrs@.len() - k,
    {
        if !attr_matches_x(&c.attrs[k], &ctx.attrs) {
            assert(cv.attrs[k as int] == c.attrs@[k as int]@);
            assert(!attr_matches(cv.attrs[k as int], xv.attrs));
            return false;
        }
        k += 1;
    }
    let mut k: usize = 0;
    assert(pseudos_view(c.pseudos@.take(0)) =~= Seq::<PseudoView>::empty());
    while k < c.pseudos.len()
        invariant
            k <= c.pseudos@.len(),
            cv == compound_view(*c),
            xv == ctx_view(*ctx),
            pseudos_ok(pseudos_view(c.pseudos@.take(k as int)), xv),
        decreases c.pseudos@.len() - k,
    {
        assert(decreases_to!(c => c.pseudos@[k as int]));
        let ghost pk = pseudos_view(c.pseudos@.take(k as int));
        proof {
            assert(c.pseudos@.take(k + 1) =~= c.pseudos@.take(k as int).push(c.pseudos@[k as int]));
            assert(c.pseudos@.take(k + 1).drop_last() =~= c.pseudos@.take(k as int));
            assert(pseudos_view(c.pseudos@.take(k + 1)) == pk.push(pseudo_view(c.pseudos@[k as int])));
            assert(pk.push(pseudo_view(c.pseudos@[k as int])).drop_last() =~= pk);
        }
        if !pseudo_ok_x(&c.pseudos[k], ctx) {
            proof {
                lemma_pseudos_ok_prefix(c.pseudos@, k + 1, xv);
            }
            return false;
        }
        k += 1;
    }
    assert(c.pseudos@.take(k as int) =~= c.pseudos@);
    true
}

proof fn lemma_pseudos_ok_prefix(s: Seq<Pseudo>, k: int, ctx: CtxView)
    requires
        0 <= k <= s.len(),
        !pseudos_ok(pseudos_view(s.take(k)), ctx),
    ensures
        !pseudos_ok(pseudos_view(s), ctx),
    decreases s.len(),
{
    if k < s.len() {
        assert(s.drop_last().take(k) =~= s.take(k));
        lemma_pseudos_ok_prefix(s.drop_last(), k, ctx);
        assert(pseudos_view(s).drop_last() =~= pseudos_view(s.drop_last()));
    } else {
        assert(s.take(k) =~= s);
    }
}

/// Whether a pseudo-class holds of the element.
fn pseudo_ok_x(p: &Pseudo, ctx: &Ctx) -> (res: bool)
    ensures
        res == pseudo_ok(pseudo_view(*p), ctx_view(*ctx)),
    decreases p, 1nat,
{
    let pos = ctx.pos;
    match p {
        Pseudo::FirstChild => pos.index == 1,
        Pseudo::LastChild => pos.index == pos.siblings,
        Pseudo::OnlyChild => pos.siblings == 1,
        Pseudo::FirstOfType => pos.of_type_index == 1,
        Pseudo::LastOfType => pos.of_type_index == pos.of_type_total,
        Pseudo::OnlyOfType => pos.of_type_total == 1,
        Pseudo::NthChild(a, b) => nth_match(*a, *b, pos.index),
        Pseudo::NthOfType(a, b) => nth_match(*a, *b, pos.of_type_index),
        Pseudo::Root => {
            let html = "html".to_owned();
            opt_eq(&ctx.tag, &html)
        },
        Pseudo::Empty => ctx.empty,
        Pseudo::Checked => has_attr_x(&ctx.attrs, "checked"),
        Pseudo::Disabled => has_attr_x(&ctx.attrs, "disabled"),
        Pseudo::Enabled => {
            let control = match &ctx.tag {
                Some(t) => {
                    let tc = chars_of(t.as_str());
                    let s = tc.as_slice();
                    crate::chars::eq_str(s, "input") || crate::chars::eq_str(s, "button") || crate::chars::eq_str(
                        s,
                        "select",
                    ) || crate::chars::eq_str(s, "textarea") || crate::chars::eq_str(s, "option")
                },
                None => false,
            };
            control && !has_attr_x(&ctx.attrs, "disabled")
        },
        Pseudo::Not(cs) => !any_compound_x(cs, ctx),
        Pseudo::NeverMatch => false,
    }
}

/// Whether some compound of `cs` matches the element.
fn any_compound_x(cs: &Vec<Compound>, ctx: &Ctx) -> (res: bool)
    ensures
        res == any_compound(compounds_view(cs@), ctx_view(*ctx)),
    decreases cs, 0nat,
{
    let ghost xv = ctx_view(*ctx);
    let mut k: usize = 0;
    assert(compounds_view(cs@.take(0)) =~= Seq::<CompoundView>::empty());
    while k < cs.len()
        invariant
            k <= cs@.len(),
            xv == ctx_view(*ctx),
            !any_compound(compounds_view(cs@.take(k as int)), xv),
        decreases cs@.len() - k,
    {
        assert(decreases_to!(cs => cs@[k as int]));
        let ghost ck = compounds_view(cs@.take(k as int));
        proof {
            assert(cs@.take(k + 1) =~= cs@.take(k as int).push(cs@[k as int]));
            assert(cs@.take(k + 1).drop_last() =~= cs@.take(k as int));
            assert(compounds_view(cs@.take(k + 1)) == ck.push(compound_view(cs@[k as int])));
            assert(ck.push(compound_view(cs@[k as int])).drop_last() =~= ck);
        }
        if compound_matches_x(&cs[k], ctx) {
            proof {
                lemma_any_compound_prefix(cs@, k + 1, xv);
            }
            return true;
        }
        k += 1;
    }
    assert(cs@.take(k as int) =~= cs@);
    false
}

proof fn lemma_any_compound_prefix(s: Seq<Compound>, k: int, ctx: CtxView)
    requires
        0 <= k <= s.len(),
        any_compound(compounds_view(s.take(k)), ctx),
    ensures
        any_compound(compounds_view(s), ctx),
    decreases s.len(),
{
    if k < s.len() {
        assert(s.drop_last().take(k) =~= s.take(k));
        lemma_any_compound_prefix(s.drop_last(), k, ctx);
        assert(compounds_view(s).drop_last() =~= compounds_view(s.drop_last()));
    } else {
        assert(s.take(k) =~= s);
    }
}


proof fn lemma_compounds_view_index(s: Seq<Compound>, i: int)
    requires
        0 <= i < s.len(),
    ensures
        compounds_view(s)[i] == compound_view(s[i]),
        compounds_view(s).len() == s.len(),
    decreases s.len(),
{
    lemma_compounds_view_len(s);
    if i < s.len() - 1 {
        lemma_compounds_view_index(s.drop_last(), i);
    }
}

proof fn lemma_compounds_view_len(s: Seq<Compound>)
    ensures
        compounds_view(s).len() == s.len(),
    decreases s.len(),
{
    if s.len() > 0 {
        lemma_compounds_view_len(s.drop_last());
    }
}

/// Whether compounds `0..ci` of `sel` match leftwards from `path[pi]`.
fn match_anc_x(sel: &Selector, ci: usize, path: &Vec<Ctx>, pi: usize) -> (res: bool)
    requires
        selector_wf(selector_view(*sel)),
        ci < sel.compounds@.len(),
        pi < path@.len(),
    ensures
        res == match_anc(selector_view(*sel), ci as int, ctxs_view(path@), pi as int),
    decreases ci as int, 2int, 0int,
{
    let ghost sv = selector_view(*sel);
    let ghost pv = ctxs_view(path@);
    proof {
        lemma_compounds_view_len(sel.compounds@);
        lemma_ctxs_view_index(path@, pi as int);
    }
    if ci == 0 {
        return true;
    }
    proof {
        lemma_compounds_view_index(sel.compounds@, ci - 1);
    }
    match sel.combinators[ci - 1] {
        Combinator::Child => {
            if pi == 0 {
                return false;
            }
            proof {
                lemma_ctxs_view_index(path@, pi - 1);
            }
            compound_matches_x(&sel.compounds[ci - 1], &path[pi - 1]) && match_anc_x(sel, ci - 1, path, pi - 1)
        },
        Combinator::Descendant => any_parent_x(sel, ci, path, pi),
        Combinator::NextSibling => {
            let n = path[pi].prev.len();
            proof {
                lemma_ctxs_view_len(path@[pi as int].prev@);
            }
            let lo = if n > 0 {
                n - 1
            } else {
                0
            };
            any_sibling_x(sel, ci, path, pi, lo, n)
        },
        Combinator::SubsequentSibling => {
            proof {
                lemma_ctxs_view_len(path@[pi as int].prev@);
            }
            any_sibling_x(sel, ci, path, pi, 0, path[pi].prev.len())
        },
    }
}

/// Whether compound `ci - 1` matches one of `path[..p]` from which the rest
/// of the selector matches.
fn any_parent_x(sel: &Selector, ci: usize, path: &Vec<Ctx>, p: usize) -> (res: bool)
    requires
        selector_wf(selector_view(*sel)),
        1 <= ci < sel.compounds@.len(),
        p <= path@.len(),
    ensures
        res == any_parent(selector_view(*sel), ci as int, ctxs_view(path@), p as int),
    decreases ci as int, 1int, p as int,
{
    proof {
        lemma_compounds_view_len(sel.compounds@);
        lemma_ctxs_view_len(path@);
        lemma_compounds_view_index(sel.compounds@, ci - 1);
    }
    if p == 0 {
        return false;
    }
    proof {
        lemma_ctxs_view_index(path@, p - 1);
    }
    if compound_matches_x(&sel.compounds[ci - 1], &path[p - 1]) && match_anc_x(sel, ci - 1, path, p - 1) {
        return true;
    }
    any_parent_x(sel, ci, path, p - 1)
}

/// Whether compound `ci - 1` matches one of the preceding siblings `lo..hi`
/// of `path[pi]` from which the rest of the selector matches.
fn any_sibling_x(sel: &Selector, ci: usize, path: &Vec<Ctx>, pi: usize, lo: usize, hi: usize) -> (res: bool)
    requires
        selector_wf(selector_view(*sel)),
        1 <= ci < sel.compounds@.len(),
        pi < path@.len(),
        lo <= hi <= path@[pi as int].prev@.len(),
    ensures
        res == any_sibling(selector_view(*sel), ci as int, ctxs_view(path@), pi as int, lo as int, hi as int),
    decreases ci as int, 1int, hi - lo,
{
    let ghost sv = selector_view(*sel);
    let ghost pv = ctxs_view(path@);
    proof {
        lemma_compounds_view_len(sel.compounds@);
        lemma_ctxs_view_index(path@, pi as int);
        lemma_ctxs_view_len(path@[pi as int].prev@);
        lemma_compounds_view_index(sel.compounds@, ci - 1);
    }
    if hi <= lo {
        return false;
    }
    let k = hi - 1;
    let sibs = &path[pi].prev;
    proof {
        lemma_ctxs_view_index(sibs@, k as int);
    }
    if compound_matches_x(&sel.compounds[ci - 1], &sibs[k]) {
        let mut sp = copy_ctx_prefix(path, pi);
        let base = copy_ctx(&sibs[k]);
        let prev = copy_ctx_prefix(sibs, k);
        let sib = Ctx {
            tag: base.tag,
            id: base.id,
            classes: base.classes,
            attrs: base.attrs,
            pos: base.pos,
            empty: base.empty,
            prev,
        };
        let ghost sp0 = sp@;
        sp.push(sib);
        proof {
            lemma_ctxs_view_push(sp0, sib);
            lemma_ctxs_view_take(path@, pi as int);
            lemma_ctxs_view_take(sibs@, k as int);
            assert(ctx_view(sib) == (CtxView { prev: pv[pi as int].prev.take(k as int), ..pv[pi as int].prev[k as int] }));
            assert(ctxs_view(sp@) =~= sibling_path(pv, pi as int, k as int));
            lemma_ctxs_view_len(sp@);
        }
        if match_anc_x(sel, ci - 1, &sp, pi) {
            return true;
        }
    }
    any_sibling_x(sel, ci, path, pi, lo, k)
}

/// Whether `sel` matches the last element of `path`.
fn matches_x(sel: &Selector, path: &Vec<Ctx>) -> (res: bool)
    requires
        selector_wf(selector_view(*sel)),
        path@.len() >= 1,
    ensures
        res == matches_spec(selector_view(*sel), ctxs_view(path@)),
{
    proof {
        lemma_compounds_view_len(sel.compounds@);
        lemma_ctxs_view_len(path@);
        lemma_compounds_view_index(sel.compounds@, sel.compounds@.len() - 1);
        lemma_ctxs_view_index(path@, path@.len() - 1);
    }
    let last = path.len() - 1;
    let n = sel.compounds.len();
    compound_matches_x(&sel.compounds[n - 1], &path[last]) && match_anc_x(sel, n - 1, path, last)
}


// ---------------------------------------------------------------------------
// candidates, winners, inheritance
// ---------------------------------------------------------------------------

/// The order of cascade keys: `!important`, level, specificity, source
/// order, each compared in turn.
pub open spec fn spec3_lt(a: (u32, u32, u32), b: (u32, u32, u32)) -> bool {
    a.0 < b.0 || (a.0 == b.0 && (a.1 < b.1 || (a.1 == b.1 && a.2 < b.2)))
}

/// Key `a` sorts strictly before key `b`.
pub open spec fn key_lt(a: (bool, u8, (u32, u32, u32), usize), b: (bool, u8, (u32, u32, u32), usize)) -> bool {
    (!a.0 && b.0) || (a.0 == b.0 && (a.1 < b.1 || (a.1 == b.1 && (spec3_lt(a.2, b.2) || (a.2 == b.2 && a.3 < b.3)))))
}

/// A declaration competing for a property, with its cascade key.
pub struct CandView {
    pub key: (bool, u8, (u32, u32, u32), usize),
    pub property: Seq<char>,
    pub value: Seq<char>,
}

/// The candidates `decls` make at `level` with specificity `spec`, the `i`-th
/// with source order `base + i` (modulo the word size).
pub open spec fn push_decls_spec(decls: Seq<DeclView>, level: u8, spec: (u32, u32, u32), base: usize) -> Seq<CandView> {
    Seq::new(
        decls.len(),
        |i: int| CandView { key: (decls[i].important, level, spec, base.wrapping_add(i as usize)), property: decls[i].property, value: decls[i].value },
    )
}

/// The largest specificity among the selectors of `sels` that match the
/// last element of `path`.
pub open spec fn best_match_spec(sels: Seq<SelectorView>, path: Seq<CtxView>) -> Option<(u32, u32, u32)>
    decreases sels.len(),
{
    if sels.len() == 0 {
        None
    } else {
        let b = best_match_spec(sels.drop_last(), path);
        if matches_spec(sels.last(), path) {
            match b {
                Some(x) => if spec3_lt(sels.last().specificity, x) { Some(x) } else { Some(sels.last().specificity) },
                None => Some(sels.last().specificity),
            }
        } else {
            b
        }
    }
}

/// The plain-value picture of a leveled rule.
pub struct LeveledView {
    pub level: u8,
    pub order: usize,
    pub rule: RuleView,
}

/// The candidates of the rules that match the last element of `path`, in
/// rule order.
pub open spec fn collect_rules_spec(rules: Seq<LeveledView>, path: Seq<CtxView>) -> Seq<CandView>
    decreases rules.len(),
{
    if rules.len() == 0 {
        Seq::empty()
    } else {
        let lr = rules.last();
        collect_rules_spec(rules.drop_last(), path) + match best_match_spec(lr.rule.selectors, path) {
            Some(sp) => push_decls_spec(lr.rule.declarations, lr.level, sp, lr.order),
            None => Seq::empty(),
        }
    }
}

/// The `px` length a number text stands for, as the hints give it: the value
/// of the first hint for `s`, none when there is no hint.
pub open spec fn hint_of(hints: Seq<(Seq<char>, Option<Seq<char>>)>, s: Seq<char>) -> Option<Seq<char>>
    decreases hints.len(),
{
    if hints.len() == 0 {
        None
    } else if hints[0].0 == s {
        hints[0].1
    } else {
        hint_of(hints.drop_first(), s)
    }
}

/// A presentational length attribute as a CSS length: a number is that many
/// `px`, a number with `%` passes through, anything else is dropped.
pub open spec fn attr_length_spec(v: Seq<char>, hints: Seq<(Seq<char>, Option<Seq<char>>)>) -> Option<Seq<char>> {
    let t = trim(v);
    if ends_with(t, seq!['%']) {
        if hint_of(hints, trim(t.take(t.len() - 1))) is Some {
            Some(t)
        } else {
            None
        }
    } else {
        hint_of(hints, t)
    }
}

/// The element is the HTML element `name`, in any ASCII case.
pub open spec fn is_tag_spec(tag: TagView, name: Seq<char>) -> bool {
    tag matches TagView::Html(t) && eq_ignore_case(t, name)
}

/// A plain declaration.
pub open spec fn plain_decl(property: Seq<char>, value: Seq<char>) -> DeclView {
    DeclView { property, value, important: false }
}

/// The declaration an attribute gives when trimmed non-empty.
pub open spec fn trimmed_decl(attrs: Seq<AttrView>, attr: Seq<char>, property: Seq<char>) -> Seq<DeclView> {
    match find_attr(attrs, attr) {
        Some(v) => if trim(v).len() > 0 {
            seq![plain_decl(property, trim(v))]
        } else {
            Seq::empty()
        },
        None => Seq::empty(),
    }
}

/// The declaration a length attribute gives.
pub open spec fn length_decl(attrs: Seq<AttrView>, attr: Seq<char>, hints: Seq<(Seq<char>, Option<Seq<char>>)>) -> Seq<DeclView> {
    match find_attr(attrs, attr) {
        Some(v) => match attr_length_spec(v, hints) {
            Some(l) => seq![plain_decl(attr, l)],
            None => Seq::empty(),
        },
        None => Seq::empty(),
    }
}

/// The legacy presentational attributes as declarations: `bgcolor`,
/// `width`/`height`, and the `color` of `<font>`.
pub open spec fn presentational_spec(tag: TagView, attrs: Seq<AttrView>, hints: Seq<(Seq<char>, Option<Seq<char>>)>) -> Seq<DeclView> {
    trimmed_decl(attrs, "bgcolor"@, "background-color"@) + length_decl(attrs, "width"@, hints) + length_decl(attrs, "height"@, hints)
        + if is_tag_spec(tag, "font"@) {
        trimmed_decl(attrs, "color"@, "color"@)
    } else {
        Seq::empty()
    }
}

/// The nearest `<table>` among `path[..i]`, searching outwards.
pub open spec fn nearest_table(path: Seq<CtxView>, i: int) -> Option<CtxView>
    decreases i,
{
    if i <= 0 || i > path.len() {
        None
    } else if path[i - 1].tag == Some("table"@) {
        Some(path[i - 1])
    } else {
        nearest_table(path, i - 1)
    }
}

/// The first attribute whose name is `name` in any ASCII case.
pub open spec fn find_attr_ci(attrs: Seq<AttrView>, name: Seq<char>) -> Option<Seq<char>>
    decreases attrs.len(),
{
    if attrs.len() == 0 {
        None
    } else if eq_ignore_case(attrs[0].name, name) {
        Some(attrs[0].value)
    } else {
        find_attr_ci(attrs.drop_first(), name)
    }
}

/// The padding a `<td>`/`<th>` takes from the `cellpadding` of the nearest
/// enclosing `<table>`.
pub open spec fn cellpadding_spec(tag: TagView, path: Seq<CtxView>, hints: Seq<(Seq<char>, Option<Seq<char>>)>) -> Seq<DeclView> {
    if is_tag_spec(tag, "td"@) || is_tag_spec(tag, "th"@) {
        match nearest_table(path, path.len() - 1) {
            Some(t) => match find_attr_ci(t.attrs, "cellpadding"@) {
                Some(v) => match hint_of(hints, trim(v)) {
                    Some(p) => seq![plain_decl("padding"@, p)],
                    None => Seq::empty(),
                },
                None => Seq::empty(),
            },
            None => Seq::empty(),
        }
    } else {
        Seq::empty()
    }
}

/// The plain-value picture of a cascade.
pub struct CascadeView {
    pub rules: Seq<LeveledView>,
    pub tokens: Seq<(Seq<char>, StyleTokenView)>,
}

/// Every candidate for the last element of `path`, lowest level first:
/// presentational hints, table cell padding, rules, tokens, inline style.
pub open spec fn candidates_spec(
    tag: TagView,
    attrs: Seq<AttrView>,
    path: Seq<CtxView>,
    cascade: CascadeView,
    hints: Seq<(Seq<char>, Option<Seq<char>>)>,
) -> Seq<CandView> {
    push_decls_spec(presentational_spec(tag, attrs, hints), 1, (0, 0, 0), 0) + push_decls_spec(
        cellpadding_spec(tag, path, hints),
        1,
        (0, 0, 0),
        0,
    ) + collect_rules_spec(cascade.rules, path) + match find_attr(attrs, "t:style"@) {
        Some(ts) => push_decls_spec(resolve_tokens_spec(ts, cascade.tokens), 2, (0, 0, 0), 0),
        None => Seq::empty(),
    } + match find_attr(attrs, "style"@) {
        Some(st) => push_decls_spec(parse_declarations_spec(st), 4, (0, 0, 0), 0),
        None => Seq::empty(),
    }
}

/// The winning candidate per property: a later candidate wins over an
/// earlier one unless its key is smaller.
pub open spec fn pick_spec(cands: Seq<CandView>) -> Seq<(Seq<char>, ((bool, u8, (u32, u32, u32), usize), Seq<char>))>
    decreases cands.len(),
{
    if cands.len() == 0 {
        Seq::empty()
    } else {
        let b = pick_spec(cands.drop_last());
        let c = cands.last();
        match map_get(b, c.property) {
            Some(e) => if key_lt(c.key, e.0) {
                b
            } else {
                sorted_insert(b, c.property, (c.key, c.value))
            },
            None => sorted_insert(b, c.property, (c.key, c.value)),
        }
    }
}

/// The winners' values.
pub open spec fn winners_spec(cands: Seq<CandView>) -> Seq<(Seq<char>, Seq<char>)> {
    pick_spec(cands).map_values(|e: (Seq<char>, ((bool, u8, (u32, u32, u32), usize), Seq<char>))| (e.0, e.1.1))
}

/// The properties that inherit by default.
pub open spec fn inherited_props() -> Seq<Seq<char>> {
    seq![
        "color"@, "font-family"@, "font-size"@, "font-weight"@, "font-style"@, "line-height"@,
        "text-align"@, "text-indent"@, "letter-spacing"@, "word-spacing"@, "white-space"@,
        "text-transform"@, "hyphens"@, "list-style-type"@, "list-style-position"@, "visibility"@,
    ]
}

/// The parent's values of the inherited properties among `props`.
pub open spec fn inherit_base(props: Seq<Seq<char>>, parent: Seq<(Seq<char>, Seq<char>)>) -> Seq<(Seq<char>, Seq<char>)>
    decreases props.len(),
{
    if props.len() == 0 {
        Seq::empty()
    } else {
        let m = inherit_base(props.drop_last(), parent);
        match map_get(parent, props.last()) {
            Some(v) => sorted_insert(m, props.last(), v),
            None => m,
        }
    }
}

/// `m` with the pairs of `own` set in turn.
pub open spec fn extend_spec(m: Seq<(Seq<char>, Seq<char>)>, own: Seq<(Seq<char>, Seq<char>)>) -> Seq<(Seq<char>, Seq<char>)>
    decreases own.len(),
{
    if own.len() == 0 {
        m
    } else {
        sorted_insert(extend_spec(m, own.drop_last()), own.last().0, own.last().1)
    }
}

/// An element's own winners over the inherited values of its parent.
pub open spec fn inherit_spec(own: Seq<(Seq<char>, Seq<char>)>, parent: Seq<(Seq<char>, Seq<char>)>) -> Seq<(Seq<char>, Seq<char>)> {
    extend_spec(inherit_base(inherited_props(), parent), own)
}


/// A rule tagged with its cascade level and source order.
#[derive(Debug)]
pub struct LeveledRule {
    pub level: u8,
    pub order: usize,
    pub rule: Rule,
}

/// The view of a leveled rule.
pub open spec fn leveled_view(lr: LeveledRule) -> LeveledView {
    LeveledView { level: lr.level, order: lr.order, rule: rule_view(lr.rule) }
}

/// Resolved cascade input shared across a render.
#[derive(Debug)]
pub struct Cascade {
    pub rules: Vec<LeveledRule>,
    pub tokens: TokenSet,
}

/// The view of a cascade.
pub open spec fn cascade_view(c: Cascade) -> CascadeView {
    CascadeView { rules: c.rules@.map_values(|lr: LeveledRule| leveled_view(lr)), tokens: c.tokens@ }
}

/// Every selector of every rule of the cascade can be run by the matcher.
pub open spec fn cascade_wf(c: CascadeView) -> bool {
    forall|i: int, j: int|
        0 <= i < c.rules.len() && 0 <= j < c.rules[i].rule.selectors.len() ==> selector_wf(
            #[trigger] c.rules[i].rule.selectors[j],
        )
}

/// A declaration competing for a property.
struct Cand {
    key: (bool, u8, (u32, u32, u32), usize),
    property: String,
    value: String,
}

spec fn cands_view(s: Seq<Cand>) -> Seq<CandView> {
    s.map_values(|c: Cand| CandView { key: c.key, property: c.property@, value: c.value@ })
}

fn push_decls(decls: &Vec<Declaration>, level: u8, spec: (u32, u32, u32), base: usize, out: &mut Vec<Cand>)
    ensures
        cands_view(final(out)@) == cands_view(old(out)@) + push_decls_spec(decls_view(decls@), level, spec, base),
{
    let ghost start = cands_view(out@);
    let ghost target = push_decls_spec(decls_view(decls@), level, spec, base);
    let mut i: usize = 0;
    while i < decls.len()
        invariant
            i <= decls@.len(),
            target == push_decls_spec(decls_view(decls@), level, spec, base),
            cands_view(out@) == start + target.take(i as int),
        decreases decls@.len() - i,
    {
        let d = &decls[i];
        let c = Cand { key: (d.important, level, spec, base.wrapping_add(i)), property: d.property.clone(), value: d.value.clone() };
        let ghost o0 = out@;
        out.push(c);
        assert(cands_view(out@) =~= cands_view(o0).push(CandView { key: c.key, property: c.property@, value: c.value@ }));
        assert(target.take(i + 1) =~= target.take(i as int).push(target[i as int]));
        i += 1;
    }
    assert(target.take(i as int) =~= target);
}

fn spec3_less(a: (u32, u32, u32), b: (u32, u32, u32)) -> (res: bool)
    ensures
        res == spec3_lt(a, b),
{
    a.0 < b.0 || (a.0 == b.0 && (a.1 < b.1 || (a.1 == b.1 && a.2 < b.2)))
}

fn key_less(a: (bool, u8, (u32, u32, u32), usize), b: (bool, u8, (u32, u32, u32), usize)) -> (res: bool)
    ensures
        res == key_lt(a, b),
{
    let same3 = a.2.0 == b.2.0 && a.2.1 == b.2.1 && a.2.2 == b.2.2;
    (!a.0 && b.0) || (a.0 == b.0 && (a.1 < b.1 || (a.1 == b.1 && (spec3_less(a.2, b.2) || (same3 && a.3 < b.3)))))
}

/// The largest specificity among the selectors of `sels` that match.
fn best_match(sels: &Vec<Selector>, path: &Vec<Ctx>) -> (res: Option<(u32, u32, u32)>)
    requires
        forall|j: int| 0 <= j < sels@.len() ==> selector_wf(#[trigger] selector_view(sels@[j])),
        path@.len() >= 1,
    ensures
        res == best_match_spec(crate::style::selector::selectors_view(sels@), ctxs_view(path@)),
{
    let ghost sv = crate::style::selector::selectors_view(sels@);
    let mut best: Option<(u32, u32, u32)> = None;
    let mut i: usize = 0;
    assert(sv.take(0) =~= Seq::<SelectorView>::empty());
    while i < sels.len()
        invariant
            i <= sels@.len(),
            path@.len() >= 1,
            sv == crate::style::selector::selectors_view(sels@),
            forall|j: int| 0 <= j < sels@.len() ==> selector_wf(#[trigger] selector_view(sels@[j])),
            best == best_match_spec(sv.take(i as int), ctxs_view(path@)),
        decreases sels@.len() - i,
    {
        assert(sv.take(i + 1).drop_last() =~= sv.take(i as int));
        assert(sv.take(i + 1).last() == selector_view(sels@[i as int]));
        let sel = &sels[i];
        if matches_x(sel, path) {
            let sp = sel.specificity;
            best = match best {
                Some(x) => if spec3_less(sp, x) {
                    Some(x)
                } else {
                    Some(sp)
                },
                None => Some(sp),
            };
        }
        i += 1;
    }
    assert(sv.take(i as int) =~= sv);
    best
}

/// The candidates of the rules that match the last element of `path`.
fn collect_rules(cascade: &Cascade, path: &Vec<Ctx>, out: &mut Vec<Cand>)
    requires
        cascade_wf(cascade_view(*cascade)),
        path@.len() >= 1,
    ensures
        cands_view(final(out)@) == cands_view(old(out)@) + collect_rules_spec(cascade_view(*cascade).rules, ctxs_view(path@)),
{
    let ghost rv = cascade_view(*cascade).rules;
    let ghost start = cands_view(out@);
    let mut i: usize = 0;
    assert(rv.take(0) =~= Seq::<LeveledView>::empty());
    assert(start + collect_rules_spec(rv.take(0), ctxs_view(path@)) =~= start);
    while i < cascade.rules.len()
        invariant
            i <= cascade.rules@.len(),
            path@.len() >= 1,
            rv == cascade_view(*cascade).rules,
            cascade_wf(cascade_view(*cascade)),
            cands_view(out@) == start + collect_rules_spec(rv.take(i as int), ctxs_view(path@)),
        decreases cascade.rules@.len() - i,
    {
        assert(rv.take(i + 1).drop_last() =~= rv.take(i as int));
        assert(rv.take(i + 1).last() == leveled_view(cascade.rules@[i as int]));
        let lr = &cascade.rules[i];
        proof {
            assert forall|j: int| 0 <= j < lr.rule.selectors@.len() implies selector_wf(
                #[trigger] selector_view(lr.rule.selectors@[j]),
            ) by {
                assert(rv[i as int].rule.selectors[j] == selector_view(lr.rule.selectors@[j]));
            }
        }
        let ghost mid = cands_view(out@);
        match best_match(&lr.rule.selectors, path) {
            Some(sp) => {
                push_decls(&lr.rule.declarations, lr.level, sp, lr.order, out);
            },
            None => {},
        }
        assert(cands_view(out@) =~= start + collect_rules_spec(rv.take(i + 1), ctxs_view(path@)));
        i += 1;
    }
    assert(rv.take(i as int) =~= rv);
}

/// The number hint for `s`.
fn hint_get(hints: &Vec<(String, Option<String>)>, s: &[char]) -> (res: Option<Vec<char>>)
    ensures
        match res {
            Some(v) => hint_of(hints_view(hints@), s@) == Some(v@),
            None => hint_of(hints_view(hints@), s@) is None,
        },
{
    let ghost hv = hints_view(hints@);
    let mut i: usize = 0;
    assert(hv.skip(0) =~= hv);
    while i < hints.len()
        invariant
            i <= hints@.len(),
            hv == hints_view(hints@),
            hint_of(hv, s@) == hint_of(hv.skip(i as int), s@),
        decreases hints@.len() - i,
    {
        let k = chars_of(hints[i].0.as_str());
        assert(hv.skip(i as int)[0] == hv[i as int]);
        if chars_eq(k.as_slice(), s) {
            return match &hints[i].1 {
                Some(v) => Some(chars_of(v.as_str())),
                None => None,
            };
        }
        assert(hv.skip(i as int).drop_first() =~= hv.skip(i + 1));
        i += 1;
    }
    None
}

/// The views of the number hints.
pub open spec fn hints_view(h: Seq<(String, Option<String>)>) -> Seq<(Seq<char>, Option<Seq<char>>)> {
    h.map_values(|e: (String, Option<String>)| (e.0@, opt_view(e.1)))
}

/// A presentational length attribute as a CSS length.
fn attr_length(v: &String, hints: &Vec<(String, Option<String>)>) -> (res: Option<Vec<char>>)
    ensures
        match res {
            Some(l) => attr_length_spec(v@, hints_view(hints@)) == Some(l@),
            None => attr_length_spec(v@, hints_view(hints@)) is None,
        },
{
    let vc = chars_of(v.as_str());
    let t = trim_chars(vc.as_slice());
    let pct: [char; 1] = ['%'];
    assert(pct@ =~= seq!['%']);
    if has_suffix(t.as_slice(), &pct) {
        let head = crate::chars::copy_range(t.as_slice(), 0, t.len() - 1);
        assert(head@ =~= t@.take(t@.len() - 1));
        let ht = trim_chars(head.as_slice());
        match hint_get(hints, ht.as_slice()) {
            Some(_) => Some(t),
            None => None,
        }
    } else {
        hint_get(hints, t.as_slice())
    }
}

fn is_tag(tag: &Tag, name: &str) -> (res: bool)
    ensures
        res == is_tag_spec(tag@, name@),
{
    match tag {
        Tag::Html(t) => {
            let tc = chars_of(t.as_str());
            let nc = chars_of(name);
            chars_eq_ignore_case(tc.as_slice(), nc.as_slice())
        },
        Tag::Directive(_) => false,
    }
}

fn push_plain(out: &mut Vec<Declaration>, property: &str, value: Vec<char>)
    ensures
        decls_view(final(out)@) == decls_view(old(out)@).push(plain_decl(property@, value@)),
{
    let d = Declaration { property: property.to_owned(), value: string_of(value.as_slice()), important: false };
    let ghost o0 = out@;
    out.push(d);
    assert(decls_view(out@) =~= decls_view(o0).push(d@));
}

fn push_trimmed(out: &mut Vec<Declaration>, attrs: &Vec<Attr>, attr: &str, property: &str)
    ensures
        decls_view(final(out)@) == decls_view(old(out)@) + trimmed_decl(attrs_view(attrs@), attr@, property@),
{
    let a = chars_of(attr);
    match find_attr_x(attrs, a.as_slice()) {
        Some(v) => {
            let vc = chars_of(v.as_str());
            let t = trim_chars(vc.as_slice());
            if t.len() > 0 {
                push_plain(out, property, t);
                assert(decls_view(out@) =~= decls_view(old(out)@) + trimmed_decl(attrs_view(attrs@), attr@, property@));
            } else {
                assert(decls_view(out@) =~= decls_view(old(out)@) + Seq::<DeclView>::empty());
            }
        },
        None => {
            assert(decls_view(out@) =~= decls_view(old(out)@) + Seq::<DeclView>::empty());
        },
    }
}

fn push_length(out: &mut Vec<Declaration>, attrs: &Vec<Attr>, attr: &str, hints: &Vec<(String, Option<String>)>)
    ensures
        decls_view(final(out)@) == decls_view(old(out)@) + length_decl(attrs_view(attrs@), attr@, hints_view(hints@)),
{
    let a = chars_of(attr);
    match find_attr_x(attrs, a.as_slice()) {
        Some(v) => match attr_length(v, hints) {
            Some(l) => {
                push_plain(out, attr, l);
                assert(decls_view(out@) =~= decls_view(old(out)@) + length_decl(attrs_view(attrs@), attr@, hints_view(hints@)));
            },
            None => {
                assert(decls_view(out@) =~= decls_view(old(out)@) + Seq::<DeclView>::empty());
            },
        },
        None => {
            assert(decls_view(out@) =~= decls_view(old(out)@) + Seq::<DeclView>::empty());
        },
    }
}

/// The legacy presentational attributes as declarations.
fn presentational(e: &Element, hints: &Vec<(String, Option<String>)>) -> (res: Vec<Declaration>)
    ensures
        decls_view(res@) == presentational_spec(e.tag@, attrs_view(e.attrs@), hints_view(hints@)),
{
    let mut out: Vec<Declaration> = Vec::new();
    assert(decls_view(out@) =~= Seq::<DeclView>::empty());
    push_trimmed(&mut out, &e.attrs, "bgcolor", "background-color");
    push_length(&mut out, &e.attrs, "width", hints);
    push_length(&mut out, &e.attrs, "height", hints);
    let ghost before = decls_view(out@);
    if is_tag(&e.tag, "font") {
        push_trimmed(&mut out, &e.attrs, "color", "color");
    } else {
        assert(decls_view(out@) =~= before + Seq::<DeclView>::empty());
    }
    assert(decls_view(out@) =~= presentational_spec(e.tag@, attrs_view(e.attrs@), hints_view(hints@)));
    out
}

/// The first attribute whose name is `name` in any ASCII case.
fn find_attr_ci_x<'a>(attrs: &'a Vec<Attr>, name: &str) -> (res: Option<&'a String>)
    ensures
        match res {
            Some(v) => find_attr_ci(attrs_view(attrs@), name@) == Some(v@),
            None => find_attr_ci(attrs_view(attrs@), name@) is None,
        },
{
    let n = chars_of(name);
    let ghost av = attrs_view(attrs@);
    let mut i: usize = 0;
    assert(av.skip(0) =~= av);
    while i < attrs.len()
        invariant
            i <= attrs@.len(),
            av == attrs_view(attrs@),
            n@ == name@,
            find_attr_ci(av, name@) == find_attr_ci(av.skip(i as int), name@),
        decreases attrs@.len() - i,
    {
        let an = chars_of(attrs[i].name.as_str());
        assert(av.skip(i as int)[0] == attrs@[i as int]@);
        if chars_eq_ignore_case(an.as_slice(), n.as_slice()) {
            return Some(&attrs[i].value);
        }
        assert(av.skip(i as int).drop_first() =~= av.skip(i + 1));
        i += 1;
    }
    None
}

/// The padding a table cell takes from its table's `cellpadding`.
fn cellpadding(e: &Element, path: &Vec<Ctx>, hints: &Vec<(String, Option<String>)>) -> (res: Vec<Declaration>)
    requires
        path@.len() >= 1,
    ensures
        decls_view(res@) == cellpadding_spec(e.tag@, ctxs_view(path@), hints_view(hints@)),
{
    let mut out: Vec<Declaration> = Vec::new();
    assert(decls_view(out@) =~= Seq::<DeclView>::empty());
    if !(is_tag(&e.tag, "td") || is_tag(&e.tag, "th")) {
        return out;
    }
    let ghost pv = ctxs_view(path@);
    proof {
        lemma_ctxs_view_len(path@);
    }
    let table = "table".to_owned();
    let mut i = path.len() - 1;
    while i > 0
        invariant
            i <= path@.len() - 1,
            path@.len() >= 1,
            pv == ctxs_view(path@),
            pv.len() == path@.len(),
            table@ == "table"@,
            out@.len() == 0,
            is_tag_spec(e.tag@, "td"@) || is_tag_spec(e.tag@, "th"@),
            nearest_table(pv, pv.len() - 1) == nearest_table(pv, i as int),
        decreases i,
    {
        proof {
            lemma_ctxs_view_index(path@, i - 1);
        }
        if opt_eq(&path[i - 1].tag, &table) {
            match find_attr_ci_x(&path[i - 1].attrs, "cellpadding") {
                Some(v) => {
                    let vc = chars_of(v.as_str());
                    let t = trim_chars(vc.as_slice());
                    match hint_get(hints, t.as_slice()) {
                        Some(p) => {
                            assert(decls_view(out@) =~= Seq::<DeclView>::empty());
                            push_plain(&mut out, "padding", p);
                            assert(decls_view(out@) =~= seq![plain_decl("padding"@, p@)]);
                        },
                        None => {},
                    }
                },
                None => {},
            }
            assert(decls_view(out@) =~= cellpadding_spec(e.tag@, ctxs_view(path@), hints_view(hints@)));
            return out;
        }
        i -= 1;
    }
    assert(decls_view(out@) =~= Seq::<DeclView>::empty());
    out
}


/// Every candidate for the last element of `path`.
fn candidates(e: &Element, path: &Vec<Ctx>, cascade: &Cascade, hints: &Vec<(String, Option<String>)>) -> (res: Vec<Cand>)
    requires
        cascade_wf(cascade_view(*cascade)),
        path@.len() >= 1,
    ensures
        cands_view(res@) == candidates_spec(e.tag@, attrs_view(e.attrs@), ctxs_view(path@), cascade_view(*cascade), hints_view(hints@)),
{
    let mut out: Vec<Cand> = Vec::new();
    assert(cands_view(out@) =~= Seq::<CandView>::empty());
    let pres = presentational(e, hints);
    push_decls(&pres, 1, (0, 0, 0), 0, &mut out);
    let pad = cellpadding(e, path, hints);
    push_decls(&pad, 1, (0, 0, 0), 0, &mut out);
    collect_rules(cascade, path, &mut out);
    let ts: [char; 7] = ['t', ':', 's', 't', 'y', 'l', 'e'];
    proof {
        reveal_strlit("t:style");
        assert(ts@ =~= "t:style"@);
    }
    let ghost before = cands_view(out@);
    match find_attr_x(&e.attrs, &ts) {
        Some(t) => {
            let decls = resolve_tokens(t.as_str(), &cascade.tokens);
            push_decls(&decls, 2, (0, 0, 0), 0, &mut out);
        },
        None => {
            assert(cands_view(out@) =~= before + Seq::<CandView>::empty());
        },
    }
    let st: [char; 5] = ['s', 't', 'y', 'l', 'e'];
    proof {
        reveal_strlit("style");
        assert(st@ =~= "style"@);
    }
    let ghost before2 = cands_view(out@);
    match find_attr_x(&e.attrs, &st) {
        Some(v) => {
            let decls = parse_declarations(v.as_str());
            push_decls(&decls, 4, (0, 0, 0), 0, &mut out);
        },
        None => {
            assert(cands_view(out@) =~= before2 + Seq::<CandView>::empty());
        },
    }
    out
}

/// Set `k` in the winners map.
fn insert_winner(
    map: &mut Vec<(String, ((bool, u8, (u32, u32, u32), usize), String))>,
    k: String,
    key: (bool, u8, (u32, u32, u32), usize),
    v: String,
)
    ensures
        winners_view(final(map)@) == sorted_insert(winners_view(old(map)@), k@, (key, v@)),
{
    let kc = chars_of(k.as_str());
    let ghost s0 = winners_view(map@);
    let mut i: usize = 0;
    while i < map.len()
        invariant
            i <= map@.len(),
            kc@ == k@,
            map@ == old(map)@,
            s0 == winners_view(map@),
            forall|j: int| 0 <= j < i ==> s0[j].0 != k@ && !text_lt(k@, #[trigger] s0[j].0),
        decreases map@.len() - i,
    {
        let key_i = chars_of(map[i].0.as_str());
        if chars_eq(key_i.as_slice(), kc.as_slice()) {
            proof {
                lemma_insert_at(s0, k@, (key, v@), i as int);
            }
            let ghost kv = (k@, (key, v@));
            map.set(i, (k, (key, v)));
            assert(winners_view(map@) =~= s0.update(i as int, kv));
            return;
        }
        if text_less(kc.as_slice(), key_i.as_slice()) {
            proof {
                lemma_insert_at(s0, k@, (key, v@), i as int);
            }
            let ghost kv = (k@, (key, v@));
            map.insert(i, (k, (key, v)));
            assert(winners_view(map@) =~= s0.insert(i as int, kv));
            return;
        }
        i += 1;
    }
    proof {
        lemma_insert_at(s0, k@, (key, v@), i as int);
    }
    let ghost kv = (k@, (key, v@));
    map.push((k, (key, v)));
    assert(winners_view(map@) =~= s0.push(kv));
}

spec fn winners_view(
    s: Seq<(String, ((bool, u8, (u32, u32, u32), usize), String))>,
) -> Seq<(Seq<char>, ((bool, u8, (u32, u32, u32), usize), Seq<char>))> {
    s.map_values(|e: (String, ((bool, u8, (u32, u32, u32), usize), String))| (e.0@, (e.1.0, e.1.1@)))
}

/// The entry of key `k`, if any.
fn get_winner<'a>(
    map: &'a Vec<(String, ((bool, u8, (u32, u32, u32), usize), String))>,
    k: &[char],
) -> (res: Option<&'a ((bool, u8, (u32, u32, u32), usize), String)>)
    ensures
        match res {
            Some(e) => map_get(winners_view(map@), k@) == Some((e.0, e.1@)),
            None => map_get(winners_view(map@), k@) is None,
        },
{
    let ghost s = winners_view(map@);
    let mut i: usize = 0;
    assert(s.skip(0) =~= s);
    while i < map.len()
        invariant
            i <= map@.len(),
            s == winners_view(map@),
            map_get(s, k@) == map_get(s.skip(i as int), k@),
        decreases map@.len() - i,
    {
        let key = chars_of(map[i].0.as_str());
        assert(s.skip(i as int)[0] == s[i as int]);
        if chars_eq(key.as_slice(), k) {
            return Some(&map[i].1);
        }
        assert(s.skip(i as int).drop_first() =~= s.skip(i + 1));
        i += 1;
    }
    None
}

/// The winning value per property.
fn pick_winners(cands: &Vec<Cand>) -> (res: Vec<(String, String)>)
    ensures
        pairs_view(res@) == winners_spec(cands_view(cands@)),
{
    let ghost cv = cands_view(cands@);
    let mut best: Vec<(String, ((bool, u8, (u32, u32, u32), usize), String))> = Vec::new();
    let mut i: usize = 0;
    assert(cv.take(0) =~= Seq::<CandView>::empty());
    assert(winners_view(best@) =~= Seq::<(Seq<char>, ((bool, u8, (u32, u32, u32), usize), Seq<char>))>::empty());
    while i < cands.len()
        invariant
            i <= cands@.len(),
            cv == cands_view(cands@),
            winners_view(best@) == pick_spec(cv.take(i as int)),
        decreases cands@.len() - i,
    {
        assert(cv.take(i + 1).drop_last() =~= cv.take(i as int));
        let c = &cands[i];
        assert(cv.take(i + 1).last() == (CandView { key: c.key, property: c.property@, value: c.value@ }));
        let p = chars_of(c.property.as_str());
        let beats = match get_winner(&best, p.as_slice()) {
            Some(e) => !key_less(c.key, e.0),
            None => true,
        };
        if beats {
            insert_winner(&mut best, c.property.clone(), c.key, c.value.clone());
        }
        i += 1;
    }
    assert(cv.take(i as int) =~= cv);
    let mut out: Vec<(String, String)> = Vec::new();
    let mut k: usize = 0;
    let ghost w = winners_view(best@);
    while k < best.len()
        invariant
            k <= best@.len(),
            w == winners_view(best@),
            pairs_view(out@) == w.take(k as int).map_values(
                |e: (Seq<char>, ((bool, u8, (u32, u32, u32), usize), Seq<char>))| (e.0, e.1.1),
            ),
        decreases best@.len() - k,
    {
        let ghost o0 = out@;
        let pk = best[k].0.clone();
        let pv = best[k].1.1.clone();
        out.push((pk, pv));
        assert(pairs_view(out@) =~= pairs_view(o0).push((pk@, pv@)));
        assert(w[k as int] == (best@[k as int].0@, (best@[k as int].1.0, best@[k as int].1.1@)));
        assert(w.take(k + 1) =~= w.take(k as int).push(w[k as int]));
        assert(pairs_view(out@) =~= w.take(k + 1).map_values(
            |e: (Seq<char>, ((bool, u8, (u32, u32, u32), usize), Seq<char>))| (e.0, e.1.1),
        ));
        k += 1;
    }
    assert(w.take(k as int) =~= w);
    out
}

/// An element's own winners over the inherited values of its parent.
fn inherit(own: Vec<(String, String)>, parent: &ComputedStyle) -> (res: ComputedStyle)
    ensures
        res@ == inherit_spec(pairs_view(own@), parent@),
        keys_sorted(res@),
{
    let props: [&str; 16] = [
        "color",
        "font-family",
        "font-size",
        "font-weight",
        "font-style",
        "line-height",
        "text-align",
        "text-indent",
        "letter-spacing",
        "word-spacing",
        "white-space",
        "text-transform",
        "hyphens",
        "list-style-type",
        "list-style-position",
        "visibility",
    ];
    let ghost names = props@.map_values(|x: &str| x@);
    assert(names =~= inherited_props());
    let mut map: Vec<(String, String)> = Vec::new();
    let mut i: usize = 0;
    assert(names.take(0) =~= Seq::<Seq<char>>::empty());
    assert(pairs_view(map@) =~= Seq::<(Seq<char>, Seq<char>)>::empty());
    while i < 16
        invariant
            i <= 16,
            names == props@.map_values(|x: &str| x@),
            names.len() == 16,
            pairs_view(map@) == inherit_base(names.take(i as int), parent@),
        decreases 16 - i,
    {
        assert(names.take(i + 1).drop_last() =~= names.take(i as int));
        match parent.get(props[i]) {
            Some(v) => {
                insert_pair(&mut map, props[i].to_owned(), v.to_owned());
            },
            None => {},
        }
        i += 1;
    }
    assert(names.take(16) =~= names);
    let ghost ov = pairs_view(own@);
    let mut k: usize = 0;
    let ghost base = pairs_view(map@);
    assert(ov.take(0) =~= Seq::<(Seq<char>, Seq<char>)>::empty());
    while k < own.len()
        invariant
            k <= own@.len(),
            ov == pairs_view(own@),
            pairs_view(map@) == extend_spec(base, ov.take(k as int)),
        decreases own@.len() - k,
    {
        assert(ov.take(k + 1).drop_last() =~= ov.take(k as int));
        insert_pair(&mut map, own[k].0.clone(), own[k].1.clone());
        k += 1;
    }
    assert(ov.take(k as int) =~= ov);
    proof {
        lemma_inherit_base_sorted(names, parent@);
        lemma_extend_sorted(base, ov);
    }
    ComputedStyle { map }
}

/// The computed style of the last element of `path`.
pub open spec fn resolve_style_spec(
    tag: TagView,
    attrs: Seq<AttrView>,
    path: Seq<CtxView>,
    parent: Seq<(Seq<char>, Seq<char>)>,
    cascade: CascadeView,
    hints: Seq<(Seq<char>, Option<Seq<char>>)>,
) -> Seq<(Seq<char>, Seq<char>)> {
    inherit_spec(winners_spec(candidates_spec(tag, attrs, path, cascade, hints)), parent)
}

fn resolve_style(
    e: &Element,
    path: &Vec<Ctx>,
    parent: &ComputedStyle,
    cascade: &Cascade,
    hints: &Vec<(String, Option<String>)>,
) -> (res: ComputedStyle)
    requires
        cascade_wf(cascade_view(*cascade)),
        path@.len() >= 1,
    ensures
        res@ == resolve_style_spec(e.tag@, attrs_view(e.attrs@), ctxs_view(path@), parent@, cascade_view(*cascade), hints_view(hints@)),
        keys_sorted(res@),
{
    let cands = candidates(e, path, cascade, hints);
    let own = pick_winners(&cands);
    inherit(own, parent)
}


// ---------------------------------------------------------------------------
// tree construction
// ---------------------------------------------------------------------------

/// The debug name of a directive kind.
pub open spec fn tkind_name(k: TKind) -> Seq<char> {
    match k {
        TKind::Footnote => "Footnote"@,
        TKind::FootnoteSeparator => "FootnoteSeparator"@,
        TKind::RunningHeader => "RunningHeader"@,
        TKind::RunningFooter => "RunningFooter"@,
        TKind::PageMaster => "PageMaster"@,
        TKind::Region => "Region"@,
        TKind::Variant => "Variant"@,
        TKind::Page => "Page"@,
        TKind::Pages => "Pages"@,
        TKind::UseMaster => "UseMaster"@,
        TKind::Counter => "Counter"@,
        TKind::Leader => "Leader"@,
        TKind::Anchor => "Anchor"@,
        TKind::Endnote => "Endnote"@,
        TKind::Endnotes => "Endnotes"@,
    }
}

/// The key an element is grouped by for `:*-of-type`: its HTML name, or the
/// debug name of its directive.
pub open spec fn tag_key(t: TagView) -> Seq<char> {
    match t {
        TagView::Html(n) => n,
        TagView::Directive(k) => tkind_name(k),
    }
}

/// The keys of the elements among `nodes`, in order.
pub open spec fn element_keys(nodes: Seq<NodeView>) -> Seq<Seq<char>>
    decreases nodes.len(),
{
    if nodes.len() == 0 {
        Seq::empty()
    } else {
        element_keys(nodes.drop_last()) + match nodes.last() {
            NodeView::Element { tag, .. } => seq![tag_key(tag)],
            NodeView::Text(_) => Seq::empty(),
        }
    }
}

/// How many entries of `s` equal `x`.
pub open spec fn count_eq(s: Seq<Seq<char>>, x: Seq<char>) -> nat
    decreases s.len(),
{
    if s.len() == 0 {
        0
    } else {
        count_eq(s.drop_last(), x) + if s.last() == x { 1nat } else { 0nat }
    }
}

/// The position of element `k` among element siblings with keys `keys`.
pub open spec fn pos_spec(keys: Seq<Seq<char>>, k: int) -> ElemPos {
    ElemPos {
        index: (k + 1) as usize,
        of_type_index: count_eq(keys.take(k + 1), keys[k]) as usize,
        of_type_total: count_eq(keys, keys[k]) as usize,
        siblings: keys.len() as usize,
    }
}

/// The match context of an element.
pub open spec fn ctx_spec(tag: TagView, attrs: Seq<AttrView>, no_children: bool, pos: ElemPos, prev: Seq<CtxView>) -> CtxView {
    CtxView {
        tag: match tag {
            TagView::Html(n) => Some(n),
            TagView::Directive(_) => None,
        },
        id: find_attr(attrs, "id"@),
        classes: match find_attr(attrs, "class"@) {
            Some(c) => words(c),
            None => Seq::empty(),
        },
        attrs,
        pos,
        empty: no_children,
        prev,
    }
}

/// The plain-value picture of a styled node.
pub enum StyledView {
    Element { tag: TagView, attrs: Seq<AttrView>, style: Seq<(Seq<char>, Seq<char>)>, children: Seq<StyledView> },
    Text(Seq<char>),
}

/// The siblings `nodes` styled under `ancestors` and a parent style (with
/// `keys` the element keys of all of the siblings), and the contexts of their
/// elements.
pub open spec fn sib_fold(
    nodes: Seq<NodeView>,
    keys: Seq<Seq<char>>,
    ancestors: Seq<CtxView>,
    parent: Seq<(Seq<char>, Seq<char>)>,
    cascade: CascadeView,
    hints: Seq<(Seq<char>, Option<Seq<char>>)>,
) -> (Seq<StyledView>, Seq<CtxView>)
    decreases nodes, 0nat,
{
    if nodes.len() == 0 {
        (Seq::empty(), Seq::empty())
    } else {
        let (out, prev) = sib_fold(nodes.drop_last(), keys, ancestors, parent, cascade, hints);
        match nodes.last() {
            NodeView::Text(t) => (out.push(StyledView::Text(t)), prev),
            NodeView::Element { tag, attrs, children } => {
                let pos = pos_spec(keys, prev.len() as int);
                let ctx = ctx_spec(tag, attrs, children.len() == 0, pos, prev);
                (
                    out.push(style_elem(nodes.last(), ancestors.push(ctx), parent, cascade, hints)),
                    prev.push(ctx_spec(tag, attrs, children.len() == 0, pos, Seq::empty())),
                )
            },
        }
    }
}

/// One element styled at the end of `path`, its children after it.
pub open spec fn style_elem(
    n: NodeView,
    path: Seq<CtxView>,
    parent: Seq<(Seq<char>, Seq<char>)>,
    cascade: CascadeView,
    hints: Seq<(Seq<char>, Option<Seq<char>>)>,
) -> StyledView
    decreases n, 1nat,
{
    match n {
        NodeView::Element { tag, attrs, children } => {
            let st = resolve_style_spec(tag, attrs, path, parent, cascade, hints);
            StyledView::Element {
                tag,
                attrs,
                style: st,
                children: sib_fold(children, element_keys(children), path, st, cascade, hints).0,
            }
        },
        NodeView::Text(t) => StyledView::Text(t),
    }
}

/// The styled tree of a flow of nodes.
pub open spec fn style_tree_spec(
    nodes: Seq<NodeView>,
    cascade: CascadeView,
    hints: Seq<(Seq<char>, Option<Seq<char>>)>,
) -> Seq<StyledView> {
    sib_fold(nodes, element_keys(nodes), Seq::empty(), Seq::empty(), cascade, hints).0
}


/// A styled element node.
#[derive(Debug)]
pub struct StyledElement {
    pub tag: Tag,
    pub attrs: Vec<Attr>,
    pub style: ComputedStyle,
    pub children: Vec<StyledNode>,
}

/// A node in the styled tree.
#[derive(Debug)]
pub enum StyledNode {
    Element(StyledElement),
    Text(String),
}

/// The view of a styled node.
pub open spec fn styled_view(n: StyledNode) -> StyledView
    decreases n, 1nat,
{
    match n {
        StyledNode::Element(e) => StyledView::Element {
            tag: e.tag@,
            attrs: attrs_view(e.attrs@),
            style: e.style@,
            children: styled_nodes_view(e.children@),
        },
        StyledNode::Text(t) => StyledView::Text(t@),
    }
}

/// The views of a list of styled nodes.
pub open spec fn styled_nodes_view(s: Seq<StyledNode>) -> Seq<StyledView>
    decreases s, 0nat,
{
    if s.len() == 0 {
        Seq::empty()
    } else {
        styled_nodes_view(s.drop_last()).push(styled_view(s.last()))
    }
}

impl StyledNode {
    /// Borrow the styled element if this node is one.
    pub fn as_element(&self) -> (res: Option<&StyledElement>)
        ensures
            res matches Some(e) ==> *self == StyledNode::Element(*e),
            res is None ==> self is Text,
    {
        match self {
            StyledNode::Element(e) => Some(e),
            StyledNode::Text(_) => None,
        }
    }
}

proof fn lemma_styled_push(s: Seq<StyledNode>, n: StyledNode)
    ensures
        styled_nodes_view(s.push(n)) == styled_nodes_view(s).push(styled_view(n)),
{
    assert(s.push(n).drop_last() =~= s);
}

proof fn lemma_nodes_view_push(s: Seq<Node>, n: Node)
    ensures
        nodes_view(s.push(n)) == nodes_view(s).push(node_view(n)),
{
    assert(s.push(n).drop_last() =~= s);
}

proof fn lemma_nodes_view_len(s: Seq<Node>)
    ensures
        nodes_view(s).len() == s.len(),
    decreases s.len(),
{
    if s.len() > 0 {
        lemma_nodes_view_len(s.drop_last());
    }
}

proof fn lemma_keys_len(s: Seq<NodeView>, i: int)
    requires
        0 <= i <= s.len(),
    ensures
        element_keys(s.take(i)).len() <= element_keys(s).len(),
        element_keys(s).take(element_keys(s.take(i)).len() as int) == element_keys(s.take(i)),
    decreases s.len(),
{
    if i == s.len() {
        assert(s.take(i) =~= s);
        assert(element_keys(s).take(element_keys(s).len() as int) =~= element_keys(s));
    } else {
        assert(s.drop_last().take(i) =~= s.take(i));
        lemma_keys_len(s.drop_last(), i);
        let a = element_keys(s.drop_last());
        let b = element_keys(s.take(i));
        assert(element_keys(s).take(b.len() as int) =~= a.take(b.len() as int));
    }
}

proof fn lemma_sib_fold_prev(
    nodes: Seq<NodeView>,
    keys: Seq<Seq<char>>,
    ancestors: Seq<CtxView>,
    parent: Seq<(Seq<char>, Seq<char>)>,
    cascade: CascadeView,
    hints: Seq<(Seq<char>, Option<Seq<char>>)>,
)
    ensures
        sib_fold(nodes, keys, ancestors, parent, cascade, hints).1.len() == element_keys(nodes).len(),
    decreases nodes.len(),
{
    if nodes.len() > 0 {
        lemma_sib_fold_prev(nodes.drop_last(), keys, ancestors, parent, cascade, hints);
    }
}

/// The key of an element's tag.
fn tag_key_x(tag: &Tag) -> (res: Vec<char>)
    ensures
        res@ == tag_key(tag@),
{
    match tag {
        Tag::Html(n) => chars_of(n.as_str()),
        Tag::Directive(k) => chars_of(match k {
            TKind::Footnote => "Footnote",
            TKind::FootnoteSeparator => "FootnoteSeparator",
            TKind::RunningHeader => "RunningHeader",
            TKind::RunningFooter => "RunningFooter",
            TKind::PageMaster => "PageMaster",
            TKind::Region => "Region",
            TKind::Variant => "Variant",
            TKind::Page => "Page",
            TKind::Pages => "Pages",
            TKind::UseMaster => "UseMaster",
            TKind::Counter => "Counter",
            TKind::Leader => "Leader",
            TKind::Anchor => "Anchor",
            TKind::Endnote => "Endnote",
            TKind::Endnotes => "Endnotes",
        }),
    }
}

/// The keys of the element siblings among `nodes`.
fn element_keys_x(nodes: &Vec<Node>) -> (res: Vec<Vec<char>>)
    ensures
        texts_view(res@) == element_keys(nodes_view(nodes@)),
{
    let mut out: Vec<Vec<char>> = Vec::new();
    let mut i: usize = 0;
    assert(nodes_view(nodes@.take(0)) =~= Seq::<NodeView>::empty());
    assert(texts_view(out@) =~= Seq::<Seq<char>>::empty());
    while i < nodes.len()
        invariant
            i <= nodes@.len(),
            texts_view(out@) == element_keys(nodes_view(nodes@.take(i as int))),
        decreases nodes@.len() - i,
    {
        let ghost pre = nodes_view(nodes@.take(i as int));
        proof {
            assert(nodes@.take(i + 1) =~= nodes@.take(i as int).push(nodes@[i as int]));
            lemma_nodes_view_push(nodes@.take(i as int), nodes@[i as int]);
            assert(pre.push(node_view(nodes@[i as int])).drop_last() =~= pre);
        }
        let ghost o0 = texts_view(out@);
        match &nodes[i] {
            Node::Element(e) => {
                let k = tag_key_x(&e.tag);
                out.push(k);
                assert(texts_view(out@) =~= o0 + seq![k@]);
            },
            Node::Text(_) => {
                assert(texts_view(out@) =~= o0 + Seq::<Seq<char>>::empty());
            },
        }
        i += 1;
    }
    assert(nodes@.take(i as int) =~= nodes@);
    out
}

/// How many of the first `upto` keys equal `x`.
fn count_in(keys: &Vec<Vec<char>>, upto: usize, x: &Vec<char>) -> (res: usize)
    requires
        upto <= keys@.len(),
    ensures
        res == count_eq(texts_view(keys@).take(upto as int), x@),
{
    let ghost kv = texts_view(keys@);
    let mut n: usize = 0;
    let mut i: usize = 0;
    assert(kv.take(0) =~= Seq::<Seq<char>>::empty());
    while i < upto
        invariant
            i <= upto <= keys@.len(),
            kv == texts_view(keys@),
            n <= i,
            n == count_eq(kv.take(i as int), x@),
        decreases upto - i,
    {
        assert(kv.take(i + 1).drop_last() =~= kv.take(i as int));
        assert(kv.take(i + 1).last() == keys@[i as int]@);
        if chars_eq(keys[i].as_slice(), x.as_slice()) {
            n += 1;
        }
        i += 1;
    }
    n
}

/// The match context of an element.
fn ctx_of(e: &Element, pos: ElemPos, prev: Vec<Ctx>) -> (res: Ctx)
    ensures
        ctx_view(res) == ctx_spec(e.tag@, attrs_view(e.attrs@), e.children@.len() == 0, pos, ctxs_view(prev@)),
{
    let tag = match &e.tag {
        Tag::Html(n) => Some(n.clone()),
        Tag::Directive(_) => None,
    };
    let idn: [char; 2] = ['i', 'd'];
    let cls: [char; 5] = ['c', 'l', 'a', 's', 's'];
    proof {
        reveal_strlit("id");
        reveal_strlit("class");
        assert(idn@ =~= "id"@);
        assert(cls@ =~= "class"@);
    }
    let id = match find_attr_x(&e.attrs, &idn) {
        Some(v) => Some(v.clone()),
        None => None,
    };
    let mut classes: Vec<String> = Vec::new();
    match find_attr_x(&e.attrs, &cls) {
        Some(v) => {
            let vc = chars_of(v.as_str());
            let ws = split_words(vc.as_slice());
            let mut i: usize = 0;
            while i < ws.len()
                invariant
                    i <= ws@.len(),
                    strings_view(classes@) == texts_view(ws@).take(i as int),
                decreases ws@.len() - i,
            {
                let ghost c0 = classes@;
                let w = string_of(ws[i].as_slice());
                classes.push(w);
                assert(strings_view(classes@) =~= strings_view(c0).push(w@));
                assert(texts_view(ws@).take(i + 1) =~= texts_view(ws@).take(i as int).push(ws@[i as int]@));
                i += 1;
            }
            assert(texts_view(ws@).take(i as int) =~= texts_view(ws@));
        },
        None => {
            assert(strings_view(classes@) =~= Seq::<Seq<char>>::empty());
        },
    }
    Ctx { tag, id, classes, attrs: copy_attrs(&e.attrs), pos, empty: e.children.len() == 0, prev }
}

/// Style one element node at the end of `path`.
fn style_node(
    n: &Node,
    path: &Vec<Ctx>,
    parent: &ComputedStyle,
    cascade: &Cascade,
    hints: &Vec<(String, Option<String>)>,
) -> (res: StyledNode)
    requires
        cascade_wf(cascade_view(*cascade)),
        path@.len() >= 1,
    ensures
        styled_view(res) == style_elem(node_view(*n), ctxs_view(path@), parent@, cascade_view(*cascade), hints_view(hints@)),
    decreases n, 1nat,
{
    match n {
        Node::Element(e) => {
            let style = resolve_style(e, path, parent, cascade, hints);
            let children = style_siblings(&e.children, path, &style, cascade, hints);
            let tag = match &e.tag {
                Tag::Html(t) => Tag::Html(t.clone()),
                Tag::Directive(k) => Tag::Directive(*k),
            };
            StyledNode::Element(StyledElement { tag, attrs: copy_attrs(&e.attrs), style, children })
        },
        Node::Text(t) => StyledNode::Text(t.clone()),
    }
}

/// Style a list of siblings under `ancestors`.
#[verifier::spinoff_prover]
#[verifier::rlimit(30)]
fn style_siblings(
    nodes: &Vec<Node>,
    ancestors: &Vec<Ctx>,
    parent: &ComputedStyle,
    cascade: &Cascade,
    hints: &Vec<(String, Option<String>)>,
) -> (res: Vec<StyledNode>)
    requires
        cascade_wf(cascade_view(*cascade)),
    ensures
        styled_nodes_view(res@) == sib_fold(
            nodes_view(nodes@),
            element_keys(nodes_view(nodes@)),
            ctxs_view(ancestors@),
            parent@,
            cascade_view(*cascade),
            hints_view(hints@),
        ).0,
    decreases nodes, 0nat,
{
    let ghost nv = nodes_view(nodes@);
    let ghost av = ctxs_view(ancestors@);
    let ghost cv = cascade_view(*cascade);
    let ghost hv = hints_view(hints@);
    let keys = element_keys_x(nodes);
    let ghost kv = texts_view(keys@);
    let mut out: Vec<StyledNode> = Vec::new();
    let mut prev: Vec<Ctx> = Vec::new();
    let mut i: usize = 0;
    proof {
        lemma_nodes_view_len(nodes@);
    }
    assert(nv.take(0) =~= Seq::<NodeView>::empty());
    assert(styled_nodes_view(out@) =~= Seq::<StyledView>::empty());
    assert(ctxs_view(prev@) =~= Seq::<CtxView>::empty());
    while i < nodes.len()
        invariant
            i <= nodes@.len(),
            nv == nodes_view(nodes@),
            nv.len() == nodes@.len(),
            av == ctxs_view(ancestors@),
            cv == cascade_view(*cascade),
            hv == hints_view(hints@),
            kv == texts_view(keys@),
            kv == element_keys(nv),
            cascade_wf(cv),
            styled_nodes_view(out@) == sib_fold(nv.take(i as int), kv, av, parent@, cv, hv).0,
            ctxs_view(prev@) == sib_fold(nv.take(i as int), kv, av, parent@, cv, hv).1,
        decreases nodes@.len() - i,
    {
        assert(decreases_to!(nodes => nodes@[i as int]));
        proof {
            assert(nodes@.take(i + 1) =~= nodes@.take(i as int).push(nodes@[i as int]));
            lemma_nodes_view_push(nodes@.take(i as int), nodes@[i as int]);
            assert(nv.take(i + 1) =~= nodes_view(nodes@.take(i + 1))) by {
                lemma_nodes_view_take(nodes@, i + 1);
            }
            assert(nv.take(i as int) =~= nodes_view(nodes@.take(i as int))) by {
                lemma_nodes_view_take(nodes@, i as int);
            }
            assert(nv.take(i + 1).drop_last() =~= nv.take(i as int));
            assert(nv.take(i + 1).last() == node_view(nodes@[i as int]));
            lemma_sib_fold_prev(nv.take(i as int), kv, av, parent@, cv, hv);
            lemma_ctxs_view_len(prev@);
            lemma_keys_len(nv, i + 1);
        }
        match &nodes[i] {
            Node::Text(t) => {
                let ghost o0 = out@;
                let st = StyledNode::Text(t.clone());
                out.push(st);
                proof {
                    lemma_styled_push(o0, st);
                }
            },
            Node::Element(e) => {
                let k = prev.len();
                proof {
                    assert(element_keys(nv.take(i + 1)) =~= element_keys(nv.take(i as int)) + seq![tag_key(e.tag@)]);
                    assert(k < kv.len());
                    assert(k < keys@.len());
                }
                let pos = ElemPos {
                    index: k + 1,
                    of_type_index: count_in(&keys, k + 1, &keys[k]),
                    of_type_total: count_in(&keys, keys.len(), &keys[k]),
                    siblings: keys.len(),
                };
                assert(kv.take(keys@.len() as int) =~= kv);
                assert(pos == pos_spec(kv, k as int));
                let ctx = ctx_of(e, pos, copy_ctx_prefix(&prev, prev.len()));
                assert(prev@.take(prev@.len() as int) =~= prev@);
                let mut path = copy_ctx_prefix(ancestors, ancestors.len());
                assert(ancestors@.take(ancestors@.len() as int) =~= ancestors@);
                let ghost p0 = path@;
                path.push(ctx);
                proof {
                    lemma_ctxs_view_push(p0, ctx);
                    lemma_nodes_view_len(e.children@);
                }
                let styled = style_node(&nodes[i], &path, parent, cascade, hints);
                let ghost o0 = out@;
                out.push(styled);
                proof {
                    lemma_styled_push(o0, styled);
                }
                let no_prev: Vec<Ctx> = Vec::new();
                assert(ctxs_view(no_prev@) =~= Seq::<CtxView>::empty());
                let bare = ctx_of(e, pos, no_prev);
                let ghost q0 = prev@;
                prev.push(bare);
                proof {
                    lemma_ctxs_view_push(q0, bare);
                }
            },
        }
        i += 1;
    }
    assert(nv.take(i as int) =~= nv);
    out
}

proof fn lemma_nodes_view_take(s: Seq<Node>, k: int)
    requires
        0 <= k <= s.len(),
    ensures
        nodes_view(s.take(k)) == nodes_view(s).take(k),
    decreases s.len(),
{
    lemma_nodes_view_len(s);
    lemma_nodes_view_len(s.take(k));
    if k == s.len() {
        assert(s.take(k) =~= s);
        assert(nodes_view(s).take(k) =~= nodes_view(s));
    } else {
        assert(s.drop_last().take(k) =~= s.take(k));
        lemma_nodes_view_take(s.drop_last(), k);
        lemma_nodes_view_len(s.drop_last());
        assert(nodes_view(s).take(k) =~= nodes_view(s.drop_last()).take(k));
    }
}

/// Build the styled tree for a flow of nodes under the given cascade;
/// `hints` gives, for the number texts the presentational attributes hold,
/// the `px` length each stands for (none where it is no number).
pub fn style_tree(nodes: &Vec<Node>, cascade: &Cascade, hints: &Vec<(String, Option<String>)>) -> (res: Vec<StyledNode>)
    requires
        cascade_wf(cascade_view(*cascade)),
    ensures
        styled_nodes_view(res@) == style_tree_spec(nodes_view(nodes@), cascade_view(*cascade), hints_view(hints@)),
{
    let root = ComputedStyle::new();
    let ancestors: Vec<Ctx> = Vec::new();
    assert(ctxs_view(ancestors@) =~= Seq::<CtxView>::empty());
    style_siblings(nodes, &ancestors, &root, cascade, hints)
}


/// The number text a length attribute asks the hints about, if present.
pub open spec fn length_input(attrs: Seq<AttrView>, name: Seq<char>) -> Seq<Seq<char>> {
    match find_attr(attrs, name) {
        Some(v) => {
            let t = trim(v);
            if ends_with(t, seq!['%']) {
                seq![trim(t.take(t.len() - 1))]
            } else {
                seq![t]
            }
        },
        None => Seq::empty(),
    }
}

/// The number texts one node and its subtree ask the hints about: the
/// `width`/`height` of each element and the `cellpadding` of each table.
pub open spec fn hint_inputs_node(n: NodeView) -> Seq<Seq<char>>
    decreases n, 1nat,
{
    match n {
        NodeView::Element { tag, attrs, children } => length_input(attrs, "width"@) + length_input(attrs, "height"@)
            + (if tag == TagView::Html("table"@) {
            match find_attr_ci(attrs, "cellpadding"@) {
                Some(v) => seq![trim(v)],
                None => Seq::empty(),
            }
        } else {
            Seq::empty()
        }) + hint_inputs_nodes(children),
        NodeView::Text(_) => Seq::empty(),
    }
}

/// The number texts a node forest asks the hints about, in document order.
pub open spec fn hint_inputs_nodes(s: Seq<NodeView>) -> Seq<Seq<char>>
    decreases s, 0nat,
{
    if s.len() == 0 {
        Seq::empty()
    } else {
        hint_inputs_nodes(s.drop_last()) + hint_inputs_node(s.last())
    }
}

fn push_length_input(out: &mut Vec<String>, attrs: &Vec<Attr>, name: &str)
    ensures
        crate::chars::texts_view_s(final(out)@) == crate::chars::texts_view_s(old(out)@) + length_input(attrs_view(attrs@), name@),
{
    let nc = chars_of(name);
    let ghost o0 = crate::chars::texts_view_s(out@);
    match find_attr_x(attrs, nc.as_slice()) {
        Some(v) => {
            let vc = chars_of(v.as_str());
            let t = trim_chars(vc.as_slice());
            let pct: [char; 1] = ['%'];
            assert(pct@ =~= seq!['%']);
            let text = if has_suffix(t.as_slice(), &pct) {
                let head = crate::chars::copy_range(t.as_slice(), 0, t.len() - 1);
                assert(head@ =~= t@.take(t@.len() - 1));
                trim_chars(head.as_slice())
            } else {
                t
            };
            let st = string_of(text.as_slice());
            out.push(st);
            assert(crate::chars::texts_view_s(out@) =~= o0.push(st@));
        },
        None => {
            assert(crate::chars::texts_view_s(out@) =~= o0 + Seq::<Seq<char>>::empty());
        },
    }
}

fn hint_inputs_of(n: &Node, out: &mut Vec<String>)
    ensures
        crate::chars::texts_view_s(final(out)@) == crate::chars::texts_view_s(old(out)@) + hint_inputs_node(node_view(*n)),
    decreases n, 1nat,
{
    match n {
        Node::Element(e) => {
            let ghost o0 = crate::chars::texts_view_s(out@);
            push_length_input(out, &e.attrs, "width");
            push_length_input(out, &e.attrs, "height");
            let ghost o1 = crate::chars::texts_view_s(out@);
            let is_table = match &e.tag {
                Tag::Html(t) => crate::chars::eq_str(chars_of(t.as_str()).as_slice(), "table"),
                Tag::Directive(_) => false,
            };
            if is_table {
                match find_attr_ci_x(&e.attrs, "cellpadding") {
                    Some(v) => {
                        let t = trim_chars(chars_of(v.as_str()).as_slice());
                        let st = string_of(t.as_slice());
                        out.push(st);
                        assert(crate::chars::texts_view_s(out@) =~= o1.push(st@));
                    },
                    None => {},
                }
            }
            let ghost o2 = crate::chars::texts_view_s(out@);
            hint_inputs_all(&e.children, out);
            assert(crate::chars::texts_view_s(out@) =~= o0 + hint_inputs_node(node_view(*n)));
        },
        Node::Text(_) => {
            assert(crate::chars::texts_view_s(out@) =~= crate::chars::texts_view_s(out@) + Seq::<Seq<char>>::empty());
        },
    }
}

fn hint_inputs_all(s: &Vec<Node>, out: &mut Vec<String>)
    ensures
        crate::chars::texts_view_s(final(out)@) == crate::chars::texts_view_s(old(out)@) + hint_inputs_nodes(nodes_view(s@)),
    decreases s, 0nat,
{
    let ghost start = crate::chars::texts_view_s(out@);
    let mut i: usize = 0;
    assert(start + hint_inputs_nodes(nodes_view(s@.take(0))) =~= start);
    while i < s.len()
        invariant
            i <= s@.len(),
            crate::chars::texts_view_s(out@) == start + hint_inputs_nodes(nodes_view(s@.take(i as int))),
        decreases s@.len() - i,
    {
        assert(decreases_to!(s => s@[i as int]));
        let ghost pre = nodes_view(s@.take(i as int));
        proof {
            assert(s@.take(i + 1) =~= s@.take(i as int).push(s@[i as int]));
            lemma_nodes_view_push(s@.take(i as int), s@[i as int]);
            assert(pre.push(node_view(s@[i as int])).drop_last() =~= pre);
        }
        hint_inputs_of(&s[i], out);
        assert(crate::chars::texts_view_s(out@) =~= start + hint_inputs_nodes(nodes_view(s@.take(i + 1))));
        i += 1;
    }
    assert(s@.take(i as int) =~= s@);
}

/// The number texts the presentational attributes of a node forest hold —
/// each `width`/`height` (without a trailing `%`) and each table
/// `cellpadding`, trimmed — in document order: what the hints of
/// [`style_tree`] answer.
pub fn length_hint_inputs(nodes: &Vec<Node>) -> (res: Vec<String>)
    ensures
        crate::chars::texts_view_s(res@) == hint_inputs_nodes(nodes_view(nodes@)),
{
    let mut out: Vec<String> = Vec::new();
    assert(crate::chars::texts_view_s(out@) =~= Seq::<Seq<char>>::empty());
    hint_inputs_all(nodes, &mut out);
    out
}


proof fn lemma_key_order(a: (bool, u8, (u32, u32, u32), usize), b: (bool, u8, (u32, u32, u32), usize), c: (bool, u8, (u32, u32, u32), usize))
    ensures
        key_lt(a, b) ==> !key_lt(b, a),
        !key_lt(a, b) && !key_lt(b, c) ==> !key_lt(a, c),
{
}

/// The cascade picks, for each property that has a declaration, the
/// declaration with the greatest cascade key (importance, then level, then
/// specificity, then source order): no declaration of that property has a
/// greater key, and a property without declarations gets no value.
pub proof fn cascade_winner_is_greatest(cands: Seq<CandView>, p: Seq<char>)
    ensures
        map_get(pick_spec(cands), p) is Some <==> exists|i: int|
            0 <= i < cands.len() && (#[trigger] cands[i]).property == p,
        map_get(pick_spec(cands), p) matches Some(e) ==> (exists|i: int|
            0 <= i < cands.len() && (#[trigger] cands[i]).property == p && cands[i].key == e.0
                && cands[i].value == e.1),
        map_get(pick_spec(cands), p) matches Some(e) ==> (forall|i: int|
            0 <= i < cands.len() && (#[trigger] cands[i]).property == p ==> !key_lt(e.0, cands[i].key)),
    decreases cands.len(),
{
    if cands.len() > 0 {
        let d = cands.drop_last();
        let n = cands.len() - 1;
        let c = cands[n];
        cascade_winner_is_greatest(d, p);
        let b = pick_spec(d);
        assert forall|i: int| 0 <= i < d.len() implies #[trigger] d[i] == cands[i] by {}
        sorted_insert_then_get(b, c.property, (c.key, c.value), p);
        if c.property == p {
            match map_get(b, p) {
                Some(e) => {
                    let (i0) = choose|i: int|
                        0 <= i < d.len() && (#[trigger] d[i]).property == p && d[i].key == e.0
                            && d[i].value == e.1;
                    assert(cands[i0] == d[i0]);
                    if key_lt(c.key, e.0) {
                        lemma_key_order(c.key, e.0, c.key);
                        assert forall|i: int| 0 <= i < cands.len() && (#[trigger] cands[i]).property == p
                            implies !key_lt(e.0, cands[i].key) by {
                            if i < n {
                                assert(d[i] == cands[i]);
                            }
                        }
                    } else {
                        assert forall|i: int| 0 <= i < cands.len() && (#[trigger] cands[i]).property == p
                            implies !key_lt(c.key, cands[i].key) by {
                            if i < n {
                                assert(d[i] == cands[i]);
                                assert(!key_lt(e.0, d[i].key));
                                lemma_key_order(c.key, e.0, d[i].key);
                            }
                        }
                    }
                },
                None => {
                    assert forall|i: int| 0 <= i < cands.len() && (#[trigger] cands[i]).property == p
                        implies i == n by {
                        if i < n {
                            assert(d[i] == cands[i]);
                        }
                    }
                },
            }
        } else {
            assert(map_get(pick_spec(cands), p) == map_get(b, p));
            assert forall|i: int| 0 <= i < cands.len() && (#[trigger] cands[i]).property == p implies i
                < n && d[i].property == p by {}
            if map_get(b, p) is Some {
                let e = map_get(b, p).unwrap();
                let i0 = choose|i: int|
                    0 <= i < d.len() && (#[trigger] d[i]).property == p && d[i].key == e.0 && d[i].value
                        == e.1;
                assert(cands[i0] == d[i0]);
            } else {
                assert forall|i: int| 0 <= i < cands.len() implies (#[trigger] cands[i]).property != p by {
                    if i < n {
                        assert(d[i] == cands[i]);
                    }
                }
            }
        }
    }
}


/// The cascade order: an `!important` declaration beats a normal one; of two
/// with the same importance the higher cascade level (UA < author < tokens <
/// node styles < inline) wins whatever their specificities; at the same level
/// the higher specificity, compared id count, then class count, then type
/// count, wins; and at the same specificity the later one. The order is
/// strict: no key beats itself, and of two keys at most one beats the other.
pub proof fn cascade_order(a: (bool, u8, (u32, u32, u32), usize), b: (bool, u8, (u32, u32, u32), usize))
    ensures
        !a.0 && b.0 ==> key_lt(a, b),
        a.0 == b.0 && a.1 < b.1 ==> key_lt(a, b),
        a.0 == b.0 && a.1 == b.1 && a.2.0 < b.2.0 ==> key_lt(a, b),
        a.0 == b.0 && a.1 == b.1 && a.2.0 == b.2.0 && a.2.1 < b.2.1 ==> key_lt(a, b),
        a.0 == b.0 && a.1 == b.1 && a.2.0 == b.2.0 && a.2.1 == b.2.1 && a.2.2 < b.2.2 ==> key_lt(a, b),
        a.0 == b.0 && a.1 == b.1 && a.2 == b.2 && a.3 < b.3 ==> key_lt(a, b),
        !key_lt(a, a),
        key_lt(a, b) ==> !key_lt(b, a),
        a != b ==> key_lt(a, b) || key_lt(b, a),
{
}

/// An inline `style` declaration (level 4) beats every normal declaration of
/// a style sheet, token or node style below it, whatever that one's
/// specificity and position.
pub proof fn inline_style_beats_sheets(
    sheet: (bool, u8, (u32, u32, u32), usize),
    spec: (u32, u32, u32),
    order: usize,
)
    requires
        !sheet.0,
        sheet.1 < 4,
    ensures
        key_lt(sheet, (false, 4u8, spec, order)),
{
}


proof fn lemma_count_eq_bounds(s: Seq<Seq<char>>, x: Seq<char>)
    ensures
        count_eq(s, x) <= s.len(),
        count_eq(s, x) == 0 <==> forall|j: int| 0 <= j < s.len() ==> s[j] != x,
    decreases s.len(),
{
    if s.len() > 0 {
        lemma_count_eq_bounds(s.drop_last(), x);
        if forall|j: int| 0 <= j < s.len() ==> s[j] != x {
            assert(s.last() == s[s.len() - 1]);
            assert forall|j: int| 0 <= j < s.drop_last().len() implies s.drop_last()[j] != x by {
                assert(s.drop_last()[j] == s[j]);
            }
        }
        if count_eq(s, x) == 0 {
            assert forall|j: int| 0 <= j < s.len() implies s[j] != x by {
                if j < s.len() - 1 {
                    assert(s.drop_last()[j] == s[j]);
                }
            }
        }
    }
}

proof fn lemma_count_eq_concat(a: Seq<Seq<char>>, b: Seq<Seq<char>>, x: Seq<char>)
    ensures
        count_eq(a + b, x) == count_eq(a, x) + count_eq(b, x),
    decreases b.len(),
{
    if b.len() == 0 {
        assert(a + b =~= a);
    } else {
        lemma_count_eq_concat(a, b.drop_last(), x);
        assert((a + b).drop_last() =~= a + b.drop_last());
        assert((a + b).last() == b.last());
    }
}

/// The structural pseudo-classes read the element's place among its
/// parent's element children (`keys`, one per child, the element being
/// child `k`): `:first-child` holds exactly of the first element child,
/// `:last-child` exactly of the last, `:only-child` exactly of a lone one;
/// `:first-of-type` exactly when no earlier sibling has its tag,
/// `:last-of-type` exactly when no later one has, `:only-of-type` exactly
/// when no other one has.
pub proof fn structural_pseudos_read_position(keys: Seq<Seq<char>>, k: int, ctx: CtxView)
    requires
        0 <= k < keys.len(),
        keys.len() <= usize::MAX,
        ctx.pos == pos_spec(keys, k),
    ensures
        pseudo_ok(PseudoView::FirstChild, ctx) <==> k == 0,
        pseudo_ok(PseudoView::LastChild, ctx) <==> k == keys.len() - 1,
        pseudo_ok(PseudoView::OnlyChild, ctx) <==> keys.len() == 1,
        pseudo_ok(PseudoView::FirstOfType, ctx) <==> forall|j: int| 0 <= j < k ==> keys[j] != keys[k],
        pseudo_ok(PseudoView::LastOfType, ctx) <==> forall|j: int| k < j < keys.len() ==> keys[j] != keys[k],
        pseudo_ok(PseudoView::OnlyOfType, ctx) <==> forall|j: int| 0 <= j < keys.len() && j != k ==> keys[j] != keys[k],
{
    let x = keys[k];
    let before = keys.take(k);
    let after = keys.skip(k + 1);
    assert(keys.take(k + 1) =~= before + seq![x]);
    assert(keys =~= keys.take(k + 1) + after);
    assert(seq![x].drop_last() =~= Seq::<Seq<char>>::empty());
    assert(count_eq(Seq::<Seq<char>>::empty(), x) == 0);
    assert(seq![x].last() == x);
    assert(count_eq(seq![x], x) == 1);
    lemma_count_eq_concat(before, seq![x], x);
    lemma_count_eq_concat(keys.take(k + 1), after, x);
    lemma_count_eq_bounds(before, x);
    lemma_count_eq_bounds(after, x);
    lemma_count_eq_bounds(keys, x);
    lemma_count_eq_bounds(keys.take(k + 1), x);
    assert(pos_spec(keys, k).of_type_index as int == count_eq(before, x) + 1);
    assert(pos_spec(keys, k).of_type_total as int == count_eq(before, x) + 1 + count_eq(after, x));
    assert((forall|j: int| 0 <= j < k ==> keys[j] != x) <==> (forall|j: int| 0 <= j < before.len() ==> before[j] != x)) by {
        if forall|j: int| 0 <= j < before.len() ==> before[j] != x {
            assert forall|j: int| 0 <= j < k implies keys[j] != x by {
                assert(before[j] == keys[j]);
            }
        }
    }
    assert((forall|j: int| k < j < keys.len() ==> keys[j] != x) <==> (forall|j: int| 0 <= j < after.len() ==> after[j] != x)) by {
        if forall|j: int| 0 <= j < after.len() ==> after[j] != x {
            assert forall|j: int| k < j < keys.len() implies keys[j] != x by {
                assert(after[j - k - 1] == keys[j]);
            }
        }
        if forall|j: int| k < j < keys.len() ==> keys[j] != x {
            assert forall|j: int| 0 <= j < after.len() implies after[j] != x by {
                assert(after[j] == keys[j + k + 1]);
            }
        }
    }
}


/// On an element whose inline `style` declares a property, the declaration
/// the cascade picks for that property sits at the inline level or above, or
/// is `!important`: no normal declaration of a style sheet, a token or a
/// presentational hint beats an inline one, whatever its specificity.
pub proof fn inline_style_wins(
    tag: TagView,
    attrs: Seq<AttrView>,
    path: Seq<CtxView>,
    cascade: CascadeView,
    hints: Seq<(Seq<char>, Option<Seq<char>>)>,
    st: Seq<char>,
    k: int,
)
    requires
        find_attr(attrs, "style"@) == Some(st),
        0 <= k < parse_declarations_spec(st).len(),
    ensures
        ({
            let p = parse_declarations_spec(st)[k].property;
            map_get(pick_spec(candidates_spec(tag, attrs, path, cascade, hints)), p) matches Some(e) && (e.0.0
                || e.0.1 >= 4)
        }),
{
    let decls = parse_declarations_spec(st);
    let p = decls[k].property;
    let cands = candidates_spec(tag, attrs, path, cascade, hints);
    let inline = push_decls_spec(decls, 4, (0, 0, 0), 0);
    let before = push_decls_spec(presentational_spec(tag, attrs, hints), 1, (0, 0, 0), 0) + push_decls_spec(
        cellpadding_spec(tag, path, hints),
        1,
        (0, 0, 0),
        0,
    ) + collect_rules_spec(cascade.rules, path) + match find_attr(attrs, "t:style"@) {
        Some(ts) => push_decls_spec(resolve_tokens_spec(ts, cascade.tokens), 2, (0, 0, 0), 0),
        None => Seq::empty(),
    };
    assert(cands == before + inline);
    let i = before.len() + k;
    assert(cands[i] == inline[k]);
    assert(cands[i].property == p);
    assert(cands[i].key.1 == 4);
    cascade_winner_is_greatest(cands, p);
    let e = map_get(pick_spec(cands), p).unwrap();
    assert(!key_lt(e.0, cands[i].key));
    cascade_order(e.0, cands[i].key);
}


/// `:nth-child(an+b)` counts 1-based positions: `:nth-child(1)` is
/// `:first-child`, `:nth-child(2n+1)` holds of the odd positions and
/// `:nth-child(2n)` of the even ones; `:nth-of-type(1)` is `:first-of-type`.
pub proof fn nth_child_counts_from_one(ctx: CtxView)
    requires
        1 <= ctx.pos.index <= i32::MAX,
        1 <= ctx.pos.of_type_index <= i32::MAX,
    ensures
        pseudo_ok(PseudoView::NthChild(0, 1), ctx) == pseudo_ok(PseudoView::FirstChild, ctx),
        pseudo_ok(PseudoView::NthChild(2, 1), ctx) <==> ctx.pos.index % 2 == 1,
        pseudo_ok(PseudoView::NthChild(2, 0), ctx) <==> ctx.pos.index % 2 == 0,
        pseudo_ok(PseudoView::NthOfType(0, 1), ctx) == pseudo_ok(PseudoView::FirstOfType, ctx),
{
    let idx = ctx.pos.index as int;
    assert((ctx.pos.index as i32) as int == idx);
    if idx % 2 == 1 {
        let w = (idx - 1) / 2;
        assert(2 * w == idx - 1);
        assert(nth_ok(2, 1, ctx.pos.index));
    } else {
        let w = idx / 2;
        assert(2 * w == idx);
        assert(nth_ok(2, 0, ctx.pos.index));
    }
    if nth_ok(2, 1, ctx.pos.index) {
        let w = choose|w: int| w >= 0 && #[trigger] (2 * w) == idx - 1;
        assert(idx % 2 == 1);
    }
    if nth_ok(2, 0, ctx.pos.index) {
        let w = choose|w: int| w >= 0 && #[trigger] (2 * w) == idx - 0;
        assert(idx % 2 == 0);
    }
}

} // verus!
