//! Named style tokens: semantic property bundles referenced by `t:style="a b"`,
//! decoupled from selectors. Tokens may `extends` other tokens; later tokens
//! and the extending token win on conflict, resolved by cascade source order.
use vstd::prelude::*;
use crate::chars::{chars_of, chars_eq, split_words, texts_view, words};
use crate::style::parser::{DeclView, Declaration, decls_view};

verus! {

/// A named bundle of declarations, optionally extending other tokens.
#[derive(Debug, Clone, PartialEq, Eq)]
pub struct StyleToken {
    pub extends: Vec<String>,
    pub declarations: Vec<Declaration>,
}

impl Default for StyleToken {
    fn default() -> (res: StyleToken)
        ensures
            res.extends@.len() == 0,
            res.declarations@.len() == 0,
    {
        StyleToken { extends: Vec::new(), declarations: Vec::new() }
    }
}

/// The plain-value picture of a [`StyleToken`].
pub struct StyleTokenView {
    pub extends: Seq<Seq<char>>,
    pub declarations: Seq<DeclView>,
}

impl View for StyleToken {
    type V = StyleTokenView;

    open spec fn view(&self) -> StyleTokenView {
        StyleTokenView {
            extends: self.extends@.map_values(|s: String| s@),
            declarations: decls_view(self.declarations@),
        }
    }
}

/// The registered token set, keyed by name.
#[derive(Debug, Clone)]
pub struct TokenSet {
    entries: Vec<(String, StyleToken)>,
}

/// The first token registered under `name` among `s`.
pub open spec fn lookup(s: Seq<(Seq<char>, StyleTokenView)>, name: Seq<char>) -> Option<StyleTokenView>
    decreases s.len(),
{
    if s.len() == 0 {
        None
    } else if s[0].0 == name {
        Some(s[0].1)
    } else {
        lookup(s.drop_first(), name)
    }
}

/// The first index of an entry named `name`, if any.
pub open spec fn first_entry(s: Seq<(Seq<char>, StyleTokenView)>, name: Seq<char>, i: int) -> Option<int>
    decreases s.len() - i,
{
    if i < 0 || i >= s.len() {
        None
    } else if s[i].0 == name {
        Some(i)
    } else {
        first_entry(s, name, i + 1)
    }
}

impl View for TokenSet {
    type V = Seq<(Seq<char>, StyleTokenView)>;

    closed spec fn view(&self) -> Seq<(Seq<char>, StyleTokenView)> {
        self.entries@.map_values(|e: (String, StyleToken)| (e.0@, e.1@))
    }
}

proof fn lemma_lookup_skip(s: Seq<(Seq<char>, StyleTokenView)>, name: Seq<char>, i: int)
    requires
        0 <= i <= s.len(),
        forall|j: int| 0 <= j < i ==> s[j].0 != name,
    ensures
        lookup(s, name) == lookup(s.skip(i), name),
    decreases i,
{
    if i > 0 {
        assert(s.skip(1).skip(i - 1) =~= s.skip(i));
        lemma_lookup_skip(s.drop_first(), name, i - 1);
    } else {
        assert(s.skip(0) =~= s);
    }
}

proof fn lemma_lookup_update(s: Seq<(Seq<char>, StyleTokenView)>, i: int, name: Seq<char>, v: StyleTokenView, k: Seq<char>)
    requires
        0 <= i < s.len(),
        s[i].0 == name,
        forall|j: int| 0 <= j < i ==> s[j].0 != name,
    ensures
        lookup(s.update(i, (name, v)), k) == (if k == name { Some(v) } else { lookup(s, k) }),
    decreases i,
{
    if i > 0 {
        assert(s.update(i, (name, v)).drop_first() =~= s.drop_first().update(i - 1, (name, v)));
        if s[0].0 != k {
            lemma_lookup_update(s.drop_first(), i - 1, name, v, k);
        }
    } else {
        assert(s.update(0, (name, v)).drop_first() =~= s.drop_first());
    }
}

proof fn lemma_lookup_push(s: Seq<(Seq<char>, StyleTokenView)>, name: Seq<char>, v: StyleTokenView, k: Seq<char>)
    requires
        forall|j: int| 0 <= j < s.len() ==> s[j].0 != name,
    ensures
        lookup(s.push((name, v)), k) == (if k == name { Some(v) } else { lookup(s, k) }),
    decreases s.len(),
{
    let t = s.push((name, v));
    if s.len() > 0 {
        assert(t.drop_first() =~= s.drop_first().push((name, v)));
        assert(t[0] == s[0]);
        assert(s[0].0 != name);
        if s[0].0 != k {
            assert forall|j: int| 0 <= j < s.drop_first().len() implies s.drop_first()[j].0 != name by {
                assert(s.drop_first()[j] == s[j + 1]);
            }
            lemma_lookup_push(s.drop_first(), name, v, k);
            assert(lookup(t, k) == lookup(t.drop_first(), k));
            assert(lookup(s, k) == lookup(s.drop_first(), k));
        } else {
            assert(lookup(t, k) == Some(t[0].1));
            assert(lookup(s, k) == Some(s[0].1));
        }
    } else {
        assert(t.drop_first() =~= Seq::<(Seq<char>, StyleTokenView)>::empty());
        assert(t[0] == (name, v));
        if k == name {
            assert(lookup(t, k) == Some(v));
        } else {
            assert(lookup(t, k) == lookup(t.drop_first(), k));
        }
    }
}

impl TokenSet {
    /// An empty token set.
    pub fn new() -> (res: TokenSet)
        ensures
            res@ == Seq::<(Seq<char>, StyleTokenView)>::empty(),
            forall|k: Seq<char>| lookup(res@, k) is None,
    {
        let res = TokenSet { entries: Vec::new() };
        assert(res@ =~= Seq::<(Seq<char>, StyleTokenView)>::empty());
        res
    }

    /// Register `token` under `name`, replacing any token of that name.
    pub fn insert(&mut self, name: String, token: StyleToken)
        ensures
            forall|k: Seq<char>|
                #![trigger lookup(final(self)@, k)]
                lookup(final(self)@, k) == (if k == name@ { Some(token@) } else { lookup(old(self)@, k) }),
    {
        let n = chars_of(name.as_str());
        let mut i: usize = 0;
        while i < self.entries.len()
            invariant
                i <= self.entries@.len(),
                n@ == name@,
                forall|j: int| 0 <= j < i ==> #[trigger] self@[j].0 != name@,
                self@.len() == self.entries@.len(),
                self.entries@ == old(self).entries@,
            decreases self.entries@.len() - i,
        {
            let key = chars_of(self.entries[i].0.as_str());
            if chars_eq(key.as_slice(), n.as_slice()) {
                let ghost before = self@;
                let ghost tv = token@;
                self.entries.set(i, (name, token));
                proof {
                    assert(self@ =~= before.update(i as int, (name@, tv)));
                    assert forall|k: Seq<char>| #[trigger]
                        lookup(self@, k) == (if k == name@ { Some(tv) } else { lookup(before, k) }) by {
                        lemma_lookup_update(before, i as int, name@, tv, k);
                    }
                }
                return;
            }
            i += 1;
        }
        let ghost before = self@;
        let ghost tv = token@;
        let ghost nv = name@;
        self.entries.push((name, token));
        proof {
            assert(self@ =~= before.push((nv, tv)));
            assert forall|k: Seq<char>| #[trigger]
                lookup(self@, k) == (if k == nv { Some(tv) } else { lookup(before, k) }) by {
                lemma_lookup_push(before, nv, tv, k);
            }
        }
    }

    /// The token registered under `name`, if any.
    pub fn get(&self, name: &str) -> (res: Option<&StyleToken>)
        ensures
            match res {
                Some(t) => lookup(self@, name@) == Some(t@),
                None => lookup(self@, name@) is None,
            },
    {
        let n = chars_of(name);
        let mut i: usize = 0;
        while i < self.entries.len()
            invariant
                i <= self.entries@.len(),
                n@ == name@,
                forall|j: int| 0 <= j < i ==> #[trigger] self@[j].0 != name@,
                self@.len() == self.entries@.len(),
            decreases self.entries@.len() - i,
        {
            let key = chars_of(self.entries[i].0.as_str());
            if chars_eq(key.as_slice(), n.as_slice()) {
                proof {
                    lemma_lookup_skip(self@, name@, i as int);
                    assert(self@.skip(i as int)[0] == self@[i as int]);
                }
                return Some(&self.entries[i].1);
            }
            i += 1;
        }
        proof {
            lemma_lookup_skip(self@, name@, i as int);
        }
        None
    }
}

impl Default for TokenSet {
    fn default() -> (res: TokenSet)
        ensures
            forall|k: Seq<char>| lookup(res@, k) is None,
    {
        TokenSet::new()
    }
}

/// Maximum `extends` resolution depth, guarding against cycles.
pub const MAX_DEPTH: u32 = 32;

/// The declarations token `name` contributes at `depth`: nothing at the depth
/// limit or for an unknown name, else those of the tokens it extends (in
/// order, one level deeper), then its own.
pub open spec fn resolve_spec(name: Seq<char>, set: Seq<(Seq<char>, StyleTokenView)>, depth: int) -> Seq<DeclView>
    decreases 32 - depth, 0nat,
{
    if depth >= 32 {
        Seq::empty()
    } else {
        match lookup(set, name) {
            None => Seq::empty(),
            Some(tok) => resolve_all(tok.extends, set, depth + 1) + tok.declarations,
        }
    }
}

/// The declarations the tokens `names` contribute at `depth`, in order.
pub open spec fn resolve_all(names: Seq<Seq<char>>, set: Seq<(Seq<char>, StyleTokenView)>, depth: int) -> Seq<DeclView>
    decreases 32 - depth, names.len(),
{
    if names.len() == 0 || depth > 32 {
        Seq::empty()
    } else {
        resolve_all(names.drop_last(), set, depth) + resolve_spec(names.last(), set, depth)
    }
}

/// A copy of a declaration.
pub fn copy_decl(d: &Declaration) -> (res: Declaration)
    ensures
        res@ == d@,
{
    Declaration { property: d.property.clone(), value: d.value.clone(), important: d.important }
}

fn resolve_into(name: &str, set: &TokenSet, depth: u32, out: &mut Vec<Declaration>)
    requires
        depth <= 32,
    ensures
        decls_view(final(out)@) == decls_view(old(out)@) + resolve_spec(name@, set@, depth as int),
    decreases 32 - depth,
{
    if depth >= MAX_DEPTH {
        assert(decls_view(out@) + Seq::<DeclView>::empty() =~= decls_view(out@));
        return;
    }
    let token = match set.get(name) {
        Some(t) => t,
        None => {
            assert(decls_view(out@) + Seq::<DeclView>::empty() =~= decls_view(out@));
            return;
        },
    };
    let ghost start = decls_view(out@);
    let ghost exts = token@.extends;
    let mut i: usize = 0;
    assert(exts.take(0) =~= Seq::<Seq<char>>::empty());
    assert(start + resolve_all(exts.take(0), set@, depth + 1) =~= start);
    while i < token.extends.len()
        invariant
            i <= token.extends@.len(),
            depth < 32,
            exts == token@.extends,
            exts.len() == token.extends@.len(),
            decls_view(out@) == start + resolve_all(exts.take(i as int), set@, depth + 1),
        decreases token.extends@.len() - i,
    {
        assert(exts.take(i + 1).drop_last() =~= exts.take(i as int));
        assert(exts[i as int] == token.extends@[i as int]@);
        resolve_into(token.extends[i].as_str(), set, depth + 1, out);
        assert(decls_view(out@) =~= start + resolve_all(exts.take(i + 1), set@, depth + 1));
        i += 1;
    }
    assert(exts.take(i as int) =~= exts);
    let mut k: usize = 0;
    let ghost mid = decls_view(out@);
    while k < token.declarations.len()
        invariant
            k <= token.declarations@.len(),
            decls_view(out@) == mid + decls_view(token.declarations@).take(k as int),
        decreases token.declarations@.len() - k,
    {
        let d = copy_decl(&token.declarations[k]);
        let ghost o0 = out@;
        out.push(d);
        assert(decls_view(out@) =~= decls_view(o0).push(d@));
        assert(decls_view(token.declarations@).take(k + 1) =~= decls_view(token.declarations@).take(k as int).push(
            token.declarations@[k as int]@,
        ));
        assert(decls_view(out@) =~= mid + decls_view(token.declarations@).take(k + 1));
        k += 1;
    }
    assert(decls_view(token.declarations@).take(k as int) =~= decls_view(token.declarations@));
    assert(decls_view(out@) =~= start + (resolve_all(exts, set@, depth + 1) + token@.declarations));
}

/// The declarations a `t:style` attribute value contributes: those of each
/// whitespace-separated token name, in order.
pub open spec fn resolve_tokens_spec(t_style: Seq<char>, set: Seq<(Seq<char>, StyleTokenView)>) -> Seq<DeclView> {
    resolve_all(words(t_style), set, 0)
}

/// Resolve the declarations contributed by a `t:style="a b c"` attribute, in
/// application order (later declarations override earlier ones via cascade
/// source order).
pub fn resolve_tokens(t_style: &str, set: &TokenSet) -> (res: Vec<Declaration>)
    ensures
        decls_view(res@) == resolve_tokens_spec(t_style@, set@),
{
    let s = chars_of(t_style);
    let names = split_words(s.as_slice());
    let ghost nv = texts_view(names@);
    let mut out: Vec<Declaration> = Vec::new();
    let mut i: usize = 0;
    assert(nv.take(0) =~= Seq::<Seq<char>>::empty());
    assert(decls_view(out@) =~= Seq::<DeclView>::empty());
    while i < names.len()
        invariant
            i <= names@.len(),
            nv == texts_view(names@),
            nv == words(s@),
            s@ == t_style@,
            decls_view(out@) == resolve_all(nv.take(i as int), set@, 0),
        decreases names@.len() - i,
    {
        assert(nv.take(i + 1).drop_last() =~= nv.take(i as int));
        assert(nv.take(i + 1).last() == names@[i as int]@);
        let name = crate::chars::string_of(names[i].as_slice());
        resolve_into(name.as_str(), set, 0, &mut out);
        i += 1;
    }
    assert(nv.take(i as int) =~= nv);
    out
}

} // verus!
