//! Internal links and cross-references: one pass over the paginated pages
//! records each anchor (a named destination) and each internal link (a link
//! annotation). Each destination name keeps the first anchor of that name in
//! page and document order, and destinations are kept sorted by name, so
//! the output is deterministic; links keep page and document order. A
//! fragment is identified by a key through which the caller finds its
//! geometry again.
use vstd::prelude::*;
use crate::chars::{chars_eq, chars_of};
use crate::style::cascade::{keys_sorted, lemma_insert_at, map_get, sorted_insert, sorted_insert_keeps_order, text_less, text_lt};

verus! {

/// What cross-referencing reads of a placed fragment: the anchor name it
/// defines, the link target it carries, the key of the fragment, and its
/// children in paint order.
pub struct XrefFrag {
    pub anchor: Option<String>,
    pub link_href: Option<String>,
    pub key: usize,
    pub children: Vec<XrefFrag>,
}

/// The plain-value picture of an [`XrefFrag`].
pub struct XrefFragV {
    pub anchor: Option<Seq<char>>,
    pub link: Option<Seq<char>>,
    pub key: usize,
    pub children: Seq<XrefFragV>,
}

/// The view of an optional string.
pub open spec fn opt_chars(o: Option<String>) -> Option<Seq<char>> {
    match o {
        Some(s) => Some(s@),
        None => None,
    }
}

/// The view of a fragment.
pub open spec fn xfrag_view(f: XrefFrag) -> XrefFragV
    decreases f, 1nat,
{
    XrefFragV {
        anchor: opt_chars(f.anchor),
        link: opt_chars(f.link_href),
        key: f.key,
        children: xfrags_view(f.children@),
    }
}

/// The views of a list of fragments.
pub open spec fn xfrags_view(s: Seq<XrefFrag>) -> Seq<XrefFragV>
    decreases s, 0nat,
{
    if s.len() == 0 {
        seq![]
    } else {
        xfrags_view(s.drop_last()).push(xfrag_view(s.last()))
    }
}

/// The anchors of a fragment and its descendants, in document order: each
/// name with the key of the fragment defining it.
pub open spec fn anchors_of(f: XrefFragV) -> Seq<(Seq<char>, usize)>
    decreases f, 1nat,
{
    (match f.anchor {
        Some(a) => seq![(a, f.key)],
        None => seq![],
    }) + anchors_all(f.children)
}

/// The anchors of a list of fragments, in document order.
pub open spec fn anchors_all(fs: Seq<XrefFragV>) -> Seq<(Seq<char>, usize)>
    decreases fs, 0nat,
{
    if fs.len() == 0 {
        seq![]
    } else {
        anchors_all(fs.drop_last()) + anchors_of(fs.last())
    }
}

/// The links of a fragment and its descendants, in document order: each
/// target with the key of the fragment carrying it.
pub open spec fn links_of(f: XrefFragV) -> Seq<(Seq<char>, usize)>
    decreases f, 1nat,
{
    (match f.link {
        Some(t) => seq![(t, f.key)],
        None => seq![],
    }) + links_all(f.children)
}

/// The links of a list of fragments, in document order.
pub open spec fn links_all(fs: Seq<XrefFragV>) -> Seq<(Seq<char>, usize)>
    decreases fs, 0nat,
{
    if fs.len() == 0 {
        seq![]
    } else {
        links_all(fs.drop_last()) + links_of(fs.last())
    }
}

/// The destinations after recording `anchors` on `page`: a name already
/// recorded keeps its first anchor, a new one is inserted in name order.
pub open spec fn dest_fold(
    m: Seq<(Seq<char>, (usize, usize))>,
    page: usize,
    anchors: Seq<(Seq<char>, usize)>,
) -> Seq<(Seq<char>, (usize, usize))>
    decreases anchors.len(),
{
    if anchors.len() == 0 {
        m
    } else {
        let m1 = dest_fold(m, page, anchors.drop_last());
        let (name, key) = anchors.last();
        if map_get(m1, name) is Some {
            m1
        } else {
            sorted_insert(m1, name, (page, key))
        }
    }
}

/// The destinations of a run of pages: name, then page index and key.
pub open spec fn dests_spec(pages: Seq<Seq<XrefFragV>>) -> Seq<(Seq<char>, (usize, usize))>
    decreases pages.len(),
{
    if pages.len() == 0 {
        seq![]
    } else {
        dest_fold(dests_spec(pages.drop_last()), (pages.len() - 1) as usize, anchors_all(pages.last()))
    }
}

/// A destination: the page it is on and the key of its anchor fragment.
pub struct DestAt {
    pub page: usize,
    pub key: usize,
}

/// An internal link: the destination name it targets and the key of its
/// fragment.
pub struct LinkAt {
    pub target: String,
    pub key: usize,
}

/// The view of a list of destinations.
pub open spec fn dests_view(s: Seq<(String, DestAt)>) -> Seq<(Seq<char>, (usize, usize))> {
    s.map_values(|d: (String, DestAt)| (d.0@, (d.1.page, d.1.key)))
}

/// The view of a list of links.
pub open spec fn links_view(s: Seq<LinkAt>) -> Seq<(Seq<char>, usize)> {
    s.map_values(|l: LinkAt| (l.target@, l.key))
}

/// The cross-reference data of a document.
pub struct Xref {
    /// Destination name to its target, sorted by name.
    pub dests: Vec<(String, DestAt)>,
    /// Links per page, in page then document order.
    pub links: Vec<Vec<LinkAt>>,
}

/// The views of the fragments of each page.
pub open spec fn pages_view(pages: Seq<Vec<XrefFrag>>) -> Seq<Seq<XrefFragV>> {
    pages.map_values(|p: Vec<XrefFrag>| xfrags_view(p@))
}

proof fn lemma_dest_fold_add(
    m: Seq<(Seq<char>, (usize, usize))>,
    page: usize,
    a: Seq<(Seq<char>, usize)>,
    b: Seq<(Seq<char>, usize)>,
)
    ensures
        dest_fold(m, page, a + b) == dest_fold(dest_fold(m, page, a), page, b),
    decreases b.len(),
{
    if b.len() == 0 {
        assert(a + b =~= a);
    } else {
        lemma_dest_fold_add(m, page, a, b.drop_last());
        assert((a + b).drop_last() =~= a + b.drop_last());
        assert((a + b).last() == b.last());
    }
}

proof fn lemma_xfrags_index(s: Seq<XrefFrag>, i: int)
    requires
        0 <= i < s.len(),
    ensures
        xfrags_view(s).len() == s.len(),
        xfrags_view(s)[i] == xfrag_view(s[i]),
        xfrags_view(s.take(i + 1)) == xfrags_view(s).take(i + 1),
        xfrags_view(s.take(i)) == xfrags_view(s).take(i),
    decreases s.len(),
{
    lemma_xfrags_len(s);
    if i + 1 < s.len() {
        lemma_xfrags_index(s.drop_last(), i);
        assert(s.drop_last().take(i + 1) =~= s.take(i + 1));
        assert(s.drop_last().take(i) =~= s.take(i));
    } else {
        assert(s.take(i + 1) =~= s);
        assert(s.take(i) =~= s.drop_last());
    }
}

proof fn lemma_xfrags_len(s: Seq<XrefFrag>)
    ensures
        xfrags_view(s).len() == s.len(),
    decreases s.len(),
{
    if s.len() > 0 {
        lemma_xfrags_len(s.drop_last());
    }
}

/// Whether a destination of this name is already recorded.
fn has_dest(dests: &Vec<(String, DestAt)>, name: &Vec<char>) -> (res: bool)
    ensures
        res == (map_get(dests_view(dests@), name@) is Some),
{
    let ghost s = dests_view(dests@);
    let mut i: usize = 0;
    assert(s.skip(0) =~= s);
    while i < dests.len()
        invariant
            i <= dests@.len(),
            s == dests_view(dests@),
            map_get(s, name@) == map_get(s.skip(i as int), name@),
        decreases dests@.len() - i,
    {
        let key = chars_of(dests[i].0.as_str());
        assert(s.skip(i as int)[0] == s[i as int]);
        if chars_eq(key.as_slice(), name.as_slice()) {
            return true;
        }
        assert(s.skip(i as int).drop_first() =~= s.skip(i + 1));
        i += 1;
    }
    assert(s.skip(i as int) =~= Seq::<(Seq<char>, (usize, usize))>::empty());
    false
}

/// Insert a destination in name order (replacing one of the same name).
fn insert_dest(dests: &mut Vec<(String, DestAt)>, name: String, at: DestAt)
    ensures
        dests_view(final(dests)@) == sorted_insert(dests_view(old(dests)@), name@, (at.page, at.key)),
{
    let kc = chars_of(name.as_str());
    let ghost s0 = dests_view(dests@);
    let ghost v = (at.page, at.key);
    let mut i: usize = 0;
    while i < dests.len()
        invariant
            i <= dests@.len(),
            kc@ == name@,
            dests@ == old(dests)@,
            s0 == dests_view(dests@),
            v == (at.page, at.key),
            forall|j: int| 0 <= j < i ==> s0[j].0 != name@ && !text_lt(name@, #[trigger] s0[j].0),
        decreases dests@.len() - i,
    {
        let key = chars_of(dests[i].0.as_str());
        if chars_eq(key.as_slice(), kc.as_slice()) {
            proof {
                lemma_insert_at(s0, name@, v, i as int);
            }
            let ghost kv = (name@, v);
            dests.set(i, (name, at));
            assert(dests_view(dests@) =~= s0.update(i as int, kv));
            return;
        }
        if text_less(kc.as_slice(), key.as_slice()) {
            proof {
                lemma_insert_at(s0, name@, v, i as int);
            }
            let ghost kv = (name@, v);
            dests.insert(i, (name, at));
            assert(dests_view(dests@) =~= s0.insert(i as int, kv));
            return;
        }
        i += 1;
    }
    proof {
        lemma_insert_at(s0, name@, v, i as int);
    }
    let ghost kv = (name@, v);
    dests.push((name, at));
    assert(dests_view(dests@) =~= s0.push(kv));
}

/// Record a fragment's anchor and link, then its children's.
fn walk(f: &XrefFrag, page: usize, dests: &mut Vec<(String, DestAt)>, links: &mut Vec<LinkAt>)
    ensures
        dests_view(final(dests)@) == dest_fold(dests_view(old(dests)@), page, anchors_of(xfrag_view(*f))),
        links_view(final(links)@) == links_view(old(links)@) + links_of(xfrag_view(*f)),
    decreases f, 1nat,
{
    let ghost fv = xfrag_view(*f);
    let ghost m0 = dests_view(dests@);
    let ghost l0 = links_view(links@);
    let ghost own_a: Seq<(Seq<char>, usize)> = match fv.anchor {
        Some(a) => seq![(a, fv.key)],
        None => seq![],
    };
    let ghost own_l: Seq<(Seq<char>, usize)> = match fv.link {
        Some(t) => seq![(t, fv.key)],
        None => seq![],
    };
    match &f.anchor {
        Some(name) => {
            let nc = chars_of(name.as_str());
            proof {
                assert(own_a == seq![(name@, f.key)]);
                assert(own_a.drop_last() =~= Seq::<(Seq<char>, usize)>::empty());
                assert(dest_fold(m0, page, own_a.drop_last()) == m0);
                assert(own_a.last() == (name@, f.key));
            }
            if !has_dest(dests, &nc) {
                insert_dest(dests, name.clone(), DestAt { page, key: f.key });
            }
        },
        None => {
            assert(own_a =~= Seq::<(Seq<char>, usize)>::empty());
        },
    }
    assert(dests_view(dests@) == dest_fold(m0, page, own_a));
    match &f.link_href {
        Some(target) => {
            let ghost before = links@;
            links.push(LinkAt { target: target.clone(), key: f.key });
            assert(links_view(links@) =~= links_view(before) + own_l);
        },
        None => {
            assert(links_view(links@) =~= l0 + own_l);
        },
    }
    let ghost m1 = dests_view(dests@);
    let ghost l1 = links_view(links@);
    walk_all(&f.children, page, dests, links);
    proof {
        lemma_dest_fold_add(m0, page, own_a, anchors_all(fv.children));
        assert(l1 + links_all(fv.children) =~= l0 + (own_l + links_all(fv.children)));
    }
}

/// Record a list of fragments in order.
fn walk_all(fs: &Vec<XrefFrag>, page: usize, dests: &mut Vec<(String, DestAt)>, links: &mut Vec<LinkAt>)
    ensures
        dests_view(final(dests)@) == dest_fold(dests_view(old(dests)@), page, anchors_all(xfrags_view(fs@))),
        links_view(final(links)@) == links_view(old(links)@) + links_all(xfrags_view(fs@)),
    decreases fs, 0nat,
{
    let ghost sv = xfrags_view(fs@);
    let ghost m0 = dests_view(dests@);
    let ghost l0 = links_view(links@);
    let mut i: usize = 0;
    proof {
        lemma_xfrags_len(fs@);
        assert(sv.take(0) =~= Seq::<XrefFragV>::empty());
        assert(l0 + Seq::<(Seq<char>, usize)>::empty() =~= l0);
    }
    while i < fs.len()
        invariant
            i <= fs@.len(),
            sv == xfrags_view(fs@),
            sv.len() == fs@.len(),
            dests_view(dests@) == dest_fold(m0, page, anchors_all(sv.take(i as int))),
            links_view(links@) == l0 + links_all(sv.take(i as int)),
        decreases fs.len() - i,
    {
        assert(decreases_to!(fs => fs@[i as int]));
        proof {
            lemma_xfrags_index(fs@, i as int);
            assert(sv.take(i + 1).drop_last() =~= sv.take(i as int));
            assert(sv.take(i + 1).last() == xfrag_view(fs@[i as int]));
        }
        let ghost m1 = dests_view(dests@);
        let ghost l1 = links_view(links@);
        walk(&fs[i], page, dests, links);
        proof {
            let fv = xfrag_view(fs@[i as int]);
            lemma_dest_fold_add(m0, page, anchors_all(sv.take(i as int)), anchors_of(fv));
            assert(l0 + links_all(sv.take(i + 1)) =~= l1 + links_of(fv));
        }
        i += 1;
    }
    proof {
        assert(sv.take(i as int) =~= sv);
    }
}

impl Xref {
    /// Walk every fragment of every page (each page's fragments in paint
    /// order), recording anchors and links.
    pub fn collect(pages: &Vec<Vec<XrefFrag>>) -> (res: Xref)
        ensures
            dests_view(res.dests@) == dests_spec(pages_view(pages@)),
            res.links@.len() == pages@.len(),
            forall|p: int|
                0 <= p < pages@.len() ==> links_view(#[trigger] res.links@[p]@) == links_all(
                    xfrags_view(pages@[p]@),
                ),
    {
        let ghost pv = pages_view(pages@);
        let mut dests: Vec<(String, DestAt)> = Vec::new();
        let mut links: Vec<Vec<LinkAt>> = Vec::new();
        let mut p: usize = 0;
        assert(dests_view(dests@) =~= Seq::<(Seq<char>, (usize, usize))>::empty());
        assert(pv.take(0) =~= Seq::<Seq<XrefFragV>>::empty());
        while p < pages.len()
            invariant
                p <= pages@.len(),
                pv == pages_view(pages@),
                dests_view(dests@) == dests_spec(pv.take(p as int)),
                links@.len() == p,
                forall|q: int|
                    0 <= q < p ==> links_view(#[trigger] links@[q]@) == links_all(xfrags_view(pages@[q]@)),
            decreases pages.len() - p,
        {
            assert(pv.take(p + 1).drop_last() =~= pv.take(p as int));
            assert(pv.take(p + 1).last() == xfrags_view(pages@[p as int]@));
            let mut page_links: Vec<LinkAt> = Vec::new();
            assert(links_view(page_links@) =~= Seq::<(Seq<char>, usize)>::empty());
            walk_all(&pages[p], p, &mut dests, &mut page_links);
            assert(links_view(page_links@) =~= links_all(xfrags_view(pages@[p as int]@)));
            links.push(page_links);
            p += 1;
        }
        assert(pv.take(p as int) =~= pv);
        Xref { dests, links }
    }

    /// The number of link annotations, summed over pages.
    pub fn link_count(&self) -> (res: usize)
        requires
            total_links(self.links@) <= usize::MAX,
        ensures
            res == total_links(self.links@),
    {
        let mut n: usize = 0;
        let mut p: usize = 0;
        while p < self.links.len()
            invariant
                p <= self.links@.len(),
                n == total_links(self.links@.take(p as int)),
                total_links(self.links@) <= usize::MAX,
            decreases self.links.len() - p,
        {
            proof {
                assert(self.links@.take(p + 1).drop_last() =~= self.links@.take(p as int));
                lemma_total_prefix(self.links@, p + 1);
            }
            n = n + self.links[p].len();
            p += 1;
        }
        assert(self.links@.take(p as int) =~= self.links@);
        n
    }

    /// Whether the document defines any named destinations.
    pub fn has_dests(&self) -> (res: bool)
        ensures
            res == (self.dests@.len() > 0),
    {
        self.dests.len() > 0
    }
}

/// The number of links over all pages.
pub open spec fn total_links(s: Seq<Vec<LinkAt>>) -> int
    decreases s.len(),
{
    if s.len() == 0 {
        0
    } else {
        total_links(s.drop_last()) + s.last()@.len()
    }
}

proof fn lemma_total_prefix(s: Seq<Vec<LinkAt>>, i: int)
    requires
        0 <= i <= s.len(),
    ensures
        0 <= total_links(s.take(i)) <= total_links(s),
    decreases s.len() - i,
{
    if i < s.len() {
        lemma_total_prefix(s, i + 1);
        assert(s.take(i + 1).drop_last() =~= s.take(i));
    } else {
        assert(s.take(i) =~= s);
    }
    lemma_total_nonneg(s.take(i));
}

proof fn lemma_total_nonneg(s: Seq<Vec<LinkAt>>)
    ensures
        0 <= total_links(s),
    decreases s.len(),
{
    if s.len() > 0 {
        lemma_total_nonneg(s.drop_last());
    }
}

/// The first anchor of `name` in a list of anchors, if any.
pub open spec fn first_anchor(anchors: Seq<(Seq<char>, usize)>, name: Seq<char>) -> Option<usize>
    decreases anchors.len(),
{
    if anchors.len() == 0 {
        None
    } else {
        match first_anchor(anchors.drop_last(), name) {
            Some(k) => Some(k),
            None => if anchors.last().0 == name {
                Some(anchors.last().1)
            } else {
                None
            },
        }
    }
}

/// The first anchor of `name` over a run of pages, with its page.
pub open spec fn first_dest(pages: Seq<Seq<XrefFragV>>, name: Seq<char>) -> Option<(usize, usize)>
    decreases pages.len(),
{
    if pages.len() == 0 {
        None
    } else {
        match first_dest(pages.drop_last(), name) {
            Some(d) => Some(d),
            None => match first_anchor(anchors_all(pages.last()), name) {
                Some(k) => Some(((pages.len() - 1) as usize, k)),
                None => None,
            },
        }
    }
}

proof fn lemma_dest_fold_get(
    m: Seq<(Seq<char>, (usize, usize))>,
    page: usize,
    anchors: Seq<(Seq<char>, usize)>,
    name: Seq<char>,
)
    ensures
        map_get(dest_fold(m, page, anchors), name) == match map_get(m, name) {
            Some(d) => Some(d),
            None => match first_anchor(anchors, name) {
                Some(k) => Some((page, k)),
                None => None,
            },
        },
    decreases anchors.len(),
{
    if anchors.len() > 0 {
        let m1 = dest_fold(m, page, anchors.drop_last());
        lemma_dest_fold_get(m, page, anchors.drop_last(), name);
        let (n, k) = anchors.last();
        if !(map_get(m1, n) is Some) {
            crate::style::cascade::sorted_insert_then_get(m1, n, (page, k), name);
        }
    }
}

/// Each destination name keeps the first anchor of that name in page and
/// document order, and a name no anchor defines has no destination.
pub proof fn first_anchor_wins(pages: Seq<Seq<XrefFragV>>, name: Seq<char>)
    ensures
        map_get(dests_spec(pages), name) == first_dest(pages, name),
    decreases pages.len(),
{
    if pages.len() > 0 {
        first_anchor_wins(pages.drop_last(), name);
        lemma_dest_fold_get(
            dests_spec(pages.drop_last()),
            (pages.len() - 1) as usize,
            anchors_all(pages.last()),
            name,
        );
    }
}


proof fn lemma_dest_fold_sorted(
    m: Seq<(Seq<char>, (usize, usize))>,
    page: usize,
    anchors: Seq<(Seq<char>, usize)>,
)
    requires
        keys_sorted(m),
    ensures
        keys_sorted(dest_fold(m, page, anchors)),
    decreases anchors.len(),
{
    if anchors.len() > 0 {
        lemma_dest_fold_sorted(m, page, anchors.drop_last());
        let m1 = dest_fold(m, page, anchors.drop_last());
        let (name, key) = anchors.last();
        sorted_insert_keeps_order(m1, name, (page, key));
    }
}

/// The destinations are listed in strictly increasing name order, so each
/// name appears once and the output does not depend on the walk.
pub proof fn destinations_are_sorted_by_name(pages: Seq<Seq<XrefFragV>>)
    ensures
        keys_sorted(dests_spec(pages)),
    decreases pages.len(),
{
    if pages.len() > 0 {
        destinations_are_sorted_by_name(pages.drop_last());
        lemma_dest_fold_sorted(dests_spec(pages.drop_last()), (pages.len() - 1) as usize, anchors_all(pages.last()));
    }
}

} // verus!
