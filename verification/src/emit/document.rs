//! The document's object layout. Ids are 1-based: `1` catalog, `2` page
//! tree, then a page object and its content stream for each page, then the
//! font objects (a fixed number per face), then the image objects, then the
//! info dictionary, then the cross-reference objects (a `/Dests` dictionary
//! when any destination exists, one object per link annotation), then the two
//! archival objects (ICC profile and XMP metadata) when the render is PDF/A.
//! Objects are written in id order, so the layout — and the output — is
//! stable across runs; the tagged-PDF structure tree starts at the first id
//! after all of them.
use vstd::prelude::*;
use crate::emit::{objects_per_font, pdf_a_on, pdf_ua_on, EmitOptions};
use crate::emit::ua::UaPlan;
use crate::chars::{chars_of, string_of};

verus! {

/// The total of a list of counts.
pub open spec fn sum_counts(s: Seq<usize>) -> int
    decreases s.len(),
{
    if s.len() == 0 {
        0
    } else {
        sum_counts(s.drop_last()) + s.last()
    }
}

/// One id when the flag is set, else none.
pub open spec fn flag_count(b: bool) -> int {
    if b {
        1
    } else {
        0
    }
}

/// The fixed object layout for one build.
pub struct Plan {
    pub catalog: i32,
    pub page_tree: i32,
    /// `(page object, content stream)` for each page, in page order.
    pub page_refs: Vec<(i32, i32)>,
    /// The first font object; each face's objects follow contiguously.
    pub fonts_start: i32,
    /// The Type0 font object of each face, in resource order.
    pub font_refs: Vec<i32>,
    /// The first image object; the images follow the fonts contiguously.
    pub images_start: i32,
    pub info: i32,
    /// The `/Dests` dictionary; an object of the layout only when
    /// `has_dests`.
    pub dests: i32,
    pub has_dests: bool,
    /// The link annotation objects, in page and document order.
    pub link_refs: Vec<i32>,
    /// The link annotation objects of each page.
    pub page_annot_refs: Vec<Vec<i32>>,
    /// The ICC profile stream; an object of the layout only when `pdf_a`.
    pub icc: i32,
    /// The XMP metadata stream; an object of the layout only when `pdf_a`.
    pub xmp: i32,
    pub pdf_a: bool,
    pub pdf_ua: bool,
}

/// The id after the last object of a layout with the given counts.
pub open spec fn layout_end(
    pages: int,
    fonts: int,
    per_font: int,
    image_objects: int,
    has_dests: bool,
    links: int,
    pdf_a: bool,
) -> int {
    3 + 2 * pages + per_font * fonts + image_objects + 1 + flag_count(has_dests) + links + 2
        * flag_count(pdf_a)
}

/// The plan of a build with these counts, exactly as the layout describes.
pub open spec fn planned(
    plan: Plan,
    pages: int,
    fonts: int,
    per_font: int,
    image_objects: int,
    has_dests: bool,
    links: Seq<usize>,
    pdf_a: bool,
    pdf_ua: bool,
) -> bool {
    let fonts_start = 3 + 2 * pages;
    let images_start = fonts_start + per_font * fonts;
    let info = images_start + image_objects;
    let links_start = info + 1 + flag_count(has_dests);
    let archive_start = links_start + sum_counts(links);
    &&& plan.catalog == 1
    &&& plan.page_tree == 2
    &&& plan.page_refs@.len() == pages
    &&& forall|p: int|
        0 <= p < pages ==> (#[trigger] plan.page_refs@[p]).0 == 3 + 2 * p && plan.page_refs@[p].1 == 4
            + 2 * p
    &&& plan.fonts_start == fonts_start
    &&& plan.font_refs@.len() == fonts
    &&& forall|i: int| 0 <= i < fonts ==> #[trigger] plan.font_refs@[i] == fonts_start + per_font * i
    &&& plan.images_start == images_start
    &&& plan.info == info
    &&& plan.dests == info + 1
    &&& plan.has_dests == has_dests
    &&& plan.link_refs@.len() == sum_counts(links)
    &&& forall|k: int| 0 <= k < sum_counts(links) ==> #[trigger] plan.link_refs@[k] == links_start + k
    &&& plan.page_annot_refs@.len() == pages
    &&& forall|p: int|
        0 <= p < pages && p < links.len() ==> (#[trigger] plan.page_annot_refs@[p])@
            == plan.link_refs@.subrange(sum_counts(links.take(p)), sum_counts(links.take(p + 1)))
    &&& plan.icc == archive_start
    &&& plan.xmp == archive_start + 1
    &&& plan.pdf_a == pdf_a
    &&& plan.pdf_ua == pdf_ua
}

proof fn lemma_sum_take(s: Seq<usize>, p: int)
    requires
        0 <= p < s.len(),
    ensures
        sum_counts(s.take(p + 1)) == sum_counts(s.take(p)) + s[p],
        0 <= sum_counts(s.take(p)),
        sum_counts(s.take(p + 1)) <= sum_counts(s),
    decreases s.len() - p,
{
    assert(s.take(p + 1).drop_last() =~= s.take(p));
    lemma_sum_nonneg(s.take(p));
    if p + 1 < s.len() {
        lemma_sum_take(s, p + 1);
    } else {
        assert(s.take(p + 1) =~= s);
    }
}

proof fn lemma_sum_nonneg(s: Seq<usize>)
    ensures
        0 <= sum_counts(s),
    decreases s.len(),
{
    if s.len() > 0 {
        lemma_sum_nonneg(s.drop_last());
    }
}

/// The `(page, content)` object pair of each page, from `next` on two at a
/// time; `next` ends past them.
pub fn page_ref_pairs(count: usize, next: &mut i32) -> (res: Vec<(i32, i32)>)
    requires
        count > 0 ==> 1 <= *old(next),
        *old(next) + 2 * count <= i32::MAX,
    ensures
        res@.len() == count,
        forall|p: int|
            0 <= p < count ==> (#[trigger] res@[p]).0 == *old(next) + 2 * p && res@[p].1 == *old(next)
                + 2 * p + 1,
        *final(next) == *old(next) + 2 * count,
{
    let ghost start = *next;
    let mut out: Vec<(i32, i32)> = Vec::new();
    let mut i: usize = 0;
    while i < count
        invariant
            i <= count,
            out@.len() == i,
            *next == start + 2 * i,
            start + 2 * count <= i32::MAX,
            forall|p: int| 0 <= p < i ==> (#[trigger] out@[p]).0 == start + 2 * p && out@[p].1 == start + 2 * p + 1,
        decreases count - i,
    {
        out.push((*next, *next + 1));
        *next = *next + 2;
        i += 1;
    }
    out
}

/// The Type0 object of each face: the first of its `per_font` contiguous
/// objects.
pub fn type0_refs(start: i32, count: usize, per_font: i32) -> (res: Vec<i32>)
    requires
        count > 0 ==> 1 <= start,
        1 <= per_font,
        start + per_font * count <= i32::MAX,
    ensures
        res@.len() == count,
        forall|i: int| 0 <= i < count ==> #[trigger] res@[i] == start + per_font * i,
{
    proof {
        assert(count <= per_font * count) by (nonlinear_arith)
            requires
                1 <= per_font,
        ;
    }
    let mut out: Vec<i32> = Vec::new();
    let mut i: usize = 0;
    while i < count
        invariant
            i <= count <= i32::MAX,
            count > 0 ==> 1 <= start,
            1 <= per_font,
            start + per_font * count <= i32::MAX,
            out@.len() == i,
            forall|k: int| 0 <= k < i ==> #[trigger] out@[k] == start + per_font * k,
        decreases count - i,
    {
        proof {
            assert(0 <= per_font * i <= per_font * count) by (nonlinear_arith)
                requires
                    i < count,
                    1 <= per_font,
            ;
        }
        out.push(start + per_font * (i as i32));
        i += 1;
    }
    out
}

/// The cross-reference objects from `start`: the `/Dests` dictionary first
/// (an object only when there are destinations), then one per link.
pub fn xref_refs(start: i32, has_dests: bool, link_count: usize) -> (res: (i32, Vec<i32>))
    requires
        1 <= start,
        start + flag_count(has_dests) + link_count <= i32::MAX,
    ensures
        res.0 == start,
        res.1@.len() == link_count,
        forall|k: int| 0 <= k < link_count ==> #[trigger] res.1@[k] == start + flag_count(has_dests) + k,
{
    let mut next = start;
    let dests = next;
    if has_dests {
        next = next + 1;
    }
    let mut links: Vec<i32> = Vec::new();
    let mut k: usize = 0;
    while k < link_count
        invariant
            k <= link_count,
            next == start + flag_count(has_dests),
            1 <= start,
            start + flag_count(has_dests) + link_count <= i32::MAX,
            links@.len() == k,
            forall|j: int| 0 <= j < k ==> #[trigger] links@[j] == next + j,
        decreases link_count - k,
    {
        links.push(next + k as i32);
        k += 1;
    }
    (dests, links)
}

/// The number of ids the cross-reference objects take: an optional `/Dests`
/// dictionary plus one per link.
pub fn xref_object_count(has_dests: bool, link_count: usize) -> (res: i32)
    requires
        flag_count(has_dests) + link_count <= i32::MAX,
    ensures
        res == flag_count(has_dests) + link_count,
{
    let d: i32 = if has_dests {
        1
    } else {
        0
    };
    d + link_count as i32
}

/// The link annotation objects of page `page_idx`: the slice of the
/// document-order `link_refs` after the earlier pages' links.
pub fn page_annots(links: &Vec<usize>, page_idx: usize, link_refs: &Vec<i32>) -> (res: Vec<i32>)
    requires
        page_idx < links@.len(),
        sum_counts(links@) <= link_refs.len(),
    ensures
        res@ == link_refs@.subrange(
            sum_counts(links@.take(page_idx as int)),
            sum_counts(links@.take(page_idx + 1)),
        ),
{
    proof {
        lemma_sum_take(links@, page_idx as int);
    }
    let mut start: usize = 0;
    let mut i: usize = 0;
    while i < page_idx
        invariant
            i <= page_idx < links@.len(),
            start == sum_counts(links@.take(i as int)),
            sum_counts(links@.take(page_idx as int)) + links@[page_idx as int] <= sum_counts(links@)
                <= link_refs.len(),
        decreases page_idx - i,
    {
        proof {
            lemma_sum_take(links@, i as int);
            lemma_sum_take(links@, page_idx as int);
            if i + 1 < page_idx {
                lemma_prefix_le(links@, i + 1, page_idx as int);
            } else {
                assert(i + 1 == page_idx);
            }
        }
        start = start + links[i];
        i += 1;
    }
    let end = start + links[page_idx];
    let mut out: Vec<i32> = Vec::new();
    let mut k: usize = start;
    while k < end
        invariant
            start <= k <= end <= link_refs@.len(),
            out@ == link_refs@.subrange(start as int, k as int),
        decreases end - k,
    {
        out.push(link_refs[k]);
        k += 1;
    }
    out
}

proof fn lemma_prefix_le(s: Seq<usize>, a: int, b: int)
    requires
        0 <= a <= b <= s.len(),
    ensures
        sum_counts(s.take(a)) <= sum_counts(s.take(b)),
    decreases b - a,
{
    if a < b {
        lemma_prefix_le(s, a, b - 1);
        lemma_sum_take(s, b - 1);
    }
}

impl Plan {
    /// Lay out the objects of a build: `page_count` pages, `font_count` faces,
    /// `image_objects` image objects, the cross-reference objects (whether any
    /// destination exists, and each page's count of links) and the render's
    /// archival and tagged flags. Ids are positive `i32`s.
    pub fn new(
        page_count: usize,
        font_count: usize,
        image_objects: i32,
        has_dests: bool,
        links: &Vec<usize>,
        opts: &EmitOptions,
    ) -> (res: Plan)
        requires
            0 <= image_objects,
            links@.len() == page_count,
            layout_end(
                page_count as int,
                font_count as int,
                if opts.pdf_ua {
                    5
                } else {
                    4
                },
                image_objects as int,
                has_dests,
                sum_counts(links@),
                false,
            ) + 1 <= i32::MAX,
        ensures
            planned(
                res,
                page_count as int,
                font_count as int,
                if opts.pdf_ua {
                    5
                } else {
                    4
                },
                image_objects as int,
                has_dests,
                links@,
                opts.pdf_a,
                opts.pdf_ua,
            ),
    {
        let pdf_ua = pdf_ua_on(opts);
        let per_font = objects_per_font(pdf_ua);
        let ghost total = sum_counts(links@);
        proof {
            lemma_sum_nonneg(links@);
            assert(0 <= font_count <= per_font * font_count) by (nonlinear_arith)
                requires
                    1 <= per_font,
            ;
        }
        let mut next: i32 = 3;
        let page_refs = page_ref_pairs(page_count, &mut next);
        let fonts_start = next;
        let font_refs = type0_refs(fonts_start, font_count, per_font);
        let images_start = fonts_start + per_font * font_count as i32;
        let info = images_start + image_objects;
        let mut link_count: usize = 0;
        let mut i: usize = 0;
        while i < links.len()
            invariant
                i <= links@.len(),
                link_count == sum_counts(links@.take(i as int)),
                total == sum_counts(links@),
                info + 1 + flag_count(has_dests) + total <= i32::MAX,
            decreases links.len() - i,
        {
            proof {
                lemma_sum_take(links@, i as int);
            }
            link_count = link_count + links[i];
            i += 1;
        }
        proof {
            assert(links@.take(i as int) =~= links@);
        }
        let (dests, link_refs) = xref_refs(info + 1, has_dests, link_count);
        let mut page_annot_refs: Vec<Vec<i32>> = Vec::new();
        let mut p: usize = 0;
        while p < page_count
            invariant
                p <= page_count,
                links@.len() == page_count,
                link_refs@.len() == sum_counts(links@),
                page_annot_refs@.len() == p,
                forall|q: int|
                    0 <= q < p ==> (#[trigger] page_annot_refs@[q])@ == link_refs@.subrange(
                        sum_counts(links@.take(q)),
                        sum_counts(links@.take(q + 1)),
                    ),
            decreases page_count - p,
        {
            page_annot_refs.push(page_annots(links, p, &link_refs));
            p += 1;
        }
        let pdf_a = pdf_a_on(opts);
        let archive_start = info + 1 + xref_object_count(has_dests, link_count);
        let icc = archive_start;
        let xmp = archive_start + 1;
        Plan {
            catalog: 1,
            page_tree: 2,
            page_refs,
            fonts_start,
            font_refs,
            images_start,
            info,
            dests,
            has_dests,
            link_refs,
            page_annot_refs,
            icc,
            xmp,
            pdf_a,
            pdf_ua,
        }
    }

    /// The first id the layout leaves free: where the tagged-PDF structure
    /// tree begins.
    pub fn next_free_id(&self) -> (res: i32)
        requires
            1 <= self.info,
            self.info + 1 + flag_count(self.has_dests) + self.link_refs@.len() + 2 * flag_count(
                self.pdf_a,
            ) <= i32::MAX,
        ensures
            res == self.info + 1 + flag_count(self.has_dests) + self.link_refs@.len() + 2
                * flag_count(self.pdf_a),
    {
        let mut next = self.info + 1;
        next = next + xref_object_count(self.has_dests, self.link_refs.len());
        if self.pdf_a {
            next = next + 2;
        }
        next
    }
}


// ---------------------------------------------------------------------------
// The catalog
// ---------------------------------------------------------------------------
/// One entry of the document catalog, in the order it is written.
#[derive(Debug, PartialEq, Eq)]
pub enum CatalogEntry {
    /// `/Pages`: the page tree.
    Pages(i32),
    /// `/Dests`: the named-destination dictionary.
    Dests(i32),
    /// `/Metadata`: the XMP metadata stream.
    Metadata(i32),
    /// `/OutputIntents`: the sRGB archival output intent over this profile.
    OutputIntent(i32),
    /// `/StructTreeRoot`: the structure-tree root.
    StructTreeRoot(i32),
    /// `/MarkInfo << /Marked true >>`.
    MarkInfo,
    /// `/Lang`: the document's language.
    Lang(String),
    /// `/ViewerPreferences << /DisplayDocTitle true >>`.
    DisplayDocTitle,
}

/// The plain-value picture of a [`CatalogEntry`].
pub enum CatalogEntryV {
    Pages(i32),
    Dests(i32),
    Metadata(i32),
    OutputIntent(i32),
    StructTreeRoot(i32),
    MarkInfo,
    Lang(Seq<char>),
    DisplayDocTitle,
}

/// The view of a catalog entry.
pub open spec fn entry_view(e: CatalogEntry) -> CatalogEntryV {
    match e {
        CatalogEntry::Pages(r) => CatalogEntryV::Pages(r),
        CatalogEntry::Dests(r) => CatalogEntryV::Dests(r),
        CatalogEntry::Metadata(r) => CatalogEntryV::Metadata(r),
        CatalogEntry::OutputIntent(r) => CatalogEntryV::OutputIntent(r),
        CatalogEntry::StructTreeRoot(r) => CatalogEntryV::StructTreeRoot(r),
        CatalogEntry::MarkInfo => CatalogEntryV::MarkInfo,
        CatalogEntry::Lang(s) => CatalogEntryV::Lang(s@),
        CatalogEntry::DisplayDocTitle => CatalogEntryV::DisplayDocTitle,
    }
}

/// The views of a list of catalog entries.
pub open spec fn entries_view(s: Seq<CatalogEntry>) -> Seq<CatalogEntryV> {
    s.map_values(|e: CatalogEntry| entry_view(e))
}

/// The catalog of a build, in writing order: the page tree; the `/Dests`
/// dictionary when there are destinations; for a PDF/A render its metadata
/// stream and output intent; for a tagged render (`ua` gives the structure
/// root and the tagged metadata stream) the structure root, the marked flag,
/// the tagged metadata unless PDF/A already gave one (the catalog holds a
/// single `/Metadata`), the language (`en-US` when none is set) and the
/// document-title preference.
pub open spec fn catalog_spec(plan: Plan, lang: Option<Seq<char>>, ua: Option<(i32, i32)>) -> Seq<CatalogEntryV> {
    seq![CatalogEntryV::Pages(plan.page_tree)] + (if plan.has_dests {
        seq![CatalogEntryV::Dests(plan.dests)]
    } else {
        seq![]
    }) + (if plan.pdf_a {
        seq![CatalogEntryV::Metadata(plan.xmp), CatalogEntryV::OutputIntent(plan.icc)]
    } else {
        seq![]
    }) + match ua {
        Some((root, meta)) => seq![CatalogEntryV::StructTreeRoot(root), CatalogEntryV::MarkInfo] + (if plan.pdf_a {
            seq![]
        } else {
            seq![CatalogEntryV::Metadata(meta)]
        }) + seq![
            CatalogEntryV::Lang(
                match lang {
                    Some(l) => l,
                    None => "en-US"@,
                },
            ),
            CatalogEntryV::DisplayDocTitle,
        ],
        None => seq![],
    }
}

/// The catalog entries of a build, in the order they are written.
pub fn catalog_entries(plan: &Plan, opts: &EmitOptions, ua: Option<&UaPlan>) -> (res: Vec<CatalogEntry>)
    ensures
        entries_view(res@) == catalog_spec(
            *plan,
            match opts.lang {
                Some(l) => Some(l@),
                None => None,
            },
            match ua {
                Some(u) => Some((u.root_ref, u.metadata_ref)),
                None => None,
            },
        ),
{
    let mut out: Vec<CatalogEntry> = Vec::new();
    out.push(CatalogEntry::Pages(plan.page_tree));
    let ghost a = entries_view(out@);
    if plan.has_dests {
        out.push(CatalogEntry::Dests(plan.dests));
    }
    let ghost b = entries_view(out@);
    if plan.pdf_a {
        out.push(CatalogEntry::Metadata(plan.xmp));
        out.push(CatalogEntry::OutputIntent(plan.icc));
    }
    let ghost c = entries_view(out@);
    proof {
        assert(a =~= seq![CatalogEntryV::Pages(plan.page_tree)]);
        assert(c =~= a + (if plan.has_dests {
            seq![CatalogEntryV::Dests(plan.dests)]
        } else {
            seq![]
        }) + (if plan.pdf_a {
            seq![CatalogEntryV::Metadata(plan.xmp), CatalogEntryV::OutputIntent(plan.icc)]
        } else {
            seq![]
        }));
    }
    match ua {
        Some(u) => {
            out.push(CatalogEntry::StructTreeRoot(u.root_ref));
            out.push(CatalogEntry::MarkInfo);
            if !plan.pdf_a {
                out.push(CatalogEntry::Metadata(u.metadata_ref));
            }
            let lang = match &opts.lang {
                Some(l) => l.clone(),
                None => {
                    let cs = chars_of("en-US");
                    string_of(cs.as_slice())
                },
            };
            let ghost lv = lang@;
            out.push(CatalogEntry::Lang(lang));
            out.push(CatalogEntry::DisplayDocTitle);
            proof {
                let tail = seq![CatalogEntryV::StructTreeRoot(u.root_ref), CatalogEntryV::MarkInfo] + (if plan.pdf_a {
                    seq![]
                } else {
                    seq![CatalogEntryV::Metadata(u.metadata_ref)]
                }) + seq![CatalogEntryV::Lang(lv), CatalogEntryV::DisplayDocTitle];
                assert(entries_view(out@) =~= c + tail);
            }
        },
        None => {
            assert(entries_view(out@) =~= c + Seq::<CatalogEntryV>::empty());
        },
    }
    out
}

// ---------------------------------------------------------------------------
// Laws
// ---------------------------------------------------------------------------
/// The ids of a list of `(page, content)` pairs, pair by pair.
pub open spec fn pair_ids(s: Seq<(i32, i32)>) -> Seq<int>
    decreases s.len(),
{
    if s.len() == 0 {
        seq![]
    } else {
        pair_ids(s.drop_last()) + seq![s.last().0 as int, s.last().1 as int]
    }
}

/// The ids of a list of objects.
pub open spec fn ref_ids(s: Seq<i32>) -> Seq<int> {
    s.map_values(|r: i32| r as int)
}

/// The ids a plan gives its objects, in layout order: catalog, page tree,
/// pages, Type0 fonts, info, the `/Dests` dictionary when there is one, the
/// links, and the archival objects when the render is PDF/A.
pub open spec fn plan_ids(plan: Plan) -> Seq<int> {
    seq![plan.catalog as int, plan.page_tree as int] + pair_ids(plan.page_refs@) + ref_ids(
        plan.font_refs@,
    ) + seq![plan.info as int] + (if plan.has_dests {
        seq![plan.dests as int]
    } else {
        seq![]
    }) + ref_ids(plan.link_refs@) + (if plan.pdf_a {
        seq![plan.icc as int, plan.xmp as int]
    } else {
        seq![]
    })
}

/// Ids in strictly increasing order, all in `[lo, hi)`.
pub open spec fn rising_within(s: Seq<int>, lo: int, hi: int) -> bool {
    &&& forall|i: int, j: int| 0 <= i < j < s.len() ==> s[i] < s[j]
    &&& forall|k: int| 0 <= k < s.len() ==> lo <= #[trigger] s[k] < hi
}

proof fn lemma_rising_join(a: Seq<int>, b: Seq<int>, lo: int, mid: int, hi: int)
    requires
        lo <= mid <= hi,
        rising_within(a, lo, mid),
        rising_within(b, mid, hi),
    ensures
        rising_within(a + b, lo, hi),
{
    assert forall|i: int, j: int| 0 <= i < j < (a + b).len() implies (a + b)[i] < (a + b)[j] by {
        if j < a.len() {
            assert((a + b)[i] == a[i] && (a + b)[j] == a[j]);
        } else if i < a.len() {
            assert((a + b)[i] == a[i] && (a + b)[j] == b[j - a.len()]);
            assert(a[i] < mid);
            assert(mid <= b[j - a.len()]);
        } else {
            assert((a + b)[i] == b[i - a.len()] && (a + b)[j] == b[j - a.len()]);
        }
    }
    assert forall|k: int| 0 <= k < (a + b).len() implies lo <= #[trigger] (a + b)[k] < hi by {
        if k < a.len() {
            assert((a + b)[k] == a[k]);
        } else {
            assert((a + b)[k] == b[k - a.len()]);
        }
    }
}

proof fn lemma_pair_ids(s: Seq<(i32, i32)>, n0: int)
    requires
        forall|p: int| 0 <= p < s.len() ==> (#[trigger] s[p]).0 == n0 + 2 * p && s[p].1 == n0 + 2 * p + 1,
    ensures
        pair_ids(s).len() == 2 * s.len(),
        forall|k: int| 0 <= k < pair_ids(s).len() ==> #[trigger] pair_ids(s)[k] == n0 + k,
    decreases s.len(),
{
    if s.len() > 0 {
        let d = s.drop_last();
        assert forall|p: int| 0 <= p < d.len() implies (#[trigger] d[p]).0 == n0 + 2 * p && d[p].1
            == n0 + 2 * p + 1 by {
            assert(d[p] == s[p]);
        }
        lemma_pair_ids(d, n0);
        let last = s[s.len() - 1];
        assert forall|k: int| 0 <= k < pair_ids(s).len() implies #[trigger] pair_ids(s)[k] == n0 + k by {
            if k < pair_ids(d).len() {
                assert(pair_ids(s)[k] == pair_ids(d)[k]);
            } else if k == pair_ids(d).len() {
                assert(pair_ids(s)[k] == last.0 as int);
            } else {
                assert(pair_ids(s)[k] == last.1 as int);
            }
        }
    }
}

/// The objects of a build's layout take distinct ids, in increasing order,
/// all below the first id the layout leaves free — so the tagged-PDF
/// structure tree, which starts there, claims none of them.
pub proof fn object_ids_are_distinct(
    plan: Plan,
    pages: int,
    fonts: int,
    per_font: int,
    image_objects: int,
    has_dests: bool,
    links: Seq<usize>,
    pdf_a: bool,
    pdf_ua: bool,
)
    requires
        0 <= pages,
        0 <= fonts,
        1 <= per_font,
        0 <= image_objects,
        planned(plan, pages, fonts, per_font, image_objects, has_dests, links, pdf_a, pdf_ua),
    ensures
        rising_within(
            plan_ids(plan),
            1,
            layout_end(pages, fonts, per_font, image_objects, has_dests, sum_counts(links), pdf_a),
        ),
{
    lemma_sum_nonneg(links);
    let fonts_start = 3 + 2 * pages;
    let images_start = fonts_start + per_font * fonts;
    let info = images_start + image_objects;
    let links_start = info + 1 + flag_count(has_dests);
    let archive_start = links_start + sum_counts(links);
    let end = archive_start + 2 * flag_count(pdf_a);
    assert(0 <= per_font * fonts) by (nonlinear_arith)
        requires
            1 <= per_font,
            0 <= fonts,
    ;
    let a = seq![plan.catalog as int, plan.page_tree as int];
    assert(rising_within(a, 1, 3));
    let b = pair_ids(plan.page_refs@);
    lemma_pair_ids(plan.page_refs@, 3);
    assert(rising_within(b, 3, fonts_start));
    let c = ref_ids(plan.font_refs@);
    assert forall|i: int, j: int| 0 <= i < j < c.len() implies c[i] < c[j] by {
        assert(c[i] == fonts_start + per_font * i);
        assert(c[j] == fonts_start + per_font * j);
        assert(per_font * i < per_font * j) by (nonlinear_arith)
            requires
                1 <= per_font,
                i < j,
        ;
    }
    assert forall|k: int| 0 <= k < c.len() implies fonts_start <= #[trigger] c[k] < images_start by {
        assert(c[k] == fonts_start + per_font * k);
        assert(0 <= per_font * k < per_font * fonts) by (nonlinear_arith)
            requires
                1 <= per_font,
                0 <= k < fonts,
        ;
    }
    let d = seq![plan.info as int];
    assert(rising_within(d, images_start, info + 1));
    let e: Seq<int> = if plan.has_dests {
        seq![plan.dests as int]
    } else {
        seq![]
    };
    assert(rising_within(e, info + 1, links_start));
    let f = ref_ids(plan.link_refs@);
    assert forall|k: int| 0 <= k < f.len() implies links_start <= #[trigger] f[k] < archive_start by {
        assert(f[k] == plan.link_refs@[k] as int);
    }
    assert forall|i: int, j: int| 0 <= i < j < f.len() implies f[i] < f[j] by {
        assert(f[i] == plan.link_refs@[i] as int);
        assert(f[j] == plan.link_refs@[j] as int);
    }
    let g: Seq<int> = if plan.pdf_a {
        seq![plan.icc as int, plan.xmp as int]
    } else {
        seq![]
    };
    assert(rising_within(g, archive_start, end));
    lemma_rising_join(a, b, 1, 3, fonts_start);
    lemma_rising_join(a + b, c, 1, fonts_start, images_start);
    lemma_rising_join(a + b + c, d, 1, images_start, info + 1);
    lemma_rising_join(a + b + c + d, e, 1, info + 1, links_start);
    lemma_rising_join(a + b + c + d + e, f, 1, links_start, archive_start);
    lemma_rising_join(a + b + c + d + e + f, g, 1, archive_start, end);
}

} // verus!
