//! Emitter-side decisions and text builders: the document options, the
//! `/ToUnicode` CMap text, the archival and accessibility metadata packets
//! and the deterministic file identifier. Writing the PDF objects themselves
//! is left to the caller.
use vstd::prelude::*;
use crate::encrypt::Encryption;

pub mod pdfa;
pub mod tounicode;
pub mod document;
pub mod ua;
pub mod xref;

verus! {

/// Document metadata plus the determinism knob for the creation date.
///
/// Every metadata field is optional; an absent field is simply omitted from
/// the PDF info dictionary. When `creation_date` is `None` the emitter
/// substitutes [`SENTINEL_DATE`] so two renders of the same input are
/// byte-identical.
#[derive(Debug, Clone)]
pub struct EmitOptions {
    pub title: Option<String>,
    pub author: Option<String>,
    pub subject: Option<String>,
    pub keywords: Option<String>,
    /// Creation date as a Unix timestamp (seconds). `None` uses [`SENTINEL_DATE`].
    pub creation_date: Option<i64>,
    /// Emit fills in DeviceCMYK instead of DeviceRGB.
    pub cmyk: bool,
    /// The document's natural-language tag (e.g. `en-US`), written as the
    /// catalog `/Lang` for tagged PDF.
    pub lang: Option<String>,
    /// Emit archival (PDF/A-2b) conformance objects for this render.
    pub pdf_a: bool,
    /// Emit tagged / accessible (PDF/UA-1) machinery for this render.
    pub pdf_ua: bool,
    /// Password protection; `None` emits an unencrypted, deterministic PDF.
    pub encryption: Option<Encryption>,
}

impl Default for EmitOptions {
    fn default() -> (res: EmitOptions)
        ensures
            res.title is None,
            res.author is None,
            res.subject is None,
            res.keywords is None,
            res.creation_date is None,
            !res.cmyk,
            res.lang is None,
            !res.pdf_a,
            !res.pdf_ua,
            res.encryption is None,
    {
        EmitOptions {
            title: None,
            author: None,
            subject: None,
            keywords: None,
            creation_date: None,
            cmyk: false,
            lang: None,
            pdf_a: false,
            pdf_ua: false,
            encryption: None,
        }
    }
}

/// The fixed creation-date sentinel: `2000-01-01T00:00:00Z`, used whenever
/// the caller leaves [`EmitOptions::creation_date`] unset.
pub const SENTINEL_DATE: i64 = 946_684_800;

/// The creation date a render uses.
pub open spec fn effective_date(opts: EmitOptions) -> i64 {
    match opts.creation_date {
        Some(d) => d,
        None => SENTINEL_DATE,
    }
}

/// How many objects each embedded font takes: four, and a fifth (its
/// `/ToUnicode` CMap) when the render is tagged.
pub fn objects_per_font(pdf_ua: bool) -> (res: i32)
    ensures
        res == if pdf_ua {
            5i32
        } else {
            4i32
        },
{
    if pdf_ua {
        5
    } else {
        4
    }
}

/// Whether this render emits archival objects.
pub fn pdf_a_on(opts: &EmitOptions) -> (res: bool)
    ensures
        res == opts.pdf_a,
{
    opts.pdf_a
}

/// Whether this render emits tagged-PDF objects.
pub fn pdf_ua_on(opts: &EmitOptions) -> (res: bool)
    ensures
        res == opts.pdf_ua,
{
    opts.pdf_ua
}

/// Whether paint band `i` (body, header, footer, footnotes) is a pagination
/// artifact: the running header and footer are.
pub fn is_artifact_band(i: usize) -> (res: bool)
    ensures
        res == (i == 1 || i == 2),
{
    i == 1 || i == 2
}

} // verus!
