//! Error, span, and diagnostic types shared across the pipeline.
//!
//! Every fatal error carries a [`Span`] pointing back into the template source.
//! Non-fatal problems are collected as [`Lint`]s in [`Diagnostics`].
use vstd::prelude::*;
use std::ops::Range;
use crate::chars::{decimal_chars, decimal_text, push_str, string_of};

verus! {

/// A location in the template source. `byte_offset` is the start offset of the
/// offending construct; `line`/`col` are 1-based where known (0 when the
/// underlying engine could not supply them).
#[derive(Debug, Clone, Copy, PartialEq, Eq, Structural)]
pub struct Span {
    pub line: u32,
    pub col: u32,
    pub byte_offset: u32,
}

impl Default for Span {
    fn default() -> (res: Span)
        ensures
            res == (Span { line: 0, col: 0, byte_offset: 0 }),
    {
        Span { line: 0, col: 0, byte_offset: 0 }
    }
}

impl Span {
    /// Construct a span from a 1-based line and an optional byte range: the
    /// offset is the range's start, cut to 32 bits, or 0 without a range.
    pub fn new(line: u32, range: Option<Range<usize>>) -> (res: Span)
        ensures
            res.line == line,
            res.col == 0,
            res.byte_offset == (match range {
                Some(r) => r.start as u32,
                None => 0u32,
            }),
    {
        let byte_offset: u32 = match range {
            Some(r) => r.start as u32,
            None => 0,
        };
        Span { line, col: 0, byte_offset }
    }
}

/// Stable machine-readable code for a fatal error.
#[derive(Debug, Clone, Copy, PartialEq, Eq, Structural)]
pub enum ErrorCode {
    /// Malformed Jinja syntax (unbalanced tags, bad expression).
    TemplateSyntax,
    /// Reference to a filter/function/test that is not registered.
    UnknownFilter,
    /// An undefined variable or out-of-range access under the strict policy.
    UndefinedValue,
    /// `include`/`import`/macro recursion exceeded the configured depth.
    IncludeDepthExceeded,
    /// A `t:` element whose name is not a recognized directive.
    UnknownElement,
    /// Any other render-time evaluation failure.
    Render,
}

/// The name a code is printed under.
pub open spec fn code_name(code: ErrorCode) -> Seq<char> {
    match code {
        ErrorCode::TemplateSyntax => "TemplateSyntax"@,
        ErrorCode::UnknownFilter => "UnknownFilter"@,
        ErrorCode::UndefinedValue => "UndefinedValue"@,
        ErrorCode::IncludeDepthExceeded => "IncludeDepthExceeded"@,
        ErrorCode::UnknownElement => "UnknownElement"@,
        ErrorCode::Render => "Render"@,
    }
}

/// The name of `code`.
fn code_str(code: ErrorCode) -> (res: &'static str)
    ensures
        res@ == code_name(code),
{
    match code {
        ErrorCode::TemplateSyntax => "TemplateSyntax",
        ErrorCode::UnknownFilter => "UnknownFilter",
        ErrorCode::UndefinedValue => "UndefinedValue",
        ErrorCode::IncludeDepthExceeded => "IncludeDepthExceeded",
        ErrorCode::UnknownElement => "UnknownElement",
        ErrorCode::Render => "Render",
    }
}

/// The one-line description of a fatal error:
/// `<code> at line <line>: <message>`.
pub open spec fn error_text(code: ErrorCode, line: u32, message: Seq<char>) -> Seq<char> {
    code_name(code) + " at line "@ + decimal_text(line as nat) + ": "@ + message
}

/// Build the description of a fatal error.
fn describe_error(code: ErrorCode, line: u32, message: &str) -> (res: String)
    ensures
        res@ == error_text(code, line, message@),
{
    let mut out: Vec<char> = Vec::new();
    push_str(&mut out, code_str(code));
    push_str(&mut out, " at line ");
    let digits = decimal_chars(line as usize);
    let mut i: usize = 0;
    let ghost head = out@;
    while i < digits.len()
        invariant
            i <= digits@.len(),
            out@ == head + digits@.take(i as int),
        decreases digits.len() - i,
    {
        out.push(digits[i]);
        assert(digits@.take(i + 1) =~= digits@.take(i as int).push(digits@[i as int]));
        i += 1;
    }
    assert(digits@.take(i as int) =~= digits@);
    push_str(&mut out, ": ");
    push_str(&mut out, message);
    string_of(out.as_slice())
}

/// A fatal error produced while compiling a template.
#[derive(Debug)]
pub struct CompileError {
    pub code: ErrorCode,
    pub message: String,
    pub span: Span,
}

impl CompileError {
    /// The one-line description: `<code> at line <line>: <message>`.
    pub fn describe(&self) -> (res: String)
        ensures
            res@ == error_text(self.code, self.span.line, self.message@),
    {
        describe_error(self.code, self.span.line, self.message.as_str())
    }
}

/// A fatal error produced while rendering a compiled program.
#[derive(Debug)]
pub struct RenderError {
    pub code: ErrorCode,
    pub message: String,
    pub span: Span,
}

impl RenderError {
    /// The one-line description: `<code> at line <line>: <message>`.
    pub fn describe(&self) -> (res: String)
        ensures
            res@ == error_text(self.code, self.span.line, self.message@),
    {
        describe_error(self.code, self.span.line, self.message.as_str())
    }
}

/// Stable machine-readable code for a non-fatal lint.
#[derive(Debug, Clone, Copy, PartialEq, Eq, Structural)]
pub enum LintCode {
    /// A CSS property that is not implemented was encountered.
    UnsupportedCss,
    /// Interpolating a non-scalar value (a map/seq) — almost always a mistake.
    NonScalarInterpolation,
    /// Raw/unescaped output via the `safe` filter.
    RawOutput,
    /// Region content was clipped to its declared extent.
    RegionOverflow,
    /// A glyph absent from all provided fonts rendered as `.notdef`.
    NotdefGlyph,
    /// The footnote/body fixpoint did not converge within the iteration cap.
    FootnoteConvergence,
}

/// A non-fatal diagnostic collected during compile or render.
#[derive(Debug, Clone, PartialEq, Eq)]
pub struct Lint {
    pub code: LintCode,
    pub message: String,
    pub span: Span,
}

/// Collected non-fatal diagnostics returned alongside successful output.
#[derive(Debug, Clone, PartialEq, Eq)]
pub struct Diagnostics {
    pub lints: Vec<Lint>,
}

impl Default for Diagnostics {
    fn default() -> (res: Diagnostics)
        ensures
            res.lints@.len() == 0,
    {
        Diagnostics { lints: Vec::new() }
    }
}

impl Diagnostics {
    /// Append a lint to the collection.
    pub fn push(&mut self, code: LintCode, message: String, span: Span)
        ensures
            final(self).lints@ == old(self).lints@.push(Lint { code, message, span }),
    {
        self.lints.push(Lint { code, message, span });
    }

    /// True when no lints have been collected.
    pub fn is_empty(&self) -> (res: bool)
        ensures
            res == (self.lints@.len() == 0),
    {
        self.lints.is_empty()
    }
}

} // verus!
