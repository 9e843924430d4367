//! Compile- and render-time options.
use vstd::prelude::*;
use std::collections::HashMap;

verus! {

/// How undefined / missing values are handled during render.
#[derive(Debug, Clone, Copy, PartialEq, Eq, Structural)]
pub enum MissingPolicy {
    /// Undefined variable or out-of-range access raises a render error (default).
    Strict,
    /// Undefined renders as empty string (Jinja lenient printing).
    Empty,
}

impl Default for MissingPolicy {
    fn default() -> (res: MissingPolicy)
        ensures
            res == MissingPolicy::Strict,
    {
        MissingPolicy::Strict
    }
}

/// Default `{% include %}`/macro recursion depth.
pub const DEFAULT_INCLUDE_DEPTH: u32 = 64;

/// Options controlling template compilation.
#[derive(Debug, Clone)]
pub struct CompileOptions {
    /// Named partial sources for `{% include %}` / `{% import %}`.
    pub partials: HashMap<String, String>,
    /// Undefined/missing handling.
    pub missing_policy: MissingPolicy,
    /// Maximum include/import/macro recursion depth. 0 selects the default.
    pub include_max_depth: u32,
}

impl Default for CompileOptions {
    fn default() -> (res: CompileOptions)
        ensures
            res.partials@.len() == 0,
            res.missing_policy == MissingPolicy::Strict,
            res.include_max_depth == 0,
    {
        CompileOptions { partials: HashMap::new(), missing_policy: MissingPolicy::Strict, include_max_depth: 0 }
    }
}

impl CompileOptions {
    /// The effective recursion depth, applying the default when unset.
    pub fn effective_depth(&self) -> (res: u32)
        ensures
            res == (if self.include_max_depth == 0 {
                DEFAULT_INCLUDE_DEPTH
            } else {
                self.include_max_depth
            }),
    {
        if self.include_max_depth == 0 {
            DEFAULT_INCLUDE_DEPTH
        } else {
            self.include_max_depth
        }
    }
}

} // verus!
