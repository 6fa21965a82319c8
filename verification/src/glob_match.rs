//! Shell-style path patterns, matched by the `glob` crate.
use vstd::prelude::*;

verus! {

#[verifier::external_type_specification]
#[verifier::external_body]
pub struct ExPattern(glob::Pattern);

/// Whether `glob::Pattern::new` accepts `pattern`.
pub uninterp spec fn glob_pattern_valid(pattern: Seq<char>) -> bool;

/// Whether `glob::Pattern::new(pattern)` matches `path` with the default
/// options (`Pattern::matches`).
pub uninterp spec fn glob_matches(pattern: Seq<char>, path: Seq<char>) -> bool;

/// A compiled pattern together with the text it was compiled from.
pub struct GlobPattern {
    source: String,
    compiled: glob::Pattern,
}

impl GlobPattern {
    /// The text the pattern was compiled from.
    pub closed spec fn source(&self) -> Seq<char> {
        self.source@
    }

    /// Compiles `pattern` with `glob::Pattern::new`. The contract claims that
    /// the call succeeds exactly when `glob_pattern_valid` holds of the text,
    /// which names what that function decides; nothing more is stated of it.
    #[verifier::external_body]
    pub(crate) fn new(pattern: &str) -> (r: Option<GlobPattern>)
        ensures
            r is Some <==> glob_pattern_valid(pattern@),
            r matches Some(p) ==> p.source() == pattern@,
    {
        match glob::Pattern::new(pattern) {
            Ok(compiled) => Some(GlobPattern { source: pattern.to_string(), compiled }),
            Err(_) => None,
        }
    }

    /// `glob::Pattern::matches` on the compiled pattern. The contract claims
    /// the result is `glob_matches` of the pattern's text and `path`: the
    /// outcome depends on those two texts alone.
    #[verifier::external_body]
    pub(crate) fn matches(&self, path: &str) -> (r: bool)
        ensures
            r == glob_matches(self.source(), path@),
    {
        self.compiled.matches(path)
    }
}

} // verus!
