//! The `.contextignore` file: glob patterns for documents and repository
//! paths that the managed corpus leaves out.
use vstd::prelude::*;
use crate::glob_match::{glob_matches, glob_pattern_valid, GlobPattern};
use crate::paths::{join_path, normalize_path_chars, normalize_path_text, path_join};
use crate::text::{from_chars, lines, push_str, split_lines, to_chars, trim, trim_chars};

verus! {

broadcast use crate::views::lemma_char_vec_deep_view;

/// The patterns of a `.contextignore` file.
pub struct ContextIgnore {
    patterns: Vec<GlobPattern>,
}

/// A pattern line that `glob` does not accept.
#[derive(Debug)]
pub enum IgnoreError {
    InvalidPattern { pattern: String },
}

impl IgnoreError {
    pub fn message(&self) -> (r: String)
        ensures
            self matches IgnoreError::InvalidPattern { pattern } ==> r@
                == "invalid .contextignore pattern "@ + pattern@,
    {
        match self {
            IgnoreError::InvalidPattern { pattern } => {
                let mut out = to_chars("invalid .contextignore pattern ");
                push_str(&mut out, pattern.as_str());
                from_chars(&out)
            },
        }
    }
}

/// The trimmed lines of a `.contextignore` text that are neither blank nor
/// comments (`#`).
pub open spec fn pattern_lines(content: Seq<char>) -> Seq<Seq<char>> {
    lines(content).map_values(|l: Seq<char>| trim(l)).filter(
        |t: Seq<char>| t.len() > 0 && t[0] != '#',
    )
}

impl ContextIgnore {
    /// The texts of the patterns, in file order.
    pub closed spec fn pattern_texts(&self) -> Seq<Seq<char>> {
        self.patterns@.map_values(|p: GlobPattern| p.source())
    }

    /// No patterns: nothing is ignored.
    pub fn empty() -> (r: ContextIgnore)
        ensures
            r.pattern_texts() == Seq::<Seq<char>>::empty(),
    {
        let r = ContextIgnore { patterns: Vec::new() };
        assert(r.pattern_texts() =~= Seq::<Seq<char>>::empty());
        r
    }

    /// The patterns of a `.contextignore` text. Fails on the first pattern
    /// line that does not compile.
    pub fn from_content(content: &str) -> (r: Result<ContextIgnore, IgnoreError>)
        ensures
            r is Ok <==> forall|i: int|
                0 <= i < pattern_lines(content@).len() ==> glob_pattern_valid(
                    #[trigger] pattern_lines(content@)[i],
                ),
            r matches Ok(ci) ==> ci.pattern_texts() == pattern_lines(content@),
            r matches Err(IgnoreError::InvalidPattern { pattern }) ==> exists|k: int|
                0 <= k < pattern_lines(content@).len() && pattern_lines(content@)[k] == pattern@
                    && !glob_pattern_valid(pattern@) && forall|j: int|
                    0 <= j < k ==> glob_pattern_valid(#[trigger] pattern_lines(content@)[j]),
    {
        let c = to_chars(content);
        let ls = split_lines(&c);
        let ghost tr = |l: Seq<char>| trim(l);
        let ghost keep = |t: Seq<char>| t.len() > 0 && t[0] != '#';
        let ghost all = lines(content@).map_values(tr);
        let mut patterns: Vec<GlobPattern> = Vec::new();
        let mut i: usize = 0;
        while i < ls.len()
            invariant
                i <= ls.len(),
                ls.deep_view() == lines(content@),
                tr == (|l: Seq<char>| trim(l)),
                keep == (|t: Seq<char>| t.len() > 0 && t[0] != '#'),
                all == lines(content@).map_values(tr),
                patterns@.map_values(|p: GlobPattern| p.source()) == all.take(i as int).filter(
                    keep,
                ),
                forall|j: int|
                    0 <= j < all.take(i as int).filter(keep).len() ==> glob_pattern_valid(
                        #[trigger] all.take(i as int).filter(keep)[j],
                    ),
            decreases ls.len() - i,
        {
            assert(all.take(i + 1) =~= all.take(i as int).push(all[i as int]));
            proof {
                all.take(i as int).lemma_filter_push(all[i as int], keep);
            }
            assert(ls.deep_view()[i as int] == ls@[i as int]@);
            let t = trim_chars(&ls[i]);
            assert(t@ == all[i as int]);
            if t.len() > 0 && t[0] != '#' {
                let text = from_chars(&t);
                match GlobPattern::new(text.as_str()) {
                    Some(p) => {
                        let ghost before = patterns@.map_values(|p: GlobPattern| p.source());
                        patterns.push(p);
                        assert(patterns@.map_values(|p: GlobPattern| p.source()) =~= before.push(
                            t@,
                        ));
                    },
                    None => {
                        proof {
                            let k = all.take(i as int).filter(keep).len() as int;
                            assert(pattern_lines(content@) == all.filter(keep));
                            assert(all =~= all.take(i + 1) + all.skip(i + 1));
                            Seq::filter_distributes_over_add(all.take(i + 1), all.skip(i + 1), keep);
                            assert(pattern_lines(content@)[k] == t@);
                        }
                        return Err(IgnoreError::InvalidPattern { pattern: text });
                    },
                }
            }
            i += 1;
        }
        assert(all.take(ls.len() as int) =~= all);
        Ok(ContextIgnore { patterns })
    }

    /// Whether `path`, normalised, matches any of the patterns.
    pub fn matches(&self, path: &str) -> (r: bool)
        ensures
            r == exists|i: int|
                0 <= i < self.pattern_texts().len() && glob_matches(
                    #[trigger] self.pattern_texts()[i],
                    normalize_path_text(path@),
                ),
    {
        let p = to_chars(path);
        let n = normalize_path_chars(&p);
        let ns = from_chars(&n);
        let mut i: usize = 0;
        while i < self.patterns.len()
            invariant
                i <= self.patterns.len(),
                ns@ == normalize_path_text(path@),
                forall|j: int|
                    0 <= j < i ==> !glob_matches(
                        #[trigger] self.pattern_texts()[j],
                        normalize_path_text(path@),
                    ),
            decreases self.patterns.len() - i,
        {
            if self.patterns[i].matches(ns.as_str()) {
                assert(self.pattern_texts()[i as int] == self.patterns@[i as int].source());
                return true;
            }
            assert(self.pattern_texts()[i as int] == self.patterns@[i as int].source());
            i += 1;
        }
        false
    }
}

/// `{base}/.contextignore`.
pub fn path_from(base: &str) -> (r: String)
    ensures
        r@ == path_join(base@, ".contextignore"@),
{
    join_path(base, ".contextignore")
}

/// The derived file is out of date when the ignore file was modified after
/// it; when either time is unknown it is not. Times are nanoseconds from the
/// Unix epoch.
pub fn requires_refresh(ignore_modified: Option<i128>, derived_modified: Option<i128>) -> (r: bool)
    ensures
        r == (ignore_modified is Some && derived_modified is Some && ignore_modified->0
            > derived_modified->0),
{
    match (ignore_modified, derived_modified) {
        (Some(ignore_time), Some(derived_time)) => ignore_time > derived_time,
        _ => false,
    }
}

} // verus!
