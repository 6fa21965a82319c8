//! What the history of a document's scoped paths says about it.
use vstd::prelude::*;
use crate::text::{from_chars, to_chars};

verus! {

/// A document path as given.
pub fn doc_path(path: &str) -> (r: String)
    ensures
        r@ == path@,
{
    let c = to_chars(path);
    from_chars(&c)
}

/// A document last modified this many days ago is old enough for its
/// commits to be counted: at least 30 days.
pub fn is_old_enough(days_since_modified: Option<i64>) -> (r: bool)
    ensures
        r == (days_since_modified is Some && days_since_modified->0 >= 30),
{
    match days_since_modified {
        Some(days) => days >= 30,
        None => false,
    }
}

/// A document is stale when it was last modified at least 30 days ago and
/// at least 10 commits touched its scoped paths since then; when the last
/// modification or the commit count is unknown it is not.
pub fn is_stale(days_since_modified: Option<i64>, commits_since: Option<usize>) -> (r: bool)
    ensures
        r == (days_since_modified is Some && days_since_modified->0 >= 30 && commits_since is Some
            && commits_since->0 >= 10),
{
    if !is_old_enough(days_since_modified) {
        return false;
    }
    match commits_since {
        Some(count) => count >= 10,
        None => false,
    }
}

} // verus!
