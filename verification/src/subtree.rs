//! Nested `.context` corpora below a repository directory.
use vstd::prelude::*;
use crate::paths::{file_name, file_name_chars, join_path, normalize_path_chars, normalize_path_text, path_join};
use crate::text::{chars_eq, from_chars, push_all, to_chars};

verus! {

/// The file into which a parent corpus gathers a child corpus.
pub const SYNTHESIZED_CHILD_CONTEXT_FILE: &'static str = "ctx-child-context.md";

/// A directory holding a `.context` corpus: `base` as the file system names
/// it, `relative` from the directory the search started in.
#[derive(Clone, Debug)]
pub struct ContextRoot {
    pub base: String,
    pub relative: String,
}

/// `{base}/.context/ctx-child-context.md`.
pub fn synthesized_child_context_path(base: &str) -> (r: String)
    ensures
        r@ == path_join(path_join(base@, ".context"@), SYNTHESIZED_CHILD_CONTEXT_FILE@),
{
    let dir = join_path(base, ".context");
    join_path(dir.as_str(), SYNTHESIZED_CHILD_CONTEXT_FILE)
}

/// Whether the last component of `path` is the synthesized child file.
pub fn is_synthesized_child_context_path(path: &str) -> (r: bool)
    ensures
        r == (file_name(path@) == Some(SYNTHESIZED_CHILD_CONTEXT_FILE@)),
{
    let p = to_chars(path);
    let target = to_chars(SYNTHESIZED_CHILD_CONTEXT_FILE);
    match file_name_chars(&p) {
        Some(n) => chars_eq(&n, &target),
        None => false,
    }
}

/// A scope path of a descendant corpus seen from the corpus at `relative`:
/// both normalised, joined with `/`, either alone when the other is empty.
pub open spec fn spec_rebase(relative: Seq<char>, scope_path: Seq<char>) -> Seq<char> {
    let scope = normalize_path_text(scope_path);
    if relative.len() == 0 {
        scope
    } else {
        let prefix = normalize_path_text(relative);
        if scope.len() == 0 {
            prefix
        } else {
            prefix + seq!['/'] + scope
        }
    }
}

/// `scope_path` of the corpus at `relative` as a path from the top corpus.
pub fn rebase_scope_path(relative: &str, scope_path: &str) -> (r: String)
    ensures
        r@ == spec_rebase(relative@, scope_path@),
{
    let s = to_chars(scope_path);
    let scope = normalize_path_chars(&s);
    let rel = to_chars(relative);
    if rel.len() == 0 {
        return from_chars(&scope);
    }
    let mut prefix = normalize_path_chars(&rel);
    if scope.len() == 0 {
        return from_chars(&prefix);
    }
    prefix.push('/');
    push_all(&mut prefix, &scope);
    from_chars(&prefix)
}

/// What a walk for child corpora does with a directory entry.
#[derive(Clone, Copy, Debug, PartialEq, Eq, Structural)]
pub enum ChildAction {
    Skip,
    Root,
    Descend,
}

/// Files, `.context` directories and excluded directories are skipped; a
/// directory holding `.context` is a root (and is not entered); any other
/// directory is entered.
pub fn child_dir_action(is_dir: bool, name: &str, excluded: bool, has_context: bool) -> (r:
    ChildAction)
    ensures
        r == (if !is_dir || name@ == ".context"@ || excluded {
            ChildAction::Skip
        } else if has_context {
            ChildAction::Root
        } else {
            ChildAction::Descend
        }),
{
    if !is_dir || crate::text::str_eq(name, ".context") || excluded {
        ChildAction::Skip
    } else if has_context {
        ChildAction::Root
    } else {
        ChildAction::Descend
    }
}

impl crate::sort::SortKey for ContextRoot {
    open spec fn key_le(&self, other: &Self) -> bool {
        crate::paths::path_le(self.relative@, other.relative@)
    }

    fn key_le_exec(&self, other: &Self) -> (r: bool) {
        crate::paths::path_le_exec(self.relative.as_str(), other.relative.as_str())
    }

    proof fn lemma_key_total(a: &Self, b: &Self) {
        crate::paths::lemma_components_le_total(
            crate::paths::path_components(a.relative@),
            crate::paths::path_components(b.relative@),
        );
    }

    proof fn lemma_key_trans(a: &Self, b: &Self, c: &Self) {
        crate::paths::lemma_components_le_transitive(
            crate::paths::path_components(a.relative@),
            crate::paths::path_components(b.relative@),
            crate::paths::path_components(c.relative@),
        );
    }
}

/// Roots ordered by their path from the starting directory, component by
/// component as `Path` orders paths.
pub fn sort_roots(roots: Vec<ContextRoot>) -> (r: Vec<ContextRoot>)
    ensures
        crate::sort::stable_sort_of(r@, roots@),
{
    crate::sort::stable_sort(roots)
}

} // verus!
