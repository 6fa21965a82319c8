//! The derived code index: which repository files each document's scope
//! covers.
use vstd::prelude::*;
use crate::glob_match::{glob_matches, glob_pattern_valid, GlobPattern};
use crate::paths::{join_path, path_join};
use crate::registry::{doc_keys, DocumentEntry, Registry};
use crate::sort::{sort_dedup_strings, strictly_sorted};
use crate::text::{clone_string, clone_strings, extend_strings, push_string};

verus! {

broadcast use vstd::seq_lib::group_seq_properties, vstd::seq_lib::group_filter_ensures;

pub const INDEX_SCHEMA_VERSION: u32 = 1;

/// `./.context/.index.json`.
pub fn index_path() -> (r: String)
    ensures
        r@ == path_join(path_join("."@, ".context"@), ".index.json"@),
{
    index_path_from(".")
}

/// `{base}/.context/.index.json`.
pub fn index_path_from(base: &str) -> (r: String)
    ensures
        r@ == path_join(path_join(base@, ".context"@), ".index.json"@),
{
    let dir = join_path(base, ".context");
    join_path(dir.as_str(), ".index.json")
}

// ---------------------------------------------------------------------------
// Matching scope paths against repository files
// ---------------------------------------------------------------------------

pub open spec fn matches_pattern(p: Seq<char>) -> spec_fn(Seq<char>) -> bool {
    |f: Seq<char>| glob_matches(p, f)
}

/// The repository files that pattern `p` matches, in order.
pub open spec fn repo_hits(p: Seq<char>, repo: Seq<Seq<char>>) -> Seq<Seq<char>> {
    repo.filter(matches_pattern(p))
}

/// The files each valid scope pattern matches, pattern after pattern.
pub open spec fn scope_hits_all(scope: Seq<Seq<char>>, repo: Seq<Seq<char>>) -> Seq<Seq<char>>
    decreases scope.len(),
{
    if scope.len() == 0 {
        Seq::empty()
    } else {
        let p = scope.last();
        scope_hits_all(scope.drop_last(), repo) + if glob_pattern_valid(p) {
            repo_hits(p, repo)
        } else {
            Seq::empty()
        }
    }
}

/// A scope pattern is missing when it does not compile or matches no file.
pub open spec fn is_missing(repo: Seq<Seq<char>>) -> spec_fn(Seq<char>) -> bool {
    |s: Seq<char>| !glob_pattern_valid(s) || repo_hits(s, repo).len() == 0
}

/// The files a compiled pattern matches.
fn pattern_hits(p: &GlobPattern, repo: &Vec<String>) -> (r: Vec<String>)
    ensures
        r.deep_view() == repo_hits(p.source(), repo.deep_view()),
{
    let ghost rv = repo.deep_view();
    let ghost f = matches_pattern(p.source());
    let mut out: Vec<String> = Vec::new();
    let mut i: usize = 0;
    while i < repo.len()
        invariant
            i <= repo.len(),
            rv == repo.deep_view(),
            f == matches_pattern(p.source()),
            out.deep_view() == rv.take(i as int).filter(f),
        decreases repo.len() - i,
    {
        assert(rv.take(i + 1) =~= rv.take(i as int).push(rv[i as int]));
        proof {
            rv.take(i as int).lemma_filter_push(rv[i as int], f);
        }
        assert(repo@[i as int]@ == rv[i as int]);
        if p.matches(repo[i].as_str()) {
            push_string(&mut out, clone_string(&repo[i]));
        }
        i += 1;
    }
    assert(rv.take(repo.len() as int) =~= rv);
    out
}

/// The repository files that `scope_paths` cover, and the scope paths that
/// cover none (or are not valid patterns); each list sorted without repeats.
pub fn match_scope_paths(scope_paths: &Vec<String>, repo_files: &Vec<String>) -> (r: (
    Vec<String>,
    Vec<String>,
))
    ensures
        strictly_sorted(r.0.deep_view()),
        r.0.deep_view().to_set() == scope_hits_all(scope_paths.deep_view(), repo_files.deep_view()).to_set(),
        strictly_sorted(r.1.deep_view()),
        r.1.deep_view().to_set() == scope_paths.deep_view().filter(is_missing(repo_files.deep_view())).to_set(),
{
    let ghost sv = scope_paths.deep_view();
    let ghost rv = repo_files.deep_view();
    let ghost mf = is_missing(rv);
    let mut matched: Vec<String> = Vec::new();
    let mut missing: Vec<String> = Vec::new();
    let mut k: usize = 0;
    while k < scope_paths.len()
        invariant
            k <= scope_paths.len(),
            sv == scope_paths.deep_view(),
            rv == repo_files.deep_view(),
            mf == is_missing(rv),
            matched.deep_view() == scope_hits_all(sv.take(k as int), rv),
            missing.deep_view() == sv.take(k as int).filter(mf),
        decreases scope_paths.len() - k,
    {
        let ghost s = sv[k as int];
        assert(sv.take(k + 1) =~= sv.take(k as int).push(s));
        assert(sv.take(k + 1).drop_last() =~= sv.take(k as int));
        proof {
            sv.take(k as int).lemma_filter_push(s, mf);
        }
        assert(scope_paths@[k as int]@ == s);
        match GlobPattern::new(scope_paths[k].as_str()) {
            None => {
                push_string(&mut missing, clone_string(&scope_paths[k]));
            },
            Some(p) => {
                let hits = pattern_hits(&p, repo_files);
                if hits.len() == 0 {
                    push_string(&mut missing, clone_string(&scope_paths[k]));
                } else {
                    assert(missing.deep_view() == sv.take(k + 1).filter(mf));
                }
                extend_strings(&mut matched, &hits);
            },
        }
        k += 1;
    }
    assert(sv.take(scope_paths.len() as int) =~= sv);
    (sort_dedup_strings(&matched), sort_dedup_strings(&missing))
}

// ---------------------------------------------------------------------------
// The index
// ---------------------------------------------------------------------------

/// What the index records of one document. `last_updated` is RFC 3339 text.
#[derive(Clone, Debug)]
pub struct IndexedDocument {
    pub file: String,
    pub active_concerns: Vec<String>,
    pub components: Vec<String>,
    pub scope_paths: Vec<String>,
    pub matched_repo_paths: Vec<String>,
    pub missing_scope_paths: Vec<String>,
    pub last_updated: Option<String>,
    pub commits_in_scope_since_update: Option<usize>,
}

/// The repository files and, for each registered document, the files its
/// scope covers. `documents` is keyed by id in increasing order.
#[derive(Clone, Debug)]
pub struct CodeIndex {
    pub schema_version: u32,
    pub generated_at: String,
    pub generated_from_commit: Option<String>,
    pub repo_files: Vec<String>,
    pub documents: Vec<(String, IndexedDocument)>,
}

pub open spec fn opt_text(o: Option<String>) -> Option<Seq<char>> {
    match o {
        Some(s) => Some(s@),
        None => None,
    }
}

/// `d` indexes registry entry `e` against `repo`, with the document's last
/// update and the commits in its scope since (known only with the update).
pub open spec fn indexed_from(
    d: IndexedDocument,
    e: DocumentEntry,
    repo: Seq<Seq<char>>,
    last: Option<Seq<char>>,
    commits: Option<usize>,
) -> bool {
    &&& d.file@ == e.file@
    &&& d.active_concerns.deep_view() == e.active_concerns.deep_view()
    &&& d.components.deep_view() == e.scope.components.deep_view()
    &&& d.scope_paths.deep_view() == e.scope.paths.deep_view()
    &&& strictly_sorted(d.matched_repo_paths.deep_view())
    &&& d.matched_repo_paths.deep_view().to_set() == scope_hits_all(e.scope.paths.deep_view(), repo).to_set()
    &&& strictly_sorted(d.missing_scope_paths.deep_view())
    &&& d.missing_scope_paths.deep_view().to_set() == e.scope.paths.deep_view().filter(is_missing(repo)).to_set()
    &&& opt_text(d.last_updated) == last
    &&& d.commits_in_scope_since_update == (if last is Some {
        commits
    } else {
        None
    })
}

impl CodeIndex {
    /// The index of `registry` over `repo_files`. `history[j]` holds, for the
    /// `j`th document, when it was last updated and how many commits touched
    /// its scope since; the time and commit are the caller's.
    pub fn build(
        registry: &Registry,
        repo_files: Vec<String>,
        history: &Vec<(Option<String>, Option<usize>)>,
        generated_at: &str,
        generated_from_commit: Option<String>,
    ) -> (r: CodeIndex)
        requires
            history.len() == registry.documents.len(),
        ensures
            r.schema_version == INDEX_SCHEMA_VERSION,
            r.generated_at@ == generated_at@,
            r.generated_from_commit == generated_from_commit,
            r.repo_files@ == repo_files@,
            r.documents.len() == registry.documents.len(),
            forall|j: int|
                0 <= j < r.documents.len() ==> (#[trigger] r.documents@[j]).0@
                    == registry.documents@[j].0@ && indexed_from(
                    r.documents@[j].1,
                    registry.documents@[j].1,
                    repo_files.deep_view(),
                    opt_text(history@[j].0),
                    history@[j].1,
                ),
    {
        let mut documents: Vec<(String, IndexedDocument)> = Vec::new();
        let mut j: usize = 0;
        while j < registry.documents.len()
            invariant
                j <= registry.documents.len(),
                history.len() == registry.documents.len(),
                documents.len() == j,
                forall|m: int|
                    0 <= m < j ==> (#[trigger] documents@[m]).0@ == registry.documents@[m].0@
                        && indexed_from(
                        documents@[m].1,
                        registry.documents@[m].1,
                        repo_files.deep_view(),
                        opt_text(history@[m].0),
                        history@[m].1,
                    ),
            decreases registry.documents.len() - j,
        {
            let e = &registry.documents[j].1;
            let (matched, missing) = match_scope_paths(&e.scope.paths, &repo_files);
            let last = match &history[j].0 {
                Some(t) => Some(clone_string(t)),
                None => None,
            };
            let commits = if last.is_some() {
                history[j].1
            } else {
                None
            };
            let d = IndexedDocument {
                file: clone_string(&e.file),
                active_concerns: clone_strings(&e.active_concerns),
                components: clone_strings(&e.scope.components),
                scope_paths: clone_strings(&e.scope.paths),
                matched_repo_paths: matched,
                missing_scope_paths: missing,
                last_updated: last,
                commits_in_scope_since_update: commits,
            };
            documents.push((clone_string(&registry.documents[j].0), d));
            j += 1;
        }
        CodeIndex {
            schema_version: INDEX_SCHEMA_VERSION,
            generated_at: String::from_str(generated_at),
            generated_from_commit,
            repo_files,
            documents,
        }
    }
}

} // verus!
