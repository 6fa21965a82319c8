//! Suggesting context documents for a repository path from the code index.
use vstd::prelude::*;
use crate::glob_match::{glob_matches, glob_pattern_valid, GlobPattern};
use crate::index::IndexedDocument;
use crate::sort::{sort_dedup_strings, stable_sort, stable_sort_of, strictly_sorted, SortKey};
use crate::text::{
    clone_string, clone_strings, extend_strings, from_chars, lemma_seq_le_total,
    lemma_seq_le_transitive, push_str, push_string, seq_le, starts_with, str_eq, str_le, to_chars,
    trim, trim_chars, trim_end_matches, trim_end_matches_chars,
};

verus! {

broadcast use vstd::seq_lib::group_seq_properties, vstd::seq_lib::group_filter_ensures, crate::views::lemma_char_vec_deep_view;

/// A document suggested for a path, with the paths it matched and why.
#[derive(Clone, Debug)]
pub struct Suggestion {
    pub id: String,
    pub file: String,
    pub active_concerns: Vec<String>,
    pub matched_paths: Vec<String>,
    pub reasons: Vec<String>,
}

/// Why no suggestion could be made.
#[derive(Clone, Debug)]
pub enum SuggestError {
    EmptyPath,
    InvalidScopePattern { pattern: String },
}

impl SuggestError {
    pub fn message(&self) -> (r: String)
        ensures
            self matches SuggestError::EmptyPath ==> r@ == "--path must not be empty"@,
            self matches SuggestError::InvalidScopePattern { pattern } ==> r@
                == "invalid scope pattern in index: "@ + pattern@,
    {
        let mut out: Vec<char> = Vec::new();
        match self {
            SuggestError::EmptyPath => {
                push_str(&mut out, "--path must not be empty");
            },
            SuggestError::InvalidScopePattern { pattern } => {
                push_str(&mut out, "invalid scope pattern in index: ");
                push_str(&mut out, pattern.as_str());
            },
        }
        from_chars(&out)
    }
}

/// A path trimmed, without trailing slashes.
pub open spec fn spec_normalize_path(path: Seq<char>) -> Seq<char> {
    trim_end_matches(trim(path), seq!['/'])
}

/// The query path as suggestions compare it.
pub fn normalize_path(path: &str) -> (r: String)
    ensures
        r@ == spec_normalize_path(path@),
{
    let p = to_chars(path);
    let t = trim_chars(&p);
    let slash = vec!['/'];
    assert(slash@ =~= seq!['/']);
    let out = trim_end_matches_chars(&t, &slash);
    from_chars(&out)
}

/// `p` is the query path or lies under it.
pub open spec fn overlaps(q: Seq<char>) -> spec_fn(Seq<char>) -> bool {
    |p: Seq<char>| p == q || (q + seq!['/']).is_prefix_of(p)
}

/// The scope patterns that match the query path.
pub open spec fn scope_pred(q: Seq<char>) -> spec_fn(Seq<char>) -> bool {
    |s: Seq<char>| glob_matches(s, q)
}

pub open spec fn overlap_reason() -> Seq<char> {
    "indexed-path-overlap"@
}

pub open spec fn scope_reason() -> Seq<char> {
    "scope-pattern-match"@
}

/// The reasons to suggest `d` for the query `q`.
pub open spec fn doc_reasons(d: IndexedDocument, q: Seq<char>) -> Seq<Seq<char>> {
    (if d.matched_repo_paths.deep_view().filter(overlaps(q)).len() > 0 {
        seq![overlap_reason()]
    } else {
        Seq::empty()
    }) + (if d.scope_paths.deep_view().filter(scope_pred(q)).len() > 0 {
        seq![scope_reason()]
    } else {
        Seq::empty()
    })
}

/// `s` is the suggestion of document `id` (`d`) for `q`.
pub open spec fn suggestion_for(id: Seq<char>, d: IndexedDocument, q: Seq<char>, s: Suggestion) -> bool {
    &&& s.id@ == id
    &&& s.file@ == d.file@
    &&& s.active_concerns.deep_view() == d.active_concerns.deep_view()
    &&& s.reasons.deep_view() == doc_reasons(d, q)
    &&& strictly_sorted(s.matched_paths.deep_view())
    &&& s.matched_paths.deep_view().to_set() == (d.matched_repo_paths.deep_view().filter(overlaps(q))
        + d.scope_paths.deep_view().filter(scope_pred(q))).to_set()
}

pub open spec fn is_suggested(q: Seq<char>) -> spec_fn((String, IndexedDocument)) -> bool {
    |p: (String, IndexedDocument)| doc_reasons(p.1, q).len() > 0
}

/// `pre` holds, in index order, the suggestion of each document that has a
/// reason for `q`.
pub open spec fn suggestions_of(pre: Seq<Suggestion>, docs: Seq<(String, IndexedDocument)>, q: Seq<char>) -> bool {
    let sel = docs.filter(is_suggested(q));
    &&& pre.len() == sel.len()
    &&& forall|k: int| 0 <= k < pre.len() ==> suggestion_for(sel[k].0@, sel[k].1, q, #[trigger] pre[k])
}

/// Every scope pattern of every document compiles.
pub open spec fn index_patterns_valid(docs: Seq<(String, IndexedDocument)>) -> bool {
    forall|j: int, k: int|
        0 <= j < docs.len() && 0 <= k < docs[j].1.scope_paths.len() ==> glob_pattern_valid(
            #[trigger] docs[j].1.scope_paths.deep_view()[k],
        )
}

/// Suggestions with more reasons come first, then by file.
impl SortKey for Suggestion {
    open spec fn key_le(&self, other: &Self) -> bool {
        self.reasons.len() > other.reasons.len() || (self.reasons.len() == other.reasons.len()
            && seq_le(self.file@, other.file@))
    }

    fn key_le_exec(&self, other: &Self) -> (r: bool) {
        self.reasons.len() > other.reasons.len() || (self.reasons.len() == other.reasons.len()
            && str_le(self.file.as_str(), other.file.as_str()))
    }

    proof fn lemma_key_total(a: &Self, b: &Self) {
        lemma_seq_le_total(a.file@, b.file@);
    }

    proof fn lemma_key_trans(a: &Self, b: &Self, c: &Self) {
        if a.reasons.len() == b.reasons.len() && b.reasons.len() == c.reasons.len() {
            lemma_seq_le_transitive(a.file@, b.file@, c.file@);
        }
    }
}

/// The suggestion for one document, when it has a reason; or the first of
/// its scope patterns that does not compile.
fn suggest_document(id: &String, d: &IndexedDocument, q: &String) -> (r: Result<
    Option<Suggestion>,
    SuggestError,
>)
    ensures
        r is Ok <==> forall|k: int|
            0 <= k < d.scope_paths.len() ==> glob_pattern_valid(#[trigger] d.scope_paths.deep_view()[k]),
        r matches Err(e) ==> exists|k: int|
            0 <= k < d.scope_paths.len() && !glob_pattern_valid(d.scope_paths.deep_view()[k])
                && (forall|m: int|
                0 <= m < k ==> glob_pattern_valid(#[trigger] d.scope_paths.deep_view()[m])) && (e matches SuggestError::InvalidScopePattern {
                pattern,
            } && pattern@ == d.scope_paths.deep_view()[k]),
        r matches Ok(o) ==> (o is Some <==> doc_reasons(*d, q@).len() > 0),
        r matches Ok(Some(s)) ==> suggestion_for(id@, *d, q@, s),
{
    let ghost mv = d.matched_repo_paths.deep_view();
    let ghost sv = d.scope_paths.deep_view();
    let ghost fo = overlaps(q@);
    let ghost fs = scope_pred(q@);
    let mut prefix = to_chars(q.as_str());
    prefix.push('/');
    let mut paths: Vec<String> = Vec::new();
    let mut i: usize = 0;
    while i < d.matched_repo_paths.len()
        invariant
            i <= d.matched_repo_paths.len(),
            mv == d.matched_repo_paths.deep_view(),
            fo == overlaps(q@),
            prefix@ == q@ + seq!['/'],
            paths.deep_view() == mv.take(i as int).filter(fo),
        decreases d.matched_repo_paths.len() - i,
    {
        assert(mv.take(i + 1) =~= mv.take(i as int).push(mv[i as int]));
        proof {
            mv.take(i as int).lemma_filter_push(mv[i as int], fo);
        }
        let p = &d.matched_repo_paths[i];
        assert(p@ == mv[i as int]);
        let pc = to_chars(p.as_str());
        if str_eq(p.as_str(), q.as_str()) || starts_with(&pc, &prefix) {
            push_string(&mut paths, clone_string(p));
        }
        i += 1;
    }
    assert(mv.take(d.matched_repo_paths.len() as int) =~= mv);
    let overlap = paths.len() > 0;
    let mut scopes: Vec<String> = Vec::new();
    let mut k: usize = 0;
    while k < d.scope_paths.len()
        invariant
            k <= d.scope_paths.len(),
            sv == d.scope_paths.deep_view(),
            fs == scope_pred(q@),
            forall|m: int| 0 <= m < k ==> glob_pattern_valid(#[trigger] d.scope_paths.deep_view()[m]),
            scopes.deep_view() == sv.take(k as int).filter(fs),
        decreases d.scope_paths.len() - k,
    {
        assert(sv.take(k + 1) =~= sv.take(k as int).push(sv[k as int]));
        proof {
            sv.take(k as int).lemma_filter_push(sv[k as int], fs);
        }
        let s = &d.scope_paths[k];
        assert(s@ == sv[k as int]);
        match GlobPattern::new(s.as_str()) {
            None => {
                return Err(SuggestError::InvalidScopePattern { pattern: clone_string(s) });
            },
            Some(p) => {
                if p.matches(q.as_str()) {
                    push_string(&mut scopes, clone_string(s));
                }
            },
        }
        k += 1;
    }
    assert(sv.take(d.scope_paths.len() as int) =~= sv);
    let mut reasons: Vec<String> = Vec::new();
    if overlap {
        push_string(&mut reasons, String::from_str("indexed-path-overlap"));
    }
    if scopes.len() > 0 {
        push_string(&mut reasons, String::from_str("scope-pattern-match"));
    }
    assert(reasons.deep_view() =~= doc_reasons(*d, q@));
    if reasons.len() == 0 {
        return Ok(None);
    }
    extend_strings(&mut paths, &scopes);
    let matched_paths = sort_dedup_strings(&paths);
    Ok(
        Some(
            Suggestion {
                id: clone_string(id),
                file: clone_string(&d.file),
                active_concerns: clone_strings(&d.active_concerns),
                matched_paths,
                reasons,
            },
        ),
    )
}

/// The documents of the index to suggest for `query`: those with a matched
/// repository path at or under the path, or a scope pattern matching it.
/// More reasons first, then by file.
pub fn suggest_for_path(query: &str, documents: &Vec<(String, IndexedDocument)>) -> (r: Result<
    Vec<Suggestion>,
    SuggestError,
>)
    ensures
        r matches Err(SuggestError::EmptyPath) ==> trim(query@).len() == 0,
        r matches Err(SuggestError::InvalidScopePattern { .. }) ==> trim(query@).len() > 0
            && !index_patterns_valid(documents@),
        r is Ok <==> trim(query@).len() > 0 && index_patterns_valid(documents@),
        r matches Ok(v) ==> exists|pre: Seq<Suggestion>|
            #[trigger] suggestions_of(pre, documents@, spec_normalize_path(query@))
                && stable_sort_of(v@, pre),
{
    let qc = to_chars(query);
    let qt = trim_chars(&qc);
    if qt.len() == 0 {
        return Err(SuggestError::EmptyPath);
    }
    let q = normalize_path(query);
    let ghost qv = q@;
    let ghost docs = documents@;
    let ghost f = is_suggested(qv);
    let mut pre: Vec<Suggestion> = Vec::new();
    let mut j: usize = 0;
    while j < documents.len()
        invariant
            j <= documents.len(),
            docs == documents@,
            qv == q@,
            qv == spec_normalize_path(query@),
            trim(query@).len() > 0,
            f == is_suggested(qv),
            forall|a: int, k: int|
                0 <= a < j && 0 <= k < docs[a].1.scope_paths.len() ==> glob_pattern_valid(
                    #[trigger] docs[a].1.scope_paths.deep_view()[k],
                ),
            suggestions_of(pre@, docs.take(j as int), qv),
        decreases documents.len() - j,
    {
        assert(docs.take(j + 1) =~= docs.take(j as int).push(docs[j as int]));
        proof {
            docs.take(j as int).lemma_filter_push(docs[j as int], f);
        }
        let ghost prev = pre@;
        match suggest_document(&documents[j].0, &documents[j].1, &q) {
            Err(e) => {
                proof {
                    let k = choose|k: int|
                        0 <= k < docs[j as int].1.scope_paths.len() && !glob_pattern_valid(
                            docs[j as int].1.scope_paths.deep_view()[k],
                        ) && (forall|m: int|
                            0 <= m < k ==> glob_pattern_valid(
                                #[trigger] docs[j as int].1.scope_paths.deep_view()[m],
                            )) && (e matches SuggestError::InvalidScopePattern { pattern }
                            && pattern@ == docs[j as int].1.scope_paths.deep_view()[k]);
                    if index_patterns_valid(documents@) {
                        assert(glob_pattern_valid(docs[j as int].1.scope_paths.deep_view()[k]));
                    }
                    assert(!index_patterns_valid(documents@));
                    assert(trim(query@).len() > 0);
                }
                return Err(e);
            },
            Ok(None) => {
                assert(docs.take(j + 1).filter(f) == docs.take(j as int).filter(f));
            },
            Ok(Some(s)) => {
                pre.push(s);
                assert forall|k: int| 0 <= k < pre.len() implies suggestion_for(
                    docs.take(j + 1).filter(f)[k].0@,
                    docs.take(j + 1).filter(f)[k].1,
                    qv,
                    #[trigger] pre@[k],
                ) by {
                    if k < prev.len() {
                        assert(pre@[k] == prev[k]);
                        assert(docs.take(j + 1).filter(f)[k] == docs.take(j as int).filter(f)[k]);
                    }
                }
            },
        }
        j += 1;
    }
    assert(docs.take(documents.len() as int) =~= docs);
    let ghost pv = pre@;
    let out = stable_sort(pre);
    assert(suggestions_of(pv, documents@, spec_normalize_path(query@)) && stable_sort_of(out@, pv));
    Ok(out)
}

} // verus!
