//! Literal search over the bodies of context documents.
use vstd::prelude::*;
use crate::cli::SearchArgs;
use crate::commands::assemble::strip_frontmatter;
use crate::document::{spec_strip_frontmatter, Status};
use crate::registry::{DocumentEntry, Registry};
use crate::sort::{stable_sort, stable_sort_of, SortKey};
use crate::text::{
    clone_string, clone_strings, contains_chars, find, from_chars, lemma_seq_le_total,
    lemma_seq_le_transitive, lemma_seq_lt_irreflexive, lemma_seq_lt_transitive,
    lemma_seq_lt_trichotomy, lines, seq_le, seq_lt, split_lines, str_eq, str_le, str_lt,
    to_chars, trim, trim_chars,
};

verus! {

broadcast use vstd::seq_lib::group_seq_properties, vstd::seq_lib::group_filter_ensures, crate::views::lemma_char_vec_deep_view;

/// A line of a body that holds the query, numbered from 1.
#[derive(Clone, Debug)]
pub struct SearchMatch {
    pub line_number: usize,
    pub line: String,
}

/// The matching lines of one document.
#[derive(Clone, Debug)]
pub struct SearchResult {
    pub id: String,
    pub file: String,
    pub active_concerns: Vec<String>,
    pub matches: Vec<SearchMatch>,
}

/// A query of whitespace only.
#[derive(Clone, Copy, Debug, PartialEq, Eq, Structural)]
pub enum SearchError {
    EmptyQuery,
}

impl SearchError {
    pub fn message(&self) -> (r: String)
        ensures
            r@ == "--query must not be empty"@,
    {
        String::from_str("--query must not be empty")
    }
}

pub open spec fn match_view(m: SearchMatch) -> (int, Seq<char>) {
    (m.line_number as int, m.line@)
}

pub open spec fn matches_view(ms: Seq<SearchMatch>) -> Seq<(int, Seq<char>)> {
    ms.map_values(|m: SearchMatch| match_view(m))
}

/// Each line with its number, counting from 1.
pub open spec fn numbered(ls: Seq<Seq<char>>) -> Seq<(int, Seq<char>)> {
    Seq::new(ls.len(), |i: int| (i + 1, ls[i]))
}

pub open spec fn holds_query(q: Seq<char>) -> spec_fn((int, Seq<char>)) -> bool {
    |p: (int, Seq<char>)| find(p.1, q) is Some
}

/// The numbered lines of `body` that contain `query`.
pub open spec fn spec_find_matches(body: Seq<char>, query: Seq<char>) -> Seq<(int, Seq<char>)> {
    numbered(lines(body)).filter(holds_query(query))
}

/// The lines of `body` that contain `query`, with their numbers.
pub fn find_matches(body: &str, query: &str) -> (r: Vec<SearchMatch>)
    ensures
        matches_view(r@) == spec_find_matches(body@, query@),
{
    let b = to_chars(body);
    let q = to_chars(query);
    let ls = split_lines(&b);
    let ghost lv = ls.deep_view();
    let ghost f = holds_query(query@);
    let ghost nv = numbered(lv);
    let mut out: Vec<SearchMatch> = Vec::new();
    let mut i: usize = 0;
    while i < ls.len()
        invariant
            i <= ls.len(),
            lv == ls.deep_view(),
            q@ == query@,
            f == holds_query(query@),
            nv == numbered(lv),
            matches_view(out@) == nv.take(i as int).filter(f),
        decreases ls.len() - i,
    {
        assert(lv[i as int] == ls@[i as int]@);
        assert(nv.take(i + 1) =~= nv.take(i as int).push(nv[i as int]));
        proof {
            nv.take(i as int).lemma_filter_push(nv[i as int], f);
        }
        if contains_chars(&ls[i], &q) {
            let m = SearchMatch { line_number: i + 1, line: from_chars(&ls[i]) };
            let ghost prev = out@;
            out.push(m);
            assert(matches_view(out@) =~= matches_view(prev).push(match_view(m)));
        } else {
            assert(nv.take(i + 1).filter(f) == nv.take(i as int).filter(f));
        }
        i += 1;
    }
    assert(nv.take(ls.len() as int) =~= nv);
    out
}

/// The positions of the registry's documents that a search reads: all of
/// them with `include_superseded`, else those not fully superseded.
pub open spec fn searchable(docs: Seq<(String, DocumentEntry)>, include_superseded: bool) -> Seq<int> {
    Seq::new(docs.len(), |j: int| j).filter(
        |j: int| include_superseded || docs[j].1.status != Status::Superseded,
    )
}

pub open spec fn as_ints(v: Seq<usize>) -> Seq<int> {
    v.map_values(|x: usize| x as int)
}

/// Refuses a blank query.
pub fn validate_query(query: &str) -> (r: Result<(), SearchError>)
    ensures
        r is Err <==> trim(query@).len() == 0,
{
    let q = to_chars(query);
    let t = trim_chars(&q);
    if t.len() == 0 {
        Err(SearchError::EmptyQuery)
    } else {
        Ok(())
    }
}

/// The documents a search reads, in registry order; refused when the query
/// is blank.
pub fn search_targets(registry: &Registry, args: &SearchArgs) -> (r: Result<Vec<usize>, SearchError>)
    ensures
        r is Err <==> trim(args.query@).len() == 0,
        r matches Ok(v) ==> as_ints(v@) == searchable(registry.documents@, args.include_superseded),
{
    if let Err(e) = validate_query(args.query.as_str()) {
        return Err(e);
    }
    let ghost docs = registry.documents@;
    let ghost all = Seq::new(docs.len(), |j: int| j);
    let ghost f = |j: int| args.include_superseded || docs[j].1.status != Status::Superseded;
    let mut out: Vec<usize> = Vec::new();
    let mut j: usize = 0;
    while j < registry.documents.len()
        invariant
            j <= registry.documents.len(),
            docs == registry.documents@,
            all == Seq::new(docs.len(), |j: int| j),
            f == (|j: int| args.include_superseded || docs[j].1.status != Status::Superseded),
            as_ints(out@) == all.take(j as int).filter(f),
        decreases registry.documents.len() - j,
    {
        assert(all.take(j + 1) =~= all.take(j as int).push(all[j as int]));
        proof {
            all.take(j as int).lemma_filter_push(all[j as int], f);
        }
        if args.include_superseded || registry.documents[j].1.status != Status::Superseded {
            let ghost prev = out@;
            out.push(j);
            assert(as_ints(out@) =~= as_ints(prev).push(j as int));
        } else {
            assert(all.take(j + 1).filter(f) == all.take(j as int).filter(f));
        }
        j += 1;
    }
    assert(all.take(registry.documents.len() as int) =~= all);
    Ok(out)
}

/// The result for document `id` whose file holds `content`, when a line of
/// its body holds the query.
pub fn search_result(id: &str, entry: &DocumentEntry, content: &str, query: &str) -> (r: Option<
    SearchResult,
>)
    ensures
        r is None <==> spec_find_matches(spec_strip_frontmatter(content@), query@).len() == 0,
        r matches Some(s) ==> {
            &&& s.id@ == id@
            &&& s.file@ == entry.file@
            &&& s.active_concerns.deep_view() == entry.active_concerns.deep_view()
            &&& matches_view(s.matches@) == spec_find_matches(
                spec_strip_frontmatter(content@),
                query@,
            )
        },
{
    let body = strip_frontmatter(content);
    let matches = find_matches(body.as_str(), query);
    if matches.len() == 0 {
        return None;
    }
    Some(
        SearchResult {
            id: String::from_str(id),
            file: clone_string(&entry.file),
            active_concerns: clone_strings(&entry.active_concerns),
            matches,
        },
    )
}

/// Results are ordered by file, then by id.
impl SortKey for SearchResult {
    open spec fn key_le(&self, other: &Self) -> bool {
        seq_lt(self.file@, other.file@) || (self.file@ == other.file@ && seq_le(
            self.id@,
            other.id@,
        ))
    }

    fn key_le_exec(&self, other: &Self) -> (r: bool) {
        str_lt(self.file.as_str(), other.file.as_str()) || (str_eq(
            self.file.as_str(),
            other.file.as_str(),
        ) && str_le(self.id.as_str(), other.id.as_str()))
    }

    proof fn lemma_key_total(a: &Self, b: &Self) {
        lemma_seq_lt_trichotomy(a.file@, b.file@);
        lemma_seq_le_total(a.id@, b.id@);
    }

    proof fn lemma_key_trans(a: &Self, b: &Self, c: &Self) {
        if seq_lt(a.file@, b.file@) && seq_lt(b.file@, c.file@) {
            lemma_seq_lt_transitive(a.file@, b.file@, c.file@);
        }
        if a.file@ == b.file@ && b.file@ == c.file@ {
            lemma_seq_lt_irreflexive(a.file@);
            lemma_seq_le_transitive(a.id@, b.id@, c.id@);
        }
    }
}

/// The results ordered by file, then id.
pub fn sort_results(results: Vec<SearchResult>) -> (r: Vec<SearchResult>)
    ensures
        stable_sort_of(r@, results@),
{
    stable_sort(results)
}

} // verus!
