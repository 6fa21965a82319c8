use ctx::cli::SearchArgs;
use ctx::commands::search::{
    find_matches, search_result, search_targets, sort_results, validate_query, SearchError,
};
use ctx::document::{Scope, Status};
use ctx::registry::{DocumentEntry, Registry};

fn entry(file: &str, status: Status) -> DocumentEntry {
    DocumentEntry {
        file: file.into(),
        created: "2025-10-15T14:23:00+00:00".into(),
        status,
        concerns: vec!["a".into()],
        active_concerns: vec!["a".into()],
        scope: Scope { paths: vec![], components: vec![] },
        superseded_by: vec![],
    }
}

fn registry() -> Registry {
    Registry {
        schema_version: 1,
        generated_at: "2025-10-15T14:23:00+00:00".into(),
        generated_from_commit: None,
        documents: vec![
            ("ctx-a".into(), entry(".context/a.md", Status::Current)),
            ("ctx-b".into(), entry(".context/b.md", Status::Superseded)),
            ("ctx-c".into(), entry(".context/c.md", Status::PartiallySuperseded)),
        ],
        concern_roster: vec![],
        orphaned_concerns: vec![],
        multi_owned_concerns: vec![],
    }
}

#[test]
fn rejects_empty_query() {
    let args = SearchArgs { query: " ".into(), include_superseded: false };
    let err = search_targets(&registry(), &args).unwrap_err();
    assert_eq!(err, SearchError::EmptyQuery);
    assert_eq!(err.message(), "--query must not be empty");
}

#[test]
fn finds_matching_lines() {
    let matches = find_matches("alpha\nbeta alpha\n", "alpha");
    assert_eq!(matches.len(), 2);
    assert_eq!(matches[0].line_number, 1);
    assert_eq!(matches[1].line_number, 2);
}

#[test]
fn skips_fully_superseded_documents_unless_asked() {
    let args = SearchArgs { query: "x".into(), include_superseded: false };
    assert_eq!(search_targets(&registry(), &args).unwrap(), vec![0, 2]);
    let args = SearchArgs { query: "x".into(), include_superseded: true };
    assert_eq!(search_targets(&registry(), &args).unwrap(), vec![0, 1, 2]);
}

#[test]
fn searches_bodies_only_and_orders_results() {
    let e = entry(".context/z.md", Status::Current);
    assert!(search_result("ctx-z", &e, "---\nid: needle\n---\nbody\n", "needle").is_none());
    let hit = search_result("ctx-z", &e, "---\nid: ctx-z\n---\nfirst\nthe needle here\n", "needle").unwrap();
    assert_eq!(hit.matches.len(), 1);
    assert_eq!(hit.matches[0].line_number, 2);
    assert_eq!(hit.matches[0].line, "the needle here");

    let other = search_result("ctx-a", &entry(".context/a.md", Status::Current), "needle\n", "needle").unwrap();
    let sorted = sort_results(vec![hit, other]);
    assert_eq!(sorted[0].id, "ctx-a");
    assert_eq!(sorted[1].id, "ctx-z");
}

#[test]
fn validates_query_text() {
    assert_eq!(validate_query("\t \n"), Err(SearchError::EmptyQuery));
    assert_eq!(validate_query(""), Err(SearchError::EmptyQuery));
    assert_eq!(validate_query("  needle "), Ok(()));
}
