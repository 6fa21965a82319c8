use ctx::commands::suggest::{normalize_path, suggest_for_path, SuggestError};
use ctx::index::{match_scope_paths, CodeIndex, IndexedDocument};

fn doc(file: &str, scope: &[&str], matched: &[&str]) -> IndexedDocument {
    IndexedDocument {
        file: file.into(),
        active_concerns: vec!["billing".into()],
        components: vec!["ctx-cli".into()],
        scope_paths: scope.iter().map(|s| s.to_string()).collect(),
        matched_repo_paths: matched.iter().map(|s| s.to_string()).collect(),
        missing_scope_paths: vec![],
        last_updated: None,
        commits_in_scope_since_update: None,
    }
}

#[test]
fn suggests_documents_for_indexed_path_overlap() {
    let documents = vec![(
        "ctx-1".to_string(),
        doc(".context/note.md", &["src/**"], &["src/main.rs", "src/cli.rs"]),
    )];
    let suggestions = suggest_for_path("src", &documents).unwrap();
    assert_eq!(suggestions.len(), 1);
    assert_eq!(suggestions[0].id, "ctx-1");
}

#[test]
fn ranks_by_reason_count_then_file() {
    let documents = vec![
        ("ctx-1".to_string(), doc("b.md", &["docs/**"], &["src/a.rs"])),
        ("ctx-2".to_string(), doc("z.md", &["src/*"], &["src/a.rs"])),
        ("ctx-3".to_string(), doc("a.md", &["lib/**"], &["lib/x.rs"])),
    ];
    let s = suggest_for_path("src/a.rs/", &documents).unwrap();
    assert_eq!(s.len(), 2);
    assert_eq!(s[0].id, "ctx-2");
    assert_eq!(s[0].reasons, vec!["indexed-path-overlap".to_string(), "scope-pattern-match".to_string()]);
    assert_eq!(s[0].matched_paths, vec!["src/*".to_string(), "src/a.rs".to_string()]);
    assert_eq!(s[1].id, "ctx-1");
}

#[test]
fn rejects_empty_path_and_bad_patterns() {
    assert!(matches!(suggest_for_path("  ", &vec![]), Err(SuggestError::EmptyPath)));
    let documents = vec![("ctx-1".to_string(), doc("a.md", &["a["], &[]))];
    let err = suggest_for_path("src", &documents).unwrap_err();
    assert_eq!(err.message(), "invalid scope pattern in index: a[");
    assert_eq!(normalize_path(" src/// "), "src");
}

#[test]
fn matches_scope_paths_against_repository() {
    let repo = vec!["src/lib.rs".to_string(), "src/main.rs".to_string(), "README.md".to_string()];
    let (matched, missing) = match_scope_paths(
        &vec!["src/*.rs".into(), "src/missing/**".into(), "a[".into(), "src/lib.rs".into()],
        &repo,
    );
    assert_eq!(matched, vec!["src/lib.rs".to_string(), "src/main.rs".to_string()]);
    assert_eq!(missing, vec!["a[".to_string(), "src/missing/**".to_string()]);
}

#[test]
fn builds_code_index_with_matched_and_missing_paths() {
    let fm = ctx::document::Frontmatter {
        id: "ctx-1".into(),
        created: "2025-10-15T14:23:00+00:00".into(),
        status: ctx::document::Status::Current,
        concerns: vec!["billing".into()],
        scope: ctx::document::Scope { paths: vec!["src/**".into(), "src/missing/**".into()], components: vec![] },
        superseded_by: vec![],
    };
    let registry = ctx::registry::Registry::build(&vec![(".context/note.md".to_string(), fm)], "t", None);
    let index = CodeIndex::build(
        &registry,
        vec!["src/lib.rs".to_string()],
        &vec![(None, Some(3))],
        "t",
        None,
    );
    assert_eq!(index.documents.len(), 1);
    let d = &index.documents[0].1;
    assert_eq!(d.matched_repo_paths, vec!["src/lib.rs".to_string()]);
    assert_eq!(d.missing_scope_paths, vec!["src/missing/**".to_string()]);
    assert_eq!(d.commits_in_scope_since_update, None);
}
