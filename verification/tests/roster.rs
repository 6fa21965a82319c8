use ctx::commands::check::{
    git_object_spec, registry_issues, sort_issues, staged_files_from_output, Issue, IssueCode,
    Severity,
};
use ctx::commands::gc::gc_entries;
use ctx::commands::list::build_rows;
use ctx::document::{Frontmatter, Scope, Status, SupersededBy};
use ctx::registry::{ConcernRosterEntry, DocumentEntry, Registry};

fn fm(id: &str, concerns: &[&str], sb: Vec<SupersededBy>) -> Frontmatter {
    Frontmatter {
        id: id.into(),
        created: "2025-10-15T14:23:00+00:00".into(),
        status: Status::Current,
        concerns: concerns.iter().map(|s| s.to_string()).collect(),
        scope: Scope { paths: vec![], components: vec![] },
        superseded_by: sb,
    }
}

#[test]
fn builds_rows_from_registry_roster() {
    let registry = Registry {
        schema_version: 1,
        generated_at: "2025-10-15T14:23:00+00:00".into(),
        generated_from_commit: None,
        documents: vec![(
            "ctx-a".to_string(),
            DocumentEntry {
                file: ".context/a.md".into(),
                created: "2025-10-15T14:23:00+00:00".into(),
                status: Status::Current,
                concerns: vec!["billing".into()],
                active_concerns: vec!["billing".into()],
                scope: Scope { paths: vec![], components: vec![] },
                superseded_by: vec![],
            },
        )],
        concern_roster: vec![("billing".to_string(), ConcernRosterEntry { owners: vec!["ctx-a".into()] })],
        orphaned_concerns: vec![],
        multi_owned_concerns: vec![],
    };
    let rows = build_rows(&registry, &vec![false]);
    assert_eq!(rows.len(), 1);
    assert_eq!(rows[0].concern, "billing");
    assert_eq!(rows[0].owners, vec!["ctx-a".to_string()]);
    assert!(rows[0].notes.is_empty());
}

#[test]
fn notes_multi_owned_and_stale_owners() {
    let docs = vec![
        (".context/a.md".to_string(), fm("ctx-a", &["billing"], vec![])),
        (".context/b.md".to_string(), fm("ctx-b", &["billing"], vec![])),
    ];
    let registry = Registry::build(&docs, "t", None);
    let rows = build_rows(&registry, &vec![false, true]);
    assert_eq!(rows[0].notes, vec!["multi-owned".to_string(), "stale:ctx-b".to_string()]);
}

#[test]
fn lists_fully_superseded_documents_by_file() {
    let docs = vec![
        (".context/z.md".to_string(), fm("ctx-a", &["x"], vec![SupersededBy { id: "ctx-c".into(), concerns: vec!["x".into()] }])),
        (".context/b.md".to_string(), fm("ctx-b", &["y"], vec![SupersededBy { id: "ctx-c".into(), concerns: vec!["y".into()] }])),
        (".context/c.md".to_string(), fm("ctx-c", &["x", "y"], vec![])),
    ];
    let mut registry = Registry::build(&docs, "t", None);
    for (_, e) in registry.documents.iter_mut() {
        if e.active_concerns.is_empty() {
            e.status = Status::Superseded;
        }
    }
    let entries = gc_entries(&registry);
    let files: Vec<&str> = entries.iter().map(|e| e.file.as_str()).collect();
    assert_eq!(files, vec![".context/b.md", ".context/z.md"]);
}

#[test]
fn raises_registry_issues_in_order() {
    let docs = vec![
        (".context/a.md".to_string(), fm("ctx-a", &["auth", "old"], vec![SupersededBy { id: "ctx-gone".into(), concerns: vec!["old".into()] }])),
        (".context/b.md".to_string(), fm("ctx-b", &["auth"], vec![])),
    ];
    let registry = Registry::build(&docs, "t", None);
    let issues = registry_issues(&registry, false, &vec![true, false]);
    let codes: Vec<&str> = issues.iter().map(|i| i.code.as_str()).collect();
    assert_eq!(codes, vec!["ORPHANED_CONCERN", "STALE_DOCUMENT", "MULTI_OWNED_CONCERN"]);
    assert_eq!(issues[0].message, "concern old has no active owner");
    assert_eq!(issues[1].message, "document ctx-a appears stale relative to its scoped paths");
    assert_eq!(issues[1].file, ".context/a.md");
    assert_eq!(issues[2].message, "concern auth has multiple active owners: ctx-a, ctx-b");
    assert!(matches!(issues[2].severity, Severity::Warning));
    let strict = registry_issues(&registry, true, &vec![false, false]);
    assert!(matches!(strict[0].severity, Severity::Error));
}

#[test]
fn sorts_issues_by_file_code_and_message() {
    let mk = |file: &str, code: IssueCode, msg: &str| Issue {
        severity: Severity::Error,
        code,
        file: file.into(),
        message: msg.into(),
    };
    let issues = sort_issues(vec![
        mk("b.md", IssueCode::AppendOnlyViolation, "x"),
        mk("a.md", IssueCode::StaleDocument, "m"),
        mk("a.md", IssueCode::FrontmatterInvalid, "z"),
        mk("a.md", IssueCode::FrontmatterInvalid, "b"),
    ]);
    let got: Vec<(String, String)> = issues.iter().map(|i| (i.file.clone(), i.message.clone())).collect();
    assert_eq!(
        got,
        vec![
            ("a.md".to_string(), "b".to_string()),
            ("a.md".to_string(), "z".to_string()),
            ("a.md".to_string(), "m".to_string()),
            ("b.md".to_string(), "x".to_string()),
        ]
    );
}

#[test]
fn reads_staged_markdown_files() {
    let files = staged_files_from_output(".context/b.md\n  .context/a.md \n.context/notes.txt\n\n.context/a.md\n");
    assert_eq!(files, vec![".context/a.md".to_string(), ".context/b.md".to_string()]);
    assert_eq!(git_object_spec(":", ".context/a.md"), ":.context/a.md");
    assert_eq!(git_object_spec("HEAD", ".context/a.md"), "HEAD:.context/a.md");
}
