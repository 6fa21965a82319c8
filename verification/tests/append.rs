use ctx::commands::append::{append_block, append_note, document_file};
use ctx::document::{Frontmatter, Scope, Status, SupersededBy};
use ctx::registry::Registry;

fn frontmatter() -> Frontmatter {
    Frontmatter {
        id: "ctx-7f3a9b".into(),
        created: "2025-10-15T14:23:00+00:00".into(),
        status: Status::Current,
        concerns: vec!["billing".into(), "token-expiry".into()],
        scope: Scope { paths: vec![], components: vec![] },
        superseded_by: vec![SupersededBy { id: "ctx-2a81fc".into(), concerns: vec!["token-expiry".into()] }],
    }
}

#[test]
fn appends_blocks_consistently() {
    let body = append_block("Existing text.\n", "billing", "New note");
    assert_eq!(body, "Existing text.\n\n### billing\n\nNew note\n");
}

#[test]
fn appends_to_empty_body_and_trims_text() {
    assert_eq!(append_block("\n\n", "a", "  note  "), "### a\n\nnote\n");
}

#[test]
fn appends_to_active_concern() {
    let body = append_note(&frontmatter(), "Initial body.\n", "billing", "Investigated renewal edge case.", 3).unwrap();
    assert!(body.contains("### billing"));
    assert!(body.contains("Investigated renewal edge case."));
    assert_eq!(body, "Initial body.\n\n### billing [r3]\n\nInvestigated renewal edge case.\n");
}

#[test]
fn rejects_append_to_inactive_concern() {
    let err = append_note(&frontmatter(), "Initial body.\n", "token-expiry", "This should fail", 3).unwrap_err();
    assert!(err.message().contains("is not active"));
    assert_eq!(err.message(), "concern token-expiry is not active in document ctx-7f3a9b");
}

#[test]
fn finds_document_file_or_reports_missing() {
    let registry = Registry {
        schema_version: 1,
        generated_at: String::new(),
        generated_from_commit: None,
        documents: vec![],
        concern_roster: vec![],
        orphaned_concerns: vec![],
        multi_owned_concerns: vec![],
    };
    assert_eq!(document_file(&registry, "ctx-1").unwrap_err().message(), "document ctx-1 not found");
}

#[test]
fn appends_ranked_block_to_empty_body() {
    assert_eq!(append_note(&frontmatter(), "\n", "billing", " note ", 5).unwrap(), "### billing [r5]\n\nnote\n");
}
