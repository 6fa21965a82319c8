use ctx::cli::{AssembleArgs, AssembleScope};
use ctx::commands::assemble::{
    format_reasons, registry_candidate, select_candidates, select_documents, strip_frontmatter,
    subtree_candidate, AssembleError, AssemblyCandidate, InclusionReason, ReasonKind,
};
use ctx::document::{Frontmatter, Scope, Status};
use ctx::registry::{DocumentEntry, Registry};

fn base_args() -> AssembleArgs {
    AssembleArgs {
        path: vec![],
        component: None,
        concern: vec![],
        paths_only: false,
        explain: false,
        scope: AssembleScope::Current,
    }
}

fn entry(file: &str, status: Status, active: &[&str], paths: &[&str], comps: &[&str]) -> DocumentEntry {
    DocumentEntry {
        file: file.into(),
        created: "2025-10-15T14:23:00+00:00".into(),
        status,
        concerns: active.iter().map(|s| s.to_string()).collect(),
        active_concerns: active.iter().map(|s| s.to_string()).collect(),
        scope: Scope {
            paths: paths.iter().map(|s| s.to_string()).collect(),
            components: comps.iter().map(|s| s.to_string()).collect(),
        },
        superseded_by: vec![],
    }
}

fn registry(documents: Vec<(String, DocumentEntry)>) -> Registry {
    Registry {
        schema_version: 1,
        generated_at: "2025-10-15T14:23:00+00:00".into(),
        generated_from_commit: None,
        documents,
        concern_roster: vec![],
        orphaned_concerns: vec![],
        multi_owned_concerns: vec![],
    }
}

fn candidate(id: &str, file: &str, status: Status, active: &[&str], paths: &[&str]) -> AssemblyCandidate {
    AssemblyCandidate {
        id: id.into(),
        file: file.into(),
        status,
        active_concerns: active.iter().map(|s| s.to_string()).collect(),
        scope_paths: paths.iter().map(|s| s.to_string()).collect(),
        components: vec![],
        content: String::new(),
    }
}

#[test]
fn strips_frontmatter_from_document() {
    let content = "---\nid: ctx-1\n---\nbody\n";
    assert_eq!(strip_frontmatter(content), "body\n");
}

#[test]
fn keeps_documents_without_frontmatter_whole() {
    assert_eq!(strip_frontmatter("no frontmatter\n"), "no frontmatter\n");
    assert_eq!(strip_frontmatter("---\nunterminated\n"), "---\nunterminated\n");
}

#[test]
fn selects_matching_documents() {
    let registry = registry(vec![(
        "ctx-a".to_string(),
        entry("Cargo.toml", Status::Current, &["billing"], &["src/billing/**"], &["billing-service"]),
    )]);
    let mut args = base_args();
    args.component = Some("billing-service".into());

    let contents = vec!["---\nid: ctx-a\n---\nbody\n".to_string()];
    let docs = select_documents(&registry, &contents, &args).unwrap();
    assert_eq!(docs.len(), 1);
    assert_eq!(docs[0].id, "ctx-a");
    assert!(docs[0].matched_concerns.is_empty());
    assert_eq!(docs[0].reasons.len(), 1);
}

#[test]
fn selects_documents_matching_any_requested_concern() {
    let candidates = vec![
        candidate("ctx-a", "Cargo.toml", Status::Current, &["billing"], &[]),
        candidate("ctx-b", "README.md", Status::Current, &["auth", "sessions"], &[]),
    ];
    let mut args = base_args();
    args.concern = vec!["billing".into(), "sessions".into()];

    let docs = select_candidates(&candidates, &args).unwrap();
    assert_eq!(docs.len(), 2);
    assert_eq!(docs[0].id, "ctx-a");
    assert_eq!(docs[0].matched_concerns, vec!["billing".to_string()]);
    assert_eq!(docs[1].id, "ctx-b");
    assert_eq!(docs[1].matched_concerns, vec!["sessions".to_string()]);
}

#[test]
fn formats_explain_reasons() {
    let reasons = vec![
        InclusionReason {
            kind: ReasonKind::ConcernMatch,
            requested: "billing".into(),
            matched: "billing".into(),
        },
        InclusionReason {
            kind: ReasonKind::PathMatch,
            requested: "src/**".into(),
            matched: "src/billing/**".into(),
        },
    ];
    assert_eq!(format_reasons(&reasons), "concern billing, path src/billing/**");
}

#[test]
fn selects_all_active_documents_when_no_predicates_are_given() {
    let candidates = vec![
        candidate("ctx-a", "Cargo.toml", Status::Current, &["billing"], &[]),
        candidate("ctx-b", "README.md", Status::Superseded, &[], &[]),
    ];
    let mut args = base_args();
    args.explain = true;

    let docs = select_candidates(&candidates, &args).unwrap();
    assert_eq!(docs.len(), 1);
    assert_eq!(docs[0].id, "ctx-a");
    assert_eq!(docs[0].reasons.len(), 1);
    assert_eq!(docs[0].reasons[0].kind.as_str(), "default-active");
}

#[test]
fn selects_documents_matching_any_requested_path() {
    let candidates = vec![
        candidate("ctx-a", "Cargo.toml", Status::Current, &["billing"], &["src/billing/**"]),
        candidate("ctx-b", "README.md", Status::Current, &["auth"], &["src/auth/**"]),
    ];
    let mut args = base_args();
    args.path = vec!["src/billing/**".into(), "src/auth/**".into()];

    let docs = select_candidates(&candidates, &args).unwrap();
    assert_eq!(docs.len(), 2);
}

#[test]
fn assembles_document_content_with_sections_sorted_by_rank() {
    let registry = registry(vec![(
        "ctx-a".to_string(),
        entry("notes.md", Status::Current, &["billing", "auth"], &[], &[]),
    )]);
    let contents = vec![
        "---\nid: ctx-a\n---\n### billing [r2]\n\nLower\n\n### auth [r5]\n\nHigher\n".to_string(),
    ];
    let docs = select_documents(&registry, &contents, &base_args()).unwrap();
    assert_eq!(
        docs[0].content,
        "### auth [r5]\n\nHigher\n\n### billing [r2]\n\nLower\n"
    );
}

#[test]
fn rejects_invalid_path_pattern() {
    let mut args = base_args();
    args.path = vec!["src/**".into(), "a[".into(), "b[".into()];
    let err = select_candidates(&[].to_vec(), &args).unwrap_err();
    match &err {
        AssembleError::InvalidPattern { pattern } => assert_eq!(pattern, "a["),
    }
    assert_eq!(err.message(), "invalid path pattern a[");
}

#[test]
fn orders_selected_documents_by_file() {
    let candidates = vec![
        candidate("ctx-z", "z.md", Status::Current, &["a"], &[]),
        candidate("ctx-a", "a.md", Status::PartiallySuperseded, &["a"], &[]),
    ];
    let docs = select_candidates(&candidates, &base_args()).unwrap();
    assert_eq!(docs[0].file, "a.md");
    assert_eq!(docs[1].file, "z.md");
}

#[test]
fn reasons_cover_paths_components_and_concerns() {
    let mut c = candidate("ctx-a", "a.md", Status::Current, &["billing", "auth"], &["src/billing/**", "docs/**"]);
    c.components = vec!["api".into(), "web".into()];
    let mut args = base_args();
    args.path = vec!["src/billing/**".into()];
    args.component = Some("web".into());
    args.concern = vec!["billing".into(), "auth".into(), "billing".into(), "none".into()];
    let docs = select_candidates(&vec![c], &args).unwrap();
    assert_eq!(docs[0].matched_concerns, vec!["auth".to_string(), "billing".to_string()]);
    assert_eq!(
        format_reasons(&docs[0].reasons),
        "path src/billing/**, component web, concern auth, concern billing"
    );
}

#[test]
fn builds_registry_and_subtree_candidates() {
    let e = entry(".context/a.md", Status::Current, &["billing"], &["src/**"], &["api"]);
    let c = registry_candidate("ctx-a", &e, "---\nid: ctx-a\n---\nBody\n");
    assert_eq!(c.id, "ctx-a");
    assert_eq!(c.content, "Body\n");
    assert_eq!(c.scope_paths, vec!["src/**".to_string()]);

    let fm = Frontmatter {
        id: "ctx-child".into(),
        created: "2025-10-15T14:23:00+00:00".into(),
        status: Status::Current,
        concerns: vec!["child".into()],
        scope: Scope { paths: vec!["src/lib.rs".into(), "./src/lib.rs".into()], components: vec!["api".into()] },
        superseded_by: vec![],
    };
    let s = subtree_candidate("apps/api", "apps/api/.context/child.md", &fm, "### child [r4]\n\nChild note\n");
    assert_eq!(s.file, "apps/api/.context/child.md");
    assert_eq!(s.scope_paths, vec!["apps/api/src/lib.rs".to_string()]);
    assert_eq!(s.active_concerns, vec!["child".to_string()]);
}
