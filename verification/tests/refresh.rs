use ctx::cli::RefreshArgs;
use ctx::commands::refresh::{
    normalize_name, plan_refresh, refresh_documents, refresh_source, RefreshError,
};
use ctx::document::{Frontmatter, Scope, Status};
use ctx::id::generate_id;
use ctx::registry::Registry;

fn source() -> Frontmatter {
    Frontmatter {
        id: "ctx-source".into(),
        created: "2025-10-15T14:23:00+00:00".into(),
        status: Status::Current,
        concerns: vec!["token-expiry".into(), "session-management".into()],
        scope: Scope { paths: vec!["src/auth/**".into()], components: vec!["auth-service".into()] },
        superseded_by: vec![],
    }
}

fn registry() -> Registry {
    let docs = vec![(".context/source.md".to_string(), source())];
    Registry::build(&docs, "2025-10-15T14:23:00+00:00", None)
}

#[test]
fn refreshes_single_owner_concern() {
    let (id, file) = refresh_source(&registry(), "token-expiry", None).unwrap();
    assert_eq!(id, "ctx-source");
    assert_eq!(file, ".context/source.md");
    let out = refresh_documents(
        source(),
        "### token-expiry\n\nOld draft\n\n### session-management\n\nKeep\n",
        "token-expiry",
        "token-expiry-refresh",
        "2025-10-16T09:00:00+00:00",
        true,
    )
    .unwrap();
    assert_eq!(out.new_frontmatter.concerns, vec!["token-expiry".to_string()]);
    assert!(out.new_body.contains("### token-expiry"));
    assert_eq!(out.source_frontmatter.status, Status::PartiallySuperseded);
    assert_eq!(out.source_frontmatter.superseded_by[0].id, out.new_frontmatter.id);
    assert_eq!(
        out.new_frontmatter.id,
        generate_id("token-expiry-refresh", "2025-10-16T09:00:00+00:00")
    );
    assert_eq!(out.new_frontmatter.scope.paths, vec!["src/auth/**".to_string()]);
}

#[test]
fn refresh_without_draft_starts_empty() {
    let out = refresh_documents(source(), "body\n", "token-expiry", "n", "t", false).unwrap();
    assert_eq!(out.new_body, "");
    let err = refresh_documents(source(), "body\n", "billing", "n", "t", false).unwrap_err();
    assert_eq!(err.message(), "concern billing is not active in document ctx-source");
}

#[test]
fn normalizes_document_names() {
    assert_eq!(normalize_name(" notes.md "), "notes");
    assert_eq!(normalize_name("archive.tar.gz"), "archive.tar.gz");
    assert_eq!(normalize_name("release-1.2"), "release-1.2");
    assert_eq!(normalize_name("token-expiry-refresh.md"), "token-expiry-refresh");
    assert_eq!(normalize_name(".md"), ".md");
    assert_eq!(normalize_name(".hidden"), ".hidden");
    assert_eq!(normalize_name("dir.v2/file"), "dir.v2/file");
    assert_eq!(normalize_name("plain"), "plain");
}

#[test]
fn plans_refresh_paths() {
    let args = RefreshArgs { concern: " token-expiry ".into(), from: None, name: "next.md".into(), draft_body: false };
    let plan = plan_refresh(&args, "/repo").unwrap();
    assert_eq!(plan.concern, "token-expiry");
    assert_eq!(plan.name, "next");
    assert_eq!(plan.file, "/repo/.context/next.md");
    let blank = RefreshArgs { concern: "  ".into(), from: None, name: "x".into(), draft_body: false };
    assert_eq!(plan_refresh(&blank, ".").unwrap_err().message(), "--concern is required");
}

#[test]
fn chooses_source_owner() {
    let mut a = source();
    a.id = "ctx-a".into();
    let mut b = source();
    b.id = "ctx-b".into();
    let docs = vec![(".context/a.md".to_string(), a), (".context/b.md".to_string(), b)];
    let registry = Registry::build(&docs, "t", None);
    let err = refresh_source(&registry, "token-expiry", None).unwrap_err();
    assert_eq!(
        err.message(),
        "concern token-expiry has multiple active owners: ctx-a, ctx-b; use --from to disambiguate"
    );
    assert_eq!(refresh_source(&registry, "token-expiry", Some("ctx-b")).unwrap().0, "ctx-b");
    assert!(matches!(
        refresh_source(&registry, "token-expiry", Some("ctx-z")),
        Err(RefreshError::NotAnOwner { .. })
    ));
    assert_eq!(
        refresh_source(&registry, "nothing", None).unwrap_err().message(),
        "concern nothing has no active owner"
    );
}
