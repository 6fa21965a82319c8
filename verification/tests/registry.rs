use ctx::document::{Frontmatter, Scope, Status, SupersededBy};
use ctx::registry::{
    context_dir_from, registry_path, registry_path_from, Registry, SCHEMA_VERSION,
};

fn docs() -> Vec<(String, Frontmatter)> {
    let created = "2025-10-15T14:23:00+00:00".to_string();
    vec![
        (
            ".context/auth.md".into(),
            Frontmatter {
                id: "ctx-a".into(),
                created: created.clone(),
                status: Status::Current,
                concerns: vec!["authentication".into(), "token-expiry".into()],
                scope: Scope { paths: vec!["src/auth/**".into()], components: vec!["auth-service".into()] },
                superseded_by: vec![SupersededBy { id: "ctx-b".into(), concerns: vec!["token-expiry".into()] }],
            },
        ),
        (
            ".context/billing.md".into(),
            Frontmatter {
                id: "ctx-b".into(),
                created,
                status: Status::Current,
                concerns: vec!["token-expiry".into(), "billing-auth".into()],
                scope: Scope { paths: vec!["src/billing/**".into()], components: vec!["billing-service".into()] },
                superseded_by: vec![],
            },
        ),
    ]
}

fn roster_owners(r: &Registry, concern: &str) -> Vec<String> {
    r.concern_roster.iter().find(|(c, _)| c == concern).unwrap().1.owners.clone()
}

#[test]
fn builds_registry_with_derived_views() {
    let registry = Registry::build(&docs(), "2025-10-15T14:23:00+00:00", None);
    assert_eq!(registry.schema_version, SCHEMA_VERSION);
    let a = &registry.documents.iter().find(|(id, _)| id == "ctx-a").unwrap().1;
    assert_eq!(a.active_concerns, vec!["authentication".to_string()]);
    assert_eq!(roster_owners(&registry, "token-expiry"), vec!["ctx-b".to_string()]);
    assert_eq!(registry.orphaned_concerns, Vec::<String>::new());
    assert_eq!(registry.multi_owned_concerns, Vec::<String>::new());
}

#[test]
fn derives_orphans_and_shared_concerns() {
    let mut d = docs();
    d[1].1.concerns = vec!["billing-auth".into(), "authentication".into()];
    let registry = Registry::build(&d, "now", Some("abc123".into()));
    assert_eq!(registry.orphaned_concerns, vec!["token-expiry".to_string()]);
    assert_eq!(registry.multi_owned_concerns, vec!["authentication".to_string()]);
    assert_eq!(roster_owners(&registry, "authentication"), vec!["ctx-a".to_string(), "ctx-b".to_string()]);
    let keys: Vec<&str> = registry.concern_roster.iter().map(|(c, _)| c.as_str()).collect();
    assert_eq!(keys, vec!["authentication", "billing-auth"]);
    assert_eq!(registry.generated_from_commit, Some("abc123".to_string()));
}

#[test]
fn later_documents_with_the_same_id_win() {
    let mut d = docs();
    d[1].1.id = "ctx-a".into();
    let registry = Registry::build(&d, "now", None);
    assert_eq!(registry.documents.len(), 1);
    assert_eq!(registry.documents[0].1.file, ".context/billing.md");
    assert_eq!(registry.document_index("ctx-a"), Some(0));
    assert_eq!(registry.document_index("ctx-z"), None);
}

#[test]
fn registry_paths() {
    assert_eq!(context_dir_from("/repo"), "/repo/.context");
    assert_eq!(registry_path_from("/repo"), "/repo/.context/.registry.json");
    assert_eq!(registry_path(), "./.context/.registry.json");
}
