use ctx::commands::supersede::{
    normalize_values, plan_supersede, record_supersession, supersede_frontmatter, SupersedeError,
};
use ctx::cli::SupersedeArgs;
use ctx::document::{Frontmatter, Scope, Status, SupersededBy};
use ctx::registry::{DocumentEntry, Registry};

fn source() -> Frontmatter {
    Frontmatter {
        id: "ctx-source".into(),
        created: "2025-10-15T14:23:00+00:00".into(),
        status: Status::Current,
        concerns: vec!["session-management".into(), "token-expiry".into()],
        scope: Scope { paths: vec![], components: vec![] },
        superseded_by: vec![],
    }
}

#[test]
fn normalizes_and_deduplicates_concerns() {
    assert_eq!(
        normalize_values(&[" token-expiry ".into(), "session-management, token-expiry".into()]),
        vec!["session-management".to_string(), "token-expiry".to_string()]
    );
}

#[test]
fn records_partial_supersession() {
    let mut fm = source();
    supersede_frontmatter(&mut fm, "ctx-replacement", &vec!["token-expiry".into()]).unwrap();
    assert_eq!(fm.superseded_by.len(), 1);
    assert_eq!(fm.superseded_by[0].id, "ctx-replacement");
    assert_eq!(fm.superseded_by[0].concerns, vec!["token-expiry".to_string()]);
    assert_eq!(fm.status, Status::PartiallySuperseded);
}

#[test]
fn records_full_supersession() {
    let mut fm = source();
    supersede_frontmatter(
        &mut fm,
        "ctx-replacement",
        &vec!["session-management".into(), "token-expiry".into()],
    )
    .unwrap();
    assert_eq!(fm.status, Status::Superseded);
}

#[test]
fn rejects_non_active_concerns() {
    let mut fm = source();
    fm.superseded_by.push(SupersededBy { id: "ctx-old".into(), concerns: vec!["token-expiry".into()] });
    let err = supersede_frontmatter(&mut fm, "ctx-replacement", &vec!["token-expiry".into()]).unwrap_err();
    assert!(err.message().contains("is not active"));
    assert_eq!(err.message(), "concern token-expiry is not active in document ctx-source");
    assert_eq!(fm.superseded_by.len(), 1);
}

#[test]
fn merges_into_existing_record_and_sorts_new_ones() {
    let mut sb = vec![
        SupersededBy { id: "ctx-b".into(), concerns: vec!["z".into()] },
        SupersededBy { id: "ctx-d".into(), concerns: vec![] },
    ];
    record_supersession(&mut sb, "ctx-b", &vec!["a".into(), "z".into()]);
    assert_eq!(sb[0].concerns, vec!["a".to_string(), "z".to_string()]);
    record_supersession(&mut sb, "ctx-c", &vec!["m".into()]);
    let ids: Vec<&str> = sb.iter().map(|x| x.id.as_str()).collect();
    assert_eq!(ids, vec!["ctx-b", "ctx-c", "ctx-d"]);
}

#[test]
fn plans_supersession_against_registry() {
    let entry = DocumentEntry {
        file: ".context/source.md".into(),
        created: "2025-10-15T14:23:00+00:00".into(),
        status: Status::Current,
        concerns: vec![],
        active_concerns: vec![],
        scope: Scope { paths: vec![], components: vec![] },
        superseded_by: vec![],
    };
    let registry = Registry {
        schema_version: 1,
        generated_at: String::new(),
        generated_from_commit: None,
        documents: vec![("ctx-replacement".into(), entry.clone()), ("ctx-source".into(), entry)],
        concern_roster: vec![],
        orphaned_concerns: vec![],
        multi_owned_concerns: vec![],
    };
    let args = SupersedeArgs { id: "ctx-source".into(), concerns: vec![" b, a".into()], by_id: "ctx-replacement".into() };
    let (file, concerns) = plan_supersede(&args, &registry).unwrap();
    assert_eq!(file, ".context/source.md");
    assert_eq!(concerns, vec!["a".to_string(), "b".to_string()]);

    let empty = SupersedeArgs { id: "ctx-source".into(), concerns: vec![" , ".into()], by_id: "x".into() };
    assert!(matches!(plan_supersede(&empty, &registry), Err(SupersedeError::ConcernsRequired)));
    let missing = SupersedeArgs { id: "ctx-nope".into(), concerns: vec!["a".into()], by_id: "x".into() };
    assert_eq!(plan_supersede(&missing, &registry).unwrap_err().message(), "document ctx-nope not found");
    let no_by = SupersedeArgs { id: "ctx-source".into(), concerns: vec!["a".into()], by_id: "x".into() };
    assert_eq!(plan_supersede(&no_by, &registry).unwrap_err().message(), "replacement document x not found");
}
