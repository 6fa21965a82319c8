use ctx::commands::guidance::{
    agents_entry_action, guidance_block, guidance_text, merge_guidance_block, EntryAction,
};
use ctx::commands::init::{gitignore_update, sync_summary};
use ctx::commands::publish::{publish_concern, publish_concerns, publish_target};
use ctx::commands::service::{
    service_unit_contents, service_unit_path, socket_runtime_path, socket_unit_contents,
    socket_unit_path,
};
use ctx::document::{Frontmatter, Scope, Status};
use ctx::registry::Registry;
use ctx::subtree::{child_dir_action, sort_roots, ChildAction, ContextRoot};

#[test]
fn adds_gitignore_entry_once() {
    let once = gitignore_update("/target\n", ".context/.registry.json").unwrap();
    assert_eq!(once, "/target\n.context/.registry.json\n");
    assert_eq!(gitignore_update(&once, ".context/.registry.json"), None);
    assert_eq!(gitignore_update("/target", "x").unwrap(), "/target\nx\n");
    assert_eq!(gitignore_update("", "x").unwrap(), "x\n");
}

#[test]
fn summarizes_sync() {
    assert_eq!(sync_summary(1), "Synced 1 context document");
    assert_eq!(sync_summary(3), "Synced 3 context documents");
    assert_eq!(sync_summary(0), "Synced 0 context documents");
}

#[test]
fn creates_guidance_block_in_blank_file() {
    let block = guidance_block(guidance_text());
    assert!(block.starts_with("<!-- ctx-guidance:start -->\n## ctx\n\nctx guidance\n"));
    assert!(block.ends_with("<!-- ctx-guidance:end -->\n"));
    assert!(block.contains("Do not directly edit .context documents"));
    assert_eq!(merge_guidance_block("AGENTS.md", "  \n", &block).unwrap(), block);
}

#[test]
fn replaces_existing_guidance_block() {
    let block = guidance_block("new\n");
    let content = "# Title\n<!-- ctx-guidance:start -->\nold\n<!-- ctx-guidance:end -->\n\n\nTail";
    let merged = merge_guidance_block("AGENTS.md", content, &block).unwrap();
    assert_eq!(merged, format!("# Title\n{}\nTail\n", block));
    let appended = merge_guidance_block("AGENTS.md", "Notes", &block).unwrap();
    assert_eq!(appended, format!("Notes\n\n{}", block));
    let err = merge_guidance_block("docs/AGENTS.md", "<!-- ctx-guidance:start -->\n", &block).unwrap_err();
    assert_eq!(err.message(), "missing closing ctx guidance marker in docs/AGENTS.md");
}

#[test]
fn walks_for_agents_files() {
    assert_eq!(agents_entry_action(".git", true, false), EntryAction::Skip);
    assert_eq!(agents_entry_action("target", true, false), EntryAction::Skip);
    assert_eq!(agents_entry_action("docs", true, false), EntryAction::Descend);
    assert_eq!(agents_entry_action("AGENTS.md", false, true), EntryAction::Collect);
    assert_eq!(agents_entry_action("README.md", false, true), EntryAction::Skip);
}

#[test]
fn walks_for_child_corpora() {
    assert_eq!(child_dir_action(true, ".context", false, true), ChildAction::Skip);
    assert_eq!(child_dir_action(true, "vendor", true, true), ChildAction::Skip);
    assert_eq!(child_dir_action(true, "api", false, true), ChildAction::Root);
    assert_eq!(child_dir_action(true, "src", false, false), ChildAction::Descend);
    assert_eq!(child_dir_action(false, "file", false, false), ChildAction::Skip);
    let roots = sort_roots(vec![
        ContextRoot { base: "/r/packages/ui".into(), relative: "packages/ui".into() },
        ContextRoot { base: "/r/apps/api".into(), relative: "apps/api".into() },
    ]);
    assert_eq!(roots[0].relative, "apps/api");
}

#[test]
fn writes_service_units() {
    assert!(socket_unit_contents().contains("ListenStream=%t/ctx-mcp.sock\nAccept=yes\n"));
    let unit = service_unit_contents("/usr/bin/ctx", "/repo");
    assert!(unit.contains("ExecStart=/usr/bin/ctx serve\nWorkingDirectory=/repo\n"));
    assert_eq!(socket_unit_path("/home/u"), "/home/u/.config/systemd/user/ctx-mcp.socket");
    assert_eq!(service_unit_path("/home/u"), "/home/u/.config/systemd/user/ctx-mcp@.service");
    assert_eq!(socket_runtime_path(1000), "/run/user/1000/ctx-mcp.sock");
}

#[test]
fn plans_publication() {
    let f = |id: &str| Frontmatter {
        id: id.into(),
        created: "t".into(),
        status: Status::Current,
        concerns: vec!["billing".into(), "auth".into()],
        scope: Scope { paths: vec![], components: vec![] },
        superseded_by: vec![],
    };
    let registry = Registry::build(&vec![(".context/a.md".to_string(), f("ctx-a")), (".context/b.md".to_string(), f("ctx-b"))], "t", None);
    assert_eq!(publish_concerns(&registry, None).unwrap(), vec!["auth".to_string(), "billing".to_string()]);
    assert_eq!(
        publish_concerns(&registry, Some("nope")).unwrap_err().message(),
        "concern 'nope' not found in corpus"
    );
    let (owner, file) = publish_target(&registry, "billing").unwrap();
    assert_eq!(owner, "ctx-b");
    assert_eq!(file, ".context/b.md");
    let (org, path) = publish_concern("billing", "ctx-b", ".context/b.md", "### billing [r2]\n\nSee `x`.\n", "T").unwrap();
    assert_eq!(org, "#+TITLE: billing\n#+PROPERTY: PUBLISHED T\n#+PROPERTY: SOURCE_DOC ctx-b\n\nSee =x=.\n");
    assert_eq!(path, "./billing.org");
    assert_eq!(
        publish_concern("auth", "ctx-b", ".context/b.md", "### billing\n", "T").unwrap_err().message(),
        "concern 'auth' section not found in .context/b.md"
    );
}

#[test]
fn merging_guidance_twice_changes_nothing() {
    let block = guidance_block(guidance_text());
    for content in ["", "# Notes\nkeep me", "intro\n<!-- ctx-guidance:start -->\nold\n<!-- ctx-guidance:end -->\n\n\ntail"] {
        let once = merge_guidance_block("AGENTS.md", content, &block).unwrap();
        let twice = merge_guidance_block("AGENTS.md", &once, &block).unwrap();
        assert_eq!(once, twice);
    }
    let once = merge_guidance_block("AGENTS.md", "# Notes\nkeep me", &block).unwrap();
    assert!(once.starts_with("# Notes\nkeep me\n\n"));
}
