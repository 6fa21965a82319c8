use ctx::subtree::{
    is_synthesized_child_context_path, rebase_scope_path, sort_roots, synthesized_child_context_path,
    ContextRoot,
    SYNTHESIZED_CHILD_CONTEXT_FILE,
};

#[test]
fn rebases_scope_paths_for_descendant_context() {
    assert_eq!(rebase_scope_path("apps/api", "src/**"), "apps/api/src/**");
    assert_eq!(rebase_scope_path("", "src/**"), "src/**");
}

#[test]
fn returns_synthesized_child_context_file_path() {
    assert_eq!(
        synthesized_child_context_path("/tmp/base"),
        format!("/tmp/base/.context/{}", SYNTHESIZED_CHILD_CONTEXT_FILE)
    );
}

#[test]
fn recognises_synthesized_child_context_file() {
    let path = format!("apps/api/.context/{}", SYNTHESIZED_CHILD_CONTEXT_FILE);
    assert!(is_synthesized_child_context_path(&path));
    assert!(!is_synthesized_child_context_path("apps/api/.context/notes.md"));
}

#[test]
fn orders_roots_component_by_component() {
    let root = |r: &str| ContextRoot { base: format!("/repo/{r}"), relative: r.to_string() };
    let sorted = sort_roots(vec![root("a-c"), root("a/b"), root("a"), root("b")]);
    let order: Vec<&str> = sorted.iter().map(|r| r.relative.as_str()).collect();
    assert_eq!(order, vec!["a", "a/b", "a-c", "b"]);
}
