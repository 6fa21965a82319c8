use ctx::commands::check::{
    as_severity, diff_issues, frontmatter_range, is_managed_field, line_in_frontmatter,
    removed_lines, severity_label, IssueCode, Severity,
};

#[test]
fn computes_frontmatter_range() {
    let content = "---\nid: ctx-1\nstatus: current\n---\nbody\n";
    assert_eq!(frontmatter_range(content), Some((1, 4)));
    assert!(line_in_frontmatter(2, frontmatter_range(content)));
    assert!(!line_in_frontmatter(5, frontmatter_range(content)));
}

#[test]
fn detects_managed_fields() {
    assert!(is_managed_field("status: current"));
    assert!(is_managed_field("  id: ctx-1"));
    assert!(!is_managed_field("concerns:"));
}

#[test]
fn computes_removed_lines() {
    let old = "a\nb\nc\n";
    let new = "a\nc\n";
    let removed = removed_lines(old, Some(new));
    assert_eq!(removed.len(), 1);
    assert_eq!(removed[0].line_number, 2);
    assert_eq!(removed[0].content, "b");
}

#[test]
fn removing_whole_file_removes_every_line() {
    let removed = removed_lines("a\nb\n", None);
    assert_eq!(removed.len(), 2);
    assert_eq!(removed[0].line_number, 1);
    assert_eq!(removed[1].line_number, 2);
    assert_eq!(removed[1].content, "b");
    assert!(removed_lines("a\nb\n", Some("a\nb\nc\n")).is_empty());
}

#[test]
fn frontmatter_range_needs_both_delimiters() {
    assert_eq!(frontmatter_range("no frontmatter\n"), None);
    assert_eq!(frontmatter_range("---\nid: x\n"), None);
    assert!(!line_in_frontmatter(1, None));
}

#[test]
fn maps_strictness_to_severity() {
    assert!(matches!(as_severity(true), Severity::Error));
    assert!(matches!(as_severity(false), Severity::Warning));
    assert_eq!(severity_label(Severity::Error), "ERROR");
    assert_eq!(severity_label(Severity::Warning), "WARNING");
}

#[test]
fn classifies_removed_lines() {
    let old = "---\nid: ctx-1\nstatus: current\n---\nbody\nmore\n";
    let new = "---\nid: ctx-1\n---\nbody\n";
    let issues = diff_issues(".context/a.md", old, Some(new));
    assert_eq!(issues.len(), 2);
    assert!(matches!(issues[0].code, IssueCode::ManagedFieldTampering));
    assert_eq!(issues[0].message, "managed field modified in frontmatter at line 3");
    assert_eq!(issues[0].code.as_str(), "MANAGED_FIELD_TAMPERING");
    assert!(matches!(issues[1].code, IssueCode::AppendOnlyViolation));
    assert_eq!(issues[1].message, "staged deletion outside frontmatter at line 6");
    assert_eq!(issues[1].file, ".context/a.md");
}

#[test]
fn builds_frontmatter_issues() {
    let issue = ctx::commands::check::frontmatter_issue(".context/a.md", "missing frontmatter");
    assert_eq!(issue.severity, ctx::commands::check::Severity::Error);
    assert_eq!(issue.code.as_str(), "FRONTMATTER_INVALID");
    assert_eq!(issue.file, ".context/a.md");
    assert_eq!(issue.message, "missing frontmatter");
}

#[test]
fn counts_commits_only_for_old_documents() {
    assert!(!ctx::git::is_old_enough(None));
    assert!(!ctx::git::is_old_enough(Some(29)));
    assert!(ctx::git::is_old_enough(Some(30)));
    assert!(ctx::git::is_stale(Some(45), Some(10)));
    assert!(!ctx::git::is_stale(Some(45), Some(9)));
}
