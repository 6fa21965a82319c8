use ctx::commands::publish::{
    concern_name_from_org_path, convert_bold, convert_code, convert_italic, convert_links,
    inline_markdown_to_org, markdown_to_org, org_path, render_org, render_org_at,
    strip_heading,
};

#[test]
fn converts_bold() {
    assert_eq!(convert_bold("**hello** world"), "*hello* world");
    assert_eq!(convert_bold("no bold here"), "no bold here");
    assert_eq!(convert_bold("**a** and **b**"), "*a* and *b*");
}

#[test]
fn converts_inline_code() {
    assert_eq!(convert_code("`ctx publish`"), "=ctx publish=");
    assert_eq!(convert_code("run `foo` and `bar`"), "run =foo= and =bar=");
}

#[test]
fn converts_markdown_links() {
    assert_eq!(
        convert_links("[ctx](https://example.com)"),
        "[[https://example.com][ctx]]"
    );
    assert_eq!(convert_links("no links here"), "no links here");
}

#[test]
fn converts_headings() {
    let md = "### sub\n## section\n# top\n";
    let org = markdown_to_org(md);
    assert!(org.contains("*** sub\n"));
    assert!(org.contains("** section\n"));
    assert!(org.contains("* top\n"));
}

#[test]
fn converts_fenced_code_block() {
    let md = "```rust\nfn main() {}\n```\n";
    let org = markdown_to_org(md);
    assert!(org.contains("#+BEGIN_SRC rust\n"));
    assert!(org.contains("fn main() {}\n"));
    assert!(org.contains("#+END_SRC\n"));
}

#[test]
fn strips_heading_line() {
    let section = "### my-concern [r3]\n\nBody text here.\n";
    assert_eq!(strip_heading(section), "Body text here.");
}

#[test]
fn render_org_has_correct_headers() {
    let org = render_org("my-concern", "ctx-abc123", "Some body text.");
    assert!(org.starts_with("#+TITLE: my-concern\n"));
    assert!(org.contains("#+PROPERTY: SOURCE_DOC ctx-abc123\n"));
    assert!(org.contains("Some body text."));
}

#[test]
fn renders_org_file_exactly() {
    let org = render_org_at("billing", "ctx-1", "Text with **bold**.\n", "2025-10-15T14:23:00Z");
    assert_eq!(
        org,
        "#+TITLE: billing\n#+PROPERTY: PUBLISHED 2025-10-15T14:23:00Z\n#+PROPERTY: SOURCE_DOC ctx-1\n\nText with *bold*.\n"
    );
}

#[test]
fn leaves_unmatched_delimiters_alone() {
    assert_eq!(convert_bold("**open only"), "**open only");
    assert_eq!(convert_code("a `b"), "a `b");
    assert_eq!(convert_links("[not a link] and [x](y"), "[not a link] and [x](y");
    assert_eq!(convert_links("see [a](u) and [b](v)"), "see [[u][a]] and [[v][b]]");
}

#[test]
fn converts_all_inline_markup_in_order() {
    assert_eq!(
        inline_markdown_to_org("**[x](u)** and `c`"),
        "*[[u][x]]* and =c="
    );
}

#[test]
fn closes_unterminated_code_block() {
    assert_eq!(
        markdown_to_org("```\nlet x = 1;\n"),
        "#+BEGIN_SRC\nlet x = 1;\n#+END_SRC\n"
    );
    assert_eq!(markdown_to_org("  ```py\n# not a heading\n  ```\n"), "#+BEGIN_SRC py\n# not a heading\n#+END_SRC\n");
}

#[test]
fn builds_org_paths_from_concern_names() {
    assert_eq!(org_path("billing"), "./billing.org");
    assert_eq!(org_path("a/b c:d\\e"), "./a-b-c-d-e.org");
    assert_eq!(concern_name_from_org_path("./billing.org"), Some("billing".to_string()));
    assert_eq!(concern_name_from_org_path("./archive.tar.org"), Some("archive.tar".to_string()));
    assert_eq!(concern_name_from_org_path(".."), None);
}

#[test]
fn converts_single_asterisk_italics() {
    assert_eq!(convert_italic("*text*"), "/text/");
    assert_eq!(convert_italic("**bold** and *it*"), "**bold** and /it/");
    assert_eq!(convert_italic("a * b"), "a * b");
    assert_eq!(markdown_to_org("*text*"), "/text/\n");
    assert_eq!(inline_markdown_to_org("**b** and *i*"), "*b* and /i/");
}

#[test]
fn link_text_starts_at_its_own_bracket() {
    assert_eq!(convert_links("[a] and [b](u)"), "[a] and [[u][b]]");
    assert_eq!(convert_links("x](y) [a](b)"), "x](y) [[b][a]]");
}

#[test]
fn reads_concern_back_from_its_org_path() {
    assert_eq!(concern_name_from_org_path(&org_path("token expiry")), Some("token-expiry".to_string()));
    assert_eq!(concern_name_from_org_path(&org_path("billing")), Some("billing".to_string()));
}

#[test]
fn publication_time_is_utc_text() {
    let org = render_org("c", "ctx-1", "x");
    let line = org.lines().find(|l| l.starts_with("#+PROPERTY: PUBLISHED ")).unwrap();
    assert!(line.ends_with('Z'));
}
