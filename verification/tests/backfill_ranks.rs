use ctx::commands::backfill_ranks::{
    backfill_body, heading_has_rank, legacy_rank_follows, parse_legacy_rank_line, rewrite_heading,
    rewrite_rank_headings,
};

#[test]
fn rewrites_legacy_rank_line_into_heading() {
    let body = "### billing\n\nRank: 4\n\nBody\n";
    assert_eq!(rewrite_rank_headings(body, 2), "### billing [r4]\n\nBody\n");
}

#[test]
fn adds_default_rank_to_unranked_heading() {
    let body = "### billing\n\nBody\n";
    assert_eq!(rewrite_rank_headings(body, 2), "### billing [r2]\n\nBody\n");
}

#[test]
fn leaves_ranked_heading_unchanged() {
    let body = "### billing [n7] [r5]\n\nBody\n";
    assert_eq!(rewrite_rank_headings(body, 2), body);
}

#[test]
fn parses_legacy_rank_lines() {
    assert_eq!(parse_legacy_rank_line("Rank: 4"), Some(4));
    assert_eq!(parse_legacy_rank_line("  Rank: 3  "), Some(3));
    assert_eq!(parse_legacy_rank_line("rank: 3"), None);
    assert_eq!(parse_legacy_rank_line("Rank: 9"), None);
    assert_eq!(parse_legacy_rank_line("Rank: x"), None);
    assert_eq!(parse_legacy_rank_line("Body"), None);
}

#[test]
fn detects_rank_tokens_in_headings() {
    assert!(heading_has_rank("### billing [r3]"));
    assert!(heading_has_rank("### billing [n7] [r5]"));
    assert!(!heading_has_rank("### billing"));
    assert!(!heading_has_rank("### billing [rx]"));
}

#[test]
fn finds_legacy_rank_after_optional_blank_line() {
    assert!(legacy_rank_follows(Some("Rank: 2"), None));
    assert!(legacy_rank_follows(Some(""), Some("Rank: 2")));
    assert!(!legacy_rank_follows(Some("Body"), Some("Rank: 2")));
    assert!(!legacy_rank_follows(None, None));
}

#[test]
fn rewrites_single_heading() {
    assert_eq!(
        rewrite_heading("### billing", Some(""), Some("Rank: 4"), 2),
        ("### billing [r4]".to_string(), true)
    );
    assert_eq!(
        rewrite_heading("### billing", Some("Body"), None, 2),
        ("### billing [r2]".to_string(), false)
    );
}

#[test]
fn keeps_body_without_trailing_newline() {
    assert_eq!(rewrite_rank_headings("### a\nx", 1), "### a [r1]\nx");
    assert_eq!(rewrite_rank_headings("", 1), "");
}

#[test]
fn reports_only_bodies_that_change() {
    assert_eq!(backfill_body("### a [r2]\n\ntext\n", 3), None);
    assert_eq!(backfill_body("### a\n\ntext\n", 3), Some("### a [r3]\n\ntext\n".to_string()));
}

#[test]
fn rewriting_twice_changes_nothing() {
    for body in ["### a\n\nRank: 4\n\nBody\n### b\ntext", "### a\nRank: 3\n  ", "intro\n### c [r1]\n"] {
        let once = rewrite_rank_headings(body, 2);
        assert_eq!(rewrite_rank_headings(&once, 2), once);
        for line in once.lines() {
            if line.starts_with("### ") {
                assert!(heading_has_rank(line));
            }
        }
    }
}
