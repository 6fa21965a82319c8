use chrono::{TimeZone, Utc};
use ctx::document::{
    active_concerns, concern_headings, extract_concern_section, format_ranked_concern_block,
    parse_concern_heading, parse_concern_rank, recompute_status, sort_concern_sections_by_rank,
    validate_rank, Frontmatter, Scope, Status, SupersededBy,
};
use ctx::id::generate_id;

fn sample_frontmatter() -> Frontmatter {
    Frontmatter {
        id: "ctx-7f3a9b".to_string(),
        created: Utc.with_ymd_and_hms(2025, 10, 15, 14, 23, 0).unwrap().to_rfc3339(),
        status: Status::Current,
        concerns: vec![
            "session-management".to_string(),
            "token-expiry".to_string(),
            "refresh-tokens".to_string(),
        ],
        scope: Scope {
            paths: vec!["src/sessions/**".to_string()],
            components: vec!["session-service".to_string()],
        },
        superseded_by: vec![SupersededBy {
            id: "ctx-2a81fc".to_string(),
            concerns: vec!["token-expiry".to_string()],
        }],
    }
}

#[test]
fn filters_superseded_concerns() {
    let frontmatter = sample_frontmatter();
    assert_eq!(
        active_concerns(&frontmatter),
        vec!["session-management".to_string(), "refresh-tokens".to_string()]
    );
}

#[test]
fn recomputes_partially_superseded_status() {
    let mut frontmatter = sample_frontmatter();
    recompute_status(&mut frontmatter);
    assert_eq!(frontmatter.status, Status::PartiallySuperseded);
}

#[test]
fn recomputes_fully_superseded_status() {
    let mut frontmatter = sample_frontmatter();
    frontmatter.superseded_by.push(SupersededBy {
        id: "ctx-3".to_string(),
        concerns: vec!["session-management".to_string(), "refresh-tokens".to_string()],
    });
    recompute_status(&mut frontmatter);
    assert_eq!(frontmatter.status, Status::Superseded);
}

#[test]
fn generates_stable_prefixed_ids() {
    let created = Utc.with_ymd_and_hms(2025, 10, 15, 14, 23, 0).unwrap().to_rfc3339();
    let id = generate_id("session-handling", &created);
    assert!(id.starts_with("ctx-"));
    assert_eq!(id.len(), 10);
    assert_eq!(id, generate_id("session-handling", &created));
}

#[test]
fn extracts_concern_headings() {
    let body = "### billing [r2]\n\nnote\n\n### auth [n7] [r4]\n\nother\n";
    assert_eq!(
        concern_headings(body),
        vec!["billing".to_string(), "auth".to_string()]
    );
}

#[test]
fn extracts_specific_concern_section() {
    let body = "### billing [r3]\n\nnote\n\n### auth [r2]\n\nother\n";
    assert_eq!(
        extract_concern_section(body, "billing"),
        Some("### billing [r3]\n\nnote\n".to_string())
    );
}

#[test]
fn validates_rank_range() {
    assert!(validate_rank(1).is_ok());
    assert!(validate_rank(5).is_ok());
    assert!(validate_rank(0).is_err());
    assert!(validate_rank(6).is_err());
}

#[test]
fn formats_ranked_concern_block() {
    assert_eq!(
        format_ranked_concern_block("billing", "New note", 4),
        "### billing [r4]\n\nNew note\n"
    );
}

#[test]
fn parses_heading_metadata_suffixes() {
    assert_eq!(
        parse_concern_heading("### billing [r4]"),
        Some("billing".to_string())
    );
    assert_eq!(
        parse_concern_heading("### billing rules [n7] [r4]"),
        Some("billing rules".to_string())
    );
}

#[test]
fn sorts_concern_sections_by_descending_rank() {
    let body = "Intro\n\n### billing [r2]\n\nLower\n\n### auth [r5]\n\nHigher\n\n### cache [r3]\n\nMiddle\n";
    assert_eq!(
        sort_concern_sections_by_rank(body),
        "Intro\n\n### auth [r5]\n\nHigher\n\n### cache [r3]\n\nMiddle\n\n### billing [r2]\n\nLower\n"
    );
}

#[test]
fn leaves_unranked_sections_after_ranked_ones() {
    let body = "### legacy\n\nOld\n\n### auth [r4]\n\nCurrent\n";
    assert_eq!(
        sort_concern_sections_by_rank(body),
        "### auth [r4]\n\nCurrent\n\n### legacy\n\nOld\n"
    );
}

#[test]
fn parses_rank_with_other_heading_metadata_present() {
    let body = "### billing [n7] [r4]\n\nBody\n### auth [r2]\n\nOther\n";
    assert_eq!(
        sort_concern_sections_by_rank(body),
        "### billing [n7] [r4]\n\nBody\n\n### auth [r2]\n\nOther\n"
    );
}

#[test]
fn heading_rank_parsing_edge_cases() {
    assert_eq!(parse_concern_rank("### billing [r4]"), Some(4));
    assert_eq!(parse_concern_rank("### billing [r9] [r2]"), Some(2));
    assert_eq!(parse_concern_rank("### billing [rx] [r2]"), None);
    assert_eq!(parse_concern_rank("### billing"), None);
    assert_eq!(parse_concern_rank("## billing [r4]"), None);
    assert_eq!(parse_concern_heading("###    "), None);
    assert_eq!(parse_concern_heading("### [r2]"), Some("[r2]".to_string()));
    assert_eq!(parse_concern_heading("text"), None);
}

#[test]
fn body_without_headings_is_returned_unchanged() {
    assert_eq!(sort_concern_sections_by_rank("plain\r\ntext"), "plain\r\ntext");
    assert_eq!(extract_concern_section("no headings\n", "x"), None);
}

#[test]
fn sorting_sections_twice_changes_nothing() {
    for body in [
        "intro\n\n### low [r1]\nlow text\n\n\n### high [r5]\nhigh text\n### none\nplain",
        "\n\n### a [r2]\n\n### b [r3]\nx\n",
        "no headings here\n",
    ] {
        let once = sort_concern_sections_by_rank(body);
        assert_eq!(sort_concern_sections_by_rank(&once), once);
    }
}
