use alloy_mcp::sections::parse_sections;
use alloy_mcp::sections::Section;
use alloy_mcp::score::score_section;

fn section(heading: &str, content: &str) -> Section {
    Section {
        uri: b"u://d".to_vec(),
        resource_name: b"Doc".to_vec(),
        heading: heading.as_bytes().to_vec(),
        content: content.as_bytes().to_vec(),
    }
}

#[test]
fn heading_match_scores_100_regardless_of_body() {
    let s = section("## TxEip1559", "TxEip1559 TxEip1559 TxEip1559 `TxEip1559`");
    assert_eq!(score_section(&s, b"TxEip1559"), 100);
}

#[test]
fn heading_match_is_case_insensitive() {
    let s = section("## TxEip1559", "body");
    assert_eq!(score_section(&s, b"txeip1559"), 100);
    assert_eq!(score_section(&s, b"TXEIP1559"), 100);
}

#[test]
fn backtick_wrapped_match_scores_80() {
    let s = section("## Other", "use `Provider` to connect");
    assert_eq!(score_section(&s, b"Provider"), 80);
}

#[test]
fn plain_occurrences_score_50_plus_count() {
    let s = section("## Other", "foo bar foo baz foo");
    assert_eq!(score_section(&s, b"foo"), 53);
}

#[test]
fn single_occurrence_scores_51() {
    let s = section("## Other", "one foo here");
    assert_eq!(score_section(&s, b"foo"), 51);
}

#[test]
fn occurrence_count_is_capped_at_30() {
    let body = "foo ".repeat(45);
    let s = section("## Other", &body);
    assert_eq!(score_section(&s, b"foo"), 80);
}

#[test]
fn frequency_scoring_is_monotone_in_count() {
    let two = section("## Other", "foo foo");
    let three = section("## Other", "foo foo foo");
    let s2 = score_section(&two, b"foo");
    let s3 = score_section(&three, b"foo");
    assert!(50 <= s2 && s2 <= s3 && s3 <= 80);
    assert_eq!(s2, 52);
    assert_eq!(s3, 53);
}

#[test]
fn occurrences_are_counted_without_overlap() {
    let s = section("## Other", "aaaa");
    // "aa" matches twice without overlap, not three times.
    assert_eq!(score_section(&s, b"aa"), 52);
}

#[test]
fn no_match_scores_0() {
    let s = section("## Other", "nothing here");
    assert_eq!(score_section(&s, b"absent"), 0);
}

#[test]
fn score_agrees_with_parsed_sections() {
    let sections = parse_sections(b"u", b"n", b"## Signer\nuse `sign_message` twice");
    assert_eq!(sections.len(), 1);
    assert_eq!(score_section(&sections[0], b"Signer"), 100);
    assert_eq!(score_section(&sections[0], b"sign_message"), 80);
    assert_eq!(score_section(&sections[0], b"twice"), 51);
}
