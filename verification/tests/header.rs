use chronicler::{extract_between_dashes, parse_header, Header};

#[test]
fn extracts_inner_text_with_trailing_data() {
    let input = "prefix ---wanted section--- trailing data that should be ignored";
    assert_eq!(extract_between_dashes(input), Some("wanted section"));
}

#[test]
fn returns_none_when_opening_delimiter_missing() {
    let input = "prefix data only";
    assert_eq!(extract_between_dashes(input), None);
}

#[test]
fn returns_none_when_closing_delimiter_missing() {
    let input = "prefix ---starts but never ends";
    assert_eq!(extract_between_dashes(input), None);
}

#[test]
fn extracts_empty_section() {
    let input = "------";
    assert_eq!(extract_between_dashes(input), Some(""));
}

#[test]
fn uses_first_complete_delimiter_pair() {
    let input = "aaa ---first--- bbb ---second--- ccc";
    assert_eq!(extract_between_dashes(input), Some("first"));
}

#[test]
fn header_to_string_formats_yaml_frontmatter() {
    let header = Header {
        prev: String::from("yesterday-note"),
        journal: Some(String::from("daily-log")),
    };

    assert_eq!(
        header.to_string(),
        "---\nprev: \"yesterday-note\"\njournal: \"daily-log\"\n---"
    );
}

#[test]
fn parse_header_reads_prev_and_journal() {
    let parsed = parse_header("prev: \"yesterday-note\"\njournal: \"daily-log\"");

    assert!(parsed.is_some());
    let header = parsed.unwrap();
    assert_eq!(header.prev, "yesterday-note");
    assert_eq!(header.journal, Some(String::from("daily-log")));
}

#[test]
fn parse_header_ignores_unknown_keys() {
    let parsed = parse_header("prev: \"yesterday-note\"\nfoo: bar\njournal: \"daily-log\"");

    assert!(parsed.is_some());
    let header = parsed.unwrap();
    assert_eq!(header.prev, "yesterday-note");
    assert_eq!(header.journal, Some(String::from("daily-log")));
}

#[test]
fn parse_header_returns_none_when_prev_missing() {
    assert!(parse_header("journal: \"daily-log\"").is_none());
}

#[test]
fn parse_header_allows_missing_optional_journal() {
    let parsed = parse_header("prev: \"yesterday-note\"");

    assert!(parsed.is_some());
    let header = parsed.unwrap();
    assert_eq!(header.prev, "yesterday-note");
    assert_eq!(header.journal, None);
}

#[test]
fn parse_header_returns_none_for_malformed_non_empty_line() {
    assert!(
        parse_header("prev: \"yesterday-note\"\nnot-a-pair\njournal: \"daily-log\"").is_none()
    );
}

#[test]
fn parse_header_returns_none_for_duplicate_required_keys() {
    assert!(parse_header("prev: \"one\"\nprev: \"two\"\njournal: \"daily-log\"").is_none());
    assert!(
        parse_header("prev: \"yesterday-note\"\njournal: \"one\"\njournal: \"two\"").is_none()
    );
}

#[test]
fn parse_header_trims_whitespace() {
    let parsed = parse_header("  prev : \"yesterday-note\"  \n  journal: \"daily-log\"   ");

    assert!(parsed.is_some());
    let header = parsed.unwrap();
    assert_eq!(header.prev, "yesterday-note");
    assert_eq!(header.journal, Some(String::from("daily-log")));
}

#[test]
fn extract_and_parse_header_flow() {
    let input =
        "prefix ---\nprev: \"yesterday-note\"\nextra: value\njournal: \"daily-log\"\n--- trailing";
    let parsed = extract_between_dashes(input).and_then(parse_header);

    assert!(parsed.is_some());
    let header = parsed.unwrap();
    assert_eq!(header.prev, "yesterday-note");
    assert_eq!(header.journal, Some(String::from("daily-log")));
}

#[test]
fn header_to_string_omits_journal_when_missing() {
    let header = Header {
        prev: String::from("yesterday-note"),
        journal: None,
    };

    assert_eq!(header.to_string(), "---\nprev: \"yesterday-note\"\n---");
}

#[test]
fn header_written_is_header_read_back() {
    let header = Header {
        prev: String::from("[[chronicle-2026-03-03]]"),
        journal: Some(String::from("[[2026-03-04]]")),
    };
    let text = format!("{}\nbody with --- inside\n", header.to_string());
    let read = extract_between_dashes(&text).and_then(parse_header).unwrap();
    assert_eq!(read.prev, header.prev);
    assert_eq!(read.journal, header.journal);
}

#[test]
fn parse_header_keeps_unmatched_quotes_and_blank_lines() {
    let parsed = parse_header("\n\r\nprev: \"\njournal:   plain value  \n\n").unwrap();
    assert_eq!(parsed.prev, "\"");
    assert_eq!(parsed.journal, Some(String::from("plain value")));
}

#[test]
fn parse_header_splits_at_first_colon_and_strips_one_quote_pair() {
    let parsed = parse_header("prev: \"a: \"b\"\"").unwrap();
    assert_eq!(parsed.prev, "a: \"b\"");
    assert_eq!(parsed.journal, None);
}

#[test]
fn parse_header_trims_unicode_white_space() {
    let parsed = parse_header("\u{3000}prev\u{a0}:\u{2003}\"x\"\u{85}").unwrap();
    assert_eq!(parsed.prev, "x");
}

#[test]
fn parse_header_of_empty_text_is_none() {
    assert!(parse_header("").is_none());
    assert!(parse_header("   \n\t\n").is_none());
}

#[test]
fn extract_between_dashes_needs_a_separate_closing_marker() {
    assert_eq!(extract_between_dashes("-----"), None);
    assert_eq!(extract_between_dashes("----x---"), Some("-x"));
    assert_eq!(extract_between_dashes("é---ü---ö"), Some("ü"));
}
