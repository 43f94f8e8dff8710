use vaccine_watch::grammar::{
    parse_annotation, parse_block, parse_label, trimmed, white_space, BlockFields, ParseError,
    RecordOutcome,
};
use vaccine_watch::location::Location;

fn block(heading: Option<&str>, link: Option<&str>, annotation: Option<&str>) -> BlockFields {
    BlockFields::new(
        heading.map(|s| s.to_string()),
        link.map(|s| s.to_string()),
        annotation.map(|s| s.to_string()),
    )
}

#[test]
fn trims_unicode_white_space() {
    assert_eq!(trimmed("  \t Ale \n"), "Ale");
    assert_eq!(trimmed("\u{a0}\u{3000}x y\u{2009}"), "x y");
    assert_eq!(trimmed("   "), "");
    assert_eq!(trimmed(""), "");
    assert!(white_space('\u{85}'));
    assert!(!white_space('x'));
}

#[test]
fn label_splits_at_first_colon() {
    assert_eq!(
        parse_label("  Ale: Vårdcentral Nödinge "),
        Some(("Ale".to_string(), "Vårdcentral Nödinge".to_string()))
    );
    assert_eq!(
        parse_label("Göteborg:  Clinic: East wing"),
        Some(("Göteborg".to_string(), "Clinic: East wing".to_string()))
    );
    assert_eq!(
        parse_label("\n  Mölndal: Hälsan\n  "),
        Some(("Mölndal".to_string(), "Hälsan".to_string()))
    );
}

#[test]
fn label_rejects_other_shapes() {
    assert_eq!(parse_label("Ale Vårdcentral"), None);
    assert_eq!(parse_label("Ale:Vårdcentral"), None);
    assert_eq!(parse_label(": Vårdcentral"), None);
    assert_eq!(parse_label("   : Vårdcentral"), None);
    assert_eq!(parse_label("Ale:   "), None);
    assert_eq!(parse_label(""), None);
}

#[test]
fn annotation_reads_leading_count() {
    assert_eq!(parse_annotation("(12 lediga tider)"), Some(Ok(12)));
    assert_eq!(parse_annotation("  (0)"), Some(Ok(0)));
    assert_eq!(parse_annotation("(7"), Some(Ok(7)));
    assert_eq!(
        parse_annotation("(18446744073709551615 tider)"),
        Some(Ok(18446744073709551615))
    );
}

#[test]
fn annotation_rejects_other_shapes() {
    assert_eq!(parse_annotation("12 tider"), None);
    assert_eq!(parse_annotation("( 12)"), None);
    assert_eq!(parse_annotation("()"), None);
    assert_eq!(parse_annotation("("), None);
    assert_eq!(parse_annotation(""), None);
}

#[test]
fn annotation_count_out_of_range() {
    assert_eq!(
        parse_annotation("(18446744073709551616 tider)"),
        Some(Err(ParseError::InvalidCount))
    );
    assert_eq!(
        parse_annotation("(99999999999999999999999)"),
        Some(Err(ParseError::InvalidCount))
    );
}

#[test]
fn well_formed_block_parses() {
    let b = block(Some("Ale: Vårdcentral Nödinge"), Some("/boka?id=3"), Some("(5 lediga tider)"));
    let expected = Location::new(
        "Ale".to_string(),
        "Vårdcentral Nödinge".to_string(),
        "/boka?id=3".to_string(),
        5,
    );
    assert_eq!(parse_block(&b), RecordOutcome::Parsed(expected));
}

#[test]
fn block_with_missing_part_is_skipped() {
    assert_eq!(parse_block(&block(None, Some("/x"), Some("(5)"))), RecordOutcome::Skipped);
    assert_eq!(parse_block(&block(Some("Ale: A"), None, Some("(5)"))), RecordOutcome::Skipped);
    assert_eq!(parse_block(&block(Some("Ale: A"), Some("/x"), None)), RecordOutcome::Skipped);
}

#[test]
fn block_with_unmatched_text_is_skipped() {
    assert_eq!(
        parse_block(&block(Some("Ale: A"), Some("/x"), Some("inga tider"))),
        RecordOutcome::Skipped
    );
    assert_eq!(
        parse_block(&block(Some("Ale A"), Some("/x"), Some("(5)"))),
        RecordOutcome::Skipped
    );
}

#[test]
fn block_with_huge_count_is_malformed() {
    assert_eq!(
        parse_block(&block(Some("Ale: A"), Some("/x"), Some("(123456789012345678901)"))),
        RecordOutcome::Malformed(ParseError::InvalidCount)
    );
}

#[test]
fn annotation_in_other_script_is_an_error() {
    assert_eq!(parse_annotation("(\u{661}\u{662} tider)"), Some(Err(ParseError::InvalidCount)));
    assert_eq!(parse_annotation(" (1\u{662})"), Some(Err(ParseError::InvalidCount)));
    assert_eq!(parse_annotation("(\u{966}"), Some(Err(ParseError::InvalidCount)));
    assert_eq!(parse_annotation("(\u{ff11}2)"), Some(Err(ParseError::InvalidCount)));
    assert_eq!(parse_annotation("(12\u{b2})"), Some(Ok(12)));
    assert_eq!(parse_annotation("(\u{b2})"), None);
}

#[test]
fn block_in_other_script_is_malformed() {
    assert_eq!(
        parse_block(&block(Some("Ale: A"), Some("/x"), Some("(\u{661}\u{662} tider)"))),
        RecordOutcome::Malformed(ParseError::InvalidCount)
    );
}
