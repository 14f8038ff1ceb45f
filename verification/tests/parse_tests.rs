use oida::parse::{Level, Parser, ParserError};
use oida::timestamp::Timestamp;

#[test]
fn level_from_str_recognizes_all_levels() {
    assert_eq!(Level::from_str("TRACE"), Some(Level::Trace));
    assert_eq!(Level::from_str("DEBUG"), Some(Level::Debug));
    assert_eq!(Level::from_str("INFO"), Some(Level::Info));
    assert_eq!(Level::from_str("WARN"), Some(Level::Warn));
    assert_eq!(Level::from_str("ERROR"), Some(Level::Error));
}

#[test]
fn level_from_str_is_case_insensitive() {
    assert_eq!(Level::from_str("info"), Some(Level::Info));
    assert_eq!(Level::from_str("WaRn"), Some(Level::Warn));
    assert_eq!(Level::from_str("trace"), Some(Level::Trace));
}

#[test]
fn level_from_str_rejects_unknown_text() {
    assert_eq!(Level::from_str("FATAL"), None);
    assert_eq!(Level::from_str(""), None);
    assert_eq!(Level::from_str("INFOS"), None);
}

#[test]
fn timestamp_parse_reads_every_field() {
    let t = Timestamp::parse("2018-03-09T12:34:56,789").unwrap();
    assert_eq!(t.year, 2018);
    assert_eq!(t.month, 3);
    assert_eq!(t.day, 9);
    assert_eq!(t.hour, 12);
    assert_eq!(t.minute, 34);
    assert_eq!(t.second, 56);
    assert_eq!(t.nanos, 789);
}

#[test]
fn timestamp_parse_accepts_leap_day_only_in_leap_years() {
    assert!(Timestamp::parse("2020-02-29T00:00:00,0").is_some());
    assert!(Timestamp::parse("2019-02-29T00:00:00,0").is_none());
    assert!(Timestamp::parse("2000-02-29T00:00:00,0").is_some());
    assert!(Timestamp::parse("1900-02-29T00:00:00,0").is_none());
}

#[test]
fn timestamp_parse_rejects_bad_shapes_and_ranges() {
    assert!(Timestamp::parse("2018-01-01 00:00:00,000").is_none());
    assert!(Timestamp::parse("2018-01-01T00:00:00").is_none());
    assert!(Timestamp::parse("2018-13-01T00:00:00,000").is_none());
    assert!(Timestamp::parse("2018-00-01T00:00:00,000").is_none());
    assert!(Timestamp::parse("2018-01-32T00:00:00,000").is_none());
    assert!(Timestamp::parse("2018-01-01T24:00:00,000").is_none());
    assert!(Timestamp::parse("").is_none());
}

#[test]
fn parser_tokenizes_a_matching_line() {
    let parser = Parser::new().unwrap();
    let line = parser
        .parse("2018-01-01T00:00:00,000 1 | INFO  | Connecting Node 10.0.0.1/bucket")
        .unwrap()
        .unwrap();
    let t = line.timestamp.unwrap();
    assert_eq!(t.year, 2018);
    assert_eq!(t.hour, 0);
    assert_eq!(line.level.unwrap(), Level::Info);
    assert_eq!(line.message.unwrap(), "Connecting Node 10.0.0.1/bucket");
}

#[test]
fn parser_skips_an_unmatched_line_without_error() {
    let parser = Parser::new().unwrap();
    assert!(parser.parse("").unwrap().is_none());
    assert!(parser.parse("no pipes here at all").unwrap().is_none());
    assert!(parser.parse("2018-01-01T00:00:00,000 no level").unwrap().is_none());
}

#[test]
fn parser_fails_hard_on_an_impossible_date() {
    let parser = Parser::new().unwrap();
    let r = parser.parse("2018-02-30T00:00:00,000 1 | INFO  | hello");
    assert_eq!(r, Err(ParserError::InvalidTimestamp));
}

#[test]
fn parser_fails_hard_on_an_unknown_level_word() {
    let parser = Parser::new().unwrap();
    let r = parser.parse("2018-01-01T00:00:00,000 1 | FATAL  | hello");
    assert_eq!(r, Err(ParserError::InvalidLevel));
}
