use srtgram::srt::{parse_srt, ParseError, ParseErrorKind};
use srtgram::srt_to_sentences;

#[test]
fn reads_blocks_and_joins_lines() {
    let src = "1\n00:00:01,000 --> 00:00:02,000\nHello\nthere\n\n2\r\n00:00:02,500 --> 00:00:04,000\r\nmy friend.\r\n";
    let blocks = parse_srt(src).unwrap();
    assert_eq!(blocks.len(), 2);
    assert_eq!(blocks[0].start_time, "00:00:01,000");
    assert_eq!(blocks[0].text, "Hello there");
    assert_eq!(blocks[1].start_time, "00:00:02,500");
    assert_eq!(blocks[1].text, "my friend.");
}

#[test]
fn keeps_blocks_with_empty_text() {
    let src = "1\n00:00:01,000 --> 00:00:02,000\n\n2\n00:00:03,000 --> 00:00:04,000\nok";
    let blocks = parse_srt(src).unwrap();
    assert_eq!(blocks.len(), 2);
    assert_eq!(blocks[0].text, "");
    assert_eq!(blocks[1].text, "ok");
}

#[test]
fn empty_container_has_no_blocks() {
    assert!(parse_srt("").unwrap().is_empty());
    assert!(parse_srt("\n\n  \n").unwrap().is_empty());
}

#[test]
fn missing_timing_line_is_an_error() {
    let src = "1\n00:00:01,000 --> 00:00:02,000\nHi.\n\n2\nno timing here\ntext\n";
    assert_eq!(
        parse_srt(src).err(),
        Some(ParseError { line: 5, kind: ParseErrorKind::MissingTiming })
    );
    assert_eq!(
        parse_srt("7").err(),
        Some(ParseError { line: 1, kind: ParseErrorKind::MissingTiming })
    );
}

#[test]
fn non_numeric_index_is_an_error() {
    let src = "\nabc\n00:00:01,000 --> 00:00:02,000\nHi.\n";
    assert_eq!(
        parse_srt(src).err(),
        Some(ParseError { line: 2, kind: ParseErrorKind::BadIndex })
    );
}

#[test]
fn container_to_sentences() {
    let src = "1\n00:00:00,000 --> 00:00:01,000\nI saw Mr.\n\n2\n00:00:01,000 --> 00:00:02,000\nSmith today.\n\n3\n00:00:09,000 --> 00:00:10,000\nand then\n";
    let out = srt_to_sentences(src).unwrap();
    let got: Vec<(String, String)> = out.iter().map(|s| (s.timestamp.clone(), s.text.clone())).collect();
    assert_eq!(
        got,
        vec![
            ("00:00:00,000".to_string(), "I saw Mr.".to_string()),
            ("00:00:01,000".to_string(), "Smith today.".to_string()),
            ("00:00:09,000".to_string(), "and then".to_string()),
        ]
    );
}

#[test]
fn malformed_container_gives_no_sentences() {
    let src = "1\n00:00:00,000 --> 00:00:01,000\nFine.\n\nx\n";
    assert_eq!(
        srt_to_sentences(src).err(),
        Some(ParseError { line: 5, kind: ParseErrorKind::BadIndex })
    );
}

#[test]
fn byte_order_mark_is_skipped() {
    let src = "\u{feff}1\r\n00:00:01,000 --> 00:00:02,000\r\nHi.\r\n";
    let blocks = parse_srt(src).unwrap();
    assert_eq!(blocks.len(), 1);
    assert_eq!(blocks[0].start_time, "00:00:01,000");
    assert_eq!(blocks[0].text, "Hi.");
}
