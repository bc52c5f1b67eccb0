use srtgram::segment::{segment_blocks, split_span, SubtitleBlock, Subtitle};

fn block(t: &str, text: &str) -> SubtitleBlock {
    SubtitleBlock { start_time: t.to_string(), text: text.to_string() }
}

fn pairs(v: &[Subtitle]) -> Vec<(String, String)> {
    v.iter().map(|s| (s.timestamp.clone(), s.text.clone())).collect()
}

fn p(t: &str, s: &str) -> (String, String) {
    (t.to_string(), s.to_string())
}

#[test]
fn sentence_spanning_two_blocks() {
    let blocks = vec![block("00:00:01,000", "Hello there"), block("00:00:02,500", "my friend.")];
    let out = segment_blocks(&blocks);
    assert_eq!(pairs(&out), vec![p("00:00:01,000", "Hello there my friend.")]);
}

#[test]
fn abbreviation_splits_into_two_sentences() {
    let blocks = vec![block("00:00:00,000", "I saw Mr."), block("00:00:01,000", "Smith today.")];
    let out = segment_blocks(&blocks);
    assert_eq!(
        pairs(&out),
        vec![p("00:00:00,000", "I saw Mr."), p("00:00:01,000", "Smith today.")]
    );
}

#[test]
fn two_sentences_in_one_block() {
    let blocks = vec![block("00:00:05,000", "Stop! Go now.")];
    let out = segment_blocks(&blocks);
    assert_eq!(
        pairs(&out),
        vec![p("00:00:05,000", "Stop!"), p("00:00:05,000", "Go now.")]
    );
}

#[test]
fn trailing_open_span_is_flushed() {
    let blocks = vec![block("00:00:08,000", "Done."), block("00:00:09,000", "and then")];
    let out = segment_blocks(&blocks);
    assert_eq!(
        pairs(&out),
        vec![p("00:00:08,000", "Done."), p("00:00:09,000", "and then")]
    );
}

#[test]
fn no_terminator_gives_whole_trimmed_input() {
    let blocks = vec![
        block("00:00:01,000", "  so we went"),
        block("00:00:02,000", "down the road "),
    ];
    let out = segment_blocks(&blocks);
    assert_eq!(pairs(&out), vec![p("00:00:01,000", "so we went down the road")]);
}

#[test]
fn sentence_starting_in_later_block_gets_its_time() {
    let blocks = vec![
        block("00:00:01,000", "Yes. And"),
        block("00:00:02,000", "so on. Then we"),
        block("00:00:03,000", "left."),
    ];
    let out = segment_blocks(&blocks);
    assert_eq!(
        pairs(&out),
        vec![
            p("00:00:01,000", "Yes."),
            p("00:00:01,000", "And so on."),
            p("00:00:02,000", "Then we left."),
        ]
    );
}

#[test]
fn empty_blocks_yield_nothing() {
    let blocks = vec![block("00:00:01,000", ""), block("00:00:02,000", "  ")];
    assert!(segment_blocks(&blocks).is_empty());
    assert!(segment_blocks(&Vec::new()).is_empty());
}

#[test]
fn empty_first_block_falls_back_to_first_time() {
    let blocks = vec![block("00:00:01,000", ""), block("00:00:02,000", "Hi.")];
    let out = segment_blocks(&blocks);
    assert_eq!(pairs(&out), vec![p("00:00:01,000", "Hi.")]);
}

#[test]
fn resplitting_a_sentence_is_identity() {
    let parts = vec![block("00:00:04,000", "Is it done?")];
    let out = split_span(&parts);
    assert_eq!(pairs(&out), vec![p("00:00:04,000", "Is it done?")]);
}

#[test]
fn split_span_of_nothing_is_empty() {
    assert!(split_span(&Vec::new()).is_empty());
}

#[test]
fn unicode_whitespace_is_trimmed() {
    let blocks = vec![block("00:00:01,000", "\u{a0}Wow!\u{3000}")];
    let out = segment_blocks(&blocks);
    assert_eq!(pairs(&out), vec![p("00:00:01,000", "Wow!")]);
}

fn non_ws(s: &str) -> String {
    s.chars().filter(|c| !c.is_whitespace()).collect()
}

#[test]
fn sentences_cover_every_character() {
    let blocks = vec![
        block("00:00:01,000", "  Well, e.g. this"),
        block("00:00:02,000", "is it?! Yes"),
        block("00:00:03,000", ""),
        block("00:00:04,000", "no . ."),
        block("00:00:05,000", "tail end "),
    ];
    let out = segment_blocks(&blocks);
    let all_out: String = out.iter().map(|s| s.text.clone()).collect();
    let all_in: String = blocks.iter().map(|b| b.text.clone()).collect();
    assert_eq!(non_ws(&all_out), non_ws(&all_in));
    assert!(out.iter().all(|s| !s.text.is_empty() && s.text.trim() == s.text));
}

#[test]
fn timestamps_follow_block_order() {
    let blocks = vec![
        block("00:00:01,000", "One. Two"),
        block("00:00:02,000", "three. Four"),
        block("00:00:03,000", "five! Six?"),
        block("00:00:04,000", "Seven"),
        block("00:00:05,000", "eight. Nine"),
    ];
    let out = segment_blocks(&blocks);
    let times: Vec<&str> = out.iter().map(|s| s.timestamp.as_str()).collect();
    assert_eq!(
        times,
        vec!["00:00:01,000", "00:00:01,000", "00:00:02,000", "00:00:03,000", "00:00:04,000", "00:00:05,000"]
    );
    let texts: Vec<&str> = out.iter().map(|s| s.text.as_str()).collect();
    assert_eq!(texts, vec!["One.", "Two three.", "Four five!", "Six?", "Seven eight.", "Nine"]);
    assert!(times.windows(2).all(|w| w[0] <= w[1]));
}

#[test]
fn every_emitted_sentence_resplits_to_itself() {
    let blocks = vec![
        block("00:00:01,000", "A b. C"),
        block("00:00:02,000", "d! E f"),
    ];
    for s in segment_blocks(&blocks) {
        let again = split_span(&vec![block(&s.timestamp, &s.text)]);
        assert_eq!(pairs(&again), vec![(s.timestamp.clone(), s.text.clone())]);
    }
}
