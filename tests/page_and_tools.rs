use srtgram::analysis::{
    analysis_result, build_prompt, sentence_count, sentences_to_analyze, LlmOutcome, SYSTEM_PROMPT,
};
use srtgram::html::{
    embed_url_for_id, escape_html, get_youtube_embed_url, get_youtube_id, render_entry, video_container_html,
};
use srtgram::output::{
    is_thumbnail_file, numbered_dir_name, report_path, subtitle_file_name, thumbnail_report_path, Metadata,
};
use srtgram::segment::Subtitle;
use srtgram::youtube::{choose_subtitle_language, parse_subtitle_list};

fn sub(t: &str, text: &str) -> Subtitle {
    Subtitle { timestamp: t.to_string(), text: text.to_string() }
}

#[test]
fn escapes_all_five_characters() {
    assert_eq!(escape_html("a & b < c > d \"e\" 'f'"), "a &amp; b &lt; c &gt; d &quot;e&quot; &#39;f&#39;");
    assert_eq!(escape_html(""), "");
    assert_eq!(escape_html("&amp;"), "&amp;amp;");
}

#[test]
fn prompt_quotes_the_sentence() {
    let p = build_prompt("Hello.");
    assert_eq!(p, format!("{}\n\nSentence: \"Hello.\"", SYSTEM_PROMPT));
    assert!(p.starts_with("あなたは優秀な英文法学者です。"));
}

#[test]
fn analysis_records_for_each_outcome() {
    let s = sub("00:00:01,000", "Hi.");
    let r = analysis_result(&s, LlmOutcome::Parsed { translation: "やあ。".to_string(), explanation: "**hi**".to_string() });
    assert_eq!((r.timestamp.as_str(), r.original_sentence.as_str()), ("00:00:01,000", "Hi."));
    assert_eq!((r.translation.as_str(), r.explanation.as_str()), ("やあ。", "**hi**"));

    let r = analysis_result(&s, LlmOutcome::Unparsed { response: "not json".to_string() });
    assert_eq!(r.translation, "Error: Failed to parse LLM response.");
    assert_eq!(r.explanation, "not json");

    let r = analysis_result(&s, LlmOutcome::Rejected { status: "500 Internal Server Error".to_string() });
    assert_eq!(r.translation, "Error: API request failed.");
    assert_eq!(r.explanation, "Failed to get explanation. Status: 500 Internal Server Error");

    let r = analysis_result(&s, LlmOutcome::Unreachable { error: "refused".to_string() });
    assert_eq!(r.translation, "Error: API connection failed.");
    assert_eq!(r.explanation, "API connection error: refused");
}

#[test]
fn selects_non_blank_sentences_within_limit() {
    let subs = vec![sub("a", "One."), sub("b", "  "), sub("c", "Three."), sub("d", "Four.")];
    assert_eq!(sentences_to_analyze(&subs, None), vec![0, 2, 3]);
    assert_eq!(sentences_to_analyze(&subs, Some(3)), vec![0, 2]);
    assert_eq!(sentences_to_analyze(&subs, Some(0)), Vec::<usize>::new());
    assert_eq!(sentences_to_analyze(&subs, Some(10)), vec![0, 2, 3]);
    assert_eq!(sentence_count(4, Some(2)), 2);
    assert_eq!(sentence_count(4, Some(9)), 4);
    assert_eq!(sentence_count(4, None), 4);
}

#[test]
fn reads_manual_languages_from_listing() {
    let listing = "[info] Available automatic captions for abc:\nLanguage Name Formats\nen English vtt\nfr French vtt\n[info] Available subtitles for abc:\nLanguage Name      Formats\nen-GB    English  vtt, srt\r\n\n  de     German   vtt\n";
    assert_eq!(parse_subtitle_list(listing), vec!["en-GB".to_string(), "de".to_string()]);
    assert!(parse_subtitle_list("").is_empty());
    assert!(parse_subtitle_list("en English\n").is_empty());
}

#[test]
fn prefers_plain_english_then_regional() {
    let langs = |v: &[&str]| v.iter().map(|s| s.to_string()).collect::<Vec<String>>();
    assert_eq!(choose_subtitle_language(&langs(&["fr", "en-US", "en"])), Some("en".to_string()));
    assert_eq!(choose_subtitle_language(&langs(&["fr", "en-US", "en-GB"])), Some("en-US".to_string()));
    assert_eq!(choose_subtitle_language(&langs(&["fr", "eng", "de"])), None);
    assert_eq!(choose_subtitle_language(&Vec::new()), None);
}

#[test]
fn finds_video_ids() {
    assert_eq!(get_youtube_id("https://www.youtube.com/watch?v=dQw4w9WgXcQ&t=1"), Some("dQw4w9WgXcQ".to_string()));
    assert_eq!(get_youtube_id("https://youtu.be/ab-c_D"), Some("ab-c_D".to_string()));
    assert_eq!(get_youtube_id("https://example.com/video"), None);
    assert_eq!(
        get_youtube_embed_url("https://youtu.be/xyz"),
        Some("https://www.youtube.com/embed/xyz?enablejsapi=1".to_string())
    );
    assert_eq!(get_youtube_embed_url("nothing here"), None);
    assert_eq!(embed_url_for_id("q"), "https://www.youtube.com/embed/q?enablejsapi=1");
}

#[test]
fn video_container_forms() {
    assert_eq!(video_container_html(None), "");
    assert_eq!(video_container_html(Some("no id")), "    <div id=\"video-container\">\n\n    </div>");
    let html = video_container_html(Some("https://youtu.be/xyz"));
    assert!(html.starts_with("    <div id=\"video-container\">\n        <iframe id=\"youtube-player\" src=\"https://www.youtube.com/embed/xyz?enablejsapi=1\""));
    assert!(html.ends_with("allowfullscreen></iframe>\n    </div>"));
}

#[test]
fn entry_renders_markdown_and_escapes_text() {
    let e = render_entry("1.5", "00:00:01,500", "A <b> & c", "**bold**");
    assert_eq!(
        e,
        "                <div class=\"entry\" data-timestamp-sec=\"1.5\">\n                    <div class=\"sentence\"><span class=\"timestamp\">00:00:01,500</span><span class=\"original-text\">A &lt;b&gt; &amp; c</span></div>\n                    <div class=\"explanation\"><p><strong>bold</strong></p>\n</div>\n                </div>"
    );
}

#[test]
fn numbered_directory_names() {
    assert_eq!(numbered_dir_name("talk", 2), "talk_02");
    assert_eq!(numbered_dir_name("talk", 10), "talk_10");
    assert_eq!(numbered_dir_name("talk", 123), "talk_123");
    assert_eq!(numbered_dir_name("", 0), "_00");
    assert_eq!(numbered_dir_name("x", u32::MAX), "x_4294967295");
}

#[test]
fn output_paths_and_metadata() {
    assert_eq!(report_path("run_02"), "run_02/index.html");
    assert_eq!(thumbnail_report_path("run"), "run/thumbnail.png");
    assert_eq!(subtitle_file_name("en-GB"), "subtitle.en-GB.srt");
    let m = Metadata::new("T".to_string(), None, Some("3:02".to_string()), 7, None, "2024-01-01T00:00:00+00:00".to_string(), "run".to_string());
    assert_eq!(m.report_path, "run/index.html");
    assert_eq!(m.sentence_count, 7);
    assert_eq!(m.duration.as_deref(), Some("3:02"));
}

#[test]
fn thumbnail_names() {
    assert!(is_thumbnail_file("thumbnail", "webp"));
    assert!(is_thumbnail_file("thumbnail", "jpeg"));
    assert!(!is_thumbnail_file("thumbnail", "gif"));
    assert!(!is_thumbnail_file("thumb", "png"));
}
