//! What is asked of the language model for each sentence, and how each
//! answer, or failure, becomes one record of the analysis.
use vstd::prelude::*;
use crate::text::{trim, trim_bounds, chars_of, push_char, push_str};
use crate::segment::{Subtitle, subtitles_view};

verus! {

/// One analysed sentence.
pub struct AnalysisResult {
    pub timestamp: String,
    pub original_sentence: String,
    pub translation: String,
    pub explanation: String,
}

impl View for AnalysisResult {
    /// `(timestamp, original_sentence, translation, explanation)`
    type V = (Seq<char>, Seq<char>, Seq<char>, Seq<char>);

    open spec fn view(&self) -> Self::V {
        (self.timestamp@, self.original_sentence@, self.translation@, self.explanation@)
    }
}

/// How the request about one sentence ended.
pub enum LlmOutcome {
    /// The model answered with a translation and an explanation.
    Parsed { translation: String, explanation: String },
    /// The model answered, but not with the expected JSON object.
    Unparsed { response: String },
    /// The service answered with a failure status, given as text.
    Rejected { status: String },
    /// The service could not be reached; the error, as text.
    Unreachable { error: String },
}

/// Instructions to the model, in Japanese: translate the sentence and explain
/// its grammar in Markdown, answering with one JSON object only.
pub const SYSTEM_PROMPT: &'static str = r###"あなたは優秀な英文法学者です。以下のJSON形式で、提供された英文の和訳と文法解説を日本語で生成してください。explanationフィールドにはマークダウンを使用してください。\n{ \"translation\": \"<ここに和訳>\", \"explanation\": \"<ここに文法解説>\" }\n最終応答は、"{"で始まり"}"で終わるJSONのみを出力し、JSON以外の文字は一切応答に含めないでください。"###;

pub const SENTENCE_INTRO: &'static str = "\n\nSentence: \"";

pub const PARSE_FAILED: &'static str = "Error: Failed to parse LLM response.";

pub const REQUEST_FAILED: &'static str = "Error: API request failed.";

pub const STATUS_PREFIX: &'static str = "Failed to get explanation. Status: ";

pub const CONNECTION_FAILED: &'static str = "Error: API connection failed.";

pub const CONNECTION_PREFIX: &'static str = "API connection error: ";

pub open spec fn prompt_spec(sentence: Seq<char>) -> Seq<char> {
    SYSTEM_PROMPT@ + SENTENCE_INTRO@ + sentence + seq!['"']
}

/// The prompt for one sentence: the instructions, then the sentence quoted.
pub fn build_prompt(sentence: &str) -> (r: String)
    ensures
        r@ == prompt_spec(sentence@),
{
    let mut r = String::new();
    push_str(&mut r, SYSTEM_PROMPT);
    push_str(&mut r, SENTENCE_INTRO);
    push_str(&mut r, sentence);
    push_char(&mut r, '"');
    r
}

pub open spec fn analysis_spec(ts: Seq<char>, sentence: Seq<char>, outcome: LlmOutcome) -> (
    Seq<char>,
    Seq<char>,
    Seq<char>,
    Seq<char>,
) {
    match outcome {
        LlmOutcome::Parsed { translation, explanation } => (
            ts,
            sentence,
            translation@,
            explanation@,
        ),
        LlmOutcome::Unparsed { response } => (ts, sentence, PARSE_FAILED@, response@),
        LlmOutcome::Rejected { status } => (
            ts,
            sentence,
            REQUEST_FAILED@,
            STATUS_PREFIX@ + status@,
        ),
        LlmOutcome::Unreachable { error } => (
            ts,
            sentence,
            CONNECTION_FAILED@,
            CONNECTION_PREFIX@ + error@,
        ),
    }
}

fn text_of(s: &str) -> (r: String)
    ensures
        r@ == s@,
{
    let mut r = String::new();
    push_str(&mut r, s);
    r
}

/// The record kept for a sentence: the model's answer, or in its place a
/// note of what went wrong, with the raw answer or the error as explanation.
pub fn analysis_result(subtitle: &Subtitle, outcome: LlmOutcome) -> (r: AnalysisResult)
    ensures
        r@ == analysis_spec(subtitle.timestamp@, subtitle.text@, outcome),
{
    let timestamp = subtitle.timestamp.clone();
    let original_sentence = subtitle.text.clone();
    match outcome {
        LlmOutcome::Parsed { translation, explanation } => AnalysisResult {
            timestamp,
            original_sentence,
            translation,
            explanation,
        },
        LlmOutcome::Unparsed { response } => AnalysisResult {
            timestamp,
            original_sentence,
            translation: text_of(PARSE_FAILED),
            explanation: response,
        },
        LlmOutcome::Rejected { status } => {
            let mut explanation = text_of(STATUS_PREFIX);
            push_str(&mut explanation, status.as_str());
            AnalysisResult {
                timestamp,
                original_sentence,
                translation: text_of(REQUEST_FAILED),
                explanation,
            }
        },
        LlmOutcome::Unreachable { error } => {
            let mut explanation = text_of(CONNECTION_PREFIX);
            push_str(&mut explanation, error.as_str());
            AnalysisResult {
                timestamp,
                original_sentence,
                translation: text_of(CONNECTION_FAILED),
                explanation,
            }
        },
    }
}

/// Indices below `n` of the sentences that are not blank.
pub open spec fn analysed_indices(texts: Seq<(Seq<char>, Seq<char>)>, n: int) -> Seq<int>
    decreases n,
{
    if n <= 0 {
        seq![]
    } else if trim(texts[n - 1].1).len() > 0 {
        analysed_indices(texts, n - 1).push(n - 1)
    } else {
        analysed_indices(texts, n - 1)
    }
}

pub open spec fn limited(len: int, limit: Option<usize>) -> int {
    match limit {
        Some(l) => if (l as int) < len { l as int } else { len },
        None => len,
    }
}

/// How many sentences an analysis covers: all, or at most `limit`.
pub fn sentence_count(len: usize, limit: Option<usize>) -> (r: usize)
    ensures
        r == limited(len as int, limit),
{
    match limit {
        Some(l) => if l < len { l } else { len },
        None => len,
    }
}

/// The positions of the sentences to analyse: those among the first `limit`
/// (or all) that are not blank, in order.
pub fn sentences_to_analyze(subtitles: &Vec<Subtitle>, limit: Option<usize>) -> (r: Vec<usize>)
    ensures
        r@.map_values(|i: usize| i as int) == analysed_indices(
            subtitles_view(subtitles@),
            limited(subtitles@.len() as int, limit),
        ),
{
    let n = sentence_count(subtitles.len(), limit);
    let ghost tv = subtitles_view(subtitles@);
    let mut r: Vec<usize> = Vec::new();
    let mut i: usize = 0;
    assert(r@.map_values(|i: usize| i as int) =~= seq![]);
    while i < n
        invariant
            i <= n <= subtitles.len(),
            tv == subtitles_view(subtitles@),
            r@.map_values(|i: usize| i as int) == analysed_indices(tv, i as int),
        decreases n - i,
    {
        let cs = chars_of(subtitles[i].text.as_str());
        let (a, b) = trim_bounds(&cs, 0, cs.len());
        assert(cs@.subrange(0, cs@.len() as int) =~= cs@);
        assert(tv[i as int].1 == subtitles@[i as int].text@);
        if a < b {
            let ghost before = r@;
            r.push(i);
            assert(r@.map_values(|i: usize| i as int) =~= before.map_values(|i: usize| i as int).push(
                i as int,
            ));
        }
        i = i + 1;
    }
    r
}

} // verus!
