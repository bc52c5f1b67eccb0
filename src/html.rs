//! Pieces of the interactive page: HTML escaping and video embedding.
use vstd::prelude::*;
use crate::text::{chars_of, push_char, push_str};
use crate::youtube::option_view;

verus! {

/// What one character becomes in escaped HTML text.
pub open spec fn escape_char(c: char) -> Seq<char> {
    if c == '&' {
        seq!['&', 'a', 'm', 'p', ';']
    } else if c == '<' {
        seq!['&', 'l', 't', ';']
    } else if c == '>' {
        seq!['&', 'g', 't', ';']
    } else if c == '"' {
        seq!['&', 'q', 'u', 'o', 't', ';']
    } else if c == '\'' {
        seq!['&', '#', '3', '9', ';']
    } else {
        seq![c]
    }
}

/// `s` with each character escaped.
pub open spec fn escape_spec(s: Seq<char>) -> Seq<char>
    decreases s.len(),
{
    if s.len() == 0 {
        seq![]
    } else {
        escape_spec(s.drop_last()) + escape_char(s.last())
    }
}

/// Escapes `&`, `<`, `>`, `"` and `'` for use in HTML text and attributes.
pub fn escape_html(text: &str) -> (r: String)
    ensures
        r@ == escape_spec(text@),
{
    let cs = chars_of(text);
    let mut r = String::new();
    let mut i: usize = 0;
    while i < cs.len()
        invariant
            i <= cs.len(),
            cs@ == text@,
            r@ == escape_spec(cs@.take(i as int)),
        decreases cs.len() - i,
    {
        let c = cs[i];
        assert(cs@.take(i + 1).drop_last() =~= cs@.take(i as int));
        if c == '&' {
            proof { reveal_strlit("&amp;"); }
            push_str(&mut r, "&amp;");
        } else if c == '<' {
            proof { reveal_strlit("&lt;"); }
            push_str(&mut r, "&lt;");
        } else if c == '>' {
            proof { reveal_strlit("&gt;"); }
            push_str(&mut r, "&gt;");
        } else if c == '"' {
            proof { reveal_strlit("&quot;"); }
            push_str(&mut r, "&quot;");
        } else if c == '\'' {
            proof { reveal_strlit("&#39;"); }
            push_str(&mut r, "&#39;");
        } else {
            push_char(&mut r, c);
        }
        assert(r@ =~= escape_spec(cs@.take(i + 1)));
        i = i + 1;
    }
    assert(cs@.take(cs@.len() as int) =~= cs@);
    r
}

/// What `pattern`'s first capture group matches in the leftmost match of
/// `pattern` in `text`; none when nothing matches.
pub uninterp spec fn first_group(pattern: Seq<char>, text: Seq<char>) -> Option<Seq<char>>;

/// Relies on `regex::Regex::new` and `Regex::captures`: the text of group 1
/// of the leftmost match; `None` when the pattern is invalid, nothing
/// matches, or the group took no part in the match.
#[verifier::external_body]
fn regex_first_group(pattern: &str, text: &str) -> (r: Option<String>)
    ensures
        option_view(r) == first_group(pattern@, text@),
{
    match regex::Regex::new(pattern) {
        Ok(re) => re.captures(text).and_then(|cap| cap.get(1)).map(|m| m.as_str().to_string()),
        Err(_) => None,
    }
}

/// HTML that `pulldown_cmark` renders for Markdown text, tables enabled.
pub uninterp spec fn markdown_html(md: Seq<char>) -> Seq<char>;

/// Relies on `pulldown_cmark::Parser::new_ext` and `html::push_html`: the
/// HTML rendering of the Markdown, with tables enabled.
#[verifier::external_body]
fn markdown_to_html(md: &str) -> (r: String)
    ensures
        r@ == markdown_html(md@),
{
    let mut options = pulldown_cmark::Options::empty();
    options.insert(pulldown_cmark::Options::ENABLE_TABLES);
    let mut out = String::new();
    pulldown_cmark::html::push_html(&mut out, pulldown_cmark::Parser::new_ext(md, options));
    out
}

/// A video id after `watch?v=` or `youtu.be/`.
pub const YOUTUBE_ID_PATTERN: &'static str = r"(?:watch\?v=|youtu\.be/)([\w-]+)";

/// The video id in a video page or short link URL.
pub fn get_youtube_id(url: &str) -> (r: Option<String>)
    ensures
        option_view(r) == first_group(YOUTUBE_ID_PATTERN@, url@),
{
    regex_first_group(YOUTUBE_ID_PATTERN, url)
}

pub const EMBED_PREFIX: &'static str = "https://www.youtube.com/embed/";

pub const EMBED_SUFFIX: &'static str = "?enablejsapi=1";

pub open spec fn embed_url_spec(id: Seq<char>) -> Seq<char> {
    EMBED_PREFIX@ + id + EMBED_SUFFIX@
}

/// The embeddable player URL for a video id, with the script API enabled.
pub fn embed_url_for_id(id: &str) -> (r: String)
    ensures
        r@ == embed_url_spec(id@),
{
    let mut r = String::new();
    push_str(&mut r, EMBED_PREFIX);
    push_str(&mut r, id);
    push_str(&mut r, EMBED_SUFFIX);
    r
}

pub open spec fn embed_url_of(url: Seq<char>) -> Option<Seq<char>> {
    match first_group(YOUTUBE_ID_PATTERN@, url) {
        Some(id) => Some(embed_url_spec(id)),
        None => None,
    }
}

/// The embeddable player URL for a video URL, if it holds a video id.
pub fn get_youtube_embed_url(url: &str) -> (r: Option<String>)
    ensures
        option_view(r) == embed_url_of(url@),
{
    match get_youtube_id(url) {
        Some(id) => Some(embed_url_for_id(id.as_str())),
        None => None,
    }
}

pub const CONTAINER_OPEN: &'static str = "    <div id=\"video-container\">\n";

pub const CONTAINER_CLOSE: &'static str = "\n    </div>";

pub const IFRAME_OPEN: &'static str = "        <iframe id=\"youtube-player\" src=\"";

pub const IFRAME_CLOSE: &'static str = "\" allow=\"accelerometer; autoplay; clipboard-write; encrypted-media; gyroscope; picture-in-picture\" allowfullscreen></iframe>";

pub open spec fn iframe_spec(url: Seq<char>) -> Seq<char> {
    match embed_url_of(url) {
        Some(e) => IFRAME_OPEN@ + e + IFRAME_CLOSE@,
        None => seq![],
    }
}

pub open spec fn video_container_spec(url: Option<Seq<char>>) -> Seq<char> {
    match url {
        Some(u) => CONTAINER_OPEN@ + iframe_spec(u) + CONTAINER_CLOSE@,
        None => seq![],
    }
}

/// The block holding the embedded player: empty without a video URL, and
/// holding no player when the URL has no video id.
pub fn video_container_html(youtube_url: Option<&str>) -> (r: String)
    ensures
        r@ == video_container_spec(
            match youtube_url {
                Some(u) => Some(u@),
                None => None,
            },
        ),
{
    let mut r = String::new();
    match youtube_url {
        Some(u) => {
            push_str(&mut r, CONTAINER_OPEN);
            match get_youtube_embed_url(u) {
                Some(e) => {
                    push_str(&mut r, IFRAME_OPEN);
                    push_str(&mut r, e.as_str());
                    push_str(&mut r, IFRAME_CLOSE);
                },
                None => {
                    assert(r@ + Seq::<char>::empty() =~= r@);
                },
            }
            push_str(&mut r, CONTAINER_CLOSE);
        },
        None => {},
    }
    r
}

pub const ENTRY_OPEN: &'static str = "                <div class=\"entry\" data-timestamp-sec=\"";

pub const ENTRY_TIMESTAMP: &'static str = "\">\n                    <div class=\"sentence\"><span class=\"timestamp\">";

pub const ENTRY_SENTENCE: &'static str = "</span><span class=\"original-text\">";

pub const ENTRY_EXPLANATION: &'static str = "</span></div>\n                    <div class=\"explanation\">";

pub const ENTRY_CLOSE: &'static str = "</div>\n                </div>";

pub open spec fn entry_spec(
    seconds: Seq<char>,
    timestamp: Seq<char>,
    sentence: Seq<char>,
    explanation: Seq<char>,
) -> Seq<char> {
    ENTRY_OPEN@ + seconds + ENTRY_TIMESTAMP@ + escape_spec(timestamp) + ENTRY_SENTENCE@
        + escape_spec(sentence) + ENTRY_EXPLANATION@ + markdown_html(explanation) + ENTRY_CLOSE@
}

/// One sentence of the page: its start in seconds (for the player), its
/// timestamp and text escaped, and its Markdown explanation as HTML.
pub fn render_entry(seconds: &str, timestamp: &str, sentence: &str, explanation: &str) -> (r:
    String)
    ensures
        r@ == entry_spec(seconds@, timestamp@, sentence@, explanation@),
{
    let mut r = String::new();
    push_str(&mut r, ENTRY_OPEN);
    push_str(&mut r, seconds);
    push_str(&mut r, ENTRY_TIMESTAMP);
    let ts = escape_html(timestamp);
    push_str(&mut r, ts.as_str());
    push_str(&mut r, ENTRY_SENTENCE);
    let st = escape_html(sentence);
    push_str(&mut r, st.as_str());
    push_str(&mut r, ENTRY_EXPLANATION);
    let ex = markdown_to_html(explanation);
    push_str(&mut r, ex.as_str());
    push_str(&mut r, ENTRY_CLOSE);
    r
}

} // verus!
