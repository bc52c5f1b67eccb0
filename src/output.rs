//! Names of what a run writes, and the metadata record describing it.
use vstd::prelude::*;
use crate::text::{push_char, push_str, same_text};

verus! {

pub open spec fn digit_char(d: int) -> char {
    if d == 0 {
        '0'
    } else if d == 1 {
        '1'
    } else if d == 2 {
        '2'
    } else if d == 3 {
        '3'
    } else if d == 4 {
        '4'
    } else if d == 5 {
        '5'
    } else if d == 6 {
        '6'
    } else if d == 7 {
        '7'
    } else if d == 8 {
        '8'
    } else {
        '9'
    }
}

/// The decimal digits of `n`, without leading zeros.
pub open spec fn decimal(n: nat) -> Seq<char>
    decreases n,
{
    if n < 10 {
        seq![digit_char(n as int)]
    } else {
        decimal(n / 10).push(digit_char((n % 10) as int))
    }
}

/// The decimal digits of `n`, padded with zeros to at least two.
pub open spec fn two_digits(n: nat) -> Seq<char> {
    if n < 10 {
        seq!['0'] + decimal(n)
    } else {
        decimal(n)
    }
}

fn digit(d: u32) -> (c: char)
    requires
        d < 10,
    ensures
        c == digit_char(d as int),
{
    if d == 0 {
        '0'
    } else if d == 1 {
        '1'
    } else if d == 2 {
        '2'
    } else if d == 3 {
        '3'
    } else if d == 4 {
        '4'
    } else if d == 5 {
        '5'
    } else if d == 6 {
        '6'
    } else if d == 7 {
        '7'
    } else if d == 8 {
        '8'
    } else {
        '9'
    }
}

fn decimal_chars(n: u32) -> (r: Vec<char>)
    ensures
        r@ == decimal(n as nat),
{
    let mut v: Vec<char> = Vec::new();
    let mut m = n;
    while m >= 10
        invariant
            decimal(n as nat) == decimal(m as nat) + v@,
        decreases m,
    {
        let ghost old_v = v@;
        v.insert(0, digit(m % 10));
        assert(decimal(m as nat) == decimal((m / 10) as nat).push(digit_char((m % 10) as int)));
        assert(decimal((m / 10) as nat).push(digit_char((m % 10) as int)) + old_v =~= decimal(
            (m / 10) as nat,
        ) + v@);
        m = m / 10;
    }
    let ghost old_v = v@;
    v.insert(0, digit(m));
    assert(decimal(m as nat) + old_v =~= v@);
    v
}

pub open spec fn numbered_name_spec(base: Seq<char>, n: nat) -> Seq<char> {
    base + seq!['_'] + two_digits(n)
}

/// The name tried for the `n`th output directory of a base name taken
/// already: the base, an underscore, and `n` with at least two digits.
pub fn numbered_dir_name(base: &str, n: u32) -> (r: String)
    ensures
        r@ == numbered_name_spec(base@, n as nat),
{
    let mut r = String::new();
    push_str(&mut r, base);
    push_char(&mut r, '_');
    if n < 10 {
        push_char(&mut r, '0');
    }
    let ds = decimal_chars(n);
    let ghost before = r@;
    let mut i: usize = 0;
    while i < ds.len()
        invariant
            i <= ds.len(),
            r@ == before + ds@.take(i as int),
        decreases ds.len() - i,
    {
        push_char(&mut r, ds[i]);
        assert(ds@.take(i + 1) =~= ds@.take(i as int).push(ds@[i as int]));
        i = i + 1;
    }
    assert(ds@.take(i as int) =~= ds@);
    assert(r@ =~= numbered_name_spec(base@, n as nat));
    r
}

pub const REPORT_FILE: &'static str = "/index.html";

pub const THUMBNAIL_FILE: &'static str = "/thumbnail.png";

/// Where the page of a run lies, relative to the runs' common directory.
pub fn report_path(dir_name: &str) -> (r: String)
    ensures
        r@ == dir_name@ + REPORT_FILE@,
{
    let mut r = String::new();
    push_str(&mut r, dir_name);
    push_str(&mut r, REPORT_FILE);
    r
}

/// Where the thumbnail of a run lies, relative to the runs' common directory.
pub fn thumbnail_report_path(dir_name: &str) -> (r: String)
    ensures
        r@ == dir_name@ + THUMBNAIL_FILE@,
{
    let mut r = String::new();
    push_str(&mut r, dir_name);
    push_str(&mut r, THUMBNAIL_FILE);
    r
}

/// What is recorded about a finished run.
pub struct Metadata {
    pub title: String,
    pub video_url: Option<String>,
    pub duration: Option<String>,
    pub sentence_count: usize,
    pub thumbnail_path: Option<String>,
    pub report_path: String,
    pub creation_date: String,
    pub output_dir_name: String,
}

impl Metadata {
    /// The record of a run written to `output_dir_name`; its page lies at
    /// `<output_dir_name>/index.html`.
    pub fn new(
        title: String,
        video_url: Option<String>,
        duration: Option<String>,
        sentence_count: usize,
        thumbnail_path: Option<String>,
        creation_date: String,
        output_dir_name: String,
    ) -> (r: Metadata)
        ensures
            r.title == title,
            r.video_url == video_url,
            r.duration == duration,
            r.sentence_count == sentence_count,
            r.thumbnail_path == thumbnail_path,
            r.report_path@ == output_dir_name@ + REPORT_FILE@,
            r.creation_date == creation_date,
            r.output_dir_name == output_dir_name,
    {
        let report = report_path(output_dir_name.as_str());
        Metadata {
            title,
            video_url,
            duration,
            sentence_count,
            thumbnail_path,
            report_path: report,
            creation_date,
            output_dir_name,
        }
    }
}

pub const THUMBNAIL_STEM: &'static str = "thumbnail";

pub open spec fn is_thumbnail_spec(stem: Seq<char>, ext: Seq<char>) -> bool {
    stem == THUMBNAIL_STEM@ && (ext == "webp"@ || ext == "jpg"@ || ext == "png"@ || ext == "jpeg"@)
}

/// Whether a file, by its stem and extension, is a downloaded thumbnail.
pub fn is_thumbnail_file(stem: &str, ext: &str) -> (r: bool)
    ensures
        r == is_thumbnail_spec(stem@, ext@),
{
    same_text(stem, THUMBNAIL_STEM) && (same_text(ext, "webp") || same_text(ext, "jpg")
        || same_text(ext, "png") || same_text(ext, "jpeg"))
}

pub const SUBTITLE_STEM: &'static str = "subtitle.";

pub const SUBTITLE_EXTENSION: &'static str = ".srt";

/// The file the video tool writes subtitles of a language to.
pub fn subtitle_file_name(lang: &str) -> (r: String)
    ensures
        r@ == SUBTITLE_STEM@ + lang@ + SUBTITLE_EXTENSION@,
{
    let mut r = String::new();
    push_str(&mut r, SUBTITLE_STEM);
    push_str(&mut r, lang);
    push_str(&mut r, SUBTITLE_EXTENSION);
    r
}

} // verus!
