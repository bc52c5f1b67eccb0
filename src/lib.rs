//! Turns time-coded subtitle containers into timestamped sentences.
use vstd::prelude::*;

pub mod text;
pub mod segment;
pub mod srt;
pub mod html;
pub mod analysis;
pub mod youtube;
pub mod output;
pub mod segment_lemmas;
pub mod segment_order;

use segment::{Subtitle, segment, segment_blocks, subtitles_view};
use srt::{ParseError, parse_srt, parse_spec};

verus! {

/// Reads a SubRip container and splits its text into timestamped sentences.
/// A malformed container yields its first defect and no sentences.
pub fn srt_to_sentences(content: &str) -> (r: Result<Vec<Subtitle>, ParseError>)
    ensures
        match parse_spec(content@) {
            Ok(bs) => r is Ok && subtitles_view(r->Ok_0@) == segment(bs),
            Err(e) => r == Err::<Vec<Subtitle>, ParseError>(e),
        },
{
    match parse_srt(content) {
        Ok(blocks) => Ok(segment_blocks(&blocks)),
        Err(e) => Err(e),
    }
}

} // verus!
