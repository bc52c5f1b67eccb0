//! Reader for SubRip (`.srt`) containers: numbered blocks, each with a timing
//! line `HH:MM:SS,mmm --> ...` and one or more text lines, separated by
//! blank lines.
use vstd::prelude::*;
use crate::text::{trim, trim_bounds, chars_of, string_of_range};
use crate::segment::{SubtitleBlock, blocks_view};

verus! {

/// What was wrong with a malformed container.
#[derive(Debug, Clone, Copy, PartialEq, Eq, Structural)]
pub enum ParseErrorKind {
    /// A block does not begin with a line holding its number.
    BadIndex,
    /// A block's number is not followed by a timing line.
    MissingTiming,
}

/// A malformed container, with the 1-based number of the line at which the
/// offending block begins.
#[derive(Debug, Clone, Copy, PartialEq, Eq, Structural)]
pub struct ParseError {
    pub line: usize,
    pub kind: ParseErrorKind,
}

/// Index of the first line feed in `s`, or `s.len()` when it has none.
pub open spec fn first_newline(s: Seq<char>) -> int
    decreases s.len(),
{
    if s.len() == 0 {
        0
    } else if s[0] == '\n' {
        0
    } else {
        1 + first_newline(s.drop_first())
    }
}

/// `s` cut at every line feed; the line feeds themselves are dropped.
pub open spec fn raw_lines(s: Seq<char>) -> Seq<Seq<char>>
    decreases s.len(),
{
    let k = first_newline(s);
    if 0 <= k < s.len() {
        seq![s.take(k)] + raw_lines(s.skip(k + 1))
    } else {
        seq![s]
    }
}

/// A line without the carriage return of a CRLF line ending.
pub open spec fn strip_cr(l: Seq<char>) -> Seq<char> {
    if l.len() > 0 && l.last() == '\r' {
        l.drop_last()
    } else {
        l
    }
}

pub open spec fn lines(s: Seq<char>) -> Seq<Seq<char>> {
    raw_lines(s).map_values(|l: Seq<char>| strip_cr(l))
}

pub open spec fn is_blank(l: Seq<char>) -> bool {
    trim(l).len() == 0
}

pub open spec fn is_digit(c: char) -> bool {
    '0' <= c <= '9'
}

/// A block number: ASCII digits, possibly surrounded by whitespace.
pub open spec fn is_index_line(l: Seq<char>) -> bool {
    trim(l).len() > 0 && forall|k: int| 0 <= k < trim(l).len() ==> is_digit(#[trigger] trim(l)[k])
}

/// A timing line: `HH:MM:SS,mmm --> ` followed by anything.
pub open spec fn is_timing_line(l: Seq<char>) -> bool {
    &&& l.len() >= 17
    &&& is_digit(l[0]) && is_digit(l[1]) && l[2] == ':'
    &&& is_digit(l[3]) && is_digit(l[4]) && l[5] == ':'
    &&& is_digit(l[6]) && is_digit(l[7]) && l[8] == ','
    &&& is_digit(l[9]) && is_digit(l[10]) && is_digit(l[11])
    &&& l[12] == ' ' && l[13] == '-' && l[14] == '-' && l[15] == '>' && l[16] == ' '
}

/// The index of the blank line, or the end, that ends the text lines
/// starting at line `j`.
pub open spec fn text_end(ls: Seq<Seq<char>>, j: int) -> int
    decreases ls.len() - j,
{
    if j < 0 || j >= ls.len() || is_blank(ls[j]) {
        j
    } else {
        text_end(ls, j + 1)
    }
}

/// Lines joined with one space between neighbours.
pub open spec fn join_lines(ls: Seq<Seq<char>>) -> Seq<char>
    decreases ls.len(),
{
    if ls.len() == 0 {
        seq![]
    } else if ls.len() == 1 {
        ls[0]
    } else {
        join_lines(ls.drop_last()) + seq![' '] + ls.last()
    }
}

/// The blocks of `ls[i..]`.
pub open spec fn parse_from(ls: Seq<Seq<char>>, i: int) -> Result<
    Seq<(Seq<char>, Seq<char>)>,
    ParseError,
>
    decreases ls.len() - i,
{
    if i < 0 || i >= ls.len() {
        Ok(seq![])
    } else if is_blank(ls[i]) {
        parse_from(ls, i + 1)
    } else if !is_index_line(ls[i]) {
        Err(ParseError { line: (i + 1) as usize, kind: ParseErrorKind::BadIndex })
    } else if i + 1 >= ls.len() || !is_timing_line(ls[i + 1]) {
        Err(ParseError { line: (i + 1) as usize, kind: ParseErrorKind::MissingTiming })
    } else {
        let e = text_end(ls, i + 2);
        let block = (ls[i + 1].take(12), trim(join_lines(ls.subrange(i + 2, e))));
        if e <= i + 1 || e > ls.len() {
            Ok(seq![])
        } else {
            match parse_from(ls, e) {
                Ok(rest) => Ok(seq![block] + rest),
                Err(err) => Err(err),
            }
        }
    }
}

/// `s` without a leading byte order mark.
pub open spec fn strip_bom(s: Seq<char>) -> Seq<char> {
    if s.len() > 0 && s[0] == '\u{feff}' {
        s.drop_first()
    } else {
        s
    }
}

/// The blocks of a whole container, or the first defect in it.
pub open spec fn parse_spec(s: Seq<char>) -> Result<Seq<(Seq<char>, Seq<char>)>, ParseError> {
    parse_from(lines(strip_bom(s)), 0)
}

pub open spec fn lines_view(v: Seq<Vec<char>>) -> Seq<Seq<char>> {
    v.map_values(|l: Vec<char>| l@)
}

proof fn lemma_first_newline(s: Seq<char>, k: int)
    requires
        0 <= k <= s.len(),
        forall|m: int| 0 <= m < k ==> #[trigger] s[m] != '\n',
        k == s.len() || s[k] == '\n',
    ensures
        first_newline(s) == k,
    decreases k,
{
    if k > 0 {
        assert forall|m: int| 0 <= m < k - 1 implies #[trigger] s.drop_first()[m] != '\n' by {
            assert(s.drop_first()[m] == s[m + 1]);
        }
        lemma_first_newline(s.drop_first(), k - 1);
    }
}

/// `v[lo..hi]` as a new vector.
fn copy_range(v: &Vec<char>, lo: usize, hi: usize) -> (r: Vec<char>)
    requires
        lo <= hi <= v.len(),
    ensures
        r@ == v@.subrange(lo as int, hi as int),
{
    let mut r: Vec<char> = Vec::new();
    let mut i = lo;
    while i < hi
        invariant
            lo <= i <= hi <= v.len(),
            r@ == v@.subrange(lo as int, i as int),
        decreases hi - i,
    {
        r.push(v[i]);
        assert(v@.subrange(lo as int, i + 1) =~= v@.subrange(lo as int, i as int).push(v@[i as int]));
        i = i + 1;
    }
    r
}

/// The line `v[lo..hi]` without a final carriage return.
fn line_at(v: &Vec<char>, lo: usize, hi: usize) -> (r: Vec<char>)
    requires
        lo <= hi <= v.len(),
    ensures
        r@ == strip_cr(v@.subrange(lo as int, hi as int)),
{
    if hi > lo && v[hi - 1] == '\r' {
        let r = copy_range(v, lo, hi - 1);
        assert(r@ =~= v@.subrange(lo as int, hi as int).drop_last());
        r
    } else {
        copy_range(v, lo, hi)
    }
}

/// The lines of `cs`, split at line feeds, each without a final carriage return.
pub fn split_lines(cs: &Vec<char>) -> (r: Vec<Vec<char>>)
    ensures
        lines_view(r@) == lines(cs@),
{
    let mut out: Vec<Vec<char>> = Vec::new();
    let ghost mut done: Seq<Seq<char>> = seq![];
    let mut st: usize = 0;
    let mut i: usize = 0;
    assert(cs@.skip(0) =~= cs@);
    while i < cs.len()
        invariant
            st <= i <= cs.len(),
            raw_lines(cs@) == done + raw_lines(cs@.skip(st as int)),
            lines_view(out@) == done.map_values(|l: Seq<char>| strip_cr(l)),
            forall|m: int| st <= m < i ==> #[trigger] cs@[m] != '\n',
        decreases cs.len() - i,
    {
        if cs[i] == '\n' {
            let ghost rest = cs@.skip(st as int);
            proof {
                lemma_first_newline(rest, i - st);
                assert(rest.take(i - st) =~= cs@.subrange(st as int, i as int));
                assert(rest.skip(i - st + 1) =~= cs@.skip(i + 1));
            }
            let l = line_at(cs, st, i);
            let ghost old_out = out@;
            out.push(l);
            proof {
                let x = cs@.subrange(st as int, i as int);
                assert(lines_view(out@) =~= lines_view(old_out).push(strip_cr(x)));
                assert((done + seq![x]).map_values(|l: Seq<char>| strip_cr(l)) =~= done.map_values(
                    |l: Seq<char>| strip_cr(l),
                ).push(strip_cr(x)));
                done = done + seq![x];
            }
            st = i + 1;
        }
        i = i + 1;
    }
    let ghost rest = cs@.skip(st as int);
    proof {
        lemma_first_newline(rest, rest.len() as int);
        assert(rest =~= cs@.subrange(st as int, cs@.len() as int));
    }
    let l = line_at(cs, st, cs.len());
    let ghost old_out = out@;
    out.push(l);
    proof {
        assert(lines_view(out@) =~= lines_view(old_out).push(strip_cr(rest)));
        assert((done + seq![rest]).map_values(|l: Seq<char>| strip_cr(l)) =~= done.map_values(
            |l: Seq<char>| strip_cr(l),
        ).push(strip_cr(rest)));
        done = done + seq![rest];
        assert(raw_lines(cs@) =~= done);
        assert(lines_view(out@) =~= done.map_values(|l: Seq<char>| strip_cr(l)));
    }
    out
}

pub fn is_blank_line(l: &Vec<char>) -> (r: bool)
    ensures
        r == is_blank(l@),
{
    let (a, b) = trim_bounds(l, 0, l.len());
    assert(l@.subrange(0, l@.len() as int) =~= l@);
    a == b
}

fn is_digit_char(c: char) -> (r: bool)
    ensures
        r == is_digit(c),
{
    '0' <= c && c <= '9'
}

pub fn is_index(l: &Vec<char>) -> (r: bool)
    ensures
        r == is_index_line(l@),
{
    let (a, b) = trim_bounds(l, 0, l.len());
    assert(l@.subrange(0, l@.len() as int) =~= l@);
    if a == b {
        return false;
    }
    let mut k = a;
    while k < b
        invariant
            a <= k <= b <= l.len(),
            trim(l@) == l@.subrange(a as int, b as int),
            forall|m: int| 0 <= m < k - a ==> is_digit(#[trigger] trim(l@)[m]),
        decreases b - k,
    {
        if !is_digit_char(l[k]) {
            assert(trim(l@)[k - a] == l@[k as int]);
            return false;
        }
        k = k + 1;
    }
    true
}

pub fn is_timing(l: &Vec<char>) -> (r: bool)
    ensures
        r == is_timing_line(l@),
{
    l.len() >= 17 && is_digit_char(l[0]) && is_digit_char(l[1]) && l[2] == ':' && is_digit_char(l[3])
        && is_digit_char(l[4]) && l[5] == ':' && is_digit_char(l[6]) && is_digit_char(l[7]) && l[8]
        == ',' && is_digit_char(l[9]) && is_digit_char(l[10]) && is_digit_char(l[11]) && l[12] == ' '
        && l[13] == '-' && l[14] == '-' && l[15] == '>' && l[16] == ' '
}

/// The blocks `done` followed by what parsing the rest gave.
pub open spec fn after_blocks(
    done: Seq<(Seq<char>, Seq<char>)>,
    rest: Result<Seq<(Seq<char>, Seq<char>)>, ParseError>,
) -> Result<Seq<(Seq<char>, Seq<char>)>, ParseError> {
    match rest {
        Ok(bs) => Ok(done + bs),
        Err(e) => Err(e),
    }
}

pub open spec fn parse_result_view(r: Result<Vec<SubtitleBlock>, ParseError>) -> Result<
    Seq<(Seq<char>, Seq<char>)>,
    ParseError,
> {
    match r {
        Ok(v) => Ok(blocks_view(v@)),
        Err(e) => Err(e),
    }
}

/// Reads the blocks of a SubRip container. Each block's text is its text
/// lines joined with single spaces and trimmed; a block may have empty text.
/// A block that does not start with a number, or whose number is not
/// followed by a timing line, fails the whole container.
pub fn parse_srt(content: &str) -> (r: Result<Vec<SubtitleBlock>, ParseError>)
    ensures
        parse_result_view(r) == parse_spec(content@),
{
    let mut cs = chars_of(content);
    if cs.len() > 0 && cs[0] == '\u{feff}' {
        cs.remove(0);
        assert(cs@ =~= content@.drop_first());
    }
    let ls = split_lines(&cs);
    let ghost lv = lines_view(ls@);
    let n = ls.len();
    let mut out: Vec<SubtitleBlock> = Vec::new();
    let mut i: usize = 0;
    assert(blocks_view(out@) =~= seq![]);
    while i < n
        invariant
            i <= n == ls.len(),
            lv == lines_view(ls@),
            lv == lines(strip_bom(content@)),
            parse_spec(content@) == after_blocks(blocks_view(out@), parse_from(lv, i as int)),
        decreases n - i,
    {
        assert(lv[i as int] == ls@[i as int]@);
        if is_blank_line(&ls[i]) {
            i = i + 1;
        } else if !is_index(&ls[i]) {
            return Err(ParseError { line: i + 1, kind: ParseErrorKind::BadIndex });
        } else if i + 1 >= n || !is_timing(&ls[i + 1]) {
            return Err(ParseError { line: i + 1, kind: ParseErrorKind::MissingTiming });
        } else {
            assert(lv[i + 1] == ls@[i + 1]@);
            let first = i + 2;
            let mut e = first;
            while e < n && !is_blank_line(&ls[e])
                invariant
                    first <= e <= n == ls.len(),
                    lv == lines_view(ls@),
                    text_end(lv, first as int) == text_end(lv, e as int),
                decreases n - e,
            {
                assert(lv[e as int] == ls@[e as int]@);
                e = e + 1;
            }
            if e < n {
                assert(lv[e as int] == ls@[e as int]@);
            }
            let mut j: Vec<char> = Vec::new();
            let mut m = first;
            assert(lv.subrange(first as int, first as int) =~= seq![]);
            while m < e
                invariant
                    first <= m <= e <= n == ls.len(),
                    lv == lines_view(ls@),
                    j@ == join_lines(lv.subrange(first as int, m as int)),
                decreases e - m,
            {
                assert(lv.subrange(first as int, m + 1).drop_last() =~= lv.subrange(
                    first as int,
                    m as int,
                ));
                assert(lv[m as int] == ls@[m as int]@);
                if m > first {
                    j.push(' ');
                }
                let ghost base = j@;
                let line = &ls[m];
                let mut c: usize = 0;
                while c < line.len()
                    invariant
                        c <= line.len(),
                        j@ == base + line@.take(c as int),
                    decreases line.len() - c,
                {
                    j.push(line[c]);
                    assert(line@.take(c + 1) =~= line@.take(c as int).push(line@[c as int]));
                    c = c + 1;
                }
                assert(line@.take(c as int) =~= line@);
                m = m + 1;
            }
            let (a, b) = trim_bounds(&j, 0, j.len());
            assert(j@.subrange(0, j@.len() as int) =~= j@);
            let text = string_of_range(&j, a, b);
            let start_time = string_of_range(&ls[i + 1], 0, 12);
            let ghost before = blocks_view(out@);
            let ghost block = (
                lv[i + 1].take(12),
                trim(join_lines(lv.subrange(first as int, e as int))),
            );
            out.push(SubtitleBlock { start_time, text });
            proof {
                assert(text_end(lv, first as int) == e);
                assert(parse_from(lv, i as int) == after_blocks(seq![block], parse_from(lv, e as int)));
                assert(blocks_view(out@) =~= before + seq![block]);
                match parse_from(lv, e as int) {
                    Ok(bs) => {
                        assert(before + (seq![block] + bs) =~= (before + seq![block]) + bs);
                    },
                    Err(_) => {},
                }
            }
            i = e;
        }
    }
    Ok(out)
}

} // verus!
