//! Sentence segmentation: time-coded blocks are accumulated into spans, and
//! each closed span is split into sentences, each stamped with the start time
//! of the block in which it begins.
use vstd::prelude::*;
use crate::text::{trim, trim_bounds, chars_of, string_of_range};

verus! {

/// One timed chunk of subtitle text.
pub struct SubtitleBlock {
    pub start_time: String,
    pub text: String,
}

/// One finished sentence with the start time of the block it begins in.
pub struct Subtitle {
    pub timestamp: String,
    pub text: String,
}

impl View for SubtitleBlock {
    /// `(start_time, text)`
    type V = (Seq<char>, Seq<char>);

    open spec fn view(&self) -> (Seq<char>, Seq<char>) {
        (self.start_time@, self.text@)
    }
}

impl View for Subtitle {
    /// `(timestamp, text)`
    type V = (Seq<char>, Seq<char>);

    open spec fn view(&self) -> (Seq<char>, Seq<char>) {
        (self.timestamp@, self.text@)
    }
}

pub open spec fn blocks_view(v: Seq<SubtitleBlock>) -> Seq<(Seq<char>, Seq<char>)> {
    v.map_values(|b: SubtitleBlock| b@)
}

pub open spec fn subtitles_view(v: Seq<Subtitle>) -> Seq<(Seq<char>, Seq<char>)> {
    v.map_values(|s: Subtitle| s@)
}

pub open spec fn is_terminator(c: char) -> bool {
    c == '.' || c == '?' || c == '!'
}

pub fn is_terminator_char(c: char) -> (r: bool)
    ensures
        r == is_terminator(c),
{
    c == '.' || c == '?' || c == '!'
}

/// A block closes the open span when its trimmed text ends in a terminator.
pub open spec fn ends_sentence(text: Seq<char>) -> bool {
    trim(text).len() > 0 && is_terminator(trim(text).last())
}

/// The texts of `parts` joined with one space between neighbours.
pub open spec fn joined(parts: Seq<(Seq<char>, Seq<char>)>) -> Seq<char>
    decreases parts.len(),
{
    if parts.len() == 0 {
        seq![]
    } else if parts.len() == 1 {
        parts[0].1
    } else {
        joined(parts.drop_last()) + seq![' '] + parts.last().1
    }
}

/// Offset in `joined(parts)` at which the text of part `i` begins.
pub open spec fn part_start(parts: Seq<(Seq<char>, Seq<char>)>, i: int) -> int
    decreases i,
{
    if i <= 0 {
        0
    } else {
        part_start(parts, i - 1) + parts[i - 1].1.len() + 1
    }
}

pub open spec fn part_contains(parts: Seq<(Seq<char>, Seq<char>)>, i: int, off: int) -> bool {
    part_start(parts, i) <= off < part_start(parts, i) + parts[i].1.len()
}

/// The first part at or after `i` whose text range contains `off`, or part 0
/// when none does.
pub open spec fn attributed_from(parts: Seq<(Seq<char>, Seq<char>)>, off: int, i: int) -> int
    decreases parts.len() - i,
{
    if i >= parts.len() {
        0
    } else if part_contains(parts, i, off) {
        i
    } else {
        attributed_from(parts, off, i + 1)
    }
}

/// The part a sentence starting at offset `off` of the joined text is stamped from.
pub open spec fn attributed(parts: Seq<(Seq<char>, Seq<char>)>, off: int) -> int {
    attributed_from(parts, off, 0)
}

/// Length of the first piece of `s`: up to and including its first
/// terminator, or all of `s` when it has none.
pub open spec fn first_piece_len(s: Seq<char>) -> int
    decreases s.len(),
{
    if s.len() == 0 {
        0
    } else if is_terminator(s[0]) {
        1
    } else {
        1 + first_piece_len(s.drop_first())
    }
}

/// `s` cut after every terminator, each terminator kept at the end of its
/// piece; no piece is empty.
pub open spec fn pieces(s: Seq<char>) -> Seq<Seq<char>>
    decreases s.len(),
{
    if s.len() == 0 {
        seq![]
    } else {
        let n = first_piece_len(s);
        if 0 < n <= s.len() {
            seq![s.take(n)] + pieces(s.skip(n))
        } else {
            seq![]
        }
    }
}

/// The sentences of `ps`, pieces of the joined text of `parts`, the first of
/// which begins at offset `off`: each piece trimmed, blank ones left out.
pub open spec fn sentences_of(
    parts: Seq<(Seq<char>, Seq<char>)>,
    ps: Seq<Seq<char>>,
    off: int,
) -> Seq<(Seq<char>, Seq<char>)>
    decreases ps.len(),
{
    if ps.len() == 0 {
        seq![]
    } else {
        let t = trim(ps[0]);
        let rest = sentences_of(parts, ps.drop_first(), off + ps[0].len());
        if t.len() > 0 {
            seq![(parts[attributed(parts, off)].0, t)] + rest
        } else {
            rest
        }
    }
}

/// The sentences of a span.
pub open spec fn split_span_spec(parts: Seq<(Seq<char>, Seq<char>)>) -> Seq<(Seq<char>, Seq<char>)> {
    sentences_of(parts, pieces(joined(parts)), 0)
}

/// The sentences of `blocks[i..]` when `blocks[s..i]` is the open span.
pub open spec fn segment_from(blocks: Seq<(Seq<char>, Seq<char>)>, s: int, i: int) -> Seq<
    (Seq<char>, Seq<char>),
>
    decreases blocks.len() - i,
{
    if i < 0 || s < 0 || s > i {
        seq![]
    } else if i >= blocks.len() {
        if s < blocks.len() {
            split_span_spec(blocks.subrange(s, blocks.len() as int))
        } else {
            seq![]
        }
    } else if ends_sentence(blocks[i].1) {
        split_span_spec(blocks.subrange(s, i + 1)) + segment_from(blocks, i + 1, i + 1)
    } else {
        segment_from(blocks, s, i + 1)
    }
}

/// The sentences of a whole block sequence.
pub open spec fn segment(blocks: Seq<(Seq<char>, Seq<char>)>) -> Seq<(Seq<char>, Seq<char>)> {
    segment_from(blocks, 0, 0)
}

pub proof fn lemma_first_piece_len(s: Seq<char>, k: int)
    requires
        0 <= k < s.len(),
        forall|m: int| 0 <= m < k ==> !is_terminator(#[trigger] s[m]),
        is_terminator(s[k]) || k == s.len() - 1,
    ensures
        first_piece_len(s) == k + 1,
    decreases k,
{
    if k > 0 {
        assert(!is_terminator(s[0]));
        assert forall|m: int| 0 <= m < k - 1 implies !is_terminator(#[trigger] s.drop_first()[m]) by {
            assert(s.drop_first()[m] == s[m + 1]);
        }
        lemma_first_piece_len(s.drop_first(), k - 1);
    } else if !is_terminator(s[0]) {
        assert(s.drop_first().len() == 0);
        assert(first_piece_len(s.drop_first()) == 0);
    }
}

proof fn lemma_joined_step(parts: Seq<(Seq<char>, Seq<char>)>, m: int)
    requires
        0 <= m < parts.len(),
    ensures
        joined(parts.take(m + 1)) == if m == 0 {
            parts[0].1
        } else {
            joined(parts.take(m)) + seq![' '] + parts[m].1
        },
{
    assert(parts.take(m + 1).drop_last() =~= parts.take(m));
}

pub proof fn lemma_first_piece_bounds(s: Seq<char>)
    requires
        s.len() > 0,
    ensures
        0 < first_piece_len(s) <= s.len(),
    decreases s.len(),
{
    if !is_terminator(s[0]) && s.len() > 1 {
        lemma_first_piece_bounds(s.drop_first());
    } else if !is_terminator(s[0]) {
        assert(first_piece_len(s.drop_first()) == 0);
    }
}

pub proof fn lemma_part_start_ge(parts: Seq<(Seq<char>, Seq<char>)>, i: int)
    requires
        0 <= i,
    ensures
        part_start(parts, i) >= i,
    decreases i,
{
    if i > 0 {
        lemma_part_start_ge(parts, i - 1);
    }
}

/// Index of the part that a sentence starting at `off` is stamped from.
fn find_part(
    st: &Vec<usize>,
    en: &Vec<usize>,
    off: usize,
    Ghost(parts): Ghost<Seq<(Seq<char>, Seq<char>)>>,
) -> (r: usize)
    requires
        st.len() == parts.len(),
        en.len() == parts.len(),
        forall|m: int|
            0 <= m < parts.len() ==> #[trigger] st@[m] == part_start(parts, m) && en@[m] == st@[m]
                + parts[m].1.len(),
    ensures
        r == attributed(parts, off as int),
        parts.len() > 0 ==> r < parts.len(),
{
    let mut m: usize = 0;
    while m < st.len()
        invariant
            m <= st.len() == en.len() == parts.len(),
            forall|q: int|
                0 <= q < parts.len() ==> #[trigger] st@[q] == part_start(parts, q) && en@[q]
                    == st@[q] + parts[q].1.len(),
            attributed(parts, off as int) == attributed_from(parts, off as int, m as int),
        decreases st.len() - m,
    {
        if st[m] <= off && off < en[m] {
            return m;
        }
        m = m + 1;
    }
    0
}

/// The sentences of the span `blocks[lo..hi]`, appended to `out`.
fn emit_span(blocks: &Vec<SubtitleBlock>, lo: usize, hi: usize, out: &mut Vec<Subtitle>)
    requires
        lo < hi <= blocks.len(),
    ensures
        subtitles_view(final(out)@) == subtitles_view(old(out)@) + split_span_spec(
            blocks_view(blocks@).subrange(lo as int, hi as int),
        ),
{
    let ghost parts = blocks_view(blocks@).subrange(lo as int, hi as int);
    let mut j: Vec<char> = Vec::new();
    let mut st: Vec<usize> = Vec::new();
    let mut en: Vec<usize> = Vec::new();
    let mut k = lo;
    while k < hi
        invariant
            lo <= k <= hi <= blocks.len(),
            parts == blocks_view(blocks@).subrange(lo as int, hi as int),
            j@ == joined(parts.take(k - lo)),
            k > lo ==> j@.len() + 1 == part_start(parts, k - lo),
            st.len() == k - lo,
            en.len() == k - lo,
            forall|m: int|
                0 <= m < k - lo ==> #[trigger] st@[m] == part_start(parts, m) && en@[m] == st@[m]
                    + parts[m].1.len(),
        decreases hi - k,
    {
        let ghost m = k - lo;
        proof {
            lemma_joined_step(parts, m);
        }
        if k > lo {
            j.push(' ');
        }
        st.push(j.len());
        let cs = chars_of(blocks[k].text.as_str());
        let ghost base = j@;
        let mut c: usize = 0;
        while c < cs.len()
            invariant
                c <= cs.len(),
                j@ == base + cs@.take(c as int),
            decreases cs.len() - c,
        {
            j.push(cs[c]);
            assert(cs@.take(c + 1) =~= cs@.take(c as int).push(cs@[c as int]));
            c = c + 1;
        }
        assert(cs@.take(c as int) =~= cs@);
        assert(parts[m].1 == cs@);
        en.push(j.len());
        assert(part_start(parts, m + 1) == part_start(parts, m) + parts[m].1.len() + 1);
        assert(part_start(parts, 0) == 0);
        k = k + 1;
    }
    assert(parts.take(k - lo) =~= parts);
    let n = j.len();
    let ghost full = split_span_spec(parts);
    let ghost before = subtitles_view(out@);
    let mut ps: usize = 0;
    let mut i: usize = 0;
    assert(j@.skip(0) =~= j@);
    while i < n
        invariant
            ps <= i <= n == j.len(),
            i == n ==> ps == n,
            lo < hi <= blocks.len(),
            parts == blocks_view(blocks@).subrange(lo as int, hi as int),
            j@ == joined(parts),
            full == split_span_spec(parts),
            st.len() == parts.len(),
            en.len() == parts.len(),
            forall|m: int|
                0 <= m < parts.len() ==> #[trigger] st@[m] == part_start(parts, m) && en@[m] == st@[m]
                    + parts[m].1.len(),
            forall|m: int| ps <= m < i ==> !is_terminator(#[trigger] j@[m]),
            before + full == subtitles_view(out@) + sentences_of(parts, pieces(j@.skip(ps as int)), ps as int),
        decreases n - i,
    {
        if is_terminator_char(j[i]) || i + 1 == n {
            let ghost s = j@.skip(ps as int);
            proof {
                lemma_first_piece_len(s, i - ps);
                assert(s.take(i + 1 - ps) =~= j@.subrange(ps as int, i + 1));
                assert(s.skip(i + 1 - ps) =~= j@.skip(i + 1));
            }
            let ghost nn = (i + 1 - ps) as int;
            let ghost piece = j@.subrange(ps as int, i + 1);
            let ghost rest = sentences_of(parts, pieces(j@.skip(i + 1)), i + 1);
            proof {
                assert(pieces(s) == seq![piece] + pieces(j@.skip(i + 1)));
                assert((seq![piece] + pieces(j@.skip(i + 1))).drop_first() =~= pieces(
                    j@.skip(i + 1),
                ));
                assert(sentences_of(parts, pieces(s), ps as int) == if trim(piece).len() > 0 {
                    seq![(parts[attributed(parts, ps as int)].0, trim(piece))] + rest
                } else {
                    rest
                });
            }
            let ghost old_out = subtitles_view(out@);
            let (a, b) = trim_bounds(&j, ps, i + 1);
            if a < b {
                let p = find_part(&st, &en, ps, Ghost(parts));
                let t = string_of_range(&j, a, b);
                let sub = Subtitle { timestamp: blocks[lo + p].start_time.clone(), text: t };
                out.push(sub);
                proof {
                    assert(blocks_view(blocks@)[lo + p] == blocks@[lo + p]@);
                    assert(parts[p as int] == blocks_view(blocks@)[lo + p]);
                    assert(subtitles_view(out@) =~= old_out + seq![
                        (parts[attributed(parts, ps as int)].0, trim(piece)),
                    ]);
                }
            }
            ps = i + 1;
        }
        i = i + 1;
    }
    assert(j@.skip(n as int) =~= Seq::<char>::empty());
}

/// Whether a block's text closes the open span.
pub fn block_ends_sentence(text: &str) -> (r: bool)
    ensures
        r == ends_sentence(text@),
{
    let cs = chars_of(text);
    let (a, b) = trim_bounds(&cs, 0, cs.len());
    assert(cs@.subrange(0, cs@.len() as int) =~= cs@);
    if a < b {
        assert(trim(text@).last() == cs@[b - 1]);
        is_terminator_char(cs[b - 1])
    } else {
        false
    }
}

/// Splits one span, given as its blocks in order, into sentences.
pub fn split_span(parts: &Vec<SubtitleBlock>) -> (r: Vec<Subtitle>)
    ensures
        subtitles_view(r@) == split_span_spec(blocks_view(parts@)),
{
    let mut out: Vec<Subtitle> = Vec::new();
    if parts.len() > 0 {
        emit_span(parts, 0, parts.len(), &mut out);
        assert(blocks_view(parts@).subrange(0, parts@.len() as int) =~= blocks_view(parts@));
        assert(subtitles_view(Seq::<Subtitle>::empty()) =~= seq![]);
    } else {
        assert(pieces(joined(blocks_view(parts@))) =~= seq![]);
        assert(subtitles_view(out@) =~= seq![]);
    }
    out
}

/// Folds time-coded blocks into spans and splits each span into sentences.
/// A span closes at the first block whose trimmed text ends in a terminator;
/// a span still open at the end is split as well.
pub fn segment_blocks(blocks: &Vec<SubtitleBlock>) -> (r: Vec<Subtitle>)
    ensures
        subtitles_view(r@) == segment(blocks_view(blocks@)),
{
    let ghost bv = blocks_view(blocks@);
    let mut out: Vec<Subtitle> = Vec::new();
    let mut s: usize = 0;
    let mut i: usize = 0;
    assert(subtitles_view(out@) =~= seq![]);
    while i < blocks.len()
        invariant
            s <= i <= blocks.len(),
            bv == blocks_view(blocks@),
            subtitles_view(out@) + segment_from(bv, s as int, i as int) == segment(bv),
        decreases blocks.len() - i,
    {
        let ghost before = subtitles_view(out@);
        assert(bv[i as int] == blocks@[i as int]@);
        if block_ends_sentence(blocks[i].text.as_str()) {
            emit_span(blocks, s, i + 1, &mut out);
            assert(before + segment_from(bv, s as int, i as int) =~= subtitles_view(out@)
                + segment_from(bv, i + 1, i + 1));
            s = i + 1;
        }
        i = i + 1;
    }
    if s < blocks.len() {
        emit_span(blocks, s, blocks.len(), &mut out);
    }
    out
}

} // verus!
