//! Properties of sentence segmentation, proved over the model in `segment`.
use vstd::prelude::*;
use crate::text::{is_ws, trim, trim_start, trim_end};
use crate::segment::{
    is_terminator, ends_sentence, joined, part_start, part_contains, attributed_from, attributed,
    first_piece_len, pieces, sentences_of, split_span_spec, segment_from, segment,
    lemma_first_piece_len, lemma_first_piece_bounds, lemma_part_start_ge,
};

verus! {

/// The characters of `s` that are not whitespace, in order.
pub open spec fn non_ws(s: Seq<char>) -> Seq<char>
    decreases s.len(),
{
    if s.len() == 0 {
        seq![]
    } else if is_ws(s.last()) {
        non_ws(s.drop_last())
    } else {
        non_ws(s.drop_last()).push(s.last())
    }
}

/// The texts of timed entries, concatenated.
pub open spec fn all_text(v: Seq<(Seq<char>, Seq<char>)>) -> Seq<char>
    decreases v.len(),
{
    if v.len() == 0 {
        seq![]
    } else {
        all_text(v.drop_last()) + v.last().1
    }
}

pub open spec fn has_terminator(s: Seq<char>) -> bool {
    exists|k: int| 0 <= k < s.len() && is_terminator(#[trigger] s[k])
}

proof fn lemma_non_ws_add(a: Seq<char>, b: Seq<char>)
    ensures
        non_ws(a + b) == non_ws(a) + non_ws(b),
    decreases b.len(),
{
    if b.len() == 0 {
        assert(a + b =~= a);
        assert(non_ws(a) + non_ws(b) =~= non_ws(a));
    } else {
        assert((a + b).drop_last() =~= a + b.drop_last());
        lemma_non_ws_add(a, b.drop_last());
        if !is_ws(b.last()) {
            assert(non_ws(a) + non_ws(b.drop_last()).push(b.last()) =~= (non_ws(a) + non_ws(
                b.drop_last(),
            )).push(b.last()));
        }
    }
}

proof fn lemma_non_ws_blank(c: char)
    requires
        is_ws(c),
    ensures
        non_ws(seq![c]) == Seq::<char>::empty(),
{
    let one = seq![c];
    assert(one.last() == c);
    assert(one.drop_last() =~= Seq::<char>::empty());
    assert(non_ws(one.drop_last()) == Seq::<char>::empty());
}

proof fn lemma_non_ws_trim(s: Seq<char>)
    ensures
        non_ws(trim(s)) == non_ws(s),
{
    lemma_non_ws_trim_start(s);
    lemma_non_ws_trim_end(trim_start(s));
}

proof fn lemma_non_ws_trim_start(s: Seq<char>)
    ensures
        non_ws(trim_start(s)) == non_ws(s),
    decreases s.len(),
{
    if s.len() > 0 && is_ws(s[0]) {
        lemma_non_ws_trim_start(s.drop_first());
        assert(s =~= seq![s[0]] + s.drop_first());
        lemma_non_ws_add(seq![s[0]], s.drop_first());
        lemma_non_ws_blank(s[0]);
        assert(Seq::<char>::empty() + non_ws(s.drop_first()) =~= non_ws(s.drop_first()));
    }
}

proof fn lemma_non_ws_trim_end(s: Seq<char>)
    ensures
        non_ws(trim_end(s)) == non_ws(s),
    decreases s.len(),
{
    if s.len() > 0 && is_ws(s.last()) {
        lemma_non_ws_trim_end(s.drop_last());
    }
}

/// Concatenation of a sequence of character sequences.
pub open spec fn concat(ps: Seq<Seq<char>>) -> Seq<char>
    decreases ps.len(),
{
    if ps.len() == 0 {
        seq![]
    } else {
        ps[0] + concat(ps.drop_first())
    }
}

proof fn lemma_concat_pieces(s: Seq<char>)
    ensures
        concat(pieces(s)) == s,
    decreases s.len(),
{
    if s.len() > 0 {
        lemma_first_piece_bounds(s);
        let n = first_piece_len(s);
        lemma_concat_pieces(s.skip(n));
        let ps = pieces(s);
        assert(ps.drop_first() =~= pieces(s.skip(n)));
        assert(s.take(n) + s.skip(n) =~= s);
    } else {
        assert(pieces(s) =~= Seq::<Seq<char>>::empty());
    }
}

proof fn lemma_all_text_add(a: Seq<(Seq<char>, Seq<char>)>, b: Seq<(Seq<char>, Seq<char>)>)
    ensures
        all_text(a + b) == all_text(a) + all_text(b),
    decreases b.len(),
{
    if b.len() == 0 {
        assert(a + b =~= a);
        assert(all_text(a) + all_text(b) =~= all_text(a));
    } else {
        assert((a + b).drop_last() =~= a + b.drop_last());
        lemma_all_text_add(a, b.drop_last());
        assert(all_text(a) + all_text(b.drop_last()) + b.last().1 =~= all_text(a) + (all_text(
            b.drop_last(),
        ) + b.last().1));
    }
}

proof fn lemma_sentences_non_ws(
    parts: Seq<(Seq<char>, Seq<char>)>,
    ps: Seq<Seq<char>>,
    off: int,
)
    ensures
        non_ws(all_text(sentences_of(parts, ps, off))) == non_ws(concat(ps)),
    decreases ps.len(),
{
    if ps.len() > 0 {
        let t = trim(ps[0]);
        let rest = sentences_of(parts, ps.drop_first(), off + ps[0].len());
        lemma_sentences_non_ws(parts, ps.drop_first(), off + ps[0].len());
        lemma_non_ws_add(ps[0], concat(ps.drop_first()));
        lemma_non_ws_trim(ps[0]);
        if t.len() > 0 {
            let head = seq![(parts[attributed(parts, off)].0, t)];
            lemma_all_text_add(head, rest);
            assert(head.drop_last() =~= Seq::<(Seq<char>, Seq<char>)>::empty());
            assert(all_text(head.drop_last()) =~= Seq::<char>::empty());
            assert(head.last().1 == t);
            assert(all_text(head) =~= t);
            lemma_non_ws_add(t, all_text(rest));
        } else {
            assert(non_ws(t) =~= Seq::<char>::empty());
            assert(non_ws(ps[0]) + non_ws(concat(ps.drop_first())) =~= non_ws(concat(ps.drop_first())));
        }
    } else {
        assert(all_text(Seq::<(Seq<char>, Seq<char>)>::empty()) =~= Seq::<char>::empty());
    }
}

proof fn lemma_joined_non_ws(parts: Seq<(Seq<char>, Seq<char>)>)
    ensures
        non_ws(joined(parts)) == non_ws(all_text(parts)),
    decreases parts.len(),
{
    if parts.len() == 1 {
        assert(parts.drop_last() =~= Seq::<(Seq<char>, Seq<char>)>::empty());
        assert(all_text(parts.drop_last()) =~= Seq::<char>::empty());
        assert(all_text(parts) =~= parts[0].1);
    } else if parts.len() > 1 {
        let p = parts.drop_last();
        lemma_joined_non_ws(p);
        lemma_non_ws_add(joined(p) + seq![' '], parts.last().1);
        lemma_non_ws_add(joined(p), seq![' ']);
        lemma_non_ws_blank(' ');
        assert(non_ws(joined(p)) + non_ws(seq![' ']) =~= non_ws(joined(p)));
        lemma_non_ws_add(all_text(p), parts.last().1);
    }
}

proof fn lemma_split_span_non_ws(parts: Seq<(Seq<char>, Seq<char>)>)
    ensures
        non_ws(all_text(split_span_spec(parts))) == non_ws(all_text(parts)),
{
    lemma_sentences_non_ws(parts, pieces(joined(parts)), 0);
    lemma_concat_pieces(joined(parts));
    lemma_joined_non_ws(parts);
}

proof fn lemma_segment_from_non_ws(blocks: Seq<(Seq<char>, Seq<char>)>, s: int, i: int)
    requires
        0 <= s <= i <= blocks.len(),
    ensures
        non_ws(all_text(segment_from(blocks, s, i))) == non_ws(
            all_text(blocks.subrange(s, blocks.len() as int)),
        ),
    decreases blocks.len() - i,
{
    let n = blocks.len() as int;
    if i >= n {
        if s < n {
            lemma_split_span_non_ws(blocks.subrange(s, n));
        } else {
            assert(blocks.subrange(s, n) =~= Seq::<(Seq<char>, Seq<char>)>::empty());
            assert(all_text(Seq::<(Seq<char>, Seq<char>)>::empty()) =~= Seq::<char>::empty());
        }
    } else if ends_sentence(blocks[i].1) {
        let a = split_span_spec(blocks.subrange(s, i + 1));
        let b = segment_from(blocks, i + 1, i + 1);
        lemma_segment_from_non_ws(blocks, i + 1, i + 1);
        lemma_split_span_non_ws(blocks.subrange(s, i + 1));
        lemma_all_text_add(a, b);
        lemma_non_ws_add(all_text(a), all_text(b));
        assert(blocks.subrange(s, n) =~= blocks.subrange(s, i + 1) + blocks.subrange(i + 1, n));
        lemma_all_text_add(blocks.subrange(s, i + 1), blocks.subrange(i + 1, n));
        lemma_non_ws_add(all_text(blocks.subrange(s, i + 1)), all_text(blocks.subrange(i + 1, n)));
    } else {
        lemma_segment_from_non_ws(blocks, s, i + 1);
    }
}

/// Nothing is lost: the sentences, put together, hold every non-whitespace
/// character of the blocks' texts, in the same order.
pub proof fn lemma_segment_covers_text(blocks: Seq<(Seq<char>, Seq<char>)>)
    ensures
        non_ws(all_text(segment(blocks))) == non_ws(all_text(blocks)),
{
    lemma_segment_from_non_ws(blocks, 0, 0);
    assert(blocks.subrange(0, blocks.len() as int) =~= blocks);
}

proof fn lemma_pieces_whole(s: Seq<char>)
    requires
        s.len() > 0,
        forall|k: int| 0 <= k < s.len() - 1 ==> !is_terminator(#[trigger] s[k]),
    ensures
        pieces(s) == seq![s],
{
    lemma_first_piece_len(s, s.len() - 1);
    assert(s.take(s.len() as int) =~= s);
    assert(s.skip(s.len() as int) =~= Seq::<char>::empty());
    assert(pieces(s.skip(s.len() as int)) =~= Seq::<Seq<char>>::empty());
    assert(seq![s] + Seq::<Seq<char>>::empty() =~= seq![s]);
}

proof fn lemma_single_piece(parts: Seq<(Seq<char>, Seq<char>)>, s: Seq<char>)
    requires
        trim(s).len() > 0,
    ensures
        sentences_of(parts, seq![s], 0) == seq![(parts[attributed(parts, 0)].0, trim(s))],
{
    let ps = seq![s];
    assert(ps.drop_first() =~= Seq::<Seq<char>>::empty());
    assert(sentences_of(parts, ps.drop_first(), s.len() as int) =~= Seq::<(Seq<char>, Seq<char>)>::empty());
    assert(seq![(parts[attributed(parts, 0)].0, trim(s))] + Seq::<(Seq<char>, Seq<char>)>::empty()
        =~= seq![(parts[attributed(parts, 0)].0, trim(s))]);
}

proof fn lemma_attributed_from_none(parts: Seq<(Seq<char>, Seq<char>)>, off: int, i: int)
    requires
        0 <= off < i,
    ensures
        attributed_from(parts, off, i) == 0,
    decreases parts.len() - i,
{
    if i < parts.len() {
        lemma_part_start_ge(parts, i);
        lemma_attributed_from_none(parts, off, i + 1);
    }
}

/// A sentence that starts the joined text is stamped from the first part.
pub(crate) proof fn lemma_attributed_start(parts: Seq<(Seq<char>, Seq<char>)>)
    requires
        parts.len() > 0,
    ensures
        attributed(parts, 0) == 0,
{
    if !part_contains(parts, 0, 0) {
        lemma_attributed_from_none(parts, 0, 1);
    }
}

/// Splitting a span that is already one complete sentence (trimmed,
/// non-empty, with a terminator at most as its last character) gives back
/// exactly that sentence with the span's time.
pub proof fn lemma_resplit_single_sentence(time: Seq<char>, s: Seq<char>)
    requires
        trim(s) == s,
        s.len() > 0,
        forall|k: int| 0 <= k < s.len() - 1 ==> !is_terminator(#[trigger] s[k]),
    ensures
        split_span_spec(seq![(time, s)]) == seq![(time, s)],
{
    let parts = seq![(time, s)];
    assert(joined(parts) == s);
    lemma_pieces_whole(s);
    lemma_single_piece(parts, s);
    lemma_attributed_start(parts);
}

proof fn lemma_no_terminator_add(a: Seq<char>, b: Seq<char>)
    requires
        !has_terminator(a),
        !has_terminator(b),
    ensures
        !has_terminator(a + b),
{
    assert forall|k: int| 0 <= k < (a + b).len() implies !is_terminator(#[trigger] (a + b)[k]) by {
        if k < a.len() {
            assert((a + b)[k] == a[k]);
        } else {
            assert((a + b)[k] == b[k - a.len()]);
        }
    }
}

proof fn lemma_no_terminator_trim(s: Seq<char>)
    requires
        !has_terminator(s),
    ensures
        !has_terminator(trim_start(s)),
        !has_terminator(trim(s)),
    decreases s.len(),
{
    if s.len() > 0 && is_ws(s[0]) {
        assert forall|k: int| 0 <= k < s.drop_first().len() implies !is_terminator(
            #[trigger] s.drop_first()[k],
        ) by {
            assert(s.drop_first()[k] == s[k + 1]);
        }
        lemma_no_terminator_trim(s.drop_first());
    }
    lemma_no_terminator_trim_end(trim_start(s));
}

proof fn lemma_no_terminator_trim_end(s: Seq<char>)
    requires
        !has_terminator(s),
    ensures
        !has_terminator(trim_end(s)),
    decreases s.len(),
{
    if s.len() > 0 && is_ws(s.last()) {
        assert forall|k: int| 0 <= k < s.drop_last().len() implies !is_terminator(
            #[trigger] s.drop_last()[k],
        ) by {
            assert(s.drop_last()[k] == s[k]);
        }
        lemma_no_terminator_trim_end(s.drop_last());
    }
}

proof fn lemma_no_terminator_joined(parts: Seq<(Seq<char>, Seq<char>)>)
    requires
        forall|i: int| 0 <= i < parts.len() ==> !has_terminator(#[trigger] parts[i].1),
    ensures
        !has_terminator(joined(parts)),
    decreases parts.len(),
{
    if parts.len() == 0 {
        assert(joined(parts).len() == 0);
    } else if parts.len() == 1 {
        assert(!has_terminator(parts[0].1));
    } else {
        let p = parts.drop_last();
        assert forall|i: int| 0 <= i < p.len() implies !has_terminator(#[trigger] p[i].1) by {
            assert(p[i] == parts[i]);
        }
        lemma_no_terminator_joined(p);
        assert(!has_terminator(parts[parts.len() - 1].1));
        assert(!has_terminator(seq![' '])) by {
            assert forall|k: int| 0 <= k < 1 implies !is_terminator(#[trigger] seq![' '][k]) by {}
        }
        lemma_no_terminator_add(joined(p), seq![' ']);
        lemma_no_terminator_add(joined(p) + seq![' '], parts.last().1);
    }
}

proof fn lemma_open_until_end(blocks: Seq<(Seq<char>, Seq<char>)>, i: int)
    requires
        0 <= i <= blocks.len(),
        blocks.len() > 0,
        forall|j: int| 0 <= j < blocks.len() ==> !ends_sentence(#[trigger] blocks[j].1),
    ensures
        segment_from(blocks, 0, i) == split_span_spec(blocks),
    decreases blocks.len() - i,
{
    if i < blocks.len() {
        lemma_open_until_end(blocks, i + 1);
    } else {
        assert(blocks.subrange(0, blocks.len() as int) =~= blocks);
    }
}

/// Input without any terminator gives exactly one sentence: all of the
/// blocks' text, joined and trimmed, with the first block's time.
pub proof fn lemma_no_terminator_one_sentence(blocks: Seq<(Seq<char>, Seq<char>)>)
    requires
        blocks.len() > 0,
        forall|i: int| 0 <= i < blocks.len() ==> !has_terminator(#[trigger] blocks[i].1),
        trim(joined(blocks)).len() > 0,
    ensures
        segment(blocks) == seq![(blocks[0].0, trim(joined(blocks)))],
{
    assert forall|j: int| 0 <= j < blocks.len() implies !ends_sentence(#[trigger] blocks[j].1) by {
        lemma_no_terminator_trim(blocks[j].1);
        let t = trim(blocks[j].1);
        if t.len() > 0 {
            assert(t.last() == t[t.len() - 1]);
        }
    }
    lemma_open_until_end(blocks, 0);
    let s = joined(blocks);
    lemma_no_terminator_joined(blocks);
    assert(s.len() > 0) by {
        if s.len() == 0 {
            assert(trim_start(s) == s);
            assert(trim_end(s) == s);
        }
    }
    lemma_pieces_whole(s);
    lemma_single_piece(blocks, s);
    lemma_attributed_start(blocks);
}

/// A trimmed, non-empty text with a terminator at most as its last character.
pub open spec fn single_sentence(t: Seq<char>) -> bool {
    &&& trim(t) == t
    &&& t.len() > 0
    &&& forall|k: int| 0 <= k < t.len() - 1 ==> !is_terminator(#[trigger] t[k])
}

proof fn lemma_trim_start_offset(s: Seq<char>) -> (a: int)
    ensures
        0 <= a <= s.len(),
        trim_start(s) == s.subrange(a, s.len() as int),
        a < s.len() ==> !is_ws(s[a]),
    decreases s.len(),
{
    if s.len() > 0 && is_ws(s[0]) {
        let a = lemma_trim_start_offset(s.drop_first());
        assert(s.drop_first().subrange(a, s.drop_first().len() as int) =~= s.subrange(
            a + 1,
            s.len() as int,
        ));
        a + 1
    } else {
        assert(s.subrange(0, s.len() as int) =~= s);
        0
    }
}

proof fn lemma_trim_end_offset(s: Seq<char>) -> (b: int)
    ensures
        0 <= b <= s.len(),
        trim_end(s) == s.subrange(0, b),
        b > 0 ==> !is_ws(s[b - 1]),
    decreases s.len(),
{
    if s.len() > 0 && is_ws(s.last()) {
        let b = lemma_trim_end_offset(s.drop_last());
        assert(s.drop_last().subrange(0, b) =~= s.subrange(0, b));
        b
    } else {
        assert(s.subrange(0, s.len() as int) =~= s);
        if s.len() > 0 {
            assert(s.last() == s[s.len() - 1]);
        }
        s.len() as int
    }
}

/// `trim(s)` is `s[a..b]`, with no whitespace at either end.
proof fn lemma_trim_bounds(s: Seq<char>) -> (r: (int, int))
    ensures
        0 <= r.0 <= r.1 <= s.len(),
        trim(s) == s.subrange(r.0, r.1),
        r.0 < r.1 ==> !is_ws(s[r.0]) && !is_ws(s[r.1 - 1]),
{
    let a = lemma_trim_start_offset(s);
    let x = s.subrange(a, s.len() as int);
    let b = lemma_trim_end_offset(x);
    assert(x.subrange(0, b) =~= s.subrange(a, a + b));
    if b > 0 {
        assert(x[0] == s[a]);
        assert(x[b - 1] == s[a + b - 1]);
    }
    (a, a + b)
}

proof fn lemma_trim_idempotent(s: Seq<char>)
    ensures
        trim(trim(s)) == trim(s),
{
    let (a, b) = lemma_trim_bounds(s);
    let t = trim(s);
    if t.len() > 0 {
        assert(t[0] == s[a]);
        assert(t.last() == s[b - 1]);
        assert(trim_start(t) == t);
        assert(trim_end(t) == t);
    } else {
        assert(trim_start(t) == t);
        assert(trim_end(t) == t);
    }
}

proof fn lemma_first_piece_inner(s: Seq<char>, k: int)
    requires
        0 <= k < first_piece_len(s) - 1,
    ensures
        !is_terminator(s[k]),
    decreases s.len(),
{
    lemma_first_piece_bounds(s);
    if k > 0 {
        lemma_first_piece_inner(s.drop_first(), k - 1);
    }
}

/// Every piece has a terminator at most as its last character.
proof fn lemma_pieces_shape(s: Seq<char>)
    ensures
        forall|i: int, k: int|
            0 <= i < pieces(s).len() && 0 <= k < pieces(s)[i].len() - 1 ==> !is_terminator(
                #[trigger] pieces(s)[i][k],
            ),
    decreases s.len(),
{
    if s.len() > 0 {
        lemma_first_piece_bounds(s);
        let n = first_piece_len(s);
        lemma_pieces_shape(s.skip(n));
        let ps = pieces(s);
        assert forall|i: int, k: int|
            0 <= i < ps.len() && 0 <= k < ps[i].len() - 1 implies !is_terminator(
                #[trigger] ps[i][k],
            ) by {
            if i == 0 {
                lemma_first_piece_inner(s, k);
                assert(ps[0][k] == s[k]);
            } else {
                assert(ps[i] == pieces(s.skip(n))[i - 1]);
            }
        }
    }
}

proof fn lemma_trimmed_piece(p: Seq<char>)
    requires
        trim(p).len() > 0,
        forall|k: int| 0 <= k < p.len() - 1 ==> !is_terminator(#[trigger] p[k]),
    ensures
        single_sentence(trim(p)),
{
    let (a, b) = lemma_trim_bounds(p);
    lemma_trim_idempotent(p);
    let t = trim(p);
    assert forall|k: int| 0 <= k < t.len() - 1 implies !is_terminator(#[trigger] t[k]) by {
        assert(t[k] == p[a + k]);
    }
}

proof fn lemma_sentences_single(
    parts: Seq<(Seq<char>, Seq<char>)>,
    ps: Seq<Seq<char>>,
    off: int,
)
    requires
        forall|i: int, k: int|
            0 <= i < ps.len() && 0 <= k < ps[i].len() - 1 ==> !is_terminator(#[trigger] ps[i][k]),
    ensures
        forall|k: int|
            0 <= k < sentences_of(parts, ps, off).len() ==> single_sentence(
                #[trigger] sentences_of(parts, ps, off)[k].1,
            ),
    decreases ps.len(),
{
    if ps.len() > 0 {
        let rest = sentences_of(parts, ps.drop_first(), off + ps[0].len());
        assert forall|i: int, k: int|
            0 <= i < ps.drop_first().len() && 0 <= k < ps.drop_first()[i].len() - 1 implies !is_terminator(
                #[trigger] ps.drop_first()[i][k],
            ) by {
            assert(ps.drop_first()[i] == ps[i + 1]);
        }
        lemma_sentences_single(parts, ps.drop_first(), off + ps[0].len());
        let out = sentences_of(parts, ps, off);
        if trim(ps[0]).len() > 0 {
            assert forall|k: int| 0 <= k < ps[0].len() - 1 implies !is_terminator(
                #[trigger] ps[0][k],
            ) by {}
            lemma_trimmed_piece(ps[0]);
            assert forall|k: int| 0 <= k < out.len() implies single_sentence(#[trigger] out[k].1) by {
                if k > 0 {
                    assert(out[k] == rest[k - 1]);
                }
            }
        }
    }
}

proof fn lemma_segment_from_single(blocks: Seq<(Seq<char>, Seq<char>)>, s: int, i: int)
    ensures
        forall|k: int|
            0 <= k < segment_from(blocks, s, i).len() ==> single_sentence(
                #[trigger] segment_from(blocks, s, i)[k].1,
            ),
    decreases blocks.len() - i,
{
    if i < 0 || s < 0 || s > i {
        assert(segment_from(blocks, s, i).len() == 0);
    } else if i >= blocks.len() {
        if s < blocks.len() {
            let span = blocks.subrange(s, blocks.len() as int);
            lemma_pieces_shape(joined(span));
            lemma_sentences_single(span, pieces(joined(span)), 0);
            let out = segment_from(blocks, s, i);
            let sp = sentences_of(span, pieces(joined(span)), 0);
            assert(out == sp);
            assert forall|k: int| 0 <= k < out.len() implies single_sentence(#[trigger] out[k].1) by {
                assert(single_sentence(sp[k].1));
            }
        } else {
            assert(segment_from(blocks, s, i).len() == 0);
        }
    } else if ends_sentence(blocks[i].1) {
        let span = blocks.subrange(s, i + 1);
        lemma_pieces_shape(joined(span));
        lemma_sentences_single(span, pieces(joined(span)), 0);
        lemma_segment_from_single(blocks, i + 1, i + 1);
        let a = split_span_spec(span);
        let b = segment_from(blocks, i + 1, i + 1);
        let out = segment_from(blocks, s, i);
        assert(out == a + b);
        assert forall|k: int| 0 <= k < out.len() implies single_sentence(#[trigger] out[k].1) by {
            if k < a.len() {
                assert(out[k] == a[k]);
                assert(single_sentence(sentences_of(span, pieces(joined(span)), 0)[k].1));
            } else {
                assert(out[k] == b[k - a.len()]);
                assert(single_sentence(b[k - a.len()].1));
            }
        }
    } else {
        lemma_segment_from_single(blocks, s, i + 1);
        let out = segment_from(blocks, s, i);
        let nx = segment_from(blocks, s, i + 1);
        assert(out == nx);
        assert forall|k: int| 0 <= k < out.len() implies single_sentence(#[trigger] out[k].1) by {
            assert(single_sentence(nx[k].1));
        }
    }
}

/// Every emitted sentence is already one complete sentence: splitting it
/// again, alone, gives back exactly itself.
pub proof fn lemma_emitted_sentences_resplit(blocks: Seq<(Seq<char>, Seq<char>)>)
    ensures
        forall|k: int|
            0 <= k < segment(blocks).len() ==> split_span_spec(seq![#[trigger] segment(blocks)[k]])
                == seq![segment(blocks)[k]],
{
    lemma_segment_from_single(blocks, 0, 0);
    assert forall|k: int| 0 <= k < segment(blocks).len() implies split_span_spec(
        seq![#[trigger] segment(blocks)[k]],
    ) == seq![segment(blocks)[k]] by {
        let e = segment(blocks)[k];
        assert(single_sentence(e.1));
        lemma_resplit_single_sentence(e.0, e.1);
        assert((e.0, e.1) == e);
    }
}

} // verus!
