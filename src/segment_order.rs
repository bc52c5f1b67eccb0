//! Sentences come out in block order: each is stamped from a block at or
//! after the one that stamped the sentence before it.
use vstd::prelude::*;
use crate::text::{is_ws, trim, trim_start, trim_end};
use crate::segment_lemmas::lemma_attributed_start;
use crate::segment::{
    is_terminator, ends_sentence, joined, part_start, part_contains, attributed_from, attributed,
    first_piece_len, pieces, sentences_of, split_span_spec, segment_from, segment,
    lemma_first_piece_bounds, lemma_part_start_ge,
};

verus! {

proof fn lemma_part_start_prefix(parts: Seq<(Seq<char>, Seq<char>)>, q: int, i: int)
    requires
        0 <= i <= q <= parts.len(),
    ensures
        part_start(parts.take(q), i) == part_start(parts, i),
    decreases i,
{
    if i > 0 {
        lemma_part_start_prefix(parts, q, i - 1);
        assert(parts.take(q)[i - 1] == parts[i - 1]);
    }
}

proof fn lemma_part_start_mono(parts: Seq<(Seq<char>, Seq<char>)>, i: int, k: int)
    requires
        0 <= i < k <= parts.len(),
    ensures
        part_start(parts, i) + parts[i].1.len() + 1 <= part_start(parts, k),
    decreases k - i,
{
    if k > i + 1 {
        lemma_part_start_mono(parts, i, k - 1);
    }
}

/// Where the characters of `joined(parts)` come from.
proof fn lemma_joined_layout(parts: Seq<(Seq<char>, Seq<char>)>)
    requires
        parts.len() > 0,
    ensures
        joined(parts).len() == part_start(parts, parts.len() - 1) + parts.last().1.len(),
        forall|i: int, m: int|
            0 <= i < parts.len() && 0 <= m < parts[i].1.len() ==> joined(parts)[part_start(parts, i)
                + m] == #[trigger] parts[i].1[m],
        forall|i: int| 0 < i < parts.len() ==> joined(parts)[#[trigger] part_start(parts, i) - 1] == ' ',
    decreases parts.len(),
{
    let n = parts.len() as int;
    if n > 1 {
        let p = parts.drop_last();
        lemma_joined_layout(p);
        assert(p =~= parts.take(n - 1));
        assert forall|i: int| 0 <= i < n implies part_start(p, i) == part_start(parts, i) by {
            lemma_part_start_prefix(parts, n - 1, i);
        }
        let j = joined(parts);
        let jp = joined(p);
        assert(j == jp + seq![' '] + parts.last().1);
        assert(jp.len() == part_start(parts, n - 2) + parts[n - 2].1.len());
        assert(part_start(parts, n - 1) == jp.len() + 1);
        assert forall|i: int, m: int|
            0 <= i < n && 0 <= m < parts[i].1.len() implies j[part_start(parts, i) + m]
                == #[trigger] parts[i].1[m] by {
            if i < n - 1 {
                assert(p[i] == parts[i]);
                lemma_part_start_mono(parts, i, n - 1);
                assert(part_start(p, i) == part_start(parts, i));
                assert(jp[part_start(p, i) + m] == p[i].1[m]);
                lemma_part_start_ge(parts, i);
                let x = part_start(parts, i) + m;
                assert(x < jp.len());
                assert((jp + seq![' '])[x] == jp[x]);
                assert(j[x] == (jp + seq![' '])[x]);
            } else {
                assert(j[part_start(parts, i) + m] == parts.last().1[m]);
            }
        }
        assert forall|i: int| 0 < i < n implies j[#[trigger] part_start(parts, i) - 1] == ' ' by {
            if i < n - 1 {
                lemma_part_start_mono(parts, i, n - 1);
                lemma_part_start_ge(parts, i - 1);
                assert(part_start(p, i) == part_start(parts, i));
                assert(jp[part_start(p, i) - 1] == ' ');
                let x = part_start(parts, i) - 1;
                assert(x < jp.len());
                assert((jp + seq![' '])[x] == jp[x]);
                assert(j[x] == (jp + seq![' '])[x]);
            } else {
                assert(j[part_start(parts, i) - 1] == (jp + seq![' '])[jp.len() as int]);
            }
        }
    }
}

/// A position of the joined text lies in some part, or is a joining space.
proof fn lemma_locate(parts: Seq<(Seq<char>, Seq<char>)>, p: int, i: int) -> (r: int)
    requires
        0 <= i < parts.len(),
        part_start(parts, i) <= p < part_start(parts, parts.len() - 1) + parts.last().1.len(),
    ensures
        0 <= r < parts.len(),
        part_contains(parts, r, p) || (r > 0 && p == part_start(parts, r) - 1),
    decreases parts.len() - i,
{
    lemma_part_start_ge(parts, i);
    if p < part_start(parts, i) + parts[i].1.len() {
        i
    } else if i + 1 >= parts.len() {
        i
    } else if p == part_start(parts, i) + parts[i].1.len() {
        i + 1
    } else {
        lemma_locate(parts, p, i + 1)
    }
}

/// The part containing `off` is the one it is attributed to.
proof fn lemma_attributed_contains(parts: Seq<(Seq<char>, Seq<char>)>, i: int, off: int, k: int)
    requires
        0 <= k <= i < parts.len(),
        part_contains(parts, i, off),
    ensures
        attributed_from(parts, off, k) == i,
    decreases i - k,
{
    if k < i {
        lemma_part_start_mono(parts, k, i);
        lemma_attributed_contains(parts, i, off, k + 1);
    }
}

pub open spec fn no_inner_close(parts: Seq<(Seq<char>, Seq<char>)>) -> bool {
    forall|i: int| 0 <= i < parts.len() - 1 ==> !ends_sentence(#[trigger] parts[i].1)
}

proof fn lemma_trim_last(s: Seq<char>)
    requires
        s.len() > 0,
        !is_ws(s.last()),
    ensures
        trim(s).len() > 0,
        trim(s).last() == s.last(),
    decreases s.len(),
{
    if is_ws(s[0]) {
        assert(s.len() > 1);
        lemma_trim_last(s.drop_first());
    } else {
        assert(trim_start(s) == s);
    }
}

/// After a terminator inside an open span, the next character belongs to
/// the same part.
proof fn lemma_after_terminator(parts: Seq<(Seq<char>, Seq<char>)>, off: int) -> (r: int)
    requires
        parts.len() > 0,
        no_inner_close(parts),
        0 < off < joined(parts).len(),
        is_terminator(joined(parts)[off - 1]),
    ensures
        0 <= r < parts.len(),
        part_contains(parts, r, off),
        attributed(parts, off) == r,
{
    lemma_joined_layout(parts);
    let n = parts.len() as int;
    let i = lemma_locate(parts, off - 1, 0);
    if !part_contains(parts, i, off - 1) {
        assert(joined(parts)[part_start(parts, i) - 1] == ' ');
    }
    let t = parts[i].1;
    lemma_part_start_ge(parts, i);
    if off == part_start(parts, i) + t.len() {
        lemma_last_closes(parts, i);
        if i < n - 1 {
            assert(!ends_sentence(parts[i].1));
        }
        assert(false);
    }
    lemma_attributed_contains(parts, i, off, 0);
    i
}

/// A part whose last character is a terminator closes the span.
proof fn lemma_last_closes(parts: Seq<(Seq<char>, Seq<char>)>, i: int)
    requires
        parts.len() > 0,
        0 <= i < parts.len(),
        parts[i].1.len() > 0,
        part_start(parts, i) >= 0,
        is_terminator(joined(parts)[part_start(parts, i) + parts[i].1.len() - 1]),
    ensures
        ends_sentence(parts[i].1),
{
    lemma_joined_layout(parts);
    let t = parts[i].1;
    assert(joined(parts)[part_start(parts, i) + (t.len() - 1)] == t[t.len() - 1]);
    assert(t.last() == t[t.len() - 1]);
    lemma_trim_last(t);
}

/// For each sentence of `ps` (pieces of the joined text of `parts` starting
/// at offset `off`), the index of the part it is stamped from.
pub open spec fn origins_of(parts: Seq<(Seq<char>, Seq<char>)>, ps: Seq<Seq<char>>, off: int) -> Seq<int>
    decreases ps.len(),
{
    if ps.len() == 0 {
        seq![]
    } else {
        let rest = origins_of(parts, ps.drop_first(), off + ps[0].len());
        if trim(ps[0]).len() > 0 {
            seq![attributed(parts, off)] + rest
        } else {
            rest
        }
    }
}

pub open spec fn span_origins(parts: Seq<(Seq<char>, Seq<char>)>) -> Seq<int> {
    origins_of(parts, pieces(joined(parts)), 0)
}

pub open spec fn shifted(o: Seq<int>, d: int) -> Seq<int> {
    o.map_values(|x: int| x + d)
}

/// For each sentence of `segment_from(blocks, s, i)`, the index of the
/// block it is stamped from.
pub open spec fn segment_origins(blocks: Seq<(Seq<char>, Seq<char>)>, s: int, i: int) -> Seq<int>
    decreases blocks.len() - i,
{
    if i < 0 || s < 0 || s > i {
        seq![]
    } else if i >= blocks.len() {
        if s < blocks.len() {
            shifted(span_origins(blocks.subrange(s, blocks.len() as int)), s)
        } else {
            seq![]
        }
    } else if ends_sentence(blocks[i].1) {
        shifted(span_origins(blocks.subrange(s, i + 1)), s) + segment_origins(blocks, i + 1, i + 1)
    } else {
        segment_origins(blocks, s, i + 1)
    }
}

pub open spec fn sorted(o: Seq<int>) -> bool {
    forall|a: int, b: int| 0 <= a <= b < o.len() ==> o[a] <= o[b]
}

proof fn lemma_piece_ends_in_terminator(s: Seq<char>)
    requires
        0 < first_piece_len(s) < s.len(),
    ensures
        is_terminator(s[first_piece_len(s) - 1]),
    decreases s.len(),
{
    if !is_terminator(s[0]) {
        lemma_first_piece_bounds(s.drop_first());
        lemma_piece_ends_in_terminator(s.drop_first());
    }
}

/// Where a sentence is stamped from when it starts at `off`: part 0 at the
/// start, else the part holding the terminator before it.
proof fn lemma_origin_at(parts: Seq<(Seq<char>, Seq<char>)>, off: int)
    requires
        parts.len() > 0,
        no_inner_close(parts),
        0 <= off < joined(parts).len(),
        off == 0 || is_terminator(joined(parts)[off - 1]),
    ensures
        0 <= attributed(parts, off) < parts.len(),
        off == 0 ==> attributed(parts, off) == 0,
        off > 0 ==> part_contains(parts, attributed(parts, off), off),
{
    if off == 0 {
        lemma_attributed_start(parts);
    } else {
        lemma_after_terminator(parts, off);
    }
}

proof fn lemma_origins_from(parts: Seq<(Seq<char>, Seq<char>)>, off: int)
    requires
        parts.len() > 0,
        no_inner_close(parts),
        0 <= off <= joined(parts).len(),
        off == 0 || off == joined(parts).len() || is_terminator(joined(parts)[off - 1]),
    ensures
        ({
            let j = joined(parts);
            let o = origins_of(parts, pieces(j.skip(off)), off);
            let ss = sentences_of(parts, pieces(j.skip(off)), off);
            &&& o.len() == ss.len()
            &&& forall|k: int|
                0 <= k < o.len() ==> 0 <= #[trigger] o[k] < parts.len() && ss[k].0 == parts[o[k]].0
            &&& sorted(o)
            &&& forall|k: int| 0 <= k < o.len() ==> attributed(parts, off) <= #[trigger] o[k]
        }),
    decreases joined(parts).len() - off,
{
    let j = joined(parts);
    let s = j.skip(off);
    if off == j.len() {
        assert(s.len() == 0);
        assert(pieces(s) =~= Seq::<Seq<char>>::empty());
    } else {
        lemma_first_piece_bounds(s);
        let n = first_piece_len(s);
        let ps = pieces(s);
        assert(ps == seq![s.take(n)] + pieces(s.skip(n)));
        assert(ps.drop_first() =~= pieces(s.skip(n)));
        assert(s.skip(n) =~= j.skip(off + n));
        assert(ps[0] == s.take(n));
        if off + n < j.len() {
            lemma_piece_ends_in_terminator(s);
            assert(j[off + n - 1] == s[n - 1]);
        }
        lemma_origins_from(parts, off + n);
        lemma_origin_at(parts, off);
        let rest_o = origins_of(parts, pieces(j.skip(off + n)), off + n);
        let rest_s = sentences_of(parts, pieces(j.skip(off + n)), off + n);
        let a = attributed(parts, off);
        if off + n < j.len() {
            lemma_origin_at(parts, off + n);
            let b = attributed(parts, off + n);
            if off > 0 && b < a {
                lemma_part_start_mono(parts, b, a);
            }
            assert(a <= b);
        } else {
            assert(j.skip(off + n) =~= Seq::<char>::empty());
            assert(pieces(j.skip(off + n)) =~= Seq::<Seq<char>>::empty());
        }
        let o = origins_of(parts, ps, off);
        let ss = sentences_of(parts, ps, off);
        if trim(ps[0]).len() > 0 {
            assert(o == seq![a] + rest_o);
            assert(ss == seq![(parts[a].0, trim(ps[0]))] + rest_s);
            assert forall|k: int| 0 <= k < o.len() implies 0 <= #[trigger] o[k] < parts.len()
                && ss[k].0 == parts[o[k]].0 by {
                if k > 0 {
                    assert(o[k] == rest_o[k - 1]);
                    assert(ss[k] == rest_s[k - 1]);
                }
            }
            assert forall|x: int, y: int| 0 <= x <= y < o.len() implies o[x] <= o[y] by {
                if x > 0 {
                    assert(o[x] == rest_o[x - 1]);
                }
                if y > 0 {
                    assert(o[y] == rest_o[y - 1]);
                }
            }
            assert forall|k: int| 0 <= k < o.len() implies a <= #[trigger] o[k] by {
                if k > 0 {
                    assert(o[k] == rest_o[k - 1]);
                }
            }
        } else {
            assert(o == rest_o);
            assert(ss == rest_s);
        }
    }
}

proof fn lemma_span_origins(parts: Seq<(Seq<char>, Seq<char>)>)
    requires
        parts.len() > 0,
        no_inner_close(parts),
    ensures
        ({
            let o = span_origins(parts);
            let ss = split_span_spec(parts);
            &&& o.len() == ss.len()
            &&& forall|k: int|
                0 <= k < o.len() ==> 0 <= #[trigger] o[k] < parts.len() && ss[k].0 == parts[o[k]].0
            &&& sorted(o)
        }),
{
    assert(joined(parts).skip(0) =~= joined(parts));
    lemma_origins_from(parts, 0);
}

proof fn lemma_segment_origins(blocks: Seq<(Seq<char>, Seq<char>)>, s: int, i: int)
    requires
        0 <= s <= i <= blocks.len(),
        forall|q: int| s <= q < i ==> !ends_sentence(#[trigger] blocks[q].1),
    ensures
        ({
            let o = segment_origins(blocks, s, i);
            let out = segment_from(blocks, s, i);
            &&& o.len() == out.len()
            &&& forall|k: int|
                0 <= k < o.len() ==> s <= #[trigger] o[k] < blocks.len() && out[k].0 == blocks[o[k]].0
            &&& sorted(o)
        }),
    decreases blocks.len() - i,
{
    let n = blocks.len() as int;
    let o = segment_origins(blocks, s, i);
    let out = segment_from(blocks, s, i);
    if i >= n {
        if s < n {
            let span = blocks.subrange(s, n);
            assert forall|q: int| 0 <= q < span.len() - 1 implies !ends_sentence(#[trigger] span[q].1) by {
                assert(span[q] == blocks[s + q]);
            }
            lemma_span_origins(span);
            let so = span_origins(span);
            assert forall|k: int| 0 <= k < o.len() implies s <= #[trigger] o[k] < blocks.len()
                && out[k].0 == blocks[o[k]].0 by {
                assert(o[k] == so[k] + s);
                assert(span[so[k]] == blocks[so[k] + s]);
            }
            assert forall|x: int, y: int| 0 <= x <= y < o.len() implies o[x] <= o[y] by {
                assert(o[x] == so[x] + s);
                assert(o[y] == so[y] + s);
            }
        }
    } else if ends_sentence(blocks[i].1) {
        let span = blocks.subrange(s, i + 1);
        assert forall|q: int| 0 <= q < span.len() - 1 implies !ends_sentence(#[trigger] span[q].1) by {
            assert(span[q] == blocks[s + q]);
        }
        lemma_span_origins(span);
        lemma_segment_origins(blocks, i + 1, i + 1);
        let so = shifted(span_origins(span), s);
        let ro = segment_origins(blocks, i + 1, i + 1);
        let sa = split_span_spec(span);
        let ra = segment_from(blocks, i + 1, i + 1);
        assert(o == so + ro);
        assert(out == sa + ra);
        assert forall|k: int| 0 <= k < o.len() implies s <= #[trigger] o[k] < blocks.len()
            && out[k].0 == blocks[o[k]].0 by {
            if k < so.len() {
                assert(o[k] == span_origins(span)[k] + s);
                assert(out[k] == sa[k]);
                assert(span[span_origins(span)[k]] == blocks[span_origins(span)[k] + s]);
            } else {
                assert(o[k] == ro[k - so.len()]);
                assert(out[k] == ra[k - so.len()]);
            }
        }
        assert forall|x: int, y: int| 0 <= x <= y < o.len() implies o[x] <= o[y] by {
            if x < so.len() {
                assert(o[x] == span_origins(span)[x] + s);
                if y < so.len() {
                    assert(o[y] == span_origins(span)[y] + s);
                } else {
                    assert(o[y] == ro[y - so.len()]);
                }
            } else {
                assert(o[x] == ro[x - so.len()]);
                assert(o[y] == ro[y - so.len()]);
            }
        }
    } else {
        lemma_segment_origins(blocks, s, i + 1);
    }
}

/// Sentences keep the time order of the blocks: whatever order the blocks'
/// start times follow, the sentences' timestamps follow it too.
pub proof fn lemma_segment_keeps_time_order(
    blocks: Seq<(Seq<char>, Seq<char>)>,
    le: spec_fn(Seq<char>, Seq<char>) -> bool,
)
    requires
        forall|a: int, b: int|
            0 <= a <= b < blocks.len() ==> #[trigger] le(blocks[a].0, blocks[b].0),
    ensures
        forall|a: int, b: int|
            0 <= a <= b < segment(blocks).len() ==> #[trigger] le(
                segment(blocks)[a].0,
                segment(blocks)[b].0,
            ),
{
    lemma_segment_origins(blocks, 0, 0);
    let o = segment_origins(blocks, 0, 0);
    let out = segment(blocks);
    assert forall|a: int, b: int| 0 <= a <= b < out.len() implies #[trigger] le(out[a].0, out[b].0) by {
        assert(o[a] <= o[b]);
        assert(out[a].0 == blocks[o[a]].0);
        assert(out[b].0 == blocks[o[b]].0);
        assert(le(blocks[o[a]].0, blocks[o[b]].0));
    }
}

} // verus!
