//! The guarantees that hold across the scanning strategies: a chunked scan
//! reports the same set as a scan of the whole corpus in one piece, and on
//! a corpus without line terminators all four strategies agree.

use vstd::prelude::*;

use crate::model::{
    buffer_match, chunked_match, found_in_window, line_end, line_match, line_ranges, plan_seq,
    span_accepted, stream_match, stream_window_entry, stream_window_start, stream_windows,
    LineMatch, MatchSpan, MatcherModel,
};

verus! {

/// Every span of at most `ov + 1` bytes that ends by `n` and starts at or
/// after `pos` lies entirely inside one of the planned windows.
proof fn lemma_plan_coverage(pos: int, n: int, chunk: int, ov: int, s: int, e: int)
    requires
        chunk >= 1,
        ov >= 0,
        0 <= pos <= s,
        s < e,
        e <= n,
        e - s <= ov + 1,
    ensures
        exists|wi: int|
            {
                &&& 0 <= wi < plan_seq(pos, n, chunk, ov).len()
                &&& (#[trigger] plan_seq(pos, n, chunk, ov)[wi]).0 <= s
                &&& e <= plan_seq(pos, n, chunk, ov)[wi].1
                &&& 0 <= plan_seq(pos, n, chunk, ov)[wi].0
                &&& plan_seq(pos, n, chunk, ov)[wi].1 <= n
            },
    decreases n - pos,
{
    let plan = plan_seq(pos, n, chunk, ov);
    let e0 = if pos + chunk + ov <= n {
        pos + chunk + ov
    } else {
        n
    };
    if e0 == n || s < pos + chunk {
        assert(plan[0] == (pos, e0));
    } else {
        lemma_plan_coverage(pos + chunk, n, chunk, ov, s, e);
        let tail = plan_seq(pos + chunk, n, chunk, ov);
        let wi = choose|wi: int|
            {
                &&& 0 <= wi < tail.len()
                &&& (#[trigger] tail[wi]).0 <= s
                &&& e <= tail[wi].1
                &&& 0 <= tail[wi].0
                &&& tail[wi].1 <= n
            };
        assert(plan[wi + 1] == tail[wi]);
    }
}

/// Every span of at most `ov + 1` bytes that ends by `n` and after `pos`
/// lies entirely inside one of the remaining stream windows.
proof fn lemma_stream_coverage(pos: int, n: int, b: int, ov: int, s: int, e: int)
    requires
        b >= 1,
        ov >= 0,
        0 <= pos < n,
        0 <= s,
        s < e,
        pos < e,
        e <= n,
        e - s <= ov + 1,
    ensures
        exists|wi: int|
            {
                &&& 0 <= wi < stream_windows(pos, n, b, ov).len()
                &&& (#[trigger] stream_windows(pos, n, b, ov)[wi]).0 <= s
                &&& e <= stream_windows(pos, n, b, ov)[wi].1
                &&& 0 <= stream_windows(pos, n, b, ov)[wi].0
                &&& stream_windows(pos, n, b, ov)[wi].1 <= n
            },
    decreases n - pos,
{
    let sw = stream_windows(pos, n, b, ov);
    let s0 = stream_window_start(pos, ov);
    let e0 = if pos + b <= n {
        pos + b
    } else {
        n
    };
    if e <= e0 {
        assert(sw[0] == (s0, e0));
        assert(s0 <= s);
    } else {
        lemma_stream_coverage(pos + b, n, b, ov, s, e);
        let tail = stream_windows(pos + b, n, b, ov);
        let wi = choose|wi: int|
            {
                &&& 0 <= wi < tail.len()
                &&& (#[trigger] tail[wi]).0 <= s
                &&& e <= tail[wi].1
                &&& 0 <= tail[wi].0
                &&& tail[wi].1 <= n
            };
        assert(sw[wi + 1] == tail[wi]);
    }
}

/// When no byte from `i` on is a line terminator, the line that starts at
/// `i` runs to the end of the corpus.
proof fn lemma_line_end_no_terminator(h: Seq<u8>, i: int)
    requires
        0 <= i <= h.len(),
        forall|j: int| i <= j < h.len() ==> h[j] != 10,
    ensures
        line_end(h, i) == h.len(),
    decreases h.len() - i,
{
    if i < h.len() {
        lemma_line_end_no_terminator(h, i + 1);
    }
}

/// Worker-per-window agreement: when every planned window's local result
/// set is exactly what scanning that window alone reports (each worker's
/// task), the deduplicated union of the local sets is exactly what the
/// sequential chunked scan reports — the window-per-worker and sequential
/// chunked strategies return identical sets, in either reporting mode and
/// for any chunk size.
pub proof fn lemma_worker_merge_agreement(
    m: MatcherModel,
    h: Seq<u8>,
    chunk: int,
    locals: Seq<Seq<MatchSpan>>,
    merged: Seq<MatchSpan>,
)
    requires
        chunk >= 1,
        locals.len() == plan_seq(0, h.len() as int, chunk, m.overlap()).len(),
        forall|i: int, t: MatchSpan|
            0 <= i < locals.len() ==> ((#[trigger] locals[i].contains(t)) <==> (found_in_window(
                m,
                h,
                plan_seq(0, h.len() as int, chunk, m.overlap())[i].0,
                plan_seq(0, h.len() as int, chunk, m.overlap())[i].1,
                t,
            ) && span_accepted(m.whole_word, h, t.start as int, t.end as int))),
        forall|t: MatchSpan| #[trigger] merged.contains(t) <==> exists|i: int|
            0 <= i < locals.len() && (#[trigger] locals[i]).contains(t),
    ensures
        forall|t: MatchSpan| #[trigger] merged.contains(t) <==> chunked_match(m, h, chunk, t),
{
    let plan = plan_seq(0, h.len() as int, chunk, m.overlap());
    assert forall|t: MatchSpan| #[trigger]
        merged.contains(t) <==> chunked_match(m, h, chunk, t) by {
        if merged.contains(t) {
            let i = choose|i: int| 0 <= i < locals.len() && (#[trigger] locals[i]).contains(t);
            assert(locals[i].contains(t));
            assert(found_in_window(m, h, plan[i].0, plan[i].1, t));
            assert(span_accepted(m.whole_word, h, t.start as int, t.end as int));
            assert(chunked_match(m, h, chunk, t));
        } else {
            if chunked_match(m, h, chunk, t) {
                let i = choose|i: int|
                    0 <= i < plan.len() && found_in_window(
                        m,
                        h,
                        (#[trigger] plan[i]).0,
                        plan[i].1,
                        t,
                    );
                assert(locals[i].contains(t));
                assert(merged.contains(t));
                assert(false);
            }
        }
    }
}

/// Chunk-size invariance: in overlapping mode, a chunked scan of a corpus
/// reports exactly the matches of a scan of the whole corpus in one piece,
/// whatever chunk size is used.
pub proof fn lemma_chunk_size_invariance(m: MatcherModel, h: Seq<u8>, chunk: int)
    requires
        m.wf(),
        m.overlapping,
        chunk >= 1,
    ensures
        forall|t: MatchSpan| #[trigger]
            chunked_match(m, h, chunk, t) == buffer_match(m, h, t),
{
    let plan = plan_seq(0, h.len() as int, chunk, m.overlap());
    assert forall|t: MatchSpan| #[trigger]
        chunked_match(m, h, chunk, t) == buffer_match(m, h, t) by {
        if chunked_match(m, h, chunk, t) {
            let wi = choose|wi: int|
                0 <= wi < plan.len() && found_in_window(m, h, (#[trigger] plan[wi]).0, plan[wi].1, t);
            assert(found_in_window(m, h, plan[wi].0, plan[wi].1, t));
            assert(buffer_match(m, h, t));
        }
        if buffer_match(m, h, t) {
            assert(m.patterns[t.pattern as int].len() <= m.max_pattern_len);
            lemma_plan_coverage(
                0,
                h.len() as int,
                chunk,
                m.overlap(),
                t.start as int,
                t.end as int,
            );
            let wi = choose|wi: int|
                {
                    &&& 0 <= wi < plan.len()
                    &&& (#[trigger] plan[wi]).0 <= t.start
                    &&& t.end <= plan[wi].1
                    &&& 0 <= plan[wi].0
                    &&& plan[wi].1 <= h.len()
                };
            assert(found_in_window(m, h, plan[wi].0, plan[wi].1, t));
            assert(chunked_match(m, h, chunk, t));
        }
    }
}

/// Strategy agreement: on a corpus without line terminators, in
/// overlapping mode and without the whole-word filter, the line-oriented,
/// chunked (sequential or window-per-worker) and streaming strategies all
/// report exactly the matches of a scan of the whole corpus in one piece,
/// for any chunk or buffer size.
pub proof fn lemma_strategy_agreement(m: MatcherModel, h: Seq<u8>, chunk: int)
    requires
        m.wf(),
        m.overlapping,
        !m.whole_word,
        chunk >= 1,
        forall|i: int| 0 <= i < h.len() ==> h[i] != 10,
    ensures
        forall|t: MatchSpan| #[trigger]
            chunked_match(m, h, chunk, t) == buffer_match(m, h, t),
        forall|t: MatchSpan| #[trigger] stream_match(m, h, chunk, t) == buffer_match(m, h, t),
        forall|t: LineMatch| #[trigger]
            line_match(m, h, t) == (t.line == 1 && buffer_match(
                m,
                h,
                MatchSpan { start: t.start, end: t.end, pattern: t.pattern },
            )),
{
    lemma_chunk_size_invariance(m, h, chunk);
    let sw = stream_windows(0, h.len() as int, chunk, m.overlap());
    assert forall|t: MatchSpan| #[trigger]
        stream_match(m, h, chunk, t) == buffer_match(m, h, t) by {
        if stream_match(m, h, chunk, t) {
            let wi = choose|wi: int|
                0 <= wi < sw.len() && stream_window_entry(m, h, (#[trigger] sw[wi]), t);
            assert(found_in_window(m, h, sw[wi].0, sw[wi].1, t));
            assert(buffer_match(m, h, t));
        }
        if buffer_match(m, h, t) {
            assert(m.patterns[t.pattern as int].len() <= m.max_pattern_len);
            lemma_stream_coverage(
                0,
                h.len() as int,
                chunk,
                m.overlap(),
                t.start as int,
                t.end as int,
            );
            let wi = choose|wi: int|
                {
                    &&& 0 <= wi < sw.len()
                    &&& (#[trigger] sw[wi]).0 <= t.start
                    &&& t.end <= sw[wi].1
                    &&& 0 <= sw[wi].0
                    &&& sw[wi].1 <= h.len()
                };
            assert(found_in_window(m, h, sw[wi].0, sw[wi].1, t));
            assert(stream_window_entry(m, h, sw[wi], t));
            assert(stream_match(m, h, chunk, t));
        }
    }
    let lines = line_ranges(h, 0);
    if h.len() > 0 {
        lemma_line_end_no_terminator(h, 0);
        assert(line_ranges(h, h.len() as int) =~= Seq::<(int, int)>::empty());
        assert(line_end(h, 0) == h.len() as int);
        assert(lines == seq![(0int, line_end(h, 0))] + line_ranges(h, line_end(h, 0)));
        assert(lines =~= seq![(0int, h.len() as int)]);
        assert(h.subrange(0, h.len() as int) =~= h);
    }
    assert forall|t: LineMatch| #[trigger]
        line_match(m, h, t) == (t.line == 1 && buffer_match(
            m,
            h,
            MatchSpan { start: t.start, end: t.end, pattern: t.pattern },
        )) by {
        if h.len() == 0 {
            assert(!line_match(m, h, t));
            assert(!buffer_match(m, h, MatchSpan { start: t.start, end: t.end, pattern: t.pattern }));
        } else {
            assert(lines[0] == (0int, h.len() as int));
        }
    }
}

} // verus!
