//! Mathematical model of the scanner: what counts as a match, which spans
//! the word-boundary filter accepts, how a corpus is split into windows, and
//! what each scanning strategy is required to return.

use vstd::prelude::*;

verus! {

/// One reported match: a half-open byte interval `[start, end)` of the
/// corpus together with the index of the pattern that matched there.
#[derive(Clone, Copy, Debug, PartialEq, Eq, Structural, Hash)]
pub struct MatchSpan {
    pub start: usize,
    pub end: usize,
    pub pattern: usize,
}

/// One match of the line-oriented strategy: a 1-based line number and a
/// span whose offsets are relative to the start of that line.
#[derive(Clone, Copy, Debug, PartialEq, Eq, Structural, Hash)]
pub struct LineMatch {
    pub line: usize,
    pub start: usize,
    pub end: usize,
    pub pattern: usize,
}

/// The configuration of a matcher, as contracts speak of it.
pub ghost struct MatcherModel {
    /// The pattern list; indices into it are the pattern identities.
    pub patterns: Seq<Seq<u8>>,
    /// Report every match start, or only a non-overlapping selection.
    pub overlapping: bool,
    /// Fold ASCII letters to one case before comparing.
    pub case_insensitive: bool,
    /// Keep only matches that sit on word boundaries.
    pub whole_word: bool,
    /// The length of the longest pattern; consecutive windows overlap by
    /// one byte less than this.
    pub max_pattern_len: int,
}

impl MatcherModel {
    /// The pattern list is non-empty, has no empty pattern, and
    /// `max_pattern_len` is the maximum of the pattern lengths.
    pub open spec fn wf(self) -> bool {
        &&& self.patterns.len() > 0
        &&& forall|i: int|
            0 <= i < self.patterns.len() ==> 1 <= (#[trigger] self.patterns[i]).len()
                <= self.max_pattern_len
        &&& exists|i: int|
            0 <= i < self.patterns.len() && (#[trigger] self.patterns[i]).len()
                == self.max_pattern_len
        &&& self.max_pattern_len <= usize::MAX
    }

    /// The number of bytes shared between consecutive windows.
    pub open spec fn overlap(self) -> int {
        self.max_pattern_len - 1
    }
}

/// A sequence with no element repeated.
pub open spec fn no_dups<A>(s: Seq<A>) -> bool {
    forall|i: int, j: int| 0 <= i < j < s.len() ==> s[i] != s[j]
}

/// The byte sequences held by a vector of byte vectors.
pub open spec fn views_of(ps: Seq<Vec<u8>>) -> Seq<Seq<u8>> {
    Seq::new(ps.len(), |i: int| ps[i]@)
}

/// The subsequence of the non-empty patterns, order kept.
pub open spec fn keep_nonempty(ps: Seq<Seq<u8>>) -> Seq<Seq<u8>>
    decreases ps.len(),
{
    if ps.len() == 0 {
        Seq::empty()
    } else {
        keep_nonempty(ps.drop_last()) + (if ps.last().len() > 0 {
            seq![ps.last()]
        } else {
            Seq::empty()
        })
    }
}

/// The value of an optional flag, or its default.
pub open spec fn opt_or(o: Option<bool>, d: bool) -> bool {
    match o {
        Some(b) => b,
        None => d,
    }
}

/// ASCII lower-casing of one byte: `A`..`Z` fold to `a`..`z` when `ci` is
/// set; every other byte is left alone.
pub open spec fn fold_byte(ci: bool, b: u8) -> u8 {
    if ci && 65 <= b <= 90 {
        (b + 32) as u8
    } else {
        b
    }
}

/// Bytewise ASCII lower-casing of a sequence.
pub open spec fn fold_bytes(ci: bool, s: Seq<u8>) -> Seq<u8> {
    s.map_values(|b: u8| fold_byte(ci, b))
}

/// Pattern `p` occurs in haystack `h` exactly over `[s, e)`, comparing
/// case-insensitively when `ci` is set.
pub open spec fn occurs_at(pats: Seq<Seq<u8>>, ci: bool, h: Seq<u8>, s: int, e: int, p: int) -> bool {
    &&& 0 <= p < pats.len()
    &&& 0 <= s <= e <= h.len()
    &&& e - s == pats[p].len()
    &&& fold_bytes(ci, h.subrange(s, e)) == fold_bytes(ci, pats[p])
}

/// What the search primitive returns in exclusive (non-overlapping) mode on
/// a haystack: a function of the pattern list, the case flag and the bytes
/// alone.  Each triple is `(start, end, pattern index)`.
pub uninterp spec fn exclusive_matches(pats: Seq<Seq<u8>>, ci: bool, h: Seq<u8>) -> Seq<
    (usize, usize, usize),
>;

/// An occurrence inside a window of the haystack, stated in the window's
/// own coordinates, is the same thing as an occurrence of the haystack that
/// lies inside the window, and the other way round.
pub proof fn lemma_occurs_shift(
    pats: Seq<Seq<u8>>,
    ci: bool,
    h: Seq<u8>,
    ws: int,
    we: int,
    ls: int,
    le: int,
    p: int,
)
    requires
        0 <= ws <= we <= h.len(),
    ensures
        occurs_at(pats, ci, h.subrange(ws, we), ls, le, p) <==> (0 <= ls && le <= we - ws
            && occurs_at(pats, ci, h, ws + ls, ws + le, p)),
{
    if 0 <= ls <= le <= we - ws {
        assert(h.subrange(ws, we).subrange(ls, le) =~= h.subrange(ws + ls, ws + le));
    }
}

/// A byte that can sit inside a word: ASCII alphanumeric or underscore.
pub open spec fn is_word_byte(b: u8) -> bool {
    ||| 48 <= b <= 57
    ||| 65 <= b <= 90
    ||| 97 <= b <= 122
    ||| b == 95
}

/// The span `[s, e)` of `h` sits on word boundaries: the byte just before
/// `s` and the byte at `e` are absent or non-word.  The ends of `h` always
/// qualify.
pub open spec fn word_boundary_ok(h: Seq<u8>, s: int, e: int) -> bool {
    &&& (s <= 0 || !is_word_byte(h[s - 1]))
    &&& (e >= h.len() || !is_word_byte(h[e]))
}

/// What the boundary filter decides for a span: everything is kept
/// unless whole-word matching is on, in which case the span must sit on
/// word boundaries.
pub open spec fn span_accepted(whole_word: bool, h: Seq<u8>, s: int, e: int) -> bool {
    !whole_word || word_boundary_ok(h, s, e)
}

/// The shape every reported span has, in whichever mode: a valid pattern
/// identity and a non-empty interval that ends within the `n` bytes
/// scanned.
pub open spec fn span_sane(m: MatcherModel, n: int, t: MatchSpan) -> bool {
    &&& t.pattern < m.patterns.len()
    &&& t.start < t.end
    &&& t.end <= n
}

/// The shape every reported line match has, in whichever mode: a valid
/// pattern identity, a 1-based line number into the split of `h`, and a
/// non-empty interval that ends within that line.
pub open spec fn line_span_sane(m: MatcherModel, h: Seq<u8>, t: LineMatch) -> bool {
    let ls = line_ranges(h, 0);
    &&& t.pattern < m.patterns.len()
    &&& t.start < t.end
    &&& 1 <= t.line <= ls.len()
    &&& t.end <= ls[t.line - 1].1 - ls[t.line - 1].0
}

/// The match `t`, in corpus-global coordinates over `h`, is one that
/// scanning the window `[ws, we)` of `h` alone reports (before any boundary
/// filtering).
pub open spec fn found_in_window(m: MatcherModel, h: Seq<u8>, ws: int, we: int, t: MatchSpan) -> bool {
    &&& ws <= t.start
    &&& t.start <= t.end
    &&& t.end <= we
    &&& 0 <= ws <= we <= h.len()
    &&& if m.overlapping {
        occurs_at(m.patterns, m.case_insensitive, h, t.start as int, t.end as int, t.pattern as int)
    } else {
        exclusive_matches(m.patterns, m.case_insensitive, h.subrange(ws, we)).contains(
            (((t.start - ws) as usize, (t.end - ws) as usize, t.pattern)),
        )
    }
}

/// What scanning a whole buffer `h` in one piece returns: every occurrence
/// (or, in exclusive mode, the primitive's non-overlapping selection) that
/// the boundary filter accepts.
pub open spec fn buffer_match(m: MatcherModel, h: Seq<u8>, t: MatchSpan) -> bool {
    &&& found_in_window(m, h, 0, h.len() as int, t)
    &&& span_accepted(m.whole_word, h, t.start as int, t.end as int)
}

/// The ordered window plan over a corpus of length `n`: from `pos`, each
/// window runs to `min(pos + chunk + ov, n)`, and the next one starts
/// `chunk` bytes later, until a window reaches the end.
pub open spec fn plan_seq(pos: int, n: int, chunk: int, ov: int) -> Seq<(int, int)>
    decreases n - pos,
{
    if pos >= n || chunk < 1 || ov < 0 {
        Seq::empty()
    } else {
        let e = if pos + chunk + ov <= n {
            pos + chunk + ov
        } else {
            n
        };
        seq![(pos, e)] + (if e == n {
            Seq::empty()
        } else {
            plan_seq(pos + chunk, n, chunk, ov)
        })
    }
}

/// Walking the plan: when the suffix of the plan from index `g` on is the
/// plan recomputed from position `pos`, the window at index `g` starts at
/// `pos`, and the suffix from `g + 1` is the plan from the next position.
pub proof fn lemma_plan_step(plan: Seq<(int, int)>, g: int, pos: int, n: int, chunk: int, ov: int)
    requires
        chunk >= 1,
        ov >= 0,
        0 <= g <= plan.len(),
        pos < n,
        plan_seq(pos, n, chunk, ov) == plan.skip(g),
    ensures
        g < plan.len(),
        plan[g] == (pos, if pos + chunk + ov <= n {
            pos + chunk + ov
        } else {
            n
        }),
        plan[g].1 == n ==> g + 1 == plan.len(),
        plan[g].1 != n ==> plan.skip(g + 1) == plan_seq(pos + chunk, n, chunk, ov),
{
    let rest = plan_seq(pos, n, chunk, ov);
    let e = if pos + chunk + ov <= n {
        pos + chunk + ov
    } else {
        n
    };
    let tail = if e == n {
        Seq::<(int, int)>::empty()
    } else {
        plan_seq(pos + chunk, n, chunk, ov)
    };
    assert(rest == seq![(pos, e)] + tail);
    assert(rest[0] == (pos, e));
    assert(rest.len() == 1 + tail.len());
    assert(plan.skip(g).len() == plan.len() - g);
    vstd::seq_lib::lemma_seq_skip_index(plan, g, 0);
    assert(plan[g] == (pos, e));
    if e == n {
        assert(plan.len() == g + 1);
    } else {
        assert forall|ii: int| 0 <= ii < tail.len() implies plan.skip(g + 1)[ii] == tail[ii] by {
            vstd::seq_lib::lemma_seq_skip_index(plan, g + 1, ii);
            vstd::seq_lib::lemma_seq_skip_index(plan, g, ii + 1);
            assert(plan.skip(g)[ii + 1] == rest[ii + 1]);
            assert(rest[ii + 1] == tail[ii]);
        }
        assert(plan.skip(g + 1) =~= tail);
    }
}

/// What a chunked strategy (sequential or window-per-worker) returns over
/// corpus `h`: the matches of the planned windows, filtered on boundaries
/// taken from the full corpus, deduplicated.
pub open spec fn chunked_match(m: MatcherModel, h: Seq<u8>, chunk: int, t: MatchSpan) -> bool {
    let ws = plan_seq(0, h.len() as int, chunk, m.overlap());
    &&& exists|i: int|
        0 <= i < ws.len() && found_in_window(m, h, (#[trigger] ws[i]).0, ws[i].1, t)
    &&& span_accepted(m.whole_word, h, t.start as int, t.end as int)
}

/// Where the streaming window for the buffer that begins at `pos` starts:
/// up to `ov` bytes of retained context are prepended, fewer only near the
/// start of the stream.
pub open spec fn stream_window_start(pos: int, ov: int) -> int {
    if ov <= pos {
        pos - ov
    } else {
        0
    }
}

/// The windows a streaming scan sees when the corpus arrives in buffers of
/// `b` bytes: each buffer is prefixed with the retained suffix, at most
/// `ov` bytes, of what came before it.  `pos` is the number of bytes
/// consumed so far.
pub open spec fn stream_windows(pos: int, n: int, b: int, ov: int) -> Seq<(int, int)>
    decreases n - pos,
{
    if pos >= n || b < 1 || ov < 0 || pos < 0 {
        Seq::empty()
    } else {
        let s = stream_window_start(pos, ov);
        let e = if pos + b <= n {
            pos + b
        } else {
            n
        };
        seq![(s, e)] + (if pos + b >= n {
            Seq::empty()
        } else {
            stream_windows(pos + b, n, b, ov)
        })
    }
}

/// The match `t`, in stream-global coordinates, is one that scanning the
/// combined window `w` of the stream `h` reports, with the boundary filter
/// evaluated against the window's own bytes only (the stream keeps no
/// earlier context).
pub open spec fn stream_window_entry(m: MatcherModel, h: Seq<u8>, w: (int, int), t: MatchSpan) -> bool {
    &&& found_in_window(m, h, w.0, w.1, t)
    &&& span_accepted(m.whole_word, h.subrange(w.0, w.1), t.start - w.0, t.end - w.0)
}

/// What the streaming strategy returns over a corpus `h` consumed in
/// buffers of `b` bytes: the matches of the combined windows,
/// deduplicated.
pub open spec fn stream_match(m: MatcherModel, h: Seq<u8>, b: int, t: MatchSpan) -> bool {
    let ws = stream_windows(0, h.len() as int, b, m.overlap());
    exists|i: int| 0 <= i < ws.len() && stream_window_entry(m, h, (#[trigger] ws[i]), t)
}

/// Walking the stream windows: when the suffix of the window list from
/// index `g` on is the list recomputed from position `pos`, the window at
/// index `g` covers the buffer at `pos` plus its retained context, and the
/// suffix from `g + 1` is the list from the next buffer.
pub proof fn lemma_stream_step(sw: Seq<(int, int)>, g: int, pos: int, n: int, b: int, ov: int)
    requires
        b >= 1,
        ov >= 0,
        0 <= g <= sw.len(),
        0 <= pos < n,
        stream_windows(pos, n, b, ov) == sw.skip(g),
    ensures
        g < sw.len(),
        sw[g] == (stream_window_start(pos, ov), if pos + b <= n {
            pos + b
        } else {
            n
        }),
        pos + b >= n ==> g + 1 == sw.len(),
        pos + b < n ==> sw.skip(g + 1) == stream_windows(pos + b, n, b, ov),
{
    let rest = stream_windows(pos, n, b, ov);
    let s = stream_window_start(pos, ov);
    let e = if pos + b <= n {
        pos + b
    } else {
        n
    };
    let tail = if pos + b >= n {
        Seq::<(int, int)>::empty()
    } else {
        stream_windows(pos + b, n, b, ov)
    };
    assert(rest == seq![(s, e)] + tail);
    assert(rest[0] == (s, e));
    assert(sw.skip(g).len() == sw.len() - g);
    vstd::seq_lib::lemma_seq_skip_index(sw, g, 0);
    assert(sw[g] == (s, e));
    if pos + b >= n {
        assert(sw.len() == g + 1);
    } else {
        assert forall|ii: int| 0 <= ii < tail.len() implies sw.skip(g + 1)[ii] == tail[ii] by {
            vstd::seq_lib::lemma_seq_skip_index(sw, g + 1, ii);
            vstd::seq_lib::lemma_seq_skip_index(sw, g, ii + 1);
            assert(sw.skip(g)[ii + 1] == rest[ii + 1]);
            assert(rest[ii + 1] == tail[ii]);
        }
        assert(sw.skip(g + 1) =~= tail);
    }
}

/// The match `t`, in stream-global coordinates, is one that scanning the
/// bytes of a window that starts at offset `base` reports, stated over the
/// window's bytes alone.
pub open spec fn window_local_entry(m: MatcherModel, window: Seq<u8>, base: int, t: MatchSpan) -> bool {
    &&& base <= t.start
    &&& t.start <= t.end
    &&& t.end <= base + window.len()
    &&& 0 <= base
    &&& if m.overlapping {
        occurs_at(
            m.patterns,
            m.case_insensitive,
            window,
            t.start - base,
            t.end - base,
            t.pattern as int,
        )
    } else {
        exclusive_matches(m.patterns, m.case_insensitive, window).contains(
            (((t.start - base) as usize, (t.end - base) as usize, t.pattern)),
        )
    }
    &&& span_accepted(m.whole_word, window, t.start - base, t.end - base)
}

/// A stream window entry over the stream `h` is the same thing as a local
/// entry over the window's own bytes.
pub proof fn lemma_stream_entry_local(m: MatcherModel, h: Seq<u8>, ws: int, we: int, t: MatchSpan)
    requires
        0 <= ws <= we <= h.len(),
    ensures
        stream_window_entry(m, h, (ws, we), t) == window_local_entry(m, h.subrange(ws, we), ws, t),
{
    lemma_occurs_shift(
        m.patterns,
        m.case_insensitive,
        h,
        ws,
        we,
        t.start - ws,
        t.end - ws,
        t.pattern as int,
    );
}

/// What a stream window reports depends only on the bytes of the window
/// itself: two streams that agree on the window agree on the entry.
pub proof fn lemma_stream_window_extend(
    m: MatcherModel,
    h1: Seq<u8>,
    h2: Seq<u8>,
    ws: int,
    we: int,
    t: MatchSpan,
)
    requires
        0 <= ws <= we,
        we <= h1.len(),
        we <= h2.len(),
        h1.subrange(ws, we) == h2.subrange(ws, we),
    ensures
        stream_window_entry(m, h1, (ws, we), t) == stream_window_entry(m, h2, (ws, we), t),
{
    if ws <= t.start && t.start <= t.end && t.end <= we {
        assert(h1.subrange(t.start as int, t.end as int) =~= h1.subrange(ws, we).subrange(
            t.start - ws,
            t.end - ws,
        ));
        assert(h2.subrange(t.start as int, t.end as int) =~= h2.subrange(ws, we).subrange(
            t.start - ws,
            t.end - ws,
        ));
    }
}

/// The end of the line that begins at `i`: one past the next `\n`, or the
/// end of the corpus when no terminator follows.
pub open spec fn line_end(h: Seq<u8>, i: int) -> int
    decreases h.len() - i,
{
    if i < 0 || i >= h.len() {
        i
    } else if h[i] == 10 {
        i + 1
    } else {
        line_end(h, i + 1)
    }
}

/// Every position starts a line that ends past it and within the corpus.
pub proof fn lemma_line_end_bounds(h: Seq<u8>, i: int)
    requires
        0 <= i < h.len(),
    ensures
        i < line_end(h, i) <= h.len(),
    decreases h.len() - i,
{
    if h[i] != 10 {
        if i + 1 < h.len() {
            lemma_line_end_bounds(h, i + 1);
        } else {
            assert(line_end(h, i + 1) == i + 1);
        }
    }
}

/// The corpus split into lines, terminators kept: the line ranges, in
/// order, starting at `pos`.
pub open spec fn line_ranges(h: Seq<u8>, pos: int) -> Seq<(int, int)>
    decreases h.len() - pos,
    via line_ranges_decreases
{
    if pos < 0 || pos >= h.len() {
        Seq::empty()
    } else {
        seq![(pos, line_end(h, pos))] + line_ranges(h, line_end(h, pos))
    }
}

#[via_fn]
proof fn line_ranges_decreases(h: Seq<u8>, pos: int) {
    if 0 <= pos < h.len() {
        lemma_line_end_bounds(h, pos);
    }
}

/// Walking the line split: when the suffix of the line ranges from index
/// `g` on is the split recomputed from position `pos`, the line at index
/// `g` runs from `pos` to its line end, and the suffix from `g + 1` is the
/// split from that end.
pub proof fn lemma_lines_step(lines: Seq<(int, int)>, g: int, pos: int, h: Seq<u8>)
    requires
        0 <= g <= lines.len(),
        0 <= pos < h.len(),
        line_ranges(h, pos) == lines.skip(g),
    ensures
        g < lines.len(),
        lines[g] == (pos, line_end(h, pos)),
        lines.skip(g + 1) == line_ranges(h, line_end(h, pos)),
{
    let rest = line_ranges(h, pos);
    let le = line_end(h, pos);
    lemma_line_end_bounds(h, pos);
    let tail = line_ranges(h, le);
    assert(rest == seq![(pos, le)] + tail);
    assert(rest[0] == (pos, le));
    assert(lines.skip(g).len() == lines.len() - g);
    vstd::seq_lib::lemma_seq_skip_index(lines, g, 0);
    assert(lines[g] == (pos, le));
    assert forall|ii: int| 0 <= ii < tail.len() implies lines.skip(g + 1)[ii] == tail[ii] by {
        vstd::seq_lib::lemma_seq_skip_index(lines, g + 1, ii);
        vstd::seq_lib::lemma_seq_skip_index(lines, g, ii + 1);
        assert(lines.skip(g)[ii + 1] == rest[ii + 1]);
        assert(rest[ii + 1] == tail[ii]);
    }
    assert(lines.skip(g + 1) =~= tail);
}

/// What the line-oriented strategy returns: for the 1-based line number
/// `t.line`, the matches of that line's bytes scanned on their own, with
/// offsets relative to the line start.
pub open spec fn line_match(m: MatcherModel, h: Seq<u8>, t: LineMatch) -> bool {
    let ls = line_ranges(h, 0);
    &&& 1 <= t.line <= ls.len()
    &&& buffer_match(
        m,
        h.subrange(ls[t.line - 1].0, ls[t.line - 1].1),
        MatchSpan { start: t.start, end: t.end, pattern: t.pattern },
    )
}

} // verus!
