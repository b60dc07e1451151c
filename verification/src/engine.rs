//! The scanning strategies that work through windows: the window planner,
//! the scan of one window, the sequential chunked scan, and the merge that
//! collapses the windows' local result sets into one deduplicated set.

use vstd::prelude::*;
use vstd::slice::slice_subrange;

use crate::matcher::TextMatcher;
use crate::model::{
    buffer_match, chunked_match, exclusive_matches, found_in_window, lemma_lines_step,
    lemma_occurs_shift, line_end, line_match, line_ranges, line_span_sane, no_dups, occurs_at,
    plan_seq, span_accepted, span_sane, LineMatch, MatchSpan, MatcherModel,
};

verus! {

/// `a + b`, capped at `cap`.
pub(crate) fn add_capped(a: usize, b: usize, cap: usize) -> (r: usize)
    requires
        a <= cap,
    ensures
        r as int == if a + b <= cap {
            a + b
        } else {
            cap as int
        },
        a <= r <= cap,
{
    if cap - a <= b {
        cap
    } else {
        a + b
    }
}

/// Whether `ms` already holds the span `t`.
pub(crate) fn contains_span(ms: &Vec<MatchSpan>, t: MatchSpan) -> (r: bool)
    ensures
        r == ms@.contains(t),
{
    let mut i: usize = 0;
    while i < ms.len()
        invariant
            i <= ms@.len(),
            forall|k: int| 0 <= k < i ==> ms@[k] != t,
        decreases ms@.len() - i,
    {
        if ms[i].start == t.start && ms[i].end == t.end && ms[i].pattern == t.pattern {
            return true;
        }
        i = i + 1;
    }
    false
}

/// The match `t` belongs to one of the first `upto` lines of the split
/// `lines` of `h`, and its span is a match of that line's bytes scanned on
/// their own.
spec fn line_entry(m: MatcherModel, h: Seq<u8>, lines: Seq<(int, int)>, upto: int, t: LineMatch) -> bool {
    &&& 1 <= t.line <= upto
    &&& buffer_match(
        m,
        h.subrange(lines[t.line - 1].0, lines[t.line - 1].1),
        MatchSpan { start: t.start, end: t.end, pattern: t.pattern },
    )
}

/// The match `t` is the `k`-th raw result of a window scan that started at
/// `wstart`, shifted to global coordinates and accepted by the boundary
/// filter over `h`.
spec fn window_entry(
    found: Seq<(usize, usize, usize)>,
    k: int,
    wstart: int,
    ww: bool,
    h: Seq<u8>,
    t: MatchSpan,
) -> bool {
    &&& found[k] == (((t.start - wstart) as usize, (t.end - wstart) as usize, t.pattern))
    &&& wstart <= t.start
    &&& t.start <= t.end
    &&& span_accepted(ww, h, t.start as int, t.end as int)
}

/// One past the next line terminator at or after `start`, or the end of
/// the corpus when no terminator follows.
fn find_line_end(data: &[u8], start: usize) -> (r: usize)
    requires
        start < data@.len(),
    ensures
        r as int == line_end(data@, start as int),
        start < r <= data@.len(),
{
    let mut j: usize = start;
    while j < data.len()
        invariant
            start <= j <= data@.len(),
            line_end(data@, start as int) == line_end(data@, j as int),
        decreases data@.len() - j,
    {
        if data[j] == 10 {
            return j + 1;
        }
        j = j + 1;
    }
    data.len()
}

/// Inserts into `acc` every span of `add` that it does not hold yet.
pub(crate) fn merge_into(acc: &mut Vec<MatchSpan>, add: &Vec<MatchSpan>)
    requires
        no_dups(old(acc)@),
    ensures
        no_dups(final(acc)@),
        forall|u: MatchSpan| #[trigger]
            final(acc)@.contains(u) <==> (old(acc)@.contains(u) || add@.contains(u)),
{
    let mut k: usize = 0;
    while k < add.len()
        invariant
            k <= add@.len(),
            no_dups(acc@),
            forall|u: MatchSpan| #[trigger] acc@.contains(u) <==> (old(acc)@.contains(u) || exists|
                j: int,
            |
                0 <= j < k && add@[j] == u),
        decreases add@.len() - k,
    {
        let t = add[k];
        let ghost a0 = acc@;
        let ghost kold = k as int;
        let present = contains_span(acc, t);
        if !present {
            acc.push(t);
        }
        k = k + 1;
        proof {
            assert forall|u: MatchSpan| #[trigger] acc@.contains(u) implies (old(acc)@.contains(u)
                || exists|j: int| 0 <= j < k && add@[j] == u) by {
                let j = choose|j: int| 0 <= j < acc@.len() && acc@[j] == u;
                if j < a0.len() {
                    assert(a0[j] == u);
                    assert(a0.contains(u));
                } else {
                    assert(u == t);
                    assert(add@[kold] == u);
                }
            }
            assert forall|u: MatchSpan|
                (old(acc)@.contains(u) || exists|j: int|
                    0 <= j < k && add@[j] == u) implies #[trigger] acc@.contains(u) by {
                if a0.contains(u) {
                    let j = choose|j: int| 0 <= j < a0.len() && a0[j] == u;
                    assert(acc@[j] == u);
                } else if old(acc)@.contains(u) {
                    assert(a0.contains(u));
                } else {
                    let j = choose|j: int| 0 <= j < k && add@[j] == u;
                    if j < kold {
                        assert(a0.contains(u));
                        let j2 = choose|j2: int| 0 <= j2 < a0.len() && a0[j2] == u;
                        assert(acc@[j2] == u);
                    } else {
                        assert(u == t);
                        if present {
                            assert(a0.contains(u));
                            let j2 = choose|j2: int| 0 <= j2 < a0.len() && a0[j2] == u;
                            assert(acc@[j2] == u);
                        } else {
                            assert(acc@[a0.len() as int] == u);
                        }
                    }
                }
            }
        }
    }
}

/// Merges the local result sets of independently scanned windows into one
/// deduplicated set: exactly the spans that some local set holds.
pub fn merge_matches(locals: &Vec<Vec<MatchSpan>>) -> (r: Vec<MatchSpan>)
    ensures
        no_dups(r@),
        forall|t: MatchSpan| #[trigger] r@.contains(t) <==> exists|i: int|
            0 <= i < locals@.len() && (#[trigger] locals@[i])@.contains(t),
{
    let mut acc: Vec<MatchSpan> = Vec::new();
    let mut i: usize = 0;
    while i < locals.len()
        invariant
            i <= locals@.len(),
            no_dups(acc@),
            forall|t: MatchSpan| #[trigger] acc@.contains(t) <==> exists|j: int|
                0 <= j < i && (#[trigger] locals@[j])@.contains(t),
        decreases locals@.len() - i,
    {
        let ghost a0 = acc@;
        let ghost iold = i as int;
        merge_into(&mut acc, &locals[i]);
        i = i + 1;
        proof {
            assert forall|t: MatchSpan| #[trigger] acc@.contains(t) implies exists|j: int|
                0 <= j < i && (#[trigger] locals@[j])@.contains(t) by {
                if a0.contains(t) {
                    let j = choose|j: int| 0 <= j < iold && (#[trigger] locals@[j])@.contains(t);
                    assert(locals@[j]@.contains(t));
                } else {
                    assert(locals@[iold]@.contains(t));
                }
            }
        }
    }
    acc
}

impl TextMatcher {
    /// Scans the window `[wstart, wend)` of `data` and reports its matches
    /// in corpus-global coordinates, each exactly once, keeping those the
    /// boundary filter accepts against the full corpus.
    pub fn scan_window(&self, data: &[u8], wstart: usize, wend: usize) -> (r: Vec<MatchSpan>)
        requires
            self.wf(),
            wstart <= wend,
            wend <= data@.len(),
        ensures
            forall|t: MatchSpan| #[trigger]
                r@.contains(t) <==> (found_in_window(self@, data@, wstart as int, wend as int, t)
                    && span_accepted(self@.whole_word, data@, t.start as int, t.end as int)),
            forall|k: int|
                0 <= k < r@.len() ==> span_sane(self@, data@.len() as int, #[trigger] r@[k]),
            no_dups(r@),
    {
        let window = slice_subrange(data, wstart, wend);
        let found = if self.overlapping() {
            self.find_overlapping(window)
        } else {
            self.find_exclusive(window)
        };
        proof {
            if !self@.overlapping {
                assert forall|i: int, j: int| 0 <= i < j < found@.len() implies found@[i]
                    != found@[j] by {
                    assert(found@[i].1 <= found@[j].0);
                    assert(occurs_at(
                        self@.patterns,
                        self@.case_insensitive,
                        window@,
                        found@[i].0 as int,
                        found@[i].1 as int,
                        found@[i].2 as int,
                    ));
                }
            }
        }
        let ghost ww = self@.whole_word;
        let mut r: Vec<MatchSpan> = Vec::new();
        let mut i: usize = 0;
        while i < found.len()
            invariant
                self.wf(),
                ww == self@.whole_word,
                wstart <= wend <= data@.len(),
                window@ == data@.subrange(wstart as int, wend as int),
                i <= found@.len(),
                no_dups(found@),
                forall|k: int|
                    0 <= k < found@.len() ==> occurs_at(
                        self@.patterns,
                        self@.case_insensitive,
                        window@,
                        (#[trigger] found@[k]).0 as int,
                        found@[k].1 as int,
                        found@[k].2 as int,
                    ),
                forall|t: MatchSpan| #[trigger] r@.contains(t) <==> exists|k: int|
                    0 <= k < i && #[trigger] window_entry(found@, k, wstart as int, ww, data@, t),
                forall|k: int|
                    0 <= k < r@.len() ==> span_sane(self@, data@.len() as int, #[trigger] r@[k]),
                no_dups(r@),
            decreases found@.len() - i,
        {
            let (ls, le, p) = found[i];
            proof {
                assert(occurs_at(
                    self@.patterns,
                    self@.case_insensitive,
                    window@,
                    ls as int,
                    le as int,
                    p as int,
                ));
            }
            let gs = wstart + ls;
            let ge = wstart + le;
            let ghost iold = i as int;
            let ghost r0 = r@;
            let ghost t = MatchSpan { start: gs, end: ge, pattern: p };
            let accepted = self.is_word_boundary_match(data, gs, ge);
            if accepted {
                proof {
                    if r0.contains(t) {
                        let k = choose|k: int|
                            0 <= k < iold && #[trigger] window_entry(
                                found@,
                                k,
                                wstart as int,
                                ww,
                                data@,
                                t,
                            );
                        assert(found@[k] == found@[iold]);
                        assert(false);
                    }
                }
                let m = MatchSpan { start: gs, end: ge, pattern: p };
                r.push(m);
            }
            i = i + 1;
            proof {
                assert forall|u: MatchSpan| #[trigger] r@.contains(u) implies exists|k: int|
                    0 <= k < i && #[trigger] window_entry(found@, k, wstart as int, ww, data@, u) by {
                    let j = choose|j: int| 0 <= j < r@.len() && r@[j] == u;
                    if j < r0.len() {
                        assert(r0[j] == u);
                        assert(r0.contains(u));
                    } else {
                        assert(u == t);
                        assert(window_entry(found@, iold, wstart as int, ww, data@, u));
                    }
                }
                assert forall|u: MatchSpan|
                    (exists|k: int|
                        0 <= k < i && #[trigger] window_entry(
                            found@,
                            k,
                            wstart as int,
                            ww,
                            data@,
                            u,
                        )) implies #[trigger] r@.contains(u) by {
                    let k = choose|k: int|
                        0 <= k < i && #[trigger] window_entry(found@, k, wstart as int, ww, data@, u);
                    if k < iold {
                        assert(r0.contains(u));
                        let j = choose|j: int| 0 <= j < r0.len() && r0[j] == u;
                        assert(r@[j] == u);
                    } else {
                        assert(found@[k] == (ls, le, p));
                        assert(u.start - wstart == ls && u.end - wstart == le && u.pattern == p);
                        assert(u.start == gs && u.end == ge);
                        assert(u == t);
                        assert(accepted);
                        assert(r@[r0.len() as int] == u);
                    }
                }
            }
        }
        proof {
            assert forall|t: MatchSpan| #[trigger]
                r@.contains(t) <==> (found_in_window(self@, data@, wstart as int, wend as int, t)
                    && span_accepted(self@.whole_word, data@, t.start as int, t.end as int)) by {
                if r@.contains(t) {
                    let k = choose|k: int|
                        0 <= k < found@.len() && #[trigger] window_entry(
                            found@,
                            k,
                            wstart as int,
                            ww,
                            data@,
                            t,
                        );
                    assert(occurs_at(
                        self@.patterns,
                        self@.case_insensitive,
                        window@,
                        t.start - wstart,
                        t.end - wstart,
                        t.pattern as int,
                    ));
                    lemma_occurs_shift(
                        self@.patterns,
                        self@.case_insensitive,
                        data@,
                        wstart as int,
                        wend as int,
                        t.start - wstart,
                        t.end - wstart,
                        t.pattern as int,
                    );
                    if !self@.overlapping {
                        assert(exclusive_matches(
                            self@.patterns,
                            self@.case_insensitive,
                            data@.subrange(wstart as int, wend as int),
                        ).contains(
                            (((t.start - wstart) as usize, (t.end - wstart) as usize, t.pattern)),
                        ));
                    }
                } else {
                    if found_in_window(self@, data@, wstart as int, wend as int, t)
                        && span_accepted(self@.whole_word, data@, t.start as int, t.end as int) {
                        lemma_occurs_shift(
                            self@.patterns,
                            self@.case_insensitive,
                            data@,
                            wstart as int,
                            wend as int,
                            t.start - wstart,
                            t.end - wstart,
                            t.pattern as int,
                        );
                        let triple = (
                            (t.start - wstart) as usize,
                            (t.end - wstart) as usize,
                            t.pattern,
                        );
                        assert(found@.contains(triple));
                        let k = choose|k: int| 0 <= k < found@.len() && found@[k] == triple;
                        assert(window_entry(found@, k, wstart as int, ww, data@, t));
                        assert(false);
                    }
                }
            }
        }
        r
    }

    /// Scans the corpus line by line: each line's bytes are scanned on
    /// their own, and its matches are reported under the 1-based line
    /// number with offsets relative to the line start.  A pattern instance
    /// that straddles a line terminator is not found by this strategy.
    pub fn match_lines(&self, data: &[u8]) -> (r: Vec<LineMatch>)
        requires
            self.wf(),
        ensures
            forall|t: LineMatch| #[trigger] r@.contains(t) <==> line_match(self@, data@, t),
            forall|k: int| 0 <= k < r@.len() ==> line_span_sane(self@, data@, #[trigger] r@[k]),
            no_dups(r@),
    {
        let ghost lines = line_ranges(data@, 0);
        let mut r: Vec<LineMatch> = Vec::new();
        let mut pos: usize = 0;
        let mut ln: usize = 0;
        while pos < data.len()
            invariant
                self.wf(),
                pos <= data@.len(),
                ln as int <= pos as int,
                lines == line_ranges(data@, 0),
                0 <= ln as int <= lines.len(),
                line_ranges(data@, pos as int) == lines.skip(ln as int),
                forall|t: LineMatch| #[trigger]
                    r@.contains(t) <==> line_entry(self@, data@, lines, ln as int, t),
                forall|k: int| 0 <= k < r@.len() ==> line_span_sane(self@, data@, #[trigger] r@[k]),
                no_dups(r@),
            decreases data@.len() - pos,
        {
            proof {
                lemma_lines_step(lines, ln as int, pos as int, data@);
            }
            let le = find_line_end(data, pos);
            let line = slice_subrange(data, pos, le);
            let lm = self.match_bytes(line);
            let ghost lnold = ln as int;
            ln = ln + 1;
            let mut j: usize = 0;
            while j < lm.len()
                invariant
                    self.wf(),
                    j <= lm@.len(),
                    1 <= ln as int <= lines.len(),
                    lines == line_ranges(data@, 0),
                    lnold == ln - 1,
                    no_dups(lm@),
                    pos as int <= le as int <= data@.len(),
                    lines[ln - 1] == (pos as int, le as int),
                    line@ == data@.subrange(pos as int, le as int),
                    forall|u: MatchSpan| #[trigger]
                        lm@.contains(u) <==> buffer_match(self@, line@, u),
                    forall|t: LineMatch| #[trigger] r@.contains(t) <==> (line_entry(
                        self@,
                        data@,
                        lines,
                        lnold,
                        t,
                    ) || (t.line == ln && exists|k: int|
                        0 <= k < j && lm@[k] == MatchSpan {
                            start: t.start,
                            end: t.end,
                            pattern: t.pattern,
                        })),
                    forall|k: int|
                        0 <= k < lm@.len() ==> span_sane(self@, line@.len() as int, #[trigger] lm@[k]),
                    forall|k: int|
                        0 <= k < r@.len() ==> line_span_sane(self@, data@, #[trigger] r@[k]),
                    no_dups(r@),
                decreases lm@.len() - j,
            {
                let mv = lm[j];
                let t = LineMatch { line: ln, start: mv.start, end: mv.end, pattern: mv.pattern };
                let ghost jold = j as int;
                let ghost rr0 = r@;
                proof {
                    if r@.contains(t) {
                        if line_entry(self@, data@, lines, lnold, t) {
                            assert(t.line <= lnold);
                            assert(false);
                        } else {
                            let k = choose|k: int|
                                0 <= k < jold && lm@[k] == MatchSpan {
                                    start: t.start,
                                    end: t.end,
                                    pattern: t.pattern,
                                };
                            assert(lm@[k] == lm@[jold]);
                            assert(false);
                        }
                    }
                }
                r.push(t);
                j = j + 1;
                proof {
                    assert(span_sane(self@, line@.len() as int, lm@[jold]));
                    assert(line@.len() == le - pos);
                    assert(line_span_sane(self@, data@, t));
                    assert forall|u: LineMatch| #[trigger] r@.contains(u) implies (line_entry(
                        self@,
                        data@,
                        lines,
                        lnold,
                        u,
                    ) || (u.line == ln && exists|k: int|
                        0 <= k < j && lm@[k] == MatchSpan {
                            start: u.start,
                            end: u.end,
                            pattern: u.pattern,
                        })) by {
                        let q = choose|q: int| 0 <= q < r@.len() && r@[q] == u;
                        if q < rr0.len() {
                            assert(rr0[q] == u);
                            assert(rr0.contains(u));
                        } else {
                            assert(u == t);
                            assert(lm@[jold] == MatchSpan {
                                start: u.start,
                                end: u.end,
                                pattern: u.pattern,
                            });
                        }
                    }
                    assert forall|u: LineMatch|
                        (line_entry(self@, data@, lines, lnold, u) || (u.line == ln && exists|
                            k: int,
                        |
                            0 <= k < j && lm@[k] == MatchSpan {
                                start: u.start,
                                end: u.end,
                                pattern: u.pattern,
                            })) implies #[trigger] r@.contains(u) by {
                        if line_entry(self@, data@, lines, lnold, u) {
                            assert(rr0.contains(u));
                            let q = choose|q: int| 0 <= q < rr0.len() && rr0[q] == u;
                            assert(r@[q] == u);
                        } else {
                            let k = choose|k: int|
                                0 <= k < j && lm@[k] == MatchSpan {
                                    start: u.start,
                                    end: u.end,
                                    pattern: u.pattern,
                                };
                            if k < jold {
                                assert(rr0.contains(u));
                                let q = choose|q: int| 0 <= q < rr0.len() && rr0[q] == u;
                                assert(r@[q] == u);
                            } else {
                                assert(lm@[k] == mv);
                                assert(u.start == mv.start && u.end == mv.end && u.pattern
                                    == mv.pattern);
                                assert(u == t);
                                assert(r@[rr0.len() as int] == u);
                            }
                        }
                    }
                }
            }
            pos = le;
            proof {
                assert forall|t: LineMatch| #[trigger]
                    r@.contains(t) <==> line_entry(self@, data@, lines, ln as int, t) by {
                    if r@.contains(t) {
                        if !line_entry(self@, data@, lines, lnold, t) {
                            let k = choose|k: int|
                                0 <= k < lm@.len() && lm@[k] == MatchSpan {
                                    start: t.start,
                                    end: t.end,
                                    pattern: t.pattern,
                                };
                            assert(lm@.contains(MatchSpan {
                                start: t.start,
                                end: t.end,
                                pattern: t.pattern,
                            }));
                        }
                    } else {
                        if line_entry(self@, data@, lines, ln as int, t) {
                            if t.line <= lnold {
                                assert(line_entry(self@, data@, lines, lnold, t));
                                assert(false);
                            } else {
                                assert(t.line == ln);
                                assert(buffer_match(
                                    self@,
                                    line@,
                                    MatchSpan { start: t.start, end: t.end, pattern: t.pattern },
                                ));
                                assert(lm@.contains(MatchSpan {
                                    start: t.start,
                                    end: t.end,
                                    pattern: t.pattern,
                                }));
                                let k = choose|k: int|
                                    0 <= k < lm@.len() && lm@[k] == MatchSpan {
                                        start: t.start,
                                        end: t.end,
                                        pattern: t.pattern,
                                    };
                                assert(false);
                            }
                        }
                    }
                }
            }
        }
        proof {
            assert(lines.skip(ln as int).len() == 0);
            assert(ln as int == lines.len());
        }
        r
    }

    /// The ordered sequence of overlapping windows that a chunked scan of a
    /// corpus of `corpus_len` bytes works through: each window covers its
    /// chunk plus the overlap, and consecutive windows start `chunk_size`
    /// bytes apart.
    pub fn plan_windows(&self, corpus_len: usize, chunk_size: usize) -> (r: Vec<(usize, usize)>)
        requires
            self.wf(),
            chunk_size >= 1,
        ensures
            ({
                let plan = plan_seq(
                    0,
                    corpus_len as int,
                    chunk_size as int,
                    self@.overlap(),
                );
                &&& r@.len() == plan.len()
                &&& forall|i: int|
                    0 <= i < r@.len() ==> ((#[trigger] r@[i]).0 as int, r@[i].1 as int) == plan[i]
            }),
    {
        let n = corpus_len;
        let ov = self.max_pattern_len() - 1;
        let ghost plan = plan_seq(0, n as int, chunk_size as int, self@.overlap());
        let mut r: Vec<(usize, usize)> = Vec::new();
        let mut offset: usize = 0;
        let ghost mut g: int = 0;
        while offset < n
            invariant
                self.wf(),
                ov as int == self@.overlap(),
                chunk_size >= 1,
                plan == plan_seq(0, n as int, chunk_size as int, self@.overlap()),
                0 <= g <= plan.len(),
                offset <= n,
                plan_seq(offset as int, n as int, chunk_size as int, self@.overlap())
                    == plan.skip(g),
                r@.len() == g,
                forall|i: int|
                    0 <= i < g ==> ((#[trigger] r@[i]).0 as int, r@[i].1 as int) == plan[i],
            decreases n - offset,
        {
            let wmid = add_capped(offset, chunk_size, n);
            let wend = add_capped(wmid, ov, n);
            proof {
                crate::model::lemma_plan_step(
                    plan,
                    g,
                    offset as int,
                    n as int,
                    chunk_size as int,
                    self@.overlap(),
                );
                assert(plan[g] == (offset as int, wend as int));
            }
            r.push((offset, wend));
            let ghost gold = g;
            proof {
                g = g + 1;
            }
            if wend >= n {
                offset = n;
                proof {
                    assert(plan[gold].1 == n as int);
                    assert(g == plan.len());
                    assert(plan.skip(g) =~= plan_seq(
                        offset as int,
                        n as int,
                        chunk_size as int,
                        self@.overlap(),
                    ));
                }
            } else {
                offset = offset + chunk_size;
                proof {
                    assert(plan[gold].1 != n as int);
                    assert(plan.skip(g) == plan_seq(
                        offset as int,
                        n as int,
                        chunk_size as int,
                        self@.overlap(),
                    ));
                }
            }
        }
        proof {
            assert(plan.skip(g).len() == 0);
            assert(g == plan.len());
        }
        r
    }

    /// Scans `data` window by window, translating every window's matches to
    /// corpus-global coordinates, filtering on boundaries taken from the
    /// full corpus, and suppressing the duplicates that arise in the
    /// overlap between consecutive windows.
    pub fn match_chunked(&self, data: &[u8], chunk_size: usize) -> (r: Vec<MatchSpan>)
        requires
            self.wf(),
            chunk_size >= 1,
        ensures
            forall|t: MatchSpan| #[trigger]
                r@.contains(t) <==> chunked_match(self@, data@, chunk_size as int, t),
            forall|k: int|
                0 <= k < r@.len() ==> span_sane(self@, data@.len() as int, #[trigger] r@[k]),
            no_dups(r@),
    {
        let n = data.len();
        let ov = self.max_pattern_len() - 1;
        let ghost plan = plan_seq(0, n as int, chunk_size as int, self@.overlap());
        let mut r: Vec<MatchSpan> = Vec::new();
        let mut offset: usize = 0;
        let ghost mut g: int = 0;
        while offset < n
            invariant
                self.wf(),
                ov as int == self@.overlap(),
                chunk_size >= 1,
                n == data@.len(),
                plan == plan_seq(0, n as int, chunk_size as int, self@.overlap()),
                0 <= g <= plan.len(),
                offset <= n,
                plan_seq(offset as int, n as int, chunk_size as int, self@.overlap())
                    == plan.skip(g),
                forall|t: MatchSpan| #[trigger] r@.contains(t) <==> exists|wi: int|
                    0 <= wi < g && found_in_window(
                        self@,
                        data@,
                        (#[trigger] plan[wi]).0,
                        plan[wi].1,
                        t,
                    ) && span_accepted(self@.whole_word, data@, t.start as int, t.end as int),
                forall|k: int|
                    0 <= k < r@.len() ==> span_sane(self@, data@.len() as int, #[trigger] r@[k]),
                no_dups(r@),
            decreases n - offset,
        {
            let wmid = add_capped(offset, chunk_size, n);
            let wend = add_capped(wmid, ov, n);
            proof {
                crate::model::lemma_plan_step(
                    plan,
                    g,
                    offset as int,
                    n as int,
                    chunk_size as int,
                    self@.overlap(),
                );
                assert(plan[g] == (offset as int, wend as int));
            }
            let locals = self.scan_window(data, offset, wend);
            let ghost r0 = r@;
            let ghost gold = g;
            merge_into(&mut r, &locals);
            proof {
                g = g + 1;
                assert forall|k: int| 0 <= k < r@.len() implies span_sane(
                    self@,
                    data@.len() as int,
                    #[trigger] r@[k],
                ) by {
                    assert(r@.contains(r@[k]));
                    if r0.contains(r@[k]) {
                        let j = choose|j: int| 0 <= j < r0.len() && r0[j] == r@[k];
                        assert(span_sane(self@, data@.len() as int, r0[j]));
                    } else {
                        assert(locals@.contains(r@[k]));
                        let j = choose|j: int| 0 <= j < locals@.len() && locals@[j] == r@[k];
                        assert(span_sane(self@, data@.len() as int, locals@[j]));
                    }
                }
                assert forall|t: MatchSpan| #[trigger] r@.contains(t) implies exists|wi: int|
                    0 <= wi < g && found_in_window(
                        self@,
                        data@,
                        (#[trigger] plan[wi]).0,
                        plan[wi].1,
                        t,
                    ) && span_accepted(self@.whole_word, data@, t.start as int, t.end as int) by {
                    if r0.contains(t) {
                        let wi = choose|wi: int|
                            0 <= wi < gold && found_in_window(
                                self@,
                                data@,
                                (#[trigger] plan[wi]).0,
                                plan[wi].1,
                                t,
                            ) && span_accepted(
                                self@.whole_word,
                                data@,
                                t.start as int,
                                t.end as int,
                            );
                        assert(found_in_window(self@, data@, plan[wi].0, plan[wi].1, t));
                    } else {
                        assert(locals@.contains(t));
                        assert(found_in_window(self@, data@, plan[gold].0, plan[gold].1, t));
                    }
                }
                assert forall|t: MatchSpan|
                    (exists|wi: int|
                        0 <= wi < g && found_in_window(
                            self@,
                            data@,
                            (#[trigger] plan[wi]).0,
                            plan[wi].1,
                            t,
                        ) && span_accepted(
                            self@.whole_word,
                            data@,
                            t.start as int,
                            t.end as int,
                        )) implies #[trigger] r@.contains(t) by {
                    let wi = choose|wi: int|
                        0 <= wi < g && found_in_window(
                            self@,
                            data@,
                            (#[trigger] plan[wi]).0,
                            plan[wi].1,
                            t,
                        ) && span_accepted(self@.whole_word, data@, t.start as int, t.end as int);
                    if wi < gold {
                        assert(r0.contains(t));
                    } else {
                        assert(locals@.contains(t));
                    }
                }
            }
            if wend >= n {
                offset = n;
                proof {
                    assert(plan[gold].1 == n as int);
                    assert(g == plan.len());
                    assert(plan.skip(g) =~= plan_seq(
                        offset as int,
                        n as int,
                        chunk_size as int,
                        self@.overlap(),
                    ));
                }
            } else {
                offset = offset + chunk_size;
                proof {
                    assert(plan[gold].1 != n as int);
                    assert(plan.skip(g) == plan_seq(
                        offset as int,
                        n as int,
                        chunk_size as int,
                        self@.overlap(),
                    ));
                }
            }
        }
        proof {
            assert(plan.skip(g).len() == 0);
            assert(g == plan.len());
            assert forall|t: MatchSpan| #[trigger]
                r@.contains(t) <==> chunked_match(self@, data@, chunk_size as int, t) by {
                if r@.contains(t) {
                    let wi = choose|wi: int|
                        0 <= wi < g && found_in_window(
                            self@,
                            data@,
                            (#[trigger] plan[wi]).0,
                            plan[wi].1,
                            t,
                        ) && span_accepted(self@.whole_word, data@, t.start as int, t.end as int);
                    assert(found_in_window(self@, data@, plan[wi].0, plan[wi].1, t));
                } else {
                    if chunked_match(self@, data@, chunk_size as int, t) {
                        let wi = choose|wi: int|
                            0 <= wi < plan.len() && found_in_window(
                                self@,
                                data@,
                                (#[trigger] plan[wi]).0,
                                plan[wi].1,
                                t,
                            );
                        assert(found_in_window(self@, data@, plan[wi].0, plan[wi].1, t)
                            && span_accepted(
                            self@.whole_word,
                            data@,
                            t.start as int,
                            t.end as int,
                        ));
                        assert(false);
                    }
                }
            }
        }
        r
    }
}

} // verus!
