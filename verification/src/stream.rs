//! The streaming strategy: the corpus arrives in bounded buffers, a suffix
//! of what came before is retained as context, and each buffer is scanned
//! together with that retained suffix so that no match is lost at a buffer
//! seam.

use vstd::prelude::*;
use vstd::slice::slice_subrange;

use crate::engine::{add_capped, merge_into};
use crate::matcher::TextMatcher;
use crate::model::{
    lemma_stream_entry_local, lemma_stream_step, lemma_stream_window_extend, no_dups, occurs_at,
    span_accepted, span_sane, stream_match, stream_window_entry, stream_window_start,
    stream_windows, window_local_entry, MatchSpan, MatcherModel,
};

verus! {

/// Appends the bytes of `src` to `dst`.
fn append_bytes(dst: &mut Vec<u8>, src: &[u8])
    ensures
        final(dst)@ == old(dst)@ + src@,
{
    proof {
        assert(old(dst)@ + src@.subrange(0, 0) =~= old(dst)@);
    }
    let mut i: usize = 0;
    while i < src.len()
        invariant
            i <= src@.len(),
            dst@ == old(dst)@ + src@.subrange(0, i as int),
        decreases src@.len() - i,
    {
        dst.push(src[i]);
        i = i + 1;
        proof {
            assert(dst@ =~= old(dst)@ + src@.subrange(0, i as int));
        }
    }
    proof {
        assert(src@.subrange(0, src@.len() as int) =~= src@);
    }
}

/// A fresh vector holding the bytes of `v` from index `from` on.
fn suffix_bytes(v: &Vec<u8>, from: usize) -> (r: Vec<u8>)
    requires
        from <= v@.len(),
    ensures
        r@ == v@.subrange(from as int, v@.len() as int),
{
    let mut r: Vec<u8> = Vec::new();
    let mut i: usize = from;
    while i < v.len()
        invariant
            from <= i <= v@.len(),
            r@ == v@.subrange(from as int, i as int),
        decreases v@.len() - i,
    {
        r.push(v[i]);
        i = i + 1;
        proof {
            assert(r@ =~= v@.subrange(from as int, i as int));
        }
    }
    r
}

/// The match `t` is the `k`-th raw result of scanning a stream window
/// whose bytes begin at stream offset `base`, shifted to stream-global
/// coordinates and accepted by the boundary filter over the window alone.
spec fn stream_scan_entry(
    found: Seq<(usize, usize, usize)>,
    k: int,
    base: int,
    ww: bool,
    window: Seq<u8>,
    t: MatchSpan,
) -> bool {
    &&& found[k] == (((t.start - base) as usize, (t.end - base) as usize, t.pattern))
    &&& base <= t.start
    &&& t.start <= t.end
    &&& span_accepted(ww, window, t.start - base, t.end - base)
}

impl TextMatcher {
    /// Scans the bytes of one combined stream window, whose first byte
    /// sits at stream offset `base`: reports each of its matches exactly
    /// once, in stream-global coordinates, keeping those the boundary
    /// filter accepts against the window's own bytes.
    fn scan_stream_window(&self, window: &[u8], base: usize) -> (r: Vec<MatchSpan>)
        requires
            self.wf(),
            base + window@.len() <= usize::MAX,
        ensures
            forall|t: MatchSpan| #[trigger]
                r@.contains(t) <==> window_local_entry(self@, window@, base as int, t),
            forall|k: int|
                0 <= k < r@.len() ==> span_sane(self@, base + window@.len(), #[trigger] r@[k]),
            no_dups(r@),
    {
        let found = if self.overlapping() {
            self.find_overlapping(window)
        } else {
            self.find_exclusive(window)
        };
        proof {
            if !self@.overlapping {
                assert forall|i: int, j: int| 0 <= i < j < found@.len() implies found@[i]
                    != found@[j] by {
                    assert(found@[i].1 <= found@[j].0);
                    assert(occurs_at(
                        self@.patterns,
                        self@.case_insensitive,
                        window@,
                        found@[i].0 as int,
                        found@[i].1 as int,
                        found@[i].2 as int,
                    ));
                }
            }
        }
        let ghost ww = self@.whole_word;
        let mut r: Vec<MatchSpan> = Vec::new();
        let mut i: usize = 0;
        while i < found.len()
            invariant
                self.wf(),
                ww == self@.whole_word,
                base + window@.len() <= usize::MAX,
                i <= found@.len(),
                no_dups(found@),
                forall|k: int|
                    0 <= k < found@.len() ==> occurs_at(
                        self@.patterns,
                        self@.case_insensitive,
                        window@,
                        (#[trigger] found@[k]).0 as int,
                        found@[k].1 as int,
                        found@[k].2 as int,
                    ),
                forall|t: MatchSpan| #[trigger] r@.contains(t) <==> exists|k: int|
                    0 <= k < i && #[trigger] stream_scan_entry(
                        found@,
                        k,
                        base as int,
                        ww,
                        window@,
                        t,
                    ),
                forall|k: int|
                    0 <= k < r@.len() ==> span_sane(self@, base + window@.len(), #[trigger] r@[k]),
                no_dups(r@),
            decreases found@.len() - i,
        {
            let (ls, le, p) = found[i];
            proof {
                assert(occurs_at(
                    self@.patterns,
                    self@.case_insensitive,
                    window@,
                    ls as int,
                    le as int,
                    p as int,
                ));
            }
            let gs = base + ls;
            let ge = base + le;
            let ghost iold = i as int;
            let ghost r0 = r@;
            let ghost t = MatchSpan { start: gs, end: ge, pattern: p };
            let accepted = self.is_word_boundary_match(window, ls, le);
            if accepted {
                proof {
                    if r0.contains(t) {
                        let k = choose|k: int|
                            0 <= k < iold && #[trigger] stream_scan_entry(
                                found@,
                                k,
                                base as int,
                                ww,
                                window@,
                                t,
                            );
                        assert(found@[k] == found@[iold]);
                        assert(false);
                    }
                }
                let m = MatchSpan { start: gs, end: ge, pattern: p };
                r.push(m);
            }
            i = i + 1;
            proof {
                assert forall|u: MatchSpan| #[trigger] r@.contains(u) implies exists|k: int|
                    0 <= k < i && #[trigger] stream_scan_entry(
                        found@,
                        k,
                        base as int,
                        ww,
                        window@,
                        u,
                    ) by {
                    let j = choose|j: int| 0 <= j < r@.len() && r@[j] == u;
                    if j < r0.len() {
                        assert(r0[j] == u);
                        assert(r0.contains(u));
                    } else {
                        assert(u == t);
                        assert(stream_scan_entry(found@, iold, base as int, ww, window@, u));
                    }
                }
                assert forall|u: MatchSpan|
                    (exists|k: int|
                        0 <= k < i && #[trigger] stream_scan_entry(
                            found@,
                            k,
                            base as int,
                            ww,
                            window@,
                            u,
                        )) implies #[trigger] r@.contains(u) by {
                    let k = choose|k: int|
                        0 <= k < i && #[trigger] stream_scan_entry(
                            found@,
                            k,
                            base as int,
                            ww,
                            window@,
                            u,
                        );
                    if k < iold {
                        assert(r0.contains(u));
                        let j = choose|j: int| 0 <= j < r0.len() && r0[j] == u;
                        assert(r@[j] == u);
                    } else {
                        assert(found@[k] == (ls, le, p));
                        assert(u.start - base == ls && u.end - base == le && u.pattern == p);
                        assert(u == t);
                        assert(accepted);
                        assert(r@[r0.len() as int] == u);
                    }
                }
            }
        }
        proof {
            assert forall|t: MatchSpan| #[trigger]
                r@.contains(t) <==> window_local_entry(self@, window@, base as int, t) by {
                if r@.contains(t) {
                    let k = choose|k: int|
                        0 <= k < found@.len() && #[trigger] stream_scan_entry(
                            found@,
                            k,
                            base as int,
                            ww,
                            window@,
                            t,
                        );
                    assert(occurs_at(
                        self@.patterns,
                        self@.case_insensitive,
                        window@,
                        t.start - base,
                        t.end - base,
                        t.pattern as int,
                    ));
                } else {
                    if window_local_entry(self@, window@, base as int, t) {
                        let triple = ((t.start - base) as usize, (t.end - base) as usize, t.pattern);
                        assert(found@.contains(triple));
                        let k = choose|k: int| 0 <= k < found@.len() && found@[k] == triple;
                        assert(stream_scan_entry(found@, k, base as int, ww, window@, t));
                        assert(false);
                    }
                }
            }
        }
        r
    }
}

/// The streaming scanner: consumes a corpus buffer by buffer, retaining up
/// to `overlap` bytes of context between buffers, and accumulates the
/// deduplicated matches of every combined window it has scanned.
pub struct StreamScanner {
    retained: Vec<u8>,
    consumed_len: usize,
    results: Vec<MatchSpan>,
    cfg: Ghost<MatcherModel>,
    consumed: Ghost<Seq<u8>>,
}

impl StreamScanner {
    /// The configuration of the matcher this scanner was made for.
    pub closed spec fn cfg(&self) -> MatcherModel {
        self.cfg@
    }

    /// All bytes consumed so far, oldest first.
    pub closed spec fn consumed(&self) -> Seq<u8> {
        self.consumed@
    }

    /// The matches accumulated so far, in discovery order.
    pub closed spec fn matches_view(&self) -> Seq<MatchSpan> {
        self.results@
    }

    /// The scanner's internal state is consistent: the retained bytes are
    /// the right-sized suffix of what was consumed, and no match is held
    /// twice.
    pub closed spec fn wf(&self) -> bool {
        &&& self.cfg@.wf()
        &&& self.consumed@.len() == self.consumed_len as int
        &&& self.retained@.len() == (if self.cfg@.overlap() <= self.consumed@.len() {
            self.cfg@.overlap()
        } else {
            self.consumed@.len() as int
        })
        &&& self.retained@ == self.consumed@.subrange(
            self.consumed@.len() - self.retained@.len(),
            self.consumed@.len() as int,
        )
        &&& forall|k: int|
            0 <= k < self.results@.len() ==> span_sane(
                self.cfg@,
                self.consumed@.len() as int,
                #[trigger] self.results@[k],
            )
        &&& no_dups(self.results@)
    }

    /// A fresh scanner for the given matcher: nothing consumed, nothing
    /// found.
    pub fn new(m: &TextMatcher) -> (s: StreamScanner)
        requires
            m.wf(),
        ensures
            s.wf(),
            s.cfg() == m@,
            s.consumed() == Seq::<u8>::empty(),
            s.matches_view() == Seq::<MatchSpan>::empty(),
    {
        let s = StreamScanner {
            retained: Vec::new(),
            consumed_len: 0,
            results: Vec::new(),
            cfg: Ghost(m@),
            consumed: Ghost(Seq::empty()),
        };
        proof {
            assert(s.retained@ =~= s.consumed@.subrange(0, 0));
        }
        s
    }

    /// Consumes one buffer: scans it together with the retained context,
    /// adds the window's matches that were not already known, and keeps
    /// the new context for the next buffer.
    pub fn push_chunk(&mut self, m: &TextMatcher, chunk: &[u8])
        requires
            old(self).wf(),
            m.wf(),
            m@ == old(self).cfg(),
            old(self).consumed().len() + chunk@.len() <= usize::MAX,
        ensures
            final(self).wf(),
            final(self).cfg() == old(self).cfg(),
            final(self).consumed() == old(self).consumed() + chunk@,
            no_dups(final(self).matches_view()),
            forall|k: int|
                0 <= k < final(self).matches_view().len() ==> span_sane(
                    final(self).cfg(),
                    final(self).consumed().len() as int,
                    #[trigger] final(self).matches_view()[k],
                ),
            forall|t: MatchSpan| #[trigger]
                final(self).matches_view().contains(t) <==> (old(self).matches_view().contains(t)
                    || stream_window_entry(
                    old(self).cfg(),
                    old(self).consumed() + chunk@,
                    (
                        stream_window_start(
                            old(self).consumed().len() as int,
                            old(self).cfg().overlap(),
                        ),
                        (old(self).consumed() + chunk@).len() as int,
                    ),
                    t,
                )),
    {
        let ghost c0 = self.consumed@;
        let ghost cnew = c0 + chunk@;
        let ghost cfgv = self.cfg@;
        let base = self.consumed_len - self.retained.len();
        let mut combined: Vec<u8> = Vec::new();
        append_bytes(&mut combined, self.retained.as_slice());
        append_bytes(&mut combined, chunk);
        proof {
            assert(combined@ == self.retained@ + chunk@);
            assert(combined@ =~= cnew.subrange(base as int, cnew.len() as int));
            assert(base as int == stream_window_start(c0.len() as int, cfgv.overlap()));
        }
        let newly = m.scan_stream_window(combined.as_slice(), base);
        let ghost r0 = self.results@;
        merge_into(&mut self.results, &newly);
        let ov = m.max_pattern_len() - 1;
        let keep = if combined.len() > ov {
            ov
        } else {
            combined.len()
        };
        let new_retained = suffix_bytes(&combined, combined.len() - keep);
        self.retained = new_retained;
        self.consumed_len = self.consumed_len + chunk.len();
        self.consumed = Ghost(cnew);
        proof {
            assert(self.retained@ =~= cnew.subrange(cnew.len() - keep, cnew.len() as int));
            assert forall|k: int| 0 <= k < self.results@.len() implies span_sane(
                cfgv,
                cnew.len() as int,
                #[trigger] self.results@[k],
            ) by {
                assert(self.results@.contains(self.results@[k]));
                if r0.contains(self.results@[k]) {
                    let j = choose|j: int| 0 <= j < r0.len() && r0[j] == self.results@[k];
                    assert(span_sane(cfgv, c0.len() as int, r0[j]));
                } else {
                    assert(newly@.contains(self.results@[k]));
                    let j = choose|j: int| 0 <= j < newly@.len() && newly@[j] == self.results@[k];
                    assert(span_sane(cfgv, base + combined@.len(), newly@[j]));
                }
            }
            assert(self.wf());
            assert forall|t: MatchSpan| #[trigger]
                self.results@.contains(t) <==> (r0.contains(t) || stream_window_entry(
                    cfgv,
                    cnew,
                    (stream_window_start(c0.len() as int, cfgv.overlap()), cnew.len() as int),
                    t,
                )) by {
                lemma_stream_entry_local(cfgv, cnew, base as int, cnew.len() as int, t);
            }
        }
    }

    /// Hands back everything found, in discovery order.
    pub fn finish(self) -> (r: Vec<MatchSpan>)
        ensures
            r@ == self.matches_view(),
    {
        self.results
    }
}

impl TextMatcher {
    /// Scans `data` as a stream consumed in buffers of `buffer_size`
    /// bytes: each buffer is combined with the retained suffix of what
    /// came before it, matches are translated to stream-global
    /// coordinates, and seam duplicates are suppressed.
    pub fn match_stream(&self, data: &[u8], buffer_size: usize) -> (r: Vec<MatchSpan>)
        requires
            self.wf(),
            buffer_size >= 1,
        ensures
            forall|t: MatchSpan| #[trigger]
                r@.contains(t) <==> stream_match(self@, data@, buffer_size as int, t),
            forall|k: int|
                0 <= k < r@.len() ==> span_sane(self@, data@.len() as int, #[trigger] r@[k]),
            no_dups(r@),
    {
        let n = data.len();
        let ghost sw = stream_windows(0, n as int, buffer_size as int, self@.overlap());
        let mut sc = StreamScanner::new(self);
        let mut pos: usize = 0;
        let ghost mut g: int = 0;
        proof {
            assert(data@.take(0) =~= Seq::<u8>::empty());
        }
        while pos < n
            invariant
                self.wf(),
                n == data@.len(),
                buffer_size >= 1,
                sw == stream_windows(0, n as int, buffer_size as int, self@.overlap()),
                0 <= g <= sw.len(),
                pos <= n,
                stream_windows(pos as int, n as int, buffer_size as int, self@.overlap())
                    == sw.skip(g),
                sc.wf(),
                sc.cfg() == self@,
                sc.consumed() == data@.take(pos as int),
                forall|t: MatchSpan| #[trigger] sc.matches_view().contains(t) <==> exists|wi: int|
                    0 <= wi < g && stream_window_entry(self@, data@, (#[trigger] sw[wi]), t),
                forall|k: int|
                    0 <= k < sc.matches_view().len() ==> span_sane(
                        self@,
                        pos as int,
                        #[trigger] sc.matches_view()[k],
                    ),
                no_dups(sc.matches_view()),
            decreases n - pos,
        {
            let end = add_capped(pos, buffer_size, n);
            let chunk = slice_subrange(data, pos, end);
            let ghost posold = pos as int;
            let ghost gold = g;
            let ghost r0 = sc.matches_view();
            proof {
                lemma_stream_step(sw, g, pos as int, n as int, buffer_size as int, self@.overlap());
            }
            sc.push_chunk(self, chunk);
            pos = end;
            proof {
                g = g + 1;
                let h1 = data@.take(posold) + chunk@;
                assert(h1 =~= data@.take(end as int));
                assert(h1.len() == end as int);
                let ws = stream_window_start(posold, self@.overlap());
                assert(sw[gold] == (ws, end as int));
                assert forall|t: MatchSpan| #[trigger] sc.matches_view().contains(t) implies exists|
                    wi: int,
                |
                    0 <= wi < g && stream_window_entry(self@, data@, (#[trigger] sw[wi]), t) by {
                    if r0.contains(t) {
                        let wi = choose|wi: int|
                            0 <= wi < gold && stream_window_entry(
                                self@,
                                data@,
                                (#[trigger] sw[wi]),
                                t,
                            );
                        assert(stream_window_entry(self@, data@, sw[wi], t));
                    } else {
                        assert(stream_window_entry(self@, h1, (ws, end as int), t));
                        assert(h1.subrange(ws, end as int) =~= data@.subrange(ws, end as int));
                        lemma_stream_window_extend(self@, h1, data@, ws, end as int, t);
                        assert(stream_window_entry(self@, data@, sw[gold], t));
                    }
                }
                assert forall|t: MatchSpan|
                    (exists|wi: int|
                        0 <= wi < g && stream_window_entry(
                            self@,
                            data@,
                            (#[trigger] sw[wi]),
                            t,
                        )) implies #[trigger] sc.matches_view().contains(t) by {
                    let wi = choose|wi: int|
                        0 <= wi < g && stream_window_entry(self@, data@, (#[trigger] sw[wi]), t);
                    if wi < gold {
                        assert(r0.contains(t));
                    } else {
                        assert(stream_window_entry(self@, data@, (ws, end as int), t));
                        assert(h1.subrange(ws, end as int) =~= data@.subrange(ws, end as int));
                        lemma_stream_window_extend(self@, h1, data@, ws, end as int, t);
                        assert(stream_window_entry(self@, h1, (ws, end as int), t));
                    }
                }
            }
        }
        proof {
            assert(sw.skip(g).len() == 0);
            assert(g == sw.len());
        }
        let r = sc.finish();
        proof {
            assert forall|t: MatchSpan| #[trigger]
                r@.contains(t) <==> stream_match(self@, data@, buffer_size as int, t) by {
                if r@.contains(t) {
                    let wi = choose|wi: int|
                        0 <= wi < g && stream_window_entry(self@, data@, (#[trigger] sw[wi]), t);
                    assert(0 <= wi < sw.len() && stream_window_entry(self@, data@, sw[wi], t));
                } else {
                    if stream_match(self@, data@, buffer_size as int, t) {
                        let wi = choose|wi: int|
                            0 <= wi < sw.len() && stream_window_entry(
                                self@,
                                data@,
                                (#[trigger] sw[wi]),
                                t,
                            );
                        assert(stream_window_entry(self@, data@, sw[wi], t));
                        assert(false);
                    }
                }
            }
        }
        r
    }
}

} // verus!
