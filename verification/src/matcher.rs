//! The pattern index: the pattern list, the configuration flags, the
//! automaton handle, and the single-buffer scan that every strategy builds
//! on.

use vstd::prelude::*;

use crate::automaton::{automaton_buildable, build_automaton};
use crate::model::{
    buffer_match, exclusive_matches, found_in_window, is_word_byte, keep_nonempty, no_dups,
    occurs_at, opt_or, span_accepted, span_sane, views_of, LineMatch, MatchSpan, MatcherModel,
};

verus! {

/// Why a matcher could not be constructed.
#[derive(Clone, Copy, Debug, PartialEq, Eq, Structural)]
pub enum MatcherError {
    /// No pattern was left after empty ones were discarded.
    InvalidConfiguration,
    /// The automaton over the pattern set would exceed the search
    /// primitive's size limits.
    AutomatonTooLarge,
}

/// A configured multi-pattern matcher: the pattern list, the flags fixed at
/// construction, and the automaton built over them.  Immutable once built.
pub struct TextMatcher {
    patterns: Vec<Vec<u8>>,
    ac: aho_corasick::AhoCorasick,
    max_pattern_len: usize,
    overlapping: bool,
    case_insensitive: bool,
    whole_word: bool,
}

impl View for TextMatcher {
    type V = MatcherModel;

    closed spec fn view(&self) -> MatcherModel {
        MatcherModel {
            patterns: views_of(self.patterns@),
            overlapping: self.overlapping,
            case_insensitive: self.case_insensitive,
            whole_word: self.whole_word,
            max_pattern_len: self.max_pattern_len as int,
        }
    }
}

/// A fresh vector holding the same bytes.
fn copy_bytes(v: &Vec<u8>) -> (r: Vec<u8>)
    ensures
        r@ == v@,
{
    let mut r: Vec<u8> = Vec::new();
    let mut i: usize = 0;
    while i < v.len()
        invariant
            i <= v@.len(),
            r@ == v@.subrange(0, i as int),
        decreases v@.len() - i,
    {
        r.push(v[i]);
        i = i + 1;
        proof {
            assert(r@ =~= v@.subrange(0, i as int));
        }
    }
    proof {
        assert(v@.subrange(0, v@.len() as int) =~= v@);
    }
    r
}

/// Whether a byte can sit inside a word.
fn is_word_char(c: u8) -> (r: bool)
    ensures
        r == is_word_byte(c),
{
    (48 <= c && c <= 57) || (65 <= c && c <= 90) || (97 <= c && c <= 122) || c == 95
}

impl TextMatcher {
    /// The matcher's pattern list is sound and `max_pattern_len` is what it
    /// claims to be.
    pub open spec fn wf(&self) -> bool {
        self@.wf()
    }

    /// Builds a matcher over `patterns`.  Empty patterns are discarded;
    /// construction fails if nothing is left, or if the search primitive
    /// cannot build its automaton over what remains.  Flags left unset
    /// default to overlapping, case-insensitive, and not whole-word.
    pub fn new(
        patterns: Vec<Vec<u8>>,
        overlapping: Option<bool>,
        case_insensitive: Option<bool>,
        whole_word: Option<bool>,
    ) -> (r: Result<TextMatcher, MatcherError>)
        ensures
            r matches Err(MatcherError::InvalidConfiguration) <==> keep_nonempty(
                views_of(patterns@),
            ).len() == 0,
            r is Ok <==> (keep_nonempty(views_of(patterns@)).len() > 0 && automaton_buildable(
                keep_nonempty(views_of(patterns@)),
                opt_or(case_insensitive, true),
            )),
            r matches Err(MatcherError::AutomatonTooLarge) <==> (keep_nonempty(
                views_of(patterns@),
            ).len() > 0 && !automaton_buildable(
                keep_nonempty(views_of(patterns@)),
                opt_or(case_insensitive, true),
            )),
            r matches Ok(m) ==> {
                &&& m.wf()
                &&& m@.patterns == keep_nonempty(views_of(patterns@))
                &&& m@.overlapping == opt_or(overlapping, true)
                &&& m@.case_insensitive == opt_or(case_insensitive, true)
                &&& m@.whole_word == opt_or(whole_word, false)
            },
    {
        let ghost vs = views_of(patterns@);
        let mut kept: Vec<Vec<u8>> = Vec::new();
        let mut i: usize = 0;
        while i < patterns.len()
            invariant
                i <= patterns@.len(),
                vs == views_of(patterns@),
                views_of(kept@) == keep_nonempty(vs.subrange(0, i as int)),
                forall|k: int| 0 <= k < kept@.len() ==> (#[trigger] kept@[k])@.len() >= 1,
            decreases patterns@.len() - i,
        {
            proof {
                assert(vs.subrange(0, i + 1).drop_last() =~= vs.subrange(0, i as int));
                assert(vs.subrange(0, i + 1).last() == patterns@[i as int]@);
            }
            if patterns[i].len() > 0 {
                let p = copy_bytes(&patterns[i]);
                kept.push(p);
                proof {
                    assert(views_of(kept@) =~= keep_nonempty(vs.subrange(0, i + 1)));
                }
            } else {
                proof {
                    assert(views_of(kept@) =~= keep_nonempty(vs.subrange(0, i + 1)));
                }
            }
            i = i + 1;
        }
        proof {
            assert(vs.subrange(0, vs.len() as int) =~= vs);
        }
        if kept.len() == 0 {
            return Err(MatcherError::InvalidConfiguration);
        }
        let mut max_len: usize = 0;
        let mut j: usize = 0;
        while j < kept.len()
            invariant
                j <= kept@.len(),
                forall|k: int| 0 <= k < j ==> (#[trigger] kept@[k])@.len() <= max_len,
                j > 0 ==> exists|k: int| 0 <= k < j && (#[trigger] kept@[k])@.len() == max_len,
                j == 0 ==> max_len == 0,
            decreases kept@.len() - j,
        {
            if kept[j].len() > max_len {
                max_len = kept[j].len();
            }
            j = j + 1;
        }
        let case_insensitive_value = match case_insensitive {
            Some(b) => b,
            None => true,
        };
        let ac = match build_automaton(&kept, case_insensitive_value) {
            Some(a) => a,
            None => {
                return Err(MatcherError::AutomatonTooLarge);
            },
        };
        let ghost keptv = kept@;
        let m = TextMatcher {
            patterns: kept,
            ac,
            max_pattern_len: max_len,
            overlapping: match overlapping {
                Some(b) => b,
                None => true,
            },
            case_insensitive: case_insensitive_value,
            whole_word: match whole_word {
                Some(b) => b,
                None => false,
            },
        };
        proof {
            assert(m.patterns@ == keptv);
            assert forall|q: int| 0 <= q < m@.patterns.len() implies 1 <= (
            #[trigger] m@.patterns[q]).len() <= m@.max_pattern_len by {
                assert(m@.patterns[q] == keptv[q]@);
            }
            let k0 = choose|k: int| 0 <= k < keptv.len() && (#[trigger] keptv[k])@.len() == max_len;
            assert(m@.patterns[k0].len() == m@.max_pattern_len);
            assert(m.wf());
        }
        Ok(m)
    }

    /// Whether every match start is reported, as opposed to a
    /// non-overlapping selection.
    pub fn overlapping(&self) -> (r: bool)
        ensures
            r == self@.overlapping,
    {
        self.overlapping
    }

    /// Whether ASCII letters are matched without respect to case.
    pub fn case_insensitive(&self) -> (r: bool)
        ensures
            r == self@.case_insensitive,
    {
        self.case_insensitive
    }

    /// Whether only matches on word boundaries are reported.
    pub fn whole_word(&self) -> (r: bool)
        ensures
            r == self@.whole_word,
    {
        self.whole_word
    }

    /// The length of the longest pattern.
    pub fn max_pattern_len(&self) -> (r: usize)
        ensures
            r as int == self@.max_pattern_len,
    {
        self.max_pattern_len
    }

    /// How many patterns the matcher holds; match pattern identities index
    /// this range.
    pub fn pattern_count(&self) -> (r: usize)
        ensures
            r as int == self@.patterns.len(),
    {
        self.patterns.len()
    }

    /// Relies on `aho_corasick::AhoCorasick::find_overlapping_iter` over the
    /// automaton this matcher was built with: it reports, exactly once each
    /// and with the pattern's own length, every position of `data` where a
    /// pattern occurs (ASCII case folded when so configured).
    #[verifier::external_body]
    pub(crate) fn find_overlapping(&self, data: &[u8]) -> (r: Vec<(usize, usize, usize)>)
        ensures
            forall|k: int|
                0 <= k < r@.len() ==> occurs_at(
                    self@.patterns,
                    self@.case_insensitive,
                    data@,
                    (#[trigger] r@[k]).0 as int,
                    r@[k].1 as int,
                    r@[k].2 as int,
                ),
            forall|s: int, e: int, p: int|
                #[trigger] occurs_at(self@.patterns, self@.case_insensitive, data@, s, e, p)
                    ==> r@.contains((s as usize, e as usize, p as usize)),
            no_dups(r@),
    {
        self.ac.find_overlapping_iter(data).map(
            |m: aho_corasick::Match| (m.start(), m.end(), m.pattern().as_usize()),
        ).collect()
    }

    /// Relies on `aho_corasick::AhoCorasick::find_iter` over the automaton
    /// this matcher was built with: with standard match semantics it reports
    /// a non-overlapping selection of genuine occurrences, in ascending
    /// position order, and the selection depends on the pattern list, the
    /// case flag and the bytes alone.
    #[verifier::external_body]
    pub(crate) fn find_exclusive(&self, data: &[u8]) -> (r: Vec<(usize, usize, usize)>)
        ensures
            r@ == exclusive_matches(self@.patterns, self@.case_insensitive, data@),
            forall|k: int|
                0 <= k < r@.len() ==> occurs_at(
                    self@.patterns,
                    self@.case_insensitive,
                    data@,
                    (#[trigger] r@[k]).0 as int,
                    r@[k].1 as int,
                    r@[k].2 as int,
                ),
            forall|i: int, j: int|
                0 <= i < j < r@.len() ==> (#[trigger] r@[i]).1 <= (#[trigger] r@[j]).0,
    {
        self.ac.find_iter(data).map(
            |m: aho_corasick::Match| (m.start(), m.end(), m.pattern().as_usize()),
        ).collect()
    }

    /// What the boundary filter decides for the span `[start, end)` of `data`:
    /// accepted outright unless whole-word matching is on, else both
    /// neighbouring bytes, where present, must be non-word.
    pub fn is_word_boundary_match(&self, data: &[u8], start: usize, end: usize) -> (r: bool)
        requires
            start <= data@.len(),
            end <= data@.len(),
        ensures
            r == span_accepted(self@.whole_word, data@, start as int, end as int),
    {
        if !self.whole_word {
            return true;
        }
        let before_is_word = if start > 0 {
            is_word_char(data[start - 1])
        } else {
            false
        };
        let after_is_word = if end < data.len() {
            is_word_char(data[end])
        } else {
            false
        };
        !before_is_word && !after_is_word
    }

    /// Replaces each match's pattern identity with the pattern's text: the
    /// translation done once at the reporting boundary, keeping the
    /// matching path free of text copies.
    pub fn resolve_matches(&self, ms: &Vec<MatchSpan>) -> (r: Vec<(usize, usize, Vec<u8>)>)
        requires
            self.wf(),
            forall|k: int|
                0 <= k < ms@.len() ==> (#[trigger] ms@[k]).pattern < self@.patterns.len(),
        ensures
            r@.len() == ms@.len(),
            forall|k: int|
                0 <= k < ms@.len() ==> {
                    &&& (#[trigger] r@[k]).0 == ms@[k].start
                    &&& r@[k].1 == ms@[k].end
                    &&& r@[k].2@ == self@.patterns[ms@[k].pattern as int]
                },
    {
        let mut r: Vec<(usize, usize, Vec<u8>)> = Vec::new();
        let mut k: usize = 0;
        while k < ms.len()
            invariant
                k <= ms@.len(),
                forall|q: int|
                    0 <= q < ms@.len() ==> (#[trigger] ms@[q]).pattern < self@.patterns.len(),
                self@.patterns.len() == self.patterns@.len(),
                forall|q: int| 0 <= q < self.patterns@.len() ==> self@.patterns[q] == self.patterns@[q]@,
                r@.len() == k as int,
                forall|q: int|
                    0 <= q < k ==> {
                        &&& (#[trigger] r@[q]).0 == ms@[q].start
                        &&& r@[q].1 == ms@[q].end
                        &&& r@[q].2@ == self@.patterns[ms@[q].pattern as int]
                    },
            decreases ms@.len() - k,
        {
            let m = ms[k];
            let text = copy_bytes(&self.patterns[m.pattern]);
            r.push((m.start, m.end, text));
            k = k + 1;
        }
        r
    }

    /// Replaces each line match's pattern identity with the pattern's
    /// text, keeping the 1-based line number and the in-line offsets.
    pub fn resolve_line_matches(&self, ms: &Vec<LineMatch>) -> (r: Vec<
        (usize, usize, usize, Vec<u8>),
    >)
        requires
            self.wf(),
            forall|k: int|
                0 <= k < ms@.len() ==> (#[trigger] ms@[k]).pattern < self@.patterns.len(),
        ensures
            r@.len() == ms@.len(),
            forall|k: int|
                0 <= k < ms@.len() ==> {
                    &&& (#[trigger] r@[k]).0 == ms@[k].line
                    &&& r@[k].1 == ms@[k].start
                    &&& r@[k].2 == ms@[k].end
                    &&& r@[k].3@ == self@.patterns[ms@[k].pattern as int]
                },
    {
        let mut r: Vec<(usize, usize, usize, Vec<u8>)> = Vec::new();
        let mut k: usize = 0;
        while k < ms.len()
            invariant
                k <= ms@.len(),
                forall|q: int|
                    0 <= q < ms@.len() ==> (#[trigger] ms@[q]).pattern < self@.patterns.len(),
                self@.patterns.len() == self.patterns@.len(),
                forall|q: int| 0 <= q < self.patterns@.len() ==> self@.patterns[q] == self.patterns@[q]@,
                r@.len() == k as int,
                forall|q: int|
                    0 <= q < k ==> {
                        &&& (#[trigger] r@[q]).0 == ms@[q].line
                        &&& r@[q].1 == ms@[q].start
                        &&& r@[q].2 == ms@[q].end
                        &&& r@[q].3@ == self@.patterns[ms@[q].pattern as int]
                    },
            decreases ms@.len() - k,
        {
            let m = ms[k];
            let text = copy_bytes(&self.patterns[m.pattern]);
            r.push((m.line, m.start, m.end, text));
            k = k + 1;
        }
        r
    }

    /// Scans one fully materialized buffer: every match the configured mode
    /// reports and the boundary filter accepts, each exactly once.
    pub fn match_bytes(&self, data: &[u8]) -> (r: Vec<MatchSpan>)
        requires
            self.wf(),
        ensures
            forall|t: MatchSpan| #[trigger] r@.contains(t) <==> buffer_match(self@, data@, t),
            forall|k: int| 0 <= k < r@.len() ==> span_sane(self@, data@.len() as int, #[trigger] r@[k]),
            no_dups(r@),
    {
        let found = if self.overlapping {
            self.find_overlapping(data)
        } else {
            self.find_exclusive(data)
        };
        proof {
            if !self@.overlapping {
                assert forall|i: int, j: int| 0 <= i < j < found@.len() implies found@[i]
                    != found@[j] by {
                    assert(found@[i].1 <= found@[j].0);
                    assert(occurs_at(
                        self@.patterns,
                        self@.case_insensitive,
                        data@,
                        found@[i].0 as int,
                        found@[i].1 as int,
                        found@[i].2 as int,
                    ));
                }
            }
            assert(data@.subrange(0, data@.len() as int) =~= data@);
        }
        let mut r: Vec<MatchSpan> = Vec::new();
        let mut i: usize = 0;
        while i < found.len()
            invariant
                self.wf(),
                i <= found@.len(),
                no_dups(found@),
                forall|k: int|
                    0 <= k < found@.len() ==> occurs_at(
                        self@.patterns,
                        self@.case_insensitive,
                        data@,
                        (#[trigger] found@[k]).0 as int,
                        found@[k].1 as int,
                        found@[k].2 as int,
                    ),
                forall|t: MatchSpan| #[trigger] r@.contains(t) <==> exists|k: int|
                    0 <= k < i && (#[trigger] found@[k]) == (t.start, t.end, t.pattern)
                        && span_accepted(self@.whole_word, data@, t.start as int, t.end as int),
                forall|k: int|
                    0 <= k < r@.len() ==> span_sane(self@, data@.len() as int, #[trigger] r@[k]),
                no_dups(r@),
            decreases found@.len() - i,
        {
            let (s, e, p) = found[i];
            let ghost iold = i as int;
            let ghost r0 = r@;
            let ghost t = MatchSpan { start: s, end: e, pattern: p };
            let accepted = self.is_word_boundary_match(data, s, e);
            if accepted {
                proof {
                    if r0.contains(t) {
                        let k = choose|k: int|
                            0 <= k < iold && (#[trigger] found@[k]) == (t.start, t.end, t.pattern)
                                && span_accepted(
                                self@.whole_word,
                                data@,
                                t.start as int,
                                t.end as int,
                            );
                        assert(found@[k] == found@[iold]);
                        assert(false);
                    }
                }
                let m = MatchSpan { start: s, end: e, pattern: p };
                r.push(m);
            }
            i = i + 1;
            proof {
                assert forall|u: MatchSpan| #[trigger] r@.contains(u) implies exists|k: int|
                    0 <= k < i && (#[trigger] found@[k]) == (u.start, u.end, u.pattern)
                        && span_accepted(self@.whole_word, data@, u.start as int, u.end as int) by {
                    let j = choose|j: int| 0 <= j < r@.len() && r@[j] == u;
                    if j < r0.len() {
                        assert(r0[j] == u);
                        assert(r0.contains(u));
                        let k = choose|k: int|
                            0 <= k < iold && (#[trigger] found@[k]) == (u.start, u.end, u.pattern)
                                && span_accepted(
                                self@.whole_word,
                                data@,
                                u.start as int,
                                u.end as int,
                            );
                        assert(0 <= k < i && found@[k] == (u.start, u.end, u.pattern));
                    } else {
                        assert(u == t);
                        assert(found@[iold] == (u.start, u.end, u.pattern));
                    }
                }
                assert forall|u: MatchSpan|
                    (exists|k: int|
                        0 <= k < i && (#[trigger] found@[k]) == (u.start, u.end, u.pattern)
                            && span_accepted(
                            self@.whole_word,
                            data@,
                            u.start as int,
                            u.end as int,
                        )) implies #[trigger] r@.contains(u) by {
                    let k = choose|k: int|
                        0 <= k < i && (#[trigger] found@[k]) == (u.start, u.end, u.pattern)
                            && span_accepted(
                            self@.whole_word,
                            data@,
                            u.start as int,
                            u.end as int,
                        );
                    if k < iold {
                        assert(r0.contains(u));
                        let j = choose|j: int| 0 <= j < r0.len() && r0[j] == u;
                        assert(r@[j] == u);
                    } else {
                        assert(found@[k] == (s, e, p));
                        assert(u.start == s && u.end == e && u.pattern == p);
                        assert(u == t);
                        assert(accepted);
                        assert(r@[r0.len() as int] == u);
                    }
                }
            }
        }
        proof {
            assert forall|t: MatchSpan| #[trigger] r@.contains(t) implies buffer_match(
                self@,
                data@,
                t,
            ) by {
                let k = choose|k: int|
                    0 <= k < found@.len() && (#[trigger] found@[k]) == (t.start, t.end, t.pattern)
                        && span_accepted(self@.whole_word, data@, t.start as int, t.end as int);
                assert(occurs_at(
                    self@.patterns,
                    self@.case_insensitive,
                    data@,
                    t.start as int,
                    t.end as int,
                    t.pattern as int,
                ));
                if !self@.overlapping {
                    assert(exclusive_matches(self@.patterns, self@.case_insensitive, data@)
                        .contains((t.start, t.end, t.pattern)));
                }
            }
            assert forall|t: MatchSpan| buffer_match(self@, data@, t) implies #[trigger] r@
                .contains(t) by {
                if self@.overlapping {
                    assert(occurs_at(
                        self@.patterns,
                        self@.case_insensitive,
                        data@,
                        t.start as int,
                        t.end as int,
                        t.pattern as int,
                    ));
                    assert(found@.contains((t.start, t.end, t.pattern)));
                } else {
                    assert(found@.contains((t.start, t.end, t.pattern)));
                }
                let k = choose|k: int|
                    0 <= k < found@.len() && found@[k] == (t.start, t.end, t.pattern);
                assert(found@[k] == (t.start, t.end, t.pattern));
            }
        }
        r
    }
}

} // verus!
