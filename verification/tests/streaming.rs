//! The streaming scanner, the line-oriented strategy, and the agreement of
//! all four strategies on a corpus without line terminators.

use voluta::{StreamScanner, TextMatcher};

fn patterns(ps: &[&str]) -> Vec<Vec<u8>> {
    ps.iter().map(|p| p.as_bytes().to_vec()).collect()
}

fn matcher(ps: &[&str], ov: Option<bool>, ci: Option<bool>, ww: Option<bool>) -> TextMatcher {
    TextMatcher::new(patterns(ps), ov, ci, ww).unwrap()
}

fn as_set(ms: &[voluta::MatchSpan]) -> Vec<(usize, usize, usize)> {
    let mut v: Vec<(usize, usize, usize)> = ms.iter().map(|t| (t.start, t.end, t.pattern)).collect();
    v.sort();
    v
}

#[test]
fn stream_scan_equals_whole_buffer_scan_for_every_buffer_size() {
    let m = matcher(&["abra", "cad"], None, None, None);
    let corpus = b"abracadabra abracadabra";
    let whole = as_set(&m.match_bytes(corpus));
    for b in 1..=corpus.len() {
        assert_eq!(as_set(&m.match_stream(corpus, b)), whole);
    }
}

#[test]
fn stream_finds_a_match_straddling_a_buffer_seam() {
    let corpus = b"xxxneedle";
    let m = matcher(&["needle"], None, None, None);
    let found = m.match_stream(corpus, 4);
    assert_eq!(as_set(&found), vec![(3, 9, 0)]);
    assert_eq!(found.len(), 1);
}

#[test]
fn pushed_chunks_agree_with_the_stream_scan() {
    let m = matcher(&["needle"], None, None, None);
    let mut sc = StreamScanner::new(&m);
    sc.push_chunk(&m, b"xxne");
    sc.push_chunk(&m, b"edle");
    sc.push_chunk(&m, b"x");
    let found = sc.finish();
    assert_eq!(as_set(&found), vec![(2, 8, 0)]);
}

#[test]
fn stream_reports_no_duplicates() {
    let m = matcher(&["aa", "a"], None, None, None);
    let corpus = b"aaaaaaaa";
    for b in 1..=corpus.len() {
        let found = m.match_stream(corpus, b);
        let mut seen = as_set(&found);
        let before = seen.len();
        seen.dedup();
        assert_eq!(seen.len(), before);
    }
}

#[test]
fn line_scan_reports_one_based_lines_and_line_relative_offsets() {
    let m = matcher(&["cat"], None, None, None);
    let found = m.match_lines(b"cat\ndog cat\n");
    let v: Vec<(usize, usize, usize, usize)> =
        found.iter().map(|t| (t.line, t.start, t.end, t.pattern)).collect();
    assert_eq!(v, vec![(1, 0, 3, 0), (2, 4, 7, 0)]);
}

#[test]
fn line_scan_does_not_find_matches_across_a_terminator() {
    let m = matcher(&["t\nd"], None, None, None);
    let found = m.match_lines(b"cat\ndog");
    assert!(found.is_empty());
}

#[test]
fn line_scan_treats_line_edges_as_boundaries() {
    let m = matcher(&["cat"], None, None, Some(true));
    let found = m.match_lines(b"cat\nscat\ncat");
    let v: Vec<(usize, usize, usize, usize)> =
        found.iter().map(|t| (t.line, t.start, t.end, t.pattern)).collect();
    assert_eq!(v, vec![(1, 0, 3, 0), (3, 0, 3, 0)]);
}

#[test]
fn resolved_line_matches_carry_line_and_text() {
    let m = matcher(&["cat"], None, None, None);
    let found = m.match_lines(b"a cat\ncat b");
    let resolved = m.resolve_line_matches(&found);
    assert_eq!(resolved, vec![(1, 2, 5, b"cat".to_vec()), (2, 0, 3, b"cat".to_vec())]);
}

#[test]
fn all_four_strategies_agree_without_line_terminators() {
    let m = matcher(&["abra", "cad", "a"], None, None, None);
    let corpus = b"abracadabra abracadabra xyzabra";
    let whole = as_set(&m.match_bytes(corpus));
    for size in 1..=corpus.len() {
        // line-oriented: one line, offsets are already global
        let lines = m.match_lines(corpus);
        let line_set: Vec<(usize, usize, usize)> = {
            let mut v: Vec<(usize, usize, usize)> = lines
                .iter()
                .map(|t| {
                    assert_eq!(t.line, 1);
                    (t.start, t.end, t.pattern)
                })
                .collect();
            v.sort();
            v
        };
        assert_eq!(line_set, whole);
        // chunked, sequential
        assert_eq!(as_set(&m.match_chunked(corpus, size)), whole);
        // chunked, one worker per window
        let windows = m.plan_windows(corpus.len(), size);
        let locals: Vec<Vec<voluta::MatchSpan>> = windows
            .iter()
            .map(|w| m.scan_window(corpus, w.0, w.1))
            .collect();
        assert_eq!(as_set(&voluta::merge_matches(&locals)), whole);
        // streaming
        assert_eq!(as_set(&m.match_stream(corpus, size)), whole);
    }
}

#[test]
fn stream_boundary_context_is_window_local() {
    // The retained context is one byte shorter than the longest pattern, so
    // the byte just before a window start is unavailable to the filter:
    // with whole-word matching the stream accepts the match at the window
    // edge that the full-corpus strategies reject.
    let m = matcher(&["b"], None, None, Some(true));
    let corpus = b"ab";
    assert!(m.match_bytes(corpus).is_empty());
    let streamed = m.match_stream(corpus, 1);
    assert_eq!(as_set(&streamed), vec![(1, 2, 0)]);
}
