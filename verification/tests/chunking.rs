//! The window planner, the chunked scan, the window-per-worker composition
//! with the merge, seam handling, and chunk-size invariance.

use voluta::{merge_matches, TextMatcher};

fn patterns(ps: &[&str]) -> Vec<Vec<u8>> {
    ps.iter().map(|p| p.as_bytes().to_vec()).collect()
}

fn matcher(ps: &[&str], ov: Option<bool>, ci: Option<bool>, ww: Option<bool>) -> TextMatcher {
    TextMatcher::new(patterns(ps), ov, ci, ww).unwrap()
}

fn as_set(ms: &[voluta::MatchSpan]) -> Vec<(usize, usize, usize)> {
    let mut v: Vec<(usize, usize, usize)> = ms.iter().map(|t| (t.start, t.end, t.pattern)).collect();
    v.sort();
    v
}

#[test]
fn planned_windows_cover_with_overlap() {
    let m = matcher(&["abcdef"], None, None, None);
    // overlap is max pattern length minus one: 5
    let w = m.plan_windows(10, 2);
    assert_eq!(w, vec![(0, 7), (2, 9), (4, 10)]);
}

#[test]
fn one_window_when_the_chunk_covers_the_corpus() {
    let m = matcher(&["ab"], None, None, None);
    let w = m.plan_windows(4, 8);
    assert_eq!(w, vec![(0, 4)]);
}

#[test]
fn no_windows_for_an_empty_corpus() {
    let m = matcher(&["ab"], None, None, None);
    let w = m.plan_windows(0, 8);
    assert_eq!(w, Vec::new());
}

#[test]
fn chunked_scan_equals_whole_buffer_scan_for_every_chunk_size() {
    let m = matcher(&["abra", "cad"], None, None, None);
    let corpus = b"abracadabra abracadabra";
    let whole = as_set(&m.match_bytes(corpus));
    assert!(!whole.is_empty());
    for chunk in 1..=corpus.len() {
        let chunked = as_set(&m.match_chunked(corpus, chunk));
        assert_eq!(chunked, whole);
    }
}

#[test]
fn seam_straddling_match_is_reported_exactly_once() {
    // "needle" begins one byte before the first chunk boundary.
    let corpus: Vec<u8> = [b"xxx".as_slice(), b"needle".as_slice()].concat();
    let m = matcher(&["needle"], None, None, None);
    let chunk = 4;
    assert!(corpus.len() > chunk);
    let found = m.match_chunked(&corpus, chunk);
    assert_eq!(as_set(&found), vec![(3, 9, 0)]);
    assert_eq!(found.len(), 1);
}

#[test]
fn no_triple_is_reported_twice_by_the_chunked_scan() {
    let m = matcher(&["aa", "a"], None, None, None);
    let corpus = b"aaaaaaaa";
    for chunk in 1..=corpus.len() {
        let found = m.match_chunked(corpus, chunk);
        let mut seen = as_set(&found);
        let before = seen.len();
        seen.dedup();
        assert_eq!(seen.len(), before);
    }
}

#[test]
fn worker_per_window_composition_agrees_with_the_sequential_scan() {
    let m = matcher(&["abra", "cad"], None, None, None);
    let corpus = b"abracadabra abracadabra";
    for chunk in 1..=corpus.len() {
        let windows = m.plan_windows(corpus.len(), chunk);
        let locals: Vec<Vec<voluta::MatchSpan>> = windows
            .iter()
            .map(|w| m.scan_window(corpus, w.0, w.1))
            .collect();
        let merged = merge_matches(&locals);
        assert_eq!(as_set(&merged), as_set(&m.match_chunked(corpus, chunk)));
    }
}

#[test]
fn worker_per_window_composition_agrees_in_exclusive_mode() {
    let m = matcher(&["aa", "abra"], Some(false), None, None);
    let corpus = b"abracadabra aaaa";
    for chunk in 1..=corpus.len() {
        let windows = m.plan_windows(corpus.len(), chunk);
        let locals: Vec<Vec<voluta::MatchSpan>> = windows
            .iter()
            .map(|w| m.scan_window(corpus, w.0, w.1))
            .collect();
        let merged = merge_matches(&locals);
        assert_eq!(as_set(&merged), as_set(&m.match_chunked(corpus, chunk)));
    }
}

#[test]
fn merge_collapses_duplicates_across_local_sets() {
    let m = matcher(&["aa"], None, None, None);
    let corpus = b"aaa";
    let a = m.scan_window(corpus, 0, 3);
    let b = m.scan_window(corpus, 0, 3);
    let merged = merge_matches(&vec![a.clone(), b]);
    assert_eq!(as_set(&merged), as_set(&a));
}

#[test]
fn chunked_whole_word_uses_full_corpus_context() {
    // The window that finds "cat" at offset 4 does not hold the byte before
    // it, but the filter must still see the full corpus and reject it.
    let m = matcher(&["cat"], None, None, Some(true));
    let corpus = b"xxxscatx cat";
    for chunk in 1..=corpus.len() {
        assert_eq!(as_set(&m.match_chunked(corpus, chunk)), vec![(9, 12, 0)]);
    }
}

#[test]
fn exclusive_chunked_scan_reports_no_duplicates() {
    let m = matcher(&["aa"], Some(false), None, None);
    let corpus = b"aaaaaa";
    for chunk in 1..=corpus.len() {
        let found = m.match_chunked(corpus, chunk);
        let mut seen = as_set(&found);
        let before = seen.len();
        seen.dedup();
        assert_eq!(seen.len(), before);
    }
}
