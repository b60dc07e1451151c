//! Construction, single-buffer scanning, the boundary filter, the two
//! reporting modes, case handling, and result translation.

use voluta::{MatcherError, TextMatcher};

fn patterns(ps: &[&str]) -> Vec<Vec<u8>> {
    ps.iter().map(|p| p.as_bytes().to_vec()).collect()
}

fn matcher(ps: &[&str], ov: Option<bool>, ci: Option<bool>, ww: Option<bool>) -> TextMatcher {
    TextMatcher::new(patterns(ps), ov, ci, ww).unwrap()
}

fn spans(m: &TextMatcher, corpus: &str) -> Vec<(usize, usize, usize)> {
    m.match_bytes(corpus.as_bytes())
        .iter()
        .map(|t| (t.start, t.end, t.pattern))
        .collect()
}

#[test]
fn empty_pattern_list_is_rejected() {
    let r = TextMatcher::new(Vec::new(), None, None, None);
    assert_eq!(r.err(), Some(MatcherError::InvalidConfiguration));
}

#[test]
fn all_empty_patterns_are_rejected() {
    let r = TextMatcher::new(patterns(&["", ""]), None, None, None);
    assert_eq!(r.err(), Some(MatcherError::InvalidConfiguration));
}

#[test]
fn empty_patterns_are_discarded_before_indexing() {
    let m = matcher(&["", "ab"], None, None, None);
    let r = spans(&m, "xabx");
    assert_eq!(r, vec![(1, 3, 0)]);
    let ms = m.match_bytes(b"xabx");
    let resolved = m.resolve_matches(&ms);
    assert_eq!(resolved.len(), 1);
    assert_eq!(resolved[0].2, b"ab".to_vec());
}

#[test]
fn max_pattern_len_is_the_maximum() {
    let m = matcher(&["a", "abcd", "ab"], None, None, None);
    assert_eq!(m.max_pattern_len(), 4);
}

#[test]
fn flag_defaults_are_overlapping_case_insensitive_not_whole_word() {
    let m = matcher(&["a"], None, None, None);
    assert!(m.overlapping());
    assert!(m.case_insensitive());
    assert!(!m.whole_word());
}

#[test]
fn overlapping_mode_reports_every_start() {
    let m = matcher(&["aa"], Some(true), None, None);
    assert_eq!(spans(&m, "aaaa"), vec![(0, 2, 0), (1, 3, 0), (2, 4, 0)]);
}

#[test]
fn exclusive_mode_reports_a_partition() {
    let m = matcher(&["aa"], Some(false), None, None);
    assert_eq!(spans(&m, "aaaa"), vec![(0, 2, 0), (2, 4, 0)]);
}

#[test]
fn case_insensitive_matches_across_case() {
    let m = matcher(&["foo"], None, Some(true), None);
    assert_eq!(spans(&m, "FOO bar"), vec![(0, 3, 0)]);
}

#[test]
fn case_sensitive_rejects_other_case() {
    let m = matcher(&["foo"], None, Some(false), None);
    assert_eq!(spans(&m, "FOO bar"), Vec::new());
}

#[test]
fn case_folding_applies_to_the_pattern_too() {
    let m = matcher(&["FoO"], None, Some(true), None);
    assert_eq!(spans(&m, "xfoox"), vec![(1, 4, 0)]);
}

#[test]
fn whole_word_keeps_only_boundary_matches() {
    let m = matcher(&["cat"], None, None, Some(true));
    assert_eq!(spans(&m, "cat scatter cats"), vec![(0, 3, 0)]);
}

#[test]
fn without_whole_word_inner_matches_are_kept() {
    let m = matcher(&["cat"], None, None, Some(false));
    assert_eq!(spans(&m, "cat scatter cats"), vec![(0, 3, 0), (5, 8, 0), (12, 15, 0)]);
}

#[test]
fn corpus_edges_count_as_word_boundaries() {
    let m = matcher(&["cat"], None, None, Some(true));
    assert_eq!(spans(&m, "cat"), vec![(0, 3, 0)]);
}

#[test]
fn underscore_is_a_word_byte() {
    let m = matcher(&["cat"], None, None, Some(true));
    assert_eq!(spans(&m, "_cat cat_ cat"), vec![(10, 13, 0)]);
}

#[test]
fn pattern_ids_follow_insertion_order() {
    let m = matcher(&["ab", "bc"], None, None, None);
    assert_eq!(spans(&m, "abc"), vec![(0, 2, 0), (1, 3, 1)]);
}

#[test]
fn resolved_matches_carry_the_pattern_text() {
    let m = matcher(&["ab", "bc"], None, None, None);
    let ms = m.match_bytes(b"abc");
    let resolved = m.resolve_matches(&ms);
    assert_eq!(resolved.len(), 2);
    assert_eq!(resolved[0], (0, 2, b"ab".to_vec()));
    assert_eq!(resolved[1], (1, 3, b"bc".to_vec()));
}

#[test]
fn exclusive_mode_reports_the_earliest_ending_match() {
    let m = matcher(&["b", "abc"], Some(false), None, None);
    assert_eq!(spans(&m, "abc"), vec![(1, 2, 0)]);
}

#[test]
fn exclusive_mode_respects_the_boundary_filter() {
    let m = matcher(&["cat"], Some(false), None, Some(true));
    assert_eq!(spans(&m, "cat cats"), vec![(0, 3, 0)]);
}

#[test]
fn duplicate_patterns_are_each_reported() {
    let m = matcher(&["ab", "ab"], Some(true), None, None);
    assert_eq!(spans(&m, "xab"), vec![(1, 3, 0), (1, 3, 1)]);
}

#[test]
fn case_variant_patterns_are_each_reported() {
    let m = matcher(&["ab", "AB"], Some(true), Some(true), None);
    let mut r = spans(&m, "ab");
    r.sort();
    assert_eq!(r, vec![(0, 2, 0), (0, 2, 1)]);
}

#[test]
fn empty_corpus_yields_no_matches() {
    let m = matcher(&["a"], None, None, None);
    assert_eq!(spans(&m, ""), Vec::new());
}
