//! Multi-pattern substring search over large byte corpora.
//!
//! The corpus is scanned in bounded, overlapping windows so that no match is
//! lost or reported twice at a window seam.  Four access strategies (line by
//! line, whole-buffer sequential, window-per-worker, bounded-buffer
//! streaming) share one window planner, one word-boundary filter and one
//! deduplicating merge, and agree on the set of matches they report.

pub mod automaton;
pub mod engine;
pub mod laws;
pub mod matcher;
pub mod model;
pub mod stream;

pub use engine::merge_matches;
pub use matcher::MatcherError;
pub use matcher::TextMatcher;
pub use model::LineMatch;
pub use model::MatchSpan;
pub use stream::StreamScanner;
