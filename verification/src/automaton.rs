//! The boundary to the multi-pattern search primitive: the automaton type
//! and its construction.  The find operations live on `TextMatcher`, whose
//! contracts state what they return; everything here is declared, not
//! proved.

use vstd::prelude::*;

use crate::model::views_of;

verus! {

/// The search automaton of the `aho_corasick` crate, opaque to this
/// library: a value of it is only built once and carried inside a matcher.
#[verifier::external_type_specification]
#[verifier::external_body]
pub struct ExAhoCorasick(aho_corasick::AhoCorasick);

/// Whether the search primitive can build its automaton over this pattern
/// set and case flag: a function of the two alone.  The primitive refuses
/// only pattern sets whose automaton would exceed its internal size
/// limits.
pub uninterp spec fn automaton_buildable(pats: Seq<Seq<u8>>, case_insensitive: bool) -> bool;

/// Relies on `aho_corasick::AhoCorasickBuilder`: builds a DFA automaton
/// over `patterns` with ASCII case folding when `case_insensitive` is set,
/// and standard (every-match) semantics.  Whether construction succeeds
/// depends deterministically on the pattern set and the case flag; the
/// outcome is named rather than spelled out.
#[verifier::external_body]
pub(crate) fn build_automaton(patterns: &Vec<Vec<u8>>, case_insensitive: bool) -> (r: Option<
    aho_corasick::AhoCorasick,
>)
    ensures
        r is Some <==> automaton_buildable(views_of(patterns@), case_insensitive),
{
    aho_corasick::AhoCorasickBuilder::new()
        .kind(Some(aho_corasick::AhoCorasickKind::DFA))
        .ascii_case_insensitive(case_insensitive)
        .build(patterns)
        .ok()
}

} // verus!
