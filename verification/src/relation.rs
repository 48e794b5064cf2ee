//! Tier-1 relation between a new memory and a similar existing one.
//!
//! - **Contradicts**: a shared key-like token with a different numeric value,
//!   or a closed state-change marker in the new text (over an existing text
//!   that is not already closed) together with real subject overlap and a
//!   similarity of at least one half.
//! - **Compatible**: one meaningful-token set contains the other.
//! - **Ambiguous**: everything else.
use vstd::prelude::*;
use crate::keyvalue::{has_numeric_value_drift, numeric_drift_spec};
use crate::polarity::{closed_markers, open_markers, polarity_spec, state_polarity, StatePolarity};
use crate::runs::vviews;
use crate::similarity::{
    content_similarity, meaningful_set, meaningful_token_set, similarity_spec,
};
use crate::tokenizer::in_word_list;

verus! {

/// How a new memory relates to a similar existing one.
#[derive(Clone, Copy, Debug, PartialEq, Eq, Structural)]
pub enum MemoryRelation {
    Compatible,
    Contradicts,
    Ambiguous,
}

/// Negation words that, like the markers, carry no subject.
pub open spec fn negation_words() -> Seq<&'static str> {
    seq!["no", "longer", "not", "still"]
}

/// A token that belongs to the state-change vocabulary.
pub open spec fn is_marker_token(t: Seq<char>) -> bool {
    in_word_list(t, closed_markers()) || in_word_list(t, open_markers()) || in_word_list(
        t,
        negation_words(),
    )
}

/// The new text closes a state the existing text left open (or did not
/// mention), they share a non-marker token, and their similarity is at
/// least one half.
pub open spec fn state_change_spec(
    new_content: Seq<char>,
    existing_content: Seq<char>,
    new_tokens: Set<Seq<char>>,
    existing_tokens: Set<Seq<char>>,
) -> bool {
    let sim = similarity_spec(new_content, existing_content);
    &&& polarity_spec(new_content) == StatePolarity::Closed
    &&& polarity_spec(existing_content) != StatePolarity::Closed
    &&& exists|t: Seq<char>|
        new_tokens.contains(t) && existing_tokens.contains(t) && !is_marker_token(t)
    &&& 2 * sim.0 >= sim.1
}

/// The relation of a new text to an existing one.
pub open spec fn relation_spec(new_content: Seq<char>, existing_content: Seq<char>) -> MemoryRelation {
    let n = meaningful_set(new_content);
    let e = meaningful_set(existing_content);
    if numeric_drift_spec(new_content, existing_content) || state_change_spec(
        new_content,
        existing_content,
        n,
        e,
    ) {
        MemoryRelation::Contradicts
    } else if n.len() >= 1 && e.len() >= 1 && (n.subset_of(e) || e.subset_of(n)) {
        MemoryRelation::Compatible
    } else {
        MemoryRelation::Ambiguous
    }
}

fn is_marker(t: &[char]) -> (r: bool)
    ensures
        r == is_marker_token(t@),
{
    let closed: [&'static str; 9] = [
        "fixed", "resolved", "removed", "deprecated", "migrated", "replaced", "obsolete",
        "deleted", "disabled",
    ];
    assert(closed@ =~= closed_markers());
    let open: [&'static str; 6] = ["unresolved", "unfixed", "open", "pending", "exists", "broken"];
    assert(open@ =~= open_markers());
    let neg: [&'static str; 4] = ["no", "longer", "not", "still"];
    assert(neg@ =~= negation_words());
    crate::tokenizer::in_list(t, &closed) || crate::tokenizer::in_list(t, &open)
        || crate::tokenizer::in_list(t, &neg)
}

/// Whether `v` (duplicate-free) holds a non-marker token that `w` also holds.
fn shares_subject_token(v: &Vec<Vec<char>>, w: &Vec<Vec<char>>) -> (r: bool)
    ensures
        r == exists|t: Seq<char>|
            vviews(v@).to_set().contains(t) && vviews(w@).to_set().contains(t) && !is_marker_token(
                t,
            ),
{
    let mut i: usize = 0;
    while i < v.len()
        invariant
            i <= v@.len(),
            forall|j: int|
                0 <= j < i ==> !(vviews(w@).contains(#[trigger] vviews(v@)[j]) && !is_marker_token(
                    vviews(v@)[j],
                )),
        decreases v.len() - i,
    {
        assert(vviews(v@)[i as int] == v@[i as int]@);
        if crate::similarity::contains_word(w, v[i].as_slice()) && !is_marker(v[i].as_slice()) {
            assert(vviews(v@).contains(vviews(v@)[i as int]));
            return true;
        }
        i += 1;
    }
    assert forall|t: Seq<char>|
        vviews(v@).to_set().contains(t) && vviews(w@).to_set().contains(t) implies is_marker_token(
        t,
    ) by {
        let j = choose|j: int| 0 <= j < vviews(v@).len() && vviews(v@)[j] == t;
        assert(vviews(w@).contains(vviews(v@)[j]));
    }
    false
}

/// Polarity-aware state-change contradiction: a closed marker in the new
/// text over an existing text that is not closed, real subject overlap
/// beyond the marker vocabulary, and a similarity of at least one half.
pub fn has_state_change_contradiction(
    new_content: &str,
    existing_content: &str,
    new_tokens: &Vec<Vec<char>>,
    existing_tokens: &Vec<Vec<char>>,
) -> (r: bool)
    ensures
        r == state_change_spec(
            new_content@,
            existing_content@,
            vviews(new_tokens@).to_set(),
            vviews(existing_tokens@).to_set(),
        ),
{
    let new_pol = state_polarity(new_content);
    let existing_pol = state_polarity(existing_content);
    if new_pol != StatePolarity::Closed {
        return false;
    }
    if existing_pol == StatePolarity::Closed {
        return false;
    }
    if !shares_subject_token(new_tokens, existing_tokens) {
        return false;
    }
    let sim = content_similarity(new_content, existing_content);
    sim.at_least(1, 2)
}

/// Classify how the text of a new memory relates to the text of a similar
/// existing memory.
pub fn classify_relation(new_content: &str, existing_content: &str) -> (r: MemoryRelation)
    ensures
        r == relation_spec(new_content@, existing_content@),
{
    let new_tokens = meaningful_token_set(new_content);
    let existing_tokens = meaningful_token_set(existing_content);
    proof {
        vviews(new_tokens@).unique_seq_to_set();
        vviews(existing_tokens@).unique_seq_to_set();
    }
    if has_numeric_value_drift(new_content, existing_content) || has_state_change_contradiction(
        new_content,
        existing_content,
        &new_tokens,
        &existing_tokens,
    ) {
        return MemoryRelation::Contradicts;
    }
    let min_len = if new_tokens.len() <= existing_tokens.len() {
        new_tokens.len()
    } else {
        existing_tokens.len()
    };
    if min_len >= 1 && (crate::similarity::all_contained(&new_tokens, &existing_tokens)
        || crate::similarity::all_contained(&existing_tokens, &new_tokens)) {
        return MemoryRelation::Compatible;
    }
    MemoryRelation::Ambiguous
}

/// A compatible pair is a same-direction refinement: both texts have
/// meaningful words, one set contains the other, and no numeric value
/// drifted between them.
pub proof fn law_compatible_is_refinement(new_content: Seq<char>, existing_content: Seq<char>)
    ensures
        relation_spec(new_content, existing_content) == MemoryRelation::Compatible ==> {
            let n = meaningful_set(new_content);
            let e = meaningful_set(existing_content);
            &&& n.len() >= 1
            &&& e.len() >= 1
            &&& n.subset_of(e) || e.subset_of(n)
            &&& !numeric_drift_spec(new_content, existing_content)
        },
{
}

/// Only a numeric drift or closing language in the new text can make it
/// contradict the existing one; two texts that are both closed, without a
/// numeric drift, never contradict (a refinement, not a supersession).
pub proof fn law_contradiction_needs_signal(new_content: Seq<char>, existing_content: Seq<char>)
    ensures
        relation_spec(new_content, existing_content) == MemoryRelation::Contradicts ==> (
        numeric_drift_spec(new_content, existing_content) || polarity_spec(new_content)
            == StatePolarity::Closed),
        polarity_spec(new_content) == StatePolarity::Closed && polarity_spec(existing_content)
            == StatePolarity::Closed && !numeric_drift_spec(new_content, existing_content)
            ==> relation_spec(new_content, existing_content) != MemoryRelation::Contradicts,
{
}


/// A first resolution supersedes: when the new text is closed, the existing
/// one is open or carries no state language at all, the two share a
/// meaningful token outside the state vocabulary, and their similarity is
/// at least one half, the new memory contradicts the existing one.
pub proof fn law_first_resolution_supersedes(new_content: Seq<char>, existing_content: Seq<char>, t: Seq<char>)
    requires
        polarity_spec(new_content) == StatePolarity::Closed,
        polarity_spec(existing_content) == StatePolarity::Open || polarity_spec(existing_content)
            == StatePolarity::Unmarked,
        meaningful_set(new_content).contains(t),
        meaningful_set(existing_content).contains(t),
        !is_marker_token(t),
        2 * similarity_spec(new_content, existing_content).0 >= similarity_spec(
            new_content,
            existing_content,
        ).1,
    ensures
        relation_spec(new_content, existing_content) == MemoryRelation::Contradicts,
{
}

/// Without a numeric drift, a contradiction always comes from a first
/// resolution: the new text is closed, the existing one is not, they share
/// a meaningful token outside the state vocabulary, and their similarity is
/// at least one half.
pub proof fn law_state_contradiction_needs_overlap(new_content: Seq<char>, existing_content: Seq<char>)
    requires
        relation_spec(new_content, existing_content) == MemoryRelation::Contradicts,
        !numeric_drift_spec(new_content, existing_content),
    ensures
        polarity_spec(new_content) == StatePolarity::Closed,
        polarity_spec(existing_content) == StatePolarity::Open || polarity_spec(existing_content)
            == StatePolarity::Unmarked,
        exists|t: Seq<char>|
            meaningful_set(new_content).contains(t) && meaningful_set(existing_content).contains(t)
                && !is_marker_token(t),
        2 * similarity_spec(new_content, existing_content).0 >= similarity_spec(
            new_content,
            existing_content,
        ).1,
{
}

} // verus!
