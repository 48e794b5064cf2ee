//! State-change language: whole-token marker matching and the polarity of
//! a memory's text (closed / open / none).
use vstd::prelude::*;
use crate::runs::{is_token_char_spec, runs, split_token_runs, token_chars, vviews};
use crate::text::{
    chars_of, is_ascii_alnum, lowercase_chars, lowercase_of, occurs_at,
    occurs_at_exec, string_from_chars,
};
use crate::tokenizer::{in_word_list, string_views};

verus! {

// ── Whole-token matching ────────────────────────────────────────────────

/// `needle` occurs in `hay` at `i`, and the characters just outside the
/// occurrence (if any) are not token characters (ASCII alphanumerics, `_`,
/// `-`). So `fixed` matches in "bug fixed." but not in "fixed-width" or
/// "unfixed".
pub open spec fn whole_at(hay: Seq<char>, needle: Seq<char>, i: int) -> bool {
    &&& occurs_at(hay, needle, i)
    &&& (i == 0 || !is_token_char_spec(hay[i - 1]))
    &&& (i + needle.len() >= hay.len() || !is_token_char_spec(hay[i + needle.len()]))
}

/// A non-empty `needle` occurs somewhere in `hay` as a whole token.
pub open spec fn has_whole_spec(hay: Seq<char>, needle: Seq<char>) -> bool {
    needle.len() > 0 && exists|i: int| whole_at(hay, needle, i)
}

/// Whether `c` is a token character (ASCII alphanumeric, `_` or `-`).
pub fn is_token_char(c: char) -> (r: bool)
    ensures
        r == is_token_char_spec(c),
{
    is_ascii_alnum(c) || c == '_' || c == '-'
}

/// Whether `needle` occurs in `hay` as a whole token.
pub fn has_whole_chars(hay: &[char], needle: &[char]) -> (r: bool)
    ensures
        r == has_whole_spec(hay@, needle@),
{
    if needle.len() == 0 {
        return false;
    }
    let n = hay.len();
    let m = needle.len();
    let mut i: usize = 0;
    while i < n
        invariant
            n == hay@.len(),
            m == needle@.len(),
            m > 0,
            i <= n,
            forall|j: int| 0 <= j < i ==> !whole_at(hay@, needle@, j),
        decreases n - i,
    {
        if occurs_at_exec(hay, needle, i) {
            let before_ok = i == 0 || !is_token_char(hay[i - 1]);
            let after = i + m;
            let after_ok = after >= n || !is_token_char(hay[after]);
            if before_ok && after_ok {
                assert(whole_at(hay@, needle@, i as int));
                return true;
            }
        }
        i += 1;
    }
    assert forall|j: int| !whole_at(hay@, needle@, j) by {
        if j >= n {
            assert(!occurs_at(hay@, needle@, j));
        }
    }
    false
}

/// True when `needle` appears in `haystack_lower` as a whole token (bounded
/// by non-token characters or the ends).
pub fn has_whole_token(haystack_lower: &str, needle: &str) -> (r: bool)
    ensures
        r == has_whole_spec(haystack_lower@, needle@),
{
    let h = chars_of(haystack_lower);
    let n = chars_of(needle);
    has_whole_chars(h.as_slice(), n.as_slice())
}

/// Whole-phrase match: the phrase's interior may contain spaces, but both
/// of its ends must be bounded by non-token characters.
pub fn has_whole_phrase(haystack_lower: &str, phrase: &str) -> (r: bool)
    ensures
        r == has_whole_spec(haystack_lower@, phrase@),
{
    has_whole_token(haystack_lower, phrase)
}

// ── Lower-case bare tokens ──────────────────────────────────────────────

/// The maximal runs of token characters of `content`, each lower-cased.
pub open spec fn word_tokens_lower(content: Seq<char>) -> Seq<Seq<char>> {
    runs(content, token_chars()).map_values(|t: Seq<char>| lowercase_of(t))
}

/// Split `content` on every character other than ASCII alphanumerics, `_`
/// and `-`, drop empty pieces, and lower-case the rest.
pub fn lowercase_word_tokens(content: &str) -> (r: Vec<String>)
    ensures
        string_views(r@) == word_tokens_lower(content@),
{
    let chars = chars_of(content);
    let pieces = split_token_runs(chars.as_slice());
    let ghost ps = runs(content@, token_chars());
    let mut out: Vec<String> = Vec::new();
    let mut i: usize = 0;
    while i < pieces.len()
        invariant
            vviews(pieces@) == ps,
            i <= pieces@.len(),
            string_views(out@) == ps.take(i as int).map_values(|t: Seq<char>| lowercase_of(t)),
        decreases pieces.len() - i,
    {
        assert(ps[i as int] == pieces@[i as int]@);
        let l = lowercase_chars(pieces[i].as_slice());
        let s = string_from_chars(l.as_slice());
        let ghost before = out@;
        out.push(s);
        assert(string_views(out@) =~= string_views(before).push(s@));
        assert(ps.take(i + 1).map_values(|t: Seq<char>| lowercase_of(t)) =~= ps.take(
            i as int,
        ).map_values(|t: Seq<char>| lowercase_of(t)).push(lowercase_of(ps[i as int])));
        i += 1;
    }
    assert(ps.take(pieces@.len() as int) =~= ps);
    out
}

// ── Marker vocabularies ─────────────────────────────────────────────────

/// Closed (resolved / removed) state-change markers, matched as whole tokens.
pub open spec fn closed_markers() -> Seq<&'static str> {
    seq![
        "fixed", "resolved", "removed", "deprecated", "migrated", "replaced", "obsolete",
        "deleted", "disabled",
    ]
}

/// Open / still-pending polarity cues, matched as whole tokens.
pub open spec fn open_markers() -> Seq<&'static str> {
    seq!["unresolved", "unfixed", "open", "pending", "exists", "broken"]
}

/// Multi-word closed phrases.
pub open spec fn closed_phrases() -> Seq<&'static str> {
    seq!["no longer"]
}

/// Multi-word open / negated-closed phrases.
pub open spec fn open_phrases() -> Seq<&'static str> {
    seq!["not fixed", "not resolved", "still broken"]
}

fn closed_markers_array() -> (a: [&'static str; 9])
    ensures
        a@ == closed_markers(),
{
    let a: [&'static str; 9] = [
        "fixed", "resolved", "removed", "deprecated", "migrated", "replaced", "obsolete",
        "deleted", "disabled",
    ];
    assert(a@ =~= closed_markers());
    a
}

fn open_markers_array() -> (a: [&'static str; 6])
    ensures
        a@ == open_markers(),
{
    let a: [&'static str; 6] = ["unresolved", "unfixed", "open", "pending", "exists", "broken"];
    assert(a@ =~= open_markers());
    a
}

fn open_phrases_array() -> (a: [&'static str; 3])
    ensures
        a@ == open_phrases(),
{
    let a: [&'static str; 3] = ["not fixed", "not resolved", "still broken"];
    assert(a@ =~= open_phrases());
    a
}

/// Some entry of `list` occurs in `hay` as a whole token.
pub open spec fn any_whole(hay: Seq<char>, list: Seq<&'static str>) -> bool {
    exists|i: int| 0 <= i < list.len() && has_whole_spec(hay, list[i]@)
}

fn any_whole_exec<const N: usize>(hay: &[char], list: &[&'static str; N]) -> (r: bool)
    ensures
        r == any_whole(hay@, list@),
{
    let mut i: usize = 0;
    while i < N
        invariant
            i <= N,
            list@.len() == N,
            forall|j: int| 0 <= j < i ==> !has_whole_spec(hay@, (#[trigger] list@[j])@),
        decreases N - i,
    {
        let needle = chars_of(list[i]);
        if has_whole_chars(hay, needle.as_slice()) {
            return true;
        }
        i += 1;
    }
    false
}

// ── Polarity ────────────────────────────────────────────────────────────

/// State-change polarity of a memory's text.
#[derive(Clone, Copy, Debug, PartialEq, Eq, Structural)]
pub enum StatePolarity {
    /// Explicitly closed / resolved / removed.
    Closed,
    /// Explicitly open / unresolved / not fixed.
    Open,
    /// No state-change language, or conflicting language without negation.
    Unmarked,
}

/// The polarity of `content`:
/// - open language (an open phrase, or an open marker among the bare
///   tokens) without closed language gives `Open`;
/// - both open and closed language give `Open` when an open phrase (such
///   as "not fixed") is present, else `Unmarked`;
/// - closed language alone (a closed phrase, or a closed marker as a whole
///   token of the lower-cased text) gives `Closed`;
/// - neither gives `Unmarked`.
pub open spec fn polarity_spec(content: Seq<char>) -> StatePolarity {
    let lower = lowercase_of(content);
    let open_phrase = any_whole(lower, open_phrases());
    let closed_phrase = any_whole(lower, closed_phrases());
    let toks = word_tokens_lower(content);
    let open_token = exists|i: int| 0 <= i < toks.len() && in_word_list(toks[i], open_markers());
    let closed_token = any_whole(lower, closed_markers());
    let open = open_phrase || open_token;
    let closed = closed_phrase || closed_token;
    if open && !closed {
        StatePolarity::Open
    } else if open && closed {
        if open_phrase {
            StatePolarity::Open
        } else {
            StatePolarity::Unmarked
        }
    } else if closed {
        StatePolarity::Closed
    } else {
        StatePolarity::Unmarked
    }
}

/// Whether `w` spells an entry of `list`.
fn in_list_slice<const N: usize>(w: &[char], list: &[&'static str; N]) -> (r: bool)
    ensures
        r == in_word_list(w@, list@),
{
    crate::tokenizer::in_list(w, list)
}

/// Classify the state-change language of `content`.
pub fn state_polarity(content: &str) -> (r: StatePolarity)
    ensures
        r == polarity_spec(content@),
{
    let lower_s = crate::text::to_lowercase(content);
    let lower = chars_of(lower_s.as_str());
    let open_phrase = any_whole_exec(lower.as_slice(), &open_phrases_array());
    let closed_list: [&'static str; 1] = ["no longer"];
    assert(closed_list@ =~= closed_phrases());
    let closed_phrase = any_whole_exec(lower.as_slice(), &closed_list);

    let tokens = lowercase_word_tokens(content);
    let ghost toks = word_tokens_lower(content@);
    let open_list = open_markers_array();
    let mut open_token = false;
    let mut i: usize = 0;
    while i < tokens.len()
        invariant
            string_views(tokens@) == toks,
            open_list@ == open_markers(),
            i <= tokens@.len(),
            open_token == (exists|j: int| 0 <= j < i && in_word_list(toks[j], open_markers())),
        decreases tokens.len() - i,
    {
        assert(toks[i as int] == tokens@[i as int]@);
        let t = chars_of(tokens[i].as_str());
        if in_list_slice(t.as_slice(), &open_list) {
            open_token = true;
        }
        i += 1;
    }
    let closed_token = any_whole_exec(lower.as_slice(), &closed_markers_array());

    let open = open_phrase || open_token;
    let closed = closed_phrase || closed_token;
    if open && !closed {
        return StatePolarity::Open;
    }
    if open && closed {
        if open_phrase {
            return StatePolarity::Open;
        }
        return StatePolarity::Unmarked;
    }
    if closed {
        return StatePolarity::Closed;
    }
    StatePolarity::Unmarked
}

} // verus!
