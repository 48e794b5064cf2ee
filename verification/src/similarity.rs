//! Jaccard similarity over meaningful content tokens.
//!
//! The tokens of a text are those of the tokenizer (lower-cased word runs
//! of alphanumerics, `_` and `-`, stop words and short words dropped, and
//! two-character grams of CJK runs). The similarity of two texts is the
//! Jaccard index of their token sets, except that a subset relation with at
//! least two tokens on the smaller side counts as a full match, and an empty
//! side gives zero. It is returned as an exact ratio of two counts.
//!
//! A whitespace word is meaningful (for recall keywords) when its lower-case
//! form is at least three bytes long and is not an English stop word.
use vstd::prelude::*;
use crate::runs::{split_whitespace_chars, vviews, ws_words};
use crate::text::{
    ascii_lower, is_ascii_text,
    chars_eq, chars_of, copy_chars, lowercase_chars, lowercase_of, string_from_chars, to_lowercase,
    utf8_len, utf8_len_at_least,
};
use crate::tokenizer::{
    in_list, in_word_list, lemma_segment_tokens_ascii_lower, segment_tokens, stop_words_en,
    stop_words_en_array, string_views, DefaultTokenizer,
};

verus! {

broadcast use vstd::seq_lib::group_seq_properties;

/// A whitespace word is meaningful: its lower-case form has at least three
/// UTF-8 bytes and is not an English stop word.
pub open spec fn is_meaningful_spec(w: Seq<char>) -> bool {
    let l = lowercase_of(w);
    utf8_len(l) >= 3 && !in_word_list(l, stop_words_en())
}

/// The set of tokens of a text, as the tokenizer yields them.
pub open spec fn meaningful_set(text: Seq<char>) -> Set<Seq<char>> {
    segment_tokens(text).to_set()
}

/// Similarity of two token sets as (numerator, denominator).
pub open spec fn similarity_of_sets(a: Set<Seq<char>>, b: Set<Seq<char>>) -> (int, int) {
    if a.len() == 0 || b.len() == 0 {
        (0, 1)
    } else if (if a.len() <= b.len() {
        a.len()
    } else {
        b.len()
    }) >= 2 && (a.subset_of(b) || b.subset_of(a)) {
        (1, 1)
    } else {
        (a.intersect(b).len() as int, a.union(b).len() as int)
    }
}

/// Similarity of two texts as (numerator, denominator).
pub open spec fn similarity_spec(a: Seq<char>, b: Seq<char>) -> (int, int) {
    similarity_of_sets(meaningful_set(a), meaningful_set(b))
}

/// Products of two 64-bit values fit in 128 bits.
pub proof fn lemma_mul_fits(x: u128, y: u128)
    requires
        x <= 0xffff_ffff_ffff_ffff,
        y <= 0xffff_ffff_ffff_ffff,
    ensures
        x * y <= 0xffff_ffff_ffff_fffe_0000_0000_0000_0001,
{
    assert(x * y <= 0xffff_ffff_ffff_ffff * 0xffff_ffff_ffff_ffff) by (nonlinear_arith)
        requires
            x <= 0xffff_ffff_ffff_ffff,
            y <= 0xffff_ffff_ffff_ffff,
    ;
}

/// An exact similarity value `num / den` with `den > 0`.
#[derive(Clone, Copy, Debug, PartialEq, Eq, Structural)]
pub struct Similarity {
    pub num: usize,
    pub den: usize,
}

impl Similarity {
    pub open spec fn pair(self) -> (int, int) {
        (self.num as int, self.den as int)
    }

    /// `self >= num / den`, compared exactly.
    pub fn at_least(&self, num: usize, den: usize) -> (r: bool)
        requires
            self.den > 0,
            den > 0,
        ensures
            r == (self.num as int * den as int >= num as int * self.den as int),
    {
        proof {
            lemma_mul_fits(self.num as u128, den as u128);
            lemma_mul_fits(num as u128, self.den as u128);
        }
        (self.num as u128) * (den as u128) >= (num as u128) * (self.den as u128)
    }

    /// `self > num / den`, compared exactly.
    pub fn greater_than(&self, num: usize, den: usize) -> (r: bool)
        requires
            self.den > 0,
            den > 0,
        ensures
            r == (self.num as int * den as int > num as int * self.den as int),
    {
        proof {
            lemma_mul_fits(self.num as u128, den as u128);
            lemma_mul_fits(num as u128, self.den as u128);
        }
        (self.num as u128) * (den as u128) > (num as u128) * (self.den as u128)
    }
}

/// Whether a whitespace token is meaningful for similarity comparison:
/// its lower-case form is at least three bytes long and not a stop word.
pub fn is_meaningful_token(token: &str) -> (r: bool)
    ensures
        r == is_meaningful_spec(token@),
{
    let lower = to_lowercase(token);
    let l = chars_of(lower.as_str());
    if !utf8_len_at_least(l.as_slice(), 3) {
        return false;
    }
    let en = stop_words_en_array();
    !in_list(l.as_slice(), &en)
}

/// `is_meaningful_token` on a character sequence.
pub fn is_meaningful_chars(w: &[char]) -> (r: bool)
    ensures
        r == is_meaningful_spec(w@),
{
    let s = string_from_chars(w);
    is_meaningful_token(s.as_str())
}

/// Whether `v` holds a sequence equal to `w`.
pub fn contains_word(v: &Vec<Vec<char>>, w: &[char]) -> (r: bool)
    ensures
        r == vviews(v@).contains(w@),
{
    let mut i: usize = 0;
    while i < v.len()
        invariant
            i <= v@.len(),
            forall|j: int| 0 <= j < i ==> v@[j]@ != w@,
        decreases v.len() - i,
    {
        if chars_eq(v[i].as_slice(), w) {
            assert(vviews(v@)[i as int] == w@);
            return true;
        }
        i += 1;
    }
    assert forall|j: int| 0 <= j < vviews(v@).len() implies vviews(v@)[j] != w@ by {
        assert(vviews(v@)[j] == v@[j]@);
    }
    false
}

/// The tokenizer's tokens of `content`, each once, in order of first
/// appearance.
pub fn meaningful_token_set(content: &str) -> (r: Vec<Vec<char>>)
    ensures
        vviews(r@).no_duplicates(),
        vviews(r@).to_set() == meaningful_set(content@),
{
    let toks = DefaultTokenizer.tokenize_segments(content);
    let ghost ts = string_views(toks@);
    let mut out: Vec<Vec<char>> = Vec::new();
    let mut i: usize = 0;
    assert(vviews(out@).to_set() =~= ts.take(0).to_set());
    while i < toks.len()
        invariant
            ts == string_views(toks@),
            ts == segment_tokens(content@),
            i <= toks@.len(),
            vviews(out@).no_duplicates(),
            vviews(out@).to_set() == ts.take(i as int).to_set(),
        decreases toks.len() - i,
    {
        let w = chars_of(toks[i].as_str());
        assert(w@ == ts[i as int]);
        assert(ts.take(i + 1) =~= ts.take(i as int).push(w@));
        proof {
            ts.take(i as int).lemma_push_to_set_commute(w@);
        }
        let ghost before = vviews(out@);
        if !contains_word(&out, w.as_slice()) {
            out.push(w);
            assert(vviews(out@) =~= before.push(w@));
            proof {
                before.lemma_push_to_set_commute(w@);
            }
        } else {
            assert(before.to_set().insert(w@) =~= before.to_set());
        }
        i += 1;
    }
    assert(ts.take(toks@.len() as int) =~= ts);
    out
}

/// The elements of `a` that also occur in `b`.
fn intersect_words(a: &Vec<Vec<char>>, b: &Vec<Vec<char>>) -> (r: Vec<Vec<char>>)
    requires
        vviews(a@).no_duplicates(),
    ensures
        vviews(r@).no_duplicates(),
        vviews(r@).to_set() == vviews(a@).to_set().intersect(vviews(b@).to_set()),
{
    let mut out: Vec<Vec<char>> = Vec::new();
    let mut i: usize = 0;
    while i < a.len()
        invariant
            i <= a@.len(),
            vviews(a@).no_duplicates(),
            vviews(out@).no_duplicates(),
            forall|t: Seq<char>|
                vviews(out@).contains(t) <==> (exists|j: int|
                    0 <= j < i && vviews(a@)[j] == t) && vviews(b@).contains(t),
        decreases a.len() - i,
    {
        let ghost before = vviews(out@);
        let ghost x = vviews(a@)[i as int];
        assert(x == a@[i as int]@);
        if contains_word(b, a[i].as_slice()) {
            let w = copy_chars(a[i].as_slice());
            assert(w@ == x);
            out.push(w);
            assert(vviews(out@) =~= before.push(x));
            assert(!before.contains(x)) by {
                if before.contains(x) {
                    let j = choose|j: int| 0 <= j < i && vviews(a@)[j] == x;
                    assert(vviews(a@)[j] == vviews(a@)[i as int]);
                }
            }
        }
        assert forall|t: Seq<char>|
            vviews(out@).contains(t) <==> (exists|j: int| 0 <= j < i + 1 && vviews(a@)[j] == t)
                && vviews(b@).contains(t) by {
            if vviews(out@).contains(t) && !before.contains(t) {
                assert(t == x);
                assert(vviews(a@)[i as int] == t);
            }
            if (exists|j: int| 0 <= j < i + 1 && vviews(a@)[j] == t) && vviews(b@).contains(t) {
                let j = choose|j: int| 0 <= j < i + 1 && vviews(a@)[j] == t;
                if j == i {
                    assert(vviews(out@).contains(x));
                } else {
                    assert(before.contains(t));
                    assert(vviews(out@).contains(t));
                }
            }
        }
        i += 1;
    }
    assert(vviews(out@).to_set() =~= vviews(a@).to_set().intersect(vviews(b@).to_set())) by {
        assert forall|t: Seq<char>| vviews(a@).contains(t) implies exists|j: int|
            0 <= j < a@.len() && vviews(a@)[j] == t by {
            let j = choose|j: int| 0 <= j < vviews(a@).len() && vviews(a@)[j] == t;
        }
    }
    out
}

/// The elements of `a` followed by those of `b` that are not in `a`.
fn union_words(a: &Vec<Vec<char>>, b: &Vec<Vec<char>>) -> (r: Vec<Vec<char>>)
    requires
        vviews(a@).no_duplicates(),
        vviews(b@).no_duplicates(),
    ensures
        vviews(r@).no_duplicates(),
        vviews(r@).to_set() == vviews(a@).to_set().union(vviews(b@).to_set()),
{
    let mut out: Vec<Vec<char>> = Vec::new();
    let mut i: usize = 0;
    while i < a.len()
        invariant
            i <= a@.len(),
            vviews(a@).no_duplicates(),
            vviews(out@) == vviews(a@).take(i as int),
        decreases a.len() - i,
    {
        assert(vviews(a@)[i as int] == a@[i as int]@);
        let ghost before = out@;
        let w = copy_chars(a[i].as_slice());
        out.push(w);
        assert(out@ == before.push(w));
        assert(vviews(out@) =~= vviews(before).push(w@));
        assert(vviews(out@) =~= vviews(a@).take(i + 1));
        i += 1;
    }
    assert(vviews(a@).take(a@.len() as int) =~= vviews(a@));
    let mut k: usize = 0;
    while k < b.len()
        invariant
            k <= b@.len(),
            vviews(a@).no_duplicates(),
            vviews(b@).no_duplicates(),
            vviews(out@).no_duplicates(),
            forall|t: Seq<char>|
                vviews(out@).contains(t) <==> vviews(a@).contains(t) || (exists|j: int|
                    0 <= j < k && vviews(b@)[j] == t),
        decreases b.len() - k,
    {
        let ghost before = vviews(out@);
        let ghost x = vviews(b@)[k as int];
        assert(x == b@[k as int]@);
        if !contains_word(&out, b[k].as_slice()) {
            let w = copy_chars(b[k].as_slice());
            out.push(w);
            assert(vviews(out@) =~= before.push(x));
        }
        assert forall|t: Seq<char>|
            vviews(out@).contains(t) <==> vviews(a@).contains(t) || (exists|j: int|
                0 <= j < k + 1 && vviews(b@)[j] == t) by {
            if vviews(out@).contains(t) && !before.contains(t) {
                assert(vviews(b@)[k as int] == t);
            }
            if exists|j: int| 0 <= j < k + 1 && vviews(b@)[j] == t {
                let j = choose|j: int| 0 <= j < k + 1 && vviews(b@)[j] == t;
                if j == k {
                    assert(vviews(out@).contains(x));
                } else {
                    assert(before.contains(t));
                    assert(vviews(out@).contains(t));
                }
            }
        }
        k += 1;
    }
    assert(vviews(out@).to_set() =~= vviews(a@).to_set().union(vviews(b@).to_set())) by {
        assert forall|t: Seq<char>| vviews(b@).contains(t) implies exists|j: int|
            0 <= j < b@.len() && vviews(b@)[j] == t by {
            let j = choose|j: int| 0 <= j < vviews(b@).len() && vviews(b@)[j] == t;
        }
    }
    out
}

/// Whether every element of `a` occurs in `b`.
pub fn all_contained(a: &Vec<Vec<char>>, b: &Vec<Vec<char>>) -> (r: bool)
    ensures
        r == vviews(a@).to_set().subset_of(vviews(b@).to_set()),
{
    let mut i: usize = 0;
    while i < a.len()
        invariant
            i <= a@.len(),
            forall|j: int| 0 <= j < i ==> vviews(b@).contains(#[trigger] vviews(a@)[j]),
        decreases a.len() - i,
    {
        assert(vviews(a@)[i as int] == a@[i as int]@);
        if !contains_word(b, a[i].as_slice()) {
            assert(vviews(a@).to_set().contains(vviews(a@)[i as int]));
            return false;
        }
        i += 1;
    }
    assert forall|t: Seq<char>| vviews(a@).to_set().contains(t) implies vviews(
        b@,
    ).to_set().contains(t) by {
        let j = choose|j: int| 0 <= j < vviews(a@).len() && vviews(a@)[j] == t;
    }
    true
}

/// Similarity of two token sets given as duplicate-free vectors.
pub fn similarity_of_words(a: &Vec<Vec<char>>, b: &Vec<Vec<char>>) -> (r: Similarity)
    requires
        vviews(a@).no_duplicates(),
        vviews(b@).no_duplicates(),
    ensures
        r.den > 0,
        r.pair() == similarity_of_sets(vviews(a@).to_set(), vviews(b@).to_set()),
{
    let ghost sa = vviews(a@).to_set();
    let ghost sb = vviews(b@).to_set();
    proof {
        vviews(a@).unique_seq_to_set();
        vviews(b@).unique_seq_to_set();
    }
    if a.len() == 0 || b.len() == 0 {
        return Similarity { num: 0, den: 1 };
    }
    let min_len = if a.len() <= b.len() {
        a.len()
    } else {
        b.len()
    };
    if min_len >= 2 && (all_contained(a, b) || all_contained(b, a)) {
        return Similarity { num: 1, den: 1 };
    }
    let inter = intersect_words(a, b);
    let union = union_words(a, b);
    proof {
        vviews(inter@).unique_seq_to_set();
        vviews(union@).unique_seq_to_set();
        assert(vviews(a@).contains(vviews(a@)[0]));
        assert(vviews(a@).to_set().contains(vviews(a@)[0]));
        assert(vviews(union@).to_set().contains(vviews(a@)[0]));
        assert(vviews(union@).contains(vviews(a@)[0]));
    }
    Similarity { num: inter.len(), den: union.len() }
}

/// Type-agnostic Jaccard similarity of two texts over their meaningful,
/// lower-cased whitespace words.
pub fn content_similarity(a: &str, b: &str) -> (r: Similarity)
    ensures
        r.den > 0,
        r.pair() == similarity_spec(a@, b@),
{
    let wa = meaningful_token_set(a);
    let wb = meaningful_token_set(b);
    similarity_of_words(&wa, &wb)
}

/// The meaningful words of a prefix form a finite set.
/// The tokens of a text form a finite set.
pub proof fn lemma_meaningful_set_finite(text: Seq<char>)
    ensures
        meaningful_set(text).finite(),
{
    vstd::seq_lib::seq_to_set_is_finite(segment_tokens(text));
}

/// Similarity is a ratio between zero and one: the numerator never exceeds
/// the (positive) denominator.
pub proof fn law_similarity_at_most_one(a: Seq<char>, b: Seq<char>)
    ensures
        0 <= similarity_spec(a, b).0 <= similarity_spec(a, b).1,
        similarity_spec(a, b).1 >= 1,
{
    let sa = meaningful_set(a);
    let sb = meaningful_set(b);
    lemma_meaningful_set_finite(a);
    lemma_meaningful_set_finite(b);
    if sa.len() > 0 && sb.len() > 0 {
        let u = sa.union(sb);
        assert(u.finite());
        vstd::set_lib::lemma_len_subset(sa.intersect(sb), u);
        vstd::set_lib::lemma_len_subset(sa, u);
    }
}

/// A text with at least one meaningful word is a full match with itself;
/// a text without any has similarity zero with itself.
pub proof fn law_self_similarity(a: Seq<char>)
    ensures
        meaningful_set(a).len() > 0 ==> similarity_spec(a, a) == (1int, 1int),
        meaningful_set(a).len() == 0 ==> similarity_spec(a, a) == (0int, 1int),
{
    let sa = meaningful_set(a);
    assert(sa.intersect(sa) =~= sa);
    assert(sa.union(sa) =~= sa);
}


/// Similarity does not depend on the order of its arguments.
pub proof fn law_similarity_symmetric(a: Seq<char>, b: Seq<char>)
    ensures
        similarity_spec(a, b) == similarity_spec(b, a),
{
    let sa = meaningful_set(a);
    let sb = meaningful_set(b);
    assert(sa.intersect(sb) =~= sb.intersect(sa));
    assert(sa.union(sb) =~= sb.union(sa));
}

/// On ASCII text similarity ignores letter case.
pub proof fn law_similarity_ignores_ascii_case(a: Seq<char>, b: Seq<char>)
    requires
        is_ascii_text(a),
        is_ascii_text(b),
    ensures
        similarity_spec(ascii_lower(a), b) == similarity_spec(a, b),
        similarity_spec(ascii_lower(a), ascii_lower(b)) == similarity_spec(a, b),
{
    lemma_segment_tokens_ascii_lower(a);
    lemma_segment_tokens_ascii_lower(b);
}

} // verus!
