//! Precise Chinese word segmentation with `jieba-rs`, filtered like the
//! default tokenizer: a segment holding a CJK ideograph is kept whole,
//! lower-cased, unless it is a stop word; any other segment is split on
//! non-alphanumeric characters and each piece goes through the English
//! filter (lower-cased, at least three characters, not a stop word).
use vstd::prelude::*;
use crate::runs::{alnum_chars, runs, split_alnum_runs, vviews};
use crate::text::{chars_of, lowercase_of, to_lowercase};
use crate::tokenizer::{is_cjk_spec, is_stop_word_spec, string_views, word_tokens, DefaultTokenizer,
    Tokenizer,
};

verus! {

broadcast use vstd::seq_lib::group_seq_properties;

#[verifier::external_type_specification]
#[verifier::external_body]
pub struct ExJieba(jieba_rs::Jieba);

/// The words `jieba_rs::Jieba::cut` (with the HMM for unknown words) gives
/// for `text` under the default dictionary, in order.
pub uninterp spec fn jieba_default_words(text: Seq<char>) -> Seq<Seq<char>>;

/// Some character of `w` is a CJK ideograph.
pub open spec fn has_cjk(w: Seq<char>) -> bool {
    exists|i: int| 0 <= i < w.len() && is_cjk_spec(w[i])
}

/// The tokens of the first `n` pieces, each through the English filter.
pub open spec fn pieces_tokens(ps: Seq<Seq<char>>, n: int) -> Seq<Seq<char>>
    decreases n,
{
    if n <= 0 {
        seq![]
    } else {
        pieces_tokens(ps, n - 1) + word_tokens(ps[n - 1])
    }
}

/// The tokens one segment contributes.
pub open spec fn segment_jieba_tokens(w: Seq<char>) -> Seq<Seq<char>> {
    if has_cjk(w) {
        let l = lowercase_of(w);
        if is_stop_word_spec(l) {
            seq![]
        } else {
            seq![l]
        }
    } else {
        let ps = runs(w, alnum_chars());
        pieces_tokens(ps, ps.len() as int)
    }
}

/// The tokens of the first `n` segments, in order.
pub open spec fn jieba_filter_upto(ws: Seq<Seq<char>>, n: int) -> Seq<Seq<char>>
    decreases n,
{
    if n <= 0 {
        seq![]
    } else {
        jieba_filter_upto(ws, n - 1) + segment_jieba_tokens(ws[n - 1])
    }
}

/// The tokens of a sequence of segments.
pub open spec fn jieba_filter_spec(ws: Seq<Seq<char>>) -> Seq<Seq<char>> {
    jieba_filter_upto(ws, ws.len() as int)
}

/// A tokenizer that segments Chinese with jieba's default dictionary.
pub struct JiebaTokenizer {
    jieba: jieba_rs::Jieba,
}

fn has_cjk_exec(w: &[char]) -> (r: bool)
    ensures
        r == has_cjk(w@),
{
    let mut i: usize = 0;
    while i < w.len()
        invariant
            i <= w@.len(),
            forall|j: int| 0 <= j < i ==> !is_cjk_spec(w@[j]),
        decreases w.len() - i,
    {
        if DefaultTokenizer::is_cjk(w[i]) {
            return true;
        }
        i += 1;
    }
    false
}

/// The tokens one segment contributes, appended to `out`.
fn push_segment_tokens(out: &mut Vec<String>, segment: &str)
    ensures
        string_views(final(out)@) == string_views(old(out)@) + segment_jieba_tokens(segment@),
{
    let w = chars_of(segment);
    if has_cjk_exec(w.as_slice()) {
        let lower = to_lowercase(segment);
        if DefaultTokenizer::is_stop_word_pub(lower.as_str()) {
            assert(string_views(out@) + seq![] =~= string_views(out@));
            return;
        }
        let ghost before = string_views(out@);
        out.push(lower);
        assert(string_views(out@) =~= before + seq![lowercase_of(segment@)]);
        return;
    }
    let pieces = split_alnum_runs(w.as_slice());
    let ghost ps = runs(segment@, alnum_chars());
    let ghost start = string_views(out@);
    let mut k: usize = 0;
    while k < pieces.len()
        invariant
            vviews(pieces@) == ps,
            k <= pieces@.len(),
            string_views(out@) == start + pieces_tokens(ps, k as int),
        decreases pieces.len() - k,
    {
        assert(ps[k as int] == pieces@[k as int]@);
        let ghost before = string_views(out@);
        DefaultTokenizer::push_if_meaningful(out, pieces[k].as_slice());
        assert(start + pieces_tokens(ps, k + 1) =~= start + pieces_tokens(ps, k as int)
            + word_tokens(ps[k as int]));
        k += 1;
    }
}

/// Filter jieba's segments into tokens (see [`jieba_filter_spec`]).
pub fn filter_jieba_words(words: &[String]) -> (r: Vec<String>)
    ensures
        string_views(r@) == jieba_filter_spec(string_views(words@)),
{
    let ghost ws = string_views(words@);
    let mut out: Vec<String> = Vec::new();
    let mut i: usize = 0;
    while i < words.len()
        invariant
            ws == string_views(words@),
            i <= words@.len(),
            string_views(out@) == jieba_filter_upto(ws, i as int),
        decreases words.len() - i,
    {
        assert(ws[i as int] == words@[i as int]@);
        push_segment_tokens(&mut out, words[i].as_str());
        i += 1;
    }
    out
}

impl JiebaTokenizer {
    /// A tokenizer with jieba's default dictionary (`Jieba::new`). Trusted:
    /// nothing is claimed of the value; the dictionary is always the
    /// default one, since the field is private.
    #[verifier::external_body]
    pub fn new() -> JiebaTokenizer {
        JiebaTokenizer { jieba: jieba_rs::Jieba::new() }
    }

    /// Calls `Jieba::cut(text, true)` and keeps each token's word. Trusted:
    /// the words are jieba's answer for this text under the default
    /// dictionary, named `jieba_default_words`.
    #[verifier::external_body]
    fn cut_words(&self, text: &str) -> (r: Vec<String>)
        ensures
            string_views(r@) == jieba_default_words(text@),
    {
        self.jieba.cut(text, true).into_iter().map(|t| t.word.to_string()).collect()
    }

    /// The tokens of `text`: jieba's words, filtered.
    pub fn meaningful_tokens(&self, text: &str) -> (r: Vec<String>)
        ensures
            string_views(r@) == jieba_filter_spec(jieba_default_words(text@)),
    {
        let words = self.cut_words(text);
        filter_jieba_words(words.as_slice())
    }
}

impl Tokenizer for JiebaTokenizer {
    fn meaningful_tokens(&self, text: &str) -> (r: Vec<String>)
        ensures
            string_views(r@) == jieba_filter_spec(jieba_default_words(text@)),
    {
        JiebaTokenizer::meaningful_tokens(self, text)
    }
}

} // verus!
