//! Unified tokenizer for memory recall, similarity and indexing.
//!
//! Text is scanned character by character. Maximal runs of CJK ideographs
//! become overlapping two-character grams ("用户登录" gives "用户", "户登",
//! "登录"); maximal runs of word characters (alphanumeric, `_`, `-`) become
//! one lower-cased word each. Everything else separates runs. Stop words are
//! dropped everywhere, and words shorter than three characters (after
//! lower-casing) are dropped too.
use vstd::prelude::*;
use crate::text::{
    ascii_lower, ascii_lower_char, char_is_alphanumeric, chars_eq_str, chars_of, is_ascii_char,
    is_ascii_text, is_ascii_upper, is_unicode_alphanumeric, lowercase_chars, lowercase_of,
    string_from_chars,
};

verus! {

// ── Model ───────────────────────────────────────────────────────────────

/// English stop words filtered by every tokenizer.
pub open spec fn stop_words_en() -> Seq<&'static str> {
    seq![
        "the", "a", "an", "and", "or", "but", "is", "are", "was", "were", "be", "been", "being",
        "to", "of", "in", "on", "at", "by", "for", "with", "from", "as", "into", "than", "then",
        "this", "that", "these", "those", "it", "its", "i", "you", "he", "she", "we", "they",
        "not", "no", "do", "does", "did", "has", "have", "had", "will", "would", "can", "could",
        "should", "may", "might", "must", "if", "so", "up", "out", "about",
    ]
}

/// High-frequency Chinese function words that carry no topical signal.
pub open spec fn stop_words_zh() -> Seq<&'static str> {
    seq![
        "我们", "你们", "他们", "这个", "那个", "这些", "那些", "什么", "怎么", "可以", "应该",
        "已经", "现在", "的话", "以为",
    ]
}

pub open spec fn in_word_list(w: Seq<char>, list: Seq<&'static str>) -> bool {
    exists|i: int| 0 <= i < list.len() && w == list[i]@
}

/// `w` is one of the English or Chinese stop words.
pub open spec fn is_stop_word_spec(w: Seq<char>) -> bool {
    in_word_list(w, stop_words_en()) || in_word_list(w, stop_words_zh())
}

/// CJK Unified Ideographs, Extension A, or Compatibility Ideographs.
pub open spec fn is_cjk_spec(c: char) -> bool {
    ('\u{4E00}' <= c && c <= '\u{9FFF}') || ('\u{3400}' <= c && c <= '\u{4DBF}') || (
    '\u{F900}' <= c && c <= '\u{FAFF}')
}

/// Scanner class of a character: 1 = CJK ideograph, 2 = word character
/// (alphanumeric, `_` or `-`), 0 = separator. CJK wins over alphanumeric.
pub open spec fn char_class(c: char) -> u8 {
    if is_cjk_spec(c) {
        1
    } else if is_unicode_alphanumeric(c) || c == '_' || c == '-' {
        2
    } else {
        0
    }
}

/// Length of the maximal prefix of `s` whose characters all have class `k`.
pub open spec fn run_len(s: Seq<char>, k: u8) -> nat
    decreases s.len(),
{
    if s.len() > 0 && char_class(s[0]) == k {
        1 + run_len(s.drop_first(), k)
    } else {
        0
    }
}

/// The token a word run contributes: its lower-case form when that has at
/// least three characters and is not a stop word.
pub open spec fn word_tokens(word: Seq<char>) -> Seq<Seq<char>> {
    let l = lowercase_of(word);
    if l.len() >= 3 && !is_stop_word_spec(l) {
        seq![l]
    } else {
        seq![]
    }
}

/// The tokens a CJK run contributes: its overlapping two-character grams,
/// stop words removed. A run of one character contributes nothing.
pub open spec fn bigram_tokens(run: Seq<char>) -> Seq<Seq<char>>
    decreases run.len(),
{
    if run.len() < 2 {
        seq![]
    } else {
        let b = seq![run[0], run[1]];
        (if is_stop_word_spec(b) {
            seq![]
        } else {
            seq![b]
        }) + bigram_tokens(run.drop_first())
    }
}

/// The tokens of a text: its maximal runs, left to right, each turned into
/// tokens by its class; separators contribute nothing.
pub open spec fn segment_tokens(text: Seq<char>) -> Seq<Seq<char>>
    decreases text.len(),
{
    if text.len() == 0 {
        seq![]
    } else {
        let k = char_class(text[0]);
        if k == 0 {
            segment_tokens(text.drop_first())
        } else {
            let n = run_len(text, k);
            proof {
                lemma_run_len_bounds(text, k);
            }
            (if k == 1 {
                bigram_tokens(text.take(n as int))
            } else {
                word_tokens(text.take(n as int))
            }) + segment_tokens(text.skip(n as int))
        }
    }
}

/// The character sequences held by a vector of strings.
pub open spec fn string_views(v: Seq<String>) -> Seq<Seq<char>> {
    v.map_values(|s: String| s@)
}

// ── Lemmas ──────────────────────────────────────────────────────────────

pub proof fn lemma_run_len_bounds(s: Seq<char>, k: u8)
    ensures
        run_len(s, k) <= s.len(),
        s.len() > 0 && char_class(s[0]) == k ==> run_len(s, k) >= 1,
    decreases s.len(),
{
    if s.len() > 0 && char_class(s[0]) == k {
        lemma_run_len_bounds(s.drop_first(), k);
    }
}

/// A prefix of class `k` that is followed by the end or by another class is
/// exactly the maximal run.
pub proof fn lemma_run_len_exact(s: Seq<char>, k: u8, n: int)
    requires
        0 <= n <= s.len(),
        forall|j: int| 0 <= j < n ==> char_class(#[trigger] s[j]) == k,
        n == s.len() || char_class(s[n]) != k,
    ensures
        run_len(s, k) == n,
    decreases n,
{
    if n > 0 {
        assert forall|j: int| 0 <= j < n - 1 implies char_class(#[trigger] s.drop_first()[j]) == k by {
            assert(s.drop_first()[j] == s[j + 1]);
        }
        if n - 1 < s.drop_first().len() {
            assert(s.drop_first()[n - 1] == s[n]);
        }
        lemma_run_len_exact(s.drop_first(), k, n - 1);
    }
}

/// Tokens of a completed run of class `k` followed by text of another class.
pub proof fn lemma_flush(run: Seq<char>, k: u8, rest: Seq<char>)
    requires
        k == 1 || k == 2,
        forall|j: int| 0 <= j < run.len() ==> char_class(#[trigger] run[j]) == k,
        rest.len() == 0 || char_class(rest[0]) != k,
    ensures
        segment_tokens(run + rest) == (if run.len() == 0 {
            seq![]
        } else if k == 1 {
            bigram_tokens(run)
        } else {
            word_tokens(run)
        }) + segment_tokens(rest),
{
    let s = run + rest;
    if run.len() == 0 {
        assert(s =~= rest);
        assert(seq![] + segment_tokens(rest) =~= segment_tokens(rest));
    } else {
        assert(s[0] == run[0]);
        assert forall|j: int| 0 <= j < run.len() implies char_class(#[trigger] s[j]) == k by {
            assert(s[j] == run[j]);
        }
        if run.len() < s.len() {
            assert(s[run.len() as int] == rest[0]);
        }
        lemma_run_len_exact(s, k, run.len() as int);
        assert(s.take(run.len() as int) =~= run);
        assert(s.skip(run.len() as int) =~= rest);
    }
}

// ── Executable tokenizer ───────────────────────────────────────────────

/// Unified tokenization contract shared by every similarity, indexing and
/// keyword-extraction path.
pub trait Tokenizer {
    /// Split `text` into lower-case meaningful tokens.
    fn meaningful_tokens(&self, text: &str) -> Vec<String>;
}

/// English word split plus CJK two-character grams; needs no dictionary.
pub struct DefaultTokenizer;

/// The English stop words as an array, in the order of [`stop_words_en`].
pub fn stop_words_en_array() -> (a: [&'static str; 59])
    ensures
        a@ == stop_words_en(),
{
    let a: [&'static str; 59] = [
        "the", "a", "an", "and", "or", "but", "is", "are", "was", "were", "be", "been", "being",
        "to", "of", "in", "on", "at", "by", "for", "with", "from", "as", "into", "than", "then",
        "this", "that", "these", "those", "it", "its", "i", "you", "he", "she", "we", "they",
        "not", "no", "do", "does", "did", "has", "have", "had", "will", "would", "can", "could",
        "should", "may", "might", "must", "if", "so", "up", "out", "about",
    ];
    assert(a@ =~= stop_words_en());
    a
}

/// The Chinese stop words as an array, in the order of [`stop_words_zh`].
fn stop_words_zh_array() -> (a: [&'static str; 15])
    ensures
        a@ == stop_words_zh(),
{
    let a: [&'static str; 15] = [
        "我们", "你们", "他们", "这个", "那个", "这些", "那些", "什么", "怎么", "可以", "应该",
        "已经", "现在", "的话", "以为",
    ];
    assert(a@ =~= stop_words_zh());
    a
}

/// Whether `w` spells one of the words of `list`.
pub fn in_list<const N: usize>(w: &[char], list: &[&'static str; N]) -> (r: bool)
    ensures
        r == in_word_list(w@, list@),
{
    let mut i: usize = 0;
    while i < N
        invariant
            i <= N,
            list@.len() == N,
            forall|j: int| 0 <= j < i ==> w@ != (#[trigger] list@[j])@,
        decreases N - i,
    {
        if chars_eq_str(w, list[i]) {
            return true;
        }
        i += 1;
    }
    false
}

impl DefaultTokenizer {
    /// Minimum token length in characters for non-CJK words.
    pub const MIN_CHARS: usize = 3;

    /// Whether `lower` is an English or Chinese stop word.
    pub fn is_stop_word(lower: &[char]) -> (r: bool)
        ensures
            r == is_stop_word_spec(lower@),
    {
        let en = stop_words_en_array();
        let zh = stop_words_zh_array();
        in_list(lower, &en) || in_list(lower, &zh)
    }

    /// The stop-word check on a string slice, shared with other tokenizers.
    pub fn is_stop_word_pub(lower: &str) -> (r: bool)
        ensures
            r == is_stop_word_spec(lower@),
    {
        let v = chars_of(lower);
        Self::is_stop_word(v.as_slice())
    }

    /// Push the lower-case form of `word` into `out` when it is at least
    /// [`Self::MIN_CHARS`] characters long and not a stop word; returns
    /// whether it was pushed.
    pub fn push_if_meaningful(out: &mut Vec<String>, word: &[char]) -> (r: bool)
        ensures
            string_views(final(out)@) == string_views(old(out)@) + word_tokens(word@),
            r == (word_tokens(word@).len() == 1),
    {
        let lower = lowercase_chars(word);
        if lower.len() < Self::MIN_CHARS {
            assert(string_views(out@) + word_tokens(word@) =~= string_views(out@));
            return false;
        }
        if Self::is_stop_word(lower.as_slice()) {
            assert(string_views(out@) + word_tokens(word@) =~= string_views(out@));
            return false;
        }
        let s = string_from_chars(lower.as_slice());
        let ghost before = out@;
        out.push(s);
        assert(string_views(out@) =~= string_views(before) + word_tokens(word@));
        true
    }

    /// Whether `c` is a CJK ideograph (Unified, Extension A, Compatibility).
    pub fn is_cjk(c: char) -> (r: bool)
        ensures
            r == is_cjk_spec(c),
    {
        ('\u{4E00}' <= c && c <= '\u{9FFF}') || ('\u{3400}' <= c && c <= '\u{4DBF}') || (
        '\u{F900}' <= c && c <= '\u{FAFF}')
    }

    /// Append the non-stop-word two-character grams of `run` to `out`.
    pub fn cjk_bigrams(run: &[char], out: &mut Vec<String>)
        ensures
            string_views(final(out)@) == string_views(old(out)@) + bigram_tokens(run@),
    {
        let n = run.len();
        if n < 2 {
            assert(string_views(out@) + bigram_tokens(run@) =~= string_views(out@));
            return;
        }
        let ghost start = string_views(out@);
        let mut i: usize = 0;
        assert(run@.skip(0) =~= run@);
        while i + 1 < n
            invariant
                n == run@.len(),
                n >= 2,
                i + 1 <= n,
                string_views(out@) + bigram_tokens(run@.skip(i as int)) == start + bigram_tokens(
                    run@,
                ),
            decreases n - i,
        {
            let ghost rest = run@.skip(i as int);
            assert(rest[0] == run@[i as int] && rest[1] == run@[i + 1]);
            assert(rest.drop_first() =~= run@.skip(i + 1));
            let pair = [run[i], run[i + 1]];
            let bigram = pair.as_slice();
            let ghost b = seq![run@[i as int], run@[i + 1]];
            assert(bigram@ =~= b);
            let ghost before = out@;
            if !Self::is_stop_word(bigram) {
                let s = string_from_chars(bigram);
                out.push(s);
                assert(string_views(out@) =~= string_views(before) + seq![b]);
                assert(string_views(out@) + bigram_tokens(run@.skip(i + 1)) =~= string_views(
                    before,
                ) + bigram_tokens(rest));
            } else {
                assert(string_views(out@) + bigram_tokens(run@.skip(i + 1)) =~= string_views(
                    before,
                ) + bigram_tokens(rest));
            }
            i += 1;
        }
        let ghost tail = run@.skip(i as int);
        assert(tail.len() < 2);
        assert(string_views(out@) + bigram_tokens(tail) =~= string_views(out@));
    }

    /// Whether `c` continues a word run (alphanumeric, `_` or `-`).
    fn is_word_char(c: char) -> (r: bool)
        ensures
            r == (is_unicode_alphanumeric(c) || c == '_' || c == '-'),
    {
        char_is_alphanumeric(c) || c == '_' || c == '-'
    }

    /// Scan `text` into tokens: CJK runs give two-character grams, word runs
    /// give one lower-case word, separators end runs.
    pub fn tokenize_segments(&self, text: &str) -> (r: Vec<String>)
        ensures
            string_views(r@) == segment_tokens(text@),
    {
        let chars = chars_of(text);
        let n = chars.len();
        let mut tokens: Vec<String> = Vec::new();
        let mut cjk_run: Vec<char> = Vec::new();
        let mut word: Vec<char> = Vec::new();
        let mut i: usize = 0;
        assert(cjk_run@ + word@ + chars@.skip(0) =~= text@);
        assert(string_views(tokens@) =~= Seq::<Seq<char>>::empty());
        assert(string_views(tokens@) + segment_tokens(text@) =~= segment_tokens(text@));
        while i < n
            invariant
                n == chars@.len(),
                chars@ == text@,
                i <= n,
                cjk_run@.len() == 0 || word@.len() == 0,
                forall|j: int| 0 <= j < cjk_run@.len() ==> char_class(#[trigger] cjk_run@[j]) == 1,
                forall|j: int| 0 <= j < word@.len() ==> char_class(#[trigger] word@[j]) == 2,
                string_views(tokens@) + segment_tokens(cjk_run@ + word@ + chars@.skip(i as int))
                    == segment_tokens(text@),
            decreases n - i,
        {
            let ch = chars[i];
            let ghost rest = chars@.skip(i as int);
            let ghost next = chars@.skip(i + 1);
            assert(rest[0] == ch);
            assert(rest =~= seq![ch] + next);
            let ghost cls = char_class(ch);
            if Self::is_cjk(ch) {
                // A CJK character ends any pending word run.
                proof {
                    lemma_flush(word@, 2, rest);
                }
                let ghost t0 = string_views(tokens@);
                if word.len() > 0 {
                    Self::push_if_meaningful(&mut tokens, word.as_slice());
                    word.clear();
                } else {
                    assert(t0 + seq![] =~= t0);
                }
                assert(cjk_run@ + word@ + rest =~= cjk_run@.push(ch) + next);
                cjk_run.push(ch);
                assert(cjk_run@ + word@ + next =~= cjk_run@ + next);
                assert(string_views(tokens@) + segment_tokens(cjk_run@ + word@ + next)
                    =~= segment_tokens(text@));
            } else if Self::is_word_char(ch) {
                assert(cls == 2);
                proof {
                    lemma_flush(cjk_run@, 1, rest);
                }
                let ghost t0 = string_views(tokens@);
                if cjk_run.len() > 0 {
                    Self::cjk_bigrams(cjk_run.as_slice(), &mut tokens);
                    cjk_run.clear();
                } else {
                    assert(t0 + seq![] =~= t0);
                }
                assert(cjk_run@ + word@ + rest =~= word@.push(ch) + next);
                word.push(ch);
                assert(cjk_run@ + word@ + next =~= word@ + next);
            } else {
                assert(cls == 0);
                // A separator ends both runs; at most one of them is pending.
                if cjk_run.len() > 0 {
                    proof {
                        lemma_flush(cjk_run@, 1, rest);
                    }
                    assert(word@ =~= Seq::<char>::empty());
                    assert(cjk_run@ + word@ + rest =~= cjk_run@ + rest);
                    Self::cjk_bigrams(cjk_run.as_slice(), &mut tokens);
                    cjk_run.clear();
                } else if word.len() > 0 {
                    proof {
                        lemma_flush(word@, 2, rest);
                    }
                    assert(cjk_run@ + word@ + rest =~= word@ + rest);
                    Self::push_if_meaningful(&mut tokens, word.as_slice());
                    word.clear();
                } else {
                    assert(cjk_run@ + word@ + rest =~= rest);
                }
                assert(rest.drop_first() =~= next);
                assert(segment_tokens(rest) == segment_tokens(next));
                assert(cjk_run@ + word@ + next =~= next);
                assert(segment_tokens(rest) + seq![] =~= segment_tokens(rest));
            }
            i += 1;
        }
        // Flush whatever run is still pending at the end of the text.
        let ghost empty = chars@.skip(n as int);
        assert(empty =~= Seq::<char>::empty());
        assert(segment_tokens(empty) =~= Seq::<Seq<char>>::empty());
        if cjk_run.len() > 0 {
            proof {
                lemma_flush(cjk_run@, 1, empty);
            }
            assert(cjk_run@ + word@ + empty =~= cjk_run@ + empty);
            Self::cjk_bigrams(cjk_run.as_slice(), &mut tokens);
        } else if word.len() > 0 {
            proof {
                lemma_flush(word@, 2, empty);
            }
            assert(cjk_run@ + word@ + empty =~= word@ + empty);
            Self::push_if_meaningful(&mut tokens, word.as_slice());
        } else {
            assert(cjk_run@ + word@ + empty =~= empty);
        }
        assert(string_views(tokens@) =~= segment_tokens(text@));
        tokens
    }
}

impl Tokenizer for DefaultTokenizer {
    fn meaningful_tokens(&self, text: &str) -> (r: Vec<String>)
        ensures
            string_views(r@) == segment_tokens(text@),
    {
        self.tokenize_segments(text)
    }
}

/// The tokenizer of this build: the dictionary-free [`DefaultTokenizer`].
pub fn build_tokenizer() -> (t: DefaultTokenizer)
    ensures
        t == DefaultTokenizer,
{
    DefaultTokenizer
}

// ── Laws ───────────────────────────────────────────────────────────────

/// A token is never a stop word, and is either a lower-cased word of at
/// least three characters or a two-character CJK gram.
pub open spec fn token_ok(t: Seq<char>) -> bool {
    &&& !is_stop_word_spec(t)
    &&& (t.len() >= 3 || (t.len() == 2 && is_cjk_spec(t[0]) && is_cjk_spec(t[1])))
}

pub open spec fn all_tokens_ok(ts: Seq<Seq<char>>) -> bool {
    forall|i: int| 0 <= i < ts.len() ==> token_ok(#[trigger] ts[i])
}

proof fn lemma_all_ok_concat(a: Seq<Seq<char>>, b: Seq<Seq<char>>)
    requires
        all_tokens_ok(a),
        all_tokens_ok(b),
    ensures
        all_tokens_ok(a + b),
{
    assert forall|i: int| 0 <= i < (a + b).len() implies token_ok(#[trigger] (a + b)[i]) by {
        if i < a.len() {
            assert((a + b)[i] == a[i]);
        } else {
            assert((a + b)[i] == b[i - a.len()]);
        }
    }
}

proof fn lemma_run_prefix_class(s: Seq<char>, k: u8)
    ensures
        forall|j: int| 0 <= j < run_len(s, k) ==> char_class(#[trigger] s[j]) == k,
    decreases s.len(),
{
    lemma_run_len_bounds(s, k);
    if s.len() > 0 && char_class(s[0]) == k {
        lemma_run_prefix_class(s.drop_first(), k);
        assert forall|j: int| 0 <= j < run_len(s, k) implies char_class(#[trigger] s[j]) == k by {
            if j > 0 {
                assert(s[j] == s.drop_first()[j - 1]);
            }
        }
    }
}

proof fn lemma_bigrams_ok(run: Seq<char>)
    requires
        forall|j: int| 0 <= j < run.len() ==> char_class(#[trigger] run[j]) == 1,
    ensures
        all_tokens_ok(bigram_tokens(run)),
    decreases run.len(),
{
    if run.len() >= 2 {
        let rest = run.drop_first();
        assert forall|j: int| 0 <= j < rest.len() implies char_class(#[trigger] rest[j]) == 1 by {
            assert(rest[j] == run[j + 1]);
        }
        lemma_bigrams_ok(rest);
        let b = seq![run[0], run[1]];
        assert(char_class(run[0]) == 1 && char_class(run[1]) == 1);
        let head: Seq<Seq<char>> = if is_stop_word_spec(b) { seq![] } else { seq![b] };
        assert(all_tokens_ok(head));
        lemma_all_ok_concat(head, bigram_tokens(rest));
    }
}

/// Every token of every text is meaningful: no stop word, and no run that
/// is too short.
pub proof fn law_tokens_are_meaningful(text: Seq<char>)
    ensures
        all_tokens_ok(segment_tokens(text)),
    decreases text.len(),
{
    if text.len() > 0 {
        let k = char_class(text[0]);
        if k == 0 {
            law_tokens_are_meaningful(text.drop_first());
        } else {
            let n = run_len(text, k);
            lemma_run_len_bounds(text, k);
            lemma_run_prefix_class(text, k);
            law_tokens_are_meaningful(text.skip(n as int));
            let run = text.take(n as int);
            if k == 1 {
                assert forall|j: int| 0 <= j < run.len() implies char_class(#[trigger] run[j]) == 1 by {
                    assert(run[j] == text[j]);
                }
                lemma_bigrams_ok(run);
                lemma_all_ok_concat(bigram_tokens(run), segment_tokens(text.skip(n as int)));
            } else {
                assert(all_tokens_ok(word_tokens(run)));
                lemma_all_ok_concat(word_tokens(run), segment_tokens(text.skip(n as int)));
            }
        }
    }
}

/// A word character: alphanumeric in the sense of `char::is_alphanumeric`
/// (letters and digits of every script), `_` or `-`, and not a CJK
/// ideograph (those form grams instead).
pub open spec fn is_word_char_std(c: char) -> bool {
    !is_cjk_spec(c) && (is_unicode_alphanumeric(c) || c == '_' || c == '-')
}

/// ASCII letters and digits, `_` and `-` are word characters.
pub proof fn law_ascii_word_chars(c: char)
    requires
        ('a' <= c && c <= 'z') || ('A' <= c && c <= 'Z') || ('0' <= c && c <= '9') || c == '_' || c
            == '-',
    ensures
        is_word_char_std(c),
{
    reveal(is_unicode_alphanumeric);
}

/// A run of class `k` stops at the first character of another class.
proof fn lemma_run_stops(s: Seq<char>, k: u8, j: int)
    requires
        0 <= j < s.len(),
        char_class(s[j]) != k,
    ensures
        run_len(s, k) <= j,
    decreases j,
{
    if s.len() > 0 && char_class(s[0]) == k {
        assert(s.drop_first()[j - 1] == s[j]);
        lemma_run_stops(s.drop_first(), k, j - 1);
    }
}

/// Every maximal run of word characters (digits included) whose lower-case
/// form has at least three characters and is not a stop word is a token of
/// the text, lower-cased.
pub proof fn law_every_word_run_is_a_token(text: Seq<char>, a: int, b: int)
    requires
        0 <= a < b <= text.len(),
        forall|m: int| a <= m < b ==> is_word_char_std(#[trigger] text[m]),
        a == 0 || !is_word_char_std(text[a - 1]),
        b == text.len() || !is_word_char_std(text[b]),
        lowercase_of(text.subrange(a, b)).len() >= 3,
        !is_stop_word_spec(lowercase_of(text.subrange(a, b))),
    ensures
        segment_tokens(text).contains(lowercase_of(text.subrange(a, b))),
    decreases text.len(),
{
    let l = lowercase_of(text.subrange(a, b));
    let k = char_class(text[0]);
    if a == 0 {
        assert(is_word_char_std(text[0]));
        assert forall|j: int| 0 <= j < b implies char_class(#[trigger] text[j]) == 2 by {
            assert(is_word_char_std(text[j]));
        }
        lemma_run_len_exact(text, 2, b);
        assert(text.take(b) =~= text.subrange(a, b));
        let rest = segment_tokens(text.skip(b));
        assert(segment_tokens(text) == seq![l] + rest);
        assert((seq![l] + rest)[0] == l);
    } else if k == 0 {
        let t2 = text.drop_first();
        assert(t2.subrange(a - 1, b - 1) =~= text.subrange(a, b));
        assert forall|m: int| a - 1 <= m < b - 1 implies is_word_char_std(#[trigger] t2[m]) by {
            assert(t2[m] == text[m + 1]);
        }
        if a - 1 > 0 {
            assert(t2[a - 2] == text[a - 1]);
        }
        if b - 1 < t2.len() {
            assert(t2[b - 1] == text[b]);
        }
        law_every_word_run_is_a_token(t2, a - 1, b - 1);
    } else {
        lemma_run_len_bounds(text, k);
        if k == 2 {
            lemma_run_stops(text, 2, a - 1);
        } else {
            assert(is_word_char_std(text[a]));
            lemma_run_stops(text, k, a);
        }
        let n = run_len(text, k) as int;
        let t2 = text.skip(n);
        assert(t2.subrange(a - n, b - n) =~= text.subrange(a, b));
        assert forall|m: int| a - n <= m < b - n implies is_word_char_std(#[trigger] t2[m]) by {
            assert(t2[m] == text[m + n]);
        }
        if a - n > 0 {
            assert(t2[a - n - 1] == text[a - 1]);
        }
        if b - n < t2.len() {
            assert(t2[b - n] == text[b]);
        }
        law_every_word_run_is_a_token(t2, a - n, b - n);
        let head = if k == 1 {
            bigram_tokens(text.take(n))
        } else {
            word_tokens(text.take(n))
        };
        assert(segment_tokens(text) == head + segment_tokens(t2));
        let j = choose|j: int| 0 <= j < segment_tokens(t2).len() && segment_tokens(t2)[j] == l;
        assert((head + segment_tokens(t2))[head.len() + j] == l);
    }
}

/// No ASCII upper-case letter.
pub open spec fn has_no_ascii_upper(t: Seq<char>) -> bool {
    forall|j: int| 0 <= j < t.len() ==> !is_ascii_upper(#[trigger] t[j])
}

proof fn lemma_ascii_lower_no_upper(w: Seq<char>)
    requires
        is_ascii_text(w),
    ensures
        has_no_ascii_upper(lowercase_of(w)),
{
    reveal(lowercase_of);
    let l = ascii_lower(w);
    assert forall|j: int| 0 <= j < l.len() implies !is_ascii_upper(#[trigger] l[j]) by {
        assert(l[j] == ascii_lower_char(w[j]));
    }
}

/// On ASCII text every token is lower-case: it holds no letter `A`–`Z`.
pub proof fn law_ascii_tokens_are_lowercase(text: Seq<char>)
    requires
        is_ascii_text(text),
    ensures
        forall|i: int|
            0 <= i < segment_tokens(text).len() ==> has_no_ascii_upper(
                #[trigger] segment_tokens(text)[i],
            ),
    decreases text.len(),
{
    if text.len() > 0 {
        let k = char_class(text[0]);
        assert(is_ascii_char(text[0]));
        assert(!is_cjk_spec(text[0]));
        if k == 0 {
            let d = text.drop_first();
            assert forall|j: int| 0 <= j < d.len() implies is_ascii_char(#[trigger] d[j]) by {
                assert(d[j] == text[j + 1]);
            }
            law_ascii_tokens_are_lowercase(d);
            assert(segment_tokens(text) == segment_tokens(d));
        } else {
            let n = run_len(text, k);
            lemma_run_len_bounds(text, k);
            let run = text.take(n as int);
            let rest = text.skip(n as int);
            assert forall|j: int| 0 <= j < rest.len() implies is_ascii_char(#[trigger] rest[j]) by {
                assert(rest[j] == text[j + n]);
            }
            law_ascii_tokens_are_lowercase(rest);
            assert forall|j: int| 0 <= j < run.len() implies is_ascii_char(#[trigger] run[j]) by {
                assert(run[j] == text[j]);
            }
            lemma_ascii_lower_no_upper(run);
            let toks = word_tokens(run) + segment_tokens(rest);
            assert(segment_tokens(text) == toks);
            assert forall|i: int| 0 <= i < toks.len() implies has_no_ascii_upper(#[trigger] toks[i]) by {
                if i < word_tokens(run).len() {
                    assert(toks[i] == lowercase_of(run));
                } else {
                    assert(toks[i] == segment_tokens(rest)[i - word_tokens(run).len()]);
                }
            }
        }
    }
}

proof fn lemma_lower_char_ascii(c: char)
    requires
        is_ascii_char(c),
    ensures
        is_ascii_char(ascii_lower_char(c)),
        char_class(ascii_lower_char(c)) == char_class(c),
        ascii_lower_char(ascii_lower_char(c)) == ascii_lower_char(c),
{
    reveal(is_unicode_alphanumeric);
}

proof fn lemma_ascii_lower_ascii(w: Seq<char>)
    requires
        is_ascii_text(w),
    ensures
        is_ascii_text(ascii_lower(w)),
        ascii_lower(ascii_lower(w)) == ascii_lower(w),
{
    let l = ascii_lower(w);
    assert forall|j: int| 0 <= j < l.len() implies is_ascii_char(#[trigger] l[j]) by {
        lemma_lower_char_ascii(w[j]);
    }
    assert forall|j: int| 0 <= j < l.len() implies #[trigger] ascii_lower(l)[j] == l[j] by {
        lemma_lower_char_ascii(w[j]);
    }
    assert(ascii_lower(l) =~= l);
}

proof fn lemma_run_len_ascii_lower(s: Seq<char>, k: u8)
    requires
        is_ascii_text(s),
    ensures
        run_len(ascii_lower(s), k) == run_len(s, k),
    decreases s.len(),
{
    if s.len() > 0 {
        let u = ascii_lower(s);
        lemma_lower_char_ascii(s[0]);
        assert(u[0] == ascii_lower_char(s[0]));
        let d = s.drop_first();
        assert forall|j: int| 0 <= j < d.len() implies is_ascii_char(#[trigger] d[j]) by {
            assert(d[j] == s[j + 1]);
        }
        assert(u.drop_first() =~= ascii_lower(d));
        lemma_run_len_ascii_lower(d, k);
    }
}

/// Lower-casing the ASCII letters of an ASCII text leaves its tokens as
/// they are.
pub proof fn lemma_segment_tokens_ascii_lower(t: Seq<char>)
    requires
        is_ascii_text(t),
    ensures
        segment_tokens(ascii_lower(t)) == segment_tokens(t),
    decreases t.len(),
{
    let u = ascii_lower(t);
    if t.len() > 0 {
        lemma_lower_char_ascii(t[0]);
        assert(u[0] == ascii_lower_char(t[0]));
        let k = char_class(t[0]);
        assert(!is_cjk_spec(t[0]));
        if k == 0 {
            let d = t.drop_first();
            assert forall|j: int| 0 <= j < d.len() implies is_ascii_char(#[trigger] d[j]) by {
                assert(d[j] == t[j + 1]);
            }
            assert(u.drop_first() =~= ascii_lower(d));
            lemma_segment_tokens_ascii_lower(d);
        } else {
            let n = run_len(t, k);
            lemma_run_len_bounds(t, k);
            lemma_run_len_ascii_lower(t, k);
            let w = t.take(n as int);
            let rest = t.skip(n as int);
            assert forall|j: int| 0 <= j < rest.len() implies is_ascii_char(#[trigger] rest[j]) by {
                assert(rest[j] == t[j + n]);
            }
            assert forall|j: int| 0 <= j < w.len() implies is_ascii_char(#[trigger] w[j]) by {
                assert(w[j] == t[j]);
            }
            assert(u.take(n as int) =~= ascii_lower(w));
            assert(u.skip(n as int) =~= ascii_lower(rest));
            lemma_segment_tokens_ascii_lower(rest);
            lemma_ascii_lower_ascii(w);
            reveal(lowercase_of);
            assert(lowercase_of(ascii_lower(w)) == lowercase_of(w));
        }
    } else {
        assert(u.len() == 0);
    }
}

} // verus!
