//! Key / numeric-value pairs in memory text, such as `max_tokens=128000`
//! or `port: 8080`, and the detection of a shared key whose value drifted.
use vstd::prelude::*;
use crate::runs::{
    is_token_char_spec, lemma_prefix_len_bounds, lemma_prefix_len_exact, prefix_len,
    split_whitespace_chars, vviews, ws_words,
};
use crate::text::{
    chars_eq, chars_of, copy_chars, is_ascii_alpha, is_ascii_alpha_spec, is_ascii_digit,
    is_ascii_digit_spec, is_ascii_ws, is_ascii_ws_spec, is_unicode_whitespace, lowercase_of,
    slice_chars, char_is_whitespace,
};
use crate::polarity::is_token_char;

verus! {

/// A key / value pair of character sequences.
pub type KeyValue = (Seq<char>, Seq<char>);

pub open spec fn kv_views(v: Seq<(Vec<char>, Vec<char>)>) -> Seq<KeyValue> {
    v.map_values(|p: (Vec<char>, Vec<char>)| (p.0@, p.1@))
}

// ── Trimming ────────────────────────────────────────────────────────────

pub open spec fn trim_start_by(s: Seq<char>, p: spec_fn(char) -> bool) -> Seq<char>
    decreases s.len(),
{
    if s.len() > 0 && p(s[0]) {
        trim_start_by(s.drop_first(), p)
    } else {
        s
    }
}

pub open spec fn trim_end_by(s: Seq<char>, p: spec_fn(char) -> bool) -> Seq<char>
    decreases s.len(),
{
    if s.len() > 0 && p(s.last()) {
        trim_end_by(s.drop_last(), p)
    } else {
        s
    }
}

/// `str::trim_matches` with a character predicate.
pub open spec fn trim_by(s: Seq<char>, p: spec_fn(char) -> bool) -> Seq<char> {
    trim_end_by(trim_start_by(s, p), p)
}

/// The punctuation stripped from both ends of a whitespace token.
pub open spec fn is_edge_punct(c: char) -> bool {
    c == ',' || c == ';' || c == '.' || c == ')' || c == '(' || c == '"' || c == '\''
}

pub open spec fn edge_punct() -> spec_fn(char) -> bool {
    |c: char| is_edge_punct(c)
}

pub open spec fn unicode_ws() -> spec_fn(char) -> bool {
    |c: char| is_unicode_whitespace(c)
}

/// Index range `[lo, hi)` that remains after trimming `p` from both ends.
fn trim_range(v: &[char], pred_kind: u8) -> (r: (usize, usize))
    requires
        pred_kind == 0 || pred_kind == 1,
    ensures
        r.0 <= r.1 <= v@.len(),
        v@.subrange(r.0 as int, r.1 as int) == trim_by(
            v@,
            if pred_kind == 0 {
                edge_punct()
            } else {
                unicode_ws()
            },
        ),
{
    let ghost p = if pred_kind == 0 {
        edge_punct()
    } else {
        unicode_ws()
    };
    let n = v.len();
    let mut lo: usize = 0;
    assert(v@.subrange(0, n as int) =~= v@);
    while lo < n && trim_pred(v[lo], pred_kind)
        invariant
            p == (if pred_kind == 0 {
                edge_punct()
            } else {
                unicode_ws()
            }),
            lo <= n,
            n == v@.len(),
            trim_start_by(v@.subrange(lo as int, n as int), p) == trim_start_by(v@, p),
        decreases n - lo,
    {
        assert(v@.subrange(lo as int, n as int).drop_first() =~= v@.subrange(lo + 1, n as int));
        assert(v@.subrange(lo as int, n as int)[0] == v@[lo as int]);
        lo += 1;
    }
    assert(trim_start_by(v@.subrange(lo as int, n as int), p) == v@.subrange(lo as int, n as int));
    let mut hi: usize = n;
    while hi > lo && trim_pred(v[hi - 1], pred_kind)
        invariant
            p == (if pred_kind == 0 {
                edge_punct()
            } else {
                unicode_ws()
            }),
            lo <= hi <= n,
            n == v@.len(),
            trim_end_by(v@.subrange(lo as int, hi as int), p) == trim_by(v@, p),
        decreases hi,
    {
        assert(v@.subrange(lo as int, hi as int).drop_last() =~= v@.subrange(lo as int, hi - 1));
        assert(v@.subrange(lo as int, hi as int).last() == v@[hi - 1]);
        hi -= 1;
    }
    if hi > lo {
        assert(v@.subrange(lo as int, hi as int).last() == v@[hi - 1]);
    }
    assert(trim_end_by(v@.subrange(lo as int, hi as int), p) == v@.subrange(lo as int, hi as int));
    (lo, hi)
}

/// `str::trim`: without leading and trailing Unicode whitespace.
pub fn trim_whitespace(v: &[char]) -> (r: Vec<char>)
    ensures
        r@ == trim_by(v@, unicode_ws()),
{
    let (lo, hi) = trim_range(v, 1);
    slice_chars(v, lo, hi)
}

fn trim_pred(c: char, kind: u8) -> (r: bool)
    ensures
        r == (if kind == 0 {
            edge_punct()
        } else {
            unicode_ws()
        })(c),
{
    if kind == 0 {
        is_edge_punct_exec(c)
    } else {
        char_is_whitespace(c)
    }
}

fn is_edge_punct_exec(c: char) -> (r: bool)
    ensures
        r == is_edge_punct(c),
{
    c == ',' || c == ';' || c == '.' || c == ')' || c == '(' || c == '"' || c == '\''
}

// ── `split_key_numeric` ────────────────────────────────────────────────

/// Position of the first `sep` in `s`.
pub open spec fn first_index(s: Seq<char>, sep: char) -> Option<int>
    decreases s.len(),
{
    if s.len() == 0 {
        None
    } else if s[0] == sep {
        Some(0)
    } else {
        match first_index(s.drop_first(), sep) {
            Some(i) => Some(i + 1),
            None => None,
        }
    }
}

/// A key: at least three characters, all ASCII alphanumerics, `_` or `-`.
pub open spec fn valid_key(k: Seq<char>) -> bool {
    k.len() >= 3 && forall|j: int| 0 <= j < k.len() ==> is_token_char_spec(#[trigger] k[j])
}

pub open spec fn is_num_char(c: char) -> bool {
    is_ascii_digit_spec(c) || c == '.'
}

/// A number: non-empty, only ASCII digits and `.`, at least one digit.
pub open spec fn valid_number(v: Seq<char>) -> bool {
    &&& v.len() > 0
    &&& forall|j: int| 0 <= j < v.len() ==> is_num_char(#[trigger] v[j])
    &&& exists|j: int| 0 <= j < v.len() && is_ascii_digit_spec(#[trigger] v[j])
}

/// Split at the first `sep`, trim both sides, and keep the pair when the
/// left side is a key and the right side a number.
pub open spec fn split_at_sep(token: Seq<char>, sep: char) -> Option<KeyValue> {
    match first_index(token, sep) {
        None => None,
        Some(i) => {
            let k = trim_by(token.subrange(0, i), unicode_ws());
            let v = trim_by(token.subrange(i + 1, token.len() as int), unicode_ws());
            if valid_key(k) && valid_number(v) {
                Some((k, v))
            } else {
                None
            }
        },
    }
}

/// `key=number`, else `key:number`, within one token.
pub open spec fn split_key_numeric_spec(token: Seq<char>) -> Option<KeyValue> {
    match split_at_sep(token, '=') {
        Some(p) => Some(p),
        None => split_at_sep(token, ':'),
    }
}

fn find_first(s: &[char], sep: char) -> (r: Option<usize>)
    ensures
        r matches Some(i) ==> first_index(s@, sep) == Some(i as int) && i < s@.len(),
        r is None ==> first_index(s@, sep) is None,
{
    let mut i: usize = 0;
    while i < s.len()
        invariant
            i <= s@.len(),
            forall|j: int| 0 <= j < i ==> s@[j] != sep,
        decreases s.len() - i,
    {
        if s[i] == sep {
            proof {
                lemma_first_index_found(s@, sep, i as int);
            }
            return Some(i);
        }
        i += 1;
    }
    proof {
        lemma_first_index_absent(s@, sep);
    }
    None
}

proof fn lemma_first_index_found(s: Seq<char>, sep: char, i: int)
    requires
        0 <= i < s.len(),
        s[i] == sep,
        forall|j: int| 0 <= j < i ==> s[j] != sep,
    ensures
        first_index(s, sep) == Some(i),
    decreases i,
{
    if i > 0 {
        assert(s.drop_first()[i - 1] == s[i]);
        lemma_first_index_found(s.drop_first(), sep, i - 1);
    }
}

proof fn lemma_first_index_absent(s: Seq<char>, sep: char)
    requires
        forall|j: int| 0 <= j < s.len() ==> s[j] != sep,
    ensures
        first_index(s, sep) is None,
    decreases s.len(),
{
    if s.len() > 0 {
        assert forall|j: int| 0 <= j < s.drop_first().len() implies s.drop_first()[j] != sep by {
            assert(s.drop_first()[j] == s[j + 1]);
        }
        lemma_first_index_absent(s.drop_first(), sep);
    }
}

fn is_valid_key(k: &[char]) -> (r: bool)
    ensures
        r == valid_key(k@),
{
    if k.len() < 3 {
        return false;
    }
    let mut i: usize = 0;
    while i < k.len()
        invariant
            i <= k@.len(),
            forall|j: int| 0 <= j < i ==> is_token_char_spec(#[trigger] k@[j]),
        decreases k.len() - i,
    {
        if !is_token_char(k[i]) {
            return false;
        }
        i += 1;
    }
    true
}

fn is_valid_number(v: &[char]) -> (r: bool)
    ensures
        r == valid_number(v@),
{
    if v.len() == 0 {
        return false;
    }
    let mut i: usize = 0;
    let mut digit = false;
    while i < v.len()
        invariant
            i <= v@.len(),
            forall|j: int| 0 <= j < i ==> is_num_char(#[trigger] v@[j]),
            digit == exists|j: int| 0 <= j < i && is_ascii_digit_spec(#[trigger] v@[j]),
        decreases v.len() - i,
    {
        if !(is_ascii_digit(v[i]) || v[i] == '.') {
            return false;
        }
        if is_ascii_digit(v[i]) {
            digit = true;
        }
        i += 1;
    }
    digit
}

fn split_at_sep_exec(token: &[char], sep: char) -> (r: Option<(Vec<char>, Vec<char>)>)
    ensures
        r matches Some(p) ==> split_at_sep(token@, sep) == Some((p.0@, p.1@)),
        r is None ==> split_at_sep(token@, sep) is None,
{
    match find_first(token, sep) {
        None => None,
        Some(i) => {
            let len = token.len();
            assert(i < len);
            let left = slice_chars(token, 0, i);
            let right = slice_chars(token, i + 1, len);
            let (a, b) = trim_range(left.as_slice(), 1);
            let (c, d) = trim_range(right.as_slice(), 1);
            let k = slice_chars(left.as_slice(), a, b);
            let v = slice_chars(right.as_slice(), c, d);
            if is_valid_key(k.as_slice()) && is_valid_number(v.as_slice()) {
                Some((k, v))
            } else {
                None
            }
        },
    }
}

/// Split one whitespace token into a key and a number around its first `=`
/// (or, failing that, its first `:`), trimming Unicode whitespace.
pub fn split_key_numeric(token: &[char]) -> (r: Option<(Vec<char>, Vec<char>)>)
    ensures
        r matches Some(p) ==> split_key_numeric_spec(token@) == Some((p.0@, p.1@)),
        r is None ==> split_key_numeric_spec(token@) is None,
{
    match split_at_sep_exec(token, '=') {
        Some(p) => Some(p),
        None => split_at_sep_exec(token, ':'),
    }
}

// ── The two extraction passes ───────────────────────────────────────────

/// Pass one: each whitespace word, stripped of edge punctuation, that
/// splits into a key and a number.
pub open spec fn token_pass(words: Seq<Seq<char>>) -> Seq<KeyValue>
    decreases words.len(),
{
    if words.len() == 0 {
        seq![]
    } else {
        token_pass(words.drop_last()) + match split_key_numeric_spec(
            trim_by(words.last(), edge_punct()),
        ) {
            Some(p) => seq![p],
            None => seq![],
        }
    }
}

pub open spec fn ascii_ws() -> spec_fn(char) -> bool {
    |c: char| is_ascii_ws_spec(c)
}

pub open spec fn num_chars() -> spec_fn(char) -> bool {
    |c: char| is_num_char(c)
}

pub open spec fn token_chars_pred() -> spec_fn(char) -> bool {
    |c: char| is_token_char_spec(c)
}

/// End of the run of `p`-characters of `s` that starts at `i`.
pub open spec fn run_end(s: Seq<char>, i: int, p: spec_fn(char) -> bool) -> int {
    i + prefix_len(s.subrange(i, s.len() as int), p)
}

/// Pass two, from position `i`: a key (starting with an ASCII letter or
/// `_`), optional ASCII spaces, `=` or `:`, optional spaces, then a run of
/// digits and dots. The pair is kept when the run is non-empty, the key has
/// at least three characters, and the run holds a digit. Scanning resumes
/// after the run; without a separator it resumes one past the key.
pub open spec fn scan_pairs(s: Seq<char>, i: int) -> Seq<KeyValue>
    decreases s.len() + 1 - i,
{
    if i < 0 || i >= s.len() {
        seq![]
    } else if is_ascii_alpha_spec(s[i]) || s[i] == '_' {
        let ke = run_end(s, i, token_chars_pred());
        let j = run_end(s, ke, ascii_ws());
        proof {
            lemma_run_end_bounds(s, i, token_chars_pred());
            lemma_run_end_bounds(s, ke, ascii_ws());
        }
        if j < s.len() && (s[j] == '=' || s[j] == ':') {
            let m = run_end(s, j + 1, ascii_ws());
            let e = run_end(s, m, num_chars());
            proof {
                lemma_run_end_bounds(s, j + 1, ascii_ws());
                lemma_run_end_bounds(s, m, num_chars());
            }
            let key = s.subrange(i, ke);
            let val = s.subrange(m, e);
            (if e > m && key.len() >= 3 && exists|x: int|
                0 <= x < val.len() && is_ascii_digit_spec(#[trigger] val[x]) {
                seq![(key, val)]
            } else {
                seq![]
            }) + scan_pairs(s, e)
        } else {
            scan_pairs(s, ke + 1)
        }
    } else {
        scan_pairs(s, i + 1)
    }
}

pub proof fn lemma_run_end_bounds(s: Seq<char>, i: int, p: spec_fn(char) -> bool)
    requires
        0 <= i <= s.len(),
    ensures
        i <= run_end(s, i, p) <= s.len(),
        i < s.len() && p(s[i]) ==> run_end(s, i, p) > i,
{
    lemma_prefix_len_bounds(s.subrange(i, s.len() as int), p);
}

/// The key / number pairs of `content`, in insertion order: pass one over
/// the whitespace words of the lower-cased text, then pass two over the
/// lower-cased text. A later pair for the same key overrides an earlier one.
pub open spec fn key_numeric_pairs_spec(content: Seq<char>) -> Seq<KeyValue> {
    let lower = lowercase_of(content);
    token_pass(ws_words(lower)) + scan_pairs(lower, 0)
}

/// The value the last pair for `key` carries, if any.
pub open spec fn value_of(pairs: Seq<KeyValue>, key: Seq<char>) -> Option<Seq<char>>
    decreases pairs.len(),
{
    if pairs.len() == 0 {
        None
    } else if pairs.last().0 == key {
        Some(pairs.last().1)
    } else {
        value_of(pairs.drop_last(), key)
    }
}

/// Some key of `new_pairs` also has a value in `old_pairs`, and the two
/// final values differ.
pub open spec fn drift_spec(new_pairs: Seq<KeyValue>, old_pairs: Seq<KeyValue>) -> bool {
    exists|i: int|
        0 <= i < new_pairs.len() && #[trigger] value_of(old_pairs, new_pairs[i].0) is Some
            && value_of(old_pairs, new_pairs[i].0) != value_of(new_pairs, new_pairs[i].0)
}

/// Numeric values of shared keys differ between two texts.
pub open spec fn numeric_drift_spec(new_content: Seq<char>, old_content: Seq<char>) -> bool {
    drift_spec(key_numeric_pairs_spec(new_content), key_numeric_pairs_spec(old_content))
}

/// End of the run of characters of class `kind` starting at `from`
/// (0: token characters, 1: ASCII whitespace, 2: digits and dots).
fn skip_run(s: &[char], from: usize, kind: u8) -> (r: usize)
    requires
        from <= s@.len(),
        kind <= 2,
    ensures
        from <= r <= s@.len(),
        r == run_end(
            s@,
            from as int,
            if kind == 0 {
                token_chars_pred()
            } else if kind == 1 {
                ascii_ws()
            } else {
                num_chars()
            },
        ),
{
    let ghost p = if kind == 0 {
        token_chars_pred()
    } else if kind == 1 {
        ascii_ws()
    } else {
        num_chars()
    };
    let mut j = from;
    while j < s.len() && run_pred(s[j], kind)
        invariant
            kind <= 2,
            p == (if kind == 0 {
                token_chars_pred()
            } else if kind == 1 {
                ascii_ws()
            } else {
                num_chars()
            }),
            from <= j <= s@.len(),
            forall|x: int| from <= x < j ==> p(#[trigger] s@[x]),
        decreases s.len() - j,
    {
        j += 1;
    }
    let ghost t = s@.subrange(from as int, s@.len() as int);
    assert forall|x: int| 0 <= x < j - from implies p(#[trigger] t[x]) by {
        assert(t[x] == s@[from + x]);
    }
    if j < s.len() {
        assert(t[j - from] == s@[j as int]);
    }
    proof {
        lemma_prefix_len_exact(t, p, j - from);
    }
    j
}

fn run_pred(c: char, kind: u8) -> (r: bool)
    ensures
        r == (if kind == 0 {
            token_chars_pred()
        } else if kind == 1 {
            ascii_ws()
        } else {
            num_chars()
        })(c),
{
    if kind == 0 {
        is_token_char(c)
    } else if kind == 1 {
        is_ascii_ws(c)
    } else {
        is_ascii_digit(c) || c == '.'
    }
}

fn has_digit(v: &[char]) -> (r: bool)
    ensures
        r == exists|x: int| 0 <= x < v@.len() && is_ascii_digit_spec(#[trigger] v@[x]),
{
    let mut i: usize = 0;
    while i < v.len()
        invariant
            i <= v@.len(),
            forall|x: int| 0 <= x < i ==> !is_ascii_digit_spec(#[trigger] v@[x]),
        decreases v.len() - i,
    {
        if is_ascii_digit(v[i]) {
            return true;
        }
        i += 1;
    }
    false
}

/// Pass two over the lower-cased text.
fn scan_key_numeric(s: &[char], out: &mut Vec<(Vec<char>, Vec<char>)>)
    ensures
        kv_views(final(out)@) == kv_views(old(out)@) + scan_pairs(s@, 0),
{
    let n = s.len();
    let ghost start = kv_views(out@);
    let mut i: usize = 0;
    assert(start + scan_pairs(s@, 0) =~= start + scan_pairs(s@, 0));
    while i < n
        invariant
            n == s@.len(),
            i <= n + 1,
            kv_views(out@) + scan_pairs(s@, i as int) == start + scan_pairs(s@, 0),
        decreases n + 1 - i,
    {
        let c = s[i];
        if is_ascii_alpha(c) || c == '_' {
            let ke = skip_run(s, i, 0);
            let j = skip_run(s, ke, 1);
            proof {
                lemma_run_end_bounds(s@, i as int, token_chars_pred());
                lemma_run_end_bounds(s@, ke as int, ascii_ws());
            }
            if j < n && (s[j] == '=' || s[j] == ':') {
                let m = skip_run(s, j + 1, 1);
                let e = skip_run(s, m, 2);
                proof {
                    lemma_run_end_bounds(s@, j + 1, ascii_ws());
                    lemma_run_end_bounds(s@, m as int, num_chars());
                }
                let ghost before = kv_views(out@);
                if e > m && ke - i >= 3 {
                    let val = slice_chars(s, m, e);
                    if has_digit(val.as_slice()) {
                        let key = slice_chars(s, i, ke);
                        out.push((key, val));
                        assert(kv_views(out@) =~= before.push((key@, val@)));
                    }
                }
                assert(kv_views(out@) + scan_pairs(s@, e as int) =~= before + scan_pairs(
                    s@,
                    i as int,
                ));
                i = e;
            } else if ke < n {
                i = ke + 1;
            } else {
                assert(scan_pairs(s@, ke + 1) =~= scan_pairs(s@, n as int));
                i = n;
            }
        } else {
            i += 1;
        }
    }
    assert(scan_pairs(s@, i as int) =~= Seq::<KeyValue>::empty());
    assert(kv_views(out@) =~= kv_views(out@) + scan_pairs(s@, i as int));
}

/// The key / number pairs of `content` in insertion order (see
/// [`key_numeric_pairs_spec`]); a later pair for a key overrides earlier ones.
pub fn extract_key_numeric_pairs(content: &str) -> (r: Vec<(Vec<char>, Vec<char>)>)
    ensures
        kv_views(r@) == key_numeric_pairs_spec(content@),
{
    let lower_s = crate::text::to_lowercase(content);
    let lower = chars_of(lower_s.as_str());
    let words = split_whitespace_chars(lower.as_slice());
    let ghost ws = ws_words(lowercase_of(content@));
    let mut out: Vec<(Vec<char>, Vec<char>)> = Vec::new();
    let mut i: usize = 0;
    assert(kv_views(out@) =~= token_pass(ws.take(0)));
    while i < words.len()
        invariant
            vviews(words@) == ws,
            i <= words@.len(),
            kv_views(out@) == token_pass(ws.take(i as int)),
        decreases words.len() - i,
    {
        assert(ws[i as int] == words@[i as int]@);
        assert(ws.take(i + 1).drop_last() =~= ws.take(i as int));
        assert(ws.take(i + 1).last() == ws[i as int]);
        let (lo, hi) = trim_range(words[i].as_slice(), 0);
        let token = slice_chars(words[i].as_slice(), lo, hi);
        let ghost before = kv_views(out@);
        match split_key_numeric(token.as_slice()) {
            Some(p) => {
                let ghost pv = (p.0@, p.1@);
                out.push(p);
                assert(kv_views(out@) =~= before + seq![pv]);
            },
            None => {
                assert(before + seq![] =~= before);
            },
        }
        i += 1;
    }
    assert(ws.take(words@.len() as int) =~= ws);
    scan_key_numeric(lower.as_slice(), &mut out);
    out
}

/// The final value recorded for `key` in `pairs`.
fn value_of_exec(pairs: &Vec<(Vec<char>, Vec<char>)>, key: &[char]) -> (r: Option<Vec<char>>)
    ensures
        r matches Some(v) ==> value_of(kv_views(pairs@), key@) == Some(v@),
        r is None ==> value_of(kv_views(pairs@), key@) is None,
{
    let mut i = pairs.len();
    assert(kv_views(pairs@).take(i as int) =~= kv_views(pairs@));
    while i > 0
        invariant
            i <= pairs@.len(),
            value_of(kv_views(pairs@).take(i as int), key@) == value_of(kv_views(pairs@), key@),
        decreases i,
    {
        let ghost pre = kv_views(pairs@).take(i as int);
        assert(pre.last() == kv_views(pairs@)[i - 1]);
        assert(pre.drop_last() =~= kv_views(pairs@).take(i - 1));
        if chars_eq(pairs[i - 1].0.as_slice(), key) {
            return Some(copy_chars(pairs[i - 1].1.as_slice()));
        }
        i -= 1;
    }
    None
}

/// Whether some key shared by the two pair lists has differing final values.
pub fn pairs_drift(
    new_pairs: &Vec<(Vec<char>, Vec<char>)>,
    old_pairs: &Vec<(Vec<char>, Vec<char>)>,
) -> (r: bool)
    ensures
        r == drift_spec(kv_views(new_pairs@), kv_views(old_pairs@)),
{
    assert(kv_views(new_pairs@).take(new_pairs@.len() as int) =~= kv_views(new_pairs@));
    assert(kv_views(old_pairs@).take(old_pairs@.len() as int) =~= kv_views(old_pairs@));
    let ghost np = kv_views(new_pairs@);
    let ghost op = kv_views(old_pairs@);
    if new_pairs.len() == 0 || old_pairs.len() == 0 {
        assert forall|i: int| 0 <= i < np.len() implies !(#[trigger] value_of(op, np[i].0) is Some) by {
            if op.len() == 0 {
            }
        }
        return false;
    }
    let mut i: usize = 0;
    while i < new_pairs.len()
        invariant
            np == kv_views(new_pairs@),
            op == kv_views(old_pairs@),
            i <= new_pairs@.len(),
            forall|j: int|
                0 <= j < i ==> !(#[trigger] value_of(op, np[j].0) is Some && value_of(op, np[j].0)
                    != value_of(np, np[j].0)),
        decreases new_pairs.len() - i,
    {
        let key = new_pairs[i].0.as_slice();
        assert(key@ == np[i as int].0);
        let ov = value_of_exec(old_pairs, key);
        let nv = value_of_exec(new_pairs, key);
        match (ov, nv) {
            (Some(o), Some(v)) => {
                if !chars_eq(o.as_slice(), v.as_slice()) {
                    return true;
                }
            },
            (Some(_), None) => {
                return true;
            },
            _ => {},
        }
        i += 1;
    }
    false
}

/// Whether the two texts share a key-like token whose numeric value differs,
/// e.g. `max_tokens=128000` against `max_tokens=4096`.
pub fn has_numeric_value_drift(new_content: &str, existing_content: &str) -> (r: bool)
    ensures
        r == numeric_drift_spec(new_content@, existing_content@),
{
    let new_pairs = extract_key_numeric_pairs(new_content);
    let existing_pairs = extract_key_numeric_pairs(existing_content);
    pairs_drift(&new_pairs, &existing_pairs)
}

} // verus!
