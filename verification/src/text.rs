//! Character-level text primitives shared by the tokenizer, the relation
//! classifier and the id validators.
//!
//! Text is handled as `Seq<char>` in specifications and as `Vec<char>` in
//! executable code. The few Unicode-aware operations of std that vstd does
//! not specify (case mapping, the alphanumeric property) are reached through small trusted wrappers whose results are
//! named by uninterpreted spec functions.
use vstd::prelude::*;

verus! {

// ── Names for std results that depend on Unicode tables ────────────────

/// What `str::to_lowercase` returns for text that is not all ASCII.
pub uninterp spec fn unicode_lowercase(s: Seq<char>) -> Seq<char>;

/// An ASCII character.
pub open spec fn is_ascii_char(c: char) -> bool {
    c <= '\u{7F}'
}

/// Text made of ASCII characters only.
pub open spec fn is_ascii_text(s: Seq<char>) -> bool {
    forall|j: int| 0 <= j < s.len() ==> is_ascii_char(#[trigger] s[j])
}

/// An ASCII upper-case letter.
pub open spec fn is_ascii_upper(c: char) -> bool {
    'A' <= c && c <= 'Z'
}

/// `char::to_ascii_lowercase`: `A`–`Z` to `a`–`z`, every other character
/// unchanged.
pub open spec fn ascii_lower_char(c: char) -> char {
    if is_ascii_upper(c) {
        ((c as int) + 32) as char
    } else {
        c
    }
}

/// Every character through [`ascii_lower_char`].
pub open spec fn ascii_lower(s: Seq<char>) -> Seq<char> {
    s.map_values(|c: char| ascii_lower_char(c))
}

/// What `str::to_lowercase` returns: on ASCII text the ASCII mapping, on
/// other text the Unicode mapping ([`unicode_lowercase`]).
#[verifier::opaque]
pub open spec fn lowercase_of(s: Seq<char>) -> Seq<char> {
    if is_ascii_text(s) {
        ascii_lower(s)
    } else {
        unicode_lowercase(s)
    }
}

/// What `str::to_uppercase` returns for text that is not all ASCII.
pub uninterp spec fn unicode_uppercase(s: Seq<char>) -> Seq<char>;

/// An ASCII lower-case letter.
pub open spec fn is_ascii_lower(c: char) -> bool {
    'a' <= c && c <= 'z'
}

/// `char::to_ascii_uppercase`: `a`–`z` to `A`–`Z`, every other character
/// unchanged.
pub open spec fn ascii_upper_char(c: char) -> char {
    if is_ascii_lower(c) {
        ((c as int) - 32) as char
    } else {
        c
    }
}

/// Every character through [`ascii_upper_char`].
pub open spec fn ascii_upper(s: Seq<char>) -> Seq<char> {
    s.map_values(|c: char| ascii_upper_char(c))
}

/// What `str::to_uppercase` returns: on ASCII text the ASCII mapping, on
/// other text the Unicode mapping ([`unicode_uppercase`]).
#[verifier::opaque]
pub open spec fn uppercase_of(s: Seq<char>) -> Seq<char> {
    if is_ascii_text(s) {
        ascii_upper(s)
    } else {
        unicode_uppercase(s)
    }
}

/// `char::is_whitespace`: the Unicode `White_Space` property, which holds
/// of exactly these code points: U+0009 to U+000D, U+0020, U+0085, U+00A0,
/// U+1680, U+2000 to U+200A, U+2028, U+2029, U+202F, U+205F and U+3000.
pub open spec fn is_unicode_whitespace(c: char) -> bool {
    ||| ('\u{9}' <= c && c <= '\u{D}')
    ||| c == ' '
    ||| c == '\u{85}'
    ||| c == '\u{A0}'
    ||| c == '\u{1680}'
    ||| ('\u{2000}' <= c && c <= '\u{200A}')
    ||| c == '\u{2028}'
    ||| c == '\u{2029}'
    ||| c == '\u{202F}'
    ||| c == '\u{205F}'
    ||| c == '\u{3000}'
}

/// What `char::is_alphanumeric` returns (`Alphabetic` or `Numeric`) for a
/// character outside ASCII.
pub uninterp spec fn unicode_alphanumeric(c: char) -> bool;

/// What `char::is_alphanumeric` returns: on ASCII the letters and digits,
/// elsewhere the Unicode property ([`unicode_alphanumeric`]).
#[verifier::opaque]
pub open spec fn is_unicode_alphanumeric(c: char) -> bool {
    if is_ascii_char(c) {
        is_ascii_alnum_spec(c)
    } else {
        unicode_alphanumeric(c)
    }
}

/// Calls `str::to_lowercase`. Trusted: the result is the Unicode lower-case
/// mapping of the input, a function of its characters alone; on ASCII text
/// that mapping sends `A`–`Z` to `a`–`z` and keeps every other character.
#[verifier::external_body]
pub(crate) fn to_lowercase(s: &str) -> (r: String)
    ensures
        r@ == lowercase_of(s@),
        is_ascii_text(s@) ==> r@ == ascii_lower(s@),
        !is_ascii_text(s@) ==> r@ == unicode_lowercase(s@),
{
    s.to_lowercase()
}

/// Calls `str::to_uppercase`. Trusted: the result is the Unicode upper-case
/// mapping of the input, a function of its characters alone; on ASCII text
/// that mapping sends `a`–`z` to `A`–`Z` and keeps every other character.
#[verifier::external_body]
pub(crate) fn to_uppercase(s: &str) -> (r: String)
    ensures
        r@ == uppercase_of(s@),
        is_ascii_text(s@) ==> r@ == ascii_upper(s@),
        !is_ascii_text(s@) ==> r@ == unicode_uppercase(s@),
{
    s.to_uppercase()
}

/// Whether `c` is white space (`char::is_whitespace`).
pub fn char_is_whitespace(c: char) -> (r: bool)
    ensures
        r == is_unicode_whitespace(c),
{
    ('\u{9}' <= c && c <= '\u{D}') || c == ' ' || c == '\u{85}' || c == '\u{A0}' || c == '\u{1680}'
        || ('\u{2000}' <= c && c <= '\u{200A}') || c == '\u{2028}' || c == '\u{2029}'
        || c == '\u{202F}' || c == '\u{205F}' || c == '\u{3000}'
}

/// Calls `char::is_alphanumeric`. Trusted: a property of the character
/// alone; on ASCII it holds exactly of the letters and digits.
#[verifier::external_body]
pub(crate) fn char_is_alphanumeric(c: char) -> (r: bool)
    ensures
        r == is_unicode_alphanumeric(c),
        is_ascii_char(c) ==> r == is_ascii_alnum_spec(c),
        !is_ascii_char(c) ==> r == unicode_alphanumeric(c),
{
    c.is_alphanumeric()
}

/// Collects characters into a `String` (`FromIterator<char>`). Trusted: the
/// string holds exactly these characters, in order.
#[verifier::external_body]
pub(crate) fn string_from_chars(v: &[char]) -> (r: String)
    ensures
        r@ == v@,
{
    v.iter().collect()
}

// ── ASCII classification (std's `is_ascii_*` restated) ─────────────────

pub open spec fn is_ascii_digit_spec(c: char) -> bool {
    '0' <= c && c <= '9'
}

pub open spec fn is_ascii_alpha_spec(c: char) -> bool {
    ('a' <= c && c <= 'z') || ('A' <= c && c <= 'Z')
}

pub open spec fn is_ascii_alnum_spec(c: char) -> bool {
    is_ascii_digit_spec(c) || is_ascii_alpha_spec(c)
}

/// ASCII whitespace as `u8::is_ascii_whitespace` defines it.
pub open spec fn is_ascii_ws_spec(c: char) -> bool {
    c == ' ' || c == '\t' || c == '\n' || c == '\x0C' || c == '\r'
}

pub fn is_ascii_digit(c: char) -> (r: bool)
    ensures
        r == is_ascii_digit_spec(c),
{
    '0' <= c && c <= '9'
}

pub fn is_ascii_alpha(c: char) -> (r: bool)
    ensures
        r == is_ascii_alpha_spec(c),
{
    ('a' <= c && c <= 'z') || ('A' <= c && c <= 'Z')
}

pub fn is_ascii_alnum(c: char) -> (r: bool)
    ensures
        r == is_ascii_alnum_spec(c),
{
    is_ascii_digit(c) || is_ascii_alpha(c)
}

pub fn is_ascii_ws(c: char) -> (r: bool)
    ensures
        r == is_ascii_ws_spec(c),
{
    c == ' ' || c == '\t' || c == '\n' || c == '\x0C' || c == '\r'
}

// ── Sequence helpers ────────────────────────────────────────────────────

/// The characters of a string slice, in order.
pub fn chars_of(s: &str) -> (v: Vec<char>)
    ensures
        v@ == s@,
{
    let mut v: Vec<char> = Vec::new();
    for c in it: s.chars()
        invariant
            v@ == it.seq().take(it.index() as int),
            it.seq() == s@,
    {
        v.push(c);
    }
    v
}

/// Lower-cases a character sequence through `str::to_lowercase`.
pub fn lowercase_chars(v: &[char]) -> (r: Vec<char>)
    ensures
        r@ == lowercase_of(v@),
{
    let s = string_from_chars(v);
    let l = to_lowercase(s.as_str());
    chars_of(l.as_str())
}

/// Whether two character sequences are equal.
pub fn chars_eq(a: &[char], b: &[char]) -> (r: bool)
    ensures
        r == (a@ == b@),
{
    if a.len() != b.len() {
        return false;
    }
    let mut i: usize = 0;
    while i < a.len()
        invariant
            a@.len() == b@.len(),
            i <= a@.len(),
            forall|j: int| 0 <= j < i ==> a@[j] == b@[j],
        decreases a.len() - i,
    {
        if a[i] != b[i] {
            return false;
        }
        i += 1;
    }
    assert(a@ =~= b@);
    true
}

/// Whether a character sequence spells the given literal.
pub fn chars_eq_str(a: &[char], lit: &str) -> (r: bool)
    ensures
        r == (a@ == lit@),
{
    let l = chars_of(lit);
    chars_eq(a, l.as_slice())
}

/// Whether two string slices hold the same characters.
pub fn str_eq(a: &str, b: &str) -> (r: bool)
    ensures
        r == (a@ == b@),
{
    let ac = chars_of(a);
    let bc = chars_of(b);
    chars_eq(ac.as_slice(), bc.as_slice())
}

/// `needle` occurs in `hay` starting at position `i`.
pub open spec fn occurs_at(hay: Seq<char>, needle: Seq<char>, i: int) -> bool {
    0 <= i && i + needle.len() <= hay.len() && hay.subrange(i, i + needle.len()) == needle
}

/// `str::contains` on character sequences.
pub open spec fn contains_seq(hay: Seq<char>, needle: Seq<char>) -> bool {
    exists|i: int| occurs_at(hay, needle, i)
}

/// Whether `needle` occurs in `hay` at position `i`.
pub fn occurs_at_exec(hay: &[char], needle: &[char], i: usize) -> (r: bool)
    ensures
        r == occurs_at(hay@, needle@, i as int),
{
    if i > hay.len() || needle.len() > hay.len() - i {
        return false;
    }
    let mut k: usize = 0;
    while k < needle.len()
        invariant
            i + needle@.len() <= hay@.len(),
            hay@.len() == hay.len(),
            needle@.len() == needle.len(),
            k <= needle@.len(),
            forall|j: int| 0 <= j < k ==> hay@[i + j] == needle@[j],
        decreases needle.len() - k,
    {
        if hay[i + k] != needle[k] {
            assert(hay@.subrange(i as int, i + needle@.len())[k as int] != needle@[k as int]);
            return false;
        }
        k += 1;
    }
    assert(hay@.subrange(i as int, i + needle@.len()) =~= needle@);
    true
}

/// `str::contains` on character sequences.
pub fn contains_chars(hay: &[char], needle: &[char]) -> (r: bool)
    ensures
        r == contains_seq(hay@, needle@),
{
    let mut i: usize = 0;
    while i < hay.len()
        invariant
            i <= hay@.len(),
            forall|j: int| 0 <= j < i ==> !occurs_at(hay@, needle@, j),
        decreases hay.len() - i,
    {
        if occurs_at_exec(hay, needle, i) {
            return true;
        }
        i += 1;
    }
    if occurs_at_exec(hay, needle, hay.len()) {
        return true;
    }
    assert forall|j: int| !occurs_at(hay@, needle@, j) by {
        if 0 <= j && j < hay@.len() {
        } else if j != hay@.len() && occurs_at(hay@, needle@, j) {
            assert(j <= hay@.len());
        }
    }
    false
}

/// `str::starts_with` on character sequences.
pub open spec fn starts_with_seq(s: Seq<char>, prefix: Seq<char>) -> bool {
    occurs_at(s, prefix, 0)
}

pub fn starts_with_chars(s: &[char], prefix: &[char]) -> (r: bool)
    ensures
        r == starts_with_seq(s@, prefix@),
{
    occurs_at_exec(s, prefix, 0)
}

/// `str::ends_with` on character sequences.
pub open spec fn ends_with_seq(s: Seq<char>, suffix: Seq<char>) -> bool {
    suffix.len() <= s.len() && occurs_at(s, suffix, s.len() - suffix.len())
}

pub fn ends_with_chars(s: &[char], suffix: &[char]) -> (r: bool)
    ensures
        r == ends_with_seq(s@, suffix@),
{
    if suffix.len() > s.len() {
        return false;
    }
    occurs_at_exec(s, suffix, s.len() - suffix.len())
}

/// Append the characters of `s` to `buf`.
pub fn append_str(buf: &mut Vec<char>, s: &str)
    ensures
        final(buf)@ == old(buf)@ + s@,
{
    let c = chars_of(s);
    let mut i: usize = 0;
    while i < c.len()
        invariant
            i <= c@.len(),
            c@ == s@,
            buf@ == old(buf)@ + c@.take(i as int),
        decreases c.len() - i,
    {
        buf.push(c[i]);
        assert(c@.take(i + 1) =~= c@.take(i as int).push(c@[i as int]));
        i += 1;
    }
    assert(c@.take(c@.len() as int) =~= c@);
}

/// A copy of `v`.
pub fn copy_chars(v: &[char]) -> (r: Vec<char>)
    ensures
        r@ == v@,
{
    let r = slice_chars(v, 0, v.len());
    assert(r@ =~= v@);
    r
}

/// Width in bytes of the UTF-8 encoding of `c`.
pub open spec fn utf8_width(c: char) -> nat {
    if '\u{80}' > c {
        1
    } else if '\u{800}' > c {
        2
    } else if '\u{10000}' > c {
        3
    } else {
        4
    }
}

/// Number of bytes in the UTF-8 encoding of `s` (what `str::len` returns).
pub open spec fn utf8_len(s: Seq<char>) -> nat
    decreases s.len(),
{
    if s.len() == 0 {
        0
    } else {
        utf8_len(s.drop_last()) + utf8_width(s.last())
    }
}

/// Whether the UTF-8 encoding of `v` has at least `k` bytes.
pub fn utf8_len_at_least(v: &[char], k: usize) -> (r: bool)
    ensures
        r == (utf8_len(v@) >= k),
{
    let mut acc: usize = 0;
    let mut i: usize = 0;
    if k == 0 {
        return true;
    }
    while i < v.len()
        invariant
            0 < k,
            i <= v@.len(),
            acc == utf8_len(v@.take(i as int)),
            acc < k,
        decreases v.len() - i,
    {
        let c = v[i];
        let w: usize = if '\u{80}' > c {
            1
        } else if '\u{800}' > c {
            2
        } else if '\u{10000}' > c {
            3
        } else {
            4
        };
        assert(v@.take(i + 1).drop_last() =~= v@.take(i as int));
        assert(v@.take(i + 1).last() == c);
        if w >= k - acc {
            proof {
                lemma_utf8_len_prefix_le(v@, i + 1);
            }
            return true;
        }
        acc = acc + w;
        i += 1;
    }
    assert(v@.take(v@.len() as int) =~= v@);
    false
}

/// A prefix is never longer in bytes than the whole sequence.
pub proof fn lemma_utf8_len_prefix_le(s: Seq<char>, i: int)
    requires
        0 <= i <= s.len(),
    ensures
        utf8_len(s.take(i)) <= utf8_len(s),
    decreases s.len() - i,
{
    if i < s.len() {
        lemma_utf8_len_prefix_le(s, i + 1);
        assert(s.take(i + 1).drop_last() =~= s.take(i));
    } else {
        assert(s.take(i) =~= s);
    }
}

/// A copy of `v[from..to]`.
pub fn slice_chars(v: &[char], from: usize, to: usize) -> (r: Vec<char>)
    requires
        from <= to <= v@.len(),
    ensures
        r@ == v@.subrange(from as int, to as int),
{
    let mut r: Vec<char> = Vec::new();
    let mut i = from;
    while i < to
        invariant
            from <= i <= to,
            to <= v@.len(),
            r@ == v@.subrange(from as int, i as int),
        decreases to - i,
    {
        r.push(v[i]);
        i += 1;
        assert(r@ =~= v@.subrange(from as int, i as int));
    }
    r
}

} // verus!
