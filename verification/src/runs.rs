//! Maximal runs of characters that satisfy a predicate: the model behind
//! `split_whitespace` and behind splitting on separator characters.
use vstd::prelude::*;
use crate::text::{
    char_is_alphanumeric, char_is_whitespace, is_ascii_alnum, is_ascii_alnum_spec,
    is_unicode_alphanumeric, is_unicode_whitespace,
};

verus! {

/// Length of the longest prefix of `s` whose characters satisfy `p`.
pub open spec fn prefix_len(s: Seq<char>, p: spec_fn(char) -> bool) -> nat
    decreases s.len(),
{
    if s.len() > 0 && p(s[0]) {
        1 + prefix_len(s.drop_first(), p)
    } else {
        0
    }
}

/// The maximal non-empty runs of characters satisfying `p`, left to right.
pub open spec fn runs(s: Seq<char>, p: spec_fn(char) -> bool) -> Seq<Seq<char>>
    decreases s.len(),
{
    if s.len() == 0 {
        seq![]
    } else if !p(s[0]) {
        runs(s.drop_first(), p)
    } else {
        let n = prefix_len(s, p);
        proof {
            lemma_prefix_len_bounds(s, p);
        }
        seq![s.take(n as int)] + runs(s.skip(n as int), p)
    }
}

/// Characters that are not Unicode whitespace (`split_whitespace` words).
pub open spec fn non_ws() -> spec_fn(char) -> bool {
    |c: char| !is_unicode_whitespace(c)
}

/// The words `str::split_whitespace` yields.
pub open spec fn ws_words(s: Seq<char>) -> Seq<Seq<char>> {
    runs(s, non_ws())
}

/// ASCII alphanumerics, `_` and `-`: the characters of a bare token.
pub open spec fn is_token_char_spec(c: char) -> bool {
    is_ascii_alnum_spec(c) || c == '_' || c == '-'
}

pub open spec fn token_chars() -> spec_fn(char) -> bool {
    |c: char| is_token_char_spec(c)
}

pub proof fn lemma_prefix_len_bounds(s: Seq<char>, p: spec_fn(char) -> bool)
    ensures
        prefix_len(s, p) <= s.len(),
        s.len() > 0 && p(s[0]) ==> prefix_len(s, p) >= 1,
    decreases s.len(),
{
    if s.len() > 0 && p(s[0]) {
        lemma_prefix_len_bounds(s.drop_first(), p);
    }
}

pub proof fn lemma_prefix_len_exact(s: Seq<char>, p: spec_fn(char) -> bool, n: int)
    requires
        0 <= n <= s.len(),
        forall|j: int| 0 <= j < n ==> p(#[trigger] s[j]),
        n == s.len() || !p(s[n]),
    ensures
        prefix_len(s, p) == n,
    decreases n,
{
    if n > 0 {
        assert forall|j: int| 0 <= j < n - 1 implies p(#[trigger] s.drop_first()[j]) by {
            assert(s.drop_first()[j] == s[j + 1]);
        }
        if n - 1 < s.drop_first().len() {
            assert(s.drop_first()[n - 1] == s[n]);
        }
        lemma_prefix_len_exact(s.drop_first(), p, n - 1);
    }
}

/// A completed run followed by a character outside the run class (or the
/// end) contributes itself as one run.
pub proof fn lemma_runs_flush(run: Seq<char>, rest: Seq<char>, p: spec_fn(char) -> bool)
    requires
        forall|j: int| 0 <= j < run.len() ==> p(#[trigger] run[j]),
        rest.len() == 0 || !p(rest[0]),
    ensures
        runs(run + rest, p) == (if run.len() == 0 {
            seq![]
        } else {
            seq![run]
        }) + runs(rest, p),
{
    let s = run + rest;
    if run.len() == 0 {
        assert(s =~= rest);
        assert(seq![] + runs(rest, p) =~= runs(rest, p));
    } else {
        assert(s[0] == run[0]);
        assert forall|j: int| 0 <= j < run.len() implies p(#[trigger] s[j]) by {
            assert(s[j] == run[j]);
        }
        if run.len() < s.len() {
            assert(s[run.len() as int] == rest[0]);
        }
        lemma_prefix_len_exact(s, p, run.len() as int);
        assert(s.take(run.len() as int) =~= run);
        assert(s.skip(run.len() as int) =~= rest);
    }
}

/// A character outside the run class is skipped.
pub proof fn lemma_runs_skip(c: char, rest: Seq<char>, p: spec_fn(char) -> bool)
    requires
        !p(c),
    ensures
        runs(seq![c] + rest, p) == runs(rest, p),
{
    let s = seq![c] + rest;
    assert(s[0] == c);
    assert(s.drop_first() =~= rest);
}

pub open spec fn vviews(v: Seq<Vec<char>>) -> Seq<Seq<char>> {
    v.map_values(|x: Vec<char>| x@)
}

/// `str::split_whitespace`: the maximal runs of non-whitespace characters.
pub fn split_whitespace_chars(v: &[char]) -> (r: Vec<Vec<char>>)
    ensures
        vviews(r@) == ws_words(v@),
{
    let n = v.len();
    let mut out: Vec<Vec<char>> = Vec::new();
    let mut cur: Vec<char> = Vec::new();
    let mut i: usize = 0;
    assert(cur@ + v@.skip(0) =~= v@);
    assert(vviews(out@) + runs(v@, non_ws()) =~= runs(v@, non_ws()));
    while i < n
        invariant
            n == v@.len(),
            i <= n,
            forall|j: int| 0 <= j < cur@.len() ==> (non_ws())(#[trigger] cur@[j]),
            vviews(out@) + runs(cur@ + v@.skip(i as int), non_ws()) == runs(v@, non_ws()),
        decreases n - i,
    {
        let c = v[i];
        let ghost rest = v@.skip(i as int);
        let ghost next = v@.skip(i + 1);
        assert(rest =~= seq![c] + next);
        if char_is_whitespace(c) {
            proof {
                lemma_runs_flush(cur@, rest, non_ws());
                lemma_runs_skip(c, next, non_ws());
            }
            let ghost before = vviews(out@);
            let ghost old_cur = cur@;
            if cur.len() > 0 {
                out.push(cur);
                cur = Vec::new();
                assert(vviews(out@) =~= before + seq![old_cur]);
            } else {
                assert(before + seq![] =~= before);
            }
            assert(cur@ + next =~= next);
        } else {
            assert(cur@ + rest =~= cur@.push(c) + next);
            cur.push(c);
        }
        i += 1;
    }
    let ghost empty = v@.skip(n as int);
    assert(empty =~= Seq::<char>::empty());
    proof {
        lemma_runs_flush(cur@, empty, non_ws());
    }
    assert(cur@ + empty =~= cur@);
    let ghost before = vviews(out@);
    if cur.len() > 0 {
        out.push(cur);
        assert(vviews(out@) =~= before + seq![cur@]);
    }
    assert(vviews(out@) =~= runs(v@, non_ws()));
    out
}

/// Split on every character that is not a token character, dropping empty
/// pieces: the maximal runs of ASCII alphanumerics, `_` and `-`.
pub fn split_token_runs(v: &[char]) -> (r: Vec<Vec<char>>)
    ensures
        vviews(r@) == runs(v@, token_chars()),
{
    let n = v.len();
    let mut out: Vec<Vec<char>> = Vec::new();
    let mut cur: Vec<char> = Vec::new();
    let mut i: usize = 0;
    assert(cur@ + v@.skip(0) =~= v@);
    assert(vviews(out@) + runs(v@, token_chars()) =~= runs(v@, token_chars()));
    while i < n
        invariant
            n == v@.len(),
            i <= n,
            forall|j: int| 0 <= j < cur@.len() ==> (token_chars())(#[trigger] cur@[j]),
            vviews(out@) + runs(cur@ + v@.skip(i as int), token_chars()) == runs(
                v@,
                token_chars(),
            ),
        decreases n - i,
    {
        let c = v[i];
        let ghost rest = v@.skip(i as int);
        let ghost next = v@.skip(i + 1);
        assert(rest =~= seq![c] + next);
        if !(is_ascii_alnum(c) || c == '_' || c == '-') {
            proof {
                lemma_runs_flush(cur@, rest, token_chars());
                lemma_runs_skip(c, next, token_chars());
            }
            let ghost before = vviews(out@);
            let ghost old_cur = cur@;
            if cur.len() > 0 {
                out.push(cur);
                cur = Vec::new();
                assert(vviews(out@) =~= before + seq![old_cur]);
            } else {
                assert(before + seq![] =~= before);
            }
            assert(cur@ + next =~= next);
        } else {
            assert(cur@ + rest =~= cur@.push(c) + next);
            cur.push(c);
        }
        i += 1;
    }
    let ghost empty = v@.skip(n as int);
    assert(empty =~= Seq::<char>::empty());
    proof {
        lemma_runs_flush(cur@, empty, token_chars());
    }
    assert(cur@ + empty =~= cur@);
    let ghost before = vviews(out@);
    if cur.len() > 0 {
        out.push(cur);
        assert(vviews(out@) =~= before + seq![cur@]);
    }
    assert(vviews(out@) =~= runs(v@, token_chars()));
    out
}

/// Characters other than a newline.
pub open spec fn not_newline() -> spec_fn(char) -> bool {
    |c: char| c != '\n'
}

/// Split at every newline, dropping empty pieces: the non-empty lines.
pub fn split_lines_chars(v: &[char]) -> (r: Vec<Vec<char>>)
    ensures
        vviews(r@) == runs(v@, not_newline()),
{
    let n = v.len();
    let mut out: Vec<Vec<char>> = Vec::new();
    let mut cur: Vec<char> = Vec::new();
    let mut i: usize = 0;
    assert(cur@ + v@.skip(0) =~= v@);
    assert(vviews(out@) + runs(v@, not_newline()) =~= runs(v@, not_newline()));
    while i < n
        invariant
            n == v@.len(),
            i <= n,
            forall|j: int| 0 <= j < cur@.len() ==> (not_newline())(#[trigger] cur@[j]),
            vviews(out@) + runs(cur@ + v@.skip(i as int), not_newline()) == runs(
                v@,
                not_newline(),
            ),
        decreases n - i,
    {
        let c = v[i];
        let ghost rest = v@.skip(i as int);
        let ghost next = v@.skip(i + 1);
        assert(rest =~= seq![c] + next);
        if c == '\n' {
            proof {
                lemma_runs_flush(cur@, rest, not_newline());
                lemma_runs_skip(c, next, not_newline());
            }
            let ghost before = vviews(out@);
            let ghost old_cur = cur@;
            if cur.len() > 0 {
                out.push(cur);
                cur = Vec::new();
                assert(vviews(out@) =~= before + seq![old_cur]);
            } else {
                assert(before + seq![] =~= before);
            }
            assert(cur@ + next =~= next);
        } else {
            assert(cur@ + rest =~= cur@.push(c) + next);
            cur.push(c);
        }
        i += 1;
    }
    let ghost empty = v@.skip(n as int);
    assert(empty =~= Seq::<char>::empty());
    proof {
        lemma_runs_flush(cur@, empty, not_newline());
    }
    assert(cur@ + empty =~= cur@);
    let ghost before = vviews(out@);
    if cur.len() > 0 {
        out.push(cur);
        assert(vviews(out@) =~= before + seq![cur@]);
    }
    assert(vviews(out@) =~= runs(v@, not_newline()));
    out
}

/// Alphanumeric characters (`char::is_alphanumeric`).
pub open spec fn alnum_chars() -> spec_fn(char) -> bool {
    |c: char| is_unicode_alphanumeric(c)
}

/// Split on every character that is not alphanumeric, dropping empty
/// pieces: the maximal runs of alphanumerics.
pub fn split_alnum_runs(v: &[char]) -> (r: Vec<Vec<char>>)
    ensures
        vviews(r@) == runs(v@, alnum_chars()),
{
    let n = v.len();
    let mut out: Vec<Vec<char>> = Vec::new();
    let mut cur: Vec<char> = Vec::new();
    let mut i: usize = 0;
    assert(cur@ + v@.skip(0) =~= v@);
    assert(vviews(out@) + runs(v@, alnum_chars()) =~= runs(v@, alnum_chars()));
    while i < n
        invariant
            n == v@.len(),
            i <= n,
            forall|j: int| 0 <= j < cur@.len() ==> (alnum_chars())(#[trigger] cur@[j]),
            vviews(out@) + runs(cur@ + v@.skip(i as int), alnum_chars()) == runs(
                v@,
                alnum_chars(),
            ),
        decreases n - i,
    {
        let c = v[i];
        let ghost rest = v@.skip(i as int);
        let ghost next = v@.skip(i + 1);
        assert(rest =~= seq![c] + next);
        if !char_is_alphanumeric(c) {
            proof {
                lemma_runs_flush(cur@, rest, alnum_chars());
                lemma_runs_skip(c, next, alnum_chars());
            }
            let ghost before = vviews(out@);
            let ghost old_cur = cur@;
            if cur.len() > 0 {
                out.push(cur);
                cur = Vec::new();
                assert(vviews(out@) =~= before + seq![old_cur]);
            } else {
                assert(before + seq![] =~= before);
            }
            assert(cur@ + next =~= next);
        } else {
            assert(cur@ + rest =~= cur@.push(c) + next);
            cur.push(c);
        }
        i += 1;
    }
    let ghost empty = v@.skip(n as int);
    assert(empty =~= Seq::<char>::empty());
    proof {
        lemma_runs_flush(cur@, empty, alnum_chars());
    }
    assert(cur@ + empty =~= cur@);
    let ghost before = vviews(out@);
    if cur.len() > 0 {
        out.push(cur);
        assert(vviews(out@) =~= before + seq![cur@]);
    }
    assert(vviews(out@) =~= runs(v@, alnum_chars()));
    out
}

} // verus!
