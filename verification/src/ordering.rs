//! Lexicographic order on character sequences (the order of `String`'s
//! `Ord`, which compares code points), sorted duplicate-free string sets,
//! and a stable insertion sort by string key.
use vstd::prelude::*;
use crate::text::{chars_of, string_from_chars};
use crate::tokenizer::string_views;

verus! {

/// `a` sorts strictly before `b` in code-point lexicographic order.
pub open spec fn lex_lt(a: Seq<char>, b: Seq<char>) -> bool
    decreases a.len(),
{
    if a.len() == 0 {
        b.len() > 0
    } else if b.len() == 0 {
        false
    } else if a[0] != b[0] {
        a[0] < b[0]
    } else {
        lex_lt(a.drop_first(), b.drop_first())
    }
}

pub proof fn lemma_lex_irreflexive(a: Seq<char>)
    ensures
        !lex_lt(a, a),
    decreases a.len(),
{
    if a.len() > 0 {
        lemma_lex_irreflexive(a.drop_first());
    }
}

pub proof fn lemma_lex_transitive(a: Seq<char>, b: Seq<char>, c: Seq<char>)
    requires
        lex_lt(a, b),
        lex_lt(b, c),
    ensures
        lex_lt(a, c),
    decreases a.len(),
{
    if a.len() > 0 && b.len() > 0 && c.len() > 0 {
        if a[0] == b[0] && b[0] == c[0] {
            lemma_lex_transitive(a.drop_first(), b.drop_first(), c.drop_first());
        }
    }
}

pub proof fn lemma_lex_total(a: Seq<char>, b: Seq<char>)
    ensures
        a == b || lex_lt(a, b) || lex_lt(b, a),
    decreases a.len(),
{
    if a.len() > 0 && b.len() > 0 {
        if a[0] == b[0] {
            lemma_lex_total(a.drop_first(), b.drop_first());
            if a.drop_first() == b.drop_first() {
                assert(a =~= seq![a[0]] + a.drop_first());
                assert(b =~= seq![b[0]] + b.drop_first());
            }
        }
    } else if a.len() == 0 && b.len() == 0 {
        assert(a =~= b);
    }
}

pub proof fn lemma_lex_asymmetric(a: Seq<char>, b: Seq<char>)
    requires
        lex_lt(a, b),
    ensures
        !lex_lt(b, a),
    decreases a.len(),
{
    if a.len() > 0 && b.len() > 0 && a[0] == b[0] {
        lemma_lex_asymmetric(a.drop_first(), b.drop_first());
    }
}

/// Three-way comparison: -1, 0 or 1.
pub fn lex_compare(a: &[char], b: &[char]) -> (r: i8)
    ensures
        r == 0 <==> a@ == b@,
        r < 0 <==> lex_lt(a@, b@),
        r > 0 <==> lex_lt(b@, a@),
{
    let mut i: usize = 0;
    assert(a@.skip(0) =~= a@);
    assert(b@.skip(0) =~= b@);
    assert(a@.take(0) =~= b@.take(0));
    while i < a.len() && i < b.len()
        invariant
            i <= a@.len(),
            i <= b@.len(),
            a@.take(i as int) == b@.take(i as int),
            lex_lt(a@, b@) == lex_lt(a@.skip(i as int), b@.skip(i as int)),
            lex_lt(b@, a@) == lex_lt(b@.skip(i as int), a@.skip(i as int)),
        decreases a.len() - i,
    {
        let ghost sa = a@.skip(i as int);
        let ghost sb = b@.skip(i as int);
        assert(sa[0] == a@[i as int] && sb[0] == b@[i as int]);
        if a[i] != b[i] {
            proof {
                lemma_lex_total(a@, b@);
                if a@ == b@ {
                    assert(a@[i as int] == b@[i as int]);
                }
            }
            if a[i] < b[i] {
                return -1;
            } else {
                return 1;
            }
        }
        assert(sa.drop_first() =~= a@.skip(i + 1));
        assert(sb.drop_first() =~= b@.skip(i + 1));
        assert(a@.take(i + 1) =~= a@.take(i as int).push(a@[i as int]));
        assert(b@.take(i + 1) =~= b@.take(i as int).push(b@[i as int]));
        i += 1;
    }
    let ghost sa = a@.skip(i as int);
    let ghost sb = b@.skip(i as int);
    if a.len() == b.len() {
        assert(a@ =~= a@.take(i as int));
        assert(b@ =~= b@.take(i as int));
        proof {
            lemma_lex_irreflexive(a@);
        }
        0
    } else if a.len() < b.len() {
        assert(sa.len() == 0 && sb.len() > 0);
        assert(a@ != b@);
        -1
    } else {
        assert(sb.len() == 0 && sa.len() > 0);
        assert(a@ != b@);
        1
    }
}

/// Strictly increasing in lexicographic order (so also duplicate-free).
pub open spec fn strictly_sorted(s: Seq<Seq<char>>) -> bool {
    forall|i: int, j: int| 0 <= i < j < s.len() ==> lex_lt(s[i], s[j])
}

/// Insert `x` into a strictly sorted vector of strings, unless present.
pub fn insert_sorted_unique(v: &mut Vec<String>, x: &str)
    requires
        strictly_sorted(string_views(old(v)@)),
    ensures
        strictly_sorted(string_views(final(v)@)),
        string_views(final(v)@).to_set() == string_views(old(v)@).to_set().insert(x@),
{
    let xc = chars_of(x);
    let ghost old_s = string_views(v@);
    let mut i: usize = 0;
    while i < v.len()
        invariant
            string_views(v@) == old_s,
            xc@ == x@,
            strictly_sorted(old_s),
            i <= v@.len(),
            forall|j: int| 0 <= j < i ==> lex_lt(#[trigger] old_s[j], x@),
        ensures
            string_views(v@) == old_s,
            i <= v@.len(),
            forall|j: int| 0 <= j < i ==> lex_lt(#[trigger] old_s[j], x@),
            i < v@.len() ==> lex_lt(x@, old_s[i as int]),
        decreases v.len() - i,
    {
        let vc = chars_of(v[i].as_str());
        assert(old_s[i as int] == v@[i as int]@);
        let c = lex_compare(vc.as_slice(), xc.as_slice());
        if c == 0 {
            assert(old_s[i as int] == x@);
            assert(old_s.to_set().insert(x@) =~= old_s.to_set()) by {
                assert(old_s.contains(x@));
            }
            return;
        }
        if c > 0 {
            break;
        }
        i += 1;
    }
    // Every element before `i` is below `x`; every element from `i` on is
    // above it (the element at `i` is, and the rest follow it).
    let s = string_from_chars(xc.as_slice());
    proof {
        if i < old_s.len() {
            assert forall|j: int| i <= j < old_s.len() implies lex_lt(x@, #[trigger] old_s[j]) by {
                if j > i {
                    lemma_lex_transitive(x@, old_s[i as int], old_s[j]);
                }
            }
        }
    }
    v.insert(i, s);
    let ghost new_s = string_views(v@);
    assert(new_s =~= old_s.take(i as int).push(x@) + old_s.skip(i as int));
    assert forall|a: int, b: int| 0 <= a < b < new_s.len() implies lex_lt(new_s[a], new_s[b]) by {
        if b < i {
        } else if a < i && b == i {
        } else if a < i && b > i {
            lemma_lex_transitive(old_s[a], x@, old_s[b - 1]);
        } else if a == i {
        } else {
        }
    }
    assert(new_s.to_set() =~= old_s.to_set().insert(x@)) by {
        assert forall|t: Seq<char>| old_s.contains(t) implies new_s.contains(t) by {
            let j = choose|j: int| 0 <= j < old_s.len() && old_s[j] == t;
            if j < i {
                assert(new_s[j] == t);
            } else {
                assert(new_s[j + 1] == t);
            }
        }
        assert(new_s[i as int] == x@);
    }
}

/// The strings of `items` as a strictly sorted duplicate-free vector
/// (`sort` then `dedup`).
pub fn sorted_unique(items: &Vec<String>) -> (r: Vec<String>)
    ensures
        strictly_sorted(string_views(r@)),
        string_views(r@).to_set() == string_views(items@).to_set(),
{
    let mut out: Vec<String> = Vec::new();
    let mut i: usize = 0;
    assert(string_views(out@).to_set() =~= string_views(items@).take(0).to_set());
    while i < items.len()
        invariant
            i <= items@.len(),
            strictly_sorted(string_views(out@)),
            string_views(out@).to_set() == string_views(items@).take(i as int).to_set(),
        decreases items.len() - i,
    {
        insert_sorted_unique(&mut out, items[i].as_str());
        assert(string_views(items@).take(i + 1) =~= string_views(items@).take(i as int).push(
            items@[i as int]@,
        ));
        proof {
            string_views(items@).take(i as int).lemma_push_to_set_commute(items@[i as int]@);
        }
        i += 1;
    }
    assert(string_views(items@).take(items@.len() as int) =~= string_views(items@));
    out
}

} // verus!
