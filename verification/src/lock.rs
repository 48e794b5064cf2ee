//! The cross-process consolidation lock's rules: what the lock file holds
//! (the owner's PID and the time it was taken), when a lock left by another
//! process may be reclaimed, and what to do after an attempt to create it.
use vstd::prelude::*;
use crate::keyvalue::{trim_by, trim_whitespace, unicode_ws};
use crate::session_index::{parse_time_field, rfc3339_micros};
use crate::text::{chars_of, is_ascii_digit, is_ascii_digit_spec, string_from_chars, slice_chars};

verus! {

/// A lock older than this many seconds may be reclaimed.
pub const LOCK_STALE_AFTER_SECS: i64 = 1800;

/// The name of the lock file in the memory directory.
pub const LOCK_FILE_NAME: &'static str = ".consolidation.lock";

// ── Reading the lock file ──────────────────────────────────────────────

/// Position of the first `c` in `s[from..]`, or `s.len()`.
pub open spec fn line_end(s: Seq<char>, from: int) -> int
    decreases s.len() - from,
{
    if from >= s.len() {
        s.len() as int
    } else if s[from] == '\n' {
        from
    } else {
        line_end(s, from + 1)
    }
}

proof fn lemma_line_end(s: Seq<char>, from: int)
    requires
        0 <= from <= s.len(),
    ensures
        from <= line_end(s, from) <= s.len(),
        line_end(s, from) < s.len() ==> s[line_end(s, from)] == '\n',
        forall|j: int| from <= j < line_end(s, from) ==> s[j] != '\n',
    decreases s.len() - from,
{
    if from < s.len() && s[from] != '\n' {
        lemma_line_end(s, from + 1);
    }
}

/// The first line of a text (`str::lines().next()`), trimmed; none for an
/// empty text.
pub open spec fn first_line_trimmed(s: Seq<char>) -> Option<Seq<char>> {
    if s.len() == 0 {
        None
    } else {
        Some(trim_by(s.take(line_end(s, 0)), unicode_ws()))
    }
}

/// The second line of a text, trimmed; none when there is no text after
/// the first line break.
pub open spec fn second_line_trimmed(s: Seq<char>) -> Option<Seq<char>> {
    let e = line_end(s, 0);
    if e + 1 >= s.len() {
        None
    } else {
        Some(trim_by(s.subrange(e + 1, line_end(s, e + 1)), unicode_ws()))
    }
}

/// Value of a run of ASCII digits.
pub open spec fn digits_value(d: Seq<char>) -> int
    decreases d.len(),
{
    if d.len() == 0 {
        0
    } else {
        digits_value(d.drop_last()) * 10 + (d.last() as int - '0' as int)
    }
}

/// `u32::from_str`: an optional `+`, then one or more ASCII digits whose
/// value fits in 32 bits.
/// The digits part of a number text: without a leading `+`.
pub open spec fn digits_part(s: Seq<char>) -> Seq<char> {
    if s.len() > 0 && s[0] == '+' {
        s.drop_first()
    } else {
        s
    }
}

pub open spec fn all_digits(d: Seq<char>) -> bool {
    forall|i: int| 0 <= i < d.len() ==> is_ascii_digit_spec(#[trigger] d[i])
}

pub open spec fn parse_u32_spec(s: Seq<char>) -> Option<u32> {
    let d = digits_part(s);
    if d.len() > 0 && all_digits(d) && digits_value(d) <= u32::MAX {
        Some(digits_value(d) as u32)
    } else {
        None
    }
}

proof fn lemma_digits_value_nonneg(d: Seq<char>)
    requires
        forall|i: int| 0 <= i < d.len() ==> is_ascii_digit_spec(#[trigger] d[i]),
    ensures
        digits_value(d) >= 0,
    decreases d.len(),
{
    if d.len() > 0 {
        lemma_digits_value_nonneg(d.drop_last());
    }
}

/// Parse a decimal `u32` as `str::parse::<u32>` does.
pub fn parse_u32(s: &[char]) -> (r: Option<u32>)
    ensures
        r == parse_u32_spec(s@),
{
    let start: usize = if s.len() > 0 && s[0] == '+' {
        1
    } else {
        0
    };
    let ghost d = digits_part(s@);
    assert(d =~= s@.skip(start as int));
    if start >= s.len() {
        return None;
    }
    let mut acc: u64 = 0;
    let mut i = start;
    while i < s.len()
        invariant
            start <= i <= s@.len(),
            d == s@.skip(start as int),
            d == digits_part(s@),
            forall|j: int| 0 <= j < i - start ==> is_ascii_digit_spec(#[trigger] d[j]),
            acc == digits_value(d.take(i - start)),
            acc <= u32::MAX,
        decreases s.len() - i,
    {
        let c = s[i];
        assert(d[i - start] == c);
        if !is_ascii_digit(c) {
            assert(!is_ascii_digit_spec(d[i - start]));
            return None;
        }
        let ghost t = d.take(i - start + 1);
        assert(t.drop_last() =~= d.take(i - start));
        assert(t.last() == c);
        let digit: u64 = ((c as u32) - ('0' as u32)) as u64;
        let next = acc * 10 + digit;
        if next > 4294967295u64 {
            proof {
                assert forall|j: int| 0 <= j < i - start + 1 implies is_ascii_digit_spec(#[trigger] d[j]) by {
                    if j == i - start {
                        assert(d[j] == c);
                    }
                }
                lemma_digits_value_grows(d, i - start + 1);
            }
            return None;
        }
        acc = next;
        i += 1;
    }
    assert(d.take(d.len() as int) =~= d);
    Some(acc as u32)
}

/// A longer digit prefix has no smaller value.
proof fn lemma_digits_value_grows(d: Seq<char>, k: int)
    requires
        0 <= k <= d.len(),
        forall|j: int| 0 <= j < d.len() ==> is_ascii_digit_spec(#[trigger] d[j]) || j >= k,
        forall|j: int| 0 <= j < k ==> is_ascii_digit_spec(#[trigger] d[j]),
    ensures
        (forall|j: int| 0 <= j < d.len() ==> is_ascii_digit_spec(#[trigger] d[j])) ==> digits_value(d)
            >= digits_value(d.take(k)),
    decreases d.len() - k,
{
    if (forall|j: int| 0 <= j < d.len() ==> is_ascii_digit_spec(#[trigger] d[j])) {
        if k < d.len() {
            lemma_digits_value_grows(d, k + 1);
            let t = d.take(k + 1);
            assert(t.drop_last() =~= d.take(k));
            lemma_digits_value_nonneg(d.take(k));
        } else {
            assert(d.take(k) =~= d);
        }
    }
}

/// What a lock file says of its owner: the PID on its first line and the
/// time stamp text on its second, each trimmed.
pub open spec fn lock_owner_spec(content: Seq<char>) -> (Option<u32>, Option<Seq<char>>) {
    (
        match first_line_trimmed(content) {
            Some(l) => parse_u32_spec(l),
            None => None,
        },
        second_line_trimmed(content),
    )
}

/// Read the owner PID and time stamp text from the lock file's content.
pub fn parse_lock_owner(content: &str) -> (r: (Option<u32>, Option<String>))
    ensures
        r.0 == lock_owner_spec(content@).0,
        match r.1 {
            Some(t) => lock_owner_spec(content@).1 == Some(t@),
            None => lock_owner_spec(content@).1 is None,
        },
{
    let v = chars_of(content);
    proof {
        lemma_line_end(v@, 0);
    }
    let mut e: usize = 0;
    while e < v.len() && v[e] != '\n'
        invariant
            e <= v@.len(),
            line_end(v@, 0) == line_end(v@, e as int),
        decreases v.len() - e,
    {
        e += 1;
    }
    let pid = if v.len() == 0 {
        None
    } else {
        let first = slice_chars(v.as_slice(), 0, e);
        assert(first@ =~= v@.take(e as int));
        let t = trim_whitespace(first.as_slice());
        parse_u32(t.as_slice())
    };
    if v.len() == 0 || e >= v.len() - 1 {
        return (pid, None);
    }
    proof {
        lemma_line_end(v@, e + 1);
    }
    let mut f: usize = e + 1;
    while f < v.len() && v[f] != '\n'
        invariant
            e + 1 <= f <= v@.len(),
            line_end(v@, e + 1) == line_end(v@, f as int),
        decreases v.len() - f,
    {
        f += 1;
    }
    let second = slice_chars(v.as_slice(), e + 1, f);
    let t2 = trim_whitespace(second.as_slice());
    (pid, Some(string_from_chars(t2.as_slice())))
}

// ── Staleness and the acquire loop ─────────────────────────────────────

/// Whether a lock may be reclaimed: never while its owner is alive; else
/// when its time stamp (unix microseconds) is more than
/// `LOCK_STALE_AFTER_SECS` whole seconds before `now_us`, or when the time
/// stamp cannot be read at all.
pub open spec fn stale_spec(owner_alive: bool, lock_us: Option<i64>, now_us: i64) -> bool {
    if owner_alive {
        false
    } else {
        match lock_us {
            Some(t) => now_us - t >= (LOCK_STALE_AFTER_SECS + 1) * 1_000_000,
            None => true,
        }
    }
}

/// The verdict on a lock file left by another process. `owner_alive` is
/// whether its PID was read and names a live process.
pub fn lock_is_stale(owner_alive: bool, lock_us: Option<i64>, now_us: i64) -> (r: bool)
    ensures
        r == stale_spec(owner_alive, lock_us, now_us),
{
    if owner_alive {
        return false;
    }
    match lock_us {
        Some(t) => (now_us as i128) - (t as i128) >= ((LOCK_STALE_AFTER_SECS as i128) + 1)
            * 1_000_000,
        None => true,
    }
}

/// The verdict on a lock file's content: its PID's liveness as reported,
/// and its time stamp compared with `now_us` (unix microseconds).
pub fn lock_content_is_stale(content: &str, pid_alive: bool, now_us: i64) -> (r: bool)
    ensures
        r == stale_spec(
            lock_owner_spec(content@).0 is Some && pid_alive,
            match lock_owner_spec(content@).1 {
                Some(t) => rfc3339_micros(t),
                None => None,
            },
            now_us,
        ),
{
    let (pid, ts) = parse_lock_owner(content);
    let us = match ts {
        Some(t) => parse_time_field(Some(t.as_str())),
        None => None,
    };
    lock_is_stale(pid.is_some() && pid_alive, us, now_us)
}

/// The outcome of trying to create the lock file exclusively.
#[derive(Clone, Copy, Debug, PartialEq, Eq, Structural)]
pub enum CreateOutcome {
    Created,
    AlreadyExists,
    Failed,
}

/// What the acquire loop does next.
#[derive(Clone, Copy, Debug, PartialEq, Eq, Structural)]
pub enum LockStep {
    /// The lock is ours: write the owner PID and time into it.
    WriteOwner,
    /// Remove the stale lock file and try again at once.
    ReclaimAndRetry,
    /// Wait a moment and try again.
    WaitAndRetry,
    /// Give up with the creation error.
    Fail,
}

/// The decision after one attempt to create the lock file; `stale` is the
/// verdict on an existing lock (read only when it exists).
pub fn next_lock_step(outcome: CreateOutcome, stale: bool) -> (r: LockStep)
    ensures
        r == match outcome {
            CreateOutcome::Created => LockStep::WriteOwner,
            CreateOutcome::AlreadyExists => if stale {
                LockStep::ReclaimAndRetry
            } else {
                LockStep::WaitAndRetry
            },
            CreateOutcome::Failed => LockStep::Fail,
        },
{
    match outcome {
        CreateOutcome::Created => LockStep::WriteOwner,
        CreateOutcome::AlreadyExists => if stale {
            LockStep::ReclaimAndRetry
        } else {
            LockStep::WaitAndRetry
        },
        CreateOutcome::Failed => LockStep::Fail,
    }
}

/// A live owner's lock is never reclaimed, however old its time stamp.
pub proof fn law_live_owner_keeps_lock(lock_us: Option<i64>, now_us: i64)
    ensures
        !stale_spec(true, lock_us, now_us),
        next_lock_step_spec(CreateOutcome::AlreadyExists, stale_spec(true, lock_us, now_us))
            == LockStep::WaitAndRetry,
{
}

pub open spec fn next_lock_step_spec(outcome: CreateOutcome, stale: bool) -> LockStep {
    match outcome {
        CreateOutcome::Created => LockStep::WriteOwner,
        CreateOutcome::AlreadyExists => if stale {
            LockStep::ReclaimAndRetry
        } else {
            LockStep::WaitAndRetry
        },
        CreateOutcome::Failed => LockStep::Fail,
    }
}

} // verus!
