//! Command and query history: a bounded log, oldest first, with filters,
//! a substring search, most-recent-first views and per-kind statistics.
//!
//! Adding to a full log evicts the oldest entry first. Times are unix
//! microseconds.
use vstd::prelude::*;
use std::collections::VecDeque;
use crate::runs::{lemma_prefix_len_exact, not_newline, prefix_len, runs, split_lines_chars, vviews};
use crate::text::{
    char_is_whitespace, chars_of, contains_chars, contains_seq, is_unicode_whitespace, lowercase_chars,
    lowercase_of, str_eq, string_from_chars,
};
use crate::tokenizer::string_views;

verus! {

broadcast use vstd::seq_lib::group_seq_properties;

/// What a history entry records.
#[derive(Clone, Copy, Debug, PartialEq, Eq, Structural)]
pub enum HistoryType {
    Command,
    Query,
    ToolCall,
    FileOperation,
    Search,
    Agent,
}

/// One history entry (its free-form metadata is kept by the caller).
#[derive(Clone, Debug)]
pub struct HistoryRecord {
    pub id: String,
    pub entry_type: HistoryType,
    pub content: String,
    pub timestamp: i64,
    pub session_id: Option<String>,
    pub success: bool,
    pub duration_ms: Option<u64>,
}

impl HistoryRecord {
    /// A copy of the entry.
    pub fn duplicate(&self) -> (r: HistoryRecord)
        ensures
            r == *self,
    {
        HistoryRecord {
            id: self.id.clone(),
            entry_type: self.entry_type,
            content: self.content.clone(),
            timestamp: self.timestamp,
            session_id: match &self.session_id {
                Some(s) => Some(s.clone()),
                None => None,
            },
            success: self.success,
            duration_ms: self.duration_ms,
        }
    }
}

/// Which entries a listing keeps, and at most how many.
#[derive(Clone, Debug)]
pub struct HistoryFilter {
    pub entry_type: Option<HistoryType>,
    pub session_id: Option<String>,
    pub success_only: bool,
    pub from_time: Option<i64>,
    pub to_time: Option<i64>,
    pub limit: usize,
}

impl Default for HistoryFilter {
    /// No constraint, at most 100 entries.
    fn default() -> (r: Self)
        ensures
            r.entry_type is None,
            r.session_id is None,
            !r.success_only,
            r.from_time is None,
            r.to_time is None,
            r.limit == 100,
    {
        HistoryFilter {
            entry_type: None,
            session_id: None,
            success_only: false,
            from_time: None,
            to_time: None,
            limit: 100,
        }
    }
}

/// Counts over the whole log.
#[derive(Clone, Copy, Debug, PartialEq, Eq, Structural)]
pub struct HistoryStats {
    pub total_entries: usize,
    pub commands: usize,
    pub queries: usize,
    pub tool_calls: usize,
    pub successful: usize,
    pub failed: usize,
}

// ── Model ──────────────────────────────────────────────────────────────

/// An entry passes a filter: matching kind and session when given, a
/// success when asked, and a time within the given bounds.
pub open spec fn passes(f: HistoryFilter, e: HistoryRecord) -> bool {
    &&& (f.entry_type matches Some(t) ==> e.entry_type == t)
    &&& (f.session_id matches Some(s) ==> (e.session_id matches Some(x) && x@ == s@))
    &&& (f.success_only ==> e.success)
    &&& (f.from_time matches Some(from) ==> e.timestamp >= from)
    &&& (f.to_time matches Some(to) ==> e.timestamp <= to)
}

/// The entries of `s[..n]` that pass `f`, in order.
pub open spec fn filtered(s: Seq<HistoryRecord>, f: HistoryFilter, n: int) -> Seq<HistoryRecord>
    decreases n,
{
    if n <= 0 {
        seq![]
    } else if passes(f, s[n - 1]) {
        filtered(s, f, n - 1).push(s[n - 1])
    } else {
        filtered(s, f, n - 1)
    }
}

/// At most `k` elements of `s`, from the front.
pub open spec fn at_most<A>(s: Seq<A>, k: int) -> Seq<A> {
    if s.len() > k {
        s.take(k)
    } else {
        s
    }
}

/// The entries of `s[..n]` whose lower-cased text contains `q`, in order.
pub open spec fn text_matches(s: Seq<HistoryRecord>, q: Seq<char>, n: int) -> Seq<HistoryRecord>
    decreases n,
{
    if n <= 0 {
        seq![]
    } else if contains_seq(lowercase_of(s[n - 1].content@), q) {
        text_matches(s, q, n - 1).push(s[n - 1])
    } else {
        text_matches(s, q, n - 1)
    }
}

/// The entries of `s[..n]` of kind `t`, in order.
pub open spec fn of_type(s: Seq<HistoryRecord>, t: HistoryType, n: int) -> Seq<HistoryRecord>
    decreases n,
{
    if n <= 0 {
        seq![]
    } else if s[n - 1].entry_type == t {
        of_type(s, t, n - 1).push(s[n - 1])
    } else {
        of_type(s, t, n - 1)
    }
}

/// Number of entries of `s[..n]` satisfying `p`.
pub open spec fn count_where(s: Seq<HistoryRecord>, p: spec_fn(HistoryRecord) -> bool, n: int) -> nat
    decreases n,
{
    if n <= 0 {
        0
    } else {
        count_where(s, p, n - 1) + if p(s[n - 1]) {
            1nat
        } else {
            0nat
        }
    }
}

pub open spec fn stats_spec(s: Seq<HistoryRecord>) -> HistoryStats {
    HistoryStats {
        total_entries: s.len() as usize,
        commands: count_where(s, |e: HistoryRecord| e.entry_type == HistoryType::Command, s.len() as int) as usize,
        queries: count_where(s, |e: HistoryRecord| e.entry_type == HistoryType::Query, s.len() as int) as usize,
        tool_calls: count_where(s, |e: HistoryRecord| e.entry_type == HistoryType::ToolCall, s.len() as int) as usize,
        successful: count_where(s, |e: HistoryRecord| e.success, s.len() as int) as usize,
        failed: count_where(s, |e: HistoryRecord| !e.success, s.len() as int) as usize,
    }
}

/// The log after adding `e`: when it already holds `max` entries or more,
/// the oldest (if any) is evicted first.
pub open spec fn added(s: Seq<HistoryRecord>, max: usize, e: HistoryRecord) -> Seq<HistoryRecord> {
    if s.len() >= max && s.len() > 0 {
        s.drop_first().push(e)
    } else {
        s.push(e)
    }
}

proof fn lemma_count_le(s: Seq<HistoryRecord>, p: spec_fn(HistoryRecord) -> bool, n: int)
    requires
        0 <= n,
    ensures
        count_where(s, p, n) <= n,
    decreases n,
{
    if n > 0 {
        lemma_count_le(s, p, n - 1);
    }
}

// ── The log ────────────────────────────────────────────────────────────

/// The in-memory history log, oldest first, holding at most `max_entries`
/// entries (at least one after an add, even with a bound of zero).
pub struct HistoryLog {
    entries: VecDeque<HistoryRecord>,
    max_entries: usize,
}

impl HistoryLog {
    /// The entries, oldest first.
    pub closed spec fn view(&self) -> Seq<HistoryRecord> {
        self.entries@
    }

    pub closed spec fn max(&self) -> usize {
        self.max_entries
    }

    /// An empty log keeping at most `max_entries` entries.
    pub fn new(max_entries: usize) -> (r: HistoryLog)
        ensures
            r@.len() == 0,
            r.max() == max_entries,
    {
        HistoryLog { entries: VecDeque::new(), max_entries }
    }

    /// The default bound of the history file.
    pub fn with_default_bound() -> (r: HistoryLog)
        ensures
            r@.len() == 0,
            r.max() == 10000,
    {
        HistoryLog::new(10000)
    }

    pub fn len(&self) -> (r: usize)
        ensures
            r == self@.len(),
    {
        self.entries.len()
    }

    /// Append `e`, evicting the oldest entry first when the log is full.
    pub fn add(&mut self, e: HistoryRecord)
        ensures
            final(self)@ == added(old(self)@, old(self).max(), e),
            final(self).max() == old(self).max(),
    {
        if self.entries.len() >= self.max_entries {
            let ghost pre = self.entries@;
            let _ = self.entries.pop_front();
            assert(self.entries@ == if pre.len() > 0 { pre.drop_first() } else { pre });
        }
        self.entries.push_back(e);
    }

    /// Replace the whole log with loaded entries (kept as they are).
    pub fn replace_all(&mut self, loaded: VecDeque<HistoryRecord>)
        ensures
            final(self)@ == loaded@,
            final(self).max() == old(self).max(),
    {
        self.entries = loaded;
    }

    /// Empty the log.
    pub fn clear(&mut self)
        ensures
            final(self)@.len() == 0,
            final(self).max() == old(self).max(),
    {
        self.entries.clear();
    }

    /// The first entry with this id.
    pub fn get(&self, id: &str) -> (r: Option<HistoryRecord>)
        ensures
            match r {
                Some(e) => exists|i: int|
                    0 <= i < self@.len() && e == self@[i] && self@[i].id@ == id@ && forall|j: int|
                        0 <= j < i ==> (#[trigger] self@[j]).id@ != id@,
                None => forall|j: int| 0 <= j < self@.len() ==> (#[trigger] self@[j]).id@ != id@,
            },
    {
        let mut i: usize = 0;
        while i < self.entries.len()
            invariant
                i <= self@.len(),
                forall|j: int| 0 <= j < i ==> (#[trigger] self@[j]).id@ != id@,
            decreases self@.len() - i,
        {
            if str_eq(self.entries[i].id.as_str(), id) {
                return Some(self.entries[i].duplicate());
            }
            i += 1;
        }
        None
    }

    /// The entries passing `filter`, oldest first, at most `filter.limit`.
    pub fn list(&self, filter: &HistoryFilter) -> (r: Vec<HistoryRecord>)
        ensures
            r@ == at_most(filtered(self@, *filter, self@.len() as int), filter.limit as int),
            r@.len() <= filter.limit,
            forall|k: int|
                0 <= k < r@.len() ==> self@.contains(#[trigger] r@[k]) && (filter.from_time matches Some(
                    from,
                ) ==> from <= r@[k].timestamp) && (filter.to_time matches Some(to) ==> r@[k].timestamp
                    <= to) && (filter.entry_type matches Some(t) ==> r@[k].entry_type == t) && (
                filter.success_only ==> r@[k].success),
    {
        proof {
            law_listing_meets_the_filter(self@, *filter);
        }
        let mut out: Vec<HistoryRecord> = Vec::new();
        let mut i: usize = 0;
        while i < self.entries.len()
            invariant
                i <= self@.len(),
                out@ == filtered(self@, *filter, i as int),
            decreases self@.len() - i,
        {
            let e = &self.entries[i];
            let mut ok = true;
            match filter.entry_type {
                Some(t) => {
                    if e.entry_type != t {
                        ok = false;
                    }
                },
                None => {},
            }
            match &filter.session_id {
                Some(s) => match &e.session_id {
                    Some(x) => {
                        if !str_eq(x.as_str(), s.as_str()) {
                            ok = false;
                        }
                    },
                    None => {
                        ok = false;
                    },
                },
                None => {},
            }
            if filter.success_only && !e.success {
                ok = false;
            }
            match filter.from_time {
                Some(from) => {
                    if e.timestamp < from {
                        ok = false;
                    }
                },
                None => {},
            }
            match filter.to_time {
                Some(to) => {
                    if e.timestamp > to {
                        ok = false;
                    }
                },
                None => {},
            }
            assert(ok == passes(*filter, self@[i as int]));
            if ok {
                out.push(e.duplicate());
            }
            i += 1;
        }
        if out.len() > filter.limit {
            out.truncate(filter.limit);
        }
        out
    }

    /// The entries whose text contains `query`, compared lower-cased,
    /// oldest first.
    pub fn search(&self, query: &str) -> (r: Vec<HistoryRecord>)
        ensures
            r@ == text_matches(self@, lowercase_of(query@), self@.len() as int),
    {
        let qc = chars_of(query);
        let q = lowercase_chars(qc.as_slice());
        let mut out: Vec<HistoryRecord> = Vec::new();
        let mut i: usize = 0;
        while i < self.entries.len()
            invariant
                i <= self@.len(),
                q@ == lowercase_of(query@),
                out@ == text_matches(self@, q@, i as int),
            decreases self@.len() - i,
        {
            let c = chars_of(self.entries[i].content.as_str());
            let l = lowercase_chars(c.as_slice());
            if contains_chars(l.as_slice(), q.as_slice()) {
                out.push(self.entries[i].duplicate());
            }
            i += 1;
        }
        out
    }

    /// The `count` most recent entries, newest first.
    pub fn get_recent(&self, count: usize) -> (r: Vec<HistoryRecord>)
        ensures
            r@ == at_most(self@.reverse(), count as int),
    {
        let n = self.entries.len();
        let mut out: Vec<HistoryRecord> = Vec::new();
        let mut k: usize = 0;
        while k < n && k < count
            invariant
                n == self@.len(),
                k <= n,
                k <= count,
                out@ == self@.reverse().take(k as int),
            decreases n - k,
        {
            out.push(self.entries[n - 1 - k].duplicate());
            assert(self@.reverse()[k as int] == self@[n - 1 - k]);
            assert(out@ =~= self@.reverse().take(k + 1));
            k += 1;
        }
        proof {
            assert(self@.reverse().len() == n);
            if k == n {
                assert(self@.reverse().take(k as int) =~= self@.reverse());
            } else {
                assert(k == count);
            }
        }
        out
    }

    /// The `limit` most recent entries of kind `t`, newest first.
    pub fn get_by_type(&self, t: HistoryType, limit: usize) -> (r: Vec<HistoryRecord>)
        ensures
            r@ == at_most(of_type(self@, t, self@.len() as int).reverse(), limit as int),
    {
        let n = self.entries.len();
        let ghost all = of_type(self@, t, n as int);
        let mut out: Vec<HistoryRecord> = Vec::new();
        let mut k: usize = n;
        proof {
            lemma_of_type_prefix(self@, t, n as int, n as int);
        }
        // Walk from the newest entry back; `out` holds the matches among
        // `entries[k..]`, newest first.
        while k > 0 && out.len() < limit
            invariant
                n == self@.len(),
                all == of_type(self@, t, n as int),
                k <= n,
                of_type(self@, t, k as int).len() <= all.len(),
                out@ == all.subrange(of_type(self@, t, k as int).len() as int, all.len() as int).reverse(),
                out@.len() <= limit,
            decreases k,
        {
            let ghost before = of_type(self@, t, k as int);
            let ghost lo = before.len() as int;
            proof {
                lemma_of_type_prefix(self@, t, k as int, n as int);
                lemma_of_type_prefix(self@, t, k - 1, n as int);
            }
            if self.entries[k - 1].entry_type == t {
                let ghost prev = out@;
                out.push(self.entries[k - 1].duplicate());
                assert(before == of_type(self@, t, k - 1).push(self@[k - 1]));
                assert(all[lo - 1] == self@[k - 1]);
                assert(out@ =~= all.subrange(lo - 1, all.len() as int).reverse());
            }
            k -= 1;
        }
        proof {
            let lo = of_type(self@, t, k as int).len() as int;
            if k == 0 {
                assert(lo == 0);
                assert(all.subrange(0, all.len() as int) =~= all);
                if all.len() > limit {
                    assert(false);
                }
            } else {
                assert(out@.len() == limit);
                assert(all.subrange(lo, all.len() as int).reverse() =~= all.reverse().take(limit as int));
            }
        }
        out
    }

    /// Counts of commands, queries, tool calls, successes and failures.
    pub fn stats(&self) -> (r: HistoryStats)
        ensures
            r == stats_spec(self@),
    {
        let ghost s = self@;
        let mut commands: usize = 0;
        let mut queries: usize = 0;
        let mut tool_calls: usize = 0;
        let mut successful: usize = 0;
        let mut failed: usize = 0;
        let mut i: usize = 0;
        while i < self.entries.len()
            invariant
                i <= s.len(),
                s == self@,
                commands == count_where(s, |e: HistoryRecord| e.entry_type == HistoryType::Command, i as int),
                queries == count_where(s, |e: HistoryRecord| e.entry_type == HistoryType::Query, i as int),
                tool_calls == count_where(s, |e: HistoryRecord| e.entry_type == HistoryType::ToolCall, i as int),
                successful == count_where(s, |e: HistoryRecord| e.success, i as int),
                failed == count_where(s, |e: HistoryRecord| !e.success, i as int),
            decreases s.len() - i,
        {
            proof {
                lemma_count_le(s, |e: HistoryRecord| e.entry_type == HistoryType::Command, i as int);
                lemma_count_le(s, |e: HistoryRecord| e.entry_type == HistoryType::Query, i as int);
                lemma_count_le(s, |e: HistoryRecord| e.entry_type == HistoryType::ToolCall, i as int);
                lemma_count_le(s, |e: HistoryRecord| e.success, i as int);
                lemma_count_le(s, |e: HistoryRecord| !e.success, i as int);
            }
            match self.entries[i].entry_type {
                HistoryType::Command => commands += 1,
                HistoryType::Query => queries += 1,
                HistoryType::ToolCall => tool_calls += 1,
                _ => {},
            }
            if self.entries[i].success {
                successful += 1;
            } else {
                failed += 1;
            }
            i += 1;
        }
        HistoryStats {
            total_entries: self.entries.len(),
            commands,
            queries,
            tool_calls,
            successful,
            failed,
        }
    }
}

/// Extending the prefix by one entry adds it to `of_type` when it matches.
proof fn lemma_of_type_prefix(s: Seq<HistoryRecord>, t: HistoryType, k: int, n: int)
    requires
        0 <= k <= n,
    ensures
        of_type(s, t, k).len() <= of_type(s, t, n).len(),
        forall|i: int| 0 <= i < of_type(s, t, k).len() ==> #[trigger] of_type(s, t, n)[i] == of_type(s, t, k)[i],
    decreases n - k,
{
    if k < n {
        lemma_of_type_prefix(s, t, k, n - 1);
    }
}

// ── The history file ───────────────────────────────────────────────────

/// Unicode whitespace, as a predicate.
pub open spec fn white() -> spec_fn(char) -> bool {
    |c: char| is_unicode_whitespace(c)
}

/// `s` without its leading whitespace starts with `[`.
pub open spec fn starts_json_array(s: Seq<char>) -> bool {
    let k = prefix_len(s, white());
    k < s.len() && s[k as int] == '['
}

/// A line holding nothing but whitespace.
pub open spec fn is_blank_line(l: Seq<char>) -> bool {
    forall|j: int| 0 <= j < l.len() ==> is_unicode_whitespace(#[trigger] l[j])
}

/// The lines among `ls[..n]` that are not blank, in order.
pub open spec fn nonblank_upto(ls: Seq<Seq<char>>, n: int) -> Seq<Seq<char>>
    decreases n,
{
    if n <= 0 {
        seq![]
    } else if is_blank_line(ls[n - 1]) {
        nonblank_upto(ls, n - 1)
    } else {
        nonblank_upto(ls, n - 1).push(ls[n - 1])
    }
}

/// The record lines of a history file: its lines that are not blank.
pub open spec fn record_lines(content: Seq<char>) -> Seq<Seq<char>> {
    nonblank_upto(runs(content, not_newline()), runs(content, not_newline()).len() as int)
}

/// How a history file is laid out: one JSON array (the older layout), or
/// one JSON record per line.
pub enum HistoryLayout {
    JsonArray,
    /// The record lines, in order (a line may keep a trailing carriage
    /// return, which a JSON reader skips as whitespace).
    JsonLines(Vec<String>),
}

fn is_blank_chars(l: &[char]) -> (r: bool)
    ensures
        r == is_blank_line(l@),
{
    let mut i: usize = 0;
    while i < l.len()
        invariant
            i <= l@.len(),
            forall|j: int| 0 <= j < i ==> is_unicode_whitespace(#[trigger] l@[j]),
        decreases l.len() - i,
    {
        if !char_is_whitespace(l[i]) {
            return false;
        }
        i += 1;
    }
    true
}

/// Tell the two layouts of a history file apart: a file whose first
/// non-whitespace character is `[` is one JSON array; any other is read as
/// one record per non-blank line.
pub fn history_layout(content: &str) -> (r: HistoryLayout)
    ensures
        match r {
            HistoryLayout::JsonArray => starts_json_array(content@),
            HistoryLayout::JsonLines(ls) => !starts_json_array(content@) && string_views(ls@)
                == record_lines(content@),
        },
{
    let v = chars_of(content);
    let mut i: usize = 0;
    while i < v.len() && char_is_whitespace(v[i])
        invariant
            i <= v@.len(),
            v@ == content@,
            forall|j: int| 0 <= j < i ==> is_unicode_whitespace(#[trigger] v@[j]),
        decreases v.len() - i,
    {
        i += 1;
    }
    proof {
        assert forall|j: int| 0 <= j < i implies (white())(#[trigger] v@[j]) by {}
        lemma_prefix_len_exact(v@, white(), i as int);
    }
    if i < v.len() && v[i] == '[' {
        return HistoryLayout::JsonArray;
    }
    let lines = split_lines_chars(v.as_slice());
    let ghost ls = runs(content@, not_newline());
    let mut out: Vec<String> = Vec::new();
    let mut k: usize = 0;
    while k < lines.len()
        invariant
            vviews(lines@) == ls,
            k <= lines@.len(),
            string_views(out@) == nonblank_upto(ls, k as int),
        decreases lines.len() - k,
    {
        assert(ls[k as int] == lines@[k as int]@);
        if !is_blank_chars(lines[k].as_slice()) {
            let ghost before = string_views(out@);
            out.push(string_from_chars(lines[k].as_slice()));
            assert(string_views(out@) =~= before.push(ls[k as int]));
        }
        k += 1;
    }
    HistoryLayout::JsonLines(out)
}

// ── Laws ───────────────────────────────────────────────────────────────

/// Every entry of `filtered(s, f, n)` is an entry of `s` that passes `f`;
/// every `s[j]`, `j < n`, that passes `f` is in it.
proof fn lemma_filtered_members(s: Seq<HistoryRecord>, f: HistoryFilter, n: int)
    requires
        0 <= n <= s.len(),
    ensures
        forall|k: int|
            0 <= k < filtered(s, f, n).len() ==> s.contains(#[trigger] filtered(s, f, n)[k])
                && passes(f, filtered(s, f, n)[k]),
        forall|j: int| 0 <= j < n && passes(f, s[j]) ==> filtered(s, f, n).contains(#[trigger] s[j]),
    decreases n,
{
    if n > 0 {
        lemma_filtered_members(s, f, n - 1);
        let prev = filtered(s, f, n - 1);
        let cur = filtered(s, f, n);
        assert forall|k: int| 0 <= k < cur.len() implies s.contains(#[trigger] cur[k]) && passes(
            f,
            cur[k],
        ) by {
            if k < prev.len() {
                assert(cur[k] == prev[k]);
            } else {
                assert(cur[k] == s[n - 1]);
                assert(s[n - 1] == s[n - 1]);
            }
        }
        assert forall|j: int| 0 <= j < n && passes(f, s[j]) implies cur.contains(#[trigger] s[j]) by {
            if j < n - 1 {
                let k = choose|k: int| 0 <= k < prev.len() && prev[k] == s[j];
                assert(cur[k] == prev[k]);
            } else {
                assert(cur[prev.len() as int] == s[n - 1]);
            }
        }
    }
}

/// A listing only returns entries of the log that meet every constraint of
/// the filter: the given kind, the given session, success when asked, and a
/// time stamp no earlier than `from_time` and no later than `to_time`. It
/// never returns more than `limit` entries, and when at most `limit`
/// entries meet the constraints, every one of them is returned.
pub proof fn law_listing_meets_the_filter(s: Seq<HistoryRecord>, f: HistoryFilter)
    ensures
        ({
            let r = at_most(filtered(s, f, s.len() as int), f.limit as int);
            &&& r.len() <= f.limit
            &&& forall|k: int|
                0 <= k < r.len() ==> {
                    let e = #[trigger] r[k];
                    &&& s.contains(e)
                    &&& (f.entry_type matches Some(t) ==> e.entry_type == t)
                    &&& (f.session_id matches Some(sid) ==> (e.session_id matches Some(x) && x@
                        == sid@))
                    &&& (f.success_only ==> e.success)
                    &&& (f.from_time matches Some(from) ==> from <= e.timestamp)
                    &&& (f.to_time matches Some(to) ==> e.timestamp <= to)
                }
        }),
        filtered(s, f, s.len() as int).len() <= f.limit ==> forall|j: int|
            0 <= j < s.len() && (f.entry_type matches Some(t) ==> s[j].entry_type == t) && (
            f.session_id matches Some(sid) ==> (s[j].session_id matches Some(x) && x@ == sid@)) && (
            f.success_only ==> s[j].success) && (f.from_time matches Some(from) ==> from
                <= s[j].timestamp) && (f.to_time matches Some(to) ==> s[j].timestamp <= to)
                ==> at_most(filtered(s, f, s.len() as int), f.limit as int).contains(#[trigger] s[j]),
{
    let n = s.len() as int;
    lemma_filtered_members(s, f, n);
    let all = filtered(s, f, n);
    let r = at_most(all, f.limit as int);
    assert forall|k: int| 0 <= k < r.len() implies {
        let e = #[trigger] r[k];
        &&& s.contains(e)
        &&& (f.entry_type matches Some(t) ==> e.entry_type == t)
        &&& (f.session_id matches Some(sid) ==> (e.session_id matches Some(x) && x@ == sid@))
        &&& (f.success_only ==> e.success)
        &&& (f.from_time matches Some(from) ==> from <= e.timestamp)
        &&& (f.to_time matches Some(to) ==> e.timestamp <= to)
    } by {
        assert(r[k] == all[k]);
    }
}


/// Adding to a log within its bound keeps it within the bound; a full log
/// loses exactly its oldest entry; the new entry is always the newest.
pub proof fn law_add_respects_bound(s: Seq<HistoryRecord>, max: usize, e: HistoryRecord)
    requires
        s.len() <= max,
        max >= 1,
    ensures
        added(s, max, e).len() <= max,
        added(s, max, e).last() == e,
        s.len() == max ==> added(s, max, e) == s.drop_first().push(e),
        s.len() < max ==> added(s, max, e) == s.push(e),
{
}

/// Every entry counts once as a success or as a failure, and the three
/// counted kinds never exceed the total.
pub proof fn law_stats_partition(s: Seq<HistoryRecord>)
    ensures
        count_where(s, |e: HistoryRecord| e.success, s.len() as int) + count_where(
            s,
            |e: HistoryRecord| !e.success,
            s.len() as int,
        ) == s.len(),
        count_where(s, |e: HistoryRecord| e.entry_type == HistoryType::Command, s.len() as int)
            + count_where(s, |e: HistoryRecord| e.entry_type == HistoryType::Query, s.len() as int)
            + count_where(s, |e: HistoryRecord| e.entry_type == HistoryType::ToolCall, s.len() as int)
            <= s.len(),
{
    lemma_partition(s, s.len() as int);
}

proof fn lemma_partition(s: Seq<HistoryRecord>, n: int)
    requires
        0 <= n <= s.len(),
    ensures
        count_where(s, |e: HistoryRecord| e.success, n) + count_where(
            s,
            |e: HistoryRecord| !e.success,
            n,
        ) == n,
        count_where(s, |e: HistoryRecord| e.entry_type == HistoryType::Command, n) + count_where(
            s,
            |e: HistoryRecord| e.entry_type == HistoryType::Query,
            n,
        ) + count_where(s, |e: HistoryRecord| e.entry_type == HistoryType::ToolCall, n) <= n,
    decreases n,
{
    if n > 0 {
        lemma_partition(s, n - 1);
    }
}

} // verus!
