//! Memory entry data model.
//!
//! [`MemoryRecord`] holds the plain fields of a memory that the memory
//! logic reads and writes: identity, type, text, time stamps (unix
//! microseconds), tags, feedback counters and the tombstone / staleness
//! marks. The weight of a memory and its free-form metadata are kept
//! alongside it by the caller.
use vstd::prelude::*;
use crate::ordering::{sorted_unique, strictly_sorted};
use crate::text::{append_str, chars_of, contains_chars, contains_seq, string_from_chars};
use crate::tokenizer::string_views;

verus! {

/// How an entry is retrieved for prompt injection: `Auto` entries take part
/// in every-turn recall, `OnDemand` entries only in explicit search.
#[derive(Clone, Copy, Debug, PartialEq, Eq, Structural)]
pub enum RetrievalMode {
    Auto,
    OnDemand,
}

impl Default for RetrievalMode {
    fn default() -> (r: Self)
        ensures
            r == RetrievalMode::Auto,
    {
        RetrievalMode::Auto
    }
}

/// The kind of a memory.
#[derive(Clone, Copy, Debug, PartialEq, Eq, Hash, Structural)]
pub enum MemoryType {
    Session,
    Conversation,
    Knowledge,
    Preference,
    Task,
    Error,
    Insight,
    Decision,
}

/// Memory scope: which pool (and storage directory) an entry lives in.
#[derive(Clone, Copy, Debug, PartialEq, Eq, Structural)]
pub enum MemoryOrigin {
    Project,
    Global,
}

/// Result of adding a memory: the stored entry's id and whether it was
/// merged into an existing entry.
#[derive(Clone, Debug)]
pub struct MemoryAddResult {
    pub id: String,
    pub merged: bool,
}

/// Pool sizes before and after a prune.
#[derive(Clone, Debug)]
pub struct PruneResult {
    pub before: usize,
    pub after: usize,
    pub removed: usize,
    pub project_before: usize,
    pub project_after: usize,
    pub global_before: usize,
    pub global_after: usize,
}

impl PruneResult {
    /// Totals from the per-pool counts; `removed` saturates at zero.
    pub fn from_counts(
        project_before: usize,
        project_after: usize,
        global_before: usize,
        global_after: usize,
    ) -> (r: PruneResult)
        requires
            project_before + global_before <= usize::MAX,
            project_after + global_after <= usize::MAX,
        ensures
            r.project_before == project_before,
            r.project_after == project_after,
            r.global_before == global_before,
            r.global_after == global_after,
            r.before == project_before + global_before,
            r.after == project_after + global_after,
            r.removed == if r.before >= r.after {
                r.before - r.after
            } else {
                0
            },
    {
        let before = project_before + global_before;
        let after = project_after + global_after;
        PruneResult {
            before,
            after,
            removed: before.saturating_sub(after),
            project_before,
            project_after,
            global_before,
            global_after,
        }
    }
}

/// The plain fields of a memory entry.
#[derive(Clone, Debug)]
pub struct MemoryRecord {
    pub id: String,
    pub memory_type: MemoryType,
    pub content: String,
    /// Creation time, unix microseconds.
    pub timestamp: i64,
    pub tags: Vec<String>,
    /// Times injected into a recall block.
    pub recall_count: u32,
    /// Positive feedback count.
    pub hit_count: u32,
    /// Decay anchor; `None` means "use `timestamp`".
    pub last_reinforced_at: Option<i64>,
    /// Id of the entry that superseded this one (a tombstone).
    pub superseded_by: Option<String>,
    /// Time the entry was marked stale against the codebase.
    pub stale_marked_at: Option<i64>,
    pub retrieval_mode: RetrievalMode,
}

/// A lower-case hexadecimal digit.
pub open spec fn is_lower_hex(c: char) -> bool {
    ('0' <= c && c <= '9') || ('a' <= c && c <= 'f')
}

/// Where the hyphenated form of a UUID puts its dashes.
pub open spec fn is_uuid_dash_pos(i: int) -> bool {
    i == 8 || i == 13 || i == 18 || i == 23
}

/// The hyphenated lower-case form of a UUID: 36 characters, dashes at
/// positions 8, 13, 18 and 23, lower-case hexadecimal digits elsewhere.
pub open spec fn is_hyphenated_uuid(s: Seq<char>) -> bool {
    &&& s.len() == 36
    &&& forall|i: int|
        0 <= i < 36 ==> if is_uuid_dash_pos(i) {
            s[i] == '-'
        } else {
            is_lower_hex(#[trigger] s[i])
        }
}

/// Calls `uuid::Uuid::new_v4` and formats it with `to_string`. Trusted: the
/// value is random; its text is always the hyphenated lower-case form
/// (`Display` goes through `LowerHex` of `Hyphenated`), which is all that is
/// claimed.
#[verifier::external_body]
pub(crate) fn new_uuid_string() -> (r: String)
    ensures
        is_hyphenated_uuid(r@),
{
    uuid::Uuid::new_v4().to_string()
}

/// The current wall-clock time in unix microseconds (`chrono::Utc::now`).
#[verifier::external_body]
pub(crate) fn now_micros() -> (r: i64) {
    chrono::Utc::now().timestamp_micros()
}

impl MemoryRecord {
    /// A new entry of the given type and text, with a fresh id, the current
    /// time, no tags, zeroed counters, no anchor, live and not stale.
    pub fn new(memory_type: MemoryType, content: &str) -> (r: MemoryRecord)
        ensures
            is_hyphenated_uuid(r.id@),
            r.memory_type == memory_type,
            r.content@ == content@,
            r.tags@.len() == 0,
            r.recall_count == 0,
            r.hit_count == 0,
            r.last_reinforced_at is None,
            r.superseded_by is None,
            r.stale_marked_at is None,
            r.retrieval_mode == RetrievalMode::Auto,
    {
        MemoryRecord {
            id: new_uuid_string(),
            memory_type,
            content: content.to_owned(),
            timestamp: now_micros(),
            tags: Vec::new(),
            recall_count: 0,
            hit_count: 0,
            last_reinforced_at: None,
            superseded_by: None,
            stale_marked_at: None,
            retrieval_mode: RetrievalMode::Auto,
        }
    }

    /// Replace the tags.
    pub fn with_tags(self, tags: Vec<String>) -> (r: MemoryRecord)
        ensures
            r == (MemoryRecord { tags, ..self }),
    {
        MemoryRecord { tags, ..self }
    }

    /// Record positive feedback: one more hit (saturating) and a fresh decay
    /// anchor. The text and all other fields are untouched.
    pub fn reinforce(&mut self, now: i64)
        ensures
            final(self).hit_count == if old(self).hit_count == u32::MAX {
                u32::MAX
            } else {
                (old(self).hit_count + 1) as u32
            },
            final(self).last_reinforced_at == Some(now),
            *final(self) == (MemoryRecord {
                hit_count: final(self).hit_count,
                last_reinforced_at: Some(now),
                ..*old(self)
            }),
    {
        self.hit_count = self.hit_count.saturating_add(1);
        self.last_reinforced_at = Some(now);
    }

    /// Record negative feedback: one hit fewer (saturating at zero).
    pub fn penalize(&mut self)
        ensures
            final(self).hit_count == if old(self).hit_count == 0 {
                0
            } else {
                (old(self).hit_count - 1) as u32
            },
            *final(self) == (MemoryRecord { hit_count: final(self).hit_count, ..*old(self) }),
    {
        self.hit_count = self.hit_count.saturating_sub(1);
    }

    /// The decay anchor: the last reinforcement, else the creation time.
    pub open spec fn anchor_spec(&self) -> i64 {
        match self.last_reinforced_at {
            Some(t) => t,
            None => self.timestamp,
        }
    }

    pub fn decay_anchor(&self) -> (r: i64)
        ensures
            r == self.anchor_spec(),
    {
        match self.last_reinforced_at {
            Some(t) => t,
            None => self.timestamp,
        }
    }
}

// ── Merging ────────────────────────────────────────────────────────────

/// The text of `existing` merged with that of `incoming`: the richer one
/// when one contains the other, else both joined by a newline.
pub open spec fn merged_content(existing: Seq<char>, incoming: Seq<char>) -> Seq<char> {
    if contains_seq(existing, incoming) {
        existing
    } else if contains_seq(incoming, existing) {
        incoming
    } else {
        existing + seq!['\n'] + incoming
    }
}

/// The earlier of two time stamps.
pub open spec fn min_time(a: i64, b: i64) -> i64 {
    if a <= b {
        a
    } else {
        b
    }
}

/// Fold `incoming` into `existing`: the id, type, counters, anchor,
/// tombstone and staleness of `existing` are kept; the text is the richer of
/// the two (or both); the creation time is the earlier one; the tags are
/// the sorted union of both tag lists.
pub fn merge_into(existing: &MemoryRecord, incoming: &MemoryRecord) -> (r: MemoryRecord)
    ensures
        r.id == existing.id,
        r.memory_type == existing.memory_type,
        r.content@ == merged_content(existing.content@, incoming.content@),
        r.timestamp == min_time(existing.timestamp, incoming.timestamp),
        strictly_sorted(string_views(r.tags@)),
        string_views(r.tags@).to_set() == string_views(existing.tags@).to_set().union(
            string_views(incoming.tags@).to_set(),
        ),
        r.recall_count == existing.recall_count,
        r.hit_count == existing.hit_count,
        r.last_reinforced_at == existing.last_reinforced_at,
        r.superseded_by == existing.superseded_by,
        r.stale_marked_at == existing.stale_marked_at,
        r.retrieval_mode == existing.retrieval_mode,
{
    let ec = chars_of(existing.content.as_str());
    let ic = chars_of(incoming.content.as_str());
    let combined = if contains_chars(ec.as_slice(), ic.as_slice()) {
        existing.content.clone()
    } else if contains_chars(ic.as_slice(), ec.as_slice()) {
        incoming.content.clone()
    } else {
        let mut buf: Vec<char> = Vec::new();
        append_str(&mut buf, existing.content.as_str());
        buf.push('\n');
        append_str(&mut buf, incoming.content.as_str());
        string_from_chars(buf.as_slice())
    };
    let mut all: Vec<String> = existing.tags.clone();
    let mut i: usize = 0;
    let ghost base = string_views(existing.tags@);
    assert(string_views(all@) =~= base) by {
        assert forall|k: int| 0 <= k < all@.len() implies all@[k]@ == existing.tags@[k]@ by {
        }
    }
    while i < incoming.tags.len()
        invariant
            i <= incoming.tags@.len(),
            string_views(all@) == base + string_views(incoming.tags@).take(i as int),
        decreases incoming.tags.len() - i,
    {
        let ghost before = string_views(all@);
        let t = incoming.tags[i].clone();
        all.push(t);
        assert(string_views(all@) =~= before.push(incoming.tags@[i as int]@));
        assert(string_views(incoming.tags@).take(i + 1) =~= string_views(incoming.tags@).take(
            i as int,
        ).push(incoming.tags@[i as int]@));
        i += 1;
    }
    assert(string_views(incoming.tags@).take(incoming.tags@.len() as int) =~= string_views(
        incoming.tags@,
    ));
    let tags = sorted_unique(&all);
    proof {
        lemma_concat_to_set(base, string_views(incoming.tags@));
    }
    let timestamp = if existing.timestamp <= incoming.timestamp {
        existing.timestamp
    } else {
        incoming.timestamp
    };
    MemoryRecord {
        id: existing.id.clone(),
        memory_type: existing.memory_type,
        content: combined,
        timestamp,
        tags,
        recall_count: existing.recall_count,
        hit_count: existing.hit_count,
        last_reinforced_at: existing.last_reinforced_at,
        superseded_by: existing.superseded_by.clone(),
        stale_marked_at: existing.stale_marked_at,
        retrieval_mode: existing.retrieval_mode,
    }
}

/// The set of a concatenation is the union of the sets.
pub proof fn lemma_concat_to_set<A>(a: Seq<A>, b: Seq<A>)
    ensures
        (a + b).to_set() == a.to_set().union(b.to_set()),
{
    assert forall|t: A| (a + b).to_set().contains(t) implies a.to_set().union(b.to_set()).contains(
        t,
    ) by {
        let k = choose|k: int| 0 <= k < (a + b).len() && (a + b)[k] == t;
        if k < a.len() {
            assert(a[k] == t);
        } else {
            assert(b[k - a.len()] == t);
        }
    }
    assert forall|t: A| a.to_set().union(b.to_set()).contains(t) implies (a + b).to_set().contains(
        t,
    ) by {
        if a.contains(t) {
            let k = choose|k: int| 0 <= k < a.len() && a[k] == t;
            assert((a + b)[k] == t);
        } else {
            let k = choose|k: int| 0 <= k < b.len() && b[k] == t;
            assert((a + b)[k + a.len()] == t);
        }
    }
    assert((a + b).to_set() =~= a.to_set().union(b.to_set()));
}

/// Folding one text into another never loses either: the merged text
/// contains both.
pub proof fn law_merged_content_keeps_both(existing: Seq<char>, incoming: Seq<char>)
    ensures
        contains_seq(merged_content(existing, incoming), existing),
        contains_seq(merged_content(existing, incoming), incoming),
{
    let m = merged_content(existing, incoming);
    assert(m.subrange(0, m.len() as int) =~= m);
    if contains_seq(existing, incoming) {
        assert(crate::text::occurs_at(m, existing, 0));
    } else if contains_seq(incoming, existing) {
        assert(crate::text::occurs_at(m, incoming, 0));
    } else {
        assert(m.subrange(0, existing.len() as int) =~= existing);
        assert(crate::text::occurs_at(m, existing, 0));
        let k: int = existing.len() as int + 1;
        assert(m.subrange(k, k + incoming.len()) =~= incoming);
        assert(crate::text::occurs_at(m, incoming, k));
    }
}

// ── Retention ──────────────────────────────────────────────────────────

/// Per-type retention horizon in hours (the rounded per-type half-life):
/// Knowledge / Preference four times the base, Decision / Insight twice,
/// Error half (rounded half up, at least one), the rest once. The base is
/// `age_threshold_hours`, at least one. Products saturate.
pub open spec fn type_ttl_spec(memory_type: MemoryType, age_threshold_hours: u64) -> int {
    let base: int = if age_threshold_hours == 0 {
        1
    } else {
        age_threshold_hours as int
    };
    let raw: int = match memory_type {
        MemoryType::Knowledge | MemoryType::Preference => 4 * base,
        MemoryType::Decision | MemoryType::Insight => 2 * base,
        MemoryType::Error => (base + 1) / 2,
        _ => base,
    };
    if raw > u64::MAX {
        u64::MAX as int
    } else {
        raw
    }
}

pub fn type_ttl_hours(memory_type: MemoryType, age_threshold_hours: u64) -> (r: u64)
    ensures
        r == type_ttl_spec(memory_type, age_threshold_hours),
        r >= 1,
{
    let base = if age_threshold_hours == 0 {
        1
    } else {
        age_threshold_hours
    };
    match memory_type {
        MemoryType::Knowledge | MemoryType::Preference => if base > u64::MAX / 4 {
            u64::MAX
        } else {
            base * 4
        },
        MemoryType::Decision | MemoryType::Insight => if base > u64::MAX / 2 {
            u64::MAX
        } else {
            base * 2
        },
        MemoryType::Error => base / 2 + base % 2,
        _ => base,
    }
}

/// Whole hours elapsed from `from` to `to` (microseconds), never negative.
pub open spec fn age_hours_spec(from: i64, to: i64) -> int {
    if to <= from {
        0
    } else {
        (to - from) / 3_600_000_000
    }
}

pub fn age_hours(from: i64, to: i64) -> (r: u64)
    ensures
        r == age_hours_spec(from, to),
{
    if to <= from {
        0
    } else {
        let d: i128 = (to as i128) - (from as i128);
        (d / 3_600_000_000) as u64
    }
}

/// Retention rule: tombstones are dropped; an entry whose effective weight
/// reaches the threshold is kept; otherwise it is kept while its age (from
/// the decay anchor) is below its type's retention horizon.
pub open spec fn should_keep_spec(
    m: MemoryRecord,
    effective_meets_threshold: bool,
    now: i64,
    age_threshold_hours: u64,
) -> bool {
    if m.superseded_by is Some {
        false
    } else if effective_meets_threshold {
        true
    } else {
        age_hours_spec(m.anchor_spec(), now) < type_ttl_spec(m.memory_type, age_threshold_hours)
    }
}

pub fn should_keep(
    m: &MemoryRecord,
    effective_meets_threshold: bool,
    now: i64,
    age_threshold_hours: u64,
) -> (r: bool)
    ensures
        r == should_keep_spec(*m, effective_meets_threshold, now, age_threshold_hours),
{
    if m.superseded_by.is_some() {
        return false;
    }
    if effective_meets_threshold {
        return true;
    }
    let age = age_hours(m.decay_anchor(), now);
    let ttl = type_ttl_hours(m.memory_type, age_threshold_hours);
    age < ttl
}

} // verus!
