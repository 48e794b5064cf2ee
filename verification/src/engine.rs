//! Consolidation engine decisions: near-duplicate lookup, the keep / merge
//! plan over entries ranked by weight, and the count of insight
//! observations.
use vstd::prelude::*;
use crate::entry::{MemoryRecord, MemoryType, RetrievalMode};
use crate::similarity::{content_similarity, similarity_spec, Similarity};
use crate::ordering::{sorted_unique, strictly_sorted};
use crate::text::{append_str, str_eq, string_from_chars};
use crate::tokenizer::string_views;

verus! {

/// Similarity used for a lookup: zero across types when the types must
/// match, else the content similarity.
pub open spec fn lookup_similarity(
    entry: MemoryRecord,
    other: MemoryRecord,
    require_same_type: bool,
) -> (int, int) {
    if require_same_type && entry.memory_type != other.memory_type {
        (0, 1)
    } else {
        similarity_spec(entry.content@, other.content@)
    }
}

/// Consolidation-time similarity of two entries: zero across types, else
/// the content similarity.
pub fn calculate_similarity(a: &MemoryRecord, b: &MemoryRecord) -> (r: Similarity)
    ensures
        r.pair() == lookup_similarity(*a, *b, true),
        r.den > 0,
{
    if a.memory_type != b.memory_type {
        Similarity { num: 0, den: 1 }
    } else {
        content_similarity(a.content.as_str(), b.content.as_str())
    }
}

/// `sim >= num / den`.
pub open spec fn reaches(sim: (int, int), num: int, den: int) -> bool {
    sim.0 * den >= num * sim.1
}

/// `other` is a live entry similar enough to `entry`.
pub open spec fn is_match(
    entry: MemoryRecord,
    other: MemoryRecord,
    num: int,
    den: int,
    require_same_type: bool,
) -> bool {
    other.superseded_by is None && reaches(
        lookup_similarity(entry, other, require_same_type),
        num,
        den,
    )
}

/// Index of the first live entry of `others` whose similarity to `entry`
/// reaches `num / den`. Tombstones are never returned. With
/// `require_same_type` only entries of the same type can match.
pub fn find_similar(
    entry: &MemoryRecord,
    others: &[MemoryRecord],
    num: usize,
    den: usize,
    require_same_type: bool,
) -> (r: Option<usize>)
    requires
        den > 0,
    ensures
        r matches Some(i) ==> i < others@.len() && is_match(
            *entry,
            others@[i as int],
            num as int,
            den as int,
            require_same_type,
        ) && forall|j: int|
            0 <= j < i ==> !is_match(*entry, #[trigger] others@[j], num as int, den as int, require_same_type),
        r is None ==> forall|j: int|
            0 <= j < others@.len() ==> !is_match(
                *entry,
                #[trigger] others@[j],
                num as int,
                den as int,
                require_same_type,
            ),
{
    let mut i: usize = 0;
    while i < others.len()
        invariant
            den > 0,
            i <= others@.len(),
            forall|j: int|
                0 <= j < i ==> !is_match(
                    *entry,
                    #[trigger] others@[j],
                    num as int,
                    den as int,
                    require_same_type,
                ),
        decreases others.len() - i,
    {
        let other = &others[i];
        if other.superseded_by.is_none() {
            let sim = if require_same_type && entry.memory_type != other.memory_type {
                Similarity { num: 0, den: 1 }
            } else {
                content_similarity(entry.content.as_str(), other.content.as_str())
            };
            if sim.at_least(num, den) {
                return Some(i);
            }
        }
        i += 1;
    }
    None
}

/// Consolidation-time similarity: same type and content similarity above
/// four fifths.
pub open spec fn consolidation_similar(a: MemoryRecord, b: MemoryRecord) -> bool {
    a.memory_type == b.memory_type && {
        let s = similarity_spec(a.content@, b.content@);
        5 * s.0 > 4 * s.1
    }
}

/// Some kept entry (indices into `ordered`) is consolidation-similar to `m`.
pub open spec fn similar_to_any(m: MemoryRecord, ordered: Seq<MemoryRecord>, kept: Seq<usize>) -> bool {
    exists|k: int| 0 <= k < kept.len() && consolidation_similar(m, ordered[kept[k] as int])
}

/// Which entries (in weight order) are kept, which are folded into one
/// merged entry and which tombstones are retained, after looking at the
/// first `n` of them: a superseded entry is always retained as it is (an
/// audit record, outside the retention rule and the cap); an entry that the
/// retention rule drops is skipped; one that is similar to an already kept
/// entry goes to the merge list; others are kept, until `max_memories` are
/// kept.
pub open spec fn plan_prefix(
    ordered: Seq<MemoryRecord>,
    keep: Seq<bool>,
    max_memories: usize,
    n: int,
) -> (Seq<usize>, Seq<usize>, Seq<usize>)
    decreases n,
{
    if n <= 0 {
        (seq![], seq![], seq![])
    } else {
        let (kept, merged, retained) = plan_prefix(ordered, keep, max_memories, n - 1);
        if ordered[n - 1].superseded_by is Some {
            (kept, merged, retained.push((n - 1) as usize))
        } else if kept.len() >= max_memories || !keep[n - 1] {
            (kept, merged, retained)
        } else if similar_to_any(ordered[n - 1], ordered, kept) {
            (kept, merged.push((n - 1) as usize), retained)
        } else {
            (kept.push((n - 1) as usize), merged, retained)
        }
    }
}

/// The keep / merge split of a consolidation pass.
pub struct ConsolidationPlan {
    /// Indices of entries kept as they are, in weight order.
    pub kept: Vec<usize>,
    /// Indices of entries to fold into one merged entry.
    pub merged: Vec<usize>,
    /// Indices of the superseded entries, retained as they are.
    pub retained: Vec<usize>,
}

fn similar_to_any_exec(m: &MemoryRecord, ordered: &[MemoryRecord], kept: &Vec<usize>) -> (r: bool)
    requires
        forall|k: int| 0 <= k < kept@.len() ==> kept@[k] < ordered@.len(),
    ensures
        r == similar_to_any(*m, ordered@, kept@),
{
    let mut i: usize = 0;
    while i < kept.len()
        invariant
            i <= kept@.len(),
            forall|k: int| 0 <= k < kept@.len() ==> kept@[k] < ordered@.len(),
            forall|k: int|
                0 <= k < i ==> !consolidation_similar(*m, ordered@[#[trigger] kept@[k] as int]),
        decreases kept.len() - i,
    {
        let o = &ordered[kept[i]];
        if m.memory_type == o.memory_type {
            let s = content_similarity(m.content.as_str(), o.content.as_str());
            if s.greater_than(4, 5) {
                return true;
            }
        }
        i += 1;
    }
    false
}

/// Plan a consolidation pass over entries sorted by descending effective
/// weight; `keep[i]` is the retention verdict for `ordered[i]`.
pub fn plan_consolidation(ordered: &[MemoryRecord], keep: &[bool], max_memories: usize) -> (r:
    ConsolidationPlan)
    requires
        keep@.len() == ordered@.len(),
    ensures
        (r.kept@, r.merged@, r.retained@) == plan_prefix(
            ordered@,
            keep@,
            max_memories,
            ordered@.len() as int,
        ),
{
    let mut kept: Vec<usize> = Vec::new();
    let mut merged: Vec<usize> = Vec::new();
    let mut retained: Vec<usize> = Vec::new();
    let mut i: usize = 0;
    while i < ordered.len()
        invariant
            keep@.len() == ordered@.len(),
            i <= ordered@.len(),
            (kept@, merged@, retained@) == plan_prefix(ordered@, keep@, max_memories, i as int),
            forall|k: int| 0 <= k < kept@.len() ==> kept@[k] < i,
        decreases ordered.len() - i,
    {
        if ordered[i].superseded_by.is_some() {
            retained.push(i);
        } else if kept.len() < max_memories && keep[i] {
            if similar_to_any_exec(&ordered[i], ordered, &kept) {
                merged.push(i);
            } else {
                kept.push(i);
            }
        }
        i += 1;
    }
    ConsolidationPlan { kept, merged, retained }
}

/// A consolidation plan keeps at most `max_memories` entries, in weight
/// order; everything it keeps or merges is live and passed the retention
/// rule; every merged entry is a near-duplicate of some kept one; and every
/// superseded entry is retained, in order.
pub proof fn law_plan_bounded_and_retained(
    ordered: Seq<MemoryRecord>,
    keep: Seq<bool>,
    max_memories: usize,
    n: int,
)
    requires
        0 <= n <= ordered.len(),
        ordered.len() <= usize::MAX,
        keep.len() == ordered.len(),
    ensures
        ({
            let (kept, merged, retained) = plan_prefix(ordered, keep, max_memories, n);
            &&& kept.len() <= max_memories
            &&& forall|a: int, b: int| 0 <= a < b < kept.len() ==> kept[a] < kept[b]
            &&& forall|k: int|
                0 <= k < kept.len() ==> kept[k] < n && keep[kept[k] as int]
                    && ordered[kept[k] as int].superseded_by is None
            &&& forall|k: int|
                0 <= k < merged.len() ==> merged[k] < n && keep[merged[k] as int]
                    && ordered[merged[k] as int].superseded_by is None
                    && similar_to_any(ordered[merged[k] as int], ordered, kept)
            &&& forall|k: int|
                0 <= k < retained.len() ==> retained[k] < n
                    && ordered[retained[k] as int].superseded_by is Some
            &&& forall|i: int|
                0 <= i < n && ordered[i].superseded_by is Some ==> retained.contains(i as usize)
        }),
    decreases n,
{
    if n > 0 {
        law_plan_bounded_and_retained(ordered, keep, max_memories, n - 1);
        let (kept, merged, retained) = plan_prefix(ordered, keep, max_memories, n - 1);
        if ordered[n - 1].superseded_by is Some {
            let r2 = retained.push((n - 1) as usize);
            assert forall|k: int| 0 <= k < r2.len() implies r2[k] < n
                && ordered[r2[k] as int].superseded_by is Some by {
                if k < retained.len() {
                    assert(r2[k] == retained[k]);
                }
            }
            assert forall|i: int| 0 <= i < n && ordered[i].superseded_by is Some implies r2.contains(
                i as usize,
            ) by {
                if i < n - 1 {
                    let k = choose|k: int| 0 <= k < retained.len() && retained[k] == i as usize;
                    assert(r2[k] == retained[k]);
                } else {
                    assert(r2[retained.len() as int] == (n - 1) as usize);
                }
            }
        } else if kept.len() >= max_memories || !keep[n - 1] {
        } else if similar_to_any(ordered[n - 1], ordered, kept) {
            let m2 = merged.push((n - 1) as usize);
            assert forall|k: int| 0 <= k < m2.len() implies m2[k] < n && keep[m2[k] as int]
                && ordered[m2[k] as int].superseded_by is None
                && similar_to_any(ordered[m2[k] as int], ordered, kept) by {
                if k < merged.len() {
                    assert(m2[k] == merged[k]);
                }
            }
        } else {
            let k2 = kept.push((n - 1) as usize);
            assert forall|k: int| 0 <= k < merged.len() implies similar_to_any(
                ordered[merged[k] as int],
                ordered,
                k2,
            ) by {
                let m = ordered[merged[k] as int];
                let w = choose|w: int|
                    0 <= w < kept.len() && consolidation_similar(m, ordered[kept[w] as int]);
                assert(k2[w] == kept[w]);
            }
            assert forall|a: int, b: int| 0 <= a < b < k2.len() implies k2[a] < k2[b] by {
                if b < kept.len() {
                    assert(k2[a] == kept[a] && k2[b] == kept[b]);
                } else {
                    assert(k2[a] == kept[a]);
                }
            }
            assert forall|k: int| 0 <= k < k2.len() implies k2[k] < n && keep[k2[k] as int]
                && ordered[k2[k] as int].superseded_by is None by {
                if k < kept.len() {
                    assert(k2[k] == kept[k]);
                }
            }
        }
    }
}

/// A consolidation pass folds an entry only into a kept entry of the same
/// memory type whose content similarity to it is above four fifths: an
/// entry is never merged across types.
pub proof fn law_merges_stay_within_a_type(ordered: Seq<MemoryRecord>, keep: Seq<bool>, max_memories: usize)
    requires
        ordered.len() <= usize::MAX,
        keep.len() == ordered.len(),
    ensures
        ({
            let (kept, merged, retained) = plan_prefix(ordered, keep, max_memories, ordered.len() as int);
            forall|k: int|
                0 <= k < merged.len() ==> exists|w: int|
                    0 <= w < kept.len() && ordered[kept[w] as int].memory_type == ordered[#[trigger] merged[k] as int].memory_type
                        && 5 * similarity_spec(ordered[merged[k] as int].content@, ordered[kept[w] as int].content@).0
                        > 4 * similarity_spec(ordered[merged[k] as int].content@, ordered[kept[w] as int].content@).1
        }),
{
    law_plan_bounded_and_retained(ordered, keep, max_memories, ordered.len() as int);
}

/// No two kept entries are near-duplicates of the same type: an entry kept
/// later is of another type than every entry kept before it, or its
/// content similarity to it is at most four fifths.
pub proof fn law_kept_entries_are_distinct(
    ordered: Seq<MemoryRecord>,
    keep: Seq<bool>,
    max_memories: usize,
    n: int,
)
    requires
        0 <= n <= ordered.len(),
        ordered.len() <= usize::MAX,
        keep.len() == ordered.len(),
    ensures
        ({
            let kept = plan_prefix(ordered, keep, max_memories, n).0;
            forall|a: int, b: int|
                0 <= a < b < kept.len() ==> !(ordered[#[trigger] kept[b] as int].memory_type
                    == ordered[#[trigger] kept[a] as int].memory_type && 5 * similarity_spec(
                    ordered[kept[b] as int].content@,
                    ordered[kept[a] as int].content@,
                ).0 > 4 * similarity_spec(
                    ordered[kept[b] as int].content@,
                    ordered[kept[a] as int].content@,
                ).1)
        }),
    decreases n,
{
    if n > 0 {
        law_kept_entries_are_distinct(ordered, keep, max_memories, n - 1);
        let (kept, merged, retained) = plan_prefix(ordered, keep, max_memories, n - 1);
        if ordered[n - 1].superseded_by is None && !(kept.len() >= max_memories || !keep[n - 1])
            && !similar_to_any(ordered[n - 1], ordered, kept) {
            let k2 = kept.push((n - 1) as usize);
            assert forall|a: int, b: int| 0 <= a < b < k2.len() implies !(ordered[#[trigger] k2[b] as int].memory_type
                == ordered[#[trigger] k2[a] as int].memory_type && 5 * similarity_spec(
                ordered[k2[b] as int].content@,
                ordered[k2[a] as int].content@,
            ).0 > 4 * similarity_spec(ordered[k2[b] as int].content@, ordered[k2[a] as int].content@).1) by {
                assert(k2[a] == kept[a]);
                if b < kept.len() {
                    assert(k2[b] == kept[b]);
                } else {
                    assert(k2[b] == (n - 1) as usize);
                    assert(!consolidation_similar(ordered[n - 1], ordered[kept[a] as int]));
                }
            }
        }
    }
}

/// How many entries of `types[..n]` have type `t`.
pub open spec fn count_type(types: Seq<MemoryType>, t: MemoryType, n: int) -> nat
    decreases n,
{
    if n <= 0 {
        0
    } else {
        count_type(types, t, n - 1) + if types[n - 1] == t {
            1nat
        } else {
            0nat
        }
    }
}

pub open spec fn all_types() -> Seq<MemoryType> {
    seq![
        MemoryType::Session,
        MemoryType::Conversation,
        MemoryType::Knowledge,
        MemoryType::Preference,
        MemoryType::Task,
        MemoryType::Error,
        MemoryType::Insight,
        MemoryType::Decision,
    ]
}

/// Number of types among the first `k` of [`all_types`] with at least ten
/// entries.
pub open spec fn crowded_types(types: Seq<MemoryType>, k: int) -> nat
    decreases k,
{
    if k <= 0 {
        0
    } else {
        crowded_types(types, k - 1) + if count_type(types, all_types()[k - 1], types.len() as int)
            >= 10 {
            1nat
        } else {
            0nat
        }
    }
}

/// Insight observations of a consolidation pass: one per type with at least
/// ten entries, plus one when at least three entries are errors.
pub open spec fn insight_count_spec(types: Seq<MemoryType>) -> nat {
    crowded_types(types, 8) + if count_type(types, MemoryType::Error, types.len() as int) >= 3 {
        1nat
    } else {
        0nat
    }
}

fn count_of(types: &[MemoryType], t: MemoryType) -> (r: usize)
    ensures
        r == count_type(types@, t, types@.len() as int),
{
    let mut c: usize = 0;
    let mut i: usize = 0;
    while i < types.len()
        invariant
            i <= types@.len(),
            c == count_type(types@, t, i as int),
            c <= i,
        decreases types.len() - i,
    {
        if types[i] == t {
            c += 1;
        }
        i += 1;
    }
    c
}

/// Count the insight observations for the given entry types.
pub fn insight_count(types: &[MemoryType]) -> (r: usize)
    ensures
        r == insight_count_spec(types@),
{
    let all: [MemoryType; 8] = [
        MemoryType::Session,
        MemoryType::Conversation,
        MemoryType::Knowledge,
        MemoryType::Preference,
        MemoryType::Task,
        MemoryType::Error,
        MemoryType::Insight,
        MemoryType::Decision,
    ];
    assert(all@ =~= all_types());
    let mut insights: usize = 0;
    let mut k: usize = 0;
    while k < 8
        invariant
            all@ == all_types(),
            k <= 8,
            insights == crowded_types(types@, k as int),
            insights <= k,
        decreases 8 - k,
    {
        if count_of(types, all[k]) >= 10 {
            insights += 1;
        }
        k += 1;
    }
    if count_of(types, MemoryType::Error) >= 3 {
        insights += 1;
    }
    insights
}

// ── Merging a group ────────────────────────────────────────────────────

/// The texts of `ms[..n]` joined by newlines (no newline is put after an
/// empty beginning).
pub open spec fn joined_contents(ms: Seq<MemoryRecord>, n: int) -> Seq<char>
    decreases n,
{
    if n <= 0 {
        seq![]
    } else {
        let p = joined_contents(ms, n - 1);
        if p.len() > 0 {
            p + seq!['\n'] + ms[n - 1].content@
        } else {
            ms[n - 1].content@
        }
    }
}

/// All tags of `ms[..n]`, in order.
pub open spec fn all_tags(ms: Seq<MemoryRecord>, n: int) -> Seq<Seq<char>>
    decreases n,
{
    if n <= 0 {
        seq![]
    } else {
        all_tags(ms, n - 1) + string_views(ms[n - 1].tags@)
    }
}

/// The earliest creation time among `ms[..n]` (`n >= 1`).
pub open spec fn earliest(ms: Seq<MemoryRecord>, n: int) -> i64
    decreases n,
{
    if n <= 1 {
        ms[0].timestamp
    } else {
        let e = earliest(ms, n - 1);
        if ms[n - 1].timestamp < e {
            ms[n - 1].timestamp
        } else {
            e
        }
    }
}

/// The latest creation time among `ms[..n]` (`n >= 1`).
pub open spec fn latest(ms: Seq<MemoryRecord>, n: int) -> i64
    decreases n,
{
    if n <= 1 {
        ms[0].timestamp
    } else {
        let l = latest(ms, n - 1);
        if ms[n - 1].timestamp > l {
            ms[n - 1].timestamp
        } else {
            l
        }
    }
}

/// Where a merged entry came from: the source ids in order, and the
/// earliest and latest creation times among the sources.
pub struct MergeProvenance {
    pub source_ids: Vec<String>,
    pub earliest: i64,
    pub latest: i64,
}

/// Fold a group of near-duplicates into one new entry with the fresh id
/// `id`, of the first one's type: texts joined by newlines, tags the sorted
/// union, zeroed counters, live, not stale, retrieved automatically; the
/// provenance records the sources.
pub fn merge_memories(memories: &[MemoryRecord], id: String) -> (r: (MemoryRecord, MergeProvenance))
    requires
        memories@.len() > 0,
    ensures
        r.0.id == id,
        r.0.retrieval_mode == RetrievalMode::Auto,
        r.0.memory_type == memories@[0].memory_type,
        r.0.content@ == joined_contents(memories@, memories@.len() as int),
        strictly_sorted(string_views(r.0.tags@)),
        string_views(r.0.tags@).to_set() == all_tags(memories@, memories@.len() as int).to_set(),
        r.0.recall_count == 0,
        r.0.hit_count == 0,
        r.0.last_reinforced_at is None,
        r.0.superseded_by is None,
        r.0.stale_marked_at is None,
        string_views(r.1.source_ids@) == memories@.map_values(|m: MemoryRecord| m.id@),
        r.1.earliest == earliest(memories@, memories@.len() as int),
        r.1.latest == latest(memories@, memories@.len() as int),
{
    let ghost ms = memories@;
    let mut buf: Vec<char> = Vec::new();
    let mut tags: Vec<String> = Vec::new();
    let mut ids: Vec<String> = Vec::new();
    let mut lo = memories[0].timestamp;
    let mut hi = memories[0].timestamp;
    let mut i: usize = 0;
    while i < memories.len()
        invariant
            ms == memories@,
            0 < ms.len(),
            i <= ms.len(),
            buf@ == joined_contents(ms, i as int),
            string_views(tags@) == all_tags(ms, i as int),
            string_views(ids@) == ms.take(i as int).map_values(|m: MemoryRecord| m.id@),
            i > 0 ==> lo == earliest(ms, i as int) && hi == latest(ms, i as int),
            i == 0 ==> lo == ms[0].timestamp && hi == ms[0].timestamp,
        decreases ms.len() - i,
    {
        let m = &memories[i];
        if buf.len() > 0 {
            buf.push('\n');
        }
        append_str(&mut buf, m.content.as_str());
        let mut k: usize = 0;
        let ghost before = string_views(tags@);
        while k < m.tags.len()
            invariant
                k <= m.tags@.len(),
                string_views(tags@) == before + string_views(m.tags@).take(k as int),
            decreases m.tags.len() - k,
        {
            let ghost b = string_views(tags@);
            tags.push(m.tags[k].clone());
            assert(string_views(tags@) =~= b.push(m.tags@[k as int]@));
            assert(string_views(m.tags@).take(k + 1) =~= string_views(m.tags@).take(k as int).push(
                m.tags@[k as int]@,
            ));
            k += 1;
        }
        assert(string_views(m.tags@).take(m.tags@.len() as int) =~= string_views(m.tags@));
        let ghost idb = string_views(ids@);
        ids.push(m.id.clone());
        assert(string_views(ids@) =~= idb.push(m.id@));
        assert(ms.take(i + 1).map_values(|x: MemoryRecord| x.id@) =~= ms.take(i as int).map_values(
            |x: MemoryRecord| x.id@,
        ).push(m.id@));
        if i > 0 {
            if m.timestamp < lo {
                lo = m.timestamp;
            }
            if m.timestamp > hi {
                hi = m.timestamp;
            }
        }
        i += 1;
    }
    assert(ms.take(ms.len() as int) =~= ms);
    let content = string_from_chars(buf.as_slice());
    let sorted_tags = sorted_unique(&tags);
    let fresh = MemoryRecord::new(memories[0].memory_type, content.as_str()).with_tags(sorted_tags);
    let merged = MemoryRecord { id, ..fresh };
    (merged, MergeProvenance { source_ids: ids, earliest: lo, latest: hi })
}

// ── Exploration ────────────────────────────────────────────────────────

/// Whether `id` is one of `ids`.
pub open spec fn id_in(ids: Seq<Seq<char>>, id: Seq<char>) -> bool {
    ids.contains(id)
}

/// The exploration candidates among `pool[..n]`: live entries outside the
/// current top and not recently explored (`recent[k]` for `pool[k]`).
pub open spec fn explore_candidates_spec(
    pool: Seq<MemoryRecord>,
    top_ids: Seq<Seq<char>>,
    recent: Seq<bool>,
    n: int,
) -> Seq<usize>
    decreases n,
{
    if n <= 0 {
        seq![]
    } else if pool[n - 1].superseded_by is None && !id_in(top_ids, pool[n - 1].id@) && !recent[n
        - 1] {
        explore_candidates_spec(pool, top_ids, recent, n - 1).push((n - 1) as usize)
    } else {
        explore_candidates_spec(pool, top_ids, recent, n - 1)
    }
}

/// Positions of the entries that exploration may swap into a recall block.
pub fn explore_candidates(pool: &[MemoryRecord], top_ids: &Vec<String>, recent: &[bool]) -> (r: Vec<usize>)
    requires
        recent@.len() == pool@.len(),
    ensures
        r@ == explore_candidates_spec(pool@, string_views(top_ids@), recent@, pool@.len() as int),
{
    let ghost tv = string_views(top_ids@);
    let mut out: Vec<usize> = Vec::new();
    let mut i: usize = 0;
    while i < pool.len()
        invariant
            i <= pool@.len(),
            recent@.len() == pool@.len(),
            tv == string_views(top_ids@),
            out@ == explore_candidates_spec(pool@, tv, recent@, i as int),
        decreases pool.len() - i,
    {
        if pool[i].superseded_by.is_none() && !recent[i] {
            let mut in_top = false;
            let mut k: usize = 0;
            while k < top_ids.len()
                invariant
                    k <= top_ids@.len(),
                    i < pool@.len(),
                    tv == string_views(top_ids@),
                    in_top == exists|j: int| 0 <= j < k && tv[j] == pool@[i as int].id@,
                decreases top_ids.len() - k,
            {
                if str_eq(top_ids[k].as_str(), pool[i].id.as_str()) {
                    in_top = true;
                }
                assert(tv[k as int] == top_ids@[k as int]@);
                k += 1;
            }
            proof {
                if in_top {
                    let j = choose|j: int| 0 <= j < k && tv[j] == pool@[i as int].id@;
                    assert(tv.contains(pool@[i as int].id@));
                } else {
                    assert forall|j: int| 0 <= j < tv.len() implies tv[j] != pool@[i as int].id@ by {}
                }
            }
            if !in_top {
                out.push(i);
            }
        }
        i += 1;
    }
    out
}

/// The exploration swap: the coldest candidate takes the lowest-ranked
/// (last) slot of the recall block. Nothing changes when the block is
/// empty or no candidate is left. Returns the entry swapped in, to be
/// remembered as recently explored.
pub fn replace_last_slot(slots: &mut Vec<usize>, coldest: Option<usize>) -> (r: Option<usize>)
    ensures
        r == (if old(slots)@.len() > 0 { coldest } else { None }),
        final(slots)@ == match r {
            Some(c) => old(slots)@.update(old(slots)@.len() - 1, c),
            None => old(slots)@,
        },
{
    let n = slots.len();
    if n == 0 {
        return None;
    }
    match coldest {
        Some(c) => {
            slots.set(n - 1, c);
            Some(c)
        },
        None => None,
    }
}

} // verus!
