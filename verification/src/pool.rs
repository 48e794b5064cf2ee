//! A pool of memories (the project pool or the global pool) and the state
//! changes the memory manager makes to it: adding with near-duplicate
//! handling, recall bookkeeping, feedback, lookup, deletion and import.
use vstd::prelude::*;
use crate::engine::{find_similar, is_match};
use crate::entry::{merge_into, MemoryAddResult, MemoryOrigin, MemoryRecord, MemoryType};
use crate::relation::{classify_relation, relation_spec, MemoryRelation};
use crate::text::{chars_of, contains_chars, contains_seq, lowercase_chars, lowercase_of, str_eq};

verus! {

/// Jaccard threshold for near-duplicates at add time: three fifths.
pub open spec fn dedup_num() -> int {
    3
}

pub open spec fn dedup_den() -> int {
    5
}

/// Verdict of the second-tier judge (a language model) on an ambiguous pair.
#[derive(Clone, Copy, Debug, PartialEq, Eq, Structural)]
pub enum AmbiguousVerdict {
    /// The new memory supersedes the existing one.
    Contradicts,
    /// Same-direction refinement: merge and reinforce.
    Compatible,
    /// Unrelated: keep both.
    Unrelated,
}

/// What adding a memory does to its pool.
#[derive(Clone, Copy, Debug, PartialEq, Eq, Structural)]
pub enum AddPlan {
    /// Append the new memory.
    Insert,
    /// Fold the new memory into entry `i` and reinforce it.
    MergeReinforce(usize),
    /// Fold the new memory into entry `i` and flag the pair as ambiguous.
    MergeFlagAmbiguous(usize),
    /// Tombstone entry `i` (superseded by the new memory), then append.
    SupersedeThenInsert(usize),
    /// Entry `i` is an ambiguous near-duplicate: ask the judge.
    AskJudge(usize),
}

/// `i` is the first live entry of `pool` that is a near-duplicate of `m`.
pub open spec fn first_dup(m: MemoryRecord, pool: Seq<MemoryRecord>, i: int) -> bool {
    &&& 0 <= i < pool.len()
    &&& is_match(m, pool[i], dedup_num(), dedup_den(), false)
    &&& forall|j: int| 0 <= j < i ==> !is_match(m, #[trigger] pool[j], dedup_num(), dedup_den(), false)
}

/// `pool` has no live near-duplicate of `m`.
pub open spec fn no_dup(m: MemoryRecord, pool: Seq<MemoryRecord>) -> bool {
    forall|j: int| 0 <= j < pool.len() ==> !is_match(m, #[trigger] pool[j], dedup_num(), dedup_den(), false)
}

/// The plan for adding `m` to `pool`: a memory that is already a tombstone
/// is appended as is; otherwise the first live near-duplicate (if any)
/// decides by relation: compatible merges, contradicting supersedes,
/// ambiguous goes to the judge.
pub open spec fn add_plan_spec(m: MemoryRecord, pool: Seq<MemoryRecord>, r: AddPlan) -> bool {
    if m.superseded_by is Some {
        r == AddPlan::Insert
    } else {
        match r {
            AddPlan::Insert => no_dup(m, pool),
            AddPlan::MergeReinforce(i) => first_dup(m, pool, i as int) && relation_spec(
                m.content@,
                pool[i as int].content@,
            ) == MemoryRelation::Compatible,
            AddPlan::SupersedeThenInsert(i) => first_dup(m, pool, i as int) && relation_spec(
                m.content@,
                pool[i as int].content@,
            ) == MemoryRelation::Contradicts,
            AddPlan::AskJudge(i) => first_dup(m, pool, i as int) && relation_spec(
                m.content@,
                pool[i as int].content@,
            ) == MemoryRelation::Ambiguous,
            AddPlan::MergeFlagAmbiguous(_) => false,
        }
    }
}

/// Decide how `incoming` enters `pool`.
pub fn plan_add(incoming: &MemoryRecord, pool: &[MemoryRecord]) -> (r: AddPlan)
    ensures
        add_plan_spec(*incoming, pool@, r),
{
    if incoming.superseded_by.is_some() {
        return AddPlan::Insert;
    }
    match find_similar(incoming, pool, 3, 5, false) {
        None => AddPlan::Insert,
        Some(i) => match classify_relation(incoming.content.as_str(), pool[i].content.as_str()) {
            MemoryRelation::Compatible => AddPlan::MergeReinforce(i),
            MemoryRelation::Contradicts => AddPlan::SupersedeThenInsert(i),
            MemoryRelation::Ambiguous => AddPlan::AskJudge(i),
        },
    }
}

/// The plan once the judge has ruled on an ambiguous near-duplicate `i`: a
/// contradiction supersedes, compatibility merges and reinforces, an
/// unrelated pair keeps both, and no verdict merges with an ambiguity flag.
pub fn resolve_judgement(i: usize, verdict: Option<AmbiguousVerdict>) -> (r: AddPlan)
    ensures
        r == match verdict {
            Some(AmbiguousVerdict::Contradicts) => AddPlan::SupersedeThenInsert(i),
            Some(AmbiguousVerdict::Compatible) => AddPlan::MergeReinforce(i),
            Some(AmbiguousVerdict::Unrelated) => AddPlan::Insert,
            None => AddPlan::MergeFlagAmbiguous(i),
        },
{
    match verdict {
        Some(AmbiguousVerdict::Contradicts) => AddPlan::SupersedeThenInsert(i),
        Some(AmbiguousVerdict::Compatible) => AddPlan::MergeReinforce(i),
        Some(AmbiguousVerdict::Unrelated) => AddPlan::Insert,
        None => AddPlan::MergeFlagAmbiguous(i),
    }
}

/// The audit marks an add leaves on the entry it touches: why it was
/// superseded (the tombstone also gets the time, `superseded_at`), or that
/// the pair was merged unresolved (`relation_ambiguous`).
pub struct AddMarks {
    pub supersede_reason: Option<&'static str>,
    pub relation_ambiguous: bool,
}

/// The marks for carrying out `plan`; `judged` tells that the plan came
/// from the judge's verdict on an ambiguous pair: a supersede is then
/// recorded as the judge's (`llm_review: contradicts`), else as the
/// classifier's (`contradicts`); an unresolved merge is flagged ambiguous.
pub fn add_marks(plan: AddPlan, judged: bool) -> (r: AddMarks)
    ensures
        match plan {
            AddPlan::SupersedeThenInsert(_) => r.supersede_reason matches Some(t) && t@ == (if judged {
                "llm_review: contradicts"@
            } else {
                "contradicts"@
            }),
            _ => r.supersede_reason is None,
        },
        r.relation_ambiguous == plan is MergeFlagAmbiguous,
{
    match plan {
        AddPlan::SupersedeThenInsert(_) => AddMarks {
            supersede_reason: Some(if judged { "llm_review: contradicts" } else { "contradicts" }),
            relation_ambiguous: false,
        },
        AddPlan::MergeFlagAmbiguous(_) => AddMarks { supersede_reason: None, relation_ambiguous: true },
        _ => AddMarks { supersede_reason: None, relation_ambiguous: false },
    }
}

/// `r` is `m` reinforced at `now`.
pub open spec fn reinforced(m: MemoryRecord, now: i64, r: MemoryRecord) -> bool {
    r == (MemoryRecord {
        hit_count: if m.hit_count == u32::MAX {
            u32::MAX
        } else {
            (m.hit_count + 1) as u32
        },
        last_reinforced_at: Some(now),
        ..m
    })
}

/// `r` is `m` penalized once.
pub open spec fn penalized(m: MemoryRecord, r: MemoryRecord) -> bool {
    r == (MemoryRecord {
        hit_count: if m.hit_count == 0 {
            0
        } else {
            (m.hit_count - 1) as u32
        },
        ..m
    })
}

/// `after` and `r` are what carrying out `plan` on `before` gives: see
/// [`execute_add`].
pub open spec fn add_executed(
    before: Seq<MemoryRecord>,
    incoming: MemoryRecord,
    plan: AddPlan,
    penalize_superseded: bool,
    now: i64,
    after: Seq<MemoryRecord>,
    r: MemoryAddResult,
) -> bool {
    match plan {
        AddPlan::Insert => {
            &&& after == before.push(incoming)
            &&& r.id@ == incoming.id@
            &&& !r.merged
        },
        AddPlan::MergeReinforce(i) => {
            &&& after.len() == before.len()
            &&& exists|m: MemoryRecord|
                merged_from(before[i as int], incoming, m) && reinforced(
                    m,
                    now,
                    after[i as int],
                )
            &&& forall|j: int|
                0 <= j < before.len() && j != i ==> after[j] == before[j]
            &&& r.id@ == before[i as int].id@
            &&& r.merged
        },
        AddPlan::MergeFlagAmbiguous(i) => {
            &&& after.len() == before.len()
            &&& merged_from(before[i as int], incoming, after[i as int])
            &&& forall|j: int|
                0 <= j < before.len() && j != i ==> after[j] == before[j]
            &&& r.id@ == before[i as int].id@
            &&& r.merged
        },
        AddPlan::SupersedeThenInsert(i) => {
            let tomb = MemoryRecord { superseded_by: Some(incoming.id), ..before[i as int] };
            &&& after.len() == before.len() + 1
            &&& after.last() == incoming
            &&& if penalize_superseded {
                penalized(tomb, after[i as int])
            } else {
                after[i as int] == tomb
            }
            &&& forall|j: int|
                0 <= j < before.len() && j != i ==> after[j] == before[j]
            &&& r.id@ == incoming.id@
            &&& !r.merged
        },
        AddPlan::AskJudge(_) => false,
    }
}

/// Carry out an add plan (any plan but `AskJudge`). `penalize_superseded`
/// says whether the entry being tombstoned was injected in the previous
/// recall turn (a negative reward). Returns the id of the stored entry and
/// whether it was a merge.
pub fn execute_add(
    pool: &mut Vec<MemoryRecord>,
    incoming: MemoryRecord,
    plan: AddPlan,
    penalize_superseded: bool,
    now: i64,
) -> (r: MemoryAddResult)
    requires
        !(plan is AskJudge),
        plan matches AddPlan::MergeReinforce(i) ==> i < old(pool)@.len(),
        plan matches AddPlan::MergeFlagAmbiguous(i) ==> i < old(pool)@.len(),
        plan matches AddPlan::SupersedeThenInsert(i) ==> i < old(pool)@.len(),
    ensures
        add_executed(old(pool)@, incoming, plan, penalize_superseded, now, final(pool)@, r),
{
    match plan {
        AddPlan::Insert => {
            let id = incoming.id.clone();
            assert(id@ == incoming.id@);
            pool.push(incoming);
            assert(pool@ == old(pool)@.push(incoming));
            MemoryAddResult { id, merged: false }
        },
        AddPlan::MergeReinforce(i) => {
            let mut merged = merge_into(&pool[i], &incoming);
            let ghost m0 = merged;
            merged.reinforce(now);
            let id = merged.id.clone();
            pool.set(i, merged);
            proof {
                assert(merged_from(old(pool)@[i as int], incoming, m0) && reinforced(
                    m0,
                    now,
                    pool@[i as int],
                ));
            }
            MemoryAddResult { id, merged: true }
        },
        AddPlan::MergeFlagAmbiguous(i) => {
            let merged = merge_into(&pool[i], &incoming);
            let id = merged.id.clone();
            pool.set(i, merged);
            MemoryAddResult { id, merged: true }
        },
        AddPlan::SupersedeThenInsert(i) => {
            let new_id = incoming.id.clone();
            pool[i].superseded_by = Some(new_id);
            if penalize_superseded {
                pool[i].penalize();
            }
            let id = incoming.id.clone();
            pool.push(incoming);
            MemoryAddResult { id, merged: false }
        },
        AddPlan::AskJudge(_) => {
            MemoryAddResult { id: incoming.id, merged: false }
        },
    }
}

/// The pool of a scope.
pub open spec fn scope_pool(project: Seq<MemoryRecord>, global: Seq<MemoryRecord>, origin: MemoryOrigin) -> Seq<
    MemoryRecord,
> {
    match origin {
        MemoryOrigin::Project => project,
        MemoryOrigin::Global => global,
    }
}

/// Plan adding `incoming` to the pool of `origin`: near-duplicates are
/// looked for in that pool only.
pub fn plan_add_in_scope(
    project: &[MemoryRecord],
    global: &[MemoryRecord],
    origin: MemoryOrigin,
    incoming: &MemoryRecord,
) -> (r: AddPlan)
    ensures
        add_plan_spec(*incoming, scope_pool(project@, global@, origin), r),
{
    match origin {
        MemoryOrigin::Project => plan_add(incoming, project),
        MemoryOrigin::Global => plan_add(incoming, global),
    }
}

/// Carry out an add plan on the pool of `origin`; the other pool is left as
/// it is.
pub fn execute_add_in_scope(
    project: &mut Vec<MemoryRecord>,
    global: &mut Vec<MemoryRecord>,
    origin: MemoryOrigin,
    incoming: MemoryRecord,
    plan: AddPlan,
    penalize_superseded: bool,
    now: i64,
) -> (r: MemoryAddResult)
    requires
        !(plan is AskJudge),
        plan matches AddPlan::MergeReinforce(i) ==> i < scope_pool(old(project)@, old(global)@, origin).len(),
        plan matches AddPlan::MergeFlagAmbiguous(i) ==> i < scope_pool(old(project)@, old(global)@, origin).len(),
        plan matches AddPlan::SupersedeThenInsert(i) ==> i < scope_pool(old(project)@, old(global)@, origin).len(),
    ensures
        add_executed(
            scope_pool(old(project)@, old(global)@, origin),
            incoming,
            plan,
            penalize_superseded,
            now,
            scope_pool(final(project)@, final(global)@, origin),
            r,
        ),
        origin == MemoryOrigin::Project ==> final(global)@ == old(global)@,
        origin == MemoryOrigin::Global ==> final(project)@ == old(project)@,
{
    match origin {
        MemoryOrigin::Project => execute_add(project, incoming, plan, penalize_superseded, now),
        MemoryOrigin::Global => execute_add(global, incoming, plan, penalize_superseded, now),
    }
}

/// Adding to one scope never touches the other: the plan depends on the
/// chosen pool alone, and carrying it out changes only that pool.
pub proof fn law_add_stays_in_scope(
    project: Seq<MemoryRecord>,
    global: Seq<MemoryRecord>,
    other_project: Seq<MemoryRecord>,
    other_global: Seq<MemoryRecord>,
    incoming: MemoryRecord,
    r: AddPlan,
)
    ensures
        add_plan_spec(incoming, scope_pool(project, global, MemoryOrigin::Project), r)
            == add_plan_spec(incoming, scope_pool(project, other_global, MemoryOrigin::Project), r),
        add_plan_spec(incoming, scope_pool(project, global, MemoryOrigin::Global), r)
            == add_plan_spec(incoming, scope_pool(other_project, global, MemoryOrigin::Global), r),
{
}

/// `r` satisfies the contract of `merge_into(existing, incoming)`.
pub open spec fn merged_from(existing: MemoryRecord, incoming: MemoryRecord, r: MemoryRecord) -> bool {
    &&& r.id == existing.id
    &&& r.memory_type == existing.memory_type
    &&& r.content@ == crate::entry::merged_content(existing.content@, incoming.content@)
    &&& r.timestamp == crate::entry::min_time(existing.timestamp, incoming.timestamp)
    &&& crate::ordering::strictly_sorted(crate::tokenizer::string_views(r.tags@))
    &&& crate::tokenizer::string_views(r.tags@).to_set() == crate::tokenizer::string_views(
        existing.tags@,
    ).to_set().union(crate::tokenizer::string_views(incoming.tags@).to_set())
    &&& r.recall_count == existing.recall_count
    &&& r.hit_count == existing.hit_count
    &&& r.last_reinforced_at == existing.last_reinforced_at
    &&& r.superseded_by == existing.superseded_by
    &&& r.stale_marked_at == existing.stale_marked_at
    &&& r.retrieval_mode == existing.retrieval_mode
}


// ── Lookup ─────────────────────────────────────────────────────────────

/// Index of the first entry of `pool` with id `id`.
pub open spec fn first_with_id(pool: Seq<MemoryRecord>, id: Seq<char>) -> Option<int>
    decreases pool.len(),
{
    if pool.len() == 0 {
        None
    } else if pool[0].id@ == id {
        Some(0)
    } else {
        match first_with_id(pool.drop_first(), id) {
            Some(i) => Some(i + 1),
            None => None,
        }
    }
}

pub proof fn lemma_first_with_id(pool: Seq<MemoryRecord>, id: Seq<char>, i: int)
    requires
        0 <= i <= pool.len(),
        forall|j: int| 0 <= j < i ==> (#[trigger] pool[j]).id@ != id,
    ensures
        i < pool.len() && pool[i].id@ == id ==> first_with_id(pool, id) == Some(i),
        i == pool.len() ==> first_with_id(pool, id) is None,
    decreases i,
{
    if i > 0 {
        assert forall|j: int| 0 <= j < i - 1 implies (#[trigger] pool.drop_first()[j]).id@ != id by {
            assert(pool.drop_first()[j] == pool[j + 1]);
        }
        if i < pool.len() {
            assert(pool.drop_first()[i - 1] == pool[i]);
        }
        lemma_first_with_id(pool.drop_first(), id, i - 1);
    } else if pool.len() > 0 && i < pool.len() {
    }
}

/// What `first_with_id` finds: the first entry with the id, or none at all.
pub proof fn lemma_first_with_id_found(pool: Seq<MemoryRecord>, id: Seq<char>)
    ensures
        match first_with_id(pool, id) {
            Some(i) => 0 <= i < pool.len() && pool[i].id@ == id && forall|j: int|
                0 <= j < i ==> (#[trigger] pool[j]).id@ != id,
            None => forall|j: int| 0 <= j < pool.len() ==> (#[trigger] pool[j]).id@ != id,
        },
    decreases pool.len(),
{
    if pool.len() > 0 && pool[0].id@ != id {
        let rest = pool.drop_first();
        lemma_first_with_id_found(rest, id);
        assert forall|j: int| 0 <= j < rest.len() implies rest[j] == pool[j + 1] by {}
        match first_with_id(rest, id) {
            Some(i) => {
                assert forall|j: int| 0 <= j < i + 1 implies (#[trigger] pool[j]).id@ != id by {
                    if j > 0 {
                        assert(pool[j] == rest[j - 1]);
                    }
                }
            },
            None => {
                assert forall|j: int| 0 <= j < pool.len() implies (#[trigger] pool[j]).id@ != id by {
                    if j > 0 {
                        assert(pool[j] == rest[j - 1]);
                    }
                }
            },
        }
    }
}

/// Index of the first entry with id `id`.
pub fn find_by_id(pool: &[MemoryRecord], id: &str) -> (r: Option<usize>)
    ensures
        r matches Some(i) ==> first_with_id(pool@, id@) == Some(i as int) && i < pool@.len()
            && pool@[i as int].id@ == id@,
        r is None ==> first_with_id(pool@, id@) is None,
{
    let mut i: usize = 0;
    while i < pool.len()
        invariant
            i <= pool@.len(),
            forall|j: int| 0 <= j < i ==> (#[trigger] pool@[j]).id@ != id@,
        decreases pool.len() - i,
    {
        if str_eq(pool[i].id.as_str(), id) {
            proof {
                lemma_first_with_id(pool@, id@, i as int);
            }
            return Some(i);
        }
        i += 1;
    }
    proof {
        lemma_first_with_id(pool@, id@, i as int);
    }
    None
}

/// Where the entry with id `id` lives: the first match in the project
/// pool, else the first match in the global pool.
pub fn locate(project: &[MemoryRecord], global: &[MemoryRecord], id: &str) -> (r: Option<
    (MemoryOrigin, usize),
>)
    ensures
        r == match first_with_id(project@, id@) {
            Some(i) => Some((MemoryOrigin::Project, i as usize)),
            None => match first_with_id(global@, id@) {
                Some(i) => Some((MemoryOrigin::Global, i as usize)),
                None => None,
            },
        },
{
    match find_by_id(project, id) {
        Some(i) => Some((MemoryOrigin::Project, i)),
        None => match find_by_id(global, id) {
            Some(i) => Some((MemoryOrigin::Global, i)),
            None => None,
        },
    }
}

// ── Recall bookkeeping and feedback ────────────────────────────────────

pub open spec fn str_views(v: Seq<String>) -> Seq<Seq<char>> {
    v.map_values(|s: String| s@)
}

/// How many of `ids[..n]` resolve (by first match) to entry `k`.
pub open spec fn hits_on(pool: Seq<MemoryRecord>, ids: Seq<Seq<char>>, k: int, n: int) -> nat
    decreases n,
{
    if n <= 0 {
        0
    } else {
        hits_on(pool, ids, k, n - 1) + if first_with_id(pool, ids[n - 1]) == Some(k) {
            1nat
        } else {
            0nat
        }
    }
}

/// `a + c`, saturating at `u32::MAX`.
pub open spec fn sat_add(a: u32, c: nat) -> u32 {
    if a + c >= u32::MAX {
        u32::MAX
    } else {
        (a + c) as u32
    }
}

/// Count one injection into a recall block for each id (the first entry
/// with that id; unknown ids are skipped). Returns the touched indices in
/// the order of `ids`, for persisting.
pub fn record_recall_injections(pool: &mut Vec<MemoryRecord>, ids: &[String]) -> (r: Vec<usize>)
    ensures
        final(pool)@.len() == old(pool)@.len(),
        forall|k: int|
            0 <= k < old(pool)@.len() ==> #[trigger] final(pool)@[k] == (MemoryRecord {
                recall_count: sat_add(
                    old(pool)@[k].recall_count,
                    hits_on(old(pool)@, str_views(ids@), k, ids@.len() as int),
                ),
                ..old(pool)@[k]
            }),
        forall|q: int| 0 <= q < r@.len() ==> r@[q] < old(pool)@.len(),
{
    let ghost p0 = pool@;
    let ghost sids = str_views(ids@);
    let mut touched: Vec<usize> = Vec::new();
    let mut p: usize = 0;
    while p < ids.len()
        invariant
            p <= ids@.len(),
            sids == str_views(ids@),
            pool@.len() == p0.len(),
            forall|k: int|
                0 <= k < p0.len() ==> #[trigger] pool@[k] == (MemoryRecord {
                    recall_count: sat_add(p0[k].recall_count, hits_on(p0, sids, k, p as int)),
                    ..p0[k]
                }),
            forall|q: int| 0 <= q < touched@.len() ==> touched@[q] < p0.len(),
        decreases ids.len() - p,
    {
        assert(sids[p as int] == ids@[p as int]@);
        let ghost pre = pool@;
        assert forall|j: int| 0 <= j < p0.len() implies pool@[j].id == p0[j].id by {}
        match find_by_id(pool.as_slice(), ids[p].as_str()) {
            Some(k) => {
                assert(pool@ =~= pool@);
                proof {
                    lemma_same_ids_first(p0, pool@, sids[p as int]);
                }
                let c = pool[k].recall_count;
                pool[k].recall_count = c.saturating_add(1);
                touched.push(k);
            },
            None => {
                proof {
                    lemma_same_ids_first(p0, pool@, sids[p as int]);
                }
            },
        }
        p += 1;
    }
    touched
}

/// The ids of `s`, each once, in the order of their first occurrence.
pub open spec fn distinct_ids(s: Seq<Seq<char>>) -> Seq<Seq<char>>
    decreases s.len(),
{
    if s.len() == 0 {
        Seq::empty()
    } else {
        let rest = distinct_ids(s.drop_last());
        if rest.contains(s.last()) {
            rest
        } else {
            rest.push(s.last())
        }
    }
}

/// Whether some string of `v` holds the characters of `s`.
fn holds_str(v: &Vec<String>, s: &str) -> (r: bool)
    ensures
        r == str_views(v@).contains(s@),
{
    let mut i: usize = 0;
    while i < v.len()
        invariant
            i <= v@.len(),
            forall|j: int| 0 <= j < i ==> str_views(v@)[j] != s@,
        decreases v.len() - i,
    {
        if str_eq(v[i].as_str(), s) {
            assert(str_views(v@)[i as int] == s@);
            return true;
        }
        i += 1;
    }
    false
}

/// Count one injection for each of `ids` (as [`record_recall_injections`])
/// and make these ids, each once, the set injected last, replacing the
/// previous one; an empty `ids` changes nothing. Returns the touched
/// indices, for persisting.
pub fn record_injections(pool: &mut Vec<MemoryRecord>, injected: &mut Vec<String>, ids: &[String]) -> (r:
    Vec<usize>)
    ensures
        ids@.len() == 0 ==> final(pool)@ == old(pool)@ && final(injected)@ == old(injected)@,
        ids@.len() > 0 ==> str_views(final(injected)@) == distinct_ids(str_views(ids@)),
        final(pool)@.len() == old(pool)@.len(),
        forall|k: int|
            0 <= k < old(pool)@.len() ==> #[trigger] final(pool)@[k] == (MemoryRecord {
                recall_count: sat_add(
                    old(pool)@[k].recall_count,
                    hits_on(old(pool)@, str_views(ids@), k, ids@.len() as int),
                ),
                ..old(pool)@[k]
            }),
        forall|q: int| 0 <= q < r@.len() ==> r@[q] < old(pool)@.len(),
{
    if ids.len() == 0 {
        proof {
            assert forall|k: int| 0 <= k < pool@.len() implies #[trigger] pool@[k] == (MemoryRecord {
                recall_count: sat_add(pool@[k].recall_count, hits_on(pool@, str_views(ids@), k, 0)),
                ..pool@[k]
            }) by {}
        }
        return Vec::new();
    }
    let touched = record_recall_injections(pool, ids);
    let ghost sids = str_views(ids@);
    let mut set: Vec<String> = Vec::new();
    let mut p: usize = 0;
    while p < ids.len()
        invariant
            p <= ids@.len(),
            sids == str_views(ids@),
            str_views(set@) == distinct_ids(sids.take(p as int)),
        decreases ids.len() - p,
    {
        assert(sids.take(p + 1).drop_last() =~= sids.take(p as int));
        assert(sids.take(p + 1).last() == ids@[p as int]@);
        if !holds_str(&set, ids[p].as_str()) {
            let id = ids[p].clone();
            set.push(id);
            assert(str_views(set@) =~= distinct_ids(sids.take(p as int)).push(ids@[p as int]@));
        }
        p += 1;
    }
    assert(sids.take(ids@.len() as int) =~= sids);
    *injected = set;
    touched
}

/// The ids remembered as injected are those recorded, each once.
pub proof fn law_injected_set_is_the_recorded_ids(s: Seq<Seq<char>>)
    ensures
        distinct_ids(s).no_duplicates(),
        forall|x: Seq<char>| #[trigger] distinct_ids(s).contains(x) <==> s.contains(x),
    decreases s.len(),
{
    if s.len() > 0 {
        law_injected_set_is_the_recorded_ids(s.drop_last());
        let rest = distinct_ids(s.drop_last());
        assert forall|x: Seq<char>| #[trigger] distinct_ids(s).contains(x) <==> s.contains(x) by {
            if s.contains(x) && x != s.last() {
                let j = choose|j: int| 0 <= j < s.len() && s[j] == x;
                assert(s.drop_last()[j] == x);
            }
            if s.drop_last().contains(x) {
                let j = choose|j: int| 0 <= j < s.drop_last().len() && s.drop_last()[j] == x;
                assert(s[j] == x);
            }
            if !rest.contains(s.last()) {
                let pushed = rest.push(s.last());
                if pushed.contains(x) {
                    let j = choose|j: int| 0 <= j < pushed.len() && pushed[j] == x;
                    if j < rest.len() {
                        assert(rest[j] == x);
                    }
                }
                if rest.contains(x) {
                    let j = choose|j: int| 0 <= j < rest.len() && rest[j] == x;
                    assert(pushed[j] == x);
                }
                assert(pushed[rest.len() as int] == s.last());
            }
        }
    }
}

/// Two pools with the same ids position by position resolve ids alike.
proof fn lemma_same_ids_first(a: Seq<MemoryRecord>, b: Seq<MemoryRecord>, id: Seq<char>)
    requires
        a.len() == b.len(),
        forall|j: int| 0 <= j < a.len() ==> (#[trigger] a[j]).id == b[j].id,
    ensures
        first_with_id(a, id) == first_with_id(b, id),
    decreases a.len(),
{
    if a.len() > 0 {
        assert forall|j: int| 0 <= j < a.drop_first().len() implies (#[trigger] a.drop_first()[j]).id
            == b.drop_first()[j].id by {
            assert(a.drop_first()[j] == a[j + 1]);
            assert(b.drop_first()[j] == b[j + 1]);
        }
        assert(a[0].id == b[0].id);
        lemma_same_ids_first(a.drop_first(), b.drop_first(), id);
    }
}

/// Reinforce (at `now`) the first entry with each id; unknown ids are
/// skipped. Returns the touched indices in the order of `ids`.
pub fn reinforce_ids(pool: &mut Vec<MemoryRecord>, ids: &[String], now: i64) -> (r: Vec<usize>)
    ensures
        final(pool)@.len() == old(pool)@.len(),
        forall|k: int|
            0 <= k < old(pool)@.len() ==> #[trigger] final(pool)@[k] == (MemoryRecord {
                hit_count: sat_add(
                    old(pool)@[k].hit_count,
                    hits_on(old(pool)@, str_views(ids@), k, ids@.len() as int),
                ),
                last_reinforced_at: if hits_on(old(pool)@, str_views(ids@), k, ids@.len() as int)
                    > 0 {
                    Some(now)
                } else {
                    old(pool)@[k].last_reinforced_at
                },
                ..old(pool)@[k]
            }),
        forall|q: int| 0 <= q < r@.len() ==> r@[q] < old(pool)@.len(),
{
    let ghost p0 = pool@;
    let ghost sids = str_views(ids@);
    let mut touched: Vec<usize> = Vec::new();
    let mut p: usize = 0;
    while p < ids.len()
        invariant
            p <= ids@.len(),
            sids == str_views(ids@),
            pool@.len() == p0.len(),
            forall|k: int|
                0 <= k < p0.len() ==> #[trigger] pool@[k] == (MemoryRecord {
                    hit_count: sat_add(p0[k].hit_count, hits_on(p0, sids, k, p as int)),
                    last_reinforced_at: if hits_on(p0, sids, k, p as int) > 0 {
                        Some(now)
                    } else {
                        p0[k].last_reinforced_at
                    },
                    ..p0[k]
                }),
            forall|q: int| 0 <= q < touched@.len() ==> touched@[q] < p0.len(),
        decreases ids.len() - p,
    {
        assert(sids[p as int] == ids@[p as int]@);
        assert forall|j: int| 0 <= j < p0.len() implies pool@[j].id == p0[j].id by {}
        proof {
            lemma_same_ids_first(p0, pool@, sids[p as int]);
        }
        match find_by_id(pool.as_slice(), ids[p].as_str()) {
            Some(k) => {
                pool[k].reinforce(now);
                touched.push(k);
            },
            None => {},
        }
        p += 1;
    }
    touched
}

/// `pool` after reinforcing (at `now`) the first entry with each of `ids`.
pub open spec fn reinforced_by(pool: Seq<MemoryRecord>, ids: Seq<Seq<char>>, now: i64) -> Seq<
    MemoryRecord,
> {
    Seq::new(
        pool.len(),
        |k: int|
            MemoryRecord {
                hit_count: sat_add(pool[k].hit_count, hits_on(pool, ids, k, ids.len() as int)),
                last_reinforced_at: if hits_on(pool, ids, k, ids.len() as int) > 0 {
                    Some(now)
                } else {
                    pool[k].last_reinforced_at
                },
                ..pool[k]
            },
    )
}

/// The reward at the start of a turn: reinforce (at `now`) the entries
/// injected in the previous turn, then forget them, so the reward is given
/// once. Returns the touched indices, for persisting.
pub fn reinforce_last_injected(pool: &mut Vec<MemoryRecord>, injected: &mut Vec<String>, now: i64) -> (r:
    Vec<usize>)
    ensures
        final(pool)@ == reinforced_by(old(pool)@, str_views(old(injected)@), now),
        final(injected)@.len() == 0,
        forall|q: int| 0 <= q < r@.len() ==> r@[q] < old(pool)@.len(),
{
    let touched = reinforce_ids(pool, injected.as_slice(), now);
    assert(pool@ =~= reinforced_by(old(pool)@, str_views(old(injected)@), now));
    injected.clear();
    touched
}

/// Rewarding the last injected entries twice in a row is rewarding them
/// once: after the first reward the set is empty, and an empty set changes
/// nothing.
pub proof fn law_reward_is_given_once(pool: Seq<MemoryRecord>, injected: Seq<Seq<char>>, now: i64, later: i64)
    ensures
        reinforced_by(reinforced_by(pool, injected, now), Seq::<Seq<char>>::empty(), later)
            == reinforced_by(pool, injected, now),
{
    let once = reinforced_by(pool, injected, now);
    assert(reinforced_by(once, Seq::<Seq<char>>::empty(), later) =~= once);
}

/// Adjust the feedback counter of the entry with id `id` (project pool
/// first, then global): reinforce at `now`, or penalize. Returns where the
/// entry was, or `None` when no pool holds the id.
pub fn adjust_hit_count(
    project: &mut Vec<MemoryRecord>,
    global: &mut Vec<MemoryRecord>,
    id: &str,
    reinforce: bool,
    now: i64,
) -> (r: Option<(MemoryOrigin, usize)>)
    ensures
        r == match first_with_id(old(project)@, id@) {
            Some(i) => Some((MemoryOrigin::Project, i as usize)),
            None => match first_with_id(old(global)@, id@) {
                Some(i) => Some((MemoryOrigin::Global, i as usize)),
                None => None,
            },
        },
        match r {
            Some((MemoryOrigin::Project, i)) => {
                &&& final(global)@ == old(global)@
                &&& final(project)@.len() == old(project)@.len()
                &&& forall|j: int|
                    0 <= j < old(project)@.len() && j != i ==> final(project)@[j] == old(project)@[j]
                &&& if reinforce {
                    reinforced(old(project)@[i as int], now, final(project)@[i as int])
                } else {
                    penalized(old(project)@[i as int], final(project)@[i as int])
                }
            },
            Some((MemoryOrigin::Global, i)) => {
                &&& final(project)@ == old(project)@
                &&& final(global)@.len() == old(global)@.len()
                &&& forall|j: int|
                    0 <= j < old(global)@.len() && j != i ==> final(global)@[j] == old(global)@[j]
                &&& if reinforce {
                    reinforced(old(global)@[i as int], now, final(global)@[i as int])
                } else {
                    penalized(old(global)@[i as int], final(global)@[i as int])
                }
            },
            None => final(project)@ == old(project)@ && final(global)@ == old(global)@,
        },
{
    match find_by_id(project.as_slice(), id) {
        Some(i) => {
            if reinforce {
                project[i].reinforce(now);
            } else {
                project[i].penalize();
            }
            Some((MemoryOrigin::Project, i))
        },
        None => match find_by_id(global.as_slice(), id) {
            Some(i) => {
                if reinforce {
                    global[i].reinforce(now);
                } else {
                    global[i].penalize();
                }
                Some((MemoryOrigin::Global, i))
            },
            None => None,
        },
    }
}

// ── Deletion and import ────────────────────────────────────────────────

/// The entries of `pool` whose id is not `id`, in order.
pub open spec fn without_id(pool: Seq<MemoryRecord>, id: Seq<char>) -> Seq<MemoryRecord>
    decreases pool.len(),
{
    if pool.len() == 0 {
        seq![]
    } else {
        without_id(pool.drop_last(), id) + if pool.last().id@ == id {
            seq![]
        } else {
            seq![pool.last()]
        }
    }
}

/// Remove every entry with id `id`; returns whether any was removed.
pub fn delete_by_id(pool: &mut Vec<MemoryRecord>, id: &str) -> (r: bool)
    ensures
        final(pool)@ == without_id(old(pool)@, id@),
        r == (final(pool)@.len() < old(pool)@.len()),
{
    let ghost p0 = pool@;
    let mut kept: Vec<MemoryRecord> = Vec::new();
    let mut removed = false;
    let mut rest: Vec<MemoryRecord> = Vec::new();
    std::mem::swap(&mut rest, pool);
    let ghost r0 = rest@;
    assert(r0 == p0);
    // Move entries out one by one, from the back, then restore the order.
    let mut rev: Vec<MemoryRecord> = Vec::new();
    while rest.len() > 0
        invariant
            rest@ == r0.take(rest@.len() as int),
            rest@.len() <= r0.len(),
            rev@.len() == r0.len() - rest@.len(),
            forall|q: int| 0 <= q < rev@.len() ==> rev@[q] == r0[r0.len() - 1 - q],
        decreases rest.len(),
    {
        let ghost n = rest@.len();
        let m = rest.pop().unwrap();
        assert(rest@ =~= r0.take(n - 1));
        rev.push(m);
    }
    let ghost n0 = r0.len();
    assert(without_id(r0.take(0), id@) =~= Seq::<MemoryRecord>::empty());
    while rev.len() > 0
        invariant
            rev@.len() <= n0,
            n0 == r0.len(),
            forall|q: int| 0 <= q < rev@.len() ==> rev@[q] == r0[n0 - 1 - q],
            kept@ == without_id(r0.take(n0 - rev@.len()), id@),
            kept@.len() <= n0 - rev@.len(),
            removed == (kept@.len() < n0 - rev@.len()),
        decreases rev.len(),
    {
        let ghost consumed = n0 - rev@.len();
        let m = rev.pop().unwrap();
        assert(m == r0[consumed]);
        assert(r0.take(consumed + 1).drop_last() =~= r0.take(consumed));
        assert(r0.take(consumed + 1).last() == m);
        if str_eq(m.id.as_str(), id) {
            removed = true;
            assert(without_id(r0.take(consumed + 1), id@) =~= without_id(r0.take(consumed), id@)
                + seq![]);
            assert(without_id(r0.take(consumed + 1), id@) =~= kept@);
        } else {
            let ghost before = kept@;
            kept.push(m);
            assert(without_id(r0.take(consumed + 1), id@) =~= before + seq![m]);
        }
    }
    assert(r0.take(n0 as int) =~= r0);
    *pool = kept;
    removed
}

/// Whether some entry of `pool` has id `id`.
pub open spec fn has_id(pool: Seq<MemoryRecord>, id: Seq<char>) -> bool {
    exists|j: int| 0 <= j < pool.len() && pool[j].id@ == id
}

/// The entries of `imported[..n]` whose ids are not in `existing`.
pub open spec fn fresh_entries(imported: Seq<MemoryRecord>, existing: Seq<MemoryRecord>, n: int) -> Seq<
    MemoryRecord,
>
    decreases n,
{
    if n <= 0 {
        seq![]
    } else {
        fresh_entries(imported, existing, n - 1) + if has_id(existing, imported[n - 1].id@) {
            seq![]
        } else {
            seq![imported[n - 1]]
        }
    }
}

/// Append the imported entries whose ids the pool did not hold before the
/// import; returns how many were appended.
pub fn import_records(pool: &mut Vec<MemoryRecord>, imported: Vec<MemoryRecord>) -> (r: usize)
    ensures
        final(pool)@ == old(pool)@ + fresh_entries(imported@, old(pool)@, imported@.len() as int),
        r == fresh_entries(imported@, old(pool)@, imported@.len() as int).len(),
{
    let ghost p0 = pool@;
    let ghost im = imported@;
    let n_im = imported.len();
    let n0 = pool.len();
    let mut source = imported;
    let mut rev: Vec<MemoryRecord> = Vec::new();
    while source.len() > 0
        invariant
            source@ == im.take(source@.len() as int),
            source@.len() <= im.len(),
            rev@.len() == im.len() - source@.len(),
            forall|q: int| 0 <= q < rev@.len() ==> rev@[q] == im[im.len() - 1 - q],
        decreases source.len(),
    {
        let ghost n = source@.len();
        let m = source.pop().unwrap();
        assert(source@ =~= im.take(n - 1));
        rev.push(m);
    }
    let mut added: usize = 0;
    assert(pool@ =~= p0 + fresh_entries(im, p0, 0));
    while rev.len() > 0
        invariant
            rev@.len() <= im.len(),
            n_im == im.len(),
            forall|q: int| 0 <= q < rev@.len() ==> rev@[q] == im[im.len() - 1 - q],
            n0 == p0.len(),
            pool@ == p0 + fresh_entries(im, p0, im.len() - rev@.len()),
            added == fresh_entries(im, p0, im.len() - rev@.len()).len(),
            added <= im.len() - rev@.len(),
        decreases rev.len(),
    {
        let ghost consumed = im.len() - rev@.len();
        let m = rev.pop().unwrap();
        assert(m == im[consumed]);
        // The id set is the one before the import: look only at the first
        // `n0` entries.
        let mut j: usize = 0;
        let mut dup = false;
        while j < n0
            invariant
                j <= n0,
                n0 == p0.len(),
                pool@.len() >= n0,
                forall|x: int| 0 <= x < n0 ==> pool@[x] == p0[x],
                dup == exists|x: int| 0 <= x < j && p0[x].id@ == m.id@,
            decreases n0 - j,
        {
            let same = str_eq(pool[j].id.as_str(), m.id.as_str());
            proof {
                assert(pool@[j as int] == p0[j as int]);
            }
            if same {
                dup = true;
            }
            assert(dup == exists|x: int| 0 <= x < j + 1 && p0[x].id@ == m.id@) by {
                if same {
                    assert(p0[j as int].id@ == m.id@);
                }
            }
            j += 1;
        }
        if !dup {
            let ghost before = pool@;
            pool.push(m);
            assert(pool@ =~= p0 + fresh_entries(im, p0, consumed + 1));
            added += 1;
        } else {
            assert(fresh_entries(im, p0, consumed + 1) =~= fresh_entries(im, p0, consumed));
        }
    }
    added
}

// ── Queries ────────────────────────────────────────────────────────────

/// Indices of the entries of type `t` in `pool[..n]`, in order.
pub open spec fn indices_of_type(pool: Seq<MemoryRecord>, t: MemoryType, n: int) -> Seq<usize>
    decreases n,
{
    if n <= 0 {
        seq![]
    } else {
        indices_of_type(pool, t, n - 1) + if pool[n - 1].memory_type == t {
            seq![(n - 1) as usize]
        } else {
            seq![]
        }
    }
}

/// Indices of the entries of type `t`, in order.
pub fn entries_of_type(pool: &[MemoryRecord], t: MemoryType) -> (r: Vec<usize>)
    ensures
        r@ == indices_of_type(pool@, t, pool@.len() as int),
{
    let mut out: Vec<usize> = Vec::new();
    let mut i: usize = 0;
    while i < pool.len()
        invariant
            i <= pool@.len(),
            out@ == indices_of_type(pool@, t, i as int),
        decreases pool.len() - i,
    {
        if pool[i].memory_type == t {
            out.push(i);
        }
        i += 1;
    }
    out
}

/// The lower-cased query occurs in the lower-cased text of the entry or of
/// one of its tags.
pub open spec fn substring_hit(m: MemoryRecord, query: Seq<char>) -> bool {
    let q = lowercase_of(query);
    contains_seq(lowercase_of(m.content@), q) || exists|t: int|
        0 <= t < m.tags@.len() && contains_seq(lowercase_of(m.tags@[t]@), q)
}

/// Indices of the live entries of `pool[..n]` that the substring search hits.
pub open spec fn substring_matches(pool: Seq<MemoryRecord>, query: Seq<char>, n: int) -> Seq<usize>
    decreases n,
{
    if n <= 0 {
        seq![]
    } else {
        substring_matches(pool, query, n - 1) + if pool[n - 1].superseded_by is None
            && substring_hit(pool[n - 1], query) {
            seq![(n - 1) as usize]
        } else {
            seq![]
        }
    }
}

/// Case-insensitive substring search over live entries (text and tags):
/// the fallback when no index has been built.
pub fn substring_search(pool: &[MemoryRecord], query: &str) -> (r: Vec<usize>)
    ensures
        r@ == substring_matches(pool@, query@, pool@.len() as int),
{
    let qc = chars_of(query);
    let q = lowercase_chars(qc.as_slice());
    let mut out: Vec<usize> = Vec::new();
    let mut i: usize = 0;
    while i < pool.len()
        invariant
            i <= pool@.len(),
            q@ == lowercase_of(query@),
            out@ == substring_matches(pool@, query@, i as int),
        decreases pool.len() - i,
    {
        let m = &pool[i];
        if m.superseded_by.is_none() {
            let cc = chars_of(m.content.as_str());
            let lc = lowercase_chars(cc.as_slice());
            let mut hit = contains_chars(lc.as_slice(), q.as_slice());
            let mut t: usize = 0;
            while t < m.tags.len()
                invariant
                    t <= m.tags@.len(),
                    q@ == lowercase_of(query@),
                    hit == (contains_seq(lowercase_of(m.content@), q@) || exists|x: int|
                        0 <= x < t && contains_seq(lowercase_of(m.tags@[x]@), q@)),
                decreases m.tags.len() - t,
            {
                let tc = chars_of(m.tags[t].as_str());
                let lt = lowercase_chars(tc.as_slice());
                if contains_chars(lt.as_slice(), q.as_slice()) {
                    hit = true;
                }
                t += 1;
            }
            if hit {
                out.push(i);
            }
        }
        i += 1;
    }
    out
}

/// The ranked positions (best first) that name a live entry of the pool,
/// in rank order: positions past the end and superseded entries are
/// dropped.
pub open spec fn live_ranked(pool: Seq<MemoryRecord>, ranked: Seq<usize>, n: int) -> Seq<usize>
    decreases n,
{
    if n <= 0 {
        seq![]
    } else if ranked[n - 1] < pool.len() && pool[ranked[n - 1] as int].superseded_by is None {
        live_ranked(pool, ranked, n - 1).push(ranked[n - 1])
    } else {
        live_ranked(pool, ranked, n - 1)
    }
}

/// Resolve index search hits against the pool: recall never returns a
/// superseded entry.
pub fn resolve_ranked(pool: &[MemoryRecord], ranked: &[usize]) -> (r: Vec<usize>)
    ensures
        r@ == live_ranked(pool@, ranked@, ranked@.len() as int),
        forall|k: int| 0 <= k < r@.len() ==> r@[k] < pool@.len() && pool@[r@[k] as int].superseded_by is None,
{
    let mut out: Vec<usize> = Vec::new();
    let mut i: usize = 0;
    while i < ranked.len()
        invariant
            i <= ranked@.len(),
            out@ == live_ranked(pool@, ranked@, i as int),
            forall|k: int| 0 <= k < out@.len() ==> out@[k] < pool@.len() && pool@[out@[k] as int].superseded_by is None,
        decreases ranked.len() - i,
    {
        let k = ranked[i];
        if k < pool.len() && pool[k].superseded_by.is_none() {
            out.push(k);
        }
        i += 1;
    }
    out
}

/// Entry counts reported by the memory status.
#[derive(Clone, Copy, Debug, PartialEq, Eq, Structural)]
pub struct MemoryCounts {
    pub total_memories: usize,
    pub session_count: usize,
    pub conversation_count: usize,
    pub knowledge_count: usize,
    pub project_count: usize,
    pub global_count: usize,
}

/// The status counts of both pools: totals and the entries of the session,
/// conversation and knowledge kinds across both.
pub fn memory_counts(project: &[MemoryRecord], global: &[MemoryRecord]) -> (r: MemoryCounts)
    requires
        project@.len() + global@.len() <= usize::MAX,
    ensures
        r.project_count == project@.len(),
        r.global_count == global@.len(),
        r.total_memories == project@.len() + global@.len(),
        r.session_count == indices_of_type(project@, MemoryType::Session, project@.len() as int).len()
            + indices_of_type(global@, MemoryType::Session, global@.len() as int).len(),
        r.conversation_count == indices_of_type(project@, MemoryType::Conversation, project@.len() as int).len()
            + indices_of_type(global@, MemoryType::Conversation, global@.len() as int).len(),
        r.knowledge_count == indices_of_type(project@, MemoryType::Knowledge, project@.len() as int).len()
            + indices_of_type(global@, MemoryType::Knowledge, global@.len() as int).len(),
{
    let ps = entries_of_type(project, MemoryType::Session);
    let gs = entries_of_type(global, MemoryType::Session);
    let pc = entries_of_type(project, MemoryType::Conversation);
    let gc = entries_of_type(global, MemoryType::Conversation);
    let pk = entries_of_type(project, MemoryType::Knowledge);
    let gk = entries_of_type(global, MemoryType::Knowledge);
    proof {
        lemma_indices_of_type_len(project@, MemoryType::Session, project@.len() as int);
        lemma_indices_of_type_len(global@, MemoryType::Session, global@.len() as int);
        lemma_indices_of_type_len(project@, MemoryType::Conversation, project@.len() as int);
        lemma_indices_of_type_len(global@, MemoryType::Conversation, global@.len() as int);
        lemma_indices_of_type_len(project@, MemoryType::Knowledge, project@.len() as int);
        lemma_indices_of_type_len(global@, MemoryType::Knowledge, global@.len() as int);
    }
    MemoryCounts {
        total_memories: project.len() + global.len(),
        session_count: ps.len() + gs.len(),
        conversation_count: pc.len() + gc.len(),
        knowledge_count: pk.len() + gk.len(),
        project_count: project.len(),
        global_count: global.len(),
    }
}

proof fn lemma_indices_of_type_len(pool: Seq<MemoryRecord>, t: MemoryType, n: int)
    requires
        0 <= n,
    ensures
        indices_of_type(pool, t, n).len() <= n,
    decreases n,
{
    if n > 0 {
        lemma_indices_of_type_len(pool, t, n - 1);
    }
}

/// After deleting an id, no entry has it any more, and every other entry
/// stays.
pub proof fn law_delete_removes_every_match(pool: Seq<MemoryRecord>, id: Seq<char>)
    ensures
        forall|k: int| 0 <= k < without_id(pool, id).len() ==> (#[trigger] without_id(pool, id)[k]).id@ != id,
        forall|k: int| 0 <= k < pool.len() && pool[k].id@ != id ==> without_id(pool, id).contains(#[trigger] pool[k]),
    decreases pool.len(),
{
    if pool.len() > 0 {
        let d = pool.drop_last();
        law_delete_removes_every_match(d, id);
        let w = without_id(d, id);
        let tail = if pool.last().id@ == id { seq![] } else { seq![pool.last()] };
        assert(without_id(pool, id) == w + tail);
        assert forall|k: int| 0 <= k < pool.len() && pool[k].id@ != id implies without_id(pool, id).contains(#[trigger] pool[k]) by {
            if k < pool.len() - 1 {
                assert(d[k] == pool[k]);
                let j = choose|j: int| 0 <= j < w.len() && w[j] == d[k];
                assert((w + tail)[j] == pool[k]);
            } else {
                assert((w + tail)[w.len() as int] == pool[k]);
            }
        }
    }
}

} // verus!
