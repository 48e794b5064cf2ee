use wgenty_memory::engine::{replace_last_slot, 
    calculate_similarity, explore_candidates, find_similar, insight_count, merge_memories,
    plan_consolidation,
};
use wgenty_memory::entry::{merge_into, should_keep, type_ttl_hours, MemoryRecord, MemoryType};
use wgenty_memory::paths::{
    all_missing, apply_consolidate_prepass, extract_memory_paths, paths_all_missing,
    prepass_entry,
};
use wgenty_memory::relation::{classify_relation, MemoryRelation};
use wgenty_memory::similarity::{content_similarity, Similarity};

const HOUR: i64 = 3_600_000_000;

fn rec(t: MemoryType, content: &str) -> MemoryRecord {
    MemoryRecord::new(t, content)
}

fn ratio(s: Similarity) -> f32 {
    s.num as f32 / s.den as f32
}

#[test]
fn extract_memory_paths_finds_src_relative_files() {
    let paths = extract_memory_paths("logic lives in src/does_not_exist_xyz.rs only");
    assert_eq!(paths, vec!["src/does_not_exist_xyz.rs".to_string()]);
}

#[test]
fn extract_memory_paths_ignores_bare_urls() {
    let paths = extract_memory_paths("see https://example.com/src/foo.rs for docs");
    assert!(
        paths.is_empty(),
        "URL path segments must not be treated as filesystem paths: {paths:?}"
    );
}

#[test]
fn extract_memory_paths_strips_line_suffix() {
    let paths = extract_memory_paths("bug at src/lib/mod.rs:42 in parser");
    assert_eq!(paths, vec!["src/lib/mod.rs".to_string()]);
}

#[test]
fn extract_memory_paths_multiple_unique() {
    let paths = extract_memory_paths("a src/a.rs and b src/b.ts plus src/a.rs again");
    assert_eq!(paths, vec!["src/a.rs".to_string(), "src/b.ts".to_string()]);
}

#[test]
fn extract_memory_paths_rejects_prefix_glued_roots() {
    let paths = extract_memory_paths("notes about foosrc/foo.rs and barlib/bar.ts");
    assert!(
        paths.is_empty(),
        "glued prefixes must not extract as repo paths: {paths:?}"
    );
    let paths = extract_memory_paths("see (src/foo.rs) nearby");
    assert_eq!(paths, vec!["src/foo.rs".to_string()]);
}

#[test]
fn extract_memory_paths_skips_www_tokens_and_keeps_non_ascii_prefix() {
    assert!(extract_memory_paths("mirror www.example.org/src/x.rs here").is_empty());
    // Multi-byte text before the path: byte offsets map back to characters.
    let paths = extract_memory_paths("参见 tests/登录.rs:7");
    assert_eq!(paths, vec!["tests/登录.rs".to_string()]);
}

#[test]
fn paths_all_missing_needs_at_least_one_path() {
    assert!(!paths_all_missing("/", &[]));
    assert!(paths_all_missing(
        "/this/root/does/not/exist",
        &["src/nowhere_xyz.rs".to_string()]
    ));
    // An absolute path is checked as it is.
    assert!(!paths_all_missing("/this/root/does/not/exist", &["/".to_string()]));
}

#[test]
fn all_missing_verdicts() {
    assert!(!all_missing(&[]));
    assert!(all_missing(&[false, false]));
    assert!(!all_missing(&[false, true]));
}

#[test]
fn prepass_anchors_once_and_marks_stale_once() {
    let mut m = rec(MemoryType::Knowledge, "see src/gone_xyz.rs");
    m.last_reinforced_at = None;
    prepass_entry(&mut m, 100, true, true);
    assert_eq!(m.last_reinforced_at, Some(100));
    assert_eq!(m.stale_marked_at, Some(100));
    // Running again later changes nothing.
    prepass_entry(&mut m, 200, true, true);
    assert_eq!(m.last_reinforced_at, Some(100));
    assert_eq!(m.stale_marked_at, Some(100));
    // Staleness check off: no mark.
    let mut n = rec(MemoryType::Knowledge, "x");
    prepass_entry(&mut n, 5, false, true);
    assert_eq!(n.stale_marked_at, None);
    assert_eq!(n.last_reinforced_at, Some(5));
}

#[test]
fn apply_consolidate_prepass_marks_only_all_missing() {
    let mut pool = vec![
        rec(MemoryType::Knowledge, "logic in src/missing_file_abc.rs"),
        rec(MemoryType::Knowledge, "no paths mentioned here"),
    ];
    apply_consolidate_prepass(&mut pool, "/this/root/does/not/exist", 42, true);
    assert_eq!(pool[0].stale_marked_at, Some(42));
    assert_eq!(pool[1].stale_marked_at, None);
    assert_eq!(pool[0].last_reinforced_at, Some(42));
    assert_eq!(pool[1].last_reinforced_at, Some(42));
}

#[test]
fn similarity_ignores_stop_words_and_short_tokens() {
    let a = rec(MemoryType::Knowledge, "the quick brown fox is jumping");
    let b = rec(MemoryType::Knowledge, "the lazy dog is sleeping");
    let sim = ratio(calculate_similarity(&a, &b));
    assert!(
        sim < 0.1,
        "similarity should be near zero for entries sharing only stop words"
    );
}

#[test]
fn similarity_detects_real_overlap() {
    let a = rec(MemoryType::Knowledge, "the function returns a value");
    let b = rec(MemoryType::Knowledge, "the function takes a value");
    let sim = ratio(calculate_similarity(&a, &b));
    assert!((sim - 0.5).abs() < 0.01, "expected ~0.5, got {}", sim);
}

#[test]
fn similarity_exact_ratio_and_symmetry() {
    let s = content_similarity("the function returns a value", "the function takes a value");
    assert_eq!((s.num, s.den), (2, 4));
    let t = content_similarity("the function takes a value", "the function returns a value");
    assert_eq!(s.num * t.den, t.num * s.den);
    let e = content_similarity("", "anything here");
    assert_eq!(e.num, 0);
}

#[test]
fn extract_insights_does_not_pollute_consolidated() {
    let types: Vec<MemoryType> = (0..12).map(|_| MemoryType::Error).collect();
    let count = insight_count(&types);
    assert!(count >= 1, "should detect insight from 12 Error memories");
    assert_eq!(count, 2, "one crowded type plus recurring errors");
    assert_eq!(insight_count(&[MemoryType::Error, MemoryType::Error]), 0);
}

#[test]
fn content_similarity_subset_treats_as_full_match() {
    let a = rec(MemoryType::Knowledge, "use jwt");
    let b = rec(MemoryType::Decision, "use jwt authentication");
    assert!(ratio(content_similarity(&a.content, &b.content)) >= 1.0);
}

#[test]
fn content_similarity_ignores_type() {
    let a = rec(MemoryType::Decision, "the auth uses jwt tokens");
    let b = rec(MemoryType::Knowledge, "the auth uses jwt tokens");
    assert!(
        ratio(content_similarity(&a.content, &b.content)) >= 0.99,
        "type-agnostic similarity should be ~1.0 for identical content"
    );
}

#[test]
fn content_similarity_is_case_insensitive() {
    let a = rec(MemoryType::Knowledge, "Use JWT");
    let b = rec(MemoryType::Decision, "use jwt");
    assert!(
        ratio(content_similarity(&a.content, &b.content)) >= 1.0,
        "similarity should be case-insensitive"
    );
}

#[test]
fn calculate_similarity_is_case_insensitive() {
    let a = rec(MemoryType::Knowledge, "Use JWT tokens");
    let b = rec(MemoryType::Knowledge, "use jwt tokens");
    let sim = ratio(calculate_similarity(&a, &b));
    assert!(
        sim >= 0.99,
        "consolidation similarity should be case-insensitive, got {}",
        sim
    );
}

#[test]
fn find_similar_type_agnostic_when_requested() {
    let existing = vec![rec(MemoryType::Decision, "use jwt auth")];
    let incoming = rec(MemoryType::Knowledge, "use jwt auth");
    assert_eq!(find_similar(&incoming, &existing, 3, 5, false), Some(0));
    assert_eq!(find_similar(&incoming, &existing, 3, 5, true), None);
}

#[test]
fn find_similar_skips_tombstones() {
    let mut dead = rec(MemoryType::Knowledge, "use jwt auth");
    dead.superseded_by = Some("other".to_string());
    let live = rec(MemoryType::Knowledge, "use jwt auth");
    let incoming = rec(MemoryType::Knowledge, "use jwt auth");
    assert_eq!(find_similar(&incoming, &[dead, live], 3, 5, true), Some(1));
}

#[test]
fn merge_into_preserves_id_and_keeps_richer_content() {
    let mut existing = rec(MemoryType::Decision, "use jwt auth");
    existing.id = "keep-me".to_string();
    let incoming = rec(MemoryType::Knowledge, "use jwt auth tokens");
    let merged = merge_into(&existing, &incoming);
    assert_eq!(merged.id, "keep-me", "existing id must be preserved");
    assert_eq!(
        merged.memory_type,
        MemoryType::Decision,
        "existing type must be preserved"
    );
    assert_eq!(merged.content, "use jwt auth tokens");
}

#[test]
fn merge_into_joins_unrelated_texts_and_unions_tags() {
    let existing = rec(MemoryType::Knowledge, "alpha").with_tags(vec!["b".into(), "a".into()]);
    let incoming = rec(MemoryType::Knowledge, "beta").with_tags(vec!["c".into(), "a".into()]);
    let merged = merge_into(&existing, &incoming);
    assert_eq!(merged.content, "alpha\nbeta");
    assert_eq!(merged.tags, vec!["a", "b", "c"]);
}

#[test]
fn merge_memories_preserves_provenance() {
    let mut m1 = rec(MemoryType::Knowledge, "content one");
    m1.id = "src-1".to_string();
    m1.timestamp -= 10 * HOUR;
    let mut m2 = rec(MemoryType::Knowledge, "content two");
    m2.id = "src-2".to_string();
    m2.timestamp -= 2 * HOUR;

    let (merged, prov) = merge_memories(&[m1.clone(), m2.clone()], "fresh-id".to_string());
    assert_eq!(merged.id, "fresh-id");
    assert_ne!(merged.id, m1.id);
    assert_eq!(merged.memory_type, MemoryType::Knowledge);
    assert!(prov.source_ids.contains(&"src-1".to_string()));
    assert!(prov.source_ids.contains(&"src-2".to_string()));
    assert_eq!(prov.earliest, m1.timestamp);
    assert_eq!(prov.latest, m2.timestamp);
    assert!(merged.content.contains("content one"));
    assert!(merged.content.contains("content two"));
    assert_eq!(merged.content, "content one\ncontent two");
}

// In the tests below the second argument of `should_keep` says whether the
// entry's effective weight reaches the default threshold (0.6); the comments
// give the weight that decides it.

#[test]
fn should_keep_recent_low_importance_knowledge() {
    // Base 0.1: far below the threshold. Knowledge horizon: 4 x 48h = 192h.
    let now = 1_000 * HOUR;
    let mut entry = rec(MemoryType::Knowledge, "recent fact");
    entry.timestamp = now - 24 * HOUR;
    assert!(should_keep(&entry, false, now, 48));
}

#[test]
fn should_drop_stale_low_importance_knowledge() {
    let now = 1_000 * HOUR;
    let mut entry = rec(MemoryType::Knowledge, "stale fact");
    entry.timestamp = now - 300 * HOUR;
    assert!(!should_keep(&entry, false, now, 48));
}

#[test]
fn should_keep_high_importance_regardless_of_age() {
    // Base 0.9 with a fresh reinforcement anchor: the weight stays near 0.9.
    let now = 20_000 * HOUR;
    let mut entry = rec(MemoryType::Knowledge, "important fact");
    entry.timestamp = now - 10_000 * HOUR;
    entry.last_reinforced_at = Some(now);
    assert!(should_keep(&entry, true, now, 48));
}

#[test]
fn should_not_keep_superseded_even_with_high_raw_importance() {
    // A tombstone weighs zero.
    let now = 1_000 * HOUR;
    let mut entry = rec(MemoryType::Knowledge, "tombstoned fact");
    entry.superseded_by = Some("newer-id".into());
    entry.timestamp = now;
    assert!(!should_keep(&entry, false, now, 48));
    assert!(!should_keep(&entry, true, now, 48));
}

#[test]
fn should_not_keep_high_raw_when_effective_decays_below_threshold() {
    // Base 0.9 after 10 000h of decay from its anchor: far below 0.6.
    let now = 20_000 * HOUR;
    let mut entry = rec(MemoryType::Knowledge, "decayed high raw");
    entry.timestamp = now - 10_000 * HOUR;
    entry.last_reinforced_at = Some(entry.timestamp);
    assert!(!should_keep(&entry, false, now, 48));
}

#[test]
fn should_drop_old_low_importance_error() {
    // Error horizon: 48h / 2 = 24h; age 30h.
    let now = 1_000 * HOUR;
    let mut err = rec(MemoryType::Error, "stale error");
    err.timestamp = now - 30 * HOUR;
    assert!(!should_keep(&err, false, now, 48));
}

#[test]
fn should_keep_respects_custom_staleness_penalty() {
    // Past the Knowledge horizon (193h > 192h), so only the weight decides:
    // with penalty 0.5 it is about 0.37 (< 0.6), with 0.85 about 0.63.
    let now = 1_000 * HOUR;
    let mut entry = rec(MemoryType::Knowledge, "stale marked high raw");
    entry.timestamp = now - 193 * HOUR;
    entry.last_reinforced_at = Some(entry.timestamp);
    entry.stale_marked_at = Some(now);
    entry.hit_count = 100;
    entry.recall_count = 0;
    assert!(!should_keep(&entry, false, now, 48));
    assert!(should_keep(&entry, true, now, 48));
}

#[test]
fn should_keep_high_importance_survives_regardless_of_type_ttl() {
    // Session past its 48h horizon (75h); base 0.9 decays to about 0.30.
    let now = 1_000 * HOUR;
    let old_time = now - 75 * HOUR;
    let mut session = rec(
        MemoryType::Session,
        "High-importance session — survives via effective importance",
    );
    session.timestamp = old_time;
    session.last_reinforced_at = Some(old_time);
    assert!(!should_keep(&session, false, now, 48));
}

#[test]
fn should_keep_knowledge_survives_longer_than_session_when_both_low_importance() {
    let now = 1_000 * HOUR;
    let old_time = now - 50 * HOUR;
    let mut knowledge = rec(MemoryType::Knowledge, "Knowledge — survives via 4× TTL");
    knowledge.timestamp = old_time;
    knowledge.last_reinforced_at = Some(old_time);
    let mut session = rec(MemoryType::Session, "Session — drops via 1× TTL");
    session.timestamp = old_time;
    session.last_reinforced_at = Some(old_time);
    // Both weigh far below the threshold: the type horizon decides.
    assert!(should_keep(&knowledge, false, now, 48));
    assert!(!should_keep(&session, false, now, 48));
}

#[test]
fn should_keep_insight_lives_longer_than_task() {
    let now = 1_000 * HOUR;
    let old_time = now - 75 * HOUR;
    let mut insight = rec(MemoryType::Insight, "Architecture insight");
    insight.timestamp = old_time;
    insight.last_reinforced_at = Some(old_time);
    let mut task = rec(MemoryType::Task, "Task");
    task.timestamp = old_time;
    task.last_reinforced_at = Some(old_time);
    assert!(should_keep(&insight, false, now, 48));
    assert!(!should_keep(&task, false, now, 48));
}

#[test]
fn should_keep_preference_has_same_ttl_as_knowledge() {
    let now = 1_000 * HOUR;
    let old_time = now - 50 * HOUR;
    let mut pref = rec(MemoryType::Preference, "User prefers Rust edition 2021");
    pref.timestamp = old_time;
    pref.last_reinforced_at = Some(old_time);
    let mut knowledge = rec(MemoryType::Knowledge, "Cargo uses edition 2021");
    knowledge.timestamp = old_time;
    knowledge.last_reinforced_at = Some(old_time);
    assert!(should_keep(&pref, false, now, 48));
    assert!(should_keep(&knowledge, false, now, 48));
}

#[test]
fn should_keep_drops_tombstones_and_keeps_heavy_entries() {
    let mut dead = rec(MemoryType::Knowledge, "x");
    dead.superseded_by = Some("y".into());
    assert!(!should_keep(&dead, true, 0, 48));
    let old = rec(MemoryType::Session, "y");
    let now = old.timestamp + 500 * HOUR;
    assert!(should_keep(&old, true, now, 48));
}

#[test]
fn type_ttl_hours_by_type() {
    assert_eq!(type_ttl_hours(MemoryType::Knowledge, 48), 192);
    assert_eq!(type_ttl_hours(MemoryType::Preference, 48), 192);
    assert_eq!(type_ttl_hours(MemoryType::Decision, 48), 96);
    assert_eq!(type_ttl_hours(MemoryType::Insight, 48), 96);
    assert_eq!(type_ttl_hours(MemoryType::Error, 48), 24);
    assert_eq!(type_ttl_hours(MemoryType::Error, 1), 1);
    assert_eq!(type_ttl_hours(MemoryType::Error, 3), 2);
    assert_eq!(type_ttl_hours(MemoryType::Session, 0), 1);
}

#[test]
fn plan_consolidation_merges_near_duplicates_and_respects_cap() {
    let ordered = vec![
        rec(MemoryType::Knowledge, "use jwt auth tokens"),
        rec(MemoryType::Knowledge, "use jwt auth tokens"),
        rec(MemoryType::Knowledge, "postgres stores sessions"),
        rec(MemoryType::Knowledge, "redis caches pages"),
    ];
    let plan = plan_consolidation(&ordered, &[true, true, true, false], 10);
    assert_eq!(plan.kept, vec![0, 2]);
    assert_eq!(plan.merged, vec![1]);
    let capped = plan_consolidation(&ordered, &[true, true, true, true], 1);
    // Once the cap is reached, later entries are not looked at.
    assert_eq!(capped.kept, vec![0]);
    assert!(capped.merged.is_empty());
    assert!(capped.retained.is_empty());
}

#[test]
fn plan_consolidation_retains_tombstones() {
    let mut dead = rec(MemoryType::Knowledge, "the auth module login bug exists in codebase today");
    dead.superseded_by = Some("newer".into());
    let ordered = vec![
        rec(MemoryType::Knowledge, "the auth module login bug fixed in codebase today"),
        dead,
        rec(MemoryType::Session, "redis caches pages"),
    ];
    // The tombstone is retained even when the cap is reached and even when
    // the retention verdict would drop it.
    let plan = plan_consolidation(&ordered, &[true, false, true], 1);
    assert_eq!(plan.kept, vec![0]);
    assert!(plan.merged.is_empty());
    assert_eq!(plan.retained, vec![1]);
}

#[test]
fn explore_candidates_skip_top_dead_and_recent() {
    let mut a = rec(MemoryType::Knowledge, "a");
    a.id = "a".into();
    let mut b = rec(MemoryType::Knowledge, "b");
    b.id = "b".into();
    b.superseded_by = Some("a".into());
    let mut c = rec(MemoryType::Knowledge, "c");
    c.id = "c".into();
    let mut d = rec(MemoryType::Knowledge, "d");
    d.id = "d".into();
    let got = explore_candidates(&[a, b, c, d], &vec!["a".to_string()], &[false, false, true, false]);
    assert_eq!(got, vec![3]);
}

#[test]
fn classify_relation_state_change_marker_is_contradicts() {
    assert_eq!(
        classify_relation("auth bug fixed", "auth bug exists"),
        MemoryRelation::Contradicts,
        "state-change marker 'fixed' with shared subject must supersede"
    );
}

#[test]
fn classify_relation_numeric_drift_is_contradicts() {
    assert_eq!(
        classify_relation("API chat uses max_tokens=4096", "API chat uses max_tokens=128000"),
        MemoryRelation::Contradicts,
        "shared key-like token with differing numeric value must supersede"
    );
}

#[test]
fn classify_relation_subset_is_compatible() {
    assert_eq!(
        classify_relation("use jwt", "use jwt authentication"),
        MemoryRelation::Compatible,
        "subset / same-direction refinement must merge+reinforce, not supersede"
    );
    assert_eq!(
        classify_relation("use jwt authentication", "use jwt"),
        MemoryRelation::Compatible
    );
}

#[test]
fn classify_relation_similar_but_unrelated_choice_is_ambiguous() {
    assert_eq!(
        classify_relation(
            "prefer mysql database for storage layer",
            "prefer postgres database for storage layer"
        ),
        MemoryRelation::Ambiguous,
        "competing alternatives without markers should stay Ambiguous"
    );
}

#[test]
fn classify_relation_unresolved_substring_is_not_marker() {
    assert_ne!(
        classify_relation("auth bug unresolved in login", "auth bug reported in login"),
        MemoryRelation::Contradicts,
        "'unresolved' must not match marker via substring 'resolved'"
    );
}

#[test]
fn classify_relation_unresolved_to_resolved_is_contradicts() {
    assert_eq!(
        classify_relation("auth bug resolved", "auth bug unresolved"),
        MemoryRelation::Contradicts,
        "unresolved → resolved polarity flip must supersede"
    );
}

#[test]
fn classify_relation_fixed_width_is_not_state_marker() {
    assert_ne!(
        classify_relation(
            "layout uses fixed-width columns for forms",
            "layout uses grid columns for forms"
        ),
        MemoryRelation::Contradicts,
        "'fixed-width' must not count as state-change marker 'fixed'"
    );
}

#[test]
fn extract_memory_paths_dedups_equal_paths() {
    assert_eq!(
        extract_memory_paths("see src/a.rs, src//a.rs and src/./a.rs then lib/b.ts"),
        vec!["src/a.rs".to_string(), "lib/b.ts".to_string()]
    );
}

#[test]
fn exploration_swaps_the_last_slot_only() {
    let mut slots = vec![4, 7, 9];
    assert_eq!(replace_last_slot(&mut slots, Some(2)), Some(2));
    assert_eq!(slots, vec![4, 7, 2]);
    assert_eq!(replace_last_slot(&mut slots, None), None);
    assert_eq!(slots, vec![4, 7, 2]);
    let mut empty: Vec<usize> = vec![];
    assert_eq!(replace_last_slot(&mut empty, Some(1)), None);
    assert!(empty.is_empty());
}
