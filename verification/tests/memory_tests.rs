use wgenty_memory::entry::{MemoryOrigin, MemoryRecord, MemoryType, PruneResult, RetrievalMode};
use wgenty_memory::inject::{extract_keywords, format_memory_type, ChatTurn, MemoryContextInjector};
use wgenty_memory::pool::{
    delete_by_id, entries_of_type, execute_add, execute_add_in_scope, find_by_id, import_records,
    locate, memory_counts, plan_add, plan_add_in_scope, record_recall_injections, reinforce_ids,
    reinforce_last_injected, resolve_ranked, substring_search, AddPlan,
};
use wgenty_memory::pool::{add_marks, record_injections};
use wgenty_memory::storage::{
    cache_upsert, memory_file_name, orphaned_files, validate_id, validate_session_id,
    StorageBackend,
};

fn rec(id: &str, t: MemoryType, content: &str) -> MemoryRecord {
    let mut m = MemoryRecord::new(t, content);
    m.id = id.to_string();
    m
}

#[test]
fn memory_type_has_decision_variant() {
    match MemoryType::Decision {
        MemoryType::Decision => {}
        _ => panic!("MemoryType::Decision variant pattern mismatch"),
    }
}

#[test]
fn new_record_defaults() {
    let m = MemoryRecord::new(MemoryType::Task, "do it");
    assert_eq!(m.content, "do it");
    assert_eq!(m.recall_count, 0);
    assert_eq!(m.hit_count, 0);
    assert!(m.last_reinforced_at.is_none());
    assert!(m.superseded_by.is_none());
    assert_eq!(m.retrieval_mode, RetrievalMode::Auto);
    assert!(!m.id.is_empty());
    assert_eq!(RetrievalMode::default(), RetrievalMode::Auto);
}

#[test]
fn reinforce_and_penalize_saturate() {
    let mut m = MemoryRecord::new(MemoryType::Knowledge, "x");
    m.reinforce(7);
    assert_eq!(m.hit_count, 1);
    assert_eq!(m.last_reinforced_at, Some(7));
    assert_eq!(m.decay_anchor(), 7);
    m.penalize();
    m.penalize();
    assert_eq!(m.hit_count, 0);
    m.hit_count = u32::MAX;
    m.reinforce(8);
    assert_eq!(m.hit_count, u32::MAX);
}

#[test]
fn prune_result_from_counts() {
    let r = PruneResult::from_counts(10, 7, 5, 6);
    assert_eq!(r.before, 15);
    assert_eq!(r.after, 13);
    assert_eq!(r.removed, 2);
    let grown = PruneResult::from_counts(1, 2, 0, 0);
    assert_eq!(grown.removed, 0);
}

#[test]
fn extract_keywords_orders_longest_first_and_caps() {
    let k = extract_keywords("The quick brown fox jumps over lazy dogs tonight again");
    assert!(k.len() <= 6);
    assert_eq!(k[0], "tonight");
    assert!(k.windows(2).all(|w| w[0].len() >= w[1].len()));
    assert!(!k.iter().any(|w| w == "the"));
    // Adjacent repeats after sorting are dropped.
    assert_eq!(extract_keywords("Rust rust RUST"), vec!["rust"]);
    assert!(extract_keywords("a an the").is_empty());
}

#[test]
fn recall_query_needs_two_keywords() {
    assert_eq!(MemoryContextInjector::recall_query(""), None);
    assert_eq!(MemoryContextInjector::recall_query("rust"), None);
    assert_eq!(
        MemoryContextInjector::recall_query("rust async programming"),
        Some("programming async rust".to_string())
    );
}

#[test]
fn memory_block_and_lines() {
    let line = MemoryContextInjector::recall_line(MemoryType::Decision, "Use tokio", "0.8");
    assert_eq!(line, "- [decision] Use tokio (importance: 0.8)\n");
    let block = MemoryContextInjector::memory_block(&[line]);
    assert_eq!(
        block,
        "<memory-context>\n- [decision] Use tokio (importance: 0.8)\n</memory-context>"
    );
    assert_eq!(
        MemoryContextInjector::prepend_block("B", Some("hello".into())),
        "B\n\nhello"
    );
    assert_eq!(MemoryContextInjector::prepend_block("B", None), "B\n\n");
    assert_eq!(format_memory_type(&MemoryType::Conversation), "conversation");
}

#[test]
fn global_lines_skip_tombstones_and_cap() {
    let mut entries = Vec::new();
    for i in 0..60 {
        entries.push(rec(&format!("g{i}"), MemoryType::Knowledge, &format!("fact {i}")));
    }
    entries[0].superseded_by = Some("g1".into());
    let lines = MemoryContextInjector::global_lines(&entries);
    assert_eq!(lines.len(), 50);
    assert_eq!(lines[0], "- [knowledge] fact 1");
    assert!(MemoryContextInjector::global_lines(&[]).is_empty());
}

#[test]
fn plan_and_execute_add_insert_and_merge() {
    let mut pool = vec![rec("a", MemoryType::Knowledge, "use jwt authentication tokens")];
    let incoming = rec("b", MemoryType::Knowledge, "postgres is the database");
    let plan = plan_add(&incoming, &pool);
    assert_eq!(plan, AddPlan::Insert);
    let r = execute_add(&mut pool, incoming, plan, false, 1);
    assert!(!r.merged);
    assert_eq!(r.id, "b");
    assert_eq!(pool.len(), 2);

    let dup = rec("c", MemoryType::Decision, "use jwt authentication tokens");
    let plan = plan_add(&dup, &pool);
    assert!(matches!(plan, AddPlan::MergeReinforce(0)));
    let r = execute_add(&mut pool, dup, plan, false, 9);
    assert!(r.merged);
    assert_eq!(r.id, "a");
    assert_eq!(pool.len(), 2);
    assert_eq!(pool[0].hit_count, 1);
    assert_eq!(pool[0].last_reinforced_at, Some(9));
}

#[test]
fn contradicting_add_supersedes_and_penalizes() {
    let mut pool = vec![rec("old", MemoryType::Knowledge, "auth bug exists in login")];
    pool[0].hit_count = 2;
    let incoming = rec("new", MemoryType::Knowledge, "auth bug fixed in login");
    let plan = plan_add(&incoming, &pool);
    assert!(matches!(plan, AddPlan::SupersedeThenInsert(0)));
    let r = execute_add(&mut pool, incoming, plan, true, 3);
    assert_eq!(r.id, "new");
    assert_eq!(pool.len(), 2);
    assert_eq!(pool[0].superseded_by.as_deref(), Some("new"));
    assert_eq!(pool[0].hit_count, 1);
    // A tombstone is never a merge target afterwards.
    let again = rec("x", MemoryType::Knowledge, "auth bug exists in login");
    assert!(!matches!(plan_add(&again, &pool), AddPlan::MergeReinforce(0)));
}

#[test]
fn lookup_and_locate() {
    let project = vec![rec("p1", MemoryType::Task, "a"), rec("dup", MemoryType::Task, "b")];
    let global = vec![rec("dup", MemoryType::Task, "c"), rec("g1", MemoryType::Task, "d")];
    assert_eq!(find_by_id(&project, "dup"), Some(1));
    assert_eq!(find_by_id(&project, "zzz"), None);
    assert_eq!(locate(&project, &global, "dup"), Some((MemoryOrigin::Project, 1)));
    assert_eq!(locate(&project, &global, "g1"), Some((MemoryOrigin::Global, 1)));
    assert_eq!(locate(&project, &global, "none"), None);
}

#[test]
fn recall_and_feedback_counters() {
    let mut pool = vec![rec("a", MemoryType::Task, "x"), rec("b", MemoryType::Task, "y")];
    let touched = record_recall_injections(&mut pool, &["a".into(), "zz".into(), "a".into()]);
    assert_eq!(touched, vec![0, 0]);
    assert_eq!(pool[0].recall_count, 2);
    assert_eq!(pool[1].recall_count, 0);
    let hit = reinforce_ids(&mut pool, &["b".into()], 11);
    assert_eq!(hit, vec![1]);
    assert_eq!(pool[1].hit_count, 1);
    assert_eq!(pool[1].last_reinforced_at, Some(11));
}

#[test]
fn delete_and_import() {
    let mut pool = vec![
        rec("a", MemoryType::Task, "x"),
        rec("b", MemoryType::Task, "y"),
        rec("a", MemoryType::Task, "z"),
    ];
    assert!(delete_by_id(&mut pool, "a"));
    assert_eq!(pool.len(), 1);
    assert_eq!(pool[0].id, "b");
    assert!(!delete_by_id(&mut pool, "a"));

    let added = import_records(
        &mut pool,
        vec![rec("b", MemoryType::Task, "dup"), rec("c", MemoryType::Task, "new")],
    );
    assert_eq!(added, 1);
    assert_eq!(pool.len(), 2);
    assert_eq!(pool[1].id, "c");
    assert_eq!(pool[0].content, "y");
}

#[test]
fn search_helpers() {
    let mut pool = vec![
        rec("a", MemoryType::Knowledge, "Rust ownership"),
        rec("b", MemoryType::Task, "write docs").with_tags(vec!["RUST".into()]),
        rec("c", MemoryType::Knowledge, "rust again"),
    ];
    pool[2].superseded_by = Some("a".into());
    assert_eq!(substring_search(&pool, "rust"), vec![0, 1]);
    assert_eq!(entries_of_type(&pool, MemoryType::Knowledge), vec![0, 2]);
    assert_eq!(resolve_ranked(&pool, &[2, 0, 7, 1]), vec![0, 1]);
    let counts = memory_counts(&pool, &[rec("g", MemoryType::Session, "s")]);
    assert_eq!(counts.total_memories, 4);
    assert_eq!(counts.knowledge_count, 2);
    assert_eq!(counts.session_count, 1);
    assert_eq!(counts.project_count, 3);
}

#[test]
fn memory_id_validation() {
    assert!(validate_id("abc-123"));
    assert!(!validate_id(""));
    assert!(!validate_id("a/b"));
    assert!(!validate_id("a\\b"));
    assert!(!validate_id("a..b"));
    assert!(!validate_id(".hidden"));
    assert!(!validate_id("nul\0byte"));
    assert!(!validate_id("con"));
    assert!(!validate_id("Com1.json"));
    assert!(validate_id("console"));
    assert!(!validate_id(&"x".repeat(256)));
    assert!(validate_id(&"x".repeat(255)));
    assert_eq!(memory_file_name("abc"), Some("abc.json".to_string()));
    assert_eq!(memory_file_name("../x"), None);
    assert!(validate_session_id("s-1"));
    assert!(!validate_session_id("../s"));
    assert!(validate_session_id("con"));
}

#[test]
fn in_memory_backend_upsert_and_orphans() {
    let mut cache = vec![rec("a", MemoryType::Task, "x")];
    cache_upsert(&mut cache, rec("a", MemoryType::Task, "updated"));
    cache_upsert(&mut cache, rec("b", MemoryType::Task, "new"));
    assert_eq!(cache.len(), 2);
    assert_eq!(cache[0].content, "updated");
    let names = vec![
        "a.json".to_string(),
        "zz.json".to_string(),
        "notes.txt".to_string(),
        ".json".to_string(),
    ];
    assert_eq!(orphaned_files(&names, &cache), vec![1]);
    assert_eq!(orphaned_files(&names, &[]), vec![0, 1]);
    assert_ne!(StorageBackend::File, StorageBackend::Memory);
}

fn turn(role: &str, content: Option<&str>) -> ChatTurn {
    ChatTurn { role: role.to_string(), content: content.map(|c| c.to_string()) }
}

#[test]
fn inject_block_prepends_to_first_user_message() {
    let mut ms = vec![
        turn("system", Some("be brief")),
        turn("user", Some("hello")),
        turn("user", Some("again")),
    ];
    MemoryContextInjector::inject_block(&mut ms, "<memory-context>\nx\n</memory-context>");
    assert_eq!(ms[0].content.as_deref(), Some("be brief"));
    assert_eq!(
        ms[1].content.as_deref(),
        Some("<memory-context>\nx\n</memory-context>\n\nhello")
    );
    assert_eq!(ms[2].content.as_deref(), Some("again"));

    let mut no_text = vec![turn("user", None)];
    MemoryContextInjector::inject_block(&mut no_text, "B");
    assert_eq!(no_text[0].content.as_deref(), Some("B\n\n"));
}

#[test]
fn inject_block_leaves_messages_when_nothing_to_do() {
    let mut ms = vec![turn("system", Some("s")), turn("assistant", Some("a"))];
    MemoryContextInjector::inject_block(&mut ms, "B");
    assert_eq!(ms[0].content.as_deref(), Some("s"));
    assert_eq!(ms[1].content.as_deref(), Some("a"));

    let mut ms = vec![turn("user", Some("hi"))];
    MemoryContextInjector::inject_block(&mut ms, "");
    assert_eq!(ms[0].content.as_deref(), Some("hi"));

    let mut empty: Vec<ChatTurn> = Vec::new();
    MemoryContextInjector::inject_block(&mut empty, "B");
    assert!(empty.is_empty());
}

#[test]
fn numeric_drift_supersedes_and_penalizes_injected_entry() {
    let mut old = rec("old", MemoryType::Knowledge, "api uses max_tokens=128000");
    old.hit_count = 3;
    let mut pool = vec![old];
    let incoming = rec("new", MemoryType::Knowledge, "api uses max_tokens=4096");
    let plan = plan_add(&incoming, &pool);
    assert_eq!(plan, AddPlan::SupersedeThenInsert(0));
    let r = execute_add(&mut pool, incoming, plan, true, 7);
    assert_eq!(r.id, "new");
    assert!(!r.merged);
    assert_eq!(pool[0].superseded_by.as_deref(), Some("new"));
    assert_eq!(pool[0].hit_count, 2);
    assert_eq!(pool[1].id, "new");
}

#[test]
fn reinforce_last_injected_rewards_once() {
    let mut pool = vec![rec("a", MemoryType::Knowledge, "alpha"), rec("b", MemoryType::Knowledge, "beta")];
    let mut injected = vec!["a".to_string()];
    let touched = reinforce_last_injected(&mut pool, &mut injected, 10);
    assert_eq!(touched, vec![0]);
    assert!(injected.is_empty());
    assert_eq!(pool[0].hit_count, 1);
    assert_eq!(pool[0].last_reinforced_at, Some(10));
    assert_eq!(pool[1].hit_count, 0);
    let touched = reinforce_last_injected(&mut pool, &mut injected, 20);
    assert!(touched.is_empty());
    assert_eq!(pool[0].hit_count, 1);
    assert_eq!(pool[0].last_reinforced_at, Some(10));
}

#[test]
fn add_in_scope_leaves_the_other_pool_alone() {
    let mut project = vec![rec("p", MemoryType::Knowledge, "use jwt authentication tokens")];
    let mut global = vec![rec("g", MemoryType::Knowledge, "use jwt authentication tokens")];
    let incoming = rec("n", MemoryType::Knowledge, "use jwt authentication tokens");
    let plan = plan_add_in_scope(&project, &global, MemoryOrigin::Global, &incoming);
    assert_eq!(plan, AddPlan::MergeReinforce(0));
    let r = execute_add_in_scope(&mut project, &mut global, MemoryOrigin::Global, incoming, plan, false, 5);
    assert!(r.merged);
    assert_eq!(r.id, "g");
    assert_eq!(global[0].hit_count, 1);
    assert_eq!(project[0].hit_count, 0);
    assert_eq!(project.len(), 1);

    let empty: Vec<MemoryRecord> = Vec::new();
    let other = rec("x", MemoryType::Knowledge, "use jwt authentication tokens");
    assert_eq!(plan_add_in_scope(&empty, &global, MemoryOrigin::Project, &other), AddPlan::Insert);
}

#[test]
fn record_recall_injections_replaces_previous_set() {
    let mut pool = vec![
        rec("a", MemoryType::Knowledge, "alpha fact"),
        rec("b", MemoryType::Knowledge, "beta fact"),
    ];
    let mut injected: Vec<String> = Vec::new();
    record_injections(&mut pool, &mut injected, &["a".to_string()]);
    record_injections(&mut pool, &mut injected, &["b".to_string(), "b".to_string()]);
    assert_eq!(injected, vec!["b"]);
    assert_eq!(pool[0].recall_count, 1);
    assert_eq!(pool[1].recall_count, 2);
    reinforce_last_injected(&mut pool, &mut injected, 10);
    assert_eq!(pool[0].hit_count, 0, "A was replaced, not reinforced");
    assert_eq!(pool[1].hit_count, 1, "B is the latest injected, reinforced");
    assert!(injected.is_empty());
}

#[test]
fn record_injections_with_no_ids_keeps_the_set() {
    let mut pool = vec![rec("a", MemoryType::Knowledge, "alpha fact")];
    let mut injected = vec!["a".to_string()];
    assert!(record_injections(&mut pool, &mut injected, &[]).is_empty());
    assert_eq!(injected, vec!["a"]);
    assert_eq!(pool[0].recall_count, 0);
}

#[test]
fn add_marks_record_why_an_entry_changed() {
    let m = add_marks(AddPlan::SupersedeThenInsert(0), false);
    assert_eq!(m.supersede_reason, Some("contradicts"));
    assert!(!m.relation_ambiguous);
    let m = add_marks(AddPlan::SupersedeThenInsert(3), true);
    assert_eq!(m.supersede_reason, Some("llm_review: contradicts"));
    let m = add_marks(AddPlan::MergeFlagAmbiguous(1), true);
    assert_eq!(m.supersede_reason, None);
    assert!(m.relation_ambiguous);
    let m = add_marks(AddPlan::MergeReinforce(1), false);
    assert_eq!(m.supersede_reason, None);
    assert!(!m.relation_ambiguous);
    assert!(!add_marks(AddPlan::Insert, true).relation_ambiguous);
}

#[test]
fn validate_id_rejects_reserved_device_names() {
    assert!(!validate_id("con"));
    assert!(!validate_id("CON.json"));
    assert!(!validate_id("nul"));
    assert!(validate_id("console"));
}
