use std::collections::VecDeque;
use wgenty_memory::history::{
    history_layout, HistoryFilter, HistoryLayout, HistoryLog, HistoryRecord, HistoryType,
};
use wgenty_memory::migration::{
    filter_json_names, is_json_name, migrate_legacy_sessions, Migration, MigrationAction,
    MigrationEvent, SessionReadOutcome, session_read_outcome, session_rewrite, field_outcome,
};
use wgenty_memory::session_index::{
    entry_from_fields, fill_project, index_entry_from_json, status_from_name, legacy_summary, session_update_outcome, SessionDiffData,
    parse_time_field, SessionFileFields, SessionIndex, SessionInfo, SessionRecord, SessionStatus,
    SessionUpdateConflict, TurnRecord,
};

fn h(id: &str, t: HistoryType, content: &str, ts: i64, ok: bool) -> HistoryRecord {
    HistoryRecord {
        id: id.into(),
        entry_type: t,
        content: content.into(),
        timestamp: ts,
        session_id: None,
        success: ok,
        duration_ms: None,
    }
}

#[test]
fn max_entries_eviction() {
    let mut log = HistoryLog::new(3);
    for i in 0..5 {
        log.add(h(&format!("{i}"), HistoryType::Command, &format!("cmd-{i}"), i, true));
    }
    let recent = log.get_recent(10);
    assert_eq!(recent.len(), 3, "should evict oldest beyond max_entries");
    assert!(recent.iter().all(|e| !e.content.contains("cmd-0")));
    assert!(recent.iter().all(|e| !e.content.contains("cmd-1")));
    assert_eq!(recent[0].content, "cmd-4");
}

#[test]
fn history_zero_bound_still_keeps_latest() {
    let mut log = HistoryLog::new(0);
    log.add(h("a", HistoryType::Query, "q1", 1, true));
    log.add(h("b", HistoryType::Query, "q2", 2, true));
    assert_eq!(log.len(), 1);
    assert_eq!(log.get_recent(5)[0].id, "b");
}

#[test]
fn history_filters_search_and_stats() {
    let mut log = HistoryLog::with_default_bound();
    let mut e = h("1", HistoryType::Command, "cargo build", 10, true);
    e.session_id = Some("s1".into());
    log.add(e);
    log.add(h("2", HistoryType::Query, "How to Build", 20, false));
    log.add(h("3", HistoryType::ToolCall, "read file", 30, true));
    log.add(h("4", HistoryType::Search, "grep build", 40, true));

    let all = log.list(&HistoryFilter::default());
    assert_eq!(all.len(), 4);
    let mut f = HistoryFilter::default();
    f.success_only = true;
    f.from_time = Some(15);
    assert_eq!(log.list(&f).iter().map(|e| e.id.as_str()).collect::<Vec<_>>(), vec!["3", "4"]);
    let mut f = HistoryFilter::default();
    f.session_id = Some("s1".into());
    assert_eq!(log.list(&f).len(), 1);
    let mut f = HistoryFilter::default();
    f.limit = 2;
    assert_eq!(log.list(&f).len(), 2);

    let found = log.search("BUILD");
    assert_eq!(found.iter().map(|e| e.id.as_str()).collect::<Vec<_>>(), vec!["1", "2", "4"]);
    assert_eq!(log.get("3").map(|e| e.content), Some("read file".to_string()));
    assert!(log.get("9").is_none());
    let by_type = log.get_by_type(HistoryType::Command, 5);
    assert_eq!(by_type.len(), 1);

    let stats = log.stats();
    assert_eq!(stats.total_entries, 4);
    assert_eq!(stats.commands, 1);
    assert_eq!(stats.queries, 1);
    assert_eq!(stats.tool_calls, 1);
    assert_eq!(stats.successful, 3);
    assert_eq!(stats.failed, 1);

    log.clear();
    assert!(log.get_recent(10).is_empty());
}

#[test]
fn load_reads_jsonl_format() {
    // Loaded entries replace the log; the newest comes first in recent.
    let mut log = HistoryLog::with_default_bound();
    let mut loaded = VecDeque::new();
    loaded.push_back(h("1", HistoryType::Command, "first", 1, true));
    loaded.push_back(h("2", HistoryType::Query, "second", 2, true));
    log.replace_all(loaded);
    let recent = log.get_recent(10);
    assert_eq!(recent.len(), 2);
    assert_eq!(recent[0].content, "second");
    assert_eq!(recent[1].content, "first");
}

#[test]
fn get_by_type_newest_first_with_limit() {
    let mut log = HistoryLog::new(100);
    for i in 0..5 {
        log.add(h(&format!("c{i}"), HistoryType::Command, "c", i, true));
        log.add(h(&format!("q{i}"), HistoryType::Query, "q", i, true));
    }
    let got: Vec<_> = log.get_by_type(HistoryType::Query, 2).into_iter().map(|e| e.id).collect();
    assert_eq!(got, vec!["q4", "q3"]);
}

fn run(mut state: Migration, mut action: MigrationAction, answer: &mut dyn FnMut(&MigrationAction) -> MigrationEvent) -> (Migration, Vec<String>) {
    let mut rewritten = Vec::new();
    loop {
        if let MigrationAction::AddProjectPath(n) = &action {
            rewritten.push(n.clone());
        }
        if let MigrationAction::Stop = action {
            return (state, rewritten);
        }
        let ev = answer(&action);
        let (s, a) = state.step(ev);
        state = s;
        action = a;
    }
}

/// A config directory held in memory: the marker, whether `sessions/`
/// exists, and its files in listing order.
struct Disk {
    marker: bool,
    sessions_dir: bool,
    files: Vec<(String, String)>,
}

impl Disk {
    fn with_files(files: &[(&str, &str)]) -> Disk {
        Disk {
            marker: false,
            sessions_dir: true,
            files: files.iter().map(|(n, c)| (n.to_string(), c.to_string())).collect(),
        }
    }

    fn file(&self, name: &str) -> String {
        self.files.iter().find(|(n, _)| n == name).map(|(_, c)| c.clone()).unwrap()
    }
}

/// Runs the migration against `disk` the way the program does: the text
/// read last is what a rewrite is built from.
fn migrate_disk(disk: &mut Disk, project: &str) -> Migration {
    let (mut state, mut action) = migrate_legacy_sessions();
    let mut last_read: Option<String> = None;
    loop {
        let event = match &action {
            MigrationAction::CheckMarker => MigrationEvent::Exists(disk.marker),
            MigrationAction::CheckSessionsDir => MigrationEvent::Exists(disk.sessions_dir),
            MigrationAction::ListSessions => {
                MigrationEvent::Listed(Some(disk.files.iter().map(|(n, _)| n.clone()).collect()))
            }
            MigrationAction::ReadSession(name) => {
                last_read = Some(disk.file(name));
                MigrationEvent::Read(last_read.clone())
            }
            MigrationAction::AddProjectPath(name) => match session_rewrite(last_read.take(), project) {
                Some(text) => {
                    for f in disk.files.iter_mut() {
                        if &f.0 == name {
                            f.1 = text.clone();
                        }
                    }
                    MigrationEvent::Written(true)
                }
                None => MigrationEvent::Written(false),
            },
            MigrationAction::WriteMarker => {
                disk.marker = true;
                MigrationEvent::Written(true)
            }
            MigrationAction::Stop => return state,
        };
        let (s, a) = state.step(event);
        state = s;
        action = a;
    }
}

#[test]
fn migrate_skips_when_marker_exists() {
    let mut disk = Disk::with_files(&[("abc.json", r#"{"id":"abc","name":"test","project_path":null}"#)]);
    disk.marker = true;
    let end = migrate_disk(&mut disk, "/my/project");
    let content = disk.file("abc.json");
    assert!(content.contains(r#""project_path":null"#), "should not have been migrated: {}", content);
    assert!(matches!(end, Migration::Finished { total: 0, migrated: 0 }));
}

#[test]
fn migrate_sets_project_path_for_null_and_missing_sessions() {
    let mut disk = Disk::with_files(&[
        ("abc.json", r#"{"id":"abc","name":"test","project_path":null}"#),
        ("def.json", r#"{"id":"def","name":"test2"}"#),
        ("ghi.json", r#"{"id":"ghi","name":"test3","project_path":"/existing/path"}"#),
        ("readme.txt", "not a session"),
    ]);
    let end = migrate_disk(&mut disk, "/my/project");
    let abc = disk.file("abc.json");
    assert!(abc.contains("/my/project"), "null project_path should be migrated: {}", abc);
    assert!(!abc.contains("null"));
    let def = disk.file("def.json");
    assert!(def.contains("/my/project"), "missing project_path should be migrated: {}", def);
    let ghi = disk.file("ghi.json");
    assert!(ghi.contains("/existing/path"), "existing project_path should be untouched: {}", ghi);
    assert!(!ghi.contains("/my/project"));
    assert!(disk.marker, "marker file should be created after migration");
    assert!(matches!(end, Migration::Finished { total: 3, migrated: 2 }));
}

#[test]
fn migrate_creates_marker_when_no_sessions_dir() {
    let mut disk = Disk { marker: false, sessions_dir: false, files: vec![] };
    let end = migrate_disk(&mut disk, "/my/project");
    assert!(disk.marker, "marker should be created even when no sessions dir exists");
    assert!(matches!(end, Migration::Finished { total: 0, migrated: 0 }));
}

#[test]
fn migrate_unreadable_dir_stops_without_marker() {
    let (s, a) = migrate_legacy_sessions();
    let (end, _) = run(s, a, &mut |a| match a {
        MigrationAction::CheckMarker => MigrationEvent::Exists(false),
        MigrationAction::CheckSessionsDir => MigrationEvent::Exists(true),
        MigrationAction::ListSessions => MigrationEvent::Listed(None),
        _ => panic!("no marker after a failed listing"),
    });
    assert!(matches!(end, Migration::Finished { total: 0, migrated: 0 }));
}

#[test]
fn migrate_counts_failed_writes_as_not_migrated() {
    let (s, a) = migrate_legacy_sessions();
    let (end, rewritten) = run(s, a, &mut |a| match a {
        MigrationAction::CheckMarker => MigrationEvent::Exists(false),
        MigrationAction::CheckSessionsDir => MigrationEvent::Exists(true),
        MigrationAction::ListSessions => MigrationEvent::Listed(Some(vec!["a.json".into(), "b.json".into(), "c.json".into()])),
        MigrationAction::ReadSession(n) => MigrationEvent::Read(match n.as_str() {
            "a.json" => Some("not json".to_string()),
            "b.json" => Some(r#"{"id":"b"}"#.to_string()),
            _ => None,
        }),
        MigrationAction::AddProjectPath(_) => MigrationEvent::Written(false),
        MigrationAction::WriteMarker => MigrationEvent::Written(false),
        MigrationAction::Stop => unreachable!(),
    });
    assert_eq!(rewritten, vec!["b.json"]);
    assert!(matches!(end, Migration::Finished { total: 3, migrated: 0 }));
}

#[test]
fn migrate_is_idempotent_on_second_run() {
    let mut disk = Disk::with_files(&[("abc.json", r#"{"id":"abc","project_path":null}"#)]);
    migrate_disk(&mut disk, "/first");
    let after_first = disk.file("abc.json");
    assert!(after_first.contains("/first"));
    let end = migrate_disk(&mut disk, "/second");
    let after_second = disk.file("abc.json");
    assert!(after_second.contains("/first"), "second run should not re-migrate");
    assert!(!after_second.contains("/second"));
    assert!(matches!(end, Migration::Finished { total: 0, migrated: 0 }));
}

#[test]
fn session_read_outcome_classifies_texts() {
    assert_eq!(session_read_outcome(None), SessionReadOutcome::Unreadable);
    assert_eq!(session_read_outcome(Some("{not json".into())), SessionReadOutcome::Unparsable);
    assert_eq!(session_read_outcome(Some(r#"{"id":"a"}"#.into())), SessionReadOutcome::PathMissingOrNull);
    assert_eq!(session_read_outcome(Some(r#"{"project_path":null}"#.into())), SessionReadOutcome::PathMissingOrNull);
    assert_eq!(session_read_outcome(Some(r#"{"project_path":"/p"}"#.into())), SessionReadOutcome::PathSet);
    assert_eq!(session_read_outcome(Some("[1,2]".into())), SessionReadOutcome::PathMissingOrNull);
}

#[test]
fn session_rewrite_tags_only_unset_sessions() {
    let out = session_rewrite(Some(r#"{"id":"a","project_path":null}"#.into()), "/proj").unwrap();
    assert_eq!(out, "{\n  \"id\": \"a\",\n  \"project_path\": \"/proj\"\n}");
    assert_eq!(session_rewrite(Some(r#"{"project_path":"/old"}"#.into()), "/proj"), None);
    assert_eq!(session_rewrite(Some("nope".into()), "/proj"), None);
    assert_eq!(session_rewrite(None, "/proj"), None);
    assert_eq!(session_rewrite(Some("[1]".into()), "/proj").as_deref(), Some("[\n  1\n]"));
}

#[test]
fn migrate_skips_non_json_files() {
    assert!(is_json_name("real.json"));
    assert!(!is_json_name("readme.txt"));
    assert!(!is_json_name(".json"));
    assert!(is_json_name("..json"));
    assert_eq!(
        filter_json_names(vec!["readme.txt".into(), "real.json".into(), "x.json.bak".into()]),
        vec!["real.json"]
    );
}

fn srec(id: &str, updated: i64) -> SessionRecord {
    SessionRecord {
        id: id.into(),
        name: format!("name-{id}"),
        project_path: None,
        created_at: 0,
        updated_at: updated,
        message_contents: vec![],
        status: SessionStatus::Active,
        lazy_message_count: None,
    }
}

#[test]
fn session_index_upsert_list_and_search() {
    let mut idx = SessionIndex::new();
    idx.upsert(srec("a", 10));
    idx.upsert(srec("b", 30));
    idx.upsert(srec("c", 20));
    let mut a2 = srec("a", 40);
    a2.name = "Renamed Session".into();
    idx.upsert(a2);
    let list = idx.list();
    assert_eq!(list.iter().map(|s| s.id.as_str()).collect::<Vec<_>>(), vec!["a", "b", "c"]);
    assert_eq!(list[0].name, "Renamed Session");

    assert!(idx.add_message("b", "Hello World".into(), 50));
    assert!(!idx.add_message("zz", "x".into(), 50));
    let found = idx.search("world");
    assert_eq!(found.len(), 1);
    assert_eq!(found[0].id, "b");
    assert_eq!(found[0].message_count, 1);
    assert_eq!(idx.search("RENAMED").len(), 1);

    assert!(idx.archive("c"));
    assert_eq!(idx.get("c").unwrap().status, SessionStatus::Archived);
    idx.remove("c");
    assert!(idx.get("c").is_none());
}

#[test]
fn session_index_read_after_write() {
    let mut idx = SessionIndex::new();
    idx.upsert(srec("a", 1));
    idx.upsert(srec("b", 2));
    assert_eq!(idx.get("a").unwrap().updated_at, 1);
    idx.upsert(srec("a", 9));
    assert_eq!(idx.get("a").unwrap().updated_at, 9);
    assert_eq!(idx.get("b").unwrap().updated_at, 2);
    assert_eq!(idx.list().len(), 2);
    idx.remove("a");
    assert!(idx.get("a").is_none());
    assert_eq!(idx.get("b").unwrap().updated_at, 2);
    idx.remove("missing");
    assert_eq!(idx.list().len(), 1);
}

#[test]
fn load_index_loads_metadata_without_messages() {
    let text = r#"{
        "id": "s-1",
        "name": "indexed-session",
        "project_path": null,
        "created_at": "2024-01-01T00:00:00Z",
        "messages": [
            {"role": "user", "content": "hello"},
            {"role": "assistant", "content": "world"}
        ],
        "status": "Active"
    }"#;
    let rec = index_entry_from_json(text, 99).unwrap();
    assert_eq!(rec.id, "s-1");
    assert_eq!(rec.name, "indexed-session");
    assert_eq!(rec.project_path, None);
    assert_eq!(rec.created_at, 1_704_067_200_000_000);
    assert_eq!(rec.updated_at, 99);
    assert_eq!(rec.status, SessionStatus::Active);
    assert_eq!(rec.lazy_message_count, Some(2));
    assert!(rec.message_contents.is_empty());

    let mut idx = SessionIndex::new();
    assert!(idx.insert_if_absent(rec));
    assert!(idx.needs_hydrate("s-1"));
    assert_eq!(idx.list()[0].message_count, 2);
    // A scan never overwrites what is loaded.
    assert!(!idx.insert_if_absent(srec("s-1", 1)));

    let no_id = SessionFileFields {
        id: Some(String::new()),
        name: None,
        project_path: None,
        created_at: None,
        updated_at: None,
        status: None,
        message_count: None,
    };
    assert!(entry_from_fields(no_id, 0).is_none());
}

#[test]
fn index_entry_from_json_defaults_and_rejections() {
    let rec = index_entry_from_json(r#"{"id":"x","status":"Archived","project_path":"/p","updated_at":"bad"}"#, 7).unwrap();
    assert_eq!(rec.name, "x");
    assert_eq!(rec.status, SessionStatus::Archived);
    assert_eq!(rec.project_path.as_deref(), Some("/p"));
    assert_eq!(rec.created_at, 7);
    assert_eq!(rec.updated_at, 7);
    assert_eq!(rec.lazy_message_count, Some(0));
    let rec = index_entry_from_json(r#"{"id":"y","status":"Sleeping","messages":"none"}"#, 1).unwrap();
    assert_eq!(rec.status, SessionStatus::Active);
    assert_eq!(rec.lazy_message_count, Some(0));
    assert!(index_entry_from_json(r#"{"id":""}"#, 0).is_none());
    assert!(index_entry_from_json(r#"{"name":"no id"}"#, 0).is_none());
    assert!(index_entry_from_json(r#"{"id":5}"#, 0).is_none());
    assert!(index_entry_from_json("not json", 0).is_none());
    assert_eq!(status_from_name("Paused"), Some(SessionStatus::Paused));
    assert_eq!(status_from_name("Error"), Some(SessionStatus::Error));
    assert_eq!(status_from_name("paused"), None);
}

#[test]
fn session_update_outcome_rules() {
    assert_eq!(session_update_outcome(true, None, 3), Err(SessionUpdateConflict::RunActive));
    assert_eq!(
        session_update_outcome(false, Some(2), 3),
        Err(SessionUpdateConflict::VersionConflict { current_version: 3 })
    );
    assert_eq!(session_update_outcome(false, Some(3), 3), Ok(4));
    assert_eq!(session_update_outcome(false, None, 0), Ok(1));
}

#[test]
fn fill_project_and_summary() {
    let mut infos = vec![
        SessionInfo {
            id: "a".into(),
            name: "a".into(),
            project_path: None,
            created_at: 0,
            updated_at: 0,
            message_count: 0,
            status: SessionStatus::Paused,
        },
        SessionInfo {
            id: "b".into(),
            name: "b".into(),
            project_path: Some("/keep".into()),
            created_at: 0,
            updated_at: 0,
            message_count: 0,
            status: SessionStatus::Error,
        },
    ];
    fill_project("/proj", &mut infos);
    assert_eq!(infos[0].project_path.as_deref(), Some("/proj"));
    assert_eq!(infos[1].project_path.as_deref(), Some("/keep"));

    assert_eq!(legacy_summary("short"), "short");
    let long = "x".repeat(100);
    assert_eq!(legacy_summary(&long), format!("{}...", "x".repeat(80)));
    let cjk = "登".repeat(30); // 90 bytes, 30 chars
    assert_eq!(legacy_summary(&cjk), format!("{}...", cjk));
}

#[test]
fn plain_session_types() {
    let d = SessionDiffData { file_path: "a".into(), old_content: "x".into(), new_content: "y".into() };
    assert_eq!(d.clone(), d);
    let t = TurnRecord {
        turn_id: "t".into(),
        created_at: "2025-01-01T00:00:00Z".into(),
        user_summary: "s".into(),
        checkpoint_turn_id: "c".into(),
        message_end_idx: 3,
        file_count: 0,
        committed_messages_end_idx: 2,
    };
    assert_eq!(t.clone(), t);
    assert_eq!(SessionStatus::default(), SessionStatus::Active);
}

#[test]
fn session_time_fields_parse_rfc3339() {
    assert_eq!(parse_time_field(Some("1970-01-01T00:00:01.5Z")), Some(1_500_000));
    assert_eq!(parse_time_field(Some("1970-01-01T01:00:00+01:00")), Some(0));
    assert_eq!(parse_time_field(Some("yesterday")), None);
    assert_eq!(parse_time_field(None), None);
}

fn layout_lines(content: &str) -> Option<Vec<String>> {
    match history_layout(content) {
        HistoryLayout::JsonArray => None,
        HistoryLayout::JsonLines(ls) => Some(ls),
    }
}

#[test]
fn history_layout_tells_array_from_lines() {
    assert!(layout_lines("  \n [ {\"id\":\"a\"} ]").is_none());
    assert_eq!(
        layout_lines("{\"id\":\"a\"}\n\n   \n{\"id\":\"b\"}\n"),
        Some(vec!["{\"id\":\"a\"}".to_string(), "{\"id\":\"b\"}".to_string()])
    );
    assert_eq!(layout_lines("x\r\ny"), Some(vec!["x\r".to_string(), "y".to_string()]));
    assert_eq!(layout_lines(""), Some(vec![]));
    assert_eq!(layout_lines("a[1]"), Some(vec!["a[1]".to_string()]));
}

#[test]
fn field_outcome_sets_only_missing_or_null_paths() {
    assert_eq!(field_outcome(None), SessionReadOutcome::Unparsable);
    assert_eq!(field_outcome(Some(None)), SessionReadOutcome::PathMissingOrNull);
    assert_eq!(field_outcome(Some(Some(true))), SessionReadOutcome::PathMissingOrNull);
    assert_eq!(field_outcome(Some(Some(false))), SessionReadOutcome::PathSet);
}
