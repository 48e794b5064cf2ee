use wgenty_memory::daemon::{
    dry_run_prune, format_error_chain, list_limit, live_elapsed_ms, origin_str,
    parse_delete_origin, scope_keeps, ProgressMark,
};
use wgenty_memory::daemon::{apply_config_update, sse_take_lines, ConfigUpdate, TransportSettings};
use wgenty_memory::daemon::{error_object, sse_error_event, sse_finish, tool_call_step, ToolCallStep, ToolPolicyAnswer};
use wgenty_memory::entry::MemoryOrigin;
use wgenty_memory::pool::MemoryCounts;
use wgenty_memory::daemon::{
    checkpoint_scope, generate_api_token, map_scoped_coordinator_error, presented_token,
    query_token, replay_order, should_emit_live, token_matches, CoordinatorError,
    GlobalEventKind, GlobalSeq, TraceMark, UNAUTHORIZED_MESSAGE,
};
use wgenty_memory::dirs::{
    build_entries, collect_listing, requested_dir, ChildEntry, DirError, DirQuery,
};
use wgenty_memory::lock::{
    lock_content_is_stale, lock_is_stale, next_lock_step, parse_lock_owner,
    parse_u32, CreateOutcome, LockStep,
};

fn mk(ts: i64, sid: &str) -> TraceMark {
    TraceMark { ts, session_id: sid.into() }
}

#[test]
fn token_matches_guards_empty_expected() {
    assert!(token_matches("tok", Some("tok")));
    assert!(!token_matches("tok", Some("other")));
    assert!(!token_matches("tok", None));
    assert!(!token_matches("", Some("")));
    assert!(!token_matches("", None));
}

#[test]
fn presented_token_prefers_header_over_query() {
    assert_eq!(
        presented_token(Some("Bearer htok"), Some("token=qtok")),
        Some("htok".to_string())
    );
}

#[test]
fn presented_token_falls_back_to_query() {
    assert_eq!(presented_token(None, Some("token=qtok")), Some("qtok".to_string()));
    assert_eq!(presented_token(None, Some("session_id=s1")), None);
    assert_eq!(presented_token(None, Some("token=")), Some(String::new()));
    assert_eq!(presented_token(None, None), None);
    // A header without the Bearer prefix does not count.
    assert_eq!(presented_token(Some("Basic abc"), Some("token=q")), Some("q".to_string()));
}

#[test]
fn query_token_takes_first_token_pair() {
    assert_eq!(query_token("a=1&token=x&token=y"), Some("x".to_string()));
    assert_eq!(query_token("tokenx=1&noeq&token=v=w"), Some("v=w".to_string()));
    assert_eq!(query_token(""), None);
    assert_eq!(query_token("token"), None);
}

#[test]
fn generated_tokens_are_32_hex_digits() {
    let t = generate_api_token();
    assert_eq!(t.len(), 32);
    assert!(t.chars().all(|c| c.is_ascii_digit() || ('a'..='f').contains(&c)));
    assert_ne!(t, generate_api_token());
    assert_eq!(UNAUTHORIZED_MESSAGE, "unauthorized: missing or invalid bearer token");
}

fn check_should_emit_live() {
    assert!(should_emit_live(&mk(100, "alpha"), Some("alpha"), 0));
    assert!(!should_emit_live(&mk(100, "beta"), Some("alpha"), 0));
    assert!(should_emit_live(&mk(100, "alpha"), None, 0));
    assert!(should_emit_live(&mk(101, "alpha"), Some("alpha"), 100));
    assert!(!should_emit_live(&mk(100, "alpha"), Some("alpha"), 100));
}

#[test]
fn handlers_should_emit_live_filters_session_and_since() {
    check_should_emit_live();
}

#[test]
fn tests_should_emit_live_filters_session_and_since() {
    check_should_emit_live();
}

fn check_scoped_error() {
    assert_eq!(map_scoped_coordinator_error(CoordinatorError::NotVisible), 404);
    assert_eq!(
        map_scoped_coordinator_error(CoordinatorError::Storage("invariant".to_string())),
        500
    );
}

#[test]
fn handlers_scoped_coordinator_error_preserves_not_found_boundary() {
    check_scoped_error();
}

#[test]
fn tests_scoped_coordinator_error_preserves_not_found_boundary() {
    check_scoped_error();
}

#[test]
fn replay_order_is_chronological_after_since() {
    // Headers come newest first: started at 3000, 2000, 1000.
    assert_eq!(replay_order(&[3000, 2000, 1000], 0), vec![2, 1, 0]);
    assert_eq!(replay_order(&[3000, 2000, 1000], 1000), vec![1, 0]);
    assert!(replay_order(&[], 0).is_empty());
}

#[test]
fn global_event_names_and_sequence() {
    assert_eq!(GlobalEventKind::TodosChanged.wire_name(), "todos_changed");
    assert_eq!(GlobalEventKind::ConfigChanged.wire_name(), "config_changed");
    let mut seq = GlobalSeq::new();
    assert_eq!(seq.next(), 1);
    assert_eq!(seq.next(), 2);
}

#[test]
fn checkpoint_scope_resolution() {
    assert_eq!(checkpoint_scope(None, None), Ok(None));
    assert_eq!(
        checkpoint_scope(Some("p"), Some("/root/p".into())),
        Ok(Some("/root/p".to_string()))
    );
    assert_eq!(
        checkpoint_scope(Some("p"), None),
        Err((400, "not a registered project: p".to_string()))
    );
}

#[test]
fn requested_dir_defaults_to_home_for_blank() {
    assert_eq!(requested_dir(DirQuery { path: None }), None);
    assert_eq!(requested_dir(DirQuery { path: Some("  \t".into()) }), None);
    assert_eq!(
        requested_dir(DirQuery { path: Some(" /tmp".into()) }),
        Some(" /tmp".to_string())
    );
}

#[test]
fn collect_lists_subdirs_only_sorted() {
    let children = vec![
        ChildEntry { name: "zeta".into(), is_dir: true },
        ChildEntry { name: "Alpha".into(), is_dir: true },
        ChildEntry { name: ".hidden".into(), is_dir: true },
        ChildEntry { name: "a-file.txt".into(), is_dir: false },
    ];
    let paths = vec![
        "/t/zeta".to_string(),
        "/t/Alpha".to_string(),
        "/t/.hidden".to_string(),
        "/t/a-file.txt".to_string(),
    ];
    let entries = build_entries(&children, &paths);
    let names: Vec<_> = entries.iter().map(|e| e.name.as_str()).collect();
    assert_eq!(names, vec![".hidden", "Alpha", "zeta"]);
    assert!(entries.iter().find(|e| e.name == ".hidden").unwrap().is_hidden);
    assert!(!entries.iter().find(|e| e.name == "Alpha").unwrap().is_hidden);
    assert_eq!(entries[1].path, "/t/Alpha");
}

#[test]
fn collect_rejects_missing_path() {
    let err = collect_listing(None, false, None, None).err().unwrap();
    assert_eq!(err, DirError::DoesNotExist);
    assert_eq!(err.status(), 400);
    assert_eq!(err.message(), "directory does not exist");
}

#[test]
fn collect_rejects_plain_file() {
    let err = collect_listing(Some("/t/f".into()), false, None, None).err().unwrap();
    assert_eq!(err, DirError::NotADirectory);
    assert_eq!(err.status(), 400);
}

#[test]
fn collect_unreadable_dir_gives_empty_listing() {
    let l = collect_listing(Some("/t".into()), true, Some("/".into()), None).unwrap();
    assert_eq!(l.current, "/t");
    assert_eq!(l.parent, Some("/".to_string()));
    assert!(l.entries.is_empty());
}

#[test]
fn lock_owner_parsing() {
    let (pid, ts) = parse_lock_owner("1234\n2024-01-01T00:00:00Z\n");
    assert_eq!(pid, Some(1234));
    assert_eq!(ts, Some("2024-01-01T00:00:00Z".to_string()));
    let (pid, ts) = parse_lock_owner("  +77 \r\n ts \r\n");
    assert_eq!(pid, Some(77));
    assert_eq!(ts, Some("ts".to_string()));
    assert_eq!(parse_lock_owner(""), (None, None));
    assert_eq!(parse_lock_owner("abc"), (None, None));
    assert_eq!(parse_lock_owner("12\n"), (Some(12), None));
    assert_eq!(parse_u32(&['4', '2', '9', '4', '9', '6', '7', '2', '9', '5']), Some(u32::MAX));
    assert_eq!(parse_u32(&['4', '2', '9', '4', '9', '6', '7', '2', '9', '6']), None);
    assert_eq!(parse_u32(&['+']), None);
    assert_eq!(parse_u32(&['-', '1']), None);
}

#[test]
fn lock_staleness_rules() {
    const S: i64 = 1_000_000;
    assert!(!lock_is_stale(true, None, 0));
    assert!(lock_is_stale(false, None, 0));
    assert!(lock_is_stale(false, Some(0), 1801 * S));
    assert!(!lock_is_stale(false, Some(0), 1801 * S - 1));
    assert!(!lock_is_stale(false, Some(0), 1800 * S));
    assert!(!lock_is_stale(false, Some(5 * S), 0));
    assert!(!lock_content_is_stale("1\n1970-01-01T00:30:00Z\n", false, 3600 * S));
    assert!(lock_content_is_stale("1\n1970-01-01T00:30:00Z\n", false, 3601 * S));
    assert!(!lock_content_is_stale("1\n1970-01-01T00:30:00.5Z\n", false, 3601 * S));
    assert!(!lock_content_is_stale("1\n1970-01-01T01:30:00+01:00\n", false, 3600 * S));
    assert!(lock_content_is_stale("1\nnot a time\n", false, 0));
    assert!(!lock_content_is_stale("1\n1970-01-01T00:00:00Z\n", true, 99999 * S));
    assert!(lock_content_is_stale("1\n1970-01-01T00:00:00Z\n", false, 99999 * S));
    assert!(!lock_content_is_stale("x\n1970-01-01T00:00:00Z\n", false, 60 * S));
    assert!(lock_content_is_stale("garbage", true, 0));
    assert_eq!(next_lock_step(CreateOutcome::Created, false), LockStep::WriteOwner);
    assert_eq!(next_lock_step(CreateOutcome::AlreadyExists, true), LockStep::ReclaimAndRetry);
    assert_eq!(next_lock_step(CreateOutcome::AlreadyExists, false), LockStep::WaitAndRetry);
    assert_eq!(next_lock_step(CreateOutcome::Failed, true), LockStep::Fail);
}

#[test]
fn memory_endpoint_rules() {
    assert_eq!(origin_str(MemoryOrigin::Project), "project");
    assert_eq!(origin_str(MemoryOrigin::Global), "global");
    assert_eq!(parse_delete_origin("global"), Ok(MemoryOrigin::Global));
    assert_eq!(parse_delete_origin(""), Ok(MemoryOrigin::Project));
    assert_eq!(parse_delete_origin("project"), Ok(MemoryOrigin::Project));
    assert_eq!(
        parse_delete_origin("both"),
        Err((400, "invalid origin 'both': expected 'project' or 'global'".to_string()))
    );
    assert!(scope_keeps(Some("project"), MemoryOrigin::Project));
    assert!(!scope_keeps(Some("project"), MemoryOrigin::Global));
    assert!(scope_keeps(Some("all"), MemoryOrigin::Global));
    assert!(scope_keeps(None, MemoryOrigin::Global));
    assert_eq!(list_limit(None), 500);
    assert_eq!(list_limit(Some(0)), 1);
    assert_eq!(list_limit(Some(9000)), 5000);
    assert_eq!(list_limit(Some(7)), 7);
    let c = MemoryCounts {
        total_memories: 5,
        session_count: 0,
        conversation_count: 0,
        knowledge_count: 0,
        project_count: 3,
        global_count: 2,
    };
    let r = dry_run_prune(c);
    assert_eq!((r.before, r.after, r.removed), (5, 5, 0));
    assert_eq!((r.project_before, r.global_after), (3, 2));

    assert_eq!(
        format_error_chain(&["decode".into(), "".into(), "timeout".into()]),
        "decode: timeout"
    );
    assert_eq!(live_elapsed_ms(None, 10), 0);
    let p = ProgressMark { elapsed_ms: 50, started_at: 1000, terminal: false };
    assert_eq!(live_elapsed_ms(Some(p), 1200), 200);
    assert_eq!(live_elapsed_ms(Some(p), 1020), 50);
    assert_eq!(live_elapsed_ms(Some(p), 500), 50);
    let done = ProgressMark { elapsed_ms: 7, started_at: 1, terminal: true };
    assert_eq!(live_elapsed_ms(Some(done), 99999), 7);
}

fn settings() -> TransportSettings {
    TransportSettings {
        max_tokens: 4096,
        timeout: 60,
        streaming: true,
        base_url: Some("https://api.example.com".to_string()),
    }
}

#[test]
fn config_update_checks_and_applies() {
    let none = ConfigUpdate { max_tokens: None, timeout: None, streaming: None, api_base: None };
    let t = apply_config_update(settings(), none).unwrap();
    assert_eq!((t.max_tokens, t.timeout, t.streaming), (4096, 60, true));
    assert_eq!(t.base_url.as_deref(), Some("https://api.example.com"));

    let zero = ConfigUpdate { max_tokens: Some(0), timeout: Some(0), streaming: None, api_base: None };
    assert_eq!(
        apply_config_update(settings(), zero).err(),
        Some((400, "timeout must be > 0".to_string()))
    );

    let all = ConfigUpdate {
        max_tokens: Some(0),
        timeout: Some(120),
        streaming: Some(false),
        api_base: Some("   ".to_string()),
    };
    let t = apply_config_update(settings(), all).unwrap();
    assert_eq!((t.max_tokens, t.timeout, t.streaming), (0, 120, false));
    assert!(t.base_url.is_none());

    let base = ConfigUpdate { max_tokens: None, timeout: None, streaming: None, api_base: Some("http://local".into()) };
    assert_eq!(apply_config_update(settings(), base).unwrap().base_url.as_deref(), Some("http://local"));
}

#[test]
fn sse_lines_are_framed_across_chunks() {
    let mut buf = String::new();
    assert!(sse_take_lines(&mut buf, "data: {\"a\"").is_empty());
    assert_eq!(buf, "data: {\"a\"");
    let out = sse_take_lines(&mut buf, ":1}\n\n  \ndata: [DONE]\r\nplain\nda");
    assert_eq!(out, vec!["{\"a\":1}", "[DONE]", "plain"]);
    assert_eq!(buf, "da");
    let out = sse_take_lines(&mut buf, "ta: x\n");
    assert_eq!(out, vec!["x"]);
    assert_eq!(buf, "");
}

fn relay(chunks: &[&str]) -> Vec<String> {
    let mut buf = String::new();
    let mut events = Vec::new();
    for c in chunks {
        events.extend(sse_take_lines(&mut buf, c));
    }
    events.extend(sse_finish(&buf, None));
    events
}

#[test]
fn sse_events_do_not_depend_on_chunking() {
    let body = "data: {\"a\":1}\n\ndata: {\"b\":2}\r\n  \ndata: [DONE]";
    let whole = relay(&[body]);
    assert_eq!(whole, vec!["{\"a\":1}", "{\"b\":2}", "[DONE]", "[DONE]"]);
    let chars: Vec<String> = body.chars().map(|c| c.to_string()).collect();
    let refs: Vec<&str> = chars.iter().map(|s| s.as_str()).collect();
    assert_eq!(relay(&refs), whole);
    assert_eq!(relay(&["data: {\"a\"", ":1}\n", "\ndata: {\"b\":2}\r", "\n  \ndata: [DO", "NE]"]), whole);
}

#[test]
fn sse_finish_flushes_the_last_line_then_done() {
    assert_eq!(sse_finish("  data: tail  ", None), vec!["tail", "[DONE]"]);
    assert_eq!(sse_finish("   ", None), vec!["[DONE]"]);
    assert_eq!(sse_finish("", None), vec!["[DONE]"]);
}

#[test]
fn sse_finish_after_a_failure_sends_only_the_error() {
    assert_eq!(
        sse_finish("data: partial", Some("Upstream stream interrupted: reset")),
        vec!["{\"error\":\"Upstream stream interrupted: reset\"}"]
    );
    assert_eq!(sse_error_event("say \"hi\"\n"), "{\"error\":\"say \\\"hi\\\"\\n\"}");
}

#[test]
fn tool_call_step_follows_the_policy() {
    assert_eq!(tool_call_step(ToolPolicyAnswer::Allow, false, false), ToolCallStep::Execute);
    assert_eq!(tool_call_step(ToolPolicyAnswer::Ask, false, false), ToolCallStep::RequirePermission);
    assert_eq!(tool_call_step(ToolPolicyAnswer::Ask, true, false), ToolCallStep::Execute);
    assert_eq!(tool_call_step(ToolPolicyAnswer::Ask, false, true), ToolCallStep::Execute);
    assert_eq!(tool_call_step(ToolPolicyAnswer::Rejected, true, true), ToolCallStep::Refuse);
}

#[test]
fn error_object_wraps_a_quoted_message() {
    assert_eq!(error_object("\"boom\""), "{\"error\":\"boom\"}");
}
