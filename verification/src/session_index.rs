//! The in-memory session index: what is known of each saved session, keyed
//! by id, and the listings and searches built on it.
//!
//! An entry loaded from the index scan holds metadata only (its messages are
//! not read; the real count is kept aside) and must be hydrated from disk
//! before it is changed. Times are unix microseconds.
use vstd::prelude::*;
use crate::text::{chars_of, contains_chars, contains_seq, lowercase_chars, lowercase_of, str_eq};

verus! {

broadcast use vstd::seq_lib::group_seq_properties;

/// Lifecycle state of a session.
#[derive(Clone, Copy, Debug, PartialEq, Eq, Structural)]
pub enum SessionStatus {
    Active,
    Paused,
    Archived,
    Error,
}

impl SessionStatus {
    /// The variant's name, as responses show it.
    pub fn name(&self) -> (r: &'static str)
        ensures
            *self == SessionStatus::Active ==> r@ == "Active"@,
            *self == SessionStatus::Paused ==> r@ == "Paused"@,
            *self == SessionStatus::Archived ==> r@ == "Archived"@,
            *self == SessionStatus::Error ==> r@ == "Error"@,
    {
        match self {
            SessionStatus::Active => "Active",
            SessionStatus::Paused => "Paused",
            SessionStatus::Archived => "Archived",
            SessionStatus::Error => "Error",
        }
    }
}

impl Default for SessionStatus {
    fn default() -> (r: Self)
        ensures
            r == SessionStatus::Active,
    {
        SessionStatus::Active
    }
}

/// Diff payload of a displayed tool result: a file and its text before and
/// after the edit.
#[derive(Clone, Debug, PartialEq, Eq)]
pub struct SessionDiffData {
    pub file_path: String,
    pub old_content: String,
    pub new_content: String,
}

/// What the index holds of one session.
#[derive(Clone, Debug)]
pub struct SessionRecord {
    pub id: String,
    pub name: String,
    pub project_path: Option<String>,
    pub created_at: i64,
    pub updated_at: i64,
    /// The text of each message, in order (empty for an index-only entry).
    pub message_contents: Vec<String>,
    pub status: SessionStatus,
    /// `Some(n)`: loaded from the index scan, messages not read, `n` of them.
    pub lazy_message_count: Option<usize>,
}

/// A session as listed: metadata and its message count.
#[derive(Clone, Debug)]
pub struct SessionInfo {
    pub id: String,
    pub name: String,
    pub project_path: Option<String>,
    pub created_at: i64,
    pub updated_at: i64,
    pub message_count: usize,
    pub status: SessionStatus,
}

/// The fields an index scan could read from a session file; `None` where
/// the field is absent or not of the expected kind.
pub struct SessionFileFields {
    pub id: Option<String>,
    pub name: Option<String>,
    pub project_path: Option<String>,
    pub created_at: Option<i64>,
    pub updated_at: Option<i64>,
    pub status: Option<SessionStatus>,
    /// Length of the `messages` array.
    pub message_count: Option<usize>,
}

/// The number of messages a listing shows.
pub open spec fn message_count_spec(r: SessionRecord) -> usize {
    match r.lazy_message_count {
        Some(n) => n,
        None => r.message_contents@.len() as usize,
    }
}

pub open spec fn info_of(r: SessionRecord) -> SessionInfo {
    SessionInfo {
        id: r.id,
        name: r.name,
        project_path: r.project_path,
        created_at: r.created_at,
        updated_at: r.updated_at,
        message_count: message_count_spec(r),
        status: r.status,
    }
}

/// What `chrono::DateTime::parse_from_rfc3339` gives for this text, as unix
/// microseconds (`DateTime::timestamp_micros`); `None` when it does not
/// parse.
pub uninterp spec fn rfc3339_micros(s: Seq<char>) -> Option<i64>;

/// Parses an RFC 3339 time stamp with `chrono::DateTime::parse_from_rfc3339`
/// and returns its unix microseconds (`DateTime::timestamp_micros`).
/// Trusted: the answer depends on the text alone (the offset is part of
/// it); nothing more is claimed of it.
#[verifier::external_body]
fn rfc3339_to_micros(s: &str) -> (r: Option<i64>)
    ensures
        r == rfc3339_micros(s@),
{
    chrono::DateTime::parse_from_rfc3339(s).ok().map(|t| t.timestamp_micros())
}

/// A time field of a session file: `None` when it is absent or is not an
/// RFC 3339 time stamp, else its unix microseconds.
pub fn parse_time_field(raw: Option<&str>) -> (r: Option<i64>)
    ensures
        r == match raw {
            Some(t) => rfc3339_micros(t@),
            None => None,
        },
{
    match raw {
        Some(t) => rfc3339_to_micros(t),
        None => None,
    }
}

/// A scanned session file yields an index entry: it has a non-empty id.
pub open spec fn has_usable_id(f: SessionFileFields) -> bool {
    f.id is Some && f.id->0@.len() > 0
}

/// `r` is the index entry for a scanned session file: a missing name is the
/// id, missing times are `now`, a missing status is `Active`, no message is
/// loaded and the message count is kept aside (0 when absent).
pub open spec fn entry_from_fields_spec(f: SessionFileFields, now: i64, r: SessionRecord) -> bool {
    &&& r.id@ == f.id->0@
    &&& r.name@ == match f.name {
        Some(n) => n@,
        None => f.id->0@,
    }
    &&& r.project_path == f.project_path
    &&& r.created_at == match f.created_at {
        Some(t) => t,
        None => now,
    }
    &&& r.updated_at == match f.updated_at {
        Some(t) => t,
        None => now,
    }
    &&& r.message_contents@.len() == 0
    &&& r.status == match f.status {
        Some(s) => s,
        None => SessionStatus::Active,
    }
    &&& r.lazy_message_count == Some(
        match f.message_count {
            Some(n) => n,
            None => 0usize,
        },
    )
}

/// Build the metadata-only index entry of a scanned session file.
pub fn entry_from_fields(f: SessionFileFields, now: i64) -> (r: Option<SessionRecord>)
    ensures
        r is Some <==> has_usable_id(f),
        r matches Some(a) ==> entry_from_fields_spec(f, now, a),
{
    let id = match f.id {
        Some(id) => id,
        None => return None,
    };
    if id.as_str().is_empty() {
        return None;
    }
    let name = match f.name {
        Some(n) => n,
        None => id.clone(),
    };
    Some(
        SessionRecord {
            id,
            name,
            project_path: f.project_path,
            created_at: match f.created_at {
                Some(t) => t,
                None => now,
            },
            updated_at: match f.updated_at {
                Some(t) => t,
                None => now,
            },
            message_contents: Vec::new(),
            status: match f.status {
                Some(s) => s,
                None => SessionStatus::Active,
            },
            lazy_message_count: Some(
                match f.message_count {
                    Some(n) => n,
                    None => 0,
                },
            ),
        },
    )
}

/// The raw fields of a session file as `serde_json` reads them: each text
/// field when present and a JSON string, and the length of `messages` when
/// it is an array.
pub struct SessionJsonFields {
    pub id: Option<String>,
    pub name: Option<String>,
    pub project_path: Option<String>,
    pub created_at: Option<String>,
    pub updated_at: Option<String>,
    pub status: Option<String>,
    pub message_count: Option<usize>,
}

/// What `serde_json` reads from a session file's text: `None` when it is
/// not JSON; otherwise, in order, the string fields `id`, `name`,
/// `project_path`, `created_at`, `updated_at`, `status` (`None` where absent
/// or not a string) and the length of the `messages` array.
pub uninterp spec fn json_session_fields(text: Seq<char>) -> Option<(
    Option<Seq<char>>,
    Option<Seq<char>>,
    Option<Seq<char>>,
    Option<Seq<char>>,
    Option<Seq<char>>,
    Option<Seq<char>>,
    Option<nat>,
)>;

pub open spec fn opt_text(o: Option<String>) -> Option<Seq<char>> {
    match o {
        Some(t) => Some(t@),
        None => None,
    }
}

pub open spec fn json_fields_view(f: SessionJsonFields) -> (
    Option<Seq<char>>,
    Option<Seq<char>>,
    Option<Seq<char>>,
    Option<Seq<char>>,
    Option<Seq<char>>,
    Option<Seq<char>>,
    Option<nat>,
) {
    (
        opt_text(f.id),
        opt_text(f.name),
        opt_text(f.project_path),
        opt_text(f.created_at),
        opt_text(f.updated_at),
        opt_text(f.status),
        match f.message_count {
            Some(n) => Some(n as nat),
            None => None,
        },
    )
}

/// Parses a session file's text as a `serde_json::Value` (`from_str`) and
/// reads its fields with `Value::get`, `Value::as_str` and
/// `Value::as_array`. The contract claims only that the answer depends on
/// the text alone and is the one named by `json_session_fields`.
#[verifier::external_body]
fn session_fields_from_json(text: &str) -> (r: Option<SessionJsonFields>)
    ensures
        json_session_fields(text@) == match r {
            Some(f) => Some(json_fields_view(f)),
            None => None,
        },
{
    let v: serde_json::Value = serde_json::from_str(text).ok()?;
    let s = |k: &str| v.get(k).and_then(|x| x.as_str()).map(str::to_string);
    Some(SessionJsonFields {
        id: s("id"),
        name: s("name"),
        project_path: s("project_path"),
        created_at: s("created_at"),
        updated_at: s("updated_at"),
        status: s("status"),
        message_count: v.get("messages").and_then(|m| m.as_array()).map(|a| a.len()),
    })
}

/// The status a session file names, as serde writes the variants; `None`
/// for any other text.
pub open spec fn status_named(t: Seq<char>) -> Option<SessionStatus> {
    if t == "Active"@ {
        Some(SessionStatus::Active)
    } else if t == "Paused"@ {
        Some(SessionStatus::Paused)
    } else if t == "Archived"@ {
        Some(SessionStatus::Archived)
    } else if t == "Error"@ {
        Some(SessionStatus::Error)
    } else {
        None
    }
}

/// The status named by `t` (`Active`, `Paused`, `Archived` or `Error`).
pub fn status_from_name(t: &str) -> (r: Option<SessionStatus>)
    ensures
        r == status_named(t@),
{
    if str_eq(t, "Active") {
        Some(SessionStatus::Active)
    } else if str_eq(t, "Paused") {
        Some(SessionStatus::Paused)
    } else if str_eq(t, "Archived") {
        Some(SessionStatus::Archived)
    } else if str_eq(t, "Error") {
        Some(SessionStatus::Error)
    } else {
        None
    }
}

/// A session file's text yields an index entry: it is JSON with a
/// non-empty string `id`.
pub open spec fn json_has_usable_id(text: Seq<char>) -> bool {
    match json_session_fields(text) {
        Some((Some(id), _, _, _, _, _, _)) => id.len() > 0,
        _ => false,
    }
}

/// `r` is the index entry read from a session file's text: the id; the
/// name, or the id when it has none; the project path; each time stamp
/// that parses as RFC 3339, else `now`; the named status, else `Active`;
/// no message loaded and the length of `messages` kept aside (0 when
/// absent).
pub open spec fn json_entry_spec(text: Seq<char>, now: i64, r: SessionRecord) -> bool {
    let (id, name, project_path, created_at, updated_at, status, messages) = json_session_fields(
        text,
    )->0;
    &&& r.id@ == id->0
    &&& r.name@ == match name {
        Some(n) => n,
        None => id->0,
    }
    &&& opt_text(r.project_path) == project_path
    &&& r.created_at == match created_at {
        Some(t) => match rfc3339_micros(t) {
            Some(m) => m,
            None => now,
        },
        None => now,
    }
    &&& r.updated_at == match updated_at {
        Some(t) => match rfc3339_micros(t) {
            Some(m) => m,
            None => now,
        },
        None => now,
    }
    &&& r.message_contents@.len() == 0
    &&& r.status == match status {
        Some(t) => match status_named(t) {
            Some(st) => st,
            None => SessionStatus::Active,
        },
        None => SessionStatus::Active,
    }
    &&& r.lazy_message_count is Some
    &&& r.lazy_message_count->0 as nat == match messages {
        Some(n) => n,
        None => 0nat,
    }
}

/// The metadata-only index entry of a session file, read from its text
/// (the index scan at start-up); `None` when the text is not JSON or has no
/// non-empty string `id`.
pub fn index_entry_from_json(text: &str, now: i64) -> (r: Option<SessionRecord>)
    ensures
        r is Some <==> json_has_usable_id(text@),
        r matches Some(a) ==> json_entry_spec(text@, now, a),
{
    let raw = match session_fields_from_json(text) {
        Some(f) => f,
        None => return None,
    };
    let status = match &raw.status {
        Some(t) => status_from_name(t.as_str()),
        None => None,
    };
    let created_at = match &raw.created_at {
        Some(t) => parse_time_field(Some(t.as_str())),
        None => None,
    };
    let updated_at = match &raw.updated_at {
        Some(t) => parse_time_field(Some(t.as_str())),
        None => None,
    };
    let fields = SessionFileFields {
        id: raw.id,
        name: raw.name,
        project_path: raw.project_path,
        created_at,
        updated_at,
        status,
        message_count: raw.message_count,
    };
    entry_from_fields(fields, now)
}

/// One interactive turn, kept with a session for `/undo`: which checkpoint
/// to rewind to, where the turn's messages end, how many files it edited.
#[derive(Clone, Debug, PartialEq, Eq)]
pub struct TurnRecord {
    pub turn_id: String,
    /// ISO-8601 creation time.
    pub created_at: String,
    /// First sentence of the user's input.
    pub user_summary: String,
    /// Checkpoint taken before this turn's edits.
    pub checkpoint_turn_id: String,
    /// Length of the conversation history when the turn completed.
    pub message_end_idx: usize,
    /// Files edited during the turn (0: conversation only).
    pub file_count: usize,
    /// Length of the displayed transcript when the turn completed.
    pub committed_messages_end_idx: usize,
}

/// The listing summary of a legacy session: its first user message, cut
/// to 80 characters with `...` appended when it is longer than 80 bytes.
pub open spec fn legacy_summary_spec(text: Seq<char>) -> Seq<char> {
    if crate::text::utf8_len(text) > 80 {
        (if text.len() > 80 {
            text.take(80)
        } else {
            text
        }) + seq!['.', '.', '.']
    } else {
        text
    }
}

pub fn legacy_summary(text: &str) -> (r: String)
    ensures
        r@ == legacy_summary_spec(text@),
{
    let v = chars_of(text);
    if crate::text::utf8_len_at_least(v.as_slice(), 81) {
        let n = if v.len() > 80 {
            80
        } else {
            v.len()
        };
        let mut cut = crate::text::slice_chars(v.as_slice(), 0, n);
        cut.push('.');
        cut.push('.');
        cut.push('.');
        assert(v@.subrange(0, 80) =~= v@.take(80));
        assert(v@.subrange(0, v@.len() as int) =~= v@);
        crate::text::string_from_chars(cut.as_slice())
    } else {
        text.to_owned()
    }
}

// ── Listing and search ─────────────────────────────────────────────────

/// Insert `x` into a newest-first list just after the last entry updated no
/// earlier than `x` (equal times keep their arrival order).
pub open spec fn insert_by_updated(sorted: Seq<SessionInfo>, x: SessionInfo) -> Seq<SessionInfo>
    decreases sorted.len(),
{
    if sorted.len() == 0 {
        seq![x]
    } else if sorted.last().updated_at >= x.updated_at {
        sorted.push(x)
    } else {
        insert_by_updated(sorted.drop_last(), x).push(sorted.last())
    }
}

/// The infos of `entries[..n]`, stably sorted newest first.
pub open spec fn sorted_infos(entries: Seq<SessionRecord>, n: int) -> Seq<SessionInfo>
    decreases n,
{
    if n <= 0 {
        seq![]
    } else {
        insert_by_updated(sorted_infos(entries, n - 1), info_of(entries[n - 1]))
    }
}

/// A session matches a lower-cased query: its lower-cased name, or the
/// lower-cased text of one of its messages, contains the query.
pub open spec fn session_matches(r: SessionRecord, q: Seq<char>) -> bool {
    contains_seq(lowercase_of(r.name@), q) || exists|k: int|
        0 <= k < r.message_contents@.len() && contains_seq(
            lowercase_of(#[trigger] r.message_contents@[k]@),
            q,
        )
}

/// The infos of the entries among `entries[..n]` that match `q`, in order.
pub open spec fn matching_infos(entries: Seq<SessionRecord>, q: Seq<char>, n: int) -> Seq<SessionInfo>
    decreases n,
{
    if n <= 0 {
        seq![]
    } else if session_matches(entries[n - 1], q) {
        matching_infos(entries, q, n - 1).push(info_of(entries[n - 1]))
    } else {
        matching_infos(entries, q, n - 1)
    }
}

proof fn lemma_insert_updated_at(sorted: Seq<SessionInfo>, x: SessionInfo, j: int)
    requires
        0 <= j <= sorted.len(),
        forall|i: int| j <= i < sorted.len() ==> (#[trigger] sorted[i]).updated_at < x.updated_at,
        j > 0 ==> sorted[j - 1].updated_at >= x.updated_at,
    ensures
        insert_by_updated(sorted, x) == sorted.take(j).push(x) + sorted.skip(j),
    decreases sorted.len(),
{
    if sorted.len() == 0 {
        assert(sorted.take(j).push(x) + sorted.skip(j) =~= seq![x]);
    } else if j == sorted.len() {
        assert(sorted.take(j) =~= sorted);
        assert(sorted.take(j).push(x) + sorted.skip(j) =~= sorted.push(x));
    } else {
        let d = sorted.drop_last();
        assert(sorted[sorted.len() - 1].updated_at < x.updated_at);
        assert forall|i: int| j <= i < d.len() implies (#[trigger] d[i]).updated_at < x.updated_at by {
            assert(d[i] == sorted[i]);
        }
        lemma_insert_updated_at(d, x, j);
        assert(d.take(j) =~= sorted.take(j));
        assert((d.take(j).push(x) + d.skip(j)).push(sorted.last()) =~= sorted.take(j).push(x)
            + sorted.skip(j));
    }
}

fn clone_opt_string(o: &Option<String>) -> (r: Option<String>)
    ensures
        r == *o,
{
    match o {
        Some(s) => Some(s.clone()),
        None => None,
    }
}

fn info_of_exec(r: &SessionRecord) -> (i: SessionInfo)
    ensures
        i == info_of(*r),
{
    SessionInfo {
        id: r.id.clone(),
        name: r.name.clone(),
        project_path: clone_opt_string(&r.project_path),
        created_at: r.created_at,
        updated_at: r.updated_at,
        message_count: match r.lazy_message_count {
            Some(n) => n,
            None => r.message_contents.len(),
        },
        status: r.status,
    }
}

fn any_contains_lower(texts: &Vec<String>, q: &[char]) -> (r: bool)
    ensures
        r == exists|k: int|
            0 <= k < texts@.len() && contains_seq(lowercase_of(#[trigger] texts@[k]@), q@),
{
    let mut k: usize = 0;
    while k < texts.len()
        invariant
            k <= texts@.len(),
            forall|j: int| 0 <= j < k ==> !contains_seq(lowercase_of(#[trigger] texts@[j]@), q@),
        decreases texts.len() - k,
    {
        let c = chars_of(texts[k].as_str());
        let l = lowercase_chars(c.as_slice());
        if contains_chars(l.as_slice(), q) {
            return true;
        }
        k += 1;
    }
    false
}

// ── Daemon session requests ────────────────────────────────────────────

/// `new` is `old` with a missing project path set to `root`.
pub open spec fn filled_with(old: SessionInfo, root: Seq<char>, new: SessionInfo) -> bool {
    match old.project_path {
        Some(_) => new == old,
        None => new.project_path is Some && new.project_path->0@ == root && new == (SessionInfo {
            project_path: new.project_path,
            ..old
        }),
    }
}

/// Sessions listed from a registered project's store that lack a project
/// path are grouped under that project's root.
pub fn fill_project(root: &str, sessions: &mut Vec<SessionInfo>)
    ensures
        final(sessions)@.len() == old(sessions)@.len(),
        forall|i: int|
            0 <= i < old(sessions)@.len() ==> filled_with(old(sessions)@[i], root@, #[trigger] final(sessions)@[i]),
{
    let mut i: usize = 0;
    while i < sessions.len()
        invariant
            i <= sessions@.len(),
            sessions@.len() == old(sessions)@.len(),
            forall|k: int| i <= k < sessions@.len() ==> #[trigger] sessions@[k] == old(sessions)@[k],
            forall|k: int| 0 <= k < i ==> filled_with(old(sessions)@[k], root@, #[trigger] sessions@[k]),
        decreases sessions.len() - i,
    {
        if sessions[i].project_path.is_none() {
            sessions[i].project_path = Some(root.to_owned());
        }
        i += 1;
    }
}

/// Why a session update is refused (HTTP 409).
#[derive(Clone, Copy, Debug, PartialEq, Eq, Structural)]
pub enum SessionUpdateConflict {
    /// A run is active on the session.
    RunActive,
    /// The caller's expected version is not the stored one.
    VersionConflict { current_version: u64 },
}

/// Whether a session update may proceed: not while a run is active, nor when the
/// caller names an expected revision number that is not the stored one;
/// else the number the saved session gets (the stored one plus one).
pub fn session_update_outcome(run_active: bool, expected_version: Option<u64>, current_version: u64) -> (r: Result<u64, SessionUpdateConflict>)
    requires
        current_version < u64::MAX,
    ensures
        run_active ==> r == Err::<u64, SessionUpdateConflict>(SessionUpdateConflict::RunActive),
        !run_active && (expected_version matches Some(v) && v != current_version) ==> r == Err::<
            u64,
            SessionUpdateConflict,
        >(SessionUpdateConflict::VersionConflict { current_version }),
        !run_active && !(expected_version matches Some(v) && v != current_version) ==> r == Ok::<
            u64,
            SessionUpdateConflict,
        >((current_version + 1) as u64),
{
    if run_active {
        return Err(SessionUpdateConflict::RunActive);
    }
    match expected_version {
        Some(v) => {
            if v != current_version {
                return Err(SessionUpdateConflict::VersionConflict { current_version });
            }
        },
        None => {},
    }
    Ok(current_version + 1)
}

// ── The index ──────────────────────────────────────────────────────────

/// Position of the entry with id `id`, if any.
pub open spec fn index_of(s: Seq<SessionRecord>, id: Seq<char>) -> Option<int>
    decreases s.len(),
{
    if s.len() == 0 {
        None
    } else if s.last().id@ == id {
        Some(s.len() - 1)
    } else {
        index_of(s.drop_last(), id)
    }
}

pub open spec fn unique_ids(s: Seq<SessionRecord>) -> bool {
    forall|i: int, j: int| 0 <= i < j < s.len() ==> (#[trigger] s[i]).id@ != (#[trigger] s[j]).id@
}

/// The entry with id `id`, if any.
pub open spec fn lookup(s: Seq<SessionRecord>, id: Seq<char>) -> Option<SessionRecord> {
    match index_of(s, id) {
        Some(i) => Some(s[i]),
        None => None,
    }
}

/// `s` with `rec` replacing the entry of its id, or appended when there is
/// none.
pub open spec fn upserted(s: Seq<SessionRecord>, rec: SessionRecord) -> Seq<SessionRecord> {
    match index_of(s, rec.id@) {
        Some(i) => s.update(i, rec),
        None => s.push(rec),
    }
}

/// `s` without the entry of id `id`.
pub open spec fn removed(s: Seq<SessionRecord>, id: Seq<char>) -> Seq<SessionRecord> {
    match index_of(s, id) {
        Some(i) => s.remove(i),
        None => s,
    }
}

proof fn lemma_index_of(s: Seq<SessionRecord>, id: Seq<char>)
    ensures
        match index_of(s, id) {
            Some(i) => 0 <= i < s.len() && s[i].id@ == id && forall|j: int|
                i < j < s.len() ==> (#[trigger] s[j]).id@ != id,
            None => forall|j: int| 0 <= j < s.len() ==> (#[trigger] s[j]).id@ != id,
        },
    decreases s.len(),
{
    if s.len() > 0 {
        let d = s.drop_last();
        lemma_index_of(d, id);
        assert forall|j: int| 0 <= j < d.len() implies d[j] == s[j] by {}
    }
}

proof fn lemma_index_of_unique(s: Seq<SessionRecord>, id: Seq<char>, k: int)
    requires
        unique_ids(s),
        0 <= k < s.len(),
        s[k].id@ == id,
    ensures
        index_of(s, id) == Some(k),
{
    lemma_index_of(s, id);
    match index_of(s, id) {
        Some(i) => {
            if i != k {
                if i < k {
                    assert(s[i].id@ != s[k].id@);
                } else {
                    assert(s[k].id@ != s[i].id@);
                }
            }
        },
        None => {
            assert(s[k].id@ != id);
        },
    }
}

/// Sessions by id; ids are unique.
pub struct SessionIndex {
    entries: Vec<SessionRecord>,
}

impl SessionIndex {
    /// The entries, in the order they were first inserted.
    pub closed spec fn view(&self) -> Seq<SessionRecord> {
        self.entries@
    }

    pub closed spec fn wf(&self) -> bool {
        unique_ids(self.entries@)
    }

    pub fn new() -> (r: SessionIndex)
        ensures
            r.wf(),
            r@.len() == 0,
    {
        SessionIndex { entries: Vec::new() }
    }

    fn find(&self, id: &str) -> (r: Option<usize>)
        requires
            self.wf(),
        ensures
            match r {
                Some(i) => index_of(self@, id@) == Some(i as int),
                None => index_of(self@, id@) is None,
            },
    {
        let mut i: usize = 0;
        while i < self.entries.len()
            invariant
                i <= self.entries@.len(),
                unique_ids(self.entries@),
                forall|j: int| 0 <= j < i ==> (#[trigger] self.entries@[j]).id@ != id@,
            decreases self.entries.len() - i,
        {
            if str_eq(self.entries[i].id.as_str(), id) {
                proof {
                    lemma_index_of_unique(self.entries@, id@, i as int);
                }
                return Some(i);
            }
            i += 1;
        }
        proof {
            lemma_index_of(self.entries@, id@);
            if index_of(self.entries@, id@) is Some {
                let k = index_of(self.entries@, id@)->0;
                assert(self.entries@[k].id@ != id@);
            }
        }
        None
    }

    /// The entry with this id.
    pub fn get(&self, id: &str) -> (r: Option<&SessionRecord>)
        requires
            self.wf(),
        ensures
            match index_of(self@, id@) {
                Some(i) => r == Some(&self@[i]),
                None => r is None,
            },
    {
        match self.find(id) {
            Some(i) => {
                proof {
                    lemma_index_of(self@, id@);
                }
                Some(&self.entries[i])
            },
            None => None,
        }
    }

    /// Whether the entry with this id is index-only and must be read from
    /// disk before it is used or changed.
    pub fn needs_hydrate(&self, id: &str) -> (r: bool)
        requires
            self.wf(),
        ensures
            r == match index_of(self@, id@) {
                Some(i) => self@[i].lazy_message_count is Some,
                None => false,
            },
    {
        match self.find(id) {
            Some(i) => {
                proof {
                    lemma_index_of(self@, id@);
                }
                self.entries[i].lazy_message_count.is_some()
            },
            None => false,
        }
    }

    /// Insert or replace the entry with `rec`'s id (a save or a load).
    pub fn upsert(&mut self, rec: SessionRecord)
        requires
            old(self).wf(),
        ensures
            final(self).wf(),
            final(self)@ == upserted(old(self)@, rec),
    {
        proof {
            lemma_index_of(self@, rec.id@);
        }
        match self.find(rec.id.as_str()) {
            Some(i) => {
                proof {
                    lemma_index_of(self@, rec.id@);
                }
                let ghost pre = self.entries@;
                self.entries.set(i, rec);
                assert forall|a: int, b: int| 0 <= a < b < self.entries@.len() implies (
                #[trigger] self.entries@[a]).id@ != (#[trigger] self.entries@[b]).id@ by {
                    if a != i as int && b != i as int {
                        assert(pre[a].id@ != pre[b].id@);
                    }
                }
            },
            None => {
                let ghost pre = self.entries@;
                self.entries.push(rec);
                assert forall|a: int, b: int| 0 <= a < b < self.entries@.len() implies (
                #[trigger] self.entries@[a]).id@ != (#[trigger] self.entries@[b]).id@ by {
                    if b < pre.len() {
                        assert(pre[a].id@ != pre[b].id@);
                    } else {
                        assert(pre[a].id@ != rec.id@);
                    }
                }
            },
        }
    }

    /// Insert `rec` unless an entry with its id is already there (a scan of
    /// the sessions directory never overwrites what is loaded). Returns
    /// whether it was inserted.
    pub fn insert_if_absent(&mut self, rec: SessionRecord) -> (r: bool)
        requires
            old(self).wf(),
        ensures
            final(self).wf(),
            r == (index_of(old(self)@, rec.id@) is None),
            r ==> final(self)@ == old(self)@.push(rec),
            !r ==> final(self)@ == old(self)@,
    {
        proof {
            lemma_index_of(self@, rec.id@);
        }
        match self.find(rec.id.as_str()) {
            Some(_) => false,
            None => {
                let ghost pre = self.entries@;
                self.entries.push(rec);
                assert forall|a: int, b: int| 0 <= a < b < self.entries@.len() implies (
                #[trigger] self.entries@[a]).id@ != (#[trigger] self.entries@[b]).id@ by {
                    if b < pre.len() {
                        assert(pre[a].id@ != pre[b].id@);
                    } else {
                        assert(pre[a].id@ != rec.id@);
                    }
                }
                true
            },
        }
    }

    /// Drop the entry with this id, if any.
    pub fn remove(&mut self, id: &str)
        requires
            old(self).wf(),
        ensures
            final(self).wf(),
            final(self)@ == removed(old(self)@, id@),
    {
        match self.find(id) {
            Some(i) => {
                proof {
                    lemma_index_of(self@, id@);
                }
                let ghost pre = self.entries@;
                self.entries.remove(i);
                assert forall|a: int, b: int| 0 <= a < b < self.entries@.len() implies (
                #[trigger] self.entries@[a]).id@ != (#[trigger] self.entries@[b]).id@ by {
                    let pa = if a < i { a } else { a + 1 };
                    let pb = if b < i { b } else { b + 1 };
                    assert(self.entries@[a] == pre[pa]);
                    assert(self.entries@[b] == pre[pb]);
                    assert(pre[pa].id@ != pre[pb].id@);
                }
            },
            None => {},
        }
    }

    /// Append a message to a loaded (not index-only) entry and stamp it
    /// updated at `now`. Returns whether the entry exists.
    pub fn add_message(&mut self, id: &str, content: String, now: i64) -> (r: bool)
        requires
            old(self).wf(),
        ensures
            final(self).wf(),
            r == (index_of(old(self)@, id@) is Some),
            match index_of(old(self)@, id@) {
                Some(i) => final(self)@ == old(self)@.update(
                    i,
                    SessionRecord {
                        message_contents: final(self)@[i].message_contents,
                        updated_at: now,
                        ..old(self)@[i]
                    },
                ) && final(self)@[i].message_contents@ == old(self)@[i].message_contents@.push(
                    content,
                ),
                None => final(self)@ == old(self)@,
            },
    {
        match self.find(id) {
            Some(i) => {
                proof {
                    lemma_index_of(self@, id@);
                }
                let ghost pre = self.entries@;
                self.entries[i].message_contents.push(content);
                self.entries[i].updated_at = now;
                assert forall|a: int, b: int| 0 <= a < b < self.entries@.len() implies (
                #[trigger] self.entries@[a]).id@ != (#[trigger] self.entries@[b]).id@ by {
                    assert(pre[a].id@ != pre[b].id@);
                }
                true
            },
            None => false,
        }
    }

    /// Mark an entry archived. Returns whether the entry exists.
    pub fn archive(&mut self, id: &str) -> (r: bool)
        requires
            old(self).wf(),
        ensures
            final(self).wf(),
            r == (index_of(old(self)@, id@) is Some),
            match index_of(old(self)@, id@) {
                Some(i) => final(self)@ == old(self)@.update(
                    i,
                    SessionRecord { status: SessionStatus::Archived, ..old(self)@[i] },
                ),
                None => final(self)@ == old(self)@,
            },
    {
        match self.find(id) {
            Some(i) => {
                proof {
                    lemma_index_of(self@, id@);
                }
                let ghost pre = self.entries@;
                self.entries[i].status = SessionStatus::Archived;
                assert forall|a: int, b: int| 0 <= a < b < self.entries@.len() implies (
                #[trigger] self.entries@[a]).id@ != (#[trigger] self.entries@[b]).id@ by {
                    assert(pre[a].id@ != pre[b].id@);
                }
                true
            },
            None => false,
        }
    }

    /// All sessions, most recently updated first (equal times in index
    /// order), each with its message count.
    pub fn list(&self) -> (r: Vec<SessionInfo>)
        ensures
            r@ == sorted_infos(self@, self@.len() as int),
    {
        let mut out: Vec<SessionInfo> = Vec::new();
        let mut n: usize = 0;
        while n < self.entries.len()
            invariant
                n <= self.entries@.len(),
                out@ == sorted_infos(self.entries@, n as int),
            decreases self.entries.len() - n,
        {
            let x = info_of_exec(&self.entries[n]);
            let mut j = out.len();
            while j > 0 && out[j - 1].updated_at < x.updated_at
                invariant
                    j <= out@.len(),
                    forall|i: int| j <= i < out@.len() ==> (#[trigger] out@[i]).updated_at < x.updated_at,
                decreases j,
            {
                j -= 1;
            }
            proof {
                lemma_insert_updated_at(out@, x, j as int);
            }
            let ghost before = out@;
            out.insert(j, x);
            assert(out@ =~= before.take(j as int).push(x) + before.skip(j as int));
            n += 1;
        }
        out
    }

    /// The sessions whose name or message text contains `query`, compared
    /// lower-cased, in index order.
    pub fn search(&self, query: &str) -> (r: Vec<SessionInfo>)
        ensures
            r@ == matching_infos(self@, lowercase_of(query@), self@.len() as int),
    {
        let qc = chars_of(query);
        let q = lowercase_chars(qc.as_slice());
        let mut out: Vec<SessionInfo> = Vec::new();
        let mut n: usize = 0;
        while n < self.entries.len()
            invariant
                n <= self.entries@.len(),
                q@ == lowercase_of(query@),
                out@ == matching_infos(self.entries@, q@, n as int),
            decreases self.entries.len() - n,
        {
            let nc = chars_of(self.entries[n].name.as_str());
            let nl = lowercase_chars(nc.as_slice());
            let hit = contains_chars(nl.as_slice(), q.as_slice()) || any_contains_lower(
                &self.entries[n].message_contents,
                q.as_slice(),
            );
            if hit {
                out.push(info_of_exec(&self.entries[n]));
            }
            n += 1;
        }
        out
    }
}

// ── Laws ───────────────────────────────────────────────────────────────

proof fn lemma_absent(s: Seq<SessionRecord>, id: Seq<char>)
    requires
        forall|j: int| 0 <= j < s.len() ==> (#[trigger] s[j]).id@ != id,
    ensures
        index_of(s, id) is None,
{
    lemma_index_of(s, id);
}

/// A saved session is found again under its id, ids stay unique, and every
/// other id finds what it found before.
pub proof fn law_read_after_upsert(s: Seq<SessionRecord>, rec: SessionRecord, other: Seq<char>)
    requires
        unique_ids(s),
    ensures
        unique_ids(upserted(s, rec)),
        lookup(upserted(s, rec), rec.id@) == Some(rec),
        other != rec.id@ ==> lookup(upserted(s, rec), other) == lookup(s, other),
{
    lemma_index_of(s, rec.id@);
    lemma_index_of(s, other);
    let t = upserted(s, rec);
    match index_of(s, rec.id@) {
        Some(i) => {
            assert(t == s.update(i, rec));
            assert forall|a: int, b: int| 0 <= a < b < t.len() implies (#[trigger] t[a]).id@
                != (#[trigger] t[b]).id@ by {
                if a != i && b != i {
                    assert(s[a].id@ != s[b].id@);
                } else if a == i {
                    assert(s[i].id@ != s[b].id@);
                } else {
                    assert(s[a].id@ != s[i].id@);
                }
            }
            lemma_index_of_unique(t, rec.id@, i);
            if other != rec.id@ {
                match index_of(s, other) {
                    Some(k) => {
                        assert(k != i);
                        assert(t[k] == s[k]);
                        lemma_index_of_unique(t, other, k);
                    },
                    None => {
                        assert forall|j: int| 0 <= j < t.len() implies (#[trigger] t[j]).id@
                            != other by {
                            if j != i {
                                assert(t[j] == s[j]);
                            }
                        }
                        lemma_absent(t, other);
                    },
                }
            }
        },
        None => {
            assert(t == s.push(rec));
            assert forall|a: int, b: int| 0 <= a < b < t.len() implies (#[trigger] t[a]).id@
                != (#[trigger] t[b]).id@ by {
                if b < s.len() {
                    assert(s[a].id@ != s[b].id@);
                } else {
                    assert(t[b] == rec);
                    assert(t[a] == s[a]);
                }
            }
            assert(t.drop_last() =~= s);
        },
    }
}

/// A removed session is gone, ids stay unique, and every other id finds
/// what it found before.
pub proof fn law_read_after_remove(s: Seq<SessionRecord>, id: Seq<char>, other: Seq<char>)
    requires
        unique_ids(s),
    ensures
        unique_ids(removed(s, id)),
        lookup(removed(s, id), id) is None,
        other != id ==> lookup(removed(s, id), other) == lookup(s, other),
{
    lemma_index_of(s, id);
    lemma_index_of(s, other);
    let t = removed(s, id);
    match index_of(s, id) {
        Some(i) => {
            assert(t == s.remove(i));
            assert forall|a: int| 0 <= a < t.len() implies #[trigger] t[a] == s[if a < i {
                a
            } else {
                a + 1
            }] by {}
            assert forall|a: int, b: int| 0 <= a < b < t.len() implies (#[trigger] t[a]).id@
                != (#[trigger] t[b]).id@ by {
                let pa = if a < i { a } else { a + 1 };
                let pb = if b < i { b } else { b + 1 };
                assert(t[a] == s[pa] && t[b] == s[pb]);
                assert(s[pa].id@ != s[pb].id@);
            }
            assert forall|j: int| 0 <= j < t.len() implies (#[trigger] t[j]).id@ != id by {
                let pj = if j < i { j } else { j + 1 };
                assert(t[j] == s[pj]);
                if pj < i {
                    assert(s[pj].id@ != s[i].id@);
                } else {
                    assert(s[i].id@ != s[pj].id@);
                }
            }
            lemma_absent(t, id);
            if other != id {
                match index_of(s, other) {
                    Some(k) => {
                        assert(k != i);
                        let kt = if k < i { k } else { k - 1 };
                        assert(t[kt] == s[k]);
                        lemma_index_of_unique(t, other, kt);
                    },
                    None => {
                        assert forall|j: int| 0 <= j < t.len() implies (#[trigger] t[j]).id@
                            != other by {
                            let pj = if j < i { j } else { j + 1 };
                            assert(t[j] == s[pj]);
                        }
                        lemma_absent(t, other);
                    },
                }
            }
        },
        None => {},
    }
}


} // verus!
