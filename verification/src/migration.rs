//! One-time migration that tags legacy session files with the current
//! project path.
//!
//! The migration alternates file-system work with decisions, so it is a
//! state machine: [`migrate_legacy_sessions`] starts it, and
//! [`Migration::step`] takes the answer to the last action and says what to
//! do next. The caller performs the actions (checking the marker file,
//! listing `sessions/`, reading a session file and handing its text back,
//! writing the rewritten text, writing the marker). The library tells from
//! a file's text whether its `project_path` is set and builds the text to
//! write back ([`session_read_outcome`], [`session_rewrite`]).
//!
//! A marker file makes the migration idempotent: once it exists, nothing is
//! read or written. Only `*.json` files are looked at; a session whose
//! `project_path` is already set is never rewritten.
use vstd::prelude::*;
use crate::session_index::opt_text;
use crate::text::{chars_of, ends_with_seq, ends_with_chars};

verus! {

/// Name of the marker file written to the config directory afterwards.
pub const MARKER_FILE: &'static str = ".migrated-project-local";

// ── File names ─────────────────────────────────────────────────────────

/// `Path::extension` of a file name is `json`: the name ends in `.json`
/// and something comes before that dot.
pub open spec fn is_json_name_spec(name: Seq<char>) -> bool {
    name.len() > 5 && ends_with_seq(name, seq!['.', 'j', 's', 'o', 'n'])
}

/// Whether a directory entry's file name has the extension `json`.
pub fn is_json_name(name: &str) -> (r: bool)
    ensures
        r == is_json_name_spec(name@),
{
    let v = chars_of(name);
    let ext: [char; 5] = ['.', 'j', 's', 'o', 'n'];
    assert(ext@ =~= seq!['.', 'j', 's', 'o', 'n']);
    v.len() > 5 && ends_with_chars(v.as_slice(), ext.as_slice())
}

/// The `*.json` names among `names[..n]`, in order.
pub open spec fn json_names(names: Seq<Seq<char>>, n: int) -> Seq<Seq<char>>
    decreases n,
{
    if n <= 0 {
        seq![]
    } else if is_json_name_spec(names[n - 1]) {
        json_names(names, n - 1).push(names[n - 1])
    } else {
        json_names(names, n - 1)
    }
}

pub open spec fn name_views(v: Seq<String>) -> Seq<Seq<char>> {
    v.map_values(|s: String| s@)
}

/// The `*.json` names of a directory listing, in listing order.
pub fn filter_json_names(names: Vec<String>) -> (r: Vec<String>)
    ensures
        name_views(r@) == json_names(name_views(names@), names@.len() as int),
{
    let ghost ns = name_views(names@);
    let mut out: Vec<String> = Vec::new();
    let mut source = names;
    let mut rev: Vec<String> = Vec::new();
    while source.len() > 0
        invariant
            name_views(source@) == ns.take(source@.len() as int),
            source@.len() <= ns.len(),
            rev@.len() == ns.len() - source@.len(),
            forall|q: int| 0 <= q < rev@.len() ==> (#[trigger] rev@[q])@ == ns[ns.len() - 1 - q],
        decreases source.len(),
    {
        let ghost n = source@.len();
        let s = source.pop().unwrap();
        assert(name_views(source@) =~= ns.take(n - 1));
        assert(s@ == ns[n - 1]) by {
            assert(ns.take(n as int)[n - 1] == ns[n - 1]);
        }
        rev.push(s);
    }
    while rev.len() > 0
        invariant
            rev@.len() <= ns.len(),
            forall|q: int| 0 <= q < rev@.len() ==> (#[trigger] rev@[q])@ == ns[ns.len() - 1 - q],
            name_views(out@) == json_names(ns, ns.len() - rev@.len()),
        decreases rev.len(),
    {
        let ghost done = ns.len() - rev@.len();
        let s = rev.pop().unwrap();
        assert(s@ == ns[done]);
        if is_json_name(s.as_str()) {
            let ghost prev = out@;
            out.push(s);
            assert(name_views(out@) =~= name_views(prev).push(ns[done]));
        }
    }
    out
}

// ── The machine ────────────────────────────────────────────────────────

/// What reading and parsing one session file told.
#[derive(Clone, Copy, Debug, PartialEq, Eq, Structural)]
pub enum SessionReadOutcome {
    /// The file could not be read.
    Unreadable,
    /// The file is not valid JSON.
    Unparsable,
    /// `project_path` is present and not null.
    PathSet,
    /// `project_path` is missing or null.
    PathMissingOrNull,
}

/// What `serde_json` makes of a session file's text: `None` when it is not
/// JSON; `Some(None)` when the value has no `project_path` field;
/// `Some(Some(b))` when it has one, `b` telling whether that field is null.
pub uninterp spec fn json_project_path_field(text: Seq<char>) -> Option<Option<bool>>;

/// The text with `"project_path": project` set on the JSON object it holds,
/// pretty-printed by `serde_json`; `None` when the text is not JSON or the
/// value cannot be printed. A value that is not an object is printed
/// unchanged.
pub uninterp spec fn json_with_project_path(text: Seq<char>, project: Seq<char>) -> Option<Seq<char>>;

/// Parses `text` as a `serde_json::Value` (`serde_json::from_str`) and looks
/// up its `project_path` field (`Value::get`, `Value::is_null`). The
/// contract claims only that the answer depends on the text alone and is
/// the one named by `json_project_path_field`; what JSON the parser accepts
/// is left to `serde_json`.
#[verifier::external_body]
fn project_path_field(text: &str) -> (r: Option<Option<bool>>)
    ensures
        r == json_project_path_field(text@),
{
    match serde_json::from_str::<serde_json::Value>(text) {
        Ok(v) => match v.get("project_path") {
            Some(field) => Some(Some(field.is_null())),
            None => Some(None),
        },
        Err(_) => None,
    }
}

/// Parses `text` as a `serde_json::Value`, inserts `project_path` into it
/// when it is an object (`Value::as_object_mut`, `Map::insert`) and prints
/// it with `serde_json::to_string_pretty`. The contract claims only that the
/// result depends on the two texts alone and is the one named by
/// `json_with_project_path`.
#[verifier::external_body]
fn with_project_path(text: &str, project: &str) -> (r: Option<String>)
    ensures
        opt_text(r) == json_with_project_path(text@, project@),
{
    let mut value = match serde_json::from_str::<serde_json::Value>(text) {
        Ok(v) => v,
        Err(_) => return None,
    };
    if let Some(object) = value.as_object_mut() {
        object.insert("project_path".to_string(), serde_json::Value::String(project.to_string()));
    }
    serde_json::to_string_pretty(&value).ok()
}

/// What a parsed session tells of its `project_path` field (`None`: the
/// text is not JSON; `Some(None)`: no such field; `Some(Some(b))`: the
/// field, `b` telling whether it is null).
pub open spec fn field_outcome_spec(field: Option<Option<bool>>) -> SessionReadOutcome {
    match field {
        None => SessionReadOutcome::Unparsable,
        Some(None) => SessionReadOutcome::PathMissingOrNull,
        Some(Some(true)) => SessionReadOutcome::PathMissingOrNull,
        Some(Some(false)) => SessionReadOutcome::PathSet,
    }
}

/// Classifies a session from what its `project_path` field is: a missing or
/// null path is to be set, any other value is kept.
pub fn field_outcome(field: Option<Option<bool>>) -> (r: SessionReadOutcome)
    ensures
        r == field_outcome_spec(field),
{
    match field {
        None => SessionReadOutcome::Unparsable,
        Some(None) => SessionReadOutcome::PathMissingOrNull,
        Some(Some(true)) => SessionReadOutcome::PathMissingOrNull,
        Some(Some(false)) => SessionReadOutcome::PathSet,
    }
}

/// What reading a session file tells, from its text (`None`: unreadable).
pub open spec fn read_outcome_spec(content: Option<Seq<char>>) -> SessionReadOutcome {
    match content {
        None => SessionReadOutcome::Unreadable,
        Some(text) => field_outcome_spec(json_project_path_field(text)),
    }
}

/// Classifies a session file from its text (`None` when it could not be
/// read): not JSON, `project_path` set, or `project_path` missing or null.
pub fn session_read_outcome(content: Option<String>) -> (r: SessionReadOutcome)
    ensures
        r == read_outcome_spec(opt_text(content)),
{
    match content {
        None => SessionReadOutcome::Unreadable,
        Some(text) => field_outcome(project_path_field(text.as_str())),
    }
}

/// The new text of a session file tagged with `project`: only a readable
/// file whose `project_path` is missing or null is rewritten.
pub open spec fn session_rewrite_spec(content: Option<Seq<char>>, project: Seq<char>) -> Option<Seq<char>> {
    match content {
        Some(text) => if read_outcome_spec(content) == SessionReadOutcome::PathMissingOrNull {
            json_with_project_path(text, project)
        } else {
            None
        },
        None => None,
    }
}

/// The text to write back for a session file read as `content`, tagged
/// with the project path; `None` when the file is not to be (or cannot be)
/// rewritten: unreadable, not JSON, `project_path` already set, or not
/// printable.
pub fn session_rewrite(content: Option<String>, project: &str) -> (r: Option<String>)
    ensures
        opt_text(r) == session_rewrite_spec(opt_text(content), project@),
{
    match content {
        None => None,
        Some(text) => {
            let outcome = session_read_outcome(Some(text.clone()));
            if outcome == SessionReadOutcome::PathMissingOrNull {
                with_project_path(text.as_str(), project)
            } else {
                None
            }
        },
    }
}

/// A file whose `project_path` is set is never rewritten.
pub proof fn law_set_paths_are_kept(content: Option<Seq<char>>, project: Seq<char>)
    requires
        read_outcome_spec(content) != SessionReadOutcome::PathMissingOrNull,
    ensures
        session_rewrite_spec(content, project) is None,
{
}

/// The answer to the last action.
pub enum MigrationEvent {
    /// Whether the marker file (after `CheckMarker`) or the sessions
    /// directory (after `CheckSessionsDir`) exists.
    Exists(bool),
    /// The file names in the sessions directory; `None` when it could not
    /// be read.
    Listed(Option<Vec<String>>),
    /// The text of the requested session file; `None` when it could not be
    /// read.
    Read(Option<String>),
    /// Whether the requested write (session file or marker) succeeded.
    Written(bool),
}

/// What the caller does next.
pub enum MigrationAction {
    CheckMarker,
    CheckSessionsDir,
    ListSessions,
    /// Read and parse `sessions/<name>`.
    ReadSession(String),
    /// Set `project_path` of `sessions/<name>` to the project root and write
    /// the file back.
    AddProjectPath(String),
    WriteMarker,
    /// The migration is over.
    Stop,
}

/// Where the migration stands.
pub enum Migration {
    CheckingMarker,
    CheckingSessionsDir,
    Listing,
    /// Waiting for the read of `files[next]`.
    Reading { files: Vec<String>, next: usize, total: usize, migrated: usize },
    /// Waiting for the rewrite of `files[next]`.
    Writing { files: Vec<String>, next: usize, total: usize, migrated: usize },
    /// Waiting for the marker write.
    MarkingDone { total: usize, migrated: usize },
    /// Over: `total` session files seen, `migrated` of them rewritten.
    Finished { total: usize, migrated: usize },
}

/// The abstract state: `Vec`s by their contents.
pub enum MigrationView {
    CheckingMarker,
    CheckingSessionsDir,
    Listing,
    Reading { files: Seq<Seq<char>>, next: int, total: int, migrated: int },
    Writing { files: Seq<Seq<char>>, next: int, total: int, migrated: int },
    MarkingDone { total: int, migrated: int },
    Finished { total: int, migrated: int },
}

/// The abstract action.
pub enum ActionView {
    CheckMarker,
    CheckSessionsDir,
    ListSessions,
    ReadSession(Seq<char>),
    AddProjectPath(Seq<char>),
    WriteMarker,
    Stop,
}

/// The abstract event.
pub enum EventView {
    Exists(bool),
    Listed(Option<Seq<Seq<char>>>),
    Read(Option<Seq<char>>),
    Written(bool),
}

impl Migration {
    pub open spec fn view(&self) -> MigrationView {
        match self {
            Migration::CheckingMarker => MigrationView::CheckingMarker,
            Migration::CheckingSessionsDir => MigrationView::CheckingSessionsDir,
            Migration::Listing => MigrationView::Listing,
            Migration::Reading { files, next, total, migrated } => MigrationView::Reading {
                files: name_views(files@),
                next: *next as int,
                total: *total as int,
                migrated: *migrated as int,
            },
            Migration::Writing { files, next, total, migrated } => MigrationView::Writing {
                files: name_views(files@),
                next: *next as int,
                total: *total as int,
                migrated: *migrated as int,
            },
            Migration::MarkingDone { total, migrated } => MigrationView::MarkingDone {
                total: *total as int,
                migrated: *migrated as int,
            },
            Migration::Finished { total, migrated } => MigrationView::Finished {
                total: *total as int,
                migrated: *migrated as int,
            },
        }
    }
}

impl MigrationAction {
    pub open spec fn view(&self) -> ActionView {
        match self {
            MigrationAction::CheckMarker => ActionView::CheckMarker,
            MigrationAction::CheckSessionsDir => ActionView::CheckSessionsDir,
            MigrationAction::ListSessions => ActionView::ListSessions,
            MigrationAction::ReadSession(n) => ActionView::ReadSession(n@),
            MigrationAction::AddProjectPath(n) => ActionView::AddProjectPath(n@),
            MigrationAction::WriteMarker => ActionView::WriteMarker,
            MigrationAction::Stop => ActionView::Stop,
        }
    }
}

impl MigrationEvent {
    pub open spec fn view(&self) -> EventView {
        match self {
            MigrationEvent::Exists(b) => EventView::Exists(*b),
            MigrationEvent::Listed(l) => EventView::Listed(
                match l {
                    Some(v) => Some(name_views(v@)),
                    None => None,
                },
            ),
            MigrationEvent::Read(c) => EventView::Read(opt_text(*c)),
            MigrationEvent::Written(b) => EventView::Written(*b),
        }
    }
}

/// The action a state waits on.
pub open spec fn pending(s: MigrationView) -> ActionView {
    match s {
        MigrationView::CheckingMarker => ActionView::CheckMarker,
        MigrationView::CheckingSessionsDir => ActionView::CheckSessionsDir,
        MigrationView::Listing => ActionView::ListSessions,
        MigrationView::Reading { files, next, .. } => ActionView::ReadSession(files[next]),
        MigrationView::Writing { files, next, .. } => ActionView::AddProjectPath(files[next]),
        MigrationView::MarkingDone { .. } => ActionView::WriteMarker,
        MigrationView::Finished { .. } => ActionView::Stop,
    }
}

/// Move on to file `next`: read it, or write the marker when none is left.
/// Each file asked for counts towards `total`.
pub open spec fn advance(files: Seq<Seq<char>>, next: int, total: int, migrated: int) -> (
    MigrationView,
    ActionView,
) {
    if next < files.len() {
        (
            MigrationView::Reading { files, next, total: total + 1, migrated },
            ActionView::ReadSession(files[next]),
        )
    } else {
        (MigrationView::MarkingDone { total, migrated }, ActionView::WriteMarker)
    }
}

/// The transition table. An answer that does not fit the pending action
/// leaves the state as it is and asks again.
pub open spec fn step_spec(s: MigrationView, e: EventView) -> (MigrationView, ActionView) {
    match (s, e) {
        (MigrationView::CheckingMarker, EventView::Exists(true)) => (
            MigrationView::Finished { total: 0, migrated: 0 },
            ActionView::Stop,
        ),
        (MigrationView::CheckingMarker, EventView::Exists(false)) => (
            MigrationView::CheckingSessionsDir,
            ActionView::CheckSessionsDir,
        ),
        (MigrationView::CheckingSessionsDir, EventView::Exists(true)) => (
            MigrationView::Listing,
            ActionView::ListSessions,
        ),
        (MigrationView::CheckingSessionsDir, EventView::Exists(false)) => (
            MigrationView::MarkingDone { total: 0, migrated: 0 },
            ActionView::WriteMarker,
        ),
        (MigrationView::Listing, EventView::Listed(None)) => (
            MigrationView::Finished { total: 0, migrated: 0 },
            ActionView::Stop,
        ),
        (MigrationView::Listing, EventView::Listed(Some(names))) => advance(
            json_names(names, names.len() as int),
            0,
            0,
            0,
        ),
        (
            MigrationView::Reading { files, next, total, migrated },
            EventView::Read(content),
        ) => if read_outcome_spec(content) == SessionReadOutcome::PathMissingOrNull {
            (
                MigrationView::Writing { files, next, total, migrated },
                ActionView::AddProjectPath(files[next]),
            )
        } else {
            advance(files, next + 1, total, migrated)
        },
        (
            MigrationView::Writing { files, next, total, migrated },
            EventView::Written(ok),
        ) => advance(files, next + 1, total, if ok {
            migrated + 1
        } else {
            migrated
        }),
        (MigrationView::MarkingDone { total, migrated }, EventView::Written(_)) => (
            MigrationView::Finished { total, migrated },
            ActionView::Stop,
        ),
        _ => (s, pending(s)),
    }
}

/// The machine's invariant: counters never pass the files seen, the file
/// being worked on exists and is a `*.json` name, and every counted file
/// has been asked for.
pub open spec fn migration_wf(s: MigrationView) -> bool {
    match s {
        MigrationView::Reading { files, next, total, migrated } => scan_wf(files, next, total, migrated),
        MigrationView::Writing { files, next, total, migrated } => scan_wf(files, next, total, migrated),
        MigrationView::MarkingDone { total, migrated } => 0 <= migrated <= total,
        MigrationView::Finished { total, migrated } => 0 <= migrated <= total,
        _ => true,
    }
}

/// The invariant while files are being worked through.
pub open spec fn scan_wf(files: Seq<Seq<char>>, next: int, total: int, migrated: int) -> bool {
    &&& 0 <= next < files.len()
    &&& total == next + 1
    &&& 0 <= migrated <= next
    &&& forall|i: int| 0 <= i < files.len() ==> is_json_name_spec(#[trigger] files[i])
}

proof fn lemma_json_names_are_json(names: Seq<Seq<char>>, n: int)
    ensures
        forall|i: int|
            0 <= i < json_names(names, n).len() ==> is_json_name_spec(
                #[trigger] json_names(names, n)[i],
            ),
        json_names(names, n).len() <= if n < 0 { 0 } else { n },
    decreases n,
{
    if n > 0 {
        lemma_json_names_are_json(names, n - 1);
    }
}

proof fn lemma_advance_wf(files: Seq<Seq<char>>, next: int, total: int, migrated: int)
    requires
        0 <= next <= files.len(),
        total == next,
        0 <= migrated <= total,
        forall|i: int| 0 <= i < files.len() ==> is_json_name_spec(#[trigger] files[i]),
    ensures
        migration_wf(advance(files, next, total, migrated).0),
{
}

/// Start the one-time legacy session migration: the first thing to do is
/// to look for the marker file.
pub fn migrate_legacy_sessions() -> (r: (Migration, MigrationAction))
    ensures
        r.0.view() == MigrationView::CheckingMarker,
        r.1.view() == ActionView::CheckMarker,
{
    (Migration::CheckingMarker, MigrationAction::CheckMarker)
}

fn advance_exec(files: Vec<String>, next: usize, total: usize, migrated: usize) -> (r: (
    Migration,
    MigrationAction,
))
    requires
        next <= files@.len(),
        total <= next,
    ensures
        (r.0.view(), r.1.view()) == advance(name_views(files@), next as int, total as int, migrated as int),
{
    if next < files.len() {
        let name = files[next].clone();
        (Migration::Reading { files, next, total: total + 1, migrated }, MigrationAction::ReadSession(name))
    } else {
        (Migration::MarkingDone { total, migrated }, MigrationAction::WriteMarker)
    }
}

impl Migration {
    /// One step: given the answer to the pending action, the next state and
    /// the next action.
    pub fn step(self, event: MigrationEvent) -> (r: (Migration, MigrationAction))
        requires
            migration_wf(self.view()),
        ensures
            (r.0.view(), r.1.view()) == step_spec(self.view(), event.view()),
            migration_wf(r.0.view()),
    {
        match self {
            Migration::CheckingMarker => match event {
                MigrationEvent::Exists(true) => (
                    Migration::Finished { total: 0, migrated: 0 },
                    MigrationAction::Stop,
                ),
                MigrationEvent::Exists(false) => (
                    Migration::CheckingSessionsDir,
                    MigrationAction::CheckSessionsDir,
                ),
                _ => (Migration::CheckingMarker, MigrationAction::CheckMarker),
            },
            Migration::CheckingSessionsDir => match event {
                MigrationEvent::Exists(true) => (Migration::Listing, MigrationAction::ListSessions),
                MigrationEvent::Exists(false) => (
                    Migration::MarkingDone { total: 0, migrated: 0 },
                    MigrationAction::WriteMarker,
                ),
                _ => (Migration::CheckingSessionsDir, MigrationAction::CheckSessionsDir),
            },
            Migration::Listing => match event {
                MigrationEvent::Listed(None) => (
                    Migration::Finished { total: 0, migrated: 0 },
                    MigrationAction::Stop,
                ),
                MigrationEvent::Listed(Some(names)) => {
                    let ghost nv = name_views(names@);
                    let files = filter_json_names(names);
                    proof {
                        lemma_json_names_are_json(nv, nv.len() as int);
                        let fv = name_views(files@);
                        assert(fv == json_names(nv, nv.len() as int));
                        assert forall|i: int| 0 <= i < fv.len() implies is_json_name_spec(
                            #[trigger] fv[i],
                        ) by {
                            assert(json_names(nv, nv.len() as int)[i] == fv[i]);
                        }
                    }
                    proof {
                        lemma_advance_wf(name_views(files@), 0, 0, 0);
                    }
                    advance_exec(files, 0, 0, 0)
                },
                _ => (Migration::Listing, MigrationAction::ListSessions),
            },
            Migration::Reading { files, next, total, migrated } => match event {
                MigrationEvent::Read(content) => {
                    let outcome = session_read_outcome(content);
                    if outcome == SessionReadOutcome::PathMissingOrNull {
                        let name = files[next].clone();
                        (
                            Migration::Writing { files, next, total, migrated },
                            MigrationAction::AddProjectPath(name),
                        )
                    } else {
                        proof {
                            lemma_advance_wf(name_views(files@), next + 1, total as int, migrated as int);
                        }
                        advance_exec(files, next + 1, total, migrated)
                    }
                },
                _ => {
                    let name = files[next].clone();
                    (
                        Migration::Reading { files, next, total, migrated },
                        MigrationAction::ReadSession(name),
                    )
                },
            },
            Migration::Writing { files, next, total, migrated } => match event {
                MigrationEvent::Written(ok) => {
                    let m = if ok {
                        migrated + 1
                    } else {
                        migrated
                    };
                    proof {
                        lemma_advance_wf(name_views(files@), next + 1, total as int, m as int);
                    }
                    advance_exec(files, next + 1, total, m)
                },
                _ => {
                    let name = files[next].clone();
                    (
                        Migration::Writing { files, next, total, migrated },
                        MigrationAction::AddProjectPath(name),
                    )
                },
            },
            Migration::MarkingDone { total, migrated } => match event {
                MigrationEvent::Written(_) => (
                    Migration::Finished { total, migrated },
                    MigrationAction::Stop,
                ),
                _ => (Migration::MarkingDone { total, migrated }, MigrationAction::WriteMarker),
            },
            Migration::Finished { total, migrated } => (
                Migration::Finished { total, migrated },
                MigrationAction::Stop,
            ),
        }
    }
}

// ── Laws ───────────────────────────────────────────────────────────────

/// Once the marker exists the migration stops at once: nothing is listed,
/// read or written, and no session is counted.
pub proof fn law_marker_makes_migration_a_no_op()
    ensures
        step_spec(MigrationView::CheckingMarker, EventView::Exists(true)) == (
            MigrationView::Finished { total: 0, migrated: 0 },
            ActionView::Stop,
        ),
{
}

/// A session file is rewritten only right after reading it showed a
/// missing or null `project_path` (or when that rewrite is asked for again
/// because the answer did not fit): a set path is never overwritten.
pub proof fn law_only_unset_paths_are_rewritten(s: MigrationView, e: EventView, name: Seq<char>)
    requires
        migration_wf(s),
        step_spec(s, e).1 == ActionView::AddProjectPath(name),
    ensures
        (s is Reading && e is Read && read_outcome_spec(e->Read_0) == SessionReadOutcome::PathMissingOrNull && name
            == s->Reading_files[s->Reading_next]) || (s is Writing && !(e is Written) && name
            == s->Writing_files[s->Writing_next]),
{
}

/// Every rewrite that is counted was asked for: the count of migrated
/// sessions never passes the count of session files seen.
pub proof fn law_migrated_never_exceeds_total(s: MigrationView, e: EventView)
    requires
        migration_wf(s),
    ensures
        migration_wf(step_spec(s, e).0),
        match step_spec(s, e).0 {
            MigrationView::Finished { total, migrated } => migrated <= total,
            _ => true,
        },
{
    match (s, e) {
        (MigrationView::Listing, EventView::Listed(Some(names))) => {
            lemma_json_names_are_json(names, names.len() as int);
            lemma_advance_wf(json_names(names, names.len() as int), 0, 0, 0);
        },
        (MigrationView::Reading { files, next, total, migrated }, EventView::Read(o)) => {
            lemma_advance_wf(files, next + 1, total, migrated);
        },
        (MigrationView::Writing { files, next, total, migrated }, EventView::Written(ok)) => {
            lemma_advance_wf(files, next + 1, total, if ok { migrated + 1 } else { migrated });
        },
        _ => {},
    }
}

// ── A whole run ────────────────────────────────────────────────────────

/// The answer a file system gives to an action: whether the marker and the
/// sessions directory exist, the directory's listing (`None` when it cannot
/// be read), what reading each file gives (`content`, `None` when it cannot be read); every write
/// succeeds.
pub open spec fn disk_answer(
    marker: bool,
    dir: bool,
    listing: Option<Seq<Seq<char>>>,
    content: spec_fn(Seq<char>) -> Option<Seq<char>>,
    a: ActionView,
) -> EventView {
    match a {
        ActionView::CheckMarker => EventView::Exists(marker),
        ActionView::CheckSessionsDir => EventView::Exists(dir),
        ActionView::ListSessions => EventView::Listed(listing),
        ActionView::ReadSession(n) => EventView::Read(content(n)),
        ActionView::AddProjectPath(_) => EventView::Written(true),
        ActionView::WriteMarker => EventView::Written(true),
        ActionView::Stop => EventView::Exists(false),
    }
}

/// Run the machine from `s` (waiting on `a`) for at most `fuel` actions
/// against that file system: the state it ends in, the files it rewrote
/// in order, and whether it wrote the marker.
pub open spec fn run_on_disk(
    marker: bool,
    dir: bool,
    listing: Option<Seq<Seq<char>>>,
    content: spec_fn(Seq<char>) -> Option<Seq<char>>,
    s: MigrationView,
    a: ActionView,
    fuel: nat,
) -> (MigrationView, Seq<Seq<char>>, bool)
    decreases fuel,
{
    if fuel == 0 || a is Stop {
        (s, seq![], false)
    } else {
        let (s2, a2) = step_spec(s, disk_answer(marker, dir, listing, content, a));
        let r = run_on_disk(marker, dir, listing, content, s2, a2, (fuel - 1) as nat);
        (
            r.0,
            match a {
                ActionView::AddProjectPath(n) => seq![n],
                _ => seq![],
            } + r.1,
            r.2 || a is WriteMarker,
        )
    }
}

/// The files among `files[i..]` whose `project_path` is missing or null.
pub open spec fn unset_from(
    files: Seq<Seq<char>>,
    content: spec_fn(Seq<char>) -> Option<Seq<char>>,
    i: int,
) -> Seq<Seq<char>>
    decreases files.len() - i,
{
    if i < 0 || i >= files.len() {
        seq![]
    } else {
        (if read_outcome_spec(content(files[i])) == SessionReadOutcome::PathMissingOrNull {
            seq![files[i]]
        } else {
            seq![]
        }) + unset_from(files, content, i + 1)
    }
}

proof fn lemma_scan(
    marker: bool,
    dir: bool,
    listing: Option<Seq<Seq<char>>>,
    content: spec_fn(Seq<char>) -> Option<Seq<char>>,
    files: Seq<Seq<char>>,
    next: int,
    migrated: int,
    fuel: nat,
)
    requires
        0 <= next < files.len(),
        fuel >= 2 * (files.len() - next) + 2,
    ensures
        run_on_disk(
            marker,
            dir,
            listing,
            content,
            MigrationView::Reading { files, next, total: next + 1, migrated },
            ActionView::ReadSession(files[next]),
            fuel,
        ) == (
            MigrationView::Finished {
                total: files.len() as int,
                migrated: migrated + unset_from(files, content, next).len(),
            },
            unset_from(files, content, next),
            true,
        ),
    decreases files.len() - next,
{
    let o = read_outcome_spec(content(files[next]));
    let f1 = (fuel - 1) as nat;
    let rest = unset_from(files, content, next + 1);
    if o == SessionReadOutcome::PathMissingOrNull {
        let f2 = (f1 - 1) as nat;
        let ws = MigrationView::Writing { files, next, total: next + 1, migrated };
        if next + 1 < files.len() {
            lemma_scan(marker, dir, listing, content, files, next + 1, migrated + 1, f2);
            let r2 = run_on_disk(
                marker,
                dir,
                listing,
                content,
                MigrationView::Reading { files, next: next + 1, total: next + 2, migrated: migrated + 1 },
                ActionView::ReadSession(files[next + 1]),
                f2,
            );
            assert(run_on_disk(marker, dir, listing, content, ws, ActionView::AddProjectPath(files[next]), f1)
                == (r2.0, seq![files[next]] + r2.1, r2.2));
        } else {
            let ms = MigrationView::MarkingDone { total: next + 1, migrated: migrated + 1 };
            let fin = MigrationView::Finished { total: next + 1, migrated: migrated + 1 };
            let f3 = (f2 - 1) as nat;
            assert(run_on_disk(marker, dir, listing, content, fin, ActionView::Stop, f3) == (fin, Seq::<Seq<char>>::empty(), false));
            assert(run_on_disk(marker, dir, listing, content, ms, ActionView::WriteMarker, f2) == (fin, Seq::<Seq<char>>::empty() + Seq::<Seq<char>>::empty(), true));
            assert(run_on_disk(marker, dir, listing, content, ws, ActionView::AddProjectPath(files[next]), f1)
                == (fin, seq![files[next]] + (Seq::<Seq<char>>::empty() + Seq::<Seq<char>>::empty()), true));
            assert(rest =~= Seq::<Seq<char>>::empty());
        }
        assert(unset_from(files, content, next) == seq![files[next]] + rest);
        assert(seq![files[next]] + rest =~= seq![files[next]] + rest);
    } else {
        if next + 1 < files.len() {
            lemma_scan(marker, dir, listing, content, files, next + 1, migrated, f1);
        } else {
            let ms = MigrationView::MarkingDone { total: next + 1, migrated };
            let fin = MigrationView::Finished { total: next + 1, migrated };
            let f2 = (f1 - 1) as nat;
            assert(run_on_disk(marker, dir, listing, content, fin, ActionView::Stop, f2) == (fin, Seq::<Seq<char>>::empty(), false));
            assert(run_on_disk(marker, dir, listing, content, ms, ActionView::WriteMarker, f1) == (fin, Seq::<Seq<char>>::empty() + Seq::<Seq<char>>::empty(), true));
            assert(rest =~= Seq::<Seq<char>>::empty());
        }
        assert(unset_from(files, content, next) =~= Seq::<Seq<char>>::empty() + rest);
    }
}

/// A whole migration run against a file system whose writes succeed:
/// - with the marker present nothing is listed, read or written;
/// - without a sessions directory only the marker is written;
/// - with an unreadable directory nothing is written;
/// - otherwise exactly the `*.json` sessions whose `project_path` is missing
///   or null are rewritten, in listing order, every `*.json` session is
///   counted, and the marker is written.
pub proof fn law_whole_run(
    dir: bool,
    listing: Option<Seq<Seq<char>>>,
    content: spec_fn(Seq<char>) -> Option<Seq<char>>,
    fuel: nat,
)
    requires
        fuel >= 2 * (match listing {
            Some(names) => names.len(),
            None => 0,
        }) + 6,
    ensures
        run_on_disk(true, dir, listing, content, MigrationView::CheckingMarker, ActionView::CheckMarker, fuel)
            == (MigrationView::Finished { total: 0, migrated: 0 }, Seq::<Seq<char>>::empty(), false),
        !dir ==> run_on_disk(false, dir, listing, content, MigrationView::CheckingMarker, ActionView::CheckMarker, fuel)
            == (MigrationView::Finished { total: 0, migrated: 0 }, Seq::<Seq<char>>::empty(), true),
        dir && listing is None ==> run_on_disk(false, dir, listing, content, MigrationView::CheckingMarker, ActionView::CheckMarker, fuel)
            == (MigrationView::Finished { total: 0, migrated: 0 }, Seq::<Seq<char>>::empty(), false),
        dir && listing is Some ==> ({
            let names = listing->0;
            let files = json_names(names, names.len() as int);
            run_on_disk(false, dir, listing, content, MigrationView::CheckingMarker, ActionView::CheckMarker, fuel)
                == (
                MigrationView::Finished {
                    total: files.len() as int,
                    migrated: unset_from(files, content, 0).len() as int,
                },
                unset_from(files, content, 0),
                true,
            )
        }),
{
    let e = Seq::<Seq<char>>::empty();
    let fin0 = MigrationView::Finished { total: 0, migrated: 0 };
    let f1 = (fuel - 1) as nat;
    let f2 = (f1 - 1) as nat;
    let f3 = (f2 - 1) as nat;
    let f4 = (f3 - 1) as nat;
    // With the marker present.
    assert(run_on_disk(true, dir, listing, content, fin0, ActionView::Stop, f1) == (fin0, e, false));
    assert(run_on_disk(true, dir, listing, content, MigrationView::CheckingMarker, ActionView::CheckMarker, fuel) == (fin0, e + e, false));
    assert(e + e =~= e);
    if !dir {
        let md = MigrationView::MarkingDone { total: 0, migrated: 0 };
        assert(run_on_disk(false, dir, listing, content, fin0, ActionView::Stop, f3) == (fin0, e, false));
        assert(run_on_disk(false, dir, listing, content, md, ActionView::WriteMarker, f2) == (fin0, e + e, true));
        assert(run_on_disk(false, dir, listing, content, MigrationView::CheckingSessionsDir, ActionView::CheckSessionsDir, f1) == (fin0, e + (e + e), true));
        assert(e + (e + e) =~= e);
    } else {
        match listing {
            None => {
                assert(run_on_disk(false, dir, listing, content, fin0, ActionView::Stop, f3) == (fin0, e, false));
                assert(run_on_disk(false, dir, listing, content, MigrationView::Listing, ActionView::ListSessions, f2) == (fin0, e + e, false));
                assert(run_on_disk(false, dir, listing, content, MigrationView::CheckingSessionsDir, ActionView::CheckSessionsDir, f1) == (fin0, e + (e + e), false));
                assert(e + (e + e) =~= e);
            },
            Some(names) => {
                lemma_json_names_are_json(names, names.len() as int);
                let files = json_names(names, names.len() as int);
                let r = run_on_disk(false, dir, listing, content, MigrationView::Listing, ActionView::ListSessions, f2);
                if files.len() == 0 {
                    let md = MigrationView::MarkingDone { total: 0, migrated: 0 };
                    assert(run_on_disk(false, dir, listing, content, fin0, ActionView::Stop, f4) == (fin0, e, false));
                    assert(run_on_disk(false, dir, listing, content, md, ActionView::WriteMarker, f3) == (fin0, e + e, true));
                    assert(r == (fin0, e + (e + e), true));
                    assert(unset_from(files, content, 0) =~= e);
                } else {
                    lemma_scan(false, dir, listing, content, files, 0, 0, f3);
                    let u = unset_from(files, content, 0);
                    assert(r == (
                        MigrationView::Finished { total: files.len() as int, migrated: u.len() as int },
                        e + u,
                        true,
                    ));
                    assert(e + u =~= u);
                }
                assert(e + r.1 =~= r.1);
                assert(e + (e + r.1) =~= r.1);
            },
        }
    }
}

} // verus!
