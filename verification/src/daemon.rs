//! Daemon request rules: bearer-token authentication, the subagent trace
//! stream's filters, the global event kinds, and the mapping of
//! coordinator failures and checkpoint scopes to HTTP answers.
use vstd::prelude::*;
use crate::entry::{
    is_hyphenated_uuid, is_lower_hex, is_uuid_dash_pos, new_uuid_string, MemoryOrigin, PruneResult,
};
use crate::keyvalue::{trim_by, trim_whitespace, unicode_ws};
use crate::pool::MemoryCounts;
use crate::tokenizer::string_views;
use crate::text::{
    append_str, char_is_whitespace, chars_of, is_unicode_whitespace, str_eq, string_from_chars,
    slice_chars, starts_with_chars, starts_with_seq,
};

verus! {

broadcast use vstd::seq_lib::group_seq_properties;

// ── Authentication ─────────────────────────────────────────────────────

/// The body of every 401 answer.
pub const UNAUTHORIZED_MESSAGE: &'static str = "unauthorized: missing or invalid bearer token";

/// `s` without its `-` characters.
pub open spec fn without_dashes(s: Seq<char>) -> Seq<char>
    decreases s.len(),
{
    if s.len() == 0 {
        s
    } else if s.last() == '-' {
        without_dashes(s.drop_last())
    } else {
        without_dashes(s.drop_last()).push(s.last())
    }
}

fn strip_dashes(s: &str) -> (r: String)
    ensures
        r@ == without_dashes(s@),
{
    let v = chars_of(s);
    let mut out: Vec<char> = Vec::new();
    let mut i: usize = 0;
    while i < v.len()
        invariant
            i <= v@.len(),
            v@ == s@,
            out@ == without_dashes(v@.take(i as int)),
        decreases v.len() - i,
    {
        assert(v@.take(i + 1).drop_last() =~= v@.take(i as int));
        if v[i] != '-' {
            out.push(v[i]);
        }
        i += 1;
    }
    assert(v@.take(v@.len() as int) =~= v@);
    string_from_chars(out.as_slice())
}

proof fn lemma_without_dashes_has_none(s: Seq<char>)
    ensures
        !without_dashes(s).contains('-'),
    decreases s.len(),
{
    if s.len() > 0 {
        lemma_without_dashes_has_none(s.drop_last());
    }
}

proof fn lemma_without_dashes_concat(a: Seq<char>, b: Seq<char>)
    ensures
        without_dashes(a + b) == without_dashes(a) + without_dashes(b),
    decreases b.len(),
{
    if b.len() == 0 {
        assert(a + b =~= a);
        assert(without_dashes(a) + without_dashes(b) =~= without_dashes(a));
    } else {
        assert((a + b).drop_last() =~= a + b.drop_last());
        assert((a + b).last() == b.last());
        lemma_without_dashes_concat(a, b.drop_last());
        if b.last() != '-' {
            assert(without_dashes(a) + without_dashes(b.drop_last()).push(b.last()) =~= (
            without_dashes(a) + without_dashes(b.drop_last())).push(b.last()));
        }
    }
}

proof fn lemma_without_dashes_keeps_dashless(a: Seq<char>)
    requires
        forall|i: int| 0 <= i < a.len() ==> a[i] != '-',
    ensures
        without_dashes(a) == a,
    decreases a.len(),
{
    if a.len() > 0 {
        lemma_without_dashes_keeps_dashless(a.drop_last());
        assert(a.drop_last().push(a.last()) =~= a);
    }
}

/// Thirty-two lower-case hexadecimal digits.
pub open spec fn is_api_token(t: Seq<char>) -> bool {
    t.len() == 32 && forall|i: int| 0 <= i < 32 ==> is_lower_hex(#[trigger] t[i])
}

proof fn lemma_uuid_without_dashes(u: Seq<char>)
    requires
        is_hyphenated_uuid(u),
    ensures
        is_api_token(without_dashes(u)),
{
    let dash = seq!['-'];
    let p0 = u.subrange(0, 8);
    let p1 = u.subrange(9, 13);
    let p2 = u.subrange(14, 18);
    let p3 = u.subrange(19, 23);
    let p4 = u.subrange(24, 36);
    assert(u =~= p0 + dash + p1 + dash + p2 + dash + p3 + dash + p4) by {
        assert(is_uuid_dash_pos(8) && is_uuid_dash_pos(13) && is_uuid_dash_pos(18)
            && is_uuid_dash_pos(23));
        assert(u[8] == '-' && u[13] == '-' && u[18] == '-' && u[23] == '-');
    }
    assert(without_dashes(dash) =~= Seq::<char>::empty()) by {
        assert(dash.len() == 1 && dash.last() == '-');
        assert(dash.drop_last() =~= Seq::<char>::empty());
        assert(without_dashes(dash) == without_dashes(dash.drop_last()));
    }
    assert forall|i: int| 0 <= i < 8 implies p0[i] != '-' && is_lower_hex(#[trigger] p0[i]) by {
        assert(!is_uuid_dash_pos(i) && is_lower_hex(u[i]));
    }
    assert forall|i: int| 0 <= i < 4 implies p1[i] != '-' && is_lower_hex(#[trigger] p1[i]) by {
        assert(!is_uuid_dash_pos(i + 9) && is_lower_hex(u[i + 9]));
    }
    assert forall|i: int| 0 <= i < 4 implies p2[i] != '-' && is_lower_hex(#[trigger] p2[i]) by {
        assert(!is_uuid_dash_pos(i + 14) && is_lower_hex(u[i + 14]));
    }
    assert forall|i: int| 0 <= i < 4 implies p3[i] != '-' && is_lower_hex(#[trigger] p3[i]) by {
        assert(!is_uuid_dash_pos(i + 19) && is_lower_hex(u[i + 19]));
    }
    assert forall|i: int| 0 <= i < 12 implies p4[i] != '-' && is_lower_hex(#[trigger] p4[i]) by {
        assert(!is_uuid_dash_pos(i + 24) && is_lower_hex(u[i + 24]));
    }
    lemma_without_dashes_keeps_dashless(p0);
    lemma_without_dashes_keeps_dashless(p1);
    lemma_without_dashes_keeps_dashless(p2);
    lemma_without_dashes_keeps_dashless(p3);
    lemma_without_dashes_keeps_dashless(p4);
    lemma_without_dashes_concat(p0 + dash + p1 + dash + p2 + dash + p3 + dash, p4);
    lemma_without_dashes_concat(p0 + dash + p1 + dash + p2 + dash + p3, dash);
    lemma_without_dashes_concat(p0 + dash + p1 + dash + p2 + dash, p3);
    lemma_without_dashes_concat(p0 + dash + p1 + dash + p2, dash);
    lemma_without_dashes_concat(p0 + dash + p1 + dash, p2);
    lemma_without_dashes_concat(p0 + dash + p1, dash);
    lemma_without_dashes_concat(p0 + dash, p1);
    lemma_without_dashes_concat(p0, dash);
    let t = without_dashes(u);
    assert(t =~= p0 + p1 + p2 + p3 + p4);
    assert forall|i: int| 0 <= i < 32 implies is_lower_hex(#[trigger] t[i]) by {
        if i < 8 {
            assert(t[i] == p0[i]);
        } else if i < 12 {
            assert(t[i] == p1[i - 8]);
        } else if i < 16 {
            assert(t[i] == p2[i - 12]);
        } else if i < 20 {
            assert(t[i] == p3[i - 16]);
        } else {
            assert(t[i] == p4[i - 20]);
        }
    }
}

/// A fresh random API token: a v4 UUID with its dashes removed, that is 32
/// lower-case hexadecimal digits.
pub fn generate_api_token() -> (r: String)
    ensures
        is_api_token(r@),
        !r@.contains('-'),
{
    let u = new_uuid_string();
    let r = strip_dashes(u.as_str());
    proof {
        lemma_without_dashes_has_none(u@);
        lemma_uuid_without_dashes(u@);
    }
    r
}

/// Position of the first `c` in `s`.
pub open spec fn first_pos(s: Seq<char>, c: char) -> Option<int>
    decreases s.len(),
{
    if s.len() == 0 {
        None
    } else if s[0] == c {
        Some(0)
    } else {
        match first_pos(s.drop_first(), c) {
            Some(i) => Some(i + 1),
            None => None,
        }
    }
}

pub proof fn lemma_first_pos_bound(s: Seq<char>, c: char)
    ensures
        first_pos(s, c) matches Some(i) ==> 0 <= i < s.len(),
    decreases s.len(),
{
    if s.len() > 0 && s[0] != c {
        lemma_first_pos_bound(s.drop_first(), c);
    }
}

proof fn lemma_first_pos(s: Seq<char>, c: char, i: int)
    requires
        0 <= i <= s.len(),
        forall|j: int| 0 <= j < i ==> s[j] != c,
    ensures
        i < s.len() && s[i] == c ==> first_pos(s, c) == Some(i),
        i == s.len() ==> first_pos(s, c) is None,
    decreases i,
{
    if i > 0 {
        assert forall|j: int| 0 <= j < i - 1 implies s.drop_first()[j] != c by {
            assert(s.drop_first()[j] == s[j + 1]);
        }
        if i < s.len() {
            assert(s.drop_first()[i - 1] == s[i]);
        }
        lemma_first_pos(s.drop_first(), c, i - 1);
    }
}

/// The value of a `key=value` pair whose key is `token` (split at the first
/// `=`); none for other keys or a pair without `=`.
pub open spec fn token_pair_value(pair: Seq<char>) -> Option<Seq<char>> {
    match first_pos(pair, '=') {
        Some(e) => if pair.take(e) == seq!['t', 'o', 'k', 'e', 'n'] {
            Some(pair.skip(e + 1))
        } else {
            None
        },
        None => None,
    }
}

/// The `token` query parameter: the value of the first `&`-separated pair
/// whose key is `token`, taken verbatim.
pub open spec fn query_token_spec(q: Seq<char>) -> Option<Seq<char>>
    decreases q.len(),
{
    match first_pos(q, '&') {
        None => token_pair_value(q),
        Some(a) => match token_pair_value(q.take(a)) {
            Some(v) => Some(v),
            None => {
                proof {
                    lemma_first_pos_bound(q, '&');
                }
                query_token_spec(q.skip(a + 1))
            },
        },
    }
}

fn pair_token_value(pair: &[char]) -> (r: Option<Vec<char>>)
    ensures
        match r {
            Some(v) => token_pair_value(pair@) == Some(v@),
            None => token_pair_value(pair@) is None,
        },
{
    let mut e: usize = 0;
    while e < pair.len() && pair[e] != '='
        invariant
            e <= pair@.len(),
            forall|j: int| 0 <= j < e ==> pair@[j] != '=',
        decreases pair.len() - e,
    {
        e += 1;
    }
    proof {
        lemma_first_pos(pair@, '=', e as int);
    }
    if e == pair.len() {
        return None;
    }
    let key = slice_chars(pair, 0, e);
    let tok: [char; 5] = ['t', 'o', 'k', 'e', 'n'];
    assert(tok@ =~= seq!['t', 'o', 'k', 'e', 'n']);
    assert(key@ =~= pair@.take(e as int));
    if crate::text::chars_eq(key.as_slice(), tok.as_slice()) {
        let v = slice_chars(pair, e + 1, pair.len());
        assert(v@ =~= pair@.skip(e + 1));
        Some(v)
    } else {
        None
    }
}

/// The `token` parameter of a query string, if present.
pub fn query_token(query: &str) -> (r: Option<String>)
    ensures
        match r {
            Some(v) => query_token_spec(query@) == Some(v@),
            None => query_token_spec(query@) is None,
        },
{
    let v = chars_of(query);
    let mut start: usize = 0;
    loop
        invariant
            start <= v@.len(),
            v@ == query@,
            query_token_spec(query@) == query_token_spec(v@.skip(start as int)),
        decreases v@.len() - start,
    {
        let ghost rest = v@.skip(start as int);
        let mut a = start;
        while a < v.len() && v[a] != '&'
            invariant
                start <= a <= v@.len(),
                forall|j: int| start <= j < a ==> v@[j] != '&',
            decreases v.len() - a,
        {
            a += 1;
        }
        proof {
            assert forall|j: int| 0 <= j < a - start implies rest[j] != '&' by {
                assert(rest[j] == v@[start + j]);
            }
            lemma_first_pos(rest, '&', a - start);
        }
        let pair = slice_chars(v.as_slice(), start, a);
        assert(pair@ =~= rest.take(a - start));
        match pair_token_value(pair.as_slice()) {
            Some(val) => {
                if a == v.len() {
                    assert(rest.take(a - start) =~= rest);
                }
                return Some(string_from_chars(val.as_slice()));
            },
            None => {},
        }
        if a == v.len() {
            assert(rest.take(a - start) =~= rest);
            return None;
        }
        assert(rest.skip(a - start + 1) =~= v@.skip(a + 1));
        start = a + 1;
    }
}

/// The credential a request presents: the `Authorization` header's value
/// after `Bearer ` when the header is there with that prefix, else the
/// `token` query parameter.
pub open spec fn presented_token_spec(authorization: Option<Seq<char>>, query: Option<Seq<char>>) -> Option<Seq<char>> {
    let bearer = seq!['B', 'e', 'a', 'r', 'e', 'r', ' '];
    match authorization {
        Some(h) if starts_with_seq(h, bearer) => Some(h.skip(7)),
        _ => match query {
            Some(q) => query_token_spec(q),
            None => None,
        },
    }
}

/// The credential presented with a request, from its `Authorization`
/// header value (when readable as text) and its query string.
pub fn presented_token(authorization: Option<&str>, query: Option<&str>) -> (r: Option<String>)
    ensures
        match r {
            Some(v) => presented_token_spec(opt_view(authorization), opt_view(query)) == Some(v@),
            None => presented_token_spec(opt_view(authorization), opt_view(query)) is None,
        },
{
    let bearer: [char; 7] = ['B', 'e', 'a', 'r', 'e', 'r', ' '];
    assert(bearer@ =~= seq!['B', 'e', 'a', 'r', 'e', 'r', ' ']);
    match authorization {
        Some(h) => {
            let hv = chars_of(h);
            if starts_with_chars(hv.as_slice(), bearer.as_slice()) {
                let rest = slice_chars(hv.as_slice(), 7, hv.len());
                assert(rest@ =~= hv@.skip(7));
                return Some(string_from_chars(rest.as_slice()));
            }
        },
        None => {},
    }
    match query {
        Some(q) => query_token(q),
        None => None,
    }
}

pub open spec fn opt_view(o: Option<&str>) -> Option<Seq<char>> {
    match o {
        Some(s) => Some(s@),
        None => None,
    }
}

/// A presented credential is accepted: the expected token is set (not
/// empty) and the credential equals it.
pub open spec fn token_accepted(expected: Seq<char>, presented: Option<Seq<char>>) -> bool {
    expected.len() > 0 && presented == Some(expected)
}

/// Whether a presented credential is accepted (`token_accepted`).
pub fn token_matches(expected: &str, presented: Option<&str>) -> (r: bool)
    ensures
        r == token_accepted(expected@, opt_view(presented)),
{
    let e = chars_of(expected);
    if e.len() == 0 {
        return false;
    }
    match presented {
        Some(p) => str_eq(p, expected),
        None => false,
    }
}

/// An uninitialized daemon (empty expected token) accepts no credential at
/// all, an empty one included.
pub proof fn law_empty_expected_rejects_everything(presented: Option<Seq<char>>)
    ensures
        !token_accepted(Seq::<char>::empty(), presented),
{
}

// ── Subagent trace stream ──────────────────────────────────────────────

/// Query of the trace stream and replay endpoints.
#[derive(Clone, Debug)]
pub struct TraceStreamQuery {
    /// Only this session's events; all sessions when absent.
    pub session_id: Option<String>,
    /// Unix milliseconds; events at or before it are skipped.
    pub since: Option<i64>,
}

/// What the live filter reads of a trace event.
#[derive(Clone, Debug)]
pub struct TraceMark {
    pub ts: i64,
    pub session_id: String,
}

/// Whether a live trace event goes to a subscriber filtered by an optional
/// session and a `since` watermark (events with `ts <= since` are dropped).
pub fn should_emit_live(ev: &TraceMark, session_id: Option<&str>, since: i64) -> (r: bool)
    ensures
        r == ((session_id matches Some(s) ==> ev.session_id@ == s@) && ev.ts > since),
{
    match session_id {
        Some(sid) => {
            if !str_eq(ev.session_id.as_str(), sid) {
                return false;
            }
        },
        None => {},
    }
    ev.ts > since
}

/// The replay order of persisted headers listed newest first: the
/// positions of those started after `since`, oldest first.
pub open spec fn replay_positions(started_desc: Seq<i64>, since: i64, n: int) -> Seq<usize>
    decreases n,
{
    if n <= 0 {
        seq![]
    } else if started_desc[n - 1] > since {
        seq![(n - 1) as usize] + replay_positions(started_desc, since, n - 1)
    } else {
        replay_positions(started_desc, since, n - 1)
    }
}

/// Cold-start replay: which persisted headers (given newest first, by
/// their start times) are replayed, in chronological order.
pub fn replay_order(started_desc: &[i64], since: i64) -> (r: Vec<usize>)
    ensures
        r@ == replay_positions(started_desc@, since, started_desc@.len() as int),
{
    let mut out: Vec<usize> = Vec::new();
    let mut n = started_desc.len();
    while n > 0
        invariant
            n <= started_desc@.len(),
            out@ + replay_positions(started_desc@, since, n as int) == replay_positions(
                started_desc@,
                since,
                started_desc@.len() as int,
            ),
        decreases n,
    {
        let ghost before = out@;
        if started_desc[n - 1] > since {
            out.push(n - 1);
            assert(out@ + replay_positions(started_desc@, since, n - 1) =~= before
                + replay_positions(started_desc@, since, n as int));
        }
        n -= 1;
    }
    assert(out@ + seq![] =~= out@);
    out
}

// ── Global events ──────────────────────────────────────────────────────

/// Kinds of daemon-wide events.
#[derive(Clone, Copy, Debug, PartialEq, Eq, Structural)]
pub enum GlobalEventKind {
    /// Full todos snapshot.
    TodosChanged,
    BackgroundResult,
    ModeChanged,
    ModelChanged,
    TaskGroupResult,
    /// Transport-level configuration changed.
    ConfigChanged,
}

/// Capacity of the global event channel.
pub const GLOBAL_EVENT_HUB_CAPACITY: usize = 1024;

impl GlobalEventKind {
    /// The snake-case name an event kind carries on the wire.
    pub fn wire_name(&self) -> (r: &'static str)
        ensures
            *self == GlobalEventKind::TodosChanged ==> r@ == "todos_changed"@,
            *self == GlobalEventKind::BackgroundResult ==> r@ == "background_result"@,
            *self == GlobalEventKind::ModeChanged ==> r@ == "mode_changed"@,
            *self == GlobalEventKind::ModelChanged ==> r@ == "model_changed"@,
            *self == GlobalEventKind::TaskGroupResult ==> r@ == "task_group_result"@,
            *self == GlobalEventKind::ConfigChanged ==> r@ == "config_changed"@,
    {
        match self {
            GlobalEventKind::TodosChanged => "todos_changed",
            GlobalEventKind::BackgroundResult => "background_result",
            GlobalEventKind::ModeChanged => "mode_changed",
            GlobalEventKind::ModelChanged => "model_changed",
            GlobalEventKind::TaskGroupResult => "task_group_result",
            GlobalEventKind::ConfigChanged => "config_changed",
        }
    }
}

/// Sequence numbers of the global bus: each broadcast takes the next one,
/// starting at 1.
pub struct GlobalSeq {
    last: u64,
}

impl GlobalSeq {
    pub closed spec fn view(&self) -> u64 {
        self.last
    }

    pub fn new() -> (r: GlobalSeq)
        ensures
            r@ == 0,
    {
        GlobalSeq { last: 0 }
    }

    /// The sequence number of the next event (saturating at `u64::MAX`).
    pub fn next(&mut self) -> (r: u64)
        ensures
            old(self)@ < u64::MAX ==> r == old(self)@ + 1,
            old(self)@ == u64::MAX ==> r == u64::MAX,
            final(self)@ == r,
    {
        self.last = self.last.saturating_add(1);
        self.last
    }
}

// ── Coordinator and checkpoint answers ─────────────────────────────────

/// Failures of the agent coordinator that a scoped request can meet.
#[derive(Clone, Debug)]
pub enum CoordinatorError {
    /// The target is not visible to the caller.
    NotVisible,
    /// Any storage failure.
    Storage(String),
}

/// The HTTP status of a coordinator failure: a hidden target is an
/// indistinguishable 404, anything else a 500.
pub fn map_scoped_coordinator_error(error: CoordinatorError) -> (r: u16)
    ensures
        r == match error {
            CoordinatorError::NotVisible => 404u16,
            _ => 500u16,
        },
{
    match error {
        CoordinatorError::NotVisible => 404,
        _ => 500,
    }
}

/// Body of `POST /api/v1/tools/undo-turn`: turns oldest first, and the
/// project whose checkpoints hold them (the main project when absent).
#[derive(Clone, Debug)]
pub struct UndoTurnRangeRequest {
    pub turn_ids: Vec<String>,
    pub project: Option<String>,
}

/// Query of `GET /api/v1/checkpoints`.
#[derive(Clone, Debug)]
pub struct ListCheckpointsQuery {
    pub project: Option<String>,
}

/// Which checkpoint store a request addresses: the main one when no
/// project is named (`Ok(None)`), the named project's resolved root when it
/// is registered, else a 400 with `not a registered project: <name>`.
pub fn checkpoint_scope(project: Option<&str>, resolved_root: Option<String>) -> (r: Result<
    Option<String>,
    (u16, String),
>)
    ensures
        match project {
            None => r == Ok::<Option<String>, (u16, String)>(None),
            Some(p) => match resolved_root {
                Some(root) => r == Ok::<Option<String>, (u16, String)>(Some(root)),
                None => r matches Err((code, msg)) && code == 400 && msg@
                    == "not a registered project: "@ + p@,
            },
        },
{
    match project {
        None => Ok(None),
        Some(p) => match resolved_root {
            Some(root) => Ok(Some(root)),
            None => {
                let mut v = chars_of("not a registered project: ");
                let pv = chars_of(p);
                let mut i: usize = 0;
                let ghost head = v@;
                while i < pv.len()
                    invariant
                        i <= pv@.len(),
                        v@ == head + pv@.take(i as int),
                    decreases pv.len() - i,
                {
                    v.push(pv[i]);
                    assert(pv@.take(i + 1) =~= pv@.take(i as int).push(pv@[i as int]));
                    i += 1;
                }
                assert(pv@.take(pv@.len() as int) =~= pv@);
                Err((400, string_from_chars(v.as_slice())))
            },
        },
    }
}

// ── Memory endpoints ───────────────────────────────────────────────────

/// The wire name of a memory pool.
pub fn origin_str(o: MemoryOrigin) -> (r: &'static str)
    ensures
        o == MemoryOrigin::Project ==> r@ == "project"@,
        o == MemoryOrigin::Global ==> r@ == "global"@,
{
    match o {
        MemoryOrigin::Project => "project",
        MemoryOrigin::Global => "global",
    }
}

/// The pool named by a delete request's `origin` parameter: `global`, or
/// `project` (also when empty); anything else is a 400 with
/// `invalid origin '<value>': expected 'project' or 'global'`.
pub fn parse_delete_origin(origin: &str) -> (r: Result<MemoryOrigin, (u16, String)>)
    ensures
        origin@ == "global"@ ==> r == Ok::<MemoryOrigin, (u16, String)>(MemoryOrigin::Global),
        origin@ == "project"@ || origin@.len() == 0 ==> r == Ok::<MemoryOrigin, (u16, String)>(
            MemoryOrigin::Project,
        ),
        !(origin@ == "global"@ || origin@ == "project"@ || origin@.len() == 0) ==> (r matches Err((code, msg)) && code == 400 && msg@ == "invalid origin '"@ + origin@ + "': expected 'project' or 'global'"@),
{
    proof {
        reveal_strlit("global");
        reveal_strlit("project");
        reveal_strlit("");
    }
    assert("global"@[0] == 'g' && "project"@[0] == 'p');
    assert("global"@ != "project"@);
    if str_eq(origin, "global") {
        return Ok(MemoryOrigin::Global);
    }
    proof {
        if origin@.len() == 0 {
            assert(origin@ =~= ""@);
        }
    }
    if str_eq(origin, "project") || str_eq(origin, "") {
        proof {
            reveal_strlit("");
        }
        return Ok(MemoryOrigin::Project);
    }
    proof {
        reveal_strlit("");
    }
    let mut buf: Vec<char> = Vec::new();
    append_str(&mut buf, "invalid origin '");
    append_str(&mut buf, origin);
    append_str(&mut buf, "': expected 'project' or 'global'");
    Err((400, string_from_chars(buf.as_slice())))
}

/// Whether a listed entry of pool `o` passes the `scope` filter:
/// `project` and `global` keep their pool, anything else keeps all.
pub fn scope_keeps(scope: Option<&str>, o: MemoryOrigin) -> (r: bool)
    ensures
        r == match scope {
            Some(s) => if s@ == "project"@ {
                o == MemoryOrigin::Project
            } else if s@ == "global"@ {
                o == MemoryOrigin::Global
            } else {
                true
            },
            None => true,
        },
{
    match scope {
        Some(s) => {
            if str_eq(s, "project") {
                o == MemoryOrigin::Project
            } else if str_eq(s, "global") {
                o == MemoryOrigin::Global
            } else {
                true
            }
        },
        None => true,
    }
}

/// The listing limit: 500 by default, clamped to `1..=5000`.
pub fn list_limit(limit: Option<usize>) -> (r: usize)
    ensures
        r == match limit {
            Some(l) => if l < 1 {
                1
            } else if l > 5000 {
                5000
            } else {
                l
            },
            None => 500,
        },
{
    match limit {
        Some(l) => if l < 1 {
            1
        } else if l > 5000 {
            5000
        } else {
            l
        },
        None => 500,
    }
}

/// A dry-run prune changes nothing: before equals after in each pool.
pub fn dry_run_prune(counts: MemoryCounts) -> (r: PruneResult)
    ensures
        r.before == counts.total_memories && r.after == counts.total_memories && r.removed == 0,
        r.project_before == counts.project_count && r.project_after == counts.project_count,
        r.global_before == counts.global_count && r.global_after == counts.global_count,
{
    PruneResult {
        before: counts.total_memories,
        after: counts.total_memories,
        removed: 0,
        project_before: counts.project_count,
        project_after: counts.project_count,
        global_before: counts.global_count,
        global_after: counts.global_count,
    }
}

// ── Errors and progress ────────────────────────────────────────────────

/// An error message followed by its non-empty causes, each after `: `.
pub open spec fn error_chain_spec(msgs: Seq<Seq<char>>, n: int) -> Seq<char>
    decreases n,
{
    if n <= 1 {
        msgs[0]
    } else if msgs[n - 1].len() == 0 {
        error_chain_spec(msgs, n - 1)
    } else {
        error_chain_spec(msgs, n - 1) + seq![':', ' '] + msgs[n - 1]
    }
}

/// Format an error with its cause chain: `messages[0]` is the error's own
/// message, the rest those of its causes, outermost first.
pub fn format_error_chain(messages: &[String]) -> (r: String)
    requires
        messages@.len() > 0,
    ensures
        r@ == error_chain_spec(messages@.map_values(|m: String| m@), messages@.len() as int),
{
    let ghost ms = messages@.map_values(|m: String| m@);
    let mut buf: Vec<char> = Vec::new();
    append_str(&mut buf, messages[0].as_str());
    let mut i: usize = 1;
    while i < messages.len()
        invariant
            1 <= i <= messages@.len(),
            ms == messages@.map_values(|m: String| m@),
            buf@ == error_chain_spec(ms, i as int),
        decreases messages.len() - i,
    {
        assert(ms[i as int] == messages@[i as int]@);
        if !messages[i].as_str().is_empty() {
            buf.push(':');
            buf.push(' ');
            append_str(&mut buf, messages[i].as_str());
        }
        i += 1;
    }
    string_from_chars(buf.as_slice())
}

/// What the elapsed-time display reads of a subagent's progress.
#[derive(Clone, Copy, Debug, PartialEq, Eq, Structural)]
pub struct ProgressMark {
    pub elapsed_ms: u64,
    /// Unix milliseconds; 0 or less when unknown.
    pub started_at: i64,
    pub terminal: bool,
}

/// A live elapsed time: 0 without progress; the stored value for a
/// finished agent or an unknown start; else the time since the start (not
/// negative), and never less than the stored value.
pub fn live_elapsed_ms(progress: Option<ProgressMark>, now_ms: i64) -> (r: u64)
    ensures
        r == match progress {
            None => 0u64,
            Some(p) => if p.terminal || p.started_at <= 0 {
                p.elapsed_ms
            } else {
                let d = if now_ms - p.started_at < 0 { 0 } else { now_ms - p.started_at };
                if d > p.elapsed_ms { d as u64 } else { p.elapsed_ms }
            },
        },
{
    match progress {
        None => 0,
        Some(p) => {
            if p.terminal || p.started_at <= 0 {
                return p.elapsed_ms;
            }
            let d: i64 = if now_ms < p.started_at { 0 } else { now_ms - p.started_at };
            let du = d as u64;
            if du > p.elapsed_ms { du } else { p.elapsed_ms }
        },
    }
}

// ── Tool calls ─────────────────────────────────────────────────────────

/// What the tool policy answered for a call.
#[derive(Clone, Copy, Debug, PartialEq, Eq, Structural)]
pub enum ToolPolicyAnswer {
    /// The call may run.
    Allow,
    /// The call needs the user's approval of its session rule.
    Ask,
    /// The policy rejected the call (or failed).
    Rejected,
}

/// What the daemon does with a tool call.
#[derive(Clone, Copy, Debug, PartialEq, Eq, Structural)]
pub enum ToolCallStep {
    /// Run the tool now.
    Execute,
    /// Answer that permission is required, with the policy's reason and rule.
    RequirePermission,
    /// Answer with the policy's error.
    Refuse,
}

/// The decision of `execute_tool`: an allowed call runs; a call that asks
/// runs when its session rule was approved before or the session's mode
/// approves the tool on its own, and otherwise asks the user; a rejected
/// call is refused.
pub fn tool_call_step(answer: ToolPolicyAnswer, rule_approved: bool, mode_auto_approves: bool) -> (r:
    ToolCallStep)
    ensures
        r == match answer {
            ToolPolicyAnswer::Allow => ToolCallStep::Execute,
            ToolPolicyAnswer::Ask => if rule_approved || mode_auto_approves {
                ToolCallStep::Execute
            } else {
                ToolCallStep::RequirePermission
            },
            ToolPolicyAnswer::Rejected => ToolCallStep::Refuse,
        },
{
    match answer {
        ToolPolicyAnswer::Allow => ToolCallStep::Execute,
        ToolPolicyAnswer::Ask => if rule_approved || mode_auto_approves {
            ToolCallStep::Execute
        } else {
            ToolCallStep::RequirePermission
        },
        ToolPolicyAnswer::Rejected => ToolCallStep::Refuse,
    }
}

// ── Transport configuration updates ────────────────────────────────────

/// The transport settings a configuration update may change.
#[derive(Clone, Debug)]
pub struct TransportSettings {
    /// Output cap of provider requests; 0 omits it.
    pub max_tokens: u32,
    /// Request timeout in seconds.
    pub timeout: u64,
    pub streaming: bool,
    /// Base URL of the main model's API; `None` uses the provider default.
    pub base_url: Option<String>,
}

/// The fields of a configuration update; `None` leaves a setting as it is.
#[derive(Clone, Debug)]
pub struct ConfigUpdate {
    pub max_tokens: Option<u32>,
    pub timeout: Option<u64>,
    pub streaming: Option<bool>,
    pub api_base: Option<String>,
}

/// Nothing but whitespace.
pub open spec fn is_blank(s: Seq<char>) -> bool {
    forall|j: int| 0 <= j < s.len() ==> is_unicode_whitespace(#[trigger] s[j])
}

fn is_blank_exec(s: &str) -> (r: bool)
    ensures
        r == is_blank(s@),
{
    let v = chars_of(s);
    let mut i: usize = 0;
    while i < v.len()
        invariant
            i <= v@.len(),
            v@ == s@,
            forall|j: int| 0 <= j < i ==> is_unicode_whitespace(#[trigger] v@[j]),
        decreases v.len() - i,
    {
        if !char_is_whitespace(v[i]) {
            return false;
        }
        i += 1;
    }
    true
}

/// Apply a configuration update: a zero timeout is refused with 400
/// `timeout must be > 0`; a blank `api_base` clears the base URL; every
/// other given field replaces the setting.
pub fn apply_config_update(current: TransportSettings, update: ConfigUpdate) -> (r: Result<
    TransportSettings,
    (u16, String),
>)
    ensures
        update.timeout == Some(0u64) ==> (r matches Err((code, msg)) && code == 400 && msg@
            == "timeout must be > 0"@),
        update.timeout != Some(0u64) ==> (r matches Ok(t) && {
            &&& t.max_tokens == match update.max_tokens {
                Some(m) => m,
                None => current.max_tokens,
            }
            &&& t.timeout == match update.timeout {
                Some(x) => x,
                None => current.timeout,
            }
            &&& t.streaming == match update.streaming {
                Some(b) => b,
                None => current.streaming,
            }
            &&& t.base_url == match update.api_base {
                Some(b) => if is_blank(b@) {
                    None
                } else {
                    Some(b)
                },
                None => current.base_url,
            }
        }),
{
    let mut t = current;
    if let Some(m) = update.max_tokens {
        t.max_tokens = m;
    }
    if let Some(x) = update.timeout {
        if x == 0 {
            return Err((400, "timeout must be > 0".to_string()));
        }
        t.timeout = x;
    }
    if let Some(b) = update.streaming {
        t.streaming = b;
    }
    match update.api_base {
        Some(base) => {
            if is_blank_exec(base.as_str()) {
                t.base_url = None;
            } else {
                t.base_url = Some(base);
            }
        },
        None => {},
    }
    Ok(t)
}

// ── Relaying an upstream event stream ─────────────────────────────────

/// What one complete upstream line contributes: nothing when it is blank,
/// else its trimmed text without a leading `data: `.
pub open spec fn sse_payload(line: Seq<char>) -> Seq<Seq<char>> {
    let t = trim_by(line, unicode_ws());
    if t.len() == 0 {
        seq![]
    } else if starts_with_seq(t, seq!['d', 'a', 't', 'a', ':', ' ']) {
        seq![t.skip(6)]
    } else {
        seq![t]
    }
}

/// Scanning `s` from `i`, with the current line starting at `start`: the
/// payloads of the complete lines, and the unfinished last line.
pub open spec fn sse_frame(s: Seq<char>, start: int, i: int) -> (Seq<Seq<char>>, Seq<char>)
    decreases s.len() - i,
{
    if i >= s.len() {
        (seq![], s.subrange(start, s.len() as int))
    } else if s[i] == '\n' {
        let rest = sse_frame(s, i + 1, i + 1);
        (sse_payload(s.subrange(start, i)) + rest.0, rest.1)
    } else {
        sse_frame(s, start, i + 1)
    }
}

/// Append a decoded chunk of an upstream event stream to `buffer`, take out
/// every complete line (a line may be split across chunks) and return their
/// payloads in order; the unfinished last line stays in `buffer`.
pub fn sse_take_lines(buffer: &mut String, chunk: &str) -> (r: Vec<String>)
    ensures
        string_views(r@) == sse_frame(old(buffer)@ + chunk@, 0, 0).0,
        final(buffer)@ == sse_frame(old(buffer)@ + chunk@, 0, 0).1,
{
    let mut v = chars_of(buffer.as_str());
    append_str(&mut v, chunk);
    let ghost s = v@;
    let prefix: [char; 6] = ['d', 'a', 't', 'a', ':', ' '];
    assert(prefix@ =~= seq!['d', 'a', 't', 'a', ':', ' ']);
    let mut out: Vec<String> = Vec::new();
    let mut start: usize = 0;
    let mut i: usize = 0;
    while i < v.len()
        invariant
            s == v@,
            s == old(buffer)@ + chunk@,
            prefix@ == seq!['d', 'a', 't', 'a', ':', ' '],
            start <= i <= v@.len(),
            string_views(out@) + sse_frame(s, start as int, i as int).0 == sse_frame(s, 0, 0).0,
            sse_frame(s, start as int, i as int).1 == sse_frame(s, 0, 0).1,
        decreases v.len() - i,
    {
        if v[i] == '\n' {
            let line = slice_chars(v.as_slice(), start, i);
            let t = trim_whitespace(line.as_slice());
            let ghost before = string_views(out@);
            if t.len() > 0 {
                if starts_with_chars(t.as_slice(), prefix.as_slice()) {
                    let rest = slice_chars(t.as_slice(), 6, t.len());
                    out.push(string_from_chars(rest.as_slice()));
                    assert(string_views(out@) =~= before + seq![t@.skip(6)]);
                } else {
                    out.push(string_from_chars(t.as_slice()));
                    assert(string_views(out@) =~= before + seq![t@]);
                }
            } else {
                assert(before + seq![] =~= before);
            }
            assert(string_views(out@) == before + sse_payload(s.subrange(start as int, i as int)));
            assert(string_views(out@) + sse_frame(s, i + 1, i + 1).0 =~= before + (sse_payload(
                s.subrange(start as int, i as int),
            ) + sse_frame(s, i + 1, i + 1).0));
            start = i + 1;
        }
        i += 1;
    }
    assert(string_views(out@) + seq![] =~= string_views(out@));
    let rest = slice_chars(v.as_slice(), start, v.len());
    *buffer = string_from_chars(rest.as_slice());
    out
}


/// Append the payload of one complete line (`sse_payload`) to `out`.
fn push_payload(out: &mut Vec<String>, line: &[char])
    ensures
        string_views(final(out)@) == string_views(old(out)@) + sse_payload(line@),
{
    let prefix: [char; 6] = ['d', 'a', 't', 'a', ':', ' '];
    assert(prefix@ =~= seq!['d', 'a', 't', 'a', ':', ' ']);
    let t = trim_whitespace(line);
    let ghost before = string_views(out@);
    if t.len() > 0 {
        if starts_with_chars(t.as_slice(), prefix.as_slice()) {
            let rest = slice_chars(t.as_slice(), 6, t.len());
            out.push(string_from_chars(rest.as_slice()));
            assert(string_views(out@) =~= before + seq![t@.skip(6)]);
        } else {
            out.push(string_from_chars(t.as_slice()));
            assert(string_views(out@) =~= before + seq![t@]);
        }
    } else {
        assert(before + seq![] =~= before);
    }
}

/// What `serde_json::to_string` prints for a string: it as a JSON string
/// literal, quoted and escaped.
pub uninterp spec fn json_quoted(s: Seq<char>) -> Seq<char>;

/// Prints `s` as a JSON string literal with `serde_json::to_string`, which
/// cannot fail for a `str`. Trusted: the text depends on `s` alone and is
/// the one named by `json_quoted`; the escaping itself is `serde_json`'s.
#[verifier::external_body]
fn json_quote(s: &str) -> (r: String)
    ensures
        r@ == json_quoted(s@),
{
    serde_json::to_string(s).unwrap_or_default()
}

/// The event that reports a failure to the client: `{"error":<message>}`.
pub open spec fn sse_error_spec(message: Seq<char>) -> Seq<char> {
    "{\"error\":"@ + json_quoted(message) + "}"@
}

/// The one-field object `{"error":<quoted>}` around an already quoted JSON
/// string.
pub fn error_object(quoted: &str) -> (r: String)
    ensures
        r@ == "{\"error\":"@ + quoted@ + "}"@,
{
    let mut v: Vec<char> = Vec::new();
    append_str(&mut v, "{\"error\":");
    append_str(&mut v, quoted);
    append_str(&mut v, "}");
    string_from_chars(v.as_slice())
}

/// The error event for `message`, as `json!({"error": message})` prints it.
pub fn sse_error_event(message: &str) -> (r: String)
    ensures
        r@ == sse_error_spec(message@),
{
    let q = json_quote(message);
    error_object(q.as_str())
}

/// The events sent once the upstream body has ended: the payload of the
/// unfinished last line, then `[DONE]`; after a failed chunk only the error
/// event (the unfinished line is dropped).
pub open spec fn sse_end_spec(buffer: Seq<char>, failure: Option<Seq<char>>) -> Seq<Seq<char>> {
    match failure {
        None => sse_payload(buffer) + seq!["[DONE]"@],
        Some(message) => seq![sse_error_spec(message)],
    }
}

/// The events that close the relayed stream, from what is left in the
/// buffer and the failure that stopped it, if any.
pub fn sse_finish(buffer: &str, failure: Option<&str>) -> (r: Vec<String>)
    ensures
        string_views(r@) == sse_end_spec(buffer@, opt_view(failure)),
{
    let mut out: Vec<String> = Vec::new();
    match failure {
        None => {
            let v = chars_of(buffer);
            push_payload(&mut out, v.as_slice());
            let ghost before = string_views(out@);
            out.push("[DONE]".to_string());
            assert(string_views(out@) =~= before + seq!["[DONE]"@]);
            assert(string_views(out@) =~= sse_payload(buffer@) + seq!["[DONE]"@]);
        },
        Some(message) => {
            out.push(sse_error_event(message));
            assert(string_views(out@) =~= seq![sse_error_spec(message@)]);
        },
    }
    out
}

// ── Chunking does not matter ───────────────────────────────────────────

/// The chunks joined in order.
pub open spec fn joined(chunks: Seq<Seq<char>>) -> Seq<char>
    decreases chunks.len(),
{
    if chunks.len() == 0 {
        seq![]
    } else {
        chunks[0] + joined(chunks.drop_first())
    }
}

/// Feeding `chunks` one after another to [`sse_take_lines`], starting from
/// `buffer`: the payloads sent, and the buffer left.
pub open spec fn sse_feed(buffer: Seq<char>, chunks: Seq<Seq<char>>) -> (Seq<Seq<char>>, Seq<char>)
    decreases chunks.len(),
{
    if chunks.len() == 0 {
        (seq![], buffer)
    } else {
        let step = sse_frame(buffer + chunks[0], 0, 0);
        let rest = sse_feed(step.1, chunks.drop_first());
        (step.0 + rest.0, rest.1)
    }
}

/// Every event relayed for a body that arrives as `chunks` and ends
/// without a failure.
pub open spec fn sse_events(chunks: Seq<Seq<char>>) -> Seq<Seq<char>> {
    let fed = sse_feed(seq![], chunks);
    fed.0 + sse_end_spec(fed.1, None)
}

/// Scanning a text from a later position is scanning its suffix.
proof fn lemma_frame_shift(s: Seq<char>, d: int, start: int, i: int)
    requires
        0 <= d <= start <= i <= s.len(),
    ensures
        sse_frame(s, start, i) == sse_frame(s.skip(d), start - d, i - d),
    decreases s.len() - i,
{
    if i >= s.len() {
        assert(s.subrange(start, s.len() as int) =~= s.skip(d).subrange(start - d, s.skip(d).len() as int));
        assert(sse_frame(s.skip(d), start - d, i - d).1 == s.skip(d).subrange(start - d, s.skip(d).len() as int));
    } else {
        assert(s.skip(d)[i - d] == s[i]);
        if s[i] == '\n' {
            lemma_frame_shift(s, d, i + 1, i + 1);
            assert(s.subrange(start, i) =~= s.skip(d).subrange(start - d, i - d));
        } else {
            lemma_frame_shift(s, d, start, i + 1);
        }
    }
}

/// Characters that are not line ends can be stepped over.
proof fn lemma_frame_skip_line(t: Seq<char>, st: int, j: int, k: int)
    requires
        st <= j <= k <= t.len(),
        forall|m: int| j <= m < k ==> t[m] != '\n',
    ensures
        sse_frame(t, st, j) == sse_frame(t, st, k),
    decreases k - j,
{
    if j < k {
        lemma_frame_skip_line(t, st, j + 1, k);
    }
}

/// Scanning `x + y` is scanning `x`, then scanning what is left of `x`'s
/// last line followed by `y`.
proof fn lemma_frame_append(x: Seq<char>, y: Seq<char>, start: int, i: int)
    requires
        0 <= start <= i <= x.len(),
        forall|m: int| start <= m < i ==> x[m] != '\n',
    ensures
        ({
            let a = sse_frame(x, start, i);
            let b = sse_frame(a.1 + y, 0, 0);
            sse_frame(x + y, start, i) == (a.0 + b.0, b.1)
        }),
    decreases x.len() - i,
{
    let s = x + y;
    if i >= x.len() {
        let t = s.skip(start);
        assert(x.subrange(start, x.len() as int) + y =~= t);
        lemma_frame_shift(s, start, start, i);
        assert forall|m: int| 0 <= m < i - start implies t[m] != '\n' by {
            assert(t[m] == x[start + m]);
        }
        lemma_frame_skip_line(t, 0, 0, i - start);
        assert(Seq::<Seq<char>>::empty() + sse_frame(t, 0, 0).0 =~= sse_frame(t, 0, 0).0);
    } else {
        assert(s[i] == x[i]);
        if x[i] == '\n' {
            lemma_frame_append(x, y, i + 1, i + 1);
            assert(s.subrange(start, i) =~= x.subrange(start, i));
            let a2 = sse_frame(x, i + 1, i + 1);
            let b = sse_frame(a2.1 + y, 0, 0);
            let p = sse_payload(x.subrange(start, i));
            assert(p + (a2.0 + b.0) =~= (p + a2.0) + b.0);
        } else {
            lemma_frame_append(x, y, start, i + 1);
        }
    }
}

/// What is left unfinished holds no line end.
proof fn lemma_frame_rest_has_no_line_end(s: Seq<char>, start: int, i: int)
    requires
        0 <= start <= i <= s.len(),
        forall|m: int| start <= m < i ==> s[m] != '\n',
    ensures
        forall|m: int| 0 <= m < sse_frame(s, start, i).1.len() ==> sse_frame(s, start, i).1[m] != '\n',
    decreases s.len() - i,
{
    if i >= s.len() {
        let r = s.subrange(start, s.len() as int);
        assert forall|m: int| 0 <= m < r.len() implies r[m] != '\n' by {
            assert(r[m] == s[start + m]);
        }
        assert(sse_frame(s, start, i).1 == r);
    } else if s[i] == '\n' {
        lemma_frame_rest_has_no_line_end(s, i + 1, i + 1);
        assert(sse_frame(s, start, i).1 == sse_frame(s, i + 1, i + 1).1);
    } else {
        lemma_frame_rest_has_no_line_end(s, start, i + 1);
        assert(sse_frame(s, start, i) == sse_frame(s, start, i + 1));
    }
}

/// Feeding the chunks one by one, starting from a buffer that holds no
/// line end (as every buffer left by [`sse_take_lines`] does), frames the
/// same lines as framing their concatenation at once.
pub proof fn law_feeding_chunks_frames_their_concatenation(buffer: Seq<char>, chunks: Seq<Seq<char>>)
    requires
        forall|m: int| 0 <= m < buffer.len() ==> buffer[m] != '\n',
    ensures
        sse_feed(buffer, chunks) == sse_frame(buffer + joined(chunks), 0, 0),
    decreases chunks.len(),
{
    if chunks.len() == 0 {
        assert(buffer + joined(chunks) =~= buffer);
        lemma_frame_skip_line(buffer, 0, 0, 0);
        lemma_frame_all_unfinished(buffer);
    } else {
        let x = buffer + chunks[0];
        let y = joined(chunks.drop_first());
        assert(buffer + joined(chunks) =~= x + y);
        lemma_frame_append(x, y, 0, 0);
        lemma_frame_rest_has_no_line_end(x, 0, 0);
        let a = sse_frame(x, 0, 0);
        law_feeding_chunks_frames_their_concatenation(a.1, chunks.drop_first());
    }
}

/// A text's frame, when the text has no line end: no payload, the whole
/// text unfinished.
proof fn lemma_frame_all_unfinished(b: Seq<char>)
    ensures
        (forall|m: int| 0 <= m < b.len() ==> b[m] != '\n') ==> sse_frame(b, 0, 0) == (
            Seq::<Seq<char>>::empty(),
            b,
        ),
{
    if forall|m: int| 0 <= m < b.len() ==> b[m] != '\n' {
        lemma_frame_skip_line(b, 0, 0, b.len() as int);
        assert(b.subrange(0, b.len() as int) =~= b);
    }
}

/// The relayed events depend on the body alone, not on how it was split
/// into chunks: two chunkings of the same text give the same events.
pub proof fn law_events_ignore_chunking(a: Seq<Seq<char>>, b: Seq<Seq<char>>)
    requires
        joined(a) == joined(b),
    ensures
        sse_events(a) == sse_events(b),
{
    law_feeding_chunks_frames_their_concatenation(seq![], a);
    law_feeding_chunks_frames_their_concatenation(seq![], b);
    assert(Seq::<char>::empty() + joined(a) =~= joined(a));
    assert(Seq::<char>::empty() + joined(b) =~= joined(b));
}

} // verus!
