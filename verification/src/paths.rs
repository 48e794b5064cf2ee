//! Repo-relative source paths mentioned in a memory, and the staleness
//! pre-pass that marks memories whose every mentioned path has vanished.
//!
//! The path shapes are found by the `regex` crate; what the library does
//! with the match positions (skip matches that sit inside a URL, turn byte
//! offsets into characters, keep each path once, in encounter order) is
//! verified here.
use vstd::prelude::*;
use crate::text::{
    append_str, utf8_len, is_unicode_whitespace, char_is_whitespace, contains_seq, contains_chars,
    starts_with_seq, starts_with_chars, chars_of, slice_chars, string_from_chars,
};
use crate::entry::MemoryRecord;

verus! {

// ── Byte offsets and character positions ───────────────────────────────

/// The character position whose UTF-8 prefix is exactly `b` bytes long, if
/// there is one (it is unique: prefixes grow strictly with each character).
pub open spec fn byte_to_char(s: Seq<char>, b: int) -> Option<int> {
    if exists|i: int| 0 <= i <= s.len() && utf8_len(s.take(i)) == b {
        Some(choose|i: int| 0 <= i <= s.len() && utf8_len(s.take(i)) == b)
    } else {
        None
    }
}

/// Longer prefixes have strictly longer encodings.
pub proof fn lemma_utf8_prefix_strict(s: Seq<char>, i: int, j: int)
    requires
        0 <= i < j <= s.len(),
    ensures
        utf8_len(s.take(i)) < utf8_len(s.take(j)),
    decreases j - i,
{
    assert(s.take(j).drop_last() =~= s.take(j - 1));
    if i < j - 1 {
        lemma_utf8_prefix_strict(s, i, j - 1);
    }
}

/// The position `byte_to_char` picks is the only one with that byte length.
proof fn lemma_byte_to_char_unique(s: Seq<char>, b: int, i: int)
    requires
        0 <= i <= s.len(),
        utf8_len(s.take(i)) == b,
    ensures
        byte_to_char(s, b) == Some(i),
{
    let k = choose|k: int| 0 <= k <= s.len() && utf8_len(s.take(k)) == b;
    if k < i {
        lemma_utf8_prefix_strict(s, k, i);
    } else if i < k {
        lemma_utf8_prefix_strict(s, i, k);
    }
}

/// The character position at byte offset `b` of the text `v`.
pub fn char_index_of_byte(v: &[char], b: usize) -> (r: Option<usize>)
    ensures
        match r {
            Some(i) => byte_to_char(v@, b as int) == Some(i as int),
            None => byte_to_char(v@, b as int) is None,
        },
{
    let mut acc: usize = 0;
    let mut i: usize = 0;
    while i < v.len()
        invariant
            i <= v@.len(),
            acc == utf8_len(v@.take(i as int)),
            acc <= b,
            forall|k: int| 0 <= k < i ==> utf8_len(#[trigger] v@.take(k)) < b,
        decreases v.len() - i,
    {
        if acc == b {
            proof {
                lemma_byte_to_char_unique(v@, b as int, i as int);
            }
            return Some(i);
        }
        let c = v[i];
        let w: usize = if '\u{80}' > c {
            1
        } else if '\u{800}' > c {
            2
        } else if '\u{10000}' > c {
            3
        } else {
            4
        };
        assert(v@.take(i + 1).drop_last() =~= v@.take(i as int));
        assert(v@.take(i + 1).last() == c);
        if w > b - acc {
            proof {
                assert forall|k: int| 0 <= k <= v@.len() implies utf8_len(#[trigger] v@.take(k))
                    != b by {
                    if k > i + 1 {
                        lemma_utf8_prefix_strict(v@, i + 1, k);
                    }
                }
            }
            return None;
        }
        acc = acc + w;
        i += 1;
    }
    assert(v@.take(v@.len() as int) =~= v@);
    if acc == b {
        proof {
            lemma_byte_to_char_unique(v@, b as int, i as int);
        }
        Some(i)
    } else {
        None
    }
}

// ── Matches inside URLs ─────────────────────────────────────────────────

/// Characters that end the token a match could belong to.
pub open spec fn is_token_break(c: char) -> bool {
    is_unicode_whitespace(c) || c == '(' || c == '[' || c == '"' || c == '\''
}

/// Start of the token that holds position `n`: just after the last break
/// character before `n`, or 0.
pub open spec fn token_start(s: Seq<char>, n: int) -> int
    decreases n,
{
    if n <= 0 {
        0
    } else if is_token_break(s[n - 1]) {
        n
    } else {
        token_start(s, n - 1)
    }
}

/// A match starting at `start` sits inside a URL: the text of its token
/// before it holds a scheme separator or starts with `www.`.
pub open spec fn url_embedded_spec(s: Seq<char>, start: int) -> bool {
    let lead = s.subrange(token_start(s, start), start);
    contains_seq(lead, seq![':', '/', '/']) || starts_with_seq(lead, seq!['w', 'w', 'w', '.'])
}

proof fn lemma_token_start_bounds(s: Seq<char>, n: int)
    requires
        0 <= n <= s.len(),
    ensures
        0 <= token_start(s, n) <= n,
    decreases n,
{
    if n > 0 && !is_token_break(s[n - 1]) {
        lemma_token_start_bounds(s, n - 1);
    }
}

fn is_token_break_exec(c: char) -> (r: bool)
    ensures
        r == is_token_break(c),
{
    char_is_whitespace(c) || c == '(' || c == '[' || c == '"' || c == '\''
}

/// Whether the match starting at character `start` sits inside a URL.
pub fn url_embedded(v: &[char], start: usize) -> (r: bool)
    requires
        start <= v@.len(),
    ensures
        r == url_embedded_spec(v@, start as int),
{
    let mut ts = start;
    while ts > 0 && !is_token_break_exec(v[ts - 1])
        invariant
            ts <= start <= v@.len(),
            token_start(v@, ts as int) == token_start(v@, start as int),
        decreases ts,
    {
        ts -= 1;
    }
    let lead = slice_chars(v, ts, start);
    let scheme: [char; 3] = [':', '/', '/'];
    let www: [char; 4] = ['w', 'w', 'w', '.'];
    assert(scheme@ =~= seq![':', '/', '/']);
    assert(www@ =~= seq!['w', 'w', 'w', '.']);
    contains_chars(lead.as_slice(), scheme.as_slice()) || starts_with_chars(
        lead.as_slice(),
        www.as_slice(),
    )
}

// ── From match spans to paths ──────────────────────────────────────────

/// The path a match span stands for: the text between its two byte offsets,
/// unless the offsets fall between characters or the match sits in a URL.
pub open spec fn span_path(s: Seq<char>, span: Option<(usize, usize)>) -> Option<Seq<char>> {
    match span {
        None => None,
        Some((b0, b1)) => match (byte_to_char(s, b0 as int), byte_to_char(s, b1 as int)) {
            (Some(c0), Some(c1)) => if c0 <= c1 && !url_embedded_spec(s, c0) {
                Some(s.subrange(c0, c1))
            } else {
                None
            },
            _ => None,
        },
    }
}

/// What `Path == Path` answers for the paths spelled `a` and `b`.
pub uninterp spec fn same_path(a: Seq<char>, b: Seq<char>) -> bool;

/// Compares two paths with `PartialEq for std::path::Path`. Trusted: the
/// answer depends on the two texts alone, and a text is the same path as
/// itself (`Path` is `Eq`); which different spellings name the same path
/// (`a/b` and `a//b/`, say) is left to std.
#[verifier::external_body]
fn paths_equal(a: &str, b: &str) -> (r: bool)
    ensures
        r == same_path(a@, b@),
        a@ == b@ ==> r,
{
    std::path::Path::new(a) == std::path::Path::new(b)
}

/// Some entry of `ps` is the same path as `p`.
pub open spec fn holds_same_path(ps: Seq<Seq<char>>, p: Seq<char>) -> bool {
    exists|i: int| 0 <= i < ps.len() && same_path(ps[i], p)
}

/// The paths of the first `n` spans, in encounter order, each kept unless
/// an earlier kept one is the same path.
pub open spec fn paths_upto(s: Seq<char>, spans: Seq<Option<(usize, usize)>>, n: int) -> Seq<
    Seq<char>,
>
    decreases n,
{
    if n <= 0 {
        seq![]
    } else {
        let prev = paths_upto(s, spans, n - 1);
        match span_path(s, spans[n - 1]) {
            Some(p) => if holds_same_path(prev, p) {
                prev
            } else {
                prev.push(p)
            },
            None => prev,
        }
    }
}

pub open spec fn string_views(v: Seq<String>) -> Seq<Seq<char>> {
    v.map_values(|x: String| x@)
}

fn holds_same_path_exec(v: &Vec<String>, p: &str) -> (r: bool)
    ensures
        r == holds_same_path(string_views(v@), p@),
{
    let mut i: usize = 0;
    while i < v.len()
        invariant
            i <= v@.len(),
            forall|j: int| 0 <= j < i ==> !same_path(#[trigger] string_views(v@)[j], p@),
        decreases v.len() - i,
    {
        assert(string_views(v@)[i as int] == v@[i as int]@);
        if paths_equal(v[i].as_str(), p) {
            return true;
        }
        i += 1;
    }
    false
}

/// The path of one span, as `span_path` says.
fn path_of_span(v: &[char], span: Option<(usize, usize)>) -> (r: Option<String>)
    ensures
        match r {
            Some(p) => span_path(v@, span) == Some(p@),
            None => span_path(v@, span) is None,
        },
{
    match span {
        None => None,
        Some((b0, b1)) => {
            let c0 = char_index_of_byte(v, b0);
            let c1 = char_index_of_byte(v, b1);
            match (c0, c1) {
                (Some(i0), Some(i1)) => {
                    proof {
                        let k0 = choose|i: int|
                            0 <= i <= v@.len() && utf8_len(v@.take(i)) == b0 as int;
                        let k1 = choose|i: int|
                            0 <= i <= v@.len() && utf8_len(v@.take(i)) == b1 as int;
                        assert(k0 == i0 && k1 == i1);
                    }
                    if i0 <= i1 && !url_embedded(v, i0) {
                        let chars = slice_chars(v, i0, i1);
                        Some(string_from_chars(chars.as_slice()))
                    } else {
                        None
                    }
                },
                _ => None,
            }
        },
    }
}

/// The paths that the match spans of the path group pick out of `content`,
/// in encounter order, leaving out spans inside URLs and paths equal (as
/// `Path`s) to one already listed.
pub fn paths_from_spans(content: &str, spans: &[Option<(usize, usize)>]) -> (r: Vec<String>)
    ensures
        string_views(r@) == paths_upto(content@, spans@, spans@.len() as int),
{
    let v = chars_of(content);
    let mut out: Vec<String> = Vec::new();
    let mut k: usize = 0;
    while k < spans.len()
        invariant
            k <= spans@.len(),
            v@ == content@,
            string_views(out@) == paths_upto(content@, spans@, k as int),
        decreases spans.len() - k,
    {
        match path_of_span(v.as_slice(), spans[k]) {
            Some(p) => {
                if !holds_same_path_exec(&out, p.as_str()) {
                    out.push(p);
                    assert(string_views(out@) =~= paths_upto(content@, spans@, k as int).push(
                        out@.last()@,
                    ));
                }
            },
            None => {},
        }
        k += 1;
    }
    out
}

// ── The path pattern ───────────────────────────────────────────────────

/// Repo-relative source paths: a known top-level directory, a slash, path
/// characters and a source-file extension, with an optional `:line` or
/// `:line:col` suffix outside the `path` group. The left boundary keeps
/// roots glued to a longer word (`foosrc/...`) from matching.
pub const PATH_PATTERN: &'static str = r"(?x)
    (?:^|[^A-Za-z0-9_])
    (?P<path>
        (?:src|lib|crates|apps|packages|tests?|scripts?|docs?)
        /[\w./+-]+
        \.
        (?:rs|ts|tsx|js|jsx|py|go|java|kt|toml|json|md|yml|yaml|css|html|sh|c|h|cpp|hpp|rb|php)
    )
    (?: : \d+ (?: : \d+ )? )?
    ";

/// The name of the capture group that holds the path.
pub const PATH_GROUP: &'static str = "path";

/// What the `regex` crate finds for `pattern` in `hay`: `None` when the
/// pattern does not compile, else for each successive non-overlapping match
/// the byte span of the group named `group` (`None` where the group took no
/// part in the match).
pub uninterp spec fn regex_group_spans(pattern: Seq<char>, group: Seq<char>, hay: Seq<char>) -> Option<
    Seq<Option<(usize, usize)>>,
>;

/// Compiles `pattern` with `regex::Regex::new` and walks
/// `Regex::captures_iter` over `hay`, keeping for each match the byte span
/// (`Match::start`, `Match::end`) of `Captures::name(group)`. Trusted: the
/// result is the crate's answer for these three arguments, named
/// `regex_group_spans`; nothing more is claimed of it.
#[verifier::external_body]
fn capture_group_spans(pattern: &str, group: &str, hay: &str) -> (r: Option<
    Vec<Option<(usize, usize)>>,
>)
    ensures
        match r {
            Some(v) => regex_group_spans(pattern@, group@, hay@) == Some(v@),
            None => regex_group_spans(pattern@, group@, hay@) is None,
        },
{
    match regex::Regex::new(pattern) {
        Ok(re) => Some(
            re.captures_iter(hay).map(|c| c.name(group).map(|m| (m.start(), m.end()))).collect(),
        ),
        Err(_) => None,
    }
}

/// Repo-relative source paths mentioned in `content` (`src/foo.rs`,
/// `lib/bar/baz.ts:12`), each once (as `Path`s compare), in encounter
/// order, without their `:line` suffix; matches inside URLs are ignored.
pub fn extract_memory_paths(content: &str) -> (r: Vec<String>)
    ensures
        match regex_group_spans(PATH_PATTERN@, PATH_GROUP@, content@) {
            Some(spans) => string_views(r@) == paths_upto(content@, spans, spans.len() as int),
            None => r@.len() == 0,
        },
{
    match capture_group_spans(PATH_PATTERN, PATH_GROUP, content) {
        Some(spans) => paths_from_spans(content, spans.as_slice()),
        None => Vec::new(),
    }
}

// ── Staleness against the codebase ─────────────────────────────────────

/// Where a mentioned path is looked up: an absolute path (one that starts
/// with `/`) as it is; a relative one adjoined to `root` as `Path::join`
/// does on Unix, with a `/` between them unless `root` is empty or already
/// ends with one.
pub open spec fn candidate_path_spec(root: Seq<char>, rel: Seq<char>) -> Seq<char> {
    if rel.len() > 0 && rel[0] == '/' {
        rel
    } else if root.len() == 0 || root.last() == '/' {
        root + rel
    } else {
        root + seq!['/'] + rel
    }
}

/// The path at which `rel` is looked up under `root`.
pub fn candidate_path(root: &str, rel: &str) -> (r: String)
    ensures
        r@ == candidate_path_spec(root@, rel@),
{
    let rc = chars_of(rel);
    if rc.len() > 0 && rc[0] == '/' {
        return string_from_chars(rc.as_slice());
    }
    let mut buf = chars_of(root);
    if buf.len() > 0 && buf[buf.len() - 1] != '/' {
        buf.push('/');
    }
    append_str(&mut buf, rel);
    string_from_chars(buf.as_slice())
}

/// Calls `std::path::Path::exists` on `path`. Nothing is claimed of the
/// answer: it depends on what is on disk at the moment of the call.
#[verifier::external_body]
fn path_exists(path: &str) -> bool {
    std::path::Path::new(path).exists()
}

/// Every answer says "missing", and there is at least one.
pub open spec fn all_missing_spec(exists: Seq<bool>) -> bool {
    exists.len() > 0 && forall|i: int| 0 <= i < exists.len() ==> !exists[i]
}

/// The verdict of `paths_all_missing` from the existence answers, one per
/// path.
pub fn all_missing(exists: &[bool]) -> (r: bool)
    ensures
        r == all_missing_spec(exists@),
{
    if exists.len() == 0 {
        return false;
    }
    let mut i: usize = 0;
    while i < exists.len()
        invariant
            i <= exists@.len(),
            forall|j: int| 0 <= j < i ==> !exists@[j],
        decreases exists.len() - i,
    {
        if exists[i] {
            return false;
        }
        i += 1;
    }
    true
}

/// True when `paths` is non-empty and every path is missing under
/// `project_root` (an absolute path is checked as it is). The lookups stop
/// at the first path that exists.
pub fn paths_all_missing(project_root: &str, paths: &[String]) -> (r: bool)
    ensures
        paths@.len() == 0 ==> !r,
{
    let mut answers: Vec<bool> = Vec::new();
    let mut i: usize = 0;
    while i < paths.len()
        invariant
            i <= paths@.len(),
            answers@.len() == i,
            forall|j: int| 0 <= j < i ==> !answers@[j],
        decreases paths.len() - i,
    {
        let candidate = candidate_path(project_root, paths[i].as_str());
        let e = path_exists(candidate.as_str());
        answers.push(e);
        if e {
            return all_missing(answers.as_slice());
        }
        i += 1;
    }
    all_missing(answers.as_slice())
}

/// Whether the text mentions at least one repo-relative path.
pub open spec fn mentions_paths(content: Seq<char>) -> bool {
    match regex_group_spans(PATH_PATTERN@, PATH_GROUP@, content) {
        Some(spans) => paths_upto(content, spans, spans.len() as int).len() > 0,
        None => false,
    }
}

/// One entry after the pre-pass, given whether all its paths were found
/// missing: a decay anchor is set once (to `now`), and a stale mark is set
/// once when the check is on and every mentioned path is missing. Nothing
/// else changes.
pub open spec fn prepass_entry_spec(
    m: MemoryRecord,
    now: i64,
    staleness_check: bool,
    all_paths_missing: bool,
) -> MemoryRecord {
    MemoryRecord {
        last_reinforced_at: Some(
            match m.last_reinforced_at {
                Some(t) => t,
                None => now,
            },
        ),
        stale_marked_at: if staleness_check && m.stale_marked_at is None && all_paths_missing {
            Some(now)
        } else {
            m.stale_marked_at
        },
        ..m
    }
}

/// What the pre-pass may leave of `m`: the outcome for "not all missing",
/// or the one for "all missing" where the text mentions some path.
pub open spec fn prepass_outcome(m: MemoryRecord, r: MemoryRecord, now: i64, staleness_check: bool) -> bool {
    ||| r == prepass_entry_spec(m, now, staleness_check, false)
    ||| (r == prepass_entry_spec(m, now, staleness_check, true) && mentions_paths(m.content@))
}

/// The pre-pass on one entry, given the verdict of the path check.
pub fn prepass_entry(m: &mut MemoryRecord, now: i64, staleness_check: bool, all_paths_missing: bool)
    ensures
        *final(m) == prepass_entry_spec(*old(m), now, staleness_check, all_paths_missing),
{
    if m.last_reinforced_at.is_none() {
        m.last_reinforced_at = Some(now);
    }
    if staleness_check && m.stale_marked_at.is_none() && all_paths_missing {
        m.stale_marked_at = Some(now);
    }
}

/// First-consolidate pre-pass: anchor every entry that has no decay anchor
/// at `now`, and, when `staleness_check` is on, mark stale (at `now`) each
/// entry not yet marked whose mentioned paths are all missing under
/// `project_root`. Running it twice changes nothing more.
pub fn apply_consolidate_prepass(
    memories: &mut Vec<MemoryRecord>,
    project_root: &str,
    now: i64,
    staleness_check: bool,
)
    ensures
        final(memories)@.len() == old(memories)@.len(),
        forall|k: int|
            0 <= k < old(memories)@.len() ==> prepass_outcome(
                old(memories)@[k],
                #[trigger] final(memories)@[k],
                now,
                staleness_check,
            ),
{
    let ghost m0 = memories@;
    let mut i: usize = 0;
    while i < memories.len()
        invariant
            i <= memories@.len(),
            memories@.len() == m0.len(),
            forall|k: int| 0 <= k < i ==> prepass_outcome(m0[k], #[trigger] memories@[k], now, staleness_check),
            forall|k: int| i <= k < m0.len() ==> #[trigger] memories@[k] == m0[k],
        decreases memories.len() - i,
    {
        let mut missing = false;
        if staleness_check && memories[i].stale_marked_at.is_none() {
            let paths = extract_memory_paths(memories[i].content.as_str());
            missing = paths_all_missing(project_root, paths.as_slice());
            proof {
                if missing {
                    assert(mentions_paths(m0[i as int].content@));
                }
            }
        }
        let ghost pre = memories@;
        prepass_entry(&mut memories[i], now, staleness_check, missing);
        assert(prepass_outcome(m0[i as int], memories@[i as int], now, staleness_check));
        assert forall|k: int| 0 <= k < memories@.len() && k != i implies memories@[k] == pre[k] by {}
        i += 1;
    }
}

// ── Laws ───────────────────────────────────────────────────────────────

/// No extracted path is the same path (by `Path` equality) as an earlier
/// one: each is listed once, under the spelling it first had.
pub proof fn law_extracted_paths_unique(s: Seq<char>, spans: Seq<Option<(usize, usize)>>, n: int)
    ensures
        forall|i: int, j: int|
            0 <= i < j < paths_upto(s, spans, n).len() ==> !same_path(
                #[trigger] paths_upto(s, spans, n)[i],
                #[trigger] paths_upto(s, spans, n)[j],
            ),
    decreases n,
{
    if n > 0 {
        law_extracted_paths_unique(s, spans, n - 1);
        let prev = paths_upto(s, spans, n - 1);
        match span_path(s, spans[n - 1]) {
            Some(p) => {
                if !holds_same_path(prev, p) {
                    let q = prev.push(p);
                    assert forall|i: int, j: int| 0 <= i < j < q.len() implies !same_path(
                        #[trigger] q[i],
                        #[trigger] q[j],
                    ) by {
                        if j < prev.len() {
                            assert(q[i] == prev[i] && q[j] == prev[j]);
                        } else {
                            assert(q[i] == prev[i] && q[j] == p);
                        }
                    }
                }
            },
            None => {},
        }
    }
}

/// The pre-pass is idempotent: run again with the same verdict (at any
/// later time) it changes nothing; it never moves an existing anchor and
/// never re-marks a stale entry.
pub proof fn law_prepass_idempotent(m: MemoryRecord, now: i64, later: i64, staleness_check: bool, all_paths_missing: bool)
    ensures
        prepass_entry_spec(prepass_entry_spec(m, now, staleness_check, all_paths_missing), later, staleness_check, all_paths_missing)
            == prepass_entry_spec(m, now, staleness_check, all_paths_missing),
        m.last_reinforced_at is Some ==> prepass_entry_spec(m, now, staleness_check, all_paths_missing).last_reinforced_at == m.last_reinforced_at,
        m.stale_marked_at is Some ==> prepass_entry_spec(m, now, staleness_check, all_paths_missing).stale_marked_at == m.stale_marked_at,
{
}

} // verus!
