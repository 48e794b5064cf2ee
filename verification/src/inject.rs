//! Cross-session memory recall: the keyword query built from a user
//! message, and the lines and blocks that carry recalled memories into a
//! prompt.
//!
//! Keywords are the meaningful whitespace words of the message, lower-cased,
//! ordered longest first (by UTF-8 length, ties keeping message order), with
//! adjacent repeats dropped, at most six of them.
use vstd::prelude::*;
use crate::entry::{MemoryRecord, MemoryType};
use crate::runs::{split_whitespace_chars, vviews, ws_words};
use crate::similarity::{is_meaningful_chars, is_meaningful_spec};
use crate::text::{
    append_str, chars_of, lowercase_chars, lowercase_of, str_eq, string_from_chars, utf8_len, utf8_width,
};
use crate::tokenizer::string_views;

verus! {

broadcast use vstd::seq_lib::group_seq_properties;

/// Most keywords kept for a recall query.
pub const MAX_KEYWORDS: usize = 6;

/// Most global memories listed in the system prompt.
pub const GLOBAL_SOFT_CAP: usize = 50;

// ── Keyword extraction ─────────────────────────────────────────────────

/// Lower-cased meaningful words among `words[..n]`, in order.
pub open spec fn kept_words(words: Seq<Seq<char>>, n: int) -> Seq<Seq<char>>
    decreases n,
{
    if n <= 0 {
        seq![]
    } else if is_meaningful_spec(words[n - 1]) {
        kept_words(words, n - 1).push(lowercase_of(words[n - 1]))
    } else {
        kept_words(words, n - 1)
    }
}

/// Insert `x` into a longest-first list just after the last entry at least
/// as long as `x` (so equal lengths keep their arrival order).
pub open spec fn insert_by_len(sorted: Seq<Seq<char>>, x: Seq<char>) -> Seq<Seq<char>>
    decreases sorted.len(),
{
    if sorted.len() == 0 {
        seq![x]
    } else if utf8_len(sorted.last()) >= utf8_len(x) {
        sorted.push(x)
    } else {
        insert_by_len(sorted.drop_last(), x).push(sorted.last())
    }
}

/// Stable sort by UTF-8 length, longest first.
pub open spec fn sort_by_len_desc(s: Seq<Seq<char>>) -> Seq<Seq<char>>
    decreases s.len(),
{
    if s.len() == 0 {
        seq![]
    } else {
        insert_by_len(sort_by_len_desc(s.drop_last()), s.last())
    }
}

/// Drop each element equal to the one just before it (`Vec::dedup`).
pub open spec fn dedup_adjacent(s: Seq<Seq<char>>) -> Seq<Seq<char>>
    decreases s.len(),
{
    if s.len() == 0 {
        seq![]
    } else {
        let d = dedup_adjacent(s.drop_last());
        if s.len() >= 2 && s[s.len() - 2] == s.last() {
            d
        } else {
            d.push(s.last())
        }
    }
}

/// The recall keywords of a message.
pub open spec fn keywords_spec(msg: Seq<char>) -> Seq<Seq<char>> {
    let words = ws_words(msg);
    let d = dedup_adjacent(sort_by_len_desc(kept_words(words, words.len() as int)));
    if d.len() > MAX_KEYWORDS {
        d.take(MAX_KEYWORDS as int)
    } else {
        d
    }
}

/// UTF-8 length of a character sequence (fits: at most four bytes a char).
fn utf8_len_exec(v: &[char]) -> (r: u128)
    ensures
        r == utf8_len(v@),
{
    let mut acc: u128 = 0;
    let mut i: usize = 0;
    while i < v.len()
        invariant
            i <= v@.len(),
            acc == utf8_len(v@.take(i as int)),
            acc <= 4 * i,
        decreases v.len() - i,
    {
        let c = v[i];
        let w: u128 = if '\u{80}' > c {
            1
        } else if '\u{800}' > c {
            2
        } else if '\u{10000}' > c {
            3
        } else {
            4
        };
        assert(v@.take(i + 1).drop_last() =~= v@.take(i as int));
        assert(v@.take(i + 1).last() == c);
        assert(w == utf8_width(c));
        acc = acc + w;
        i += 1;
    }
    assert(v@.take(v@.len() as int) =~= v@);
    acc
}

/// Inserting where the scan from the back stops is `insert_by_len`.
proof fn lemma_insert_at(sorted: Seq<Seq<char>>, x: Seq<char>, j: int)
    requires
        0 <= j <= sorted.len(),
        forall|i: int| j <= i < sorted.len() ==> utf8_len(#[trigger] sorted[i]) < utf8_len(x),
        j > 0 ==> utf8_len(sorted[j - 1]) >= utf8_len(x),
    ensures
        insert_by_len(sorted, x) == sorted.take(j).push(x) + sorted.skip(j),
    decreases sorted.len(),
{
    if sorted.len() == 0 {
        assert(sorted.take(j).push(x) + sorted.skip(j) =~= seq![x]);
    } else if j == sorted.len() {
        assert(sorted.take(j) =~= sorted);
        assert(sorted.take(j).push(x) + sorted.skip(j) =~= sorted.push(x));
    } else {
        let d = sorted.drop_last();
        assert(utf8_len(sorted[sorted.len() - 1]) < utf8_len(x));
        assert forall|i: int| j <= i < d.len() implies utf8_len(#[trigger] d[i]) < utf8_len(x) by {
            assert(d[i] == sorted[i]);
        }
        lemma_insert_at(d, x, j);
        assert(d.take(j) =~= sorted.take(j));
        assert((d.take(j).push(x) + d.skip(j)).push(sorted.last()) =~= sorted.take(j).push(x)
            + sorted.skip(j));
    }
}

/// Sort words longest first (stable), as `sort_by_len_desc` says.
fn sort_words_by_len_desc(words: Vec<Vec<char>>) -> (r: Vec<Vec<char>>)
    ensures
        vviews(r@) == sort_by_len_desc(vviews(words@)),
{
    let ghost ws = vviews(words@);
    let mut sorted: Vec<Vec<char>> = Vec::new();
    let mut keys: Vec<u128> = Vec::new();
    let mut source = words;
    let mut rev: Vec<Vec<char>> = Vec::new();
    while source.len() > 0
        invariant
            vviews(source@) == ws.take(vviews(source@).len() as int),
            source@.len() <= ws.len(),
            rev@.len() == ws.len() - source@.len(),
            forall|q: int| 0 <= q < rev@.len() ==> (#[trigger] rev@[q])@ == ws[ws.len() - 1 - q],
        decreases source.len(),
    {
        let ghost n = source@.len();
        let w = source.pop().unwrap();
        assert(vviews(source@) =~= ws.take(n - 1));
        assert(w@ == ws[n - 1]) by {
            assert(ws.take(n as int)[n - 1] == ws[n - 1]);
        }
        rev.push(w);
    }
    assert(vviews(sorted@) =~= sort_by_len_desc(ws.take(0)));
    while rev.len() > 0
        invariant
            rev@.len() <= ws.len(),
            forall|q: int| 0 <= q < rev@.len() ==> (#[trigger] rev@[q])@ == ws[ws.len() - 1 - q],
            vviews(sorted@) == sort_by_len_desc(ws.take(ws.len() - rev@.len())),
            keys@.len() == sorted@.len(),
            forall|q: int| 0 <= q < keys@.len() ==> keys@[q] == utf8_len(#[trigger] sorted@[q]@),
        decreases rev.len(),
    {
        let ghost done = ws.len() - rev@.len();
        let w = rev.pop().unwrap();
        assert(w@ == ws[done]);
        let kw = utf8_len_exec(w.as_slice());
        let mut j = sorted.len();
        while j > 0 && keys[j - 1] < kw
            invariant
                j <= sorted@.len(),
                keys@.len() == sorted@.len(),
                forall|q: int| 0 <= q < keys@.len() ==> keys@[q] == utf8_len(#[trigger] sorted@[q]@),
                forall|i: int| j <= i < sorted@.len() ==> utf8_len((#[trigger] sorted@[i])@) < kw,
            decreases j,
        {
            j -= 1;
        }
        let ghost before = vviews(sorted@);
        proof {
            assert forall|i: int| j <= i < before.len() implies utf8_len(#[trigger] before[i])
                < utf8_len(w@) by {
                assert(before[i] == sorted@[i]@);
            }
            if j > 0 {
                assert(before[j - 1] == sorted@[j - 1]@);
            }
            lemma_insert_at(before, w@, j as int);
            assert(ws.take(done + 1).drop_last() =~= ws.take(done));
        }
        sorted.insert(j, w);
        keys.insert(j, kw);
        assert(vviews(sorted@) =~= before.take(j as int).push(ws[done]) + before.skip(j as int));
    }
    assert(ws.take(ws.len() as int) =~= ws);
    sorted
}

/// Drop adjacent repeats, as `dedup_adjacent` says.
fn dedup_words(words: &Vec<Vec<char>>) -> (r: Vec<Vec<char>>)
    ensures
        vviews(r@) == dedup_adjacent(vviews(words@)),
{
    let ghost ws = vviews(words@);
    let mut out: Vec<Vec<char>> = Vec::new();
    let mut i: usize = 0;
    while i < words.len()
        invariant
            i <= words@.len(),
            ws == vviews(words@),
            vviews(out@) == dedup_adjacent(ws.take(i as int)),
        decreases words.len() - i,
    {
        let ghost t = ws.take(i + 1);
        assert(t.drop_last() =~= ws.take(i as int));
        assert(t.last() == words@[i as int]@);
        let same = i > 0 && crate::text::chars_eq(words[i - 1].as_slice(), words[i].as_slice());
        if i > 0 {
            assert(t[t.len() - 2] == words@[i - 1]@);
        }
        if !same {
            let c = crate::text::copy_chars(words[i].as_slice());
            out.push(c);
            assert(vviews(out@) =~= dedup_adjacent(ws.take(i as int)).push(t.last()));
        }
        i += 1;
    }
    assert(ws.take(ws.len() as int) =~= ws);
    out
}

/// Meaningful keywords of a user message for memory retrieval: the
/// meaningful whitespace words, lower-cased, longest first, without
/// adjacent repeats, at most `MAX_KEYWORDS`.
pub fn extract_keywords(msg: &str) -> (r: Vec<String>)
    ensures
        string_views(r@) == keywords_spec(msg@),
{
    let chars = chars_of(msg);
    let words = split_whitespace_chars(chars.as_slice());
    let ghost ws = ws_words(msg@);
    let mut kept: Vec<Vec<char>> = Vec::new();
    let mut i: usize = 0;
    while i < words.len()
        invariant
            i <= words@.len(),
            vviews(words@) == ws,
            vviews(kept@) == kept_words(ws, i as int),
        decreases words.len() - i,
    {
        assert(ws[i as int] == words@[i as int]@);
        if is_meaningful_chars(words[i].as_slice()) {
            let l = lowercase_chars(words[i].as_slice());
            kept.push(l);
            assert(vviews(kept@) =~= kept_words(ws, i as int).push(lowercase_of(ws[i as int])));
        }
        i += 1;
    }
    let sorted = sort_words_by_len_desc(kept);
    let mut d = dedup_words(&sorted);
    if d.len() > MAX_KEYWORDS {
        d.truncate(MAX_KEYWORDS);
        assert(vviews(d@) =~= dedup_adjacent(sort_by_len_desc(kept_words(ws, ws.len() as int))).take(
            MAX_KEYWORDS as int,
        ));
    }
    let mut out: Vec<String> = Vec::new();
    let mut k: usize = 0;
    while k < d.len()
        invariant
            k <= d@.len(),
            string_views(out@) == vviews(d@).take(k as int),
        decreases d.len() - k,
    {
        let s = string_from_chars(d[k].as_slice());
        let ghost prev = out@;
        out.push(s);
        assert(out@ == prev.push(s));
        assert(string_views(out@) =~= string_views(prev).push(s@));
        assert(vviews(d@).take(k + 1) =~= vviews(d@).take(k as int).push(d@[k as int]@));
        k += 1;
    }
    assert(vviews(d@).take(d@.len() as int) =~= vviews(d@));
    out
}

// ── Labels, lines and blocks ───────────────────────────────────────────

/// The short label of a memory type.
pub open spec fn memory_type_label(t: MemoryType) -> Seq<char> {
    match t {
        MemoryType::Decision => "decision"@,
        MemoryType::Error => "error"@,
        MemoryType::Preference => "preference"@,
        MemoryType::Insight => "insight"@,
        MemoryType::Knowledge => "knowledge"@,
        MemoryType::Task => "task"@,
        MemoryType::Session => "session"@,
        MemoryType::Conversation => "conversation"@,
    }
}

/// A memory type as a short human-readable word.
pub fn format_memory_type(mt: &MemoryType) -> (r: &'static str)
    ensures
        r@ == memory_type_label(*mt),
{
    match mt {
        MemoryType::Decision => "decision",
        MemoryType::Error => "error",
        MemoryType::Preference => "preference",
        MemoryType::Insight => "insight",
        MemoryType::Knowledge => "knowledge",
        MemoryType::Task => "task",
        MemoryType::Session => "session",
        MemoryType::Conversation => "conversation",
    }
}

/// Words joined by single spaces.
pub open spec fn join_spaced(words: Seq<Seq<char>>) -> Seq<char>
    decreases words.len(),
{
    if words.len() == 0 {
        seq![]
    } else if words.len() == 1 {
        words[0]
    } else {
        join_spaced(words.drop_last()) + seq![' '] + words.last()
    }
}

/// The recall query of a message: its keywords joined by spaces, or
/// nothing when fewer than two keywords remain.
pub open spec fn recall_query_spec(msg: Seq<char>) -> Option<Seq<char>> {
    let k = keywords_spec(msg);
    if k.len() < 2 {
        None
    } else {
        Some(join_spaced(k))
    }
}

/// `- [label] content`
pub open spec fn global_line_spec(t: MemoryType, content: Seq<char>) -> Seq<char> {
    "- ["@ + memory_type_label(t) + "] "@ + content
}

/// `- [label] content (importance: score)` and a newline.
pub open spec fn recall_line_spec(t: MemoryType, content: Seq<char>, score: Seq<char>) -> Seq<char> {
    global_line_spec(t, content) + " (importance: "@ + score + ")\n"@
}

/// The concatenation of `lines`.
pub open spec fn concat_all(lines: Seq<Seq<char>>) -> Seq<char>
    decreases lines.len(),
{
    if lines.len() == 0 {
        seq![]
    } else {
        concat_all(lines.drop_last()) + lines.last()
    }
}

/// The global-memory lines for live entries among `entries[..n]`, in order.
pub open spec fn live_lines(entries: Seq<MemoryRecord>, n: int) -> Seq<Seq<char>>
    decreases n,
{
    if n <= 0 {
        seq![]
    } else if entries[n - 1].superseded_by is None {
        live_lines(entries, n - 1).push(global_line_spec(entries[n - 1].memory_type, entries[n - 1].content@))
    } else {
        live_lines(entries, n - 1)
    }
}

/// Stateless injector of recalled memories into prompts.
pub struct MemoryContextInjector;

impl MemoryContextInjector {
    /// The search query for a user message: its keywords joined by spaces;
    /// `None` (no recall) when fewer than two keywords remain.
    pub fn recall_query(user_input: &str) -> (r: Option<String>)
        ensures
            match r {
                Some(q) => recall_query_spec(user_input@) == Some(q@),
                None => recall_query_spec(user_input@) is None,
            },
    {
        let keywords = extract_keywords(user_input);
        if keywords.len() < 2 {
            return None;
        }
        let ghost ks = string_views(keywords@);
        let mut buf: Vec<char> = Vec::new();
        append_str(&mut buf, keywords[0].as_str());
        assert(buf@ =~= join_spaced(ks.take(1)));
        let mut i: usize = 1;
        while i < keywords.len()
            invariant
                1 <= i <= keywords@.len(),
                ks == string_views(keywords@),
                buf@ == join_spaced(ks.take(i as int)),
            decreases keywords.len() - i,
        {
            append_str(&mut buf, " ");
            proof {
                reveal_strlit(" ");
            }
            append_str(&mut buf, keywords[i].as_str());
            assert(ks.take(i + 1).drop_last() =~= ks.take(i as int));
            assert(buf@ =~= join_spaced(ks.take(i + 1)));
            i += 1;
        }
        assert(ks.take(ks.len() as int) =~= ks);
        Some(string_from_chars(buf.as_slice()))
    }

    /// One line of the recall block; `score` is the effective importance
    /// already rendered to one decimal.
    pub fn recall_line(memory_type: MemoryType, content: &str, score: &str) -> (r: String)
        ensures
            r@ == recall_line_spec(memory_type, content@, score@),
    {
        let mut buf: Vec<char> = Vec::new();
        append_str(&mut buf, "- [");
        append_str(&mut buf, format_memory_type(&memory_type));
        append_str(&mut buf, "] ");
        append_str(&mut buf, content);
        append_str(&mut buf, " (importance: ");
        append_str(&mut buf, score);
        append_str(&mut buf, ")\n");
        string_from_chars(buf.as_slice())
    }

    /// The `<memory-context>` block around recall lines.
    pub fn memory_block(lines: &[String]) -> (r: String)
        ensures
            r@ == "<memory-context>\n"@ + concat_all(string_views(lines@)) + "</memory-context>"@,
    {
        let ghost ls = string_views(lines@);
        let mut buf: Vec<char> = Vec::new();
        append_str(&mut buf, "<memory-context>\n");
        let ghost head = buf@;
        let mut i: usize = 0;
        while i < lines.len()
            invariant
                i <= lines@.len(),
                ls == string_views(lines@),
                buf@ == head + concat_all(ls.take(i as int)),
            decreases lines.len() - i,
        {
            append_str(&mut buf, lines[i].as_str());
            assert(ls.take(i + 1).drop_last() =~= ls.take(i as int));
            i += 1;
        }
        assert(ls.take(ls.len() as int) =~= ls);
        append_str(&mut buf, "</memory-context>");
        string_from_chars(buf.as_slice())
    }

    /// The `<global-memory>` lines for entries already ordered by effective
    /// importance (highest first): superseded entries are left out and at
    /// most `GLOBAL_SOFT_CAP` lines are kept.
    pub fn global_lines(entries: &[MemoryRecord]) -> (r: Vec<String>)
        ensures
            string_views(r@) == {
                let all = live_lines(entries@, entries@.len() as int);
                if all.len() > GLOBAL_SOFT_CAP {
                    all.take(GLOBAL_SOFT_CAP as int)
                } else {
                    all
                }
            },
    {
        let mut out: Vec<String> = Vec::new();
        let mut i: usize = 0;
        while i < entries.len()
            invariant
                i <= entries@.len(),
                string_views(out@) == live_lines(entries@, i as int),
            decreases entries.len() - i,
        {
            if entries[i].superseded_by.is_none() {
                let mut buf: Vec<char> = Vec::new();
                append_str(&mut buf, "- [");
                append_str(&mut buf, format_memory_type(&entries[i].memory_type));
                append_str(&mut buf, "] ");
                append_str(&mut buf, entries[i].content.as_str());
                let line = string_from_chars(buf.as_slice());
                let ghost prev = out@;
                out.push(line);
                assert(string_views(out@) =~= string_views(prev).push(line@));
            }
            i += 1;
        }
        if out.len() > GLOBAL_SOFT_CAP {
            let ghost all = out@;
            out.truncate(GLOBAL_SOFT_CAP);
            assert(string_views(out@) =~= string_views(all).take(GLOBAL_SOFT_CAP as int));
        }
        out
    }

    /// A user message with the memory block in front of it, separated by a
    /// blank line; a message without text counts as empty.
    pub fn prepend_block(block: &str, original: Option<String>) -> (r: String)
        ensures
            r@ == block@ + "\n\n"@ + match original {
                Some(o) => o@,
                None => Seq::<char>::empty(),
            },
    {
        let mut buf: Vec<char> = Vec::new();
        append_str(&mut buf, block);
        append_str(&mut buf, "\n\n");
        match original {
            Some(o) => append_str(&mut buf, o.as_str()),
            None => {},
        }
        assert(buf@ =~= block@ + "\n\n"@ + match original {
            Some(o) => o@,
            None => Seq::<char>::empty(),
        });
        string_from_chars(buf.as_slice())
    }

    /// Prepend `block` to the first user message of `messages` (see
    /// [`Self::prepend_block`]); nothing changes when the block is empty or
    /// there is no user message.
    pub fn inject_block(messages: &mut Vec<ChatTurn>, block: &str)
        ensures
            block@.len() == 0 || first_user(old(messages)@) is None ==> final(messages)@ == old(
                messages,
            )@,
            block@.len() > 0 ==> match first_user(old(messages)@) {
                Some(i) => {
                    &&& final(messages)@.len() == old(messages)@.len()
                    &&& forall|j: int|
                        0 <= j < old(messages)@.len() && j != i ==> final(messages)@[j] == old(
                            messages,
                        )@[j]
                    &&& final(messages)@[i].role == old(messages)@[i].role
                    &&& final(messages)@[i].content matches Some(c) && c@ == block@ + "\n\n"@
                        + match old(messages)@[i].content {
                        Some(o) => o@,
                        None => Seq::<char>::empty(),
                    }
                },
                None => true,
            },
    {
        let block_chars = chars_of(block);
        if block_chars.len() == 0 {
            return;
        }
        let mut i: usize = 0;
        while i < messages.len()
            invariant
                i <= messages@.len(),
                messages@ == old(messages)@,
                block@.len() > 0,
                forall|j: int| 0 <= j < i ==> (#[trigger] messages@[j]).role@ != "user"@,
            decreases messages.len() - i,
        {
            if str_eq(messages[i].role.as_str(), "user") {
                proof {
                    lemma_first_user(messages@, i as int);
                }
                let original: Option<String> = match &messages[i].content {
                    Some(c) => Some(c.clone()),
                    None => None,
                };
                let text = Self::prepend_block(block, original);
                messages[i].content = Some(text);
                return;
            }
            i += 1;
        }
        proof {
            lemma_first_user(messages@, i as int);
        }
    }
}

/// One chat message: who sent it and its text (if any).
#[derive(Clone, Debug)]
pub struct ChatTurn {
    pub role: String,
    pub content: Option<String>,
}

/// Position of the first message sent by the user.
pub open spec fn first_user(ms: Seq<ChatTurn>) -> Option<int>
    decreases ms.len(),
{
    if ms.len() == 0 {
        None
    } else if ms[0].role@ == "user"@ {
        Some(0)
    } else {
        match first_user(ms.drop_first()) {
            Some(i) => Some(i + 1),
            None => None,
        }
    }
}

proof fn lemma_first_user(ms: Seq<ChatTurn>, i: int)
    requires
        0 <= i <= ms.len(),
        forall|j: int| 0 <= j < i ==> (#[trigger] ms[j]).role@ != "user"@,
    ensures
        i < ms.len() && ms[i].role@ == "user"@ ==> first_user(ms) == Some(i),
        i == ms.len() ==> first_user(ms) is None,
    decreases i,
{
    if i > 0 {
        let rest = ms.drop_first();
        assert forall|j: int| 0 <= j < i - 1 implies (#[trigger] rest[j]).role@ != "user"@ by {
            assert(rest[j] == ms[j + 1]);
        }
        if i < ms.len() {
            assert(rest[i - 1] == ms[i]);
        }
        lemma_first_user(rest, i - 1);
    }
}

// ── Laws ───────────────────────────────────────────────────────────────

/// Longest first: UTF-8 lengths never increase along the sequence.
pub open spec fn longest_first(s: Seq<Seq<char>>) -> bool {
    forall|i: int, j: int| 0 <= i < j < s.len() ==> utf8_len(#[trigger] s[i]) >= utf8_len(#[trigger] s[j])
}

proof fn lemma_insert_keeps_order(sorted: Seq<Seq<char>>, x: Seq<char>)
    requires
        longest_first(sorted),
    ensures
        longest_first(insert_by_len(sorted, x)),
        insert_by_len(sorted, x).len() == sorted.len() + 1,
        forall|k: int| 0 <= k < insert_by_len(sorted, x).len() ==> (#[trigger] insert_by_len(sorted, x)[k] == x || sorted.contains(insert_by_len(sorted, x)[k])),
    decreases sorted.len(),
{
    if sorted.len() == 0 {
    } else if utf8_len(sorted.last()) >= utf8_len(x) {
        let r = sorted.push(x);
        assert forall|i: int, j: int| 0 <= i < j < r.len() implies utf8_len(#[trigger] r[i]) >= utf8_len(#[trigger] r[j]) by {
            if j == sorted.len() {
                if i < sorted.len() - 1 {
                    assert(utf8_len(sorted[i]) >= utf8_len(sorted[sorted.len() - 1]));
                }
            }
        }
        assert forall|k: int| 0 <= k < r.len() implies (#[trigger] r[k] == x || sorted.contains(r[k])) by {
            if k < sorted.len() {
                assert(r[k] == sorted[k]);
            }
        }
    } else {
        let d = sorted.drop_last();
        assert forall|i: int, j: int| 0 <= i < j < d.len() implies utf8_len(#[trigger] d[i]) >= utf8_len(#[trigger] d[j]) by {
            assert(d[i] == sorted[i] && d[j] == sorted[j]);
        }
        lemma_insert_keeps_order(d, x);
        let m = insert_by_len(d, x);
        let r = m.push(sorted.last());
        assert forall|k: int| 0 <= k < m.len() implies utf8_len(#[trigger] m[k]) >= utf8_len(sorted.last()) by {
            if m[k] == x {
            } else {
                let j = choose|j: int| 0 <= j < d.len() && d[j] == m[k];
                assert(d[j] == sorted[j]);
                assert(utf8_len(sorted[j]) >= utf8_len(sorted[sorted.len() - 1]));
            }
        }
        assert forall|i: int, j: int| 0 <= i < j < r.len() implies utf8_len(#[trigger] r[i]) >= utf8_len(#[trigger] r[j]) by {
            if j == m.len() {
                assert(r[i] == m[i]);
            } else {
                assert(r[i] == m[i] && r[j] == m[j]);
            }
        }
        assert forall|k: int| 0 <= k < r.len() implies (#[trigger] r[k] == x || sorted.contains(r[k])) by {
            if k < m.len() {
                assert(r[k] == m[k]);
                if m[k] != x {
                    let j = choose|j: int| 0 <= j < d.len() && d[j] == m[k];
                    assert(sorted[j] == d[j]);
                }
            } else {
                assert(sorted[sorted.len() - 1] == r[k]);
            }
        }
    }
}

proof fn lemma_sort_longest_first(s: Seq<Seq<char>>)
    ensures
        longest_first(sort_by_len_desc(s)),
    decreases s.len(),
{
    if s.len() > 0 {
        lemma_sort_longest_first(s.drop_last());
        lemma_insert_keeps_order(sort_by_len_desc(s.drop_last()), s.last());
    }
}

proof fn lemma_dedup_keeps_order(s: Seq<Seq<char>>)
    requires
        longest_first(s),
    ensures
        longest_first(dedup_adjacent(s)),
        forall|k: int| 0 <= k < dedup_adjacent(s).len() ==> s.contains(#[trigger] dedup_adjacent(s)[k]),
    decreases s.len(),
{
    if s.len() > 0 {
        let d0 = s.drop_last();
        assert forall|i: int, j: int| 0 <= i < j < d0.len() implies utf8_len(#[trigger] d0[i]) >= utf8_len(#[trigger] d0[j]) by {
            assert(d0[i] == s[i] && d0[j] == s[j]);
        }
        lemma_dedup_keeps_order(d0);
        let d = dedup_adjacent(d0);
        assert forall|k: int| 0 <= k < d.len() implies s.contains(#[trigger] d[k]) by {
            let j = choose|j: int| 0 <= j < d0.len() && d0[j] == d[k];
            assert(s[j] == d0[j]);
        }
        if !(s.len() >= 2 && s[s.len() - 2] == s.last()) {
            let r = d.push(s.last());
            assert forall|i: int, j: int| 0 <= i < j < r.len() implies utf8_len(#[trigger] r[i]) >= utf8_len(#[trigger] r[j]) by {
                if j == d.len() {
                    assert(r[i] == d[i]);
                    let q = choose|q: int| 0 <= q < d0.len() && d0[q] == d[i];
                    assert(s[q] == d0[q]);
                    assert(utf8_len(s[q]) >= utf8_len(s[s.len() - 1]));
                } else {
                    assert(r[i] == d[i] && r[j] == d[j]);
                }
            }
            assert forall|k: int| 0 <= k < r.len() implies s.contains(#[trigger] r[k]) by {
                if k < d.len() {
                    assert(r[k] == d[k]);
                } else {
                    assert(s[s.len() - 1] == r[k]);
                }
            }
        }
    }
}

/// Recall keywords are at most six and come longest first.
pub proof fn law_keywords_bounded_longest_first(msg: Seq<char>)
    ensures
        keywords_spec(msg).len() <= MAX_KEYWORDS,
        longest_first(keywords_spec(msg)),
{
    let words = ws_words(msg);
    let sorted = sort_by_len_desc(kept_words(words, words.len() as int));
    lemma_sort_longest_first(kept_words(words, words.len() as int));
    lemma_dedup_keeps_order(sorted);
    let d = dedup_adjacent(sorted);
    if d.len() > MAX_KEYWORDS {
        let t = d.take(MAX_KEYWORDS as int);
        assert forall|i: int, j: int| 0 <= i < j < t.len() implies utf8_len(#[trigger] t[i]) >= utf8_len(#[trigger] t[j]) by {
            assert(t[i] == d[i] && t[j] == d[j]);
        }
    }
}

} // verus!
