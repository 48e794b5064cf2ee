//! Storage rules for memories and sessions: which ids are safe as file
//! names, which directory entries are memory files, and the in-memory
//! backend's bookkeeping (replace-or-append by id, reconciling the stored
//! set with an authoritative one).
use vstd::prelude::*;
use crate::entry::MemoryRecord;
use crate::pool::{find_by_id, first_with_id, lemma_first_with_id, lemma_first_with_id_found};
use crate::migration::{is_json_name, is_json_name_spec};
use crate::text::{
    chars_of, contains_chars, contains_seq, str_eq, to_uppercase, uppercase_of, utf8_len,
    utf8_len_at_least,
};
use crate::tokenizer::{in_list, in_word_list};

verus! {

/// Where memories are kept.
#[derive(Clone, Copy, Debug, PartialEq, Eq, Structural)]
pub enum StorageBackend {
    /// One JSON file per memory in a directory.
    File,
    /// A process-local list (tests, ephemeral runs).
    Memory,
}

// ── Id validation ──────────────────────────────────────────────────────

/// Device names that Windows refuses as file names.
pub open spec fn reserved_names() -> Seq<&'static str> {
    seq![
        "CON", "PRN", "AUX", "NUL", "COM1", "COM2", "COM3", "COM4", "COM5", "COM6", "COM7", "COM8",
        "COM9", "LPT1", "LPT2", "LPT3", "LPT4", "LPT5", "LPT6", "LPT7", "LPT8", "LPT9",
    ]
}

fn reserved_names_array() -> (a: [&'static str; 22])
    ensures
        a@ == reserved_names(),
{
    let a: [&'static str; 22] = [
        "CON", "PRN", "AUX", "NUL", "COM1", "COM2", "COM3", "COM4", "COM5", "COM6", "COM7", "COM8",
        "COM9", "LPT1", "LPT2", "LPT3", "LPT4", "LPT5", "LPT6", "LPT7", "LPT8", "LPT9",
    ];
    assert(a@ =~= reserved_names());
    a
}

/// The part of `s` before its first `.` (all of `s` when there is none).
pub open spec fn before_first_dot(s: Seq<char>) -> Seq<char>
    decreases s.len(),
{
    if s.len() == 0 {
        s
    } else if s[0] == '.' {
        seq![]
    } else {
        seq![s[0]] + before_first_dot(s.drop_first())
    }
}

/// An id is safe as a session file name: non-empty, no path separator, no
/// `..`, and not hidden.
pub open spec fn valid_session_id_spec(id: Seq<char>) -> bool {
    &&& id.len() > 0
    &&& !id.contains('/')
    &&& !id.contains('\\')
    &&& !contains_seq(id, seq!['.', '.'])
    &&& id[0] != '.'
}

/// An id is safe as a memory file name: a safe session id of at most 255
/// bytes, without NUL, whose upper-cased stem (before the first dot) is not
/// a reserved Windows device name.
pub open spec fn valid_memory_id_spec(id: Seq<char>) -> bool {
    &&& valid_session_id_spec(id)
    &&& utf8_len(id) <= 255
    &&& !id.contains('\0')
    &&& !in_word_list(before_first_dot(uppercase_of(id)), reserved_names())
}

fn contains_char(v: &[char], c: char) -> (r: bool)
    ensures
        r == v@.contains(c),
{
    let mut i: usize = 0;
    while i < v.len()
        invariant
            i <= v@.len(),
            forall|j: int| 0 <= j < i ==> v@[j] != c,
        decreases v.len() - i,
    {
        if v[i] == c {
            return true;
        }
        i += 1;
    }
    false
}

fn stem_before_dot(v: &[char]) -> (r: Vec<char>)
    ensures
        r@ == before_first_dot(v@),
{
    let mut i: usize = 0;
    assert(v@.skip(0) =~= v@);
    assert(v@.take(0) + before_first_dot(v@) =~= before_first_dot(v@));
    while i < v.len() && v[i] != '.'
        invariant
            i <= v@.len(),
            forall|j: int| 0 <= j < i ==> v@[j] != '.',
            before_first_dot(v@) == v@.take(i as int) + before_first_dot(v@.skip(i as int)),
        decreases v.len() - i,
    {
        let ghost rest = v@.skip(i as int);
        assert(rest.drop_first() =~= v@.skip(i + 1));
        assert(v@.take(i + 1) =~= v@.take(i as int) + seq![rest[0]]);
        i += 1;
    }
    let ghost rest = v@.skip(i as int);
    assert(before_first_dot(rest) =~= seq![]);
    assert(v@.take(i as int) + seq![] =~= v@.take(i as int));
    crate::text::slice_chars(v, 0, i)
}

/// Whether a session id is safe to use in a file path (no traversal).
pub fn validate_session_id(id: &str) -> (r: bool)
    ensures
        r == valid_session_id_spec(id@),
{
    let v = chars_of(id);
    let dots: [char; 2] = ['.', '.'];
    assert(dots@ =~= seq!['.', '.']);
    v.len() > 0 && !contains_char(v.as_slice(), '/') && !contains_char(v.as_slice(), '\\')
        && !contains_chars(v.as_slice(), dots.as_slice()) && v[0] != '.'
}

/// Whether a memory id is safe to use in a file path: rejects empty or
/// over-long ids, path separators, `..`, NUL, hidden names and Windows
/// reserved device names.
pub fn validate_id(id: &str) -> (r: bool)
    ensures
        r == valid_memory_id_spec(id@),
{
    let v = chars_of(id);
    if v.len() == 0 || utf8_len_at_least(v.as_slice(), 256) {
        return false;
    }
    if !validate_session_id(id) {
        return false;
    }
    if contains_char(v.as_slice(), '\0') {
        return false;
    }
    let upper = to_uppercase(id);
    let uv = chars_of(upper.as_str());
    let stem = stem_before_dot(uv.as_slice());
    let reserved = reserved_names_array();
    !in_list(stem.as_slice(), &reserved)
}

/// The file name of a memory with a safe id: `<id>.json`.
pub fn memory_file_name(id: &str) -> (r: Option<String>)
    ensures
        match r {
            Some(n) => valid_memory_id_spec(id@) && n@ == id@ + seq!['.', 'j', 's', 'o', 'n'],
            None => !valid_memory_id_spec(id@),
        },
{
    if !validate_id(id) {
        return None;
    }
    let mut v = chars_of(id);
    v.push('.');
    v.push('j');
    v.push('s');
    v.push('o');
    v.push('n');
    assert(v@ =~= id@ + seq!['.', 'j', 's', 'o', 'n']);
    Some(crate::text::string_from_chars(v.as_slice()))
}

// ── The in-memory backend ──────────────────────────────────────────────

/// The in-memory backend after saving `entry`: the first entry with its id
/// replaced, or `entry` appended when there is none.
pub open spec fn cache_saved(cache: Seq<MemoryRecord>, entry: MemoryRecord) -> Seq<MemoryRecord> {
    match first_with_id(cache, entry.id@) {
        Some(i) => cache.update(i, entry),
        None => cache.push(entry),
    }
}

/// Save into the in-memory backend: replace the first entry with the same
/// id, or append. (Deleting drops every entry with the id:
/// [`crate::pool::delete_by_id`].)
pub fn cache_upsert(cache: &mut Vec<MemoryRecord>, entry: MemoryRecord)
    ensures
        final(cache)@ == cache_saved(old(cache)@, entry),
{
    match find_by_id(cache.as_slice(), entry.id.as_str()) {
        Some(i) => cache.set(i, entry),
        None => cache.push(entry),
    }
}

/// Whether some entry of `entries` has id `id`.
pub open spec fn has_entry_id(entries: Seq<MemoryRecord>, id: Seq<char>) -> bool {
    exists|j: int| 0 <= j < entries.len() && (#[trigger] entries[j]).id@ == id
}

/// The file stem of a `*.json` name (the name without `.json`).
pub open spec fn json_stem(name: Seq<char>) -> Seq<char> {
    name.take(name.len() - 5)
}

/// A stored file is an orphan after reconciling with `kept`: it is a
/// memory file whose stem is the id of no kept entry.
pub open spec fn is_orphan(name: Seq<char>, kept: Seq<MemoryRecord>) -> bool {
    is_json_name_spec(name) && !has_entry_id(kept, json_stem(name))
}

/// The orphans among `names[..n]`, as positions, in order.
pub open spec fn orphans_upto(names: Seq<Seq<char>>, kept: Seq<MemoryRecord>, n: int) -> Seq<usize>
    decreases n,
{
    if n <= 0 {
        seq![]
    } else if is_orphan(names[n - 1], kept) {
        orphans_upto(names, kept, n - 1).push((n - 1) as usize)
    } else {
        orphans_upto(names, kept, n - 1)
    }
}

fn has_id_exec(entries: &[MemoryRecord], id: &[char]) -> (r: bool)
    ensures
        r == has_entry_id(entries@, id@),
{
    let s = crate::text::string_from_chars(id);
    let mut j: usize = 0;
    while j < entries.len()
        invariant
            j <= entries@.len(),
            s@ == id@,
            forall|k: int| 0 <= k < j ==> (#[trigger] entries@[k]).id@ != id@,
        decreases entries.len() - j,
    {
        if str_eq(entries[j].id.as_str(), s.as_str()) {
            return true;
        }
        j += 1;
    }
    false
}

/// Reconciling the file backend with the authoritative entries: the
/// positions, among the directory's file names, of the memory files to
/// delete (those whose id no kept entry has).
pub fn orphaned_files(names: &[String], kept: &[MemoryRecord]) -> (r: Vec<usize>)
    ensures
        r@ == orphans_upto(
            names@.map_values(|s: String| s@),
            kept@,
            names@.len() as int,
        ),
{
    let ghost nv = names@.map_values(|s: String| s@);
    let mut out: Vec<usize> = Vec::new();
    let mut i: usize = 0;
    while i < names.len()
        invariant
            i <= names@.len(),
            nv == names@.map_values(|s: String| s@),
            out@ == orphans_upto(nv, kept@, i as int),
        decreases names.len() - i,
    {
        assert(nv[i as int] == names@[i as int]@);
        if is_json_name(names[i].as_str()) {
            let v = chars_of(names[i].as_str());
            let stem = crate::text::slice_chars(v.as_slice(), 0, v.len() - 5);
            assert(stem@ =~= json_stem(nv[i as int]));
            if !has_id_exec(kept, stem.as_slice()) {
                out.push(i);
            }
        }
        i += 1;
    }
    out
}

/// A saved memory is what a later load by its id finds, and a load by any
/// other id finds what it found before.
pub proof fn law_cache_read_after_save(cache: Seq<MemoryRecord>, entry: MemoryRecord, other: Seq<char>)
    ensures
        match first_with_id(cache_saved(cache, entry), entry.id@) {
            Some(j) => cache_saved(cache, entry)[j] == entry,
            None => false,
        },
        other != entry.id@ ==> match first_with_id(cache, other) {
            Some(k) => first_with_id(cache_saved(cache, entry), other) == Some(k) && cache_saved(
                cache,
                entry,
            )[k] == cache[k],
            None => first_with_id(cache_saved(cache, entry), other) is None,
        },
{
    let id = entry.id@;
    let t = cache_saved(cache, entry);
    lemma_first_with_id_found(cache, id);
    lemma_first_with_id_found(cache, other);
    match first_with_id(cache, id) {
        Some(i) => {
            assert(t == cache.update(i, entry));
            assert forall|j: int| 0 <= j < i implies (#[trigger] t[j]).id@ != id by {
                assert(t[j] == cache[j]);
            }
            lemma_first_with_id(t, id, i);
            if other != id {
                match first_with_id(cache, other) {
                    Some(k) => {
                        assert(k != i);
                        assert forall|j: int| 0 <= j < k implies (#[trigger] t[j]).id@ != other by {
                            if j != i {
                                assert(t[j] == cache[j]);
                            }
                        }
                        lemma_first_with_id(t, other, k);
                    },
                    None => {
                        assert forall|j: int| 0 <= j < t.len() implies (#[trigger] t[j]).id@
                            != other by {
                            if j != i {
                                assert(t[j] == cache[j]);
                            }
                        }
                        lemma_first_with_id(t, other, t.len() as int);
                    },
                }
            }
        },
        None => {
            assert(t == cache.push(entry));
            assert forall|j: int| 0 <= j < cache.len() implies (#[trigger] t[j]).id@ != id by {
                assert(t[j] == cache[j]);
            }
            lemma_first_with_id(t, id, cache.len() as int);
            if other != id {
                match first_with_id(cache, other) {
                    Some(k) => {
                        assert forall|j: int| 0 <= j < k implies (#[trigger] t[j]).id@ != other by {
                            assert(t[j] == cache[j]);
                        }
                        assert(t[k] == cache[k]);
                        lemma_first_with_id(t, other, k);
                    },
                    None => {
                        assert forall|j: int| 0 <= j < t.len() implies (#[trigger] t[j]).id@
                            != other by {
                            if j < cache.len() {
                                assert(t[j] == cache[j]);
                            }
                        }
                        lemma_first_with_id(t, other, t.len() as int);
                    },
                }
            }
        },
    }
}


} // verus!
