//! Read-only directory browsing for the web directory picker: which
//! directory a request asks for, and the listing built from what the file
//! system reported (only sub-directories, hidden ones flagged, sorted by
//! lower-cased name).
use vstd::prelude::*;
use crate::ordering::{lex_compare, lex_lt};
use crate::text::{chars_of, char_is_whitespace, is_unicode_whitespace, lowercase_chars, lowercase_of};

verus! {

broadcast use vstd::seq_lib::group_seq_properties;

/// Query of `GET /api/v1/fs/dirs`: the directory to list; absent or blank
/// means the home directory.
#[derive(Clone, Debug)]
pub struct DirQuery {
    pub path: Option<String>,
}

/// One child directory.
#[derive(Clone, Debug)]
pub struct DirEntry {
    pub name: String,
    pub path: String,
    /// The name starts with a dot.
    pub is_hidden: bool,
}

/// The listing of one directory.
#[derive(Clone, Debug)]
pub struct DirListing {
    /// Canonical absolute path of the listed directory.
    pub current: String,
    /// Its parent, or `None` at a file-system root.
    pub parent: Option<String>,
    /// Child directories, sorted by lower-cased name.
    pub entries: Vec<DirEntry>,
}

/// A readable child of the listed directory, as the file system reported it.
pub struct ChildEntry {
    pub name: String,
    pub is_dir: bool,
}

/// Why a listing was refused: HTTP status and message.
#[derive(Clone, Copy, Debug, PartialEq, Eq, Structural)]
pub enum DirError {
    /// 400: the path cannot be resolved.
    DoesNotExist,
    /// 400: the path resolves to something other than a directory.
    NotADirectory,
}

impl DirError {
    /// The HTTP status (400 for both).
    pub fn status(&self) -> (r: u16)
        ensures
            r == 400,
    {
        400
    }

    pub fn message(&self) -> (r: &'static str)
        ensures
            *self == DirError::DoesNotExist ==> r@ == "directory does not exist"@,
            *self == DirError::NotADirectory ==> r@ == "path is not a directory"@,
    {
        match self {
            DirError::DoesNotExist => "directory does not exist",
            DirError::NotADirectory => "path is not a directory",
        }
    }
}

// ── The requested directory ────────────────────────────────────────────

/// A path counts as given when it has a non-whitespace character.
pub open spec fn is_blank(s: Seq<char>) -> bool {
    forall|i: int| 0 <= i < s.len() ==> is_unicode_whitespace(#[trigger] s[i])
}

/// The directory a query asks for: its path unless absent or blank
/// (`None`: list the home directory).
pub fn requested_dir(q: DirQuery) -> (r: Option<String>)
    ensures
        match q.path {
            Some(p) => if is_blank(p@) {
                r is None
            } else {
                r == Some(p)
            },
            None => r is None,
        },
{
    match q.path {
        None => None,
        Some(p) => {
            let v = chars_of(p.as_str());
            let mut i: usize = 0;
            while i < v.len()
                invariant
                    i <= v@.len(),
                    v@ == p@,
                    q.path == Some(p),
                    forall|j: int| 0 <= j < i ==> is_unicode_whitespace(#[trigger] v@[j]),
                decreases v.len() - i,
            {
                if !char_is_whitespace(v[i]) {
                    assert(!is_unicode_whitespace(p@[i as int]));
                    return Some(p);
                }
                i += 1;
            }
            None
        },
    }
}

// ── Building the listing ───────────────────────────────────────────────

/// A name sorts no later than another by lower-cased name.
pub open spec fn name_key_le(a: Seq<char>, b: Seq<char>) -> bool {
    !lex_lt(lowercase_of(b), lowercase_of(a))
}

/// Insert `x` just after the last entry whose key is not greater (equal
/// keys keep their arrival order).
pub open spec fn insert_by_name(sorted: Seq<DirEntry>, x: DirEntry) -> Seq<DirEntry>
    decreases sorted.len(),
{
    if sorted.len() == 0 {
        seq![x]
    } else if name_key_le(sorted.last().name@, x.name@) {
        sorted.push(x)
    } else {
        insert_by_name(sorted.drop_last(), x).push(sorted.last())
    }
}

/// The hidden flag of a name: it starts with a dot.
pub open spec fn hidden_name(name: Seq<char>) -> bool {
    name.len() > 0 && name[0] == '.'
}

/// The entries for the directory children among `children[..n]`, in report
/// order: each with its name, its joined path `paths[k]` and its hidden
/// flag.
pub open spec fn made_entries(children: Seq<ChildEntry>, paths: Seq<String>, n: int) -> Seq<DirEntry>
    decreases n,
{
    if n <= 0 {
        seq![]
    } else if children[n - 1].is_dir {
        made_entries(children, paths, n - 1).push(
            DirEntry {
                name: children[n - 1].name,
                path: paths[n - 1],
                is_hidden: hidden_name(children[n - 1].name@),
            },
        )
    } else {
        made_entries(children, paths, n - 1)
    }
}

/// Stable sort by lower-cased name.
pub open spec fn sort_entries(s: Seq<DirEntry>) -> Seq<DirEntry>
    decreases s.len(),
{
    if s.len() == 0 {
        seq![]
    } else {
        insert_by_name(sort_entries(s.drop_last()), s.last())
    }
}

proof fn lemma_insert_by_name_at(sorted: Seq<DirEntry>, x: DirEntry, j: int)
    requires
        0 <= j <= sorted.len(),
        forall|i: int| j <= i < sorted.len() ==> !name_key_le((#[trigger] sorted[i]).name@, x.name@),
        j > 0 ==> name_key_le(sorted[j - 1].name@, x.name@),
    ensures
        insert_by_name(sorted, x) == sorted.take(j).push(x) + sorted.skip(j),
    decreases sorted.len(),
{
    if sorted.len() == 0 {
        assert(sorted.take(j).push(x) + sorted.skip(j) =~= seq![x]);
    } else if j == sorted.len() {
        assert(sorted.take(j) =~= sorted);
        assert(sorted.take(j).push(x) + sorted.skip(j) =~= sorted.push(x));
    } else {
        let d = sorted.drop_last();
        assert(!name_key_le(sorted[sorted.len() - 1].name@, x.name@));
        assert forall|i: int| j <= i < d.len() implies !name_key_le((#[trigger] d[i]).name@, x.name@) by {
            assert(d[i] == sorted[i]);
        }
        lemma_insert_by_name_at(d, x, j);
        assert(d.take(j) =~= sorted.take(j));
        assert((d.take(j).push(x) + d.skip(j)).push(sorted.last()) =~= sorted.take(j).push(x)
            + sorted.skip(j));
    }
}

/// The entries of a listing: the directory children, each with its joined
/// path (`paths[i]` belongs to `children[i]`) and its hidden flag, sorted
/// stably by lower-cased name.
pub fn build_entries(children: &Vec<ChildEntry>, paths: &Vec<String>) -> (r: Vec<DirEntry>)
    requires
        paths@.len() == children@.len(),
    ensures
        r@ == sort_entries(made_entries(children@, paths@, children@.len() as int)),
{
    let mut out: Vec<DirEntry> = Vec::new();
    let mut keys: Vec<Vec<char>> = Vec::new();
    let mut n: usize = 0;
    while n < children.len()
        invariant
            n <= children@.len(),
            paths@.len() == children@.len(),
            out@ == sort_entries(made_entries(children@, paths@, n as int)),
            keys@.len() == out@.len(),
            forall|q: int| 0 <= q < keys@.len() ==> (#[trigger] keys@[q])@ == lowercase_of(out@[q].name@),
        decreases children.len() - n,
    {
        if children[n].is_dir {
            let name_chars = chars_of(children[n].name.as_str());
            let key = lowercase_chars(name_chars.as_slice());
            let hidden = name_chars.len() > 0 && name_chars[0] == '.';
            let e = DirEntry { name: children[n].name.clone(), path: paths[n].clone(), is_hidden: hidden };
            let mut j = out.len();
            while j > 0 && lex_compare(key.as_slice(), keys[j - 1].as_slice()) < 0
                invariant
                    j <= out@.len(),
                    keys@.len() == out@.len(),
                    forall|q: int| 0 <= q < keys@.len() ==> (#[trigger] keys@[q])@ == lowercase_of(out@[q].name@),
                    key@ == lowercase_of(e.name@),
                    forall|i: int| j <= i < out@.len() ==> !name_key_le((#[trigger] out@[i]).name@, e.name@),
                decreases j,
            {
                j -= 1;
            }
            let ghost before = out@;
            proof {
                if j > 0 {
                    assert(!lex_lt(key@, keys@[j - 1]@));
                }
                lemma_insert_by_name_at(before, e, j as int);
                let m = made_entries(children@, paths@, n + 1);
                assert(m.drop_last() =~= made_entries(children@, paths@, n as int));
                assert(m.last() == e);
            }
            out.insert(j, e);
            keys.insert(j, key);
            assert(out@ =~= before.take(j as int).push(e) + before.skip(j as int));
        }
        n += 1;
    }
    out
}

/// The answer to a listing request, from what the file system reported:
/// the canonical form of the requested path (`None`: it does not resolve),
/// whether that is a directory, its parent, and its readable children
/// with their joined paths (`None`: the directory could not be read, which
/// gives an empty listing rather than an error).
pub fn collect_listing(
    canonical: Option<String>,
    is_dir: bool,
    parent: Option<String>,
    children: Option<(Vec<ChildEntry>, Vec<String>)>,
) -> (r: Result<DirListing, DirError>)
    requires
        children matches Some((c, p)) ==> p@.len() == c@.len(),
    ensures
        canonical is None ==> r == Err::<DirListing, DirError>(DirError::DoesNotExist),
        canonical is Some && !is_dir ==> r == Err::<DirListing, DirError>(DirError::NotADirectory),
        canonical is Some && is_dir ==> (r matches Ok(l) && l.current == canonical->0 && l.parent == parent && match children {
            Some((c, p)) => l.entries@ == sort_entries(made_entries(c@, p@, c@.len() as int)),
            None => l.entries@.len() == 0,
        }),
{
    let current = match canonical {
        Some(c) => c,
        None => return Err(DirError::DoesNotExist),
    };
    if !is_dir {
        return Err(DirError::NotADirectory);
    }
    let entries = match children {
        Some((c, p)) => build_entries(&c, &p),
        None => Vec::new(),
    };
    Ok(DirListing { current, parent, entries })
}

} // verus!
