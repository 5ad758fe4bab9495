//! Directory listings and the file-tree state.
//!
//! A listing holds one folder's immediate entries, filtered (hidden files
//! and build/cache noise skipped) and sorted (folders first, then files,
//! each group by case-insensitive name). `TreeState` is the browsable tree:
//! the root listing, lazily-walked subfolders, the expanded set and the
//! selection; `flatten` derives the visible rows.

use vstd::prelude::*;
use vstd::string::*;
use crate::text::{
    ascii_lower, chars_of, eq_ignore_ascii_case, extension_of, lower_char, lower_eq, path_extension,
    str_eq,
};

verus! {

/// One entry of a directory listing.
#[derive(Debug, PartialEq, Eq)]
pub struct DirectoryEntry {
    /// Entry name (file name only).
    pub name: String,
    /// Path of the entry.
    pub path: String,
    pub kind: EntryKind,
}

#[derive(Debug, Clone, Copy, PartialEq, Eq, Structural)]
pub enum EntryKind {
    File,
    Folder,
}

impl Clone for DirectoryEntry {
    fn clone(&self) -> (r: Self)
        ensures
            r == *self,
    {
        DirectoryEntry { name: self.name.clone(), path: self.path.clone(), kind: self.kind }
    }
}

/// A folder's path plus its immediate entries.
#[derive(Debug, Clone, PartialEq, Eq)]
pub struct DirectoryListing {
    pub root: String,
    pub entries: Vec<DirectoryEntry>,
}

/// Names the listing always skips: hidden files (leading dot) and common
/// build / cache / vendor directories.
pub open spec fn filtered_name(name: Seq<char>) -> bool {
    (name.len() > 0 && name[0] == '.') || name == "__pycache__"@ || name == "node_modules"@ || name
        == "target"@ || name == "build"@ || name == "dist"@ || name == ".venv"@ || name == "venv"@
}

/// True for names a listing skips.
pub fn is_filtered(name: &str) -> (b: bool)
    ensures
        b == filtered_name(name@),
{
    let cs = chars_of(name);
    if cs.len() > 0 && cs[0] == '.' {
        return true;
    }
    str_eq(name, "__pycache__") || str_eq(name, "node_modules") || str_eq(name, "target")
        || str_eq(name, "build") || str_eq(name, "dist") || str_eq(name, ".venv") || str_eq(
        name,
        "venv",
    )
}

/// Lexicographic order on characters (the order of `str`'s `Ord`).
pub open spec fn lex_lt(a: Seq<char>, b: Seq<char>) -> bool
    decreases a.len(),
{
    if a.len() == 0 {
        b.len() > 0
    } else if b.len() == 0 {
        false
    } else if a[0] != b[0] {
        (a[0] as u32) < (b[0] as u32)
    } else {
        lex_lt(a.drop_first(), b.drop_first())
    }
}

/// Listing order: folders before files, then case-insensitive name.
pub open spec fn entry_lt(a: DirectoryEntry, b: DirectoryEntry) -> bool {
    if a.kind == EntryKind::Folder && b.kind == EntryKind::File {
        true
    } else if a.kind == EntryKind::File && b.kind == EntryKind::Folder {
        false
    } else {
        lex_lt(ascii_lower(a.name@), ascii_lower(b.name@))
    }
}

/// `k` is where `x` goes in `s`: before the first element it precedes.
pub open spec fn is_insert_pos(s: Seq<DirectoryEntry>, x: DirectoryEntry, k: int) -> bool {
    &&& 0 <= k <= s.len()
    &&& forall|j: int| 0 <= j < k ==> !entry_lt(x, #[trigger] s[j])
    &&& (k == s.len() || entry_lt(x, s[k]))
}

pub open spec fn insert_pos(s: Seq<DirectoryEntry>, x: DirectoryEntry) -> int {
    choose|k: int| is_insert_pos(s, x, k)
}

/// Stable sort by `entry_lt`: each element, in input order, goes after
/// every element placed so far that it does not precede.
pub open spec fn sorted_entries(s: Seq<DirectoryEntry>) -> Seq<DirectoryEntry>
    decreases s.len(),
{
    if s.len() == 0 {
        seq![]
    } else {
        let r = sorted_entries(s.drop_last());
        let k = insert_pos(r, s.last());
        r.take(k).push(s.last()) + r.skip(k)
    }
}

/// The entries of `s` that are not filtered out, in order.
pub open spec fn kept_entries(s: Seq<DirectoryEntry>) -> Seq<DirectoryEntry> {
    s.filter(not_filtered())
}

/// Predicate: the entry's name is not filtered out.
pub open spec fn not_filtered() -> spec_fn(DirectoryEntry) -> bool {
    |e: DirectoryEntry| !filtered_name(e.name@)
}

/// Lexicographic comparison of two character sequences.
fn lex_less(a: &Vec<char>, b: &Vec<char>) -> (r: bool)
    ensures
        r == lex_lt(a@, b@),
{
    let mut i: usize = 0;
    assert(a@.skip(0) =~= a@);
    assert(b@.skip(0) =~= b@);
    while i < a.len() && i < b.len() && a[i] == b[i]
        invariant
            i <= a@.len(),
            i <= b@.len(),
            lex_lt(a@, b@) == lex_lt(a@.skip(i as int), b@.skip(i as int)),
        decreases a@.len() - i,
    {
        assert(a@.skip(i as int).drop_first() =~= a@.skip(i + 1));
        assert(b@.skip(i as int).drop_first() =~= b@.skip(i + 1));
        i = i + 1;
    }
    if i == a.len() {
        assert(a@.skip(i as int).len() == 0);
        i < b.len()
    } else if i == b.len() {
        false
    } else {
        assert(a@.skip(i as int)[0] == a@[i as int]);
        assert(b@.skip(i as int)[0] == b@[i as int]);
        (a[i] as u32) < (b[i] as u32)
    }
}

/// ASCII-lowercased characters of `s`.
fn lower_chars(s: &str) -> (v: Vec<char>)
    ensures
        v@ == ascii_lower(s@),
{
    let cs = chars_of(s);
    let mut v: Vec<char> = Vec::new();
    let mut i: usize = 0;
    while i < cs.len()
        invariant
            cs@ == s@,
            i <= cs@.len(),
            v@ == ascii_lower(s@).take(i as int),
        decreases cs@.len() - i,
    {
        let c = cs[i];
        let l = if c >= 'A' && c <= 'Z' {
            let b = c as u8;
            assert(b as u32 == c as u32);
            (b + 32) as char
        } else {
            c
        };
        assert(l == lower_char(c));
        v.push(l);
        assert(v@ =~= ascii_lower(s@).take(i + 1));
        i = i + 1;
    }
    assert(ascii_lower(s@).take(cs@.len() as int) =~= ascii_lower(s@));
    v
}

/// Whether `a` comes before `b` in listing order.
fn entry_less(a: &DirectoryEntry, b: &DirectoryEntry) -> (r: bool)
    ensures
        r == entry_lt(*a, *b),
{
    if a.kind == EntryKind::Folder && b.kind == EntryKind::File {
        true
    } else if a.kind == EntryKind::File && b.kind == EntryKind::Folder {
        false
    } else {
        let la = lower_chars(a.name.as_str());
        let lb = lower_chars(b.name.as_str());
        lex_less(&la, &lb)
    }
}

/// Sort entries: folders first, then files, each group by
/// case-insensitive name; equal keys keep their input order.
pub fn sort_entries(entries: Vec<DirectoryEntry>) -> (out: Vec<DirectoryEntry>)
    ensures
        out@ == sorted_entries(entries@),
{
    let mut out: Vec<DirectoryEntry> = Vec::new();
    let mut i: usize = 0;
    let n = entries.len();
    let mut rest = entries;
    // Process in input order: take elements from the front via an index.
    while i < n
        invariant
            n == rest@.len(),
            i <= n,
            out@ == sorted_entries(rest@.take(i as int)),
        decreases n - i,
    {
        let x = rest[i].clone();
        let mut k: usize = 0;
        while k < out.len() && !entry_less(&x, &out[k])
            invariant
                k <= out@.len(),
                forall|j: int| 0 <= j < k ==> !entry_lt(x, #[trigger] out@[j]),
            decreases out@.len() - k,
        {
            k = k + 1;
        }
        proof {
            let p = insert_pos(out@, x);
            assert(is_insert_pos(out@, x, k as int));
            if p < k {
                assert(!entry_lt(x, out@[p]));
            } else if k < p {
                assert(!entry_lt(x, out@[k as int]));
            }
            assert(rest@.take(i + 1).drop_last() =~= rest@.take(i as int));
            assert(rest@.take(i + 1).last() == x);
        }
        let ghost before = out@;
        out.insert(k, x);
        assert(out@ =~= before.take(k as int).push(x) + before.skip(k as int));
        i = i + 1;
    }
    assert(rest@.take(n as int) =~= rest@);
    out
}


/// The listing of a folder from its raw entries: filtered, then sorted.
pub open spec fn listing_entries(raw: Seq<DirectoryEntry>) -> Seq<DirectoryEntry> {
    sorted_entries(kept_entries(raw))
}

/// Build a listing from a folder's raw entries (as read from disk):
/// filtered names dropped, the rest in listing order.
pub fn listing_from_entries(root: String, raw: Vec<DirectoryEntry>) -> (l: DirectoryListing)
    ensures
        l.root == root,
        l.entries@ == listing_entries(raw@),
{
    let mut kept: Vec<DirectoryEntry> = Vec::new();
    let n = raw.len();
    let mut i: usize = 0;
    while i < n
        invariant
            n == raw@.len(),
            i <= n,
            kept@ == kept_entries(raw@.take(i as int)),
        decreases n - i,
    {
        let e = raw[i].clone();
        proof {
            assert(raw@.take(i + 1).drop_last() =~= raw@.take(i as int));
            reveal(Seq::filter);
        }
        if !is_filtered(e.name.as_str()) {
            kept.push(e);
        }
        assert(kept@ =~= kept_entries(raw@.take(i + 1)));
        i = i + 1;
    }
    assert(raw@.take(n as int) =~= raw@);
    DirectoryListing { root, entries: sort_entries(kept) }
}

/// What a directory read reports of an entry's type.
#[derive(Debug, Clone, Copy, PartialEq, Eq, Structural)]
pub enum RawKind {
    Dir,
    File,
    /// A symlink, socket, device, ...
    Other,
    /// The type could not be read.
    Unreadable,
}

/// One entry as a directory read reports it: its name when that is valid
/// UTF-8, its path and its type.
#[derive(Debug)]
pub struct RawEntry {
    pub name: Option<String>,
    pub path: String,
    pub kind: RawKind,
}

/// The entry a raw entry stands for: only directories and regular files
/// with a UTF-8 name are listed.
pub open spec fn listed_entry(r: RawEntry) -> Option<DirectoryEntry> {
    match r.name {
        Some(n) => match r.kind {
            RawKind::Dir => Some(DirectoryEntry { name: n, path: r.path, kind: EntryKind::Folder }),
            RawKind::File => Some(DirectoryEntry { name: n, path: r.path, kind: EntryKind::File }),
            _ => None,
        },
        None => None,
    }
}

/// The listed entries of a directory read, in the order read.
pub open spec fn listed_entries(raw: Seq<RawEntry>) -> Seq<DirectoryEntry>
    decreases raw.len(),
{
    if raw.len() == 0 {
        seq![]
    } else {
        let rest = listed_entries(raw.drop_last());
        match listed_entry(raw.last()) {
            Some(e) => rest.push(e),
            None => rest,
        }
    }
}

/// The listing of folder `root` from a directory read: directories and
/// regular files with UTF-8 names, filtered names dropped, folders first,
/// then files, each group by lowercased name.
pub fn listing_from_dir(root: String, raw: Vec<RawEntry>) -> (l: DirectoryListing)
    ensures
        l.root == root,
        l.entries@ == listing_entries(listed_entries(raw@)),
{
    let mut entries: Vec<DirectoryEntry> = Vec::new();
    let n = raw.len();
    let mut i: usize = 0;
    while i < n
        invariant
            n == raw@.len(),
            i <= n,
            entries@ == listed_entries(raw@.take(i as int)),
        decreases n - i,
    {
        let r = &raw[i];
        proof {
            assert(raw@.take(i + 1).drop_last() =~= raw@.take(i as int));
            assert(raw@.take(i + 1).last() == raw@[i as int]);
        }
        match &r.name {
            Some(name) => match r.kind {
                RawKind::Dir => entries.push(
                    DirectoryEntry { name: name.clone(), path: r.path.clone(), kind: EntryKind::Folder },
                ),
                RawKind::File => entries.push(
                    DirectoryEntry { name: name.clone(), path: r.path.clone(), kind: EntryKind::File },
                ),
                _ => {},
            },
            None => {},
        }
        i = i + 1;
    }
    assert(raw@.take(n as int) =~= raw@);
    listing_from_entries(root, entries)
}

/// A listing holds no hidden entry (a name starting with `.`) and none
/// named `__pycache__`, `node_modules`, `target`, `build`, `dist`,
/// `.venv` or `venv`; every other entry given is in it.
pub proof fn law_listing_skips_hidden_and_build_entries(raw: Seq<DirectoryEntry>)
    ensures
        forall|k: int| 0 <= k < listing_entries(raw).len() ==> {
            let n = (#[trigger] listing_entries(raw)[k]).name@;
            &&& !(n.len() > 0 && n[0] == '.')
            &&& n != "__pycache__"@
            &&& n != "node_modules"@
            &&& n != "target"@
            &&& n != "build"@
            &&& n != "dist"@
            &&& n != ".venv"@
            &&& n != "venv"@
        },
        forall|i: int| 0 <= i < raw.len() ==> ({
            let n = (#[trigger] raw[i]).name@;
            &&& !(n.len() > 0 && n[0] == '.')
            &&& n != "__pycache__"@
            &&& n != "node_modules"@
            &&& n != "target"@
            &&& n != "build"@
            &&& n != "dist"@
            &&& n != ".venv"@
            &&& n != "venv"@
        }) ==> listing_entries(raw).contains(raw[i]),
{
    broadcast use vstd::seq_lib::group_to_multiset_ensures;

    let kept = kept_entries(raw);
    let out = listing_entries(raw);
    law_sorted_entries_ordered(kept);
    assert forall|k: int| 0 <= k < out.len() implies !filtered_name((#[trigger] out[k]).name@) by {
        let x = out[k];
        assert(out.contains(x));
        assert(out.to_multiset().count(x) > 0);
        assert(kept.contains(x));
        let j = choose|j: int| 0 <= j < kept.len() && kept[j] == x;
        raw.lemma_filter_pred(not_filtered(), j);
    }
    assert forall|i: int| 0 <= i < raw.len() && !filtered_name((#[trigger] raw[i]).name@) implies out.contains(raw[i]) by {
        raw.lemma_filter_contains(not_filtered(), i);
        assert(kept.to_multiset().count(raw[i]) > 0);
    }
}

/// Predicate: a file named README.md, in any ASCII case.
pub open spec fn is_readme() -> spec_fn(DirectoryEntry) -> bool {
    |e: DirectoryEntry| e.kind == EntryKind::File && ascii_lower(e.name@) == ascii_lower(
        "README.md"@,
    )
}

/// Predicate: a file whose lowercased extension is one of `exts`.
pub open spec fn has_supported_ext(exts: Seq<Seq<char>>) -> spec_fn(DirectoryEntry) -> bool {
    |e: DirectoryEntry|
        e.kind == EntryKind::File && match path_extension(e.name@) {
            Some(x) => exists|k: int| 0 <= k < exts.len() && exts[k] == ascii_lower(x),
            None => false,
        }
}

/// The file to open for a folder: the first README.md (any case), else
/// the first file whose extension is supported, else none.
pub open spec fn representative(entries: Seq<DirectoryEntry>, exts: Seq<Seq<char>>) -> Option<
    Seq<char>,
> {
    match crate::tree::find_first(entries, is_readme()) {
        Some(i) => Some(entries[i].path@),
        None => match crate::tree::find_first(entries, has_supported_ext(exts)) {
            Some(j) => Some(entries[j].path@),
            None => None,
        },
    }
}

pub open spec fn str_views(s: Seq<&str>) -> Seq<Seq<char>> {
    s.map_values(|x: &str| x@)
}

/// Whether `ext`, lowercased, is one of `supported`.
fn is_supported_ext(ext: &str, supported: &[&str]) -> (b: bool)
    ensures
        b == exists|k: int|
            0 <= k < supported@.len() && str_views(supported@)[k] == ascii_lower(ext@),
{
    let mut k: usize = 0;
    while k < supported.len()
        invariant
            k <= supported@.len(),
            forall|j: int| 0 <= j < k ==> str_views(supported@)[j] != ascii_lower(ext@),
        decreases supported@.len() - k,
    {
        if lower_eq(ext, supported[k]) {
            assert(str_views(supported@)[k as int] == supported@[k as int]@);
            return true;
        }
        k = k + 1;
    }
    false
}

/// Pick the file to open on `ygg <dir>`: README.md (case-insensitive),
/// then the first file of a supported extension; `None` if neither exists.
pub fn pick_representative_file(listing: &DirectoryListing, supported_extensions: &[&str]) -> (r:
    Option<String>)
    ensures
        match r {
            Some(p) => representative(listing.entries@, str_views(supported_extensions@)) == Some(
                p@,
            ),
            None => representative(listing.entries@, str_views(supported_extensions@)) is None,
        },
{
    let ghost p1 = is_readme();
    let ghost exts = str_views(supported_extensions@);
    let ghost p2 = has_supported_ext(exts);
    let entries = &listing.entries;
    let mut i: usize = 0;
    while i < entries.len()
        invariant
            p1 == is_readme(),
            entries@ == listing.entries@,
            i <= entries@.len(),
            forall|j: int| 0 <= j < i ==> !p1(#[trigger] entries@[j]),
        decreases entries@.len() - i,
    {
        let e = &entries[i];
        if e.kind == EntryKind::File && eq_ignore_ascii_case(e.name.as_str(), "README.md") {
            proof {
                crate::tree::lemma_find_first_is(entries@, p1, i as int);
            }
            return Some(e.path.clone());
        }
        i = i + 1;
    }
    proof {
        crate::tree::lemma_find_first_none(entries@, p1);
    }
    let mut j: usize = 0;
    while j < entries.len()
        invariant
            p2 == has_supported_ext(exts),
            exts == str_views(supported_extensions@),
            entries@ == listing.entries@,
            crate::tree::find_first(listing.entries@, is_readme()) is None,
            j <= entries@.len(),
            forall|m: int| 0 <= m < j ==> !p2(#[trigger] entries@[m]),
        decreases entries@.len() - j,
    {
        let e = &entries[j];
        if e.kind == EntryKind::File {
            match extension_of(e.name.as_str()) {
                Some(ext) => {
                    if is_supported_ext(ext.as_str(), supported_extensions) {
                        proof {
                            crate::tree::lemma_find_first_is(entries@, p2, j as int);
                        }
                        return Some(e.path.clone());
                    }
                },
                None => {},
            }
        }
        j = j + 1;
    }
    proof {
        crate::tree::lemma_find_first_none(entries@, p2);
    }
    None
}

} // verus!
verus! {

/// One visible row of the flattened tree.
#[derive(Debug, Clone, PartialEq, Eq)]
pub struct SlatEntry {
    pub path: String,
    pub name: String,
    pub kind: EntryKind,
    /// Indent depth: 0 for a root entry, 1 for a child of a root folder, ...
    pub depth: usize,
}

/// The browsable file tree: the root listing, the subfolders walked so
/// far (each keyed by its path), the expanded folders, and the file
/// shown in the code pane.
#[derive(Debug, Clone)]
pub struct TreeState {
    pub root: DirectoryListing,
    /// Walked subfolders, looked up by path (the first entry of a path
    /// counts).
    pub children: Vec<(String, DirectoryListing)>,
    /// Expanded folders. An expanded folder without a listing in
    /// `children` is walked by the caller (see `unwalked_expanded`).
    pub expanded: Vec<String>,
    pub selected: Option<String>,
}

/// Predicate: the pair is keyed by path `k`.
pub open spec fn key_is(k: Seq<char>) -> spec_fn((String, DirectoryListing)) -> bool {
    |p: (String, DirectoryListing)| p.0@ == k
}

/// The listing walked for folder `k`, if any.
pub open spec fn child_listing(ch: Seq<(String, DirectoryListing)>, k: Seq<char>) -> Option<DirectoryListing> {
    match crate::tree::find_first(ch, key_is(k)) {
        Some(i) => Some(ch[i].1),
        None => None,
    }
}

/// `ch` without the pairs keyed by `k`.
pub open spec fn without_key(ch: Seq<(String, DirectoryListing)>, k: Seq<char>) -> Seq<(String, DirectoryListing)>
    decreases ch.len(),
{
    if ch.len() == 0 {
        ch
    } else {
        let r = without_key(ch.drop_last(), k);
        if ch.last().0@ == k {
            r
        } else {
            r.push(ch.last())
        }
    }
}

pub proof fn lemma_without_key_len(ch: Seq<(String, DirectoryListing)>, k: Seq<char>)
    ensures
        without_key(ch, k).len() <= ch.len(),
        (exists|i: int| 0 <= i < ch.len() && ch[i].0@ == k) ==> without_key(ch, k).len() < ch.len(),
    decreases ch.len(),
{
    if ch.len() > 0 {
        lemma_without_key_len(ch.drop_last(), k);
        if exists|i: int| 0 <= i < ch.len() && ch[i].0@ == k {
            let i = choose|i: int| 0 <= i < ch.len() && ch[i].0@ == k;
            if i < ch.len() - 1 {
                assert(ch.drop_last()[i] == ch[i]);
            }
        }
    }
}

/// Whether folder `k` is expanded.
pub open spec fn is_expanded(exp: Seq<String>, k: Seq<char>) -> bool {
    exists|i: int| 0 <= i < exp.len() && exp[i]@ == k
}

/// The row of entry `e` at `depth`.
pub open spec fn slat(e: DirectoryEntry, depth: int) -> SlatEntry {
    SlatEntry { path: e.path, name: e.name, kind: e.kind, depth: depth as usize }
}

/// The rows of a listing's entries at `depth`: each entry, followed, for
/// an expanded folder with a walked listing, by that listing's rows one
/// level deeper. Inside a folder's rows its own path is no longer looked
/// up, so a listing that contains its own folder again is not repeated.
pub open spec fn flat_entries(
    entries: Seq<DirectoryEntry>,
    ch: Seq<(String, DirectoryListing)>,
    exp: Seq<String>,
    depth: int,
) -> Seq<SlatEntry>
    decreases ch.len(), entries.len(),
{
    if entries.len() == 0 {
        seq![]
    } else {
        let e = entries.last();
        let below = if e.kind == EntryKind::Folder && is_expanded(exp, e.path@) {
            match child_listing(ch, e.path@) {
                Some(sub) => {
                    proof {
                        let i = choose|i: int| crate::tree::is_first(ch, key_is(e.path@), i);
                        assert(ch[i].0@ == e.path@);
                        lemma_without_key_len(ch, e.path@);
                    }
                    flat_entries(sub.entries@, without_key(ch, e.path@), exp, depth + 1)
                },
                None => seq![],
            }
        } else {
            seq![]
        };
        flat_entries(entries.drop_last(), ch, exp, depth) + seq![slat(e, depth)] + below
    }
}

/// The visible rows of a tree.
pub open spec fn flat_tree(t: TreeState) -> Seq<SlatEntry> {
    flat_entries(t.root.entries@, t.children@, t.expanded@, 0)
}

/// The rows of `entries` at `depth` by plain recursion: each entry, then,
/// for an expanded folder with a walked listing in `ch`, that listing's
/// rows one level deeper; nothing is unfolded below `fuel` levels.
pub open spec fn plain_entries(
    entries: Seq<DirectoryEntry>,
    ch: Seq<(String, DirectoryListing)>,
    exp: Seq<String>,
    depth: int,
    fuel: nat,
) -> Seq<SlatEntry>
    decreases fuel, entries.len(),
{
    if entries.len() == 0 {
        seq![]
    } else {
        let e = entries.last();
        let below = if fuel > 0 && e.kind == EntryKind::Folder && is_expanded(exp, e.path@) {
            match child_listing(ch, e.path@) {
                Some(sub) => plain_entries(sub.entries@, ch, exp, depth + 1, (fuel - 1) as nat),
                None => seq![],
            }
        } else {
            seq![]
        };
        plain_entries(entries.drop_last(), ch, exp, depth, fuel) + seq![slat(e, depth)] + below
    }
}

/// Walking the expanded folders of `entries` never comes back to a folder
/// it is inside: with `ch` the walked listings `full` less the folders
/// already entered, every expanded folder finds the same listing in `ch`
/// as in `full`.
pub open spec fn never_reenters(
    entries: Seq<DirectoryEntry>,
    ch: Seq<(String, DirectoryListing)>,
    full: Seq<(String, DirectoryListing)>,
    exp: Seq<String>,
) -> bool
    decreases ch.len(), entries.len(),
{
    if entries.len() == 0 {
        true
    } else {
        let e = entries.last();
        &&& never_reenters(entries.drop_last(), ch, full, exp)
        &&& (e.kind == EntryKind::Folder && is_expanded(exp, e.path@)) ==> {
            &&& child_listing(ch, e.path@) == child_listing(full, e.path@)
            &&& match child_listing(ch, e.path@) {
                Some(sub) => {
                    proof {
                        let i = choose|i: int| crate::tree::is_first(ch, key_is(e.path@), i);
                        assert(ch[i].0@ == e.path@);
                        lemma_without_key_len(ch, e.path@);
                    }
                    never_reenters(sub.entries@, without_key(ch, e.path@), full, exp)
                },
                None => true,
            }
        }
    }
}

proof fn lemma_flat_is_plain(
    entries: Seq<DirectoryEntry>,
    ch: Seq<(String, DirectoryListing)>,
    full: Seq<(String, DirectoryListing)>,
    exp: Seq<String>,
    depth: int,
    fuel: nat,
)
    requires
        never_reenters(entries, ch, full, exp),
        fuel >= ch.len(),
    ensures
        flat_entries(entries, ch, exp, depth) == plain_entries(entries, full, exp, depth, fuel),
    decreases ch.len(), entries.len(),
{
    if entries.len() > 0 {
        lemma_flat_is_plain(entries.drop_last(), ch, full, exp, depth, fuel);
        let e = entries.last();
        if e.kind == EntryKind::Folder && is_expanded(exp, e.path@) {
            match child_listing(ch, e.path@) {
                Some(sub) => {
                    let i = choose|i: int| crate::tree::is_first(ch, key_is(e.path@), i);
                    assert(ch[i].0@ == e.path@);
                    lemma_without_key_len(ch, e.path@);
                    lemma_flat_is_plain(sub.entries@, without_key(ch, e.path@), full, exp, depth + 1, (fuel - 1) as nat);
                },
                None => {},
            }
        }
    }
}

/// When the expanded folders never contain themselves again, the visible
/// rows are those of the plain recursion from the root, however many
/// levels (at least the number of walked listings) it may unfold.
pub proof fn law_flat_tree_is_plain_recursion(t: TreeState, fuel: nat)
    requires
        never_reenters(t.root.entries@, t.children@, t.children@, t.expanded@),
        fuel >= t.children@.len(),
    ensures
        flat_tree(t) == plain_entries(t.root.entries@, t.children@, t.expanded@, 0, fuel),
{
    lemma_flat_is_plain(t.root.entries@, t.children@, t.children@, t.expanded@, 0, fuel);
}

/// The pairs of `ch` at the indices `live`.
pub open spec fn pick(ch: Seq<(String, DirectoryListing)>, live: Seq<usize>) -> Seq<(String, DirectoryListing)> {
    live.map_values(|i: usize| ch[i as int])
}

/// Whether `path` is among `expanded`.
fn expanded_contains(expanded: &Vec<String>, path: &String) -> (b: bool)
    ensures
        b == is_expanded(expanded@, path@),
{
    let mut q: usize = 0;
    while q < expanded.len()
        invariant
            q <= expanded@.len(),
            forall|j: int| 0 <= j < q ==> expanded@[j]@ != path@,
        decreases expanded@.len() - q,
    {
        if expanded[q] == *path {
            return true;
        }
        q = q + 1;
    }
    false
}

/// The indices of `live` whose pair is not keyed by `k`.
fn live_without(children: &Vec<(String, DirectoryListing)>, live: &Vec<usize>, k: &String) -> (r: Vec<usize>)
    requires
        forall|j: int| 0 <= j < live@.len() ==> (#[trigger] live@[j]) < children@.len(),
    ensures
        pick(children@, r@) == without_key(pick(children@, live@), k@),
        forall|j: int| 0 <= j < r@.len() ==> (#[trigger] r@[j]) < children@.len(),
{
    let mut r: Vec<usize> = Vec::new();
    let mut m: usize = 0;
    while m < live.len()
        invariant
            m <= live@.len(),
            forall|j: int| 0 <= j < live@.len() ==> (#[trigger] live@[j]) < children@.len(),
            forall|j: int| 0 <= j < r@.len() ==> (#[trigger] r@[j]) < children@.len(),
            pick(children@, r@) =~= without_key(pick(children@, live@.take(m as int)), k@),
        decreases live@.len() - m,
    {
        let idx = live[m];
        proof {
            assert(pick(children@, live@.take(m + 1)).drop_last() =~= pick(children@, live@.take(m as int)));
            assert(pick(children@, live@.take(m + 1)).last() == children@[idx as int]);
        }
        if children[idx].0 != *k {
            r.push(idx);
            assert(pick(children@, r@) =~= without_key(pick(children@, live@.take(m as int)), k@).push(children@[idx as int]));
        }
        m = m + 1;
    }
    assert(live@.take(live@.len() as int) =~= live@);
    r
}

/// Append the rows of `entries` at `depth` to `out`, looking walked
/// subfolders up among the pairs of `children` at the indices `live`.
fn flatten_rec(
    entries: &Vec<DirectoryEntry>,
    children: &Vec<(String, DirectoryListing)>,
    live: &Vec<usize>,
    expanded: &Vec<String>,
    out: &mut Vec<SlatEntry>,
    depth: usize,
)
    requires
        forall|j: int| 0 <= j < live@.len() ==> (#[trigger] live@[j]) < children@.len(),
        depth + live@.len() <= usize::MAX,
    ensures
        final(out)@ == old(out)@ + flat_entries(entries@, pick(children@, live@), expanded@, depth as int),
    decreases live@.len(),
{
    let ghost ch = pick(children@, live@);
    let ghost start = out@;
    let mut i: usize = 0;
    while i < entries.len()
        invariant
            i <= entries@.len(),
            ch == pick(children@, live@),
            forall|j: int| 0 <= j < live@.len() ==> (#[trigger] live@[j]) < children@.len(),
            depth + live@.len() <= usize::MAX,
            out@ == start + flat_entries(entries@.take(i as int), ch, expanded@, depth as int),
        decreases entries@.len() - i,
    {
        let e = &entries[i];
        let ghost pre = entries@.take(i as int);
        proof {
            assert(entries@.take(i + 1).drop_last() =~= pre);
            assert(entries@.take(i + 1).last() == *e);
        }
        out.push(SlatEntry { path: e.path.clone(), name: e.name.clone(), kind: e.kind, depth });
        let ghost mid = out@;
        assert(mid == start + flat_entries(pre, ch, expanded@, depth as int) + seq![slat(*e, depth as int)]);
        if e.kind == EntryKind::Folder && expanded_contains(expanded, &e.path) {
            let mut j: usize = 0;
            let mut found = false;
            while j < live.len()
                invariant
                    j <= live@.len(),
                    ch == pick(children@, live@),
                    forall|q: int| 0 <= q < live@.len() ==> (#[trigger] live@[q]) < children@.len(),
                    forall|q: int| 0 <= q < j ==> !key_is(e.path@)(#[trigger] ch[q]),
                    found ==> j < live@.len() && ch[j as int].0@ == e.path@,
                ensures
                    found ==> j < live@.len() && ch[j as int].0@ == e.path@,
                    !found ==> j == live@.len(),
                    forall|q: int| 0 <= q < j ==> !key_is(e.path@)(#[trigger] ch[q]),
                decreases live@.len() - j,
            {
                if children[live[j]].0 == e.path {
                    found = true;
                    break;
                }
                j = j + 1;
            }
            if found {
                proof {
                    crate::tree::lemma_find_first_is(ch, key_is(e.path@), j as int);
                    lemma_without_key_len(ch, e.path@);
                }
                let sub = &children[live[j]].1;
                let live2 = live_without(children, live, &e.path);
                flatten_rec(&sub.entries, children, &live2, expanded, out, depth + 1);
            } else {
                proof {
                    crate::tree::lemma_find_first_none(ch, key_is(e.path@));
                }
            }
        }
        proof {
            assert(out@ =~= start + flat_entries(entries@.take(i + 1), ch, expanded@, depth as int));
        }
        i = i + 1;
    }
    assert(entries@.take(entries@.len() as int) =~= entries@);
}

/// Flatten the tree into the ordered rows the blind draws: a folder's
/// children follow it only when it is expanded and walked.
pub fn flatten(tree: &TreeState) -> (out: Vec<SlatEntry>)
    requires
        tree.children@.len() <= usize::MAX,
    ensures
        out@ == flat_tree(*tree),
{
    let n = tree.children.len();
    let mut live: Vec<usize> = Vec::new();
    let mut k: usize = 0;
    while k < n
        invariant
            n == tree.children@.len(),
            k <= n,
            live@.len() == k,
            forall|j: int| 0 <= j < k ==> live@[j] == j,
        decreases n - k,
    {
        live.push(k);
        k = k + 1;
    }
    assert(pick(tree.children@, live@) =~= tree.children@);
    let mut out: Vec<SlatEntry> = Vec::new();
    flatten_rec(&tree.root.entries, &tree.children, &live, &tree.expanded, &mut out, 0);
    assert(out@ =~= flat_tree(*tree));
    out
}

/// The set of expanded folder paths.
pub open spec fn expanded_set(exp: Seq<String>) -> Set<Seq<char>> {
    Set::new(|k: Seq<char>| is_expanded(exp, k))
}

/// `s` with `k` flipped: removed when present, added when absent.
pub open spec fn toggled(s: Set<Seq<char>>, k: Seq<char>) -> Set<Seq<char>> {
    if s.contains(k) {
        s.remove(k)
    } else {
        s.insert(k)
    }
}

/// Predicate: the expanded folder has no walked listing yet.
pub open spec fn unwalked(ch: Seq<(String, DirectoryListing)>) -> spec_fn(String) -> bool {
    |p: String| child_listing(ch, p@) is None
}

/// Adding one element to a list adds its path to the expanded set.
proof fn lemma_expanded_push(v: Seq<String>, x: String)
    ensures
        expanded_set(v.push(x)) == expanded_set(v).insert(x@),
{
    let w = v.push(x);
    assert forall|k: Seq<char>| is_expanded(w, k) <==> (is_expanded(v, k) || k == x@) by {
        if is_expanded(w, k) {
            let i = choose|i: int| 0 <= i < w.len() && (#[trigger] w[i])@ == k;
            if i < v.len() {
                assert(v[i] == w[i]);
            }
        }
        if is_expanded(v, k) {
            let i = choose|i: int| 0 <= i < v.len() && (#[trigger] v[i])@ == k;
            assert(w[i] == v[i]);
        }
        if k == x@ {
            assert(w[v.len() as int] == x);
        }
    }
    assert(expanded_set(w) =~= expanded_set(v).insert(x@));
}

/// `v` without the entries equal to `path`.
fn without_path(v: &Vec<String>, path: &str) -> (r: Vec<String>)
    ensures
        expanded_set(r@) == expanded_set(v@).remove(path@),
{
    let mut kept: Vec<String> = Vec::new();
    let mut q: usize = 0;
    assert(expanded_set(kept@) =~= expanded_set(v@.take(0)).remove(path@));
    while q < v.len()
        invariant
            q <= v@.len(),
            expanded_set(kept@) == expanded_set(v@.take(q as int)).remove(path@),
        decreases v@.len() - q,
    {
        let x = v[q].clone();
        proof {
            assert(v@.take(q + 1) =~= v@.take(q as int).push(v@[q as int]));
            lemma_expanded_push(v@.take(q as int), v@[q as int]);
        }
        if !str_eq(x.as_str(), path) {
            proof {
                lemma_expanded_push(kept@, x);
            }
            kept.push(x);
            assert(expanded_set(kept@) =~= expanded_set(v@.take(q + 1)).remove(path@));
        } else {
            assert(expanded_set(kept@) =~= expanded_set(v@.take(q + 1)).remove(path@));
        }
        q = q + 1;
    }
    assert(v@.take(v@.len() as int) =~= v@);
    kept
}

/// Index of the first pair keyed by `path`.
fn find_key(children: &Vec<(String, DirectoryListing)>, path: &str) -> (r: Option<usize>)
    ensures
        match r {
            Some(i) => crate::tree::is_first(children@, key_is(path@), i as int),
            None => forall|j: int| 0 <= j < children@.len() ==> !key_is(path@)(#[trigger] children@[j]),
        },
{
    let mut i: usize = 0;
    while i < children.len()
        invariant
            i <= children@.len(),
            forall|j: int| 0 <= j < i ==> !key_is(path@)(#[trigger] children@[j]),
        decreases children@.len() - i,
    {
        if str_eq(children[i].0.as_str(), path) {
            return Some(i);
        }
        i = i + 1;
    }
    None
}

impl TreeState {
    /// Fresh state for a directory: nothing walked below the root,
    /// nothing expanded, nothing selected.
    pub fn new(root: DirectoryListing) -> (t: Self)
        ensures
            t.root == root,
            t.children@.len() == 0,
            t.expanded@.len() == 0,
            t.selected is None,
    {
        TreeState { root, children: Vec::new(), expanded: Vec::new(), selected: None }
    }

    /// Whether folder `path` is expanded.
    pub fn is_folder_expanded(&self, path: &str) -> (b: bool)
        ensures
            b == is_expanded(self.expanded@, path@),
    {
        let mut q: usize = 0;
        while q < self.expanded.len()
            invariant
                q <= self.expanded@.len(),
                forall|j: int| 0 <= j < q ==> self.expanded@[j]@ != path@,
            decreases self.expanded@.len() - q,
        {
            if str_eq(self.expanded[q].as_str(), path) {
                return true;
            }
            q = q + 1;
        }
        false
    }

    /// Flip folder `path` between expanded and collapsed; returns whether
    /// it is expanded now.
    pub fn toggle_folder(&mut self, path: &str) -> (opened: bool)
        ensures
            expanded_set(final(self).expanded@) == toggled(expanded_set(old(self).expanded@), path@),
            opened == is_expanded(final(self).expanded@, path@),
            opened == !is_expanded(old(self).expanded@, path@),
            final(self).root == old(self).root,
            final(self).children == old(self).children,
            final(self).selected == old(self).selected,
    {
        let ghost before = self.expanded@;
        if self.is_folder_expanded(path) {
            let kept = without_path(&self.expanded, path);
            self.expanded = kept;
            assert(expanded_set(self.expanded@).contains(path@) == is_expanded(self.expanded@, path@));
            false
        } else {
            let x = String::from_str(path);
            proof {
                lemma_expanded_push(before, x);
            }
            self.expanded.push(x);
            assert(expanded_set(self.expanded@).contains(path@) == is_expanded(self.expanded@, path@));
            true
        }
    }

    /// The walked listing of folder `path`, if any.
    pub fn child_listing_of(&self, path: &str) -> (r: Option<&DirectoryListing>)
        ensures
            match r {
                Some(l) => child_listing(self.children@, path@) == Some(*l),
                None => child_listing(self.children@, path@) is None,
            },
    {
        let mut i: usize = 0;
        while i < self.children.len()
            invariant
                i <= self.children@.len(),
                forall|j: int| 0 <= j < i ==> !key_is(path@)(#[trigger] self.children@[j]),
            decreases self.children@.len() - i,
        {
            if str_eq(self.children[i].0.as_str(), path) {
                proof {
                    crate::tree::lemma_find_first_is(self.children@, key_is(path@), i as int);
                }
                return Some(&self.children[i].1);
            }
            i = i + 1;
        }
        proof {
            crate::tree::lemma_find_first_none(self.children@, key_is(path@));
        }
        None
    }

    /// Record the walked listing of folder `path`, replacing an earlier
    /// one.
    pub fn insert_child(&mut self, path: String, listing: DirectoryListing)
        ensures
            forall|k: Seq<char>| #[trigger] child_listing(final(self).children@, k) == if k == path@ {
                Some(listing)
            } else {
                child_listing(old(self).children@, k)
            },
            final(self).root == old(self).root,
            final(self).expanded == old(self).expanded,
            final(self).selected == old(self).selected,
    {
        let ghost before = self.children@;
        let found = find_key(&self.children, path.as_str());
        if let Some(i) = found {
            let ghost p = path@;
            self.children.set(i, (path, listing));
            proof {
                let after = self.children@;
                assert forall|k: Seq<char>| #[trigger] child_listing(after, k) == if k == p {
                    Some(listing)
                } else {
                    child_listing(before, k)
                } by {
                    if k == p {
                        assert forall|j: int| 0 <= j < i implies !key_is(k)(#[trigger] after[j]) by {
                            assert(after[j] == before[j]);
                        }
                        crate::tree::lemma_find_first_is(after, key_is(k), i as int);
                    } else {
                        match crate::tree::find_first(before, key_is(k)) {
                            Some(m) => {
                                assert(crate::tree::is_first(before, key_is(k), m));
                                assert(m != i);
                                assert forall|j: int| 0 <= j < m implies !key_is(k)(#[trigger] after[j]) by {
                                    if j != i {
                                        assert(after[j] == before[j]);
                                    }
                                }
                                assert(after[m] == before[m]);
                                crate::tree::lemma_find_first_is(after, key_is(k), m);
                            },
                            None => {
                                assert forall|j: int| 0 <= j < after.len() implies !key_is(k)(#[trigger] after[j]) by {
                                    if j != i {
                                        assert(after[j] == before[j]);
                                        if key_is(k)(before[j]) {
                                            lemma_first_exists(before, key_is(k), j);
                                        }
                                    }
                                }
                                crate::tree::lemma_find_first_none(after, key_is(k));
                            },
                        }
                    }
                }
            }
            return;
        }
        let ghost p = path@;
        self.children.push((path, listing));
        proof {
            let after = self.children@;
            assert forall|k: Seq<char>| #[trigger] child_listing(after, k) == if k == p {
                Some(listing)
            } else {
                child_listing(before, k)
            } by {
                if k == p {
                    assert forall|j: int| 0 <= j < before.len() implies !key_is(k)(#[trigger] after[j]) by {
                        assert(after[j] == before[j]);
                    }
                    crate::tree::lemma_find_first_is(after, key_is(k), before.len() as int);
                } else {
                    match crate::tree::find_first(before, key_is(k)) {
                        Some(m) => {
                            assert(crate::tree::is_first(before, key_is(k), m));
                            assert forall|j: int| 0 <= j < m implies !key_is(k)(#[trigger] after[j]) by {
                                assert(after[j] == before[j]);
                            }
                            assert(after[m] == before[m]);
                            crate::tree::lemma_find_first_is(after, key_is(k), m);
                        },
                        None => {
                            assert forall|j: int| 0 <= j < after.len() implies !key_is(k)(#[trigger] after[j]) by {
                                if j < before.len() {
                                    assert(after[j] == before[j]);
                                    if key_is(k)(before[j]) {
                                        lemma_first_exists(before, key_is(k), j);
                                    }
                                }
                            }
                            crate::tree::lemma_find_first_none(after, key_is(k));
                        },
                    }
                }
            }
        }
    }

    /// The expanded folders that have no walked listing yet, in the
    /// order they were expanded: what the caller walks next.
    pub fn unwalked_expanded(&self) -> (r: Vec<String>)
        ensures
            r@ == self.expanded@.filter(unwalked(self.children@)),
    {
        let mut r: Vec<String> = Vec::new();
        let mut q: usize = 0;
        while q < self.expanded.len()
            invariant
                q <= self.expanded@.len(),
                r@ == self.expanded@.take(q as int).filter(unwalked(self.children@)),
            decreases self.expanded@.len() - q,
        {
            let p = &self.expanded[q];
            proof {
                assert(self.expanded@.take(q + 1).drop_last() =~= self.expanded@.take(q as int));
                reveal(Seq::filter);
            }
            if self.child_listing_of(p.as_str()).is_none() {
                r.push(p.clone());
            }
            assert(r@ =~= self.expanded@.take(q + 1).filter(unwalked(self.children@)));
            q = q + 1;
        }
        assert(self.expanded@.take(self.expanded@.len() as int) =~= self.expanded@);
        r
    }
}

/// Paths of the folders among `entries`, in order.
pub open spec fn folder_paths_of(entries: Seq<DirectoryEntry>) -> Seq<Seq<char>>
    decreases entries.len(),
{
    if entries.len() == 0 {
        seq![]
    } else {
        let rest = folder_paths_of(entries.drop_last());
        if entries.last().kind == EntryKind::Folder {
            rest.push(entries.last().path@)
        } else {
            rest
        }
    }
}

/// The folders of a listing, in listing order.
pub fn folder_paths(listing: &DirectoryListing) -> (r: Vec<String>)
    ensures
        crate::cards::string_views(r@) == folder_paths_of(listing.entries@),
{
    let mut r: Vec<String> = Vec::new();
    let mut i: usize = 0;
    while i < listing.entries.len()
        invariant
            i <= listing.entries@.len(),
            crate::cards::string_views(r@) == folder_paths_of(listing.entries@.take(i as int)),
        decreases listing.entries@.len() - i,
    {
        let e = &listing.entries[i];
        assert(listing.entries@.take(i + 1).drop_last() =~= listing.entries@.take(i as int));
        if e.kind == EntryKind::Folder {
            r.push(e.path.clone());
        }
        assert(crate::cards::string_views(r@) =~= folder_paths_of(listing.entries@.take(i + 1)));
        i = i + 1;
    }
    assert(listing.entries@.take(listing.entries@.len() as int) =~= listing.entries@);
    r
}

/// Index of the last path in `pending` whose folder is not expanded.
pub open spec fn last_unexpanded(pending: Seq<String>, exp: Seq<String>) -> Option<int>
    decreases pending.len(),
{
    if pending.len() == 0 {
        None
    } else if !is_expanded(exp, pending.last()@) {
        Some(pending.len() - 1)
    } else {
        last_unexpanded(pending.drop_last(), exp)
    }
}

proof fn lemma_last_unexpanded_range(pending: Seq<String>, exp: Seq<String>)
    ensures
        last_unexpanded(pending, exp) matches Some(i) ==> 0 <= i < pending.len()
            && !is_expanded(exp, pending[i]@),
    decreases pending.len(),
{
    if pending.len() > 0 && is_expanded(exp, pending.last()@) {
        lemma_last_unexpanded_range(pending.drop_last(), exp);
    }
}

impl TreeState {
    /// One step of expanding every folder: drop the folders on top of
    /// `pending` that are already expanded, then expand the next one and
    /// return it; `None` once `pending` runs out. The caller walks the
    /// returned folder and pushes its subfolders onto `pending`.
    pub fn expand_next(&mut self, pending: &mut Vec<String>) -> (r: Option<String>)
        ensures
            match last_unexpanded(old(pending)@, old(self).expanded@) {
                None => r is None && final(pending)@.len() == 0 && final(self).expanded
                    == old(self).expanded,
                Some(i) => r == Some(old(pending)@[i]) && final(pending)@ == old(pending)@.take(i)
                    && expanded_set(final(self).expanded@) == expanded_set(
                    old(self).expanded@,
                ).insert(old(pending)@[i]@),
            },
            final(self).root == old(self).root,
            final(self).children == old(self).children,
            final(self).selected == old(self).selected,
    {
        let ghost p0 = pending@;
        proof {
            lemma_last_unexpanded_range(p0, self.expanded@);
        }
        loop
            invariant
                pending@.len() <= p0.len(),
                pending@ == p0.take(pending@.len() as int),
                last_unexpanded(pending@, self.expanded@) == last_unexpanded(p0, self.expanded@),
                *self == *old(self),
                p0 == old(pending)@,
            decreases pending@.len(),
        {
            let ghost before = pending@;
            match pending.pop() {
                None => {
                    assert(last_unexpanded(before, self.expanded@) is None);
                    return None;
                },
                Some(folder) => {
                    assert(before.drop_last() =~= p0.take(pending@.len() as int));
                    assert(folder == before.last());
                    if !self.is_folder_expanded(folder.as_str()) {
                        assert(last_unexpanded(before, self.expanded@) == Some(before.len() - 1));
                        assert(p0[before.len() - 1] == before[before.len() - 1]);
                        assert(pending@ =~= p0.take(before.len() - 1));
                        self.toggle_folder(folder.as_str());
                        assert(expanded_set(self.expanded@) =~= expanded_set(old(self).expanded@).insert(folder@));
                        return Some(folder);
                    }
                    assert(last_unexpanded(before, self.expanded@) == last_unexpanded(pending@, self.expanded@));
                },
            }
        }
    }
}

/// The listing that the walks `walked` give folder `k`: the last
/// successful walk of `k`, if any.
pub open spec fn walk_result(walked: Seq<(String, Option<DirectoryListing>)>, k: Seq<char>) -> Option<
    DirectoryListing,
>
    decreases walked.len(),
{
    if walked.len() == 0 {
        None
    } else if walked.last().0@ == k && walked.last().1 is Some {
        walked.last().1
    } else {
        walk_result(walked.drop_last(), k)
    }
}

impl TreeState {
    /// Record the walks of folders, each a path with its listing, or
    /// `None` where the walk failed: a successful walk becomes (or
    /// replaces) that folder's listing; a failed one changes nothing.
    pub fn record_walks(&mut self, walked: Vec<(String, Option<DirectoryListing>)>)
        ensures
            forall|k: Seq<char>| #[trigger] child_listing(final(self).children@, k) == match walk_result(walked@, k) {
                Some(l) => Some(l),
                None => child_listing(old(self).children@, k),
            },
            final(self).root == old(self).root,
            final(self).expanded == old(self).expanded,
            final(self).selected == old(self).selected,
    {
        let ghost w0 = walked@;
        let ghost c0 = self.children@;
        let mut walked = walked;
        let n = walked.len();
        let mut i: usize = 0;
        assert(w0.skip(0) =~= w0);
        while i < n
            invariant
                n == w0.len(),
                i <= n,
                walked@ == w0.skip(i as int),
                forall|k: Seq<char>| #[trigger] child_listing(self.children@, k) == match walk_result(w0.take(i as int), k) {
                    Some(l) => Some(l),
                    None => child_listing(c0, k),
                },
                self.root == old(self).root,
                self.expanded == old(self).expanded,
                self.selected == old(self).selected,
                c0 == old(self).children@,
            decreases n - i,
        {
            let (path, result) = walked.remove(0);
            proof {
                assert(w0.skip(i as int)[0] == w0[i as int]);
                assert(w0.skip(i as int).remove(0) =~= w0.skip(i + 1));
                assert(w0.take(i + 1).drop_last() =~= w0.take(i as int));
                assert(w0.take(i + 1).last() == w0[i as int]);
            }
            match result {
                Some(listing) => {
                    self.insert_child(path, listing);
                },
                None => {},
            }
            i = i + 1;
        }
        assert(w0.take(n as int) =~= w0);
    }
}

/// Walks of expanded folders that had no listing give no listing to a
/// folder that already had one, nor to a folder that is not expanded: with
/// `record_walks`, such folders keep what they had.
pub proof fn law_walks_of_unwalked_folders(
    t: TreeState,
    walked: Seq<(String, Option<DirectoryListing>)>,
    k: Seq<char>,
)
    requires
        forall|i: int| 0 <= i < walked.len() ==> {
            &&& is_expanded(t.expanded@, (#[trigger] walked[i]).0@)
            &&& child_listing(t.children@, walked[i].0@) is None
        },
    ensures
        child_listing(t.children@, k) is Some ==> walk_result(walked, k) is None,
        !is_expanded(t.expanded@, k) ==> walk_result(walked, k) is None,
    decreases walked.len(),
{
    if walked.len() > 0 {
        assert forall|i: int| 0 <= i < walked.drop_last().len() implies {
            &&& is_expanded(t.expanded@, (#[trigger] walked.drop_last()[i]).0@)
            &&& child_listing(t.children@, walked.drop_last()[i].0@) is None
        } by {
            assert(walked.drop_last()[i] == walked[i]);
        }
        law_walks_of_unwalked_folders(t, walked.drop_last(), k);
        assert(walked.last() == walked[walked.len() - 1]);
    }
}

/// Some element satisfies `p`, so a first one does.
pub proof fn lemma_first_exists<A>(s: Seq<A>, p: spec_fn(A) -> bool, j: int)
    requires
        0 <= j < s.len(),
        p(s[j]),
    ensures
        exists|i: int| crate::tree::is_first(s, p, i),
    decreases j,
{
    if exists|m: int| 0 <= m < j && p(s[m]) {
        let m = choose|m: int| 0 <= m < j && p(s[m]);
        lemma_first_exists(s, p, m);
    } else {
        assert(crate::tree::is_first(s, p, j));
    }
}

/// Toggling a folder twice leaves the expanded set as it was.
pub proof fn law_toggle_twice_restores(s: Set<Seq<char>>, k: Seq<char>)
    ensures
        toggled(toggled(s, k), k) == s,
{
    assert(toggled(toggled(s, k), k) =~= s);
}

/// Predicate: the row is at depth `d`.
pub open spec fn at_depth(d: int) -> spec_fn(SlatEntry) -> bool {
    |r: SlatEntry| r.depth == d
}

proof fn lemma_filter_none<A>(s: Seq<A>, p: spec_fn(A) -> bool)
    requires
        forall|i: int| 0 <= i < s.len() ==> !p(#[trigger] s[i]),
    ensures
        s.filter(p) == Seq::<A>::empty(),
    decreases s.len(),
{
    reveal(Seq::filter);
    if s.len() > 0 {
        lemma_filter_none(s.drop_last(), p);
        assert(!p(s[s.len() - 1]));
    }
    assert(s.filter(p) =~= Seq::<A>::empty());
}

/// In the rows of a listing flattened at depth `d`, every row lies
/// between depth `d` and `d` plus the number of walked subfolders, and
/// the rows at depth `d` are the listing's own entries, in order.
#[verifier::spinoff_prover]
#[verifier::rlimit(40)]
pub proof fn law_flat_rows_at_depth(
    entries: Seq<DirectoryEntry>,
    ch: Seq<(String, DirectoryListing)>,
    exp: Seq<String>,
    d: int,
)
    requires
        0 <= d,
        d + ch.len() <= usize::MAX,
    ensures
        forall|j: int| 0 <= j < flat_entries(entries, ch, exp, d).len() ==> d <= (
        #[trigger] flat_entries(entries, ch, exp, d)[j]).depth <= d + ch.len(),
        flat_entries(entries, ch, exp, d).filter(at_depth(d)) == entries.map_values(
            |e: DirectoryEntry| slat(e, d),
        ),
    decreases ch.len(), entries.len(),
{
    let f = flat_entries(entries, ch, exp, d);
    let m = entries.map_values(|e: DirectoryEntry| slat(e, d));
    if entries.len() == 0 {
        assert(f.filter(at_depth(d)) =~= m) by {
            reveal(Seq::filter);
        }
    } else {
        let e = entries.last();
        let f0 = flat_entries(entries.drop_last(), ch, exp, d);
        law_flat_rows_at_depth(entries.drop_last(), ch, exp, d);
        let below = if e.kind == EntryKind::Folder && is_expanded(exp, e.path@) {
            match child_listing(ch, e.path@) {
                Some(sub) => {
                    let i = choose|i: int| crate::tree::is_first(ch, key_is(e.path@), i);
                    assert(ch[i].0@ == e.path@);
                    lemma_without_key_len(ch, e.path@);
                    law_flat_rows_at_depth(sub.entries@, without_key(ch, e.path@), exp, d + 1);
                    flat_entries(sub.entries@, without_key(ch, e.path@), exp, d + 1)
                },
                None => seq![],
            }
        } else {
            seq![]
        };
        assert(f == f0 + seq![slat(e, d)] + below);
        assert forall|j: int| 0 <= j < below.len() implies d + 1 <= (#[trigger] below[j]).depth <= d + ch.len() by {
        }
        assert(f.filter(at_depth(d)) == m) by {
            assert forall|j: int| 0 <= j < below.len() implies !at_depth(d)(#[trigger] below[j]) by {
            }
            lemma_filter_none(below, at_depth(d));
            Seq::filter_distributes_over_add(f0 + seq![slat(e, d)], below, at_depth(d));
            Seq::filter_distributes_over_add(f0, seq![slat(e, d)], at_depth(d));
            lemma_filter_single(slat(e, d), at_depth(d));
            assert(m =~= entries.drop_last().map_values(|e: DirectoryEntry| slat(e, d)).push(slat(e, d)));
            assert(f.filter(at_depth(d)) =~= m);
        }
        assert forall|j: int| 0 <= j < f.len() implies d <= (#[trigger] f[j]).depth <= d + ch.len() by {
            if j < f0.len() {
                assert(f[j] == f0[j]);
            } else if j == f0.len() {
                assert(f[j] == slat(e, d));
            } else {
                assert(f[j] == below[j - f0.len() - 1]);
            }
        }
    }
}

proof fn lemma_filter_single<A>(x: A, p: spec_fn(A) -> bool)
    requires
        p(x),
    ensures
        seq![x].filter(p) == seq![x],
{
    reveal(Seq::filter);
    assert(seq![x].drop_last() =~= Seq::<A>::empty());
    assert(seq![x].filter(p) =~= seq![x]);
}

/// With no folder expanded, the rows are the root entries at depth 0.
pub proof fn law_flat_collapsed_is_root(t: TreeState)
    requires
        t.expanded@.len() == 0,
    ensures
        flat_tree(t) == t.root.entries@.map_values(|e: DirectoryEntry| slat(e, 0)),
{
    lemma_flat_no_expansion(t.root.entries@, t.children@, t.expanded@, 0);
}

proof fn lemma_flat_no_expansion(
    entries: Seq<DirectoryEntry>,
    ch: Seq<(String, DirectoryListing)>,
    exp: Seq<String>,
    d: int,
)
    requires
        exp.len() == 0,
    ensures
        flat_entries(entries, ch, exp, d) == entries.map_values(|e: DirectoryEntry| slat(e, d)),
    decreases entries.len(),
{
    if entries.len() > 0 {
        lemma_flat_no_expansion(entries.drop_last(), ch, exp, d);
        assert(!is_expanded(exp, entries.last().path@));
        assert(flat_entries(entries, ch, exp, d) =~= entries.map_values(
            |e: DirectoryEntry| slat(e, d),
        ));
    } else {
        assert(flat_entries(entries, ch, exp, d) =~= entries.map_values(
            |e: DirectoryEntry| slat(e, d),
        ));
    }
}

proof fn lemma_lex_lt_trans(a: Seq<char>, b: Seq<char>, c: Seq<char>)
    requires
        lex_lt(a, b),
        lex_lt(b, c),
    ensures
        lex_lt(a, c),
    decreases a.len(),
{
    if a.len() > 0 && b.len() > 0 && c.len() > 0 && a[0] == b[0] && b[0] == c[0] {
        lemma_lex_lt_trans(a.drop_first(), b.drop_first(), c.drop_first());
    }
}

proof fn lemma_entry_lt_trans(a: DirectoryEntry, b: DirectoryEntry, c: DirectoryEntry)
    requires
        entry_lt(a, b),
        entry_lt(b, c),
    ensures
        entry_lt(a, c),
{
    if a.kind == b.kind && b.kind == c.kind {
        lemma_lex_lt_trans(ascii_lower(a.name@), ascii_lower(b.name@), ascii_lower(c.name@));
    }
}

proof fn lemma_lex_lt_irrefl(a: Seq<char>)
    ensures
        !lex_lt(a, a),
    decreases a.len(),
{
    if a.len() > 0 {
        lemma_lex_lt_irrefl(a.drop_first());
    }
}

/// Index of the first entry of `s` that `x` precedes, or `s.len()`.
proof fn first_preceded(s: Seq<DirectoryEntry>, x: DirectoryEntry) -> (k: int)
    ensures
        is_insert_pos(s, x, k),
    decreases s.len(),
{
    if s.len() == 0 {
        0
    } else if entry_lt(x, s[0]) {
        0
    } else {
        let k = first_preceded(s.drop_first(), x);
        assert forall|j: int| 0 <= j < k + 1 implies !entry_lt(x, #[trigger] s[j]) by {
            if j > 0 {
                assert(s[j] == s.drop_first()[j - 1]);
            }
        }
        if k + 1 < s.len() {
            assert(s[k + 1] == s.drop_first()[k]);
        }
        k + 1
    }
}

/// No entry of `s` precedes an earlier one.
pub open spec fn listing_ordered(s: Seq<DirectoryEntry>) -> bool {
    forall|i: int, j: int| 0 <= i < j < s.len() ==> !entry_lt(#[trigger] s[j], #[trigger] s[i])
}

/// A listing's entries come out in listing order, folders before files and
/// each group by case-insensitive name, and they are the input's entries,
/// each as often as it was given.
pub proof fn law_sorted_entries_ordered(s: Seq<DirectoryEntry>)
    ensures
        listing_ordered(sorted_entries(s)),
        sorted_entries(s).to_multiset() == s.to_multiset(),
        sorted_entries(s).len() == s.len(),
    decreases s.len(),
{
    broadcast use vstd::seq_lib::group_to_multiset_ensures;

    if s.len() == 0 {
        assert(sorted_entries(s) =~= s);
    } else {
        let r = sorted_entries(s.drop_last());
        law_sorted_entries_ordered(s.drop_last());
        let x = s.last();
        let w = first_preceded(r, x);
        let k = insert_pos(r, x);
        assert(is_insert_pos(r, x, k));
        if w < k {
            assert(!entry_lt(x, r[w]));
        } else if k < w {
            assert(!entry_lt(x, r[k]));
        }
        let out = r.take(k).push(x) + r.skip(k);
        assert(out =~= r.insert(k, x));
        vstd::seq_lib::to_multiset_insert(r, k, x);
        assert(s =~= s.drop_last().push(x));
        vstd::seq_lib::to_multiset_build(s.drop_last(), x);
        assert forall|i: int, j: int| 0 <= i < j < out.len() implies !entry_lt(#[trigger] out[j], #[trigger] out[i]) by {
            if j < k {
                assert(out[i] == r[i] && out[j] == r[j]);
            } else if j == k {
                assert(out[j] == x);
                assert(out[i] == r[i]);
            } else if i < k {
                assert(out[i] == r[i] && out[j] == r[j - 1]);
            } else if i == k {
                assert(out[i] == x);
                assert(out[j] == r[j - 1]);
                if entry_lt(r[j - 1], x) {
                    assert(k < r.len());
                    lemma_entry_lt_trans(r[j - 1], x, r[k]);
                    if j - 1 == k {
                        lemma_lex_lt_irrefl(ascii_lower(r[k].name@));
                    }
                }
            } else {
                assert(out[i] == r[i - 1] && out[j] == r[j - 1]);
            }
        }
    }
}

} // verus!
