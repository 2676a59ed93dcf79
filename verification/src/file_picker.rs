//! The file picker's listing rules: which directory entries are shown, how
//! they are ordered, and which files count as playable.

use vstd::multiset::Multiset;
use vstd::prelude::*;

use crate::path::{
    compare_paths, components_of, file_name, is_plain_name, is_trimmed, lemma_file_name_plain,
    lemma_path_lt_asymmetric, lemma_path_lt_irreflexive, lemma_path_lt_total,
    lemma_path_lt_transitive, parent_components, parent_path, path_components, path_lt,
    segment_bytes, span_component, ByteOrder,
    PathComponent, DOT,
};

verus! {

broadcast use vstd::seq_lib::group_to_multiset_ensures;

// ---------------------------------------------------------------------------
// Directory entries and their order
// ---------------------------------------------------------------------------

/// One entry of a directory listing: its path, as the bytes of the
/// operating system's path, and whether it is a directory. Two entries are
/// equal when their paths have the same components and they are of the same
/// kind.
#[derive(Debug, Clone, Eq)]
pub struct DirectoryEntry {
    pub path: Vec<u8>,
    pub is_dir: bool,
}

/// The picker's order: directories before files, and within each group by
/// path, component by component. For the entries of one listing, which share
/// their parent directory, this is the order of their file names.
pub open spec fn entry_lt(a: DirectoryEntry, b: DirectoryEntry) -> bool {
    ||| a.is_dir && !b.is_dir
    ||| a.is_dir == b.is_dir && path_lt(a.path@, b.path@)
}

/// Two entries stand at the same place in the order: paths with the same
/// components, same kind.
pub open spec fn entry_same(a: DirectoryEntry, b: DirectoryEntry) -> bool {
    path_components(a.path@) == path_components(b.path@) && a.is_dir == b.is_dir
}

/// Every directory sorts before every file, whatever their paths.
pub proof fn lemma_directories_first(a: DirectoryEntry, b: DirectoryEntry)
    requires
        a.is_dir,
        !b.is_dir,
    ensures
        entry_lt(a, b),
        !entry_lt(b, a),
{
}

/// No entry of `s` sorts before an entry that precedes it.
pub open spec fn entries_sorted(s: Seq<DirectoryEntry>) -> bool {
    forall|i: int, j: int| 0 <= i < j < s.len() ==> !entry_lt(#[trigger] s[j], #[trigger] s[i])
}

/// No entry sorts before itself.
pub proof fn lemma_entry_lt_irreflexive(a: DirectoryEntry)
    ensures
        !entry_lt(a, a),
{
    lemma_path_lt_irreflexive(a.path@);
}

/// Of two entries, at most one sorts before the other.
pub proof fn lemma_entry_lt_asymmetric(a: DirectoryEntry, b: DirectoryEntry)
    requires
        entry_lt(a, b),
    ensures
        !entry_lt(b, a),
{
    if a.is_dir == b.is_dir {
        lemma_path_lt_asymmetric(a.path@, b.path@);
    }
}

/// The order is transitive.
pub proof fn lemma_entry_lt_transitive(a: DirectoryEntry, b: DirectoryEntry, c: DirectoryEntry)
    requires
        entry_lt(a, b),
        entry_lt(b, c),
    ensures
        entry_lt(a, c),
{
    if a.is_dir == b.is_dir && b.is_dir == c.is_dir {
        lemma_path_lt_transitive(a.path@, b.path@, c.path@);
    }
}

/// The order is total: two entries that neither sort before the other have
/// paths with the same components and are of the same kind.
pub proof fn lemma_entry_lt_total(a: DirectoryEntry, b: DirectoryEntry)
    requires
        !entry_lt(a, b),
        !entry_lt(b, a),
    ensures
        entry_same(a, b),
{
    lemma_path_lt_total(a.path@, b.path@);
}

/// Whether `a` sorts strictly before `b` in the picker's order.
pub fn entry_less(a: &DirectoryEntry, b: &DirectoryEntry) -> (r: bool)
    ensures
        r == entry_lt(*a, *b),
{
    if a.is_dir != b.is_dir {
        a.is_dir
    } else {
        match compare_paths(&a.path, &b.path) {
            ByteOrder::Before => true,
            _ => false,
        }
    }
}

/// Inserts `x` into the sorted `v` after every entry that does not sort
/// after it.
fn insert_sorted(v: &mut Vec<DirectoryEntry>, x: DirectoryEntry)
    requires
        entries_sorted(old(v)@),
    ensures
        entries_sorted(final(v)@),
        final(v)@.to_multiset() == old(v)@.to_multiset().insert(x),
{
    let mut k: usize = 0;
    while k < v.len() && !entry_less(&x, &v[k])
        invariant
            k <= v.len(),
            forall|m: int| 0 <= m < k ==> !entry_lt(x, #[trigger] v@[m]),
        decreases v.len() - k,
    {
        k = k + 1;
    }
    let ghost s = v@;
    v.insert(k, x);
    proof {
        let t = v@;
        assert(t =~= s.insert(k as int, x));
        assert forall|i: int, j: int| 0 <= i < j < t.len() implies !entry_lt(
            #[trigger] t[j],
            #[trigger] t[i],
        ) by {
            if j < k {
                assert(t[i] == s[i] && t[j] == s[j]);
            } else if j == k {
                assert(t[i] == s[i]);
                assert(!entry_lt(x, s[i]));
            } else if i == k {
                assert(t[j] == s[j - 1]);
                if entry_lt(s[j - 1], x) {
                    assert(entry_lt(x, s[k as int]));
                    lemma_entry_lt_transitive(s[j - 1], x, s[k as int]);
                    if j - 1 == k {
                        lemma_entry_lt_irreflexive(s[k as int]);
                    } else {
                        assert(!entry_lt(s[j - 1], s[k as int]));
                    }
                }
            } else if i < k {
                assert(t[i] == s[i] && t[j] == s[j - 1]);
            } else {
                assert(t[i] == s[i - 1] && t[j] == s[j - 1]);
            }
        }
        assert(t.remove(k as int) =~= s);
        assert(t[k as int] == x);
        assert(t.to_multiset().count(x) > 0);
        assert(t.to_multiset() =~= s.to_multiset().insert(x));
    }
}

// ---------------------------------------------------------------------------
// File names and extensions
// ---------------------------------------------------------------------------

/// Index of the last dot in `p[s..i]`, or -1 when there is none.
pub open spec fn last_dot(p: Seq<u8>, s: int, i: int) -> int
    decreases i - s,
{
    if i <= s {
        -1
    } else if p[i - 1] == DOT {
        i - 1
    } else {
        last_dot(p, s, i - 1)
    }
}

/// The extension of a file name: the bytes after its last dot. A name
/// without a dot, or whose only dot is its first byte (a hidden file such as
/// `.profile`), has none.
pub open spec fn name_extension(n: Seq<u8>) -> Option<Seq<u8>> {
    let d = last_dot(n, 0, n.len() as int);
    if d <= 0 {
        None
    } else {
        Some(n.subrange(d + 1, n.len() as int))
    }
}

/// The extension of the file name of `p`. A path whose last component is
/// not a name (the root, `..`, or nothing at all) has none.
pub open spec fn path_extension(p: Seq<u8>) -> Option<Seq<u8>> {
    match file_name(p) {
        Some(n) => name_extension(n),
        None => None,
    }
}

/// ASCII upper-case letters become lower-case; every other byte is kept.
pub open spec fn ascii_lower(b: u8) -> u8 {
    if 65 <= b <= 90 {
        (b + 32) as u8
    } else {
        b
    }
}

/// The bytes of `x` with ASCII letters in lower case.
pub open spec fn ascii_lowercase(x: Seq<u8>) -> Seq<u8> {
    x.map_values(|b: u8| ascii_lower(b))
}

/// The extensions of the files that the game can play: mp3, ogg, wav, flac
/// and opus.
pub open spec fn playable_extensions() -> Seq<Seq<u8>> {
    seq![
        seq![109u8, 112u8, 51u8],
        seq![111u8, 103u8, 103u8],
        seq![119u8, 97u8, 118u8],
        seq![102u8, 108u8, 97u8, 99u8],
        seq![111u8, 112u8, 117u8, 115u8],
    ]
}

/// A path names a playable file when its extension, ignoring ASCII case, is
/// one of the playable extensions.
pub open spec fn is_playable_path(p: Seq<u8>) -> bool {
    match path_extension(p) {
        Some(e) => playable_extensions().contains(ascii_lowercase(e)),
        None => false,
    }
}

/// `e` spells `x` when ASCII case is ignored: byte for byte, either the
/// same byte, or, where `x` has a lower-case letter, its upper-case form,
/// 32 below it.
pub open spec fn spells_ignoring_case(e: Seq<u8>, x: Seq<u8>) -> bool {
    &&& e.len() == x.len()
    &&& forall|j: int|
        0 <= j < e.len() ==> (e[j] == x[j] || (97 <= x[j] <= 122 && e[j] + 32 == x[j]))
}

proof fn lemma_lowercase_spells(e: Seq<u8>, x: Seq<u8>)
    requires
        forall|j: int|
            0 <= j < x.len() ==> ((97 <= #[trigger] x[j] && x[j] <= 122) || (48 <= x[j] && x[j]
                <= 57)),
    ensures
        (ascii_lowercase(e) == x) == spells_ignoring_case(e, x),
{
    if ascii_lowercase(e) == x {
        assert forall|j: int| 0 <= j < e.len() implies (e[j] == x[j] || (97 <= x[j] <= 122
            && e[j] + 32 == x[j])) by {
            assert(ascii_lowercase(e)[j] == ascii_lower(e[j]));
        }
    }
    if spells_ignoring_case(e, x) {
        assert forall|j: int| 0 <= j < e.len() implies ascii_lowercase(e)[j] == x[j] by {
            assert(ascii_lowercase(e)[j] == ascii_lower(e[j]));
        }
        assert(ascii_lowercase(e) =~= x);
    }
}

/// A path names a playable file exactly when the extension of its file
/// name spells mp3, ogg, wav, flac or opus with ASCII case ignored: every
/// letter of the extension may be upper-case or lower-case.
pub proof fn lemma_playable_ignores_ascii_case(p: Seq<u8>)
    ensures
        is_playable_path(p) == match path_extension(p) {
            Some(e) => {
                ||| spells_ignoring_case(e, seq![109u8, 112u8, 51u8])
                ||| spells_ignoring_case(e, seq![111u8, 103u8, 103u8])
                ||| spells_ignoring_case(e, seq![119u8, 97u8, 118u8])
                ||| spells_ignoring_case(e, seq![102u8, 108u8, 97u8, 99u8])
                ||| spells_ignoring_case(e, seq![111u8, 112u8, 117u8, 115u8])
            },
            None => false,
        },
{
    if let Some(e) = path_extension(p) {
        let exts = playable_extensions();
        let lc = ascii_lowercase(e);
        let l0 = seq![109u8, 112u8, 51u8];
        let l1 = seq![111u8, 103u8, 103u8];
        let l2 = seq![119u8, 97u8, 118u8];
        let l3 = seq![102u8, 108u8, 97u8, 99u8];
        let l4 = seq![111u8, 112u8, 117u8, 115u8];
        assert(exts[0] == l0 && exts[1] == l1 && exts[2] == l2 && exts[3] == l3 && exts[4] == l4);
        lemma_lowercase_spells(e, l0);
        lemma_lowercase_spells(e, l1);
        lemma_lowercase_spells(e, l2);
        lemma_lowercase_spells(e, l3);
        lemma_lowercase_spells(e, l4);
        if exts.contains(lc) {
            let k = choose|k: int| 0 <= k < exts.len() && exts[k] == lc;
            assert(k == 0 || k == 1 || k == 2 || k == 3 || k == 4);
        }
        if lc == l0 {
            assert(exts[0] == lc);
        }
        if lc == l1 {
            assert(exts[1] == lc);
        }
        if lc == l2 {
            assert(exts[2] == lc);
        }
        if lc == l3 {
            assert(exts[3] == lc);
        }
        if lc == l4 {
            assert(exts[4] == lc);
        }
    }
}

fn lower(b: u8) -> (r: u8)
    ensures
        r == ascii_lower(b),
{
    if 65 <= b && b <= 90 {
        b + 32
    } else {
        b
    }
}

/// Whether the bytes of `p` from `from` on are, ignoring ASCII case, one of
/// the playable extensions.
fn is_playable_extension(p: &Vec<u8>, from: usize) -> (r: bool)
    requires
        from <= p.len(),
    ensures
        r == playable_extensions().contains(ascii_lowercase(p@.subrange(from as int, p.len() as int))),
{
    let ghost e = ascii_lowercase(p@.subrange(from as int, p.len() as int));
    let ghost exts = playable_extensions();
    let n = p.len() - from;
    if n == 3 {
        let a = lower(p[from]);
        let b = lower(p[from + 1]);
        let c = lower(p[from + 2]);
        assert(e.len() == 3 && e[0] == a && e[1] == b && e[2] == c);
        let r = (a == 109 && b == 112 && c == 51) || (a == 111 && b == 103 && c == 103) || (a == 119
            && b == 97 && c == 118);
        proof {
            if r {
                if a == 109 {
                    assert(e =~= exts[0]);
                } else if a == 111 {
                    assert(e =~= exts[1]);
                } else {
                    assert(e =~= exts[2]);
                }
            } else {
                assert forall|i: int| 0 <= i < exts.len() implies exts[i] != e by {
                    if i == 0 {
                        assert(!(exts[0][0] == e[0] && exts[0][1] == e[1] && exts[0][2] == e[2]));
                    } else if i == 1 {
                        assert(!(exts[1][0] == e[0] && exts[1][1] == e[1] && exts[1][2] == e[2]));
                    } else if i == 2 {
                        assert(!(exts[2][0] == e[0] && exts[2][1] == e[1] && exts[2][2] == e[2]));
                    } else {
                        assert(exts[i].len() == 4);
                    }
                }
            }
        }
        r
    } else if n == 4 {
        let a = lower(p[from]);
        let b = lower(p[from + 1]);
        let c = lower(p[from + 2]);
        let d = lower(p[from + 3]);
        assert(e.len() == 4 && e[0] == a && e[1] == b && e[2] == c && e[3] == d);
        let r = (a == 102 && b == 108 && c == 97 && d == 99) || (a == 111 && b == 112 && c == 117
            && d == 115);
        proof {
            if r {
                if a == 102 {
                    assert(e =~= exts[3]);
                } else {
                    assert(e =~= exts[4]);
                }
            } else {
                assert forall|i: int| 0 <= i < exts.len() implies exts[i] != e by {
                    if i == 3 {
                        assert(!(exts[3][0] == e[0] && exts[3][1] == e[1] && exts[3][2] == e[2]
                            && exts[3][3] == e[3]));
                    } else if i == 4 {
                        assert(!(exts[4][0] == e[0] && exts[4][1] == e[1] && exts[4][2] == e[2]
                            && exts[4][3] == e[3]));
                    } else {
                        assert(exts[i].len() == 3);
                    }
                }
            }
        }
        r
    } else {
        proof {
            assert forall|i: int| 0 <= i < exts.len() implies exts[i] != e by {
                assert(exts[i].len() == 3 || exts[i].len() == 4);
            }
        }
        false
    }
}

/// The file name of `path`: its last component, when that is a name.
fn file_name_bytes(path: &Vec<u8>) -> (r: Option<Vec<u8>>)
    ensures
        match r {
            Some(n) => file_name(path@) == Some(n@),
            None => file_name(path@) is None,
        },
{
    let spans = components_of(path);
    let ghost comps = path_components(path@);
    let n = spans.len();
    if n == 0 {
        return None;
    }
    let last = spans[n - 1];
    assert(comps[n - 1] == span_component(path@, last));
    assert(comps.last() == comps[n - 1]);
    if last.rank != 4 {
        assert(!(comps.last() is Normal));
        return None;
    }
    Some(segment_bytes(path, last.start, last.end))
}

/// Whether `path` names a file that the game can play, judged by the
/// extension of its file name.
pub fn is_playable_file(path: &Vec<u8>) -> (r: bool)
    ensures
        r == is_playable_path(path@),
{
    let name = match file_name_bytes(path) {
        Some(n) => n,
        None => {
            return false;
        },
    };
    let len = name.len();
    let mut i = len;
    while i > 0 && name[i - 1] != DOT
        invariant
            i <= len,
            len == name.len(),
            last_dot(name@, 0, len as int) == last_dot(name@, 0, i as int),
        decreases i,
    {
        i = i - 1;
    }
    // The last dot of the name is at `i - 1`, or there is none when `i == 0`.
    if i <= 1 {
        false
    } else {
        is_playable_extension(&name, i)
    }
}

// ---------------------------------------------------------------------------
// Hidden files
// ---------------------------------------------------------------------------

/// A file is hidden when its name starts with a dot.
pub open spec fn is_hidden_path(p: Seq<u8>) -> bool {
    match file_name(p) {
        Some(n) => n.len() > 0 && n[0] == DOT,
        None => false,
    }
}

/// A byte that continues a multi-byte UTF-8 character.
pub open spec fn is_continuation(b: u8) -> bool {
    0x80 <= b <= 0xBF
}

/// The length of the well-formed UTF-8 character that starts at index `i`
/// of `s`, or 0 when none does: one ASCII byte, or a lead byte followed by
/// one to three continuation bytes, with the second byte narrowed so that
/// no character is encoded too long, is a surrogate or lies past U+10FFFF.
pub open spec fn utf8_char_len(s: Seq<u8>, i: int) -> int {
    let n = s.len();
    let b0 = s[i];
    if b0 < 0x80 {
        1
    } else if 0xC2 <= b0 <= 0xDF && i + 1 < n && is_continuation(s[i + 1]) {
        2
    } else if 0xE0 <= b0 <= 0xEF && i + 2 < n && (if b0 == 0xE0 {
        0xA0 <= s[i + 1] <= 0xBF
    } else if b0 == 0xED {
        0x80 <= s[i + 1] <= 0x9F
    } else {
        is_continuation(s[i + 1])
    }) && is_continuation(s[i + 2]) {
        3
    } else if 0xF0 <= b0 <= 0xF4 && i + 3 < n && (if b0 == 0xF0 {
        0x90 <= s[i + 1] <= 0xBF
    } else if b0 == 0xF4 {
        0x80 <= s[i + 1] <= 0x8F
    } else {
        is_continuation(s[i + 1])
    }) && is_continuation(s[i + 2]) && is_continuation(s[i + 3]) {
        4
    } else {
        0
    }
}

/// The bytes of `s` from index `i` on are a sequence of well-formed UTF-8
/// characters.
pub open spec fn utf8_valid_from(s: Seq<u8>, i: int) -> bool
    decreases s.len() - i,
{
    if i < 0 || i >= s.len() {
        true
    } else {
        let k = utf8_char_len(s, i);
        if k > 0 {
            utf8_valid_from(s, i + k)
        } else {
            false
        }
    }
}

/// `s` is well-formed UTF-8, that is, text.
pub open spec fn utf8_valid(s: Seq<u8>) -> bool {
    utf8_valid_from(s, 0)
}

/// The path has a file name that is text.
pub open spec fn has_text_file_name(p: Seq<u8>) -> bool {
    match file_name(p) {
        Some(n) => utf8_valid(n),
        None => false,
    }
}

/// Asks `hf::is_hidden` whether the file named `name` is hidden. On Unix,
/// `is_hidden` takes the file name of the path it is given and answers
/// whether it starts with `.`, failing when the path has no file name or
/// the name is not UTF-8; a plain name is its own file name. The name is
/// handed over as text (`std::str::from_utf8`, which accepts exactly the
/// well-formed UTF-8 byte strings), so a name that is not UTF-8 gives `None`
/// without the call. Claimed here: there is an answer exactly when the name
/// is well-formed UTF-8, and it is whether the first byte is a dot.
#[verifier::external_body]
fn file_name_is_hidden(name: &Vec<u8>) -> (r: Option<bool>)
    requires
        is_plain_name(name@),
    ensures
        r is Some <==> utf8_valid(name@),
        r is Some ==> r->0 == (name@[0] == DOT),
{
    match std::str::from_utf8(name.as_slice()) {
        Ok(text) => hf::is_hidden(std::path::Path::new(text)).ok(),
        Err(_) => None,
    }
}

/// Whether the file that `path` names is hidden; `None` when that cannot be
/// told: the path has no file name, or its name is not text.
fn path_is_hidden(path: &Vec<u8>) -> (r: Option<bool>)
    ensures
        r is Some <==> has_text_file_name(path@),
        r is Some ==> r->0 == is_hidden_path(path@),
{
    proof {
        lemma_file_name_plain(path@);
    }
    match file_name_bytes(path) {
        Some(name) => file_name_is_hidden(&name),
        None => None,
    }
}

// ---------------------------------------------------------------------------
// The picker
// ---------------------------------------------------------------------------

/// One entry as the operating system lists it, before the picker decides
/// whether to show it.
#[derive(Debug, Clone, PartialEq, Eq)]
pub struct ListedEntry {
    pub path: Vec<u8>,
    pub is_dir: bool,
}

/// The picker shows an entry when it is not hidden and is either a
/// directory or a playable file.
pub open spec fn is_shown(e: ListedEntry) -> bool {
    !is_hidden_path(e.path@) && (e.is_dir || is_playable_path(e.path@))
}

/// Why a listing cannot be shown.
#[derive(Debug, Clone, Copy, PartialEq, Eq)]
pub enum RefreshError {
    /// An entry has no file name, or one that is not text, so whether it is
    /// hidden cannot be told.
    InvalidFileName,
}

/// The directory entry that a listed entry becomes.
pub open spec fn entry_of(e: ListedEntry) -> DirectoryEntry {
    DirectoryEntry { path: e.path, is_dir: e.is_dir }
}

/// The entries of a listing that the picker shows, in listing order.
pub open spec fn shown_entries(s: Seq<ListedEntry>) -> Seq<DirectoryEntry>
    decreases s.len(),
{
    if s.len() == 0 {
        seq![]
    } else {
        let rest = shown_entries(s.drop_last());
        if is_shown(s.last()) {
            rest.push(entry_of(s.last()))
        } else {
            rest
        }
    }
}

/// The state of the file picker: the directory it shows, the entries shown
/// and the file the player chose, if any.
#[derive(Debug, Clone)]
pub struct FilePicker {
    pub current_dir: Vec<u8>,
    pub selected_file: Option<Vec<u8>>,
    pub entries: Vec<DirectoryEntry>,
}

impl FilePicker {
    /// A picker on `current_dir` that shows nothing yet and has no file
    /// chosen.
    pub fn new(current_dir: Vec<u8>) -> (r: FilePicker)
        ensures
            r.current_dir == current_dir,
            r.selected_file is None,
            r.entries@.len() == 0,
    {
        FilePicker { current_dir, selected_file: None, entries: Vec::new() }
    }

    /// Replaces the shown entries with those of a fresh listing of the
    /// current directory: hidden entries and files that cannot be played are
    /// left out, directories come first, each group ordered by path, and the
    /// chosen file is forgotten. When whether an entry is hidden cannot be
    /// told, because an entry has no file name or one that is not text, the
    /// picker is left as it was and the error is returned.
    pub fn refresh(&mut self, listed: Vec<ListedEntry>) -> (r: Result<(), RefreshError>)
        ensures
            match r {
                Ok(()) => {
                    &&& final(self).current_dir == old(self).current_dir
                    &&& final(self).selected_file is None
                    &&& entries_sorted(final(self).entries@)
                    &&& final(self).entries@.to_multiset() == shown_entries(
                        listed@,
                    ).to_multiset()
                },
                Err(_) => *final(self) == *old(self),
            },
            r is Ok <==> forall|i: int|
                0 <= i < listed@.len() ==> has_text_file_name((#[trigger] listed@[i]).path@),
    {
        let ghost whole = listed@;
        let mut listing = listed;
        let mut entries: Vec<DirectoryEntry> = Vec::new();
        proof {
            assert(entries@.to_multiset() =~= Multiset::empty());
            assert(listing@ =~= whole.subrange(0, whole.len() as int));
        }
        while listing.len() > 0
            invariant
                whole == listed@,
                listing.len() <= whole.len(),
                listing@ == whole.subrange(0, listing.len() as int),
                forall|k: int|
                    listing.len() <= k < whole.len() ==> has_text_file_name(
                        (#[trigger] whole[k]).path@,
                    ),
                entries_sorted(entries@),
                entries@.to_multiset().add(shown_entries(listing@).to_multiset())
                    == shown_entries(whole).to_multiset(),
            decreases listing.len(),
        {
            let ghost before = listing@;
            let e = listing.pop().unwrap();
            proof {
                assert(listing@ =~= before.drop_last());
                assert(e == before.last());
                assert(e == whole[listing.len() as int]);
                assert(listing@ =~= whole.subrange(0, listing.len() as int));
            }
            let hidden = match path_is_hidden(&e.path) {
                Some(h) => h,
                None => {
                    return Err(RefreshError::InvalidFileName);
                },
            };
            let shown = !hidden && (e.is_dir || is_playable_file(&e.path));
            if shown {
                let ghost old_entries = entries@;
                let d = DirectoryEntry { path: e.path, is_dir: e.is_dir };
                assert(d == entry_of(before.last()));
                insert_sorted(&mut entries, d);
                proof {
                    assert(shown_entries(before) == shown_entries(listing@).push(d));
                    assert(entries@.to_multiset().add(shown_entries(listing@).to_multiset())
                        =~= old_entries.to_multiset().add(shown_entries(before).to_multiset()));
                }
            } else {
                assert(shown_entries(before) == shown_entries(listing@));
            }
        }
        proof {
            assert(shown_entries(listing@) =~= Seq::<DirectoryEntry>::empty());
            assert(entries@.to_multiset() =~= shown_entries(whole).to_multiset());
        }
        self.entries = entries;
        self.selected_file = None;
        Ok(())
    }

    /// Records `path` as the file the player chose.
    pub fn select_file(&mut self, path: Vec<u8>)
        ensures
            final(self).selected_file == Some(path),
            final(self).current_dir == old(self).current_dir,
            final(self).entries == old(self).entries,
    {
        self.selected_file = Some(path);
    }

    /// Whether `path` names a file that the game can play.
    pub fn is_playable_file(&self, path: &Vec<u8>) -> (r: bool)
        ensures
            r == is_playable_path(path@),
    {
        is_playable_file(path)
    }
}

/// A request to the file picker.
#[derive(Debug, Clone)]
pub enum NavigateMessage {
    /// Show the parent of the current directory.
    Up,
    /// Show the given directory.
    Directory(DirectoryEntry),
    /// List the current directory again.
    Refresh,
}

impl FilePicker {
    /// Handles one request. Returns whether the current directory must be
    /// listed again: always, except when going up from a directory without
    /// parent (the root), which changes nothing. Going up moves to the
    /// parent: the part of the current directory before its last component,
    /// without the separators and `.` segments that end it.
    pub fn navigate(&mut self, msg: NavigateMessage) -> (refresh: bool)
        ensures
            final(self).entries == old(self).entries,
            final(self).selected_file == old(self).selected_file,
            match msg {
                NavigateMessage::Up => match parent_components(old(self).current_dir@) {
                    Some(c) => {
                        &&& refresh
                        &&& path_components(final(self).current_dir@) == c
                        &&& final(self).current_dir@ == old(self).current_dir@.subrange(
                            0,
                            final(self).current_dir@.len() as int,
                        )
                        &&& is_trimmed(final(self).current_dir@)
                    },
                    None => !refresh && final(self).current_dir == old(self).current_dir,
                },
                NavigateMessage::Directory(e) => refresh && final(self).current_dir == e.path,
                NavigateMessage::Refresh => refresh && final(self).current_dir
                    == old(self).current_dir,
            },
    {
        match msg {
            NavigateMessage::Up => match parent_path(&self.current_dir) {
                Some(p) => {
                    self.current_dir = p;
                    true
                },
                None => false,
            },
            NavigateMessage::Directory(e) => {
                self.current_dir = e.path;
                true
            },
            NavigateMessage::Refresh => true,
        }
    }
}

// ---------------------------------------------------------------------------
// The listing order is unique
// ---------------------------------------------------------------------------

/// What the order looks at of each entry: the components of its path and
/// its kind.
pub open spec fn entry_keys(s: Seq<DirectoryEntry>) -> Seq<(Seq<PathComponent>, bool)> {
    s.map_values(|e: DirectoryEntry| (path_components(e.path@), e.is_dir))
}

proof fn lemma_remove_keeps_sorted(t: Seq<DirectoryEntry>, k: int)
    requires
        entries_sorted(t),
        0 <= k < t.len(),
    ensures
        entries_sorted(t.remove(k)),
{
    let u = t.remove(k);
    assert forall|i: int, j: int| 0 <= i < j < u.len() implies !entry_lt(
        #[trigger] u[j],
        #[trigger] u[i],
    ) by {
        let i0 = if i < k { i } else { i + 1 };
        let j0 = if j < k { j } else { j + 1 };
        assert(u[i] == t[i0] && u[j] == t[j0]);
    }
}

/// Two sorted listings of the same entries agree in every path and kind:
/// the order leaves no choice, so showing a listing does not depend on how
/// it was sorted.
pub proof fn lemma_sorted_listing_unique(s: Seq<DirectoryEntry>, t: Seq<DirectoryEntry>)
    requires
        entries_sorted(s),
        entries_sorted(t),
        s.to_multiset() == t.to_multiset(),
    ensures
        entry_keys(s) == entry_keys(t),
    decreases s.len(),
{
    if s.len() == 0 {
        assert(t.to_multiset().len() == 0);
        assert(t.len() == 0);
        assert(entry_keys(s) =~= entry_keys(t));
    } else {
        let x = s[0];
        assert(s.to_multiset().count(x) > 0) by {
            assert(s.contains(x));
        }
        assert(t.contains(x));
        let k = choose|k: int| 0 <= k < t.len() && t[k] == x;
        let y = t[0];
        assert(s.contains(y)) by {
            assert(t.to_multiset().count(y) > 0);
        }
        let m = choose|m: int| 0 <= m < s.len() && s[m] == y;
        if m > 0 {
            assert(!entry_lt(s[m], s[0]));
        }
        if k > 0 {
            assert(!entry_lt(t[k], t[0]));
        }
        if !entry_same(x, y) {
            lemma_entry_lt_total(x, y);
        }
        let s1 = s.drop_first();
        let t1 = t.remove(k);
        assert(s1 =~= s.remove(0));
        assert(s1.to_multiset() == s.to_multiset().remove(x));
        assert(t1.to_multiset() == t.to_multiset().remove(x));
        assert forall|i: int, j: int| 0 <= i < j < s1.len() implies !entry_lt(
            #[trigger] s1[j],
            #[trigger] s1[i],
        ) by {
            assert(s1[i] == s[i + 1] && s1[j] == s[j + 1]);
        }
        lemma_remove_keeps_sorted(t, k);
        lemma_sorted_listing_unique(s1, t1);
        // Every entry of `t` before `x` has the key of `x`.
        assert forall|j: int| 0 <= j < k implies entry_same(#[trigger] t[j], x) by {
            if j > 0 {
                assert(!entry_lt(t[j], t[0]));
            }
            assert(!entry_lt(t[k], t[j]));
            if !entry_same(t[j], x) {
                lemma_entry_lt_total(t[j], x);
            }
        }
        let ks = entry_keys(s);
        let kt = entry_keys(t);
        let kt1 = entry_keys(t1);
        let ks1 = entry_keys(s1);
        assert(s.len() == s.to_multiset().len());
        assert(t.len() == t.to_multiset().len());
        assert(ks.len() == kt.len());
        assert forall|j: int| 0 <= j < ks.len() implies #[trigger] ks[j] == kt[j] by {
            if j == 0 {
                assert(ks[0] == (path_components(x.path@), x.is_dir));
                assert(kt[0] == (path_components(y.path@), y.is_dir));
            } else {
                assert(ks[j] == ks1[j - 1]);
                assert(ks1[j - 1] == kt1[j - 1]);
                if j <= k {
                    assert(t1[j - 1] == t[j - 1]);
                    assert(entry_same(t[j - 1], x));
                    if j < k {
                        assert(entry_same(t[j], x));
                    } else {
                        assert(t[j] == x);
                    }
                } else {
                    assert(t1[j - 1] == t[j]);
                }
            }
        }
        assert(ks =~= kt);
    }
}

/// What one listed entry adds to the shown entries.
pub open spec fn shown_part(e: ListedEntry) -> Multiset<DirectoryEntry> {
    if is_shown(e) {
        Multiset::singleton(entry_of(e))
    } else {
        Multiset::empty()
    }
}

proof fn lemma_shown_remove(s: Seq<ListedEntry>, k: int)
    requires
        0 <= k < s.len(),
    ensures
        shown_entries(s).to_multiset() == shown_entries(s.remove(k)).to_multiset().add(
            shown_part(s[k]),
        ),
    decreases s.len(),
{
    let last = s.len() - 1;
    if k == last {
        assert(s.remove(k) =~= s.drop_last());
        assert(shown_entries(s).to_multiset() =~= shown_entries(s.drop_last()).to_multiset().add(
            shown_part(s[k]),
        ));
    } else {
        let d = s.drop_last();
        lemma_shown_remove(d, k);
        let r = s.remove(k);
        assert(r.drop_last() =~= d.remove(k));
        assert(r.last() == s.last());
        assert(r.len() > 0);
        assert(shown_entries(s).to_multiset() =~= shown_entries(d).to_multiset().add(
            shown_part(s.last()),
        ));
        assert(shown_entries(r).to_multiset() =~= shown_entries(r.drop_last()).to_multiset().add(
            shown_part(r.last()),
        ));
        assert(shown_entries(s).to_multiset() =~= shown_entries(r).to_multiset().add(
            shown_part(s[k]),
        ));
    }
}

/// The entries shown of a listing do not depend on the order in which the
/// operating system lists them.
pub proof fn lemma_shown_entries_permutation(s: Seq<ListedEntry>, t: Seq<ListedEntry>)
    requires
        s.to_multiset() == t.to_multiset(),
    ensures
        shown_entries(s).to_multiset() == shown_entries(t).to_multiset(),
    decreases s.len(),
{
    if s.len() == 0 {
        assert(t.len() == t.to_multiset().len());
        assert(t.len() == 0);
        assert(shown_entries(s).to_multiset() =~= shown_entries(t).to_multiset());
    } else {
        let x = s.last();
        assert(s.contains(x));
        assert(s.to_multiset().count(x) > 0);
        assert(t.contains(x));
        let k = choose|k: int| 0 <= k < t.len() && t[k] == x;
        let s1 = s.drop_last();
        let t1 = t.remove(k);
        assert(s1 =~= s.remove(s.len() - 1));
        assert(s1.to_multiset() == s.to_multiset().remove(x));
        assert(t1.to_multiset() == t.to_multiset().remove(x));
        lemma_shown_entries_permutation(s1, t1);
        lemma_shown_remove(s, s.len() - 1);
        lemma_shown_remove(t, k);
    }
}

/// Refreshing shows the same entries, in the same order, however the
/// operating system orders the listing.
pub proof fn lemma_refresh_ignores_listing_order(
    s: Seq<ListedEntry>,
    t: Seq<ListedEntry>,
    a: Seq<DirectoryEntry>,
    b: Seq<DirectoryEntry>,
)
    requires
        s.to_multiset() == t.to_multiset(),
        entries_sorted(a),
        entries_sorted(b),
        a.to_multiset() == shown_entries(s).to_multiset(),
        b.to_multiset() == shown_entries(t).to_multiset(),
    ensures
        entry_keys(a) == entry_keys(b),
{
    lemma_shown_entries_permutation(s, t);
    lemma_sorted_listing_unique(a, b);
}

} // verus!
