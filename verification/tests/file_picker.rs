use muviz::file_picker::{
    entry_less, is_playable_file, DirectoryEntry, FilePicker, ListedEntry, NavigateMessage,
    RefreshError,
};
use muviz::path::{compare_bytes, compare_paths, parent_path, ByteOrder};
use std::cmp::Ordering;

fn entry(path: &str, is_dir: bool) -> DirectoryEntry {
    DirectoryEntry { path: path.as_bytes().to_vec(), is_dir }
}

fn listed(path: &str, is_dir: bool) -> ListedEntry {
    ListedEntry { path: path.as_bytes().to_vec(), is_dir }
}

#[test]
fn directories_sort_before_files() {
    let dir = entry("/music/zzz", true);
    let file = entry("/music/aaa.mp3", false);
    assert_eq!(dir.cmp(&file), Ordering::Less);
    assert_eq!(file.cmp(&dir), Ordering::Greater);
    assert_eq!(dir.partial_cmp(&file), Some(Ordering::Less));
}

#[test]
fn same_kind_sorts_by_path_components() {
    let a = entry("/music/a.mp3", false);
    let ab = entry("/music/ab.mp3", false);
    let upper = entry("/music/B.mp3", false);
    assert_eq!(a.cmp(&ab), Ordering::Less);
    assert_eq!(ab.cmp(&a), Ordering::Greater);
    // Upper-case letters have smaller bytes than lower-case ones.
    assert_eq!(upper.cmp(&a), Ordering::Less);
    assert_eq!(a.cmp(&a.clone()), Ordering::Equal);
    assert!(entry_less(&upper, &a));
    assert!(!entry_less(&a, &a));
}

#[test]
fn compare_bytes_prefix_and_difference() {
    assert_eq!(compare_bytes(&b"abc".to_vec(), &b"abd".to_vec()), ByteOrder::Before);
    assert_eq!(compare_bytes(&b"abd".to_vec(), &b"abc".to_vec()), ByteOrder::After);
    assert_eq!(compare_bytes(&b"ab".to_vec(), &b"abc".to_vec()), ByteOrder::Before);
    assert_eq!(compare_bytes(&b"abc".to_vec(), &b"ab".to_vec()), ByteOrder::After);
    assert_eq!(compare_bytes(&b"".to_vec(), &b"".to_vec()), ByteOrder::Same);
    assert_eq!(compare_bytes(&b"abc".to_vec(), &b"abc".to_vec()), ByteOrder::Same);
}

#[test]
fn playable_extensions_ignore_ascii_case() {
    assert!(is_playable_file(&b"/m/song.mp3".to_vec()));
    assert!(is_playable_file(&b"/m/song.MP3".to_vec()));
    assert!(is_playable_file(&b"/m/song.Ogg".to_vec()));
    assert!(is_playable_file(&b"/m/song.wav".to_vec()));
    assert!(is_playable_file(&b"/m/song.FLAC".to_vec()));
    assert!(is_playable_file(&b"/m/a.b.opus".to_vec()));
    assert!(is_playable_file(&b"song.mp3".to_vec()));
}

#[test]
fn unplayable_names() {
    // No extension, other extensions, hidden-style names and `..`.
    assert!(!is_playable_file(&b"/m/song".to_vec()));
    assert!(!is_playable_file(&b"/m/song.txt".to_vec()));
    assert!(!is_playable_file(&b"/m/song.mp4".to_vec()));
    assert!(!is_playable_file(&b"/m/song.mp3x".to_vec()));
    assert!(!is_playable_file(&b"/m/.mp3".to_vec()));
    assert!(!is_playable_file(&b"/m/..".to_vec()));
    assert!(!is_playable_file(&b"/m/song.".to_vec()));
    assert!(!is_playable_file(&b"/m.mp3/song".to_vec()));
    assert!(!is_playable_file(&b"".to_vec()));
    // Non-ASCII bytes never match.
    assert!(!is_playable_file(&vec![b'a', b'.', 0xC3, 0x89, b'p', b'3']));
}

#[test]
fn hidden_name_with_extension_is_playable() {
    // `.song.mp3` has the extension `mp3`; hiding is decided by the listing.
    assert!(is_playable_file(&b"/m/.song.mp3".to_vec()));
}

#[test]
fn refresh_filters_and_sorts() {
    let mut picker = FilePicker::new(b"/music".to_vec());
    picker.select_file(b"/music/old.mp3".to_vec());
    let listing = vec![
        listed("/music/zeta.mp3", false),
        listed("/music/notes.txt", false),
        listed("/music/beta", true),
        listed("/music/.hidden.mp3", false),
        listed("/music/.cache", true),
        listed("/music/alpha.FLAC", false),
        listed("/music/Albums", true),
    ];
    picker.refresh(listing).unwrap();
    assert_eq!(picker.current_dir, b"/music".to_vec());
    assert_eq!(picker.selected_file, None);
    let got: Vec<(String, bool)> = picker
        .entries
        .iter()
        .map(|e| (String::from_utf8(e.path.clone()).unwrap(), e.is_dir))
        .collect();
    assert_eq!(
        got,
        vec![
            ("/music/Albums".to_string(), true),
            ("/music/beta".to_string(), true),
            ("/music/alpha.FLAC".to_string(), false),
            ("/music/zeta.mp3".to_string(), false),
        ]
    );
}

#[test]
fn refresh_of_empty_listing_is_empty() {
    let mut picker = FilePicker::new(b"/".to_vec());
    picker.refresh(Vec::new()).unwrap();
    assert!(picker.entries.is_empty());
}

#[test]
fn refresh_matches_sorting_with_cmp() {
    let names = ["d.mp3", "c", "b.ogg", "a", "e.wav", "c.mp3"];
    let listing: Vec<ListedEntry> = names
        .iter()
        .map(|n| listed(&format!("/x/{}", n), !n.contains('.')))
        .collect();
    let mut expected: Vec<DirectoryEntry> = listing
        .iter()
        .map(|l| DirectoryEntry { path: l.path.clone(), is_dir: l.is_dir })
        .collect();
    expected.sort_by(|a, b| a.cmp(b));
    let mut picker = FilePicker::new(b"/x".to_vec());
    picker.refresh(listing).unwrap();
    assert_eq!(picker.entries, expected);
}

#[test]
fn select_file_keeps_listing() {
    let mut picker = FilePicker::new(b"/x".to_vec());
    picker.refresh(vec![listed("/x/a.mp3", false)]).unwrap();
    picker.select_file(b"/x/a.mp3".to_vec());
    assert_eq!(picker.selected_file, Some(b"/x/a.mp3".to_vec()));
    assert_eq!(picker.entries.len(), 1);
    assert!(picker.is_playable_file(&b"/x/a.mp3".to_vec()));
}

#[test]
fn navigate_requests() {
    let mut picker = FilePicker::new(b"/a/b".to_vec());
    assert!(picker.navigate(NavigateMessage::Up));
    assert_eq!(picker.current_dir, b"/a".to_vec());
    assert!(picker.navigate(NavigateMessage::Up));
    assert_eq!(picker.current_dir, b"/".to_vec());
    assert!(!picker.navigate(NavigateMessage::Up));
    assert_eq!(picker.current_dir, b"/".to_vec());
    assert!(picker.navigate(NavigateMessage::Directory(entry("/a/c", true))));
    assert_eq!(picker.current_dir, b"/a/c".to_vec());
    assert!(picker.navigate(NavigateMessage::Refresh));
    assert_eq!(picker.current_dir, b"/a/c".to_vec());
}

#[test]
fn refresh_ignores_listing_order() {
    let a = vec![
        listed("/d/b.mp3", false),
        listed("/d/a", true),
        listed("/d/c.wav", false),
        listed("/d/.x", true),
    ];
    let mut b = a.clone();
    b.reverse();
    b.swap(0, 2);
    let mut p = FilePicker::new(b"/d".to_vec());
    let mut q = FilePicker::new(b"/d".to_vec());
    p.refresh(a).unwrap();
    q.refresh(b).unwrap();
    assert_eq!(p.entries, q.entries);
    assert_eq!(p.entries.len(), 3);
}

#[test]
fn paths_compare_component_by_component() {
    // Repeated separators, `.` segments and a trailing separator do not count.
    let p = |s: &str| s.as_bytes().to_vec();
    assert_eq!(compare_paths(&p("/a//b"), &p("/a/b")), ByteOrder::Same);
    assert_eq!(compare_paths(&p("/a/./b/"), &p("/a/b")), ByteOrder::Same);
    // A separator ends a component: `a/b` sorts before `a-b` although `/`
    // is a larger byte than `-`.
    assert_eq!(compare_paths(&p("a/b"), &p("a-b")), ByteOrder::Before);
    assert_eq!(compare_bytes(&p("a/b"), &p("a-b")), ByteOrder::After);
    // The root sorts before names, `..` before names.
    assert_eq!(compare_paths(&p("/x"), &p("x")), ByteOrder::Before);
    assert_eq!(compare_paths(&p("../x"), &p("a")), ByteOrder::Before);
    assert_eq!(compare_paths(&p("./x"), &p("../x")), ByteOrder::Before);
    assert_eq!(compare_paths(&p("a"), &p("a/b")), ByteOrder::Before);
}

#[test]
fn entries_with_equivalent_paths_are_equal() {
    let a = entry("/music//song.mp3", false);
    let b = entry("/music/song.mp3", false);
    assert_eq!(a.cmp(&b), Ordering::Equal);
    assert!(a == b);
    assert!(a != entry("/music/song.mp3", true));
    assert!(a != entry("/music/other.mp3", false));
}

#[test]
fn file_name_follows_path_components() {
    // A trailing separator or `.` does not hide the file name.
    assert!(is_playable_file(&b"/m/song.mp3/".to_vec()));
    assert!(is_playable_file(&b"/m/song.mp3/.".to_vec()));
    // A path ending in `..` or the root has no file name.
    assert!(!is_playable_file(&b"/m/song.mp3/..".to_vec()));
    assert!(!is_playable_file(&b"/".to_vec()));
    assert!(!is_playable_file(&b"./".to_vec()));
}

#[test]
fn refresh_hides_names_starting_with_a_dot() {
    let mut picker = FilePicker::new(b"/d".to_vec());
    picker
        .refresh(vec![
            listed("/d/.config", true),
            listed("/d/.song.mp3", false),
            listed("/d/song.mp3", false),
            listed("/d/a.b", true),
            listed("/d/x/.", true),
        ])
        .unwrap();
    let got: Vec<Vec<u8>> = picker.entries.iter().map(|e| e.path.clone()).collect();
    assert_eq!(got, vec![b"/d/a.b".to_vec(), b"/d/x/.".to_vec(), b"/d/song.mp3".to_vec()]);
}

#[test]
fn refresh_fails_without_file_name_and_keeps_state() {
    let mut picker = FilePicker::new(b"/d".to_vec());
    picker.refresh(vec![listed("/d/a.mp3", false)]).unwrap();
    picker.select_file(b"/d/a.mp3".to_vec());
    for bad in ["/d/..", "/"] {
        let r = picker.refresh(vec![listed("/d/b.mp3", false), listed(bad, true)]);
        assert_eq!(r, Err(RefreshError::InvalidFileName));
        assert_eq!(picker.entries.len(), 1);
        assert_eq!(picker.entries[0].path, b"/d/a.mp3".to_vec());
        assert_eq!(picker.selected_file, Some(b"/d/a.mp3".to_vec()));
    }
}

#[test]
fn refresh_fails_on_names_that_are_not_text() {
    let mut picker = FilePicker::new(b"/d".to_vec());
    let bad = ListedEntry { path: vec![b'/', b'd', b'/', 0xFF, b'.', b'm', b'p', b'3'], is_dir: false };
    assert_eq!(picker.refresh(vec![bad]), Err(RefreshError::InvalidFileName));
    assert!(picker.entries.is_empty());
    // Non-ASCII text is fine.
    let text = ListedEntry { path: "/d/música.mp3".as_bytes().to_vec(), is_dir: false };
    assert_eq!(picker.refresh(vec![text]), Ok(()));
    assert_eq!(picker.entries.len(), 1);
}

#[test]
fn parent_drops_the_last_component() {
    let parent = |s: &str| parent_path(&s.as_bytes().to_vec()).map(|q| String::from_utf8(q).unwrap());
    let some = |s: &str| Some(s.to_string());
    assert_eq!(parent("/a/b"), some("/a"));
    assert_eq!(parent("/a//b/./"), some("/a"));
    assert_eq!(parent("a/./b"), some("a"));
    assert_eq!(parent("/a"), some("/"));
    assert_eq!(parent("//a"), some("/"));
    assert_eq!(parent("/./a"), some("/"));
    assert_eq!(parent("a"), some(""));
    assert_eq!(parent("./a"), some("."));
    assert_eq!(parent("."), some(""));
    assert_eq!(parent("./"), some(""));
    assert_eq!(parent("../x"), some(".."));
    assert_eq!(parent("/.."), some("/"));
    assert_eq!(parent("/"), None);
    assert_eq!(parent("//."), None);
    assert_eq!(parent(""), None);
}

#[test]
fn refresh_follows_utf8_well_formedness() {
    let mut picker = FilePicker::new(b"/d".to_vec());
    let with_name = |name: &[u8]| {
        let mut path = b"/d/".to_vec();
        path.extend_from_slice(name);
        ListedEntry { path, is_dir: true }
    };
    // An encoded surrogate and an over-long encoding are not text.
    assert_eq!(picker.refresh(vec![with_name(&[0xED, 0xA0, 0x80])]), Err(RefreshError::InvalidFileName));
    assert_eq!(picker.refresh(vec![with_name(&[0xC0, 0xAF])]), Err(RefreshError::InvalidFileName));
    // Four-byte characters are.
    assert_eq!(picker.refresh(vec![with_name("🦀".as_bytes())]), Ok(()));
    assert_eq!(picker.entries.len(), 1);
}
