use viewfs::filter::{generate_paths, whitelist_paths, EntryKind, FileType, ViewFile, WalkEntry};

fn found(kind: EntryKind, path: &str) -> WalkEntry {
    WalkEntry::Found { kind, path: path.as_bytes().to_vec() }
}

fn plain(files: Vec<ViewFile>) -> Vec<(FileType, String)> {
    files
        .into_iter()
        .map(|f| (f.filetype, String::from_utf8(f.path).unwrap()))
        .collect()
}

#[test]
fn files_and_directories_are_kept_in_order() {
    let files = generate_paths(vec![
        found(EntryKind::Dir, "/s"),
        WalkEntry::Unreadable,
        found(EntryKind::Symlink, "/s/link"),
        found(EntryKind::File, "/s/file"),
        found(EntryKind::Other, "/s/socket"),
        found(EntryKind::Dir, "/s/dir"),
        found(EntryKind::File, "/s/file"),
    ]);
    assert_eq!(
        plain(files),
        vec![
            (FileType::Dir, "/s".to_string()),
            (FileType::File, "/s/file".to_string()),
            (FileType::Dir, "/s/dir".to_string()),
            (FileType::File, "/s/file".to_string()),
        ]
    );
}

#[test]
fn nothing_found() {
    assert!(generate_paths(vec![]).is_empty());
    assert!(generate_paths(vec![WalkEntry::Unreadable]).is_empty());
}

#[test]
fn two_walks_give_both_lists() {
    let a = || vec![found(EntryKind::Dir, "/a"), found(EntryKind::Symlink, "/a/l")];
    let b = || vec![WalkEntry::Unreadable, found(EntryKind::File, "/b")];
    let mut both = a();
    both.extend(b());
    let mut expected = plain(generate_paths(a()));
    expected.extend(plain(generate_paths(b())));
    assert_eq!(plain(generate_paths(both)), expected);
}

#[test]
fn the_whitelist_has_the_paths_of_all_files() {
    let files = generate_paths(vec![
        found(EntryKind::Dir, "/s"),
        found(EntryKind::Symlink, "/s/link"),
        found(EntryKind::File, "/s//f"),
        found(EntryKind::Dir, "/s"),
    ]);
    assert_eq!(
        whitelist_paths(&files),
        vec![b"/s".to_vec(), b"/s//f".to_vec(), b"/s".to_vec()]
    );
    assert!(whitelist_paths(&vec![]).is_empty());
}
