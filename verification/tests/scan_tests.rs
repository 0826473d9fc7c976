use shatree::scan::{classify_entries, scan_tree, DirNode, EntryKind, RawEntry};

fn entry(id: u64, kind: EntryKind) -> RawEntry {
    RawEntry { id, kind }
}

#[test]
fn classification_splits_files_from_directories() {
    let entries = vec![
        entry(1, EntryKind::File),
        entry(2, EntryKind::Dir),
        entry(3, EntryKind::File),
        entry(4, EntryKind::Other),
        entry(5, EntryKind::Dir),
    ];
    let (files, dirs) = classify_entries(&entries);
    assert_eq!(files, vec![1, 3]);
    assert_eq!(dirs, vec![2, 5]);
}

#[test]
fn symlinks_to_files_and_directories_are_skipped() {
    // symlinks land in neither list, so they are never hashed nor traversed,
    // even when they point at real in-tree content
    let entries = vec![
        entry(1, EntryKind::File),
        entry(2, EntryKind::Symlink),
        entry(3, EntryKind::Symlink),
        entry(4, EntryKind::Dir),
    ];
    let (files, dirs) = classify_entries(&entries);
    assert_eq!(files, vec![1]);
    assert_eq!(dirs, vec![4]);
}

#[test]
fn an_empty_listing_classifies_to_nothing() {
    let (files, dirs) = classify_entries(&Vec::new());
    assert!(files.is_empty());
    assert!(dirs.is_empty());
}

#[test]
fn scan_emits_every_reachable_file_exactly_once() {
    // 0: root with two files and two subdirectories
    // 1: empty directory
    // 2: one file, one subdirectory
    // 3: deepest directory with one file
    let tree = vec![
        DirNode { files: vec![10, 11], subdirs: vec![1, 2] },
        DirNode { files: vec![], subdirs: vec![] },
        DirNode { files: vec![12], subdirs: vec![3] },
        DirNode { files: vec![13], subdirs: vec![] },
    ];
    let mut got = scan_tree(&tree, 0);
    got.sort();
    assert_eq!(got, vec![10, 11, 12, 13]);
}

#[test]
fn scan_of_a_single_empty_directory_emits_nothing() {
    let tree = vec![DirNode { files: vec![], subdirs: vec![] }];
    let got = scan_tree(&tree, 0);
    assert!(got.is_empty());
}

#[test]
fn scan_can_start_below_the_root() {
    let tree = vec![
        DirNode { files: vec![1], subdirs: vec![1] },
        DirNode { files: vec![2], subdirs: vec![2] },
        DirNode { files: vec![3], subdirs: vec![] },
    ];
    let mut got = scan_tree(&tree, 1);
    got.sort();
    assert_eq!(got, vec![2, 3]);
}

#[test]
fn deep_nesting_terminates_and_loses_nothing() {
    // a chain of fifty directories, one file each
    let n: usize = 50;
    let mut tree = Vec::new();
    for i in 0..n {
        let subdirs = if i + 1 < n { vec![i + 1] } else { vec![] };
        tree.push(DirNode { files: vec![i as u64], subdirs });
    }
    let mut got = scan_tree(&tree, 0);
    got.sort();
    let expected: Vec<u64> = (0..n as u64).collect();
    assert_eq!(got, expected);
}
