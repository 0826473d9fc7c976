use shatree::sha_state::{DiffResult, ShaState};
use shatree::store::ShaSet;

fn sha(tag: u8) -> Vec<u8> {
    let mut v = vec![0u8; 20];
    v[0] = tag;
    v
}

#[test]
fn first_scan_of_a_file_is_added_with_zero_counters() {
    let mut set = ShaSet::new();
    let r = set.add(ShaState::new(b"/top/a.txt".to_vec(), sha(1), 100));
    assert_eq!(r, DiffResult::Added);
    let e = set.get(b"/top/a.txt").unwrap();
    assert_eq!(e.t_deltas, 0);
    assert_eq!(e.sha_deltas, 0);
    assert_eq!(e.mtime, 100);
    assert_eq!(e.sha, sha(1));
}

#[test]
fn scenario_added_same_shadiff_timediff() {
    let mut set = ShaSet::new();
    let path = b"/top/a.txt".to_vec();

    // content "x" (hash H1) against an empty snapshot
    let r = set.add(ShaState::new(path.clone(), sha(1), 100));
    assert_eq!(r, DiffResult::Added);

    // unchanged rerun
    let r = set.add(ShaState::new(path.clone(), sha(1), 100));
    assert_eq!(r, DiffResult::Same);
    let e = set.get(&path).unwrap();
    assert_eq!((e.sha_deltas, e.t_deltas), (0, 0));

    // content edited to hash H2, mtime unchanged
    let r = set.add(ShaState::new(path.clone(), sha(2), 100));
    assert_eq!(r, DiffResult::ShaDiff);
    let e = set.get(&path).unwrap();
    assert_eq!((e.sha_deltas, e.t_deltas), (1, 0));

    // mtime touched only, hash unchanged
    let r = set.add(ShaState::new(path.clone(), sha(2), 200));
    assert_eq!(r, DiffResult::TimeDiff);
    let e = set.get(&path).unwrap();
    assert_eq!((e.sha_deltas, e.t_deltas), (1, 1));
}

#[test]
fn both_changed_bumps_both_counters() {
    let mut set = ShaSet::new();
    let path = b"/f".to_vec();
    set.add(ShaState::new(path.clone(), sha(1), 1));
    let r = set.add(ShaState::new(path.clone(), sha(2), 2));
    assert_eq!(r, DiffResult::BothDiff);
    let e = set.get(&path).unwrap();
    assert_eq!((e.sha_deltas, e.t_deltas), (1, 1));
    assert_eq!(e.sha, sha(2));
    assert_eq!(e.mtime, 2);
}

#[test]
fn repeating_the_same_update_never_moves_counters() {
    let mut set = ShaSet::new();
    let path = b"/f".to_vec();
    set.add(ShaState::new(path.clone(), sha(9), 42));
    for _ in 0..5 {
        let r = set.add(ShaState::new(path.clone(), sha(9), 42));
        assert_eq!(r, DiffResult::Same);
        let e = set.get(&path).unwrap();
        assert_eq!((e.sha_deltas, e.t_deltas), (0, 0));
    }
}

#[test]
fn counters_equal_transition_counts_over_a_sequence() {
    let mut set = ShaSet::new();
    let path = b"/f".to_vec();
    // (hash tag, mtime) observations after the first insertion
    let first = (1u8, 10u64);
    let updates = [(1u8, 10u64), (2, 10), (2, 11), (3, 12), (3, 12), (1, 12)];
    set.add(ShaState::new(path.clone(), sha(first.0), first.1));
    let mut prev = first;
    let mut sha_changes = 0u64;
    let mut time_changes = 0u64;
    for &(h, t) in updates.iter() {
        set.add(ShaState::new(path.clone(), sha(h), t));
        if h != prev.0 {
            sha_changes += 1;
        }
        if t != prev.1 {
            time_changes += 1;
        }
        prev = (h, t);
    }
    let e = set.get(&path).unwrap();
    assert_eq!(e.sha_deltas, sha_changes);
    assert_eq!(e.t_deltas, time_changes);
    assert_eq!(sha_changes, 3);
    assert_eq!(time_changes, 2);
}

#[test]
fn two_paths_with_identical_content_are_independent() {
    let mut set = ShaSet::new();
    let a = b"/top/a".to_vec();
    let b = b"/top/b".to_vec();
    assert_eq!(set.add(ShaState::new(a.clone(), sha(7), 5)), DiffResult::Added);
    assert_eq!(set.add(ShaState::new(b.clone(), sha(7), 5)), DiffResult::Added);
    assert_eq!(set.len(), 2);
    // change only one of them
    assert_eq!(set.add(ShaState::new(a.clone(), sha(8), 5)), DiffResult::ShaDiff);
    let ea = set.get(&a).unwrap();
    assert_eq!(ea.sha_deltas, 1);
    let eb = set.get(&b).unwrap();
    assert_eq!(eb.sha_deltas, 0);
    assert_eq!(eb.sha, sha(7));
}

#[test]
fn entries_stay_sorted_by_path_whatever_the_arrival_order() {
    let mut set = ShaSet::new();
    set.add(ShaState::new(b"/c".to_vec(), sha(1), 1));
    set.add(ShaState::new(b"/a".to_vec(), sha(2), 1));
    set.add(ShaState::new(b"/b/x".to_vec(), sha(3), 1));
    set.add(ShaState::new(b"/b".to_vec(), sha(4), 1));
    let paths: Vec<&[u8]> = set.entries.iter().map(|e| e.path.as_slice()).collect();
    assert_eq!(paths, vec![&b"/a"[..], &b"/b"[..], &b"/b/x"[..], &b"/c"[..]]);
}

#[test]
fn snapshot_insert_keeps_counters_and_first_entry() {
    let mut set = ShaSet::new();
    let mut first = ShaState::new(b"/x".to_vec(), sha(1), 10);
    first.t_deltas = 4;
    first.sha_deltas = 2;
    set.insert_if_absent(first);
    // a second entry for the same path is ignored
    set.insert_if_absent(ShaState::new(b"/x".to_vec(), sha(9), 99));
    assert_eq!(set.len(), 1);
    let e = set.get(b"/x").unwrap();
    assert_eq!((e.t_deltas, e.sha_deltas, e.mtime), (4, 2, 10));
    assert_eq!(e.sha, sha(1));
}

#[test]
fn lookup_of_an_unknown_path_finds_nothing() {
    let mut set = ShaSet::new();
    set.add(ShaState::new(b"/a".to_vec(), sha(1), 1));
    assert!(set.get(b"/zzz").is_none());
    assert!(set.get(b"").is_none());
}
