use shatree::digest::{hash_bytes, HashAccum};
use shatree::hex::hex_encode;
use shatree::sha_state::DiffResult;
use shatree::stats::Stats;

fn hex_of(bytes: &[u8]) -> String {
    String::from_utf8(hex_encode(bytes)).unwrap()
}

#[test]
fn the_digest_of_nothing_is_the_known_constant() {
    let (digest, size) = hash_bytes(b"");
    assert_eq!(size, 0);
    assert_eq!(hex_of(&digest), "da39a3ee5e6b4b0d3255bfef95601890afd80709");
}

#[test]
fn the_digest_of_abc_is_the_known_constant() {
    let (digest, size) = hash_bytes(b"abc");
    assert_eq!(size, 3);
    assert_eq!(hex_of(&digest), "a9993e364706816aba3e25717850c26c9cd0d89d");
}

#[test]
fn feeding_in_chunks_equals_feeding_at_once() {
    let mut acc = HashAccum::new();
    acc.update(b"a");
    acc.update(b"");
    acc.update(b"bc");
    assert_eq!(acc.total_bytes(), 3);
    let (whole, _) = hash_bytes(b"abc");
    assert_eq!(acc.finish(), whole);
}

#[test]
fn different_content_gives_different_digests() {
    let (d1, _) = hash_bytes(b"abc");
    let (d2, _) = hash_bytes(b"abd");
    assert_ne!(d1, d2);
    assert_eq!(d1.len(), 20);
    assert_eq!(d2.len(), 20);
}

#[test]
fn stats_accumulate_files_and_bytes() {
    let mut s = Stats::new();
    s.record_file(100);
    s.record_file(2048);
    assert_eq!(s.fc, 2);
    assert_eq!(s.bc, 2148);
    assert_eq!(s.gigabytes(), 0);
    s.record_file(3 * 1024 * 1024 * 1024);
    assert_eq!(s.gigabytes(), 3);
}

#[test]
fn only_changes_carry_a_warning_label() {
    assert_eq!(DiffResult::Added.label(), None);
    assert_eq!(DiffResult::Same.label(), None);
    assert_eq!(DiffResult::ShaDiff.label(), Some("SHA CHANGE"));
    assert_eq!(DiffResult::TimeDiff.label(), Some("TIME CHANGE"));
    assert_eq!(DiffResult::BothDiff.label(), Some("SHA TIME CHANGE"));
}
