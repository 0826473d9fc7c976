use shatree::decimal::{parse_decimal, to_decimal};
use shatree::hex::{hex_decode, hex_encode};
use shatree::sha_state::{parse_line, ShaState};
use shatree::store::ShaSet;

fn sha(tag: u8) -> Vec<u8> {
    let mut v = vec![0u8; 20];
    v[0] = tag;
    v
}

#[test]
fn hex_encodes_lowercase_two_digits_per_byte() {
    assert_eq!(hex_encode(&[]), b"".to_vec());
    assert_eq!(hex_encode(&[0x00, 0xab, 0xff, 0x1a]), b"00abff1a".to_vec());
}

#[test]
fn hex_decode_inverts_encode() {
    let bytes: Vec<u8> = (0u8..=255).collect();
    let enc = hex_encode(&bytes);
    assert_eq!(hex_decode(&enc), Some(bytes));
}

#[test]
fn hex_decode_rejects_odd_length_and_bad_digits() {
    assert_eq!(hex_decode(b"abc"), None);
    assert_eq!(hex_decode(b"AB"), None); // uppercase is not the snapshot form
    assert_eq!(hex_decode(b"0g"), None);
    assert_eq!(hex_decode(b""), Some(vec![]));
}

#[test]
fn decimal_round_trip_and_limits() {
    assert_eq!(to_decimal(0), b"0".to_vec());
    assert_eq!(to_decimal(1234567890), b"1234567890".to_vec());
    assert_eq!(to_decimal(u64::MAX), b"18446744073709551615".to_vec());
    assert_eq!(parse_decimal(b"0"), Some(0));
    assert_eq!(parse_decimal(b"007"), Some(7));
    assert_eq!(parse_decimal(b"18446744073709551615"), Some(u64::MAX));
    assert_eq!(parse_decimal(b"18446744073709551616"), None);
    assert_eq!(parse_decimal(b""), None);
    assert_eq!(parse_decimal(b"12a"), None);
    assert_eq!(parse_decimal(b"-1"), None);
}

#[test]
fn a_line_holds_the_five_nul_separated_fields() {
    let e = ShaState::new(b"/top/a.txt".to_vec(), vec![0xab; 20], 1234);
    let line = e.to_line();
    let mut expected = Vec::new();
    expected.extend_from_slice(b"/top/a.txt");
    expected.push(0);
    expected.extend_from_slice("ab".repeat(20).as_bytes());
    expected.push(0);
    expected.extend_from_slice(b"1234");
    expected.push(0);
    expected.extend_from_slice(b"0");
    expected.push(0);
    expected.extend_from_slice(b"0");
    assert_eq!(line, expected);
}

#[test]
fn a_line_parses_back_to_its_entry() {
    let e = ShaState::new(b"/top/a.txt".to_vec(), sha(3), 99);
    let line = e.to_line();
    let p = parse_line(&line).unwrap();
    assert_eq!(p.path, e.path);
    assert_eq!(p.sha, e.sha);
    assert_eq!(p.mtime, 99);
    assert_eq!(p.t_deltas, 0);
    assert_eq!(p.sha_deltas, 0);
}

#[test]
fn malformed_lines_do_not_parse() {
    assert!(parse_line(b"").is_none());
    assert!(parse_line(b"no separators at all").is_none());
    assert!(parse_line(b"p\x00deadbeef\x001\x002\x003").is_none()); // digest not 40 digits
    let hx = "ab".repeat(20);
    assert!(parse_line(format!("p\x00{}\x00x\x002\x003", hx).as_bytes()).is_none()); // bad mtime
    assert!(parse_line(format!("p\x00{}\x001\x002", hx).as_bytes()).is_none()); // four fields
    assert!(parse_line(format!("p\x00{}\x001\x002\x003\x004", hx).as_bytes()).is_none()); // six fields
    assert!(parse_line(format!("p\x00{}\x001\x002\x003", hx.to_uppercase()).as_bytes()).is_none());
}

#[test]
fn save_then_load_restores_the_store_exactly() {
    let mut set = ShaSet::new();
    set.add(ShaState::new(b"/top/b".to_vec(), sha(2), 20));
    set.add(ShaState::new(b"/top/a".to_vec(), sha(1), 10));
    set.add(ShaState::new(b"/top/c c".to_vec(), sha(3), 30));
    // give one entry nonzero counters
    set.add(ShaState::new(b"/top/b".to_vec(), sha(9), 21));
    let bytes = set.snapshot_bytes();
    let loaded = ShaSet::from_snapshot(&bytes);
    assert_eq!(loaded.len(), 3);
    for (a, b) in set.entries.iter().zip(loaded.entries.iter()) {
        assert_eq!(a.path, b.path);
        assert_eq!(a.sha, b.sha);
        assert_eq!(a.mtime, b.mtime);
        assert_eq!(a.t_deltas, b.t_deltas);
        assert_eq!(a.sha_deltas, b.sha_deltas);
    }
}

#[test]
fn an_empty_store_round_trips() {
    let set = ShaSet::new();
    let bytes = set.snapshot_bytes();
    assert_eq!(bytes, Vec::<u8>::new());
    let loaded = ShaSet::from_snapshot(&bytes);
    assert_eq!(loaded.len(), 0);
}

#[test]
fn corrupt_text_loads_as_an_empty_store() {
    let loaded = ShaSet::from_snapshot(b"this is not a snapshot\nneither is this\n");
    assert_eq!(loaded.len(), 0);
    let loaded = ShaSet::from_snapshot(&[0xff, 0xfe, 0x00, 0x0A, 0x00]);
    assert_eq!(loaded.len(), 0);
}

#[test]
fn a_bad_line_is_skipped_and_the_rest_load() {
    let good = ShaState::new(b"/ok".to_vec(), sha(5), 7).to_line();
    let mut bytes = Vec::new();
    bytes.extend_from_slice(b"garbage line\n");
    bytes.extend_from_slice(&good);
    bytes.push(b'\n');
    bytes.extend_from_slice(b"more\x00garbage\n");
    let loaded = ShaSet::from_snapshot(&bytes);
    assert_eq!(loaded.len(), 1);
    assert_eq!(loaded.entries[0].path, b"/ok".to_vec());
}

#[test]
fn the_first_line_wins_when_a_path_repeats() {
    let first = ShaState::new(b"/dup".to_vec(), sha(1), 1).to_line();
    let second = ShaState::new(b"/dup".to_vec(), sha(2), 2).to_line();
    let mut bytes = Vec::new();
    bytes.extend_from_slice(&first);
    bytes.push(b'\n');
    bytes.extend_from_slice(&second);
    bytes.push(b'\n');
    let loaded = ShaSet::from_snapshot(&bytes);
    assert_eq!(loaded.len(), 1);
    assert_eq!(loaded.entries[0].sha, sha(1));
    assert_eq!(loaded.entries[0].mtime, 1);
}
