use acid_state::{Codec, Ledger, NoteMap, Register, Table};

#[test]
fn ledger_round_trip() {
    let mut m = NoteMap::new();
    m.insert(31, "yo");
    m.insert(0, "");
    let led = Ledger { i: 5, m };
    let back = Ledger::decode(&led.encode()).unwrap();
    assert_eq!(back.i, 5);
    assert_eq!(back.m.get(31).map(|s| s.as_str()), Some("yo"));
    assert_eq!(back.m.get(0).map(|s| s.as_str()), Some(""));
    assert_eq!(back.m.get(7), None);
}

#[test]
fn ledger_decode_rejects_bad_input() {
    assert!(Ledger::decode(&[0; 12]).is_none()); // too short for both counters
    let led = Ledger { i: 1, m: NoteMap::new() };
    let mut bytes = led.encode();
    bytes.push(9); // trailing byte: every byte must be consumed
    assert!(Ledger::decode(&bytes).is_none());
}

#[test]
fn note_map_latest_binding_wins() {
    let mut m = NoteMap::new();
    m.insert(1, "first");
    m.insert(1, "second");
    assert_eq!(m.get(1).map(|s| s.as_str()), Some("second"));
}

#[test]
fn u64_round_trip() {
    for x in [0u64, 1, 255, 256, u64::MAX] {
        let bytes = x.encode();
        assert_eq!(u64::decode(&bytes), Some(x));
    }
}

#[test]
fn u64_exact_bytes() {
    assert_eq!(1u64.encode(), vec![1, 0, 0, 0, 0, 0, 0, 0]);
    assert_eq!(0x0102_0304_0506_0708u64.encode(), vec![8, 7, 6, 5, 4, 3, 2, 1]);
}

#[test]
fn u64_decode_rejects_wrong_length() {
    assert_eq!(u64::decode(&[]), None);
    assert_eq!(u64::decode(&[1, 2, 3]), None);
    assert_eq!(u64::decode(&[0; 9]), None);
}

#[test]
fn register_round_trip() {
    let r = Register { v: 42 };
    assert_eq!(Register::decode(&r.encode()), Some(r));
}

#[test]
fn table_round_trip() {
    let mut t = Table::new();
    t.insert("yo", 5);
    t.insert("", 0); // the empty key is a key like any other
    t.insert("counter", u64::MAX);
    let back = Table::decode(&t.encode()).unwrap();
    assert_eq!(back.get("yo"), Some(5));
    assert_eq!(back.get(""), Some(0));
    assert_eq!(back.get("counter"), Some(u64::MAX));
    assert_eq!(back.get("missing"), None);
}

#[test]
fn empty_table_round_trip() {
    let t = Table::new();
    let bytes = t.encode();
    assert_eq!(bytes, vec![0; 8]); // just the entry count
    assert!(Table::decode(&bytes).is_some());
}

#[test]
fn table_exact_bytes() {
    let mut t = Table::new();
    t.insert("yo", 5);
    let mut expected = vec![1, 0, 0, 0, 0, 0, 0, 0]; // one entry
    expected.extend([2, 0, 0, 0, 0, 0, 0, 0]); // key length
    expected.extend(*b"yo");
    expected.extend([5, 0, 0, 0, 0, 0, 0, 0]); // counter
    assert_eq!(t.encode(), expected);
}

#[test]
fn table_decode_rejects_bad_input() {
    assert_eq!(Table::decode(&[]).map(|t| t.entries), None); // no count
    assert_eq!(Table::decode(&[1, 0, 0, 0, 0, 0, 0, 0]).map(|t| t.entries), None); // truncated entry
    let mut t = Table::new();
    t.insert("yo", 5);
    let mut bytes = t.encode();
    bytes.push(0); // trailing byte: every byte must be consumed
    assert!(Table::decode(&bytes).is_none());
    let mut bytes = t.encode();
    bytes[16] = 0xc3; // a non-ASCII byte inside the key
    assert!(Table::decode(&bytes).is_none());
}

#[test]
fn table_latest_binding_wins() {
    let mut t = Table::new();
    t.insert("k", 1);
    t.insert("k", 2);
    assert_eq!(t.get("k"), Some(2));
}

#[test]
fn table_validity_is_decidable() {
    let mut t = Table::new();
    t.insert("ascii", 1);
    assert!(t.is_valid());
    let bad = Table { entries: vec![("caf\u{e9}".to_owned(), 1)] };
    assert!(!bad.is_valid());
}
