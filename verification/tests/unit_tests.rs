//! Unit tests for the codec, key order, in-memory table, and command parser.

use kvengine::codec::{encode, decode};
use kvengine::ops::Operation;
use kvengine::keys::{compare_keys, KeyOrder};
use kvengine::memtable::InMemoryTable;
use kvengine::command::Command;

#[test]
fn codec_insert_exact_bytes() {
    let op = Operation::Insert { key: b"ab".to_vec(), val: b"c".to_vec() };
    let bytes = encode(&op);
    let mut expected = vec![1u8];
    expected.extend_from_slice(&[2, 0, 0, 0, 0, 0, 0, 0]);
    expected.extend_from_slice(b"ab");
    expected.extend_from_slice(&[1, 0, 0, 0, 0, 0, 0, 0]);
    expected.extend_from_slice(b"c");
    assert_eq!(bytes, expected);
}

#[test]
fn codec_delete_exact_bytes() {
    let op = Operation::Delete { key: b"k".to_vec() };
    let bytes = encode(&op);
    let mut expected = vec![2u8];
    expected.extend_from_slice(&[1, 0, 0, 0, 0, 0, 0, 0]);
    expected.extend_from_slice(b"k");
    assert_eq!(bytes, expected);
}

#[test]
fn codec_round_trip_insert() {
    let op = Operation::Insert { key: b"hello".to_vec(), val: b"world!".to_vec() };
    let bytes = encode(&op);
    match decode(&bytes) {
        Some(Operation::Insert { key, val }) => {
            assert_eq!(key, b"hello".to_vec());
            assert_eq!(val, b"world!".to_vec());
        },
        _ => panic!("insert did not decode"),
    }
}

#[test]
fn codec_round_trip_delete() {
    let op = Operation::Delete { key: b"gone".to_vec() };
    let bytes = encode(&op);
    match decode(&bytes) {
        Some(Operation::Delete { key }) => assert_eq!(key, b"gone".to_vec()),
        _ => panic!("delete did not decode"),
    }
}

#[test]
fn codec_round_trip_empty_key_and_value() {
    let op = Operation::Insert { key: Vec::new(), val: Vec::new() };
    let bytes = encode(&op);
    match decode(&bytes) {
        Some(Operation::Insert { key, val }) => {
            assert!(key.is_empty());
            assert!(val.is_empty());
        },
        _ => panic!("empty insert did not decode"),
    }
}

#[test]
fn codec_rejects_garbage() {
    assert!(decode(&b"xyz".to_vec()).is_none());
    assert!(decode(&Vec::new()).is_none());
    // valid tag, wrong length claim
    let mut bad = vec![2u8];
    bad.extend_from_slice(&[5, 0, 0, 0, 0, 0, 0, 0]);
    bad.extend_from_slice(b"k");
    assert!(decode(&bad).is_none());
    // unknown tag
    let mut bad_tag = vec![9u8];
    bad_tag.extend_from_slice(&[0, 0, 0, 0, 0, 0, 0, 0]);
    assert!(decode(&bad_tag).is_none());
    // trailing bytes after a well-formed delete
    let mut trailing = encode(&Operation::Delete { key: b"k".to_vec() });
    trailing.push(0);
    assert!(decode(&trailing).is_none());
}

#[test]
fn key_order_is_byte_lexicographic() {
    assert!(matches!(compare_keys(&b"a".to_vec(), &b"b".to_vec()), KeyOrder::Less));
    assert!(matches!(compare_keys(&b"b".to_vec(), &b"a".to_vec()), KeyOrder::Greater));
    assert!(matches!(compare_keys(&b"ab".to_vec(), &b"ab".to_vec()), KeyOrder::Equal));
    assert!(matches!(compare_keys(&b"a".to_vec(), &b"ab".to_vec()), KeyOrder::Less));
    assert!(matches!(compare_keys(&b"ab".to_vec(), &b"a".to_vec()), KeyOrder::Greater));
    assert!(matches!(compare_keys(&Vec::new(), &b"a".to_vec()), KeyOrder::Less));
    assert!(matches!(compare_keys(&Vec::new(), &Vec::new()), KeyOrder::Equal));
}

#[test]
fn memtable_insert_is_create_only() {
    let mut t = InMemoryTable::new();
    assert!(t.insert(&b"a".to_vec(), &b"1".to_vec()));
    assert!(!t.insert(&b"a".to_vec(), &b"2".to_vec()));
    assert_eq!(t.select(&b"a".to_vec()), Some(b"1".to_vec()));
}

#[test]
fn memtable_delete_requires_presence() {
    let mut t = InMemoryTable::new();
    assert!(!t.delete(&b"a".to_vec()));
    assert!(t.insert(&b"a".to_vec(), &b"1".to_vec()));
    assert!(t.delete(&b"a".to_vec()));
    assert_eq!(t.select(&b"a".to_vec()), None);
    assert!(!t.delete(&b"a".to_vec()));
}

#[test]
fn memtable_select_misses_absent_key() {
    let t = InMemoryTable::new();
    assert_eq!(t.select(&b"missing".to_vec()), None);
}

#[test]
fn parse_select() {
    match Command::parse(&b"select a".to_vec()) {
        Some(Command::Select { key }) => assert_eq!(key, b"a".to_vec()),
        _ => panic!("select did not parse"),
    }
    match Command::parse(&b"SELECT a".to_vec()) {
        Some(Command::Select { key }) => assert_eq!(key, b"a".to_vec()),
        _ => panic!("SELECT did not parse"),
    }
    match Command::parse(&b"SeLeCt a".to_vec()) {
        Some(Command::Select { key }) => assert_eq!(key, b"a".to_vec()),
        _ => panic!("mixed-case select did not parse"),
    }
}

#[test]
fn parse_insert_and_delete() {
    match Command::parse(&b"insert k v".to_vec()) {
        Some(Command::Insert { key, val }) => {
            assert_eq!(key, b"k".to_vec());
            assert_eq!(val, b"v".to_vec());
        },
        _ => panic!("insert did not parse"),
    }
    match Command::parse(&b"DELETE k".to_vec()) {
        Some(Command::Delete { key }) => assert_eq!(key, b"k".to_vec()),
        _ => panic!("DELETE did not parse"),
    }
}

#[test]
fn parse_dot_commands() {
    assert!(matches!(Command::parse(&b".dump".to_vec()), Some(Command::Dump)));
    assert!(matches!(Command::parse(&b".exit".to_vec()), Some(Command::Exit)));
    assert!(matches!(Command::parse(&b".compact\n".to_vec()), Some(Command::Compact)));
}

#[test]
fn parse_rejects_bad_input() {
    assert!(Command::parse(&b"bogus".to_vec()).is_none());
    assert!(Command::parse(&b"".to_vec()).is_none());
    assert!(Command::parse(&b"   ".to_vec()).is_none());
    assert!(Command::parse(&b"insert k".to_vec()).is_none());
    assert!(Command::parse(&b"select".to_vec()).is_none());
    assert!(Command::parse(&b".DUMP".to_vec()).is_none());
}

#[test]
fn parse_ignores_extra_tokens() {
    match Command::parse(&b"select a b".to_vec()) {
        Some(Command::Select { key }) => assert_eq!(key, b"a".to_vec()),
        _ => panic!("select with extra token did not parse"),
    }
}

#[test]
fn command_key_names_the_subject() {
    let c = Command::parse(&b"insert k v".to_vec()).unwrap();
    assert_eq!(c.key(), Some(&b"k".to_vec()));
    let d = Command::parse(&b".dump".to_vec()).unwrap();
    assert_eq!(d.key(), None);
}
