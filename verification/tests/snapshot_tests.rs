use staged_kv::action::Action;
use staged_kv::codec::{decode_snapshot, encode_snapshot};
use staged_kv::server::{Server, SnapshotError};

fn le64(n: u64) -> Vec<u8> {
    let mut out = Vec::new();
    for i in 0..8 {
        out.push(((n >> (8 * i)) & 0xff) as u8);
    }
    out
}

#[test]
fn empty_state_encodes_to_two_zero_counts() {
    let bytes = encode_snapshot(&Vec::new(), &Vec::new());
    assert_eq!(bytes, vec![0u8; 16]);
}

#[test]
fn exact_layout_of_one_entry_and_one_action() {
    let entries = vec![("a".to_string(), "b".to_string())];
    let acts = vec![Action::Delete("c".to_string())];
    let bytes = encode_snapshot(&entries, &acts);
    let mut expected = Vec::new();
    expected.extend(le64(1)); // entry count
    expected.extend(le64(1)); // key length
    expected.push(b'a');
    expected.extend(le64(1)); // value length
    expected.push(b'b');
    expected.extend(le64(1)); // action count
    expected.push(1); // delete tag
    expected.extend(le64(1)); // key length
    expected.push(b'c');
    assert_eq!(bytes, expected);
}

#[test]
fn set_action_layout_carries_tag_key_and_value() {
    let acts = vec![Action::SetValue("k".to_string(), "vv".to_string())];
    let bytes = encode_snapshot(&Vec::new(), &acts);
    let mut expected = Vec::new();
    expected.extend(le64(0)); // entry count
    expected.extend(le64(1)); // action count
    expected.push(0); // set tag
    expected.extend(le64(1));
    expected.push(b'k');
    expected.extend(le64(2));
    expected.extend(b"vv".to_vec());
    assert_eq!(bytes, expected);
}

#[test]
fn decode_inverts_encode() {
    let entries = vec![
        ("alpha".to_string(), "1".to_string()),
        ("beta".to_string(), "two".to_string()),
    ];
    let acts = vec![
        Action::SetValue("gamma".to_string(), "3".to_string()),
        Action::Delete("alpha".to_string()),
    ];
    let bytes = encode_snapshot(&entries, &acts);
    let (dec_entries, dec_acts) = decode_snapshot(&bytes).expect("round trip decodes");
    assert_eq!(dec_entries, entries);
    assert_eq!(dec_acts, acts);
}

#[test]
fn decode_survives_non_ascii_strings() {
    let entries = vec![("schlüssel".to_string(), "wert — ünïcode".to_string())];
    let acts = vec![Action::SetValue("κλειδί".to_string(), "τιμή".to_string())];
    let bytes = encode_snapshot(&entries, &acts);
    let (dec_entries, dec_acts) = decode_snapshot(&bytes).expect("round trip decodes");
    assert_eq!(dec_entries, entries);
    assert_eq!(dec_acts, acts);
}

#[test]
fn truncated_snapshot_is_rejected() {
    assert!(decode_snapshot(&[1, 0, 0]).is_none());
    let bytes = encode_snapshot(
        &vec![("a".to_string(), "b".to_string())],
        &Vec::new(),
    );
    assert!(decode_snapshot(&bytes[..bytes.len() - 1]).is_none());
}

#[test]
fn trailing_bytes_are_rejected() {
    let mut bytes = encode_snapshot(&Vec::new(), &Vec::new());
    assert!(decode_snapshot(&bytes).is_some());
    bytes.push(0);
    assert!(decode_snapshot(&bytes).is_none());
}

#[test]
fn unknown_action_tag_is_rejected() {
    let mut bytes = Vec::new();
    bytes.extend(le64(0)); // entry count
    bytes.extend(le64(1)); // action count
    bytes.push(2); // no such tag
    bytes.extend(le64(1));
    bytes.push(b'k');
    assert!(decode_snapshot(&bytes).is_none());
}

#[test]
fn invalid_utf8_key_is_rejected() {
    let mut bytes = Vec::new();
    bytes.extend(le64(1)); // entry count
    bytes.extend(le64(1)); // key length
    bytes.push(0xff); // not UTF-8
    bytes.extend(le64(0)); // value length
    bytes.extend(le64(0)); // action count
    assert!(decode_snapshot(&bytes).is_none());
}

#[test]
fn snapshot_drains_queue_and_keeps_store() {
    let mut s = Server::new();
    s.stage_set("a".to_string(), "1".to_string());
    s.commit();
    s.stage_set("b".to_string(), "2".to_string());
    let bytes = s.snapshot();
    // The queue was consumed in the course of encoding; the store was not.
    assert_eq!(s.read("a"), Some("1".to_string()));
    assert_eq!(s.read("b"), None);
    s.commit();
    assert_eq!(s.read("b"), None);
    // The pending action went into the snapshot, not into the void.
    let (_, acts) = decode_snapshot(&bytes).expect("snapshot decodes");
    assert_eq!(acts, vec![Action::SetValue("b".to_string(), "2".to_string())]);
}

#[test]
fn restore_rebuilds_entries_and_pending_actions() {
    let mut s = Server::new();
    s.stage_set("a".to_string(), "1".to_string());
    s.stage_set("b".to_string(), "2".to_string());
    s.commit();
    s.stage_delete("a".to_string());
    let bytes = s.snapshot();

    let mut restored = Server::restore(&bytes).expect("well-formed snapshot restores");
    assert_eq!(restored.read("a"), Some("1".to_string()));
    assert_eq!(restored.read("b"), Some("2".to_string()));
    // The pending delete survived the round trip and still applies.
    restored.commit();
    assert_eq!(restored.read("a"), None);
    assert_eq!(restored.read("b"), Some("2".to_string()));
}

#[test]
fn restore_of_empty_snapshot_is_a_fresh_server() {
    let bytes = encode_snapshot(&Vec::new(), &Vec::new());
    let s = Server::restore(&bytes).expect("empty snapshot restores");
    assert_eq!(s.read("anything"), None);
}

#[test]
fn restore_of_malformed_bytes_fails() {
    assert!(matches!(Server::restore(&[7, 7, 7]), Err(SnapshotError::Malformed)));
}
