use operator::codec::{decode, encode, DecodeError};
use operator::MapRoleSpec;

fn mk(key: &str, user: &str, groups: &[&str]) -> MapRoleSpec {
    MapRoleSpec {
        rolearn: key.as_bytes().to_vec(),
        username: user.as_bytes().to_vec(),
        groups: groups.iter().map(|g| g.as_bytes().to_vec()).collect(),
    }
}

fn same(a: &MapRoleSpec, b: &MapRoleSpec) -> bool {
    a.rolearn == b.rolearn && a.username == b.username && a.groups == b.groups
}

#[test]
fn encode_empty_list_is_empty_text() {
    let text = encode(&Vec::new());
    assert_eq!(text, Vec::<u8>::new());
}

#[test]
fn encode_one_entry_exact_bytes() {
    let text = encode(&vec![mk("roleA", "alice", &["g1", "g2"])]);
    assert_eq!(text, b"roleA\talice\tg1,g2\n".to_vec());
}

#[test]
fn encode_entry_without_groups_exact_bytes() {
    let text = encode(&vec![mk("roleA", "alice", &[])]);
    assert_eq!(text, b"roleA\talice\t\n".to_vec());
}

#[test]
fn decode_empty_text_is_empty_list() {
    let es = decode(&Vec::new()).unwrap();
    assert_eq!(es.len(), 0);
}

#[test]
fn decode_recovers_encoded_entries() {
    let entries = vec![
        mk("roleA", "alice", &["g1"]),
        mk("roleB", "bob", &["g2", "g3"]),
        mk("roleC", "carol", &[]),
    ];
    let text = encode(&entries);
    let back = decode(&text).unwrap();
    assert_eq!(back.len(), entries.len());
    for (a, b) in back.iter().zip(entries.iter()) {
        assert!(same(a, b));
    }
}

#[test]
fn encode_restores_well_formed_text() {
    let text = b"roleA\talice\tg1\nroleB\tbob\tg2,g3\n".to_vec();
    let es = decode(&text).unwrap();
    assert_eq!(encode(&es), text);
}

#[test]
fn decode_rejects_unterminated_line() {
    assert_eq!(decode(&b"roleA\talice\tg1".to_vec()).unwrap_err(), DecodeError::Malformed);
}

#[test]
fn decode_rejects_missing_field() {
    assert_eq!(decode(&b"roleA\tg1\n".to_vec()).unwrap_err(), DecodeError::Malformed);
}

#[test]
fn decode_rejects_extra_field() {
    assert_eq!(decode(&b"roleA\talice\tg1\tmore\n".to_vec()).unwrap_err(), DecodeError::Malformed);
}

#[test]
fn decode_rejects_empty_group_name() {
    assert_eq!(decode(&b"roleA\talice\tg1,\n".to_vec()).unwrap_err(), DecodeError::Malformed);
    assert_eq!(decode(&b"roleA\talice\t,g1\n".to_vec()).unwrap_err(), DecodeError::Malformed);
    assert_eq!(decode(&b"roleA\talice\tg1,,g2\n".to_vec()).unwrap_err(), DecodeError::Malformed);
}

#[test]
fn decode_rejects_trailing_garbage() {
    assert_eq!(decode(&b"roleA\talice\tg1\nroleB".to_vec()).unwrap_err(), DecodeError::Malformed);
}

#[test]
fn round_trip_keeps_duplicate_free_lists() {
    let entries = vec![mk("roleA", "alice", &["g1"]), mk("roleB", "bob", &["g1"])];
    let text = encode(&entries);
    let back = decode(&text).unwrap();
    let text2 = encode(&back);
    assert_eq!(text, text2);
}

#[test]
fn well_formed_checks_separator_bytes() {
    assert!(mk("roleA", "alice", &["g1"]).well_formed());
    assert!(!mk("role\tA", "alice", &["g1"]).well_formed());
    assert!(!mk("roleA", "al\nice", &["g1"]).well_formed());
    assert!(!mk("roleA", "alice", &["g,1"]).well_formed());
    assert!(!mk("roleA", "alice", &[""]).well_formed());
}
