use quorum::kv_store::{Command, CommandError, KvStore};

#[test]
fn noop_round_trips_through_encode_decode() {
    let encoded = Command::NoOp.encode().unwrap();
    let decoded = Command::decode(&encoded).unwrap();
    assert!(matches!(decoded, Command::NoOp));
}

#[test]
fn applying_noop_changes_nothing() {
    let mut store = KvStore::new();
    store.apply(&Command::Put { key: "k".into(), value: b"v".to_vec() });
    assert_eq!(store.len(), 1);

    let result = store.apply(&Command::NoOp);
    assert!(result.is_none());
    assert_eq!(store.len(), 1);
    assert_eq!(store.get("k"), Some(&b"v".to_vec()));
}

#[test]
fn commands_encode_as_a_tag_and_their_parts() {
    let put = Command::Put { key: "ab".into(), value: vec![9, 8] };
    assert_eq!(
        put.encode().unwrap(),
        vec![0, 0, 0, 0, 2, 0, 0, 0, 0, 0, 0, 0, 97, 98, 2, 0, 0, 0, 0, 0, 0, 0, 9, 8]
    );
    assert_eq!(
        put.encode().unwrap(),
        bincode::serialize(&(0u32, "ab", vec![9u8, 8u8])).unwrap()
    );
    let delete = Command::Delete { key: "é".into() };
    assert_eq!(delete.encode().unwrap(), bincode::serialize(&(1u32, "é")).unwrap());
    assert_eq!(Command::NoOp.encode().unwrap(), vec![2, 0, 0, 0]);
}

#[test]
fn commands_round_trip() {
    for (key, value) in [("", vec![]), ("k", vec![1]), ("schlüssel", vec![0, 255, 7])] {
        let put = Command::Put { key: key.to_string(), value: value.clone() };
        match Command::decode(&put.encode().unwrap()).unwrap() {
            Command::Put { key: k, value: v } => {
                assert_eq!(k, key);
                assert_eq!(v, value);
            }
            other => panic!("decoded {other:?}"),
        }
        let delete = Command::Delete { key: key.to_string() };
        match Command::decode(&delete.encode().unwrap()).unwrap() {
            Command::Delete { key: k } => assert_eq!(k, key),
            other => panic!("decoded {other:?}"),
        }
    }
}

#[test]
fn bytes_that_are_no_command_are_refused() {
    let CommandError::Encode(unknown) = Command::decode(&[3, 0, 0, 0]).unwrap_err();
    assert_eq!(
        unknown.to_string(),
        "invalid value: integer `3`, expected variant index 0 <= i < 3"
    );
    assert!(matches!(Command::decode(&[2, 0, 0]), Err(CommandError::Encode(_))));
    assert!(matches!(Command::decode(&[]), Err(CommandError::Encode(_))));
    let mut cut = Command::Put { key: "k".into(), value: vec![1, 2] }.encode().unwrap();
    cut.pop();
    assert!(matches!(Command::decode(&cut), Err(CommandError::Encode(_))));
    let not_text = vec![1, 0, 0, 0, 1, 0, 0, 0, 0, 0, 0, 0, 0xff];
    assert!(matches!(Command::decode(&not_text), Err(CommandError::Encode(_))));
}

#[test]
fn commands_displace_what_was_there() {
    let mut store = KvStore::new();
    assert!(store.is_empty());
    assert!(store.apply(&Command::Put { key: "a".into(), value: vec![1] }).is_none());
    assert_eq!(store.apply(&Command::Put { key: "a".into(), value: vec![2] }), Some(vec![1]));
    assert!(store.apply(&Command::Put { key: "b".into(), value: vec![3] }).is_none());
    assert_eq!(store.apply(&Command::Delete { key: "a".into() }), Some(vec![2]));
    assert!(store.apply(&Command::Delete { key: "a".into() }).is_none());
    assert_eq!(store.get("a"), None);
    assert_eq!(store.get("b"), Some(&vec![3]));
    assert_eq!(store.len(), 1);
    assert!(!store.is_empty());
    let copy = store.clone();
    assert_eq!(copy.get("b"), Some(&vec![3]));
    assert_eq!(copy.len(), 1);
}
