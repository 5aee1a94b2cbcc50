use quorum::kv_store::{Command, KvStore};
use quorum::log::LogEntry;
use quorum::snapshot::{decode_snapshot, encode_snapshot, SnapshotError, SnapshotMetadata};
use quorum::wal::{replay, truncate_from, whole_records, write_record, WalError};

fn entry(term: u64, index: u64, command: &[u8]) -> LogEntry {
    LogEntry { term, index, command: command.to_vec() }
}

fn indices(entries: &[LogEntry]) -> Vec<u64> {
    entries.iter().map(|e| e.index).collect()
}

#[test]
fn a_record_is_a_length_and_an_entry() {
    let mut file = Vec::new();
    write_record(&mut file, &entry(1, 2, b"x")).unwrap();
    let payload = bincode::serialize(&(1u64, 2u64, vec![b'x'])).unwrap();
    assert_eq!(payload.len(), 25);
    assert_eq!(file[..4], [25, 0, 0, 0]);
    assert_eq!(file[4..], payload[..]);
}

#[test]
fn replay_returns_what_was_written() {
    let mut file = Vec::new();
    assert!(replay(&file).unwrap().is_empty());
    write_record(&mut file, &entry(1, 1, b"one")).unwrap();
    write_record(&mut file, &entry(1, 2, b"")).unwrap();
    write_record(&mut file, &entry(2, 3, b"three")).unwrap();
    let entries = replay(&file).unwrap();
    assert_eq!(indices(&entries), vec![1, 2, 3]);
    assert_eq!(entries[2].term, 2);
    assert_eq!(entries[2].command, b"three".to_vec());
}

#[test]
fn a_torn_record_is_noticed() {
    let mut file = Vec::new();
    write_record(&mut file, &entry(1, 1, b"one")).unwrap();
    let whole = file.len();
    write_record(&mut file, &entry(1, 2, b"two")).unwrap();
    for cut in whole + 4..file.len() {
        assert!(matches!(replay(&file[..cut]), Err(WalError::Truncated)));
    }
    for cut in whole..whole + 4 {
        assert_eq!(indices(&replay(&file[..cut]).unwrap()), vec![1]);
    }
}

#[test]
fn whole_records_end_before_a_torn_length() {
    let mut file = Vec::new();
    assert_eq!(whole_records(&file).unwrap(), 0);
    write_record(&mut file, &entry(1, 1, b"one")).unwrap();
    let whole = file.len();
    write_record(&mut file, &entry(1, 2, b"two")).unwrap();
    assert_eq!(whole_records(&file).unwrap(), file.len());
    for cut in whole..whole + 4 {
        assert_eq!(whole_records(&file[..cut]).unwrap(), whole);
    }
    for cut in whole + 4..file.len() {
        assert!(matches!(whole_records(&file[..cut]), Err(WalError::Truncated)));
    }
    assert!(matches!(whole_records(&[1, 0, 0, 0, 7]), Err(WalError::Codec(_))));
}

#[test]
fn what_is_appended_after_stray_bytes_are_cut_can_be_read_back() {
    let mut file = Vec::new();
    write_record(&mut file, &entry(1, 1, b"one")).unwrap();
    for stray in 1..4 {
        let mut torn = file.clone();
        torn.extend(vec![7u8; stray]);
        assert_eq!(indices(&replay(&torn).unwrap()), vec![1]);
        let end = whole_records(&torn).unwrap();
        torn.truncate(end);
        write_record(&mut torn, &entry(1, 2, b"two")).unwrap();
        assert_eq!(indices(&replay(&torn).unwrap()), vec![1, 2]);
    }
}

#[test]
fn a_record_that_is_no_entry_is_corrupt() {
    assert!(matches!(replay(&[1, 0, 0, 0, 7]), Err(WalError::Codec(_))));
    assert!(matches!(truncate_from(&[1, 0, 0, 0, 7], 1), Err(WalError::Codec(_))));
    assert!(matches!(truncate_from(&[9, 0, 0, 0, 7], 1), Err(WalError::Truncated)));
}

#[test]
fn truncation_keeps_the_beginning() {
    let mut file = Vec::new();
    for index in 1..=4 {
        write_record(&mut file, &entry(1, index, b"x")).unwrap();
    }
    let kept = truncate_from(&file, 3).unwrap();
    assert_eq!(indices(&replay(&kept).unwrap()), vec![1, 2]);
    assert_eq!(kept[..], file[..kept.len()]);
    assert!(truncate_from(&file, 0).unwrap().is_empty());
    assert_eq!(truncate_from(&file, 9).unwrap(), file);
    let mut extended = kept;
    write_record(&mut extended, &entry(2, 3, b"y")).unwrap();
    assert_eq!(indices(&replay(&extended).unwrap()), vec![1, 2, 3]);
}

#[test]
fn snapshots_round_trip() {
    let mut store = KvStore::new();
    store.apply(&Command::Put { key: "a".into(), value: vec![1, 2] });
    store.apply(&Command::Put { key: "b".into(), value: vec![] });
    let metadata = SnapshotMetadata { last_included_index: 7, last_included_term: 3 };
    let bytes = encode_snapshot(metadata, &store).unwrap();
    let (read, state) = decode_snapshot(&bytes).unwrap();
    assert_eq!(read, metadata);
    assert_eq!(state.len(), 2);
    assert_eq!(state.get("a"), Some(&vec![1, 2]));
    assert_eq!(state.get("b"), Some(&vec![]));
}

#[test]
fn a_snapshot_is_laid_out_in_order() {
    let mut store = KvStore::new();
    store.apply(&Command::Put { key: "k".into(), value: vec![5] });
    let metadata = SnapshotMetadata { last_included_index: 1, last_included_term: 2 };
    let bytes = encode_snapshot(metadata, &store).unwrap();
    let pairs = vec![("k".to_string(), vec![5u8])];
    assert_eq!(bytes, bincode::serialize(&((1u64, 2u64), pairs)).unwrap());
}

#[test]
fn a_cut_snapshot_is_refused() {
    let mut store = KvStore::new();
    store.apply(&Command::Put { key: "k".into(), value: vec![5] });
    let metadata = SnapshotMetadata { last_included_index: 1, last_included_term: 2 };
    let bytes = encode_snapshot(metadata, &store).unwrap();
    for cut in 0..bytes.len() {
        assert!(matches!(decode_snapshot(&bytes[..cut]), Err(SnapshotError::Codec(_))));
    }
}
