use smg_core::crdt_kv::epoch_max_wins::{decode, encode, EpochCount, RateLimitVersion};
use smg_core::crdt_kv::merge_strategy::MergeStrategy;
use smg_core::crdt_kv::operation::Operation;
use smg_core::crdt_kv::operation_log::{
    copy_operations, decode_counter_payload, sort_by_version, OperationLog, AUTO_COMPACT_THRESHOLD,
};
use smg_core::crdt_kv::replica::ReplicaId;

fn insert(key: &str, value: &[u8], timestamp: u64) -> Operation {
    Operation::insert(key.to_string(), value.to_vec(), timestamp, ReplicaId { bits: 1 })
}

fn last_writer(_: &str) -> MergeStrategy {
    MergeStrategy::LastWriterWins
}

fn by_prefix(key: &str) -> MergeStrategy {
    if key.starts_with("rl:") {
        MergeStrategy::EpochMaxWins
    } else {
        MergeStrategy::LastWriterWins
    }
}

#[test]
fn log_bytes_round_trip() {
    let mut log = OperationLog::new();
    log.append(insert("a", b"x", 1));
    log.append(Operation::remove("b".to_string(), 2, ReplicaId { bits: u128::MAX }));
    let data = log.to_bytes().expect("serializes");
    let back = OperationLog::from_bytes(&data).expect("deserializes");
    assert_eq!(back.operations(), log.operations());
    assert!(OperationLog::from_bytes(&data[..data.len() - 1]).is_err());
    assert!(OperationLog::from_bytes(&[]).is_err());
}

#[test]
fn compaction_keeps_the_latest_of_each_key() {
    let mut log = OperationLog::from_operations(vec![
        insert("a", b"1", 1),
        insert("b", b"2", 2),
        insert("a", b"3", 3),
    ]);
    log.compact_with_strategy(&last_writer);
    let ops = sort_by_version(&copy_operations(log.operations()));
    assert_eq!(ops, vec![insert("b", b"2", 2), insert("a", b"3", 3)]);
}

#[test]
fn compaction_merges_rate_limit_keys() {
    let mut log = OperationLog::from_operations(vec![
        insert("rl:k", &encode(6, 10), 1),
        insert("rl:k", &encode(5, 100), 2),
    ]);
    log.compact_with_strategy(&by_prefix);
    assert_eq!(log.len(), 1);
    match &log.operations()[0] {
        Operation::Insert { value, timestamp, .. } => {
            assert_eq!(*timestamp, 2);
            assert_eq!(decode(value), Some(EpochCount { epoch: 6, count: 10 }));
        }
        Operation::Remove { .. } => panic!("a live shard is left"),
    }
}

#[test]
fn merge_adds_only_what_is_unknown() {
    let mut a = OperationLog::from_operations(vec![insert("a", b"1", 1)]);
    let b = OperationLog::from_operations(vec![insert("a", b"1", 1), insert("b", b"2", 2)]);
    a.merge_with_strategy(&b, &last_writer);
    assert_eq!(a.len(), 2);
    assert!(a.knows(RateLimitVersion::new(2, ReplicaId { bits: 1 })));
    a.merge_with_strategy(&b, &last_writer);
    assert_eq!(a.len(), 2);
    assert!(!a.knows(RateLimitVersion::new(3, ReplicaId { bits: 1 })));
}

#[test]
fn log_is_compacted_at_the_threshold() {
    let mut log = OperationLog::default();
    assert!(log.is_empty());
    for i in 0..AUTO_COMPACT_THRESHOLD as u64 {
        log.append_with_strategy(insert("a", b"x", i), &last_writer);
    }
    assert_eq!(log.len(), AUTO_COMPACT_THRESHOLD);
    log.append_with_strategy(insert("a", b"y", AUTO_COMPACT_THRESHOLD as u64), &last_writer);
    assert_eq!(log.operations(), &[insert("a", b"y", AUTO_COMPACT_THRESHOLD as u64)]);
}

#[test]
fn old_operations_are_dropped_up_to_a_watermark() {
    let mut log = OperationLog::from_operations(vec![insert("a", b"1", 1), insert("b", b"2", 2)]);
    log.compact_up_to(1);
    assert_eq!(log.operations(), &[insert("b", b"2", 2)]);
}

#[test]
fn snapshot_gives_the_latest_of_each_key() {
    let mut log = OperationLog::from_operations(vec![
        insert("a", b"1", 1),
        insert("a", b"3", 3),
        insert("b", b"2", 2),
    ]);
    let mut snapshot = log.snapshot_and_truncate(&last_writer);
    snapshot.sort_by(|x, y| x.0.cmp(&y.0));
    assert_eq!(
        snapshot,
        vec![
            ("a".to_string(), insert("a", b"3", 3)),
            ("b".to_string(), insert("b", b"2", 2)),
        ]
    );
    assert!(log.is_empty());
}

#[test]
fn counters_are_read_from_the_latest_write() {
    let mut log = OperationLog::new();
    log.append(insert("a", &7i64.to_le_bytes(), 1));
    log.append(insert("a", &(-9i64).to_le_bytes(), 2));
    log.append(insert("b", &3i64.to_le_bytes(), 3));
    assert_eq!(log.latest_counter_value("a"), Some(-9));
    assert_eq!(log.latest_counter_value("c"), None);
    assert_eq!(log.latest_counter_value_any(), Some(3));
    assert_eq!(decode_counter_payload(&5i64.to_le_bytes()), Some(5));
    assert_eq!(decode_counter_payload(&[1, 2, 3]), None);
}

#[test]
fn sorting_is_stable_by_version() {
    let ops = vec![insert("b", b"2", 2), insert("x", b"1", 1), insert("y", b"1", 1)];
    let sorted = sort_by_version(&ops);
    assert_eq!(sorted, vec![insert("x", b"1", 1), insert("y", b"1", 1), insert("b", b"2", 2)]);
}

#[test]
fn log_has_the_expected_layout() {
    let id = ReplicaId { bits: 0x0102_0304_0506_0708_090a_0b0c_0d0e_0f10 };
    let log = OperationLog::from_operations(vec![
        Operation::insert("ab".to_string(), vec![7], 5, id),
        Operation::remove("c".to_string(), 6, id),
    ]);
    let uuid: Vec<u8> = (1..=16).collect();
    let mut expected: Vec<u8> = Vec::new();
    expected.extend(2u64.to_le_bytes());
    expected.extend(0u32.to_le_bytes());
    expected.extend(2u64.to_le_bytes());
    expected.extend(b"ab");
    expected.extend(1u64.to_le_bytes());
    expected.push(7);
    expected.extend(5u64.to_le_bytes());
    expected.extend(16u64.to_le_bytes());
    expected.extend(&uuid);
    expected.extend(1u32.to_le_bytes());
    expected.extend(1u64.to_le_bytes());
    expected.extend(b"c");
    expected.extend(6u64.to_le_bytes());
    expected.extend(16u64.to_le_bytes());
    expected.extend(&uuid);
    assert_eq!(log.to_bytes().unwrap(), expected);
    // A replica id of another length is no replica id.
    let at = expected.len() - 24;
    expected[at] = 15;
    assert!(OperationLog::from_bytes(&expected).is_err());
}
