use smg_core::crdt_kv::epoch_max_wins::{
    compact_operations, compare_epoch_count, decode, decode_raw_epoch_count, decode_shard, encode,
    encode_shard, merge, state_from_insert_value, EpochCount, LivePoint, RateLimitShard,
    RateLimitState, RateLimitVersion, ValueWinner, EPOCH_MAX_WINS_ENCODED_LEN, MAX_SHARD_BYTES,
};
use smg_core::crdt_kv::frontier::compute_frontier;
use smg_core::crdt_kv::operation::Operation;
use smg_core::crdt_kv::replica::ReplicaId;

fn rate_limit_version(timestamp: u64) -> RateLimitVersion {
    RateLimitVersion::new(timestamp, ReplicaId::new())
}

fn stored(epoch: u64, count: i64, timestamp: u64) -> Vec<u8> {
    state_from_insert_value(&encode(epoch, count), rate_limit_version(timestamp))
        .expect("raw epoch/count insert normalizes")
        .encode_live()
        .expect("live state has encoded bytes")
}

#[test]
fn raw_epoch_count_payload_round_trip() {
    for (epoch, count) in [
        (0_u64, 0_i64),
        (1, 1),
        (5, 30),
        (u64::MAX, i64::MAX),
        (u64::MAX, i64::MIN),
        (42, -1),
    ] {
        let buf = encode(epoch, count);
        assert_eq!(buf.len(), EPOCH_MAX_WINS_ENCODED_LEN);
        let decoded = decode_raw_epoch_count(&buf).expect("encoded buffer is 16 bytes");
        assert_eq!(decoded, EpochCount { epoch, count });
    }
}

#[test]
fn public_decode_accepts_raw_epoch_count_payload() {
    assert_eq!(
        decode(&encode(1, 2)),
        Some(EpochCount { epoch: 1, count: 2 })
    );
}

#[test]
fn raw_epoch_count_decode_rejects_wrong_lengths() {
    assert_eq!(decode_raw_epoch_count(&[]), None);
    assert_eq!(decode_raw_epoch_count(&[0u8; 15]), None);
    assert_eq!(decode_raw_epoch_count(&[0u8; 17]), None);
    assert!(decode_raw_epoch_count(&[0u8; 16]).is_some());
}

#[test]
fn normalized_shard_decodes_to_epoch_count() {
    let encoded = state_from_insert_value(&encode(7, 42), rate_limit_version(10))
        .expect("raw epoch/count insert normalizes to shard state")
        .encode_live()
        .expect("live shard encodes");
    assert_ne!(encoded.len(), EPOCH_MAX_WINS_ENCODED_LEN);
    assert_eq!(
        decode(&encoded),
        Some(EpochCount {
            epoch: 7,
            count: 42
        })
    );
}

#[test]
fn same_epoch_max_count_wins() {
    let local = stored(5, 30, 1);
    let remote = stored(5, 42, 2);
    let merged = merge(&local, &remote);
    assert_eq!(
        decode(&merged).unwrap(),
        EpochCount {
            epoch: 5,
            count: 42
        }
    );
    assert_eq!(merge(&remote, &local), merged);
}

#[test]
fn higher_epoch_wins_even_with_lower_count() {
    let merged = merge(&stored(5, 30, 1), &stored(6, 0, 2));
    assert_eq!(decode(&merged).unwrap(), EpochCount { epoch: 6, count: 0 });
}

#[test]
fn lower_epoch_loses_to_local_newer_window() {
    let merged = merge(&stored(6, 10, 1), &stored(5, 100, 2));
    assert_eq!(
        decode(&merged).unwrap(),
        EpochCount {
            epoch: 6,
            count: 10
        }
    );
}

#[test]
fn near_simultaneous_reset_both_at_zero() {
    let merged = merge(&stored(5, 0, 1), &stored(5, 0, 2));
    assert_eq!(decode(&merged).unwrap(), EpochCount { epoch: 5, count: 0 });
}

#[test]
fn malformed_remote_keeps_local() {
    let local = stored(5, 30, 1);
    let merged = merge(&local, &[0xFFu8; 15]);
    assert_eq!(merged, local);
}

#[test]
fn malformed_local_is_replaced_by_remote() {
    let remote = stored(5, 30, 1);
    let merged = merge(&[], &remote);
    assert_eq!(merged, remote);
}

#[test]
fn both_malformed_keeps_local_no_panic() {
    let corrupt_local = vec![1u8, 2, 3];
    let merged = merge(&corrupt_local, &[0xFFu8; 17]);
    assert_eq!(merged, corrupt_local);
}

#[test]
fn signed_count_preserves_sign() {
    let merged = merge(&stored(5, -10, 1), &stored(5, -5, 2));
    assert_eq!(
        decode(&merged).unwrap(),
        EpochCount {
            epoch: 5,
            count: -5
        }
    );
}

#[test]
fn merge_is_idempotent() {
    let value = stored(42, 7, 1);
    assert_eq!(merge(&value, &value), value);
}

#[test]
fn merge_is_associative_on_three_values() {
    let a = stored(5, 10, 1);
    let b = stored(6, 3, 2);
    let c = stored(6, 9, 3);
    let ab_then_c = merge(&merge(&a, &b), &c);
    let a_then_bc = merge(&a, &merge(&b, &c));
    assert_eq!(ab_then_c, a_then_bc);
    assert_eq!(
        decode(&ab_then_c).unwrap(),
        EpochCount { epoch: 6, count: 9 }
    );
}

#[test]
fn compacted_live_state_remembers_tombstone_boundary() {
    let key = "rl:global:node-a".to_string();
    let ops = [
        Operation::insert(key.clone(), encode(9, 99).to_vec(), 10, ReplicaId::new()),
        Operation::remove(key.clone(), 20, ReplicaId::new()),
        Operation::insert(key.clone(), encode(1, 1).to_vec(), 30, ReplicaId::new()),
    ];

    let compacted =
        compact_operations(&ops.iter().collect()).expect("post-tombstone live insert remains live");
    assert!(matches!(compacted, Operation::Insert { .. }));

    let delayed = Operation::insert(key.clone(), encode(9, 99).to_vec(), 10, ReplicaId::new());
    let compacted_again = compact_operations(&vec![&compacted, &delayed])
        .expect("compacted live shard remains live");
    let Operation::Insert { value, .. } = compacted_again else {
        panic!("expected live compacted shard");
    };
    assert_eq!(
        decode(&value),
        Some(EpochCount { epoch: 1, count: 1 }),
        "pre-tombstone high-epoch insert must stay suppressed after compaction",
    );
}

#[test]
fn compacted_live_state_uses_newest_live_version() {
    let key = "rl:global:node-a".to_string();
    let ops = [
        Operation::remove(key.clone(), 50, ReplicaId::new()),
        Operation::insert(key.clone(), encode(7, 100).to_vec(), 60, ReplicaId::new()),
        Operation::insert(key.clone(), encode(6, 1).to_vec(), 70, ReplicaId::new()),
    ];

    let compacted = compact_operations(&ops.iter().collect()).expect("live state wins");
    let Operation::Insert {
        value, timestamp, ..
    } = compacted
    else {
        panic!("expected live compacted shard");
    };
    assert_eq!(timestamp, 70);
    assert_eq!(
        decode(&value),
        Some(EpochCount {
            epoch: 7,
            count: 100
        })
    );
}

#[test]
fn compact_operations_skips_malformed_inserts() {
    let key = "rl:global:node-a".to_string();
    let malformed = Operation::insert(key.clone(), vec![1, 2, 3], 100, ReplicaId::new());
    let valid = Operation::insert(key.clone(), encode(5, 42).to_vec(), 10, ReplicaId::new());
    let compacted =
        compact_operations(&vec![&malformed, &valid]).expect("valid insert survives");

    let Operation::Insert { value, .. } = compacted else {
        panic!("valid insert should remain after skipping malformed insert");
    };
    assert_eq!(
        decode(&value),
        Some(EpochCount {
            epoch: 5,
            count: 42
        })
    );

    let tombstone = Operation::remove(key.clone(), 110, ReplicaId::new());
    let compacted =
        compact_operations(&vec![&malformed, &tombstone]).expect("tombstone survives");
    let Operation::Remove { timestamp, .. } = compacted else {
        panic!("tombstone should remain after skipping malformed insert");
    };
    assert_eq!(timestamp, 110);
}

fn version(timestamp: u64, bits: u128) -> RateLimitVersion {
    RateLimitVersion::new(timestamp, ReplicaId { bits })
}

fn point(epoch: u64, count: i64, timestamp: u64, bits: u128) -> LivePoint {
    LivePoint { value: EpochCount { epoch, count }, version: version(timestamp, bits) }
}

fn live(epoch: u64, count: i64, timestamp: u64, bits: u128) -> RateLimitState {
    state_from_insert_value(&encode(epoch, count), version(timestamp, bits)).unwrap()
}

#[test]
fn payload_is_epoch_then_count_big_endian() {
    assert_eq!(
        encode(0x0102030405060708, -2),
        [1, 2, 3, 4, 5, 6, 7, 8, 0xff, 0xff, 0xff, 0xff, 0xff, 0xff, 0xff, 0xfe]
    );
}

#[test]
fn greater_value_wins() {
    let five = EpochCount { epoch: 5, count: 30 };
    let six = EpochCount { epoch: 6, count: 0 };
    assert_eq!(compare_epoch_count(five, six), ValueWinner::Remote);
    assert_eq!(compare_epoch_count(six, five), ValueWinner::Local);
    assert_eq!(compare_epoch_count(five, five), ValueWinner::Equal);
    let more = EpochCount { epoch: 5, count: 31 };
    assert_eq!(compare_epoch_count(five, more), ValueWinner::Remote);
}

#[test]
fn shard_round_trips_and_has_the_expected_size() {
    let shard = RateLimitShard {
        live_points: vec![point(7, 42, 10, 3), point(6, -1, 11, 4)],
        tombstone_version: Some(version(9, 5)),
    };
    let data = encode_shard(&shard).expect("small shard encodes");
    assert_eq!(decode_shard(&data), Some(shard));
    assert_eq!(decode(&data), Some(EpochCount { epoch: 7, count: 42 }));
}

#[test]
fn shard_is_read_from_the_front_of_the_data() {
    let shard = RateLimitShard::from_live_point(point(7, 42, 10, 3));
    let mut data = encode_shard(&shard).unwrap();
    data.push(0);
    assert_eq!(decode_shard(&data), Some(shard));
    data.pop();
    data.pop();
    assert_eq!(decode_shard(&data), None);
}

#[test]
fn shard_without_live_points_is_rejected() {
    let shard = RateLimitShard { live_points: Vec::new(), tombstone_version: Some(version(1, 1)) };
    let data = encode_shard(&shard).unwrap();
    assert_eq!(decode_shard(&data), None);
}

#[test]
fn shards_are_read_up_to_the_cap() {
    let shard = |n: u64, tombstone_version| RateLimitShard {
        live_points: (0..n).map(|i| point(i, 1, i, 3)).collect(),
        tombstone_version,
    };
    let fits = shard(1365, None);
    let data = encode_shard(&fits).unwrap();
    assert_eq!(data.len(), 65529);
    assert_eq!(decode_shard(&data), Some(fits));
    let data = encode_shard(&shard(1366, None)).unwrap();
    assert_eq!(data.len(), 65577);
    assert_eq!(decode_shard(&data), None);
    let data = encode_shard(&shard(1365, Some(version(9, 5)))).unwrap();
    assert_eq!(data.len(), 65561);
    assert_eq!(decode_shard(&data), None);
    // What follows a shard is not read, however long it is.
    let small = RateLimitShard::from_live_point(point(7, 42, 10, 3));
    let mut data = encode_shard(&small).unwrap();
    data.extend(vec![1u8; 70_000]);
    assert_eq!(decode_shard(&data), Some(small));
}

#[test]
fn forged_length_is_not_believed() {
    let mut data = vec![0xffu8; 8];
    assert_eq!(decode_shard(&data), None);
    data.extend(vec![0u8; 100_000]);
    assert_eq!(decode_shard(&data), None);
}

#[test]
fn oversized_data_is_no_shard() {
    let data = vec![0u8; MAX_SHARD_BYTES as usize + 1];
    assert_eq!(decode_shard(&data), None);
    assert_eq!(decode(&data), None);
}

#[test]
fn tombstone_suppresses_older_points() {
    let merged = live(9, 99, 10, 1)
        .merge(RateLimitState::Tombstone(version(20, 1)))
        .unwrap();
    assert_eq!(merged, RateLimitState::Tombstone(version(20, 1)));
    assert_eq!(merged.encode_live(), None);
    // The same holds in the other order.
    let merged = RateLimitState::Tombstone(version(20, 1)).merge(live(9, 99, 10, 1)).unwrap();
    assert_eq!(merged, RateLimitState::Tombstone(version(20, 1)));
}

#[test]
fn newer_point_survives_a_tombstone() {
    let merged = RateLimitState::Tombstone(version(20, 1)).merge(live(1, 1, 30, 1)).unwrap();
    assert_eq!(merged.tombstone_version(), Some(version(20, 1)));
    match merged {
        RateLimitState::Live(shard) => {
            assert_eq!(shard.current_value(), Some(EpochCount { epoch: 1, count: 1 }));
            assert_eq!(shard.newest_live_version(), Some(version(30, 1)));
        }
        RateLimitState::Tombstone(_) => panic!("the newer point is gone"),
    }
}

#[test]
fn frontier_drops_dominated_points() {
    // Both older and smaller than the first.
    let points = vec![point(7, 1, 20, 1), point(6, 1, 10, 1), point(5, 1, 30, 1)];
    let kept = compute_frontier(&points);
    assert_eq!(kept.len(), 2);
    assert!(kept.contains(&point(7, 1, 20, 1)));
    assert!(kept.contains(&point(5, 1, 30, 1)));
}

#[test]
fn merge_of_states_commutes() {
    let a = live(5, 10, 1, 1);
    let b = live(6, 3, 2, 2);
    assert_eq!(a.clone().merge(b.clone()), b.merge(a));
}

#[test]
fn state_becomes_an_operation_of_its_newest_version() {
    let op = live(5, 10, 7, 3).into_operation("k".to_string()).unwrap();
    assert_eq!(op.timestamp(), 7);
    assert_eq!(op.replica_id(), ReplicaId { bits: 3 });
    let gone = RateLimitState::Tombstone(version(8, 4)).into_operation("k".to_string()).unwrap();
    assert_eq!(gone, Operation::remove("k".to_string(), 8, ReplicaId { bits: 4 }));
}

#[test]
fn nothing_valid_compacts_to_nothing() {
    let malformed = Operation::insert("k".to_string(), vec![1, 2, 3], 1, ReplicaId { bits: 1 });
    assert!(compact_operations(&vec![&malformed]).is_none());
    assert!(compact_operations(&Vec::new()).is_none());
}

#[test]
fn compaction_composes() {
    let id = ReplicaId { bits: 1 };
    let key = "rl:k".to_string();
    let a = Operation::insert(key.clone(), encode(5, 1).to_vec(), 1, id);
    let b = Operation::insert(key.clone(), encode(4, 9).to_vec(), 2, id);
    let c = Operation::insert(key.clone(), encode(6, 2).to_vec(), 3, id);
    let at_once = compact_operations(&vec![&a, &b, &c]);
    let first = compact_operations(&vec![&a, &b]).unwrap();
    assert_eq!(compact_operations(&vec![&first, &c]), at_once);
}

#[test]
fn shard_has_the_expected_layout() {
    let shard = RateLimitShard {
        live_points: vec![point(7, -2, 10, 0x0102_0304_0506_0708_090a_0b0c_0d0e_0f10)],
        tombstone_version: Some(version(9, 1)),
    };
    let mut expected: Vec<u8> = Vec::new();
    expected.extend(1u64.to_le_bytes());
    expected.extend(7u64.to_le_bytes());
    expected.extend((-2i64).to_le_bytes());
    expected.extend(10u64.to_le_bytes());
    expected.extend(16u64.to_le_bytes());
    expected.extend(1u8..=16);
    expected.push(1);
    expected.extend(9u64.to_le_bytes());
    expected.extend(16u64.to_le_bytes());
    expected.extend(1u128.to_be_bytes());
    assert_eq!(encode_shard(&shard), Some(expected));
    let bare = RateLimitShard::from_live_point(point(7, -2, 10, 1));
    assert_eq!(encode_shard(&bare).unwrap().len(), 57);
}

#[test]
fn shard_is_encoded_like_its_fields() {
    let (a, b) = (uuid::Uuid::from_u128(77), uuid::Uuid::from_u128(u128::MAX - 5));
    let shard = RateLimitShard {
        live_points: vec![point(7, -2, 10, 77), point(6, 3, 11, u128::MAX - 5)],
        tombstone_version: Some(version(9, 77)),
    };
    let fields = (
        vec![((7u64, -2i64), (10u64, a)), ((6u64, 3i64), (11u64, b))],
        Some((9u64, a)),
    );
    assert_eq!(encode_shard(&shard), bincode::serialize(&fields).ok());
}
