use smg_core::crdt_kv::engine::epoch_max_wins::{
    apply_tombstone, merge_live_value, EpochMaxWinsLegacyEngine, TombstoneApply,
};
use smg_core::crdt_kv::engine::lww::LwwEngine;
use smg_core::crdt_kv::engine::metadata::MetadataTable;
use smg_core::crdt_kv::engine::rate_limit::RateLimitEngine;
use smg_core::crdt_kv::epoch_max_wins::{decode, encode, EpochCount, RateLimitVersion};
use smg_core::crdt_kv::operation::Operation;
use smg_core::crdt_kv::replica::{LamportClock, ReplicaId};
use smg_core::crdt_kv::watermark::CrdtWatermark;
use smg_core::transport::crdt_batch::{build_crdt_batches, dispatch_crdt_batch};

const MAX_STREAM_CHUNK_BYTES: usize = 1024 * 1024;

fn lww() -> (LwwEngine, LamportClock) {
    (LwwEngine::new(ReplicaId::new()), LamportClock::new())
}

fn rate_limit(bits: u128) -> (RateLimitEngine, LamportClock) {
    (RateLimitEngine::new(ReplicaId { bits }), LamportClock::new())
}

/// One round of delivery: the log of the sender in batches to the receiver.
fn deliver_crdt(sender: &LwwEngine, receiver: &mut LwwEngine, clock: &mut LamportClock) {
    let ops = sender.export_ops();
    for batch in build_crdt_batches(&ops, MAX_STREAM_CHUNK_BYTES) {
        dispatch_crdt_batch(receiver, clock, 0, batch);
    }
}

fn deliver_rate_limit(
    sender: &RateLimitEngine,
    receiver: &mut RateLimitEngine,
    clock: &mut LamportClock,
) {
    let ops = sender.export_ops();
    for batch in build_crdt_batches(&ops, MAX_STREAM_CHUNK_BYTES) {
        dispatch_crdt_batch(receiver, clock, 0, batch);
    }
}

#[test]
fn remote_crdt_batch_converges_store() {
    let (mut sender, mut s_clock) = lww();
    sender.put_local(&mut s_clock, 0, "worker:a", b"v1".to_vec());

    let (mut receiver, mut r_clock) = lww();
    assert_eq!(receiver.get("worker:a"), None);

    deliver_crdt(&sender, &mut receiver, &mut r_clock);
    assert_eq!(
        receiver.get("worker:a"),
        Some(b"v1".to_vec()),
        "CRDT op-log delivered over the wire converges the receiver's store"
    );
}

#[test]
fn redelivering_same_batch_fires_no_new_event() {
    let (mut sender, mut s_clock) = lww();
    sender.put_local(&mut s_clock, 0, "worker:a", b"v1".to_vec());
    let (mut receiver, mut r_clock) = lww();

    deliver_crdt(&sender, &mut receiver, &mut r_clock);
    let generation = receiver.generation();
    deliver_crdt(&sender, &mut receiver, &mut r_clock);
    assert_eq!(receiver.generation(), generation, "idempotent re-delivery changes nothing");
}

#[test]
fn rl_remote_merge_subscriber_sees_canonical_shard() {
    let (mut sender, mut s_clock) = rate_limit(1);
    sender.put_local(&mut s_clock, 0, "rl:global:node-a", encode(7, 42).to_vec());
    let (mut receiver, mut r_clock) = rate_limit(2);

    deliver_rate_limit(&sender, &mut receiver, &mut r_clock);
    let bytes = receiver.get("rl:global:node-a").expect("insert delivers a value");
    assert_ne!(bytes.len(), encode(7, 42).len(), "the encoded shard, not the 16-byte payload");
    assert_eq!(decode(&bytes), Some(EpochCount { epoch: 7, count: 42 }));
    assert_eq!(sender.get("rl:global:node-a"), Some(bytes));
}

#[test]
fn remote_tombstone_after_insert_notifies_none() {
    let (mut sender, mut s_clock) = lww();
    sender.put_local(&mut s_clock, 0, "worker:a", b"v1".to_vec());
    let (mut receiver, mut r_clock) = lww();
    deliver_crdt(&sender, &mut receiver, &mut r_clock);
    assert!(receiver.contains_key("worker:a"));

    assert_eq!(sender.delete_local(&mut s_clock, 0, "worker:a"), Some(b"v1".to_vec()));
    deliver_crdt(&sender, &mut receiver, &mut r_clock);
    assert_eq!(receiver.get("worker:a"), None);
    assert_eq!(receiver.len(), 0);
}

#[test]
fn last_writer_wins_in_either_order() {
    let old = Operation::insert("k".to_string(), b"old".to_vec(), 1, ReplicaId { bits: 9 });
    let new = Operation::insert("k".to_string(), b"new".to_vec(), 2, ReplicaId { bits: 1 });
    for ops in [vec![old.clone(), new.clone()], vec![new, old]] {
        let (mut engine, mut clock) = lww();
        for op in ops {
            engine.apply_remote_ops(&mut clock, 0, vec![op]);
        }
        assert_eq!(engine.get("k"), Some(b"new".to_vec()));
    }
}

#[test]
fn equal_timestamps_are_ordered_by_replica() {
    let low = Operation::insert("k".to_string(), b"low".to_vec(), 1, ReplicaId { bits: 1 });
    let high = Operation::insert("k".to_string(), b"high".to_vec(), 1, ReplicaId { bits: 2 });
    let (mut engine, mut clock) = lww();
    engine.apply_remote_ops(&mut clock, 0, vec![high, low]);
    assert_eq!(engine.get("k"), Some(b"high".to_vec()));
}

#[test]
fn local_write_beats_what_was_received() {
    let (mut engine, mut clock) = lww();
    let remote = Operation::insert("k".to_string(), b"r".to_vec(), 100, ReplicaId::greatest());
    engine.apply_remote_ops(&mut clock, 0, vec![remote]);
    let previous = engine.put_local(&mut clock, 0, "k", b"l".to_vec());
    assert_eq!(previous, Some(b"r".to_vec()));
    assert_eq!(engine.get("k"), Some(b"l".to_vec()));
}

#[test]
fn removal_suppresses_an_older_write() {
    let (mut engine, mut clock) = lww();
    let id = ReplicaId { bits: 1 };
    engine.apply_remote_ops(&mut clock, 0, vec![Operation::remove("k".to_string(), 5, id)]);
    let late = Operation::insert("k".to_string(), b"v".to_vec(), 4, id);
    engine.apply_remote_ops(&mut clock, 0, vec![late]);
    assert_eq!(engine.get("k"), None);
}

#[test]
fn old_removals_are_forgotten() {
    let (mut engine, mut clock) = lww();
    engine.put_local(&mut clock, 0, "k", b"v".to_vec());
    engine.delete_local(&mut clock, 10, "k");
    engine.put_local(&mut clock, 10, "j", b"w".to_vec());
    assert_eq!(engine.gc_tombstones(14, 5), 0);
    assert_eq!(engine.gc_tombstones(15, 5), 1);
    assert_eq!(engine.gc_tombstones(15, 5), 0);
    assert_eq!(engine.keys(), vec!["j".to_string()]);
}

#[test]
fn rate_limit_takes_the_greatest_value() {
    let (mut engine, mut clock) = rate_limit(1);
    let id = ReplicaId { bits: 2 };
    let key = "rl:k".to_string();
    let ops = vec![
        Operation::insert(key.clone(), encode(6, 10).to_vec(), 1, id),
        Operation::insert(key.clone(), encode(5, 100).to_vec(), 2, id),
        Operation::insert(key.clone(), vec![1, 2, 3], 3, id),
    ];
    engine.apply_remote_ops(&mut clock, 0, ops);
    let value = engine.get("rl:k").unwrap();
    assert_eq!(decode(&value), Some(EpochCount { epoch: 6, count: 10 }));
    assert!(engine.contains_key("rl:k"));
    assert_eq!(engine.len(), 1);
}

#[test]
fn rate_limit_removal_and_revival() {
    let (mut engine, mut clock) = rate_limit(1);
    engine.put_local(&mut clock, 0, "rl:k", encode(9, 99).to_vec());
    let removed = engine.delete_local(&mut clock, 0, "rl:k").unwrap();
    assert_eq!(decode(&removed), Some(EpochCount { epoch: 9, count: 99 }));
    assert_eq!(engine.get("rl:k"), None);
    engine.put_local(&mut clock, 0, "rl:k", encode(1, 1).to_vec());
    let value = engine.get("rl:k").unwrap();
    assert_eq!(decode(&value), Some(EpochCount { epoch: 1, count: 1 }));
    assert_eq!(engine.generation(), 3);
}

#[test]
fn rate_limit_outcomes() {
    let (mut engine, _) = rate_limit(1);
    let v = RateLimitVersion::new(5, ReplicaId { bits: 2 });
    let first = engine.merge_insert("k", &encode(1, 1), v, 0);
    assert!(first.changed && first.new_is_live && first.prior_live.is_none());
    let again = engine.merge_insert("k", &encode(1, 1), v, 0);
    assert!(!again.changed && again.prior_live.is_some());
    let malformed = engine.merge_insert("k", &[0u8; 3], v, 0);
    assert!(!malformed.changed);
    let late = engine.merge_remove("k", RateLimitVersion::new(4, ReplicaId { bits: 2 }), 0);
    assert!(late.changed && late.new_is_live);
    let gone = engine.merge_remove("k", RateLimitVersion::new(6, ReplicaId { bits: 2 }), 0);
    assert!(gone.changed && !gone.new_is_live);
    assert_eq!(engine.gc_tombstones(100, 10), 1);
    assert!(engine.keys().is_empty());
}

#[test]
fn rate_limit_replay_changes_nothing() {
    let (mut sender, mut s_clock) = rate_limit(1);
    sender.put_local(&mut s_clock, 0, "rl:k", encode(2, 2).to_vec());
    let (mut receiver, mut r_clock) = rate_limit(2);
    deliver_rate_limit(&sender, &mut receiver, &mut r_clock);
    let before = (receiver.get("rl:k"), receiver.generation());
    deliver_rate_limit(&sender, &mut receiver, &mut r_clock);
    assert_eq!((receiver.get("rl:k"), receiver.generation()), before);
}

#[test]
fn legacy_engine_merges_and_removes() {
    let mut engine = EpochMaxWinsLegacyEngine::new(ReplicaId { bits: 1 });
    let mut clock = LamportClock::new();
    let id = ReplicaId { bits: 2 };
    let key = "rl:k".to_string();
    let ops = vec![
        Operation::insert(key.clone(), encode(5, 10).to_vec(), 1, id),
        Operation::insert(key.clone(), encode(6, 3).to_vec(), 2, id),
        Operation::remove(key.clone(), 1, id),
    ];
    engine.apply_remote_ops(&mut clock, 0, ops);
    let value = engine.get("rl:k").unwrap();
    assert_eq!(decode(&value), Some(EpochCount { epoch: 6, count: 3 }));
    engine.delete_local(&mut clock, 3, "rl:k");
    assert!(!engine.contains_key("rl:k"));
    assert_eq!(engine.len(), 0);
    assert_eq!(engine.gc_tombstones(8, 5), 1);
    // What arrived is compacted to one operation; the removal is the other.
    assert_eq!(engine.export_ops().len(), 2);
    engine.put_local(&mut clock, 9, "rl:k", encode(1, 1).to_vec());
    assert_eq!(engine.keys(), vec!["rl:k".to_string()]);
}

#[test]
fn live_value_and_tombstone_helpers() {
    let v = RateLimitVersion::new(5, ReplicaId { bits: 2 });
    let merged = merge_live_value(&None, None, &encode(3, 4), v).unwrap();
    assert!(merged.changed);
    assert_eq!(merged.live_version, v);
    let current = Some(merged.value);
    let same = merge_live_value(&current, None, &encode(3, 4), v).unwrap();
    assert!(!same.changed);
    assert!(merge_live_value(&None, Some(v), &encode(3, 4), v).is_none());

    let older = RateLimitVersion::new(4, ReplicaId { bits: 2 });
    match apply_tombstone(&current, None, older) {
        TombstoneApply::Surviving { live_version, value } => {
            assert_eq!(live_version, v);
            assert_eq!(decode(&value), Some(EpochCount { epoch: 3, count: 4 }));
        }
        TombstoneApply::Empty { .. } => panic!("the newer point survives"),
    }
    match apply_tombstone(&current, None, v) {
        TombstoneApply::Empty { tombstone_version } => assert_eq!(tombstone_version, v),
        TombstoneApply::Surviving { .. } => panic!("the point is removed"),
    }
}

#[test]
fn nodes_that_exchange_logs_agree() {
    let (mut a, mut a_clock) = lww();
    let (mut b, mut b_clock) = lww();
    a.put_local(&mut a_clock, 0, "x", b"a".to_vec());
    a.put_local(&mut a_clock, 0, "y", b"a".to_vec());
    b.put_local(&mut b_clock, 0, "y", b"b".to_vec());
    b.put_local(&mut b_clock, 0, "z", b"b".to_vec());
    b.delete_local(&mut b_clock, 0, "y");
    let (from_a, from_b) = (a.export_ops(), b.export_ops());
    a.apply_remote_ops(&mut a_clock, 0, from_b);
    b.apply_remote_ops(&mut b_clock, 0, from_a);
    for key in ["x", "y", "z"] {
        assert_eq!(a.get(key), b.get(key), "{key}");
    }
    assert_eq!(a.get("x"), Some(b"a".to_vec()));
    assert_eq!(a.get("y"), None);
    assert_eq!(a.len(), 2);
}

#[test]
fn rate_limit_nodes_that_exchange_logs_agree() {
    let (mut a, mut a_clock) = rate_limit(1);
    let (mut b, mut b_clock) = rate_limit(2);
    a.put_local(&mut a_clock, 0, "rl:x", encode(5, 1).to_vec());
    a.put_local(&mut a_clock, 0, "rl:y", encode(9, 9).to_vec());
    b.put_local(&mut b_clock, 0, "rl:x", encode(4, 7).to_vec());
    b.put_local(&mut b_clock, 0, "rl:y", encode(1, 1).to_vec());
    b.delete_local(&mut b_clock, 0, "rl:y");
    let (from_a, from_b) = (a.export_ops(), b.export_ops());
    a.apply_remote_ops(&mut a_clock, 0, from_b);
    b.apply_remote_ops(&mut b_clock, 0, from_a);
    assert_eq!(a.get("rl:x"), b.get("rl:x"));
    assert_eq!(a.get("rl:y"), b.get("rl:y"));
    let x = a.get("rl:x").unwrap();
    assert_eq!(decode(&x), Some(EpochCount { epoch: 5, count: 1 }));
    // The removal is newer than both writes.
    assert!(!a.contains_key("rl:y"));
}

#[test]
fn metadata_of_removed_and_unknown_keys() {
    let mut table = MetadataTable::new();
    assert!(table.key_is_tombstoned_or_unknown("k"));
    let v = RateLimitVersion::new(1, ReplicaId { bits: 1 });
    assert!(table.record_insert("k", v, 0));
    assert!(!table.record_insert("k", v, 0));
    assert!(!table.key_is_tombstoned_or_unknown("k"));
    // A removal wins over a write of the same version.
    assert!(table.record_remove("k", v, 0));
    assert!(table.key_is_tombstoned_or_unknown("k"));
    assert!(table.get("k").unwrap().is_tombstone);
}

#[test]
fn watermark_hides_only_what_the_peer_has() {
    let (mut peer, mut clock) = lww();
    let id = ReplicaId { bits: 7 };
    let old = Operation::insert("k".to_string(), b"old".to_vec(), 1, id);
    let new = Operation::insert("k".to_string(), b"new".to_vec(), 2, id);
    let merged = vec![old.clone(), new.clone()];
    let acked = CrdtWatermark::from_ops(&merged);
    peer.apply_remote_ops(&mut clock, 0, merged);
    assert_eq!(acked.get("k"), Some((2, id)));
    for op in [old, new] {
        assert!(!acked.allows(&op));
        let generation = peer.generation();
        peer.apply_remote_ops(&mut clock, 0, vec![op]);
        assert_eq!(peer.generation(), generation);
    }
    assert_eq!(peer.get("k"), Some(b"new".to_vec()));
}

#[test]
fn legacy_engine_replays_without_change() {
    let mut engine = EpochMaxWinsLegacyEngine::new(ReplicaId { bits: 1 });
    let mut clock = LamportClock::new();
    let op =
        Operation::insert("rl:k".to_string(), encode(5, 10).to_vec(), 1, ReplicaId { bits: 2 });
    engine.apply_remote_ops(&mut clock, 0, vec![op.clone()]);
    let before = (engine.get("rl:k"), engine.generation());
    engine.apply_remote_ops(&mut clock, 0, vec![op]);
    assert_eq!((engine.get("rl:k"), engine.generation()), before);
    let removal = Operation::remove("rl:k".to_string(), 0, ReplicaId { bits: 2 });
    engine.apply_remote_ops(&mut clock, 0, vec![removal.clone()]);
    let before = engine.get("rl:k");
    engine.apply_remote_ops(&mut clock, 0, vec![removal]);
    assert_eq!(engine.get("rl:k"), before);
}

#[test]
fn many_small_batches_deliver_a_log() {
    let (mut sender, mut s_clock) = lww();
    for i in 0..20u8 {
        sender.put_local(&mut s_clock, 0, &format!("worker:{i}"), vec![i; 50]);
    }
    sender.delete_local(&mut s_clock, 0, "worker:3");
    let (mut receiver, mut r_clock) = lww();
    let batches = build_crdt_batches(&sender.export_ops(), 300);
    assert!(batches.len() > 1);
    for batch in batches {
        dispatch_crdt_batch(&mut receiver, &mut r_clock, 0, batch);
    }
    assert_eq!(receiver.len(), 19);
    for i in 0..20u8 {
        let key = format!("worker:{i}");
        assert_eq!(receiver.get(&key), sender.get(&key));
    }
}

/// The operations in several orders and splits, with repeats.
fn deliveries_of(ops: &[Operation]) -> Vec<Vec<Vec<Operation>>> {
    let one_by_one: Vec<Vec<Operation>> = ops.iter().map(|op| vec![op.clone()]).collect();
    let mut backwards = one_by_one.clone();
    backwards.reverse();
    let twice: Vec<Vec<Operation>> = vec![ops.to_vec(), ops[1..].to_vec(), ops.to_vec()];
    let halves = vec![ops[ops.len() / 2..].to_vec(), ops[..ops.len() / 2 + 1].to_vec()];
    vec![vec![ops.to_vec()], one_by_one, backwards, twice, halves]
}

#[test]
fn deliveries_add_up_in_any_split_and_order() {
    let node = |bits: u128| ReplicaId { bits };
    let ops = vec![
        Operation::insert("a".to_string(), b"1".to_vec(), 5, node(1)),
        Operation::insert("a".to_string(), b"2".to_vec(), 9, node(2)),
        Operation::insert("b".to_string(), b"3".to_vec(), 7, node(1)),
        Operation::remove("b".to_string(), 8, node(2)),
        Operation::insert("c".to_string(), b"4".to_vec(), 3, node(3)),
        Operation::insert("c".to_string(), b"5".to_vec(), 3, node(4)),
    ];
    for deliveries in deliveries_of(&ops) {
        let (mut engine, mut clock) = lww();
        for batch in &deliveries {
            engine.apply_remote_ops(&mut clock, 0, batch.clone());
        }
        assert_eq!(engine.get("a"), Some(b"2".to_vec()));
        assert_eq!(engine.get("b"), None);
        assert_eq!(engine.get("c"), Some(b"5".to_vec()));
        assert_eq!(engine.get("d"), None);
        // What was delivered changes nothing when it comes again.
        let generation = engine.generation();
        engine.apply_remote_ops(&mut clock, 1, ops.clone());
        assert_eq!(engine.generation(), generation);
        assert_eq!(engine.len(), 2);
        // The next local write is newer than everything that was delivered.
        assert!(clock.tick() > 9);
    }
}

#[test]
fn rate_limit_deliveries_add_up_in_any_split_and_order() {
    let node = |bits: u128| ReplicaId { bits };
    let ops = vec![
        Operation::insert("rl:a".to_string(), encode(1, 40).to_vec(), 5, node(1)),
        Operation::insert("rl:a".to_string(), encode(2, 3).to_vec(), 6, node(2)),
        Operation::insert("rl:b".to_string(), encode(1, 9).to_vec(), 7, node(1)),
        Operation::remove("rl:b".to_string(), 8, node(2)),
        Operation::remove("rl:c".to_string(), 2, node(1)),
        Operation::insert("rl:c".to_string(), encode(4, 4).to_vec(), 3, node(3)),
    ];
    let mut first: Option<Vec<Option<Vec<u8>>>> = None;
    for deliveries in deliveries_of(&ops) {
        let (mut engine, mut clock) = rate_limit(7);
        for batch in &deliveries {
            engine.apply_remote_ops(&mut clock, 0, batch.clone());
        }
        let held: Vec<Option<Vec<u8>>> =
            ["rl:a", "rl:b", "rl:c"].iter().map(|k| engine.get(k)).collect();
        assert_eq!(held[0].as_deref().and_then(decode), Some(EpochCount { epoch: 2, count: 3 }));
        assert_eq!(held[1], None);
        assert_eq!(held[2].as_deref().and_then(decode), Some(EpochCount { epoch: 4, count: 4 }));
        match &first {
            None => first = Some(held),
            Some(f) => assert_eq!(f, &held, "nodes with the same operations agree"),
        }
        let generation = engine.generation();
        engine.apply_remote_ops(&mut clock, 1, ops.clone());
        assert_eq!(engine.generation(), generation);
        assert!(clock.tick() > 8);
    }
}
