use smg_core::crdt_kv::operation::Operation;
use smg_core::crdt_kv::replica::ReplicaId;
use smg_core::transport::crdt_batch::{
    build_crdt_batches, decode_batch, estimated_op_size, op_to_proto, proto_to_op, wrap_crdt_batch,
    CrdtBatch, CrdtOp, StreamMessageType, StreamPayload,
};

#[test]
fn op_round_trips_through_proto() {
    let replica = ReplicaId::new();
    let insert = Operation::insert("worker:a".to_string(), b"v".to_vec(), 5, replica);
    let remove = Operation::remove("worker:b".to_string(), 7, replica);

    let back_insert = proto_to_op(op_to_proto(&insert)).expect("valid insert round-trips");
    let back_remove = proto_to_op(op_to_proto(&remove)).expect("valid remove round-trips");
    assert_eq!(back_insert, insert);
    assert_eq!(back_remove, remove);
}

#[test]
fn build_crdt_batches_empty_and_single() {
    assert!(build_crdt_batches(&[], 1024).is_empty());
    let replica = ReplicaId::new();
    let ops = vec![Operation::insert(
        "rl:c".to_string(),
        b"x".to_vec(),
        1,
        replica,
    )];
    let batches = build_crdt_batches(&ops, 1024);
    assert_eq!(batches.len(), 1);
    assert_eq!(batches[0].ops.len(), 1);
    assert_eq!(batches[0].ops[0].key, "rl:c");
    assert!(!batches[0].ops[0].tombstone);
}

#[test]
fn build_crdt_batches_splits_over_budget() {
    let replica = ReplicaId::new();
    let ops: Vec<Operation> = (0..50)
        .map(|i| Operation::insert(format!("worker:{i}"), vec![0u8; 100], i, replica))
        .collect();
    // Each op is ~100 bytes of value + overhead; a 300-byte budget forces
    // several batches.
    let batches = build_crdt_batches(&ops, 300);
    assert!(
        batches.len() > 1,
        "large op-log must split into many batches"
    );
    // Every op is preserved exactly once across all batches.
    let total: usize = batches.iter().map(|b| b.ops.len()).sum();
    assert_eq!(total, ops.len());
    // No batch exceeds the budget (except a lone oversized op, which none
    // of these are).
    for batch in &batches {
        let bytes: usize = batch.ops.iter().map(estimated_op_size).sum();
        assert!(bytes <= 300 || batch.ops.len() == 1);
    }
}

#[test]
fn proto_to_op_rejects_bad_replica_id() {
    let bad = CrdtOp {
        key: "worker:a".to_string(),
        value: Vec::new(),
        tombstone: false,
        timestamp: 1,
        replica_id: "not-a-uuid".to_string(),
    };
    assert!(proto_to_op(bad).is_none());
}

#[test]
fn wrap_crdt_batch_envelope_shape() {
    let msg = wrap_crdt_batch(CrdtBatch::default(), 11, "node-1");
    assert_eq!(msg.message_type as i32, StreamMessageType::CrdtBatch as i32);
    assert_eq!(msg.sequence, 11);
    assert_eq!(msg.peer_id, "node-1");
    assert!(matches!(msg.payload, Some(StreamPayload::CrdtBatch(_))));
}

#[test]
fn wire_form_of_operations() {
    let id = ReplicaId { bits: 0x0011_2233_4455_6677_8899_aabb_ccdd_eeff };
    let proto = op_to_proto(&Operation::remove("k".to_string(), 7, id));
    assert!(proto.tombstone);
    assert!(proto.value.is_empty());
    assert_eq!(proto.timestamp, 7);
    assert_eq!(proto.replica_id, "00112233-4455-6677-8899-aabbccddeeff");
}

#[test]
fn batches_keep_order_and_skip_nothing() {
    let id = ReplicaId { bits: 1 };
    let ops: Vec<Operation> =
        (0..5).map(|i| Operation::insert(format!("k{i}"), vec![0u8; 10], i, id)).collect();
    let mut back: Vec<Operation> = Vec::new();
    for batch in build_crdt_batches(&ops, 1) {
        assert_eq!(batch.ops.len(), 1);
        back.extend(decode_batch(batch));
    }
    assert_eq!(back, ops);
}

#[test]
fn bad_operations_are_skipped_in_a_batch() {
    let good = op_to_proto(&Operation::remove("k".to_string(), 7, ReplicaId { bits: 1 }));
    let bad = CrdtOp {
        key: "k".to_string(),
        value: Vec::new(),
        tombstone: true,
        timestamp: 8,
        replica_id: "???".to_string(),
    };
    let ops = decode_batch(CrdtBatch { ops: vec![bad, good] });
    assert_eq!(ops, vec![Operation::remove("k".to_string(), 7, ReplicaId { bits: 1 })]);
}
