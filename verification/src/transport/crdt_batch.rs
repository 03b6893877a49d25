//! Batches of operations on the wire.
//!
//! Outbound, `build_crdt_batches` turns a snapshot of the operation log into
//! batches that stay below the size limit of a message, and `wrap_crdt_batch` puts
//! a batch into its envelope. Inbound, `dispatch_crdt_batch` decodes a batch and
//! merges it into an engine. Merging is idempotent, so that sending known
//! operations again is no change.

use vstd::prelude::*;

use crate::crdt_kv::engine::lww::LwwView;
use crate::crdt_kv::engine::lww_convergence;
use crate::crdt_kv::engine::NamespaceCrdtEngine;
use crate::crdt_kv::epoch_max_wins::RateLimitVersion;
use crate::crdt_kv::operation::{copy_bytes, Operation, OperationView};
use crate::crdt_kv::operation_log;
use crate::crdt_kv::replica;
use crate::crdt_kv::replica::{LamportClock, ReplicaId};

verus! {

/// An operation on the wire. A removal carries no value, and the replica id is
/// text.
#[derive(Debug)]
pub struct CrdtOp {
    pub key: String,
    pub value: Vec<u8>,
    pub tombstone: bool,
    pub timestamp: u64,
    pub replica_id: String,
}

/// What an operation on the wire says.
#[verifier::ext_equal]
pub struct CrdtOpView {
    pub key: Seq<char>,
    pub value: Seq<u8>,
    pub tombstone: bool,
    pub timestamp: u64,
    pub replica_id: Seq<char>,
}

impl View for CrdtOp {
    type V = CrdtOpView;

    open spec fn view(&self) -> CrdtOpView {
        CrdtOpView {
            key: self.key@,
            value: self.value@,
            tombstone: self.tombstone,
            timestamp: self.timestamp,
            replica_id: self.replica_id@,
        }
    }
}

/// A batch of operations.
#[derive(Debug)]
pub struct CrdtBatch {
    pub ops: Vec<CrdtOp>,
}

impl View for CrdtBatch {
    type V = Seq<CrdtOpView>;

    open spec fn view(&self) -> Seq<CrdtOpView> {
        self.ops@.map_values(|op: CrdtOp| op@)
    }
}

impl Default for CrdtBatch {
    fn default() -> (batch: CrdtBatch)
        ensures
            batch@.len() == 0,
    {
        CrdtBatch { ops: Vec::new() }
    }
}

/// The type of a stream message.
#[derive(Debug, Clone, Copy, PartialEq, Eq, Structural)]
pub enum StreamMessageType {
    CrdtBatch,
}

/// The payload of a stream message.
#[derive(Debug)]
pub enum StreamPayload {
    CrdtBatch(CrdtBatch),
}

/// A message of the stream between two nodes.
#[derive(Debug)]
pub struct StreamMessage {
    pub message_type: StreamMessageType,
    pub payload: Option<StreamPayload>,
    pub sequence: u64,
    pub peer_id: String,
}

/// The wire form of an operation.
pub open spec fn proto_of(op: OperationView) -> CrdtOpView {
    CrdtOpView {
        key: op.key,
        value: match op.value {
            Some(value) => value,
            None => Seq::empty(),
        },
        tombstone: op.value is None,
        timestamp: op.version.timestamp,
        replica_id: replica::uuid_text(op.version.replica_id.bits),
    }
}

/// The operation that a wire form stands for; `None` if the replica id is no UUID.
/// The value of a removal is ignored.
pub open spec fn op_of(proto: CrdtOpView) -> Option<OperationView> {
    match replica::uuid_value(proto.replica_id) {
        Some(bits) => Some(
            OperationView {
                key: proto.key,
                value: if proto.tombstone {
                    None
                } else {
                    Some(proto.value)
                },
                version: RateLimitVersion {
                    timestamp: proto.timestamp,
                    replica_id: ReplicaId { bits: bits as u128 },
                },
            },
        ),
        None => None,
    }
}

/// The operations of a batch, without those whose replica id is no UUID.
pub open spec fn ops_of(protos: Seq<CrdtOpView>) -> Seq<OperationView>
    decreases protos.len(),
{
    if protos.len() == 0 {
        Seq::empty()
    } else {
        match op_of(protos.last()) {
            Some(op) => ops_of(protos.drop_last()).push(op),
            None => ops_of(protos.drop_last()),
        }
    }
}

/// Estimated size of an operation on the wire: the fields of variable length, and
/// an allowance for tags, lengths and the fixed fields.
pub open spec fn op_size(proto: CrdtOpView) -> int {
    vstd::utf8::encode_utf8(proto.key).len() + proto.value.len() + vstd::utf8::encode_utf8(
        proto.replica_id,
    ).len() + 24int
}

/// Estimated size of several operations.
pub open spec fn total_size(protos: Seq<CrdtOpView>) -> int
    decreases protos.len(),
{
    if protos.len() == 0 {
        0
    } else {
        total_size(protos.drop_last()) + op_size(protos.last())
    }
}

/// The wire forms of a list of operations.
pub open spec fn protos_of(ops: Seq<OperationView>) -> Seq<CrdtOpView> {
    ops.map_values(|op: OperationView| proto_of(op))
}

/// The operations in batches: each operation joins the last batch if it fits, and
/// starts a new one if it does not.
pub open spec fn batched(protos: Seq<CrdtOpView>, max_bytes: int) -> Seq<Seq<CrdtOpView>>
    decreases protos.len(),
{
    if protos.len() == 0 {
        Seq::empty()
    } else {
        let before = batched(protos.drop_last(), max_bytes);
        let op = protos.last();
        if before.len() == 0 || total_size(before.last()) + op_size(op) > max_bytes {
            before.push(seq![op])
        } else {
            before.drop_last().push(before.last().push(op))
        }
    }
}

pub open spec fn batch_views(batches: Seq<CrdtBatch>) -> Seq<Seq<CrdtOpView>> {
    batches.map_values(|b: CrdtBatch| b@)
}

/// Converts an operation into its wire form.
pub fn op_to_proto(op: &Operation) -> (proto: CrdtOp)
    ensures
        proto@ == proto_of(op@),
{
    match op {
        Operation::Insert { key, value, timestamp, replica_id } => CrdtOp {
            key: key.clone(),
            value: copy_bytes(value.as_slice()),
            tombstone: false,
            timestamp: *timestamp,
            replica_id: replica_id.to_string(),
        },
        Operation::Remove { key, timestamp, replica_id } => CrdtOp {
            key: key.clone(),
            value: Vec::new(),
            tombstone: true,
            timestamp: *timestamp,
            replica_id: replica_id.to_string(),
        },
    }
}

/// Converts a wire form back into an operation. An operation whose replica id is no
/// UUID is dropped rather than poisoning the merge.
pub fn proto_to_op(proto: CrdtOp) -> (op: Option<Operation>)
    ensures
        match op {
            Some(o) => op_of(proto@) == Some(o@),
            None => op_of(proto@) is None,
        },
{
    match ReplicaId::from_string(proto.replica_id.as_str()) {
        Ok(replica_id) => Some(
            if proto.tombstone {
                Operation::remove(proto.key, proto.timestamp, replica_id)
            } else {
                Operation::insert(proto.key, proto.value, proto.timestamp, replica_id)
            },
        ),
        Err(_) => None,
    }
}

/// Estimates the size of an operation on the wire.
pub fn estimated_op_size(op: &CrdtOp) -> (size: usize)
    requires
        op_size(op@) <= usize::MAX,
    ensures
        size == op_size(op@),
{
    let key: usize = op.key.as_str().as_bytes().len();
    let value: usize = op.value.len();
    let replica: usize = op.replica_id.as_str().as_bytes().len();
    key + value + replica + 24
}

/// Splits operations into batches that are estimated to stay within `max_bytes`. A
/// single operation that is larger is sent alone.
pub fn build_crdt_batches(ops: &[Operation], max_bytes: usize) -> (batches: Vec<CrdtBatch>)
    requires
        forall|i: int| 0 <= i < ops@.len() ==> op_size(proto_of((#[trigger] ops@[i])@)) <= usize::MAX,
    ensures
        batch_views(batches@) == batched(
            protos_of(operation_log::views(ops@)),
            max_bytes as int,
        ),
{
    let ghost all = protos_of(operation_log::views(ops@));
    let mut out: Vec<CrdtBatch> = Vec::new();
    let mut current: Vec<CrdtOp> = Vec::new();
    let mut current_bytes: usize = 0;
    let mut i: usize = 0;
    let ghost f = |op: CrdtOp| op@;
    while i < ops.len()
        invariant
            i <= ops@.len(),
            f == (|op: CrdtOp| op@),
            all == protos_of(operation_log::views(ops@)),
            forall|k: int|
                0 <= k < ops@.len() ==> op_size(proto_of((#[trigger] ops@[k])@)) <= usize::MAX,
            current_bytes == total_size(current@.map_values(f)),
            current@.len() == 0 <==> i == 0,
            i == 0 ==> out@.len() == 0,
            batched(all.subrange(0, i as int), max_bytes as int) == if i == 0 {
                Seq::empty()
            } else {
                batch_views(out@).push(current@.map_values(f))
            },
        decreases ops@.len() - i,
    {
        let ghost before = batched(all.subrange(0, i as int), max_bytes as int);
        let ghost open = current@.map_values(f);
        let ghost done = batch_views(out@);
        let proto: CrdtOp = op_to_proto(&ops[i]);
        let size: usize = estimated_op_size(&proto);
        let ghost op = proto@;
        proof {
            assert(all[i as int] == op);
            assert(all.subrange(0, i + 1).drop_last() =~= all.subrange(0, i as int));
            assert(all.subrange(0, i + 1).last() == op);
            if i > 0 {
                assert(before.last() == open);
                assert(before.drop_last() =~= done);
            }
        }
        if current.len() > 0 && (current_bytes > max_bytes || size > max_bytes - current_bytes) {
            let ghost full = current@;
            out.push(CrdtBatch { ops: current });
            current = Vec::new();
            current_bytes = 0;
            proof {
                assert(batch_views(out@) =~= done.push(open));
                assert(current@.map_values(f) =~= Seq::empty());
            }
        }
        let ghost filling = current@;
        current.push(proto);
        current_bytes = current_bytes + size;
        proof {
            assert(current@.map_values(f) =~= filling.map_values(f).push(op));
            let grown = filling.map_values(f).push(op);
            assert(grown.drop_last() =~= filling.map_values(f));
            assert(grown.last() == op);
            assert(total_size(grown) == total_size(filling.map_values(f)) + op_size(op));
            if filling.len() == 0 {
                assert(current@.map_values(f) =~= seq![op]);
            }
        }
        i = i + 1;
    }
    assert(all.subrange(0, i as int) =~= all);
    if current.len() > 0 {
        let ghost done = batch_views(out@);
        let ghost open = current@.map_values(f);
        out.push(CrdtBatch { ops: current });
        assert(batch_views(out@) =~= done.push(open));
    } else {
        assert(batch_views(out@) =~= Seq::empty());
    }
    out
}

/// The message carries the batch, in its place in the stream of the node named.
pub open spec fn is_envelope(
    message: StreamMessage,
    batch: Seq<CrdtOpView>,
    sequence: u64,
    name: Seq<char>,
) -> bool {
    &&& message.message_type == StreamMessageType::CrdtBatch
    &&& message.payload matches Some(StreamPayload::CrdtBatch(carried))
    &&& carried@ == batch
    &&& message.sequence == sequence
    &&& message.peer_id@ == name
}

/// Wraps a batch in its envelope.
pub fn wrap_crdt_batch(batch: CrdtBatch, sequence: u64, self_name: &str) -> (message: StreamMessage)
    ensures
        message.message_type == StreamMessageType::CrdtBatch,
        message.payload == Some(StreamPayload::CrdtBatch(batch)),
        message.sequence == sequence,
        message.peer_id@ == self_name@,
        is_envelope(message, batch@, sequence, self_name@),
{
    StreamMessage {
        message_type: StreamMessageType::CrdtBatch,
        payload: Some(StreamPayload::CrdtBatch(batch)),
        sequence,
        peer_id: self_name.to_owned(),
    }
}

/// Decodes the operations of a batch.
pub fn decode_batch(batch: CrdtBatch) -> (ops: Vec<Operation>)
    ensures
        operation_log::views(ops@) == ops_of(batch@),
{
    let ghost all = batch@;
    let mut rest: Vec<CrdtOp> = batch.ops;
    let mut backwards: Vec<Operation> = Vec::new();
    let ghost f = |op: CrdtOp| op@;
    proof {
        assert(rest@.map_values(f) =~= all);
        assert(operation_log::views(backwards@).reverse() =~= Seq::empty());
        assert(ops_of(all) =~= ops_of(all) + Seq::empty());
    }
    while rest.len() > 0
        invariant
            f == (|op: CrdtOp| op@),
            ops_of(all) == ops_of(rest@.map_values(f)) + operation_log::views(
                backwards@,
            ).reverse(),
        decreases rest@.len(),
    {
        let ghost before = rest@;
        let ghost tail = operation_log::views(backwards@);
        if let Some(proto) = rest.pop() {
            let ghost last = proto@;
            proof {
                assert(before.map_values(f).last() == last);
                assert(before.map_values(f).drop_last() =~= rest@.map_values(f));
            }
            match proto_to_op(proto) {
                Some(op) => {
                    let ghost o = op@;
                    backwards.push(op);
                    proof {
                        assert(operation_log::views(backwards@) =~= tail.push(o));
                        assert(ops_of(rest@.map_values(f)).push(o) + tail.reverse() =~= ops_of(
                            rest@.map_values(f),
                        ) + tail.push(o).reverse());
                    }
                },
                None => {},
            }
        }
    }
    let mut ops: Vec<Operation> = Vec::new();
    let ghost result = operation_log::views(backwards@).reverse();
    proof {
        assert(ops_of(all) =~= result);
        assert(operation_log::views(ops@) + operation_log::views(backwards@).reverse() =~= result);
    }
    while backwards.len() > 0
        invariant
            result == operation_log::views(ops@) + operation_log::views(backwards@).reverse(),
        decreases backwards@.len(),
    {
        let ghost before = operation_log::views(backwards@);
        let ghost head = operation_log::views(ops@);
        if let Some(op) = backwards.pop() {
            let ghost o = op@;
            ops.push(op);
            proof {
                assert(operation_log::views(ops@) =~= head.push(o));
                assert(before.last() == o);
                assert(operation_log::views(backwards@) =~= before.drop_last());
                assert(head + before.reverse() =~= head.push(o) + before.drop_last().reverse());
            }
        }
    }
    assert(operation_log::views(ops@) =~= result);
    ops
}

/// How an engine and its clock change with a received batch.
pub open spec fn delivered<E: NamespaceCrdtEngine>(
    before: E,
    clock_before: u64,
    now: u64,
    batch: Seq<CrdtOpView>,
    after: E,
    clock_after: u64,
) -> bool {
    if ops_of(batch).len() == 0 {
        after == before && clock_after == clock_before
    } else {
        E::remote_ops_applied(before, clock_before, now, ops_of(batch), after, clock_after)
    }
}

/// Decodes a received batch and merges it into an engine. Operations whose replica
/// id is no UUID are skipped; a batch without any other changes nothing.
pub fn dispatch_crdt_batch<E: NamespaceCrdtEngine>(
    engine: &mut E,
    clock: &mut LamportClock,
    now: u64,
    batch: CrdtBatch,
)
    requires
        old(engine).valid(),
    ensures
        final(engine).valid(),
        if ops_of(batch@).len() == 0 {
            *final(engine) == *old(engine) && *final(clock) == *old(clock)
        } else {
            E::remote_ops_applied(
                *old(engine),
                old(clock)@,
                now,
                ops_of(batch@),
                *final(engine),
                final(clock)@,
            )
        },
        delivered::<E>(*old(engine), old(clock)@, now, batch@, *final(engine), final(clock)@),
{
    let ops: Vec<Operation> = decode_batch(batch);
    if ops.len() == 0 {
        return;
    }
    engine.apply_remote(clock, now, ops);
}

// ---------------------------------------------------------------------------
// Laws
// ---------------------------------------------------------------------------
/// An operation survives the wire.
pub proof fn law_operation_survives_wire(op: OperationView)
    ensures
        op_of(proto_of(op)) == Some(op),
{
    replica::law_replica_id_text_round_trip(op.version.replica_id.bits);
}

/// What is sent is what arrives.
pub proof fn law_batch_survives_wire(ops: Seq<OperationView>)
    ensures
        ops_of(protos_of(ops)) == ops,
    decreases ops.len(),
{
    if ops.len() == 0 {
        assert(protos_of(ops) =~= Seq::empty());
        assert(ops =~= Seq::empty());
    } else {
        law_batch_survives_wire(ops.drop_last());
        law_operation_survives_wire(ops.last());
        assert(protos_of(ops).drop_last() =~= protos_of(ops.drop_last()));
        assert(protos_of(ops).last() == proto_of(ops.last()));
        assert(ops =~= ops.drop_last().push(ops.last()));
    }
}

/// Batching loses no operation, invents none, and keeps their order.
pub proof fn law_batches_keep_operations(protos: Seq<CrdtOpView>, max_bytes: int)
    ensures
        batched(protos, max_bytes).flatten() == protos,
    decreases protos.len(),
{
    let b = batched(protos, max_bytes);
    if protos.len() == 0 {
        assert(b.flatten() =~= Seq::empty());
    } else {
        let before = batched(protos.drop_last(), max_bytes);
        let op = protos.last();
        law_batches_keep_operations(protos.drop_last(), max_bytes);
        if before.len() == 0 || total_size(before.last()) + op_size(op) > max_bytes {
            before.lemma_flatten_push(seq![op]);
            assert(before.flatten() + seq![op] =~= protos);
        } else {
            let head = before.drop_last();
            assert(before =~= head.push(before.last()));
            head.lemma_flatten_push(before.last());
            head.lemma_flatten_push(before.last().push(op));
            assert(head.flatten() + before.last().push(op) =~= (head.flatten()
                + before.last()).push(op));
            assert(before.flatten().push(op) =~= protos);
        }
    }
}

/// Every batch holds an operation, and stays within the limit unless it holds a
/// single one.
pub proof fn law_batches_respect_limit(protos: Seq<CrdtOpView>, max_bytes: int)
    ensures
        forall|i: int|
            0 <= i < batched(protos, max_bytes).len() ==> {
                let batch = #[trigger] batched(protos, max_bytes)[i];
                batch.len() > 0 && (total_size(batch) <= max_bytes || batch.len() == 1)
            },
    decreases protos.len(),
{
    if protos.len() > 0 {
        let before = batched(protos.drop_last(), max_bytes);
        let op = protos.last();
        law_batches_respect_limit(protos.drop_last(), max_bytes);
        let b = batched(protos, max_bytes);
        assert forall|i: int| 0 <= i < b.len() implies ({
            let batch = #[trigger] b[i];
            batch.len() > 0 && (total_size(batch) <= max_bytes || batch.len() == 1)
        }) by {
            if i < b.len() - 1 {
                assert(b[i] == before[i]);
            } else if !(before.len() == 0 || total_size(before.last()) + op_size(op) > max_bytes) {
                let grown = before.last().push(op);
                assert(b[i] == grown);
                assert(grown.drop_last() =~= before.last());
                assert(grown.last() == op);
            }
        }
    }
}

/// The operations of several batches.
pub open spec fn deliveries_of(batches: Seq<Seq<CrdtOpView>>) -> Seq<Seq<OperationView>> {
    batches.map_values(|b: Seq<CrdtOpView>| ops_of(b))
}

proof fn lemma_ops_of_concat(a: Seq<CrdtOpView>, b: Seq<CrdtOpView>)
    ensures
        ops_of(a + b) == ops_of(a) + ops_of(b),
    decreases b.len(),
{
    if b.len() == 0 {
        assert(a + b =~= a);
        assert(ops_of(a) + ops_of(b) =~= ops_of(a));
    } else {
        lemma_ops_of_concat(a, b.drop_last());
        assert((a + b).drop_last() =~= a + b.drop_last());
        assert((a + b).last() == b.last());
        if let Some(op) = op_of(b.last()) {
            assert((ops_of(a) + ops_of(b.drop_last())).push(op) =~= ops_of(a) + ops_of(b));
        }
    }
}

proof fn lemma_deliveries_flatten(batches: Seq<Seq<CrdtOpView>>)
    ensures
        deliveries_of(batches).flatten() == ops_of(batches.flatten()),
    decreases batches.len(),
{
    if batches.len() == 0 {
        assert(batches.flatten() =~= Seq::empty());
        assert(deliveries_of(batches) =~= Seq::empty());
        assert(deliveries_of(batches).flatten() =~= Seq::empty());
    } else {
        let rest = batches.drop_last();
        lemma_deliveries_flatten(rest);
        assert(batches =~= rest.push(batches.last()));
        assert(deliveries_of(batches) =~= deliveries_of(rest).push(ops_of(batches.last())));
        rest.lemma_flatten_push(batches.last());
        deliveries_of(rest).lemma_flatten_push(ops_of(batches.last()));
        lemma_ops_of_concat(rest.flatten(), batches.last());
    }
}

/// The batches of a list of operations deliver just these operations.
pub proof fn law_batches_deliver_operations(ops: Seq<OperationView>, max_bytes: int)
    ensures
        deliveries_of(batched(protos_of(ops), max_bytes)).flatten() == ops,
{
    law_batches_keep_operations(protos_of(ops), max_bytes);
    lemma_deliveries_flatten(batched(protos_of(ops), max_bytes));
    law_batch_survives_wire(ops);
}

/// A fresh last-writer-wins node that receives the log of another one over the wire,
/// batch by batch, agrees with it.
pub proof fn law_log_over_the_wire_converges(
    sender: LwwView,
    max_bytes: int,
    nodes: Seq<LwwView>,
    clocks: Seq<u64>,
    times: Seq<u64>,
)
    requires
        lww_convergence::reflects(sender.state, sender.log),
        lww_convergence::one_per_version(sender.log),
        lww_convergence::receives(
            nodes,
            clocks,
            times,
            deliveries_of(batched(protos_of(sender.log), max_bytes)),
        ),
        nodes[0].state == lww_convergence::empty_state(),
        nodes[0].log == Seq::<OperationView>::empty(),
    ensures
        lww_convergence::agree(nodes.last().state, sender.state),
{
    let deliveries = deliveries_of(batched(protos_of(sender.log), max_bytes));
    law_batches_deliver_operations(sender.log, max_bytes);
    assert(nodes[0].log + deliveries.flatten() =~= sender.log);
    assert(lww_convergence::reflects(nodes[0].state, nodes[0].log));
    lww_convergence::law_deliveries_add_up(nodes, clocks, times, deliveries);
    lww_convergence::law_same_operations_same_values(
        nodes.last().state,
        sender.state,
        sender.log,
        sender.log,
    );
}

/// No operations make no batch.
pub proof fn law_nothing_to_send(max_bytes: int)
    ensures
        batched(Seq::empty(), max_bytes).len() == 0,
{
}

/// The wire form of an operation says its key, its time, its value and the text of its
/// replica id, and is marked as a removal exactly where it is one. A removal has no value.
pub proof fn law_wire_form_says_the_operation(op: OperationView)
    ensures
        proto_of(op).key == op.key,
        proto_of(op).timestamp == op.version.timestamp,
        proto_of(op).tombstone <==> op.value is None,
        op.value matches Some(v) ==> proto_of(op).value == v,
        op.value is None ==> proto_of(op).value.len() == 0,
        proto_of(op).replica_id == replica::uuid_text(op.version.replica_id.bits),
{
}

/// An operation is read from the wire with its key and its time, as a removal exactly where
/// it is marked as one, and else with its value, even an empty one. It is dropped exactly
/// where its replica id is no identifier.
pub proof fn law_wire_form_is_read(proto: CrdtOpView)
    ensures
        match replica::uuid_value(proto.replica_id) {
            None => op_of(proto) is None,
            Some(bits) => {
                &&& op_of(proto) matches Some(op)
                &&& op.key == proto.key
                &&& op.version.timestamp == proto.timestamp
                &&& op.version.replica_id.bits == bits as u128
                &&& proto.tombstone ==> op.value is None
                &&& !proto.tombstone ==> op.value == Some(proto.value)
            },
        },
{
}

/// An operation whose replica id is no identifier is skipped, wherever it stands, and the
/// others are read as if it were not there.
pub proof fn law_unreadable_operation_is_skipped(
    before: Seq<CrdtOpView>,
    bad: CrdtOpView,
    after: Seq<CrdtOpView>,
)
    requires
        replica::uuid_value(bad.replica_id) is None,
    ensures
        ops_of(before.push(bad) + after) == ops_of(before + after),
        ops_of(before + after) == ops_of(before) + ops_of(after),
{
    lemma_ops_of_concat(before.push(bad), after);
    lemma_ops_of_concat(before, after);
    assert(before.push(bad).drop_last() =~= before);
}

/// The bytes that operations are estimated to take: those of the key, of the value and of
/// the text of the replica id, and 24 more for each.
pub open spec fn estimated_bytes(protos: Seq<CrdtOpView>) -> int
    decreases protos.len(),
{
    if protos.len() == 0 {
        0
    } else {
        let p = protos.last();
        estimated_bytes(protos.drop_last()) + vstd::utf8::encode_utf8(p.key).len() + p.value.len()
            + vstd::utf8::encode_utf8(p.replica_id).len() + 24
    }
}

proof fn lemma_estimated_bytes(protos: Seq<CrdtOpView>)
    ensures
        estimated_bytes(protos) == total_size(protos),
    decreases protos.len(),
{
    if protos.len() > 0 {
        lemma_estimated_bytes(protos.drop_last());
    }
}

/// A batch of more than one operation stays within the limit, counted in the bytes of its
/// keys, values and replica ids and 24 for each operation. No batch ends early: the first
/// operation of the next one would not have fit.
pub proof fn law_batches_are_full(protos: Seq<CrdtOpView>, max_bytes: int)
    ensures
        ({
            let b = batched(protos, max_bytes);
            &&& forall|i: int|
                0 <= i < b.len() ==> (#[trigger] b[i]).len() > 0 && (b[i].len() > 1
                    ==> estimated_bytes(b[i]) <= max_bytes)
            &&& forall|i: int|
                0 < i < b.len() ==> estimated_bytes(b[i - 1]) + estimated_bytes(
                    seq![(#[trigger] b[i])[0]],
                ) > max_bytes
        }),
    decreases protos.len(),
{
    let b = batched(protos, max_bytes);
    if protos.len() > 0 {
        let before = batched(protos.drop_last(), max_bytes);
        let op = protos.last();
        law_batches_are_full(protos.drop_last(), max_bytes);
        law_batches_respect_limit(protos, max_bytes);
        assert forall|i: int| 0 <= i < b.len() implies (#[trigger] b[i]).len() > 0 && (b[i].len()
            > 1 ==> estimated_bytes(b[i]) <= max_bytes) by {
            lemma_estimated_bytes(b[i]);
        }
        let one = seq![op];
        assert(one.drop_last() =~= Seq::empty());
        assert(estimated_bytes(Seq::<CrdtOpView>::empty()) == 0);
        assert(estimated_bytes(one) == op_size(op));
        assert forall|i: int| 0 < i < b.len() implies estimated_bytes(b[i - 1]) + estimated_bytes(
            seq![(#[trigger] b[i])[0]],
        ) > max_bytes by {
            let n = before.len() as int;
            if i < n - 1 {
                assert(b[i] == before[i] && b[i - 1] == before[i - 1]);
            } else if i == n - 1 {
                assert(b[i - 1] == before[i - 1]);
                assert(before[i].len() > 0);
                assert(b[i][0] == before[i][0]);
                assert(estimated_bytes(before[i - 1]) + estimated_bytes(seq![before[i][0]])
                    > max_bytes);
            } else {
                assert(b[i] =~= one);
                assert(b[i - 1] == before.last());
                lemma_estimated_bytes(before.last());
            }
        }
    }
}

/// A message says who sent which batch, and when in their stream: two messages for other
/// batches, places or nodes differ.
pub proof fn law_envelope_tells_messages_apart(
    message: StreamMessage,
    batch: Seq<CrdtOpView>,
    sequence: u64,
    name: Seq<char>,
    other_batch: Seq<CrdtOpView>,
    other_sequence: u64,
    other_name: Seq<char>,
)
    requires
        is_envelope(message, batch, sequence, name),
        is_envelope(message, other_batch, other_sequence, other_name),
    ensures
        batch == other_batch,
        sequence == other_sequence,
        name == other_name,
        message.sequence == sequence,
        message.peer_id@ == name,
        message.payload matches Some(StreamPayload::CrdtBatch(carried)) && carried@ == batch,
{
}

/// What one node sends, another one applies: the operations of a batch arrive all of them,
/// in order, and nothing else does. A batch of nothing changes neither engine nor clock.
pub proof fn law_sent_operations_are_applied<E: NamespaceCrdtEngine>(
    before: E,
    clock_before: u64,
    now: u64,
    ops: Seq<OperationView>,
    after: E,
    clock_after: u64,
)
    requires
        delivered::<E>(before, clock_before, now, protos_of(ops), after, clock_after),
    ensures
        ops.len() > 0 ==> E::remote_ops_applied(
            before,
            clock_before,
            now,
            ops,
            after,
            clock_after,
        ),
        ops.len() == 0 ==> after == before && clock_after == clock_before,
{
    law_batch_survives_wire(ops);
}

} // verus!
