//! Where the parts of payloads, shards and logs stand in their bytes.

use vstd::prelude::*;

use super::codec;
use super::codec::{WireOperationView, WirePoint};
use super::epoch_max_wins;
use super::epoch_max_wins::{EpochCount, LivePoint, RateLimitVersion, ShardView};
use super::operation::OperationView;
use super::operation_log;
use crate::bytes;

verus! {

/// The number without a sign that has the same 64 bits.
pub open spec fn bits_of(count: i64) -> int {
    if count >= 0 {
        count as int
    } else {
        count + 0x1_0000_0000_0000_0000
    }
}

/// The number in the sixteen bytes from `at` on, most significant first.
pub open spec fn id_at(data: Seq<u8>, at: int) -> int {
    0x1_0000_0000_0000_0000 * bytes::be_number(data, at) + bytes::be_number(data, at + 8)
}

/// A payload is the eight bytes of the epoch and the eight bytes of the count, each most
/// significant first.
pub proof fn law_payload_layout(value: EpochCount)
    ensures
        epoch_max_wins::payload(value).len() == 16,
        bytes::be_number(epoch_max_wins::payload(value), 0) == value.epoch,
        bytes::be_number(epoch_max_wins::payload(value), 8) == bits_of(value.count),
{
    let (e, c) = (bytes::u64_be(value.epoch), bytes::u64_be(value.count as u64));
    bytes::law_bytes_add_up(value.epoch);
    bytes::law_bytes_add_up(value.count as u64);
    bytes::law_signed_bits(value.count);
    let s = epoch_max_wins::payload(value);
    assert(forall|i: int| 0 <= i < 8 ==> #[trigger] s[i] == e[i]);
    assert(forall|i: int| 0 <= i < 8 ==> #[trigger] c[i] == s[i + 8]);
    assert(bytes::be_number(s, 0) == bytes::be_number(e, 0));
    assert(bytes::be_number(s, 8) == bytes::be_number(c, 0));
}

/// Sixteen bytes are read as the epoch and the count that they hold, and data that is
/// shorter as nothing.
pub proof fn law_payload_is_read(data: Seq<u8>)
    ensures
        data.len() == 16 ==> {
            &&& epoch_max_wins::decoded_value(data) matches Some(v)
            &&& v.epoch == bytes::be_number(data, 0)
            &&& bits_of(v.count) == bytes::be_number(data, 8)
        },
        data.len() < 16 ==> epoch_max_wins::decoded_value(data) is None,
{
    if data.len() <= 16 {
        epoch_max_wins::law_payload_is_no_shard(data);
    }
    if data.len() == 16 {
        let (a, b) = (data.subrange(0, 8), data.subrange(8, 16));
        bytes::law_read_bytes_add_up(a);
        bytes::law_read_bytes_add_up(b);
        let u = bytes::u64_of_be(b);
        bytes::lemma_i64_bits(0, u);
        bytes::law_signed_bits(u as i64);
        assert(forall|i: int| 0 <= i < 8 ==> #[trigger] data[i] == a[i]);
        assert(forall|i: int| 0 <= i < 8 ==> #[trigger] b[i] == data[i + 8]);
        assert(bytes::be_number(data, 0) == bytes::be_number(a, 0));
        assert(bytes::be_number(data, 8) == bytes::be_number(b, 0));
    }
}

/// Element `i` of a list of elements of `width` bytes each.
proof fn lemma_concat_all_at<T>(s: Seq<T>, write: spec_fn(T) -> Seq<u8>, width: nat, i: int)
    requires
        forall|x: T| #[trigger] write(x).len() == width,
        0 <= i < s.len(),
    ensures
        codec::concat_all(s, write).len() == width * s.len(),
        width * i + width <= width * s.len(),
        codec::concat_all(s, write).subrange(width * i, width * i + width) == write(s[i]),
    decreases i,
{
    let all = codec::concat_all(s, write);
    codec::lemma_concat_all_len(s, write, width);
    assert(width * i + width == width * (i + 1)) by (nonlinear_arith);
    assert(width * (i + 1) <= width * s.len()) by (nonlinear_arith)
        requires
            i + 1 <= s.len(),
    ;
    if i == 0 {
        assert(width * i == 0) by (nonlinear_arith)
            requires
                i == 0,
        ;
        assert(all.subrange(0, width as int) =~= write(s[0]));
    } else {
        let rest = s.drop_first();
        let tail = codec::concat_all(rest, write);
        lemma_concat_all_at(rest, write, width, i - 1);
        assert(width * i == width + width * (i - 1)) by (nonlinear_arith);
        assert(width * (i - 1) >= 0) by (nonlinear_arith)
            requires
                i >= 1,
        ;
        assert(all.subrange(width * i, width * i + width) =~= tail.subrange(
            width * (i - 1),
            width * (i - 1) + width,
        ));
        assert(rest[i - 1] == s[i]);
    }
}

/// Eight bytes of a longer text stand for the number that they stand for alone.
proof fn lemma_le_at(s: Seq<u8>, at: int, x: u64)
    requires
        0 <= at,
        at + 8 <= s.len(),
        s.subrange(at, at + 8) == bytes::u64_le(x),
    ensures
        bytes::le_number(s, at) == x,
{
    bytes::law_bytes_add_up(x);
    let part = s.subrange(at, at + 8);
    assert(forall|i: int| 0 <= i < 8 ==> #[trigger] part[i] == s[at + i]);
}

/// Sixteen bytes of a longer text stand for the replica id that they were written for.
proof fn lemma_id_at(s: Seq<u8>, at: int, bits: u128)
    requires
        0 <= at,
        at + 16 <= s.len(),
        s.subrange(at, at + 16) == bytes::u128_le(bytes::u128_swapped(bits)),
    ensures
        id_at(s, at) == bits,
{
    bytes::lemma_u128_swapped(bits);
    bytes::law_sixteen_bytes_add_up(bits);
    let part = s.subrange(at, at + 16);
    assert(forall|i: int| 0 <= i < 16 ==> #[trigger] part[i] == s[at + i]);
    assert(bytes::be_number(s, at) == bytes::be_number(part, 0));
    assert(bytes::be_number(s, at + 8) == bytes::be_number(part, 8));
}

/// The parts of a point, in the 48 bytes from `at` on.
proof fn lemma_point_at(s: Seq<u8>, at: int, p: LivePoint)
    requires
        0 <= at,
        at + 48 <= s.len(),
        s.subrange(at, at + 48) == codec::point_layout(epoch_max_wins::wire_point(p)),
    ensures
        bytes::le_number(s, at) == p.value.epoch,
        bytes::le_number(s, at + 8) == bits_of(p.value.count),
        bytes::le_number(s, at + 16) == p.version.timestamp,
        bytes::le_number(s, at + 24) == 16,
        id_at(s, at + 32) == p.version.replica_id.bits,
{
    let w = epoch_max_wins::wire_point(p);
    let part = s.subrange(at, at + 48);
    bytes::lemma_u64_round_trip(w.0);
    bytes::lemma_u64_round_trip(w.1 as u64);
    bytes::lemma_u64_round_trip(w.2);
    bytes::lemma_u64_round_trip(w.3);
    bytes::lemma_u128_round_trip(w.4);
    bytes::law_signed_bits(p.value.count);
    assert(s.subrange(at, at + 8) =~= part.subrange(0, 8));
    assert(s.subrange(at + 8, at + 16) =~= part.subrange(8, 16));
    assert(s.subrange(at + 16, at + 24) =~= part.subrange(16, 24));
    assert(s.subrange(at + 24, at + 32) =~= part.subrange(24, 32));
    assert(s.subrange(at + 32, at + 48) =~= part.subrange(32, 48));
    assert(part.subrange(0, 8) =~= bytes::u64_le(w.0));
    assert(part.subrange(8, 16) =~= bytes::u64_le(w.1 as u64));
    assert(part.subrange(16, 24) =~= bytes::u64_le(w.2));
    assert(part.subrange(24, 32) =~= bytes::u64_le(w.3));
    assert(part.subrange(32, 48) =~= bytes::u128_le(w.4));
    lemma_le_at(s, at, w.0);
    lemma_le_at(s, at + 8, w.1 as u64);
    lemma_le_at(s, at + 16, w.2);
    lemma_le_at(s, at + 24, w.3);
    lemma_id_at(s, at + 32, p.version.replica_id.bits);
}

/// An encoded shard starts with the number of its points. Each point takes 48 bytes: its
/// epoch, its count, its timestamp, the length of the replica id, each least significant
/// byte first, and the replica id, most significant byte first. Then comes the tombstone: a
/// zero, or a one with the timestamp, the length of the replica id, and the replica id.
pub proof fn law_shard_layout(s: ShardView, i: int)
    requires
        s.points.len() <= u64::MAX,
    ensures
        ({
            let d = epoch_max_wins::encoded_shard(s);
            let end = 8 + 48 * s.points.len() as int;
            &&& bytes::le_number(d, 0) == s.points.len()
            &&& 0 <= i < s.points.len() ==> {
                let p = s.points[i];
                let at = 8 + 48 * i;
                &&& bytes::le_number(d, at) == p.value.epoch
                &&& bytes::le_number(d, at + 8) == bits_of(p.value.count)
                &&& bytes::le_number(d, at + 16) == p.version.timestamp
                &&& bytes::le_number(d, at + 24) == 16
                &&& id_at(d, at + 32) == p.version.replica_id.bits
            }
            &&& match s.tombstone {
                None => d.len() == end + 1 && d[end] == 0,
                Some(t) => {
                    &&& d.len() == end + 33
                    &&& d[end] == 1
                    &&& bytes::le_number(d, end + 1) == t.timestamp
                    &&& bytes::le_number(d, end + 9) == 16
                    &&& id_at(d, end + 17) == t.replica_id.bits
                },
            }
        }),
{
    let d = epoch_max_wins::encoded_shard(s);
    let f = |p: LivePoint| epoch_max_wins::wire_point(p);
    let write = |p: WirePoint| codec::point_layout(p);
    let wire = s.points.map_values(f);
    let n = s.points.len();
    let head = bytes::u64_le(n as u64);
    let body = codec::concat_all(wire, write);
    let tail = codec::tombstone_layout(epoch_max_wins::wire_tombstone(s.tombstone));
    let end = 8 + 48 * n as int;
    epoch_max_wins::lemma_encoded_shard_len(s);
    bytes::lemma_u64_round_trip(n as u64);
    assert(d == head + (body + tail));
    assert(d.subrange(0, 8) =~= head);
    lemma_le_at(d, 0, n as u64);
    assert forall|p: WirePoint| #[trigger] write(p).len() == 48 by {
        bytes::lemma_u64_round_trip(p.0);
        bytes::lemma_u64_round_trip(p.1 as u64);
        bytes::lemma_u64_round_trip(p.2);
        bytes::lemma_u64_round_trip(p.3);
        bytes::lemma_u128_round_trip(p.4);
    }
    codec::lemma_concat_all_len(wire, write, 48);
    if 0 <= i < n {
        let at = 8 + 48 * i;
        lemma_concat_all_at(wire, write, 48, i);
        assert(d.subrange(at, at + 48) =~= body.subrange(48 * i, 48 * i + 48));
        assert(wire[i] == epoch_max_wins::wire_point(s.points[i]));
        lemma_point_at(d, at, s.points[i]);
    }
    assert(forall|k: int| 0 <= k < tail.len() ==> #[trigger] tail[k] == d[end + k]);
    assert(tail[0] == d[end]);
    if let Some(t) = s.tombstone {
        lemma_tombstone_at(d, end, t, tail);
    }
}

proof fn lemma_tombstone_at(d: Seq<u8>, end: int, t: RateLimitVersion, tail: Seq<u8>)
    requires
        0 <= end,
        d.len() == end + 33,
        tail == codec::tombstone_layout(Some(epoch_max_wins::wire_version(t))),
        forall|k: int| 0 <= k < tail.len() ==> #[trigger] tail[k] == d[end + k],
    ensures
        bytes::le_number(d, end + 1) == t.timestamp,
        bytes::le_number(d, end + 9) == 16,
        id_at(d, end + 17) == t.replica_id.bits,
{
    let w = epoch_max_wins::wire_version(t);
    bytes::lemma_u64_round_trip(w.0);
    bytes::lemma_u64_round_trip(w.1);
    bytes::lemma_u128_round_trip(w.2);
    assert(tail.len() == 33);
    assert(d.subrange(end + 1, end + 9) =~= tail.subrange(1, 9));
    assert(d.subrange(end + 9, end + 17) =~= tail.subrange(9, 17));
    assert(d.subrange(end + 17, end + 33) =~= tail.subrange(17, 33));
    assert(tail.subrange(1, 9) =~= bytes::u64_le(w.0));
    assert(tail.subrange(9, 17) =~= bytes::u64_le(w.1));
    assert(tail.subrange(17, 33) =~= bytes::u128_le(w.2));
    lemma_le_at(d, end + 1, w.0);
    lemma_le_at(d, end + 9, w.1);
    lemma_id_at(d, end + 17, t.replica_id.bits);
}

/// The first operation of an encoded log stands behind the eight bytes of the number of
/// operations. A write starts with four zero bytes, a removal with a one and three zeros;
/// then come the length of the key and the key in UTF-8, and for a write the length of the
/// value and the value. Behind that stand the timestamp, the length of the replica id, and
/// the replica id, most significant byte first. Numbers are least significant byte first.
#[verifier::rlimit(60)]
pub proof fn law_log_layout(ops: Seq<OperationView>)
    requires
        0 < ops.len() <= u64::MAX,
        vstd::utf8::encode_utf8(ops[0].key).len() <= u64::MAX,
        ops[0].value matches Some(v) ==> v.len() <= u64::MAX,
    ensures
        ({
            let d = operation_log::encoded_log(ops);
            let op = ops[0];
            let key = vstd::utf8::encode_utf8(op.key);
            let value_at = 20 + key.len() as int;
            let stamp_at = match op.value {
                Some(v) => value_at + 8 + v.len() as int,
                None => value_at,
            };
            &&& bytes::le_number(d, 0) == ops.len()
            &&& d[8] == if op.value is Some {
                0u8
            } else {
                1u8
            }
            &&& d[9] == 0 && d[10] == 0 && d[11] == 0
            &&& bytes::le_number(d, 12) == key.len()
            &&& d.subrange(20, value_at) == key
            &&& op.value matches Some(v) ==> bytes::le_number(d, value_at) == v.len()
                && d.subrange(value_at + 8, stamp_at) == v
            &&& bytes::le_number(d, stamp_at) == op.version.timestamp
            &&& bytes::le_number(d, stamp_at + 8) == 16
            &&& id_at(d, stamp_at + 16) == op.version.replica_id.bits
            &&& d.len() >= stamp_at + 32
        }),
{
    let f = |o: OperationView| operation_log::wire_of(o);
    let write = |o: WireOperationView| codec::operation_layout(o);
    let wire = ops.map_values(f);
    let d = operation_log::encoded_log(ops);
    let op = ops[0];
    let w = operation_log::wire_of(op);
    assert(wire[0] == w);
    let key = vstd::utf8::encode_utf8(op.key);
    let head = bytes::u64_le(ops.len() as u64);
    let first = codec::operation_layout(w);
    let rest = codec::concat_all(wire.drop_first(), write);
    bytes::lemma_u64_round_trip(ops.len() as u64);
    bytes::lemma_u64_round_trip(key.len() as u64);
    bytes::lemma_u64_round_trip(w.timestamp);
    bytes::lemma_u64_round_trip(w.id_len);
    bytes::lemma_u128_round_trip(w.id);
    assert(d == head + (first + rest));
    assert(d.subrange(0, 8) =~= head);
    lemma_le_at(d, 0, ops.len() as u64);
    let stamp = codec::stamp_layout(w);
    let key_bytes = codec::bytes_layout(key);
    let value_at = 20 + key.len() as int;
    match op.value {
        Some(v) => {
            bytes::lemma_u64_round_trip(v.len() as u64);
            let stamp_at = value_at + 8 + v.len() as int;
            assert(first == seq![0u8, 0, 0, 0] + (key_bytes + (codec::bytes_layout(v) + stamp)));
            assert(d.subrange(12, 20) =~= bytes::u64_le(key.len() as u64));
            assert(d.subrange(20, value_at) =~= key);
            assert(d.subrange(value_at, value_at + 8) =~= bytes::u64_le(v.len() as u64));
            assert(d.subrange(value_at + 8, stamp_at) =~= v);
            assert(d.subrange(stamp_at, stamp_at + 32) =~= stamp);
            lemma_le_at(d, 12, key.len() as u64);
            lemma_le_at(d, value_at, v.len() as u64);
            lemma_stamp_at(d, stamp_at, op);
        },
        None => {
            assert(first == seq![1u8, 0, 0, 0] + (key_bytes + stamp));
            assert(d.subrange(12, 20) =~= bytes::u64_le(key.len() as u64));
            assert(d.subrange(20, value_at) =~= key);
            assert(d.subrange(value_at, value_at + 32) =~= stamp);
            lemma_le_at(d, 12, key.len() as u64);
            lemma_stamp_at(d, value_at, op);
        },
    }
}

proof fn lemma_stamp_at(d: Seq<u8>, at: int, op: OperationView)
    requires
        0 <= at,
        at + 32 <= d.len(),
        d.subrange(at, at + 32) == codec::stamp_layout(operation_log::wire_of(op)),
    ensures
        bytes::le_number(d, at) == op.version.timestamp,
        bytes::le_number(d, at + 8) == 16,
        id_at(d, at + 16) == op.version.replica_id.bits,
{
    let w = operation_log::wire_of(op);
    let part = d.subrange(at, at + 32);
    bytes::lemma_u64_round_trip(w.timestamp);
    bytes::lemma_u64_round_trip(w.id_len);
    bytes::lemma_u128_round_trip(w.id);
    assert(d.subrange(at, at + 8) =~= part.subrange(0, 8));
    assert(d.subrange(at + 8, at + 16) =~= part.subrange(8, 16));
    assert(d.subrange(at + 16, at + 32) =~= part.subrange(16, 32));
    assert(part.subrange(0, 8) =~= bytes::u64_le(w.timestamp));
    assert(part.subrange(8, 16) =~= bytes::u64_le(w.id_len));
    assert(part.subrange(16, 32) =~= bytes::u128_le(w.id));
    lemma_le_at(d, at, w.timestamp);
    lemma_le_at(d, at + 8, w.id_len);
    lemma_id_at(d, at + 16, op.version.replica_id.bits);
}

/// The operations of an encoded log stand one behind the other: behind the first eight
/// bytes, the bytes of a list are those of its first part and then those of the rest.
pub proof fn law_log_bytes_line_up(a: Seq<OperationView>, b: Seq<OperationView>)
    ensures
        operation_log::encoded_log(a + b).skip(8) == operation_log::encoded_log(a).skip(8)
            + operation_log::encoded_log(b).skip(8),
{
    let f = |o: OperationView| operation_log::wire_of(o);
    let write = |o: WireOperationView| codec::operation_layout(o);
    let (x, y) = (a.map_values(f), b.map_values(f));
    assert((a + b).map_values(f) =~= x + y);
    lemma_concat_all_add(x, y, write);
    bytes::lemma_u64_round_trip((a + b).len() as u64);
    bytes::lemma_u64_round_trip(a.len() as u64);
    bytes::lemma_u64_round_trip(b.len() as u64);
    assert(operation_log::encoded_log(a + b).skip(8) =~= codec::concat_all(x + y, write));
    assert(operation_log::encoded_log(a).skip(8) =~= codec::concat_all(x, write));
    assert(operation_log::encoded_log(b).skip(8) =~= codec::concat_all(y, write));
}

proof fn lemma_concat_all_add<T>(a: Seq<T>, b: Seq<T>, write: spec_fn(T) -> Seq<u8>)
    ensures
        codec::concat_all(a + b, write) == codec::concat_all(a, write) + codec::concat_all(b, write),
    decreases a.len(),
{
    if a.len() == 0 {
        assert(a + b =~= b);
        assert(codec::concat_all(a, write) + codec::concat_all(b, write) =~= codec::concat_all(
            b,
            write,
        ));
    } else {
        lemma_concat_all_add(a.drop_first(), b, write);
        assert((a + b).drop_first() =~= a.drop_first() + b);
        assert((a + b)[0] == a[0]);
        assert(codec::concat_all(a + b, write) =~= codec::concat_all(a, write)
            + codec::concat_all(b, write));
    }
}

} // verus!
