//! The binary layout of shards and operation logs.
//!
//! Both are written by `bincode` in its fixed-width little-endian layout:
//! integers as they are, a sequence as its 64-bit length followed by its
//! elements, an optional value as a tag byte, a variant as a 32-bit index. A
//! replica id is a byte string of sixteen bytes, most significant first, behind
//! its 64-bit length.

use bincode::Options;
use vstd::prelude::*;

use crate::bytes;

verus! {

/// The elements of `s` written one after the other.
pub open spec fn concat_all<T>(s: Seq<T>, write: spec_fn(T) -> Seq<u8>) -> Seq<u8>
    decreases s.len(),
{
    if s.len() == 0 {
        Seq::empty()
    } else {
        write(s[0]) + concat_all(s.drop_first(), write)
    }
}

/// Data that fits in memory starts with the form of at most one element.
pub open spec fn prefix_free<T>(write: spec_fn(T) -> Seq<u8>) -> bool {
    forall|a: T, b: T, z: Seq<u8>|
        #![trigger write(a).is_prefix_of(z), write(b).is_prefix_of(z)]
        z.len() <= usize::MAX && write(a).is_prefix_of(z) && write(b).is_prefix_of(z) ==> a == b
}

pub proof fn lemma_prefix_split(a: Seq<u8>, b: Seq<u8>, z: Seq<u8>)
    requires
        (a + b).is_prefix_of(z),
    ensures
        a.is_prefix_of(z),
        b.is_prefix_of(z.skip(a.len() as int)),
{
    let ab = a + b;
    assert(a =~= z.subrange(0, a.len() as int)) by {
        assert forall|i: int| 0 <= i < a.len() implies a[i] == z[i] by {
            assert(a[i] == ab[i] && ab[i] == z.subrange(0, ab.len() as int)[i]);
        }
    }
    assert(b =~= z.skip(a.len() as int).subrange(0, b.len() as int)) by {
        assert forall|i: int| 0 <= i < b.len() implies b[i] == z[a.len() + i] by {
            assert(b[i] == ab[a.len() + i] && ab[a.len() + i] == z.subrange(
                0,
                ab.len() as int,
            )[a.len() + i]);
        }
    }
}

pub proof fn lemma_prefix_same_len(a: Seq<u8>, b: Seq<u8>, z: Seq<u8>)
    requires
        a.is_prefix_of(z),
        b.is_prefix_of(z),
        a.len() == b.len(),
    ensures
        a == b,
{
    assert(a =~= b);
}

/// Two lists of the same length whose forms both start `z` are equal.
pub proof fn lemma_concat_all_unique<T>(
    s: Seq<T>,
    t: Seq<T>,
    write: spec_fn(T) -> Seq<u8>,
    z: Seq<u8>,
)
    requires
        prefix_free(write),
        z.len() <= usize::MAX,
        s.len() == t.len(),
        concat_all(s, write).is_prefix_of(z),
        concat_all(t, write).is_prefix_of(z),
    ensures
        s == t,
    decreases s.len(),
{
    if s.len() > 0 {
        lemma_prefix_split(write(s[0]), concat_all(s.drop_first(), write), z);
        lemma_prefix_split(write(t[0]), concat_all(t.drop_first(), write), z);
        assert(s[0] == t[0]);
        lemma_concat_all_unique(
            s.drop_first(),
            t.drop_first(),
            write,
            z.skip(write(s[0]).len() as int),
        );
        assert(s =~= seq![s[0]] + s.drop_first());
        assert(t =~= seq![t[0]] + t.drop_first());
    } else {
        assert(s =~= t);
    }
}

/// A list of elements of `width` bytes each takes `width` bytes per element.
pub proof fn lemma_concat_all_len<T>(s: Seq<T>, write: spec_fn(T) -> Seq<u8>, width: nat)
    requires
        forall|x: T| #[trigger] write(x).len() == width,
    ensures
        concat_all(s, write).len() == width * s.len(),
    decreases s.len(),
{
    if s.len() > 0 {
        lemma_concat_all_len(s.drop_first(), write, width);
        assert(width + width * (s.len() - 1) == width * s.len()) by (nonlinear_arith);
    }
}

// ---------------------------------------------------------------------------
// Shards
// ---------------------------------------------------------------------------
/// A live point as plain numbers: epoch, count, timestamp, length of the replica
/// id, and the replica id read least significant byte first.
pub type WirePoint = (u64, i64, u64, u64, u128);

/// A tombstone version as plain numbers: timestamp, length of the replica id,
/// and the replica id read least significant byte first.
pub type WireVersion = (u64, u64, u128);

/// The layout of a live point.
pub open spec fn point_layout(p: WirePoint) -> Seq<u8> {
    bytes::u64_le(p.0) + bytes::u64_le(p.1 as u64) + bytes::u64_le(p.2) + bytes::u64_le(p.3)
        + bytes::u128_le(p.4)
}

/// The layout of an optional tombstone version.
pub open spec fn tombstone_layout(t: Option<WireVersion>) -> Seq<u8> {
    match t {
        None => seq![0u8],
        Some(v) => seq![1u8] + (bytes::u64_le(v.0) + bytes::u64_le(v.1) + bytes::u128_le(v.2)),
    }
}

/// The layout of a shard: its points, then its tombstone.
pub open spec fn shard_layout(points: Seq<WirePoint>, tombstone: Option<WireVersion>) -> Seq<u8> {
    bytes::u64_le(points.len() as u64) + (concat_all(points, |p: WirePoint| point_layout(p))
        + tombstone_layout(tombstone))
}

/// Calls `bincode::serialize`, which does not fail on a shard and writes the
/// layout of `shard_layout`.
#[verifier::external_body]
pub(crate) fn serialize_shard(shard: &(Vec<WirePoint>, Option<WireVersion>)) -> (r: Result<
    Vec<u8>,
    Box<bincode::ErrorKind>,
>)
    ensures
        r is Ok,
        r->Ok_0@ == shard_layout(shard.0@, shard.1),
{
    bincode::serialize(shard)
}

/// The bytes start with the layout of the shard, which takes no more than `limit`
/// bytes.
pub open spec fn shard_within(
    data: Seq<u8>,
    points: Seq<WirePoint>,
    tombstone: Option<WireVersion>,
    limit: u64,
) -> bool {
    &&& shard_layout(points, tombstone).is_prefix_of(data)
    &&& shard_layout(points, tombstone).len() <= limit
}

/// Calls `bincode::Options::deserialize_from` under a limit, with numbers of fixed
/// width. It reads a shard from the front of `data`, ignores what follows it, and
/// stops with an error before it reads more than `limit` bytes. It succeeds exactly
/// where `data` starts with the layout of some shard within the limit. The bytes are
/// read as a stream because `bincode` applies no limit to a slice.
#[verifier::external_body]
pub(crate) fn deserialize_shard(data: &[u8], limit: u64) -> (r: Result<
    (Vec<WirePoint>, Option<WireVersion>),
    Box<bincode::ErrorKind>,
>)
    ensures
        match r {
            Ok(shard) => shard_within(data@, shard.0@, shard.1, limit),
            Err(_) => forall|points: Seq<WirePoint>, tombstone: Option<WireVersion>|
                !(#[trigger] shard_within(data@, points, tombstone, limit)),
        },
{
    bincode::DefaultOptions::new()
        .with_fixint_encoding()
        .allow_trailing_bytes()
        .with_limit(limit)
        .deserialize_from(data)
}

/// `bincode::ErrorKind`, as the functions of `bincode` return it.
#[verifier::external_type_specification]
#[verifier::external_body]
pub struct ExBincodeErrorKind(bincode::ErrorKind);

proof fn lemma_point_layout_len(p: WirePoint)
    ensures
        point_layout(p).len() == 48,
{
    bytes::lemma_u64_round_trip(p.0);
    bytes::lemma_u64_round_trip(p.1 as u64);
    bytes::lemma_u64_round_trip(p.2);
    bytes::lemma_u64_round_trip(p.3);
    bytes::lemma_u128_round_trip(p.4);
}

proof fn lemma_point_layout_prefix_free()
    ensures
        prefix_free(|p: WirePoint| point_layout(p)),
{
    let write = |p: WirePoint| point_layout(p);
    assert forall|a: WirePoint, b: WirePoint, z: Seq<u8>|
        #![trigger write(a).is_prefix_of(z), write(b).is_prefix_of(z)]
        z.len() <= usize::MAX && write(a).is_prefix_of(z) && write(b).is_prefix_of(
            z,
        ) implies a == b by {
        lemma_point_layout_len(a);
        lemma_point_layout_len(b);
        lemma_prefix_same_len(write(a), write(b), z);
        let s = point_layout(a);
        let t = point_layout(b);
        assert(s == t);
        assert(s.subrange(0, 8) =~= bytes::u64_le(a.0));
        assert(t.subrange(0, 8) =~= bytes::u64_le(b.0));
        assert(s.subrange(8, 16) =~= bytes::u64_le(a.1 as u64));
        assert(t.subrange(8, 16) =~= bytes::u64_le(b.1 as u64));
        assert(s.subrange(16, 24) =~= bytes::u64_le(a.2));
        assert(t.subrange(16, 24) =~= bytes::u64_le(b.2));
        assert(s.subrange(24, 32) =~= bytes::u64_le(a.3));
        assert(t.subrange(24, 32) =~= bytes::u64_le(b.3));
        assert(s.subrange(32, 48) =~= bytes::u128_le(a.4));
        assert(t.subrange(32, 48) =~= bytes::u128_le(b.4));
        bytes::lemma_u64_le_injective(a.0, b.0);
        bytes::lemma_u64_le_injective(a.1 as u64, b.1 as u64);
        bytes::lemma_i64_bits(a.1, 0);
        bytes::lemma_i64_bits(b.1, 0);
        bytes::lemma_u64_le_injective(a.2, b.2);
        bytes::lemma_u64_le_injective(a.3, b.3);
        bytes::lemma_u128_le_injective(a.4, b.4);
    }
}

/// The size of a shard's layout: 8 bytes, 48 for each point, and 1 or 33 for the
/// tombstone.
pub proof fn lemma_shard_layout_len(points: Seq<WirePoint>, tombstone: Option<WireVersion>)
    ensures
        shard_layout(points, tombstone).len() == 8 + 48 * points.len() + (if tombstone is Some {
            33int
        } else {
            1
        }),
{
    bytes::lemma_u64_round_trip(points.len() as u64);
    let write = |p: WirePoint| point_layout(p);
    assert forall|p: WirePoint| #[trigger] write(p).len() == 48 by {
        lemma_point_layout_len(p);
    }
    lemma_concat_all_len(points, write, 48);
    if let Some(v) = tombstone {
        bytes::lemma_u64_round_trip(v.0);
        bytes::lemma_u64_round_trip(v.1);
        bytes::lemma_u128_round_trip(v.2);
    }
}

proof fn lemma_tombstone_layout_unique(
    a: Option<WireVersion>,
    b: Option<WireVersion>,
    z: Seq<u8>,
)
    requires
        tombstone_layout(a).is_prefix_of(z),
        tombstone_layout(b).is_prefix_of(z),
    ensures
        a == b,
{
    let s = tombstone_layout(a);
    let t = tombstone_layout(b);
    assert(s[0] == z.subrange(0, s.len() as int)[0]);
    assert(t[0] == z.subrange(0, t.len() as int)[0]);
    match (a, b) {
        (Some(v), Some(w)) => {
            bytes::lemma_u64_round_trip(v.0);
            bytes::lemma_u64_round_trip(v.1);
            bytes::lemma_u128_round_trip(v.2);
            bytes::lemma_u64_round_trip(w.0);
            bytes::lemma_u64_round_trip(w.1);
            bytes::lemma_u128_round_trip(w.2);
            lemma_prefix_same_len(s, t, z);
            assert(s.subrange(1, 9) =~= bytes::u64_le(v.0));
            assert(t.subrange(1, 9) =~= bytes::u64_le(w.0));
            assert(s.subrange(9, 17) =~= bytes::u64_le(v.1));
            assert(t.subrange(9, 17) =~= bytes::u64_le(w.1));
            assert(s.subrange(17, 33) =~= bytes::u128_le(v.2));
            assert(t.subrange(17, 33) =~= bytes::u128_le(w.2));
            bytes::lemma_u64_le_injective(v.0, w.0);
            bytes::lemma_u64_le_injective(v.1, w.1);
            bytes::lemma_u128_le_injective(v.2, w.2);
        },
        (None, None) => {},
        _ => {
            assert(false);
        },
    }
}

/// Data that fits in memory starts with the layout of at most one shard.
pub proof fn lemma_shard_layout_unique(
    p: Seq<WirePoint>,
    a: Option<WireVersion>,
    q: Seq<WirePoint>,
    b: Option<WireVersion>,
    z: Seq<u8>,
)
    requires
        shard_layout(p, a).is_prefix_of(z),
        shard_layout(q, b).is_prefix_of(z),
        z.len() <= usize::MAX,
    ensures
        p == q,
        a == b,
{
    let write = |p: WirePoint| point_layout(p);
    lemma_shard_layout_len(p, a);
    lemma_shard_layout_len(q, b);
    bytes::lemma_u64_round_trip(p.len() as u64);
    bytes::lemma_u64_round_trip(q.len() as u64);
    let (hp, hq) = (bytes::u64_le(p.len() as u64), bytes::u64_le(q.len() as u64));
    lemma_prefix_split(hp, concat_all(p, write) + tombstone_layout(a), z);
    lemma_prefix_split(hq, concat_all(q, write) + tombstone_layout(b), z);
    lemma_prefix_same_len(hp, hq, z);
    bytes::lemma_u64_le_injective(p.len() as u64, q.len() as u64);
    let y = z.skip(8);
    lemma_prefix_split(concat_all(p, write), tombstone_layout(a), y);
    lemma_prefix_split(concat_all(q, write), tombstone_layout(b), y);
    lemma_point_layout_prefix_free();
    lemma_concat_all_unique(p, q, write, y);
    lemma_tombstone_layout_unique(a, b, y.skip(concat_all(p, write).len() as int));
}

// ---------------------------------------------------------------------------
// Counters
// ---------------------------------------------------------------------------
/// Calls `bincode::deserialize` for an `i64`, which reads eight bytes, least
/// significant first, and ignores what follows them. It fails exactly where
/// there are fewer.
#[verifier::external_body]
pub(crate) fn deserialize_i64(data: &[u8]) -> (r: Result<i64, Box<bincode::ErrorKind>>)
    ensures
        match r {
            Ok(x) => data@.len() >= 8 && bytes::u64_le(x as u64) == data@.subrange(0, 8),
            Err(_) => data@.len() < 8,
        },
{
    bincode::deserialize(data)
}

// ---------------------------------------------------------------------------
// Operation logs
// ---------------------------------------------------------------------------
/// An insert as plain values: key, value, timestamp, length of the replica id,
/// and the replica id read least significant byte first.
pub type WireInsert = (String, Vec<u8>, u64, u64, u128);

/// A removal as plain values: key, timestamp, length of the replica id, and the
/// replica id read least significant byte first.
pub type WireRemove = (String, u64, u64, u128);

/// An operation as plain values. Its variant index is that of the operation.
pub type WireOperation = Result<WireInsert, WireRemove>;

/// What a plain operation holds.
#[verifier::ext_equal]
pub struct WireOperationView {
    pub key: Seq<char>,
    pub value: Option<Seq<u8>>,
    pub timestamp: u64,
    pub id_len: u64,
    pub id: u128,
}

pub open spec fn wire_operation_view(op: WireOperation) -> WireOperationView {
    match op {
        Ok((key, value, timestamp, id_len, id)) => WireOperationView {
            key: key@,
            value: Some(value@),
            timestamp,
            id_len,
            id,
        },
        Err((key, timestamp, id_len, id)) => WireOperationView {
            key: key@,
            value: None,
            timestamp,
            id_len,
            id,
        },
    }
}

/// The layout of a byte string: its length, then its bytes.
pub open spec fn bytes_layout(b: Seq<u8>) -> Seq<u8> {
    bytes::u64_le(b.len() as u64) + b
}

/// The layout of the version of an operation.
pub open spec fn stamp_layout(op: WireOperationView) -> Seq<u8> {
    bytes::u64_le(op.timestamp) + bytes::u64_le(op.id_len) + bytes::u128_le(op.id)
}

/// The layout of an operation: its variant, its key in UTF-8, the value of an
/// insert, and its version.
pub open spec fn operation_layout(op: WireOperationView) -> Seq<u8> {
    match op.value {
        Some(value) => seq![0u8, 0, 0, 0] + (bytes_layout(vstd::utf8::encode_utf8(op.key)) + (
        bytes_layout(value) + stamp_layout(op))),
        None => seq![1u8, 0, 0, 0] + (bytes_layout(vstd::utf8::encode_utf8(op.key))
            + stamp_layout(op)),
    }
}

/// The layout of an operation log.
pub open spec fn log_layout(ops: Seq<WireOperationView>) -> Seq<u8> {
    bytes::u64_le(ops.len() as u64) + concat_all(
        ops,
        |op: WireOperationView| operation_layout(op),
    )
}

pub open spec fn wire_views(ops: Seq<WireOperation>) -> Seq<WireOperationView> {
    ops.map_values(|op: WireOperation| wire_operation_view(op))
}

/// Calls `bincode::serialize`, which does not fail on an operation log and writes
/// the layout of `log_layout`.
#[verifier::external_body]
pub(crate) fn serialize_log(ops: &Vec<WireOperation>) -> (r: Result<
    Vec<u8>,
    Box<bincode::ErrorKind>,
>)
    ensures
        r is Ok,
        r->Ok_0@ == log_layout(wire_views(ops@)),
{
    bincode::serialize(ops)
}

/// Calls `bincode::deserialize`, which reads an operation log from the front of
/// `data` and ignores what follows it. It succeeds exactly where `data` starts
/// with the layout of some log.
#[verifier::external_body]
pub(crate) fn deserialize_log(data: &[u8]) -> (r: Result<
    Vec<WireOperation>,
    Box<bincode::ErrorKind>,
>)
    ensures
        match r {
            Ok(ops) => log_layout(wire_views(ops@)).is_prefix_of(data@),
            Err(_) => forall|ops: Seq<WireOperationView>|
                !(#[trigger] log_layout(ops)).is_prefix_of(data@),
        },
{
    bincode::deserialize(data)
}

/// Two byte strings whose layouts, with something after each, both start `z`.
proof fn lemma_bytes_layout_unique(
    a: Seq<u8>,
    x: Seq<u8>,
    b: Seq<u8>,
    y: Seq<u8>,
    z: Seq<u8>,
) -> (rest: Seq<u8>)
    requires
        (bytes_layout(a) + x).is_prefix_of(z),
        (bytes_layout(b) + y).is_prefix_of(z),
        z.len() <= usize::MAX,
    ensures
        a == b,
        x.is_prefix_of(rest),
        y.is_prefix_of(rest),
        rest.len() <= z.len(),
{
    bytes::lemma_u64_round_trip(a.len() as u64);
    bytes::lemma_u64_round_trip(b.len() as u64);
    let (ha, hb) = (bytes::u64_le(a.len() as u64), bytes::u64_le(b.len() as u64));
    lemma_prefix_split(bytes_layout(a), x, z);
    lemma_prefix_split(bytes_layout(b), y, z);
    lemma_prefix_split(ha, a, z);
    lemma_prefix_split(hb, b, z);
    lemma_prefix_same_len(ha, hb, z);
    bytes::lemma_u64_le_injective(a.len() as u64, b.len() as u64);
    assert(a.len() <= z.len() && b.len() <= z.len());
    lemma_prefix_same_len(a, b, z.skip(8));
    z.skip(bytes_layout(a).len() as int)
}

proof fn lemma_stamp_layout_unique(a: WireOperationView, b: WireOperationView, z: Seq<u8>)
    requires
        stamp_layout(a).is_prefix_of(z),
        stamp_layout(b).is_prefix_of(z),
    ensures
        a.timestamp == b.timestamp,
        a.id_len == b.id_len,
        a.id == b.id,
{
    let (s, t) = (stamp_layout(a), stamp_layout(b));
    bytes::lemma_u64_round_trip(a.timestamp);
    bytes::lemma_u64_round_trip(a.id_len);
    bytes::lemma_u128_round_trip(a.id);
    bytes::lemma_u64_round_trip(b.timestamp);
    bytes::lemma_u64_round_trip(b.id_len);
    bytes::lemma_u128_round_trip(b.id);
    lemma_prefix_same_len(s, t, z);
    assert(s.subrange(0, 8) =~= bytes::u64_le(a.timestamp));
    assert(t.subrange(0, 8) =~= bytes::u64_le(b.timestamp));
    assert(s.subrange(8, 16) =~= bytes::u64_le(a.id_len));
    assert(t.subrange(8, 16) =~= bytes::u64_le(b.id_len));
    assert(s.subrange(16, 32) =~= bytes::u128_le(a.id));
    assert(t.subrange(16, 32) =~= bytes::u128_le(b.id));
    bytes::lemma_u64_le_injective(a.timestamp, b.timestamp);
    bytes::lemma_u64_le_injective(a.id_len, b.id_len);
    bytes::lemma_u128_le_injective(a.id, b.id);
}

proof fn lemma_operation_layout_prefix_free()
    ensures
        prefix_free(|op: WireOperationView| operation_layout(op)),
{
    let write = |op: WireOperationView| operation_layout(op);
    assert forall|a: WireOperationView, b: WireOperationView, z: Seq<u8>|
        #![trigger write(a).is_prefix_of(z), write(b).is_prefix_of(z)]
        z.len() <= usize::MAX && write(a).is_prefix_of(z) && write(b).is_prefix_of(
            z,
        ) implies a == b by {
        let (s, t) = (operation_layout(a), operation_layout(b));
        assert(s[0] == z.subrange(0, s.len() as int)[0]);
        assert(t[0] == z.subrange(0, t.len() as int)[0]);
        let (ka, kb) = (vstd::utf8::encode_utf8(a.key), vstd::utf8::encode_utf8(b.key));
        match (a.value, b.value) {
            (Some(va), Some(vb)) => {
                let tag = seq![0u8, 0, 0, 0];
                let ra = bytes_layout(va) + stamp_layout(a);
                let rb = bytes_layout(vb) + stamp_layout(b);
                lemma_prefix_split(tag, bytes_layout(ka) + ra, z);
                lemma_prefix_split(tag, bytes_layout(kb) + rb, z);
                let y = lemma_bytes_layout_unique(ka, ra, kb, rb, z.skip(4));
                let x = lemma_bytes_layout_unique(va, stamp_layout(a), vb, stamp_layout(b), y);
                lemma_stamp_layout_unique(a, b, x);
            },
            (None, None) => {
                let tag = seq![1u8, 0, 0, 0];
                lemma_prefix_split(tag, bytes_layout(ka) + stamp_layout(a), z);
                lemma_prefix_split(tag, bytes_layout(kb) + stamp_layout(b), z);
                let x = lemma_bytes_layout_unique(
                    ka,
                    stamp_layout(a),
                    kb,
                    stamp_layout(b),
                    z.skip(4),
                );
                lemma_stamp_layout_unique(a, b, x);
            },
            _ => {
                assert(false);
            },
        }
        vstd::utf8::encode_utf8_decode_utf8(a.key);
        vstd::utf8::encode_utf8_decode_utf8(b.key);
    }
}

proof fn lemma_concat_all_min(s: Seq<WireOperationView>)
    ensures
        s.len() <= concat_all(s, |op: WireOperationView| operation_layout(op)).len(),
    decreases s.len(),
{
    if s.len() > 0 {
        lemma_concat_all_min(s.drop_first());
    }
}

/// Data that fits in memory starts with the layout of at most one log.
pub proof fn lemma_log_layout_unique(
    p: Seq<WireOperationView>,
    q: Seq<WireOperationView>,
    z: Seq<u8>,
)
    requires
        log_layout(p).is_prefix_of(z),
        log_layout(q).is_prefix_of(z),
        z.len() <= usize::MAX,
    ensures
        p == q,
{
    let write = |op: WireOperationView| operation_layout(op);
    lemma_concat_all_min(p);
    lemma_concat_all_min(q);
    bytes::lemma_u64_round_trip(p.len() as u64);
    bytes::lemma_u64_round_trip(q.len() as u64);
    let (hp, hq) = (bytes::u64_le(p.len() as u64), bytes::u64_le(q.len() as u64));
    lemma_prefix_split(hp, concat_all(p, write), z);
    lemma_prefix_split(hq, concat_all(q, write), z);
    lemma_prefix_same_len(hp, hq, z);
    bytes::lemma_u64_le_injective(p.len() as u64, q.len() as u64);
    lemma_operation_layout_prefix_free();
    lemma_concat_all_unique(p, q, write, z.skip(8));
}

} // verus!
