//! Rate-limit shard merge for epoch-aware counters.
//!
//! Gateway code writes the simple application payload `(epoch, count)` as
//! 16 bytes: the epoch, then the count, each with its most significant byte
//! first. Inside the replicated store, `rl:` values are rate-limit shards, which
//! also carry a frontier of live points and the newest tombstone version. This
//! is what keeps deletes meaningful when an operation log is compacted: a
//! delayed insert from before a tombstone is not resurrected just because the
//! log shrank to one live value.
//!
//! Stored and gossiped `rl:` values are always encoded shards. Raw payloads are
//! accepted where a value is inserted and by the public decoder, because local
//! subscribers can observe the payload before it is normalized. Of a malformed
//! and a well-formed value the well-formed one wins; of two malformed values the
//! local one stays.

use vstd::prelude::*;

use super::codec;
use super::codec::{WirePoint, WireVersion};
use super::frontier;
use super::operation::{Operation, OperationView};
use super::replica::ReplicaId;
use crate::bytes;

verus! {

/// Size of the application payload: 8 bytes of epoch and 8 bytes of count.
pub const EPOCH_MAX_WINS_ENCODED_LEN: usize = 16;

/// A counter value: the window that it belongs to, and the count in it.
#[derive(Debug, Clone, Copy, PartialEq, Eq, Structural)]
pub struct EpochCount {
    pub epoch: u64,
    pub count: i64,
}

/// Lamport version of one component of a shard.
#[derive(Debug, Clone, Copy, PartialEq, Eq, Structural, PartialOrd, Ord)]
pub struct RateLimitVersion {
    pub timestamp: u64,
    pub replica_id: ReplicaId,
}

/// A counter value together with the version of the write that set it.
#[derive(Debug, Clone, Copy, PartialEq, Eq, Structural)]
pub struct LivePoint {
    pub value: EpochCount,
    pub version: RateLimitVersion,
}

/// Which of two values is greater.
#[derive(Debug, Clone, Copy, PartialEq, Eq, Structural)]
pub enum ValueWinner {
    Local,
    Remote,
    Equal,
}

/// Versions are ordered by timestamp, then by replica.
pub open spec fn version_lt(a: RateLimitVersion, b: RateLimitVersion) -> bool {
    a.timestamp < b.timestamp || (a.timestamp == b.timestamp && a.replica_id.bits
        < b.replica_id.bits)
}

/// Values are ordered by epoch, then by count.
pub open spec fn value_lt(a: EpochCount, b: EpochCount) -> bool {
    a.epoch < b.epoch || (a.epoch == b.epoch && a.count < b.count)
}

impl RateLimitVersion {
    pub fn new(timestamp: u64, replica_id: ReplicaId) -> (version: RateLimitVersion)
        ensures
            version.timestamp == timestamp,
            version.replica_id == replica_id,
    {
        RateLimitVersion { timestamp, replica_id }
    }

    /// Whether this version is older than `other`.
    pub fn older_than(&self, other: &RateLimitVersion) -> (older: bool)
        ensures
            older == version_lt(*self, *other),
            older <==> self.timestamp < other.timestamp || (self.timestamp == other.timestamp
                && self.replica_id.bits < other.replica_id.bits),
    {
        self.timestamp < other.timestamp || (self.timestamp == other.timestamp
            && self.replica_id.bits < other.replica_id.bits)
    }
}

/// Compares two values: the greater epoch wins, then the greater count.
pub fn compare_epoch_count(local: EpochCount, remote: EpochCount) -> (winner: ValueWinner)
    ensures
        winner == ValueWinner::Local <==> value_lt(remote, local),
        winner == ValueWinner::Remote <==> value_lt(local, remote),
        winner == ValueWinner::Equal <==> local == remote,
        winner == ValueWinner::Local <==> local.epoch > remote.epoch || (local.epoch
            == remote.epoch && local.count > remote.count),
        winner == ValueWinner::Remote <==> local.epoch < remote.epoch || (local.epoch
            == remote.epoch && local.count < remote.count),
{
    if local.epoch > remote.epoch {
        ValueWinner::Local
    } else if local.epoch < remote.epoch {
        ValueWinner::Remote
    } else if local.count > remote.count {
        ValueWinner::Local
    } else if local.count < remote.count {
        ValueWinner::Remote
    } else {
        ValueWinner::Equal
    }
}


// ---------------------------------------------------------------------------
// The application payload
// ---------------------------------------------------------------------------
/// The sixteen bytes of a payload.
pub open spec fn payload(value: EpochCount) -> Seq<u8> {
    bytes::u64_be(value.epoch) + bytes::u64_be(value.count as u64)
}

/// The value in sixteen payload bytes; `None` for any other length.
pub open spec fn payload_value(data: Seq<u8>) -> Option<EpochCount> {
    if data.len() == EPOCH_MAX_WINS_ENCODED_LEN {
        Some(
            EpochCount {
                epoch: bytes::u64_of_be(data.subrange(0, 8)),
                count: bytes::u64_of_be(data.subrange(8, 16)) as i64,
            },
        )
    } else {
        None
    }
}

/// Encodes `(epoch, count)` as the application payload.
#[must_use]
pub fn encode(epoch: u64, count: i64) -> (data: [u8; EPOCH_MAX_WINS_ENCODED_LEN])
    ensures
        data@ == payload(EpochCount { epoch, count }),
{
    let mut b: Vec<u8> = Vec::new();
    bytes::push_u64_be(&mut b, epoch);
    bytes::push_u64_be(&mut b, #[verifier::truncate] (count as u64));
    let data: [u8; EPOCH_MAX_WINS_ENCODED_LEN] = [
        b[0], b[1], b[2], b[3], b[4], b[5], b[6], b[7],
        b[8], b[9], b[10], b[11], b[12], b[13], b[14], b[15],
    ];
    assert(data@ =~= b@);
    data
}

/// Decodes the application payload. `None` means that the length is wrong.
pub fn decode_raw_epoch_count(data: &[u8]) -> (value: Option<EpochCount>)
    ensures
        value == payload_value(data@),
{
    if data.len() != EPOCH_MAX_WINS_ENCODED_LEN {
        return None;
    }
    let epoch: u64 = bytes::read_u64_be(data, 0);
    let count: i64 = #[verifier::truncate] (bytes::read_u64_be(data, 8) as i64);
    Some(EpochCount { epoch, count })
}

/// Decoding the payload of a value gives back the value.
pub proof fn law_payload_round_trip(value: EpochCount)
    ensures
        payload(value).len() == EPOCH_MAX_WINS_ENCODED_LEN,
        payload_value(payload(value)) == Some(value),
{
    bytes::lemma_u64_round_trip(value.epoch);
    bytes::lemma_u64_round_trip(value.count as u64);
    bytes::lemma_i64_bits(value.count, 0);
    assert(payload(value).subrange(0, 8) =~= bytes::u64_be(value.epoch));
    assert(payload(value).subrange(8, 16) =~= bytes::u64_be(value.count as u64));
}

// ---------------------------------------------------------------------------
// Shards
// ---------------------------------------------------------------------------
/// The live state of one `rl:` key: its live points, and the newest tombstone
/// that the key has seen.
#[derive(Debug, PartialEq, Eq)]
pub struct RateLimitShard {
    pub live_points: Vec<LivePoint>,
    pub tombstone_version: Option<RateLimitVersion>,
}

/// The state of one `rl:` key.
#[derive(Debug, PartialEq, Eq)]
pub enum RateLimitState {
    Live(RateLimitShard),
    Tombstone(RateLimitVersion),
}

/// What a state holds. A deleted key has no points and a tombstone.
#[verifier::ext_equal]
pub struct ShardView {
    pub points: Seq<LivePoint>,
    pub tombstone: Option<RateLimitVersion>,
}

impl View for RateLimitShard {
    type V = ShardView;

    open spec fn view(&self) -> ShardView {
        ShardView { points: self.live_points@, tombstone: self.tombstone_version }
    }
}

impl View for RateLimitState {
    type V = ShardView;

    open spec fn view(&self) -> ShardView {
        match self {
            RateLimitState::Live(shard) => shard@,
            RateLimitState::Tombstone(version) => tombstone_state(*version),
        }
    }
}

/// The state of a key that was deleted at `version`.
pub open spec fn tombstone_state(version: RateLimitVersion) -> ShardView {
    ShardView { points: Seq::empty(), tombstone: Some(version) }
}

/// The state of a key that was written once.
pub open spec fn point_state(value: EpochCount, version: RateLimitVersion) -> ShardView {
    ShardView { points: seq![LivePoint { value, version }], tombstone: None }
}

impl RateLimitState {
    /// A live state has a live point.
    pub open spec fn wf(self) -> bool {
        self is Live ==> self@.points.len() > 0
    }
}

// ---------------------------------------------------------------------------
// The encoded shard
// ---------------------------------------------------------------------------
/// Hard cap on an encoded shard. Real shards are dozens of bytes; reading stops at
/// the cap, so that a forged length is never believed.
pub const MAX_SHARD_BYTES: u64 = 65536;

/// The bytes of a replica id.
pub const REPLICA_ID_BYTES: u64 = 16;

/// A live point as it is laid out.
pub open spec fn wire_point(p: LivePoint) -> WirePoint {
    (
        p.value.epoch,
        p.value.count,
        p.version.timestamp,
        REPLICA_ID_BYTES,
        bytes::u128_swapped(p.version.replica_id.bits),
    )
}

/// A tombstone version as it is laid out.
pub open spec fn wire_version(v: RateLimitVersion) -> WireVersion {
    (v.timestamp, REPLICA_ID_BYTES, bytes::u128_swapped(v.replica_id.bits))
}

pub open spec fn wire_tombstone(t: Option<RateLimitVersion>) -> Option<WireVersion> {
    match t {
        None => None,
        Some(v) => Some(wire_version(v)),
    }
}

/// The encoded form of a shard.
pub open spec fn encoded_shard(s: ShardView) -> Seq<u8> {
    codec::shard_layout(
        s.points.map_values(|p: LivePoint| wire_point(p)),
        wire_tombstone(s.tombstone),
    )
}

/// `data` starts with the shard `s`, which has a live point and respects the cap.
pub open spec fn starts_with_shard(data: Seq<u8>, s: ShardView) -> bool {
    &&& encoded_shard(s).is_prefix_of(data)
    &&& s.points.len() > 0
    &&& encoded_shard(s).len() <= MAX_SHARD_BYTES
}

/// The shard that `data` starts with, if there is one.
pub open spec fn decoded_shard(data: Seq<u8>) -> Option<ShardView> {
    if exists|s: ShardView| starts_with_shard(data, s) {
        Some(choose|s: ShardView| starts_with_shard(data, s))
    } else {
        None
    }
}

proof fn lemma_wire_point_injective(p: LivePoint, q: LivePoint)
    requires
        wire_point(p) == wire_point(q),
    ensures
        p == q,
{
    bytes::lemma_u128_swapped(p.version.replica_id.bits);
    bytes::lemma_u128_swapped(q.version.replica_id.bits);
}

/// The size of an encoded shard: 8 bytes, 48 for each point, and 1 or 33 for the
/// tombstone.
pub proof fn lemma_encoded_shard_len(s: ShardView)
    ensures
        encoded_shard(s).len() == 8 + 48 * s.points.len() + (if s.tombstone is Some {
            33int
        } else {
            1
        }),
{
    codec::lemma_shard_layout_len(
        s.points.map_values(|p: LivePoint| wire_point(p)),
        wire_tombstone(s.tombstone),
    );
}

/// Data that fits in memory starts with at most one shard.
pub proof fn lemma_shard_unique(data: Seq<u8>, s: ShardView, t: ShardView)
    requires
        encoded_shard(s).is_prefix_of(data),
        encoded_shard(t).is_prefix_of(data),
        data.len() <= usize::MAX,
    ensures
        s == t,
{
    let f = |p: LivePoint| wire_point(p);
    let (ws, wt) = (s.points.map_values(f), t.points.map_values(f));
    codec::lemma_shard_layout_unique(
        ws,
        wire_tombstone(s.tombstone),
        wt,
        wire_tombstone(t.tombstone),
        data,
    );
    assert(s.points.len() == ws.len() && t.points.len() == wt.len());
    assert forall|i: int| 0 <= i < s.points.len() implies s.points[i] == t.points[i] by {
        assert(ws[i] == wire_point(s.points[i]));
        assert(wt[i] == wire_point(t.points[i]));
        lemma_wire_point_injective(s.points[i], t.points[i]);
    }
    assert(s.points =~= t.points);
    if let (Some(v), Some(w)) = (s.tombstone, t.tombstone) {
        bytes::lemma_u128_swapped(v.replica_id.bits);
        bytes::lemma_u128_swapped(w.replica_id.bits);
    }
}

proof fn lemma_decoded_shard(data: Seq<u8>, s: ShardView)
    requires
        starts_with_shard(data, s),
        data.len() <= usize::MAX,
    ensures
        decoded_shard(data) == Some(s),
{
    let t = choose|t: ShardView| starts_with_shard(data, t);
    lemma_shard_unique(data, s, t);
}

/// Decoding an encoded shard gives back the shard, whatever bytes follow it, if
/// the shard has a live point and respects the cap.
pub proof fn law_shard_round_trip(s: ShardView, rest: Seq<u8>)
    requires
        s.points.len() > 0,
        encoded_shard(s).len() <= MAX_SHARD_BYTES,
        encoded_shard(s).len() + rest.len() <= usize::MAX,
    ensures
        decoded_shard(encoded_shard(s) + rest) == Some(s),
{
    let data = encoded_shard(s) + rest;
    assert(encoded_shard(s) =~= data.subrange(0, encoded_shard(s).len() as int));
    lemma_decoded_shard(data, s);
}

/// A payload is too short to be taken for a shard.
pub proof fn law_payload_is_no_shard(data: Seq<u8>)
    requires
        data.len() <= EPOCH_MAX_WINS_ENCODED_LEN,
    ensures
        decoded_shard(data) is None,
{
    if exists|s: ShardView| starts_with_shard(data, s) {
        let s = choose|s: ShardView| starts_with_shard(data, s);
        lemma_encoded_shard_len(s);
    }
}

/// Encodes a shard.
pub fn encode_shard(shard: &RateLimitShard) -> (data: Option<Vec<u8>>)
    ensures
        data is Some,
        data->0@ == encoded_shard(shard@),
{
    let mut points: Vec<WirePoint> = Vec::new();
    let mut i: usize = 0;
    let ghost f = |p: LivePoint| wire_point(p);
    while i < shard.live_points.len()
        invariant
            i <= shard.live_points@.len(),
            f == (|p: LivePoint| wire_point(p)),
            points@ == shard.live_points@.subrange(0, i as int).map_values(f),
        decreases shard.live_points@.len() - i,
    {
        let p: LivePoint = shard.live_points[i];
        points.push(
            (
                p.value.epoch,
                p.value.count,
                p.version.timestamp,
                REPLICA_ID_BYTES,
                bytes::u128_swap(p.version.replica_id.bits),
            ),
        );
        i = i + 1;
        assert(points@ =~= shard.live_points@.subrange(0, i as int).map_values(f));
    }
    assert(shard.live_points@.subrange(0, i as int) =~= shard.live_points@);
    let tombstone: Option<WireVersion> = match &shard.tombstone_version {
        None => None,
        Some(v) => Some((v.timestamp, REPLICA_ID_BYTES, bytes::u128_swap(v.replica_id.bits))),
    };
    match codec::serialize_shard(&(points, tombstone)) {
        Ok(data) => Some(data),
        Err(_) => None,
    }
}

/// Decodes the shard that `data` starts with. `None` means that there is none,
/// that it has no live point, or that it exceeds the cap.
pub fn decode_shard(data: &[u8]) -> (shard: Option<RateLimitShard>)
    ensures
        match shard {
            Some(s) => decoded_shard(data@) == Some(s@) && s@.points.len() > 0,
            None => decoded_shard(data@) is None,
        },
{
    let len: usize = data.len();
    assert(data@.len() <= usize::MAX);
    let ghost f = |p: LivePoint| wire_point(p);
    let (points, tombstone) = match codec::deserialize_shard(data, MAX_SHARD_BYTES) {
        Ok(shard) => shard,
        Err(_) => {
            proof {
                assert forall|s: ShardView| !starts_with_shard(data@, s) by {
                    assert(!codec::shard_within(
                        data@,
                        s.points.map_values(f),
                        wire_tombstone(s.tombstone),
                        MAX_SHARD_BYTES,
                    ));
                }
            }
            return None;
        },
    };
    proof {
        assert forall|s: ShardView| #[trigger] encoded_shard(s).is_prefix_of(data@) implies points@
            == s.points.map_values(f) && tombstone == wire_tombstone(s.tombstone) by {
            codec::lemma_shard_layout_unique(
                points@,
                tombstone,
                s.points.map_values(f),
                wire_tombstone(s.tombstone),
                data@,
            );
        }
    }
    let mut live_points: Vec<LivePoint> = Vec::new();
    let mut i: usize = 0;
    while i < points.len()
        invariant
            i <= points@.len(),
            f == (|p: LivePoint| wire_point(p)),
            live_points@.len() == i,
            live_points@.map_values(f) == points@.subrange(0, i as int),
            forall|s: ShardView| #[trigger]
                encoded_shard(s).is_prefix_of(data@) ==> points@ == s.points.map_values(f),
        decreases points@.len() - i,
    {
        let p: WirePoint = points[i];
        if p.3 != REPLICA_ID_BYTES {
            proof {
                assert forall|s: ShardView| !starts_with_shard(data@, s) by {
                    if encoded_shard(s).is_prefix_of(data@) {
                        assert(s.points.map_values(f)[i as int] == wire_point(s.points[i as int]));
                    }
                }
            }
            return None;
        }
        let bits: u128 = bytes::u128_swap(p.4);
        proof {
            bytes::lemma_u128_swapped(p.4);
        }
        let ghost before = live_points@;
        live_points.push(
            LivePoint {
                value: EpochCount { epoch: p.0, count: p.1 },
                version: RateLimitVersion { timestamp: p.2, replica_id: ReplicaId { bits } },
            },
        );
        i = i + 1;
        proof {
            assert(wire_point(live_points@[i - 1]) == p);
            assert forall|k: int| 0 <= k < i implies live_points@.map_values(f)[k] == points@[k] by {
                if k < i - 1 {
                    assert(before.map_values(f)[k] == points@.subrange(0, i - 1)[k]);
                }
            }
            assert(live_points@.map_values(f) =~= points@.subrange(0, i as int));
        }
    }
    assert(points@.subrange(0, i as int) =~= points@);
    let tombstone_version: Option<RateLimitVersion> = match tombstone {
        None => None,
        Some(v) => {
            if v.1 != REPLICA_ID_BYTES {
                proof {
                    assert forall|s: ShardView| !starts_with_shard(data@, s) by {
                        if encoded_shard(s).is_prefix_of(data@) {
                            assert(tombstone == wire_tombstone(s.tombstone));
                        }
                    }
                }
                return None;
            }
            proof {
                bytes::lemma_u128_swapped(v.2);
            }
            Some(
                RateLimitVersion {
                    timestamp: v.0,
                    replica_id: ReplicaId { bits: bytes::u128_swap(v.2) },
                },
            )
        },
    };
    let shard = RateLimitShard { live_points, tombstone_version };
    proof {
        lemma_encoded_shard_len(shard@);
        assert(encoded_shard(shard@).is_prefix_of(data@));
        assert forall|s: ShardView| starts_with_shard(data@, s) implies s == shard@ by {
            lemma_shard_unique(data@, s, shard@);
        }
    }
    if shard.live_points.len() == 0 {
        proof {
            assert(!starts_with_shard(data@, shard@));
        }
        return None;
    }
    proof {
        lemma_decoded_shard(data@, shard@);
    }
    Some(shard)
}

// ---------------------------------------------------------------------------
// What a state says
// ---------------------------------------------------------------------------
/// The greatest value among the points.
pub open spec fn greatest_value(points: Seq<LivePoint>) -> Option<EpochCount>
    decreases points.len(),
{
    if points.len() == 0 {
        None
    } else {
        match greatest_value(points.drop_last()) {
            Some(best) if !value_lt(best, points.last().value) => Some(best),
            _ => Some(points.last().value),
        }
    }
}

/// The newest version among the points.
pub open spec fn newest_version(points: Seq<LivePoint>) -> Option<RateLimitVersion>
    decreases points.len(),
{
    if points.len() == 0 {
        None
    } else {
        match newest_version(points.drop_last()) {
            Some(best) if !version_lt(best, points.last().version) => Some(best),
            _ => Some(points.last().version),
        }
    }
}

/// The value that `data` stands for: that of an encoded shard, or else that of a
/// payload.
pub open spec fn decoded_value(data: Seq<u8>) -> Option<EpochCount> {
    match decoded_shard(data) {
        Some(s) => greatest_value(s.points),
        None => payload_value(data),
    }
}

/// `p` is newer than the tombstone.
pub open spec fn survives(p: LivePoint, tombstone: Option<RateLimitVersion>) -> bool {
    tombstone matches Some(t) ==> version_lt(t, p.version)
}

/// The points that are newer than the tombstone.
pub open spec fn survivors(
    points: Seq<LivePoint>,
    tombstone: Option<RateLimitVersion>,
) -> Seq<LivePoint> {
    points.filter(|p: LivePoint| survives(p, tombstone))
}

/// The newer of two tombstones.
pub open spec fn newer_tombstone(
    a: Option<RateLimitVersion>,
    b: Option<RateLimitVersion>,
) -> Option<RateLimitVersion> {
    match (a, b) {
        (None, _) => b,
        (_, None) => a,
        (Some(v), Some(w)) => if version_lt(v, w) {
            b
        } else {
            a
        },
    }
}

/// The merge of two states: the newer tombstone, and the frontier of the points
/// that survive it.
pub open spec fn merge_states(a: ShardView, b: ShardView) -> ShardView {
    let tombstone = newer_tombstone(a.tombstone, b.tombstone);
    ShardView {
        points: frontier::frontier(survivors(a.points + b.points, tombstone)),
        tombstone,
    }
}

/// The greatest value is that of a point, and no point has a greater one.
pub proof fn lemma_greatest_value(points: Seq<LivePoint>)
    ensures
        points.len() == 0 <==> greatest_value(points) is None,
        points.len() > 0 ==> exists|i: int|
            0 <= i < points.len() && (#[trigger] points[i]).value == greatest_value(points)->0,
        forall|i: int|
            0 <= i < points.len() ==> !value_lt(
                greatest_value(points)->0,
                (#[trigger] points[i]).value,
            ),
    decreases points.len(),
{
    if points.len() > 0 {
        let rest = points.drop_last();
        lemma_greatest_value(rest);
        if rest.len() > 0 && !value_lt(greatest_value(rest)->0, points.last().value) {
            let i = choose|i: int|
                0 <= i < rest.len() && (#[trigger] rest[i]).value == greatest_value(rest)->0;
            assert(points[i] == rest[i]);
        } else {
            assert(points[points.len() - 1].value == greatest_value(points)->0);
        }
        assert forall|i: int| 0 <= i < points.len() implies !value_lt(
            greatest_value(points)->0,
            (#[trigger] points[i]).value,
        ) by {
            if i < rest.len() {
                assert(points[i] == rest[i]);
            }
        }
    }
}

/// The newest version is that of a point, and no point is newer.
pub proof fn lemma_newest_version(points: Seq<LivePoint>)
    ensures
        points.len() == 0 <==> newest_version(points) is None,
        points.len() > 0 ==> exists|i: int|
            0 <= i < points.len() && (#[trigger] points[i]).version == newest_version(points)->0,
        forall|i: int|
            0 <= i < points.len() ==> !version_lt(
                newest_version(points)->0,
                (#[trigger] points[i]).version,
            ),
    decreases points.len(),
{
    if points.len() > 0 {
        let rest = points.drop_last();
        lemma_newest_version(rest);
        if rest.len() > 0 && !version_lt(newest_version(rest)->0, points.last().version) {
            let i = choose|i: int|
                0 <= i < rest.len() && (#[trigger] rest[i]).version == newest_version(rest)->0;
            assert(points[i] == rest[i]);
        } else {
            assert(points[points.len() - 1].version == newest_version(points)->0);
        }
        assert forall|i: int| 0 <= i < points.len() implies !version_lt(
            newest_version(points)->0,
            (#[trigger] points[i]).version,
        ) by {
            if i < rest.len() {
                assert(points[i] == rest[i]);
            }
        }
    }
}

/// The public decoder reads back every payload.
pub proof fn law_decode_reads_payload(value: EpochCount)
    ensures
        decoded_value(payload(value)) == Some(value),
{
    law_payload_round_trip(value);
    law_payload_is_no_shard(payload(value));
}

/// Of a stored shard the public decoder reads the greatest value.
pub proof fn law_decode_reads_shard(s: ShardView)
    requires
        s.points.len() > 0,
        encoded_shard(s).len() <= MAX_SHARD_BYTES,
    ensures
        decoded_value(encoded_shard(s)) == greatest_value(s.points),
{
    law_shard_round_trip(s, Seq::empty());
    assert(encoded_shard(s) + Seq::empty() =~= encoded_shard(s));
}

/// Decodes an encoded shard or a raw payload. `None` means malformed.
#[must_use]
pub fn decode(data: &[u8]) -> (value: Option<EpochCount>)
    ensures
        value == decoded_value(data@),
{
    match decode_shard(data) {
        Some(shard) => {
            proof {
                lemma_greatest_value(shard@.points);
            }
            shard.current_value()
        },
        None => decode_raw_epoch_count(data),
    }
}

impl RateLimitShard {
    /// A shard with one point and no tombstone.
    pub fn from_live_point(point: LivePoint) -> (shard: RateLimitShard)
        ensures
            shard@ == point_state(point.value, point.version),
    {
        let mut live_points: Vec<LivePoint> = Vec::new();
        live_points.push(point);
        assert(live_points@ =~= seq![point]);
        RateLimitShard { live_points, tombstone_version: None }
    }

    /// The greatest value among the live points.
    pub fn current_value(&self) -> (value: Option<EpochCount>)
        ensures
            value == greatest_value(self@.points),
    {
        let mut best: Option<EpochCount> = None;
        let mut i: usize = 0;
        while i < self.live_points.len()
            invariant
                i <= self.live_points@.len(),
                best == greatest_value(self.live_points@.subrange(0, i as int)),
            decreases self.live_points@.len() - i,
        {
            let value: EpochCount = self.live_points[i].value;
            proof {
                assert(self.live_points@.subrange(0, i + 1).drop_last()
                    =~= self.live_points@.subrange(0, i as int));
            }
            best = match best {
                Some(current) => match compare_epoch_count(current, value) {
                    ValueWinner::Remote => Some(value),
                    ValueWinner::Local | ValueWinner::Equal => Some(current),
                },
                None => Some(value),
            };
            i = i + 1;
        }
        assert(self.live_points@.subrange(0, i as int) =~= self.live_points@);
        best
    }

    /// The newest version among the live points.
    pub fn newest_live_version(&self) -> (version: Option<RateLimitVersion>)
        ensures
            version == newest_version(self@.points),
    {
        let mut best: Option<RateLimitVersion> = None;
        let mut i: usize = 0;
        while i < self.live_points.len()
            invariant
                i <= self.live_points@.len(),
                best == newest_version(self.live_points@.subrange(0, i as int)),
            decreases self.live_points@.len() - i,
        {
            let version: RateLimitVersion = self.live_points[i].version;
            proof {
                assert(self.live_points@.subrange(0, i + 1).drop_last()
                    =~= self.live_points@.subrange(0, i as int));
            }
            best = match best {
                Some(current) if !current.older_than(&version) => Some(current),
                _ => Some(version),
            };
            i = i + 1;
        }
        assert(self.live_points@.subrange(0, i as int) =~= self.live_points@);
        best
    }

    /// The shard of the points that survive the tombstone; `None` if no point
    /// does.
    pub fn merged(points: &Vec<LivePoint>, tombstone_version: Option<RateLimitVersion>) -> (shard:
        Option<RateLimitShard>)
        ensures
            match shard {
                Some(s) => {
                    &&& s@.points == frontier::frontier(survivors(points@, tombstone_version))
                    &&& s@.tombstone == tombstone_version
                    &&& s@.points.len() > 0
                },
                None => survivors(points@, tombstone_version).len() == 0,
            },
    {
        let live: Vec<LivePoint> = points_after(points, tombstone_version);
        if live.len() == 0 {
            return None;
        }
        let live_points: Vec<LivePoint> = frontier::compute_frontier(&live);
        proof {
            frontier::lemma_frontier(live@);
            let m = frontier::lemma_cover(live@, 0);
            assert(live_points@.contains(live@[m]));
        }
        Some(RateLimitShard { live_points, tombstone_version })
    }

    /// The live points that are newer than the tombstone.
    pub fn live_points_after_tombstone(&self, tombstone_version: Option<RateLimitVersion>) -> (live:
        Vec<LivePoint>)
        ensures
            live@ == survivors(self@.points, tombstone_version),
    {
        points_after(&self.live_points, tombstone_version)
    }
}

/// The points that are newer than the tombstone, in order.
fn points_after(points: &Vec<LivePoint>, tombstone_version: Option<RateLimitVersion>) -> (live: Vec<
    LivePoint,
>)
    ensures
        live@ == survivors(points@, tombstone_version),
{
    let mut live: Vec<LivePoint> = Vec::new();
    let mut i: usize = 0;
    proof {
        reveal(Seq::filter);
    }
    while i < points.len()
        invariant
            i <= points@.len(),
            live@ == survivors(points@.subrange(0, i as int), tombstone_version),
        decreases points@.len() - i,
    {
        let p: LivePoint = points[i];
        let keep: bool = match &tombstone_version {
            None => true,
            Some(t) => t.older_than(&p.version),
        };
        proof {
            reveal(Seq::filter);
            assert(points@.subrange(0, i + 1).drop_last() =~= points@.subrange(0, i as int));
        }
        if keep {
            live.push(p);
        }
        i = i + 1;
    }
    assert(points@.subrange(0, i as int) =~= points@);
    live
}

impl Clone for RateLimitShard {
    fn clone(&self) -> (shard: RateLimitShard)
        ensures
            shard@ == self@,
    {
        RateLimitShard {
            live_points: frontier::copy_points(&self.live_points),
            tombstone_version: self.tombstone_version,
        }
    }
}

impl Clone for RateLimitState {
    fn clone(&self) -> (state: RateLimitState)
        ensures
            state@ == self@,
            state is Live <==> self is Live,
    {
        match self {
            RateLimitState::Live(shard) => RateLimitState::Live(shard.clone()),
            RateLimitState::Tombstone(version) => RateLimitState::Tombstone(*version),
        }
    }
}

impl RateLimitState {
    /// The newest tombstone that the key has seen.
    pub fn tombstone_version(&self) -> (version: Option<RateLimitVersion>)
        ensures
            version == self@.tombstone,
    {
        match self {
            RateLimitState::Live(shard) => shard.tombstone_version,
            RateLimitState::Tombstone(version) => Some(*version),
        }
    }

    /// The live points that are newer than the tombstone.
    pub fn live_points_after_tombstone(&self, tombstone_version: Option<RateLimitVersion>) -> (live:
        Vec<LivePoint>)
        ensures
            live@ == survivors(self@.points, tombstone_version),
    {
        match self {
            RateLimitState::Live(shard) => shard.live_points_after_tombstone(tombstone_version),
            RateLimitState::Tombstone(_) => {
                proof {
                    reveal(Seq::filter);
                }
                Vec::new()
            },
        }
    }

    /// Merges two states. `None` means that nothing is left, which needs two
    /// states without live points and without tombstone.
    pub fn merge(self, other: RateLimitState) -> (state: Option<RateLimitState>)
        ensures
            match state {
                Some(s) => s@ == merge_states(self@, other@) && s.wf(),
                None => merge_states(self@, other@) == (ShardView {
                    points: Seq::empty(),
                    tombstone: None,
                }),
            },
            self.wf() && other.wf() ==> state is Some,
    {
        let mine: Option<RateLimitVersion> = self.tombstone_version();
        let theirs: Option<RateLimitVersion> = other.tombstone_version();
        let tombstone_version: Option<RateLimitVersion> = match (mine, theirs) {
            (None, _) => theirs,
            (_, None) => mine,
            (Some(v), Some(w)) => if v.older_than(&w) {
                theirs
            } else {
                mine
            },
        };
        let mut live_points: Vec<LivePoint> = self.live_points_after_tombstone(tombstone_version);
        let mut more: Vec<LivePoint> = other.live_points_after_tombstone(tombstone_version);
        live_points.append(&mut more);
        proof {
            let keep = |p: LivePoint| survives(p, tombstone_version);
            Seq::<LivePoint>::filter_distributes_over_add(self@.points, other@.points, keep);
            lemma_survivors_twice(self@.points + other@.points, tombstone_version);
            frontier::lemma_frontier_empty();
            if tombstone_version is None {
                lemma_survivors_all(self@.points + other@.points);
            }
        }
        match RateLimitShard::merged(&live_points, tombstone_version) {
            Some(shard) => Some(RateLimitState::Live(shard)),
            None => {
                assert(live_points@ =~= Seq::empty());
                match tombstone_version {
                    Some(version) => Some(RateLimitState::Tombstone(version)),
                    None => None,
                }
            },
        }
    }

    /// The bytes that a peer sees for a live state; `None` for a tombstone, of
    /// which the log carries the removal.
    pub fn encode_live(&self) -> (data: Option<Vec<u8>>)
        ensures
            match data {
                Some(d) => self is Live && d@ == encoded_shard(self@),
                None => self is Tombstone,
            },
    {
        match self {
            RateLimitState::Live(shard) => encode_shard(shard),
            RateLimitState::Tombstone(_) => None,
        }
    }

    /// The operation that carries this state: an insert of the shard at its
    /// newest live version, or a removal at the tombstone. `None` for a live
    /// state without a live point.
    pub fn into_operation(self, key: String) -> (op: Option<Operation>)
        ensures
            match op {
                Some(o) => self.wf() && o@ == state_operation(key@, self@),
                None => !self.wf(),
            },
    {
        match self {
            RateLimitState::Live(shard) => {
                proof {
                    lemma_newest_version(shard@.points);
                }
                match shard.newest_live_version() {
                    None => None,
                    Some(version) => match encode_shard(&shard) {
                        None => None,
                        Some(value) => Some(
                            Operation::insert(key, value, version.timestamp, version.replica_id),
                        ),
                    },
                }
            },
            RateLimitState::Tombstone(version) => Some(
                Operation::remove(key, version.timestamp, version.replica_id),
            ),
        }
    }
}

/// Without a tombstone every point survives.
pub proof fn lemma_survivors_all(points: Seq<LivePoint>)
    ensures
        survivors(points, None) == points,
    decreases points.len(),
{
    reveal(Seq::filter);
    if points.len() > 0 {
        lemma_survivors_all(points.drop_last());
        assert(points =~= points.drop_last().push(points.last()));
    }
}

/// What survives a tombstone survives it again.
pub proof fn lemma_survivors_twice(points: Seq<LivePoint>, tombstone: Option<RateLimitVersion>)
    ensures
        survivors(survivors(points, tombstone), tombstone) == survivors(points, tombstone),
    decreases points.len(),
{
    reveal(Seq::filter);
    if points.len() > 0 {
        lemma_survivors_twice(points.drop_last(), tombstone);
        let rest = survivors(points.drop_last(), tombstone);
        if survives(points.last(), tombstone) {
            assert(rest.push(points.last()).drop_last() =~= rest);
        }
    }
}

// ---------------------------------------------------------------------------
// Operations on shards
// ---------------------------------------------------------------------------
/// The state that an inserted value stands for.
pub open spec fn value_state(value: Seq<u8>, version: RateLimitVersion) -> Option<ShardView> {
    match decoded_shard(value) {
        Some(s) => Some(s),
        None => match payload_value(value) {
            Some(v) => Some(point_state(v, version)),
            None => None,
        },
    }
}

/// The state that one operation stands for; `None` for a malformed insert.
pub open spec fn operation_state(op: OperationView) -> Option<ShardView> {
    match op.value {
        Some(value) => value_state(value, op.version),
        None => Some(tombstone_state(op.version)),
    }
}

/// `state` after one more operation; malformed inserts are skipped.
pub open spec fn absorb(state: Option<ShardView>, op: OperationView) -> Option<ShardView> {
    match (state, operation_state(op)) {
        (_, None) => state,
        (None, Some(o)) => Some(o),
        (Some(s), Some(o)) => Some(merge_states(s, o)),
    }
}

/// The state after a list of operations on one key; `None` if all of them are
/// malformed.
pub open spec fn operations_state(ops: Seq<OperationView>) -> Option<ShardView>
    decreases ops.len(),
{
    if ops.len() == 0 {
        None
    } else {
        absorb(operations_state(ops.drop_last()), ops.last())
    }
}

/// The operation that carries a state.
pub open spec fn state_operation(key: Seq<char>, s: ShardView) -> OperationView {
    if s.points.len() > 0 {
        OperationView {
            key,
            value: Some(encoded_shard(s)),
            version: newest_version(s.points)->0,
        }
    } else {
        OperationView { key, value: None, version: s.tombstone->0 }
    }
}

/// The one operation that a list of operations on one key is compacted to.
pub open spec fn compacted(ops: Seq<OperationView>) -> Option<OperationView> {
    match operations_state(ops) {
        Some(s) => Some(state_operation(ops[0].key, s)),
        None => None,
    }
}

/// The state that an inserted value stands for: an encoded shard as it is, a raw
/// payload as one point at `version`. `None` means malformed.
pub fn state_from_insert_value(value: &[u8], version: RateLimitVersion) -> (state: Option<
    RateLimitState,
>)
    ensures
        match state {
            Some(s) => value_state(value@, version) == Some(s@) && s is Live && s.wf(),
            None => value_state(value@, version) is None,
        },
{
    if let Some(shard) = decode_shard(value) {
        return Some(RateLimitState::Live(shard));
    }
    match decode_raw_epoch_count(value) {
        Some(value) => Some(
            RateLimitState::Live(RateLimitShard::from_live_point(LivePoint { value, version })),
        ),
        None => None,
    }
}

/// Compacts a list of operations on one key to one operation.
pub fn compact_operations(operations: &Vec<&Operation>) -> (op: Option<Operation>)
    ensures
        match op {
            Some(o) => compacted(operations@.map_values(|o: &Operation| o@)) == Some(o@),
            None => compacted(operations@.map_values(|o: &Operation| o@)) is None,
        },
{
    let ghost views = operations@.map_values(|o: &Operation| o@);
    let mut state: Option<RateLimitState> = None;
    let mut i: usize = 0;
    while i < operations.len()
        invariant
            i <= operations@.len(),
            views == operations@.map_values(|o: &Operation| o@),
            match state {
                Some(s) => s.wf() && operations_state(views.subrange(0, i as int)) == Some(s@),
                None => operations_state(views.subrange(0, i as int)) is None,
            },
        decreases operations@.len() - i,
    {
        proof {
            assert(views.subrange(0, i + 1).drop_last() =~= views.subrange(0, i as int));
            assert(views.subrange(0, i + 1).last() == operations@[i as int]@);
        }
        let operation: &Operation = operations[i];
        let operation_state: Option<RateLimitState> = match operation {
            Operation::Insert { value, timestamp, replica_id, .. } => state_from_insert_value(
                value.as_slice(),
                RateLimitVersion::new(*timestamp, *replica_id),
            ),
            Operation::Remove { timestamp, replica_id, .. } => Some(
                RateLimitState::Tombstone(RateLimitVersion::new(*timestamp, *replica_id)),
            ),
        };
        if let Some(next) = operation_state {
            state = match state {
                Some(current) => current.merge(next),
                None => Some(next),
            };
        }
        i = i + 1;
    }
    assert(views.subrange(0, i as int) =~= views);
    match state {
        Some(s) => {
            let key: String = operations[0].key().to_owned();
            s.into_operation(key)
        },
        None => None,
    }
}

/// What two stored values are merged to.
pub open spec fn merged_bytes(local: Seq<u8>, remote: Seq<u8>) -> Seq<u8> {
    match (decoded_shard(local), decoded_shard(remote)) {
        (Some(a), Some(b)) => encoded_shard(merge_states(a, b)),
        (None, Some(_)) => remote,
        _ => local,
    }
}

/// Merges two stored values. If only one of them is an encoded shard, it wins; if
/// neither is, `local` stays.
#[must_use]
pub fn merge(local: &[u8], remote: &[u8]) -> (merged: Vec<u8>)
    requires
        decoded_shard(local@) is Some && decoded_shard(remote@) is Some ==> merge_states(
            decoded_shard(local@)->0,
            decoded_shard(remote@)->0,
        ).points.len() > 0,
    ensures
        merged@ == (match (decoded_shard(local@), decoded_shard(remote@)) {
            (Some(a), Some(b)) => encoded_shard(merge_states(a, b)),
            (None, Some(_)) => remote@,
            _ => local@,
        }),
        merged@ == merged_bytes(local@, remote@),
{
    match (decode_shard(local), decode_shard(remote)) {
        (Some(a), Some(b)) => match RateLimitState::Live(a).merge(RateLimitState::Live(b)) {
            Some(RateLimitState::Live(shard)) => match encode_shard(&shard) {
                Some(data) => data,
                None => super::operation::copy_bytes(local),
            },
            _ => super::operation::copy_bytes(local),
        },
        (None, Some(_)) => super::operation::copy_bytes(remote),
        _ => super::operation::copy_bytes(local),
    }
}

} // verus!
