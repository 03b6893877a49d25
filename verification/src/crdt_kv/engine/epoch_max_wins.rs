//! Transitional rate-limit engine.
//!
//! Keeps rate-limit shards in the layout of the last-writer-wins engine: encoded
//! live values in a store, and one version per key beside it. The version of a live
//! key is that of its newest point; the tombstone of a live key is inside its shard.

use vstd::prelude::*;

use super::super::epoch_laws;
use super::super::epoch_max_wins;
use super::super::epoch_max_wins::{
    decode_shard, encode_shard, state_from_insert_value, EpochCount, LivePoint, RateLimitState,
    RateLimitVersion, ShardView,
};
use super::super::kv_store;
use super::super::kv_store::{KvStore, KvView};
use super::super::log_order_laws;
use super::super::merge_strategy::MergeStrategy;
use super::super::operation::{Operation, OperationView};
use super::super::operation_log;
use super::super::operation_log::{copy_operations, sort_by_version, OperationLog};
use super::super::replica;
use super::super::replica::{LamportClock, ReplicaId};
use super::lww;
use super::lww::LwwState;
use super::metadata;
use super::metadata::{MetadataTable, ValueMetadata};
use super::outcome_laws;
use super::NamespaceCrdtEngine;

verus! {

/// The state of a key with the stored bytes `current` and a recorded tombstone.
/// Bytes that are no shard count as no live points.
pub open spec fn held_state(
    current: Option<Seq<u8>>,
    tombstone: Option<RateLimitVersion>,
) -> ShardView {
    match current {
        Some(data) => match epoch_max_wins::decoded_shard(data) {
            Some(s) => ShardView {
                points: s.points,
                tombstone: epoch_max_wins::newer_tombstone(s.tombstone, tombstone),
            },
            None => ShardView { points: Seq::empty(), tombstone },
        },
        None => ShardView { points: Seq::empty(), tombstone },
    }
}

/// The live state after a write; `None` if the value is malformed or if no live
/// point is left.
pub open spec fn live_merge(
    current: Option<Seq<u8>>,
    tombstone: Option<RateLimitVersion>,
    value: Seq<u8>,
    version: RateLimitVersion,
) -> Option<ShardView> {
    match epoch_max_wins::value_state(value, version) {
        Some(incoming) => {
            let merged = epoch_max_wins::merge_states(held_state(current, tombstone), incoming);
            if merged.points.len() > 0 {
                Some(merged)
            } else {
                None
            }
        },
        None => None,
    }
}

/// A merged live value.
pub struct MergedLiveValue {
    /// The encoded shard.
    pub value: Vec<u8>,
    /// The version of its newest point.
    pub live_version: RateLimitVersion,
    /// Whether it differs from the stored value.
    pub changed: bool,
}

/// What a removal leaves of a key.
pub enum TombstoneApply {
    /// Newer points live on.
    Surviving { value: Vec<u8>, live_version: RateLimitVersion },
    /// No point is left.
    Empty { tombstone_version: RateLimitVersion },
}

/// Whether two byte strings are equal.
fn same_bytes(a: &[u8], b: &[u8]) -> (same: bool)
    ensures
        same == (a@ == b@),
{
    if a.len() != b.len() {
        return false;
    }
    let mut i: usize = 0;
    while i < a.len()
        invariant
            a@.len() == b@.len(),
            i <= a@.len(),
            forall|k: int| 0 <= k < i ==> a@[k] == b@[k],
        decreases a@.len() - i,
    {
        if a[i] != b[i] {
            assert(a@[i as int] != b@[i as int]);
            return false;
        }
        i = i + 1;
    }
    assert(a@ =~= b@);
    true
}

/// The state of a key, if it has live points or a tombstone.
fn held(current: &Option<Vec<u8>>, tombstone: Option<RateLimitVersion>) -> (state: Option<
    RateLimitState,
>)
    ensures
        match state {
            Some(s) => s.wf() && s@ == held_state(kv_store::bytes_view(*current), tombstone),
            None => held_state(kv_store::bytes_view(*current), tombstone) == (ShardView {
                points: Seq::empty(),
                tombstone: None,
            }),
        },
{
    let shard: Option<epoch_max_wins::RateLimitShard> = match current {
        Some(data) => decode_shard(data.as_slice()),
        None => None,
    };
    match shard {
        Some(s) => {
            let mut shard: epoch_max_wins::RateLimitShard = s;
            if let Some(t) = tombstone {
                let newer: bool = match &shard.tombstone_version {
                    None => true,
                    Some(own) => own.older_than(&t),
                };
                if newer {
                    shard.tombstone_version = Some(t);
                }
            }
            Some(RateLimitState::Live(shard))
        },
        None => match tombstone {
            Some(t) => Some(RateLimitState::Tombstone(t)),
            None => None,
        },
    }
}

/// The state of a key with another state merged in.
fn merge_into(
    current: &Option<Vec<u8>>,
    tombstone: Option<RateLimitVersion>,
    incoming: RateLimitState,
) -> (state: RateLimitState)
    requires
        incoming.wf(),
    ensures
        state.wf(),
        state@ == epoch_max_wins::merge_states(
            held_state(kv_store::bytes_view(*current), tombstone),
            incoming@,
        ),
{
    let base: RateLimitState = match held(current, tombstone) {
        Some(state) => state,
        None => RateLimitState::Live(
            epoch_max_wins::RateLimitShard { live_points: Vec::new(), tombstone_version: None },
        ),
    };
    proof {
        assert(base@ =~= held_state(kv_store::bytes_view(*current), tombstone));
        if epoch_max_wins::merge_states(base@, incoming@).tombstone is None {
            let all = base@.points + incoming@.points;
            epoch_max_wins::lemma_survivors_all(all);
            let c = super::super::frontier::lemma_cover(all, 0);
            super::super::frontier::lemma_frontier(all);
            assert(super::super::frontier::frontier(all).contains(all[c]));
        }
    }
    match base.merge(incoming) {
        Some(state) => state,
        None => {
            assert(false);
            RateLimitState::Tombstone(RateLimitVersion::new(0, ReplicaId { bits: 0 }))
        },
    }
}

/// Merges a written value into the stored one.
pub fn merge_live_value(
    current: &Option<Vec<u8>>,
    current_tombstone: Option<RateLimitVersion>,
    value: &[u8],
    version: RateLimitVersion,
) -> (merged: Option<MergedLiveValue>)
    ensures
        match live_merge(kv_store::bytes_view(*current), current_tombstone, value@, version) {
            Some(s) => {
                &&& merged matches Some(m)
                &&& m.value@ == epoch_max_wins::encoded_shard(s)
                &&& m.live_version == epoch_max_wins::newest_version(s.points)->0
                &&& m.changed == (kv_store::bytes_view(*current) != Some(m.value@))
            },
            None => merged is None,
        },
{
    let incoming: RateLimitState = match state_from_insert_value(value, version) {
        Some(state) => state,
        None => {
            return None;
        },
    };
    match merge_into(current, current_tombstone, incoming) {
        RateLimitState::Live(shard) => {
            proof {
                epoch_max_wins::lemma_newest_version(shard@.points);
            }
            match (encode_shard(&shard), shard.newest_live_version()) {
                (Some(value), Some(live_version)) => {
                    let changed: bool = match current {
                        Some(data) => !same_bytes(data.as_slice(), value.as_slice()),
                        None => true,
                    };
                    Some(MergedLiveValue { value, live_version, changed })
                },
                _ => None,
            }
        },
        RateLimitState::Tombstone(_) => None,
    }
}

/// Merges a removal into the stored value.
pub fn apply_tombstone(
    current: &Option<Vec<u8>>,
    current_tombstone: Option<RateLimitVersion>,
    incoming: RateLimitVersion,
) -> (outcome: TombstoneApply)
    ensures
        ({
            let s = epoch_max_wins::merge_states(
                held_state(kv_store::bytes_view(*current), current_tombstone),
                epoch_max_wins::tombstone_state(incoming),
            );
            if s.points.len() > 0 {
                &&& outcome matches TombstoneApply::Surviving { value, live_version }
                &&& value@ == epoch_max_wins::encoded_shard(s)
                &&& live_version == epoch_max_wins::newest_version(s.points)->0
            } else {
                &&& outcome matches TombstoneApply::Empty { tombstone_version }
                &&& s.tombstone == Some(tombstone_version)
            }
        }),
{
    match merge_into(current, current_tombstone, RateLimitState::Tombstone(incoming)) {
        RateLimitState::Live(shard) => {
            proof {
                epoch_max_wins::lemma_newest_version(shard@.points);
            }
            match (encode_shard(&shard), shard.newest_live_version()) {
                (Some(value), Some(live_version)) => TombstoneApply::Surviving {
                    value,
                    live_version,
                },
                _ => {
                    assert(false);
                    TombstoneApply::Empty { tombstone_version: incoming }
                },
            }
        },
        RateLimitState::Tombstone(tombstone_version) => TombstoneApply::Empty {
            tombstone_version,
        },
    }
}

// ---------------------------------------------------------------------------
// The engine
// ---------------------------------------------------------------------------
/// The recorded tombstone of a key; a live key has it in its shard instead.
pub open spec fn recorded_tombstone(
    table: Map<Seq<char>, ValueMetadata>,
    key: Seq<char>,
) -> Option<RateLimitVersion> {
    if table.contains_key(key) && table[key].is_tombstone {
        Some(table[key].version)
    } else {
        None
    }
}

/// The state of a key.
pub open spec fn key_state(s: LwwState, key: Seq<char>) -> ShardView {
    held_state(kv_store::kv_get(s.kv, key), recorded_tombstone(s.table, key))
}

/// The shard that a write stores; `None` if it stores nothing, because it is
/// malformed, suppressed, or no change.
pub open spec fn stored_by(
    s: LwwState,
    key: Seq<char>,
    value: Seq<u8>,
    version: RateLimitVersion,
) -> Option<ShardView> {
    let current = kv_store::kv_get(s.kv, key);
    match live_merge(current, recorded_tombstone(s.table, key), value, version) {
        Some(m) => if current == Some(epoch_max_wins::encoded_shard(m)) {
            None
        } else {
            Some(m)
        },
        None => None,
    }
}

/// The state after a live shard was stored.
pub open spec fn store_shard(s: LwwState, key: Seq<char>, m: ShardView, now: u64) -> LwwState {
    LwwState {
        kv: kv_store::kv_insert(s.kv, key, epoch_max_wins::encoded_shard(m)),
        table: s.table.insert(
            key,
            metadata::live_metadata(epoch_max_wins::newest_version(m.points)->0, now),
        ),
    }
}

/// The state after a write.
pub open spec fn legacy_insert(
    s: LwwState,
    key: Seq<char>,
    value: Seq<u8>,
    version: RateLimitVersion,
    now: u64,
) -> LwwState {
    match stored_by(s, key, value, version) {
        Some(m) => store_shard(s, key, m, now),
        None => s,
    }
}

/// The removal is the recorded tombstone of the key.
pub open spec fn already_removed(
    s: LwwState,
    key: Seq<char>,
    version: RateLimitVersion,
) -> bool {
    recorded_tombstone(s.table, key) == Some(version)
}

/// The state after a removal. A tombstone that stays the same keeps its time, so
/// that a delayed older removal does not put off its collection.
pub open spec fn legacy_remove(
    s: LwwState,
    key: Seq<char>,
    version: RateLimitVersion,
    now: u64,
) -> LwwState {
    let m = epoch_max_wins::merge_states(
        key_state(s, key),
        epoch_max_wins::tombstone_state(version),
    );
    if already_removed(s, key, version) {
        s
    } else if m.points.len() > 0 {
        store_shard(s, key, m, now)
    } else {
        LwwState {
            kv: kv_store::kv_remove(s.kv, key),
            table: if recorded_tombstone(s.table, key) == m.tombstone {
                s.table
            } else {
                s.table.insert(key, metadata::tombstone_metadata(m.tombstone->0, now))
            },
        }
    }
}

/// The state after an operation.
pub open spec fn legacy_apply(s: LwwState, op: OperationView, now: u64) -> LwwState {
    match op.value {
        Some(value) => legacy_insert(s, op.key, value, op.version, now),
        None => legacy_remove(s, op.key, op.version, now),
    }
}

/// The state after a list of operations.
pub open spec fn legacy_apply_all(s: LwwState, ops: Seq<OperationView>, now: u64) -> LwwState
    decreases ops.len(),
{
    if ops.len() == 0 {
        s
    } else {
        legacy_apply(legacy_apply_all(s, ops.drop_last(), now), ops.last(), now)
    }
}

/// The state of a rate-limit namespace on one node.
pub struct EpochMaxWinsLegacyEngine {
    store: KvStore,
    metadata: MetadataTable,
    log: OperationLog,
    replica_id: ReplicaId,
}

/// What an engine holds.
#[verifier::ext_equal]
pub struct LegacyView {
    pub state: LwwState,
    pub log: Seq<OperationView>,
    pub replica_id: ReplicaId,
}

impl View for EpochMaxWinsLegacyEngine {
    type V = LegacyView;

    closed spec fn view(&self) -> LegacyView {
        LegacyView {
            state: LwwState { kv: self.store@, table: self.metadata@ },
            log: self.log@,
            replica_id: self.replica_id,
        }
    }
}

/// How an engine and its clock change with a local write, or with a local removal where
/// `value` is `None`: the clock ticks, the change is applied under the new timestamp, and is
/// logged if the write stores something, or the removal is new.
pub open spec fn local_change(
    before: LegacyView,
    clock_before: u64,
    now: u64,
    key: Seq<char>,
    value: Option<Seq<u8>>,
    after: LegacyView,
    clock_now: u64,
) -> bool {
    let version = RateLimitVersion { timestamp: clock_now, replica_id: before.replica_id };
    let op = OperationView { key, value, version };
    let new = match value {
        Some(v) => stored_by(before.state, key, v, version) is Some,
        None => !already_removed(before.state, key, version),
    };
    &&& clock_now == replica::next_timestamp(clock_before)
    &&& after.replica_id == before.replica_id
    &&& after.state == legacy_apply(before.state, op, now)
    &&& if new {
        operation_log::appended(
            before.log.push(op),
            operation_log::always(MergeStrategy::EpochMaxWins),
            after.log,
        )
    } else {
        after.log == before.log
    }
}

/// How an engine and its clock change when operations of another node arrive: all
/// of them are applied, oldest version first, the clock observes each of them, and
/// the log is merged and compacted.
pub open spec fn remote_ops_merged(
    before: LegacyView,
    clock_before: u64,
    now: u64,
    ops: Seq<OperationView>,
    after: LegacyView,
    clock_now: u64,
) -> bool {
    let sorted = operation_log::stable_sorted(ops);
    &&& after.replica_id == before.replica_id
    &&& after.state == legacy_apply_all(before.state, sorted, now)
    &&& clock_now == lww::clock_after(clock_before, sorted)
    &&& if ops.len() == 0 {
        after.log == before.log
    } else {
        operation_log::is_compaction(
            operation_log::merged_log(
                before.log,
                ops,
                operation_log::repeated(MergeStrategy::EpochMaxWins, ops.len()),
            ).0,
            operation_log::always(MergeStrategy::EpochMaxWins),
            after.log,
        )
    }
}

impl EpochMaxWinsLegacyEngine {
    /// A key has a live value exactly where its version is that of a write.
    pub closed spec fn wf(&self) -> bool {
        &&& self.store.wf()
        &&& self.metadata.wf()
        &&& lww::consistent(self@.state)
    }

    /// An engine without keys.
    pub fn new(replica_id: ReplicaId) -> (engine: EpochMaxWinsLegacyEngine)
        ensures
            engine.wf(),
            engine@ == (LegacyView {
                state: LwwState {
                    kv: KvView { live: Map::empty(), generation: 0 },
                    table: Map::empty(),
                },
                log: Seq::empty(),
                replica_id,
            }),
    {
        let engine = EpochMaxWinsLegacyEngine {
            store: KvStore::new(),
            metadata: MetadataTable::new(),
            log: OperationLog::new(),
            replica_id,
        };
        assert(engine@.log =~= Seq::empty());
        engine
    }

    /// The recorded tombstone of `key`.
    fn newest_tombstone_version(&self, key: &str) -> (version: Option<RateLimitVersion>)
        requires
            self.metadata.wf(),
        ensures
            version == recorded_tombstone(self@.state.table, key@),
    {
        match self.metadata.get(key) {
            Some(m) => if m.is_tombstone {
                Some(m.version)
            } else {
                None
            },
            None => None,
        }
    }

    /// Records a write and returns the shard to store, if there is one.
    fn record_epoch_insert_metadata(
        &mut self,
        key: &str,
        value: &[u8],
        version: RateLimitVersion,
        now: u64,
    ) -> (stored: Option<Vec<u8>>)
        requires
            old(self).wf(),
        ensures
            final(self).store == old(self).store,
            final(self).store.wf(),
            final(self).metadata.wf(),
            final(self)@.log == old(self)@.log,
            final(self)@.replica_id == old(self)@.replica_id,
            match stored_by(old(self)@.state, key@, value@, version) {
                Some(m) => {
                    &&& stored matches Some(data)
                    &&& data@ == epoch_max_wins::encoded_shard(m)
                    &&& final(self)@.state.table == store_shard(
                        old(self)@.state,
                        key@,
                        m,
                        now,
                    ).table
                },
                None => stored is None && final(self)@.state == old(self)@.state,
            },
    {
        let current: Option<Vec<u8>> = self.store.get(key);
        let current_tombstone: Option<RateLimitVersion> = self.newest_tombstone_version(key);
        match merge_live_value(&current, current_tombstone, value, version) {
            None => None,
            Some(merged) => {
                if !merged.changed {
                    return None;
                }
                self.metadata.set(
                    key,
                    ValueMetadata {
                        version: merged.live_version,
                        is_tombstone: false,
                        created_at: now,
                    },
                );
                Some(merged.value)
            },
        }
    }

    /// Applies a removal, and says whether it is new.
    fn apply_epoch_remove_locked(&mut self, key: &str, version: RateLimitVersion, now: u64) -> (
    recorded: bool)
        requires
            old(self).wf(),
        ensures
            final(self).wf(),
            final(self)@ == (LegacyView {
                state: legacy_remove(old(self)@.state, key@, version, now),
                ..old(self)@
            }),
            recorded == !already_removed(old(self)@.state, key@, version),
    {
        let ghost before = self@.state;
        let current: Option<Vec<u8>> = self.store.get(key);
        let current_tombstone: Option<RateLimitVersion> = self.newest_tombstone_version(key);
        if let Some(t) = current_tombstone {
            if t == version {
                return false;
            }
        }
        match apply_tombstone(&current, current_tombstone, version) {
            TombstoneApply::Surviving { value, live_version } => {
                self.metadata.set(
                    key,
                    ValueMetadata { version: live_version, is_tombstone: false, created_at: now },
                );
                self.store.insert(key, value);
            },
            TombstoneApply::Empty { tombstone_version } => {
                let already_matches: bool = match current_tombstone {
                    Some(t) => t == tombstone_version,
                    None => false,
                };
                if !already_matches {
                    self.metadata.set(
                        key,
                        ValueMetadata {
                            version: tombstone_version,
                            is_tombstone: true,
                            created_at: now,
                        },
                    );
                }
                self.store.remove(key);
            },
        }
        proof {
            lemma_apply_consistent(
                before,
                OperationView { key: key@, value: None, version },
                now,
            );
        }
        true
    }

    fn apply_insert(&mut self, key: &str, value: &[u8], version: RateLimitVersion, now: u64) -> (
    accepted: bool)
        requires
            old(self).wf(),
        ensures
            final(self).wf(),
            final(self)@ == (LegacyView {
                state: legacy_insert(old(self)@.state, key@, value@, version, now),
                ..old(self)@
            }),
            accepted == (stored_by(old(self)@.state, key@, value@, version) is Some),
    {
        let ghost before = self@.state;
        proof {
            lemma_apply_consistent(
                before,
                OperationView { key: key@, value: Some(value@), version },
                now,
            );
        }
        match self.record_epoch_insert_metadata(key, value, version, now) {
            Some(stored) => {
                self.store.insert(key, stored);
                true
            },
            None => false,
        }
    }

    /// Writes a value and returns the stored one before it.
    pub fn put_local(
        &mut self,
        clock: &mut LamportClock,
        now: u64,
        key: &str,
        value: Vec<u8>,
    ) -> (previous: Option<Vec<u8>>)
        requires
            old(self).wf(),
        ensures
            final(self).wf(),
            final(clock)@ == replica::next_timestamp(old(clock)@),
            final(self)@.replica_id == old(self)@.replica_id,
            ({
                let before = old(self)@;
                let version = RateLimitVersion {
                    timestamp: final(clock)@,
                    replica_id: before.replica_id,
                };
                let op = OperationView { key: key@, value: Some(value@), version };
                &&& final(self)@.state == legacy_apply(before.state, op, now)
                &&& if stored_by(before.state, key@, value@, version) is Some {
                    operation_log::appended(
                        before.log.push(op),
                        operation_log::always(MergeStrategy::EpochMaxWins),
                        final(self)@.log,
                    )
                } else {
                    final(self)@.log == before.log
                }
            }),
            local_change(
                old(self)@,
                old(clock)@,
                now,
                key@,
                Some(value@),
                final(self)@,
                final(clock)@,
            ),
            kv_store::bytes_view(previous) == kv_store::kv_get(old(self)@.state.kv, key@),
    {
        let previous: Option<Vec<u8>> = self.store.get(key);
        let timestamp: u64 = clock.tick();
        let version = RateLimitVersion::new(timestamp, self.replica_id);
        if self.apply_insert(key, value.as_slice(), version, now) {
            let op = Operation::insert(key.to_owned(), value, timestamp, self.replica_id);
            self.log.append_always(op, MergeStrategy::EpochMaxWins);
        }
        previous
    }

    /// Removes a key. Removals act point by point, so that what was removed has no
    /// clean answer: the result is always `None`.
    pub fn delete_local(&mut self, clock: &mut LamportClock, now: u64, key: &str) -> (removed:
        Option<Vec<u8>>)
        requires
            old(self).wf(),
        ensures
            final(self).wf(),
            final(clock)@ == replica::next_timestamp(old(clock)@),
            final(self)@.replica_id == old(self)@.replica_id,
            ({
                let before = old(self)@;
                let version = RateLimitVersion {
                    timestamp: final(clock)@,
                    replica_id: before.replica_id,
                };
                let op = OperationView { key: key@, value: None, version };
                &&& final(self)@.state == legacy_apply(before.state, op, now)
                &&& if already_removed(before.state, key@, version) {
                    final(self)@.log == before.log
                } else {
                    operation_log::appended(
                        before.log.push(op),
                        operation_log::always(MergeStrategy::EpochMaxWins),
                        final(self)@.log,
                    )
                }
            }),
            local_change(
                old(self)@,
                old(clock)@,
                now,
                key@,
                None,
                final(self)@,
                final(clock)@,
            ),
            removed is None,
    {
        let timestamp: u64 = clock.tick();
        let version = RateLimitVersion::new(timestamp, self.replica_id);
        if self.apply_epoch_remove_locked(key, version, now) {
            let op = Operation::remove(key.to_owned(), timestamp, self.replica_id);
            self.log.append_always(op, MergeStrategy::EpochMaxWins);
        }
        None
    }

    /// The stored value of `key`.
    pub fn get(&self, key: &str) -> (value: Option<Vec<u8>>)
        requires
            self.wf(),
        ensures
            kv_store::bytes_view(value) == kv_store::kv_get(self@.state.kv, key@),
    {
        self.store.get(key)
    }

    /// Whether `key` has a stored value.
    pub fn contains_key(&self, key: &str) -> (found: bool)
        requires
            self.wf(),
        ensures
            found == self@.state.kv.live.contains_key(key@),
    {
        self.store.contains_key(key)
    }

    /// The keys that have a stored value, each once.
    pub fn keys(&self) -> (keys: Vec<String>)
        requires
            self.wf(),
        ensures
            kv_store::lists_keys(kv_store::text_views(keys@), self@.state.kv.live.dom()),
    {
        self.store.keys()
    }

    /// The number of keys that have a stored value.
    pub fn len(&self) -> (n: usize)
        requires
            self.wf(),
        ensures
            n == self@.state.kv.live.dom().len(),
    {
        self.store.len()
    }

    /// The number of changes made to the stored values.
    pub fn generation(&self) -> (g: u64)
        ensures
            g == self@.state.kv.generation,
    {
        self.store.generation()
    }

    /// The operations of the log.
    pub fn export_ops(&self) -> (ops: Vec<Operation>)
        ensures
            operation_log::views(ops@) == self@.log,
    {
        copy_operations(self.log.operations())
    }

    /// Merges the operations of another node, oldest version first. Operations that
    /// the log knows are replayed too.
    pub fn apply_remote_ops(&mut self, clock: &mut LamportClock, now: u64, ops: Vec<Operation>)
        requires
            old(self).wf(),
        ensures
            final(self).wf(),
            remote_ops_merged(
                old(self)@,
                old(clock)@,
                now,
                operation_log::views(ops@),
                final(self)@,
                final(clock)@,
            ),
    {
        let ghost sorted = operation_log::stable_sorted(operation_log::views(ops@));
        if ops.len() == 0 {
            assert(operation_log::views(ops@) =~= Seq::empty());
            return;
        }
        let to_apply: Vec<Operation> = sort_by_version(&ops);
        let incoming_log = OperationLog::from_operations(ops);
        self.log.merge_always(&incoming_log, MergeStrategy::EpochMaxWins);
        let ghost log = self.log@;
        let ghost before = self@.state;
        let ghost clock_before = clock@;
        let mut i: usize = 0;
        while i < to_apply.len()
            invariant
                i <= to_apply@.len(),
                self.wf(),
                operation_log::views(to_apply@) == sorted,
                self@.log == log,
                self@.replica_id == old(self)@.replica_id,
                self@.state == legacy_apply_all(before, sorted.subrange(0, i as int), now),
                clock@ == lww::clock_after(clock_before, sorted.subrange(0, i as int)),
            decreases to_apply@.len() - i,
        {
            proof {
                assert(sorted.subrange(0, i + 1).drop_last() =~= sorted.subrange(0, i as int));
                assert(sorted[i as int] == to_apply@[i as int]@);
            }
            let version: RateLimitVersion = to_apply[i].version();
            clock.update(version.timestamp);
            match &to_apply[i] {
                Operation::Insert { key, value, .. } => {
                    self.apply_insert(key.as_str(), value.as_slice(), version, now);
                },
                Operation::Remove { key, .. } => {
                    self.apply_epoch_remove_locked(key.as_str(), version, now);
                },
            }
            i = i + 1;
        }
        assert(sorted.subrange(0, i as int) =~= sorted);
    }

    /// Forgets the tombstones that are at least `grace` old of keys without a stored
    /// value, and returns how many there were.
    pub fn gc_tombstones(&mut self, now: u64, grace: u64) -> (removed: usize)
        requires
            old(self).wf(),
        ensures
            final(self).wf(),
            ({
                let s = old(self)@.state;
                let due = metadata::due_keys(s.table, s.kv.live, now, grace);
                &&& final(self)@ == (LegacyView {
                    state: LwwState { kv: s.kv, table: s.table.remove_keys(due) },
                    ..old(self)@
                })
                &&& due.finite()
                &&& removed == due.len()
            }),
    {
        let ghost before = self@.state;
        let removed: usize = self.metadata.gc(&self.store, now, grace);
        proof {
            let after = self@.state;
            assert forall|k: Seq<char>| #[trigger]
                after.kv.live.contains_key(k) <==> after.table.contains_key(k)
                    && !after.table[k].is_tombstone by {
                assert(before.kv.live.contains_key(k) <==> before.table.contains_key(k)
                    && !before.table[k].is_tombstone);
            }
        }
        removed
    }
}

/// Every operation keeps stored values and recorded versions together.
proof fn lemma_apply_consistent(s: LwwState, op: OperationView, now: u64)
    requires
        lww::consistent(s),
    ensures
        lww::consistent(legacy_apply(s, op, now)),
{
    let t = legacy_apply(s, op, now);
    assert forall|k: Seq<char>| #[trigger] t.kv.live.contains_key(k) <==> t.table.contains_key(k)
        && !t.table[k].is_tombstone by {
        assert(s.kv.live.contains_key(k) <==> s.table.contains_key(k) && !s.table[k].is_tombstone);
    }
}

/// Reading what was written for a live state gives back the state.
proof fn lemma_decodes(m: ShardView)
    requires
        m.points.len() > 0,
        epoch_max_wins::encoded_shard(m).len() <= epoch_max_wins::MAX_SHARD_BYTES,
    ensures
        epoch_max_wins::decoded_shard(epoch_max_wins::encoded_shard(m)) == Some(m),
{
    epoch_max_wins::law_shard_round_trip(m, Seq::empty());
    assert(epoch_max_wins::encoded_shard(m) + Seq::empty() =~= epoch_max_wins::encoded_shard(m));
}

/// A key whose stored bytes are those of a live state, and that has no tombstone on
/// record, is in that state.
proof fn lemma_live_key(s: LwwState, key: Seq<char>, m: ShardView)
    requires
        kv_store::kv_get(s.kv, key) == Some(epoch_max_wins::encoded_shard(m)),
        recorded_tombstone(s.table, key) is None,
        m.points.len() > 0,
        epoch_max_wins::encoded_shard(m).len() <= epoch_max_wins::MAX_SHARD_BYTES,
    ensures
        key_state(s, key) == m,
{
    lemma_decodes(m);
}

/// A key is in the state that was stored for it.
proof fn lemma_stored_key(s: LwwState, key: Seq<char>, m: ShardView, now: u64)
    requires
        m.points.len() > 0,
        epoch_max_wins::encoded_shard(m).len() <= epoch_max_wins::MAX_SHARD_BYTES,
    ensures
        ({
            let t = store_shard(s, key, m, now);
            &&& kv_store::kv_get(t.kv, key) == Some(epoch_max_wins::encoded_shard(m))
            &&& key_state(t, key) == m
        }),
{
    let t = store_shard(s, key, m, now);
    assert(recorded_tombstone(t.table, key) is None);
    lemma_live_key(t, key, m);
}

/// A write that leaves a live state leaves the bytes of that state, whether it stored
/// them or found them.
proof fn lemma_written_key(
    s: LwwState,
    key: Seq<char>,
    value: Seq<u8>,
    version: RateLimitVersion,
    now: u64,
    m: ShardView,
)
    requires
        lww::consistent(s),
        live_merge(
            kv_store::kv_get(s.kv, key),
            recorded_tombstone(s.table, key),
            value,
            version,
        ) == Some(m),
        epoch_max_wins::encoded_shard(m).len() <= epoch_max_wins::MAX_SHARD_BYTES,
    ensures
        ({
            let t = legacy_insert(s, key, value, version, now);
            &&& kv_store::kv_get(t.kv, key) == Some(epoch_max_wins::encoded_shard(m))
            &&& key_state(t, key) == m
        }),
{
    match stored_by(s, key, value, version) {
        Some(stored) => {
            assert(stored == m);
            lemma_stored_key(s, key, m, now);
        },
        None => {
            assert(s.kv.live.contains_key(key));
            lemma_live_key(s, key, m);
        },
    }
}

/// A removal merges its tombstone into the state of its key, as long as the shard
/// that stays respects the cap on encoded shards.
pub proof fn law_removal_merges(s: LwwState, key: Seq<char>, version: RateLimitVersion, now: u64)
    requires
        lww::consistent(s),
        epoch_max_wins::encoded_shard(
            epoch_max_wins::merge_states(
                key_state(s, key),
                epoch_max_wins::tombstone_state(version),
            ),
        ).len() <= epoch_max_wins::MAX_SHARD_BYTES,
    ensures
        key_state(legacy_remove(s, key, version, now), key) == epoch_max_wins::merge_states(
            key_state(s, key),
            epoch_max_wins::tombstone_state(version),
        ),
{
    let m = epoch_max_wins::merge_states(
        key_state(s, key),
        epoch_max_wins::tombstone_state(version),
    );
    let t = legacy_remove(s, key, version, now);
    assert(s.kv.live.contains_key(key) <==> s.table.contains_key(key)
        && !s.table[key].is_tombstone);
    if already_removed(s, key, version) {
        assert(key_state(s, key).points + epoch_max_wins::tombstone_state(version).points
            =~= Seq::empty());
        reveal(Seq::filter);
        super::super::frontier::lemma_frontier_empty();
        assert(m =~= key_state(s, key));
    } else if m.points.len() > 0 {
        lemma_stored_key(s, key, m, now);
    } else {
        assert(m.points =~= Seq::empty());
        assert(key_state(t, key) =~= m);
    }
}

/// A write of a raw payload merges its point into the state of its key, as long as
/// the shard respects the cap on encoded shards.
pub proof fn law_write_merges(
    s: LwwState,
    key: Seq<char>,
    value: Seq<u8>,
    version: RateLimitVersion,
    now: u64,
)
    requires
        lww::consistent(s),
        live_merge(
            kv_store::kv_get(s.kv, key),
            recorded_tombstone(s.table, key),
            value,
            version,
        ) matches Some(m) && epoch_max_wins::encoded_shard(m).len()
            <= epoch_max_wins::MAX_SHARD_BYTES,
    ensures
        key_state(legacy_insert(s, key, value, version, now), key) == epoch_max_wins::merge_states(
            key_state(s, key),
            epoch_max_wins::value_state(value, version)->0,
        ),
{
    let m = epoch_max_wins::merge_states(
        key_state(s, key),
        epoch_max_wins::value_state(value, version)->0,
    );
    lemma_written_key(s, key, value, version, now, m);
}

/// A write that arrives again changes nothing, if one version stamps one value and the
/// shard respects the cap on encoded shards.
pub proof fn law_replayed_write_is_no_change(
    s: LwwState,
    key: Seq<char>,
    value: Seq<u8>,
    version: RateLimitVersion,
    now: u64,
    later: u64,
)
    requires
        lww::consistent(s),
        live_merge(
            kv_store::kv_get(s.kv, key),
            recorded_tombstone(s.table, key),
            value,
            version,
        ) matches Some(m) ==> epoch_max_wins::encoded_shard(m).len()
            <= epoch_max_wins::MAX_SHARD_BYTES,
        epoch_max_wins::value_state(value, version) matches Some(o) ==> epoch_laws::coherent(
            key_state(s, key).points + o.points,
        ),
    ensures
        legacy_insert(legacy_insert(s, key, value, version, now), key, value, version, later)
            == legacy_insert(s, key, value, version, now),
{
    let merged = live_merge(
        kv_store::kv_get(s.kv, key),
        recorded_tombstone(s.table, key),
        value,
        version,
    );
    if let Some(m) = merged {
        let o = epoch_max_wins::value_state(value, version)->0;
        let t = legacy_insert(s, key, value, version, now);
        lemma_written_key(s, key, value, version, now, m);
        epoch_laws::law_merge_absorbs(key_state(s, key), o);
        assert(epoch_max_wins::merge_states(key_state(t, key), o) == m);
        assert(stored_by(t, key, value, version) is None);
    }
}

/// A removal that arrives again leaves the state of its key as it is, if one version
/// stamps one value and the shard that stays respects the cap on encoded shards. The
/// change counter may advance: what stays is stored again.
pub proof fn law_replayed_removal_keeps_state(
    s: LwwState,
    key: Seq<char>,
    version: RateLimitVersion,
    now: u64,
    later: u64,
)
    requires
        lww::consistent(s),
        epoch_max_wins::encoded_shard(
            epoch_max_wins::merge_states(
                key_state(s, key),
                epoch_max_wins::tombstone_state(version),
            ),
        ).len() <= epoch_max_wins::MAX_SHARD_BYTES,
        epoch_laws::coherent(key_state(s, key).points),
    ensures
        ({
            let t = legacy_remove(s, key, version, now);
            key_state(legacy_remove(t, key, version, later), key) == key_state(t, key)
        }),
{
    let t = legacy_remove(s, key, version, now);
    let tombstone = epoch_max_wins::tombstone_state(version);
    assert(key_state(s, key).points + tombstone.points =~= key_state(s, key).points);
    law_removal_merges(s, key, version, now);
    epoch_laws::law_merge_absorbs(key_state(s, key), tombstone);
    let op = OperationView { key, value: None, version };
    lemma_apply_consistent(s, op, now);
    law_removal_merges(t, key, version, later);
}

/// A payload that was written after the tombstones of its key is read from then on, unless
/// the key has a point of a greater epoch, or of a greater count in the same epoch: then
/// that is read. Where the stored bytes change, that is one change, and the key is known
/// from this moment in a version that is not older than the written one; where they stay,
/// everything does.
pub proof fn law_write_is_read(
    s: LwwState,
    key: Seq<char>,
    value: EpochCount,
    version: RateLimitVersion,
    now: u64,
)
    requires
        lww::consistent(s),
        epoch_laws::written_after(LivePoint { value, version }, key_state(s, key).tombstone),
        epoch_max_wins::encoded_shard(
            epoch_max_wins::merge_states(
                key_state(s, key),
                epoch_max_wins::point_state(value, version),
            ),
        ).len() <= 65536,
    ensures
        ({
            let t = legacy_insert(s, key, epoch_max_wins::payload(value), version, now);
            &&& t.kv.live.contains_key(key)
            &&& epoch_max_wins::decoded_value(t.kv.live[key]) matches Some(read)
            &&& value.epoch < read.epoch || (value.epoch == read.epoch && value.count
                <= read.count)
            &&& read == value || exists|q: LivePoint| #[trigger]
                key_state(s, key).points.contains(q) && q.value == read
            &&& if s.kv.live.contains_key(key) && s.kv.live[key] == t.kv.live[key] {
                t == s
            } else {
                &&& t.table.contains_key(key)
                &&& !t.table[key].is_tombstone
                &&& t.table[key].created_at == now
                &&& version.timestamp < t.table[key].version.timestamp || (version.timestamp
                    == t.table[key].version.timestamp && version.replica_id.bits
                    <= t.table[key].version.replica_id.bits)
                &&& outcome_laws::one_change(s.kv.generation, t.kv.generation)
            }
        }),
{
    let data = epoch_max_wins::payload(value);
    epoch_max_wins::law_payload_round_trip(value);
    epoch_max_wins::law_payload_is_no_shard(data);
    let e = key_state(s, key);
    let o = epoch_max_wins::point_state(value, version);
    let p = LivePoint { value, version };
    let m = epoch_max_wins::merge_states(e, o);
    assert(o.points[0] == p);
    assert(o.points.contains(p));
    assert(epoch_laws::live_in(e, o, p));
    epoch_laws::law_merge_reads_greatest(e, o, p);
    epoch_laws::law_merge_keeps_what_counts(e, o, p, p);
    let k = choose|k: LivePoint| {
        &&& #[trigger] m.points.contains(k)
        &&& p.value.epoch < k.value.epoch || (p.value.epoch == k.value.epoch && p.value.count
            <= k.value.count)
        &&& p.version.timestamp < k.version.timestamp || (p.version.timestamp
            == k.version.timestamp && p.version.replica_id.bits <= k.version.replica_id.bits)
    };
    epoch_laws::law_carrier_is_newest(key, m, k);
    lemma_written_key(s, key, data, version, now, m);
    let read = epoch_max_wins::decoded_value(epoch_max_wins::encoded_shard(m))->0;
    let q = choose|q: LivePoint| #[trigger] epoch_laws::live_in(e, o, q) && q.value == read;
    if o.points.contains(q) {
        assert(q == p);
    }
}

/// A payload that was not written after the tombstone on record changes nothing where the
/// key has no stored value.
pub proof fn law_late_write_is_suppressed(
    s: LwwState,
    key: Seq<char>,
    value: EpochCount,
    version: RateLimitVersion,
    now: u64,
)
    requires
        lww::consistent(s),
        s.table.contains_key(key),
        s.table[key].is_tombstone,
        !outcome_laws::is_newer(version, s.table[key].version),
    ensures
        legacy_insert(s, key, epoch_max_wins::payload(value), version, now) == s,
{
    assert(s.kv.live.contains_key(key) <==> s.table.contains_key(key)
        && !s.table[key].is_tombstone);
    let data = epoch_max_wins::payload(value);
    epoch_max_wins::law_payload_round_trip(value);
    epoch_max_wins::law_payload_is_no_shard(data);
    let e = key_state(s, key);
    let o = epoch_max_wins::point_state(value, version);
    let m = epoch_max_wins::merge_states(e, o);
    if m.points.len() > 0 {
        let q = m.points[0];
        assert(m.points.contains(q));
        epoch_laws::law_merge_keeps_what_counts(e, o, q, q);
        assert(epoch_laws::live_in(e, o, q));
        assert(o.points.contains(q));
        assert(q == o.points[0]);
    }
}

/// A removal that is newer than every point of its key leaves the key without a value. The
/// tombstone on record is then no older than the removal, and its time is this moment
/// unless the tombstone was on record already. Where a newer point stays, so does a value.
pub proof fn law_removal_takes_effect(
    s: LwwState,
    key: Seq<char>,
    version: RateLimitVersion,
    now: u64,
    p: LivePoint,
)
    requires
        lww::consistent(s),
    ensures
        ({
            let e = key_state(s, key);
            let t = legacy_remove(s, key, version, now);
            &&& (forall|q: LivePoint| #[trigger]
                e.points.contains(q) ==> !outcome_laws::is_newer(q.version, version)) ==> {
                &&& !t.kv.live.contains_key(key)
                &&& t.table.contains_key(key)
                &&& t.table[key].is_tombstone
                &&& !outcome_laws::is_newer(version, t.table[key].version)
                &&& s.table.contains_key(key) && s.table[key].is_tombstone
                    && !outcome_laws::is_newer(version, s.table[key].version) ==> t.table == s.table
                &&& !s.table.contains_key(key) || !s.table[key].is_tombstone
                    || outcome_laws::is_newer(version, s.table[key].version)
                    ==> t.table[key].created_at == now
            }
            &&& e.points.contains(p) && epoch_laws::written_after(p, e.tombstone)
                && outcome_laws::is_newer(p.version, version) ==> t.kv.live.contains_key(key)
                && t.table.contains_key(key) && !t.table[key].is_tombstone
        }),
{
    let e = key_state(s, key);
    let o = epoch_max_wins::tombstone_state(version);
    let m = epoch_max_wins::merge_states(e, o);
    let t = legacy_remove(s, key, version, now);
    assert(s.kv.live.contains_key(key) <==> s.table.contains_key(key)
        && !s.table[key].is_tombstone);
    epoch_laws::law_merge_keeps_what_counts(e, o, p, p);
    if e.points.contains(p) && epoch_laws::written_after(p, e.tombstone) && outcome_laws::is_newer(
        p.version,
        version,
    ) {
        assert(epoch_laws::live_in(e, o, p));
        assert(m.points.len() > 0);
    }
    if forall|q: LivePoint| #[trigger]
        e.points.contains(q) ==> !outcome_laws::is_newer(q.version, version) {
        if m.points.len() > 0 {
            let q = m.points[0];
            assert(m.points.contains(q));
            epoch_laws::law_merge_keeps_what_counts(e, o, q, q);
            assert(epoch_laws::live_in(e, o, q));
            assert(e.points.contains(q));
        }
    }
}

/// A local change puts the clock up by one as long as a timestamp is left, and keeps the
/// replica id. A removal under a timestamp that the key does not have on record is logged
/// behind the log, and so is a write that changes the stored bytes, as long as the log has
/// fewer than 10,000 entries. A write that stores nothing leaves state and log as they are.
pub proof fn law_local_change_is_logged(
    before: LegacyView,
    clock_before: u64,
    now: u64,
    key: Seq<char>,
    value: Option<Seq<u8>>,
    after: LegacyView,
    clock_now: u64,
)
    requires
        local_change(before, clock_before, now, key, value, after, clock_now),
        clock_before < u64::MAX,
        before.state.table.contains_key(key) ==> before.state.table[key].version.timestamp
            <= clock_before,
        before.log.len() < 10_000,
    ensures
        ({
            let version = RateLimitVersion {
                timestamp: clock_now,
                replica_id: before.replica_id,
            };
            let op = OperationView { key, value, version };
            &&& clock_now == clock_before + 1
            &&& after.replica_id == before.replica_id
            &&& value is None ==> after.log == before.log.push(op)
            &&& value is Some && after.state.kv.live != before.state.kv.live ==> after.log
                == before.log.push(op)
            &&& value is Some && after.state.kv.live == before.state.kv.live ==> after
                == before
        }),
{
    if let Some(v) = value {
        let version = RateLimitVersion { timestamp: clock_now, replica_id: before.replica_id };
        if let Some(m) = stored_by(before.state, key, v, version) {
            assert(after.state.kv.live.contains_key(key));
            assert(after.state.kv.live[key] == epoch_max_wins::encoded_shard(m));
        }
    }
}

/// What is held of a key: the points of its stored shard, and the later of the tombstone of
/// that shard and the one on record. Stored bytes that are no shard hold no point.
pub proof fn law_held_state_has_the_later_tombstone(
    m: ShardView,
    tombstone: Option<RateLimitVersion>,
    data: Seq<u8>,
)
    requires
        m.points.len() > 0,
        epoch_max_wins::encoded_shard(m).len() <= 65536,
    ensures
        ({
            let held = held_state(Some(epoch_max_wins::encoded_shard(m)), tombstone);
            &&& held.points == m.points
            &&& held.tombstone == m.tombstone || held.tombstone == tombstone
            &&& m.tombstone matches Some(t) ==> (held.tombstone matches Some(h)
                && !outcome_laws::is_newer(t, h))
            &&& tombstone matches Some(t) ==> (held.tombstone matches Some(h)
                && !outcome_laws::is_newer(t, h))
        }),
        held_state(None, tombstone).points.len() == 0,
        held_state(None, tombstone).tombstone == tombstone,
        data.len() <= 16 ==> held_state(Some(data), tombstone) == held_state(None, tombstone),
{
    lemma_decodes(m);
    if data.len() <= 16 {
        epoch_max_wins::law_payload_is_no_shard(data);
    }
}

/// Operations are applied one behind the other: those of two lists in a row, as those of
/// the first and then those of the second.
pub proof fn law_lists_are_applied_in_turn(
    s: LwwState,
    a: Seq<OperationView>,
    b: Seq<OperationView>,
    now: u64,
)
    ensures
        legacy_apply_all(s, a + b, now) == legacy_apply_all(legacy_apply_all(s, a, now), b, now),
        a.len() == 1 ==> legacy_apply_all(s, a, now) == legacy_apply(s, a[0], now),
    decreases b.len(),
{
    if a.len() == 1 {
        assert(a.drop_last() =~= Seq::empty());
        reveal_with_fuel(legacy_apply_all, 2);
    }
    if b.len() == 0 {
        assert(a + b =~= a);
    } else {
        law_lists_are_applied_in_turn(s, a, b.drop_last(), now);
        assert((a + b).drop_last() =~= a + b.drop_last());
        assert((a + b).last() == b.last());
    }
}

/// Operations that arrive put the clock ahead of each of them, as long as there are
/// timestamps left, and never back. A single one is applied as it is, and the node keeps
/// its replica id.
pub proof fn law_received_operations_are_applied(
    before: LegacyView,
    clock_before: u64,
    now: u64,
    ops: Seq<OperationView>,
    after: LegacyView,
    clock_now: u64,
    i: int,
)
    requires
        remote_ops_merged(before, clock_before, now, ops, after, clock_now),
    ensures
        after.replica_id == before.replica_id,
        clock_before <= clock_now,
        0 <= i < ops.len() ==> ops[i].version.timestamp < clock_now || clock_now == u64::MAX,
        ops.len() == 0 ==> after == before && clock_now == clock_before,
        ops.len() == 1 ==> after.state == legacy_apply(before.state, ops[0], now),
        ops.len() == 1 && epoch_max_wins::operation_state(ops[0]) is Some
            && !operation_log::known(before.log, ops[0].version) ==> operation_log::mentions(
            after.log,
            ops[0].key,
        ),
{
    let sorted = operation_log::stable_sorted(ops);
    outcome_laws::law_clock_is_ahead(clock_before, sorted, u64::MAX);
    super::super::op_sets::lemma_sorted_members(ops);
    if 0 <= i < ops.len() {
        assert(ops.contains(ops[i]));
        assert(sorted.contains(ops[i]));
        let k = choose|k: int| 0 <= k < sorted.len() && sorted[k] == ops[i];
    }
    if ops.len() == 1 {
        operation_log::lemma_stable_sorted(ops);
        assert(sorted.contains(ops[0]) && ops.contains(ops[0]));
        assert(sorted =~= seq![ops[0]]);
        assert(sorted.drop_last() =~= Seq::empty());
        reveal_with_fuel(legacy_apply_all, 2);
        let op = ops[0];
        if epoch_max_wins::operation_state(op) is Some && !operation_log::known(
            before.log,
            op.version,
        ) {
            let pushed = before.log.push(op);
            log_order_laws::law_merge_adds_what_is_new(
                before.log,
                op,
                MergeStrategy::EpochMaxWins,
            );
            assert(ops =~= seq![op]);
            assert(operation_log::repeated(MergeStrategy::EpochMaxWins, 1) =~= seq![
                MergeStrategy::EpochMaxWins,
            ]);
            assert forall|i: int|
                0 <= i < before.log.len() implies (#[trigger] before.log[i]).version.timestamp
                != op.version.timestamp || before.log[i].version.replica_id.bits
                != op.version.replica_id.bits by {
                assert(before.log[i].version != op.version);
            }
            log_order_laws::law_snapshot_merges_shards(pushed, op.key);
            assert(pushed[before.log.len() as int] == op);
        }
    }
    if ops.len() == 0 {
        operation_log::lemma_stable_sorted(ops);
    }
}

impl NamespaceCrdtEngine for EpochMaxWinsLegacyEngine {
    open spec fn valid(&self) -> bool {
        self.wf()
    }

    open spec fn remote_ops_applied(
        before: EpochMaxWinsLegacyEngine,
        clock_before: u64,
        now: u64,
        ops: Seq<OperationView>,
        after: EpochMaxWinsLegacyEngine,
        clock_after: u64,
    ) -> bool {
        remote_ops_merged(before@, clock_before, now, ops, after@, clock_after)
    }

    fn apply_remote(&mut self, clock: &mut LamportClock, now: u64, ops: Vec<Operation>) {
        self.apply_remote_ops(clock, now, ops)
    }
}

} // verus!
