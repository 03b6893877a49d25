//! Last-writer-wins engine.
//!
//! Conflicts are resolved by version alone. Removals and writes follow the same
//! order; the newer wins, and of a removal and a write of the same version the
//! removal.
//!
//! The Lamport clock is handed in: a version must be unique across every operation
//! of a node, whichever engine handled it, so that all engines share one clock.

use vstd::prelude::*;

use super::super::epoch_max_wins;
use super::super::epoch_max_wins::RateLimitVersion;
use super::super::kv_store;
use super::super::kv_store::{KvStore, KvView};
use super::super::merge_strategy::MergeStrategy;
use super::super::operation::{copy_bytes, Operation, OperationView};
use super::super::operation_log;
use super::super::operation_log::{sort_by_version, OperationLog};
use super::super::replica;
use super::super::replica::{LamportClock, ReplicaId};
use super::metadata;
use super::metadata::{MetadataTable, ValueMetadata};
use super::NamespaceCrdtEngine;

verus! {

/// The state of a last-writer-wins namespace on one node.
pub struct LwwEngine {
    store: KvStore,
    metadata: MetadataTable,
    log: OperationLog,
    replica_id: ReplicaId,
}

/// The live values, and what is known of each key.
#[verifier::ext_equal]
pub struct LwwState {
    pub kv: KvView,
    pub table: Map<Seq<char>, ValueMetadata>,
}

/// What an engine holds.
#[verifier::ext_equal]
pub struct LwwView {
    pub state: LwwState,
    pub log: Seq<OperationView>,
    pub replica_id: ReplicaId,
}

impl View for LwwEngine {
    type V = LwwView;

    closed spec fn view(&self) -> LwwView {
        LwwView {
            state: LwwState { kv: self.store@, table: self.metadata@ },
            log: self.log@,
            replica_id: self.replica_id,
        }
    }
}

/// A key has a live value exactly where its version is that of a write.
pub open spec fn consistent(s: LwwState) -> bool {
    forall|key: Seq<char>| #[trigger]
        s.kv.live.contains_key(key) <==> s.table.contains_key(key) && !s.table[key].is_tombstone
}

/// The state after a write: the value is set if the write wins.
pub open spec fn lww_insert(
    s: LwwState,
    key: Seq<char>,
    value: Seq<u8>,
    version: RateLimitVersion,
    now: u64,
) -> LwwState {
    if metadata::insert_wins(s.table, key, version) {
        LwwState {
            kv: kv_store::kv_insert(s.kv, key, value),
            table: s.table.insert(key, metadata::live_metadata(version, now)),
        }
    } else {
        s
    }
}

/// The state after a removal: the value is dropped if the removal wins.
pub open spec fn lww_remove(
    s: LwwState,
    key: Seq<char>,
    version: RateLimitVersion,
    now: u64,
) -> LwwState {
    if metadata::remove_wins(s.table, key, version) {
        LwwState {
            kv: kv_store::kv_remove(s.kv, key),
            table: s.table.insert(key, metadata::tombstone_metadata(version, now)),
        }
    } else {
        s
    }
}

/// The state after an operation.
pub open spec fn lww_apply(s: LwwState, op: OperationView, now: u64) -> LwwState {
    match op.value {
        Some(value) => lww_insert(s, op.key, value, op.version, now),
        None => lww_remove(s, op.key, op.version, now),
    }
}

/// The state after a list of operations.
pub open spec fn lww_apply_all(s: LwwState, ops: Seq<OperationView>, now: u64) -> LwwState
    decreases ops.len(),
{
    if ops.len() == 0 {
        s
    } else {
        lww_apply(lww_apply_all(s, ops.drop_last(), now), ops.last(), now)
    }
}

/// The clock after it observed the timestamps of a list of operations.
pub open spec fn clock_after(clock: u64, ops: Seq<OperationView>) -> u64
    decreases ops.len(),
{
    if ops.len() == 0 {
        clock
    } else {
        replica::observe_timestamp(
            clock_after(clock, ops.drop_last()),
            ops.last().version.timestamp,
        )
    }
}

/// The operations whose version the log does not know.
pub open spec fn unseen(log: Seq<OperationView>, ops: Seq<OperationView>) -> Seq<OperationView> {
    ops.filter(|op: OperationView| !operation_log::known(log, op.version))
}

/// No version in the table is ahead of the clock.
pub open spec fn clock_leads(table: Map<Seq<char>, ValueMetadata>, clock: u64) -> bool {
    forall|key: Seq<char>| #[trigger]
        table.contains_key(key) ==> table[key].version.timestamp <= clock
}

/// How an engine and its clock change with a local write, or with a local removal where
/// `value` is `None`: the clock ticks, the change is applied under the new timestamp, and is
/// logged if it wins.
pub open spec fn local_change(
    before: LwwView,
    clock_before: u64,
    now: u64,
    key: Seq<char>,
    value: Option<Seq<u8>>,
    after: LwwView,
    clock_now: u64,
) -> bool {
    let version = RateLimitVersion { timestamp: clock_now, replica_id: before.replica_id };
    let op = OperationView { key, value, version };
    &&& clock_now == replica::next_timestamp(clock_before)
    &&& after.replica_id == before.replica_id
    &&& after.state == lww_apply(before.state, op, now)
    &&& if (value is Some && metadata::insert_wins(before.state.table, key, version)) || (value
        is None && metadata::remove_wins(before.state.table, key, version)) {
        operation_log::appended(
            before.log.push(op),
            operation_log::always(MergeStrategy::LastWriterWins),
            after.log,
        )
    } else {
        after.log == before.log
    }
}

/// How an engine and its clock change when operations of another node arrive:
/// those that the log does not know are applied, oldest version first, the clock
/// observes each of them, and the log is merged and compacted.
pub open spec fn remote_ops_merged(
    before: LwwView,
    clock_before: u64,
    now: u64,
    ops: Seq<OperationView>,
    after: LwwView,
    clock_now: u64,
) -> bool {
    let fresh = operation_log::stable_sorted(unseen(before.log, ops));
    &&& after.replica_id == before.replica_id
    &&& after.state == lww_apply_all(before.state, fresh, now)
    &&& clock_now == clock_after(clock_before, fresh)
    &&& if ops.len() == 0 {
        after.log == before.log
    } else {
        operation_log::is_compaction(
            operation_log::merged_log(
                before.log,
                ops,
                operation_log::repeated(MergeStrategy::LastWriterWins, ops.len()),
            ).0,
            operation_log::always(MergeStrategy::LastWriterWins),
            after.log,
        )
    }
}

impl LwwEngine {
    /// The live values and the known versions fit together.
    pub closed spec fn wf(&self) -> bool {
        &&& self.store.wf()
        &&& self.metadata.wf()
        &&& consistent(self@.state)
    }

    /// In every valid engine a key has a live value exactly where its version is that of
    /// a write.
    pub proof fn law_value_follows_version(&self)
        requires
            self.wf(),
        ensures
            consistent(self@.state),
    {
    }

    /// An engine without keys.
    pub fn new(replica_id: ReplicaId) -> (engine: LwwEngine)
        ensures
            engine.wf(),
            engine@ == (LwwView {
                state: LwwState {
                    kv: KvView { live: Map::empty(), generation: 0 },
                    table: Map::empty(),
                },
                log: Seq::empty(),
                replica_id,
            }),
    {
        let engine = LwwEngine {
            store: KvStore::new(),
            metadata: MetadataTable::new(),
            log: OperationLog::new(),
            replica_id,
        };
        assert(engine@.log =~= Seq::empty());
        engine
    }

    fn apply_insert(&mut self, key: &str, value: Vec<u8>, version: RateLimitVersion, now: u64)
        requires
            old(self).wf(),
        ensures
            final(self).wf(),
            final(self)@ == (LwwView {
                state: lww_insert(old(self)@.state, key@, value@, version, now),
                ..old(self)@
            }),
    {
        let ghost before = self@.state;
        if self.metadata.record_insert(key, version, now) {
            self.store.insert(key, value);
        }
        proof {
            let after = self@.state;
            assert forall|k: Seq<char>| #[trigger]
                after.kv.live.contains_key(k) <==> after.table.contains_key(k)
                    && !after.table[k].is_tombstone by {
                assert(before.kv.live.contains_key(k) <==> before.table.contains_key(k)
                    && !before.table[k].is_tombstone);
            }
        }
    }

    fn apply_remove_inner(&mut self, key: &str, version: RateLimitVersion, now: u64) -> (removed:
        Option<Vec<u8>>)
        requires
            old(self).wf(),
        ensures
            final(self).wf(),
            final(self)@ == (LwwView {
                state: lww_remove(old(self)@.state, key@, version, now),
                ..old(self)@
            }),
            kv_store::bytes_view(removed) == if metadata::remove_wins(
                old(self)@.state.table,
                key@,
                version,
            ) {
                kv_store::kv_get(old(self)@.state.kv, key@)
            } else {
                None
            },
    {
        if self.metadata.record_remove(key, version, now) {
            self.store.remove(key)
        } else {
            None
        }
    }

    /// Writes a value and returns the one that it replaces. A write that loses
    /// against a newer version changes nothing, and the current value is returned.
    pub fn put_local(
        &mut self,
        clock: &mut LamportClock,
        now: u64,
        key: &str,
        value: Vec<u8>,
    ) -> (previous: Option<Vec<u8>>)
        requires
            old(self).wf(),
        ensures
            final(self).wf(),
            final(clock)@ == replica::next_timestamp(old(clock)@),
            final(self)@.replica_id == old(self)@.replica_id,
            ({
                let version = RateLimitVersion {
                    timestamp: final(clock)@,
                    replica_id: old(self)@.replica_id,
                };
                let op = OperationView { key: key@, value: Some(value@), version };
                &&& final(self)@.state == lww_insert(
                    old(self)@.state,
                    key@,
                    value@,
                    version,
                    now,
                )
                &&& if metadata::insert_wins(old(self)@.state.table, key@, version) {
                    operation_log::appended(
                        old(self)@.log.push(op),
                        operation_log::always(MergeStrategy::LastWriterWins),
                        final(self)@.log,
                    )
                } else {
                    final(self)@.log == old(self)@.log
                }
            }),
            local_change(
                old(self)@,
                old(clock)@,
                now,
                key@,
                Some(value@),
                final(self)@,
                final(clock)@,
            ),
            kv_store::bytes_view(previous) == kv_store::kv_get(old(self)@.state.kv, key@),
            clock_leads(old(self)@.state.table, old(clock)@) ==> clock_leads(
                final(self)@.state.table,
                final(clock)@,
            ),
    {
        let previous: Option<Vec<u8>> = self.store.get(key);
        let timestamp: u64 = clock.tick();
        let version = RateLimitVersion::new(timestamp, self.replica_id);
        let accepted: bool = self.metadata.record_insert(key, version, now);
        if accepted {
            let op = Operation::insert(
                key.to_owned(),
                copy_bytes(value.as_slice()),
                timestamp,
                self.replica_id,
            );
            self.store.insert(key, value);
            self.log.append_always(op, MergeStrategy::LastWriterWins);
        }
        previous
    }

    /// Removes a value and returns it.
    pub fn delete_local(&mut self, clock: &mut LamportClock, now: u64, key: &str) -> (removed:
        Option<Vec<u8>>)
        requires
            old(self).wf(),
        ensures
            final(self).wf(),
            final(clock)@ == replica::next_timestamp(old(clock)@),
            final(self)@.replica_id == old(self)@.replica_id,
            ({
                let version = RateLimitVersion {
                    timestamp: final(clock)@,
                    replica_id: old(self)@.replica_id,
                };
                let op = OperationView { key: key@, value: None, version };
                &&& final(self)@.state == lww_remove(old(self)@.state, key@, version, now)
                &&& if metadata::remove_wins(old(self)@.state.table, key@, version) {
                    &&& operation_log::appended(
                        old(self)@.log.push(op),
                        operation_log::always(MergeStrategy::LastWriterWins),
                        final(self)@.log,
                    )
                    &&& kv_store::bytes_view(removed) == kv_store::kv_get(
                        old(self)@.state.kv,
                        key@,
                    )
                } else {
                    &&& final(self)@.log == old(self)@.log
                    &&& removed is None
                }
            }),
            local_change(
                old(self)@,
                old(clock)@,
                now,
                key@,
                None,
                final(self)@,
                final(clock)@,
            ),
            clock_leads(old(self)@.state.table, old(clock)@) ==> clock_leads(
                final(self)@.state.table,
                final(clock)@,
            ),
    {
        let timestamp: u64 = clock.tick();
        let version = RateLimitVersion::new(timestamp, self.replica_id);
        if self.metadata.record_remove(key, version, now) {
            let op = Operation::remove(key.to_owned(), timestamp, self.replica_id);
            self.log.append_always(op, MergeStrategy::LastWriterWins);
            self.store.remove(key)
        } else {
            None
        }
    }

    /// The live value of `key`.
    pub fn get(&self, key: &str) -> (value: Option<Vec<u8>>)
        requires
            self.wf(),
        ensures
            kv_store::bytes_view(value) == kv_store::kv_get(self@.state.kv, key@),
    {
        self.store.get(key)
    }

    /// Whether `key` has a live value.
    pub fn contains_key(&self, key: &str) -> (found: bool)
        requires
            self.wf(),
        ensures
            found == self@.state.kv.live.contains_key(key@),
    {
        self.store.contains_key(key)
    }

    /// The keys that have a live value, each once.
    pub fn keys(&self) -> (keys: Vec<String>)
        requires
            self.wf(),
        ensures
            kv_store::lists_keys(kv_store::text_views(keys@), self@.state.kv.live.dom()),
    {
        self.store.keys()
    }

    /// The number of keys that have a live value.
    pub fn len(&self) -> (n: usize)
        requires
            self.wf(),
        ensures
            n == self@.state.kv.live.dom().len(),
    {
        self.store.len()
    }

    /// The number of changes made to the live values.
    pub fn generation(&self) -> (g: u64)
        ensures
            g == self@.state.kv.generation,
    {
        self.store.generation()
    }

    /// The operations of the log.
    pub fn export_ops(&self) -> (ops: Vec<Operation>)
        ensures
            operation_log::views(ops@) == self@.log,
    {
        operation_log::copy_operations(self.log.operations())
    }

    /// The operations whose version the log does not know.
    fn unseen_ops(&self, ops: &Vec<Operation>) -> (fresh: Vec<Operation>)
        ensures
            operation_log::views(fresh@) == unseen(self@.log, operation_log::views(ops@)),
    {
        let ghost all = operation_log::views(ops@);
        let mut fresh: Vec<Operation> = Vec::new();
        let mut i: usize = 0;
        proof {
            reveal(Seq::filter);
            assert(operation_log::views(fresh@) =~= unseen(self@.log, all.subrange(0, 0)));
        }
        while i < ops.len()
            invariant
                i <= ops@.len(),
                all == operation_log::views(ops@),
                operation_log::views(fresh@) == unseen(self@.log, all.subrange(0, i as int)),
            decreases ops@.len() - i,
        {
            let ghost before = fresh@;
            proof {
                reveal(Seq::filter);
                assert(all.subrange(0, i + 1).drop_last() =~= all.subrange(0, i as int));
                assert(all[i as int] == ops@[i as int]@);
            }
            if !self.log.knows(ops[i].version()) {
                fresh.push(ops[i].clone());
                assert(operation_log::views(fresh@) =~= operation_log::views(before).push(
                    all[i as int],
                ));
            }
            i = i + 1;
        }
        assert(all.subrange(0, i as int) =~= all);
        fresh
    }

    /// Merges the operations of another node. Operations that the log knows are
    /// skipped; the others are applied, oldest version first, and the clock
    /// observes each, so that later local writes beat them.
    pub fn apply_remote_ops(&mut self, clock: &mut LamportClock, now: u64, ops: Vec<Operation>)
        requires
            old(self).wf(),
        ensures
            final(self).wf(),
            remote_ops_merged(
                old(self)@,
                old(clock)@,
                now,
                operation_log::views(ops@),
                final(self)@,
                final(clock)@,
            ),
            clock_leads(old(self)@.state.table, old(clock)@) ==> clock_leads(
                final(self)@.state.table,
                final(clock)@,
            ),
    {
        let ghost incoming = operation_log::views(ops@);
        let ghost fresh = operation_log::stable_sorted(unseen(self@.log, incoming));
        if ops.len() == 0 {
            proof {
                reveal(Seq::filter);
                assert(unseen(self@.log, incoming) =~= Seq::empty());
            }
            return;
        }
        let unsorted: Vec<Operation> = self.unseen_ops(&ops);
        let to_apply: Vec<Operation> = sort_by_version(&unsorted);
        let incoming_log = OperationLog::from_operations(ops);
        self.log.merge_always(&incoming_log, MergeStrategy::LastWriterWins);
        let ghost log = self.log@;
        let ghost before = self@.state;
        let ghost clock_before = clock@;
        let mut i: usize = 0;
        assert(operation_log::views(to_apply@) == fresh);
        while i < to_apply.len()
            invariant
                i <= to_apply@.len(),
                self.wf(),
                operation_log::views(to_apply@) == fresh,
                self@.log == log,
                self@.replica_id == old(self)@.replica_id,
                self@.state == lww_apply_all(before, fresh.subrange(0, i as int), now),
                clock@ == clock_after(clock_before, fresh.subrange(0, i as int)),
                clock_leads(before.table, clock_before) ==> clock_leads(
                    self@.state.table,
                    clock@,
                ),
            decreases to_apply@.len() - i,
        {
            proof {
                assert(fresh.subrange(0, i + 1).drop_last() =~= fresh.subrange(0, i as int));
                assert(fresh[i as int] == to_apply@[i as int]@);
            }
            let version: RateLimitVersion = to_apply[i].version();
            clock.update(version.timestamp);
            match &to_apply[i] {
                Operation::Insert { key, value, .. } => {
                    self.apply_insert(key.as_str(), copy_bytes(value.as_slice()), version, now);
                },
                Operation::Remove { key, .. } => {
                    self.apply_remove_inner(key.as_str(), version, now);
                },
            }
            i = i + 1;
        }
        assert(fresh.subrange(0, i as int) =~= fresh);
    }

    /// Forgets the removals that are at least `grace` old, and returns how many
    /// there were.
    pub fn gc_tombstones(&mut self, now: u64, grace: u64) -> (removed: usize)
        requires
            old(self).wf(),
        ensures
            final(self).wf(),
            ({
                let s = old(self)@.state;
                let due = metadata::due_keys(s.table, s.kv.live, now, grace);
                &&& final(self)@ == (LwwView {
                    state: LwwState { kv: s.kv, table: s.table.remove_keys(due) },
                    ..old(self)@
                })
                &&& due.finite()
                &&& removed == due.len()
            }),
    {
        let ghost before = self@.state;
        let removed: usize = self.metadata.gc(&self.store, now, grace);
        proof {
            let after = self@.state;
            assert forall|k: Seq<char>| #[trigger]
                after.kv.live.contains_key(k) <==> after.table.contains_key(k)
                    && !after.table[k].is_tombstone by {
                assert(before.kv.live.contains_key(k) <==> before.table.contains_key(k)
                    && !before.table[k].is_tombstone);
            }
        }
        removed
    }
}

impl NamespaceCrdtEngine for LwwEngine {
    open spec fn valid(&self) -> bool {
        self.wf()
    }

    open spec fn remote_ops_applied(
        before: LwwEngine,
        clock_before: u64,
        now: u64,
        ops: Seq<OperationView>,
        after: LwwEngine,
        clock_after: u64,
    ) -> bool {
        remote_ops_merged(before@, clock_before, now, ops, after@, clock_after)
    }

    fn apply_remote(&mut self, clock: &mut LamportClock, now: u64, ops: Vec<Operation>) {
        self.apply_remote_ops(clock, now, ops)
    }
}

} // verus!
