//! Rate-limit engine.
//!
//! Each key is either live, with a frontier of live points and perhaps a tombstone
//! boundary, or a tombstone below which writes are suppressed.

use vstd::prelude::*;

use super::super::epoch_max_wins;
use super::super::epoch_max_wins::{
    state_from_insert_value, LivePoint, RateLimitState, RateLimitVersion, ShardView,
};
use super::super::kv_store;
use super::super::merge_strategy::MergeStrategy;
use super::super::operation::{Operation, OperationView};
use super::super::operation_log;
use super::super::operation_log::{copy_operations, sort_by_version, OperationLog};
use super::super::replica;
use super::super::replica::{LamportClock, ReplicaId};
use super::lww;
use super::metadata;
use super::NamespaceCrdtEngine;

verus! {

/// The state of one key, and since when it has been a tombstone. The time is that
/// at which the current tombstone version was first observed; a live key has none.
pub struct ShardEntry {
    pub state: RateLimitState,
    pub tombstoned_at: Option<u64>,
}

/// What an entry holds.
#[verifier::ext_equal]
pub struct ShardEntryView {
    pub live: bool,
    pub state: ShardView,
    pub tombstoned_at: Option<u64>,
}

impl View for ShardEntry {
    type V = ShardEntryView;

    open spec fn view(&self) -> ShardEntryView {
        ShardEntryView {
            live: self.state is Live,
            state: self.state@,
            tombstoned_at: self.tombstoned_at,
        }
    }
}

impl Clone for ShardEntry {
    fn clone(&self) -> (entry: ShardEntry)
        ensures
            entry@ == self@,
    {
        ShardEntry { state: self.state.clone(), tombstoned_at: self.tombstoned_at }
    }
}

/// The entries that a map holds.
pub uninterp spec fn shard_entries(
    map: dashmap::DashMap<String, ShardEntry>,
) -> Map<Seq<char>, ShardEntryView>;

/// Calls `dashmap::DashMap::new`, which makes an empty map.
#[verifier::external_body]
fn entries_new() -> (map: dashmap::DashMap<String, ShardEntry>)
    ensures
        shard_entries(map) == (Map::<Seq<char>, ShardEntryView>::empty()),
{
    dashmap::DashMap::new()
}

/// Calls `dashmap::DashMap::get` and copies the entry that it finds under `key`.
#[verifier::external_body]
fn entries_get(map: &dashmap::DashMap<String, ShardEntry>, key: &str) -> (found: Option<ShardEntry>)
    ensures
        match found {
            Some(entry) => shard_entries(*map).contains_key(key@) && shard_entries(*map)[key@]
                == entry@,
            None => !shard_entries(*map).contains_key(key@),
        },
{
    map.get(key).map(|entry| entry.value().clone())
}

/// Calls `dashmap::DashMap::insert`, which sets the entry of `key` and leaves the
/// other keys as they are.
#[verifier::external_body]
fn entries_insert(map: &mut dashmap::DashMap<String, ShardEntry>, key: &str, entry: ShardEntry)
    ensures
        shard_entries(*final(map)) == shard_entries(*old(map)).insert(key@, entry@),
{
    map.insert(key.to_string(), entry);
}

/// Calls `dashmap::DashMap::remove`, which drops `key` and leaves the other keys
/// as they are.
#[verifier::external_body]
fn entries_remove(map: &mut dashmap::DashMap<String, ShardEntry>, key: &str)
    ensures
        shard_entries(*final(map)) == shard_entries(*old(map)).remove(key@),
{
    map.remove(key);
}

/// Calls `dashmap::DashMap::iter` and copies the keys. Each key comes once, in no
/// particular order.
#[verifier::external_body]
fn entries_keys(map: &dashmap::DashMap<String, ShardEntry>) -> (keys: Vec<String>)
    ensures
        kv_store::lists_keys(kv_store::text_views(keys@), shard_entries(*map).dom()),
{
    map.iter().map(|entry| entry.key().clone()).collect()
}

/// An entry is live exactly where it has live points, is a tombstone otherwise, and
/// carries a time exactly where it is a tombstone.
pub open spec fn entry_wf(e: ShardEntryView) -> bool {
    &&& e.live <==> e.state.points.len() > 0
    &&& !e.live ==> e.state.tombstone is Some
    &&& e.tombstoned_at is Some <==> !e.live
}

/// The entry of a key that was not known.
pub open spec fn fresh_entry(incoming: ShardView, now: u64) -> ShardEntryView {
    let live = incoming.points.len() > 0;
    ShardEntryView {
        live,
        state: incoming,
        tombstoned_at: if live {
            None
        } else {
            Some(now)
        },
    }
}

/// An entry after a state was merged in. Its clock starts when the key becomes a
/// tombstone and when the tombstone gets newer, stops when the key is live, and is
/// left alone otherwise: an older removal that arrives late does not extend the
/// life of a tombstone.
pub open spec fn merged_entry(e: ShardEntryView, incoming: ShardView, now: u64) -> ShardEntryView {
    let merged = epoch_max_wins::merge_states(e.state, incoming);
    let live = merged.points.len() > 0;
    ShardEntryView {
        live,
        state: merged,
        tombstoned_at: if live {
            None
        } else if e.live || e.state.tombstone != merged.tombstone {
            Some(now)
        } else {
            e.tombstoned_at
        },
    }
}

/// The entries after a state was merged in under `key`. `None`, which a malformed
/// payload gives, changes nothing.
pub open spec fn absorb_entry(
    entries: Map<Seq<char>, ShardEntryView>,
    key: Seq<char>,
    incoming: Option<ShardView>,
    now: u64,
) -> Map<Seq<char>, ShardEntryView> {
    match incoming {
        None => entries,
        Some(state) => entries.insert(
            key,
            if entries.contains_key(key) {
                merged_entry(entries[key], state, now)
            } else {
                fresh_entry(state, now)
            },
        ),
    }
}

/// Merging the state in changes the state of the key.
pub open spec fn entry_changes(
    entries: Map<Seq<char>, ShardEntryView>,
    key: Seq<char>,
    incoming: Option<ShardView>,
) -> bool {
    match incoming {
        None => false,
        Some(state) => entries.contains_key(key) ==> epoch_max_wins::merge_states(
            entries[key].state,
            state,
        ) != entries[key].state,
    }
}

/// The key is live.
pub open spec fn is_live(entries: Map<Seq<char>, ShardEntryView>, key: Seq<char>) -> bool {
    entries.contains_key(key) && entries[key].live
}

/// The keys that are live.
pub open spec fn live_keys(entries: Map<Seq<char>, ShardEntryView>) -> Set<Seq<char>> {
    Set::new(|key: Seq<char>| is_live(entries, key))
}

/// The encoded shard of a live key.
pub open spec fn live_bytes(
    entries: Map<Seq<char>, ShardEntryView>,
    key: Seq<char>,
) -> Option<Seq<u8>> {
    if is_live(entries, key) {
        Some(epoch_max_wins::encoded_shard(entries[key].state))
    } else {
        None
    }
}

/// The tombstone of `key` is old enough to be forgotten.
pub open spec fn is_due(
    entries: Map<Seq<char>, ShardEntryView>,
    now: u64,
    grace: u64,
    key: Seq<char>,
) -> bool {
    &&& entries.contains_key(key)
    &&& !entries[key].live
    &&& entries[key].tombstoned_at matches Some(at) && metadata::elapsed(now, at) >= grace
}

/// The keys whose tombstone is old enough to be forgotten.
pub open spec fn due_keys(
    entries: Map<Seq<char>, ShardEntryView>,
    now: u64,
    grace: u64,
) -> Set<Seq<char>> {
    Set::new(|key: Seq<char>| is_due(entries, now, grace, key))
}

/// The entries, and the number of changes made to them.
#[verifier::ext_equal]
pub struct RateLimitView {
    pub entries: Map<Seq<char>, ShardEntryView>,
    pub generation: u64,
}

/// The state after an operation.
pub open spec fn rate_limit_apply(s: RateLimitView, op: OperationView, now: u64) -> RateLimitView {
    let incoming = epoch_max_wins::operation_state(op);
    RateLimitView {
        entries: absorb_entry(s.entries, op.key, incoming, now),
        generation: if entry_changes(s.entries, op.key, incoming) {
            kv_store::next_generation(s.generation)
        } else {
            s.generation
        },
    }
}

/// The state after a list of operations.
pub open spec fn rate_limit_apply_all(
    s: RateLimitView,
    ops: Seq<OperationView>,
    now: u64,
) -> RateLimitView
    decreases ops.len(),
{
    if ops.len() == 0 {
        s
    } else {
        rate_limit_apply(rate_limit_apply_all(s, ops.drop_last(), now), ops.last(), now)
    }
}

/// Outcome of merging one operation.
pub struct MergeOutcome {
    /// Whether the state of the key changed.
    pub changed: bool,
    /// The encoded shard before the merge, if the key was live.
    pub prior_live: Option<Vec<u8>>,
    /// Whether the key is live after the merge.
    pub new_is_live: bool,
}

/// Whether two lists of points are equal.
fn same_points(a: &Vec<LivePoint>, b: &Vec<LivePoint>) -> (same: bool)
    ensures
        same == (a@ == b@),
{
    if a.len() != b.len() {
        return false;
    }
    let mut i: usize = 0;
    while i < a.len()
        invariant
            a@.len() == b@.len(),
            i <= a@.len(),
            forall|k: int| 0 <= k < i ==> a@[k] == b@[k],
        decreases a@.len() - i,
    {
        if a[i] != b[i] {
            assert(a@[i as int] != b@[i as int]);
            return false;
        }
        i = i + 1;
    }
    assert(a@ =~= b@);
    true
}

/// Whether two states are equal.
fn same_state(a: &RateLimitState, b: &RateLimitState) -> (same: bool)
    requires
        a.wf(),
        b.wf(),
    ensures
        same == (a@ == b@),
{
    match (a, b) {
        (RateLimitState::Live(x), RateLimitState::Live(y)) => {
            same_points(&x.live_points, &y.live_points) && x.tombstone_version
                == y.tombstone_version
        },
        (RateLimitState::Tombstone(v), RateLimitState::Tombstone(w)) => *v == *w,
        _ => {
            assert(a@.points.len() != b@.points.len());
            false
        },
    }
}

/// The version of a tombstone; `None` for a live state.
fn tombstone_version_of(state: &RateLimitState) -> (version: Option<RateLimitVersion>)
    ensures
        version == if state is Live {
            None
        } else {
            state@.tombstone
        },
{
    match state {
        RateLimitState::Tombstone(version) => Some(*version),
        RateLimitState::Live(_) => None,
    }
}

/// Puts a merged state into an entry and sets its clock.
fn update_entry(entry: &mut ShardEntry, merged: RateLimitState, now: u64)
    requires
        entry_wf(old(entry)@),
        merged.wf(),
    ensures
        final(entry)@ == (ShardEntryView {
            live: merged is Live,
            state: merged@,
            tombstoned_at: if merged is Live {
                None
            } else if old(entry)@.live || old(entry)@.state.tombstone != merged@.tombstone {
                Some(now)
            } else {
                old(entry)@.tombstoned_at
            },
        }),
{
    let was: Option<RateLimitVersion> = tombstone_version_of(&entry.state);
    let is: Option<RateLimitVersion> = tombstone_version_of(&merged);
    entry.state = merged;
    match (was, is) {
        (None, Some(_)) => {
            entry.tombstoned_at = Some(now);
        },
        (Some(_), None) => {
            entry.tombstoned_at = None;
        },
        (Some(a), Some(b)) => {
            if a != b {
                entry.tombstoned_at = Some(now);
            }
        },
        (None, None) => {},
    }
}

/// The state of a rate-limit namespace on one node.
pub struct RateLimitEngine {
    entries: dashmap::DashMap<String, ShardEntry>,
    log: OperationLog,
    replica_id: ReplicaId,
    generation: u64,
}

/// What an engine holds.
#[verifier::ext_equal]
pub struct RateLimitEngineView {
    pub state: RateLimitView,
    pub log: Seq<OperationView>,
    pub replica_id: ReplicaId,
}

impl View for RateLimitEngine {
    type V = RateLimitEngineView;

    closed spec fn view(&self) -> RateLimitEngineView {
        RateLimitEngineView {
            state: RateLimitView {
                entries: shard_entries(self.entries),
                generation: self.generation,
            },
            log: self.log@,
            replica_id: self.replica_id,
        }
    }
}

/// How an engine and its clock change with a local write, or with a local removal where
/// `value` is `None`: the clock ticks, the change is applied under the new timestamp, and is
/// logged if it changes the state of its key.
pub open spec fn local_change(
    before: RateLimitEngineView,
    clock_before: u64,
    now: u64,
    key: Seq<char>,
    value: Option<Seq<u8>>,
    after: RateLimitEngineView,
    clock_now: u64,
) -> bool {
    let version = RateLimitVersion { timestamp: clock_now, replica_id: before.replica_id };
    let op = OperationView { key, value, version };
    &&& clock_now == replica::next_timestamp(clock_before)
    &&& after.replica_id == before.replica_id
    &&& after.state == rate_limit_apply(before.state, op, now)
    &&& if entry_changes(before.state.entries, key, epoch_max_wins::operation_state(op)) {
        operation_log::appended(
            before.log.push(op),
            operation_log::always(MergeStrategy::EpochMaxWins),
            after.log,
        )
    } else {
        after.log == before.log
    }
}

/// How an engine and its clock change when operations of another node arrive: all
/// of them are applied, oldest version first, the clock observes each of them, and
/// the log is merged and compacted.
pub open spec fn remote_ops_merged(
    before: RateLimitEngineView,
    clock_before: u64,
    now: u64,
    ops: Seq<OperationView>,
    after: RateLimitEngineView,
    clock_now: u64,
) -> bool {
    let sorted = operation_log::stable_sorted(ops);
    &&& after.replica_id == before.replica_id
    &&& after.state == rate_limit_apply_all(before.state, sorted, now)
    &&& clock_now == lww::clock_after(clock_before, sorted)
    &&& if ops.len() == 0 {
        after.log == before.log
    } else {
        operation_log::is_compaction(
            operation_log::merged_log(
                before.log,
                sorted,
                operation_log::repeated(MergeStrategy::EpochMaxWins, sorted.len()),
            ).0,
            operation_log::always(MergeStrategy::EpochMaxWins),
            after.log,
        )
    }
}

/// Every entry is well formed.
pub open spec fn entries_wf(entries: Map<Seq<char>, ShardEntryView>) -> bool {
    forall|key: Seq<char>| #[trigger] entries.contains_key(key) ==> entry_wf(entries[key])
}

impl RateLimitEngine {
    /// Every entry is well formed.
    pub open spec fn wf(&self) -> bool {
        entries_wf(self@.state.entries)
    }

    /// An engine without keys.
    pub fn new(replica_id: ReplicaId) -> (engine: RateLimitEngine)
        ensures
            engine.wf(),
            engine@ == (RateLimitEngineView {
                state: RateLimitView { entries: Map::empty(), generation: 0 },
                log: Seq::empty(),
                replica_id,
            }),
    {
        let engine = RateLimitEngine {
            entries: entries_new(),
            log: OperationLog::new(),
            replica_id,
            generation: 0,
        };
        assert(engine@.log =~= Seq::empty());
        engine
    }

    /// Merges a state into the entry of `key`. `None` stands for a malformed
    /// payload, which changes nothing.
    fn merge_state(&mut self, key: &str, incoming: Option<RateLimitState>, now: u64) -> (outcome:
        MergeOutcome)
        requires
            old(self).wf(),
            incoming matches Some(i) ==> i.wf(),
        ensures
            final(self).wf(),
            ({
                let entries = old(self)@.state.entries;
                let state = match incoming {
                    Some(i) => Some(i@),
                    None => None,
                };
                &&& final(self)@ == (RateLimitEngineView {
                    state: RateLimitView {
                        entries: absorb_entry(entries, key@, state, now),
                        generation: old(self)@.state.generation,
                    },
                    ..old(self)@
                })
                &&& outcome.changed == entry_changes(entries, key@, state)
                &&& kv_store::bytes_view(outcome.prior_live) == live_bytes(entries, key@)
                &&& outcome.new_is_live == is_live(final(self)@.state.entries, key@)
            }),
    {
        let ghost before = self@.state.entries;
        match entries_get(&self.entries, key) {
            Some(found) => {
                let mut entry: ShardEntry = found;
                let prior_live: Option<Vec<u8>> = entry.state.encode_live();
                let now_live: bool = matches!(&entry.state, RateLimitState::Live(_));
                let Some(incoming) = incoming else {
                    return MergeOutcome { changed: false, prior_live, new_is_live: now_live };
                };
                let ghost state = incoming@;
                let Some(merged) = entry.state.clone().merge(incoming) else {
                    return MergeOutcome { changed: false, prior_live, new_is_live: now_live };
                };
                let changed: bool = !same_state(&merged, &entry.state);
                let new_is_live: bool = matches!(&merged, RateLimitState::Live(_));
                if changed {
                    update_entry(&mut entry, merged, now);
                    let ghost written = entry@;
                    entries_insert(&mut self.entries, key, entry);
                    proof {
                        assert(written == merged_entry(before[key@], state, now));
                        lemma_merge_wf(before[key@], state, now);
                    }
                } else {
                    proof {
                        assert(before[key@] =~= merged_entry(before[key@], state, now));
                        assert(before =~= before.insert(
                            key@,
                            merged_entry(before[key@], state, now),
                        ));
                    }
                }
                MergeOutcome { changed, prior_live, new_is_live }
            },
            None => {
                let Some(incoming) = incoming else {
                    return MergeOutcome { changed: false, prior_live: None, new_is_live: false };
                };
                let new_is_live: bool = matches!(&incoming, RateLimitState::Live(_));
                let tombstoned_at: Option<u64> = if new_is_live {
                    None
                } else {
                    Some(now)
                };
                entries_insert(
                    &mut self.entries,
                    key,
                    ShardEntry { state: incoming, tombstoned_at },
                );
                MergeOutcome { changed: true, prior_live: None, new_is_live }
            },
        }
    }

    /// Merges a write into the entry of `key`. A malformed payload is reported like
    /// a write that is dominated: nothing changed.
    pub fn merge_insert(&mut self, key: &str, value: &[u8], version: RateLimitVersion, now: u64) -> (
    outcome: MergeOutcome)
        requires
            old(self).wf(),
        ensures
            final(self).wf(),
            ({
                let entries = old(self)@.state.entries;
                let incoming = epoch_max_wins::value_state(value@, version);
                &&& final(self)@ == (RateLimitEngineView {
                    state: RateLimitView {
                        entries: absorb_entry(entries, key@, incoming, now),
                        generation: old(self)@.state.generation,
                    },
                    ..old(self)@
                })
                &&& outcome.changed == entry_changes(entries, key@, incoming)
                &&& kv_store::bytes_view(outcome.prior_live) == live_bytes(entries, key@)
                &&& outcome.new_is_live == is_live(final(self)@.state.entries, key@)
            }),
    {
        let incoming: Option<RateLimitState> = state_from_insert_value(value, version);
        self.merge_state(key, incoming, now)
    }

    /// Merges a removal into the entry of `key`.
    pub fn merge_remove(&mut self, key: &str, version: RateLimitVersion, now: u64) -> (outcome:
        MergeOutcome)
        requires
            old(self).wf(),
        ensures
            final(self).wf(),
            ({
                let entries = old(self)@.state.entries;
                let incoming = Some(epoch_max_wins::tombstone_state(version));
                &&& final(self)@ == (RateLimitEngineView {
                    state: RateLimitView {
                        entries: absorb_entry(entries, key@, incoming, now),
                        generation: old(self)@.state.generation,
                    },
                    ..old(self)@
                })
                &&& outcome.changed == entry_changes(entries, key@, incoming)
                &&& kv_store::bytes_view(outcome.prior_live) == live_bytes(entries, key@)
                &&& outcome.new_is_live == is_live(final(self)@.state.entries, key@)
            }),
    {
        self.merge_state(key, Some(RateLimitState::Tombstone(version)), now)
    }

    /// The number of changes, after one more.
    fn bump(&mut self)
        ensures
            final(self)@ == (RateLimitEngineView {
                state: RateLimitView {
                    entries: old(self)@.state.entries,
                    generation: kv_store::next_generation(old(self)@.state.generation),
                },
                ..old(self)@
            }),
    {
        self.generation = self.generation.wrapping_add(1);
    }

    /// Writes a value. Returns the shard that the key had if the write changed
    /// nothing, or if it brought a tombstone that left the key without live points.
    /// Of a key that stays live no previous value is well defined.
    pub fn put_local(
        &mut self,
        clock: &mut LamportClock,
        now: u64,
        key: &str,
        value: Vec<u8>,
    ) -> (previous: Option<Vec<u8>>)
        requires
            old(self).wf(),
        ensures
            final(self).wf(),
            final(clock)@ == replica::next_timestamp(old(clock)@),
            final(self)@.replica_id == old(self)@.replica_id,
            ({
                let before = old(self)@;
                let version = RateLimitVersion {
                    timestamp: final(clock)@,
                    replica_id: before.replica_id,
                };
                let op = OperationView { key: key@, value: Some(value@), version };
                let changed = entry_changes(
                    before.state.entries,
                    key@,
                    epoch_max_wins::operation_state(op),
                );
                &&& final(self)@.state == rate_limit_apply(before.state, op, now)
                &&& if changed {
                    operation_log::appended(
                        before.log.push(op),
                        operation_log::always(MergeStrategy::EpochMaxWins),
                        final(self)@.log,
                    )
                } else {
                    final(self)@.log == before.log
                }
                &&& kv_store::bytes_view(previous) == if changed && is_live(
                    final(self)@.state.entries,
                    key@,
                ) {
                    None
                } else {
                    live_bytes(before.state.entries, key@)
                }
            }),
            local_change(
                old(self)@,
                old(clock)@,
                now,
                key@,
                Some(value@),
                final(self)@,
                final(clock)@,
            ),
            ({
                let (s, t) = (old(self)@.state, final(self)@.state);
                &&& previous matches Some(d) ==> s.entries.contains_key(key@)
                    && s.entries[key@].live && d@ == epoch_max_wins::encoded_shard(
                    s.entries[key@].state,
                )
                &&& t.generation == s.generation && s.entries.contains_key(key@)
                    && s.entries[key@].live ==> previous is Some
                &&& t.generation != s.generation && t.entries.contains_key(key@)
                    && t.entries[key@].live ==> previous is None
            }),
    {
        let timestamp: u64 = clock.tick();
        let version = RateLimitVersion::new(timestamp, self.replica_id);
        let outcome: MergeOutcome = self.merge_insert(key, value.as_slice(), version, now);
        if outcome.changed {
            let op = Operation::insert(key.to_owned(), value, timestamp, self.replica_id);
            self.log.append_always(op, MergeStrategy::EpochMaxWins);
            self.bump();
        }
        if outcome.changed && outcome.new_is_live {
            None
        } else {
            outcome.prior_live
        }
    }

    /// Removes a key. Returns the shard that the key had if the removal left it
    /// without live points.
    pub fn delete_local(&mut self, clock: &mut LamportClock, now: u64, key: &str) -> (removed:
        Option<Vec<u8>>)
        requires
            old(self).wf(),
        ensures
            final(self).wf(),
            final(clock)@ == replica::next_timestamp(old(clock)@),
            final(self)@.replica_id == old(self)@.replica_id,
            ({
                let before = old(self)@;
                let version = RateLimitVersion {
                    timestamp: final(clock)@,
                    replica_id: before.replica_id,
                };
                let op = OperationView { key: key@, value: None, version };
                let changed = entry_changes(
                    before.state.entries,
                    key@,
                    epoch_max_wins::operation_state(op),
                );
                &&& final(self)@.state == rate_limit_apply(before.state, op, now)
                &&& if changed {
                    operation_log::appended(
                        before.log.push(op),
                        operation_log::always(MergeStrategy::EpochMaxWins),
                        final(self)@.log,
                    )
                } else {
                    final(self)@.log == before.log
                }
                &&& kv_store::bytes_view(removed) == if changed && !is_live(
                    final(self)@.state.entries,
                    key@,
                ) {
                    live_bytes(before.state.entries, key@)
                } else {
                    None
                }
            }),
            local_change(
                old(self)@,
                old(clock)@,
                now,
                key@,
                None,
                final(self)@,
                final(clock)@,
            ),
            ({
                let (s, t) = (old(self)@.state, final(self)@.state);
                &&& removed is Some <==> s.entries.contains_key(key@) && s.entries[key@].live && !(
                t.entries.contains_key(key@) && t.entries[key@].live)
                &&& removed matches Some(d) ==> d@ == epoch_max_wins::encoded_shard(
                    s.entries[key@].state,
                )
            }),
    {
        let timestamp: u64 = clock.tick();
        let version = RateLimitVersion::new(timestamp, self.replica_id);
        let outcome: MergeOutcome = self.merge_remove(key, version, now);
        if outcome.changed {
            let op = Operation::remove(key.to_owned(), timestamp, self.replica_id);
            self.log.append_always(op, MergeStrategy::EpochMaxWins);
            self.bump();
        }
        if outcome.changed && !outcome.new_is_live {
            outcome.prior_live
        } else {
            None
        }
    }

    /// The encoded shard of `key`, if it is live.
    pub fn get(&self, key: &str) -> (value: Option<Vec<u8>>)
        ensures
            kv_store::bytes_view(value) == live_bytes(self@.state.entries, key@),
    {
        match entries_get(&self.entries, key) {
            Some(entry) => entry.state.encode_live(),
            None => None,
        }
    }

    /// Whether `key` is live.
    pub fn contains_key(&self, key: &str) -> (found: bool)
        ensures
            found == is_live(self@.state.entries, key@),
    {
        match entries_get(&self.entries, key) {
            Some(entry) => matches!(&entry.state, RateLimitState::Live(_)),
            None => false,
        }
    }

    /// The keys that are live, each once.
    pub fn keys(&self) -> (keys: Vec<String>)
        ensures
            kv_store::lists_keys(
                kv_store::text_views(keys@),
                live_keys(self@.state.entries),
            ),
            live_keys(self@.state.entries).finite(),
            keys@.len() == live_keys(self@.state.entries).len(),
    {
        let ghost entries = self@.state.entries;
        let ghost live = live_keys(entries);
        let all: Vec<String> = entries_keys(&self.entries);
        let ghost list = kv_store::text_views(all@);
        let mut keys: Vec<String> = Vec::new();
        let mut i: usize = 0;
        while i < all.len()
            invariant
                i <= all@.len(),
                entries == self@.state.entries,
                list == kv_store::text_views(all@),
                kv_store::lists_keys(list, entries.dom()),
                live == live_keys(entries),
                kv_store::picked(list, i as int, live, kv_store::text_views(keys@)),
            decreases all@.len() - i,
        {
            let ghost before = kv_store::text_views(keys@);
            proof {
                assert(list[i as int] == all@[i as int]@);
                kv_store::lemma_picked_next(list, i as int, live, before);
            }
            if self.contains_key(all[i].as_str()) {
                keys.push(all[i].clone());
                assert(kv_store::text_views(keys@) =~= before.push(list[i as int]));
            }
            i = i + 1;
        }
        proof {
            kv_store::lemma_picked_all(list, entries.dom(), live, kv_store::text_views(keys@));
        }
        keys
    }

    /// The number of keys that are live.
    pub fn len(&self) -> (n: usize)
        ensures
            n == live_keys(self@.state.entries).len(),
    {
        self.keys().len()
    }

    /// The number of changes made to the entries.
    pub fn generation(&self) -> (g: u64)
        ensures
            g == self@.state.generation,
    {
        self.generation
    }

    /// The operations of the log.
    pub fn export_ops(&self) -> (ops: Vec<Operation>)
        ensures
            operation_log::views(ops@) == self@.log,
    {
        copy_operations(self.log.operations())
    }

    /// Merges one operation, and counts the change if there is one.
    fn apply_operation(&mut self, op: &Operation, now: u64)
        requires
            old(self).wf(),
        ensures
            final(self).wf(),
            final(self)@ == (RateLimitEngineView {
                state: rate_limit_apply(old(self)@.state, op@, now),
                ..old(self)@
            }),
    {
        let version: RateLimitVersion = op.version();
        let changed: bool = match op {
            Operation::Insert { key, value, .. } => self.merge_insert(
                key.as_str(),
                value.as_slice(),
                version,
                now,
            ).changed,
            Operation::Remove { key, .. } => self.merge_remove(key.as_str(), version, now).changed,
        };
        if changed {
            self.bump();
        }
    }

    /// Merges the operations of another node, oldest version first. Operations that
    /// the log knows are replayed too, because a compacted shard can carry a
    /// tombstone under the version of a raw payload; a replay that changes nothing
    /// does not count as a change. The clock observes each operation.
    pub fn apply_remote_ops(&mut self, clock: &mut LamportClock, now: u64, ops: Vec<Operation>)
        requires
            old(self).wf(),
        ensures
            final(self).wf(),
            remote_ops_merged(
                old(self)@,
                old(clock)@,
                now,
                operation_log::views(ops@),
                final(self)@,
                final(clock)@,
            ),
    {
        let ghost incoming = operation_log::stable_sorted(operation_log::views(ops@));
        if ops.len() == 0 {
            assert(operation_log::views(ops@) =~= Seq::empty());
            return;
        }
        let to_apply: Vec<Operation> = sort_by_version(&ops);
        let incoming_log = OperationLog::from_operations(copy_operations(to_apply.as_slice()));
        self.log.merge_always(&incoming_log, MergeStrategy::EpochMaxWins);
        let ghost log = self.log@;
        let ghost before = self@.state;
        let ghost clock_before = clock@;
        let mut i: usize = 0;
        while i < to_apply.len()
            invariant
                i <= to_apply@.len(),
                self.wf(),
                operation_log::views(to_apply@) == incoming,
                self@.log == log,
                self@.replica_id == old(self)@.replica_id,
                self@.state == rate_limit_apply_all(before, incoming.subrange(0, i as int), now),
                clock@ == lww::clock_after(clock_before, incoming.subrange(0, i as int)),
            decreases to_apply@.len() - i,
        {
            proof {
                assert(incoming.subrange(0, i + 1).drop_last() =~= incoming.subrange(0, i as int));
                assert(incoming[i as int] == to_apply@[i as int]@);
            }
            clock.update(to_apply[i].timestamp());
            self.apply_operation(&to_apply[i], now);
            i = i + 1;
        }
        assert(incoming.subrange(0, i as int) =~= incoming);
    }

    /// Forgets the tombstones that are at least `grace` old, and returns how many
    /// there were.
    pub fn gc_tombstones(&mut self, now: u64, grace: u64) -> (removed: usize)
        requires
            old(self).wf(),
        ensures
            final(self).wf(),
            ({
                let before = old(self)@;
                let due = due_keys(before.state.entries, now, grace);
                &&& final(self)@ == (RateLimitEngineView {
                    state: RateLimitView {
                        entries: before.state.entries.remove_keys(due),
                        generation: before.state.generation,
                    },
                    ..before
                })
                &&& due.finite()
                &&& removed == due.len()
            }),
            forall|key: Seq<char>| #[trigger]
                final(self)@.state.entries.contains_key(key) <==> {
                    &&& old(self)@.state.entries.contains_key(key)
                    &&& old(self)@.state.entries[key].live || (
                    old(self)@.state.entries[key].tombstoned_at matches Some(at) && (if now < at {
                        0 < grace
                    } else {
                        now - at < grace
                    }))
                },
    {
        let ghost entries = self@.state.entries;
        let ghost due = due_keys(entries, now, grace);
        let keys: Vec<String> = entries_keys(&self.entries);
        let ghost list = kv_store::text_views(keys@);
        let ghost mut gone: Seq<Seq<char>> = Seq::empty();
        let mut removed: usize = 0;
        let mut i: usize = 0;
        proof {
            assert(entries =~= entries.remove_keys(gone.to_set()));
        }
        while i < keys.len()
            invariant
                i <= keys@.len(),
                list == kv_store::text_views(keys@),
                kv_store::lists_keys(list, entries.dom()),
                due == due_keys(entries, now, grace),
                kv_store::picked(list, i as int, due, gone),
                removed == gone.len(),
                removed <= i,
                self@ == (RateLimitEngineView {
                    state: RateLimitView {
                        entries: entries.remove_keys(gone.to_set()),
                        generation: old(self)@.state.generation,
                    },
                    ..old(self)@
                }),
            decreases keys@.len() - i,
        {
            let key: &str = keys[i].as_str();
            proof {
                assert(list[i as int] == key@);
                assert(list.contains(key@));
                kv_store::lemma_picked_next(list, i as int, due, gone);
                assert(self@.state.entries.contains_key(key@));
                assert(self@.state.entries[key@] == entries[key@]);
            }
            let is_due: bool = match entries_get(&self.entries, key) {
                Some(entry) => match (&entry.state, entry.tombstoned_at) {
                    (RateLimitState::Tombstone(_), Some(at)) => now.saturating_sub(at) >= grace,
                    _ => false,
                },
                None => false,
            };
            if is_due {
                let ghost before = self@.state.entries;
                entries_remove(&mut self.entries, key);
                removed = removed + 1;
                proof {
                    gone = gone.push(key@);
                    assert(self@.state.entries =~= before.remove(key@));
                    assert(self@.state.entries =~= entries.remove_keys(gone.to_set()));
                }
            }
            i = i + 1;
        }
        proof {
            kv_store::lemma_picked_all(list, entries.dom(), due, gone);
        }
        removed
    }
}

/// A merged entry is well formed.
pub proof fn lemma_merge_wf(e: ShardEntryView, incoming: ShardView, now: u64)
    requires
        entry_wf(e),
        incoming.points.len() > 0 || incoming.tombstone is Some,
    ensures
        entry_wf(merged_entry(e, incoming, now)),
{
    let m = epoch_max_wins::merge_states(e.state, incoming);
    if m.tombstone is None {
        let all = e.state.points + incoming.points;
        epoch_max_wins::lemma_survivors_all(all);
        let c = super::super::frontier::lemma_cover(all, 0);
        super::super::frontier::lemma_frontier(all);
        assert(m.points.contains(all[c]));
    }
}

impl NamespaceCrdtEngine for RateLimitEngine {
    open spec fn valid(&self) -> bool {
        self.wf()
    }

    open spec fn remote_ops_applied(
        before: RateLimitEngine,
        clock_before: u64,
        now: u64,
        ops: Seq<OperationView>,
        after: RateLimitEngine,
        clock_after: u64,
    ) -> bool {
        remote_ops_merged(before@, clock_before, now, ops, after@, clock_after)
    }

    fn apply_remote(&mut self, clock: &mut LamportClock, now: u64, ops: Vec<Operation>) {
        self.apply_remote_ops(clock, now, ops)
    }
}

} // verus!
