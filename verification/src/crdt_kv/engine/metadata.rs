//! Versions of the keys of a last-writer-wins namespace.

use vstd::prelude::*;

use super::super::epoch_max_wins;
use super::super::epoch_max_wins::RateLimitVersion;
use super::super::kv_store;
use super::super::kv_store::KvStore;

verus! {

/// The version of one write or removal, and the local time at which it arrived.
#[derive(Debug, Clone, Copy)]
pub struct ValueMetadata {
    pub version: RateLimitVersion,
    pub is_tombstone: bool,
    pub created_at: u64,
}

/// `dashmap::DashMap`, a hash map from `K` to `V`.
#[verifier::external_type_specification]
#[verifier::external_body]
#[verifier::reject_recursive_types(K)]
#[verifier::reject_recursive_types(V)]
#[verifier::reject_recursive_types(S)]
pub struct ExDashMap<K, V, S>(dashmap::DashMap<K, V, S>);

/// The versions that a map holds for each key.
pub uninterp spec fn version_lists(
    map: dashmap::DashMap<String, Vec<ValueMetadata>>,
) -> Map<Seq<char>, Seq<ValueMetadata>>;

/// Calls `dashmap::DashMap::new`, which makes an empty map.
#[verifier::external_body]
fn versions_new() -> (map: dashmap::DashMap<String, Vec<ValueMetadata>>)
    ensures
        version_lists(map) == (Map::<Seq<char>, Seq<ValueMetadata>>::empty()),
{
    dashmap::DashMap::new()
}

/// Calls `dashmap::DashMap::get` and copies the list that it finds under `key`.
#[verifier::external_body]
fn versions_get(map: &dashmap::DashMap<String, Vec<ValueMetadata>>, key: &str) -> (found: Option<
    Vec<ValueMetadata>,
>)
    ensures
        match found {
            Some(list) => version_lists(*map).contains_key(key@) && version_lists(*map)[key@]
                == list@,
            None => !version_lists(*map).contains_key(key@),
        },
{
    map.get(key).map(|entry| entry.value().clone())
}

/// Calls `dashmap::DashMap::insert`, which sets the list of `key` and leaves the
/// other keys as they are.
#[verifier::external_body]
fn versions_insert(
    map: &mut dashmap::DashMap<String, Vec<ValueMetadata>>,
    key: &str,
    list: Vec<ValueMetadata>,
)
    ensures
        version_lists(*final(map)) == version_lists(*old(map)).insert(key@, list@),
{
    map.insert(key.to_string(), list);
}

/// Calls `dashmap::DashMap::remove`, which drops `key` and leaves the other keys
/// as they are.
#[verifier::external_body]
fn versions_remove(map: &mut dashmap::DashMap<String, Vec<ValueMetadata>>, key: &str)
    ensures
        version_lists(*final(map)) == version_lists(*old(map)).remove(key@),
{
    map.remove(key);
}

/// Calls `dashmap::DashMap::iter` and copies the keys. Each key comes once, in no
/// particular order.
#[verifier::external_body]
fn versions_keys(map: &dashmap::DashMap<String, Vec<ValueMetadata>>) -> (keys: Vec<String>)
    ensures
        kv_store::lists_keys(kv_store::text_views(keys@), version_lists(*map).dom()),
{
    map.iter().map(|entry| entry.key().clone()).collect()
}

/// The newest of several versions; of equal ones the last.
pub open spec fn winner(list: Seq<ValueMetadata>) -> Option<ValueMetadata>
    decreases list.len(),
{
    if list.len() == 0 {
        None
    } else {
        match winner(list.drop_last()) {
            Some(best) if epoch_max_wins::version_lt(list.last().version, best.version) => Some(
                best,
            ),
            _ => Some(list.last()),
        }
    }
}

/// The newest of several versions; of equal ones the last.
fn find_winner(list: &Vec<ValueMetadata>) -> (best: Option<ValueMetadata>)
    ensures
        best == winner(list@),
{
    let mut best: Option<ValueMetadata> = None;
    let mut i: usize = 0;
    while i < list.len()
        invariant
            i <= list@.len(),
            best == winner(list@.subrange(0, i as int)),
        decreases list@.len() - i,
    {
        proof {
            assert(list@.subrange(0, i + 1).drop_last() =~= list@.subrange(0, i as int));
        }
        let next: ValueMetadata = list[i];
        best = match best {
            Some(current) if next.version.older_than(&current.version) => Some(current),
            _ => Some(next),
        };
        i = i + 1;
    }
    assert(list@.subrange(0, i as int) =~= list@);
    best
}

/// Keeps only the newest of several versions.
fn compact_key_metadata(versions: &mut Vec<ValueMetadata>)
    requires
        old(versions)@.len() > 0,
    ensures
        final(versions)@ == seq![winner(old(versions)@)->0],
{
    if let Some(best) = find_winner(versions) {
        versions.clear();
        versions.push(best);
    } else {
        assert(false);
    }
    assert(versions@ =~= seq![winner(old(versions)@)->0]);
}

/// The versions of the keys. Each key has one.
pub struct MetadataTable {
    versions: dashmap::DashMap<String, Vec<ValueMetadata>>,
}

/// The metadata of a write.
pub open spec fn live_metadata(version: RateLimitVersion, now: u64) -> ValueMetadata {
    ValueMetadata { version, is_tombstone: false, created_at: now }
}

/// The metadata of a removal.
pub open spec fn tombstone_metadata(version: RateLimitVersion, now: u64) -> ValueMetadata {
    ValueMetadata { version, is_tombstone: true, created_at: now }
}

/// A write wins over what the key has if it is newer.
pub open spec fn insert_wins(
    table: Map<Seq<char>, ValueMetadata>,
    key: Seq<char>,
    version: RateLimitVersion,
) -> bool {
    table.contains_key(key) ==> epoch_max_wins::version_lt(table[key].version, version)
}

/// A removal wins over what the key has if it is newer, and over a write of the
/// same version.
pub open spec fn remove_wins(
    table: Map<Seq<char>, ValueMetadata>,
    key: Seq<char>,
    version: RateLimitVersion,
) -> bool {
    table.contains_key(key) ==> epoch_max_wins::version_lt(table[key].version, version) || (
    table[key].version == version && !table[key].is_tombstone)
}

/// The time since `then`, or none if it lies in the future.
pub open spec fn elapsed(now: u64, then: u64) -> u64 {
    if now < then {
        0
    } else {
        (now - then) as u64
    }
}

/// The removal of `key` is old enough to be forgotten.
pub open spec fn is_due(
    table: Map<Seq<char>, ValueMetadata>,
    live: Map<Seq<char>, Seq<u8>>,
    now: u64,
    grace: u64,
    key: Seq<char>,
) -> bool {
    &&& table.contains_key(key)
    &&& !live.contains_key(key)
    &&& table[key].is_tombstone
    &&& elapsed(now, table[key].created_at) >= grace
}

/// The keys whose removal is old enough to be forgotten.
pub open spec fn due_keys(
    table: Map<Seq<char>, ValueMetadata>,
    live: Map<Seq<char>, Seq<u8>>,
    now: u64,
    grace: u64,
) -> Set<Seq<char>> {
    Set::new(|key: Seq<char>| is_due(table, live, now, grace, key))
}

impl View for MetadataTable {
    type V = Map<Seq<char>, ValueMetadata>;

    closed spec fn view(&self) -> Map<Seq<char>, ValueMetadata> {
        Map::new(
            |key: Seq<char>| version_lists(self.versions).contains_key(key),
            |key: Seq<char>| version_lists(self.versions)[key][0],
        )
    }
}

/// Whether one of the versions is `version`.
fn any_matches(list: &Vec<ValueMetadata>, version: RateLimitVersion) -> (found: bool)
    ensures
        found == exists|i: int| 0 <= i < list@.len() && (#[trigger] list@[i]).version == version,
{
    let mut i: usize = 0;
    while i < list.len()
        invariant
            i <= list@.len(),
            forall|k: int| 0 <= k < i ==> (#[trigger] list@[k]).version != version,
        decreases list@.len() - i,
    {
        if list[i].version == version {
            assert(list@[i as int].version == version);
            return true;
        }
        i = i + 1;
    }
    false
}

/// Whether one of the versions is a removal at `version`.
fn any_tombstone_matches(list: &Vec<ValueMetadata>, version: RateLimitVersion) -> (found: bool)
    ensures
        found == exists|i: int|
            0 <= i < list@.len() && (#[trigger] list@[i]).version == version
                && list@[i].is_tombstone,
{
    let mut i: usize = 0;
    while i < list.len()
        invariant
            i <= list@.len(),
            forall|k: int|
                0 <= k < i ==> !((#[trigger] list@[k]).version == version
                    && list@[k].is_tombstone),
        decreases list@.len() - i,
    {
        if list[i].version == version && list[i].is_tombstone {
            assert(list@[i as int].version == version);
            return true;
        }
        i = i + 1;
    }
    false
}

/// Whether one of the versions is newer than `version`.
fn any_newer(list: &Vec<ValueMetadata>, version: RateLimitVersion) -> (found: bool)
    ensures
        found == exists|i: int|
            0 <= i < list@.len() && epoch_max_wins::version_lt(
                version,
                (#[trigger] list@[i]).version,
            ),
{
    let mut i: usize = 0;
    while i < list.len()
        invariant
            i <= list@.len(),
            forall|k: int|
                0 <= k < i ==> !epoch_max_wins::version_lt(version, (#[trigger] list@[k]).version),
        decreases list@.len() - i,
    {
        if version.older_than(&list[i].version) {
            assert(epoch_max_wins::version_lt(version, list@[i as int].version));
            return true;
        }
        i = i + 1;
    }
    false
}

impl MetadataTable {
    /// Each key has one version.
    pub closed spec fn wf(&self) -> bool {
        forall|key: Seq<char>| #[trigger]
            version_lists(self.versions).contains_key(key) ==> version_lists(
                self.versions,
            )[key].len() == 1
    }

    /// A table without keys.
    pub fn new() -> (table: MetadataTable)
        ensures
            table.wf(),
            table@ == Map::<Seq<char>, ValueMetadata>::empty(),
    {
        let table = MetadataTable { versions: versions_new() };
        assert(table@ =~= Map::empty());
        table
    }

    /// What is known of `key`.
    pub fn get(&self, key: &str) -> (found: Option<ValueMetadata>)
        requires
            self.wf(),
        ensures
            match found {
                Some(m) => self@.contains_key(key@) && self@[key@] == m,
                None => !self@.contains_key(key@),
            },
    {
        match versions_get(&self.versions, key) {
            Some(list) => {
                proof {
                    assert(list@.drop_last() =~= Seq::empty());
                    reveal_with_fuel(winner, 2);
                }
                find_winner(&list)
            },
            None => None,
        }
    }

    /// Whether the key was removed or was never seen.
    pub fn key_is_tombstoned_or_unknown(&self, key: &str) -> (gone: bool)
        requires
            self.wf(),
        ensures
            gone == (self@.contains_key(key@) ==> self@[key@].is_tombstone),
    {
        match self.get(key) {
            Some(m) => m.is_tombstone,
            None => true,
        }
    }

    /// Replaces what is known of `key`.
    pub fn set(&mut self, key: &str, metadata: ValueMetadata)
        requires
            old(self).wf(),
        ensures
            final(self).wf(),
            final(self)@ == old(self)@.insert(key@, metadata),
    {
        let mut list: Vec<ValueMetadata> = Vec::new();
        list.push(metadata);
        versions_insert(&mut self.versions, key, list);
        assert(self@ =~= old(self)@.insert(key@, metadata));
    }

    /// Records a write, and says whether it wins.
    pub fn record_insert(&mut self, key: &str, version: RateLimitVersion, now: u64) -> (accepted:
        bool)
        requires
            old(self).wf(),
        ensures
            final(self).wf(),
            accepted == insert_wins(old(self)@, key@, version),
            final(self)@ == if accepted {
                old(self)@.insert(key@, live_metadata(version, now))
            } else {
                old(self)@
            },
    {
        let new_metadata = ValueMetadata { version, is_tombstone: false, created_at: now };
        match versions_get(&self.versions, key) {
            Some(list) => {
                let mut versions: Vec<ValueMetadata> = list;
                let known: bool = any_matches(&versions, version);
                let beaten: bool = match find_winner(&versions) {
                    Some(best) => version.older_than(&best.version),
                    None => false,
                };
                let accepted: bool = !known && !beaten;
                proof {
                    reveal_with_fuel(winner, 3);
                    assert(versions@.drop_last() =~= Seq::empty());
                    assert(versions@.push(new_metadata).drop_last() =~= versions@);
                    assert(versions@[0] == self@[key@]);
                    assert(accepted == insert_wins(self@, key@, version));
                }
                if accepted {
                    versions.push(new_metadata);
                }
                compact_key_metadata(&mut versions);
                versions_insert(&mut self.versions, key, versions);
                assert(self@ =~= if accepted {
                    old(self)@.insert(key@, new_metadata)
                } else {
                    old(self)@
                });
                accepted
            },
            None => {
                self.set(key, new_metadata);
                true
            },
        }
    }

    /// Records a removal, and says whether it wins. The removal of a key that was
    /// never seen is recorded too, so that a delayed older write is suppressed.
    pub fn record_remove(&mut self, key: &str, version: RateLimitVersion, now: u64) -> (accepted:
        bool)
        requires
            old(self).wf(),
        ensures
            final(self).wf(),
            accepted == remove_wins(old(self)@, key@, version),
            final(self)@ == if accepted {
                old(self)@.insert(key@, tombstone_metadata(version, now))
            } else {
                old(self)@
            },
    {
        let tombstone = ValueMetadata { version, is_tombstone: true, created_at: now };
        match versions_get(&self.versions, key) {
            Some(list) => {
                let mut versions: Vec<ValueMetadata> = list;
                let known: bool = any_tombstone_matches(&versions, version);
                let beaten: bool = any_newer(&versions, version);
                let accepted: bool = !known && !beaten;
                proof {
                    reveal_with_fuel(winner, 3);
                    assert(versions@.drop_last() =~= Seq::empty());
                    assert(versions@.push(tombstone).drop_last() =~= versions@);
                    assert(versions@[0] == self@[key@]);
                    assert(accepted == remove_wins(self@, key@, version));
                }
                if accepted {
                    versions.push(tombstone);
                }
                compact_key_metadata(&mut versions);
                versions_insert(&mut self.versions, key, versions);
                assert(self@ =~= if accepted {
                    old(self)@.insert(key@, tombstone)
                } else {
                    old(self)@
                });
                accepted
            },
            None => {
                self.set(key, tombstone);
                true
            },
        }
    }

    /// Forgets the removals that are at least `grace` old of keys without a live
    /// value, and returns how many there were.
    pub fn gc(&mut self, store: &KvStore, now: u64, grace: u64) -> (removed: usize)
        requires
            old(self).wf(),
            store.wf(),
        ensures
            final(self).wf(),
            final(self)@ == old(self)@.remove_keys(
                due_keys(old(self)@, store@.live, now, grace),
            ),
            due_keys(old(self)@, store@.live, now, grace).finite(),
            removed == due_keys(old(self)@, store@.live, now, grace).len(),
            forall|key: Seq<char>| #[trigger]
                final(self)@.contains_key(key) <==> {
                    &&& old(self)@.contains_key(key)
                    &&& store@.live.contains_key(key) || !old(self)@[key].is_tombstone || (if now
                        < old(self)@[key].created_at {
                        0 < grace
                    } else {
                        now - old(self)@[key].created_at < grace
                    })
                },
    {
        let ghost table = self@;
        let ghost due = due_keys(table, store@.live, now, grace);
        let keys: Vec<String> = versions_keys(&self.versions);
        let ghost list = kv_store::text_views(keys@);
        let ghost mut gone: Seq<Seq<char>> = Seq::empty();
        let mut removed: usize = 0;
        let mut i: usize = 0;
        proof {
            assert(self@.dom() =~= version_lists(self.versions).dom());
            assert(self@ =~= table.remove_keys(gone.to_set()));
        }
        while i < keys.len()
            invariant
                i <= keys@.len(),
                self.wf(),
                store.wf(),
                list == kv_store::text_views(keys@),
                kv_store::lists_keys(list, table.dom()),
                due == due_keys(table, store@.live, now, grace),
                kv_store::picked(list, i as int, due, gone),
                removed == gone.len(),
                removed <= i,
                self@ == table.remove_keys(gone.to_set()),
            decreases keys@.len() - i,
        {
            let key: &str = keys[i].as_str();
            proof {
                assert(list[i as int] == key@);
                assert(list.contains(key@));
                kv_store::lemma_picked_next(list, i as int, due, gone);
                assert(self@.contains_key(key@) && self@[key@] == table[key@]);
            }
            let is_due: bool = match self.get(key) {
                Some(m) => !store.contains_key(key) && m.is_tombstone && now.saturating_sub(
                    m.created_at,
                ) >= grace,
                None => false,
            };
            if is_due {
                let ghost before = self@;
                versions_remove(&mut self.versions, key);
                removed = removed + 1;
                proof {
                    gone = gone.push(key@);
                    assert(self@ =~= before.remove(key@));
                    assert(self@ =~= table.remove_keys(gone.to_set()));
                }
            }
            i = i + 1;
        }
        proof {
            kv_store::lemma_picked_all(list, table.dom(), due, gone);
        }
        removed
    }
}

} // verus!
