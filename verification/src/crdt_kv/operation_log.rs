//! The operation log: what happened to the keys, and its compaction.

use vstd::prelude::*;

use super::codec;
use super::codec::{WireOperation, WireOperationView};
use super::epoch_max_wins;
use super::epoch_max_wins::{compact_operations, RateLimitVersion, REPLICA_ID_BYTES};
use super::merge_strategy::MergeStrategy;
use super::operation::{Operation, OperationView};
use super::replica::ReplicaId;
use crate::bytes;

verus! {

/// Length at which the log is compacted. A compacted log holds at most one entry
/// per key, so that the next compaction waits for enough new operations.
pub const AUTO_COMPACT_THRESHOLD: usize = 10_000;

/// How many entries stay if the compacted log is still over the threshold.
pub const TRUNCATED_LEN: usize = 7_500;

/// Operation log, recording all state changes.
#[derive(Debug)]
pub struct OperationLog {
    operations: Vec<Operation>,
}

/// What a list of operations says.
pub open spec fn views(ops: Seq<Operation>) -> Seq<OperationView> {
    ops.map_values(|o: Operation| o@)
}

impl View for OperationLog {
    type V = Seq<OperationView>;

    closed spec fn view(&self) -> Seq<OperationView> {
        views(self.operations@)
    }
}

// ---------------------------------------------------------------------------
// The latest state of each key
// ---------------------------------------------------------------------------
/// The operation with the newest version; of several the last.
pub open spec fn newest_operation(ops: Seq<OperationView>) -> Option<OperationView>
    decreases ops.len(),
{
    if ops.len() == 0 {
        None
    } else {
        match newest_operation(ops.drop_last()) {
            Some(best) if epoch_max_wins::version_lt(ops.last().version, best.version) => Some(
                best,
            ),
            _ => Some(ops.last()),
        }
    }
}

/// The operations with a timestamp above `watermark`, in order.
pub open spec fn after_time(ops: Seq<OperationView>, watermark: u64) -> Seq<OperationView> {
    ops.filter(|o: OperationView| o.version.timestamp > watermark)
}

/// The operations on `key`, in order.
pub open spec fn on_key(ops: Seq<OperationView>, key: Seq<char>) -> Seq<OperationView> {
    ops.filter(|o: OperationView| o.key == key)
}

/// Some operation is on `key`.
pub open spec fn mentions(ops: Seq<OperationView>, key: Seq<char>) -> bool {
    exists|i: int| 0 <= i < ops.len() && (#[trigger] ops[i]).key == key
}

/// The one operation that stands for the operations on `key`.
pub open spec fn latest_for(
    ops: Seq<OperationView>,
    key: Seq<char>,
    strategy: MergeStrategy,
) -> Option<OperationView> {
    match strategy {
        MergeStrategy::LastWriterWins => newest_operation(on_key(ops, key)),
        MergeStrategy::EpochMaxWins => epoch_max_wins::compacted(on_key(ops, key)),
    }
}

/// The latest operation of each key. Keys with malformed inserts only have none.
pub open spec fn snapshot(
    ops: Seq<OperationView>,
    strategy: spec_fn(Seq<char>) -> MergeStrategy,
) -> Map<Seq<char>, OperationView> {
    Map::new(
        |key: Seq<char>| mentions(ops, key) && latest_for(ops, key, strategy(key)) is Some,
        |key: Seq<char>| latest_for(ops, key, strategy(key))->0,
    )
}

/// `list` holds each entry of `m` once, under its own key.
pub open spec fn lists(list: Seq<OperationView>, m: Map<Seq<char>, OperationView>) -> bool {
    &&& forall|i: int|
        0 <= i < list.len() ==> m.contains_key((#[trigger] list[i]).key) && m[list[i].key]
            == list[i]
    &&& forall|i: int, j: int|
        0 <= i < j < list.len() ==> (#[trigger] list[i]).key != (#[trigger] list[j]).key
    &&& forall|key: Seq<char>| #[trigger] m.contains_key(key) ==> mentions(list, key)
}

/// Oldest version first.
pub open spec fn by_version(ops: Seq<OperationView>) -> bool {
    forall|i: int, j: int|
        0 <= i < j < ops.len() ==> !epoch_max_wins::version_lt(
            (#[trigger] ops[j]).version,
            (#[trigger] ops[i]).version,
        )
}

/// `f` may answer `strategy` for `key`.
pub open spec fn may_choose<F: Fn(&str) -> MergeStrategy>(
    f: F,
    key: Seq<char>,
    strategy: MergeStrategy,
) -> bool {
    exists|k: &str| k@ == key && call_ensures(f, (k,), strategy)
}

/// `strategy` is what `f` may answer for the keys of the operations.
pub open spec fn chosen_by<F: Fn(&str) -> MergeStrategy>(
    f: F,
    ops: Seq<OperationView>,
    strategy: spec_fn(Seq<char>) -> MergeStrategy,
) -> bool {
    forall|i: int|
        0 <= i < ops.len() ==> may_choose(f, (#[trigger] ops[i]).key, strategy(ops[i].key))
}

/// The same strategy for every key.
pub open spec fn always(strategy: MergeStrategy) -> spec_fn(Seq<char>) -> MergeStrategy {
    |key: Seq<char>| strategy
}

pub proof fn lemma_on_key_push(ops: Seq<OperationView>, op: OperationView, key: Seq<char>)
    ensures
        on_key(ops.push(op), key) == if op.key == key {
            on_key(ops, key).push(op)
        } else {
            on_key(ops, key)
        },
{
    reveal(Seq::filter);
    assert(ops.push(op).drop_last() =~= ops);
}

/// The operations on a key are on that key, and there are some if the key is
/// mentioned.
pub proof fn lemma_on_key(ops: Seq<OperationView>, key: Seq<char>)
    ensures
        forall|i: int|
            0 <= i < on_key(ops, key).len() ==> (#[trigger] on_key(ops, key)[i]).key == key,
        forall|o: OperationView| #[trigger]
            on_key(ops, key).contains(o) <==> ops.contains(o) && o.key == key,
        on_key(ops, key).len() > 0 <==> mentions(ops, key),
    decreases ops.len(),
{
    if ops.len() == 0 {
        reveal(Seq::filter);
    } else {
        let rest = ops.drop_last();
        lemma_on_key(rest, key);
        lemma_on_key_push(rest, ops.last(), key);
        assert(ops =~= rest.push(ops.last()));
        let (a, b) = (on_key(rest, key), on_key(ops, key));
        assert forall|o: OperationView| #[trigger] b.contains(o) <==> ops.contains(o) && o.key
            == key by {
            if b.contains(o) {
                let k = choose|k: int| 0 <= k < b.len() && b[k] == o;
                if k < a.len() {
                    assert(a[k] == o && a.contains(o));
                    let m = choose|m: int| 0 <= m < rest.len() && rest[m] == o;
                    assert(ops[m] == o);
                } else {
                    assert(ops[ops.len() - 1] == o);
                }
            }
            if ops.contains(o) && o.key == key {
                let k = choose|k: int| 0 <= k < ops.len() && ops[k] == o;
                if k < rest.len() {
                    assert(rest[k] == o && rest.contains(o));
                    assert(a.contains(o));
                    let m = choose|m: int| 0 <= m < a.len() && a[m] == o;
                    assert(b[m] == o);
                } else {
                    assert(b[b.len() - 1] == o);
                }
            }
        }
        if mentions(ops, key) {
            let i = choose|i: int| 0 <= i < ops.len() && (#[trigger] ops[i]).key == key;
            assert(ops.contains(ops[i]));
            assert(b.contains(ops[i]));
        }
        if b.len() > 0 {
            assert(b.contains(b[0]));
            let i = choose|i: int| 0 <= i < ops.len() && ops[i] == b[0];
            assert(ops[i].key == key);
        }
    }
}

/// The newest operation is one of the operations, and none is newer.
pub proof fn lemma_newest_operation(ops: Seq<OperationView>)
    ensures
        newest_operation(ops) is Some <==> ops.len() > 0,
        ops.len() > 0 ==> ops.contains(newest_operation(ops)->0),
        forall|i: int|
            0 <= i < ops.len() ==> !epoch_max_wins::version_lt(
                newest_operation(ops)->0.version,
                (#[trigger] ops[i]).version,
            ),
    decreases ops.len(),
{
    if ops.len() > 0 {
        let rest = ops.drop_last();
        lemma_newest_operation(rest);
        if rest.len() > 0 {
            let i = choose|i: int| 0 <= i < rest.len() && rest[i] == newest_operation(rest)->0;
            assert(ops[i] == rest[i]);
            assert(ops.contains(ops[i]));
        }
        assert(ops[ops.len() - 1] == ops.last());
        assert forall|i: int| 0 <= i < ops.len() implies !epoch_max_wins::version_lt(
            newest_operation(ops)->0.version,
            (#[trigger] ops[i]).version,
        ) by {
            if i < rest.len() {
                assert(ops[i] == rest[i]);
            }
        }
    }
}

/// The operation that stands for a key is on that key.
pub proof fn lemma_latest_for_key(ops: Seq<OperationView>, key: Seq<char>, strategy: MergeStrategy)
    ensures
        latest_for(ops, key, strategy) matches Some(o) ==> o.key == key,
{
    let group = on_key(ops, key);
    lemma_on_key(ops, key);
    lemma_newest_operation(group);
    if latest_for(ops, key, strategy) is Some {
        assert(group.len() > 0);
        assert(group[0].key == key);
        if strategy is LastWriterWins {
            let o = newest_operation(group)->0;
            let i = choose|i: int| 0 <= i < group.len() && group[i] == o;
            assert(group[i].key == key);
        }
    }
}

/// The newest of the operations by version; of several the last.
fn latest_lww_operation<'a>(operations: &Vec<&'a Operation>) -> (latest: Option<&'a Operation>)
    ensures
        match latest {
            Some(o) => newest_operation(operations@.map_values(|o: &Operation| o@)) == Some(o@),
            None => operations@.len() == 0,
        },
{
    let ghost all = operations@.map_values(|o: &Operation| o@);
    let mut latest: Option<&'a Operation> = None;
    let mut i: usize = 0;
    while i < operations.len()
        invariant
            i <= operations@.len(),
            all == operations@.map_values(|o: &Operation| o@),
            match latest {
                Some(o) => newest_operation(all.subrange(0, i as int)) == Some(o@),
                None => i == 0,
            },
        decreases operations@.len() - i,
    {
        proof {
            assert(all.subrange(0, i + 1).drop_last() =~= all.subrange(0, i as int));
            assert(all.subrange(0, i + 1).last() == operations@[i as int]@);
            lemma_newest_operation(all.subrange(0, i as int));
        }
        let candidate: &'a Operation = operations[i];
        latest = match latest {
            Some(best) if candidate.version().older_than(&best.version()) => Some(best),
            _ => Some(candidate),
        };
        i = i + 1;
    }
    assert(all.subrange(0, i as int) =~= all);
    latest
}

/// Decodes a counter from the value of an operation. Every value of at least
/// eight bytes reads as a number.
pub fn decode_counter_payload(value: &[u8]) -> (counter: Option<i64>)
    ensures
        counter == counter_value(value@),
{
    match codec::deserialize_i64(value) {
        Ok(x) => {
            proof {
                bytes::lemma_u64_round_trip(x as u64);
                bytes::lemma_i64_bits(x, 0);
            }
            Some(x)
        },
        Err(_) => None,
    }
}

/// The counter in the first eight bytes of a value, least significant first.
pub open spec fn counter_value(value: Seq<u8>) -> Option<i64> {
    if value.len() < 8 {
        None
    } else {
        Some(bytes::u64_of_be(value.subrange(0, 8).reverse()) as i64)
    }
}

/// The counter that an operation leaves: none after a removal.
pub open spec fn counter_after(op: Option<OperationView>) -> Option<i64> {
    match op {
        Some(o) => match o.value {
            Some(value) => counter_value(value),
            None => None,
        },
        None => None,
    }
}

impl OperationLog {
    /// An empty log.
    pub fn new() -> (log: OperationLog)
        ensures
            log@.len() == 0,
    {
        OperationLog { operations: Vec::new() }
    }

    /// A log of the given operations.
    pub fn from_operations(operations: Vec<Operation>) -> (log: OperationLog)
        ensures
            log@ == views(operations@),
    {
        OperationLog { operations }
    }

    /// All operations, in order.
    pub fn operations(&self) -> (ops: &[Operation])
        ensures
            views(ops@) == self@,
    {
        self.operations.as_slice()
    }

    /// The number of operations.
    pub fn len(&self) -> (n: usize)
        ensures
            n == self@.len(),
    {
        self.operations.len()
    }

    /// Whether there is no operation.
    pub fn is_empty(&self) -> (empty: bool)
        ensures
            empty == (self@.len() == 0),
    {
        self.operations.len() == 0
    }

    /// Whether some operation has the version `id`.
    pub fn knows(&self, id: RateLimitVersion) -> (found: bool)
        ensures
            found == known(self@, id),
    {
        let mut i: usize = 0;
        while i < self.operations.len()
            invariant
                i <= self.operations@.len(),
                forall|k: int| 0 <= k < i ==> (#[trigger] self@[k]).version != id,
            decreases self.operations@.len() - i,
        {
            assert(self@[i as int] == self.operations@[i as int]@);
            if self.operations[i].version() == id {
                return true;
            }
            i = i + 1;
        }
        false
    }

    /// The operations on `key`, in order.
    fn group(&self, key: &str) -> (group: Vec<&Operation>)
        ensures
            group@.map_values(|o: &Operation| o@) == on_key(self@, key@),
    {
        let mut group: Vec<&Operation> = Vec::new();
        let mut i: usize = 0;
        proof {
            reveal(Seq::filter);
            assert(group@.map_values(|o: &Operation| o@) =~= on_key(
                self@.subrange(0, 0),
                key@,
            ));
        }
        while i < self.operations.len()
            invariant
                i <= self.operations@.len(),
                group@.map_values(|o: &Operation| o@) == on_key(
                    self@.subrange(0, i as int),
                    key@,
                ),
            decreases self.operations@.len() - i,
        {
            let operation: &Operation = &self.operations[i];
            let ghost before = group@;
            if crate::text::same_text(operation.key(), key) {
                group.push(operation);
            }
            proof {
                let f = |o: &Operation| o@;
                assert(self@[i as int] == operation@);
                assert(self@.subrange(0, i + 1) =~= self@.subrange(0, i as int).push(operation@));
                lemma_on_key_push(self@.subrange(0, i as int), operation@, key@);
                assert(before.push(operation).map_values(f) =~= before.map_values(f).push(
                    operation@,
                ));
            }
            i = i + 1;
        }
        assert(self@.subrange(0, i as int) =~= self@);
        group
    }

    /// The latest operation of each key, each key once.
    fn latest_operations_by_key_with_strategy<F: Fn(&str) -> MergeStrategy>(
        &self,
        strategy_for_key: &F,
    ) -> (latest: Vec<Operation>)
        requires
            forall|k: &str| call_requires(*strategy_for_key, (k,)),
        ensures
            exists|strategy: spec_fn(Seq<char>) -> MergeStrategy| #[trigger]
                chosen_by(*strategy_for_key, self@, strategy) && lists(
                    views(latest@),
                    snapshot(self@, strategy),
                ),
    {
        let mut latest: Vec<Operation> = Vec::new();
        let ghost mut chosen: Map<Seq<char>, MergeStrategy> = Map::empty();
        let mut i: usize = 0;
        while i < self.operations.len()
            invariant
                i <= self.operations@.len(),
                forall|k: &str| call_requires(*strategy_for_key, (k,)),
                forall|key: Seq<char>| #[trigger]
                    chosen.contains_key(key) <==> mentions(self@.subrange(0, i as int), key),
                forall|key: Seq<char>| #[trigger]
                    chosen.contains_key(key) ==> may_choose(*strategy_for_key, key, chosen[key]),
                forall|k: int|
                    0 <= k < latest@.len() ==> chosen.contains_key((#[trigger] latest@[k])@.key)
                        && latest_for(self@, latest@[k]@.key, chosen[latest@[k]@.key]) == Some(
                        latest@[k]@,
                    ),
                forall|x: int, y: int|
                    0 <= x < y < latest@.len() ==> (#[trigger] latest@[x])@.key != (
                    #[trigger] latest@[y])@.key,
                forall|key: Seq<char>| #[trigger]
                    chosen.contains_key(key) && latest_for(self@, key, chosen[key]) is Some
                        ==> mentions(views(latest@), key),
            decreases self.operations@.len() - i,
        {
            let key: &str = self.operations[i].key();
            let ghost seen = self@.subrange(0, i as int);
            proof {
                assert(self@[i as int].key == key@);
                assert(self@.subrange(0, i + 1) =~= seen.push(self@[i as int]));
                lemma_mentions_push(seen, self@[i as int]);
            }
            if !self.mentioned_before(key, i) {
                let strategy: MergeStrategy = strategy_for_key(key);
                let group: Vec<&Operation> = self.group(key);
                proof {
                    assert(may_choose(*strategy_for_key, key@, strategy));
                    lemma_latest_for_key(self@, key@, strategy);
                    lemma_on_key(self@, key@);
                    lemma_newest_operation(on_key(self@, key@));
                }
                let found: Option<Operation> = match strategy {
                    MergeStrategy::LastWriterWins => match latest_lww_operation(&group) {
                        Some(operation) => Some(operation.clone()),
                        None => None,
                    },
                    MergeStrategy::EpochMaxWins => compact_operations(&group),
                };
                proof {
                    let before = chosen;
                    chosen = chosen.insert(key@, strategy);
                    assert forall|k: Seq<char>| #[trigger]
                        chosen.contains_key(k) <==> mentions(self@.subrange(0, i + 1), k) by {
                        assert(before.contains_key(k) <==> mentions(seen, k));
                    }
                    assert(found is Some ==> latest_for(self@, key@, strategy) == Some(
                        found->0@,
                    ));
                    assert(found is None ==> latest_for(self@, key@, strategy) is None);
                }
                if let Some(operation) = found {
                    let ghost before = latest@;
                    latest.push(operation);
                    proof {
                        assert(views(latest@) =~= views(before).push(operation@));
                        lemma_mentions_push(views(before), operation@);
                    }
                }
            } else {
                proof {
                    assert forall|k: Seq<char>| #[trigger]
                        chosen.contains_key(k) <==> mentions(self@.subrange(0, i + 1), k) by {
                        assert(chosen.contains_key(k) <==> mentions(seen, k));
                    }
                }
            }
            i = i + 1;
        }
        proof {
            assert(self@.subrange(0, i as int) =~= self@);
            let strategy = |key: Seq<char>| chosen[key];
            assert forall|k: int| 0 <= k < self@.len() implies may_choose(
                *strategy_for_key,
                (#[trigger] self@[k]).key,
                strategy(self@[k].key),
            ) by {
                assert(mentions(self@, self@[k].key));
                assert(chosen.contains_key(self@[k].key));
            }
            assert(chosen_by(*strategy_for_key, self@, strategy));
            let list = views(latest@);
            let m = snapshot(self@, strategy);
            assert forall|k: int| 0 <= k < list.len() implies m.contains_key(
                (#[trigger] list[k]).key,
            ) && m[list[k].key] == list[k] by {
                assert(list[k] == latest@[k]@);
            }
            assert forall|x: int, y: int| 0 <= x < y < list.len() implies (
            #[trigger] list[x]).key != (#[trigger] list[y]).key by {
                assert(list[x] == latest@[x]@ && list[y] == latest@[y]@);
            }
            assert forall|key: Seq<char>| #[trigger] m.contains_key(key) implies mentions(
                list,
                key,
            ) by {
                assert(chosen.contains_key(key));
            }
        }
        latest
    }

    /// Keeps only the latest operation of each key, oldest version first.
    pub fn compact_with_strategy<F: Fn(&str) -> MergeStrategy>(&mut self, strategy_for_key: &F)
        requires
            forall|k: &str| call_requires(*strategy_for_key, (k,)),
        ensures
            exists|strategy: spec_fn(Seq<char>) -> MergeStrategy| #[trigger]
                chosen_by(*strategy_for_key, old(self)@, strategy) && lists(
                    final(self)@,
                    snapshot(old(self)@, strategy),
                ),
            by_version(final(self)@),
    {
        let latest: Vec<Operation> = self.latest_operations_by_key_with_strategy(strategy_for_key);
        let ghost list = views(latest@);
        self.operations = sort_by_version(&latest);
        proof {
            lemma_stable_sorted(list);
            let strategy = choose|strategy: spec_fn(Seq<char>) -> MergeStrategy| #[trigger]
                chosen_by(*strategy_for_key, old(self)@, strategy) && lists(
                    list,
                    snapshot(old(self)@, strategy),
                );
            lemma_lists_permuted(list, self@, snapshot(old(self)@, strategy));
        }
    }

    /// Appends an operation. A log over the threshold is compacted, and where
    /// that is not enough the oldest entries go.
    pub fn append_with_strategy<F: Fn(&str) -> MergeStrategy>(
        &mut self,
        operation: Operation,
        strategy_for_key: &F,
    )
        requires
            forall|k: &str| call_requires(*strategy_for_key, (k,)),
        ensures
            exists|strategy: spec_fn(Seq<char>) -> MergeStrategy| #[trigger]
                appended(old(self)@.push(operation@), strategy, final(self)@) && (old(
                    self,
                )@.len() < AUTO_COMPACT_THRESHOLD || chosen_by(
                    *strategy_for_key,
                    old(self)@.push(operation@),
                    strategy,
                )),
            final(self)@.len() <= AUTO_COMPACT_THRESHOLD,
    {
        let ghost pushed = self@.push(operation@);
        self.operations.push(operation);
        assert(self@ =~= pushed);
        if self.operations.len() > AUTO_COMPACT_THRESHOLD {
            self.compact_with_strategy(strategy_for_key);
            let ghost compact = self@;
            let ghost strategy = choose|strategy: spec_fn(Seq<char>) -> MergeStrategy| #[trigger]
                chosen_by(*strategy_for_key, pushed, strategy) && lists(
                    compact,
                    snapshot(pushed, strategy),
                );
            assert(lists(compact, snapshot(pushed, strategy)));
            if self.operations.len() > AUTO_COMPACT_THRESHOLD {
                let drop: usize = self.operations.len() - TRUNCATED_LEN;
                let kept: Vec<Operation> = self.operations.split_off(drop);
                self.operations = kept;
                assert(self@ =~= compact.subrange(drop as int, compact.len() as int));
            }
            assert(is_compaction(pushed, strategy, compact));
            assert(self@ == truncated(compact));
            assert(appended(pushed, strategy, self@));
        } else {
            assert(appended(pushed, always(MergeStrategy::LastWriterWins), self@));
        }
    }

    /// Appends an operation to a log of which the last writer wins on every key.
    pub fn append(&mut self, operation: Operation)
        ensures
            appended(
                old(self)@.push(operation@),
                always(MergeStrategy::LastWriterWins),
                final(self)@,
            ),
            final(self)@.len() <= AUTO_COMPACT_THRESHOLD,
    {
        self.append_always(operation, MergeStrategy::LastWriterWins);
    }

    /// Appends an operation to a log with one strategy for every key.
    pub fn append_always(&mut self, operation: Operation, strategy: MergeStrategy)
        ensures
            appended(old(self)@.push(operation@), always(strategy), final(self)@),
            final(self)@.len() <= AUTO_COMPACT_THRESHOLD,
    {
        let ghost pushed = self@.push(operation@);
        let ghost before = self@.len();
        let answer = |key: &str| -> (s: MergeStrategy)
            ensures
                s == strategy,
            { strategy };
        self.append_with_strategy(operation, &answer);
        proof {
            let chosen = choose|chosen: spec_fn(Seq<char>) -> MergeStrategy| #[trigger]
                appended(pushed, chosen, self@) && (before < AUTO_COMPACT_THRESHOLD || chosen_by(
                    answer,
                    pushed,
                    chosen,
                ));
            if before >= AUTO_COMPACT_THRESHOLD {
                assert forall|i: int| 0 <= i < pushed.len() implies chosen(
                    (#[trigger] pushed[i]).key,
                ) == strategy by {
                    assert(may_choose(answer, pushed[i].key, chosen(pushed[i].key)));
                }
                lemma_snapshot_congruent(pushed, chosen, always(strategy));
                let compact = choose|compact: Seq<OperationView>| #[trigger]
                    is_compaction(pushed, chosen, compact) && self@ == truncated(compact);
                assert(is_compaction(pushed, always(strategy), compact));
            }
        }
    }

    /// Merges another log in and compacts, with one strategy for every key.
    pub fn merge_always(&mut self, other: &OperationLog, strategy: MergeStrategy)
        ensures
            is_compaction(
                merged_log(old(self)@, other@, repeated(strategy, other@.len())).0,
                always(strategy),
                final(self)@,
            ),
    {
        let ghost base = self@;
        let answer = |key: &str| -> (s: MergeStrategy)
            ensures
                s == strategy,
            { strategy };
        self.merge_with_strategy(other, &answer);
        let ghost merged = self@;
        proof {
            let strategies = choose|strategies: Seq<MergeStrategy>|
                {
                    &&& #[trigger] consulted_for(answer, base, other@, strategies)
                    &&& merged == merged_log(base, other@, strategies).0
                };
            assert forall|i: int|
                0 <= i < other@.len() && #[trigger] consulted(
                    base,
                    other@,
                    i,
                ) implies strategies[i] == repeated(strategy, other@.len())[i] by {
                assert(may_choose(answer, other@[i].key, strategies[i]));
            }
            lemma_merged_congruent(
                base,
                other@,
                strategies,
                repeated(strategy, other@.len()),
            );
        }
        self.compact_with_strategy(&answer);
        proof {
            let chosen = choose|chosen: spec_fn(Seq<char>) -> MergeStrategy| #[trigger]
                chosen_by(answer, merged, chosen) && lists(self@, snapshot(merged, chosen));
            assert forall|i: int| 0 <= i < merged.len() implies chosen((#[trigger] merged[i]).key)
                == strategy by {
                assert(may_choose(answer, merged[i].key, chosen(merged[i].key)));
            }
            lemma_snapshot_congruent(merged, chosen, always(strategy));
        }
    }

    /// Drops the operations with a timestamp up to `watermark`.
    pub fn compact_up_to(&mut self, watermark: u64)
        ensures
            final(self)@ == old(self)@.filter(
                |o: OperationView| o.version.timestamp > watermark,
            ),
            final(self)@ == after_time(old(self)@, watermark),
    {
        let ghost keep = |o: OperationView| o.version.timestamp > watermark;
        let ghost all = self@;
        let mut kept: Vec<Operation> = Vec::new();
        let mut i: usize = 0;
        proof {
            reveal(Seq::filter);
            assert(views(kept@) =~= all.subrange(0, 0).filter(keep));
        }
        while i < self.operations.len()
            invariant
                i <= self.operations@.len(),
                keep == (|o: OperationView| o.version.timestamp > watermark),
                all == self@,
                views(kept@) == all.subrange(0, i as int).filter(keep),
            decreases self.operations@.len() - i,
        {
            let ghost before = kept@;
            proof {
                reveal(Seq::filter);
                assert(all.subrange(0, i + 1).drop_last() =~= all.subrange(0, i as int));
                assert(all[i as int] == self.operations@[i as int]@);
            }
            if self.operations[i].timestamp() > watermark {
                kept.push(self.operations[i].clone());
                assert(views(kept@) =~= views(before).push(all[i as int]));
            }
            i = i + 1;
        }
        assert(all.subrange(0, i as int) =~= all);
        self.operations = kept;
    }

    /// Returns the latest operation of each key and empties the log.
    pub fn snapshot_and_truncate<F: Fn(&str) -> MergeStrategy>(
        &mut self,
        strategy_for_key: &F,
    ) -> (latest: Vec<(String, Operation)>)
        requires
            forall|k: &str| call_requires(*strategy_for_key, (k,)),
        ensures
            exists|strategy: spec_fn(Seq<char>) -> MergeStrategy| #[trigger]
                chosen_by(*strategy_for_key, old(self)@, strategy) && lists(
                    entry_views(latest@),
                    snapshot(old(self)@, strategy),
                ),
            forall|i: int|
                0 <= i < latest@.len() ==> (#[trigger] latest@[i]).0@ == latest@[i].1@.key,
            final(self)@.len() == 0,
    {
        let ops: Vec<Operation> = self.latest_operations_by_key_with_strategy(strategy_for_key);
        let mut latest: Vec<(String, Operation)> = Vec::new();
        let mut i: usize = 0;
        while i < ops.len()
            invariant
                i <= ops@.len(),
                entry_views(latest@) == views(ops@).subrange(0, i as int),
                forall|k: int|
                    0 <= k < latest@.len() ==> (#[trigger] latest@[k]).0@ == latest@[k].1@.key,
            decreases ops@.len() - i,
        {
            let ghost before = latest@;
            latest.push((ops[i].key().to_owned(), ops[i].clone()));
            i = i + 1;
            proof {
                assert(entry_views(latest@) =~= entry_views(before).push(ops@[i - 1]@));
                assert(views(ops@).subrange(0, i as int) =~= views(ops@).subrange(0, i - 1).push(
                    ops@[i - 1]@,
                ));
            }
        }
        assert(views(ops@).subrange(0, i as int) =~= views(ops@));
        self.operations = Vec::new();
        latest
    }

    /// The counter that the latest operation on `key` leaves.
    pub fn latest_counter_value(&self, key: &str) -> (counter: Option<i64>)
        ensures
            counter == counter_after(newest_operation(on_key(self@, key@))),
    {
        counter_of(latest_lww_operation(&self.group(key)))
    }

    /// The counter that the latest operation on any key leaves.
    pub fn latest_counter_value_any(&self) -> (counter: Option<i64>)
        ensures
            counter == counter_after(newest_operation(self@)),
    {
        let mut all: Vec<&Operation> = Vec::new();
        let mut i: usize = 0;
        let ghost f = |o: &Operation| o@;
        while i < self.operations.len()
            invariant
                i <= self.operations@.len(),
                f == (|o: &Operation| o@),
                all@.map_values(f) == self@.subrange(0, i as int),
            decreases self.operations@.len() - i,
        {
            let ghost before = all@;
            all.push(&self.operations[i]);
            i = i + 1;
            proof {
                assert(all@.map_values(f) =~= before.map_values(f).push(self@[i - 1]));
                assert(self@.subrange(0, i as int) =~= self@.subrange(0, i - 1).push(self@[i - 1]));
            }
        }
        assert(self@.subrange(0, i as int) =~= self@);
        counter_of(latest_lww_operation(&all))
    }

    /// Merges another log in. An operation with a new version is added. One whose
    /// version is known already is folded into the known one where shards are
    /// merged, so that a compacted payload replaces the raw one, and is dropped
    /// where the last writer wins.
    pub fn merge_with_strategy<F: Fn(&str) -> MergeStrategy>(
        &mut self,
        other: &OperationLog,
        strategy_for_key: &F,
    )
        requires
            forall|k: &str| call_requires(*strategy_for_key, (k,)),
        ensures
            exists|strategies: Seq<MergeStrategy>|
                {
                    &&& #[trigger] consulted_for(
                        *strategy_for_key,
                        old(self)@,
                        other@,
                        strategies,
                    )
                    &&& final(self)@ == merged_log(old(self)@, other@, strategies).0
                },
    {
        let ghost base = self@;
        let mut ids: Vec<RateLimitVersion> = Vec::new();
        let mut k: usize = 0;
        while k < self.operations.len()
            invariant
                k <= self.operations@.len(),
                ids@ == versions(self@).subrange(0, k as int),
            decreases self.operations@.len() - k,
        {
            assert(versions(self@)[k as int] == self.operations@[k as int]@.version);
            ids.push(self.operations[k].version());
            k = k + 1;
            assert(ids@ =~= versions(self@).subrange(0, k as int));
        }
        assert(ids@ =~= versions(base));
        let ghost mut strategies: Seq<MergeStrategy> = Seq::empty();
        let mut i: usize = 0;
        while i < other.operations.len()
            invariant
                i <= other.operations@.len(),
                forall|k: &str| call_requires(*strategy_for_key, (k,)),
                strategies.len() == i,
                consulted_for(
                    *strategy_for_key,
                    base,
                    other@.subrange(0, i as int),
                    strategies,
                ),
                merged_log(base, other@.subrange(0, i as int), strategies) == (self@, ids@),
            decreases other.operations@.len() - i,
        {
            let operation: &Operation = &other.operations[i];
            let ghost seen = other@.subrange(0, i as int);
            let ghost before = (self@, ids@);
            let ghost mut strategy = MergeStrategy::LastWriterWins;
            proof {
                assert(other@[i as int] == operation@);
                lemma_merged_ids(base, seen, strategies);
                lemma_last_index(ids@, operation@.version);
            }
            match find_last(&ids, operation.version()) {
                None => {
                    ids.push(operation.version());
                    self.operations.push(operation.clone());
                    proof {
                        assert(self@ =~= before.0.push(operation@));
                        assert(!before.1.contains(operation@.version));
                    }
                },
                Some(at) => {
                    let answer: MergeStrategy = strategy_for_key(operation.key());
                    proof {
                        strategy = answer;
                        assert(may_choose(*strategy_for_key, operation@.key, strategy));
                    }
                    if matches!(answer, MergeStrategy::EpochMaxWins) {
                        let local: Operation = self.operations[at].clone();
                        let mut pair: Vec<&Operation> = Vec::new();
                        pair.push(&local);
                        pair.push(operation);
                        proof {
                            assert(before.0[at as int] == local@);
                            assert(pair@.map_values(|o: &Operation| o@) =~= seq![
                                before.0[at as int],
                                operation@,
                            ]);
                        }
                        if let Some(folded) = compact_operations(&pair) {
                            let ghost fold = folded@;
                            self.operations.set(at, folded);
                            assert(self@ =~= before.0.update(at as int, fold));
                        }
                    }
                },
            }
            proof {
                assert((self@, ids@) == merge_entry(before, operation@, strategy));
                lemma_consulted_push(
                    *strategy_for_key,
                    base,
                    seen,
                    strategies,
                    operation@,
                    strategy,
                );
                assert(other@.subrange(0, i + 1) =~= seen.push(operation@));
                assert(seen.push(operation@).drop_last() =~= seen);
                assert(strategies.push(strategy).drop_last() =~= strategies);
                strategies = strategies.push(strategy);
            }
            i = i + 1;
        }
        assert(other@.subrange(0, i as int) =~= other@);
    }

    /// The log in its binary layout.
    pub fn to_bytes(&self) -> (r: Result<Vec<u8>, InvalidLog>)
        ensures
            r is Ok,
            r->Ok_0@ == encoded_log(self@),
    {
        let mut wire: Vec<WireOperation> = Vec::new();
        let mut i: usize = 0;
        let ghost f = |o: OperationView| wire_of(o);
        while i < self.operations.len()
            invariant
                i <= self.operations@.len(),
                f == (|o: OperationView| wire_of(o)),
                codec::wire_views(wire@) == self@.subrange(0, i as int).map_values(f),
            decreases self.operations@.len() - i,
        {
            let ghost before = wire@;
            let id: u128 = bytes::u128_swap(self.operations[i].replica_id().bits);
            let next: WireOperation = match &self.operations[i] {
                Operation::Insert { key, value, timestamp, .. } => Ok(
                    (
                        key.clone(),
                        super::operation::copy_bytes(value.as_slice()),
                        *timestamp,
                        REPLICA_ID_BYTES,
                        id,
                    ),
                ),
                Operation::Remove { key, timestamp, .. } => Err(
                    (key.clone(), *timestamp, REPLICA_ID_BYTES, id),
                ),
            };
            let ghost wired = next;
            wire.push(next);
            i = i + 1;
            proof {
                assert(codec::wire_operation_view(wired) == wire_of(self@[i - 1]));
                assert(codec::wire_views(wire@) =~= codec::wire_views(before).push(
                    wire_of(self@[i - 1]),
                ));
                assert(self@.subrange(0, i as int).map_values(f) =~= self@.subrange(
                    0,
                    i - 1,
                ).map_values(f).push(wire_of(self@[i - 1])));
            }
        }
        assert(self@.subrange(0, i as int) =~= self@);
        match codec::serialize_log(&wire) {
            Ok(data) => Ok(data),
            Err(_) => Err(InvalidLog {  }),
        }
    }

    /// Reads the log that `data` starts with.
    pub fn from_bytes(data: &[u8]) -> (r: Result<OperationLog, InvalidLog>)
        ensures
            match r {
                Ok(log) => decoded_log(data@) == Some(log@),
                Err(_) => decoded_log(data@) is None,
            },
    {
        let len: usize = data.len();
        let ghost f = |o: OperationView| wire_of(o);
        let wire: Vec<WireOperation> = match codec::deserialize_log(data) {
            Ok(wire) => wire,
            Err(_) => {
                proof {
                    assert forall|ops: Seq<OperationView>| !starts_with_log(data@, ops) by {
                        assert(!codec::log_layout(ops.map_values(f)).is_prefix_of(data@));
                    }
                }
                return Err(InvalidLog {  });
            },
        };
        proof {
            assert forall|ops: Seq<OperationView>| #[trigger]
                starts_with_log(data@, ops) implies codec::wire_views(wire@) == ops.map_values(
                f,
            ) by {
                codec::lemma_log_layout_unique(
                    codec::wire_views(wire@),
                    ops.map_values(f),
                    data@,
                );
            }
        }
        let mut operations: Vec<Operation> = Vec::new();
        let mut i: usize = 0;
        while i < wire.len()
            invariant
                i <= wire@.len(),
                f == (|o: OperationView| wire_of(o)),
                operations@.len() == i,
                views(operations@).map_values(f) == codec::wire_views(wire@).subrange(0, i as int),
                forall|ops: Seq<OperationView>| #[trigger]
                    starts_with_log(data@, ops) ==> codec::wire_views(wire@) == ops.map_values(f),
            decreases wire@.len() - i,
        {
            let ghost before = operations@;
            let (id_len, swapped): (u64, u128) = match &wire[i] {
                Ok((_, _, _, id_len, id)) => (*id_len, *id),
                Err((_, _, id_len, id)) => (*id_len, *id),
            };
            let ghost w = codec::wire_operation_view(wire@[i as int]);
            assert(codec::wire_views(wire@)[i as int] == w);
            if id_len != REPLICA_ID_BYTES {
                proof {
                    assert forall|ops: Seq<OperationView>| !starts_with_log(data@, ops) by {
                        if starts_with_log(data@, ops) {
                            assert(ops.map_values(f)[i as int] == wire_of(ops[i as int]));
                        }
                    }
                }
                return Err(InvalidLog {  });
            }
            let replica_id = ReplicaId { bits: bytes::u128_swap(swapped) };
            let operation: Operation = match &wire[i] {
                Ok((key, value, timestamp, _, _)) => Operation::insert(
                    key.clone(),
                    super::operation::copy_bytes(value.as_slice()),
                    *timestamp,
                    replica_id,
                ),
                Err((key, timestamp, _, _)) => Operation::remove(
                    key.clone(),
                    *timestamp,
                    replica_id,
                ),
            };
            let ghost op = operation@;
            operations.push(operation);
            i = i + 1;
            proof {
                bytes::lemma_u128_swapped(swapped);
                assert(wire_of(op) == w);
                assert(views(operations@) =~= views(before).push(op));
                assert(views(operations@).map_values(f) =~= views(before).map_values(f).push(w));
                assert(codec::wire_views(wire@).subrange(0, i as int) =~= codec::wire_views(
                    wire@,
                ).subrange(0, i - 1).push(w));
            }
        }
        proof {
            assert(codec::wire_views(wire@).subrange(0, i as int) =~= codec::wire_views(wire@));
            assert(starts_with_log(data@, views(operations@)));
            lemma_decoded_log(data@, views(operations@));
        }
        Ok(OperationLog { operations })
    }

    /// Whether one of the first `n` operations is on `key`.
    fn mentioned_before(&self, key: &str, n: usize) -> (found: bool)
        requires
            n <= self@.len(),
        ensures
            found == mentions(self@.subrange(0, n as int), key@),
    {
        let mut i: usize = 0;
        while i < n
            invariant
                i <= n <= self@.len(),
                !mentions(self@.subrange(0, i as int), key@),
            decreases n - i,
        {
            proof {
                assert(self@.subrange(0, i + 1) =~= self@.subrange(0, i as int).push(
                    self@[i as int],
                ));
                lemma_mentions_push(self@.subrange(0, i as int), self@[i as int]);
                assert(self@[i as int] == self.operations@[i as int]@);
            }
            if crate::text::same_text(self.operations[i].key(), key) {
                proof {
                    assert(self@.subrange(0, n as int)[i as int].key == key@);
                }
                return true;
            }
            i = i + 1;
        }
        false
    }
}

/// The counter that an operation leaves.
fn counter_of(operation: Option<&Operation>) -> (counter: Option<i64>)
    ensures
        counter == counter_after(
            match operation {
                Some(o) => Some(o@),
                None => None,
            },
        ),
{
    match operation {
        Some(Operation::Insert { value, .. }) => decode_counter_payload(value.as_slice()),
        Some(Operation::Remove { .. }) => None,
        None => None,
    }
}

/// What a list of keyed operations says.
pub open spec fn entry_views(entries: Seq<(String, Operation)>) -> Seq<OperationView> {
    entries.map_values(|e: (String, Operation)| e.1@)
}

/// `compact` holds the latest operation of each key, oldest version first.
pub open spec fn is_compaction(
    ops: Seq<OperationView>,
    strategy: spec_fn(Seq<char>) -> MergeStrategy,
    compact: Seq<OperationView>,
) -> bool {
    lists(compact, snapshot(ops, strategy)) && by_version(compact)
}

/// The newest entries of a log that is still over the threshold.
pub open spec fn truncated(ops: Seq<OperationView>) -> Seq<OperationView> {
    if ops.len() > AUTO_COMPACT_THRESHOLD {
        ops.subrange(ops.len() - TRUNCATED_LEN, ops.len() as int)
    } else {
        ops
    }
}

/// What a log with the operations `pushed` becomes: itself up to the threshold,
/// and a compaction of it above, truncated if need be.
pub open spec fn appended(
    pushed: Seq<OperationView>,
    strategy: spec_fn(Seq<char>) -> MergeStrategy,
    out: Seq<OperationView>,
) -> bool {
    if pushed.len() <= AUTO_COMPACT_THRESHOLD {
        out == pushed
    } else {
        exists|compact: Seq<OperationView>| #[trigger]
            is_compaction(pushed, strategy, compact) && out == truncated(compact)
    }
}

/// `b` holds what `a` holds, in some order.
pub open spec fn same_operations(a: Seq<OperationView>, b: Seq<OperationView>) -> bool {
    a.to_multiset() == b.to_multiset()
}

/// `sorted` with `op` behind all entries that are not newer.
pub open spec fn insert_sorted(sorted: Seq<OperationView>, op: OperationView) -> Seq<OperationView>
    decreases sorted.len(),
{
    if sorted.len() == 0 || !epoch_max_wins::version_lt(op.version, sorted.last().version) {
        sorted.push(op)
    } else {
        insert_sorted(sorted.drop_last(), op).push(sorted.last())
    }
}

/// The operations by version, those of the same version in their order.
pub open spec fn stable_sorted(ops: Seq<OperationView>) -> Seq<OperationView>
    decreases ops.len(),
{
    if ops.len() == 0 {
        Seq::empty()
    } else {
        insert_sorted(stable_sorted(ops.drop_last()), ops.last())
    }
}

proof fn lemma_insert_sorted(sorted: Seq<OperationView>, op: OperationView)
    requires
        by_version(sorted),
    ensures
        by_version(insert_sorted(sorted, op)),
        insert_sorted(sorted, op).to_multiset() == sorted.to_multiset().insert(op),
        insert_sorted(sorted, op).len() == sorted.len() + 1,
        forall|i: int|
            0 <= i < insert_sorted(sorted, op).len() ==> (#[trigger] insert_sorted(sorted, op)[i])
                == op || sorted.contains(insert_sorted(sorted, op)[i]),
    decreases sorted.len(),
{
    broadcast use vstd::seq_lib::group_to_multiset_ensures;

    let out = insert_sorted(sorted, op);
    if sorted.len() == 0 || !epoch_max_wins::version_lt(op.version, sorted.last().version) {
        assert forall|i: int, j: int| 0 <= i < j < out.len() implies !epoch_max_wins::version_lt(
            (#[trigger] out[j]).version,
            (#[trigger] out[i]).version,
        ) by {
            assert(out[i] == sorted[i]);
            if j < sorted.len() {
                assert(out[j] == sorted[j]);
            } else if i < sorted.len() - 1 {
                assert(!epoch_max_wins::version_lt(
                    sorted[sorted.len() - 1].version,
                    sorted[i].version,
                ));
            }
        }
        assert forall|i: int| 0 <= i < out.len() implies (#[trigger] out[i]) == op
            || sorted.contains(out[i]) by {
            if i < sorted.len() {
                assert(out[i] == sorted[i]);
            }
        }
    } else {
        let rest = sorted.drop_last();
        assert(by_version(rest)) by {
            assert forall|i: int, j: int| 0 <= i < j < rest.len() implies !epoch_max_wins::version_lt(
                (#[trigger] rest[j]).version,
                (#[trigger] rest[i]).version,
            ) by {
                assert(rest[i] == sorted[i] && rest[j] == sorted[j]);
            }
        }
        lemma_insert_sorted(rest, op);
        let lower = insert_sorted(rest, op);
        assert forall|i: int, j: int| 0 <= i < j < out.len() implies !epoch_max_wins::version_lt(
            (#[trigger] out[j]).version,
            (#[trigger] out[i]).version,
        ) by {
            assert(out[i] == lower[i]);
            if j < lower.len() {
                assert(out[j] == lower[j]);
            } else if lower[i] != op {
                assert(rest.contains(lower[i]));
                let k = choose|k: int| 0 <= k < rest.len() && rest[k] == lower[i];
                assert(sorted[k] == lower[i]);
                assert(!epoch_max_wins::version_lt(
                    sorted[sorted.len() - 1].version,
                    sorted[k].version,
                ));
            }
        }
        assert forall|i: int| 0 <= i < out.len() implies (#[trigger] out[i]) == op
            || sorted.contains(out[i]) by {
            if i < lower.len() {
                assert(out[i] == lower[i]);
                if lower[i] != op {
                    let k = choose|k: int| 0 <= k < rest.len() && rest[k] == lower[i];
                    assert(sorted[k] == lower[i]);
                }
            } else {
                assert(sorted[sorted.len() - 1] == out[i]);
            }
        }
        assert(sorted =~= rest.push(sorted.last()));
        assert(out.to_multiset() =~= sorted.to_multiset().insert(op));
    }
}

/// Sorting keeps the operations and puts the oldest version first.
pub proof fn lemma_stable_sorted(ops: Seq<OperationView>)
    ensures
        by_version(stable_sorted(ops)),
        same_operations(ops, stable_sorted(ops)),
        stable_sorted(ops).len() == ops.len(),
    decreases ops.len(),
{
    broadcast use vstd::seq_lib::group_to_multiset_ensures;

    if ops.len() == 0 {
        assert(ops =~= Seq::empty());
    } else {
        lemma_stable_sorted(ops.drop_last());
        lemma_insert_sorted(stable_sorted(ops.drop_last()), ops.last());
        assert(ops =~= ops.drop_last().push(ops.last()));
    }
}

proof fn lemma_insert_sorted_at(sorted: Seq<OperationView>, op: OperationView, at: int)
    requires
        0 <= at <= sorted.len(),
        at > 0 ==> !epoch_max_wins::version_lt(op.version, sorted[at - 1].version),
        forall|k: int|
            at <= k < sorted.len() ==> epoch_max_wins::version_lt(
                op.version,
                (#[trigger] sorted[k]).version,
            ),
    ensures
        insert_sorted(sorted, op) == sorted.insert(at, op),
    decreases sorted.len(),
{
    if at == sorted.len() {
        assert(sorted.insert(at, op) =~= sorted.push(op));
    } else {
        assert(epoch_max_wins::version_lt(op.version, sorted[sorted.len() - 1].version));
        let rest = sorted.drop_last();
        assert forall|k: int| at <= k < rest.len() implies epoch_max_wins::version_lt(
            op.version,
            (#[trigger] rest[k]).version,
        ) by {
            assert(rest[k] == sorted[k]);
        }
        lemma_insert_sorted_at(rest, op, at);
        assert(sorted.insert(at, op) =~= rest.insert(at, op).push(sorted.last()));
    }
}

/// Sorts operations by version, keeping the order of those with the same version.
pub fn sort_by_version(operations: &Vec<Operation>) -> (sorted: Vec<Operation>)
    ensures
        views(sorted@) == stable_sorted(views(operations@)),
{
    let mut sorted: Vec<Operation> = Vec::new();
    let mut i: usize = 0;
    proof {
        assert(views(sorted@) =~= Seq::empty());
        assert(views(operations@).subrange(0, 0) =~= Seq::empty());
    }
    while i < operations.len()
        invariant
            i <= operations@.len(),
            views(sorted@) == stable_sorted(views(operations@).subrange(0, i as int)),
        decreases operations@.len() - i,
    {
        let version: RateLimitVersion = operations[i].version();
        let ghost op = operations@[i as int]@;
        let ghost before = views(sorted@);
        let mut at: usize = sorted.len();
        while at > 0 && version.older_than(&sorted[at - 1].version())
            invariant
                at <= sorted@.len(),
                before == views(sorted@),
                forall|k: int|
                    at <= k < sorted@.len() ==> epoch_max_wins::version_lt(
                        version,
                        (#[trigger] before[k]).version,
                    ),
            decreases at,
        {
            assert(before[at - 1] == sorted@[at - 1]@);
            at = at - 1;
        }
        proof {
            if at > 0 {
                assert(before[at - 1] == sorted@[at - 1]@);
            }
            lemma_insert_sorted_at(before, op, at as int);
            let seen = views(operations@).subrange(0, i + 1);
            assert(seen.drop_last() =~= views(operations@).subrange(0, i as int));
            assert(seen.last() == op);
        }
        sorted.insert(at, operations[i].clone());
        assert(views(sorted@) =~= before.insert(at as int, op));
        i = i + 1;
    }
    assert(views(operations@).subrange(0, i as int) =~= views(operations@));
    sorted
}

/// The order of a list does not matter to what it lists.
proof fn lemma_lists_permuted(
    a: Seq<OperationView>,
    b: Seq<OperationView>,
    m: Map<Seq<char>, OperationView>,
)
    requires
        lists(a, m),
        same_operations(a, b),
    ensures
        lists(b, m),
{
    broadcast use vstd::seq_lib::group_to_multiset_ensures;

    assert forall|o: OperationView| a.contains(o) <==> b.contains(o) by {
        assert(a.to_multiset().count(o) == b.to_multiset().count(o));
    }
    assert(a.no_duplicates()) by {
        assert forall|i: int, j: int|
            0 <= i < a.len() && 0 <= j < a.len() && i != j implies a[i] != a[j] by {
            if i < j {
                assert(a[i].key != a[j].key);
            } else {
                assert(a[j].key != a[i].key);
            }
        }
    }
    a.lemma_multiset_has_no_duplicates();
    assert forall|o: OperationView| b.to_multiset().contains(o) implies b.to_multiset().count(o)
        == 1 by {
        assert(a.to_multiset().contains(o));
    }
    b.lemma_multiset_has_no_duplicates_conv();
    assert forall|i: int| 0 <= i < b.len() implies m.contains_key((#[trigger] b[i]).key)
        && m[b[i].key] == b[i] by {
        assert(b.contains(b[i]));
        let k = choose|k: int| 0 <= k < a.len() && a[k] == b[i];
        assert(m.contains_key(a[k].key));
    }
    assert forall|i: int, j: int| 0 <= i < j < b.len() implies (#[trigger] b[i]).key != (
    #[trigger] b[j]).key by {
        if b[i].key == b[j].key {
            assert(b[i] == m[b[i].key] && b[j] == m[b[j].key]);
        }
    }
    assert forall|key: Seq<char>| #[trigger] m.contains_key(key) implies mentions(b, key) by {
        assert(mentions(a, key));
        let k = choose|k: int| 0 <= k < a.len() && (#[trigger] a[k]).key == key;
        assert(a.contains(a[k]));
        let i = choose|i: int| 0 <= i < b.len() && b[i] == a[k];
        assert(b[i].key == key);
    }
}

/// The snapshot depends on the strategy of the keys that occur, and on no other.
proof fn lemma_snapshot_congruent(
    ops: Seq<OperationView>,
    s: spec_fn(Seq<char>) -> MergeStrategy,
    t: spec_fn(Seq<char>) -> MergeStrategy,
)
    requires
        forall|i: int| 0 <= i < ops.len() ==> s((#[trigger] ops[i]).key) == t(ops[i].key),
    ensures
        snapshot(ops, s) == snapshot(ops, t),
{
    assert forall|key: Seq<char>| mentions(ops, key) implies s(key) == t(key) by {
        let i = choose|i: int| 0 <= i < ops.len() && (#[trigger] ops[i]).key == key;
        assert(s(ops[i].key) == t(ops[i].key));
    }
    assert(snapshot(ops, s) =~= snapshot(ops, t));
}

// ---------------------------------------------------------------------------
// Merging logs
// ---------------------------------------------------------------------------
/// The versions of the operations.
pub open spec fn versions(ops: Seq<OperationView>) -> Seq<RateLimitVersion> {
    ops.map_values(|o: OperationView| o.version)
}

/// Some operation has the version `id`.
pub open spec fn known(ops: Seq<OperationView>, id: RateLimitVersion) -> bool {
    exists|i: int| 0 <= i < ops.len() && (#[trigger] ops[i]).version == id
}

/// The last place at which `id` stands.
pub open spec fn last_index(ids: Seq<RateLimitVersion>, id: RateLimitVersion) -> Option<int>
    decreases ids.len(),
{
    if ids.len() == 0 {
        None
    } else if ids.last() == id {
        Some(ids.len() - 1)
    } else {
        last_index(ids.drop_last(), id)
    }
}

/// The entries of a log and the versions that they are known under, after `op`
/// came in. A folded entry stays known under the version that it had.
pub open spec fn merge_entry(
    log: (Seq<OperationView>, Seq<RateLimitVersion>),
    op: OperationView,
    strategy: MergeStrategy,
) -> (Seq<OperationView>, Seq<RateLimitVersion>) {
    let (ops, ids) = log;
    match last_index(ids, op.version) {
        None => (ops.push(op), ids.push(op.version)),
        Some(at) => match strategy {
            MergeStrategy::LastWriterWins => log,
            MergeStrategy::EpochMaxWins => match epoch_max_wins::compacted(seq![ops[at], op]) {
                Some(folded) => (ops.update(at, folded), ids),
                None => log,
            },
        },
    }
}

/// The log `base` after the operations of `remote` came in, each under its
/// strategy.
pub open spec fn merged_log(
    base: Seq<OperationView>,
    remote: Seq<OperationView>,
    strategies: Seq<MergeStrategy>,
) -> (Seq<OperationView>, Seq<RateLimitVersion>)
    decreases remote.len(),
{
    if remote.len() == 0 {
        (base, versions(base))
    } else {
        merge_entry(
            merged_log(base, remote.drop_last(), strategies.drop_last()),
            remote.last(),
            strategies.last(),
        )
    }
}

/// The strategy matters to remote operation `i`: its version is known already.
pub open spec fn consulted(
    base: Seq<OperationView>,
    remote: Seq<OperationView>,
    i: int,
) -> bool {
    known(base, remote[i].version) || known(remote.subrange(0, i), remote[i].version)
}

/// Where the strategy matters, it is what `f` may answer.
pub open spec fn consulted_for<F: Fn(&str) -> MergeStrategy>(
    f: F,
    base: Seq<OperationView>,
    remote: Seq<OperationView>,
    strategies: Seq<MergeStrategy>,
) -> bool {
    &&& strategies.len() == remote.len()
    &&& forall|i: int|
        0 <= i < remote.len() && #[trigger] consulted(base, remote, i) ==> may_choose(
            f,
            remote[i].key,
            strategies[i],
        )
}

pub proof fn lemma_last_index(ids: Seq<RateLimitVersion>, id: RateLimitVersion)
    ensures
        match last_index(ids, id) {
            Some(at) => 0 <= at < ids.len() && ids[at] == id && forall|k: int|
                at < k < ids.len() ==> ids[k] != id,
            None => !ids.contains(id),
        },
    decreases ids.len(),
{
    if ids.len() > 0 {
        let rest = ids.drop_last();
        lemma_last_index(rest, id);
        if ids.last() != id {
            if let Some(at) = last_index(rest, id) {
                assert(ids[at] == rest[at]);
                assert forall|k: int| at < k < ids.len() implies ids[k] != id by {
                    if k < rest.len() {
                        assert(ids[k] == rest[k]);
                    }
                }
            } else if ids.contains(id) {
                let k = choose|k: int| 0 <= k < ids.len() && ids[k] == id;
                assert(rest[k] == id);
            }
        }
    }
}

/// A version is known to the merged log if it is known to one of the two logs.
pub proof fn lemma_merged_ids(
    base: Seq<OperationView>,
    remote: Seq<OperationView>,
    strategies: Seq<MergeStrategy>,
)
    requires
        strategies.len() == remote.len(),
    ensures
        merged_log(base, remote, strategies).0.len() == merged_log(
            base,
            remote,
            strategies,
        ).1.len(),
        forall|id: RateLimitVersion| #[trigger]
            merged_log(base, remote, strategies).1.contains(id) <==> known(base, id) || known(
                remote,
                id,
            ),
    decreases remote.len(),
{
    let log = merged_log(base, remote, strategies);
    if remote.len() == 0 {
        assert forall|id: RateLimitVersion| #[trigger] log.1.contains(id) <==> known(base, id)
            || known(remote, id) by {
            if log.1.contains(id) {
                let k = choose|k: int| 0 <= k < log.1.len() && log.1[k] == id;
                assert(base[k].version == id);
            }
            if known(base, id) {
                let k = choose|k: int| 0 <= k < base.len() && (#[trigger] base[k]).version == id;
                assert(log.1[k] == id);
            }
        }
    } else {
        let (rest, op) = (remote.drop_last(), remote.last());
        lemma_merged_ids(base, rest, strategies.drop_last());
        lemma_known_push(rest, op);
        assert(remote =~= rest.push(op));
        let before = merged_log(base, rest, strategies.drop_last());
        lemma_last_index(before.1, op.version);
        assert forall|id: RateLimitVersion| #[trigger] log.1.contains(id) <==> known(base, id)
            || known(remote, id) by {
            assert(before.1.contains(id) <==> known(base, id) || known(rest, id));
            if last_index(before.1, op.version) is None {
                let ids = before.1.push(op.version);
                if before.1.contains(id) {
                    let k = choose|k: int| 0 <= k < before.1.len() && before.1[k] == id;
                    assert(ids[k] == id);
                }
                assert(ids[before.1.len() as int] == op.version);
                if ids.contains(id) {
                    let k = choose|k: int| 0 <= k < ids.len() && ids[k] == id;
                    assert(k < before.1.len() ==> before.1[k] == id);
                }
            } else {
                assert(before.1[last_index(before.1, op.version)->0] == op.version);
                assert(before.1.contains(op.version));
            }
        }
    }
}

/// The same strategy `n` times.
pub open spec fn repeated(strategy: MergeStrategy, n: nat) -> Seq<MergeStrategy> {
    Seq::new(n, |i: int| strategy)
}

/// Strategies that agree where they matter merge logs alike.
proof fn lemma_merged_congruent(
    base: Seq<OperationView>,
    remote: Seq<OperationView>,
    s: Seq<MergeStrategy>,
    t: Seq<MergeStrategy>,
)
    requires
        s.len() == remote.len(),
        t.len() == remote.len(),
        forall|i: int|
            0 <= i < remote.len() && #[trigger] consulted(base, remote, i) ==> s[i] == t[i],
    ensures
        merged_log(base, remote, s) == merged_log(base, remote, t),
    decreases remote.len(),
{
    if remote.len() > 0 {
        let rest = remote.drop_last();
        let n = remote.len() - 1;
        assert forall|i: int| 0 <= i < rest.len() && #[trigger] consulted(base, rest, i) implies s[i]
            == t[i] by {
            assert(rest.subrange(0, i) =~= remote.subrange(0, i));
            assert(consulted(base, remote, i));
        }
        lemma_merged_congruent(base, rest, s.drop_last(), t.drop_last());
        lemma_merged_ids(base, rest, s.drop_last());
        let ids = merged_log(base, rest, s.drop_last()).1;
        lemma_last_index(ids, remote.last().version);
        if last_index(ids, remote.last().version) is Some {
            assert(ids.contains(remote.last().version));
            assert(remote.subrange(0, n) =~= rest);
            assert(consulted(base, remote, n));
        }
    }
}

proof fn lemma_consulted_push<F: Fn(&str) -> MergeStrategy>(
    f: F,
    base: Seq<OperationView>,
    remote: Seq<OperationView>,
    strategies: Seq<MergeStrategy>,
    op: OperationView,
    strategy: MergeStrategy,
)
    requires
        consulted_for(f, base, remote, strategies),
        known(base, op.version) || known(remote, op.version) ==> may_choose(f, op.key, strategy),
    ensures
        consulted_for(f, base, remote.push(op), strategies.push(strategy)),
{
    let (more, longer) = (remote.push(op), strategies.push(strategy));
    assert forall|x: int|
        0 <= x < more.len() && #[trigger] consulted(base, more, x) implies may_choose(
        f,
        more[x].key,
        longer[x],
    ) by {
        if x < remote.len() {
            assert(more.subrange(0, x) =~= remote.subrange(0, x));
            assert(consulted(base, remote, x));
        } else {
            assert(more.subrange(0, x) =~= remote);
        }
    }
}

proof fn lemma_known_push(ops: Seq<OperationView>, op: OperationView)
    ensures
        forall|id: RateLimitVersion| #[trigger]
            known(ops.push(op), id) <==> known(ops, id) || op.version == id,
{
    assert forall|id: RateLimitVersion| #[trigger]
        known(ops.push(op), id) <==> known(ops, id) || op.version == id by {
        if known(ops, id) {
            let i = choose|i: int| 0 <= i < ops.len() && (#[trigger] ops[i]).version == id;
            assert(ops.push(op)[i].version == id);
        }
        if op.version == id {
            assert(ops.push(op)[ops.len() as int].version == id);
        }
        if known(ops.push(op), id) {
            let i = choose|i: int|
                0 <= i < ops.push(op).len() && (#[trigger] ops.push(op)[i]).version == id;
            if i < ops.len() {
                assert(ops[i].version == id);
            }
        }
    }
}

/// The last place at which `id` stands.
fn find_last(ids: &Vec<RateLimitVersion>, id: RateLimitVersion) -> (at: Option<usize>)
    ensures
        match at {
            Some(k) => last_index(ids@, id) == Some(k as int) && k < ids@.len(),
            None => last_index(ids@, id) is None,
        },
{
    let mut k: usize = ids.len();
    assert(ids@.subrange(0, k as int) =~= ids@);
    while k > 0
        invariant
            k <= ids@.len(),
            last_index(ids@, id) == last_index(ids@.subrange(0, k as int), id),
        decreases k,
    {
        proof {
            assert(ids@.subrange(0, k as int).drop_last() =~= ids@.subrange(0, k - 1));
        }
        k = k - 1;
        if ids[k] == id {
            return Some(k);
        }
    }
    None
}

// ---------------------------------------------------------------------------
// The binary layout of a log
// ---------------------------------------------------------------------------
/// Data that does not start with an operation log.
#[derive(Debug, Clone, Copy, PartialEq, Eq, Structural)]
pub struct InvalidLog {}

/// An operation as it is laid out.
pub open spec fn wire_of(o: OperationView) -> WireOperationView {
    WireOperationView {
        key: o.key,
        value: o.value,
        timestamp: o.version.timestamp,
        id_len: REPLICA_ID_BYTES,
        id: bytes::u128_swapped(o.version.replica_id.bits),
    }
}

/// The encoded form of a log.
pub open spec fn encoded_log(ops: Seq<OperationView>) -> Seq<u8> {
    codec::log_layout(ops.map_values(|o: OperationView| wire_of(o)))
}

/// `data` starts with the log `ops`.
pub open spec fn starts_with_log(data: Seq<u8>, ops: Seq<OperationView>) -> bool {
    encoded_log(ops).is_prefix_of(data)
}

/// The log that `data` starts with, if there is one.
pub open spec fn decoded_log(data: Seq<u8>) -> Option<Seq<OperationView>> {
    if exists|ops: Seq<OperationView>| starts_with_log(data, ops) {
        Some(choose|ops: Seq<OperationView>| starts_with_log(data, ops))
    } else {
        None
    }
}

proof fn lemma_decoded_log(data: Seq<u8>, ops: Seq<OperationView>)
    requires
        starts_with_log(data, ops),
        data.len() <= usize::MAX,
    ensures
        decoded_log(data) == Some(ops),
{
    let f = |o: OperationView| wire_of(o);
    let found = choose|found: Seq<OperationView>| starts_with_log(data, found);
    codec::lemma_log_layout_unique(ops.map_values(f), found.map_values(f), data);
    assert(ops.len() == ops.map_values(f).len() && found.len() == found.map_values(f).len());
    assert forall|i: int| 0 <= i < ops.len() implies ops[i] == found[i] by {
        assert(ops.map_values(f)[i] == wire_of(ops[i]));
        assert(found.map_values(f)[i] == wire_of(found[i]));
        bytes::lemma_u128_swapped(ops[i].version.replica_id.bits);
        bytes::lemma_u128_swapped(found[i].version.replica_id.bits);
    }
    assert(ops =~= found);
}

/// Reading an encoded log gives back the log, whatever bytes follow it.
pub proof fn law_log_round_trip(ops: Seq<OperationView>, rest: Seq<u8>)
    requires
        encoded_log(ops).len() + rest.len() <= usize::MAX,
    ensures
        decoded_log(encoded_log(ops) + rest) == Some(ops),
{
    let data = encoded_log(ops) + rest;
    assert(encoded_log(ops) =~= data.subrange(0, encoded_log(ops).len() as int));
    lemma_decoded_log(data, ops);
}

/// A copy of a list of operations.
pub fn copy_operations(operations: &[Operation]) -> (copy: Vec<Operation>)
    ensures
        views(copy@) == views(operations@),
{
    let ghost all = views(operations@);
    let mut copy: Vec<Operation> = Vec::new();
    let mut i: usize = 0;
    while i < operations.len()
        invariant
            i <= operations@.len(),
            all == views(operations@),
            views(copy@) == all.subrange(0, i as int),
        decreases operations@.len() - i,
    {
        let ghost before = copy@;
        copy.push(operations[i].clone());
        i = i + 1;
        proof {
            assert(views(copy@) =~= views(before).push(all[i - 1]));
            assert(all.subrange(0, i as int) =~= all.subrange(0, i - 1).push(all[i - 1]));
        }
    }
    assert(all.subrange(0, i as int) =~= all);
    copy
}

impl Clone for OperationLog {
    fn clone(&self) -> (log: OperationLog)
        ensures
            log@ == self@,
    {
        OperationLog { operations: copy_operations(self.operations.as_slice()) }
    }
}

impl Default for OperationLog {
    fn default() -> (log: OperationLog)
        ensures
            log@.len() == 0,
    {
        OperationLog::new()
    }
}

proof fn lemma_mentions_push(ops: Seq<OperationView>, op: OperationView)
    ensures
        forall|key: Seq<char>| #[trigger]
            mentions(ops.push(op), key) <==> mentions(ops, key) || op.key == key,
{
    assert forall|key: Seq<char>| #[trigger]
        mentions(ops.push(op), key) <==> mentions(ops, key) || op.key == key by {
        if mentions(ops, key) {
            let i = choose|i: int| 0 <= i < ops.len() && (#[trigger] ops[i]).key == key;
            assert(ops.push(op)[i].key == key);
        }
        if op.key == key {
            assert(ops.push(op)[ops.len() as int].key == key);
        }
        if mentions(ops.push(op), key) {
            let i = choose|i: int|
                0 <= i < ops.push(op).len() && (#[trigger] ops.push(op)[i]).key == key;
            if i < ops.len() {
                assert(ops[i].key == key);
            }
        }
    }
}

} // verus!
