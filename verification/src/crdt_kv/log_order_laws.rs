//! What an operation log keeps, told in times, replica ids and counts of entries.

use vstd::prelude::*;

use super::engine::outcome_laws;
use super::epoch_laws;
use super::epoch_max_wins;
use super::epoch_max_wins::RateLimitVersion;
use super::merge_strategy::MergeStrategy;
use super::operation::OperationView;
use super::operation_log;
use crate::bytes;

verus! {

/// Entry `i` is the newest on its key: no entry on the key is newer, and none of the same
/// version comes after it.
pub open spec fn newest_at(ops: Seq<OperationView>, i: int) -> bool {
    &&& 0 <= i < ops.len()
    &&& forall|j: int|
        0 <= j < ops.len() && (#[trigger] ops[j]).key == ops[i].key ==> !outcome_laws::is_newer(
            ops[j].version,
            ops[i].version,
        ) && (i < j ==> ops[j].version != ops[i].version)
}

proof fn lemma_newest_on_key(ops: Seq<OperationView>, key: Seq<char>) -> (i: int)
    requires
        operation_log::mentions(ops, key),
    ensures
        newest_at(ops, i),
        ops[i].key == key,
        operation_log::newest_operation(operation_log::on_key(ops, key)) == Some(ops[i]),
    decreases ops.len(),
{
    let rest = ops.drop_last();
    let last = ops.last();
    let n = ops.len() - 1;
    operation_log::lemma_on_key_push(rest, last, key);
    assert(ops =~= rest.push(last));
    let group = operation_log::on_key(rest, key);
    assert(group.push(last).drop_last() =~= group);
    operation_log::lemma_on_key(rest, key);
    if operation_log::mentions(rest, key) {
        let k = lemma_newest_on_key(rest, key);
        assert(ops[k] == rest[k]);
        let i = if last.key == key && !outcome_laws::is_newer(rest[k].version, last.version) {
            n
        } else {
            k
        };
        assert forall|j: int| 0 <= j < ops.len() && (#[trigger] ops[j]).key == ops[i].key implies !outcome_laws::is_newer(
            ops[j].version,
            ops[i].version,
        ) && (i < j ==> ops[j].version != ops[i].version) by {
            if j < n {
                assert(rest[j] == ops[j]);
                assert(!outcome_laws::is_newer(rest[j].version, rest[k].version));
            }
        }
        i
    } else {
        let m = choose|m: int| 0 <= m < ops.len() && (#[trigger] ops[m]).key == key;
        if m < n {
            assert(rest[m].key == key);
        }
        assert forall|j: int| 0 <= j < ops.len() && (#[trigger] ops[j]).key == ops[n].key implies !outcome_laws::is_newer(
            ops[j].version,
            ops[n].version,
        ) && (n < j ==> ops[j].version != ops[n].version) by {
            if j < n {
                assert(rest[j].key == key);
            }
        }
        assert(group =~= Seq::empty());
        n
    }
}

/// Where the last writer wins, a snapshot holds exactly the keys that the log mentions, and
/// of each the newest entry on it: no other entry on the key has a later time, nor the same
/// time and a greater replica id, and of entries of one version it is the last.
pub proof fn law_snapshot_shows_newest(ops: Seq<OperationView>, key: Seq<char>)
    ensures
        ({
            let m = operation_log::snapshot(
                ops,
                operation_log::always(MergeStrategy::LastWriterWins),
            );
            &&& m.contains_key(key) <==> exists|k: int|
                0 <= k < ops.len() && (#[trigger] ops[k]).key == key
            &&& m.contains_key(key) ==> exists|i: int| #[trigger]
                newest_at(ops, i) && ops[i].key == key && m[key] == ops[i]
        }),
{
    if operation_log::mentions(ops, key) {
        let i = lemma_newest_on_key(ops, key);
        assert(newest_at(ops, i));
    }
}

/// Where the last writer wins, a compacted log mentions each key that the log mentions
/// once, with the newest entry on it, and is ordered by time and then by replica id.
pub proof fn law_compaction_keeps_newest(
    ops: Seq<OperationView>,
    compact: Seq<OperationView>,
    key: Seq<char>,
)
    requires
        operation_log::is_compaction(
            ops,
            operation_log::always(MergeStrategy::LastWriterWins),
            compact,
        ),
    ensures
        operation_log::mentions(compact, key) <==> operation_log::mentions(ops, key),
        forall|i: int|
            0 <= i < compact.len() && (#[trigger] compact[i]).key == key ==> exists|k: int| #[trigger]
                newest_at(ops, k) && compact[i] == ops[k],
        forall|i: int, j: int|
            0 <= i < j < compact.len() ==> !outcome_laws::is_newer(
                (#[trigger] compact[i]).version,
                (#[trigger] compact[j]).version,
            ) && compact[i].key != compact[j].key,
{
    let m = operation_log::snapshot(ops, operation_log::always(MergeStrategy::LastWriterWins));
    law_snapshot_shows_newest(ops, key);
    if operation_log::mentions(compact, key) {
        let i = choose|i: int| 0 <= i < compact.len() && (#[trigger] compact[i]).key == key;
        assert(m.contains_key(compact[i].key));
    }
    if operation_log::mentions(ops, key) {
        let k = choose|k: int| 0 <= k < ops.len() && (#[trigger] ops[k]).key == key;
        assert(m.contains_key(key));
    }
    assert forall|i: int| 0 <= i < compact.len() && (#[trigger] compact[i]).key == key implies exists|
        k: int,
    | #[trigger] newest_at(ops, k) && compact[i] == ops[k] by {
        assert(m[key] == compact[i]);
    }
}

/// Up to 10,000 entries an append keeps the whole log and puts the new entry last. Above
/// that the log is compacted; if it still has more than 10,000 entries, the last 7,500 of
/// the compacted log stay, so that no entry that goes is newer than one that stays.
pub proof fn law_append_keeps_the_log(
    pushed: Seq<OperationView>,
    strategy: spec_fn(Seq<char>) -> MergeStrategy,
    out: Seq<OperationView>,
)
    requires
        operation_log::appended(pushed, strategy, out),
    ensures
        pushed.len() <= 10_000 ==> out == pushed,
        pushed.len() > 10_000 ==> exists|compact: Seq<OperationView>| {
            &&& #[trigger] operation_log::is_compaction(pushed, strategy, compact)
            &&& compact.len() <= 10_000 ==> out == compact
            &&& compact.len() > 10_000 ==> out.len() == 7_500 && out == compact.skip(
                compact.len() - 7_500,
            ) && forall|i: int, j: int|
                0 <= i < compact.len() - 7_500 && 0 <= j < 7_500 ==> !outcome_laws::is_newer(
                    (#[trigger] compact[i]).version,
                    (#[trigger] out[j]).version,
                )
        },
{
    if pushed.len() > 10_000 {
        let compact = choose|compact: Seq<OperationView>| #[trigger]
            operation_log::is_compaction(pushed, strategy, compact) && out
                == operation_log::truncated(compact);
        if compact.len() > 10_000 {
            assert(out =~= compact.skip(compact.len() - 7_500));
            assert forall|i: int, j: int|
                0 <= i < compact.len() - 7_500 && 0 <= j < 7_500 implies !outcome_laws::is_newer(
                (#[trigger] compact[i]).version,
                (#[trigger] out[j]).version,
            ) by {
                assert(out[j] == compact[compact.len() - 7_500 + j]);
            }
        }
    }
}

/// The entries of one version, in order.
pub open spec fn of_version(ops: Seq<OperationView>, v: RateLimitVersion) -> Seq<OperationView> {
    ops.filter(|o: OperationView| o.version == v)
}

proof fn lemma_of_version_push(ops: Seq<OperationView>, op: OperationView, v: RateLimitVersion)
    ensures
        of_version(ops.push(op), v) == if op.version == v {
            of_version(ops, v).push(op)
        } else {
            of_version(ops, v)
        },
{
    reveal(Seq::filter);
    assert(ops.push(op).drop_last() =~= ops);
}

proof fn lemma_insert_is_stable(
    sorted: Seq<OperationView>,
    op: OperationView,
    v: RateLimitVersion,
)
    ensures
        of_version(operation_log::insert_sorted(sorted, op), v) == of_version(sorted.push(op), v),
    decreases sorted.len(),
{
    if sorted.len() > 0 && epoch_max_wins::version_lt(op.version, sorted.last().version) {
        let rest = sorted.drop_last();
        lemma_insert_is_stable(rest, op, v);
        lemma_of_version_push(operation_log::insert_sorted(rest, op), sorted.last(), v);
        lemma_of_version_push(rest, op, v);
        lemma_of_version_push(rest, sorted.last(), v);
        assert(sorted =~= rest.push(sorted.last()));
        lemma_of_version_push(sorted, op, v);
    }
}

/// Sorting puts no operation before an older one, keeps the operations, and keeps the order
/// of those that share a version.
pub proof fn law_sorting_is_stable(ops: Seq<OperationView>, v: RateLimitVersion)
    ensures
        operation_log::stable_sorted(ops).to_multiset() == ops.to_multiset(),
        forall|i: int, j: int|
            0 <= i < j < operation_log::stable_sorted(ops).len() ==> !outcome_laws::is_newer(
                (#[trigger] operation_log::stable_sorted(ops)[i]).version,
                (#[trigger] operation_log::stable_sorted(ops)[j]).version,
            ),
        of_version(operation_log::stable_sorted(ops), v) == of_version(ops, v),
    decreases ops.len(),
{
    operation_log::lemma_stable_sorted(ops);
    if ops.len() == 0 {
        assert(ops =~= Seq::empty());
    } else {
        let rest = ops.drop_last();
        law_sorting_is_stable(rest, v);
        let sorted = operation_log::stable_sorted(rest);
        lemma_insert_is_stable(sorted, ops.last(), v);
        lemma_of_version_push(sorted, ops.last(), v);
        lemma_of_version_push(rest, ops.last(), v);
        assert(ops =~= rest.push(ops.last()));
    }
}

/// An incoming operation whose time and replica no entry has is added behind the log. Where
/// the last writer wins, any other is dropped.
pub proof fn law_merge_adds_what_is_new(
    base: Seq<OperationView>,
    op: OperationView,
    strategy: MergeStrategy,
)
    ensures
        ({
            let merged = operation_log::merged_log(base, seq![op], seq![strategy]).0;
            let is_new = forall|i: int|
                0 <= i < base.len() ==> (#[trigger] base[i]).version.timestamp
                    != op.version.timestamp || base[i].version.replica_id.bits
                    != op.version.replica_id.bits;
            &&& is_new ==> merged == base.push(op)
            &&& !is_new && strategy is LastWriterWins ==> merged == base
            &&& !is_new ==> merged.len() == base.len()
        }),
{
    let (one, s) = (seq![op], seq![strategy]);
    assert(one.drop_last() =~= Seq::empty());
    assert(s.drop_last() =~= Seq::empty());
    reveal_with_fuel(operation_log::merged_log, 2);
    let ids = operation_log::versions(base);
    operation_log::lemma_last_index(ids, op.version);
    if operation_log::last_index(ids, op.version) is Some {
        let at = operation_log::last_index(ids, op.version)->0;
        assert(base[at].version == op.version);
    } else {
        assert forall|i: int| 0 <= i < base.len() implies (#[trigger] base[i]).version.timestamp
            != op.version.timestamp || base[i].version.replica_id.bits
            != op.version.replica_id.bits by {
            assert(ids[i] == base[i].version);
            assert(ids.contains(ids[i]));
        }
    }
}

/// Where shards are merged, an incoming operation that shares its time and replica with
/// entries is folded into the last of them: no other entry changes, and the folded entry
/// stands for the merge of both, as long as that respects the cap on encoded shards.
pub proof fn law_merge_folds_what_is_known(
    base: Seq<OperationView>,
    op: OperationView,
    at: int,
)
    requires
        0 <= at < base.len(),
        base[at].version == op.version,
        forall|i: int| at < i < base.len() ==> (#[trigger] base[i]).version != op.version,
        epoch_max_wins::operations_state(seq![base[at], op]) matches Some(s)
            && epoch_max_wins::encoded_shard(s).len() <= epoch_max_wins::MAX_SHARD_BYTES,
    ensures
        ({
            let merged = operation_log::merged_log(
                base,
                seq![op],
                seq![MergeStrategy::EpochMaxWins],
            ).0;
            &&& merged.len() == base.len()
            &&& forall|i: int| 0 <= i < base.len() && i != at ==> #[trigger] merged[i] == base[i]
            &&& merged[at].key == base[at].key
            &&& epoch_max_wins::operations_state(seq![merged[at]])
                == epoch_max_wins::operations_state(seq![base[at], op])
        }),
{
    let (one, s) = (seq![op], seq![MergeStrategy::EpochMaxWins]);
    assert(one.drop_last() =~= Seq::empty());
    assert(s.drop_last() =~= Seq::empty());
    reveal_with_fuel(operation_log::merged_log, 2);
    let ids = operation_log::versions(base);
    operation_log::lemma_last_index(ids, op.version);
    assert(ids[at] == op.version);
    assert(ids.contains(op.version));
    let k = operation_log::last_index(ids, op.version)->0;
    assert(base[k].version == op.version);
    assert(k == at);
    let pair = seq![base[at], op];
    epoch_laws::law_compaction_composes(pair, Seq::empty());
    let folded = epoch_max_wins::compacted(pair)->0;
    assert(seq![folded] + Seq::empty() =~= seq![folded]);
    assert(pair + Seq::empty() =~= pair);
    assert(pair[0] == base[at]);
}

/// A counter is the signed number in the first eight bytes of a value, least significant
/// first; a shorter value holds none, and neither does a removal.
pub proof fn law_counter_is_read(key: Seq<char>, value: Seq<u8>, version: RateLimitVersion)
    ensures
        ({
            let written = OperationView { key, value: Some(value), version };
            let removed = OperationView { key, value: None, version };
            &&& value.len() < 8 ==> operation_log::counter_after(Some(written)) is None
            &&& value.len() >= 8 ==> {
                &&& operation_log::counter_after(Some(written)) matches Some(x)
                &&& bytes::le_number(value, 0) == if x >= 0 {
                    x as int
                } else {
                    x + 0x1_0000_0000_0000_0000
                }
            }
            &&& operation_log::counter_after(Some(removed)) is None
            &&& operation_log::counter_after(None) is None
        }),
{
    if value.len() >= 8 {
        let back = value.subrange(0, 8).reverse();
        let u = bytes::u64_of_be(back);
        bytes::law_read_bytes_add_up(back);
        bytes::lemma_i64_bits(0, u);
        bytes::law_signed_bits(u as i64);
        assert(bytes::be_number(back, 0) == bytes::le_number(value, 0));
    }
}

/// Compacting up to a time drops exactly the entries of that time and earlier ones, and
/// keeps the others in order.
pub proof fn law_compacting_up_to_drops_the_past(
    ops: Seq<OperationView>,
    watermark: u64,
    op: OperationView,
)
    ensures
        op.version.timestamp <= watermark ==> operation_log::after_time(ops.push(op), watermark)
            == operation_log::after_time(ops, watermark),
        op.version.timestamp > watermark ==> operation_log::after_time(ops.push(op), watermark)
            == operation_log::after_time(ops, watermark).push(op),
        operation_log::after_time(Seq::empty(), watermark).len() == 0,
{
    reveal(Seq::filter);
    assert(ops.push(op).drop_last() =~= ops);
}

/// The newest entry of a log, whatever its key, is one of its entries; no entry has a later
/// time, nor the same time and a greater replica id, and of entries of one version it is
/// the last.
pub proof fn law_newest_entry(ops: Seq<OperationView>)
    ensures
        operation_log::newest_operation(ops) is None <==> ops.len() == 0,
        ops.len() > 0 ==> exists|i: int| {
            &&& 0 <= i < ops.len()
            &&& operation_log::newest_operation(ops) == Some(#[trigger] ops[i])
            &&& forall|j: int|
                0 <= j < ops.len() ==> !outcome_laws::is_newer(
                    (#[trigger] ops[j]).version,
                    ops[i].version,
                ) && (i < j ==> ops[j].version != ops[i].version)
        },
    decreases ops.len(),
{
    if ops.len() > 0 {
        let rest = ops.drop_last();
        let n = ops.len() - 1;
        law_newest_entry(rest);
        assert(ops[n] == ops.last());
        if rest.len() > 0 {
            let k = choose|k: int| {
                &&& 0 <= k < rest.len()
                &&& operation_log::newest_operation(rest) == Some(#[trigger] rest[k])
                &&& forall|j: int|
                    0 <= j < rest.len() ==> !outcome_laws::is_newer(
                        (#[trigger] rest[j]).version,
                        rest[k].version,
                    ) && (k < j ==> rest[j].version != rest[k].version)
            };
            assert(ops[k] == rest[k]);
            let i = if outcome_laws::is_newer(rest[k].version, ops[n].version) {
                k
            } else {
                n
            };
            assert(operation_log::newest_operation(ops) == Some(ops[i]));
            assert forall|j: int| 0 <= j < ops.len() implies !outcome_laws::is_newer(
                (#[trigger] ops[j]).version,
                ops[i].version,
            ) && (i < j ==> ops[j].version != ops[i].version) by {
                if j < n {
                    assert(rest[j] == ops[j]);
                    assert(!outcome_laws::is_newer(rest[j].version, rest[k].version));
                }
            }
        } else {
            assert(operation_log::newest_operation(ops) == Some(ops[n]));
        }
    }
}

/// Where shards are merged, a snapshot holds a key exactly where the log has an operation
/// on it that is not malformed, and holds of it one operation that stands for what the
/// operations on the key stand for, as long as that respects the cap on encoded shards.
pub proof fn law_snapshot_merges_shards(ops: Seq<OperationView>, key: Seq<char>)
    ensures
        ({
            let m = operation_log::snapshot(
                ops,
                operation_log::always(MergeStrategy::EpochMaxWins),
            );
            let group = operation_log::on_key(ops, key);
            &&& m.contains_key(key) <==> exists|i: int|
                0 <= i < ops.len() && (#[trigger] ops[i]).key == key
                    && epoch_max_wins::operation_state(ops[i]) is Some
            &&& m.contains_key(key) ==> m[key].key == key
            &&& m.contains_key(key) ==> (epoch_max_wins::operations_state(group) matches Some(s)
                && (epoch_max_wins::encoded_shard(s).len() <= 65536
                ==> epoch_max_wins::operation_state(m[key]) == Some(s)))
        }),
{
    let group = operation_log::on_key(ops, key);
    operation_log::lemma_on_key(ops, key);
    if group.len() > 0 {
        epoch_laws::law_compacted_stands_for_list(group);
        if epoch_max_wins::compacted(group) is Some {
            let i = choose|i: int|
                0 <= i < group.len() && epoch_max_wins::operation_state(
                    #[trigger] group[i],
                ) is Some;
            assert(group.contains(group[i]));
            let k = choose|k: int| 0 <= k < ops.len() && ops[k] == group[i];
            assert(ops[k].key == key);
            assert(group[0].key == key);
        }
    }
    if exists|i: int|
        0 <= i < ops.len() && (#[trigger] ops[i]).key == key && epoch_max_wins::operation_state(
            ops[i],
        ) is Some {
        let i = choose|i: int|
            0 <= i < ops.len() && (#[trigger] ops[i]).key == key
                && epoch_max_wins::operation_state(ops[i]) is Some;
        assert(ops.contains(ops[i]));
        assert(group.contains(ops[i]));
        let k = choose|k: int| 0 <= k < group.len() && group[k] == ops[i];
        assert(epoch_max_wins::operation_state(group[k]) is Some);
    }
}

} // verus!
