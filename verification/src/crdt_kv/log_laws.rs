//! What compacting and merging operation logs guarantees.

use vstd::prelude::*;

use super::epoch_laws;
use super::epoch_max_wins;
use super::epoch_max_wins::RateLimitVersion;
use super::merge_strategy::MergeStrategy;
use super::operation::OperationView;
use super::operation_log;

verus! {

pub proof fn lemma_on_key_of_list(
    list: Seq<OperationView>,
    m: Map<Seq<char>, OperationView>,
    key: Seq<char>,
)
    requires
        operation_log::lists(list, m),
        m.contains_key(key),
    ensures
        operation_log::on_key(list, key) == seq![m[key]],
{
    let group = operation_log::on_key(list, key);
    operation_log::lemma_on_key(list, key);
    assert(operation_log::mentions(list, key));
    assert(group.contains(group[0]));
    let i = choose|i: int| 0 <= i < list.len() && list[i] == group[0];
    assert(list[i].key == key);
    assert(group[0] == m[key]);
    lemma_on_key_once(list, key);
    assert(group =~= seq![m[key]]);
}

/// Where keys occur once, at most one operation is on a key.
proof fn lemma_on_key_once(list: Seq<OperationView>, key: Seq<char>)
    requires
        forall|i: int, j: int|
            0 <= i < j < list.len() ==> (#[trigger] list[i]).key != (#[trigger] list[j]).key,
    ensures
        operation_log::on_key(list, key).len() <= 1,
    decreases list.len(),
{
    reveal(Seq::filter);
    if list.len() > 0 {
        let rest = list.drop_last();
        lemma_on_key_once(rest, key);
        if list.last().key == key {
            operation_log::lemma_on_key(rest, key);
            if operation_log::mentions(rest, key) {
                let i = choose|i: int| 0 <= i < rest.len() && (#[trigger] rest[i]).key == key;
                assert(list[i].key != list[list.len() - 1].key);
            }
        }
    }
}

/// Compaction loses nothing: the latest operation of every key is what it was, as
/// long as the merged shards respect the cap on encoded shards.
pub proof fn law_compaction_keeps_latest(
    ops: Seq<OperationView>,
    strategy: spec_fn(Seq<char>) -> MergeStrategy,
    compact: Seq<OperationView>,
)
    requires
        operation_log::is_compaction(ops, strategy, compact),
        forall|key: Seq<char>|
            strategy(key) is EpochMaxWins ==> (epoch_max_wins::operations_state(
                #[trigger] operation_log::on_key(ops, key),
            ) matches Some(s) ==> epoch_max_wins::encoded_shard(s).len()
                <= epoch_max_wins::MAX_SHARD_BYTES),
    ensures
        operation_log::snapshot(compact, strategy) == operation_log::snapshot(ops, strategy),
{
    let m = operation_log::snapshot(ops, strategy);
    let n = operation_log::snapshot(compact, strategy);
    assert forall|key: Seq<char>| m.contains_key(key) implies n.contains_key(key) && n[key]
        == m[key] by {
        let group = operation_log::on_key(ops, key);
        let o = m[key];
        operation_log::lemma_on_key(ops, key);
        lemma_on_key_of_list(compact, m, key);
        operation_log::lemma_on_key(compact, key);
        if strategy(key) is EpochMaxWins {
            epoch_laws::law_compaction_composes(group, Seq::empty());
            assert(seq![o] + Seq::empty() =~= seq![o]);
            assert(group + Seq::empty() =~= group);
        } else {
            assert(seq![o].drop_last() =~= Seq::empty());
            reveal_with_fuel(operation_log::newest_operation, 2);
        }
    }
    assert forall|key: Seq<char>| n.contains_key(key) implies m.contains_key(key) by {
        let i = choose|i: int| 0 <= i < compact.len() && (#[trigger] compact[i]).key == key;
        assert(m.contains_key(compact[i].key));
    }
    assert(m =~= n);
}

/// Where the last writer wins, the order in which two operations with different
/// versions arrive does not matter.
pub proof fn law_last_writer_ignores_order(
    ops: Seq<OperationView>,
    x: OperationView,
    y: OperationView,
)
    requires
        x.version != y.version,
        forall|i: int|
            0 <= i < ops.len() ==> (#[trigger] ops[i]).version != x.version && ops[i].version
                != y.version,
    ensures
        operation_log::newest_operation(ops.push(x).push(y)) == operation_log::newest_operation(
            ops.push(y).push(x),
        ),
{
    assert(ops.push(x).push(y).drop_last() =~= ops.push(x));
    assert(ops.push(y).push(x).drop_last() =~= ops.push(y));
    assert(ops.push(x).drop_last() =~= ops);
    assert(ops.push(y).drop_last() =~= ops);
    reveal_with_fuel(operation_log::newest_operation, 3);
    operation_log::lemma_newest_operation(ops);
    if ops.len() > 0 {
        let best = operation_log::newest_operation(ops)->0;
        let i = choose|i: int| 0 <= i < ops.len() && ops[i] == best;
        assert(ops[i].version != x.version && ops[i].version != y.version);
    }
}

/// Where the last writer wins, merging logs keeps the local log as it is and adds
/// the remote operations with new versions behind it, and every version of either
/// log is known afterwards.
pub proof fn law_merge_extends_log(
    base: Seq<OperationView>,
    remote: Seq<OperationView>,
    strategies: Seq<MergeStrategy>,
)
    requires
        strategies.len() == remote.len(),
        forall|i: int| 0 <= i < strategies.len() ==> strategies[i] is LastWriterWins,
    ensures
        base.is_prefix_of(operation_log::merged_log(base, remote, strategies).0),
        operation_log::merged_log(base, remote, strategies).1 == operation_log::versions(
            operation_log::merged_log(base, remote, strategies).0,
        ),
        forall|id: RateLimitVersion| #[trigger]
            operation_log::known(
                operation_log::merged_log(base, remote, strategies).0,
                id,
            ) <==> operation_log::known(base, id) || operation_log::known(remote, id),
    decreases remote.len(),
{
    let (ops, ids) = operation_log::merged_log(base, remote, strategies);
    if remote.len() == 0 {
        assert(base =~= base.subrange(0, base.len() as int));
    } else {
        let rest = remote.drop_last();
        law_merge_extends_log(base, rest, strategies.drop_last());
        let before = operation_log::merged_log(base, rest, strategies.drop_last());
        if operation_log::last_index(before.1, remote.last().version) is None {
            assert(base =~= ops.subrange(0, base.len() as int)) by {
                assert(base =~= before.0.subrange(0, base.len() as int));
            }
            assert(ids =~= operation_log::versions(ops));
        }
    }
    operation_log::lemma_merged_ids(base, remote, strategies);
    assert forall|id: RateLimitVersion| #[trigger]
        operation_log::known(ops, id) <==> operation_log::known(base, id) || operation_log::known(
            remote,
            id,
        ) by {
        assert(ids.contains(id) <==> operation_log::known(base, id) || operation_log::known(
            remote,
            id,
        ));
        if operation_log::known(ops, id) {
            let k = choose|k: int| 0 <= k < ops.len() && (#[trigger] ops[k]).version == id;
            assert(ids[k] == id);
        }
        if ids.contains(id) {
            let k = choose|k: int| 0 <= k < ids.len() && ids[k] == id;
            assert(ops[k].version == id);
        }
    }
}

/// Where the last writer wins, merging operations that are all known changes
/// nothing.
pub proof fn law_known_operations_change_nothing(
    base: Seq<OperationView>,
    remote: Seq<OperationView>,
    strategies: Seq<MergeStrategy>,
)
    requires
        strategies.len() == remote.len(),
        forall|i: int| 0 <= i < strategies.len() ==> strategies[i] is LastWriterWins,
        forall|i: int|
            0 <= i < remote.len() ==> operation_log::known(base, (#[trigger] remote[i]).version),
    ensures
        operation_log::merged_log(base, remote, strategies).0 == base,
    decreases remote.len(),
{
    if remote.len() > 0 {
        let rest = remote.drop_last();
        assert forall|i: int| 0 <= i < rest.len() implies operation_log::known(
            base,
            (#[trigger] rest[i]).version,
        ) by {
            assert(rest[i] == remote[i]);
        }
        law_known_operations_change_nothing(base, rest, strategies.drop_last());
        operation_log::lemma_merged_ids(base, rest, strategies.drop_last());
        let before = operation_log::merged_log(base, rest, strategies.drop_last());
        assert(operation_log::known(base, remote[remote.len() - 1].version));
        assert(before.1.contains(remote.last().version));
        operation_log::lemma_last_index(before.1, remote.last().version);
    }
}

/// Where the last writer wins, merging the same log a second time changes nothing.
pub proof fn law_merge_is_idempotent(
    base: Seq<OperationView>,
    remote: Seq<OperationView>,
    strategies: Seq<MergeStrategy>,
)
    requires
        strategies.len() == remote.len(),
        forall|i: int| 0 <= i < strategies.len() ==> strategies[i] is LastWriterWins,
    ensures
        operation_log::merged_log(
            operation_log::merged_log(base, remote, strategies).0,
            remote,
            strategies,
        ).0 == operation_log::merged_log(base, remote, strategies).0,
{
    let once = operation_log::merged_log(base, remote, strategies).0;
    law_merge_extends_log(base, remote, strategies);
    assert forall|i: int| 0 <= i < remote.len() implies operation_log::known(
        once,
        (#[trigger] remote[i]).version,
    ) by {
        assert(operation_log::known(remote, remote[i].version));
    }
    law_known_operations_change_nothing(once, remote, strategies);
}

} // verus!
