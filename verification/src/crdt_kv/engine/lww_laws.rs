//! What the last-writer-wins engine guarantees, whatever the order and the number
//! of times in which operations arrive.

use vstd::prelude::*;

use super::super::epoch_max_wins;
use super::super::epoch_max_wins::RateLimitVersion;
use super::super::operation::OperationView;
use super::super::replica;
use super::super::replica::ReplicaId;
use super::lww;
use super::lww::LwwState;
use super::metadata;

verus! {

/// The same live values and the same known versions. The number of changes that
/// led there may differ.
pub open spec fn converged(s: LwwState, t: LwwState) -> bool {
    s.kv.live == t.kv.live && s.table == t.table
}

/// The operation would change nothing any more.
pub open spec fn settled(s: LwwState, op: OperationView) -> bool {
    match op.value {
        Some(_) => !metadata::insert_wins(s.table, op.key, op.version),
        None => !metadata::remove_wins(s.table, op.key, op.version),
    }
}

/// Two operations lead to the same state in either order, unless they are writes of
/// different values under one version.
pub proof fn law_order_is_irrelevant(s: LwwState, x: OperationView, y: OperationView, now: u64)
    requires
        lww::consistent(s),
        x.version != y.version || x.value is None || y.value is None || x.value == y.value,
    ensures
        converged(
            lww::lww_apply(lww::lww_apply(s, x, now), y, now),
            lww::lww_apply(lww::lww_apply(s, y, now), x, now),
        ),
{
    let xy = lww::lww_apply(lww::lww_apply(s, x, now), y, now);
    let yx = lww::lww_apply(lww::lww_apply(s, y, now), x, now);
    assert(s.kv.live.contains_key(x.key) <==> s.table.contains_key(x.key)
        && !s.table[x.key].is_tombstone);
    assert(xy.table =~= yx.table);
    assert(xy.kv.live =~= yx.kv.live);
}

/// The operations of a list may arrive in any order: exchanging two neighbours, up
/// to which every order is reached, changes nothing.
pub proof fn law_arrival_order_is_irrelevant(
    s: LwwState,
    ops: Seq<OperationView>,
    x: OperationView,
    y: OperationView,
    now: u64,
)
    requires
        lww::consistent(s),
        x.version != y.version || x.value is None || y.value is None || x.value == y.value,
    ensures
        converged(
            lww::lww_apply_all(s, ops.push(x).push(y), now),
            lww::lww_apply_all(s, ops.push(y).push(x), now),
        ),
{
    lemma_apply_all_consistent(s, ops, now);
    assert(ops.push(x).push(y).drop_last() =~= ops.push(x));
    assert(ops.push(y).push(x).drop_last() =~= ops.push(y));
    assert(ops.push(x).drop_last() =~= ops);
    assert(ops.push(y).drop_last() =~= ops);
    reveal_with_fuel(lww::lww_apply_all, 3);
    law_order_is_irrelevant(lww::lww_apply_all(s, ops, now), x, y, now);
}

/// Every operation keeps live values and known versions together.
pub proof fn lemma_apply_all_consistent(s: LwwState, ops: Seq<OperationView>, now: u64)
    requires
        lww::consistent(s),
    ensures
        lww::consistent(lww::lww_apply_all(s, ops, now)),
    decreases ops.len(),
{
    if ops.len() > 0 {
        lemma_apply_all_consistent(s, ops.drop_last(), now);
        let t = lww::lww_apply_all(s, ops.drop_last(), now);
        let u = lww::lww_apply_all(s, ops, now);
        assert forall|k: Seq<char>| #[trigger] u.kv.live.contains_key(k) <==> u.table.contains_key(
            k,
        ) && !u.table[k].is_tombstone by {
            assert(t.kv.live.contains_key(k) <==> t.table.contains_key(k)
                && !t.table[k].is_tombstone);
        }
    }
}

/// An operation that was applied is settled, and stays settled.
pub proof fn law_applied_is_settled(
    s: LwwState,
    ops: Seq<OperationView>,
    op: OperationView,
    now: u64,
)
    requires
        ops.contains(op) || settled(s, op),
    ensures
        settled(lww::lww_apply_all(s, ops, now), op),
    decreases ops.len(),
{
    if ops.len() > 0 {
        let rest = ops.drop_last();
        if ops.last() != op || settled(s, op) {
            if ops.contains(op) && !settled(s, op) {
                let k = choose|k: int| 0 <= k < ops.len() && ops[k] == op;
                assert(rest[k] == op);
            }
            law_applied_is_settled(s, rest, op, now);
        }
    }
}

/// Settled operations change nothing at all, not even the change counter.
pub proof fn law_settled_changes_nothing(s: LwwState, ops: Seq<OperationView>, now: u64)
    requires
        forall|i: int| 0 <= i < ops.len() ==> settled(s, #[trigger] ops[i]),
    ensures
        lww::lww_apply_all(s, ops, now) == s,
    decreases ops.len(),
{
    if ops.len() > 0 {
        assert forall|i: int| 0 <= i < ops.drop_last().len() implies settled(
            s,
            #[trigger] ops.drop_last()[i],
        ) by {
            assert(ops.drop_last()[i] == ops[i]);
        }
        law_settled_changes_nothing(s, ops.drop_last(), now);
        assert(settled(s, ops[ops.len() - 1]));
    }
}

/// Delivering operations a second time, all or some of them and in any order, is
/// no change.
pub proof fn law_redelivery_is_no_change(
    s: LwwState,
    ops: Seq<OperationView>,
    again: Seq<OperationView>,
    now: u64,
    later: u64,
)
    requires
        forall|i: int| 0 <= i < again.len() ==> ops.contains(#[trigger] again[i]),
    ensures
        lww::lww_apply_all(lww::lww_apply_all(s, ops, now), again, later) == lww::lww_apply_all(
            s,
            ops,
            now,
        ),
{
    let t = lww::lww_apply_all(s, ops, now);
    assert forall|i: int| 0 <= i < again.len() implies settled(t, #[trigger] again[i]) by {
        law_applied_is_settled(s, ops, again[i], now);
    }
    law_settled_changes_nothing(t, again, later);
}

/// A delayed write that is not newer than a removal does not bring the value back.
pub proof fn law_removal_suppresses_older_write(
    s: LwwState,
    key: Seq<char>,
    value: Seq<u8>,
    removed: RateLimitVersion,
    written: RateLimitVersion,
    now: u64,
)
    requires
        lww::consistent(s),
        !epoch_max_wins::version_lt(removed, written),
        s.table.contains_key(key) ==> !epoch_max_wins::version_lt(
            removed,
            s.table[key].version,
        ),
    ensures
        ({
            let t = lww::lww_remove(s, key, removed, now);
            &&& !t.kv.live.contains_key(key)
            &&& lww::lww_insert(t, key, value, written, now) == t
        }),
{
    assert(s.kv.live.contains_key(key) <==> s.table.contains_key(key)
        && !s.table[key].is_tombstone);
}

/// A node reads its own writes: while the clock leads and has a timestamp left, a
/// local write is accepted and is what a read gives back.
pub proof fn law_read_gives_back_write(
    s: LwwState,
    clock: u64,
    replica_id: ReplicaId,
    key: Seq<char>,
    value: Seq<u8>,
    now: u64,
)
    requires
        lww::clock_leads(s.table, clock),
        clock < u64::MAX,
    ensures
        ({
            let version = RateLimitVersion {
                timestamp: replica::next_timestamp(clock),
                replica_id,
            };
            let t = lww::lww_insert(s, key, value, version, now);
            t.kv.live.contains_key(key) && t.kv.live[key] == value
        }),
{
}

/// While the clock leads and has a timestamp left, a local removal is accepted and
/// the key has no value any more.
pub proof fn law_removal_takes_effect(
    s: LwwState,
    clock: u64,
    replica_id: ReplicaId,
    key: Seq<char>,
    now: u64,
)
    requires
        lww::clock_leads(s.table, clock),
        clock < u64::MAX,
    ensures
        ({
            let version = RateLimitVersion {
                timestamp: replica::next_timestamp(clock),
                replica_id,
            };
            !lww::lww_remove(s, key, version, now).kv.live.contains_key(key)
        }),
{
}

/// A removal outlives its grace: collecting at `now` keeps what is known of a key whose
/// removal arrived at `at` whenever less than `grace` has passed since then, and forgets
/// it once `grace` has passed. A removal from the future counts as one of this moment.
/// What is known of other keys stays as it is.
pub proof fn law_grace_is_respected(
    s: LwwState,
    now: u64,
    grace: u64,
    key: Seq<char>,
    at: u64,
)
    requires
        s.table.contains_key(key),
        s.table[key].created_at == at,
    ensures
        ({
            let kept = s.table.remove_keys(
                metadata::due_keys(s.table, s.kv.live, now, grace),
            );
            &&& kept.contains_key(key) ==> kept[key] == s.table[key]
            &&& s.kv.live.contains_key(key) || !s.table[key].is_tombstone ==> kept.contains_key(key)
            &&& !s.kv.live.contains_key(key) && s.table[key].is_tombstone ==> {
                &&& at <= now && now - at < grace ==> kept.contains_key(key)
                &&& at <= now && now - at >= grace ==> !kept.contains_key(key)
                &&& now < at && grace > 0 ==> kept.contains_key(key)
                &&& now < at && grace == 0 ==> !kept.contains_key(key)
            }
        }),
{
}

/// Operations on one key leave every other key alone.
pub proof fn law_keys_are_independent(
    s: LwwState,
    op: OperationView,
    key: Seq<char>,
    now: u64,
)
    requires
        op.key != key,
    ensures
        ({
            let t = lww::lww_apply(s, op, now);
            &&& t.kv.live.contains_key(key) <==> s.kv.live.contains_key(key)
            &&& s.kv.live.contains_key(key) ==> t.kv.live[key] == s.kv.live[key]
            &&& t.table.contains_key(key) <==> s.table.contains_key(key)
            &&& s.table.contains_key(key) ==> t.table[key] == s.table[key]
        }),
{
}

} // verus!
