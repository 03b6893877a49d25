//! Nodes of a rate-limit namespace that get the same operations agree.
//!
//! A state reflects operations if it holds of each key what the operations on it add
//! up to. Writing and receiving keep the state a reflection of the log, and two states
//! that reflect the same operations are the same. What is asked of the operations is
//! asked key by key.

use vstd::prelude::*;

use super::super::epoch_convergence;
use super::super::epoch_laws;
use super::super::epoch_max_wins;
use super::super::epoch_max_wins::{LivePoint, RateLimitVersion, ShardView};
use super::super::log_laws;
use super::super::merge_strategy::MergeStrategy;
use super::super::op_sets;
use super::super::operation::OperationView;
use super::super::operation_log;
use super::super::operation_log::AUTO_COMPACT_THRESHOLD;
use super::super::replica;
use super::lww_convergence;
use super::rate_limit;
use super::rate_limit::{RateLimitEngineView, RateLimitView, ShardEntryView};

verus! {

/// The state holds of `key` what the operations on it add up to.
pub open spec fn reflects_key(s: RateLimitView, ops: Seq<OperationView>, key: Seq<char>) -> bool {
    match epoch_max_wins::operations_state(operation_log::on_key(ops, key)) {
        Some(x) => s.entries.contains_key(key) && s.entries[key].state == x,
        None => !s.entries.contains_key(key),
    }
}

/// The state holds of each key what the operations on it add up to.
pub open spec fn reflects(s: RateLimitView, ops: Seq<OperationView>) -> bool {
    forall|key: Seq<char>| #[trigger] reflects_key(s, ops, key)
}

/// The points that the operations on a key carry.
pub open spec fn key_points(ops: Seq<OperationView>, key: Seq<char>) -> Seq<LivePoint> {
    epoch_laws::all_points(operation_log::on_key(ops, key))
}

/// What convergence asks of the operations: on one key one version stamps one value,
/// and the states that the operations carry are in normal form.
pub open spec fn orderly(ops: Seq<OperationView>) -> bool {
    &&& forall|key: Seq<char>| epoch_laws::coherent(#[trigger] key_points(ops, key))
    &&& forall|op: OperationView| #[trigger]
        ops.contains(op) ==> (epoch_max_wins::operation_state(op) matches Some(o)
            ==> epoch_laws::normal(o))
}

/// Every shard of these points respects the cap on encoded shards.
pub open spec fn roomy(points: Seq<LivePoint>) -> bool {
    forall|s: ShardView| #[trigger]
        epoch_convergence::within(s, points) && epoch_laws::normal(s)
            ==> epoch_max_wins::encoded_shard(s).len() <= epoch_max_wins::MAX_SHARD_BYTES
}

/// What a log asks of the operations, so that folding the operations on a key into one
/// loses nothing: of each key, no shard of its points is too large.
pub open spec fn foldable(ops: Seq<OperationView>) -> bool {
    forall|key: Seq<char>| roomy(#[trigger] key_points(ops, key))
}

/// One version is used for one key.
pub open spec fn one_key_per_version(ops: Seq<OperationView>) -> bool {
    forall|x: OperationView, y: OperationView|
        #![trigger ops.contains(x), ops.contains(y)]
        ops.contains(x) && ops.contains(y) && x.version == y.version ==> x.key == y.key
}

/// Every operation of `ops` stands for a state in normal form with points that the
/// operations of `all` carry on its key, or is malformed.
spec fn fair_in(ops: Seq<OperationView>, all: Seq<OperationView>) -> bool {
    forall|op: OperationView| #[trigger]
        ops.contains(op) ==> (epoch_max_wins::operation_state(op) matches Some(o)
            ==> epoch_laws::normal(o) && epoch_convergence::within(o, key_points(all, op.key)))
}

/// The two states hold the same of every key. When tombstones arrived may differ.
pub open spec fn agree(s: RateLimitView, t: RateLimitView) -> bool {
    &&& forall|key: Seq<char>| #[trigger]
        s.entries.contains_key(key) <==> t.entries.contains_key(key)
    &&& forall|key: Seq<char>| #[trigger]
        s.entries.contains_key(key) ==> s.entries[key].state == t.entries[key].state
}

/// The operation would change nothing any more.
pub open spec fn settled(s: RateLimitView, op: OperationView) -> bool {
    !rate_limit::entry_changes(s.entries, op.key, epoch_max_wins::operation_state(op))
}

/// The points of an operation are among those of the list.
proof fn lemma_points_of_member(ops: Seq<OperationView>, op: OperationView)
    requires
        ops.contains(op),
    ensures
        epoch_max_wins::operation_state(op) matches Some(o) ==> epoch_convergence::within(
            o,
            epoch_laws::all_points(ops),
        ),
    decreases ops.len(),
{
    let rest = ops.drop_last();
    let points = epoch_laws::all_points(rest);
    let last = match epoch_max_wins::operation_state(ops.last()) {
        Some(o) => o.points,
        None => Seq::empty(),
    };
    epoch_laws::lemma_concat_members(points, last);
    if op != ops.last() {
        let k = choose|k: int| 0 <= k < ops.len() && ops[k] == op;
        assert(rest[k] == op);
        lemma_points_of_member(rest, op);
    }
}

/// Orderly operations are fair.
proof fn lemma_orderly_fair(part: Seq<OperationView>, all: Seq<OperationView>)
    requires
        orderly(all),
        forall|op: OperationView| #[trigger] part.contains(op) ==> all.contains(op),
    ensures
        fair_in(part, all),
{
    assert forall|op: OperationView| #[trigger] part.contains(op) implies (
    epoch_max_wins::operation_state(op) matches Some(o) ==> epoch_laws::normal(o)
        && epoch_convergence::within(o, key_points(all, op.key))) by {
        assert(all.contains(op));
        operation_log::lemma_on_key(all, op.key);
        lemma_points_of_member(operation_log::on_key(all, op.key), op);
    }
}

/// Fewer operations ask for less.
proof fn lemma_orderly_part(all: Seq<OperationView>, part: Seq<OperationView>)
    requires
        orderly(all),
        forall|op: OperationView| #[trigger] part.contains(op) ==> all.contains(op),
    ensures
        orderly(part),
{
    assert forall|key: Seq<char>| epoch_laws::coherent(#[trigger] key_points(part, key)) by {
        let (x, y) = (operation_log::on_key(part, key), operation_log::on_key(all, key));
        operation_log::lemma_on_key(part, key);
        operation_log::lemma_on_key(all, key);
        lemma_points_of_part(x, y);
        epoch_laws::lemma_coherent_members(key_points(part, key), key_points(all, key));
    }
}

/// The points of fewer operations are among those of more.
proof fn lemma_points_of_part(part: Seq<OperationView>, all: Seq<OperationView>)
    requires
        forall|op: OperationView| #[trigger] part.contains(op) ==> all.contains(op),
    ensures
        forall|p: LivePoint| #[trigger]
            epoch_laws::all_points(part).contains(p) ==> epoch_laws::all_points(all).contains(p),
    decreases part.len(),
{
    if part.len() > 0 {
        let rest = part.drop_last();
        assert(part[part.len() - 1] == part.last());
        assert(part.contains(part.last()));
        assert forall|op: OperationView| #[trigger] rest.contains(op) implies all.contains(op) by {
            let k = choose|k: int| 0 <= k < rest.len() && rest[k] == op;
            assert(part[k] == op);
            assert(part.contains(op));
        }
        lemma_points_of_part(rest, all);
        lemma_points_of_member(all, part.last());
        let last = match epoch_max_wins::operation_state(part.last()) {
            Some(o) => o.points,
            None => Seq::empty(),
        };
        epoch_laws::lemma_concat_members(epoch_laws::all_points(rest), last);
    }
}

/// Of one key, fair operations are made of the points of that key.
proof fn lemma_fair_on_key(ops: Seq<OperationView>, all: Seq<OperationView>, key: Seq<char>)
    requires
        fair_in(ops, all),
    ensures
        epoch_convergence::fair(operation_log::on_key(ops, key), key_points(all, key)),
{
    let group = operation_log::on_key(ops, key);
    operation_log::lemma_on_key(ops, key);
    assert forall|op: OperationView| #[trigger] group.contains(op) implies (
    epoch_max_wins::operation_state(op) matches Some(o) ==> epoch_laws::normal(o)
        && epoch_convergence::within(o, key_points(all, key))) by {
        assert(ops.contains(op));
    }
}

/// Applying an operation keeps the state a reflection.
proof fn lemma_apply_reflects(s: RateLimitView, ops: Seq<OperationView>, op: OperationView, now: u64)
    requires
        reflects(s, ops),
    ensures
        reflects(rate_limit::rate_limit_apply(s, op, now), ops.push(op)),
{
    let t = rate_limit::rate_limit_apply(s, op, now);
    assert forall|key: Seq<char>| #[trigger] reflects_key(t, ops.push(op), key) by {
        assert(reflects_key(s, ops, key));
        operation_log::lemma_on_key_push(ops, op, key);
        let group = operation_log::on_key(ops, key);
        assert(group.push(op).drop_last() =~= group);
    }
}

/// Applying operations keeps the state a reflection.
proof fn lemma_apply_all_reflects(
    s: RateLimitView,
    ops: Seq<OperationView>,
    more: Seq<OperationView>,
    now: u64,
)
    requires
        reflects(s, ops),
    ensures
        reflects(rate_limit::rate_limit_apply_all(s, more, now), ops + more),
    decreases more.len(),
{
    if more.len() == 0 {
        assert(ops + more =~= ops);
    } else {
        let rest = more.drop_last();
        lemma_apply_all_reflects(s, ops, rest, now);
        lemma_apply_reflects(
            rate_limit::rate_limit_apply_all(s, rest, now),
            ops + rest,
            more.last(),
            now,
        );
        assert((ops + rest).push(more.last()) =~= ops + more);
    }
}

/// What a state reflects is a matter of which operations there are.
proof fn lemma_reflects_members(s: RateLimitView, a: Seq<OperationView>, b: Seq<OperationView>)
    requires
        reflects(s, a),
        orderly(b),
        op_sets::same_members(a, b),
    ensures
        reflects(s, b),
{
    lemma_orderly_fair(a, b);
    assert forall|key: Seq<char>| #[trigger] reflects_key(s, b, key) by {
        assert(reflects_key(s, a, key));
        let (x, y) = (operation_log::on_key(a, key), operation_log::on_key(b, key));
        operation_log::lemma_on_key(a, key);
        operation_log::lemma_on_key(b, key);
        lemma_fair_on_key(a, b, key);
        assert forall|op: OperationView| x.contains(op) <==> y.contains(op) by {
            assert(a.contains(op) <==> b.contains(op));
        }
        epoch_convergence::law_same_operations_same_state(key_points(b, key), x, y);
    }
}

// ---------------------------------------------------------------------------
// Logs
// ---------------------------------------------------------------------------
/// What two operations on one key fold to stands for what they add up to.
proof fn lemma_folded(x: OperationView, y: OperationView, points: Seq<LivePoint>)
    requires
        epoch_laws::coherent(points),
        roomy(points),
        epoch_convergence::fair(seq![x, y], points),
        epoch_max_wins::compacted(seq![x, y]) is Some,
    ensures
        ({
            let folded = epoch_max_wins::compacted(seq![x, y])->0;
            &&& folded.key == x.key
            &&& epoch_max_wins::operation_state(folded) == epoch_max_wins::operations_state(
                seq![x, y],
            )
            &&& epoch_max_wins::operation_state(folded) matches Some(f) && epoch_laws::normal(f)
                && epoch_convergence::within(f, points)
        }),
{
    let pair = seq![x, y];
    let f = epoch_max_wins::operations_state(pair)->0;
    epoch_convergence::lemma_list_absorbs(points, pair);
    epoch_laws::law_operations_leave_a_state(pair);
    epoch_laws::lemma_state_of_operation(pair[0].key, f);
}

/// An operation of a list with one entry replaced is the new entry or one of the list.
proof fn lemma_update_members(ops: Seq<OperationView>, at: int, folded: OperationView)
    requires
        0 <= at < ops.len(),
    ensures
        ops.update(at, folded).contains(folded),
        forall|o: OperationView| #[trigger]
            ops.update(at, folded).contains(o) ==> ops.contains(o) || o == folded,
        forall|o: OperationView| #[trigger]
            ops.contains(o) ==> ops.update(at, folded).contains(o) || o == ops[at],
{
    let updated = ops.update(at, folded);
    assert(updated[at] == folded);
    assert forall|o: OperationView| #[trigger] updated.contains(o) implies ops.contains(o) || o
        == folded by {
        let k = choose|k: int| 0 <= k < updated.len() && updated[k] == o;
        if k != at {
            assert(ops[k] == o);
        }
    }
    assert forall|o: OperationView| #[trigger] ops.contains(o) implies updated.contains(o) || o
        == ops[at] by {
        let k = choose|k: int| 0 <= k < ops.len() && ops[k] == o;
        if k != at {
            assert(updated[k] == o);
        }
    }
}

/// Replacing an operation by what it and another one fold to is as good as adding
/// the other one.
proof fn lemma_fold_is_push(
    ops: Seq<OperationView>,
    at: int,
    op: OperationView,
    all: Seq<OperationView>,
)
    requires
        0 <= at < ops.len(),
        epoch_laws::coherent(key_points(all, op.key)),
        roomy(key_points(all, op.key)),
        fair_in(ops, all),
        fair_in(seq![op], all),
        ops[at].key == op.key,
        epoch_max_wins::compacted(seq![ops[at], op]) is Some,
    ensures
        ({
            let folded = epoch_max_wins::compacted(seq![ops[at], op])->0;
            &&& folded.key == op.key
            &&& fair_in(ops.update(at, folded), all)
            &&& epoch_max_wins::operations_state(
                operation_log::on_key(ops.update(at, folded), op.key),
            ) == epoch_max_wins::operations_state(operation_log::on_key(ops.push(op), op.key))
        }),
{
    let points = key_points(all, op.key);
    let pair = seq![ops[at], op];
    let folded = epoch_max_wins::compacted(pair)->0;
    let (updated, pushed) = (ops.update(at, folded), ops.push(op));
    op_sets::lemma_push_members(ops, op);
    lemma_update_members(ops, at, folded);
    assert(ops.contains(ops[at]));
    assert(seq![op][0] == op && seq![op].contains(op));
    assert forall|o: OperationView| #[trigger] pair.contains(o) <==> o == ops[at] || o == op by {
        assert(pair[0] == ops[at] && pair[1] == op);
    }
    lemma_folded(ops[at], op, points);
    assert(fair_in(pushed, all));
    lemma_fair_on_key(updated, all, op.key);
    lemma_fair_on_key(pushed, all, op.key);
    let (x, y) = (operation_log::on_key(updated, op.key), operation_log::on_key(pushed, op.key));
    operation_log::lemma_on_key(updated, op.key);
    operation_log::lemma_on_key(pushed, op.key);
    epoch_convergence::lemma_same_state_folded(points, x, y, pair, folded);
}

/// Replacing an operation by another one on its key leaves other keys alone, and so
/// does adding one on its key.
proof fn lemma_fold_elsewhere(
    ops: Seq<OperationView>,
    at: int,
    op: OperationView,
    folded: OperationView,
    key: Seq<char>,
)
    requires
        0 <= at < ops.len(),
        ops[at].key == op.key,
        folded.key == op.key,
        key != op.key,
    ensures
        operation_log::on_key(ops.update(at, folded), key) == operation_log::on_key(
            ops.push(op),
            key,
        ),
    decreases ops.len(),
{
    operation_log::lemma_on_key_push(ops, op, key);
    let rest = ops.drop_last();
    assert(ops =~= rest.push(ops.last()));
    operation_log::lemma_on_key_push(rest, ops.last(), key);
    if at == ops.len() - 1 {
        assert(ops.update(at, folded) =~= rest.push(folded));
        operation_log::lemma_on_key_push(rest, folded, key);
    } else {
        lemma_fold_elsewhere(rest, at, op, folded, key);
        operation_log::lemma_on_key_push(rest, op, key);
        assert(ops.update(at, folded) =~= rest.update(at, folded).push(ops.last()));
        operation_log::lemma_on_key_push(rest.update(at, folded), ops.last(), key);
    }
}

/// The version is used for the key.
spec fn used_for(all: Seq<OperationView>, id: RateLimitVersion, key: Seq<char>) -> bool {
    exists|op: OperationView| #[trigger] all.contains(op) && op.version == id && op.key == key
}

/// The operations `ops` tell of every key what `all` tell.
spec fn tells_same(ops: Seq<OperationView>, all: Seq<OperationView>) -> bool {
    forall|key: Seq<char>|
        epoch_max_wins::operations_state(#[trigger] operation_log::on_key(ops, key))
            == epoch_max_wins::operations_state(operation_log::on_key(all, key))
}

proof fn lemma_tells_same_push(
    ops: Seq<OperationView>,
    all: Seq<OperationView>,
    op: OperationView,
)
    requires
        tells_same(ops, all),
    ensures
        tells_same(ops.push(op), all.push(op)),
{
    assert forall|key: Seq<char>| epoch_max_wins::operations_state(
        #[trigger] operation_log::on_key(ops.push(op), key),
    ) == epoch_max_wins::operations_state(operation_log::on_key(all.push(op), key)) by {
        let (g, h) = (operation_log::on_key(ops, key), operation_log::on_key(all, key));
        operation_log::lemma_on_key_push(ops, op, key);
        operation_log::lemma_on_key_push(all, op, key);
        assert(g.push(op).drop_last() =~= g);
        assert(h.push(op).drop_last() =~= h);
    }
}

/// What holds of a merged log: its entries are fair, they stand under versions that are
/// used for their keys, and they tell what the operations that came in tell.
spec fn merged_so_far(
    log: (Seq<OperationView>, Seq<RateLimitVersion>),
    came_in: Seq<OperationView>,
    all: Seq<OperationView>,
) -> bool {
    &&& log.0.len() == log.1.len()
    &&& fair_in(log.0, all)
    &&& forall|i: int| 0 <= i < log.0.len() ==> used_for(all, #[trigger] log.1[i], log.0[i].key)
    &&& tells_same(log.0, came_in)
}

proof fn lemma_merge_entry(
    log: (Seq<OperationView>, Seq<RateLimitVersion>),
    op: OperationView,
    came_in: Seq<OperationView>,
    all: Seq<OperationView>,
)
    requires
        merged_so_far(log, came_in, all),
        orderly(all),
        foldable(all),
        one_key_per_version(all),
        all.contains(op),
    ensures
        merged_so_far(
            operation_log::merge_entry(log, op, MergeStrategy::EpochMaxWins),
            came_in.push(op),
            all,
        ),
{
    let (ops, ids) = log;
    let out = operation_log::merge_entry(log, op, MergeStrategy::EpochMaxWins);
    op_sets::lemma_push_members(ops, op);
    lemma_tells_same_push(ops, came_in, op);
    operation_log::lemma_last_index(ids, op.version);
    assert(fair_in(seq![op], all)) by {
        assert forall|o: OperationView| #[trigger] seq![op].contains(o) implies all.contains(o) by {
        }
        lemma_orderly_fair(seq![op], all);
    }
    assert(seq![op][0] == op && seq![op].contains(op));
    match operation_log::last_index(ids, op.version) {
        None => {
            assert(fair_in(ops.push(op), all));
            assert forall|i: int| 0 <= i < out.0.len() implies used_for(
                all,
                #[trigger] out.1[i],
                out.0[i].key,
            ) by {
                if i < ops.len() {
                    assert(used_for(all, ids[i], ops[i].key));
                }
            }
        },
        Some(at) => {
            assert(used_for(all, ids[at], ops[at].key));
            let user = choose|o: OperationView| #[trigger]
                all.contains(o) && o.version == ids[at] && o.key == ops[at].key;
            assert(user.key == op.key);
            lemma_merge_known(log, at, op, came_in, all);
        },
    }
}

proof fn lemma_merge_known(
    log: (Seq<OperationView>, Seq<RateLimitVersion>),
    at: int,
    op: OperationView,
    came_in: Seq<OperationView>,
    all: Seq<OperationView>,
)
    requires
        merged_so_far(log, came_in, all),
        orderly(all),
        foldable(all),
        one_key_per_version(all),
        0 <= at < log.0.len(),
        log.0[at].key == op.key,
        fair_in(seq![op], all),
        tells_same(log.0.push(op), came_in.push(op)),
    ensures
        match epoch_max_wins::compacted(seq![log.0[at], op]) {
            Some(folded) => merged_so_far(
                (log.0.update(at, folded), log.1),
                came_in.push(op),
                all,
            ),
            None => merged_so_far(log, came_in.push(op), all),
        },
{
    let (ops, ids) = log;
    let pair = seq![ops[at], op];
    if let Some(folded) = epoch_max_wins::compacted(pair) {
        let updated = ops.update(at, folded);
        lemma_fold_is_push(ops, at, op, all);
        assert forall|key: Seq<char>| epoch_max_wins::operations_state(
            #[trigger] operation_log::on_key(updated, key),
        ) == epoch_max_wins::operations_state(operation_log::on_key(came_in.push(op), key)) by {
            if key != op.key {
                lemma_fold_elsewhere(ops, at, op, folded, key);
            }
            assert(epoch_max_wins::operations_state(operation_log::on_key(ops.push(op), key))
                == epoch_max_wins::operations_state(
                operation_log::on_key(came_in.push(op), key),
            ));
        }
        assert forall|i: int| 0 <= i < updated.len() implies used_for(
            all,
            #[trigger] ids[i],
            updated[i].key,
        ) by {
            assert(used_for(all, ids[i], ops[i].key));
        }
    } else {
        // Both operations are malformed.
        assert(pair.drop_last() =~= seq![ops[at]]);
        assert(seq![ops[at]].drop_last() =~= Seq::empty());
        reveal_with_fuel(epoch_max_wins::operations_state, 3);
        assert(epoch_max_wins::operation_state(op) is None);
        assert forall|key: Seq<char>| epoch_max_wins::operations_state(
            #[trigger] operation_log::on_key(ops, key),
        ) == epoch_max_wins::operations_state(operation_log::on_key(came_in.push(op), key)) by {
            let g = operation_log::on_key(ops, key);
            operation_log::lemma_on_key_push(ops, op, key);
            assert(g.push(op).drop_last() =~= g);
            assert(epoch_max_wins::operations_state(operation_log::on_key(ops.push(op), key))
                == epoch_max_wins::operations_state(
                operation_log::on_key(came_in.push(op), key),
            ));
        }
    }
}

/// Merging logs adds up what both of them tell.
proof fn lemma_merged_tells_both(
    base: Seq<OperationView>,
    remote: Seq<OperationView>,
    strategies: Seq<MergeStrategy>,
    all: Seq<OperationView>,
)
    requires
        strategies.len() == remote.len(),
        forall|i: int| 0 <= i < strategies.len() ==> strategies[i] is EpochMaxWins,
        orderly(all),
        foldable(all),
        one_key_per_version(all),
        forall|op: OperationView| #[trigger] base.contains(op) ==> all.contains(op),
        forall|op: OperationView| #[trigger] remote.contains(op) ==> all.contains(op),
    ensures
        merged_so_far(
            operation_log::merged_log(base, remote, strategies),
            base + remote,
            all,
        ),
    decreases remote.len(),
{
    let log = operation_log::merged_log(base, remote, strategies);
    if remote.len() == 0 {
        assert(base + remote =~= base);
        lemma_orderly_fair(base, all);
        assert forall|i: int| 0 <= i < base.len() implies used_for(
            all,
            #[trigger] log.1[i],
            base[i].key,
        ) by {
            assert(base.contains(base[i]));
            assert(all.contains(base[i]));
        }
    } else {
        let rest = remote.drop_last();
        let op = remote.last();
        assert forall|o: OperationView| #[trigger] rest.contains(o) implies all.contains(o) by {
            let k = choose|k: int| 0 <= k < rest.len() && rest[k] == o;
            assert(remote[k] == o);
            assert(remote.contains(o));
        }
        assert(remote.contains(remote[remote.len() - 1]));
        lemma_merged_tells_both(base, rest, strategies.drop_last(), all);
        assert(base + remote =~= (base + rest).push(op));
        assert(strategies.last() == strategies[strategies.len() - 1]);
        lemma_merge_entry(
            operation_log::merged_log(base, rest, strategies.drop_last()),
            op,
            base + rest,
            all,
        );
    }
}

/// Compacting a log keeps it telling the state.
proof fn lemma_compaction_reflects(
    s: RateLimitView,
    ops: Seq<OperationView>,
    compact: Seq<OperationView>,
    all: Seq<OperationView>,
)
    requires
        reflects(s, ops),
        orderly(all),
        foldable(all),
        fair_in(ops, all),
        operation_log::is_compaction(
            ops,
            operation_log::always(MergeStrategy::EpochMaxWins),
            compact,
        ),
    ensures
        reflects(s, compact),
{
    let m = operation_log::snapshot(ops, operation_log::always(MergeStrategy::EpochMaxWins));
    assert forall|key: Seq<char>| #[trigger] reflects_key(s, compact, key) by {
        assert(reflects_key(s, ops, key));
        let group = operation_log::on_key(ops, key);
        operation_log::lemma_on_key(ops, key);
        operation_log::lemma_on_key(compact, key);
        if m.contains_key(key) {
            log_laws::lemma_on_key_of_list(compact, m, key);
            let x = epoch_max_wins::operations_state(group)->0;
            let points = key_points(all, key);
            lemma_fair_on_key(ops, all, key);
            epoch_convergence::lemma_list_absorbs(points, group);
            epoch_laws::law_operations_leave_a_state(group);
            epoch_laws::lemma_state_of_operation(group[0].key, x);
            let one = seq![m[key]];
            assert(one.drop_last() =~= Seq::empty());
            assert(one.last() == m[key]);
            assert(epoch_max_wins::operations_state(one.drop_last()) is None);
        } else {
            if operation_log::on_key(compact, key).len() > 0 {
                let i = choose|i: int| 0 <= i < compact.len() && (#[trigger] compact[i]).key == key;
                assert(m.contains_key(compact[i].key));
            }
            if operation_log::mentions(ops, key) {
                assert(operation_log::latest_for(ops, key, MergeStrategy::EpochMaxWins) is None);
            } else {
                assert(group =~= Seq::empty());
            }
            assert(operation_log::on_key(compact, key) =~= Seq::empty());
        }
    }
}

// ---------------------------------------------------------------------------
// Laws
// ---------------------------------------------------------------------------
/// Two states that reflect the same operations agree.
pub proof fn law_same_operations_same_states(
    s: RateLimitView,
    t: RateLimitView,
    a: Seq<OperationView>,
    b: Seq<OperationView>,
)
    requires
        reflects(s, a),
        reflects(t, b),
        op_sets::same_members(a, b),
        orderly(b),
    ensures
        agree(s, t),
{
    lemma_reflects_members(s, a, b);
    assert forall|key: Seq<char>| #[trigger] s.entries.contains_key(key) <==> t.entries.contains_key(
        key,
    ) by {
        assert(reflects_key(s, b, key) && reflects_key(t, b, key));
    }
    assert forall|key: Seq<char>| #[trigger] s.entries.contains_key(key) implies s.entries[key].state
        == t.entries[key].state by {
        assert(reflects_key(s, b, key) && reflects_key(t, b, key));
    }
}

/// A local write or removal keeps the state a reflection of the log, as long as the
/// log is not truncated.
pub proof fn law_log_tells_local_writes(
    s: RateLimitView,
    log: Seq<OperationView>,
    op: OperationView,
    now: u64,
    out: Seq<OperationView>,
)
    requires
        rate_limit::entries_wf(s.entries),
        reflects(s, log),
        orderly(log.push(op)),
        foldable(log.push(op)),
        if settled(s, op) {
            out == log
        } else {
            operation_log::appended(
                log.push(op),
                operation_log::always(MergeStrategy::EpochMaxWins),
                out,
            )
        },
        forall|compact: Seq<OperationView>| #[trigger]
            operation_log::is_compaction(
                log.push(op),
                operation_log::always(MergeStrategy::EpochMaxWins),
                compact,
            ) ==> compact.len() <= AUTO_COMPACT_THRESHOLD,
    ensures
        reflects(rate_limit::rate_limit_apply(s, op, now), out),
{
    if settled(s, op) {
        lemma_settled(s, op, now);
    } else {
        lemma_apply_reflects(s, log, op, now);
        if log.push(op).len() > AUTO_COMPACT_THRESHOLD {
            let compact = choose|compact: Seq<OperationView>| #[trigger]
                operation_log::is_compaction(
                    log.push(op),
                    operation_log::always(MergeStrategy::EpochMaxWins),
                    compact,
                ) && out == operation_log::truncated(compact);
            lemma_orderly_fair(log.push(op), log.push(op));
            lemma_compaction_reflects(
                rate_limit::rate_limit_apply(s, op, now),
                log.push(op),
                compact,
                log.push(op),
            );
        }
    }
}

proof fn lemma_settled(s: RateLimitView, op: OperationView, now: u64)
    requires
        rate_limit::entries_wf(s.entries),
        settled(s, op),
    ensures
        rate_limit::rate_limit_apply(s, op, now) == s,
{
    if let Some(o) = epoch_max_wins::operation_state(op) {
        let e = s.entries[op.key];
        assert(rate_limit::entry_wf(e));
        assert(rate_limit::merged_entry(e, o, now) =~= e);
        assert(rate_limit::absorb_entry(s.entries, op.key, Some(o), now) =~= s.entries);
    }
}

/// The state after operations have arrived is what the operations of both sides add up
/// to, whatever operations the state before reflected.
proof fn lemma_received_reflects(
    before: RateLimitEngineView,
    clock_before: u64,
    now: u64,
    base: Seq<OperationView>,
    ops: Seq<OperationView>,
    after: RateLimitEngineView,
    clock_now: u64,
)
    requires
        reflects(before.state, base),
        orderly(base + ops),
        rate_limit::remote_ops_merged(before, clock_before, now, ops, after, clock_now),
    ensures
        reflects(after.state, base + ops),
{
    let sorted = operation_log::stable_sorted(ops);
    lemma_apply_all_reflects(before.state, base, sorted, now);
    op_sets::lemma_sorted_members(ops);
    op_sets::lemma_concat_members(base, sorted);
    op_sets::lemma_concat_members(base, ops);
    assert forall|op: OperationView| (base + sorted).contains(op) <==> (base + ops).contains(
        op,
    ) by {
        assert(ops.contains(op) <==> sorted.contains(op));
    }
    lemma_reflects_members(after.state, base + sorted, base + ops);
}

/// The state after operations have arrived is what the operations of both sides add up
/// to. It stays a reflection of the log, if one version is used for one key and the
/// operations on each key can be folded into one.
pub proof fn law_log_tells_received_operations(
    before: RateLimitEngineView,
    clock_before: u64,
    now: u64,
    ops: Seq<OperationView>,
    after: RateLimitEngineView,
    clock_now: u64,
)
    requires
        reflects(before.state, before.log),
        orderly(before.log + ops),
        rate_limit::remote_ops_merged(before, clock_before, now, ops, after, clock_now),
    ensures
        reflects(after.state, before.log + ops),
        foldable(before.log + ops) && one_key_per_version(before.log + ops) ==> reflects(
            after.state,
            after.log,
        ),
{
    let log = before.log;
    let all = log + ops;
    lemma_received_reflects(before, clock_before, now, log, ops, after, clock_now);
    if ops.len() == 0 {
        assert(log + ops =~= log);
    } else if foldable(all) && one_key_per_version(all) {
        let sorted = operation_log::stable_sorted(ops);
        op_sets::lemma_sorted_members(ops);
        op_sets::lemma_concat_members(log, ops);
        lemma_apply_all_reflects(before.state, log, sorted, now);
        let strategies = operation_log::repeated(MergeStrategy::EpochMaxWins, sorted.len());
        let merged = operation_log::merged_log(log, sorted, strategies).0;
        assert forall|op: OperationView| #[trigger] sorted.contains(op) implies all.contains(op) by {
            assert(ops.contains(op));
        }
        lemma_merged_tells_both(log, sorted, strategies, all);
        assert forall|key: Seq<char>| #[trigger] reflects_key(after.state, merged, key) by {
            assert(reflects_key(after.state, log + sorted, key));
            assert(epoch_max_wins::operations_state(operation_log::on_key(merged, key))
                == epoch_max_wins::operations_state(operation_log::on_key(log + sorted, key)));
        }
        lemma_compaction_reflects(after.state, merged, after.log, all);
    }
}

/// Two nodes that exchange their logs agree, whatever they held before.
pub proof fn law_exchange_converges(
    a: RateLimitEngineView,
    b: RateLimitEngineView,
    clock_a: u64,
    clock_b: u64,
    now_a: u64,
    now_b: u64,
    after_a: RateLimitEngineView,
    after_b: RateLimitEngineView,
    next_a: u64,
    next_b: u64,
)
    requires
        reflects(a.state, a.log),
        reflects(b.state, b.log),
        orderly(a.log + b.log),
        rate_limit::remote_ops_merged(a, clock_a, now_a, b.log, after_a, next_a),
        rate_limit::remote_ops_merged(b, clock_b, now_b, a.log, after_b, next_b),
    ensures
        agree(after_a.state, after_b.state),
{
    let (ab, ba) = (a.log + b.log, b.log + a.log);
    op_sets::lemma_concat_members(a.log, b.log);
    op_sets::lemma_concat_members(b.log, a.log);
    assert forall|op: OperationView| ab.contains(op) <==> ba.contains(op) by {
    }
    lemma_orderly_part(ab, ba);
    law_log_tells_received_operations(a, clock_a, now_a, b.log, after_a, next_a);
    law_log_tells_received_operations(b, clock_b, now_b, a.log, after_b, next_b);
    law_same_operations_same_states(after_a.state, after_b.state, ab, ba);
}

// ---------------------------------------------------------------------------
// Any number of deliveries
// ---------------------------------------------------------------------------
/// A node receives one list of operations after another: it starts as `nodes[0]`, and
/// `nodes[i + 1]` is what it is after `deliveries[i]`.
pub open spec fn receives(
    nodes: Seq<RateLimitEngineView>,
    clocks: Seq<u64>,
    times: Seq<u64>,
    deliveries: Seq<Seq<OperationView>>,
) -> bool {
    &&& nodes.len() == deliveries.len() + 1
    &&& clocks.len() == deliveries.len() + 1
    &&& times.len() == deliveries.len()
    &&& forall|i: int|
        0 <= i < deliveries.len() ==> rate_limit::remote_ops_merged(
            nodes[i],
            clocks[i],
            times[i],
            #[trigger] deliveries[i],
            nodes[i + 1],
            clocks[i + 1],
        )
}

/// The deliveries but for the last one are deliveries too.
proof fn lemma_receives_part(
    nodes: Seq<RateLimitEngineView>,
    clocks: Seq<u64>,
    times: Seq<u64>,
    deliveries: Seq<Seq<OperationView>>,
)
    requires
        receives(nodes, clocks, times, deliveries),
        deliveries.len() > 0,
    ensures
        receives(
            nodes.drop_last(),
            clocks.drop_last(),
            times.drop_last(),
            deliveries.drop_last(),
        ),
        nodes.drop_last().last() == nodes[deliveries.len() - 1],
        clocks.drop_last().last() == clocks[deliveries.len() - 1],
        deliveries.flatten() == deliveries.drop_last().flatten() + deliveries.last(),
        rate_limit::remote_ops_merged(
            nodes[deliveries.len() - 1],
            clocks[deliveries.len() - 1],
            times[deliveries.len() - 1],
            deliveries.last(),
            nodes.last(),
            clocks.last(),
        ),
{
    let rest = deliveries.drop_last();
    assert(deliveries =~= rest.push(deliveries.last()));
    rest.lemma_flatten_push(deliveries.last());
    assert forall|i: int| 0 <= i < rest.len() implies rate_limit::remote_ops_merged(
        nodes.drop_last()[i],
        clocks.drop_last()[i],
        times.drop_last()[i],
        #[trigger] rest[i],
        nodes.drop_last()[i + 1],
        clocks.drop_last()[i + 1],
    ) by {
        assert(rest[i] == deliveries[i]);
    }
    assert(deliveries[deliveries.len() - 1] == deliveries.last());
}

/// However many operations a node receives, and in however many lists, its state is
/// what all of them add up to, together with those in `base` that it reflected before.
pub proof fn law_deliveries_add_up(
    nodes: Seq<RateLimitEngineView>,
    clocks: Seq<u64>,
    times: Seq<u64>,
    deliveries: Seq<Seq<OperationView>>,
    base: Seq<OperationView>,
)
    requires
        receives(nodes, clocks, times, deliveries),
        reflects(nodes[0].state, base),
        orderly(base + deliveries.flatten()),
    ensures
        reflects(nodes.last().state, base + deliveries.flatten()),
    decreases deliveries.len(),
{
    if deliveries.len() == 0 {
        assert(deliveries =~= Seq::empty());
        assert(base + deliveries.flatten() =~= base);
    } else {
        let n = deliveries.len() as int;
        let (rest, ops) = (deliveries.drop_last(), deliveries.last());
        let so_far = base + rest.flatten();
        lemma_receives_part(nodes, clocks, times, deliveries);
        assert(base + deliveries.flatten() =~= so_far + ops);
        op_sets::lemma_concat_members(so_far, ops);
        lemma_orderly_part(so_far + ops, so_far);
        law_deliveries_add_up(
            nodes.drop_last(),
            clocks.drop_last(),
            times.drop_last(),
            rest,
            base,
        );
        lemma_received_reflects(
            nodes[n - 1],
            clocks[n - 1],
            times[n - 1],
            so_far,
            ops,
            nodes.last(),
            clocks.last(),
        );
    }
}

/// A node that starts without keys holds of each key what the operations that it was
/// given on that key add up to, in whatever order, in however many lists and however
/// often they came.
pub proof fn law_fresh_node_adds_up(
    nodes: Seq<RateLimitEngineView>,
    clocks: Seq<u64>,
    times: Seq<u64>,
    deliveries: Seq<Seq<OperationView>>,
    ops: Seq<OperationView>,
    key: Seq<char>,
)
    requires
        receives(nodes, clocks, times, deliveries),
        nodes[0].state.entries == Map::<Seq<char>, ShardEntryView>::empty(),
        op_sets::same_members(deliveries.flatten(), ops),
        orderly(ops),
    ensures
        ({
            let entries = nodes.last().state.entries;
            match epoch_max_wins::operations_state(operation_log::on_key(ops, key)) {
                Some(x) => entries.contains_key(key) && entries[key].state == x,
                None => !entries.contains_key(key),
            }
        }),
{
    let base = Seq::<OperationView>::empty();
    let flat = deliveries.flatten();
    assert(base + flat =~= flat);
    assert forall|k: Seq<char>| #[trigger] reflects_key(nodes[0].state, base, k) by {
        operation_log::lemma_on_key(base, k);
        assert(operation_log::on_key(base, k) =~= Seq::empty());
    }
    lemma_orderly_part(ops, flat);
    law_deliveries_add_up(nodes, clocks, times, deliveries, base);
    lemma_reflects_members(nodes.last().state, flat, ops);
    assert(reflects_key(nodes.last().state, ops, key));
}

/// Two nodes that were given the same operations agree, however the operations were
/// split into lists, in whatever order they came, and however often. What each of them
/// held before counts among the operations.
pub proof fn law_same_deliveries_agree(
    nodes_a: Seq<RateLimitEngineView>,
    clocks_a: Seq<u64>,
    times_a: Seq<u64>,
    deliveries_a: Seq<Seq<OperationView>>,
    base_a: Seq<OperationView>,
    nodes_b: Seq<RateLimitEngineView>,
    clocks_b: Seq<u64>,
    times_b: Seq<u64>,
    deliveries_b: Seq<Seq<OperationView>>,
    base_b: Seq<OperationView>,
)
    requires
        receives(nodes_a, clocks_a, times_a, deliveries_a),
        receives(nodes_b, clocks_b, times_b, deliveries_b),
        reflects(nodes_a[0].state, base_a),
        reflects(nodes_b[0].state, base_b),
        op_sets::same_members(base_a + deliveries_a.flatten(), base_b + deliveries_b.flatten()),
        orderly(base_a + deliveries_a.flatten()),
    ensures
        agree(nodes_a.last().state, nodes_b.last().state),
{
    let (a, b) = (base_a + deliveries_a.flatten(), base_b + deliveries_b.flatten());
    lemma_orderly_part(a, b);
    law_deliveries_add_up(nodes_a, clocks_a, times_a, deliveries_a, base_a);
    law_deliveries_add_up(nodes_b, clocks_b, times_b, deliveries_b, base_b);
    law_same_operations_same_states(nodes_a.last().state, nodes_b.last().state, a, b);
}

/// What a node was given before, all of it or a part, changes nothing when it is
/// delivered again, not even the change counter. Only the clock may advance.
pub proof fn law_redelivery_is_no_change(
    nodes: Seq<RateLimitEngineView>,
    clocks: Seq<u64>,
    times: Seq<u64>,
    deliveries: Seq<Seq<OperationView>>,
    base: Seq<OperationView>,
    later: u64,
    again: Seq<OperationView>,
    after: RateLimitEngineView,
    clock_now: u64,
)
    requires
        receives(nodes, clocks, times, deliveries),
        reflects(nodes[0].state, base),
        orderly(base + deliveries.flatten()),
        rate_limit::entries_wf(nodes.last().state.entries),
        forall|op: OperationView| #[trigger]
            again.contains(op) ==> (base + deliveries.flatten()).contains(op),
        rate_limit::remote_ops_merged(
            nodes.last(),
            clocks.last(),
            later,
            again,
            after,
            clock_now,
        ),
    ensures
        after.state == nodes.last().state,
{
    let all = base + deliveries.flatten();
    let held = nodes.last().state;
    law_deliveries_add_up(nodes, clocks, times, deliveries, base);
    let sorted = operation_log::stable_sorted(again);
    op_sets::lemma_sorted_members(again);
    assert forall|i: int| 0 <= i < sorted.len() implies settled(held, #[trigger] sorted[i]) by {
        let op = sorted[i];
        assert(sorted.contains(op));
        assert(again.contains(op));
        lemma_member_settled(held, all, op);
    }
    lemma_settled_all(held, sorted, later);
}

/// An operation that a state reflects would change nothing any more.
proof fn lemma_member_settled(s: RateLimitView, all: Seq<OperationView>, op: OperationView)
    requires
        reflects(s, all),
        orderly(all),
        all.contains(op),
    ensures
        settled(s, op),
{
    let group = operation_log::on_key(all, op.key);
    operation_log::lemma_on_key(all, op.key);
    assert(group.contains(op));
    lemma_orderly_fair(all, all);
    lemma_fair_on_key(all, all, op.key);
    epoch_convergence::lemma_list_absorbs(key_points(all, op.key), group);
    assert(reflects_key(s, all, op.key));
}

/// The clock of a node passes every operation that it is given: what the node writes
/// next is newer than all of them, unless the clock is at its maximum.
pub proof fn law_clock_passes_deliveries(
    nodes: Seq<RateLimitEngineView>,
    clocks: Seq<u64>,
    times: Seq<u64>,
    deliveries: Seq<Seq<OperationView>>,
)
    requires
        receives(nodes, clocks, times, deliveries),
    ensures
        clocks[0] <= clocks.last(),
        lww_convergence::clock_covers(clocks.last(), deliveries.flatten()),
        forall|op: OperationView| #[trigger]
            deliveries.flatten().contains(op) ==> op.version.timestamp < replica::next_timestamp(
                clocks.last(),
            ) || clocks.last() == u64::MAX,
    decreases deliveries.len(),
{
    if deliveries.len() == 0 {
        assert(deliveries =~= Seq::empty());
    } else {
        let (rest, ops) = (deliveries.drop_last(), deliveries.last());
        lemma_receives_part(nodes, clocks, times, deliveries);
        law_clock_passes_deliveries(
            nodes.drop_last(),
            clocks.drop_last(),
            times.drop_last(),
            rest,
        );
        let sorted = operation_log::stable_sorted(ops);
        op_sets::lemma_sorted_members(ops);
        lww_convergence::lemma_clock_after(clocks[deliveries.len() - 1], sorted);
        op_sets::lemma_concat_members(rest.flatten(), ops);
        assert forall|op: OperationView| #[trigger]
            deliveries.flatten().contains(op) implies op.version.timestamp <= clocks.last() by {
            if ops.contains(op) {
                assert(sorted.contains(op));
            }
        }
    }
}

proof fn lemma_settled_all(s: RateLimitView, ops: Seq<OperationView>, now: u64)
    requires
        rate_limit::entries_wf(s.entries),
        forall|i: int| 0 <= i < ops.len() ==> settled(s, #[trigger] ops[i]),
    ensures
        rate_limit::rate_limit_apply_all(s, ops, now) == s,
    decreases ops.len(),
{
    if ops.len() > 0 {
        let rest = ops.drop_last();
        assert forall|i: int| 0 <= i < rest.len() implies settled(s, #[trigger] rest[i]) by {
            assert(rest[i] == ops[i]);
        }
        lemma_settled_all(s, rest, now);
        assert(settled(s, ops[ops.len() - 1]));
        lemma_settled(s, ops.last(), now);
    }
}

} // verus!
