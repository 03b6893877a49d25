//! Operations on a rate-limit key add up to the same state, in whatever order and
//! however often they arrive.
//!
//! Merging is a join: a state absorbs another one if merging that in changes nothing,
//! and the state of a list of operations is the least one that absorbs them all.

use vstd::prelude::*;

use super::epoch_laws;
use super::epoch_max_wins;
use super::epoch_max_wins::{LivePoint, ShardView};
use super::op_sets;
use super::operation::OperationView;

verus! {

/// Merging `b` into `a` changes nothing.
pub open spec fn absorbs(a: ShardView, b: ShardView) -> bool {
    epoch_max_wins::merge_states(a, b) == a
}

/// Merging any of the operations into `a` changes nothing.
pub open spec fn absorbs_all(a: ShardView, ops: Seq<OperationView>) -> bool {
    forall|op: OperationView| #[trigger]
        ops.contains(op) ==> (epoch_max_wins::operation_state(op) matches Some(o) ==> absorbs(a, o))
}

/// The points of the state are among the given ones.
pub open spec fn within(s: ShardView, points: Seq<LivePoint>) -> bool {
    forall|p: LivePoint| #[trigger] s.points.contains(p) ==> points.contains(p)
}

/// Every operation stands for a state in normal form with points among the given
/// ones, or is malformed.
pub open spec fn fair(ops: Seq<OperationView>, points: Seq<LivePoint>) -> bool {
    forall|op: OperationView| #[trigger]
        ops.contains(op) ==> (epoch_max_wins::operation_state(op) matches Some(o)
            ==> epoch_laws::normal(o) && within(o, points))
}

proof fn lemma_coherent_pair(points: Seq<LivePoint>, a: ShardView, b: ShardView)
    requires
        epoch_laws::coherent(points),
        within(a, points),
        within(b, points),
    ensures
        epoch_laws::coherent(a.points + b.points),
{
    epoch_laws::lemma_concat_members(a.points, b.points);
    epoch_laws::lemma_coherent_members(a.points + b.points, points);
}

proof fn lemma_within_merge(points: Seq<LivePoint>, a: ShardView, b: ShardView)
    requires
        within(a, points),
        within(b, points),
    ensures
        within(epoch_max_wins::merge_states(a, b), points),
{
    epoch_laws::lemma_merged_members(a, b);
    epoch_laws::lemma_concat_members(a.points, b.points);
    assert forall|p: LivePoint| #[trigger]
        epoch_max_wins::merge_states(a, b).points.contains(p) implies points.contains(p) by {
        assert((a.points + b.points).contains(p));
    }
}

proof fn lemma_commutes(points: Seq<LivePoint>, a: ShardView, b: ShardView)
    requires
        epoch_laws::coherent(points),
        within(a, points),
        within(b, points),
    ensures
        epoch_max_wins::merge_states(a, b) == epoch_max_wins::merge_states(b, a),
{
    lemma_coherent_pair(points, a, b);
    epoch_laws::law_merge_commutes(a, b);
}

proof fn lemma_associates(points: Seq<LivePoint>, a: ShardView, b: ShardView, c: ShardView)
    requires
        epoch_laws::coherent(points),
        within(a, points),
        within(b, points),
        within(c, points),
    ensures
        epoch_max_wins::merge_states(epoch_max_wins::merge_states(a, b), c)
            == epoch_max_wins::merge_states(a, epoch_max_wins::merge_states(b, c)),
{
    epoch_laws::lemma_concat_members(a.points, b.points);
    epoch_laws::lemma_concat_members(a.points + b.points, c.points);
    epoch_laws::lemma_coherent_members(a.points + b.points + c.points, points);
    epoch_laws::law_merge_associates(a, b, c);
}

/// What is absorbed stays absorbed when more is merged in.
proof fn lemma_absorbed_stays(
    points: Seq<LivePoint>,
    a: ShardView,
    more: ShardView,
    b: ShardView,
)
    requires
        epoch_laws::coherent(points),
        within(a, points),
        within(more, points),
        within(b, points),
        absorbs(a, b),
    ensures
        absorbs(epoch_max_wins::merge_states(a, more), b),
{
    lemma_associates(points, a, more, b);
    lemma_commutes(points, more, b);
    lemma_associates(points, a, b, more);
}

/// What is absorbed by something absorbed is absorbed.
pub proof fn lemma_absorbs_transitive(
    points: Seq<LivePoint>,
    a: ShardView,
    b: ShardView,
    c: ShardView,
)
    requires
        epoch_laws::coherent(points),
        within(a, points),
        within(b, points),
        within(c, points),
        absorbs(a, b),
        absorbs(b, c),
    ensures
        absorbs(a, c),
{
    lemma_associates(points, a, b, c);
}

proof fn lemma_rest_fair(ops: Seq<OperationView>, points: Seq<LivePoint>)
    requires
        ops.len() > 0,
        fair(ops, points),
    ensures
        fair(ops.drop_last(), points),
        ops.contains(ops.last()),
{
    let rest = ops.drop_last();
    assert(ops[ops.len() - 1] == ops.last());
    assert forall|op: OperationView| #[trigger] rest.contains(op) implies (
    epoch_max_wins::operation_state(op) matches Some(o) ==> epoch_laws::normal(o) && within(
        o,
        points,
    )) by {
        let k = choose|k: int| 0 <= k < rest.len() && rest[k] == op;
        assert(ops[k] == op);
        assert(ops.contains(op));
    }
}

/// The state of a list of operations absorbs each of them.
pub proof fn lemma_list_absorbs(points: Seq<LivePoint>, ops: Seq<OperationView>)
    requires
        epoch_laws::coherent(points),
        fair(ops, points),
    ensures
        match epoch_max_wins::operations_state(ops) {
            Some(s) => within(s, points) && epoch_laws::normal(s) && absorbs_all(s, ops),
            None => forall|op: OperationView| #[trigger]
                ops.contains(op) ==> epoch_max_wins::operation_state(op) is None,
        },
    decreases ops.len(),
{
    if ops.len() > 0 {
        let rest = ops.drop_last();
        let last = ops.last();
        lemma_rest_fair(ops, points);
        lemma_list_absorbs(points, rest);
        assert forall|op: OperationView| #[trigger] ops.contains(op) implies rest.contains(op) || op
            == last by {
            let k = choose|k: int| 0 <= k < ops.len() && ops[k] == op;
            if k < rest.len() {
                assert(rest[k] == op);
            }
        }
        if let Some(o) = epoch_max_wins::operation_state(last) {
            if let Some(r) = epoch_max_wins::operations_state(rest) {
                let s = epoch_max_wins::merge_states(r, o);
                lemma_within_merge(points, r, o);
                epoch_laws::law_merge_normalizes(r, o);
                lemma_coherent_pair(points, r, o);
                epoch_laws::law_merge_absorbs(r, o);
                assert forall|op: OperationView| #[trigger] ops.contains(op) implies (
                epoch_max_wins::operation_state(op) matches Some(x) ==> absorbs(s, x)) by {
                    if op != last {
                        assert(rest.contains(op));
                        if let Some(x) = epoch_max_wins::operation_state(op) {
                            lemma_absorbed_stays(points, r, o, x);
                        }
                    }
                }
            } else {
                epoch_laws::law_merge_idempotent(o);
            }
        }
    }
}

/// A state that absorbs every operation of a list absorbs the state of the list.
pub proof fn lemma_absorbs_list(points: Seq<LivePoint>, a: ShardView, ops: Seq<OperationView>)
    requires
        epoch_laws::coherent(points),
        within(a, points),
        fair(ops, points),
        absorbs_all(a, ops),
    ensures
        epoch_max_wins::operations_state(ops) matches Some(s) ==> absorbs(a, s),
    decreases ops.len(),
{
    if ops.len() > 0 {
        let rest = ops.drop_last();
        lemma_rest_fair(ops, points);
        assert forall|op: OperationView| #[trigger] rest.contains(op) implies (
        epoch_max_wins::operation_state(op) matches Some(o) ==> absorbs(a, o)) by {
            let k = choose|k: int| 0 <= k < rest.len() && rest[k] == op;
            assert(ops[k] == op);
            assert(ops.contains(op));
        }
        lemma_absorbs_list(points, a, rest);
        lemma_list_absorbs(points, rest);
        if let (Some(r), Some(o)) = (
            epoch_max_wins::operations_state(rest),
            epoch_max_wins::operation_state(ops.last()),
        ) {
            lemma_associates(points, a, r, o);
        }
    }
}

/// Two lists of which each absorbs the other have the same state.
pub proof fn lemma_same_state(
    points: Seq<LivePoint>,
    a: Seq<OperationView>,
    b: Seq<OperationView>,
)
    requires
        epoch_laws::coherent(points),
        fair(a, points),
        fair(b, points),
        epoch_max_wins::operations_state(a) matches Some(s) ==> absorbs_all(s, b),
        epoch_max_wins::operations_state(b) matches Some(s) ==> absorbs_all(s, a),
        epoch_max_wins::operations_state(a) is Some <==> epoch_max_wins::operations_state(b) is Some,
    ensures
        epoch_max_wins::operations_state(a) == epoch_max_wins::operations_state(b),
{
    lemma_list_absorbs(points, a);
    lemma_list_absorbs(points, b);
    if let (Some(s), Some(t)) = (
        epoch_max_wins::operations_state(a),
        epoch_max_wins::operations_state(b),
    ) {
        lemma_absorbs_list(points, s, b);
        lemma_absorbs_list(points, t, a);
        lemma_commutes(points, s, t);
    }
}

/// Lists that hold the same operations, in whatever order and however often, add up
/// to the same state, if one version stamps one value and the states that the
/// operations carry are in normal form.
pub proof fn law_same_operations_same_state(
    points: Seq<LivePoint>,
    a: Seq<OperationView>,
    b: Seq<OperationView>,
)
    requires
        epoch_laws::coherent(points),
        fair(a, points),
        op_sets::same_members(a, b),
    ensures
        epoch_max_wins::operations_state(a) == epoch_max_wins::operations_state(b),
{
    assert forall|op: OperationView| #[trigger] b.contains(op) implies (
    epoch_max_wins::operation_state(op) matches Some(o) ==> epoch_laws::normal(o) && within(
        o,
        points,
    )) by {
        assert(a.contains(op));
    }
    lemma_list_absorbs(points, a);
    lemma_list_absorbs(points, b);
    if let Some(s) = epoch_max_wins::operations_state(a) {
        assert forall|op: OperationView| #[trigger] b.contains(op) implies (
        epoch_max_wins::operation_state(op) matches Some(o) ==> absorbs(s, o)) by {
            assert(a.contains(op));
        }
    }
    if let Some(s) = epoch_max_wins::operations_state(b) {
        assert forall|op: OperationView| #[trigger] a.contains(op) implies (
        epoch_max_wins::operation_state(op) matches Some(o) ==> absorbs(s, o)) by {
            assert(b.contains(op));
        }
    }
    if epoch_max_wins::operations_state(a) is None {
        lemma_none_if_malformed(b);
    }
    if epoch_max_wins::operations_state(b) is None {
        lemma_none_if_malformed(a);
    }
    lemma_same_state(points, a, b);
}

/// Malformed operations leave no state.
pub proof fn lemma_none_if_malformed(ops: Seq<OperationView>)
    ensures
        (forall|op: OperationView| #[trigger]
            ops.contains(op) ==> epoch_max_wins::operation_state(op) is None)
            ==> epoch_max_wins::operations_state(ops) is None,
    decreases ops.len(),
{
    if ops.len() > 0 && (forall|op: OperationView| #[trigger]
        ops.contains(op) ==> epoch_max_wins::operation_state(op) is None) {
        let rest = ops.drop_last();
        assert(ops[ops.len() - 1] == ops.last());
        assert(ops.contains(ops.last()));
        assert forall|op: OperationView| #[trigger] rest.contains(
            op,
        ) implies epoch_max_wins::operation_state(op) is None by {
            let k = choose|k: int| 0 <= k < rest.len() && rest[k] == op;
            assert(ops[k] == op);
            assert(ops.contains(op));
        }
        lemma_none_if_malformed(rest);
    }
}

/// Two lists have the same state if they differ only in that one holds an operation
/// in place of the operations that it stands for.
pub proof fn lemma_same_state_folded(
    points: Seq<LivePoint>,
    x: Seq<OperationView>,
    y: Seq<OperationView>,
    parts: Seq<OperationView>,
    folded: OperationView,
)
    requires
        epoch_laws::coherent(points),
        fair(x, points),
        fair(y, points),
        fair(parts, points),
        epoch_max_wins::operations_state(parts) is Some,
        epoch_max_wins::operation_state(folded) == epoch_max_wins::operations_state(parts),
        forall|o: OperationView| #[trigger] x.contains(o) ==> y.contains(o) || o == folded,
        forall|o: OperationView| #[trigger]
            y.contains(o) ==> x.contains(o) || (parts.contains(o) && x.contains(folded)),
        x.contains(folded) && !y.contains(folded) ==> forall|o: OperationView| #[trigger]
            parts.contains(o) ==> y.contains(o),
    ensures
        epoch_max_wins::operations_state(x) == epoch_max_wins::operations_state(y),
{
    let f = epoch_max_wins::operations_state(parts)->0;
    lemma_list_absorbs(points, x);
    lemma_list_absorbs(points, y);
    lemma_list_absorbs(points, parts);
    if let Some(s) = epoch_max_wins::operations_state(x) {
        assert forall|o: OperationView| #[trigger] y.contains(o) implies (
        epoch_max_wins::operation_state(o) matches Some(z) ==> absorbs(s, z)) by {
            if !x.contains(o) {
                assert(parts.contains(o));
                if let Some(z) = epoch_max_wins::operation_state(o) {
                    lemma_absorbs_transitive(points, s, f, z);
                }
            }
        }
    } else {
        assert forall|o: OperationView| #[trigger] y.contains(
            o,
        ) implies epoch_max_wins::operation_state(o) is None by {
        }
        lemma_none_if_malformed(y);
    }
    if let Some(s) = epoch_max_wins::operations_state(y) {
        assert forall|o: OperationView| #[trigger] x.contains(o) implies (
        epoch_max_wins::operation_state(o) matches Some(z) ==> absorbs(s, z)) by {
            if !y.contains(o) {
                assert forall|p: OperationView| #[trigger] parts.contains(p) implies (
                epoch_max_wins::operation_state(p) matches Some(z) ==> absorbs(s, z)) by {
                    assert(y.contains(p));
                }
                lemma_absorbs_list(points, s, parts);
            }
        }
    } else {
        assert forall|o: OperationView| #[trigger] x.contains(
            o,
        ) implies epoch_max_wins::operation_state(o) is None by {
            if !y.contains(o) {
                assert forall|p: OperationView| #[trigger] parts.contains(
                    p,
                ) implies epoch_max_wins::operation_state(p) is None by {
                    assert(y.contains(p));
                }
                lemma_none_if_malformed(parts);
            }
        }
        lemma_none_if_malformed(x);
    }
    lemma_same_state(points, x, y);
}

} // verus!
