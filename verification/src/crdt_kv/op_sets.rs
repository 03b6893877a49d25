//! Lists of operations, seen as sets.

use vstd::prelude::*;

use super::operation::OperationView;
use super::operation_log;

verus! {

/// The two lists hold the same operations, in whatever order and however often.
pub open spec fn same_members(a: Seq<OperationView>, b: Seq<OperationView>) -> bool {
    forall|op: OperationView| a.contains(op) <==> b.contains(op)
}

pub proof fn lemma_concat_members(a: Seq<OperationView>, b: Seq<OperationView>)
    ensures
        forall|o: OperationView| #[trigger] (a + b).contains(o) <==> a.contains(o) || b.contains(o),
{
    assert forall|o: OperationView| #[trigger]
        (a + b).contains(o) <==> a.contains(o) || b.contains(o) by {
        let s = a + b;
        if s.contains(o) {
            let k = choose|k: int| 0 <= k < s.len() && s[k] == o;
            if k < a.len() {
                assert(a[k] == o);
            } else {
                assert(b[k - a.len()] == o);
            }
        }
        if a.contains(o) {
            let k = choose|k: int| 0 <= k < a.len() && a[k] == o;
            assert(s[k] == o);
        }
        if b.contains(o) {
            let k = choose|k: int| 0 <= k < b.len() && b[k] == o;
            assert(s[a.len() + k] == o);
        }
    }
}

pub proof fn lemma_push_members(ops: Seq<OperationView>, op: OperationView)
    ensures
        forall|o: OperationView| #[trigger]
            ops.push(op).contains(o) <==> ops.contains(o) || o == op,
{
    lemma_concat_members(ops, seq![op]);
    assert(ops.push(op) =~= ops + seq![op]);
    assert(seq![op][0] == op);
}

/// Sorting keeps the operations.
pub proof fn lemma_sorted_members(ops: Seq<OperationView>)
    ensures
        same_members(ops, operation_log::stable_sorted(ops)),
{
    broadcast use vstd::seq_lib::group_to_multiset_ensures;

    operation_log::lemma_stable_sorted(ops);
    let sorted = operation_log::stable_sorted(ops);
    assert forall|op: OperationView| ops.contains(op) <==> sorted.contains(op) by {
        assert(ops.to_multiset().count(op) == sorted.to_multiset().count(op));
    }
}

} // verus!
