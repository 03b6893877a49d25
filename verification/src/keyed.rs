//! Lists of keyed values with distinct keys, as maps.

use vstd::prelude::*;

verus! {

/// Some pair has the key.
pub open spec fn has_key<V>(pairs: Seq<(Seq<char>, V)>, key: Seq<char>) -> bool {
    exists|i: int| 0 <= i < pairs.len() && (#[trigger] pairs[i]).0 == key
}

/// No key occurs twice.
pub open spec fn distinct_keys<V>(pairs: Seq<(Seq<char>, V)>) -> bool {
    forall|i: int, j: int|
        0 <= i < j < pairs.len() ==> (#[trigger] pairs[i]).0 != (#[trigger] pairs[j]).0
}

/// The map that a list of pairs with distinct keys stands for.
pub open spec fn pairs_map<V>(pairs: Seq<(Seq<char>, V)>) -> Map<Seq<char>, V> {
    Map::new(
        |key: Seq<char>| has_key(pairs, key),
        |key: Seq<char>|
            pairs[choose|i: int| 0 <= i < pairs.len() && (#[trigger] pairs[i]).0 == key].1,
    )
}

/// A pair of the list is an entry of the map.
pub proof fn lemma_at<V>(pairs: Seq<(Seq<char>, V)>, i: int)
    requires
        distinct_keys(pairs),
        0 <= i < pairs.len(),
    ensures
        pairs_map(pairs).contains_key(pairs[i].0),
        pairs_map(pairs)[pairs[i].0] == pairs[i].1,
{
    let key = pairs[i].0;
    assert(has_key(pairs, key));
    let k = choose|k: int| 0 <= k < pairs.len() && (#[trigger] pairs[k]).0 == key;
    if k < i {
        assert(pairs[k].0 != pairs[i].0);
    } else if i < k {
        assert(pairs[i].0 != pairs[k].0);
    }
}

/// Replacing the value of a pair replaces the value of its key.
pub proof fn lemma_update<V>(pairs: Seq<(Seq<char>, V)>, i: int, v: V)
    requires
        distinct_keys(pairs),
        0 <= i < pairs.len(),
    ensures
        distinct_keys(pairs.update(i, (pairs[i].0, v))),
        pairs_map(pairs.update(i, (pairs[i].0, v))) == pairs_map(pairs).insert(pairs[i].0, v),
{
    let key = pairs[i].0;
    let after = pairs.update(i, (key, v));
    assert forall|x: Seq<char>| has_key(after, x) <==> has_key(pairs, x) by {
        if has_key(pairs, x) {
            let k = choose|k: int| 0 <= k < pairs.len() && (#[trigger] pairs[k]).0 == x;
            assert(after[k].0 == x);
        }
        if has_key(after, x) {
            let k = choose|k: int| 0 <= k < after.len() && (#[trigger] after[k]).0 == x;
            assert(pairs[k].0 == x);
        }
    }
    assert(has_key(pairs, key));
    assert forall|x: Seq<char>| #[trigger] has_key(after, x) implies pairs_map(after)[x]
        == pairs_map(pairs).insert(key, v)[x] by {
        let k = choose|k: int| 0 <= k < after.len() && (#[trigger] after[k]).0 == x;
        lemma_at(after, k);
        lemma_at(pairs, k);
        lemma_at(after, i);
    }
    assert(pairs_map(after) =~= pairs_map(pairs).insert(key, v));
}

/// Adding a pair with a new key adds an entry.
pub proof fn lemma_push<V>(pairs: Seq<(Seq<char>, V)>, key: Seq<char>, v: V)
    requires
        distinct_keys(pairs),
        !has_key(pairs, key),
    ensures
        distinct_keys(pairs.push((key, v))),
        pairs_map(pairs.push((key, v))) == pairs_map(pairs).insert(key, v),
{
    let after = pairs.push((key, v));
    assert forall|i: int, j: int| 0 <= i < j < after.len() implies (#[trigger] after[i]).0 != (
    #[trigger] after[j]).0 by {
        assert(after[i] == pairs[i]);
        if j < pairs.len() {
            assert(after[j] == pairs[j]);
        }
    }
    assert forall|x: Seq<char>| has_key(after, x) <==> has_key(pairs, x) || x == key by {
        if has_key(pairs, x) {
            let k = choose|k: int| 0 <= k < pairs.len() && (#[trigger] pairs[k]).0 == x;
            assert(after[k].0 == x);
        }
        assert(after[pairs.len() as int].0 == key);
        if has_key(after, x) {
            let k = choose|k: int| 0 <= k < after.len() && (#[trigger] after[k]).0 == x;
            if k < pairs.len() {
                assert(pairs[k].0 == x);
            }
        }
    }
    assert forall|x: Seq<char>| #[trigger] has_key(after, x) implies pairs_map(after)[x]
        == pairs_map(pairs).insert(key, v)[x] by {
        let k = choose|k: int| 0 <= k < after.len() && (#[trigger] after[k]).0 == x;
        lemma_at(after, k);
        if k < pairs.len() {
            assert(pairs[k] == after[k]);
            lemma_at(pairs, k);
        }
    }
    assert(pairs_map(after) =~= pairs_map(pairs).insert(key, v));
}

/// Removing a pair removes the entry of its key.
pub proof fn lemma_remove<V>(pairs: Seq<(Seq<char>, V)>, i: int)
    requires
        distinct_keys(pairs),
        0 <= i < pairs.len(),
    ensures
        distinct_keys(pairs.remove(i)),
        pairs_map(pairs.remove(i)) == pairs_map(pairs).remove(pairs[i].0),
{
    let key = pairs[i].0;
    let after = pairs.remove(i);
    assert forall|x: int, y: int| 0 <= x < y < after.len() implies (#[trigger] after[x]).0 != (
    #[trigger] after[y]).0 by {
        let (u, v) = (
            if x < i {
                x
            } else {
                x + 1
            },
            if y < i {
                y
            } else {
                y + 1
            },
        );
        assert(after[x] == pairs[u] && after[y] == pairs[v]);
    }
    assert forall|x: Seq<char>| has_key(after, x) <==> has_key(pairs, x) && x != key by {
        if has_key(pairs, x) && x != key {
            let k = choose|k: int| 0 <= k < pairs.len() && (#[trigger] pairs[k]).0 == x;
            assert(after[if k < i {
                k
            } else {
                k - 1
            }].0 == x);
        }
        if has_key(after, x) {
            let k = choose|k: int| 0 <= k < after.len() && (#[trigger] after[k]).0 == x;
            let u = if k < i {
                k
            } else {
                k + 1
            };
            assert(pairs[u].0 == x);
            if u < i {
                assert(pairs[u].0 != pairs[i].0);
            } else {
                assert(pairs[i].0 != pairs[u].0);
            }
        }
    }
    assert forall|x: Seq<char>| #[trigger] has_key(after, x) implies pairs_map(after)[x]
        == pairs_map(pairs)[x] by {
        let k = choose|k: int| 0 <= k < after.len() && (#[trigger] after[k]).0 == x;
        let u = if k < i {
            k
        } else {
            k + 1
        };
        lemma_at(after, k);
        lemma_at(pairs, u);
        assert(after[k] == pairs[u]);
    }
    assert(pairs_map(after) =~= pairs_map(pairs).remove(key));
}

/// The map has as many entries as the list has pairs.
pub proof fn lemma_len<V>(pairs: Seq<(Seq<char>, V)>)
    requires
        distinct_keys(pairs),
    ensures
        pairs_map(pairs).dom().finite(),
        pairs_map(pairs).dom().len() == pairs.len(),
    decreases pairs.len(),
{
    if pairs.len() == 0 {
        assert(pairs_map(pairs).dom() =~= Set::empty());
    } else {
        let n = pairs.len() - 1;
        lemma_remove(pairs, n);
        lemma_len(pairs.remove(n));
        lemma_at(pairs, n);
        let (big, small) = (pairs_map(pairs).dom(), pairs_map(pairs.remove(n)).dom());
        assert(small =~= big.remove(pairs[n].0));
        assert(big =~= small.insert(pairs[n].0));
    }
}

} // verus!
