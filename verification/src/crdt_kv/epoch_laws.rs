//! What merging rate-limit states guarantees, whatever the order in which
//! replicas learn of each other's writes.

use vstd::prelude::*;

use super::epoch_max_wins;
use super::epoch_max_wins::{EpochCount, LivePoint, RateLimitVersion, ShardView};
use super::frontier;
use super::operation::OperationView;

verus! {

/// One version stamps one value: points of the same version have the same value.
pub open spec fn coherent(points: Seq<LivePoint>) -> bool {
    forall|i: int, j: int|
        0 <= i < points.len() && 0 <= j < points.len() && (#[trigger] points[i]).version == (
        #[trigger] points[j]).version ==> points[i].value == points[j].value
}

/// A state as merging leaves it: the points are their own frontier, and all of
/// them survive the tombstone.
pub open spec fn normal(s: ShardView) -> bool {
    &&& frontier::frontier(s.points) == s.points
    &&& epoch_max_wins::survivors(s.points, s.tombstone) == s.points
}

/// `p` is one of the points, and its value is greater than that of every newer
/// point.
spec fn unbeaten(points: Seq<LivePoint>, p: LivePoint) -> bool {
    &&& points.contains(p)
    &&& forall|k: int|
        0 <= k < points.len() && epoch_max_wins::version_lt(
            p.version,
            (#[trigger] points[k]).version,
        ) ==> epoch_max_wins::value_lt(points[k].value, p.value)
}

proof fn lemma_survivors_members(points: Seq<LivePoint>, t: Option<RateLimitVersion>)
    ensures
        forall|p: LivePoint| #[trigger]
            epoch_max_wins::survivors(points, t).contains(p) <==> points.contains(p)
                && epoch_max_wins::survives(p, t),
    decreases points.len(),
{
    let sp = epoch_max_wins::survivors(points, t);
    if points.len() == 0 {
        assert(sp.len() == 0) by {
            reveal(Seq::filter);
        }
    } else {
        let rest = points.drop_last();
        let last = points.last();
        let sr = epoch_max_wins::survivors(rest, t);
        lemma_survivors_members(rest, t);
        assert(sp == if epoch_max_wins::survives(last, t) {
            sr.push(last)
        } else {
            sr
        }) by {
            reveal(Seq::filter);
        }
        assert(points =~= rest + seq![last]);
        lemma_concat_members(rest, seq![last]);
        assert(sr.push(last) =~= sr + seq![last]);
        lemma_concat_members(sr, seq![last]);
        assert(seq![last][0] == last);
        assert forall|p: LivePoint| #[trigger] sp.contains(p) <==> points.contains(p)
            && epoch_max_wins::survives(p, t) by {
            assert((rest + seq![last]).contains(p) <==> rest.contains(p) || seq![last].contains(p));
            assert((sr + seq![last]).contains(p) <==> sr.contains(p) || seq![last].contains(p));
            assert(sr.contains(p) <==> rest.contains(p) && epoch_max_wins::survives(p, t));
        }
    }
}

pub proof fn lemma_coherent_members(a: Seq<LivePoint>, b: Seq<LivePoint>)
    requires
        coherent(b),
        forall|p: LivePoint| a.contains(p) ==> b.contains(p),
    ensures
        coherent(a),
{
    assert forall|i: int, j: int|
        0 <= i < a.len() && 0 <= j < a.len() && (#[trigger] a[i]).version == (
        #[trigger] a[j]).version implies a[i].value == a[j].value by {
        assert(a.contains(a[i]) && a.contains(a[j]));
        let x = choose|x: int| 0 <= x < b.len() && b[x] == a[i];
        let y = choose|y: int| 0 <= y < b.len() && b[y] == a[j];
        assert(b[x].version == b[y].version);
    }
}

/// Of coherent points the frontier keeps the unbeaten ones.
proof fn lemma_kept_is_unbeaten(points: Seq<LivePoint>)
    requires
        coherent(points),
    ensures
        forall|p: LivePoint| #[trigger]
            frontier::frontier(points).contains(p) <==> unbeaten(points, p),
{
    frontier::lemma_frontier(points);
    assert forall|p: LivePoint| #[trigger]
        frontier::frontier(points).contains(p) <==> unbeaten(points, p) by {
        if frontier::frontier(points).contains(p) {
            let i = choose|i: int| #[trigger] frontier::kept_at(points, i) && points[i] == p;
            assert forall|k: int|
                0 <= k < points.len() && epoch_max_wins::version_lt(
                    p.version,
                    (#[trigger] points[k]).version,
                ) implies epoch_max_wins::value_lt(points[k].value, p.value) by {
                assert(frontier::precedes(points, k, i));
            }
        }
        if unbeaten(points, p) {
            let q = choose|q: int| 0 <= q < points.len() && points[q] == p;
            let m = frontier::lemma_cover(points, q);
            if epoch_max_wins::version_lt(p.version, points[m].version) {
                assert(false);
            }
            assert(points[m].version == points[q].version);
            assert(points[m] == p);
        }
    }
}

/// Coherent lists with the same unbeaten points have the same frontier.
proof fn lemma_same_frontier(a: Seq<LivePoint>, b: Seq<LivePoint>)
    requires
        coherent(a),
        coherent(b),
        forall|p: LivePoint| unbeaten(a, p) <==> unbeaten(b, p),
    ensures
        frontier::frontier(a) == frontier::frontier(b),
{
    lemma_kept_is_unbeaten(a);
    lemma_kept_is_unbeaten(b);
    frontier::lemma_frontier(a);
    frontier::lemma_frontier(b);
    assert forall|p: LivePoint|
        frontier::frontier(a).contains(p) <==> frontier::frontier(b).contains(p) by {
        assert(unbeaten(a, p) <==> unbeaten(b, p));
    }
    frontier::lemma_ascending_unique(frontier::frontier(a), frontier::frontier(b));
}

/// Coherent lists with the same points have the same frontier.
proof fn lemma_same_members(a: Seq<LivePoint>, b: Seq<LivePoint>)
    requires
        coherent(a),
        coherent(b),
        forall|p: LivePoint| a.contains(p) <==> b.contains(p),
    ensures
        frontier::frontier(a) == frontier::frontier(b),
{
    assert forall|p: LivePoint| unbeaten(a, p) <==> unbeaten(b, p) by {
        if unbeaten(a, p) {
            assert forall|k: int|
                0 <= k < b.len() && epoch_max_wins::version_lt(
                    p.version,
                    (#[trigger] b[k]).version,
                ) implies epoch_max_wins::value_lt(b[k].value, p.value) by {
                assert(b.contains(b[k]));
                let m = choose|m: int| 0 <= m < a.len() && a[m] == b[k];
            }
            assert(unbeaten(b, p));
        }
        if unbeaten(b, p) {
            assert forall|k: int|
                0 <= k < a.len() && epoch_max_wins::version_lt(
                    p.version,
                    (#[trigger] a[k]).version,
                ) implies epoch_max_wins::value_lt(a[k].value, p.value) by {
                assert(a.contains(a[k]));
                let m = choose|m: int| 0 <= m < b.len() && b[m] == a[k];
            }
            assert(unbeaten(a, p));
        }
    }
    lemma_same_frontier(a, b);
}

pub proof fn lemma_concat_members(a: Seq<LivePoint>, b: Seq<LivePoint>)
    ensures
        forall|p: LivePoint| #[trigger] (a + b).contains(p) <==> a.contains(p) || b.contains(p),
{
    assert forall|p: LivePoint| #[trigger]
        (a + b).contains(p) <==> a.contains(p) || b.contains(p) by {
        let s = a + b;
        if s.contains(p) {
            let k = choose|k: int| 0 <= k < s.len() && s[k] == p;
            if k < a.len() {
                assert(a[k] == p);
            } else {
                assert(b[k - a.len()] == p);
            }
        }
        if a.contains(p) {
            let k = choose|k: int| 0 <= k < a.len() && a[k] == p;
            assert(s[k] == p);
        }
        if b.contains(p) {
            let k = choose|k: int| 0 <= k < b.len() && b[k] == p;
            assert(s[a.len() + k] == p);
        }
    }
}

/// `a` is no newer than `b`.
pub open spec fn tombstone_le(a: Option<RateLimitVersion>, b: Option<RateLimitVersion>) -> bool {
    epoch_max_wins::newer_tombstone(a, b) == b
}

/// Taking the frontier early changes nothing: of what other points and a newer
/// tombstone leave, the frontier is the same.
proof fn lemma_frontier_absorbs(
    points: Seq<LivePoint>,
    early: Option<RateLimitVersion>,
    more: Seq<LivePoint>,
    late: Option<RateLimitVersion>,
)
    requires
        coherent(points + more),
        tombstone_le(early, late),
    ensures
        frontier::frontier(
            epoch_max_wins::survivors(
                frontier::frontier(epoch_max_wins::survivors(points, early)) + more,
                late,
            ),
        ) == frontier::frontier(epoch_max_wins::survivors(points + more, late)),
{
    let s = epoch_max_wins::survivors(points, early);
    let f = frontier::frontier(s);
    let x = epoch_max_wins::survivors(f + more, late);
    let y = epoch_max_wins::survivors(points + more, late);
    lemma_survivors_members(points, early);
    lemma_survivors_members(f + more, late);
    lemma_survivors_members(points + more, late);
    lemma_concat_members(f, more);
    lemma_concat_members(points, more);
    lemma_coherent_members(s, points + more);
    lemma_kept_is_unbeaten(s);
    frontier::lemma_frontier(s);
    lemma_coherent_members(y, points + more);
    lemma_coherent_members(x, points + more);
    assert forall|p: LivePoint| unbeaten(x, p) <==> unbeaten(y, p) by {
        if unbeaten(y, p) {
            if points.contains(p) {
                assert(s.contains(p));
                assert forall|k: int|
                    0 <= k < s.len() && epoch_max_wins::version_lt(
                        p.version,
                        (#[trigger] s[k]).version,
                    ) implies epoch_max_wins::value_lt(s[k].value, p.value) by {
                    assert(s.contains(s[k]));
                    assert(points.contains(s[k]));
                    assert((points + more).contains(s[k]));
                    assert(epoch_max_wins::survives(s[k], late));
                    assert(y.contains(s[k]));
                    let m = choose|m: int| 0 <= m < y.len() && y[m] == s[k];
                }
                assert(unbeaten(s, p));
                assert(f.contains(p));
            }
            assert((f + more).contains(p));
            assert(x.contains(p));
            assert forall|k: int|
                0 <= k < x.len() && epoch_max_wins::version_lt(
                    p.version,
                    (#[trigger] x[k]).version,
                ) implies epoch_max_wins::value_lt(x[k].value, p.value) by {
                assert(x.contains(x[k]));
                assert((f + more).contains(x[k]));
                assert(f.contains(x[k]) ==> unbeaten(s, x[k]));
                assert((points + more).contains(x[k]));
                assert(y.contains(x[k]));
                let m = choose|m: int| 0 <= m < y.len() && y[m] == x[k];
            }
        }
        if unbeaten(x, p) {
            assert((f + more).contains(p));
            assert(f.contains(p) ==> unbeaten(s, p));
            assert(y.contains(p));
            assert forall|k: int|
                0 <= k < y.len() && epoch_max_wins::version_lt(
                    p.version,
                    (#[trigger] y[k]).version,
                ) implies epoch_max_wins::value_lt(y[k].value, p.value) by {
                let q = y[k];
                assert(y.contains(q));
                assert((points + more).contains(q));
                if more.contains(q) {
                    assert((f + more).contains(q));
                    assert(x.contains(q));
                    let m = choose|m: int| 0 <= m < x.len() && x[m] == q;
                } else {
                    assert(points.contains(q));
                    assert(s.contains(q));
                    let at = choose|at: int| 0 <= at < s.len() && s[at] == q;
                    let c = frontier::lemma_cover(s, at);
                    assert(f.contains(s[c]));
                    assert((f + more).contains(s[c]));
                    assert(x.contains(s[c]));
                    let m = choose|m: int| 0 <= m < x.len() && x[m] == s[c];
                    assert(epoch_max_wins::version_lt(p.version, x[m].version));
                }
            }
        }
    }
    lemma_same_frontier(x, y);
}

/// The order of two states does not matter to their merge, if one version stamps
/// one value.
pub proof fn law_merge_commutes(a: ShardView, b: ShardView)
    requires
        coherent(a.points + b.points),
    ensures
        epoch_max_wins::merge_states(a, b) == epoch_max_wins::merge_states(b, a),
{
    let t = epoch_max_wins::newer_tombstone(a.tombstone, b.tombstone);
    assert(t == epoch_max_wins::newer_tombstone(b.tombstone, a.tombstone));
    let x = epoch_max_wins::survivors(a.points + b.points, t);
    let y = epoch_max_wins::survivors(b.points + a.points, t);
    lemma_survivors_members(a.points + b.points, t);
    lemma_survivors_members(b.points + a.points, t);
    lemma_concat_members(a.points, b.points);
    lemma_concat_members(b.points, a.points);
    assert forall|p: LivePoint| x.contains(p) <==> y.contains(p) by {
        assert((a.points + b.points).contains(p) <==> (b.points + a.points).contains(p));
    }
    lemma_coherent_members(x, a.points + b.points);
    lemma_coherent_members(y, a.points + b.points);
    lemma_same_members(x, y);
}

/// The grouping of three states does not matter to their merge, if one version
/// stamps one value.
pub proof fn law_merge_associates(a: ShardView, b: ShardView, c: ShardView)
    requires
        coherent(a.points + b.points + c.points),
    ensures
        epoch_max_wins::merge_states(epoch_max_wins::merge_states(a, b), c)
            == epoch_max_wins::merge_states(a, epoch_max_wins::merge_states(b, c)),
{
    let ab = epoch_max_wins::merge_states(a, b);
    let bc = epoch_max_wins::merge_states(b, c);
    let all = a.points + b.points + c.points;
    let t = epoch_max_wins::newer_tombstone(ab.tombstone, c.tombstone);
    assert(t == epoch_max_wins::newer_tombstone(a.tombstone, bc.tombstone));
    lemma_frontier_absorbs(a.points + b.points, ab.tombstone, c.points, t);
    lemma_concat_members(a.points, b.points);
    lemma_concat_members(a.points + b.points, c.points);
    lemma_concat_members(b.points, c.points);
    lemma_concat_members(b.points + c.points, a.points);
    let turned = b.points + c.points + a.points;
    assert forall|p: LivePoint| turned.contains(p) <==> all.contains(p) by {
        assert((b.points + c.points).contains(p) <==> b.points.contains(p) || c.points.contains(p));
        assert((a.points + b.points).contains(p) <==> a.points.contains(p) || b.points.contains(p));
    }
    lemma_coherent_members(turned, all);
    lemma_frontier_absorbs(b.points + c.points, bc.tombstone, a.points, t);
    lemma_survivors_members(turned, t);
    lemma_survivors_members(all, t);
    let (st, sa) = (
        epoch_max_wins::survivors(turned, t),
        epoch_max_wins::survivors(all, t),
    );
    lemma_coherent_members(st, all);
    lemma_coherent_members(sa, all);
    lemma_same_members(st, sa);
    // The same points, with those of `a` first.
    lemma_merged_members(b, c);
    lemma_concat_members(bc.points, a.points);
    lemma_concat_members(a.points, bc.points);
    assert forall|p: LivePoint| (bc.points + a.points).contains(p) implies all.contains(p) by {
        assert(bc.points.contains(p) ==> (b.points + c.points).contains(p));
        assert((b.points + c.points).contains(p) ==> turned.contains(p));
    }
    assert forall|p: LivePoint|
        (a.points + bc.points).contains(p) <==> (bc.points + a.points).contains(p) by {
    }
    lemma_survivors_members(bc.points + a.points, t);
    lemma_survivors_members(a.points + bc.points, t);
    let (x, y) = (
        epoch_max_wins::survivors(bc.points + a.points, t),
        epoch_max_wins::survivors(a.points + bc.points, t),
    );
    assert forall|p: LivePoint| x.contains(p) <==> y.contains(p) by {
    }
    lemma_coherent_members(x, all);
    lemma_coherent_members(y, all);
    lemma_same_members(x, y);
}

/// Merging invents no point, and keeps none that the tombstone covers.
pub proof fn lemma_merged_members(a: ShardView, b: ShardView)
    ensures
        forall|p: LivePoint| #[trigger]
            epoch_max_wins::merge_states(a, b).points.contains(p) ==> (a.points
                + b.points).contains(p) && epoch_max_wins::survives(
                p,
                epoch_max_wins::newer_tombstone(a.tombstone, b.tombstone),
            ),
{
    let t = epoch_max_wins::newer_tombstone(a.tombstone, b.tombstone);
    let s = epoch_max_wins::survivors(a.points + b.points, t);
    lemma_survivors_members(a.points + b.points, t);
    frontier::lemma_frontier(s);
    assert forall|p: LivePoint| #[trigger]
        epoch_max_wins::merge_states(a, b).points.contains(p) implies (a.points
        + b.points).contains(p) && epoch_max_wins::survives(p, t) by {
        let i = choose|i: int| #[trigger] frontier::kept_at(s, i) && s[i] == p;
        assert(s.contains(s[i]));
    }
}

/// Merging a state in a second time changes nothing, if one version stamps one
/// value.
pub proof fn law_merge_absorbs(a: ShardView, b: ShardView)
    requires
        coherent(a.points + b.points),
    ensures
        epoch_max_wins::merge_states(epoch_max_wins::merge_states(a, b), b)
            == epoch_max_wins::merge_states(a, b),
{
    let ab = epoch_max_wins::merge_states(a, b);
    let t = ab.tombstone;
    assert(epoch_max_wins::newer_tombstone(t, b.tombstone) == t);
    let (one, two) = (a.points + b.points, a.points + b.points + b.points);
    lemma_concat_members(a.points, b.points);
    lemma_concat_members(one, b.points);
    assert forall|p: LivePoint| two.contains(p) <==> one.contains(p) by {
    }
    lemma_coherent_members(two, one);
    lemma_frontier_absorbs(one, t, b.points, t);
    lemma_survivors_members(one, t);
    lemma_survivors_members(two, t);
    let (x, y) = (epoch_max_wins::survivors(one, t), epoch_max_wins::survivors(two, t));
    assert forall|p: LivePoint| x.contains(p) <==> y.contains(p) by {
    }
    lemma_coherent_members(x, one);
    lemma_coherent_members(y, one);
    lemma_same_members(x, y);
}

/// Merging a state with itself changes nothing, once it is in normal form.
pub proof fn law_merge_idempotent(a: ShardView)
    requires
        normal(a),
    ensures
        epoch_max_wins::merge_states(a, a) == a,
{
    let p = a.points;
    let n = p.len() as int;
    Seq::<LivePoint>::filter_distributes_over_add(
        p,
        p,
        |q: LivePoint| epoch_max_wins::survives(q, a.tombstone),
    );
    let twice = p + p;
    frontier::lemma_frontier(p);
    assert forall|x: LivePoint| #[trigger]
        p.contains(x) <==> exists|i: int| #[trigger] frontier::kept_at(twice, i) && twice[i] == x by {
        if p.contains(x) {
            let i = choose|i: int| #[trigger] frontier::kept_at(p, i) && p[i] == x;
            assert forall|j: int|
                0 <= j < twice.len() && #[trigger] frontier::precedes(
                    twice,
                    j,
                    i,
                ) implies epoch_max_wins::value_lt(twice[j].value, twice[i].value) by {
                let k = if j < n {
                    j
                } else {
                    j - n
                };
                assert(twice[j] == p[k]);
                assert(frontier::precedes(p, k, i));
            }
            assert(frontier::kept_at(twice, i) && twice[i] == x);
        }
        if exists|i: int| #[trigger] frontier::kept_at(twice, i) && twice[i] == x {
            let i = choose|i: int| #[trigger] frontier::kept_at(twice, i) && twice[i] == x;
            let k = if i < n {
                i
            } else {
                i - n
            };
            assert(p[k] == x);
        }
    }
    assert(frontier::is_frontier(twice, p));
    frontier::lemma_frontier_unique(twice, p);
}

/// The outcome of a merge is in normal form.
pub proof fn law_merge_normalizes(a: ShardView, b: ShardView)
    ensures
        normal(epoch_max_wins::merge_states(a, b)),
{
    let m = epoch_max_wins::merge_states(a, b);
    let s = epoch_max_wins::survivors(a.points + b.points, m.tombstone);
    frontier::lemma_frontier(s);
    let f = m.points;
    assert forall|k: int| 0 <= k < f.len() implies #[trigger] frontier::kept_at(f, k) by {
        assert(f.contains(f[k]));
        let i = choose|i: int| #[trigger] frontier::kept_at(s, i) && s[i] == f[k];
        assert forall|j: int|
            0 <= j < f.len() && #[trigger] frontier::precedes(
                f,
                j,
                k,
            ) implies epoch_max_wins::value_lt(f[j].value, f[k].value) by {
            assert(f.contains(f[j]));
            let x = choose|x: int| #[trigger] frontier::kept_at(s, x) && s[x] == f[j];
            if f[k].version == f[j].version {
                assert(frontier::point_lt(f[j], f[k]));
            } else {
                assert(frontier::precedes(s, x, i));
            }
        }
    }
    assert forall|p: LivePoint| #[trigger]
        f.contains(p) <==> exists|i: int| #[trigger] frontier::kept_at(f, i) && f[i] == p by {
        if f.contains(p) {
            let k = choose|k: int| 0 <= k < f.len() && f[k] == p;
            assert(frontier::kept_at(f, k));
        }
    }
    frontier::lemma_frontier_unique(f, f);
    lemma_merged_members(a, b);
    lemma_all_survive(f, m.tombstone);
}

proof fn lemma_all_survive(points: Seq<LivePoint>, t: Option<RateLimitVersion>)
    requires
        forall|p: LivePoint| #[trigger] points.contains(p) ==> epoch_max_wins::survives(p, t),
    ensures
        epoch_max_wins::survivors(points, t) == points,
    decreases points.len(),
{
    reveal(Seq::filter);
    if points.len() > 0 {
        let rest = points.drop_last();
        assert forall|p: LivePoint| #[trigger]
            rest.contains(p) implies epoch_max_wins::survives(p, t) by {
            let k = choose|k: int| 0 <= k < rest.len() && rest[k] == p;
            assert(points[k] == p && points.contains(p));
        }
        assert(points.contains(points.last()));
        lemma_all_survive(rest, t);
        assert(points =~= rest.push(points.last()));
    }
}

/// A tombstone suppresses every write that is not newer, and a merge never
/// forgets a tombstone: what comes after it is suppressed too.
pub proof fn law_tombstone_suppresses(a: ShardView, b: ShardView, v: RateLimitVersion)
    requires
        a.tombstone == Some(v) || b.tombstone == Some(v),
    ensures
        forall|p: LivePoint| #[trigger]
            epoch_max_wins::merge_states(a, b).points.contains(p) ==> epoch_max_wins::version_lt(
                v,
                p.version,
            ),
        epoch_max_wins::merge_states(a, b).tombstone matches Some(w)
            && !epoch_max_wins::version_lt(w, v),
{
    lemma_merged_members(a, b);
}

/// A write that is newer than both tombstones is not lost: its value is at most
/// the value of the merged state.
pub proof fn law_newer_write_counts(a: ShardView, b: ShardView, p: LivePoint)
    requires
        (a.points + b.points).contains(p),
        epoch_max_wins::survives(p, a.tombstone),
        epoch_max_wins::survives(p, b.tombstone),
    ensures
        epoch_max_wins::greatest_value(epoch_max_wins::merge_states(a, b).points) matches Some(v)
            && !epoch_max_wins::value_lt(v, p.value),
{
    let t = epoch_max_wins::newer_tombstone(a.tombstone, b.tombstone);
    let s = epoch_max_wins::survivors(a.points + b.points, t);
    lemma_survivors_members(a.points + b.points, t);
    assert(s.contains(p));
    let q = choose|q: int| 0 <= q < s.len() && s[q] == p;
    let m = frontier::lemma_cover(s, q);
    frontier::lemma_frontier(s);
    let f = frontier::frontier(s);
    assert(f.contains(s[m]));
    let k = choose|k: int| 0 <= k < f.len() && f[k] == s[m];
    epoch_max_wins::lemma_greatest_value(f);
}

/// The value of a merged state is the greatest among all surviving writes.
pub proof fn law_greatest_survivor_wins(a: ShardView, b: ShardView)
    ensures
        epoch_max_wins::greatest_value(epoch_max_wins::merge_states(a, b).points)
            == epoch_max_wins::greatest_value(
            epoch_max_wins::survivors(
                a.points + b.points,
                epoch_max_wins::newer_tombstone(a.tombstone, b.tombstone),
            ),
        ),
{
    let t = epoch_max_wins::newer_tombstone(a.tombstone, b.tombstone);
    lemma_frontier_extremes(epoch_max_wins::survivors(a.points + b.points, t));
}

/// The newest surviving version is never dropped, so that a compacted operation
/// is as new as the newest write that it stands for.
pub proof fn law_newest_survivor_stays(a: ShardView, b: ShardView)
    ensures
        epoch_max_wins::newest_version(epoch_max_wins::merge_states(a, b).points)
            == epoch_max_wins::newest_version(
            epoch_max_wins::survivors(
                a.points + b.points,
                epoch_max_wins::newer_tombstone(a.tombstone, b.tombstone),
            ),
        ),
{
    let t = epoch_max_wins::newer_tombstone(a.tombstone, b.tombstone);
    lemma_frontier_extremes(epoch_max_wins::survivors(a.points + b.points, t));
}

proof fn lemma_frontier_extremes(s: Seq<LivePoint>)
    ensures
        epoch_max_wins::greatest_value(frontier::frontier(s)) == epoch_max_wins::greatest_value(s),
        epoch_max_wins::newest_version(frontier::frontier(s)) == epoch_max_wins::newest_version(s),
{
    let f = frontier::frontier(s);
    frontier::lemma_frontier(s);
    epoch_max_wins::lemma_greatest_value(f);
    epoch_max_wins::lemma_greatest_value(s);
    epoch_max_wins::lemma_newest_version(f);
    epoch_max_wins::lemma_newest_version(s);
    if f.len() > 0 {
        let i = choose|i: int|
            0 <= i < f.len() && (#[trigger] f[i]).value == epoch_max_wins::greatest_value(f)->0;
        assert(f.contains(f[i]));
        let x = choose|x: int| #[trigger] frontier::kept_at(s, x) && s[x] == f[i];
        let j = choose|j: int|
            0 <= j < f.len() && (#[trigger] f[j]).version == epoch_max_wins::newest_version(f)->0;
        assert(f.contains(f[j]));
        let y = choose|y: int| #[trigger] frontier::kept_at(s, y) && s[y] == f[j];
        assert(s.len() > 0);
    }
    if s.len() > 0 {
        let i = choose|i: int|
            0 <= i < s.len() && (#[trigger] s[i]).value == epoch_max_wins::greatest_value(s)->0;
        let m = frontier::lemma_cover(s, i);
        assert(f.contains(s[m]));
        let k = choose|k: int| 0 <= k < f.len() && f[k] == s[m];
        let j = choose|j: int|
            0 <= j < s.len() && (#[trigger] s[j]).version == epoch_max_wins::newest_version(s)->0;
        let n = frontier::lemma_cover(s, j);
        assert(f.contains(s[n]));
        let l = choose|l: int| 0 <= l < f.len() && f[l] == s[n];
        let fi = choose|i: int|
            0 <= i < f.len() && (#[trigger] f[i]).value == epoch_max_wins::greatest_value(f)->0;
        let fj = choose|j: int|
            0 <= j < f.len() && (#[trigger] f[j]).version == epoch_max_wins::newest_version(f)->0;
        assert(f.contains(f[fi]) && f.contains(f[fj]));
        let x = choose|x: int| #[trigger] frontier::kept_at(s, x) && s[x] == f[fi];
        let y = choose|y: int| #[trigger] frontier::kept_at(s, y) && s[y] == f[fj];
        assert(!epoch_max_wins::value_lt(s[i].value, s[x].value));
        assert(!epoch_max_wins::value_lt(f[fi].value, f[k].value));
        assert(!epoch_max_wins::version_lt(s[j].version, s[y].version));
        assert(!epoch_max_wins::version_lt(f[fj].version, f[l].version));
    }
}

/// Of two writes without a tombstone the greater epoch wins, whatever the counts;
/// within an epoch the greater count wins.
pub proof fn law_greater_value_wins(
    a: EpochCount,
    v: RateLimitVersion,
    b: EpochCount,
    w: RateLimitVersion,
)
    ensures
        epoch_max_wins::greatest_value(
            epoch_max_wins::merge_states(
                epoch_max_wins::point_state(a, v),
                epoch_max_wins::point_state(b, w),
            ).points,
        ) == Some(
            if epoch_max_wins::value_lt(a, b) {
                b
            } else {
                a
            },
        ),
{
    let (x, y) = (epoch_max_wins::point_state(a, v), epoch_max_wins::point_state(b, w));
    law_greatest_survivor_wins(x, y);
    epoch_max_wins::lemma_survivors_all(x.points + y.points);
    let both = x.points + y.points;
    assert(both.drop_last() =~= x.points);
    assert(x.points.drop_last() =~= Seq::empty());
    reveal_with_fuel(epoch_max_wins::greatest_value, 3);
}

/// `p` was written after the tombstone: at a later time, or at the same time by a replica
/// with a greater id.
pub open spec fn written_after(p: LivePoint, tombstone: Option<RateLimitVersion>) -> bool {
    tombstone matches Some(t) ==> t.timestamp < p.version.timestamp || (t.timestamp
        == p.version.timestamp && t.replica_id.bits < p.version.replica_id.bits)
}

/// `p` is a point of one of the states that was written after the tombstones of both.
pub open spec fn live_in(a: ShardView, b: ShardView, p: LivePoint) -> bool {
    &&& a.points.contains(p) || b.points.contains(p)
    &&& written_after(p, a.tombstone)
    &&& written_after(p, b.tombstone)
}

/// Reading the merge of two states gives the value of a point that was written after both
/// tombstones, and no such point has a greater epoch, nor a greater count in that epoch.
/// Here `p` is any such point.
pub proof fn law_merge_reads_greatest(a: ShardView, b: ShardView, p: LivePoint)
    requires
        live_in(a, b, p),
        epoch_max_wins::encoded_shard(epoch_max_wins::merge_states(a, b)).len() <= 65536,
    ensures
        ({
            let read = epoch_max_wins::decoded_value(
                epoch_max_wins::encoded_shard(epoch_max_wins::merge_states(a, b)),
            );
            &&& read matches Some(v)
            &&& p.value.epoch < v.epoch || (p.value.epoch == v.epoch && p.value.count <= v.count)
            &&& exists|q: LivePoint| #[trigger] live_in(a, b, q) && q.value == v
        }),
{
    let m = epoch_max_wins::merge_states(a, b);
    lemma_concat_members(a.points, b.points);
    assert((a.points + b.points).contains(p));
    law_newer_write_counts(a, b, p);
    epoch_max_wins::lemma_greatest_value(m.points);
    epoch_max_wins::law_decode_reads_shard(m);
    lemma_merged_members(a, b);
    let v = epoch_max_wins::greatest_value(m.points)->0;
    let i = choose|i: int| 0 <= i < m.points.len() && (#[trigger] m.points[i]).value == v;
    let q = m.points[i];
    assert(m.points.contains(q));
    assert((a.points + b.points).contains(q));
    assert(live_in(a, b, q));
}

/// Two points leave at most two.
proof fn lemma_frontier_of_two(s: Seq<LivePoint>, p: LivePoint, q: LivePoint)
    requires
        forall|x: LivePoint| s.contains(x) ==> x == p || x == q,
    ensures
        frontier::frontier(s).len() <= 2,
{
    let f = frontier::frontier(s);
    frontier::lemma_frontier(s);
    if f.len() > 2 {
        assert forall|k: int| 0 <= k < f.len() implies f[k] == p || f[k] == q by {
            assert(f.contains(f[k]));
            let i = choose|i: int| #[trigger] frontier::kept_at(s, i) && s[i] == f[k];
            assert(s.contains(s[i]));
        }
        assert(frontier::point_lt(f[0], f[1]));
        assert(frontier::point_lt(f[0], f[2]));
        assert(frontier::point_lt(f[1], f[2]));
    }
}

/// Of two points of one epoch, neither behind a tombstone, the greater count is what the
/// merge is read as, whichever is merged into the other; of points of two epochs it is
/// the one of the greater epoch, whatever the counts.
#[verifier::rlimit(60)]
pub proof fn law_greater_count_wins(
    x: LivePoint,
    y: LivePoint,
    s: Option<RateLimitVersion>,
    t: Option<RateLimitVersion>,
)
    requires
        x.value.epoch < y.value.epoch || (x.value.epoch == y.value.epoch && x.value.count
            < y.value.count),
        written_after(x, s) && written_after(x, t),
        written_after(y, s) && written_after(y, t),
    ensures
        ({
            let a = ShardView { points: seq![x], tombstone: s };
            let b = ShardView { points: seq![y], tombstone: t };
            &&& epoch_max_wins::decoded_value(
                epoch_max_wins::encoded_shard(epoch_max_wins::merge_states(a, b)),
            ) == Some(y.value)
            &&& epoch_max_wins::decoded_value(
                epoch_max_wins::encoded_shard(epoch_max_wins::merge_states(b, a)),
            ) == Some(y.value)
        }),
{
    let a = ShardView { points: seq![x], tombstone: s };
    let b = ShardView { points: seq![y], tombstone: t };
    lemma_two_points(a, b, x, y);
    lemma_two_points(b, a, y, x);
    assert(a.points[0] == x && b.points[0] == y);
    assert(live_in(a, b, x) && live_in(a, b, y));
    assert(live_in(b, a, x) && live_in(b, a, y));
    law_merge_reads_greatest(a, b, y);
    law_merge_reads_greatest(b, a, y);
    assert forall|q: LivePoint| live_in(a, b, q) implies q == x || q == y by {}
    assert forall|q: LivePoint| live_in(b, a, q) implies q == x || q == y by {}
}

/// The merge of two states of one point each respects the cap on encoded shards.
proof fn lemma_two_points(a: ShardView, b: ShardView, x: LivePoint, y: LivePoint)
    requires
        a.points == seq![x],
        b.points == seq![y],
    ensures
        epoch_max_wins::encoded_shard(epoch_max_wins::merge_states(a, b)).len() <= 65536,
{
    let m = epoch_max_wins::merge_states(a, b);
    let t = epoch_max_wins::newer_tombstone(a.tombstone, b.tombstone);
    let kept = epoch_max_wins::survivors(a.points + b.points, t);
    lemma_survivors_members(a.points + b.points, t);
    lemma_concat_members(a.points, b.points);
    assert forall|z: LivePoint| kept.contains(z) implies z == x || z == y by {
        assert((a.points + b.points).contains(z));
    }
    lemma_frontier_of_two(kept, x, y);
    epoch_max_wins::lemma_encoded_shard_len(m);
}

/// A merge keeps a point of either state only if it was written after both tombstones,
/// keeps for every such point one that is as new and has as great a value, and keeps no
/// point that a newer one with as great a value supersedes. Its tombstone is the later of
/// the two.
pub proof fn law_merge_keeps_what_counts(
    a: ShardView,
    b: ShardView,
    p: LivePoint,
    q: LivePoint,
)
    ensures
        ({
            let m = epoch_max_wins::merge_states(a, b);
            &&& m.points.contains(p) ==> live_in(a, b, p)
            &&& live_in(a, b, p) ==> exists|k: LivePoint| {
                &&& #[trigger] m.points.contains(k)
                &&& p.value.epoch < k.value.epoch || (p.value.epoch == k.value.epoch
                    && p.value.count <= k.value.count)
                &&& p.version.timestamp < k.version.timestamp || (p.version.timestamp
                    == k.version.timestamp && p.version.replica_id.bits
                    <= k.version.replica_id.bits)
            }
            &&& m.points.contains(p) && m.points.contains(q) && (p.version.timestamp
                < q.version.timestamp || (p.version.timestamp == q.version.timestamp
                && p.version.replica_id.bits < q.version.replica_id.bits)) ==> q.value.epoch
                < p.value.epoch || (q.value.epoch == p.value.epoch && q.value.count
                < p.value.count)
            &&& m.tombstone == a.tombstone || m.tombstone == b.tombstone
            &&& a.tombstone matches Some(t) ==> (m.tombstone matches Some(u) && (t.timestamp
                < u.timestamp || (t.timestamp == u.timestamp && t.replica_id.bits
                <= u.replica_id.bits)))
            &&& b.tombstone matches Some(t) ==> (m.tombstone matches Some(u) && (t.timestamp
                < u.timestamp || (t.timestamp == u.timestamp && t.replica_id.bits
                <= u.replica_id.bits)))
        }),
{
    let m = epoch_max_wins::merge_states(a, b);
    let t = epoch_max_wins::newer_tombstone(a.tombstone, b.tombstone);
    let s = epoch_max_wins::survivors(a.points + b.points, t);
    lemma_merged_members(a, b);
    lemma_concat_members(a.points, b.points);
    lemma_survivors_members(a.points + b.points, t);
    frontier::lemma_frontier(s);
    if m.points.contains(p) {
        assert((a.points + b.points).contains(p));
    }
    if live_in(a, b, p) {
        assert((a.points + b.points).contains(p));
        assert(s.contains(p));
        let at = choose|at: int| 0 <= at < s.len() && s[at] == p;
        let c = frontier::lemma_cover(s, at);
        assert(m.points.contains(s[c]));
    }
    if m.points.contains(p) && m.points.contains(q) {
        let i = choose|i: int| #[trigger] frontier::kept_at(s, i) && s[i] == p;
        let j = choose|j: int| #[trigger] frontier::kept_at(s, j) && s[j] == q;
        if epoch_max_wins::version_lt(p.version, q.version) {
            assert(frontier::precedes(s, j, i));
        }
    }
}

// ---------------------------------------------------------------------------
// Lists of operations
// ---------------------------------------------------------------------------
/// A list of operations that is not malformed throughout leaves a state with a
/// live point or a tombstone.
pub proof fn law_operations_leave_a_state(ops: Seq<OperationView>)
    ensures
        epoch_max_wins::operations_state(ops) matches Some(s) ==> s.points.len() > 0
            || s.tombstone is Some,
    decreases ops.len(),
{
    if ops.len() > 0 {
        law_operations_leave_a_state(ops.drop_last());
        if let (Some(s), Some(o)) = (
            epoch_max_wins::operations_state(ops.drop_last()),
            epoch_max_wins::operation_state(ops.last()),
        ) {
            if s.tombstone is None && o.tombstone is None {
                lemma_operation_state_nonempty(ops.last());
                epoch_max_wins::lemma_survivors_all(s.points + o.points);
                let all = s.points + o.points;
                let m = frontier::lemma_cover(all, 0);
                frontier::lemma_frontier(all);
                assert(frontier::frontier(all).contains(all[m]));
            }
        } else {
            lemma_operation_state_nonempty(ops.last());
        }
    }
}

proof fn lemma_operation_state_nonempty(op: OperationView)
    ensures
        epoch_max_wins::operation_state(op) matches Some(o) ==> o.points.len() > 0
            || o.tombstone is Some,
{
}

/// The state after a single operation.
proof fn lemma_single_operation(op: OperationView)
    ensures
        epoch_max_wins::operations_state(seq![op]) == epoch_max_wins::operation_state(op),
{
    let one = seq![op];
    assert(one.drop_last() =~= Seq::empty());
    assert(epoch_max_wins::operations_state(Seq::<OperationView>::empty()) is None);
    assert(one.last() == op);
}

/// The operation that carries a state stands for that state.
pub proof fn lemma_state_of_operation(key: Seq<char>, s: ShardView)
    requires
        s.points.len() > 0 || s.tombstone is Some,
        epoch_max_wins::encoded_shard(s).len() <= epoch_max_wins::MAX_SHARD_BYTES,
    ensures
        epoch_max_wins::operation_state(epoch_max_wins::state_operation(key, s)) == Some(s),
{
    if s.points.len() > 0 {
        epoch_max_wins::law_shard_round_trip(s, Seq::empty());
        assert(epoch_max_wins::encoded_shard(s) + Seq::empty() =~= epoch_max_wins::encoded_shard(
            s,
        ));
    } else {
        assert(s =~= epoch_max_wins::tombstone_state(s.tombstone->0));
    }
}

/// Operations after the same state lead to the same state.
proof fn lemma_operations_extend(
    a: Seq<OperationView>,
    b: Seq<OperationView>,
    late: Seq<OperationView>,
)
    requires
        epoch_max_wins::operations_state(a) == epoch_max_wins::operations_state(b),
    ensures
        epoch_max_wins::operations_state(a + late) == epoch_max_wins::operations_state(b + late),
    decreases late.len(),
{
    if late.len() == 0 {
        assert(a + late =~= a);
        assert(b + late =~= b);
    } else {
        lemma_operations_extend(a, b, late.drop_last());
        assert((a + late).drop_last() =~= a + late.drop_last());
        assert((b + late).drop_last() =~= b + late.drop_last());
        assert((a + late).last() == late.last());
        assert((b + late).last() == late.last());
    }
}

/// Compacting in two steps gives what compacting in one gives, as long as the
/// first compacted shard respects the cap on encoded shards.
pub proof fn law_compaction_composes(early: Seq<OperationView>, late: Seq<OperationView>)
    requires
        early.len() > 0,
        epoch_max_wins::operations_state(early) matches Some(s)
            && epoch_max_wins::encoded_shard(s).len() <= epoch_max_wins::MAX_SHARD_BYTES,
    ensures
        epoch_max_wins::operations_state(
            seq![epoch_max_wins::compacted(early)->0] + late,
        ) == epoch_max_wins::operations_state(early + late),
        epoch_max_wins::compacted(seq![epoch_max_wins::compacted(early)->0] + late)
            == epoch_max_wins::compacted(early + late),
{
    let o = epoch_max_wins::compacted(early)->0;
    let s = epoch_max_wins::operations_state(early)->0;
    law_operations_leave_a_state(early);
    lemma_state_of_operation(early[0].key, s);
    lemma_single_operation(o);
    lemma_operations_extend(seq![o], early, late);
    assert((seq![o] + late)[0] == o);
    assert((early + late)[0] == early[0]);
}

/// The points of the states that the operations stand for.
pub open spec fn all_points(ops: Seq<OperationView>) -> Seq<LivePoint>
    decreases ops.len(),
{
    if ops.len() == 0 {
        Seq::empty()
    } else {
        all_points(ops.drop_last()) + (match epoch_max_wins::operation_state(ops.last()) {
            Some(o) => o.points,
            None => Seq::empty(),
        })
    }
}

proof fn lemma_operations_members(ops: Seq<OperationView>)
    ensures
        epoch_max_wins::operations_state(ops) matches Some(s) ==> forall|p: LivePoint| #[trigger]
            s.points.contains(p) ==> all_points(ops).contains(p),
    decreases ops.len(),
{
    if ops.len() > 0 {
        let rest = ops.drop_last();
        lemma_operations_members(rest);
        if let Some(o) = epoch_max_wins::operation_state(ops.last()) {
            lemma_concat_members(all_points(rest), o.points);
            if let Some(s) = epoch_max_wins::operations_state(rest) {
                lemma_merged_members(s, o);
                lemma_concat_members(s.points, o.points);
                assert forall|p: LivePoint| #[trigger]
                    epoch_max_wins::merge_states(s, o).points.contains(p) implies all_points(
                    ops,
                ).contains(p) by {
                    assert((s.points + o.points).contains(p));
                }
            }
        } else {
            assert(all_points(ops) =~= all_points(rest));
        }
    }
}

/// The order in which two operations arrive does not matter, if one version
/// stamps one value.
pub proof fn law_arrival_order_is_irrelevant(
    ops: Seq<OperationView>,
    x: OperationView,
    y: OperationView,
)
    requires
        coherent(all_points(ops.push(x).push(y))),
    ensures
        epoch_max_wins::operations_state(ops.push(x).push(y)) == epoch_max_wins::operations_state(
            ops.push(y).push(x),
        ),
{
    let (xy, yx) = (ops.push(x).push(y), ops.push(y).push(x));
    assert(xy.drop_last() =~= ops.push(x) && ops.push(x).drop_last() =~= ops);
    assert(yx.drop_last() =~= ops.push(y) && ops.push(y).drop_last() =~= ops);
    reveal_with_fuel(epoch_max_wins::operations_state, 3);
    reveal_with_fuel(all_points, 3);
    lemma_operations_members(ops);
    if let (Some(a), Some(b)) = (
        epoch_max_wins::operation_state(x),
        epoch_max_wins::operation_state(y),
    ) {
        let all = all_points(xy);
        lemma_concat_members(all_points(ops), a.points);
        lemma_concat_members(all_points(ops) + a.points, b.points);
        lemma_concat_members(a.points, b.points);
        assert(forall|p: LivePoint| (a.points + b.points).contains(p) ==> all.contains(p));
        lemma_coherent_members(a.points + b.points, all);
        law_merge_commutes(a, b);
        if let Some(s) = epoch_max_wins::operations_state(ops) {
            lemma_concat_members(s.points, a.points);
            lemma_concat_members(s.points + a.points, b.points);
            lemma_concat_members(s.points, b.points);
            lemma_concat_members(s.points + b.points, a.points);
            assert forall|p: LivePoint|
                (s.points + a.points + b.points).contains(p) implies all.contains(p) by {
                assert((s.points + a.points).contains(p) || b.points.contains(p));
                assert(all_points(ops).contains(p) ==> (all_points(ops) + a.points).contains(p));
            }
            assert forall|p: LivePoint|
                (s.points + b.points + a.points).contains(p) implies all.contains(p) by {
                assert((s.points + b.points).contains(p) || a.points.contains(p));
                assert(all_points(ops).contains(p) ==> (all_points(ops) + a.points).contains(p));
            }
            lemma_coherent_members(s.points + a.points + b.points, all);
            lemma_coherent_members(s.points + b.points + a.points, all);
            law_merge_associates(s, a, b);
            law_merge_associates(s, b, a);
        }
    }
}

// ---------------------------------------------------------------------------
// Stored values
// ---------------------------------------------------------------------------
/// Data that starts with a shard is read as that shard exactly where the shard has a point
/// and takes at most 65,536 bytes, whatever follows it.
pub proof fn law_shard_is_read_within_cap(s: ShardView, data: Seq<u8>)
    requires
        epoch_max_wins::encoded_shard(s).is_prefix_of(data),
        data.len() <= usize::MAX,
    ensures
        s.points.len() > 0 && epoch_max_wins::encoded_shard(s).len() <= 65536
            ==> epoch_max_wins::decoded_shard(data) == Some(s),
        s.points.len() == 0 || epoch_max_wins::encoded_shard(s).len() > 65536
            ==> epoch_max_wins::decoded_shard(data) is None,
{
    if exists|t: ShardView| epoch_max_wins::starts_with_shard(data, t) {
        let t = choose|t: ShardView| epoch_max_wins::starts_with_shard(data, t);
        epoch_max_wins::lemma_shard_unique(data, s, t);
    } else {
        assert(!epoch_max_wins::starts_with_shard(data, s));
    }
}

/// Merging stored values keeps the one that is a shard where only one of them is, and the
/// local one where neither is. The merge of two shards is read as the value of a point that
/// was written after both tombstones, and no such point, here `p`, has a greater one.
pub proof fn law_stored_values_merge(
    local: Seq<u8>,
    remote: Seq<u8>,
    a: ShardView,
    b: ShardView,
    p: LivePoint,
)
    ensures
        ({
            let merged = epoch_max_wins::merged_bytes(local, remote);
            let is_shard = |d: Seq<u8>|
                exists|s: ShardView| #[trigger] epoch_max_wins::starts_with_shard(d, s);
            &&& !is_shard(local) && !is_shard(remote) ==> merged == local
            &&& is_shard(local) && !is_shard(remote) ==> merged == local
            &&& !is_shard(local) && is_shard(remote) ==> merged == remote
            &&& epoch_max_wins::decoded_shard(local) == Some(a) && epoch_max_wins::decoded_shard(
                remote,
            ) == Some(b) && live_in(a, b, p) && merged.len() <= 65536 ==> {
                &&& epoch_max_wins::decoded_value(merged) matches Some(v)
                &&& p.value.epoch < v.epoch || (p.value.epoch == v.epoch && p.value.count
                    <= v.count)
                &&& exists|q: LivePoint| #[trigger] live_in(a, b, q) && q.value == v
            }
        }),
{
    if epoch_max_wins::decoded_shard(local) == Some(a) && epoch_max_wins::decoded_shard(remote)
        == Some(b) && live_in(a, b, p) && epoch_max_wins::merged_bytes(local, remote).len()
        <= 65536 {
        law_merge_reads_greatest(a, b, p);
    }
}

/// The operation that carries a state with points is a write of the encoded state, in the
/// version of the newest of its points: no point has a later time, nor the same time and a
/// greater replica id. A state without points is carried by a removal at its tombstone.
pub proof fn law_carrier_is_newest(key: Seq<char>, s: ShardView, p: LivePoint)
    ensures
        ({
            let op = epoch_max_wins::state_operation(key, s);
            &&& op.key == key
            &&& s.points.contains(p) ==> {
                &&& op.value == Some(epoch_max_wins::encoded_shard(s))
                &&& p.version.timestamp < op.version.timestamp || (p.version.timestamp
                    == op.version.timestamp && p.version.replica_id.bits
                    <= op.version.replica_id.bits)
                &&& exists|q: LivePoint| #[trigger]
                    s.points.contains(q) && q.version == op.version
            }
            &&& s.points.len() == 0 ==> op.value is None && (s.tombstone matches Some(t)
                ==> op.version == t)
        }),
{
    epoch_max_wins::lemma_newest_version(s.points);
    if s.points.contains(p) {
        let k = choose|k: int| 0 <= k < s.points.len() && s.points[k] == p;
        let v = epoch_max_wins::newest_version(s.points)->0;
        let i = choose|i: int| 0 <= i < s.points.len() && (#[trigger] s.points[i]).version == v;
        assert(s.points.contains(s.points[i]));
    }
}

/// What an operation stands for: a payload one point in the version of the write, a removal
/// a tombstone in its version, and an encoded shard itself. Anything else stands for
/// nothing.
pub proof fn law_operation_stands_for(op: OperationView, value: EpochCount, s: ShardView)
    ensures
        op.value is None ==> {
            &&& epoch_max_wins::operation_state(op) matches Some(o)
            &&& o.points.len() == 0
            &&& o.tombstone == Some(op.version)
        },
        op.value == Some(epoch_max_wins::payload(value)) ==> {
            &&& epoch_max_wins::operation_state(op) matches Some(o)
            &&& o.points == seq![LivePoint { value, version: op.version }]
            &&& o.tombstone is None
        },
        op.value == Some(epoch_max_wins::encoded_shard(s)) && s.points.len() > 0
            && epoch_max_wins::encoded_shard(s).len() <= 65536 ==> epoch_max_wins::operation_state(
            op,
        ) == Some(s),
        (op.value matches Some(d) && d.len() != 16 && forall|x: ShardView|
            !(#[trigger] epoch_max_wins::encoded_shard(x)).is_prefix_of(d))
            ==> epoch_max_wins::operation_state(op) is None,
{
    epoch_max_wins::law_payload_round_trip(value);
    epoch_max_wins::law_payload_is_no_shard(epoch_max_wins::payload(value));
    if s.points.len() > 0 && epoch_max_wins::encoded_shard(s).len() <= 65536 {
        epoch_max_wins::law_shard_round_trip(s, Seq::empty());
        assert(epoch_max_wins::encoded_shard(s) + Seq::empty() =~= epoch_max_wins::encoded_shard(
            s,
        ));
    }
    if let Some(d) = op.value {
        if exists|x: ShardView| epoch_max_wins::starts_with_shard(d, x) {
            let x = choose|x: ShardView| epoch_max_wins::starts_with_shard(d, x);
            assert(epoch_max_wins::encoded_shard(x).is_prefix_of(d));
        }
    }
}

/// `p` is as new as `q` and has as great a value.
pub open spec fn covers_point(p: LivePoint, q: LivePoint) -> bool {
    &&& q.value.epoch < p.value.epoch || (q.value.epoch == p.value.epoch && q.value.count
        <= p.value.count)
    &&& q.version.timestamp < p.version.timestamp || (q.version.timestamp == p.version.timestamp
        && q.version.replica_id.bits <= p.version.replica_id.bits)
}

/// The point was written after every removal of the list, and after every tombstone that
/// its shards carry.
pub open spec fn outlives_all(p: LivePoint, ops: Seq<OperationView>) -> bool {
    forall|i: int|
        0 <= i < ops.len() ==> (epoch_max_wins::operation_state(#[trigger] ops[i]) matches Some(o)
            ==> written_after(p, o.tombstone))
}

/// Of a list of operations on one key, a point that one of them brings, here number `i`, and
/// that was written after every removal among them is not lost: the state holds a point
/// that is as new and has as great a value, in epoch and then in count.
#[verifier::rlimit(60)]
pub proof fn law_operations_keep_what_counts(ops: Seq<OperationView>, i: int, p: LivePoint)
    requires
        0 <= i < ops.len(),
        epoch_max_wins::operation_state(ops[i]) matches Some(o) && o.points.contains(p),
        outlives_all(p, ops),
    ensures
        epoch_max_wins::operations_state(ops) matches Some(s) && exists|k: LivePoint| #[trigger]
            s.points.contains(k) && covers_point(k, p),
    decreases ops.len(),
{
    let rest = ops.drop_last();
    let last = ops.last();
    lemma_tombstone_comes_from_list(rest, p);
    assert(outlives_all(p, rest)) by {
        assert forall|j: int| 0 <= j < rest.len() implies (epoch_max_wins::operation_state(
            #[trigger] rest[j],
        ) matches Some(o) ==> written_after(p, o.tombstone)) by {
            assert(rest[j] == ops[j]);
        }
    }
    assert(ops[ops.len() - 1] == last);
    if i < ops.len() - 1 {
        assert(rest[i] == ops[i]);
        law_operations_keep_what_counts(rest, i, p);
        let s = epoch_max_wins::operations_state(rest)->0;
        let k = choose|k: LivePoint| #[trigger] s.points.contains(k) && covers_point(k, p);
        if let Some(o) = epoch_max_wins::operation_state(last) {
            lemma_merge_covers(s, o, k, p);
        }
    } else {
        let o = epoch_max_wins::operation_state(last)->0;
        assert(covers_point(p, p));
        if let Some(s) = epoch_max_wins::operations_state(rest) {
            lemma_merge_covers(s, o, p, p);
        }
    }
}

/// A point that was written after both tombstones, and that a point of the two states
/// covers, is covered in their merge.
proof fn lemma_merge_covers(a: ShardView, b: ShardView, k: LivePoint, p: LivePoint)
    requires
        a.points.contains(k) || b.points.contains(k),
        covers_point(k, p),
        written_after(p, a.tombstone),
        written_after(p, b.tombstone),
    ensures
        exists|z: LivePoint| #[trigger]
            epoch_max_wins::merge_states(a, b).points.contains(z) && covers_point(z, p),
{
    let m = epoch_max_wins::merge_states(a, b);
    assert(live_in(a, b, k));
    law_merge_keeps_what_counts(a, b, k, k);
    let z = choose|z: LivePoint| {
        &&& #[trigger] m.points.contains(z)
        &&& k.value.epoch < z.value.epoch || (k.value.epoch == z.value.epoch && k.value.count
            <= z.value.count)
        &&& k.version.timestamp < z.version.timestamp || (k.version.timestamp
            == z.version.timestamp && k.version.replica_id.bits <= z.version.replica_id.bits)
    };
    assert(covers_point(z, p));
}

/// What was written after every removal of a list was written after the tombstone that the
/// list leaves.
proof fn lemma_tombstone_comes_from_list(ops: Seq<OperationView>, p: LivePoint)
    ensures
        outlives_all(p, ops) ==> (epoch_max_wins::operations_state(ops) matches Some(s)
            ==> written_after(p, s.tombstone)),
    decreases ops.len(),
{
    if ops.len() > 0 {
        let rest = ops.drop_last();
        lemma_tombstone_comes_from_list(rest, p);
        if outlives_all(p, ops) {
            assert forall|j: int| 0 <= j < rest.len() implies (epoch_max_wins::operation_state(
                #[trigger] rest[j],
            ) matches Some(o) ==> written_after(p, o.tombstone)) by {
                assert(rest[j] == ops[j]);
            }
            assert(ops[ops.len() - 1] == ops.last());
        }
    }
}

/// Of a list of operations on one key, no point of the state is invented, and none is older
/// than a removal among them, here number `i`, or of its version.
pub proof fn law_operations_forget_what_was_removed(
    ops: Seq<OperationView>,
    i: int,
    p: LivePoint,
)
    requires
        epoch_max_wins::operations_state(ops) matches Some(s) && s.points.contains(p),
        0 <= i < ops.len(),
    ensures
        exists|j: int|
            0 <= j < ops.len() && (epoch_max_wins::operation_state(#[trigger] ops[j]) matches Some(
                o,
            ) && o.points.contains(p)),
        ops[i].value is None ==> written_after(p, Some(ops[i].version)),
    decreases ops.len(),
{
    lemma_operations_members(ops);
    assert(all_points(ops).contains(p));
    lemma_all_points_source(ops, p);
    if ops[i].value is None {
        lemma_state_is_behind_tombstone(ops, p, i);
    }
}

proof fn lemma_all_points_source(ops: Seq<OperationView>, p: LivePoint)
    requires
        all_points(ops).contains(p),
    ensures
        exists|j: int|
            0 <= j < ops.len() && (epoch_max_wins::operation_state(#[trigger] ops[j]) matches Some(
                o,
            ) && o.points.contains(p)),
    decreases ops.len(),
{
    if ops.len() > 0 {
        let rest = ops.drop_last();
        let more = match epoch_max_wins::operation_state(ops.last()) {
            Some(o) => o.points,
            None => Seq::empty(),
        };
        lemma_concat_members(all_points(rest), more);
        assert(all_points(ops) == all_points(rest) + more);
        assert(ops[ops.len() - 1] == ops.last());
        if all_points(rest).contains(p) {
            lemma_all_points_source(rest, p);
            let j = choose|j: int|
                0 <= j < rest.len() && (epoch_max_wins::operation_state(
                    #[trigger] rest[j],
                ) matches Some(o) && o.points.contains(p));
            assert(ops[j] == rest[j]);
        }
    }
}

/// The state of a list has a tombstone that is no older than any removal of the list.
proof fn lemma_removal_is_remembered(ops: Seq<OperationView>, i: int)
    requires
        0 <= i < ops.len(),
        ops[i].value is None,
    ensures
        epoch_max_wins::operations_state(ops) matches Some(s) && (s.tombstone matches Some(t) && (
        ops[i].version.timestamp < t.timestamp || (ops[i].version.timestamp == t.timestamp
            && ops[i].version.replica_id.bits <= t.replica_id.bits))),
    decreases ops.len(),
{
    let rest = ops.drop_last();
    if i < ops.len() - 1 {
        assert(rest[i] == ops[i]);
        lemma_removal_is_remembered(rest, i);
    }
}

/// Every point of the state of a list was written after every removal of the list.
proof fn lemma_state_is_behind_tombstone(ops: Seq<OperationView>, p: LivePoint, i: int)
    requires
        epoch_max_wins::operations_state(ops) matches Some(s) && s.points.contains(p),
        0 <= i < ops.len(),
        ops[i].value is None,
    ensures
        written_after(p, Some(ops[i].version)),
    decreases ops.len(),
{
    let rest = ops.drop_last();
    let last = ops.last();
    if i < ops.len() - 1 {
        assert(rest[i] == ops[i]);
        lemma_removal_is_remembered(rest, i);
        let s = epoch_max_wins::operations_state(rest)->0;
        if let Some(o) = epoch_max_wins::operation_state(last) {
            law_merge_keeps_what_counts(s, o, p, p);
            assert(live_in(s, o, p));
        } else {
            lemma_state_is_behind_tombstone(rest, p, i);
        }
    } else {
        if let Some(s) = epoch_max_wins::operations_state(rest) {
            let o = epoch_max_wins::tombstone_state(last.version);
            law_merge_keeps_what_counts(s, o, p, p);
            assert(live_in(s, o, p));
        }
    }
}

/// The points of a merge stand in order: by time, then by replica id, then by epoch and
/// count, and none occurs twice.
pub proof fn law_merge_orders_points(a: ShardView, b: ShardView, i: int, j: int)
    requires
        0 <= i < j < epoch_max_wins::merge_states(a, b).points.len(),
    ensures
        ({
            let (p, q) = (
                epoch_max_wins::merge_states(a, b).points[i],
                epoch_max_wins::merge_states(a, b).points[j],
            );
            ||| p.version.timestamp < q.version.timestamp
            ||| p.version.timestamp == q.version.timestamp && p.version.replica_id.bits
                < q.version.replica_id.bits
            ||| p.version == q.version && p.value.epoch < q.value.epoch
            ||| p.version == q.version && p.value.epoch == q.value.epoch && p.value.count
                < q.value.count
        }),
{
    let t = epoch_max_wins::newer_tombstone(a.tombstone, b.tombstone);
    let s = epoch_max_wins::survivors(a.points + b.points, t);
    frontier::lemma_frontier(s);
    let f = frontier::frontier(s);
    assert(frontier::point_lt(f[i], f[j]));
}

/// The points that outlive a tombstone are those that were written after it, in their
/// order, and all of them without one.
pub proof fn law_survivors_keep_their_order(
    points: Seq<LivePoint>,
    p: LivePoint,
    tombstone: Option<RateLimitVersion>,
)
    ensures
        epoch_max_wins::survivors(points.push(p), tombstone) == if written_after(p, tombstone) {
            epoch_max_wins::survivors(points, tombstone).push(p)
        } else {
            epoch_max_wins::survivors(points, tombstone)
        },
        epoch_max_wins::survivors(Seq::empty(), tombstone).len() == 0,
{
    reveal(Seq::filter);
    assert(points.push(p).drop_last() =~= points);
}

/// Of two points of one version the first is kept, and the second too where its epoch, or
/// in the same epoch its count, is greater.
pub proof fn law_first_of_a_version_is_kept(p: LivePoint, q: LivePoint)
    requires
        p.version == q.version,
        p != q,
    ensures
        frontier::frontier(seq![p, q]).contains(p),
        frontier::frontier(seq![p, q]).contains(q) <==> p.value.epoch < q.value.epoch || (
        p.value.epoch == q.value.epoch && p.value.count < q.value.count),
{
    let s = seq![p, q];
    frontier::lemma_frontier(s);
    assert(s[0] == p && s[1] == q);
    assert(frontier::kept_at(s, 0)) by {
        assert forall|j: int| 0 <= j < s.len() && #[trigger] frontier::precedes(
            s,
            j,
            0,
        ) implies epoch_max_wins::value_lt(s[j].value, s[0].value) by {}
    }
    assert(frontier::precedes(s, 0, 1));
    if epoch_max_wins::value_lt(p.value, q.value) {
        assert(frontier::kept_at(s, 1)) by {
            assert forall|j: int| 0 <= j < s.len() && #[trigger] frontier::precedes(
                s,
                j,
                1,
            ) implies epoch_max_wins::value_lt(s[j].value, s[1].value) by {}
        }
    } else if frontier::frontier(s).contains(q) {
        let i = choose|i: int| #[trigger] frontier::kept_at(s, i) && s[i] == q;
        assert(i == 1);
    }
}

/// A list of operations on one key is compacted to one operation on the key of the first,
/// unless each of them is malformed, and that operation stands for what the list stands
/// for, as long as that respects the cap on encoded shards.
pub proof fn law_compacted_stands_for_list(ops: Seq<OperationView>)
    requires
        ops.len() > 0,
    ensures
        epoch_max_wins::compacted(ops) is None <==> forall|i: int|
            0 <= i < ops.len() ==> epoch_max_wins::operation_state(#[trigger] ops[i]) is None,
        epoch_max_wins::compacted(ops) matches Some(o) ==> o.key == ops[0].key,
        epoch_max_wins::operations_state(ops) matches Some(s) ==> (epoch_max_wins::encoded_shard(
            s,
        ).len() <= 65536 ==> (epoch_max_wins::compacted(ops) matches Some(o)
            && epoch_max_wins::operation_state(o) == Some(s))),
{
    lemma_some_state(ops);
    if let Some(s) = epoch_max_wins::operations_state(ops) {
        law_operations_leave_a_state(ops);
        if epoch_max_wins::encoded_shard(s).len() <= 65536 {
            lemma_state_of_operation(ops[0].key, s);
        }
    }
}

proof fn lemma_some_state(ops: Seq<OperationView>)
    ensures
        epoch_max_wins::operations_state(ops) is None <==> forall|i: int|
            0 <= i < ops.len() ==> epoch_max_wins::operation_state(#[trigger] ops[i]) is None,
    decreases ops.len(),
{
    if ops.len() > 0 {
        let rest = ops.drop_last();
        lemma_some_state(rest);
        assert(ops[ops.len() - 1] == ops.last());
        if epoch_max_wins::operations_state(ops) is None {
            assert forall|i: int| 0 <= i < ops.len() implies epoch_max_wins::operation_state(
                #[trigger] ops[i],
            ) is None by {
                if i < rest.len() {
                    assert(rest[i] == ops[i]);
                }
            }
        }
        if forall|i: int|
            0 <= i < ops.len() ==> epoch_max_wins::operation_state(#[trigger] ops[i]) is None {
            assert forall|i: int| 0 <= i < rest.len() implies epoch_max_wins::operation_state(
                #[trigger] rest[i],
            ) is None by {
                assert(rest[i] == ops[i]);
            }
        }
    }
}

} // verus!
