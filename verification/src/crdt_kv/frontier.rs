//! The frontier of a list of live points: the points that no newer point
//! supersedes.

use vstd::prelude::*;

use super::epoch_max_wins;
use super::epoch_max_wins::{compare_epoch_count, LivePoint, ValueWinner};

verus! {

/// Points are ordered by version, then by value.
pub open spec fn point_lt(a: LivePoint, b: LivePoint) -> bool {
    epoch_max_wins::version_lt(a.version, b.version) || (a.version == b.version
        && epoch_max_wins::value_lt(a.value, b.value))
}

pub open spec fn point_le(a: LivePoint, b: LivePoint) -> bool {
    a == b || point_lt(a, b)
}

/// Strictly ascending, so that no point occurs twice.
pub open spec fn ascending(s: Seq<LivePoint>) -> bool {
    forall|i: int, j: int| 0 <= i < j < s.len() ==> #[trigger] point_lt(s[i], s[j])
}

/// Point `j` takes precedence over point `i`: its version is newer, or it is the
/// same and `j` comes first.
pub open spec fn precedes(points: Seq<LivePoint>, j: int, i: int) -> bool {
    epoch_max_wins::version_lt(points[i].version, points[j].version) || (points[i].version
        == points[j].version && j < i)
}

/// Point `i` has a greater value than every point that takes precedence over it.
pub open spec fn kept_at(points: Seq<LivePoint>, i: int) -> bool {
    &&& 0 <= i < points.len()
    &&& forall|j: int|
        0 <= j < points.len() && #[trigger] precedes(points, j, i) ==> epoch_max_wins::value_lt(
            points[j].value,
            points[i].value,
        )
}

/// The points that the frontier keeps.
pub open spec fn kept_points(points: Seq<LivePoint>) -> Set<LivePoint> {
    points.to_set().filter(
        |p: LivePoint| exists|i: int| #[trigger] kept_at(points, i) && points[i] == p,
    )
}

/// The frontier: the points that are kept, oldest first.
pub open spec fn frontier(points: Seq<LivePoint>) -> Seq<LivePoint> {
    kept_points(points).to_sorted_seq(|a: LivePoint, b: LivePoint| point_le(a, b))
}

/// `out` is ascending and holds exactly the kept points of `points`.
pub open spec fn is_frontier(points: Seq<LivePoint>, out: Seq<LivePoint>) -> bool {
    &&& ascending(out)
    &&& forall|p: LivePoint|
        #[trigger] out.contains(p) <==> exists|i: int| #[trigger]
            kept_at(points, i) && points[i] == p
}

/// An ascending list is determined by its members.
pub proof fn lemma_ascending_unique(a: Seq<LivePoint>, b: Seq<LivePoint>)
    requires
        ascending(a),
        ascending(b),
        forall|p: LivePoint| a.contains(p) <==> b.contains(p),
    ensures
        a == b,
    decreases a.len(),
{
    if a.len() == 0 {
        if b.len() > 0 {
            assert(b.contains(b[0]));
        }
        assert(a =~= b);
    } else {
        assert(a.contains(a[0]));
        assert(b.len() > 0);
        assert(b.contains(b[0]));
        let i = choose|i: int| 0 <= i < a.len() && a[i] == b[0];
        let j = choose|j: int| 0 <= j < b.len() && b[j] == a[0];
        if i > 0 && j > 0 {
            assert(point_lt(a[0], a[i]));
            assert(point_lt(b[0], b[j]));
            assert(false);
        }
        assert(a[0] == b[0]);
        let (ra, rb) = (a.drop_first(), b.drop_first());
        assert forall|x: int, y: int| 0 <= x < y < ra.len() implies #[trigger] point_lt(
            ra[x],
            ra[y],
        ) by {
            assert(point_lt(a[x + 1], a[y + 1]));
        }
        assert forall|x: int, y: int| 0 <= x < y < rb.len() implies #[trigger] point_lt(
            rb[x],
            rb[y],
        ) by {
            assert(point_lt(b[x + 1], b[y + 1]));
        }
        assert forall|p: LivePoint| ra.contains(p) <==> rb.contains(p) by {
            if ra.contains(p) {
                let k = choose|k: int| 0 <= k < ra.len() && ra[k] == p;
                assert(a[k + 1] == p && point_lt(a[0], a[k + 1]));
                assert(a.contains(p));
                let m = choose|m: int| 0 <= m < b.len() && b[m] == p;
                assert(m > 0 && rb[m - 1] == p);
            }
            if rb.contains(p) {
                let k = choose|k: int| 0 <= k < rb.len() && rb[k] == p;
                assert(b[k + 1] == p && point_lt(b[0], b[k + 1]));
                assert(b.contains(p));
                let m = choose|m: int| 0 <= m < a.len() && a[m] == p;
                assert(m > 0 && ra[m - 1] == p);
            }
        }
        lemma_ascending_unique(ra, rb);
        assert(a =~= seq![a[0]] + ra);
        assert(b =~= seq![b[0]] + rb);
    }
}

proof fn lemma_to_seq_no_duplicates(s: Set<LivePoint>)
    requires
        s.finite(),
    ensures
        s.to_seq().no_duplicates(),
    decreases s.len(),
{
    if s.len() > 0 {
        let x = s.choose();
        let rest = s.remove(x);
        broadcast use vstd::set_lib::group_set_properties;

        lemma_to_seq_no_duplicates(rest);
        rest.lemma_to_seq_to_set_id();
        let r = rest.to_seq();
        assert(!r.contains(x)) by {
            if r.contains(x) {
                assert(r.to_set().contains(x));
            }
        }
        assert(s.to_seq() =~= seq![x] + r);
    }
}

/// The frontier is the ascending list of the kept points.
pub proof fn lemma_frontier(points: Seq<LivePoint>)
    ensures
        is_frontier(points, frontier(points)),
{
    broadcast use vstd::seq_lib::group_to_multiset_ensures;
    broadcast use vstd::seq_lib::seq_to_set_is_finite;

    let s = kept_points(points);
    let le = |a: LivePoint, b: LivePoint| point_le(a, b);
    assert(s.finite()) by {
        assert(s.subset_of(points.to_set()));
        vstd::set_lib::lemma_set_subset_finite(points.to_set(), s);
    }
    let unsorted = s.to_seq();
    s.lemma_to_seq_to_set_id();
    lemma_to_seq_no_duplicates(s);
    assert(vstd::relations::total_ordering(le));
    unsorted.lemma_sort_by_ensures(le);
    let out = frontier(points);
    assert(out.to_multiset() =~= unsorted.to_multiset());
    unsorted.lemma_multiset_has_no_duplicates();
    out.lemma_multiset_has_no_duplicates_conv();
    assert forall|p: LivePoint| #[trigger]
        out.contains(p) <==> exists|i: int| #[trigger] kept_at(points, i) && points[i] == p by {
        assert(out.contains(p) <==> out.to_multiset().count(p) > 0);
        assert(unsorted.contains(p) <==> unsorted.to_multiset().count(p) > 0);
        assert(unsorted.contains(p) <==> unsorted.to_set().contains(p));
        if exists|i: int| #[trigger] kept_at(points, i) && points[i] == p {
            let i = choose|i: int| #[trigger] kept_at(points, i) && points[i] == p;
            assert(points.contains(points[i]));
        }
    }
    assert forall|i: int, j: int| 0 <= i < j < out.len() implies #[trigger] point_lt(
        out[i],
        out[j],
    ) by {
        assert(le(out[i], out[j]));
    }
}

/// Whatever is ascending and holds exactly the kept points is the frontier.
pub proof fn lemma_frontier_unique(points: Seq<LivePoint>, out: Seq<LivePoint>)
    requires
        is_frontier(points, out),
    ensures
        out == frontier(points),
{
    lemma_frontier(points);
    let f = frontier(points);
    assert forall|p: LivePoint| out.contains(p) <==> f.contains(p) by {
    }
    lemma_ascending_unique(out, f);
}

/// `k` is `q` or takes precedence over it, and its value is at least as great.
spec fn covers(points: Seq<LivePoint>, q: int, k: int) -> bool {
    &&& 0 <= k < points.len()
    &&& k == q || precedes(points, k, q)
    &&& !epoch_max_wins::value_lt(points[k].value, points[q].value)
}

proof fn lemma_first_cover(points: Seq<LivePoint>, q: int, n: int) -> (m: int)
    requires
        0 <= q < n <= points.len() || exists|k: int| 0 <= k < n && covers(points, q, k),
        0 <= q < points.len(),
        n <= points.len(),
    ensures
        m < n,
        covers(points, q, m),
        forall|k: int|
            0 <= k < n && k != m && #[trigger] covers(points, q, k) ==> precedes(points, m, k),
    decreases n,
{
    if 0 <= q < n {
        assert(covers(points, q, q));
    }
    if exists|k: int| 0 <= k < n - 1 && covers(points, q, k) {
        let m = lemma_first_cover(points, q, n - 1);
        if covers(points, q, n - 1) && precedes(points, n - 1, m) {
            n - 1
        } else {
            m
        }
    } else {
        n - 1
    }
}

/// For every point the frontier holds one that is at least as new and has at
/// least its value.
pub proof fn lemma_cover(points: Seq<LivePoint>, q: int) -> (m: int)
    requires
        0 <= q < points.len(),
    ensures
        kept_at(points, m),
        m == q || precedes(points, m, q),
        !epoch_max_wins::value_lt(points[m].value, points[q].value),
{
    let m = lemma_first_cover(points, q, points.len() as int);
    assert forall|j: int|
        0 <= j < points.len() && #[trigger] precedes(points, j, m) implies epoch_max_wins::value_lt(
        points[j].value,
        points[m].value,
    ) by {
        if !epoch_max_wins::value_lt(points[j].value, points[m].value) {
            assert(covers(points, q, j));
            assert(precedes(points, m, j));
        }
    }
    m
}

/// Some point of `front` is at least as new as `p` and has at least its value.
pub open spec fn dominated(front: Seq<LivePoint>, p: LivePoint) -> bool {
    exists|k: int|
        0 <= k < front.len() && !epoch_max_wins::version_lt(
            (#[trigger] front[k]).version,
            p.version,
        ) && !epoch_max_wins::value_lt(front[k].value, p.value)
}

/// `p` is newer than `x` and has at least its value.
pub open spec fn superseded(x: LivePoint, p: LivePoint) -> bool {
    epoch_max_wins::version_lt(x.version, p.version) && !epoch_max_wins::value_lt(p.value, x.value)
}

/// `x` belongs to the frontier `front` after `p` came in last.
pub open spec fn in_extended(front: Seq<LivePoint>, p: LivePoint, x: LivePoint) -> bool {
    if dominated(front, p) {
        front.contains(x)
    } else {
        x == p || (front.contains(x) && !superseded(x, p))
    }
}

/// How one more point changes the frontier.
pub proof fn lemma_frontier_push(points: Seq<LivePoint>, p: LivePoint, out: Seq<LivePoint>)
    requires
        ascending(out),
        forall|x: LivePoint| out.contains(x) <==> in_extended(frontier(points), p, x),
    ensures
        out == frontier(points.push(p)),
{
    lemma_frontier(points);
    let front = frontier(points);
    let more = points.push(p);
    let n = points.len() as int;
    assert forall|i: int| 0 <= i < n implies (#[trigger] kept_at(more, i) <==> kept_at(points, i)
        && !superseded(points[i], p)) by {
        if kept_at(more, i) {
            assert forall|j: int|
                0 <= j < points.len() && #[trigger] precedes(
                    points,
                    j,
                    i,
                ) implies epoch_max_wins::value_lt(points[j].value, points[i].value) by {
                assert(precedes(more, j, i));
            }
            if superseded(points[i], p) {
                assert(precedes(more, n, i));
            }
        }
        if kept_at(points, i) && !superseded(points[i], p) {
            assert forall|j: int|
                0 <= j < more.len() && #[trigger] precedes(
                    more,
                    j,
                    i,
                ) implies epoch_max_wins::value_lt(more[j].value, more[i].value) by {
                if j < n {
                    assert(precedes(points, j, i));
                }
            }
        }
    }
    assert(kept_at(more, n) <==> !dominated(front, p)) by {
        if dominated(front, p) {
            let k = choose|k: int|
                0 <= k < front.len() && !epoch_max_wins::version_lt(
                    (#[trigger] front[k]).version,
                    p.version,
                ) && !epoch_max_wins::value_lt(front[k].value, p.value);
            assert(front.contains(front[k]));
            let i = choose|i: int| #[trigger] kept_at(points, i) && points[i] == front[k];
            assert(more[i] == points[i]);
            assert(precedes(more, i, n));
        } else {
            assert forall|j: int|
                0 <= j < more.len() && #[trigger] precedes(
                    more,
                    j,
                    n,
                ) implies epoch_max_wins::value_lt(more[j].value, more[n].value) by {
                assert(j < n);
                if !epoch_max_wins::value_lt(points[j].value, p.value) {
                    let i = lemma_cover(points, j);
                    assert(front.contains(points[i]));
                    let k = choose|k: int| 0 <= k < front.len() && front[k] == points[i];
                    assert(!epoch_max_wins::version_lt(front[k].version, p.version));
                    assert(!epoch_max_wins::value_lt(front[k].value, p.value));
                }
            }
        }
    }
    assert(is_frontier(more, out)) by {
        assert forall|x: LivePoint| #[trigger]
            out.contains(x) <==> exists|i: int| #[trigger] kept_at(more, i) && more[i] == x by {
            if exists|i: int| #[trigger] kept_at(more, i) && more[i] == x {
                let i = choose|i: int| #[trigger] kept_at(more, i) && more[i] == x;
                if i < n {
                    assert(points[i] == x);
                    assert(kept_at(points, i));
                    assert(front.contains(x));
                } else {
                    assert(x == p);
                }
            }
            if in_extended(front, p, x) {
                if front.contains(x) {
                    let i = choose|i: int| #[trigger] kept_at(points, i) && points[i] == x;
                    if dominated(front, p) {
                        let k = choose|k: int|
                            0 <= k < front.len() && !epoch_max_wins::version_lt(
                                (#[trigger] front[k]).version,
                                p.version,
                            ) && !epoch_max_wins::value_lt(front[k].value, p.value);
                        assert(front.contains(front[k]));
                        let m = choose|m: int| #[trigger] kept_at(points, m) && points[m] == front[k];
                        if superseded(x, p) {
                            assert(precedes(points, m, i));
                            assert(false);
                        }
                    }
                    if !superseded(x, p) {
                        assert(kept_at(more, i) && more[i] == x);
                    } else {
                        assert(x == p);
                    }
                } else {
                    assert(kept_at(more, n) && more[n] == x);
                }
            }
        }
    }
    lemma_frontier_unique(more, out);
}

/// The frontier of no points is empty.
pub proof fn lemma_frontier_empty()
    ensures
        frontier(Seq::empty()) == Seq::<LivePoint>::empty(),
{
    let none = Seq::<LivePoint>::empty();
    assert(is_frontier(none, none));
    lemma_frontier_unique(none, none);
}

/// `x` is one of the first `n` points of `front`, and `p` does not supersede it.
spec fn comes_from(front: Seq<LivePoint>, n: int, p: LivePoint, x: LivePoint) -> bool {
    exists|k: int| 0 <= k < n && #[trigger] front[k] == x && !superseded(front[k], p)
}

/// Adds `p`, the last point to come in, to the frontier `front`.
fn frontier_insert(front: &Vec<LivePoint>, p: LivePoint) -> (out: Vec<LivePoint>)
    requires
        ascending(front@),
    ensures
        ascending(out@),
        forall|x: LivePoint| #[trigger] out@.contains(x) <==> in_extended(front@, p, x),
{
    let n: usize = front.len();
    let mut out: Vec<LivePoint> = Vec::new();
    let mut i: usize = 0;
    // The points that are not newer than `p`.
    while i < n && !p.version.older_than(&front[i].version)
        invariant
            n == front@.len(),
            i <= n,
            ascending(front@),
            ascending(out@),
            forall|k: int|
                0 <= k < i ==> !epoch_max_wins::version_lt(
                    p.version,
                    (#[trigger] front@[k]).version,
                ),
            forall|k: int|
                0 <= k < i && !epoch_max_wins::version_lt(
                    (#[trigger] front@[k]).version,
                    p.version,
                ) ==> epoch_max_wins::value_lt(front@[k].value, p.value),
            forall|k: int|
                0 <= k < i && !superseded(front@[k], p) ==> out@.contains(
                    #[trigger] front@[k],
                ),
            forall|m: int|
                0 <= m < out@.len() ==> comes_from(front@, i as int, p, #[trigger] out@[m]),
        decreases n - i,
    {
        let q: LivePoint = front[i];
        let lower = matches!(compare_epoch_count(q.value, p.value), ValueWinner::Remote);
        let older = q.version.older_than(&p.version);
        if !older && !lower {
            proof {
                assert(dominated(front@, p));
            }
            return copy_points(front);
        }
        let ghost before = out@;
        if !older || !matches!(
            compare_epoch_count(p.value, q.value),
            ValueWinner::Local | ValueWinner::Equal
        ) {
            proof {
                assert(!superseded(q, p));
                assert forall|x: int, y: int| 0 <= x < y < before.push(q).len() implies #[trigger] point_lt(
                    before.push(q)[x],
                    before.push(q)[y],
                ) by {
                    if y == before.len() {
                        assert(comes_from(front@, i as int, p, before[x]));
let k = choose|k: int| 0 <= k < i && #[trigger] front@[k] == before[x] && !superseded(front@[k], p);
                        assert(point_lt(front@[k], front@[i as int]));
                    } else {
                        assert(point_lt(before[x], before[y]));
                    }
                }
            }
            out.push(q);
            proof {
                assert forall|k: int| 0 <= k < i + 1 && !superseded(front@[k], p) implies out@.contains(
                    #[trigger] front@[k],
                ) by {
                    if k == i {
                        assert(out@[before.len() as int] == front@[k]);
                    } else {
                        let m = choose|m: int| 0 <= m < before.len() && before[m] == front@[k];
                        assert(out@[m] == front@[k]);
                    }
                }
                assert forall|m: int| 0 <= m < out@.len() implies comes_from(
                    front@,
                    i + 1,
                    p,
                    #[trigger] out@[m],
                ) by {
                    if m < before.len() {
                        assert(comes_from(front@, i as int, p, before[m]));
                    } else {
                        assert(front@[i as int] == out@[m]);
                    }
                }
            }
        }
        i = i + 1;
    }
    // The points that are newer than `p`.
    let mut j: usize = i;
    while j < n
        invariant
            n == front@.len(),
            i <= j <= n,
            ascending(front@),
            i < n ==> epoch_max_wins::version_lt(p.version, front@[i as int].version),
            forall|k: int|
                i <= k < j ==> epoch_max_wins::value_lt((#[trigger] front@[k]).value, p.value),
        decreases n - j,
    {
        proof {
            if j > i {
                assert(point_lt(front@[i as int], front@[j as int]));
            }
        }
        if !matches!(compare_epoch_count(front[j].value, p.value), ValueWinner::Remote) {
            proof {
                assert(!epoch_max_wins::version_lt(front@[j as int].version, p.version));
                assert(dominated(front@, p));
            }
            return copy_points(front);
        }
        j = j + 1;
    }
    assert(!dominated(front@, p));
    let ghost lower = out@;
    proof {
        assert forall|x: int, y: int| 0 <= x < y < lower.push(p).len() implies #[trigger] point_lt(
            lower.push(p)[x],
            lower.push(p)[y],
        ) by {
            if y == lower.len() {
                assert(comes_from(front@, i as int, p, lower[x]));
let k = choose|k: int| 0 <= k < i && #[trigger] front@[k] == lower[x] && !superseded(front@[k], p);
            } else {
                assert(point_lt(lower[x], lower[y]));
            }
        }
    }
    out.push(p);
    let mut m: usize = i;
    while m < n
        invariant
            n == front@.len(),
            i <= m <= n,
            ascending(front@),
            ascending(lower.push(p)),
            i < n ==> epoch_max_wins::version_lt(p.version, front@[i as int].version),
            forall|x: int|
                0 <= x < lower.len() ==> !epoch_max_wins::version_lt(
                    p.version,
                    (#[trigger] lower[x]).version,
                ),
            out@ == lower.push(p) + front@.subrange(i as int, m as int),
            ascending(out@),
        decreases n - m,
    {
        let ghost before = out@;
        proof {
            if m > i {
                assert(point_lt(front@[i as int], front@[m as int]));
            }
            assert(epoch_max_wins::version_lt(p.version, front@[m as int].version));
            assert forall|x: int, y: int|
                0 <= x < y < before.push(front@[m as int]).len() implies #[trigger] point_lt(
                before.push(front@[m as int])[x],
                before.push(front@[m as int])[y],
            ) by {
                if y == before.len() {
                    if x > lower.len() {
                        assert(before[x] == front@[i + x - lower.len() - 1]);
                        assert(point_lt(front@[i + x - lower.len() - 1], front@[m as int]));
                    } else if x < lower.len() {
                        assert(before[x] == lower[x]);
                    } else {
                        assert(before[x] == p);
                    }
                } else {
                    assert(point_lt(before[x], before[y]));
                }
            }
        }
        out.push(front[m]);
        m = m + 1;
        assert(out@ =~= lower.push(p) + front@.subrange(i as int, m as int));
    }
    proof {
        assert forall|x: LivePoint| #[trigger]
            out@.contains(x) <==> in_extended(front@, p, x) by {
            if out@.contains(x) {
                let y = choose|y: int| 0 <= y < out@.len() && out@[y] == x;
                if y < lower.len() {
                    assert(out@[y] == lower[y]);
                    assert(comes_from(front@, i as int, p, lower[y]));
let k = choose|k: int| 0 <= k < i && #[trigger] front@[k] == lower[y] && !superseded(front@[k], p);
                    assert(front@.contains(x));
                } else if y > lower.len() {
                    let k = i + y - lower.len() - 1;
                    assert(out@[y] == front@[k]);
                    assert(k > i ==> point_lt(front@[i as int], front@[k]));
                    assert(front@.contains(x));
                }
            }
            if in_extended(front@, p, x) {
                if x == p {
                    assert(out@[lower.len() as int] == p);
                } else {
                    let k = choose|k: int| 0 <= k < front@.len() && front@[k] == x;
                    if k < i {
                        assert(lower.contains(front@[k]));
                        let y = choose|y: int| 0 <= y < lower.len() && lower[y] == x;
                        assert(out@[y] == x);
                    } else {
                        assert(out@[lower.len() + 1 + k - i] == front@[k]);
                    }
                }
            }
        }
    }
    out
}

/// A copy of a list of points.
pub fn copy_points(points: &Vec<LivePoint>) -> (copy: Vec<LivePoint>)
    ensures
        copy@ == points@,
{
    let mut copy: Vec<LivePoint> = Vec::new();
    let mut i: usize = 0;
    while i < points.len()
        invariant
            i <= points@.len(),
            copy@ == points@.subrange(0, i as int),
        decreases points@.len() - i,
    {
        copy.push(points[i]);
        i = i + 1;
        assert(copy@ =~= points@.subrange(0, i as int));
    }
    assert(copy@ =~= points@);
    copy
}

/// Computes the frontier of a list of points.
pub fn compute_frontier(points: &Vec<LivePoint>) -> (out: Vec<LivePoint>)
    ensures
        out@ == frontier(points@),
{
    let mut out: Vec<LivePoint> = Vec::new();
    let mut i: usize = 0;
    proof {
        lemma_frontier_empty();
        assert(points@.subrange(0, 0) =~= Seq::empty());
    }
    while i < points.len()
        invariant
            i <= points@.len(),
            out@ == frontier(points@.subrange(0, i as int)),
        decreases points@.len() - i,
    {
        let ghost seen = points@.subrange(0, i as int);
        proof {
            lemma_frontier(seen);
        }
        let next: Vec<LivePoint> = frontier_insert(&out, points[i]);
        proof {
            lemma_frontier_push(seen, points@[i as int], next@);
            assert(points@.subrange(0, i + 1) =~= seen.push(points@[i as int]));
        }
        out = next;
        i = i + 1;
    }
    assert(points@.subrange(0, i as int) =~= points@);
    out
}

/// `q` is at least as new as `p`, and its epoch and count are at least as great.
pub open spec fn reaches(q: LivePoint, p: LivePoint) -> bool {
    &&& q.version.timestamp > p.version.timestamp || (q.version.timestamp == p.version.timestamp
        && q.version.replica_id.bits >= p.version.replica_id.bits)
    &&& q.value.epoch > p.value.epoch || (q.value.epoch == p.value.epoch && q.value.count
        >= p.value.count)
}

/// Nothing that counts is lost: for every point the frontier holds one that is at least as
/// new and whose epoch and count are at least as great.
pub proof fn law_frontier_reaches_every_point(points: Seq<LivePoint>, i: int)
    requires
        0 <= i < points.len(),
    ensures
        exists|k: int|
            0 <= k < frontier(points).len() && reaches(#[trigger] frontier(points)[k], points[i]),
{
    lemma_frontier(points);
    let f = frontier(points);
    let m = lemma_cover(points, i);
    assert(f.contains(points[m]));
    let k = choose|k: int| 0 <= k < f.len() && f[k] == points[m];
    assert(reaches(f[k], points[i]));
}

/// The frontier invents no point, and keeps none in vain: every newer point has a lower
/// epoch, or the same one and a lower count.
pub proof fn law_frontier_keeps_none_in_vain(points: Seq<LivePoint>, k: int)
    requires
        0 <= k < frontier(points).len(),
    ensures
        points.contains(frontier(points)[k]),
        forall|i: int|
            0 <= i < points.len() ==> {
                let (p, q) = (#[trigger] points[i], frontier(points)[k]);
                p.version.timestamp > q.version.timestamp || (p.version.timestamp
                    == q.version.timestamp && p.version.replica_id.bits
                    > q.version.replica_id.bits) ==> p.value.epoch < q.value.epoch || (
                p.value.epoch == q.value.epoch && p.value.count < q.value.count)
            },
{
    lemma_frontier(points);
    let q = frontier(points)[k];
    assert(frontier(points).contains(q));
    let m = choose|m: int| #[trigger] kept_at(points, m) && points[m] == q;
    assert(points[m] == q);
    assert forall|i: int| 0 <= i < points.len() implies ({
        let p = #[trigger] points[i];
        p.version.timestamp > q.version.timestamp || (p.version.timestamp == q.version.timestamp
            && p.version.replica_id.bits > q.version.replica_id.bits) ==> p.value.epoch
            < q.value.epoch || (p.value.epoch == q.value.epoch && p.value.count < q.value.count)
    }) by {
        if epoch_max_wins::version_lt(points[m].version, points[i].version) {
            assert(precedes(points, i, m));
        }
    }
}

/// The frontier is ordered by time, then by replica id, and of one version by epoch and
/// count. No point occurs twice.
pub proof fn law_frontier_is_ordered(points: Seq<LivePoint>, j: int, k: int)
    requires
        0 <= j < k < frontier(points).len(),
    ensures
        ({
            let (a, b) = (frontier(points)[j], frontier(points)[k]);
            &&& a.version.timestamp <= b.version.timestamp
            &&& a.version.timestamp == b.version.timestamp ==> a.version.replica_id.bits
                <= b.version.replica_id.bits
            &&& a.version == b.version ==> a.value.epoch < b.value.epoch || (a.value.epoch
                == b.value.epoch && a.value.count < b.value.count)
        }),
{
    lemma_frontier(points);
    assert(point_lt(frontier(points)[j], frontier(points)[k]));
}

} // verus!
