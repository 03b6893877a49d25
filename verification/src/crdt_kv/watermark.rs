//! Per-peer send watermarks.

use vstd::prelude::*;

use super::operation::{Operation, OperationView};
use super::operation_log;
use super::replica::ReplicaId;
use crate::keyed;
use crate::text::same_text;

verus! {

/// Identity and order of a write: its Lamport timestamp and its replica. This is
/// what decides between two writes where the last writer wins, so that a watermark
/// built from it advances in lockstep with the merge.
pub type CrdtVersion = (u64, ReplicaId);

/// What a peer has acknowledged of each key, so that the sender can skip what the
/// peer already has. Each key is tracked on its own: a dropped or late operation
/// delays that key and is never hidden behind a newer version of another key.
#[derive(Debug)]
pub struct CrdtWatermark {
    versions: Vec<(String, CrdtVersion)>,
}

/// Versions are ordered by timestamp, then by replica.
pub open spec fn older(a: CrdtVersion, b: CrdtVersion) -> bool {
    a.0 < b.0 || (a.0 == b.0 && a.1.bits < b.1.bits)
}

/// The newer of two versions.
pub open spec fn newer(a: CrdtVersion, b: CrdtVersion) -> CrdtVersion {
    if older(a, b) {
        b
    } else {
        a
    }
}

/// What is acknowledged once `id` is acknowledged for `key` too.
pub open spec fn advance(
    acked: Map<Seq<char>, CrdtVersion>,
    key: Seq<char>,
    id: CrdtVersion,
) -> Map<Seq<char>, CrdtVersion> {
    acked.insert(
        key,
        if acked.contains_key(key) {
            newer(acked[key], id)
        } else {
            id
        },
    )
}

/// What is acknowledged once all of `pairs` are acknowledged too.
pub open spec fn advance_all(
    acked: Map<Seq<char>, CrdtVersion>,
    pairs: Seq<(Seq<char>, CrdtVersion)>,
) -> Map<Seq<char>, CrdtVersion>
    decreases pairs.len(),
{
    if pairs.len() == 0 {
        acked
    } else {
        advance(advance_all(acked, pairs.drop_last()), pairs.last().0, pairs.last().1)
    }
}

/// The per-key maximum of two watermarks.
pub open spec fn join(
    a: Map<Seq<char>, CrdtVersion>,
    b: Map<Seq<char>, CrdtVersion>,
) -> Map<Seq<char>, CrdtVersion> {
    Map::new(
        |key: Seq<char>| a.contains_key(key) || b.contains_key(key),
        |key: Seq<char>|
            if a.contains_key(key) && b.contains_key(key) {
                newer(a[key], b[key])
            } else if a.contains_key(key) {
                a[key]
            } else {
                b[key]
            },
    )
}

/// The key and version of an operation.
pub open spec fn stamp(op: OperationView) -> (Seq<char>, CrdtVersion) {
    (op.key, (op.version.timestamp, op.version.replica_id))
}

pub open spec fn stamps(ops: Seq<OperationView>) -> Seq<(Seq<char>, CrdtVersion)> {
    ops.map_values(|op: OperationView| stamp(op))
}

pub open spec fn pair_views(pairs: Seq<(String, CrdtVersion)>) -> Seq<(Seq<char>, CrdtVersion)> {
    pairs.map_values(|p: (String, CrdtVersion)| (p.0@, p.1))
}

/// The operation is newer than what is acknowledged of its key.
pub open spec fn must_send(acked: Map<Seq<char>, CrdtVersion>, op: OperationView) -> bool {
    acked.contains_key(op.key) ==> older(acked[op.key], stamp(op).1)
}

/// The newer of two versions.
fn newer_version(a: CrdtVersion, b: CrdtVersion) -> (v: CrdtVersion)
    ensures
        v == newer(a, b),
{
    if is_older(a, b) {
        b
    } else {
        a
    }
}

/// Whether `a` is older than `b`.
fn is_older(a: CrdtVersion, b: CrdtVersion) -> (r: bool)
    ensures
        r == older(a, b),
{
    a.0 < b.0 || (a.0 == b.0 && a.1.bits < b.1.bits)
}

impl View for CrdtWatermark {
    type V = Map<Seq<char>, CrdtVersion>;

    /// The acknowledged version of each key.
    closed spec fn view(&self) -> Map<Seq<char>, CrdtVersion> {
        keyed::pairs_map(pair_views(self.versions@))
    }
}

impl CrdtWatermark {
    /// Each key is tracked once.
    pub closed spec fn wf(&self) -> bool {
        keyed::distinct_keys(pair_views(self.versions@))
    }

    /// A watermark that allows everything: a fresh peer gets the full set.
    pub fn new() -> (w: CrdtWatermark)
        ensures
            w.wf(),
            w@ == Map::<Seq<char>, CrdtVersion>::empty(),
    {
        let w = CrdtWatermark { versions: Vec::new() };
        assert(w@ =~= Map::empty());
        w
    }

    /// The place of `key`.
    fn find(&self, key: &str) -> (at: Option<usize>)
        ensures
            match at {
                Some(i) => i < self.versions@.len() && self.versions@[i as int].0@ == key@,
                None => !keyed::has_key(pair_views(self.versions@), key@),
            },
    {
        let mut i: usize = 0;
        while i < self.versions.len()
            invariant
                i <= self.versions@.len(),
                forall|k: int|
                    0 <= k < i ==> (#[trigger] pair_views(self.versions@)[k]).0 != key@,
            decreases self.versions@.len() - i,
        {
            if same_text(self.versions[i].0.as_str(), key) {
                return Some(i);
            }
            i = i + 1;
        }
        None
    }

    /// Acknowledges one version, keeping the newer one.
    fn acknowledge(&mut self, key: &str, id: CrdtVersion)
        requires
            old(self).wf(),
        ensures
            final(self).wf(),
            final(self)@ == advance(old(self)@, key@, id),
    {
        let ghost before = pair_views(self.versions@);
        match self.find(key) {
            Some(i) => {
                let (k, existing): (String, CrdtVersion) = (
                    self.versions[i].0.clone(),
                    self.versions[i].1,
                );
                self.versions.set(i, (k, newer_version(existing, id)));
                proof {
                    assert(before[i as int] == (key@, existing));
                    assert(pair_views(self.versions@) =~= before.update(
                        i as int,
                        (key@, newer(existing, id)),
                    ));
                    keyed::lemma_at(before, i as int);
                    keyed::lemma_update(before, i as int, newer(existing, id));
                }
            },
            None => {
                self.versions.push((key.to_owned(), id));
                proof {
                    assert(pair_views(self.versions@) =~= before.push((key@, id)));
                    keyed::lemma_push(before, key@, id);
                }
            },
        }
    }

    /// The watermark that acknowledges the given operations.
    pub fn from_ops(ops: &[Operation]) -> (w: CrdtWatermark)
        ensures
            w.wf(),
            w@ == advance_all(Map::empty(), stamps(operation_log::views(ops@))),
    {
        let mut w = CrdtWatermark::new();
        let ghost all = stamps(operation_log::views(ops@));
        let mut i: usize = 0;
        while i < ops.len()
            invariant
                i <= ops@.len(),
                w.wf(),
                all == stamps(operation_log::views(ops@)),
                w@ == advance_all(Map::empty(), all.subrange(0, i as int)),
            decreases ops@.len() - i,
        {
            proof {
                assert(all.subrange(0, i + 1).drop_last() =~= all.subrange(0, i as int));
                assert(all[i as int] == stamp(ops@[i as int]@));
            }
            w.acknowledge(ops[i].key(), (ops[i].timestamp(), ops[i].replica_id()));
            i = i + 1;
        }
        assert(all.subrange(0, i as int) =~= all);
        w
    }

    /// Whether the operation is newer than what the peer has acknowledged of its
    /// key. A key that was never acknowledged is always sent.
    pub fn allows(&self, op: &Operation) -> (allowed: bool)
        requires
            self.wf(),
        ensures
            allowed == must_send(self@, op@),
    {
        match self.get(op.key()) {
            Some(acked) => is_older(acked, (op.timestamp(), op.replica_id())),
            None => true,
        }
    }

    /// The acknowledged version of `key`.
    pub fn get(&self, key: &str) -> (id: Option<CrdtVersion>)
        requires
            self.wf(),
        ensures
            match id {
                Some(v) => self@.contains_key(key@) && self@[key@] == v,
                None => !self@.contains_key(key@),
            },
    {
        match self.find(key) {
            Some(i) => {
                proof {
                    let pairs = pair_views(self.versions@);
                    assert(pairs[i as int].0 == key@);
                    keyed::lemma_at(pairs, i as int);
                }
                Some(self.versions[i].1)
            },
            None => None,
        }
    }

    /// Advances toward `other`, taking the newer version of each key.
    pub fn merge_max(&mut self, other: &CrdtWatermark)
        requires
            old(self).wf(),
            other.wf(),
        ensures
            final(self).wf(),
            final(self)@ == join(old(self)@, other@),
    {
        let ghost pairs = pair_views(other.versions@);
        let ghost before = self@;
        let mut i: usize = 0;
        while i < other.versions.len()
            invariant
                i <= other.versions@.len(),
                pairs == pair_views(other.versions@),
                self.wf(),
                self@ == advance_all(before, pairs.subrange(0, i as int)),
            decreases other.versions@.len() - i,
        {
            proof {
                assert(pairs.subrange(0, i + 1).drop_last() =~= pairs.subrange(0, i as int));
                assert(pairs[i as int] == (other.versions@[i as int].0@, other.versions@[i as int].1));
            }
            self.acknowledge(other.versions[i].0.as_str(), other.versions[i].1);
            i = i + 1;
        }
        proof {
            assert(pairs.subrange(0, i as int) =~= pairs);
            lemma_advance_all_distinct(before, pairs);
        }
    }

    /// Advances by a list of acknowledged versions, taking the newest of each
    /// key.
    pub fn merge_max_owned(&mut self, pairs: Vec<(String, CrdtVersion)>)
        requires
            old(self).wf(),
        ensures
            final(self).wf(),
            final(self)@ == advance_all(old(self)@, pair_views(pairs@)),
    {
        let ghost all = pair_views(pairs@);
        let ghost before = self@;
        let mut i: usize = 0;
        while i < pairs.len()
            invariant
                i <= pairs@.len(),
                all == pair_views(pairs@),
                self.wf(),
                self@ == advance_all(before, all.subrange(0, i as int)),
            decreases pairs@.len() - i,
        {
            proof {
                assert(all.subrange(0, i + 1).drop_last() =~= all.subrange(0, i as int));
                assert(all[i as int] == (pairs@[i as int].0@, pairs@[i as int].1));
            }
            self.acknowledge(pairs[i].0.as_str(), pairs[i].1);
            i = i + 1;
        }
        assert(all.subrange(0, i as int) =~= all);
    }

    /// The acknowledged versions, each key once.
    pub fn iter(&self) -> (pairs: Vec<(&str, CrdtVersion)>)
        requires
            self.wf(),
        ensures
            keyed::distinct_keys(pairs@.map_values(|p: (&str, CrdtVersion)| (p.0@, p.1))),
            keyed::pairs_map(pairs@.map_values(|p: (&str, CrdtVersion)| (p.0@, p.1))) == self@,
    {
        let ghost f = |p: (&str, CrdtVersion)| (p.0@, p.1);
        let ghost all = pair_views(self.versions@);
        let mut pairs: Vec<(&str, CrdtVersion)> = Vec::new();
        let mut i: usize = 0;
        while i < self.versions.len()
            invariant
                i <= self.versions@.len(),
                f == (|p: (&str, CrdtVersion)| (p.0@, p.1)),
                all == pair_views(self.versions@),
                pairs@.map_values(f) == all.subrange(0, i as int),
            decreases self.versions@.len() - i,
        {
            let ghost before = pairs@;
            pairs.push((self.versions[i].0.as_str(), self.versions[i].1));
            i = i + 1;
            proof {
                assert(pairs@.map_values(f) =~= before.map_values(f).push(all[i - 1]));
                assert(all.subrange(0, i as int) =~= all.subrange(0, i - 1).push(all[i - 1]));
            }
        }
        assert(all.subrange(0, i as int) =~= all);
        pairs
    }

    /// Whether nothing has been acknowledged yet.
    pub fn is_empty(&self) -> (empty: bool)
        ensures
            empty <==> self@ == Map::<Seq<char>, CrdtVersion>::empty(),
    {
        proof {
            if self.versions@.len() == 0 {
                assert(self@ =~= Map::empty());
            } else {
                let pairs = pair_views(self.versions@);
                assert(keyed::has_key(pairs, pairs[0].0));
                assert(self@.contains_key(pairs[0].0));
            }
        }
        self.versions.len() == 0
    }

    /// The watermark of a list of acknowledged versions, keeping the newest of
    /// each key.
    pub fn from_iter(pairs: Vec<(String, CrdtVersion)>) -> (w: CrdtWatermark)
        ensures
            w.wf(),
            w@ == advance_all(Map::empty(), pair_views(pairs@)),
    {
        let mut w = CrdtWatermark::new();
        w.merge_max_owned(pairs);
        w
    }
}

impl Clone for CrdtWatermark {
    fn clone(&self) -> (w: CrdtWatermark)
        ensures
            w@ == self@,
            self.wf() ==> w.wf(),
    {
        let mut versions: Vec<(String, CrdtVersion)> = Vec::new();
        let ghost all = pair_views(self.versions@);
        let mut i: usize = 0;
        while i < self.versions.len()
            invariant
                i <= self.versions@.len(),
                all == pair_views(self.versions@),
                pair_views(versions@) == all.subrange(0, i as int),
            decreases self.versions@.len() - i,
        {
            let ghost before = versions@;
            versions.push((self.versions[i].0.clone(), self.versions[i].1));
            i = i + 1;
            proof {
                assert(pair_views(versions@) =~= pair_views(before).push(all[i - 1]));
                assert(all.subrange(0, i as int) =~= all.subrange(0, i - 1).push(all[i - 1]));
            }
        }
        assert(all.subrange(0, i as int) =~= all);
        CrdtWatermark { versions }
    }
}

/// Both lists hold the same pairs.
pub closed spec fn same_pairs(
    a: Seq<(Seq<char>, CrdtVersion)>,
    b: Seq<(Seq<char>, CrdtVersion)>,
) -> bool {
    &&& forall|i: int| 0 <= i < a.len() ==> b.contains(#[trigger] a[i])
    &&& forall|i: int| 0 <= i < b.len() ==> a.contains(#[trigger] b[i])
}

/// Whether `b` holds every pair of `a`.
fn holds_pairs(a: &Vec<(String, CrdtVersion)>, b: &Vec<(String, CrdtVersion)>) -> (all: bool)
    ensures
        all == forall|i: int|
            0 <= i < a@.len() ==> pair_views(b@).contains(#[trigger] pair_views(a@)[i]),
{
    let ghost (x, y) = (pair_views(a@), pair_views(b@));
    let mut i: usize = 0;
    while i < a.len()
        invariant
            i <= a@.len(),
            x == pair_views(a@),
            y == pair_views(b@),
            forall|k: int| 0 <= k < i ==> y.contains(#[trigger] x[k]),
        decreases a@.len() - i,
    {
        let mut found: bool = false;
        let mut j: usize = 0;
        while j < b.len()
            invariant
                i < a@.len(),
                j <= b@.len(),
                x == pair_views(a@),
                y == pair_views(b@),
                found == exists|k: int| 0 <= k < j && #[trigger] y[k] == x[i as int],
            decreases b@.len() - j,
        {
            assert(y[j as int] == (b@[j as int].0@, b@[j as int].1));
            assert(x[i as int] == (a@[i as int].0@, a@[i as int].1));
            if a[i].1.0 == b[j].1.0 && a[i].1.1.bits == b[j].1.1.bits && same_text(
                a[i].0.as_str(),
                b[j].0.as_str(),
            ) {
                found = true;
            }
            j = j + 1;
        }
        if !found {
            assert(!y.contains(x[i as int]));
            return false;
        }
        i = i + 1;
    }
    true
}

impl PartialEq for CrdtWatermark {
    fn eq(&self, other: &CrdtWatermark) -> (same: bool) {
        holds_pairs(&self.versions, &other.versions) && holds_pairs(&other.versions, &self.versions)
    }
}

impl vstd::std_specs::cmp::PartialEqSpecImpl for CrdtWatermark {
    open spec fn obeys_eq_spec() -> bool {
        true
    }

    closed spec fn eq_spec(&self, other: &CrdtWatermark) -> bool {
        same_pairs(pair_views(self.versions@), pair_views(other.versions@))
    }
}

impl Eq for CrdtWatermark {

}

/// Watermarks are equal exactly where they acknowledge the same.
pub proof fn law_equality_is_agreement(a: CrdtWatermark, b: CrdtWatermark)
    requires
        a.wf(),
        b.wf(),
    ensures
        vstd::std_specs::cmp::PartialEqSpec::eq_spec(&a, &b) <==> a@ == b@,
{
    let (x, y) = (pair_views(a.versions@), pair_views(b.versions@));
    if same_pairs(x, y) {
        assert forall|key: Seq<char>| keyed::has_key(x, key) <==> keyed::has_key(y, key) by {
            if keyed::has_key(x, key) {
                let i = choose|i: int| 0 <= i < x.len() && (#[trigger] x[i]).0 == key;
                assert(y.contains(x[i]));
                let j = choose|j: int| 0 <= j < y.len() && y[j] == x[i];
                assert(y[j].0 == key);
            }
            if keyed::has_key(y, key) {
                let i = choose|i: int| 0 <= i < y.len() && (#[trigger] y[i]).0 == key;
                assert(x.contains(y[i]));
                let j = choose|j: int| 0 <= j < x.len() && x[j] == y[i];
                assert(x[j].0 == key);
            }
        }
        assert forall|key: Seq<char>| #[trigger] keyed::has_key(x, key) implies keyed::pairs_map(
            x,
        )[key] == keyed::pairs_map(y)[key] by {
            let i = choose|i: int| 0 <= i < x.len() && (#[trigger] x[i]).0 == key;
            assert(y.contains(x[i]));
            let j = choose|j: int| 0 <= j < y.len() && y[j] == x[i];
            keyed::lemma_at(x, i);
            keyed::lemma_at(y, j);
        }
        assert(a@ =~= b@);
    }
    if a@ == b@ {
        lemma_pairs_of_map(x, y);
        lemma_pairs_of_map(y, x);
    }
}

proof fn lemma_pairs_of_map(x: Seq<(Seq<char>, CrdtVersion)>, y: Seq<(Seq<char>, CrdtVersion)>)
    requires
        keyed::distinct_keys(x),
        keyed::distinct_keys(y),
        keyed::pairs_map(x) == keyed::pairs_map(y),
    ensures
        forall|i: int| 0 <= i < x.len() ==> y.contains(#[trigger] x[i]),
{
    assert forall|i: int| 0 <= i < x.len() implies y.contains(#[trigger] x[i]) by {
        keyed::lemma_at(x, i);
        assert(keyed::pairs_map(y).contains_key(x[i].0));
        assert(keyed::has_key(y, x[i].0));
        let j = choose|j: int| 0 <= j < y.len() && (#[trigger] y[j]).0 == x[i].0;
        keyed::lemma_at(y, j);
        assert(y[j] == x[i]);
    }
}

impl Default for CrdtWatermark {
    fn default() -> (w: CrdtWatermark)
        ensures
            w.wf(),
            w@ == Map::<Seq<char>, CrdtVersion>::empty(),
    {
        CrdtWatermark::new()
    }
}

/// Acknowledging the entries of a watermark one by one joins the watermarks.
proof fn lemma_advance_all_distinct(
    acked: Map<Seq<char>, CrdtVersion>,
    pairs: Seq<(Seq<char>, CrdtVersion)>,
)
    requires
        keyed::distinct_keys(pairs),
    ensures
        advance_all(acked, pairs) == join(acked, keyed::pairs_map(pairs)),
    decreases pairs.len(),
{
    if pairs.len() == 0 {
        assert(join(acked, keyed::pairs_map(pairs)) =~= acked);
    } else {
        let rest = pairs.drop_last();
        let last = pairs.last();
        assert(keyed::distinct_keys(rest)) by {
            assert forall|i: int, j: int| 0 <= i < j < rest.len() implies (#[trigger] rest[i]).0
                != (#[trigger] rest[j]).0 by {
                assert(rest[i] == pairs[i] && rest[j] == pairs[j]);
            }
        }
        lemma_advance_all_distinct(acked, rest);
        let (m, n) = (keyed::pairs_map(rest), keyed::pairs_map(pairs));
        assert(!keyed::has_key(rest, last.0)) by {
            if keyed::has_key(rest, last.0) {
                let k = choose|k: int| 0 <= k < rest.len() && (#[trigger] rest[k]).0 == last.0;
                assert(pairs[k].0 != pairs[pairs.len() - 1].0);
            }
        }
        assert forall|x: Seq<char>| keyed::has_key(pairs, x) <==> keyed::has_key(rest, x) || x == last.0 by {
            if keyed::has_key(rest, x) {
                let k = choose|k: int| 0 <= k < rest.len() && (#[trigger] rest[k]).0 == x;
                assert(pairs[k].0 == x);
            }
            assert(pairs[pairs.len() - 1].0 == last.0);
            if keyed::has_key(pairs, x) {
                let k = choose|k: int| 0 <= k < pairs.len() && (#[trigger] pairs[k]).0 == x;
                if k < rest.len() {
                    assert(rest[k].0 == x);
                }
            }
        }
        assert forall|x: Seq<char>| keyed::has_key(rest, x) implies m[x] == n[x] by {
            let k = choose|k: int| 0 <= k < rest.len() && (#[trigger] rest[k]).0 == x;
            keyed::lemma_at(rest, k);
            keyed::lemma_at(pairs, k);
            assert(pairs[k] == rest[k]);
        }
        keyed::lemma_at(pairs, pairs.len() - 1);
        assert(advance(join(acked, m), last.0, last.1) =~= join(acked, n));
    }
}

/// Joining two watermarks in either order gives the same.
pub proof fn law_join_commutes(a: Map<Seq<char>, CrdtVersion>, b: Map<Seq<char>, CrdtVersion>)
    ensures
        join(a, b) == join(b, a),
{
    assert(join(a, b) =~= join(b, a));
}

/// Joining three watermarks in either grouping gives the same.
pub proof fn law_join_associates(
    a: Map<Seq<char>, CrdtVersion>,
    b: Map<Seq<char>, CrdtVersion>,
    c: Map<Seq<char>, CrdtVersion>,
)
    ensures
        join(join(a, b), c) == join(a, join(b, c)),
{
    assert(join(join(a, b), c) =~= join(a, join(b, c)));
}

/// A duplicate acknowledgement changes nothing.
pub proof fn law_join_idempotent(a: Map<Seq<char>, CrdtVersion>, b: Map<Seq<char>, CrdtVersion>)
    ensures
        join(a, a) == a,
        join(join(a, b), b) == join(a, b),
{
    assert(join(a, a) =~= a);
    assert(join(join(a, b), b) =~= join(a, b));
}

/// A watermark never goes back: what one of two watermarks suppresses, their join
/// suppresses, and nothing else.
pub proof fn law_join_is_monotone(
    a: Map<Seq<char>, CrdtVersion>,
    b: Map<Seq<char>, CrdtVersion>,
    op: OperationView,
)
    ensures
        must_send(join(a, b), op) <==> must_send(a, op) && must_send(b, op),
{
}

/// Acknowledging a version never unblocks an operation.
pub proof fn law_advance_is_monotone(
    acked: Map<Seq<char>, CrdtVersion>,
    pairs: Seq<(Seq<char>, CrdtVersion)>,
    op: OperationView,
)
    ensures
        must_send(advance_all(acked, pairs), op) ==> must_send(acked, op),
    decreases pairs.len(),
{
    if pairs.len() > 0 {
        law_advance_is_monotone(acked, pairs.drop_last(), op);
    }
}

/// An operation that was acknowledged is not sent again, and neither is an older
/// one of the same key.
pub proof fn law_acknowledged_is_not_resent(
    ops: Seq<OperationView>,
    i: int,
    op: OperationView,
)
    requires
        0 <= i < ops.len(),
        op.key == ops[i].key,
        !older(stamp(ops[i]).1, stamp(op).1),
    ensures
        !must_send(advance_all(Map::empty(), stamps(ops)), op),
    decreases ops.len(),
{
    let all = stamps(ops);
    assert(all.drop_last() =~= stamps(ops.drop_last()));
    assert(all.last() == stamp(ops.last()));
    if i < ops.len() - 1 {
        law_acknowledged_is_not_resent(ops.drop_last(), i, op);
    }
}

/// An operation that is newer than all acknowledged ones of its key is sent.
pub proof fn law_newer_is_sent(ops: Seq<OperationView>, op: OperationView)
    requires
        forall|i: int|
            0 <= i < ops.len() && (#[trigger] ops[i]).key == op.key ==> older(
                stamp(ops[i]).1,
                stamp(op).1,
            ),
    ensures
        must_send(advance_all(Map::empty(), stamps(ops)), op),
    decreases ops.len(),
{
    let all = stamps(ops);
    if ops.len() > 0 {
        assert(all.drop_last() =~= stamps(ops.drop_last()));
        assert(all.last() == stamp(ops.last()));
        assert(ops[ops.len() - 1] == ops.last());
        assert forall|i: int|
            0 <= i < ops.drop_last().len() && (#[trigger] ops.drop_last()[i]).key
                == op.key implies older(stamp(ops.drop_last()[i]).1, stamp(op).1) by {
            assert(ops.drop_last()[i] == ops[i]);
        }
        law_newer_is_sent(ops.drop_last(), op);
    }
}

/// An operation is sent exactly where nothing is acknowledged of its key, or where its
/// time is later than the acknowledged one, or the same and its replica id greater.
pub proof fn law_only_newer_is_sent(
    acked: Map<Seq<char>, CrdtVersion>,
    op: OperationView,
)
    ensures
        !acked.contains_key(op.key) ==> must_send(acked, op),
        acked.contains_key(op.key) ==> (must_send(acked, op) <==> op.version.timestamp
            > acked[op.key].0 || (op.version.timestamp == acked[op.key].0
            && op.version.replica_id.bits > acked[op.key].1.bits)),
{
}

/// A watermark of operations acknowledges of each key that they mention the version of one
/// of them, and none of them has a later time, nor the same time and a greater replica id.
/// It acknowledges no other key.
pub proof fn law_watermark_is_newest(ops: Seq<OperationView>, key: Seq<char>)
    ensures
        ({
            let acked = advance_all(Map::empty(), stamps(ops));
            &&& acked.contains_key(key) <==> operation_log::mentions(ops, key)
            &&& acked.contains_key(key) ==> exists|i: int|
                0 <= i < ops.len() && (#[trigger] ops[i]).key == key && acked[key].0
                    == ops[i].version.timestamp && acked[key].1 == ops[i].version.replica_id
            &&& forall|i: int|
                0 <= i < ops.len() && (#[trigger] ops[i]).key == key ==> ops[i].version.timestamp
                    < acked[key].0 || (ops[i].version.timestamp == acked[key].0
                    && ops[i].version.replica_id.bits <= acked[key].1.bits)
        }),
    decreases ops.len(),
{
    let all = stamps(ops);
    if ops.len() > 0 {
        let rest = ops.drop_last();
        law_watermark_is_newest(rest, key);
        assert(all.drop_last() =~= stamps(rest));
        assert(all.last() == stamp(ops.last()));
        let before = advance_all(Map::empty(), stamps(rest));
        let acked = advance_all(Map::empty(), all);
        assert(ops[ops.len() - 1] == ops.last());
        if operation_log::mentions(rest, key) {
            let k = choose|k: int| 0 <= k < rest.len() && (#[trigger] rest[k]).key == key;
            assert(ops[k].key == key);
        }
        if operation_log::mentions(ops, key) && ops.last().key != key {
            let k = choose|k: int| 0 <= k < ops.len() && (#[trigger] ops[k]).key == key;
            assert(rest[k].key == key);
        }
        if before.contains_key(key) {
            let i = choose|i: int|
                0 <= i < rest.len() && (#[trigger] rest[i]).key == key && before[key].0
                    == rest[i].version.timestamp && before[key].1 == rest[i].version.replica_id;
            assert(ops[i] == rest[i]);
        }
        assert forall|i: int|
            0 <= i < ops.len() && (#[trigger] ops[i]).key == key implies ops[i].version.timestamp
            < acked[key].0 || (ops[i].version.timestamp == acked[key].0
            && ops[i].version.replica_id.bits <= acked[key].1.bits) by {
            if i < rest.len() {
                assert(rest[i] == ops[i]);
                assert(operation_log::mentions(rest, key));
            }
        }
    }
}

/// A join acknowledges of each key what one of the two watermarks does, and no less than
/// either: neither has a later time, nor the same time and a greater replica id.
pub proof fn law_join_takes_the_newer(
    a: Map<Seq<char>, CrdtVersion>,
    b: Map<Seq<char>, CrdtVersion>,
    key: Seq<char>,
)
    ensures
        ({
            let j = join(a, b);
            &&& j.contains_key(key) <==> a.contains_key(key) || b.contains_key(key)
            &&& j.contains_key(key) ==> (a.contains_key(key) && j[key] == a[key]) || (
            b.contains_key(key) && j[key] == b[key])
            &&& a.contains_key(key) ==> a[key].0 < j[key].0 || (a[key].0 == j[key].0
                && a[key].1.bits <= j[key].1.bits)
            &&& b.contains_key(key) ==> b[key].0 < j[key].0 || (b[key].0 == j[key].0
                && b[key].1.bits <= j[key].1.bits)
        }),
{
}

/// Acknowledging a version affects its own key only. It is acknowledged from then on unless
/// a version with a later time, or with the same time and no smaller replica id, already
/// was.
pub proof fn law_acknowledging_keeps_the_newer(
    acked: Map<Seq<char>, CrdtVersion>,
    key: Seq<char>,
    id: CrdtVersion,
    other: Seq<char>,
)
    ensures
        ({
            let next = advance(acked, key, id);
            &&& next.contains_key(key)
            &&& !acked.contains_key(key) || acked[key].0 < id.0 || (acked[key].0 == id.0
                && acked[key].1.bits < id.1.bits) ==> next[key] == id
            &&& acked.contains_key(key) && (acked[key].0 > id.0 || (acked[key].0 == id.0
                && acked[key].1.bits >= id.1.bits)) ==> next[key] == acked[key]
            &&& other != key ==> (next.contains_key(other) <==> acked.contains_key(other))
            &&& other != key && acked.contains_key(other) ==> next[other] == acked[other]
        }),
{
}

} // verus!
