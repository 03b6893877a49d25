//! The live values of a namespace.

use vstd::prelude::*;

use super::operation::copy_bytes;
use crate::keyed;
use crate::text::same_text;

verus! {

/// The live value of each key, and a counter of the changes made to them.
#[derive(Debug)]
pub struct KvStore {
    entries: Vec<(String, Vec<u8>)>,
    generation: u64,
}

/// What a store holds.
#[verifier::ext_equal]
pub struct KvView {
    pub live: Map<Seq<char>, Seq<u8>>,
    pub generation: u64,
}

pub open spec fn entry_pairs(entries: Seq<(String, Vec<u8>)>) -> Seq<(Seq<char>, Seq<u8>)> {
    entries.map_values(|e: (String, Vec<u8>)| (e.0@, e.1@))
}

/// The change counter wraps around.
pub open spec fn next_generation(g: u64) -> u64 {
    if g == u64::MAX {
        0
    } else {
        (g + 1) as u64
    }
}

/// The store after a value was set.
pub open spec fn kv_insert(kv: KvView, key: Seq<char>, value: Seq<u8>) -> KvView {
    KvView { live: kv.live.insert(key, value), generation: next_generation(kv.generation) }
}

/// The store after a key was removed. Removing what is not there is no change.
pub open spec fn kv_remove(kv: KvView, key: Seq<char>) -> KvView {
    if kv.live.contains_key(key) {
        KvView { live: kv.live.remove(key), generation: next_generation(kv.generation) }
    } else {
        kv
    }
}

/// The value of a key, if it has one.
pub open spec fn kv_get(kv: KvView, key: Seq<char>) -> Option<Seq<u8>> {
    if kv.live.contains_key(key) {
        Some(kv.live[key])
    } else {
        None
    }
}

/// The bytes of an optional value.
pub open spec fn bytes_view(value: Option<Vec<u8>>) -> Option<Seq<u8>> {
    match value {
        Some(v) => Some(v@),
        None => None,
    }
}

/// `list` holds each key of the set once.
pub open spec fn lists_keys(list: Seq<Seq<char>>, keys: Set<Seq<char>>) -> bool {
    &&& list.no_duplicates()
    &&& forall|key: Seq<char>| #[trigger] list.contains(key) <==> keys.contains(key)
}

pub open spec fn text_views(texts: Seq<String>) -> Seq<Seq<char>> {
    texts.map_values(|t: String| t@)
}

/// `out` holds those of the first `n` keys of `list` that are in the set, each
/// once.
pub open spec fn picked(
    list: Seq<Seq<char>>,
    n: int,
    set: Set<Seq<char>>,
    out: Seq<Seq<char>>,
) -> bool {
    &&& out.no_duplicates()
    &&& forall|key: Seq<char>| #[trigger]
        out.contains(key) <==> set.contains(key) && list.subrange(0, n).contains(key)
}

/// How picking goes on with the next key of the list.
pub proof fn lemma_picked_next(
    list: Seq<Seq<char>>,
    n: int,
    set: Set<Seq<char>>,
    out: Seq<Seq<char>>,
)
    requires
        list.no_duplicates(),
        0 <= n < list.len(),
        picked(list, n, set, out),
    ensures
        !out.contains(list[n]),
        picked(
            list,
            n + 1,
            set,
            if set.contains(list[n]) {
                out.push(list[n])
            } else {
                out
            },
        ),
        out.push(list[n]).to_set() == out.to_set().insert(list[n]),
{
    let (seen, more) = (list.subrange(0, n), list.subrange(0, n + 1));
    let key = list[n];
    assert(!seen.contains(key)) by {
        if seen.contains(key) {
            let k = choose|k: int| 0 <= k < seen.len() && seen[k] == key;
            assert(list[k] == list[n]);
        }
    }
    let longer = out.push(key);
    assert forall|k: Seq<char>| #[trigger] more.contains(k) <==> seen.contains(k) || k == key by {
        if seen.contains(k) {
            let x = choose|x: int| 0 <= x < seen.len() && seen[x] == k;
            assert(more[x] == k);
        }
        assert(more[n] == key);
        if more.contains(k) {
            let x = choose|x: int| 0 <= x < more.len() && more[x] == k;
            if x < n {
                assert(seen[x] == k);
            }
        }
    }
    assert forall|k: Seq<char>| #[trigger] longer.contains(k) <==> out.contains(k) || k == key by {
        if out.contains(k) {
            let x = choose|x: int| 0 <= x < out.len() && out[x] == k;
            assert(longer[x] == k);
        }
        assert(longer[out.len() as int] == key);
        if longer.contains(k) {
            let x = choose|x: int| 0 <= x < longer.len() && longer[x] == k;
            if x < out.len() {
                assert(out[x] == k);
            }
        }
    }
    assert(longer.to_set() =~= out.to_set().insert(key));
}

/// What was picked of all keys is the set.
pub proof fn lemma_picked_all(
    list: Seq<Seq<char>>,
    keys: Set<Seq<char>>,
    set: Set<Seq<char>>,
    out: Seq<Seq<char>>,
)
    requires
        lists_keys(list, keys),
        set.subset_of(keys),
        picked(list, list.len() as int, set, out),
    ensures
        lists_keys(out, set),
        out.to_set() == set,
        set.finite(),
        set.len() == out.len(),
{
    assert(list.subrange(0, list.len() as int) =~= list);
    assert forall|k: Seq<char>| #[trigger] out.contains(k) <==> set.contains(k) by {
        if set.contains(k) {
            assert(keys.contains(k));
            assert(list.contains(k));
        }
    }
    assert(out.to_set() =~= set);
    out.unique_seq_to_set();
    vstd::seq_lib::seq_to_set_is_finite(out);
}

impl View for KvStore {
    type V = KvView;

    closed spec fn view(&self) -> KvView {
        KvView {
            live: keyed::pairs_map(entry_pairs(self.entries@)),
            generation: self.generation,
        }
    }
}

impl KvStore {
    /// Each key is held once.
    pub closed spec fn wf(&self) -> bool {
        keyed::distinct_keys(entry_pairs(self.entries@))
    }

    /// An empty store.
    pub fn new() -> (kv: KvStore)
        ensures
            kv.wf(),
            kv@ == (KvView { live: Map::empty(), generation: 0 }),
    {
        let kv = KvStore { entries: Vec::new(), generation: 0 };
        assert(kv@.live =~= Map::empty());
        kv
    }

    fn find(&self, key: &str) -> (at: Option<usize>)
        ensures
            match at {
                Some(i) => i < self.entries@.len() && self.entries@[i as int].0@ == key@,
                None => !keyed::has_key(entry_pairs(self.entries@), key@),
            },
    {
        let mut i: usize = 0;
        while i < self.entries.len()
            invariant
                i <= self.entries@.len(),
                forall|k: int|
                    0 <= k < i ==> (#[trigger] entry_pairs(self.entries@)[k]).0 != key@,
            decreases self.entries@.len() - i,
        {
            if same_text(self.entries[i].0.as_str(), key) {
                return Some(i);
            }
            i = i + 1;
        }
        None
    }

    /// The value of `key`.
    pub fn get(&self, key: &str) -> (value: Option<Vec<u8>>)
        requires
            self.wf(),
        ensures
            bytes_view(value) == kv_get(self@, key@),
    {
        match self.find(key) {
            Some(i) => {
                proof {
                    let pairs = entry_pairs(self.entries@);
                    assert(pairs[i as int].0 == key@);
                    keyed::lemma_at(pairs, i as int);
                }
                Some(copy_bytes(self.entries[i].1.as_slice()))
            },
            None => None,
        }
    }

    /// Whether `key` has a value.
    pub fn contains_key(&self, key: &str) -> (found: bool)
        requires
            self.wf(),
        ensures
            found == self@.live.contains_key(key@),
    {
        match self.find(key) {
            Some(i) => {
                proof {
                    let pairs = entry_pairs(self.entries@);
                    assert(pairs[i as int].0 == key@);
                    keyed::lemma_at(pairs, i as int);
                }
                true
            },
            None => false,
        }
    }

    /// Sets the value of `key`.
    pub fn insert(&mut self, key: &str, value: Vec<u8>)
        requires
            old(self).wf(),
        ensures
            final(self).wf(),
            final(self)@ == kv_insert(old(self)@, key@, value@),
    {
        let ghost before = entry_pairs(self.entries@);
        let ghost bytes = value@;
        match self.find(key) {
            Some(i) => {
                self.entries.set(i, (key.to_owned(), value));
                proof {
                    assert(before[i as int].0 == key@);
                    assert(entry_pairs(self.entries@) =~= before.update(i as int, (key@, bytes)));
                    keyed::lemma_update(before, i as int, bytes);
                }
            },
            None => {
                self.entries.push((key.to_owned(), value));
                proof {
                    assert(entry_pairs(self.entries@) =~= before.push((key@, bytes)));
                    keyed::lemma_push(before, key@, bytes);
                }
            },
        }
        self.generation = self.generation.wrapping_add(1);
    }

    /// Removes the value of `key` and returns it.
    pub fn remove(&mut self, key: &str) -> (value: Option<Vec<u8>>)
        requires
            old(self).wf(),
        ensures
            final(self).wf(),
            final(self)@ == kv_remove(old(self)@, key@),
            bytes_view(value) == kv_get(old(self)@, key@),
    {
        let ghost before = entry_pairs(self.entries@);
        match self.find(key) {
            Some(i) => {
                let (_, value): (String, Vec<u8>) = self.entries.remove(i);
                self.generation = self.generation.wrapping_add(1);
                proof {
                    assert(before[i as int] == (key@, value@));
                    keyed::lemma_at(before, i as int);
                    keyed::lemma_remove(before, i as int);
                    assert(entry_pairs(self.entries@) =~= before.remove(i as int));
                }
                Some(value)
            },
            None => None,
        }
    }

    /// The keys that have a value, each once.
    pub fn keys(&self) -> (keys: Vec<String>)
        requires
            self.wf(),
        ensures
            lists_keys(text_views(keys@), self@.live.dom()),
    {
        let mut keys: Vec<String> = Vec::new();
        let ghost pairs = entry_pairs(self.entries@);
        let mut i: usize = 0;
        while i < self.entries.len()
            invariant
                i <= self.entries@.len(),
                pairs == entry_pairs(self.entries@),
                keys@.len() == i,
                forall|k: int| 0 <= k < i ==> (#[trigger] keys@[k])@ == pairs[k].0,
            decreases self.entries@.len() - i,
        {
            keys.push(self.entries[i].0.clone());
            i = i + 1;
        }
        proof {
            let list = text_views(keys@);
            assert forall|k: int| 0 <= k < list.len() implies list[k] == pairs[k].0 by {
                assert(list[k] == keys@[k]@);
            }
            assert forall|x: int, y: int|
                0 <= x < list.len() && 0 <= y < list.len() && x != y implies list[x] != list[y] by {
                if x < y {
                    assert(pairs[x].0 != pairs[y].0);
                } else {
                    assert(pairs[y].0 != pairs[x].0);
                }
            }
            assert forall|key: Seq<char>| #[trigger]
                list.contains(key) <==> self@.live.dom().contains(key) by {
                if list.contains(key) {
                    let k = choose|k: int| 0 <= k < list.len() && list[k] == key;
                    assert(pairs[k].0 == key);
                }
                if self@.live.dom().contains(key) {
                    let k = choose|k: int| 0 <= k < pairs.len() && (#[trigger] pairs[k]).0 == key;
                    assert(list[k] == key);
                }
            }
        }
        keys
    }

    /// The number of keys that have a value.
    pub fn len(&self) -> (n: usize)
        requires
            self.wf(),
        ensures
            n == self@.live.dom().len(),
    {
        proof {
            keyed::lemma_len(entry_pairs(self.entries@));
        }
        self.entries.len()
    }

    /// The number of changes made so far.
    pub fn generation(&self) -> (g: u64)
        ensures
            g == self@.generation,
    {
        self.generation
    }
}

/// A read gives what was last set, and nothing once the key was removed. Other keys are
/// left alone. Setting a value is a change even where the value stays the same; removing
/// what is not there is none.
pub proof fn law_read_gives_what_was_set(
    kv: KvView,
    key: Seq<char>,
    value: Seq<u8>,
    other: Seq<char>,
)
    ensures
        kv_get(kv_insert(kv, key, value), key) == Some(value),
        kv_get(kv_remove(kv, key), key) is None,
        other != key ==> kv_get(kv_insert(kv, key, value), other) == kv_get(kv, other),
        other != key ==> kv_get(kv_remove(kv, key), other) == kv_get(kv, other),
        kv.generation < 0xffff_ffff_ffff_ffff ==> kv_insert(kv, key, value).generation
            == kv.generation + 1,
        kv.generation == 0xffff_ffff_ffff_ffff ==> kv_insert(kv, key, value).generation == 0,
        kv_get(kv, key) is None ==> kv_remove(kv, key) == kv,
        kv_get(kv, key) is Some ==> kv_remove(kv, key).generation == kv_insert(
            kv,
            key,
            value,
        ).generation,
        kv_get(kv, key) is Some <==> kv.live.contains_key(key),
{
}

} // verus!
