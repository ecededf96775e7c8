//! A table from byte strings to values that remembers the order of entry.
use crate::bytes::same;
use std::collections::HashMap;
use vstd::prelude::*;
use vstd::slice::slice_to_vec;

verus! {

broadcast use vstd::std_specs::hash::group_hash_axioms;

/// The bucket of a key, one byte after the other.
pub open spec fn bucket_of(key: Seq<u8>) -> u64
    decreases key.len(),
{
    if key.len() == 0 {
        0xcbf29ce484222325
    } else {
        (bucket_of(key.drop_last()) ^ (key.last() as u64)).wrapping_mul(0x100000001b3)
    }
}

/// The bucket of a key.
fn bucket(key: &[u8]) -> (r: u64)
    ensures
        r == bucket_of(key@),
{
    let mut h: u64 = 0xcbf29ce484222325;
    let mut i: usize = 0;
    assert(key@.take(0) =~= Seq::empty());
    while i < key.len()
        invariant
            i <= key@.len(),
            h == bucket_of(key@.take(i as int)),
        decreases key@.len() - i,
    {
        assert(key@.take(i + 1).drop_last() =~= key@.take(i as int));
        h = (h ^ (key[i] as u64)).wrapping_mul(0x100000001b3);
        i += 1;
    }
    assert(key@.take(i as int) =~= key@);
    h
}

/// One entry: its key and, while it is in the table, its value.
struct Entry<V> {
    key: Vec<u8>,
    value: Option<V>,
}

/// A table from byte strings to values.
pub struct Table<V> {
    entries: Vec<Entry<V>>,
    buckets: HashMap<u64, Vec<usize>>,
    live: usize,
}

/// How many of the first `n` entries are in the table.
spec fn live_count<V>(entries: Seq<Entry<V>>, n: nat) -> nat
    decreases n,
{
    if n == 0 {
        0
    } else if entries[n - 1].value is Some {
        live_count(entries, (n - 1) as nat) + 1
    } else {
        live_count(entries, (n - 1) as nat)
    }
}

/// Whether the entry at a position holds a key.
spec fn holds_at<V>(entries: Seq<Entry<V>>, i: int, key: Seq<u8>) -> bool {
    0 <= i < entries.len() && entries[i].key@ == key && entries[i].value is Some
}

/// A count stays the same where the counted entries do.
proof fn lemma_same_count<V>(a: Seq<Entry<V>>, b: Seq<Entry<V>>, n: nat)
    requires
        n <= a.len(),
        n <= b.len(),
        forall|i: int| 0 <= i < n ==> (#[trigger] a[i]).value is Some == b[i].value is Some,
    ensures
        live_count(a, n) == live_count(b, n),
    decreases n,
{
    if n > 0 {
        lemma_same_count(a, b, (n - 1) as nat);
    }
}

/// Taking an entry out lowers the count by one.
proof fn lemma_removed_count<V>(a: Seq<Entry<V>>, b: Seq<Entry<V>>, at: int, n: nat)
    requires
        n <= a.len(),
        a.len() == b.len(),
        0 <= at < a.len(),
        a[at].value is Some,
        b[at].value is None,
        forall|i: int| 0 <= i < n && i != at ==> (#[trigger] a[i]).value is Some
            == b[i].value is Some,
    ensures
        live_count(a, n) == live_count(b, n) + if at < n {
            1nat
        } else {
            0nat
        },
    decreases n,
{
    if n > 0 {
        lemma_removed_count(a, b, at, (n - 1) as nat);
    }
}

/// A count is no greater than what is counted, and an entry in the table makes
/// it positive.
proof fn lemma_count_bound<V>(entries: Seq<Entry<V>>, n: nat)
    requires
        n <= entries.len(),
    ensures
        live_count(entries, n) <= n,
        live_count(entries, n) == 0 ==> forall|i: int|
            0 <= i < n ==> (#[trigger] entries[i]).value is None,
        (forall|i: int| 0 <= i < n ==> (#[trigger] entries[i]).value is None) ==> live_count(
            entries,
            n,
        ) == 0,
    decreases n,
{
    if n > 0 {
        lemma_count_bound(entries, (n - 1) as nat);
    }
}

impl<V> View for Table<V> {
    type V = Map<Seq<u8>, V>;

    closed spec fn view(&self) -> Map<Seq<u8>, V> {
        Map::new(
            |key: Seq<u8>| exists|i: int| #[trigger] holds_at(self.entries@, i, key),
            |key: Seq<u8>|
                self.entries@[choose|i: int| #[trigger] holds_at(self.entries@, i, key)].value->0,
        )
    }
}

impl<V> Table<V> {
    /// Whether no key is in the table twice and every entry is found in its
    /// bucket.
    pub closed spec fn wf(&self) -> bool {
        let entries = self.entries@;
        &&& forall|i: int, j: int|
            #![trigger entries[i], entries[j]]
            0 <= i < j < entries.len() && entries[i].value is Some && entries[j].value is Some
                ==> entries[i].key@ != entries[j].key@
        &&& forall|i: int|
            0 <= i < entries.len() && (#[trigger] entries[i]).value is Some
                ==> self.buckets@.contains_key(bucket_of(entries[i].key@))
                    && self.buckets@[bucket_of(
                entries[i].key@,
            )]@.contains(i as usize)
        &&& forall|h: u64, k: int|
            #![trigger self.buckets@[h]@[k]]
            self.buckets@.contains_key(h) && 0 <= k < self.buckets@[h]@.len()
                ==> self.buckets@[h]@[k] < entries.len()
        &&& self.live == live_count(entries, entries.len())
    }

    /// The value at a position is that of its key.
    proof fn lemma_entry(&self, i: int)
        requires
            self.wf(),
            0 <= i < self.entries@.len(),
            self.entries@[i].value is Some,
        ensures
            self@.contains_key(self.entries@[i].key@),
            self@[self.entries@[i].key@] == self.entries@[i].value->0,
    {
        let key = self.entries@[i].key@;
        assert(holds_at(self.entries@, i, key));
        let j = choose|j: int| #[trigger] holds_at(self.entries@, j, key);
        assert(holds_at(self.entries@, j, key));
        if i < j {
            assert(self.entries@[i].key@ != self.entries@[j].key@);
        }
        if j < i {
            assert(self.entries@[j].key@ != self.entries@[i].key@);
        }
    }

    /// An empty table.
    pub fn new() -> (r: Table<V>)
        ensures
            r.wf(),
            r@ == Map::<Seq<u8>, V>::empty(),
    {
        let r = Table { entries: Vec::new(), buckets: HashMap::new(), live: 0 };
        assert(r@ =~= Map::<Seq<u8>, V>::empty());
        r
    }

    /// The position of a key.
    fn find(&self, key: &[u8]) -> (r: Option<usize>)
        requires
            self.wf(),
        ensures
            match r {
                Some(i) => holds_at(self.entries@, i as int, key@),
                None => !self@.contains_key(key@),
            },
    {
        let h: u64 = bucket(key);
        assert(self.entries.len() == self.entries@.len());
        match self.buckets.get(&h) {
            Some(positions) => {
                let mut k: usize = 0;
                while k < positions.len()
                    invariant
                        self.wf(),
                        h == bucket_of(key@),
                        self.buckets@.contains_key(h),
                        *positions == self.buckets@[h],
                        k <= positions@.len(),
                        forall|j: int|
                            0 <= j < k ==> !holds_at(
                                self.entries@,
                                (#[trigger] positions@[j]) as int,
                                key@,
                            ),
                    decreases positions@.len() - k,
                {
                    let i: usize = positions[k];
                    assert(self.buckets@[h]@[k as int] < self.entries@.len());
                    if self.entries[i].value.is_some() && same(
                        self.entries[i].key.as_slice(),
                        key,
                    ) {
                        return Some(i);
                    }
                    k += 1;
                }
                proof {
                    if self@.contains_key(key@) {
                        let i = choose|i: int| #[trigger] holds_at(self.entries@, i, key@);
                        assert(self.buckets@[h]@.contains(i as usize));
                        let j = choose|j: int|
                            0 <= j < positions@.len() && positions@[j] == i as usize;
                        assert(!holds_at(self.entries@, positions@[j] as int, key@));
                    }
                }
                None
            },
            None => {
                proof {
                    if self@.contains_key(key@) {
                        let i = choose|i: int| #[trigger] holds_at(self.entries@, i, key@);
                        assert(self.buckets@.contains_key(bucket_of(self.entries@[i].key@)));
                    }
                }
                None
            },
        }
    }

    /// The value of a key.
    pub fn get(&self, key: &[u8]) -> (r: Option<&V>)
        requires
            self.wf(),
        ensures
            match r {
                Some(v) => self@.contains_key(key@) && self@[key@] == *v,
                None => !self@.contains_key(key@),
            },
    {
        match self.find(key) {
            Some(i) => {
                proof {
                    self.lemma_entry(i as int);
                }
                self.entries[i].value.as_ref()
            },
            None => None,
        }
    }

    /// Whether the table is empty.
    pub fn is_empty(&self) -> (r: bool)
        requires
            self.wf(),
        ensures
            r == (self@ == Map::<Seq<u8>, V>::empty()),
    {
        proof {
            lemma_count_bound(self.entries@, self.entries@.len());
            if self.live == 0 {
                assert(self@ =~= Map::<Seq<u8>, V>::empty());
            } else {
                let i = choose|i: int|
                    0 <= i < self.entries@.len() && (#[trigger] self.entries@[i]).value is Some;
                self.lemma_entry(i);
                assert(!Map::<Seq<u8>, V>::empty().contains_key(self.entries@[i].key@));
            }
        }
        self.live == 0
    }

    /// Enters a key that is not in the table yet; otherwise the table stays as
    /// it is. Tells whether the key is new.
    pub fn enter(&mut self, key: &[u8], value: V) -> (r: bool)
        requires
            old(self).wf(),
        ensures
            final(self).wf(),
            r == !old(self)@.contains_key(key@),
            final(self)@ == (if r {
                old(self)@.insert(key@, value)
            } else {
                old(self)@
            }),
    {
        match self.find(key) {
            Some(i) => {
                proof {
                    self.lemma_entry(i as int);
                }
                false
            },
            None => {
                let ghost before = *self;
                let h: u64 = bucket(key);
                let at: usize = self.entries.len();
                let mut positions: Vec<usize> = match self.buckets.remove(&h) {
                    Some(positions) => positions,
                    None => Vec::new(),
                };
                let ghost old_positions = positions@;
                positions.push(at);
                self.buckets.insert(h, positions);
                self.entries.push(Entry { key: slice_to_vec(key), value: Some(value) });
                proof {
                    assert(self.entries.len() == self.entries@.len());
                    lemma_count_bound(before.entries@, before.entries@.len());
                }
                self.live = self.live + 1;
                proof {
                    lemma_same_count(before.entries@, self.entries@, before.entries@.len());
                    assert(self.buckets@.dom() =~= before.buckets@.dom().insert(h));
                    self.lemma_entered(before, key@, value, h, old_positions);
                }
                true
            },
        }
    }

    /// What entering a new key makes of the table.
    proof fn lemma_entered(
        &self,
        before: Table<V>,
        key: Seq<u8>,
        value: V,
        h: u64,
        old_positions: Seq<usize>,
    )
        requires
            before.wf(),
            !before@.contains_key(key),
            h == bucket_of(key),
            before.entries@.len() < usize::MAX,
            self.entries@.len() == before.entries@.len() + 1,
            forall|i: int|
                0 <= i < before.entries@.len() ==> #[trigger] self.entries@[i]
                    == before.entries@[i],
            self.entries@[before.entries@.len() as int].key@ == key,
            self.entries@[before.entries@.len() as int].value == Some(value),
            old_positions == (if before.buckets@.contains_key(h) {
                before.buckets@[h]@
            } else {
                Seq::empty()
            }),
            self.buckets@.dom() == before.buckets@.dom().insert(h),
            self.buckets@[h]@ == old_positions.push(before.entries@.len() as usize),
            forall|g: u64|
                g != h && before.buckets@.contains_key(g) ==> #[trigger] self.buckets@[g]
                    == before.buckets@[g],
            self.live == live_count(self.entries@, self.entries@.len()),
        ensures
            self.wf(),
            self@ == before@.insert(key, value),
    {
        let n = before.entries@.len() as int;
        assert forall|i: int, j: int|
            #![trigger self.entries@[i], self.entries@[j]]
            0 <= i < j < self.entries@.len() && self.entries@[i].value is Some
                && self.entries@[j].value is Some implies self.entries@[i].key@
            != self.entries@[j].key@ by {
            if j == n {
                before.lemma_entry(i);
            } else {
                assert(before.entries@[i].key@ != before.entries@[j].key@);
            }
        }
        assert forall|i: int|
            0 <= i < self.entries@.len() && (#[trigger] self.entries@[i]).value is Some
                implies self.buckets@.contains_key(
            bucket_of(self.entries@[i].key@),
        ) && self.buckets@[bucket_of(self.entries@[i].key@)]@.contains(i as usize) by {
            let g = bucket_of(self.entries@[i].key@);
            if i == n {
                assert(self.buckets@[h]@.last() == n as usize);
            } else {
                assert(self.entries@[i] == before.entries@[i]);
                assert(before.buckets@[g]@.contains(i as usize));
                if g == h {
                    let k = choose|k: int|
                        0 <= k < old_positions.len() && old_positions[k] == i as usize;
                    assert(self.buckets@[h]@[k] == i as usize);
                }
            }
        }
        assert forall|g: u64, k: int|
            #![trigger self.buckets@[g]@[k]]
            self.buckets@.contains_key(g) && 0 <= k < self.buckets@[g]@.len()
                implies self.buckets@[g]@[k]
            < self.entries@.len() by {
            if g == h {
                if k < old_positions.len() {
                    assert(before.buckets@[g]@[k] < before.entries@.len());
                }
            } else {
                assert(before.buckets@[g]@[k] < before.entries@.len());
            }
        }
        assert(self.wf());
        assert forall|k: Seq<u8>| self@.contains_key(k) == before@.insert(key, value).contains_key(
            k,
        ) by {
            if self@.contains_key(k) {
                let i = choose|i: int| #[trigger] holds_at(self.entries@, i, k);
                if i < n {
                    assert(holds_at(before.entries@, i, k));
                }
            }
            if before@.contains_key(k) {
                let i = choose|i: int| #[trigger] holds_at(before.entries@, i, k);
                assert(holds_at(self.entries@, i, k));
            }
            if k == key {
                assert(holds_at(self.entries@, n, k));
            }
        }
        assert forall|k: Seq<u8>| self@.contains_key(k) implies self@[k] == before@.insert(
            key,
            value,
        )[k] by {
            let i = choose|i: int| #[trigger] holds_at(self.entries@, i, k);
            self.lemma_entry(i);
            if i < n {
                before.lemma_entry(i);
            }
        }
        assert(self@ =~= before@.insert(key, value));
    }

    /// Takes a key out of the table.
    pub fn remove(&mut self, key: &[u8]) -> (r: Option<V>)
        requires
            old(self).wf(),
        ensures
            final(self).wf(),
            final(self)@ == old(self)@.remove(key@),
            match r {
                Some(v) => old(self)@.contains_key(key@) && old(self)@[key@] == v,
                None => !old(self)@.contains_key(key@),
            },
    {
        match self.find(key) {
            Some(i) => {
                let ghost before = *self;
                proof {
                    self.lemma_entry(i as int);
                    lemma_count_bound(self.entries@, self.entries@.len());
                }
                let mut entry = Entry { key: slice_to_vec(key), value: None };
                self.entries.set_and_swap(i, &mut entry);
                self.live = self.live - 1;
                proof {
                    lemma_removed_count(
                        before.entries@,
                        self.entries@,
                        i as int,
                        self.entries@.len(),
                    );
                    self.lemma_removed(before, key@, i as int);
                }
                entry.value
            },
            None => {
                assert(self@ =~= self@.remove(key@));
                None
            },
        }
    }

    /// What taking a key out makes of the table.
    proof fn lemma_removed(&self, before: Table<V>, key: Seq<u8>, at: int)
        requires
            before.wf(),
            holds_at(before.entries@, at, key),
            self.buckets == before.buckets,
            self.entries@.len() == before.entries@.len(),
            forall|i: int|
                0 <= i < before.entries@.len() && i != at ==> #[trigger] self.entries@[i]
                    == before.entries@[i],
            self.entries@[at].value is None,
            self.live == live_count(self.entries@, self.entries@.len()),
        ensures
            self.wf(),
            self@ == before@.remove(key),
    {
        assert forall|i: int, j: int|
            #![trigger self.entries@[i], self.entries@[j]]
            0 <= i < j < self.entries@.len() && self.entries@[i].value is Some
                && self.entries@[j].value is Some implies self.entries@[i].key@
            != self.entries@[j].key@ by {
            assert(before.entries@[i].key@ != before.entries@[j].key@);
        }
        assert forall|i: int|
            0 <= i < self.entries@.len() && (#[trigger] self.entries@[i]).value is Some
                implies self.buckets@.contains_key(
            bucket_of(self.entries@[i].key@),
        ) && self.buckets@[bucket_of(self.entries@[i].key@)]@.contains(i as usize) by {
            assert(self.entries@[i] == before.entries@[i]);
        }
        assert(self.wf());
        assert forall|k: Seq<u8>| self@.contains_key(k) == before@.remove(key).contains_key(k) by {
            if self@.contains_key(k) {
                let i = choose|i: int| #[trigger] holds_at(self.entries@, i, k);
                assert(holds_at(before.entries@, i, k));
                assert(i != at);
                if i < at {
                    assert(before.entries@[i].key@ != before.entries@[at].key@);
                } else {
                    assert(before.entries@[at].key@ != before.entries@[i].key@);
                }
            }
            if before@.remove(key).contains_key(k) {
                let i = choose|i: int| #[trigger] holds_at(before.entries@, i, k);
                assert(holds_at(self.entries@, i, k));
            }
        }
        assert forall|k: Seq<u8>| self@.contains_key(k) implies self@[k] == before@.remove(
            key,
        )[k] by {
            let i = choose|i: int| #[trigger] holds_at(self.entries@, i, k);
            self.lemma_entry(i);
            before.lemma_entry(i);
        }
        assert(self@ =~= before@.remove(key));
    }

    /// Gives a key another value, whether or not it was in the table.
    pub fn put(&mut self, key: &[u8], value: V)
        requires
            old(self).wf(),
        ensures
            final(self).wf(),
            final(self)@ == old(self)@.insert(key@, value),
    {
        let ghost before = self@;
        let _ = self.remove(key);
        let _ = self.enter(key, value);
        assert(self@ =~= before.insert(key@, value));
    }

    /// How many entries the table has seen.
    pub closed spec fn spec_slots(&self) -> nat {
        self.entries@.len()
    }

    /// The key that was entered at a place, while it is in the table.
    pub closed spec fn slot(&self, i: int) -> Option<Seq<u8>> {
        if self.entries@[i].value is Some {
            Some(self.entries@[i].key@)
        } else {
            None
        }
    }

    /// Every key stands at one place, and nothing else does.
    pub proof fn lemma_slots(&self)
        requires
            self.wf(),
        ensures
            forall|i: int|
                0 <= i < self.spec_slots() && (#[trigger] self.slot(i)) is Some
                    ==> self@.contains_key(self.slot(i)->0),
            forall|key: Seq<u8>| #[trigger]
                self@.contains_key(key) ==> exists|i: int|
                    0 <= i < self.spec_slots() && #[trigger] self.slot(i) == Some(key),
            forall|i: int, j: int|
                #![trigger self.slot(i), self.slot(j)]
                0 <= i < j < self.spec_slots() && self.slot(i) is Some ==> self.slot(i)
                    != self.slot(j),
    {
        assert forall|i: int, j: int|
            #![trigger self.slot(i), self.slot(j)]
            0 <= i < j < self.spec_slots() && self.slot(i) is Some implies self.slot(i)
            != self.slot(j) by {
            assert(self.entries@[i].value is Some);
            if self.entries@[j].value is Some {
                assert(self.entries@[i].key@ != self.entries@[j].key@);
            }
        }
        assert forall|i: int|
            0 <= i < self.spec_slots() && (#[trigger] self.slot(i)) is Some
                implies self@.contains_key(
            self.slot(i)->0,
        ) by {
            self.lemma_entry(i);
        }
        assert forall|key: Seq<u8>| #[trigger] self@.contains_key(key) implies exists|i: int|
            0 <= i < self.spec_slots() && #[trigger] self.slot(i) == Some(key) by {
            let i = choose|i: int| #[trigger] holds_at(self.entries@, i, key);
            assert(holds_at(self.entries@, i, key));
            assert(self.slot(i) == Some(key));
        }
    }

    /// How many places the table has.
    pub fn slots(&self) -> (r: usize)
        ensures
            r == self.spec_slots(),
    {
        self.entries.len()
    }

    /// The key and the value at a place, while they are in the table.
    pub fn at(&self, i: usize) -> (r: Option<(&[u8], &V)>)
        requires
            self.wf(),
            i < self.spec_slots(),
        ensures
            match r {
                Some((key, value)) => self.slot(i as int) == Some(key@) && self@.contains_key(key@)
                    && self@[key@] == *value,
                None => self.slot(i as int) is None,
            },
    {
        let entry = &self.entries[i];
        match &entry.value {
            Some(value) => {
                proof {
                    self.lemma_entry(i as int);
                }
                Some((entry.key.as_slice(), value))
            },
            None => None,
        }
    }
}

} // verus!
