//! The in-memory index: for each key, the offset of its latest record.
//!
//! Keys are kept in buckets of a hash map, one bucket for each fingerprint;
//! a lookup computes the fingerprint of the key and searches one bucket.

use std::collections::HashMap;
use vstd::prelude::*;
use vstd::slice::slice_to_vec;

verus! {

broadcast use vstd::std_specs::hash::group_hash_axioms;

/// Whether two buffers hold the same bytes.
pub fn bytes_eq(a: &[u8], b: &[u8]) -> (same: bool)
    ensures
        same == (a@ == b@),
{
    if a.len() != b.len() {
        return false;
    }
    let mut i: usize = 0;
    while i < a.len()
        invariant
            a@.len() == b@.len(),
            i <= a@.len(),
            forall|j: int| 0 <= j < i ==> a@[j] == b@[j],
        decreases a@.len() - i,
    {
        if a[i] != b[i] {
            return false;
        }
        i += 1;
    }
    assert(a@ =~= b@);
    true
}

/// The fingerprint of a key: its bytes read as digits to base 31, modulo
/// 2^64.
pub open spec fn spec_fingerprint(key: Seq<u8>) -> u64
    decreases key.len(),
{
    if key.len() == 0 {
        0
    } else {
        ((spec_fingerprint(key.drop_last()) * 31 + key.last()) % 0x1_0000_0000_0000_0000) as u64
    }
}

/// Computes the fingerprint of a key.
pub fn fingerprint(key: &[u8]) -> (f: u64)
    ensures
        f == spec_fingerprint(key@),
{
    let mut f: u64 = 0;
    let mut i: usize = 0;
    while i < key.len()
        invariant
            i <= key@.len(),
            f == spec_fingerprint(key@.take(i as int)),
        decreases key@.len() - i,
    {
        let wide: u128 = f as u128 * 31 + key[i] as u128;
        proof {
            assert(key@.take(i + 1).drop_last() == key@.take(i as int));
        }
        f = (wide % 0x1_0000_0000_0000_0000) as u64;
        i += 1;
    }
    proof {
        assert(key@.take(i as int) == key@);
    }
    f
}

/// One key with the offset at which its latest record starts.
pub struct Entry {
    pub key: Vec<u8>,
    pub pos: u64,
}

/// Whether some slot of `entries` holds `key`.
pub open spec fn has_key(entries: Seq<Entry>, key: Seq<u8>) -> bool {
    exists|i: int| 0 <= i < entries.len() && #[trigger] entries[i].key@ == key
}

/// A slot of `entries` that holds `key`, where there is one.
pub open spec fn slot_of(entries: Seq<Entry>, key: Seq<u8>) -> int {
    choose|i: int| 0 <= i < entries.len() && #[trigger] entries[i].key@ == key
}

/// No two slots of `entries` hold the same key.
pub open spec fn distinct_keys(entries: Seq<Entry>) -> bool {
    forall|i: int, j: int|
        0 <= i < entries.len() && 0 <= j < entries.len() && i != j ==> #[trigger] entries[i].key@
            != #[trigger] entries[j].key@
}

/// The map that one bucket stands for.
pub open spec fn bucket_map(entries: Seq<Entry>) -> Map<Seq<u8>, u64> {
    Map::new(|k: Seq<u8>| has_key(entries, k), |k: Seq<u8>| entries[slot_of(entries, k)].pos)
}

/// The map that all buckets together stand for: a key is looked for in the
/// bucket of its fingerprint only.
pub open spec fn index_map(buckets: Map<u64, Vec<Entry>>) -> Map<Seq<u8>, u64> {
    Map::new(
        |k: Seq<u8>|
            buckets.contains_key(spec_fingerprint(k)) && has_key(buckets[spec_fingerprint(k)]@, k),
        |k: Seq<u8>| bucket_map(buckets[spec_fingerprint(k)]@)[k],
    )
}

/// Putting an entry into the slot that holds its key replaces the offset of
/// that key and nothing else.
pub proof fn lemma_bucket_replace(before: Seq<Entry>, i: int, entry: Entry)
    requires
        distinct_keys(before),
        0 <= i < before.len(),
        before[i].key@ == entry.key@,
    ensures
        distinct_keys(before.update(i, entry)),
        bucket_map(before.update(i, entry)) == bucket_map(before).insert(entry.key@, entry.pos),
{
    let after = before.update(i, entry);
    assert forall|j: int| 0 <= j < after.len() implies (#[trigger] after[j].key@)
        == before[j].key@ by {}
    assert forall|k: Seq<u8>| has_key(after, k) == has_key(before, k) by {
        if has_key(before, k) {
            let j = slot_of(before, k);
            assert(after[j].key@ == k);
        }
        if has_key(after, k) {
            let j = slot_of(after, k);
            assert(before[j].key@ == k);
        }
    }
    assert(has_key(after, entry.key@)) by {
        assert(after[i].key@ == entry.key@);
    }
    assert forall|k: Seq<u8>| has_key(after, k) && k != entry.key@ implies after[slot_of(
        after,
        k,
    )].pos == before[slot_of(before, k)].pos by {
        let a = slot_of(after, k);
        let b = slot_of(before, k);
        assert(before[a].key@ == k);
        assert(a == b);
    }
    assert(bucket_map(after) =~= bucket_map(before).insert(entry.key@, entry.pos));
}

/// Appending an entry whose key no slot holds adds that key and nothing else.
pub proof fn lemma_bucket_push(before: Seq<Entry>, entry: Entry)
    requires
        distinct_keys(before),
        !has_key(before, entry.key@),
    ensures
        distinct_keys(before.push(entry)),
        bucket_map(before.push(entry)) == bucket_map(before).insert(entry.key@, entry.pos),
{
    let after = before.push(entry);
    let n = before.len() as int;
    assert(after[n].key@ == entry.key@);
    assert forall|k: Seq<u8>| has_key(after, k) == (has_key(before, k) || k == entry.key@) by {
        if has_key(before, k) {
            let j = slot_of(before, k);
            assert(after[j].key@ == k);
        }
        if has_key(after, k) && k != entry.key@ {
            let j = slot_of(after, k);
            assert(before[j].key@ == k);
        }
    }
    assert forall|k: Seq<u8>| has_key(before, k) implies after[slot_of(after, k)].pos
        == before[slot_of(before, k)].pos by {
        let b = slot_of(before, k);
        assert(after[b].key@ == k);
        let a = slot_of(after, k);
        assert(a == b);
    }
    assert forall|i: int, j: int|
        0 <= i < after.len() && 0 <= j < after.len() && i != j implies #[trigger] after[i].key@
        != #[trigger] after[j].key@ by {
        if i < n && j < n {
            assert(before[i].key@ != before[j].key@);
        } else if i < n {
            assert(before[i].key@ == after[i].key@);
        } else {
            assert(before[j].key@ == after[j].key@);
        }
    }
    assert(bucket_map(after) =~= bucket_map(before).insert(entry.key@, entry.pos));
}

/// The slot of `bucket` that holds `key`, if there is one.
fn find_in(bucket: &Vec<Entry>, key: &[u8]) -> (slot: Option<usize>)
    ensures
        match slot {
            Some(i) => i < bucket@.len() && bucket@[i as int].key@ == key@,
            None => !has_key(bucket@, key@),
        },
{
    let mut i: usize = 0;
    while i < bucket.len()
        invariant
            i <= bucket@.len(),
            forall|j: int| 0 <= j < i ==> (#[trigger] bucket@[j].key@) != key@,
        decreases bucket@.len() - i,
    {
        if bytes_eq(bucket[i].key.as_slice(), key) {
            return Some(i);
        }
        i += 1;
    }
    None
}

/// A map from exact key bytes to offsets.
pub struct Index {
    buckets: HashMap<u64, Vec<Entry>>,
}

impl View for Index {
    type V = Map<Seq<u8>, u64>;

    closed spec fn view(&self) -> Map<Seq<u8>, u64> {
        index_map(self.buckets@)
    }
}

impl Index {
    #[verifier::type_invariant]
    closed spec fn wf(self) -> bool {
        forall|b: u64| #[trigger]
            self.buckets@.contains_key(b) ==> distinct_keys(self.buckets@[b]@)
    }

    /// An index without keys.
    pub fn new() -> (idx: Index)
        ensures
            idx@ == Map::<Seq<u8>, u64>::empty(),
    {
        let idx = Index { buckets: HashMap::new() };
        assert(idx@ =~= Map::<Seq<u8>, u64>::empty());
        idx
    }

    /// The offset recorded for `key`, if there is one.
    pub fn get(&self, key: &[u8]) -> (pos: Option<u64>)
        ensures
            pos == if self@.dom().contains(key@) {
                Some(self@[key@])
            } else {
                None
            },
    {
        proof {
            use_type_invariant(self);
        }
        let b = fingerprint(key);
        match self.buckets.get(&b) {
            None => None,
            Some(bucket) => {
                match find_in(bucket, key) {
                    Some(i) => {
                        assert(has_key(bucket@, key@));
                        Some(bucket[i].pos)
                    },
                    None => None,
                }
            },
        }
    }

    /// Records `pos` for `key`, in place of any offset recorded before.
    pub fn insert(&mut self, key: &[u8], pos: u64)
        ensures
            final(self)@ == old(self)@.insert(key@, pos),
    {
        proof {
            use_type_invariant(&*self);
        }
        let ghost old_buckets = self.buckets@;
        let b = fingerprint(key);
        let entry = Entry { key: slice_to_vec(key), pos };
        let mut taken = Index::new();
        core::mem::swap(self, &mut taken);
        let mut buckets = taken.buckets;
        let mut bucket = match buckets.remove(&b) {
            Some(found) => found,
            None => Vec::new(),
        };
        let ghost before = bucket@;
        proof {
            if !old_buckets.contains_key(b) {
                assert(!has_key(before, key@));
            }
        }
        match find_in(&bucket, key) {
            Some(i) => {
                proof {
                    lemma_bucket_replace(before, i as int, entry);
                }
                bucket.set(i, entry);
            },
            None => {
                proof {
                    lemma_bucket_push(before, entry);
                }
                bucket.push(entry);
            },
        }
        let ghost after = bucket@;
        buckets.insert(b, bucket);
        *self = Index { buckets };
        proof {
            let new_buckets = self.buckets@;
            assert(bucket_map(after) == bucket_map(before).insert(key@, pos));
            assert forall|q: Seq<u8>|
                self@.dom().contains(q) == old(self)@.insert(key@, pos).dom().contains(q) by {
                let fq = spec_fingerprint(q);
                if fq == b {
                    assert(bucket_map(after).dom().contains(q) == (q == key@ || bucket_map(
                        before,
                    ).dom().contains(q)));
                } else {
                    assert(new_buckets.contains_key(fq) == old_buckets.contains_key(fq));
                }
            }
            assert forall|q: Seq<u8>| self@.dom().contains(q) implies self@[q] == old(
                self,
            )@.insert(key@, pos)[q] by {
                let fq = spec_fingerprint(q);
                if fq == b {
                    assert(bucket_map(after)[q] == bucket_map(before).insert(key@, pos)[q]);
                }
            }
            assert(self@ =~= old(self)@.insert(key@, pos));
        }
    }
}

} // verus!
