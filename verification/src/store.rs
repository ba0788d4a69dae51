//! The store: an append-only log of records and the index of its keys.
//!
//! The log is the byte image of the medium that the store writes to. The
//! store only ever appends to it; the index starts empty and grows with the
//! writes made through this store.

use crate::index::Index;
use crate::record::{
    encode_record, lemma_read_appended, lemma_read_stable, read_record, spec_check, spec_crc32,
    spec_encode, spec_header, spec_read, StoreError,
};
use vstd::prelude::*;

verus! {

/// A log of records with the offsets of the latest record of each key.
pub struct Store {
    /// Every byte written so far, oldest first.
    pub log: Vec<u8>,
    /// Maps each key written through this store to the offset of its latest
    /// record.
    pub index: Index,
}

/// What a lookup of `key` yields on a log with the given index.
pub open spec fn lookup(log: Seq<u8>, index: Map<Seq<u8>, u64>, key: Seq<u8>) -> Result<
    Option<Seq<u8>>,
    StoreError,
> {
    if index.dom().contains(key) {
        match spec_read(log, index[key] as nat) {
            Ok(v) => Ok(Some(v)),
            Err(e) => Err(e),
        }
    } else {
        Ok(None)
    }
}

/// The record at offset `pos` lies wholly inside `log`: its header and its
/// payload can be read without running past the end.
pub open spec fn whole_record(log: Seq<u8>, pos: nat) -> bool {
    spec_read(log, pos) != Err::<Seq<u8>, StoreError>(StoreError::Io)
}

/// `got` is the exec image of the spec-level answer `want`.
pub open spec fn same_answer(
    got: Result<Option<Vec<u8>>, StoreError>,
    want: Result<Option<Seq<u8>>, StoreError>,
) -> bool {
    match want {
        Ok(Some(v)) => got is Ok && got->Ok_0 is Some && got->Ok_0->Some_0@ == v,
        Ok(None) => got == Ok::<Option<Vec<u8>>, StoreError>(None),
        Err(e) => got == Err::<Option<Vec<u8>>, StoreError>(e),
    }
}

impl Store {
    /// Every offset in the index is the start of a record that lies wholly
    /// inside the log.
    pub open spec fn wf(&self) -> bool {
        forall|k: Seq<u8>| #[trigger]
            self.index@.dom().contains(k) ==> whole_record(self.log@, self.index@[k] as nat)
    }

    /// What `get` answers for `key` in this state.
    pub open spec fn spec_get(&self, key: Seq<u8>) -> Result<Option<Seq<u8>>, StoreError> {
        lookup(self.log@, self.index@, key)
    }

    /// Creates a store on a medium that must not exist yet. `existing` is
    /// what the medium holds if it is already there.
    pub fn new(existing: Option<Vec<u8>>) -> (r: Result<Store, StoreError>)
        ensures
            existing is Some ==> r == Err::<Store, StoreError>(StoreError::AlreadyExists),
            existing is None ==> r is Ok && r->Ok_0.log@ == Seq::<u8>::empty() && r->Ok_0.index@
                == Map::<Seq<u8>, u64>::empty() && r->Ok_0.wf(),
    {
        match existing {
            Some(_) => Err(StoreError::AlreadyExists),
            None => Ok(Store { log: Vec::new(), index: Index::new() }),
        }
    }

    /// Opens a store on a medium, creating it if absent and keeping its bytes
    /// if present. The index starts empty either way: records already on the
    /// medium are not scanned.
    pub fn open(existing: Option<Vec<u8>>) -> (r: Result<Store, StoreError>)
        ensures
            r is Ok,
            r->Ok_0.wf(),
            r->Ok_0.index@ == Map::<Seq<u8>, u64>::empty(),
            r->Ok_0.log@ == match existing {
                Some(bytes) => bytes@,
                None => Seq::<u8>::empty(),
            },
    {
        let log = match existing {
            Some(bytes) => bytes,
            None => Vec::new(),
        };
        Ok(Store { log, index: Index::new() })
    }

    /// Appends a record for `key` and `val` and points the index at it.
    pub fn insert(&mut self, key: &[u8], val: &[u8]) -> (r: Result<(), StoreError>)
        requires
            key@.len() <= u32::MAX,
            val@.len() <= u32::MAX,
        ensures
            r is Ok,
            final(self).log@ == old(self).log@ + spec_encode(key@, val@),
            final(self).index@ == old(self).index@.insert(key@, old(self).log@.len() as u64),
            final(self).spec_get(key@) == Ok::<Option<Seq<u8>>, StoreError>(Some(val@)),
            forall|k: Seq<u8>|
                k != key@ && old(self).spec_get(k) != Err::<Option<Seq<u8>>, StoreError>(
                    StoreError::Io,
                ) ==> #[trigger] final(self).spec_get(k) == old(self).spec_get(k),
            old(self).wf() ==> final(self).wf(),
    {
        let rec = encode_record(key, val);
        let insert_pos: u64 = self.log.len() as u64;
        self.log.extend_from_slice(rec.as_slice());
        self.index.insert(key, insert_pos);
        proof {
            let before = old(self).log@;
            lemma_read_appended(before, key@, val@, Seq::empty());
            assert(before + spec_encode(key@, val@) + Seq::<u8>::empty() == self.log@);
            assert forall|k: Seq<u8>|
                k != key@ && old(self).spec_get(k) != Err::<Option<Seq<u8>>, StoreError>(
                    StoreError::Io,
                ) implies #[trigger] self.spec_get(k) == old(self).spec_get(k) by {
                if old(self).index@.dom().contains(k) {
                    lemma_read_stable(before, old(self).index@[k] as nat, rec@);
                }
            }
        }
        Ok(())
    }

    /// The value of the latest record written for `key` through this store,
    /// or `None` for a key that was never written through it.
    pub fn get(&mut self, key: &[u8]) -> (r: Result<Option<Vec<u8>>, StoreError>)
        ensures
            *final(self) == *old(self),
            same_answer(r, old(self).spec_get(key@)),
    {
        let position = match self.index.get(key) {
            None => { return Ok(None); },
            Some(p) => p,
        };
        match read_record(self.log.as_slice(), position) {
            Ok(val) => Ok(Some(val)),
            Err(e) => Err(e),
        }
    }

    /// Same as `insert`: the old record stays in the log, unreachable.
    pub fn update(&mut self, key: &[u8], val: &[u8]) -> (r: Result<(), StoreError>)
        requires
            key@.len() <= u32::MAX,
            val@.len() <= u32::MAX,
        ensures
            r is Ok,
            final(self).log@ == old(self).log@ + spec_encode(key@, val@),
            final(self).index@ == old(self).index@.insert(key@, old(self).log@.len() as u64),
            final(self).spec_get(key@) == Ok::<Option<Seq<u8>>, StoreError>(Some(val@)),
            forall|k: Seq<u8>|
                k != key@ && old(self).spec_get(k) != Err::<Option<Seq<u8>>, StoreError>(
                    StoreError::Io,
                ) ==> #[trigger] final(self).spec_get(k) == old(self).spec_get(k),
            old(self).wf() ==> final(self).wf(),
    {
        self.insert(key, val)
    }

    /// Writes a record with an empty value for `key`. The key stays in the
    /// index: a later `get` answers with the empty value, not with `None`.
    pub fn delete(&mut self, key: &[u8]) -> (r: Result<(), StoreError>)
        requires
            key@.len() <= u32::MAX,
        ensures
            r is Ok,
            final(self).log@ == old(self).log@ + spec_encode(key@, Seq::<u8>::empty()),
            final(self).index@ == old(self).index@.insert(key@, old(self).log@.len() as u64),
            final(self).spec_get(key@) == Ok::<Option<Seq<u8>>, StoreError>(
                Some(Seq::<u8>::empty()),
            ),
            forall|k: Seq<u8>|
                k != key@ && old(self).spec_get(k) != Err::<Option<Seq<u8>>, StoreError>(
                    StoreError::Io,
                ) ==> #[trigger] final(self).spec_get(k) == old(self).spec_get(k),
            old(self).wf() ==> final(self).wf(),
    {
        let empty: Vec<u8> = Vec::new();
        self.insert(key, empty.as_slice())
    }
}

/// One write: a key and the value written for it.
pub type Put = (Seq<u8>, Seq<u8>);

/// The log after the writes `ops` were made, in order, on `log`.
pub open spec fn log_after(log: Seq<u8>, ops: Seq<Put>) -> Seq<u8>
    decreases ops.len(),
{
    if ops.len() == 0 {
        log
    } else {
        log_after(log, ops.drop_last()) + spec_encode(ops.last().0, ops.last().1)
    }
}

/// The index after the writes `ops` were made, in order, on `log` by a store
/// whose index was empty before.
pub open spec fn index_after(log: Seq<u8>, ops: Seq<Put>) -> Map<Seq<u8>, u64>
    decreases ops.len(),
{
    if ops.len() == 0 {
        Map::empty()
    } else {
        index_after(log, ops.drop_last()).insert(
            ops.last().0,
            log_after(log, ops.drop_last()).len() as u64,
        )
    }
}

/// Every key and value of `ops` has a length that the header can hold, and
/// every offset reached fits the index.
pub open spec fn writable(log: Seq<u8>, ops: Seq<Put>) -> bool {
    &&& forall|i: int|
        0 <= i < ops.len() ==> (#[trigger] ops[i]).0.len() <= u32::MAX && ops[i].1.len()
            <= u32::MAX
    &&& log_after(log, ops).len() <= u64::MAX
}

/// One more write extends the log and the index by exactly what `insert`
/// does to a store: the record is appended, and the key points at the
/// offset where the log ended before.
pub proof fn law_insert_extends_history(log: Seq<u8>, ops: Seq<Put>, key: Seq<u8>, val: Seq<u8>)
    ensures
        log_after(log, ops.push((key, val))) == log_after(log, ops) + spec_encode(key, val),
        index_after(log, ops.push((key, val))) == index_after(log, ops).insert(
            key,
            log_after(log, ops).len() as u64,
        ),
{
    assert(ops.push((key, val)).drop_last() == ops);
}

/// The log only grows.
pub proof fn lemma_log_grows(log: Seq<u8>, ops: Seq<Put>)
    ensures
        log.len() <= log_after(log, ops).len(),
        ops.len() > 0 ==> log_after(log, ops.drop_last()).len() <= log_after(log, ops).len(),
    decreases ops.len(),
{
    if ops.len() > 0 {
        lemma_log_grows(log, ops.drop_last());
    }
}

/// After any sequence of writes on a freshly opened store, a lookup of a key
/// answers with the value of the last write made for that key, whatever was
/// written for other keys before or after, and whatever the value holds.
pub proof fn law_last_write_wins(log: Seq<u8>, ops: Seq<Put>, i: int)
    requires
        writable(log, ops),
        0 <= i < ops.len(),
        forall|j: int| i < j < ops.len() ==> (#[trigger] ops[j]).0 != ops[i].0,
    ensures
        lookup(log_after(log, ops), index_after(log, ops), ops[i].0) == Ok::<
            Option<Seq<u8>>,
            StoreError,
        >(Some(ops[i].1)),
    decreases ops.len(),
{
    let front = ops.drop_last();
    let before = log_after(log, front);
    let rec = spec_encode(ops.last().0, ops.last().1);
    lemma_log_grows(log, ops);
    if i == ops.len() - 1 {
        lemma_read_appended(before, ops[i].0, ops[i].1, Seq::empty());
        assert(before + rec + Seq::<u8>::empty() == log_after(log, ops));
    } else {
        assert(writable(log, front)) by {
            assert forall|j: int| 0 <= j < front.len() implies (#[trigger] front[j]).0.len()
                <= u32::MAX && front[j].1.len() <= u32::MAX by {
                assert(front[j] == ops[j]);
            }
        }
        assert forall|j: int| i < j < front.len() implies (#[trigger] front[j]).0 != front[i].0 by {
            assert(front[j] == ops[j]);
        }
        law_last_write_wins(log, front, i);
        assert(front[i] == ops[i]);
        assert(ops[ops.len() - 1].0 != ops[i].0);
        let at = index_after(log, front)[ops[i].0];
        assert(index_after(log, front).dom().contains(ops[i].0));
        lemma_read_stable(before, at as nat, rec);
    }
}

/// After any sequence of writes on a freshly opened store, every offset in the
/// index is the start of a record that lies wholly inside the log and matches
/// its checksum.
pub proof fn law_indexed_records_are_sound(log: Seq<u8>, ops: Seq<Put>, key: Seq<u8>)
    requires
        writable(log, ops),
        index_after(log, ops).dom().contains(key),
    ensures
        spec_read(log_after(log, ops), index_after(log, ops)[key] as nat) is Ok,
    decreases ops.len(),
{
    if ops.len() > 0 {
        let front = ops.drop_last();
        let before = log_after(log, front);
        let rec = spec_encode(ops.last().0, ops.last().1);
        lemma_log_grows(log, ops);
        if ops.last().0 == key {
            lemma_read_appended(before, ops.last().0, ops.last().1, Seq::empty());
            assert(before + rec + Seq::<u8>::empty() == log_after(log, ops));
        } else {
            assert(writable(log, front)) by {
                assert forall|j: int| 0 <= j < front.len() implies (#[trigger] front[j]).0.len()
                    <= u32::MAX && front[j].1.len() <= u32::MAX by {
                    assert(front[j] == ops[j]);
                }
            }
            law_indexed_records_are_sound(log, front, key);
            lemma_read_stable(before, index_after(log, front)[key] as nat, rec);
        }
    }
}

/// After any sequence of writes on a freshly opened store, a lookup of a key
/// that none of them wrote finds nothing; in particular on a store without
/// writes.
pub proof fn law_unwritten_key_not_found(log: Seq<u8>, ops: Seq<Put>, key: Seq<u8>)
    requires
        forall|i: int| 0 <= i < ops.len() ==> (#[trigger] ops[i]).0 != key,
    ensures
        !index_after(log, ops).dom().contains(key),
        lookup(log_after(log, ops), index_after(log, ops), key) == Ok::<
            Option<Seq<u8>>,
            StoreError,
        >(None),
    decreases ops.len(),
{
    if ops.len() > 0 {
        let front = ops.drop_last();
        assert forall|i: int| 0 <= i < front.len() implies (#[trigger] front[i]).0 != key by {
            assert(front[i] == ops[i]);
        }
        law_unwritten_key_not_found(log, front, key);
        assert(ops[ops.len() - 1].0 != key);
    }
}

/// A record whose payload was changed on the medium, with its header left
/// as it was, is reported as corrupt whenever the changed payload has
/// another checksum than the one stored; no value is handed out.
pub proof fn law_changed_payload_is_reported(log: Seq<u8>, changed: Seq<u8>, pos: nat)
    requires
        spec_read(log, pos) is Ok,
        changed.len() == log.len(),
        changed.subrange(pos as int, pos as int + 12) == log.subrange(pos as int, pos as int + 12),
        ({
            let body = pos as int + 12;
            let h = spec_header(log.subrange(pos as int, body));
            let end = body + h.key_len + h.val_len;
            spec_crc32(changed.subrange(body, end)) != spec_crc32(log.subrange(body, end))
        }),
    ensures
        spec_read(changed, pos) == Err::<Seq<u8>, StoreError>(StoreError::Corruption),
{
    let body = pos as int + 12;
    let h = spec_header(log.subrange(pos as int, body));
    let end = body + h.key_len + h.val_len;
    assert(spec_check(h, log.subrange(body, end)) is Ok);
}

} // verus!
