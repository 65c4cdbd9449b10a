//! A buffered store: a scratch overlay of pending writes and tombstones over
//! one partition of the persistent store.
use vstd::prelude::*;
use crate::env::{Env, StorageError, Txn};
use crate::keymap::{find_key, key_map, keys_distinct, lemma_key_map_index, lemma_key_map_insert, lemma_key_map_push, lemma_key_map_update};
use crate::lex::lex_lt;
use crate::table::{copy_bytes, keys_ascending, keys_descending, lists_exactly, Table};
use vstd::pervasive::VecAdditionalExecFns;

verus! {

/// A pending change to one key.
#[derive(Debug, PartialEq, Eq)]
pub enum Op {
    /// Store this value.
    Put(Vec<u8>),
    /// A tombstone: the key reads as absent.
    Delete,
}

/// A pending change as a value: `Some(v)` writes `v`, `None` is a tombstone.
pub open spec fn op_view(o: Op) -> Option<Seq<u8>> {
    match o {
        Op::Put(v) => Some(v@),
        Op::Delete => None,
    }
}

/// What a key reads as through a scratch overlay on top of a stored map.
pub open spec fn read_through(
    store: Map<Seq<u8>, Seq<u8>>,
    scratch: Map<Seq<u8>, Option<Seq<u8>>>,
    k: Seq<u8>,
) -> Option<Seq<u8>> {
    if scratch.contains_key(k) {
        scratch[k]
    } else if store.contains_key(k) {
        Some(store[k])
    } else {
        None
    }
}

/// The stored map once every scratch entry has been applied to it.
pub open spec fn applied(
    store: Map<Seq<u8>, Seq<u8>>,
    scratch: Map<Seq<u8>, Option<Seq<u8>>>,
) -> Map<Seq<u8>, Seq<u8>> {
    Map::new(
        |k: Seq<u8>| read_through(store, scratch, k) is Some,
        |k: Seq<u8>| read_through(store, scratch, k)->Some_0,
    )
}

/// The overlay that a log of scratch entries describes.
pub open spec fn scratch_map(s: Seq<(Vec<u8>, Op)>) -> Map<Seq<u8>, Option<Seq<u8>>> {
    key_map(s).map_values(|o: Op| op_view(o))
}

/// Writing `v` under `k` over a scratch overlay.
pub proof fn lemma_applied_put(
    store: Map<Seq<u8>, Seq<u8>>,
    scratch: Map<Seq<u8>, Option<Seq<u8>>>,
    k: Seq<u8>,
    v: Option<Seq<u8>>,
)
    ensures
        applied(store, scratch.insert(k, v)) == match v {
            Some(x) => applied(store, scratch).insert(k, x),
            None => applied(store, scratch).remove(k),
        },
{
    match v {
        Some(x) => {
            assert(applied(store, scratch.insert(k, v)) =~= applied(store, scratch).insert(k, x));
        },
        None => {
            assert(applied(store, scratch.insert(k, v)) =~= applied(store, scratch).remove(k));
        },
    }
}

/// A buffered store over partition `partition`. Reads see the scratch overlay
/// first, then the partition; writes go to the overlay until flushed.
pub struct KvBuf {
    partition: usize,
    scratch: Vec<(Vec<u8>, Op)>,
}

impl KvBuf {
    /// The partition this buffer reads from and flushes to.
    pub closed spec fn partition(&self) -> usize {
        self.partition
    }

    /// The pending changes.
    pub closed spec fn scratch(&self) -> Map<Seq<u8>, Option<Seq<u8>>> {
        scratch_map(self.scratch@)
    }

    pub closed spec fn wf(&self) -> bool {
        keys_distinct(self.scratch@)
    }

    /// A buffer over `partition` with no pending change.
    pub fn new(partition: usize) -> (r: KvBuf)
        ensures
            r.wf(),
            r.partition() == partition,
            r.scratch() == Map::<Seq<u8>, Option<Seq<u8>>>::empty(),
    {
        let r = KvBuf { partition, scratch: Vec::new() };
        assert(r.scratch() =~= Map::<Seq<u8>, Option<Seq<u8>>>::empty());
        r
    }

    /// The partition this buffer reads from and flushes to.
    pub fn partition_id(&self) -> (r: usize)
        ensures
            r == self.partition(),
    {
        self.partition
    }

    /// The number of keys with a pending change.
    pub fn scratch_len(&self) -> (r: usize)
        requires
            self.wf(),
        ensures
            r as nat == self.scratch().dom().len(),
    {
        proof {
            lemma_key_map_index(self.scratch@);
            assert(self.scratch().dom() =~= key_map(self.scratch@).dom());
        }
        self.scratch.len()
    }

    /// The value `k` reads as: the latest pending change, else the stored value.
    pub fn get(&self, env: &Env, k: &[u8]) -> (r: Option<Vec<u8>>)
        requires
            self.wf(),
            env.wf(),
            self.partition() < env.tables().len(),
        ensures
            match r {
                Some(v) => read_through(env.tables()[self.partition() as int]@, self.scratch(), k@)
                    == Some(v@),
                None => read_through(env.tables()[self.partition() as int]@, self.scratch(), k@)
                    is None,
            },
    {
        proof {
            lemma_key_map_index(self.scratch@);
        }
        match find_key(&self.scratch, k) {
            Some(i) => {
                assert(key_map(self.scratch@).contains_key(self.scratch@[i as int].0@));
                match &self.scratch[i].1 {
                    Op::Put(v) => Some(copy_bytes(v)),
                    Op::Delete => None,
                }
            },
            None => {
                assert(!self.scratch().contains_key(k@)) by {
                    if key_map(self.scratch@).contains_key(k@) {
                        let j = choose|j: int| 0 <= j < self.scratch@.len() && self.scratch@[j].0@ == k@;
                    }
                }
                let t = env.table(self.partition);
                assert(t.wf());
                t.get(k)
            },
        }
    }

    /// Whether `k` reads as present.
    pub fn contains(&self, env: &Env, k: &[u8]) -> (r: bool)
        requires
            self.wf(),
            env.wf(),
            self.partition() < env.tables().len(),
        ensures
            r == read_through(env.tables()[self.partition() as int]@, self.scratch(), k@) is Some,
    {
        self.get(env, k).is_some()
    }

    /// Records a pending change, replacing any earlier one for the same key.
    fn record(&mut self, k: Vec<u8>, o: Op)
        requires
            old(self).wf(),
        ensures
            final(self).wf(),
            final(self).partition() == old(self).partition(),
            final(self).scratch() == old(self).scratch().insert(k@, op_view(o)),
    {
        let ghost s0 = self.scratch@;
        let ghost kk = k@;
        let ghost ov = op_view(o);
        match find_key(&self.scratch, k.as_slice()) {
            Some(i) => {
                let ghost p = (k, o);
                proof {
                    lemma_key_map_update(s0, i as int, p);
                }
                self.scratch.set(i, (k, o));
                assert(self.scratch@ =~= s0.update(i as int, p));
            },
            None => {
                let ghost p = (k, o);
                proof {
                    lemma_key_map_insert(s0, s0.len() as int, p);
                    assert(s0.insert(s0.len() as int, p) =~= s0.push(p));
                }
                self.scratch.push((k, o));
            },
        }
        assert(self.scratch() =~= old(self).scratch().insert(kk, ov));
    }

    /// Writes `v` under `k` in the scratch overlay; the partition is untouched.
    pub fn put(&mut self, k: Vec<u8>, v: Vec<u8>)
        requires
            old(self).wf(),
        ensures
            final(self).wf(),
            final(self).partition() == old(self).partition(),
            final(self).scratch() == old(self).scratch().insert(k@, Some(v@)),
    {
        self.record(k, Op::Put(v));
    }

    /// Records a tombstone for `k` in the scratch overlay.
    pub fn delete(&mut self, k: Vec<u8>)
        requires
            old(self).wf(),
        ensures
            final(self).wf(),
            final(self).partition() == old(self).partition(),
            final(self).scratch() == old(self).scratch().insert(k@, None),
    {
        self.record(k, Op::Delete);
    }

    /// Applies every pending change to `t`.
    fn apply_to(&self, t: &mut Table)
        requires
            old(t).wf(),
        ensures
            final(t).wf(),
            final(t)@ == applied(old(t)@, self.scratch()),
            final(t).writable() == old(t).writable(),
    {
        let ghost t0 = t@;
        let mut i: usize = 0;
        proof {
            assert(scratch_map(self.scratch@.take(0)) =~= Map::<Seq<u8>, Option<Seq<u8>>>::empty());
            assert(applied(t0, Map::<Seq<u8>, Option<Seq<u8>>>::empty()) =~= t0);
        }
        while i < self.scratch.len()
            invariant
                i <= self.scratch@.len(),
                t.wf(),
                t.writable() == old(t).writable(),
                t@ == applied(t0, scratch_map(self.scratch@.take(i as int))),
            decreases self.scratch@.len() - i,
        {
            let ghost before = scratch_map(self.scratch@.take(i as int));
            proof {
                assert(self.scratch@.take(i as int + 1) =~= self.scratch@.take(i as int).push(self.scratch@[i as int]));
                lemma_key_map_push(self.scratch@.take(i as int), self.scratch@[i as int]);
                assert(scratch_map(self.scratch@.take(i as int + 1)) =~= before.insert(
                    self.scratch@[i as int].0@,
                    op_view(self.scratch@[i as int].1),
                ));
                lemma_applied_put(t0, before, self.scratch@[i as int].0@, op_view(self.scratch@[i as int].1));
            }
            match &self.scratch[i].1 {
                Op::Put(v) => {
                    t.upsert(copy_bytes(&self.scratch[i].0), copy_bytes(v));
                },
                Op::Delete => {
                    t.remove(self.scratch[i].0.as_slice());
                },
            }
            i = i + 1;
        }
        assert(self.scratch@.take(self.scratch@.len() as int) =~= self.scratch@);
    }

    /// Every key that reads as present, with its value, in ascending key order.
    pub fn iter_raw(&self, env: &Env) -> (r: Vec<(Vec<u8>, Vec<u8>)>)
        requires
            self.wf(),
            env.wf(),
            self.partition() < env.tables().len(),
        ensures
            keys_ascending(r@),
            lists_exactly(r@, applied(env.tables()[self.partition() as int]@, self.scratch())),
    {
        let src = env.table(self.partition);
        assert(src.wf());
        let mut t = src.copy();
        self.apply_to(&mut t);
        t.entries_ascending()
    }

    /// Every key that reads as present, with its value, in descending key order.
    pub fn iter_raw_reverse(&self, env: &Env) -> (r: Vec<(Vec<u8>, Vec<u8>)>)
        requires
            self.wf(),
            env.wf(),
            self.partition() < env.tables().len(),
        ensures
            keys_descending(r@),
            lists_exactly(r@, applied(env.tables()[self.partition() as int]@, self.scratch())),
    {
        let mut fwd = self.iter_raw(env);
        let ghost f = fwd@;
        let ghost m = applied(env.tables()[self.partition() as int]@, self.scratch());
        let mut r: Vec<(Vec<u8>, Vec<u8>)> = Vec::new();
        while fwd.len() > 0
            invariant
                f.len() == fwd@.len() + r@.len(),
                keys_ascending(f),
                lists_exactly(f, m),
                forall|j: int| 0 <= j < fwd@.len() ==> fwd@[j] == f[j],
                forall|j: int| 0 <= j < r@.len() ==> r@[j] == f[f.len() - 1 - j],
            decreases fwd@.len(),
        {
            let p = fwd.pop().unwrap();
            r.push(p);
        }
        assert forall|a: int, b: int| 0 <= a < r@.len() && 0 <= b < r@.len() && a != b implies r@[a].0@
            != r@[b].0@ by {
            assert(r@[a] == f[f.len() - 1 - a] && r@[b] == f[f.len() - 1 - b]);
        }
        assert forall|a: int, b: int| 0 <= a < b < r@.len() implies lex_lt(r@[b].0@, r@[a].0@) by {
            assert(r@[a] == f[f.len() - 1 - a] && r@[b] == f[f.len() - 1 - b]);
        }
        assert forall|j: int| 0 <= j < r@.len() implies #[trigger] m.contains_key(r@[j].0@) && m[r@[j].0@]
            == r@[j].1@ by {
            let i = f.len() - 1 - j;
            assert(r@[j] == f[i]);
            assert(0 <= i < f.len());
            assert(lists_exactly(f, m));
            assert(m.contains_key(f[i].0@));
        }
        assert forall|k: Seq<u8>| #[trigger] m.contains_key(k) implies exists|j: int|
            0 <= j < r@.len() && r@[j].0@ == k by {
            let i = choose|i: int| 0 <= i < f.len() && f[i].0@ == k;
            assert(r@[f.len() - 1 - i] == f[i]);
        }
        r
    }

    /// Applies every pending change to the buffer's partition inside `txn`.
    /// Fails, leaving `txn` untouched, when there is a change to write and the
    /// partition is read-only; with no pending change it always succeeds.
    pub fn flush_to_txn(self, txn: &mut Txn) -> (r: Result<(), StorageError>)
        requires
            self.wf(),
            old(txn).wf(),
            self.partition() < old(txn).tables().len(),
        ensures
            r is Ok <==> (old(txn).tables()[self.partition() as int].writable() || self.scratch().dom()
                =~= Set::<Seq<u8>>::empty()),
            r is Err ==> r == Err::<(), StorageError>(StorageError::ReadOnly) && *final(txn) == *old(txn),
            r is Ok ==> final(txn).wf() && final(txn).tables().len() == old(txn).tables().len()
                && final(txn).tables()[self.partition() as int]@ == applied(
                old(txn).tables()[self.partition() as int]@,
                self.scratch(),
            ) && final(txn).tables()[self.partition() as int].writable() == old(txn).tables()[self.partition() as int].writable()
                && forall|i: int| 0 <= i < old(txn).tables().len() && i != self.partition()
                ==> final(txn).tables()[i] == old(txn).tables()[i],
    {
        let p = self.partition;
        proof {
            lemma_key_map_index(self.scratch@);
        }
        if self.scratch.len() == 0 {
            assert(self.scratch().dom() =~= Set::<Seq<u8>>::empty());
            assert(applied(txn.tables()[p as int]@, self.scratch()) =~= txn.tables()[p as int]@);
            return Ok(());
        }
        assert(self.scratch().contains_key(self.scratch@[0].0@));
        if !txn.is_writable(p) {
            return Err(StorageError::ReadOnly);
        }
        let ghost t0 = txn.tables()[p as int];
        let mut i: usize = 0;
        proof {
            assert(scratch_map(self.scratch@.take(0)) =~= Map::<Seq<u8>, Option<Seq<u8>>>::empty());
            assert(applied(t0@, Map::<Seq<u8>, Option<Seq<u8>>>::empty()) =~= t0@);
        }
        while i < self.scratch.len()
            invariant
                i <= self.scratch@.len(),
                p == self.partition(),
                txn.wf(),
                txn.tables().len() == old(txn).tables().len(),
                p < txn.tables().len(),
                txn.tables()[p as int].writable() == t0.writable(),
                txn.tables()[p as int]@ == applied(t0@, scratch_map(self.scratch@.take(i as int))),
                forall|j: int| 0 <= j < old(txn).tables().len() && j != p ==> txn.tables()[j]
                    == old(txn).tables()[j],
            decreases self.scratch@.len() - i,
        {
            let ghost before = scratch_map(self.scratch@.take(i as int));
            proof {
                assert(self.scratch@.take(i as int + 1) =~= self.scratch@.take(i as int).push(self.scratch@[i as int]));
                lemma_key_map_push(self.scratch@.take(i as int), self.scratch@[i as int]);
                assert(scratch_map(self.scratch@.take(i as int + 1)) =~= before.insert(
                    self.scratch@[i as int].0@,
                    op_view(self.scratch@[i as int].1),
                ));
                lemma_applied_put(t0@, before, self.scratch@[i as int].0@, op_view(self.scratch@[i as int].1));
            }
            match &self.scratch[i].1 {
                Op::Put(v) => {
                    txn.upsert(p, copy_bytes(&self.scratch[i].0), copy_bytes(v));
                },
                Op::Delete => {
                    txn.remove(p, self.scratch[i].0.as_slice());
                },
            }
            i = i + 1;
        }
        assert(self.scratch@.take(self.scratch@.len() as int) =~= self.scratch@);
        Ok(())
    }
}

/// A write shadows the partition: once `put(k, v)` is pending, `k` reads as
/// `v` whatever the partition holds, and the partition itself is unchanged
/// until a flush.
pub proof fn lemma_scratch_shadowing(
    store: Map<Seq<u8>, Seq<u8>>,
    scratch: Map<Seq<u8>, Option<Seq<u8>>>,
    k: Seq<u8>,
    v: Seq<u8>,
)
    ensures
        read_through(store, scratch.insert(k, Some(v)), k) == Some(v),
{
}

/// A tombstone masks the partition: once `delete(k)` is pending, `k` reads as
/// absent even where the partition holds it, and after the flush the
/// partition no longer holds it.
pub proof fn lemma_tombstone_masking(
    store: Map<Seq<u8>, Seq<u8>>,
    scratch: Map<Seq<u8>, Option<Seq<u8>>>,
    k: Seq<u8>,
)
    ensures
        read_through(store, scratch.insert(k, None), k) is None,
        !applied(store, scratch.insert(k, None)).contains_key(k),
{
}

/// A flush is all or nothing: the flushed partition is exactly what reads
/// through the overlay gave, on every key; a failed flush changes nothing
/// (see `KvBuf::flush_to_txn`).
pub proof fn lemma_flush_applies_every_entry(
    store: Map<Seq<u8>, Seq<u8>>,
    scratch: Map<Seq<u8>, Option<Seq<u8>>>,
    k: Seq<u8>,
)
    ensures
        applied(store, scratch).contains_key(k) == read_through(store, scratch, k) is Some,
        applied(store, scratch).contains_key(k) ==> Some(applied(store, scratch)[k]) == read_through(store, scratch, k),
        scratch.contains_key(k) ==> (applied(store, scratch).contains_key(k) == scratch[k] is Some),
        !scratch.contains_key(k) ==> (applied(store, scratch).contains_key(k) == store.contains_key(k)),
{
}

} // verus!
