//! The persistent store as a whole (a numbered set of partitions), and the write
//! transaction that all changes pass through.
use vstd::prelude::*;
use crate::table::Table;

verus! {

/// A storage failure.
#[derive(Debug, Clone, Copy, PartialEq, Eq, Structural)]
pub enum StorageError {
    /// A write reached a partition that is open read-only.
    ReadOnly,
    /// A partition that the caller named does not exist.
    MissingPartition,
}

/// Every table of the sequence keeps its ordering invariant.
pub open spec fn tables_wf(s: Seq<Table>) -> bool {
    forall|i: int| 0 <= i < s.len() ==> (#[trigger] s[i]).wf()
}

/// Two sets of partitions hold the same contents with the same write access.
pub open spec fn same_tables(a: Seq<Table>, b: Seq<Table>) -> bool {
    &&& a.len() == b.len()
    &&& forall|i: int| 0 <= i < a.len() ==> (#[trigger] a[i])@ == b[i]@ && a[i].writable() == b[i].writable()
}

/// The persistent store: partitions numbered from zero.
pub struct Env {
    tables: Vec<Table>,
}

/// A write transaction: a private working copy of every partition, which
/// becomes the store's contents only when committed.
pub struct Txn {
    tables: Vec<Table>,
}

/// Takes the table at `p` out of the vector.
fn take_table(v: &mut Vec<Table>, p: usize) -> (r: Table)
    requires
        p < old(v)@.len(),
    ensures
        r == old(v)@[p as int],
        final(v)@ == old(v)@.remove(p as int),
{
    v.remove(p)
}

impl Env {
    pub closed spec fn tables(&self) -> Seq<Table> {
        self.tables@
    }

    pub open spec fn wf(&self) -> bool {
        tables_wf(self.tables())
    }

    /// A store with `n` empty, writable partitions.
    pub fn new(n: usize) -> (r: Env)
        ensures
            r.wf(),
            r.tables().len() == n,
            forall|i: int| 0 <= i < n ==> (#[trigger] r.tables()[i])@ == Map::<Seq<u8>, Seq<u8>>::empty()
                && r.tables()[i].writable(),
    {
        let mut tables: Vec<Table> = Vec::new();
        let mut i: usize = 0;
        while i < n
            invariant
                i <= n,
                tables@.len() == i,
                forall|j: int| 0 <= j < i ==> (#[trigger] tables@[j]).wf() && tables@[j]@ == Map::<
                    Seq<u8>,
                    Seq<u8>,
                >::empty() && tables@[j].writable(),
            decreases n - i,
        {
            tables.push(Table::new(true));
            i = i + 1;
        }
        Env { tables }
    }

    /// The number of partitions.
    pub fn len(&self) -> (r: usize)
        ensures
            r == self.tables().len(),
    {
        self.tables.len()
    }

    /// Partition `p`, read directly (no transaction, no buffer).
    pub fn table(&self, p: usize) -> (r: &Table)
        requires
            p < self.tables().len(),
        ensures
            *r == self.tables()[p as int],
    {
        &self.tables[p]
    }

    /// Opens partition `p` for writes or makes it read-only; contents stay.
    pub fn set_writable(&mut self, p: usize, writable: bool)
        requires
            old(self).wf(),
            p < old(self).tables().len(),
        ensures
            final(self).wf(),
            final(self).tables().len() == old(self).tables().len(),
            final(self).tables()[p as int]@ == old(self).tables()[p as int]@,
            final(self).tables()[p as int].writable() == writable,
            forall|i: int| 0 <= i < old(self).tables().len() && i != p ==> final(self).tables()[i]
                == old(self).tables()[i],
    {
        let mut t = take_table(&mut self.tables, p);
        t.set_writable(writable);
        self.tables.insert(p, t);
    }

    /// A read snapshot: later commits to this store do not reach it.
    pub fn reader(&self) -> (r: Env)
        requires
            self.wf(),
        ensures
            r.wf(),
            same_tables(r.tables(), self.tables()),
    {
        let txn = self.begin();
        Env { tables: txn.tables }
    }

    /// Opens a write transaction over every partition.
    pub fn begin(&self) -> (r: Txn)
        requires
            self.wf(),
        ensures
            r.wf(),
            same_tables(r.tables(), self.tables()),
    {
        let mut tables: Vec<Table> = Vec::new();
        let mut i: usize = 0;
        while i < self.tables.len()
            invariant
                self.wf(),
                i <= self.tables@.len(),
                tables@.len() == i,
                forall|j: int| 0 <= j < i ==> (#[trigger] tables@[j]).wf() && tables@[j]@
                    == self.tables@[j]@ && tables@[j].writable() == self.tables@[j].writable(),
            decreases self.tables@.len() - i,
        {
            assert(self.tables@[i as int].wf());
            tables.push(self.tables[i].copy());
            i = i + 1;
        }
        Txn { tables }
    }

    /// Makes everything the transaction wrote the store's contents.
    pub fn commit(&mut self, txn: Txn)
        ensures
            final(self).tables() == txn.tables(),
    {
        self.tables = txn.tables;
    }
}

impl Txn {
    pub closed spec fn tables(&self) -> Seq<Table> {
        self.tables@
    }

    pub open spec fn wf(&self) -> bool {
        tables_wf(self.tables())
    }

    /// The number of partitions.
    pub fn len(&self) -> (r: usize)
        ensures
            r == self.tables().len(),
    {
        self.tables.len()
    }

    /// Whether partition `p` accepts writes.
    pub fn is_writable(&self, p: usize) -> (r: bool)
        requires
            p < self.tables().len(),
        ensures
            r == self.tables()[p as int].writable(),
    {
        self.tables[p].is_writable()
    }

    /// Stores `v` under `k` in partition `p`.
    pub fn upsert(&mut self, p: usize, k: Vec<u8>, v: Vec<u8>)
        requires
            old(self).wf(),
            p < old(self).tables().len(),
        ensures
            final(self).wf(),
            final(self).tables().len() == old(self).tables().len(),
            final(self).tables()[p as int]@ == old(self).tables()[p as int]@.insert(k@, v@),
            final(self).tables()[p as int].writable() == old(self).tables()[p as int].writable(),
            forall|i: int| 0 <= i < old(self).tables().len() && i != p ==> final(self).tables()[i]
                == old(self).tables()[i],
    {
        let mut t = take_table(&mut self.tables, p);
        assert(old(self).tables()[p as int].wf());
        t.upsert(k, v);
        self.tables.insert(p, t);
    }

    /// Removes what partition `p` holds under `k`.
    pub fn remove(&mut self, p: usize, k: &[u8])
        requires
            old(self).wf(),
            p < old(self).tables().len(),
        ensures
            final(self).wf(),
            final(self).tables().len() == old(self).tables().len(),
            final(self).tables()[p as int]@ == old(self).tables()[p as int]@.remove(k@),
            final(self).tables()[p as int].writable() == old(self).tables()[p as int].writable(),
            forall|i: int| 0 <= i < old(self).tables().len() && i != p ==> final(self).tables()[i]
                == old(self).tables()[i],
    {
        let mut t = take_table(&mut self.tables, p);
        assert(old(self).tables()[p as int].wf());
        t.remove(k);
        self.tables.insert(p, t);
    }
}

} // verus!
