//! A persistent store partition: an ordered map from byte keys to byte values.
use vstd::prelude::*;
use crate::keymap::{key_map, keys_distinct, lemma_key_map_index, lemma_key_map_insert, lemma_key_map_remove, lemma_key_map_update, find_key};
use crate::lex::{lex_lt, lex_less, lemma_lex_irreflexive, lemma_lex_total, lemma_lex_transitive};
use vstd::pervasive::VecAdditionalExecFns;

verus! {

/// The byte contents of a map whose values are byte vectors.
pub open spec fn bytes_map(m: Map<Seq<u8>, Vec<u8>>) -> Map<Seq<u8>, Seq<u8>> {
    m.map_values(|v: Vec<u8>| v@)
}

/// Keys strictly ascend along the sequence.
pub open spec fn keys_ascending(s: Seq<(Vec<u8>, Vec<u8>)>) -> bool {
    forall|i: int, j: int| 0 <= i < j < s.len() ==> lex_lt(s[i].0@, s[j].0@)
}

/// Keys strictly descend along the sequence.
pub open spec fn keys_descending(s: Seq<(Vec<u8>, Vec<u8>)>) -> bool {
    forall|i: int, j: int| 0 <= i < j < s.len() ==> lex_lt(s[j].0@, s[i].0@)
}

/// The pairs of `s` are exactly the entries of `m`, each once.
pub open spec fn lists_exactly(s: Seq<(Vec<u8>, Vec<u8>)>, m: Map<Seq<u8>, Seq<u8>>) -> bool {
    &&& keys_distinct(s)
    &&& forall|i: int| 0 <= i < s.len() ==> #[trigger] m.contains_key(s[i].0@) && m[s[i].0@] == s[i].1@
    &&& forall|k: Seq<u8>| #[trigger] m.contains_key(k) ==> exists|i: int| 0 <= i < s.len() && s[i].0@ == k
}

pub proof fn lemma_ascending_distinct(s: Seq<(Vec<u8>, Vec<u8>)>)
    requires
        keys_ascending(s),
    ensures
        keys_distinct(s),
{
    assert forall|i: int, j: int| 0 <= i < s.len() && 0 <= j < s.len() && i != j implies s[i].0@
        != s[j].0@ by {
        if i < j {
            lemma_lex_irreflexive(s[i].0@);
        } else {
            lemma_lex_irreflexive(s[j].0@);
        }
    }
}

pub proof fn lemma_lists_exactly(s: Seq<(Vec<u8>, Vec<u8>)>)
    requires
        keys_distinct(s),
    ensures
        lists_exactly(s, bytes_map(key_map(s))),
{
    lemma_key_map_index(s);
}

/// Copies a byte vector.
pub fn copy_bytes(v: &Vec<u8>) -> (r: Vec<u8>)
    ensures
        r@ == v@,
{
    let r = v.clone();
    assert(r@ =~= v@);
    r
}

/// One partition of the persistent store. Writes to a partition opened
/// read-only fail.
pub struct Table {
    entries: Vec<(Vec<u8>, Vec<u8>)>,
    writable: bool,
}

impl View for Table {
    type V = Map<Seq<u8>, Seq<u8>>;

    closed spec fn view(&self) -> Map<Seq<u8>, Seq<u8>> {
        bytes_map(key_map(self.entries@))
    }
}

impl Table {
    /// The entries are kept in ascending key order.
    pub closed spec fn wf(&self) -> bool {
        keys_ascending(self.entries@)
    }

    /// Writes to this partition are accepted.
    pub closed spec fn writable(&self) -> bool {
        self.writable
    }

    /// An empty partition.
    pub fn new(writable: bool) -> (r: Table)
        ensures
            r.wf(),
            r@ == Map::<Seq<u8>, Seq<u8>>::empty(),
            r.writable() == writable,
    {
        let r = Table { entries: Vec::new(), writable };
        assert(r@ =~= Map::<Seq<u8>, Seq<u8>>::empty());
        r
    }

    pub fn is_writable(&self) -> (r: bool)
        ensures
            r == self.writable(),
    {
        self.writable
    }

    /// Opens or closes the partition for writes; the contents stay.
    pub fn set_writable(&mut self, writable: bool)
        ensures
            final(self)@ == old(self)@,
            final(self).wf() == old(self).wf(),
            final(self).writable() == writable,
    {
        self.writable = writable;
    }

    /// The number of entries.
    pub fn len(&self) -> (r: usize)
        requires
            self.wf(),
        ensures
            r as nat == self@.dom().len(),
            self@.dom().finite(),
    {
        proof {
            lemma_ascending_distinct(self.entries@);
            lemma_key_map_index(self.entries@);
            assert(self@.dom() =~= key_map(self.entries@).dom());
        }
        self.entries.len()
    }

    /// The value stored under `k`.
    pub fn get(&self, k: &[u8]) -> (r: Option<Vec<u8>>)
        requires
            self.wf(),
        ensures
            match r {
                Some(v) => self@.contains_key(k@) && self@[k@] == v@,
                None => !self@.contains_key(k@),
            },
    {
        proof {
            lemma_ascending_distinct(self.entries@);
            lemma_lists_exactly(self.entries@);
        }
        match find_key(&self.entries, k) {
            Some(i) => {
                assert(self@.contains_key(self.entries@[i as int].0@));
                Some(copy_bytes(&self.entries[i].1))
            },
            None => None,
        }
    }

    /// Whether a value is stored under `k`.
    pub fn contains(&self, k: &[u8]) -> (r: bool)
        requires
            self.wf(),
        ensures
            r == self@.contains_key(k@),
    {
        proof {
            lemma_ascending_distinct(self.entries@);
            lemma_lists_exactly(self.entries@);
        }
        find_key(&self.entries, k).is_some()
    }

    /// Stores `v` under `k`, replacing what was there.
    pub fn upsert(&mut self, k: Vec<u8>, v: Vec<u8>)
        requires
            old(self).wf(),
        ensures
            final(self).wf(),
            final(self)@ == old(self)@.insert(k@, v@),
            final(self).writable() == old(self).writable(),
    {
        proof {
            lemma_ascending_distinct(self.entries@);
        }
        let ghost s0 = self.entries@;
        let ghost kk = k@;
        match find_key(&self.entries, k.as_slice()) {
            Some(i) => {
                let ghost p = (k, v);
                proof {
                    lemma_key_map_update(s0, i as int, p);
                }
                self.entries.set(i, (k, v));
                assert(self.entries@ =~= s0.update(i as int, p));
                assert forall|a: int, b: int| 0 <= a < b < self.entries@.len() implies lex_lt(
                    self.entries@[a].0@,
                    self.entries@[b].0@,
                ) by {
                    assert(s0[a].0@ == self.entries@[a].0@);
                    assert(s0[b].0@ == self.entries@[b].0@);
                }
                assert(self@ =~= old(self)@.insert(kk, v@));
            },
            None => {
                let mut p: usize = 0;
                while p < self.entries.len() && lex_less(self.entries[p].0.as_slice(), k.as_slice())
                    invariant
                        self.entries@ == s0,
                        k@ == kk,
                        p <= s0.len(),
                        forall|j: int| 0 <= j < p ==> lex_lt(s0[j].0@, kk),
                    decreases s0.len() - p,
                {
                    p = p + 1;
                }
                proof {
                    if p < s0.len() {
                        lemma_lex_total(s0[p as int].0@, kk);
                    }
                    assert forall|j: int| p <= j < s0.len() implies lex_lt(kk, s0[j].0@) by {
                        if j > p {
                            lemma_lex_transitive(kk, s0[p as int].0@, s0[j].0@);
                        }
                    }
                }
                let ghost pv = v@;
                let ghost pair = (k, v);
                proof {
                    lemma_key_map_insert(s0, p as int, pair);
                }
                self.entries.insert(p, (k, v));
                assert(self.entries@ =~= s0.insert(p as int, pair));
                assert forall|a: int, b: int| 0 <= a < b < self.entries@.len() implies lex_lt(
                    self.entries@[a].0@,
                    self.entries@[b].0@,
                ) by {
                    let e = self.entries@;
                    if b < p {
                        assert(e[a] == s0[a] && e[b] == s0[b]);
                    } else if b == p {
                        assert(e[a] == s0[a]);
                    } else if a == p {
                        assert(e[b] == s0[b - 1]);
                    } else if a < p {
                        assert(e[a] == s0[a] && e[b] == s0[b - 1]);
                    } else {
                        assert(e[a] == s0[a - 1] && e[b] == s0[b - 1]);
                    }
                }
                assert(self@ =~= old(self)@.insert(kk, pv));
            },
        }
    }

    /// Removes what is stored under `k`, if anything.
    pub fn remove(&mut self, k: &[u8])
        requires
            old(self).wf(),
        ensures
            final(self).wf(),
            final(self)@ == old(self)@.remove(k@),
            final(self).writable() == old(self).writable(),
    {
        proof {
            lemma_ascending_distinct(self.entries@);
            lemma_lists_exactly(self.entries@);
        }
        let ghost s0 = self.entries@;
        match find_key(&self.entries, k) {
            Some(i) => {
                proof {
                    lemma_key_map_remove(s0, i as int);
                }
                self.entries.remove(i);
                assert(self.entries@ =~= s0.remove(i as int));
                assert forall|a: int, b: int| 0 <= a < b < self.entries@.len() implies lex_lt(
                    self.entries@[a].0@,
                    self.entries@[b].0@,
                ) by {
                    let a0 = if a < i { a } else { a + 1 };
                    let b0 = if b < i { b } else { b + 1 };
                    assert(self.entries@[a] == s0[a0] && self.entries@[b] == s0[b0]);
                }
                assert(self@ =~= old(self)@.remove(k@));
            },
            None => {
                assert(self@ =~= old(self)@.remove(k@));
            },
        }
    }

    /// A copy of the partition, contents and write access alike.
    pub fn copy(&self) -> (r: Table)
        requires
            self.wf(),
        ensures
            r.wf(),
            r@ == self@,
            r.writable() == self.writable(),
    {
        let r = Table { entries: self.entries_ascending(), writable: self.writable };
        proof {
            lemma_ascending_distinct(r.entries@);
            lemma_lists_exactly(r.entries@);
            lemma_ascending_distinct(self.entries@);
            lemma_lists_exactly(self.entries@);
            assert forall|kk: Seq<u8>| #[trigger] r@.contains_key(kk) implies self@.contains_key(kk)
                && r@[kk] == self@[kk] by {
                let i = choose|i: int| 0 <= i < r.entries@.len() && r.entries@[i].0@ == kk;
            }
            assert forall|kk: Seq<u8>| #[trigger] self@.contains_key(kk) implies r@.contains_key(kk) by {
                let i = choose|i: int| 0 <= i < self.entries@.len() && self.entries@[i].0@ == kk;
            }
            assert(r@ =~= self@);
        }
        r
    }

    /// The entries, in ascending key order.
    pub fn entries_ascending(&self) -> (r: Vec<(Vec<u8>, Vec<u8>)>)
        requires
            self.wf(),
        ensures
            keys_ascending(r@),
            lists_exactly(r@, self@),
    {
        proof {
            lemma_ascending_distinct(self.entries@);
            lemma_lists_exactly(self.entries@);
        }
        let mut r: Vec<(Vec<u8>, Vec<u8>)> = Vec::new();
        let mut i: usize = 0;
        while i < self.entries.len()
            invariant
                i <= self.entries@.len(),
                r@.len() == i,
                forall|j: int| 0 <= j < i ==> (#[trigger] r@[j]).0@ == self.entries@[j].0@ && r@[j].1@
                    == self.entries@[j].1@,
            decreases self.entries@.len() - i,
        {
            r.push((copy_bytes(&self.entries[i].0), copy_bytes(&self.entries[i].1)));
            i = i + 1;
        }
        assert forall|kk: Seq<u8>| #[trigger] self@.contains_key(kk) implies exists|j: int|
            0 <= j < r@.len() && r@[j].0@ == kk by {
            let j = choose|j: int| 0 <= j < self.entries@.len() && self.entries@[j].0@ == kk;
            assert(r@[j].0@ == kk);
        }
        r
    }
}

} // verus!
