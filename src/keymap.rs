//! Sequences of `(key, value)` pairs read as maps: a later pair for a key
//! overrides an earlier one.
use vstd::prelude::*;

verus! {

/// The map that a sequence of pairs describes, the last pair for a key winning.
pub open spec fn key_map<V>(s: Seq<(Vec<u8>, V)>) -> Map<Seq<u8>, V>
    decreases s.len(),
{
    if s.len() == 0 {
        Map::empty()
    } else {
        key_map(s.drop_last()).insert(s.last().0@, s.last().1)
    }
}

/// No two pairs share a key.
pub open spec fn keys_distinct<V>(s: Seq<(Vec<u8>, V)>) -> bool {
    forall|i: int, j: int| 0 <= i < s.len() && 0 <= j < s.len() && i != j ==> s[i].0@ != s[j].0@
}

pub proof fn lemma_key_map_index<V>(s: Seq<(Vec<u8>, V)>)
    requires
        keys_distinct(s),
    ensures
        forall|i: int| 0 <= i < s.len() ==> #[trigger] key_map(s).contains_key(s[i].0@) && key_map(s)[s[i].0@] == s[i].1,
        forall|k: Seq<u8>| #[trigger] key_map(s).contains_key(k) ==> exists|i: int| 0 <= i < s.len() && s[i].0@ == k,
        key_map(s).dom().finite(),
        key_map(s).dom().len() == s.len(),
    decreases s.len(),
{
    if s.len() > 0 {
        let t = s.drop_last();
        assert(keys_distinct(t));
        lemma_key_map_index(t);
        assert(!key_map(t).contains_key(s.last().0@)) by {
            if key_map(t).contains_key(s.last().0@) {
                let i = choose|i: int| 0 <= i < t.len() && t[i].0@ == s.last().0@;
                assert(s[i].0@ == s[s.len() - 1].0@);
            }
        }
        assert forall|i: int| 0 <= i < s.len() implies #[trigger] key_map(s).contains_key(s[i].0@)
            && key_map(s)[s[i].0@] == s[i].1 by {
            if i < s.len() - 1 {
                assert(s[i] == t[i]);
                assert(s[i].0@ != s[s.len() - 1].0@);
            }
        }
        assert forall|k: Seq<u8>| #[trigger] key_map(s).contains_key(k) implies exists|i: int|
            0 <= i < s.len() && s[i].0@ == k by {
            if k != s.last().0@ {
                assert(key_map(t).contains_key(k));
                let i = choose|i: int| 0 <= i < t.len() && t[i].0@ == k;
                assert(s[i].0@ == k);
            } else {
                assert(s[s.len() - 1].0@ == k);
            }
        }
    }
}

/// Replacing the pair at an index whose key is kept.
pub proof fn lemma_key_map_update<V>(s: Seq<(Vec<u8>, V)>, i: int, p: (Vec<u8>, V))
    requires
        keys_distinct(s),
        0 <= i < s.len(),
        p.0@ == s[i].0@,
    ensures
        key_map(s.update(i, p)) == key_map(s).insert(p.0@, p.1),
        keys_distinct(s.update(i, p)),
    decreases s.len(),
{
    let u = s.update(i, p);
    if i == s.len() - 1 {
        assert(u.drop_last() =~= s.drop_last());
        assert(key_map(u) =~= key_map(s).insert(p.0@, p.1));
    } else {
        let t = s.drop_last();
        assert(keys_distinct(t));
        lemma_key_map_update(t, i, p);
        assert(u.drop_last() =~= t.update(i, p));
        assert(s[i].0@ != s.last().0@);
        assert(key_map(u) =~= key_map(s).insert(p.0@, p.1));
    }
}

/// Inserting a pair whose key is new, at any index.
pub proof fn lemma_key_map_insert<V>(s: Seq<(Vec<u8>, V)>, i: int, p: (Vec<u8>, V))
    requires
        keys_distinct(s),
        0 <= i <= s.len(),
        forall|j: int| 0 <= j < s.len() ==> s[j].0@ != p.0@,
    ensures
        key_map(s.insert(i, p)) == key_map(s).insert(p.0@, p.1),
        keys_distinct(s.insert(i, p)),
    decreases s.len(),
{
    let u = s.insert(i, p);
    if i == s.len() {
        assert(u.drop_last() =~= s);
    } else {
        let t = s.drop_last();
        assert(keys_distinct(t));
        lemma_key_map_insert(t, i, p);
        assert(u.drop_last() =~= t.insert(i, p));
        assert(u.last() == s.last());
        assert(s[s.len() - 1].0@ != p.0@);
        assert(key_map(u) =~= key_map(s).insert(p.0@, p.1));
    }
    assert forall|a: int, b: int| 0 <= a < u.len() && 0 <= b < u.len() && a != b implies u[a].0@
        != u[b].0@ by {
        if a != i && b != i {
            let a0 = if a < i { a } else { a - 1 };
            let b0 = if b < i { b } else { b - 1 };
            assert(u[a] == s[a0] && u[b] == s[b0]);
        } else if a == i {
            let b0 = if b < i { b } else { b - 1 };
            assert(u[b] == s[b0]);
        } else {
            let a0 = if a < i { a } else { a - 1 };
            assert(u[a] == s[a0]);
        }
    }
}

/// Removing the pair at an index.
pub proof fn lemma_key_map_remove<V>(s: Seq<(Vec<u8>, V)>, i: int)
    requires
        keys_distinct(s),
        0 <= i < s.len(),
    ensures
        key_map(s.remove(i)) == key_map(s).remove(s[i].0@),
        keys_distinct(s.remove(i)),
    decreases s.len(),
{
    let u = s.remove(i);
    let k = s[i].0@;
    if i == s.len() - 1 {
        assert(u =~= s.drop_last());
        lemma_key_map_index(u);
        assert(keys_distinct(u));
        assert(!key_map(u).contains_key(k)) by {
            if key_map(u).contains_key(k) {
                let j = choose|j: int| 0 <= j < u.len() && u[j].0@ == k;
                assert(s[j].0@ == k);
            }
        }
        assert(key_map(u) =~= key_map(s).remove(k));
    } else {
        let t = s.drop_last();
        assert(keys_distinct(t));
        lemma_key_map_remove(t, i);
        assert(u.drop_last() =~= t.remove(i));
        assert(u.last() == s.last());
        assert(s[s.len() - 1].0@ != k);
        assert(key_map(u) =~= key_map(s).remove(k));
    }
    assert forall|a: int, b: int| 0 <= a < u.len() && 0 <= b < u.len() && a != b implies u[a].0@
        != u[b].0@ by {
        let a0 = if a < i { a } else { a + 1 };
        let b0 = if b < i { b } else { b + 1 };
        assert(u[a] == s[a0] && u[b] == s[b0]);
    }
}

/// Appending a pair whose key may already be present.
pub proof fn lemma_key_map_push<V>(s: Seq<(Vec<u8>, V)>, p: (Vec<u8>, V))
    ensures
        key_map(s.push(p)) == key_map(s).insert(p.0@, p.1),
{
    assert(s.push(p).drop_last() =~= s);
}

/// Finds the index of the pair with key `k`, if there is one.
pub fn find_key<V>(s: &Vec<(Vec<u8>, V)>, k: &[u8]) -> (r: Option<usize>)
    ensures
        match r {
            Some(i) => i < s@.len() && s@[i as int].0@ == k@,
            None => forall|j: int| 0 <= j < s@.len() ==> s@[j].0@ != k@,
        },
{
    let mut i: usize = 0;
    while i < s.len()
        invariant
            i <= s@.len(),
            forall|j: int| 0 <= j < i ==> s@[j].0@ != k@,
        decreases s@.len() - i,
    {
        if crate::lex::bytes_eq(s[i].0.as_slice(), k) {
            return Some(i);
        }
        i = i + 1;
    }
    None
}

} // verus!
