//! Indexed generators of test data. A generator pairs a curve (the rule that
//! turns an index into a value) with the index it stands at.
use vstd::prelude::*;

verus! {

/// A generator of `Item` values along `Curve`, standing at `index`.
pub struct Fixturator<Item, Curve> {
    pub item: core::marker::PhantomData<Item>,
    pub curve: Curve,
    pub index: usize,
}

impl<Curve, Item> Fixturator<Item, Curve> {
    /// A generator along `curve` that starts at index `start`.
    pub fn new(curve: Curve, start: usize) -> (r: Self)
        ensures
            r.curve == curve,
            r.index == start,
    {
        Fixturator { curve, index: start, item: core::marker::PhantomData }
    }
}

/// A curve of values that differ from run to run.
#[derive(Debug, Clone, Copy, PartialEq, Eq, Structural)]
pub struct Unpredictable;

/// A curve that gives the same values, in the same order, on every run.
#[derive(Debug, Clone, Copy, PartialEq, Eq, Structural)]
pub struct Predictable;

/// A curve of empty values: zero, nothing, no items.
#[derive(Debug, Clone, Copy, PartialEq, Eq, Structural)]
pub struct Empty;

/// A plain value stored in buffers under test.
#[derive(Debug, Clone, Copy, PartialEq, Eq, Structural)]
pub struct V(pub u32);

impl From<u32> for V {
    fn from(s: u32) -> (r: V)
        ensures
            r.0 == s,
    {
        V(s)
    }
}

impl vstd::std_specs::convert::FromSpecImpl<u32> for V {
    open spec fn obeys_from_spec() -> bool {
        true
    }

    open spec fn from_spec(s: u32) -> V {
        V(s)
    }
}

impl V {
    /// The value's stored form: four big-endian bytes.
    pub fn to_bytes(&self) -> (r: Vec<u8>)
        ensures
            r@ == crate::codec::u32_bytes(self.0),
    {
        let mut out: Vec<u8> = Vec::new();
        crate::codec::push_u32(&mut out, self.0);
        out
    }

    /// Reads a stored value back; `None` unless there are exactly four bytes.
    pub fn from_bytes(b: &[u8]) -> (r: Option<V>)
        ensures
            r is Some <==> b@.len() == 4,
            r matches Some(v) ==> crate::codec::u32_bytes(v.0) == b@,
    {
        if b.len() != 4 {
            return None;
        }
        let x = ((b[0] as u32) << 24u32) | ((b[1] as u32) << 16u32) | ((b[2] as u32) << 8u32) | (b[3] as u32);
        proof {
            assert(x == crate::codec::u32_of(b@[0], b@[1], b@[2], b@[3]));
            crate::dht_op::lemma_u32_bytes_of(b@[0], b@[1], b@[2], b@[3]);
            assert(b@ =~= seq![b@[0], b@[1], b@[2], b@[3]]);
        }
        Some(V(x))
    }
}

} // verus!
