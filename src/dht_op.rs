//! DHT operations as this core receives them, and the projections of them that
//! it stores: the element payload, the light (metadata-only) form, the basis.
use vstd::prelude::*;
use crate::codec::{framed, opt_framed, opt_view, push_bytes, push_framed, push_opt_framed, push_u32, push_u64, u32_bytes, u32_of, u64_bytes, lemma_u32_round_trip};
use crate::table::copy_bytes;

verus! {

/// A point in time, in microseconds since the Unix epoch.
pub type Timestamp = u64;

/// A signed header of a source chain, with its claimed content address.
#[derive(Debug)]
pub struct Header {
    /// The agent whose chain holds the header.
    pub author: Vec<u8>,
    /// The header's content address.
    pub hash: Vec<u8>,
    pub timestamp: Timestamp,
    /// The header's position in its author's chain.
    pub header_seq: u32,
    /// The content address of the previous header, absent for the first.
    pub prev_header: Option<Vec<u8>>,
}

/// The kind of a DHT operation.
#[derive(Debug, Clone, Copy, PartialEq, Eq, Structural)]
pub enum DhtOpType {
    StoreElement,
    StoreEntry,
    RegisterAgentActivity,
}

/// A unit of replicated chain state, signed over its header.
#[derive(Debug)]
#[allow(inconsistent_fields)]
pub enum DhtOp {
    /// Store a header, with its entry if it has one, at the header's address.
    StoreElement { signature: Vec<u8>, header: Header, entry: Option<Vec<u8>> },
    /// Store an entry at the entry's address.
    StoreEntry { signature: Vec<u8>, header: Header, entry: Vec<u8>, entry_hash: Vec<u8> },
    /// Record a header as activity on its author's chain.
    RegisterAgentActivity { signature: Vec<u8>, header: Header },
}

/// The metadata-only form of an operation.
#[derive(Debug)]
pub struct DhtOpLight {
    pub op_type: DhtOpType,
    pub header_hash: Vec<u8>,
    pub basis: Vec<u8>,
}

/// The highest header seen so far on one author's chain.
#[derive(Debug)]
pub struct HighestObserved {
    pub header_seq: u32,
    /// The content address of that header.
    pub hash: Vec<u8>,
}

pub open spec fn op_header(op: DhtOp) -> Header {
    match op {
        DhtOp::StoreElement { header, .. } => header,
        DhtOp::StoreEntry { header, .. } => header,
        DhtOp::RegisterAgentActivity { header, .. } => header,
    }
}

pub open spec fn op_type_of(op: DhtOp) -> DhtOpType {
    match op {
        DhtOp::StoreElement { .. } => DhtOpType::StoreElement,
        DhtOp::StoreEntry { .. } => DhtOpType::StoreEntry,
        DhtOp::RegisterAgentActivity { .. } => DhtOpType::RegisterAgentActivity,
    }
}

/// The address under which an operation is found: the header's for a stored
/// element, the entry's for a stored entry, the author's for chain activity.
pub open spec fn basis_of(op: DhtOp) -> Seq<u8> {
    match op {
        DhtOp::StoreElement { header, .. } => header.hash@,
        DhtOp::StoreEntry { entry_hash, .. } => entry_hash@,
        DhtOp::RegisterAgentActivity { header, .. } => header.author@,
    }
}

/// The entry that an operation carries, if any.
pub open spec fn entry_of(op: DhtOp) -> Option<Seq<u8>> {
    match op {
        DhtOp::StoreElement { entry, .. } => opt_view(entry),
        DhtOp::StoreEntry { entry, .. } => Some(entry@),
        DhtOp::RegisterAgentActivity { .. } => None,
    }
}

pub open spec fn signature_of(op: DhtOp) -> Seq<u8> {
    match op {
        DhtOp::StoreElement { signature, .. } => signature@,
        DhtOp::StoreEntry { signature, .. } => signature@,
        DhtOp::RegisterAgentActivity { signature, .. } => signature@,
    }
}

pub open spec fn op_type_tag(t: DhtOpType) -> u8 {
    match t {
        DhtOpType::StoreElement => 0u8,
        DhtOpType::StoreEntry => 1u8,
        DhtOpType::RegisterAgentActivity => 2u8,
    }
}

/// The stored form of a header.
pub open spec fn header_bytes(h: Header) -> Seq<u8> {
    framed(h.author@) + framed(h.hash@) + u64_bytes(h.timestamp) + u32_bytes(h.header_seq)
        + opt_framed(opt_view(h.prev_header))
}

/// The element payload of an operation: its signed header and its entry.
pub open spec fn element_bytes(op: DhtOp) -> Seq<u8> {
    header_bytes(op_header(op)) + framed(signature_of(op)) + opt_framed(entry_of(op))
}

/// The stored form of an operation's light projection.
pub open spec fn light_bytes(op: DhtOp) -> Seq<u8> {
    seq![op_type_tag(op_type_of(op))] + framed(op_header(op).hash@) + framed(basis_of(op))
}

/// The stored form of a highest-observed record.
pub open spec fn highest_bytes(header_seq: u32, hash: Seq<u8>) -> Seq<u8> {
    u32_bytes(header_seq) + hash
}

/// Appends the stored form of a header.
fn push_header(out: &mut Vec<u8>, h: &Header)
    ensures
        final(out)@ == old(out)@ + header_bytes(*h),
{
    push_framed(out, h.author.as_slice());
    push_framed(out, h.hash.as_slice());
    push_u64(out, h.timestamp);
    push_u32(out, h.header_seq);
    push_opt_framed(out, &h.prev_header);
    assert(final(out)@ =~= old(out)@ + header_bytes(*h));
}

impl DhtOpType {
    /// The byte that tags this kind in stored values.
    pub fn tag(&self) -> (r: u8)
        ensures
            r == op_type_tag(*self),
    {
        match self {
            DhtOpType::StoreElement => 0u8,
            DhtOpType::StoreEntry => 1u8,
            DhtOpType::RegisterAgentActivity => 2u8,
        }
    }
}

impl DhtOp {
    pub fn header(&self) -> (r: &Header)
        ensures
            *r == op_header(*self),
    {
        match self {
            DhtOp::StoreElement { header, .. } => header,
            DhtOp::StoreEntry { header, .. } => header,
            DhtOp::RegisterAgentActivity { header, .. } => header,
        }
    }

    pub fn signature(&self) -> (r: &Vec<u8>)
        ensures
            r@ == signature_of(*self),
    {
        match self {
            DhtOp::StoreElement { signature, .. } => signature,
            DhtOp::StoreEntry { signature, .. } => signature,
            DhtOp::RegisterAgentActivity { signature, .. } => signature,
        }
    }

    pub fn op_type(&self) -> (r: DhtOpType)
        ensures
            r == op_type_of(*self),
    {
        match self {
            DhtOp::StoreElement { .. } => DhtOpType::StoreElement,
            DhtOp::StoreEntry { .. } => DhtOpType::StoreEntry,
            DhtOp::RegisterAgentActivity { .. } => DhtOpType::RegisterAgentActivity,
        }
    }

    /// The address under which this operation is found.
    pub fn dht_basis(&self) -> (r: Vec<u8>)
        ensures
            r@ == basis_of(*self),
    {
        match self {
            DhtOp::StoreElement { header, .. } => copy_bytes(&header.hash),
            DhtOp::StoreEntry { entry_hash, .. } => copy_bytes(entry_hash),
            DhtOp::RegisterAgentActivity { header, .. } => copy_bytes(&header.author),
        }
    }

    /// The metadata-only form: kind, header address and basis.
    pub fn to_light(&self) -> (r: DhtOpLight)
        ensures
            r.op_type == op_type_of(*self),
            r.header_hash@ == op_header(*self).hash@,
            r.basis@ == basis_of(*self),
    {
        DhtOpLight {
            op_type: self.op_type(),
            header_hash: copy_bytes(&self.header().hash),
            basis: self.dht_basis(),
        }
    }

    /// The element payload: the signed header and the entry, if any.
    pub fn element_bytes(&self) -> (r: Vec<u8>)
        ensures
            r@ == element_bytes(*self),
    {
        let mut out: Vec<u8> = Vec::new();
        push_header(&mut out, self.header());
        push_framed(&mut out, self.signature().as_slice());
        match self {
            DhtOp::StoreElement { entry, .. } => push_opt_framed(&mut out, entry),
            DhtOp::StoreEntry { entry, .. } => {
                out.push(1u8);
                push_framed(&mut out, entry.as_slice());
            },
            DhtOp::RegisterAgentActivity { .. } => out.push(0u8),
        }
        assert(out@ =~= element_bytes(*self));
        out
    }
}

impl DhtOpLight {
    /// The stored form: the kind's tag, then the framed header address and basis.
    pub fn to_bytes(&self) -> (r: Vec<u8>)
        ensures
            r@ == seq![op_type_tag(self.op_type)] + framed(self.header_hash@) + framed(self.basis@),
    {
        let mut out: Vec<u8> = Vec::new();
        out.push(self.op_type.tag());
        push_framed(&mut out, self.header_hash.as_slice());
        push_framed(&mut out, self.basis.as_slice());
        assert(out@ =~= seq![op_type_tag(self.op_type)] + framed(self.header_hash@) + framed(self.basis@));
        out
    }
}

impl HighestObserved {
    /// The stored form: the sequence number's four bytes, then the address.
    pub fn to_bytes(&self) -> (r: Vec<u8>)
        ensures
            r@ == highest_bytes(self.header_seq, self.hash@),
    {
        let mut out: Vec<u8> = Vec::new();
        push_u32(&mut out, self.header_seq);
        push_bytes(&mut out, self.hash.as_slice());
        out
    }

    /// Reads a stored record back; `None` when there are fewer than four bytes.
    pub fn from_bytes(b: &[u8]) -> (r: Option<HighestObserved>)
        ensures
            b@.len() < 4 <==> r is None,
            r matches Some(h) ==> highest_bytes(h.header_seq, h.hash@) == b@ && h.header_seq == u32_of(
                b@[0],
                b@[1],
                b@[2],
                b@[3],
            ),
    {
        if b.len() < 4 {
            return None;
        }
        let seq = ((b[0] as u32) << 24u32) | ((b[1] as u32) << 16u32) | ((b[2] as u32) << 8u32) | (b[3] as u32);
        let mut hash: Vec<u8> = Vec::new();
        let mut i: usize = 4;
        while i < b.len()
            invariant
                4 <= i <= b@.len(),
                hash@ == b@.subrange(4, i as int),
            decreases b@.len() - i,
        {
            hash.push(b[i]);
            i = i + 1;
            assert(hash@ =~= b@.subrange(4, i as int));
        }
        proof {
            assert(seq == u32_of(b@[0], b@[1], b@[2], b@[3]));
            lemma_u32_bytes_of(b@[0], b@[1], b@[2], b@[3]);
            assert(hash@ =~= b@.subrange(4, b@.len() as int));
            assert(highest_bytes(seq, hash@) =~= b@);
        }
        Some(HighestObserved { header_seq: seq, hash })
    }
}

/// Four bytes, read as an integer and written back, are the same four bytes.
pub proof fn lemma_u32_bytes_of(b0: u8, b1: u8, b2: u8, b3: u8)
    ensures
        u32_bytes(u32_of(b0, b1, b2, b3)) == seq![b0, b1, b2, b3],
{
    let x = u32_of(b0, b1, b2, b3);
    assert(((((((b0 as u32) << 24u32) | ((b1 as u32) << 16u32) | ((b2 as u32) << 8u32) | (b3 as u32))
        >> 24u32) as u8) == b0)) by (bit_vector);
    assert(((((((b0 as u32) << 24u32) | ((b1 as u32) << 16u32) | ((b2 as u32) << 8u32) | (b3 as u32))
        >> 16u32) as u8) == b1)) by (bit_vector);
    assert(((((((b0 as u32) << 24u32) | ((b1 as u32) << 16u32) | ((b2 as u32) << 8u32) | (b3 as u32))
        >> 8u32) as u8) == b2)) by (bit_vector);
    assert(((((((b0 as u32) << 24u32) | ((b1 as u32) << 16u32) | ((b2 as u32) << 8u32) | (b3 as u32)))
        as u8) == b3)) by (bit_vector);
    assert(u32_bytes(x) =~= seq![b0, b1, b2, b3]);
}

} // verus!
