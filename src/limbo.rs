//! The record kept for an operation while it awaits validation.
use vstd::prelude::*;
use crate::codec::{framed, opt_framed, opt_u64, opt_view, push_framed, push_opt_framed, push_opt_u64, push_u32, push_u64, u32_bytes, u64_bytes};
use crate::dht_op::{DhtOpLight, Timestamp, op_type_tag};

verus! {

/// Where an operation stands in validation.
#[derive(Debug, Clone, Copy, PartialEq, Eq, Structural)]
pub enum ValidationLimboStatus {
    /// Not yet looked at.
    Pending,
    /// Waiting on data that system validation needs.
    AwaitingSysDeps,
    /// Passed system validation.
    SysValidated,
    /// Waiting on data that app validation needs.
    AwaitingAppDeps,
}

/// The validation-limbo record of one operation.
#[derive(Debug)]
pub struct ValidationLimboValue {
    pub status: ValidationLimboStatus,
    /// The operation's metadata-only form.
    pub op: DhtOpLight,
    pub basis: Vec<u8>,
    pub time_added: Timestamp,
    pub last_try: Option<Timestamp>,
    pub num_tries: u32,
    /// The agent that sent the operation, where known.
    pub from_agent: Option<Vec<u8>>,
}

pub open spec fn status_tag(s: ValidationLimboStatus) -> u8 {
    match s {
        ValidationLimboStatus::Pending => 0u8,
        ValidationLimboStatus::AwaitingSysDeps => 1u8,
        ValidationLimboStatus::SysValidated => 2u8,
        ValidationLimboStatus::AwaitingAppDeps => 3u8,
    }
}

/// The stored form of a record.
pub open spec fn limbo_bytes(v: ValidationLimboValue) -> Seq<u8> {
    seq![status_tag(v.status)] + seq![op_type_tag(v.op.op_type)] + framed(v.op.header_hash@) + framed(v.op.basis@)
        + framed(v.basis@) + u64_bytes(v.time_added) + opt_u64(v.last_try) + u32_bytes(v.num_tries)
        + opt_framed(opt_view(v.from_agent))
}

impl ValidationLimboStatus {
    /// The byte that tags this status in stored records.
    pub fn tag(&self) -> (r: u8)
        ensures
            r == status_tag(*self),
    {
        match self {
            ValidationLimboStatus::Pending => 0u8,
            ValidationLimboStatus::AwaitingSysDeps => 1u8,
            ValidationLimboStatus::SysValidated => 2u8,
            ValidationLimboStatus::AwaitingAppDeps => 3u8,
        }
    }
}

impl ValidationLimboValue {
    /// The record of an operation just accepted: pending, never tried.
    pub fn pending(op: DhtOpLight, basis: Vec<u8>, time_added: Timestamp, from_agent: Option<Vec<u8>>) -> (r: Self)
        ensures
            r.status == ValidationLimboStatus::Pending,
            r.op == op,
            r.basis == basis,
            r.time_added == time_added,
            r.last_try is None,
            r.num_tries == 0,
            r.from_agent == from_agent,
    {
        ValidationLimboValue {
            status: ValidationLimboStatus::Pending,
            op,
            basis,
            time_added,
            last_try: None,
            num_tries: 0,
            from_agent,
        }
    }

    /// The stored form of the record.
    pub fn to_bytes(&self) -> (r: Vec<u8>)
        ensures
            r@ == limbo_bytes(*self),
    {
        let mut out: Vec<u8> = Vec::new();
        out.push(self.status.tag());
        let light = self.op.to_bytes();
        crate::codec::push_bytes(&mut out, light.as_slice());
        push_framed(&mut out, self.basis.as_slice());
        push_u64(&mut out, self.time_added);
        push_opt_u64(&mut out, self.last_try);
        push_u32(&mut out, self.num_tries);
        push_opt_framed(&mut out, &self.from_agent);
        assert(out@ =~= limbo_bytes(*self));
        out
    }
}

} // verus!
