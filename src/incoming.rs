//! Staging of incoming DHT operations: deduplication against every store that
//! may hold an operation, the counterfeit gate, and the atomic commit of one
//! batch into the validation limbo.
use vstd::prelude::*;
use crate::codec::{framed, opt_framed, opt_view, u32_bytes, u32_of, u64_bytes};
use crate::dht_op::{basis_of, element_bytes, highest_bytes, light_bytes, op_header, op_type_of, DhtOp, DhtOpType, HighestObserved, Timestamp};
use crate::env::{Env, StorageError, Txn};
use crate::kvbuf::{applied, read_through, KvBuf};
use crate::limbo::ValidationLimboValue;
use crate::table::{copy_bytes, Table};

verus! {

/// Operations that passed validation and were integrated.
pub const INTEGRATED_DHT_OPS: usize = 0;
/// Operations that passed validation and await integration.
pub const INTEGRATION_LIMBO: usize = 1;
/// Operations that await validation, with their records.
pub const VALIDATION_LIMBO: usize = 2;
/// Element payloads of operations not yet validated, by header address.
pub const ELEMENT_PENDING: usize = 3;
/// Light forms of operations not yet validated, by operation address.
pub const META_PENDING: usize = 4;
/// Integrated metadata; here, the highest header observed per author.
pub const META_INTEGRATED: usize = 5;
/// The number of partitions that the workspace needs.
pub const PARTITIONS: usize = 6;

/// Pending changes of one buffer: `Some(v)` writes `v`, `None` is a tombstone.
pub type Overlay = Map<Seq<u8>, Option<Seq<u8>>>;

/// The pending changes of a workspace, one overlay per buffer that it writes.
pub struct Staging {
    pub limbo: Overlay,
    pub elements: Overlay,
    pub meta: Overlay,
    pub activity: Overlay,
}

/// An operation as received: its address, the operation, and the verdict of
/// the signature check on it (the signature matches the header's author and
/// the header its address).
#[derive(Debug)]
pub struct IncomingOp {
    pub hash: Vec<u8>,
    pub op: DhtOp,
    pub signature_valid: bool,
}

pub open spec fn no_staging() -> Staging {
    Staging { limbo: Map::empty(), elements: Map::empty(), meta: Map::empty(), activity: Map::empty() }
}

/// The contents of each partition.
pub open spec fn contents(t: Seq<Table>) -> Seq<Map<Seq<u8>, Seq<u8>>> {
    Seq::new(t.len(), |i: int| t[i]@)
}

/// Two sets of partitions grant the same write access.
pub open spec fn same_access(a: Seq<Table>, b: Seq<Table>) -> bool {
    &&& a.len() == b.len()
    &&& forall|i: int| 0 <= i < a.len() ==> (#[trigger] a[i]).writable() == b[i].writable()
}

/// Some store that may hold an operation holds `h`: the integrated store, the
/// integration limbo, or the validation limbo as the workspace reads it.
pub open spec fn op_exists_in(c: Seq<Map<Seq<u8>, Seq<u8>>>, st: Staging, h: Seq<u8>) -> bool {
    ||| c[INTEGRATED_DHT_OPS as int].contains_key(h)
    ||| c[INTEGRATION_LIMBO as int].contains_key(h)
    ||| read_through(c[VALIDATION_LIMBO as int], st.limbo, h) is Some
}

/// The sequence number in a stored highest-observed record.
pub open spec fn seq_of(b: Seq<u8>) -> u32 {
    u32_of(b[0], b[1], b[2], b[3])
}

/// The activity overlay once header `seq` (address `hash`) of `author` has
/// been observed: the record is replaced only by a higher sequence number
/// (or where no readable record stands).
pub open spec fn observed(store: Map<Seq<u8>, Seq<u8>>, o: Overlay, author: Seq<u8>, seq: u32, hash: Seq<u8>) -> Overlay {
    match read_through(store, o, author) {
        Some(b) => if b.len() >= 4 && seq <= seq_of(b) {
            o
        } else {
            o.insert(author, Some(highest_bytes(seq, hash)))
        },
        None => o.insert(author, Some(highest_bytes(seq, hash))),
    }
}

/// The stored validation-limbo record of an operation just accepted.
pub open spec fn pending_record(op: DhtOp, from_agent: Option<Seq<u8>>, now: Timestamp) -> Seq<u8> {
    seq![0u8] + light_bytes(op) + framed(basis_of(op)) + u64_bytes(now) + seq![0u8] + u32_bytes(0)
        + opt_framed(from_agent)
}

/// The workspace's changes once the operation `op` at `h` is staged.
pub open spec fn staged(
    c: Seq<Map<Seq<u8>, Seq<u8>>>,
    st: Staging,
    h: Seq<u8>,
    op: DhtOp,
    from_agent: Option<Seq<u8>>,
    now: Timestamp,
) -> Staging {
    Staging {
        limbo: st.limbo.insert(h, Some(pending_record(op, from_agent, now))),
        elements: st.elements.insert(op_header(op).hash@, Some(element_bytes(op))),
        meta: st.meta.insert(h, Some(light_bytes(op))),
        activity: if op_type_of(op) == DhtOpType::RegisterAgentActivity {
            observed(
                c[META_INTEGRATED as int],
                st.activity,
                op_header(op).author@,
                op_header(op).header_seq,
                op_header(op).hash@,
            )
        } else {
            st.activity
        },
    }
}

/// An operation is staged when its signature checks out and no store holds it.
pub open spec fn accepted(c: Seq<Map<Seq<u8>, Seq<u8>>>, st: Staging, item: IncomingOp) -> bool {
    item.signature_valid && !op_exists_in(c, st, item.hash@)
}

pub open spec fn ingest_step(
    c: Seq<Map<Seq<u8>, Seq<u8>>>,
    st: Staging,
    item: IncomingOp,
    from_agent: Option<Seq<u8>>,
    now: Timestamp,
) -> Staging {
    if accepted(c, st, item) {
        staged(c, st, item.hash@, item.op, from_agent, now)
    } else {
        st
    }
}

/// The changes that a batch stages, operation by operation in order.
pub open spec fn ingest_all(
    c: Seq<Map<Seq<u8>, Seq<u8>>>,
    items: Seq<IncomingOp>,
    from_agent: Option<Seq<u8>>,
    now: Timestamp,
) -> Staging
    decreases items.len(),
{
    if items.len() == 0 {
        no_staging()
    } else {
        ingest_step(c, ingest_all(c, items.drop_last(), from_agent, now), items.last(), from_agent, now)
    }
}

/// Every overlay with a change to write targets a writable partition.
pub open spec fn commit_ok(t: Seq<Table>, st: Staging) -> bool {
    &&& (t[VALIDATION_LIMBO as int].writable() || st.limbo.dom() == Set::<Seq<u8>>::empty())
    &&& (t[ELEMENT_PENDING as int].writable() || st.elements.dom() == Set::<Seq<u8>>::empty())
    &&& (t[META_PENDING as int].writable() || st.meta.dom() == Set::<Seq<u8>>::empty())
    &&& (t[META_INTEGRATED as int].writable() || st.activity.dom() == Set::<Seq<u8>>::empty())
}

/// The partitions' contents once every overlay has been applied.
pub open spec fn committed(c: Seq<Map<Seq<u8>, Seq<u8>>>, st: Staging) -> Seq<Map<Seq<u8>, Seq<u8>>> {
    c.update(VALIDATION_LIMBO as int, applied(c[VALIDATION_LIMBO as int], st.limbo))
        .update(ELEMENT_PENDING as int, applied(c[ELEMENT_PENDING as int], st.elements))
        .update(META_PENDING as int, applied(c[META_PENDING as int], st.meta))
        .update(META_INTEGRATED as int, applied(c[META_INTEGRATED as int], st.activity))
}

/// The buffers that one batch of incoming operations reads and writes.
pub struct IncomingDhtOpsWorkspace {
    pub integration_limbo: KvBuf,
    pub integrated_dht_ops: KvBuf,
    pub validation_limbo: KvBuf,
    pub element_pending: KvBuf,
    pub meta_pending: KvBuf,
    pub meta_integrated: KvBuf,
}

impl IncomingDhtOpsWorkspace {
    /// Each buffer is over its own partition; the two stores of validated
    /// operations are only read.
    pub open spec fn wf(&self) -> bool {
        &&& self.integration_limbo.wf() && self.integration_limbo.partition() == INTEGRATION_LIMBO
        &&& self.integrated_dht_ops.wf() && self.integrated_dht_ops.partition() == INTEGRATED_DHT_OPS
        &&& self.validation_limbo.wf() && self.validation_limbo.partition() == VALIDATION_LIMBO
        &&& self.element_pending.wf() && self.element_pending.partition() == ELEMENT_PENDING
        &&& self.meta_pending.wf() && self.meta_pending.partition() == META_PENDING
        &&& self.meta_integrated.wf() && self.meta_integrated.partition() == META_INTEGRATED
        &&& self.integration_limbo.scratch() == Map::<Seq<u8>, Option<Seq<u8>>>::empty()
        &&& self.integrated_dht_ops.scratch() == Map::<Seq<u8>, Option<Seq<u8>>>::empty()
    }

    /// The changes that the workspace holds.
    pub open spec fn staging(&self) -> Staging {
        Staging {
            limbo: self.validation_limbo.scratch(),
            elements: self.element_pending.scratch(),
            meta: self.meta_pending.scratch(),
            activity: self.meta_integrated.scratch(),
        }
    }

    /// A workspace with no change, over a store that has every partition it
    /// needs; `MissingPartition` otherwise.
    pub fn new(env: &Env) -> (r: Result<Self, StorageError>)
        ensures
            env.tables().len() < PARTITIONS <==> r is Err,
            r is Err ==> r == Err::<Self, StorageError>(StorageError::MissingPartition),
            r matches Ok(w) ==> w.wf() && w.staging() == no_staging(),
    {
        if env.len() < PARTITIONS {
            return Err(StorageError::MissingPartition);
        }
        let w = IncomingDhtOpsWorkspace {
            integration_limbo: KvBuf::new(INTEGRATION_LIMBO),
            integrated_dht_ops: KvBuf::new(INTEGRATED_DHT_OPS),
            validation_limbo: KvBuf::new(VALIDATION_LIMBO),
            element_pending: KvBuf::new(ELEMENT_PENDING),
            meta_pending: KvBuf::new(META_PENDING),
            meta_integrated: KvBuf::new(META_INTEGRATED),
        };
        Ok(w)
    }

    /// Whether some store that may hold an operation holds `hash`.
    pub fn op_exists(&self, env: &Env, hash: &[u8]) -> (r: bool)
        requires
            self.wf(),
            env.wf(),
            env.tables().len() >= PARTITIONS,
        ensures
            r == op_exists_in(contents(env.tables()), self.staging(), hash@),
    {
        let a = self.integrated_dht_ops.contains(env, hash);
        let b = self.integration_limbo.contains(env, hash);
        let c = self.validation_limbo.contains(env, hash);
        a || b || c
    }

    /// The highest header observed on `author`'s chain, as the workspace reads it.
    pub fn highest_observed(&self, env: &Env, author: &[u8]) -> (r: Option<HighestObserved>)
        requires
            self.wf(),
            env.wf(),
            env.tables().len() >= PARTITIONS,
        ensures
            match read_through(contents(env.tables())[META_INTEGRATED as int], self.staging().activity, author@) {
                Some(b) => if b.len() >= 4 {
                    r matches Some(h) && h.header_seq == seq_of(b) && highest_bytes(h.header_seq, h.hash@) == b
                } else {
                    r is None
                },
                None => r is None,
            },
    {
        match self.meta_integrated.get(env, author) {
            Some(b) => HighestObserved::from_bytes(b.as_slice()),
            None => None,
        }
    }

    /// Records header `header_seq` (address `hash`) of `author` as observed,
    /// unless a header at least as high is already recorded.
    pub fn register_activity_observed(&mut self, env: &Env, author: Vec<u8>, header_seq: u32, hash: Vec<u8>)
        requires
            old(self).wf(),
            env.wf(),
            env.tables().len() >= PARTITIONS,
        ensures
            final(self).wf(),
            final(self).staging() == (Staging {
                activity: observed(
                    contents(env.tables())[META_INTEGRATED as int],
                    old(self).staging().activity,
                    author@,
                    header_seq,
                    hash@,
                ),
                ..old(self).staging()
            }),
    {
        let replace = match self.highest_observed(env, author.as_slice()) {
            Some(h) => header_seq > h.header_seq,
            None => true,
        };
        if replace {
            let rec = HighestObserved { header_seq, hash };
            let bytes = rec.to_bytes();
            self.meta_integrated.put(author, bytes);
        }
    }

    /// Stages an accepted operation: its element payload, its light form, the
    /// activity record of its author where it registers activity, and a
    /// pending validation-limbo record.
    pub fn add_to_pending(
        &mut self,
        env: &Env,
        hash: Vec<u8>,
        op: &DhtOp,
        from_agent: Option<Vec<u8>>,
        now: Timestamp,
    )
        requires
            old(self).wf(),
            env.wf(),
            env.tables().len() >= PARTITIONS,
        ensures
            final(self).wf(),
            final(self).staging() == staged(
                contents(env.tables()),
                old(self).staging(),
                hash@,
                *op,
                opt_view(from_agent),
                now,
            ),
    {
        let ghost c = contents(env.tables());
        let ghost from = opt_view(from_agent);
        let basis = op.dht_basis();
        let light = op.to_light();
        match op {
            DhtOp::RegisterAgentActivity { header, .. } => {
                self.register_activity_observed(
                    env,
                    copy_bytes(&header.author),
                    header.header_seq,
                    copy_bytes(&light.header_hash),
                );
            },
            _ => {},
        }
        self.element_pending.put(copy_bytes(&op.header().hash), op.element_bytes());
        self.meta_pending.put(copy_bytes(&hash), light.to_bytes());
        let vlv = ValidationLimboValue::pending(light, basis, now, from_agent);
        let record = vlv.to_bytes();
        proof {
            assert(record@ =~= pending_record(*op, from, now));
        }
        self.validation_limbo.put(hash, record);
        assert(self.staging().activity == staged(c, old(self).staging(), hash@, *op, from, now).activity);
    }

    /// Flushes the buffers into `txn` in a fixed order: validation limbo,
    /// element payloads, light forms, activity records. On failure `txn` is to
    /// be dropped: part of the batch may stand in it.
    pub fn flush_to_txn(self, txn: &mut Txn) -> (r: Result<(), StorageError>)
        requires
            self.wf(),
            old(txn).wf(),
            old(txn).tables().len() >= PARTITIONS,
        ensures
            r is Ok <==> commit_ok(old(txn).tables(), self.staging()),
            r is Err ==> r == Err::<(), StorageError>(StorageError::ReadOnly),
            r is Ok ==> final(txn).wf() && same_access(final(txn).tables(), old(txn).tables())
                && contents(final(txn).tables()) == committed(contents(old(txn).tables()), self.staging()),
    {
        let ghost st = self.staging();
        let ghost t0 = txn.tables();
        let IncomingDhtOpsWorkspace { validation_limbo, element_pending, meta_pending, meta_integrated, .. } = self;
        let r1 = validation_limbo.flush_to_txn(txn);
        if r1.is_err() {
            return r1;
        }
        let ghost t1 = txn.tables();
        let r2 = element_pending.flush_to_txn(txn);
        if r2.is_err() {
            assert(t1[ELEMENT_PENDING as int] == t0[ELEMENT_PENDING as int]);
            return r2;
        }
        let ghost t2 = txn.tables();
        let r3 = meta_pending.flush_to_txn(txn);
        if r3.is_err() {
            assert(t2[META_PENDING as int] == t0[META_PENDING as int]);
            return r3;
        }
        let ghost t3 = txn.tables();
        let r4 = meta_integrated.flush_to_txn(txn);
        if r4.is_err() {
            assert(t3[META_INTEGRATED as int] == t0[META_INTEGRATED as int]);
            return r4;
        }
        proof {
            let t4 = txn.tables();
            assert(t1[ELEMENT_PENDING as int] == t0[ELEMENT_PENDING as int]);
            assert(t2[META_PENDING as int] == t0[META_PENDING as int]);
            assert(t3[META_INTEGRATED as int] == t0[META_INTEGRATED as int]);
            assert forall|i: int| 0 <= i < t4.len() implies (#[trigger] t4[i]).writable() == t0[i].writable() by {
                if i != VALIDATION_LIMBO && i != ELEMENT_PENDING && i != META_PENDING && i != META_INTEGRATED {
                    assert(t4[i] == t0[i]);
                } else if i == VALIDATION_LIMBO {
                    assert(t4[i] == t1[i]);
                } else if i == ELEMENT_PENDING {
                    assert(t4[i] == t2[i]);
                } else if i == META_PENDING {
                    assert(t4[i] == t3[i]);
                }
            }
            assert forall|i: int| 0 <= i < t4.len() implies contents(t4)[i] == committed(contents(t0), st)[i] by {
                if i != VALIDATION_LIMBO && i != ELEMENT_PENDING && i != META_PENDING && i != META_INTEGRATED {
                    assert(t4[i] == t0[i]);
                } else if i == VALIDATION_LIMBO {
                    assert(t4[i] == t1[i]);
                } else if i == ELEMENT_PENDING {
                    assert(t4[i] == t2[i]);
                } else if i == META_PENDING {
                    assert(t4[i] == t3[i]);
                }
            }
            assert(contents(t4) =~= committed(contents(t0), st));
        }
        Ok(())
    }

    /// Commits every change of the workspace as one transaction: all of them
    /// become the store's contents, or, where a flush fails, none does.
    pub fn commit(self, env: &mut Env) -> (r: Result<(), StorageError>)
        requires
            self.wf(),
            old(env).wf(),
            old(env).tables().len() >= PARTITIONS,
        ensures
            r is Ok <==> commit_ok(old(env).tables(), self.staging()),
            r is Err ==> r == Err::<(), StorageError>(StorageError::ReadOnly) && *final(env) == *old(env),
            r is Ok ==> final(env).wf() && same_access(final(env).tables(), old(env).tables())
                && contents(final(env).tables()) == committed(contents(old(env).tables()), self.staging()),
    {
        let mut txn = env.begin();
        proof {
            assert(contents(txn.tables()) =~= contents(env.tables()));
            assert forall|i: int| 0 <= i < PARTITIONS implies txn.tables()[i].writable() == env.tables()[i].writable() by {}
        }
        let r = self.flush_to_txn(&mut txn);
        match r {
            Ok(()) => {
                env.commit(txn);
                Ok(())
            },
            Err(e) => Err(e),
        }
    }
}

/// Copies an optional byte vector.
fn copy_opt_bytes(o: &Option<Vec<u8>>) -> (r: Option<Vec<u8>>)
    ensures
        opt_view(r) == opt_view(*o),
{
    match o {
        Some(b) => Some(copy_bytes(b)),
        None => None,
    }
}

/// Stages a batch of incoming operations and commits it as one transaction.
/// Each operation that no store holds yet and whose signature checks out is
/// staged; the others are skipped without error. On `Ok` the caller wakes the
/// validation consumer; on `Err` nothing of the batch was stored and the
/// caller may deliver it again.
pub fn incoming_dht_ops_workflow(
    env: &mut Env,
    ops: Vec<IncomingOp>,
    from_agent: Option<Vec<u8>>,
    now: Timestamp,
) -> (r: Result<(), StorageError>)
    requires
        old(env).wf(),
    ensures
        old(env).tables().len() < PARTITIONS ==> r == Err::<(), StorageError>(StorageError::MissingPartition)
            && *final(env) == *old(env),
        old(env).tables().len() >= PARTITIONS ==> ({
            let st = ingest_all(contents(old(env).tables()), ops@, opt_view(from_agent), now);
            &&& r is Ok <==> commit_ok(old(env).tables(), st)
            &&& r is Err ==> r == Err::<(), StorageError>(StorageError::ReadOnly) && *final(env) == *old(env)
            &&& r is Ok ==> final(env).wf() && same_access(final(env).tables(), old(env).tables())
                && contents(final(env).tables()) == committed(contents(old(env).tables()), st)
        }),
{
    let mut workspace = match IncomingDhtOpsWorkspace::new(env) {
        Ok(w) => w,
        Err(e) => {
            return Err(e);
        },
    };
    let ghost c = contents(env.tables());
    let ghost from = opt_view(from_agent);
    let mut i: usize = 0;
    proof {
        assert(ops@.take(0) =~= Seq::<IncomingOp>::empty());
    }
    while i < ops.len()
        invariant
            i <= ops@.len(),
            workspace.wf(),
            env.wf(),
            env.tables().len() >= PARTITIONS,
            *env == *old(env),
            c == contents(env.tables()),
            from == opt_view(from_agent),
            workspace.staging() == ingest_all(c, ops@.take(i as int), from, now),
        decreases ops@.len() - i,
    {
        let item = &ops[i];
        proof {
            assert(ops@.take(i as int + 1).drop_last() =~= ops@.take(i as int));
            assert(ops@.take(i as int + 1).last() == ops@[i as int]);
        }
        if !workspace.op_exists(env, item.hash.as_slice()) {
            if item.signature_valid {
                workspace.add_to_pending(env, copy_bytes(&item.hash), &item.op, copy_opt_bytes(&from_agent), now);
            }
        }
        i = i + 1;
    }
    proof {
        assert(ops@.take(ops@.len() as int) =~= ops@);
    }
    workspace.commit(env)
}

/// Staging never makes a held operation look absent.
proof fn lemma_exists_kept(
    c: Seq<Map<Seq<u8>, Seq<u8>>>,
    st: Staging,
    item: IncomingOp,
    from_agent: Option<Seq<u8>>,
    now: Timestamp,
    h: Seq<u8>,
)
    requires
        op_exists_in(c, st, h),
    ensures
        op_exists_in(c, ingest_step(c, st, item, from_agent, now), h),
{
}

/// After a batch is staged, every operation of it with a valid signature is
/// held by some store.
proof fn lemma_valid_ops_held(
    c: Seq<Map<Seq<u8>, Seq<u8>>>,
    items: Seq<IncomingOp>,
    from_agent: Option<Seq<u8>>,
    now: Timestamp,
)
    ensures
        forall|j: int| 0 <= j < items.len() && (#[trigger] items[j]).signature_valid ==> op_exists_in(
            c,
            ingest_all(c, items, from_agent, now),
            items[j].hash@,
        ),
    decreases items.len(),
{
    if items.len() > 0 {
        let t = items.drop_last();
        lemma_valid_ops_held(c, t, from_agent, now);
        let st = ingest_all(c, t, from_agent, now);
        assert forall|j: int| 0 <= j < items.len() && (#[trigger] items[j]).signature_valid implies op_exists_in(
            c,
            ingest_all(c, items, from_agent, now),
            items[j].hash@,
        ) by {
            if j < items.len() - 1 {
                assert(items[j] == t[j]);
                lemma_exists_kept(c, st, items.last(), from_agent, now, items[j].hash@);
            }
        }
    }
}

/// Re-reading a batch against the store it was committed to stages nothing.
proof fn lemma_nothing_restaged(
    c1: Seq<Map<Seq<u8>, Seq<u8>>>,
    items: Seq<IncomingOp>,
    from_agent: Option<Seq<u8>>,
    now: Timestamp,
)
    requires
        forall|j: int| 0 <= j < items.len() && (#[trigger] items[j]).signature_valid ==> op_exists_in(
            c1,
            no_staging(),
            items[j].hash@,
        ),
    ensures
        ingest_all(c1, items, from_agent, now) == no_staging(),
    decreases items.len(),
{
    if items.len() > 0 {
        let t = items.drop_last();
        assert forall|j: int| 0 <= j < t.len() && (#[trigger] t[j]).signature_valid implies op_exists_in(
            c1,
            no_staging(),
            t[j].hash@,
        ) by {
            assert(t[j] == items[j]);
        }
        lemma_nothing_restaged(c1, t, from_agent, now);
        assert(items.last() == items[items.len() - 1]);
    }
}

/// Committing no change leaves every partition as it was.
pub proof fn lemma_commit_nothing(c: Seq<Map<Seq<u8>, Seq<u8>>>)
    requires
        c.len() >= PARTITIONS,
    ensures
        committed(c, no_staging()) == c,
{
    let e = Map::<Seq<u8>, Option<Seq<u8>>>::empty();
    assert(applied(c[VALIDATION_LIMBO as int], e) =~= c[VALIDATION_LIMBO as int]);
    assert(applied(c[ELEMENT_PENDING as int], e) =~= c[ELEMENT_PENDING as int]);
    assert(applied(c[META_PENDING as int], e) =~= c[META_PENDING as int]);
    assert(applied(c[META_INTEGRATED as int], e) =~= c[META_INTEGRATED as int]);
    assert(committed(c, no_staging()) =~= c);
}

/// Ingestion is idempotent: once a batch is committed, ingesting the same
/// batch again (at any time) stages nothing, so its commit changes no store
/// and each operation keeps the one validation-limbo record it got.
pub proof fn lemma_ingest_idempotent(
    c: Seq<Map<Seq<u8>, Seq<u8>>>,
    items: Seq<IncomingOp>,
    from_agent: Option<Seq<u8>>,
    now: Timestamp,
    later: Timestamp,
)
    requires
        c.len() >= PARTITIONS,
    ensures
        ingest_all(committed(c, ingest_all(c, items, from_agent, now)), items, from_agent, later) == no_staging(),
        committed(committed(c, ingest_all(c, items, from_agent, now)), no_staging()) == committed(
            c,
            ingest_all(c, items, from_agent, now),
        ),
{
    let st = ingest_all(c, items, from_agent, now);
    let c1 = committed(c, st);
    lemma_valid_ops_held(c, items, from_agent, now);
    assert forall|j: int| 0 <= j < items.len() && (#[trigger] items[j]).signature_valid implies op_exists_in(
        c1,
        no_staging(),
        items[j].hash@,
    ) by {
        let h = items[j].hash@;
        assert(op_exists_in(c, st, h));
        if read_through(c[VALIDATION_LIMBO as int], st.limbo, h) is Some {
            assert(applied(c[VALIDATION_LIMBO as int], st.limbo).contains_key(h));
        }
    }
    lemma_nothing_restaged(c1, items, from_agent, later);
    lemma_commit_nothing(c1);
}

/// At most one of the integrated store, the integration limbo and the
/// validation limbo holds `h`.
pub open spec fn single_residency(c: Seq<Map<Seq<u8>, Seq<u8>>>, h: Seq<u8>) -> bool {
    let a = c[INTEGRATED_DHT_OPS as int].contains_key(h);
    let b = c[INTEGRATION_LIMBO as int].contains_key(h);
    let v = c[VALIDATION_LIMBO as int].contains_key(h);
    !(a && b) && !(a && v) && !(b && v)
}

/// Staged limbo records are for operations that neither validated store holds.
proof fn lemma_staged_not_validated(
    c: Seq<Map<Seq<u8>, Seq<u8>>>,
    items: Seq<IncomingOp>,
    from_agent: Option<Seq<u8>>,
    now: Timestamp,
)
    requires
        c.len() >= PARTITIONS,
    ensures
        forall|k: Seq<u8>| #[trigger] ingest_all(c, items, from_agent, now).limbo.contains_key(k) ==> !c[INTEGRATED_DHT_OPS as int].contains_key(k)
            && !c[INTEGRATION_LIMBO as int].contains_key(k),
    decreases items.len(),
{
    if items.len() > 0 {
        let t = items.drop_last();
        lemma_staged_not_validated(c, t, from_agent, now);
        let st = ingest_all(c, t, from_agent, now);
        let st2 = ingest_all(c, items, from_agent, now);
        assert forall|k: Seq<u8>| #[trigger] st2.limbo.contains_key(k) implies !c[INTEGRATED_DHT_OPS as int].contains_key(k)
            && !c[INTEGRATION_LIMBO as int].contains_key(k) by {
            if k != items.last().hash@ || !accepted(c, st, items.last()) {
                assert(st.limbo.contains_key(k));
            }
        }
    }
}

/// Ingestion keeps single residency: for every operation address, if at most
/// one of the three stores held it before a batch, at most one holds it after.
pub proof fn lemma_single_residency(
    c: Seq<Map<Seq<u8>, Seq<u8>>>,
    items: Seq<IncomingOp>,
    from_agent: Option<Seq<u8>>,
    now: Timestamp,
    h: Seq<u8>,
)
    requires
        c.len() >= PARTITIONS,
        single_residency(c, h),
    ensures
        single_residency(committed(c, ingest_all(c, items, from_agent, now)), h),
{
    lemma_staged_not_validated(c, items, from_agent, now);
}

/// The workspace never stages anything under `h` or `hh` when no operation of
/// the batch with a valid signature has address `h` or header address `hh`.
proof fn lemma_counterfeit_unstaged(
    c: Seq<Map<Seq<u8>, Seq<u8>>>,
    items: Seq<IncomingOp>,
    from_agent: Option<Seq<u8>>,
    now: Timestamp,
    h: Seq<u8>,
    hh: Seq<u8>,
)
    requires
        forall|j: int| 0 <= j < items.len() && (#[trigger] items[j]).hash@ == h ==> !items[j].signature_valid,
        forall|j: int| 0 <= j < items.len() && op_header((#[trigger] items[j]).op).hash@ == hh ==> !items[j].signature_valid,
    ensures
        !ingest_all(c, items, from_agent, now).limbo.contains_key(h),
        !ingest_all(c, items, from_agent, now).meta.contains_key(h),
        !ingest_all(c, items, from_agent, now).elements.contains_key(hh),
    decreases items.len(),
{
    if items.len() > 0 {
        let t = items.drop_last();
        assert forall|j: int| 0 <= j < t.len() && (#[trigger] t[j]).hash@ == h implies !t[j].signature_valid by {
            assert(t[j] == items[j]);
        }
        assert forall|j: int| 0 <= j < t.len() && op_header((#[trigger] t[j]).op).hash@ == hh implies !t[j].signature_valid by {
            assert(t[j] == items[j]);
        }
        lemma_counterfeit_unstaged(c, t, from_agent, now, h, hh);
        assert(items.last() == items[items.len() - 1]);
    }
}

/// An operation whose signature does not check out is never stored: where no
/// operation of the batch with a valid signature shares its address (or its
/// header address), no store gains, loses or changes anything under that
/// address (or under that header address).
pub proof fn lemma_counterfeit_never_stored(
    c: Seq<Map<Seq<u8>, Seq<u8>>>,
    items: Seq<IncomingOp>,
    from_agent: Option<Seq<u8>>,
    now: Timestamp,
    i: int,
)
    requires
        c.len() >= PARTITIONS,
        0 <= i < items.len(),
        !items[i].signature_valid,
        forall|j: int| 0 <= j < items.len() && (#[trigger] items[j]).hash@ == items[i].hash@ ==> !items[j].signature_valid,
        forall|j: int| 0 <= j < items.len() && op_header((#[trigger] items[j]).op).hash@ == op_header(items[i].op).hash@
            ==> !items[j].signature_valid,
    ensures
        ({
            let c1 = committed(c, ingest_all(c, items, from_agent, now));
            let h = items[i].hash@;
            let hh = op_header(items[i].op).hash@;
            &&& c1[INTEGRATED_DHT_OPS as int] == c[INTEGRATED_DHT_OPS as int]
            &&& c1[INTEGRATION_LIMBO as int] == c[INTEGRATION_LIMBO as int]
            &&& c1[VALIDATION_LIMBO as int].contains_key(h) == c[VALIDATION_LIMBO as int].contains_key(h)
            &&& c[VALIDATION_LIMBO as int].contains_key(h) ==> c1[VALIDATION_LIMBO as int][h] == c[VALIDATION_LIMBO as int][h]
            &&& c1[META_PENDING as int].contains_key(h) == c[META_PENDING as int].contains_key(h)
            &&& c[META_PENDING as int].contains_key(h) ==> c1[META_PENDING as int][h] == c[META_PENDING as int][h]
            &&& c1[ELEMENT_PENDING as int].contains_key(hh) == c[ELEMENT_PENDING as int].contains_key(hh)
            &&& c[ELEMENT_PENDING as int].contains_key(hh) ==> c1[ELEMENT_PENDING as int][hh] == c[ELEMENT_PENDING as int][hh]
        }),
{
    lemma_counterfeit_unstaged(c, items, from_agent, now, items[i].hash@, op_header(items[i].op).hash@);
}

/// The highest-observed record never decreases: after observing header `seq`
/// of `author`, the record reads as the larger of what it read before and
/// `seq` (as `seq` alone where there was no readable record).
pub proof fn lemma_highest_observed_monotonic(
    store: Map<Seq<u8>, Seq<u8>>,
    o: Overlay,
    author: Seq<u8>,
    seq: u32,
    hash: Seq<u8>,
)
    ensures
        ({
            let before = read_through(store, o, author);
            let after = read_through(store, observed(store, o, author, seq, hash), author);
            &&& after is Some && after->Some_0.len() >= 4
            &&& seq_of(after->Some_0) == if before is Some && before->Some_0.len() >= 4 && seq <= seq_of(
                before->Some_0,
            ) {
                seq_of(before->Some_0)
            } else {
                seq
            }
            &&& seq <= seq_of(after->Some_0)
            &&& (before is Some && before->Some_0.len() >= 4 ==> seq_of(before->Some_0) <= seq_of(after->Some_0))
        }),
{
    let n = highest_bytes(seq, hash);
    crate::codec::lemma_u32_round_trip(seq);
    assert(n[0] == (seq >> 24u32) as u8 && n[1] == (seq >> 16u32) as u8 && n[2] == (seq >> 8u32) as u8
        && n[3] == seq as u8);
}

} // verus!
