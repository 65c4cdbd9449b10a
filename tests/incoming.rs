use dht_staging::dht_op::{DhtOp, Header, HighestObserved};
use dht_staging::env::{Env, StorageError};
use dht_staging::incoming::{
    incoming_dht_ops_workflow, IncomingDhtOpsWorkspace, IncomingOp, ELEMENT_PENDING,
    INTEGRATED_DHT_OPS, INTEGRATION_LIMBO, META_INTEGRATED, META_PENDING, PARTITIONS,
    VALIDATION_LIMBO,
};
use dht_staging::kvbuf::KvBuf;
use dht_staging::limbo::ValidationLimboValue;

fn header(author: &[u8], hash: &[u8], seq: u32) -> Header {
    Header {
        author: author.to_vec(),
        hash: hash.to_vec(),
        timestamp: 1_000,
        header_seq: seq,
        prev_header: None,
    }
}

fn element_op(hash: &[u8]) -> DhtOp {
    DhtOp::StoreElement {
        signature: vec![9, 9],
        header: header(b"alice", hash, 1),
        entry: Some(b"entry".to_vec()),
    }
}

fn activity_op(author: &[u8], hash: &[u8], seq: u32) -> DhtOp {
    DhtOp::RegisterAgentActivity {
        signature: vec![1],
        header: header(author, hash, seq),
    }
}

fn incoming(hash: &[u8], op: DhtOp, signature_valid: bool) -> IncomingOp {
    IncomingOp {
        hash: hash.to_vec(),
        op,
        signature_valid,
    }
}

fn all_entries(env: &Env) -> Vec<Vec<(Vec<u8>, Vec<u8>)>> {
    (0..env.len()).map(|p| env.table(p).entries_ascending()).collect()
}

fn highest(env: &Env, author: &[u8]) -> u32 {
    let bytes = env.table(META_INTEGRATED).get(author).unwrap();
    HighestObserved::from_bytes(&bytes).unwrap().header_seq
}

#[test]
fn accepted_op_is_staged_everywhere() {
    let mut env = Env::new(PARTITIONS);
    let op = element_op(b"h1");
    let expected_element = op.element_bytes();
    let expected_light = op.to_light().to_bytes();
    let expected_record =
        ValidationLimboValue::pending(op.to_light(), op.dht_basis(), 42, Some(b"bob".to_vec()))
            .to_bytes();
    let r = incoming_dht_ops_workflow(
        &mut env,
        vec![incoming(b"op1", op, true)],
        Some(b"bob".to_vec()),
        42,
    );
    assert_eq!(r, Ok(()));
    assert_eq!(env.table(VALIDATION_LIMBO).get(b"op1"), Some(expected_record));
    assert_eq!(env.table(ELEMENT_PENDING).get(b"h1"), Some(expected_element));
    assert_eq!(env.table(META_PENDING).get(b"op1"), Some(expected_light));
    assert_eq!(env.table(INTEGRATED_DHT_OPS).len(), 0);
    assert_eq!(env.table(INTEGRATION_LIMBO).len(), 0);
}

#[test]
fn pending_record_layout() {
    let op = element_op(b"h");
    let light = op.to_light();
    assert_eq!(light.to_bytes(), vec![0, 0, 0, 0, 0, 0, 0, 0, 1, b'h', 0, 0, 0, 0, 0, 0, 0, 1, b'h']);
    let v = ValidationLimboValue::pending(light, b"h".to_vec(), 5, None);
    let mut expected = vec![0u8];
    expected.extend_from_slice(&[0, 0, 0, 0, 0, 0, 0, 0, 1, b'h', 0, 0, 0, 0, 0, 0, 0, 1, b'h']);
    expected.extend_from_slice(&[0, 0, 0, 0, 0, 0, 0, 1, b'h']);
    expected.extend_from_slice(&[0, 0, 0, 0, 0, 0, 0, 5]);
    expected.push(0);
    expected.extend_from_slice(&[0, 0, 0, 0]);
    expected.push(0);
    assert_eq!(v.to_bytes(), expected);
}

#[test]
fn basis_depends_on_kind() {
    assert_eq!(element_op(b"hh").dht_basis(), b"hh".to_vec());
    assert_eq!(activity_op(b"carol", b"hh", 3).dht_basis(), b"carol".to_vec());
    let entry_op = DhtOp::StoreEntry {
        signature: vec![],
        header: header(b"a", b"hh", 0),
        entry: b"e".to_vec(),
        entry_hash: b"eh".to_vec(),
    };
    assert_eq!(entry_op.dht_basis(), b"eh".to_vec());
}

#[test]
fn same_op_twice_in_one_batch_gives_one_record() {
    let mut env = Env::new(PARTITIONS);
    let r = incoming_dht_ops_workflow(
        &mut env,
        vec![
            incoming(b"op1", element_op(b"h1"), true),
            incoming(b"op1", element_op(b"h1"), true),
        ],
        None,
        1,
    );
    assert_eq!(r, Ok(()));
    assert_eq!(env.table(VALIDATION_LIMBO).len(), 1);
}

#[test]
fn ingesting_a_batch_again_changes_nothing() {
    let mut env = Env::new(PARTITIONS);
    let batch = || {
        vec![
            incoming(b"op1", element_op(b"h1"), true),
            incoming(b"op2", activity_op(b"alice", b"h2", 4), true),
            incoming(b"op3", element_op(b"h3"), false),
        ]
    };
    incoming_dht_ops_workflow(&mut env, batch(), None, 1).unwrap();
    let after_first = all_entries(&env);
    assert_eq!(env.table(VALIDATION_LIMBO).len(), 2);
    incoming_dht_ops_workflow(&mut env, batch(), None, 2).unwrap();
    assert_eq!(all_entries(&env), after_first);
    assert_eq!(env.table(VALIDATION_LIMBO).len(), 2);
}

#[test]
fn counterfeit_op_is_never_stored() {
    let mut env = Env::new(PARTITIONS);
    let r = incoming_dht_ops_workflow(
        &mut env,
        vec![incoming(b"bad", activity_op(b"mallory", b"hb", 7), false)],
        None,
        1,
    );
    assert_eq!(r, Ok(()));
    for p in 0..PARTITIONS {
        assert_eq!(env.table(p).len(), 0);
    }
}

#[test]
fn highest_observed_never_decreases() {
    let mut env = Env::new(PARTITIONS);
    let seqs: [u32; 4] = [5, 2, 9, 3];
    let expected: [u32; 4] = [5, 5, 9, 9];
    for (i, seq) in seqs.iter().enumerate() {
        let hash = vec![b'h', i as u8];
        let op_hash = vec![b'o', i as u8];
        incoming_dht_ops_workflow(
            &mut env,
            vec![incoming(&op_hash, activity_op(b"alice", &hash, *seq), true)],
            None,
            1,
        )
        .unwrap();
        assert_eq!(highest(&env, b"alice"), expected[i]);
    }
}

#[test]
fn highest_observed_within_one_batch() {
    let mut env = Env::new(PARTITIONS);
    incoming_dht_ops_workflow(
        &mut env,
        vec![
            incoming(b"o1", activity_op(b"alice", b"h1", 5), true),
            incoming(b"o2", activity_op(b"alice", b"h2", 2), true),
            incoming(b"o3", activity_op(b"alice", b"h3", 9), true),
            incoming(b"o4", activity_op(b"alice", b"h4", 3), true),
        ],
        None,
        1,
    )
    .unwrap();
    let rec = HighestObserved::from_bytes(&env.table(META_INTEGRATED).get(b"alice").unwrap()).unwrap();
    assert_eq!(rec.header_seq, 9);
    assert_eq!(rec.hash, b"h3".to_vec());
}

#[test]
fn op_held_downstream_is_not_staged_again() {
    let mut env = Env::new(PARTITIONS);
    for p in [INTEGRATED_DHT_OPS, INTEGRATION_LIMBO] {
        let mut buf = KvBuf::new(p);
        buf.put(vec![b'd', p as u8], b"held".to_vec());
        let mut txn = env.begin();
        buf.flush_to_txn(&mut txn).unwrap();
        env.commit(txn);
    }
    let r = incoming_dht_ops_workflow(
        &mut env,
        vec![
            incoming(&[b'd', INTEGRATED_DHT_OPS as u8], element_op(b"x"), true),
            incoming(&[b'd', INTEGRATION_LIMBO as u8], element_op(b"y"), true),
            incoming(b"fresh", element_op(b"z"), true),
        ],
        None,
        1,
    );
    assert_eq!(r, Ok(()));
    assert_eq!(env.table(VALIDATION_LIMBO).len(), 1);
    assert!(env.table(VALIDATION_LIMBO).contains(b"fresh"));
    assert_eq!(env.table(ELEMENT_PENDING).len(), 1);
    for key in [[b'd', INTEGRATED_DHT_OPS as u8], [b'd', INTEGRATION_LIMBO as u8]] {
        let n = [INTEGRATED_DHT_OPS, INTEGRATION_LIMBO, VALIDATION_LIMBO]
            .iter()
            .filter(|p| env.table(**p).contains(&key))
            .count();
        assert_eq!(n, 1);
    }
}

#[test]
fn workspace_commit_is_atomic() {
    let mut env = Env::new(PARTITIONS);
    env.set_writable(META_PENDING, false);
    let before = all_entries(&env);
    let r = incoming_dht_ops_workflow(
        &mut env,
        vec![
            incoming(b"op1", element_op(b"h1"), true),
            incoming(b"op2", element_op(b"h2"), true),
        ],
        None,
        1,
    );
    assert_eq!(r, Err(StorageError::ReadOnly));
    assert_eq!(env.table(ELEMENT_PENDING).get(b"h1"), None);
    assert_eq!(env.table(ELEMENT_PENDING).get(b"h2"), None);
    assert_eq!(env.table(VALIDATION_LIMBO).len(), 0);
    assert_eq!(all_entries(&env), before);
}

#[test]
fn workspace_staging_then_failed_commit() {
    let mut env = Env::new(PARTITIONS);
    let mut ws = IncomingDhtOpsWorkspace::new(&env).unwrap();
    let op = element_op(b"h1");
    assert!(!ws.op_exists(&env, b"op1"));
    ws.add_to_pending(&env, b"op1".to_vec(), &op, None, 3);
    assert!(ws.op_exists(&env, b"op1"));
    assert_eq!(ws.element_pending.get(&env, b"h1"), Some(op.element_bytes()));
    env.set_writable(META_PENDING, false);
    assert_eq!(ws.commit(&mut env), Err(StorageError::ReadOnly));
    assert_eq!(env.table(ELEMENT_PENDING).len(), 0);
    assert_eq!(env.table(VALIDATION_LIMBO).len(), 0);
}

#[test]
fn workspace_reads_activity_through_scratch() {
    let env = Env::new(PARTITIONS);
    let mut ws = IncomingDhtOpsWorkspace::new(&env).unwrap();
    assert!(ws.highest_observed(&env, b"alice").is_none());
    ws.register_activity_observed(&env, b"alice".to_vec(), 4, b"h4".to_vec());
    ws.register_activity_observed(&env, b"alice".to_vec(), 4, b"other".to_vec());
    let rec = ws.highest_observed(&env, b"alice").unwrap();
    assert_eq!(rec.header_seq, 4);
    assert_eq!(rec.hash, b"h4".to_vec());
}

#[test]
fn missing_partitions_are_an_error() {
    let mut env = Env::new(PARTITIONS - 1);
    assert!(matches!(
        IncomingDhtOpsWorkspace::new(&env),
        Err(StorageError::MissingPartition)
    ));
    let r = incoming_dht_ops_workflow(&mut env, vec![incoming(b"o", element_op(b"h"), true)], None, 1);
    assert_eq!(r, Err(StorageError::MissingPartition));
    assert_eq!(env.table(0).len(), 0);
}

#[test]
fn highest_observed_bytes_round_trip() {
    let rec = HighestObserved { header_seq: 0x0a0b0c0d, hash: b"hh".to_vec() };
    let bytes = rec.to_bytes();
    assert_eq!(bytes, vec![0x0a, 0x0b, 0x0c, 0x0d, b'h', b'h']);
    let back = HighestObserved::from_bytes(&bytes).unwrap();
    assert_eq!(back.header_seq, 0x0a0b0c0d);
    assert_eq!(back.hash, b"hh".to_vec());
    assert!(HighestObserved::from_bytes(&[1, 2, 3]).is_none());
}
