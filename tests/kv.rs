use dht_staging::env::{Env, StorageError};
use dht_staging::fixt::V;
use dht_staging::kvbuf::KvBuf;
use dht_staging::lex::{bytes_eq, lex_less};

fn test_buf(a: &[(Vec<u8>, Vec<u8>)], b: &[(&'static str, u32)]) {
    assert_eq!(a.len(), b.len());
    for (k, v) in b {
        let val = a
            .iter()
            .find(|(key, _)| key.as_slice() == k.as_bytes())
            .map(|(_, val)| val.clone())
            .expect("Missing key");
        assert_eq!(V::from_bytes(&val), Some(V(*v)));
    }
}

fn commit(env: &mut Env, buf: KvBuf) -> Result<(), StorageError> {
    let mut txn = env.begin();
    buf.flush_to_txn(&mut txn)?;
    env.commit(txn);
    Ok(())
}

#[test]
fn kvbuf_scratch_and_persistence() {
    // both buffers are opened on the partition named "kv1"
    let mut env = Env::new(1);
    let db1: usize = 0;
    let db2: usize = 0;

    let testval = b"Joe".to_vec();
    let reader = env.reader();

    let mut kv1 = KvBuf::new(db1);
    let mut kv2 = KvBuf::new(db2);

    let mut txn = env.begin();
    kv1.put(b"hi".to_vec(), testval.clone());
    kv2.put(b"salutations".to_vec(), b"folks".to_vec());
    // Check that the underlying store contains no changes yet
    assert_eq!(reader.table(db1).get(b"hi"), None);
    assert_eq!(reader.table(db2).get(b"salutations"), None);

    // Check that the values are available due to the scratch space
    assert_eq!(kv1.get(&reader, b"hi"), Some(testval.clone()));
    assert_eq!(kv2.get(&reader, b"salutations"), Some(b"folks".to_vec()));

    kv1.flush_to_txn(&mut txn).unwrap();
    env.commit(txn);

    assert_eq!(kv2.scratch_len(), 1);

    // Ensure that mid-transaction, there has still been no persistence,
    // just for kicks
    let mut txn = env.begin();
    let kv1a = KvBuf::new(db1);
    assert_eq!(reader.table(kv1a.partition_id()).get(b"hi"), None);
    kv2.flush_to_txn(&mut txn).unwrap();
    env.commit(txn);

    // Now open a fresh reader to see that our data was persisted
    let reader = env.reader();
    let kv1b = KvBuf::new(db1);
    let kv2b = KvBuf::new(db2);
    assert_eq!(reader.table(kv1b.partition_id()).get(b"hi"), Some(testval));
    assert_eq!(reader.table(kv2b.partition_id()).get(b"salutations"), Some(b"folks".to_vec()));
}

#[test]
fn scratch_shadows_store() {
    let mut env = Env::new(1);
    let mut buf = KvBuf::new(0);
    buf.put(b"k".to_vec(), b"stored".to_vec());
    commit(&mut env, buf).unwrap();

    let mut buf = KvBuf::new(0);
    buf.put(b"k".to_vec(), b"pending".to_vec());
    assert_eq!(buf.get(&env, b"k"), Some(b"pending".to_vec()));
    assert_eq!(env.table(0).get(b"k"), Some(b"stored".to_vec()));
    assert!(buf.contains(&env, b"k"));
    assert!(!buf.contains(&env, b"other"));
}

#[test]
fn tombstone_masks_store() {
    let mut env = Env::new(1);
    let mut buf = KvBuf::new(0);
    buf.put(b"k".to_vec(), b"v".to_vec());
    commit(&mut env, buf).unwrap();
    assert!(env.table(0).contains(b"k"));

    let mut buf = KvBuf::new(0);
    buf.delete(b"k".to_vec());
    assert_eq!(buf.get(&env, b"k"), None);
    assert!(env.table(0).contains(b"k"));
    commit(&mut env, buf).unwrap();
    assert_eq!(env.table(0).get(b"k"), None);
    assert_eq!(KvBuf::new(0).get(&env, b"k"), None);
}

#[test]
fn put_delete_put_reads_latest() {
    let env = Env::new(1);
    let mut buf = KvBuf::new(0);
    buf.put(b"k".to_vec(), b"one".to_vec());
    buf.put(b"k".to_vec(), b"two".to_vec());
    assert_eq!(buf.get(&env, b"k"), Some(b"two".to_vec()));
    buf.delete(b"k".to_vec());
    assert_eq!(buf.get(&env, b"k"), None);
    buf.put(b"k".to_vec(), b"three".to_vec());
    assert_eq!(buf.get(&env, b"k"), Some(b"three".to_vec()));
    assert_eq!(buf.scratch_len(), 1);
}

#[test]
fn failed_flush_applies_nothing() {
    let mut env = Env::new(1);
    let mut buf = KvBuf::new(0);
    buf.put(b"a".to_vec(), b"1".to_vec());
    commit(&mut env, buf).unwrap();
    env.set_writable(0, false);

    let mut buf = KvBuf::new(0);
    buf.put(b"b".to_vec(), b"2".to_vec());
    buf.delete(b"a".to_vec());
    let mut txn = env.begin();
    assert_eq!(buf.flush_to_txn(&mut txn), Err(StorageError::ReadOnly));
    env.commit(txn);
    assert_eq!(env.table(0).get(b"a"), Some(b"1".to_vec()));
    assert_eq!(env.table(0).get(b"b"), None);
    assert_eq!(env.table(0).len(), 1);
}

#[test]
fn flush_without_changes_succeeds() {
    let mut env = Env::new(1);
    env.set_writable(0, false);
    let buf = KvBuf::new(0);
    assert_eq!(commit(&mut env, buf), Ok(()));
    assert_eq!(env.table(0).len(), 0);
}

#[test]
fn iteration_merges_scratch_and_store_in_key_order() {
    let mut env = Env::new(1);
    let mut buf = KvBuf::new(0);
    buf.put(b"b".to_vec(), V(2).to_bytes());
    buf.put(b"d".to_vec(), V(4).to_bytes());
    buf.put(b"a".to_vec(), V(1).to_bytes());
    commit(&mut env, buf).unwrap();

    let mut buf = KvBuf::new(0);
    buf.put(b"c".to_vec(), V(3).to_bytes());
    buf.put(b"d".to_vec(), V(40).to_bytes());
    buf.delete(b"a".to_vec());
    buf.put(b"e".to_vec(), V(5).to_bytes());

    let forward = buf.iter_raw(&env);
    let keys: Vec<Vec<u8>> = forward.iter().map(|(k, _)| k.clone()).collect();
    assert_eq!(keys, vec![b"b".to_vec(), b"c".to_vec(), b"d".to_vec(), b"e".to_vec()]);
    test_buf(&forward, &[("b", 2), ("c", 3), ("d", 40), ("e", 5)]);

    let reverse = buf.iter_raw_reverse(&env);
    let keys: Vec<Vec<u8>> = reverse.iter().map(|(k, _)| k.clone()).collect();
    assert_eq!(keys, vec![b"e".to_vec(), b"d".to_vec(), b"c".to_vec(), b"b".to_vec()]);
    test_buf(&reverse, &[("b", 2), ("c", 3), ("d", 40), ("e", 5)]);

    // the partition itself is unchanged until a flush
    test_buf(&env.table(0).entries_ascending(), &[("a", 1), ("b", 2), ("d", 4)]);
}

#[test]
fn empty_iterators() {
    let env = Env::new(1);
    let buf = KvBuf::new(0);
    assert_eq!(buf.iter_raw(&env), vec![]);
    assert_eq!(buf.iter_raw_reverse(&env), vec![]);
}

#[test]
fn keys_order_bytewise() {
    assert!(lex_less(b"ab", b"b"));
    assert!(lex_less(b"a", b"ab"));
    assert!(lex_less(b"", b"a"));
    assert!(!lex_less(b"ab", b"ab"));
    assert!(!lex_less(b"b", b"ab"));
    assert!(lex_less(&[1, 255], &[2]));
    assert!(bytes_eq(b"ab", b"ab"));
    assert!(!bytes_eq(b"ab", b"abc"));
    assert!(!bytes_eq(b"ab", b"ac"));
}

#[test]
fn read_snapshot_ignores_later_commits() {
    let mut env = Env::new(2);
    let reader = env.reader();
    let mut buf = KvBuf::new(1);
    buf.put(b"x".to_vec(), b"y".to_vec());
    commit(&mut env, buf).unwrap();
    assert_eq!(reader.table(1).get(b"x"), None);
    assert_eq!(env.table(1).get(b"x"), Some(b"y".to_vec()));
    assert_eq!(env.len(), 2);
}
