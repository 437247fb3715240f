use boltkv::bucket::max_inline_bucket_size;
use boltkv::db::Bolt;
use boltkv::errors::Error;

fn path(name: &[u8]) -> Vec<Vec<u8>> {
    vec![name.to_vec()]
}

#[test]
fn fresh_database_is_empty() {
    let mut db = Bolt::new(4096).unwrap();
    let m = db.meta().unwrap();
    assert_eq!(m.txid, 1);
    assert_eq!(m.root.root, 3);
    assert_eq!(m.pgid, 4);
    let tx = db.begin().unwrap();
    assert_eq!(tx.get(&path(b"widgets"), b"k1"), None);
    assert_eq!(tx.get(&[], b"anything"), None);
    tx.rollback(&mut db).unwrap();
}

#[test]
fn put_commit_reopen_roundtrip() {
    let mut db = Bolt::new(4096).unwrap();
    let mut tx = db.begin_rw().unwrap();
    tx.create_bucket(b"widgets").unwrap();
    tx.put(&path(b"widgets"), b"k1", b"v1").unwrap();
    tx.commit(&mut db).unwrap();

    // the same database value answers
    let rt = db.begin().unwrap();
    assert_eq!(rt.get(&path(b"widgets"), b"k1").unwrap(), b"v1".to_vec());
    rt.rollback(&mut db).unwrap();

    // a database reopened from the file bytes answers the same
    let db2 = Bolt::open(db.image.clone()).unwrap();
    let mut db2 = db2;
    let rt2 = db2.begin().unwrap();
    assert_eq!(rt2.get(&path(b"widgets"), b"k1").unwrap(), b"v1".to_vec());
    rt2.rollback(&mut db2).unwrap();
}

#[test]
fn many_keys_across_two_transactions() {
    let mut db = Bolt::new(4096).unwrap();
    let mut tx = db.begin_rw().unwrap();
    tx.create_bucket(b"widgets").unwrap();
    let v = [7u8; 100];
    for i in 0..500u32 {
        tx.put(&path(b"widgets"), &i.to_be_bytes(), &v).unwrap();
    }
    tx.commit(&mut db).unwrap();
    let mut tx = db.begin_rw().unwrap();
    for i in 500..1000u32 {
        tx.put(&path(b"widgets"), &i.to_be_bytes(), &v).unwrap();
    }
    tx.commit(&mut db).unwrap();

    let mut db = Bolt::open(db.image.clone()).unwrap();
    let rt = db.begin().unwrap();
    for i in 0..1000u32 {
        assert_eq!(rt.get(&path(b"widgets"), &i.to_be_bytes()).unwrap(), v.to_vec());
    }
    assert_eq!(rt.get(&path(b"widgets"), b"missing"), None);
    rt.rollback(&mut db).unwrap();
}

#[test]
fn create_bucket_twice_fails() {
    let mut db = Bolt::new(4096).unwrap();
    let mut tx = db.begin_rw().unwrap();
    tx.create_bucket(b"a").unwrap();
    assert_eq!(tx.create_bucket(b"a").unwrap_err(), Error::BucketExists);
    tx.create_bucket_if_not_exists(b"a").unwrap();
    assert_eq!(tx.create_bucket(b"").unwrap_err(), Error::BucketNameRequired);
    tx.commit(&mut db).unwrap();
}

#[test]
fn bucket_key_incompatibilities() {
    let mut db = Bolt::new(4096).unwrap();
    let mut tx = db.begin_rw().unwrap();
    tx.create_bucket(b"a").unwrap();
    // writing a plain value over a bucket name is refused
    assert_eq!(tx.put(&[], b"a", b"x").unwrap_err(), Error::IncompatibleValue);
    // deleting a bucket name as a plain key is refused
    assert_eq!(tx.delete(&[], b"a").unwrap_err(), Error::IncompatibleValue);
    // deleting the bucket itself works and removes the key
    tx.delete_bucket(b"a").unwrap();
    assert_eq!(tx.delete_bucket(b"a").unwrap_err(), Error::BucketNotFound);
    tx.commit(&mut db).unwrap();
    let rt = db.begin().unwrap();
    assert!(rt.root.bucket(b"a").is_none());
    rt.rollback(&mut db).unwrap();
}

#[test]
fn key_size_boundaries() {
    let mut db = Bolt::new(4096).unwrap();
    let mut tx = db.begin_rw().unwrap();
    tx.create_bucket(b"b").unwrap();
    assert_eq!(tx.put(&path(b"b"), b"", b"v").unwrap_err(), Error::KeyRequired);
    let key_ok = vec![1u8; 32768];
    tx.put(&path(b"b"), &key_ok, b"v").unwrap();
    let key_big = vec![1u8; 32769];
    assert_eq!(tx.put(&path(b"b"), &key_big, b"v").unwrap_err(), Error::KeyTooLarge);
    tx.commit(&mut db).unwrap();
    let rt = db.begin().unwrap();
    assert_eq!(rt.get(&path(b"b"), &key_ok).unwrap(), b"v".to_vec());
    rt.rollback(&mut db).unwrap();
}

#[test]
fn put_is_idempotent() {
    let mut db1 = Bolt::new(4096).unwrap();
    let mut tx = db1.begin_rw().unwrap();
    tx.create_bucket(b"b").unwrap();
    tx.put(&path(b"b"), b"k", b"v").unwrap();
    tx.put(&path(b"b"), b"k", b"v").unwrap();
    tx.commit(&mut db1).unwrap();

    let mut db2 = Bolt::new(4096).unwrap();
    let mut tx = db2.begin_rw().unwrap();
    tx.create_bucket(b"b").unwrap();
    tx.put(&path(b"b"), b"k", b"v").unwrap();
    tx.commit(&mut db2).unwrap();

    let r1 = db1.begin().unwrap();
    let r2 = db2.begin().unwrap();
    assert_eq!(r1.get(&path(b"b"), b"k"), r2.get(&path(b"b"), b"k"));
    r1.rollback(&mut db1).unwrap();
    r2.rollback(&mut db2).unwrap();
}

#[test]
fn rollback_leaves_database_identical() {
    let mut db = Bolt::new(4096).unwrap();
    let mut tx = db.begin_rw().unwrap();
    tx.create_bucket(b"b").unwrap();
    tx.put(&path(b"b"), b"k", b"v").unwrap();
    tx.commit(&mut db).unwrap();

    let before = db.image.clone();
    let mut tx = db.begin_rw().unwrap();
    tx.put(&path(b"b"), b"k2", b"v2").unwrap();
    tx.delete(&path(b"b"), b"k").unwrap();
    tx.rollback().unwrap();
    assert_eq!(db.image, before);

    let rt = db.begin().unwrap();
    assert_eq!(rt.get(&path(b"b"), b"k").unwrap(), b"v".to_vec());
    assert_eq!(rt.get(&path(b"b"), b"k2"), None);
    rt.rollback(&mut db).unwrap();
}

#[test]
fn reader_isolation_across_commit() {
    let mut db = Bolt::new(4096).unwrap();
    let mut tx = db.begin_rw().unwrap();
    tx.create_bucket(b"b").unwrap();
    tx.commit(&mut db).unwrap();

    let r1 = db.begin().unwrap();
    let mut w = db.begin_rw().unwrap();
    w.put(&path(b"b"), b"k2", b"v2").unwrap();
    w.commit(&mut db).unwrap();
    // the old reader still sees its snapshot
    assert_eq!(r1.get(&path(b"b"), b"k2"), None);
    // a new reader sees the commit
    let r3 = db.begin().unwrap();
    assert_eq!(r3.get(&path(b"b"), b"k2").unwrap(), b"v2".to_vec());
    r3.rollback(&mut db).unwrap();
    r1.rollback(&mut db).unwrap();
}

#[test]
fn inline_bucket_boundary() {
    // quarter page is 1024 at this page size; one leaf entry of total size
    // 16 + 16 + 1 + 991 == 1024 sits exactly at the limit
    let mut db = Bolt::new(4096).unwrap();
    assert_eq!(max_inline_bucket_size(4096), 1024);
    let mut tx = db.begin_rw().unwrap();
    tx.create_bucket(b"small").unwrap();
    tx.put(&path(b"small"), b"a", &vec![9u8; 991]).unwrap();
    tx.create_bucket(b"big").unwrap();
    tx.put(&path(b"big"), b"a", &vec![9u8; 992]).unwrap();
    tx.commit(&mut db).unwrap();

    let mut db = Bolt::open(db.image.clone()).unwrap();
    let rt = db.begin().unwrap();
    // at exactly a quarter page the bucket stays inline (root page id 0)
    assert_eq!(rt.root.bucket(b"small").unwrap().root(), 0);
    // one byte more promotes it to its own subtree
    assert_ne!(rt.root.bucket(b"big").unwrap().root(), 0);
    assert_eq!(rt.get(&path(b"small"), b"a").unwrap(), vec![9u8; 991]);
    assert_eq!(rt.get(&path(b"big"), b"a").unwrap(), vec![9u8; 992]);
    rt.rollback(&mut db).unwrap();
}

#[test]
fn root_collapses_after_deletes() {
    let mut db = Bolt::new(4096).unwrap();
    let mut tx = db.begin_rw().unwrap();
    tx.create_bucket(b"b").unwrap();
    let v = [3u8; 200];
    for i in 0..200u32 {
        tx.put(&path(b"b"), &i.to_be_bytes(), &v).unwrap();
    }
    tx.commit(&mut db).unwrap();
    // the bucket needed a branch root for 200 wide values
    let rt = db.begin().unwrap();
    let root_big = rt.root.bucket(b"b").unwrap().root();
    rt.rollback(&mut db).unwrap();
    let info = db.page(root_big).unwrap().unwrap();
    assert_eq!(info.t, "branch");
    // delete most entries; the rewritten tree is a single leaf again
    let mut tx = db.begin_rw().unwrap();
    for i in 10..200u32 {
        tx.delete(&path(b"b"), &i.to_be_bytes()).unwrap();
    }
    tx.commit(&mut db).unwrap();
    let rt = db.begin().unwrap();
    let root_small = rt.root.bucket(b"b").unwrap().root();
    rt.rollback(&mut db).unwrap();
    let info = db.page(root_small).unwrap().unwrap();
    assert_eq!(info.t, "leaf");
    // and a bucket shrunk to one tiny entry moves all the way back inline
    let mut tx = db.begin_rw().unwrap();
    for i in 1..10u32 {
        tx.delete(&path(b"b"), &i.to_be_bytes()).unwrap();
    }
    tx.commit(&mut db).unwrap();
    let rt = db.begin().unwrap();
    assert_eq!(rt.root.bucket(b"b").unwrap().root(), 0);
    assert_eq!(rt.get(&path(b"b"), &0u32.to_be_bytes()).unwrap(), v.to_vec());
    rt.rollback(&mut db).unwrap();
}

#[test]
fn sequences_and_iteration() {
    let mut db = Bolt::new(4096).unwrap();
    let mut tx = db.begin_rw().unwrap();
    tx.create_bucket(b"b").unwrap();
    tx.create_bucket(b"c").unwrap();
    tx.put(&path(b"b"), b"x", b"1").unwrap();
    tx.put(&path(b"b"), b"y", b"2").unwrap();
    let s1 = tx
        .apply(&path(b"b"), boltkv::bucket::BucketOp::NextSequence)
        .unwrap();
    let s2 = tx
        .apply(&path(b"b"), boltkv::bucket::BucketOp::NextSequence)
        .unwrap();
    assert_eq!(s1, 1);
    assert_eq!(s2, 2);
    tx.apply(&path(b"b"), boltkv::bucket::BucketOp::SetSequence(42))
        .unwrap();
    tx.commit(&mut db).unwrap();

    let mut db = Bolt::open(db.image.clone()).unwrap();
    let rt = db.begin().unwrap();
    assert_eq!(rt.root.bucket(b"b").unwrap().sequence(), 42);
    let names = rt.root.for_each_bucket();
    assert_eq!(names, vec![b"b".to_vec(), b"c".to_vec()]);
    let keys = rt.root.bucket(b"b").unwrap().for_each();
    assert_eq!(keys, vec![b"x".to_vec(), b"y".to_vec()]);
    rt.rollback(&mut db).unwrap();
}

#[test]
fn nested_buckets() {
    let mut db = Bolt::new(4096).unwrap();
    let mut tx = db.begin_rw().unwrap();
    tx.create_bucket(b"outer").unwrap();
    tx.apply(&path(b"outer"), boltkv::bucket::BucketOp::CreateBucket(b"inner".to_vec()))
        .unwrap();
    let nested = vec![b"outer".to_vec(), b"inner".to_vec()];
    tx.put(&nested, b"k", b"deep").unwrap();
    tx.commit(&mut db).unwrap();

    let mut db = Bolt::open(db.image.clone()).unwrap();
    let rt = db.begin().unwrap();
    let nested = vec![b"outer".to_vec(), b"inner".to_vec()];
    assert_eq!(rt.get(&nested, b"k").unwrap(), b"deep".to_vec());
    rt.rollback(&mut db).unwrap();
}
