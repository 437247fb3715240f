use boltkv::bytes::{key_cmp, KeyOrder};
use boltkv::errors::Error;
use boltkv::meta::InBucket;
use boltkv::page::Page;
use boltkv::bucket::BucketR;
use boltkv::db::TxStats;

#[test]
fn key_order_is_lexicographic() {
    assert_eq!(key_cmp(b"a", b"b"), KeyOrder::Less);
    assert_eq!(key_cmp(b"b", b"a"), KeyOrder::Greater);
    assert_eq!(key_cmp(b"ab", b"ab"), KeyOrder::Equal);
    assert_eq!(key_cmp(b"a", b"ab"), KeyOrder::Less);
    assert_eq!(key_cmp(b"ab", b"a"), KeyOrder::Greater);
    assert_eq!(key_cmp(b"", b""), KeyOrder::Equal);
    assert_eq!(key_cmp(b"", b"x"), KeyOrder::Less);
}

#[test]
fn page_flags_and_types() {
    let mut p = Page::default();
    assert!(p.is_undefined());
    p.set_branch();
    assert!(p.is_branch());
    assert_eq!(p.page_type(), "branch");
    p.set_leaf();
    assert!(p.is_leaf());
    assert_eq!(p.page_type(), "leaf");
    p.set_meta();
    assert!(p.is_meta());
    assert_eq!(p.page_type(), "meta");
    p.set_free_list();
    assert!(p.is_free_list());
    assert_eq!(p.page_type(), "freelist");
    p.set_undefined();
    assert_eq!(p.page_type(), "unknown");
    p.set_leaf();
    p.id = 9;
    p.fast_check(9);
    // pages compare by id alone
    let q = Page { id: 9, flags: 0, count: 3, overflow: 1 };
    assert!(p == q);
}

#[test]
fn error_equality_ignores_payloads() {
    assert_eq!(Error::FileSizeTooSmall(1), Error::FileSizeTooSmall(2));
    assert_eq!(Error::InvalidDatabase(true), Error::InvalidDatabase(false));
    assert_ne!(Error::KeyRequired, Error::KeyTooLarge);
    // forwarded causes never compare equal
    assert_ne!(Error::IO, Error::IO);
    assert_ne!(Error::Other, Error::Other);
}

#[test]
fn bucket_view_and_stats() {
    let r = BucketR::new(InBucket { root: 7, sequence: 3 });
    assert_eq!(r.bucket_header.root, 7);
    assert_eq!(r.bucket_header.sequence, 3);
    assert!(r.inline_page.is_none());

    let mut a = TxStats::new();
    let mut b = TxStats::new();
    b.page_count = 4;
    b.write = 2;
    a.add_assign(b);
    assert_eq!(a.page_count, 4);
    let d = a.sub(&b);
    assert_eq!(d.page_count, 0);
    assert_eq!(d.write, 0);
}

#[test]
fn cursor_walks_in_order() {
    let mut db = boltkv::db::Bolt::new(4096).unwrap();
    let mut tx = db.begin_rw().unwrap();
    tx.create_bucket(b"b").unwrap();
    let p = vec![b"b".to_vec()];
    tx.put(&p, b"b1", b"1").unwrap();
    tx.put(&p, b"a1", b"0").unwrap();
    tx.put(&p, b"c1", b"2").unwrap();
    tx.commit(&mut db).unwrap();

    let rt = db.begin().unwrap();
    let bucket = rt.root.bucket(b"b").unwrap();
    let mut c = boltkv::cursor::Cursor::new(bucket);
    let (k, v, f) = c.first().unwrap();
    assert_eq!((k.as_slice(), v.as_slice(), f), (&b"a1"[..], &b"0"[..], 0));
    let (k, _, _) = c.next().unwrap();
    assert_eq!(k, b"b1".to_vec());
    let (k, _, _) = c.next().unwrap();
    assert_eq!(k, b"c1".to_vec());
    assert!(c.next().is_none());
    let (k, _, _) = c.last().unwrap();
    assert_eq!(k, b"c1".to_vec());
    let (k, _, _) = c.prev().unwrap();
    assert_eq!(k, b"b1".to_vec());
    // seek lands on the first key at or after the target
    let (k, v, _) = c.seek(b"b0").unwrap();
    assert_eq!((k, v), (b"b1".to_vec(), b"1".to_vec()));
    assert!(c.seek(b"zz").is_none());
    // key/value listing matches the in-order walk
    let kv = bucket.for_each_kv();
    assert_eq!(kv.len(), 3);
    assert_eq!(kv[0], (b"a1".to_vec(), b"0".to_vec()));
    assert_eq!(kv[2], (b"c1".to_vec(), b"2".to_vec()));
    rt.rollback(&mut db).unwrap();
}
