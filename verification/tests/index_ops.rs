use ailurus_kv::data::log_record::LogRecordPos;
use ailurus_kv::index::btree::BTree;
use ailurus_kv::options::IteratorOptions;

fn pos(file_id: u32, offset: u64) -> LogRecordPos {
    LogRecordPos { file_id, offset }
}

#[test]
fn put() {
    let mut b = BTree::new();
    assert!(b.put("".as_bytes().to_vec(), pos(42, 42)));
    assert!(b.put("".as_bytes().to_vec(), pos(1024, 1024)));
}

#[test]
fn get() {
    let mut b = BTree::new();
    assert!(b.put("42".as_bytes().to_vec(), pos(42, 42)));
    assert!(b.put("1024".as_bytes().to_vec(), pos(1024, 1024)));

    assert_eq!(b.get("42".as_bytes().to_vec()).unwrap(), pos(42, 42));
    assert_eq!(b.get("1024".as_bytes().to_vec()).unwrap(), pos(1024, 1024));
    assert_eq!(b.get("".as_bytes().to_vec()), None);
}

#[test]
fn delete() {
    let mut b = BTree::new();
    assert!(b.put("42".as_bytes().to_vec(), pos(42, 42)));
    assert!(b.put("1024".as_bytes().to_vec(), pos(1024, 1024)));

    b.delete("42".as_bytes().to_vec());
    assert_eq!(b.get("42".as_bytes().to_vec()), None);

    assert_eq!(b.get("1024".as_bytes().to_vec()).unwrap(), pos(1024, 1024));

    b.delete("1024".as_bytes().to_vec());
    assert_eq!(b.get("1024".as_bytes().to_vec()), None);
}

#[test]
fn seek_when_empty() {
    let bt = BTree::new();
    let mut iter = bt.iterator(IteratorOptions::default());
    assert_eq!(iter.next(), None);
}

#[test]
fn seek_larger_than() {
    let mut bt = BTree::new();
    bt.put("a".as_bytes().to_vec(), pos(0, 0));
    bt.put("c".as_bytes().to_vec(), pos(0, 0));
    let mut iter = bt.iterator(IteratorOptions::default());
    iter.seek("b".as_bytes().to_vec());
    assert_eq!(iter.next().unwrap().0, "c".as_bytes().to_vec());
}

#[test]
fn seek_equal() {
    let mut bt = BTree::new();
    bt.put("a".as_bytes().to_vec(), pos(0, 0));
    bt.put("b".as_bytes().to_vec(), pos(0, 0));
    bt.put("c".as_bytes().to_vec(), pos(0, 0));
    let mut iter = bt.iterator(IteratorOptions::default());
    iter.seek("b".as_bytes().to_vec());
    assert_eq!(iter.next().unwrap().0, "b".as_bytes().to_vec());
    assert_eq!(iter.next().unwrap().0, "c".as_bytes().to_vec());
}

#[test]
fn seek_larger_than_reverse() {
    let mut bt = BTree::new();
    bt.put("a".as_bytes().to_vec(), pos(0, 0));
    bt.put("c".as_bytes().to_vec(), pos(0, 0));
    let mut iter = bt.iterator(IteratorOptions { reverse: true });
    iter.seek("b".as_bytes().to_vec());
    assert_eq!(iter.next().unwrap().0, "a".as_bytes().to_vec());
}

#[test]
fn seek_equal_reverse() {
    let mut bt = BTree::new();
    bt.put("a".as_bytes().to_vec(), pos(0, 0));
    bt.put("b".as_bytes().to_vec(), pos(0, 0));
    bt.put("c".as_bytes().to_vec(), pos(0, 0));
    let mut iter = bt.iterator(IteratorOptions { reverse: true });
    iter.seek("b".as_bytes().to_vec());
    assert_eq!(iter.next().unwrap().0, "b".as_bytes().to_vec());
    assert_eq!(iter.next().unwrap().0, "a".as_bytes().to_vec());
}

#[test]
fn btree_rewind() {
    let mut bt = BTree::new();
    bt.put("a".as_bytes().to_vec(), pos(0, 0));
    let mut iter = bt.iterator(IteratorOptions::default());
    iter.next();
    iter.rewind();
    assert_eq!(iter.next().unwrap().0, "a".as_bytes().to_vec());
}

#[test]
fn snapshot_ignores_later_mutations() {
    let mut bt = BTree::new();
    bt.put(b"a".to_vec(), pos(0, 0));
    let mut iter = bt.iterator(IteratorOptions::default());
    bt.put(b"b".to_vec(), pos(0, 16));
    bt.delete(b"a".to_vec());
    assert_eq!(iter.next().unwrap().0, b"a".to_vec());
    assert_eq!(iter.next(), None);
}

#[test]
fn prefix_orders_before_extension() {
    let mut bt = BTree::new();
    bt.put(b"ab".to_vec(), pos(0, 16));
    bt.put(b"a".to_vec(), pos(0, 0));
    bt.put(b"b".to_vec(), pos(0, 32));
    let mut iter = bt.iterator(IteratorOptions::default());
    assert_eq!(iter.next().unwrap().0, b"a".to_vec());
    assert_eq!(iter.next().unwrap().0, b"ab".to_vec());
    assert_eq!(iter.next().unwrap().0, b"b".to_vec());
    assert_eq!(iter.next(), None);
}

#[test]
fn binary_keys_order_bytewise() {
    let mut bt = BTree::new();
    bt.put(vec![0xFF], pos(0, 0));
    bt.put(vec![0x00], pos(0, 16));
    bt.put(vec![0x7F, 0x01], pos(0, 32));
    let mut iter = bt.iterator(IteratorOptions::default());
    assert_eq!(iter.next().unwrap().0, vec![0x00]);
    assert_eq!(iter.next().unwrap().0, vec![0x7F, 0x01]);
    assert_eq!(iter.next().unwrap().0, vec![0xFF]);
}

#[test]
fn seek_past_all_yields_none() {
    let mut bt = BTree::new();
    bt.put(b"a".to_vec(), pos(0, 0));
    let mut iter = bt.iterator(IteratorOptions::default());
    iter.seek(b"z".to_vec());
    assert_eq!(iter.next(), None);
    let mut rev = bt.iterator(IteratorOptions { reverse: true });
    rev.seek(b"0".to_vec());
    assert_eq!(rev.next(), None);
}

#[test]
fn filter_iter() {
    let mut bt = BTree::new();
    bt.put("a".as_bytes().to_vec(), pos(0, 0));
    bt.put("b".as_bytes().to_vec(), pos(0, 0));
    let mut iter = bt.iterator_filtered(IteratorOptions::default(), |x: &Vec<u8>| {
        x == &"b".as_bytes().to_vec()
    });
    assert_eq!(iter.next().unwrap().0, "b".as_bytes().to_vec());
    assert_eq!(iter.next(), None);
}
