use ailurus_kv::engine::Engine;
use ailurus_kv::errors::Errors;
use ailurus_kv::iterator::Entry;
use ailurus_kv::options::{IndexType, IteratorOptions, Options};

fn fresh_engine() -> Engine {
    let opts = Options {
        dir_path: String::from("db"),
        data_file_size: 8 * 1024 * 1024,
        sync_writes: true,
        index_type: IndexType::BTree,
    };
    Engine::new(opts, Vec::new()).unwrap()
}

fn entry(key: &str, value: &str) -> Entry {
    Entry { key: key.as_bytes().to_vec(), value: value.as_bytes().to_vec() }
}

#[test]
fn iterator_rewind() {
    let mut engine = fresh_engine();
    engine.put(b"Hello".to_vec(), b"World".to_vec()).unwrap();
    engine.put(b"World".to_vec(), b"Hello".to_vec()).unwrap();
    let mut iter = engine.iter(IteratorOptions::default());
    for _ in 0..2 {
        let _ = iter.next();
    }
    iter.rewind();
    assert_eq!(iter.next(), Some(entry("Hello", "World")));
}

#[test]
fn iter() {
    let mut engine = fresh_engine();
    engine.put(b"a".to_vec(), b"val-a".to_vec()).unwrap();
    engine.put(b"b".to_vec(), b"val-b".to_vec()).unwrap();
    engine.put(b"c".to_vec(), b"val-c".to_vec()).unwrap();
    let mut iter = engine.iter(IteratorOptions::default());
    assert_eq!(iter.next(), Some(entry("a", "val-a")));
    assert_eq!(iter.next(), Some(entry("b", "val-b")));
    assert_eq!(iter.next(), Some(entry("c", "val-c")));
    assert_eq!(iter.next(), None);
}

#[test]
fn reverse_iter() {
    let mut engine = fresh_engine();
    engine.put(b"a".to_vec(), b"val-a".to_vec()).unwrap();
    engine.put(b"b".to_vec(), b"val-b".to_vec()).unwrap();
    engine.put(b"c".to_vec(), b"val-c".to_vec()).unwrap();
    let mut iter = engine.iter(IteratorOptions { reverse: true });
    assert_eq!(iter.next(), Some(entry("c", "val-c")));
    assert_eq!(iter.next(), Some(entry("b", "val-b")));
    assert_eq!(iter.next(), Some(entry("a", "val-a")));
}

#[test]
fn reverse_rewind() {
    let mut engine = fresh_engine();
    engine.put(b"a".to_vec(), b"val-a".to_vec()).unwrap();
    engine.put(b"b".to_vec(), b"val-b".to_vec()).unwrap();
    engine.put(b"c".to_vec(), b"val-c".to_vec()).unwrap();
    let mut iter = engine.iter(IteratorOptions { reverse: true });
    assert_eq!(iter.next(), Some(entry("c", "val-c")));
    assert_eq!(iter.next(), Some(entry("b", "val-b")));
    iter.rewind();
    assert_eq!(iter.next(), Some(entry("c", "val-c")));
    assert_eq!(iter.next(), Some(entry("b", "val-b")));
    assert_eq!(iter.next(), Some(entry("a", "val-a")));
}

#[test]
fn seek() {
    let mut engine = fresh_engine();
    engine.put(b"a".to_vec(), b"val-a".to_vec()).unwrap();
    engine.put(b"b".to_vec(), b"val-b".to_vec()).unwrap();
    engine.put(b"c".to_vec(), b"val-c".to_vec()).unwrap();
    let mut iter = engine.iter(IteratorOptions::default());
    iter.seek(b"b".to_vec());
    assert_eq!(iter.next(), Some(entry("b", "val-b")));
}

#[test]
fn reverse_seek() {
    let mut engine = fresh_engine();
    engine.put(b"a".to_vec(), b"val-a".to_vec()).unwrap();
    engine.put(b"b".to_vec(), b"val-b".to_vec()).unwrap();
    engine.put(b"c".to_vec(), b"val-c".to_vec()).unwrap();
    let mut iter = engine.iter(IteratorOptions { reverse: true });
    iter.seek(b"b".to_vec());
    assert_eq!(iter.next(), Some(entry("b", "val-b")));
    assert_eq!(iter.next(), Some(entry("a", "val-a")));
}

#[test]
fn iteration_sees_deletes_before_construction() {
    let mut engine = fresh_engine();
    engine.put(b"a".to_vec(), b"1".to_vec()).unwrap();
    engine.put(b"b".to_vec(), b"2".to_vec()).unwrap();
    engine.delete(b"a".to_vec()).unwrap();
    assert_eq!(engine.get(b"a".to_vec()).unwrap_err(), Errors::KeyNotFound);
    let mut iter = engine.iter(IteratorOptions::default());
    assert_eq!(iter.next(), Some(entry("b", "2")));
    assert_eq!(iter.next(), None);
}

#[test]
fn filtered_engine_iteration() {
    let mut engine = fresh_engine();
    engine.put(b"apple".to_vec(), b"1".to_vec()).unwrap();
    engine.put(b"avocado".to_vec(), b"2".to_vec()).unwrap();
    engine.put(b"banana".to_vec(), b"3".to_vec()).unwrap();
    let mut iter = engine.iter_filtered(IteratorOptions::default(), |k: &Vec<u8>| {
        k.first() == Some(&b'a')
    });
    assert_eq!(iter.next(), Some(entry("apple", "1")));
    assert_eq!(iter.next(), Some(entry("avocado", "2")));
    assert_eq!(iter.next(), None);
}
