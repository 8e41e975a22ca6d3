use ailurus_kv::batch::WriteBatch;
use ailurus_kv::engine::Engine;
use ailurus_kv::errors::Errors;
use ailurus_kv::options::{IndexType, Options, WriteBatchOptions};

fn fresh_engine() -> Engine {
    let opts = Options {
        dir_path: String::from("db"),
        data_file_size: 8 * 1024 * 1024,
        sync_writes: false,
        index_type: IndexType::BTree,
    };
    Engine::new(opts, Vec::new()).unwrap()
}

#[test]
fn commit_applies_staged_puts() {
    let mut engine = fresh_engine();
    let mut batch = WriteBatch::new(WriteBatchOptions::default());
    batch.put(b"a".to_vec(), b"1".to_vec()).unwrap();
    batch.put(b"b".to_vec(), b"2".to_vec()).unwrap();
    // Nothing is visible before the commit.
    assert_eq!(engine.get(b"a".to_vec()).unwrap_err(), Errors::KeyNotFound);
    batch.commit(&mut engine).unwrap();
    assert_eq!(engine.get(b"a".to_vec()).unwrap(), b"1".to_vec());
    assert_eq!(engine.get(b"b".to_vec()).unwrap(), b"2".to_vec());
}

#[test]
fn staged_writes_last_one_wins() {
    let mut engine = fresh_engine();
    let mut batch = WriteBatch::new(WriteBatchOptions::default());
    batch.put(b"k".to_vec(), b"first".to_vec()).unwrap();
    batch.put(b"k".to_vec(), b"second".to_vec()).unwrap();
    batch.commit(&mut engine).unwrap();
    assert_eq!(engine.get(b"k".to_vec()).unwrap(), b"second".to_vec());
}

#[test]
fn staged_delete_of_absent_key_drops_staged_put() {
    let mut engine = fresh_engine();
    let mut batch = WriteBatch::new(WriteBatchOptions::default());
    batch.put(b"k".to_vec(), b"v".to_vec()).unwrap();
    // The key is not in the engine, so the staged put is simply dropped.
    batch.delete(&engine, b"k".to_vec()).unwrap();
    batch.commit(&mut engine).unwrap();
    assert_eq!(engine.get(b"k".to_vec()).unwrap_err(), Errors::KeyNotFound);
}

#[test]
fn staged_delete_of_live_key_erases_it() {
    let mut engine = fresh_engine();
    engine.put(b"k".to_vec(), b"v".to_vec()).unwrap();
    let mut batch = WriteBatch::new(WriteBatchOptions::default());
    batch.delete(&engine, b"k".to_vec()).unwrap();
    batch.commit(&mut engine).unwrap();
    assert_eq!(engine.get(b"k".to_vec()).unwrap_err(), Errors::KeyNotFound);
}

#[test]
fn oversized_batch_is_rejected_before_io() {
    let mut engine = fresh_engine();
    let mut batch = WriteBatch::new(WriteBatchOptions { batch_size: 1, sync_on_commit: true });
    batch.put(b"a".to_vec(), b"1".to_vec()).unwrap();
    batch.put(b"b".to_vec(), b"2".to_vec()).unwrap();
    assert_eq!(batch.commit(&mut engine).unwrap_err(), Errors::BatchSizeExceeded);
    assert_eq!(engine.get(b"a".to_vec()).unwrap_err(), Errors::KeyNotFound);
}

#[test]
fn empty_batch_commit_is_noop() {
    let mut engine = fresh_engine();
    let mut batch = WriteBatch::new(WriteBatchOptions::default());
    batch.commit(&mut engine).unwrap();
    assert_eq!(engine.seq_no, 0);
}

#[test]
fn each_commit_takes_a_fresh_sequence_number() {
    let mut engine = fresh_engine();
    let mut batch = WriteBatch::new(WriteBatchOptions::default());
    batch.put(b"a".to_vec(), b"1".to_vec()).unwrap();
    batch.commit(&mut engine).unwrap();
    assert_eq!(engine.seq_no, 1);
    batch.put(b"b".to_vec(), b"2".to_vec()).unwrap();
    batch.commit(&mut engine).unwrap();
    assert_eq!(engine.seq_no, 2);
}

#[test]
fn batch_rejects_empty_key() {
    let engine = fresh_engine();
    let mut batch = WriteBatch::new(WriteBatchOptions::default());
    assert_eq!(batch.put(Vec::new(), b"v".to_vec()).unwrap_err(), Errors::EmptyKey);
    assert_eq!(batch.delete(&engine, Vec::new()).unwrap_err(), Errors::EmptyKey);
}
