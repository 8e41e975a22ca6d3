use ailurus_kv::engine::Engine;
use ailurus_kv::data::data_file::DataFile;
use ailurus_kv::errors::Errors;
use ailurus_kv::options::{IndexType, Options};

fn options() -> Options {
    Options {
        dir_path: String::from("db"),
        data_file_size: 8 * 1024 * 1024,
        sync_writes: true,
        index_type: IndexType::BTree,
    }
}

fn sized_options(data_file_size: u64, sync_writes: bool) -> Options {
    Options {
        dir_path: String::from("db"),
        data_file_size,
        sync_writes,
        index_type: IndexType::BTree,
    }
}

fn fresh_engine() -> Engine {
    Engine::new(options(), Vec::new()).unwrap()
}

fn segment_files(db: &Engine) -> Vec<DataFile> {
    let mut files = Vec::new();
    for f in db.idle_datafiles() {
        files.push(DataFile::new(f.id, f.data.clone()));
    }
    let active = db.active_datafile();
    files.push(DataFile::new(active.id, active.data.clone()));
    files
}

fn file_count(db: &Engine) -> usize {
    db.idle_datafiles().len() + 1
}

#[test]
fn simple_put_and_get() {
    let mut db = fresh_engine();
    db.put(b"Hello".to_vec(), b"World".to_vec()).unwrap();
    assert_eq!(db.get(b"Hello".to_vec()).unwrap(), b"World".to_vec());
}

#[test]
fn put_many_get_many() {
    let mut engine = fresh_engine();
    engine.put(b"a".to_vec(), b"val-a".to_vec()).unwrap();
    engine.put(b"b".to_vec(), b"val-b".to_vec()).unwrap();
    engine.put(b"c".to_vec(), b"val-c".to_vec()).unwrap();
    assert_eq!(engine.get(b"a".to_vec()).unwrap(), b"val-a".to_vec());
    assert_eq!(engine.get(b"b".to_vec()).unwrap(), b"val-b".to_vec());
    assert_eq!(engine.get(b"c".to_vec()).unwrap(), b"val-c".to_vec());
}

#[test]
fn overwrite_put() {
    let mut db = fresh_engine();
    db.put(b"Hello".to_vec(), b"Hello".to_vec()).unwrap();
    db.put(b"Hello".to_vec(), b"World".to_vec()).unwrap();
    assert_eq!(db.get(b"Hello".to_vec()).unwrap(), b"World".to_vec());
}

#[test]
fn get_non_exist_key() {
    let db = fresh_engine();
    let x = db.get(b"Non Exist".to_vec());
    assert_eq!(x.unwrap_err(), Errors::KeyNotFound);
}

#[test]
fn delete_exist() {
    let mut db = fresh_engine();
    db.put(b"Hello".to_vec(), b"World".to_vec()).unwrap();
    let report = db.delete(b"Hello".to_vec());
    assert_eq!(report.unwrap(), ());
}

#[test]
fn delete_non_exist() {
    let mut db = fresh_engine();
    db.put(b"Hello".to_vec(), b"World".to_vec()).unwrap();
    let report = db.delete(b"non_exist".to_vec());
    assert_eq!(report.unwrap_err(), Errors::KeyNotFound);
    assert_eq!(db.get(b"Hello".to_vec()).unwrap(), b"World".to_vec());
}

#[test]
fn delete_non_exist_in_empty_db() {
    let mut db = fresh_engine();
    let report = db.delete(b"non_exist".to_vec());
    assert_eq!(report.unwrap_err(), Errors::KeyNotFound);
}

#[test]
fn delete_then_get_not_found() {
    let mut db = fresh_engine();
    db.put(b"k".to_vec(), b"v".to_vec()).unwrap();
    db.delete(b"k".to_vec()).unwrap();
    assert_eq!(db.get(b"k".to_vec()).unwrap_err(), Errors::KeyNotFound);
}

#[test]
fn empty_key_is_rejected() {
    let mut db = fresh_engine();
    assert_eq!(db.put(Vec::new(), b"v".to_vec()).unwrap_err(), Errors::EmptyKey);
    assert_eq!(db.get(Vec::new()).unwrap_err(), Errors::EmptyKey);
    assert_eq!(db.delete(Vec::new()).unwrap_err(), Errors::EmptyKey);
}

#[test]
fn empty_value_round_trips() {
    let mut db = fresh_engine();
    db.put(b"empty".to_vec(), Vec::new()).unwrap();
    assert_eq!(db.get(b"empty".to_vec()).unwrap(), Vec::<u8>::new());
}

#[test]
fn zero_file_size_is_rejected() {
    let r = Engine::new(sized_options(0, false), Vec::new());
    assert_eq!(r.unwrap_err(), Errors::DatafileSizeTooSmall);
}

#[test]
fn fulfill_one_datafile() {
    let mut db = Engine::new(sized_options(8 * 1000, false), Vec::new()).unwrap();

    // fulfill the datafile
    for i in 0..500 {
        /*
        | 1B for Type  | 4B for CRC  | 1B for keysz |
        | 1B for valsz | 4B for key  | 5B for value |
        ==> 16B in total
        */
        let key = format!("{:04}", i);
        let val = format!("{:05}", i);
        db.put(key.into_bytes(), val.into_bytes()).unwrap();
    }
    db.sync().unwrap();
    assert_eq!(file_count(&db), 1);

    // This record should be in a new datafile
    db.put(b"Hello".to_vec(), b"World".to_vec()).unwrap();
    db.sync().unwrap();
    assert_eq!(file_count(&db), 2);
}

#[test]
fn datafile_remaining_not_enough() {
    let mut db = Engine::new(sized_options(8 * 1000, false), Vec::new()).unwrap();

    // not fulfill the datafile, but only 16 bytes available
    for i in 0..499 {
        let key = format!("{:04}", i);
        let val = format!("{:05}", i);
        db.put(key.into_bytes(), val.into_bytes()).unwrap();
    }
    db.sync().unwrap();
    assert_eq!(file_count(&db), 1);

    // This record requires 17 bytes, should be in a new datafile
    db.put(b"Hello".to_vec(), b"World".to_vec()).unwrap();
    db.sync().unwrap();
    assert_eq!(file_count(&db), 2);
}

#[test]
fn rotation_keeps_segments_bounded() {
    let cap: u64 = 2 * 1000;
    let mut db = Engine::new(sized_options(cap, false), Vec::new()).unwrap();
    for i in 0..1024 {
        let key = format!("{:04}", i);
        let val = format!("{:05}", i);
        db.put(key.into_bytes(), val.into_bytes()).unwrap();
    }
    assert!(file_count(&db) >= 2);
    for f in db.idle_datafiles() {
        assert!(f.data.len() as u64 <= cap);
    }
    assert!(db.active_datafile().data.len() as u64 <= cap);
}

#[test]
fn reopen() {
    let opts = sized_options(2 * 1000, false);
    let mut db = Engine::new(opts.clone(), Vec::new()).unwrap();

    for i in 0..1024 {
        let key = format!("{:04}", i);
        let val = format!("{:05}", i);
        db.put(key.into_bytes(), val.into_bytes()).unwrap();
    }
    db.sync().unwrap();

    let db = Engine::new(opts, segment_files(&db)).unwrap();
    assert_eq!(db.get(b"0000".to_vec()).unwrap(), b"00000".to_vec());
    assert_eq!(db.get(b"1023".to_vec()).unwrap(), b"01023".to_vec());
}

#[test]
fn reopen_after_delete() {
    let opts = sized_options(2 * 1000, false);
    let mut db = Engine::new(opts.clone(), Vec::new()).unwrap();
    db.put(b"keep".to_vec(), b"1".to_vec()).unwrap();
    db.put(b"drop".to_vec(), b"2".to_vec()).unwrap();
    db.delete(b"drop".to_vec()).unwrap();
    db.sync().unwrap();

    let db = Engine::new(opts, segment_files(&db)).unwrap();
    assert_eq!(db.get(b"keep".to_vec()).unwrap(), b"1".to_vec());
    assert_eq!(db.get(b"drop".to_vec()).unwrap_err(), Errors::KeyNotFound);
}

#[test]
fn reopen_rejects_corrupted_segment() {
    let opts = options();
    let mut db = Engine::new(opts.clone(), Vec::new()).unwrap();
    db.put(b"Hello".to_vec(), b"World".to_vec()).unwrap();
    let mut files = segment_files(&db);
    let last = files.len() - 1;
    let mut bytes = files[last].data.clone();
    bytes[6] ^= 0xFF;
    files[last] = DataFile::new(files[last].id, bytes);
    assert_eq!(Engine::new(opts, files).unwrap_err(), Errors::DatafileCorrupted);
}

#[test]
fn at_missing_datafile() {
    let db = fresh_engine();
    let pos = ailurus_kv::data::log_record::LogRecordPos { file_id: 42, offset: 0 };
    assert_eq!(db.at(&pos).unwrap_err(), Errors::DatafileNotFound);
}

#[test]
fn at_end_of_file_is_internal() {
    let mut db = fresh_engine();
    db.put(b"k".to_vec(), b"v".to_vec()).unwrap();
    let end = db.active_datafile().offset();
    let pos = ailurus_kv::data::log_record::LogRecordPos { file_id: 0, offset: end };
    assert_eq!(db.at(&pos).unwrap_err(), Errors::InternalError);
}

#[test]
fn reopen_empty_database() {
    let db = fresh_engine();
    let db2 = Engine::new(options(), segment_files(&db)).unwrap();
    assert_eq!(db2.get(b"anything".to_vec()).unwrap_err(), Errors::KeyNotFound);
}

#[test]
fn overwrite_survives_reopen() {
    let mut db = fresh_engine();
    db.put(b"k".to_vec(), b"old".to_vec()).unwrap();
    db.put(b"k".to_vec(), b"new".to_vec()).unwrap();
    db.sync().unwrap();
    let db = Engine::new(options(), segment_files(&db)).unwrap();
    assert_eq!(db.get(b"k".to_vec()).unwrap(), b"new".to_vec());
}
