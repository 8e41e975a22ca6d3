use ailurus_kv::data::log_record::{LogRecord, LogRecordType};
use ailurus_kv::data::data_file::DataFile;
use ailurus_kv::errors::Errors;

#[test]
fn simple_record_compression() {
    let record = LogRecord {
        key: "ailurus-kv".as_bytes().to_vec(), // 10 bytes
        value: "is Awesome".as_bytes().to_vec(),
        record_type: LogRecordType::Normal,
    };

    let expected = [
        1_u8,  /* record type */
        10_u8, /* key size is 10B */
        10_u8, /* value size is 10B */
        b'a', b'i', b'l', b'u', b'r', b'u', b's', b'-', b'k',
        b'v', /* key:   ailurus-kv */
        b'i', b's', b' ', b'A', b'w', b'e', b's', b'o', b'm',
        b'e', /* value: is Awesome */
    ];

    assert_eq!(record.compress()[..], expected);
}

#[test]
fn empty_record_compression() {
    let record = LogRecord {
        key: vec![],
        value: vec![],
        record_type: LogRecordType::Normal,
    };

    let expected = [
        1_u8, /* record type */
        0_u8, /* key size is 0B */
        0_u8, /* value size is 0B */
              /* key and value is empty */
    ];

    assert_eq!(record.compress()[..], expected);
}

#[test]
fn simple_record_encoding() {
    let record = LogRecord {
        key: "ailurus-kv".as_bytes().to_vec(), // 10 bytes
        value: "is Awesome".as_bytes().to_vec(),
        record_type: LogRecordType::Normal,
    };

    // CRC-32 of the payload is 0x04cd63dd, stored little-endian.
    let expected = [
        0xdd, 0x63, 0xcd, 0x04, /* CRC, little-endian */
        1_u8,  /* record type */
        10_u8, /* key size is 10B */
        10_u8, /* value size is 10B */
        b'a', b'i', b'l', b'u', b'r', b'u', b's', b'-', b'k',
        b'v', /* key:   ailurus-kv */
        b'i', b's', b' ', b'A', b'w', b'e', b's', b'o', b'm',
        b'e', /* value: is Awesome */
    ];

    assert_eq!(record.encode()[..], expected);
}

#[test]
fn simple_crc() {
    let record = LogRecord {
        key: "ailurus-kv".as_bytes().to_vec(), // 10 bytes
        value: "is Awesome".as_bytes().to_vec(),
        record_type: LogRecordType::Normal,
    };

    assert_eq!(record.crc(), 0x04cd63dd_u32);
}

#[test]
fn get_one_key() {
    let mut df = DataFile::new(0, Vec::new());
    let record = LogRecord {
        key: "ailurus-kv".as_bytes().to_vec(),
        value: "is Awesome".as_bytes().to_vec(),
        record_type: LogRecordType::Normal,
    };
    df.write(&record.encode()).unwrap();
    assert_eq!(df.read(0).unwrap().unwrap(), record);
}

#[test]
fn read_at_end_is_eof() {
    let mut df = DataFile::new(0, Vec::new());
    let record = LogRecord {
        key: b"k".to_vec(),
        value: b"v".to_vec(),
        record_type: LogRecordType::Normal,
    };
    df.write(&record.encode()).unwrap();
    let end = df.offset();
    assert_eq!(df.read(end).unwrap(), None);
}

#[test]
fn corrupting_any_byte_is_rejected() {
    let record = LogRecord {
        key: b"crc-key".to_vec(),
        value: b"crc-value".to_vec(),
        record_type: LogRecordType::Normal,
    };
    let enc = record.encode();
    for i in 0..enc.len() {
        let mut bad = enc.clone();
        bad[i] ^= 0x01;
        let df = DataFile::new(0, bad);
        assert_eq!(df.read(0).unwrap_err(), Errors::DatafileCorrupted);
    }
}

#[test]
fn long_lengths_round_trip() {
    // Key and value long enough to need two-byte varint lengths.
    let record = LogRecord {
        key: vec![7u8; 300],
        value: vec![9u8; 70000],
        record_type: LogRecordType::Normal,
    };
    let mut df = DataFile::new(0, Vec::new());
    df.write(&record.encode()).unwrap();
    assert_eq!(df.read(0).unwrap().unwrap(), record);
    // 4 (CRC) + 1 (type) + 2 + 3 varint bytes + payload bytes.
    assert_eq!(record.size(), 4 + 1 + 2 + 3 + 300 + 70000);
}

#[test]
fn tombstone_round_trip() {
    let record = LogRecord {
        key: b"gone".to_vec(),
        value: Vec::new(),
        record_type: LogRecordType::Deleted,
    };
    let mut df = DataFile::new(3, Vec::new());
    df.write(&record.encode()).unwrap();
    assert_eq!(df.read(0).unwrap().unwrap(), record);
    assert_eq!(df.id(), 3);
}
