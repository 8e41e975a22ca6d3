use vstd::prelude::*;
use crate::errors::Errors;
use crate::data::log_record::{
    LogRecord, LogRecordType, SpecRecord, encodable, spec_payload, spec_encoding,
    spec_record_size, spec_parse_varint, varint_bytes, varint_len, le32_at, u32_le, crc32_of,
    lemma_varint_parse_props, lemma_varint_roundtrip, lemma_varint_len_bounds,
    lemma_u32_le_roundtrip, lemma_encoding_size, type_byte, parse_varint, crc32,
};

verus! {

/// Result of parsing one record at a given offset of a byte log.
pub ghost enum ParsedRecord {
    /// The offset sits at the end of the log, or at a zero-padded tail.
    End,
    /// The bytes at the offset are not a well-formed record.
    Bad,
    /// A record was parsed, occupying `len` bytes.
    Rec { rec: SpecRecord, len: int },
}

/// Parses the record that starts at `off` in `s`, mirroring the on-disk
/// layout: four CRC bytes, one type byte, two varint lengths, then the
/// key and value bytes. The stored CRC must match the CRC-32 of the
/// payload that follows it.
pub open spec fn spec_parse_record(s: Seq<u8>, off: int) -> ParsedRecord {
    if off < 0 || off > s.len() {
        ParsedRecord::Bad
    } else if off == s.len() {
        ParsedRecord::End
    } else if s.len() - off < 5 {
        ParsedRecord::Bad
    } else {
        let crc_stored = le32_at(s, off);
        let tb = s[off + 4];
        match spec_parse_varint(s, off + 5) {
            None => ParsedRecord::Bad,
            Some((ks, c1)) => if ks > u32::MAX {
                ParsedRecord::Bad
            } else {
                match spec_parse_varint(s, off + 5 + c1) {
                    None => ParsedRecord::Bad,
                    Some((vs, c2)) => if vs > u32::MAX {
                        ParsedRecord::Bad
                    } else if ks == 0 && vs == 0 {
                        ParsedRecord::End
                    } else if off + 5 + c1 + c2 + ks + vs > s.len() {
                        ParsedRecord::Bad
                    } else if tb != 1 && tb != 2 {
                        ParsedRecord::Bad
                    } else {
                        let hs = 5 + c1 + c2;
                        let rec = SpecRecord {
                            key: s.subrange(off + hs, off + hs + ks),
                            value: s.subrange(off + hs + ks, off + hs + ks + vs),
                            record_type: if tb == 1 {
                                LogRecordType::Normal
                            } else {
                                LogRecordType::Deleted
                            },
                        };
                        if crc_stored != crc32_of(spec_payload(rec)) {
                            ParsedRecord::Bad
                        } else {
                            ParsedRecord::Rec { rec, len: hs + ks + vs }
                        }
                    },
                }
            },
        }
    }
}

/// A parsed record is well-formed: its length is its re-encoded size and
/// it lies entirely within the log.
pub proof fn lemma_parse_props(s: Seq<u8>, off: int)
    requires
        spec_parse_record(s, off) is Rec,
    ensures
        ({
            let rec = spec_parse_record(s, off)->Rec_rec;
            let len = spec_parse_record(s, off)->Rec_len;
            &&& 7 <= len
            &&& 0 <= off
            &&& off + len <= s.len()
            &&& encodable(rec)
            &&& len == spec_record_size(rec)
            &&& !(rec.key.len() == 0 && rec.value.len() == 0)
        }),
{
    let rec = spec_parse_record(s, off)->Rec_rec;
    let len = spec_parse_record(s, off)->Rec_len;
    let (ks, c1) = spec_parse_varint(s, off + 5)->Some_0;
    lemma_varint_parse_props(s, off + 5);
    let (vs, c2) = spec_parse_varint(s, off + 5 + c1)->Some_0;
    lemma_varint_parse_props(s, off + 5 + c1);
    assert(rec.key.len() == ks && rec.value.len() == vs);
}

/// Appending bytes to a log does not change any record already parsed
/// from it.
pub proof fn lemma_parse_stable(s: Seq<u8>, t: Seq<u8>, off: int)
    requires
        spec_parse_record(s, off) is Rec,
    ensures
        spec_parse_record(s + t, off) == spec_parse_record(s, off),
{
    let u = s + t;
    lemma_parse_props(s, off);
    let rec = spec_parse_record(s, off)->Rec_rec;
    let len = spec_parse_record(s, off)->Rec_len;
    assert(u.len() == s.len() + t.len());
    assert(le32_at(u, off) == le32_at(s, off));
    assert(u[off + 4] == s[off + 4]);

    let (ks, c1) = spec_parse_varint(s, off + 5)->Some_0;
    lemma_varint_parse_props(s, off + 5);
    assert(u.subrange(off + 5, off + 5 + c1) =~= s.subrange(off + 5, off + 5 + c1));
    lemma_varint_roundtrip(u, off + 5, ks);
    assert(spec_parse_varint(u, off + 5) == Some((ks, c1)));

    let (vs, c2) = spec_parse_varint(s, off + 5 + c1)->Some_0;
    lemma_varint_parse_props(s, off + 5 + c1);
    assert(u.subrange(off + 5 + c1, off + 5 + c1 + c2) =~= s.subrange(off + 5 + c1, off + 5 + c1 + c2));
    lemma_varint_roundtrip(u, off + 5 + c1, vs);
    assert(spec_parse_varint(u, off + 5 + c1) == Some((vs, c2)));

    let hs = 5 + c1 + c2;
    assert(u.subrange(off + hs, off + hs + ks) =~= s.subrange(off + hs, off + hs + ks));
    assert(u.subrange(off + hs + ks, off + hs + ks + vs) =~= s.subrange(off + hs + ks, off + hs + ks + vs));
}

/// A freshly encoded record embedded in a longer byte sequence parses
/// back to itself, whatever surrounds it.
pub proof fn lemma_parse_roundtrip(s: Seq<u8>, off: int, r: SpecRecord)
    requires
        0 <= off,
        off + spec_record_size(r) <= s.len(),
        s.subrange(off, off + spec_record_size(r)) == spec_encoding(r),
        encodable(r),
        r.key.len() >= 1,
    ensures
        spec_parse_record(s, off) == (ParsedRecord::Rec { rec: r, len: spec_record_size(r) as int }),
{
    let size = spec_record_size(r) as int;
    let e = spec_encoding(r);
    let p = spec_payload(r);
    let c = crc32_of(p);
    let a = varint_len(r.key.len()) as int;
    let b = varint_len(r.value.len()) as int;
    let ks = r.key.len() as int;
    let vs = r.value.len() as int;
    lemma_varint_len_bounds(r.key.len());
    lemma_varint_len_bounds(r.value.len());
    assert(e == u32_le(c) + p);
    assert(p == seq![type_byte(r.record_type)]
        + varint_bytes(r.key.len())
        + varint_bytes(r.value.len())
        + r.key + r.value);

    // Each field of the encoding occupies its own slice of s.
    assert forall|j: int| 0 <= j < size implies s[off + j] == e[j] by {
        assert(s.subrange(off, off + size)[j] == s[off + j]);
    }
    assert(s.subrange(off, off + 4) =~= u32_le(c));
    lemma_u32_le_roundtrip(s, off, c);
    assert(s[off + 4] == e[4]);
    assert(e[4] == p[0]);
    assert(p[0] == type_byte(r.record_type));

    assert(s.subrange(off + 5, off + 5 + a) =~= varint_bytes(r.key.len())) by {
        assert forall|j: int| 0 <= j < a implies
            s.subrange(off + 5, off + 5 + a)[j] == varint_bytes(r.key.len())[j] by {
            assert(s[off + 5 + j] == e[5 + j]);
            assert(e[5 + j] == p[1 + j]);
            assert(p[1 + j] == varint_bytes(r.key.len())[j]);
        }
    }
    lemma_varint_roundtrip(s, off + 5, r.key.len());

    assert(s.subrange(off + 5 + a, off + 5 + a + b) =~= varint_bytes(r.value.len())) by {
        assert forall|j: int| 0 <= j < b implies
            s.subrange(off + 5 + a, off + 5 + a + b)[j] == varint_bytes(r.value.len())[j] by {
            assert(s[off + 5 + a + j] == e[5 + a + j]);
            assert(e[5 + a + j] == p[1 + a + j]);
            assert(p[1 + a + j] == varint_bytes(r.value.len())[j]);
        }
    }
    lemma_varint_roundtrip(s, off + 5 + a, r.value.len());

    let hs = 5 + a + b;
    assert(s.subrange(off + hs, off + hs + ks) =~= r.key) by {
        assert forall|j: int| 0 <= j < ks implies
            s.subrange(off + hs, off + hs + ks)[j] == r.key[j] by {
            assert(s[off + hs + j] == e[hs + j]);
            assert(e[hs + j] == p[(hs - 4) + j]);
            assert(p[(1 + a + b) + j] == r.key[j]);
        }
    }
    assert(s.subrange(off + hs + ks, off + hs + ks + vs) =~= r.value) by {
        assert forall|j: int| 0 <= j < vs implies
            s.subrange(off + hs + ks, off + hs + ks + vs)[j] == r.value[j] by {
            assert(s[off + hs + ks + j] == e[hs + ks + j]);
            assert(e[hs + ks + j] == p[(hs - 4) + ks + j]);
            assert(p[(1 + a + b) + ks + j] == r.value[j]);
        }
    }

    assert(s[off + 4] == type_byte(r.record_type));
    let tb = s[off + 4];
    let rec = SpecRecord {
        key: s.subrange(off + hs, off + hs + ks),
        value: s.subrange(off + hs + ks, off + hs + ks + vs),
        record_type: if tb == 1 { LogRecordType::Normal } else { LogRecordType::Deleted },
    };
    assert(rec == r);
}

/// Scans the record sequence of a byte log from `off` to its exact end.
/// Returns `None` if any record is malformed or if the scan stops before
/// the last byte: a log that a record-appending writer produced always
/// ends exactly at a record boundary.
pub open spec fn spec_scan(s: Seq<u8>, off: int) -> Option<Seq<SpecRecord>>
    decreases s.len() - off,
{
    match spec_parse_record(s, off) {
        ParsedRecord::End => if off == s.len() {
            Some(Seq::<SpecRecord>::empty())
        } else {
            None
        },
        ParsedRecord::Bad => None,
        ParsedRecord::Rec { rec, len } => if len <= 0 || off + len > s.len() {
            None
        } else {
            match spec_scan(s, off + len) {
                None => None,
                Some(tail) => Some(seq![rec] + tail),
            }
        },
    }
}

/// A byte log is valid when it is exactly a concatenation of well-formed
/// records.
pub open spec fn valid_log(s: Seq<u8>) -> bool {
    spec_scan(s, 0) is Some
}

/// The records a valid log holds, in append order.
pub open spec fn records_of(s: Seq<u8>) -> Seq<SpecRecord> {
    spec_scan(s, 0)->Some_0
}

/// Appending the encoding of one record to a valid log extends its record
/// sequence by exactly that record.
pub proof fn lemma_scan_append(s: Seq<u8>, r: SpecRecord, off: int)
    requires
        spec_scan(s, off) is Some,
        0 <= off <= s.len(),
        encodable(r),
        r.key.len() >= 1,
    ensures
        spec_scan(s + spec_encoding(r), off) == Some(spec_scan(s, off)->Some_0.push(r)),
    decreases s.len() - off,
{
    let e = spec_encoding(r);
    let u = s + e;
    lemma_encoding_size(r);
    match spec_parse_record(s, off) {
        ParsedRecord::End => {
            assert(off == s.len());
            assert(u.subrange(off, off + spec_record_size(r)) =~= e);
            lemma_parse_roundtrip(u, off, r);
            let size = spec_record_size(r) as int;
            assert(off + size == u.len());
            assert(spec_parse_record(u, off + size) == ParsedRecord::End);
            assert(spec_scan(u, off + size) == Some(Seq::<SpecRecord>::empty()));
            assert(spec_scan(u, off) == Some(seq![r] + Seq::<SpecRecord>::empty()));
            assert(seq![r] + Seq::<SpecRecord>::empty() =~= Seq::<SpecRecord>::empty().push(r));
        },
        ParsedRecord::Bad => {
            assert(false);
        },
        ParsedRecord::Rec { rec, len } => {
            lemma_parse_props(s, off);
            lemma_parse_stable(s, e, off);
            lemma_scan_append(s, r, off + len);
            let tail = spec_scan(s, off + len)->Some_0;
            assert(spec_scan(u, off + len) == Some(tail.push(r)));
            assert(spec_scan(s, off) == Some(seq![rec] + tail));
            assert(spec_scan(u, off) == Some(seq![rec] + tail.push(r)));
            assert(seq![rec] + tail.push(r) =~= (seq![rec] + tail).push(r));
        },
    }
}

/// Copies the bytes of `v` between `start` and `end` into a fresh vector.
pub(crate) fn copy_range(v: &Vec<u8>, start: usize, end: usize) -> (r: Vec<u8>)
    requires
        start <= end,
        end <= v.len(),
    ensures
        r@ == v@.subrange(start as int, end as int),
{
    let mut r: Vec<u8> = Vec::new();
    let mut i: usize = start;
    while i < end
        invariant
            start <= i <= end,
            end <= v.len(),
            r@ == v@.subrange(start as int, i as int),
        decreases end - i,
    {
        r.push(v[i]);
        assert(v@.subrange(start as int, i as int) + seq![v@[i as int]]
            =~= v@.subrange(start as int, i + 1));
        i += 1;
    }
    r
}

/// One append-only log segment: a file id together with the bytes
/// appended so far. The append offset always equals the byte count.
#[derive(Debug)]
pub struct DataFile {
    pub id: u32,
    pub data: Vec<u8>,
}

impl DataFile {
    /// Opens a segment with the given id over the bytes it already holds;
    /// a fresh segment starts empty.
    pub fn new(id: u32, data: Vec<u8>) -> (r: DataFile)
        ensures
            r.id == id,
            r.data == data,
    {
        DataFile { id, data }
    }

    /// The append offset: the size of the segment in bytes.
    pub fn offset(&self) -> (r: u64)
        ensures
            r == self.data@.len(),
    {
        self.data.len() as u64
    }

    /// The segment's file id.
    pub fn id(&self) -> (r: u32)
        ensures
            r == self.id,
    {
        self.id
    }

    /// Appends `buf` to the segment and returns the number of bytes
    /// written, which is always all of them.
    pub fn write(&mut self, buf: &[u8]) -> (r: Result<usize, Errors>)
        ensures
            final(self).data@ == old(self).data@ + buf@,
            final(self).id == old(self).id,
            r == Ok::<usize, Errors>(buf@.len() as usize),
    {
        let mut i: usize = 0;
        while i < buf.len()
            invariant
                i <= buf.len(),
                self.data@ == old(self).data@ + buf@.subrange(0, i as int),
                self.id == old(self).id,
            decreases buf.len() - i,
        {
            self.data.push(buf[i]);
            assert(old(self).data@ + buf@.subrange(0, i as int) + seq![buf@[i as int]]
                =~= old(self).data@ + buf@.subrange(0, i + 1));
            i += 1;
        }
        assert(buf@.subrange(0, buf@.len() as int) =~= buf@);
        Ok(buf.len())
    }

    /// Reads and decodes the record that starts at `offset`.
    /// Returns `Ok(None)` at the end of the segment (or at a zero-padded
    /// tail), the decoded record on success, and `DatafileCorrupted` when
    /// the bytes are malformed or their stored CRC does not match.
    pub fn read(&self, offset: u64) -> (r: Result<Option<LogRecord>, Errors>)
        ensures
            match spec_parse_record(self.data@, offset as int) {
                ParsedRecord::End => r == Ok::<Option<LogRecord>, Errors>(None),
                ParsedRecord::Bad => r == Err::<Option<LogRecord>, Errors>(
                    Errors::DatafileCorrupted),
                ParsedRecord::Rec { rec, len } =>
                    r matches Ok(Some(lr)) && lr@ == rec,
            },
    {
        let ghost s = self.data@;
        let n = self.data.len();
        if offset > n as u64 {
            return Err(Errors::DatafileCorrupted);
        }
        let off = offset as usize;
        if off == n {
            return Ok(None);
        }
        if n - off < 5 {
            return Err(Errors::DatafileCorrupted);
        }
        let b0 = self.data[off];
        let b1 = self.data[off + 1];
        let b2 = self.data[off + 2];
        let b3 = self.data[off + 3];
        let crc_stored: u32 =
            b0 as u32 + 256 * (b1 as u32) + 65536 * (b2 as u32) + 16777216 * (b3 as u32);
        assert(crc_stored == le32_at(s, off as int));
        let tb = self.data[off + 4];

        let ks64: u64;
        let c1: usize;
        match parse_varint(&self.data, off + 5) {
            None => {
                return Err(Errors::DatafileCorrupted);
            },
            Some((v, c)) => {
                ks64 = v;
                c1 = c;
            },
        }
        if ks64 > 0xFFFF_FFFF {
            return Err(Errors::DatafileCorrupted);
        }
        proof {
            lemma_varint_parse_props(s, off as int + 5);
        }

        let vs64: u64;
        let c2: usize;
        match parse_varint(&self.data, off + 5 + c1) {
            None => {
                return Err(Errors::DatafileCorrupted);
            },
            Some((v, c)) => {
                vs64 = v;
                c2 = c;
            },
        }
        if vs64 > 0xFFFF_FFFF {
            return Err(Errors::DatafileCorrupted);
        }
        if ks64 == 0 && vs64 == 0 {
            return Ok(None);
        }
        proof {
            lemma_varint_parse_props(s, off as int + 5 + c1 as int);
        }

        if 5 + c1 as u64 + c2 as u64 + ks64 + vs64 > (n - off) as u64 {
            return Err(Errors::DatafileCorrupted);
        }
        if tb != 1 && tb != 2 {
            return Err(Errors::DatafileCorrupted);
        }
        let ks = ks64 as usize;
        let vs = vs64 as usize;
        let hs = 5 + c1 + c2;
        let key = copy_range(&self.data, off + hs, off + hs + ks);
        let value = copy_range(&self.data, off + hs + ks, off + hs + ks + vs);
        let record_type = if tb == 1 { LogRecordType::Normal } else { LogRecordType::Deleted };
        let lr = LogRecord { key, value, record_type };
        let payload = lr.compress();
        let c = crc32(&payload);
        if crc_stored != c {
            return Err(Errors::DatafileCorrupted);
        }
        Ok(Some(lr))
    }

    /// Requests a durable flush. The in-memory segment is always
    /// consistent, so this never fails and changes nothing; the caller
    /// that mirrors segments to disk performs the actual flush.
    pub fn sync(&self) -> (r: Result<(), Errors>)
        ensures
            r == Ok::<(), Errors>(()),
    {
        Ok(())
    }
}

} // verus!
