use vstd::prelude::*;
use vstd::map::*;
use crate::data::data_file::{DataFile, ParsedRecord, spec_parse_record, spec_scan, valid_log,
    records_of, lemma_parse_props, lemma_parse_stable, lemma_parse_roundtrip, lemma_scan_append,
    copy_range};
use crate::data::log_record::{LogRecord, LogRecordType, LogRecordPos, SpecRecord, encodable,
    spec_encoding, spec_record_size, lemma_encoding_size};
use crate::errors::Errors;
use crate::index::btree::BTree;
use crate::options::{Options, IndexType, check_options};

verus! {

/// The effect of one log record on the logical key/value map.
pub open spec fn apply_record(m: Map<Seq<u8>, Seq<u8>>, r: SpecRecord) -> Map<Seq<u8>, Seq<u8>> {
    if r.record_type == LogRecordType::Normal {
        m.insert(r.key, r.value)
    } else {
        m.remove(r.key)
    }
}

/// Folds a record sequence over a map, oldest record first.
pub open spec fn replay_records(m: Map<Seq<u8>, Seq<u8>>, rs: Seq<SpecRecord>) -> Map<Seq<u8>, Seq<u8>>
    decreases rs.len(),
{
    if rs.len() == 0 {
        m
    } else {
        replay_records(apply_record(m, rs[0]), rs.skip(1))
    }
}

pub proof fn lemma_replay_snoc(m: Map<Seq<u8>, Seq<u8>>, rs: Seq<SpecRecord>, r: SpecRecord)
    ensures
        replay_records(m, rs.push(r)) == apply_record(replay_records(m, rs), r),
    decreases rs.len(),
{
    if rs.len() == 0 {
        assert(rs.push(r).skip(1) =~= Seq::<SpecRecord>::empty());
        assert(rs.push(r)[0] == r);
        assert(replay_records(m, rs.push(r))
            == replay_records(apply_record(m, r), Seq::<SpecRecord>::empty()));
        assert(replay_records(apply_record(m, r), Seq::<SpecRecord>::empty())
            == apply_record(m, r));
        assert(replay_records(m, rs) == m);
    } else {
        assert(rs.push(r)[0] == rs[0]);
        assert(rs.push(r).skip(1) =~= rs.skip(1).push(r));
        lemma_replay_snoc(apply_record(m, rs[0]), rs.skip(1), r);
        assert(replay_records(m, rs.push(r))
            == replay_records(apply_record(m, rs[0]), rs.skip(1).push(r)));
        assert(replay_records(m, rs) == replay_records(apply_record(m, rs[0]), rs.skip(1)));
    }
}

/// The records of a file sequence, file by file in order.
pub open spec fn files_records(files: Seq<DataFile>) -> Seq<SpecRecord>
    decreases files.len(),
{
    if files.len() == 0 {
        Seq::<SpecRecord>::empty()
    } else {
        files_records(files.drop_last()) + records_of(files.last().data@)
    }
}

/// Every file is a valid record log.
pub open spec fn files_valid(files: Seq<DataFile>) -> bool {
    forall|i: int| 0 <= i < files.len() ==> valid_log(#[trigger] files[i].data@)
}

/// File ids are strictly ascending.
pub open spec fn ids_ascending(files: Seq<DataFile>) -> bool {
    forall|i: int, j: int| 0 <= i < j < files.len() ==> files[i].id < files[j].id
}

/// The logical map a file sequence denotes: all its records replayed over
/// the empty map.
pub open spec fn replay_files(files: Seq<DataFile>) -> Map<Seq<u8>, Seq<u8>> {
    replay_records(Map::<Seq<u8>, Seq<u8>>::empty(), files_records(files))
}

/// The file holding a given id, if any.
pub open spec fn find_file(files: Seq<DataFile>, fid: u32) -> Option<DataFile>
    decreases files.len(),
{
    if files.len() == 0 {
        None
    } else if files.last().id == fid {
        Some(files.last())
    } else {
        find_file(files.drop_last(), fid)
    }
}

pub proof fn lemma_find_file(files: Seq<DataFile>, fid: u32)
    ensures
        match find_file(files, fid) {
            None => forall|i: int| 0 <= i < files.len() ==> files[i].id != fid,
            Some(f) => f.id == fid && exists|i: int| 0 <= i < files.len() && files[i] == f,
        },
    decreases files.len(),
{
    if files.len() > 0 {
        lemma_find_file(files.drop_last(), fid);
        if files.last().id != fid {
            match find_file(files.drop_last(), fid) {
                None => {
                    assert forall|i: int| 0 <= i < files.len() implies files[i].id != fid by {
                        if i < files.len() - 1 {
                            assert(files.drop_last()[i] == files[i]);
                        }
                    }
                },
                Some(f) => {
                    let i = choose|i: int|
                        0 <= i < files.drop_last().len() && files.drop_last()[i] == f;
                    assert(files[i] == f);
                },
            }
        }
    }
}

/// With ascending ids, the file found for an id is the element that
/// holds it.
pub proof fn lemma_find_file_at(files: Seq<DataFile>, i: int)
    requires
        ids_ascending(files),
        0 <= i < files.len(),
    ensures
        find_file(files, files[i].id) == Some(files[i]),
{
    lemma_find_file(files, files[i].id);
    match find_file(files, files[i].id) {
        None => {},
        Some(f) => {
            let j = choose|j: int| 0 <= j < files.len() && files[j] == f;
            if i < j {
                assert(files[i].id < files[j].id);
            } else if j < i {
                assert(files[j].id < files[i].id);
            }
        },
    }
}

/// The record stored at a location of a file set.
pub open spec fn record_at(files: Seq<DataFile>, pos: LogRecordPos) -> ParsedRecord {
    match find_file(files, pos.file_id) {
        None => ParsedRecord::Bad,
        Some(f) => spec_parse_record(f.data@, pos.offset as int),
    }
}

/// The index under construction maps exactly the keys that replaying the
/// processed records leaves live, each to a location that holds its most
/// recent live record.
pub open spec fn rebuild_inv(
    idx: Map<Seq<u8>, LogRecordPos>,
    files: Seq<DataFile>,
    processed: Seq<SpecRecord>,
) -> bool {
    let m = replay_records(Map::<Seq<u8>, Seq<u8>>::empty(), processed);
    &&& forall|k: Seq<u8>| #[trigger] idx.contains_key(k) ==> {
        let p = record_at(files, idx[k]);
        &&& p is Rec
        &&& p->Rec_rec.record_type == LogRecordType::Normal
        &&& p->Rec_rec.key == k
        &&& m.contains_key(k)
        &&& p->Rec_rec.value == m[k]
    }
    &&& forall|k: Seq<u8>| #[trigger] m.contains_key(k) ==> idx.contains_key(k)
}

/// One replay step of the rebuild: updating the index by the parsed
/// record keeps the rebuild invariant.
proof fn lemma_rebuild_step(
    idx_old: Map<Seq<u8>, LogRecordPos>,
    idx_new: Map<Seq<u8>, LogRecordPos>,
    whole: Seq<DataFile>,
    processed: Seq<SpecRecord>,
    specrec: SpecRecord,
    pos: LogRecordPos,
)
    requires
        rebuild_inv(idx_old, whole, processed),
        record_at(whole, pos) is Rec,
        record_at(whole, pos)->Rec_rec == specrec,
        specrec.record_type == LogRecordType::Normal
            ==> idx_new == idx_old.insert(specrec.key, pos),
        specrec.record_type != LogRecordType::Normal
            ==> idx_new == idx_old.remove(specrec.key),
    ensures
        rebuild_inv(idx_new, whole, processed.push(specrec)),
{
    let empty_map = Map::<Seq<u8>, Seq<u8>>::empty();
    let m = replay_records(empty_map, processed);
    lemma_replay_snoc(empty_map, processed, specrec);
    let m2 = replay_records(empty_map, processed.push(specrec));
    assert(m2 == apply_record(m, specrec));
    assert forall|k: Seq<u8>| #[trigger] idx_new.contains_key(k) implies {
        let q = record_at(whole, idx_new[k]);
        &&& q is Rec
        &&& q->Rec_rec.record_type == LogRecordType::Normal
        &&& q->Rec_rec.key == k
        &&& m2.contains_key(k)
        &&& q->Rec_rec.value == m2[k]
    } by {
        if k == specrec.key {
            assert(specrec.record_type == LogRecordType::Normal);
            assert(idx_new[k] == pos);
        } else {
            assert(idx_old.contains_key(k));
            assert(idx_new[k] == idx_old[k]);
            assert(m2.contains_key(k) == m.contains_key(k));
            if m.contains_key(k) {
                assert(m2[k] == m[k]);
            }
        }
    }
    assert forall|k: Seq<u8>| #[trigger] m2.contains_key(k) implies
        idx_new.contains_key(k) by {
        if k != specrec.key {
            assert(m.contains_key(k));
        }
    }
}


/// A live record as `put` writes it.
pub open spec fn normal_record(k: Seq<u8>, v: Seq<u8>) -> SpecRecord {
    SpecRecord { key: k, value: v, record_type: LogRecordType::Normal }
}

/// A tombstone as `delete` writes it.
pub open spec fn tombstone_record(k: Seq<u8>) -> SpecRecord {
    SpecRecord { key: k, value: Seq::<u8>::empty(), record_type: LogRecordType::Deleted }
}

/// Whether appending this record would push the active segment past the
/// configured size bound, forcing a rotation.
pub open spec fn needs_rotation(e: Engine, r: SpecRecord) -> bool {
    e.active_file.data@.len() + spec_record_size(r) > e.options.data_file_size
}

/// How one successful append changes the segment files: a record is
/// never split across segments. When it fits, the active segment simply
/// grows by the record's encoding; when it does not, the active segment
/// retires unchanged into the idle set and a fresh segment holding
/// exactly this record becomes active.
pub open spec fn rotation_shape(pre: Engine, post: Engine, r: SpecRecord) -> bool {
    if needs_rotation(pre, r) {
        &&& post.idle_file@ == pre.idle_file@.push(pre.active_file)
        &&& post.active_file.id == pre.active_file.id + 1
        &&& post.active_file.data@ == spec_encoding(r)
    } else {
        &&& post.idle_file@ == pre.idle_file@
        &&& post.active_file.id == pre.active_file.id
        &&& post.active_file.data@ == pre.active_file.data@ + spec_encoding(r)
    }
}

/// Every segment fits the configured size bound.
pub open spec fn segments_bounded(e: Engine) -> bool {
    forall|i: int| 0 <= i < e.files_view().len()
        ==> (#[trigger] e.files_view()[i]).data@.len() <= e.options.data_file_size
}

/// Segment-size law: as long as every appended record itself fits the
/// configured bound, writes keep every segment (retired and active)
/// within that bound. A rotation retires the active segment before the
/// record that would overflow it is written, so no segment ever holds a
/// partial record.
pub proof fn lemma_segment_bounds(pre: Engine, post: Engine, r: SpecRecord)
    requires
        segments_bounded(pre),
        rotation_shape(pre, post, r),
        post.options == pre.options,
        spec_record_size(r) <= pre.options.data_file_size,
    ensures
        segments_bounded(post),
{
    lemma_encoding_size(r);
    let fv_pre = pre.files_view();
    let fv_post = post.files_view();
    assert forall|i: int| 0 <= i < fv_post.len() implies
        (#[trigger] fv_post[i]).data@.len() <= post.options.data_file_size by {
        if needs_rotation(pre, r) {
            if i < fv_post.len() - 1 {
                assert(fv_post[i] == fv_pre[i]);
            } else {
                assert(fv_post[i] == post.active_file);
            }
        } else {
            if i < fv_post.len() - 1 {
                assert(fv_post[i] == fv_pre[i]);
            } else {
                assert(fv_post[i] == post.active_file);
                assert(pre.active_file.data@.len() + spec_record_size(r)
                    <= pre.options.data_file_size);
            }
        }
    }
}

/// Round-trip law: after a `put` of `v` under `k` (whose effect on the
/// engine's view is `insert(k, v)`), a `get` of `k` (which returns the
/// view's value at `k`) yields exactly `v`.
pub proof fn lemma_round_trip(pre: Engine, post: Engine, k: Seq<u8>, v: Seq<u8>)
    requires
        post@ == pre@.insert(k, v),
    ensures
        post@.contains_key(k),
        post@[k] == v,
{
}

/// Last-write-wins law: two `put`s under the same key leave the second
/// value in the view, whatever the first stored.
pub proof fn lemma_last_write_wins(m: Map<Seq<u8>, Seq<u8>>, k: Seq<u8>, v1: Seq<u8>, v2: Seq<u8>)
    ensures
        m.insert(k, v1).insert(k, v2)[k] == v2,
        m.insert(k, v1).insert(k, v2).contains_key(k),
{
}

/// Delete law: after a `put` of `k` and a `delete` of `k` (whose effects
/// on the view are `insert` and `remove`), the key is absent, so a `get`
/// of `k` fails with `KeyNotFound` by `get`'s contract.
pub proof fn lemma_put_delete_not_found(m: Map<Seq<u8>, Seq<u8>>, k: Seq<u8>, v: Seq<u8>)
    ensures
        !m.insert(k, v).remove(k).contains_key(k),
{
}

/// Persistence law: a well-formed engine's view is exactly the replay of
/// its segment files. Since `Engine::new` builds an engine whose view is
/// the replay of the files it is given, reopening an engine over its own
/// segment bytes reproduces the same observable mapping.
pub proof fn lemma_reopen_recovers(e: Engine)
    requires
        e.wf(),
    ensures
        replay_files(e.files_view()) == e@,
        ids_ascending(e.files_view()),
        files_valid(e.files_view()),
{
}

/// An encoded record on its own is a valid single-record log.
proof fn lemma_records_of_single(r: SpecRecord)
    requires
        encodable(r),
        r.key.len() >= 1,
    ensures
        valid_log(spec_encoding(r)),
        records_of(spec_encoding(r)) =~= seq![r],
{
    let e = spec_encoding(r);
    lemma_encoding_size(r);
    assert(e.subrange(0, spec_record_size(r) as int) =~= e);
    lemma_parse_roundtrip(e, 0, r);
    assert(spec_parse_record(e, spec_record_size(r) as int) is End);
    assert(spec_scan(e, spec_record_size(r) as int) == Some(Seq::<SpecRecord>::empty()));
    assert(spec_scan(e, 0) == Some(seq![r] + Seq::<SpecRecord>::empty()));
    assert(seq![r] + Seq::<SpecRecord>::empty() =~= seq![r]);
}

/// Lookup in a file stack whose top was replaced by a same-id file.
proof fn lemma_find_extend_last(idle: Seq<DataFile>, a: DataFile, fid: u32)
    ensures
        find_file(idle.push(a), fid) == (if fid == a.id {
            Some(a)
        } else {
            find_file(idle, fid)
        }),
{
    assert(idle.push(a).last() == a);
    assert(idle.push(a).drop_last() =~= idle);
}

/// In an ascending file stack every id is at most the last one.
proof fn lemma_ascending_max(files: Seq<DataFile>)
    requires
        ids_ascending(files),
        files.len() > 0,
    ensures
        forall|i: int| 0 <= i < files.len() ==> #[trigger] files[i].id <= files.last().id,
{
    assert forall|i: int| 0 <= i < files.len() implies #[trigger] files[i].id <= files.last().id by {
        if i < files.len() - 1 {
            assert(files[i].id < files[files.len() - 1].id);
        }
    }
}

/// Appending a record to the log and applying the same record to the
/// index moves the whole engine by one `apply_record` step: the logical
/// map is updated, the replay equation is preserved, and every index
/// entry still resolves.
proof fn lemma_apply_step(pre: Engine, post: Engine, rec: SpecRecord, pos: LogRecordPos)
    requires
        pre.wf(),
        post.options == pre.options,
        ids_ascending(post.files_view()),
        files_valid(post.files_view()),
        files_records(post.files_view()) == files_records(pre.files_view()).push(rec),
        record_at(post.files_view(), pos)
            == (ParsedRecord::Rec { rec, len: spec_record_size(rec) as int }),
        forall|q: LogRecordPos| (#[trigger] record_at(pre.files_view(), q)) is Rec
            ==> record_at(post.files_view(), q) == record_at(pre.files_view(), q),
        post.index.wf(),
        rec.record_type == LogRecordType::Normal
            ==> post.index@ == pre.index@.insert(rec.key, pos),
        rec.record_type != LogRecordType::Normal
            ==> post.index@ == pre.index@.remove(rec.key),
    ensures
        post.wf(),
        post@ == apply_record(pre@, rec),
{
    let empty_map = Map::<Seq<u8>, Seq<u8>>::empty();
    lemma_replay_snoc(empty_map, files_records(pre.files_view()), rec);
    assert(replay_files(post.files_view()) == apply_record(pre@, rec));
    let lhs = post@;
    let rhs = apply_record(pre@, rec);
    assert_maps_equal!(lhs, rhs, k => {
        if k == rec.key {
            if rec.record_type == LogRecordType::Normal {
                assert(post.index@.contains_key(k));
                assert(post.index@[k] == pos);
                assert(record_at(post.files_view(), pos)->Rec_rec.value == rec.value);
            } else {
                assert(!post.index@.contains_key(k));
            }
        } else {
            assert(post.index@.contains_key(k) == pre.index@.contains_key(k));
            if pre.index@.contains_key(k) {
                assert(post.index@[k] == pre.index@[k]);
                assert(record_at(pre.files_view(), pre.index@[k]) is Rec);
                assert(record_at(post.files_view(), post.index@[k])
                    == record_at(pre.files_view(), pre.index@[k]));
            }
        }
    });
    assert forall|k: Seq<u8>| #[trigger] post.index@.contains_key(k) implies {
        let q = record_at(post.files_view(), post.index@[k]);
        &&& q is Rec
        &&& q->Rec_rec.record_type == LogRecordType::Normal
        &&& q->Rec_rec.key == k
        &&& q->Rec_rec.value == post@[k]
    } by {
        if k == rec.key {
            assert(rec.record_type == LogRecordType::Normal);
            assert(post.index@[k] == pos);
        } else {
            assert(pre.index@.contains_key(k));
            assert(record_at(pre.files_view(), pre.index@[k]) is Rec);
        }
    }
}

/// The storage engine: the active segment, the retired read-only
/// segments, the in-memory index, and the batch sequence counter.
#[derive(Debug)]
pub struct Engine {
    pub options: Options,
    pub active_file: DataFile,
    pub idle_file: Vec<DataFile>,
    pub index: BTree,
    pub seq_no: u64,
}

impl View for Engine {
    type V = Map<Seq<u8>, Seq<u8>>;

    /// The logical key/value mapping: each indexed key, bound to the
    /// value of the record its index entry points at.
    open spec fn view(&self) -> Map<Seq<u8>, Seq<u8>> {
        Map::new(
            |k: Seq<u8>| self.index@.contains_key(k),
            |k: Seq<u8>| record_at(self.files_view(), self.index@[k])->Rec_rec.value,
        )
    }
}

impl Engine {
    /// All segments in file-id order: the idle ones, then the active one.
    pub open spec fn files_view(&self) -> Seq<DataFile> {
        self.idle_file@.push(self.active_file)
    }

    /// Every index entry points at a live record that holds its key.
    pub open spec fn index_ok(&self) -> bool {
        forall|k: Seq<u8>| #[trigger] self.index@.contains_key(k) ==> {
            let p = record_at(self.files_view(), self.index@[k]);
            &&& p is Rec
            &&& p->Rec_rec.record_type == LogRecordType::Normal
            &&& p->Rec_rec.key == k
            &&& p->Rec_rec.value == self@[k]
        }
    }

    /// The engine invariant: segments are valid logs with ascending ids,
    /// the index is an ordered map whose entries resolve to live records,
    /// and replaying every segment reproduces exactly the logical map.
    /// The last clause is what makes recovery sound.
    pub open spec fn wf(&self) -> bool {
        &&& ids_ascending(self.files_view())
        &&& files_valid(self.files_view())
        &&& self.index.wf()
        &&& self.index_ok()
        &&& replay_files(self.files_view()) == self@
        &&& self.options.data_file_size >= 1
        &&& self.options.index_type == IndexType::BTree
    }

    /// The retired segments, for callers that mirror them to disk.
    pub fn idle_datafiles(&self) -> (r: &Vec<DataFile>)
        ensures
            r == &self.idle_file,
    {
        &self.idle_file
    }

    /// The active segment, for callers that mirror it to disk.
    pub fn active_datafile(&self) -> (r: &DataFile)
        ensures
            r == &self.active_file,
    {
        &self.active_file
    }

    /// Opens an engine over the segment files of its directory, given in
    /// ascending file-id order, and rebuilds the index by replaying every
    /// segment in order. The segment with the largest id becomes the
    /// active one; an empty directory opens a fresh segment with id 0.
    pub fn new(opts: Options, files: Vec<DataFile>) -> (r: Result<Engine, Errors>)
        requires
            ids_ascending(files@),
            opts.index_type == IndexType::BTree,
        ensures
            opts.data_file_size == 0 ==> r == Err::<Engine, Errors>(Errors::DatafileSizeTooSmall),
            opts.data_file_size > 0 ==> match r {
                Ok(e) => {
                    &&& e.wf()
                    &&& files_valid(files@)
                    &&& e@ == replay_files(files@)
                    &&& e.options == opts
                    &&& e.seq_no == 0
                    &&& files@.len() > 0 ==> e.files_view() == files@
                    &&& files@.len() == 0 ==> e.files_view().len() == 1
                        && e.files_view()[0].id == 0
                        && e.files_view()[0].data@ == Seq::<u8>::empty()
                },
                Err(err) => err == Errors::DatafileCorrupted && !files_valid(files@),
            },
    {
        if let Err(e) = check_options(&opts) {
            return Err(e);
        }
        let mut index = BTree::new();
        let n = files.len();
        let mut fi: usize = 0;
        let ghost whole = files@;
        proof {
            assert(whole.subrange(0, 0) =~= Seq::<DataFile>::empty());
            assert(rebuild_inv(index@, whole, files_records(whole.subrange(0, 0))));
        }
        while fi < n
            invariant
                fi <= n,
                n == whole.len(),
                files@ == whole,
                ids_ascending(whole),
                opts.data_file_size > 0,
                index.wf(),
                forall|j: int| 0 <= j < fi ==> valid_log(#[trigger] whole[j].data@),
                rebuild_inv(index@, whole, files_records(whole.subrange(0, fi as int))),
            decreases n - fi,
        {
            let ghost done_before = files_records(whole.subrange(0, fi as int));
            let mut offset: u64 = 0;
            let ghost fdata = files@[fi as int].data@;
            let ghost mut done: Seq<SpecRecord> = Seq::empty();
            proof {
                assert(done_before + done =~= done_before);
            }
            loop
                invariant
                    fi < n,
                    n == whole.len(),
                    files@ == whole,
                    ids_ascending(whole),
                    opts.data_file_size > 0,
                    index.wf(),
                    fdata == whole[fi as int].data@,
                    0 <= offset <= fdata.len(),
                    (match spec_scan(fdata, offset as int) {
                        None => spec_scan(fdata, 0) is None,
                        Some(rest) => spec_scan(fdata, 0) == Some(done + rest),
                    }),
                    rebuild_inv(index@, whole, done_before + done),
                ensures
                    files@ == whole,
                    index.wf(),
                    valid_log(fdata),
                    spec_scan(fdata, 0) == Some(done),
                    rebuild_inv(index@, whole, done_before + done),
                decreases fdata.len() - offset,
            {
                let f = &files[fi];
                let fsize = f.offset();
                match f.read(offset) {
                    Err(_) => {
                        proof {
                            assert(spec_parse_record(fdata, offset as int) is Bad);
                            assert(spec_scan(fdata, 0) is None);
                            assert(!files_valid(whole));
                        }
                        return Err(Errors::DatafileCorrupted);
                    },
                    Ok(None) => {
                        if offset < fsize {
                            proof {
                                assert(spec_parse_record(fdata, offset as int) is End);
                                assert(offset < fdata.len());
                                assert(spec_scan(fdata, offset as int) is None);
                                assert(spec_scan(fdata, 0) is None);
                                assert(!files_valid(whole));
                            }
                            return Err(Errors::DatafileCorrupted);
                        }
                        proof {
                            assert(offset == fdata.len());
                            assert(spec_parse_record(fdata, offset as int) is End);
                            assert(spec_scan(fdata, offset as int)
                                == Some(Seq::<SpecRecord>::empty()));
                            assert(done + Seq::<SpecRecord>::empty() =~= done);
                            assert(spec_scan(fdata, 0) == Some(done));
                        }
                        break;
                    },
                    Ok(Some(rec)) => {
                        let ghost p = spec_parse_record(fdata, offset as int);
                        let ghost specrec = p->Rec_rec;
                        let ghost len = p->Rec_len;
                        let ghost prev_done = done;
                        proof {
                            lemma_parse_props(fdata, offset as int);
                        }
                        let pos = LogRecordPos { file_id: f.id(), offset };
                        let sz = rec.size();
                        let ghost idx_old = index@;
                        match rec.record_type {
                            LogRecordType::Normal => {
                                index.put(rec.key, pos);
                            },
                            LogRecordType::Deleted => {
                                index.delete(rec.key);
                            },
                        }
                        proof {
                            done = prev_done.push(specrec);
                            // The scan moves one record forward.
                            match spec_scan(fdata, offset + len) {
                                None => {
                                    assert(spec_scan(fdata, offset as int) is None);
                                },
                                Some(rest2) => {
                                    assert(spec_scan(fdata, offset as int)
                                        == Some(seq![specrec] + rest2));
                                    assert(prev_done + (seq![specrec] + rest2)
                                        =~= done + rest2);
                                },
                            }
                            // The new index entry resolves to this record,
                            // and the rebuild invariant takes one step.
                            lemma_find_file_at(whole, fi as int);
                            assert(record_at(whole, pos) == p);
                            lemma_rebuild_step(idx_old, index@, whole,
                                done_before + prev_done, specrec, pos);
                            assert((done_before + prev_done).push(specrec)
                                =~= done_before + done);
                        }
                        offset = offset + sz;
                    },
                }
            }
            proof {
                assert(valid_log(fdata));
                assert(whole.subrange(0, fi + 1).drop_last() =~= whole.subrange(0, fi as int));
                assert(whole.subrange(0, fi + 1).last() == whole[fi as int]);
                assert(files_records(whole.subrange(0, fi + 1)) == done_before + done);
            }
            fi += 1;
        }
        proof {
            assert(whole.subrange(0, n as int) =~= whole);
        }
        // Every segment replayed cleanly; pick the active segment.
        let mut files = files;
        match files.pop() {
            None => {
                let active = DataFile::new(0, Vec::new());
                let e = Engine {
                    options: opts,
                    active_file: active,
                    idle_file: files,
                    index,
                    seq_no: 0,
                };
                proof {
                    let fv = e.files_view();
                    assert(fv =~= seq![e.active_file]);
                    assert(e.active_file.data@ =~= Seq::<u8>::empty());
                    assert(spec_parse_record(e.active_file.data@, 0) is End);
                    assert(spec_scan(e.active_file.data@, 0)
                        == Some(Seq::<SpecRecord>::empty()));
                    assert(records_of(e.active_file.data@).len() == 0);
                    assert(fv.drop_last() =~= Seq::<DataFile>::empty());
                    assert(fv.last() == e.active_file);
                    assert(records_of(e.active_file.data@) =~= Seq::<SpecRecord>::empty());
                    assert(files_records(Seq::<DataFile>::empty()) =~= Seq::<SpecRecord>::empty());
                    assert(files_records(fv)
                        == files_records(fv.drop_last()) + records_of(fv.last().data@));
                    assert(files_records(fv) =~= Seq::<SpecRecord>::empty());
                    assert(whole.len() == 0);
                    assert(whole =~= Seq::<DataFile>::empty());
                    assert(files_records(whole) =~= Seq::<SpecRecord>::empty());
                    let m = replay_records(Map::<Seq<u8>, Seq<u8>>::empty(), files_records(whole));
                    assert(m == Map::<Seq<u8>, Seq<u8>>::empty());
                    // The loop never ran, so the index is still empty.
                    assert(rebuild_inv(index@, whole, files_records(whole)));
                    lemma_view_from_rebuild(e, whole, m);
                    assert(replay_files(fv) == replay_files(whole));
                }
                Ok(e)
            },
            Some(active) => {
                let e = Engine {
                    options: opts,
                    active_file: active,
                    idle_file: files,
                    index,
                    seq_no: 0,
                };
                proof {
                    assert(e.files_view() =~= whole);
                    let m = replay_records(Map::<Seq<u8>, Seq<u8>>::empty(), files_records(whole));
                    assert(rebuild_inv(index@, whole, files_records(whole)));
                    lemma_view_from_rebuild(e, whole, m);
                }
                Ok(e)
            },
        }
    }
}

/// When the rebuild invariant holds of an engine's parts over the whole
/// file sequence, the engine's view is the replayed map and the engine is
/// well-formed on the index side.
proof fn lemma_view_from_rebuild(e: Engine, whole: Seq<DataFile>, m: Map<Seq<u8>, Seq<u8>>)
    requires
        e.files_view() == whole || whole.len() == 0,
        whole.len() == 0 ==> e.files_view().len() == 1
            && records_of(e.files_view()[0].data@).len() == 0
            && e.files_view()[0].data@ == Seq::<u8>::empty(),
        m == replay_records(Map::<Seq<u8>, Seq<u8>>::empty(), files_records(whole)),
        rebuild_inv(e.index@, whole, files_records(whole)),
        files_valid(whole),
        ids_ascending(whole),
    ensures
        e@ == m,
        e.index_ok(),
        replay_files(e.files_view()) == e@,
        files_valid(e.files_view()),
        ids_ascending(e.files_view()),
{
    if whole.len() == 0 {
        // A fresh engine: one empty segment, an empty index, an empty map.
        let fv = e.files_view();
        assert(fv.drop_last() =~= Seq::<DataFile>::empty());
        assert(files_records(Seq::<DataFile>::empty()) =~= Seq::<SpecRecord>::empty());
        assert(fv.last() == fv[0]);
        assert(records_of(fv[0].data@) =~= Seq::<SpecRecord>::empty());
        assert(files_records(fv)
            == files_records(fv.drop_last()) + records_of(fv.last().data@));
        assert(files_records(fv) =~= Seq::<SpecRecord>::empty());
        assert(files_records(whole) =~= Seq::<SpecRecord>::empty());
        assert(m == Map::<Seq<u8>, Seq<u8>>::empty());
        assert(forall|k: Seq<u8>| !m.contains_key(k));
        assert(forall|k: Seq<u8>| #[trigger] e.index@.contains_key(k) ==> m.contains_key(k));
        let lhs = e@;
        assert_maps_equal!(lhs, m, k => {});
        assert(valid_log(fv[0].data@));
        assert(files_valid(fv)) by {
            assert forall|i: int| 0 <= i < fv.len() implies valid_log(#[trigger] fv[i].data@) by {
                assert(i == 0);
            }
        }
        assert(ids_ascending(fv));
        assert(replay_files(fv) == m);
        assert(e.index_ok());
    } else {
        let lhs = e@;
        assert_maps_equal!(lhs, m, k => {});
        assert(e.index_ok());
        assert(replay_files(e.files_view()) == m);
    }
}


impl Engine {
    /// Encodes the record and appends it to the active segment, rotating
    /// to a fresh segment first when the record would not fit. Returns
    /// the location of the appended record. Fails only when a rotation
    /// is needed and the active segment already has the largest possible
    /// id.
    fn append_log_record(&mut self, record: LogRecord) -> (r: Result<LogRecordPos, Errors>)
        requires
            old(self).wf(),
            encodable(record@),
            record@.key.len() >= 1,
        ensures
            final(self).options == old(self).options,
            final(self).seq_no == old(self).seq_no,
            final(self).index == old(self).index,
            r is Err ==> *final(self) == *old(self)
                && r == Err::<LogRecordPos, Errors>(Errors::InternalError)
                && needs_rotation(*old(self), record@)
                && old(self).active_file.id == u32::MAX,
            r is Ok ==> !(needs_rotation(*old(self), record@)
                && old(self).active_file.id == u32::MAX),
            r matches Ok(pos) ==> {
                &&& ids_ascending(final(self).files_view())
                &&& files_valid(final(self).files_view())
                &&& files_records(final(self).files_view())
                    == files_records(old(self).files_view()).push(record@)
                &&& record_at(final(self).files_view(), pos)
                    == (ParsedRecord::Rec { rec: record@, len: spec_record_size(record@) as int })
                &&& forall|q: LogRecordPos| (#[trigger] record_at(old(self).files_view(), q)) is Rec
                    ==> record_at(final(self).files_view(), q)
                        == record_at(old(self).files_view(), q)
                &&& if needs_rotation(*old(self), record@) {
                    &&& final(self).idle_file@ == old(self).idle_file@.push(old(self).active_file)
                    &&& final(self).active_file.id == old(self).active_file.id + 1
                    &&& final(self).active_file.data@ == spec_encoding(record@)
                    &&& pos.file_id == old(self).active_file.id + 1
                    &&& pos.offset == 0
                } else {
                    &&& final(self).idle_file@ == old(self).idle_file@
                    &&& final(self).active_file.id == old(self).active_file.id
                    &&& final(self).active_file.data@
                        == old(self).active_file.data@ + spec_encoding(record@)
                    &&& pos.file_id == old(self).active_file.id
                    &&& pos.offset == old(self).active_file.data@.len()
                }
            },
    {
        let enc = record.encode();
        proof {
            lemma_encoding_size(record@);
        }
        let enc_len = enc.len() as u64;
        let cap = self.options.data_file_size;
        let off = self.active_file.offset();
        let rotate = off > cap || enc_len > cap - off;
        proof {
            assert(rotate == needs_rotation(*old(self), record@));
        }
        if rotate {
            let _ = self.active_file.sync();
            let fid = self.active_file.id();
            if fid == u32::MAX {
                return Err(Errors::InternalError);
            }
            let mut fresh = DataFile::new(fid + 1, Vec::new());
            core::mem::swap(&mut self.active_file, &mut fresh);
            self.idle_file.push(fresh);
            proof {
                assert(self.active_file.data@ =~= Seq::<u8>::empty());
            }
        }
        let ghost mid = *self;
        let ghost oldlen = self.active_file.data@.len() as int;
        match self.active_file.write(enc.as_slice()) {
            Ok(_) => {},
            Err(_) => {
                return Err(Errors::InternalError);
            },
        }
        if self.options.sync_writes {
            let _ = self.active_file.sync();
        }
        let new_off = self.active_file.offset();
        let pos = LogRecordPos { file_id: self.active_file.id(), offset: new_off - enc_len };
        proof {
            let fv_old = old(self).files_view();
            let fv_new = self.files_view();
            let e = spec_encoding(record@);
            let size = spec_record_size(record@) as int;
            assert(pos.offset == mid.active_file.data@.len());
            assert(self.active_file.data@ == mid.active_file.data@ + e);
            if rotate {
                // The retired segment keeps its bytes; the fresh one holds
                // exactly the new record.
                lemma_ascending_max(fv_old);
                assert(mid.idle_file@ == old(self).idle_file@.push(old(self).active_file));
                assert(mid.active_file.data@ =~= Seq::<u8>::empty());
                assert(Seq::<u8>::empty() + e =~= e);
                assert(self.active_file.data@ == e);
                lemma_records_of_single(record@);
                assert(fv_new == mid.idle_file@.push(self.active_file));
                assert(ids_ascending(fv_new)) by {
                    assert forall|i: int, j: int| 0 <= i < j < fv_new.len() implies
                        fv_new[i].id < fv_new[j].id by {
                        if j < fv_new.len() - 1 {
                            assert(fv_new[i] == fv_old[i] && fv_new[j] == fv_old[j]);
                        } else {
                            assert(fv_new[j] == self.active_file);
                            if i < fv_new.len() - 1 {
                                assert(fv_new[i] == fv_old[i]);
                                assert(fv_old[i].id <= fv_old.last().id);
                            }
                        }
                    }
                }
                assert(files_valid(fv_new)) by {
                    assert forall|i: int| 0 <= i < fv_new.len() implies
                        valid_log(#[trigger] fv_new[i].data@) by {
                        if i < fv_new.len() - 1 {
                            assert(fv_new[i] == fv_old[i]);
                        }
                    }
                }
                assert(fv_new.drop_last() =~= fv_old);
                assert(files_records(fv_new)
                    == files_records(fv_old) + records_of(self.active_file.data@));
                assert(records_of(self.active_file.data@) =~= seq![record@]);
                assert(files_records(fv_old) + seq![record@]
                    =~= files_records(fv_old).push(record@));
                // The new record parses back at its location.
                assert(e.subrange(0, size) =~= e);
                lemma_parse_roundtrip(self.active_file.data@, 0, record@);
                lemma_find_extend_last(mid.idle_file@, self.active_file, pos.file_id);
                assert(record_at(fv_new, pos)
                    == (ParsedRecord::Rec { rec: record@, len: size }));
                // Old locations still resolve to the same records.
                assert forall|q: LogRecordPos|
                    (#[trigger] record_at(fv_old, q)) is Rec implies
                    record_at(fv_new, q) == record_at(fv_old, q) by {
                    lemma_find_file(fv_old, q.file_id);
                    match find_file(fv_old, q.file_id) {
                        None => {},
                        Some(f) => {
                            let i = choose|i: int|
                                0 <= i < fv_old.len() && fv_old[i] == f;
                            assert(fv_old[i].id <= fv_old.last().id);
                            assert(q.file_id != self.active_file.id);
                            lemma_find_extend_last(mid.idle_file@, self.active_file, q.file_id);
                            assert(fv_old =~= mid.idle_file@);
                            assert(find_file(fv_new, q.file_id) == find_file(fv_old, q.file_id));
                        },
                    }
                }
            } else {
                // The active segment simply grows by one record.
                assert(mid == *old(self));
                assert(fv_new == old(self).idle_file@.push(self.active_file));
                assert(self.active_file.id == old(self).active_file.id);
                assert(ids_ascending(fv_new)) by {
                    assert forall|i: int, j: int| 0 <= i < j < fv_new.len() implies
                        fv_new[i].id < fv_new[j].id by {
                        assert(fv_new[i].id == fv_old[i].id);
                        assert(fv_new[j].id == fv_old[j].id);
                    }
                }
                lemma_scan_append(old(self).active_file.data@, record@, 0);
                assert(valid_log(self.active_file.data@));
                assert(files_valid(fv_new)) by {
                    assert forall|i: int| 0 <= i < fv_new.len() implies
                        valid_log(#[trigger] fv_new[i].data@) by {
                        if i < fv_new.len() - 1 {
                            assert(fv_new[i] == fv_old[i]);
                        }
                    }
                }
                assert(fv_new.drop_last() =~= old(self).idle_file@);
                assert(fv_old.drop_last() =~= old(self).idle_file@);
                assert(records_of(self.active_file.data@)
                    == records_of(old(self).active_file.data@).push(record@));
                assert(files_records(fv_new)
                    == files_records(old(self).idle_file@)
                        + records_of(old(self).active_file.data@).push(record@));
                assert(files_records(fv_old)
                    == files_records(old(self).idle_file@)
                        + records_of(old(self).active_file.data@));
                assert(files_records(old(self).idle_file@)
                        + records_of(old(self).active_file.data@).push(record@)
                    =~= files_records(fv_old).push(record@));
                // The new record parses back at its location.
                assert(self.active_file.data@.subrange(oldlen, oldlen + size) =~= e);
                lemma_parse_roundtrip(self.active_file.data@, oldlen, record@);
                lemma_find_extend_last(old(self).idle_file@, self.active_file, pos.file_id);
                assert(record_at(fv_new, pos)
                    == (ParsedRecord::Rec { rec: record@, len: size }));
                // Old locations still resolve to the same records.
                assert forall|q: LogRecordPos|
                    (#[trigger] record_at(fv_old, q)) is Rec implies
                    record_at(fv_new, q) == record_at(fv_old, q) by {
                    lemma_find_extend_last(old(self).idle_file@, self.active_file, q.file_id);
                    lemma_find_extend_last(old(self).idle_file@, old(self).active_file, q.file_id);
                    if q.file_id == old(self).active_file.id {
                        assert(find_file(fv_old, q.file_id) == Some(old(self).active_file));
                        assert(find_file(fv_new, q.file_id) == Some(self.active_file));
                        lemma_parse_stable(old(self).active_file.data@, e, q.offset as int);
                    }
                }
            }
        }
        Ok(pos)
    }

    /// Stores `value` under `key`: appends a live record and points the
    /// index at it. Rejects the empty key. Fails otherwise only when a
    /// rotation is needed and the active segment id cannot grow.
    pub fn put(&mut self, key: Vec<u8>, value: Vec<u8>) -> (r: Result<(), Errors>)
        requires
            old(self).wf(),
            key@.len() <= u32::MAX,
            value@.len() <= u32::MAX,
        ensures
            final(self).wf(),
            final(self).options == old(self).options,
            final(self).seq_no == old(self).seq_no,
            key@.len() == 0 ==> r == Err::<(), Errors>(Errors::EmptyKey)
                && *final(self) == *old(self),
            r is Ok ==> key@.len() > 0
                && final(self)@ == old(self)@.insert(key@, value@),
            key@.len() > 0 && r is Err ==> r == Err::<(), Errors>(Errors::InternalError)
                && *final(self) == *old(self)
                && needs_rotation(*old(self), normal_record(key@, value@))
                && old(self).active_file.id == u32::MAX,
            r is Ok ==> rotation_shape(*old(self), *final(self), normal_record(key@, value@)),
        {
        if key.is_empty() {
            return Err(Errors::EmptyKey);
        }
        let kcopy = copy_range(&key, 0, key.len());
        let ghost vv = value@;
        let record = LogRecord { key: kcopy, value, record_type: LogRecordType::Normal };
        proof {
            assert(key@.subrange(0, key@.len() as int) =~= key@);
            assert(record@ == normal_record(key@, vv));
        }
        let ghost pre = *self;
        let pos = match self.append_log_record(record) {
            Ok(p) => p,
            Err(e) => {
                return Err(e);
            },
        };
        let ghost mid = *self;
        let ok = self.index.put(key, pos);
        if !ok {
            return Err(Errors::IndexUpdateFail);
        }
        proof {
            assert(self.files_view() == mid.files_view());
            lemma_apply_step(pre, *self, normal_record(key@, vv), pos);
        }
        Ok(())
    }

    /// Removes `key`: appends a tombstone and drops the index entry.
    /// Rejects the empty key; an absent key is `KeyNotFound` and writes
    /// nothing.
    pub fn delete(&mut self, key: Vec<u8>) -> (r: Result<(), Errors>)
        requires
            old(self).wf(),
            key@.len() <= u32::MAX,
        ensures
            final(self).wf(),
            final(self).options == old(self).options,
            final(self).seq_no == old(self).seq_no,
            key@.len() == 0 ==> r == Err::<(), Errors>(Errors::EmptyKey)
                && *final(self) == *old(self),
            key@.len() > 0 && !old(self)@.contains_key(key@)
                ==> r == Err::<(), Errors>(Errors::KeyNotFound) && *final(self) == *old(self),
            r is Ok ==> key@.len() > 0 && old(self)@.contains_key(key@)
                && final(self)@ == old(self)@.remove(key@),
            key@.len() > 0 && old(self)@.contains_key(key@) && r is Err
                ==> r == Err::<(), Errors>(Errors::InternalError)
                    && *final(self) == *old(self)
                    && needs_rotation(*old(self), tombstone_record(key@))
                    && old(self).active_file.id == u32::MAX,
            r is Ok ==> rotation_shape(*old(self), *final(self), tombstone_record(key@)),
        {
        if key.is_empty() {
            return Err(Errors::EmptyKey);
        }
        let probe = copy_range(&key, 0, key.len());
        proof {
            assert(key@.subrange(0, key@.len() as int) =~= key@);
        }
        if self.index.get(probe).is_none() {
            return Err(Errors::KeyNotFound);
        }
        let kcopy = copy_range(&key, 0, key.len());
        let record = LogRecord { key: kcopy, value: Vec::new(), record_type: LogRecordType::Deleted };
        proof {
            assert(key@.subrange(0, key@.len() as int) =~= key@);
            assert(record@.value =~= Seq::<u8>::empty());
            assert(record@ == tombstone_record(key@));
        }
        let ghost pre = *self;
        match self.append_log_record(record) {
            Ok(_) => {},
            Err(e) => {
                return Err(e);
            },
        }
        let ghost mid = *self;
        let ghost pos = pre.index@[key@];
        let existed = self.index.delete(key);
        if !existed {
            return Err(Errors::IndexUpdateFail);
        }
        proof {
            assert(self.files_view() == mid.files_view());
            let ghost appended_pos = choose|q: LogRecordPos|
                record_at(mid.files_view(), q)
                    == (ParsedRecord::Rec {
                        rec: tombstone_record(key@),
                        len: spec_record_size(tombstone_record(key@)) as int,
                    });
            lemma_apply_step(pre, *self, tombstone_record(key@), appended_pos);
        }
        Ok(())
    }

    /// Looks up the value stored for `key`.
    pub fn get(&self, key: Vec<u8>) -> (r: Result<Vec<u8>, Errors>)
        requires
            self.wf(),
        ensures
            key@.len() == 0 ==> r == Err::<Vec<u8>, Errors>(Errors::EmptyKey),
            key@.len() > 0 && self@.contains_key(key@)
                ==> (r matches Ok(v) && v@ == self@[key@]),
            key@.len() > 0 && !self@.contains_key(key@)
                ==> r == Err::<Vec<u8>, Errors>(Errors::KeyNotFound),
    {
        if key.is_empty() {
            return Err(Errors::EmptyKey);
        }
        let ghost kv = key@;
        match self.index.get(key) {
            None => Err(Errors::KeyNotFound),
            Some(pos) => {
                proof {
                    assert(self.index@.contains_key(kv));
                    assert(record_at(self.files_view(), pos) is Rec);
                }
                self.at(&pos)
            },
        }
    }

    /// Reads the value of the record at a location: the active segment if
    /// the id matches, an idle segment otherwise. A missing segment is
    /// `DatafileNotFound`; a tombstone reads as `KeyNotFound`; a location
    /// past the data it points into is `InternalError`.
    pub fn at(&self, pos: &LogRecordPos) -> (r: Result<Vec<u8>, Errors>)
        requires
            self.wf(),
        ensures
            find_file(self.files_view(), pos.file_id) is None
                ==> r == Err::<Vec<u8>, Errors>(Errors::DatafileNotFound),
            find_file(self.files_view(), pos.file_id) matches Some(f)
                ==> match spec_parse_record(f.data@, pos.offset as int) {
                    ParsedRecord::End => r == Err::<Vec<u8>, Errors>(Errors::InternalError),
                    ParsedRecord::Bad => r == Err::<Vec<u8>, Errors>(Errors::DatafileCorrupted),
                    ParsedRecord::Rec { rec, len } =>
                        if rec.record_type == LogRecordType::Normal {
                            r matches Ok(v) && v@ == rec.value
                        } else {
                            r == Err::<Vec<u8>, Errors>(Errors::KeyNotFound)
                        },
                },
    {
        let fv_len = self.idle_file.len();
        if self.active_file.id() == pos.file_id {
            proof {
                lemma_find_extend_last(self.idle_file@, self.active_file, pos.file_id);
            }
            match self.active_file.read(pos.offset) {
                Err(e) => Err(e),
                Ok(None) => Err(Errors::InternalError),
                Ok(Some(rec)) => match rec.record_type {
                    LogRecordType::Normal => Ok(rec.value),
                    LogRecordType::Deleted => Err(Errors::KeyNotFound),
                },
            }
        } else {
            let mut i: usize = 0;
            while i < fv_len
                invariant
                    self.wf(),
                    i <= fv_len,
                    fv_len == self.idle_file@.len(),
                    pos.file_id != self.active_file.id,
                    forall|j: int| 0 <= j < i ==> #[trigger] self.idle_file@[j].id != pos.file_id,
                decreases fv_len - i,
            {
                let f = &self.idle_file[i];
                if f.id() == pos.file_id {
                    proof {
                        assert(self.files_view()[i as int] == self.idle_file@[i as int]);
                        lemma_find_file_at(self.files_view(), i as int);
                    }
                    return match f.read(pos.offset) {
                        Err(e) => Err(e),
                        Ok(None) => Err(Errors::InternalError),
                        Ok(Some(rec)) => match rec.record_type {
                            LogRecordType::Normal => Ok(rec.value),
                            LogRecordType::Deleted => Err(Errors::KeyNotFound),
                        },
                    };
                }
                i += 1;
            }
            proof {
                lemma_find_file(self.files_view(), pos.file_id);
                match find_file(self.files_view(), pos.file_id) {
                    None => {},
                    Some(f) => {
                        let j = choose|j: int|
                            0 <= j < self.files_view().len() && self.files_view()[j] == f;
                        if j < self.files_view().len() - 1 {
                            assert(self.idle_file@[j].id != pos.file_id);
                        }
                    },
                }
            }
            Err(Errors::DatafileNotFound)
        }
    }


    /// Appends a tombstone for `key` and drops any index entry for it,
    /// whether or not the key is live: the form of delete a batch commit
    /// uses, which must write its staged tombstones unconditionally.
    pub(crate) fn apply_tombstone(&mut self, key: Vec<u8>) -> (r: Result<(), Errors>)
        requires
            old(self).wf(),
            1 <= key@.len() <= u32::MAX,
        ensures
            final(self).wf(),
            final(self).options == old(self).options,
            final(self).seq_no == old(self).seq_no,
            r is Ok ==> final(self)@ == old(self)@.remove(key@),
            r is Err ==> r == Err::<(), Errors>(Errors::InternalError)
                && *final(self) == *old(self)
                && needs_rotation(*old(self), tombstone_record(key@))
                && old(self).active_file.id == u32::MAX,
            r is Ok ==> rotation_shape(*old(self), *final(self), tombstone_record(key@)),
    {
        let kcopy = copy_range(&key, 0, key.len());
        let record = LogRecord { key: kcopy, value: Vec::new(), record_type: LogRecordType::Deleted };
        proof {
            assert(key@.subrange(0, key@.len() as int) =~= key@);
            assert(record@.value =~= Seq::<u8>::empty());
            assert(record@ == tombstone_record(key@));
        }
        let ghost pre = *self;
        match self.append_log_record(record) {
            Ok(_) => {},
            Err(e) => {
                return Err(e);
            },
        }
        let ghost mid = *self;
        let _ = self.index.delete(key);
        proof {
            assert(self.files_view() == mid.files_view());
            let ghost appended_pos = choose|q: LogRecordPos|
                record_at(mid.files_view(), q)
                    == (ParsedRecord::Rec {
                        rec: tombstone_record(key@),
                        len: spec_record_size(tombstone_record(key@)) as int,
                    });
            lemma_apply_step(pre, *self, tombstone_record(key@), appended_pos);
        }
        Ok(())
    }

    /// Requests a durable flush of every segment. The in-memory segments
    /// are always consistent, so this never fails; the caller that
    /// mirrors segments to disk performs the actual flushes.
    pub fn sync(&self) -> (r: Result<(), Errors>)
        ensures
            r == Ok::<(), Errors>(()),
    {
        let _ = self.active_file.sync();
        let mut i: usize = 0;
        while i < self.idle_file.len()
            invariant
                i <= self.idle_file@.len(),
            decreases self.idle_file@.len() - i,
        {
            let _ = self.idle_file[i].sync();
            i += 1;
        }
        Ok(())
    }
}

} // verus!
