use vstd::prelude::*;
use vstd::map::*;
use vstd::pervasive::VecAdditionalExecFns;
use crate::data::data_file::copy_range;
use crate::data::log_record::{LogRecord, LogRecordType, SpecRecord};
use crate::engine::{Engine, replay_records, apply_record, lemma_replay_snoc,
    normal_record, tombstone_record};
use crate::errors::Errors;
use crate::index::{key_compare, KeyOrder, pairs_map,
    lemma_pairs_map_contains, lemma_pairs_map_index};
use crate::options::WriteBatchOptions;

verus! {

/// The key/record pairs a staged record sequence holds.
pub open spec fn rec_pairs(rs: Seq<SpecRecord>) -> Seq<(Seq<u8>, SpecRecord)> {
    rs.map_values(|r: SpecRecord| (r.key, r))
}

/// The map a batch commits over an existing mapping: staged live records
/// override, staged tombstones erase, everything else stays.
pub open spec fn apply_batch(
    m: Map<Seq<u8>, Seq<u8>>,
    b: Map<Seq<u8>, SpecRecord>,
) -> Map<Seq<u8>, Seq<u8>> {
    Map::new(
        |k: Seq<u8>| if b.contains_key(k) {
            b[k].record_type == LogRecordType::Normal
        } else {
            m.contains_key(k)
        },
        |k: Seq<u8>| if b.contains_key(k) {
            b[k].value
        } else {
            m[k]
        },
    )
}

/// Replaying records with pairwise distinct keys is the same as applying
/// them as a batch: with one record per key, the single-pass order does
/// not matter.
pub proof fn lemma_replay_is_batch(m: Map<Seq<u8>, Seq<u8>>, rs: Seq<SpecRecord>)
    requires
        forall|i: int, j: int| 0 <= i < j < rs.len() ==> rs[i].key != rs[j].key,
    ensures
        replay_records(m, rs) == apply_batch(m, pairs_map(rec_pairs(rs))),
    decreases rs.len(),
{
    if rs.len() == 0 {
        assert(rec_pairs(rs).len() == 0);
        let lhs = replay_records(m, rs);
        let rhs = apply_batch(m, pairs_map(rec_pairs(rs)));
        assert_maps_equal!(lhs, rhs, k => {});
    } else {
        let prefix = rs.drop_last();
        let r = rs.last();
        lemma_replay_is_batch(m, prefix);
        assert(prefix.push(r) =~= rs);
        lemma_replay_snoc(m, prefix, r);
        assert(replay_records(m, rs) == apply_record(replay_records(m, prefix), r));
        assert(rec_pairs(rs).drop_last() =~= rec_pairs(prefix));
        assert(rec_pairs(rs).last() == (r.key, r));
        assert(pairs_map(rec_pairs(rs)) == pairs_map(rec_pairs(prefix)).insert(r.key, r));
        let bp = pairs_map(rec_pairs(prefix));
        let lhs = apply_record(apply_batch(m, bp), r);
        let rhs = apply_batch(m, bp.insert(r.key, r));
        assert_maps_equal!(lhs, rhs, k => {});
    }
}

proof fn lemma_rec_pairs_keys(rs: Seq<SpecRecord>)
    ensures
        rec_pairs(rs).len() == rs.len(),
        forall|j: int| 0 <= j < rs.len()
            ==> (#[trigger] rec_pairs(rs)[j]) == (rs[j].key, rs[j]),
{
}

proof fn lemma_rec_pairs_distinct(rs: Seq<SpecRecord>)
    requires
        forall|i: int, j: int| 0 <= i < j < rs.len() ==> rs[i].key != rs[j].key,
    ensures
        forall|i: int, j: int| 0 <= i < j < rec_pairs(rs).len()
            ==> rec_pairs(rs)[i].0 != rec_pairs(rs)[j].0,
{
    lemma_rec_pairs_keys(rs);
}

/// A set of staged writes applied atomically through `commit`: a buffer
/// holding at most one pending record per key, the latest staged write
/// for that key winning.
#[derive(Debug)]
pub struct WriteBatch {
    pub pending: Vec<LogRecord>,
    pub options: WriteBatchOptions,
}

impl WriteBatch {
    /// The staged records as mathematical values, in buffer order.
    pub open spec fn records(&self) -> Seq<SpecRecord> {
        self.pending@.map_values(|r: LogRecord| r@)
    }

    /// The staged mapping: each staged key to its pending record.
    pub open spec fn staged(&self) -> Map<Seq<u8>, SpecRecord> {
        pairs_map(rec_pairs(self.records()))
    }

    /// Every staged record has a usable non-empty key and encodable
    /// sizes, and no two staged records share a key.
    pub open spec fn wf(&self) -> bool {
        &&& forall|i: int| 0 <= i < self.records().len() ==> {
            let r = #[trigger] self.records()[i];
            &&& 1 <= r.key.len() <= u32::MAX
            &&& r.value.len() <= u32::MAX
        }
        &&& forall|i: int, j: int| 0 <= i < j < self.records().len()
            ==> self.records()[i].key != self.records()[j].key
    }

    /// An empty batch with the given options.
    pub fn new(options: WriteBatchOptions) -> (r: WriteBatch)
        ensures
            r.wf(),
            r.options == options,
            r.records() == Seq::<SpecRecord>::empty(),
            r.staged() == Map::<Seq<u8>, SpecRecord>::empty(),
    {
        let r = WriteBatch { pending: Vec::new(), options };
        proof {
            assert(r.records() =~= Seq::<SpecRecord>::empty());
            let lhs = r.staged();
            let rhs = Map::<Seq<u8>, SpecRecord>::empty();
            assert_maps_equal!(lhs, rhs, k => {
                lemma_pairs_map_contains(rec_pairs(r.records()), k);
            });
        }
        r
    }

    /// The position of the staged record holding `key`, if any.
    fn find_key(&self, key: &Vec<u8>) -> (r: Option<usize>)
        ensures
            r matches Some(i) ==> i < self.records().len()
                && self.records()[i as int].key == key@,
            r is None ==> forall|i: int| 0 <= i < self.records().len()
                ==> (#[trigger] self.records()[i]).key != key@,
    {
        let n = self.pending.len();
        let mut i: usize = 0;
        while i < n
            invariant
                i <= n,
                n == self.records().len(),
                forall|j: int| 0 <= j < i ==> (#[trigger] self.records()[j]).key != key@,
            decreases n - i,
        {
            if key_compare(&self.pending[i].key, key) == KeyOrder::Equal {
                return Some(i);
            }
            i += 1;
        }
        None
    }

    /// Stages a live record for `key`, replacing any earlier staged write
    /// for it. Rejects the empty key; stages nothing else in the engine
    /// until `commit`.
    pub fn put(&mut self, key: Vec<u8>, value: Vec<u8>) -> (r: Result<(), Errors>)
        requires
            old(self).wf(),
            key@.len() <= u32::MAX,
            value@.len() <= u32::MAX,
        ensures
            final(self).wf(),
            final(self).options == old(self).options,
            key@.len() == 0 ==> r == Err::<(), Errors>(Errors::EmptyKey)
                && *final(self) == *old(self),
            key@.len() > 0 ==> r == Ok::<(), Errors>(())
                && final(self).staged()
                    == old(self).staged().insert(key@, normal_record(key@, value@)),
    {
        if key.is_empty() {
            return Err(Errors::EmptyKey);
        }
        let ghost vv = value@;
        let slot = self.find_key(&key);
        let record = LogRecord { key, value, record_type: LogRecordType::Normal };
        proof {
            assert(record@ == normal_record(record.key@, vv));
        }
        self.stage(slot, record);
        Ok(())
    }

    /// Stages `record` at `slot` (replacing the record there, which holds
    /// the same key) or appends it.
    fn stage(&mut self, slot: Option<usize>, record: LogRecord)
        requires
            old(self).wf(),
            1 <= record@.key.len() <= u32::MAX,
            record@.value.len() <= u32::MAX,
            slot matches Some(i) ==> i < old(self).records().len()
                && old(self).records()[i as int].key == record@.key,
            slot is None ==> forall|i: int| 0 <= i < old(self).records().len()
                ==> (#[trigger] old(self).records()[i]).key != record@.key,
        ensures
            final(self).wf(),
            final(self).options == old(self).options,
            final(self).staged() == old(self).staged().insert(record@.key, record@),
    {
        let ghost oldrecs = self.records();
        let ghost rv = record@;
        match slot {
            Some(i) => {
                self.pending.set(i, record);
                proof {
                    let newrecs = self.records();
                    assert(newrecs.len() == oldrecs.len());
                    assert(forall|j: int| 0 <= j < newrecs.len() && j != i
                        ==> newrecs[j] == oldrecs[j]);
                    assert(newrecs[i as int] == rv);
                    assert(forall|j: int| 0 <= j < newrecs.len()
                        ==> (#[trigger] newrecs[j]).key == oldrecs[j].key);
                    lemma_rec_pairs_keys(newrecs);
                    lemma_rec_pairs_keys(oldrecs);
                    lemma_rec_pairs_distinct(newrecs);
                    lemma_rec_pairs_distinct(oldrecs);
                    let lhs = self.staged();
                    let rhs = old(self).staged().insert(rv.key, rv);
                    assert_maps_equal!(lhs, rhs, k => {
                        lemma_pairs_map_contains(rec_pairs(newrecs), k);
                        lemma_pairs_map_contains(rec_pairs(oldrecs), k);
                        if k == rv.key {
                            lemma_pairs_map_index(rec_pairs(newrecs), i as int);
                        } else {
                            if exists|j: int| 0 <= j < newrecs.len()
                                && rec_pairs(newrecs)[j].0 == k {
                                let j = choose|j: int| 0 <= j < newrecs.len()
                                    && rec_pairs(newrecs)[j].0 == k;
                                lemma_pairs_map_index(rec_pairs(newrecs), j);
                                lemma_pairs_map_index(rec_pairs(oldrecs), j);
                            } else {
                                assert forall|j: int| 0 <= j < oldrecs.len() implies
                                    (#[trigger] rec_pairs(oldrecs)[j]).0 != k by {
                                    assert(rec_pairs(newrecs)[j].0 == newrecs[j].key);
                                    assert(newrecs[j].key == oldrecs[j].key);
                                }
                            }
                        }
                    });
                }
            },
            None => {
                self.pending.push(record);
                proof {
                    let newrecs = self.records();
                    assert(newrecs =~= oldrecs.push(rv));
                    assert(rec_pairs(newrecs).drop_last() =~= rec_pairs(oldrecs));
                    assert(rec_pairs(newrecs).last() == (rv.key, rv));
                    assert(self.staged() == old(self).staged().insert(rv.key, rv));
                }
            },
        }
    }

    /// Stages a delete of `key`. If the key is live in the engine, a
    /// tombstone is staged; otherwise any staged write for the key is
    /// simply dropped, since there is nothing on disk to erase.
    pub fn delete(&mut self, engine: &Engine, key: Vec<u8>) -> (r: Result<(), Errors>)
        requires
            old(self).wf(),
            engine.wf(),
            key@.len() <= u32::MAX,
        ensures
            final(self).wf(),
            final(self).options == old(self).options,
            key@.len() == 0 ==> r == Err::<(), Errors>(Errors::EmptyKey)
                && *final(self) == *old(self),
            key@.len() > 0 ==> r == Ok::<(), Errors>(()) && {
                if engine@.contains_key(key@) {
                    final(self).staged()
                        == old(self).staged().insert(key@, tombstone_record(key@))
                } else {
                    final(self).staged() == old(self).staged().remove(key@)
                }
            },
    {
        if key.is_empty() {
            return Err(Errors::EmptyKey);
        }
        let probe = copy_range(&key, 0, key.len());
        proof {
            assert(key@.subrange(0, key@.len() as int) =~= key@);
        }
        if engine.index.get(probe).is_some() {
            let ghost kv = key@;
            let slot = self.find_key(&key);
            let record = LogRecord {
                key,
                value: Vec::new(),
                record_type: LogRecordType::Deleted,
            };
            proof {
                assert(record@.value =~= Seq::<u8>::empty());
                assert(record@ == tombstone_record(kv));
            }
            self.stage(slot, record);
            Ok(())
        } else {
            let slot = self.find_key(&key);
            let ghost oldrecs = self.records();
            match slot {
                Some(i) => {
                    self.pending.remove(i);
                    proof {
                        let newrecs = self.records();
                        assert(newrecs.len() == oldrecs.len() - 1);
                        assert(forall|j: int| 0 <= j < i ==> newrecs[j] == oldrecs[j]);
                        assert(forall|j: int| i <= j < newrecs.len()
                            ==> newrecs[j] == oldrecs[j + 1]);
                        lemma_rec_pairs_keys(newrecs);
                        lemma_rec_pairs_keys(oldrecs);
                        lemma_rec_pairs_distinct(newrecs);
                        lemma_rec_pairs_distinct(oldrecs);
                        let lhs = self.staged();
                        let rhs = old(self).staged().remove(key@);
                        assert_maps_equal!(lhs, rhs, k => {
                            lemma_pairs_map_contains(rec_pairs(newrecs), k);
                            lemma_pairs_map_contains(rec_pairs(oldrecs), k);
                            if k == key@ {
                                assert forall|j: int| 0 <= j < newrecs.len() implies
                                    (#[trigger] rec_pairs(newrecs)[j]).0 != key@ by {
                                    if j < i {
                                        assert(oldrecs[j] == newrecs[j]);
                                    } else {
                                        assert(oldrecs[j + 1] == newrecs[j]);
                                    }
                                    assert(oldrecs[i as int].key == key@);
                                }
                            } else {
                                if exists|j: int| 0 <= j < newrecs.len()
                                    && rec_pairs(newrecs)[j].0 == k {
                                    let j = choose|j: int| 0 <= j < newrecs.len()
                                        && rec_pairs(newrecs)[j].0 == k;
                                    lemma_pairs_map_index(rec_pairs(newrecs), j);
                                    if j < i {
                                        lemma_pairs_map_index(rec_pairs(oldrecs), j);
                                    } else {
                                        lemma_pairs_map_index(rec_pairs(oldrecs), j + 1);
                                    }
                                } else {
                                    assert forall|j: int| 0 <= j < oldrecs.len() implies
                                        (#[trigger] rec_pairs(oldrecs)[j]).0 != k by {
                                        if j < i {
                                            assert(rec_pairs(newrecs)[j].0 == newrecs[j].key);
                                            assert(newrecs[j].key == oldrecs[j].key);
                                        } else if j == i {
                                            assert(oldrecs[j].key == key@);
                                        } else {
                                            assert(rec_pairs(newrecs)[j - 1].0
                                                == newrecs[j - 1].key);
                                            assert(newrecs[j - 1].key == oldrecs[j].key);
                                        }
                                    }
                                }
                            }
                        });
                    }
                },
                None => {
                    proof {
                        lemma_rec_pairs_keys(oldrecs);
                        let lhs = self.staged();
                        let rhs = old(self).staged().remove(key@);
                        assert_maps_equal!(lhs, rhs, k => {
                            lemma_pairs_map_contains(rec_pairs(oldrecs), k);
                        });
                    }
                },
            }
            Ok(())
        }
    }

    /// Commits every staged record to the engine as one contiguous,
    /// all-or-nothing run of the log, under a fresh batch sequence
    /// number. An empty batch is a no-op. A batch larger than the
    /// configured cap, or one whose rotations could exhaust the
    /// segment-id space, is rejected before anything is written; past
    /// those checks no write can fail, so a commit never applies only
    /// part of its batch. On success the buffer is cleared and the
    /// engine's view is the staged mapping applied over its old view.
    ///
    /// The records carry no batch tag on disk: the record format has
    /// exactly two record kinds and no field for a sequence number, so
    /// recovery replays records directly; the engine's counter orders
    /// commits in memory.
    pub fn commit(&mut self, engine: &mut Engine) -> (r: Result<(), Errors>)
        requires
            old(self).wf(),
            old(engine).wf(),
            old(engine).seq_no < u64::MAX,
        ensures
            final(self).wf(),
            final(self).options == old(self).options,
            final(engine).wf(),
            final(engine).options == old(engine).options,
            r is Err ==> *final(engine) == *old(engine) && *final(self) == *old(self),
            r == Err::<(), Errors>(Errors::BatchSizeExceeded)
                <==> old(self).records().len() > old(self).options.batch_size,
            r == Err::<(), Errors>(Errors::InternalError)
                <==> (0 < old(self).records().len() <= old(self).options.batch_size
                    && old(engine).active_file.id + old(self).records().len() > u32::MAX),
            old(self).records().len() == 0 ==> r == Ok::<(), Errors>(())
                && *final(engine) == *old(engine) && *final(self) == *old(self),
            r is Ok && old(self).records().len() > 0 ==> {
                &&& final(engine)@ == apply_batch(old(engine)@, old(self).staged())
                &&& final(self).records().len() == 0
                &&& final(engine).seq_no == old(engine).seq_no + 1
            },
            r is Err ==> r == Err::<(), Errors>(Errors::BatchSizeExceeded)
                || r == Err::<(), Errors>(Errors::InternalError),
    {
        let n = self.pending.len();
        if n == 0 {
            return Ok(());
        }
        if n as u64 > self.options.batch_size as u64 {
            return Err(Errors::BatchSizeExceeded);
        }
        // Each record can force at most one rotation, so this bound is
        // what keeps every append below from failing.
        if n as u64 > (u32::MAX - engine.active_file.id()) as u64 {
            return Err(Errors::InternalError);
        }
        // A fresh sequence number for this batch; every record of the
        // batch is applied under it in one uninterrupted pass.
        engine.seq_no = engine.seq_no + 1;
        let ghost m0 = engine@;
        let ghost recs = self.records();
        let mut i: usize = 0;
        while i < n
            invariant
                i <= n,
                1 <= n,
                n == recs.len(),
                n <= old(self).options.batch_size,
                self.records() == recs,
                self.wf(),
                self.options == old(self).options,
                engine.wf(),
                engine.options == old(engine).options,
                engine.seq_no == old(engine).seq_no + 1,
                engine.active_file.id + (n - i) <= u32::MAX,
                engine@ == replay_records(m0, recs.subrange(0, i as int)),
            decreases n - i,
        {
            let entry = &self.pending[i];
            let key = copy_range(&entry.key, 0, entry.key.len());
            proof {
                assert(entry.key@.subrange(0, entry.key@.len() as int) =~= entry.key@);
                assert(recs[i as int] == entry@);
            }
            let ghost pre_engine = *engine;
            let step = match entry.record_type {
                LogRecordType::Normal => {
                    let value = copy_range(&entry.value, 0, entry.value.len());
                    proof {
                        assert(entry.value@.subrange(0, entry.value@.len() as int)
                            =~= entry.value@);
                    }
                    engine.put(key, value)
                },
                LogRecordType::Deleted => engine.apply_tombstone(key),
            };
            match step {
                Ok(_) => {},
                Err(_) => {
                    // An append fails only on a rotation at the largest
                    // segment id, which the id-headroom check rules out.
                    proof {
                        assert(pre_engine.active_file.id < u32::MAX);
                        assert(false);
                    }
                    return Err(Errors::InternalError);
                },
            }
            proof {
                assert(engine@ == apply_record(pre_engine@, recs[i as int]));
                lemma_replay_snoc(m0, recs.subrange(0, i as int), recs[i as int]);
                assert(recs.subrange(0, i as int).push(recs[i as int])
                    =~= recs.subrange(0, i + 1));
            }
            i += 1;
        }
        if self.options.sync_on_commit {
            let _ = engine.sync();
        }
        self.pending.clear();
        proof {
            assert(recs.subrange(0, n as int) =~= recs);
            lemma_replay_is_batch(m0, recs);
            assert(self.records() =~= Seq::<SpecRecord>::empty());
        }
        Ok(())
    }
}

} // verus!
