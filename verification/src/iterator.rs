use vstd::prelude::*;
use vstd::pervasive::unreached;
use crate::engine::{Engine, record_at};
use crate::index::lex_lt;
use crate::index::btree::{BtreeIterator, oriented, lemma_sorted_distinct,
    filtered_snapshot, is_filter_selection};
use crate::index::lemma_pairs_map_index;
use crate::options::IteratorOptions;

verus! {

/// One key/value entry yielded by an engine iterator.
#[derive(Debug, PartialEq, Eq)]
pub struct Entry {
    pub key: Vec<u8>,
    pub value: Vec<u8>,
}

/// An ordered iterator over the engine: a snapshot of the index taken at
/// construction, paired with a shared borrow of the engine to read each
/// value. The borrow keeps the engine immutable for the iterator's whole
/// lifetime, and the snapshot is owned, so later index mutations cannot
/// reach a live iterator.
pub struct EngineIterator<'a> {
    pub index_iterator: BtreeIterator,
    pub engine: &'a Engine,
}

impl<'a> EngineIterator<'a> {
    /// The iterator's snapshot agrees with the engine's index: every
    /// snapshot entry is a current index entry.
    pub open spec fn wf(&self) -> bool {
        &&& self.engine.wf()
        &&& self.index_iterator.wf()
        &&& forall|i: int| 0 <= i < self.index_iterator.pairs().len() ==> {
            let pr = #[trigger] self.index_iterator.pairs()[i];
            self.engine.index@.contains_key(pr.0) && self.engine.index@[pr.0] == pr.1
        }
    }

    /// The full sequence of key/value pairs the iterator yields from its
    /// initial position: the snapshot keys in order, each with the value
    /// the engine holds for it.
    pub open spec fn iteration_view(&self) -> Seq<(Seq<u8>, Seq<u8>)> {
        Seq::new(
            self.index_iterator.pairs().len(),
            |i: int| (self.index_iterator.pairs()[i].0,
                self.engine@[self.index_iterator.pairs()[i].0]),
        )
    }

    /// Returns the iterator to its initial position.
    pub fn rewind(&mut self)
        requires
            old(self).wf(),
        ensures
            final(self).wf(),
            final(self).engine == old(self).engine,
            final(self).index_iterator.items == old(self).index_iterator.items,
            final(self).index_iterator.reverse == old(self).index_iterator.reverse,
            final(self).index_iterator.cursor == 0,
    {
        self.index_iterator.rewind();
    }

    /// Positions the iterator at the first snapshot entry whose key is
    /// not before `key` in the iteration direction.
    pub fn seek(&mut self, key: Vec<u8>)
        requires
            old(self).wf(),
        ensures
            final(self).wf(),
            final(self).engine == old(self).engine,
            final(self).index_iterator.items == old(self).index_iterator.items,
            final(self).index_iterator.reverse == old(self).index_iterator.reverse,
            final(self).index_iterator.cursor <= old(self).index_iterator.pairs().len(),
            forall|i: int| 0 <= i < final(self).index_iterator.cursor ==>
                (if old(self).index_iterator.reverse {
                    lex_lt(key@, old(self).index_iterator.pairs()[i].0)
                } else {
                    lex_lt(old(self).index_iterator.pairs()[i].0, key@)
                }),
            final(self).index_iterator.cursor < old(self).index_iterator.pairs().len() ==>
                !(if old(self).index_iterator.reverse {
                    lex_lt(key@, old(self).index_iterator.pairs()[
                        final(self).index_iterator.cursor as int].0)
                } else {
                    lex_lt(old(self).index_iterator.pairs()[
                        final(self).index_iterator.cursor as int].0, key@)
                }),
    {
        self.index_iterator.seek(key);
    }

    /// Yields the entry under the cursor, if any, and advances: the next
    /// snapshot key together with the value the engine stores for it.
    pub fn next(&mut self) -> (r: Option<Entry>)
        requires
            old(self).wf(),
        ensures
            final(self).wf(),
            final(self).engine == old(self).engine,
            final(self).index_iterator.items == old(self).index_iterator.items,
            final(self).index_iterator.reverse == old(self).index_iterator.reverse,
            old(self).index_iterator.cursor < old(self).index_iterator.pairs().len() ==> {
                &&& final(self).index_iterator.cursor == old(self).index_iterator.cursor + 1
                &&& r matches Some(en)
                    && (en.key@, en.value@) == old(self).iteration_view()[
                        old(self).index_iterator.cursor as int]
            },
            old(self).index_iterator.cursor >= old(self).index_iterator.pairs().len() ==> {
                &&& final(self).index_iterator.cursor == old(self).index_iterator.cursor
                &&& r is None
            },
    {
        let ghost cur = self.index_iterator.cursor as int;
        match self.index_iterator.next() {
            None => None,
            Some((k, pos)) => {
                proof {
                    assert(self.index_iterator.pairs()[cur]
                        == (k@, pos));
                    assert(self.engine.index@.contains_key(k@));
                    assert(self.engine.index@[k@] == pos);
                    assert(record_at(self.engine.files_view(), pos) is Rec);
                }
                let value = match self.engine.at(&pos) {
                    Ok(v) => v,
                    Err(_) => unreached(),
                };
                Some(Entry { key: k, value })
            },
        }
    }
}

impl Engine {
    /// Takes a snapshot of the index and returns an iterator that yields
    /// the engine's entries in ascending key order, or descending when
    /// `options.reverse` is set.
    pub fn iter(&self, options: IteratorOptions) -> (it: EngineIterator)
        requires
            self.wf(),
        ensures
            it.wf(),
            it.engine == self,
            it.index_iterator.cursor == 0,
            it.index_iterator.reverse == options.reverse,
            it.index_iterator.pairs() == oriented(self.index.pairs(), options.reverse),
    {
        let inner = self.index.iterator(options);
        let it = EngineIterator { index_iterator: inner, engine: self };
        proof {
            lemma_sorted_distinct(self.index.pairs());
            assert forall|i: int| 0 <= i < it.index_iterator.pairs().len() implies {
                let pr = #[trigger] it.index_iterator.pairs()[i];
                self.index@.contains_key(pr.0) && self.index@[pr.0] == pr.1
            } by {
                let pairs = self.index.pairs();
                let n = pairs.len() as int;
                let src = if options.reverse { n - 1 - i } else { i };
                assert(it.index_iterator.pairs()[i] == pairs[src]);
                lemma_pairs_map_index(pairs, src);
            }
        }
        it
    }

    /// Takes a snapshot of the index restricted by a key predicate and
    /// returns an iterator over it: the entries whose keys the predicate
    /// accepted, in the direction `options` selects. The predicate is
    /// applied once per index entry, at construction.
    pub fn iter_filtered<F: Fn(&Vec<u8>) -> bool>(
        &self,
        options: IteratorOptions,
        filter: F,
    ) -> (it: EngineIterator)
        requires
            self.wf(),
            forall|k: &Vec<u8>| #[trigger] filter.requires((k,)),
        ensures
            it.wf(),
            it.engine == self,
            it.index_iterator.cursor == 0,
            it.index_iterator.reverse == options.reverse,
            filtered_snapshot(it.index_iterator.pairs(),
                oriented(self.index.pairs(), options.reverse), filter),
    {
        let inner = self.index.iterator_filtered(options, filter);
        let it = EngineIterator { index_iterator: inner, engine: self };
        proof {
            lemma_sorted_distinct(self.index.pairs());
            let base = oriented(self.index.pairs(), options.reverse);
            let sel = choose|sel: Seq<int>|
                #[trigger] is_filter_selection(sel, it.index_iterator.pairs(), base, filter);
            assert forall|i: int| 0 <= i < it.index_iterator.pairs().len() implies {
                let pr = #[trigger] it.index_iterator.pairs()[i];
                self.index@.contains_key(pr.0) && self.index@[pr.0] == pr.1
            } by {
                assert(it.index_iterator.pairs()[i] == base[sel[i]]);
                let pairs = self.index.pairs();
                let n = pairs.len() as int;
                let src = if options.reverse { n - 1 - sel[i] } else { sel[i] };
                assert(base[sel[i]] == pairs[src]);
                lemma_pairs_map_index(pairs, src);
            }
        }
        it
    }
}

/// Ordering law: a well-formed iterator yields keys in strictly
/// ascending byte-lex order, or strictly descending when reversed.
pub proof fn lemma_iteration_ordered(it: EngineIterator)
    requires
        it.wf(),
    ensures
        forall|i: int, j: int|
            0 <= i < j < it.iteration_view().len() ==>
                (if it.index_iterator.reverse {
                    lex_lt(it.iteration_view()[j].0, it.iteration_view()[i].0)
                } else {
                    lex_lt(it.iteration_view()[i].0, it.iteration_view()[j].0)
                }),
{
}

/// Snapshot-isolation law: what an iterator yields is fully determined
/// by the snapshot taken at its construction and the engine state it
/// borrows, which its borrow freezes: two iterators over equal snapshots
/// of engines with equal views yield identical sequences.
pub proof fn lemma_snapshot_isolation(it1: EngineIterator, it2: EngineIterator)
    requires
        it1.index_iterator.pairs() == it2.index_iterator.pairs(),
        it1.engine@ == it2.engine@,
    ensures
        it1.iteration_view() == it2.iteration_view(),
{
    assert(it1.iteration_view() =~= it2.iteration_view());
}

} // verus!
