use vstd::prelude::*;
use vstd::map::*;
use vstd::pervasive::VecAdditionalExecFns;
use crate::data::log_record::LogRecordPos;
use crate::data::data_file::copy_range;
use crate::index::{lex_lt, key_compare, KeyOrder, pairs_map,
    lemma_lex_trichotomy, lemma_lex_trans, lemma_pairs_map_contains, lemma_pairs_map_index};
use crate::options::IteratorOptions;

verus! {

/// The key/value pairs of an entry vector, as byte sequences.
pub open spec fn entry_pairs(entries: Seq<(Vec<u8>, LogRecordPos)>) -> Seq<(Seq<u8>, LogRecordPos)> {
    entries.map_values(|e: (Vec<u8>, LogRecordPos)| (e.0@, e.1))
}

/// Pairwise strict ascending key order.
pub open spec fn sorted_asc(pairs: Seq<(Seq<u8>, LogRecordPos)>) -> bool {
    forall|i: int, j: int| 0 <= i < j < pairs.len() ==> lex_lt(pairs[i].0, pairs[j].0)
}

/// Pairwise strict descending key order.
pub open spec fn sorted_desc(pairs: Seq<(Seq<u8>, LogRecordPos)>) -> bool {
    forall|i: int, j: int| 0 <= i < j < pairs.len() ==> lex_lt(pairs[j].0, pairs[i].0)
}

/// A strictly ordered pair sequence has pairwise distinct keys.
pub proof fn lemma_sorted_distinct(pairs: Seq<(Seq<u8>, LogRecordPos)>)
    requires
        sorted_asc(pairs) || sorted_desc(pairs),
    ensures
        forall|m: int, n: int| 0 <= m < n < pairs.len() ==> pairs[m].0 != pairs[n].0,
{
    assert forall|m: int, n: int| 0 <= m < n < pairs.len() implies pairs[m].0 != pairs[n].0 by {
        lemma_lex_trichotomy(pairs[m].0, pairs[n].0);
    }
}

/// The snapshot order an iterator walks: the pair sequence itself, or its
/// reversal.
pub open spec fn oriented(pairs: Seq<(Seq<u8>, LogRecordPos)>, reverse: bool) -> Seq<(Seq<u8>, LogRecordPos)> {
    if reverse {
        Seq::new(pairs.len(), |i: int| pairs[pairs.len() - 1 - i])
    } else {
        pairs
    }
}

/// Reversing a strictly ascending pair sequence gives a strictly
/// descending one.
pub proof fn lemma_oriented_sorted(pairs: Seq<(Seq<u8>, LogRecordPos)>, reverse: bool)
    requires
        sorted_asc(pairs),
    ensures
        !reverse ==> sorted_asc(oriented(pairs, reverse)),
        reverse ==> sorted_desc(oriented(pairs, reverse)),
{
    let target = oriented(pairs, reverse);
    if reverse {
        assert forall|a: int, b: int| 0 <= a < b < target.len() implies
            lex_lt(target[b].0, target[a].0) by {
            assert(target[a] == pairs[pairs.len() - 1 - a]);
            assert(target[b] == pairs[pairs.len() - 1 - b]);
        }
    }
}


/// Some call of the key predicate on (a reference to) a vector holding
/// `k` returned `b`.
pub open spec fn filter_answered<F: Fn(&Vec<u8>) -> bool>(filter: F, k: Seq<u8>, b: bool) -> bool {
    exists|v: &Vec<u8>| v@ == k && call_ensures(filter, (v,), b)
}

/// `sel` selects, in increasing order, the positions of `base` that make
/// up `snap`: every selected entry was accepted by some call of the key
/// predicate, and every position left out was rejected by one.
pub open spec fn is_filter_selection<F: Fn(&Vec<u8>) -> bool>(
    sel: Seq<int>,
    snap: Seq<(Seq<u8>, LogRecordPos)>,
    base: Seq<(Seq<u8>, LogRecordPos)>,
    filter: F,
) -> bool {
    &&& sel.len() == snap.len()
    &&& forall|t: int| 0 <= t < sel.len() ==> 0 <= #[trigger] sel[t] < base.len()
    &&& forall|t1: int, t2: int| 0 <= t1 < t2 < sel.len() ==> sel[t1] < sel[t2]
    &&& forall|t: int| 0 <= t < sel.len() ==> #[trigger] snap[t] == base[sel[t]]
    &&& forall|t: int| 0 <= t < sel.len()
        ==> filter_answered(filter, base[#[trigger] sel[t]].0, true)
    &&& forall|j: int| 0 <= j < base.len() && !sel.contains(j)
        ==> filter_answered(filter, (#[trigger] base[j]).0, false)
}

/// `snap` is the restriction of `base` by the key predicate `filter`:
/// an order-preserving selection of `base`'s entries in which every kept
/// entry was accepted and every entry left out was rejected.
pub open spec fn filtered_snapshot<F: Fn(&Vec<u8>) -> bool>(
    snap: Seq<(Seq<u8>, LogRecordPos)>,
    base: Seq<(Seq<u8>, LogRecordPos)>,
    filter: F,
) -> bool {
    exists|sel: Seq<int>| #[trigger] is_filter_selection(sel, snap, base, filter)
}

/// The mandatory index implementation: an ordered map from key bytes to
/// record locations, kept as a strictly sorted vector of entries.
#[derive(Debug)]
pub struct BTree {
    pub entries: Vec<(Vec<u8>, LogRecordPos)>,
}

impl View for BTree {
    type V = Map<Seq<u8>, LogRecordPos>;

    open spec fn view(&self) -> Map<Seq<u8>, LogRecordPos> {
        pairs_map(self.pairs())
    }
}

impl BTree {
    /// The entries as key/location pairs, in storage order.
    pub open spec fn pairs(&self) -> Seq<(Seq<u8>, LogRecordPos)> {
        entry_pairs(self.entries@)
    }

    /// The entries are strictly ascending by key.
    pub open spec fn wf(&self) -> bool {
        sorted_asc(self.pairs())
    }

    /// An empty index.
    pub fn new() -> (r: BTree)
        ensures
            r.wf(),
            r@ == Map::<Seq<u8>, LogRecordPos>::empty(),
            r.pairs() == Seq::<(Seq<u8>, LogRecordPos)>::empty(),
    {
        let r = BTree { entries: Vec::new() };
        proof {
            assert(r.pairs() =~= Seq::<(Seq<u8>, LogRecordPos)>::empty());
        }
        r
    }

    /// The position of the first entry whose key is not below `key`.
    fn find_pos(&self, key: &Vec<u8>) -> (p: usize)
        requires
            self.wf(),
        ensures
            p <= self.entries@.len(),
            forall|i: int| 0 <= i < p ==> lex_lt(self.pairs()[i].0, key@),
            p < self.entries@.len() ==> !lex_lt(self.pairs()[p as int].0, key@),
    {
        let n = self.entries.len();
        let mut p: usize = 0;
        while p < n
            invariant
                p <= n,
                n == self.entries@.len(),
                forall|i: int| 0 <= i < p ==> lex_lt(self.pairs()[i].0, key@),
            decreases n - p,
        {
            let o = key_compare(&self.entries[p].0, key);
            if !(o == KeyOrder::Less) {
                return p;
            }
            assert(lex_lt(self.pairs()[p as int].0, key@));
            p += 1;
        }
        p
    }

    /// Inserts or overwrites the location stored for `key`.
    /// Always succeeds.
    pub fn put(&mut self, key: Vec<u8>, pos: LogRecordPos) -> (r: bool)
        requires
            old(self).wf(),
        ensures
            final(self).wf(),
            final(self)@ == old(self)@.insert(key@, pos),
            r == true,
    {
        let ghost oldpairs = self.pairs();
        proof {
            lemma_sorted_distinct(oldpairs);
        }
        let p = self.find_pos(&key);
        let n = self.entries.len();
        let ghost kv = key@;
        if p < n && key_compare(&self.entries[p].0, &key) == KeyOrder::Equal {
            self.entries.set(p, (key, pos));
            proof {
                let newpairs = self.pairs();
                assert(newpairs.len() == oldpairs.len());
                assert(forall|i: int| 0 <= i < newpairs.len() && i != p
                    ==> newpairs[i] == oldpairs[i]);
                assert(newpairs[p as int] == (kv, pos));
                assert(oldpairs[p as int].0 == kv);
                assert(forall|i: int| 0 <= i < newpairs.len() ==> newpairs[i].0 == oldpairs[i].0);
                assert(self.wf());
                lemma_sorted_distinct(newpairs);
                let m1 = self@;
                let m2 = old(self)@.insert(kv, pos);
                assert_maps_equal!(m1, m2, k => {
                    lemma_pairs_map_contains(newpairs, k);
                    lemma_pairs_map_contains(oldpairs, k);
                    if k == kv {
                        lemma_pairs_map_index(newpairs, p as int);
                    } else {
                        if exists|i: int| 0 <= i < newpairs.len() && newpairs[i].0 == k {
                            let i = choose|i: int| 0 <= i < newpairs.len() && newpairs[i].0 == k;
                            lemma_pairs_map_index(newpairs, i);
                            lemma_pairs_map_index(oldpairs, i);
                        }
                    }
                });
            }
            true
        } else {
            proof {
                if p < n {
                    lemma_lex_trichotomy(oldpairs[p as int].0, kv);
                }
            }
            self.entries.insert(p, (key, pos));
            proof {
                let newpairs = self.pairs();
                assert(newpairs.len() == oldpairs.len() + 1);
                assert(forall|i: int| 0 <= i < p ==> newpairs[i] == oldpairs[i]);
                assert(newpairs[p as int] == (kv, pos));
                assert(forall|i: int| p < i < newpairs.len() ==> newpairs[i] == oldpairs[i - 1]);
                // No entry holds the key, so the new entry's neighbours
                // stay strictly ordered around it.
                assert forall|i: int, j: int| 0 <= i < j < newpairs.len() implies
                    lex_lt(newpairs[i].0, newpairs[j].0) by {
                    if i < p && j == p {
                    } else if i == p && j > p {
                        if j - 1 > p {
                            lemma_lex_trans(kv, oldpairs[p as int].0, oldpairs[j - 1].0);
                        }
                    }
                }
                assert(self.wf());
                lemma_sorted_distinct(newpairs);
                let m1 = self@;
                let m2 = old(self)@.insert(kv, pos);
                assert_maps_equal!(m1, m2, k => {
                    lemma_pairs_map_contains(newpairs, k);
                    lemma_pairs_map_contains(oldpairs, k);
                    if k == kv {
                        lemma_pairs_map_index(newpairs, p as int);
                        assert forall|i: int| 0 <= i < oldpairs.len() implies
                            #[trigger] oldpairs[i].0 != kv by {
                            if i < p {
                                lemma_lex_trichotomy(oldpairs[i].0, kv);
                            } else {
                                assert(newpairs[i + 1].0 == oldpairs[i].0);
                                if i == p {
                                } else {
                                    lemma_lex_trans(kv, oldpairs[p as int].0, oldpairs[i].0);
                                    lemma_lex_trichotomy(kv, oldpairs[i].0);
                                }
                            }
                        }
                    } else {
                        if exists|i: int| 0 <= i < newpairs.len() && newpairs[i].0 == k {
                            let i = choose|i: int| 0 <= i < newpairs.len() && newpairs[i].0 == k;
                            lemma_pairs_map_index(newpairs, i);
                            if i < p {
                                lemma_pairs_map_index(oldpairs, i);
                            } else {
                                assert(i > p);
                                lemma_pairs_map_index(oldpairs, i - 1);
                            }
                        } else {
                            assert forall|i: int| 0 <= i < oldpairs.len() implies
                                #[trigger] oldpairs[i].0 != k by {
                                if i < p {
                                    assert(newpairs[i].0 == oldpairs[i].0);
                                } else {
                                    assert(newpairs[i + 1].0 == oldpairs[i].0);
                                }
                            }
                        }
                    }
                });
            }
            true
        }
    }

    /// Looks up the location stored for `key`.
    pub fn get(&self, key: Vec<u8>) -> (r: Option<LogRecordPos>)
        requires
            self.wf(),
        ensures
            self@.contains_key(key@) ==> r == Some(self@[key@]),
            !self@.contains_key(key@) ==> r is None,
    {
        let ghost pairs = self.pairs();
        proof {
            lemma_sorted_distinct(pairs);
            lemma_pairs_map_contains(pairs, key@);
        }
        let p = self.find_pos(&key);
        if p < self.entries.len() && key_compare(&self.entries[p].0, &key) == KeyOrder::Equal {
            proof {
                lemma_pairs_map_index(pairs, p as int);
            }
            Some(self.entries[p].1)
        } else {
            proof {
                if exists|i: int| 0 <= i < pairs.len() && pairs[i].0 == key@ {
                    let i = choose|i: int| 0 <= i < pairs.len() && pairs[i].0 == key@;
                    lemma_lex_trichotomy(pairs[i].0, key@);
                    if (p as int) < pairs.len() {
                        lemma_lex_trichotomy(pairs[p as int].0, key@);
                        assert(i > p);
                        lemma_lex_trans(key@, pairs[p as int].0, pairs[i].0);
                    }
                }
            }
            None
        }
    }

    /// Removes the entry stored for `key`; reports whether one existed.
    pub fn delete(&mut self, key: Vec<u8>) -> (r: bool)
        requires
            old(self).wf(),
        ensures
            final(self).wf(),
            final(self)@ == old(self)@.remove(key@),
            r == old(self)@.contains_key(key@),
    {
        let ghost oldpairs = self.pairs();
        proof {
            lemma_sorted_distinct(oldpairs);
            lemma_pairs_map_contains(oldpairs, key@);
        }
        let p = self.find_pos(&key);
        let ghost kv = key@;
        if p < self.entries.len() && key_compare(&self.entries[p].0, &key) == KeyOrder::Equal {
            self.entries.remove(p);
            proof {
                let newpairs = self.pairs();
                assert(newpairs.len() == oldpairs.len() - 1);
                assert(forall|i: int| 0 <= i < p ==> newpairs[i] == oldpairs[i]);
                assert(forall|i: int| p <= i < newpairs.len() ==> newpairs[i] == oldpairs[i + 1]);
                assert(self.wf());
                lemma_sorted_distinct(newpairs);
                let m1 = self@;
                let m2 = old(self)@.remove(kv);
                assert_maps_equal!(m1, m2, k => {
                    lemma_pairs_map_contains(newpairs, k);
                    lemma_pairs_map_contains(oldpairs, k);
                    if k == kv {
                        assert forall|i: int| 0 <= i < newpairs.len() implies
                            #[trigger] newpairs[i].0 != kv by {
                            if i < p {
                                assert(oldpairs[i].0 == newpairs[i].0);
                                lemma_lex_trichotomy(oldpairs[i].0, kv);
                            } else {
                                assert(oldpairs[i + 1].0 == newpairs[i].0);
                                assert(oldpairs[p as int].0 == kv);
                                assert(lex_lt(kv, oldpairs[i + 1].0));
                                lemma_lex_trichotomy(kv, oldpairs[i + 1].0);
                            }
                        }
                    } else {
                        if exists|i: int| 0 <= i < newpairs.len() && newpairs[i].0 == k {
                            let i = choose|i: int| 0 <= i < newpairs.len() && newpairs[i].0 == k;
                            lemma_pairs_map_index(newpairs, i);
                            if i < p {
                                lemma_pairs_map_index(oldpairs, i);
                            } else {
                                lemma_pairs_map_index(oldpairs, i + 1);
                            }
                        } else {
                            assert forall|i: int| 0 <= i < oldpairs.len() implies
                                #[trigger] oldpairs[i].0 != k by {
                                if i < p {
                                    assert(newpairs[i].0 == oldpairs[i].0);
                                } else if i == p {
                                } else {
                                    assert(newpairs[i - 1].0 == oldpairs[i].0);
                                }
                            }
                        }
                    }
                });
            }
            true
        } else {
            proof {
                if exists|i: int| 0 <= i < oldpairs.len() && oldpairs[i].0 == kv {
                    let i = choose|i: int| 0 <= i < oldpairs.len() && oldpairs[i].0 == kv;
                    lemma_lex_trichotomy(oldpairs[i].0, kv);
                    if (p as int) < oldpairs.len() {
                        lemma_lex_trichotomy(oldpairs[p as int].0, kv);
                        assert(i > p);
                        lemma_lex_trans(kv, oldpairs[p as int].0, oldpairs[i].0);
                    }
                }
                assert(!old(self)@.contains_key(kv));
                assert(self@ =~= old(self)@.remove(kv));
            }
            false
        }
    }

    /// Takes a snapshot of the index and returns an iterator over it, in
    /// ascending key order, or descending when `options.reverse` is set.
    pub fn iterator(&self, options: IteratorOptions) -> (it: BtreeIterator)
        requires
            self.wf(),
        ensures
            it.wf(),
            it.pairs() == oriented(self.pairs(), options.reverse),
            it.cursor == 0,
            it.reverse == options.reverse,
    {
        let n = self.entries.len();
        let mut items: Vec<(Vec<u8>, LogRecordPos)> = Vec::new();
        let ghost target = oriented(self.pairs(), options.reverse);
        let mut i: usize = 0;
        while i < n
            invariant
                i <= n,
                n == self.entries@.len(),
                self.wf(),
                target == oriented(self.pairs(), options.reverse),
                entry_pairs(items@) =~= target.subrange(0, i as int),
            decreases n - i,
        {
            let src = if options.reverse { n - 1 - i } else { i };
            let e = &self.entries[src];
            let k = copy_range(&e.0, 0, e.0.len());
            assert(k@ == e.0@) by {
                assert(e.0@.subrange(0, e.0@.len() as int) =~= e.0@);
            }
            let pos = e.1;
            let pair = (k, pos);
            let ghost pv = pair;
            let ghost before = items@;
            items.push(pair);
            proof {
                assert(items@ == before.push(pv));
                assert(pv.0@ == self.entries@[src as int].0@);
                assert(entry_pairs(before).len() == before.len());
                assert forall|j: int| 0 <= j < i + 1 implies
                    #[trigger] entry_pairs(items@)[j] == target[j] by {
                    if j < i {
                        assert(items@[j] == before[j]);
                        assert(entry_pairs(before)[j] == target.subrange(0, i as int)[j]);
                    } else {
                        assert(j == before.len());
                        assert(items@[j] == pv);
                        assert(target[j] == self.pairs()[src as int]);
                        assert(self.pairs()[src as int]
                            == (self.entries@[src as int].0@, self.entries@[src as int].1));
                    }
                }
                assert(entry_pairs(items@) =~= target.subrange(0, i + 1));
            }
            i += 1;
        }
        proof {
            assert(target.subrange(0, target.len() as int) =~= target);
        }
        let it = BtreeIterator { items, cursor: 0, reverse: options.reverse };
        proof {
            assert(it.pairs() == target);
            if options.reverse {
                assert forall|a: int, b: int| 0 <= a < b < target.len() implies
                    lex_lt(target[b].0, target[a].0) by {
                    assert(target[a] == self.pairs()[n - 1 - a]);
                    assert(target[b] == self.pairs()[n - 1 - b]);
                }
            }
        }
        it
    }

    /// Takes a snapshot of the index restricted by a key predicate and
    /// returns an iterator over it, in the direction `options` selects.
    /// The predicate is applied once per entry, at construction; the
    /// snapshot holds, in original order, exactly the entries it
    /// accepted. (The predicate is an argument rather than an options
    /// field because Verus does not yet support stored `dyn` closures.)
    pub fn iterator_filtered<F: Fn(&Vec<u8>) -> bool>(
        &self,
        options: IteratorOptions,
        filter: F,
    ) -> (it: BtreeIterator)
        requires
            self.wf(),
            forall|k: &Vec<u8>| #[trigger] filter.requires((k,)),
        ensures
            it.wf(),
            it.cursor == 0,
            it.reverse == options.reverse,
            filtered_snapshot(it.pairs(), oriented(self.pairs(), options.reverse), filter),
    {
        let n = self.entries.len();
        let mut items: Vec<(Vec<u8>, LogRecordPos)> = Vec::new();
        let ghost base = oriented(self.pairs(), options.reverse);
        let ghost mut sel: Seq<int> = Seq::empty();
        let mut i: usize = 0;
        proof {
            lemma_oriented_sorted(self.pairs(), options.reverse);
        }
        while i < n
            invariant
                i <= n,
                n == self.entries@.len(),
                self.wf(),
                base == oriented(self.pairs(), options.reverse),
                forall|k: &Vec<u8>| #[trigger] filter.requires((k,)),
                sel.len() == items@.len(),
                forall|t: int| 0 <= t < sel.len() ==> 0 <= #[trigger] sel[t] < i,
                forall|t1: int, t2: int| 0 <= t1 < t2 < sel.len() ==> sel[t1] < sel[t2],
                forall|t: int| 0 <= t < sel.len()
                    ==> #[trigger] entry_pairs(items@)[t] == base[sel[t]],
                forall|t: int| 0 <= t < sel.len()
                    ==> filter_answered(filter, base[#[trigger] sel[t]].0, true),
                forall|j: int| 0 <= j < i && !sel.contains(j)
                    ==> filter_answered(filter, (#[trigger] base[j]).0, false),
            decreases n - i,
        {
            let src = if options.reverse { n - 1 - i } else { i };
            let e = &self.entries[src];
            proof {
                assert(base[i as int] == self.pairs()[src as int]);
                assert(self.pairs()[src as int]
                    == (self.entries@[src as int].0@, self.entries@[src as int].1));
            }
            let keep = filter(&e.0);
            let ghost prev_sel = sel;
            if keep {
                let k = copy_range(&e.0, 0, e.0.len());
                assert(k@ == e.0@) by {
                    assert(e.0@.subrange(0, e.0@.len() as int) =~= e.0@);
                }
                let pos = e.1;
                let pair = (k, pos);
                let ghost pv = pair;
                let ghost before = items@;
                items.push(pair);
                proof {
                    sel = prev_sel.push(i as int);
                    assert(items@ == before.push(pv));
                    assert forall|t: int| 0 <= t < sel.len() implies
                        #[trigger] entry_pairs(items@)[t] == base[sel[t]] by {
                        if t < prev_sel.len() {
                            assert(items@[t] == before[t]);
                            assert(entry_pairs(before)[t] == base[prev_sel[t]]);
                        } else {
                            assert(items@[t] == pv);
                            assert(sel[t] == i);
                        }
                    }
                    assert forall|t: int| 0 <= t < sel.len() implies
                        filter_answered(filter, base[#[trigger] sel[t]].0, true) by {
                        if t == sel.len() - 1 {
                            assert(call_ensures(filter, (&e.0,), true));
                            assert(filter_answered(filter, (&e.0)@, true));
                        }
                    }
                    assert forall|j: int| 0 <= j < i + 1 && !sel.contains(j)
                        implies filter_answered(filter, (#[trigger] base[j]).0, false) by {
                        if j < i {
                            assert(!prev_sel.contains(j)) by {
                                if exists|t: int| 0 <= t < prev_sel.len() && prev_sel[t] == j {
                                    let t = choose|t: int|
                                        0 <= t < prev_sel.len() && prev_sel[t] == j;
                                    assert(sel[t] == j);
                                }
                            }
                        } else {
                            assert(sel[sel.len() - 1] == i);
                            assert(sel.contains(j));
                        }
                    }
                }
            } else {
                proof {
                    assert(call_ensures(filter, (&e.0,), false));
                    assert(filter_answered(filter, (&e.0)@, false));
                    assert forall|j: int| 0 <= j < i + 1 && !sel.contains(j)
                        implies filter_answered(filter, (#[trigger] base[j]).0, false) by {
                        if j == i {
                            assert((&e.0)@ == base[j].0);
                        }
                    }
                }
            }
            i += 1;
        }
        let it = BtreeIterator { items, cursor: 0, reverse: options.reverse };
        proof {
            assert(it.pairs() == entry_pairs(items@));
            assert forall|t1: int, t2: int| 0 <= t1 < t2 < it.pairs().len() implies
                (if options.reverse {
                    lex_lt(it.pairs()[t2].0, it.pairs()[t1].0)
                } else {
                    lex_lt(it.pairs()[t1].0, it.pairs()[t2].0)
                }) by {
                assert(it.pairs()[t1] == base[sel[t1]]);
                assert(it.pairs()[t2] == base[sel[t2]]);
            }
            assert(base.len() == n);
            assert(sel.len() == it.pairs().len());
            assert(forall|t: int| 0 <= t < sel.len() ==> 0 <= #[trigger] sel[t] < base.len());
            assert(forall|t1: int, t2: int| 0 <= t1 < t2 < sel.len() ==> sel[t1] < sel[t2]);
            assert(forall|t: int| 0 <= t < sel.len()
                ==> #[trigger] it.pairs()[t] == base[sel[t]]);
            assert(forall|t: int| 0 <= t < sel.len()
                ==> filter_answered(filter, base[#[trigger] sel[t]].0, true));
            assert(forall|j: int| 0 <= j < base.len() && !sel.contains(j)
                ==> filter_answered(filter, (#[trigger] base[j]).0, false));
            assert(is_filter_selection(sel, it.pairs(), base, filter));
        }
        it
    }
}

/// A snapshot iterator over the index: an owned copy of the entries in
/// iteration order, and a cursor. Later index mutations cannot reach it.
#[derive(Debug)]
pub struct BtreeIterator {
    pub items: Vec<(Vec<u8>, LogRecordPos)>,
    pub cursor: usize,
    pub reverse: bool,
}

impl BtreeIterator {
    /// The snapshot as key/location pairs, in iteration order.
    pub open spec fn pairs(&self) -> Seq<(Seq<u8>, LogRecordPos)> {
        entry_pairs(self.items@)
    }

    /// The snapshot is strictly ordered in the iteration direction.
    pub open spec fn wf(&self) -> bool {
        if self.reverse {
            sorted_desc(self.pairs())
        } else {
            sorted_asc(self.pairs())
        }
    }

    /// Returns the iterator to its initial position.
    pub fn rewind(&mut self)
        ensures
            final(self).items == old(self).items,
            final(self).reverse == old(self).reverse,
            final(self).cursor == 0,
    {
        self.cursor = 0;
    }

    /// Positions the cursor at the first entry whose key is not before
    /// `key` in the iteration direction: the first entry at or above it,
    /// or at or below it when iterating in reverse.
    pub fn seek(&mut self, key: Vec<u8>)
        requires
            old(self).wf(),
        ensures
            final(self).items == old(self).items,
            final(self).reverse == old(self).reverse,
            final(self).cursor <= old(self).pairs().len(),
            forall|i: int| 0 <= i < final(self).cursor ==>
                (if old(self).reverse {
                    lex_lt(key@, old(self).pairs()[i].0)
                } else {
                    lex_lt(old(self).pairs()[i].0, key@)
                }),
            final(self).cursor < old(self).pairs().len() ==>
                !(if old(self).reverse {
                    lex_lt(key@, old(self).pairs()[final(self).cursor as int].0)
                } else {
                    lex_lt(old(self).pairs()[final(self).cursor as int].0, key@)
                }),
    {
        let n = self.items.len();
        let mut p: usize = 0;
        while p < n
            invariant
                p <= n,
                n == self.items@.len(),
                self == old(self),
                forall|i: int| 0 <= i < p ==>
                    (if self.reverse {
                        lex_lt(key@, self.pairs()[i].0)
                    } else {
                        lex_lt(self.pairs()[i].0, key@)
                    }),
            decreases n - p,
        {
            let o = key_compare(&self.items[p].0, &key);
            let skip_it = if self.reverse { o == KeyOrder::Greater } else { o == KeyOrder::Less };
            if !skip_it {
                self.cursor = p;
                return;
            }
            p += 1;
        }
        self.cursor = p;
    }

    /// Yields the entry under the cursor, if any, and advances.
    pub fn next(&mut self) -> (r: Option<(Vec<u8>, LogRecordPos)>)
        ensures
            final(self).items == old(self).items,
            final(self).reverse == old(self).reverse,
            old(self).cursor < old(self).pairs().len() ==> {
                &&& final(self).cursor == old(self).cursor + 1
                &&& r matches Some((k, pos))
                    && k@ == old(self).pairs()[old(self).cursor as int].0
                    && pos == old(self).pairs()[old(self).cursor as int].1
            },
            old(self).cursor >= old(self).pairs().len() ==> {
                &&& final(self).cursor == old(self).cursor
                &&& r is None
            },
    {
        if self.cursor >= self.items.len() {
            return None;
        }
        let e = &self.items[self.cursor];
        let k = copy_range(&e.0, 0, e.0.len());
        assert(k@ == e.0@) by {
            assert(e.0@.subrange(0, e.0@.len() as int) =~= e.0@);
        }
        let pos = e.1;
        self.cursor += 1;
        Some((k, pos))
    }
}

} // verus!
