//! The set of unspent outputs, keyed by the hash of the output.
use vstd::prelude::*;
use crate::types::transaction::TransactionOutput;

verus! {

/// One unspent output: its hash, whether a pending transaction claims it,
/// and the output itself.
#[derive(Clone, Copy, Debug, PartialEq, Eq)]
pub struct UtxoEntry {
    pub hash: crate::sha256::Hash,
    pub marked: bool,
    pub output: TransactionOutput,
}

/// The unspent outputs. No hash occurs twice.
#[derive(Clone, Debug)]
pub struct UtxoSet {
    entries: Vec<UtxoEntry>,
}

/// The index of `hash` among `entries`, where there is one.
pub open spec fn index_of(entries: Seq<UtxoEntry>, hash: crate::sha256::Hash) -> int {
    choose|i: int| 0 <= i < entries.len() && entries[i].hash == hash
}

/// Whether `hash` occurs among `entries`.
pub open spec fn has_hash(entries: Seq<UtxoEntry>, hash: crate::sha256::Hash) -> bool {
    exists|i: int| 0 <= i < entries.len() && entries[i].hash == hash
}

/// Whether no hash occurs twice among `entries`.
pub open spec fn distinct_hashes(entries: Seq<UtxoEntry>) -> bool {
    forall|i: int, j: int|
        0 <= i < entries.len() && 0 <= j < entries.len() && i != j ==> entries[i].hash
            != entries[j].hash
}

/// The map that a list of entries with distinct hashes stands for.
pub open spec fn entries_map(entries: Seq<UtxoEntry>) -> Map<
    crate::sha256::Hash,
    (bool, TransactionOutput),
> {
    Map::new(
        |k: crate::sha256::Hash| has_hash(entries, k),
        |k: crate::sha256::Hash|
            (entries[index_of(entries, k)].marked, entries[index_of(entries, k)].output),
    )
}

impl View for UtxoSet {
    type V = Map<crate::sha256::Hash, (bool, TransactionOutput)>;

    /// The set as a map from hash to mark and output.
    closed spec fn view(&self) -> Map<crate::sha256::Hash, (bool, TransactionOutput)> {
        entries_map(self.entries@)
    }
}

impl UtxoSet {
    /// Whether the set is well formed: no hash occurs twice.
    pub closed spec fn wf(&self) -> bool {
        distinct_hashes(self.entries@)
    }

    /// The entries in the order in which they are held.
    pub closed spec fn entries(&self) -> Seq<UtxoEntry> {
        self.entries@
    }

    /// The held entries are exactly the pairs of the map: every entry
    /// stands in the map under its hash, and every key of the map is the
    /// hash of an entry.
    pub proof fn lemma_entries(&self)
        requires
            self.wf(),
        ensures
            distinct_hashes(self.entries()),
            forall|i: int|
                0 <= i < self.entries().len() ==> self@.contains_key(
                    #[trigger] self.entries()[i].hash,
                ) && self@[self.entries()[i].hash] == (
                    self.entries()[i].marked,
                    self.entries()[i].output,
                ),
            forall|k: crate::sha256::Hash|
                self@.contains_key(k) ==> has_hash(self.entries(), k),
    {
    }

    /// The empty set.
    pub fn new() -> (r: UtxoSet)
        ensures
            r.wf(),
            r@ == Map::<crate::sha256::Hash, (bool, TransactionOutput)>::empty(),
    {
        let r = UtxoSet { entries: Vec::new() };
        assert(r@ =~= Map::<crate::sha256::Hash, (bool, TransactionOutput)>::empty());
        r
    }

    /// The number of unspent outputs.
    pub fn len(&self) -> (n: usize)
        ensures
            n == self.entries().len(),
    {
        self.entries.len()
    }

    /// The entry at position `i`, for `i` below `len()`: one pair of the
    /// map.
    pub fn entry(&self, i: usize) -> (e: UtxoEntry)
        requires
            self.wf(),
            i < self.entries().len(),
        ensures
            e == self.entries()[i as int],
            self@.contains_key(e.hash),
            self@[e.hash] == (e.marked, e.output),
    {
        proof {
            self.lemma_entries();
        }
        self.entries[i]
    }

    /// The position of `hash` in the list, if it is there.
    fn find(&self, hash: &crate::sha256::Hash) -> (r: Option<usize>)
        requires
            self.wf(),
        ensures
            match r {
                Some(i) => i < self.entries@.len() && self.entries@[i as int].hash == *hash
                    && index_of(self.entries@, *hash) == i,
                None => !has_hash(self.entries@, *hash),
            },
    {
        let mut i: usize = 0;
        while i < self.entries.len()
            invariant
                i <= self.entries.len(),
                distinct_hashes(self.entries@),
                forall|j: int| 0 <= j < i ==> self.entries@[j].hash != *hash,
            decreases self.entries.len() - i,
        {
            if self.entries[i].hash == *hash {
                return Some(i);
            }
            i = i + 1;
        }
        None
    }

    /// The mark and the output that stand under `hash`, if any.
    pub fn get(&self, hash: &crate::sha256::Hash) -> (r: Option<(bool, TransactionOutput)>)
        requires
            self.wf(),
        ensures
            match r {
                Some(v) => self@.contains_key(*hash) && self@[*hash] == v,
                None => !self@.contains_key(*hash),
            },
    {
        match self.find(hash) {
            Some(i) => Some((self.entries[i].marked, self.entries[i].output)),
            None => None,
        }
    }

    /// Whether an output stands under `hash`.
    pub fn contains_key(&self, hash: &crate::sha256::Hash) -> (r: bool)
        requires
            self.wf(),
        ensures
            r == self@.contains_key(*hash),
    {
        self.find(hash).is_some()
    }

    /// Puts `output` under `hash` with the given mark, in place of what stood
    /// there.
    pub fn insert(&mut self, hash: crate::sha256::Hash, marked: bool, output: TransactionOutput)
        requires
            old(self).wf(),
        ensures
            final(self).wf(),
            final(self)@ == old(self)@.insert(hash, (marked, output)),
    {
        let entry = UtxoEntry { hash, marked, output };
        let ghost before = self.entries@;
        match self.find(&hash) {
            Some(i) => {
                self.entries.set(i, entry);
                proof {
                    let after = self.entries@;
                    assert forall|k: crate::sha256::Hash| has_hash(after, k) == has_hash(
                        before,
                        k,
                    ) by {
                        if has_hash(before, k) {
                            let j = index_of(before, k);
                            assert(after[j].hash == k);
                        }
                        if has_hash(after, k) {
                            let j = index_of(after, k);
                            assert(before[j].hash == k);
                        }
                    }
                    assert forall|k: crate::sha256::Hash| has_hash(after, k) implies index_of(
                        after,
                        k,
                    ) == index_of(before, k) by {
                        let j = index_of(after, k);
                        assert(before[j].hash == k);
                    }
                    assert(self@ =~= old(self)@.insert(hash, (marked, output)));
                }
            },
            None => {
                self.entries.push(entry);
                proof {
                    let after = self.entries@;
                    let n = before.len() as int;
                    assert(after[n].hash == hash);
                    assert forall|k: crate::sha256::Hash| has_hash(after, k) == (k == hash
                        || has_hash(before, k)) by {
                        if has_hash(before, k) {
                            let j = index_of(before, k);
                            assert(after[j].hash == k);
                        }
                        if has_hash(after, k) {
                            let j = index_of(after, k);
                            if j < n {
                                assert(before[j].hash == k);
                            }
                        }
                    }
                    assert forall|k: crate::sha256::Hash|
                        has_hash(before, k) implies index_of(after, k) == index_of(before, k) by {
                        let j = index_of(before, k);
                        assert(after[j].hash == k);
                    }
                    assert(self@ =~= old(self)@.insert(hash, (marked, output)));
                }
            },
        }
    }

    /// Takes away what stands under `hash`, if anything.
    pub fn remove(&mut self, hash: &crate::sha256::Hash)
        requires
            old(self).wf(),
        ensures
            final(self).wf(),
            final(self)@ == old(self)@.remove(*hash),
    {
        let ghost before = self.entries@;
        match self.find(hash) {
            Some(i) => {
                self.entries.remove(i);
                proof {
                    let after = self.entries@;
                    assert(after =~= before.remove(i as int));
                    assert forall|k: crate::sha256::Hash| has_hash(after, k) == (k != *hash
                        && has_hash(before, k)) by {
                        if k != *hash && has_hash(before, k) {
                            let j = index_of(before, k);
                            if j < i {
                                assert(after[j].hash == k);
                            } else {
                                assert(after[j - 1].hash == k);
                            }
                        }
                        if has_hash(after, k) {
                            let j = index_of(after, k);
                            if j < i {
                                assert(before[j].hash == k);
                            } else {
                                assert(before[j + 1].hash == k);
                            }
                        }
                    }
                    assert forall|k: crate::sha256::Hash| has_hash(after, k) implies ({
                        let j = index_of(after, k);
                        let b = index_of(before, k);
                        after[j].marked == before[b].marked && after[j].output == before[b].output
                    }) by {
                        let j = index_of(after, k);
                        if j < i {
                            assert(before[j].hash == k);
                        } else {
                            assert(before[j + 1].hash == k);
                        }
                    }
                    assert(self@ =~= old(self)@.remove(*hash));
                }
            },
            None => {
                assert(self@ =~= old(self)@.remove(*hash));
            },
        }
    }

    /// Sets the mark of what stands under `hash`, if anything.
    pub fn set_mark(&mut self, hash: &crate::sha256::Hash, marked: bool)
        requires
            old(self).wf(),
        ensures
            final(self).wf(),
            final(self)@ == with_mark(old(self)@, *hash, marked),
    {
        match self.get(hash) {
            Some((_, output)) => {
                self.insert(*hash, marked, output);
            },
            None => {},
        }
    }
}

/// The map `m` with the mark under `hash` set to `marked`; `m` itself where
/// nothing stands under `hash`.
pub open spec fn with_mark(
    m: Map<crate::sha256::Hash, (bool, TransactionOutput)>,
    hash: crate::sha256::Hash,
    marked: bool,
) -> Map<crate::sha256::Hash, (bool, TransactionOutput)> {
    if m.contains_key(hash) {
        m.insert(hash, (marked, m[hash].1))
    } else {
        m
    }
}

} // verus!
