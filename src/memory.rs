//! The in-memory backend: key/value pairs in a vector kept in strictly
//! increasing key order.
use vstd::prelude::*;
use vstd::slice::slice_to_vec;
use crate::engine::{apply_batch, apply_modify, is_seek_result, Contents, Engine, Error, Modify};
use crate::keys::{compare_keys, lemma_lex_irreflexive, lemma_lex_total, lemma_lex_transitive, lex_lt};

verus! {

/// An ephemeral engine. It has no failure mode: every operation succeeds.
pub struct MemoryEngine {
    entries: Vec<(Vec<u8>, Vec<u8>)>,
    contents: Ghost<Contents>,
}

impl MemoryEngine {
    spec fn key_at(&self, i: int) -> Seq<u8> {
        self.entries@[i].0@
    }

    spec fn val_at(&self, i: int) -> Seq<u8> {
        self.entries@[i].1@
    }

    spec fn sorted(&self) -> bool {
        forall|i: int, j: int|
            0 <= i < j < self.entries@.len() ==> lex_lt(#[trigger] self.key_at(i), #[trigger] self.key_at(j))
    }

    /// Keys strictly increase along the vector, and the ghost map holds
    /// exactly the stored pairs.
    spec fn wf(&self) -> bool {
        &&& self.sorted()
        &&& forall|i: int|
            0 <= i < self.entries@.len() ==> {
                &&& self.contents@.contains_key(#[trigger] self.key_at(i))
                &&& self.contents@[self.key_at(i)] == self.val_at(i)
            }
        &&& forall|k: Seq<u8>|
            #[trigger] self.contents@.contains_key(k) ==> exists|i: int|
                0 <= i < self.entries@.len() && self.key_at(i) == k
    }

    /// An engine that holds nothing.
    pub fn new() -> (r: MemoryEngine)
        ensures
            r.well_formed(),
            r.contents() == Contents::empty(),
    {
        MemoryEngine { entries: Vec::new(), contents: Ghost(Map::empty()) }
    }

    /// The position of the first stored key not below `key`.
    fn find(&self, key: &[u8]) -> (i: usize)
        requires
            self.wf(),
        ensures
            i <= self.entries@.len(),
            forall|j: int| 0 <= j < i ==> lex_lt(#[trigger] self.key_at(j), key@),
            forall|j: int| i <= j < self.entries@.len() ==> !lex_lt(#[trigger] self.key_at(j), key@),
    {
        let mut lo: usize = 0;
        let mut hi: usize = self.entries.len();
        while lo < hi
            invariant
                self.wf(),
                lo <= hi <= self.entries@.len(),
                forall|j: int| 0 <= j < lo ==> lex_lt(#[trigger] self.key_at(j), key@),
                forall|j: int| hi <= j < self.entries@.len() ==> !lex_lt(#[trigger] self.key_at(j), key@),
            decreases hi - lo,
        {
            let mid: usize = lo + (hi - lo) / 2;
            let c = compare_keys(self.entries[mid].0.as_slice(), key);
            if matches!(c, core::cmp::Ordering::Less) {
                assert forall|j: int| 0 <= j < mid + 1 implies lex_lt(#[trigger] self.key_at(j), key@) by {
                    if j < mid {
                        lemma_lex_transitive(self.key_at(j), self.key_at(mid as int), key@);
                    }
                };
                lo = mid + 1;
            } else {
                assert forall|j: int| mid <= j < self.entries@.len() implies !lex_lt(#[trigger] self.key_at(j), key@) by {
                    if j > mid && lex_lt(self.key_at(j), key@) {
                        lemma_lex_transitive(self.key_at(mid as int), self.key_at(j), key@);
                    }
                };
                hi = mid;
            }
        }
        lo
    }

    /// Whether the key at `i` is `key` itself.
    fn holds_at(&self, i: usize, key: &[u8]) -> (r: bool)
        requires
            self.wf(),
            i <= self.entries@.len(),
        ensures
            r == (i < self.entries@.len() && self.key_at(i as int) == key@),
    {
        if i < self.entries.len() {
            matches!(compare_keys(self.entries[i].0.as_slice(), key), core::cmp::Ordering::Equal)
        } else {
            false
        }
    }

    /// Stores `value` under `key`, replacing any earlier value.
    fn upsert(&mut self, key: &[u8], value: &[u8])
        requires
            old(self).wf(),
        ensures
            final(self).wf(),
            final(self).contents@ == old(self).contents@.insert(key@, value@),
    {
        let i = self.find(key);
        let found = self.holds_at(i, key);
        if found {
            self.entries.remove(i);
        }
        let ghost pre = self.entries@;
        let ghost old_entries = old(self).entries@;
        self.entries.insert(i, (slice_to_vec(key), slice_to_vec(value)));
        self.contents = Ghost(self.contents@.insert(key@, value@));
        proof {
            let n = self.entries@.len();
            assert(self.key_at(i as int) == key@);
            // Position of each new entry in the old vector.
            assert forall|j: int| 0 <= j < n && j != i implies {
                &&& #[trigger] self.key_at(j) == old(self).key_at(
                    if j < i { j } else if n == old_entries.len() { j } else { j - 1 },
                )
                &&& self.val_at(j) == old(self).val_at(
                    if j < i { j } else if n == old_entries.len() { j } else { j - 1 },
                )
                &&& if j < i { lex_lt(self.key_at(j), key@) } else { lex_lt(key@, self.key_at(j)) }
            } by {
                let oj = if j < i { j } else if n == old_entries.len() { j } else { j - 1 };
                let pj = if j < i { j } else { j - 1 };
                assert(self.entries@[j] == pre[pj]);
                assert(pre[pj] == old_entries[oj]);
                if j > i && n != old_entries.len() {
                    lemma_lex_total(old(self).key_at(i as int), key@);
                    if oj > i {
                        lemma_lex_transitive(key@, old(self).key_at(i as int), old(self).key_at(oj));
                    }
                }
                assert(self.key_at(j) == old(self).key_at(oj));
                assert(self.val_at(j) == old(self).val_at(oj));
                if j < i {
                    assert(lex_lt(self.key_at(j), key@));
                } else {
                    assert(lex_lt(key@, self.key_at(j)));
                }
            };
            assert forall|a: int, b: int| 0 <= a < b < n implies lex_lt(#[trigger] self.key_at(a), #[trigger] self.key_at(b)) by {
                if a == i {
                } else if b == i {
                } else if a < i && i < b {
                    lemma_lex_transitive(self.key_at(a), key@, self.key_at(b));
                }
            };
            assert forall|j: int| 0 <= j < n implies {
                &&& self.contents@.contains_key(#[trigger] self.key_at(j))
                &&& self.contents@[self.key_at(j)] == self.val_at(j)
            } by {
                if j != i {
                    lemma_lex_irreflexive(key@);
                }
            };
            assert forall|k: Seq<u8>| #[trigger] self.contents@.contains_key(k) implies exists|j: int|
                0 <= j < n && self.key_at(j) == k by {
                if k == key@ {
                    assert(self.key_at(i as int) == k);
                } else {
                    let oj = choose|oj: int| 0 <= oj < old_entries.len() && old(self).key_at(oj) == k;
                    if oj < i {
                        assert(self.key_at(oj) == k);
                    } else if n == old_entries.len() {
                        if oj == i {
                            assert(false);
                        }
                        assert(self.key_at(oj) == k);
                    } else {
                        assert(self.key_at(oj + 1) == k);
                    }
                }
            };
        }
    }

    /// Removes `key` if present; an absent key is left alone.
    fn remove_key(&mut self, key: &[u8])
        requires
            old(self).wf(),
        ensures
            final(self).wf(),
            final(self).contents@ == old(self).contents@.remove(key@),
    {
        let i = self.find(key);
        if self.holds_at(i, key) {
            let ghost old_entries = self.entries@;
            self.entries.remove(i);
            self.contents = Ghost(self.contents@.remove(key@));
            proof {
                let n = self.entries@.len();
                assert forall|j: int| 0 <= j < n implies {
                    &&& #[trigger] self.key_at(j) == old(self).key_at(if j < i { j } else { j + 1 })
                    &&& self.val_at(j) == old(self).val_at(if j < i { j } else { j + 1 })
                    &&& self.key_at(j) != key@
                } by {
                    if j < i {
                        lemma_lex_irreflexive(key@);
                    } else {
                        assert(lex_lt(old(self).key_at(i as int), old(self).key_at(j + 1)));
                        lemma_lex_irreflexive(key@);
                    }
                };
                assert forall|a: int, b: int| 0 <= a < b < n implies lex_lt(#[trigger] self.key_at(a), #[trigger] self.key_at(b)) by {
                    let oa = if a < i { a } else { a + 1 };
                    let ob = if b < i { b } else { b + 1 };
                    assert(lex_lt(old(self).key_at(oa), old(self).key_at(ob)));
                };
                assert forall|k: Seq<u8>| #[trigger] self.contents@.contains_key(k) implies exists|j: int|
                    0 <= j < n && self.key_at(j) == k by {
                    let oj = choose|oj: int| 0 <= oj < old_entries.len() && old(self).key_at(oj) == k;
                    if oj < i {
                        assert(self.key_at(oj) == k);
                    } else {
                        assert(self.key_at(oj - 1) == k);
                    }
                };
            }
        } else {
            proof {
                if old(self).contents@.contains_key(key@) {
                    let oj = choose|oj: int| 0 <= oj < self.entries@.len() && self.key_at(oj) == key@;
                    lemma_lex_irreflexive(key@);
                    if oj > i {
                        lemma_lex_total(self.key_at(i as int), key@);
                        assert(lex_lt(self.key_at(i as int), self.key_at(oj)));
                    }
                }
                assert(self.contents@ =~= self.contents@.remove(key@));
            }
        }
    }

    /// Applies one mutation.
    fn apply(&mut self, op: &Modify)
        requires
            old(self).wf(),
        ensures
            final(self).wf(),
            final(self).contents@ == apply_modify(old(self).contents@, *op),
    {
        match op {
            Modify::Delete(k) => self.remove_key(k),
            Modify::Put((k, v)) => self.upsert(k, v),
        }
    }
}

impl Engine for MemoryEngine {
    closed spec fn contents(&self) -> Contents {
        self.contents@
    }

    closed spec fn well_formed(&self) -> bool {
        self.wf()
    }

    fn get(&self, key: &[u8]) -> (r: Result<Option<Vec<u8>>, Error>)
        ensures
            r is Ok,
    {
        let i = self.find(key);
        if self.holds_at(i, key) {
            Ok(Some(slice_to_vec(self.entries[i].1.as_slice())))
        } else {
            proof {
                if self.contents@.contains_key(key@) {
                    let j = choose|j: int| 0 <= j < self.entries@.len() && self.key_at(j) == key@;
                    lemma_lex_irreflexive(key@);
                    if j > i {
                        lemma_lex_total(self.key_at(i as int), key@);
                        assert(lex_lt(self.key_at(i as int), self.key_at(j)));
                    }
                }
            }
            Ok(None)
        }
    }

    fn seek(&self, key: &[u8]) -> (r: Result<Option<(Vec<u8>, Vec<u8>)>, Error>)
        ensures
            r is Ok,
    {
        let i = self.find(key);
        if i < self.entries.len() {
            proof {
                assert forall|s: Seq<u8>| #[trigger] self.contents@.contains_key(s) && !lex_lt(s, key@)
                    implies !lex_lt(s, self.key_at(i as int)) by {
                    let j = choose|j: int| 0 <= j < self.entries@.len() && self.key_at(j) == s;
                    lemma_lex_irreflexive(s);
                    if j > i {
                        lemma_lex_total(self.key_at(i as int), s);
                    }
                };
            }
            let k = slice_to_vec(self.entries[i].0.as_slice());
            let v = slice_to_vec(self.entries[i].1.as_slice());
            assert(self.contents@.contains_key(self.key_at(i as int)));
            assert(is_seek_result(self.contents@, key@, Some((k@, v@))));
            Ok(Some((k, v)))
        } else {
            proof {
                assert forall|s: Seq<u8>| #[trigger] self.contents@.contains_key(s) implies lex_lt(s, key@) by {
                    let j = choose|j: int| 0 <= j < self.entries@.len() && self.key_at(j) == s;
                };
            }
            assert(is_seek_result(self.contents@, key@, None));
            Ok(None)
        }
    }

    fn write(&mut self, batch: Vec<Modify>) -> (r: Result<(), Error>)
        ensures
            r is Ok,
    {
        let mut i: usize = 0;
        while i < batch.len()
            invariant
                self.wf(),
                i <= batch@.len(),
                self.contents@ == apply_batch(old(self).contents@, batch@.subrange(0, i as int)),
            decreases batch@.len() - i,
        {
            self.apply(&batch[i]);
            proof {
                assert(batch@.subrange(0, i + 1).drop_last() =~= batch@.subrange(0, i as int));
            }
            i = i + 1;
        }
        assert(batch@.subrange(0, i as int) =~= batch@);
        Ok(())
    }

    fn put(&mut self, key: &[u8], value: &[u8]) -> (r: Result<(), Error>)
        ensures
            r is Ok,
    {
        self.upsert(key, value);
        Ok(())
    }

    fn delete(&mut self, key: &[u8]) -> (r: Result<(), Error>)
        ensures
            r is Ok,
    {
        self.remove_key(key);
        Ok(())
    }
}

} // verus!
