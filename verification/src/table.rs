//! Peer state tables: an association table keyed by peer identifier, with
//! unique keys, lookup, insert, removal and enumeration.

use vstd::prelude::*;

verus! {

/// Two tables agree on every key but `k`.
pub open spec fn same_except<V>(post: Table<V>, pre: Table<V>, k: u64) -> bool {
    forall|k2: u64|
        k2 != k ==> (post.contains(k2) == pre.contains(k2) && (pre.contains(k2)
            ==> post.val_of(k2) == pre.val_of(k2)))
}

/// A mapping from peer identifiers to records. Keys are unique; enumeration
/// order is the order of first insertion.
pub struct Table<V> {
    pub entries: Vec<(u64, V)>,
}

impl<V> Table<V> {
    /// Keys are pairwise distinct.
    pub open spec fn wf(self) -> bool {
        forall|i: int, j: int|
            0 <= i < j < self.entries@.len() ==> self.entries@[i].0 != self.entries@[j].0
    }

    pub open spec fn spec_len(self) -> nat {
        self.entries@.len()
    }

    pub open spec fn contains(self, k: u64) -> bool {
        exists|i: int| 0 <= i < self.entries@.len() && self.entries@[i].0 == k
    }

    pub open spec fn idx_of(self, k: u64) -> int {
        choose|i: int| 0 <= i < self.entries@.len() && self.entries@[i].0 == k
    }

    /// The record stored under key `k` (meaningful when `contains(k)`).
    pub open spec fn val_of(self, k: u64) -> V {
        self.entries@[self.idx_of(k)].1
    }

    pub open spec fn key_at(self, i: int) -> u64 {
        self.entries@[i].0
    }

    pub open spec fn val_at(self, i: int) -> V {
        self.entries@[i].1
    }

    /// In a well-formed table the entry at position `i` is the unique entry
    /// for its key.
    pub proof fn lemma_key_at(self, i: int)
        requires
            self.wf(),
            0 <= i < self.spec_len(),
        ensures
            self.contains(self.key_at(i)),
            self.idx_of(self.key_at(i)) == i,
            self.val_of(self.key_at(i)) == self.val_at(i),
    {
        let k = self.key_at(i);
        assert(0 <= i < self.entries@.len() && self.entries@[i].0 == k);
        assert(self.contains(k));
        let j = self.idx_of(k);
        assert(0 <= j < self.entries@.len() && self.entries@[j].0 == k);
        if i != j {
            assert(false);
        }
    }

    pub fn new() -> (t: Table<V>)
        ensures
            t.wf(),
            t.spec_len() == 0,
            forall|k: u64| !t.contains(k),
    {
        Table { entries: Vec::new() }
    }

    pub fn len(&self) -> (n: usize)
        ensures
            n == self.spec_len(),
    {
        self.entries.len()
    }

    fn find(&self, k: u64) -> (r: Option<usize>)
        requires
            self.wf(),
        ensures
            match r {
                Some(i) => i < self.spec_len() && self.key_at(i as int) == k && self.contains(k)
                    && self.idx_of(k) == i,
                None => !self.contains(k),
            },
    {
        let mut i: usize = 0;
        while i < self.entries.len()
            invariant
                i <= self.entries@.len(),
                forall|j: int| 0 <= j < i ==> self.entries@[j].0 != k,
                self.wf(),
            decreases self.entries@.len() - i,
        {
            if self.entries[i].0 == k {
                proof {
                    self.lemma_key_at(i as int);
                }
                return Some(i);
            }
            i = i + 1;
        }
        None
    }

    pub fn get(&self, k: u64) -> (r: Option<&V>)
        requires
            self.wf(),
        ensures
            match r {
                Some(v) => self.contains(k) && *v == self.val_of(k),
                None => !self.contains(k),
            },
    {
        match self.find(k) {
            Some(i) => Some(&self.entries[i].1),
            None => None,
        }
    }

    /// Removes the entry for `k` if present; every other entry is kept.
    pub fn remove(&mut self, k: u64)
        requires
            old(self).wf(),
        ensures
            final(self).wf(),
            !final(self).contains(k),
            forall|k2: u64| k2 != k ==> final(self).contains(k2) == old(self).contains(k2),
            forall|k2: u64|
                k2 != k && old(self).contains(k2) ==> final(self).val_of(k2) == old(self).val_of(
                    k2,
                ),
            final(self).spec_len() == old(self).spec_len() - (if old(self).contains(k) {
                1int
            } else {
                0int
            }),
    {
        let found = self.find(k);
        match found {
            Some(i) => {
                let ghost pre = *self;
                self.entries.remove(i);
                proof {
                    let s0 = pre.entries@;
                    let s1 = self.entries@;
                    assert(s1 == s0.remove(i as int));
                    assert forall|a: int| 0 <= a < s1.len() implies s1[a] == (if a < i {
                        s0[a]
                    } else {
                        s0[a + 1]
                    }) by {}
                    assert(self.wf());
                    assert(!self.contains(k)) by {
                        if self.contains(k) {
                            let j = choose|j: int|
                                0 <= j < s1.len() && s1[j].0 == k;
                            if j < i {
                                assert(s0[j].0 == k);
                            } else {
                                assert(s0[j + 1].0 == k);
                            }
                        }
                    }
                    assert forall|k2: u64| k2 != k implies self.contains(k2) == pre.contains(
                        k2,
                    ) by {
                        if pre.contains(k2) {
                            let j = pre.idx_of(k2);
                            assert(0 <= j < s0.len() && s0[j].0 == k2);
                            if j < i {
                                assert(s1[j].0 == k2);
                            } else {
                                assert(j != i);
                                assert(s1[j - 1].0 == k2);
                            }
                        }
                        if self.contains(k2) {
                            let j = self.idx_of(k2);
                            assert(0 <= j < s1.len() && s1[j].0 == k2);
                            if j < i {
                                assert(s0[j].0 == k2);
                            } else {
                                assert(s0[j + 1].0 == k2);
                            }
                        }
                    }
                    assert forall|k2: u64| k2 != k && pre.contains(k2) implies self.val_of(k2)
                        == pre.val_of(k2) by {
                        let j0 = pre.idx_of(k2);
                        assert(0 <= j0 < s0.len() && s0[j0].0 == k2);
                        let j1 = if j0 < i { j0 } else { j0 - 1 };
                        assert(s1[j1].0 == k2 && s1[j1].1 == s0[j0].1);
                        self.lemma_key_at(j1);
                        assert(self.idx_of(k2) == j1);
                        pre.lemma_key_at(j0);
                    }
                }
            }
            None => {}
        }
    }

    /// Inserts or replaces the entry for `k`; every other entry is kept.
    pub fn insert(&mut self, k: u64, v: V)
        requires
            old(self).wf(),
        ensures
            final(self).wf(),
            final(self).contains(k),
            final(self).val_of(k) == v,
            forall|k2: u64| k2 != k ==> final(self).contains(k2) == old(self).contains(k2),
            forall|k2: u64|
                k2 != k && old(self).contains(k2) ==> final(self).val_of(k2) == old(self).val_of(
                    k2,
                ),
            final(self).spec_len() == old(self).spec_len() + (if old(self).contains(k) {
                0int
            } else {
                1int
            }),
    {
        self.remove(k);
        let ghost mid = *self;
        self.entries.push((k, v));
        proof {
            let s0 = mid.entries@;
            let s1 = self.entries@;
            let n = s0.len() as int;
            assert(s1 == s0.push((k, v)));
            assert forall|a: int| 0 <= a < n implies s1[a] == s0[a] by {}
            assert(s1[n] == (k, v));
            assert(self.wf()) by {
                assert forall|i: int, j: int| 0 <= i < j < s1.len() implies s1[i].0 != s1[j].0 by {
                    if j == n {
                        assert(s0[i].0 != k) by {
                            if s0[i].0 == k {
                                assert(mid.contains(k));
                            }
                        }
                    }
                }
            }
            assert(s1[n].0 == k);
            assert(self.contains(k));
            self.lemma_key_at(n);
            assert forall|k2: u64| k2 != k implies self.contains(k2) == mid.contains(k2) by {
                if self.contains(k2) {
                    let j = self.idx_of(k2);
                    assert(0 <= j < s1.len() && s1[j].0 == k2);
                    assert(j != n);
                    assert(s0[j].0 == k2);
                }
            }
            assert forall|k2: u64| k2 != k && mid.contains(k2) implies self.val_of(k2)
                == mid.val_of(k2) by {
                let j = mid.idx_of(k2);
                assert(0 <= j < s0.len() && s0[j].0 == k2);
                assert(s1[j].0 == k2 && s1[j].1 == s0[j].1);
                self.lemma_key_at(j);
                mid.lemma_key_at(j);
            }
        }
    }

    /// The entry at enumeration position `i`.
    pub fn entry_at(&self, i: usize) -> (r: (u64, &V))
        requires
            i < self.spec_len(),
        ensures
            r.0 == self.key_at(i as int),
            *r.1 == self.val_at(i as int),
    {
        let e = &self.entries[i];
        (e.0, &e.1)
    }
}

} // verus!
