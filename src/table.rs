use vstd::prelude::*;
use crate::bytes::bytes_eq;

verus! {

/// The value that `m` holds at `k`, if any.
pub open spec fn lookup<V>(m: Map<Seq<u8>, V>, k: Seq<u8>) -> Option<V> {
    if m.contains_key(k) {
        Some(m[k])
    } else {
        None
    }
}

/// A finite map from byte strings to copyable values, kept as parallel
/// vectors of distinct keys and their values.
pub struct ByteTable<V> {
    keys: Vec<Vec<u8>>,
    vals: Vec<V>,
}

impl<V: Copy> ByteTable<V> {
    pub closed spec fn key_at(&self, i: int) -> Seq<u8> {
        self.keys@[i]@
    }

    /// Keys and values line up and no key appears twice.
    pub closed spec fn wf(&self) -> bool {
        &&& self.keys@.len() == self.vals@.len()
        &&& forall|i: int, j: int|
            0 <= i < j < self.keys@.len() ==> #[trigger] self.key_at(i) != #[trigger] self.key_at(j)
    }

    pub closed spec fn has_key(&self, k: Seq<u8>) -> bool {
        exists|i: int| 0 <= i < self.keys@.len() && self.key_at(i) == k
    }

    pub closed spec fn index_of(&self, k: Seq<u8>) -> int {
        choose|i: int| 0 <= i < self.keys@.len() && self.key_at(i) == k
    }

    /// The table as a mathematical map.
    pub closed spec fn view(&self) -> Map<Seq<u8>, V> {
        Map::new(|k: Seq<u8>| self.has_key(k), |k: Seq<u8>| self.vals@[self.index_of(k)])
    }

    pub fn new() -> (r: Self)
        ensures
            r.wf(),
            r.view() == Map::<Seq<u8>, V>::empty(),
    {
        let r = ByteTable { keys: Vec::new(), vals: Vec::new() };
        assert(r.view() =~= Map::<Seq<u8>, V>::empty());
        r
    }

    pub fn len(&self) -> (r: usize)
        requires
            self.wf(),
        ensures
            r == self.view().len(),
    {
        proof { self.lemma_len(); }
        self.keys.len()
    }

    /// The table holds finitely many keys.
    pub proof fn lemma_finite(&self)
        requires
            self.wf(),
        ensures
            self.view().dom().finite(),
    {
        self.lemma_len();
    }

    proof fn lemma_len(&self)
        requires
            self.wf(),
        ensures
            self.view().dom().finite(),
            self.view().len() == self.keys@.len(),
    {
        let f = |i: int| self.key_at(i);
        let ks = Seq::new(self.keys@.len(), f);
        assert forall|i: int, j: int| 0 <= i < ks.len() && 0 <= j < ks.len() && i != j implies ks[i]
            != ks[j] by {
            if i < j {
                assert(self.key_at(i) != self.key_at(j));
            } else {
                assert(self.key_at(j) != self.key_at(i));
            }
        }
        assert(ks.no_duplicates());
        ks.unique_seq_to_set();
        assert(self.view().dom() =~= ks.to_set()) by {
            assert forall|k: Seq<u8>| self.view().dom().contains(k) implies ks.to_set().contains(k) by {
                let i = self.index_of(k);
                assert(ks[i] == k);
            }
            assert forall|k: Seq<u8>| ks.to_set().contains(k) implies self.view().dom().contains(k) by {
                let i = choose|i: int| 0 <= i < ks.len() && ks[i] == k;
                assert(self.key_at(i) == k);
            }
        }
    }

    /// Index of `k` among the keys, if present.
    fn find(&self, k: &[u8]) -> (r: Option<usize>)
        requires
            self.wf(),
        ensures
            match r {
                Some(i) => i < self.keys@.len() && self.key_at(i as int) == k@,
                None => !self.has_key(k@),
            },
    {
        let mut i: usize = 0;
        while i < self.keys.len()
            invariant
                self.wf(),
                0 <= i <= self.keys@.len(),
                forall|j: int| 0 <= j < i ==> self.key_at(j) != k@,
            decreases self.keys@.len() - i,
        {
            if bytes_eq(self.keys[i].as_slice(), k) {
                return Some(i);
            }
            i = i + 1;
        }
        None
    }

    pub fn get(&self, k: &[u8]) -> (r: Option<V>)
        requires
            self.wf(),
        ensures
            r == lookup(self.view(), k@),
    {
        match self.find(k) {
            Some(i) => {
                let ghost idx = self.index_of(k@);
                assert(self.has_key(k@));
                assert(idx == i as int) by {
                    if idx != i as int {
                        if idx < i as int {
                            assert(self.key_at(idx) != self.key_at(i as int));
                        } else {
                            assert(self.key_at(i as int) != self.key_at(idx));
                        }
                    }
                }
                Some(self.vals[i])
            },
            None => None,
        }
    }

    pub fn insert(&mut self, k: Vec<u8>, v: V) -> (r: Option<V>)
        requires
            old(self).wf(),
        ensures
            final(self).wf(),
            final(self).view() == old(self).view().insert(k@, v),
            r == lookup(old(self).view(), k@),
    {
        let prev = self.get(k.as_slice());
        match self.find(k.as_slice()) {
            Some(i) => {
                let ghost pre = *self;
                self.vals.set(i, v);
                proof {
                    assert(self.keys@ == pre.keys@);
                    assert forall|x: int| 0 <= x < self.keys@.len() implies #[trigger] self.key_at(x)
                        == pre.key_at(x) by {
                    }
                    assert(self.wf());
                    assert forall|kk: Seq<u8>| #[trigger] self.has_key(kk) == pre.has_key(kk) by {
                        if pre.has_key(kk) {
                            let j = pre.index_of(kk);
                            assert(self.key_at(j) == kk);
                        }
                        if self.has_key(kk) {
                            let j = self.index_of(kk);
                            assert(pre.key_at(j) == kk);
                        }
                    }
                    assert forall|kk: Seq<u8>| #[trigger] self.has_key(kk) implies self.index_of(kk)
                        == pre.index_of(kk) by {
                        let a = self.index_of(kk);
                        let b = pre.index_of(kk);
                        if a != b {
                            if a < b {
                                assert(self.key_at(a) != self.key_at(b));
                            } else {
                                assert(self.key_at(b) != self.key_at(a));
                            }
                        }
                    }
                    assert forall|kk: Seq<u8>| #[trigger] self.has_key(kk) && kk != k@ implies
                        self.index_of(kk) != i by {
                    }
                    assert(self.index_of(k@) == i as int) by {
                        assert(self.has_key(k@)) by { assert(self.key_at(i as int) == k@); }
                    }
                    assert(self.view() =~= pre.view().insert(k@, v));
                }
            },
            None => {
                let ghost pre = *self;
                let ghost kv = k@;
                self.keys.push(k);
                self.vals.push(v);
                proof {
                    let n = pre.keys@.len() as int;
                    assert(self.key_at(n) == kv);
                    assert forall|a: int, b: int| 0 <= a < b < self.keys@.len() implies #[trigger] self.key_at(a)
                        != #[trigger] self.key_at(b) by {
                        if b < n {
                            assert(pre.key_at(a) != pre.key_at(b));
                        } else {
                            assert(pre.key_at(a) != kv);
                        }
                    }
                    assert forall|kk: Seq<u8>| #[trigger] self.has_key(kk) == (pre.has_key(kk) || kk == kv) by {
                        if pre.has_key(kk) {
                            let j = pre.index_of(kk);
                            assert(self.key_at(j) == kk);
                        }
                        if self.has_key(kk) && kk != kv {
                            let j = self.index_of(kk);
                            assert(j != n);
                            assert(pre.key_at(j) == kk);
                        }
                    }
                    assert forall|kk: Seq<u8>| #[trigger] self.has_key(kk) implies self.vals@[self.index_of(kk)]
                        == (if kk == kv { v } else { pre.vals@[pre.index_of(kk)] }) by {
                        let a = self.index_of(kk);
                        if kk == kv {
                            if a != n {
                                assert(self.key_at(a) != self.key_at(n));
                            }
                        } else {
                            let b = pre.index_of(kk);
                            assert(self.key_at(b) == kk);
                            if a != b {
                                if a < b {
                                    assert(self.key_at(a) != self.key_at(b));
                                } else {
                                    assert(self.key_at(b) != self.key_at(a));
                                }
                            }
                        }
                    }
                    assert(self.view() =~= pre.view().insert(kv, v));
                }
            },
        }
        prev
    }

    pub fn clear(&mut self)
        ensures
            final(self).wf(),
            final(self).view() == Map::<Seq<u8>, V>::empty(),
    {
        self.keys = Vec::new();
        self.vals = Vec::new();
        assert(self.view() =~= Map::<Seq<u8>, V>::empty());
    }
}

} // verus!
