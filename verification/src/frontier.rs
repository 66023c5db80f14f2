//! An ordered map keyed by leftmost-outermost paths. Entries are kept in
//! descending path order, so the leftmost-outermost entry is the last one and
//! taking it is a pop.
use vstd::prelude::*;
use crate::lopath::{LOPath, lo_lt, lemma_lo_order, lemma_lo_lt_trans};

verus! {

/// Keys of `s` strictly descend in leftmost-outermost order.
pub open spec fn keys_descending<V>(s: Seq<(LOPath, V)>) -> bool {
    forall|i: int, j: int| 0 <= i < j < s.len() ==> lo_lt(#[trigger] s[j].0, #[trigger] s[i].0)
}

/// A map from paths to values, ordered by path.
pub struct LoMap<V> {
    pub entries: Vec<(LOPath, V)>,
}

impl<V> LoMap<V> {
    pub open spec fn wf(&self) -> bool {
        &&& forall|i: int| 0 <= i < self.entries@.len() ==> (#[trigger] self.entries@[i]).0.wf()
        &&& keys_descending(self.entries@)
    }

    pub open spec fn has_key(&self, k: LOPath) -> bool {
        exists|i: int| 0 <= i < self.entries@.len() && (#[trigger] self.entries@[i]).0 == k
    }

    /// `self` is `old` with `(k, v)` put in: the entry of `k` replaced when
    /// there was one, else a new entry inserted.
    pub open spec fn is_insert_of(&self, old: LoMap<V>, k: LOPath, v: V) -> bool {
        &&& old.has_key(k) ==> exists|i: int|
            0 <= i < old.entries@.len() && (#[trigger] old.entries@[i]).0 == k
                && self.entries@ == old.entries@.update(i, (k, v))
        &&& !old.has_key(k) ==> exists|p: int|
            0 <= p <= old.entries@.len() && #[trigger] old.entries@.insert(p, (k, v))
                == self.entries@
    }

    pub fn new() -> (m: LoMap<V>)
        ensures
            m.wf(),
            m.entries@ == Seq::<(LOPath, V)>::empty(),
    {
        LoMap { entries: Vec::new() }
    }

    pub fn len(&self) -> (n: usize)
        ensures
            n == self.entries@.len(),
    {
        self.entries.len()
    }

    pub fn is_empty(&self) -> (b: bool)
        ensures
            b == (self.entries@.len() == 0),
    {
        self.entries.len() == 0
    }

    pub fn clear(&mut self)
        ensures
            final(self).wf(),
            final(self).entries@ == Seq::<(LOPath, V)>::empty(),
    {
        self.entries.clear();
    }

    /// The entry at position `i`, in descending path order.
    pub fn entry(&self, i: usize) -> (e: &(LOPath, V))
        requires
            i < self.entries@.len(),
        ensures
            *e == self.entries@[i as int],
    {
        &self.entries[i]
    }

    /// Remove the entry at position `i`.
    pub fn remove_at(&mut self, i: usize) -> (r: (LOPath, V))
        requires
            old(self).wf(),
            i < old(self).entries@.len(),
        ensures
            final(self).wf(),
            r == old(self).entries@[i as int],
            final(self).entries@ == old(self).entries@.remove(i as int),
    {
        let r = self.entries.remove(i);
        proof {
            let o = old(self).entries@;
            let e = self.entries@;
            assert forall|a: int| 0 <= a < e.len() implies (#[trigger] e[a]).0.wf() by {
                if a < i {
                    assert(e[a] == o[a]);
                } else {
                    assert(e[a] == o[a + 1]);
                }
            }
            assert forall|a: int, b: int| 0 <= a < b < e.len() implies lo_lt(#[trigger] e[b].0, #[trigger] e[a].0) by {
                let a2 = if a < i { a } else { a + 1 };
                let b2 = if b < i { b } else { b + 1 };
                assert(e[a] == o[a2]);
                assert(e[b] == o[b2]);
            }
        }
        r
    }

    /// Take the entry with the leftmost-outermost (least) path.
    pub fn pop_first(&mut self) -> (r: Option<(LOPath, V)>)
        requires
            old(self).wf(),
        ensures
            final(self).wf(),
            old(self).entries@.len() == 0 ==> r is None && final(self).entries@ == old(
                self,
            ).entries@,
            old(self).entries@.len() > 0 ==> {
                &&& r == Some(old(self).entries@.last())
                &&& final(self).entries@ == old(self).entries@.drop_last()
                &&& forall|i: int|
                    0 <= i < final(self).entries@.len() ==> lo_lt(
                        old(self).entries@.last().0,
                        #[trigger] final(self).entries@[i].0,
                    )
            },
    {
        self.entries.pop()
    }

    /// The value stored under `k`.
    pub fn get(&self, k: &LOPath) -> (r: Option<&V>)
        requires
            self.wf(),
        ensures
            r matches Some(v) ==> exists|i: int|
                0 <= i < self.entries@.len() && (#[trigger] self.entries@[i]).0 == *k
                    && self.entries@[i].1 == *v,
            r is None <==> !self.has_key(*k),
    {
        let mut i: usize = 0;
        while i < self.entries.len()
            invariant
                i <= self.entries@.len(),
                forall|j: int| 0 <= j < i ==> (#[trigger] self.entries@[j]).0 != *k,
            decreases self.entries@.len() - i,
        {
            if self.entries[i].0 == *k {
                return Some(&self.entries[i].1);
            }
            i = i + 1;
        }
        None
    }

    /// Put `v` under `k`, replacing the value stored there.
    pub fn insert(&mut self, k: LOPath, v: V)
        requires
            old(self).wf(),
            k.wf(),
        ensures
            final(self).wf(),
            final(self).is_insert_of(*old(self), k, v),
            final(self).has_key(k),
    {
        let n = self.entries.len();
        let mut i: usize = 0;
        while i < n
            invariant
                n == self.entries@.len(),
                self.wf(),
                k.wf(),
                i <= n,
                forall|j: int| 0 <= j < i ==> lo_lt(k, #[trigger] self.entries@[j].0),
            ensures
                i <= n,
                forall|j: int| 0 <= j < i ==> lo_lt(k, #[trigger] self.entries@[j].0),
                i < n ==> k.spec_order(self.entries@[i as int].0) >= 0,
            decreases n - i,
        {
            let c = k.lo_order(&self.entries[i].0);
            proof {
                lemma_lo_order(k, self.entries@[i as int].0);
            }
            if c >= 0 {
                break;
            }
            i = i + 1;
        }
        let ghost old_e = self.entries@;
        if i < n && k.lo_order(&self.entries[i].0) == 0 {
            proof {
                lemma_lo_order(k, old_e[i as int].0);
                assert(old_e[i as int].0 == k);
            }
            self.entries.set(i, (k, v));
            proof {
                assert(self.entries@ == old_e.update(i as int, (k, v)));
                assert(self.entries@[i as int].0 == k);
            }
        } else {
            proof {
                if i < n {
                    lemma_lo_order(k, old_e[i as int].0);
                    lemma_lo_order(old_e[i as int].0, k);
                    assert(lo_lt(old_e[i as int].0, k));
                }
                assert forall|j: int| 0 <= j < old_e.len() implies (#[trigger] old_e[j]).0 != k by {
                    if j < i {
                        lemma_lo_order(k, old_e[j].0);
                    } else {
                        if j > i {
                            assert(lo_lt(old_e[j].0, old_e[i as int].0));
                            lemma_lo_lt_trans(old_e[j].0, old_e[i as int].0, k);
                        }
                        lemma_lo_order(old_e[j].0, k);
                    }
                }
            }
            self.entries.insert(i, (k, v));
            proof {
                let ne = self.entries@;
                assert(ne == old_e.insert(i as int, (k, v)));
                assert(ne[i as int].0 == k);
                assert forall|a: int, b: int| 0 <= a < b < ne.len() implies lo_lt(
                    #[trigger] ne[b].0,
                    #[trigger] ne[a].0,
                ) by {
                    if b < i {
                        assert(ne[a] == old_e[a] && ne[b] == old_e[b]);
                    } else if b == i {
                        assert(ne[a] == old_e[a]);
                    } else if a == i {
                        assert(ne[b] == old_e[b - 1]);
                        if b - 1 > i {
                            assert(lo_lt(old_e[b - 1].0, old_e[i as int].0));
                            lemma_lo_lt_trans(old_e[b - 1].0, old_e[i as int].0, k);
                        }
                    } else if a < i {
                        assert(ne[a] == old_e[a] && ne[b] == old_e[b - 1]);
                    } else {
                        assert(ne[a] == old_e[a - 1] && ne[b] == old_e[b - 1]);
                    }
                }
                assert forall|a: int| 0 <= a < ne.len() implies (#[trigger] ne[a]).0.wf() by {
                    if a < i {
                        assert(ne[a] == old_e[a]);
                    } else if a > i {
                        assert(ne[a] == old_e[a - 1]);
                    }
                }
                assert(!old(self).has_key(k));
            }
        }
    }
}

} // verus!
