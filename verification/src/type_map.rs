//! An association from 64-bit keys to values, viewed as a `Map<u64, V>`.
//!
//! Type keys and entity identifiers are both 64-bit tokens, so one table
//! shape serves the per-type storage, the per-type bookkeeping, and the
//! ownership records. The table is a pair of parallel vectors with distinct
//! keys; every operation is specified against the abstract map.

use vstd::prelude::*;

verus! {

pub struct TypeMap<V> {
    keys: Vec<u64>,
    vals: Vec<V>,
}

impl<V> TypeMap<V> {
    /// Well-formed: parallel vectors of equal length, keys distinct.
    pub closed spec fn wf(self) -> bool {
        &&& self.keys@.len() == self.vals@.len()
        &&& forall|i: int, j: int|
            0 <= i < j < self.keys@.len() ==> self.keys@[i] != self.keys@[j]
    }

    /// The position of `k` among the keys; meaningful only when present.
    closed spec fn key_idx(self, k: u64) -> int {
        choose|i: int| 0 <= i < self.keys@.len() && self.keys@[i] == k
    }
}

impl<V> View for TypeMap<V> {
    type V = Map<u64, V>;

    closed spec fn view(&self) -> Map<u64, V> {
        Map::new(
            |k: u64| self.keys@.contains(k),
            |k: u64| self.vals@[self.key_idx(k)],
        )
    }
}

impl<V> TypeMap<V> {
    /// The empty table.
    pub fn new() -> (r: TypeMap<V>)
        ensures
            r@ == Map::<u64, V>::empty(),
            r.wf(),
    {
        let r = TypeMap { keys: Vec::new(), vals: Vec::new() };
        proof {
            assert(r@ =~= Map::<u64, V>::empty());
        }
        r
    }

    /// The position of `k`, when present.
    fn find(&self, k: u64) -> (r: Option<usize>)
        requires
            self.wf(),
        ensures
            match r {
                Option::Some(j) => {
                    &&& j < self.keys@.len()
                    &&& self.keys@[j as int] == k
                    &&& j == self.key_idx(k)
                    &&& self@.dom().contains(k)
                },
                Option::None => !self@.dom().contains(k),
            },
    {
        let n = self.keys.len();
        let mut p: usize = 0;
        while p < n && self.keys[p] != k
            invariant
                n == self.keys@.len(),
                0 <= p <= n,
                forall|j: int| 0 <= j < p ==> self.keys@[j] != k,
            decreases n - p,
        {
            p = p + 1;
        }
        if p == n {
            assert(!self.keys@.contains(k));
            Option::None
        } else {
            proof {
                assert(self.keys@.contains(k)) by {
                    assert(self.keys@[p as int] == k);
                }
                let c = self.key_idx(k);
                assert(0 <= c < self.keys@.len() && self.keys@[c] == k);
                if c != p {
                    assert(false);
                }
            }
            Option::Some(p)
        }
    }

    /// Whether `k` is bound.
    pub fn contains_key(&self, k: u64) -> (r: bool)
        requires
            self.wf(),
        ensures
            r == self@.dom().contains(k),
    {
        match self.find(k) {
            Option::Some(_) => true,
            Option::None => false,
        }
    }

    /// A borrow of the value bound to `k`.
    pub fn get(&self, k: u64) -> (r: Option<&V>)
        requires
            self.wf(),
        ensures
            match r {
                Option::Some(v) => self@.dom().contains(k) && *v == self@[k],
                Option::None => !self@.dom().contains(k),
            },
    {
        match self.find(k) {
            Option::Some(j) => Option::Some(&self.vals[j]),
            Option::None => Option::None,
        }
    }

    /// Binds `k` to `v`, replacing any earlier binding.
    pub fn insert(&mut self, k: u64, v: V)
        requires
            old(self).wf(),
        ensures
            final(self).wf(),
            final(self)@ == old(self)@.insert(k, v),
    {
        let ghost m0 = self@;
        match self.find(k) {
            Option::Some(j) => {
                let ghost k0 = self.keys@;
                self.vals.set(j, v);
                proof {
                    assert(self.keys@ == k0);
                    assert forall|y: u64| self@.dom().contains(y) implies
                        m0.insert(k, v).dom().contains(y) by {}
                    assert forall|y: u64| #[trigger] m0.insert(k, v).dom().contains(y) implies
                        self@.dom().contains(y) && self@[y] == m0.insert(k, v)[y] by {
                        let c = self.key_idx(y);
                        assert(k0.contains(y));
                        assert(0 <= c < k0.len() && k0[c] == y);
                        if y == k {
                            assert(c == j);
                        } else {
                            assert(c != j);
                            assert(self.vals@[c] == old(self).vals@[c]);
                            assert(c == old(self).key_idx(y));
                        }
                    }
                    assert(self@ =~= m0.insert(k, v));
                }
            },
            Option::None => {
                let ghost k0 = self.keys@;
                let ghost n0 = k0.len() as int;
                self.keys.push(k);
                self.vals.push(v);
                proof {
                    let k1 = self.keys@;
                    assert(k1 == k0.push(k));
                    assert(!k0.contains(k));
                    assert forall|i: int, j: int|
                        0 <= i < j < k1.len() implies k1[i] != k1[j] by {
                        if j == n0 {
                            assert(k1[i] == k0[i]);
                            if k0[i] == k {
                                assert(k0.contains(k));
                            }
                        }
                    }
                    assert forall|y: u64| k1.contains(y) implies
                        (k0.contains(y) || y == k) by {
                        let w = choose|w: int| 0 <= w < k1.len() && k1[w] == y;
                        if w < n0 {
                            assert(k0[w] == y);
                        }
                    }
                    assert forall|y: u64| k0.contains(y) implies k1.contains(y) by {
                        let w = choose|w: int| 0 <= w < k0.len() && k0[w] == y;
                        assert(k1[w] == y);
                    }
                    assert(k1.contains(k)) by {
                        assert(k1[n0] == k);
                    }
                    assert forall|y: u64| #[trigger] k1.contains(y) implies
                        self@[y] == m0.insert(k, v)[y] by {
                        let c = self.key_idx(y);
                        assert(0 <= c < k1.len() && k1[c] == y);
                        if y == k {
                            if c != n0 {
                                assert(k0[c] == k);
                                assert(k0.contains(k));
                            }
                            assert(self.vals@[c] == v);
                        } else {
                            assert(c != n0);
                            assert(k0[c] == y);
                            assert(c == old(self).key_idx(y));
                            assert(self.vals@[c] == old(self).vals@[c]);
                        }
                    }
                    assert(self@ =~= m0.insert(k, v));
                }
            },
        }
    }

    /// Unbinds `k`; reports whether a binding existed.
    pub fn remove(&mut self, k: u64) -> (r: bool)
        requires
            old(self).wf(),
        ensures
            final(self).wf(),
            final(self)@ == old(self)@.remove(k),
            r == old(self)@.dom().contains(k),
    {
        let ghost m0 = self@;
        match self.find(k) {
            Option::None => {
                proof {
                    assert(self@ =~= m0.remove(k));
                }
                false
            },
            Option::Some(j) => {
                let ghost k0 = self.keys@;
                let ghost n0 = k0.len() as int;
                self.keys.remove(j);
                self.vals.remove(j);
                proof {
                    let k1 = self.keys@;
                    assert(k1 == k0.remove(j as int));
                    assert forall|i2: int, j2: int|
                        0 <= i2 < j2 < k1.len() implies k1[i2] != k1[j2] by {
                        let a = if i2 < j { i2 } else { i2 + 1 };
                        let b = if j2 < j { j2 } else { j2 + 1 };
                        assert(k1[i2] == k0[a] && k1[j2] == k0[b]);
                    }
                    assert forall|y: u64| k1.contains(y) implies
                        (k0.contains(y) && y != k) by {
                        let w = choose|w: int| 0 <= w < k1.len() && k1[w] == y;
                        let a = if w < j { w } else { w + 1 };
                        assert(k0[a] == y);
                        assert(a != j);
                    }
                    assert forall|y: u64| k0.contains(y) && y != k implies k1.contains(y) by {
                        let w = choose|w: int| 0 <= w < k0.len() && k0[w] == y;
                        assert(w != j);
                        if w < j {
                            assert(k1[w] == y);
                        } else {
                            assert(k1[w - 1] == y);
                        }
                    }
                    assert forall|y: u64| #[trigger] k1.contains(y) implies
                        self@[y] == m0.remove(k)[y] by {
                        let c = self.key_idx(y);
                        assert(0 <= c < k1.len() && k1[c] == y);
                        let a = if c < j { c } else { c + 1 };
                        assert(k0[a] == y && a != j);
                        assert(self.vals@[c] == old(self).vals@[a]);
                        assert(a == old(self).key_idx(y));
                    }
                    assert(self@ =~= m0.remove(k));
                }
                true
            },
        }
    }

    /// Swaps the value bound to `k` with `*x`. This is how a caller mutates
    /// a bound value in place: swap it out, rework it, swap it back.
    pub fn swap_value(&mut self, k: u64, x: &mut V)
        requires
            old(self).wf(),
            old(self)@.dom().contains(k),
        ensures
            final(self).wf(),
            final(self)@ == old(self)@.insert(k, *old(x)),
            *final(x) == old(self)@[k],
    {
        let ghost m0 = self@;
        let j = match self.find(k) {
            Option::Some(j) => j,
            Option::None => {
                proof {
                    assert(false);
                }
                0
            },
        };
        self.vals.set_and_swap(j, x);
        proof {
            assert(self.keys@ == old(self).keys@);
            assert forall|y: u64| #[trigger] self.keys@.contains(y) implies
                self@[y] == m0.insert(k, *old(x))[y] by {
                let c = self.key_idx(y);
                assert(0 <= c < self.keys@.len() && self.keys@[c] == y);
                if y == k {
                    assert(c == j);
                } else {
                    assert(c != j);
                    assert(self.vals@[c] == old(self).vals@[c]);
                    assert(c == old(self).key_idx(y));
                }
            }
            assert(self@ =~= m0.insert(k, *old(x)));
        }
    }

    /// A snapshot of the keys, each exactly once.
    pub fn key_list(&self) -> (r: Vec<u64>)
        requires
            self.wf(),
        ensures
            forall|y: u64| r@.contains(y) <==> self@.dom().contains(y),
            forall|i: int, j: int| 0 <= i < j < r@.len() ==> r@[i] != r@[j],
    {
        let mut r: Vec<u64> = Vec::new();
        let n = self.keys.len();
        let mut p: usize = 0;
        while p < n
            invariant
                n == self.keys@.len(),
                0 <= p <= n,
                r@ == self.keys@.subrange(0, p as int),
            decreases n - p,
        {
            r.push(self.keys[p]);
            proof {
                assert(r@ =~= self.keys@.subrange(0, p + 1));
            }
            p = p + 1;
        }
        proof {
            assert(r@ =~= self.keys@);
        }
        r
    }
}

} // verus!
