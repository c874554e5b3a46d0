//! A set of indices kept as a strictly increasing vector.
//!
//! The store books live ("packed") indices and recyclable ("free") indices
//! per type key. Allocation must draw the smallest free index first, so the
//! free set keeps its elements in ascending order; the packed set shares the
//! representation.

use vstd::prelude::*;

verus! {

/// True when `s` is strictly increasing, hence free of duplicates.
pub open spec fn is_sorted_strict(s: Seq<usize>) -> bool {
    forall|i: int, j: int| 0 <= i < j < s.len() ==> s[i] < s[j]
}

/// An ordered set of `usize` indices.
pub struct SortedSet {
    items: Vec<usize>,
}

impl View for SortedSet {
    type V = Seq<usize>;

    closed spec fn view(&self) -> Seq<usize> {
        self.items@
    }
}

impl SortedSet {
    /// Well-formed: the backing vector is strictly increasing.
    pub open spec fn wf(self) -> bool {
        is_sorted_strict(self@)
    }

    /// The empty set.
    pub fn new() -> (r: SortedSet)
        ensures
            r@ == Seq::<usize>::empty(),
            r.wf(),
    {
        SortedSet { items: Vec::new() }
    }

    /// How many indices the set holds.
    pub fn len(&self) -> (r: usize)
        ensures
            r == self@.len(),
    {
        self.items.len()
    }

    pub fn is_empty(&self) -> (r: bool)
        ensures
            r == (self@.len() == 0),
    {
        self.items.len() == 0
    }

    /// Membership test.
    pub fn contains(&self, x: usize) -> (r: bool)
        requires
            self.wf(),
        ensures
            r == self@.contains(x),
    {
        let n = self.items.len();
        let mut i: usize = 0;
        while i < n
            invariant
                n == self@.len(),
                0 <= i <= n,
                forall|j: int| 0 <= j < i ==> self@[j] != x,
            decreases n - i,
        {
            if self.items[i] == x {
                return true;
            }
            i = i + 1;
        }
        false
    }

    /// Inserts `x`; a no-op when `x` is already present.
    pub fn insert(&mut self, x: usize)
        requires
            old(self).wf(),
        ensures
            final(self).wf(),
            forall|y: usize| final(self)@.contains(y) <==> (old(self)@.contains(y) || y == x),
            final(self)@.len() == old(self)@.len() + (if old(self)@.contains(x) {
                0int
            } else {
                1int
            }),
            old(self)@.contains(x) ==> final(self)@ == old(self)@,
    {
        let n = self.items.len();
        let ghost s0 = self.items@;
        // Find the first position whose element is at least `x`.
        let mut p: usize = 0;
        while p < n && self.items[p] < x
            invariant
                n == s0.len(),
                self.items@ == s0,
                0 <= p <= n,
                forall|j: int| 0 <= j < p ==> s0[j] < x,
            decreases n - p,
        {
            p = p + 1;
        }
        if p < n && self.items[p] == x {
            // Already present: membership and length are unchanged.
            assert(s0.contains(x));
            return;
        }
        assert(forall|j: int| p <= j < s0.len() ==> s0[j] > x) by {
            assert(forall|j: int| p < j < s0.len() ==> s0[j] > s0[p as int]);
        }
        assert(!s0.contains(x));
        self.items.insert(p, x);
        proof {
            let s1 = self.items@;
            assert(s1 == s0.insert(p as int, x));
            assert forall|i: int, j: int| 0 <= i < j < s1.len() implies s1[i] < s1[j] by {
                if j < p {
                    assert(s1[i] == s0[i] && s1[j] == s0[j]);
                } else if i > p {
                    assert(s1[i] == s0[i - 1] && s1[j] == s0[j - 1]);
                } else if i == p && j > p {
                    assert(s1[i] == x && s1[j] == s0[j - 1] && j - 1 >= p);
                } else if j == p {
                    assert(s1[i] == s0[i] && s1[j] == x);
                } else {
                    // i < p < j
                    assert(s1[i] == s0[i] && s1[j] == s0[j - 1] && j - 1 >= p);
                }
            }
            assert forall|y: usize| s1.contains(y) implies (s0.contains(y) || y == x) by {
                let w = choose|w: int| 0 <= w < s1.len() && s1[w] == y;
                if w < p {
                    assert(s0[w] == y);
                } else if w > p {
                    assert(s0[w - 1] == y);
                }
            }
            assert forall|y: usize| s0.contains(y) implies s1.contains(y) by {
                let w = choose|w: int| 0 <= w < s0.len() && s0[w] == y;
                if w < p {
                    assert(s1[w] == y);
                } else {
                    assert(s1[w + 1] == y);
                }
            }
            assert(s1.contains(x)) by {
                assert(s1[p as int] == x);
            }
        }
    }

    /// Removes `x`; reports whether it was present.
    pub fn remove(&mut self, x: usize) -> (r: bool)
        requires
            old(self).wf(),
        ensures
            final(self).wf(),
            r == old(self)@.contains(x),
            forall|y: usize| final(self)@.contains(y) <==> (old(self)@.contains(y) && y != x),
            final(self)@.len() == old(self)@.len() - (if old(self)@.contains(x) {
                1int
            } else {
                0int
            }),
            !old(self)@.contains(x) ==> final(self)@ == old(self)@,
    {
        let n = self.items.len();
        let ghost s0 = self.items@;
        let mut p: usize = 0;
        while p < n && self.items[p] != x
            invariant
                n == s0.len(),
                self.items@ == s0,
                0 <= p <= n,
                forall|j: int| 0 <= j < p ==> s0[j] != x,
            decreases n - p,
        {
            p = p + 1;
        }
        if p == n {
            assert(!s0.contains(x));
            return false;
        }
        assert(s0[p as int] == x);
        assert(s0.contains(x));
        // Strict ordering makes the occurrence unique.
        assert(forall|j: int| 0 <= j < s0.len() && j != p ==> s0[j] != x) by {
            assert(forall|j: int| p < j < s0.len() ==> s0[j] > s0[p as int]);
        }
        self.items.remove(p);
        proof {
            let s1 = self.items@;
            assert(s1 == s0.remove(p as int));
            assert forall|y: usize| s1.contains(y) implies (s0.contains(y) && y != x) by {
                let w = choose|w: int| 0 <= w < s1.len() && s1[w] == y;
                if w < p {
                    assert(s0[w] == y);
                } else {
                    assert(s0[w + 1] == y);
                }
            }
            assert forall|y: usize| s0.contains(y) && y != x implies s1.contains(y) by {
                let w = choose|w: int| 0 <= w < s0.len() && s0[w] == y;
                if w < p {
                    assert(s1[w] == y);
                } else {
                    assert(w != p);
                    assert(s1[w - 1] == y);
                }
            }
        }
        true
    }

    /// The smallest index, when the set is non-empty.
    pub fn first(&self) -> (r: Option<usize>)
        requires
            self.wf(),
        ensures
            match r {
                Option::None => self@.len() == 0,
                Option::Some(m) => {
                    &&& self@.len() > 0
                    &&& m == self@[0]
                    &&& self@.contains(m)
                    &&& forall|y: usize| self@.contains(y) ==> m <= y
                },
            },
    {
        if self.items.len() == 0 {
            Option::None
        } else {
            let m = self.items[0];
            proof {
                assert forall|y: usize| self@.contains(y) implies m <= y by {
                    let w = choose|w: int| 0 <= w < self@.len() && self@[w] == y;
                    if w > 0 {
                        assert(self@[0] < self@[w]);
                    }
                }
            }
            Option::Some(m)
        }
    }

    /// A snapshot of the indices, ascending.
    pub fn as_list(&self) -> (r: Vec<usize>)
        ensures
            r@ == self@,
    {
        let n = self.items.len();
        let mut r: Vec<usize> = Vec::new();
        let mut p: usize = 0;
        while p < n
            invariant
                n == self@.len(),
                0 <= p <= n,
                r@ == self@.subrange(0, p as int),
            decreases n - p,
        {
            r.push(self.items[p]);
            proof {
                assert(r@ =~= self@.subrange(0, p + 1));
            }
            p = p + 1;
        }
        proof {
            assert(r@ =~= self@);
        }
        r
    }

    /// Drops every index.
    pub fn clear(&mut self)
        ensures
            final(self)@ == Seq::<usize>::empty(),
            final(self).wf(),
    {
        self.items.clear();
    }
}

/// The head of a strictly increasing sequence is its minimum.
pub proof fn lemma_sorted_min(s: Seq<usize>, y: usize)
    requires
        is_sorted_strict(s),
        s.contains(y),
    ensures
        s.len() > 0,
        s[0] <= y,
{
    let w = choose|w: int| 0 <= w < s.len() && s[w] == y;
    if w > 0 {
        assert(s[0] < s[w]);
    }
}

/// A strictly increasing sequence that contains every index below `n`
/// starts with exactly 0, 1, ..., n-1.
pub proof fn lemma_sorted_prefix_id(s: Seq<usize>, n: int)
    requires
        is_sorted_strict(s),
        0 <= n <= usize::MAX + 1,
        forall|y: usize| (y as int) < n ==> s.contains(y),
    ensures
        n <= s.len(),
        forall|k: int| 0 <= k < n ==> s[k] == k,
    decreases n,
{
    if n > 0 {
        lemma_sorted_prefix_id(s, n - 1);
        let v = (n - 1) as usize;
        assert(s.contains(v));
        let w = choose|w: int| 0 <= w < s.len() && s[w] == v;
        if w < n - 1 {
            assert(s[w] == w);
        }
        if w > n - 1 {
            if n - 1 == 0 {
                assert(s[0] < s[w]);
            } else {
                assert(s[n - 2] == n - 2);
                assert(s[n - 2] < s[n - 1] && s[n - 1] < s[w]);
            }
        }
        assert(s[n - 1] == n - 1);
    }
}

/// Two strictly increasing sequences with the same members are the same
/// sequence.
pub proof fn lemma_sorted_eq(s1: Seq<usize>, s2: Seq<usize>)
    requires
        is_sorted_strict(s1),
        is_sorted_strict(s2),
        forall|y: usize| s1.contains(y) <==> s2.contains(y),
    ensures
        s1 == s2,
    decreases s1.len(),
{
    if s1.len() == 0 {
        if s2.len() > 0 {
            assert(s2.contains(s2[0]));
        }
        assert(s1 =~= s2);
    } else {
        assert(s1.contains(s1[0]));
        assert(s2.contains(s1[0]));
        if s2.len() == 0 {
            assert(false);
        }
        lemma_sorted_min(s2, s1[0]);
        assert(s2.contains(s2[0]));
        lemma_sorted_min(s1, s2[0]);
        assert(s1[0] == s2[0]);
        let t1 = s1.drop_first();
        let t2 = s2.drop_first();
        assert(is_sorted_strict(t1)) by {
            assert(forall|i: int, j: int|
                0 <= i < j < t1.len() ==> t1[i] == s1[i + 1] && t1[j] == s1[j + 1]);
        }
        assert(is_sorted_strict(t2)) by {
            assert(forall|i: int, j: int|
                0 <= i < j < t2.len() ==> t2[i] == s2[i + 1] && t2[j] == s2[j + 1]);
        }
        assert forall|y: usize| t1.contains(y) <==> t2.contains(y) by {
            lemma_drop_first_contains(s1, y);
            lemma_drop_first_contains(s2, y);
        }
        lemma_sorted_eq(t1, t2);
        assert(s1 =~= s2) by {
            assert(forall|k: int| 1 <= k < s1.len() ==> s1[k] == t1[k - 1]);
            assert(forall|k: int| 1 <= k < s2.len() ==> s2[k] == t2[k - 1]);
        }
    }
}

/// Dropping the head of a strictly increasing sequence drops exactly the
/// smallest member.
pub proof fn lemma_drop_first_contains(s: Seq<usize>, y: usize)
    requires
        is_sorted_strict(s),
        s.len() > 0,
    ensures
        s.drop_first().contains(y) <==> (s.contains(y) && y != s[0]),
{
    let t = s.drop_first();
    if t.contains(y) {
        let w = choose|w: int| 0 <= w < t.len() && t[w] == y;
        assert(s[w + 1] == y);
        assert(s[0] < s[w + 1]);
    }
    if s.contains(y) && y != s[0] {
        let w = choose|w: int| 0 <= w < s.len() && s[w] == y;
        assert(w != 0);
        assert(t[w - 1] == y);
    }
}

/// In a strictly increasing sequence, elements grow at least as fast as
/// their positions.
pub proof fn lemma_sorted_gap(s: Seq<usize>, i: int, j: int)
    requires
        is_sorted_strict(s),
        0 <= i <= j < s.len(),
    ensures
        s[j] >= s[i] + (j - i),
    decreases j - i,
{
    if i < j {
        lemma_sorted_gap(s, i, j - 1);
        assert(s[j - 1] < s[j]);
    }
}

/// A strictly increasing sequence whose elements all lie below its length
/// is the identity sequence, so it holds exactly the indices below its
/// length. This is the shape of the packed set after compaction.
pub proof fn lemma_dense_set(s: Seq<usize>)
    requires
        is_sorted_strict(s),
        forall|k: int| 0 <= k < s.len() ==> s[k] < s.len(),
    ensures
        forall|k: int| 0 <= k < s.len() ==> s[k] == k,
        forall|x: usize| s.contains(x) <==> x < s.len(),
{
    assert forall|k: int| 0 <= k < s.len() implies s[k] == k by {
        lemma_sorted_gap(s, 0, k);
        lemma_sorted_gap(s, k, s.len() - 1);
    }
    assert forall|x: usize| x < s.len() implies s.contains(x) by {
        assert(s[x as int] == x);
    }
}

} // verus!
