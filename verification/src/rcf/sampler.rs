use vstd::prelude::*;

verus! {

broadcast use {vstd::seq_lib::to_multiset_update, vstd::multiset::group_multiset_axioms};

/// Parent of heap position `i`.
pub open spec fn parent(i: int) -> int {
    (i - 1) / 2
}

/// Max-heap order on the first `size` keys: no key exceeds its parent's.
pub open spec fn is_max_heap(keys: Seq<u64>, size: int) -> bool {
    forall|j: int| 0 < j < size ==> keys[parent(j)] >= #[trigger] keys[j]
}

/// Heap order everywhere except between `i` and its parent; `i`'s parent
/// still dominates `i`'s children.
spec fn heap_except_up(keys: Seq<u64>, size: int, i: int) -> bool {
    &&& forall|j: int| 0 < j < size && j != i ==> keys[parent(j)] >= #[trigger] keys[j]
    &&& i > 0 ==> forall|j: int|
        0 < j < size && parent(j) == i ==> keys[parent(i)] >= #[trigger] keys[j]
}

/// Heap order everywhere except between `i` and its children; `i`'s parent
/// dominates `i`'s children.
spec fn heap_except_down(keys: Seq<u64>, size: int, i: int) -> bool {
    &&& forall|j: int| 0 < j < size && parent(j) != i ==> keys[parent(j)] >= #[trigger] keys[j]
    &&& i > 0 ==> forall|j: int|
        0 < j < size && parent(j) == i ==> keys[parent(i)] >= #[trigger] keys[j]
}

/// In a max-heap the root key is the largest.
pub proof fn lemma_root_is_max(keys: Seq<u64>, size: int, i: int)
    requires
        is_max_heap(keys, size),
        0 <= i < size,
    ensures
        keys[0] >= keys[i],
    decreases i,
{
    if i > 0 {
        lemma_root_is_max(keys, size, parent(i));
    }
}

/// Outcome of [`Sampler::accept`].
#[derive(Clone, Copy, Debug, PartialEq, Eq, Structural)]
pub struct AcceptResult {
    /// Whether the new point is taken into the sample.
    pub accepted: bool,
    /// The previously sampled point that makes room for it, if any.
    pub evicted: Option<usize>,
}

/// Weighted reservoir sampler backed by a max-heap of sampling keys.
///
/// Each sampled point carries a key; keys order the points like their
/// reservoir weights do, and the point with the largest key is the next one
/// evicted. A point is accepted when the caller's warm-up policy admits it
/// while the sampler is below capacity, or, once full, when its key is less
/// than the current maximum.
#[derive(Clone, Debug)]
pub struct Sampler {
    capacity: usize,
    weights: Vec<u64>,
    point_indices: Vec<usize>,
    size: usize,
}

impl Sampler {
    /// The sampled (key, point index) pairs, in heap order.
    pub closed spec fn spec_entries(&self) -> Seq<(u64, usize)> {
        Seq::new(self.size as nat, |i: int| (self.weights@[i], self.point_indices@[i]))
    }

    pub closed spec fn spec_keys(&self) -> Seq<u64> {
        self.weights@
    }

    pub closed spec fn spec_size(&self) -> nat {
        self.size as nat
    }

    pub closed spec fn spec_capacity(&self) -> nat {
        self.capacity as nat
    }

    pub closed spec fn wf(&self) -> bool {
        &&& self.weights@.len() == self.capacity
        &&& self.point_indices@.len() == self.capacity
        &&& self.size <= self.capacity
        &&& is_max_heap(self.weights@, self.size as int)
    }

    /// One entry per sampled point, and never more than the capacity.
    pub proof fn lemma_entries_len(&self)
        ensures
            self.spec_entries().len() == self.spec_size(),
            self.wf() ==> self.spec_size() <= self.spec_capacity(),
    {
    }

    /// An empty sampler holding up to `capacity` points.
    pub fn new(capacity: usize) -> (s: Self)
        ensures
            s.wf(),
            s.spec_capacity() == capacity,
            s.spec_size() == 0,
            s.spec_entries() == Seq::<(u64, usize)>::empty(),
    {
        let mut weights: Vec<u64> = Vec::new();
        let mut point_indices: Vec<usize> = Vec::new();
        let mut i: usize = 0;
        while i < capacity
            invariant
                i <= capacity,
                weights@.len() == i,
                point_indices@.len() == i,
            decreases capacity - i,
        {
            weights.push(0);
            point_indices.push(usize::MAX);
            i = i + 1;
        }
        let s = Sampler { capacity, weights, point_indices, size: 0 };
        assert(s.spec_entries() =~= Seq::<(u64, usize)>::empty());
        s
    }

    /// Number of sampled points.
    pub fn size(&self) -> (n: usize)
        ensures
            n == self.spec_size(),
    {
        self.size
    }

    /// Maximum number of sampled points.
    pub fn capacity(&self) -> (n: usize)
        ensures
            n == self.spec_capacity(),
    {
        self.capacity
    }

    /// Whether the sampler has reached capacity.
    pub fn is_full(&self) -> (b: bool)
        ensures
            b == (self.spec_size() == self.spec_capacity()),
    {
        self.size == self.capacity
    }

    /// The largest key in the sample (`None` when empty).
    pub fn max_key(&self) -> (k: Option<u64>)
        requires
            self.wf(),
        ensures
            self.spec_size() == 0 ==> k is None,
            self.spec_size() > 0 ==> k == Some(self.spec_entries()[0].0) && forall|i: int|
                0 <= i < self.spec_size() ==> k->0 >= #[trigger] self.spec_entries()[i].0,
    {
        if self.size == 0 {
            None
        } else {
            proof {
                assert forall|i: int| 0 <= i < self.size implies self.weights@[0]
                    >= #[trigger] self.spec_entries()[i].0 by {
                    lemma_root_is_max(self.weights@, self.size as int, i);
                }
            }
            Some(self.weights[0])
        }
    }

    /// All point indices currently sampled, in heap order.
    pub fn points(&self) -> (p: &[usize])
        requires
            self.wf(),
        ensures
            p@.len() == self.spec_size(),
            forall|i: int| 0 <= i < p@.len() ==> p@[i] == #[trigger] self.spec_entries()[i].1,
    {
        let s = self.point_indices.as_slice();
        &s[0..self.size]
    }

    /// The key stored at heap position `i`.
    pub fn key_at(&self, i: usize) -> (k: u64)
        requires
            self.wf(),
            i < self.spec_size(),
        ensures
            k == self.spec_entries()[i as int].0,
    {
        self.weights[i]
    }

    /// Decide whether a candidate with key `key` enters the sample.
    ///
    /// Below capacity the warm-up policy decides (`is_initial`) and nothing
    /// is evicted. At capacity the candidate enters exactly when its key is
    /// smaller than the largest sampled key, evicting that point.
    pub fn accept(&self, is_initial: bool, key: u64) -> (r: AcceptResult)
        requires
            self.wf(),
            self.spec_capacity() > 0,
        ensures
            self.spec_size() < self.spec_capacity() ==> r == (AcceptResult {
                accepted: is_initial,
                evicted: None,
            }),
            self.spec_size() == self.spec_capacity() ==> {
                &&& r.accepted == (key < self.spec_entries()[0].0)
                &&& r.accepted ==> r.evicted == Some(self.spec_entries()[0].1)
                &&& !r.accepted ==> r.evicted is None
                &&& r.accepted <==> exists|i: int|
                    0 <= i < self.spec_size() && key < #[trigger] self.spec_entries()[i].0
            },
    {
        if self.size < self.capacity {
            return AcceptResult { accepted: is_initial, evicted: None };
        }
        proof {
            assert forall|i: int| 0 <= i < self.size && key < #[trigger] self.spec_entries()[i].0
                implies key < self.spec_entries()[0].0 by {
                lemma_root_is_max(self.weights@, self.size as int, i);
            }
            // the root witnesses the existential when it is outweighed
            assert(key < self.spec_entries()[0].0 ==> exists|i: int|
                0 <= i < self.spec_size() && key < #[trigger] self.spec_entries()[i].0);
        }
        if key < self.weights[0] {
            AcceptResult { accepted: true, evicted: Some(self.point_indices[0]) }
        } else {
            AcceptResult { accepted: false, evicted: None }
        }
    }

    fn swap(&mut self, a: usize, b: usize)
        requires
            a < old(self).weights@.len(),
            b < old(self).weights@.len(),
            old(self).point_indices@.len() == old(self).weights@.len(),
        ensures
            final(self).capacity == old(self).capacity,
            final(self).size == old(self).size,
            final(self).weights@ == old(self).weights@.update(a as int, old(self).weights@[b as int]).update(
                b as int,
                old(self).weights@[a as int],
            ),
            final(self).point_indices@ == old(self).point_indices@.update(
                a as int,
                old(self).point_indices@[b as int],
            ).update(b as int, old(self).point_indices@[a as int]),
    {
        let wa = self.weights[a];
        let wb = self.weights[b];
        self.weights.set(a, wb);
        self.weights.set(b, wa);
        let pa = self.point_indices[a];
        let pb = self.point_indices[b];
        self.point_indices.set(a, pb);
        self.point_indices.set(b, pa);
    }

    /// The (key, point) pairs in positions `0 .. n`.
    closed spec fn pairs(&self, n: int) -> Seq<(u64, usize)> {
        Seq::new(n as nat, |i: int| (self.weights@[i], self.point_indices@[i]))
    }

    proof fn lemma_swap_pairs(&self, old: &Self, a: int, b: int, n: int)
        requires
            0 <= a < n,
            0 <= b < n,
            n <= old.weights@.len(),
            old.point_indices@.len() == old.weights@.len(),
            self.weights@ == old.weights@.update(a, old.weights@[b]).update(b, old.weights@[a]),
            self.point_indices@ == old.point_indices@.update(a, old.point_indices@[b]).update(
                b,
                old.point_indices@[a],
            ),
        ensures
            self.pairs(n).to_multiset() == old.pairs(n).to_multiset(),
    {
        let s = old.pairs(n);
        let t1 = s.update(a, s[b]);
        let t = t1.update(b, s[a]);
        assert(self.pairs(n) =~= t);
        vstd::seq_lib::to_multiset_update(s, a, s[b]);
        vstd::seq_lib::to_multiset_update(t1, b, s[a]);
        assert(t1[b] == s[b]);
        vstd::seq_lib::to_multiset_contains(s, s[a]);
        vstd::seq_lib::to_multiset_contains(s, s[b]);
        assert(s.contains(s[a]));
        assert(s.contains(s[b]));
        assert(t.to_multiset() =~= s.to_multiset());
    }

    fn sift_up(&mut self, i0: usize)
        requires
            old(self).weights@.len() == old(self).capacity,
            old(self).point_indices@.len() == old(self).capacity,
            old(self).size <= old(self).capacity,
            i0 < old(self).size,
            heap_except_up(old(self).weights@, old(self).size as int, i0 as int),
        ensures
            final(self).wf(),
            final(self).capacity == old(self).capacity,
            final(self).size == old(self).size,
            final(self).pairs(final(self).size as int).to_multiset() == old(self).pairs(
                old(self).size as int,
            ).to_multiset(),
    {
        let mut i = i0;
        while i > 0
            invariant
                self.weights@.len() == self.capacity,
                self.point_indices@.len() == self.capacity,
                self.size <= self.capacity,
                self.capacity == old(self).capacity,
                self.size == old(self).size,
                i < self.size,
                heap_except_up(self.weights@, self.size as int, i as int),
                self.pairs(self.size as int).to_multiset() == old(self).pairs(
                    old(self).size as int,
                ).to_multiset(),
            decreases i,
        {
            let p = (i - 1) / 2;
            if self.weights[i] > self.weights[p] {
                let ghost before = *self;
                self.swap(i, p);
                proof {
                    self.lemma_swap_pairs(&before, i as int, p as int, self.size as int);
                    let w = self.weights@;
                    let w0 = before.weights@;
                    assert forall|j: int| 0 < j < self.size && j != p implies w[parent(j)]
                        >= #[trigger] w[j] by {
                        if parent(j) == i {
                            assert(w0[parent(i as int)] >= w0[j]);
                        } else if j == i {
                        } else if parent(j) == p {
                            assert(w0[p as int] >= w0[j] || j == i);
                        }
                    }
                    if p > 0 {
                        assert forall|j: int| 0 < j < self.size && parent(j) == p implies w[parent(p as int)] >= #[trigger] w[j] by {
                            assert(w0[parent(p as int)] >= w0[p as int]);
                            if j == i {
                            } else {
                                assert(w0[p as int] >= w0[j]);
                            }
                        }
                    }
                }
                i = p;
            } else {
                proof {
                    assert(is_max_heap(self.weights@, self.size as int));
                }
                return;
            }
        }
    }

    fn sift_down(&mut self, i0: usize)
        requires
            old(self).weights@.len() == old(self).capacity,
            old(self).point_indices@.len() == old(self).capacity,
            old(self).size <= old(self).capacity,
            i0 < old(self).size,
            heap_except_down(old(self).weights@, old(self).size as int, i0 as int),
        ensures
            final(self).wf(),
            final(self).capacity == old(self).capacity,
            final(self).size == old(self).size,
            final(self).pairs(final(self).size as int).to_multiset() == old(self).pairs(
                old(self).size as int,
            ).to_multiset(),
    {
        let mut i = i0;
        loop
            invariant
                self.weights@.len() == self.capacity,
                self.point_indices@.len() == self.capacity,
                self.size <= self.capacity,
                self.capacity == old(self).capacity,
                self.size == old(self).size,
                i < self.size,
                heap_except_down(self.weights@, self.size as int, i as int),
                self.pairs(self.size as int).to_multiset() == old(self).pairs(
                    old(self).size as int,
                ).to_multiset(),
            decreases self.size - i,
        {
            let left = if i < self.size / 2 {
                2 * i + 1
            } else {
                self.size
            };
            let right = if left < self.size && left + 1 < self.size {
                left + 1
            } else {
                self.size
            };
            let mut largest = i;
            if left < self.size && self.weights[left] > self.weights[largest] {
                largest = left;
            }
            if right < self.size && self.weights[right] > self.weights[largest] {
                largest = right;
            }
            if largest == i {
                proof {
                    let w = self.weights@;
                    assert forall|j: int| 0 < j < self.size implies w[parent(j)]
                        >= #[trigger] w[j] by {
                        if parent(j) == i {
                            assert(j == 2 * i + 1 || j == 2 * i + 2);
                        }
                    }
                }
                return;
            }
            let ghost before = *self;
            self.swap(i, largest);
            proof {
                self.lemma_swap_pairs(&before, i as int, largest as int, self.size as int);
                let w = self.weights@;
                let w0 = before.weights@;
                assert(largest == 2 * i + 1 || largest == 2 * i + 2);
                assert(parent(largest as int) == i);
                assert forall|j: int| 0 < j < self.size && parent(j) != largest implies w[parent(
                    j,
                )] >= #[trigger] w[j] by {
                    if j == largest {
                    } else if parent(j) == i {
                        assert(j == 2 * i + 1 || j == 2 * i + 2);
                    } else if j == i {
                        assert(w0[parent(i as int)] >= w0[largest as int]);
                    }
                }
                assert forall|j: int| 0 < j < self.size && parent(j) == largest implies w[parent(
                    largest as int,
                )] >= #[trigger] w[j] by {
                    assert(w0[parent(j)] >= w0[j]);
                }
            }
            i = largest;
        }
    }

    /// Record the accepted point `point_idx` with key `key`: appended while
    /// the sampler fills, otherwise replacing the point with the largest key.
    pub fn add_point(&mut self, point_idx: usize, key: u64)
        requires
            old(self).wf(),
            old(self).spec_capacity() > 0,
        ensures
            final(self).wf(),
            final(self).spec_capacity() == old(self).spec_capacity(),
            old(self).spec_size() < old(self).spec_capacity() ==> {
                &&& final(self).spec_size() == old(self).spec_size() + 1
                &&& final(self).spec_entries().to_multiset() == old(self).spec_entries().to_multiset().insert(
                    (key, point_idx),
                )
            },
            old(self).spec_size() == old(self).spec_capacity() ==> {
                &&& final(self).spec_size() == old(self).spec_size()
                &&& final(self).spec_entries().to_multiset() == old(self).spec_entries().to_multiset().remove(
                    old(self).spec_entries()[0],
                ).insert((key, point_idx))
            },
    {
        if self.size < self.capacity {
            let i = self.size;
            let ghost before = *self;
            self.weights.set(i, key);
            self.point_indices.set(i, point_idx);
            self.size = self.size + 1;
            proof {
                assert(self.pairs(self.size as int) =~= before.pairs(before.size as int).push(
                    (key, point_idx),
                ));
                vstd::seq_lib::to_multiset_build(before.pairs(before.size as int), (key, point_idx));
                assert(before.spec_entries() =~= before.pairs(before.size as int));
            }
            self.sift_up(i);
            proof {
                assert(self.spec_entries() =~= self.pairs(self.size as int));
            }
        } else {
            let ghost before = *self;
            self.weights.set(0, key);
            self.point_indices.set(0, point_idx);
            proof {
                let s = before.pairs(before.size as int);
                assert(self.pairs(self.size as int) =~= s.update(0, (key, point_idx)));
                assert(before.spec_entries() =~= s);
                vstd::seq_lib::to_multiset_update(s, 0, (key, point_idx));
                vstd::seq_lib::to_multiset_contains(s, s[0]);
                assert(s.contains(s[0]));
                assert(s.to_multiset().insert((key, point_idx)).remove(s[0]) =~= s.to_multiset().remove(
                    s[0],
                ).insert((key, point_idx)));
                assert(heap_except_down(self.weights@, self.size as int, 0));
            }
            self.sift_down(0);
            proof {
                assert(self.spec_entries() =~= self.pairs(self.size as int));
            }
        }
    }
}

} // verus!
