use vstd::prelude::*;

use crate::error::{RcfError, Result};
use crate::rcf::counting::{
    check_free_list, count_true, count_true_exec, free_list_exact, lemma_count_true_bound, lemma_count_true_lt_len, lemma_count_true_push_false,
    lemma_count_true_update,
};

verus! {

/// Position in the shingle buffer of the base observation that lies
/// `look_ahead` steps before the newest slot: `dim - input_dim * (1 + look_ahead)`.
pub fn lookahead_offset(dim: usize, input_dim: usize, look_ahead: usize) -> (r: usize)
    requires
        input_dim * (1 + look_ahead) <= dim,
    ensures
        r == dim - input_dim * (1 + look_ahead),
{
    proof {
        assert(input_dim * (1 + look_ahead) == input_dim + input_dim * look_ahead)
            by (nonlinear_arith);
    }
    dim - input_dim - input_dim * look_ahead
}

/// Row `i` of a row-major matrix with rows of length `dim` stored in `s`.
pub open spec fn row_of<T>(s: Seq<T>, dim: nat, i: int) -> Seq<T> {
    s.subrange(i * dim, (i + 1) * dim)
}

proof fn lemma_row_bounds(i: int, cap: int, dim: int)
    requires
        0 <= i < cap,
        0 <= dim,
    ensures
        0 <= i * dim,
        i * dim + dim == (i + 1) * dim,
        (i + 1) * dim <= cap * dim,
{
    assert(0 <= i * dim) by (nonlinear_arith)
        requires
            0 <= i,
            0 <= dim,
    ;
    assert(i * dim + dim == (i + 1) * dim) by (nonlinear_arith);
    assert((i + 1) * dim <= cap * dim) by (nonlinear_arith)
        requires
            i + 1 <= cap,
            0 <= dim,
    ;
}

proof fn lemma_rows_disjoint(i: int, j: int, dim: int)
    requires
        0 <= i < j,
        0 <= dim,
    ensures
        (i + 1) * dim <= j * dim,
{
    assert((i + 1) * dim <= j * dim) by (nonlinear_arith)
        requires
            i + 1 <= j,
            0 <= dim,
    ;
}

/// Row-indexed point storage shared by all trees of a forest.
///
/// Each occupied slot holds one `dim`-long point; trees reference slots and
/// the store counts the references, recycling a slot once nothing refers to it.
/// With internal shingling the store also keeps the rolling window of the
/// last `shingle_size` base observations.
#[derive(Clone, Debug)]
pub struct PointStore<T> {
    dim: usize,
    input_dim: usize,
    shingle_size: usize,
    internal_shingling: bool,
    store: Vec<T>,
    occupied: Vec<bool>,
    ref_count: Vec<usize>,
    next_free: usize,
    free_list: Vec<usize>,
    size: usize,
    capacity: usize,
    shingle_buf: Vec<T>,
    entries_seen: u64,
    fill: T,
}

/// Every field of a [`PointStore`], for persisting and restoring it.
#[derive(Clone, Debug)]
pub struct PointStoreParts<T> {
    pub dim: usize,
    pub input_dim: usize,
    pub shingle_size: usize,
    pub internal_shingling: bool,
    pub store: Vec<T>,
    pub occupied: Vec<bool>,
    pub ref_count: Vec<usize>,
    pub next_free: usize,
    pub free_list: Vec<usize>,
    pub size: usize,
    pub capacity: usize,
    pub shingle_buf: Vec<T>,
    pub entries_seen: u64,
    pub fill: T,
}

impl<T: Copy> PointStore<T> {
    /// The store whose fields are `p`.
    pub closed spec fn from_parts_spec(p: PointStoreParts<T>) -> Self {
        PointStore {
            dim: p.dim,
            input_dim: p.input_dim,
            shingle_size: p.shingle_size,
            internal_shingling: p.internal_shingling,
            store: p.store,
            occupied: p.occupied,
            ref_count: p.ref_count,
            next_free: p.next_free,
            free_list: p.free_list,
            size: p.size,
            capacity: p.capacity,
            shingle_buf: p.shingle_buf,
            entries_seen: p.entries_seen,
            fill: p.fill,
        }
    }

    /// `self` and `other` hold the same fields (vectors compared by content).
    pub closed spec fn same_state(&self, other: &Self) -> bool {
        &&& self.dim == other.dim
        &&& self.input_dim == other.input_dim
        &&& self.shingle_size == other.shingle_size
        &&& self.internal_shingling == other.internal_shingling
        &&& self.store@ == other.store@
        &&& self.occupied@ == other.occupied@
        &&& self.ref_count@ == other.ref_count@
        &&& self.next_free == other.next_free
        &&& self.free_list@ == other.free_list@
        &&& self.size == other.size
        &&& self.capacity == other.capacity
        &&& self.shingle_buf@ == other.shingle_buf@
        &&& self.entries_seen == other.entries_seen
        &&& self.fill == other.fill
    }

    /// A copy of every field.
    pub fn to_parts(&self) -> (p: PointStoreParts<T>)
        ensures
            Self::from_parts_spec(p).same_state(self),
    {
        PointStoreParts {
            dim: self.dim,
            input_dim: self.input_dim,
            shingle_size: self.shingle_size,
            internal_shingling: self.internal_shingling,
            store: copy_slice(self.store.as_slice()),
            occupied: copy_slice(self.occupied.as_slice()),
            ref_count: copy_slice(self.ref_count.as_slice()),
            next_free: self.next_free,
            free_list: copy_slice(self.free_list.as_slice()),
            size: self.size,
            capacity: self.capacity,
            shingle_buf: copy_slice(self.shingle_buf.as_slice()),
            entries_seen: self.entries_seen,
            fill: self.fill,
        }
    }

    /// Restoring the fields of a consistent store gives a consistent store
    /// that is indistinguishable from it: saving and loading loses nothing.
    pub proof fn lemma_parts_round_trip(&self, p: PointStoreParts<T>)
        requires
            self.wf(),
            Self::from_parts_spec(p).same_state(self),
        ensures
            ({
                let r = Self::from_parts_spec(p);
                &&& r.wf()
                &&& r.spec_dim() == self.spec_dim()
                &&& r.spec_input_dim() == self.spec_input_dim()
                &&& r.spec_shingle_size() == self.spec_shingle_size()
                &&& r.spec_internal_shingling() == self.spec_internal_shingling()
                &&& r.spec_capacity() == self.spec_capacity()
                &&& r.spec_occupied() == self.spec_occupied()
                &&& r.spec_ref_counts() == self.spec_ref_counts()
                &&& r.spec_shingle() == self.spec_shingle()
                &&& r.spec_size() == self.spec_size()
                &&& r.spec_entries_seen() == self.spec_entries_seen()
                &&& r.spec_next_free() == self.spec_next_free()
                &&& r.spec_free_list() == self.spec_free_list()
                &&& forall|i: int| #[trigger] r.spec_point(i) == self.spec_point(i)
            }),
    {
    }

    /// Rebuild a store from persisted fields; `None` unless they are
    /// internally consistent.
    pub fn from_parts(p: PointStoreParts<T>) -> (r: Option<Self>)
        ensures
            r is Some <==> Self::from_parts_spec(p).wf(),
            r matches Some(s) ==> s == Self::from_parts_spec(p),
    {
        match p.input_dim.checked_mul(p.shingle_size) {
            Some(d) => {
                if d != p.dim {
                    return None;
                }
            },
            None => {
                return None;
            },
        }
        match p.capacity.checked_mul(p.dim) {
            Some(n) => {
                if n != p.store.len() {
                    return None;
                }
            },
            None => {
                let _ = p.store.len();
                return None;
            },
        }
        if p.occupied.len() != p.capacity || p.ref_count.len() != p.capacity
            || p.shingle_buf.len() != p.dim || p.next_free > p.capacity {
            return None;
        }
        if count_true_exec(p.occupied.as_slice()) != p.size {
            return None;
        }
        let mut is_free: Vec<bool> = Vec::new();
        let mut i: usize = 0;
        while i < p.capacity
            invariant
                p.occupied@.len() == p.capacity,
                p.next_free <= p.capacity,
                i <= p.capacity,
                is_free@.len() == i,
                forall|x: int| 0 <= x < i ==> #[trigger] is_free@[x] == !p.occupied@[x],
                forall|x: int| p.next_free <= x < i ==> !#[trigger] p.occupied@[x],
            decreases p.capacity - i,
        {
            if i >= p.next_free && p.occupied[i] {
                proof {
                    let s = Self::from_parts_spec(p);
                    assert(s.occupied@[i as int]);
                    assert(!s.wf());
                }
                return None;
            }
            is_free.push(!p.occupied[i]);
            i = i + 1;
        }
        proof {
            lemma_free_list_equiv(p.free_list@, p.next_free as int, p.occupied@, is_free@);
        }
        if !check_free_list(p.free_list.as_slice(), p.next_free, is_free.as_slice()) {
            proof {
                let s = Self::from_parts_spec(p);
                assert(s.free_list@ == p.free_list@ && s.occupied@ == p.occupied@);
                assert(s.next_free == p.next_free);
            }
            return None;
        }
        let s = PointStore {
            dim: p.dim,
            input_dim: p.input_dim,
            shingle_size: p.shingle_size,
            internal_shingling: p.internal_shingling,
            store: p.store,
            occupied: p.occupied,
            ref_count: p.ref_count,
            next_free: p.next_free,
            free_list: p.free_list,
            size: p.size,
            capacity: p.capacity,
            shingle_buf: p.shingle_buf,
            entries_seen: p.entries_seen,
            fill: p.fill,
        };
        Some(s)
    }

    /// Full dimensionality: `input_dim * shingle_size`.
    pub closed spec fn spec_dim(&self) -> nat {
        self.dim as nat
    }

    pub closed spec fn spec_input_dim(&self) -> nat {
        self.input_dim as nat
    }

    pub closed spec fn spec_shingle_size(&self) -> nat {
        self.shingle_size as nat
    }

    pub closed spec fn spec_internal_shingling(&self) -> bool {
        self.internal_shingling
    }

    /// Number of slots currently allocated.
    pub closed spec fn spec_capacity(&self) -> nat {
        self.capacity as nat
    }

    /// Which slots hold a live point.
    pub closed spec fn spec_occupied(&self) -> Seq<bool> {
        self.occupied@
    }

    /// Number of tree references held on each slot.
    pub closed spec fn spec_ref_counts(&self) -> Seq<usize> {
        self.ref_count@
    }

    /// The point stored in slot `i`.
    pub closed spec fn spec_point(&self, i: int) -> Seq<T> {
        row_of(self.store@, self.dim as nat, i)
    }

    /// The rolling shingle buffer.
    pub closed spec fn spec_shingle(&self) -> Seq<T> {
        self.shingle_buf@
    }

    /// Number of occupied slots.
    pub closed spec fn spec_size(&self) -> nat {
        self.size as nat
    }

    /// Number of observations added so far (stored or not).
    pub closed spec fn spec_entries_seen(&self) -> nat {
        self.entries_seen as nat
    }

    /// The next never-used slot and the recycled slots, in the order they
    /// will be handed out (last first).
    pub closed spec fn spec_next_free(&self) -> nat {
        self.next_free as nat
    }

    pub closed spec fn spec_free_list(&self) -> Seq<usize> {
        self.free_list@
    }

    /// Internal consistency: the layout sizes agree, `size` counts the
    /// occupied slots, and the recycled slots are exactly the free slots
    /// below `next_free`, each listed once.
    pub closed spec fn wf(&self) -> bool {
        &&& self.dim == self.input_dim * self.shingle_size
        &&& self.store@.len() == self.capacity * self.dim
        &&& self.occupied@.len() == self.capacity
        &&& self.ref_count@.len() == self.capacity
        &&& self.shingle_buf@.len() == self.dim
        &&& self.next_free <= self.capacity
        &&& self.size == count_true(self.occupied@)
        &&& forall|i: int| self.next_free <= i < self.capacity ==> !self.occupied@[i]
        &&& forall|j: int|
            0 <= j < self.free_list@.len() ==> {
                &&& #[trigger] self.free_list@[j] < self.next_free
                &&& !self.occupied@[self.free_list@[j] as int]
            }
        &&& forall|j: int, k: int|
            0 <= j < k < self.free_list@.len() ==> self.free_list@[j] != self.free_list@[k]
        &&& forall|i: int|
            0 <= i < self.next_free && !#[trigger] self.occupied@[i] ==> self.free_list@.contains(
                i as usize,
            )
    }

    /// A slot can be handed out without growing the store, or the store can
    /// grow by `2 * capacity + 4` slots without overflowing `usize`.
    pub open spec fn can_allocate(&self) -> bool {
        ||| self.spec_free_list().len() > 0
        ||| self.spec_next_free() < self.spec_capacity()
        ||| (self.spec_capacity() * 2 + 4 <= usize::MAX && (self.spec_capacity() * 2 + 4)
            * self.spec_dim() <= usize::MAX)
    }

    /// Create an empty store for `input_dim * shingle_size`-dimensional
    /// points with `capacity` slots; every stored value and the shingle
    /// buffer start as `fill`.
    pub fn new(input_dim: usize, shingle_size: usize, capacity: usize, internal_shingling: bool, fill: T) -> (s: Self)
        requires
            input_dim * shingle_size <= usize::MAX,
            capacity * (input_dim * shingle_size) <= usize::MAX,
        ensures
            s.wf(),
            s.spec_dim() == input_dim * shingle_size,
            s.spec_input_dim() == input_dim,
            s.spec_shingle_size() == shingle_size,
            s.spec_internal_shingling() == internal_shingling,
            s.spec_capacity() == capacity,
            s.spec_size() == 0,
            s.spec_entries_seen() == 0,
            s.spec_occupied() == Seq::new(capacity as nat, |i: int| false),
            s.spec_ref_counts() == Seq::new(capacity as nat, |i: int| 0usize),
            s.spec_shingle() == Seq::new((input_dim * shingle_size) as nat, |i: int| fill),
            s.spec_next_free() == 0,
            s.spec_free_list() == Seq::<usize>::empty(),
    {
        let dim = input_dim * shingle_size;
        let total = capacity * dim;
        let store = filled(total, fill);
        let shingle_buf = filled(dim, fill);
        let occupied = filled(capacity, false);
        let ref_count = filled(capacity, 0usize);
        let s = PointStore {
            dim,
            input_dim,
            shingle_size,
            internal_shingling,
            store,
            occupied,
            ref_count,
            next_free: 0,
            free_list: Vec::new(),
            size: 0,
            capacity,
            shingle_buf,
            entries_seen: 0,
            fill,
        };
        proof {
            lemma_count_all_false(capacity as nat);
        }
        s
    }

    /// Full dimensionality of stored points.
    pub fn dim(&self) -> (d: usize)
        ensures
            d == self.spec_dim(),
    {
        self.dim
    }

    /// Base dimensionality of one observation.
    pub fn input_dim(&self) -> (d: usize)
        ensures
            d == self.spec_input_dim(),
    {
        self.input_dim
    }

    /// Number of points currently retained.
    pub fn num_points(&self) -> (n: usize)
        ensures
            n == self.spec_size(),
    {
        self.size
    }

    /// Number of observations added so far.
    pub fn entries_seen(&self) -> (n: u64)
        ensures
            n == self.spec_entries_seen(),
    {
        self.entries_seen
    }

    /// Number of slots currently allocated.
    pub fn capacity(&self) -> (n: usize)
        ensures
            n == self.spec_capacity(),
    {
        self.capacity
    }

    /// Whether slot `idx` holds a live point.
    pub fn is_occupied(&self, idx: usize) -> (b: bool)
        requires
            self.wf(),
            idx < self.spec_capacity(),
        ensures
            b == self.spec_occupied()[idx as int],
    {
        self.occupied[idx]
    }

    /// Number of tree references held on slot `idx`.
    pub fn ref_count(&self, idx: usize) -> (n: usize)
        requires
            self.wf(),
            idx < self.spec_capacity(),
        ensures
            n == self.spec_ref_counts()[idx as int],
    {
        self.ref_count[idx]
    }

    /// Shift the shingle buffer left by one base observation and append
    /// `base` at the end. Fails with `DimensionMismatch` (and leaves the store
    /// unchanged) unless `base` has `input_dim` values.
    pub fn advance_shingle(&mut self, base: &[T]) -> (r: Result<()>)
        requires
            old(self).wf(),
            old(self).spec_input_dim() <= old(self).spec_dim(),
        ensures
            final(self).wf(),
            base@.len() == old(self).spec_input_dim() ==> {
                &&& r is Ok
                &&& final(self).spec_shingle() == old(self).spec_shingle().subrange(
                    old(self).spec_input_dim() as int,
                    old(self).spec_dim() as int,
                ) + base@
            },
            base@.len() != old(self).spec_input_dim() ==> {
                &&& r matches Err(e) && e matches RcfError::DimensionMismatch { expected, got }
                    && expected == old(self).spec_input_dim() && got == base@.len()
                &&& final(self).spec_shingle() == old(self).spec_shingle()
            },
            final(self).spec_points_unchanged(old(self)),
            final(self).spec_entries_seen() == old(self).spec_entries_seen(),
    {
        if base.len() != self.input_dim {
            return Err(RcfError::DimensionMismatch { expected: self.input_dim, got: base.len() });
        }
        let ghost old_buf = self.shingle_buf@;
        let dim = self.dim;
        let input_dim = self.input_dim;
        let mut buf: Vec<T> = Vec::new();
        let mut k: usize = input_dim;
        while k < dim
            invariant
                input_dim <= k <= dim,
                old_buf.len() == dim,
                self.shingle_buf@ == old_buf,
                buf@ == old_buf.subrange(input_dim as int, k as int),
            decreases dim - k,
        {
            buf.push(self.shingle_buf[k]);
            k = k + 1;
            assert(buf@ =~= old_buf.subrange(input_dim as int, k as int));
        }
        let mut m: usize = 0;
        while m < input_dim
            invariant
                m <= input_dim,
                base@.len() == input_dim,
                buf@ == old_buf.subrange(input_dim as int, dim as int) + base@.subrange(0, m as int),
            decreases input_dim - m,
        {
            buf.push(base[m]);
            m = m + 1;
            assert(buf@ =~= old_buf.subrange(input_dim as int, dim as int) + base@.subrange(0, m as int));
        }
        assert(base@.subrange(0, input_dim as int) =~= base@);
        self.shingle_buf = buf;
        Ok(())
    }

    /// The stored points, occupancy, reference counts and allocation state
    /// of `self` and `other` agree.
    /// `self` keeps the layout, the points, the shingle and the counters of
    /// `other`; only reference bookkeeping may differ.
    pub open spec fn spec_same_points(&self, other: &Self) -> bool {
        &&& self.spec_capacity() == other.spec_capacity()
        &&& self.spec_dim() == other.spec_dim()
        &&& self.spec_input_dim() == other.spec_input_dim()
        &&& self.spec_shingle_size() == other.spec_shingle_size()
        &&& self.spec_internal_shingling() == other.spec_internal_shingling()
        &&& self.spec_entries_seen() == other.spec_entries_seen()
        &&& self.spec_shingle() == other.spec_shingle()
        &&& self.spec_next_free() == other.spec_next_free()
        &&& forall|i: int| #[trigger] self.spec_point(i) == other.spec_point(i)
    }

    pub closed spec fn spec_points_unchanged(&self, other: &Self) -> bool {
        &&& self.dim == other.dim
        &&& self.input_dim == other.input_dim
        &&& self.shingle_size == other.shingle_size
        &&& self.internal_shingling == other.internal_shingling
        &&& self.store == other.store
        &&& self.occupied == other.occupied
        &&& self.ref_count == other.ref_count
        &&& self.next_free == other.next_free
        &&& self.free_list == other.free_list
        &&& self.size == other.size
        &&& self.capacity == other.capacity
    }

    /// A consistent store has one occupancy flag and one reference count per
    /// slot, and `size` occupied slots.
    pub proof fn lemma_wf_lens(&self)
        requires
            self.wf(),
        ensures
            self.spec_ref_counts().len() == self.spec_capacity(),
            self.spec_occupied().len() == self.spec_capacity(),
            self.spec_size() == count_true(self.spec_occupied()),
            self.spec_shingle().len() == self.spec_dim(),
            self.spec_dim() == self.spec_input_dim() * self.spec_shingle_size(),
    {
    }

    /// A store whose points are unchanged has the same slots, occupancy,
    /// reference counts and layout.
    pub proof fn lemma_points_unchanged(&self, other: &Self)
        requires
            self.spec_points_unchanged(other),
        ensures
            self.spec_ref_counts() == other.spec_ref_counts(),
            self.spec_occupied() == other.spec_occupied(),
            self.spec_capacity() == other.spec_capacity(),
            self.spec_size() == other.spec_size(),
            self.spec_dim() == other.spec_dim(),
            self.spec_input_dim() == other.spec_input_dim(),
            self.spec_internal_shingling() == other.spec_internal_shingling(),
            forall|i: int| #[trigger] self.spec_point(i) == other.spec_point(i),
    {
    }

    /// Peek at the current shingled point without advancing the buffer.
    pub fn current_shingled(&self) -> (r: &[T])
        ensures
            r@ == self.spec_shingle(),
    {
        self.shingle_buf.as_slice()
    }

    /// Check that `point` has the full dimensionality.
    pub fn validate_full_point(&self, point: &[T]) -> (r: Result<()>)
        ensures
            r is Ok <==> point@.len() == self.spec_dim(),
            r matches Err(e) ==> e matches RcfError::DimensionMismatch { expected, got }
                && expected == self.spec_dim() && got == point@.len(),
    {
        if point.len() != self.dim {
            return Err(RcfError::DimensionMismatch { expected: self.dim, got: point.len() });
        }
        Ok(())
    }

    /// Build the full-dimensional point for `base`.
    ///
    /// With internal shingling, `base` is one observation of `input_dim`
    /// values: the buffer is advanced and a copy returned. Otherwise `base`
    /// must already have `dim` values and is returned as a copy.
    pub fn shingled_point(&mut self, base: &[T]) -> (r: Result<Vec<T>>)
        requires
            old(self).wf(),
            old(self).spec_input_dim() <= old(self).spec_dim(),
        ensures
            final(self).wf(),
            final(self).spec_points_unchanged(old(self)),
            old(self).spec_internal_shingling() ==> {
                &&& r is Ok <==> base@.len() == old(self).spec_input_dim()
                &&& r matches Ok(v) ==> v@ == final(self).spec_shingle() && v@
                    == old(self).spec_shingle().subrange(
                    old(self).spec_input_dim() as int,
                    old(self).spec_dim() as int,
                ) + base@
                &&& r is Err ==> final(self).spec_shingle() == old(self).spec_shingle()
            },
            !old(self).spec_internal_shingling() ==> {
                &&& r is Ok <==> base@.len() == old(self).spec_dim()
                &&& r matches Ok(v) ==> v@ == base@
                &&& final(self).spec_shingle() == old(self).spec_shingle()
            },
            r matches Err(e) ==> e is DimensionMismatch,
    {
        if self.internal_shingling {
            self.advance_shingle(base)?;
            Ok(copy_slice(self.shingle_buf.as_slice()))
        } else {
            self.validate_full_point(base)?;
            Ok(copy_slice(base))
        }
    }

    /// Whether a slot can be handed out; fails with `Overflow` when the
    /// store is full and growing it would overflow `usize`.
    pub fn ensure_can_allocate_slot(&self) -> (r: Result<()>)
        requires
            self.wf(),
        ensures
            r is Ok <==> self.can_allocate(),
            r matches Err(e) ==> e is Overflow,
    {
        if self.free_list.len() > 0 || self.next_free < self.capacity {
            return Ok(());
        }
        match grown_capacity(self.capacity, self.dim) {
            Some(_) => Ok(()),
            None => Err(RcfError::overflow("point store capacity overflows usize")),
        }
    }

    /// Hand out a free slot: the most recently recycled one, else the next
    /// never-used one, else grow the store to `2 * capacity + 4` slots.
    fn allocate_slot(&mut self) -> (r: Result<usize>)
        requires
            old(self).wf(),
        ensures
            r is Ok <==> old(self).can_allocate(),
            r matches Err(e) ==> e is Overflow && *final(self) == *old(self),
            r matches Ok(idx) ==> {
                &&& idx < final(self).spec_capacity()
                &&& idx >= old(self).spec_capacity() || !old(self).spec_occupied()[idx as int]
                &&& final(self).spec_slots_extend(old(self))
                &&& final(self).slot_ready(idx)
            },
    {
        if self.free_list.len() > 0 {
            let idx = self.free_list.pop().unwrap();
            proof {
                let fl = old(self).free_list@;
                assert(fl[fl.len() - 1] == idx);
                assert forall|i: int|
                    0 <= i < self.next_free && !#[trigger] self.occupied@[i] && i != idx
                        implies self.free_list@.contains(i as usize) by {
                    assert(fl.contains(i as usize));
                    let j = choose|j: int| 0 <= j < fl.len() && fl[j] == i as usize;
                    assert(j != fl.len() - 1);
                    assert(self.free_list@[j] == i as usize);
                }
                assert forall|j: int| 0 <= j < self.free_list@.len() implies self.free_list@[j]
                    != idx by {
                    assert(fl[j] != fl[fl.len() - 1]);
                }
            }
            return Ok(idx);
        }
        if self.next_free < self.capacity {
            let idx = self.next_free;
            self.next_free = self.next_free + 1;
            return Ok(idx);
        }
        let new_cap = match grown_capacity(self.capacity, self.dim) {
            Some(c) => c,
            None => {
                return Err(RcfError::overflow("point store capacity overflows usize"));
            },
        };
        proof {
            assert(self.capacity * self.dim <= new_cap * self.dim) by (nonlinear_arith)
                requires
                    self.capacity <= new_cap,
            ;
        }
        let extra = new_cap * self.dim - self.capacity * self.dim;
        let fill = self.fill;
        let ghost old_store = self.store@;
        push_copies(&mut self.store, extra, fill);
        assert(self.store@.subrange(0, old_store.len() as int) =~= old_store);
        let ghost old_occ = self.occupied@;
        push_false(&mut self.occupied, new_cap - self.capacity);
        let ghost old_refs = self.ref_count@;
        push_copies(&mut self.ref_count, new_cap - self.capacity, 0usize);
        proof {
            assert(self.occupied@.subrange(0, old_occ.len() as int) =~= old_occ);
            assert(self.ref_count@.subrange(0, old_refs.len() as int) =~= old_refs);
            lemma_count_true_extend_false(old_occ, self.occupied@);
        }
        let idx = self.next_free;
        self.next_free = self.next_free + 1;
        self.capacity = new_cap;
        proof {
            assert forall|i: int| 0 <= i < old(self).capacity implies #[trigger] row_of(
                self.store@,
                self.dim as nat,
                i,
            ) == row_of(old(self).store@, self.dim as nat, i) by {
                lemma_row_bounds(i, old(self).capacity as int, self.dim as int);
                assert(row_of(self.store@, self.dim as nat, i) =~= row_of(
                    old(self).store@,
                    self.dim as nat,
                    i,
                ));
            }
        }
        Ok(idx)
    }

    /// `self` extends `old` with free slots: every slot of `old` keeps its
    /// point, occupancy and reference count.
    pub closed spec fn spec_slots_extend(&self, old: &Self) -> bool {
        &&& self.dim == old.dim
        &&& self.input_dim == old.input_dim
        &&& self.shingle_size == old.shingle_size
        &&& self.internal_shingling == old.internal_shingling
        &&& self.shingle_buf == old.shingle_buf
        &&& self.entries_seen == old.entries_seen
        &&& self.size == old.size
        &&& self.capacity >= old.capacity
        &&& self.fill == old.fill
        &&& forall|i: int|
            0 <= i < old.capacity ==> {
                &&& #[trigger] self.occupied@[i] == old.occupied@[i]
                &&& self.ref_count@[i] == old.ref_count@[i]
                &&& row_of(self.store@, self.dim as nat, i) == row_of(old.store@, old.dim as nat, i)
            }
        &&& forall|i: int| old.capacity <= i < self.capacity ==> !#[trigger] self.occupied@[i]
        &&& forall|i: int| old.capacity <= i < self.capacity ==> #[trigger] self.ref_count@[i] == 0
    }

    /// Slot `idx` was taken out of the free structures and can be filled:
    /// it is neither occupied nor recycled and lies below `next_free`.
    closed spec fn slot_ready(&self, idx: usize) -> bool {
        &&& idx < self.next_free
        &&& !self.occupied@[idx as int]
        &&& !self.free_list@.contains(idx)
        &&& self.store@.len() == self.capacity * self.dim
        &&& self.occupied@.len() == self.capacity
        &&& self.ref_count@.len() == self.capacity
        &&& self.shingle_buf@.len() == self.dim
        &&& self.dim == self.input_dim * self.shingle_size
        &&& self.next_free <= self.capacity
        &&& self.size == count_true(self.occupied@)
        &&& forall|i: int| self.next_free <= i < self.capacity ==> !self.occupied@[i]
        &&& forall|j: int|
            0 <= j < self.free_list@.len() ==> {
                &&& #[trigger] self.free_list@[j] < self.next_free
                &&& !self.occupied@[self.free_list@[j] as int]
            }
        &&& forall|j: int, k: int|
            0 <= j < k < self.free_list@.len() ==> self.free_list@[j] != self.free_list@[k]
        &&& forall|i: int|
            0 <= i < self.next_free && !#[trigger] self.occupied@[i] && i != idx
                ==> self.free_list@.contains(i as usize)
    }

    /// Copy `point` into the ready slot `idx` and mark it occupied with no
    /// references.
    fn write_slot(&mut self, idx: usize, point: &[T])
        requires
            old(self).slot_ready(idx),
            point@.len() == old(self).spec_dim(),
            old(self).entries_seen < u64::MAX,
        ensures
            final(self).wf(),
            final(self).spec_point(idx as int) == point@,
            final(self).spec_occupied() == old(self).spec_occupied().update(idx as int, true),
            final(self).spec_ref_counts() == old(self).spec_ref_counts().update(idx as int, 0),
            final(self).spec_size() == old(self).spec_size() + 1,
            final(self).spec_entries_seen() == old(self).spec_entries_seen() + 1,
            final(self).spec_capacity() == old(self).spec_capacity(),
            final(self).spec_shingle() == old(self).spec_shingle(),
            final(self).spec_dim() == old(self).spec_dim(),
            final(self).spec_input_dim() == old(self).spec_input_dim(),
            final(self).spec_internal_shingling() == old(self).spec_internal_shingling(),
            final(self).spec_shingle_size() == old(self).spec_shingle_size(),
            forall|i: int|
                0 <= i < old(self).spec_capacity() && i != idx ==> #[trigger] final(self).spec_point(
                    i,
                ) == old(self).spec_point(i),
    {
        let dim = self.dim;
        let ghost cap = self.capacity as int;
        let _ = self.store.len();
        proof {
            lemma_row_bounds(idx as int, cap, dim as int);
        }
        let base = idx * dim;
        let ghost old_store = self.store@;
        write_row(&mut self.store, base, point);
        proof {
            assert(row_of(self.store@, dim as nat, idx as int) =~= point@);
            assert forall|i: int| 0 <= i < cap && i != idx implies #[trigger] row_of(
                self.store@,
                dim as nat,
                i,
            ) == row_of(old_store, dim as nat, i) by {
                lemma_row_bounds(i, cap, dim as int);
                if i < idx {
                    lemma_rows_disjoint(i, idx as int, dim as int);
                } else {
                    lemma_rows_disjoint(idx as int, i, dim as int);
                }
                assert(row_of(self.store@, dim as nat, i) =~= row_of(old_store, dim as nat, i));
            }
            lemma_count_true_update(self.occupied@, idx as int, true);
            lemma_count_true_bound(self.occupied@.update(idx as int, true));
        }
        self.occupied.set(idx, true);
        self.ref_count.set(idx, 0);
        self.size = self.size + 1;
        self.entries_seen = self.entries_seen + 1;
    }

    /// Store `point` (which must have `dim` values) and return its slot.
    /// The reference count starts at 0: each tree that keeps the point adds
    /// one with [`Self::inc_ref`].
    pub fn add_validated(&mut self, point: &[T]) -> (r: Result<usize>)
        requires
            old(self).wf(),
            point@.len() == old(self).spec_dim(),
            old(self).spec_entries_seen() < u64::MAX,
        ensures
            final(self).wf(),
            r is Ok <==> old(self).can_allocate(),
            r matches Err(e) ==> e is Overflow && *final(self) == *old(self),
            r matches Ok(idx) ==> final(self).spec_added(old(self), idx, point@),
    {
        let idx = self.allocate_slot()?;
        let ghost mid = *self;
        self.write_slot(idx, point);
        proof {
            self.lemma_added_after_write(old(self), &mid, idx, point@);
        }
        Ok(idx)
    }

    /// `self` is `old` with `point` stored in the previously free slot `idx`.
    pub open spec fn spec_added(&self, old: &Self, idx: usize, point: Seq<T>) -> bool {
        &&& idx < self.spec_capacity()
        &&& (idx >= old.spec_capacity() || !old.spec_occupied()[idx as int])
        &&& self.spec_point(idx as int) == point
        &&& self.spec_occupied()[idx as int]
        &&& self.spec_ref_counts()[idx as int] == 0
        &&& self.spec_size() == old.spec_size() + 1
        &&& self.spec_entries_seen() == old.spec_entries_seen() + 1
        &&& self.spec_capacity() >= old.spec_capacity()
        &&& self.spec_shingle() == old.spec_shingle()
        &&& self.spec_dim() == old.spec_dim()
        &&& self.spec_input_dim() == old.spec_input_dim()
        &&& self.spec_shingle_size() == old.spec_shingle_size()
        &&& self.spec_internal_shingling() == old.spec_internal_shingling()
        &&& forall|i: int|
            0 <= i < old.spec_capacity() && i != idx ==> {
                &&& #[trigger] self.spec_occupied()[i] == old.spec_occupied()[i]
                &&& self.spec_ref_counts()[i] == old.spec_ref_counts()[i]
                &&& self.spec_point(i) == old.spec_point(i)
            }
        &&& forall|i: int|
            old.spec_capacity() <= i < self.spec_capacity() && i != idx
                ==> !#[trigger] self.spec_occupied()[i]
        &&& forall|i: int|
            old.spec_capacity() <= i < self.spec_capacity() ==> #[trigger] self.spec_ref_counts()[i]
                == 0
    }

    proof fn lemma_added_after_write(&self, old: &Self, mid: &Self, idx: usize, point: Seq<T>)
        requires
            old.wf(),
            mid.spec_occupied().len() == mid.spec_capacity(),
            mid.spec_ref_counts().len() == mid.spec_capacity(),
            idx < mid.spec_capacity(),
            idx >= old.spec_capacity() || !old.spec_occupied()[idx as int],
            mid.spec_slots_extend(old),
            self.spec_point(idx as int) == point,
            self.spec_occupied() == mid.spec_occupied().update(idx as int, true),
            self.spec_ref_counts() == mid.spec_ref_counts().update(idx as int, 0),
            self.spec_size() == mid.spec_size() + 1,
            self.spec_entries_seen() == mid.spec_entries_seen() + 1,
            self.spec_capacity() == mid.spec_capacity(),
            self.spec_shingle() == mid.spec_shingle(),
            self.spec_dim() == mid.spec_dim(),
            self.spec_input_dim() == mid.spec_input_dim(),
            self.spec_internal_shingling() == mid.spec_internal_shingling(),
            self.spec_shingle_size() == mid.spec_shingle_size(),
            forall|i: int|
                0 <= i < mid.spec_capacity() && i != idx ==> #[trigger] self.spec_point(i)
                    == mid.spec_point(i),
        ensures
            self.spec_added(old, idx, point),
    {
        assert forall|i: int| 0 <= i < old.spec_capacity() && i != idx implies {
            &&& #[trigger] self.spec_occupied()[i] == old.spec_occupied()[i]
            &&& self.spec_ref_counts()[i] == old.spec_ref_counts()[i]
            &&& self.spec_point(i) == old.spec_point(i)
        } by {
            assert(mid.occupied@[i] == old.occupied@[i]);
            assert(self.spec_point(i) == mid.spec_point(i));
        }
        assert forall|i: int| old.spec_capacity() <= i < self.spec_capacity() && i != idx
            implies !#[trigger] self.spec_occupied()[i] by {
            assert(!mid.occupied@[i]);
        }
    }

    /// Store `point` and return its slot; fails with `DimensionMismatch`
    /// unless it has `dim` values.
    pub fn add(&mut self, point: &[T]) -> (r: Result<usize>)
        requires
            old(self).wf(),
            old(self).spec_entries_seen() < u64::MAX,
        ensures
            final(self).wf(),
            r is Ok <==> point@.len() == old(self).spec_dim() && old(self).can_allocate(),
            r is Err ==> *final(self) == *old(self),
            point@.len() != old(self).spec_dim() ==> (r matches Err(e) && e is DimensionMismatch),
            r matches Ok(idx) ==> final(self).spec_added(old(self), idx, point@),
    {
        self.validate_full_point(point)?;
        self.add_validated(point)
    }

    /// Store a copy of the current shingle buffer and return its slot.
    pub fn add_current_shingled(&mut self) -> (r: Result<usize>)
        requires
            old(self).wf(),
            old(self).spec_entries_seen() < u64::MAX,
        ensures
            final(self).wf(),
            r is Ok <==> old(self).can_allocate(),
            r matches Err(e) ==> e is Overflow && *final(self) == *old(self),
            r matches Ok(idx) ==> final(self).spec_added(old(self), idx, old(self).spec_shingle()),
    {
        let idx = self.allocate_slot()?;
        let buf = copy_slice(self.shingle_buf.as_slice());
        let ghost mid = *self;
        self.write_slot(idx, buf.as_slice());
        proof {
            self.lemma_added_after_write(old(self), &mid, idx, buf@);
        }
        Ok(idx)
    }

    /// Count an observation that was not stored (no tree accepted it).
    pub fn record_logical_add_without_storage(&mut self)
        requires
            old(self).wf(),
            old(self).spec_entries_seen() < u64::MAX,
        ensures
            final(self).wf(),
            final(self).spec_entries_seen() == old(self).spec_entries_seen() + 1,
            final(self).spec_points_unchanged(old(self)),
            final(self).spec_shingle() == old(self).spec_shingle(),
    {
        self.entries_seen = self.entries_seen + 1;
    }

    /// Add one tree reference to slot `idx`.
    pub fn inc_ref(&mut self, idx: usize)
        requires
            old(self).wf(),
            idx < old(self).spec_capacity(),
            old(self).spec_ref_counts()[idx as int] < usize::MAX,
        ensures
            final(self).wf(),
            final(self).spec_ref_counts() == old(self).spec_ref_counts().update(
                idx as int,
                (old(self).spec_ref_counts()[idx as int] + 1) as usize,
            ),
            final(self).spec_occupied() == old(self).spec_occupied(),
            final(self).spec_size() == old(self).spec_size(),
            final(self).spec_free_list() == old(self).spec_free_list(),
            final(self).spec_same_points(&*old(self)),
    {
        let c = self.ref_count[idx];
        self.ref_count.set(idx, c + 1);
    }

    /// Drop one tree reference from slot `idx` (a count already at 0 stays
    /// 0); once the count is 0 an occupied slot is freed and recycled.
    pub fn dec_ref(&mut self, idx: usize)
        requires
            old(self).wf(),
            idx < old(self).spec_capacity(),
        ensures
            final(self).wf(),
            ({
                let c = old(self).spec_ref_counts()[idx as int];
                let c2: usize = if c > 0 { (c - 1) as usize } else { 0 };
                let freed = c2 == 0 && old(self).spec_occupied()[idx as int];
                &&& final(self).spec_ref_counts() == old(self).spec_ref_counts().update(idx as int, c2)
                &&& final(self).spec_occupied() == old(self).spec_occupied().update(
                    idx as int,
                    old(self).spec_occupied()[idx as int] && !freed,
                )
                &&& final(self).spec_size() == if freed {
                    old(self).spec_size() - 1
                } else {
                    old(self).spec_size() as int
                }
                &&& final(self).spec_free_list() == if freed {
                    old(self).spec_free_list().push(idx)
                } else {
                    old(self).spec_free_list()
                }
            }),
            final(self).spec_same_points(&*old(self)),
    {
        if self.ref_count[idx] > 0 {
            let c = self.ref_count[idx];
            self.ref_count.set(idx, c - 1);
        }
        if self.ref_count[idx] == 0 && self.occupied[idx] {
            proof {
                lemma_count_true_update(self.occupied@, idx as int, false);
                assert(!self.free_list@.contains(idx)) by {
                    if self.free_list@.contains(idx) {
                        let j = choose|j: int|
                            0 <= j < self.free_list@.len() && self.free_list@[j] == idx;
                        assert(!self.occupied@[self.free_list@[j] as int]);
                    }
                }
            }
            self.occupied.set(idx, false);
            self.size = self.size - 1;
            let ghost fl = self.free_list@;
            self.free_list.push(idx);
            proof {
                assert forall|i: int|
                    0 <= i < self.next_free && !#[trigger] self.occupied@[i] implies self.free_list@.contains(
                    i as usize,
                ) by {
                    if i != idx {
                        assert(fl.contains(i as usize));
                        let j = choose|j: int| 0 <= j < fl.len() && fl[j] == i as usize;
                        assert(self.free_list@[j] == i as usize);
                    } else {
                        assert(self.free_list@[fl.len() as int] == idx);
                    }
                }
            }
        }
    }

    /// The point stored in slot `idx`.
    pub fn get(&self, idx: usize) -> (r: &[T])
        requires
            self.wf(),
            idx < self.spec_capacity(),
        ensures
            r@ == self.spec_point(idx as int),
    {
        let _ = self.store.len();
        proof {
            lemma_row_bounds(idx as int, self.capacity as int, self.dim as int);
        }
        let start = idx * self.dim;
        let end = start + self.dim;
        let s = self.store.as_slice();
        &s[start..end]
    }

    /// A copy of the point stored in slot `idx`.
    pub fn copy_point(&self, idx: usize) -> (r: Vec<T>)
        requires
            self.wf(),
            idx < self.spec_capacity(),
        ensures
            r@ == self.spec_point(idx as int),
    {
        copy_slice(self.get(idx))
    }

    /// Positions in the shingle buffer that the base observation `look_ahead`
    /// steps before the newest slot occupies:
    /// `offset .. offset + input_dim` with `offset = lookahead_offset(..)`.
    pub fn next_indices(&self, look_ahead: usize) -> (r: Vec<usize>)
        requires
            self.wf(),
            self.spec_input_dim() * (1 + look_ahead) <= self.spec_dim(),
        ensures
            r@.len() == self.spec_input_dim(),
            forall|i: int|
                0 <= i < r@.len() ==> #[trigger] r@[i] == self.spec_dim() - self.spec_input_dim() * (1
                    + look_ahead) + i,
    {
        let mut v = Vec::new();
        self.next_indices_into(look_ahead, &mut v);
        v
    }

    /// Like [`Self::next_indices`], writing into `indices` (cleared first).
    pub fn next_indices_into(&self, look_ahead: usize, indices: &mut Vec<usize>)
        requires
            self.wf(),
            self.spec_input_dim() * (1 + look_ahead) <= self.spec_dim(),
        ensures
            final(indices)@.len() == self.spec_input_dim(),
            forall|i: int|
                0 <= i < final(indices)@.len() ==> #[trigger] final(indices)@[i] == self.spec_dim()
                    - self.spec_input_dim() * (1 + look_ahead) + i,
    {
        indices.clear();
        let offset = lookahead_offset(self.dim, self.input_dim, look_ahead);
        proof {
            assert(self.input_dim * (1 + look_ahead) >= self.input_dim) by (nonlinear_arith);
        }
        let mut i: usize = 0;
        while i < self.input_dim
            invariant
                offset == self.dim - self.input_dim * (1 + look_ahead),
                offset + self.input_dim <= self.dim,
                i <= self.input_dim,
                indices@.len() == i,
                forall|j: int| 0 <= j < i ==> #[trigger] indices@[j] == offset + j,
            decreases self.input_dim - i,
        {
            indices.push(offset + i);
            i = i + 1;
        }
    }

    /// Map `missing_base` (indices within one observation) to positions in
    /// the shingle buffer `look_ahead` steps before the newest slot.
    pub fn missing_indices_with_lookahead(&self, look_ahead: usize, missing_base: &[usize]) -> (r:
        Vec<usize>)
        requires
            self.wf(),
            self.spec_input_dim() * (1 + look_ahead) <= self.spec_dim(),
            forall|i: int|
                0 <= i < missing_base@.len() ==> self.spec_dim() - self.spec_input_dim() * (1
                    + look_ahead) + #[trigger] missing_base@[i] <= usize::MAX,
        ensures
            r@.len() == missing_base@.len(),
            forall|i: int|
                0 <= i < r@.len() ==> #[trigger] r@[i] == self.spec_dim() - self.spec_input_dim() * (1
                    + look_ahead) + missing_base@[i],
    {
        let offset = lookahead_offset(self.dim, self.input_dim, look_ahead);
        let mut v = Vec::new();
        let mut i: usize = 0;
        while i < missing_base.len()
            invariant
                offset == self.dim - self.input_dim * (1 + look_ahead),
                i <= missing_base@.len(),
                v@.len() == i,
                forall|k: int|
                    0 <= k < missing_base@.len() ==> offset + #[trigger] missing_base@[k]
                        <= usize::MAX,
                forall|j: int| 0 <= j < i ==> #[trigger] v@[j] == offset + missing_base@[j],
            decreases missing_base.len() - i,
        {
            v.push(offset + missing_base[i]);
            i = i + 1;
        }
        v
    }
}

/// Overwrite `point@.len()` entries of `store` starting at `base` with `point`.
fn write_row<T: Copy>(store: &mut Vec<T>, base: usize, point: &[T])
    requires
        base + point@.len() <= old(store)@.len(),
    ensures
        final(store)@.len() == old(store)@.len(),
        forall|j: int|
            0 <= j < old(store)@.len() ==> #[trigger] final(store)@[j] == if base <= j < base
                + point@.len() {
                point@[j - base]
            } else {
                old(store)@[j]
            },
{
    let _ = store.len();
    let mut k: usize = 0;
    while k < point.len()
        invariant
            base + point@.len() <= old(store)@.len(),
            old(store)@.len() <= usize::MAX,
            k <= point@.len(),
            store@.len() == old(store)@.len(),
            forall|j: int|
                0 <= j < old(store)@.len() ==> #[trigger] store@[j] == if base <= j < base + k {
                    point@[j - base]
                } else {
                    old(store)@[j]
                },
        decreases point@.len() - k,
    {
        store.set(base + k, point[k]);
        k = k + 1;
    }
}

/// `2 * capacity + 4`, if it and the matching store length fit in `usize`.
fn grown_capacity(capacity: usize, dim: usize) -> (r: Option<usize>)
    ensures
        r is Some <==> (capacity * 2 + 4) * dim <= usize::MAX && capacity * 2 + 4 <= usize::MAX,
        r matches Some(c) ==> c == capacity * 2 + 4,
{
    let c = match capacity.checked_mul(2) {
        Some(d) => match d.checked_add(4) {
            Some(e) => e,
            None => {
                return None;
            },
        },
        None => {
            return None;
        },
    };
    match c.checked_mul(dim) {
        Some(_) => Some(c),
        None => None,
    }
}

/// A vector of `n` copies of `x`.
fn filled<T: Copy>(n: usize, x: T) -> (v: Vec<T>)
    ensures
        v@ == Seq::new(n as nat, |i: int| x),
{
    let mut v = Vec::new();
    push_copies(&mut v, n, x);
    assert(v@ =~= Seq::new(n as nat, |i: int| x));
    v
}

fn push_copies<T: Copy>(v: &mut Vec<T>, n: usize, x: T)
    ensures
        final(v)@.len() == old(v)@.len() + n,
        forall|i: int| 0 <= i < old(v)@.len() ==> #[trigger] final(v)@[i] == old(v)@[i],
        forall|i: int| old(v)@.len() <= i < final(v)@.len() ==> #[trigger] final(v)@[i] == x,
{
    let mut k: usize = 0;
    while k < n
        invariant
            k <= n,
            v@.len() == old(v)@.len() + k,
            forall|i: int| 0 <= i < old(v)@.len() ==> #[trigger] v@[i] == old(v)@[i],
            forall|i: int| old(v)@.len() <= i < v@.len() ==> #[trigger] v@[i] == x,
        decreases n - k,
    {
        v.push(x);
        k = k + 1;
    }
}

fn push_false(v: &mut Vec<bool>, n: usize)
    ensures
        final(v)@.len() == old(v)@.len() + n,
        forall|i: int| 0 <= i < old(v)@.len() ==> #[trigger] final(v)@[i] == old(v)@[i],
        forall|i: int| old(v)@.len() <= i < final(v)@.len() ==> !#[trigger] final(v)@[i],
{
    push_copies(v, n, false);
}

/// A copy of `s` as a vector.
pub fn copy_slice<T: Copy>(s: &[T]) -> (v: Vec<T>)
    ensures
        v@ == s@,
{
    let mut v = Vec::new();
    let mut i: usize = 0;
    while i < s.len()
        invariant
            i <= s@.len(),
            v@ == s@.subrange(0, i as int),
        decreases s.len() - i,
    {
        v.push(s[i]);
        i = i + 1;
        assert(v@ =~= s@.subrange(0, i as int));
    }
    assert(s@.subrange(0, s@.len() as int) =~= s@);
    v
}

/// The free-list conditions of `wf`, phrased over occupancy, agree with
/// [`free_list_exact`] over the complement.
proof fn lemma_free_list_equiv(free: Seq<usize>, limit: int, occupied: Seq<bool>, is_free: Seq<bool>)
    requires
        is_free.len() == occupied.len(),
        0 <= limit <= occupied.len(),
        forall|x: int| 0 <= x < is_free.len() ==> #[trigger] is_free[x] == !occupied[x],
    ensures
        free_list_exact(free, limit, is_free) <==> {
            &&& forall|j: int|
                0 <= j < free.len() ==> {
                    &&& #[trigger] free[j] < limit
                    &&& !occupied[free[j] as int]
                }
            &&& forall|j: int, k: int| 0 <= j < k < free.len() ==> free[j] != free[k]
            &&& forall|i: int| 0 <= i < limit && !#[trigger] occupied[i] ==> free.contains(i as usize)
        },
{
    if free_list_exact(free, limit, is_free) {
        assert forall|i: int| 0 <= i < limit && !#[trigger] occupied[i] implies free.contains(
            i as usize,
        ) by {
            assert(is_free[i]);
        }
    } else {
        if forall|i: int| 0 <= i < limit && !#[trigger] occupied[i] ==> free.contains(i as usize) {
            assert forall|i: int| 0 <= i < limit && #[trigger] is_free[i] implies free.contains(
                i as usize,
            ) by {
                assert(!occupied[i]);
            }
        }
    }
}

proof fn lemma_count_all_false(n: nat)
    ensures
        count_true(Seq::new(n, |i: int| false)) == 0,
    decreases n,
{
    if n > 0 {
        assert(Seq::new(n, |i: int| false).drop_last() =~= Seq::new((n - 1) as nat, |i: int| false));
        lemma_count_all_false((n - 1) as nat);
    }
}

proof fn lemma_count_true_extend_false(s: Seq<bool>, t: Seq<bool>)
    requires
        t.len() >= s.len(),
        t.subrange(0, s.len() as int) == s,
        forall|i: int| s.len() <= i < t.len() ==> !t[i],
    ensures
        count_true(t) == count_true(s),
    decreases t.len() - s.len(),
{
    if t.len() > s.len() {
        let u = t.drop_last();
        assert(u.subrange(0, s.len() as int) =~= s);
        lemma_count_true_extend_false(s, u);
    } else {
        assert(t =~= s);
    }
}

} // verus!
