use vstd::prelude::*;

use crate::error::{RcfError, Result};
use crate::rcf::point_store::{PointStore, PointStoreParts};
use crate::rcf::sampler::Sampler;

verus! {

/// Number of entries of `entries` that hold point `i`.
pub open spec fn point_count(entries: Seq<(u64, usize)>, i: int) -> nat
    decreases entries.len(),
{
    if entries.len() == 0 {
        0
    } else {
        point_count(entries.drop_last(), i) + if entries.last().1 == i {
            1nat
        } else {
            0nat
        }
    }
}

pub proof fn lemma_point_count_push(s: Seq<(u64, usize)>, x: (u64, usize), i: int)
    ensures
        point_count(s.push(x), i) == point_count(s, i) + if x.1 == i {
            1nat
        } else {
            0nat
        },
{
    assert(s.push(x).drop_last() =~= s);
}

/// Removing entry `j` lowers the count of its point by one.
pub proof fn lemma_point_count_remove(s: Seq<(u64, usize)>, j: int, i: int)
    requires
        0 <= j < s.len(),
    ensures
        point_count(s, i) == point_count(s.remove(j), i) + if s[j].1 == i {
            1nat
        } else {
            0nat
        },
    decreases s.len(),
{
    if j == s.len() - 1 {
        assert(s.remove(j) =~= s.drop_last());
    } else {
        assert(s.remove(j).drop_last() =~= s.drop_last().remove(j));
        assert(s.remove(j).last() == s.last());
        lemma_point_count_remove(s.drop_last(), j, i);
    }
}

/// Entry sequences with the same multiset hold each point equally often.
pub proof fn lemma_point_count_multiset(a: Seq<(u64, usize)>, b: Seq<(u64, usize)>, i: int)
    requires
        a.to_multiset() == b.to_multiset(),
    ensures
        point_count(a, i) == point_count(b, i),
    decreases a.len(),
{
    broadcast use vstd::seq_lib::group_to_multiset_ensures;

    if a.len() == 0 {
        assert(b.to_multiset().len() == 0);
        assert(b.len() == 0);
    } else {
        let x = a.last();
        let a2 = a.drop_last();
        assert(a2.push(x) =~= a);
        assert(a.to_multiset() == a2.to_multiset().insert(x));
        assert(b.to_multiset().count(x) > 0);
        assert(b.contains(x));
        let j = choose|j: int| 0 <= j < b.len() && b[j] == x;
        let b2 = b.remove(j);
        assert(b2.to_multiset() == b.to_multiset().remove(x));
        assert(a2.to_multiset() =~= a2.to_multiset().insert(x).remove(x));
        lemma_point_count_multiset(a2, b2, i);
        lemma_point_count_remove(b, j, i);
    }
}

/// Number of entries, over all `samplers`, that hold point `i`.
pub open spec fn refs_of(samplers: Seq<Sampler>, i: int) -> nat
    decreases samplers.len(),
{
    if samplers.len() == 0 {
        0
    } else {
        refs_of(samplers.drop_last(), i) + point_count(samplers.last().spec_entries(), i)
    }
}

/// Replacing sampler `t` changes the count of a point by the difference
/// between the two samplers' counts.
pub proof fn lemma_refs_update(samplers: Seq<Sampler>, t: int, s2: Sampler, i: int)
    requires
        0 <= t < samplers.len(),
    ensures
        refs_of(samplers.update(t, s2), i) + point_count(samplers[t].spec_entries(), i) == refs_of(
            samplers,
            i,
        ) + point_count(s2.spec_entries(), i),
        refs_of(samplers, i) >= point_count(samplers[t].spec_entries(), i),
    decreases samplers.len(),
{
    if t == samplers.len() - 1 {
        assert(samplers.update(t, s2).drop_last() =~= samplers.drop_last());
    } else {
        assert(samplers.update(t, s2).drop_last() =~= samplers.drop_last().update(t, s2));
        lemma_refs_update(samplers.drop_last(), t, s2, i);
    }
}

/// How [`Sampler::add_point`] changes the count of a point: the new point
/// gains one entry and, when the sampler was full, the point at the root
/// loses one.
pub proof fn lemma_add_point_counts(before: Seq<(u64, usize)>, after: Seq<(u64, usize)>, full: bool, key: u64, kept: usize, i: int)
    requires
        !full ==> after.to_multiset() == before.to_multiset().insert((key, kept)),
        full ==> before.len() > 0 && after.to_multiset() == before.to_multiset().remove(before[0]).insert(
            (key, kept),
        ),
    ensures
        point_count(after, i) + (if full && before[0].1 == i {
            1nat
        } else {
            0nat
        }) == point_count(before, i) + if kept == i {
            1nat
        } else {
            0nat
        },
{
    broadcast use vstd::seq_lib::group_to_multiset_ensures;

    if !full {
        lemma_point_count_multiset(after, before.push((key, kept)), i);
        lemma_point_count_push(before, (key, kept), i);
    } else {
        let rest = before.remove(0);
        assert(rest.to_multiset() == before.to_multiset().remove(before[0]));
        lemma_point_count_multiset(after, rest.push((key, kept)), i);
        lemma_point_count_push(rest, (key, kept), i);
        lemma_point_count_remove(before, 0, i);
    }
}

/// An empty sampler holds no point.
pub proof fn lemma_refs_empty(samplers: Seq<Sampler>, i: int)
    requires
        forall|t: int| 0 <= t < samplers.len() ==> (#[trigger] samplers[t]).spec_entries().len() == 0,
    ensures
        refs_of(samplers, i) == 0,
    decreases samplers.len(),
{
    if samplers.len() > 0 {
        assert(samplers.last() == samplers[samplers.len() - 1]);
        assert forall|t: int| 0 <= t < samplers.drop_last().len() implies (
        #[trigger] samplers.drop_last()[t]).spec_entries().len() == 0 by {
            assert(samplers.drop_last()[t] == samplers[t]);
        }
        lemma_refs_empty(samplers.drop_last(), i);
    }
}

/// The point store of a forest together with the samplers of its trees.
///
/// Every stored point's reference count is the number of sampler entries
/// that hold it, and sampler entries only hold live slots: a point is
/// recycled exactly when the last sampler lets it go.
#[derive(Debug)]
pub struct SampledStore<T> {
    store: PointStore<T>,
    samplers: Vec<Sampler>,
}

/// The samplers are consistent and can hold at least one point each.
pub open spec fn samplers_ok(samplers: Seq<Sampler>) -> bool {
    forall|t: int|
        #![trigger samplers[t]]
        0 <= t < samplers.len() ==> samplers[t].wf() && samplers[t].spec_capacity() > 0
}

/// Reference counts equal the sampler entries, and held points are live.
pub open spec fn refs_match<T: Copy>(store: PointStore<T>, samplers: Seq<Sampler>) -> bool {
    &&& forall|i: int|
        0 <= i < store.spec_capacity() ==> #[trigger] store.spec_ref_counts()[i] == refs_of(
            samplers,
            i,
        )
    &&& forall|i: int|
        #[trigger] refs_of(samplers, i) > 0 ==> 0 <= i < store.spec_capacity()
            && store.spec_occupied()[i]
}

/// What [`SampledStore::record`] does: sampler `t` takes `(key, kept)`,
/// dropping its root entry, whose point is `ev`, when it was full; reference
/// counts follow.
pub open spec fn recorded<T: Copy>(
    pre: SampledStore<T>,
    post: SampledStore<T>,
    t: usize,
    kept: usize,
    key: u64,
    ev: Option<usize>,
) -> bool {
    let before = pre.spec_samplers()[t as int];
    let after = post.spec_samplers()[t as int];
    let full = before.spec_size() == before.spec_capacity();
    &&& ev == if full {
        Some(before.spec_entries()[0].1)
    } else {
        None::<usize>
    }
    &&& post.spec_samplers() == pre.spec_samplers().update(t as int, after)
    &&& after.spec_capacity() == before.spec_capacity()
    &&& !full ==> after.spec_entries().to_multiset()
        == before.spec_entries().to_multiset().insert((key, kept))
    &&& full ==> after.spec_entries().to_multiset()
        == before.spec_entries().to_multiset().remove(before.spec_entries()[0]).insert(
        (key, kept),
    )
    &&& forall|i: int|
        #[trigger] refs_of(post.spec_samplers(), i) + (if (ev matches Some(e) && e == i) {
            1nat
        } else {
            0nat
        }) == refs_of(pre.spec_samplers(), i) + if kept == i {
            1nat
        } else {
            0nat
        }
    &&& ({
        let st0 = pre.spec_store();
        let st1 = post.spec_store();
        let freed = ev matches Some(e) && refs_of(post.spec_samplers(), e as int) == 0;
        &&& st1.spec_same_points(&st0)
        &&& st1.spec_occupied() == if freed {
            st0.spec_occupied().update(ev->0 as int, false)
        } else {
            st0.spec_occupied()
        }
        &&& st1.spec_size() == if freed {
            st0.spec_size() - 1
        } else {
            st0.spec_size() as int
        }
        &&& st1.spec_free_list() == if freed {
            st0.spec_free_list().push(ev->0)
        } else {
            st0.spec_free_list()
        }
    })
}

impl<T: Copy> SampledStore<T> {
    pub closed spec fn spec_store(&self) -> PointStore<T> {
        self.store
    }

    pub closed spec fn spec_samplers(&self) -> Seq<Sampler> {
        self.samplers@
    }

    pub closed spec fn wf(&self) -> bool {
        &&& self.store.wf()
        &&& samplers_ok(self.samplers@)
        &&& refs_match(self.store, self.samplers@)
    }

    /// The invariant, for callers.
    pub proof fn lemma_wf(&self)
        requires
            self.wf(),
        ensures
            self.spec_store().wf(),
            samplers_ok(self.spec_samplers()),
            refs_match(self.spec_store(), self.spec_samplers()),
    {
    }

    /// An empty store of `store_capacity` slots and `num_samplers` empty
    /// samplers of `sampler_capacity` points each.
    pub fn new(
        input_dim: usize,
        shingle_size: usize,
        store_capacity: usize,
        internal_shingling: bool,
        fill: T,
        num_samplers: usize,
        sampler_capacity: usize,
    ) -> (s: Self)
        requires
            input_dim * shingle_size <= usize::MAX,
            store_capacity * (input_dim * shingle_size) <= usize::MAX,
            sampler_capacity > 0,
        ensures
            s.wf(),
            s.spec_store().spec_dim() == input_dim * shingle_size,
            s.spec_store().spec_input_dim() == input_dim,
            s.spec_store().spec_internal_shingling() == internal_shingling,
            s.spec_store().spec_capacity() == store_capacity,
            s.spec_store().spec_size() == 0,
            s.spec_store().spec_entries_seen() == 0,
            s.spec_store().spec_next_free() == 0,
            s.spec_store().spec_free_list() == Seq::<usize>::empty(),
            s.spec_samplers().len() == num_samplers,
            forall|t: int|
                0 <= t < num_samplers ==> (#[trigger] s.spec_samplers()[t]).spec_entries().len()
                    == 0 && s.spec_samplers()[t].spec_size() == 0 && s.spec_samplers()[t].spec_capacity()
                    == sampler_capacity,
    {
        let store = PointStore::new(input_dim, shingle_size, store_capacity, internal_shingling, fill);
        let mut samplers: Vec<Sampler> = Vec::new();
        let mut k: usize = 0;
        while k < num_samplers
            invariant
                k <= num_samplers,
                sampler_capacity > 0,
                samplers@.len() == k,
                forall|t: int|
                    #![trigger samplers@[t]]
                    0 <= t < k ==> samplers@[t].wf() && samplers@[t].spec_capacity()
                        == sampler_capacity && samplers@[t].spec_entries().len() == 0
                        && samplers@[t].spec_size() == 0,
            decreases num_samplers - k,
        {
            samplers.push(Sampler::new(sampler_capacity));
            k = k + 1;
        }
        let s = SampledStore { store, samplers };
        proof {
            assert forall|i: int| #[trigger] refs_of(s.samplers@, i) == 0 by {
                lemma_refs_empty(s.samplers@, i);
            }
        }
        s
    }

    /// The point store.
    pub fn store(&self) -> (s: &PointStore<T>)
        ensures
            *s == self.spec_store(),
    {
        &self.store
    }

    pub fn num_samplers(&self) -> (n: usize)
        ensures
            n == self.spec_samplers().len(),
    {
        self.samplers.len()
    }

    /// The sampler of tree `t`.
    pub fn sampler(&self, t: usize) -> (s: &Sampler)
        requires
            t < self.spec_samplers().len(),
        ensures
            *s == self.spec_samplers()[t as int],
    {
        &self.samplers[t]
    }

    /// Record that tree `t` took the point in slot `kept` with sampling key
    /// `key`: the sampler adds it (evicting its root entry when full), the
    /// point gains a reference and the evicted point loses one. Returns the
    /// evicted point.
    #[verifier::spinoff_prover]
    #[verifier::rlimit(40)]
    pub fn record(&mut self, t: usize, kept: usize, key: u64) -> (r: Result<Option<usize>>)
        requires
            old(self).wf(),
        ensures
            final(self).wf(),
            r is Ok <==> t < old(self).spec_samplers().len() && kept < old(
                self,
            ).spec_store().spec_capacity() && old(self).spec_store().spec_occupied()[kept as int]
                && old(self).spec_store().spec_ref_counts()[kept as int] < usize::MAX,
            t >= old(self).spec_samplers().len() ==> r == Err::<Option<usize>, RcfError>(
                RcfError::IndexOutOfBounds(t),
            ),
            t < old(self).spec_samplers().len() && !(kept < old(self).spec_store().spec_capacity()
                && old(self).spec_store().spec_occupied()[kept as int]) ==> (r matches Err(
                RcfError::InvalidArgument(_),
            )),
            t < old(self).spec_samplers().len() && kept < old(self).spec_store().spec_capacity()
                && old(self).spec_store().spec_occupied()[kept as int] && old(self).spec_store().spec_ref_counts()[kept as int]
                == usize::MAX ==> (r matches Err(RcfError::Overflow(_))),
            r matches Ok(ev) ==> recorded(*old(self), *final(self), t, kept, key, ev),
            r is Err ==> *final(self) == *old(self),
    {
        if t >= self.samplers.len() {
            return Err(RcfError::IndexOutOfBounds(t));
        }
        if kept >= self.store.capacity() || !self.store.is_occupied(kept) {
            return Err(RcfError::invalid_argument("the kept point is not stored"));
        }
        if self.store.ref_count(kept) == usize::MAX {
            return Err(RcfError::overflow("reference count overflow"));
        }
        let ghost old_samplers = self.samplers@;
        let ghost old_store = self.store;
        let ghost before = self.samplers@[t as int];
        proof {
            assert(samplers_ok(old_samplers));
            assert(before.wf() && before.spec_capacity() > 0);
            before.lemma_entries_len();
        }
        let full = self.samplers[t].is_full();
        let evicted = if full {
            Some(self.samplers[t].points()[0])
        } else {
            None
        };
        let mut s = Sampler::new(1);
        self.samplers.set_and_swap(t, &mut s);
        s.add_point(kept, key);
        let ghost after = s;

        self.samplers.set_and_swap(t, &mut s);
        proof {
            assert(self.samplers@ == old_samplers.update(t as int, after));
            assert forall|u: int|
                #![trigger self.samplers@[u]]
                0 <= u < self.samplers@.len() implies self.samplers@[u].wf()
                && self.samplers@[u].spec_capacity() > 0 by {
                if u != t {
                    assert(self.samplers@[u] == old_samplers[u]);
                }
            }
            assert forall|i: int|
                #[trigger] refs_of(self.samplers@, i) + (if (evicted matches Some(e) && e == i) {
                    1nat
                } else {
                    0nat
                }) == refs_of(old_samplers, i) + if kept == i {
                    1nat
                } else {
                    0nat
                } by {
                lemma_refs_update(old_samplers, t as int, after, i);
                lemma_add_point_counts(
                    before.spec_entries(),
                    after.spec_entries(),
                    full,
                    key,
                    kept,
                    i,
                );
            }
            if full {
                let e = before.spec_entries()[0].1;
                lemma_point_count_remove(before.spec_entries(), 0, e as int);
                lemma_refs_update(old_samplers, t as int, after, e as int);
                assert(refs_of(old_samplers, e as int) > 0);
            }
        }
        proof {
            old_store.lemma_wf_lens();
        }
        self.store.inc_ref(kept);
        let ghost store1 = self.store;
        proof {
            store1.lemma_wf_lens();
        }
        if let Some(e) = evicted {
            self.store.dec_ref(e);
        }
        proof {
            let store = self.store;
            let cap = old_store.spec_capacity();
            assert(store.spec_capacity() == cap);
            if full {
                let e = before.spec_entries()[0].1;
                assert(evicted == Some(e));
                assert(refs_of(old_samplers, e as int) > 0);
                assert(e < cap);
                assert(old_store.spec_ref_counts()[e as int] == refs_of(old_samplers, e as int));
                assert(store1.spec_ref_counts()[e as int] >= 1);
            }
            assert forall|i: int| 0 <= i < cap implies #[trigger] store.spec_ref_counts()[i]
                == refs_of(self.samplers@, i) by {
                assert(refs_of(self.samplers@, i) + (if (evicted matches Some(e) && e == i) {
                    1nat
                } else {
                    0nat
                }) == refs_of(old_samplers, i) + if kept == i {
                    1nat
                } else {
                    0nat
                });
                assert(old_store.spec_ref_counts()[i] == refs_of(old_samplers, i));
                assert(store1.spec_ref_counts()[i] == old_store.spec_ref_counts()[i] + if kept == i {
                    1int
                } else {
                    0int
                });
            }
            assert forall|i: int| #[trigger] refs_of(self.samplers@, i) > 0 implies 0 <= i < cap
                && store.spec_occupied()[i] by {
                assert(refs_of(self.samplers@, i) + (if (evicted matches Some(e) && e == i) {
                    1nat
                } else {
                    0nat
                }) == refs_of(old_samplers, i) + if kept == i {
                    1nat
                } else {
                    0nat
                });
                if i != kept as int {
                    assert(refs_of(old_samplers, i) > 0);
                }
                assert(0 <= i < cap);
                assert(old_store.spec_occupied()[i]);
                assert(store1.spec_occupied()[i]);
                if evicted matches Some(e) && e == i {
                    assert(store1.spec_ref_counts()[i] == old_store.spec_ref_counts()[i] + if kept
                        == i {
                        1int
                    } else {
                        0int
                    });
                    assert(old_store.spec_ref_counts()[i] == refs_of(old_samplers, i));
                    assert(store.spec_ref_counts()[i] == refs_of(self.samplers@, i));
                }
            }
        }
        proof {
            if let Some(e) = evicted {
                assert(refs_of(self.samplers@, e as int) + 1 == refs_of(old_samplers, e as int) + if kept
                    == e {
                    1nat
                } else {
                    0nat
                });
                assert(old_store.spec_ref_counts()[e as int] == refs_of(old_samplers, e as int));
                assert(store1.spec_occupied()[e as int]);
                assert(store1.spec_ref_counts()[e as int] == refs_of(self.samplers@, e as int) + 1);
                if refs_of(self.samplers@, e as int) > 0 {
                    assert(store1.spec_occupied().update(e as int, true) =~= store1.spec_occupied());
                }
            }
        }
        Ok(evicted)
    }
}

impl<T: Copy> SampledStore<T> {
    /// A slot that no sampler holds has no references.
    proof fn lemma_added_keeps_refs(old_store: PointStore<T>, new_store: PointStore<T>, samplers: Seq<Sampler>, idx: usize, point: Seq<T>)
        requires
            old_store.wf(),
            new_store.wf(),
            refs_match(old_store, samplers),
            new_store.spec_added(&old_store, idx, point),
        ensures
            refs_match(new_store, samplers),
    {
        old_store.lemma_wf_lens();
        new_store.lemma_wf_lens();
        assert(refs_of(samplers, idx as int) == 0) by {
            if refs_of(samplers, idx as int) > 0 {
                assert(idx < old_store.spec_capacity());
                assert(old_store.spec_occupied()[idx as int]);
            }
        }
        assert forall|i: int| 0 <= i < new_store.spec_capacity() implies #[trigger] new_store.spec_ref_counts()[i]
            == refs_of(samplers, i) by {
            if i >= old_store.spec_capacity() {
                if refs_of(samplers, i) > 0 {
                    assert(i < old_store.spec_capacity());
                }
            } else if i != idx {
                assert(new_store.spec_occupied()[i] == old_store.spec_occupied()[i]);
            }
        }
        assert forall|i: int| #[trigger] refs_of(samplers, i) > 0 implies 0 <= i
            < new_store.spec_capacity() && new_store.spec_occupied()[i] by {
            assert(i < old_store.spec_capacity() && old_store.spec_occupied()[i]);
            assert(i != idx);
            assert(new_store.spec_occupied()[i] == old_store.spec_occupied()[i]);
        }
    }

    /// Store a full point in a free slot (see [`PointStore::add_validated`]).
    pub fn add_validated(&mut self, point: &[T]) -> (r: Result<usize>)
        requires
            old(self).wf(),
            point@.len() == old(self).spec_store().spec_dim(),
            old(self).spec_store().spec_entries_seen() < u64::MAX,
        ensures
            final(self).wf(),
            final(self).spec_samplers() == old(self).spec_samplers(),
            r is Ok <==> old(self).spec_store().can_allocate(),
            r matches Err(e) ==> e is Overflow,
            r matches Ok(idx) ==> final(self).spec_store().spec_added(&old(self).spec_store(), idx, point@),
            r is Err ==> *final(self) == *old(self),
    {
        let ghost old_store = self.store;
        let r = self.store.add_validated(point);
        proof {
            if let Ok(idx) = r {
                Self::lemma_added_keeps_refs(old_store, self.store, self.samplers@, idx, point@);
            }
        }
        r
    }

    /// Store the current shingle in a free slot (see
    /// [`PointStore::add_current_shingled`]).
    pub fn add_current_shingled(&mut self) -> (r: Result<usize>)
        requires
            old(self).wf(),
            old(self).spec_store().spec_entries_seen() < u64::MAX,
        ensures
            final(self).wf(),
            final(self).spec_samplers() == old(self).spec_samplers(),
            r is Ok <==> old(self).spec_store().can_allocate(),
            r matches Err(e) ==> e is Overflow,
            r matches Ok(idx) ==> final(self).spec_store().spec_added(
                &old(self).spec_store(),
                idx,
                old(self).spec_store().spec_shingle(),
            ),
            r is Err ==> *final(self) == *old(self),
    {
        let ghost old_store = self.store;
        let r = self.store.add_current_shingled();
        proof {
            if let Ok(idx) = r {
                Self::lemma_added_keeps_refs(old_store, self.store, self.samplers@, idx, old_store.spec_shingle());
            }
        }
        r
    }

    /// Shift a base observation into the shingle (see
    /// [`PointStore::advance_shingle`]); stored points are untouched.
    pub fn advance_shingle(&mut self, base: &[T]) -> (r: Result<()>)
        requires
            old(self).wf(),
            old(self).spec_store().spec_input_dim() <= old(self).spec_store().spec_dim(),
        ensures
            final(self).wf(),
            final(self).spec_samplers() == old(self).spec_samplers(),
            final(self).spec_store().spec_points_unchanged(&old(self).spec_store()),
            final(self).spec_store().spec_entries_seen() == old(self).spec_store().spec_entries_seen(),
            base@.len() == old(self).spec_store().spec_input_dim() ==> {
                &&& r is Ok
                &&& final(self).spec_store().spec_shingle() == old(self).spec_store().spec_shingle().subrange(
                    old(self).spec_store().spec_input_dim() as int,
                    old(self).spec_store().spec_dim() as int,
                ) + base@
            },
            base@.len() != old(self).spec_store().spec_input_dim() ==> {
                &&& r matches Err(e) && e matches RcfError::DimensionMismatch { expected, got }
                    && expected == old(self).spec_store().spec_input_dim() && got == base@.len()
                &&& final(self).spec_store().spec_shingle() == old(self).spec_store().spec_shingle()
            },
    {
        let ghost old_store = self.store;
        let r = self.store.advance_shingle(base);
        proof {
            self.store.lemma_points_unchanged(&old_store);
        }
        r
    }

    /// Count an observation that is not stored.
    pub fn record_logical_add_without_storage(&mut self)
        requires
            old(self).wf(),
            old(self).spec_store().spec_entries_seen() < u64::MAX,
        ensures
            final(self).wf(),
            final(self).spec_samplers() == old(self).spec_samplers(),
            final(self).spec_store().spec_entries_seen() == old(self).spec_store().spec_entries_seen() + 1,
            final(self).spec_store().spec_points_unchanged(&old(self).spec_store()),
            final(self).spec_store().spec_shingle() == old(self).spec_store().spec_shingle(),
    {
        let ghost old_store = self.store;
        self.store.record_logical_add_without_storage();
        proof {
            self.store.lemma_points_unchanged(&old_store);
        }
    }

    /// Free slot `idx` when no sampler holds it (a freshly stored point that
    /// no tree kept); otherwise nothing changes.
    pub fn release_if_unused(&mut self, idx: usize) -> (released: bool)
        requires
            old(self).wf(),
        ensures
            final(self).wf(),
            final(self).spec_samplers() == old(self).spec_samplers(),
            released == (idx < old(self).spec_store().spec_capacity() && refs_of(
                old(self).spec_samplers(),
                idx as int,
            ) == 0),
            released ==> {
                &&& final(self).spec_store().spec_occupied() == old(self).spec_store().spec_occupied().update(
                    idx as int,
                    false,
                )
                &&& final(self).spec_store().spec_ref_counts() == old(self).spec_store().spec_ref_counts()
            },
            !released ==> *final(self) == *old(self),
    {
        proof {
            self.store.lemma_wf_lens();
        }
        if idx >= self.store.capacity() || self.store.ref_count(idx) != 0 {
            return false;
        }
        let ghost old_store = self.store;
        self.store.dec_ref(idx);
        proof {
            self.store.lemma_wf_lens();
            assert(old_store.spec_ref_counts().update(idx as int, 0usize) =~= old_store.spec_ref_counts());
            assert forall|i: int| #[trigger] refs_of(self.samplers@, i) > 0 implies 0 <= i
                < self.store.spec_capacity() && self.store.spec_occupied()[i] by {
                assert(old_store.spec_occupied()[i]);
                if i == idx {
                    assert(old_store.spec_ref_counts()[i] == refs_of(self.samplers@, i));
                }
            }
            if old_store.spec_occupied()[idx as int] {
            } else {
                assert(old_store.spec_occupied().update(idx as int, false) =~= old_store.spec_occupied());
            }
        }
        true
    }
}

/// Number of entries, over the entry lists `parts`, that hold point `i`.
pub open spec fn refs_of_parts(parts: Seq<Seq<(u64, usize)>>, i: int) -> nat
    decreases parts.len(),
{
    if parts.len() == 0 {
        0
    } else {
        refs_of_parts(parts.drop_last(), i) + point_count(parts.last(), i)
    }
}

/// Samplers holding the given entry lists hold each point as often.
pub proof fn lemma_refs_of_parts(samplers: Seq<Sampler>, parts: Seq<Seq<(u64, usize)>>, i: int)
    requires
        samplers.len() == parts.len(),
        forall|t: int|
            0 <= t < parts.len() ==> (#[trigger] samplers[t]).spec_entries().to_multiset()
                == parts[t].to_multiset(),
    ensures
        refs_of(samplers, i) == refs_of_parts(parts, i),
    decreases parts.len(),
{
    if parts.len() > 0 {
        let n = parts.len() - 1;
        assert(samplers[n].spec_entries().to_multiset() == parts[n].to_multiset());
        lemma_point_count_multiset(samplers[n].spec_entries(), parts[n], i);
        assert forall|t: int| 0 <= t < parts.drop_last().len() implies (
        #[trigger] samplers.drop_last()[t]).spec_entries().to_multiset()
            == parts.drop_last()[t].to_multiset() by {
            assert(samplers.drop_last()[t] == samplers[t]);
        }
        lemma_refs_of_parts(samplers.drop_last(), parts.drop_last(), i);
    }
}

/// A point held by an entry list is counted.
proof fn lemma_point_count_prefix(s: Seq<(u64, usize)>, j: int, i: int)
    requires
        0 <= j < s.len(),
    ensures
        point_count(s.subrange(0, j + 1), i) == point_count(s.subrange(0, j), i) + if s[j].1 == i {
            1nat
        } else {
            0nat
        },
{
    assert(s.subrange(0, j + 1).drop_last() =~= s.subrange(0, j));
}

/// Reference counts equal the entries of the lists, and held points are live.
pub open spec fn parts_refs_match<T: Copy>(store: PointStore<T>, parts: Seq<Seq<(u64, usize)>>) -> bool {
    &&& forall|i: int|
        0 <= i < store.spec_capacity() ==> #[trigger] store.spec_ref_counts()[i] == refs_of_parts(
            parts,
            i,
        )
    &&& forall|i: int|
        #[trigger] refs_of_parts(parts, i) > 0 ==> 0 <= i < store.spec_capacity()
            && store.spec_occupied()[i]
}

/// A prefix of an entry list holds a point at most as often as the list.
proof fn lemma_point_count_grows(s: Seq<(u64, usize)>, k: int, i: int)
    requires
        0 <= k <= s.len(),
    ensures
        point_count(s, i) >= point_count(s.subrange(0, k), i),
    decreases s.len(),
{
    if k == s.len() {
        assert(s.subrange(0, k) =~= s);
    } else {
        assert(s.drop_last().subrange(0, k) =~= s.subrange(0, k));
        lemma_point_count_grows(s.drop_last(), k, i);
    }
}

/// The lists before `t`, and list `t`, hold a point at most as often as all.
proof fn lemma_refs_of_parts_grows(parts: Seq<Seq<(u64, usize)>>, t: int, i: int)
    requires
        0 <= t < parts.len(),
    ensures
        refs_of_parts(parts, i) >= refs_of_parts(parts.subrange(0, t), i) + point_count(parts[t], i),
    decreases parts.len(),
{
    if t == parts.len() - 1 {
        assert(parts.drop_last() =~= parts.subrange(0, t));
    } else {
        assert(parts.drop_last().subrange(0, t) =~= parts.subrange(0, t));
        lemma_refs_of_parts_grows(parts.drop_last(), t, i);
    }
}

/// A sampler rebuilt from an entry list.
fn sampler_from_entries(capacity: usize, entries: &Vec<(u64, usize)>) -> (s: Sampler)
    requires
        capacity > 0,
        entries@.len() <= capacity,
    ensures
        s.wf(),
        s.spec_capacity() == capacity,
        s.spec_entries().to_multiset() == entries@.to_multiset(),
{
    broadcast use vstd::seq_lib::group_to_multiset_ensures;

    let mut s = Sampler::new(capacity);
    let mut j: usize = 0;
    proof {
        assert(entries@.subrange(0, 0) =~= Seq::<(u64, usize)>::empty());
    }
    while j < entries.len()
        invariant
            capacity > 0,
            entries@.len() <= capacity,
            j <= entries@.len(),
            s.wf(),
            s.spec_capacity() == capacity,
            s.spec_size() == j,
            s.spec_entries().to_multiset() == entries@.subrange(0, j as int).to_multiset(),
        decreases entries.len() - j,
    {
        let (key, p) = entries[j];
        proof {
            assert(entries@[j as int] == (key, p));
        }
        let ghost before = s;
        s.add_point(p, key);
        proof {
            assert(before.spec_size() < before.spec_capacity());
            assert(s.spec_entries().to_multiset() == before.spec_entries().to_multiset().insert((key, p)));
            assert(entries@.subrange(0, j + 1) =~= entries@.subrange(0, j as int).push((key, p)));
            vstd::seq_lib::to_multiset_build(entries@.subrange(0, j as int), (key, p));
        }
        j = j + 1;
    }
    proof {
        assert(entries@.subrange(0, entries@.len() as int) =~= entries@);
    }
    s
}

impl<T: Copy> SampledStore<T> {
    /// Rebuild a store and its samplers from persisted parts: each sampler
    /// is given by its capacity and its (key, point) entries. `None` unless
    /// the store is consistent, every sampler has room for its entries, and
    /// each point's reference count is the number of entries holding it.
    pub fn from_parts(parts: PointStoreParts<T>, samplers: Vec<(usize, Vec<(u64, usize)>)>) -> (r: Option<Self>)
        ensures
            r is Some <==> {
                &&& PointStore::<T>::from_parts_spec(parts).wf()
                &&& forall|t: int|
                    0 <= t < samplers@.len() ==> 0 < (#[trigger] samplers@[t]).0 && samplers@[t].1@.len()
                        <= samplers@[t].0
                &&& parts_refs_match(
                    PointStore::<T>::from_parts_spec(parts),
                    samplers@.map_values(|p: (usize, Vec<(u64, usize)>)| p.1@),
                )
            },
            r matches Some(s) ==> {
                &&& s.wf()
                &&& s.spec_store() == PointStore::<T>::from_parts_spec(parts)
                &&& s.spec_samplers().len() == samplers@.len()
                &&& forall|t: int|
                    0 <= t < samplers@.len() ==> (#[trigger] s.spec_samplers()[t]).spec_capacity()
                        == samplers@[t].0 && s.spec_samplers()[t].spec_entries().to_multiset()
                        == samplers@[t].1@.to_multiset()
            },
    {
        let store = match PointStore::from_parts(parts) {
            Some(st) => st,
            None => {
                return None;
            },
        };
        let ghost entries = samplers@.map_values(|p: (usize, Vec<(u64, usize)>)| p.1@);
        proof {
            store.lemma_wf_lens();
        }
        let cap = store.capacity();
        // Count the entries holding each slot.
        let mut counts: Vec<usize> = Vec::new();
        let mut c: usize = 0;
        while c < cap
            invariant
                c <= cap,
                counts@.len() == c,
                forall|x: int| 0 <= x < c ==> #[trigger] counts@[x] == 0,
            decreases cap - c,
        {
            counts.push(0);
            c = c + 1;
        }
        let n = samplers.len();
        let mut t: usize = 0;
        proof {
            assert(entries.subrange(0, 0) =~= Seq::<Seq<(u64, usize)>>::empty());
        }
        while t < n
            invariant
                n == samplers@.len(),
                entries.len() == n,
                entries == samplers@.map_values(|p: (usize, Vec<(u64, usize)>)| p.1@),
                store == PointStore::<T>::from_parts_spec(parts),
                cap == store.spec_capacity(),
                store.wf(),
                store.spec_ref_counts().len() == cap,
                store.spec_occupied().len() == cap,
                t <= n,
                counts@.len() == cap,
                forall|x: int|
                    0 <= x < cap ==> #[trigger] counts@[x] == refs_of_parts(
                        entries.subrange(0, t as int),
                        x,
                    ),
                forall|x: int|
                    !(0 <= x < cap) ==> #[trigger] refs_of_parts(entries.subrange(0, t as int), x) == 0,
                forall|u: int|
                    0 <= u < t ==> 0 < (#[trigger] samplers@[u]).0 && samplers@[u].1@.len()
                        <= samplers@[u].0,
            decreases n - t,
        {
            let scap = samplers[t].0;
            let list = &samplers[t].1;
            if scap == 0 || list.len() > scap {
                return None;
            }
            let ghost pre = entries.subrange(0, t as int);
            let ghost lst = list@;
            proof {
                assert(entries[t as int] == lst);
                assert(entries.subrange(0, t + 1).drop_last() =~= pre);
                assert(entries.subrange(0, t + 1).last() == lst);
                assert(lst.subrange(0, 0) =~= Seq::<(u64, usize)>::empty());
            }
            let mut j: usize = 0;
            while j < list.len()
                invariant
                    n == samplers@.len(),
                    entries.len() == n,
                    entries == samplers@.map_values(|p: (usize, Vec<(u64, usize)>)| p.1@),
                    t < n,
                    0 < samplers@[t as int].0 && samplers@[t as int].1@.len() <= samplers@[t as int].0,
                    forall|u: int|
                        0 <= u < t ==> 0 < (#[trigger] samplers@[u]).0 && samplers@[u].1@.len()
                            <= samplers@[u].0,
                    entries[t as int] == lst,
                    pre == entries.subrange(0, t as int),
                    store == PointStore::<T>::from_parts_spec(parts),
                    cap == store.spec_capacity(),
                    store.spec_ref_counts().len() == cap,
                    counts@.len() == cap,
                    lst == list@,
                    j <= lst.len(),
                    forall|x: int|
                        0 <= x < cap ==> #[trigger] counts@[x] == refs_of_parts(pre, x) + point_count(
                            lst.subrange(0, j as int),
                            x,
                        ),
                    forall|x: int|
                        !(0 <= x < cap) ==> #[trigger] refs_of_parts(pre, x) + point_count(
                            lst.subrange(0, j as int),
                            x,
                        ) == 0,
                decreases list.len() - j,
            {
                let p = list[j].1;
                proof {
                    lemma_point_count_prefix(lst, j as int, p as int);
                    lemma_point_count_grows(lst, j as int + 1, p as int);
                    lemma_refs_of_parts_grows(entries, t as int, p as int);
                }
                if p >= cap {
                    proof {
                        assert(refs_of_parts(entries, p as int) > 0);
                    }
                    return None;
                }
                if counts[p] == usize::MAX {
                    proof {
                        assert(refs_of_parts(entries, p as int) > usize::MAX);
                        assert(store.spec_ref_counts()[p as int] != refs_of_parts(entries, p as int));
                    }
                    return None;
                }
                let old_c = counts[p];
                counts.set(p, old_c + 1);
                proof {
                    assert forall|x: int| 0 <= x < cap implies #[trigger] counts@[x] == refs_of_parts(
                        pre,
                        x,
                    ) + point_count(lst.subrange(0, j + 1), x) by {
                        lemma_point_count_prefix(lst, j as int, x);
                    }
                    assert forall|x: int| !(0 <= x < cap) implies #[trigger] refs_of_parts(pre, x)
                        + point_count(lst.subrange(0, j + 1), x) == 0 by {
                        lemma_point_count_prefix(lst, j as int, x);
                    }
                }
                j = j + 1;
            }
            proof {
                assert(lst.subrange(0, lst.len() as int) =~= lst);
                assert(entries.subrange(0, t + 1).drop_last() =~= pre);
                assert(entries.subrange(0, t + 1).last() == lst);
                assert forall|x: int| 0 <= x < cap implies #[trigger] counts@[x] == refs_of_parts(
                    entries.subrange(0, t + 1),
                    x,
                ) by {}
                assert forall|x: int| !(0 <= x < cap) implies #[trigger] refs_of_parts(
                    entries.subrange(0, t + 1),
                    x,
                ) == 0 by {
                    assert(refs_of_parts(pre, x) + point_count(lst.subrange(0, lst.len() as int), x) == 0);
                }
            }
            t = t + 1;
        }
        proof {
            assert(entries.subrange(0, n as int) =~= entries);
        }
        // Compare with the stored reference counts.
        let mut i: usize = 0;
        while i < cap
            invariant
                n == samplers@.len(),
                entries == samplers@.map_values(|p: (usize, Vec<(u64, usize)>)| p.1@),
                store == PointStore::<T>::from_parts_spec(parts),
                cap == store.spec_capacity(),
                store.wf(),
                store.spec_ref_counts().len() == cap,
                store.spec_occupied().len() == cap,
                counts@.len() == cap,
                i <= cap,
                forall|x: int| 0 <= x < cap ==> #[trigger] counts@[x] == refs_of_parts(entries, x),
                forall|x: int| !(0 <= x < cap) ==> #[trigger] refs_of_parts(entries, x) == 0,
                forall|x: int|
                    0 <= x < i ==> #[trigger] store.spec_ref_counts()[x] == refs_of_parts(entries, x)
                        && (refs_of_parts(entries, x) > 0 ==> store.spec_occupied()[x]),
                forall|u: int|
                    0 <= u < n ==> 0 < (#[trigger] samplers@[u]).0 && samplers@[u].1@.len()
                        <= samplers@[u].0,
            decreases cap - i,
        {
            let rc = store.ref_count(i);
            let occ = store.is_occupied(i);
            if rc != counts[i] || (counts[i] > 0 && !occ) {
                return None;
            }
            proof {
                assert(store.spec_ref_counts()[i as int] == refs_of_parts(entries, i as int));
                assert(refs_of_parts(entries, i as int) > 0 ==> store.spec_occupied()[i as int]);
                assert forall|x: int| 0 <= x < i + 1 implies #[trigger] store.spec_ref_counts()[x]
                    == refs_of_parts(entries, x) && (refs_of_parts(entries, x) > 0
                    ==> store.spec_occupied()[x]) by {
                    if x < i {
                        assert(store.spec_ref_counts()[x] == refs_of_parts(entries, x));
                    }
                }
            }
            i = i + 1;
        }
        // Rebuild the samplers.
        let mut built: Vec<Sampler> = Vec::new();
        let mut k: usize = 0;
        while k < n
            invariant
                n == samplers@.len(),
                entries == samplers@.map_values(|p: (usize, Vec<(u64, usize)>)| p.1@),
                store == PointStore::<T>::from_parts_spec(parts),
                cap == store.spec_capacity(),
                store.wf(),
                store.spec_ref_counts().len() == cap,
                store.spec_occupied().len() == cap,
                forall|x: int| !(0 <= x < cap) ==> #[trigger] refs_of_parts(entries, x) == 0,
                forall|x: int|
                    0 <= x < cap ==> #[trigger] store.spec_ref_counts()[x] == refs_of_parts(entries, x)
                        && (refs_of_parts(entries, x) > 0 ==> store.spec_occupied()[x]),
                k <= n,
                built@.len() == k,
                forall|u: int|
                    0 <= u < n ==> 0 < (#[trigger] samplers@[u]).0 && samplers@[u].1@.len()
                        <= samplers@[u].0,
                forall|u: int|
                    #![trigger built@[u]]
                    0 <= u < k ==> built@[u].wf() && built@[u].spec_capacity() == samplers@[u].0
                        && built@[u].spec_entries().to_multiset() == samplers@[u].1@.to_multiset(),
            decreases n - k,
        {
            let sm = sampler_from_entries(samplers[k].0, &samplers[k].1);
            built.push(sm);
            k = k + 1;
        }
        let s = SampledStore { store, samplers: built };
        proof {
            assert forall|x: int| #[trigger] refs_of(s.samplers@, x) == refs_of_parts(entries, x) by {
                assert forall|u: int| 0 <= u < entries.len() implies (
                #[trigger] s.samplers@[u]).spec_entries().to_multiset() == entries[u].to_multiset() by {
                    assert(entries[u] == samplers@[u].1@);
                }
                lemma_refs_of_parts(s.samplers@, entries, x);
            }
            assert forall|x: int| #[trigger] refs_of(s.samplers@, x) > 0 implies 0 <= x < cap
                && store.spec_occupied()[x] by {
                assert(refs_of_parts(entries, x) > 0);
                assert(0 <= x < cap);
                assert(store.spec_ref_counts()[x] == refs_of_parts(entries, x));
            }
            assert forall|x: int| 0 <= x < cap implies #[trigger] store.spec_ref_counts()[x]
                == refs_of(s.samplers@, x) by {
                assert(store.spec_ref_counts()[x] == refs_of_parts(entries, x));
            }
            assert forall|x: int| #[trigger] refs_of_parts(entries, x) > 0 implies 0 <= x < cap
                && store.spec_occupied()[x] by {
                assert(store.spec_ref_counts()[x] == refs_of_parts(entries, x));
            }
            assert(parts_refs_match(store, entries));
        }
        Some(s)
    }

    /// Saving and loading loses nothing: the fields of a consistent store,
    /// with each sampler given by its capacity and its entries, pass the
    /// checks of [`Self::from_parts`].
    pub proof fn lemma_parts_round_trip(
        &self,
        parts: PointStoreParts<T>,
        caps: Seq<usize>,
        lists: Seq<Seq<(u64, usize)>>,
    )
        requires
            self.wf(),
            PointStore::<T>::from_parts_spec(parts).same_state(&self.spec_store()),
            caps.len() == self.spec_samplers().len(),
            lists.len() == self.spec_samplers().len(),
            forall|t: int|
                0 <= t < caps.len() ==> #[trigger] caps[t] == self.spec_samplers()[t].spec_capacity()
                    && lists[t].to_multiset() == self.spec_samplers()[t].spec_entries().to_multiset(),
        ensures
            PointStore::<T>::from_parts_spec(parts).wf(),
            forall|t: int| 0 <= t < caps.len() ==> 0 < #[trigger] caps[t] && lists[t].len() <= caps[t],
            parts_refs_match(PointStore::<T>::from_parts_spec(parts), lists),
    {
        broadcast use vstd::seq_lib::group_to_multiset_ensures;

        let st = self.spec_store();
        st.lemma_parts_round_trip(parts);
        let r = PointStore::<T>::from_parts_spec(parts);
        let smp = self.spec_samplers();
        assert forall|t: int| 0 <= t < caps.len() implies 0 < #[trigger] caps[t] && lists[t].len()
            <= caps[t] by {
            assert(smp[t].wf());
            smp[t].lemma_entries_len();
            assert(lists[t].to_multiset().len() == lists[t].len());
            assert(smp[t].spec_entries().to_multiset().len() == smp[t].spec_entries().len());
        }
        assert forall|t: int| 0 <= t < lists.len() implies (#[trigger] smp[t]).spec_entries().to_multiset()
            == lists[t].to_multiset() by {
            assert(caps[t] == smp[t].spec_capacity());
        }
        assert forall|x: int| #[trigger] refs_of_parts(lists, x) == refs_of(smp, x) by {
            lemma_refs_of_parts(smp, lists, x);
        }
        assert forall|x: int| 0 <= x < r.spec_capacity() implies #[trigger] r.spec_ref_counts()[x]
            == refs_of_parts(lists, x) by {
            assert(st.spec_ref_counts()[x] == refs_of(smp, x));
        }
        assert forall|x: int| #[trigger] refs_of_parts(lists, x) > 0 implies 0 <= x
            < r.spec_capacity() && r.spec_occupied()[x] by {
            assert(refs_of(smp, x) > 0);
        }
    }
}

} // verus!
