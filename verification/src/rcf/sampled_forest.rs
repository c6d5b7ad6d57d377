use vstd::prelude::*;

use crate::error::{RcfError, Result};
use crate::rcf::node_arena::NULL;
use crate::rcf::sampled_store::{
    lemma_add_point_counts, lemma_refs_update, point_count, recorded, refs_of, SampledStore,
};
use crate::rcf::sampler::Sampler;
use crate::rcf::tree_shape::{
    copy_added, copy_removed, first_inserted, lemma_valid_path_root, leaf_holds, leaf_mass_of,
    leaf_spliced, split_replaced, is_live, mass_ok_at, masses_ok, slot_mass, valid_path, TreeNode,
    TreeShape,
};

verus! {

/// The leaves of a tree hold each point exactly as often as the sampler
/// entries do.
pub open spec fn tree_follows<S>(nodes: Seq<Option<TreeNode<S>>>, entries: Seq<(u64, usize)>) -> bool {
    forall|p: int| #[trigger] leaf_mass_of(nodes, p) == point_count(entries, p)
}

/// A tree whose update has begun: when its sampler is full, the tree has
/// already let go of one copy of the point the sampler is about to evict.
pub open spec fn tree_follows_pending<S>(nodes: Seq<Option<TreeNode<S>>>, s: Sampler) -> bool {
    if s.spec_size() == s.spec_capacity() {
        forall|p: int|
            #[trigger] leaf_mass_of(nodes, p) + (if s.spec_entries()[0].1 == p {
                1nat
            } else {
                0nat
            }) == point_count(s.spec_entries(), p)
    } else {
        tree_follows(nodes, s.spec_entries())
    }
}

/// Copies of point `p` held by the leaves of all `trees`.
pub open spec fn tree_copies<S>(trees: Seq<TreeShape<S>>, p: int) -> nat
    decreases trees.len(),
{
    if trees.len() == 0 {
        0
    } else {
        tree_copies(trees.drop_last(), p) + leaf_mass_of(trees.last().spec_nodes(), p)
    }
}

/// Trees that each follow their sampler hold every point as often as the
/// samplers do together.
pub proof fn lemma_tree_copies<S>(trees: Seq<TreeShape<S>>, samplers: Seq<Sampler>, p: int)
    requires
        trees.len() == samplers.len(),
        forall|t: int|
            0 <= t < trees.len() ==> tree_follows(
                (#[trigger] trees[t]).spec_nodes(),
                samplers[t].spec_entries(),
            ),
    ensures
        tree_copies(trees, p) == refs_of(samplers, p),
    decreases trees.len(),
{
    if trees.len() > 0 {
        let n = trees.len() - 1;
        assert(tree_follows(trees[n].spec_nodes(), samplers[n].spec_entries()));
        assert(leaf_mass_of(trees[n].spec_nodes(), p) == point_count(samplers[n].spec_entries(), p));
        assert forall|t: int| 0 <= t < trees.drop_last().len() implies tree_follows(
            (#[trigger] trees.drop_last()[t]).spec_nodes(),
            samplers.drop_last()[t].spec_entries(),
        ) by {
            assert(trees.drop_last()[t] == trees[t]);
            assert(samplers.drop_last()[t] == samplers[t]);
        }
        lemma_tree_copies(trees.drop_last(), samplers.drop_last(), p);
    }
}

/// A prefix of the slots holds at most as many copies as all of them, and
/// one more slot adds its own.
proof fn lemma_leaf_mass_prefix<S>(s: Seq<Option<TreeNode<S>>>, k: int, p: int)
    requires
        0 <= k < s.len(),
    ensures
        leaf_mass_of(s.subrange(0, k + 1), p) == leaf_mass_of(s.subrange(0, k), p) + slot_mass(s[k], p),
        leaf_mass_of(s, p) >= leaf_mass_of(s.subrange(0, k + 1), p),
    decreases s.len(),
{
    assert(s.subrange(0, k + 1).drop_last() =~= s.subrange(0, k));
    if k + 1 == s.len() {
        assert(s.subrange(0, k + 1) =~= s);
    } else {
        assert(s.drop_last().subrange(0, k + 1) =~= s.subrange(0, k + 1));
        assert(s.drop_last().subrange(0, k) =~= s.subrange(0, k));
        assert(s.drop_last()[k] == s[k]);
        lemma_leaf_mass_prefix(s.drop_last(), k, p);
    }
}

/// The same for entry lists.
proof fn lemma_point_count_prefix(s: Seq<(u64, usize)>, k: int, p: int)
    requires
        0 <= k < s.len(),
    ensures
        point_count(s.subrange(0, k + 1), p) == point_count(s.subrange(0, k), p) + if s[k].1 == p {
            1nat
        } else {
            0nat
        },
        point_count(s, p) >= point_count(s.subrange(0, k + 1), p),
    decreases s.len(),
{
    assert(s.subrange(0, k + 1).drop_last() =~= s.subrange(0, k));
    if k + 1 == s.len() {
        assert(s.subrange(0, k + 1) =~= s);
    } else {
        assert(s.drop_last().subrange(0, k + 1) =~= s.subrange(0, k + 1));
        assert(s.drop_last().subrange(0, k) =~= s.subrange(0, k));
        assert(s.drop_last()[k] == s[k]);
        lemma_point_count_prefix(s.drop_last(), k, p);
    }
}

/// An entry list holds a point at most once per entry.
proof fn lemma_point_count_len(s: Seq<(u64, usize)>, p: int)
    ensures
        point_count(s, p) <= s.len(),
    decreases s.len(),
{
    if s.len() > 0 {
        lemma_point_count_len(s.drop_last(), p);
    }
}

/// Whether `tree` holds exactly the points of `sampler`, found by counting
/// both over the `cap` slots of the point store.
fn tree_follows_exec<S>(tree: &TreeShape<S>, sampler: &Sampler, cap: usize) -> (b: bool)
    requires
        tree.wf(),
        sampler.wf(),
        forall|p: int| #[trigger] point_count(sampler.spec_entries(), p) > 0 ==> 0 <= p < cap,
    ensures
        b == tree_follows(tree.spec_nodes(), sampler.spec_entries()),
{
    let ghost nodes = tree.spec_nodes();
    let ghost entries = sampler.spec_entries();
    proof {
        tree.lemma_wf();
        sampler.lemma_entries_len();
    }
    let pts = sampler.points();
    let size = pts.len();
    let mut tree_counts: Vec<usize> = Vec::new();
    let mut sample_counts: Vec<usize> = Vec::new();
    let mut i: usize = 0;
    while i < cap
        invariant
            i <= cap,
            tree_counts@.len() == i,
            sample_counts@.len() == i,
            forall|p: int| 0 <= p < i ==> #[trigger] tree_counts@[p] == 0,
            forall|p: int| 0 <= p < i ==> #[trigger] sample_counts@[p] == 0,
        decreases cap - i,
    {
        tree_counts.push(0);
        sample_counts.push(0);
        i = i + 1;
    }
    let n = tree.slot_count();
    let mut i: usize = 0;
    proof {
        assert forall|p: int| #[trigger] leaf_mass_of(nodes.subrange(0, 0), p) == 0 by {
            assert(nodes.subrange(0, 0).len() == 0);
        }
    }
    while i < n
        invariant
            n == nodes.len(),
            i <= n,
            nodes == tree.spec_nodes(),
            masses_ok(nodes),
            tree_counts@.len() == cap,
            entries == sampler.spec_entries(),
            entries.len() <= usize::MAX,
            forall|p: int| #[trigger] point_count(entries, p) > 0 ==> 0 <= p < cap,
            sample_counts@.len() == cap,
            forall|p: int| 0 <= p < cap ==> #[trigger] sample_counts@[p] == 0,
            forall|p: int| 0 <= p < cap ==> #[trigger] tree_counts@[p] == leaf_mass_of(nodes.subrange(0, i as int), p),
            forall|p: int| !(0 <= p < cap) ==> #[trigger] leaf_mass_of(nodes.subrange(0, i as int), p) == 0,
        decreases n - i,
    {
        proof {
            assert forall|p: int| #[trigger] leaf_mass_of(nodes.subrange(0, i as int + 1), p)
                == leaf_mass_of(nodes.subrange(0, i as int), p) + slot_mass(nodes[i as int], p) by {
                lemma_leaf_mass_prefix(nodes, i as int, p);
            }
        }
        match tree.slot(i) {
            Some(TreeNode::Leaf { point_idx, mass }) => {
                let q = *point_idx;
                let m = *mass;
                if q >= cap {
                    proof {
                        assert(is_live(nodes, i as int));
                        assert(mass_ok_at(nodes, i as int));
                        lemma_leaf_mass_prefix(nodes, i as int, q as int);
                        assert(point_count(entries, q as int) == 0);
                    }
                    return false;
                }
                if tree_counts[q] > usize::MAX - m {
                    proof {
                        lemma_leaf_mass_prefix(nodes, i as int, q as int);
                        lemma_point_count_len(entries, q as int);
                        assert(slot_mass(nodes[i as int], q as int) == m);
                        assert(leaf_mass_of(nodes, q as int) > usize::MAX);
                        assert(leaf_mass_of(nodes, q as int) != point_count(entries, q as int));
                    }
                    return false;
                }
                let c = tree_counts[q];
                tree_counts.set(q, c + m);
            },
            _ => {},
        }
        i = i + 1;
    }
    proof {
        assert(nodes.subrange(0, n as int) =~= nodes);
        assert(forall|p: int| 0 <= p < cap ==> #[trigger] tree_counts@[p] == leaf_mass_of(nodes, p));
        assert(forall|p: int| !(0 <= p < cap) ==> #[trigger] leaf_mass_of(nodes, p) == 0);
    }
    let mut j: usize = 0;
    proof {
        assert forall|p: int| #[trigger] point_count(entries.subrange(0, 0), p) == 0 by {
            assert(entries.subrange(0, 0).len() == 0);
        }
    }
    while j < size
        invariant
            size == entries.len(),
            pts@.len() == size,
            forall|x: int| 0 <= x < pts@.len() ==> pts@[x] == #[trigger] entries[x].1,
            j <= size,
            sample_counts@.len() == cap,
            forall|p: int| #[trigger] point_count(entries, p) > 0 ==> 0 <= p < cap,
            forall|p: int| 0 <= p < cap ==> #[trigger] sample_counts@[p] == point_count(entries.subrange(0, j as int), p),
            tree_counts@.len() == cap,
            forall|p: int| 0 <= p < cap ==> #[trigger] tree_counts@[p] == leaf_mass_of(nodes, p),
        decreases size - j,
    {
        let q = pts[j];
        proof {
            assert(entries[j as int].1 == q);
            lemma_point_count_prefix(entries, j as int, q as int);
            assert forall|p: int| #[trigger] point_count(entries.subrange(0, j as int + 1), p)
                == point_count(entries.subrange(0, j as int), p) + if entries[j as int].1 == p {
                1nat
            } else {
                0nat
            } by {
                lemma_point_count_prefix(entries, j as int, p);
            }
            lemma_point_count_len(entries.subrange(0, j as int), q as int);
        }
        let c = sample_counts[q];
        sample_counts.set(q, c + 1);
        j = j + 1;
    }
    proof {
        assert(entries.subrange(0, size as int) =~= entries);
    }
    let mut p: usize = 0;
    while p < cap
        invariant
            p <= cap,
            tree_counts@.len() == cap,
            sample_counts@.len() == cap,
            nodes == tree.spec_nodes(),
            entries == sampler.spec_entries(),
            forall|x: int| 0 <= x < cap ==> #[trigger] tree_counts@[x] == leaf_mass_of(nodes, x),
            forall|x: int| 0 <= x < cap ==> #[trigger] sample_counts@[x] == point_count(entries, x),
            forall|x: int| 0 <= x < p ==> leaf_mass_of(nodes, x) == #[trigger] point_count(entries, x),
        decreases cap - p,
    {
        if tree_counts[p] != sample_counts[p] {
            proof {
                assert(leaf_mass_of(nodes, p as int) != point_count(entries, p as int));
            }
            return false;
        }
        p = p + 1;
    }
    proof {
        assert forall|x: int| #[trigger] leaf_mass_of(nodes, x) == point_count(entries, x) by {
            if !(0 <= x < cap) {
                assert(leaf_mass_of(nodes, x) == 0);
                if point_count(entries, x) > 0 {
                    assert(0 <= x < cap);
                }
            }
        }
    }
    true
}

/// Sampler `s` admits a candidate: below capacity the warm-up policy
/// `is_initial` decides; at capacity a key below the largest sampled key
/// admits it.
pub open spec fn accepts(s: Sampler, is_initial: bool, key: u64) -> bool {
    if s.spec_size() == s.spec_capacity() {
        key < s.spec_entries()[0].0
    } else {
        is_initial
    }
}

/// `path` leads from the root of the nonempty `tree` to a leaf holding point
/// `e`.
pub open spec fn removal_ok<S>(tree: TreeShape<S>, path: Seq<usize>, e: usize) -> bool {
    &&& tree.spec_root() != NULL
    &&& valid_path(tree.spec_nodes(), tree.spec_root(), path)
    &&& leaf_holds(tree.spec_nodes(), path.last() as int, e as int)
}

/// How a new point enters a tree.
pub enum Insertion<S> {
    /// As the root leaf of an empty tree.
    First,
    /// As one more copy at the leaf that `path` leads to (an equal point is
    /// already there).
    Copy { path: Vec<usize> },
    /// As a new leaf beside `path[k]`, under a new internal node carrying
    /// `split`; the leaf goes left when `leaf_on_left`.
    Split { path: Vec<usize>, k: usize, leaf_on_left: bool, split: S },
}

/// The point-store slot that the tree holds once `ins` is done: the new
/// point, or the point of the leaf that takes the copy.
pub open spec fn insertion_kept<S>(tree: TreeShape<S>, ins: Insertion<S>, point_idx: usize) -> usize {
    match ins {
        Insertion::Copy { path } => match tree.spec_nodes()[path@.last() as int] {
            Some(TreeNode::Leaf { point_idx: q, .. }) => q,
            _ => point_idx,
        },
        _ => point_idx,
    }
}

/// The tree can take `ins`.
pub open spec fn insertion_ok<S>(tree: TreeShape<S>, ins: Insertion<S>) -> bool {
    match ins {
        Insertion::First => tree.spec_root() == NULL && tree.spec_nodes().len() + 1 < usize::MAX,
        Insertion::Copy { path } => valid_path(tree.spec_nodes(), tree.spec_root(), path@)
            && tree.spec_tree_mass() < usize::MAX,
        Insertion::Split { path, k, .. } => valid_path(tree.spec_nodes(), tree.spec_root(), path@)
            && k < path@.len() && tree.spec_tree_mass() < usize::MAX && tree.spec_nodes().len() + 2
            < usize::MAX,
    }
}

/// `post` is `pre` once `ins` is done with point `point_idx`, the tree
/// keeping `kept`.
pub open spec fn inserted<S>(
    pre: TreeShape<S>,
    post: TreeShape<S>,
    ins: Insertion<S>,
    point_idx: usize,
    kept: usize,
) -> bool {
    match ins {
        Insertion::First => exists|id: usize| #[trigger] first_inserted(pre, post, point_idx, id),
        Insertion::Copy { path } => copy_added(pre, post, path@, kept),
        Insertion::Split { path, k, leaf_on_left, split } => exists|leaf: usize, x: usize|
            #[trigger] leaf_spliced(pre, post, path@, k, point_idx, leaf_on_left, split, leaf, x),
    }
}

/// Removing one copy of the point that an insertion kept, from the leaf
/// that holds it, gives back the tree's mass and the copies of every point.
pub proof fn lemma_remove_undoes_insert<S>(
    pre: TreeShape<S>,
    mid: TreeShape<S>,
    post: TreeShape<S>,
    ins: Insertion<S>,
    point_idx: usize,
    path: Seq<usize>,
)
    requires
        pre.wf(),
        inserted(pre, mid, ins, point_idx, insertion_kept(pre, ins, point_idx)),
        copy_removed(mid, post, path),
        leaf_holds(mid.spec_nodes(), path.last() as int, insertion_kept(pre, ins, point_idx) as int),
    ensures
        post.spec_tree_mass() == pre.spec_tree_mass(),
        forall|p: int| #[trigger] leaf_mass_of(post.spec_nodes(), p) == leaf_mass_of(pre.spec_nodes(), p),
{
    let kept = insertion_kept(pre, ins, point_idx);
    pre.lemma_wf();
    assert(mid.spec_tree_mass() == pre.spec_tree_mass() + 1 && forall|p: int|
        #[trigger] leaf_mass_of(mid.spec_nodes(), p) == leaf_mass_of(pre.spec_nodes(), p) + if p
            == kept {
            1nat
        } else {
            0nat
        }) by {
        match ins {
            Insertion::First => {
                let id = choose|id: usize| #[trigger] first_inserted(pre, mid, point_idx, id);
            },
            Insertion::Copy { path } => {},
            Insertion::Split { path, k, leaf_on_left, split } => {
                let (leaf, x) = choose|leaf: usize, x: usize|
                    #[trigger] leaf_spliced(pre, mid, path@, k, point_idx, leaf_on_left, split, leaf, x);
            },
        }
    }
    assert forall|p: int| #[trigger] leaf_mass_of(post.spec_nodes(), p) == leaf_mass_of(
        pre.spec_nodes(),
        p,
    ) by {
        assert(leaf_holds(mid.spec_nodes(), path.last() as int, p) <==> p == kept);
    }
}

/// A forest's trees together with its samplers and point store: every tree
/// holds exactly the points that its sampler holds, so a point's reference
/// count is the number of leaf copies of it across the trees.
///
/// An update of one tree runs in two steps, [`SampledForest::begin_update`]
/// (which lets go of the evicted copy) and [`SampledForest::finish_update`]
/// (which inserts the new point and records it); between them the caller
/// recomputes what depends on the shape of that tree.
#[derive(Debug)]
pub struct SampledForest<T, S> {
    sampled: SampledStore<T>,
    trees: Vec<TreeShape<S>>,
    pending: Option<(usize, u64)>,
}

impl<T: Copy, S> SampledForest<T, S> {
    pub closed spec fn spec_sampled(&self) -> SampledStore<T> {
        self.sampled
    }

    pub closed spec fn spec_trees(&self) -> Seq<TreeShape<S>> {
        self.trees@
    }

    /// The tree whose update has begun, and the key it is recorded with.
    pub closed spec fn spec_pending(&self) -> Option<(usize, u64)> {
        self.pending
    }

    /// Tree `t` follows its sampler, allowing for a begun update.
    pub open spec fn tree_ok(&self, t: int) -> bool {
        let nodes = self.spec_trees()[t].spec_nodes();
        let s = self.spec_sampled().spec_samplers()[t];
        if self.spec_pending() matches Some((pt, _)) && pt == t {
            tree_follows_pending(nodes, s)
        } else {
            tree_follows(nodes, s.spec_entries())
        }
    }

    pub closed spec fn wf(&self) -> bool {
        &&& self.sampled.wf()
        &&& self.trees@.len() == self.sampled.spec_samplers().len()
        &&& forall|t: int| 0 <= t < self.trees@.len() ==> (#[trigger] self.trees@[t]).wf()
        &&& self.pending matches Some((pt, _)) ==> pt < self.trees@.len()
        &&& forall|t: int| 0 <= t < self.trees@.len() ==> #[trigger] self.tree_ok(t)
    }

    /// The invariant, for callers.
    pub proof fn lemma_wf(&self)
        requires
            self.wf(),
        ensures
            self.spec_sampled().wf(),
            self.spec_trees().len() == self.spec_sampled().spec_samplers().len(),
            forall|t: int| 0 <= t < self.spec_trees().len() ==> (#[trigger] self.spec_trees()[t]).wf(),
            self.spec_pending() matches Some((pt, _)) ==> pt < self.spec_trees().len(),
            forall|t: int| 0 <= t < self.spec_trees().len() ==> #[trigger] self.tree_ok(t),
    {
    }

    /// Between updates every tree holds exactly the points of its sampler,
    /// and a point's reference count is the number of copies of it held by
    /// the leaves of all trees; only stored points are held.
    pub proof fn lemma_trees_hold_the_sample(&self)
        requires
            self.wf(),
            self.spec_pending() is None,
        ensures
            forall|t: int, p: int|
                0 <= t < self.spec_trees().len() ==> #[trigger] leaf_mass_of(
                    self.spec_trees()[t].spec_nodes(),
                    p,
                ) == point_count(self.spec_sampled().spec_samplers()[t].spec_entries(), p),
            forall|p: int|
                0 <= p < self.spec_sampled().spec_store().spec_capacity() ==> #[trigger] self.spec_sampled().spec_store().spec_ref_counts()[p]
                    == tree_copies(self.spec_trees(), p),
            forall|p: int|
                #[trigger] tree_copies(self.spec_trees(), p) > 0 ==> 0 <= p
                    < self.spec_sampled().spec_store().spec_capacity()
                    && self.spec_sampled().spec_store().spec_occupied()[p],
    {
        let smp = self.sampled.spec_samplers();
        assert forall|t: int| 0 <= t < self.trees@.len() implies tree_follows(
            (#[trigger] self.trees@[t]).spec_nodes(),
            smp[t].spec_entries(),
        ) by {
            assert(self.tree_ok(t));
        }
        assert forall|t: int, p: int| 0 <= t < self.trees@.len() implies #[trigger] leaf_mass_of(
            self.trees@[t].spec_nodes(),
            p,
        ) == point_count(smp[t].spec_entries(), p) by {
            assert(tree_follows(self.trees@[t].spec_nodes(), smp[t].spec_entries()));
        }
        self.sampled.lemma_wf();
        assert forall|p: int| #[trigger] tree_copies(self.trees@, p) == refs_of(smp, p) by {
            lemma_tree_copies(self.trees@, smp, p);
        }
    }

    /// Empty trees and samplers over an empty point store (see
    /// [`SampledStore::new`]); `tree_slots` is a hint for each tree's arena.
    pub fn new(
        input_dim: usize,
        shingle_size: usize,
        store_capacity: usize,
        internal_shingling: bool,
        fill: T,
        num_trees: usize,
        sampler_capacity: usize,
        tree_slots: usize,
    ) -> (f: Self)
        requires
            input_dim * shingle_size <= usize::MAX,
            store_capacity * (input_dim * shingle_size) <= usize::MAX,
            sampler_capacity > 0,
        ensures
            f.wf(),
            f.spec_pending() is None,
            f.spec_sampled().spec_store().spec_dim() == input_dim * shingle_size,
            f.spec_sampled().spec_store().spec_input_dim() == input_dim,
            f.spec_sampled().spec_store().spec_internal_shingling() == internal_shingling,
            f.spec_sampled().spec_store().spec_capacity() == store_capacity,
            f.spec_sampled().spec_store().spec_size() == 0,
            f.spec_sampled().spec_store().spec_entries_seen() == 0,
            f.spec_sampled().spec_store().spec_next_free() == 0,
            f.spec_sampled().spec_store().spec_free_list() == Seq::<usize>::empty(),
            f.spec_trees().len() == num_trees,
            forall|t: int|
                0 <= t < num_trees ==> (#[trigger] f.spec_sampled().spec_samplers()[t]).spec_entries().len()
                    == 0 && f.spec_sampled().spec_samplers()[t].spec_size() == 0
                    && f.spec_sampled().spec_samplers()[t].spec_capacity() == sampler_capacity,
            forall|t: int|
                0 <= t < num_trees ==> (#[trigger] f.spec_trees()[t]).spec_root() == NULL
                    && f.spec_trees()[t].spec_nodes().len() == 0,
    {
        let sampled = SampledStore::new(
            input_dim,
            shingle_size,
            store_capacity,
            internal_shingling,
            fill,
            num_trees,
            sampler_capacity,
        );
        let mut trees: Vec<TreeShape<S>> = Vec::new();
        let mut k: usize = 0;
        while k < num_trees
            invariant
                k <= num_trees,
                trees@.len() == k,
                forall|t: int|
                    0 <= t < k ==> (#[trigger] trees@[t]).wf() && trees@[t].spec_root() == NULL
                        && trees@[t].spec_nodes().len() == 0,
            decreases num_trees - k,
        {
            trees.push(TreeShape::new(tree_slots));
            k = k + 1;
        }
        let f = SampledForest { sampled, trees, pending: None };
        proof {
            assert forall|t: int| 0 <= t < num_trees implies #[trigger] f.tree_ok(t) by {
                let smp = f.sampled.spec_samplers();
                assert(smp[t].spec_entries().len() == 0);
                assert forall|p: int| #[trigger] leaf_mass_of(f.trees@[t].spec_nodes(), p)
                    == point_count(smp[t].spec_entries(), p) by {}
            }
        }
        f
    }

    /// Put restored parts together; `None` unless there is one tree per
    /// sampler and every tree holds exactly the points of its sampler.
    pub fn from_parts(sampled: SampledStore<T>, trees: Vec<TreeShape<S>>) -> (r: Option<Self>)
        requires
            sampled.wf(),
            forall|t: int| 0 <= t < trees@.len() ==> (#[trigger] trees@[t]).wf(),
        ensures
            r is Some <==> trees@.len() == sampled.spec_samplers().len() && forall|t: int|
                0 <= t < trees@.len() ==> tree_follows(
                    (#[trigger] trees@[t]).spec_nodes(),
                    sampled.spec_samplers()[t].spec_entries(),
                ),
            r matches Some(f) ==> {
                &&& f.wf()
                &&& f.spec_sampled() == sampled
                &&& f.spec_trees() == trees@
                &&& f.spec_pending() is None
            },
    {
        if trees.len() != sampled.num_samplers() {
            return None;
        }
        let cap = sampled.store().capacity();
        proof {
            sampled.lemma_wf();
        }
        let mut t: usize = 0;
        while t < trees.len()
            invariant
                t <= trees@.len(),
                trees@.len() == sampled.spec_samplers().len(),
                sampled.wf(),
                cap == sampled.spec_store().spec_capacity(),
                forall|u: int| 0 <= u < trees@.len() ==> (#[trigger] trees@[u]).wf(),
                forall|u: int|
                    0 <= u < t ==> tree_follows(
                        (#[trigger] trees@[u]).spec_nodes(),
                        sampled.spec_samplers()[u].spec_entries(),
                    ),
            decreases trees@.len() - t,
        {
            proof {
                sampled.lemma_wf();
                let smp = sampled.spec_samplers();
                assert(smp[t as int].wf());
                assert forall|p: int| #[trigger] point_count(smp[t as int].spec_entries(), p) > 0 implies 0
                    <= p < cap by {
                    lemma_refs_update(smp, t as int, smp[t as int], p);
                    assert(refs_of(smp, p) > 0);
                }
            }
            if !tree_follows_exec(&trees[t], sampled.sampler(t), cap) {
                return None;
            }
            t = t + 1;
        }
        let f = SampledForest { sampled, trees, pending: None };
        proof {
            assert forall|u: int| 0 <= u < f.trees@.len() implies #[trigger] f.tree_ok(u) by {
                assert(tree_follows(f.trees@[u].spec_nodes(), f.sampled.spec_samplers()[u].spec_entries()));
            }
        }
        Some(f)
    }

    /// Saving and loading loses nothing: the parts of a forest between
    /// updates pass the checks of [`Self::from_parts`].
    pub proof fn lemma_parts_round_trip(&self)
        requires
            self.wf(),
            self.spec_pending() is None,
        ensures
            self.spec_sampled().wf(),
            forall|t: int| 0 <= t < self.spec_trees().len() ==> (#[trigger] self.spec_trees()[t]).wf(),
            self.spec_trees().len() == self.spec_sampled().spec_samplers().len(),
            forall|t: int|
                0 <= t < self.spec_trees().len() ==> tree_follows(
                    (#[trigger] self.spec_trees()[t]).spec_nodes(),
                    self.spec_sampled().spec_samplers()[t].spec_entries(),
                ),
    {
        assert forall|t: int| 0 <= t < self.trees@.len() implies tree_follows(
            (#[trigger] self.trees@[t]).spec_nodes(),
            self.sampled.spec_samplers()[t].spec_entries(),
        ) by {
            assert(self.tree_ok(t));
        }
    }

    /// The point store and the samplers.
    pub fn sampled(&self) -> (s: &SampledStore<T>)
        ensures
            *s == self.spec_sampled(),
    {
        &self.sampled
    }

    pub fn num_trees(&self) -> (n: usize)
        ensures
            n == self.spec_trees().len(),
    {
        self.trees.len()
    }

    /// The shape of tree `t`.
    pub fn tree(&self, t: usize) -> (r: &TreeShape<S>)
        requires
            t < self.spec_trees().len(),
        ensures
            *r == self.spec_trees()[t as int],
    {
        &self.trees[t]
    }

    /// The tree whose update has begun, and its sampling key.
    pub fn pending(&self) -> (r: Option<(usize, u64)>)
        ensures
            r == self.spec_pending(),
    {
        self.pending
    }

    /// Samplers and trees untouched, the tree invariant carries over.
    proof fn lemma_same_samplers(&self, old: &Self)
        requires
            old.wf(),
            self.sampled.wf(),
            self.sampled.spec_samplers() == old.sampled.spec_samplers(),
            self.trees@ == old.trees@,
            self.pending == old.pending,
        ensures
            self.wf(),
    {
        assert forall|t: int| 0 <= t < self.trees@.len() implies #[trigger] self.tree_ok(t) by {
            assert(old.tree_ok(t));
        }
    }

    /// Replace the split data of internal node `id` of tree `t` (see
    /// [`TreeShape::set_split`]); which points the tree holds is unchanged.
    pub fn set_split(&mut self, t: usize, id: usize, split: S) -> (r: Result<S>)
        requires
            old(self).wf(),
        ensures
            final(self).wf(),
            final(self).spec_sampled() == old(self).spec_sampled(),
            final(self).spec_pending() == old(self).spec_pending(),
            t >= old(self).spec_trees().len() ==> r == Err::<S, RcfError>(RcfError::IndexOutOfBounds(t)),
            t < old(self).spec_trees().len() ==> {
                let tree = old(self).spec_trees()[t as int];
                &&& r is Ok <==> is_live(tree.spec_nodes(), id as int) && tree.spec_nodes()[id as int]->0 is Internal
                &&& !is_live(tree.spec_nodes(), id as int) ==> r == Err::<S, RcfError>(RcfError::IndexOutOfBounds(id))
                &&& is_live(tree.spec_nodes(), id as int) && tree.spec_nodes()[id as int]->0 is Leaf ==> (
                r matches Err(RcfError::InvalidArgument(_)))
                &&& r matches Ok(prev) ==> {
                    &&& split_replaced(tree, final(self).spec_trees()[t as int], id, split, prev)
                    &&& final(self).spec_trees().len() == old(self).spec_trees().len()
                    &&& forall|u: int|
                        0 <= u < old(self).spec_trees().len() && u != t ==> #[trigger] final(self).spec_trees()[u]
                            == old(self).spec_trees()[u]
                }
            },
            r is Err ==> *final(self) == *old(self),
    {
        if t >= self.trees.len() {
            return Err(RcfError::IndexOutOfBounds(t));
        }
        let ghost old_trees = self.trees@;
        let ghost tree0 = self.trees@[t as int];
        if !self.trees[t].is_live_slot(id) {
            return Err(RcfError::IndexOutOfBounds(id));
        }
        let is_internal = match self.trees[t].node(id) {
            TreeNode::Internal { .. } => true,
            TreeNode::Leaf { .. } => false,
        };
        if !is_internal {
            return Err(RcfError::invalid_argument("a leaf has no split"));
        }
        let r = self.trees[t].set_split(id, split);
        proof {
            assert(r is Ok);
            assert forall|u: int| 0 <= u < self.trees@.len() implies #[trigger] self.tree_ok(u) by {
                assert(old(self).tree_ok(u));
                if u != t {
                    assert(self.trees@[u] == old_trees[u]);
                }
            }
        }
        r
    }

    /// Store a full point in a free slot (see
    /// [`SampledStore::add_validated`]).
    pub fn add_validated(&mut self, point: &[T]) -> (r: Result<usize>)
        requires
            old(self).wf(),
            point@.len() == old(self).spec_sampled().spec_store().spec_dim(),
            old(self).spec_sampled().spec_store().spec_entries_seen() < u64::MAX,
        ensures
            final(self).wf(),
            final(self).spec_trees() == old(self).spec_trees(),
            final(self).spec_pending() == old(self).spec_pending(),
            final(self).spec_sampled().spec_samplers() == old(self).spec_sampled().spec_samplers(),
            r is Ok <==> old(self).spec_sampled().spec_store().can_allocate(),
            r matches Err(e) ==> e is Overflow,
            r matches Ok(idx) ==> final(self).spec_sampled().spec_store().spec_added(
                &old(self).spec_sampled().spec_store(),
                idx,
                point@,
            ),
            r is Err ==> *final(self) == *old(self),
    {
        let ghost before = *self;
        let r = self.sampled.add_validated(point);
        proof {
            self.lemma_same_samplers(&before);
        }
        r
    }

    /// Store the current shingle in a free slot (see
    /// [`SampledStore::add_current_shingled`]).
    pub fn add_current_shingled(&mut self) -> (r: Result<usize>)
        requires
            old(self).wf(),
            old(self).spec_sampled().spec_store().spec_entries_seen() < u64::MAX,
        ensures
            final(self).wf(),
            final(self).spec_trees() == old(self).spec_trees(),
            final(self).spec_pending() == old(self).spec_pending(),
            final(self).spec_sampled().spec_samplers() == old(self).spec_sampled().spec_samplers(),
            r is Ok <==> old(self).spec_sampled().spec_store().can_allocate(),
            r matches Err(e) ==> e is Overflow,
            r matches Ok(idx) ==> final(self).spec_sampled().spec_store().spec_added(
                &old(self).spec_sampled().spec_store(),
                idx,
                old(self).spec_sampled().spec_store().spec_shingle(),
            ),
            r is Err ==> *final(self) == *old(self),
    {
        let ghost before = *self;
        let r = self.sampled.add_current_shingled();
        proof {
            self.lemma_same_samplers(&before);
        }
        r
    }

    /// Shift a base observation into the shingle (see
    /// [`SampledStore::advance_shingle`]).
    pub fn advance_shingle(&mut self, base: &[T]) -> (r: Result<()>)
        requires
            old(self).wf(),
            old(self).spec_sampled().spec_store().spec_input_dim() <= old(self).spec_sampled().spec_store().spec_dim(),
        ensures
            final(self).wf(),
            final(self).spec_trees() == old(self).spec_trees(),
            final(self).spec_pending() == old(self).spec_pending(),
            final(self).spec_sampled().spec_samplers() == old(self).spec_sampled().spec_samplers(),
            final(self).spec_sampled().spec_store().spec_points_unchanged(&old(self).spec_sampled().spec_store()),
            final(self).spec_sampled().spec_store().spec_entries_seen() == old(self).spec_sampled().spec_store().spec_entries_seen(),
            base@.len() == old(self).spec_sampled().spec_store().spec_input_dim() ==> {
                &&& r is Ok
                &&& final(self).spec_sampled().spec_store().spec_shingle() == old(self).spec_sampled().spec_store().spec_shingle().subrange(
                    old(self).spec_sampled().spec_store().spec_input_dim() as int,
                    old(self).spec_sampled().spec_store().spec_dim() as int,
                ) + base@
            },
            base@.len() != old(self).spec_sampled().spec_store().spec_input_dim() ==> {
                &&& r matches Err(e) && e matches RcfError::DimensionMismatch { expected, got }
                    && expected == old(self).spec_sampled().spec_store().spec_input_dim() && got == base@.len()
                &&& final(self).spec_sampled().spec_store().spec_shingle() == old(self).spec_sampled().spec_store().spec_shingle()
            },
    {
        let ghost before = *self;
        let r = self.sampled.advance_shingle(base);
        proof {
            self.lemma_same_samplers(&before);
        }
        r
    }

    /// Count an observation that is not stored.
    pub fn record_logical_add_without_storage(&mut self)
        requires
            old(self).wf(),
            old(self).spec_sampled().spec_store().spec_entries_seen() < u64::MAX,
        ensures
            final(self).wf(),
            final(self).spec_trees() == old(self).spec_trees(),
            final(self).spec_pending() == old(self).spec_pending(),
            final(self).spec_sampled().spec_samplers() == old(self).spec_sampled().spec_samplers(),
            final(self).spec_sampled().spec_store().spec_entries_seen() == old(self).spec_sampled().spec_store().spec_entries_seen() + 1,
            final(self).spec_sampled().spec_store().spec_points_unchanged(&old(self).spec_sampled().spec_store()),
            final(self).spec_sampled().spec_store().spec_shingle() == old(self).spec_sampled().spec_store().spec_shingle(),
    {
        let ghost before = *self;
        self.sampled.record_logical_add_without_storage();
        proof {
            self.lemma_same_samplers(&before);
        }
    }

    /// Free slot `idx` when no tree holds it (see
    /// [`SampledStore::release_if_unused`]).
    pub fn release_if_unused(&mut self, idx: usize) -> (released: bool)
        requires
            old(self).wf(),
        ensures
            final(self).wf(),
            final(self).spec_trees() == old(self).spec_trees(),
            final(self).spec_pending() == old(self).spec_pending(),
            final(self).spec_sampled().spec_samplers() == old(self).spec_sampled().spec_samplers(),
            released == (idx < old(self).spec_sampled().spec_store().spec_capacity() && refs_of(
                old(self).spec_sampled().spec_samplers(),
                idx as int,
            ) == 0),
            released ==> {
                &&& final(self).spec_sampled().spec_store().spec_occupied() == old(self).spec_sampled().spec_store().spec_occupied().update(
                    idx as int,
                    false,
                )
                &&& final(self).spec_sampled().spec_store().spec_ref_counts() == old(self).spec_sampled().spec_store().spec_ref_counts()
            },
            !released ==> *final(self) == *old(self),
    {
        let ghost before = *self;
        let released = self.sampled.release_if_unused(idx);
        proof {
            self.lemma_same_samplers(&before);
        }
        released
    }

    /// Begin updating tree `t` with a candidate of sampling key `key`
    /// (`is_initial`: the warm-up policy admits it). When the sampler does
    /// not accept it, nothing changes and the result is `false`. When the
    /// sampler is full, the tree first lets go of one copy of the point the
    /// sampler will evict, at the leaf that `removal` leads to.
    pub fn begin_update(&mut self, t: usize, is_initial: bool, key: u64, removal: &[usize]) -> (r: Result<bool>)
        requires
            old(self).wf(),
        ensures
            final(self).wf(),
            old(self).spec_pending() is Some ==> r matches Err(RcfError::InvalidArgument(_)),
            old(self).spec_pending() is None && t >= old(self).spec_trees().len() ==> r == Err::<
                bool,
                RcfError,
            >(RcfError::IndexOutOfBounds(t)),
            old(self).spec_pending() is None && t < old(self).spec_trees().len() ==> {
                let s = old(self).spec_sampled().spec_samplers()[t as int];
                let full = s.spec_size() == s.spec_capacity();
                &&& !accepts(s, is_initial, key) ==> r == Ok::<bool, RcfError>(false)
                &&& accepts(s, is_initial, key) && !full ==> r == Ok::<bool, RcfError>(true)
                &&& accepts(s, is_initial, key) && full ==> {
                    &&& r is Ok <==> removal_ok(
                        old(self).spec_trees()[t as int],
                        removal@,
                        s.spec_entries()[0].1,
                    )
                    &&& r is Err ==> r matches Err(RcfError::InvalidArgument(_))
                }
            },
            r == Ok::<bool, RcfError>(true) ==> {
                let s = old(self).spec_sampled().spec_samplers()[t as int];
                &&& final(self).spec_pending() == Some((t, key))
                &&& final(self).spec_sampled() == old(self).spec_sampled()
                &&& final(self).spec_trees().len() == old(self).spec_trees().len()
                &&& forall|u: int|
                    0 <= u < old(self).spec_trees().len() && u != t ==> #[trigger] final(self).spec_trees()[u] == old(self).spec_trees()[u]
                &&& s.spec_size() == s.spec_capacity() ==> copy_removed(
                    old(self).spec_trees()[t as int],
                    final(self).spec_trees()[t as int],
                    removal@,
                )
                &&& s.spec_size() < s.spec_capacity() ==> final(self).spec_trees()[t as int] == old(self).spec_trees()[t as int]
            },
            r != Ok::<bool, RcfError>(true) ==> *final(self) == *old(self),
    {
        if self.pending.is_some() {
            return Err(RcfError::invalid_argument("an update is already in progress"));
        }
        if t >= self.trees.len() {
            return Err(RcfError::IndexOutOfBounds(t));
        }
        proof {
            self.sampled.lemma_wf();
            assert(self.sampled.spec_samplers()[t as int].wf());
            self.sampled.spec_samplers()[t as int].lemma_entries_len();
        }
        let res = self.sampled.sampler(t).accept(is_initial, key);
        if !res.accepted {
            return Ok(false);
        }
        let ghost s = self.sampled.spec_samplers()[t as int];
        let ghost old_trees = self.trees@;
        match res.evicted {
            None => {
                self.pending = Some((t, key));
                proof {
                    assert forall|u: int| 0 <= u < self.trees@.len() implies #[trigger] self.tree_ok(u) by {
                        assert(old(self).tree_ok(u));
                    }
                }
                Ok(true)
            },
            Some(e) => {
                if !self.trees[t].check_path(removal) {
                    return Err(RcfError::invalid_argument("removal path does not lead to a leaf"));
                }
                let leaf = removal[removal.len() - 1];
                proof {
                    assert(removal@.last() == leaf);
                }
                let holds = match self.trees[t].node(leaf) {
                    TreeNode::Leaf { point_idx, .. } => *point_idx == e,
                    TreeNode::Internal { .. } => false,
                };
                if !holds {
                    return Err(RcfError::invalid_argument("removal path ends at another point"));
                }
                let ghost pre_tree = self.trees@[t as int];
                let removed = self.trees[t].remove(removal);
                proof {
                    assert(pre_tree.wf());
                    pre_tree.lemma_wf();
                    lemma_valid_path_root(pre_tree.spec_nodes(), pre_tree.spec_root(), removal@);
                    assert(removed is Ok);
                }
                self.pending = Some((t, key));
                proof {
                    let post_tree = self.trees@[t as int];
                    assert(copy_removed(pre_tree, post_tree, removal@));
                    assert forall|u: int| 0 <= u < self.trees@.len() implies #[trigger] self.tree_ok(u) by {
                        assert(old(self).tree_ok(u));
                        if u == t {
                            assert forall|p: int|
                                #[trigger] leaf_mass_of(post_tree.spec_nodes(), p) + (if s.spec_entries()[0].1
                                    == p {
                                    1nat
                                } else {
                                    0nat
                                }) == point_count(s.spec_entries(), p) by {
                                assert(leaf_mass_of(pre_tree.spec_nodes(), p) == point_count(
                                    s.spec_entries(),
                                    p,
                                ));
                                assert(leaf_mass_of(post_tree.spec_nodes(), p) + (if leaf_holds(
                                    pre_tree.spec_nodes(),
                                    removal@.last() as int,
                                    p,
                                ) {
                                    1nat
                                } else {
                                    0nat
                                }) == leaf_mass_of(pre_tree.spec_nodes(), p));
                            }
                        } else {
                            assert(self.trees@[u] == old_trees[u]);
                        }
                    }
                }
                Ok(true)
            },
        }
    }

    /// Finish the begun update: insert point `point_idx` into the tree as
    /// `insertion` says, and record in its sampler the point the tree keeps
    /// (evicting the root entry when the sampler is full). Returns the kept
    /// point-store slot.
    #[verifier::spinoff_prover]
    #[verifier::rlimit(40)]
    pub fn finish_update(&mut self, point_idx: usize, insertion: Insertion<S>) -> (r: Result<usize>)
        requires
            old(self).wf(),
        ensures
            final(self).wf(),
            old(self).spec_pending() is None ==> r matches Err(RcfError::InvalidArgument(_)),
            old(self).spec_pending() matches Some((t, key)) ==> {
                let tree = old(self).spec_trees()[t as int];
                let kept = insertion_kept(tree, insertion, point_idx);
                let st = old(self).spec_sampled().spec_store();
                let s = old(self).spec_sampled().spec_samplers()[t as int];
                let ev = if s.spec_size() == s.spec_capacity() {
                    Some(s.spec_entries()[0].1)
                } else {
                    None::<usize>
                };
                let copy_path_ok = insertion matches Insertion::Copy { path } ==> valid_path(
                    tree.spec_nodes(),
                    tree.spec_root(),
                    path@,
                );
                let stored = kept < st.spec_capacity() && st.spec_occupied()[kept as int];
                &&& r is Ok <==> insertion_ok(tree, insertion) && stored && st.spec_ref_counts()[kept as int]
                    < usize::MAX
                &&& (r matches Err(RcfError::Overflow(_))) <==> copy_path_ok && stored
                    && st.spec_ref_counts()[kept as int] == usize::MAX
                &&& r is Err && !(r matches Err(RcfError::Overflow(_))) ==> (r matches Err(
                    RcfError::InvalidArgument(_),
                ))
                &&& r matches Ok(k) ==> {
                    &&& k == kept
                    &&& final(self).spec_pending() is None
                    &&& inserted(tree, final(self).spec_trees()[t as int], insertion, point_idx, kept)
                    &&& final(self).spec_trees().len() == old(self).spec_trees().len()
                    &&& forall|u: int|
                        0 <= u < old(self).spec_trees().len() && u != t ==> #[trigger] final(self).spec_trees()[u]
                            == old(self).spec_trees()[u]
                    &&& recorded(old(self).spec_sampled(), final(self).spec_sampled(), t, kept, key, ev)
                }
            },
            r is Err ==> *final(self) == *old(self),
    {
        let (t, key) = match self.pending {
            Some(p) => p,
            None => {
                return Err(RcfError::invalid_argument("no update has begun"));
            },
        };
        proof {
            self.sampled.lemma_wf();
            self.sampled.spec_store().lemma_wf_lens();
        }
        let ghost tree0 = self.trees@[t as int];
        let ghost ins = insertion;
        let ghost old_trees = self.trees@;
        let kept = match &insertion {
            Insertion::Copy { path } => {
                if !self.trees[t].check_path(path.as_slice()) {
                    return Err(RcfError::invalid_argument("path does not lead from the root to a leaf"));
                }
                let leaf = path[path.len() - 1];
                proof {
                    assert(path@.last() == leaf);
                }
                match self.trees[t].node(leaf) {
                    TreeNode::Leaf { point_idx: q, .. } => *q,
                    TreeNode::Internal { .. } => vstd::pervasive::unreached(),
                }
            },
            _ => point_idx,
        };
        proof {
            assert(kept == insertion_kept(tree0, ins, point_idx));
        }
        if kept >= self.sampled.store().capacity() || !self.sampled.store().is_occupied(kept) {
            return Err(RcfError::invalid_argument("the kept point is not stored"));
        }
        if self.sampled.store().ref_count(kept) == usize::MAX {
            return Err(RcfError::overflow("reference count overflow"));
        }
        let tree_mass = self.trees[t].tree_mass();
        let slots = self.trees[t].slot_count();
        let can_take = match &insertion {
            Insertion::First => self.trees[t].root() == NULL && slots < usize::MAX - 1,
            Insertion::Copy { .. } => tree_mass < usize::MAX,
            Insertion::Split { path, k, .. } => self.trees[t].check_path(path.as_slice()) && *k
                < path.len() && tree_mass < usize::MAX && slots < usize::MAX - 2,
        };
        if !can_take {
            return Err(RcfError::invalid_argument("the tree cannot take the insertion"));
        }
        let inserted_ok = match insertion {
            Insertion::First => {
                let r = self.trees[t].insert_first(point_idx);
                proof {
                    if let Ok(id) = r {
                        assert(first_inserted(tree0, self.trees@[t as int], point_idx, id));
                    }
                }
                r.is_ok()
            },
            Insertion::Copy { path } => {
                let r = self.trees[t].add_copy(path.as_slice());
                r.is_ok()
            },
            Insertion::Split { path, k, leaf_on_left, split } => {
                let r = self.trees[t].insert_split(path.as_slice(), k, point_idx, leaf_on_left, split);
                proof {
                    if let Ok((leaf, x)) = r {
                        assert(leaf_spliced(
                            tree0,
                            self.trees@[t as int],
                            path@,
                            k,
                            point_idx,
                            leaf_on_left,
                            split,
                            leaf,
                            x,
                        ));
                    }
                }
                r.is_ok()
            },
        };
        proof {
            assert(inserted_ok);
        }
        let ghost tree1 = self.trees@[t as int];
        let ghost sampled0 = self.sampled;
        let ghost s = self.sampled.spec_samplers()[t as int];
        let recorded_ev = self.sampled.record(t, kept, key);
        proof {
            assert(recorded_ev is Ok);
        }
        self.pending = None;
        proof {
            let s2 = self.sampled.spec_samplers()[t as int];
            let full = s.spec_size() == s.spec_capacity();
            assert(s.wf());
            s.lemma_entries_len();
            assert(inserted(tree0, tree1, ins, point_idx, kept));
            assert forall|p: int| #[trigger] leaf_mass_of(tree1.spec_nodes(), p) == leaf_mass_of(
                tree0.spec_nodes(),
                p,
            ) + if p == kept {
                1nat
            } else {
                0nat
            } by {
                match ins {
                    Insertion::First => {
                        let id = choose|id: usize| #[trigger] first_inserted(tree0, tree1, point_idx, id);
                    },
                    Insertion::Copy { path } => {},
                    Insertion::Split { path, k, leaf_on_left, split } => {
                        let (leaf, x) = choose|leaf: usize, x: usize|
                            #[trigger] leaf_spliced(tree0, tree1, path@, k, point_idx, leaf_on_left, split, leaf, x);
                    },
                }
            }
            assert forall|u: int| 0 <= u < self.trees@.len() implies #[trigger] self.tree_ok(u) by {
                assert(old(self).tree_ok(u));
                if u == t {
                    assert forall|p: int| #[trigger] leaf_mass_of(tree1.spec_nodes(), p) == point_count(
                        s2.spec_entries(),
                        p,
                    ) by {
                        lemma_add_point_counts(s.spec_entries(), s2.spec_entries(), full, key, kept, p);
                        assert(leaf_mass_of(tree1.spec_nodes(), p) == leaf_mass_of(tree0.spec_nodes(), p)
                            + if p == kept {
                            1nat
                        } else {
                            0nat
                        });
                    }
                } else {
                    assert(self.trees@[u] == old_trees[u]);
                    assert(self.sampled.spec_samplers()[u] == sampled0.spec_samplers()[u]);
                }
            }
        }
        Ok(kept)
    }
}

} // verus!
