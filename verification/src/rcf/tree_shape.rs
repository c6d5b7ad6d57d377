use vstd::prelude::*;

use crate::error::{RcfError, Result};
use crate::rcf::node_arena::{NodeArena, NULL};

verus! {

/// A node of a random cut tree.
///
/// A leaf refers to a point-store slot and counts how many copies of that
/// point it holds; an internal node has two children, the number of points
/// below it, and the split data `S` (cut and bounding box) kept by the caller.
#[derive(Clone, Debug)]
pub enum TreeNode<S> {
    Leaf { point_idx: usize, mass: usize },
    Internal { left: usize, right: usize, mass: usize, split: S },
}

impl<S> TreeNode<S> {
    pub open spec fn spec_mass(self) -> int {
        match self {
            TreeNode::Leaf { mass, .. } => mass as int,
            TreeNode::Internal { mass, .. } => mass as int,
        }
    }

    /// Number of points in the subtree (copies included).
    pub fn mass(&self) -> (m: usize)
        ensures
            m == self.spec_mass(),
    {
        match self {
            TreeNode::Leaf { mass, .. } => *mass,
            TreeNode::Internal { mass, .. } => *mass,
        }
    }

    /// The node is a leaf.
    pub fn is_leaf(&self) -> (b: bool)
        ensures
            b == self is Leaf,
    {
        match self {
            TreeNode::Leaf { .. } => true,
            TreeNode::Internal { .. } => false,
        }
    }
}

/// The node stored in slot `i` is live.
pub open spec fn is_live<S>(nodes: Seq<Option<TreeNode<S>>>, i: int) -> bool {
    0 <= i < nodes.len() && nodes[i] is Some
}

/// The mass of the node in slot `i`.
pub open spec fn mass_at<S>(nodes: Seq<Option<TreeNode<S>>>, i: int) -> int {
    nodes[i]->0.spec_mass()
}

/// Slot `c` is a child of the live internal node in slot `p`.
pub open spec fn is_child<S>(nodes: Seq<Option<TreeNode<S>>>, c: int, p: int) -> bool {
    &&& is_live(nodes, p)
    &&& match nodes[p]->0 {
        TreeNode::Internal { left, right, .. } => c == left || c == right,
        TreeNode::Leaf { .. } => false,
    }
}

/// The children of the node in slot `i` are two distinct live slots.
pub open spec fn links_ok_at<S>(nodes: Seq<Option<TreeNode<S>>>, i: int) -> bool {
    match nodes[i]->0 {
        TreeNode::Internal { left, right, .. } => {
            &&& is_live(nodes, left as int)
            &&& is_live(nodes, right as int)
            &&& left != right
        },
        TreeNode::Leaf { .. } => true,
    }
}

/// The node in slot `i` has positive mass, and an internal node's mass is
/// the sum of its children's.
pub open spec fn mass_ok_at<S>(nodes: Seq<Option<TreeNode<S>>>, i: int) -> bool {
    &&& mass_at(nodes, i) >= 1
    &&& match nodes[i]->0 {
        TreeNode::Internal { left, right, mass, .. } => mass == mass_at(nodes, left as int)
            + mass_at(nodes, right as int),
        TreeNode::Leaf { .. } => true,
    }
}

/// Tree links: children are live and distinct, no slot has two parents, and
/// the root is nobody's child.
pub open spec fn links_ok<S>(nodes: Seq<Option<TreeNode<S>>>, root: usize) -> bool {
    &&& nodes.len() < usize::MAX
    &&& root != NULL ==> is_live(nodes, root as int)
    &&& forall|i: int| #[trigger] is_live(nodes, i) ==> links_ok_at(nodes, i)
    &&& forall|c: int, p: int, q: int|
        #[trigger] is_child(nodes, c, p) && #[trigger] is_child(nodes, c, q) ==> p == q
    &&& forall|p: int| !#[trigger] is_child(nodes, root as int, p)
}

/// Every live node satisfies [`mass_ok_at`].
pub open spec fn masses_ok<S>(nodes: Seq<Option<TreeNode<S>>>) -> bool {
    forall|i: int| #[trigger] is_live(nodes, i) ==> mass_ok_at(nodes, i)
}

/// Step `k` of `path` goes from a node to one of its children.
pub open spec fn path_step<S>(nodes: Seq<Option<TreeNode<S>>>, path: Seq<usize>, k: int) -> bool {
    is_child(nodes, path[k + 1] as int, path[k] as int)
}

/// The first `n` entries of `path` descend from parent to child.
pub open spec fn is_chain<S>(nodes: Seq<Option<TreeNode<S>>>, path: Seq<usize>, n: int) -> bool {
    forall|k: int| 0 <= k < n - 1 ==> #[trigger] path_step(nodes, path, k)
}

/// `path` descends from `root` to a live leaf.
pub open spec fn valid_path<S>(nodes: Seq<Option<TreeNode<S>>>, root: usize, path: Seq<usize>) -> bool {
    &&& path.len() >= 1
    &&& path[0] == root
    &&& is_chain(nodes, path, path.len() as int)
    &&& is_live(nodes, path.last() as int)
    &&& nodes[path.last() as int]->0 is Leaf
}

/// `a` and `b` are the same node but for their masses.
pub open spec fn same_skel<S>(a: TreeNode<S>, b: TreeNode<S>) -> bool {
    match a {
        TreeNode::Leaf { point_idx, .. } => b matches TreeNode::Leaf { point_idx: p2, .. } && p2
            == point_idx,
        TreeNode::Internal { left, right, split, .. } => b matches TreeNode::Internal {
            left: l2,
            right: r2,
            split: s2,
            ..
        } && l2 == left && r2 == right && s2 == split,
    }
}

/// `post` is `pre` with the mass of each of `path[0..m)` changed by `d`.
pub open spec fn bumped_along<S>(
    pre: Seq<Option<TreeNode<S>>>,
    post: Seq<Option<TreeNode<S>>>,
    path: Seq<usize>,
    m: int,
    d: int,
) -> bool {
    &&& pre.len() == post.len()
    &&& forall|i: int|
        0 <= i < pre.len() && !path.subrange(0, m).contains(i as usize) ==> #[trigger] post[i]
            == pre[i]
    &&& forall|j: int|
        0 <= j < m ==> {
            &&& post[#[trigger] path[j] as int] is Some
            &&& pre[path[j] as int] is Some
            &&& same_skel(pre[path[j] as int]->0, post[path[j] as int]->0)
            &&& mass_at(post, path[j] as int) == mass_at(pre, path[j] as int) + d
        }
}

/// The child of internal `n` other than `c`.
pub open spec fn other_child<S>(n: TreeNode<S>, c: usize) -> usize {
    match n {
        TreeNode::Internal { left, right, .. } => if left == c {
            right
        } else {
            left
        },
        TreeNode::Leaf { .. } => NULL,
    }
}

/// Internal `n` with its child `from` replaced by `to`.
pub open spec fn relink<S>(n: TreeNode<S>, from: usize, to: usize) -> TreeNode<S> {
    match n {
        TreeNode::Internal { left, right, mass, split } => if left == from {
            TreeNode::Internal { left: to, right, mass, split }
        } else {
            TreeNode::Internal { left, right: to, mass, split }
        },
        TreeNode::Leaf { .. } => n,
    }
}

/// Copies of point `p` held by slot `n`: the mass of a leaf holding `p`.
pub open spec fn slot_mass<S>(n: Option<TreeNode<S>>, p: int) -> nat {
    match n {
        Some(TreeNode::Leaf { point_idx, mass }) => if point_idx == p {
            mass as nat
        } else {
            0
        },
        _ => 0,
    }
}

/// Copies of point `p` held by the live leaves of `nodes`.
pub open spec fn leaf_mass_of<S>(nodes: Seq<Option<TreeNode<S>>>, p: int) -> nat
    decreases nodes.len(),
{
    if nodes.len() == 0 {
        0
    } else {
        leaf_mass_of(nodes.drop_last(), p) + slot_mass(nodes.last(), p)
    }
}

/// Slot `i` holds a leaf for point `p`.
pub open spec fn leaf_holds<S>(nodes: Seq<Option<TreeNode<S>>>, i: int, p: int) -> bool {
    nodes[i] matches Some(TreeNode::Leaf { point_idx, .. }) && point_idx == p
}

/// Node sequences that agree on leaf copies except at slot `j` differ in
/// their totals by the difference at `j`.
pub proof fn lemma_leaf_mass_except<S>(a: Seq<Option<TreeNode<S>>>, b: Seq<Option<TreeNode<S>>>, j: int, p: int)
    requires
        a.len() == b.len(),
        forall|i: int| 0 <= i < a.len() && i != j ==> slot_mass(#[trigger] b[i], p) == slot_mass(a[i], p),
    ensures
        0 <= j < a.len() ==> leaf_mass_of(b, p) + slot_mass(a[j], p) == leaf_mass_of(a, p) + slot_mass(b[j], p),
        !(0 <= j < a.len()) ==> leaf_mass_of(b, p) == leaf_mass_of(a, p),
    decreases a.len(),
{
    if a.len() > 0 {
        let n = a.len() - 1;
        assert forall|i: int| 0 <= i < a.drop_last().len() && i != j implies slot_mass(
            #[trigger] b.drop_last()[i],
            p,
        ) == slot_mass(a.drop_last()[i], p) by {
            assert(b.drop_last()[i] == b[i]);
            assert(a.drop_last()[i] == a[i]);
        }
        lemma_leaf_mass_except(a.drop_last(), b.drop_last(), j, p);
        if j != n {
            assert(slot_mass(b[n], p) == slot_mass(a[n], p));
        }
        if 0 <= j < n {
            assert(a.drop_last()[j] == a[j]);
            assert(b.drop_last()[j] == b[j]);
        }
    }
}

/// Appending a slot adds its copies.
pub proof fn lemma_leaf_mass_push<S>(a: Seq<Option<TreeNode<S>>>, v: Option<TreeNode<S>>, p: int)
    ensures
        leaf_mass_of(a.push(v), p) == leaf_mass_of(a, p) + slot_mass(v, p),
{
    assert(a.push(v).drop_last() =~= a);
}

/// Storing a node in a free or new slot adds its copies.
pub proof fn lemma_leaf_mass_put<S>(s: Seq<Option<TreeNode<S>>>, id: int, n: TreeNode<S>, p: int)
    requires
        0 <= id <= s.len(),
        id < s.len() ==> s[id] is None,
    ensures
        leaf_mass_of(put(s, id, n), p) == leaf_mass_of(s, p) + slot_mass(Some(n), p),
{
    if id < s.len() {
        lemma_leaf_mass_except(s, put(s, id, n), id, p);
    } else {
        lemma_leaf_mass_push(s, Some(n), p);
    }
}

/// Changing the masses of internal nodes, and of at most one leaf, moves
/// leaf copies only at that leaf.
pub proof fn lemma_leaf_mass_bumped<S>(
    pre: Seq<Option<TreeNode<S>>>,
    post: Seq<Option<TreeNode<S>>>,
    path: Seq<usize>,
    m: int,
    d: int,
    j: int,
    p: int,
)
    requires
        0 <= m <= path.len(),
        pre.len() < usize::MAX,
        bumped_along(pre, post, path, m, d),
        forall|t: int| 0 <= t < m && path[t] != j ==> pre[#[trigger] path[t] as int]->0 is Internal,
    ensures
        0 <= j < pre.len() ==> leaf_mass_of(post, p) + slot_mass(pre[j], p) == leaf_mass_of(pre, p) + slot_mass(post[j], p),
        !(0 <= j < pre.len()) ==> leaf_mass_of(post, p) == leaf_mass_of(pre, p),
{
    let pm = path.subrange(0, m);
    assert forall|i: int| 0 <= i < pre.len() && i != j implies slot_mass(#[trigger] post[i], p)
        == slot_mass(pre[i], p) by {
        if pm.contains(i as usize) {
            let t = choose|t: int| 0 <= t < m && pm[t] == i as usize;
            assert(path[t] == i as usize);
            assert(pre[i]->0 is Internal);
            assert(same_skel(pre[i]->0, post[i]->0));
            match post[i]->0 {
                TreeNode::Internal { .. } => {},
                TreeNode::Leaf { .. } => {},
            }
        } else {
            assert(post[i] == pre[i]);
        }
    }
    lemma_leaf_mass_except(pre, post, j, p);
}

/// The integer structure of a random cut tree: nodes in an arena, each
/// internal node's mass the sum of its children's, and the root's mass the
/// number of points in the tree.
#[derive(Debug)]
pub struct TreeShape<S> {
    root: usize,
    tree_mass: usize,
    arena: NodeArena<TreeNode<S>>,
}

impl<S> TreeShape<S> {
    pub closed spec fn spec_nodes(&self) -> Seq<Option<TreeNode<S>>> {
        self.arena.spec_nodes()
    }

    /// Slot of the root, or [`NULL`] for an empty tree.
    pub closed spec fn spec_root(&self) -> usize {
        self.root
    }

    /// Number of points in the tree, copies included.
    pub closed spec fn spec_tree_mass(&self) -> nat {
        self.tree_mass as nat
    }

    pub closed spec fn wf(&self) -> bool {
        &&& self.arena.wf()
        &&& links_ok(self.arena.spec_nodes(), self.root)
        &&& masses_ok(self.arena.spec_nodes())
        &&& (self.root == NULL) == (self.tree_mass == 0)
        &&& self.root != NULL ==> mass_at(self.arena.spec_nodes(), self.root as int)
            == self.tree_mass
    }

    /// The wf facts a caller may rely on.
    pub proof fn lemma_wf(&self)
        requires
            self.wf(),
        ensures
            links_ok(self.spec_nodes(), self.spec_root()),
            masses_ok(self.spec_nodes()),
            (self.spec_root() == NULL) == (self.spec_tree_mass() == 0),
            self.spec_root() != NULL ==> mass_at(self.spec_nodes(), self.spec_root() as int)
                == self.spec_tree_mass(),
    {
    }

    /// An empty tree; `initial_slots` is a hint for the arena.
    pub fn new(initial_slots: usize) -> (t: Self)
        ensures
            t.wf(),
            t.spec_root() == NULL,
            t.spec_tree_mass() == 0,
            t.spec_nodes().len() == 0,
    {
        TreeShape { root: NULL, tree_mass: 0, arena: NodeArena::new(initial_slots) }
    }

    pub fn root(&self) -> (r: usize)
        ensures
            r == self.spec_root(),
    {
        self.root
    }

    pub fn tree_mass(&self) -> (m: usize)
        ensures
            m == self.spec_tree_mass(),
    {
        self.tree_mass
    }

    /// Whether the tree holds no point.
    pub fn is_empty(&self) -> (b: bool)
        requires
            self.wf(),
        ensures
            b == (self.spec_root() == NULL),
            b == (self.spec_tree_mass() == 0),
    {
        self.root == NULL
    }

    /// Number of arena slots, freed ones included.
    pub fn slot_count(&self) -> (n: usize)
        ensures
            n == self.spec_nodes().len(),
    {
        self.arena.slot_count()
    }

    /// Whether slot `id` holds a live node.
    pub fn is_live_slot(&self, id: usize) -> (b: bool)
        requires
            self.wf(),
        ensures
            b == is_live(self.spec_nodes(), id as int),
    {
        if id >= self.arena.slot_count() {
            false
        } else {
            self.arena.is_live(id)
        }
    }

    /// The live node in slot `id`.
    pub fn node(&self, id: usize) -> (n: &TreeNode<S>)
        requires
            is_live(self.spec_nodes(), id as int),
        ensures
            Some(*n) == self.spec_nodes()[id as int],
    {
        self.arena.get(id)
    }

    /// Whether `path` descends from the root to a live leaf.
    pub fn check_path(&self, path: &[usize]) -> (b: bool)
        requires
            self.wf(),
        ensures
            b == valid_path(self.spec_nodes(), self.spec_root(), path@),
    {
        let ghost nodes = self.spec_nodes();
        if path.len() == 0 || path[0] != self.root {
            return false;
        }
        let mut k: usize = 0;
        while k + 1 < path.len()
            invariant
                self.wf(),
                nodes == self.spec_nodes(),
                path@.len() >= 1,
                path@[0] == self.root,
                k < path@.len(),
                is_chain(nodes, path@, k as int + 1),
                k == 0 || is_live(nodes, path@[k as int] as int),
            decreases path.len() - k,
        {
            let cur = path[k];
            let next = path[k + 1];
            if !self.is_live_slot(cur) {
                proof {
                    assert(!path_step(nodes, path@, k as int));
                }
                return false;
            }
            let is_step = match self.arena.get(cur) {
                TreeNode::Internal { left, right, .. } => *left == next || *right == next,
                TreeNode::Leaf { .. } => false,
            };
            if !is_step {
                proof {
                    assert(!path_step(nodes, path@, k as int));
                }
                return false;
            }
            proof {
                assert(path_step(nodes, path@, k as int));
                assert forall|t: int| 0 <= t < k + 1 implies #[trigger] path_step(
                    nodes,
                    path@,
                    t,
                ) by {
                    if t < k {
                        assert(path_step(nodes, path@, t));
                    }
                }
                assert(links_ok_at(nodes, cur as int));
            }
            k = k + 1;
        }
        let last = path[path.len() - 1];
        if !self.is_live_slot(last) {
            return false;
        }
        match self.arena.get(last) {
            TreeNode::Leaf { .. } => true,
            TreeNode::Internal { .. } => false,
        }
    }
}

impl<S> TreeShape<S> {
    /// Change the mass of each node in `path[0..m)` by one (up or down).
    fn bump_masses(&mut self, path: &[usize], m: usize, up: bool)
        requires
            old(self).arena.wf(),
            m <= path@.len(),
            forall|j: int| 0 <= j < m ==> is_live(old(self).spec_nodes(), #[trigger] path@[j] as int),
            forall|j: int, k: int| 0 <= j < k < m ==> #[trigger] path@[j] != #[trigger] path@[k],
            forall|j: int|
                0 <= j < m ==> {
                    &&& up ==> mass_at(old(self).spec_nodes(), #[trigger] path@[j] as int) < usize::MAX
                    &&& !up ==> mass_at(old(self).spec_nodes(), path@[j] as int) >= 1
                },
        ensures
            final(self).arena.wf(),
            final(self).root == old(self).root,
            final(self).tree_mass == old(self).tree_mass,
            final(self).arena.spec_free() == old(self).arena.spec_free(),
            bumped_along(
                old(self).spec_nodes(),
                final(self).spec_nodes(),
                path@,
                m as int,
                if up { 1int } else { -1int },
            ),
    {
        let ghost pre = self.spec_nodes();
        let ghost d: int = if up { 1int } else { -1int };
        let mut j: usize = 0;
        while j < m
            invariant
                self.arena.wf(),
                self.root == old(self).root,
                self.tree_mass == old(self).tree_mass,
                self.arena.spec_free() == old(self).arena.spec_free(),
                pre == old(self).spec_nodes(),
                d == (if up { 1int } else { -1int }),
                j <= m,
                m <= path@.len(),
                forall|t: int| 0 <= t < m ==> is_live(pre, #[trigger] path@[t] as int),
                forall|a: int, b: int| 0 <= a < b < m ==> #[trigger] path@[a] != #[trigger] path@[b],
                forall|t: int|
                    0 <= t < m ==> {
                        &&& up ==> mass_at(pre, #[trigger] path@[t] as int) < usize::MAX
                        &&& !up ==> mass_at(pre, path@[t] as int) >= 1
                    },
                bumped_along(pre, self.spec_nodes(), path@, j as int, d),
            decreases m - j,
        {
            let id = path[j];
            let ghost cur = self.spec_nodes();
            proof {
                assert(is_live(pre, id as int));
                assert(!path@.subrange(0, j as int).contains(id)) by {
                    if path@.subrange(0, j as int).contains(id) {
                        let t = choose|t: int|
                            0 <= t < j && path@.subrange(0, j as int)[t] == id;
                        assert(path@[t] == id);
                    }
                }
                assert(cur[id as int] == pre[id as int]);
            }
            let old_node = self.arena.replace(id, TreeNode::Leaf { point_idx: 0, mass: 0 });
            let new_node = match old_node {
                TreeNode::Leaf { point_idx, mass } => TreeNode::Leaf {
                    point_idx,
                    mass: if up { mass + 1 } else { mass - 1 },
                },
                TreeNode::Internal { left, right, mass, split } => TreeNode::Internal {
                    left,
                    right,
                    mass: if up { mass + 1 } else { mass - 1 },
                    split,
                },
            };
            self.arena.replace(id, new_node);
            proof {
                let post = self.spec_nodes();
                assert(post == cur.update(id as int, Some(new_node)));
                assert(path@.subrange(0, j as int + 1) =~= path@.subrange(0, j as int).push(id));
                assert forall|i: int|
                    0 <= i < pre.len() && !path@.subrange(0, j as int + 1).contains(
                        i as usize,
                    ) implies #[trigger] post[i] == pre[i] by {
                    if i != id {
                        if path@.subrange(0, j as int).contains(i as usize) {
                            let t = choose|t: int|
                                0 <= t < j && path@.subrange(0, j as int)[t] == i as usize;
                            assert(path@.subrange(0, j as int + 1)[t] == i as usize);
                        }
                        assert(post[i] == cur[i]);
                    } else {
                        assert(path@.subrange(0, j as int + 1)[j as int] == id);
                    }
                }
                assert forall|t: int| 0 <= t < j + 1 implies {
                    &&& post[#[trigger] path@[t] as int] is Some
                    &&& pre[path@[t] as int] is Some
                    &&& same_skel(pre[path@[t] as int]->0, post[path@[t] as int]->0)
                    &&& mass_at(post, path@[t] as int) == mass_at(pre, path@[t] as int) + d
                } by {
                    if t < j {
                        assert(path@[t] != id);
                        assert(post[path@[t] as int] == cur[path@[t] as int]);
                    }
                }
            }
            j = j + 1;
        }
    }
}

/// What [`TreeShape::insert_first`] does: the leaf for `point_idx`, in slot
/// `id`, becomes the root and sole point of the tree.
pub open spec fn first_inserted<S>(pre: TreeShape<S>, post: TreeShape<S>, point_idx: usize, id: usize) -> bool {
    &&& pre.spec_root() == NULL
    &&& post.spec_nodes() == put(pre.spec_nodes(), id as int, TreeNode::<S>::Leaf { point_idx, mass: 1 })
    &&& post.spec_root() == id
    &&& post.spec_tree_mass() == 1
    &&& post.spec_nodes()[id as int] == Some(TreeNode::<S>::Leaf { point_idx, mass: 1 })
    &&& forall|p: int| #[trigger] leaf_mass_of(post.spec_nodes(), p) == leaf_mass_of(
        pre.spec_nodes(),
        p,
    ) + if p == point_idx {
        1nat
    } else {
        0nat
    }
}

/// What [`TreeShape::add_copy`] does: the leaf at the end of `path`, which
/// holds `point_idx`, and every node above it gain one unit of mass.
pub open spec fn copy_added<S>(pre: TreeShape<S>, post: TreeShape<S>, path: Seq<usize>, point_idx: usize) -> bool {
    &&& pre.spec_nodes()[path.last() as int] matches Some(
        TreeNode::Leaf { point_idx: p, .. },
    ) && p == point_idx
    &&& post.spec_root() == pre.spec_root()
    &&& post.spec_tree_mass() == pre.spec_tree_mass() + 1
    &&& bumped_along(
        pre.spec_nodes(),
        post.spec_nodes(),
        path,
        path.len() as int,
        1,
    )
    &&& forall|p: int| #[trigger] leaf_mass_of(post.spec_nodes(), p) == leaf_mass_of(
        pre.spec_nodes(),
        p,
    ) + if p == point_idx {
        1nat
    } else {
        0nat
    }
}

/// What [`TreeShape::remove`] does: one copy of the point at the end of
/// `path` goes; a last copy takes its leaf and the leaf's parent with it, and
/// the leaf's sibling moves up.
pub open spec fn copy_removed<S>(pre: TreeShape<S>, post: TreeShape<S>, path: Seq<usize>) -> bool {
    let leaf = path.last() as int;
    &&& post.spec_tree_mass() == pre.spec_tree_mass() - 1
    &&& mass_at(pre.spec_nodes(), leaf) > 1 ==> {
        &&& post.spec_root() == pre.spec_root()
        &&& bumped_along(
            pre.spec_nodes(),
            post.spec_nodes(),
            path,
            path.len() as int,
            -1,
        )
    }
    &&& mass_at(pre.spec_nodes(), leaf) == 1 ==> post.spec_nodes()[leaf] is None
    &&& mass_at(pre.spec_nodes(), leaf) == 1 && path.len() == 1 ==> {
        &&& post.spec_root() == NULL
        &&& post.spec_nodes() == pre.spec_nodes().update(leaf, None)
    }
    &&& mass_at(pre.spec_nodes(), leaf) == 1 && path.len() == 2 ==> {
        &&& post.spec_root() == rp_sib(pre.spec_nodes(), path)
        &&& post.spec_nodes() == unlinked(pre.spec_nodes(), path)
    }
    &&& mass_at(pre.spec_nodes(), leaf) == 1 && path.len() >= 3 ==> {
        &&& post.spec_root() == pre.spec_root()
        &&& bumped_along(
            unlinked(pre.spec_nodes(), path),
            post.spec_nodes(),
            path,
            path.len() - 2,
            -1,
        )
    }
    &&& forall|p: int| #[trigger] leaf_mass_of(post.spec_nodes(), p) + if leaf_holds(
        pre.spec_nodes(),
        leaf,
        p,
    ) {
        1nat
    } else {
        0nat
    } == leaf_mass_of(pre.spec_nodes(), p)
}

/// What [`TreeShape::insert_split`] does: a new leaf for `point_idx` in slot
/// `leaf` and a new internal node carrying `split` in slot `x` take the place
/// of `path[k]`, and every node above gains one unit of mass.
pub open spec fn leaf_spliced<S>(
    pre: TreeShape<S>,
    post: TreeShape<S>,
    path: Seq<usize>,
    k: usize,
    point_idx: usize,
    leaf_on_left: bool,
    split: S,
    leaf: usize,
    x: usize,
) -> bool {
    &&& post.spec_tree_mass() == pre.spec_tree_mass() + 1
    &&& post.spec_nodes()[leaf as int] == Some(TreeNode::<S>::Leaf { point_idx, mass: 1 })
    &&& post.spec_nodes()[x as int] matches Some(
        TreeNode::Internal { left, right, mass, split: sp },
    ) && sp == split && (leaf_on_left ==> left == leaf && right == path[k as int]) && (
    !leaf_on_left ==> left == path[k as int] && right == leaf) && mass == mass_at(
        pre.spec_nodes(),
        path[k as int] as int,
    ) + 1
    &&& k == 0 ==> post.spec_root() == x
    &&& k > 0 ==> post.spec_root() == pre.spec_root()
    &&& leaf <= pre.spec_nodes().len()
    &&& leaf < pre.spec_nodes().len() ==> pre.spec_nodes()[leaf as int] is None
    &&& ({
        let s3 = spliced(
            pre.spec_nodes(),
            path,
            k as int,
            leaf as int,
            x as int,
            post.spec_nodes()[leaf as int]->0,
            post.spec_nodes()[x as int]->0,
        );
        &&& k == 0 ==> post.spec_nodes() == s3
        &&& k > 0 ==> bumped_along(s3, post.spec_nodes(), path, k as int, 1)
    })
    &&& forall|p: int| #[trigger] leaf_mass_of(post.spec_nodes(), p) == leaf_mass_of(
        pre.spec_nodes(),
        p,
    ) + if p == point_idx {
        1nat
    } else {
        0nat
    }
}

impl<S> TreeShape<S> {
    /// Insert the first point of an empty tree as its root leaf, returning the
    /// leaf's slot.
    pub fn insert_first(&mut self, point_idx: usize) -> (r: Result<usize>)
        requires
            old(self).wf(),
        ensures
            final(self).wf(),
            r is Ok <==> old(self).spec_root() == NULL && old(self).spec_nodes().len() + 1
                < usize::MAX,
            old(self).spec_root() != NULL ==> (r matches Err(RcfError::InvalidArgument(_))),
            old(self).spec_root() == NULL && r is Err ==> (r matches Err(RcfError::Overflow(_))),
            r matches Ok(id) ==> first_inserted(*old(self), *final(self), point_idx, id),
            r is Err ==> *final(self) == *old(self),
    {
        if self.root != NULL {
            return Err(RcfError::invalid_argument("the tree already has a root"));
        }
        if self.arena.slot_count() >= usize::MAX - 1 {
            return Err(RcfError::overflow("node arena is full"));
        }
        let ghost pre = self.spec_nodes();
        let id = self.arena.allocate(TreeNode::Leaf { point_idx, mass: 1 });
        proof {
            lemma_fresh_leaf(pre, self.spec_nodes(), NULL, id as int);
        }
        self.root = id;
        self.tree_mass = 1;
        proof {
            let post = self.spec_nodes();
            assert(post == put(pre, id as int, TreeNode::<S>::Leaf { point_idx, mass: 1 }));
            assert forall|p: int| #[trigger] leaf_mass_of(post, p) == leaf_mass_of(pre, p) + if p
                == point_idx {
                1nat
            } else {
                0nat
            } by {
                lemma_leaf_mass_put(pre, id as int, TreeNode::<S>::Leaf { point_idx, mass: 1 }, p);
            }
            assert forall|p: int| !#[trigger] is_child(post, id as int, p) by {
                if is_child(post, id as int, p) {
                    assert(p != id);
                    assert(is_child(pre, id as int, p));
                    assert(links_ok_at(pre, p));
                }
            }
        }
        Ok(id)
    }

    /// Record one more copy of the point at the leaf that `path` leads to:
    /// the leaf and every node above it gain one unit of mass. Returns the
    /// leaf's point-store slot.
    pub fn add_copy(&mut self, path: &[usize]) -> (r: Result<usize>)
        requires
            old(self).wf(),
        ensures
            final(self).wf(),
            r is Ok <==> valid_path(old(self).spec_nodes(), old(self).spec_root(), path@)
                && old(self).spec_tree_mass() < usize::MAX,
            !valid_path(old(self).spec_nodes(), old(self).spec_root(), path@) ==> (r matches Err(
                RcfError::InvalidArgument(_),
            )),
            valid_path(old(self).spec_nodes(), old(self).spec_root(), path@) && r is Err ==> (
            r matches Err(RcfError::Overflow(_))),
            r matches Ok(point_idx) ==> copy_added(*old(self), *final(self), path@, point_idx),
            r is Err ==> *final(self) == *old(self),
    {
        if !self.check_path(path) {
            return Err(RcfError::invalid_argument("path does not lead from the root to a leaf"));
        }
        if self.tree_mass == usize::MAX {
            return Err(RcfError::overflow("tree mass overflow"));
        }
        let ghost pre = self.spec_nodes();
        let n = path.len();
        proof {
            lemma_valid_path_root(pre, self.root, path@);
            lemma_chain(pre, self.root, path@, n as int);
            assert forall|j: int| 0 <= j < n implies mass_at(pre, #[trigger] path@[j] as int)
                < usize::MAX by {
                if j > 0 {
                    assert(mass_at(pre, path@[0] as int) >= mass_at(pre, path@[j] as int) + j);
                }
            }
        }
        let leaf = path[n - 1];
        let point_idx = match self.arena.get(leaf) {
            TreeNode::Leaf { point_idx, .. } => *point_idx,
            TreeNode::Internal { .. } => vstd::pervasive::unreached(),
        };
        self.bump_masses(path, n, true);
        self.tree_mass = self.tree_mass + 1;
        proof {
            let post = self.spec_nodes();
            assert(is_live(pre, leaf as int));
            assert(mass_ok_at(post, leaf as int)) by {
                assert(path@[n - 1] == leaf);
                assert(same_skel(pre[leaf as int]->0, post[leaf as int]->0));
                assert(mass_at(pre, leaf as int) >= 1);
            }
            assert forall|i: int|
                #[trigger] is_live(pre, i) && !path@.subrange(0, n as int).contains(
                    i as usize,
                ) implies mass_ok_at(pre, i) by {}
            assert(links_ok(pre, self.root));
            assert(bumped_along(pre, post, path@, n as int, 1));
            assert(is_chain(pre, path@, n as int));
            assert(forall|j: int| 0 <= j < n ==> mass_at(pre, #[trigger] path@[j] as int) >= 1);
            assert forall|j: int| 0 <= j < n - 1 implies mass_ok_at(pre, #[trigger] path@[j] as int) by {
                assert(is_live(pre, path@[j] as int));
            }
            assert(mass_ok_at(post, path@[n - 1] as int));
            lemma_bump(pre, post, self.root, path@, n as int, 1);
            assert(path@[0] == self.root);
            assert forall|p: int| #[trigger] leaf_mass_of(post, p) == leaf_mass_of(pre, p) + if p
                == point_idx {
                1nat
            } else {
                0nat
            } by {
                assert forall|t: int| 0 <= t < n && path@[t] != leaf implies pre[#[trigger] path@[t] as int]->0 is Internal by {
                    if t == n - 1 {
                        assert(path@[t] == leaf);
                    }
                }
                lemma_leaf_mass_bumped(pre, post, path@, n as int, 1, leaf as int, p);
                assert(same_skel(pre[leaf as int]->0, post[leaf as int]->0));
            }
        }
        Ok(point_idx)
    }
}

impl<S> TreeShape<S> {
    /// Replace the child `from` of internal node `parent` by `to`.
    fn relink_child(&mut self, parent: usize, from: usize, to: usize)
        requires
            old(self).arena.wf(),
            is_live(old(self).spec_nodes(), parent as int),
            old(self).spec_nodes()[parent as int]->0 is Internal,
        ensures
            final(self).arena.wf(),
            final(self).root == old(self).root,
            final(self).tree_mass == old(self).tree_mass,
            final(self).spec_nodes() == old(self).spec_nodes().update(
                parent as int,
                Some(relink(old(self).spec_nodes()[parent as int]->0, from, to)),
            ),
    {
        let node = self.arena.replace(parent, TreeNode::Leaf { point_idx: 0, mass: 0 });
        let new_node = match node {
            TreeNode::Internal { left, right, mass, split } => {
                if left == from {
                    TreeNode::Internal { left: to, right, mass, split }
                } else {
                    TreeNode::Internal { left, right: to, mass, split }
                }
            },
            TreeNode::Leaf { .. } => vstd::pervasive::unreached(),
        };
        self.arena.replace(parent, new_node);
    }

    /// Remove one copy of the point at the leaf that `path` leads to. A leaf
    /// holding several copies loses one; the last copy removes the leaf and
    /// its parent, whose other child takes the parent's place.
    pub fn remove(&mut self, path: &[usize]) -> (r: Result<()>)
        requires
            old(self).wf(),
        ensures
            final(self).wf(),
            r is Ok <==> old(self).spec_root() != NULL && valid_path(
                old(self).spec_nodes(),
                old(self).spec_root(),
                path@,
            ),
            old(self).spec_root() == NULL ==> r matches Err(RcfError::EmptyTree),
            old(self).spec_root() != NULL && r is Err ==> r matches Err(
                RcfError::InvalidArgument(_),
            ),
            r is Ok ==> copy_removed(*old(self), *final(self), path@),
            r is Err ==> *final(self) == *old(self),
    {
        if self.root == NULL {
            return Err(RcfError::EmptyTree);
        }
        if !self.check_path(path) {
            return Err(RcfError::invalid_argument("path does not lead from the root to a leaf"));
        }
        let ghost pre = self.spec_nodes();
        let ghost root0 = self.root;
        let n = path.len();
        proof {
            lemma_valid_path_root(pre, self.root, path@);
            lemma_chain(pre, self.root, path@, n as int);
            assert(is_live(pre, path@[n - 1] as int));
            assert(mass_ok_at(pre, path@[n - 1] as int));
        }
        let leaf = path[n - 1];
        let leaf_mass = self.arena.get(leaf).mass();
        if leaf_mass > 1 {
            self.bump_masses(path, n, false);
            self.tree_mass = self.tree_mass - 1;
            proof {
                let post = self.spec_nodes();
                assert(mass_ok_at(post, leaf as int)) by {
                    assert(path@[n - 1] == leaf);
                    assert(same_skel(pre[leaf as int]->0, post[leaf as int]->0));
                }
                assert forall|j: int| 0 <= j < n - 1 implies mass_ok_at(
                    pre,
                    #[trigger] path@[j] as int,
                ) by {
                    assert(is_live(pre, path@[j] as int));
                }
                lemma_bump(pre, post, self.root, path@, n as int, -1);
                assert(path@[0] == self.root);
                assert forall|p: int| #[trigger] leaf_mass_of(post, p) + if leaf_holds(
                    pre,
                    leaf as int,
                    p,
                ) {
                    1nat
                } else {
                    0nat
                } == leaf_mass_of(pre, p) by {
                    assert forall|t: int| 0 <= t < n && path@[t] != leaf implies pre[#[trigger] path@[t] as int]->0 is Internal by {
                        if t == n - 1 {
                            assert(path@[t] == leaf);
                        }
                    }
                    lemma_leaf_mass_bumped(pre, post, path@, n as int, -1, leaf as int, p);
                    assert(same_skel(pre[leaf as int]->0, post[leaf as int]->0));
                }
            }
            return Ok(());
        }
        if n == 1 {
            proof {
                assert(path@.last() == path@[0]);
            }
            self.arena.free(leaf);
            self.root = NULL;
            self.tree_mass = 0;
            proof {
                lemma_free_root(pre, self.spec_nodes(), leaf as int);
                let post = self.spec_nodes();
                assert forall|p: int| #[trigger] leaf_mass_of(post, p) + if leaf_holds(
                    pre,
                    leaf as int,
                    p,
                ) {
                    1nat
                } else {
                    0nat
                } == leaf_mass_of(pre, p) by {
                    lemma_leaf_mass_except(pre, post, leaf as int, p);
                }
            }
            return Ok(());
        }
        self.remove_leaf_and_parent(path);
        proof {
            let post = self.spec_nodes();
            assert(path@.last() == leaf);
            assert forall|p: int| #[trigger] leaf_mass_of(post, p) + if leaf_holds(
                pre,
                leaf as int,
                p,
            ) {
                1nat
            } else {
                0nat
            } == leaf_mass_of(pre, p) by {
                lemma_unlink_leaf_mass(pre, post, root0, path@, p);
            }
        }
        Ok(())
    }

    /// Remove the single-copy leaf at the end of `path` (at least two long)
    /// and its parent, promoting the leaf's sibling.
    #[verifier::spinoff_prover]
    #[verifier::rlimit(40)]
    fn remove_leaf_and_parent(&mut self, path: &[usize])
        requires
            old(self).wf(),
            valid_path(old(self).spec_nodes(), old(self).spec_root(), path@),
            path@.len() >= 2,
            mass_at(old(self).spec_nodes(), path@.last() as int) == 1,
        ensures
            final(self).wf(),
            final(self).spec_tree_mass() == old(self).spec_tree_mass() - 1,
            final(self).spec_nodes()[path@.last() as int] is None,
            path@.len() >= 3 ==> final(self).spec_root() == old(self).spec_root() && bumped_along(
                unlinked(old(self).spec_nodes(), path@),
                final(self).spec_nodes(),
                path@,
                path@.len() - 2,
                -1,
            ),
            path@.len() == 2 ==> final(self).spec_root() == rp_sib(old(self).spec_nodes(), path@)
                && final(self).spec_nodes() == unlinked(old(self).spec_nodes(), path@),
    {
        let ghost pre = self.spec_nodes();
        let ghost root0 = self.root;
        let n = path.len();
        proof {
            lemma_valid_path_root(pre, self.root, path@);
            lemma_chain(pre, self.root, path@, n as int);
            assert(is_live(pre, path@[n - 1] as int));
            assert(is_live(pre, path@[n - 2] as int));
            assert(path_step(pre, path@, n - 2));
            if n >= 3 {
                assert(is_live(pre, path@[n - 3] as int));
                assert(path_step(pre, path@, n - 3));
            }
        }
        let leaf = path[n - 1];
        let parent = path[n - 2];
        let sibling = match self.arena.get(parent) {
            TreeNode::Internal { left, right, .. } => if *left == leaf {
                *right
            } else {
                *left
            },
            TreeNode::Leaf { .. } => vstd::pervasive::unreached(),
        };
        if n >= 3 {
            let grandparent = path[n - 3];
            self.relink_child(grandparent, parent, sibling);
        } else {
            self.root = sibling;
        }
        self.arena.free(leaf);
        self.arena.free(parent);
        let ghost mid = self.spec_nodes();
        proof {
            assert(path@[n - 1] != path@[n - 2]);
            if n >= 3 {
                assert(path@[n - 3] != path@[n - 2] && path@[n - 3] != path@[n - 1]);
            }
            assert(mid =~= unlinked(pre, path@));
            assert(remove_pair_premise(pre, mid, root0, path@, self.root));
            lemma_remove_pair(pre, mid, root0, path@, self.root);
        }
        if n >= 3 {
            proof {
                lemma_remove_bump_ok(pre, mid, root0, path@);
            }
            self.bump_masses(path, n - 2, false);
            proof {
                lemma_remove_finish(pre, mid, self.spec_nodes(), root0, path@);
            }
        }
        self.tree_mass = self.tree_mass - 1;
    }
}

/// Removing a single-copy leaf and its parent, and lowering the masses
/// above them, takes away exactly that leaf's copy.
#[verifier::spinoff_prover]
proof fn lemma_unlink_leaf_mass<S>(
    pre: Seq<Option<TreeNode<S>>>,
    post: Seq<Option<TreeNode<S>>>,
    root: usize,
    path: Seq<usize>,
    p: int,
)
    requires
        links_ok(pre, root),
        masses_ok(pre),
        root != NULL,
        valid_path(pre, root, path),
        path.len() >= 2,
        path.len() == 2 ==> post == unlinked(pre, path),
        path.len() >= 3 ==> bumped_along(unlinked(pre, path), post, path, path.len() - 2, -1),
    ensures
        leaf_mass_of(post, p) + slot_mass(pre[path.last() as int], p) == leaf_mass_of(pre, p),
{
    let n = path.len() as int;
    let mid = unlinked(pre, path);
    let leaf = path.last() as int;
    lemma_chain(pre, root, path, n);
    assert(path[n - 1] as int == leaf);
    assert(is_live(pre, path[n - 1] as int));
    assert(is_live(pre, path[n - 2] as int));
    assert(pre[path[n - 2] as int]->0 is Internal);
    if n >= 3 {
        assert(is_live(pre, path[n - 3] as int));
        assert(pre[path[n - 3] as int]->0 is Internal);
    }
    assert(mid.len() == pre.len());
    assert forall|i: int| 0 <= i < pre.len() && i != leaf implies slot_mass(#[trigger] mid[i], p)
        == slot_mass(pre[i], p) by {
        if n >= 3 && i == rp_grand(path) {
            assert(slot_mass(pre[i], p) == 0);
        } else if i == rp_par(path) {
            assert(slot_mass(pre[i], p) == 0);
        } else {
            assert(mid[i] == pre[i]);
        }
    }
    lemma_leaf_mass_except(pre, mid, leaf, p);
    if n >= 3 {
        assert forall|t: int| 0 <= t < n - 2 && path[t] != -1 implies mid[#[trigger] path[t] as int]->0 is Internal by {
            assert(is_live(pre, path[t] as int));
            assert(pre[path[t] as int]->0 is Internal);
            assert(path[t] != path[n - 1]);
            assert(path[t] != path[n - 2]);
            if path[t] as int == rp_grand(path) {
                assert(mid[path[t] as int] == Some(
                    relink(pre[rp_grand(path)]->0, rp_par(path) as usize, rp_sib(pre, path) as usize),
                ));
            } else {
                assert(mid[path[t] as int] == pre[path[t] as int]);
            }
        }
        lemma_leaf_mass_bumped(mid, post, path, n - 2, -1, -1, p);
    }
}

/// After removing a leaf and its parent, the chain above them can lose one
/// unit of mass each.
#[verifier::spinoff_prover]
proof fn lemma_remove_bump_ok<S>(
    pre: Seq<Option<TreeNode<S>>>,
    mid: Seq<Option<TreeNode<S>>>,
    root: usize,
    path: Seq<usize>,
)
    requires
        remove_pair_premise(pre, mid, root, path, root),
        path.len() >= 3,
    ensures
        forall|j: int|
            0 <= j < path.len() - 2 ==> is_live(mid, #[trigger] path[j] as int) && mass_at(
                mid,
                path[j] as int,
            ) >= 1,
        forall|j: int, k: int| 0 <= j < k < path.len() - 2 ==> #[trigger] path[j] != #[trigger] path[k],
{
    lemma_remove_pair(pre, mid, root, path, root);
    lemma_remove_facts(pre, mid, root, path, root);
    let n = path.len() as int;
    assert forall|j: int| 0 <= j < n - 2 implies is_live(mid, #[trigger] path[j] as int)
        && mass_at(mid, path[j] as int) >= 1 by {
        assert(is_live(pre, path[j] as int));
        assert(mass_ok_at(pre, path[j] as int));
        if j < n - 3 {
            assert(mid[path[j] as int] == pre[path[j] as int]);
        }
    }
}

/// The chain above a removed leaf and parent, each one unit lighter, makes
/// the tree consistent again.
#[verifier::spinoff_prover]
proof fn lemma_remove_finish<S>(
    pre: Seq<Option<TreeNode<S>>>,
    mid: Seq<Option<TreeNode<S>>>,
    post: Seq<Option<TreeNode<S>>>,
    root: usize,
    path: Seq<usize>,
)
    requires
        remove_pair_premise(pre, mid, root, path, root),
        path.len() >= 3,
        bumped_along(mid, post, path, path.len() - 2, -1),
    ensures
        links_ok(post, root),
        masses_ok(post),
        post[path.last() as int] is None,
        mass_at(post, root as int) == mass_at(pre, root as int) - 1,
{
    lemma_remove_pair(pre, mid, root, path, root);
    lemma_remove_facts(pre, mid, root, path, root);
    let n = path.len() as int;
    let pm = path.subrange(0, n - 2);
    let g = rp_grand(path);
    let sib = rp_sib(pre, path);
    let o = rp_uncle(pre, path);
    assert(path[n - 3] as int == g);
    assert(!pm.contains(sib as usize)) by {
        if pm.contains(sib as usize) {
            let t = choose|t: int| 0 <= t < n - 2 && pm[t] == sib as usize;
            assert(path[t] != sib);
        }
    }
    assert(!pm.contains(o as usize)) by {
        if pm.contains(o as usize) {
            let t = choose|t: int| 0 <= t < n - 2 && pm[t] == o as usize;
            assert(path[t] != o);
        }
    }
    assert(is_live(pre, sib));
    assert(is_live(pre, o));
    assert(post[sib] == mid[sib]);
    assert(post[o] == mid[o]);
    assert(mass_ok_at(post, g));
    assert forall|j: int| 0 <= j < n - 2 - 1 implies mass_ok_at(mid, #[trigger] path[j] as int) by {
        assert(is_live(pre, path[j] as int));
        assert(mid[path[j] as int] == pre[path[j] as int]);
        assert(is_live(mid, path[j] as int));
        assert(path[j] as int != g);
    }
    assert forall|j: int| 0 <= j < n - 2 implies mass_at(mid, #[trigger] path[j] as int) >= 1 by {
        assert(is_live(pre, path[j] as int));
        assert(mass_ok_at(pre, path[j] as int));
        if j < n - 3 {
            assert(mid[path[j] as int] == pre[path[j] as int]);
        }
    }
    assert forall|i: int|
        #[trigger] is_live(mid, i) && !pm.contains(i as usize) implies mass_ok_at(mid, i) by {
        if i == g {
            assert(pm[n - 3] == g as usize);
        }
    }
    assert(bump_premise(mid, post, root, path, n - 2, -1));
    lemma_bump(mid, post, root, path, n - 2, -1);
    let leaf_i = path[n - 1];
    assert(!pm.contains(leaf_i)) by {
        if pm.contains(leaf_i) {
            let t = choose|t: int| 0 <= t < n - 2 && pm[t] == leaf_i;
            assert(path[t] != path[n - 1]);
        }
    }
    assert(is_live(pre, leaf_i as int));
    assert(post[leaf_i as int] == mid[leaf_i as int]);
    assert(path[0] == root);
    assert(mid[root as int] == pre[root as int] || root as int == g);
}

impl<S> TreeShape<S> {
    /// Insert a new leaf for `point_idx` beside `path[k]`: a new internal
    /// node carrying `split` takes the place of `path[k]` and has `path[k]`
    /// and the new leaf as children (the leaf on the left when
    /// `leaf_on_left`). Every node above gains one unit of mass. Returns the
    /// slots of the new leaf and of the new internal node.
    pub fn insert_split(
        &mut self,
        path: &[usize],
        k: usize,
        point_idx: usize,
        leaf_on_left: bool,
        split: S,
    ) -> (r: Result<(usize, usize)>)
        requires
            old(self).wf(),
        ensures
            final(self).wf(),
            r is Ok <==> valid_path(old(self).spec_nodes(), old(self).spec_root(), path@) && k
                < path@.len() && old(self).spec_tree_mass() < usize::MAX && old(self).spec_nodes().len() + 2 < usize::MAX,
            !(valid_path(old(self).spec_nodes(), old(self).spec_root(), path@) && k < path@.len())
                ==> (r matches Err(RcfError::InvalidArgument(_))),
            valid_path(old(self).spec_nodes(), old(self).spec_root(), path@) && k < path@.len()
                && r is Err ==> (r matches Err(RcfError::Overflow(_))),
            r matches Ok((leaf, x)) ==> leaf_spliced(
                *old(self),
                *final(self),
                path@,
                k,
                point_idx,
                leaf_on_left,
                split,
                leaf,
                x,
            ),
            r is Err ==> *final(self) == *old(self),
    {
        if !self.check_path(path) {
            return Err(RcfError::invalid_argument("path does not lead from the root to a leaf"));
        }
        if k >= path.len() {
            return Err(RcfError::invalid_argument("insertion point is not on the path"));
        }
        if self.tree_mass == usize::MAX {
            return Err(RcfError::overflow("tree mass overflow"));
        }
        if self.arena.slot_count() >= usize::MAX - 2 {
            return Err(RcfError::overflow("node arena is full"));
        }
        let ghost s0 = self.spec_nodes();
        let ghost root0 = self.root;
        proof {
            lemma_valid_path_root(s0, self.root, path@);
            lemma_chain(s0, self.root, path@, path@.len() as int);
            assert(is_live(s0, path@[k as int] as int));
            if k > 0 {
                assert(mass_at(s0, path@[0] as int) >= mass_at(s0, path@[k as int] as int) + k);
            }
        }
        let a = path[k];
        let mass_a = self.arena.get(a).mass();
        let leaf = self.arena.allocate(TreeNode::Leaf { point_idx, mass: 1 });
        let ghost s1 = self.spec_nodes();
        proof {
            lemma_fresh_leaf(s0, s1, root0, leaf as int);
            lemma_fresh_leaf_path(s0, s1, root0, path@, leaf as int);
        }
        let left;
        let right;
        if leaf_on_left {
            left = leaf;
            right = a;
        } else {
            left = a;
            right = leaf;
        }
        let x = self.arena.allocate(
            TreeNode::Internal { left, right, mass: mass_a + 1, split },
        );
        if k >= 1 {
            proof {
                assert(is_live(s0, path@[k - 1] as int));
                assert(path_step(s0, path@, k - 1));
                assert(path@[k - 1] != leaf);
                assert(self.spec_nodes()[path@[k - 1] as int] == s1[path@[k - 1] as int]);
            }
            self.relink_child(path[k - 1], a, x);
        } else {
            self.root = x;
        }
        let ghost s3 = self.spec_nodes();
        proof {
            let leaf_node = TreeNode::<S>::Leaf { point_idx, mass: 1 };
            let x_node = s3[x as int]->0;
            assert(s1 == put(s0, leaf as int, leaf_node));
            if k >= 1 {
                assert(s3 =~= spliced(s0, path@, k as int, leaf as int, x as int, leaf_node, x_node));
            } else {
                assert(s3 =~= spliced(s0, path@, k as int, leaf as int, x as int, leaf_node, x_node));
            }
            assert(splice_premise(s1, s3, root0, path@, k as int, leaf as int, x as int, self.root));
            lemma_splice_links(s1, s3, root0, path@, k as int, leaf as int, x as int, self.root);
            lemma_splice_masses(s1, s3, root0, path@, k as int, leaf as int, x as int, self.root);
        }
        if k >= 1 {
            proof {
                lemma_splice_bump_ok(s1, s3, root0, path@, k as int, leaf as int, x as int);
            }
            self.bump_masses(path, k, true);
            proof {
                lemma_splice_finish(
                    s1,
                    s3,
                    self.spec_nodes(),
                    root0,
                    path@,
                    k as int,
                    leaf as int,
                    x as int,
                );
            }
        }
        self.tree_mass = self.tree_mass + 1;
        proof {
            let s4 = self.spec_nodes();
            assert forall|p: int| #[trigger] leaf_mass_of(s4, p) == leaf_mass_of(s0, p) + if p
                == point_idx {
                1nat
            } else {
                0nat
            } by {
                lemma_leaf_mass_put(s0, leaf as int, TreeNode::<S>::Leaf { point_idx, mass: 1 }, p);
                lemma_splice_leaf_mass(s1, s3, s4, root0, path@, k as int, leaf as int, x as int, p);
            }
        }
        Ok((leaf, x))
    }
}

/// A path of the tree stays a path after a fresh leaf is added.
proof fn lemma_fresh_leaf_path<S>(
    pre: Seq<Option<TreeNode<S>>>,
    post: Seq<Option<TreeNode<S>>>,
    root: usize,
    path: Seq<usize>,
    id: int,
)
    requires
        links_ok(pre, root),
        valid_path(pre, root, path),
        id < pre.len() ==> pre[id] is None,
        forall|i: int| 0 <= i < pre.len() && i != id ==> #[trigger] post[i] == pre[i],
        post.len() >= pre.len(),
        forall|c: int, p: int| #[trigger] is_child(post, c, p) == is_child(pre, c, p),
        forall|t: int| 0 <= t < path.len() ==> #[trigger] is_live(pre, path[t] as int),
    ensures
        valid_path(post, root, path),
        forall|t: int| 0 <= t < path.len() ==> #[trigger] path[t] != id,
        forall|t: int| 0 <= t < path.len() ==> #[trigger] post[path[t] as int] == pre[path[t] as int],
{
    assert forall|t: int| 0 <= t < path.len() implies #[trigger] path[t] != id by {
        assert(is_live(pre, path[t] as int));
    }
    assert forall|t: int| 0 <= t < path.len() implies #[trigger] post[path[t] as int]
        == pre[path[t] as int] by {
        assert(is_live(pre, path[t] as int));
        assert(path[t] != id);
    }
    assert forall|k: int| 0 <= k < path.len() - 1 implies #[trigger] path_step(post, path, k) by {
        assert(path_step(pre, path, k));
    }
    let last = path.len() - 1;
    assert(path.last() == path[last]);
    assert(post[path[last] as int] == pre[path[last] as int]);
}

/// Before the masses above a new internal node are raised, they are live
/// and below the overflow bound.
#[verifier::spinoff_prover]
proof fn lemma_splice_bump_ok<S>(
    s1: Seq<Option<TreeNode<S>>>,
    s3: Seq<Option<TreeNode<S>>>,
    root: usize,
    path: Seq<usize>,
    k: int,
    leaf: int,
    x: int,
)
    requires
        splice_premise(s1, s3, root, path, k, leaf, x, root),
        k >= 1,
        mass_at(s1, root as int) < usize::MAX,
    ensures
        forall|j: int| 0 <= j < k ==> is_live(s3, #[trigger] path[j] as int),
        forall|j: int, t: int| 0 <= j < t < k ==> #[trigger] path[j] != #[trigger] path[t],
        forall|j: int| 0 <= j < k ==> mass_at(s3, #[trigger] path[j] as int) < usize::MAX,
{
    lemma_splice_facts(s1, s3, root, path, k, leaf, x, root);
    lemma_splice_masses(s1, s3, root, path, k, leaf, x, root);
    assert forall|j: int| 0 <= j < k implies is_live(s3, #[trigger] path[j] as int) by {
        assert(is_live(s1, path[j] as int));
        assert(path[j] as int != x);
        if path[j] != path[k - 1] {
            assert(s3[path[j] as int] == s1[path[j] as int]);
        }
    }
}

/// Raising the masses above the new internal node restores every mass
/// equation.
#[verifier::spinoff_prover]
proof fn lemma_splice_finish<S>(
    s1: Seq<Option<TreeNode<S>>>,
    s3: Seq<Option<TreeNode<S>>>,
    s4: Seq<Option<TreeNode<S>>>,
    root: usize,
    path: Seq<usize>,
    k: int,
    leaf: int,
    x: int,
)
    requires
        splice_premise(s1, s3, root, path, k, leaf, x, root),
        k >= 1,
        bumped_along(s3, s4, path, k, 1),
    ensures
        links_ok(s4, root),
        masses_ok(s4),
        mass_at(s4, root as int) == mass_at(s1, root as int) + 1,
        s4[x] == s3[x],
        s4[leaf] == s3[leaf],
{
    lemma_splice_facts(s1, s3, root, path, k, leaf, x, root);
    lemma_splice_links(s1, s3, root, path, k, leaf, x, root);
    lemma_splice_masses(s1, s3, root, path, k, leaf, x, root);
    let pm = path.subrange(0, k);
    let p = path[k - 1] as int;
    let o = sp_uncle(s1, path, k);
    assert(!pm.contains(x as usize)) by {
        if pm.contains(x as usize) {
            let t = choose|t: int| 0 <= t < k && pm[t] == x as usize;
            assert(is_live(s1, path[t] as int));
        }
    }
    assert(!pm.contains(leaf as usize)) by {
        if pm.contains(leaf as usize) {
            let t = choose|t: int| 0 <= t < k && pm[t] == leaf as usize;
            assert(path[t] != leaf);
        }
    }
    assert(!pm.contains(o as usize)) by {
        if pm.contains(o as usize) {
            let t = choose|t: int| 0 <= t < k && pm[t] == o as usize;
            assert(mass_at(s1, path[t] as int) > mass_at(s1, o));
        }
    }
    assert(s3[o] == s1[o]);
    assert(s4[o] == s3[o]);
    assert(s4[x] == s3[x]);
    assert(s4[leaf] == s3[leaf]);
    assert(pm[k - 1] == p as usize);
    match s1[p]->0 {
        TreeNode::Internal { .. } => {},
        TreeNode::Leaf { .. } => {},
    }
    assert(mass_ok_at(s4, p));
    assert forall|j: int| 0 <= j < k implies mass_at(s3, #[trigger] path[j] as int) >= 1 by {
        assert(is_live(s1, path[j] as int));
        assert(mass_ok_at(s1, path[j] as int));
    }
    assert forall|j: int| 0 <= j < k - 1 implies mass_ok_at(s3, #[trigger] path[j] as int) by {
        assert(is_live(s1, path[j] as int));
        assert(path[j] as int != x);
        assert(path[j] != path[k - 1]);
        assert(s3[path[j] as int] == s1[path[j] as int]);
        assert(is_live(s3, path[j] as int));
    }
    assert forall|i: int|
        #[trigger] is_live(s3, i) && !pm.contains(i as usize) implies mass_ok_at(s3, i) by {
        if i == p {
            assert(pm[k - 1] == p as usize);
        }
    }
    assert(bump_premise(s3, s4, root, path, k, 1));
    lemma_bump(s3, s4, root, path, k, 1);
    assert(path[0] == root);
    assert(pm[0] == root);
}

/// Splicing in a new internal node and raising the masses above it leaves
/// the copies held by the leaves unchanged.
#[verifier::spinoff_prover]
proof fn lemma_splice_leaf_mass<S>(
    s1: Seq<Option<TreeNode<S>>>,
    s3: Seq<Option<TreeNode<S>>>,
    s4: Seq<Option<TreeNode<S>>>,
    root: usize,
    path: Seq<usize>,
    k: int,
    leaf: int,
    x: int,
    p: int,
)
    requires
        splice_premise(s1, s3, root, path, k, leaf, x, root) || splice_premise(
            s1,
            s3,
            root,
            path,
            k,
            leaf,
            x,
            x as usize,
        ),
        k == 0 ==> s4 == s3,
        k >= 1 ==> bumped_along(s3, s4, path, k, 1),
    ensures
        leaf_mass_of(s4, p) == leaf_mass_of(s1, p),
{
    let s2 = put(s1, x, s3[x]->0);
    lemma_leaf_mass_put(s1, x, s3[x]->0, p);
    let par = if k >= 1 {
        path[k - 1] as int
    } else {
        -1
    };
    if k >= 1 {
        assert(path_step(s1, path, k - 1));
        assert(is_live(s1, par));
    }
    assert forall|i: int| 0 <= i < s2.len() && i != par implies slot_mass(#[trigger] s3[i], p)
        == slot_mass(s2[i], p) by {
        if i != x {
            assert(s3[i] == s1[i]);
        }
    }
    lemma_leaf_mass_except(s2, s3, par, p);
    if k >= 1 {
        assert(s2[par] == s1[par]);
        assert forall|t: int| 0 <= t < k && path[t] != -1 implies s3[#[trigger] path[t] as int]->0 is Internal by {
            assert(path_step(s1, path, t));
            assert(is_live(s1, path[t] as int));
            if path[t] as int != par {
                assert(s3[path[t] as int] == s1[path[t] as int]);
            }
        }
        lemma_leaf_mass_bumped(s3, s4, path, k, 1, -1, p);
    }
}

/// Internal `n` with its split data replaced by `split`.
pub open spec fn with_split<S>(n: TreeNode<S>, split: S) -> TreeNode<S> {
    match n {
        TreeNode::Internal { left, right, mass, .. } => TreeNode::Internal {
            left,
            right,
            mass,
            split,
        },
        TreeNode::Leaf { .. } => n,
    }
}

/// What [`TreeShape::set_split`] does: the internal node in slot `id`, whose
/// split data was `prev`, carries `split` instead; nothing else changes.
pub open spec fn split_replaced<S>(pre: TreeShape<S>, post: TreeShape<S>, id: usize, split: S, prev: S) -> bool {
    &&& pre.spec_nodes()[id as int] matches Some(TreeNode::Internal { split: sp, .. }) && sp == prev
    &&& post.spec_nodes() == pre.spec_nodes().update(
        id as int,
        Some(with_split(pre.spec_nodes()[id as int]->0, split)),
    )
    &&& post.spec_root() == pre.spec_root()
    &&& post.spec_tree_mass() == pre.spec_tree_mass()
    &&& forall|p: int| #[trigger] leaf_mass_of(post.spec_nodes(), p) == leaf_mass_of(pre.spec_nodes(), p)
}

impl<S> TreeShape<S> {
    /// Replace the split data of the internal node in slot `id`, returning
    /// the previous one. Links and masses are unchanged.
    pub fn set_split(&mut self, id: usize, split: S) -> (r: Result<S>)
        requires
            old(self).wf(),
        ensures
            final(self).wf(),
            r is Ok <==> is_live(old(self).spec_nodes(), id as int) && old(self).spec_nodes()[id as int]->0 is Internal,
            !is_live(old(self).spec_nodes(), id as int) ==> r == Err::<S, RcfError>(RcfError::IndexOutOfBounds(id)),
            is_live(old(self).spec_nodes(), id as int) && old(self).spec_nodes()[id as int]->0 is Leaf
                ==> (r matches Err(RcfError::InvalidArgument(_))),
            r matches Ok(prev) ==> split_replaced(*old(self), *final(self), id, split, prev),
            r is Err ==> *final(self) == *old(self),
    {
        if !self.is_live_slot(id) {
            return Err(RcfError::IndexOutOfBounds(id));
        }
        let is_internal = match self.arena.get(id) {
            TreeNode::Internal { .. } => true,
            TreeNode::Leaf { .. } => false,
        };
        if !is_internal {
            return Err(RcfError::invalid_argument("a leaf has no split"));
        }
        let ghost pre = self.spec_nodes();
        let node = self.arena.replace(id, TreeNode::Leaf { point_idx: 0, mass: 0 });
        let (new_node, prev) = match node {
            TreeNode::Internal { left, right, mass, split: old_split } => (
                TreeNode::Internal { left, right, mass, split },
                old_split,
            ),
            TreeNode::Leaf { .. } => vstd::pervasive::unreached(),
        };
        self.arena.replace(id, new_node);
        proof {
            let post = self.spec_nodes();
            assert(post == pre.update(id as int, Some(new_node)));
            assert forall|c: int, p: int| #[trigger] is_child(post, c, p) == is_child(pre, c, p) by {
                if p != id && 0 <= p < pre.len() {
                    assert(post[p] == pre[p]);
                }
            }
            assert forall|i: int| #[trigger] is_live(post, i) implies links_ok_at(post, i)
                && mass_ok_at(post, i) by {
                assert(is_live(pre, i));
                assert(links_ok_at(pre, i));
                assert(mass_ok_at(pre, i));
                match pre[i]->0 {
                    TreeNode::Internal { left, right, .. } => {
                        if left != id {
                            assert(post[left as int] == pre[left as int]);
                        }
                        if right != id {
                            assert(post[right as int] == pre[right as int]);
                        }
                    },
                    TreeNode::Leaf { .. } => {},
                }
            }
            assert forall|c: int, p: int, q: int|
                #[trigger] is_child(post, c, p) && #[trigger] is_child(post, c, q) implies p
                == q by {
                assert(is_child(pre, c, p) && is_child(pre, c, q));
            }
            assert forall|p: int| !#[trigger] is_child(post, self.root as int, p) by {
                assert(!is_child(pre, self.root as int, p));
            }
            if self.root != NULL && self.root != id {
                assert(post[self.root as int] == pre[self.root as int]);
            }
            assert forall|p: int| #[trigger] leaf_mass_of(post, p) == leaf_mass_of(pre, p) by {
                lemma_leaf_mass_except(pre, post, id as int, p);
            }
        }
        Ok(prev)
    }
}

/// What the fields of a consistent tree satisfy.
pub open spec fn shape_ok<S>(nodes: Seq<Option<TreeNode<S>>>, root: usize, tree_mass: usize) -> bool {
    &&& links_ok(nodes, root)
    &&& masses_ok(nodes)
    &&& (root == NULL) == (tree_mass == 0)
    &&& root != NULL ==> mass_at(nodes, root as int) == tree_mass
}

impl<S> TreeShape<S> {
    /// The recycled slots of the arena, most recently freed last.
    pub fn free_slots(&self) -> (f: &[usize])
        ensures
            f@ == self.spec_free(),
    {
        self.arena.free_slots()
    }

    pub closed spec fn spec_free(&self) -> Seq<usize> {
        self.arena.spec_free()
    }

    /// Slot `id`: `Some` for a live node, `None` for a freed one.
    pub fn slot(&self, id: usize) -> (r: Option<&TreeNode<S>>)
        requires
            id < self.spec_nodes().len(),
        ensures
            r matches Some(n) ==> self.spec_nodes()[id as int] == Some(*n),
            r is None ==> self.spec_nodes()[id as int] is None,
    {
        self.arena.slot(id)
    }

    /// Check the links and masses of every live slot.
    fn check_nodes(nodes: &Vec<Option<TreeNode<S>>>) -> (b: bool)
        requires
            nodes@.len() < usize::MAX,
        ensures
            b <==> forall|i: int| #[trigger] is_live(nodes@, i) ==> links_ok_at(nodes@, i)
                && mass_ok_at(nodes@, i),
    {
        let n = nodes.len();
        let mut i: usize = 0;
        while i < n
            invariant
                n == nodes@.len(),
                n < usize::MAX,
                i <= n,
                forall|t: int|
                    0 <= t < i && #[trigger] is_live(nodes@, t) ==> links_ok_at(nodes@, t)
                        && mass_ok_at(nodes@, t),
            decreases n - i,
        {
            match &nodes[i] {
                None => {},
                Some(TreeNode::Leaf { mass, .. }) => {
                    if *mass == 0 {
                        proof {
                            assert(is_live(nodes@, i as int));
                        }
                        return false;
                    }
                },
                Some(TreeNode::Internal { left, right, mass, .. }) => {
                    let l = *left;
                    let r = *right;
                    let ok_links = l < n && r < n && l != r;
                    if !ok_links {
                        proof {
                            assert(is_live(nodes@, i as int));
                        }
                        return false;
                    }
                    let (lm, rm) = match (&nodes[l], &nodes[r]) {
                        (Some(ln), Some(rn)) => (ln.mass(), rn.mass()),
                        _ => {
                            proof {
                                assert(is_live(nodes@, i as int));
                            }
                            return false;
                        },
                    };
                    let sum_ok = match lm.checked_add(rm) {
                        Some(total) => total == *mass && *mass >= 1,
                        None => false,
                    };
                    if !sum_ok {
                        proof {
                            assert(is_live(nodes@, i as int));
                        }
                        return false;
                    }
                },
            }
            i = i + 1;
        }
        true
    }

    /// Check that no slot has two parents and that `root` has none.
    fn check_parents(nodes: &Vec<Option<TreeNode<S>>>, root: usize) -> (b: bool)
        requires
            nodes@.len() < usize::MAX,
            forall|i: int| #[trigger] is_live(nodes@, i) ==> links_ok_at(nodes@, i),
        ensures
            b <==> {
                &&& forall|c: int, p: int, q: int|
                    #[trigger] is_child(nodes@, c, p) && #[trigger] is_child(nodes@, c, q) ==> p
                        == q
                &&& forall|p: int| !#[trigger] is_child(nodes@, root as int, p)
            },
    {
        let n = nodes.len();
        let mut parent: Vec<usize> = Vec::new();
        let mut i: usize = 0;
        while i < n
            invariant
                n == nodes@.len(),
                i <= n,
                parent@.len() == i,
                forall|x: int| 0 <= x < i ==> #[trigger] parent@[x] == NULL,
            decreases n - i,
        {
            parent.push(NULL);
            i = i + 1;
        }
        let mut p: usize = 0;
        while p < n
            invariant
                n == nodes@.len(),
                n < usize::MAX,
                p <= n,
                parent@.len() == n,
                forall|x: int| #[trigger] is_live(nodes@, x) ==> links_ok_at(nodes@, x),
                forall|c: int|
                    0 <= c < n && #[trigger] parent@[c] != NULL ==> parent@[c] < p && is_child(
                        nodes@,
                        c,
                        parent@[c] as int,
                    ),
                forall|c: int, q: int| 0 <= q < p && #[trigger] is_child(nodes@, c, q) ==> parent@[c]
                    == q,
                forall|c: int, q1: int, q2: int|
                    0 <= q1 < p && 0 <= q2 < p && #[trigger] is_child(nodes@, c, q1)
                        && #[trigger] is_child(nodes@, c, q2) ==> q1 == q2,
            decreases n - p,
        {
            match &nodes[p] {
                Some(TreeNode::Internal { left, right, .. }) => {
                    let l = *left;
                    let r = *right;
                    proof {
                        assert(is_live(nodes@, p as int));
                        assert(links_ok_at(nodes@, p as int));
                    }
                    if parent[l] != NULL {
                        proof {
                            let q = parent@[l as int] as int;
                            assert(is_child(nodes@, l as int, q));
                            assert(is_child(nodes@, l as int, p as int));
                        }
                        return false;
                    }
                    parent.set(l, p);
                    if parent[r] != NULL {
                        proof {
                            let q = parent@[r as int] as int;
                            assert(is_child(nodes@, r as int, q));
                            assert(is_child(nodes@, r as int, p as int));
                        }
                        return false;
                    }
                    parent.set(r, p);
                    proof {
                        assert forall|c: int, q: int|
                            0 <= q < p + 1 && #[trigger] is_child(nodes@, c, q) implies parent@[c]
                            == q by {
                            if q < p {
                                assert(c != l as int && c != r as int);
                            }
                        }
                    }
                },
                _ => {
                    proof {
                        assert forall|c: int, q: int|
                            0 <= q < p + 1 && #[trigger] is_child(nodes@, c, q) implies parent@[c]
                            == q by {
                            if q == p {
                                assert(!is_child(nodes@, c, q));
                            }
                        }
                    }
                },
            }
            p = p + 1;
        }
        proof {
            assert forall|c: int, q1: int, q2: int|
                #[trigger] is_child(nodes@, c, q1) && #[trigger] is_child(nodes@, c, q2) implies q1
                == q2 by {
                assert(0 <= q1 < n && 0 <= q2 < n);
            }
        }
        if root < n && parent[root] != NULL {
            proof {
                assert(is_child(nodes@, root as int, parent@[root as int] as int));
            }
            return false;
        }
        proof {
            assert forall|q: int| !#[trigger] is_child(nodes@, root as int, q) by {
                if is_child(nodes@, root as int, q) {
                    assert(links_ok_at(nodes@, q));
                    assert(parent@[root as int] == q);
                }
            }
        }
        true
    }

    /// The fields of a consistent tree pass the checks of [`Self::from_parts`],
    /// so a saved tree can always be restored.
    pub proof fn lemma_parts_round_trip(&self)
        requires
            self.wf(),
        ensures
            NodeArena::<TreeNode<S>>::parts_ok(self.spec_nodes(), self.spec_free()),
            shape_ok(self.spec_nodes(), self.spec_root(), self.spec_tree_mass() as usize),
    {
        self.arena.lemma_wf_parts();
    }

    /// Rebuild a tree from its fields; `None` unless they form a consistent
    /// tree.
    pub fn from_parts(root: usize, tree_mass: usize, nodes: Vec<Option<TreeNode<S>>>, free: Vec<usize>) -> (r: Option<Self>)
        ensures
            r is Some <==> NodeArena::<TreeNode<S>>::parts_ok(nodes@, free@) && shape_ok(
                nodes@,
                root,
                tree_mass,
            ),
            r matches Some(t) ==> {
                &&& t.wf()
                &&& t.spec_nodes() == nodes@
                &&& t.spec_free() == free@
                &&& t.spec_root() == root
                &&& t.spec_tree_mass() == tree_mass
            },
    {
        if nodes.len() >= usize::MAX {
            return None;
        }
        if (root == NULL) != (tree_mass == 0) {
            return None;
        }
        if root != NULL {
            if root >= nodes.len() {
                return None;
            }
            let root_mass = match &nodes[root] {
                Some(node) => node.mass(),
                None => {
                    return None;
                },
            };
            if root_mass != tree_mass {
                return None;
            }
        }
        if !Self::check_nodes(&nodes) {
            return None;
        }
        if !Self::check_parents(&nodes, root) {
            return None;
        }
        match NodeArena::from_parts(nodes, free) {
            Some(arena) => {
                let t = TreeShape { root, tree_mass, arena };
                proof {
                    assert(links_ok(t.spec_nodes(), root));
                }
                Some(t)
            },
            None => None,
        }
    }
}

/// Freeing the only node leaves an empty, consistent arena.
proof fn lemma_free_root<S>(pre: Seq<Option<TreeNode<S>>>, post: Seq<Option<TreeNode<S>>>, id: int)
    requires
        links_ok(pre, id as usize),
        masses_ok(pre),
        is_live(pre, id),
        pre[id]->0 is Leaf,
        post == pre.update(id, None),
    ensures
        links_ok(post, NULL),
        masses_ok(post),
{
    assert forall|i: int| #[trigger] is_live(post, i) implies links_ok_at(post, i) && mass_ok_at(
        post,
        i,
    ) by {
        assert(is_live(pre, i));
        assert(links_ok_at(pre, i));
        assert(mass_ok_at(pre, i));
        match pre[i]->0 {
            TreeNode::Internal { left, right, .. } => {
                assert(is_child(pre, left as int, i));
                assert(is_child(pre, right as int, i));
                assert(left != id);
                assert(right != id);
            },
            TreeNode::Leaf { .. } => {},
        }
    }
    assert forall|c: int, p: int, q: int|
        #[trigger] is_child(post, c, p) && #[trigger] is_child(post, c, q) implies p == q by {
        assert(is_child(pre, c, p) && is_child(pre, c, q));
    }
    assert forall|p: int| !#[trigger] is_child(post, NULL as int, p) by {
        if is_child(post, NULL as int, p) {
            assert(is_live(pre, p));
            assert(links_ok_at(pre, p));
        }
    }
}

pub open spec fn rp_leaf(path: Seq<usize>) -> int {
    path[path.len() - 1] as int
}

pub open spec fn rp_par(path: Seq<usize>) -> int {
    path[path.len() - 2] as int
}

pub open spec fn rp_grand(path: Seq<usize>) -> int {
    path[path.len() - 3] as int
}

pub open spec fn rp_sib<S>(pre: Seq<Option<TreeNode<S>>>, path: Seq<usize>) -> int {
    other_child(pre[rp_par(path)]->0, rp_leaf(path) as usize) as int
}

pub open spec fn rp_uncle<S>(pre: Seq<Option<TreeNode<S>>>, path: Seq<usize>) -> int {
    other_child(pre[rp_grand(path)]->0, rp_par(path) as usize) as int
}

/// `s` with slot `id` holding `n`, appended when `id` is past the end.
pub open spec fn put<S>(s: Seq<Option<TreeNode<S>>>, id: int, n: TreeNode<S>) -> Seq<Option<TreeNode<S>>> {
    if id < s.len() {
        s.update(id, Some(n))
    } else {
        s.push(Some(n))
    }
}

/// The nodes once the new leaf `leaf_node` is stored in slot `leaf`, the new
/// internal node `x_node` in slot `x`, and the parent of `path[k]` (if any)
/// points to `x` (before the masses above are raised).
pub open spec fn spliced<S>(
    pre: Seq<Option<TreeNode<S>>>,
    path: Seq<usize>,
    k: int,
    leaf: int,
    x: int,
    leaf_node: TreeNode<S>,
    x_node: TreeNode<S>,
) -> Seq<Option<TreeNode<S>>> {
    let s2 = put(put(pre, leaf, leaf_node), x, x_node);
    if k >= 1 {
        s2.update(path[k - 1] as int, Some(relink(pre[path[k - 1] as int]->0, path[k], x as usize)))
    } else {
        s2
    }
}

/// The nodes once the single-copy leaf at the end of `path` and its parent
/// are freed and the grandparent, if any, points to the leaf's sibling
/// (before the masses above are lowered).
pub open spec fn unlinked<S>(pre: Seq<Option<TreeNode<S>>>, path: Seq<usize>) -> Seq<Option<TreeNode<S>>> {
    let base = pre.update(rp_leaf(path), None).update(rp_par(path), None);
    if path.len() >= 3 {
        base.update(
            rp_grand(path),
            Some(relink(pre[rp_grand(path)]->0, rp_par(path) as usize, rp_sib(pre, path) as usize)),
        )
    } else {
        base
    }
}

/// `post` is `pre` with the leaf at the end of `path` and its parent freed,
/// and the leaf's sibling put in the parent's place.
pub open spec fn remove_pair_premise<S>(
    pre: Seq<Option<TreeNode<S>>>,
    post: Seq<Option<TreeNode<S>>>,
    root: usize,
    path: Seq<usize>,
    new_root: usize,
) -> bool {
    &&& links_ok(pre, root)
    &&& masses_ok(pre)
    &&& valid_path(pre, root, path)
    &&& path.len() >= 2
    &&& mass_at(pre, rp_leaf(path)) == 1
    &&& post.len() == pre.len()
    &&& post[rp_leaf(path)] is None
    &&& post[rp_par(path)] is None
    &&& path.len() >= 3 ==> post[rp_grand(path)] == Some(
        relink(pre[rp_grand(path)]->0, rp_par(path) as usize, rp_sib(pre, path) as usize),
    )
    &&& forall|i: int|
        0 <= i < pre.len() && i != rp_leaf(path) && i != rp_par(path) && (path.len() < 3 || i
            != rp_grand(path)) ==> #[trigger] post[i] == pre[i]
    &&& new_root == if path.len() >= 3 {
        root
    } else {
        rp_sib(pre, path) as usize
    }
}

#[verifier::spinoff_prover]
proof fn lemma_remove_facts<S>(
    pre: Seq<Option<TreeNode<S>>>,
    post: Seq<Option<TreeNode<S>>>,
    root: usize,
    path: Seq<usize>,
    new_root: usize,
)
    requires
        remove_pair_premise(pre, post, root, path, new_root),
    ensures
        root != NULL,
        is_child(pre, rp_leaf(path), rp_par(path)),
        is_child(pre, rp_sib(pre, path), rp_par(path)),
        is_live(pre, rp_sib(pre, path)),
        is_live(pre, rp_par(path)),
        rp_sib(pre, path) != rp_leaf(path),
        rp_sib(pre, path) != rp_par(path),
        mass_at(pre, rp_par(path)) == mass_at(pre, rp_sib(pre, path)) + 1,
        mass_at(pre, rp_sib(pre, path)) >= 1,
        forall|t: int|
            0 <= t < path.len() - 1 ==> mass_at(pre, #[trigger] path[t] as int) > mass_at(
                pre,
                rp_sib(pre, path),
            ),
        forall|t: int| 0 <= t < path.len() ==> #[trigger] is_live(pre, path[t] as int),
        forall|j: int, k: int| 0 <= j < k < path.len() ==> #[trigger] path[j] != #[trigger] path[k],
        forall|i: int| #[trigger] is_child(pre, rp_leaf(path), i) ==> i == rp_par(path),
        forall|i: int|
            #[trigger] is_child(pre, rp_par(path), i) ==> path.len() >= 3 && i == rp_grand(path),
        path.len() < 3 ==> rp_par(path) == root,
        path.len() >= 3 ==> {
            &&& is_child(pre, rp_par(path), rp_grand(path))
            &&& is_child(pre, rp_uncle(pre, path), rp_grand(path))
            &&& is_live(pre, rp_uncle(pre, path))
            &&& rp_uncle(pre, path) != rp_par(path)
            &&& rp_uncle(pre, path) != rp_sib(pre, path)
            &&& rp_uncle(pre, path) != rp_leaf(path)
            &&& rp_uncle(pre, path) != rp_grand(path)
            &&& rp_sib(pre, path) != rp_grand(path)
            &&& mass_at(pre, rp_grand(path)) == mass_at(pre, rp_par(path)) + mass_at(
                pre,
                rp_uncle(pre, path),
            )
            &&& mass_at(pre, rp_uncle(pre, path)) >= 1
            &&& forall|t: int|
                0 <= t < path.len() - 2 ==> mass_at(pre, #[trigger] path[t] as int) > mass_at(
                    pre,
                    rp_uncle(pre, path),
                )
        },
{
    let n = path.len() as int;
    lemma_valid_path_root(pre, root, path);
    lemma_chain(pre, root, path, n);
    let leaf = rp_leaf(path);
    let par = rp_par(path);
    assert(path_step(pre, path, n - 2));
    assert(is_live(pre, par));
    assert(links_ok_at(pre, par));
    assert(mass_ok_at(pre, par));
    let sib = rp_sib(pre, path);
    assert(is_child(pre, sib, par));
    assert(is_live(pre, sib));
    assert(mass_ok_at(pre, sib));
    assert forall|t: int| 0 <= t < n - 1 implies mass_at(pre, #[trigger] path[t] as int) > mass_at(
        pre,
        sib,
    ) by {
        if t < n - 2 {
            assert(mass_at(pre, path[t] as int) >= mass_at(pre, path[n - 2] as int) + (n - 2 - t));
        }
    }
    assert forall|i: int| #[trigger] is_child(pre, leaf, i) implies i == par by {
        assert(is_child(pre, leaf, par));
    }
    if n >= 3 {
        let g = rp_grand(path);
        assert(path_step(pre, path, n - 3));
        assert(is_live(pre, g));
        assert(links_ok_at(pre, g));
        assert(mass_ok_at(pre, g));
        let o = rp_uncle(pre, path);
        assert(is_child(pre, o, g));
        assert(is_live(pre, o));
        assert(mass_ok_at(pre, o));
        assert(o != sib) by {
            if o == sib {
                assert(is_child(pre, sib, g));
            }
        }
        assert forall|t: int| 0 <= t < n - 2 implies mass_at(pre, #[trigger] path[t] as int)
            > mass_at(pre, o) by {
            if t < n - 3 {
                assert(mass_at(pre, path[t] as int) >= mass_at(pre, path[n - 3] as int) + (n - 3
                    - t));
            }
        }
        assert forall|i: int| #[trigger] is_child(pre, par, i) implies n >= 3 && i == g by {
            assert(is_child(pre, par, g));
        }
    } else {
        assert forall|i: int| #[trigger] is_child(pre, par, i) implies n >= 3 && i == rp_grand(
            path,
        ) by {
            assert(par == root as int);
        }
    }
}

/// Which parent-child links `post` has.
#[verifier::spinoff_prover]
proof fn lemma_remove_child<S>(
    pre: Seq<Option<TreeNode<S>>>,
    post: Seq<Option<TreeNode<S>>>,
    root: usize,
    path: Seq<usize>,
    new_root: usize,
)
    requires
        remove_pair_premise(pre, post, root, path, new_root),
    ensures
        forall|c: int, p: int|
            #[trigger] is_child(post, c, p) <==> if path.len() >= 3 && p == rp_grand(path) {
                c == rp_sib(pre, path) || c == rp_uncle(pre, path)
            } else {
                p != rp_leaf(path) && p != rp_par(path) && is_child(pre, c, p)
            },
{
    lemma_remove_facts(pre, post, root, path, new_root);
    assert forall|c: int, p: int|
        #[trigger] is_child(post, c, p) <==> if path.len() >= 3 && p == rp_grand(path) {
            c == rp_sib(pre, path) || c == rp_uncle(pre, path)
        } else {
            p != rp_leaf(path) && p != rp_par(path) && is_child(pre, c, p)
        } by {
        if path.len() >= 3 && p == rp_grand(path) {
            assert(is_live(pre, p));
        } else if p != rp_leaf(path) && p != rp_par(path) && 0 <= p < pre.len() {
            assert(post[p] == pre[p]);
        }
    }
}

#[verifier::spinoff_prover]
proof fn lemma_remove_links<S>(
    pre: Seq<Option<TreeNode<S>>>,
    post: Seq<Option<TreeNode<S>>>,
    root: usize,
    path: Seq<usize>,
    new_root: usize,
)
    requires
        remove_pair_premise(pre, post, root, path, new_root),
    ensures
        links_ok(post, new_root),
{
    lemma_remove_facts(pre, post, root, path, new_root);
    lemma_remove_child(pre, post, root, path, new_root);
    let n = path.len() as int;
    let leaf = rp_leaf(path);
    let par = rp_par(path);
    let sib = rp_sib(pre, path);
    // Live slots of `post` other than the leaf and its parent.
    assert forall|i: int| #[trigger] is_live(post, i) implies links_ok_at(post, i) by {
        assert(i != leaf && i != par);
        assert(is_live(pre, i));
        if n >= 3 && i == rp_grand(path) {
            let o = rp_uncle(pre, path);
            assert(post[sib] == pre[sib]);
            assert(post[o] == pre[o]);
            match pre[i]->0 {
                TreeNode::Internal { .. } => {},
                TreeNode::Leaf { .. } => {},
            }
        } else {
            assert(post[i] == pre[i]);
            assert(links_ok_at(pre, i));
            match pre[i]->0 {
                TreeNode::Internal { left, right, .. } => {
                    assert(is_child(pre, left as int, i));
                    assert(is_child(pre, right as int, i));
                    if n >= 3 && left as int == rp_grand(path) {
                    } else {
                        assert(left as int != leaf && left as int != par);
                        assert(post[left as int] == pre[left as int]);
                    }
                    if n >= 3 && right as int == rp_grand(path) {
                    } else {
                        assert(right as int != leaf && right as int != par);
                        assert(post[right as int] == pre[right as int]);
                    }
                },
                TreeNode::Leaf { .. } => {},
            }
        }
    }
    assert forall|c: int, p: int, q: int|
        #[trigger] is_child(post, c, p) && #[trigger] is_child(post, c, q) implies p == q by {
        if n >= 3 && p == rp_grand(path) && q != p {
            if c == sib {
                assert(is_child(pre, sib, q));
            } else {
                assert(is_child(pre, c, q));
            }
        } else if n >= 3 && q == rp_grand(path) && q != p {
            if c == sib {
                assert(is_child(pre, sib, p));
            } else {
                assert(is_child(pre, c, p));
            }
        } else if p != q {
            assert(is_child(pre, c, p) && is_child(pre, c, q));
        }
    }
    assert forall|p: int| !#[trigger] is_child(post, new_root as int, p) by {
        if is_child(post, new_root as int, p) {
            if n >= 3 {
                if p == rp_grand(path) {
                    if new_root as int == sib {
                        assert(is_child(pre, root as int, par));
                    } else {
                        assert(is_child(pre, root as int, p));
                    }
                } else {
                    assert(is_child(pre, root as int, p));
                }
            } else {
                assert(is_child(pre, sib, p));
            }
        }
    }
    if n >= 3 {
        assert(path[0] == root);
        assert(root as int != leaf && root as int != par);
        if root as int != rp_grand(path) {
            assert(post[root as int] == pre[root as int]);
        }
    } else {
        assert(post[sib] == pre[sib]);
    }
}

/// Removing a leaf together with its parent, and putting the leaf's sibling
/// in the parent's place, keeps the links and every mass equation except at
/// the grandparent, whose mass is one above its children's.
#[verifier::spinoff_prover]
proof fn lemma_remove_pair<S>(
    pre: Seq<Option<TreeNode<S>>>,
    post: Seq<Option<TreeNode<S>>>,
    root: usize,
    path: Seq<usize>,
    new_root: usize,
)
    requires
        remove_pair_premise(pre, post, root, path, new_root),
    ensures
        links_ok(post, new_root),
        forall|i: int|
            #[trigger] is_live(post, i) && (path.len() < 3 || i != rp_grand(path))
                ==> mass_ok_at(post, i),
        path.len() >= 3 ==> is_chain(post, path, path.len() - 2),
        path.len() >= 3 ==> {
            &&& post[rp_grand(path)] matches Some(TreeNode::Internal { left, right, .. })
            &&& (left == rp_sib(pre, path) && right == rp_uncle(pre, path)) || (left == rp_uncle(
                pre,
                path,
            ) && right == rp_sib(pre, path))
            &&& mass_at(post, rp_grand(path)) == mass_at(pre, rp_sib(pre, path)) + 1 + mass_at(
                pre,
                rp_uncle(pre, path),
            )
            &&& post[rp_sib(pre, path)] == pre[rp_sib(pre, path)]
            &&& post[rp_uncle(pre, path)] == pre[rp_uncle(pre, path)]
            &&& forall|t: int|
                0 <= t < path.len() - 2 ==> #[trigger] path[t] != rp_sib(pre, path) && path[t]
                    != rp_uncle(pre, path)
            &&& forall|t: int|
                0 <= t < path.len() - 3 ==> #[trigger] post[path[t] as int] == pre[path[t] as int]
        },
        path.len() < 3 ==> mass_at(post, new_root as int) == mass_at(pre, root as int) - 1,
{
    lemma_remove_facts(pre, post, root, path, new_root);
    lemma_remove_child(pre, post, root, path, new_root);
    lemma_remove_links(pre, post, root, path, new_root);
    let n = path.len() as int;
    let leaf = rp_leaf(path);
    let par = rp_par(path);
    let sib = rp_sib(pre, path);
    assert forall|i: int|
        #[trigger] is_live(post, i) && (n < 3 || i != rp_grand(path)) implies mass_ok_at(post, i) by {
        assert(i != leaf && i != par);
        assert(post[i] == pre[i]);
        assert(is_live(pre, i));
        assert(mass_ok_at(pre, i));
        assert(links_ok_at(pre, i));
        match pre[i]->0 {
            TreeNode::Internal { left, right, .. } => {
                assert(is_child(pre, left as int, i));
                assert(is_child(pre, right as int, i));
                if !(n >= 3 && left as int == rp_grand(path)) {
                    assert(left as int != leaf && left as int != par);
                    assert(post[left as int] == pre[left as int]);
                }
                if !(n >= 3 && right as int == rp_grand(path)) {
                    assert(right as int != leaf && right as int != par);
                    assert(post[right as int] == pre[right as int]);
                }
            },
            TreeNode::Leaf { .. } => {},
        }
    }
    if n >= 3 {
        let g = rp_grand(path);
        let o = rp_uncle(pre, path);
        assert(post[sib] == pre[sib]);
        assert(post[o] == pre[o]);
        assert forall|k: int| 0 <= k < n - 2 - 1 implies #[trigger] path_step(post, path, k) by {
            assert(path_step(pre, path, k));
            assert(path[k] != path[n - 3] && path[k] != path[n - 2] && path[k] != path[n - 1]);
            assert(post[path[k] as int] == pre[path[k] as int]);
        }
        assert forall|t: int| 0 <= t < n - 2 implies #[trigger] path[t] != sib && path[t] != o by {
            assert(mass_at(pre, path[t] as int) > mass_at(pre, sib));
            assert(mass_at(pre, path[t] as int) > mass_at(pre, o));
        }
        assert forall|t: int| 0 <= t < n - 3 implies #[trigger] post[path[t] as int]
            == pre[path[t] as int] by {
            assert(is_live(pre, path[t] as int));
            assert(path[t] != path[n - 3] && path[t] != path[n - 2] && path[t] != path[n - 1]);
        }
        match pre[g]->0 {
            TreeNode::Internal { .. } => {},
            TreeNode::Leaf { .. } => {},
        }
    } else {
        assert(post[sib] == pre[sib]);
    }
}

/// `s3` is `s1` (which already holds the new leaf `leaf`) with a new internal
/// node `x` whose children are `path[k]` and `leaf`, hung in `path[k]`'s place.
pub open spec fn splice_premise<S>(
    s1: Seq<Option<TreeNode<S>>>,
    s3: Seq<Option<TreeNode<S>>>,
    root: usize,
    path: Seq<usize>,
    k: int,
    leaf: int,
    x: int,
    new_root: usize,
) -> bool {
    &&& links_ok(s1, root)
    &&& masses_ok(s1)
    &&& valid_path(s1, root, path)
    &&& 0 <= k < path.len()
    &&& is_live(s1, leaf)
    &&& s1[leaf]->0 is Leaf
    &&& mass_at(s1, leaf) == 1
    &&& forall|p: int| !#[trigger] is_child(s1, leaf, p)
    &&& forall|j: int| 0 <= j < path.len() ==> #[trigger] path[j] != leaf
    &&& 0 <= x < s3.len()
    &&& s3.len() == s1.len() || s3.len() == s1.len() + 1
    &&& s3.len() == s1.len() + 1 ==> x == s1.len()
    &&& x < s1.len() ==> s1[x] is None
    &&& s3.len() < usize::MAX
    &&& s3[x] matches Some(TreeNode::Internal { left, right, mass, .. }) && ((left == path[k]
        && right == leaf) || (left == leaf && right == path[k])) && mass == mass_at(
        s1,
        path[k] as int,
    ) + 1
    &&& k >= 1 ==> s3[path[k - 1] as int] == Some(
        relink(s1[path[k - 1] as int]->0, path[k], x as usize),
    )
    &&& forall|i: int|
        0 <= i < s1.len() && i != x && (k < 1 || i != path[k - 1]) ==> #[trigger] s3[i] == s1[i]
    &&& new_root == if k >= 1 {
        root
    } else {
        x as usize
    }
}

pub open spec fn sp_uncle<S>(s1: Seq<Option<TreeNode<S>>>, path: Seq<usize>, k: int) -> int {
    other_child(s1[path[k - 1] as int]->0, path[k]) as int
}

#[verifier::spinoff_prover]
proof fn lemma_splice_facts<S>(
    s1: Seq<Option<TreeNode<S>>>,
    s3: Seq<Option<TreeNode<S>>>,
    root: usize,
    path: Seq<usize>,
    k: int,
    leaf: int,
    x: int,
    new_root: usize,
)
    requires
        splice_premise(s1, s3, root, path, k, leaf, x, new_root),
    ensures
        root != NULL,
        !is_live(s1, x),
        forall|q: int| !#[trigger] is_child(s1, x, q),
        forall|t: int| 0 <= t < path.len() ==> #[trigger] is_live(s1, path[t] as int),
        forall|j: int, t: int| 0 <= j < t < path.len() ==> #[trigger] path[j] != #[trigger] path[t],
        forall|t: int| 0 <= t < path.len() ==> mass_at(s1, #[trigger] path[t] as int) <= mass_at(s1, root as int),
        path[k] != x,
        leaf != x,
        path[k] != leaf,
        forall|q: int| #[trigger] is_child(s1, path[k] as int, q) ==> k >= 1 && q == path[k - 1],
        k >= 1 ==> {
            &&& is_child(s1, path[k] as int, path[k - 1] as int)
            &&& is_child(s1, sp_uncle(s1, path, k), path[k - 1] as int)
            &&& is_live(s1, path[k - 1] as int)
            &&& is_live(s1, sp_uncle(s1, path, k))
            &&& sp_uncle(s1, path, k) != path[k]
            &&& sp_uncle(s1, path, k) != x
            &&& sp_uncle(s1, path, k) != leaf
            &&& sp_uncle(s1, path, k) != path[k - 1]
            &&& path[k - 1] != x
            &&& mass_at(s1, path[k - 1] as int) == mass_at(s1, path[k] as int) + mass_at(
                s1,
                sp_uncle(s1, path, k),
            )
            &&& forall|q: int|
                #[trigger] is_child(s1, sp_uncle(s1, path, k), q) ==> q == path[k - 1]
            &&& forall|j: int|
                0 <= j < k ==> mass_at(s1, #[trigger] path[j] as int) > mass_at(
                    s1,
                    sp_uncle(s1, path, k),
                )
        },
{
    let n = path.len() as int;
    lemma_valid_path_root(s1, root, path);
    lemma_chain(s1, root, path, n);
    assert forall|q: int| !#[trigger] is_child(s1, x, q) by {
        if is_child(s1, x, q) {
            assert(links_ok_at(s1, q));
        }
    }
    assert forall|t: int| 0 <= t < n implies mass_at(s1, #[trigger] path[t] as int) <= mass_at(
        s1,
        root as int,
    ) by {
        if t > 0 {
            assert(mass_at(s1, path[0] as int) >= mass_at(s1, path[t] as int) + t);
        }
    }
    let a = path[k] as int;
    assert(is_live(s1, a));
    if k >= 1 {
        let p = path[k - 1] as int;
        assert(path_step(s1, path, k - 1));
        assert(is_live(s1, p));
        assert(links_ok_at(s1, p));
        assert(mass_ok_at(s1, p));
        let o = sp_uncle(s1, path, k);
        assert(is_child(s1, o, p));
        assert(is_live(s1, o));
        assert(mass_ok_at(s1, o));
        assert forall|q: int| #[trigger] is_child(s1, o, q) implies q == p by {
            assert(is_child(s1, o, p));
        }
        assert forall|q: int| #[trigger] is_child(s1, a, q) implies k >= 1 && q == path[k - 1] by {
            assert(is_child(s1, a, p));
        }
        assert forall|j: int| 0 <= j < k implies mass_at(s1, #[trigger] path[j] as int) > mass_at(
            s1,
            o,
        ) by {
            if j < k - 1 {
                assert(mass_at(s1, path[j] as int) >= mass_at(s1, path[k - 1] as int) + (k - 1
                    - j));
            }
        }
    } else {
        assert forall|q: int| #[trigger] is_child(s1, a, q) implies k >= 1 && q == path[k - 1] by {
            assert(a == root as int);
        }
    }
}

#[verifier::spinoff_prover]
proof fn lemma_splice_child<S>(
    s1: Seq<Option<TreeNode<S>>>,
    s3: Seq<Option<TreeNode<S>>>,
    root: usize,
    path: Seq<usize>,
    k: int,
    leaf: int,
    x: int,
    new_root: usize,
)
    requires
        splice_premise(s1, s3, root, path, k, leaf, x, new_root),
    ensures
        forall|c: int, p: int|
            #[trigger] is_child(s3, c, p) <==> if p == x {
                c == path[k] || c == leaf
            } else if k >= 1 && p == path[k - 1] {
                c == x || c == sp_uncle(s1, path, k)
            } else {
                is_child(s1, c, p)
            },
{
    lemma_splice_facts(s1, s3, root, path, k, leaf, x, new_root);
    assert forall|c: int, p: int|
        #[trigger] is_child(s3, c, p) <==> if p == x {
            c == path[k] || c == leaf
        } else if k >= 1 && p == path[k - 1] {
            c == x || c == sp_uncle(s1, path, k)
        } else {
            is_child(s1, c, p)
        } by {
        if p == x {
        } else if k >= 1 && p == path[k - 1] {
            assert(is_live(s1, p));
        } else if 0 <= p < s1.len() {
            assert(s3[p] == s1[p]);
        } else if 0 <= p < s3.len() {
            assert(s3.len() == s1.len() + 1);
        }
    }
}

#[verifier::spinoff_prover]
proof fn lemma_splice_links<S>(
    s1: Seq<Option<TreeNode<S>>>,
    s3: Seq<Option<TreeNode<S>>>,
    root: usize,
    path: Seq<usize>,
    k: int,
    leaf: int,
    x: int,
    new_root: usize,
)
    requires
        splice_premise(s1, s3, root, path, k, leaf, x, new_root),
    ensures
        links_ok(s3, new_root),
{
    lemma_splice_facts(s1, s3, root, path, k, leaf, x, new_root);
    lemma_splice_child(s1, s3, root, path, k, leaf, x, new_root);
    let a = path[k] as int;
    assert(s3[a] == s1[a]) by {
        if k >= 1 {
            assert(path[k - 1] != path[k]);
        }
    }
    assert(s3[leaf] == s1[leaf]) by {
        if k >= 1 {
            assert(path[k - 1] as int != leaf);
        }
    }
    assert forall|i: int| #[trigger] is_live(s3, i) implies links_ok_at(s3, i) by {
        if i == x {
        } else if k >= 1 && i == path[k - 1] {
            let o = sp_uncle(s1, path, k);
            assert(s3[o] == s1[o]);
            match s1[i]->0 {
                TreeNode::Internal { .. } => {},
                TreeNode::Leaf { .. } => {},
            }
        } else {
            assert(i < s1.len());
            assert(s3[i] == s1[i]);
            assert(is_live(s1, i));
            assert(links_ok_at(s1, i));
            match s1[i]->0 {
                TreeNode::Internal { left, right, .. } => {
                    assert(is_child(s1, left as int, i));
                    assert(is_child(s1, right as int, i));
                    assert(left as int != x && right as int != x);
                    if !(k >= 1 && left == path[k - 1]) {
                        assert(s3[left as int] == s1[left as int]);
                    }
                    if !(k >= 1 && right == path[k - 1]) {
                        assert(s3[right as int] == s1[right as int]);
                    }
                },
                TreeNode::Leaf { .. } => {},
            }
        }
    }
    assert forall|c: int, p: int, q: int|
        #[trigger] is_child(s3, c, p) && #[trigger] is_child(s3, c, q) implies p == q by {
        if p != q {
            let kp = if p == x {
                0int
            } else if k >= 1 && p == path[k - 1] {
                1int
            } else {
                2int
            };
            let kq = if q == x {
                0int
            } else if k >= 1 && q == path[k - 1] {
                1int
            } else {
                2int
            };
            if kp == 2 && kq == 2 {
                assert(is_child(s1, c, p) && is_child(s1, c, q));
            } else if kp == 2 {
                assert(is_child(s1, c, p));
            } else if kq == 2 {
                assert(is_child(s1, c, q));
            }
        }
    }
    assert forall|p: int| !#[trigger] is_child(s3, new_root as int, p) by {
        if k >= 1 {
            assert(path[0] != path[k]);
            assert(path[0] as int != leaf);
            assert(!is_child(s1, root as int, p));
        }
    }
    if k >= 1 {
        if !(root as int == path[k - 1]) {
            assert(is_live(s1, root as int));
            assert(root as int != x);
            assert(s3[root as int] == s1[root as int]);
        }
    }
}

#[verifier::spinoff_prover]
proof fn lemma_splice_masses<S>(
    s1: Seq<Option<TreeNode<S>>>,
    s3: Seq<Option<TreeNode<S>>>,
    root: usize,
    path: Seq<usize>,
    k: int,
    leaf: int,
    x: int,
    new_root: usize,
)
    requires
        splice_premise(s1, s3, root, path, k, leaf, x, new_root),
    ensures
        forall|i: int|
            #[trigger] is_live(s3, i) && (k < 1 || i != path[k - 1]) ==> mass_ok_at(s3, i),
        k >= 1 ==> is_chain(s3, path, k),
        k >= 1 ==> mass_at(s3, path[k - 1] as int) == mass_at(s1, path[k - 1] as int),
        forall|j: int| 0 <= j < k ==> mass_at(s3, #[trigger] path[j] as int) == mass_at(s1, path[j] as int),
        k == 0 ==> mass_at(s3, x) == mass_at(s1, root as int) + 1,
{
    lemma_splice_facts(s1, s3, root, path, k, leaf, x, new_root);
    lemma_splice_child(s1, s3, root, path, k, leaf, x, new_root);
    let a = path[k] as int;
    assert(s3[a] == s1[a]) by {
        if k >= 1 {
            assert(path[k - 1] != path[k]);
        }
    }
    assert(s3[leaf] == s1[leaf]) by {
        if k >= 1 {
            assert(path[k - 1] as int != leaf);
        }
    }
    assert(is_live(s1, a) && mass_ok_at(s1, a));
    assert forall|i: int|
        #[trigger] is_live(s3, i) && (k < 1 || i != path[k - 1]) implies mass_ok_at(s3, i) by {
        if i == x {
        } else {
            assert(i < s1.len());
            assert(s3[i] == s1[i]);
            assert(is_live(s1, i));
            assert(mass_ok_at(s1, i));
            match s1[i]->0 {
                TreeNode::Internal { left, right, .. } => {
                    assert(is_child(s1, left as int, i));
                    assert(is_child(s1, right as int, i));
                    assert(left as int != x && right as int != x);
                    if !(k >= 1 && left == path[k - 1]) {
                        assert(s3[left as int] == s1[left as int]);
                    } else {
                        match s1[left as int]->0 {
                            TreeNode::Internal { .. } => {},
                            TreeNode::Leaf { .. } => {},
                        }
                    }
                    if !(k >= 1 && right == path[k - 1]) {
                        assert(s3[right as int] == s1[right as int]);
                    } else {
                        match s1[right as int]->0 {
                            TreeNode::Internal { .. } => {},
                            TreeNode::Leaf { .. } => {},
                        }
                    }
                },
                TreeNode::Leaf { .. } => {},
            }
        }
    }
    if k >= 1 {
        let p = path[k - 1] as int;
        match s1[p]->0 {
            TreeNode::Internal { .. } => {},
            TreeNode::Leaf { .. } => {},
        }
        assert forall|j: int| 0 <= j < k - 1 implies #[trigger] path_step(s3, path, j) by {
            assert(path_step(s1, path, j));
            assert(path[j] != path[k - 1]);
            assert(is_live(s1, path[j] as int));
            assert(path[j] as int != x);
            assert(s3[path[j] as int] == s1[path[j] as int]);
        }
    }
    assert forall|j: int| 0 <= j < k implies mass_at(s3, #[trigger] path[j] as int) == mass_at(
        s1,
        path[j] as int,
    ) by {
        assert(is_live(s1, path[j] as int));
        if j == k - 1 {
            match s1[path[j] as int]->0 {
                TreeNode::Internal { .. } => {},
                TreeNode::Leaf { .. } => {},
            }
        } else {
            assert(path[j] != path[k - 1]);
            assert(s3[path[j] as int] == s1[path[j] as int]);
        }
    }
}

/// A valid path starts at a live root.
pub proof fn lemma_valid_path_root<S>(nodes: Seq<Option<TreeNode<S>>>, root: usize, path: Seq<usize>)
    requires
        links_ok(nodes, root),
        valid_path(nodes, root, path),
    ensures
        root != NULL,
        is_live(nodes, root as int),
{
    if path.len() == 1 {
        assert(path.last() == path[0]);
    } else {
        assert(path_step(nodes, path, 0));
    }
}

/// A fresh leaf in a slot that no node refers to keeps the tree links and
/// mass equations.
pub proof fn lemma_fresh_leaf<S>(
    pre: Seq<Option<TreeNode<S>>>,
    post: Seq<Option<TreeNode<S>>>,
    root: usize,
    id: int,
)
    requires
        links_ok(pre, root),
        masses_ok(pre),
        post.len() < usize::MAX,
        0 <= id < post.len(),
        post.len() == pre.len() || post.len() == pre.len() + 1,
        post.len() == pre.len() + 1 ==> id == pre.len(),
        id < pre.len() ==> pre[id] is None,
        post[id] matches Some(TreeNode::Leaf { mass, .. }) && mass >= 1,
        forall|i: int| 0 <= i < pre.len() && i != id ==> #[trigger] post[i] == pre[i],
    ensures
        links_ok(post, root),
        masses_ok(post),
        forall|c: int, p: int| #[trigger] is_child(post, c, p) == is_child(pre, c, p),
        forall|p: int| !#[trigger] is_child(post, id, p),
{
    assert(!is_live(pre, id));
    assert forall|c: int, p: int| #[trigger] is_child(post, c, p) == is_child(pre, c, p) by {
        if p != id && 0 <= p < pre.len() {
            assert(post[p] == pre[p]);
        }
    }
    assert forall|i: int| #[trigger] is_live(post, i) implies links_ok_at(post, i) && mass_ok_at(
        post,
        i,
    ) by {
        if i != id {
            assert(post[i] == pre[i]);
            assert(is_live(pre, i));
            assert(links_ok_at(pre, i));
            assert(mass_ok_at(pre, i));
            match pre[i]->0 {
                TreeNode::Internal { left, right, .. } => {
                    assert(left != id);
                    assert(right != id);
                    assert(post[left as int] == pre[left as int]);
                    assert(post[right as int] == pre[right as int]);
                },
                TreeNode::Leaf { .. } => {},
            }
        }
    }
    assert forall|p: int| !#[trigger] is_child(post, id, p) by {
        if is_child(post, id, p) {
            assert(is_child(pre, id, p));
            assert(links_ok_at(pre, p));
        }
    }
    assert forall|c: int, p: int, q: int|
        #[trigger] is_child(post, c, p) && #[trigger] is_child(post, c, q) implies p == q by {
        assert(is_child(pre, c, p) && is_child(pre, c, q));
    }
    assert forall|p: int| !#[trigger] is_child(post, root as int, p) by {
        assert(!is_child(pre, root as int, p));
    }
    if root != NULL {
        assert(is_live(pre, root as int));
        assert(root != id);
        assert(post[root as int] == pre[root as int]);
    }
}

/// Tree links depend only on which slots are live and on their children.
pub proof fn lemma_same_links<S>(pre: Seq<Option<TreeNode<S>>>, post: Seq<Option<TreeNode<S>>>, root: usize)
    requires
        pre.len() == post.len(),
        forall|i: int|
            0 <= i < pre.len() ==> {
                &&& (pre[i] is Some <==> #[trigger] post[i] is Some)
                &&& pre[i] is Some ==> same_skel(pre[i]->0, post[i]->0)
            },
        links_ok(pre, root),
    ensures
        links_ok(post, root),
        forall|c: int, p: int| #[trigger] is_child(post, c, p) == is_child(pre, c, p),
{
    assert forall|c: int, p: int| #[trigger] is_child(post, c, p) == is_child(pre, c, p) by {
        if 0 <= p < pre.len() {
            assert(pre[p] is Some <==> post[p] is Some);
        }
    }
    assert forall|i: int| #[trigger] is_live(post, i) implies links_ok_at(post, i) by {
        assert(post[i] is Some);
        assert(is_live(pre, i));
        assert(links_ok_at(pre, i));
        match pre[i]->0 {
            TreeNode::Internal { left, right, .. } => {
                assert(pre[left as int] is Some <==> post[left as int] is Some);
                assert(pre[right as int] is Some <==> post[right as int] is Some);
            },
            TreeNode::Leaf { .. } => {},
        }
    }
    assert forall|c: int, p: int, q: int|
        #[trigger] is_child(post, c, p) && #[trigger] is_child(post, c, q) implies p == q by {
        assert(is_child(pre, c, p) && is_child(pre, c, q));
    }
    assert forall|p: int| !#[trigger] is_child(post, root as int, p) by {
        assert(!is_child(pre, root as int, p));
    }
    if root != NULL {
        assert(pre[root as int] is Some <==> post[root as int] is Some);
    }
}

/// The conditions of [`lemma_bump`].
pub open spec fn bump_premise<S>(
    pre: Seq<Option<TreeNode<S>>>,
    post: Seq<Option<TreeNode<S>>>,
    root: usize,
    path: Seq<usize>,
    m: int,
    d: int,
) -> bool {
    &&& links_ok(pre, root)
    &&& 0 <= m <= path.len()
    &&& m >= 1 ==> path[0] == root
    &&& bumped_along(pre, post, path, m, d)
    &&& is_chain(pre, path, m)
    &&& forall|j: int, k: int| 0 <= j < k < m ==> #[trigger] path[j] != #[trigger] path[k]
    &&& forall|j: int| 0 <= j < m ==> mass_at(pre, #[trigger] path[j] as int) >= 1
    &&& d >= -1
    &&& forall|i: int|
        #[trigger] is_live(pre, i) && !path.subrange(0, m).contains(i as usize) ==> mass_ok_at(
            pre,
            i,
        )
    &&& forall|j: int| 0 <= j < m - 1 ==> mass_ok_at(pre, #[trigger] path[j] as int)
    &&& m >= 1 ==> mass_ok_at(post, path[m - 1] as int)
}

proof fn lemma_bump_skel<S>(
    pre: Seq<Option<TreeNode<S>>>,
    post: Seq<Option<TreeNode<S>>>,
    path: Seq<usize>,
    m: int,
    d: int,
)
    requires
        0 <= m <= path.len(),
        pre.len() < usize::MAX,
        bumped_along(pre, post, path, m, d),
    ensures
        forall|i: int|
            0 <= i < pre.len() ==> {
                &&& (pre[i] is Some <==> #[trigger] post[i] is Some)
                &&& pre[i] is Some ==> same_skel(pre[i]->0, post[i]->0)
            },
{
    let pm = path.subrange(0, m);
    assert forall|i: int| 0 <= i < pre.len() implies {
        &&& (pre[i] is Some <==> #[trigger] post[i] is Some)
        &&& pre[i] is Some ==> same_skel(pre[i]->0, post[i]->0)
    } by {
        if pm.contains(i as usize) {
            let t = choose|t: int| 0 <= t < m && pm[t] == i as usize;
            assert(path[t] == i as usize);
        } else {
            assert(post[i] == pre[i]);
            if pre[i] is Some {
                match pre[i]->0 {
                    TreeNode::Leaf { .. } => {},
                    TreeNode::Internal { .. } => {},
                }
            }
        }
    }
}

/// A slot of the chain `path[0..m)` has its parent on the chain.
proof fn lemma_chain_parent<S>(
    pre: Seq<Option<TreeNode<S>>>,
    post: Seq<Option<TreeNode<S>>>,
    root: usize,
    path: Seq<usize>,
    m: int,
    d: int,
    c: int,
    p: int,
) -> (t: int)
    requires
        bump_premise(pre, post, root, path, m, d),
        is_child(pre, c, p),
        path.subrange(0, m).contains(c as usize),
    ensures
        path.subrange(0, m).contains(p as usize),
        1 <= t < m,
        path[t] == c,
        path[t - 1] == p,
{
    let pm = path.subrange(0, m);
    let t = choose|t: int| 0 <= t < m && pm[t] == c as usize;
    assert(path[t] == c as usize);
    if t == 0 {
        assert(!is_child(pre, root as int, p));
    } else {
        assert(path_step(pre, path, t - 1));
        assert(is_child(pre, c, path[t - 1] as int));
        assert(pm[t - 1] == path[t - 1]);
    }
    t
}

#[verifier::spinoff_prover]
proof fn lemma_bump_node<S>(
    pre: Seq<Option<TreeNode<S>>>,
    post: Seq<Option<TreeNode<S>>>,
    root: usize,
    path: Seq<usize>,
    m: int,
    d: int,
    i: int,
)
    requires
        bump_premise(pre, post, root, path, m, d),
        forall|x: int|
            0 <= x < pre.len() ==> {
                &&& (pre[x] is Some <==> #[trigger] post[x] is Some)
                &&& pre[x] is Some ==> same_skel(pre[x]->0, post[x]->0)
            },
        is_live(post, i),
    ensures
        mass_ok_at(post, i),
{
    let pm = path.subrange(0, m);
    assert(is_live(pre, i));
    assert(links_ok_at(pre, i));
    if !pm.contains(i as usize) {
        assert(post[i] == pre[i]);
        assert(mass_ok_at(pre, i));
        match pre[i]->0 {
            TreeNode::Internal { left, right, .. } => {
                assert(is_child(pre, left as int, i));
                assert(is_child(pre, right as int, i));
                if pm.contains(left) {
                    lemma_chain_parent(pre, post, root, path, m, d, left as int, i);
                }
                if pm.contains(right) {
                    lemma_chain_parent(pre, post, root, path, m, d, right as int, i);
                }
                assert(post[left as int] == pre[left as int]);
                assert(post[right as int] == pre[right as int]);
            },
            TreeNode::Leaf { .. } => {},
        }
    } else {
        let j = choose|j: int| 0 <= j < m && pm[j] == i as usize;
        assert(path[j] == i as usize);
        if j < m - 1 {
            assert(mass_ok_at(pre, i));
            assert(path_step(pre, path, j));
            let c = path[j + 1] as int;
            assert(pm[j + 1] == c as usize);
            match pre[i]->0 {
                TreeNode::Internal { left, right, .. } => {
                    let o = if c == left as int {
                        right as int
                    } else {
                        left as int
                    };
                    assert(is_child(pre, o, i));
                    assert(o != c);
                    if pm.contains(o as usize) {
                        let t = lemma_chain_parent(pre, post, root, path, m, d, o, i);
                        assert(path[t - 1] == path[j]);
                    }
                    assert(post[o] == pre[o]);
                    assert(is_live(pre, o));
                    assert(mass_ok_at(pre, o));
                    assert(mass_at(post, c) == mass_at(pre, c) + d);
                    assert(mass_at(pre, c) >= 1);
                    match post[i]->0 {
                        TreeNode::Internal { .. } => {},
                        TreeNode::Leaf { .. } => {},
                    }
                },
                TreeNode::Leaf { .. } => {},
            }
        }
    }
}

/// Changing the masses along a chain from the root keeps every mass equation,
/// provided the last changed node ends up balanced.
pub proof fn lemma_bump<S>(
    pre: Seq<Option<TreeNode<S>>>,
    post: Seq<Option<TreeNode<S>>>,
    root: usize,
    path: Seq<usize>,
    m: int,
    d: int,
)
    requires
        bump_premise(pre, post, root, path, m, d),
    ensures
        masses_ok(post),
        links_ok(post, root),
{
    lemma_bump_skel(pre, post, path, m, d);
    lemma_same_links(pre, post, root);
    assert forall|i: int| #[trigger] is_live(post, i) implies mass_ok_at(post, i) by {
        lemma_bump_node(pre, post, root, path, m, d, i);
    }
}

/// Along a chain that starts at the root, every node is live, every node but
/// the last is internal, and masses drop by at least one per step.
#[verifier::spinoff_prover]
pub proof fn lemma_chain<S>(nodes: Seq<Option<TreeNode<S>>>, root: usize, path: Seq<usize>, n: int)
    requires
        links_ok(nodes, root),
        masses_ok(nodes),
        root != NULL,
        0 < n <= path.len(),
        path[0] == root,
        is_chain(nodes, path, n),
    ensures
        forall|k: int| 0 <= k < n ==> #[trigger] is_live(nodes, path[k] as int),
        forall|k: int| 0 <= k < n - 1 ==> nodes[#[trigger] path[k] as int]->0 is Internal,
        forall|j: int, k: int|
            0 <= j < k < n ==> mass_at(nodes, #[trigger] path[j] as int) >= mass_at(
                nodes,
                #[trigger] path[k] as int,
            ) + (k - j),
        forall|j: int, k: int| 0 <= j < k < n ==> #[trigger] path[j] != #[trigger] path[k],
    decreases n,
{
    if n > 1 {
        lemma_chain(nodes, root, path, n - 1);
        let p = path[n - 2] as int;
        let c = path[n - 1] as int;
        assert(path_step(nodes, path, n - 2));
        assert(is_live(nodes, p));
        assert(links_ok_at(nodes, p));
        assert(mass_ok_at(nodes, p));
        match nodes[p]->0 {
            TreeNode::Internal { left, right, .. } => {
                assert(is_live(nodes, left as int));
                assert(is_live(nodes, right as int));
                assert(mass_ok_at(nodes, left as int));
                assert(mass_ok_at(nodes, right as int));
                assert(mass_at(nodes, c) + 1 <= mass_at(nodes, p));
            },
            TreeNode::Leaf { .. } => {},
        }
        assert forall|j: int, k: int| 0 <= j < k < n implies mass_at(
            nodes,
            #[trigger] path[j] as int,
        ) >= mass_at(nodes, #[trigger] path[k] as int) + (k - j) by {
            if k == n - 1 && j < n - 2 {
                assert(mass_at(nodes, path[j] as int) >= mass_at(nodes, path[n - 2] as int) + (n
                    - 2 - j));
            }
        }
        assert forall|j: int, k: int| 0 <= j < k < n implies #[trigger] path[j] != #[trigger] path[k] by {
            assert(mass_at(nodes, path[j] as int) >= mass_at(nodes, path[k] as int) + (k - j));
        }
    } else {
        assert(is_live(nodes, path[0] as int));
    }
}

} // verus!
