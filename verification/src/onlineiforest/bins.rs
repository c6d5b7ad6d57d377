use vstd::prelude::*;

use crate::error::{RcfError, Result};
use crate::onlineiforest::window::{last_n, spec_split_threshold, split_threshold, SlidingWindow};

verus! {

/// A bin of an online isolation tree: the number of window points it
/// counts, the caller's data (its support rectangle and cut), and, once
/// split, its two sub-bins (left, right).
#[derive(Debug)]
pub struct Bin<S> {
    pub height: usize,
    pub data: S,
    pub children: Option<Box<(Bin<S>, Bin<S>)>>,
}

/// The sub-bin of split bin `b` on the side `right`.
pub open spec fn child<S>(b: Bin<S>, right: bool) -> Bin<S> {
    match b.children {
        Some(pair) => {
            let (l, r) = *pair;
            if right {
                r
            } else {
                l
            }
        },
        None => b,
    }
}

/// The first `k` steps of `route` go through split bins.
pub open spec fn path_ok<S>(b: Bin<S>, route: Seq<bool>, k: nat) -> bool
    decreases k,
{
    k == 0 || (k <= route.len() && b.children is Some && path_ok(
        child(b, route[0]),
        route.drop_first(),
        (k - 1) as nat,
    ))
}

/// The bin reached after the first `k` steps of `route`.
pub open spec fn bin_at<S>(b: Bin<S>, route: Seq<bool>, k: nat) -> Bin<S>
    decreases k,
{
    if k == 0 {
        b
    } else {
        bin_at(child(b, route[0]), route.drop_first(), (k - 1) as nat)
    }
}

/// `route` leads from `b` to a leaf bin.
pub open spec fn route_ok<S>(b: Bin<S>, route: Seq<bool>) -> bool {
    path_ok(b, route, route.len()) && bin_at(b, route, route.len()).children is None
}

/// `b` with its two sub-bins set.
pub open spec fn with_children<S>(b: Bin<S>, l: Bin<S>, r: Bin<S>) -> Bin<S> {
    Bin { height: b.height, data: b.data, children: Some(Box::new((l, r))) }
}

/// `b` with the sub-bin on side `right` replaced by `c`.
pub open spec fn with_child<S>(b: Bin<S>, right: bool, c: Bin<S>) -> Bin<S> {
    if right {
        with_children(b, child(b, false), c)
    } else {
        with_children(b, c, child(b, true))
    }
}

/// Every bin along `route` counts one more point (saturating).
pub open spec fn learned<S>(b: Bin<S>, route: Seq<bool>) -> Bin<S>
    decreases route.len(),
{
    let top = Bin { height: b.height.saturating_add(1), data: b.data, children: b.children };
    if route.len() == 0 || b.children is None {
        top
    } else {
        with_child(top, route[0], learned(child(b, route[0]), route.drop_first()))
    }
}

/// One point fewer in every bin along `route` (saturating), the first bin
/// being at depth `depth`; the walk stops at a leaf, or at the first split
/// bin whose count falls below the split threshold of its depth, which
/// loses its sub-bins.
pub open spec fn forgotten<S>(b: Bin<S>, route: Seq<bool>, max_leaf_samples: usize, depth: usize) -> Bin<S>
    decreases route.len(),
{
    let h = b.height.saturating_sub(1);
    let top = Bin { height: h, data: b.data, children: b.children };
    if b.children is None {
        top
    } else if h < spec_split_threshold(max_leaf_samples, depth) {
        Bin { height: h, data: b.data, children: None }
    } else if route.len() == 0 {
        top
    } else {
        with_child(
            top,
            route[0],
            forgotten(child(b, route[0]), route.drop_first(), max_leaf_samples, (depth + 1) as usize),
        )
    }
}

/// Where [`forgotten`] merges a split bin: its depth and the sub-bins it
/// loses.
pub open spec fn dropped<S>(b: Bin<S>, route: Seq<bool>, max_leaf_samples: usize, depth: usize) -> Option<
    (usize, Bin<S>, Bin<S>),
>
    decreases route.len(),
{
    let h = b.height.saturating_sub(1);
    if b.children is None {
        None
    } else if h < spec_split_threshold(max_leaf_samples, depth) {
        Some((depth, child(b, false), child(b, true)))
    } else if route.len() == 0 {
        None
    } else {
        dropped(child(b, route[0]), route.drop_first(), max_leaf_samples, (depth + 1) as usize)
    }
}

/// `b` with the bin reached after `k` steps of `route` replaced by `n`.
pub open spec fn replaced<S>(b: Bin<S>, route: Seq<bool>, k: nat, n: Bin<S>) -> Bin<S>
    decreases k,
{
    if k == 0 {
        n
    } else {
        with_child(b, route[0], replaced(child(b, route[0]), route.drop_first(), (k - 1) as nat, n))
    }
}

/// Count one point fewer along `route`, starting at depth `i` of the
/// caller's route; returns the merged bin's depth and lost sub-bins, if any.
fn forget_along<S>(b: &mut Bin<S>, route: &[bool], i: usize, max_leaf_samples: usize) -> (r: Option<(usize, Bin<S>, Bin<S>)>)
    requires
        i <= route@.len(),
        route_ok(*old(b), route@.subrange(i as int, route@.len() as int)),
    ensures
        *final(b) == forgotten(*old(b), route@.subrange(i as int, route@.len() as int), max_leaf_samples, i),
        r == dropped(*old(b), route@.subrange(i as int, route@.len() as int), max_leaf_samples, i),
    decreases route@.len() - i,
{
    let ghost rest = route@.subrange(i as int, route@.len() as int);
    b.height = b.height.saturating_sub(1);
    if b.children.is_none() {
        return None;
    }
    let threshold = split_threshold(max_leaf_samples, i);
    if b.height < threshold {
        let pair = b.children.take();
        return match pair {
            Some(boxed) => {
                let (l, r) = *boxed;
                Some((i, l, r))
            },
            None => None,
        };
    }
    if i >= route.len() {
        proof {
            assert(rest.len() == 0);
        }
        return None;
    }
    proof {
        assert(rest.drop_first() =~= route@.subrange(i + 1, route@.len() as int));
        assert(rest[0] == route@[i as int]);
    }
    let pair = b.children.take();
    match pair {
        Some(boxed) => {
            let (mut l, mut r) = *boxed;
            let res = if route[i] {
                forget_along(&mut r, route, i + 1, max_leaf_samples)
            } else {
                forget_along(&mut l, route, i + 1, max_leaf_samples)
            };
            b.children = Some(Box::new((l, r)));
            res
        },
        None => None,
    }
}

/// Replace the data of the bin `k` steps along `route`, counted from depth
/// `i` of the caller's route.
fn set_data_along<S>(b: &mut Bin<S>, route: &[bool], i: usize, k: usize, data: S)
    requires
        i <= k <= route@.len(),
        path_ok(*old(b), route@.subrange(i as int, route@.len() as int), (k - i) as nat),
    ensures
        ({
            let rest = route@.subrange(i as int, route@.len() as int);
            let at = bin_at(*old(b), rest, (k - i) as nat);
            *final(b) == replaced(
                *old(b),
                rest,
                (k - i) as nat,
                Bin { height: at.height, data, children: at.children },
            )
        }),
    decreases k - i,
{
    let ghost rest = route@.subrange(i as int, route@.len() as int);
    if i == k {
        b.data = data;
        return;
    }
    proof {
        assert(rest.drop_first() =~= route@.subrange(i + 1, route@.len() as int));
        assert(rest[0] == route@[i as int]);
    }
    let pair = b.children.take();
    match pair {
        Some(boxed) => {
            let (mut l, mut r) = *boxed;
            if route[i] {
                set_data_along(&mut r, route, i + 1, k, data);
            } else {
                set_data_along(&mut l, route, i + 1, k, data);
            }
            b.children = Some(Box::new((l, r)));
        },
        None => {},
    }
}

/// Split the leaf at the end of `route` (counted from depth `i` of the
/// caller's route) into sub-bins `l` and `r`.
fn split_along<S>(b: &mut Bin<S>, route: &[bool], i: usize, l: Bin<S>, r: Bin<S>)
    requires
        i <= route@.len(),
        route_ok(*old(b), route@.subrange(i as int, route@.len() as int)),
    ensures
        ({
            let rest = route@.subrange(i as int, route@.len() as int);
            *final(b) == replaced(
                *old(b),
                rest,
                rest.len(),
                with_children(bin_at(*old(b), rest, rest.len()), l, r),
            )
        }),
    decreases route@.len() - i,
{
    let ghost rest = route@.subrange(i as int, route@.len() as int);
    if i == route.len() {
        b.children = Some(Box::new((l, r)));
        return;
    }
    proof {
        assert(rest.drop_first() =~= route@.subrange(i + 1, route@.len() as int));
        assert(rest[0] == route@[i as int]);
    }
    let pair = b.children.take();
    match pair {
        Some(boxed) => {
            let (mut cl, mut cr) = *boxed;
            if route[i] {
                split_along(&mut cr, route, i + 1, l, r);
            } else {
                split_along(&mut cl, route, i + 1, l, r);
            }
            b.children = Some(Box::new((cl, cr)));
        },
        None => {},
    }
}

/// The number of points counted by the root of a tree (0 when empty).
pub open spec fn root_height<S>(root: Option<Bin<S>>) -> nat {
    match root {
        Some(b) => b.height as nat,
        None => 0,
    }
}

/// Count one more point in every bin along `route`, which starts at depth
/// `i` of the caller's route.
fn learn_along<S>(b: &mut Bin<S>, route: &[bool], i: usize)
    requires
        i <= route@.len(),
        route_ok(*old(b), route@.subrange(i as int, route@.len() as int)),
    ensures
        *final(b) == learned(*old(b), route@.subrange(i as int, route@.len() as int)),
    decreases route@.len() - i,
{
    let ghost rest = route@.subrange(i as int, route@.len() as int);
    b.height = b.height.saturating_add(1);
    if i < route.len() {
        proof {
            assert(rest.drop_first() =~= route@.subrange(i + 1, route@.len() as int));
            assert(rest[0] == route@[i as int]);
        }
        let pair = b.children.take();
        match pair {
            Some(boxed) => {
                let (mut l, mut r) = *boxed;
                if route[i] {
                    learn_along(&mut r, route, i + 1);
                } else {
                    learn_along(&mut l, route, i + 1);
                }
                b.children = Some(Box::new((l, r)));
            },
            None => {
                proof {
                    assert(path_ok(*old(b), rest, rest.len()));
                }
            },
        }
    }
}

/// Whether `route`, from depth `i` of the caller's route, leads from `b`
/// to a leaf bin.
pub fn route_fits<S>(b: &Bin<S>, route: &[bool], i: usize) -> (ok: bool)
    requires
        i <= route@.len(),
    ensures
        ok == route_ok(*b, route@.subrange(i as int, route@.len() as int)),
    decreases route@.len() - i,
{
    let ghost rest = route@.subrange(i as int, route@.len() as int);
    match &b.children {
        None => {
            proof {
                if rest.len() > 0 {
                    assert(!path_ok(*b, rest, rest.len()));
                }
            }
            i == route.len()
        },
        Some(pair) => {
            if i == route.len() {
                return false;
            }
            proof {
                assert(rest.drop_first() =~= route@.subrange(i + 1, route@.len() as int));
                assert(rest[0] == route@[i as int]);
            }
            if route[i] {
                route_fits(&pair.1, route, i + 1)
            } else {
                route_fits(&pair.0, route, i + 1)
            }
        },
    }
}

/// Whether the first `k - i` steps of `route`, from depth `i` of the
/// caller's route, go through split bins from `b`.
pub fn path_fits<S>(b: &Bin<S>, route: &[bool], i: usize, k: usize) -> (ok: bool)
    requires
        i <= k,
        i <= route@.len(),
    ensures
        ok == path_ok(*b, route@.subrange(i as int, route@.len() as int), (k - i) as nat),
    decreases k - i,
{
    let ghost rest = route@.subrange(i as int, route@.len() as int);
    if i == k {
        return true;
    }
    if k > route.len() {
        return false;
    }
    match &b.children {
        None => false,
        Some(pair) => {
            proof {
                assert(rest.drop_first() =~= route@.subrange(i + 1, route@.len() as int));
                assert(rest[0] == route@[i as int]);
            }
            if route[i] {
                path_fits(&pair.1, route, i + 1, k)
            } else {
                path_fits(&pair.0, route, i + 1, k)
            }
        },
    }
}

/// Where an update of a forest of bins stands: how many trees have learned
/// the new point, or, once the window dropped its oldest point, how many
/// have forgotten that one.
#[derive(Clone, Copy, Debug, PartialEq, Eq, Structural)]
pub enum Phase {
    Learning(usize),
    Forgetting(usize),
}

/// The trees of an online isolation forest with the window of points they
/// count: between updates every root counts exactly the points in the
/// window.
#[derive(Debug)]
pub struct BinForest<P, S> {
    window: SlidingWindow<P>,
    roots: Vec<Option<Bin<S>>>,
    phase: Phase,
}

impl<P, S> BinForest<P, S> {
    pub closed spec fn spec_window(&self) -> SlidingWindow<P> {
        self.window
    }

    pub closed spec fn spec_roots(&self) -> Seq<Option<Bin<S>>> {
        self.roots@
    }

    pub closed spec fn spec_phase(&self) -> Phase {
        self.phase
    }

    /// The count that the root of tree `t` holds at this phase.
    pub open spec fn expected_height(&self, t: int) -> nat {
        let n = self.spec_window().spec_items().len();
        match self.spec_phase() {
            Phase::Learning(k) => if t < k {
                n + 1
            } else {
                n
            },
            Phase::Forgetting(k) => if t < k {
                n
            } else {
                n + 1
            },
        }
    }

    pub closed spec fn wf(&self) -> bool {
        &&& self.window.wf()
        &&& match self.phase {
            Phase::Learning(k) => k <= self.roots@.len(),
            Phase::Forgetting(k) => k < self.roots@.len(),
        }
        &&& forall|t: int|
            0 <= t < self.roots@.len() ==> root_height(#[trigger] self.roots@[t]) == self.expected_height(t)
        &&& forall|t: int|
            0 <= t < self.roots@.len() ==> (#[trigger] self.roots@[t] matches Some(b) ==> b.height > 0)
    }

    /// Between updates every tree's root counts exactly the points in the
    /// window (an empty tree for an empty window); so the parts of a forest
    /// between updates pass the checks of [`Self::from_parts`].
    pub proof fn lemma_roots_follow_window(&self)
        requires
            self.wf(),
            self.spec_phase() == Phase::Learning(0),
        ensures
            forall|t: int|
                0 <= t < self.spec_roots().len() ==> root_height(#[trigger] self.spec_roots()[t])
                    == self.spec_window().spec_items().len(),
            forall|t: int|
                0 <= t < self.spec_roots().len() ==> ((#[trigger] self.spec_roots()[t] is None)
                    == (self.spec_window().spec_items().len() == 0)),
            forall|t: int|
                0 <= t < self.spec_roots().len() ==> (#[trigger] self.spec_roots()[t] matches Some(b)
                    ==> b.height > 0),
            self.spec_window().wf(),
    {
        assert forall|t: int| 0 <= t < self.roots@.len() implies ((#[trigger] self.roots@[t] is None)
            == (self.window.spec_items().len() == 0)) by {
            assert(root_height(self.roots@[t]) == self.expected_height(t));
        }
    }

    /// `num_trees` empty trees over an empty window of `window_size` points.
    pub fn new(window_size: usize, num_trees: usize) -> (f: Self)
        requires
            window_size < usize::MAX,
        ensures
            f.wf(),
            f.spec_phase() == Phase::Learning(0),
            f.spec_window().spec_items().len() == 0,
            f.spec_window().spec_window_size() == window_size,
            f.spec_roots() == Seq::new(num_trees as nat, |t: int| None::<Bin<S>>),
    {
        let mut roots: Vec<Option<Bin<S>>> = Vec::new();
        let mut k: usize = 0;
        while k < num_trees
            invariant
                k <= num_trees,
                roots@ == Seq::new(k as nat, |t: int| None::<Bin<S>>),
            decreases num_trees - k,
        {
            roots.push(None);
            k = k + 1;
        }
        BinForest { window: SlidingWindow::new(window_size), roots, phase: Phase::Learning(0) }
    }

    /// The points the trees count, oldest first.
    pub fn window(&self) -> (w: &SlidingWindow<P>)
        ensures
            *w == self.spec_window(),
    {
        &self.window
    }

    pub fn num_trees(&self) -> (n: usize)
        ensures
            n == self.spec_roots().len(),
    {
        self.roots.len()
    }

    /// The root bin of tree `t` (`None` for an empty tree).
    pub fn root(&self, t: usize) -> (r: &Option<Bin<S>>)
        requires
            t < self.spec_roots().len(),
        ensures
            *r == self.spec_roots()[t as int],
    {
        &self.roots[t]
    }

    pub fn phase(&self) -> (p: Phase)
        ensures
            p == self.spec_phase(),
    {
        self.phase
    }

    /// Tree `t`, the next one in order, counts the new point along `route`;
    /// an empty tree gets a root bin counting it, with data `first`.
    pub fn learn(&mut self, t: usize, route: &[bool], first: S) -> (r: Result<()>)
        requires
            old(self).wf(),
        ensures
            final(self).wf(),
            r is Ok <==> old(self).spec_phase() == Phase::Learning(t) && t < old(self).spec_roots().len()
                && (old(self).spec_roots()[t as int] matches Some(b) ==> route_ok(b, route@)),
            r is Err ==> (r matches Err(RcfError::InvalidArgument(_))) && *final(self) == *old(self),
            r is Ok ==> {
                &&& final(self).spec_phase() == Phase::Learning((t + 1) as usize)
                &&& final(self).spec_window() == old(self).spec_window()
                &&& final(self).spec_roots() == old(self).spec_roots().update(
                    t as int,
                    Some(
                        match old(self).spec_roots()[t as int] {
                            Some(b) => learned(b, route@),
                            None => Bin { height: 1, data: first, children: None },
                        },
                    ),
                )
            },
    {
        if self.phase != Phase::Learning(t) || t >= self.roots.len() {
            return Err(RcfError::invalid_argument("trees learn one after the other"));
        }
        proof {
            assert(route@.subrange(0, route@.len() as int) =~= route@);
        }
        let fits = match &self.roots[t] {
            Some(b) => route_fits(b, route, 0),
            None => true,
        };
        if !fits {
            return Err(RcfError::invalid_argument("route does not lead to a leaf"));
        }
        let slot = self.roots[t].take();
        let new_root = match slot {
            Some(mut b) => {
                learn_along(&mut b, route, 0);
                b
            },
            None => Bin { height: 1, data: first, children: None },
        };
        self.roots.set(t, Some(new_root));
        self.phase = Phase::Learning(t + 1);
        proof {
            assert forall|u: int| 0 <= u < self.roots@.len() implies root_height(#[trigger] self.roots@[u])
                == self.expected_height(u) by {
                assert(root_height(old(self).roots@[u]) == old(self).expected_height(u));
            }
            assert forall|u: int| 0 <= u < self.roots@.len() implies (#[trigger] self.roots@[u] matches Some(
                b,
            ) ==> b.height > 0) by {
                assert(old(self).roots@[u] matches Some(b) ==> b.height > 0);
            }
        }
        Ok(())
    }

    /// Replace the data of the bin `k` steps along `route` in tree `t`;
    /// counts and shape are unchanged.
    pub fn set_data(&mut self, t: usize, route: &[bool], k: usize, data: S) -> (r: Result<()>)
        requires
            old(self).wf(),
        ensures
            final(self).wf(),
            r is Ok <==> (t < old(self).spec_roots().len() && (old(self).spec_roots()[t as int] matches Some(b)
                && k <= route@.len() && path_ok(b, route@, k as nat))),
            r is Err ==> (r matches Err(RcfError::InvalidArgument(_))) && *final(self) == *old(self),
            r is Ok ==> {
                let b = old(self).spec_roots()[t as int]->0;
                let at = bin_at(b, route@, k as nat);
                &&& final(self).spec_phase() == old(self).spec_phase()
                &&& final(self).spec_window() == old(self).spec_window()
                &&& final(self).spec_roots() == old(self).spec_roots().update(
                    t as int,
                    Some(replaced(b, route@, k as nat, Bin { height: at.height, data, children: at.children })),
                )
            },
    {
        if t >= self.roots.len() || k > route.len() {
            return Err(RcfError::invalid_argument("no such bin"));
        }
        proof {
            assert(route@.subrange(0, route@.len() as int) =~= route@);
        }
        let fits = match &self.roots[t] {
            Some(b) => path_fits(b, route, 0, k),
            None => false,
        };
        if !fits {
            return Err(RcfError::invalid_argument("no such bin"));
        }
        let slot = self.roots[t].take();
        match slot {
            Some(mut b) => {
                let ghost b0 = b;
                set_data_along(&mut b, route, 0, k, data);
                proof {
                    lemma_replaced_keeps_root_height(b0, route@, k as nat, Bin { height: bin_at(b0, route@, k as nat).height, data, children: bin_at(b0, route@, k as nat).children });
                }
                self.roots.set(t, Some(b));
            },
            None => {},
        }
        proof {
            self.lemma_same_heights(old(self), t as int);
        }
        Ok(())
    }

    /// Split the leaf at the end of `route` in tree `t` into sub-bins
    /// counting `left_height` and `right_height` points, with data
    /// `left_data` and `right_data`; the two counts add up to the leaf's.
    pub fn split(
        &mut self,
        t: usize,
        route: &[bool],
        left_height: usize,
        left_data: S,
        right_height: usize,
        right_data: S,
    ) -> (r: Result<()>)
        requires
            old(self).wf(),
        ensures
            final(self).wf(),
            r is Ok <==> (t < old(self).spec_roots().len() && (old(self).spec_roots()[t as int] matches Some(b)
                && route_ok(b, route@) && left_height + right_height == bin_at(b, route@, route@.len()).height)),
            r is Err ==> (r matches Err(RcfError::InvalidArgument(_))) && *final(self) == *old(self),
            r is Ok ==> {
                let b = old(self).spec_roots()[t as int]->0;
                let l = Bin { height: left_height, data: left_data, children: None };
                let rb = Bin { height: right_height, data: right_data, children: None };
                &&& final(self).spec_phase() == old(self).spec_phase()
                &&& final(self).spec_window() == old(self).spec_window()
                &&& final(self).spec_roots() == old(self).spec_roots().update(
                    t as int,
                    Some(replaced(b, route@, route@.len(), with_children(bin_at(b, route@, route@.len()), l, rb))),
                )
            },
    {
        if t >= self.roots.len() {
            return Err(RcfError::invalid_argument("no such tree"));
        }
        proof {
            assert(route@.subrange(0, route@.len() as int) =~= route@);
        }
        let leaf_height = match &self.roots[t] {
            Some(b) => if route_fits(b, route, 0) {
                Some(leaf_height_along(b, route, 0))
            } else {
                None
            },
            None => None,
        };
        match leaf_height {
            Some(h) => {
                if left_height > h || right_height != h - left_height {
                    return Err(RcfError::invalid_argument("split counts do not add up to the leaf's"));
                }
            },
            None => {
                return Err(RcfError::invalid_argument("route does not lead to a leaf"));
            },
        }
        let slot = self.roots[t].take();
        match slot {
            Some(mut b) => {
                let ghost b0 = b;
                let l = Bin { height: left_height, data: left_data, children: None };
                let rb = Bin { height: right_height, data: right_data, children: None };
                let ghost n = with_children(bin_at(b0, route@, route@.len()), l, rb);
                split_along(&mut b, route, 0, l, rb);
                proof {
                    lemma_replaced_keeps_root_height(b0, route@, route@.len(), n);
                }
                self.roots.set(t, Some(b));
            },
            None => {},
        }
        proof {
            self.lemma_same_heights(old(self), t as int);
        }
        Ok(())
    }

    /// Once every tree has learned the new point, the window takes it. When
    /// the window is full its oldest point is returned, and the trees are to
    /// forget it, one after the other.
    pub fn push(&mut self, point: P) -> (r: Result<Option<P>>)
        requires
            old(self).wf(),
        ensures
            final(self).wf(),
            r is Ok <==> old(self).spec_phase() == Phase::Learning(old(self).spec_roots().len() as usize),
            r is Err ==> (r matches Err(RcfError::InvalidArgument(_))) && *final(self) == *old(self),
            r matches Ok(ev) ==> {
                let pushed = old(self).spec_window().spec_items().push(point);
                let size = old(self).spec_window().spec_window_size();
                &&& final(self).spec_roots() == old(self).spec_roots()
                &&& final(self).spec_window().spec_window_size() == size
                &&& final(self).spec_window().spec_items() == last_n(pushed, size)
                &&& pushed.len() > size ==> ev == Some(pushed[0])
                &&& pushed.len() <= size ==> ev is None
                &&& final(self).spec_phase() == if ev is Some && old(self).spec_roots().len() > 0 {
                    Phase::Forgetting(0)
                } else {
                    Phase::Learning(0)
                }
            },
    {
        if self.phase != Phase::Learning(self.roots.len()) {
            return Err(RcfError::invalid_argument("every tree learns the point first"));
        }
        let ev = self.window.push(point);
        if ev.is_some() && self.roots.len() > 0 {
            self.phase = Phase::Forgetting(0);
        } else {
            self.phase = Phase::Learning(0);
        }
        proof {
            assert forall|u: int| 0 <= u < self.roots@.len() implies root_height(#[trigger] self.roots@[u])
                == self.expected_height(u) by {
                assert(root_height(old(self).roots@[u]) == old(self).expected_height(u));
            }
            assert forall|u: int| 0 <= u < self.roots@.len() implies (#[trigger] self.roots@[u] matches Some(
                b,
            ) ==> b.height > 0) by {
                assert(old(self).roots@[u] matches Some(b) ==> b.height > 0);
            }
        }
        Ok(ev)
    }

    /// Tree `t`, the next one in order, forgets the point the window let
    /// go of, along `route`. Returns the depth and the sub-bins of the bin
    /// that merged, if one did; a root left counting nothing is removed.
    pub fn forget(&mut self, t: usize, route: &[bool], max_leaf_samples: usize) -> (r: Result<
        Option<(usize, Bin<S>, Bin<S>)>,
    >)
        requires
            old(self).wf(),
        ensures
            final(self).wf(),
            r is Ok <==> (old(self).spec_phase() == Phase::Forgetting(t) && (old(
                self,
            ).spec_roots()[t as int] matches Some(b) && route_ok(b, route@))),
            r is Err ==> (r matches Err(RcfError::InvalidArgument(_))) && *final(self) == *old(self),
            r matches Ok(d) ==> {
                let b = old(self).spec_roots()[t as int]->0;
                let nb = forgotten(b, route@, max_leaf_samples, 0);
                &&& d == dropped(b, route@, max_leaf_samples, 0)
                &&& final(self).spec_window() == old(self).spec_window()
                &&& final(self).spec_roots() == old(self).spec_roots().update(
                    t as int,
                    if nb.height == 0 {
                        None
                    } else {
                        Some(nb)
                    },
                )
                &&& final(self).spec_phase() == if t + 1 == old(self).spec_roots().len() {
                    Phase::Learning(0)
                } else {
                    Phase::Forgetting((t + 1) as usize)
                }
            },
    {
        if self.phase != Phase::Forgetting(t) {
            return Err(RcfError::invalid_argument("trees forget one after the other"));
        }
        let n = self.roots.len();
        proof {
            assert(t < n);
        }
        proof {
            assert(route@.subrange(0, route@.len() as int) =~= route@);
        }
        let fits = match &self.roots[t] {
            Some(b) => route_fits(b, route, 0),
            None => false,
        };
        if !fits {
            return Err(RcfError::invalid_argument("route does not lead to a leaf"));
        }
        let slot = self.roots[t].take();
        let d = match slot {
            Some(mut b) => {
                let d = forget_along(&mut b, route, 0, max_leaf_samples);
                if b.height == 0 {
                    self.roots.set(t, None);
                } else {
                    self.roots.set(t, Some(b));
                }
                d
            },
            None => None,
        };
        if t + 1 == n {
            self.phase = Phase::Learning(0);
        } else {
            self.phase = Phase::Forgetting(t + 1);
        }
        proof {
            assert forall|u: int| 0 <= u < self.roots@.len() implies root_height(#[trigger] self.roots@[u])
                == self.expected_height(u) by {
                assert(root_height(old(self).roots@[u]) == old(self).expected_height(u));
            }
            assert forall|u: int| 0 <= u < self.roots@.len() implies (#[trigger] self.roots@[u] matches Some(
                b,
            ) ==> b.height > 0) by {
                assert(old(self).roots@[u] matches Some(b) ==> b.height > 0);
            }
        }
        Ok(d)
    }

    /// Put a restored window and trees together; `None` unless every root
    /// counts exactly the points in the window.
    pub fn from_parts(window: SlidingWindow<P>, roots: Vec<Option<Bin<S>>>) -> (r: Option<Self>)
        requires
            window.wf(),
        ensures
            r is Some <==> forall|t: int|
                0 <= t < roots@.len() ==> root_height(#[trigger] roots@[t]) == window.spec_items().len()
                    && (roots@[t] matches Some(b) ==> b.height > 0),
            r matches Some(f) ==> {
                &&& f.wf()
                &&& f.spec_window() == window
                &&& f.spec_roots() == roots@
                &&& f.spec_phase() == Phase::Learning(0)
            },
    {
        let n = window.len();
        let mut t: usize = 0;
        while t < roots.len()
            invariant
                t <= roots@.len(),
                n == window.spec_items().len(),
                forall|u: int|
                    0 <= u < t ==> root_height(#[trigger] roots@[u]) == n && (roots@[u] matches Some(b) ==> b.height
                        > 0),
            decreases roots@.len() - t,
        {
            let ok = match &roots[t] {
                Some(b) => b.height == n && b.height > 0,
                None => n == 0,
            };
            if !ok {
                return None;
            }
            t = t + 1;
        }
        Some(BinForest { window, roots, phase: Phase::Learning(0) })
    }

    /// Root counts unchanged, the invariant carries over.
    proof fn lemma_same_heights(&self, old: &Self, t: int)
        requires
            old.wf(),
            self.window == old.window,
            self.phase == old.phase,
            self.roots@.len() == old.roots@.len(),
            0 <= t < self.roots@.len(),
            old.roots@[t] is Some,
            self.roots@[t] is Some,
            self.roots@[t]->0.height == old.roots@[t]->0.height,
            forall|u: int| 0 <= u < self.roots@.len() && u != t ==> #[trigger] self.roots@[u] == old.roots@[u],
        ensures
            self.wf(),
    {
        assert forall|u: int| 0 <= u < self.roots@.len() implies root_height(#[trigger] self.roots@[u])
            == self.expected_height(u) by {
            assert(root_height(old.roots@[u]) == old.expected_height(u));
        }
        assert forall|u: int| 0 <= u < self.roots@.len() implies (#[trigger] self.roots@[u] matches Some(
            b,
        ) ==> b.height > 0) by {
            assert(old.roots@[u] matches Some(b) ==> b.height > 0);
        }
    }
}

/// No split bin among the first `k` bins along `route` (the first at depth
/// `depth`) falls below the split threshold of its own depth when it counts
/// one point fewer.
pub open spec fn kept_above<S>(b: Bin<S>, route: Seq<bool>, max_leaf_samples: usize, depth: usize, k: nat) -> bool {
    forall|j: int|
        0 <= j < k ==> {
            let bj = #[trigger] bin_at(b, route, j as nat);
            &&& bj.children is Some
            &&& bj.height.saturating_sub(1) >= spec_split_threshold(
                max_leaf_samples,
                (depth + j) as usize,
            )
        }
}

/// Forgetting a point along a route, the bin `k` steps down (at depth
/// `depth + k`) that is reached without any merge above it counts one point
/// fewer and keeps its data; if it is split, it loses its sub-bins (and is
/// the bin reported as merged, with those sub-bins) exactly when its new
/// count is below `max_leaf_samples * 2^(depth + k)` (saturating), the
/// threshold at which learning splits a leaf at that depth; otherwise it
/// keeps them. A leaf reached this way means nothing merges.
pub proof fn lemma_forget_merges_below_threshold<S>(
    b: Bin<S>,
    route: Seq<bool>,
    max_leaf_samples: usize,
    depth: usize,
    k: nat,
)
    requires
        route_ok(b, route),
        depth + route.len() <= usize::MAX,
        k <= route.len(),
        kept_above(b, route, max_leaf_samples, depth, k),
    ensures
        ({
            let nb = forgotten(b, route, max_leaf_samples, depth);
            let dr = dropped(b, route, max_leaf_samples, depth);
            let bk = bin_at(b, route, k);
            let nk = bin_at(nb, route, k);
            let h = bk.height.saturating_sub(1);
            let split_below = bk.children is Some && h < spec_split_threshold(
                max_leaf_samples,
                (depth + k) as usize,
            );
            &&& path_ok(nb, route, k)
            &&& nk.height == h
            &&& nk.data == bk.data
            &&& split_below ==> nk.children is None && dr == Some(
                ((depth + k) as usize, child(bk, false), child(bk, true)),
            )
            &&& bk.children is Some && !split_below ==> nk.children is Some
            &&& bk.children is None ==> nk.children is None && dr is None
        }),
    decreases k,
{
    if k > 0 {
        assert(bin_at(b, route, 0) == b);
        let b1 = child(b, route[0]);
        let r1 = route.drop_first();
        assert(route_ok(b1, r1));
        assert forall|j: int| 0 <= j < (k - 1) as nat implies {
            let bj = #[trigger] bin_at(b1, r1, j as nat);
            &&& bj.children is Some
            &&& bj.height.saturating_sub(1) >= spec_split_threshold(
                max_leaf_samples,
                ((depth + 1) as usize + j) as usize,
            )
        } by {
            assert(bin_at(b, route, (j + 1) as nat) == bin_at(b1, r1, j as nat));
            assert(depth + (j + 1) == (depth + 1) as usize + j);
        }
        lemma_forget_merges_below_threshold(b1, r1, max_leaf_samples, (depth + 1) as usize, (k - 1) as nat);
        assert(((depth + 1) as usize + (k - 1)) as usize == (depth + k) as usize);
        assert((depth + 0int) as usize == depth);
        assert(b.children is Some && b.height.saturating_sub(1) >= spec_split_threshold(
            max_leaf_samples,
            depth,
        )) by {
            assert(bin_at(b, route, 0int as nat) == b);
        }
        let nb = forgotten(b, route, max_leaf_samples, depth);
        assert(child(nb, route[0]) == forgotten(b1, r1, max_leaf_samples, (depth + 1) as usize));
        assert(nb.children is Some);
        assert(bin_at(nb, route, k) == bin_at(child(nb, route[0]), route.drop_first(), (k - 1) as nat));
    }
}

/// In particular, a split root whose count stays at least
/// `max_leaf_samples` after forgetting keeps its sub-bins, and is not the
/// bin reported as merged.
pub proof fn lemma_forget_keeps_full_root<S>(b: Bin<S>, route: Seq<bool>, max_leaf_samples: usize)
    requires
        route_ok(b, route),
        route.len() <= usize::MAX,
        b.children is Some,
        b.height.saturating_sub(1) >= max_leaf_samples,
    ensures
        forgotten(b, route, max_leaf_samples, 0).children is Some,
        forgotten(b, route, max_leaf_samples, 0).height == b.height.saturating_sub(1),
        !(dropped(b, route, max_leaf_samples, 0) matches Some((d, _, _)) && d == 0),
{
    vstd::arithmetic::power2::lemma2_to64();
    assert(usize::BITS == 32 || usize::BITS == 64);
    assert(max_leaf_samples * vstd::arithmetic::power2::pow2(0) == max_leaf_samples);
    assert(spec_split_threshold(max_leaf_samples, 0) == max_leaf_samples);
    lemma_forget_merges_below_threshold(b, route, max_leaf_samples, 0, 0);
    assert(bin_at(b, route, 0) == b);
    assert(bin_at(forgotten(b, route, max_leaf_samples, 0), route, 0) == forgotten(
        b,
        route,
        max_leaf_samples,
        0,
    ));
    lemma_dropped_is_deeper(b, route, max_leaf_samples, 0);
}

/// A merge that [`dropped`] reports below the first bin is at a greater
/// depth than the first bin.
proof fn lemma_dropped_is_deeper<S>(b: Bin<S>, route: Seq<bool>, max_leaf_samples: usize, depth: usize)
    requires
        depth + route.len() <= usize::MAX,
        b.height.saturating_sub(1) >= spec_split_threshold(max_leaf_samples, depth),
    ensures
        dropped(b, route, max_leaf_samples, depth) matches Some((d, _, _)) ==> d > depth,
    decreases route.len(),
{
    if b.children is Some && route.len() > 0 {
        lemma_dropped_at_least(child(b, route[0]), route.drop_first(), max_leaf_samples, (depth + 1) as usize);
    }
}

/// Every merge that [`dropped`] reports is at the first bin's depth or
/// deeper.
proof fn lemma_dropped_at_least<S>(b: Bin<S>, route: Seq<bool>, max_leaf_samples: usize, depth: usize)
    requires
        depth + route.len() <= usize::MAX,
    ensures
        dropped(b, route, max_leaf_samples, depth) matches Some((d, _, _)) ==> d >= depth,
    decreases route.len(),
{
    if b.children is Some && route.len() > 0 {
        lemma_dropped_at_least(child(b, route[0]), route.drop_first(), max_leaf_samples, (depth + 1) as usize);
    }
}

/// Replacing a bin below the root, or the root by one of the same count,
/// keeps the root's count.
proof fn lemma_replaced_keeps_root_height<S>(b: Bin<S>, route: Seq<bool>, k: nat, n: Bin<S>)
    requires
        k == 0 ==> n.height == b.height,
    ensures
        replaced(b, route, k, n).height == b.height,
{
}

/// The count of the leaf at the end of `route`, from depth `i`.
fn leaf_height_along<S>(b: &Bin<S>, route: &[bool], i: usize) -> (h: usize)
    requires
        i <= route@.len(),
        route_ok(*b, route@.subrange(i as int, route@.len() as int)),
    ensures
        h == bin_at(*b, route@.subrange(i as int, route@.len() as int), (route@.len() - i) as nat).height,
    decreases route@.len() - i,
{
    let ghost rest = route@.subrange(i as int, route@.len() as int);
    if i == route.len() {
        return b.height;
    }
    proof {
        assert(rest.drop_first() =~= route@.subrange(i + 1, route@.len() as int));
        assert(rest[0] == route@[i as int]);
    }
    match &b.children {
        Some(pair) => if route[i] {
            leaf_height_along(&pair.1, route, i + 1)
        } else {
            leaf_height_along(&pair.0, route, i + 1)
        },
        None => b.height,
    }
}

} // verus!
