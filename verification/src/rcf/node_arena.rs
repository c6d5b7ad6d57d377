use vstd::prelude::*;

use crate::rcf::counting::{check_free_list, free_list_exact};

verus! {

/// Index used by trees for "no node".
pub const NULL: usize = usize::MAX;

/// Arena of nodes with O(1) allocation and freeing.
///
/// Freed slots are recycled, most recently freed first, before the arena
/// grows.
#[derive(Clone, Debug)]
pub struct NodeArena<T> {
    nodes: Vec<Option<T>>,
    free: Vec<usize>,
}

impl<T> NodeArena<T> {
    /// The slots: `Some(node)` for a live node, `None` for a freed one.
    pub closed spec fn spec_nodes(&self) -> Seq<Option<T>> {
        self.nodes@
    }

    /// Freed slots, in the order opposite to their reuse.
    pub closed spec fn spec_free(&self) -> Seq<usize> {
        self.free@
    }

    /// The freed slots are exactly the empty ones, each listed once.
    pub closed spec fn wf(&self) -> bool {
        &&& forall|j: int|
            0 <= j < self.free@.len() ==> {
                &&& #[trigger] self.free@[j] < self.nodes@.len()
                &&& self.nodes@[self.free@[j] as int] is None
            }
        &&& forall|j: int, k: int| 0 <= j < k < self.free@.len() ==> self.free@[j] != self.free@[k]
        &&& forall|i: int|
            0 <= i < self.nodes@.len() && #[trigger] self.nodes@[i] is None ==> self.free@.contains(
                i as usize,
            )
    }

    /// The freed slots listed in `free` are exactly the empty slots of
    /// `nodes`, each once.
    pub open spec fn parts_ok(nodes: Seq<Option<T>>, free: Seq<usize>) -> bool {
        &&& forall|j: int|
            0 <= j < free.len() ==> {
                &&& #[trigger] free[j] < nodes.len()
                &&& nodes[free[j] as int] is None
            }
        &&& forall|j: int, k: int| 0 <= j < k < free.len() ==> free[j] != free[k]
        &&& forall|i: int|
            0 <= i < nodes.len() && #[trigger] nodes[i] is None ==> free.contains(i as usize)
    }

    pub proof fn lemma_wf_parts(&self)
        ensures
            self.wf() <==> Self::parts_ok(self.spec_nodes(), self.spec_free()),
    {
    }

    /// Rebuild an arena from its slots and free list; `None` unless the free
    /// list names exactly the empty slots, each once.
    pub fn from_parts(nodes: Vec<Option<T>>, free: Vec<usize>) -> (r: Option<Self>)
        ensures
            r is Some <==> Self::parts_ok(nodes@, free@),
            r matches Some(a) ==> a.wf() && a.spec_nodes() == nodes@ && a.spec_free() == free@,
    {
        let mut is_free: Vec<bool> = Vec::new();
        let mut i: usize = 0;
        while i < nodes.len()
            invariant
                i <= nodes@.len(),
                is_free@.len() == i,
                forall|x: int| 0 <= x < i ==> #[trigger] is_free@[x] == (nodes@[x] is None),
            decreases nodes.len() - i,
        {
            is_free.push(nodes[i].is_none());
            i = i + 1;
        }
        let ok = check_free_list(free.as_slice(), nodes.len(), is_free.as_slice());
        proof {
            let n = nodes@.len() as int;
            if ok {
                assert(free_list_exact(free@, n, is_free@));
                assert forall|x: int| 0 <= x < n && #[trigger] nodes@[x] is None implies free@.contains(
                    x as usize,
                ) by {
                    assert(is_free@[x]);
                }
            } else {
                if Self::parts_ok(nodes@, free@) {
                    assert forall|x: int| 0 <= x < n && #[trigger] is_free@[x] implies free@.contains(
                        x as usize,
                    ) by {
                        assert(nodes@[x] is None);
                    }
                    assert(free_list_exact(free@, n, is_free@));
                }
            }
        }
        if ok {
            Some(NodeArena { nodes, free })
        } else {
            None
        }
    }

    /// The free list, most recently freed slot last.
    pub fn free_slots(&self) -> (f: &[usize])
        ensures
            f@ == self.spec_free(),
    {
        self.free.as_slice()
    }

    /// The slot `id`: `Some` for a live node, `None` for a freed one.
    pub fn slot(&self, id: usize) -> (r: Option<&T>)
        requires
            id < self.spec_nodes().len(),
        ensures
            r matches Some(n) ==> self.spec_nodes()[id as int] == Some(*n),
            r is None ==> self.spec_nodes()[id as int] is None,
    {
        match &self.nodes[id] {
            Some(n) => Some(n),
            None => None,
        }
    }

    /// An empty arena; `initial_capacity` is a hint for the number of slots.
    pub fn new(initial_capacity: usize) -> (a: Self)
        ensures
            a.wf(),
            a.spec_nodes() == Seq::<Option<T>>::empty(),
    {
        NodeArena { nodes: Vec::with_capacity(initial_capacity), free: Vec::new() }
    }

    /// Store `node` in a free slot (the most recently freed one, else a new
    /// slot at the end) and return its index.
    pub fn allocate(&mut self, node: T) -> (id: usize)
        requires
            old(self).wf(),
            old(self).spec_nodes().len() < usize::MAX,
        ensures
            final(self).wf(),
            id < final(self).spec_nodes().len(),
            id < old(self).spec_nodes().len() ==> {
                &&& old(self).spec_nodes()[id as int] is None
                &&& final(self).spec_nodes() == old(self).spec_nodes().update(id as int, Some(node))
            },
            id >= old(self).spec_nodes().len() ==> {
                &&& id == old(self).spec_nodes().len()
                &&& final(self).spec_nodes() == old(self).spec_nodes().push(Some(node))
            },
    {
        if self.free.len() > 0 {
            let id = self.free.pop().unwrap();
            let ghost fl = old(self).free@;
            proof {
                assert(fl[fl.len() - 1] == id);
            }
            self.nodes.set(id, Some(node));
            proof {
                assert forall|j: int| 0 <= j < self.free@.len() implies self.free@[j] != id by {
                    assert(fl[j] != fl[fl.len() - 1]);
                }
                assert forall|i: int|
                    0 <= i < self.nodes@.len() && #[trigger] self.nodes@[i] is None
                        implies self.free@.contains(i as usize) by {
                    assert(i != id);
                    assert(old(self).nodes@[i] is None);
                    assert(fl.contains(i as usize));
                    let j = choose|j: int| 0 <= j < fl.len() && fl[j] == i as usize;
                    assert(j != fl.len() - 1);
                    assert(self.free@[j] == i as usize);
                }
            }
            id
        } else {
            let id = self.nodes.len();
            self.nodes.push(Some(node));
            proof {
                assert forall|i: int|
                    0 <= i < self.nodes@.len() && #[trigger] self.nodes@[i] is None
                        implies self.free@.contains(i as usize) by {
                    assert(i < id);
                    assert(old(self).nodes@[i] is None);
                }
            }
            id
        }
    }

    /// The live node at `id`.
    pub fn get(&self, id: usize) -> (r: &T)
        requires
            id < self.spec_nodes().len(),
            self.spec_nodes()[id as int] is Some,
        ensures
            Some(*r) == self.spec_nodes()[id as int],
    {
        match &self.nodes[id] {
            Some(node) => node,
            None => vstd::pervasive::unreached(),
        }
    }

    /// The live node at `id`, to change in place; the slot stays live.
    pub fn get_mut(&mut self, id: usize) -> (r: &mut T)
        requires
            old(self).wf(),
            id < old(self).spec_nodes().len(),
            old(self).spec_nodes()[id as int] is Some,
        ensures
            Some(*r) == old(self).spec_nodes()[id as int],
            final(self).spec_nodes() == old(self).spec_nodes().update(id as int, Some(*final(r))),
            final(self).spec_free() == old(self).spec_free(),
            final(self).wf(),
    {
        match self.nodes[id].as_mut() {
            Some(node) => node,
            None => vstd::pervasive::unreached(),
        }
    }

    /// Replace the live node at `id` with `node`, returning the previous one.
    pub fn replace(&mut self, id: usize, node: T) -> (prev: T)
        requires
            old(self).wf(),
            id < old(self).spec_nodes().len(),
            old(self).spec_nodes()[id as int] is Some,
        ensures
            final(self).wf(),
            Some(prev) == old(self).spec_nodes()[id as int],
            final(self).spec_nodes() == old(self).spec_nodes().update(id as int, Some(node)),
            final(self).spec_free() == old(self).spec_free(),
    {
        let mut slot = Some(node);
        self.nodes.set_and_swap(id, &mut slot);
        match slot {
            Some(p) => p,
            None => vstd::pervasive::unreached(),
        }
    }

    /// Free the live node at `id`; its slot becomes the next one reused.
    pub fn free(&mut self, id: usize)
        requires
            old(self).wf(),
            id < old(self).spec_nodes().len(),
            old(self).spec_nodes()[id as int] is Some,
        ensures
            final(self).wf(),
            final(self).spec_nodes() == old(self).spec_nodes().update(id as int, None),
            final(self).spec_free() == old(self).spec_free().push(id),
    {
        self.nodes.set(id, None);
        let ghost fl = self.free@;
        proof {
            assert(!fl.contains(id)) by {
                if fl.contains(id) {
                    let j = choose|j: int| 0 <= j < fl.len() && fl[j] == id;
                    assert(old(self).nodes@[fl[j] as int] is None);
                }
            }
        }
        self.free.push(id);
        proof {
            assert forall|i: int|
                0 <= i < self.nodes@.len() && #[trigger] self.nodes@[i] is None
                    implies self.free@.contains(i as usize) by {
                if i != id {
                    assert(old(self).nodes@[i] is None);
                    assert(fl.contains(i as usize));
                    let j = choose|j: int| 0 <= j < fl.len() && fl[j] == i as usize;
                    assert(self.free@[j] == i as usize);
                } else {
                    assert(self.free@[fl.len() as int] == id);
                }
            }
        }
    }

    /// Whether slot `id` holds a live node.
    pub fn is_live(&self, id: usize) -> (b: bool)
        requires
            id < self.spec_nodes().len(),
        ensures
            b == self.spec_nodes()[id as int] is Some,
    {
        self.nodes[id].is_some()
    }

    /// Number of slots, freed ones included.
    pub fn slot_count(&self) -> (n: usize)
        ensures
            n == self.spec_nodes().len(),
    {
        self.nodes.len()
    }
}

} // verus!
