//! The arena: the owner of all nodes.

use vstd::prelude::*;
use vstd::std_specs::cmp::PartialEqSpec;
use crate::id::NodeId;
use crate::node::{Links, Node};
use crate::order::{lemma_storage_order_unique, storage_order};
use crate::pool::{
    pool_clone, pool_contains, pool_generation, pool_ids, pool_insert, pool_len, pool_live,
    pool_new, pool_remove, pool_with_capacity, vec_shrink_to_fit, SlotPool,
};
use crate::prune::below;
use crate::tree::{lemma_add_node, reaches, tree_wf, Shape};

verus! {

/// A pool of nodes, each addressed by a [`NodeId`].
///
/// The slot pool decides which identifiers are live; the node of a live
/// identifier is kept at the index of its slot. `arena[id]` and
/// [`Arena::index_mut`] give the node of a live identifier; [`Arena::get`]
/// and [`Arena::get_mut`] also take identifiers that are not live.
pub struct Arena<T> {
    slots: SlotPool,
    nodes: Vec<Option<Node<T>>>,
    shape: Ghost<Shape>,
}

impl<T> Arena<T> {
    /// Some live identifier has the slot with index `i`.
    spec fn occupied(&self, i: int) -> bool {
        exists|id: NodeId| #[trigger] pool_live(self.slots).contains(id) && id.index == i
    }

    /// A live identifier is found in its slot.
    proof fn lemma_occupied(&self, id: NodeId)
        requires
            pool_live(self.slots).contains(id),
        ensures
            self.occupied(id.index as int),
    {
    }

    /// The identifier that has the slot with index `i`.
    proof fn lemma_occupant(&self, i: int) -> (id: NodeId)
        requires
            self.occupied(i),
        ensures
            pool_live(self.slots).contains(id),
            id.index == i,
    {
        choose|id: NodeId| #[trigger] pool_live(self.slots).contains(id) && id.index == i
    }

    /// The storage is consistent: the live identifiers are finitely many,
    /// no two of them share a slot, none is younger than the generation
    /// counter, a node is stored for each, and none is stored for a slot
    /// that no live identifier has.
    pub closed spec fn inv(&self) -> bool {
        &&& forall|i: int|
            0 <= i < self.nodes@.len() && (#[trigger] self.nodes@[i]) is Some ==> self.occupied(i)
        &&& pool_live(self.slots).finite()
        &&& forall|id: NodeId| #[trigger]
            pool_live(self.slots).contains(id) ==> {
                &&& id.index < self.nodes@.len()
                &&& self.nodes@[id.index as int] is Some
                &&& id.generation <= pool_generation(self.slots)
            }
        &&& forall|a: NodeId, b: NodeId|
            #![trigger pool_live(self.slots).contains(a), pool_live(self.slots).contains(b)]
            pool_live(self.slots).contains(a) && pool_live(self.slots).contains(b) && a.index
                == b.index ==> a == b
    }

    /// The live identifiers, each with its node.
    pub closed spec fn view(&self) -> Map<NodeId, Node<T>> {
        Map::new(
            |id: NodeId| pool_live(self.slots).contains(id),
            |id: NodeId| self.nodes@[id.index as int]->0,
        )
    }

    /// The generation that the next node gets. It grows by one with every
    /// node that is removed.
    pub closed spec fn generation(&self) -> u64 {
        pool_generation(self.slots)
    }

    /// The forest that the links of the nodes are meant to spell out.
    pub closed spec fn shape(&self) -> Shape {
        self.shape@
    }

    /// The number of slots, counted from index zero, for which the arena
    /// keeps room for a node.
    pub closed spec fn slot_count(&self) -> nat {
        self.nodes@.len()
    }

    /// `n` slots are enough: every live identifier has a slot below `n`.
    pub open spec fn fits(&self, n: nat) -> bool {
        forall|id: NodeId| #[trigger] self.contains(id) ==> id.index < n
    }

    /// Whether `id` is live.
    pub open spec fn contains(&self, id: NodeId) -> bool {
        self@.dom().contains(id)
    }

    /// The links of every live node.
    pub open spec fn links(&self) -> Map<NodeId, Links> {
        Map::new(|id: NodeId| self@.dom().contains(id), |id: NodeId| self@[id].links())
    }

    /// The payload of every live node.
    pub open spec fn payloads(&self) -> Map<NodeId, T> {
        Map::new(|id: NodeId| self@.dom().contains(id), |id: NodeId| self@[id].data())
    }

    /// The children of every live node, first to last.
    pub open spec fn children(&self) -> Map<NodeId, Seq<NodeId>> {
        self.shape().kids
    }

    /// Whether `ancestor` is `id` or one of the ancestors of `id`.
    pub open spec fn is_ancestor_or_self(&self, ancestor: NodeId, id: NodeId) -> bool {
        reaches(self.links(), self.shape().rank, id, ancestor)
    }

    /// The live nodes that are `id` or lie below it.
    pub open spec fn subtree(&self, id: NodeId) -> Set<NodeId> {
        below(self.links(), self.shape().rank, id)
    }

    /// The arena is well formed: its storage is consistent and the links of
    /// its nodes describe a forest.
    pub open spec fn wf(&self) -> bool {
        &&& self.inv()
        &&& tree_wf(self.links(), self.shape())
    }

    /// An identifier that is not live and is older than the generation
    /// counter: it was either removed or never issued, and it can no longer
    /// be issued.
    pub open spec fn is_stale(&self, id: NodeId) -> bool {
        !self.contains(id) && id.generation < self.generation()
    }

    /// Whatever is stale in this arena is stale in `after`.
    pub open spec fn keeps_stale(&self, after: &Arena<T>) -> bool {
        forall|id: NodeId| #[trigger] self.is_stale(id) ==> after.is_stale(id)
    }

    /// Every live identifier is at most as young as the generation counter,
    /// and the live identifiers are finitely many.
    pub proof fn lemma_live(&self, id: NodeId)
        requires
            self.inv(),
        ensures
            self@.dom().finite(),
            self.contains(id) ==> id.generation <= self.generation(),
    {
        assert(self@.dom() =~= pool_live(self.slots));
    }

    /// No two live identifiers share a slot.
    pub proof fn lemma_slots_distinct(&self, a: NodeId, b: NodeId)
        requires
            self.inv(),
            self.contains(a),
            self.contains(b),
            a.index == b.index,
        ensures
            a == b,
    {
    }

    /// An empty arena.
    pub fn new() -> (arena: Arena<T>)
        ensures
            arena.wf(),
            arena@ == Map::<NodeId, Node<T>>::empty(),
            arena.generation() == 0,
    {
        let arena = Arena {
            slots: pool_new(),
            nodes: Vec::new(),
            shape: Ghost(Shape { kids: Map::empty(), rank: Map::empty(), bound: 0 }),
        };
        proof {
            assert(arena@ =~= Map::<NodeId, Node<T>>::empty());
            assert(arena.links() =~= Map::<NodeId, Links>::empty());
            assert(arena.shape().kids.dom() =~= arena.links().dom());
            assert(arena.shape().rank.dom() =~= arena.links().dom());
        }
        arena
    }

    /// An empty arena with room for `n` nodes.
    pub fn with_capacity(n: usize) -> (arena: Arena<T>)
        ensures
            arena.wf(),
            arena@ == Map::<NodeId, Node<T>>::empty(),
            arena.generation() == 0,
    {
        let arena = Arena {
            slots: pool_with_capacity(n),
            nodes: Vec::with_capacity(n),
            shape: Ghost(Shape { kids: Map::empty(), rank: Map::empty(), bound: 0 }),
        };
        proof {
            assert(arena@ =~= Map::<NodeId, Node<T>>::empty());
            assert(arena.links() =~= Map::<NodeId, Links>::empty());
            assert(arena.shape().kids.dom() =~= arena.links().dom());
            assert(arena.shape().rank.dom() =~= arena.links().dom());
        }
        arena
    }

    /// Stores `data` in a new node without neighbours and returns its
    /// identifier, which was not live before and carries the current
    /// generation.
    pub fn new_node(&mut self, data: T) -> (id: NodeId)
        requires
            old(self).wf(),
            old(self)@.dom().len() < usize::MAX,
        ensures
            final(self).wf(),
            !old(self).contains(id),
            id.generation == old(self).generation(),
            final(self).generation() == old(self).generation(),
            final(self)@.dom() == old(self)@.dom().insert(id),
            final(self)@ == old(self)@.insert(id, final(self)@[id]),
            final(self).links() == old(self).links().insert(id, Links::detached()),
            final(self).payloads() == old(self).payloads().insert(id, data),
            final(self).children() == old(self).children().insert(id, Seq::empty()),
            final(self)@.dom().len() == old(self)@.dom().len() + 1,
            old(self).keeps_stale(final(self)),
    {
        assert(old(self)@.dom() =~= pool_live(old(self).slots));
        let id = pool_insert(&mut self.slots);
        let ghost slots = self.slots;
        while self.nodes.len() <= id.index
            invariant
                self.slots == slots,
                self.shape == old(self).shape,
                old(self).nodes@.len() <= self.nodes@.len(),
                forall|i: int|
                    0 <= i < old(self).nodes@.len() ==> self.nodes@[i] == old(self).nodes@[i],
                forall|i: int|
                    old(self).nodes@.len() <= i < self.nodes@.len() ==> self.nodes@[i] is None,
            decreases id.index + 1 - self.nodes.len(),
        {
            self.nodes.push(None);
        }
        self.nodes[id.index] = Some(Node::new(data));
        self.shape = Ghost(
            Shape {
                kids: old(self).shape@.kids.insert(id, Seq::empty()),
                rank: old(self).shape@.rank.insert(id, 0),
                bound: old(self).shape@.bound,
            },
        );
        proof {
            assert forall|i: int|
                0 <= i < self.nodes@.len() && (#[trigger] self.nodes@[i])
                    is Some implies self.occupied(i) by {
                if i == id.index {
                    self.lemma_occupied(id);
                } else {
                    assert(old(self).nodes@[i] is Some);
                    let w = old(self).lemma_occupant(i);
                    self.lemma_occupied(w);
                }
            }
            assert(self@.dom() =~= old(self)@.dom().insert(id));
            assert(self@ =~= old(self)@.insert(id, self@[id]));
            assert(self.links() =~= old(self).links().insert(id, Links::detached()));
            assert(self.payloads() =~= old(self).payloads().insert(id, data));
            lemma_add_node(old(self).links(), old(self).shape(), id);
            old(self).lemma_live(id);
        }
        id
    }

    /// The number of live nodes.
    pub fn count(&self) -> (n: usize)
        ensures
            n == self@.dom().len(),
    {
        assert(self@.dom() =~= pool_live(self.slots));
        pool_len(&self.slots)
    }

    /// Whether no node is live.
    pub fn is_empty(&self) -> (empty: bool)
        ensures
            empty == (self@.dom().len() == 0),
            self.inv() ==> empty == (self@ == Map::<NodeId, Node<T>>::empty()),
    {
        proof {
            if self.inv() {
                self.lemma_live(NodeId { index: 0, generation: 0 });
                if self@.dom().len() == 0 {
                    assert(self@.dom() =~= Set::<NodeId>::empty());
                    assert(self@ =~= Map::<NodeId, Node<T>>::empty());
                }
            }
        }
        self.count() == 0
    }

    /// The node of `id` if `id` is live, nothing if it is stale or was
    /// never issued.
    pub fn get(&self, id: NodeId) -> (node: Option<&Node<T>>)
        requires
            self.inv(),
        ensures
            node == (if self.contains(id) {
                Some(&self@[id])
            } else {
                None
            }),
    {
        if pool_contains(&self.slots, id) {
            self.nodes[id.index].as_ref()
        } else {
            None
        }
    }

    /// Mutable access to the node of `id` if `id` is live. What the caller
    /// leaves in the node is what the arena then holds for `id`; nothing
    /// else changes.
    pub fn get_mut(&mut self, id: NodeId) -> (node: Option<&mut Node<T>>)
        requires
            old(self).inv(),
        ensures
            match node {
                Some(node) => {
                    &&& old(self).contains(id)
                    &&& *node == old(self)@[id]
                    &&& final(self)@ == old(self)@.insert(id, *final(node))
                    &&& final(self).generation() == old(self).generation()
                    &&& final(self).shape() == old(self).shape()
                    &&& final(self).inv()
                    &&& old(self).keeps_stale(final(self))
                },
                None => !old(self).contains(id) && *final(self) == *old(self),
            },
    {
        if pool_contains(&self.slots, id) {
            proof {
                assert forall|after: Arena<T>|
                    #![trigger after@]
                    #![trigger after.inv()]
                    after.slots == self.slots && after.shape == self.shape
                        && after.nodes@[id.index as int] is Some && after.nodes@
                        == self.nodes@.update(
                        id.index as int,
                        after.nodes@[id.index as int],
                    ) implies after@ == self@.insert(
                        id,
                        after.nodes@[id.index as int]->0,
                    ) && after.inv() && self.keeps_stale(&after) by {
                    assert(after@ =~= self@.insert(id, after.nodes@[id.index as int]->0));
                    assert forall|i: int|
                        0 <= i < after.nodes@.len() && (#[trigger] after.nodes@[i])
                            is Some implies after.occupied(i) by {
                        if i == id.index {
                            after.lemma_occupied(id);
                        } else {
                            assert(self.nodes@[i] is Some);
                            let w = self.lemma_occupant(i);
                            after.lemma_occupied(w);
                        }
                    }
                }
            }
            self.nodes[id.index].as_mut()
        } else {
            None
        }
    }

    /// Mutable access to the node of a live identifier: what `arena[id]`
    /// is for reading. What the caller leaves in the node is what the
    /// arena then holds for `id`; nothing else changes.
    pub fn index_mut(&mut self, id: NodeId) -> (node: &mut Node<T>)
        requires
            old(self).inv(),
            old(self).contains(id),
        ensures
            *node == old(self)@[id],
            final(self)@ == old(self)@.insert(id, *final(node)),
            final(self).generation() == old(self).generation(),
            final(self).shape() == old(self).shape(),
            final(self).inv(),
            old(self).keeps_stale(final(self)),
    {
        match self.get_mut(id) {
            Some(node) => node,
            None => vstd::pervasive::unreached(),
        }
    }

    /// Mutable access to the nodes of two different identifiers at once,
    /// to each as far as it is live. What the caller leaves in the two
    /// nodes is what the arena then holds for them; nothing else changes.
    pub fn get2_mut(&mut self, i1: NodeId, i2: NodeId) -> (pair: (
        Option<&mut Node<T>>,
        Option<&mut Node<T>>,
    ))
        requires
            old(self).inv(),
            i1 != i2,
        ensures
            pair.0 is Some == old(self).contains(i1),
            pair.1 is Some == old(self).contains(i2),
            pair.0 matches Some(node) ==> *node == old(self)@[i1],
            pair.1 matches Some(node) ==> *node == old(self)@[i2],
            final(self)@ == patched(
                patched(
                    old(self)@,
                    i1,
                    match pair.0 {
                        Some(node) => Some(*final(node)),
                        None => None,
                    },
                ),
                i2,
                match pair.1 {
                    Some(node) => Some(*final(node)),
                    None => None,
                },
            ),
            final(self).generation() == old(self).generation(),
            final(self).shape() == old(self).shape(),
            final(self).inv(),
            old(self).keeps_stale(final(self)),
    {
        let live1 = pool_contains(&self.slots, i1);
        let live2 = pool_contains(&self.slots, i2);
        proof {
            assert forall|after: Arena<T>|
                #![trigger after@]
                #![trigger after.inv()]
                after.slots == self.slots && after.shape == self.shape && after.nodes@.len()
                    == self.nodes@.len() && (forall|k: int|
                    0 <= k < self.nodes@.len() && !(live1 && k == i1.index) && !(live2 && k
                        == i2.index) ==> after.nodes@[k] == self.nodes@[k]) && (live1
                    ==> after.nodes@[i1.index as int] is Some) && (live2
                    ==> after.nodes@[i2.index as int] is Some) implies after@ == patched(
                patched(
                    self@,
                    i1,
                    if live1 {
                        after.nodes@[i1.index as int]
                    } else {
                        None
                    },
                ),
                i2,
                if live2 {
                    after.nodes@[i2.index as int]
                } else {
                    None
                },
            ) && after.inv() && self.keeps_stale(&after) by {
                assert forall|i: int|
                    0 <= i < after.nodes@.len() && (#[trigger] after.nodes@[i])
                        is Some implies after.occupied(i) by {
                    if live1 && i == i1.index {
                        after.lemma_occupied(i1);
                    } else if live2 && i == i2.index {
                        after.lemma_occupied(i2);
                    } else {
                        assert(self.nodes@[i] is Some);
                        let w = self.lemma_occupant(i);
                        after.lemma_occupied(w);
                    }
                }
                assert(after@ =~= patched(
                    patched(
                        self@,
                        i1,
                        if live1 {
                            after.nodes@[i1.index as int]
                        } else {
                            None
                        },
                    ),
                    i2,
                    if live2 {
                        after.nodes@[i2.index as int]
                    } else {
                        None
                    },
                ));
            }
        }
        if live1 && live2 {
            let slice = self.nodes.as_mut_slice();
            if i1.index < i2.index {
                let (low, high) = slice.split_at_mut(i2.index);
                (low[i1.index].as_mut(), high[0].as_mut())
            } else {
                let (low, high) = slice.split_at_mut(i1.index);
                (high[0].as_mut(), low[i2.index].as_mut())
            }
        } else if live1 {
            (self.nodes[i1.index].as_mut(), None)
        } else if live2 {
            (None, self.nodes[i2.index].as_mut())
        } else {
            (None, None)
        }
    }

    /// A copy of the links of `id` if `id` is live.
    pub(crate) fn links_of(&self, id: NodeId) -> (links: Option<Links>)
        requires
            self.inv(),
        ensures
            links == (if self.contains(id) {
                Some(self.links()[id])
            } else {
                None
            }),
    {
        match self.get(id) {
            Some(node) => Some(node.get_links()),
            None => None,
        }
    }

    /// Replaces the links of the live node `id`.
    pub(crate) fn set_links(&mut self, id: NodeId, links: Links)
        requires
            old(self).inv(),
            old(self).contains(id),
        ensures
            final(self).inv(),
            final(self)@.dom() == old(self)@.dom(),
            final(self).links() == old(self).links().insert(id, links),
            final(self).payloads() == old(self).payloads(),
            final(self).generation() == old(self).generation(),
            final(self).shape() == old(self).shape(),
    {
        match self.get_mut(id) {
            Some(node) => {
                node.set_links(links);
            },
            None => {},
        }
        proof {
            assert(self@.dom() =~= old(self)@.dom());
            assert(self.links() =~= old(self).links().insert(id, links));
            assert(self.payloads() =~= old(self).payloads());
        }
    }

    /// Records the forest that the links now describe.
    pub(crate) fn set_shape(&mut self, Ghost(shape): Ghost<Shape>)
        ensures
            final(self).inv() == old(self).inv(),
            final(self)@ == old(self)@,
            final(self).generation() == old(self).generation(),
            final(self).shape() == shape,
    {
        self.shape = Ghost(shape);
        proof {
            assert forall|i: int| self.occupied(i) == old(self).occupied(i) by {
                if self.occupied(i) {
                    let w = self.lemma_occupant(i);
                    old(self).lemma_occupied(w);
                }
                if old(self).occupied(i) {
                    let w = old(self).lemma_occupant(i);
                    self.lemma_occupied(w);
                }
            }
        }
    }

    /// Frees the slot of `id` and drops its node, if `id` is live; the
    /// links of the other nodes are not touched.
    pub(crate) fn free(&mut self, id: NodeId) -> (freed: bool)
        requires
            old(self).inv(),
            old(self).contains(id) ==> old(self).generation() < u64::MAX,
        ensures
            final(self).inv(),
            freed == old(self).contains(id),
            final(self)@ == old(self)@.remove(id),
            final(self).generation() == old(self).generation() + (if freed {
                1int
            } else {
                0int
            }),
            final(self).shape() == old(self).shape(),
    {
        let freed = pool_remove(&mut self.slots, id);
        if freed {
            self.nodes[id.index] = None;
        }
        proof {
            assert forall|i: int|
                0 <= i < self.nodes@.len() && (#[trigger] self.nodes@[i])
                    is Some implies self.occupied(i) by {
                assert(old(self).nodes@[i] is Some);
                let w = old(self).lemma_occupant(i);
                self.lemma_occupied(w);
            }
            assert(self@ =~= old(self)@.remove(id));
        }
        freed
    }

    /// The live identifiers in the order in which the arena stores their
    /// nodes: by slot index.
    pub closed spec fn order(&self) -> Seq<NodeId> {
        choose|ids: Seq<NodeId>| storage_order(ids, pool_live(self.slots))
    }

    /// Whatever lists the live identifiers by ascending slot index is the
    /// storage order.
    pub proof fn lemma_order_of(&self, ids: Seq<NodeId>)
        requires
            storage_order(ids, self@.dom()),
        ensures
            self.order() == ids,
    {
        assert(self@.dom() =~= pool_live(self.slots));
        lemma_storage_order_unique(ids, self.order(), pool_live(self.slots));
    }

    /// What is stored in the slot of `id`.
    pub closed spec fn slot(&self, id: NodeId) -> Option<Node<T>> {
        if id.index < self.nodes@.len() {
            self.nodes@[id.index as int]
        } else {
            None
        }
    }

    /// In a consistent arena the slot of a live identifier holds its node.
    pub proof fn lemma_slot(&self, id: NodeId)
        requires
            self.inv(),
            self.contains(id),
        ensures
            self.slot(id) == Some(self@[id]),
    {
    }

    /// The live identifiers in storage order.
    pub fn ids(&self) -> (ids: Vec<NodeId>)
        ensures
            ids@ == self.order(),
            storage_order(ids@, self@.dom()),
    {
        let ids = pool_ids(&self.slots);
        proof {
            lemma_storage_order_unique(ids@, self.order(), pool_live(self.slots));
            assert(self@.dom() =~= pool_live(self.slots));
        }
        ids
    }

    /// The live nodes in storage order.
    pub fn iter(&self) -> (nodes: Vec<&Node<T>>)
        requires
            self.inv(),
        ensures
            nodes@.len() == self.order().len(),
            forall|i: int|
                0 <= i < nodes@.len() ==> *#[trigger] nodes@[i] == self@[self.order()[i]],
    {
        let ids = self.ids();
        let mut nodes: Vec<&Node<T>> = Vec::new();
        let mut i: usize = 0;
        while i < ids.len()
            invariant
                self.inv(),
                ids@ == self.order(),
                storage_order(ids@, self@.dom()),
                0 <= i <= ids@.len(),
                nodes@.len() == i,
                forall|k: int| 0 <= k < i ==> *#[trigger] nodes@[k] == self@[ids@[k]],
            decreases ids@.len() - i,
        {
            assert(ids@.contains(ids@[i as int]));
            match self.get(ids[i]) {
                Some(node) => {
                    nodes.push(node);
                },
                None => {},
            }
            i += 1;
        }
        nodes
    }

    /// The live identifiers in storage order, each with its node.
    pub fn iter_pairs(&self) -> (pairs: Vec<(NodeId, &Node<T>)>)
        requires
            self.inv(),
        ensures
            pairs@.len() == self.order().len(),
            forall|i: int|
                0 <= i < pairs@.len() ==> (#[trigger] pairs@[i]).0 == self.order()[i]
                    && *pairs@[i].1 == self@[self.order()[i]],
    {
        let ids = self.ids();
        let mut pairs: Vec<(NodeId, &Node<T>)> = Vec::new();
        let mut i: usize = 0;
        while i < ids.len()
            invariant
                self.inv(),
                ids@ == self.order(),
                storage_order(ids@, self@.dom()),
                0 <= i <= ids@.len(),
                pairs@.len() == i,
                forall|k: int|
                    0 <= k < i ==> (#[trigger] pairs@[k]).0 == ids@[k] && *pairs@[k].1
                        == self@[ids@[k]],
            decreases ids@.len() - i,
        {
            assert(ids@.contains(ids@[i as int]));
            match self.get(ids[i]) {
                Some(node) => {
                    pairs.push((ids[i], node));
                },
                None => {},
            }
            i += 1;
        }
        pairs
    }

    /// Gives back the storage that no live node needs: the arena keeps
    /// room for the fewest slots that hold every live node, up to the last
    /// slot that is in use. No identifier and no node changes.
    pub fn shrink_to_fit(&mut self)
        requires
            old(self).inv(),
        ensures
            final(self).inv(),
            final(self)@ == old(self)@,
            final(self).generation() == old(self).generation(),
            final(self).shape() == old(self).shape(),
            old(self).keeps_stale(final(self)),
            final(self).slot_count() <= old(self).slot_count(),
            final(self).fits(final(self).slot_count()),
            forall|n: nat| #[trigger] final(self).fits(n) ==> final(self).slot_count() <= n,
    {
        while self.nodes.len() > 0 && self.nodes[self.nodes.len() - 1].is_none()
            invariant
                self.inv(),
                self.slots == old(self).slots,
                self.shape == old(self).shape,
                self.nodes@.len() <= old(self).nodes@.len(),
                forall|i: int| 0 <= i < self.nodes@.len() ==> self.nodes@[i] == old(self).nodes@[i],
            decreases self.nodes@.len(),
        {
            let ghost before = *self;
            self.nodes.pop();
            proof {
                assert forall|i: int|
                    0 <= i < self.nodes@.len() && (#[trigger] self.nodes@[i])
                        is Some implies self.occupied(i) by {
                    assert(before.nodes@[i] is Some);
                    let w = before.lemma_occupant(i);
                    self.lemma_occupied(w);
                }
            }
        }
        vec_shrink_to_fit(&mut self.nodes);
        proof {
            assert(self@ =~= old(self)@);
            assert forall|n: nat| #[trigger] self.fits(n) implies self.slot_count() <= n by {
                if self.nodes@.len() > 0 {
                    let last = self.nodes@.len() - 1;
                    assert(self.nodes@[last] is Some);
                    assert(self.occupied(last));
                    let id = choose|id: NodeId| #[trigger]
                        pool_live(self.slots).contains(id) && id.index == last;
                    assert(self.contains(id));
                }
            }
        }
    }
}

/// The map `m` with `node`, if there is one, in the place of `id`.
pub open spec fn patched<T>(m: Map<NodeId, Node<T>>, id: NodeId, node: Option<Node<T>>) -> Map<
    NodeId,
    Node<T>,
> {
    match node {
        Some(node) => m.insert(id, node),
        None => m,
    }
}

/// Two slots hold equal nodes, or both hold none.
pub open spec fn slots_equal<T: PartialEq>(a: Option<Node<T>>, b: Option<Node<T>>) -> bool {
    match (a, b) {
        (Some(x), Some(y)) => x.same_as(&y),
        (None, None) => true,
        _ => false,
    }
}

impl<T> std::ops::Index<NodeId> for Arena<T> {
    type Output = Node<T>;

    /// The node of a live identifier.
    fn index(&self, id: NodeId) -> (node: &Node<T>)
        ensures
            *node == self@[id],
    {
        match self.get(id) {
            Some(node) => node,
            None => vstd::pervasive::unreached(),
        }
    }
}

impl<T> vstd::std_specs::core::IndexSpecImpl<NodeId> for Arena<T> {
    open spec fn index_req(&self, id: &NodeId) -> bool {
        self.inv() && self.contains(*id)
    }
}

impl<T: Clone> Clone for Arena<T> {
    /// An arena with the same live identifiers, the same links and the
    /// same generation counter, whose payloads are clones.
    fn clone(&self) -> (copy: Arena<T>)
        ensures
            copy@.dom() == self@.dom(),
            copy.generation() == self.generation(),
            copy.shape() == self.shape(),
            self.inv() ==> copy.inv() && copy.links() == self.links(),
            self.inv() ==> forall|id: NodeId| #[trigger]
                self.contains(id) ==> cloned(self@[id].data(), copy@[id].data()),
    {
        let copy = Arena {
            slots: pool_clone(&self.slots),
            nodes: self.nodes.clone(),
            shape: Ghost(self.shape@),
        };
        proof {
            assert(copy@.dom() =~= self@.dom());
            if self.inv() {
                assert forall|id: NodeId| #[trigger] self.contains(id) implies {
                    &&& copy.nodes@[id.index as int] is Some
                    &&& copy@[id].links() == self@[id].links()
                    &&& cloned(self@[id].data(), copy@[id].data())
                } by {
                    assert(cloned(self.nodes@[id.index as int], copy.nodes@[id.index as int]));
                }
                assert(copy.links() =~= self.links());
            }
        }
        copy
    }
}

impl<T> Default for Arena<T> {
    /// An empty arena.
    fn default() -> (arena: Arena<T>)
        ensures
            arena.wf(),
            arena@ == Map::<NodeId, Node<T>>::empty(),
            arena.generation() == 0,
    {
        Arena::new()
    }
}

impl<T: PartialEq> PartialEq for Arena<T> {
    /// Two arenas are equal when they hold equally many nodes and their
    /// nodes, taken in storage order, are equal one by one.
    fn eq(&self, other: &Arena<T>) -> (equal: bool) {
        let mine = self.ids();
        let theirs = other.ids();
        if mine.len() != theirs.len() {
            return false;
        }
        let mut i: usize = 0;
        while i < mine.len()
            invariant
                mine@ == self.order(),
                theirs@ == other.order(),
                mine@.len() == theirs@.len(),
                0 <= i <= mine@.len(),
                T::obeys_eq_spec() ==> forall|k: int|
                    0 <= k < i ==> #[trigger] slots_equal(
                        self.slot(mine@[k]),
                        other.slot(theirs@[k]),
                    ),
            decreases mine@.len() - i,
        {
            let a = mine[i];
            let b = theirs[i];
            let left = if a.index < self.nodes.len() {
                self.nodes[a.index].as_ref()
            } else {
                None
            };
            let right = if b.index < other.nodes.len() {
                other.nodes[b.index].as_ref()
            } else {
                None
            };
            let same = match (left, right) {
                (Some(x), Some(y)) => *x == *y,
                (None, None) => true,
                _ => false,
            };
            if !same {
                assert(T::obeys_eq_spec() ==> !slots_equal(
                    self.slot(self.order()[i as int]),
                    other.slot(other.order()[i as int]),
                ));
                return false;
            }
            i += 1;
        }
        true
    }
}

impl<T: PartialEq> vstd::std_specs::cmp::PartialEqSpecImpl for Arena<T> {
    open spec fn obeys_eq_spec() -> bool {
        T::obeys_eq_spec()
    }

    open spec fn eq_spec(&self, other: &Arena<T>) -> bool {
        &&& self.order().len() == other.order().len()
        &&& forall|i: int|
            0 <= i < self.order().len() ==> #[trigger] slots_equal(
                self.slot(self.order()[i]),
                other.slot(other.order()[i]),
            )
    }
}

impl<T: PartialEq> Eq for Arena<T> {}

} // verus!
