//! The operations that change the shape of the forest.
//!
//! Each of them takes identifiers and the arena. Where an identifier is not
//! live, nothing is changed and `false` is returned.

use vstd::prelude::*;
use vstd::set_lib::{lemma_len_subset, lemma_set_difference_len};
use crate::arena::Arena;
use crate::id::NodeId;
use crate::node::Links;
use crate::prune::{
    below, lemma_prune, lemma_sweep_child, lemma_sweep_end, lemma_sweep_start, lemma_sweep_step,
    prune_shape, sweep_inv,
};
use crate::tree::{
    at, attach_links, attach_shape, detach_links, detach_shape, kids_with, kids_without,
    lemma_attach, lemma_child, lemma_detach, lemma_detach_reaches, lemma_links_closed,
    lemma_position, node_ok, position, reaches, tree_wf,
};

verus! {

/// What `a` and `b` have in common but for the links: the live nodes,
/// their payloads and the generation counter.
pub open spec fn same_nodes<T>(a: Arena<T>, b: Arena<T>) -> bool {
    &&& a@.dom() == b@.dom()
    &&& a.payloads() == b.payloads()
    &&& a.generation() == b.generation()
}

/// `child` can be put under `parent`, or next to a child of `parent`,
/// without making a cycle: where both are live, `child` is neither `parent`
/// nor one of its ancestors.
pub open spec fn may_adopt<T>(arena: Arena<T>, parent: NodeId, child: NodeId) -> bool {
    arena.contains(parent) && arena.contains(child) ==> !arena.is_ancestor_or_self(child, parent)
}

/// The generation counter has room for the removal of `id` and of all
/// that lies below it, each of which adds one to it.
pub open spec fn generations_suffice<T>(arena: Arena<T>, id: NodeId) -> bool {
    arena.contains(id) ==> arena.generation() + arena.subtree(id).len() <= u64::MAX
}

/// The children of every node after `child` has left its parent and has
/// become the child of `parent` at position `k` of what that parent then
/// had.
pub open spec fn children_after_move<T>(
    arena: Arena<T>,
    child: NodeId,
    parent: NodeId,
    k: int,
) -> Map<NodeId, Seq<NodeId>> {
    kids_with(
        kids_without(arena.children(), arena.links()[child].parent, child),
        parent,
        k,
        child,
    )
}

/// The children of `parent` once `child` has left its own parent.
pub open spec fn children_left<T>(arena: Arena<T>, child: NodeId, parent: NodeId) -> Seq<NodeId> {
    kids_without(arena.children(), arena.links()[child].parent, child)[parent]
}

/// Sets the link of `id` to its previous sibling.
fn set_previous_sibling<T>(arena: &mut Arena<T>, id: NodeId, value: Option<NodeId>)
    requires
        old(arena).inv(),
        old(arena).contains(id),
    ensures
        final(arena).inv(),
        same_nodes(*final(arena), *old(arena)),
        final(arena).shape() == old(arena).shape(),
        final(arena).links() == old(arena).links().insert(
            id,
            Links { previous_sibling: value, ..old(arena).links()[id] },
        ),
{
    if let Some(links) = arena.links_of(id) {
        arena.set_links(id, Links { previous_sibling: value, ..links });
    }
}

/// Sets the link of `id` to its next sibling.
fn set_next_sibling<T>(arena: &mut Arena<T>, id: NodeId, value: Option<NodeId>)
    requires
        old(arena).inv(),
        old(arena).contains(id),
    ensures
        final(arena).inv(),
        same_nodes(*final(arena), *old(arena)),
        final(arena).shape() == old(arena).shape(),
        final(arena).links() == old(arena).links().insert(
            id,
            Links { next_sibling: value, ..old(arena).links()[id] },
        ),
{
    if let Some(links) = arena.links_of(id) {
        arena.set_links(id, Links { next_sibling: value, ..links });
    }
}

/// Sets the link of `id` to its first child.
fn set_first_child<T>(arena: &mut Arena<T>, id: NodeId, value: Option<NodeId>)
    requires
        old(arena).inv(),
        old(arena).contains(id),
    ensures
        final(arena).inv(),
        same_nodes(*final(arena), *old(arena)),
        final(arena).shape() == old(arena).shape(),
        final(arena).links() == old(arena).links().insert(
            id,
            Links { first_child: value, ..old(arena).links()[id] },
        ),
{
    if let Some(links) = arena.links_of(id) {
        arena.set_links(id, Links { first_child: value, ..links });
    }
}

/// Sets the link of `id` to its last child.
fn set_last_child<T>(arena: &mut Arena<T>, id: NodeId, value: Option<NodeId>)
    requires
        old(arena).inv(),
        old(arena).contains(id),
    ensures
        final(arena).inv(),
        same_nodes(*final(arena), *old(arena)),
        final(arena).shape() == old(arena).shape(),
        final(arena).links() == old(arena).links().insert(
            id,
            Links { last_child: value, ..old(arena).links()[id] },
        ),
{
    if let Some(links) = arena.links_of(id) {
        arena.set_links(id, Links { last_child: value, ..links });
    }
}

/// Makes the root `child` the child of `parent` that stands between
/// `previous` and `next`, which are neighbours among the children of
/// `parent` (`k` is the position of `next`).
fn insert_with_neighbors<T>(
    arena: &mut Arena<T>,
    child: NodeId,
    parent: NodeId,
    previous: Option<NodeId>,
    next: Option<NodeId>,
    Ghost(k): Ghost<int>,
)
    requires
        old(arena).wf(),
        old(arena).contains(child),
        old(arena).contains(parent),
        old(arena).links()[child].parent is None,
        !old(arena).is_ancestor_or_self(child, parent),
        0 <= k <= old(arena).children()[parent].len(),
        previous == at(old(arena).children()[parent], k - 1),
        next == at(old(arena).children()[parent], k),
    ensures
        final(arena).wf(),
        same_nodes(*final(arena), *old(arena)),
        final(arena).links() == attach_links(old(arena).links(), child, parent, previous, next),
        final(arena).shape() == attach_shape(
            old(arena).links(),
            old(arena).shape(),
            child,
            parent,
            k,
        ),
{
    let ghost lm = arena.links();
    let ghost sh = arena.shape();
    proof {
        if k > 0 {
            lemma_child(lm, sh, parent, k - 1);
        }
        if k < sh.kids[parent].len() {
            lemma_child(lm, sh, parent, k);
        }
    }
    match previous {
        Some(a) => set_next_sibling(arena, a, Some(child)),
        None => set_first_child(arena, parent, Some(child)),
    }
    match next {
        Some(b) => set_previous_sibling(arena, b, Some(child)),
        None => set_last_child(arena, parent, Some(child)),
    }
    if let Some(links) = arena.links_of(child) {
        arena.set_links(
            child,
            Links { parent: Some(parent), previous_sibling: previous, next_sibling: next, ..links },
        );
    }
    arena.set_shape(Ghost(attach_shape(lm, sh, child, parent, k)));
    proof {
        assert(arena.links() =~= attach_links(lm, child, parent, previous, next));
        lemma_attach(lm, sh, child, parent, k);
    }
}

/// Removes the root `root` and all that lies below it, working off a list of
/// pending nodes: a pending node is replaced by its children and then freed.
fn sweep<T>(arena: &mut Arena<T>, root: NodeId)
    requires
        old(arena).wf(),
        old(arena).contains(root),
        old(arena).links()[root].parent is None,
        old(arena).generation() + old(arena).subtree(root).len() <= u64::MAX,
    ensures
        final(arena).wf(),
        final(arena)@ == old(arena)@.remove_keys(old(arena).subtree(root)),
        final(arena).shape() == prune_shape(old(arena).shape(), old(arena).subtree(root)),
        final(arena).generation() == old(arena).generation() + old(arena).subtree(root).len(),
{
    let ghost a0 = *arena;
    let ghost lm = arena.links();
    let ghost sh = arena.shape();
    let ghost gone = below(lm, sh.rank, root);
    let ghost mut removed: Set<NodeId> = Set::empty();
    let mut stack: Vec<NodeId> = Vec::new();
    stack.push(root);
    proof {
        lemma_sweep_start(lm, sh, root);
        arena.lemma_live(root);
        assert(lm.dom() =~= arena@.dom());
        assert(stack@ =~= seq![root]);
        assert(arena@ =~= a0@.remove_keys(removed));
    }
    while stack.len() > 0
        invariant
            arena.inv(),
            lm == a0.links(),
            sh == a0.shape(),
            tree_wf(lm, sh),
            lm.dom().finite(),
            gone == below(lm, sh.rank, root),
            arena.shape() == sh,
            arena@ == a0@.remove_keys(removed),
            arena.generation() == a0.generation() + removed.len(),
            a0.generation() + gone.len() <= u64::MAX,
            sweep_inv(lm, sh, root, removed, stack@),
        decreases gone.len() - removed.len(),
    {
        let ghost before = stack@;
        let x = stack.pop().unwrap();
        let ghost rest = stack@;
        proof {
            assert(before =~= rest.push(x));
            lemma_sweep_step(lm, sh, root, removed, rest, x);
            lemma_links_closed(lm, sh, x);
        }
        let mut cur = match arena.links_of(x) {
            Some(links) => links.first_child,
            None => None,
        };
        let ghost mut j: int = 0;
        proof {
            assert(stack@ =~= rest + sh.kids[x].subrange(0, 0));
        }
        while cur.is_some()
            invariant
                arena.inv(),
                lm == a0.links(),
                tree_wf(lm, sh),
                arena@ == a0@.remove_keys(removed),
                sweep_inv(lm, sh, root, removed, rest.push(x)),
                0 <= j <= sh.kids[x].len(),
                cur == at(sh.kids[x], j),
                stack@ == rest + sh.kids[x].subrange(0, j),
            decreases sh.kids[x].len() - j,
        {
            let c = cur.unwrap();
            proof {
                lemma_sweep_child(lm, sh, root, removed, rest, x, j);
            }
            stack.push(c);
            cur = match arena.links_of(c) {
                Some(links) => links.next_sibling,
                None => None,
            };
            proof {
                assert(stack@ =~= rest + sh.kids[x].subrange(0, j + 1));
                j = j + 1;
            }
        }
        arena.free(x);
        proof {
            assert(sh.kids[x].subrange(0, j) =~= sh.kids[x]);
            removed = removed.insert(x);
            assert(arena@ =~= a0@.remove_keys(removed));
        }
    }
    arena.set_shape(Ghost(prune_shape(sh, gone)));
    proof {
        assert(stack@ =~= Seq::<NodeId>::empty());
        lemma_sweep_end(lm, sh, root, removed);
        lemma_prune(lm, sh, root);
        assert(arena.links() =~= lm.remove_keys(gone));
    }
}

impl NodeId {
    /// Takes this node out of the list of its siblings and makes it a
    /// root. Its own children stay with it.
    ///
    /// Returns whether anything was done: `false` where the node is not
    /// live or has no parent, and then nothing has changed.
    pub fn detach<T>(self, arena: &mut Arena<T>) -> (done: bool)
        requires
            old(arena).wf(),
        ensures
            final(arena).wf(),
            done == (old(arena).contains(self) && old(arena).links()[self].parent is Some),
            !done ==> *final(arena) == *old(arena),
            same_nodes(*final(arena), *old(arena)),
            old(arena).keeps_stale(final(arena)),
            old(arena).contains(self) ==> {
                &&& final(arena).children() == kids_without(
                    old(arena).children(),
                    old(arena).links()[self].parent,
                    self,
                )
                &&& final(arena).links() == detach_links(old(arena).links(), self)
                &&& final(arena).shape() == detach_shape(
                    old(arena).links(),
                    old(arena).shape(),
                    self,
                )
            },
    {
        let ghost lm = arena.links();
        let ghost sh = arena.shape();
        let links = match arena.links_of(self) {
            Some(links) => links,
            None => {
                return false;
            },
        };
        proof {
            lemma_detach(lm, sh, self);
            lemma_links_closed(lm, sh, self);
        }
        let parent = match links.parent {
            Some(parent) => parent,
            None => {
                return false;
            },
        };
        match links.previous_sibling {
            Some(a) => set_next_sibling(arena, a, links.next_sibling),
            None => set_first_child(arena, parent, links.next_sibling),
        }
        match links.next_sibling {
            Some(b) => set_previous_sibling(arena, b, links.previous_sibling),
            None => set_last_child(arena, parent, links.previous_sibling),
        }
        arena.set_links(
            self,
            Links { parent: None, previous_sibling: None, next_sibling: None, ..links },
        );
        arena.set_shape(Ghost(detach_shape(lm, sh, self)));
        proof {
            assert(arena.links() =~= detach_links(lm, self));
        }
        true
    }

    /// Makes `new_child` the last child of this node, after taking it out
    /// of wherever it was.
    ///
    /// `new_child` must not be this node or one of its ancestors: the
    /// result would not be a forest. Returns `false`, with nothing changed,
    /// where one of the two nodes is not live.
    pub fn append<T>(self, new_child: NodeId, arena: &mut Arena<T>) -> (done: bool)
        requires
            old(arena).wf(),
            may_adopt(*old(arena), self, new_child),
        ensures
            final(arena).wf(),
            done == (old(arena).contains(self) && old(arena).contains(new_child)),
            !done ==> *final(arena) == *old(arena),
            same_nodes(*final(arena), *old(arena)),
            old(arena).keeps_stale(final(arena)),
            done ==> {
                let lm = detach_links(old(arena).links(), new_child);
                let sh = detach_shape(old(arena).links(), old(arena).shape(), new_child);
                &&& final(arena).children() == children_after_move(
                    *old(arena),
                    new_child,
                    self,
                    children_left(*old(arena), new_child, self).len() as int,
                )
                &&& final(arena).links() == attach_links(
                    lm,
                    new_child,
                    self,
                    lm[self].last_child,
                    None,
                )
                &&& final(arena).shape() == attach_shape(
                    lm,
                    sh,
                    new_child,
                    self,
                    sh.kids[self].len() as int,
                )
            },
    {
        if arena.links_of(self).is_none() || arena.links_of(new_child).is_none() {
            return false;
        }
        let ghost lm0 = arena.links();
        let ghost sh0 = arena.shape();
        new_child.detach(arena);
        let ghost lm = arena.links();
        let ghost sh = arena.shape();
        proof {
            lemma_detach_reaches(lm0, sh0, new_child, self);
            lemma_links_closed(lm, sh, self);
        }
        match arena.links_of(self) {
            Some(links) => {
                insert_with_neighbors(
                    arena,
                    new_child,
                    self,
                    links.last_child,
                    None,
                    Ghost(sh.kids[self].len() as int),
                );
            },
            None => {},
        }
        true
    }

    /// Makes `new_child` the first child of this node, after taking it out
    /// of wherever it was.
    ///
    /// `new_child` must not be this node or one of its ancestors: the
    /// result would not be a forest. Returns `false`, with nothing changed,
    /// where one of the two nodes is not live.
    pub fn prepend<T>(self, new_child: NodeId, arena: &mut Arena<T>) -> (done: bool)
        requires
            old(arena).wf(),
            may_adopt(*old(arena), self, new_child),
        ensures
            final(arena).wf(),
            done == (old(arena).contains(self) && old(arena).contains(new_child)),
            !done ==> *final(arena) == *old(arena),
            same_nodes(*final(arena), *old(arena)),
            old(arena).keeps_stale(final(arena)),
            done ==> {
                let lm = detach_links(old(arena).links(), new_child);
                let sh = detach_shape(old(arena).links(), old(arena).shape(), new_child);
                &&& final(arena).children() == children_after_move(
                    *old(arena),
                    new_child,
                    self,
                    0,
                )
                &&& final(arena).links() == attach_links(
                    lm,
                    new_child,
                    self,
                    None,
                    lm[self].first_child,
                )
                &&& final(arena).shape() == attach_shape(lm, sh, new_child, self, 0)
            },
    {
        if arena.links_of(self).is_none() || arena.links_of(new_child).is_none() {
            return false;
        }
        let ghost lm0 = arena.links();
        let ghost sh0 = arena.shape();
        new_child.detach(arena);
        let ghost lm = arena.links();
        let ghost sh = arena.shape();
        proof {
            lemma_detach_reaches(lm0, sh0, new_child, self);
            lemma_links_closed(lm, sh, self);
        }
        match arena.links_of(self) {
            Some(links) => {
                insert_with_neighbors(arena, new_child, self, None, links.first_child, Ghost(0));
            },
            None => {},
        }
        true
    }

    /// Makes `new_sibling` the sibling just after this node, after taking
    /// it out of wherever it was.
    ///
    /// `new_sibling` must not be this node or one of its ancestors.
    /// Returns `false`, with nothing changed, where one of the two nodes is
    /// not live or this node has no parent, and so no list of siblings to
    /// put the other in.
    pub fn insert_after<T>(self, new_sibling: NodeId, arena: &mut Arena<T>) -> (done: bool)
        requires
            old(arena).wf(),
            may_adopt(*old(arena), self, new_sibling),
        ensures
            final(arena).wf(),
            done == (old(arena).contains(self) && old(arena).contains(new_sibling)
                && old(arena).links()[self].parent is Some),
            !done ==> *final(arena) == *old(arena),
            same_nodes(*final(arena), *old(arena)),
            old(arena).keeps_stale(final(arena)),
            done ==> {
                let lm = detach_links(old(arena).links(), new_sibling);
                let sh = detach_shape(old(arena).links(), old(arena).shape(), new_sibling);
                let parent = old(arena).links()[self].parent->0;
                &&& final(arena).children() == children_after_move(
                    *old(arena),
                    new_sibling,
                    parent,
                    children_left(*old(arena), new_sibling, parent).index_of(self) + 1,
                )
                &&& final(arena).links() == attach_links(
                    lm,
                    new_sibling,
                    lm[self].parent->0,
                    Some(self),
                    lm[self].next_sibling,
                )
                &&& final(arena).shape() == attach_shape(
                    lm,
                    sh,
                    new_sibling,
                    lm[self].parent->0,
                    position(lm, sh, self) + 1,
                )
            },
    {
        let parent = match arena.links_of(self) {
            Some(Links { parent: Some(parent), .. }) => parent,
            _ => {
                return false;
            },
        };
        if arena.links_of(new_sibling).is_none() {
            return false;
        }
        let ghost lm0 = arena.links();
        let ghost sh0 = arena.shape();
        new_sibling.detach(arena);
        let ghost lm = arena.links();
        let ghost sh = arena.shape();
        proof {
            assert(node_ok(lm0, sh0, self));
            lemma_detach_reaches(lm0, sh0, new_sibling, parent);
            lemma_position(lm, sh, self);
        }
        match arena.links_of(self) {
            Some(links) => {
                insert_with_neighbors(
                    arena,
                    new_sibling,
                    parent,
                    Some(self),
                    links.next_sibling,
                    Ghost(position(lm, sh, self) + 1),
                );
            },
            None => {},
        }
        true
    }

    /// Makes `new_sibling` the sibling just before this node, after taking
    /// it out of wherever it was.
    ///
    /// `new_sibling` must not be this node or one of its ancestors.
    /// Returns `false`, with nothing changed, where one of the two nodes is
    /// not live or this node has no parent, and so no list of siblings to
    /// put the other in.
    pub fn insert_before<T>(self, new_sibling: NodeId, arena: &mut Arena<T>) -> (done: bool)
        requires
            old(arena).wf(),
            may_adopt(*old(arena), self, new_sibling),
        ensures
            final(arena).wf(),
            done == (old(arena).contains(self) && old(arena).contains(new_sibling)
                && old(arena).links()[self].parent is Some),
            !done ==> *final(arena) == *old(arena),
            same_nodes(*final(arena), *old(arena)),
            old(arena).keeps_stale(final(arena)),
            done ==> {
                let lm = detach_links(old(arena).links(), new_sibling);
                let sh = detach_shape(old(arena).links(), old(arena).shape(), new_sibling);
                let parent = old(arena).links()[self].parent->0;
                &&& final(arena).children() == children_after_move(
                    *old(arena),
                    new_sibling,
                    parent,
                    children_left(*old(arena), new_sibling, parent).index_of(self),
                )
                &&& final(arena).links() == attach_links(
                    lm,
                    new_sibling,
                    lm[self].parent->0,
                    lm[self].previous_sibling,
                    Some(self),
                )
                &&& final(arena).shape() == attach_shape(
                    lm,
                    sh,
                    new_sibling,
                    lm[self].parent->0,
                    position(lm, sh, self),
                )
            },
    {
        let parent = match arena.links_of(self) {
            Some(Links { parent: Some(parent), .. }) => parent,
            _ => {
                return false;
            },
        };
        if arena.links_of(new_sibling).is_none() {
            return false;
        }
        let ghost lm0 = arena.links();
        let ghost sh0 = arena.shape();
        new_sibling.detach(arena);
        let ghost lm = arena.links();
        let ghost sh = arena.shape();
        proof {
            assert(node_ok(lm0, sh0, self));
            lemma_detach_reaches(lm0, sh0, new_sibling, parent);
            lemma_position(lm, sh, self);
        }
        match arena.links_of(self) {
            Some(links) => {
                insert_with_neighbors(
                    arena,
                    new_sibling,
                    parent,
                    links.previous_sibling,
                    Some(self),
                    Ghost(position(lm, sh, self)),
                );
            },
            None => {},
        }
        true
    }

    /// Removes this node and all that lies below it from the arena.
    ///
    /// The node is first taken out of the list of its siblings; then it and
    /// its descendants are freed one by one, so that every identifier among
    /// them is stale afterwards. Returns `false`, with nothing changed,
    /// where the node is not live.
    ///
    /// Every node that is freed adds one to the generation counter, which
    /// must not overflow.
    pub fn remove<T>(self, arena: &mut Arena<T>) -> (done: bool)
        requires
            old(arena).wf(),
            generations_suffice(*old(arena), self),
        ensures
            final(arena).wf(),
            done == old(arena).contains(self),
            !done ==> *final(arena) == *old(arena),
            old(arena).keeps_stale(final(arena)),
            done ==> {
                let gone = old(arena).subtree(self);
                &&& final(arena)@.dom() == old(arena)@.dom().difference(gone)
                &&& final(arena)@.dom().len() + gone.len() == old(arena)@.dom().len()
                &&& final(arena).generation() == old(arena).generation() + gone.len()
                &&& forall|y: NodeId| gone.contains(y) ==> final(arena).is_stale(y)
                &&& final(arena).payloads() == old(arena).payloads().remove_keys(gone)
                &&& final(arena).links() == detach_links(old(arena).links(), self).remove_keys(
                    gone,
                )
                &&& final(arena).children() == kids_without(
                    old(arena).children(),
                    old(arena).links()[self].parent,
                    self,
                ).remove_keys(gone)
                &&& final(arena).shape() == prune_shape(
                    detach_shape(old(arena).links(), old(arena).shape(), self),
                    gone,
                )
            },
    {
        if arena.links_of(self).is_none() {
            return false;
        }
        let ghost lm0 = arena.links();
        let ghost sh0 = arena.shape();
        let ghost gone = arena.subtree(self);
        self.detach(arena);
        proof {
            assert forall|y: NodeId|
                reaches(arena.links(), sh0.rank, y, self) == reaches(lm0, sh0.rank, y, self) by {
                lemma_detach_reaches(lm0, sh0, self, y);
            }
            assert(arena.subtree(self) =~= gone);
            arena.lemma_live(self);
            assert(gone.subset_of(arena@.dom()));
            lemma_len_subset(gone, arena@.dom());
            lemma_set_difference_len(arena@.dom(), gone);
            assert(arena@.dom().intersect(gone) =~= gone);
        }
        sweep(arena, self);
        proof {
            assert(arena@.dom() =~= old(arena)@.dom().difference(gone));
            assert(arena.payloads() =~= old(arena).payloads().remove_keys(gone));
            assert(arena.links() =~= detach_links(lm0, self).remove_keys(gone));
            assert(gone.contains(self));
            assert forall|y: NodeId| gone.contains(y) implies arena.is_stale(y) by {
                old(arena).lemma_live(y);
            }
        }
        true
    }
}

} // verus!
