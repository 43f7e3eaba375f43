//! Walks over the forest: along the ancestors, along the siblings, and
//! through a subtree in pre-order.
//!
//! A walk is lazy: it holds the arena and the place it has reached, and
//! reads one node's links at every step.

use vstd::prelude::*;
use crate::arena::Arena;
use crate::id::NodeId;
use crate::laws::lemma_ancestors;
use crate::node::Links;
use crate::tree::{
    at, lemma_child, lemma_links_closed, lemma_position, node_ok, position, tree_wf, Shape,
};

verus! {

/// `id`, its parent, the parent of that, and so on up to the root.
/// Empty where `id` is not a node.
pub open spec fn ancestors_seq(lm: Map<NodeId, Links>, rank: Map<NodeId, nat>, id: NodeId) -> Seq<
    NodeId,
>
    decreases rank[id],
{
    if !lm.dom().contains(id) {
        Seq::empty()
    } else if lm[id].parent is Some && rank[lm[id].parent->0] < rank[id] {
        seq![id] + ancestors_seq(lm, rank, lm[id].parent->0)
    } else {
        seq![id]
    }
}

/// The children of `id`, first to last. Empty where `id` is not a node.
pub open spec fn children_seq(lm: Map<NodeId, Links>, sh: Shape, id: NodeId) -> Seq<NodeId> {
    if lm.dom().contains(id) {
        sh.kids[id]
    } else {
        Seq::empty()
    }
}

/// `id` and the siblings after it, in their order. Empty where `id` is not
/// a node.
pub open spec fn following_seq(lm: Map<NodeId, Links>, sh: Shape, id: NodeId) -> Seq<NodeId> {
    if !lm.dom().contains(id) {
        Seq::empty()
    } else {
        match lm[id].parent {
            Some(p) => sh.kids[p].skip(position(lm, sh, id)),
            None => seq![id],
        }
    }
}

/// `id` and the siblings before it, the nearest first. Empty where `id` is
/// not a node.
pub open spec fn preceding_seq(lm: Map<NodeId, Links>, sh: Shape, id: NodeId) -> Seq<NodeId> {
    if !lm.dom().contains(id) {
        Seq::empty()
    } else {
        match lm[id].parent {
            Some(p) => sh.kids[p].take(position(lm, sh, id) + 1).reverse(),
            None => seq![id],
        }
    }
}

/// The children of `p` from position `i` on, each followed by all that
/// lies below it, depth first.
pub open spec fn preorder_from(lm: Map<NodeId, Links>, sh: Shape, p: NodeId, i: int) -> Seq<NodeId>
    decreases sh.bound - sh.rank[p], sh.kids[p].len() - i,
{
    if 0 <= i < sh.kids[p].len() && sh.rank[p] < sh.rank[sh.kids[p][i]] <= sh.bound {
        seq![sh.kids[p][i]] + preorder_from(lm, sh, sh.kids[p][i], 0) + preorder_from(
            lm,
            sh,
            p,
            i + 1,
        )
    } else {
        Seq::empty()
    }
}

/// `id` and all that lies below it in pre-order: a node, then the subtrees
/// of its children, left to right. Empty where `id` is not a node.
pub open spec fn preorder(lm: Map<NodeId, Links>, sh: Shape, id: NodeId) -> Seq<NodeId> {
    if lm.dom().contains(id) {
        seq![id] + preorder_from(lm, sh, id, 0)
    } else {
        Seq::empty()
    }
}

/// What a pre-order walk has before it when `stack` holds the roots of the
/// subtrees still to visit, the next one last.
pub open spec fn pending_seq(lm: Map<NodeId, Links>, sh: Shape, stack: Seq<NodeId>) -> Seq<NodeId>
    decreases stack.len(),
{
    if stack.len() == 0 {
        Seq::empty()
    } else {
        preorder(lm, sh, stack.last()) + pending_seq(lm, sh, stack.drop_last())
    }
}

/// A walk along the ancestors goes on with the parent.
pub proof fn lemma_ancestors_step(lm: Map<NodeId, Links>, sh: Shape, id: NodeId)
    requires
        tree_wf(lm, sh),
        lm.dom().contains(id),
    ensures
        ancestors_seq(lm, sh.rank, id) == seq![id] + (match lm[id].parent {
            Some(p) => ancestors_seq(lm, sh.rank, p),
            None => Seq::empty(),
        }),
{
    assert(node_ok(lm, sh, id));
    assert(seq![id] + Seq::<NodeId>::empty() =~= seq![id]);
}

/// A walk along the following siblings goes on with the next sibling.
pub proof fn lemma_following_step(lm: Map<NodeId, Links>, sh: Shape, id: NodeId)
    requires
        tree_wf(lm, sh),
        lm.dom().contains(id),
    ensures
        following_seq(lm, sh, id) == seq![id] + (match lm[id].next_sibling {
            Some(m) => following_seq(lm, sh, m),
            None => Seq::empty(),
        }),
{
    assert(node_ok(lm, sh, id));
    lemma_links_closed(lm, sh, id);
    let tail = match lm[id].next_sibling {
        Some(m) => following_seq(lm, sh, m),
        None => Seq::empty(),
    };
    match lm[id].parent {
        Some(p) => {
            lemma_position(lm, sh, id);
            let i = position(lm, sh, id);
            if i + 1 < sh.kids[p].len() {
                lemma_child(lm, sh, p, i + 1);
            }
            assert(sh.kids[p].skip(i) =~= seq![id] + sh.kids[p].skip(i + 1));
            assert(tail =~= sh.kids[p].skip(i + 1));
        },
        None => {
            assert(seq![id] + Seq::<NodeId>::empty() =~= seq![id]);
        },
    }
}

/// A walk along the preceding siblings goes on with the previous sibling.
pub proof fn lemma_preceding_step(lm: Map<NodeId, Links>, sh: Shape, id: NodeId)
    requires
        tree_wf(lm, sh),
        lm.dom().contains(id),
    ensures
        preceding_seq(lm, sh, id) == seq![id] + (match lm[id].previous_sibling {
            Some(m) => preceding_seq(lm, sh, m),
            None => Seq::empty(),
        }),
{
    assert(node_ok(lm, sh, id));
    lemma_links_closed(lm, sh, id);
    let tail = match lm[id].previous_sibling {
        Some(m) => preceding_seq(lm, sh, m),
        None => Seq::empty(),
    };
    match lm[id].parent {
        Some(p) => {
            lemma_position(lm, sh, id);
            let i = position(lm, sh, id);
            if i > 0 {
                lemma_child(lm, sh, p, i - 1);
            }
            assert(tail =~= sh.kids[p].take(i).reverse());
            assert(sh.kids[p].take(i + 1).reverse() =~= seq![id] + sh.kids[p].take(i).reverse());
        },
        None => {
            assert(seq![id] + Seq::<NodeId>::empty() =~= seq![id]);
        },
    }
}

/// The pre-order of the children of `p` from position `i` on starts with
/// the subtree of the child at `i`.
pub proof fn lemma_preorder_step(lm: Map<NodeId, Links>, sh: Shape, p: NodeId, i: int)
    requires
        tree_wf(lm, sh),
        lm.dom().contains(p),
        0 <= i < sh.kids[p].len(),
    ensures
        lm.dom().contains(sh.kids[p][i]),
        preorder_from(lm, sh, p, i) == preorder(lm, sh, sh.kids[p][i]) + preorder_from(
            lm,
            sh,
            p,
            i + 1,
        ),
{
    lemma_child(lm, sh, p, i);
    assert(node_ok(lm, sh, sh.kids[p][i]));
}

/// The direction of a walk from node to node.
#[derive(Clone, Copy, Debug, PartialEq, Eq, Structural)]
enum Step {
    Parent,
    PreviousSibling,
    NextSibling,
}

/// A walk that follows one kind of link from node to node: to the parent,
/// to the previous sibling or to the next one.
pub struct Walk<'a, T> {
    arena: &'a Arena<T>,
    node: Option<NodeId>,
    step: Step,
}

impl<'a, T> Walk<'a, T> {
    /// The arena that is walked over.
    pub closed spec fn arena(&self) -> Arena<T> {
        *self.arena
    }

    /// The nodes that the walk has before it, the next one first.
    pub closed spec fn remaining(&self) -> Seq<NodeId> {
        match self.node {
            None => Seq::empty(),
            Some(id) => match self.step {
                Step::Parent => ancestors_seq(
                    self.arena.links(),
                    self.arena.shape().rank,
                    id,
                ),
                Step::PreviousSibling => preceding_seq(
                    self.arena.links(),
                    self.arena.shape(),
                    id,
                ),
                Step::NextSibling => following_seq(self.arena.links(), self.arena.shape(), id),
            },
        }
    }

    /// The next node of the walk, or nothing when the walk is over.
    pub fn next(&mut self) -> (item: Option<NodeId>)
        requires
            old(self).arena().wf(),
        ensures
            final(self).arena() == old(self).arena(),
            old(self).remaining().len() == 0 ==> item is None && final(self).remaining()
                == Seq::<NodeId>::empty(),
            old(self).remaining().len() > 0 ==> item == Some(old(self).remaining()[0])
                && final(self).remaining() == old(self).remaining().drop_first(),
    {
        let id = match self.node {
            Some(id) => id,
            None => {
                return None;
            },
        };
        let links = match self.arena.links_of(id) {
            Some(links) => links,
            None => {
                self.node = None;
                return None;
            },
        };
        proof {
            let lm = self.arena.links();
            let sh = self.arena.shape();
            lemma_ancestors_step(lm, sh, id);
            lemma_following_step(lm, sh, id);
            lemma_preceding_step(lm, sh, id);
            let tail = match self.step {
                Step::Parent => match links.parent {
                    Some(p) => ancestors_seq(lm, sh.rank, p),
                    None => Seq::empty(),
                },
                Step::PreviousSibling => match links.previous_sibling {
                    Some(m) => preceding_seq(lm, sh, m),
                    None => Seq::empty(),
                },
                Step::NextSibling => match links.next_sibling {
                    Some(m) => following_seq(lm, sh, m),
                    None => Seq::empty(),
                },
            };
            assert((seq![id] + tail).drop_first() =~= tail);
        }
        self.node = match self.step {
            Step::Parent => links.parent,
            Step::PreviousSibling => links.previous_sibling,
            Step::NextSibling => links.next_sibling,
        };
        Some(id)
    }

    /// Walks to the end and returns the nodes met, in the order of the
    /// walk.
    pub fn into_vec(self) -> (nodes: Vec<NodeId>)
        requires
            self.arena().wf(),
        ensures
            nodes@ == self.remaining(),
    {
        let mut walk = self;
        let mut nodes: Vec<NodeId> = Vec::new();
        assert(nodes@ + walk.remaining() =~= self.remaining());
        loop
            invariant_except_break
                walk.arena().wf(),
                nodes@ + walk.remaining() == self.remaining(),
            ensures
                nodes@ == self.remaining(),
            decreases walk.remaining().len(),
        {
            let ghost before = walk.remaining();
            match walk.next() {
                Some(id) => {
                    nodes.push(id);
                    assert(nodes@ + walk.remaining() =~= self.remaining()) by {
                        assert(before =~= seq![id] + before.drop_first());
                    }
                },
                None => {
                    assert(nodes@ + walk.remaining() =~= nodes@);
                    break;
                },
            }
        }
        nodes
    }
}

/// A walk through a subtree in pre-order. It keeps the roots of the
/// subtrees that it has yet to visit on a stack of its own.
pub struct Descendants<'a, T> {
    arena: &'a Arena<T>,
    stack: Vec<NodeId>,
}

impl<'a, T> Descendants<'a, T> {
    /// The arena that is walked over.
    pub closed spec fn arena(&self) -> Arena<T> {
        *self.arena
    }

    /// The arena is well formed and every node on the stack is live.
    pub closed spec fn wf(&self) -> bool {
        &&& self.arena.wf()
        &&& forall|i: int|
            0 <= i < self.stack@.len() ==> self.arena.contains(#[trigger] self.stack@[i])
    }

    /// The nodes that the walk has before it, the next one first.
    pub closed spec fn remaining(&self) -> Seq<NodeId> {
        pending_seq(self.arena.links(), self.arena.shape(), self.stack@)
    }

    /// The next node of the walk, or nothing when the walk is over.
    pub fn next(&mut self) -> (item: Option<NodeId>)
        requires
            old(self).wf(),
        ensures
            final(self).wf(),
            final(self).arena() == old(self).arena(),
            old(self).remaining().len() == 0 ==> item is None && final(self).remaining()
                == Seq::<NodeId>::empty(),
            old(self).remaining().len() > 0 ==> item == Some(old(self).remaining()[0])
                && final(self).remaining() == old(self).remaining().drop_first(),
    {
        let ghost lm = self.arena.links();
        let ghost sh = self.arena.shape();
        let ghost before = self.stack@;
        let id = match self.stack.pop() {
            Some(id) => id,
            None => {
                return None;
            },
        };
        let ghost rest = self.stack@;
        proof {
            assert(before.last() == id);
            assert(before.drop_last() =~= rest);
            assert(self.arena.contains(before[before.len() - 1]));
            lemma_links_closed(lm, sh, id);
        }
        let mut cur = match self.arena.links_of(id) {
            Some(links) => links.last_child,
            None => None,
        };
        let ghost mut j: int = sh.kids[id].len() as int;
        proof {
            assert(preorder_from(lm, sh, id, j) =~= Seq::<NodeId>::empty());
            assert(preorder_from(lm, sh, id, j) + pending_seq(lm, sh, rest) =~= pending_seq(
                lm,
                sh,
                rest,
            ));
        }
        while cur.is_some()
            invariant
                self.arena == old(self).arena,
                lm == self.arena.links(),
                sh == self.arena.shape(),
                self.wf(),
                self.arena.contains(id),
                0 <= j <= sh.kids[id].len(),
                cur == at(sh.kids[id], j - 1),
                pending_seq(lm, sh, self.stack@) == preorder_from(lm, sh, id, j) + pending_seq(
                    lm,
                    sh,
                    rest,
                ),
            decreases j,
        {
            let child = cur.unwrap();
            let ghost below = self.stack@;
            proof {
                lemma_child(lm, sh, id, j - 1);
                lemma_preorder_step(lm, sh, id, j - 1);
            }
            self.stack.push(child);
            cur = match self.arena.links_of(child) {
                Some(links) => links.previous_sibling,
                None => None,
            };
            proof {
                j = j - 1;
                assert(self.stack@.last() == child);
                assert(self.stack@.drop_last() =~= below);
                assert(pending_seq(lm, sh, self.stack@) =~= preorder_from(lm, sh, id, j)
                    + pending_seq(lm, sh, rest));
            }
        }
        proof {
            let tail = preorder_from(lm, sh, id, 0) + pending_seq(lm, sh, rest);
            assert(pending_seq(lm, sh, before) =~= seq![id] + tail);
            assert((seq![id] + tail).drop_first() =~= tail);
        }
        Some(id)
    }

    /// Walks to the end and returns the nodes met, in the order of the
    /// walk.
    pub fn into_vec(self) -> (nodes: Vec<NodeId>)
        requires
            self.wf(),
        ensures
            nodes@ == self.remaining(),
    {
        let mut walk = self;
        let mut nodes: Vec<NodeId> = Vec::new();
        assert(nodes@ + walk.remaining() =~= self.remaining());
        loop
            invariant_except_break
                walk.wf(),
                nodes@ + walk.remaining() == self.remaining(),
            ensures
                nodes@ == self.remaining(),
            decreases walk.remaining().len(),
        {
            let ghost before = walk.remaining();
            match walk.next() {
                Some(id) => {
                    nodes.push(id);
                    assert(nodes@ + walk.remaining() =~= self.remaining()) by {
                        assert(before =~= seq![id] + before.drop_first());
                    }
                },
                None => {
                    assert(nodes@ + walk.remaining() =~= nodes@);
                    break;
                },
            }
        }
        nodes
    }
}

impl NodeId {
    /// A walk over this node and its ancestors, from this node up to the
    /// root. It is empty where this node is not live.
    pub fn ancestors<'a, T>(self, arena: &'a Arena<T>) -> (walk: Walk<'a, T>)
        requires
            arena.wf(),
        ensures
            walk.arena() == *arena,
            walk.remaining() == ancestors_seq(arena.links(), arena.shape().rank, self),
    {
        Walk { arena, node: Some(self), step: Step::Parent }
    }

    /// Whether this node is `id` or one of the ancestors of `id`, found by
    /// walking up from `id`. A node for which this holds must not be put
    /// under `id` or next to it.
    pub fn is_ancestor_or_self_of<T>(self, id: NodeId, arena: &Arena<T>) -> (yes: bool)
        requires
            arena.wf(),
        ensures
            yes == (arena.contains(id) && arena.is_ancestor_or_self(self, id)),
    {
        let mut walk = id.ancestors(arena);
        let ghost all = walk.remaining();
        let ghost mut k: int = 0;
        let mut yes = false;
        proof {
            assert(all.skip(0) =~= all);
        }
        loop
            invariant_except_break
                walk.arena() == *arena,
                arena.wf(),
                0 <= k <= all.len(),
                walk.remaining() == all.skip(k),
                forall|j: int| 0 <= j < k ==> all[j] != self,
            ensures
                yes == all.contains(self),
            decreases walk.remaining().len(),
        {
            match walk.next() {
                Some(node) => {
                    assert(all.skip(k)[0] == all[k]);
                    if node == self {
                        yes = true;
                        break;
                    }
                    proof {
                        assert(all.skip(k).drop_first() =~= all.skip(k + 1));
                        k = k + 1;
                    }
                },
                None => {
                    yes = false;
                    break;
                },
            }
        }
        proof {
            if arena.contains(id) {
                lemma_ancestors(arena.links(), arena.shape(), id, self);
            }
        }
        yes
    }

    /// A walk over this node and the siblings before it, the nearest
    /// first. It is empty where this node is not live.
    pub fn preceding_siblings<'a, T>(self, arena: &'a Arena<T>) -> (walk: Walk<'a, T>)
        requires
            arena.wf(),
        ensures
            walk.arena() == *arena,
            walk.remaining() == preceding_seq(arena.links(), arena.shape(), self),
    {
        Walk { arena, node: Some(self), step: Step::PreviousSibling }
    }

    /// A walk over this node and the siblings after it, in their order.
    /// It is empty where this node is not live.
    pub fn following_siblings<'a, T>(self, arena: &'a Arena<T>) -> (walk: Walk<'a, T>)
        requires
            arena.wf(),
        ensures
            walk.arena() == *arena,
            walk.remaining() == following_seq(arena.links(), arena.shape(), self),
    {
        Walk { arena, node: Some(self), step: Step::NextSibling }
    }

    /// A walk over the children of this node, first to last. It is empty
    /// where this node is not live.
    pub fn children<'a, T>(self, arena: &'a Arena<T>) -> (walk: Walk<'a, T>)
        requires
            arena.wf(),
        ensures
            walk.arena() == *arena,
            walk.remaining() == children_seq(arena.links(), arena.shape(), self),
    {
        let first = match arena.links_of(self) {
            Some(links) => links.first_child,
            None => None,
        };
        proof {
            let lm = arena.links();
            let sh = arena.shape();
            if arena.contains(self) {
                lemma_links_closed(lm, sh, self);
                if sh.kids[self].len() > 0 {
                    lemma_child(lm, sh, self, 0);
                    assert(sh.kids[self].skip(0) =~= sh.kids[self]);
                } else {
                    assert(sh.kids[self] =~= Seq::<NodeId>::empty());
                }
            }
        }
        Walk { arena, node: first, step: Step::NextSibling }
    }

    /// A walk over the children of this node, last to first. It is empty
    /// where this node is not live.
    pub fn reverse_children<'a, T>(self, arena: &'a Arena<T>) -> (walk: Walk<'a, T>)
        requires
            arena.wf(),
        ensures
            walk.arena() == *arena,
            walk.remaining() == children_seq(arena.links(), arena.shape(), self).reverse(),
    {
        let last = match arena.links_of(self) {
            Some(links) => links.last_child,
            None => None,
        };
        proof {
            let lm = arena.links();
            let sh = arena.shape();
            if arena.contains(self) {
                lemma_links_closed(lm, sh, self);
                let n = sh.kids[self].len() as int;
                if n > 0 {
                    lemma_child(lm, sh, self, n - 1);
                    assert(sh.kids[self].take(n) =~= sh.kids[self]);
                } else {
                    assert(sh.kids[self].reverse() =~= Seq::<NodeId>::empty());
                }
            } else {
                assert(Seq::<NodeId>::empty().reverse() =~= Seq::<NodeId>::empty());
            }
        }
        Walk { arena, node: last, step: Step::PreviousSibling }
    }

    /// A walk in pre-order over this node and all that lies below it: a
    /// node, then the subtrees of its children, left to right. It is empty
    /// where this node is not live.
    pub fn descendants<'a, T>(self, arena: &'a Arena<T>) -> (walk: Descendants<'a, T>)
        requires
            arena.wf(),
        ensures
            walk.wf(),
            walk.arena() == *arena,
            walk.remaining() == preorder(arena.links(), arena.shape(), self),
    {
        let mut stack: Vec<NodeId> = Vec::new();
        if arena.links_of(self).is_some() {
            stack.push(self);
        }
        proof {
            let lm = arena.links();
            let sh = arena.shape();
            if arena.contains(self) {
                assert(stack@.last() == self);
                assert(stack@.drop_last() =~= Seq::<NodeId>::empty());
                assert(pending_seq(lm, sh, stack@.drop_last()) =~= Seq::<NodeId>::empty());
                assert(pending_seq(lm, sh, stack@) =~= preorder(lm, sh, self));
            }
        }
        Descendants { arena, stack }
    }
}

} // verus!
