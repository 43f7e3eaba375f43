//! Removing a whole subtree: what is left is a forest, and a sweep that
//! works off a list of pending nodes removes exactly the subtree.

use vstd::prelude::*;
use vstd::set_lib::lemma_len_subset;
use crate::id::NodeId;
use crate::node::Links;
use crate::tree::{
    at, chain_ok, lemma_child, lemma_position, link_ok, node_ok, position, reaches, tree_wf, Shape,
};

verus! {

/// The nodes that are `n` or lie below it.
pub open spec fn below(lm: Map<NodeId, Links>, rank: Map<NodeId, nat>, n: NodeId) -> Set<NodeId> {
    Set::new(|y: NodeId| lm.dom().contains(y) && reaches(lm, rank, y, n))
}

/// The forest without the nodes in `gone`.
pub open spec fn prune_shape(sh: Shape, gone: Set<NodeId>) -> Shape {
    Shape { kids: sh.kids.remove_keys(gone), rank: sh.rank.remove_keys(gone), bound: sh.bound }
}

/// A node below `x` that is not `x` lies below one of the children of `x`.
pub proof fn lemma_reach_step(lm: Map<NodeId, Links>, sh: Shape, y: NodeId, x: NodeId) -> (c:
    NodeId)
    requires
        tree_wf(lm, sh),
        lm.dom().contains(y),
        reaches(lm, sh.rank, y, x),
        y != x,
    ensures
        lm.dom().contains(c),
        lm[c].parent == Some(x),
        reaches(lm, sh.rank, y, c),
    decreases sh.rank[y],
{
    let q = lm[y].parent->0;
    assert(node_ok(lm, sh, y));
    if q == x {
        y
    } else {
        lemma_reach_step(lm, sh, q, x)
    }
}

/// A child lies below whatever its parent lies below.
pub proof fn lemma_reach_child(lm: Map<NodeId, Links>, sh: Shape, c: NodeId, n: NodeId)
    requires
        tree_wf(lm, sh),
        lm.dom().contains(c),
        lm[c].parent is Some,
        reaches(lm, sh.rank, lm[c].parent->0, n),
    ensures
        reaches(lm, sh.rank, c, n),
{
    assert(node_ok(lm, sh, c));
}

/// Without a root and all that lies below it, the rest is still a
/// well-formed forest.
pub proof fn lemma_prune(lm: Map<NodeId, Links>, sh: Shape, n: NodeId)
    requires
        tree_wf(lm, sh),
        lm.dom().contains(n),
        lm[n].parent is None,
    ensures
        tree_wf(lm.remove_keys(below(lm, sh.rank, n)), prune_shape(sh, below(lm, sh.rank, n))),
{
    let gone = below(lm, sh.rank, n);
    let lm2 = lm.remove_keys(gone);
    let sh2 = prune_shape(sh, gone);
    assert(sh2.kids.dom() =~= lm2.dom());
    assert(sh2.rank.dom() =~= lm2.dom());
    assert forall|p: NodeId| lm2.dom().contains(p) implies #[trigger] chain_ok(
        lm2,
        p,
        sh2.kids[p],
    ) by {
        let ks = sh.kids[p];
        assert(chain_ok(lm, p, ks));
        assert forall|i: int| 0 <= i < ks.len() implies #[trigger] link_ok(lm2, p, ks, i) by {
            lemma_child(lm, sh, p, i);
            assert(link_ok(lm, p, ks, i));
            if gone.contains(ks[i]) {
                assert(node_ok(lm, sh, ks[i]));
                assert(reaches(lm, sh.rank, p, n));
            }
        }
    }
    assert forall|x: NodeId| lm2.dom().contains(x) implies #[trigger] node_ok(lm2, sh2, x) by {
        assert(node_ok(lm, sh, x));
        if lm[x].parent is Some {
            let q = lm[x].parent->0;
            if gone.contains(q) {
                lemma_reach_child(lm, sh, x, n);
            }
        }
    }
}

/// The parent of `r`, if it has one, has been removed.
pub(crate) open spec fn parent_gone(
    lm: Map<NodeId, Links>,
    removed: Set<NodeId>,
    r: NodeId,
) -> bool {
    lm[r].parent matches Some(q) ==> removed.contains(q)
}

/// `s` waits to be removed: it lies below `n`, it is still there, and its
/// parent is not.
pub(crate) open spec fn pending(
    lm: Map<NodeId, Links>,
    sh: Shape,
    n: NodeId,
    removed: Set<NodeId>,
    s: NodeId,
) -> bool {
    &&& below(lm, sh.rank, n).contains(s)
    &&& !removed.contains(s)
    &&& parent_gone(lm, removed, s)
}

/// `y` lies below one of the nodes in `stack`.
pub(crate) open spec fn covered(
    lm: Map<NodeId, Links>,
    rank: Map<NodeId, nat>,
    stack: Seq<NodeId>,
    y: NodeId,
) -> bool {
    exists|i: int| 0 <= i < stack.len() && reaches(lm, rank, y, #[trigger] stack[i])
}

/// The state of a sweep that removes `n` and all below it: `removed` is
/// what is gone so far, `stack` the nodes whose subtrees are still to go.
pub(crate) open spec fn sweep_inv(
    lm: Map<NodeId, Links>,
    sh: Shape,
    n: NodeId,
    removed: Set<NodeId>,
    stack: Seq<NodeId>,
) -> bool {
    &&& removed.finite()
    &&& removed.subset_of(below(lm, sh.rank, n))
    &&& stack.no_duplicates()
    &&& forall|i: int| 0 <= i < stack.len() ==> #[trigger] pending(lm, sh, n, removed, stack[i])
    &&& forall|r: NodeId| removed.contains(r) ==> #[trigger] parent_gone(lm, removed, r)
    &&& forall|y: NodeId|
        below(lm, sh.rank, n).contains(y) && !removed.contains(y) ==> #[trigger] covered(
            lm,
            sh.rank,
            stack,
            y,
        )
}

/// A sweep starts with nothing removed and the root alone pending.
pub(crate) proof fn lemma_sweep_start(lm: Map<NodeId, Links>, sh: Shape, n: NodeId)
    requires
        tree_wf(lm, sh),
        lm.dom().contains(n),
        lm[n].parent is None,
    ensures
        sweep_inv(lm, sh, n, Set::empty(), seq![n]),
{
    let stack = seq![n];
    assert(pending(lm, sh, n, Set::empty(), stack[0]));
    assert forall|y: NodeId| below(lm, sh.rank, n).contains(y) implies #[trigger] covered(
        lm,
        sh.rank,
        stack,
        y,
    ) by {
        assert(reaches(lm, sh.rank, y, stack[0]));
    }
}

/// While `x` is pending, its children are still there.
pub(crate) proof fn lemma_sweep_child(
    lm: Map<NodeId, Links>,
    sh: Shape,
    n: NodeId,
    removed: Set<NodeId>,
    rest: Seq<NodeId>,
    x: NodeId,
    j: int,
)
    requires
        tree_wf(lm, sh),
        sweep_inv(lm, sh, n, removed, rest.push(x)),
        0 <= j < sh.kids[x].len(),
    ensures
        lm.dom().contains(x),
        !removed.contains(x),
        lm.dom().contains(sh.kids[x][j]),
        !removed.contains(sh.kids[x][j]),
        lm[sh.kids[x][j]].next_sibling == at(sh.kids[x], j + 1),
{
    let stack = rest.push(x);
    assert(pending(lm, sh, n, removed, stack[rest.len() as int]));
    lemma_child(lm, sh, x, j);
    let c = sh.kids[x][j];
    if removed.contains(c) {
        assert(parent_gone(lm, removed, c));
    }
}

/// One step of a sweep: the pending node `x` goes, its children become
/// pending.
pub(crate) proof fn lemma_sweep_step(
    lm: Map<NodeId, Links>,
    sh: Shape,
    n: NodeId,
    removed: Set<NodeId>,
    rest: Seq<NodeId>,
    x: NodeId,
)
    requires
        tree_wf(lm, sh),
        lm.dom().finite(),
        sweep_inv(lm, sh, n, removed, rest.push(x)),
    ensures
        sweep_inv(lm, sh, n, removed.insert(x), rest + sh.kids[x]),
        lm.dom().contains(x),
        !removed.contains(x),
        removed.len() < below(lm, sh.rank, n).len(),
{
    let gone = below(lm, sh.rank, n);
    let old_stack = rest.push(x);
    let ks = sh.kids[x];
    let stack = rest + ks;
    let removed2 = removed.insert(x);
    assert(pending(lm, sh, n, removed, old_stack[rest.len() as int]));
    assert(chain_ok(lm, x, ks));
    assert(gone.subset_of(lm.dom()));
    lemma_len_subset(gone, lm.dom());
    assert(removed2.subset_of(gone));
    lemma_len_subset(removed2, gone);
    assert forall|i: int| 0 <= i < rest.len() implies pending(lm, sh, n, removed, rest[i])
        && rest[i] != x by {
        assert(old_stack[i] == rest[i]);
        assert(pending(lm, sh, n, removed, old_stack[i]));
        assert(old_stack[rest.len() as int] == x);
    }
    assert forall|j: int| 0 <= j < ks.len() implies pending(lm, sh, n, removed2, ks[j])
        && !pending(lm, sh, n, removed, ks[j]) by {
        lemma_sweep_child(lm, sh, n, removed, rest, x, j);
        lemma_child(lm, sh, x, j);
        lemma_reach_child(lm, sh, ks[j], n);
    }
    assert forall|i: int| 0 <= i < stack.len() implies #[trigger] pending(
        lm,
        sh,
        n,
        removed2,
        stack[i],
    ) by {
        if i < rest.len() {
            assert(stack[i] == rest[i]);
        } else {
            assert(stack[i] == ks[i - rest.len()]);
        }
    }
    assert(stack.no_duplicates()) by {
        assert forall|i: int, j: int|
            0 <= i < stack.len() && 0 <= j < stack.len() && i != j implies stack[i]
            != stack[j] by {
            if i < rest.len() && j < rest.len() {
                assert(old_stack[i] == rest[i]);
                assert(old_stack[j] == rest[j]);
            } else if i >= rest.len() && j >= rest.len() {
                assert(stack[i] == ks[i - rest.len()]);
                assert(stack[j] == ks[j - rest.len()]);
            } else if i < rest.len() {
                assert(stack[i] == rest[i]);
                assert(stack[j] == ks[j - rest.len()]);
            } else {
                assert(stack[j] == rest[j]);
                assert(stack[i] == ks[i - rest.len()]);
            }
        }
    }
    assert forall|r: NodeId| removed2.contains(r) implies #[trigger] parent_gone(
        lm,
        removed2,
        r,
    ) by {
        if r != x {
            assert(parent_gone(lm, removed, r));
        }
    }
    assert forall|y: NodeId| gone.contains(y) && !removed2.contains(y) implies #[trigger] covered(
        lm,
        sh.rank,
        stack,
        y,
    ) by {
        assert(covered(lm, sh.rank, old_stack, y));
        let i = choose|i: int|
            0 <= i < old_stack.len() && reaches(lm, sh.rank, y, #[trigger] old_stack[i]);
        if i < rest.len() {
            assert(stack[i] == old_stack[i]);
        } else {
            let c = lemma_reach_step(lm, sh, y, x);
            lemma_position(lm, sh, c);
            let j = position(lm, sh, c);
            assert(stack[rest.len() + j] == c);
        }
    }
}

/// When nothing is pending, all that lies below the root is gone.
pub(crate) proof fn lemma_sweep_end(
    lm: Map<NodeId, Links>,
    sh: Shape,
    n: NodeId,
    removed: Set<NodeId>,
)
    requires
        sweep_inv(lm, sh, n, removed, Seq::empty()),
    ensures
        removed == below(lm, sh.rank, n),
{
    let gone = below(lm, sh.rank, n);
    assert forall|y: NodeId| gone.contains(y) implies removed.contains(y) by {
        if !removed.contains(y) {
            assert(covered(lm, sh.rank, Seq::<NodeId>::empty(), y));
        }
    }
    assert(removed =~= gone);
}

} // verus!
