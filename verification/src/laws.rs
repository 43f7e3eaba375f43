//! What holds of every well-formed arena, and of every run of operations.

use vstd::prelude::*;
use vstd::set_lib::lemma_len_subset;
use vstd::std_specs::cmp::PartialEqSpec;
use crate::arena::{slots_equal, Arena};
use crate::id::NodeId;
use crate::node::Links;
use crate::order::storage_order;
use crate::prune::{below, lemma_reach_step};
use crate::traverse::{ancestors_seq, preorder, preorder_from};
use crate::tree::{
    at, chain_ok, lemma_child, lemma_links_closed, lemma_position, node_ok, position, reaches,
    tree_wf, Shape,
};

verus! {

/// An ancestor has a rank no greater than its descendant.
pub proof fn lemma_reaches_rank(lm: Map<NodeId, Links>, sh: Shape, y: NodeId, a: NodeId)
    requires
        tree_wf(lm, sh),
        reaches(lm, sh.rank, y, a),
    ensures
        sh.rank[a] <= sh.rank[y],
        y != a ==> sh.rank[a] < sh.rank[y],
    decreases sh.rank[y],
{
    if y != a {
        lemma_reaches_rank(lm, sh, lm[y].parent->0, a);
    }
}

/// The links alone decide what the children of every node are: two forests
/// that the same links describe have the same lists of children.
pub proof fn lemma_children_determined(lm: Map<NodeId, Links>, one: Shape, two: Shape)
    requires
        tree_wf(lm, one),
        tree_wf(lm, two),
    ensures
        one.kids == two.kids,
{
    assert forall|p: NodeId| lm.dom().contains(p) implies one.kids[p] == two.kids[p] by {
        let a = one.kids[p];
        let b = two.kids[p];
        lemma_same_chain(lm, one, two, p, a.len() as int);
        lemma_same_chain(lm, one, two, p, b.len() as int);
        assert forall|i: int| 0 <= i < a.len() implies a[i] == b[i] by {
            lemma_same_chain(lm, one, two, p, i);
        }
        assert(a =~= b);
    }
    assert(one.kids =~= two.kids);
}

/// Two lists of children of `p` that the same links describe agree at
/// every position.
proof fn lemma_same_chain(lm: Map<NodeId, Links>, one: Shape, two: Shape, p: NodeId, i: int)
    requires
        tree_wf(lm, one),
        tree_wf(lm, two),
        lm.dom().contains(p),
        0 <= i,
    ensures
        at(one.kids[p], i) == at(two.kids[p], i),
    decreases i,
{
    lemma_links_closed(lm, one, p);
    lemma_links_closed(lm, two, p);
    if i > 0 {
        lemma_same_chain(lm, one, two, p, i - 1);
        if i - 1 < one.kids[p].len() {
            lemma_child(lm, one, p, i - 1);
        }
        if i - 1 < two.kids[p].len() {
            lemma_child(lm, two, p, i - 1);
        }
    }
}

/// The walk from a node up to its root meets exactly the node and its
/// ancestors.
pub proof fn lemma_ancestors(lm: Map<NodeId, Links>, sh: Shape, id: NodeId, a: NodeId)
    requires
        tree_wf(lm, sh),
        lm.dom().contains(id),
    ensures
        ancestors_seq(lm, sh.rank, id).contains(a) <==> reaches(lm, sh.rank, id, a),
    decreases sh.rank[id],
{
    assert(node_ok(lm, sh, id));
    let up = ancestors_seq(lm, sh.rank, id);
    assert(up[0] == id);
    match lm[id].parent {
        Some(p) => {
            lemma_ancestors(lm, sh, p, a);
            let rest = ancestors_seq(lm, sh.rank, p);
            assert(up =~= seq![id] + rest);
            if rest.contains(a) {
                let i = choose|i: int| 0 <= i < rest.len() && rest[i] == a;
                assert(up[i + 1] == a);
            }
            if up.contains(a) && a != id {
                let i = choose|i: int| 0 <= i < up.len() && up[i] == a;
                assert(rest[i - 1] == a);
            }
        },
        None => {},
    }
}

/// In a well-formed arena a node with a parent occurs among the children
/// of that parent exactly once, at one position, and nowhere else.
pub proof fn lemma_child_of_parent<T>(arena: Arena<T>, n: NodeId)
    requires
        arena.wf(),
        arena.contains(n),
        arena.links()[n].parent is Some,
    ensures
        arena.contains(arena.links()[n].parent->0),
        arena.children()[arena.links()[n].parent->0].no_duplicates(),
        arena.children()[arena.links()[n].parent->0].contains(n),
        forall|p: NodeId| #[trigger]
            arena.contains(p) && arena.children()[p].contains(n) ==> arena.links()[n].parent
                == Some(p),
{
    let lm = arena.links();
    let sh = arena.shape();
    lemma_position(lm, sh, n);
    let q = lm[n].parent->0;
    assert(chain_ok(lm, q, sh.kids[q]));
    assert forall|p: NodeId| #[trigger]
        arena.contains(p) && arena.children()[p].contains(n) implies lm[n].parent == Some(p) by {
        let i = choose|i: int| 0 <= i < sh.kids[p].len() && sh.kids[p][i] == n;
        lemma_child(lm, sh, p, i);
    }
}

/// In a well-formed arena the children of a node form a doubly linked
/// list: the first child has no previous sibling, the last no next one,
/// and of two neighbours each names the other.
pub proof fn lemma_siblings_linked<T>(arena: Arena<T>, p: NodeId, i: int)
    requires
        arena.wf(),
        arena.contains(p),
        0 <= i < arena.children()[p].len(),
    ensures
        arena.contains(arena.children()[p][i]),
        arena.links()[arena.children()[p][i]].parent == Some(p),
        arena.links()[arena.children()[p][i]].previous_sibling == at(arena.children()[p], i - 1),
        arena.links()[arena.children()[p][i]].next_sibling == at(arena.children()[p], i + 1),
        arena.links()[p].first_child == Some(arena.children()[p][0]),
        arena.links()[p].last_child == Some(
            arena.children()[p][arena.children()[p].len() - 1],
        ),
{
    let lm = arena.links();
    let sh = arena.shape();
    lemma_child(lm, sh, p, i);
    lemma_links_closed(lm, sh, p);
}

/// In a well-formed arena a node without a parent has no siblings, and a
/// node without children has neither a first nor a last child.
pub proof fn lemma_root_alone<T>(arena: Arena<T>, n: NodeId)
    requires
        arena.wf(),
        arena.contains(n),
    ensures
        arena.links()[n].parent is None ==> arena.links()[n].previous_sibling is None
            && arena.links()[n].next_sibling is None,
        arena.children()[n].len() == 0 <==> arena.links()[n].first_child is None,
        arena.children()[n].len() == 0 <==> arena.links()[n].last_child is None,
{
    let lm = arena.links();
    let sh = arena.shape();
    assert(node_ok(lm, sh, n));
    lemma_links_closed(lm, sh, n);
}

/// In a well-formed arena no node is its own ancestor: the parent of a
/// node does not lie below it.
pub proof fn lemma_acyclic<T>(arena: Arena<T>, n: NodeId)
    requires
        arena.wf(),
        arena.contains(n),
        arena.links()[n].parent is Some,
    ensures
        !arena.is_ancestor_or_self(n, arena.links()[n].parent->0),
{
    let lm = arena.links();
    let sh = arena.shape();
    let p = lm[n].parent->0;
    assert(node_ok(lm, sh, n));
    if reaches(lm, sh.rank, p, n) {
        lemma_reaches_rank(lm, sh, p, n);
    }
}

/// The subtree of a live node holds the node itself and live nodes only,
/// so it is finite and no larger than the arena.
pub proof fn lemma_subtree_bound<T>(arena: Arena<T>, n: NodeId)
    requires
        arena.inv(),
        arena.contains(n),
    ensures
        arena.subtree(n).contains(n),
        arena.subtree(n).subset_of(arena@.dom()),
        arena.subtree(n).finite(),
        1 <= arena.subtree(n).len() <= arena@.dom().len(),
{
    arena.lemma_live(n);
    assert(arena.subtree(n).subset_of(arena@.dom()));
    lemma_len_subset(arena.subtree(n), arena@.dom());
    assert(set![n].subset_of(arena.subtree(n)));
    lemma_len_subset(set![n], arena.subtree(n));
}

/// The subtree of a node without children is the node alone.
pub proof fn lemma_leaf_subtree<T>(arena: Arena<T>, n: NodeId)
    requires
        arena.wf(),
        arena.contains(n),
        arena.children()[n].len() == 0,
    ensures
        arena.subtree(n) == set![n],
{
    let lm = arena.links();
    let sh = arena.shape();
    assert forall|y: NodeId| arena.subtree(n).contains(y) implies y == n by {
        if y != n {
            let c = lemma_reach_step(lm, sh, y, n);
            lemma_position(lm, sh, c);
        }
    }
    assert(arena.subtree(n) =~= set![n]);
}

/// An identifier that is stale stays absent through every run of
/// operations that each keep stale what is stale.
pub proof fn lemma_stale_stays_absent<T>(run: Seq<Arena<T>>, id: NodeId, j: int)
    requires
        run.len() > 0,
        run[0].is_stale(id),
        forall|i: int| 0 <= i < run.len() - 1 ==> (#[trigger] run[i]).keeps_stale(&run[i + 1]),
        0 <= j < run.len(),
    ensures
        !run[j].contains(id),
        run[j].is_stale(id),
    decreases j,
{
    if j > 0 {
        lemma_stale_stays_absent(run, id, j - 1);
        assert(run[j - 1].keeps_stale(&run[j - 1 + 1]));
    }
}

/// `after` holds one live node more than `before`, as after
/// [`Arena::new_node`].
pub open spec fn one_more<T>(before: Arena<T>, after: Arena<T>) -> bool {
    exists|id: NodeId| !before.contains(id) && after@.dom() == before@.dom().insert(id)
}

/// `after` holds one live node less than `before`, as after the removal
/// of a node without children.
pub open spec fn one_less<T>(before: Arena<T>, after: Arena<T>) -> bool {
    exists|id: NodeId| before.contains(id) && after@.dom() == before@.dom().remove(id)
}

/// The number of live nodes after `j` steps of a run that first adds `k`
/// nodes one by one, then removes `k` one by one, then adds `k` again.
pub open spec fn reuse_count(k: nat, j: int) -> int {
    if j <= k {
        j
    } else if j <= 2 * k {
        2 * k - j
    } else {
        j - 2 * k
    }
}

/// Through a run that adds `k` nodes to an empty arena one by one, then
/// removes `k` one by one, then adds `k` again, the number of live nodes
/// goes up to `k`, down to zero and up to `k`.
pub proof fn lemma_reuse_count<T>(run: Seq<Arena<T>>, k: nat, j: int)
    requires
        run.len() == 3 * k + 1,
        run[0]@.dom() == Set::<NodeId>::empty(),
        forall|i: int| 0 <= i < k ==> one_more(#[trigger] run[i], run[i + 1]),
        forall|i: int| k <= i < 2 * k ==> one_less(#[trigger] run[i], run[i + 1]),
        forall|i: int| 2 * k <= i < 3 * k ==> one_more(#[trigger] run[i], run[i + 1]),
        0 <= j <= 3 * k,
    ensures
        run[j]@.dom().finite(),
        run[j]@.dom().len() == reuse_count(k, j),
        run[j]@.dom().len() <= k,
    decreases j,
{
    if j > 0 {
        lemma_reuse_count(run, k, j - 1);
        let before = run[j - 1];
        let after = run[j - 1 + 1];
        if j - 1 < k || j - 1 >= 2 * k {
            assert(one_more(before, after));
        } else {
            assert(one_less(before, after));
        }
    }
}

/// Slots are reused: adding `k` nodes to an empty arena, removing `k`
/// nodes and adding `k` more leaves exactly `k` live nodes.
pub proof fn lemma_slot_reuse<T>(run: Seq<Arena<T>>, k: nat)
    requires
        run.len() == 3 * k + 1,
        run[0]@.dom() == Set::<NodeId>::empty(),
        forall|i: int| 0 <= i < k ==> one_more(#[trigger] run[i], run[i + 1]),
        forall|i: int| k <= i < 2 * k ==> one_less(#[trigger] run[i], run[i + 1]),
        forall|i: int| 2 * k <= i < 3 * k ==> one_more(#[trigger] run[i], run[i + 1]),
    ensures
        run.last()@.dom().len() == k,
{
    lemma_reuse_count(run, k, 3 * k as int);
}

/// The storage order of an arena lists its live identifiers, each once.
pub proof fn lemma_order<T>(arena: Arena<T>, ids: Seq<NodeId>)
    requires
        storage_order(ids, arena@.dom()),
    ensures
        arena.order() == ids,
        ids.no_duplicates(),
        ids.len() == arena@.dom().len(),
{
    arena.lemma_order_of(ids);
    assert(ids.to_set() =~= arena@.dom());
    ids.unique_seq_to_set();
}

/// Arenas that are equal hold equally many nodes: an arena with one node
/// more than another is not equal to it.
pub proof fn lemma_equal_arenas_same_count<T: PartialEq>(
    a: Arena<T>,
    b: Arena<T>,
    ids_a: Seq<NodeId>,
    ids_b: Seq<NodeId>,
)
    requires
        storage_order(ids_a, a@.dom()),
        storage_order(ids_b, b@.dom()),
        a.eq_spec(&b),
    ensures
        a@.dom().len() == b@.dom().len(),
{
    lemma_order(a, ids_a);
    lemma_order(b, ids_b);
}

/// Arenas are equal exactly when their storage orders are equally long
/// and, position by position, the nodes have the same links and payloads
/// that are equal as `T` understands it.
pub proof fn lemma_equal_arenas<T: PartialEq>(
    a: Arena<T>,
    b: Arena<T>,
    ids_a: Seq<NodeId>,
    ids_b: Seq<NodeId>,
)
    requires
        a.inv(),
        b.inv(),
        storage_order(ids_a, a@.dom()),
        storage_order(ids_b, b@.dom()),
    ensures
        a.eq_spec(&b) <==> ids_a.len() == ids_b.len() && forall|i: int|
            0 <= i < ids_a.len() ==> (#[trigger] a@[ids_a[i]]).same_as(&b@[ids_b[i]]),
{
    lemma_order(a, ids_a);
    lemma_order(b, ids_b);
    if ids_a.len() == ids_b.len() {
        assert forall|i: int| 0 <= i < ids_a.len() implies (slots_equal(
            a.slot(ids_a[i]),
            b.slot(ids_b[i]),
        ) <==> (#[trigger] a@[ids_a[i]]).same_as(&b@[ids_b[i]])) by {
            assert(ids_a.contains(ids_a[i]));
            assert(ids_b.contains(ids_b[i]));
            a.lemma_slot(ids_a[i]);
            b.lemma_slot(ids_b[i]);
        }
        if a.eq_spec(&b) {
            assert forall|i: int| 0 <= i < ids_a.len() implies (#[trigger] a@[ids_a[i]]).same_as(
                &b@[ids_b[i]],
            ) by {
                assert(slots_equal(a.slot(a.order()[i]), b.slot(b.order()[i])));
            }
        }
        if forall|i: int|
            0 <= i < ids_a.len() ==> (#[trigger] a@[ids_a[i]]).same_as(&b@[ids_b[i]]) {
            assert forall|i: int| 0 <= i < a.order().len() implies #[trigger] slots_equal(
                a.slot(a.order()[i]),
                b.slot(b.order()[i]),
            ) by {
                assert(a@[ids_a[i]].same_as(&b@[ids_b[i]]));
            }
        }
    }
}

/// Arenas with the same live identifiers and the same links, whose
/// payloads are equal one by one as `T` understands it, are equal.
pub proof fn lemma_same_nodes_equal<T: PartialEq>(a: Arena<T>, b: Arena<T>, ids: Seq<NodeId>)
    requires
        a.inv(),
        b.inv(),
        storage_order(ids, a@.dom()),
        a@.dom() == b@.dom(),
        a.links() == b.links(),
        forall|id: NodeId| #[trigger]
            a.contains(id) ==> a.payloads()[id].eq_spec(&b.payloads()[id]),
    ensures
        a.eq_spec(&b),
{
    lemma_equal_arenas(a, b, ids, ids);
    assert forall|i: int| 0 <= i < ids.len() implies (#[trigger] a@[ids[i]]).same_as(
        &b@[ids[i]],
    ) by {
        let x = ids[i];
        assert(ids.contains(x));
        assert(a.contains(x));
        assert(a.links()[x] == a@[x].links());
        assert(b.links()[x] == b@[x].links());
        assert(a.payloads()[x].eq_spec(&b.payloads()[x]));
    }
}

/// What lies below a node lies below the parent of that node.
pub proof fn lemma_reach_up(lm: Map<NodeId, Links>, sh: Shape, y: NodeId, c: NodeId)
    requires
        tree_wf(lm, sh),
        lm.dom().contains(c),
        lm[c].parent is Some,
        reaches(lm, sh.rank, y, c),
    ensures
        reaches(lm, sh.rank, y, lm[c].parent->0),
    decreases sh.rank[y],
{
    if y == c {
        assert(node_ok(lm, sh, c));
        assert(reaches(lm, sh.rank, lm[c].parent->0, lm[c].parent->0));
    } else {
        lemma_reach_up(lm, sh, lm[y].parent->0, c);
    }
}

/// Nothing lies below two different children of one node.
pub proof fn lemma_siblings_disjoint(
    lm: Map<NodeId, Links>,
    sh: Shape,
    y: NodeId,
    c: NodeId,
    d: NodeId,
)
    requires
        tree_wf(lm, sh),
        lm.dom().contains(c),
        lm.dom().contains(d),
        lm[c].parent is Some,
        lm[c].parent == lm[d].parent,
        c != d,
        reaches(lm, sh.rank, y, c),
    ensures
        !reaches(lm, sh.rank, y, d),
    decreases sh.rank[y],
{
    let p = lm[c].parent->0;
    assert(node_ok(lm, sh, c));
    assert(node_ok(lm, sh, d));
    if reaches(lm, sh.rank, y, d) {
        if y == c {
            lemma_reaches_rank(lm, sh, p, d);
        } else if y == d {
            lemma_reaches_rank(lm, sh, p, c);
        } else {
            lemma_siblings_disjoint(lm, sh, lm[y].parent->0, c, d);
        }
    }
}

/// A node is in the concatenation of two sequences when it is in one of
/// them.
proof fn lemma_concat_contains(a: Seq<NodeId>, b: Seq<NodeId>, y: NodeId)
    ensures
        (a + b).contains(y) <==> a.contains(y) || b.contains(y),
{
    if a.contains(y) {
        let i = choose|i: int| 0 <= i < a.len() && a[i] == y;
        assert((a + b)[i] == y);
    }
    if b.contains(y) {
        let i = choose|i: int| 0 <= i < b.len() && b[i] == y;
        assert((a + b)[a.len() + i] == y);
    }
    if (a + b).contains(y) {
        let i = choose|i: int| 0 <= i < (a + b).len() && (a + b)[i] == y;
        if i < a.len() {
            assert(a[i] == y);
        } else {
            assert(b[i - a.len()] == y);
        }
    }
}

/// Two sequences without duplicates that share no node make a sequence
/// without duplicates.
proof fn lemma_concat_no_duplicates(a: Seq<NodeId>, b: Seq<NodeId>)
    requires
        a.no_duplicates(),
        b.no_duplicates(),
        forall|y: NodeId| a.contains(y) ==> !b.contains(y),
    ensures
        (a + b).no_duplicates(),
{
    assert forall|i: int, j: int|
        0 <= i < (a + b).len() && 0 <= j < (a + b).len() && i != j implies (a + b)[i] != (a
        + b)[j] by {
        if i < a.len() && j >= a.len() {
            assert(a.contains(a[i]));
            assert(b.contains(b[j - a.len()]));
        }
        if j < a.len() && i >= a.len() {
            assert(a.contains(a[j]));
            assert(b.contains(b[i - a.len()]));
        }
    }
}

/// `y` lies below one of the children of `p` from position `i` on.
pub open spec fn below_from(
    lm: Map<NodeId, Links>,
    sh: Shape,
    p: NodeId,
    i: int,
    y: NodeId,
) -> bool {
    exists|j: int|
        i <= j < sh.kids[p].len() && below(lm, sh.rank, #[trigger] sh.kids[p][j]).contains(y)
}

/// The pre-order of the children of `p` from position `i` on holds
/// exactly the nodes that lie below one of these children, each once.
pub proof fn lemma_preorder_from(lm: Map<NodeId, Links>, sh: Shape, p: NodeId, i: int)
    requires
        tree_wf(lm, sh),
        lm.dom().contains(p),
        0 <= i <= sh.kids[p].len(),
    ensures
        preorder_from(lm, sh, p, i).no_duplicates(),
        forall|y: NodeId| preorder_from(lm, sh, p, i).contains(y) <==> below_from(lm, sh, p, i, y),
    decreases sh.bound - sh.rank[p], sh.kids[p].len() - i,
{
    let ks = sh.kids[p];
    if i < ks.len() {
        let c = ks[i];
        lemma_child(lm, sh, p, i);
        assert(node_ok(lm, sh, c));
        lemma_preorder_from(lm, sh, c, 0);
        lemma_preorder_from(lm, sh, p, i + 1);
        lemma_preorder(lm, sh, c);
        let head = preorder(lm, sh, c);
        let tail = preorder_from(lm, sh, p, i + 1);
        assert(preorder_from(lm, sh, p, i) =~= head + tail);
        assert forall|y: NodeId| head.contains(y) implies !tail.contains(y) by {
            if tail.contains(y) {
                assert(below_from(lm, sh, p, i + 1, y));
                let j = choose|j: int|
                    i + 1 <= j < ks.len() && below(lm, sh.rank, #[trigger] ks[j]).contains(y);
                lemma_child(lm, sh, p, j);
                lemma_siblings_disjoint(lm, sh, y, c, ks[j]);
            }
        }
        lemma_concat_no_duplicates(head, tail);
        assert forall|y: NodeId| (head + tail).contains(y) <==> below_from(lm, sh, p, i, y) by {
            lemma_concat_contains(head, tail, y);
            if head.contains(y) {
                assert(below(lm, sh.rank, ks[i]).contains(y));
            }
            if tail.contains(y) {
                assert(below_from(lm, sh, p, i + 1, y));
                let j = choose|j: int|
                    i + 1 <= j < ks.len() && below(lm, sh.rank, #[trigger] ks[j]).contains(y);
                assert(below(lm, sh.rank, ks[j]).contains(y));
            }
            if below_from(lm, sh, p, i, y) {
                let j = choose|j: int|
                    i <= j < ks.len() && below(lm, sh.rank, #[trigger] ks[j]).contains(y);
                if j > i {
                    assert(below(lm, sh.rank, ks[j]).contains(y));
                    assert(below_from(lm, sh, p, i + 1, y));
                }
            }
        }
    } else {
        assert(preorder_from(lm, sh, p, i) =~= Seq::<NodeId>::empty());
    }
}

/// The pre-order of a node holds exactly the node and what lies below it,
/// each once: a walk over the descendants meets what a removal takes away.
pub proof fn lemma_preorder(lm: Map<NodeId, Links>, sh: Shape, n: NodeId)
    requires
        tree_wf(lm, sh),
        lm.dom().contains(n),
    ensures
        preorder(lm, sh, n).no_duplicates(),
        forall|y: NodeId| preorder(lm, sh, n).contains(y) <==> below(lm, sh.rank, n).contains(y),
        preorder(lm, sh, n).len() == below(lm, sh.rank, n).len(),
    decreases sh.bound - sh.rank[n], sh.kids[n].len() + 1,
{
    lemma_preorder_from(lm, sh, n, 0);
    let rest = preorder_from(lm, sh, n, 0);
    assert(node_ok(lm, sh, n));
    assert forall|y: NodeId| rest.contains(y) <==> (below(lm, sh.rank, n).contains(y) && y
        != n) by {
        if rest.contains(y) {
            assert(below_from(lm, sh, n, 0, y));
            let j = choose|j: int|
                0 <= j < sh.kids[n].len() && below(lm, sh.rank, #[trigger] sh.kids[n][j]).contains(
                    y,
                );
            lemma_child(lm, sh, n, j);
            lemma_reach_up(lm, sh, y, sh.kids[n][j]);
            lemma_reaches_rank(lm, sh, y, sh.kids[n][j]);
        }
        if below(lm, sh.rank, n).contains(y) && y != n {
            let c = lemma_reach_step(lm, sh, y, n);
            lemma_position(lm, sh, c);
            assert(below(lm, sh.rank, sh.kids[n][position(lm, sh, c)]).contains(y));
            assert(below_from(lm, sh, n, 0, y));
        }
    }
    assert(seq![n][0] == n);
    assert forall|y: NodeId| seq![n].contains(y) implies !rest.contains(y) by {}
    lemma_concat_no_duplicates(seq![n], rest);
    assert forall|y: NodeId| preorder(lm, sh, n).contains(y) <==> below(lm, sh.rank, n).contains(
        y,
    ) by {
        lemma_concat_contains(seq![n], rest, y);
    }
    assert(preorder(lm, sh, n).to_set() =~= below(lm, sh.rank, n));
    preorder(lm, sh, n).unique_seq_to_set();
}

} // verus!
