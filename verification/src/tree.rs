//! What it means for a set of linked nodes to be a forest, and why each
//! structural change keeps it one.
//!
//! The links of all nodes form a `Map<NodeId, Links>`. Beside it stands a
//! [`Shape`]: for every node the sequence of its children, and a rank
//! that grows from parent to child. The links are well formed when they
//! say exactly what the shape says.

use vstd::prelude::*;
use crate::id::NodeId;
use crate::node::Links;

verus! {

/// The forest that a map of links spells out.
pub struct Shape {
    /// The children of every node, first to last.
    pub kids: Map<NodeId, Seq<NodeId>>,
    /// A number for every node that is greater than that of its parent.
    pub rank: Map<NodeId, nat>,
    /// No rank is greater than this.
    pub bound: nat,
}

/// The element of `s` at position `i`, if there is one.
pub open spec fn at(s: Seq<NodeId>, i: int) -> Option<NodeId> {
    if 0 <= i < s.len() {
        Some(s[i])
    } else {
        None
    }
}

/// The links of the child at position `i` of `ks` name `p` as its parent
/// and its neighbours in `ks` as its siblings.
pub open spec fn link_ok(lm: Map<NodeId, Links>, p: NodeId, ks: Seq<NodeId>, i: int) -> bool {
    &&& lm.dom().contains(ks[i])
    &&& lm[ks[i]].parent == Some(p)
    &&& lm[ks[i]].previous_sibling == at(ks, i - 1)
    &&& lm[ks[i]].next_sibling == at(ks, i + 1)
}

/// The links of `p` and of the nodes in `ks` say that `ks` are the
/// children of `p`, in this order, each exactly once.
pub open spec fn chain_ok(lm: Map<NodeId, Links>, p: NodeId, ks: Seq<NodeId>) -> bool {
    &&& ks.no_duplicates()
    &&& lm[p].first_child == at(ks, 0)
    &&& lm[p].last_child == at(ks, ks.len() - 1)
    &&& forall|i: int| 0 <= i < ks.len() ==> #[trigger] link_ok(lm, p, ks, i)
}

/// A node with a parent is among the children of that parent, and its rank
/// is greater; a node without a parent has no siblings.
pub open spec fn node_ok(lm: Map<NodeId, Links>, sh: Shape, n: NodeId) -> bool {
    &&& sh.rank[n] <= sh.bound
    &&& match lm[n].parent {
        Some(p) => lm.dom().contains(p) && sh.kids[p].contains(n) && sh.rank[p] < sh.rank[n],
        None => lm[n].previous_sibling is None && lm[n].next_sibling is None,
    }
}

/// The links `lm` describe the forest `sh`:
/// the children of every node form a doubly linked list between its
/// first and its last child; a node with a parent is among that parent's
/// children; a node without a parent has no siblings; and the rank of a
/// node is greater than the rank of its parent, so that no node is its own
/// ancestor.
pub open spec fn tree_wf(lm: Map<NodeId, Links>, sh: Shape) -> bool {
    &&& sh.kids.dom() == lm.dom()
    &&& sh.rank.dom() == lm.dom()
    &&& forall|p: NodeId| lm.dom().contains(p) ==> #[trigger] chain_ok(lm, p, sh.kids[p])
    &&& forall|n: NodeId| lm.dom().contains(n) ==> #[trigger] node_ok(lm, sh, n)
}

/// `a` is `y` or an ancestor of `y`.
pub open spec fn reaches(
    lm: Map<NodeId, Links>,
    rank: Map<NodeId, nat>,
    y: NodeId,
    a: NodeId,
) -> bool
    decreases rank[y],
{
    y == a || (lm.dom().contains(y) && lm[y].parent is Some && rank[lm[y].parent->0] < rank[y]
        && reaches(lm, rank, lm[y].parent->0, a))
}

/// The position of `n` among the children of its parent.
pub open spec fn position(lm: Map<NodeId, Links>, sh: Shape, n: NodeId) -> int {
    sh.kids[lm[n].parent->0].index_of(n)
}

/// In a well-formed forest a node with a parent stands at its position
/// among the parent's children, and its sibling links name its neighbours
/// there.
pub proof fn lemma_position(lm: Map<NodeId, Links>, sh: Shape, n: NodeId)
    requires
        tree_wf(lm, sh),
        lm.dom().contains(n),
        lm[n].parent is Some,
    ensures
        lm.dom().contains(lm[n].parent->0),
        lm[n].parent->0 != n,
        0 <= position(lm, sh, n) < sh.kids[lm[n].parent->0].len(),
        sh.kids[lm[n].parent->0][position(lm, sh, n)] == n,
        lm[n].previous_sibling == at(sh.kids[lm[n].parent->0], position(lm, sh, n) - 1),
        lm[n].next_sibling == at(sh.kids[lm[n].parent->0], position(lm, sh, n) + 1),
{
    let p = lm[n].parent->0;
    assert(node_ok(lm, sh, n));
    assert(sh.kids[p].contains(n));
    assert(chain_ok(lm, p, sh.kids[p]));
    assert(link_ok(lm, p, sh.kids[p], position(lm, sh, n)));
}

/// The child at position `i` of a node of a well-formed forest.
pub proof fn lemma_child(lm: Map<NodeId, Links>, sh: Shape, p: NodeId, i: int)
    requires
        tree_wf(lm, sh),
        lm.dom().contains(p),
        0 <= i < sh.kids[p].len(),
    ensures
        lm.dom().contains(sh.kids[p][i]),
        sh.kids[p][i] != p,
        lm[sh.kids[p][i]].parent == Some(p),
        lm[sh.kids[p][i]].previous_sibling == at(sh.kids[p], i - 1),
        lm[sh.kids[p][i]].next_sibling == at(sh.kids[p], i + 1),
        position(lm, sh, sh.kids[p][i]) == i,
        sh.rank[p] < sh.rank[sh.kids[p][i]],
{
    assert(chain_ok(lm, p, sh.kids[p]));
    assert(link_ok(lm, p, sh.kids[p], i));
    assert(node_ok(lm, sh, sh.kids[p][i]));
    lemma_position(lm, sh, sh.kids[p][i]);
}

/// Every link of a well-formed forest leads to another node of the forest.
pub proof fn lemma_links_closed(lm: Map<NodeId, Links>, sh: Shape, n: NodeId)
    requires
        tree_wf(lm, sh),
        lm.dom().contains(n),
    ensures
        lm[n].parent matches Some(x) ==> lm.dom().contains(x) && x != n,
        lm[n].previous_sibling matches Some(x) ==> lm.dom().contains(x) && x != n && lm[x].parent
            == lm[n].parent && lm[n].parent is Some,
        lm[n].next_sibling matches Some(x) ==> lm.dom().contains(x) && x != n && lm[x].parent
            == lm[n].parent && lm[n].parent is Some,
        lm[n].first_child matches Some(x) ==> lm.dom().contains(x) && x != n && lm[x].parent
            == Some(n),
        lm[n].last_child matches Some(x) ==> lm.dom().contains(x) && x != n && lm[x].parent
            == Some(n),
        lm[n].first_child == at(sh.kids[n], 0),
        lm[n].last_child == at(sh.kids[n], sh.kids[n].len() - 1),
{
    assert(chain_ok(lm, n, sh.kids[n]));
    assert(node_ok(lm, sh, n));
    let ks = sh.kids[n];
    if ks.len() > 0 {
        lemma_child(lm, sh, n, 0);
        lemma_child(lm, sh, n, ks.len() - 1);
    }
    if lm[n].parent is Some {
        lemma_position(lm, sh, n);
        let p = lm[n].parent->0;
        let i = position(lm, sh, n);
        if i > 0 {
            lemma_child(lm, sh, p, i - 1);
        }
        if i + 1 < sh.kids[p].len() {
            lemma_child(lm, sh, p, i + 1);
        }
    }
}

/// The links after a node without neighbours has been added.
pub proof fn lemma_add_node(lm: Map<NodeId, Links>, sh: Shape, id: NodeId)
    requires
        tree_wf(lm, sh),
        !lm.dom().contains(id),
    ensures
        tree_wf(
            lm.insert(id, Links::detached()),
            Shape {
                kids: sh.kids.insert(id, Seq::empty()),
                rank: sh.rank.insert(id, 0),
                bound: sh.bound,
            },
        ),
{
    let lm2 = lm.insert(id, Links::detached());
    let sh2 = Shape {
        kids: sh.kids.insert(id, Seq::empty()),
        rank: sh.rank.insert(id, 0),
        bound: sh.bound,
    };
    assert(sh2.kids.dom() =~= lm2.dom());
    assert(sh2.rank.dom() =~= lm2.dom());
    assert forall|p: NodeId| lm2.dom().contains(p) implies #[trigger] chain_ok(
        lm2,
        p,
        sh2.kids[p],
    ) by {
        if p != id {
            let ks = sh.kids[p];
            assert(chain_ok(lm, p, ks));
            assert forall|i: int| 0 <= i < ks.len() implies #[trigger] link_ok(lm2, p, ks, i) by {
                assert(link_ok(lm, p, ks, i));
            }
        }
    }
    assert forall|n: NodeId| lm2.dom().contains(n) implies #[trigger] node_ok(lm2, sh2, n) by {
        if n != id {
            assert(node_ok(lm, sh, n));
        }
    }
}

/// The links after `n` has been taken out of the list of its siblings.
pub open spec fn detach_links(lm: Map<NodeId, Links>, n: NodeId) -> Map<NodeId, Links> {
    let l = lm[n];
    Map::new(
        |x: NodeId| lm.dom().contains(x),
        |x: NodeId|
            if x == n {
                Links {
                    parent: None,
                    previous_sibling: None,
                    next_sibling: None,
                    first_child: lm[x].first_child,
                    last_child: lm[x].last_child,
                }
            } else {
                Links {
                    parent: lm[x].parent,
                    previous_sibling: if l.next_sibling == Some(x) {
                        l.previous_sibling
                    } else {
                        lm[x].previous_sibling
                    },
                    next_sibling: if l.previous_sibling == Some(x) {
                        l.next_sibling
                    } else {
                        lm[x].next_sibling
                    },
                    first_child: if l.parent == Some(x) && l.previous_sibling is None {
                        l.next_sibling
                    } else {
                        lm[x].first_child
                    },
                    last_child: if l.parent == Some(x) && l.next_sibling is None {
                        l.previous_sibling
                    } else {
                        lm[x].last_child
                    },
                }
            },
    )
}

/// The children of every node after `n`, whose parent is `parent`, has
/// left its parent.
pub open spec fn kids_without(
    kids: Map<NodeId, Seq<NodeId>>,
    parent: Option<NodeId>,
    n: NodeId,
) -> Map<NodeId, Seq<NodeId>> {
    match parent {
        Some(p) => kids.insert(p, kids[p].remove(kids[p].index_of(n))),
        None => kids,
    }
}

/// The forest after `n` has left its parent.
pub open spec fn detach_shape(lm: Map<NodeId, Links>, sh: Shape, n: NodeId) -> Shape {
    Shape { kids: kids_without(sh.kids, lm[n].parent, n), rank: sh.rank, bound: sh.bound }
}

/// Taking a node out of the list of its siblings leaves a well-formed
/// forest in which the node is a root.
pub proof fn lemma_detach(lm: Map<NodeId, Links>, sh: Shape, n: NodeId)
    requires
        tree_wf(lm, sh),
        lm.dom().contains(n),
    ensures
        tree_wf(detach_links(lm, n), detach_shape(lm, sh, n)),
        lm[n].parent is None ==> detach_links(lm, n) == lm,
{
    let lm2 = detach_links(lm, n);
    let sh2 = detach_shape(lm, sh, n);
    assert(node_ok(lm, sh, n));
    if lm[n].parent is None {
        assert forall|x: NodeId| lm.dom().contains(x) implies lm2[x] == lm[x] by {
            lemma_links_closed(lm, sh, x);
        }
        assert(lm2 =~= lm);
    } else {
        let p = lm[n].parent->0;
        let ks = sh.kids[p];
        let i = position(lm, sh, n);
        lemma_position(lm, sh, n);
        let ks2 = ks.remove(i);
        assert(sh2.kids.dom() =~= lm2.dom());
        assert(sh2.rank.dom() =~= lm2.dom());
        assert(chain_ok(lm, p, ks));
        // a node that is neither `n`, nor a sibling of `n`, nor `p` keeps its links
        assert forall|x: NodeId|
            lm.dom().contains(x) && lm[x].parent != Some(p) && x != p implies #[trigger] lm2[x]
            == lm[x] by {
            lemma_links_closed(lm, sh, n);
        }
        assert forall|q: NodeId| lm2.dom().contains(q) implies #[trigger] chain_ok(
            lm2,
            q,
            sh2.kids[q],
        ) by {
            lemma_detach_chain(lm, sh, n, q);
        }
        assert forall|x: NodeId| lm2.dom().contains(x) implies #[trigger] node_ok(lm2, sh2, x) by {
            assert(node_ok(lm, sh, x));
            lemma_links_closed(lm, sh, n);
            if x != n {
                match lm[x].parent {
                    Some(q) => {
                        if q == p {
                            lemma_position(lm, sh, x);
                            let j = position(lm, sh, x);
                            let j2 = if j < i {
                                j
                            } else {
                                j - 1
                            };
                            assert(ks2[j2] == x);
                        }
                    },
                    None => {},
                }
            }
        }
    }
}

/// The children of `q` are still a well-linked list after `n` has left its
/// parent.
proof fn lemma_detach_chain(lm: Map<NodeId, Links>, sh: Shape, n: NodeId, q: NodeId)
    requires
        tree_wf(lm, sh),
        lm.dom().contains(n),
        lm[n].parent is Some,
        lm.dom().contains(q),
    ensures
        chain_ok(detach_links(lm, n), q, detach_shape(lm, sh, n).kids[q]),
{
    let lm2 = detach_links(lm, n);
    let sh2 = detach_shape(lm, sh, n);
    let p = lm[n].parent->0;
    let ks = sh.kids[p];
    let i = position(lm, sh, n);
    lemma_position(lm, sh, n);
    lemma_links_closed(lm, sh, n);
    let ks2 = ks.remove(i);
    assert(chain_ok(lm, p, ks));
    assert(chain_ok(lm, q, sh.kids[q]));
    if q == p {
        assert(sh2.kids[q] == ks2);
        assert forall|j: int| 0 <= j < ks2.len() implies #[trigger] link_ok(lm2, p, ks2, j) by {
            let jj = if j < i {
                j
            } else {
                j + 1
            };
            assert(ks2[j] == ks[jj]);
            assert(link_ok(lm, p, ks, jj));
            assert(ks[jj] != n);
            lemma_child(lm, sh, p, jj);
        }
        assert(ks2.no_duplicates());
        assert(lm2[p].first_child == at(ks2, 0));
        assert(lm2[p].last_child == at(ks2, ks2.len() - 1));
    } else {
        let qs = sh.kids[q];
        assert(sh2.kids[q] == qs);
        assert forall|j: int| 0 <= j < qs.len() implies #[trigger] link_ok(lm2, q, qs, j) by {
            assert(link_ok(lm, q, qs, j));
            lemma_child(lm, sh, q, j);
            let x = qs[j];
            assert(x != n);
            assert(lm[n].next_sibling != Some(x));
            assert(lm[n].previous_sibling != Some(x));
        }
        assert(lm2[q].first_child == lm[q].first_child);
        assert(lm2[q].last_child == lm[q].last_child);
    }
}

/// The links after the root `c` has become the child of `p` that stands
/// between `a` and `b`.
pub open spec fn attach_links(
    lm: Map<NodeId, Links>,
    c: NodeId,
    p: NodeId,
    a: Option<NodeId>,
    b: Option<NodeId>,
) -> Map<NodeId, Links> {
    Map::new(
        |x: NodeId| lm.dom().contains(x),
        |x: NodeId|
            if x == c {
                Links {
                    parent: Some(p),
                    previous_sibling: a,
                    next_sibling: b,
                    first_child: lm[x].first_child,
                    last_child: lm[x].last_child,
                }
            } else {
                Links {
                    parent: lm[x].parent,
                    previous_sibling: if b == Some(x) {
                        Some(c)
                    } else {
                        lm[x].previous_sibling
                    },
                    next_sibling: if a == Some(x) {
                        Some(c)
                    } else {
                        lm[x].next_sibling
                    },
                    first_child: if x == p && a is None {
                        Some(c)
                    } else {
                        lm[x].first_child
                    },
                    last_child: if x == p && b is None {
                        Some(c)
                    } else {
                        lm[x].last_child
                    },
                }
            },
    )
}

/// The children of every node after `c` has become the child of `p` at
/// position `k`.
pub open spec fn kids_with(
    kids: Map<NodeId, Seq<NodeId>>,
    p: NodeId,
    k: int,
    c: NodeId,
) -> Map<NodeId, Seq<NodeId>> {
    kids.insert(p, kids[p].insert(k, c))
}

/// The forest after the root `c` has become the child of `p` at position
/// `k`: `c` and all below it move to ranks above that of `p`.
pub open spec fn attach_shape(
    lm: Map<NodeId, Links>,
    sh: Shape,
    c: NodeId,
    p: NodeId,
    k: int,
) -> Shape {
    Shape {
        kids: kids_with(sh.kids, p, k, c),
        rank: Map::new(
            |x: NodeId| sh.rank.dom().contains(x),
            |x: NodeId|
                if reaches(lm, sh.rank, x, c) {
                    sh.rank[x] + sh.rank[p] + 1
                } else {
                    sh.rank[x]
                },
        ),
        bound: 2 * sh.bound + 1,
    }
}

/// Making a root the child of a node that is not below it leaves a
/// well-formed forest.
pub proof fn lemma_attach(lm: Map<NodeId, Links>, sh: Shape, c: NodeId, p: NodeId, k: int)
    requires
        tree_wf(lm, sh),
        lm.dom().contains(c),
        lm.dom().contains(p),
        lm[c].parent is None,
        !reaches(lm, sh.rank, p, c),
        0 <= k <= sh.kids[p].len(),
    ensures
        tree_wf(
            attach_links(lm, c, p, at(sh.kids[p], k - 1), at(sh.kids[p], k)),
            attach_shape(lm, sh, c, p, k),
        ),
{
    let ks = sh.kids[p];
    let a = at(ks, k - 1);
    let b = at(ks, k);
    let lm2 = attach_links(lm, c, p, a, b);
    let sh2 = attach_shape(lm, sh, c, p, k);
    assert(sh2.kids.dom() =~= lm2.dom());
    assert(sh2.rank.dom() =~= lm2.dom());
    assert forall|q: NodeId| lm2.dom().contains(q) implies #[trigger] chain_ok(
        lm2,
        q,
        sh2.kids[q],
    ) by {
        lemma_attach_chain(lm, sh, c, p, k, q);
    }
    assert forall|x: NodeId| lm2.dom().contains(x) implies #[trigger] node_ok(lm2, sh2, x) by {
        assert(node_ok(lm, sh, x));
        assert(node_ok(lm, sh, p));
        let ks2 = ks.insert(k, c);
        if x == c {
            assert(ks2[k] == c);
        } else {
            match lm[x].parent {
                Some(q) => {
                    assert(reaches(lm, sh.rank, x, c) == reaches(lm, sh.rank, q, c));
                    if q == p {
                        lemma_position(lm, sh, x);
                        let j = position(lm, sh, x);
                        let j2 = if j < k {
                            j
                        } else {
                            j + 1
                        };
                        assert(ks2[j2] == x);
                    }
                },
                None => {
                    if k < ks.len() {
                        lemma_child(lm, sh, p, k);
                    }
                    if k > 0 {
                        lemma_child(lm, sh, p, k - 1);
                    }
                },
            }
        }
    }
}

/// The children of `q` are a well-linked list after the root `c` has become
/// the child of `p` at position `k`.
proof fn lemma_attach_chain(
    lm: Map<NodeId, Links>,
    sh: Shape,
    c: NodeId,
    p: NodeId,
    k: int,
    q: NodeId,
)
    requires
        tree_wf(lm, sh),
        lm.dom().contains(c),
        lm.dom().contains(p),
        lm.dom().contains(q),
        lm[c].parent is None,
        c != p,
        0 <= k <= sh.kids[p].len(),
    ensures
        chain_ok(
            attach_links(lm, c, p, at(sh.kids[p], k - 1), at(sh.kids[p], k)),
            q,
            attach_shape(lm, sh, c, p, k).kids[q],
        ),
{
    let ks = sh.kids[p];
    let a = at(ks, k - 1);
    let b = at(ks, k);
    let lm2 = attach_links(lm, c, p, a, b);
    let sh2 = attach_shape(lm, sh, c, p, k);
    assert(chain_ok(lm, p, ks));
    assert(chain_ok(lm, q, sh.kids[q]));
    if k < ks.len() {
        lemma_child(lm, sh, p, k);
    }
    if k > 0 {
        lemma_child(lm, sh, p, k - 1);
    }
    if q == p {
        let ks2 = ks.insert(k, c);
        assert(sh2.kids[q] == ks2);
        assert forall|j: int| 0 <= j < ks.len() implies ks[j] != c by {
            lemma_child(lm, sh, p, j);
        }
        assert forall|j: int| 0 <= j < ks2.len() implies #[trigger] link_ok(lm2, p, ks2, j) by {
            if j != k {
                let jj = if j < k {
                    j
                } else {
                    j - 1
                };
                assert(ks2[j] == ks[jj]);
                lemma_child(lm, sh, p, jj);
            }
        }
        assert(ks2.no_duplicates()) by {
            assert forall|i: int, j: int|
                0 <= i < ks2.len() && 0 <= j < ks2.len() && i != j implies ks2[i] != ks2[j] by {
                let ii = if i < k {
                    i
                } else {
                    i - 1
                };
                let jj = if j < k {
                    j
                } else {
                    j - 1
                };
                if i != k && j != k {
                    assert(ks2[i] == ks[ii]);
                    assert(ks2[j] == ks[jj]);
                }
            }
        }
    } else {
        let qs = sh.kids[q];
        assert(sh2.kids[q] == qs);
        assert forall|j: int| 0 <= j < qs.len() implies #[trigger] link_ok(lm2, q, qs, j) by {
            lemma_child(lm, sh, q, j);
        }
    }
}

/// Whether a node lies below `n` does not depend on whether `n` itself is
/// attached.
pub proof fn lemma_detach_reaches(lm: Map<NodeId, Links>, sh: Shape, n: NodeId, y: NodeId)
    requires
        tree_wf(lm, sh),
        lm.dom().contains(n),
    ensures
        reaches(detach_links(lm, n), sh.rank, y, n) == reaches(lm, sh.rank, y, n),
    decreases sh.rank[y],
{
    if y != n && lm.dom().contains(y) && lm[y].parent is Some {
        assert(node_ok(lm, sh, y));
        lemma_detach_reaches(lm, sh, n, lm[y].parent->0);
    }
}

} // verus!
