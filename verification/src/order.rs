//! The order in which the arena stores its nodes: by slot index.

use vstd::prelude::*;
use crate::id::NodeId;

verus! {

/// `ids` lists the identifiers in `live`, each once, by ascending slot
/// index.
pub open spec fn storage_order(ids: Seq<NodeId>, live: Set<NodeId>) -> bool {
    &&& forall|i: int, j: int| 0 <= i < j < ids.len() ==> ids[i].index < ids[j].index
    &&& forall|id: NodeId| live.contains(id) <==> ids.contains(id)
}

/// A set of identifiers has at most one storage order.
pub proof fn lemma_storage_order_unique(a: Seq<NodeId>, b: Seq<NodeId>, live: Set<NodeId>)
    requires
        storage_order(a, live),
        storage_order(b, live),
    ensures
        a == b,
    decreases a.len(),
{
    if a.len() == 0 {
        if b.len() > 0 {
            assert(b.contains(b[0]));
            assert(a.contains(b[0]));
        }
        assert(a =~= b);
    } else {
        let x = a.last();
        assert(a.contains(x));
        assert(b.contains(x));
        let j = choose|j: int| 0 <= j < b.len() && b[j] == x;
        let y = b.last();
        assert(b.contains(y));
        assert(a.contains(y));
        let i = choose|i: int| 0 <= i < a.len() && a[i] == y;
        assert(x == y) by {
            if j < b.len() - 1 {
                assert(b[j].index < b[b.len() - 1].index);
            }
            if i < a.len() - 1 {
                assert(a[i].index < a[a.len() - 1].index);
            }
        }
        let a2 = a.drop_last();
        let b2 = b.drop_last();
        let live2 = live.remove(x);
        assert forall|id: NodeId| live2.contains(id) <==> a2.contains(id) by {
            if a2.contains(id) {
                let k = choose|k: int| 0 <= k < a2.len() && a2[k] == id;
                assert(a[k] == id);
                assert(a.contains(id));
                assert(a[k].index < a[a.len() - 1].index);
            }
            if live2.contains(id) {
                assert(a.contains(id));
                let k = choose|k: int| 0 <= k < a.len() && a[k] == id;
                assert(a2[k] == id);
            }
        }
        assert forall|id: NodeId| live2.contains(id) <==> b2.contains(id) by {
            if b2.contains(id) {
                let k = choose|k: int| 0 <= k < b2.len() && b2[k] == id;
                assert(b[k] == id);
                assert(b.contains(id));
                assert(b[k].index < b[b.len() - 1].index);
            }
            if live2.contains(id) {
                assert(b.contains(id));
                let k = choose|k: int| 0 <= k < b.len() && b[k] == id;
                assert(b2[k] == id);
            }
        }
        lemma_storage_order_unique(a2, b2, live2);
        assert(a =~= a2.push(x));
        assert(b =~= b2.push(y));
    }
}

} // verus!
