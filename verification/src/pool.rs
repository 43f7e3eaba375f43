//! The slot pool that issues identifiers.
//!
//! Identifiers come from a `generational_arena::Arena`, here called `Pool`.
//! Verus does not see inside it: this module names what the pool holds and
//! states, function by function, what each call does to it. Nothing here
//! is proved.

use generational_arena::Arena as Pool;
use vstd::prelude::*;
use crate::id::NodeId;
use crate::order::storage_order;

verus! {

/// `generational_arena::Arena`, which Verus takes as it is, without
/// looking inside.
#[verifier::external_type_specification]
#[verifier::external_body]
#[verifier::reject_recursive_types(T)]
pub struct ExPool<T>(Pool<T>);

/// A `generational_arena::Arena` used as an allocator of slots: it stores
/// no payload, only which `(index, generation)` pairs are occupied.
pub type SlotPool = Pool<()>;

/// The identifiers of the occupied slots of a pool.
pub uninterp spec fn pool_live(pool: SlotPool) -> Set<NodeId>;

/// The generation counter of a pool: the generation that the next stored
/// entry gets.
pub uninterp spec fn pool_generation(pool: SlotPool) -> u64;

/// `generational_arena::Arena::new`: an empty pool whose generation counter
/// is zero.
#[verifier::external_body]
pub(crate) fn pool_new() -> (pool: SlotPool)
    ensures
        pool_live(pool) == Set::<NodeId>::empty(),
        pool_generation(pool) == 0,
{
    Pool::new()
}

/// `generational_arena::Arena::with_capacity`: an empty pool whose
/// generation counter is zero, with room for `n` entries (for one entry
/// where `n` is zero). Like `Vec::with_capacity`, it aborts when the
/// memory cannot be had; that is outside this contract.
#[verifier::external_body]
pub(crate) fn pool_with_capacity(n: usize) -> (pool: SlotPool)
    ensures
        pool_live(pool) == Set::<NodeId>::empty(),
        pool_generation(pool) == 0,
{
    Pool::with_capacity(n)
}

/// `generational_arena::Arena::insert`: occupies a free slot, growing the
/// pool when none is free. The identifier returned carries the index of
/// that slot, which no occupied slot had, and the current generation; the
/// counter itself stays. Growing allocates, as `Vec::push` does.
#[verifier::external_body]
pub(crate) fn pool_insert(pool: &mut SlotPool) -> (id: NodeId)
    requires
        pool_live(*old(pool)).len() < usize::MAX,
    ensures
        forall|other: NodeId| #[trigger]
            pool_live(*old(pool)).contains(other) ==> other.index != id.index,
        id.generation == pool_generation(*old(pool)),
        pool_live(*final(pool)) == pool_live(*old(pool)).insert(id),
        pool_generation(*final(pool)) == pool_generation(*old(pool)),
{
    let (index, generation) = pool.insert(()).into_raw_parts();
    NodeId { index, generation }
}

/// `generational_arena::Arena::remove`: frees the slot of `id` if `id` is
/// occupied, and then adds one to the generation counter; does nothing
/// otherwise. Returns whether the slot was freed. The counter must not
/// overflow.
#[verifier::external_body]
pub(crate) fn pool_remove(pool: &mut SlotPool, id: NodeId) -> (removed: bool)
    requires
        pool_live(*old(pool)).contains(id) ==> pool_generation(*old(pool)) < u64::MAX,
    ensures
        removed == pool_live(*old(pool)).contains(id),
        pool_live(*final(pool)) == pool_live(*old(pool)).remove(id),
        pool_generation(*final(pool)) == pool_generation(*old(pool)) + (if removed {
            1int
        } else {
            0int
        }),
{
    pool.remove(generational_arena::Index::from_raw_parts(id.index, id.generation)).is_some()
}

/// `generational_arena::Arena::contains`: whether the slot of `id` is
/// occupied with the generation of `id`.
#[verifier::external_body]
pub(crate) fn pool_contains(pool: &SlotPool, id: NodeId) -> (live: bool)
    ensures
        live == pool_live(*pool).contains(id),
{
    pool.contains(generational_arena::Index::from_raw_parts(id.index, id.generation))
}

/// `generational_arena::Arena::len`: the number of occupied slots.
#[verifier::external_body]
pub(crate) fn pool_len(pool: &SlotPool) -> (n: usize)
    ensures
        n == pool_live(*pool).len(),
{
    pool.len()
}

/// `Clone::clone` of a `generational_arena::Arena`, which is derived: the
/// copy has the same occupied slots and the same generation counter.
#[verifier::external_body]
pub(crate) fn pool_clone(pool: &SlotPool) -> (copy: SlotPool)
    ensures
        pool_live(copy) == pool_live(*pool),
        pool_generation(copy) == pool_generation(*pool),
{
    pool.clone()
}

/// `generational_arena::Arena::iter`: the identifiers of the occupied
/// slots. The iterator goes through the slots by ascending index and hands
/// out each occupied one once.
#[verifier::external_body]
pub(crate) fn pool_ids(pool: &SlotPool) -> (ids: Vec<NodeId>)
    ensures
        storage_order(ids@, pool_live(*pool)),
{
    pool.iter().map(
        |entry| {
            let (index, generation) = entry.0.into_raw_parts();
            NodeId::from_raw_parts(index, generation)
        },
    ).collect()
}

/// `Vec::shrink_to_fit`: gives spare capacity back; the elements stay as
/// they are.
#[verifier::external_body]
pub(crate) fn vec_shrink_to_fit<T>(v: &mut Vec<T>)
    ensures
        final(v)@ == old(v)@,
{
    v.shrink_to_fit()
}

} // verus!
