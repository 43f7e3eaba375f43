use generational_indextree::{Arena, NodeId};

#[test]
fn slot_reuse() {
    let k = 37;
    let mut arena = Arena::new();
    let first: Vec<NodeId> = (0..k).map(|n| arena.new_node(n)).collect();
    assert_eq!(arena.count(), k);
    for id in first.iter() {
        assert!(id.remove(&mut arena));
    }
    assert_eq!(arena.count(), 0);
    let second: Vec<NodeId> = (0..k).map(|n| arena.new_node(n + 100)).collect();
    assert_eq!(arena.count(), k);
    assert_eq!(arena.ids().len(), k);
    let mut old_slots: Vec<usize> = first.iter().map(|id| id.index).collect();
    let mut new_slots: Vec<usize> = second.iter().map(|id| id.index).collect();
    old_slots.sort();
    new_slots.sort();
    assert_eq!(old_slots, new_slots);
    for (n, id) in second.iter().enumerate() {
        assert_eq!(*arena.get(*id).unwrap().get(), n + 100);
    }
}

#[test]
fn stale_identifier_detection() {
    let mut arena = Arena::new();
    let keep = arena.new_node("keep");
    let old = arena.new_node("old");
    assert!(old.remove(&mut arena));
    assert!(arena.get(old).is_none());
    assert!(arena.get_mut(old).is_none());
    {
        let (a, b) = arena.get2_mut(old, keep);
        assert!(a.is_none());
        assert!(b.is_some());
    }
    let new = arena.new_node("new");
    assert_eq!(new.index, old.index);
    assert!(new.generation > old.generation);
    assert_ne!(new, old);
    assert!(arena.get(old).is_none());
    assert!(arena.get_mut(old).is_none());
    assert!(!old.detach(&mut arena));
    assert!(!old.remove(&mut arena));
    assert!(!keep.append(old, &mut arena));
    assert_eq!(old.children(&arena).into_vec(), Vec::<NodeId>::new());
    assert_eq!(*arena.get(new).unwrap().get(), "new");
    assert_eq!(arena.count(), 2);
}

#[test]
fn every_removed_node_raises_the_generation() {
    let mut arena = Arena::new();
    let a = arena.new_node(0);
    let b = arena.new_node(1);
    let c = arena.new_node(2);
    assert_eq!((a.generation, b.generation, c.generation), (0, 0, 0));
    a.append(b, &mut arena);
    a.append(c, &mut arena);
    a.remove(&mut arena);
    let d = arena.new_node(3);
    assert_eq!(d.generation, 3);
    d.remove(&mut arena);
    let e = arena.new_node(4);
    assert_eq!(e.generation, 4);
    assert_eq!(e.index, d.index);
}

#[test]
fn topology_stays_consistent_through_a_run_of_operations() {
    let mut arena = Arena::new();
    let ids: Vec<NodeId> = (0..8).map(|n| arena.new_node(n)).collect();
    ids[0].append(ids[1], &mut arena);
    ids[0].append(ids[2], &mut arena);
    ids[1].prepend(ids[3], &mut arena);
    ids[3].insert_after(ids[4], &mut arena);
    ids[4].insert_before(ids[5], &mut arena);
    ids[2].append(ids[6], &mut arena);
    ids[6].append(ids[7], &mut arena);
    ids[5].detach(&mut arena);
    ids[2].append(ids[1], &mut arena);
    ids[6].insert_before(ids[5], &mut arena);
    for id in arena.ids() {
        let links = arena[id].get_links();
        let kids = id.children(&arena).into_vec();
        assert_eq!(links.first_child, kids.first().copied());
        assert_eq!(links.last_child, kids.last().copied());
        let mut back = id.reverse_children(&arena).into_vec();
        back.reverse();
        assert_eq!(back, kids);
        for (k, kid) in kids.iter().enumerate() {
            let l = arena[*kid].get_links();
            assert_eq!(l.parent, Some(id));
            assert_eq!(l.previous_sibling, if k > 0 { Some(kids[k - 1]) } else { None });
            assert_eq!(l.next_sibling, kids.get(k + 1).copied());
            assert_eq!(kids.iter().filter(|other| *other == kid).count(), 1);
        }
        match links.parent {
            Some(p) => assert!(p.children(&arena).into_vec().contains(&id)),
            None => {
                assert_eq!(links.previous_sibling, None);
                assert_eq!(links.next_sibling, None);
            }
        }
        let up = id.ancestors(&arena).into_vec();
        assert_eq!(up[0], id);
        assert!(up.len() <= arena.count());
        assert_eq!(up.iter().filter(|a| **a == id).count(), 1);
    }
    assert_eq!(ids[0].descendants(&arena).into_vec(), vec![
        ids[0], ids[2], ids[5], ids[6], ids[7], ids[1], ids[3], ids[4]
    ]);
}

fn build(extra: bool) -> Arena<&'static str> {
    let mut arena = Arena::new();
    let r = arena.new_node("R");
    let a = arena.new_node("A");
    let b = arena.new_node("B");
    r.append(a, &mut arena);
    r.append(b, &mut arena);
    a.insert_before(b, &mut arena);
    if extra {
        arena.new_node("extra");
    }
    arena
}

#[test]
fn equality() {
    let one = build(false);
    let two = build(false);
    assert!(one == two);
    assert!(two == one);
    assert!(!(one != two));
    let more = build(true);
    assert!(one != more);
    assert!(more != one);
}

#[test]
fn equality_sees_payloads_and_links() {
    let one = build(false);
    let mut other = build(false);
    let ids = other.ids();
    *other.get_mut(ids[1]).unwrap().get_mut() = "changed";
    assert!(one != other);
    let mut moved = build(false);
    let ids = moved.ids();
    ids[0].append(ids[2], &mut moved);
    assert!(one != moved);
    ids[1].insert_before(ids[2], &mut moved);
    assert!(one == moved);
    let empty: Arena<&'static str> = Arena::new();
    let sized: Arena<&'static str> = Arena::with_capacity(10);
    assert!(empty == sized);
    assert!(empty != one);
}

#[test]
fn equality_goes_by_storage_order_not_by_identifier() {
    let mut one = Arena::new();
    let a = one.new_node(1);
    let _b = one.new_node(2);
    a.remove(&mut one);
    let mut two = Arena::new();
    let _c = two.new_node(2);
    assert!(one == two);
}
