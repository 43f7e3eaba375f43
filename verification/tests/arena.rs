use generational_indextree::{Arena, NodeId};

#[test]
fn reuse_node() {
    let mut arena = Arena::with_capacity(3);
    let n1_id = arena.new_node("1");
    let n2_id = arena.new_node("2");
    let n3_id = arena.new_node("3");
    n1_id.remove(&mut arena);
    n2_id.remove(&mut arena);
    n3_id.remove(&mut arena);
    let n1_id = arena.new_node("1");
    let n2_id = arena.new_node("2");
    let n3_id = arena.new_node("3");
    assert_eq!(arena.count(), 3);
    assert!(arena.get(n1_id).is_some());
    assert!(arena.get(n2_id).is_some());
    assert!(arena.get(n3_id).is_some());
}

#[test]
fn new_arena_is_empty() {
    let arena: Arena<u32> = Arena::new();
    assert_eq!(arena.count(), 0);
    assert!(arena.is_empty());
    assert!(arena.ids().is_empty());
    assert!(arena.iter().is_empty());
    let other: Arena<u32> = Arena::default();
    assert!(other.is_empty());
    let sized: Arena<u32> = Arena::with_capacity(0);
    assert!(sized.is_empty());
}

#[test]
fn new_node_is_detached_and_counted() {
    let mut arena = Arena::new();
    let foo = arena.new_node("foo");
    assert!(!arena.is_empty());
    assert_eq!(arena.count(), 1);
    let bar = arena.new_node("bar");
    assert_eq!(arena.count(), 2);
    assert_ne!(foo, bar);
    let node = arena.get(foo).unwrap();
    assert_eq!(*node.get(), "foo");
    assert_eq!(node.parent(), None);
    assert_eq!(node.first_child(), None);
    assert_eq!(node.last_child(), None);
    assert_eq!(node.previous_sibling(), None);
    assert_eq!(node.next_sibling(), None);
    assert_eq!(*arena.get(bar).unwrap().get(), "bar");
}

#[test]
fn count_follows_remove() {
    let mut arena = Arena::new();
    let foo = arena.new_node("foo");
    let _bar = arena.new_node("bar");
    assert_eq!(arena.count(), 2);
    assert!(foo.remove(&mut arena));
    assert_eq!(arena.count(), 1);
    assert!(!foo.remove(&mut arena));
    assert_eq!(arena.count(), 1);
}

#[test]
fn is_empty_follows_remove() {
    let mut arena = Arena::new();
    assert!(arena.is_empty());
    let foo = arena.new_node("foo");
    assert!(!arena.is_empty());
    foo.remove(&mut arena);
    assert!(arena.is_empty());
}

#[test]
fn get_mut_changes_payload() {
    let mut arena = Arena::new();
    let foo = arena.new_node("foo");
    assert_eq!(arena.get(foo).map(|node| *node.get()), Some("foo"));
    *arena.get_mut(foo).expect("the node exists").get_mut() = "FOO!";
    assert_eq!(arena.get(foo).map(|node| *node.get()), Some("FOO!"));
}

#[test]
fn get_does_not_know_foreign_identifiers() {
    let mut arena = Arena::new();
    let foo = arena.new_node("foo");
    let bar = arena.new_node("bar");
    assert_eq!(arena.get(foo).map(|node| *node.get()), Some("foo"));
    let mut another_arena = Arena::new();
    let _ = another_arena.new_node("Another arena");
    assert_eq!(another_arena.get(foo).map(|node| *node.get()), Some("Another arena"));
    assert!(another_arena.get(bar).is_none());
    let never_issued = NodeId::from_raw_parts(1000, 0);
    assert!(arena.get(never_issued).is_none());
    assert!(arena.get_mut(never_issued).is_none());
}

#[test]
fn get2_mut_gives_both_nodes() {
    let mut arena = Arena::new();
    let idx1 = arena.new_node("foo");
    let idx2 = arena.new_node("bar");
    {
        let (item1, item2) = arena.get2_mut(idx1, idx2);
        *item1.unwrap().get_mut() = "jig";
        *item2.unwrap().get_mut() = "saw";
    }
    assert_eq!(arena[idx1].get(), &"jig");
    assert_eq!(arena[idx2].get(), &"saw");
    {
        let (item2, item1) = arena.get2_mut(idx2, idx1);
        assert_eq!(*item2.unwrap().get(), "saw");
        assert_eq!(*item1.unwrap().get(), "jig");
    }
}

#[test]
fn get2_mut_gives_nothing_for_a_stale_identifier() {
    let mut arena = Arena::new();
    let a = arena.new_node(1);
    let b = arena.new_node(2);
    b.remove(&mut arena);
    {
        let (first, second) = arena.get2_mut(a, b);
        assert!(second.is_none());
        *first.unwrap().get_mut() = 10;
    }
    {
        let (first, second) = arena.get2_mut(b, a);
        assert!(first.is_none());
        assert_eq!(*second.unwrap().get(), 10);
    }
    let c = arena.new_node(3);
    assert_eq!(c.index, b.index);
    {
        let (stale, live) = arena.get2_mut(b, c);
        assert!(stale.is_none());
        assert_eq!(*live.unwrap().get(), 3);
    }
    a.remove(&mut arena);
    let (x, y) = arena.get2_mut(a, b);
    assert!(x.is_none());
    assert!(y.is_none());
}

#[test]
fn iter_goes_in_storage_order() {
    let mut arena = Arena::new();
    let _foo = arena.new_node("foo");
    let _bar = arena.new_node("bar");
    let nodes = arena.iter();
    assert_eq!(nodes.len(), 2);
    assert_eq!(*nodes[0].get(), "foo");
    assert_eq!(*nodes[1].get(), "bar");
}

#[test]
fn iter_skips_removed_nodes() {
    let mut arena = Arena::new();
    let _foo = arena.new_node("foo");
    let bar = arena.new_node("bar");
    bar.remove(&mut arena);
    let nodes = arena.iter();
    assert_eq!(nodes.len(), 1);
    assert_eq!(*nodes[0].get(), "foo");
}

#[test]
fn iter_pairs_gives_identifiers_and_nodes() {
    let mut arena = Arena::new();
    let foo = arena.new_node("foo");
    let bar = arena.new_node("bar");
    let baz = arena.new_node("baz");
    bar.remove(&mut arena);
    let pairs = arena.iter_pairs();
    assert_eq!(pairs.len(), 2);
    assert_eq!((pairs[0].0, *pairs[0].1.get()), (foo, "foo"));
    assert_eq!((pairs[1].0, *pairs[1].1.get()), (baz, "baz"));
    assert_eq!(arena.ids(), vec![foo, baz]);
    assert!(foo.index < baz.index);
}

#[test]
fn ids_ascend_by_slot_index_after_reuse() {
    let mut arena = Arena::new();
    let a = arena.new_node('a');
    let b = arena.new_node('b');
    let c = arena.new_node('c');
    a.remove(&mut arena);
    b.remove(&mut arena);
    let d = arena.new_node('d');
    let e = arena.new_node('e');
    let ids = arena.ids();
    assert_eq!(ids.len(), 3);
    for k in 1..ids.len() {
        assert!(ids[k - 1].index < ids[k].index);
    }
    assert!(ids.contains(&c));
    assert!(ids.contains(&d));
    assert!(ids.contains(&e));
    let payloads: Vec<char> = arena.iter().iter().map(|node| *node.get()).collect();
    assert_eq!(payloads.len(), 3);
    for (k, id) in ids.iter().enumerate() {
        assert_eq!(*arena[*id].get(), payloads[k]);
    }
}

#[test]
fn shrink_to_fit_keeps_every_node() {
    let mut arena = Arena::with_capacity(64);
    let a = arena.new_node(1);
    let b = arena.new_node(2);
    let c = arena.new_node(3);
    a.append(b, &mut arena);
    c.remove(&mut arena);
    arena.shrink_to_fit();
    assert_eq!(arena.count(), 2);
    assert_eq!(*arena.get(a).unwrap().get(), 1);
    assert_eq!(*arena.get(b).unwrap().get(), 2);
    assert!(arena.get(c).is_none());
    assert_eq!(arena.get(b).unwrap().parent(), Some(a));
    let d = arena.new_node(4);
    assert_eq!(*arena.get(d).unwrap().get(), 4);
    assert_eq!(arena.count(), 3);
}

#[test]
fn index_gives_the_node() {
    let mut arena = Arena::new();
    let foo = arena.new_node("foo");
    assert_eq!(*arena[foo].get(), "foo");
    assert_eq!(arena[foo].get_links().parent, None);
}

#[test]
fn index_mut_gives_the_node() {
    let mut arena = Arena::new();
    let foo = arena.new_node(String::from("foo"));
    let bar = arena.new_node(String::from("bar"));
    foo.append(bar, &mut arena);
    arena.index_mut(bar).get_mut().push_str("!!");
    assert_eq!(arena[bar].get(), "bar!!");
    assert_eq!(arena[foo].get(), "foo");
    assert_eq!(arena[bar].parent(), Some(foo));
}

#[test]
fn raw_parts_round_trip() {
    let id = NodeId::from_raw_parts(7, 3);
    assert_eq!(id.into_raw_parts(), (7, 3));
    assert_eq!(id.index, 7);
    assert_eq!(id.generation, 3);
    assert_eq!(id, NodeId::from_raw_parts(7, 3));
    assert_ne!(id, NodeId::from_raw_parts(7, 4));
    assert_ne!(id, NodeId::from_raw_parts(8, 3));
}

#[test]
fn clone_is_equal_and_independent() {
    let mut arena = Arena::new();
    let a = arena.new_node(String::from("a"));
    let b = arena.new_node(String::from("b"));
    a.append(b, &mut arena);
    let mut copy = arena.clone();
    assert!(arena == copy);
    assert_eq!(copy.count(), 2);
    assert_eq!(copy.get(b).unwrap().parent(), Some(a));
    assert_eq!(copy.ids(), arena.ids());
    *copy.get_mut(a).unwrap().get_mut() = String::from("changed");
    assert_eq!(arena.get(a).unwrap().get(), "a");
    assert!(arena != copy);
    b.remove(&mut copy);
    assert_eq!(copy.count(), 1);
    assert_eq!(arena.count(), 2);
    assert!(arena.get(b).is_some());
    let c = copy.new_node(String::from("c"));
    let d = arena.new_node(String::from("d"));
    assert_eq!(copy.get(c).unwrap().get(), "c");
    assert_eq!(arena.get(d).unwrap().get(), "d");
}
