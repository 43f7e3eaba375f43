use generational_indextree::{Arena, NodeId};

fn abc() -> (Arena<&'static str>, NodeId, NodeId, NodeId, NodeId) {
    let mut arena = Arena::new();
    let r = arena.new_node("R");
    let a = arena.new_node("A");
    let b = arena.new_node("B");
    let c = arena.new_node("C");
    r.append(a, &mut arena);
    r.append(b, &mut arena);
    r.append(c, &mut arena);
    (arena, r, a, b, c)
}

#[test]
fn traversal_correctness() {
    let (arena, r, a, b, c) = abc();
    assert_eq!(r.children(&arena).into_vec(), vec![a, b, c]);
    assert_eq!(r.reverse_children(&arena).into_vec(), vec![c, b, a]);
    assert_eq!(a.following_siblings(&arena).into_vec(), vec![a, b, c]);
    assert_eq!(c.preceding_siblings(&arena).into_vec(), vec![c, b, a]);
    assert_eq!(a.ancestors(&arena).into_vec(), vec![a, r]);
}

#[test]
fn walks_from_the_middle() {
    let (arena, r, a, b, c) = abc();
    assert_eq!(b.following_siblings(&arena).into_vec(), vec![b, c]);
    assert_eq!(b.preceding_siblings(&arena).into_vec(), vec![b, a]);
    assert_eq!(c.following_siblings(&arena).into_vec(), vec![c]);
    assert_eq!(a.preceding_siblings(&arena).into_vec(), vec![a]);
    assert_eq!(r.ancestors(&arena).into_vec(), vec![r]);
    assert_eq!(r.following_siblings(&arena).into_vec(), vec![r]);
    assert_eq!(r.preceding_siblings(&arena).into_vec(), vec![r]);
    assert_eq!(a.children(&arena).into_vec(), Vec::<NodeId>::new());
    assert_eq!(a.reverse_children(&arena).into_vec(), Vec::<NodeId>::new());
}

#[test]
fn walks_are_lazy_and_can_be_started_again() {
    let (arena, r, a, b, c) = abc();
    let mut walk = r.children(&arena);
    assert_eq!(walk.next(), Some(a));
    assert_eq!(walk.next(), Some(b));
    let mut again = r.children(&arena);
    assert_eq!(again.next(), Some(a));
    assert_eq!(walk.next(), Some(c));
    assert_eq!(walk.next(), None);
    assert_eq!(walk.next(), None);
    assert_eq!(again.into_vec(), vec![b, c]);
}

#[test]
fn walks_from_a_stale_identifier_are_empty() {
    let (mut arena, r, a, b, c) = abc();
    b.remove(&mut arena);
    assert_eq!(b.ancestors(&arena).into_vec(), Vec::<NodeId>::new());
    assert_eq!(b.children(&arena).into_vec(), Vec::<NodeId>::new());
    assert_eq!(b.reverse_children(&arena).into_vec(), Vec::<NodeId>::new());
    assert_eq!(b.following_siblings(&arena).into_vec(), Vec::<NodeId>::new());
    assert_eq!(b.preceding_siblings(&arena).into_vec(), Vec::<NodeId>::new());
    assert_eq!(b.descendants(&arena).into_vec(), Vec::<NodeId>::new());
    assert_eq!(b.descendants(&arena).next(), None);
    assert_eq!(r.children(&arena).into_vec(), vec![a, c]);
}

#[test]
fn descendants_go_in_pre_order() {
    let mut arena = Arena::new();
    let n1 = arena.new_node(1);
    let n1_1 = arena.new_node(11);
    let n1_1_1 = arena.new_node(111);
    let n1_1_1_1 = arena.new_node(1111);
    let n1_2 = arena.new_node(12);
    let n1_2_1 = arena.new_node(121);
    let n1_2_2 = arena.new_node(122);
    let n1_3 = arena.new_node(13);
    n1.append(n1_1, &mut arena);
    n1_1.append(n1_1_1, &mut arena);
    n1_1_1.append(n1_1_1_1, &mut arena);
    n1.append(n1_2, &mut arena);
    n1_2.append(n1_2_1, &mut arena);
    n1_2.append(n1_2_2, &mut arena);
    n1.append(n1_3, &mut arena);
    assert_eq!(
        n1.descendants(&arena).into_vec(),
        vec![n1, n1_1, n1_1_1, n1_1_1_1, n1_2, n1_2_1, n1_2_2, n1_3]
    );
    assert_eq!(n1_2.descendants(&arena).into_vec(), vec![n1_2, n1_2_1, n1_2_2]);
    assert_eq!(n1_3.descendants(&arena).into_vec(), vec![n1_3]);
    let mut walk = n1_1.descendants(&arena);
    assert_eq!(walk.next(), Some(n1_1));
    assert_eq!(walk.next(), Some(n1_1_1));
    assert_eq!(walk.next(), Some(n1_1_1_1));
    assert_eq!(walk.next(), None);
    assert_eq!(walk.next(), None);
    assert_eq!(n1_1_1_1.ancestors(&arena).into_vec(), vec![n1_1_1_1, n1_1_1, n1_1, n1]);
}

#[test]
fn ancestors_can_be_asked_for() {
    let (mut arena, r, a, b, c) = abc();
    let a1 = arena.new_node("A1");
    a.append(a1, &mut arena);
    assert!(r.is_ancestor_or_self_of(a1, &arena));
    assert!(a.is_ancestor_or_self_of(a1, &arena));
    assert!(a1.is_ancestor_or_self_of(a1, &arena));
    assert!(!b.is_ancestor_or_self_of(a1, &arena));
    assert!(!a1.is_ancestor_or_self_of(a, &arena));
    assert!(!a1.is_ancestor_or_self_of(r, &arena));
    assert!(r.is_ancestor_or_self_of(r, &arena));
    c.remove(&mut arena);
    assert!(!c.is_ancestor_or_self_of(c, &arena));
    assert!(!r.is_ancestor_or_self_of(c, &arena));
    assert!(!c.is_ancestor_or_self_of(a1, &arena));
}

#[test]
fn a_move_under_a_descendant_can_be_told_beforehand() {
    let (mut arena, r, a, _b, _c) = abc();
    let a1 = arena.new_node("A1");
    a.append(a1, &mut arena);
    let mut moves = 0;
    for (parent, child) in [(a1, r), (a1, a), (a, a), (r, a1), (a1, a1)] {
        if !child.is_ancestor_or_self_of(parent, &arena) {
            assert!(parent.append(child, &mut arena));
            moves += 1;
        }
    }
    assert_eq!(moves, 1);
    assert_eq!(r.descendants(&arena).into_vec().len(), 5);
    assert_eq!(arena[a1].parent(), Some(r));
    assert_eq!(a.children(&arena).into_vec(), Vec::<NodeId>::new());
}
