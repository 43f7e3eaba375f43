use generational_indextree::{Arena, NodeId};

fn children_of(arena: &Arena<&'static str>, id: NodeId) -> Vec<&'static str> {
    id.children(arena).into_vec().iter().map(|c| *arena[*c].get()).collect()
}

fn family() -> (Arena<&'static str>, NodeId, NodeId, NodeId, NodeId) {
    let mut arena = Arena::new();
    let r = arena.new_node("R");
    let a = arena.new_node("A");
    let b = arena.new_node("B");
    let c = arena.new_node("C");
    assert!(r.append(a, &mut arena));
    assert!(r.append(b, &mut arena));
    assert!(r.append(c, &mut arena));
    (arena, r, a, b, c)
}

#[test]
fn append_links_all_neighbours() {
    let (arena, r, a, b, c) = family();
    let root = arena.get(r).unwrap().get_links();
    assert_eq!(root.parent, None);
    assert_eq!(root.first_child, Some(a));
    assert_eq!(root.last_child, Some(c));
    assert_eq!(root.previous_sibling, None);
    assert_eq!(root.next_sibling, None);
    let la = arena.get(a).unwrap().get_links();
    assert_eq!(la.parent, Some(r));
    assert_eq!(la.previous_sibling, None);
    assert_eq!(la.next_sibling, Some(b));
    let lb = arena.get(b).unwrap().get_links();
    assert_eq!(lb.parent, Some(r));
    assert_eq!(lb.previous_sibling, Some(a));
    assert_eq!(lb.next_sibling, Some(c));
    let lc = arena.get(c).unwrap().get_links();
    assert_eq!(lc.parent, Some(r));
    assert_eq!(lc.previous_sibling, Some(b));
    assert_eq!(lc.next_sibling, None);
    assert_eq!(lc.first_child, None);
    assert_eq!(lc.last_child, None);
}

#[test]
fn prepend_puts_the_child_first() {
    let mut arena = Arena::new();
    let r = arena.new_node("R");
    let a = arena.new_node("A");
    let b = arena.new_node("B");
    let c = arena.new_node("C");
    assert!(r.prepend(a, &mut arena));
    assert!(r.prepend(b, &mut arena));
    assert!(r.prepend(c, &mut arena));
    assert_eq!(children_of(&arena, r), vec!["C", "B", "A"]);
    assert_eq!(arena[r].first_child(), Some(c));
    assert_eq!(arena[r].last_child(), Some(a));
    assert_eq!(arena[b].previous_sibling(), Some(c));
    assert_eq!(arena[b].next_sibling(), Some(a));
}

#[test]
fn insert_after_in_the_middle_and_at_the_end() {
    let (mut arena, r, a, _b, c) = family();
    let x = arena.new_node("X");
    let y = arena.new_node("Y");
    assert!(a.insert_after(x, &mut arena));
    assert_eq!(children_of(&arena, r), vec!["A", "X", "B", "C"]);
    assert!(c.insert_after(y, &mut arena));
    assert_eq!(children_of(&arena, r), vec!["A", "X", "B", "C", "Y"]);
    assert_eq!(arena[r].last_child(), Some(y));
    assert_eq!(arena[x].parent(), Some(r));
    assert_eq!(arena[x].previous_sibling(), Some(a));
    assert_eq!(arena[a].next_sibling(), Some(x));
    assert_eq!(arena[y].next_sibling(), None);
}

#[test]
fn insert_before_in_the_middle_and_at_the_front() {
    let (mut arena, r, a, b, _c) = family();
    let x = arena.new_node("X");
    let y = arena.new_node("Y");
    assert!(b.insert_before(x, &mut arena));
    assert_eq!(children_of(&arena, r), vec!["A", "X", "B", "C"]);
    assert!(a.insert_before(y, &mut arena));
    assert_eq!(children_of(&arena, r), vec!["Y", "A", "X", "B", "C"]);
    assert_eq!(arena[r].first_child(), Some(y));
    assert_eq!(arena[y].previous_sibling(), None);
    assert_eq!(arena[a].previous_sibling(), Some(y));
    assert_eq!(arena[x].next_sibling(), Some(b));
}

#[test]
fn moving_a_child_within_its_parent() {
    let (mut arena, r, a, b, c) = family();
    assert!(r.append(a, &mut arena));
    assert_eq!(children_of(&arena, r), vec!["B", "C", "A"]);
    assert!(r.prepend(a, &mut arena));
    assert_eq!(children_of(&arena, r), vec!["A", "B", "C"]);
    assert!(a.insert_before(c, &mut arena));
    assert_eq!(children_of(&arena, r), vec!["C", "A", "B"]);
    assert!(c.insert_after(b, &mut arena));
    assert_eq!(children_of(&arena, r), vec!["C", "B", "A"]);
    assert!(b.insert_after(c, &mut arena));
    assert_eq!(children_of(&arena, r), vec!["B", "C", "A"]);
    assert!(r.append(a, &mut arena));
    assert_eq!(children_of(&arena, r), vec!["B", "C", "A"]);
    assert_eq!(arena.count(), 4);
}

#[test]
fn moving_a_subtree_keeps_its_children() {
    let (mut arena, r, a, b, c) = family();
    let a1 = arena.new_node("A1");
    let a2 = arena.new_node("A2");
    a.append(a1, &mut arena);
    a.append(a2, &mut arena);
    assert!(c.append(a, &mut arena));
    assert_eq!(children_of(&arena, r), vec!["B", "C"]);
    assert_eq!(children_of(&arena, c), vec!["A"]);
    assert_eq!(children_of(&arena, a), vec!["A1", "A2"]);
    assert_eq!(arena[a].parent(), Some(c));
    assert_eq!(arena[a1].parent(), Some(a));
    assert_eq!(arena[b].previous_sibling(), None);
    assert_eq!(arena[r].first_child(), Some(b));
    let up: Vec<&str> = a2.ancestors(&arena).into_vec().iter().map(|n| *arena[*n].get()).collect();
    assert_eq!(up, vec!["A2", "A", "C", "R"]);
}

#[test]
fn detach_independence() {
    let mut arena = Arena::new();
    let r = arena.new_node("R");
    let a = arena.new_node("A");
    let b = arena.new_node("B");
    let a1 = arena.new_node("A1");
    r.append(a, &mut arena);
    r.append(b, &mut arena);
    a.append(a1, &mut arena);
    assert!(a.detach(&mut arena));
    assert_eq!(children_of(&arena, r), vec!["B"]);
    assert_eq!(arena.get(a).unwrap().parent(), None);
    assert_eq!(arena.get(a).unwrap().previous_sibling(), None);
    assert_eq!(arena.get(a).unwrap().next_sibling(), None);
    assert_eq!(*arena.get(a).unwrap().get(), "A");
    assert_eq!(children_of(&arena, a), vec!["A1"]);
    assert_eq!(arena.get(a1).unwrap().parent(), Some(a));
    assert_eq!(arena.get(r).unwrap().first_child(), Some(b));
    assert_eq!(arena.get(r).unwrap().last_child(), Some(b));
    assert_eq!(arena.get(b).unwrap().previous_sibling(), None);
    assert_eq!(arena.count(), 4);
}

#[test]
fn detach_of_a_middle_and_of_a_last_child() {
    let (mut arena, r, a, b, c) = family();
    assert!(b.detach(&mut arena));
    assert_eq!(children_of(&arena, r), vec!["A", "C"]);
    assert_eq!(arena[a].next_sibling(), Some(c));
    assert_eq!(arena[c].previous_sibling(), Some(a));
    assert!(c.detach(&mut arena));
    assert_eq!(children_of(&arena, r), vec!["A"]);
    assert_eq!(arena[r].last_child(), Some(a));
    assert_eq!(arena[a].next_sibling(), None);
    assert!(a.detach(&mut arena));
    assert_eq!(children_of(&arena, r), Vec::<&str>::new());
    assert_eq!(arena[r].first_child(), None);
    assert_eq!(arena[r].last_child(), None);
}

#[test]
fn detach_of_a_root_does_nothing() {
    let (mut arena, r, _a, _b, _c) = family();
    let before = arena.clone();
    assert!(!r.detach(&mut arena));
    assert!(arena == before);
    assert_eq!(children_of(&arena, r), vec!["A", "B", "C"]);
}

#[test]
fn stale_identifiers_make_every_operation_a_no_op() {
    let (mut arena, r, a, _b, _c) = family();
    let gone = arena.new_node("gone");
    gone.remove(&mut arena);
    let before = arena.clone();
    assert!(!gone.detach(&mut arena));
    assert!(!r.append(gone, &mut arena));
    assert!(!gone.append(a, &mut arena));
    assert!(!r.prepend(gone, &mut arena));
    assert!(!gone.prepend(a, &mut arena));
    assert!(!a.insert_after(gone, &mut arena));
    assert!(!gone.insert_after(a, &mut arena));
    assert!(!a.insert_before(gone, &mut arena));
    assert!(!gone.insert_before(a, &mut arena));
    assert!(!gone.remove(&mut arena));
    assert!(arena == before);
    assert_eq!(children_of(&arena, r), vec!["A", "B", "C"]);
    assert_eq!(arena[a].parent(), Some(r));
    assert_eq!(arena.count(), 4);
}

#[test]
fn a_root_has_no_list_of_siblings_to_insert_into() {
    let (mut arena, r, _a, _b, _c) = family();
    let x = arena.new_node("X");
    assert!(!r.insert_after(x, &mut arena));
    assert!(!r.insert_before(x, &mut arena));
    assert_eq!(arena[x].parent(), None);
    assert_eq!(arena[r].next_sibling(), None);
    assert_eq!(arena[r].previous_sibling(), None);
}

#[test]
fn removal_cascades() {
    let mut arena = Arena::new();
    let top = arena.new_node("top");
    let other = arena.new_node("other");
    let r = arena.new_node("R");
    let a = arena.new_node("A");
    let b = arena.new_node("B");
    let c = arena.new_node("C");
    let b1 = arena.new_node("B1");
    let b2 = arena.new_node("B2");
    let b11 = arena.new_node("B11");
    top.append(other, &mut arena);
    top.append(r, &mut arena);
    r.append(a, &mut arena);
    r.append(b, &mut arena);
    r.append(c, &mut arena);
    b.append(b1, &mut arena);
    b.append(b2, &mut arena);
    b1.append(b11, &mut arena);
    assert_eq!(arena.count(), 9);
    assert!(r.remove(&mut arena));
    assert_eq!(arena.count(), 2);
    for id in [r, a, b, c, b1, b2, b11] {
        assert!(arena.get(id).is_none());
    }
    assert_eq!(children_of(&arena, top), vec!["other"]);
    assert_eq!(arena[top].last_child(), Some(other));
    assert_eq!(arena[other].next_sibling(), None);
    assert_eq!(arena.ids(), vec![top, other]);
}

#[test]
fn removing_a_leaf_removes_one_node() {
    let (mut arena, r, a, b, c) = family();
    assert!(b.remove(&mut arena));
    assert_eq!(arena.count(), 3);
    assert_eq!(children_of(&arena, r), vec!["A", "C"]);
    assert_eq!(arena[a].next_sibling(), Some(c));
    assert_eq!(arena[c].previous_sibling(), Some(a));
}

#[test]
fn removing_a_deep_chain_needs_no_deep_recursion() {
    let mut arena = Arena::new();
    let root = arena.new_node(0u32);
    let mut last = root;
    for k in 1..200_000u32 {
        let next = arena.new_node(k);
        last.append(next, &mut arena);
        last = next;
    }
    assert_eq!(arena.count(), 200_000);
    assert_eq!(root.descendants(&arena).into_vec().len(), 200_000);
    assert_eq!(last.ancestors(&arena).into_vec().len(), 200_000);
    assert!(root.remove(&mut arena));
    assert_eq!(arena.count(), 0);
    assert!(arena.get(last).is_none());
}
