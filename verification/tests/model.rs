use generational_indextree::{Arena, NodeId};
use std::collections::HashMap;

struct Plain {
    parent: HashMap<NodeId, Option<NodeId>>,
    kids: HashMap<NodeId, Vec<NodeId>>,
    data: HashMap<NodeId, u64>,
    removed: Vec<NodeId>,
}

impl Plain {
    fn new() -> Plain {
        Plain { parent: HashMap::new(), kids: HashMap::new(), data: HashMap::new(), removed: Vec::new() }
    }

    fn live(&self, id: NodeId) -> bool {
        self.parent.contains_key(&id)
    }

    fn add(&mut self, id: NodeId, data: u64) {
        assert!(!self.live(id));
        assert!(!self.removed.contains(&id));
        self.parent.insert(id, None);
        self.kids.insert(id, Vec::new());
        self.data.insert(id, data);
    }

    fn detach(&mut self, id: NodeId) -> bool {
        match self.parent.get(&id).copied() {
            Some(Some(p)) => {
                self.kids.get_mut(&p).unwrap().retain(|k| *k != id);
                self.parent.insert(id, None);
                true
            }
            _ => false,
        }
    }

    fn is_ancestor_or_self(&self, ancestor: NodeId, id: NodeId) -> bool {
        let mut at = Some(id);
        while let Some(n) = at {
            if n == ancestor {
                return true;
            }
            at = self.parent[&n];
        }
        false
    }

    fn place(&mut self, child: NodeId, parent: NodeId, position: usize) {
        self.kids.get_mut(&parent).unwrap().insert(position, child);
        self.parent.insert(child, Some(parent));
    }

    fn position(&self, id: NodeId) -> (NodeId, usize) {
        let p = self.parent[&id].unwrap();
        (p, self.kids[&p].iter().position(|k| *k == id).unwrap())
    }

    fn subtree(&self, id: NodeId) -> Vec<NodeId> {
        let mut all = vec![id];
        let mut next = 0;
        while next < all.len() {
            let n = all[next];
            all.extend(self.kids[&n].iter().copied());
            next += 1;
        }
        all
    }

    fn remove(&mut self, id: NodeId) -> usize {
        self.detach(id);
        let gone = self.subtree(id);
        for n in gone.iter() {
            self.parent.remove(n);
            self.kids.remove(n);
            self.data.remove(n);
            self.removed.push(*n);
        }
        gone.len()
    }

    fn pre_order(&self, id: NodeId, out: &mut Vec<NodeId>) {
        out.push(id);
        for k in self.kids[&id].iter() {
            self.pre_order(*k, out);
        }
    }
}

fn agree_on(arena: &Arena<u64>, plain: &Plain, id: NodeId) {
    let node = arena.get(id).expect("a live node");
    assert_eq!(*node.get(), plain.data[&id]);
    assert_eq!(node.parent(), plain.parent[&id]);
    let kids = &plain.kids[&id];
    assert_eq!(&id.children(arena).into_vec(), kids);
    assert_eq!(node.first_child(), kids.first().copied());
    assert_eq!(node.last_child(), kids.last().copied());
    match plain.parent[&id] {
        Some(p) => {
            let siblings = &plain.kids[&p];
            let k = siblings.iter().position(|s| *s == id).unwrap();
            assert_eq!(node.previous_sibling(), if k > 0 { Some(siblings[k - 1]) } else { None });
            assert_eq!(node.next_sibling(), siblings.get(k + 1).copied());
            assert_eq!(id.following_siblings(arena).into_vec(), siblings[k..].to_vec());
            let mut before = siblings[..k + 1].to_vec();
            before.reverse();
            assert_eq!(id.preceding_siblings(arena).into_vec(), before);
        }
        None => {
            assert_eq!(node.previous_sibling(), None);
            assert_eq!(node.next_sibling(), None);
        }
    }
}

fn agree(arena: &Arena<u64>, plain: &Plain) {
    assert_eq!(arena.count(), plain.parent.len());
    let ids = arena.ids();
    assert_eq!(ids.len(), plain.parent.len());
    for k in 1..ids.len() {
        assert!(ids[k - 1].index < ids[k].index);
    }
    for id in ids.iter() {
        assert!(plain.live(*id));
        agree_on(arena, plain, *id);
        let mut back = id.reverse_children(arena).into_vec();
        back.reverse();
        assert_eq!(back, plain.kids[id]);
        let mut expected = Vec::new();
        plain.pre_order(*id, &mut expected);
        assert_eq!(id.descendants(arena).into_vec(), expected);
        let up = id.ancestors(arena).into_vec();
        let mut at = Some(*id);
        for a in up.iter() {
            assert_eq!(Some(*a), at);
            at = plain.parent[a];
        }
        assert_eq!(at, None);
    }
    for id in plain.removed.iter() {
        assert!(arena.get(*id).is_none());
    }
}

fn run(seed: u64, steps: usize, full_every: usize) {
    let mut state = seed;
    let mut next = move |bound: usize| -> usize {
        state = state.wrapping_mul(6364136223846793005).wrapping_add(1442695040888963407);
        ((state >> 33) as usize) % bound
    };
    let mut arena: Arena<u64> = Arena::new();
    let mut plain = Plain::new();
    let mut known: Vec<NodeId> = Vec::new();
    for step in 0..steps {
        let what = next(100);
        if known.len() < 2 || what < 22 {
            let data = step as u64;
            let id = arena.new_node(data);
            plain.add(id, data);
            known.push(id);
            agree_on(&arena, &plain, id);
        } else {
            let a = known[next(known.len())];
            let b = known[next(known.len())];
            let both = plain.live(a) && plain.live(b);
            let allowed = !both || !plain.is_ancestor_or_self(b, a);
            assert_eq!(b.is_ancestor_or_self_of(a, &arena), both && !allowed);
            if what < 32 {
                let done = a.detach(&mut arena);
                assert_eq!(done, plain.detach(a));
            } else if what < 42 {
                let expected = if plain.live(a) { plain.remove(a) } else { 0 };
                let before = arena.count();
                assert_eq!(a.remove(&mut arena), expected > 0);
                assert_eq!(arena.count() + expected, before);
            } else if !allowed {
                continue;
            } else if what < 58 {
                let done = a.append(b, &mut arena);
                assert_eq!(done, both);
                if both {
                    plain.detach(b);
                    let end = plain.kids[&a].len();
                    plain.place(b, a, end);
                }
            } else if what < 72 {
                let done = a.prepend(b, &mut arena);
                assert_eq!(done, both);
                if both {
                    plain.detach(b);
                    plain.place(b, a, 0);
                }
            } else if what < 86 {
                let done = a.insert_after(b, &mut arena);
                let can = both && plain.parent[&a].is_some();
                assert_eq!(done, can);
                if can {
                    plain.detach(b);
                    let (p, k) = plain.position(a);
                    plain.place(b, p, k + 1);
                }
            } else {
                let done = a.insert_before(b, &mut arena);
                let can = both && plain.parent[&a].is_some();
                assert_eq!(done, can);
                if can {
                    plain.detach(b);
                    let (p, k) = plain.position(a);
                    plain.place(b, p, k);
                }
            }
            if plain.live(a) {
                agree_on(&arena, &plain, a);
            }
            if plain.live(b) {
                agree_on(&arena, &plain, b);
            }
        }
        if step % full_every == 0 {
            agree(&arena, &plain);
        }
    }
    agree(&arena, &plain);
}

#[test]
fn random_runs_agree_with_a_plain_model() {
    run(1, 3000, 50);
    run(2, 3000, 50);
    run(0x5eed, 3000, 50);
}

#[test]
fn a_long_random_run_agrees_with_a_plain_model() {
    run(7, 40_000, 5_000);
}
