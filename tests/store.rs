use retained::{NodeId, NodeStore, Tree};

fn sample() -> (NodeStore<u32>, Vec<NodeId>) {
    // 0 -> {1 -> {2, 3}, 4}
    let mut s = NodeStore::new();
    let n0 = s.insert_root(0);
    let n1 = s.insert_child(n0, 1);
    let n2 = s.insert_child(n1, 2);
    let n3 = s.insert_child(n1, 3);
    let n4 = s.insert_child(n0, 4);
    (s, vec![n0, n1, n2, n3, n4])
}

#[test]
fn single_root_after_inserts() {
    let (s, ids) = sample();
    let roots: Vec<&NodeId> = ids.iter().filter(|id| s.parent(**id).is_none()).collect();
    assert_eq!(roots, vec![&ids[0]]);
    assert_eq!(s.root_id(), Some(ids[0]));
    assert_eq!(s.len(), 5);
}

#[test]
fn children_in_insertion_order() {
    let (s, ids) = sample();
    assert_eq!(s.children(ids[0]), vec![ids[1], ids[4]]);
    assert_eq!(s.children(ids[1]), vec![ids[2], ids[3]]);
    assert_eq!(s.children(ids[2]), Vec::<NodeId>::new());
    assert_eq!(s.first_child(ids[1]), Some(ids[2]));
    assert_eq!(s.last_child(ids[1]), Some(ids[3]));
}

#[test]
fn single_child_is_first_and_last() {
    let mut s = NodeStore::new();
    let r = s.insert_root('r');
    let c = s.insert_child(r, 'c');
    assert_eq!(s.first_child(r), Some(c));
    assert_eq!(s.last_child(r), Some(c));
    assert_eq!(s.prev_sibling(c), None);
    assert_eq!(s.next_sibling(c), None);
}

#[test]
fn sibling_links_are_symmetric() {
    let (s, ids) = sample();
    for a in &ids {
        if let Some(b) = s.next_sibling(*a) {
            assert_eq!(s.prev_sibling(b), Some(*a));
        }
        if let Some(b) = s.prev_sibling(*a) {
            assert_eq!(s.next_sibling(b), Some(*a));
        }
    }
    assert_eq!(s.next_sibling(ids[1]), Some(ids[4]));
    assert_eq!(s.prev_sibling(ids[3]), Some(ids[2]));
}

#[test]
fn successor_climbs_ancestors() {
    let (s, ids) = sample();
    assert_eq!(s.successor(ids[0]), Some(ids[1]));
    assert_eq!(s.successor(ids[2]), Some(ids[3]));
    assert_eq!(s.successor(ids[3]), Some(ids[4]));
    assert_eq!(s.successor(ids[4]), None);
    assert_eq!(s.skip_subtree(ids[1]), Some(ids[4]));
    assert_eq!(s.skip_subtree(ids[0]), None);
    assert_eq!(s.last(), Some(ids[4]));
}

#[test]
fn walk_visits_each_node_once() {
    // chains and fans of up to fifty nodes
    for n in [5u32, 17, 50] {
        let mut s = NodeStore::new();
        let root = s.insert_root(0u32);
        let mut ids = vec![root];
        for i in 1..n {
            let parent = ids[(i as usize * 7 + 3) % ids.len()];
            ids.push(s.insert_child(parent, i));
        }
        let mut seen = Vec::new();
        let mut cur = s.root_id();
        while let Some(id) = cur {
            assert!(seen.len() < n as usize);
            seen.push(*s.get(id).unwrap());
            cur = s.successor(id);
        }
        seen.sort();
        assert_eq!(seen, (0..n).collect::<Vec<u32>>());
    }
}

#[test]
fn lone_root_is_first_and_last() {
    let tree = Tree::<u8>::new(5);
    assert_eq!(tree.get_last(), tree.nodes().root_id());
    let mut iter = tree.depth_first();
    assert_eq!(iter.next(), Some(&5));
    assert_eq!(iter.next(), None);
}

#[test]
fn stale_ids_have_no_successor() {
    let (s, _) = sample();
    assert_eq!(s.successor(NodeId { tag: 0, bits: 0 }), None);
    assert_eq!(s.skip_subtree(NodeId { tag: 0, bits: 0 }), None);
}

#[test]
fn last_follows_last_children() {
    let mut tree = Tree::<u8>::new(0);
    let mut root = tree.root_slot();
    {
        let mut a = root.insert_child(1);
        let _ = a.insert_child(2);
    }
    {
        let mut b = root.insert_child(3);
        let _ = b.insert_child(4);
        let _ = b.insert_child(5);
    }
    let last = tree.get_last().unwrap();
    assert_eq!(tree.nodes().get(last), Some(&5));
}

#[test]
fn foreign_ids_resolve_to_nothing() {
    let (a, ids) = sample();
    let mut b = NodeStore::new();
    let rb = b.insert_root(100u32);
    assert_eq!(b.get(ids[0]), None);
    assert_eq!(b.successor(ids[0]), None);
    assert_eq!(a.get(rb), None);
    assert_ne!(ids[0].tag, rb.tag);
    assert_eq!(ids[0].bits, rb.bits);
    assert_eq!(b.get(ids[3]), None);
    assert_eq!(b.get(ids[4]), None);
    assert!(!b.contains(ids[2]));
    assert_eq!(b.parent(ids[4]), None);
    assert_eq!(b.children(ids[3]), Vec::<NodeId>::new());
    assert_eq!(b.get(rb), Some(&100));
    assert_eq!(a.get(NodeId { tag: 0, bits: 0 }), None);
    assert_eq!(a.get(NodeId { tag: 0, bits: u64::MAX }), None);
}

#[test]
fn trees_built_alike_do_not_share_ids() {
    let a = Tree::<u32>::new(1);
    let b = Tree::<u32>::new(2);
    let ra = a.nodes().root_id().unwrap();
    let rb = b.nodes().root_id().unwrap();
    assert_ne!(ra, rb);
    assert_eq!(b.nodes().get(ra), None);
    assert_eq!(a.nodes().get(rb), None);
    let mut walk = retained::DepthFirst::new(b.nodes(), Some(ra));
    assert_eq!(walk.next(), None);
}
