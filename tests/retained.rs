use std::cell::RefCell;

use retained::{Node, NodeId, RetainedTree, VisitAction};

/// children[i] lists the payloads appended under the node with payload i.
fn builder(children: &Vec<Vec<u32>>, mut node: Node<'_, u32>) -> VisitAction {
    let v = *node.data().unwrap();
    let id = node.id();
    if node.nodes().first_child(id).is_none() {
        for c in &children[v as usize] {
            let _ = node.push_child(*c);
        }
    }
    VisitAction::Continue
}

fn shape() -> Vec<Vec<u32>> {
    // 0 -> {1 -> {2, 3}, 4}
    vec![vec![1, 4], vec![2, 3], vec![], vec![], vec![]]
}

fn payloads(tree: &RetainedTree<u32>) -> Vec<u32> {
    let mut out = Vec::new();
    let mut iter = tree.depth_first();
    while let Some(v) = iter.next() {
        out.push(*v);
    }
    out
}

#[test]
fn new_builds_through_the_visitor() {
    let ctx = shape();
    let tree = RetainedTree::new(&ctx, |_| 0u32, builder);
    assert_eq!(tree.nodes().len(), 5);
    assert_eq!(payloads(&tree), vec![0, 1, 2, 3, 4]);
    assert_eq!(tree.nodes().get(tree.root()), Some(&0));
}

#[test]
fn revisiting_does_not_duplicate() {
    let ctx = shape();
    let mut tree = RetainedTree::new(&ctx, |_| 0u32, builder);
    tree.visit(&ctx, builder);
    assert_eq!(tree.nodes().len(), 5);
    assert_eq!(payloads(&tree), vec![0, 1, 2, 3, 4]);
}

#[test]
fn pruned_subtree_is_skipped_but_kept() {
    let ctx = shape();
    let mut tree = RetainedTree::new(&ctx, |_| 0u32, builder);
    let seen: RefCell<Vec<(NodeId, u32)>> = RefCell::new(Vec::new());
    tree.visit(&ctx, |_, node: Node<'_, u32>| {
        let v = *node.data().unwrap();
        seen.borrow_mut().push((node.id(), v));
        if v == 1 {
            VisitAction::Prune
        } else {
            VisitAction::Continue
        }
    });
    let seen = seen.into_inner();
    let order: Vec<u32> = seen.iter().map(|p| p.1).collect();
    assert_eq!(order, vec![0, 1, 4]);
    let one = seen[1].0;
    let kids = tree.nodes().children(one);
    assert_eq!(kids.len(), 2);
    assert_eq!(tree.nodes().get(kids[0]), Some(&2));
    assert_eq!(tree.nodes().get(kids[1]), Some(&3));
}

#[test]
fn next_to_visit_by_action() {
    let ctx = shape();
    let tree = RetainedTree::new(&ctx, |_| 0u32, builder);
    let root = tree.root();
    let one = tree.nodes().first_child(root).unwrap();
    let four = tree.nodes().last_child(root).unwrap();
    let two = tree.nodes().first_child(one).unwrap();
    assert_eq!(tree.next_to_visit(one, VisitAction::Continue), Some(two));
    assert_eq!(tree.next_to_visit(one, VisitAction::Prune), Some(four));
    assert_eq!(tree.next_to_visit(root, VisitAction::Prune), None);
    assert_eq!(tree.next_to_visit(four, VisitAction::Continue), None);
}

#[test]
fn children_appended_by_a_visit_are_visited_in_that_pass() {
    let ctx = shape();
    let mut tree = RetainedTree::new(&ctx, |_| 0u32, |_, _| VisitAction::Continue);
    assert_eq!(tree.nodes().len(), 1);
    let seen: RefCell<Vec<u32>> = RefCell::new(Vec::new());
    tree.visit(&ctx, |c: &Vec<Vec<u32>>, node: Node<'_, u32>| {
        seen.borrow_mut().push(*node.data().unwrap());
        builder(c, node)
    });
    assert_eq!(seen.into_inner(), vec![0, 1, 2, 3, 4]);
}
