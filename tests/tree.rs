use retained::Tree;

#[test]
fn test_insert() {
    let tree = Tree::<u32>::new(0);
    assert!(tree.nodes().root_id().is_some());
}

#[test]
fn depth_first_branches() {
    let mut tree = Tree::<u32>::new(0);
    let mut node = tree.root_slot();

    /*
        0
       / \
      1   4
     / \
    2   3
    */

    {
        let mut node = node.insert_child(1);

        let _ = node.insert_child(2);
        let _ = node.insert_child(3);
    }

    let _ = node.insert_child(4);

    assert_eq!(tree.nodes().len(), 5);

    let mut iter = tree.depth_first();

    assert_eq!(iter.next(), Some(&0));
    assert_eq!(iter.next(), Some(&1));
    assert_eq!(iter.next(), Some(&2));
    assert_eq!(iter.next(), Some(&3));
    assert_eq!(iter.next(), Some(&4));
    assert_eq!(iter.next(), None);
}

#[test]
fn depth_first_line() {
    /*
      0
      |
      1
      |
      2
      |
      3
      |
      4
    */
    let mut tree = Tree::<u32>::new(0);
    let mut node = tree.root_slot();
    let mut node = node.insert_child(1);
    let mut node = node.insert_child(2);
    let mut node = node.insert_child(3);
    let _ = node.insert_child(4);

    let mut iter = tree.depth_first();

    assert_eq!(iter.next(), Some(&0));
    assert_eq!(iter.next(), Some(&1));
    assert_eq!(iter.next(), Some(&2));
    assert_eq!(iter.next(), Some(&3));
    assert_eq!(iter.next(), Some(&4));
    assert_eq!(iter.next(), None);
}

#[test]
fn depth_first_wide_branch() {
    /*
          0
        __|__
       /  |  \
      1   6   7
      |       |
     / \      8
     2 4
     | |
     3 5
    */
    let mut tree = Tree::<u32>::new(0);
    let mut node = tree.root_slot();

    {
        let mut node = node.insert_child(1);

        {
            let mut node = node.insert_child(2);
            let _ = node.insert_child(3);
        }

        let mut node = node.insert_child(4);
        let _ = node.insert_child(5);
    }

    let _ = node.insert_child(6);

    {
        let mut node = node.insert_child(7);
        let _ = node.insert_child(8);
    }

    let mut iter = tree.depth_first();

    assert_eq!(iter.next(), Some(&0));
    assert_eq!(iter.next(), Some(&1));
    assert_eq!(iter.next(), Some(&2));
    assert_eq!(iter.next(), Some(&3));
    assert_eq!(iter.next(), Some(&4));
    assert_eq!(iter.next(), Some(&5));
    assert_eq!(iter.next(), Some(&6));
    assert_eq!(iter.next(), Some(&7));
    assert_eq!(iter.next(), Some(&8));
    assert_eq!(iter.next(), None);
}

#[test]
fn depth_first_deep_and_wide() {
    /*
          0
          |
          1
     _____|__
    /  |  |  \
    2  4  7   8
    |  |
    3  5
       |
       6
    */
    let mut tree = Tree::<u32>::new(0);
    let mut node = tree.root_slot();
    let mut node = node.insert_child(1);

    {
        let mut node = node.insert_child(2);
        let _ = node.insert_child(3);
    }

    {
        let mut node = node.insert_child(4);
        let mut node = node.insert_child(5);
        let _ = node.insert_child(6);
    }

    let _ = node.insert_child(7);
    let _ = node.insert_child(8);

    let mut iter = tree.depth_first();

    assert_eq!(iter.next(), Some(&0));
    assert_eq!(iter.next(), Some(&1));
    assert_eq!(iter.next(), Some(&2));
    assert_eq!(iter.next(), Some(&3));
    assert_eq!(iter.next(), Some(&4));
    assert_eq!(iter.next(), Some(&5));
    assert_eq!(iter.next(), Some(&6));
    assert_eq!(iter.next(), Some(&7));
    assert_eq!(iter.next(), Some(&8));
    assert_eq!(iter.next(), None);
}
