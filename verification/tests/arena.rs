use mcts::{NodeId, Tree};

#[test]
fn validate_sample_tree() {
    let mut tree = Tree::<u8>::new();
    let node0 = tree.insert(0, None);
    let node1 = tree.insert(1, node0);
    let node2 = tree.insert(2, node0);
    let _node3 = tree.insert(3, node1);
    let _node4 = tree.insert(4, node1);
    let node5 = tree.insert(5, node2);
    let node6 = tree.insert(6, node2);
    let _node7 = tree.insert(7, node5);
    let _node8 = tree.insert(8, node6);
    let node9 = tree.insert(9, node6);

    let expected = vec![9, 6, 2, 0];
    let ancestors = node9
        .unwrap()
        .ancestors(&tree)
        .iter()
        .filter_map(|id| tree.get(*id).map(|node| *node.data()))
        .collect::<Vec<_>>();
    assert_eq!(ancestors, expected);

    let expected = vec![1, 2];
    let children = node0
        .and_then(|id| tree.get(id))
        .map(|node| node.children().clone())
        .unwrap_or_default()
        .iter()
        .filter_map(|id| tree.get(*id).map(|node| *node.data()))
        .collect::<Vec<_>>();
    assert_eq!(children, expected);

    let expected = vec![0, 2, 6, 9];
    let mut walk = node0
        .unwrap()
        .traverse_by(&tree, |a: &mcts::Node<u8>, b: &mcts::Node<u8>| {
            a.data().cmp(b.data())
        });
    let mut max_value_children = Vec::new();
    while let Some(id) = walk.next(&tree) {
        if let Some(node) = tree.get(id) {
            max_value_children.push(*node.data());
        }
    }
    assert_eq!(max_value_children, expected);
}

#[test]
fn second_root_is_refused() {
    let mut tree = Tree::<u8>::new();
    let root = tree.insert(1, None);
    assert_eq!(root, Some(NodeId(0)));
    assert_eq!(tree.insert(2, None), None);
    assert_eq!(tree.len(), 1);
}

#[test]
fn unknown_parent_is_refused() {
    let mut tree = Tree::<u8>::new();
    let root = tree.insert(1, None);
    assert_eq!(root, Some(NodeId(0)));
    assert_eq!(tree.insert(2, Some(NodeId(7))), None);
    assert_eq!(tree.len(), 1);
}

#[test]
fn get_out_of_range_is_absent() {
    let mut tree = Tree::<u8>::new();
    assert!(tree.get(NodeId(0)).is_none());
    tree.insert(1, None);
    assert!(tree.get(NodeId(0)).is_some());
    assert!(tree.get(NodeId(99)).is_none());
}

#[test]
fn ancestors_of_grandchild() {
    // identifiers 0, 1, 2, 3 in insertion order; 3's parent is 1
    let mut tree = Tree::<u8>::new();
    let root = tree.insert(10, None).unwrap();
    let child1 = tree.insert(11, Some(root)).unwrap();
    let child2 = tree.insert(12, Some(root)).unwrap();
    let grandchild = tree.insert(13, Some(child1)).unwrap();
    assert_eq!(root, NodeId(0));
    assert_eq!(child1, NodeId(1));
    assert_eq!(child2, NodeId(2));
    assert_eq!(grandchild, NodeId(3));
    let walk = grandchild.ancestors(&tree);
    assert_eq!(walk, vec![NodeId(3), NodeId(1), NodeId(0)]);
}

#[test]
fn ancestor_iterator_is_restartable() {
    let mut tree = Tree::<u8>::new();
    let root = tree.insert(10, None).unwrap();
    let child = tree.insert(11, Some(root)).unwrap();
    let mut first = mcts::arena::AncestorIterator::new(child);
    assert_eq!(first.next(&tree), Some(child));
    assert_eq!(first.next(&tree), Some(root));
    assert_eq!(first.next(&tree), None);
    let mut again = mcts::arena::AncestorIterator::new(child);
    assert_eq!(again.next(&tree), Some(child));
    assert_eq!(again.next(&tree), Some(root));
    assert_eq!(again.next(&tree), None);
}

#[test]
fn breadth_first_visits_levels_in_order() {
    let mut tree = Tree::<u8>::new();
    let node0 = tree.insert(0, None);
    let node1 = tree.insert(1, node0);
    let node2 = tree.insert(2, node0);
    let _node3 = tree.insert(3, node1);
    let _node4 = tree.insert(4, node1);
    let node5 = tree.insert(5, node2);
    let node6 = tree.insert(6, node2);
    let _node7 = tree.insert(7, node5);
    let _node8 = tree.insert(8, node6);
    let _node9 = tree.insert(9, node6);

    let mut walk = mcts::arena::BreadthFirstIterator::new(node0.unwrap());
    let mut visited = Vec::new();
    while let Some(id) = walk.next(&tree) {
        if let Some(node) = tree.get(id) {
            visited.push(*node.data());
        }
    }
    assert_eq!(visited, vec![0, 1, 2, 3, 4, 5, 6, 7, 8, 9]);
}
