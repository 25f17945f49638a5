use hermis::bst::{cfd, delete, search_and_remove, BinarySearchTree, Node};
use hermis::{Feed, SamplingError};

fn make_feeds(weights: Vec<u64>) -> Vec<Feed> {
    weights
        .into_iter()
        .map(|weight| Feed::default().set_weight(weight))
        .collect()
}

fn tree_of(weights: Vec<u64>) -> Node<u64> {
    Node::try_from(weights).expect("empty list passed to tree")
}

#[test]
fn get_inorder() {
    let tree: Node<usize> = vec![3, 2, 5].try_into().unwrap();
    assert_eq!(vec![2, 3, 5], tree.get_inorder());
}

#[test]
fn sum_weights() {
    let summed_weights = cfd(vec![5, 2]);
    assert_eq!(summed_weights, vec![5, 7])
}

#[test]
fn insert_feeds_to_bst_and_select() {
    let cfd_weights = cfd(vec![2, 5, 10]);
    let feeds = make_feeds(cfd_weights.clone());
    let target = 20;
    let tree = Node::try_from(feeds).expect("empty list passed to tree");
    let feed = search_and_remove(&tree, target);
    assert_eq!(feed.get_ref().weight(), 17)
}

#[test]
fn search_resolves_an_exact_key_to_its_node() {
    for order in [vec![10, 5, 15], vec![5, 10, 15], vec![15, 10, 5], vec![10, 15, 5]] {
        let tree = tree_of(order);
        assert_eq!(*search_and_remove(&tree, 10).get_ref(), 10);
        assert_eq!(*search_and_remove(&tree, 5).get_ref(), 5);
        assert_eq!(*search_and_remove(&tree, 15).get_ref(), 15);
    }
}

#[test]
fn search_for_an_equal_key_stops_at_the_first_met() {
    let tree = tree_of(vec![10, 10, 4]);
    let found = search_and_remove(&tree, 10);
    assert_eq!(*found.get_ref(), 10);
    assert!(found.left().is_some());
    assert!(found.right().is_some());
}

#[test]
fn search_for_a_missing_key_ends_where_the_walk_leaves_the_tree() {
    let tree = tree_of(vec![10, 5, 15]);
    assert_eq!(*search_and_remove(&tree, 1).get_ref(), 5);
    assert_eq!(*search_and_remove(&tree, 7).get_ref(), 5);
    assert_eq!(*search_and_remove(&tree, 12).get_ref(), 15);
    assert_eq!(*search_and_remove(&tree, 99).get_ref(), 15);
    let spine = tree_of(vec![5, 10]);
    assert_eq!(*search_and_remove(&spine, 1).get_ref(), 5);
}

#[test]
fn search_in_a_single_node_returns_it() {
    let tree = Node::new(8u64);
    assert_eq!(*search_and_remove(&tree, 0).get_ref(), 8);
    assert_eq!(*search_and_remove(&tree, 8).get_ref(), 8);
    assert_eq!(*search_and_remove(&tree, 100).get_ref(), 8);
}

#[test]
fn a_tree_cannot_grow_from_nothing() {
    let grown: Result<Node<u64>, SamplingError> = Node::try_from(Vec::new());
    assert_eq!(grown.err(), Some(SamplingError::EmptyInput));
}

#[test]
fn the_first_item_becomes_the_root() {
    let tree = tree_of(vec![7, 3, 9, 8]);
    assert_eq!(*tree.get_ref(), 7);
    assert_eq!(*tree.left().unwrap().get_ref(), 3);
    let right = tree.right().unwrap();
    assert_eq!(*right.get_ref(), 9);
    assert_eq!(*right.left().unwrap().get_ref(), 8);
    assert!(right.right().is_none());
}

#[test]
fn equal_weights_go_to_the_right() {
    let tree = tree_of(vec![4, 4]);
    assert!(tree.left().is_none());
    assert_eq!(*tree.right().unwrap().get_ref(), 4);
}

#[test]
fn the_walk_is_sorted_whatever_the_arrival_order() {
    let tree = tree_of(vec![9, 1, 8, 2, 7, 3, 3, 0]);
    assert_eq!(tree.get_inorder(), vec![0, 1, 2, 3, 3, 7, 8, 9]);
    let by_ref: Vec<u64> = tree.inorder().into_iter().map(|item| *item).collect();
    assert_eq!(by_ref, vec![0, 1, 2, 3, 3, 7, 8, 9]);
}

#[test]
fn recursive_inorder_appends_to_what_is_there() {
    let tree = tree_of(vec![2, 1, 3]);
    let mut values = vec![42];
    Node::recursive_inorder(&mut values, &tree);
    assert_eq!(values, vec![42, 1, 2, 3]);
}

#[test]
fn has_children_is_true_of_a_node_without_any() {
    let leaf = Node::new(1u64);
    assert!(leaf.has_children());
    let tree = tree_of(vec![2, 1]);
    assert!(!tree.has_children());
    assert!(tree.left().unwrap().has_children());
}

#[test]
fn inserting_a_node_brings_its_subtree_along() {
    let mut tree = tree_of(vec![10]);
    tree.insert(tree_of(vec![4, 2, 6]));
    assert_eq!(tree.get_inorder(), vec![2, 4, 6, 10]);
    assert_eq!(*tree.left().unwrap().get_ref(), 4);
}

#[test]
fn get_ref_mut_changes_the_item_in_place() {
    let mut tree = tree_of(vec![5, 3, 8]);
    *tree.get_ref_mut() = 6;
    assert_eq!(*tree.get_ref(), 6);
    assert_eq!(tree.get_inorder(), vec![3, 6, 8]);
}

#[test]
fn the_default_node_is_a_leaf() {
    let node: Node<u64> = Node::default();
    assert_eq!(*node.get_ref(), 0);
    assert!(node.left().is_none());
    assert!(node.right().is_none());
}

#[test]
fn delete_takes_out_one_node_and_keeps_the_rest() {
    let leaf_gone = delete(Box::new(tree_of(vec![10, 5, 15, 12, 20])), 12).unwrap();
    assert_eq!(leaf_gone.get_inorder(), vec![5, 10, 15, 20]);
    let one_child = delete(Box::new(tree_of(vec![10, 5, 15, 12])), 15).unwrap();
    assert_eq!(one_child.get_inorder(), vec![5, 10, 12]);
    let two_children = delete(Box::new(tree_of(vec![10, 5, 15, 12, 20])), 15).unwrap();
    assert_eq!(two_children.get_inorder(), vec![5, 10, 12, 20]);
    let root_gone = delete(Box::new(tree_of(vec![10, 5, 15])), 10).unwrap();
    assert_eq!(root_gone.get_inorder(), vec![5, 15]);
    assert_eq!(*root_gone.get_ref(), 15);
}

#[test]
fn delete_of_a_missing_key_changes_nothing() {
    let rest = delete(Box::new(tree_of(vec![10, 5, 15])), 7).unwrap();
    assert_eq!(rest.get_inorder(), vec![5, 10, 15]);
    assert_eq!(*rest.get_ref(), 10);
}

#[test]
fn delete_of_the_only_node_leaves_nothing() {
    assert!(delete(Box::new(Node::new(3u64)), 3).is_none());
}

#[test]
fn delete_takes_one_of_two_equal_keys() {
    let rest = delete(Box::new(tree_of(vec![4, 4, 2])), 4).unwrap();
    assert_eq!(rest.get_inorder(), vec![2, 4]);
}

#[test]
fn an_empty_tree_takes_its_first_item_as_root() {
    let mut tree: BinarySearchTree<u64> = BinarySearchTree::default();
    assert!(tree.root().is_none());
    tree.insert(5);
    tree.insert(2);
    tree.insert(9);
    let root = tree.root().unwrap();
    assert_eq!(*root.get_ref(), 5);
    assert_eq!(root.get_inorder(), vec![2, 5, 9]);
}
