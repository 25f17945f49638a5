use hermis::bst::cfd;
use hermis::tree::WeightedSearchTree;
use hermis::{SamplingError, WeightedItem};

fn tree_of(weights: Vec<u64>) -> WeightedSearchTree {
    WeightedSearchTree::from_items(&weights).expect("the weights fit")
}

#[test]
fn a_draw_equal_to_a_key_resolves_to_that_node() {
    let tree = tree_of(vec![6, 5, 5]);
    assert_eq!(tree.key_of(0), Some(5));
    assert_eq!(tree.key_of(1), Some(10));
    assert_eq!(tree.key_of(2), Some(15));
    assert_eq!(tree.locate(5), Ok(0));
    assert_eq!(tree.locate(10), Ok(1));
    assert_eq!(tree.locate(15), Ok(2));
}

#[test]
fn a_draw_just_past_a_key_resolves_to_the_next_node() {
    let tree = tree_of(vec![6, 5, 5]);
    assert_eq!(tree.locate(0), Ok(0));
    assert_eq!(tree.locate(6), Ok(1));
    assert_eq!(tree.locate(9), Ok(1));
    assert_eq!(tree.locate(11), Ok(2));
}

#[test]
fn every_point_below_the_total_has_one_owner() {
    let weights = vec![3, 0, 2, 0, 0, 4, 1];
    let tree = tree_of(weights.clone());
    let mut expected = Vec::new();
    for (index, weight) in weights.iter().enumerate() {
        for _ in 0..*weight {
            expected.push(index);
        }
    }
    let located: Vec<usize> = (0..10).map(|point| tree.locate(point).unwrap()).collect();
    assert_eq!(located, expected);
}

#[test]
fn a_draw_past_the_total_resolves_to_the_last_weight() {
    let tree = tree_of(vec![2, 3, 0]);
    assert_eq!(tree.total_weight(), 5);
    assert_eq!(tree.locate(5), Ok(1));
    assert_eq!(tree.locate(u64::MAX), Ok(1));
}

#[test]
fn nothing_is_located_in_an_empty_tree() {
    let tree = tree_of(Vec::new());
    assert_eq!(tree.len(), 0);
    assert_eq!(tree.total_weight(), 0);
    assert_eq!(tree.locate(0), Err(SamplingError::NoItemsAvailable));
}

#[test]
fn items_of_weight_zero_are_never_located() {
    let tree = tree_of(vec![0, 0, 0]);
    assert_eq!(tree.locate(0), Err(SamplingError::NoItemsAvailable));
    assert_eq!(tree.key_of(1), None);
    let mixed = tree_of(vec![0, 1, 0]);
    for point in 0..4 {
        assert_eq!(mixed.locate(point), Ok(1));
    }
}

#[test]
fn removal_takes_exactly_the_weight_of_the_item() {
    let mut tree = tree_of(vec![4, 7, 9]);
    assert_eq!(tree.total_weight(), 20);
    assert_eq!(tree.remove(1), Ok(()));
    assert_eq!(tree.total_weight(), 13);
    assert_eq!(tree.remove(0), Ok(()));
    assert_eq!(tree.total_weight(), 9);
    assert_eq!(tree.remove(2), Ok(()));
    assert_eq!(tree.total_weight(), 0);
    assert_eq!(tree.locate(0), Err(SamplingError::NoItemsAvailable));
}

#[test]
fn removal_closes_the_gap() {
    let mut tree = tree_of(vec![2, 3, 4]);
    assert_eq!(tree.remove(1), Ok(()));
    let located: Vec<usize> = (0..6).map(|point| tree.locate(point).unwrap()).collect();
    assert_eq!(located, vec![0, 0, 2, 2, 2, 2]);
    assert_eq!(tree.key_of(0), Some(1));
    assert_eq!(tree.key_of(1), None);
    assert_eq!(tree.key_of(2), Some(5));
}

#[test]
fn a_second_removal_is_rejected() {
    let mut tree = tree_of(vec![2, 3]);
    assert_eq!(tree.remove(0), Ok(()));
    assert_eq!(tree.remove(0), Err(SamplingError::ItemNotFound));
    assert_eq!(tree.total_weight(), 3);
    assert!(!tree.contains(0));
    assert!(tree.contains(1));
}

#[test]
fn a_handle_outside_the_tree_is_not_found() {
    let mut tree = tree_of(vec![2, 3]);
    assert_eq!(tree.remove(2), Err(SamplingError::ItemNotFound));
    assert_eq!(tree.weight_of(2), None);
    assert!(!tree.contains(2));
    let mut empty = tree_of(Vec::new());
    assert_eq!(empty.remove(0), Err(SamplingError::ItemNotFound));
}

#[test]
fn an_item_of_weight_zero_can_be_removed_once() {
    let mut tree = tree_of(vec![0, 5]);
    assert_eq!(tree.remove(0), Ok(()));
    assert_eq!(tree.total_weight(), 5);
    assert_eq!(tree.remove(0), Err(SamplingError::ItemNotFound));
}

#[test]
fn the_weight_of_an_item_outlives_its_removal() {
    let mut tree = tree_of(vec![2, 3]);
    assert_eq!(tree.weight_of(1), Some(3));
    assert_eq!(tree.remove(1), Ok(()));
    assert_eq!(tree.weight_of(1), Some(3));
}

#[test]
fn a_tree_is_not_built_over_an_overflowing_total() {
    let built = WeightedSearchTree::from_items(&vec![u64::MAX, 1]);
    assert_eq!(built.err(), Some(SamplingError::WeightOverflow));
    let full = tree_of(vec![u64::MAX - 1, 1]);
    assert_eq!(full.total_weight(), u64::MAX);
    assert_eq!(full.locate(u64::MAX - 1), Ok(1));
    assert_eq!(full.locate(u64::MAX - 2), Ok(0));
}

#[test]
fn a_tree_is_built_over_any_weighted_items() {
    let items = vec![WeightedItem::new("a", 1), WeightedItem::new("b", 0), WeightedItem::new("c", 2)];
    let tree = WeightedSearchTree::from_items(&items).expect("the weights fit");
    assert_eq!(tree.len(), 3);
    assert_eq!(tree.total_weight(), 3);
    assert_eq!(items[tree.locate(1).unwrap()].payload, "c");
}

#[test]
fn a_large_tree_resolves_every_item() {
    let weights: Vec<u64> = (0..1000).map(|index| index % 7).collect();
    let mut tree = tree_of(weights.clone());
    let mut start = 0;
    for (index, weight) in weights.iter().enumerate() {
        if *weight > 0 {
            assert_eq!(tree.locate(start), Ok(index));
            assert_eq!(tree.key_of(index), Some(start + weight - 1));
        }
        start += weight;
    }
    assert_eq!(tree.total_weight(), start);
    for index in (0..1000).step_by(2) {
        assert_eq!(tree.remove(index), Ok(()));
    }
    let left: u64 = weights.iter().enumerate().filter(|(index, _)| index % 2 == 1).map(|(_, w)| *w).sum();
    assert_eq!(tree.total_weight(), left);
    assert_eq!(tree.locate(0), Ok(1));
}

#[test]
fn the_keys_are_the_cumulative_sums_less_one() {
    let weights: Vec<u64> = vec![6, 5, 0, 5, 1];
    let tree = tree_of(weights.clone());
    let sums = cfd(weights.clone());
    for (index, weight) in weights.iter().enumerate() {
        if *weight > 0 {
            assert_eq!(tree.key_of(index), Some(sums[index] - 1));
        } else {
            assert_eq!(tree.key_of(index), None);
        }
    }
    assert_eq!(tree.total_weight(), *sums.last().unwrap());
}
