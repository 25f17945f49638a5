use hermis::bst::cfd;
use hermis::distribution::build;
use hermis::SamplingError;

#[test]
fn cumulative_sums_of_three_weights() {
    assert_eq!(cfd(vec![2, 5, 10]), vec![2, 7, 17]);
    assert_ne!(cfd(vec![2, 5, 10]), vec![2, 7, 19]);
}

#[test]
fn the_last_sum_is_the_total() {
    let weights = vec![3, 0, 4, 1, 0, 9];
    let sums = cfd(weights.clone());
    assert_eq!(*sums.last().unwrap(), weights.iter().sum::<u64>());
    assert_eq!(sums, vec![3, 3, 7, 8, 8, 17]);
}

#[test]
fn an_empty_list_has_an_empty_distribution() {
    assert_eq!(cfd(Vec::new()), Vec::<u64>::new());
    assert_eq!(build(&Vec::new()), Ok(Vec::new()));
}

#[test]
fn zero_weights_leave_the_sums_flat() {
    assert_eq!(cfd(vec![0, 0, 0]), vec![0, 0, 0]);
    assert_eq!(cfd(vec![0, 4, 0]), vec![0, 4, 4]);
}

#[test]
fn a_single_weight_is_its_own_distribution() {
    assert_eq!(cfd(vec![u64::MAX]), vec![u64::MAX]);
    assert_eq!(build(&vec![u64::MAX]), Ok(vec![u64::MAX]));
}

#[test]
fn build_agrees_with_cfd_where_the_total_fits() {
    let weights = vec![5, 2, 8, 1];
    assert_eq!(build(&weights), Ok(cfd(weights.clone())));
    assert_eq!(build(&weights), Ok(vec![5, 7, 15, 16]));
}

#[test]
fn build_reports_an_overflowing_total() {
    assert_eq!(build(&vec![u64::MAX, 1]), Err(SamplingError::WeightOverflow));
    assert_eq!(build(&vec![1, u64::MAX - 1, 1]), Err(SamplingError::WeightOverflow));
    assert_eq!(build(&vec![u64::MAX - 1, 1, 0]), Ok(vec![u64::MAX - 1, u64::MAX, u64::MAX]));
}

#[test]
fn every_error_has_its_own_label() {
    let labels = [
        SamplingError::EmptyInput.label(),
        SamplingError::NoItemsAvailable.label(),
        SamplingError::ItemNotFound.label(),
        SamplingError::WeightOverflow.label(),
    ];
    assert_eq!(labels[0], "no items were offered");
    assert_eq!(labels[1], "no selectable items remain");
    assert_eq!(labels[2], "the item is not in the tree");
    assert_eq!(labels[3], "the weights overflow a 64-bit total");
}
