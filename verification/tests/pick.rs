use sticker_packer::pick::most_placed;

#[test]
fn most_placed_of_no_runs_is_empty() {
    assert_eq!(most_placed(Vec::<Vec<u8>>::new()), Vec::<u8>::new());
}

#[test]
fn most_placed_keeps_the_longest_run() {
    assert_eq!(most_placed(vec![vec![1], vec![2, 3, 4], vec![5, 6]]), vec![2, 3, 4]);
}

#[test]
fn most_placed_keeps_the_last_of_equal_runs() {
    assert_eq!(most_placed(vec![vec![1, 2], vec![3], vec![4, 5], vec![6]]), vec![4, 5]);
}

#[test]
fn most_placed_of_empty_runs_is_the_last_one() {
    assert_eq!(most_placed(vec![Vec::<u8>::new(), Vec::new()]), Vec::<u8>::new());
}
