use sticker_packer::par::{map_range, map_slice};

#[test]
fn map_range_in_order() {
    assert_eq!(map_range(5, |i| i * i), vec![0, 1, 4, 9, 16]);
    assert_eq!(map_range(0, |i| i), Vec::<usize>::new());
}

#[test]
fn map_slice_in_order() {
    let words = ["a", "bb", "ccc"];
    assert_eq!(map_slice(&words, |w| w.len()), vec![1, 2, 3]);
}
