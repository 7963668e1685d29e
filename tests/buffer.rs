use rust_simd::buffer::{filled, transpose};

#[test]
fn transpose_interleaves_buffers() {
    let data = vec![vec![1, 2, 3], vec![4, 5, 6]];
    assert_eq!(transpose(&data), vec![1, 4, 2, 5, 3, 6]);
}

#[test]
fn transpose_of_nothing_is_empty() {
    let data: Vec<Vec<u32>> = Vec::new();
    assert!(transpose(&data).is_empty());
}

#[test]
fn transpose_uses_first_length() {
    let data = vec![vec![1, 2], vec![3, 4, 5]];
    assert_eq!(transpose(&data), vec![1, 3, 2, 4]);
}

#[test]
fn filled_repeats_value() {
    assert_eq!(filled(3u16, 4), vec![3, 3, 3, 3]);
    assert!(filled(3u16, 0).is_empty());
}
