use surveillance::ordering::{byte_order, stable_order};

#[test]
fn positions_are_sorted_and_equal_keys_keep_their_order() {
    let keys: Vec<u32> = vec![3, 1, 2, 1, 3, 0];
    assert_eq!(stable_order(&keys), vec![5, 1, 3, 2, 0, 4]);
    let none: Vec<u32> = vec![];
    assert!(stable_order(&none).is_empty());
}

#[test]
fn bytes_are_sorted_as_in_a_dictionary() {
    let keys: Vec<Vec<u8>> =
        ["b", "ab", "a", "", "abc", "B", "ä", "ab"].iter().map(|s| s.as_bytes().to_vec()).collect();
    let mut expected: Vec<usize> = (0..keys.len()).collect();
    expected.sort_by_key(|i| keys[*i].clone());
    assert_eq!(byte_order(&keys), expected);
    assert_eq!(stable_order(&keys), expected);
}
