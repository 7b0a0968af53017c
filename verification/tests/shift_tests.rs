use implicit::shift::{is_shifted_of, rotate_1};

#[test]
fn rotate_moves_first_to_end() {
    let mut v = vec![1, 2, 3, 4];
    rotate_1(&mut v[..]);
    assert_eq!(v, vec![2, 3, 4, 1]);
    let mut one = vec![5];
    rotate_1(&mut one[..]);
    assert_eq!(one, vec![5]);
}

#[test]
fn shifted_found_and_left_rotated() {
    let goal = [3, 4, 1, 2];
    let mut actual = vec![1, 2, 3, 4];
    assert!(is_shifted_of(&goal, &mut actual[..]));
    assert_eq!(actual, vec![3, 4, 1, 2]);
}

#[test]
fn not_shifted_restores_order() {
    let goal = [2, 1, 3];
    let mut actual = vec![1, 2, 3];
    assert!(!is_shifted_of(&goal, &mut actual[..]));
    assert_eq!(actual, vec![1, 2, 3]);
}

#[test]
fn different_lengths_are_not_shifted() {
    let goal = [1, 2];
    let mut actual = vec![1, 2, 3];
    assert!(!is_shifted_of(&goal, &mut actual[..]));
    let empty: [u8; 0] = [];
    let mut also_empty: Vec<u8> = vec![];
    assert!(!is_shifted_of(&empty, &mut also_empty[..]));
}
