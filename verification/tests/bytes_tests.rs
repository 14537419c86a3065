use hash_tree::bytes::{append_bytes, bytes_eq, compare, copy_bytes, Rank};
use hash_tree::order::insert_ascending;

#[test]
fn compare_goes_by_the_first_byte_that_differs() {
    assert_eq!(compare(&[1, 2, 3], &[1, 3, 0]), Rank::Before);
    assert_eq!(compare(&[1, 3, 0], &[1, 2, 3]), Rank::After);
    assert_eq!(compare(&[255], &[0, 255]), Rank::After);
}

#[test]
fn compare_puts_a_prefix_first() {
    assert_eq!(compare(&[1, 2], &[1, 2, 0]), Rank::Before);
    assert_eq!(compare(&[1, 2, 0], &[1, 2]), Rank::After);
    assert_eq!(compare(&[], &[0]), Rank::Before);
}

#[test]
fn compare_finds_equal_strings_the_same() {
    assert_eq!(compare(&[], &[]), Rank::Same);
    assert_eq!(compare(&[4, 5, 6], &[4, 5, 6]), Rank::Same);
}

#[test]
fn compare_agrees_with_the_order_of_slices() {
    let all: Vec<Vec<u8>> = vec![vec![], vec![0], vec![0, 0], vec![0, 1], vec![1], vec![255, 0]];
    for a in &all {
        for b in &all {
            let expected = if a < b {
                Rank::Before
            } else if a == b {
                Rank::Same
            } else {
                Rank::After
            };
            assert_eq!(compare(a, b), expected);
        }
    }
}

#[test]
fn bytes_eq_tells_equal_from_different() {
    assert!(bytes_eq(&[], &[]));
    assert!(bytes_eq(&[1, 2], &[1, 2]));
    assert!(!bytes_eq(&[1, 2], &[1, 3]));
    assert!(!bytes_eq(&[1, 2], &[1, 2, 3]));
}

#[test]
fn copy_and_append_keep_the_bytes() {
    assert_eq!(copy_bytes(&[9, 8, 7]), vec![9, 8, 7]);
    let mut v = vec![1u8];
    append_bytes(&mut v, &[2, 3]);
    append_bytes(&mut v, &[]);
    assert_eq!(v, vec![1, 2, 3]);
}

#[test]
fn insert_ascending_keeps_the_order_and_skips_what_is_there() {
    let mut v: Vec<Vec<u8>> = vec![];
    insert_ascending(&mut v, &[5]);
    insert_ascending(&mut v, &[1]);
    insert_ascending(&mut v, &[9]);
    insert_ascending(&mut v, &[5]);
    insert_ascending(&mut v, &[5, 0]);
    assert_eq!(v, vec![vec![1], vec![5], vec![5, 0], vec![9]]);
}
