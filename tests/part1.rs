use rlu::{add_n, add_n_inplace, dedup, guess_matches};

#[test]
fn part1_test_password_checker() {
    assert!(guess_matches("Password1\n", "Password1"));
    assert!(!guess_matches("Password\n", "Password1"));
    assert!(!guess_matches("Password1", "Password1"));
    assert!(guess_matches("\n", ""));
}

#[test]
fn part1_test_add_n() {
    assert_eq!(add_n(vec![1], 2), vec![3]);
}

#[test]
fn part1_test_add_n_inplace() {
    let mut v = vec![1];
    add_n_inplace(&mut v, 2);
    assert_eq!(v, vec![3]);
}

#[test]
fn part1_test_dedup() {
    let mut v = vec![3, 1, 0, 1, 4, 4];
    dedup(&mut v);
    assert_eq!(v, vec![3, 1, 0, 4]);
}

#[test]
fn add_n_negative_and_empty() {
    assert_eq!(add_n(vec![], 5), Vec::<i32>::new());
    assert_eq!(add_n(vec![-3, 10, i32::MAX], -1), vec![-4, 9, i32::MAX - 1]);
    let mut v = vec![0, -7];
    add_n_inplace(&mut v, -3);
    assert_eq!(v, vec![-3, -10]);
}

#[test]
fn dedup_edges() {
    let mut v: Vec<i32> = vec![];
    dedup(&mut v);
    assert!(v.is_empty());
    let mut w = vec![5, 5, 5];
    dedup(&mut w);
    assert_eq!(w, vec![5]);
}
