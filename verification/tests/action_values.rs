use tabular_rl::action_values::{argmax, derive_policy, max_value, new_table};

#[test]
fn new_table_is_all_zero() {
    let q = new_table(3, 2);
    assert_eq!(q, vec![vec![0, 0], vec![0, 0], vec![0, 0]]);
    assert_eq!(new_table(0, 4), Vec::<Vec<i64>>::new());
    assert_eq!(new_table(2, 0), vec![Vec::<i64>::new(), Vec::new()]);
}

#[test]
fn argmax_takes_the_first_maximum() {
    assert_eq!(argmax(&vec![1, 5, 3]), 1);
    assert_eq!(argmax(&vec![7, 7, 7]), 0);
    assert_eq!(argmax(&vec![-3, -1, -1, -2]), 1);
    assert_eq!(argmax(&vec![0, 0, 1, 1]), 2);
    assert_eq!(argmax(&vec![42]), 0);
    assert_eq!(argmax(&vec![i64::MIN, i64::MAX, i64::MAX]), 1);
    assert_eq!(argmax(&Vec::new()), 0);
}

#[test]
fn max_value_is_the_largest_entry() {
    assert_eq!(max_value(&vec![1, 5, 3]), 5);
    assert_eq!(max_value(&vec![-3, -1, -2]), -1);
    assert_eq!(max_value(&vec![9]), 9);
}

#[test]
fn policy_is_the_argmax_of_every_row() {
    let q = vec![vec![0, 0], vec![-100_000, 0], vec![5, 9], vec![9, 5], vec![]];
    assert_eq!(derive_policy(&q), vec![0, 1, 1, 0, 0]);
    assert_eq!(derive_policy(&Vec::new()), Vec::<usize>::new());
}
