use abs_screens::ordering::{key_less, order_of};

#[test]
fn orders_by_keys_and_keeps_ties_in_place() {
    let keys = vec![vec![2], vec![1], vec![2], vec![0, 5], vec![1]];
    assert_eq!(order_of(&keys), vec![3, 1, 4, 0, 2]);
    assert_eq!(order_of(&Vec::new()), Vec::<usize>::new());
}

#[test]
fn orders_as_a_stable_sort_does() {
    let mut s: u64 = 1;
    let mut keys: Vec<Vec<i64>> = Vec::new();
    for _ in 0..500 {
        let mut key = Vec::new();
        for _ in 0..(s >> 40) % 4 {
            s = s.wrapping_mul(6364136223846793005).wrapping_add(1442695040888963407);
            key.push(((s >> 33) % 3) as i64 - 1);
        }
        s = s.wrapping_mul(6364136223846793005).wrapping_add(1442695040888963407);
        keys.push(key);
    }
    let mut expected: Vec<usize> = (0..keys.len()).collect();
    expected.sort_by(|a, b| keys[*a].cmp(&keys[*b]));
    assert_eq!(order_of(&keys), expected);
}

#[test]
fn a_shorter_key_comes_first() {
    assert!(key_less(&vec![1], &vec![1, 0]));
    assert!(!key_less(&vec![1, 0], &vec![1]));
    assert!(key_less(&vec![], &vec![-5]));
    assert!(!key_less(&vec![3, 4], &vec![3, 4]));
    assert!(key_less(&vec![3, i64::MIN], &vec![3, i64::MAX]));
}
