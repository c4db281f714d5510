use bvh::partition;

fn sorted(mut v: Vec<i32>) -> Vec<i32> {
    v.sort();
    v
}

#[test]
fn partition_evens_first() {
    let mut v = vec![1, 2, 3, 4, 5];
    let split = partition(&mut v, |x: &i32| *x % 2 == 0);
    assert_eq!(split, 2);
    assert_eq!(sorted(v[..2].to_vec()), vec![2, 4]);
    assert_eq!(sorted(v[2..].to_vec()), vec![1, 3, 5]);
}

#[test]
fn partition_empty() {
    let mut v: Vec<i32> = vec![];
    assert_eq!(partition(&mut v, |x: &i32| *x > 0), 0);
    assert!(v.is_empty());
}

#[test]
fn partition_all_true_and_all_false() {
    let mut v = vec![3, 1, 2];
    assert_eq!(partition(&mut v, |_: &i32| true), 3);
    assert_eq!(v, vec![3, 1, 2]);
    assert_eq!(partition(&mut v, |_: &i32| false), 0);
    assert_eq!(v, vec![3, 1, 2]);
}

#[test]
fn partition_keeps_elements_and_splits() {
    let input: Vec<i32> = (0..50).map(|i| (i * 37) % 23 - 11).collect();
    let mut v = input.clone();
    let split = partition(&mut v, |x: &i32| *x < 0);
    assert!(v[..split].iter().all(|x| *x < 0));
    assert!(v[split..].iter().all(|x| *x >= 0));
    assert_eq!(sorted(v), sorted(input.clone()));
    assert_eq!(split, input.iter().filter(|x| **x < 0).count());
}
