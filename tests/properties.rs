use double_sort::node::Node;
use double_sort::sort::EmptyInputError;
use double_sort::{double_heap_sort, double_sort};
use rand::Rng;

fn both(input: &[i64]) -> (Vec<i64>, Vec<i64>) {
    let mut a = input.to_vec();
    let mut b = input.to_vec();
    double_sort(&mut a).unwrap();
    double_heap_sort(&mut b).unwrap();
    (a, b)
}

#[test]
fn empty_input_is_refused() {
    let mut v: Vec<u32> = Vec::new();
    assert_eq!(double_sort(&mut v), Err(EmptyInputError));
    assert!(v.is_empty());
    assert_eq!(double_heap_sort(&mut v), Err(EmptyInputError));
    assert!(v.is_empty());
}

#[test]
fn single_element_unchanged() {
    let (a, b) = both(&[7]);
    assert_eq!(a, [7]);
    assert_eq!(b, [7]);
}

#[test]
fn two_elements_swapped() {
    let (a, b) = both(&[9, 3]);
    assert_eq!(a, [3, 9]);
    assert_eq!(b, [3, 9]);
    let (a, b) = both(&[3, 9]);
    assert_eq!(a, [3, 9]);
    assert_eq!(b, [3, 9]);
}

#[test]
fn odd_length() {
    let (a, b) = both(&[42, 23, 5, 6, 12]);
    assert_eq!(a, [5, 6, 12, 23, 42]);
    assert_eq!(b, [5, 6, 12, 23, 42]);
}

#[test]
fn duplicates_kept() {
    let (a, b) = both(&[5, 5, 3, 3, 1, 1]);
    assert_eq!(a, [1, 1, 3, 3, 5, 5]);
    assert_eq!(b, [1, 1, 3, 3, 5, 5]);
    let (a, b) = both(&[2, 2, 2, 2, 2]);
    assert_eq!(a, [2, 2, 2, 2, 2]);
    assert_eq!(b, [2, 2, 2, 2, 2]);
}

#[test]
fn sorted_input_unchanged() {
    let input = [1, 2, 2, 4, 8, 16, 16, 17, 30];
    let (a, b) = both(&input);
    assert_eq!(a, input);
    assert_eq!(b, input);
    let (a2, b2) = both(&a);
    assert_eq!(a2, a);
    assert_eq!(b2, b);
}

#[test]
fn reversed_input() {
    let input: Vec<i64> = (0..57).rev().collect();
    let expected: Vec<i64> = (0..57).collect();
    let (a, b) = both(&input);
    assert_eq!(a, expected);
    assert_eq!(b, expected);
}

#[test]
fn heap_sort_example() {
    let mut vector = vec![48, 23, 78, 67, 89, 22, 33, 44];
    double_heap_sort(&mut vector).unwrap();
    assert_eq!(vector, [22, 23, 33, 44, 48, 67, 78, 89]);
}

#[test]
fn extreme_values() {
    let (a, b) = both(&[i64::MAX, i64::MIN, 0, -1, i64::MAX, 1]);
    let expected = [i64::MIN, -1, 0, 1, i64::MAX, i64::MAX];
    assert_eq!(a, expected);
    assert_eq!(b, expected);
}

#[test]
fn random_trials_match_std_sort() {
    let mut rng = rand::thread_rng();
    for _ in 0..1200 {
        let len = rng.gen_range(1..80);
        let input: Vec<i64> = (0..len).map(|_| rng.gen_range(-20..20)).collect();
        let mut expected = input.clone();
        expected.sort();
        let (a, b) = both(&input);
        assert_eq!(a, expected, "double_sort on {:?}", input);
        assert_eq!(b, expected, "double_heap_sort on {:?}", input);
    }
}

#[test]
fn node_order_and_slices() {
    let mut n = Node::new(9u32, Some(4));
    n.order();
    assert_eq!(n.lead, 4);
    assert_eq!(n.trail, Some(9));
    assert_eq!(n.slices(), vec![4, 9]);
    assert!(!n.none_present());
    let single = Node::new(5u32, None);
    assert!(single.none_present());
    assert_eq!(single.slices(), vec![5]);
}

#[test]
fn node_change_vector_writes_in_place() {
    let mut v = vec![0u32, 0, 0, 0];
    Node::new(3u32, Some(8)).change_vector(&mut v, 1);
    assert_eq!(v, [0, 3, 8, 0]);
}
