use double_sort::fibonacci::{from_key, to_key, tuple_sort, SINGLE};
use double_sort::node::Node;
use double_sort::EmptyInputError;
use rand::Rng;

#[test]
fn tuple_sort_example() {
    let mut numbers: Vec<u32> = vec![48, 23, 78, 67, 89, 22, 33, 44];
    tuple_sort(&mut numbers).unwrap();
    assert_eq!(numbers, [22, 23, 33, 44, 48, 67, 78, 89]);
}

#[test]
fn tuple_sort_empty_is_refused() {
    let mut numbers: Vec<u32> = Vec::new();
    assert_eq!(tuple_sort(&mut numbers), Err(EmptyInputError));
    assert!(numbers.is_empty());
}

#[test]
fn tuple_sort_short_inputs() {
    let mut one = vec![7u32];
    tuple_sort(&mut one).unwrap();
    assert_eq!(one, [7]);
    let mut two = vec![2u32, 1];
    tuple_sort(&mut two).unwrap();
    assert_eq!(two, [1, 2]);
    let mut three = vec![3u32, 2, 1];
    tuple_sort(&mut three).unwrap();
    assert_eq!(three, [1, 2, 3]);
}

#[test]
fn tuple_sort_odd_and_duplicates() {
    let mut odd = vec![42u32, 23, 5, 6, 12];
    tuple_sort(&mut odd).unwrap();
    assert_eq!(odd, [5, 6, 12, 23, 42]);
    let mut dup = vec![5u32, 5, 3, 3, 1, 1];
    tuple_sort(&mut dup).unwrap();
    assert_eq!(dup, [1, 1, 3, 3, 5, 5]);
    let mut wide = vec![u32::MAX, 0, u32::MAX, 1, 0];
    tuple_sort(&mut wide).unwrap();
    assert_eq!(wide, [0, 0, 1, u32::MAX, u32::MAX]);
}

#[test]
fn tuple_sort_random_trials_match_std_sort() {
    let mut rng = rand::thread_rng();
    for _ in 0..1000 {
        let len = rng.gen_range(1..70);
        let input: Vec<u32> = (0..len).map(|_| rng.gen_range(0..25)).collect();
        let mut expected = input.clone();
        expected.sort();
        let mut got = input.clone();
        tuple_sort(&mut got).unwrap();
        assert_eq!(got, expected, "tuple_sort on {:?}", input);
    }
}

#[test]
fn keys_round_trip() {
    let pair = Node::new(3u32, Some(u32::MAX));
    assert_eq!(to_key(pair), (3, u32::MAX as u64));
    let back = from_key(to_key(pair));
    assert_eq!((back.lead, back.trail), (3, Some(u32::MAX)));
    let single = Node::new(9u32, None);
    assert_eq!(to_key(single), (9, SINGLE));
    let back = from_key(to_key(single));
    assert_eq!((back.lead, back.trail), (9, None));
}
