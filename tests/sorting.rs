use algorithms::sorting::{heap_sort, insertion_sort, merge_sort, selection_sort};

fn test_sort(sort_fun: &dyn Fn(&mut [i32])) {
    let mut numbers = vec![7, 2, 9, 10, 4, 6, 1];
    sort_fun(&mut numbers);
    assert_eq!(numbers, vec![1, 2, 4, 6, 7, 9, 10]);
}

fn check_against_std(sort_fun: &dyn Fn(&mut [i32]), input: &[i32]) {
    let mut expected = input.to_vec();
    expected.sort();
    let mut actual = input.to_vec();
    sort_fun(&mut actual);
    assert_eq!(actual, expected);
}

fn pseudo_random(len: usize, seed: u64) -> Vec<i32> {
    let mut state = seed;
    let mut out = Vec::new();
    for _ in 0..len {
        state = state.wrapping_mul(6364136223846793005).wrapping_add(1442695040888963407);
        out.push(((state >> 33) % 50) as i32 - 25);
    }
    out
}

fn check_all_inputs(sort_fun: &dyn Fn(&mut [i32])) {
    check_against_std(sort_fun, &[]);
    check_against_std(sort_fun, &[42]);
    check_against_std(sort_fun, &[1, 2, 3, 4, 5, 6]);
    check_against_std(sort_fun, &[6, 5, 4, 3, 2, 1]);
    check_against_std(sort_fun, &[3, 3, 3, 3, 3]);
    check_against_std(sort_fun, &[2, 1, 2, 1, 2, 1, 0]);
    check_against_std(sort_fun, &[i32::MAX, i32::MIN, 0, -1, 1]);
    for seed in 0..20 {
        check_against_std(sort_fun, &pseudo_random(seed as usize * 3 + 1, seed));
    }
}

#[test]
fn test_selection_sort() {
    test_sort(&selection_sort);
}

#[test]
fn test_insertion_sort() {
    test_sort(&insertion_sort);
}

#[test]
fn test_merge_sort() {
    test_sort(&merge_sort);
}

#[test]
fn test_heap_sort() {
    test_sort(&heap_sort);
}

#[test]
fn selection_sort_matches_std_sort() {
    check_all_inputs(&selection_sort);
}

#[test]
fn insertion_sort_matches_std_sort() {
    check_all_inputs(&insertion_sort);
}

#[test]
fn merge_sort_matches_std_sort() {
    check_all_inputs(&merge_sort);
}

#[test]
fn heap_sort_matches_std_sort() {
    check_all_inputs(&heap_sort);
}

#[test]
fn merge_sort_keeps_equal_elements_from_both_halves() {
    let mut numbers = vec![5, 1, 5, 1];
    merge_sort(&mut numbers);
    assert_eq!(numbers, vec![1, 1, 5, 5]);
}

#[test]
fn sorting_empty_and_single_is_a_no_op() {
    for sort_fun in [
        &selection_sort as &dyn Fn(&mut [i32]),
        &insertion_sort,
        &merge_sort,
        &heap_sort,
    ] {
        let mut empty: Vec<i32> = vec![];
        sort_fun(&mut empty);
        assert!(empty.is_empty());
        let mut single = vec![-7];
        sort_fun(&mut single);
        assert_eq!(single, vec![-7]);
    }
}
