use bitonic_sorter::fourth::{sort, sort_by, PARALLEL_THRESHOLD};
use bitonic_sorter::third;
use bitonic_sorter::utils::{is_sorted_ascending, is_sorted_descending, new_u32_vec};
use bitonic_sorter::SortOrder::{Ascending, Descending};

#[test]
fn parallel_sort_of_eight_ascending() {
    let mut x: Vec<u32> = vec![10, 30, 11, 20, 4, 330, 21, 110];
    assert_eq!(sort(&mut x, &Ascending), Ok(()));
    assert_eq!(x, vec![4, 10, 11, 20, 21, 30, 110, 330]);
}

#[test]
fn parallel_sort_of_eight_descending() {
    let mut x: Vec<u32> = vec![10, 30, 11, 20, 4, 330, 21, 110];
    assert_eq!(sort(&mut x, &Descending), Ok(()));
    assert_eq!(x, vec![330, 110, 30, 21, 20, 11, 10, 4]);
}

#[test]
fn parallel_sort_refuses_three() {
    let mut x: Vec<u32> = vec![10, 30, 11];
    assert_eq!(
        sort(&mut x, &Ascending),
        Err("The length of x is not a power of two. (x.len(): 3)".to_string())
    );
    assert_eq!(x, vec![10, 30, 11]);
}

#[test]
fn parallel_sort_refuses_large_odd_length() {
    let mut x = new_u32_vec(10000);
    let before = x.clone();
    assert_eq!(
        sort_by(&mut x, &|a: &u32, b: &u32| a.cmp(b)),
        Err("The length of x is not a power of two. (x.len(): 10000)".to_string())
    );
    assert_eq!(x, before);
}

#[test]
fn parallel_sort_by_records() {
    let mut x: Vec<(&str, u8)> = vec![("Ash", 10), ("Misty", 11), ("Brock", 15), ("Pikachu", 3)];
    assert_eq!(
        sort_by(&mut x, &|a: &(&str, u8), b: &(&str, u8)| a
            .1
            .cmp(&b.1)
            .then_with(|| a.0.cmp(b.0))),
        Ok(())
    );
    assert_eq!(
        x,
        vec![("Pikachu", 3), ("Ash", 10), ("Misty", 11), ("Brock", 15)]
    );
}

#[test]
fn threshold_is_4096() {
    assert_eq!(PARALLEL_THRESHOLD, 4096);
}

#[test]
fn large_sort_equals_reference_sort() {
    // 65536 elements: halves of 32768 and 16384 and 8192 run in parallel.
    let mut x = new_u32_vec(65536);
    let mut reference = x.clone();
    reference.sort();
    assert_ne!(x, reference);

    assert_eq!(sort(&mut x, &Ascending), Ok(()));
    assert!(is_sorted_ascending(&x));
    assert_eq!(x, reference);

    let mut y = new_u32_vec(65536);
    reference.reverse();
    assert_eq!(sort(&mut y, &Descending), Ok(()));
    assert!(is_sorted_descending(&y));
    assert_eq!(y, reference);
}

#[test]
fn parallel_and_sequential_agree() {
    let mut parallel = new_u32_vec(32768);
    let mut sequential = parallel.clone();
    assert_eq!(sort(&mut parallel, &Ascending), Ok(()));
    assert_eq!(third::sort(&mut sequential, &Ascending), Ok(()));
    assert_eq!(parallel, sequential);
}

#[test]
fn parallel_and_sequential_agree_on_ties() {
    // Keys repeat, so elements tie; both ways of running the network still
    // give the same arrangement.
    let keys = new_u32_vec(16384);
    let mut parallel: Vec<(u32, usize)> = keys
        .iter()
        .enumerate()
        .map(|(i, k)| (k % 64, i))
        .collect();
    let mut sequential = parallel.clone();
    let by_key = |a: &(u32, usize), b: &(u32, usize)| a.0.cmp(&b.0);
    assert_eq!(sort_by(&mut parallel, &by_key), Ok(()));
    assert_eq!(third::sort_by(&mut sequential, &by_key), Ok(()));
    assert_eq!(parallel, sequential);
}

#[test]
fn just_above_threshold_is_sorted() {
    // Halves of 8192 exceed the threshold; halves of 4096 do not.
    let mut x = new_u32_vec(16384);
    let mut reference = x.clone();
    reference.sort();
    assert_eq!(sort(&mut x, &Ascending), Ok(()));
    assert_eq!(x, reference);

    let mut below = new_u32_vec(8192);
    let mut reference_below = below.clone();
    reference_below.sort();
    assert_eq!(sort(&mut below, &Ascending), Ok(()));
    assert_eq!(below, reference_below);
}
