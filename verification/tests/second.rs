use bitonic_sorter::second::sort;
use bitonic_sorter::SortOrder::{Ascending, Descending};

#[test]
fn sort_u32_ascending() {
    let mut x: Vec<u32> = vec![10, 30, 11, 20, 4, 330, 21, 110];

    assert_eq!(sort(&mut x, &Ascending), Ok(()));
    assert_eq!(x, vec![4, 10, 11, 20, 21, 30, 110, 330]);
}

#[test]
fn sort_u32_descending() {
    let mut x: Vec<u32> = vec![10, 30, 11, 20, 4, 330, 21, 110];

    assert_eq!(sort(&mut x, &Descending), Ok(()));
    assert_eq!(x, vec![330, 110, 30, 21, 20, 11, 10, 4]);
}

#[test]
fn sort_str_ascending() {
    let mut x: Vec<&str> = vec![
        "Rust",
        "is",
        "fast",
        "and",
        "memory-efficient",
        "with",
        "no",
        "GC",
    ];

    assert_eq!(sort(&mut x, &Ascending), Ok(()));

    assert_eq!(
        x,
        vec![
            "GC",
            "Rust",
            "and",
            "fast",
            "is",
            "memory-efficient",
            "no",
            "with"
        ]
    );
}

#[test]
fn sort_str_descending() {
    let mut x: Vec<&str> = vec![
        "Rust",
        "is",
        "fast",
        "and",
        "memory-efficient",
        "with",
        "no",
        "GC",
    ];

    assert_eq!(sort(&mut x, &Descending), Ok(()));

    assert_eq!(
        x,
        vec![
            "with",
            "no",
            "memory-efficient",
            "is",
            "fast",
            "and",
            "Rust",
            "GC"
        ]
    );
}

#[test]
fn sort_to_fail() {
    let mut x: Vec<u32> = vec![10, 30, 11];
    let expected = sort(&mut x, &Ascending);

    assert!(expected.is_err());
}

#[test]
fn refused_length_leaves_the_sequence() {
    let mut x: Vec<u32> = vec![10, 30, 11];
    let refused = sort(&mut x, &Descending);

    assert_eq!(
        refused,
        Err("The length of x is not a power of two. (x.len(): 3)".to_string())
    );
    assert_eq!(x, vec![10, 30, 11]);
}

#[test]
fn empty_and_single_are_sorted_already() {
    let mut none: Vec<u32> = vec![];
    assert_eq!(sort(&mut none, &Ascending), Ok(()));
    assert_eq!(none, Vec::<u32>::new());

    let mut one: Vec<u32> = vec![7];
    assert_eq!(sort(&mut one, &Descending), Ok(()));
    assert_eq!(one, vec![7]);
}

#[test]
fn sorted_input_comes_back_unchanged() {
    let mut up: Vec<u32> = vec![1, 2, 3, 5, 8, 13, 21, 34];
    assert_eq!(sort(&mut up, &Ascending), Ok(()));
    assert_eq!(up, vec![1, 2, 3, 5, 8, 13, 21, 34]);

    let mut down: Vec<u32> = vec![34, 21, 13, 8, 5, 3, 2, 1];
    assert_eq!(sort(&mut down, &Descending), Ok(()));
    assert_eq!(down, vec![34, 21, 13, 8, 5, 3, 2, 1]);
}

#[test]
fn equal_elements_are_kept() {
    let mut x: Vec<u32> = vec![2, 1, 2, 1];
    assert_eq!(sort(&mut x, &Ascending), Ok(()));
    assert_eq!(x, vec![1, 1, 2, 2]);

    let mut y: Vec<u32> = vec![2, 1, 2, 1];
    assert_eq!(sort(&mut y, &Descending), Ok(()));
    assert_eq!(y, vec![2, 2, 1, 1]);
}
