use bitonic_sorter::comparator::same_answer;
use std::cmp::Ordering::{Equal, Greater, Less};
use bitonic_sorter::length::{decimal_text, is_sortable_length, length_error};
use bitonic_sorter::utils::{
    is_sorted_ascending, is_sorted_descending, new_u32_vec, refined_new_u32_vec,
};

#[test]
fn generated_vectors_have_the_length_asked_for() {
    assert_eq!(new_u32_vec(0).len(), 0);
    assert_eq!(new_u32_vec(1).len(), 1);
    assert_eq!(new_u32_vec(1000).len(), 1000);
    assert_eq!(refined_new_u32_vec(0).len(), 0);
    assert_eq!(refined_new_u32_vec(1000).len(), 1000);
}

#[test]
fn both_generators_draw_the_same_numbers() {
    assert_eq!(new_u32_vec(256), refined_new_u32_vec(256));
}

#[test]
fn generated_numbers_vary() {
    let v = new_u32_vec(64);
    assert!(v.iter().any(|n| *n != v[0]));
    assert!(!is_sorted_ascending(&v));
    assert!(!is_sorted_descending(&v));
}

#[test]
fn sortedness_checks() {
    assert!(is_sorted_ascending::<u32>(&[]));
    assert!(is_sorted_descending::<u32>(&[]));
    assert!(is_sorted_ascending(&[1]));
    assert!(is_sorted_descending(&[1]));
    assert!(is_sorted_ascending(&[1, 2, 2, 3]));
    assert!(!is_sorted_descending(&[1, 2, 2, 3]));
    assert!(is_sorted_descending(&[3, 2, 2, 1]));
    assert!(!is_sorted_ascending(&[3, 2, 2, 1]));
    assert!(is_sorted_ascending(&[5, 5, 5]));
    assert!(is_sorted_descending(&[5, 5, 5]));
    assert!(!is_sorted_ascending(&[1, 3, 2]));
    assert!(!is_sorted_descending(&[3, 1, 2]));
    assert!(!is_sorted_ascending(&[1, 2, 3, 0]));
}

#[test]
fn sortable_lengths() {
    assert!(is_sortable_length(0));
    assert!(is_sortable_length(1));
    assert!(is_sortable_length(2));
    assert!(!is_sortable_length(3));
    assert!(is_sortable_length(4));
    assert!(!is_sortable_length(5));
    assert!(!is_sortable_length(6));
    assert!(!is_sortable_length(7));
    assert!(is_sortable_length(8));
    assert!(is_sortable_length(65536));
    assert!(!is_sortable_length(65535));
    assert!(!is_sortable_length(65537));
    assert!(is_sortable_length(1usize << (usize::BITS - 1)));
    assert!(!is_sortable_length(usize::MAX));
}

#[test]
fn decimal_texts() {
    assert_eq!(decimal_text(0), "0");
    assert_eq!(decimal_text(7), "7");
    assert_eq!(decimal_text(10), "10");
    assert_eq!(decimal_text(1234567890), "1234567890");
    assert_eq!(decimal_text(usize::MAX), usize::MAX.to_string());
}

#[test]
fn length_error_names_the_length() {
    assert_eq!(
        length_error(3),
        "The length of x is not a power of two. (x.len(): 3)"
    );
    assert_eq!(
        length_error(100),
        "The length of x is not a power of two. (x.len(): 100)"
    );
}

#[test]
fn same_answers() {
    for a in [Less, Equal, Greater] {
        for b in [Less, Equal, Greater] {
            assert_eq!(same_answer(a, b), a == b);
        }
    }
}
