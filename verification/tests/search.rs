//! The bounded search on predicates over channel counts.

use erlang_e1::{calculate_e1_channels, required_e1_channels, DEFAULT_CHANNELS_MAX};
use std::cell::RefCell;

#[test]
fn returns_the_first_accepted_count() {
    assert_eq!(calculate_e1_channels(|n| n >= 7, 20), Some(7));
    assert_eq!(calculate_e1_channels(|n| n >= 1, 20), Some(1));
}

#[test]
fn result_is_accepted_and_nothing_before_it_is() {
    let meets = |n: u32| n * n >= 300;
    let found = calculate_e1_channels(meets, 100);
    assert_eq!(found, Some(18));
    let n = found.unwrap();
    assert!(meets(n));
    for k in 1..n {
        assert!(!meets(k));
    }
}

#[test]
fn returns_none_when_no_count_is_accepted() {
    assert_eq!(calculate_e1_channels(|_| false, 50), None);
    assert_eq!(calculate_e1_channels(|n| n > 50, 50), None);
}

#[test]
fn bound_itself_is_tried() {
    assert_eq!(calculate_e1_channels(|n| n >= 5, 5), Some(5));
    assert_eq!(calculate_e1_channels(|n| n >= 5, 4), None);
    assert_eq!(calculate_e1_channels(|n| n >= 1, 1), Some(1));
}

#[test]
fn zero_bound_tries_nothing() {
    let asked: RefCell<Vec<u32>> = RefCell::new(Vec::new());
    let found = calculate_e1_channels(
        |n| {
            asked.borrow_mut().push(n);
            true
        },
        0,
    );
    assert_eq!(found, None);
    assert!(asked.borrow().is_empty());
}

#[test]
fn count_zero_is_never_tried() {
    assert_eq!(calculate_e1_channels(|n| n == 0, 10), None);
}

#[test]
fn counts_are_tried_in_order_and_not_past_the_first_hit() {
    let asked: RefCell<Vec<u32>> = RefCell::new(Vec::new());
    let found = calculate_e1_channels(
        |n| {
            asked.borrow_mut().push(n);
            n >= 4
        },
        10,
    );
    assert_eq!(found, Some(4));
    assert_eq!(*asked.borrow(), vec![1, 2, 3, 4]);
}

#[test]
fn exhausted_search_tries_every_count_once() {
    let asked: RefCell<Vec<u32>> = RefCell::new(Vec::new());
    let found = calculate_e1_channels(
        |n| {
            asked.borrow_mut().push(n);
            false
        },
        6,
    );
    assert_eq!(found, None);
    assert_eq!(*asked.borrow(), vec![1, 2, 3, 4, 5, 6]);
}

#[test]
fn first_hit_wins_even_if_later_counts_fail() {
    let meets = |n: u32| n == 3 || n == 8;
    assert_eq!(calculate_e1_channels(meets, 10), Some(3));
    assert_eq!(calculate_e1_channels(meets, 2), None);
}

#[test]
fn larger_bound_keeps_a_found_result() {
    let meets = |n: u32| n >= 12;
    let small = calculate_e1_channels(meets, 12);
    assert_eq!(small, Some(12));
    for larger in [13, 14, 100, 10_000, u32::MAX] {
        assert_eq!(calculate_e1_channels(meets, larger), small);
    }
}

#[test]
fn largest_bound_does_not_overflow() {
    assert_eq!(calculate_e1_channels(|n| n >= 3, u32::MAX), Some(3));
}

#[test]
fn default_bound_is_ten_thousand() {
    assert_eq!(DEFAULT_CHANNELS_MAX, 10_000);
    assert_eq!(required_e1_channels(|n| n >= 10_000), Some(10_000));
    assert_eq!(required_e1_channels(|n| n >= 10_001), None);
    assert_eq!(required_e1_channels(|n| n >= 42), Some(42));
}

#[test]
fn default_bound_search_agrees_with_explicit_bound() {
    let meets = |n: u32| n % 777 == 0;
    assert_eq!(required_e1_channels(meets), calculate_e1_channels(meets, 10_000));
    assert_eq!(required_e1_channels(meets), Some(777));
}
