use doubly_linked_list::List;
use std::cell::RefCell;

fn listed(list: &List<i32>) -> Vec<i32> {
    let seen = RefCell::new(Vec::new());
    list.print(|x: &i32| seen.borrow_mut().push(*x));
    seen.into_inner()
}

fn made(values: &[i32]) -> List<i32> {
    let mut list = List::new();
    for v in values {
        list.push_tail(*v);
    }
    list
}

fn is_even(x: &i32) -> bool {
    x % 2 == 0
}

fn never(_x: &i32) -> bool {
    false
}

fn always(_x: &i32) -> bool {
    true
}

fn same(a: &i32, b: &i32) -> bool {
    a == b
}

fn same_parity(a: &i32, b: &i32) -> bool {
    a % 2 == b % 2
}

#[test]
fn reverse_turns_the_order_round() {
    let mut list = made(&[1, 2, 3]);
    list.reverse();
    assert_eq!(listed(&list), vec![3, 2, 1]);
    assert_eq!(list.get_size(), 3);
    assert_eq!(list.get_head(), Some(&3));
    assert_eq!(list.get_tail(), Some(&1));
}

#[test]
fn reverse_of_empty_list_is_empty() {
    let mut list: List<i32> = List::new();
    list.reverse();
    assert!(list.is_empty());
    assert_eq!(list.get_size(), 0);
    assert_eq!(listed(&list), Vec::<i32>::new());
}

#[test]
fn reverse_twice_restores_the_order() {
    let mut list = made(&[4, 8, 15, 16, 23, 42]);
    list.reverse();
    list.reverse();
    assert_eq!(listed(&list), vec![4, 8, 15, 16, 23, 42]);
    assert_eq!(list.get_size(), 6);
}

#[test]
fn reversed_list_works_like_any_other() {
    let mut list = made(&[1, 2, 3, 4]);
    list.reverse();
    assert_eq!(list.pop_head(), Some(4));
    assert_eq!(list.pop_tail(), Some(1));
    list.push_head(9);
    list.push_tail(8);
    list.push_nth(1, 7);
    assert_eq!(listed(&list), vec![9, 3, 7, 2, 8]);
    assert_eq!(list.pop_nth(3), Some(2));
    let mut backwards = Vec::new();
    while let Some(x) = list.pop_tail() {
        backwards.push(x);
    }
    assert_eq!(backwards, vec![8, 7, 3, 9]);
}

#[test]
fn reverse_of_one_element_keeps_it() {
    let mut list = made(&[5]);
    list.reverse();
    assert_eq!(listed(&list), vec![5]);
    assert_eq!(list.get_head(), Some(&5));
    assert_eq!(list.get_tail(), Some(&5));
}

#[test]
fn into_reversed_drains_into_a_new_list() {
    let mut list = made(&[1, 2, 3]);
    let reversed = list.into_reversed();
    assert_eq!(listed(&reversed), vec![3, 2, 1]);
    assert_eq!(reversed.get_size(), 3);
    assert!(list.is_empty());
    assert_eq!(list.get_size(), 0);
    assert_eq!(list.pop_head(), None);
}

#[test]
fn into_reversed_twice_restores_the_order() {
    let mut list = made(&[1, 2, 3, 4]);
    let mut once = list.into_reversed();
    let twice = once.into_reversed();
    assert_eq!(listed(&twice), vec![1, 2, 3, 4]);
    assert!(once.is_empty());
}

#[test]
fn filter_keeps_even_numbers_in_order() {
    let mut list = made(&[1, 2, 3, 4, 5]);
    list.filter(is_even);
    assert_eq!(listed(&list), vec![2, 4]);
    assert_eq!(list.get_size(), 2);
    assert_eq!(list.get_head(), Some(&2));
    assert_eq!(list.get_tail(), Some(&4));
}

#[test]
fn filter_looks_at_the_last_element_too() {
    let mut list = made(&[2, 3, 4, 6]);
    list.filter(is_even);
    assert_eq!(listed(&list), vec![2, 4, 6]);
    let mut other = made(&[2, 4, 5]);
    other.filter(is_even);
    assert_eq!(listed(&other), vec![2, 4]);
}

#[test]
fn filter_rejecting_all_empties_the_list() {
    let mut list = made(&[1, 2, 3, 4, 5]);
    list.filter(never);
    assert!(list.is_empty());
    assert_eq!(list.get_size(), 0);
    assert_eq!(list.get_head(), None);
    assert_eq!(list.get_tail(), None);
}

#[test]
fn filter_accepting_all_changes_nothing() {
    let mut list = made(&[1, 2, 3, 4, 5]);
    list.filter(always);
    assert_eq!(listed(&list), vec![1, 2, 3, 4, 5]);
    assert_eq!(list.get_size(), 5);
}

#[test]
fn filter_on_empty_list_asks_nothing() {
    let asked = RefCell::new(0);
    let mut list: List<i32> = List::new();
    list.filter(|_x: &i32| {
        *asked.borrow_mut() += 1;
        true
    });
    assert!(list.is_empty());
    assert_eq!(*asked.borrow(), 0);
}

#[test]
fn filter_asks_about_every_element_once() {
    let asked = RefCell::new(Vec::new());
    let mut list = made(&[3, 1, 4, 1, 5]);
    list.filter(|x: &i32| {
        asked.borrow_mut().push(*x);
        *x != 1
    });
    assert_eq!(asked.into_inner(), vec![3, 1, 4, 1, 5]);
    assert_eq!(listed(&list), vec![3, 4, 5]);
}

#[test]
fn is_value_exist_finds_what_is_there() {
    let list = made(&[1, 2, 3]);
    assert!(list.is_value_exist(1, same));
    assert!(list.is_value_exist(2, same));
    assert!(list.is_value_exist(3, same));
    assert!(!list.is_value_exist(4, same));
    assert!(!list.is_value_exist(0, same));
}

#[test]
fn is_value_exist_on_empty_list_is_false() {
    let list: List<i32> = List::new();
    assert!(!list.is_value_exist(0, same));
    assert!(!list.is_value_exist(7, same));
    assert!(!list.is_value_exist(7, |_a: &i32, _b: &i32| true));
}

#[test]
fn is_value_exist_goes_by_the_given_comparison() {
    let list = made(&[1, 3, 5]);
    assert!(list.is_value_exist(7, same_parity));
    assert!(!list.is_value_exist(8, same_parity));
}

#[test]
fn is_value_exist_stops_at_the_first_match() {
    let asked = RefCell::new(Vec::new());
    let list = made(&[1, 2, 3, 2]);
    let found = list.is_value_exist(2, |a: &i32, b: &i32| {
        asked.borrow_mut().push(*b);
        a == b
    });
    assert!(found);
    assert_eq!(asked.into_inner(), vec![1, 2]);
}

#[test]
fn print_visits_from_head_to_tail() {
    let mut list = List::new();
    list.push_tail(2);
    list.push_head(1);
    list.push_tail(3);
    let seen = RefCell::new(Vec::new());
    list.print(|x: &i32| seen.borrow_mut().push(*x));
    assert_eq!(seen.into_inner(), vec![1, 2, 3]);
    assert_eq!(list.get_size(), 3);
}
