use doubly_linked_list::List;
use std::cell::RefCell;

fn walk(list: &List<i32>) -> Vec<i32> {
    let seen = RefCell::new(Vec::new());
    list.print(|x: &i32| seen.borrow_mut().push(*x));
    seen.into_inner()
}

#[test]
fn new_list_is_empty() {
    let list: List<i32> = List::new();
    assert!(list.is_empty());
    assert_eq!(list.get_size(), 0);
    assert_eq!(list.get_head(), None);
    assert_eq!(list.get_tail(), None);
    assert_eq!(walk(&list), Vec::<i32>::new());
}

#[test]
fn push_head_puts_latest_first() {
    let mut list = List::new();
    list.push_head(1);
    list.push_head(2);
    list.push_head(3);
    assert_eq!(list.get_size(), 3);
    assert!(!list.is_empty());
    assert_eq!(walk(&list), vec![3, 2, 1]);
    assert_eq!(list.get_head(), Some(&3));
    assert_eq!(list.get_tail(), Some(&1));
}

#[test]
fn push_tail_puts_latest_last() {
    let mut list = List::new();
    list.push_tail(1);
    list.push_tail(2);
    list.push_tail(3);
    assert_eq!(list.get_size(), 3);
    assert_eq!(walk(&list), vec![1, 2, 3]);
    assert_eq!(list.get_head(), Some(&1));
    assert_eq!(list.get_tail(), Some(&3));
}

#[test]
fn mixed_pushes_keep_count_and_order() {
    let mut list = List::new();
    list.push_tail(10);
    list.push_head(20);
    list.push_tail(30);
    list.push_head(40);
    list.push_head(50);
    list.push_tail(60);
    assert_eq!(list.get_size(), 6);
    assert_eq!(walk(&list), vec![50, 40, 20, 10, 30, 60]);
}

#[test]
fn first_push_sets_both_ends() {
    let mut a = List::new();
    a.push_head(7);
    assert_eq!(a.get_head(), Some(&7));
    assert_eq!(a.get_tail(), Some(&7));
    let mut b = List::new();
    b.push_tail(8);
    assert_eq!(b.get_head(), Some(&8));
    assert_eq!(b.get_tail(), Some(&8));
}

#[test]
fn pop_head_returns_what_push_head_put() {
    let mut list = List::new();
    list.push_head(5);
    assert_eq!(list.pop_head(), Some(5));
    assert!(list.is_empty());
    assert_eq!(list.get_size(), 0);

    list.push_tail(1);
    list.push_head(9);
    assert_eq!(list.pop_head(), Some(9));
    assert!(!list.is_empty());
    assert_eq!(walk(&list), vec![1]);
}

#[test]
fn pop_head_takes_from_the_front() {
    let mut list = List::new();
    list.push_tail(1);
    list.push_tail(2);
    list.push_tail(3);
    assert_eq!(list.pop_head(), Some(1));
    assert_eq!(list.get_head(), Some(&2));
    assert_eq!(list.get_tail(), Some(&3));
    assert_eq!(list.get_size(), 2);
    assert_eq!(walk(&list), vec![2, 3]);
}

#[test]
fn pop_tail_takes_from_the_back() {
    let mut list = List::new();
    list.push_tail(1);
    list.push_tail(2);
    list.push_tail(3);
    assert_eq!(list.pop_tail(), Some(3));
    assert_eq!(list.get_head(), Some(&1));
    assert_eq!(list.get_tail(), Some(&2));
    assert_eq!(list.get_size(), 2);
    assert_eq!(list.pop_tail(), Some(2));
    assert_eq!(list.pop_tail(), Some(1));
    assert_eq!(list.pop_tail(), None);
    assert!(list.is_empty());
    assert_eq!(list.get_head(), None);
    assert_eq!(list.get_tail(), None);
}

#[test]
fn pop_head_on_drained_list_gives_nothing() {
    let mut list = List::new();
    for i in 0..5 {
        list.push_tail(i);
    }
    let mut taken = Vec::new();
    while let Some(x) = list.pop_head() {
        taken.push(x);
    }
    assert_eq!(taken, vec![0, 1, 2, 3, 4]);
    assert_eq!(list.pop_head(), None);
    assert_eq!(list.pop_head(), None);
    assert_eq!(list.get_size(), 0);
    assert!(list.is_empty());
}

#[test]
fn pop_on_empty_list_gives_nothing() {
    let mut list: List<i32> = List::new();
    assert_eq!(list.pop_head(), None);
    assert_eq!(list.pop_tail(), None);
    assert_eq!(list.pop_nth(0), None);
    assert_eq!(list.get_size(), 0);
}

#[test]
fn pushes_and_pops_in_turn() {
    let mut list = List::new();
    for round in 0..100 {
        list.push_tail(round);
        list.push_head(-round);
        list.push_tail(round + 1000);
        assert_eq!(list.pop_nth(1), Some(round));
        assert_eq!(list.pop_head(), Some(-round));
        assert_eq!(list.pop_tail(), Some(round + 1000));
        assert!(list.is_empty());
    }
    list.push_tail(1);
    list.push_tail(2);
    assert_eq!(walk(&list), vec![1, 2]);
}

#[test]
fn duplicates_are_told_apart_by_position() {
    let mut list = List::new();
    list.push_tail(4);
    list.push_tail(4);
    list.push_tail(4);
    assert_eq!(list.pop_nth(1), Some(4));
    assert_eq!(list.get_size(), 2);
    assert_eq!(walk(&list), vec![4, 4]);
}

#[test]
fn long_list_is_torn_down() {
    let mut list = List::new();
    for i in 0..1_000_000u32 {
        list.push_tail(i);
    }
    assert_eq!(list.get_size(), 1_000_000);
    assert_eq!(list.get_head(), Some(&0));
    assert_eq!(list.get_tail(), Some(&999_999));
    drop(list);
}

#[test]
fn owned_elements_move_in_and_out() {
    let mut list = List::new();
    list.push_tail(String::from("b"));
    list.push_head(String::from("a"));
    list.push_nth(1, String::from("c"));
    assert_eq!(list.get_head().map(|s| s.as_str()), Some("a"));
    assert_eq!(list.pop_tail(), Some(String::from("c")));
    assert_eq!(list.pop_tail(), Some(String::from("b")));
    assert_eq!(list.pop_tail(), Some(String::from("a")));
    assert_eq!(list.pop_tail(), None);
}
