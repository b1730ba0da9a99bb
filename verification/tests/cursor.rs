use libnss::interop::{Iterator, NssStatus};

#[test]
fn status_codes_match_protocol() {
    assert_eq!(NssStatus::TryAgain.to_c(), -2);
    assert_eq!(NssStatus::Unavail.to_c(), -1);
    assert_eq!(NssStatus::NotFound.to_c(), 0);
    assert_eq!(NssStatus::Success.to_c(), 1);
    assert_eq!(NssStatus::Return.to_c(), 2);
}

#[test]
fn enumeration_order_is_queue_order() {
    let mut it: Iterator<i32> = Iterator::new();
    it.open(vec![1, 2, 3]);
    assert_eq!(it.next(), Some(1));
    assert_eq!(it.next(), Some(2));
    assert_eq!(it.next(), Some(3));
    assert_eq!(it.next(), None);
    // exhaustion leaves the cursor open; it stays exhausted
    assert_eq!(it.next(), None);
    it.close();
}

#[test]
fn reopen_never_resurfaces_discarded_items() {
    let mut it: Iterator<i32> = Iterator::new();
    it.open(vec![1, 2, 3]);
    assert_eq!(it.next(), Some(1));
    it.close();
    it.open(vec![10, 20]);
    assert_eq!(it.next(), Some(10));
    assert_eq!(it.next(), Some(20));
    assert_eq!(it.next(), None);
    it.close();
}

#[test]
fn reopen_while_open_replaces_queue() {
    let mut it: Iterator<i32> = Iterator::new();
    it.open(vec![1, 2]);
    assert_eq!(it.next(), Some(1));
    it.open(vec![7]);
    assert_eq!(it.next(), Some(7));
    assert_eq!(it.next(), None);
    it.close();
}

#[test]
fn two_call_sites_each_get_one_item_exactly_once() {
    // Two independent call sites taking turns on one open cursor: each item
    // is delivered to exactly one of them, in queue order, never twice.
    let mut it: Iterator<&str> = Iterator::new();
    it.open(vec!["A", "B"]);
    let first_site = it.next();
    let second_site = it.next();
    assert_eq!(first_site, Some("A"));
    assert_eq!(second_site, Some("B"));
    assert_ne!(first_site, second_site);
    assert_eq!(it.next(), None);
    it.close();
}

#[test]
fn empty_open_is_exhausted_at_once() {
    let mut it: Iterator<i32> = Iterator::new();
    it.open(vec![]);
    assert_eq!(it.next(), None);
    it.close();
}
