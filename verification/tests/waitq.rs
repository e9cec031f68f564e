//! Tests for the ordered ticket stores.

use webio::waitq::{TicketSet, WaitQueue};

#[test]
fn wait_queue_pops_in_ticket_order() {
    let mut q: WaitQueue<&str> = WaitQueue::new();
    q.insert(5, "five");
    q.insert(1, "one");
    q.insert(3, "three");
    assert_eq!(q.len(), 3);
    assert_eq!(q.first_key(), Some(1));
    assert_eq!(q.last_key(), Some(5));
    assert_eq!(q.pop_first(), Some((1, "one")));
    assert_eq!(q.pop_first(), Some((3, "three")));
    assert_eq!(q.pop_first(), Some((5, "five")));
    assert_eq!(q.pop_first(), None);
}

#[test]
fn wait_queue_remove_by_ticket() {
    let mut q: WaitQueue<&str> = WaitQueue::new();
    q.insert(2, "two");
    q.insert(4, "four");
    assert!(q.contains_key(2));
    assert_eq!(q.remove(2), Some("two"));
    assert!(!q.contains_key(2));
    assert_eq!(q.remove(2), None);
    assert_eq!(q.pop_first(), Some((4, "four")));
    assert!(q.is_empty());
}

#[test]
fn ticket_set_orders_and_removes() {
    let mut s = TicketSet::new();
    assert!(s.is_empty());
    s.insert(7);
    s.insert(2);
    s.insert(9);
    assert_eq!(s.len(), 3);
    assert!(s.contains(7));
    assert!(!s.contains(3));
    assert_eq!(s.max_ticket(), Some(9));
    assert!(s.remove(9));
    assert!(!s.remove(9));
    assert_eq!(s.max_ticket(), Some(7));
}
