//! Tests for the channel cell behind the notifier/listener pair. Wakers are
//! plain integers; payloads are strings standing in for captured panics.

use webio::channel::{Channel, Error};

#[test]
fn sync_once() {
    // A registered callback fires once with 40; the listener's callback
    // adds 2 and the value arrives through the channel.
    let mut c: Channel<i32, String, u32> = Channel::new_connected();
    let event_data = 40;
    c.success(event_data + 2);
    assert_eq!(c.receive(), Some(Ok(42)));
}

#[test]
fn oneshot_round_trip() {
    // success(v) then receive yields Some(Ok(v)) exactly once; after the
    // producer goes away, a second receive reports cancellation.
    let mut c: Channel<i32, String, u32> = Channel::new_connected();
    c.success(7);
    c.notifier_dropped();
    assert_eq!(c.receive(), Some(Ok(7)));
    assert_eq!(c.receive(), Some(Err(Error::Cancelled)));
}

#[test]
fn receive_pending_while_connected() {
    let mut c: Channel<i32, String, u32> = Channel::new_connected();
    assert_eq!(c.receive(), None);
    c.subscribe(5);
    let woken = c.success(1);
    assert_eq!(woken, Some(5));
    assert_eq!(c.receive(), Some(Ok(1)));
}

#[test]
fn panic_capture() {
    // A callback that panicked had its payload caught at the boundary; the
    // listener sees it as an error value, not an unwind.
    let mut c: Channel<i32, String, u32> = Channel::new_connected();
    c.panicked(String::from("boom"));
    assert_eq!(c.receive(), Some(Err(Error::Panicked(String::from("boom")))));
}

#[test]
fn cancellation_listener_side() {
    // Dropping the listener first makes a later success a safe no-op: the
    // value is discarded and the parked waker is handed back, not leaked.
    let mut c: Channel<i32, String, u32> = Channel::new_connected();
    c.subscribe(9);
    c.listener_dropped();
    let woken = c.success(3);
    assert_eq!(woken, Some(9));
    assert_eq!(c.receive(), Some(Err(Error::Cancelled)));
}

#[test]
fn cancellation_notifier_side() {
    // Dropping the producer before any value wakes the consumer, which
    // then reads a cancellation instead of pending forever.
    let mut c: Channel<i32, String, u32> = Channel::new_connected();
    c.subscribe(4);
    let woken = c.notifier_dropped();
    assert_eq!(woken, Some(4));
    assert_eq!(c.receive(), Some(Err(Error::Cancelled)));
}

#[test]
fn sync_multi() {
    // A multi-shot listener drains one value per occurrence; exhaustion of
    // the source reads as cancellation afterwards.
    let mut c: Channel<u32, String, u32> = Channel::new_connected();
    for exp in [2u32, 1, 0] {
        c.success(2u32.pow(exp));
    }
    // Deliveries between receives overwrite: the latest value stands.
    assert_eq!(c.receive(), Some(Ok(1)));
    c.success(4);
    assert_eq!(c.receive(), Some(Ok(4)));
    c.success(2);
    assert_eq!(c.receive(), Some(Ok(2)));
    assert_eq!(c.receive(), None);
    c.notifier_dropped();
    assert_eq!(c.receive(), Some(Err(Error::Cancelled)));
}

#[test]
fn earliest_waker_is_kept() {
    let mut c: Channel<i32, String, u32> = Channel::new_connected();
    c.subscribe(1);
    c.subscribe(2);
    assert_eq!(c.success(0), Some(1));
}

#[test]
fn disconnect_reports_previous_state() {
    let mut c: Channel<i32, String, u32> = Channel::new_connected();
    assert!(c.is_connected());
    assert!(c.disconnect());
    assert!(!c.is_connected());
    assert!(!c.disconnect());
}
