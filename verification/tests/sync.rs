//! Scenario tests for the fair mutex and the fair shared/exclusive lock.
//! Wakers are plain integers naming the task to wake; the tests play the
//! role of the host scheduler, driving the state machines by hand.

use webio::mutex::Mutex;
use webio::rw::RwLock;

#[test]
fn mutex_lock_correctness() {
    // Three tasks lock in turn; each writes its value, yields, and still
    // sees its own value when it resumes.
    let mut m: Mutex<i32, u32> = Mutex::new(3);

    let (card0, wake0) = m.lock_request(0);
    assert_eq!(wake0, Some(0));
    let g0 = m.poll_acquired(card0).unwrap();

    let (card1, wake1) = m.lock_request(1);
    assert_eq!(wake1, None);
    let (card2, wake2) = m.lock_request(2);
    assert_eq!(wake2, None);

    m.write_locked(&g0, 5);
    // Task 0 yields; tasks 1 and 2 poll and stay pending.
    assert!(m.poll_acquired(card1).is_none());
    assert!(m.poll_acquired(card2).is_none());
    assert_eq!(*m.read_locked(&g0), 5);

    let next = m.unlock(g0);
    assert_eq!(next, Some(1));
    let g1 = m.poll_acquired(card1).unwrap();
    m.write_locked(&g1, 4);
    assert!(m.poll_acquired(card2).is_none());
    assert_eq!(*m.read_locked(&g1), 4);

    let next = m.unlock(g1);
    assert_eq!(next, Some(2));
    let g2 = m.poll_acquired(card2).unwrap();
    m.write_locked(&g2, 2);
    assert_eq!(*m.read_locked(&g2), 2);
    assert_eq!(m.unlock(g2), None);

    assert_eq!(m.into_inner(), 2);
}

#[test]
fn mutex_try_lock_correctness() {
    let mut m: Mutex<i32, u32> = Mutex::new(3);
    let g = m.try_lock().unwrap();
    m.write_locked(&g, 5);
    assert!(m.try_lock().is_none());
    assert!(m.try_lock().is_none());
    assert_eq!(*m.read_locked(&g), 5);
    assert_eq!(m.unlock(g), None);
    assert!(m.try_lock().is_some());
}

#[test]
fn mutex_lock_fairness() {
    // Guards are granted in the order tickets were issued, whatever order
    // the host fires the wakers in.
    let mut m: Mutex<i32, u32> = Mutex::new(0);
    let (c0, _) = m.lock_request(0);
    let (c1, _) = m.lock_request(1);
    let (c2, _) = m.lock_request(2);

    // The host wakes everyone in reverse order; polls in that order still
    // serve ticket order.
    assert!(m.poll_acquired(c2).is_none());
    assert!(m.poll_acquired(c1).is_none());
    let g0 = m.poll_acquired(c0).unwrap();
    assert_eq!(*m.read_locked(&g0), 0);
    m.write_locked(&g0, 0 + 1);
    assert_eq!(m.unlock(g0), Some(1));

    assert!(m.poll_acquired(c2).is_none());
    let g1 = m.poll_acquired(c1).unwrap();
    assert_eq!(*m.read_locked(&g1), 1);
    m.write_locked(&g1, 1 + 2);
    assert_eq!(m.unlock(g1), Some(2));

    let g2 = m.poll_acquired(c2).unwrap();
    assert_eq!(*m.read_locked(&g2), 3);
    m.write_locked(&g2, 3 + 3);
    assert_eq!(m.unlock(g2), None);
    assert_eq!(m.into_inner(), 6);
}

#[test]
fn mutex_cancel_pending_request() {
    // A lock future dropped while still queued leaves no stale ticket.
    let mut m: Mutex<i32, u32> = Mutex::new(0);
    let (c0, _) = m.lock_request(0);
    let g0 = m.poll_acquired(c0).unwrap();
    let (c1, _) = m.lock_request(1);
    let (c2, _) = m.lock_request(2);
    assert_eq!(m.cancel(c1), None);
    // Releasing now skips the cancelled ticket and serves the next one.
    assert_eq!(m.unlock(g0), Some(2));
    assert!(m.poll_acquired(c2).is_some());
}

#[test]
fn mutex_cancel_owner_hands_off() {
    // A lock future dropped after promotion releases the lock for the next
    // waiter instead of wedging it.
    let mut m: Mutex<i32, u32> = Mutex::new(0);
    let (c0, _) = m.lock_request(0);
    let (c1, _) = m.lock_request(1);
    assert_eq!(m.cancel(c0), Some(1));
    assert!(m.poll_acquired(c1).is_some());
}

#[test]
fn rwlock_correctness() {
    // Two readers share; a writer waits for both, then a late reader sees
    // the written value.
    let mut l: RwLock<i32, u32> = RwLock::new(3);

    let (t0, w0) = l.read_request(0);
    assert_eq!(w0, Some(0));
    let g0 = l.poll_read(t0).unwrap();
    let (t1, w1) = l.read_request(1);
    assert_eq!(w1, Some(1));
    let g1 = l.poll_read(t1).unwrap();
    assert_eq!(*l.read_locked(&g0), 3);
    assert_eq!(*l.read_locked(&g1), 3);

    let (t2, w2) = l.write_request(2);
    assert_eq!(w2, None);

    // A read arriving after the writer queues behind it.
    let (t3, w3) = l.read_request(3);
    assert_eq!(w3, None);

    assert_eq!(l.unlock_read(g0), None);
    assert_eq!(l.unlock_read(g1), Some(2));

    let g2 = l.poll_write(t2).unwrap();
    assert!(l.poll_read(t3).is_none());
    l.write_locked(&g2, 7);
    assert_eq!(*l.read_exclusive(&g2), 7);
    let woken = l.unlock_write(g2);
    assert_eq!(woken, vec![3]);

    let g3 = l.poll_read(t3).unwrap();
    assert_eq!(*l.read_locked(&g3), 7);
    assert_eq!(l.unlock_read(g3), None);
    assert_eq!(l.into_inner(), 7);
}

#[test]
fn rwlock_try_correctness() {
    let mut l: RwLock<i32, u32> = RwLock::new(3);
    let g0 = l.try_read().unwrap();
    let g1 = l.try_read().unwrap();
    assert!(l.try_write().is_none());
    assert_eq!(l.unlock_read(g0), None);
    assert_eq!(l.unlock_read(g1), None);

    let gw = l.try_write().unwrap();
    assert!(l.try_read().is_none());
    assert!(l.try_write().is_none());
    l.write_locked(&gw, 9);
    assert!(l.unlock_write(gw).is_empty());

    let g2 = l.try_read().unwrap();
    assert_eq!(*l.read_locked(&g2), 9);
    assert_eq!(l.unlock_read(g2), None);
}

#[test]
fn rwlock_fairness() {
    // Writer waits behind active readers; a later reader waits behind the
    // writer; releases hand over in arrival order.
    let mut l: RwLock<i32, u32> = RwLock::new(0);
    let (r1, _) = l.read_request(1);
    let (r2, _) = l.read_request(2);
    let gr1 = l.poll_read(r1).unwrap();
    let gr2 = l.poll_read(r2).unwrap();

    let (w, ww) = l.write_request(3);
    assert_eq!(ww, None);
    let (r3, wr3) = l.read_request(4);
    assert_eq!(wr3, None);

    // New readers keep arriving but do not starve the writer.
    assert_eq!(l.unlock_read(gr1), None);
    assert_eq!(l.unlock_read(gr2), Some(3));
    let gw = l.poll_write(w).unwrap();
    assert!(l.poll_read(r3).is_none());
    l.write_locked(&gw, 42);

    // Writer releases: the reader batch that arrived before any next
    // writer is admitted together.
    let woken = l.unlock_write(gw);
    assert_eq!(woken, vec![4]);
    let gr3 = l.poll_read(r3).unwrap();
    assert_eq!(*l.read_locked(&gr3), 42);
    assert_eq!(l.unlock_read(gr3), None);
}

#[test]
fn rwlock_writer_release_admits_reader_batch() {
    // While a writer owns, two readers and then a writer and then a reader
    // queue up; the release admits exactly the batch before the writer.
    let mut l: RwLock<i32, u32> = RwLock::new(0);
    let gw = l.try_write().unwrap();
    let (ra, _) = l.read_request(10);
    let (rb, _) = l.read_request(11);
    let (w2, _) = l.write_request(12);
    let (rc, _) = l.read_request(13);

    let woken = l.unlock_write(gw);
    assert_eq!(woken, vec![10, 11]);
    let ga = l.poll_read(ra).unwrap();
    let gb = l.poll_read(rb).unwrap();
    assert!(l.poll_write(w2).is_none());
    assert!(l.poll_read(rc).is_none());

    assert_eq!(l.unlock_read(ga), None);
    assert_eq!(l.unlock_read(gb), Some(12));
    let gw2 = l.poll_write(w2).unwrap();
    let woken = l.unlock_write(gw2);
    assert_eq!(woken, vec![13]);
    assert!(l.poll_read(rc).is_some());
}

#[test]
fn rwlock_cancel_pending_write_frees_readers() {
    // Dropping a queued write request lets the reads that waited only
    // behind it proceed.
    let mut l: RwLock<i32, u32> = RwLock::new(0);
    let (r1, _) = l.read_request(1);
    let gr1 = l.poll_read(r1).unwrap();
    let (w, _) = l.write_request(2);
    let (r2, _) = l.read_request(3);
    assert!(l.poll_read(r2).is_none());

    let woken = l.cancel_write(w);
    assert_eq!(woken, vec![3]);
    assert!(l.poll_read(r2).is_some());
    assert_eq!(l.unlock_read(gr1), None);
}

#[test]
fn rwlock_cancel_pending_read() {
    let mut l: RwLock<i32, u32> = RwLock::new(0);
    let gw = l.try_write().unwrap();
    let (r1, _) = l.read_request(1);
    let (r2, _) = l.read_request(2);
    assert_eq!(l.cancel_read(r1), None);
    let woken = l.unlock_write(gw);
    assert_eq!(woken, vec![2]);
    assert!(l.poll_read(r2).is_some());
}

#[test]
fn tickets_are_not_reused() {
    let mut m: Mutex<i32, u32> = Mutex::new(0);
    let g0 = m.try_lock().unwrap();
    let t0 = g0.ticket();
    assert_eq!(m.unlock(g0), None);
    let g1 = m.try_lock().unwrap();
    assert!(g1.ticket() > t0);
    assert_eq!(m.unlock(g1), None);
}

#[test]
fn mutex_cancel_unknown_ticket_is_noop() {
    let mut m: Mutex<i32, u32> = Mutex::new(1);
    assert_eq!(m.cancel(99), None);
    assert!(m.may_issue());
    let g = m.try_lock().unwrap();
    assert_eq!(m.cancel(99), None);
    assert!(m.owns(&g));
    assert_eq!(m.unlock(g), None);
}

#[test]
fn rwlock_cancel_owner_runs_release_protocol() {
    let mut l: RwLock<i32, u32> = RwLock::new(0);
    let gw = l.try_write().unwrap();
    let token = gw.ticket();
    let (r1, _) = l.read_request(1);
    // The write future is dropped while owning: the waiting reader batch is
    // admitted exactly as on a normal release.
    let woken = l.cancel_write(token);
    assert_eq!(woken, vec![1]);
    assert!(l.poll_read(r1).is_some());
    drop(gw);
}
