//! Tests for the join-handle state machine, and an end-to-end scenario of
//! three spawned tasks sharing one mutex across yield points.

use webio::join::{JoinError, JoinState};
use webio::mutex::Mutex;

#[test]
fn triple_spawn_join() {
    // Three spawned tasks finish with distinct values; joining each handle
    // yields its own value.
    let mut handles: Vec<JoinState<i32, String, u32>> = Vec::new();
    for v in [3, 5, 7] {
        let mut s: JoinState<i32, String, u32> = JoinState::init_connected();
        s.task_success(v);
        s.producer_dropped();
        handles.push(s);
    }
    let mut results: Vec<i32> = Vec::new();
    for mut s in handles {
        results.push(s.poll(0).unwrap().unwrap());
    }
    assert_eq!(results, vec![3, 5, 7]);
}

#[test]
fn join_pending_until_task_ends() {
    let mut s: JoinState<i32, String, u32> = JoinState::init_connected();
    assert!(s.poll(1).is_none());
    s.task_success(11);
    // Still pending: the task side has not gone away yet.
    assert!(s.poll(2).is_none());
    let woken = s.producer_dropped();
    // The earliest parked waker is the one woken.
    assert_eq!(woken, Some(1));
    assert_eq!(s.poll(3), Some(Ok(11)));
}

#[test]
fn join_panic_surfaces_payload() {
    let mut s: JoinState<i32, String, u32> = JoinState::init_connected();
    s.task_panicked(String::from("kaboom"));
    s.producer_dropped();
    let err = s.poll(0).unwrap().unwrap_err();
    assert!(err.is_panic());
    assert!(!err.is_cancelled());
    assert_eq!(err.into_panic(), String::from("kaboom"));
}

#[test]
fn join_cancelled_task() {
    // A task dropped without recording anything reads as cancelled, not as
    // an eternal wait.
    let mut s: JoinState<i32, String, u32> = JoinState::init_connected();
    s.producer_dropped();
    let err = s.poll(0).unwrap().unwrap_err();
    assert!(err.is_cancelled());
    assert!(!err.is_panic());
    let back = err.try_into_panic().unwrap_err();
    assert!(back.is_cancelled());
}

#[test]
fn join_error_conversions() {
    let e: JoinError<String> = JoinError::panicked(String::from("p"));
    assert!(e.is_panic());
    assert_eq!(e.try_into_panic().unwrap(), String::from("p"));
    let c: JoinError<String> = JoinError::cancelled();
    assert!(c.is_cancelled());
    assert!(c.try_into_panic().is_err());
}

#[test]
fn three_tasks_isolation_across_yields() {
    // Three tasks each lock a shared mutex, write a distinct value, yield
    // once, and must still observe their own value: no other task's write
    // can land inside a critical section, even across a suspension point.
    // The host loop here wakes tasks in a scrambled order on purpose.
    let mut m: Mutex<i32, usize> = Mutex::new(0);
    let mut handles: Vec<JoinState<(), String, usize>> = Vec::new();
    for _ in 0..3 {
        handles.push(JoinState::init_connected());
    }

    // Phase of each task: 0 = wants the lock, 1 = holds and has written,
    // 2 = done. Cards and guards per task.
    let values = [10, 20, 30];
    let mut phase = [0u8; 3];
    let mut cards = [0u64; 3];
    let mut guards: Vec<Option<webio::mutex::MutexGuard>> = vec![None, None, None];

    for task in 0..3 {
        let (card, _) = m.lock_request(task);
        cards[task] = card;
    }

    // Scrambled wake order: each entry names the task that runs next.
    let schedule = [2usize, 1, 0, 2, 0, 1, 2, 1, 0, 0, 1, 2, 2];
    for &task in schedule.iter() {
        match phase[task] {
            0 => {
                if let Some(g) = m.poll_acquired(cards[task]) {
                    m.write_locked(&g, values[task]);
                    guards[task] = Some(g);
                    phase[task] = 1;
                    // The task now yields, holding the lock.
                }
            }
            1 => {
                // Back from the yield: the write must be intact.
                let g = guards[task].take().unwrap();
                assert_eq!(*m.read_locked(&g), values[task]);
                m.unlock(g);
                handles[task].task_success(());
                handles[task].producer_dropped();
                phase[task] = 2;
            }
            _ => {}
        }
    }

    for task in 0..3 {
        assert_eq!(phase[task], 2);
        assert_eq!(handles[task].poll(task), Some(Ok(())));
    }
}
