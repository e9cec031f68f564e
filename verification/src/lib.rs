//! Single-threaded cooperative concurrency primitives, verified.
//!
//! The crate models the state machines at the heart of a cooperative
//! runtime: a fair ticket-based mutex, a fair shared/exclusive lock built
//! on two ticket queues, and the shared channel cells that turn one-shot or
//! repeated callback completions — and spawned tasks — into pollable
//! results, with captured panic payloads and symmetric cancellation.
//!
//! The design assumes one logical thread of control: concurrency hazards
//! come from suspension points, not preemption. Wakers are kept generic:
//! every operation that would wake a task instead returns the wakers to be
//! woken, so an unverified host loop around this crate owns all side
//! effects — sharing, waking, and catching panics — while the ordering and
//! hand-off rules proved here decide everything else.

pub mod channel;
pub mod join;
pub mod mutex;
pub mod rw;
pub mod waitq;
