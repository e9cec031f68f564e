//! The state machine behind a task join handle.
//!
//! A spawned task and the handle joining it share one cell: a connection
//! flag, at most one waker of the joining side, and the task's outcome. The
//! producer side records success or a captured panic payload and, when it
//! goes away, disconnects and wakes the joiner; the joining side polls,
//! parking its waker while the task still runs. A task that vanishes
//! without recording anything — it was cancelled — surfaces as a
//! [`JoinError`] that says so, never as an eternal wait. A panic payload
//! recorded by the task surfaces only to whoever joins; if nobody joins it
//! is silently dropped, a documented trade-off.

use vstd::prelude::*;

verus! {

/// Why joining a task failed.
#[derive(Debug, PartialEq, Eq)]
enum JoinErrorKind<P> {
    Panicked(P),
    Cancelled,
}

/// An error produced when waiting for a task: the task panicked — with the
/// captured payload inside — or it was cancelled before completing.
#[derive(Debug, PartialEq, Eq)]
pub struct JoinError<P> {
    kind: JoinErrorKind<P>,
}

impl<P> JoinError<P> {
    /// The error reports a panic.
    pub closed spec fn is_panic_spec(self) -> bool {
        self.kind is Panicked
    }

    /// The captured payload, when the error reports a panic.
    pub closed spec fn payload_spec(self) -> P
        recommends
            self.is_panic_spec(),
    {
        self.kind->Panicked_0
    }

    /// The cancellation error, as a specification-level value.
    pub closed spec fn cancelled_spec() -> Self {
        JoinError { kind: JoinErrorKind::Cancelled }
    }

    /// An error reporting that the task was cancelled.
    pub fn cancelled() -> (r: Self)
        ensures
            r == Self::cancelled_spec(),
            !r.is_panic_spec(),
    {
        JoinError { kind: JoinErrorKind::Cancelled }
    }

    /// The panic error carrying payload `p`, as a specification-level value.
    pub closed spec fn panicked_spec(p: P) -> Self {
        JoinError { kind: JoinErrorKind::Panicked(p) }
    }

    /// An error reporting that the task panicked with payload `p`.
    pub fn panicked(p: P) -> (r: Self)
        ensures
            r == Self::panicked_spec(p),
            r.is_panic_spec(),
            r.payload_spec() == p,
    {
        JoinError { kind: JoinErrorKind::Panicked(p) }
    }

    /// Tests whether the target task was cancelled.
    pub fn is_cancelled(&self) -> (r: bool)
        ensures
            r == !self.is_panic_spec(),
    {
        match self.kind {
            JoinErrorKind::Cancelled => true,
            JoinErrorKind::Panicked(_) => false,
        }
    }

    /// Tests whether the target task panicked.
    pub fn is_panic(&self) -> (r: bool)
        ensures
            r == self.is_panic_spec(),
    {
        match self.kind {
            JoinErrorKind::Panicked(_) => true,
            JoinErrorKind::Cancelled => false,
        }
    }

    /// Attempts to convert this error into the captured panic payload.
    /// Fails — handing the error back — if the task did not panic.
    pub fn try_into_panic(self) -> (r: Result<P, Self>)
        ensures
            self.is_panic_spec() ==> r == Result::<P, Self>::Ok(self.payload_spec()),
            !self.is_panic_spec() ==> r == Result::<P, Self>::Err(self),
    {
        match self.kind {
            JoinErrorKind::Panicked(payload) => Ok(payload),
            kind => Err(JoinError { kind }),
        }
    }

    /// Converts this error into the captured panic payload. Callers must
    /// first check [`JoinError::is_panic`]: the conversion is only defined
    /// for a panic.
    pub fn into_panic(self) -> (r: P)
        requires
            self.is_panic_spec(),
        ensures
            r == self.payload_spec(),
    {
        match self.kind {
            JoinErrorKind::Panicked(payload) => payload,
            JoinErrorKind::Cancelled => unreached(),
        }
    }
}

/// The cell shared by a running task and the handle joining it.
pub struct JoinState<T, P, W> {
    connected: bool,
    waker: Option<W>,
    data: Result<T, JoinError<P>>,
}

impl<T, P, W> JoinState<T, P, W> {
    /// The task is still running: no outcome has been settled yet.
    pub closed spec fn connected(self) -> bool {
        self.connected
    }

    /// The joiner's parked waker, if any.
    pub closed spec fn stored_waker(self) -> Option<W> {
        self.waker
    }

    /// The outcome slot. Until the task records anything it holds the
    /// cancellation error, so a task that vanishes silently reads as
    /// cancelled.
    pub closed spec fn outcome(self) -> Result<T, JoinError<P>> {
        self.data
    }

    /// State after the task records success with `v`.
    pub closed spec fn after_success(self, v: T) -> Self {
        JoinState { connected: self.connected, waker: self.waker, data: Ok(v) }
    }

    /// State after the task records a captured panic with payload `p`.
    pub closed spec fn after_panicked(self, p: P) -> Self {
        JoinState {
            connected: self.connected,
            waker: self.waker,
            data: Err(JoinError { kind: JoinErrorKind::Panicked(p) }),
        }
    }

    /// State after the task side goes away: disconnected, waker taken out
    /// for firing.
    pub closed spec fn after_producer_drop(self) -> Self {
        JoinState { connected: false, waker: None, data: self.data }
    }

    /// What a poll returns in this state: nothing while the task runs, the
    /// settled outcome afterwards.
    pub open spec fn poll_result(self) -> Option<Result<T, JoinError<P>>> {
        if self.connected() {
            None
        } else {
            Some(self.outcome())
        }
    }

    /// A fresh cell for a task that just started.
    pub fn init_connected() -> (r: Self)
        ensures
            r.connected(),
            r.stored_waker() is None,
            r.outcome() == Result::<T, JoinError<P>>::Err(JoinError::<P>::cancelled_spec()),
            !(r.outcome()->Err_0).is_panic_spec(),
    {
        JoinState { connected: true, waker: None, data: Err(JoinError::cancelled()) }
    }

    /// The task finished with `v`; the outcome slot now holds it.
    pub fn task_success(&mut self, v: T)
        ensures
            *final(self) == old(self).after_success(v),
            final(self).outcome() == Result::<T, JoinError<P>>::Ok(v),
            final(self).connected() == old(self).connected(),
            final(self).stored_waker() == old(self).stored_waker(),
    {
        self.data = Ok(v);
    }

    /// The task panicked; the captured payload is the outcome.
    pub fn task_panicked(&mut self, p: P)
        ensures
            *final(self) == old(self).after_panicked(p),
            final(self).outcome() == Result::<T, JoinError<P>>::Err(JoinError::<P>::panicked_spec(p)),
            final(self).connected() == old(self).connected(),
            final(self).stored_waker() == old(self).stored_waker(),
    {
        self.data = Err(JoinError { kind: JoinErrorKind::Panicked(p) });
    }

    /// The task side is gone — after recording an outcome or not. The cell
    /// disconnects, and the joiner's waker, handed back for firing, lets a
    /// waiting joiner collect the outcome instead of pending forever.
    pub fn producer_dropped(&mut self) -> (r: Option<W>)
        ensures
            *final(self) == old(self).after_producer_drop(),
            r == old(self).stored_waker(),
            !final(self).connected(),
            final(self).stored_waker() is None,
            final(self).outcome() == old(self).outcome(),
    {
        self.connected = false;
        self.waker.take()
    }

    /// The joining side polls: while the task runs its waker is parked (the
    /// earliest parked waker stays authoritative) and nothing is returned;
    /// once the task side is gone the settled outcome is handed out.
    pub fn poll(&mut self, waker: W) -> (r: Option<Result<T, JoinError<P>>>)
        ensures
            r == old(self).poll_result(),
            final(self).connected() == old(self).connected(),
            old(self).connected() ==> {
                &&& r is None
                &&& final(self).outcome() == old(self).outcome()
                &&& (old(self).stored_waker() is None ==> final(self).stored_waker() == Some(
                    waker,
                ))
                &&& (old(self).stored_waker() is Some ==> final(self).stored_waker() == old(
                    self,
                ).stored_waker())
            },
            !old(self).connected() ==> {
                &&& r == Some(old(self).outcome())
                &&& final(self).outcome() == Result::<T, JoinError<P>>::Err(
                    JoinError::<P>::cancelled_spec(),
                )
                &&& final(self).stored_waker() == old(self).stored_waker()
            },
    {
        if self.connected {
            if self.waker.is_none() {
                self.waker = Some(waker);
            }
            None
        } else {
            let mut data: Result<T, JoinError<P>> = Err(JoinError::cancelled());
            core::mem::swap(&mut self.data, &mut data);
            Some(data)
        }
    }

    /// The joining side is gone: the cell disconnects, and whatever the
    /// task records later is silently dropped.
    pub fn handle_dropped(&mut self)
        ensures
            !final(self).connected(),
            final(self).stored_waker() == old(self).stored_waker(),
            final(self).outcome() == old(self).outcome(),
    {
        self.connected = false;
    }
}

/// A task's panic surfaces to the joiner: after the task records payload
/// `p` and its side goes away, a poll returns an error that reports a panic
/// and carries exactly `p` — the unwind never crosses the spawn boundary,
/// only the payload does.
pub proof fn lemma_join_panic_surfaces<T, P, W>(s: JoinState<T, P, W>, p: P)
    ensures
        ({
            let r = s.after_panicked(p).after_producer_drop().poll_result();
            &&& r is Some
            &&& r->Some_0 is Err
            &&& (r->Some_0->Err_0).is_panic_spec()
            &&& (r->Some_0->Err_0).payload_spec() == p
        }),
{
}

/// A cancelled task surfaces as such: if the task side goes away without
/// recording any outcome, a poll returns the cancellation error — never an
/// eternal wait, and never a made-up value.
pub proof fn lemma_join_cancellation_surfaces<T, P, W>(s: JoinState<T, P, W>)
    requires
        s.outcome() == Result::<T, JoinError<P>>::Err(JoinError::<P>::cancelled_spec()),
    ensures
        ({
            let r = s.after_producer_drop().poll_result();
            &&& r is Some
            &&& r->Some_0 is Err
            &&& !(r->Some_0->Err_0).is_panic_spec()
        }),
{
}

/// A completed task's value reaches the joiner unchanged: success with `v`,
/// then the task side going away, then a poll yields exactly `Ok(v)`.
pub proof fn lemma_join_success_surfaces<T, P, W>(s: JoinState<T, P, W>, v: T)
    ensures
        s.after_success(v).after_producer_drop().poll_result() == Some(
            Result::<T, JoinError<P>>::Ok(v),
        ),
{
}

} // verus!
