//! The shared cell behind a notifier/listener pair.
//!
//! A callback-to-future bridge needs one small state machine: a cell that a
//! producer fills with the outcome of a callback — a value, or the payload
//! of a panic caught at the callback boundary — and that a consumer polls.
//! The cell also records whether the two sides are still connected and at
//! most one consumer waker. This module verifies that state machine; the
//! unverified host side wraps it in shared ownership, fires the returned
//! wakers, and catches the panics whose payloads travel through here.
//!
//! One cell serves both cardinalities: a one-shot listener takes the single
//! value and then sees the disconnect, while a multi-shot listener keeps the
//! cell open and drains one value per occurrence. A disconnect — whichever
//! side goes first — is reported to every later receive as [`Error::Cancelled`].

use vstd::prelude::*;

verus! {

/// Why a listener's wait ended without a value.
#[derive(Debug, PartialEq, Eq)]
pub enum Error<P> {
    /// The callback panicked; the captured payload is carried along instead
    /// of unwinding across the registration boundary.
    Panicked(P),
    /// The other side lost interest — or the single value was already
    /// delivered — before a value was produced.
    Cancelled,
}

/// The shared channel cell: connection flag, at most one consumer waker, and
/// at most one undelivered outcome.
pub struct Channel<T, P, W> {
    connected: bool,
    waker: Option<W>,
    data: Option<Result<T, P>>,
}

impl<T, P, W> Channel<T, P, W> {
    /// Both endpoints are still interested.
    pub closed spec fn connected(self) -> bool {
        self.connected
    }

    /// The consumer waker parked for the next delivery, if any.
    pub closed spec fn stored_waker(self) -> Option<W> {
        self.waker
    }

    /// The undelivered outcome, if any: a value, or a captured panic payload.
    pub closed spec fn stored_data(self) -> Option<Result<T, P>> {
        self.data
    }

    /// State after the producer reports success with `v`: while connected
    /// the outcome slot holds `Ok(v)`; after a disconnect the value is
    /// discarded. Either way the parked waker is taken out for firing.
    pub closed spec fn after_success(self, v: T) -> Self {
        if self.connected {
            Channel { connected: self.connected, waker: None, data: Some(Ok(v)) }
        } else {
            Channel { connected: self.connected, waker: None, data: self.data }
        }
    }

    /// State after the producer reports a caught panic with payload `p`.
    pub closed spec fn after_panicked(self, p: P) -> Self {
        if self.connected {
            Channel { connected: self.connected, waker: None, data: Some(Err(p)) }
        } else {
            Channel { connected: self.connected, waker: None, data: self.data }
        }
    }

    /// What a receive returns in this state: a present outcome is delivered
    /// (a payload wrapped as [`Error::Panicked`]); with no outcome, a
    /// connected channel asks the consumer to wait, a disconnected one
    /// reports [`Error::Cancelled`].
    pub open spec fn receive_result(self) -> Option<Result<T, Error<P>>> {
        match self.stored_data() {
            Some(Ok(v)) => Some(Ok(v)),
            Some(Err(p)) => Some(Err(Error::Panicked(p))),
            None => if self.connected() {
                None
            } else {
                Some(Err(Error::Cancelled))
            },
        }
    }

    /// State after a receive: the outcome slot is drained.
    pub closed spec fn after_receive(self) -> Self {
        Channel { connected: self.connected, waker: self.waker, data: None }
    }

    /// State after the consumer drops: the channel disconnects; whatever
    /// else is stored stays, unread.
    pub closed spec fn after_listener_drop(self) -> Self {
        Channel { connected: false, waker: self.waker, data: self.data }
    }

    /// State after the last producer handle drops: the channel disconnects
    /// and the parked waker is taken out for firing, so a waiting consumer
    /// learns of the cancellation instead of pending forever.
    pub closed spec fn after_notifier_drop(self) -> Self {
        Channel { connected: false, waker: None, data: self.data }
    }

    /// A fresh connected cell with no waker and no outcome.
    pub fn new_connected() -> (r: Self)
        ensures
            r.connected(),
            r.stored_waker() is None,
            r.stored_data() is None,
    {
        Channel { connected: true, waker: None, data: None }
    }

    pub fn is_connected(&self) -> (r: bool)
        ensures
            r == self.connected(),
    {
        self.connected
    }

    /// Mark the channel disconnected; reports whether it was connected.
    pub fn disconnect(&mut self) -> (r: bool)
        ensures
            r == old(self).connected(),
            !final(self).connected(),
            final(self).stored_waker() == old(self).stored_waker(),
            final(self).stored_data() == old(self).stored_data(),
    {
        let was = self.connected;
        self.connected = false;
        was
    }

    /// The producer reports success. The returned waker, if any, is to be
    /// fired by the caller so the consumer comes back to poll.
    pub fn success(&mut self, v: T) -> (r: Option<W>)
        ensures
            *final(self) == old(self).after_success(v),
            r == old(self).stored_waker(),
            final(self).connected() == old(self).connected(),
            final(self).stored_waker() is None,
            old(self).connected() ==> final(self).stored_data() == Some(Result::<T, P>::Ok(v)),
            !old(self).connected() ==> final(self).stored_data() == old(self).stored_data(),
    {
        if self.connected {
            self.data = Some(Ok(v));
        }
        self.waker.take()
    }

    /// The producer reports a panic caught at the callback boundary, with
    /// its payload. The returned waker, if any, is to be fired by the
    /// caller.
    pub fn panicked(&mut self, p: P) -> (r: Option<W>)
        ensures
            *final(self) == old(self).after_panicked(p),
            r == old(self).stored_waker(),
            final(self).connected() == old(self).connected(),
            final(self).stored_waker() is None,
            old(self).connected() ==> final(self).stored_data() == Some(Result::<T, P>::Err(p)),
            !old(self).connected() ==> final(self).stored_data() == old(self).stored_data(),
    {
        if self.connected {
            self.data = Some(Err(p));
        }
        self.waker.take()
    }

    /// The consumer takes the next outcome, if one is there; see
    /// [`Channel::receive_result`] for the exact answer in every state.
    pub fn receive(&mut self) -> (r: Option<Result<T, Error<P>>>)
        ensures
            r == old(self).receive_result(),
            *final(self) == old(self).after_receive(),
            final(self).stored_data() is None,
            final(self).connected() == old(self).connected(),
            final(self).stored_waker() == old(self).stored_waker(),
    {
        match self.data.take() {
            Some(Ok(v)) => Some(Ok(v)),
            Some(Err(p)) => Some(Err(Error::Panicked(p))),
            None => if self.connected {
                None
            } else {
                Some(Err(Error::Cancelled))
            },
        }
    }

    /// The consumer parks its waker for the next delivery. The earliest
    /// parked waker stays authoritative: a later subscribe while one is
    /// already parked changes nothing.
    pub fn subscribe(&mut self, w: W)
        ensures
            final(self).connected() == old(self).connected(),
            final(self).stored_data() == old(self).stored_data(),
            old(self).stored_waker() is None ==> final(self).stored_waker() == Some(w),
            old(self).stored_waker() is Some ==> final(self).stored_waker() == old(
                self,
            ).stored_waker(),
    {
        if self.waker.is_none() {
            self.waker = Some(w);
        }
    }

    /// The consumer side is gone: disconnect. Later productions will be
    /// discarded.
    pub fn listener_dropped(&mut self)
        ensures
            *final(self) == old(self).after_listener_drop(),
            !final(self).connected(),
            final(self).stored_waker() == old(self).stored_waker(),
            final(self).stored_data() == old(self).stored_data(),
    {
        self.connected = false;
    }

    /// The last producer handle is gone: disconnect, and hand back the
    /// parked waker so a waiting consumer is told of the cancellation.
    pub fn notifier_dropped(&mut self) -> (r: Option<W>)
        ensures
            *final(self) == old(self).after_notifier_drop(),
            r == old(self).stored_waker(),
            !final(self).connected(),
            final(self).stored_waker() is None,
            final(self).stored_data() == old(self).stored_data(),
    {
        self.connected = false;
        self.waker.take()
    }
}

/// Round trip of a one-shot delivery: after a success with `v` on a
/// connected channel, a receive yields exactly `Ok(v)` and drains the slot;
/// once the producer is gone, the next receive on the drained channel
/// reports `Cancelled` — one value is delivered exactly once.
pub proof fn lemma_oneshot_round_trip<T, P, W>(c: Channel<T, P, W>, v: T)
    requires
        c.connected(),
    ensures
        c.after_success(v).receive_result() == Some(Result::<T, Error<P>>::Ok(v)),
        c.after_success(v).after_receive().after_notifier_drop().receive_result() == Some(
            Result::<T, Error<P>>::Err(Error::Cancelled),
        ),
{
}

/// Panic capture: a panic payload `p` reported on a connected channel is
/// what the consumer receives, wrapped as `Panicked(p)` — the payload
/// surfaces as a value instead of unwinding.
pub proof fn lemma_panic_payload_delivered<T, P, W>(c: Channel<T, P, W>, p: P)
    requires
        c.connected(),
    ensures
        c.after_panicked(p).receive_result() == Some(Result::<T, Error<P>>::Err(Error::Panicked(p))),
{
}

/// Cancellation symmetry, listener side: after the listener drops, a
/// success is a safe no-op — the value is discarded, the channel stays
/// disconnected, and no waker is left parked.
pub proof fn lemma_success_after_listener_drop<T, P, W>(c: Channel<T, P, W>, v: T)
    ensures
        !c.after_listener_drop().after_success(v).connected(),
        c.after_listener_drop().after_success(v).stored_data() == c.stored_data(),
        c.after_listener_drop().after_success(v).stored_waker() is None,
{
}

/// Cancellation symmetry, notifier side: after the last producer drops
/// without delivering, a receive reports `Cancelled` rather than pending
/// forever.
pub proof fn lemma_receive_after_notifier_drop<T, P, W>(c: Channel<T, P, W>)
    requires
        c.stored_data() is None,
    ensures
        c.after_notifier_drop().receive_result() == Some(
            Result::<T, Error<P>>::Err(Error::Cancelled),
        ),
{
}

} // verus!
