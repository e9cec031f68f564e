//! A fair mutual-exclusion lock driven by arrival tickets.
//!
//! The lock is a state machine: at most one ticket owns the lock, and every
//! other interested party waits in a ticket-ordered queue. Tickets are issued
//! by a strictly increasing counter and never reused, and a release always
//! hands ownership to the least waiting ticket, so waiters are served in
//! arrival order no matter in which order the host scheduler fires their
//! wakers. The waker type `W` is opaque to the lock; whenever an operation
//! would wake a task it returns the waker instead, for the (unverified) host
//! loop to fire.
//!
//! Acquiring the lock while the same logical task already owns it is not
//! detected and the request simply waits forever; callers must not do that.

use crate::waitq::{key_sorted, seq_has_key, WaitQueue};
use vstd::prelude::*;

verus! {

/// Witness that a ticket currently owns a [`Mutex`]. Surrender it to
/// [`Mutex::unlock`] to release the lock.
pub struct MutexGuard {
    card: u64,
}

impl View for MutexGuard {
    type V = u64;

    closed spec fn view(&self) -> u64 {
        self.card
    }
}

impl MutexGuard {
    /// The ticket this guard was granted under.
    pub fn ticket(&self) -> (r: u64)
        ensures
            r == self@,
    {
        self.card
    }
}

/// A fair, ticket-queued mutual-exclusion lock protecting a value of type `T`.
pub struct Mutex<T, W> {
    data: T,
    owner: Option<u64>,
    on_hold: WaitQueue<W>,
    next_card: u64,
}

impl<T, W> Mutex<T, W> {
    /// The ticket currently owning the lock, if any.
    pub closed spec fn owner(self) -> Option<u64> {
        self.owner
    }

    /// The queue of waiting tickets with their wakers, in arrival order.
    pub closed spec fn pending(self) -> Seq<(u64, W)> {
        self.on_hold@
    }

    /// The protected value.
    pub closed spec fn value(self) -> T {
        self.data
    }

    /// The ticket the next request will be issued.
    pub closed spec fn next_ticket(self) -> u64 {
        self.next_card
    }

    /// Ticket `k` is waiting for the lock.
    pub open spec fn has_pending(self, k: u64) -> bool {
        seq_has_key(self.pending(), k)
    }

    /// The guard matches the current owner.
    pub open spec fn holds(self, g: MutexGuard) -> bool {
        self.owner() == Some(g@)
    }

    /// Well-formedness: waiters are sorted by ticket, nobody waits on an
    /// unowned lock, every waiter arrived later than the current owner, and
    /// every ticket ever issued is below the issuing counter.
    pub open spec fn wf(self) -> bool {
        &&& key_sorted(self.pending())
        &&& (match self.owner() {
            Some(o) => {
                &&& o < self.next_ticket()
                &&& forall|i: int|
                    0 <= i < self.pending().len() ==> o < (#[trigger] self.pending()[i]).0
            },
            None => self.pending().len() == 0,
        })
        &&& forall|i: int|
            0 <= i < self.pending().len() ==> (#[trigger] self.pending()[i]).0
                < self.next_ticket()
    }

    /// A further ticket can still be issued without the counter overflowing.
    pub open spec fn can_issue(self) -> bool {
        self.next_ticket() < u64::MAX
    }

    pub fn new(data: T) -> (r: Self)
        ensures
            r.wf(),
            r.owner() is None,
            r.pending().len() == 0,
            r.next_ticket() == 0,
            r.value() == data,
    {
        Mutex { data, owner: None, on_hold: WaitQueue::new(), next_card: 0 }
    }

    /// Whether one more ticket can be issued; false only after the issuing
    /// counter has been exhausted.
    pub fn may_issue(&self) -> (r: bool)
        ensures
            r == self.can_issue(),
    {
        self.next_card < u64::MAX
    }

    /// Read or write the protected value through exclusive access to the lock
    /// itself; no ticket is needed because nobody else can hold a reference.
    pub fn get_mut(&mut self) -> (r: &mut T)
        ensures
            *r == old(self).value(),
            final(self).value() == *final(r),
            final(self).owner() == old(self).owner(),
            final(self).pending() == old(self).pending(),
            final(self).next_ticket() == old(self).next_ticket(),
    {
        &mut self.data
    }

    /// Consume the lock and take the protected value back.
    pub fn into_inner(self) -> (r: T)
        ensures
            r == self.value(),
    {
        self.data
    }

    /// Issue the next ticket and advance the counter.
    fn new_card(&mut self) -> (r: u64)
        requires
            old(self).can_issue(),
        ensures
            r == old(self).next_ticket(),
            final(self).next_ticket() == old(self).next_ticket() + 1,
            final(self).owner() == old(self).owner(),
            final(self).pending() == old(self).pending(),
            final(self).value() == old(self).value(),
    {
        let card = self.next_card;
        self.next_card = self.next_card + 1;
        card
    }

    /// Acquire immediately if the lock is free; never enqueues.
    pub fn try_lock(&mut self) -> (r: Option<MutexGuard>)
        requires
            old(self).wf(),
            old(self).can_issue(),
        ensures
            final(self).wf(),
            final(self).value() == old(self).value(),
            final(self).pending() == old(self).pending(),
            old(self).owner() is Some ==> r is None && *final(self) == *old(self),
            old(self).owner() is None ==> {
                &&& r is Some
                &&& r->Some_0@ == old(self).next_ticket()
                &&& final(self).owner() == Some(old(self).next_ticket())
                &&& final(self).next_ticket() == old(self).next_ticket() + 1
                &&& final(self).holds(r->Some_0)
            },
    {
        if self.owner.is_some() {
            None
        } else {
            let card = self.new_card();
            self.owner = Some(card);
            Some(MutexGuard { card })
        }
    }

    /// Enroll interest in the lock: returns the assigned ticket — later than
    /// every ticket issued before — and the waker to fire now if the lock was
    /// free and ownership was granted on the spot. If the lock is owned, the
    /// waker is parked in the ticket queue instead.
    pub fn lock_request(&mut self, waker: W) -> (r: (u64, Option<W>))
        requires
            old(self).wf(),
            old(self).can_issue(),
        ensures
            final(self).wf(),
            final(self).value() == old(self).value(),
            r.0 == old(self).next_ticket(),
            final(self).next_ticket() == old(self).next_ticket() + 1,
            old(self).owner() is None ==> {
                &&& final(self).owner() == Some(r.0)
                &&& r.1 == Some(waker)
                &&& final(self).pending() == old(self).pending()
            },
            old(self).owner() is Some ==> {
                &&& final(self).owner() == old(self).owner()
                &&& r.1 is None
                &&& final(self).pending().len() == old(self).pending().len() + 1
                &&& final(self).pending().contains((r.0, waker))
                &&& forall|p: (u64, W)|
                    old(self).pending().contains(p) ==> final(self).pending().contains(p)
                &&& forall|p: (u64, W)|
                    final(self).pending().contains(p) ==> p == (r.0, waker) || old(self).pending().contains(p)
            },
    {
        let card = self.new_card();
        if self.owner.is_some() {
            proof {
                // The fresh ticket cannot already be parked: every parked
                // ticket is below the issuing counter.
                if self.on_hold.has_key(card) {
                    let i = choose|i: int|
                        0 <= i < self.pending().len() && (#[trigger] self.pending()[i]).0 == card;
                    assert(false);
                }
            }
            self.on_hold.insert(card, waker);
            proof {
                let s0 = old(self).pending();
                let s1 = self.pending();
                let o = self.owner()->Some_0;
                assert forall|i: int| 0 <= i < s1.len() implies o < (#[trigger] s1[i]).0 && (
                #[trigger] s1[i]).0 < self.next_ticket() by {
                    assert(s1.contains(s1[i]));
                    if s1[i] != (card, waker) {
                        assert(s0.contains(s1[i]));
                        let j = choose|j: int| 0 <= j < s0.len() && s0[j] == s1[i];
                        assert(o < s0[j].0);
                    }
                }
            }
            (card, None)
        } else {
            self.owner = Some(card);
            (card, Some(waker))
        }
    }

    /// Has this ticket been promoted to owner? If so, hand out the guard.
    pub fn poll_acquired(&self, card: u64) -> (r: Option<MutexGuard>)
        ensures
            r is Some <==> self.owner() == Some(card),
            r is Some ==> r->Some_0@ == card && self.holds(r->Some_0),
    {
        match self.owner {
            Some(o) if o == card => Some(MutexGuard { card }),
            _ => None,
        }
    }

    /// Does the guard hold this lock right now?
    pub fn owns(&self, g: &MutexGuard) -> (r: bool)
        ensures
            r == self.holds(*g),
    {
        match self.owner {
            Some(o) => o == g.card,
            None => false,
        }
    }

    /// Read the protected value while holding the lock.
    pub fn read_locked(&self, g: &MutexGuard) -> (r: &T)
        requires
            self.holds(*g),
        ensures
            *r == self.value(),
    {
        &self.data
    }

    /// Replace the protected value while holding the lock; the previous value
    /// is handed back.
    pub fn write_locked(&mut self, g: &MutexGuard, data: T) -> (r: T)
        requires
            old(self).holds(*g),
        ensures
            r == old(self).value(),
            final(self).value() == data,
            final(self).owner() == old(self).owner(),
            final(self).pending() == old(self).pending(),
            final(self).next_ticket() == old(self).next_ticket(),
            final(self).holds(*g),
    {
        let mut data = data;
        core::mem::swap(&mut self.data, &mut data);
        data
    }

    /// Release the lock. If anyone is waiting, ownership passes to the
    /// earliest waiting ticket — never to a later one — and that waiter's
    /// waker is handed back to be fired.
    pub fn unlock(&mut self, g: MutexGuard) -> (r: Option<W>)
        requires
            old(self).wf(),
            old(self).holds(g),
        ensures
            final(self).wf(),
            final(self).value() == old(self).value(),
            final(self).next_ticket() == old(self).next_ticket(),
            old(self).pending().len() == 0 ==> {
                &&& r is None
                &&& final(self).owner() is None
                &&& final(self).pending().len() == 0
            },
            old(self).pending().len() > 0 ==> {
                &&& final(self).owner() == Some(old(self).pending()[0].0)
                &&& r == Some(old(self).pending()[0].1)
                &&& final(self).pending() == old(self).pending().subrange(
                    1,
                    old(self).pending().len() as int,
                )
                &&& forall|i: int|
                    0 <= i < old(self).pending().len() ==> old(self).pending()[0].0 <= (
                    #[trigger] old(self).pending()[i]).0
            },
    {
        self.release()
    }

    /// Withdraw a ticket whose acquisition was abandoned. A ticket still in
    /// the queue is simply removed; a ticket that had already been promoted
    /// to owner releases the lock as [`Mutex::unlock`] would, handing back
    /// the waker of the next owner if any.
    pub fn cancel(&mut self, card: u64) -> (r: Option<W>)
        requires
            old(self).wf(),
        ensures
            final(self).wf(),
            final(self).value() == old(self).value(),
            final(self).next_ticket() == old(self).next_ticket(),
            old(self).owner() == Some(card) ==> {
                &&& (old(self).pending().len() == 0 ==> r is None && final(self).owner() is None)
                &&& (old(self).pending().len() > 0 ==> final(self).owner() == Some(
                    old(self).pending()[0].0,
                ) && r == Some(old(self).pending()[0].1) && final(self).pending() == old(self).pending().subrange(1, old(self).pending().len() as int))
            },
            old(self).owner() != Some(card) ==> {
                &&& final(self).owner() == old(self).owner()
                &&& r is None
                &&& !final(self).has_pending(card)
                &&& forall|p: (u64, W)|
                    p.0 != card ==> (final(self).pending().contains(p) <==> old(self).pending().contains(p))
            },
    {
        let is_owner = match self.owner {
            Some(o) => o == card,
            None => false,
        };
        if is_owner {
            self.release()
        } else {
            self.on_hold.remove(card);
            proof {
                let s0 = old(self).pending();
                let s1 = self.pending();
                assert forall|i: int| 0 <= i < s1.len() implies s0.contains(#[trigger] s1[i]) by {
                    assert(s1.contains(s1[i]));
                    if s1[i].0 == card {
                        assert(seq_has_key(s1, card));
                    }
                }
                assert forall|i: int| 0 <= i < s1.len() implies (#[trigger] s1[i]).0
                    < self.next_ticket() && (self.owner() is Some ==> self.owner()->Some_0
                    < s1[i].0) by {
                    let j = choose|j: int| 0 <= j < s0.len() && s0[j] == s1[i];
                }
                if self.owner() is None {
                    assert(s0.len() == 0);
                    if s1.len() > 0 {
                        assert(s0.contains(s1[0]));
                    }
                }
            }
            None
        }
    }

    /// Drop ownership and promote the earliest waiting ticket, if any.
    fn release(&mut self) -> (r: Option<W>)
        requires
            old(self).wf(),
            old(self).owner() is Some,
        ensures
            final(self).wf(),
            final(self).value() == old(self).value(),
            final(self).next_ticket() == old(self).next_ticket(),
            old(self).pending().len() == 0 ==> {
                &&& r is None
                &&& final(self).owner() is None
                &&& final(self).pending().len() == 0
            },
            old(self).pending().len() > 0 ==> {
                &&& final(self).owner() == Some(old(self).pending()[0].0)
                &&& r == Some(old(self).pending()[0].1)
                &&& final(self).pending() == old(self).pending().subrange(
                    1,
                    old(self).pending().len() as int,
                )
                &&& forall|i: int|
                    0 <= i < old(self).pending().len() ==> old(self).pending()[0].0 <= (
                    #[trigger] old(self).pending()[i]).0
            },
    {
        self.owner = None;
        match self.on_hold.pop_first() {
            Some((card, waker)) => {
                self.owner = Some(card);
                proof {
                    let s0 = old(self).pending();
                    let s1 = self.pending();
                    assert forall|i: int| 0 <= i < s1.len() implies card < (
                    #[trigger] s1[i]).0 by {
                        assert(s1[i] == s0[i + 1]);
                        assert(s0[0].0 < s0[i + 1].0);
                    }
                    assert forall|i: int| 0 <= i < s0.len() implies s0[0].0 <= (
                    #[trigger] s0[i]).0 by {
                        if i > 0 {
                            assert(s0[0].0 < s0[i].0);
                        }
                    }
                }
                Some(waker)
            },
            None => None,
        }
    }
}

/// Fairness of the hand-off order: whenever the lock is owned, every ticket
/// still waiting is strictly later than the ticket being served. Ownership
/// therefore moves in strictly increasing ticket order — the order in which
/// requests arrived — never in the order wakers happen to fire.
pub proof fn lemma_pending_later_than_owner<T, W>(m: Mutex<T, W>, o: u64, k: u64)
    requires
        m.wf(),
        m.owner() == Some(o),
        m.has_pending(k),
    ensures
        o < k,
{
    let i = choose|i: int| 0 <= i < m.pending().len() && (#[trigger] m.pending()[i]).0 == k;
    assert(o < m.pending()[i].0);
}

/// Fairness of a release: with tickets `a` and `b` both waiting and `a`
/// earlier, the ticket at the head of the queue — the one a release promotes —
/// is no later than `a`, and in particular is never `b`. A waiter can thus
/// never overtake an earlier waiter, whatever the wake order.
pub proof fn lemma_release_serves_earliest<T, W>(m: Mutex<T, W>, a: u64, b: u64)
    requires
        m.wf(),
        m.has_pending(a),
        m.has_pending(b),
        a < b,
    ensures
        m.pending().len() > 0,
        m.pending()[0].0 <= a,
        m.pending()[0].0 != b,
{
    let s = m.pending();
    let i = choose|i: int| 0 <= i < s.len() && (#[trigger] s[i]).0 == a;
    if i > 0 {
        assert(s[0].0 < s[i].0);
    }
}

} // verus!
