//! A fair shared/exclusive lock driven by arrival tickets.
//!
//! Readers may hold the lock together; a writer holds it alone. Two
//! ticket-ordered queues park the waiters: one for reads on hold, one for
//! writes on hold. Admission follows arrival order across both queues: a new
//! read is admitted only when no writer owns the lock and no writer is
//! waiting, and a new write only when nothing owns the lock. When a writer
//! releases, the batch of reads that arrived before the next waiting writer
//! is admitted together; if there is no such batch the writer at the head of
//! the queue takes ownership. When the last reader releases, the writer at
//! the head of the queue takes ownership. Neither side can therefore starve
//! the other. As in the rest of the crate, the waker type `W` is opaque and
//! every operation returns the wakers to fire instead of firing them.

use crate::waitq::{key_sorted, seq_has_key, ticket_sorted, TicketSet, WaitQueue};
use vstd::prelude::*;

verus! {

/// Every ticket in the queue is above `o`.
pub open spec fn keys_above<W>(s: Seq<(u64, W)>, o: u64) -> bool {
    forall|i: int| 0 <= i < s.len() ==> (#[trigger] s[i]).0 > o
}

/// Every ticket in the queue is below `b`.
pub open spec fn keys_below<W>(s: Seq<(u64, W)>, b: u64) -> bool {
    forall|i: int| 0 <= i < s.len() ==> (#[trigger] s[i]).0 < b
}

/// Every ticket in the set is below `b`.
pub open spec fn elems_below(s: Seq<u64>, b: u64) -> bool {
    forall|i: int| 0 <= i < s.len() ==> (#[trigger] s[i]) < b
}

/// A ticket `k` waits in the queue strictly before the bound: with no bound,
/// every waiting ticket qualifies.
pub open spec fn below(k: u64, bound: Option<u64>) -> bool {
    match bound {
        None => true,
        Some(b) => k < b,
    }
}

/// Length of the longest prefix whose tickets are all below the bound. On a
/// ticket-sorted queue this is the number of waiters that arrived before the
/// bound.
pub open spec fn cut<W>(s: Seq<(u64, W)>, bound: Option<u64>) -> int
    decreases s.len(),
{
    if s.len() == 0 {
        0
    } else if below(s[0].0, bound) {
        1 + cut(s.subrange(1, s.len() as int), bound)
    } else {
        0
    }
}

/// Basic facts about [`cut`]: it is a prefix length, and every ticket in the
/// prefix is below the bound.
pub proof fn lemma_cut_props<W>(s: Seq<(u64, W)>, bound: Option<u64>)
    ensures
        0 <= cut(s, bound) <= s.len(),
        forall|i: int| 0 <= i < cut(s, bound) ==> below((#[trigger] s[i]).0, bound),
        cut(s, bound) < s.len() ==> !below(s[cut(s, bound)].0, bound),
    decreases s.len(),
{
    if s.len() > 0 && below(s[0].0, bound) {
        let t = s.subrange(1, s.len() as int);
        lemma_cut_props(t, bound);
        assert forall|i: int| 0 <= i < cut(s, bound) implies below((#[trigger] s[i]).0, bound) by {
            if i > 0 {
                assert(t[i - 1] == s[i]);
                assert(below(t[i - 1].0, bound));
            }
        }
        if cut(s, bound) < s.len() {
            assert(s[cut(s, bound)] == t[cut(t, bound)]);
        }
    }
}

/// Witness that a ticket holds a [`RwLock`] shared: surrender it to
/// [`RwLock::unlock_read`].
pub struct ReadGuard {
    token: u64,
}

impl View for ReadGuard {
    type V = u64;

    closed spec fn view(&self) -> u64 {
        self.token
    }
}

impl ReadGuard {
    /// The ticket this guard was granted under.
    pub fn ticket(&self) -> (r: u64)
        ensures
            r == self@,
    {
        self.token
    }
}

/// Witness that a ticket holds a [`RwLock`] exclusively: surrender it to
/// [`RwLock::unlock_write`].
pub struct WriteGuard {
    token: u64,
}

impl View for WriteGuard {
    type V = u64;

    closed spec fn view(&self) -> u64 {
        self.token
    }
}

impl WriteGuard {
    /// The ticket this guard was granted under.
    pub fn ticket(&self) -> (r: u64)
        ensures
            r == self@,
    {
        self.token
    }
}

/// A fair shared/exclusive lock protecting a value of type `T`.
pub struct RwLock<T, W> {
    data: T,
    write_owner: Option<u64>,
    read_owners: TicketSet,
    reads_on_hold: WaitQueue<W>,
    writes_on_hold: WaitQueue<W>,
    next_token: u64,
}

impl<T, W> RwLock<T, W> {
    /// The ticket holding the lock exclusively, if any.
    pub closed spec fn write_owner(self) -> Option<u64> {
        self.write_owner
    }

    /// The tickets currently admitted as readers, in increasing order.
    pub closed spec fn read_owners(self) -> Seq<u64> {
        self.read_owners@
    }

    /// Reads waiting for admission, with their wakers, in arrival order.
    pub closed spec fn reads_pending(self) -> Seq<(u64, W)> {
        self.reads_on_hold@
    }

    /// Writes waiting for admission, with their wakers, in arrival order.
    pub closed spec fn writes_pending(self) -> Seq<(u64, W)> {
        self.writes_on_hold@
    }

    /// The protected value.
    pub closed spec fn value(self) -> T {
        self.data
    }

    /// The ticket the next request will be issued.
    pub closed spec fn next_ticket(self) -> u64 {
        self.next_token
    }

    /// Ticket `k` waits in the read queue.
    pub open spec fn has_waiting_reader(self, k: u64) -> bool {
        seq_has_key(self.reads_pending(), k)
    }

    /// Ticket `k` waits in the write queue.
    pub open spec fn has_waiting_writer(self, k: u64) -> bool {
        seq_has_key(self.writes_pending(), k)
    }

    /// The guard matches a currently admitted reader.
    pub open spec fn holds_read(self, g: ReadGuard) -> bool {
        self.read_owners().contains(g@)
    }

    /// The guard matches the current exclusive owner.
    pub open spec fn holds_write(self, g: WriteGuard) -> bool {
        self.write_owner() == Some(g@)
    }

    /// A request arriving now is admitted as a reader at once: nobody owns
    /// the lock exclusively and no writer is waiting.
    pub open spec fn admits_new_reader(self) -> bool {
        self.write_owner() is None && self.writes_pending().len() == 0
    }

    /// A request arriving now is admitted as the writer at once: nothing
    /// owns the lock, shared or exclusive.
    pub open spec fn admits_new_writer(self) -> bool {
        self.write_owner() is None && self.read_owners().len() == 0
    }

    /// Well-formedness of the whole lock state.
    pub open spec fn wf(self) -> bool {
        // Queues and the reader set are sorted by ticket.
        &&& key_sorted(self.reads_pending())
        &&& key_sorted(self.writes_pending())
        &&& ticket_sorted(self.read_owners())
        // Every ticket ever issued is below the issuing counter.
        &&& (self.write_owner() is Some ==> self.write_owner()->Some_0 < self.next_ticket())
        &&& elems_below(self.read_owners(), self.next_ticket())
        &&& keys_below(self.reads_pending(), self.next_ticket())
        &&& keys_below(self.writes_pending(), self.next_ticket())
        // Exclusive means exclusive, and every waiter arrived after the owner.
        &&& (match self.write_owner() {
            Some(o) => {
                &&& self.read_owners().len() == 0
                &&& keys_above(self.writes_pending(), o)
                &&& keys_above(self.reads_pending(), o)
            },
            None => true,
        })
        // A waiting ticket is in one place only.
        &&& (forall|i: int|
            0 <= i < self.reads_pending().len() ==> !self.read_owners().contains(
                (#[trigger] self.reads_pending()[i]).0,
            ))
        &&& (forall|i: int|
            0 <= i < self.reads_pending().len() ==> !seq_has_key(
                self.writes_pending(),
                (#[trigger] self.reads_pending()[i]).0,
            ))
        // While nobody owns exclusively, a read keeps waiting only behind the
        // writer at the head of the write queue.
        &&& (self.write_owner() is None && self.writes_pending().len() > 0 ==> keys_above(
            self.reads_pending(),
            self.writes_pending()[0].0,
        ))
        // Nobody waits while the lock is free.
        &&& (self.write_owner() is None && self.writes_pending().len() == 0
            ==> self.reads_pending().len() == 0)
        &&& (self.writes_pending().len() > 0 ==> self.write_owner() is Some
            || self.read_owners().len() > 0)
    }

    /// A further ticket can still be issued without the counter overflowing.
    pub open spec fn can_issue(self) -> bool {
        self.next_ticket() < u64::MAX
    }

    pub fn new(data: T) -> (r: Self)
        ensures
            r.wf(),
            r.write_owner() is None,
            r.read_owners().len() == 0,
            r.reads_pending().len() == 0,
            r.writes_pending().len() == 0,
            r.next_ticket() == 0,
            r.value() == data,
    {
        RwLock {
            data,
            write_owner: None,
            read_owners: TicketSet::new(),
            reads_on_hold: WaitQueue::new(),
            writes_on_hold: WaitQueue::new(),
            next_token: 0,
        }
    }

    /// Whether one more ticket can be issued; false only after the issuing
    /// counter has been exhausted.
    pub fn may_issue(&self) -> (r: bool)
        ensures
            r == self.can_issue(),
    {
        self.next_token < u64::MAX
    }

    /// Read or write the protected value through exclusive access to the lock
    /// itself; no ticket is needed because nobody else can hold a reference.
    pub fn get_mut(&mut self) -> (r: &mut T)
        ensures
            *r == old(self).value(),
            final(self).value() == *final(r),
            final(self).write_owner() == old(self).write_owner(),
            final(self).read_owners() == old(self).read_owners(),
            final(self).reads_pending() == old(self).reads_pending(),
            final(self).writes_pending() == old(self).writes_pending(),
            final(self).next_ticket() == old(self).next_ticket(),
    {
        &mut self.data
    }

    /// Consume the lock and take the protected value back.
    pub fn into_inner(self) -> (r: T)
        ensures
            r == self.value(),
    {
        self.data
    }

    /// Acquire shared immediately if no writer owns or waits; never enqueues.
    pub fn try_read(&mut self) -> (r: Option<ReadGuard>)
        requires
            old(self).wf(),
            old(self).can_issue(),
        ensures
            final(self).wf(),
            final(self).value() == old(self).value(),
            !old(self).admits_new_reader() ==> r is None && *final(self) == *old(self),
            old(self).admits_new_reader() ==> {
                &&& r is Some
                &&& r->Some_0@ == old(self).next_ticket()
                &&& final(self).holds_read(r->Some_0)
                &&& final(self).next_ticket() == old(self).next_ticket() + 1
                &&& final(self).write_owner() is None
                &&& final(self).reads_pending() == old(self).reads_pending()
                &&& final(self).writes_pending() == old(self).writes_pending()
                &&& final(self).read_owners().len() == old(self).read_owners().len() + 1
                &&& final(self).read_owners().contains(old(self).next_ticket())
                &&& forall|k: u64|
                    old(self).read_owners().contains(k) ==> final(self).read_owners().contains(k)
                &&& forall|k: u64|
                    final(self).read_owners().contains(k) ==> k == old(self).next_ticket() || old(self).read_owners().contains(k)
            },
    {
        if self.write_owner.is_none() && self.writes_on_hold.is_empty() {
            let token = self.new_token();
            self.read_owners.insert(token);
            proof {
                self.lemma_fresh_read_admitted(*old(self), token);
            }
            Some(ReadGuard { token })
        } else {
            None
        }
    }

    /// Acquire exclusive immediately if nothing holds the lock; never
    /// enqueues. In a well-formed lock a writer can only be waiting while
    /// something owns the lock, so this never overtakes a waiting writer.
    pub fn try_write(&mut self) -> (r: Option<WriteGuard>)
        requires
            old(self).wf(),
            old(self).can_issue(),
        ensures
            final(self).wf(),
            final(self).value() == old(self).value(),
            !old(self).admits_new_writer() ==> r is None && *final(self) == *old(self),
            old(self).admits_new_writer() ==> {
                &&& r is Some
                &&& r->Some_0@ == old(self).next_ticket()
                &&& final(self).holds_write(r->Some_0)
                &&& final(self).next_ticket() == old(self).next_ticket() + 1
                &&& final(self).write_owner() == Some(old(self).next_ticket())
                &&& final(self).read_owners() == old(self).read_owners()
                &&& final(self).reads_pending() == old(self).reads_pending()
                &&& final(self).writes_pending() == old(self).writes_pending()
            },
    {
        if self.write_owner.is_none() && self.read_owners.is_empty() {
            let token = self.new_token();
            self.write_owner = Some(token);
            Some(WriteGuard { token })
        } else {
            None
        }
    }

    /// Enroll interest in shared access: returns the assigned ticket — later
    /// than every ticket issued before — and the waker to fire now if the
    /// request was admitted on the spot. A request finding a writer owning
    /// or waiting parks in the read queue instead.
    pub fn read_request(&mut self, waker: W) -> (r: (u64, Option<W>))
        requires
            old(self).wf(),
            old(self).can_issue(),
        ensures
            final(self).wf(),
            final(self).value() == old(self).value(),
            r.0 == old(self).next_ticket(),
            final(self).next_ticket() == old(self).next_ticket() + 1,
            final(self).write_owner() == old(self).write_owner(),
            final(self).writes_pending() == old(self).writes_pending(),
            old(self).admits_new_reader() ==> {
                &&& r.1 == Some(waker)
                &&& final(self).reads_pending() == old(self).reads_pending()
                &&& final(self).read_owners().len() == old(self).read_owners().len() + 1
                &&& final(self).read_owners().contains(r.0)
                &&& forall|k: u64|
                    old(self).read_owners().contains(k) ==> final(self).read_owners().contains(k)
                &&& forall|k: u64|
                    final(self).read_owners().contains(k) ==> k == r.0 || old(self).read_owners().contains(k)
            },
            !old(self).admits_new_reader() ==> {
                &&& r.1 is None
                &&& final(self).read_owners() == old(self).read_owners()
                &&& final(self).reads_pending().len() == old(self).reads_pending().len() + 1
                &&& final(self).reads_pending().contains((r.0, waker))
                &&& forall|p: (u64, W)|
                    old(self).reads_pending().contains(p) ==> final(self).reads_pending().contains(
                        p,
                    )
                &&& forall|p: (u64, W)|
                    final(self).reads_pending().contains(p) ==> p == (r.0, waker) || old(self).reads_pending().contains(p)
            },
    {
        let token = self.new_token();
        if self.write_owner.is_none() && self.writes_on_hold.is_empty() {
            self.read_owners.insert(token);
            proof {
                self.lemma_fresh_read_admitted(*old(self), token);
            }
            (token, Some(waker))
        } else {
            proof {
                // The fresh ticket cannot already be parked: every parked
                // ticket is below the issuing counter.
                let rp = self.reads_pending();
                if self.reads_on_hold.has_key(token) {
                    let i = choose|i: int| 0 <= i < rp.len() && (#[trigger] rp[i]).0 == token;
                    assert(false);
                }
            }
            self.reads_on_hold.insert(token, waker);
            proof {
                self.lemma_fresh_read_parked(*old(self), token, waker);
            }
            (token, None)
        }
    }

    /// Enroll interest in exclusive access: returns the assigned ticket —
    /// later than every ticket issued before — and the waker to fire now if
    /// the request was admitted on the spot. A request finding the lock held
    /// parks in the write queue instead.
    pub fn write_request(&mut self, waker: W) -> (r: (u64, Option<W>))
        requires
            old(self).wf(),
            old(self).can_issue(),
        ensures
            final(self).wf(),
            final(self).value() == old(self).value(),
            r.0 == old(self).next_ticket(),
            final(self).next_ticket() == old(self).next_ticket() + 1,
            final(self).read_owners() == old(self).read_owners(),
            final(self).reads_pending() == old(self).reads_pending(),
            old(self).admits_new_writer() ==> {
                &&& r.1 == Some(waker)
                &&& final(self).write_owner() == Some(r.0)
                &&& final(self).writes_pending() == old(self).writes_pending()
            },
            !old(self).admits_new_writer() ==> {
                &&& r.1 is None
                &&& final(self).write_owner() == old(self).write_owner()
                &&& final(self).writes_pending().len() == old(self).writes_pending().len() + 1
                &&& final(self).writes_pending().contains((r.0, waker))
                &&& forall|p: (u64, W)|
                    old(self).writes_pending().contains(p) ==> final(self).writes_pending().contains(p)
                &&& forall|p: (u64, W)|
                    final(self).writes_pending().contains(p) ==> p == (r.0, waker) || old(self).writes_pending().contains(p)
            },
    {
        let token = self.new_token();
        if self.write_owner.is_none() && self.read_owners.is_empty() {
            self.write_owner = Some(token);
            (token, Some(waker))
        } else {
            proof {
                // The fresh ticket cannot already be parked: every parked
                // ticket is below the issuing counter.
                let wp = self.writes_pending();
                if self.writes_on_hold.has_key(token) {
                    let i = choose|i: int| 0 <= i < wp.len() && (#[trigger] wp[i]).0 == token;
                    assert(false);
                }
            }
            self.writes_on_hold.insert(token, waker);
            proof {
                self.lemma_fresh_write_parked(*old(self), token, waker);
            }
            (token, None)
        }
    }

    /// Re-establish well-formedness after admitting a fresh read ticket into
    /// the reader set.
    proof fn lemma_fresh_read_admitted(&self, pre: Self, token: u64)
        requires
            pre.wf(),
            pre.admits_new_reader(),
            token == pre.next_ticket(),
            self.next_ticket() == pre.next_ticket() + 1,
            self.write_owner() == pre.write_owner(),
            self.reads_pending() == pre.reads_pending(),
            self.writes_pending() == pre.writes_pending(),
            ticket_sorted(self.read_owners()),
            self.read_owners().len() == pre.read_owners().len() + 1,
            forall|k: u64| pre.read_owners().contains(k) ==> self.read_owners().contains(k),
            forall|k: u64|
                self.read_owners().contains(k) ==> k == token || pre.read_owners().contains(k),
        ensures
            self.wf(),
    {
        assert forall|i: int| 0 <= i < self.read_owners().len() implies (
        #[trigger] self.read_owners()[i]) < self.next_ticket() by {
            let ro = self.read_owners();
            assert(ro.contains(ro[i]));
            if ro[i] != token {
                assert(pre.read_owners().contains(ro[i]));
                let j = choose|j: int| 0 <= j < pre.read_owners().len() && pre.read_owners()[j] == ro[i];
            }
        }
        assert forall|i: int| 0 <= i < self.reads_pending().len() implies !self.read_owners().contains(
            (#[trigger] self.reads_pending()[i]).0,
        ) by {
            let rp = self.reads_pending();
            if self.read_owners().contains(rp[i].0) {
                if rp[i].0 == token {
                    assert(keys_below(pre.reads_pending(), pre.next_ticket()));
                } else {
                    assert(pre.read_owners().contains(rp[i].0));
                }
            }
        }
    }

    /// Every pair of the new queue that is not the freshly parked one was
    /// already there; used to re-establish well-formedness after parking a
    /// fresh read ticket.
    proof fn lemma_fresh_read_parked(&self, pre: Self, token: u64, waker: W)
        requires
            pre.wf(),
            token == pre.next_ticket(),
            self.next_ticket() == pre.next_ticket() + 1,
            self.write_owner() == pre.write_owner(),
            self.read_owners() == pre.read_owners(),
            self.writes_pending() == pre.writes_pending(),
            key_sorted(self.reads_pending()),
            self.reads_pending().len() == pre.reads_pending().len() + 1,
            forall|p: (u64, W)|
                self.reads_pending().contains(p) ==> p == (token, waker) || pre.reads_pending().contains(
                    p,
                ),
        ensures
            keys_below(self.reads_pending(), self.next_ticket()),
            self.write_owner() is Some ==> keys_above(
                self.reads_pending(),
                self.write_owner()->Some_0,
            ),
            forall|i: int|
                0 <= i < self.reads_pending().len() ==> !self.read_owners().contains(
                    (#[trigger] self.reads_pending()[i]).0,
                ),
            forall|i: int|
                0 <= i < self.reads_pending().len() ==> !seq_has_key(
                    self.writes_pending(),
                    (#[trigger] self.reads_pending()[i]).0,
                ),
            self.write_owner() is None && self.writes_pending().len() > 0 ==> keys_above(
                self.reads_pending(),
                self.writes_pending()[0].0,
            ),
    {
        let s1 = self.reads_pending();
        assert forall|i: int| 0 <= i < s1.len() implies {
            let p = #[trigger] s1[i];
            &&& p.0 < self.next_ticket()
            &&& (self.write_owner() is Some ==> p.0 > self.write_owner()->Some_0)
            &&& !self.read_owners().contains(p.0)
            &&& !seq_has_key(self.writes_pending(), p.0)
            &&& (self.write_owner() is None && self.writes_pending().len() > 0 ==> p.0
                > self.writes_pending()[0].0)
        } by {
            assert(s1.contains(s1[i]));
            if s1[i] == (token, waker) {
                if self.read_owners().contains(token) {
                    let j = choose|j: int|
                        0 <= j < self.read_owners().len() && self.read_owners()[j] == token;
                }
                if seq_has_key(self.writes_pending(), token) {
                    let wp = self.writes_pending();
                    let j = choose|j: int| 0 <= j < wp.len() && (#[trigger] wp[j]).0 == token;
                }
            } else {
                assert(pre.reads_pending().contains(s1[i]));
                let j = choose|j: int|
                    0 <= j < pre.reads_pending().len() && pre.reads_pending()[j] == s1[i];
            }
        }
    }

    /// Counterpart of [`RwLock::lemma_fresh_read_parked`] for the write queue.
    proof fn lemma_fresh_write_parked(&self, pre: Self, token: u64, waker: W)
        requires
            pre.wf(),
            token == pre.next_ticket(),
            !pre.admits_new_writer(),
            self.next_ticket() == pre.next_ticket() + 1,
            self.write_owner() == pre.write_owner(),
            self.read_owners() == pre.read_owners(),
            self.reads_pending() == pre.reads_pending(),
            key_sorted(self.writes_pending()),
            self.writes_pending().len() == pre.writes_pending().len() + 1,
            forall|p: (u64, W)|
                pre.writes_pending().contains(p) ==> self.writes_pending().contains(p),
            forall|p: (u64, W)|
                self.writes_pending().contains(p) ==> p == (token, waker)
                    || pre.writes_pending().contains(p),
        ensures
            keys_below(self.writes_pending(), self.next_ticket()),
            self.write_owner() is Some ==> keys_above(
                self.writes_pending(),
                self.write_owner()->Some_0,
            ),
            forall|i: int|
                0 <= i < self.reads_pending().len() ==> !seq_has_key(
                    self.writes_pending(),
                    (#[trigger] self.reads_pending()[i]).0,
                ),
            self.write_owner() is None && self.writes_pending().len() > 0 ==> keys_above(
                self.reads_pending(),
                self.writes_pending()[0].0,
            ),
            self.writes_pending().len() > 0 ==> self.write_owner() is Some
                || self.read_owners().len() > 0,
    {
        let s1 = self.writes_pending();
        assert forall|i: int| 0 <= i < s1.len() implies {
            let p = #[trigger] s1[i];
            &&& p.0 < self.next_ticket()
            &&& (self.write_owner() is Some ==> p.0 > self.write_owner()->Some_0)
        } by {
            assert(s1.contains(s1[i]));
            if s1[i] != (token, waker) {
                assert(pre.writes_pending().contains(s1[i]));
                let j = choose|j: int|
                    0 <= j < pre.writes_pending().len() && pre.writes_pending()[j] == s1[i];
            }
        }
        // The old head of the write queue, if any, keeps its place: the fresh
        // ticket is larger than every old one.
        if pre.writes_pending().len() > 0 {
            assert(pre.writes_pending().contains(pre.writes_pending()[0]));
            assert(s1.contains(pre.writes_pending()[0]));
            let j = choose|j: int| 0 <= j < s1.len() && s1[j] == pre.writes_pending()[0];
            assert forall|i: int| 0 <= i < self.reads_pending().len() implies !seq_has_key(
                s1,
                (#[trigger] self.reads_pending()[i]).0,
            ) && (self.write_owner() is None ==> (#[trigger] self.reads_pending()[i]).0 > s1[0].0)
                by {
                let rp = self.reads_pending();
                assert(rp.contains(rp[i]));
                if seq_has_key(s1, rp[i].0) {
                    let m = choose|m: int| 0 <= m < s1.len() && (#[trigger] s1[m]).0 == rp[i].0;
                    assert(s1.contains(s1[m]));
                    if s1[m] == (token, waker) {
                        assert(rp[i].0 < pre.next_ticket());
                    } else {
                        assert(pre.writes_pending().contains(s1[m]));
                        assert(seq_has_key(pre.writes_pending(), rp[i].0));
                    }
                }
                if self.write_owner() is None {
                    // The head of the grown queue is the old head: the fresh
                    // ticket sits at the back.
                    assert(s1.contains(s1[0]));
                    assert(s1[0].0 <= s1[j].0);
                    assert(s1[0].0 == pre.writes_pending()[0].0 || s1[0] == (token, waker));
                    if s1[0] == (token, waker) {
                        assert(s1.contains(pre.writes_pending()[0]));
                        assert(pre.writes_pending()[0].0 < token);
                        assert(j > 0);
                        assert(s1[0].0 < s1[j].0);
                    }
                    assert(rp[i].0 > pre.writes_pending()[0].0);
                }
            }
        } else {
            // The write queue was empty, so parking happened because the lock
            // is owned; the single new entry is above the owner, and the read
            // queue holds nothing below it.
            assert forall|i: int| 0 <= i < self.reads_pending().len() implies !seq_has_key(
                s1,
                (#[trigger] self.reads_pending()[i]).0,
            ) && (self.write_owner() is None ==> (#[trigger] self.reads_pending()[i]).0 > s1[0].0)
                by {
                let rp = self.reads_pending();
                assert(rp.contains(rp[i]));
                if seq_has_key(s1, rp[i].0) {
                    let m = choose|m: int| 0 <= m < s1.len() && (#[trigger] s1[m]).0 == rp[i].0;
                    assert(s1.contains(s1[m]));
                    if s1[m] == (token, waker) {
                        assert(rp[i].0 < pre.next_ticket());
                    } else {
                        assert(pre.writes_pending().contains(s1[m]));
                    }
                }
                if self.write_owner() is None {
                    // With no old writers and no exclusive owner, parking a
                    // writer means readers are admitted, and the lock held
                    // shared admits no waiting reads below the fresh ticket.
                    assert(pre.reads_pending().len() == 0 || pre.write_owner() is Some
                        || pre.writes_pending().len() > 0);
                    assert(rp[i].0 < token);
                    assert(s1.len() == 1);
                    assert(s1[0] == (token, waker));
                    assert(false);
                }
            }
        }
    }

    /// Has this ticket been admitted as a reader? If so, hand out the guard.
    pub fn poll_read(&self, token: u64) -> (r: Option<ReadGuard>)
        ensures
            r is Some <==> self.read_owners().contains(token),
            r is Some ==> r->Some_0@ == token && self.holds_read(r->Some_0),
    {
        if self.read_owners.contains(token) {
            Some(ReadGuard { token })
        } else {
            None
        }
    }

    /// Has this ticket been promoted to exclusive owner? If so, hand out the
    /// guard.
    pub fn poll_write(&self, token: u64) -> (r: Option<WriteGuard>)
        ensures
            r is Some <==> self.write_owner() == Some(token),
            r is Some ==> r->Some_0@ == token && self.holds_write(r->Some_0),
    {
        match self.write_owner {
            Some(o) if o == token => Some(WriteGuard { token }),
            _ => None,
        }
    }

    /// Does the guard hold this lock shared right now?
    pub fn owns_read(&self, g: &ReadGuard) -> (r: bool)
        ensures
            r == self.holds_read(*g),
    {
        self.read_owners.contains(g.token)
    }

    /// Does the guard hold this lock exclusively right now?
    pub fn owns_write(&self, g: &WriteGuard) -> (r: bool)
        ensures
            r == self.holds_write(*g),
    {
        match self.write_owner {
            Some(o) => o == g.token,
            None => false,
        }
    }

    /// Read the protected value while holding the lock shared.
    pub fn read_locked(&self, g: &ReadGuard) -> (r: &T)
        requires
            self.holds_read(*g),
        ensures
            *r == self.value(),
    {
        &self.data
    }

    /// Read the protected value while holding the lock exclusively.
    pub fn read_exclusive(&self, g: &WriteGuard) -> (r: &T)
        requires
            self.holds_write(*g),
        ensures
            *r == self.value(),
    {
        &self.data
    }

    /// Replace the protected value while holding the lock exclusively; the
    /// previous value is handed back.
    pub fn write_locked(&mut self, g: &WriteGuard, data: T) -> (r: T)
        requires
            old(self).holds_write(*g),
        ensures
            r == old(self).value(),
            final(self).value() == data,
            final(self).write_owner() == old(self).write_owner(),
            final(self).read_owners() == old(self).read_owners(),
            final(self).reads_pending() == old(self).reads_pending(),
            final(self).writes_pending() == old(self).writes_pending(),
            final(self).next_ticket() == old(self).next_ticket(),
            final(self).holds_write(*g),
    {
        let mut data = data;
        core::mem::swap(&mut self.data, &mut data);
        data
    }

    /// Issue the next ticket and advance the counter.
    fn new_token(&mut self) -> (r: u64)
        requires
            old(self).can_issue(),
        ensures
            r == old(self).next_ticket(),
            final(self).next_ticket() == old(self).next_ticket() + 1,
            final(self).write_owner() == old(self).write_owner(),
            final(self).read_owners() == old(self).read_owners(),
            final(self).reads_pending() == old(self).reads_pending(),
            final(self).writes_pending() == old(self).writes_pending(),
            final(self).value() == old(self).value(),
    {
        let token = self.next_token;
        self.next_token = self.next_token + 1;
        token
    }

    /// Admit every waiting read that arrived before `bound` — before the
    /// head of the write queue, or every waiting read when no writer waits —
    /// moving them from the read queue into the reader set. Returns their
    /// wakers in arrival order. Helper for the release paths; the caller
    /// passes the head of the write queue as the bound.
    fn forward_reads(&mut self, bound: Option<u64>) -> (woken: Vec<W>)
        requires
            key_sorted(old(self).reads_pending()),
            key_sorted(old(self).writes_pending()),
            ticket_sorted(old(self).read_owners()),
            old(self).write_owner() is None,
            elems_below(old(self).read_owners(), old(self).next_ticket()),
            keys_below(old(self).reads_pending(), old(self).next_ticket()),
            forall|i: int|
                0 <= i < old(self).reads_pending().len() ==> !old(self).read_owners().contains(
                    (#[trigger] old(self).reads_pending()[i]).0,
                ),
            forall|i: int|
                0 <= i < old(self).reads_pending().len() ==> !seq_has_key(
                    old(self).writes_pending(),
                    (#[trigger] old(self).reads_pending()[i]).0,
                ),
            match bound {
                Some(b) => old(self).writes_pending().len() > 0 && b == old(self).writes_pending()[0].0,
                None => old(self).writes_pending().len() == 0,
            },
        ensures
            ({
                let rp = old(self).reads_pending();
                let n = cut(rp, bound);
                &&& final(self).write_owner() is None
                &&& final(self).writes_pending() == old(self).writes_pending()
                &&& final(self).value() == old(self).value()
                &&& final(self).next_ticket() == old(self).next_ticket()
                &&& final(self).reads_pending() == rp.subrange(n, rp.len() as int)
                &&& key_sorted(final(self).reads_pending())
                &&& woken@.len() == n
                &&& (forall|j: int| 0 <= j < n ==> woken@[j] == (#[trigger] rp[j]).1)
                &&& ticket_sorted(final(self).read_owners())
                &&& final(self).read_owners().len() == old(self).read_owners().len() + n
                &&& (forall|k: u64|
                    final(self).read_owners().contains(k) <==> old(self).read_owners().contains(k)
                        || seq_has_key(#[trigger] rp.take(n), k))
                &&& elems_below(final(self).read_owners(), final(self).next_ticket())
                &&& keys_below(final(self).reads_pending(), final(self).next_ticket())
                &&& (forall|i: int|
                    0 <= i < final(self).reads_pending().len() ==> !final(self).read_owners().contains((#[trigger] final(self).reads_pending()[i]).0))
                &&& (forall|i: int|
                    0 <= i < final(self).reads_pending().len() ==> !seq_has_key(
                        final(self).writes_pending(),
                        (#[trigger] final(self).reads_pending()[i]).0,
                    ))
                &&& (match bound {
                    Some(b) => forall|i: int|
                        0 <= i < final(self).reads_pending().len() ==> (#[trigger] final(self).reads_pending()[i]).0 > b,
                    None => final(self).reads_pending().len() == 0,
                })
            }),
    {
        let ghost rp = self.reads_pending();
        let ghost ro0 = self.read_owners();
        let ghost wp = self.writes_pending();
        let ghost next0 = self.next_ticket();
        let ghost v0 = self.value();
        let mut woken: Vec<W> = Vec::new();
        proof {
            assert(rp.take(0) == Seq::<(u64, W)>::empty());
            assert(self.reads_pending() == rp.subrange(0, rp.len() as int));
        }
        loop
            invariant
                key_sorted(rp),
                key_sorted(wp),
                ticket_sorted(ro0),
                elems_below(ro0, next0),
                keys_below(rp, next0),
                forall|i: int| 0 <= i < rp.len() ==> !ro0.contains((#[trigger] rp[i]).0),
                forall|i: int| 0 <= i < rp.len() ==> !seq_has_key(wp, (#[trigger] rp[i]).0),
                match bound {
                    Some(b) => wp.len() > 0 && b == wp[0].0,
                    None => wp.len() == 0,
                },
                self.write_owner() is None,
                self.writes_pending() == wp,
                self.value() == v0,
                self.next_ticket() == next0,
                0 <= woken@.len() <= rp.len(),
                self.reads_pending() == rp.subrange(woken@.len() as int, rp.len() as int),
                forall|j: int| 0 <= j < woken@.len() ==> woken@[j] == (#[trigger] rp[j]).1,
                forall|j: int| 0 <= j < woken@.len() ==> below((#[trigger] rp[j]).0, bound),
                ticket_sorted(self.read_owners()),
                self.read_owners().len() == ro0.len() + woken@.len(),
                forall|k: u64|
                    self.read_owners().contains(k) <==> ro0.contains(k) || seq_has_key(
                        #[trigger] rp.take(woken@.len() as int),
                        k,
                    ),
                cut(rp, bound) == woken@.len() + cut(self.reads_pending(), bound),
            ensures
                cut(self.reads_pending(), bound) == 0,
            decreases rp.len() - woken@.len(),
        {
            let ghost i = woken@.len() as int;
            let ghost remaining = self.reads_pending();
            let ghost ro_pre = self.read_owners();
            let stop = match (self.reads_on_hold.first_key(), bound) {
                (None, _) => true,
                (Some(k), Some(b)) => k >= b,
                (Some(_), None) => false,
            };
            if stop {
                proof {
                    if remaining.len() == 0 {
                        assert(cut(remaining, bound) == 0);
                    } else {
                        assert(!below(remaining[0].0, bound));
                        assert(cut(remaining, bound) == 0);
                    }
                }
                break ;
            }
            proof {
                assert(remaining.len() > 0);
                assert(below(remaining[0].0, bound));
                assert(cut(remaining, bound) == 1 + cut(
                    remaining.subrange(1, remaining.len() as int),
                    bound,
                ));
                assert(remaining[0] == rp[i]);
            }
            if let Some((t, w)) = self.reads_on_hold.pop_first() {
                proof {
                    assert((t, w) == rp[i]);
                    assert(self.reads_pending() == remaining.subrange(1, remaining.len() as int));
                    assert(self.reads_pending() =~= rp.subrange(i + 1, rp.len() as int));
                    // The ticket moving over is not yet an owner.
                    assert(rp.contains(rp[i]));
                    if ro_pre.contains(t) {
                        if seq_has_key(rp.take(i), t) {
                            let j = choose|j: int| 0 <= j < i && (#[trigger] rp.take(i)[j]).0 == t;
                            assert(rp[j] == rp.take(i)[j]);
                            assert(rp[j].0 < rp[i].0);
                        }
                        assert(false);
                    }
                }
                self.read_owners.insert(t);
                woken.push(w);
                proof {
                    let t0 = rp.take(i);
                    let t1 = rp.take(i + 1);
                    assert(t1 =~= t0.push(rp[i]));
                    assert(t1[i].0 == t);
                    assert forall|k: u64| seq_has_key(t1, k) implies seq_has_key(t0, k) || k
                        == t by {
                        let j = choose|j: int| 0 <= j < t1.len() && (#[trigger] t1[j]).0 == k;
                        if j < i {
                            assert(t0[j].0 == k);
                        }
                    }
                    assert forall|k: u64| seq_has_key(t0, k) implies seq_has_key(t1, k) by {
                        let j = choose|j: int| 0 <= j < t0.len() && (#[trigger] t0[j]).0 == k;
                        assert(t1[j].0 == k);
                    }
                    assert(seq_has_key(t1, t));
                    assert forall|k: u64| #![auto]
                        self.read_owners().contains(k) <==> ro0.contains(k) || seq_has_key(
                            t1,
                            k,
                        ) by {
                        if self.read_owners().contains(k) {
                            assert(k == t || ro_pre.contains(k));
                        }
                        if seq_has_key(t1, k) {
                            assert(seq_has_key(t0, k) || k == t);
                        }
                    }
                }
            }
        }
        proof {
            let n = cut(rp, bound);
            assert(n == woken@.len());
            let rem = self.reads_pending();
            assert forall|a: int, b2: int|
                #![trigger rem[a], rem[b2]]
                0 <= a < b2 < rem.len() implies rem[a].0 < rem[b2].0 by {
                assert(rem[a] == rp[n + a]);
                assert(rem[b2] == rp[n + b2]);
            }
            assert forall|i: int| 0 <= i < rem.len() implies {
                &&& !self.read_owners().contains((#[trigger] rem[i]).0)
                &&& !seq_has_key(wp, rem[i].0)
                &&& rem[i].0 < next0
            } by {
                assert(rem[i] == rp[n + i]);
                if self.read_owners().contains(rem[i].0) {
                    if seq_has_key(rp.take(n), rem[i].0) {
                        let key = rem[i].0;
                        let j = choose|j: int| 0 <= j < n && (#[trigger] rp.take(n)[j]).0 == key;
                        assert(rp[j] == rp.take(n)[j]);
                        assert(rp[j].0 < rp[n + i].0);
                    }
                }
            }
            assert forall|i: int| 0 <= i < self.read_owners().len() implies (
            #[trigger] self.read_owners()[i]) < next0 by {
                let ro1 = self.read_owners();
                assert(ro1.contains(ro1[i]));
                if ro0.contains(ro1[i]) {
                    let j = choose|j: int| 0 <= j < ro0.len() && ro0[j] == ro1[i];
                } else {
                    assert(seq_has_key(rp.take(n), ro1[i]));
                    let j = choose|j: int| 0 <= j < n && (#[trigger] rp.take(n)[j]).0 == ro1[i];
                    assert(rp[j] == rp.take(n)[j]);
                }
            }
            match bound {
                Some(b) => {
                    lemma_cut_props(rp, bound);
                    assert forall|i: int| 0 <= i < rem.len() implies (#[trigger] rem[i]).0 > b by {
                        assert(rem[i] == rp[n + i]);
                        if n < rp.len() {
                            assert(!below(rp[n].0, bound));
                            if i > 0 {
                                assert(rp[n].0 < rp[n + i].0);
                            }
                            assert(rp[n + i].0 >= b);
                        }
                        // Equality is impossible: the ticket would also sit
                        // in the write queue.
                        if rp[n + i].0 == b {
                            assert(wp[0].0 == rp[n + i].0);
                            assert(seq_has_key(wp, rp[n + i].0));
                        }
                    }
                },
                None => {
                    if rem.len() > 0 {
                        assert(below(rem[0].0, bound));
                        let tail = rem.subrange(1, rem.len() as int);
                        assert(cut(rem, bound) == 1 + cut(tail, bound));
                        lemma_cut_props(tail, bound);
                        assert(false);
                    }
                },
            }
        }
        woken
    }

    /// Release exclusive ownership and run the hand-off protocol: the batch
    /// of waiting reads that arrived before the writer at the head of the
    /// queue is admitted together; when there is no such batch, that writer
    /// takes ownership; with no writer waiting at all, every waiting read is
    /// admitted. The wakers of everyone admitted are returned in arrival
    /// order.
    fn do_release_write(&mut self) -> (woken: Vec<W>)
        requires
            old(self).wf(),
            old(self).write_owner() is Some,
        ensures
            final(self).wf(),
            final(self).value() == old(self).value(),
            final(self).next_ticket() == old(self).next_ticket(),
            ({
                let rp = old(self).reads_pending();
                let wp = old(self).writes_pending();
                &&& (wp.len() == 0 ==> {
                    &&& final(self).write_owner() is None
                    &&& final(self).writes_pending().len() == 0
                    &&& final(self).reads_pending().len() == 0
                    &&& woken@.len() == rp.len()
                    &&& (forall|j: int| 0 <= j < rp.len() ==> woken@[j] == (#[trigger] rp[j]).1)
                    &&& (forall|k: u64|
                        final(self).read_owners().contains(k) <==> seq_has_key(rp, k))
                })
                &&& (wp.len() > 0 && cut(rp, Some(wp[0].0)) == 0 ==> {
                    &&& final(self).write_owner() == Some(wp[0].0)
                    &&& final(self).writes_pending() == wp.subrange(1, wp.len() as int)
                    &&& final(self).reads_pending() == rp
                    &&& final(self).read_owners().len() == 0
                    &&& woken@.len() == 1
                    &&& woken@[0] == wp[0].1
                    &&& (forall|i: int| 0 <= i < wp.len() ==> wp[0].0 <= (#[trigger] wp[i]).0)
                })
                &&& (wp.len() > 0 && cut(rp, Some(wp[0].0)) > 0 ==> {
                    let n = cut(rp, Some(wp[0].0));
                    &&& final(self).write_owner() is None
                    &&& final(self).writes_pending() == wp
                    &&& final(self).reads_pending() == rp.subrange(n, rp.len() as int)
                    &&& woken@.len() == n
                    &&& (forall|j: int| 0 <= j < n ==> woken@[j] == (#[trigger] rp[j]).1)
                    &&& (forall|k: u64|
                        final(self).read_owners().contains(k) <==> seq_has_key(rp.take(n), k))
                })
            }),
    {
        let ghost rp = self.reads_pending();
        let ghost wp = self.writes_pending();
        self.write_owner = None;
        let bound = self.writes_on_hold.first_key();
        let mut woken = self.forward_reads(bound);
        proof {
            if wp.len() == 0 {
                lemma_cut_props(rp, bound);
                if cut(rp, bound) < rp.len() {
                    assert(!below(rp[cut(rp, bound)].0, bound));
                }
                assert(cut(rp, bound) == rp.len());
                assert(rp.take(cut(rp, bound)) =~= rp);
            }
        }
        if !self.writes_on_hold.is_empty() && self.read_owners.is_empty() {
            let ghost n = cut(rp, bound);
            proof {
                assert(n == 0);
            }
            if let Some((t, w)) = self.writes_on_hold.pop_first() {
                self.write_owner = Some(t);
                woken.push(w);
                proof {
                    assert((t, w) == wp[0]);
                    let wp1 = self.writes_pending();
                    assert(wp1 == wp.subrange(1, wp.len() as int));
                    assert(rp.subrange(0, rp.len() as int) =~= rp);
                    assert forall|i: int| 0 <= i < wp1.len() implies (#[trigger] wp1[i]).0 > t
                        && wp1[i].0 < self.next_ticket() by {
                        assert(wp1[i] == wp[i + 1]);
                        assert(wp[0].0 < wp[i + 1].0);
                    }
                    assert forall|i: int| 0 <= i < wp.len() implies wp[0].0 <= (
                    #[trigger] wp[i]).0 by {
                        if i > 0 {
                            assert(wp[0].0 < wp[i].0);
                        }
                    }
                    let rem = self.reads_pending();
                    assert forall|i: int| 0 <= i < rem.len() implies !seq_has_key(
                        wp1,
                        (#[trigger] rem[i]).0,
                    ) by {
                        if seq_has_key(wp1, rem[i].0) {
                            let j = choose|j: int|
                                0 <= j < wp1.len() && (#[trigger] wp1[j]).0 == rem[i].0;
                            assert(wp[j + 1].0 == rem[i].0);
                            assert(seq_has_key(wp, rem[i].0));
                        }
                    }
                }
            }
        }
        woken
    }

    /// Release exclusive ownership. See [`RwLock::do_release_write`] for the
    /// hand-off protocol; the returned wakers are to be fired by the caller.
    pub fn unlock_write(&mut self, g: WriteGuard) -> (woken: Vec<W>)
        requires
            old(self).wf(),
            old(self).holds_write(g),
        ensures
            final(self).wf(),
            final(self).value() == old(self).value(),
            final(self).next_ticket() == old(self).next_ticket(),
            ({
                let rp = old(self).reads_pending();
                let wp = old(self).writes_pending();
                &&& (wp.len() == 0 ==> {
                    &&& final(self).write_owner() is None
                    &&& final(self).writes_pending().len() == 0
                    &&& final(self).reads_pending().len() == 0
                    &&& woken@.len() == rp.len()
                    &&& (forall|j: int| 0 <= j < rp.len() ==> woken@[j] == (#[trigger] rp[j]).1)
                    &&& (forall|k: u64|
                        final(self).read_owners().contains(k) <==> seq_has_key(rp, k))
                })
                &&& (wp.len() > 0 && cut(rp, Some(wp[0].0)) == 0 ==> {
                    &&& final(self).write_owner() == Some(wp[0].0)
                    &&& final(self).writes_pending() == wp.subrange(1, wp.len() as int)
                    &&& final(self).reads_pending() == rp
                    &&& final(self).read_owners().len() == 0
                    &&& woken@.len() == 1
                    &&& woken@[0] == wp[0].1
                    &&& (forall|i: int| 0 <= i < wp.len() ==> wp[0].0 <= (#[trigger] wp[i]).0)
                })
                &&& (wp.len() > 0 && cut(rp, Some(wp[0].0)) > 0 ==> {
                    let n = cut(rp, Some(wp[0].0));
                    &&& final(self).write_owner() is None
                    &&& final(self).writes_pending() == wp
                    &&& final(self).reads_pending() == rp.subrange(n, rp.len() as int)
                    &&& woken@.len() == n
                    &&& (forall|j: int| 0 <= j < n ==> woken@[j] == (#[trigger] rp[j]).1)
                    &&& (forall|k: u64|
                        final(self).read_owners().contains(k) <==> seq_has_key(rp.take(n), k))
                })
            }),
    {
        self.do_release_write()
    }

    /// Withdraw `token` from the reader set; when the set empties and a
    /// writer waits, the earliest waiting writer takes ownership and its
    /// waker is handed back.
    fn do_release_read(&mut self, token: u64) -> (r: Option<W>)
        requires
            old(self).wf(),
            old(self).read_owners().contains(token),
        ensures
            final(self).wf(),
            final(self).value() == old(self).value(),
            final(self).next_ticket() == old(self).next_ticket(),
            final(self).reads_pending() == old(self).reads_pending(),
            !final(self).read_owners().contains(token),
            forall|k: u64|
                k != token ==> (final(self).read_owners().contains(k) <==> old(self).read_owners().contains(k)),
            final(self).read_owners().len() == old(self).read_owners().len() - 1,
            old(self).read_owners().len() > 1 || old(self).writes_pending().len() == 0 ==> {
                &&& r is None
                &&& final(self).write_owner() is None
                &&& final(self).writes_pending() == old(self).writes_pending()
            },
            old(self).read_owners().len() == 1 && old(self).writes_pending().len() > 0 ==> {
                &&& final(self).write_owner() == Some(old(self).writes_pending()[0].0)
                &&& r == Some(old(self).writes_pending()[0].1)
                &&& final(self).writes_pending() == old(self).writes_pending().subrange(
                    1,
                    old(self).writes_pending().len() as int,
                )
                &&& (forall|i: int|
                    0 <= i < old(self).writes_pending().len() ==> old(self).writes_pending()[0].0
                        <= (#[trigger] old(self).writes_pending()[i]).0)
            },
    {
        let ghost wp = self.writes_pending();
        proof {
            // A reader is admitted, so nobody owns the lock exclusively.
            if self.write_owner() is Some {
                assert(self.read_owners().len() == 0);
            }
        }
        self.read_owners.remove(token);
        proof {
            let ro0 = old(self).read_owners();
            let ro1 = self.read_owners();
            assert forall|i: int| 0 <= i < ro1.len() implies (#[trigger] ro1[i])
                < self.next_ticket() by {
                assert(ro1.contains(ro1[i]));
                assert(ro0.contains(ro1[i]));
                let j = choose|j: int| 0 <= j < ro0.len() && ro0[j] == ro1[i];
            }
            assert forall|i: int| 0 <= i < self.reads_pending().len() implies !ro1.contains(
                (#[trigger] self.reads_pending()[i]).0,
            ) by {
                let key = self.reads_pending()[i].0;
                if ro1.contains(key) {
                    assert(ro0.contains(key));
                }
            }
        }
        if self.read_owners.is_empty() {
            match self.writes_on_hold.pop_first() {
                Some((t, w)) => {
                    self.write_owner = Some(t);
                    proof {
                        assert((t, w) == wp[0]);
                        let wp1 = self.writes_pending();
                        assert forall|i: int| 0 <= i < wp1.len() implies (#[trigger] wp1[i]).0 > t
                            && wp1[i].0 < self.next_ticket() by {
                            assert(wp1[i] == wp[i + 1]);
                            assert(wp[0].0 < wp[i + 1].0);
                        }
                        assert forall|i: int| 0 <= i < wp.len() implies wp[0].0 <= (
                        #[trigger] wp[i]).0 by {
                            if i > 0 {
                                assert(wp[0].0 < wp[i].0);
                            }
                        }
                        let rem = self.reads_pending();
                        assert forall|i: int| 0 <= i < rem.len() implies (#[trigger] rem[i]).0 > t
                            && !seq_has_key(wp1, rem[i].0) by {
                            assert(rem[i].0 > wp[0].0);
                            if seq_has_key(wp1, rem[i].0) {
                                let j = choose|j: int|
                                    0 <= j < wp1.len() && (#[trigger] wp1[j]).0 == rem[i].0;
                                assert(wp[j + 1].0 == rem[i].0);
                                assert(seq_has_key(wp, rem[i].0));
                            }
                        }
                    }
                    Some(w)
                },
                None => None,
            }
        } else {
            None
        }
    }

    /// Release shared ownership. When the last reader leaves and a writer
    /// waits, the earliest waiting writer takes ownership and its waker is
    /// handed back to be fired.
    pub fn unlock_read(&mut self, g: ReadGuard) -> (r: Option<W>)
        requires
            old(self).wf(),
            old(self).holds_read(g),
        ensures
            final(self).wf(),
            final(self).value() == old(self).value(),
            final(self).next_ticket() == old(self).next_ticket(),
            final(self).reads_pending() == old(self).reads_pending(),
            !final(self).read_owners().contains(g@),
            forall|k: u64|
                k != g@ ==> (final(self).read_owners().contains(k) <==> old(self).read_owners().contains(k)),
            final(self).read_owners().len() == old(self).read_owners().len() - 1,
            old(self).read_owners().len() > 1 || old(self).writes_pending().len() == 0 ==> {
                &&& r is None
                &&& final(self).write_owner() is None
                &&& final(self).writes_pending() == old(self).writes_pending()
            },
            old(self).read_owners().len() == 1 && old(self).writes_pending().len() > 0 ==> {
                &&& final(self).write_owner() == Some(old(self).writes_pending()[0].0)
                &&& r == Some(old(self).writes_pending()[0].1)
                &&& final(self).writes_pending() == old(self).writes_pending().subrange(
                    1,
                    old(self).writes_pending().len() as int,
                )
                &&& (forall|i: int|
                    0 <= i < old(self).writes_pending().len() ==> old(self).writes_pending()[0].0
                        <= (#[trigger] old(self).writes_pending()[i]).0)
            },
    {
        self.do_release_read(g.token)
    }

    /// Withdraw a read ticket whose acquisition was abandoned. A ticket
    /// still waiting is removed from the read queue; an admitted one is
    /// released as [`RwLock::unlock_read`] would.
    pub fn cancel_read(&mut self, token: u64) -> (r: Option<W>)
        requires
            old(self).wf(),
        ensures
            final(self).wf(),
            final(self).value() == old(self).value(),
            final(self).next_ticket() == old(self).next_ticket(),
            old(self).read_owners().contains(token) ==> {
                &&& final(self).reads_pending() == old(self).reads_pending()
                &&& !final(self).read_owners().contains(token)
                &&& (forall|k: u64|
                    k != token ==> (final(self).read_owners().contains(k) <==> old(self).read_owners().contains(k)))
                &&& (old(self).read_owners().len() > 1 || old(self).writes_pending().len() == 0
                    ==> r is None && final(self).write_owner() is None && final(self).writes_pending() == old(self).writes_pending())
                &&& (old(self).read_owners().len() == 1 && old(self).writes_pending().len() > 0
                    ==> final(self).write_owner() == Some(old(self).writes_pending()[0].0) && r
                    == Some(old(self).writes_pending()[0].1) && final(self).writes_pending()
                    == old(self).writes_pending().subrange(
                    1,
                    old(self).writes_pending().len() as int,
                ))
            },
            !old(self).read_owners().contains(token) ==> {
                &&& r is None
                &&& final(self).write_owner() == old(self).write_owner()
                &&& final(self).read_owners() == old(self).read_owners()
                &&& final(self).writes_pending() == old(self).writes_pending()
                &&& !final(self).has_waiting_reader(token)
                &&& (forall|p: (u64, W)|
                    p.0 != token ==> (final(self).reads_pending().contains(p) <==> old(self).reads_pending().contains(p)))
            },
    {
        if self.read_owners.contains(token) {
            self.do_release_read(token)
        } else {
            self.reads_on_hold.remove(token);
            proof {
                let rp0 = old(self).reads_pending();
                let rp1 = self.reads_pending();
                assert forall|i: int| 0 <= i < rp1.len() implies rp0.contains(
                    #[trigger] rp1[i],
                ) by {
                    assert(rp1.contains(rp1[i]));
                    if rp1[i].0 == token {
                        assert(seq_has_key(rp1, token));
                    }
                }
                assert forall|i: int| 0 <= i < rp1.len() implies {
                    let p = #[trigger] rp1[i];
                    &&& p.0 < self.next_ticket()
                    &&& !self.read_owners().contains(p.0)
                    &&& !seq_has_key(self.writes_pending(), p.0)
                    &&& (self.write_owner() is Some ==> p.0 > self.write_owner()->Some_0)
                    &&& (self.write_owner() is None && self.writes_pending().len() > 0 ==> p.0
                        > self.writes_pending()[0].0)
                } by {
                    let j = choose|j: int| 0 <= j < rp0.len() && rp0[j] == rp1[i];
                }
                if self.write_owner() is None && self.writes_pending().len() == 0 {
                    assert(rp0.len() == 0);
                    if rp1.len() > 0 {
                        assert(rp0.contains(rp1[0]));
                    }
                }
            }
            None
        }
    }

    /// Withdraw a write ticket whose acquisition was abandoned. A ticket
    /// still waiting is removed from the write queue — and if nothing owns
    /// the lock exclusively, reads that were waiting only behind it are
    /// admitted, their wakers handed back. An admitted one is released as
    /// [`RwLock::unlock_write`] would.
    pub fn cancel_write(&mut self, token: u64) -> (woken: Vec<W>)
        requires
            old(self).wf(),
        ensures
            final(self).wf(),
            final(self).value() == old(self).value(),
            final(self).next_ticket() == old(self).next_ticket(),
            old(self).write_owner() == Some(token) ==> ({
                let rp = old(self).reads_pending();
                let wp = old(self).writes_pending();
                &&& (wp.len() == 0 ==> {
                    &&& final(self).write_owner() is None
                    &&& final(self).writes_pending().len() == 0
                    &&& final(self).reads_pending().len() == 0
                    &&& woken@.len() == rp.len()
                    &&& (forall|j: int| 0 <= j < rp.len() ==> woken@[j] == (#[trigger] rp[j]).1)
                    &&& (forall|k: u64|
                        final(self).read_owners().contains(k) <==> seq_has_key(rp, k))
                })
                &&& (wp.len() > 0 && cut(rp, Some(wp[0].0)) == 0 ==> {
                    &&& final(self).write_owner() == Some(wp[0].0)
                    &&& final(self).writes_pending() == wp.subrange(1, wp.len() as int)
                    &&& final(self).reads_pending() == rp
                    &&& woken@.len() == 1
                    &&& woken@[0] == wp[0].1
                })
                &&& (wp.len() > 0 && cut(rp, Some(wp[0].0)) > 0 ==> {
                    let n = cut(rp, Some(wp[0].0));
                    &&& final(self).write_owner() is None
                    &&& final(self).writes_pending() == wp
                    &&& final(self).reads_pending() == rp.subrange(n, rp.len() as int)
                    &&& woken@.len() == n
                    &&& (forall|j: int| 0 <= j < n ==> woken@[j] == (#[trigger] rp[j]).1)
                    &&& (forall|k: u64|
                        final(self).read_owners().contains(k) <==> seq_has_key(rp.take(n), k))
                })
            }),
            old(self).write_owner() != Some(token) ==> {
                &&& final(self).write_owner() == old(self).write_owner()
                &&& !final(self).has_waiting_writer(token)
                &&& (forall|p: (u64, W)|
                    p.0 != token ==> (final(self).writes_pending().contains(p) <==> old(self).writes_pending().contains(p)))
                &&& (old(self).write_owner() is Some ==> final(self).reads_pending() == old(self).reads_pending() && final(self).read_owners() == old(self).read_owners()
                    && woken@.len() == 0)
                &&& (old(self).write_owner() is None ==> ({
                    let rp = old(self).reads_pending();
                    let b2 = if final(self).writes_pending().len() > 0 {
                        Some(final(self).writes_pending()[0].0)
                    } else {
                        Option::<u64>::None
                    };
                    let n = cut(rp, b2);
                    &&& final(self).reads_pending() == rp.subrange(n, rp.len() as int)
                    &&& woken@.len() == n
                    &&& (forall|j: int| 0 <= j < n ==> woken@[j] == (#[trigger] rp[j]).1)
                    &&& (forall|k: u64|
                        final(self).read_owners().contains(k) <==> old(self).read_owners().contains(k) || seq_has_key(rp.take(n), k))
                }))
            },
    {
        let is_owner = match self.write_owner {
            Some(o) => o == token,
            None => false,
        };
        if is_owner {
            self.do_release_write()
        } else {
            self.writes_on_hold.remove(token);
            proof {
                let wp0 = old(self).writes_pending();
                let wp1 = self.writes_pending();
                assert forall|i: int| 0 <= i < wp1.len() implies wp0.contains(
                    #[trigger] wp1[i],
                ) by {
                    assert(wp1.contains(wp1[i]));
                    if wp1[i].0 == token {
                        assert(seq_has_key(wp1, token));
                    }
                }
                assert forall|i: int| 0 <= i < wp1.len() implies {
                    let p = #[trigger] wp1[i];
                    &&& p.0 < self.next_ticket()
                    &&& (self.write_owner() is Some ==> p.0 > self.write_owner()->Some_0)
                } by {
                    let j = choose|j: int| 0 <= j < wp0.len() && wp0[j] == wp1[i];
                }
                assert forall|i: int| 0 <= i < self.reads_pending().len() implies !seq_has_key(
                    wp1,
                    (#[trigger] self.reads_pending()[i]).0,
                ) by {
                    let rp = self.reads_pending();
                    assert(rp.contains(rp[i]));
                    if seq_has_key(wp1, rp[i].0) {
                        let key = rp[i].0;
                        let j = choose|j: int| 0 <= j < wp1.len() && (#[trigger] wp1[j]).0 == key;
                        assert(wp0.contains(wp1[j]));
                        let m = choose|m: int| 0 <= m < wp0.len() && wp0[m] == wp1[j];
                        assert(seq_has_key(wp0, rp[i].0));
                    }
                }
            }
            if self.write_owner.is_none() {
                let bound = self.writes_on_hold.first_key();
                let woken = self.forward_reads(bound);
                proof {
                    let wp1 = self.writes_pending();
                    if wp1.len() > 0 {
                        assert(old(self).writes_pending().contains(wp1[0]));
                        assert(old(self).writes_pending().len() > 0);
                        assert(old(self).read_owners().len() > 0);
                        assert(old(self).read_owners().contains(old(self).read_owners()[0]));
                        assert(self.read_owners().contains(old(self).read_owners()[0]));
                        assert(self.read_owners().len() > 0);
                    }
                }
                woken
            } else {
                Vec::new()
            }
        }
    }
}

/// The writer at the head of the write queue is the earliest one waiting:
/// whatever ticket `w` waits for exclusive access, the writer the release
/// protocol promotes has a ticket no later than `w`.
pub proof fn lemma_writer_head_is_earliest<T, W>(l: RwLock<T, W>, w: u64)
    requires
        l.wf(),
        l.has_waiting_writer(w),
    ensures
        l.writes_pending().len() > 0,
        l.writes_pending()[0].0 <= w,
{
    let wp = l.writes_pending();
    let i = choose|i: int| 0 <= i < wp.len() && (#[trigger] wp[i]).0 == w;
    if i > 0 {
        assert(wp[0].0 < wp[i].0);
    }
}

/// No writer starvation: while writer `w` waits, a reader `r` that arrived
/// after it is never part of the batch that a release admits — that batch
/// only holds tickets earlier than the head of the write queue, which is
/// itself no later than `w`. Combined with the release contracts, writer
/// `w` is reached before reader `r` is ever admitted.
pub proof fn lemma_later_reader_waits_behind_writer<T, W>(l: RwLock<T, W>, w: u64, r: u64)
    requires
        l.wf(),
        l.has_waiting_writer(w),
        l.has_waiting_reader(r),
        w < r,
    ensures
        l.writes_pending().len() > 0,
        l.writes_pending()[0].0 <= w,
        !seq_has_key(
            l.reads_pending().take(cut(l.reads_pending(), Some(l.writes_pending()[0].0))),
            r,
        ),
{
    lemma_writer_head_is_earliest(l, w);
    let rp = l.reads_pending();
    let b = l.writes_pending()[0].0;
    lemma_cut_props(rp, Some(b));
    let n = cut(rp, Some(b));
    if seq_has_key(rp.take(n), r) {
        let j = choose|j: int| 0 <= j < n && (#[trigger] rp.take(n)[j]).0 == r;
        assert(rp[j] == rp.take(n)[j]);
        assert(below(rp[j].0, Some(b)));
    }
}

/// Concurrent reads: admitting a reader leaves the write side of the lock
/// untouched, so a lock that admits a new reader at once still admits the
/// next one — two reads issued back to back are both admitted without
/// waiting on each other (see the contract of `read_request`).
pub proof fn lemma_read_admission_is_stable<T, W>(pre: RwLock<T, W>, post: RwLock<T, W>)
    requires
        pre.admits_new_reader(),
        post.write_owner() == pre.write_owner(),
        post.writes_pending() == pre.writes_pending(),
    ensures
        post.admits_new_reader(),
{
}

} // verus!
