//! Ordered ticket stores shared by the lock primitives.
//!
//! `WaitQueue` maps tickets to pending wakers, kept sorted by ticket so the
//! earliest arrival is always at the front. `TicketSet` is a sorted set of
//! tickets, used for the group of readers currently admitted by the
//! shared/exclusive lock. Tickets are `u64` values; each lock issues them in
//! strictly increasing order, so the sorted order is also arrival order.

use vstd::prelude::*;

verus! {

/// Tickets strictly increase along the sequence: sorted and duplicate-free.
pub open spec fn key_sorted<W>(s: Seq<(u64, W)>) -> bool {
    forall|i: int, j: int| #![trigger s[i], s[j]] 0 <= i < j < s.len() ==> s[i].0 < s[j].0
}

/// Some pair of the sequence carries ticket `k`.
pub open spec fn seq_has_key<W>(s: Seq<(u64, W)>, k: u64) -> bool {
    exists|i: int| 0 <= i < s.len() && (#[trigger] s[i]).0 == k
}

/// A sequence of tickets in strictly increasing order.
pub open spec fn ticket_sorted(s: Seq<u64>) -> bool {
    forall|i: int, j: int| #![trigger s[i], s[j]] 0 <= i < j < s.len() ==> s[i] < s[j]
}

/// A queue of waiters keyed by ticket, sorted by strictly increasing ticket.
pub struct WaitQueue<W> {
    entries: Vec<(u64, W)>,
}

impl<W> View for WaitQueue<W> {
    type V = Seq<(u64, W)>;

    closed spec fn view(&self) -> Seq<(u64, W)> {
        self.entries@
    }
}

impl<W> WaitQueue<W> {
    /// Tickets are strictly increasing along the vector: sorted and duplicate-free.
    pub open spec fn wf(self) -> bool {
        key_sorted(self@)
    }

    /// Some waiter is enrolled under ticket `k`.
    pub open spec fn has_key(self, k: u64) -> bool {
        seq_has_key(self@, k)
    }

    pub fn new() -> (r: Self)
        ensures
            r@ == Seq::<(u64, W)>::empty(),
            r.wf(),
    {
        WaitQueue { entries: Vec::new() }
    }

    pub fn len(&self) -> (r: usize)
        ensures
            r == self@.len(),
    {
        self.entries.len()
    }

    pub fn is_empty(&self) -> (r: bool)
        ensures
            r == (self@.len() == 0),
    {
        self.entries.len() == 0
    }

    /// The earliest ticket still waiting, if any.
    pub fn first_key(&self) -> (r: Option<u64>)
        ensures
            self@.len() == 0 ==> r is None,
            self@.len() > 0 ==> r == Some(self@[0].0),
    {
        if self.entries.len() == 0 {
            None
        } else {
            Some(self.entries[0].0)
        }
    }

    /// The latest ticket waiting, if any.
    pub fn last_key(&self) -> (r: Option<u64>)
        ensures
            self@.len() == 0 ==> r is None,
            self@.len() > 0 ==> r == Some(self@[self@.len() - 1].0),
    {
        if self.entries.len() == 0 {
            None
        } else {
            Some(self.entries[self.entries.len() - 1].0)
        }
    }

    pub fn contains_key(&self, k: u64) -> (r: bool)
        ensures
            r == self.has_key(k),
    {
        let n = self.entries.len();
        let mut i: usize = 0;
        while i < n
            invariant
                n == self@.len(),
                0 <= i <= n,
                forall|j: int| 0 <= j < i ==> (#[trigger] self@[j]).0 != k,
            decreases n - i,
        {
            if self.entries[i].0 == k {
                return true;
            }
            i = i + 1;
        }
        false
    }

    /// Enroll a waiter under a ticket not yet present; it is placed at its
    /// sorted position, so the queue stays ordered by arrival ticket.
    pub fn insert(&mut self, k: u64, waker: W)
        requires
            old(self).wf(),
            !old(self).has_key(k),
        ensures
            final(self).wf(),
            final(self)@.len() == old(self)@.len() + 1,
            final(self)@.contains((k, waker)),
            forall|p: (u64, W)| old(self)@.contains(p) ==> final(self)@.contains(p),
            forall|p: (u64, W)| final(self)@.contains(p) ==> p == (k, waker) || old(self)@.contains(p),
            forall|k2: u64| k2 != k ==> (final(self).has_key(k2) <==> old(self).has_key(k2)),
            final(self).has_key(k),
    {
        let ghost s0 = self@;
        let n = self.entries.len();
        let mut i: usize = 0;
        while i < n && self.entries[i].0 < k
            invariant
                self@ == s0,
                n == self@.len(),
                0 <= i <= n,
                forall|j: int| 0 <= j < i ==> (#[trigger] self@[j]).0 < k,
            decreases n - i,
        {
            i = i + 1;
        }
        proof {
            // Everything at or past position i carries a ticket above k.
            assert forall|j: int| i <= j < s0.len() implies (#[trigger] s0[j]).0 > k by {
                if i < s0.len() {
                    assert(s0[i as int].0 != k);
                    if i < j {
                        assert(s0[i as int].0 < s0[j].0);
                    }
                }
            }
        }
        self.entries.insert(i, (k, waker));
        proof {
            let s1 = self@;
            assert(s1 == s0.insert(i as int, (k, waker)));
            assert(s1[i as int] == (k, waker));
            assert forall|a: int, b: int|
                #![trigger s1[a], s1[b]]
                0 <= a < b < s1.len() implies s1[a].0 < s1[b].0 by {
                if a < i {
                    assert(s1[a] == s0[a]);
                }
                if a > i {
                    assert(s1[a] == s0[a - 1]);
                }
                if b < i {
                    assert(s1[b] == s0[b]);
                }
                if b > i {
                    assert(s1[b] == s0[b - 1]);
                }
            }
            assert forall|p: (u64, W)| s0.contains(p) implies s1.contains(p) by {
                let j = choose|j: int| 0 <= j < s0.len() && s0[j] == p;
                if j < i {
                    assert(s1[j] == p);
                } else {
                    assert(s1[j + 1] == p);
                }
            }
            assert forall|p: (u64, W)| s1.contains(p) implies p == (k, waker) || s0.contains(p) by {
                let j = choose|j: int| 0 <= j < s1.len() && s1[j] == p;
                if j < i {
                    assert(s0[j] == p);
                } else if j > i {
                    assert(s0[j - 1] == p);
                }
            }
            assert forall|k2: u64| k2 != k && old(self).has_key(k2) implies self.has_key(k2) by {
                let j = choose|j: int| 0 <= j < s0.len() && (#[trigger] s0[j]).0 == k2;
                assert(s0.contains(s0[j]));
                assert(s1.contains(s0[j]));
                let m = choose|m: int| 0 <= m < s1.len() && s1[m] == s0[j];
                assert((#[trigger] s1[m]).0 == k2);
            }
            assert forall|k2: u64| k2 != k && self.has_key(k2) implies old(self).has_key(k2) by {
                let j = choose|j: int| 0 <= j < s1.len() && (#[trigger] s1[j]).0 == k2;
                assert(s1.contains(s1[j]));
                assert(s0.contains(s1[j]));
                let m = choose|m: int| 0 <= m < s0.len() && s0[m] == s1[j];
                assert((#[trigger] s0[m]).0 == k2);
            }
        }
    }

    /// Withdraw the waiter enrolled under ticket `k`, if any.
    pub fn remove(&mut self, k: u64) -> (r: Option<W>)
        requires
            old(self).wf(),
        ensures
            final(self).wf(),
            !old(self).has_key(k) ==> r is None && final(self)@ == old(self)@,
            old(self).has_key(k) ==> {
                &&& r is Some
                &&& old(self)@.contains((k, r->Some_0))
                &&& final(self)@.len() == old(self)@.len() - 1
            },
            !final(self).has_key(k),
            forall|p: (u64, W)| p.0 != k ==> (final(self)@.contains(p) <==> old(self)@.contains(p)),
            forall|k2: u64| k2 != k ==> (final(self).has_key(k2) <==> old(self).has_key(k2)),
    {
        let ghost s0 = self@;
        let n = self.entries.len();
        let mut i: usize = 0;
        while i < n
            invariant
                self@ == s0,
                s0 == old(self)@,
                n == self@.len(),
                0 <= i <= n,
                forall|a: int, b: int|
                    #![trigger s0[a], s0[b]]
                    0 <= a < b < s0.len() ==> s0[a].0 < s0[b].0,
                forall|j: int| 0 <= j < i ==> (#[trigger] self@[j]).0 != k,
            decreases n - i,
        {
            if self.entries[i].0 == k {
                let (_, w) = self.entries.remove(i);
                proof {
                    let s1 = self@;
                    assert(s1 == s0.remove(i as int));
                    assert(s0.contains(s0[i as int]));
                    assert forall|a: int, b: int|
                        #![trigger s1[a], s1[b]]
                        0 <= a < b < s1.len() implies s1[a].0 < s1[b].0 by {
                        let a0 = if a < i { a } else { a + 1 };
                        let b0 = if b < i { b } else { b + 1 };
                        assert(s1[a] == s0[a0]);
                        assert(s1[b] == s0[b0]);
                    }
                    assert forall|p: (u64, W)| p.0 != k && s0.contains(p) implies s1.contains(
                        p,
                    ) by {
                        let j = choose|j: int| 0 <= j < s0.len() && s0[j] == p;
                        if j < i {
                            assert(s1[j] == p);
                        } else {
                            assert(j != i);
                            assert(s1[j - 1] == p);
                        }
                    }
                    assert forall|p: (u64, W)| s1.contains(p) implies s0.contains(p) by {
                        let j = choose|j: int| 0 <= j < s1.len() && s1[j] == p;
                        if j < i {
                            assert(s0[j] == p);
                        } else {
                            assert(s0[j + 1] == p);
                        }
                    }
                    assert forall|j: int| 0 <= j < s1.len() implies (#[trigger] s1[j]).0 != k by {
                        let j0 = if j < i { j } else { j + 1 };
                        assert(s1[j] == s0[j0]);
                        if j0 > i {
                            assert(s0[i as int].0 < s0[j0].0);
                        }
                    }
                    assert forall|k2: u64| k2 != k && old(self).has_key(k2) implies self.has_key(
                        k2,
                    ) by {
                        let j = choose|j: int| 0 <= j < s0.len() && (#[trigger] s0[j]).0 == k2;
                        assert(s0.contains(s0[j]));
                        assert(s1.contains(s0[j]));
                        let m = choose|m: int| 0 <= m < s1.len() && s1[m] == s0[j];
                        assert((#[trigger] s1[m]).0 == k2);
                    }
                    assert forall|k2: u64| k2 != k && self.has_key(k2) implies old(self).has_key(
                        k2,
                    ) by {
                        let j = choose|j: int| 0 <= j < s1.len() && (#[trigger] s1[j]).0 == k2;
                        assert(s1.contains(s1[j]));
                        assert(s0.contains(s1[j]));
                        let m = choose|m: int| 0 <= m < s0.len() && s0[m] == s1[j];
                        assert((#[trigger] s0[m]).0 == k2);
                    }
                }
                return Some(w);
            }
            i = i + 1;
        }
        proof {
            assert forall|k2: u64| self.has_key(k2) implies old(self).has_key(k2) by {}
        }
        None
    }

    /// Withdraw the earliest-enrolled waiter: the pair with the least ticket.
    pub fn pop_first(&mut self) -> (r: Option<(u64, W)>)
        requires
            old(self).wf(),
        ensures
            final(self).wf(),
            old(self)@.len() == 0 ==> r is None && final(self)@ == old(self)@,
            old(self)@.len() > 0 ==> {
                &&& r == Some(old(self)@[0])
                &&& final(self)@ == old(self)@.subrange(1, old(self)@.len() as int)
                &&& forall|p: (u64, W)| old(self)@.contains(p) ==> old(self)@[0].0 <= p.0
            },
    {
        if self.entries.len() == 0 {
            return None;
        }
        let ghost s0 = self@;
        let p = self.entries.remove(0);
        proof {
            assert(self@ == s0.remove(0));
            assert(self@ == s0.subrange(1, s0.len() as int));
            assert forall|q: (u64, W)| s0.contains(q) implies s0[0].0 <= q.0 by {
                let j = choose|j: int| 0 <= j < s0.len() && s0[j] == q;
                if j > 0 {
                    assert(s0[0].0 < s0[j].0);
                }
            }
            assert forall|a: int, b: int|
                #![trigger self@[a], self@[b]]
                0 <= a < b < self@.len() implies self@[a].0 < self@[b].0 by {
                assert(self@[a] == s0[a + 1]);
                assert(self@[b] == s0[b + 1]);
            }
        }
        Some(p)
    }
}

/// A sorted set of tickets.
pub struct TicketSet {
    items: Vec<u64>,
}

impl View for TicketSet {
    type V = Seq<u64>;

    closed spec fn view(&self) -> Seq<u64> {
        self.items@
    }
}

impl TicketSet {
    pub open spec fn wf(self) -> bool {
        ticket_sorted(self@)
    }

    pub fn new() -> (r: Self)
        ensures
            r@ == Seq::<u64>::empty(),
            r.wf(),
    {
        TicketSet { items: Vec::new() }
    }

    pub fn len(&self) -> (r: usize)
        ensures
            r == self@.len(),
    {
        self.items.len()
    }

    pub fn is_empty(&self) -> (r: bool)
        ensures
            r == (self@.len() == 0),
    {
        self.items.len() == 0
    }

    pub fn contains(&self, k: u64) -> (r: bool)
        ensures
            r == self@.contains(k),
    {
        let n = self.items.len();
        let mut i: usize = 0;
        while i < n
            invariant
                n == self@.len(),
                0 <= i <= n,
                forall|j: int| 0 <= j < i ==> self@[j] != k,
            decreases n - i,
        {
            if self.items[i] == k {
                proof {
                    assert(self@[i as int] == k);
                }
                return true;
            }
            i = i + 1;
        }
        proof {
            assert forall|j: int| 0 <= j < self@.len() implies self@[j] != k by {}
        }
        false
    }

    /// The greatest ticket in the set, if any.
    pub fn max_ticket(&self) -> (r: Option<u64>)
        requires
            self.wf(),
        ensures
            self@.len() == 0 ==> r is None,
            self@.len() > 0 ==> {
                &&& r == Some(self@[self@.len() - 1])
                &&& forall|k: u64| self@.contains(k) ==> k <= r->Some_0
            },
    {
        if self.items.len() == 0 {
            None
        } else {
            proof {
                let s = self@;
                assert forall|k: u64| s.contains(k) implies k <= s[s.len() - 1] by {
                    let j = choose|j: int| 0 <= j < s.len() && s[j] == k;
                    if j < s.len() - 1 {
                        assert(s[j] < s[s.len() - 1]);
                    }
                }
            }
            Some(self.items[self.items.len() - 1])
        }
    }

    pub fn insert(&mut self, k: u64)
        requires
            old(self).wf(),
            !old(self)@.contains(k),
        ensures
            final(self).wf(),
            final(self)@.len() == old(self)@.len() + 1,
            final(self)@.contains(k),
            forall|k2: u64| old(self)@.contains(k2) ==> final(self)@.contains(k2),
            forall|k2: u64| final(self)@.contains(k2) ==> k2 == k || old(self)@.contains(k2),
    {
        let ghost s0 = self@;
        let n = self.items.len();
        let mut i: usize = 0;
        while i < n && self.items[i] < k
            invariant
                self@ == s0,
                n == self@.len(),
                0 <= i <= n,
                forall|j: int| 0 <= j < i ==> self@[j] < k,
            decreases n - i,
        {
            i = i + 1;
        }
        proof {
            assert forall|j: int| i <= j < s0.len() implies s0[j] > k by {
                assert(s0[i as int] != k);
                if i < j {
                    assert(s0[i as int] < s0[j]);
                }
            }
        }
        self.items.insert(i, k);
        proof {
            let s1 = self@;
            assert(s1 == s0.insert(i as int, k));
            assert(s1[i as int] == k);
            assert forall|a: int, b: int|
                #![trigger s1[a], s1[b]]
                0 <= a < b < s1.len() implies s1[a] < s1[b] by {
                if a < i {
                    assert(s1[a] == s0[a]);
                }
                if a > i {
                    assert(s1[a] == s0[a - 1]);
                }
                if b < i {
                    assert(s1[b] == s0[b]);
                }
                if b > i {
                    assert(s1[b] == s0[b - 1]);
                }
            }
            assert forall|k2: u64| s0.contains(k2) implies s1.contains(k2) by {
                let j = choose|j: int| 0 <= j < s0.len() && s0[j] == k2;
                if j < i {
                    assert(s1[j] == k2);
                } else {
                    assert(s1[j + 1] == k2);
                }
            }
            assert forall|k2: u64| s1.contains(k2) implies k2 == k || s0.contains(k2) by {
                let j = choose|j: int| 0 <= j < s1.len() && s1[j] == k2;
                if j < i {
                    assert(s0[j] == k2);
                } else if j > i {
                    assert(s0[j - 1] == k2);
                }
            }
        }
    }

    /// Withdraw ticket `k`; reports whether it was present.
    pub fn remove(&mut self, k: u64) -> (r: bool)
        requires
            old(self).wf(),
        ensures
            final(self).wf(),
            r == old(self)@.contains(k),
            !final(self)@.contains(k),
            forall|k2: u64| k2 != k ==> (final(self)@.contains(k2) <==> old(self)@.contains(k2)),
            r ==> final(self)@.len() == old(self)@.len() - 1,
            !r ==> final(self)@ == old(self)@,
    {
        let ghost s0 = self@;
        let n = self.items.len();
        let mut i: usize = 0;
        while i < n
            invariant
                self@ == s0,
                s0 == old(self)@,
                n == self@.len(),
                0 <= i <= n,
                forall|a: int, b: int|
                    #![trigger s0[a], s0[b]]
                    0 <= a < b < s0.len() ==> s0[a] < s0[b],
                forall|j: int| 0 <= j < i ==> self@[j] != k,
            decreases n - i,
        {
            if self.items[i] == k {
                self.items.remove(i);
                proof {
                    let s1 = self@;
                    assert(s1 == s0.remove(i as int));
                    assert(s0.contains(s0[i as int]));
                    assert forall|a: int, b: int|
                        #![trigger s1[a], s1[b]]
                        0 <= a < b < s1.len() implies s1[a] < s1[b] by {
                        let a0 = if a < i { a } else { a + 1 };
                        let b0 = if b < i { b } else { b + 1 };
                        assert(s1[a] == s0[a0]);
                        assert(s1[b] == s0[b0]);
                    }
                    assert forall|j: int| 0 <= j < s1.len() implies s1[j] != k by {
                        let j0 = if j < i { j } else { j + 1 };
                        assert(s1[j] == s0[j0]);
                        if j0 > i {
                            assert(s0[i as int] < s0[j0]);
                        }
                    }
                    assert forall|k2: u64| k2 != k && s0.contains(k2) implies s1.contains(k2) by {
                        let j = choose|j: int| 0 <= j < s0.len() && s0[j] == k2;
                        if j < i {
                            assert(s1[j] == k2);
                        } else {
                            assert(j != i);
                            assert(s1[j - 1] == k2);
                        }
                    }
                    assert forall|k2: u64| s1.contains(k2) implies s0.contains(k2) by {
                        let j = choose|j: int| 0 <= j < s1.len() && s1[j] == k2;
                        let j0 = if j < i { j } else { j + 1 };
                        assert(s0[j0] == k2);
                    }
                }
                return true;
            }
            i = i + 1;
        }
        proof {
            assert forall|j: int| 0 <= j < self@.len() implies self@[j] != k by {}
        }
        false
    }
}

} // verus!
