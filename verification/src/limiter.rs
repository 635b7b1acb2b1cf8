//! The executable limiter.

use vstd::prelude::*;
use std::collections::VecDeque;
use tokio::sync::oneshot::Sender;
use crate::limiter_model::LimiterState;
use crate::wake::wake;

verus! {

/// Why a call on a limiter failed.
#[derive(Debug, Clone, Copy, PartialEq, Eq, Structural)]
pub enum LimiterError {
    /// A limiter needs at least one permit.
    InvalidCapacity,
    /// The wait was given up before a permit was granted.
    Cancelled,
    /// A permit was given back that nobody held.
    ExcessRelease,
}

/// How a request for a permit was answered.
#[derive(Debug, Clone, Copy, PartialEq, Eq, Structural)]
pub enum Acquired {
    /// A permit was free: the caller holds it now.
    Granted,
    /// No permit was free: the caller waits under this ticket until its
    /// handle fires.
    Queued(u64),
}

/// What became of a permit that was given back.
#[derive(Debug, Clone, Copy, PartialEq, Eq, Structural)]
pub enum Released {
    /// Nobody waited: the permit is free again.
    Returned,
    /// The permit passed to the waiter with this ticket, whose handle fired.
    Handed(u64),
}

/// One waiting caller.
struct Waiter {
    ticket: u64,
    handle: Sender<()>,
}

/// A pool of permits with a queue of waiters, served first come, first
/// served.
pub struct RateLimiter {
    capacity: usize,
    available: usize,
    waiters: VecDeque<Waiter>,
    issued: u64,
}

impl View for RateLimiter {
    type V = LimiterState;

    closed spec fn view(&self) -> LimiterState {
        LimiterState {
            capacity: self.capacity as nat,
            available: self.available as nat,
            held: (self.capacity - self.available) as nat,
            queue: self.waiters@.map_values(|w: Waiter| w.ticket as nat),
            issued: self.issued as nat,
        }
    }
}

impl RateLimiter {
    /// Makes a limiter with `capacity` permits, all of them free.
    pub fn new(capacity: usize) -> (r: Result<RateLimiter, LimiterError>)
        ensures
            capacity == 0 <==> r == Err::<RateLimiter, LimiterError>(LimiterError::InvalidCapacity),
            capacity > 0 <==> r is Ok,
            r is Ok ==> r->Ok_0@ == LimiterState::fresh(capacity as nat) && r->Ok_0@.wf(),
    {
        if capacity == 0 {
            return Err(LimiterError::InvalidCapacity);
        }
        let limiter = RateLimiter { capacity, available: capacity, waiters: VecDeque::new(), issued: 0 };
        assert(limiter@.queue =~= Seq::empty());
        Ok(limiter)
    }

    /// The size of the pool.
    pub fn capacity(&self) -> (n: usize)
        ensures
            n == self@.capacity,
    {
        self.capacity
    }

    /// The permits that are free right now.
    pub fn available(&self) -> (n: usize)
        ensures
            n == self@.available,
    {
        self.available
    }

    /// The permits that callers hold right now.
    pub fn held(&self) -> (n: usize)
        requires
            self@.wf(),
        ensures
            n == self@.held,
    {
        self.capacity - self.available
    }

    /// The number of callers that wait.
    pub fn waiting(&self) -> (n: usize)
        ensures
            n == self@.queue.len(),
    {
        self.waiters.len()
    }

    /// The number of tickets handed out so far, which is the ticket that the
    /// next caller to be queued gets.
    pub fn issued(&self) -> (n: u64)
        ensures
            n == self@.issued,
    {
        self.issued
    }

    /// Asks for a permit.
    ///
    /// With a permit free the caller gets it at once and `handle` is
    /// dropped unused. With none free the caller joins the tail of the queue
    /// under a new ticket, and `handle` fires when a release passes a permit
    /// to it.
    ///
    /// Tickets are 64-bit numbers that are never used twice, so a caller can
    /// only be queued while one is left.
    pub fn acquire(&mut self, handle: Sender<()>) -> (r: Acquired)
        requires
            old(self)@.wf(),
            old(self)@.available == 0 ==> old(self)@.issued < u64::MAX,
        ensures
            final(self)@ == old(self)@.acquire(),
            final(self)@.wf(),
            old(self)@.available > 0 <==> r == Acquired::Granted,
            old(self)@.available == 0 <==> r == Acquired::Queued(old(self)@.issued as u64),
    {
        if self.available > 0 {
            self.available = self.available - 1;
            Acquired::Granted
        } else {
            let ticket = self.issued;
            let ghost before = self@;
            self.issued = ticket + 1;
            self.waiters.push_back(Waiter { ticket, handle });
            assert(self@.queue =~= before.queue.push(ticket as nat));
            Acquired::Queued(ticket)
        }
    }

    /// Gives a permit back.
    ///
    /// With callers waiting, the permit passes straight to the one that has
    /// waited longest, whose handle fires; the permit never counts as free in
    /// between, so no newcomer can take it. With nobody waiting the permit
    /// becomes free. A release that no acquisition stands behind is refused
    /// and changes nothing.
    pub fn release(&mut self) -> (r: Result<Released, LimiterError>)
        requires
            old(self)@.wf(),
        ensures
            final(self)@ == old(self)@.release(),
            final(self)@.wf(),
            match r {
                Ok(Released::Handed(ticket)) => old(self)@.next_grant() == Some(ticket as nat),
                Ok(Released::Returned) => old(self)@.queue.len() == 0 && old(self)@.held > 0,
                Err(e) => e == LimiterError::ExcessRelease && old(self)@.queue.len() == 0
                    && old(self)@.held == 0,
            },
    {
        let ghost before = self@;
        match self.waiters.pop_front() {
            Some(waiter) => {
                assert(self@.queue =~= before.queue.drop_first());
                let ticket = waiter.ticket;
                wake(waiter.handle);
                Ok(Released::Handed(ticket))
            },
            None => {
                assert(self@.queue =~= before.queue);
                if self.available < self.capacity {
                    self.available = self.available + 1;
                    Ok(Released::Returned)
                } else {
                    Err(LimiterError::ExcessRelease)
                }
            },
        }
    }

    /// Gives up the wait of `ticket`, and says how that wait ended.
    ///
    /// A caller that is still queued leaves the queue without a permit; those
    /// behind it keep their order, and `Cancelled` is what its acquisition
    /// reports. A ticket that is not queued changes nothing: the wait is
    /// over, and where it ended with a grant the caller holds the permit.
    pub fn cancel(&mut self, ticket: u64) -> (r: Result<(), LimiterError>)
        requires
            old(self)@.wf(),
        ensures
            final(self)@ == old(self)@.cancel(ticket as nat),
            final(self)@.wf(),
            old(self)@.queue.contains(ticket as nat) <==> r == Err::<(), LimiterError>(
                LimiterError::Cancelled,
            ),
            !old(self)@.queue.contains(ticket as nat) <==> r == Ok::<(), LimiterError>(()),
    {
        let ghost before = self@;
        let n = self.waiters.len();
        let mut i: usize = 0;
        while i < n
            invariant
                n == self.waiters.len(),
                i <= n,
                self@ == before,
                before == old(self)@,
                before.wf(),
                forall|k: int| 0 <= k < i ==> before.queue[k] != ticket as nat,
            decreases n - i,
        {
            if self.waiters[i].ticket == ticket {
                proof {
                    assert(before.queue[i as int] == ticket as nat);
                    lemma_position_is_unique(before, i as int);
                }
                let _gone = self.waiters.remove(i);
                assert(self@.queue =~= before.queue.remove(i as int));
                return Err(LimiterError::Cancelled);
            }
            i = i + 1;
        }
        assert(!before.queue.contains(ticket as nat));
        Ok(())
    }

    /// Settles the wait of a caller that walks away from it.
    ///
    /// A caller that is still queued is cancelled, as by `cancel`. One that
    /// is not queued any more was granted a permit that it will not use: the
    /// permit is given back at once, as by `release`, and the result says
    /// where it went. Meant for a ticket that was handed out and has not
    /// been settled before.
    pub fn abandon(&mut self, ticket: u64) -> (r: Result<Released, LimiterError>)
        requires
            old(self)@.wf(),
        ensures
            final(self)@ == old(self)@.abandon(ticket as nat),
            final(self)@.wf(),
            match r {
                Err(LimiterError::Cancelled) => old(self)@.queue.contains(ticket as nat),
                Ok(Released::Handed(next)) => !old(self)@.queue.contains(ticket as nat) && old(
                    self,
                )@.next_grant() == Some(next as nat),
                Ok(Released::Returned) => old(self)@.queue.len() == 0 && old(self)@.held > 0,
                Err(LimiterError::ExcessRelease) => old(self)@.queue.len() == 0 && old(self)@.held
                    == 0,
                Err(LimiterError::InvalidCapacity) => false,
            },
    {
        match self.cancel(ticket) {
            Err(_) => Err(LimiterError::Cancelled),
            Ok(()) => self.release(),
        }
    }

    /// Sends every waiting caller away without a permit, and returns how
    /// many there were. Their handles are dropped unfired, so each of them
    /// learns that its wait was cancelled. The permits are not touched.
    pub fn cancel_all(&mut self) -> (n: usize)
        requires
            old(self)@.wf(),
        ensures
            final(self)@ == old(self)@.cancel_all(),
            final(self)@.wf(),
            n == old(self)@.queue.len(),
    {
        let n = self.waiters.len();
        self.waiters.clear();
        assert(self@.queue =~= Seq::empty());
        n
    }
}

/// In a well-formed state a ticket stands at one place of the queue at most.
proof fn lemma_position_is_unique(s: LimiterState, i: int)
    requires
        s.wf(),
        0 <= i < s.queue.len(),
    ensures
        s.queue.contains(s.queue[i]),
        s.queue.index_of(s.queue[i]) == i,
{
    let j = s.queue.index_of(s.queue[i]);
    assert(s.queue.contains(s.queue[i]));
    if j < i {
        assert(s.queue[j] < s.queue[i]);
    } else if i < j {
        assert(s.queue[i] < s.queue[j]);
    }
}

} // verus!
