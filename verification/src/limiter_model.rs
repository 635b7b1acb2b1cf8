//! The limiter as a mathematical state machine.
//!
//! A state records the size of the pool, the permits that are free, the
//! permits that callers hold, the tickets of the callers that wait (oldest
//! first) and the number of tickets handed out so far. Tickets are handed
//! out in increasing order, so a ticket names one wait for ever.

use vstd::prelude::*;

verus! {

/// What a limiter looks like from the outside at one instant.
pub struct LimiterState {
    /// The size of the permit pool.
    pub capacity: nat,
    /// The permits that nobody holds.
    pub available: nat,
    /// The permits that callers hold.
    pub held: nat,
    /// The tickets of the waiting callers, in arrival order.
    pub queue: Seq<nat>,
    /// How many tickets have been handed out; the next ticket is this number.
    pub issued: nat,
}

/// One call on a limiter.
pub enum Op {
    /// A caller asks for a permit.
    Acquire,
    /// A holder gives its permit back.
    Release,
    /// The caller with this ticket gives up waiting.
    Cancel(nat),
}

impl LimiterState {
    /// The invariant of the limiter: a pool of at least one permit, each of
    /// which is either free or held, nobody waiting while a permit is free,
    /// and a queue of tickets that were handed out, in the order in which
    /// they were handed out.
    pub open spec fn wf(self) -> bool {
        &&& self.capacity >= 1
        &&& self.available + self.held == self.capacity
        &&& (self.queue.len() > 0 ==> self.available == 0)
        &&& forall|i: int| 0 <= i < self.queue.len() ==> #[trigger] self.queue[i] < self.issued
        &&& forall|i: int, j: int|
            0 <= i < j < self.queue.len() ==> #[trigger] self.queue[i] < #[trigger] self.queue[j]
    }

    /// A new limiter: every permit free, nobody waiting, no ticket handed out.
    pub open spec fn fresh(capacity: nat) -> Self {
        LimiterState { capacity, available: capacity, held: 0, queue: Seq::empty(), issued: 0 }
    }

    /// The state after a caller asked for a permit: a free permit passes
    /// into the caller's hands; with none free the caller joins the tail of
    /// the queue under the next ticket.
    pub open spec fn acquire(self) -> Self {
        if self.available > 0 {
            LimiterState {
                available: (self.available - 1) as nat,
                held: self.held + 1,
                ..self
            }
        } else {
            LimiterState {
                queue: self.queue.push(self.issued),
                issued: self.issued + 1,
                ..self
            }
        }
    }

    /// The waiter that the next release wakes, if anybody waits.
    pub open spec fn next_grant(self) -> Option<nat> {
        if self.queue.len() > 0 {
            Some(self.queue[0])
        } else {
            None
        }
    }

    /// The state after a permit came back: it passes from the hands of the
    /// one caller into those of the head of the queue, without ever counting
    /// as free; with nobody waiting it becomes free, unless no permit is
    /// held, in which case nothing changes.
    pub open spec fn release(self) -> Self {
        if self.queue.len() > 0 {
            LimiterState { queue: self.queue.drop_first(), ..self }
        } else if self.held > 0 {
            LimiterState {
                available: self.available + 1,
                held: (self.held - 1) as nat,
                ..self
            }
        } else {
            self
        }
    }

    /// The state after the caller with `ticket` gave up: it leaves the queue
    /// if it was in it, and nothing else changes.
    pub open spec fn cancel(self, ticket: nat) -> Self {
        if self.queue.contains(ticket) {
            LimiterState { queue: self.queue.remove(self.queue.index_of(ticket)), ..self }
        } else {
            self
        }
    }

    /// The state after every waiting caller was sent away: the queue is
    /// empty, and nothing else changes.
    pub open spec fn cancel_all(self) -> Self {
        LimiterState { queue: Seq::empty(), ..self }
    }

    /// The state after the caller with `ticket` walked away from its wait: a
    /// caller that is still queued is cancelled; for one that is not, the
    /// permit that it was granted comes back.
    pub open spec fn abandon(self, ticket: nat) -> Self {
        if self.queue.contains(ticket) {
            self.cancel(ticket)
        } else {
            self.release()
        }
    }

    /// The state after one call.
    pub open spec fn step(self, op: Op) -> Self {
        match op {
            Op::Acquire => self.acquire(),
            Op::Release => self.release(),
            Op::Cancel(ticket) => self.cancel(ticket),
        }
    }

    /// The waiter that one call wakes, if it wakes one.
    pub open spec fn woken_by(self, op: Op) -> Option<nat> {
        match op {
            Op::Release => self.next_grant(),
            _ => None,
        }
    }

    /// The state after a sequence of calls, made one after the other.
    pub open spec fn run(self, ops: Seq<Op>) -> Self
        decreases ops.len(),
    {
        if ops.len() == 0 {
            self
        } else {
            self.step(ops[0]).run(ops.drop_first())
        }
    }

    /// The waiters that a sequence of calls wakes, in the order in which they
    /// are woken.
    pub open spec fn grants(self, ops: Seq<Op>) -> Seq<nat>
        decreases ops.len(),
    {
        if ops.len() == 0 {
            Seq::empty()
        } else {
            let rest = self.step(ops[0]).grants(ops.drop_first());
            match self.woken_by(ops[0]) {
                Some(ticket) => seq![ticket] + rest,
                None => rest,
            }
        }
    }
}

} // verus!
