use rate_limiter::{Acquired, LimiterError, RateLimiter, Released};
use tokio::sync::oneshot::error::TryRecvError;
use tokio::sync::oneshot::{channel, Receiver, Sender};

fn handle() -> (Sender<()>, Receiver<()>) {
    channel::<()>()
}

/// Queues one caller and returns its ticket and the end on which it listens.
fn queue(limiter: &mut RateLimiter) -> (u64, Receiver<()>) {
    let (tx, rx) = handle();
    match limiter.acquire(tx) {
        Acquired::Queued(ticket) => (ticket, rx),
        Acquired::Granted => panic!("a permit was free"),
    }
}

fn take(limiter: &mut RateLimiter) {
    let (tx, _rx) = handle();
    assert_eq!(limiter.acquire(tx), Acquired::Granted);
}

#[test]
fn zero_capacity_is_refused() {
    assert!(matches!(RateLimiter::new(0), Err(LimiterError::InvalidCapacity)));
}

#[test]
fn new_limiter_has_every_permit_free() {
    let limiter = RateLimiter::new(3).unwrap();
    assert_eq!(limiter.capacity(), 3);
    assert_eq!(limiter.available(), 3);
    assert_eq!(limiter.waiting(), 0);
    assert_eq!(limiter.issued(), 0);
    assert_eq!(limiter.held(), 0);
}

#[test]
fn fast_path_takes_a_free_permit_without_queueing() {
    let mut limiter = RateLimiter::new(2).unwrap();
    let (tx, mut rx) = handle();
    assert_eq!(limiter.acquire(tx), Acquired::Granted);
    assert_eq!(limiter.available(), 1);
    assert_eq!(limiter.waiting(), 0);
    // The handle of a caller that was served at once is dropped unused.
    assert_eq!(rx.try_recv(), Err(TryRecvError::Closed));
    take(&mut limiter);
    assert_eq!(limiter.available(), 0);
}

#[test]
fn exhausted_pool_queues_the_caller() {
    let mut limiter = RateLimiter::new(1).unwrap();
    take(&mut limiter);
    let (ticket, mut rx) = queue(&mut limiter);
    assert_eq!(ticket, 0);
    assert_eq!(limiter.waiting(), 1);
    assert_eq!(limiter.available(), 0);
    assert_eq!(rx.try_recv(), Err(TryRecvError::Empty));
}

#[test]
fn release_without_waiters_frees_the_permit() {
    let mut limiter = RateLimiter::new(2).unwrap();
    take(&mut limiter);
    take(&mut limiter);
    assert_eq!(limiter.release(), Ok(Released::Returned));
    assert_eq!(limiter.available(), 1);
    assert_eq!(limiter.release(), Ok(Released::Returned));
    assert_eq!(limiter.available(), 2);
}

#[test]
fn excess_release_is_reported_and_changes_nothing() {
    let mut limiter = RateLimiter::new(2).unwrap();
    assert_eq!(limiter.release(), Err(LimiterError::ExcessRelease));
    assert_eq!(limiter.available(), 2);
    take(&mut limiter);
    assert_eq!(limiter.release(), Ok(Released::Returned));
    assert_eq!(limiter.release(), Err(LimiterError::ExcessRelease));
    assert_eq!(limiter.available(), 2);
    assert_eq!(limiter.capacity(), 2);
}

#[test]
fn waiters_are_served_in_arrival_order() {
    let mut limiter = RateLimiter::new(1).unwrap();
    take(&mut limiter);
    let (w1, mut rx1) = queue(&mut limiter);
    let (w2, mut rx2) = queue(&mut limiter);
    let (w3, mut rx3) = queue(&mut limiter);
    assert!(w1 < w2 && w2 < w3);

    assert_eq!(limiter.release(), Ok(Released::Handed(w1)));
    assert_eq!(rx1.try_recv(), Ok(()));
    assert_eq!(rx2.try_recv(), Err(TryRecvError::Empty));
    assert_eq!(rx3.try_recv(), Err(TryRecvError::Empty));
    assert_eq!(limiter.available(), 0);
    assert_eq!(limiter.held(), 1);

    assert_eq!(limiter.release(), Ok(Released::Handed(w2)));
    assert_eq!(rx2.try_recv(), Ok(()));
    assert_eq!(rx3.try_recv(), Err(TryRecvError::Empty));
    assert_eq!(limiter.available(), 0);

    assert_eq!(limiter.release(), Ok(Released::Handed(w3)));
    assert_eq!(rx3.try_recv(), Ok(()));
    assert_eq!(limiter.available(), 0);
    assert_eq!(limiter.waiting(), 0);

    assert_eq!(limiter.release(), Ok(Released::Returned));
    assert_eq!(limiter.available(), 1);
}

#[test]
fn handoff_leaves_nothing_for_a_newcomer_to_take() {
    let mut limiter = RateLimiter::new(1).unwrap();
    take(&mut limiter);
    let (w1, mut rx1) = queue(&mut limiter);
    let (w2, mut rx2) = queue(&mut limiter);
    assert_eq!(limiter.release(), Ok(Released::Handed(w1)));
    assert_eq!(rx1.try_recv(), Ok(()));
    // A caller that arrives now finds no free permit and goes behind w2.
    let (w3, mut rx3) = queue(&mut limiter);
    assert!(w2 < w3);
    assert_eq!(limiter.release(), Ok(Released::Handed(w2)));
    assert_eq!(rx2.try_recv(), Ok(()));
    assert_eq!(rx3.try_recv(), Err(TryRecvError::Empty));
    assert_eq!(limiter.release(), Ok(Released::Handed(w3)));
    assert_eq!(rx3.try_recv(), Ok(()));
}

#[test]
fn cancelled_waiter_is_passed_over() {
    let mut limiter = RateLimiter::new(1).unwrap();
    take(&mut limiter);
    let (w1, mut rx1) = queue(&mut limiter);
    let (w2, mut rx2) = queue(&mut limiter);
    assert_eq!(limiter.cancel(w1), Err(LimiterError::Cancelled));
    assert_eq!(limiter.waiting(), 1);
    assert_eq!(limiter.available(), 0);
    // The handle of a cancelled waiter never fires.
    assert_eq!(rx1.try_recv(), Err(TryRecvError::Closed));
    assert_eq!(limiter.release(), Ok(Released::Handed(w2)));
    assert_eq!(rx2.try_recv(), Ok(()));
    assert_eq!(limiter.release(), Ok(Released::Returned));
    assert_eq!(limiter.available(), 1);
}

#[test]
fn cancelling_in_the_middle_keeps_the_order_of_the_rest() {
    let mut limiter = RateLimiter::new(1).unwrap();
    take(&mut limiter);
    let (w1, _rx1) = queue(&mut limiter);
    let (w2, _rx2) = queue(&mut limiter);
    let (w3, _rx3) = queue(&mut limiter);
    let (w4, _rx4) = queue(&mut limiter);
    assert_eq!(limiter.cancel(w2), Err(LimiterError::Cancelled));
    assert_eq!(limiter.cancel(w4), Err(LimiterError::Cancelled));
    assert_eq!(limiter.waiting(), 2);
    assert_eq!(limiter.release(), Ok(Released::Handed(w1)));
    assert_eq!(limiter.release(), Ok(Released::Handed(w3)));
    assert_eq!(limiter.release(), Ok(Released::Returned));
}

#[test]
fn cancelling_every_waiter_leaks_no_permit() {
    let mut limiter = RateLimiter::new(2).unwrap();
    take(&mut limiter);
    take(&mut limiter);
    let tickets: Vec<u64> = (0..5).map(|_| queue(&mut limiter).0).collect();
    for ticket in &tickets {
        assert_eq!(limiter.cancel(*ticket), Err(LimiterError::Cancelled));
    }
    assert_eq!(limiter.waiting(), 0);
    assert_eq!(limiter.available(), 0);
    assert_eq!(limiter.release(), Ok(Released::Returned));
    assert_eq!(limiter.available(), 1);
    assert_eq!(limiter.release(), Ok(Released::Returned));
    assert_eq!(limiter.available(), 2);
    assert_eq!(limiter.release(), Err(LimiterError::ExcessRelease));
    assert_eq!(limiter.available(), 2);
}

#[test]
fn release_after_cancellations_wakes_the_next_who_stayed() {
    let mut limiter = RateLimiter::new(1).unwrap();
    take(&mut limiter);
    let (w1, _rx1) = queue(&mut limiter);
    let (w2, _rx2) = queue(&mut limiter);
    let (w3, mut rx3) = queue(&mut limiter);
    let (_w4, mut rx4) = queue(&mut limiter);
    assert_eq!(limiter.cancel(w1), Err(LimiterError::Cancelled));
    assert_eq!(limiter.cancel(w2), Err(LimiterError::Cancelled));
    assert_eq!(limiter.release(), Ok(Released::Handed(w3)));
    assert_eq!(rx3.try_recv(), Ok(()));
    assert_eq!(rx4.try_recv(), Err(TryRecvError::Empty));
    assert_eq!(limiter.available(), 0);
    assert_eq!(limiter.waiting(), 1);
}

#[test]
fn cancel_of_a_ticket_that_is_not_queued_changes_nothing() {
    let mut limiter = RateLimiter::new(1).unwrap();
    take(&mut limiter);
    let (w1, _rx1) = queue(&mut limiter);
    // Never handed out.
    assert_eq!(limiter.cancel(99), Ok(()));
    assert_eq!(limiter.waiting(), 1);
    // Granted already.
    assert_eq!(limiter.release(), Ok(Released::Handed(w1)));
    assert_eq!(limiter.cancel(w1), Ok(()));
    assert_eq!(limiter.available(), 0);
    // Cancelled already.
    let (w2, _rx2) = queue(&mut limiter);
    assert_eq!(limiter.cancel(w2), Err(LimiterError::Cancelled));
    assert_eq!(limiter.cancel(w2), Ok(()));
    assert_eq!(limiter.waiting(), 0);
}

#[test]
fn tickets_are_never_used_twice() {
    let mut limiter = RateLimiter::new(1).unwrap();
    take(&mut limiter);
    let (w1, _rx1) = queue(&mut limiter);
    assert_eq!(limiter.cancel(w1), Err(LimiterError::Cancelled));
    let (w2, _rx2) = queue(&mut limiter);
    assert_eq!(limiter.release(), Ok(Released::Handed(w2)));
    let (w3, _rx3) = queue(&mut limiter);
    assert_eq!((w1, w2, w3), (0, 1, 2));
    assert_eq!(limiter.issued(), 3);
}

#[test]
fn release_does_not_mind_a_waiter_that_went_away() {
    let mut limiter = RateLimiter::new(1).unwrap();
    take(&mut limiter);
    let (w1, rx1) = queue(&mut limiter);
    drop(rx1);
    // The permit passes to w1 all the same: it is w1 that gives it back.
    assert_eq!(limiter.release(), Ok(Released::Handed(w1)));
    assert_eq!(limiter.available(), 0);
    assert_eq!(limiter.cancel(w1), Ok(()));
    assert_eq!(limiter.release(), Ok(Released::Returned));
    assert_eq!(limiter.available(), 1);
}

#[test]
fn dropping_the_limiter_closes_every_pending_handle() {
    let mut limiter = RateLimiter::new(1).unwrap();
    take(&mut limiter);
    let (_w1, mut rx1) = queue(&mut limiter);
    let (_w2, mut rx2) = queue(&mut limiter);
    drop(limiter);
    assert_eq!(rx1.try_recv(), Err(TryRecvError::Closed));
    assert_eq!(rx2.try_recv(), Err(TryRecvError::Closed));
}

#[test]
fn four_callers_on_two_permits_need_two_rounds() {
    let mut limiter = RateLimiter::new(2).unwrap();
    take(&mut limiter);
    take(&mut limiter);
    let (w3, mut rx3) = queue(&mut limiter);
    let (w4, mut rx4) = queue(&mut limiter);
    // Nobody of the second round runs before somebody of the first is done.
    assert_eq!(rx3.try_recv(), Err(TryRecvError::Empty));
    assert_eq!(rx4.try_recv(), Err(TryRecvError::Empty));
    assert_eq!(limiter.release(), Ok(Released::Handed(w3)));
    assert_eq!(limiter.release(), Ok(Released::Handed(w4)));
    assert_eq!(rx3.try_recv(), Ok(()));
    assert_eq!(rx4.try_recv(), Ok(()));
    assert_eq!(limiter.release(), Ok(Released::Returned));
    assert_eq!(limiter.release(), Ok(Released::Returned));
    assert_eq!(limiter.available(), 2);
}

#[test]
fn available_stays_within_bounds_under_a_long_mixed_run() {
    let mut limiter = RateLimiter::new(3).unwrap();
    let mut held = 0usize;
    let mut waiting: Vec<u64> = Vec::new();
    let mut seed = 0x2545_F491_4F6C_DD1Du64;
    for _ in 0..5000 {
        seed ^= seed << 13;
        seed ^= seed >> 7;
        seed ^= seed << 17;
        match seed % 4 {
            0 | 1 => {
                let (tx, _rx) = handle();
                match limiter.acquire(tx) {
                    Acquired::Granted => held += 1,
                    Acquired::Queued(ticket) => waiting.push(ticket),
                }
            }
            2 => {
                if held > 0 {
                    match limiter.release().unwrap() {
                        Released::Returned => held -= 1,
                        Released::Handed(ticket) => assert_eq!(ticket, waiting.remove(0)),
                    }
                } else {
                    assert_eq!(limiter.release(), Err(LimiterError::ExcessRelease));
                }
            }
            _ => {
                if !waiting.is_empty() {
                    let at = (seed >> 8) as usize % waiting.len();
                    let ticket = waiting.remove(at);
                    assert_eq!(limiter.cancel(ticket), Err(LimiterError::Cancelled));
                }
            }
        }
        assert!(limiter.available() <= limiter.capacity());
        assert_eq!(limiter.available() + held, 3);
        assert_eq!(limiter.held(), held);
        assert_eq!(limiter.waiting(), waiting.len());
        assert!(waiting.is_empty() || limiter.available() == 0);
    }
}

#[test]
fn abandon_cancels_a_caller_that_still_waits() {
    let mut limiter = RateLimiter::new(1).unwrap();
    take(&mut limiter);
    let (w1, mut rx1) = queue(&mut limiter);
    let (w2, mut rx2) = queue(&mut limiter);
    assert_eq!(limiter.abandon(w1), Err(LimiterError::Cancelled));
    assert_eq!(rx1.try_recv(), Err(TryRecvError::Closed));
    assert_eq!(rx2.try_recv(), Err(TryRecvError::Empty));
    assert_eq!(limiter.waiting(), 1);
    assert_eq!(limiter.available(), 0);
    assert_eq!(limiter.release(), Ok(Released::Handed(w2)));
}

#[test]
fn abandon_passes_on_a_permit_that_was_granted() {
    let mut limiter = RateLimiter::new(1).unwrap();
    take(&mut limiter);
    let (w1, rx1) = queue(&mut limiter);
    let (w2, mut rx2) = queue(&mut limiter);
    assert_eq!(limiter.release(), Ok(Released::Handed(w1)));
    // w1 goes away with the permit in its hands: w2 gets it.
    drop(rx1);
    assert_eq!(limiter.abandon(w1), Ok(Released::Handed(w2)));
    assert_eq!(rx2.try_recv(), Ok(()));
    assert_eq!(limiter.available(), 0);
    // w2 goes away too, and nobody is left to take the permit.
    assert_eq!(limiter.abandon(w2), Ok(Released::Returned));
    assert_eq!(limiter.available(), 1);
    assert_eq!(limiter.abandon(w2), Err(LimiterError::ExcessRelease));
    assert_eq!(limiter.available(), 1);
}

#[test]
fn cancel_all_empties_the_queue_and_keeps_the_permits() {
    let mut limiter = RateLimiter::new(2).unwrap();
    take(&mut limiter);
    take(&mut limiter);
    let (w1, mut rx1) = queue(&mut limiter);
    let (_w2, mut rx2) = queue(&mut limiter);
    let (_w3, mut rx3) = queue(&mut limiter);
    assert_eq!(limiter.cancel_all(), 3);
    assert_eq!(limiter.waiting(), 0);
    assert_eq!(limiter.available(), 0);
    assert_eq!(limiter.issued(), 3);
    assert_eq!(rx1.try_recv(), Err(TryRecvError::Closed));
    assert_eq!(rx2.try_recv(), Err(TryRecvError::Closed));
    assert_eq!(rx3.try_recv(), Err(TryRecvError::Closed));
    assert_eq!(limiter.cancel(w1), Ok(()));
    assert_eq!(limiter.cancel_all(), 0);
    assert_eq!(limiter.release(), Ok(Released::Returned));
    assert_eq!(limiter.release(), Ok(Released::Returned));
    assert_eq!(limiter.available(), 2);
    // Tickets go on where they stopped.
    take(&mut limiter);
    take(&mut limiter);
    assert_eq!(queue(&mut limiter).0, 3);
}
