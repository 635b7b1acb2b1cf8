//! What holds of every limiter, proved over the state machine that the
//! executable limiter follows call by call.

use vstd::prelude::*;
use crate::limiter_model::{LimiterState, Op};

verus! {

/// `k` releases in a row.
pub open spec fn releases(k: nat) -> Seq<Op> {
    Seq::new(k, |i: int| Op::Release)
}

/// `n` requests for a permit in a row.
pub open spec fn requests(n: nat) -> Seq<Op> {
    Seq::new(n, |i: int| Op::Acquire)
}

/// One cancellation for each of `tickets`, in that order.
pub open spec fn cancellations(tickets: Seq<nat>) -> Seq<Op> {
    Seq::new(tickets.len(), |i: int| Op::Cancel(tickets[i]))
}

/// A sequence of tickets in which each is smaller than the next.
pub open spec fn ascending(tickets: Seq<nat>) -> bool {
    forall|i: int, j: int|
        0 <= i < j < tickets.len() ==> #[trigger] tickets[i] < #[trigger] tickets[j]
}

/// No single call breaks the invariant, and none changes the size of the
/// pool or takes back a ticket number.
pub proof fn lemma_step_keeps_invariant(s: LimiterState, op: Op)
    requires
        s.wf(),
    ensures
        s.step(op).wf(),
        s.step(op).capacity == s.capacity,
        s.step(op).issued >= s.issued,
        forall|t: nat| #[trigger]
            s.step(op).queue.contains(t) ==> s.queue.contains(t) || t >= s.issued,
{
    let after = s.step(op);
    match op {
        Op::Acquire => {
            if s.available == 0 {
                assert forall|t: nat| #[trigger] after.queue.contains(t) implies s.queue.contains(t)
                    || t >= s.issued by {
                    let i = after.queue.index_of(t);
                    if i < s.queue.len() {
                        assert(s.queue[i] == t);
                    }
                }
            }
        },
        Op::Release => {
            if s.queue.len() > 0 {
                assert forall|t: nat| #[trigger] after.queue.contains(t) implies s.queue.contains(
                    t,
                ) by {
                    let i = after.queue.index_of(t);
                    assert(s.queue[i + 1] == t);
                }
                assert forall|i: int| 0 <= i < after.queue.len() implies #[trigger] after.queue[i]
                    < after.issued by {
                    assert(after.queue[i] == s.queue[i + 1]);
                }
                assert forall|i: int, j: int| 0 <= i < j < after.queue.len() implies
                    #[trigger] after.queue[i] < #[trigger] after.queue[j] by {
                    assert(after.queue[i] == s.queue[i + 1]);
                    assert(after.queue[j] == s.queue[j + 1]);
                }
            }
        },
        Op::Cancel(ticket) => {
            if s.queue.contains(ticket) {
                let at = s.queue.index_of(ticket);
                assert forall|t: nat| #[trigger] after.queue.contains(t) implies s.queue.contains(
                    t,
                ) by {
                    let i = after.queue.index_of(t);
                    if i < at {
                        assert(s.queue[i] == t);
                    } else {
                        assert(s.queue[i + 1] == t);
                    }
                }
                assert forall|i: int| 0 <= i < after.queue.len() implies #[trigger] after.queue[i]
                    < after.issued by {
                    if i < at {
                        assert(after.queue[i] == s.queue[i]);
                    } else {
                        assert(after.queue[i] == s.queue[i + 1]);
                    }
                }
                assert forall|i: int, j: int| 0 <= i < j < after.queue.len() implies
                    #[trigger] after.queue[i] < #[trigger] after.queue[j] by {
                    let a = if i < at { i } else { i + 1 };
                    let b = if j < at { j } else { j + 1 };
                    assert(after.queue[i] == s.queue[a]);
                    assert(after.queue[j] == s.queue[b]);
                }
            }
        },
    }
}

/// The pool never overflows: whatever calls are made on a limiter, in
/// whatever order, the invariant holds after each of them. So at every
/// instant the free permits are at least none and at most the capacity, and
/// free and held permits together make up the pool.
pub proof fn lemma_capacity_invariant(s: LimiterState, ops: Seq<Op>)
    requires
        s.wf(),
    ensures
        forall|k: int|
            0 <= k <= ops.len() ==> {
                let then = #[trigger] s.run(ops.take(k));
                &&& then.wf()
                &&& then.capacity == s.capacity
                &&& 0 <= then.available <= s.capacity
                &&& then.available + then.held == s.capacity
            },
    decreases ops.len(),
{
    assert forall|k: int| 0 <= k <= ops.len() implies {
        let then = #[trigger] s.run(ops.take(k));
        &&& then.wf()
        &&& then.capacity == s.capacity
        &&& 0 <= then.available <= s.capacity
        &&& then.available + then.held == s.capacity
    } by {
        if k == 0 {
            assert(ops.take(0).len() == 0);
        } else {
            let next = s.step(ops[0]);
            lemma_step_keeps_invariant(s, ops[0]);
            lemma_capacity_invariant(next, ops.drop_first());
            assert(ops.take(k).drop_first() =~= ops.drop_first().take(k - 1));
            assert(ops.take(k)[0] == ops[0]);
            assert(s.run(ops.take(k)) == next.run(ops.drop_first().take(k - 1)));
        }
    }
}

/// Every waiter that a sequence of calls wakes was queued at the start or
/// got its ticket later, and the waiters are woken in the order of their
/// tickets.
proof fn lemma_grants_ascend(s: LimiterState, ops: Seq<Op>)
    requires
        s.wf(),
    ensures
        ascending(s.grants(ops)),
        forall|i: int|
            0 <= i < s.grants(ops).len() ==> s.queue.contains(#[trigger] s.grants(ops)[i])
                || s.grants(ops)[i] >= s.issued,
    decreases ops.len(),
{
    if ops.len() > 0 {
        let next = s.step(ops[0]);
        let rest = next.grants(ops.drop_first());
        lemma_step_keeps_invariant(s, ops[0]);
        lemma_grants_ascend(next, ops.drop_first());
        assert forall|i: int| 0 <= i < rest.len() implies s.queue.contains(#[trigger] rest[i])
            || rest[i] >= s.issued by {
            if next.queue.contains(rest[i]) {
            }
        }
        match s.woken_by(ops[0]) {
            Some(head) => {
                assert(s.queue[0] == head);
                assert(s.queue.contains(head));
                assert forall|i: int| 0 <= i < rest.len() implies head < #[trigger] rest[i] by {
                    if next.queue.contains(rest[i]) {
                        let at = next.queue.index_of(rest[i]);
                        assert(s.queue[at + 1] == rest[i]);
                    }
                }
                let all = s.grants(ops);
                assert(all =~= seq![head] + rest);
                assert forall|i: int, j: int| 0 <= i < j < all.len() implies #[trigger] all[i]
                    < #[trigger] all[j] by {
                    assert(all[j] == rest[j - 1]);
                    if i > 0 {
                        assert(all[i] == rest[i - 1]);
                    }
                }
            },
            None => {},
        }
    }
}

/// First come, first served: whatever calls are made, the waiters are woken
/// in the order in which they joined the queue. Tickets are handed out in
/// arrival order, so the tickets of the woken waiters ascend: nobody is
/// served before a caller that has waited longer.
pub proof fn lemma_served_in_arrival_order(s: LimiterState, ops: Seq<Op>)
    requires
        s.wf(),
    ensures
        ascending(s.grants(ops)),
{
    lemma_grants_ascend(s, ops);
}

/// A caller that arrives while others wait joins the tail of the queue,
/// whatever else is true of the limiter: it cannot take a permit ahead of
/// them.
pub proof fn lemma_newcomer_queues_behind(s: LimiterState)
    requires
        s.wf(),
        s.queue.len() > 0,
    ensures
        s.acquire().queue == s.queue.push(s.issued),
        s.acquire().available == 0,
        s.acquire().next_grant() == s.next_grant(),
{
}

/// With `k` callers or more in the queue, `k` releases wake the first `k` of
/// them, oldest first, leave the others waiting in their order, and free no
/// permit.
pub proof fn lemma_releases_wake_queue_prefix(s: LimiterState, k: nat)
    requires
        s.wf(),
        k <= s.queue.len(),
    ensures
        s.grants(releases(k)) == s.queue.take(k as int),
        s.run(releases(k)).queue == s.queue.skip(k as int),
        s.run(releases(k)).available == s.available,
    decreases k,
{
    if k == 0 {
        assert(s.queue.take(0) =~= Seq::empty());
        assert(s.queue.skip(0) =~= s.queue);
    } else {
        let next = s.step(Op::Release);
        lemma_step_keeps_invariant(s, Op::Release);
        lemma_releases_wake_queue_prefix(next, (k - 1) as nat);
        assert(releases(k).drop_first() =~= releases((k - 1) as nat));
        assert(releases(k)[0] == Op::Release);
        assert(next.queue.skip(k - 1) =~= s.queue.skip(k as int));
        assert(seq![s.queue[0]] + next.queue.take(k - 1) =~= s.queue.take(k as int));
    }
}

/// Filtering keeps a sequence whose items all pass.
proof fn lemma_filter_keeps_all(q: Seq<nat>, keep: spec_fn(nat) -> bool)
    requires
        forall|i: int| 0 <= i < q.len() ==> keep(#[trigger] q[i]),
    ensures
        q.filter(keep) == q,
    decreases q.len(),
{
    reveal(Seq::filter);
    if q.len() > 0 {
        lemma_filter_keeps_all(q.drop_last(), keep);
        assert(q.drop_last().push(q.last()) =~= q);
    }
}

/// Filtering twice is filtering once by both tests.
proof fn lemma_filter_twice(
    q: Seq<nat>,
    first: spec_fn(nat) -> bool,
    second: spec_fn(nat) -> bool,
    both: spec_fn(nat) -> bool,
)
    requires
        forall|t: nat| #[trigger] both(t) == (first(t) && second(t)),
    ensures
        q.filter(first).filter(second) == q.filter(both),
    decreases q.len(),
{
    reveal(Seq::filter);
    if q.len() > 0 {
        lemma_filter_twice(q.drop_last(), first, second, both);
        let front = q.drop_last().filter(first);
        if first(q.last()) {
            assert(front.push(q.last()).drop_last() =~= front);
        }
    }
}

/// A cancellation takes one caller out of the queue and leaves the others
/// in the order they had.
pub proof fn lemma_cancel_keeps_order(s: LimiterState, ticket: nat)
    requires
        s.wf(),
    ensures
        s.cancel(ticket).queue == s.queue.filter(|t: nat| t != ticket),
        s.cancel(ticket).available == s.available,
        s.cancel(ticket).capacity == s.capacity,
        !s.cancel(ticket).queue.contains(ticket),
{
    let keep = |t: nat| t != ticket;
    if s.queue.contains(ticket) {
        let at = s.queue.index_of(ticket);
        let front = s.queue.take(at);
        let back = s.queue.skip(at + 1);
        assert forall|i: int| 0 <= i < front.len() implies keep(#[trigger] front[i]) by {
            assert(s.queue[i] < s.queue[at]);
        }
        assert forall|i: int| 0 <= i < back.len() implies keep(#[trigger] back[i]) by {
            assert(s.queue[at] < s.queue[at + 1 + i]);
        }
        lemma_filter_keeps_all(front, keep);
        lemma_filter_keeps_all(back, keep);
        let one = seq![ticket];
        assert(one.filter(keep) =~= Seq::empty()) by {
            reveal_with_fuel(Seq::filter, 2);
        }
        assert(s.queue =~= front + one + back);
        Seq::filter_distributes_over_add(front + one, back, keep);
        Seq::filter_distributes_over_add(front, one, keep);
        assert(s.queue.remove(at) =~= front + back);
        assert(s.queue.filter(keep) =~= front + back);
        if s.cancel(ticket).queue.contains(ticket) {
            let i = s.cancel(ticket).queue.index_of(ticket);
            if i < at {
                assert(front[i] == ticket);
            } else {
                assert(back[i - at] == ticket);
            }
        }
    } else {
        assert forall|i: int| 0 <= i < s.queue.len() implies keep(#[trigger] s.queue[i]) by {
            assert(s.queue.contains(s.queue[i]));
        }
        lemma_filter_keeps_all(s.queue, keep);
    }
}

/// A caller that gave up while it waited is never woken afterwards,
/// whatever calls follow.
pub proof fn lemma_cancelled_never_woken(s: LimiterState, ticket: nat, ops: Seq<Op>)
    requires
        s.wf(),
        s.queue.contains(ticket),
    ensures
        !s.cancel(ticket).grants(ops).contains(ticket),
{
    let after = s.cancel(ticket);
    lemma_step_keeps_invariant(s, Op::Cancel(ticket));
    lemma_cancel_keeps_order(s, ticket);
    lemma_grants_ascend(after, ops);
    assert(s.queue[s.queue.index_of(ticket)] < s.issued);
    if after.grants(ops).contains(ticket) {
        let i = after.grants(ops).index_of(ticket);
        assert(after.queue.contains(after.grants(ops)[i]) || after.grants(ops)[i] >= after.issued);
    }
}

/// Cancellations wake nobody and free nothing: after any number of them the
/// queue holds the callers that did not give up, in their old order.
pub proof fn lemma_cancellations_leave_the_rest(s: LimiterState, gone: Seq<nat>)
    requires
        s.wf(),
    ensures
        s.run(cancellations(gone)).wf(),
        s.run(cancellations(gone)).queue == s.queue.filter(|t: nat| !gone.contains(t)),
        s.run(cancellations(gone)).available == s.available,
        s.run(cancellations(gone)).capacity == s.capacity,
        s.run(cancellations(gone)).issued == s.issued,
        s.grants(cancellations(gone)) == Seq::<nat>::empty(),
    decreases gone.len(),
{
    let stays = |t: nat| !gone.contains(t);
    if gone.len() == 0 {
        assert forall|i: int| 0 <= i < s.queue.len() implies stays(#[trigger] s.queue[i]) by {}
        lemma_filter_keeps_all(s.queue, stays);
    } else {
        let first = gone[0];
        let others = gone.drop_first();
        let next = s.cancel(first);
        let not_first = |t: nat| t != first;
        let not_others = |t: nat| !others.contains(t);
        lemma_step_keeps_invariant(s, Op::Cancel(first));
        lemma_cancel_keeps_order(s, first);
        lemma_cancellations_leave_the_rest(next, others);
        assert(cancellations(gone).drop_first() =~= cancellations(others));
        assert(cancellations(gone)[0] == Op::Cancel(first));
        assert forall|t: nat| #[trigger] stays(t) == (not_first(t) && not_others(t)) by {
            if gone.contains(t) {
                let i = gone.index_of(t);
                if i > 0 {
                    assert(others[i - 1] == t);
                }
            }
            if others.contains(t) {
                let i = others.index_of(t);
                assert(gone[i + 1] == t);
            }
            if t == first {
                assert(gone[0] == t);
            }
        }
        lemma_filter_twice(s.queue, not_first, not_others, stays);
    }
}

/// No permit leaks when waiters give up: after any number of
/// cancellations, one release wakes exactly one caller, the oldest that did
/// not give up, and frees no permit; with nobody left it frees one permit at
/// most, and never more than the pool holds.
pub proof fn lemma_release_after_cancellations(s: LimiterState, gone: Seq<nat>)
    requires
        s.wf(),
    ensures
        ({
            let left = s.queue.filter(|t: nat| !gone.contains(t));
            let then = s.run(cancellations(gone));
            &&& then.grants(seq![Op::Release]) == if left.len() > 0 {
                seq![left[0]]
            } else {
                Seq::<nat>::empty()
            }
            &&& then.release().queue == if left.len() > 0 {
                left.drop_first()
            } else {
                left
            }
            &&& left.len() > 0 ==> then.release().available == s.available
            &&& left.len() == 0 ==> then.release().available == if s.available < s.capacity {
                s.available + 1
            } else {
                s.available
            }
            &&& then.release().available <= s.capacity
        }),
{
    lemma_cancellations_leave_the_rest(s, gone);
    let then = s.run(cancellations(gone));
    let ops = seq![Op::Release];
    assert(ops.drop_first().len() == 0);
    assert(then.step(ops[0]).grants(ops.drop_first()) =~= Seq::<nat>::empty());
    if then.queue.len() > 0 {
        assert(then.grants(ops) =~= seq![then.queue[0]]);
    } else {
        assert(then.grants(ops) =~= Seq::<nat>::empty());
    }
}

/// A caller leaves the queue in two ways only: a release wakes it, or it
/// gives up.
pub proof fn lemma_waiter_leaves_by_grant_or_cancel(s: LimiterState, op: Op, ticket: nat)
    requires
        s.wf(),
        s.queue.contains(ticket),
        !s.step(op).queue.contains(ticket),
    ensures
        s.woken_by(op) == Some(ticket) || op == Op::Cancel(ticket),
{
    let at = s.queue.index_of(ticket);
    match op {
        Op::Acquire => {
            if s.available == 0 {
                assert(s.step(op).queue[at] == ticket);
            }
        },
        Op::Release => {
            if at > 0 {
                assert(s.step(op).queue[at - 1] == ticket);
            }
        },
        Op::Cancel(other) => {
            if other != ticket && s.queue.contains(other) {
                let gone = s.queue.index_of(other);
                if at < gone {
                    assert(s.step(op).queue[at] == ticket);
                } else {
                    assert(s.step(op).queue[at - 1] == ticket);
                }
            }
        },
    }
}

/// A wait that is over stays over: a ticket that was handed out and is no
/// longer queued never stands in the queue again, and is never woken,
/// whatever calls follow.
pub proof fn lemma_settled_wait_stays_settled(s: LimiterState, ticket: nat, ops: Seq<Op>)
    requires
        s.wf(),
        ticket < s.issued,
        !s.queue.contains(ticket),
    ensures
        !s.run(ops).queue.contains(ticket),
        !s.grants(ops).contains(ticket),
    decreases ops.len(),
{
    lemma_grants_ascend(s, ops);
    if s.grants(ops).contains(ticket) {
        let i = s.grants(ops).index_of(ticket);
        assert(s.queue.contains(s.grants(ops)[i]) || s.grants(ops)[i] >= s.issued);
    }
    if ops.len() > 0 {
        lemma_step_keeps_invariant(s, ops[0]);
        lemma_settled_wait_stays_settled(s.step(ops[0]), ticket, ops.drop_first());
    }
}

/// A burst is admitted as far as permits are free, and no further: of `n`
/// callers that arrive in a row, as many get a permit as there are free
/// ones, and the others queue up behind those who wait already, in the
/// order of their arrival. Each of them runs only after a release.
pub proof fn lemma_burst_admits_what_is_free(s: LimiterState, n: nat)
    requires
        s.wf(),
    ensures
        ({
            let after = s.run(requests(n));
            let late = if n <= s.available {
                0nat
            } else {
                (n - s.available) as nat
            };
            &&& after.available == s.available - (n - late)
            &&& after.queue == s.queue + Seq::new(late, |i: int| (s.issued + i) as nat)
            &&& after.held == s.held + (n - late)
            &&& s.grants(requests(n)) == Seq::<nat>::empty()
        }),
    decreases n,
{
    let late = if n <= s.available {
        0nat
    } else {
        (n - s.available) as nat
    };
    if n == 0 {
        assert(s.queue + Seq::new(late, |i: int| (s.issued + i) as nat) =~= s.queue);
    } else {
        let next = s.acquire();
        let fewer = (n - 1) as nat;
        lemma_step_keeps_invariant(s, Op::Acquire);
        lemma_burst_admits_what_is_free(next, fewer);
        assert(requests(n).drop_first() =~= requests(fewer));
        assert(requests(n)[0] == Op::Acquire);
        let next_late = if fewer <= next.available {
            0nat
        } else {
            (fewer - next.available) as nat
        };
        if s.available > 0 {
            assert(next_late == late);
            assert(next.queue + Seq::new(next_late, |i: int| (next.issued + i) as nat) =~= s.queue
                + Seq::new(late, |i: int| (s.issued + i) as nat));
        } else {
            assert(next_late + 1 == late);
            assert(next.queue + Seq::new(next_late, |i: int| (next.issued + i) as nat) =~= s.queue
                + Seq::new(late, |i: int| (s.issued + i) as nat));
        }
    }
}

/// Sending every waiter away is cancelling each of them in turn: nobody is
/// woken, nobody is left, and no permit moves.
pub proof fn lemma_cancel_all_cancels_each(s: LimiterState)
    requires
        s.wf(),
    ensures
        s.run(cancellations(s.queue)) == s.cancel_all(),
        s.grants(cancellations(s.queue)) == Seq::<nat>::empty(),
        s.cancel_all().wf(),
{
    let stays = |t: nat| !s.queue.contains(t);
    lemma_cancellations_leave_the_rest(s, s.queue);
    let left = s.queue.filter(stays);
    if left.len() > 0 {
        s.queue.lemma_filter_pred(stays, 0);
        s.queue.lemma_filter_contains_rev(stays, left[0]);
    }
    assert(left =~= Seq::<nat>::empty());
}

/// Walking away from a wait is one step of the machine: a cancellation for
/// a caller that is still queued, a release for one that is not. So every
/// law of this file holds of runs in which callers walk away.
pub proof fn lemma_abandon_is_a_step(s: LimiterState, ticket: nat)
    ensures
        s.abandon(ticket) == s.step(
            if s.queue.contains(ticket) {
                Op::Cancel(ticket)
            } else {
                Op::Release
            },
        ),
{
}

} // verus!
