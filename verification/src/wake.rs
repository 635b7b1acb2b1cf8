//! The notification handle of a waiter, and the one call that fires it.

use vstd::prelude::*;

verus! {

/// The sending half of a `tokio` one-shot channel. The limiter keeps one per
/// waiter and never looks inside it.
#[verifier::external_type_specification]
#[verifier::external_body]
#[verifier::reject_recursive_types(T)]
pub struct ExSender<T>(tokio::sync::oneshot::Sender<T>);

/// Fires a waiter's handle through `tokio::sync::oneshot::Sender::send`.
///
/// Nothing is claimed of the call but that it returns: it neither waits nor
/// panics. Whether the message reached anybody is not reported, because a
/// waiter that has gone away settles its own wait through
/// [`crate::RateLimiter::cancel`].
#[verifier::external_body]
pub(crate) fn wake(handle: tokio::sync::oneshot::Sender<()>) {
    let _ = handle.send(());
}

} // verus!
