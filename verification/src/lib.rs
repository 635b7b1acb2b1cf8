//! A fixed-capacity permit pool with a first-come, first-served wait queue,
//! together with a handful of small verified utilities.
//!
//! The limiter is a state machine: [`RateLimiter`] is driven by `acquire`,
//! `release` and `cancel` under exclusive access, and each call is proved to
//! take the step that [`LimiterState`] describes. What holds of every run of
//! that machine (the pool never overflows, waiters are served in arrival
//! order, a cancelled waiter is never woken and costs no permit) is proved in
//! [`limiter_laws`]. A waiter is woken through a one-shot channel of `tokio`;
//! suspending and resuming the caller is left to the async code around the
//! library.
//!
//! The utilities are a primality test, a cache with least-recently-used
//! eviction, a cutter of iterators into pieces, a reader of `key = value`
//! texts, and the arithmetic of time buckets.

pub mod limiter_model;
pub mod limiter_laws;
pub mod wake;
pub mod limiter;
pub mod prime;
pub mod chunk;
pub mod lru;
pub mod text;
pub mod config;
pub mod bucket;

pub use limiter::{Acquired, LimiterError, Released, RateLimiter};
pub use limiter_model::{LimiterState, Op};
pub use prime::is_prime;
pub use chunk::chunk;
pub use lru::LruCache;
pub use config::{parse_config, ConfigEntry, ConfigError};
pub use bucket::{bucket_index, bucket_start};
