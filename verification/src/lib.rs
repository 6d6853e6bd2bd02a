//! Event and software-timer core for a single-threaded, cooperatively polled
//! host, such as a blocking driver for a secure element on a slow bus.
//!
//! The crate has two layers. [`scheduler`] holds armed deadlines, each tagged
//! with an opaque action token, and sweeps the ones that have elapsed in
//! non-decreasing deadline order. [`event`] owns the single reusable event
//! slot — the one asynchronous operation in flight — and drives the scheduler:
//! arming a completion callback with a deadline, firing it out of band, and
//! delivering it at most once per arming from the host's polling loop.
//!
//! The host owns one [`event::EventManager`], feeds it readings of a monotonic
//! microsecond clock, and performs the completions the manager hands back.

pub mod event;
pub mod scheduler;
