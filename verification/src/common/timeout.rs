//! A time limit measured from the moment it is made, which another holder of its
//! flag may also end early.
use vstd::prelude::*;
use std::sync::Arc;
use std::sync::atomic::AtomicBool;
use std::sync::atomic::Ordering;
use std::time::Instant;

verus! {

#[verifier::external_type_specification]
#[verifier::external_body]
pub struct ExInstant(Instant);

/// Calls `Instant::now`: the current moment. Nothing is claimed of it.
#[verifier::external_body]
fn instant_now() -> Instant {
    Instant::now()
}

/// Calls `Instant::elapsed` and `Duration::as_micros`: the microseconds since `clock`.
/// It depends on the time, so nothing is claimed of it.
#[verifier::external_body]
fn elapsed_micros(clock: &Instant) -> u128 {
    clock.elapsed().as_micros()
}

/// Calls `Arc::clone`: a second handle on the same flag. The sharing itself is not
/// stated, since the handle is opaque here.
#[verifier::external_body]
fn share_flag(flag: &Arc<AtomicBool>) -> Arc<AtomicBool> {
    flag.clone()
}

/// A time limit of `remaining_time` microseconds from `clock`, ended early once `quit` is set.
pub struct Timeout {
    remaining_time: u128,
    clock: Instant,
    quit: Arc<AtomicBool>,
}

impl Timeout {
    /// The limit, in microseconds from the start.
    pub closed spec fn limit(&self) -> u128 {
        self.remaining_time
    }

    pub fn new(time_out: u128) -> (t: Timeout)
        ensures
            t.limit() == time_out,
    {
        Timeout { remaining_time: time_out, clock: instant_now(), quit: Arc::new(AtomicBool::new(false)) }
    }

    /// A limit that also ends when another holder of `quit` sets it.
    pub fn new_concurrent(time_out: u128, quit: Arc<AtomicBool>) -> (t: Timeout)
        ensures
            t.limit() == time_out,
    {
        Timeout { remaining_time: time_out, clock: instant_now(), quit }
    }

    /// Whether the limit has passed or the flag was set. It depends on the time.
    pub fn time_finished(&self) -> bool {
        let elapsed = elapsed_micros(&self.clock);
        elapsed > self.remaining_time || self.quit.load(Ordering::Relaxed)
    }

    /// The microseconds left before the limit, `0` once it has passed.
    pub fn remaining_time(&self) -> (r: u128)
        ensures
            r <= self.limit(),
    {
        let elapsed = elapsed_micros(&self.clock);
        if elapsed >= self.remaining_time {
            0
        } else {
            self.remaining_time - elapsed
        }
    }

    /// Ends this limit, and every limit that shares its flag, at once.
    pub fn finish(&self) {
        self.quit.store(true, Ordering::Relaxed);
    }

    /// Clears the flag again.
    pub fn reset_finish(&self) {
        self.quit.store(false, Ordering::Relaxed);
    }

    /// A handle on the flag, for another limit to share.
    pub fn get_finish_var(&self) -> Arc<AtomicBool> {
        share_flag(&self.quit)
    }

    /// A limit with the same start and flag that ends `time` microseconds from now.
    pub fn clone_with_new_timeout(&self, time: u128) -> (t: Timeout)
        ensures
            t.limit() >= time,
    {
        let elapsed = elapsed_micros(&self.clock);
        Timeout { remaining_time: elapsed.saturating_add(time), clock: self.clock, quit: share_flag(&self.quit) }
    }
}

} // verus!
