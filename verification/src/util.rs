//! Small process-level helpers: the shutdown flag, bounded spinning and the
//! escalation of idle waits.
use vstd::prelude::*;
use std::sync::atomic::{AtomicBool, Ordering};

verus! {

/// `std::hint::spin_loop`: tells the processor that the thread is spinning. It has no result.
#[verifier::external_body]
fn cpu_relax() {
    std::hint::spin_loop();
}

/// A flag that, once raised, asks every loop of the pipeline to stop.
pub struct BarrierFlag(AtomicBool);

impl Default for BarrierFlag {
    fn default() -> (f: Self) {
        BarrierFlag(AtomicBool::new(false))
    }
}

impl BarrierFlag {
    /// Raises the flag.
    pub fn raise(&self) {
        self.0.store(true, Ordering::SeqCst);
    }

    /// Whether some thread has been seen to raise the flag.
    pub fn is_raised(&self) -> (r: bool) {
        self.0.load(Ordering::Relaxed)
    }
}

/// Spins for `loops` rounds.
pub fn spin_wait(loops: u32) {
    let mut left = loops;
    while left > 0
        decreases left,
    {
        cpu_relax();
        left -= 1;
    }
}

/// Idle rounds that are spent spinning.
pub const SPIN_ROUNDS: u32 = 64;

/// Idle rounds after which the thread sleeps instead of yielding.
pub const YIELD_ROUNDS: u32 = 256;

/// Length of a sleep of an idle thread, in microseconds.
pub const IDLE_SLEEP_MICROS: u64 = 50;

/// What an idle thread does next.
#[derive(Debug, Clone, Copy, PartialEq, Eq, Structural)]
pub enum IdleAction {
    /// Spin for the given number of rounds.
    Spin(u32),
    /// Yield the processor.
    Yield,
    /// Sleep for the given number of microseconds.
    Sleep(u64),
}

/// What a thread does in its `idle_iters`-th idle round in a row.
pub open spec fn idle_action(idle_iters: u32, base_spins: u32) -> IdleAction {
    if idle_iters < SPIN_ROUNDS {
        IdleAction::Spin(base_spins)
    } else if idle_iters < YIELD_ROUNDS {
        IdleAction::Yield
    } else {
        IdleAction::Sleep(IDLE_SLEEP_MICROS)
    }
}

/// The count of idle rounds after one more: it stops growing once the thread sleeps.
pub open spec fn idle_next(idle_iters: u32) -> u32 {
    if idle_iters < YIELD_ROUNDS {
        (idle_iters + 1) as u32
    } else {
        YIELD_ROUNDS
    }
}

/// Escalates an idle wait: spinning first, then yielding, then short sleeps.
/// Counts the round and says what to do; the caller does it.
pub fn adaptive_wait(idle_iters: &mut u32, base_spins: u32) -> (action: IdleAction)
    ensures
        action == idle_action(*old(idle_iters), base_spins),
        *final(idle_iters) == idle_next(*old(idle_iters)),
{
    if *idle_iters < SPIN_ROUNDS {
        *idle_iters += 1;
        IdleAction::Spin(base_spins)
    } else if *idle_iters < YIELD_ROUNDS {
        *idle_iters += 1;
        IdleAction::Yield
    } else {
        *idle_iters = YIELD_ROUNDS;
        IdleAction::Sleep(IDLE_SLEEP_MICROS)
    }
}

} // verus!
