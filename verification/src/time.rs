//! Conversions between timer counts and nanoseconds, and the decisions of the timer loops.
use vstd::prelude::*;

verus! {

/// Timer ticks per nanosecond of the RISC-V virt board (10 / 4, rounded up).
pub const TICKS_PER_NANO: u64 = 3;

/// Nanoseconds per timer tick of the RISC-V virt board.
pub const NANOS_PER_TICK: u64 = 1;

/// Whether the RISC-V virt board reads time with `rdtime` (otherwise `rdcycle`).
pub const HAS_RDTIME: bool = false;

/// Number of back-to-back readings that the RISC-V timer accuracy averages over.
pub const RISCV64_ACCURACY_SAMPLES: u64 = 1_000_000;

/// Number of back-to-back readings that the 32-bit RISC-V timer accuracy averages over.
pub const RISCV_ACCURACY_SAMPLES: u64 = 10_000;

/// Nanoseconds per second.
pub const NANOS_PER_SEC: u64 = 1_000_000_000;

/// RISC-V uptime in nanoseconds from a raw counter reading.
pub fn riscv64_ticks_to_nanos(ticks: u64) -> (n: u64)
    requires
        ticks * NANOS_PER_TICK <= u64::MAX,
    ensures
        n == ticks * NANOS_PER_TICK / (TICKS_PER_NANO as int),
{
    ticks * NANOS_PER_TICK / TICKS_PER_NANO
}

/// RISC-V timer accuracy in nanoseconds from the sum of the differences of
/// [`RISCV64_ACCURACY_SAMPLES`] pairs of back-to-back readings.
pub fn riscv64_accuracy_nanos(diff_total: u64) -> (n: u64)
    ensures
        n == diff_total / RISCV64_ACCURACY_SAMPLES * NANOS_PER_TICK / (TICKS_PER_NANO as int),
{
    diff_total / RISCV64_ACCURACY_SAMPLES * NANOS_PER_TICK / TICKS_PER_NANO
}

/// Adds the difference of two back-to-back readings to a running total.
pub fn add_reading_difference(total: u64, first: u64, second: u64) -> (t: u64)
    requires
        first <= second,
        total + (second - first) <= u64::MAX,
    ensures
        t == total + (second - first),
{
    total + (second - first)
}

/// Uptime in nanoseconds of the 32-bit RISC-V timer from a raw counter reading.
pub fn riscv_ticks_to_nanos(ticks: u64) -> (n: u64)
    requires
        ticks * NANOS_PER_TICK <= u64::MAX,
    ensures
        n == ticks * NANOS_PER_TICK,
{
    ticks * NANOS_PER_TICK
}

/// Accuracy in nanoseconds of the 32-bit RISC-V timer from the total of
/// [`RISCV_ACCURACY_SAMPLES`] differences.
pub fn riscv_accuracy_nanos(diff_total: u64) -> (n: u64)
    ensures
        n == diff_total / RISCV_ACCURACY_SAMPLES,
{
    diff_total / RISCV_ACCURACY_SAMPLES
}

/// Whether a wait that began at `begin` has lasted `duration` at `now` (all in nanoseconds).
pub fn wait_finished(begin: u128, now: u128, duration: u128) -> (r: bool)
    requires
        begin <= now,
    ensures
        r == (now - begin >= duration),
{
    now - begin >= duration
}

/// ARMv8 timer accuracy in nanoseconds: one tick at counter frequency `freq` (Hz).
pub fn armv8_accuracy_nanos(freq: u64) -> (n: u64)
    requires
        freq > 0,
    ensures
        n == NANOS_PER_SEC / freq,
{
    NANOS_PER_SEC / freq
}

/// ARMv8 uptime in nanoseconds from the physical count and the counter frequency.
pub fn armv8_uptime_nanos(count: u64, freq: u64) -> (n: u64)
    requires
        freq > 0,
        count * NANOS_PER_SEC <= u64::MAX,
    ensures
        n == count * NANOS_PER_SEC / (freq as int),
{
    count * NANOS_PER_SEC / freq
}

/// The number of ARMv8 counter ticks in a wait of `nanos` nanoseconds at counter frequency
/// `freq` (Hz), rounded down.
pub fn armv8_wait_ticks(freq: u64, nanos: u128) -> (t: u128)
    requires
        freq * nanos <= u128::MAX,
    ensures
        t == freq * nanos / (NANOS_PER_SEC as int),
{
    (freq as u128) * nanos / (NANOS_PER_SEC as u128)
}

/// The largest value the 32-bit timer value register takes.
pub const ARMV8_TVAL_MAX: u64 = 0xffff_ffff;

/// One step of a wait of `remaining` ticks: the timer value to load now, at most what the
/// 32-bit timer value register holds, and the ticks that remain after it. The steps of a wait
/// add up to the whole wait.
pub fn armv8_timer_step(remaining: u128) -> (r: (u64, u128))
    requires
        remaining > 0,
    ensures
        r.0 > 0,
        r.0 == if remaining > ARMV8_TVAL_MAX { ARMV8_TVAL_MAX as int } else { remaining as int },
        r.0 + r.1 == remaining,
{
    if remaining > ARMV8_TVAL_MAX as u128 {
        (ARMV8_TVAL_MAX, remaining - ARMV8_TVAL_MAX as u128)
    } else {
        (remaining as u64, 0)
    }
}

} // verus!
