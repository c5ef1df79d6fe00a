//! What the supervisor trap handler does for each cause.
use vstd::prelude::*;

verus! {

/// Ticks from now at which the timer is rescheduled: two seconds at the board's timebase.
pub const TIMER_RESCHEDULE_TICKS: usize = 20_000_000;

/// What the handler does about a trap, besides logging it.
#[derive(Clone, Copy, PartialEq, Eq, Structural, Debug)]
pub enum TrapAction {
    /// A timer interrupt: set `mtimecmp` to `mtime` plus [`TIMER_RESCHEDULE_TICKS`].
    RescheduleTimer,
    /// A page fault: resume at the next instruction.
    SkipInstruction,
    /// Anything else: resume where the trap happened.
    Resume,
}

/// Whether a `scause` value is an interrupt (its top bit set).
pub open spec fn is_interrupt(cause: usize) -> bool {
    (cause as int / 0x8000_0000_0000_0000) % 2 == 1
}

/// The exception or interrupt code of a `scause` value: its low twelve bits.
pub open spec fn cause_code(cause: usize) -> int {
    cause as int % 0x1000
}

/// The action for a trap cause: timer interrupt (7) reschedules, load or store page fault
/// (5 or 15, synchronous) skips the instruction.
pub open spec fn trap_action_spec(cause: usize) -> TrapAction {
    if is_interrupt(cause) {
        if cause_code(cause) == 7 {
            TrapAction::RescheduleTimer
        } else {
            TrapAction::Resume
        }
    } else if cause_code(cause) == 5 || cause_code(cause) == 15 {
        TrapAction::SkipInstruction
    } else {
        TrapAction::Resume
    }
}

/// A synchronous trap (top bit of the cause clear) skips the instruction exactly for the
/// exception codes 5 and 15 (load and store page faults) and resumes otherwise; an
/// interrupt reschedules the timer exactly for code 7 and never skips.
pub proof fn law_trap_actions_by_code(cause: usize)
    ensures
        (cause as int / 0x8000_0000_0000_0000) % 2 == 0 ==> trap_action_spec(cause) == if cause as int % 0x1000
            == 5 || cause as int % 0x1000 == 15 {
            TrapAction::SkipInstruction
        } else {
            TrapAction::Resume
        },
        (cause as int / 0x8000_0000_0000_0000) % 2 == 1 ==> trap_action_spec(cause) == if cause as int % 0x1000
            == 7 {
            TrapAction::RescheduleTimer
        } else {
            TrapAction::Resume
        },
{
}

/// What to do about a trap of the given cause.
pub fn trap_action(cause: usize) -> (a: TrapAction)
    ensures
        a == trap_action_spec(cause),
        (cause as int / 0x8000_0000_0000_0000) % 2 == 0 ==> (a == TrapAction::SkipInstruction <==> (
        cause as int % 0x1000 == 5 || cause as int % 0x1000 == 15)),
        (cause as int / 0x8000_0000_0000_0000) % 2 == 0 ==> a != TrapAction::RescheduleTimer,
        (cause as int / 0x8000_0000_0000_0000) % 2 == 1 ==> (a == TrapAction::RescheduleTimer <==> cause as int
            % 0x1000 == 7) && a != TrapAction::SkipInstruction,
{
    let c = cause as u64;
    let is_async = c >> 63 & 1 == 1;
    let cause_num = cause & 0xfff;
    proof {
        crate::sv39_pte::lemma_usize_bits(cause);
        crate::sv39_pte::lemma_word_bits(c, 0);
    }
    assert(c as int == cause as int);
    if is_async {
        if cause_num == 7 {
            TrapAction::RescheduleTimer
        } else {
            TrapAction::Resume
        }
    } else if cause_num == 5 || cause_num == 15 {
        TrapAction::SkipInstruction
    } else {
        TrapAction::Resume
    }
}

/// Decides what to do about a trap, and the program counter to return to.
pub fn trap_decision(epc: usize, cause: usize) -> (r: (TrapAction, usize))
    requires
        trap_action_spec(cause) == TrapAction::SkipInstruction ==> epc + 4 <= usize::MAX,
    ensures
        r.0 == trap_action_spec(cause),
        r.1 == if r.0 == TrapAction::SkipInstruction {
            epc + 4
        } else {
            epc as int
        },
        (cause as int / 0x8000_0000_0000_0000) % 2 == 0 && (cause as int % 0x1000 == 5 || cause as int % 0x1000
            == 15) ==> r.0 == TrapAction::SkipInstruction && r.1 == epc + 4,
        (cause as int / 0x8000_0000_0000_0000) % 2 == 0 && !(cause as int % 0x1000 == 5 || cause as int % 0x1000
            == 15) ==> r.0 == TrapAction::Resume && r.1 == epc,
        (cause as int / 0x8000_0000_0000_0000) % 2 == 1 ==> r.1 == epc && (r.0 == TrapAction::RescheduleTimer
            <==> cause as int % 0x1000 == 7),
{
    let action = trap_action(cause);
    match action {
        TrapAction::SkipInstruction => (action, epc + 4),
        _ => (action, epc),
    }
}

/// The `mtimecmp` value that reschedules the timer two seconds after `mtime`.
pub fn next_timer_compare(mtime: usize) -> (c: usize)
    requires
        mtime + TIMER_RESCHEDULE_TICKS <= usize::MAX,
    ensures
        c == mtime + TIMER_RESCHEDULE_TICKS,
{
    mtime + TIMER_RESCHEDULE_TICKS
}

} // verus!
