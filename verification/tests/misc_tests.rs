use scraps::boot::{
    cluster_num, core_num, default_regs, early_boot_step, is_boot_hart, map_kernel_gigapages,
    mmio_base, subdivide_size, to_higher_half, BootStep,
};
use scraps::clint::CLINT;
use scraps::error::{HeaplessError, HeaplessErrorExt};
use scraps::lock::Lock;
use scraps::mmu::HIGHER_HALF_BASE;
use scraps::sv39_table::{Sv39Table, ONEGIG};
use scraps::time::{
    add_reading_difference, armv8_accuracy_nanos, armv8_timer_step, armv8_wait_ticks, armv8_uptime_nanos,
    riscv64_accuracy_nanos, riscv64_ticks_to_nanos, riscv_accuracy_nanos, riscv_ticks_to_nanos,
    wait_finished,
};
use scraps::trap::{next_timer_compare, trap_decision, TrapAction};

#[test]
fn error_message_and_context() {
    let e = HeaplessError::msg("no stdout");
    assert_eq!(e.to_string(), "no stdout");
    assert_eq!(HeaplessError::from("bad").to_string(), "bad");
    let some: Option<u32> = Some(3);
    assert_eq!(some.context("missing").ok(), Some(3));
    let none: Option<u32> = None;
    match none.context("missing") {
        Err(HeaplessError::StrError(m)) => assert_eq!(m, "missing"),
        Ok(_) => panic!("expected an error"),
    }
}

#[test]
fn lock_acquire_and_release() {
    let l = Lock::new();
    assert!(!l.is_held());
    assert!(l.try_acquire());
    assert!(l.is_held());
    assert!(!l.try_acquire());
    l.unlock();
    assert!(!l.is_held());
    assert!(l.try_acquire());
}

#[test]
fn clint_register_addresses() {
    let c = CLINT::new(0x200_0000);
    assert!(c.is_init());
    assert_eq!(c.mtime_address(), 0x200_bff8);
    assert_eq!(c.mtimecmp_address(), 0x200_4000);
    assert!(!CLINT::uninit().is_init());
}

#[test]
fn trap_timer_interrupt_reschedules() {
    let cause = (1usize << 63) | 7;
    assert_eq!(trap_decision(0x8000, cause), (TrapAction::RescheduleTimer, 0x8000));
    assert_eq!(next_timer_compare(1_000), 20_001_000);
}

#[test]
fn trap_page_fault_skips_instruction() {
    assert_eq!(trap_decision(0x8000, 5), (TrapAction::SkipInstruction, 0x8004));
    assert_eq!(trap_decision(0x8000, 15), (TrapAction::SkipInstruction, 0x8004));
    // an interrupt with a page-fault code is not a page fault
    assert_eq!(trap_decision(0x8000, (1usize << 63) | 5), (TrapAction::Resume, 0x8000));
    // other exceptions resume where they happened
    assert_eq!(trap_decision(0x8000, 2), (TrapAction::Resume, 0x8000));
}

#[test]
fn riscv_timer_conversions() {
    assert_eq!(riscv64_ticks_to_nanos(30), 10);
    assert_eq!(riscv64_ticks_to_nanos(31), 10);
    assert_eq!(riscv64_accuracy_nanos(3_000_000), 1);
    assert_eq!(riscv_ticks_to_nanos(30), 30);
    assert_eq!(riscv_accuracy_nanos(50_000), 5);
    assert_eq!(add_reading_difference(10, 100, 107), 17);
    assert!(wait_finished(100, 200, 100));
    assert!(!wait_finished(100, 199, 100));
}

#[test]
fn armv8_timer_conversions() {
    assert_eq!(armv8_accuracy_nanos(62_500_000), 16);
    assert_eq!(armv8_uptime_nanos(62_500_000, 62_500_000), 1_000_000_000);
    assert_eq!(armv8_wait_ticks(62_500_000, 1_000_000), 62_500);
    assert_eq!(armv8_wait_ticks(62_500_000, 0), 0);
    // too short to be a single tick
    assert_eq!(armv8_wait_ticks(62_500_000, 10), 0);
    // a hundred seconds is more ticks than one timer value holds
    assert_eq!(armv8_wait_ticks(62_500_000, 100_000_000_000), 6_250_000_000);
    assert_eq!(armv8_wait_ticks(u64::MAX, 2_000_000_000), 2 * u64::MAX as u128);
}

#[test]
fn armv8_long_waits_go_in_steps() {
    let mut remaining = armv8_wait_ticks(62_500_000, 100_000_000_000);
    let mut steps = Vec::new();
    while remaining > 0 {
        let (tval, rest) = armv8_timer_step(remaining);
        steps.push(tval);
        remaining = rest;
    }
    assert_eq!(steps, vec![0xffff_ffff, 6_250_000_000 - 0xffff_ffff]);
    assert_eq!(armv8_timer_step(10), (10, 0));
}

#[test]
fn raspberry_pi_mmio_bases() {
    assert_eq!(mmio_base(0x410F_B767), 0x2000_0000);
    assert_eq!(mmio_base(0x410F_C075), 0x3F00_0000);
    assert_eq!(mmio_base(0x410F_D034), 0x3F00_0000);
    assert_eq!(mmio_base(0x410F_D083), 0xFE00_0000);
    assert_eq!(mmio_base(0), 0x2000_0000);
}

#[test]
fn aarch64_core_and_cluster() {
    assert_eq!(core_num(0x8000_0203), 3);
    assert_eq!(cluster_num(0x8000_0203), 2);
    assert_eq!(early_boot_step(0, 0, 0b1100), BootStep::El3ToEl2);
    assert_eq!(early_boot_step(0, 0, 0b1000), BootStep::El2ToEl1);
    assert_eq!(early_boot_step(0, 0, 0b0100), BootStep::SetupEnvironment);
    assert_eq!(early_boot_step(0, 0, 0), BootStep::WaitForever);
    assert_eq!(early_boot_step(0, 1, 0b0100), BootStep::WaitForever);
    assert_eq!(early_boot_step(1, 0, 0b0100), BootStep::WaitForever);
    assert!(is_boot_hart(0));
    assert!(!is_boot_hart(1));
}

#[test]
fn higher_half_addresses() {
    assert_eq!(to_higher_half(0x8020_1234, 0x8020_0000), HIGHER_HALF_BASE + 0x1234);
    assert_eq!(subdivide_size::<usize>(64), 8);
    let regs = default_regs();
    assert!(regs.iter().all(|r| *r == 0));
}

#[test]
fn kernel_gigapages_are_mapped_twice() {
    let mut root = Sv39Table::new();
    map_kernel_gigapages(&mut root, 0x8020_0000, 0x8060_0000);
    // the kernel's gibibyte (index 2) at itself and at the higher half (index 3)
    let id = root.entries()[2];
    let hh = root.entries()[3];
    assert!(id.valid() && hh.valid());
    assert_eq!(id.physical_addr(), 2 * ONEGIG);
    assert_eq!(hh.physical_addr(), 2 * ONEGIG);
    assert_eq!(hh.permissions().bits(), 7);
    assert!(!root.entries()[4].valid());
}
