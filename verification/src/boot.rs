//! Decisions and address arithmetic of early boot, and the boot-time data layouts.
use vstd::prelude::*;
use crate::mmu::HIGHER_HALF_BASE;
use crate::sv39_pte::XWRPermissions;
use crate::sv39_table::{Sv39Table, ONEGIG, word, leaf_word};

verus! {

/// Framebuffer description that iBoot hands over.
#[allow(non_snake_case, non_camel_case_types)]
pub struct iBootVideo {
    pub baseAddr: u64,
    pub display: u64,
    pub rowBytes: u64,
    pub width: u64,
    pub height: u64,
    pub depth: u64,
}

/// Boot arguments that iBoot hands over.
#[allow(non_snake_case, non_camel_case_types)]
pub struct iBootArgs {
    pub revision: u16,
    pub version: u16,
    pub virtBase: u64,
    pub physBase: u64,
    pub memSize: u64,
    pub topOfKernelData: u64,
    pub framebuffer: iBootVideo,
    pub machineType: u32,
    pub deviceTreeP: usize,
    pub deviceTreeLength: u32,
    pub cmdline: [u8; 256],
    pub bootFlags: u64,
    pub memSizeActual: u64,
}

/// The 32 general-purpose registers of a hart.
pub type Regs = [usize; 32];

/// All general-purpose registers zero.
pub fn default_regs() -> (r: Regs)
    ensures
        forall|i: int| 0 <= i < 32 ==> r@[i] == 0,
{
    [0; 32]
}

/// Base of the peripheral MMIO region for a part number.
pub open spec fn mmio_base_spec(part: int) -> int {
    if part == 0xB76 {
        0x2000_0000
    } else if part == 0xC07 || part == 0xD03 {
        0x3F00_0000
    } else if part == 0xD08 {
        0xFE00_0000
    } else {
        0x2000_0000
    }
}

/// Base of the peripheral MMIO region of a Raspberry Pi, by the part number in `MIDR_EL1`
/// (bits 4..=15): the BCM2835 (ARM1176), BCM2836/7 (Cortex-A7/A53) and BCM2711 (Cortex-A72).
pub fn mmio_base(midr_el1: usize) -> (b: usize)
    ensures
        b == mmio_base_spec(((midr_el1 / 16) % 0x1000) as int),
{
    let part = (midr_el1 >> 4) & 0xFFF;
    proof {
        crate::sv39_pte::lemma_usize_bits(midr_el1);
    }
    match part {
        0xB76 => 0x2000_0000,
        0xC07 => 0x3F00_0000,
        0xD03 => 0x3F00_0000,
        0xD08 => 0xFE00_0000,
        _ => 0x2000_0000,
    }
}

/// The core number within its cluster, from `MPIDR_EL1` (Aff0).
pub fn core_num(mpidr_el1: u64) -> (n: u8)
    ensures
        n == mpidr_el1 % 0x100,
{
    proof {
        crate::sv39_pte::lemma_word_bits(mpidr_el1, 0);
    }
    (mpidr_el1 & 0xFF) as u8
}

/// The cluster number, from `MPIDR_EL1` (Aff1).
pub fn cluster_num(mpidr_el1: u64) -> (n: u8)
    ensures
        n == (mpidr_el1 / 0x100) % 0x100,
{
    proof {
        crate::sv39_pte::lemma_word_bits(mpidr_el1, 0);
    }
    ((mpidr_el1 >> 8) & 0xFF) as u8
}

/// The next step of AArch64 early boot.
#[derive(Clone, Copy, PartialEq, Eq, Structural, Debug)]
pub enum BootStep {
    /// Drop from EL3 to EL2.
    El3ToEl2,
    /// Drop from EL2 to EL1.
    El2ToEl1,
    /// Already in EL1: set up the environment.
    SetupEnvironment,
    /// Not the boot core, or an unknown level: wait forever.
    WaitForever,
}

/// The next boot step: every core but core 0 of cluster 0 waits; the boot core proceeds by
/// its exception level (`CurrentEL` bits 2..=3).
pub fn early_boot_step(cluster: u8, core: u8, current_el: u64) -> (s: BootStep)
    ensures
        s == (if cluster != 0 || core != 0 {
            BootStep::WaitForever
        } else if (current_el / 4) % 4 == 3 {
            BootStep::El3ToEl2
        } else if (current_el / 4) % 4 == 2 {
            BootStep::El2ToEl1
        } else if (current_el / 4) % 4 == 1 {
            BootStep::SetupEnvironment
        } else {
            BootStep::WaitForever
        }),
{
    if cluster != 0 {
        return BootStep::WaitForever;
    }
    if core != 0 {
        return BootStep::WaitForever;
    }
    let el = current_el & 0b11_00;
    proof {
        crate::sv39_pte::lemma_word_bits(current_el, 0);
    }
    match el {
        0b11_00 => BootStep::El3ToEl2,
        0b10_00 => BootStep::El2ToEl1,
        0b01_00 => BootStep::SetupEnvironment,
        _ => BootStep::WaitForever,
    }
}

/// Only hart 0 boots; the others wait forever.
pub fn is_boot_hart(hart_id: u64) -> (r: bool)
    ensures
        r == (hart_id == 0),
{
    hart_id == 0
}

/// The higher-half address of a kernel address: moved from the kernel's load address to
/// [`HIGHER_HALF_BASE`].
pub fn to_higher_half(addr: usize, kern_start: usize) -> (r: usize)
    requires
        kern_start <= addr,
        addr - kern_start + HIGHER_HALF_BASE <= usize::MAX,
    ensures
        r == addr - kern_start + HIGHER_HALF_BASE,
{
    addr - kern_start + HIGHER_HALF_BASE
}

/// Number of elements of `T` in `size` bytes, for a size that is a whole number of them.
pub fn subdivide_size<T>(size: usize) -> (n: usize)
    requires
        vstd::layout::size_of::<T>() > 0,
        size % (vstd::layout::size_of::<T>() as usize) == 0,
    ensures
        n == size / (vstd::layout::size_of::<T>() as usize),
{
    let t_size = core::mem::size_of::<T>();
    size / t_size
}

/// Root-table word at index `x` after the first `n` steps of the early gigapage mapping:
/// step `i` maps the gibibyte `begin + i` both at itself and at the higher half, so index `x`
/// holds the leaf of the last step that wrote it.
pub open spec fn boot_root_word(root: Sv39Table, begin: int, n: nat, x: int) -> u64
    decreases n,
{
    if n == 0 {
        word(root, x)
    } else {
        let i = n - 1;
        if x == (HIGHER_HALF_BASE / ONEGIG) as int + i || x == begin + i {
            leaf_word(((begin + i) * ONEGIG) as u64, 7)
        } else {
            boot_root_word(root, begin, (n - 1) as nat, x)
        }
    }
}

/// Maps the gibibytes that the kernel spans, from `kern_start` through `kern_end`, with read,
/// write and execute permission both at their own address and at the higher half.
pub fn map_kernel_gigapages(root: &mut Sv39Table, kern_start: usize, kern_end: usize)
    requires
        kern_start <= kern_end,
        kern_end / ONEGIG < 512,
        kern_end / ONEGIG - kern_start / ONEGIG + HIGHER_HALF_BASE / ONEGIG < 512,
        (kern_end / ONEGIG - kern_start / ONEGIG + HIGHER_HALF_BASE / ONEGIG + 1) * ONEGIG
            <= usize::MAX + 1,
    ensures
        forall|x: int|
            0 <= x < 512 ==> #[trigger] word(*final(root), x) == boot_root_word(
                *old(root),
                (kern_start / ONEGIG) as int,
                (kern_end / ONEGIG - kern_start / ONEGIG + 1) as nat,
                x,
            ),
{
    let begin_index = kern_start / ONEGIG;
    let end_index = kern_end / ONEGIG;
    let count = end_index - begin_index;
    let rwx = XWRPermissions::from_bits(7).unwrap();
    let mut i: usize = 0;
    while i <= count
        invariant
            begin_index == kern_start / ONEGIG,
            count == end_index - begin_index,
            end_index == kern_end / ONEGIG,
            end_index < 512,
            count + HIGHER_HALF_BASE / ONEGIG < 512,
            (count + HIGHER_HALF_BASE / ONEGIG + 1) * ONEGIG <= usize::MAX + 1,
            i <= count + 1,
            rwx.value() == 7,
            rwx.wf(),
            forall|x: int|
                0 <= x < 512 ==> #[trigger] word(*root, x) == boot_root_word(
                    *old(root),
                    begin_index as int,
                    i as nat,
                    x,
                ),
        decreases count + 1 - i,
    {
        proof {
            assert(i * ONEGIG + HIGHER_HALF_BASE < (count + HIGHER_HALF_BASE / ONEGIG + 1) * ONEGIG)
                by (nonlinear_arith)
                requires i <= count;
            assert((i + begin_index) * ONEGIG <= kern_end) by (nonlinear_arith)
                requires i <= count, count == end_index - begin_index, end_index == kern_end / ONEGIG;
        }
        let phys_addr = (i + begin_index) * ONEGIG;
        let hh_addr = (i * ONEGIG) + HIGHER_HALF_BASE;
        let ghost before = *root;
        root.map_gigapage(phys_addr, phys_addr, rwx);
        let ghost middle = *root;
        root.map_gigapage(hh_addr, phys_addr, rwx);
        proof {
            assert(phys_addr / ONEGIG == i + begin_index) by (nonlinear_arith)
                requires phys_addr == (i + begin_index) * ONEGIG;
            assert(phys_addr % ONEGIG == 0) by (nonlinear_arith)
                requires phys_addr == (i + begin_index) * ONEGIG;
            assert(hh_addr / ONEGIG == i + 3) by (nonlinear_arith)
                requires hh_addr == (i * ONEGIG) + HIGHER_HALF_BASE;
            before.lemma_len();
            middle.lemma_len();
            assert forall|x: int| 0 <= x < 512 implies #[trigger] word(*root, x) == boot_root_word(
                *old(root),
                begin_index as int,
                (i + 1) as nat,
                x,
            ) by {
                if x != i + 3 {
                    assert(word(*root, x) == word(middle, x));
                    if x != i + begin_index {
                        assert(word(middle, x) == word(before, x));
                    }
                }
            }
        }
        i = i + 1;
    }
}

} // verus!
