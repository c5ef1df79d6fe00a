//! Verified core of a small RISC-V / AArch64 kernel.
pub mod page_alloc;
pub mod mmu;
pub mod sv39_pte;
pub mod table_memory;
pub mod sv39_table;
pub mod error;
pub mod lock;
pub mod clint;
pub mod trap;
pub mod time;
pub mod boot;
pub mod aarch64_mmu;
pub mod dtb;
pub mod console;
pub mod sv39_clone;
pub mod aarch64_identity;
