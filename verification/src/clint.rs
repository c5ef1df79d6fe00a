//! Core-Local Interrupt Controller (CLINT): where its timer registers lie.
use vstd::prelude::*;

verus! {

/// Offset of the `mtime` register from the CLINT base.
pub const MTIME_OFFSET: usize = 0xbff8;

/// Offset of the `mtimecmp` register from the CLINT base.
pub const MTIMECMP_OFFSET: usize = 0x4000;

/// Core-Local Interrupt Controller.
pub struct CLINT {
    base_address: usize,
}

impl CLINT {
    /// The base address of this controller; zero while uninitialized.
    pub closed spec fn base(&self) -> usize {
        self.base_address
    }

    /// A controller at the given base address.
    pub fn new(base_address: usize) -> (c: Self)
        ensures
            c.base() == base_address,
    {
        CLINT { base_address }
    }

    /// An uninitialized controller.
    pub fn uninit() -> (c: Self)
        ensures
            c.base() == 0,
    {
        CLINT { base_address: 0 }
    }

    /// Whether this controller is initialized.
    pub fn is_init(&self) -> (r: bool)
        ensures
            r == (self.base() != 0),
    {
        self.base_address != 0
    }

    /// The base address of this controller.
    pub fn base_address(&self) -> (b: usize)
        ensures
            b == self.base(),
    {
        self.base_address
    }

    /// Checks that this CLINT is initialized: callers must only reach it when it is.
    fn assert_init(&self)
        requires
            self.base() != 0,
    {
    }

    /// Gets the address of the mtime register.
    pub fn mtime_address(&self) -> (a: usize)
        requires
            self.base() != 0,
            self.base() + MTIME_OFFSET <= usize::MAX,
        ensures
            a == self.base() + MTIME_OFFSET,
    {
        self.assert_init();
        self.base_address + MTIME_OFFSET
    }

    /// Gets the address of the mtimecmp register.
    pub fn mtimecmp_address(&self) -> (a: usize)
        requires
            self.base() != 0,
            self.base() + MTIMECMP_OFFSET <= usize::MAX,
        ensures
            a == self.base() + MTIMECMP_OFFSET,
    {
        self.assert_init();
        self.base_address + MTIMECMP_OFFSET
    }
}

} // verus!
