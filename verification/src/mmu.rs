//! Architecture-independent paging definitions.
use vstd::prelude::*;

verus! {

/// Virtual base address of the kernel's higher-half mapping.
pub const HIGHER_HALF_BASE: usize = 0xC0000000;

/// Abstract representation of page permissions: bit 0 read, bit 1 write, bit 2 execute.
#[derive(Clone, Copy, PartialEq, Eq, Structural, Debug)]
pub struct Permissions {
    bits: u8,
}

impl Permissions {
    /// The raw bits of these permissions.
    pub closed spec fn value(self) -> u8 {
        self.bits
    }

    /// Permission to read.
    pub fn read() -> (p: Self)
        ensures
            p.value() == 1,
    {
        Permissions { bits: 1 }
    }

    /// Permission to write.
    pub fn write() -> (p: Self)
        ensures
            p.value() == 2,
    {
        Permissions { bits: 2 }
    }

    /// Permission to execute.
    pub fn execute() -> (p: Self)
        ensures
            p.value() == 4,
    {
        Permissions { bits: 4 }
    }

    /// Read and write.
    pub fn rw() -> (p: Self)
        ensures
            p.value() == 3,
    {
        Permissions { bits: 3 }
    }

    /// Write and execute.
    pub fn wx() -> (p: Self)
        ensures
            p.value() == 6,
    {
        Permissions { bits: 6 }
    }

    /// Read, write and execute.
    pub fn rwx() -> (p: Self)
        ensures
            p.value() == 7,
    {
        Permissions { bits: 7 }
    }

    /// No permission at all.
    pub fn empty() -> (p: Self)
        ensures
            p.value() == 0,
    {
        Permissions { bits: 0 }
    }

    /// Permissions from raw bits; `None` where a bit other than the three is set.
    pub fn from_bits(bits: u8) -> (r: Option<Self>)
        ensures
            match r {
                Some(p) => bits <= 7 && p.value() == bits,
                None => bits > 7,
            },
    {
        proof {
            crate::sv39_pte::lemma_byte_bits(bits, 0);
        }
        if bits & !7u8 == 0 {
            Some(Permissions { bits })
        } else {
            None
        }
    }

    /// The raw bits.
    pub fn bits(&self) -> (b: u8)
        ensures
            b == self.value(),
    {
        self.bits
    }

    /// Whether every permission of `other` is also in `self`.
    pub fn contains(&self, other: Permissions) -> (r: bool)
        ensures
            r == (self.value() & other.value() == other.value()),
    {
        self.bits & other.bits == other.bits
    }

    /// Whether no permission is set.
    pub fn is_empty(&self) -> (r: bool)
        ensures
            r == (self.value() == 0),
    {
        self.bits == 0
    }

    /// The permissions of both.
    pub fn union(&self, other: Permissions) -> (r: Permissions)
        ensures
            r.value() == self.value() | other.value(),
    {
        Permissions { bits: self.bits | other.bits }
    }
}

} // verus!
