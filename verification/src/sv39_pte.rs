//! Sv39 page-table entries and address splitting.
//!
//! An entry is a 64-bit word: bit 0 valid, bits 1..=3 the XWR permissions, bit 4 user,
//! bit 5 global, bit 6 accessed, bit 7 dirty, bits 8..=9 reserved for software,
//! bits 10..=18 PPN[0], bits 19..=27 PPN[1], bits 28..=53 PPN[2], bits 54..=63 reserved.
use vstd::prelude::*;
use crate::mmu::Permissions;

verus! {

/// Mask of the 44 physical page number bits, once shifted down.
pub const PPN_MASK: u64 = 0xFFF_FFFF_FFFF;

/// Read/write/execute permissions of an Sv39 entry; all clear marks a pointer to the next level.
#[derive(Clone, Copy, PartialEq, Eq, Structural, Debug)]
pub struct XWRPermissions {
    bits: u8,
}

impl XWRPermissions {
    /// The raw three bits.
    pub closed spec fn value(self) -> u8 {
        self.bits
    }

    /// Every value of this type has only the three low bits.
    pub closed spec fn wf(self) -> bool {
        self.bits <= 7
    }

    /// A well-formed value is at most seven.
    pub proof fn lemma_wf(self)
        requires
            self.wf(),
        ensures
            self.value() <= 7,
    {
    }

    /// No permission bit: the entry points to the next level table.
    pub fn pointer() -> (p: Self)
        ensures
            p.value() == 0,
            p.wf(),
    {
        XWRPermissions { bits: 0 }
    }

    /// Readable.
    pub fn read() -> (p: Self)
        ensures
            p.value() == 1,
            p.wf(),
    {
        XWRPermissions { bits: 1 }
    }

    /// Writable.
    pub fn write() -> (p: Self)
        ensures
            p.value() == 2,
            p.wf(),
    {
        XWRPermissions { bits: 2 }
    }

    /// Executable.
    pub fn execute() -> (p: Self)
        ensures
            p.value() == 4,
            p.wf(),
    {
        XWRPermissions { bits: 4 }
    }

    /// The empty set of permissions (the same bits as `pointer`).
    pub fn empty() -> (p: Self)
        ensures
            p.value() == 0,
            p.wf(),
    {
        XWRPermissions { bits: 0 }
    }

    /// The raw bits.
    pub fn bits(&self) -> (b: u8)
        ensures
            b == self.value(),
    {
        self.bits
    }

    /// Permissions from raw bits; `None` where a bit above the three is set.
    pub fn from_bits(bits: u8) -> (r: Option<Self>)
        ensures
            match r {
                Some(p) => bits <= 7 && p.value() == bits && p.wf(),
                None => bits > 7,
            },
    {
        proof {
            lemma_byte_bits(bits, 0);
        }
        if bits & !7u8 == 0 {
            Some(XWRPermissions { bits })
        } else {
            None
        }
    }

    /// Whether every bit of `other` is set in `self`.
    pub fn contains(&self, other: XWRPermissions) -> (r: bool)
        ensures
            r == (self.value() & other.value() == other.value()),
    {
        self.bits & other.bits == other.bits
    }

    /// Whether no bit is set.
    pub fn is_empty(&self) -> (r: bool)
        ensures
            r == (self.value() == 0),
    {
        self.bits == 0
    }

    /// The bits of both.
    pub fn union(&self, other: XWRPermissions) -> (r: XWRPermissions)
        requires
            self.wf(),
            other.wf(),
        ensures
            r.value() == self.value() | other.value(),
            r.wf(),
    {
        let a = self.bits;
        let b = other.bits;
        proof {
            lemma_byte_bits(a, b);
        }
        XWRPermissions { bits: a | b }
    }

    /// The Sv39 permissions of abstract permissions: read, write and execute each carried
    /// over to the bit of the same name. The abstract permissions must not be empty.
    pub fn from(permissions: Permissions) -> (p: XWRPermissions)
        requires
            permissions.value() & 7 != 0,
        ensures
            p.wf(),
            p.value() == permissions.value() & 7,
    {
        let mut p = XWRPermissions::empty();
        let pb = permissions.bits();
        if permissions.contains(Permissions::read()) {
            p = p.union(XWRPermissions::read());
        }
        assert(p.value() == pb & 1) by {
            lemma_byte_bits(pb, 0);
        }
        if permissions.contains(Permissions::write()) {
            p = p.union(XWRPermissions::write());
        }
        assert(p.value() == pb & 3) by {
            let q = pb & 1;
            lemma_byte_bits(pb, q);
        }
        if permissions.contains(Permissions::execute()) {
            p = p.union(XWRPermissions::execute());
        }
        assert(p.value() == pb & 7) by {
            let q = pb & 3;
            lemma_byte_bits(pb, q);
        }
        p
    }
}

/// Bit facts about permission bytes.
pub proof fn lemma_byte_bits(a: u8, q: u8)
    by (bit_vector)
    ensures
        (a & !7u8 == 0) == (a <= 7),
        a <= 7 && q <= 7 ==> a | q <= 7,
        (a & 1 == 1) ==> 0u8 | 1u8 == a & 1,
        !(a & 1 == 1) ==> 0u8 == a & 1,
        q == a & 1 && (a & 2 == 2) ==> q | 2u8 == a & 3,
        q == a & 1 && !(a & 2 == 2) ==> q == a & 3,
        q == a & 3 && (a & 4 == 4) ==> q | 4u8 == a & 7,
        q == a & 3 && !(a & 4 == 4) ==> q == a & 7,
        (a & 1 == 1) == ((a as u64) & 1 == 1),
        (a & 2 == 2) == ((a as u64) & 2 == 2),
        (a & 4 == 4) == ((a as u64) & 4 == 4),
        (a == 1 || a == 2) ==> ((a & 1u8 != 0) <==> a == 1),
        (a == 1 || a == 2) ==> ((a & 2u8 != 0) <==> a == 2),
        (a == 1 || a == 2) ==> (a & !1u8) | 2u8 == 2,
        (a == 1 || a == 2) ==> (a & !2u8) | 1u8 == 1,
{
}

/// Bit facts about the fields of an entry word `b` and a field value `x`.
pub proof fn lemma_word_bits(b: u64, x: u64)
    by (bit_vector)
    ensures
        (b >> 1) & 7 <= 7,
        ((b & !1u64) | 1u64) & 1 == 1,
        ((b & !1u64) | 1u64) & !1u64 == b & !1u64,
        (b & !1u64) & 1 == 0,
        (b & !1u64) & !1u64 == b & !1u64,
        ((b & !0x20u64) | 0x20u64) >> 5 & 1 == 1,
        ((b & !0x20u64) | 0x20u64) & !0x20u64 == b & !0x20u64,
        (b & !0x20u64) >> 5 & 1 == 0,
        (b & !0x20u64) & !0x20u64 == b & !0x20u64,
        x <= 7 ==> (((b & !0xeu64) | (x << 1)) >> 1) & 7 == x,
        x <= 7 ==> ((b & !0xeu64) | (x << 1)) & !0xeu64 == b & !0xeu64,
        (b >> 10) & 0x1ff <= 0x1ff,
        (b >> 19) & 0x1ff <= 0x1ff,
        (b >> 28) & 0x3ffffff <= 0x3ffffff,
        x < 512 ==> (((b & !0x7fc00u64) | (x << 10)) >> 10) & 0x1ff == x,
        x < 512 ==> ((b & !0x7fc00u64) | (x << 10)) & !0x7fc00u64 == b & !0x7fc00u64,
        x < 512 ==> (((b & !0xff80000u64) | (x << 19)) >> 19) & 0x1ff == x,
        x < 512 ==> ((b & !0xff80000u64) | (x << 19)) & !0xff80000u64 == b & !0xff80000u64,
        x < 0x4000000 ==> (((b & !0x3ffffff0000000u64) | (x << 28)) >> 28) & 0x3ffffff == x,
        x < 0x4000000 ==> ((b & !0x3ffffff0000000u64) | (x << 28)) & !0x3ffffff0000000u64 == b
            & !0x3ffffff0000000u64,
        (b & 1 != 1 && b & !1u64 == x & !1u64) ==> b == x & !1u64,
        b == 0 ==> b & 1 == 0,
        x == 8 ==> (x << 60u64) | (b & 0xFFF_FFFF_FFFFu64) == 8 * 0x1000_0000_0000_0000u64 + b
            % 0x1000_0000_0000u64,
        b & 0xFF == b % 0x100,
        (b >> 8) & 0xFF == (b / 0x100) % 0x100,
        b & 0b1100 == ((b / 4) % 4) * 4,
        (b >> 63 & 1 == 1) == ((b / 0x8000_0000_0000_0000) % 2 == 1),
{
}

/// Bit facts about an address.
pub proof fn lemma_usize_bits(addr: usize)
    by (bit_vector)
    ensures
        (addr >> 12) & 511 <= 511,
        (addr >> 21) & 511 <= 511,
        (addr >> 30) & 511 <= 511,
        (addr >> 30) & 0x3ffffff <= 0x3ffffff,
        (addr >> 12) & 511 == (addr / 0x1000) % 512,
        (addr >> 21) & 511 == (addr / 0x200000) % 512,
        (addr >> 30) & 511 == (addr / 0x40000000) % 512,
        ((addr >> 12) & 511) as u64 == ((addr as u64) >> 12) & 0x1ff,
        ((addr >> 21) & 511) as u64 == ((addr as u64) >> 21) & 0x1ff,
        ((addr >> 30) & 0x3ffffff) as u64 == ((addr as u64) >> 30) & 0x3ffffff,
        addr & !4095usize == addr - addr % 4096,
        addr & !0xfffusize == addr - addr % 4096,
        addr & !0x3fffffffusize == addr - addr % 0x40000000,
        addr < 512 ==> addr << 21usize == addr * 0x200000,
        addr < 512 ==> addr << 12usize == addr * 0x1000,
        addr < 2048 ==> addr << 21usize == addr * 0x200000,
        (addr % 4096 == 0 && addr < 0x100_0000_0000_0000) ==> ((addr as u64)
            & 0x00FF_FFFF_FFFF_F000u64) as usize == addr,
        (addr >> 4) & 0xFFF == (addr / 16) % 0x1000,
        addr & 0xfff == addr % 0x1000,
{
}

/// Whether the valid bit of an entry word is set.
pub open spec fn pte_valid(b: u64) -> bool {
    b & 1 == 1
}

/// The permission bits of an entry word.
pub open spec fn pte_perm(b: u64) -> u64 {
    (b >> 1) & 7
}

/// Whether the global bit of an entry word is set.
pub open spec fn pte_global(b: u64) -> bool {
    (b >> 5) & 1 == 1
}

/// The 44-bit physical page number of an entry word.
pub open spec fn pte_ppn(b: u64) -> u64 {
    (b >> 10) & PPN_MASK
}

/// The physical address that an entry word points to.
pub open spec fn pte_addr(b: u64) -> u64 {
    pte_ppn(b) << 12
}

/// The entry word that holds the page number of `addr` and nothing else.
pub open spec fn pte_word_for_addr(addr: u64) -> u64 {
    ((addr >> 12) & PPN_MASK) << 10
}

/// An Sv39 page-table entry.
#[derive(Clone, Copy, PartialEq, Eq, Structural, Debug)]
pub struct Sv39PTE {
    bits: u64,
}

impl Sv39PTE {
    /// The raw 64-bit word.
    pub closed spec fn value(self) -> u64 {
        self.bits
    }

    /// The entry holding a given word.
    pub closed spec fn spec_from_bits(bits: u64) -> Sv39PTE {
        Sv39PTE { bits }
    }

    /// The entry made from a word holds that word.
    pub proof fn lemma_spec_from_bits(bits: u64)
        ensures
            Self::spec_from_bits(bits).value() == bits,
    {
    }

    /// An entry is determined by its word.
    pub proof fn lemma_from_value(self)
        ensures
            self == Self::spec_from_bits(self.value()),
    {
    }

    /// The all-zero entry.
    pub fn new() -> (e: Self)
        ensures
            e.value() == 0,
            e == Self::spec_from_bits(0),
    {
        Sv39PTE { bits: 0 }
    }

    /// An entry holding the given word.
    pub fn from_bits(bits: u64) -> (e: Self)
        ensures
            e.value() == bits,
    {
        Sv39PTE { bits }
    }

    /// The raw word of this entry.
    pub fn into_bits(self) -> (b: u64)
        ensures
            b == self.value(),
    {
        self.bits
    }

    /// Whether the entry is valid.
    pub fn valid(&self) -> (r: bool)
        ensures
            r == pte_valid(self.value()),
    {
        self.bits & 1 == 1
    }

    /// Whether the entry is global.
    pub fn global(&self) -> (r: bool)
        ensures
            r == pte_global(self.value()),
    {
        (self.bits >> 5) & 1 == 1
    }

    /// The permission bits.
    pub fn permissions(&self) -> (p: XWRPermissions)
        ensures
            p.value() as u64 == pte_perm(self.value()),
            p.wf(),
    {
        let b = self.bits;
        proof {
            lemma_word_bits(b, 0);
        }
        XWRPermissions { bits: ((b >> 1) & 7) as u8 }
    }

    /// Sets the valid bit, leaving every other bit.
    pub fn set_valid(&mut self, v: bool)
        ensures
            pte_valid(final(self).value()) == v,
            final(self).value() & !1u64 == old(self).value() & !1u64,
    {
        let b = self.bits;
        let nb: u64 = if v {
            (b & !1u64) | 1u64
        } else {
            b & !1u64
        };
        proof {
            lemma_word_bits(b, 0);
        }
        self.bits = nb;
    }

    /// A copy with the valid bit set to `v`.
    pub fn with_valid(self, v: bool) -> (e: Self)
        ensures
            pte_valid(e.value()) == v,
            e.value() & !1u64 == self.value() & !1u64,
    {
        let mut e = self;
        e.set_valid(v);
        e
    }

    /// A copy with the global bit set to `v`.
    pub fn with_global(self, v: bool) -> (e: Self)
        ensures
            pte_global(e.value()) == v,
            e.value() & !0x20u64 == self.value() & !0x20u64,
    {
        let b = self.bits;
        proof {
            lemma_word_bits(b, 0);
        }
        if v {
            Sv39PTE { bits: (b & !0x20u64) | 0x20u64 }
        } else {
            Sv39PTE { bits: b & !0x20u64 }
        }
    }

    /// A copy with the permission bits set to `p`.
    pub fn with_permissions(self, p: XWRPermissions) -> (e: Self)
        requires
            p.wf(),
        ensures
            pte_perm(e.value()) == p.value() as u64,
            e.value() & !0xeu64 == self.value() & !0xeu64,
    {
        let b = self.bits;
        let pv = p.bits as u64;
        proof {
            lemma_word_bits(b, pv);
        }
        Sv39PTE { bits: (b & !0xeu64) | (pv << 1) }
    }

    /// PPN[0], bits 10..=18.
    pub fn ppn0(&self) -> (v: u16)
        ensures
            v as u64 == (self.value() >> 10) & 0x1ff,
    {
        let b = self.bits;
        proof {
            lemma_word_bits(b, 0);
        }
        ((b >> 10) & 0x1ff) as u16
    }

    /// PPN[1], bits 19..=27.
    pub fn ppn1(&self) -> (v: u16)
        ensures
            v as u64 == (self.value() >> 19) & 0x1ff,
    {
        let b = self.bits;
        proof {
            lemma_word_bits(b, 0);
        }
        ((b >> 19) & 0x1ff) as u16
    }

    /// PPN[2], bits 28..=53.
    pub fn ppn2(&self) -> (v: u32)
        ensures
            v as u64 == (self.value() >> 28) & 0x3ffffff,
    {
        let b = self.bits;
        proof {
            lemma_word_bits(b, 0);
        }
        ((b >> 28) & 0x3ffffff) as u32
    }

    /// A copy with PPN[0] set to `v`, which must fit in nine bits.
    pub fn with_ppn0(self, v: u16) -> (e: Self)
        requires
            v < 512,
        ensures
            (e.value() >> 10) & 0x1ff == v as u64,
            e.value() & !0x7fc00u64 == self.value() & !0x7fc00u64,
    {
        let b = self.bits;
        let x = v as u64;
        proof {
            lemma_word_bits(b, x);
        }
        Sv39PTE { bits: (b & !0x7fc00u64) | (x << 10) }
    }

    /// A copy with PPN[1] set to `v`, which must fit in nine bits.
    pub fn with_ppn1(self, v: u16) -> (e: Self)
        requires
            v < 512,
        ensures
            (e.value() >> 19) & 0x1ff == v as u64,
            e.value() & !0xff80000u64 == self.value() & !0xff80000u64,
    {
        let b = self.bits;
        let x = v as u64;
        proof {
            lemma_word_bits(b, x);
        }
        Sv39PTE { bits: (b & !0xff80000u64) | (x << 19) }
    }

    /// A copy with PPN[2] set to `v`, which must fit in 26 bits.
    pub fn with_ppn2(self, v: u32) -> (e: Self)
        requires
            v < 0x4000000,
        ensures
            (e.value() >> 28) & 0x3ffffff == v as u64,
            e.value() & !0x3ffffff0000000u64 == self.value() & !0x3ffffff0000000u64,
    {
        let b = self.bits;
        let x = v as u64;
        proof {
            lemma_word_bits(b, x);
        }
        Sv39PTE { bits: (b & !0x3ffffff0000000u64) | (x << 28) }
    }

    /// An entry holding the page number of a physical address, with every flag clear.
    pub fn from_physical_addr(addr: usize) -> (e: Self)
        ensures
            e.value() == pte_word_for_addr(addr as u64),
    {
        let (ppn2, ppn1, ppn0) = split_phys_addr_sv39(addr);
        let e1 = Sv39PTE::new().with_ppn2(ppn2);
        let e2 = e1.with_ppn1(ppn1);
        let e = e2.with_ppn0(ppn0);
        let a = addr as u64;
        let b1 = e1.bits;
        let b2 = e2.bits;
        let b = e.bits;
        assert(b == ((a >> 12) & 0xFFF_FFFF_FFFFu64) << 10) by (bit_vector)
            requires
                (b1 >> 28) & 0x3ffffff == (a >> 30) & 0x3ffffff,
                b1 & !0x3ffffff0000000u64 == 0u64 & !0x3ffffff0000000u64,
                (b2 >> 19) & 0x1ff == (a >> 21) & 0x1ff,
                b2 & !0xff80000u64 == b1 & !0xff80000u64,
                (b >> 10) & 0x1ff == (a >> 12) & 0x1ff,
                b & !0x7fc00u64 == b2 & !0x7fc00u64,
        ;
        e
    }

    /// The physical address that this entry points to.
    pub fn physical_addr(&self) -> (a: usize)
        ensures
            a == pte_addr(self.value()) as usize,
    {
        let r = unsplit_phys_addr_sv39((self.ppn2(), self.ppn1(), self.ppn0()));
        let b = self.bits;
        let p2 = ((b >> 28) & 0x3ffffff) as usize;
        let p1 = ((b >> 19) & 0x1ff) as usize;
        let p0 = ((b >> 10) & 0x1ff) as usize;
        assert((p0 << 12usize) | (p1 << 21usize) | (p2 << 30usize) == ((((b >> 10)
            & 0xFFF_FFFF_FFFFu64) << 12u64) as usize)) by (bit_vector)
            requires
                p2 == ((b >> 28) & 0x3ffffff) as usize,
                p1 == ((b >> 19) & 0x1ff) as usize,
                p0 == ((b >> 10) & 0x1ff) as usize,
        ;
        r
    }
}

/// Splits a Sv39 virtual address into (VPN[2], VPN[1], VPN[0]).
pub fn split_virt_addr_sv39(addr: usize) -> (r: (u16, u16, u16))
    ensures
        r.0 as int == (addr as int / 0x40000000) % 512,
        r.1 as int == (addr as int / 0x200000) % 512,
        r.2 as int == (addr as int / 0x1000) % 512,
{
    // each part is nine bits: (1 << 9) - 1
    let vpn0 = (addr >> 12) & 0x1ff;
    let vpn1 = (addr >> 21) & 0x1ff;
    let vpn2 = (addr >> 30) & 0x1ff;
    proof {
        lemma_usize_bits(addr);
    }
    (vpn2 as u16, vpn1 as u16, vpn0 as u16)
}

/// Splits a physical address into (PPN[2], PPN[1], PPN[0]).
pub fn split_phys_addr_sv39(addr: usize) -> (r: (u32, u16, u16))
    ensures
        r.0 as u64 == ((addr as u64) >> 30) & 0x3ffffff,
        r.1 as u64 == ((addr as u64) >> 21) & 0x1ff,
        r.2 as u64 == ((addr as u64) >> 12) & 0x1ff,
        r.0 < 0x4000000,
        r.1 < 512,
        r.2 < 512,
{
    // nine, nine and 26 bits
    let ppn0 = (addr >> 12) & 0x1ff;
    let ppn1 = (addr >> 21) & 0x1ff;
    let ppn2 = (addr >> 30) & 0x3ffffff;
    proof {
        lemma_usize_bits(addr);
    }
    (ppn2 as u32, ppn1 as u16, ppn0 as u16)
}

/// Merges (PPN[2], PPN[1], PPN[0]) into a physical address.
pub fn unsplit_phys_addr_sv39(parts: (u32, u16, u16)) -> (r: usize)
    ensures
        r == ((parts.2 as usize) << 12usize) | ((parts.1 as usize) << 21usize) | ((
        parts.0 as usize) << 30usize),
        usize::BITS == 64 ==> r as u64 == ((parts.2 as u64) << 12u64) | ((parts.1 as u64) << 21u64)
            | ((parts.0 as u64) << 30u64),
{
    let ppn2 = parts.0 as usize;
    let ppn1 = parts.1 as usize;
    let ppn0 = parts.2 as usize;
    let r = (ppn0 << 12) | (ppn1 << 21) | (ppn2 << 30);
    let (q2, q1, q0) = (parts.0, parts.1, parts.2);
    assert(usize::BITS == 64 ==> r as u64 == ((q0 as u64) << 12u64) | ((q1 as u64) << 21u64) | ((
        q2 as u64) << 30u64)) by (bit_vector)
        requires
            r == ((q0 as usize) << 12usize) | ((q1 as usize) << 21usize) | ((q2 as usize) << 30usize),
    ;
    r
}

/// Splitting a physical address into its page numbers and merging them back gives the
/// address with its page offset and the bits from 56 up cleared, for every address: with the
/// page numbers that [`split_phys_addr_sv39`] gives, [`unsplit_phys_addr_sv39`] computes this
/// value on a 64-bit machine.
pub proof fn law_split_then_unsplit_phys_addr(addr: u64)
    ensures
        (((addr >> 12) & 0x1ff) << 12) | (((addr >> 21) & 0x1ff) << 21) | (((addr >> 30) & 0x3ffffff)
            << 30) == addr & 0x00FF_FFFF_FFFF_F000u64,
{
    assert((((addr >> 12) & 0x1ff) << 12) | (((addr >> 21) & 0x1ff) << 21) | (((addr >> 30)
        & 0x3ffffff) << 30) == addr & 0x00FF_FFFF_FFFF_F000u64) by (bit_vector);
}

/// An entry made from an address gives back the address's page-aligned part, up to the 56
/// bits of an Sv39 physical address.
pub proof fn law_pte_addr_round_trip(addr: u64)
    ensures
        pte_addr(pte_word_for_addr(addr)) == addr & 0x00FF_FFFF_FFFF_F000u64,
{
    assert((((((addr >> 12) & 0xFFF_FFFF_FFFFu64) << 10) >> 10) & 0xFFF_FFFF_FFFFu64) << 12 == addr
        & 0x00FF_FFFF_FFFF_F000u64) by (bit_vector);
}

} // verus!
