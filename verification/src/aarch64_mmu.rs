//! ARMv8-A (4KiB granule, 39-bit) translation tables: entries, mapping and lookup.
//!
//! An entry is a 64-bit word: bit 0 valid, bit 1 type (block 0, table 1), bits 2..=4 memory
//! attribute index, bit 5 NS, bits 6..=7 AP, bits 8..=9 SH, bit 10 AF, bit 11 nG, bits 12..=47
//! the output address, bit 52 contiguous, bit 53 PXN, bit 54 UXN.
use vstd::prelude::*;
use crate::page_alloc::{PhysicalPageAllocator, PAGE_SIZE, pages_for};
use crate::sv39_table::{can_alloc_page, after_alloc_page, alloc_addr, next_page, lemma_next_page};
use crate::table_memory::TableMemory;

verus! {

/// Mask of the output address bits 12..=47.
pub const ADDR_MASK: u64 = 0xFFFF_FFFF_F000;

/// Output addresses at or above this are device memory (the BCM2711 peripherals).
pub const DEVICE_MEMORY_START: usize = 0xFE00_0000;

/// Level of a 2MiB block mapping.
pub const LEVEL_MIB_2: usize = 1;

/// Entry type: a block (leaf) or a table (pointer to the next level).
#[derive(Clone, Copy, PartialEq, Eq, Structural, Debug)]
pub enum PTEType {
    Block,
    Table,
}

/// Shareability of the mapped memory.
#[derive(Clone, Copy, PartialEq, Eq, Structural, Debug)]
pub enum Armv8SH {
    NonShareable,
    Unpredictable,
    OuterShareable,
    InnerShareable,
}

/// The two-bit encoding of a shareability.
pub open spec fn sh_bits(sh: Armv8SH) -> u64 {
    match sh {
        Armv8SH::NonShareable => 0,
        Armv8SH::Unpredictable => 1,
        Armv8SH::OuterShareable => 2,
        Armv8SH::InnerShareable => 3,
    }
}

/// Whether an entry word is valid.
pub open spec fn a_valid(w: u64) -> bool {
    w & 1 == 1
}

/// Whether an entry word is a table pointer (type bit set).
pub open spec fn a_is_table(w: u64) -> bool {
    (w >> 1) & 1 == 1
}

/// The address that an entry word holds.
pub open spec fn a_phys(w: u64) -> usize {
    (w & ADDR_MASK) as usize
}

/// The word of a table-pointer entry made from `w` for the table at `next`: the address
/// field set to `next >> 12`, type table, access flag and valid set, other bits kept.
pub open spec fn table_pointer_word(w: u64, next: u64) -> u64 {
    (w & !ADDR_MASK) | (((next >> 12) << 12) & ADDR_MASK) | 0x403
}

/// Memory attribute index of a block for `paddr`: normal memory (1) below the device region,
/// device memory (0) in it.
pub open spec fn block_attr(paddr: usize) -> u64 {
    if paddr < DEVICE_MEMORY_START {
        1
    } else {
        0
    }
}

/// Shareability of a block for `paddr`: inner below the device region, outer in it.
pub open spec fn block_sh(paddr: usize) -> u64 {
    if paddr < DEVICE_MEMORY_START {
        3
    } else {
        2
    }
}

/// The word of a block entry made from `w` for `paddr`: type block, valid, access flag,
/// attribute and shareability by [`block_attr`] and [`block_sh`], the address field set to the
/// low 36 bits of `paddr >> 12`, other bits kept.
pub open spec fn block_word(w: u64, paddr: usize) -> u64 {
    (w & !(ADDR_MASK | 0x31e)) | 0x401 | (block_attr(paddr) << 2) | (block_sh(paddr) << 8) | (((
    paddr as u64) >> 12) << 12 & ADDR_MASK)
}

/// Bit facts about the fields of an entry word `b` and a field value `x`.
proof fn lemma_aword_bits(b: u64, x: u64)
    by (bit_vector)
    ensures
        ((b >> 12) & 0xF_FFFF_FFFFu64) << 12 == b & 0xFFFF_FFFF_F000u64,
        (b >> 12) & 0xF_FFFF_FFFF < 0x10_0000_0000,
        (((b & !2u64) | 2u64) >> 1) & 1 == 1,
        ((b & !2u64) | 2u64) & !2u64 == b & !2u64,
        ((b & !2u64) >> 1) & 1 == 0,
        (b & !2u64) & !2u64 == b & !2u64,
        (((b & !0x400u64) | 0x400u64) >> 10) & 1 == 1,
        ((b & !0x400u64) | 0x400u64) & !0x400u64 == b & !0x400u64,
        ((b & !0x400u64) >> 10) & 1 == 0,
        (b & !0x400u64) & !0x400u64 == b & !0x400u64,
        x < 8 ==> (((b & !0x1cu64) | (x << 2)) >> 2) & 7 == x,
        x < 8 ==> ((b & !0x1cu64) | (x << 2)) & !0x1cu64 == b & !0x1cu64,
        x < 4 ==> (((b & !0x300u64) | (x << 8)) >> 8) & 3 == x,
        x < 4 ==> ((b & !0x300u64) | (x << 8)) & !0x300u64 == b & !0x300u64,
        x < 0x10_0000_0000 ==> (((b & !0xFFFF_FFFF_F000u64) | (x << 12)) >> 12) & 0xF_FFFF_FFFF == x,
        x < 0x10_0000_0000 ==> ((b & !0xFFFF_FFFF_F000u64) | (x << 12)) & !0xFFFF_FFFF_F000u64 == b
            & !0xFFFF_FFFF_F000u64,
{
}

/// An ARMv8 translation-table entry.
#[derive(Clone, Copy, PartialEq, Eq, Structural, Debug)]
pub struct PTE {
    bits: u64,
}

impl PTE {
    /// The raw word.
    pub closed spec fn value(self) -> u64 {
        self.bits
    }

    /// The entry holding a given word.
    pub closed spec fn spec_from_bits(bits: u64) -> PTE {
        PTE { bits }
    }

    /// An entry is determined by its word.
    pub proof fn lemma_from_value(self)
        ensures
            self == Self::spec_from_bits(self.value()),
            Self::spec_from_bits(self.value()).value() == self.value(),
    {
    }

    /// The all-zero (invalid) entry.
    pub fn new() -> (e: Self)
        ensures
            e.value() == 0,
            e == Self::spec_from_bits(0),
    {
        PTE { bits: 0 }
    }

    /// The raw word of this entry.
    pub fn into_bits(self) -> (b: u64)
        ensures
            b == self.value(),
    {
        self.bits
    }

    /// Whether the entry is valid.
    pub fn valid(&self) -> (r: bool)
        ensures
            r == a_valid(self.value()),
    {
        self.bits & 1 == 1
    }

    /// The entry type.
    pub fn ptype(&self) -> (t: PTEType)
        ensures
            (t == PTEType::Table) == a_is_table(self.value()),
    {
        if (self.bits >> 1) & 1 == 1 {
            PTEType::Table
        } else {
            PTEType::Block
        }
    }

    /// The address field (bits 12..=47, shifted down).
    pub fn addr(&self) -> (a: u64)
        ensures
            a == (self.value() >> 12) & 0xF_FFFF_FFFF,
    {
        (self.bits >> 12) & 0xF_FFFF_FFFF
    }

    /// The physical address that this entry holds.
    fn phys_addr(&self) -> (a: usize)
        ensures
            a == a_phys(self.value()),
    {
        let b = self.bits;
        let f = (b >> 12) & 0xF_FFFF_FFFF;
        proof {
            lemma_aword_bits(b, 0);
        }
        (f << 12) as usize
    }

    /// Whether the entry is invalid.
    fn is_invalid(&self) -> (r: bool)
        ensures
            r == !a_valid(self.value()),
    {
        !self.valid()
    }

    /// Sets the valid bit.
    pub fn set_valid(&mut self, v: bool)
        ensures
            a_valid(final(self).value()) == v,
            final(self).value() & !1u64 == old(self).value() & !1u64,
    {
        let b = self.bits;
        proof {
            crate::sv39_pte::lemma_word_bits(b, 0);
        }
        if v {
            self.bits = (b & !1u64) | 1u64;
        } else {
            self.bits = b & !1u64;
        }
    }

    /// Sets the entry type.
    pub fn set_ptype(&mut self, t: PTEType)
        ensures
            a_is_table(final(self).value()) == (t == PTEType::Table),
            final(self).value() & !2u64 == old(self).value() & !2u64,
    {
        let b = self.bits;
        proof {
            lemma_aword_bits(b, 0);
        }
        match t {
            PTEType::Table => {
                self.bits = (b & !2u64) | 2u64;
            },
            PTEType::Block => {
                self.bits = b & !2u64;
            },
        }
    }

    /// Sets the access flag.
    pub fn set_af(&mut self, v: bool)
        ensures
            (final(self).value() >> 10) & 1 == (if v { 1u64 } else { 0u64 }),
            final(self).value() & !0x400u64 == old(self).value() & !0x400u64,
    {
        let b = self.bits;
        proof {
            lemma_aword_bits(b, 0);
        }
        if v {
            self.bits = (b & !0x400u64) | 0x400u64;
        } else {
            self.bits = b & !0x400u64;
        }
    }

    /// Sets the memory attribute index, which must fit in three bits.
    pub fn set_mem_attr(&mut self, v: u8)
        requires
            v < 8,
        ensures
            (final(self).value() >> 2) & 7 == v as u64,
            final(self).value() & !0x1cu64 == old(self).value() & !0x1cu64,
    {
        let b = self.bits;
        let x = v as u64;
        proof {
            lemma_aword_bits(b, x);
        }
        self.bits = (b & !0x1cu64) | (x << 2);
    }

    /// Sets the shareability.
    pub fn set_sh(&mut self, sh: Armv8SH)
        ensures
            (final(self).value() >> 8) & 3 == sh_bits(sh),
            final(self).value() & !0x300u64 == old(self).value() & !0x300u64,
    {
        let b = self.bits;
        let x: u64 = match sh {
            Armv8SH::NonShareable => 0,
            Armv8SH::Unpredictable => 1,
            Armv8SH::OuterShareable => 2,
            Armv8SH::InnerShareable => 3,
        };
        proof {
            lemma_aword_bits(b, x);
        }
        self.bits = (b & !0x300u64) | (x << 8);
    }

    /// Sets the address field, which must fit in 36 bits.
    pub fn set_addr(&mut self, v: u64)
        requires
            v < 0x10_0000_0000,
        ensures
            (final(self).value() >> 12) & 0xF_FFFF_FFFF == v,
            final(self).value() & !ADDR_MASK == old(self).value() & !ADDR_MASK,
    {
        let b = self.bits;
        proof {
            lemma_aword_bits(b, v);
        }
        self.bits = (b & !0xFFFF_FFFF_F000u64) | (v << 12);
    }
}

/// An ARMv8 translation table of 512 entries.
#[derive(Clone, Copy)]
pub struct PageTable {
    entries: [PTE; 512],
}

impl PageTable {
    /// The entries of this table.
    pub closed spec fn view(&self) -> Seq<PTE> {
        self.entries@
    }

    /// A table with every entry zero (invalid).
    pub fn new() -> (t: Self)
        ensures
            t == azero_table(),
    {
        PageTable { entries: [PTE::new(); 512] }
    }
}

/// The word of entry `i` of a table.
pub open spec fn aword(t: PageTable, i: int) -> u64 {
    t@[i].value()
}

/// The table with every entry zero.
pub closed spec fn azero_table() -> PageTable {
    PageTable { entries: vstd::array::spec_array_fill_for_copy_type::<PTE, 512>(PTE::spec_from_bits(0)) }
}

/// `t` with entry `i` replaced by the word `w`.
pub closed spec fn atable_set(t: PageTable, i: int, w: u64) -> PageTable {
    PageTable { entries: vstd::array::spec_array_update(t.entries, i, PTE::spec_from_bits(w)) }
}

/// Every entry of the zero table is zero.
pub proof fn lemma_azero_table()
    ensures
        forall|i: int| 0 <= i < 512 ==> #[trigger] aword(azero_table(), i) == 0,
{
    assert forall|i: int| 0 <= i < 512 implies #[trigger] aword(azero_table(), i) == 0 by {
        vstd::array::axiom_spec_array_fill_for_copy_type::<PTE, 512>(PTE::spec_from_bits(0));
        PTE::spec_from_bits(0).lemma_from_value();
    }
}

/// Replacing one entry changes that entry's word and no other.
pub proof fn lemma_atable_set(t: PageTable, i: int, w: u64)
    requires
        0 <= i < 512,
    ensures
        forall|j: int| 0 <= j < 512 ==> #[trigger] aword(atable_set(t, i, w), j) == if j == i {
            w
        } else {
            aword(t, j)
        },
{
    vstd::array::axiom_spec_array_update(t.entries, i, PTE::spec_from_bits(w));
    PTE::spec_from_bits(w).lemma_from_value();
}

/// The table index of `va` at `level`: bits 30..=38, 21..=29, 12..=20.
pub open spec fn a_index(va: usize, level: int) -> int {
    if level == 0 {
        (va as int / 0x40000000) % 512
    } else if level == 1 {
        (va as int / 0x200000) % 512
    } else {
        (va as int / 0x1000) % 512
    }
}

/// Offset mask within what an entry at `level` maps: 1GiB, 2MiB, 4KiB.
pub open spec fn a_offset_mask(level: int) -> usize {
    if level == 0 {
        0x3fffffff
    } else if level == 1 {
        0x1fffff
    } else {
        0xfff
    }
}

/// The word of entry `i` of the table at `loc` (the root where `loc` is `None`).
pub open spec fn entry_at(root: PageTable, mem: Map<usize, PageTable>, loc: Option<usize>, i: int) -> u64 {
    match loc {
        None => aword(root, i),
        Some(a) => aword(mem[a], i),
    }
}

/// Root and tables with entry `i` of the table at `loc` set to `w`.
pub open spec fn set_entry_at(
    root: PageTable,
    mem: Map<usize, PageTable>,
    loc: Option<usize>,
    i: int,
    w: u64,
) -> (PageTable, Map<usize, PageTable>) {
    match loc {
        None => (atable_set(root, i, w), mem),
        Some(a) => (root, mem.insert(a, atable_set(mem[a], i, w))),
    }
}

/// Whether the table at `loc` can be reached: the root, or a non-null address that holds a
/// table.
pub open spec fn loc_ok(mem: Map<usize, PageTable>, loc: Option<usize>) -> bool {
    match loc {
        None => true,
        Some(a) => a != 0 && mem.contains_key(a),
    }
}

/// The state after the descent of [`map_page`] through levels `i .. level`: each invalid entry
/// on the way gets a newly allocated, zeroed table; returns root, tables, page map and the
/// table that holds the entry of the last level.
pub open spec fn descend(
    root: PageTable,
    mem: Map<usize, PageTable>,
    base: usize,
    free: Seq<bool>,
    loc: Option<usize>,
    va: usize,
    i: int,
    level: int,
) -> (PageTable, Map<usize, PageTable>, Seq<bool>, Option<usize>)
    decreases level - i,
{
    if i >= level {
        (root, mem, free, loc)
    } else {
        let w = entry_at(root, mem, loc, a_index(va, i));
        if !a_valid(w) {
            let n = alloc_addr(base, free);
            let mem_z = mem.insert(n, azero_table());
            let w1 = table_pointer_word(entry_at(root, mem_z, loc, a_index(va, i)), n as u64);
            let s = set_entry_at(root, mem_z, loc, a_index(va, i), w1);
            descend(s.0, s.1, base, after_alloc_page(free), Some(a_phys(w1)), va, i + 1, level)
        } else {
            descend(root, mem, base, free, Some(a_phys(w)), va, i + 1, level)
        }
    }
}

/// The descent of [`map_page`] through levels `i .. level` completes: each allocation
/// succeeds at an address whose page number fits the entry, and every table it passes
/// through is reachable.
pub open spec fn descend_ready(
    root: PageTable,
    mem: Map<usize, PageTable>,
    base: usize,
    free: Seq<bool>,
    loc: Option<usize>,
    va: usize,
    i: int,
    level: int,
) -> bool
    decreases level - i,
{
    loc_ok(mem, loc) && (i >= level || {
        let w = entry_at(root, mem, loc, a_index(va, i));
        if !a_valid(w) {
            let n = alloc_addr(base, free);
            let mem_z = mem.insert(n, azero_table());
            let w1 = table_pointer_word(entry_at(root, mem_z, loc, a_index(va, i)), n as u64);
            let s = set_entry_at(root, mem_z, loc, a_index(va, i), w1);
            &&& can_alloc_page(free)
            &&& (n as u64) >> 12 < 0x10_0000_0000
            &&& descend_ready(s.0, s.1, base, after_alloc_page(free), Some(a_phys(w1)), va, i + 1, level)
        } else {
            descend_ready(root, mem, base, free, Some(a_phys(w)), va, i + 1, level)
        }
    })
}

/// Root, tables and page map after [`map_page`]: the descent, then the entry of the last
/// level becomes a block for `paddr`.
pub open spec fn amap_page_post(
    root: PageTable,
    mem: Map<usize, PageTable>,
    base: usize,
    free: Seq<bool>,
    va: usize,
    paddr: usize,
    level: int,
) -> (PageTable, Map<usize, PageTable>, Seq<bool>) {
    let d = descend(root, mem, base, free, None, va, 0, level);
    let w = entry_at(d.0, d.1, d.3, a_index(va, level));
    let s = set_entry_at(d.0, d.1, d.3, a_index(va, level), block_word(w, paddr));
    (s.0, s.1, d.2)
}

/// Allocates a page for a new table and zeroes it.
fn zallocate_table<const PAGES: usize>(
    mem: &mut TableMemory<PageTable>,
    alloc: &mut PhysicalPageAllocator<PAGES>,
) -> (a: usize)
    requires
        old(alloc).wf(),
        old(alloc).base() != 0,
        can_alloc_page(old(alloc).free()),
    ensures
        final(alloc).wf(),
        final(alloc).base() == old(alloc).base(),
        final(alloc).free() == after_alloc_page(old(alloc).free()),
        a == alloc_addr(old(alloc).base(), old(alloc).free()),
        final(mem)@ == old(mem)@.insert(a, azero_table()),
{
    proof {
        lemma_next_page(alloc.free());
        assert(pages_for(PAGE_SIZE as int) == 1);
    }
    let r = alloc.try_allocate(PAGE_SIZE);
    let p = r.unwrap();
    proof {
        lemma_azero_table();
    }
    let t = PageTable::new();
    mem.write(p, t);
    p
}

/// Reads entry `i` of the table at `loc`.
fn read_entry(root: &PageTable, mem: &TableMemory<PageTable>, loc: Option<usize>, i: usize) -> (e: PTE)
    requires
        loc_ok(mem@, loc),
        i < 512,
    ensures
        e.value() == entry_at(*root, mem@, loc, i as int),
{
    match loc {
        None => root.entries[i],
        Some(a) => mem.read(a).unwrap().entries[i],
    }
}

/// Writes entry `i` of the table at `loc`.
fn write_entry(root: &mut PageTable, mem: &mut TableMemory<PageTable>, loc: Option<usize>, i: usize, e: PTE)
    requires
        loc_ok(old(mem)@, loc),
        i < 512,
    ensures
        (*final(root), final(mem)@) == set_entry_at(*old(root), old(mem)@, loc, i as int, e.value()),
{
    proof {
        e.lemma_from_value();
    }
    match loc {
        None => {
            let ghost t0 = *root;
            root.entries[i] = e;
            proof {
                vstd::array::axiom_spec_array_update(t0.entries, i as int, PTE::spec_from_bits(e.value()));
                assert(root.entries =~= atable_set(t0, i as int, e.value()).entries);
            }
        },
        Some(a) => {
            let mut t = mem.read(a).unwrap();
            let ghost t0 = t;
            t.entries[i] = e;
            proof {
                vstd::array::axiom_spec_array_update(t0.entries, i as int, PTE::spec_from_bits(e.value()));
                assert(t.entries =~= atable_set(t0, i as int, e.value()).entries);
            }
            mem.write(a, t);
        },
    }
}

/// The three table indexes of a virtual address.
fn indexes_of(vaddr: usize) -> (r: [usize; 3])
    ensures
        r@[0] == a_index(vaddr, 0),
        r@[1] == a_index(vaddr, 1),
        r@[2] == a_index(vaddr, 2),
        r@[0] < 512 && r@[1] < 512 && r@[2] < 512,
{
    proof {
        crate::sv39_pte::lemma_usize_bits(vaddr);
    }
    [(vaddr >> 30) & 0x1FF, (vaddr >> 21) & 0x1FF, (vaddr >> 12) & 0x1FF]
}

/// Maps `vaddr` to `paddr` with a block at `level` (0: 1GiB, 1: 2MiB, 2: 4KiB): each invalid
/// entry on the way down gets a newly allocated, zeroed table; the entry at `level` becomes a
/// valid block with the access flag, normal inner-shareable memory below the device region
/// and device outer-shareable memory in it.
pub fn map_page<const PAGES: usize>(
    root: &mut PageTable,
    mem: &mut TableMemory<PageTable>,
    alloc: &mut PhysicalPageAllocator<PAGES>,
    vaddr: usize,
    paddr: usize,
    level: usize,
)
    requires
        level <= 2,
        old(alloc).wf(),
        old(alloc).base() != 0,
        descend_ready(*old(root), old(mem)@, old(alloc).base(), old(alloc).free(), None, vaddr, 0, level as int),
    ensures
        final(alloc).wf(),
        final(alloc).base() == old(alloc).base(),
        (*final(root), final(mem)@, final(alloc).free()) == amap_page_post(
            *old(root),
            old(mem)@,
            old(alloc).base(),
            old(alloc).free(),
            vaddr,
            paddr,
            level as int,
        ),
        apath_simple(*old(root), old(mem)@, old(alloc).base(), old(alloc).free(), None, vaddr, 0, level as int)
            ==> (awalk_leaf(*final(root), final(mem)@, None, vaddr, 0) matches Some(w) && {
            &&& w & 1 == 1
            &&& (w >> 1) & 1 == 0
            &&& (w >> 2) & 7 == if paddr < 0xFE00_0000 { 1u64 } else { 0u64 }
            &&& (w >> 8) & 3 == if paddr < 0xFE00_0000 { 3u64 } else { 2u64 }
            &&& w & 0xFFFF_FFFF_F000 == (paddr as u64) & 0xFFFF_FFFF_F000
        }),
{
    let indexes = indexes_of(vaddr);
    let ghost base = alloc.base();
    let ghost root0 = *root;
    let ghost mem0 = mem@;
    let ghost free0 = alloc.free();
    let ghost target = descend(*root, mem@, base, alloc.free(), None, vaddr, 0, level as int);
    let mut loc: Option<usize> = None;
    let mut i: usize = 0;
    while i < level
        invariant
            level <= 2,
            i <= level,
            alloc.wf(),
            alloc.base() == base,
            base != 0,
            indexes@[0] == a_index(vaddr, 0),
            indexes@[1] == a_index(vaddr, 1),
            indexes@[2] == a_index(vaddr, 2),
            indexes@[0] < 512 && indexes@[1] < 512 && indexes@[2] < 512,
            descend_ready(*root, mem@, base, alloc.free(), loc, vaddr, i as int, level as int),
            descend(*root, mem@, base, alloc.free(), loc, vaddr, i as int, level as int) == target,
        decreases level - i,
    {
        let idx = indexes[i];
        let pte = read_entry(root, mem, loc, idx);
        if pte.is_invalid() {
            proof {
                lemma_next_page(alloc.free());
            }
            let next_level_table = zallocate_table(mem, alloc);
            let mut cur = read_entry(root, mem, loc, idx);
            let c0 = cur.into_bits();
            cur.set_addr((next_level_table as u64) >> 12);
            let c1 = cur.into_bits();
            cur.set_ptype(PTEType::Table);
            let c2 = cur.into_bits();
            cur.set_af(true);
            let c3 = cur.into_bits();
            cur.set_valid(true);
            let c4 = cur.into_bits();
            let n = next_level_table as u64;
            assert(c4 == (c0 & !0xFFFF_FFFF_F000u64) | (((n >> 12) << 12) & 0xFFFF_FFFF_F000u64) | 0x403u64)
                by (bit_vector)
                requires
                    (n >> 12) < 0x10_0000_0000,
                    (c1 >> 12) & 0xF_FFFF_FFFF == n >> 12,
                    c1 & !0xFFFF_FFFF_F000u64 == c0 & !0xFFFF_FFFF_F000u64,
                    (c2 >> 1) & 1 == 1,
                    c2 & !2u64 == c1 & !2u64,
                    (c3 >> 10) & 1 == 1,
                    c3 & !0x400u64 == c2 & !0x400u64,
                    c4 & 1 == 1,
                    c4 & !1u64 == c3 & !1u64,
            ;
            write_entry(root, mem, loc, idx, cur);
            loc = Some(cur.phys_addr());
        } else {
            loc = Some(pte.phys_addr());
        }
        i = i + 1;
    }
    let idx = indexes[level];
    let mut pte = read_entry(root, mem, loc, idx);
    let c0 = pte.into_bits();
    pte.set_ptype(PTEType::Block);
    let c1 = pte.into_bits();
    pte.set_valid(true);
    let c2 = pte.into_bits();
    pte.set_af(true);
    let c3 = pte.into_bits();
    let attr: u64 = if paddr < 0xFE00_0000 {
        pte.set_mem_attr(1);
        1
    } else {
        pte.set_mem_attr(0);
        0
    };
    let c4 = pte.into_bits();
    let shv: u64 = if paddr < 0xFE00_0000 {
        pte.set_sh(Armv8SH::InnerShareable);
        3
    } else {
        pte.set_sh(Armv8SH::OuterShareable);
        2
    };
    let c5 = pte.into_bits();
    let p = paddr as u64;
    proof {
        lemma_aword_bits(p, 0);
    }
    pte.set_addr((paddr as u64 >> 12) & 0xF_FFFF_FFFF);
    let c6 = pte.into_bits();
    assert(c6 == (c0 & !(0xFFFF_FFFF_F000u64 | 0x31eu64)) | 0x401u64 | (attr << 2) | (shv << 8) | ((p
        >> 12) << 12 & 0xFFFF_FFFF_F000u64)) by (bit_vector)
        requires
            attr < 8,
            shv < 4,
            !((c1 >> 1) & 1 == 1),
            c1 & !2u64 == c0 & !2u64,
            c2 & 1 == 1,
            c2 & !1u64 == c1 & !1u64,
            (c3 >> 10) & 1 == 1,
            c3 & !0x400u64 == c2 & !0x400u64,
            (c4 >> 2) & 7 == attr,
            c4 & !0x1cu64 == c3 & !0x1cu64,
            (c5 >> 8) & 3 == shv,
            c5 & !0x300u64 == c4 & !0x300u64,
            (c6 >> 12) & 0xF_FFFF_FFFF == (p >> 12) & 0xF_FFFF_FFFF,
            c6 & !0xFFFF_FFFF_F000u64 == c5 & !0xFFFF_FFFF_F000u64,
    ;
    write_entry(root, mem, loc, idx, pte);
    proof {
        if apath_simple(root0, mem0, base, free0, None, vaddr, 0, level as int) {
            law_map_page_then_lookup(root0, mem0, base, free0, vaddr, paddr, level as int);
        }
    }
}

/// The address that the walk of `va` reaches from level `i` at the table at `loc`, as
/// [`virt_to_phys`] computes it: a block at level `i` maps its region; `None` at an invalid
/// entry, an unreachable table, or a table entry at the last level.
pub open spec fn atranslate_from(
    root: PageTable,
    mem: Map<usize, PageTable>,
    loc: Option<usize>,
    va: usize,
    i: int,
) -> Option<int>
    decreases 3 - i,
{
    if i > 2 || !loc_ok(mem, loc) {
        None
    } else {
        let v = entry_at(root, mem, loc, a_index(va, i));
        if !a_valid(v) {
            None
        } else if !a_is_table(v) {
            Some(a_phys(v) + (va & a_offset_mask(i)))
        } else {
            atranslate_from(root, mem, Some(a_phys(v)), va, i + 1)
        }
    }
}

/// The word of the block entry at which the walk of `va` from level `i` at the table at `loc`
/// ends; `None` at an invalid entry, an unreachable table, or a table entry at the last level.
pub open spec fn awalk_leaf(
    root: PageTable,
    mem: Map<usize, PageTable>,
    loc: Option<usize>,
    va: usize,
    i: int,
) -> Option<u64>
    decreases 3 - i,
{
    if i > 2 || !loc_ok(mem, loc) {
        None
    } else {
        let v = entry_at(root, mem, loc, a_index(va, i));
        if !a_valid(v) {
            None
        } else if !a_is_table(v) {
            Some(v)
        } else {
            awalk_leaf(root, mem, Some(a_phys(v)), va, i + 1)
        }
    }
}

/// Whether the walk of `va` stops (at an invalid entry or a block) without reaching a table
/// entry at the last level or an unreachable table.
pub open spec fn awalk_completes(root: PageTable, mem: Map<usize, PageTable>, loc: Option<usize>, va: usize, i: int) -> bool
    decreases 3 - i,
{
    i <= 2 && loc_ok(mem, loc) && {
        let v = entry_at(root, mem, loc, a_index(va, i));
        !a_valid(v) || !a_is_table(v) || awalk_completes(root, mem, Some(a_phys(v)), va, i + 1)
    }
}

/// Looks up a virtual address: the output address of the block that maps it, if any.
pub fn virt_to_phys(root: &PageTable, mem: &TableMemory<PageTable>, vaddr: usize) -> (r: Option<usize>)
    requires
        awalk_completes(*root, mem@, None, vaddr, 0),
        atranslate_from(*root, mem@, None, vaddr, 0) is Some ==> atranslate_from(*root, mem@, None, vaddr, 0).unwrap() <= usize::MAX,
    ensures
        match r {
            Some(p) => atranslate_from(*root, mem@, None, vaddr, 0) == Some(p as int),
            None => atranslate_from(*root, mem@, None, vaddr, 0) is None,
        },
{
    let indexes = indexes_of(vaddr);
    let mut loc: Option<usize> = None;
    let mut i: usize = 0;
    loop
        invariant
            i <= 2,
            indexes@[0] == a_index(vaddr, 0),
            indexes@[1] == a_index(vaddr, 1),
            indexes@[2] == a_index(vaddr, 2),
            indexes@[0] < 512 && indexes@[1] < 512 && indexes@[2] < 512,
            awalk_completes(*root, mem@, loc, vaddr, i as int),
            atranslate_from(*root, mem@, loc, vaddr, i as int) == atranslate_from(*root, mem@, None, vaddr, 0),
            atranslate_from(*root, mem@, None, vaddr, 0) is Some ==> atranslate_from(*root, mem@, None, vaddr, 0).unwrap() <= usize::MAX,
        decreases 3 - i,
    {
        let v = read_entry(root, mem, loc, indexes[i]);
        if v.is_invalid() {
            return None;
        } else if v.ptype() == PTEType::Block {
            let mask: usize = if i == 0 {
                0x3fffffff
            } else if i == 1 {
                0x1fffff
            } else {
                0xfff
            };
            return Some(v.phys_addr() + (vaddr & mask));
        }
        assert(a_is_table(v.value()));
        assert(awalk_completes(*root, mem@, Some(a_phys(v.value())), vaddr, i + 1));
        loc = Some(v.phys_addr());
        i = i + 1;
    }
}

/// Maps the first 4GiB of memory to itself in 2MiB blocks.
pub fn identity_map_low_memory<const PAGES: usize>(
    table_0: &mut PageTable,
    mem: &mut TableMemory<PageTable>,
    alloc: &mut PhysicalPageAllocator<PAGES>,
)
    requires
        old(alloc).wf(),
        old(alloc).base() != 0,
        2048 * 0x200000 <= usize::MAX + 1,
        identity_ready(*old(table_0), old(mem)@, old(alloc).base(), old(alloc).free(), 0, 2048),
    ensures
        final(alloc).wf(),
        final(alloc).base() == old(alloc).base(),
        (*final(table_0), final(mem)@, final(alloc).free()) == identity_post(
            *old(table_0),
            old(mem)@,
            old(alloc).base(),
            old(alloc).free(),
            0,
            2048,
        ),
{
    let ghost base = alloc.base();
    let ghost target = identity_post(*table_0, mem@, base, alloc.free(), 0, 2048);
    let mut i: usize = 0;
    while i < 2048
        invariant
            i <= 2048,
            2048 * 0x200000 <= usize::MAX + 1,
            alloc.wf(),
            alloc.base() == base,
            base != 0,
            identity_ready(*table_0, mem@, base, alloc.free(), i as int, (2048 - i) as nat),
            identity_post(*table_0, mem@, base, alloc.free(), i as int, (2048 - i) as nat) == target,
        decreases 2048 - i,
    {
        assert(i * 0x200000 < 2048 * 0x200000) by (nonlinear_arith)
            requires i < 2048;
        proof {
            crate::sv39_pte::lemma_usize_bits(i);
        }
        map_page(table_0, mem, alloc, i << 21, i << 21, LEVEL_MIB_2);
        i = i + 1;
    }
}

/// Root, tables and page map after mapping `n` 2MiB blocks to themselves, from block `first`.
pub open spec fn identity_post(
    root: PageTable,
    mem: Map<usize, PageTable>,
    base: usize,
    free: Seq<bool>,
    first: int,
    n: nat,
) -> (PageTable, Map<usize, PageTable>, Seq<bool>)
    decreases n,
{
    if n == 0 {
        (root, mem, free)
    } else {
        let a = (first * 0x200000) as usize;
        let s = amap_page_post(root, mem, base, free, a, a, 1);
        identity_post(s.0, s.1, base, s.2, first + 1, (n - 1) as nat)
    }
}

/// Mapping `n` 2MiB blocks to themselves completes.
pub open spec fn identity_ready(
    root: PageTable,
    mem: Map<usize, PageTable>,
    base: usize,
    free: Seq<bool>,
    first: int,
    n: nat,
) -> bool
    decreases n,
{
    n == 0 || {
        let a = (first * 0x200000) as usize;
        let s = amap_page_post(root, mem, base, free, a, a, 1);
        &&& descend_ready(root, mem, base, free, None, a, 0, 1)
        &&& identity_ready(s.0, s.1, base, s.2, first + 1, (n - 1) as nat)
    }
}

/// Root and tables after the descent of [`map_page`] from level `i` at the table at `loc`,
/// then the block for `paddr` written into the entry of the last level.
pub open spec fn amap_from(
    root: PageTable,
    mem: Map<usize, PageTable>,
    base: usize,
    free: Seq<bool>,
    loc: Option<usize>,
    va: usize,
    paddr: usize,
    i: int,
    level: int,
) -> (PageTable, Map<usize, PageTable>) {
    let d = descend(root, mem, base, free, loc, va, i, level);
    let w = entry_at(d.0, d.1, d.3, a_index(va, level));
    set_entry_at(d.0, d.1, d.3, a_index(va, level), block_word(w, paddr))
}

/// The tables that the descent of [`map_page`] from level `i` writes into: each table it
/// passes through, each table it allocates, and the table of the last level.
pub open spec fn apath(
    root: PageTable,
    mem: Map<usize, PageTable>,
    base: usize,
    free: Seq<bool>,
    loc: Option<usize>,
    va: usize,
    i: int,
    level: int,
) -> Set<Option<usize>>
    decreases level - i,
{
    if i >= level {
        set![loc]
    } else {
        let w = entry_at(root, mem, loc, a_index(va, i));
        if !a_valid(w) {
            let n = alloc_addr(base, free);
            let mem_z = mem.insert(n, azero_table());
            let w1 = table_pointer_word(entry_at(root, mem_z, loc, a_index(va, i)), n as u64);
            let s = set_entry_at(root, mem_z, loc, a_index(va, i), w1);
            apath(s.0, s.1, base, after_alloc_page(free), Some(a_phys(w1)), va, i + 1, level).insert(
                loc,
            ).insert(Some(n))
        } else {
            apath(root, mem, base, free, Some(a_phys(w)), va, i + 1, level).insert(loc)
        }
    }
}

/// The descent of [`map_page`] from level `i` passes valid entries only where they point to
/// tables, and never comes back to a table it has left: no table on the way is written
/// again, or allocated over, further down.
pub open spec fn apath_simple(
    root: PageTable,
    mem: Map<usize, PageTable>,
    base: usize,
    free: Seq<bool>,
    loc: Option<usize>,
    va: usize,
    i: int,
    level: int,
) -> bool
    decreases level - i,
{
    i >= level || {
        let w = entry_at(root, mem, loc, a_index(va, i));
        if !a_valid(w) {
            let n = alloc_addr(base, free);
            let mem_z = mem.insert(n, azero_table());
            let w1 = table_pointer_word(entry_at(root, mem_z, loc, a_index(va, i)), n as u64);
            let s = set_entry_at(root, mem_z, loc, a_index(va, i), w1);
            let nxt = Some(a_phys(w1));
            &&& loc != Some(n)
            &&& !apath(s.0, s.1, base, after_alloc_page(free), nxt, va, i + 1, level).contains(loc)
            &&& apath_simple(s.0, s.1, base, after_alloc_page(free), nxt, va, i + 1, level)
        } else {
            &&& a_is_table(w)
            &&& !apath(root, mem, base, free, Some(a_phys(w)), va, i + 1, level).contains(loc)
            &&& apath_simple(root, mem, base, free, Some(a_phys(w)), va, i + 1, level)
        }
    }
}

/// Bit facts about block and table-pointer words.
proof fn lemma_entry_words(w: u64, p: u64, n: u64, attr: u64, sh: u64)
    by (bit_vector)
    requires
        attr < 2,
        sh < 4,
    ensures
        ((w & !(0xFFFF_FFFF_F000u64 | 0x31eu64)) | 0x401u64 | (attr << 2) | (sh << 8) | ((p >> 12) << 12
            & 0xFFFF_FFFF_F000u64)) & 1 == 1,
        (((w & !(0xFFFF_FFFF_F000u64 | 0x31eu64)) | 0x401u64 | (attr << 2) | (sh << 8) | ((p >> 12) << 12
            & 0xFFFF_FFFF_F000u64)) >> 1) & 1 == 0,
        ((w & !(0xFFFF_FFFF_F000u64 | 0x31eu64)) | 0x401u64 | (attr << 2) | (sh << 8) | ((p >> 12) << 12
            & 0xFFFF_FFFF_F000u64)) & 0xFFFF_FFFF_F000u64 == p & 0xFFFF_FFFF_F000u64,
        ((w & !0xFFFF_FFFF_F000u64) | (((n >> 12) << 12) & 0xFFFF_FFFF_F000u64) | 0x403u64) & 1 == 1,
        ((((w & !0xFFFF_FFFF_F000u64) | (((n >> 12) << 12) & 0xFFFF_FFFF_F000u64) | 0x403u64) >> 1) & 1)
            == 1,
        (((w & !(0xFFFF_FFFF_F000u64 | 0x31eu64)) | 0x401u64 | (attr << 2) | (sh << 8) | ((p >> 12) << 12
            & 0xFFFF_FFFF_F000u64)) >> 2) & 7 == attr,
        (((w & !(0xFFFF_FFFF_F000u64 | 0x31eu64)) | 0x401u64 | (attr << 2) | (sh << 8) | ((p >> 12) << 12
            & 0xFFFF_FFFF_F000u64)) >> 8) & 3 == sh,
        (((w & !(0xFFFF_FFFF_F000u64 | 0x31eu64)) | 0x401u64 | (attr << 2) | (sh << 8) | ((p >> 12) << 12
            & 0xFFFF_FFFF_F000u64)) >> 10) & 1 == 1,
{
}

/// A block word is a valid block whose address is `paddr`'s bits 12..=47.
pub proof fn lemma_block_word(w: u64, paddr: usize)
    ensures
        a_valid(block_word(w, paddr)),
        !a_is_table(block_word(w, paddr)),
        a_phys(block_word(w, paddr)) == ((paddr as u64) & ADDR_MASK) as usize,
        (block_word(w, paddr) >> 2) & 7 == block_attr(paddr),
        (block_word(w, paddr) >> 8) & 3 == block_sh(paddr),
        (block_word(w, paddr) >> 10) & 1 == 1,
        block_word(w, paddr) & ADDR_MASK == (paddr as u64) & ADDR_MASK,
        (block_word(w, paddr) >> 1) & 1 == 0,
{
    lemma_entry_words(w, paddr as u64, 0, block_attr(paddr), block_sh(paddr));
}

/// A table-pointer word is a valid table entry.
pub proof fn lemma_table_pointer_word(w: u64, n: u64)
    ensures
        a_valid(table_pointer_word(w, n)),
        a_is_table(table_pointer_word(w, n)),
{
    lemma_entry_words(w, 0, n, 0, 0);
}

/// Writing entry `i` of the table at `loc` changes that entry only, and keeps every table.
proof fn lemma_set_entry_at(
    root: PageTable,
    mem: Map<usize, PageTable>,
    loc: Option<usize>,
    i: int,
    w: u64,
    l: Option<usize>,
    k: int,
)
    requires
        0 <= i < 512,
        0 <= k < 512,
    ensures
        ({
            let s = set_entry_at(root, mem, loc, i, w);
            &&& entry_at(s.0, s.1, l, k) == if l == loc && k == i {
                w
            } else {
                entry_at(root, mem, l, k)
            }
            &&& forall|a: usize| mem.contains_key(a) ==> #[trigger] s.1.contains_key(a)
        }),
{
    match loc {
        None => lemma_atable_set(root, i, w),
        Some(a) => lemma_atable_set(mem[a], i, w),
    }
}

/// The descent from level `i` and the block write leave every table off its path as it was.
proof fn lemma_amap_frame(
    root: PageTable,
    mem: Map<usize, PageTable>,
    base: usize,
    free: Seq<bool>,
    loc: Option<usize>,
    va: usize,
    paddr: usize,
    i: int,
    level: int,
    l: Option<usize>,
    k: int,
)
    requires
        0 <= i <= level <= 2,
        0 <= k < 512,
        !apath(root, mem, base, free, loc, va, i, level).contains(l),
    ensures
        ({
            let f = amap_from(root, mem, base, free, loc, va, paddr, i, level);
            &&& entry_at(f.0, f.1, l, k) == entry_at(root, mem, l, k)
            &&& forall|a: usize| mem.contains_key(a) ==> #[trigger] f.1.contains_key(a)
        }),
    decreases level - i,
{
    lemma_index_range(va, i);
    lemma_index_range(va, level);
    if i >= level {
        let w = entry_at(root, mem, loc, a_index(va, level));
        lemma_set_entry_at(root, mem, loc, a_index(va, level), block_word(w, paddr), l, k);
    } else {
        let w = entry_at(root, mem, loc, a_index(va, i));
        if !a_valid(w) {
            let n = alloc_addr(base, free);
            let mem_z = mem.insert(n, azero_table());
            let w1 = table_pointer_word(entry_at(root, mem_z, loc, a_index(va, i)), n as u64);
            let s = set_entry_at(root, mem_z, loc, a_index(va, i), w1);
            let nxt = Some(a_phys(w1));
            lemma_amap_frame(s.0, s.1, base, after_alloc_page(free), nxt, va, paddr, i + 1, level, l, k);
            lemma_set_entry_at(root, mem_z, loc, a_index(va, i), w1, l, k);
            assert(entry_at(root, mem_z, l, k) == entry_at(root, mem, l, k));
        } else {
            lemma_amap_frame(root, mem, base, free, Some(a_phys(w)), va, paddr, i + 1, level, l, k);
        }
    }
}

/// Table indexes lie in `0 .. 512`.
proof fn lemma_index_range(va: usize, i: int)
    ensures
        0 <= a_index(va, i) < 512,
{
}

/// The walk of `va` from level `i` over the tables after [`map_page`] reaches the new block.
proof fn lemma_amap_translate(
    root: PageTable,
    mem: Map<usize, PageTable>,
    base: usize,
    free: Seq<bool>,
    loc: Option<usize>,
    va: usize,
    paddr: usize,
    i: int,
    level: int,
)
    requires
        0 <= i <= level <= 2,
        descend_ready(root, mem, base, free, loc, va, i, level),
        apath_simple(root, mem, base, free, loc, va, i, level),
    ensures
        ({
            let f = amap_from(root, mem, base, free, loc, va, paddr, i, level);
            &&& atranslate_from(f.0, f.1, loc, va, i) == Some((((paddr as u64) & ADDR_MASK) as usize) as int
                + (va & a_offset_mask(level)))
            &&& awalk_completes(f.0, f.1, loc, va, i)
            &&& awalk_leaf(f.0, f.1, loc, va, i) == Some(block_word(entry_at(
                descend(root, mem, base, free, loc, va, i, level).0,
                descend(root, mem, base, free, loc, va, i, level).1,
                descend(root, mem, base, free, loc, va, i, level).3,
                a_index(va, level),
            ), paddr))
        }),
    decreases level - i,
{
    lemma_index_range(va, i);
    lemma_index_range(va, level);
    let f = amap_from(root, mem, base, free, loc, va, paddr, i, level);
    if i >= level {
        let w = entry_at(root, mem, loc, a_index(va, level));
        let bw = block_word(w, paddr);
        lemma_set_entry_at(root, mem, loc, a_index(va, level), bw, loc, a_index(va, level));
        lemma_block_word(w, paddr);
        assert(loc_ok(mem, loc));
    } else {
        let w = entry_at(root, mem, loc, a_index(va, i));
        if !a_valid(w) {
            let n = alloc_addr(base, free);
            let mem_z = mem.insert(n, azero_table());
            let w1 = table_pointer_word(entry_at(root, mem_z, loc, a_index(va, i)), n as u64);
            let s = set_entry_at(root, mem_z, loc, a_index(va, i), w1);
            let nxt = Some(a_phys(w1));
            lemma_amap_translate(s.0, s.1, base, after_alloc_page(free), nxt, va, paddr, i + 1, level);
            lemma_amap_frame(s.0, s.1, base, after_alloc_page(free), nxt, va, paddr, i + 1, level, loc, a_index(va, i));
            lemma_set_entry_at(root, mem_z, loc, a_index(va, i), w1, loc, a_index(va, i));
            lemma_table_pointer_word(entry_at(root, mem_z, loc, a_index(va, i)), n as u64);
            assert(f == amap_from(s.0, s.1, base, after_alloc_page(free), nxt, va, paddr, i + 1, level));
            assert(entry_at(f.0, f.1, loc, a_index(va, i)) == w1);
            assert(loc_ok(f.1, loc));
        } else {
            let nxt = Some(a_phys(w));
            lemma_amap_translate(root, mem, base, free, nxt, va, paddr, i + 1, level);
            lemma_amap_frame(root, mem, base, free, nxt, va, paddr, i + 1, level, loc, a_index(va, i));
            assert(f == amap_from(root, mem, base, free, nxt, va, paddr, i + 1, level));
            assert(entry_at(f.0, f.1, loc, a_index(va, i)) == w);
            assert(loc_ok(f.1, loc));
        }
    }
}

/// Reading back a mapping: after [`map_page`] maps `va` to `paddr` with a block at `level`,
/// the lookup of `va` completes and finds `paddr`'s bits 12..=47 plus the offset of `va`
/// within the block; the block entry it ends at is valid, a block, has the access flag, and
/// is normal memory (attribute index 1, inner shareable) below `0xFE00_0000` and device
/// memory (attribute index 0, outer shareable) from there on; provided the descent passes
/// valid entries only where they point to tables and comes back to no table it has left.
pub proof fn law_map_page_then_lookup(
    root: PageTable,
    mem: Map<usize, PageTable>,
    base: usize,
    free: Seq<bool>,
    va: usize,
    paddr: usize,
    level: int,
)
    requires
        0 <= level <= 2,
        descend_ready(root, mem, base, free, None, va, 0, level),
        apath_simple(root, mem, base, free, None, va, 0, level),
    ensures
        ({
            let s = amap_page_post(root, mem, base, free, va, paddr, level);
            &&& atranslate_from(s.0, s.1, None, va, 0) == Some((((paddr as u64) & ADDR_MASK) as usize) as int
                + (va & a_offset_mask(level)))
            &&& awalk_completes(s.0, s.1, None, va, 0)
            &&& awalk_leaf(s.0, s.1, None, va, 0) matches Some(w) && {
                &&& w & 1 == 1
                &&& (w >> 1) & 1 == 0
                &&& (w >> 10) & 1 == 1
                &&& (w >> 2) & 7 == if paddr < 0xFE00_0000 { 1u64 } else { 0u64 }
                &&& (w >> 8) & 3 == if paddr < 0xFE00_0000 { 3u64 } else { 2u64 }
                &&& w & 0xFFFF_FFFF_F000 == (paddr as u64) & 0xFFFF_FFFF_F000
            }
        }),
{
    lemma_amap_translate(root, mem, base, free, None, va, paddr, 0, level);
    let d = descend(root, mem, base, free, None, va, 0, level);
    let bw = block_word(entry_at(d.0, d.1, d.3, a_index(va, level)), paddr);
    lemma_block_word(entry_at(d.0, d.1, d.3, a_index(va, level)), paddr);
    let s = amap_page_post(root, mem, base, free, va, paddr, level);
    assert(awalk_leaf(s.0, s.1, None, va, 0) == Some(bw));
    assert(bw & 1 == 1 && (bw >> 1) & 1 == 0);
    assert((bw >> 2) & 7 == if paddr < 0xFE00_0000 { 1u64 } else { 0u64 });
    assert((bw >> 8) & 3 == if paddr < 0xFE00_0000 { 3u64 } else { 2u64 });
}

} // verus!
