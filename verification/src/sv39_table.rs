//! Sv39 page tables: three levels of 512 entries, walked through the tables held in
//! a [`TableMemory`].
use vstd::prelude::*;
use crate::page_alloc::{
    PhysicalPageAllocator, PAGE_SIZE, is_first_fit, has_fit, mark_range, fits_at, pages_for,
    lemma_first_fit_exists, lemma_first_fit_unique,
};
use crate::sv39_pte::{Sv39PTE, XWRPermissions, pte_valid, pte_perm, pte_global, pte_addr, pte_word_for_addr, split_virt_addr_sv39};
use crate::table_memory::TableMemory;

verus! {

/// Number of entries in one table: a page of eight-byte entries.
pub const ENTRIES: usize = 512;

/// Size of the region that a root entry maps: one gibibyte.
pub const ONEGIG: usize = 0x40000000;

/// Paging modes that the `satp` register selects.
#[derive(Clone, Copy, PartialEq, Eq, Structural, Debug)]
pub enum PagingMode {
    Sv39,
}

/// The number by which `satp` selects a paging mode.
pub fn paging_mode_value(mode: PagingMode) -> (v: usize)
    ensures
        mode == PagingMode::Sv39 ==> v == 8,
{
    match mode {
        PagingMode::Sv39 => 8,
    }
}

/// Divides a constant by the size of a type, which must divide it evenly.
pub fn type_divide<T>(n: usize) -> (r: usize)
    requires
        vstd::layout::size_of::<T>() > 0,
        n % (vstd::layout::size_of::<T>() as usize) == 0,
    ensures
        r == n / (vstd::layout::size_of::<T>() as usize),
{
    let t_sz = core::mem::size_of::<T>();
    n / t_sz
}

/// The `satp` value that enables `mode` with the root table at the page-aligned `addr`:
/// the mode in bits 60..=63 and the low 44 bits of the root's page number.
pub fn satp_value(mode: PagingMode, addr: usize) -> (v: u64)
    requires
        addr % PAGE_SIZE == 0,
    ensures
        mode == PagingMode::Sv39 ==> v == 8 * 0x1000_0000_0000_0000 + (addr / PAGE_SIZE) as int
            % 0x1000_0000_0000,
{
    let mode_bits = paging_mode_value(mode) as u64;
    let ppn = (addr / PAGE_SIZE) as u64;
    proof {
        crate::sv39_pte::lemma_word_bits(ppn, mode_bits);
    }
    // bottom 44 bits of ppn: (1 << 44) - 1
    (mode_bits << 60) | (ppn & 0xFFF_FFFF_FFFF)
}

/// The flag characters that the table printer shows for an entry: `V` for valid, `G` for
/// global, then `***` for a valid pointer to the next level, else `R`, `W`, `X` for each
/// permission (a space where a flag is clear).
pub fn entry_flags(ent: &Sv39PTE) -> (r: [char; 5])
    ensures
        r@[0] == if pte_valid(ent.value()) { 'V' } else { ' ' },
        r@[1] == if pte_global(ent.value()) { 'G' } else { ' ' },
        pte_valid(ent.value()) && pte_perm(ent.value()) == 0 ==> r@[2] == '*' && r@[3] == '*'
            && r@[4] == '*',
        !(pte_valid(ent.value()) && pte_perm(ent.value()) == 0) ==> {
            &&& r@[2] == if pte_perm(ent.value()) & 1 == 1 { 'R' } else { ' ' }
            &&& r@[3] == if pte_perm(ent.value()) & 2 == 2 { 'W' } else { ' ' }
            &&& r@[4] == if pte_perm(ent.value()) & 4 == 4 { 'X' } else { ' ' }
        },
{
    let v = if ent.valid() { 'V' } else { ' ' };
    let g = if ent.global() { 'G' } else { ' ' };
    let perms = ent.permissions();
    if ent.valid() && perms.bits() == XWRPermissions::pointer().bits() {
        [v, g, '*', '*', '*']
    } else {
        let pv = perms.bits();
        proof {
            crate::sv39_pte::lemma_byte_bits(pv, 0);
        }
        let r = if perms.contains(XWRPermissions::read()) { 'R' } else { ' ' };
        let w = if perms.contains(XWRPermissions::write()) { 'W' } else { ' ' };
        let x = if perms.contains(XWRPermissions::execute()) { 'X' } else { ' ' };
        [v, g, r, w, x]
    }
}

/// Whether the table printer descends into the table that an entry points to: a valid entry
/// whose permission bits are clear.
pub fn points_to_next_level(ent: &Sv39PTE) -> (r: bool)
    ensures
        r == (pte_valid(ent.value()) && pte_perm(ent.value()) == 0),
{
    ent.valid() && ent.permissions().bits() == XWRPermissions::pointer().bits()
}

/// One Sv39 page table.
#[derive(Clone, Copy)]
pub struct Sv39Table {
    entries: [Sv39PTE; 512],
}

/// The word of entry `i` of a table.
pub open spec fn word(t: Sv39Table, i: int) -> u64 {
    t@[i].value()
}

/// The table with every entry zero.
pub closed spec fn zero_table() -> Sv39Table {
    Sv39Table { entries: vstd::array::spec_array_fill_for_copy_type::<Sv39PTE, 512>(Sv39PTE::spec_from_bits(0)) }
}

/// `t` with entry `i` replaced by the entry word `w`.
pub closed spec fn table_set(t: Sv39Table, i: int, w: u64) -> Sv39Table {
    Sv39Table { entries: vstd::array::spec_array_update(t.entries, i, Sv39PTE::spec_from_bits(w)) }
}

/// Every entry of the zero table is zero.
pub proof fn lemma_zero_table()
    ensures
        forall|i: int| 0 <= i < 512 ==> #[trigger] word(zero_table(), i) == 0,
{
    assert forall|i: int| 0 <= i < 512 implies #[trigger] word(zero_table(), i) == 0 by {
        vstd::array::axiom_spec_array_fill_for_copy_type::<Sv39PTE, 512>(Sv39PTE::spec_from_bits(0));
        Sv39PTE::lemma_spec_from_bits(0);
    }
}

/// Replacing one entry changes that entry's word and no other.
pub proof fn lemma_table_set(t: Sv39Table, i: int, w: u64)
    requires
        0 <= i < 512,
    ensures
        forall|j: int| 0 <= j < 512 ==> #[trigger] word(table_set(t, i, w), j) == if j == i {
            w
        } else {
            word(t, j)
        },
{
    vstd::array::axiom_spec_array_update(t.entries, i, Sv39PTE::spec_from_bits(w));
    Sv39PTE::lemma_spec_from_bits(w);
}

/// VPN[2] of a virtual address: its index in the root table.
pub open spec fn vpn2_of(va: usize) -> int {
    (va as int / 0x40000000) % 512
}

/// VPN[1] of a virtual address: its index in a level-1 table.
pub open spec fn vpn1_of(va: usize) -> int {
    (va as int / 0x200000) % 512
}

/// VPN[0] of a virtual address: its index in a level-2 table.
pub open spec fn vpn0_of(va: usize) -> int {
    (va as int / 0x1000) % 512
}

/// The address of the table that a pointer entry word refers to.
pub open spec fn next_table(w: u64) -> usize {
    pte_addr(w) as usize
}

/// The physical address that a walk of `va` from `root` reaches, as this kernel computes it:
/// a leaf in the root maps a gibibyte, a leaf in a level-1 table two mebibytes, a leaf in a
/// level-2 table a page, and the result is the leaf's address plus `va` modulo the size that
/// the leaf maps. `None` where an entry on the
/// way is invalid, a table on the way is not in memory, or the last entry is not a leaf.
pub open spec fn translate(root: Sv39Table, mem: Map<usize, Sv39Table>, va: usize) -> Option<int> {
    let e2 = word(root, vpn2_of(va));
    if !pte_valid(e2) {
        None
    } else if pte_perm(e2) != 0 {
        Some(next_table(e2) + va % 0x40000000)
    } else if !mem.contains_key(next_table(e2)) {
        None
    } else {
        let e1 = word(mem[next_table(e2)], vpn1_of(va));
        if !pte_valid(e1) {
            None
        } else if pte_perm(e1) != 0 {
            Some(next_table(e1) + va % 0x200000)
        } else if !mem.contains_key(next_table(e1)) {
            None
        } else {
            let e0 = word(mem[next_table(e1)], vpn0_of(va));
            if !pte_valid(e0) || pte_perm(e0) == 0 {
                None
            } else {
                Some(next_table(e0) + va % 0x1000)
            }
        }
    }
}

/// The word of the entry at which the walk of `va` from `root` ends: a valid leaf (an entry
/// with a permission bit set) in the root, a level-1 or a level-2 table. `None` where an entry
/// on the way is invalid, a table on the way is not in memory, or the last entry is no leaf.
pub open spec fn walk_leaf(root: Sv39Table, mem: Map<usize, Sv39Table>, va: usize) -> Option<u64> {
    let e2 = word(root, vpn2_of(va));
    if !pte_valid(e2) {
        None
    } else if pte_perm(e2) != 0 {
        Some(e2)
    } else if !mem.contains_key(next_table(e2)) {
        None
    } else {
        let e1 = word(mem[next_table(e2)], vpn1_of(va));
        if !pte_valid(e1) {
            None
        } else if pte_perm(e1) != 0 {
            Some(e1)
        } else if !mem.contains_key(next_table(e1)) {
            None
        } else {
            let e0 = word(mem[next_table(e1)], vpn0_of(va));
            if !pte_valid(e0) || pte_perm(e0) == 0 {
                None
            } else {
                Some(e0)
            }
        }
    }
}

/// Where the walk of `va` ends at a leaf, its translation is the leaf's address plus the
/// offset of `va` inside the region that the leaf maps: a gibibyte for a leaf in the root, two
/// mebibytes for a leaf in a level-1 table, a page for a leaf in a level-2 table. So two
/// addresses under the same leaf translate to results that differ by their difference.
pub proof fn law_translation_offsets(root: Sv39Table, mem: Map<usize, Sv39Table>, va: usize, vb: usize)
    ensures
        ({
            let e2 = word(root, vpn2_of(va));
            let e1 = word(mem[next_table(e2)], vpn1_of(va));
            let e0 = word(mem[next_table(e1)], vpn0_of(va));
            &&& pte_valid(e2) && pte_perm(e2) != 0 ==> translate(root, mem, va) == Some(
                next_table(e2) + va % 0x40000000,
            )
            &&& pte_valid(e2) && pte_perm(e2) == 0 && mem.contains_key(next_table(e2)) && pte_valid(e1)
                && pte_perm(e1) != 0 ==> translate(root, mem, va) == Some(next_table(e1) + va % 0x200000)
            &&& pte_valid(e2) && pte_perm(e2) == 0 && mem.contains_key(next_table(e2)) && pte_valid(e1)
                && pte_perm(e1) == 0 && mem.contains_key(next_table(e1)) && pte_valid(e0) && pte_perm(e0)
                != 0 ==> translate(root, mem, va) == Some(next_table(e0) + va % 0x1000)
        }),
        ({
            let e2 = word(root, vpn2_of(va));
            let e1 = word(mem[next_table(e2)], vpn1_of(va));
            va / 0x200000 == vb / 0x200000 && pte_valid(e2) && pte_perm(e2) == 0 && mem.contains_key(
                next_table(e2),
            ) && pte_valid(e1) && pte_perm(e1) != 0 ==> translate(root, mem, va).unwrap() - va
                == translate(root, mem, vb).unwrap() - vb
        }),
{
    if va / 0x200000 == vb / 0x200000 {
        vstd::arithmetic::div_mod::lemma_div_denominator(va as int, 0x200000, 512);
        vstd::arithmetic::div_mod::lemma_div_denominator(vb as int, 0x200000, 512);
        assert(vpn2_of(va) == vpn2_of(vb) && vpn1_of(va) == vpn1_of(vb));
        vstd::arithmetic::div_mod::lemma_fundamental_div_mod(va as int, 0x200000);
        vstd::arithmetic::div_mod::lemma_fundamental_div_mod(vb as int, 0x200000);
    }
}

/// The word of a leaf entry for `addr` with permissions `perm`: valid and global.
pub open spec fn leaf_word(addr: u64, perm: u64) -> u64 {
    pte_word_for_addr(addr) | 1 | 0x20 | (perm << 1)
}

/// Whether an entry word points to a table of the next level: valid, with its permission
/// bits clear.
pub open spec fn is_pointer(w: u64) -> bool {
    pte_valid(w) && pte_perm(w) == 0
}

/// The word of a valid pointer entry to the table at `addr`.
pub open spec fn pointer_word(addr: u64) -> u64 {
    pte_word_for_addr(addr) | 1
}

/// The page that a one-page allocation hands out next.
pub open spec fn next_page(free: Seq<bool>) -> int {
    choose|b: int| is_first_fit(free, 1, b)
}

/// A one-page allocation succeeds: some page is free.
pub open spec fn can_alloc_page(free: Seq<bool>) -> bool {
    has_fit(free, 1)
}

/// The page map after a one-page allocation.
pub open spec fn after_alloc_page(free: Seq<bool>) -> Seq<bool> {
    mark_range(free, next_page(free), next_page(free) + 1, false)
}

/// The page map after `k` one-page allocations.
pub open spec fn free_after_allocs(free: Seq<bool>, k: nat) -> Seq<bool>
    decreases k,
{
    if k == 0 {
        free
    } else {
        free_after_allocs(after_alloc_page(free), (k - 1) as nat)
    }
}

/// The address of page `j` of a region based at `base`.
pub open spec fn page_addr(base: usize, j: int) -> int {
    base + j * PAGE_SIZE
}

/// Every table held in memory lies on a page that the allocator does not count as free.
pub open spec fn tables_on_taken_pages(mem: Map<usize, Sv39Table>, base: usize, free: Seq<bool>) -> bool {
    forall|a: usize, j: int|
        #![trigger mem.contains_key(a), free[j]]
        mem.contains_key(a) && 0 <= j < free.len() && free[j] ==> a != page_addr(base, j)
}

/// The allocator's region is page aligned and lies below the 56-bit physical address limit,
/// so that a pointer entry to any of its pages records the page's address exactly.
pub open spec fn region_addressable(base: usize, free: Seq<bool>) -> bool {
    &&& base % PAGE_SIZE == 0
    &&& base + free.len() * PAGE_SIZE <= 0x100_0000_0000_0000
}

/// Every valid entry of the old root and of every old table is still there, and every old
/// table is still held in memory.
pub open spec fn entries_kept(
    root: Sv39Table,
    mem: Map<usize, Sv39Table>,
    root2: Sv39Table,
    mem2: Map<usize, Sv39Table>,
) -> bool {
    &&& forall|i: int| 0 <= i < 512 && pte_valid(#[trigger] word(root, i)) ==> word(root2, i) == word(root, i)
    &&& forall|a: usize| #[trigger] mem.contains_key(a) ==> mem2.contains_key(a)
    &&& forall|a: usize, i: int|
        #![trigger word(mem2[a], i)]
        mem.contains_key(a) && 0 <= i < 512 && pte_valid(word(mem[a], i)) ==> word(mem2[a], i)
            == word(mem[a], i)
}

/// Number of tables that mapping `va` allocates: both lower levels where the root entry is
/// invalid, the last level where the level-1 entry is invalid, otherwise none.
pub open spec fn allocs_needed(root: Sv39Table, mem: Map<usize, Sv39Table>, va: usize) -> nat {
    let e2 = word(root, vpn2_of(va));
    if !pte_valid(e2) {
        2
    } else if !pte_valid(word(mem[next_table(e2)], vpn1_of(va))) {
        1
    } else {
        0
    }
}

/// Address of the page that the next one-page allocation hands out.
pub open spec fn alloc_addr(base: usize, free: Seq<bool>) -> usize {
    page_addr(base, next_page(free)) as usize
}

/// Root, tables and page map after mapping the page of `va` to `pa2` with permission bits
/// `p`: a missing level-1 table, then a missing level-2 table, is allocated, stored zeroed and
/// pointed to; then the last-level entry becomes the leaf.
pub open spec fn map_page_post(
    root: Sv39Table,
    mem: Map<usize, Sv39Table>,
    base: usize,
    free: Seq<bool>,
    va: usize,
    pa2: usize,
    p: u64,
) -> (Sv39Table, Map<usize, Sv39Table>, Seq<bool>) {
    let e2 = word(root, vpn2_of(va));
    let n1 = alloc_addr(base, free);
    let root1 = if pte_valid(e2) {
        root
    } else {
        table_set(root, vpn2_of(va), pointer_word(n1 as u64))
    };
    let mem1 = if pte_valid(e2) {
        mem
    } else {
        mem.insert(n1, zero_table())
    };
    let free1 = if pte_valid(e2) {
        free
    } else {
        after_alloc_page(free)
    };
    let a1 = if pte_valid(e2) {
        next_table(e2)
    } else {
        n1
    };
    let e1 = word(mem1[a1], vpn1_of(va));
    let n2 = alloc_addr(base, free1);
    let mem1z = mem1.insert(n2, zero_table());
    let mem2 = if pte_valid(e1) {
        mem1
    } else {
        mem1z.insert(a1, table_set(mem1z[a1], vpn1_of(va), pointer_word(n2 as u64)))
    };
    let free2 = if pte_valid(e1) {
        free1
    } else {
        after_alloc_page(free1)
    };
    let a2 = if pte_valid(e1) {
        next_table(e1)
    } else {
        n2
    };
    (root1, mem2.insert(a2, table_set(mem2[a2], vpn0_of(va), leaf_word(pa2 as u64, p))), free2)
}

/// Mapping `va` completes: every table on the way is in memory, the allocations it needs
/// succeed, and the last-level entry that it fills is not valid already. Where the new
/// level-2 table would be handed out on the page of the level-1 table itself (a table left
/// on a free page), that entry is the pointer just written when `vpn0 == vpn1`, which is
/// valid: that input is left out.
pub open spec fn map_page_ready(
    root: Sv39Table,
    mem: Map<usize, Sv39Table>,
    base: usize,
    free: Seq<bool>,
    va: usize,
) -> bool {
    let e2 = word(root, vpn2_of(va));
    if !pte_valid(e2) {
        can_alloc_page(free) && can_alloc_page(after_alloc_page(free))
    } else {
        let a1 = next_table(e2);
        &&& mem.contains_key(a1)
        &&& {
            let e1 = word(mem[a1], vpn1_of(va));
            if !pte_valid(e1) {
                &&& can_alloc_page(free)
                &&& page_addr(base, next_page(free)) == a1 ==> vpn0_of(va) != vpn1_of(va)
            } else {
                &&& mem.contains_key(next_table(e1))
                &&& !pte_valid(word(mem[next_table(e1)], vpn0_of(va)))
            }
        }
    }
}

/// The walk of `va` uses the existing entries as pointers to distinct tables, so that the
/// new leaf is the one that a later walk reaches.
pub open spec fn walk_reaches_new_leaf(root: Sv39Table, mem: Map<usize, Sv39Table>, va: usize) -> bool {
    let e2 = word(root, vpn2_of(va));
    pte_valid(e2) ==> {
        let e1 = word(mem[next_table(e2)], vpn1_of(va));
        &&& pte_perm(e2) == 0
        &&& pte_valid(e1) ==> pte_perm(e1) == 0 && next_table(e1) != next_table(e2)
    }
}

/// A one-page allocation's address.
pub proof fn lemma_next_page(free: Seq<bool>)
    requires
        has_fit(free, 1),
    ensures
        is_first_fit(free, 1, next_page(free)),
        free[next_page(free)],
        forall|b: int| is_first_fit(free, 1, b) ==> b == next_page(free),
{
    let b = choose|b: int| fits_at(free, b, 1);
    lemma_first_fit_exists(free, 1, b);
    assert(is_first_fit(free, 1, next_page(free)));
    assert forall|c: int| is_first_fit(free, 1, c) implies c == next_page(free) by {
        lemma_first_fit_unique(free, 1, c, next_page(free));
    }
}

/// Distinct pages of a region lie at distinct addresses.
pub proof fn lemma_page_addr_distinct(base: usize, i: int, j: int)
    requires
        i != j,
    ensures
        page_addr(base, i) != page_addr(base, j),
{
    assert(i * PAGE_SIZE != j * PAGE_SIZE) by (nonlinear_arith)
        requires i != j;
}

/// A page address of an addressable region survives the round trip through a pointer entry.
proof fn lemma_page_addr_exact(base: usize, free: Seq<bool>, j: int)
    requires
        region_addressable(base, free),
        0 <= j < free.len(),
    ensures
        page_addr(base, j) <= usize::MAX ==> ((page_addr(base, j) as usize as u64)
            & 0x00FF_FFFF_FFFF_F000u64) as usize == page_addr(base, j),
{
    let a = page_addr(base, j);
    assert(j * PAGE_SIZE + PAGE_SIZE <= free.len() * PAGE_SIZE) by (nonlinear_arith)
        requires j < free.len(), j >= 0;
    assert((j * PAGE_SIZE) % PAGE_SIZE as int == 0) by (nonlinear_arith);
    if a <= usize::MAX {
        let x = a as usize;
        assert(x % 4096 == 0);
        assert(x < 0x100_0000_0000_0000);
        crate::sv39_pte::lemma_usize_bits(x);
    }
}

/// A pointer entry word is valid, has no permission bits, and refers to the page of its address.
proof fn lemma_pointer_word(a: u64)
    ensures
        pte_valid(pointer_word(a)),
        pte_perm(pointer_word(a)) == 0,
        pte_addr(pointer_word(a)) == a & 0x00FF_FFFF_FFFF_F000u64,
{
    assert(((((a >> 12) & 0xFFF_FFFF_FFFFu64) << 10) | 1) & 1 == 1
        && (((((a >> 12) & 0xFFF_FFFF_FFFFu64) << 10) | 1) >> 1) & 7 == 0
        && ((((((a >> 12) & 0xFFF_FFFF_FFFFu64) << 10) | 1) >> 10) & 0xFFF_FFFF_FFFFu64) << 12
            == a & 0x00FF_FFFF_FFFF_F000u64) by (bit_vector);
}

/// The next one-page allocation hands out a page of the region, at an address that fits in
/// a `usize`, on which no table lies, and which a pointer entry records exactly.
proof fn lemma_alloc_addr_fresh(mem: Map<usize, Sv39Table>, base: usize, free: Seq<bool>)
    requires
        can_alloc_page(free),
        tables_on_taken_pages(mem, base, free),
        region_addressable(base, free),
        base + free.len() * PAGE_SIZE <= usize::MAX,
    ensures
        alloc_addr(base, free) as int == page_addr(base, next_page(free)),
        !mem.contains_key(alloc_addr(base, free)),
        next_table(pointer_word(alloc_addr(base, free) as u64)) == alloc_addr(base, free),
        0 <= next_page(free) < free.len(),
        free[next_page(free)],
{
    lemma_next_page(free);
    let j = next_page(free);
    assert(j * PAGE_SIZE + PAGE_SIZE <= free.len() * PAGE_SIZE) by (nonlinear_arith)
        requires j < free.len(), j >= 0;
    assert(j * PAGE_SIZE >= 0) by (nonlinear_arith)
        requires j >= 0;
    let a = alloc_addr(base, free);
    assert(a as int == page_addr(base, j));
    if mem.contains_key(a) {
        assert(free[j]);
        assert(false);
    }
    lemma_page_addr_exact(base, free, j);
    lemma_pointer_word(a as u64);
}

/// After the page of `va` is mapped to the page of `pa` with permission bits `p`, the walk of
/// `va` ends at a valid, global leaf whose permission bits are `p`, and `va` translates to the
/// page of `pa` plus the offset of `va` in its page. This holds where the walk uses the
/// existing entries as pointers to distinct tables and every table lies on a taken page of
/// an addressable region, so that new tables land on free pages.
pub proof fn law_map_page_leaf(
    root: Sv39Table,
    mem: Map<usize, Sv39Table>,
    base: usize,
    free: Seq<bool>,
    va: usize,
    pa: usize,
    p: u64,
)
    requires
        map_page_ready(root, mem, base, free, va),
        tables_on_taken_pages(mem, base, free),
        region_addressable(base, free),
        base + free.len() * PAGE_SIZE <= usize::MAX,
        walk_reaches_new_leaf(root, mem, va),
        1 <= p <= 7,
    ensures
        ({
            let post = map_page_post(root, mem, base, free, va, (pa - pa % PAGE_SIZE) as usize, p);
            &&& walk_leaf(post.0, post.1, va) matches Some(w) && pte_valid(w) && pte_global(w)
                && pte_perm(w) == p
            &&& translate(post.0, post.1, va) == Some(
                ((pa as u64) & 0x00FF_FFFF_FFFF_F000u64) as usize + va % 0x1000,
            )
        }),
{
    let pa2 = (pa - pa % PAGE_SIZE) as usize;
    assert(pa2 == pa & !0xfffusize) by {
        crate::sv39_pte::lemma_usize_bits(pa);
    }
    lemma_leaf_addr(pa, pa2, p);
    let lw = leaf_word(pa2 as u64, p);
    let i2 = vpn2_of(va);
    let i1 = vpn1_of(va);
    let i0 = vpn0_of(va);
    assert(0 <= i2 < 512 && 0 <= i1 < 512 && 0 <= i0 < 512);
    lemma_zero_table();
    let e2 = word(root, i2);
    let post = map_page_post(root, mem, base, free, va, pa2, p);
    if pte_valid(e2) {
        let a1 = next_table(e2);
        let e1 = word(mem[a1], i1);
        if pte_valid(e1) {
            let a2 = next_table(e1);
            lemma_table_set(mem[a2], i0, lw);
            assert(post.0 == root);
            assert(post.1 == mem.insert(a2, table_set(mem[a2], i0, lw)));
            assert(post.1[a1] == mem[a1]);
            assert(word(post.1[a2], i0) == lw);
        } else {
            lemma_alloc_addr_fresh(mem, base, free);
            let n2 = alloc_addr(base, free);
            assert(n2 != a1);
            let mem1z = mem.insert(n2, zero_table());
            let t1 = table_set(mem[a1], i1, pointer_word(n2 as u64));
            lemma_table_set(mem[a1], i1, pointer_word(n2 as u64));
            lemma_table_set(zero_table(), i0, lw);
            lemma_pointer_word(n2 as u64);
            assert(mem1z[a1] == mem[a1]);
            let mem2 = mem1z.insert(a1, t1);
            assert(mem2[n2] == zero_table());
            assert(post.1 == mem2.insert(n2, table_set(zero_table(), i0, lw)));
            assert(post.1[a1] == t1);
            assert(word(t1, i1) == pointer_word(n2 as u64));
            assert(word(post.1[n2], i0) == lw);
        }
    } else {
        lemma_alloc_addr_fresh(mem, base, free);
        let n1 = alloc_addr(base, free);
        let j1 = next_page(free);
        let free1 = after_alloc_page(free);
        let mem1 = mem.insert(n1, zero_table());
        assert(free1.len() == free.len());
        assert(!free1[j1]);
        assert(tables_on_taken_pages(mem1, base, free1)) by {
            assert forall|a: usize, j: int|
                #![trigger mem1.contains_key(a), free1[j]]
                mem1.contains_key(a) && 0 <= j < free1.len() && free1[j] implies a != page_addr(base, j) by {
                if a == n1 {
                    assert(j != j1);
                    lemma_page_addr_distinct(base, j, j1);
                } else {
                    assert(mem.contains_key(a) && free[j]);
                }
            }
        }
        assert(word(mem1[n1], i1) == 0);
        crate::sv39_pte::lemma_word_bits(0, 0);
        assert(can_alloc_page(free1));
        lemma_alloc_addr_fresh(mem1, base, free1);
        let n2 = alloc_addr(base, free1);
        assert(n2 != n1);
        let root1 = table_set(root, i2, pointer_word(n1 as u64));
        lemma_table_set(root, i2, pointer_word(n1 as u64));
        lemma_pointer_word(n1 as u64);
        let mem1z = mem1.insert(n2, zero_table());
        let t1 = table_set(zero_table(), i1, pointer_word(n2 as u64));
        lemma_table_set(zero_table(), i1, pointer_word(n2 as u64));
        lemma_table_set(zero_table(), i0, lw);
        lemma_pointer_word(n2 as u64);
        assert(mem1z[n1] == zero_table());
        let mem2 = mem1z.insert(n1, t1);
        assert(mem2[n2] == zero_table());
        assert(post.0 == root1);
        assert(post.1 == mem2.insert(n2, table_set(zero_table(), i0, lw)));
        assert(post.1[n1] == t1);
        assert(word(root1, i2) == pointer_word(n1 as u64));
        assert(word(t1, i1) == pointer_word(n2 as u64));
        assert(word(post.1[n2], i0) == lw);
    }
}

/// A walk that succeeded still succeeds, to the same address, once every valid entry that it
/// read is kept: changes that only fill invalid entries or add tables leave existing
/// translations alone.
pub proof fn law_translation_kept(
    root: Sv39Table,
    mem: Map<usize, Sv39Table>,
    root2: Sv39Table,
    mem2: Map<usize, Sv39Table>,
    va: usize,
)
    requires
        entries_kept(root, mem, root2, mem2),
        translate(root, mem, va) is Some,
    ensures
        translate(root2, mem2, va) == translate(root, mem, va),
{
    let i2 = vpn2_of(va);
    let i1 = vpn1_of(va);
    let i0 = vpn0_of(va);
    assert(0 <= i2 < 512 && 0 <= i1 < 512 && 0 <= i0 < 512);
    let e2 = word(root, i2);
    assert(word(root2, i2) == e2);
    if pte_perm(e2) == 0 {
        let a1 = next_table(e2);
        assert(mem2.contains_key(a1));
        let e1 = word(mem[a1], i1);
        assert(word(mem2[a1], i1) == e1);
        if pte_perm(e1) == 0 {
            let a0 = next_table(e1);
            assert(mem2.contains_key(a0));
            assert(word(mem2[a0], i0) == word(mem[a0], i0));
        }
    }
}

/// Root and tables after unmapping the page of `va`: where the walk reaches a last-level
/// table through valid entries, the valid bit of the entry there is cleared.
pub open spec fn unmap_page_post(root: Sv39Table, mem: Map<usize, Sv39Table>, va: usize) -> Map<
    usize,
    Sv39Table,
> {
    let e2 = word(root, vpn2_of(va));
    let e1 = word(mem[next_table(e2)], vpn1_of(va));
    let a0 = next_table(e1);
    if pte_valid(e2) && pte_valid(e1) {
        mem.insert(a0, table_set(mem[a0], vpn0_of(va), word(mem[a0], vpn0_of(va)) & !1u64))
    } else {
        mem
    }
}

/// Unmapping `va` completes: every table that its walk follows is in memory.
pub open spec fn unmap_page_ready(root: Sv39Table, mem: Map<usize, Sv39Table>, va: usize) -> bool {
    let e2 = word(root, vpn2_of(va));
    pte_valid(e2) ==> {
        &&& mem.contains_key(next_table(e2))
        &&& pte_valid(word(mem[next_table(e2)], vpn1_of(va))) ==> mem.contains_key(
            next_table(word(mem[next_table(e2)], vpn1_of(va))),
        )
    }
}

/// The end of a range rounded up to a page.
pub open spec fn round_up_page(end: int) -> int {
    if end % PAGE_SIZE as int > 0 {
        end - end % PAGE_SIZE as int + PAGE_SIZE
    } else {
        end
    }
}

/// Number of pages from the page of `begin` up to `end` rounded up to a page.
pub open spec fn range_pages(begin: usize, end: usize) -> int {
    (round_up_page(end as int) - (begin - (begin % PAGE_SIZE) as int)) / PAGE_SIZE as int
}

/// Root, tables and page map after mapping `n` pages in turn, the `i`-th virtual page
/// `voff + i` to physical page `poff + i`.
pub open spec fn map_range_post(
    root: Sv39Table,
    mem: Map<usize, Sv39Table>,
    base: usize,
    free: Seq<bool>,
    voff: int,
    poff: int,
    n: nat,
    p: u64,
) -> (Sv39Table, Map<usize, Sv39Table>, Seq<bool>)
    decreases n,
{
    if n == 0 {
        (root, mem, free)
    } else {
        let s = map_page_post(
            root,
            mem,
            base,
            free,
            (voff * PAGE_SIZE) as usize,
            (poff * PAGE_SIZE) as usize,
            p,
        );
        map_range_post(s.0, s.1, base, s.2, voff + 1, poff + 1, (n - 1) as nat, p)
    }
}

/// Mapping `n` pages in turn completes: each mapping is ready in the state the previous
/// ones leave.
pub open spec fn map_range_ready(
    root: Sv39Table,
    mem: Map<usize, Sv39Table>,
    base: usize,
    free: Seq<bool>,
    voff: int,
    poff: int,
    n: nat,
    p: u64,
) -> bool
    decreases n,
{
    n == 0 || {
        &&& map_page_ready(root, mem, base, free, (voff * PAGE_SIZE) as usize)
        &&& {
            let s = map_page_post(
                root,
                mem,
                base,
                free,
                (voff * PAGE_SIZE) as usize,
                (poff * PAGE_SIZE) as usize,
                p,
            );
            map_range_ready(s.0, s.1, base, s.2, voff + 1, poff + 1, (n - 1) as nat, p)
        }
    }
}

/// Tables after unmapping `n` pages in turn, starting at virtual page `voff`.
pub open spec fn unmap_range_post(root: Sv39Table, mem: Map<usize, Sv39Table>, voff: int, n: nat) -> Map<
    usize,
    Sv39Table,
>
    decreases n,
{
    if n == 0 {
        mem
    } else {
        unmap_range_post(
            root,
            unmap_page_post(root, mem, (voff * PAGE_SIZE) as usize),
            voff + 1,
            (n - 1) as nat,
        )
    }
}

/// Unmapping `n` pages in turn completes.
pub open spec fn unmap_range_ready(root: Sv39Table, mem: Map<usize, Sv39Table>, voff: int, n: nat) -> bool
    decreases n,
{
    n == 0 || {
        &&& unmap_page_ready(root, mem, (voff * PAGE_SIZE) as usize)
        &&& unmap_range_ready(
            root,
            unmap_page_post(root, mem, (voff * PAGE_SIZE) as usize),
            voff + 1,
            (n - 1) as nat,
        )
    }
}

/// Rounding a range out to whole pages.
fn page_range(virt_addr_begin: usize, virt_addr_end: usize) -> (r: (usize, usize))
    requires
        round_up_page(virt_addr_end as int) <= usize::MAX,
        round_up_page(virt_addr_end as int) >= virt_addr_begin - (virt_addr_begin % PAGE_SIZE) as int,
    ensures
        r.0 == virt_addr_begin / PAGE_SIZE,
        r.1 == range_pages(virt_addr_begin, virt_addr_end),
{
    let virt_offset = virt_addr_begin / PAGE_SIZE;
    let b = virt_addr_begin;
    proof {
        crate::sv39_pte::lemma_usize_bits(b);
    }
    let virt_addr_begin = virt_addr_begin & !(PAGE_SIZE - 1);
    let e = virt_addr_end;
    proof {
        crate::sv39_pte::lemma_usize_bits(e);
    }
    let virt_addr_end = if virt_addr_end % PAGE_SIZE > 0 {
        (virt_addr_end & !(PAGE_SIZE - 1)) + PAGE_SIZE
    } else {
        virt_addr_end
    };
    let len = (virt_addr_end - virt_addr_begin) / PAGE_SIZE;
    (virt_offset, len)
}

/// Addresses that the pointer entries among entries `0 .. k` of `t` point to, in order.
pub open spec fn pointer_targets(t: Sv39Table, k: int) -> Seq<usize>
    decreases k,
{
    if k <= 0 {
        Seq::empty()
    } else {
        let s = pointer_targets(t, k - 1);
        if is_pointer(word(t, k - 1)) {
            s.push(next_table(word(t, k - 1)))
        } else {
            s
        }
    }
}

/// Addresses that [`Sv39Table::deep_free`] gives back for root entries `0 .. i`: for each
/// pointer entry, the targets of the pointer entries of the table it points to, then that
/// table.
pub open spec fn freed_tables(root: Sv39Table, mem: Map<usize, Sv39Table>, i: int) -> Seq<usize>
    decreases i,
{
    if i <= 0 {
        Seq::empty()
    } else {
        let s = freed_tables(root, mem, i - 1);
        let e = word(root, i - 1);
        if is_pointer(e) {
            s + pointer_targets(mem[next_table(e)], 512).push(next_table(e))
        } else {
            s
        }
    }
}

/// Every address that [`Sv39Table::deep_free`] gives back, in order: the lower tables, then the
/// root itself at `self_addr`.
pub open spec fn deep_free_addrs(root: Sv39Table, mem: Map<usize, Sv39Table>, self_addr: usize) -> Seq<usize> {
    freed_tables(root, mem, 512).push(self_addr)
}

/// The page map after deallocating one page at each address of `s` in turn.
pub open spec fn free_after_deallocs(free: Seq<bool>, base: usize, s: Seq<usize>) -> Seq<bool>
    decreases s.len(),
{
    if s.len() == 0 {
        free
    } else {
        let f = free_after_deallocs(free, base, s.drop_last());
        let b = (s.last() - base) / PAGE_SIZE as int;
        mark_range(f, b, b + 1, true)
    }
}

/// A one-page deallocation at `a` lies in the region.
pub open spec fn dealloc_in_region(base: usize, free: Seq<bool>, a: usize) -> bool {
    a >= base && ((a - base) / PAGE_SIZE as int) < free.len()
}

/// Every table that the root's pointer entries point to is in memory.
pub open spec fn pointed_tables_held(root: Sv39Table, mem: Map<usize, Sv39Table>) -> bool {
    forall|i: int| 0 <= i < 512 && is_pointer(#[trigger] word(root, i)) ==> mem.contains_key(next_table(word(root, i)))
}

/// The targets of the first entries are the first targets of all entries.
proof fn lemma_pointer_targets_prefix(t: Sv39Table, k: int, m: int)
    requires
        0 <= k <= m,
    ensures
        pointer_targets(t, m).len() >= pointer_targets(t, k).len(),
        pointer_targets(t, m).subrange(0, pointer_targets(t, k).len() as int) == pointer_targets(t, k),
    decreases m - k,
{
    if k < m {
        lemma_pointer_targets_prefix(t, k, m - 1);
        let a = pointer_targets(t, m - 1);
        let b = pointer_targets(t, k);
        if is_pointer(word(t, m - 1)) {
            assert(a.push(next_table(word(t, m - 1))).subrange(0, b.len() as int) =~= a.subrange(0, b.len() as int));
        }
    } else {
        assert(pointer_targets(t, m).subrange(0, pointer_targets(t, m).len() as int) =~= pointer_targets(t, m));
    }
}

/// The tables freed for the first root entries come first among all freed tables.
proof fn lemma_freed_tables_prefix(root: Sv39Table, mem: Map<usize, Sv39Table>, i: int, m: int)
    requires
        0 <= i <= m,
    ensures
        freed_tables(root, mem, m).len() >= freed_tables(root, mem, i).len(),
        freed_tables(root, mem, m).subrange(0, freed_tables(root, mem, i).len() as int) == freed_tables(root, mem, i),
    decreases m - i,
{
    if i < m {
        lemma_freed_tables_prefix(root, mem, i, m - 1);
        let a = freed_tables(root, mem, m - 1);
        let b = freed_tables(root, mem, i);
        let e = word(root, m - 1);
        if is_pointer(e) {
            let c = pointer_targets(mem[next_table(e)], 512).push(next_table(e));
            assert((a + c).subrange(0, b.len() as int) =~= a.subrange(0, b.len() as int));
        }
    } else {
        assert(freed_tables(root, mem, m).subrange(0, freed_tables(root, mem, m).len() as int) =~= freed_tables(root, mem, m));
    }
}

/// The word that a clone's pointer entry gets: the page number of `x`, with the valid, global
/// and permission bits of the entry `c` that it replaces.
pub open spec fn rebuilt_word(x: u64, c: u64) -> u64 {
    pte_word_for_addr(x) | (c & 0x2f)
}

/// Memory with entry `k` of the table at `at` replaced by the word `w`.
pub open spec fn mem_set_entry(mem: Map<usize, Sv39Table>, at: usize, k: int, w: u64) -> Map<usize, Sv39Table> {
    mem.insert(at, table_set(mem[at], k, w))
}

/// One step of cloning a table's entry `k` at `at` that points further: a page is allocated
/// and zeroed; the table that the entry (as memory then holds it) points to is copied to the
/// page's address moved by `delta`; the entry is rebuilt to point at the physical address that
/// `current_pt` translates the copy's address to. Returns memory, page map and the copy's
/// address.
pub open spec fn clone_step(
    mem: Map<usize, Sv39Table>,
    free: Seq<bool>,
    base: usize,
    delta: usize,
    at: usize,
    k: int,
    current_pt: Sv39Table,
) -> (Map<usize, Sv39Table>, Seq<bool>, usize) {
    let p = alloc_addr(base, free);
    let c = (p + delta) as usize;
    let m1 = mem.insert(p, zero_table());
    let e = word(m1[at], k);
    let m2 = m1.insert(c, m1[next_table(e)]);
    let x = translate(current_pt, m2, c).unwrap() as usize;
    (mem_set_entry(m2, at, k, rebuilt_word(x as u64, word(m2[at], k))), after_alloc_page(free), c)
}

/// The clone step at `at`, `k` completes: the allocation succeeds, the moved address fits,
/// both tables it reads are in memory, and `current_pt` translates the copy's address.
pub open spec fn clone_step_ready(
    mem: Map<usize, Sv39Table>,
    free: Seq<bool>,
    base: usize,
    delta: usize,
    at: usize,
    k: int,
    current_pt: Sv39Table,
) -> bool {
    let p = alloc_addr(base, free);
    let c = (p + delta) as usize;
    let m1 = mem.insert(p, zero_table());
    let e = word(m1[at], k);
    let m2 = m1.insert(c, m1[next_table(e)]);
    &&& can_alloc_page(free)
    &&& p + delta <= usize::MAX
    &&& m1.contains_key(at)
    &&& m1.contains_key(next_table(e))
    &&& translate(current_pt, m2, c) is Some
    &&& translate(current_pt, m2, c).unwrap() <= usize::MAX
}

/// Cloning the entries `k ..` of the level-1 copy at `c1`: each entry whose permission bits
/// are clear gets a [`clone_step`].
pub open spec fn clone_level2(
    mem: Map<usize, Sv39Table>,
    free: Seq<bool>,
    base: usize,
    delta: usize,
    c1: usize,
    k: int,
    current_pt: Sv39Table,
) -> (Map<usize, Sv39Table>, Seq<bool>)
    decreases 512 - k,
{
    if k >= 512 || k < 0 {
        (mem, free)
    } else if is_pointer(word(mem[c1], k)) {
        let s = clone_step(mem, free, base, delta, c1, k, current_pt);
        clone_level2(s.0, s.1, base, delta, c1, k + 1, current_pt)
    } else {
        clone_level2(mem, free, base, delta, c1, k + 1, current_pt)
    }
}

/// Cloning the entries `k ..` of the level-1 copy completes.
pub open spec fn clone_level2_ready(
    mem: Map<usize, Sv39Table>,
    free: Seq<bool>,
    base: usize,
    delta: usize,
    c1: usize,
    k: int,
    current_pt: Sv39Table,
) -> bool
    decreases 512 - k,
{
    k >= 512 || k < 0 || (mem.contains_key(c1) && if is_pointer(word(mem[c1], k)) {
        let s = clone_step(mem, free, base, delta, c1, k, current_pt);
        clone_step_ready(mem, free, base, delta, c1, k, current_pt) && clone_level2_ready(
            s.0,
            s.1,
            base,
            delta,
            c1,
            k + 1,
            current_pt,
        )
    } else {
        clone_level2_ready(mem, free, base, delta, c1, k + 1, current_pt)
    })
}

/// Cloning root entries `i ..` of the root copy at `r`: each entry whose permission bits are
/// clear gets a level-1 copy, whose own pointing entries are cloned, and is then rebuilt to
/// point at the copy (as [`clone_step`] does, with the level-2 cloning in between).
pub open spec fn clone_level1(
    mem: Map<usize, Sv39Table>,
    free: Seq<bool>,
    base: usize,
    delta: usize,
    r: usize,
    i: int,
    current_pt: Sv39Table,
) -> (Map<usize, Sv39Table>, Seq<bool>)
    decreases 512 - i,
{
    if i >= 512 || i < 0 {
        (mem, free)
    } else if is_pointer(word(mem[r], i)) {
        let p = alloc_addr(base, free);
        let c1 = (p + delta) as usize;
        let m1 = mem.insert(p, zero_table());
        let m2 = m1.insert(c1, m1[next_table(word(m1[r], i))]);
        let l2 = clone_level2(m2, after_alloc_page(free), base, delta, c1, 0, current_pt);
        let x = translate(current_pt, l2.0, c1).unwrap() as usize;
        let m3 = mem_set_entry(l2.0, r, i, rebuilt_word(x as u64, word(l2.0[r], i)));
        clone_level1(m3, l2.1, base, delta, r, i + 1, current_pt)
    } else {
        clone_level1(mem, free, base, delta, r, i + 1, current_pt)
    }
}

/// Cloning root entries `i ..` completes.
pub open spec fn clone_level1_ready(
    mem: Map<usize, Sv39Table>,
    free: Seq<bool>,
    base: usize,
    delta: usize,
    r: usize,
    i: int,
    current_pt: Sv39Table,
) -> bool
    decreases 512 - i,
{
    i >= 512 || i < 0 || (mem.contains_key(r) && if is_pointer(word(mem[r], i)) {
        let p = alloc_addr(base, free);
        let c1 = (p + delta) as usize;
        let m1 = mem.insert(p, zero_table());
        let m2 = m1.insert(c1, m1[next_table(word(m1[r], i))]);
        let l2 = clone_level2(m2, after_alloc_page(free), base, delta, c1, 0, current_pt);
        let x = translate(current_pt, l2.0, c1).unwrap() as usize;
        let m3 = mem_set_entry(l2.0, r, i, rebuilt_word(x as u64, word(l2.0[r], i)));
        &&& can_alloc_page(free)
        &&& p + delta <= usize::MAX
        &&& m1.contains_key(r)
        &&& m1.contains_key(next_table(word(m1[r], i)))
        &&& clone_level2_ready(m2, after_alloc_page(free), base, delta, c1, 0, current_pt)
        &&& l2.0.contains_key(r)
        &&& translate(current_pt, l2.0, c1) is Some
        &&& translate(current_pt, l2.0, c1).unwrap() <= usize::MAX
        &&& clone_level1_ready(m3, l2.1, base, delta, r, i + 1, current_pt)
    } else {
        clone_level1_ready(mem, free, base, delta, r, i + 1, current_pt)
    })
}

/// Memory and page map after [`Sv39Table::deep_clone`]: a page for the root copy is allocated
/// and zeroed, `root` is copied to its address moved by `delta`, and the copy's entries are
/// cloned.
pub open spec fn deep_clone_post(
    root: Sv39Table,
    mem: Map<usize, Sv39Table>,
    base: usize,
    free: Seq<bool>,
    delta: usize,
    current_pt: Sv39Table,
) -> (Map<usize, Sv39Table>, Seq<bool>) {
    let p = alloc_addr(base, free);
    let r = (p + delta) as usize;
    let m = mem.insert(p, zero_table()).insert(r, root);
    clone_level1(m, after_alloc_page(free), base, delta, r, 0, current_pt)
}

/// [`Sv39Table::deep_clone`] completes.
pub open spec fn deep_clone_ready(
    root: Sv39Table,
    mem: Map<usize, Sv39Table>,
    base: usize,
    free: Seq<bool>,
    delta: usize,
    current_pt: Sv39Table,
) -> bool {
    let p = alloc_addr(base, free);
    let r = (p + delta) as usize;
    let m = mem.insert(p, zero_table()).insert(r, root);
    &&& can_alloc_page(free)
    &&& p + delta <= usize::MAX
    &&& clone_level1_ready(m, after_alloc_page(free), base, delta, r, 0, current_pt)
}

/// An entry pointing at the page of `x`, with the valid, global and permission bits of `cur`.
fn rebuilt_entry(x: usize, cur: Sv39PTE) -> (e: Sv39PTE)
    ensures
        e.value() == rebuilt_word(x as u64, cur.value()),
{
    let e0 = Sv39PTE::from_physical_addr(x);
    let e1 = e0.with_valid(cur.valid());
    let e2 = e1.with_global(cur.global());
    let e = e2.with_permissions(cur.permissions());
    let a = x as u64;
    let c = cur.into_bits();
    let b0 = e0.into_bits();
    let b1 = e1.into_bits();
    let b2 = e2.into_bits();
    let b = e.into_bits();
    assert(b == (((a >> 12) & 0xFFF_FFFF_FFFFu64) << 10) | (c & 0x2f)) by (bit_vector)
        requires
            b0 == ((a >> 12) & 0xFFF_FFFF_FFFFu64) << 10,
            (b1 & 1 == 1) == (c & 1 == 1),
            b1 & !1u64 == b0 & !1u64,
            ((b2 >> 5) & 1 == 1) == ((c >> 5) & 1 == 1),
            b2 & !0x20u64 == b1 & !0x20u64,
            (b >> 1) & 7 == (c >> 1) & 7,
            b & !0xeu64 == b2 & !0xeu64,
    ;
    e
}

/// Replaces entry `k` of the table at `at` by `e`.
fn mem_write_entry(mem: &mut TableMemory<Sv39Table>, at: usize, k: usize, e: Sv39PTE)
    requires
        old(mem)@.contains_key(at),
        k < 512,
    ensures
        final(mem)@ == mem_set_entry(old(mem)@, at, k as int, e.value()),
{
    let mut t = mem.read(at).unwrap();
    let ghost t0 = t;
    t.entries[k] = e;
    proof {
        e.lemma_from_value();
        vstd::array::axiom_spec_array_update(t0.entries, k as int, Sv39PTE::spec_from_bits(e.value()));
        assert(t.entries =~= table_set(t0, k as int, e.value()).entries);
    }
    mem.write(at, t);
}

/// Shifting a table index into place multiplies it by the size of what its entry maps.
proof fn lemma_index_shifts(v1: usize, v0: usize)
    requires
        v1 < 512,
        v0 < 512,
    ensures
        v1 << 21usize == v1 * 0x200000,
        v0 << 12usize == v0 * 0x1000,
{
    crate::sv39_pte::lemma_usize_bits(v1);
    crate::sv39_pte::lemma_usize_bits(v0);
}

/// The address in a leaf entry for a page-rounded address keeps the page-aligned bits below 2^56.
proof fn lemma_leaf_addr(pa: usize, pa2: usize, p: u64)
    requires
        pa2 == pa & !0xfffusize,
        p <= 7,
    ensures
        next_table(leaf_word(pa2 as u64, p)) == ((pa as u64) & 0x00FF_FFFF_FFFF_F000u64) as usize,
        pte_valid(leaf_word(pa2 as u64, p)),
        pte_perm(leaf_word(pa2 as u64, p)) == p,
        pte_global(leaf_word(pa2 as u64, p)),
{
    let a = pa2 as u64;
    let b = pa as u64;
    assert(a == b & !0xfffu64) by (bit_vector)
        requires a == pa2 as u64, b == pa as u64, pa2 == pa & !0xfffusize;
    assert(p <= 7 && a == b & !0xfffu64 ==> ((((((a >> 12) & 0xFFF_FFFF_FFFFu64) << 10) | 1 | 0x20 | (p
        << 1)) >> 10) & 0xFFF_FFFF_FFFFu64) << 12 == b & 0x00FF_FFFF_FFFF_F000u64) by (bit_vector);
    assert(p <= 7 ==> (((((a >> 12) & 0xFFF_FFFF_FFFFu64) << 10) | 1 | 0x20 | (p << 1)) & 1 == 1)
        && (((((((a >> 12) & 0xFFF_FFFF_FFFFu64) << 10) | 1 | 0x20 | (p << 1)) >> 1) & 7) == p)
        && (((((((a >> 12) & 0xFFF_FFFF_FFFFu64) << 10) | 1 | 0x20 | (p << 1)) >> 5) & 1) == 1))
        by (bit_vector);
}

/// A leaf entry: the page number of `addr`, valid, global, with the given permissions.
fn leaf_entry(addr: usize, permissions: XWRPermissions) -> (e: Sv39PTE)
    requires
        permissions.wf(),
    ensures
        e.value() == leaf_word(addr as u64, permissions.value() as u64),
{
    let e0 = Sv39PTE::from_physical_addr(addr);
    let e1 = e0.with_valid(true);
    let e2 = e1.with_global(true);
    let e = e2.with_permissions(permissions);
    let a = addr as u64;
    let b0 = e0.into_bits();
    let b1 = e1.into_bits();
    let b2 = e2.into_bits();
    let b = e.into_bits();
    let p = permissions.bits() as u64;
    proof {
        permissions.lemma_wf();
    }
    assert(b == (((a >> 12) & 0xFFF_FFFF_FFFFu64) << 10) | 1 | 0x20 | (p << 1)) by (bit_vector)
        requires
            p <= 7,
            b0 == ((a >> 12) & 0xFFF_FFFF_FFFFu64) << 10,
            b1 & 1 == 1,
            b1 & !1u64 == b0 & !1u64,
            (b2 >> 5) & 1 == 1,
            b2 & !0x20u64 == b1 & !0x20u64,
            (b >> 1) & 7 == p,
            b & !0xeu64 == b2 & !0xeu64,
    ;
    e
}

/// A valid pointer entry to the table at `addr`.
fn pointer_entry(addr: usize) -> (e: Sv39PTE)
    ensures
        e.value() == pointer_word(addr as u64),
        pte_valid(e.value()),
        pte_perm(e.value()) == 0,
        next_table(e.value()) == ((addr as u64) & 0x00FF_FFFF_FFFF_F000u64) as usize,
{
    let e0 = Sv39PTE::from_physical_addr(addr);
    let e1 = e0.with_valid(true);
    let e = e1.with_permissions(XWRPermissions::pointer());
    let a = addr as u64;
    let b0 = e0.into_bits();
    let b1 = e1.into_bits();
    let b = e.into_bits();
    assert(b == (((a >> 12) & 0xFFF_FFFF_FFFFu64) << 10) | 1 && b & 1 == 1 && (b >> 1) & 7 == 0
        && ((((b >> 10) & 0xFFF_FFFF_FFFFu64) << 12) == a & 0x00FF_FFFF_FFFF_F000u64))
        by (bit_vector)
        requires
            b0 == ((a >> 12) & 0xFFF_FFFF_FFFFu64) << 10,
            b1 & 1 == 1,
            b1 & !1u64 == b0 & !1u64,
            (b >> 1) & 7 == 0,
            b & !0xeu64 == b1 & !0xeu64,
    ;
    e
}

/// Allocates a page for a new table and zeroes it: an all-zero table is stored at the
/// page's address.
fn zallocate_table<const PAGES: usize>(
    mem: &mut TableMemory<Sv39Table>,
    alloc: &mut PhysicalPageAllocator<PAGES>,
) -> (a: usize)
    requires
        old(alloc).wf(),
        old(alloc).base() != 0,
        can_alloc_page(old(alloc).free()),
    ensures
        final(alloc).wf(),
        final(alloc).base() == old(alloc).base(),
        final(alloc).free() == after_alloc_page(old(alloc).free()),
        a == page_addr(old(alloc).base(), next_page(old(alloc).free())),
        final(mem)@ == old(mem)@.insert(a, zero_table()),
        a == alloc_addr(old(alloc).base(), old(alloc).free()),
        forall|i: int| 0 <= i < 512 ==> #[trigger] word(final(mem)@[a], i) == 0,
{
    proof {
        lemma_next_page(alloc.free());
        assert(pages_for(PAGE_SIZE as int) == 1);
    }
    let r = alloc.try_allocate(PAGE_SIZE);
    let p = r.unwrap();
    let t = Sv39Table::new();
    mem.write(p, t);
    p
}

impl Sv39Table {
    /// The entries of this table.
    pub closed spec fn view(&self) -> Seq<Sv39PTE> {
        self.entries@
    }

    /// A table has 512 entries.
    pub proof fn lemma_len(&self)
        ensures
            self@.len() == 512,
    {
    }

    /// A table with every entry zero (invalid).
    pub fn new() -> (t: Self)
        ensures
            t == zero_table(),
            forall|i: int| 0 <= i < 512 ==> #[trigger] word(t, i) == 0,
    {
        proof {
            lemma_zero_table();
        }
        Sv39Table { entries: [Sv39PTE::new(); 512] }
    }

    /// The entries of this table.
    pub fn entries(&self) -> (s: &[Sv39PTE])
        ensures
            s@ == self@,
    {
        self.entries.as_slice()
    }

    /// Maps a 1GiB gigapage: the root entry of `virt_addr` becomes a valid, global leaf for
    /// `phys_addr` rounded down to a gibibyte, with the given permissions.
    pub fn map_gigapage(&mut self, virt_addr: usize, phys_addr: usize, permissions: XWRPermissions)
        requires
            virt_addr / ONEGIG < 512,
            permissions.wf(),
        ensures
            final(self)@ == old(self)@.update(
                (virt_addr / ONEGIG) as int,
                final(self)@[(virt_addr / ONEGIG) as int],
            ),
            word(*final(self), (virt_addr / ONEGIG) as int) == leaf_word(
                (phys_addr - phys_addr % ONEGIG) as u64,
                permissions.value() as u64,
            ),
    {
        let index = virt_addr / ONEGIG;
        let phys_addr2 = phys_addr & !(ONEGIG - 1);
        proof {
            crate::sv39_pte::lemma_usize_bits(phys_addr);
        }
        self.entries[index] = leaf_entry(phys_addr2, permissions);
    }

    /// Unmaps a 1GiB gigapage: clears the valid bit of the root entry of `virt_addr`.
    pub fn unmap_gigapage(&mut self, virt_addr: usize)
        requires
            virt_addr / ONEGIG < 512,
        ensures
            final(self)@ == old(self)@.update(
                (virt_addr / ONEGIG) as int,
                final(self)@[(virt_addr / ONEGIG) as int],
            ),
            word(*final(self), (virt_addr / ONEGIG) as int) == word(
                *old(self),
                (virt_addr / ONEGIG) as int,
            ) & !1u64,
    {
        let index = virt_addr / ONEGIG;
        let mut e = self.entries[index];
        let old_bits = e.into_bits();
        e.set_valid(false);
        let b = e.into_bits();
        proof {
            crate::sv39_pte::lemma_word_bits(b, old_bits);
        }
        self.entries[index] = e;
    }

    /// Maps a 4KiB page: the walk of `virt_addr` allocates any missing lower-level table
    /// (zeroed) and the last-level entry becomes a valid, global leaf for `phys_addr`
    /// rounded down to a page, with the given permissions.
    pub fn map_page<const PAGES: usize>(
        &mut self,
        mem: &mut TableMemory<Sv39Table>,
        alloc: &mut PhysicalPageAllocator<PAGES>,
        virt_addr: usize,
        phys_addr: usize,
        permissions: XWRPermissions,
    )
        requires
            old(alloc).wf(),
            old(alloc).base() != 0,
            permissions.wf(),
            map_page_ready(*old(self), old(mem)@, old(alloc).base(), old(alloc).free(), virt_addr),
        ensures
            (*final(self), final(mem)@, final(alloc).free()) == map_page_post(
                *old(self),
                old(mem)@,
                old(alloc).base(),
                old(alloc).free(),
                virt_addr,
                (phys_addr - phys_addr % PAGE_SIZE) as usize,
                permissions.value() as u64,
            ),
            final(alloc).wf(),
            final(alloc).base() == old(alloc).base(),
            final(alloc).free() == free_after_allocs(
                old(alloc).free(),
                allocs_needed(*old(self), old(mem)@, virt_addr),
            ),
            tables_on_taken_pages(old(mem)@, old(alloc).base(), old(alloc).free()) ==> {
                &&& tables_on_taken_pages(final(mem)@, final(alloc).base(), final(alloc).free())
                &&& entries_kept(*old(self), old(mem)@, *final(self), final(mem)@)
            },
            tables_on_taken_pages(old(mem)@, old(alloc).base(), old(alloc).free())
                && region_addressable(old(alloc).base(), old(alloc).free()) && walk_reaches_new_leaf(
                *old(self),
                old(mem)@,
                virt_addr,
            ) && permissions.value() != 0 ==> translate(*final(self), final(mem)@, virt_addr)
                == Some(((phys_addr as u64) & 0x00FF_FFFF_FFFF_F000u64) as usize + virt_addr % 0x1000),
            tables_on_taken_pages(old(mem)@, old(alloc).base(), old(alloc).free())
                && region_addressable(old(alloc).base(), old(alloc).free()) && walk_reaches_new_leaf(
                *old(self),
                old(mem)@,
                virt_addr,
            ) && permissions.value() != 0 ==> (walk_leaf(*final(self), final(mem)@, virt_addr) matches Some(w)
                && pte_valid(w) && pte_global(w) && pte_perm(w) == permissions.value()),
    {
        let ghost root0 = *self;
        let ghost mem0 = mem@;
        let ghost free0 = alloc.free();
        let ghost base = alloc.base();
        let ghost fresh = tables_on_taken_pages(mem0, base, free0);
        let phys_addr2 = phys_addr & !(PAGE_SIZE - 1);
        let (vpn2, vpn1, vpn0) = split_virt_addr_sv39(virt_addr);
        let root_entry = self.entries[vpn2 as usize];
        let ghost mut n1: int = -1;
        let level1_addr = if root_entry.valid() {
            root_entry.physical_addr()
        } else {
            proof {
                lemma_next_page(free0);
                n1 = next_page(free0);
            }
            let new_addr = zallocate_table(mem, alloc);
            let ghost before = *self;
            let pe = pointer_entry(new_addr);
            self.entries[vpn2 as usize] = pe;
            proof {
                pe.lemma_from_value();
                assert(self.entries =~= table_set(before, vpn2 as int, pointer_word(new_addr as u64)).entries) by {
                    lemma_table_set(before, vpn2 as int, pointer_word(new_addr as u64));
                    vstd::array::axiom_spec_array_update(before.entries, vpn2 as int, Sv39PTE::spec_from_bits(pointer_word(new_addr as u64)));
                }
            }
            proof {
                if fresh {
                    assert(!mem0.contains_key(new_addr)) by {
                        if mem0.contains_key(new_addr) {
                            assert(free0[n1]);
                        }
                    }
                }
                if region_addressable(base, free0) {
                    lemma_page_addr_exact(base, free0, n1);
                }
            }
            new_addr
        };
        let ghost mem1 = mem@;
        let ghost free1 = alloc.free();
        assert(mem1.contains_key(level1_addr));
        let level1_entry = mem.read(level1_addr).unwrap().entries[vpn1 as usize];
        let ghost mut n2: int = -1;
        proof {
            assert(level1_entry.value() == word(mem1[level1_addr], vpn1_of(virt_addr)));
            if !pte_valid(root_entry.value()) {
                assert(word(mem1[level1_addr], vpn1_of(virt_addr)) == 0);
                crate::sv39_pte::lemma_word_bits(0, 0);
            } else {
                assert(mem1 == mem0);
                assert(level1_addr == next_table(word(root0, vpn2_of(virt_addr))));
            }
        }
        let level2_addr = if level1_entry.valid() {
            level1_entry.physical_addr()
        } else {
            proof {
                lemma_next_page(free1);
                n2 = next_page(free1);
                if n1 >= 0 {
                    assert(!free1[n1]);
                    lemma_page_addr_distinct(base, n1, n2);
                }
            }
            let new_addr = zallocate_table(mem, alloc);
            proof {
                if fresh {
                    assert(!mem0.contains_key(new_addr)) by {
                        if mem0.contains_key(new_addr) {
                            assert(free0[n2]);
                        }
                    }
                }
                if region_addressable(base, free0) {
                    lemma_page_addr_exact(base, free0, n2);
                }
            }
            let mut t = mem.read(level1_addr).unwrap();
            let ghost t0 = t;
            let pe = pointer_entry(new_addr);
            t.entries[vpn1 as usize] = pe;
            proof {
                pe.lemma_from_value();
                vstd::array::axiom_spec_array_update(t0.entries, vpn1 as int, Sv39PTE::spec_from_bits(pointer_word(new_addr as u64)));
                assert(t.entries =~= table_set(t0, vpn1 as int, pointer_word(new_addr as u64)).entries);
            }
            mem.write(level1_addr, t);
            new_addr
        };
        let ghost mem2 = mem@;
        assert(mem2.contains_key(level2_addr));
        let mut level2_table = mem.read(level2_addr).unwrap();
        let ghost t2 = level2_table;
        let le = leaf_entry(phys_addr2, permissions);
        level2_table.entries[vpn0 as usize] = le;
        proof {
            le.lemma_from_value();
            vstd::array::axiom_spec_array_update(t2.entries, vpn0 as int, Sv39PTE::spec_from_bits(leaf_word(phys_addr2 as u64, permissions.value() as u64)));
            assert(level2_table.entries =~= table_set(t2, vpn0 as int, leaf_word(phys_addr2 as u64, permissions.value() as u64)).entries);
            assert(phys_addr2 == phys_addr - phys_addr % PAGE_SIZE) by {
                crate::sv39_pte::lemma_usize_bits(phys_addr);
            }
        }
        mem.write(level2_addr, level2_table);
        proof {
            permissions.lemma_wf();
            lemma_leaf_addr(phys_addr, phys_addr2, permissions.value() as u64);
            reveal_with_fuel(free_after_allocs, 3);
            if fresh {
                assert(tables_on_taken_pages(mem@, base, alloc.free()));
                assert(entries_kept(root0, mem0, *self, mem@));
            }
        }
    }

    /// Unmaps a 4KiB page: where the walk of `virt_addr` reaches a last-level table through
    /// valid entries, the valid bit of its entry is cleared; otherwise nothing changes.
    pub fn unmap_page(&mut self, mem: &mut TableMemory<Sv39Table>, virt_addr: usize)
        requires
            unmap_page_ready(*old(self), old(mem)@, virt_addr),
        ensures
            *final(self) == *old(self),
            final(mem)@ == unmap_page_post(*old(self), old(mem)@, virt_addr),
            ({
                let e2 = word(*old(self), vpn2_of(virt_addr));
                let e1 = word(old(mem)@[next_table(e2)], vpn1_of(virt_addr));
                pte_perm(e2) == 0 && (pte_valid(e2) && pte_valid(e1) ==> pte_perm(e1) == 0)
            }) ==> translate(*final(self), final(mem)@, virt_addr) is None,
    {
        let (vpn2, vpn1, vpn0) = split_virt_addr_sv39(virt_addr);
        let root_entry = self.entries[vpn2 as usize];
        if !root_entry.valid() {
            return;
        }
        let level1_table = mem.read(root_entry.physical_addr()).unwrap();
        let level1_entry = level1_table.entries[vpn1 as usize];
        if !level1_entry.valid() {
            return;
        }
        let level2_addr = level1_entry.physical_addr();
        let mut level2_table = mem.read(level2_addr).unwrap();
        let ghost t2 = level2_table;
        let mut e = level2_table.entries[vpn0 as usize];
        let old_bits = e.into_bits();
        e.set_valid(false);
        let b = e.into_bits();
        proof {
            crate::sv39_pte::lemma_word_bits(b, old_bits);
        }
        level2_table.entries[vpn0 as usize] = e;
        mem.write(level2_addr, level2_table);
        proof {
            e.lemma_from_value();
            vstd::array::axiom_spec_array_update(t2.entries, vpn0 as int, Sv39PTE::spec_from_bits(b));
            assert(level2_table.entries =~= table_set(t2, vpn0 as int, b).entries);
            lemma_table_set(t2, vpn0 as int, b);
            assert(!pte_valid(b)) by {
                assert(b & 1 != 1 ==> !(b & 1 == 1));
            }
        }
    }

    /// Maps a range of pages with [`Self::map_page`]: the begin address is rounded down and
    /// the end address up; page `i` of the range goes to the `i`-th page from the page of
    /// `phys_addr_begin`.
    pub fn map_page_range<const PAGES: usize>(
        &mut self,
        mem: &mut TableMemory<Sv39Table>,
        alloc: &mut PhysicalPageAllocator<PAGES>,
        virt_addr_begin: usize,
        virt_addr_end: usize,
        phys_addr_begin: usize,
        permissions: XWRPermissions,
    )
        requires
            old(alloc).wf(),
            old(alloc).base() != 0,
            permissions.wf(),
            round_up_page(virt_addr_end as int) <= usize::MAX,
            round_up_page(virt_addr_end as int) >= virt_addr_begin - (virt_addr_begin % PAGE_SIZE) as int,
            ((phys_addr_begin / PAGE_SIZE) as int + range_pages(virt_addr_begin, virt_addr_end))
                * PAGE_SIZE <= usize::MAX + 1,
            map_range_ready(
                *old(self),
                old(mem)@,
                old(alloc).base(),
                old(alloc).free(),
                (virt_addr_begin / PAGE_SIZE) as int,
                (phys_addr_begin / PAGE_SIZE) as int,
                range_pages(virt_addr_begin, virt_addr_end) as nat,
                permissions.value() as u64,
            ),
        ensures
            final(alloc).wf(),
            final(alloc).base() == old(alloc).base(),
            (*final(self), final(mem)@, final(alloc).free()) == map_range_post(
                *old(self),
                old(mem)@,
                old(alloc).base(),
                old(alloc).free(),
                (virt_addr_begin / PAGE_SIZE) as int,
                (phys_addr_begin / PAGE_SIZE) as int,
                range_pages(virt_addr_begin, virt_addr_end) as nat,
                permissions.value() as u64,
            ),
    {
        let (virt_offset, len) = page_range(virt_addr_begin, virt_addr_end);
        let phys_offset = phys_addr_begin / PAGE_SIZE;
        let ghost base = alloc.base();
        let ghost p = permissions.value() as u64;
        let ghost target = map_range_post(
            *self,
            mem@,
            base,
            alloc.free(),
            virt_offset as int,
            phys_offset as int,
            len as nat,
            p,
        );
        let mut i: usize = 0;
        while i < len
            invariant
                alloc.wf(),
                alloc.base() == base,
                base != 0,
                permissions.wf(),
                p == permissions.value() as u64,
                i <= len,
                virt_offset == virt_addr_begin / PAGE_SIZE,
                phys_offset == phys_addr_begin / PAGE_SIZE,
                len == range_pages(virt_addr_begin, virt_addr_end),
                (virt_offset + len) * PAGE_SIZE <= usize::MAX + 1,
                (phys_offset + len) * PAGE_SIZE <= usize::MAX + 1,
                map_range_ready(*self, mem@, base, alloc.free(), virt_offset + i, phys_offset + i, (len - i) as nat, p),
                map_range_post(*self, mem@, base, alloc.free(), virt_offset + i, phys_offset + i, (len - i) as nat, p) == target,
            decreases len - i,
        {
            proof {
                assert((virt_offset + i + 1) * PAGE_SIZE <= (virt_offset + len) * PAGE_SIZE) by (nonlinear_arith)
                    requires i < len;
                assert((phys_offset + i + 1) * PAGE_SIZE <= (phys_offset + len) * PAGE_SIZE) by (nonlinear_arith)
                    requires i < len;
            }
            let virt_addr = (i + virt_offset) * PAGE_SIZE;
            let phys_addr = (i + phys_offset) * PAGE_SIZE;
            proof {
                assert(phys_addr % PAGE_SIZE == 0) by (nonlinear_arith)
                    requires phys_addr == (i + phys_offset) * PAGE_SIZE;
            }
            self.map_page(mem, alloc, virt_addr, phys_addr, permissions);
            i = i + 1;
        }
    }

    /// Unmaps a range of pages with [`Self::unmap_page`], rounding as [`Self::map_page_range`]
    /// does.
    pub fn unmap_page_range(&mut self, mem: &mut TableMemory<Sv39Table>, virt_addr_begin: usize, virt_addr_end: usize)
        requires
            round_up_page(virt_addr_end as int) <= usize::MAX,
            round_up_page(virt_addr_end as int) >= virt_addr_begin - (virt_addr_begin % PAGE_SIZE) as int,
            unmap_range_ready(
                *old(self),
                old(mem)@,
                (virt_addr_begin / PAGE_SIZE) as int,
                range_pages(virt_addr_begin, virt_addr_end) as nat,
            ),
        ensures
            *final(self) == *old(self),
            final(mem)@ == unmap_range_post(
                *old(self),
                old(mem)@,
                (virt_addr_begin / PAGE_SIZE) as int,
                range_pages(virt_addr_begin, virt_addr_end) as nat,
            ),
    {
        let (virt_offset, len) = page_range(virt_addr_begin, virt_addr_end);
        let ghost target = unmap_range_post(*self, mem@, virt_offset as int, len as nat);
        let mut i: usize = 0;
        while i < len
            invariant
                i <= len,
                *self == *old(self),
                virt_offset == virt_addr_begin / PAGE_SIZE,
                len == range_pages(virt_addr_begin, virt_addr_end),
                (virt_offset + len) * PAGE_SIZE <= usize::MAX + 1,
                unmap_range_ready(*self, mem@, virt_offset + i, (len - i) as nat),
                unmap_range_post(*self, mem@, virt_offset + i, (len - i) as nat) == target,
            decreases len - i,
        {
            proof {
                assert((virt_offset + i + 1) * PAGE_SIZE <= (virt_offset + len) * PAGE_SIZE) by (nonlinear_arith)
                    requires i < len;
            }
            let virt_addr = (i + virt_offset) * PAGE_SIZE;
            self.unmap_page(mem, virt_addr);
            i = i + 1;
        }
    }

    /// Deep frees this page table, which lives at `self_addr`: for each pointer entry of the
    /// root (valid, permission bits clear), every page that its table's pointer entries point
    /// to, then that table; then the root itself. Each is handed back to the
    /// allocator as one page.
    pub fn deep_free<const PAGES: usize>(
        &self,
        self_addr: usize,
        mem: &TableMemory<Sv39Table>,
        alloc: &mut PhysicalPageAllocator<PAGES>,
    )
        requires
            old(alloc).wf(),
            old(alloc).base() != 0,
            pointed_tables_held(*self, mem@),
            forall|n: int|
                0 <= n < deep_free_addrs(*self, mem@, self_addr).len() ==> dealloc_in_region(
                    old(alloc).base(),
                    old(alloc).free(),
                    #[trigger] deep_free_addrs(*self, mem@, self_addr)[n],
                ),
        ensures
            final(alloc).wf(),
            final(alloc).base() == old(alloc).base(),
            final(alloc).free() == free_after_deallocs(
                old(alloc).free(),
                old(alloc).base(),
                deep_free_addrs(*self, mem@, self_addr),
            ),
    {
        let ghost base = alloc.base();
        let ghost free0 = alloc.free();
        let ghost all = deep_free_addrs(*self, mem@, self_addr);
        let ghost mut done: Seq<usize> = Seq::empty();
        proof {
            assert(pages_for(PAGE_SIZE as int) == 1);
        }
        let mut i: usize = 0;
        while i < 512
            invariant
                i <= 512,
                alloc.wf(),
                alloc.base() == base,
                base != 0,
                alloc.free().len() == free0.len(),
                pointed_tables_held(*self, mem@),
                all == deep_free_addrs(*self, mem@, self_addr),
                forall|n: int| 0 <= n < all.len() ==> dealloc_in_region(base, free0, #[trigger] all[n]),
                done == freed_tables(*self, mem@, i as int),
                alloc.free() == free_after_deallocs(free0, base, done),
            decreases 512 - i,
        {
            let level1_entry = self.entries[i];
            if points_to_next_level(&level1_entry) {
                proof {
                    assert(level1_entry.value() == word(*self, i as int));
                    assert(is_pointer(word(*self, i as int)));
                }
                let level1_addr = level1_entry.physical_addr();
                let level1_table = mem.read(level1_addr).unwrap();
                let ghost prefix = done;
                let mut k: usize = 0;
                while k < 512
                    invariant
                        k <= 512,
                        i < 512,
                        alloc.wf(),
                        alloc.base() == base,
                        base != 0,
                        alloc.free().len() == free0.len(),
                        all == deep_free_addrs(*self, mem@, self_addr),
                        forall|n: int| 0 <= n < all.len() ==> dealloc_in_region(base, free0, #[trigger] all[n]),
                        prefix == freed_tables(*self, mem@, i as int),
                        is_pointer(word(*self, i as int)),
                        level1_addr == next_table(word(*self, i as int)),
                        level1_table == mem@[level1_addr],
                        done == prefix + pointer_targets(level1_table, k as int),
                        alloc.free() == free_after_deallocs(free0, base, done),
                    decreases 512 - k,
                {
                    let level2_entry = level1_table.entries[k];
                    if points_to_next_level(&level2_entry) {
                        let a = level2_entry.physical_addr();
                        proof {
                            let n = done.len() as int;
                            assert(level2_entry.value() == word(level1_table, k as int));
                            assert(is_pointer(word(level1_table, k as int)));
                            let pk = pointer_targets(level1_table, k as int);
                            assert(pointer_targets(level1_table, k + 1) == pk.push(a));
                            lemma_pointer_targets_prefix(level1_table, k + 1, 512);
                            let p512 = pointer_targets(level1_table, 512);
                            assert(p512[pk.len() as int] == a) by {
                                assert(p512.subrange(0, pk.len() as int + 1)[pk.len() as int] == a);
                            }
                            lemma_freed_tables_prefix(*self, mem@, i + 1, 512);
                            let full = freed_tables(*self, mem@, (i + 1) as int);
                            assert(full == prefix + pointer_targets(level1_table, 512).push(level1_addr));
                            let f512 = freed_tables(*self, mem@, 512);
                            assert(n < full.len());
                            assert(f512.subrange(0, full.len() as int)[n] == full[n]);
                            assert(full[n] == p512[pk.len() as int]);
                            assert(all[n] == f512[n]);
                            assert(all[n] == a);
                            assert(dealloc_in_region(base, free0, all[n]));
                        }
                        alloc.deallocate(a, PAGE_SIZE);
                        proof {
                            let d2 = done.push(a);
                            assert(d2.drop_last() =~= done);
                            done = d2;
                            assert(done =~= prefix + pointer_targets(level1_table, k + 1));
                        }
                    } else {
                        proof {
                            assert(done =~= prefix + pointer_targets(level1_table, k + 1));
                        }
                    }
                    k = k + 1;
                }
                proof {
                    let n = done.len() as int;
                    lemma_freed_tables_prefix(*self, mem@, i + 1, 512);
                    let full = freed_tables(*self, mem@, (i + 1) as int);
                    assert(full =~= done.push(level1_addr));
                    let f512 = freed_tables(*self, mem@, 512);
                    assert(f512.subrange(0, full.len() as int)[n] == full[n]);
                    assert(all[n] == f512[n]);
                    assert(all[n] == level1_addr);
                }
                alloc.deallocate(level1_addr, PAGE_SIZE);
                proof {
                    let d2 = done.push(level1_addr);
                    assert(d2.drop_last() =~= done);
                    done = d2;
                }
            } else {
                proof {
                    assert(done =~= freed_tables(*self, mem@, i + 1));
                }
            }
            i = i + 1;
        }
        proof {
            let n = done.len() as int;
            assert(all[n] == self_addr);
        }
        alloc.deallocate(self_addr, PAGE_SIZE);
        proof {
            let d2 = done.push(self_addr);
            assert(d2.drop_last() =~= done);
            assert(d2 =~= all);
        }
    }

    /// Makes a deep clone of this page table for an address space moved from `old_base` to
    /// `new_base`: each new table is allocated, zeroed, and written at its page's address moved
    /// by `new_base - old_base`; every pointer entry (valid, permission bits clear), in the root copy
    /// and in each level-1 copy, is rebuilt to point at the physical address that `current_pt`
    /// translates its copy's moved address to. Returns the root copy's address.
    pub fn deep_clone<const PAGES: usize>(
        &self,
        mem: &mut TableMemory<Sv39Table>,
        alloc: &mut PhysicalPageAllocator<PAGES>,
        current_pt: &Sv39Table,
        old_base: usize,
        new_base: usize,
    ) -> (r: usize)
        requires
            old(alloc).wf(),
            old(alloc).base() != 0,
            old_base <= new_base,
            deep_clone_ready(*self, old(mem)@, old(alloc).base(), old(alloc).free(), (new_base - old_base) as usize, *current_pt),
        ensures
            final(alloc).wf(),
            final(alloc).base() == old(alloc).base(),
            r == alloc_addr(old(alloc).base(), old(alloc).free()) + (new_base - old_base),
            (final(mem)@, final(alloc).free()) == deep_clone_post(
                *self,
                old(mem)@,
                old(alloc).base(),
                old(alloc).free(),
                (new_base - old_base) as usize,
                *current_pt,
            ),
    {
        let delta = new_base - old_base;
        let ghost base = alloc.base();
        let ghost target = deep_clone_post(*self, mem@, base, alloc.free(), delta, *current_pt);
        proof {
            lemma_next_page(alloc.free());
        }
        let root_page = zallocate_table(mem, alloc);
        let root_addr = root_page + delta;
        mem.write(root_addr, *self);
        let mut i: usize = 0;
        while i < 512
            invariant
                i <= 512,
                alloc.wf(),
                alloc.base() == base,
                base != 0,
                clone_level1_ready(mem@, alloc.free(), base, delta, root_addr, i as int, *current_pt),
                clone_level1(mem@, alloc.free(), base, delta, root_addr, i as int, *current_pt) == target,
            decreases 512 - i,
        {
            let ghost mem_i = mem@;
            let ghost free_i = alloc.free();
            let level1_entry = mem.read(root_addr).unwrap().entries[i];
            if points_to_next_level(&level1_entry) {
                proof {
                    lemma_next_page(alloc.free());
                    assert(level1_entry.value() == word(mem_i[root_addr], i as int));
                }
                let level1_page = zallocate_table(mem, alloc);
                let level1_clone = level1_page + delta;
                let cur1 = mem.read(root_addr).unwrap().entries[i];
                let old_level1 = mem.read(cur1.physical_addr()).unwrap();
                mem.write(level1_clone, old_level1);
                let ghost l2_target = clone_level2(mem@, alloc.free(), base, delta, level1_clone, 0, *current_pt);
                let mut k: usize = 0;
                while k < 512
                    invariant
                        k <= 512,
                        i < 512,
                        alloc.wf(),
                        alloc.base() == base,
                        base != 0,
                        mem@.contains_key(root_addr),
                        clone_level2_ready(mem@, alloc.free(), base, delta, level1_clone, k as int, *current_pt),
                        clone_level2(mem@, alloc.free(), base, delta, level1_clone, k as int, *current_pt) == l2_target,
                        clone_level1_ready(mem_i, free_i, base, delta, root_addr, i as int, *current_pt),
                        clone_level1(mem_i, free_i, base, delta, root_addr, i as int, *current_pt) == target,
                        is_pointer(word(mem_i[root_addr], i as int)),
                        mem_i.contains_key(root_addr),
                        level1_clone == (alloc_addr(base, free_i) + delta) as usize,
                        l2_target == clone_level2(
                            mem_i.insert(alloc_addr(base, free_i), zero_table()).insert(
                                level1_clone,
                                mem_i.insert(alloc_addr(base, free_i), zero_table())[next_table(
                                    word(mem_i.insert(alloc_addr(base, free_i), zero_table())[root_addr], i as int),
                                )],
                            ),
                            after_alloc_page(free_i),
                            base,
                            delta,
                            level1_clone,
                            0,
                            *current_pt,
                        ),
                    decreases 512 - k,
                {
                    let level2_entry = mem.read(level1_clone).unwrap().entries[k];
                    if points_to_next_level(&level2_entry) {
                        proof {
                            lemma_next_page(alloc.free());
                        }
                        let level2_page = zallocate_table(mem, alloc);
                        let level2_clone = level2_page + delta;
                        let cur2 = mem.read(level1_clone).unwrap().entries[k];
                        let old_level2 = mem.read(cur2.physical_addr()).unwrap();
                        mem.write(level2_clone, old_level2);
                        let x = current_pt.virt_to_phys(mem, level2_clone);
                        let now2 = mem.read(level1_clone).unwrap().entries[k];
                        let e = rebuilt_entry(x, now2);
                        mem_write_entry(mem, level1_clone, k, e);
                    }
                    k = k + 1;
                }
                let x = current_pt.virt_to_phys(mem, level1_clone);
                let now1 = mem.read(root_addr).unwrap().entries[i];
                let e = rebuilt_entry(x, now1);
                mem_write_entry(mem, root_addr, i, e);
            }
            i = i + 1;
        }
        root_addr
    }

    /// Looks up a virtual address.
    pub fn virt_to_phys(&self, mem: &TableMemory<Sv39Table>, virt_addr: usize) -> (pa: usize)
        requires
            translate(*self, mem@, virt_addr) is Some,
            translate(*self, mem@, virt_addr).unwrap() <= usize::MAX,
        ensures
            pa == translate(*self, mem@, virt_addr).unwrap(),
            ({
                let e2 = word(*self, vpn2_of(virt_addr));
                pte_valid(e2) && pte_perm(e2) != 0 ==> pa == next_table(e2) + virt_addr % 0x40000000
            }),
            ({
                let e2 = word(*self, vpn2_of(virt_addr));
                let e1 = word(mem@[next_table(e2)], vpn1_of(virt_addr));
                pte_valid(e2) && pte_perm(e2) == 0 && pte_valid(e1) && pte_perm(e1) != 0 ==> pa
                    == next_table(e1) + virt_addr % 0x200000
            }),
            ({
                let e2 = word(*self, vpn2_of(virt_addr));
                let e1 = word(mem@[next_table(e2)], vpn1_of(virt_addr));
                let e0 = word(mem@[next_table(e1)], vpn0_of(virt_addr));
                pte_valid(e2) && pte_perm(e2) == 0 && pte_valid(e1) && pte_perm(e1) == 0 ==> pa
                    == next_table(e0) + virt_addr % 0x1000
            }),
    {
        let (vpn2, vpn1, vpn0) = split_virt_addr_sv39(virt_addr);
        proof {
            lemma_index_shifts(vpn1 as usize, vpn0 as usize);
        }
        let root_entry = self.entries[vpn2 as usize];
        if root_entry.permissions().bits() != 0 {
            let phys_gaddr = root_entry.physical_addr();
            return phys_gaddr + virt_addr % ONEGIG;
        }
        let level1_table = mem.read(root_entry.physical_addr()).unwrap();
        let level1_entry = level1_table.entries[vpn1 as usize];
        if level1_entry.permissions().bits() != 0 {
            let phys_gaddr = level1_entry.physical_addr();
            return phys_gaddr + virt_addr % 0x200000;
        }
        let level2_table = mem.read(level1_entry.physical_addr()).unwrap();
        let level2_entry = level2_table.entries[vpn0 as usize];
        let phys_gaddr = level2_entry.physical_addr();
        phys_gaddr + virt_addr % PAGE_SIZE
    }
}

} // verus!
