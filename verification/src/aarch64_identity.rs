//! What the identity mapping of low memory gives: every address below 4 GiB translates to
//! itself.
use vstd::prelude::*;
use crate::page_alloc::PAGE_SIZE;
use crate::sv39_table::{alloc_addr, next_page, after_alloc_page, lemma_next_page, page_addr};
use crate::sv39_clone::new_page;
use crate::aarch64_mmu::{
    PageTable, ADDR_MASK, aword, azero_table, lemma_azero_table, atable_set, lemma_atable_set, a_valid,
    a_is_table, a_phys, a_index, a_offset_mask, table_pointer_word, block_word, entry_at, descend,
    descend_ready, amap_page_post, atranslate_from, awalk_completes, identity_post, identity_ready,
};

verus! {

/// Whether `x` is a valid block entry word for the address `pa`.
pub open spec fn block_at(x: u64, pa: int) -> bool {
    a_valid(x) && !a_is_table(x) && a_phys(x) == pa
}

/// The state after mapping the 2 MiB blocks `0 .. i` to themselves: each of the first four
/// root entries that a mapped block falls under is a valid table entry for its own new
/// table, which holds a block entry for each mapped block; the other of the four are invalid.
pub open spec fn identity_upto(
    root: PageTable,
    mem: Map<usize, PageTable>,
    base: usize,
    free0: Seq<bool>,
    free: Seq<bool>,
    i: int,
) -> bool {
    &&& free.len() == free0.len()
    &&& forall|j: int| 0 <= j < free.len() && #[trigger] free[j] ==> free0[j]
    &&& forall|g: int|
        0 <= g < 4 ==> if g * 512 < i {
            let t = a_phys(#[trigger] aword(root, g));
            &&& a_valid(aword(root, g))
            &&& a_is_table(aword(root, g))
            &&& new_page(base, free0, free, t)
            &&& mem.contains_key(t)
            &&& forall|k: int|
                0 <= k < 512 && g * 512 + k < i ==> block_at(#[trigger] aword(mem[t], k), (g * 512 + k) * 0x200000)
        } else {
            !a_valid(aword(root, g))
        }
    &&& forall|g: int, h: int|
        0 <= g < 4 && 0 <= h < 4 && g != h && g * 512 < i && h * 512 < i ==> a_phys(#[trigger] aword(root, g))
            != a_phys(#[trigger] aword(root, h))
}

/// Address facts of a 2 MiB block below 4 GiB.
proof fn lemma_block_addr(i: int)
    requires
        0 <= i < 2048,
    ensures
        ({
            let a = (i * 0x200000) as usize;
            &&& a == i * 0x200000
            &&& a_index(a, 0) == i / 512
            &&& a_index(a, 1) == i % 512
            &&& (((a as u64) & ADDR_MASK) as usize) == a
        }),
{
    assert(i * 0x200000 < 0x1_0000_0000) by (nonlinear_arith)
        requires 0 <= i < 2048;
    assert(i * 0x200000 >= 0) by (nonlinear_arith)
        requires 0 <= i;
    let a = (i * 0x200000) as usize;
    assert((i * 0x200000) / 0x40000000 == i / 512) by (nonlinear_arith)
        requires 0 <= i;
    assert((i * 0x200000) / 0x200000 == i) by (nonlinear_arith);
    assert((i * 0x200000) % 0x1000 == 0) by (nonlinear_arith);
    let x = a as u64;
    assert(x & 0xFFFF_FFFF_F000u64 == x) by (bit_vector)
        requires
            x % 0x1000 == 0,
            x < 0x1_0000_0000,
    ;
}

/// A table-pointer word for a page-aligned address below 2^48 holds that address.
proof fn lemma_table_pointer_addr(w: u64, n: u64)
    requires
        n % 0x1000 == 0,
        n < 0x1_0000_0000_0000,
    ensures
        (table_pointer_word(w, n) & ADDR_MASK) == n,
{
    assert(((w & !0xFFFF_FFFF_F000u64) | (((n >> 12) << 12) & 0xFFFF_FFFF_F000u64) | 0x403u64)
        & 0xFFFF_FFFF_F000u64 == n) by (bit_vector)
        requires
            n % 0x1000 == 0,
            n < 0x1_0000_0000_0000,
    ;
}

/// A block word is a valid block for its address.
proof fn lemma_block_at(w: u64, pa: usize)
    requires
        (((pa as u64) & ADDR_MASK) as usize) == pa,
    ensures
        block_at(block_word(w, pa), pa as int),
{
    assert(a_valid(block_word(w, pa)) && !a_is_table(block_word(w, pa)) && a_phys(block_word(w, pa))
        == ((pa as u64) & ADDR_MASK) as usize) by {
        crate::aarch64_mmu::lemma_block_word(w, pa);
    }
}

/// Mapping block `i` keeps the state of blocks `0 .. i` and adds block `i`.
proof fn lemma_identity_step(
    root: PageTable,
    mem: Map<usize, PageTable>,
    base: usize,
    free0: Seq<bool>,
    free: Seq<bool>,
    i: int,
)
    requires
        0 <= i < 2048,
        base != 0,
        base % PAGE_SIZE == 0,
        base + free0.len() * PAGE_SIZE <= 0x1_0000_0000_0000,
        base + free0.len() * PAGE_SIZE <= usize::MAX,
        identity_upto(root, mem, base, free0, free, i),
        descend_ready(root, mem, base, free, None, (i * 0x200000) as usize, 0, 1),
    ensures
        ({
            let s = amap_page_post(root, mem, base, free, (i * 0x200000) as usize, (i * 0x200000) as usize, 1);
            identity_upto(s.0, s.1, base, free0, s.2, i + 1)
        }),
{
    let a = (i * 0x200000) as usize;
    lemma_block_addr(i);
    let g0 = i / 512;
    let k0 = i % 512;
    let w = aword(root, g0);
    let s = amap_page_post(root, mem, base, free, a, a, 1);
    reveal_with_fuel(descend, 2);
    if !a_valid(w) {
        // the first block under root entry `g0`: a new table
        assert(k0 == 0);
        let n = alloc_addr(base, free);
        let nn = next_page(free);
        lemma_next_page(free);
        assert(nn * PAGE_SIZE + PAGE_SIZE <= free.len() * PAGE_SIZE) by (nonlinear_arith)
            requires 0 <= nn < free.len();
        assert(nn * PAGE_SIZE >= 0) by (nonlinear_arith) requires nn >= 0;
        assert(n as int == page_addr(base, nn));
        assert((base + nn * PAGE_SIZE) % PAGE_SIZE as int == 0) by (nonlinear_arith)
            requires base as int % PAGE_SIZE as int == 0;
        assert((nn * PAGE_SIZE) / PAGE_SIZE as int == nn) by (nonlinear_arith);
        assert((nn * PAGE_SIZE) % PAGE_SIZE as int == 0) by (nonlinear_arith);
        let f1 = after_alloc_page(free);
        let mem_z = mem.insert(n, azero_table());
        let w1 = table_pointer_word(aword(root, g0), n as u64);
        lemma_table_pointer_addr(aword(root, g0), n as u64);
        crate::aarch64_mmu::lemma_table_pointer_word(aword(root, g0), n as u64);
        assert(a_phys(w1) == n);
        let r1 = atable_set(root, g0, w1);
        lemma_atable_set(root, g0, w1);
        lemma_azero_table();
        let bw = block_word(aword(mem_z[n], k0), a);
        let t1 = atable_set(mem_z[n], k0, bw);
        lemma_atable_set(mem_z[n], k0, bw);
        lemma_block_at(aword(mem_z[n], k0), a);
        assert(s.0 == r1);
        assert(s.1 == mem_z.insert(n, t1));
        assert(s.2 == f1);
        assert(new_page(base, free0, f1, n)) by {
            assert(free0[nn]);
        }
        assert forall|j: int| 0 <= j < f1.len() && #[trigger] f1[j] implies free0[j] by {
            assert(free[j]);
        }
        assert forall|g: int| 0 <= g < 4 && g != g0 && g * 512 < i implies a_phys(#[trigger] aword(root, g)) != n
            && new_page(base, free0, f1, a_phys(aword(root, g))) by {
            let t = a_phys(aword(root, g));
            let jt = (t - base) / PAGE_SIZE as int;
            assert(new_page(base, free0, free, t));
            assert(!free[jt]);
            assert(jt != nn);
            vstd::arithmetic::div_mod::lemma_fundamental_div_mod((t - base) as int, PAGE_SIZE as int);
            assert(t == page_addr(base, jt));
            crate::sv39_table::lemma_page_addr_distinct(base, jt, nn);
        }
        assert forall|g: int|
            0 <= g < 4 implies if g * 512 < i + 1 {
                let t = a_phys(#[trigger] aword(s.0, g));
                &&& a_valid(aword(s.0, g))
                &&& a_is_table(aword(s.0, g))
                &&& new_page(base, free0, s.2, t)
                &&& s.1.contains_key(t)
                &&& forall|k: int|
                    0 <= k < 512 && g * 512 + k < i + 1 ==> block_at(#[trigger] aword(s.1[t], k), (g * 512 + k) * 0x200000)
            } else {
                !a_valid(aword(s.0, g))
            } by {
            if g == g0 {
                assert forall|k: int| 0 <= k < 512 && g * 512 + k < i + 1 implies block_at(
                    #[trigger] aword(s.1[n], k),
                    (g * 512 + k) * 0x200000,
                ) by {
                    assert(k == k0);
                }
            } else if g * 512 < i {
                let t = a_phys(aword(root, g));
                assert(s.1[t] == mem[t]);
            }
        }
    } else {
        // block `i` goes into the table of root entry `g0`
        assert(g0 * 512 < i);
        let t = a_phys(w);
        let bw = block_word(aword(mem[t], k0), a);
        let t1 = atable_set(mem[t], k0, bw);
        lemma_atable_set(mem[t], k0, bw);
        lemma_block_at(aword(mem[t], k0), a);
        assert(s.0 == root);
        assert(s.1 == mem.insert(t, t1));
        assert(s.2 == free);
        assert forall|g: int|
            0 <= g < 4 implies if g * 512 < i + 1 {
                let tg = a_phys(#[trigger] aword(s.0, g));
                &&& a_valid(aword(s.0, g))
                &&& a_is_table(aword(s.0, g))
                &&& new_page(base, free0, s.2, tg)
                &&& s.1.contains_key(tg)
                &&& forall|k: int|
                    0 <= k < 512 && g * 512 + k < i + 1 ==> block_at(#[trigger] aword(s.1[tg], k), (g * 512 + k) * 0x200000)
            } else {
                !a_valid(aword(s.0, g))
            } by {
            if g == g0 {
                assert forall|k: int| 0 <= k < 512 && g * 512 + k < i + 1 implies block_at(
                    #[trigger] aword(s.1[t], k),
                    (g * 512 + k) * 0x200000,
                ) by {
                    if k != k0 {
                        assert(aword(s.1[t], k) == aword(mem[t], k));
                    }
                }
            } else if g * 512 < i {
                assert(a_phys(aword(root, g)) != t);
            } else {
                assert(g * 512 >= i + 1);
            }
        }
    }
}

/// Mapping blocks `i .. i + n` after blocks `0 .. i` gives the state of blocks `0 .. i + n`.
proof fn lemma_identity_run(
    root: PageTable,
    mem: Map<usize, PageTable>,
    base: usize,
    free0: Seq<bool>,
    free: Seq<bool>,
    i: int,
    n: nat,
)
    requires
        0 <= i,
        i + n <= 2048,
        base != 0,
        base % PAGE_SIZE == 0,
        base + free0.len() * PAGE_SIZE <= 0x1_0000_0000_0000,
        base + free0.len() * PAGE_SIZE <= usize::MAX,
        identity_upto(root, mem, base, free0, free, i),
        identity_ready(root, mem, base, free, i, n),
    ensures
        ({
            let s = identity_post(root, mem, base, free, i, n);
            identity_upto(s.0, s.1, base, free0, s.2, i + n)
        }),
    decreases n,
{
    if n > 0 {
        lemma_identity_step(root, mem, base, free0, free, i);
        let a = (i * 0x200000) as usize;
        let s = amap_page_post(root, mem, base, free, a, a, 1);
        lemma_identity_run(s.0, s.1, base, free0, s.2, i + 1, (n - 1) as nat);
    }
}

/// The walk of an address below 4 GiB in the identity state finds the address itself.
proof fn lemma_identity_lookup(
    root: PageTable,
    mem: Map<usize, PageTable>,
    base: usize,
    free0: Seq<bool>,
    free: Seq<bool>,
    va: usize,
)
    requires
        base != 0,
        identity_upto(root, mem, base, free0, free, 2048),
        va < 2048 * 0x200000,
    ensures
        atranslate_from(root, mem, None, va, 0) == Some(va as int),
        awalk_completes(root, mem, None, va, 0),
{
    let b = va as int / 0x200000;
    let g = a_index(va, 0);
    let k = a_index(va, 1);
    assert(g == b / 512 && k == b % 512 && 0 <= g < 4) by (nonlinear_arith)
        requires
            b == va as int / 0x200000,
            g == (va as int / 0x40000000) % 512,
            k == (va as int / 0x200000) % 512,
            0 <= va < 2048 * 0x200000,
    ;
    assert(g * 512 + k == b) by (nonlinear_arith)
        requires g == b / 512, k == b % 512, b >= 0;
    let t = a_phys(aword(root, g));
    assert(t >= base);
    assert(block_at(aword(mem[t], k), b * 0x200000));
    reveal_with_fuel(atranslate_from, 2);
    reveal_with_fuel(awalk_completes, 2);
    assert(a_offset_mask(1) == 0x1fffff);
    assert(b * 0x200000 + (va & 0x1fffff) == va) by {
        assert(va & 0x1fffff == va % 0x200000) by (bit_vector);
        vstd::arithmetic::div_mod::lemma_fundamental_div_mod(va as int, 0x200000);
    }
    assert(atranslate_from(root, mem, Some(t), va, 1) == Some(va as int));
    assert(awalk_completes(root, mem, Some(t), va, 1));
}

/// Mapping the first 4 GiB in 2 MiB blocks, as [`crate::aarch64_mmu::identity_map_low_memory`]
/// does, makes every address below 4 GiB translate to itself: provided the first four root
/// entries start invalid and the allocator's pages lie page-aligned, above zero and below
/// 2^48.
pub proof fn law_identity_map_low_memory(
    root: PageTable,
    mem: Map<usize, PageTable>,
    base: usize,
    free: Seq<bool>,
    va: usize,
)
    requires
        base != 0,
        base % PAGE_SIZE == 0,
        base + free.len() * PAGE_SIZE <= 0x1_0000_0000_0000,
        base + free.len() * PAGE_SIZE <= usize::MAX,
        forall|g: int| 0 <= g < 4 ==> !a_valid(#[trigger] aword(root, g)),
        identity_ready(root, mem, base, free, 0, 2048),
        va < 2048 * 0x200000,
    ensures
        ({
            let s = identity_post(root, mem, base, free, 0, 2048);
            &&& atranslate_from(s.0, s.1, None, va, 0) == Some(va as int)
            &&& awalk_completes(s.0, s.1, None, va, 0)
        }),
{
    assert(identity_upto(root, mem, base, free, free, 0));
    lemma_identity_run(root, mem, base, free, free, 0, 2048);
    let s = identity_post(root, mem, base, free, 0, 2048);
    lemma_identity_lookup(s.0, s.1, base, free, s.2, va);
}

} // verus!
