//! What a deep clone of an Sv39 page table gives: a table that translates every address as
//! the table it copies.
use vstd::prelude::*;
use crate::page_alloc::PAGE_SIZE;
use crate::sv39_pte::{pte_valid, pte_perm};
use crate::sv39_table::{
    Sv39Table, word, is_pointer, next_table, translate, vpn2_of, page_addr, alloc_addr,
    next_page, after_alloc_page, can_alloc_page, lemma_next_page, tables_on_taken_pages,
    rebuilt_word, mem_set_entry, table_set, lemma_table_set, zero_table, clone_level2,
    clone_level2_ready, clone_level1, clone_level1_ready, clone_step,
    deep_clone_post, deep_clone_ready, vpn1_of, vpn0_of,
};

verus! {

/// The address of the copy of page `j`: `delta` above the page.
pub open spec fn copy_addr(base: usize, delta: usize, j: int) -> usize {
    (page_addr(base, j) + delta) as usize
}

/// The current table maps the copy of every page still free to itself: the walk of its
/// address in `mem` ends at that address.
pub open spec fn copies_map_to_themselves(
    cur: Sv39Table,
    mem: Map<usize, Sv39Table>,
    base: usize,
    delta: usize,
    free: Seq<bool>,
) -> bool {
    forall|j: int|
        0 <= j < free.len() && free[j] ==> translate(cur, mem, #[trigger] copy_addr(base, delta, j))
            == Some(page_addr(base, j) + delta)
}

/// Every table that a pointer entry of `root` points to is in `mem`, and so is every table
/// that a pointer entry of such a table points to.
pub open spec fn tables_held(root: Sv39Table, mem: Map<usize, Sv39Table>) -> bool {
    forall|i: int|
        0 <= i < 512 && is_pointer(#[trigger] word(root, i)) ==> {
            &&& mem.contains_key(next_table(word(root, i)))
            &&& forall|k: int|
                0 <= k < 512 && is_pointer(#[trigger] word(mem[next_table(word(root, i))], k))
                    ==> mem.contains_key(next_table(word(mem[next_table(word(root, i))], k)))
        }
}

/// The page region of the allocator and the region of the copies, `delta` above it:
/// page-aligned, below 2^56, and either the same region or disjoint from it.
pub open spec fn clone_region(base: usize, delta: usize, free: Seq<bool>) -> bool {
    &&& base % PAGE_SIZE == 0
    &&& delta % PAGE_SIZE == 0
    &&& base + delta + free.len() * PAGE_SIZE <= 0x100_0000_0000_0000
    &&& base + delta + free.len() * PAGE_SIZE <= usize::MAX
    &&& delta == 0 || delta >= free.len() * PAGE_SIZE
}

/// No table of `mem` lies in the region of the copies (where it is not the allocator's own).
pub open spec fn copies_clear(mem: Map<usize, Sv39Table>, base: usize, delta: usize, free: Seq<bool>) -> bool {
    delta == 0 || forall|a: usize|
        #[trigger] mem.contains_key(a) ==> !(base + delta <= a < base + delta + free.len() * PAGE_SIZE)
}

/// `a` is the copy of a page that was free in `free0` and is taken in `free`: `delta` above it.
pub open spec fn copy_page(base: usize, delta: usize, free0: Seq<bool>, free: Seq<bool>, a: usize) -> bool {
    a >= delta && new_page(base, free0, free, (a - delta) as usize)
}

/// `a` is a page that was free in `free0` and is taken in `free`.
pub open spec fn new_page(base: usize, free0: Seq<bool>, free: Seq<bool>, a: usize) -> bool {
    let j = (a - base) / PAGE_SIZE as int;
    &&& a >= base
    &&& (a - base) % PAGE_SIZE as int == 0
    &&& 0 <= j < free.len()
    &&& free0[j]
    &&& !free[j]
}

/// The tables of `orig` are all still in `m`, unchanged; pages only go from free to taken.
pub open spec fn mem_ok(
    orig: Map<usize, Sv39Table>,
    m: Map<usize, Sv39Table>,
    free0: Seq<bool>,
    free: Seq<bool>,
) -> bool {
    &&& free.len() == free0.len()
    &&& forall|j: int| 0 <= j < free.len() && #[trigger] free[j] ==> free0[j]
    &&& forall|a: usize| #[trigger] orig.contains_key(a) ==> m.contains_key(a) && m[a] == orig[a]
}

/// The copy `w` of the entry `s`: a pointer entry is copied into a pointer to a new page, other
/// than `c1` and `r`, holding the table that `s` points to; any other entry is kept.
pub open spec fn entry_copied(
    orig: Map<usize, Sv39Table>,
    m: Map<usize, Sv39Table>,
    base: usize,
    delta: usize,
    free0: Seq<bool>,
    free: Seq<bool>,
    w: u64,
    s: u64,
    c1: usize,
    r: usize,
) -> bool {
    if is_pointer(s) {
        &&& is_pointer(w)
        &&& copy_page(base, delta, free0, free, next_table(w))
        &&& next_table(w) != c1
        &&& next_table(w) != r
        &&& m.contains_key(next_table(w))
        &&& m[next_table(w)] == orig[next_table(s)]
    } else {
        w == s
    }
}

/// The table at `c1` is a copy of `t1` in its entries below `k` and equal to it from `k` on.
pub open spec fn copied_upto(
    orig: Map<usize, Sv39Table>,
    m: Map<usize, Sv39Table>,
    base: usize,
    delta: usize,
    free0: Seq<bool>,
    free: Seq<bool>,
    c1: usize,
    t1: Sv39Table,
    k: int,
    r: usize,
) -> bool {
    &&& m.contains_key(c1)
    &&& forall|j: int|
        0 <= j < 512 ==> (j >= k ==> word(m[c1], j) == word(t1, j)) && (j < k ==> entry_copied(
            orig,
            m,
            base,
            delta,
            free0,
            free,
            #[trigger] word(m[c1], j),
            word(t1, j),
            c1,
            r,
        ))
}

/// A page index of a page address.
proof fn lemma_page_index(base: usize, n: int)
    requires
        n >= 0,
    ensures
        (page_addr(base, n) - base) / PAGE_SIZE as int == n,
        (page_addr(base, n) - base) % PAGE_SIZE as int == 0,
{
    assert((n * PAGE_SIZE) / PAGE_SIZE as int == n) by (nonlinear_arith);
    assert((n * PAGE_SIZE) % PAGE_SIZE as int == 0) by (nonlinear_arith);
}

/// A new page lies at its page index; its copy lies `delta` above.
proof fn lemma_new_page_at(base: usize, free0: Seq<bool>, free: Seq<bool>, a: usize)
    requires
        new_page(base, free0, free, a),
    ensures
        a == page_addr(base, (a - base) / PAGE_SIZE as int),
        a < base + free.len() * PAGE_SIZE,
{
    let j = (a - base) / PAGE_SIZE as int;
    vstd::arithmetic::div_mod::lemma_fundamental_div_mod((a - base) as int, PAGE_SIZE as int);
    assert(j * PAGE_SIZE + PAGE_SIZE <= free.len() * PAGE_SIZE) by (nonlinear_arith)
        requires 0 <= j < free.len();
}

/// The copy of a page taken in `free` that was free in `free0` is none of the tables of
/// `orig`.
proof fn lemma_copy_not_orig(
    orig: Map<usize, Sv39Table>,
    base: usize,
    delta: usize,
    free0: Seq<bool>,
    free: Seq<bool>,
    a: usize,
)
    requires
        copy_page(base, delta, free0, free, a),
        free.len() == free0.len(),
        tables_on_taken_pages(orig, base, free0),
        copies_clear(orig, base, delta, free0),
    ensures
        !orig.contains_key(a),
{
    let q = (a - delta) as usize;
    let j = (q - base) / PAGE_SIZE as int;
    lemma_new_page_at(base, free0, free, q);
    if orig.contains_key(a) {
        if delta == 0 {
            assert(free0[j]);
        } else {
            assert(base + delta <= a);
        }
    }
}

/// What one clone step's allocation hands out: a page `p` that is free and none of the
/// tables of `orig` or the copies made so far, and its copy `c`, `delta` above it, which is
/// a copy from now on, page-aligned, below 2^56, and none of the tables of `orig` or the
/// copies made so far.
proof fn lemma_alloc_fresh(
    orig: Map<usize, Sv39Table>,
    m: Map<usize, Sv39Table>,
    base: usize,
    delta: usize,
    free0: Seq<bool>,
    free: Seq<bool>,
)
    requires
        mem_ok(orig, m, free0, free),
        clone_region(base, delta, free0),
        can_alloc_page(free),
        tables_on_taken_pages(orig, base, free0),
        copies_clear(orig, base, delta, free0),
    ensures
        ({
            let p = alloc_addr(base, free);
            let c = (p + delta) as usize;
            let f1 = after_alloc_page(free);
            &&& p as int == page_addr(base, next_page(free))
            &&& c == p + delta
            &&& !orig.contains_key(p)
            &&& !orig.contains_key(c)
            &&& copy_page(base, delta, free0, f1, c)
            &&& c % PAGE_SIZE == 0
            &&& c < 0x100_0000_0000_0000
            &&& 0 <= next_page(free) < free0.len()
            &&& free0[next_page(free)]
            &&& c == copy_addr(base, delta, next_page(free))
            &&& mem_ok(orig, m.insert(p, zero_table()), free0, f1)
            &&& forall|a: usize|
                copy_page(base, delta, free0, free, a) ==> a != p && a != c && #[trigger] copy_page(
                    base,
                    delta,
                    free0,
                    f1,
                    a,
                )
        }),
{
    let n = next_page(free);
    lemma_next_page(free);
    let p = alloc_addr(base, free);
    let c = (p + delta) as usize;
    let f1 = after_alloc_page(free);
    assert(n * PAGE_SIZE + PAGE_SIZE <= free.len() * PAGE_SIZE) by (nonlinear_arith)
        requires 0 <= n < free.len();
    assert(n * PAGE_SIZE >= 0) by (nonlinear_arith) requires n >= 0;
    assert(p as int == page_addr(base, n));
    lemma_page_index(base, n);
    assert(free0[n]);
    assert(new_page(base, free0, f1, p));
    assert((c - delta) as usize == p);
    assert(copy_page(base, delta, free0, f1, c));
    assert(forall|j: int| 0 <= j < f1.len() && #[trigger] f1[j] ==> free0[j]) by {
        assert forall|j: int| 0 <= j < f1.len() && #[trigger] f1[j] implies free0[j] by {
            assert(free[j]);
        }
    }
    lemma_copy_not_orig(orig, base, delta, free0, f1, c);
    if orig.contains_key(p) {
        assert(free0[n]);
    }
    assert((base + n * PAGE_SIZE) % PAGE_SIZE as int == 0) by (nonlinear_arith)
        requires base as int % PAGE_SIZE as int == 0;
    assert((base + n * PAGE_SIZE + delta) % PAGE_SIZE as int == 0) by (nonlinear_arith)
        requires base as int % PAGE_SIZE as int == 0, delta as int % PAGE_SIZE as int == 0;
    assert forall|a: usize| copy_page(base, delta, free0, free, a) implies a != p && a != c
        && #[trigger] copy_page(base, delta, free0, f1, a) by {
        let q = (a - delta) as usize;
        let j = (q - base) / PAGE_SIZE as int;
        lemma_new_page_at(base, free0, free, q);
        assert(!free[j]);
        assert(j != n);
        crate::sv39_table::lemma_page_addr_distinct(base, j, n);
        assert(q != p);
        assert(new_page(base, free0, f1, q));
        if delta != 0 {
            assert(a >= base + delta);
        }
    }
}

/// A rebuilt entry for a page-aligned address below 2^56 points to that address and is a
/// pointer exactly where the entry it replaces is one.
proof fn lemma_rebuilt(x: usize, c: u64)
    requires
        x % PAGE_SIZE == 0,
        x < 0x100_0000_0000_0000,
    ensures
        next_table(rebuilt_word(x as u64, c)) == x,
        is_pointer(rebuilt_word(x as u64, c)) == is_pointer(c),
{
    let y = x as u64;
    assert(y & 0xfff == 0) by (bit_vector)
        requires y % 4096 == 0;
    assert(((((((y >> 12) & 0xFFF_FFFF_FFFFu64) << 10) | (c & 0x2f)) >> 10) & 0xFFF_FFFF_FFFFu64) << 12
        == y && (((((y >> 12) & 0xFFF_FFFF_FFFFu64) << 10) | (c & 0x2f)) & 1) == c & 1 && ((((((y >> 12)
        & 0xFFF_FFFF_FFFFu64) << 10) | (c & 0x2f)) >> 1) & 7) == (c >> 1) & 7) by (bit_vector)
        requires
            y & 0xfff == 0,
            y < 0x100_0000_0000_0000,
    ;
}

/// A walk that ends somewhere in `orig` ends at the same place in memory that still holds
/// every table of `orig`: it reads only those tables.
proof fn lemma_translate_frame(
    cur: Sv39Table,
    orig: Map<usize, Sv39Table>,
    m: Map<usize, Sv39Table>,
    free0: Seq<bool>,
    free: Seq<bool>,
    a: usize,
)
    requires
        mem_ok(orig, m, free0, free),
        translate(cur, orig, a) is Some,
    ensures
        translate(cur, m, a) == translate(cur, orig, a),
{
    let e2 = word(cur, vpn2_of(a));
    if pte_valid(e2) && pte_perm(e2) == 0 {
        let a1 = next_table(e2);
        assert(orig.contains_key(a1));
        assert(m[a1] == orig[a1]);
        let e1 = word(orig[a1], vpn1_of(a));
        if pte_valid(e1) && pte_perm(e1) == 0 {
            assert(orig.contains_key(next_table(e1)));
            assert(m[next_table(e1)] == orig[next_table(e1)]);
        }
    }
}

/// The copy made by a clone step maps to itself in the current table.
proof fn lemma_copy_maps_to_itself(
    cur: Sv39Table,
    orig: Map<usize, Sv39Table>,
    m: Map<usize, Sv39Table>,
    base: usize,
    delta: usize,
    free0: Seq<bool>,
    free: Seq<bool>,
    j: int,
)
    requires
        copies_map_to_themselves(cur, orig, base, delta, free0),
        mem_ok(orig, m, free0, free),
        0 <= j < free0.len(),
        free0[j],
    ensures
        translate(cur, m, copy_addr(base, delta, j)) == Some(page_addr(base, j) + delta),
{
    lemma_translate_frame(cur, orig, m, free0, free, copy_addr(base, delta, j));
}

/// Cloning the entries `k ..` of the level-1 copy at `c1` (a copy of `t1`) copies each
/// pointer entry's table to a new copy and points the entry at it; it changes no table of
/// `orig` and no copy made before other than `c1`.
proof fn lemma_clone_level2(
    orig: Map<usize, Sv39Table>,
    m: Map<usize, Sv39Table>,
    base: usize,
    delta: usize,
    free0: Seq<bool>,
    free: Seq<bool>,
    c1: usize,
    t1: Sv39Table,
    k: int,
    r: usize,
    cur: Sv39Table,
)
    requires
        copies_map_to_themselves(cur, orig, base, delta, free0),
        clone_region(base, delta, free0),
        tables_on_taken_pages(orig, base, free0),
        copies_clear(orig, base, delta, free0),
        mem_ok(orig, m, free0, free),
        0 <= k <= 512,
        clone_level2_ready(m, free, base, delta, c1, k, cur),
        copy_page(base, delta, free0, free, c1),
        copy_page(base, delta, free0, free, r),
        c1 != r,
        forall|j: int|
            0 <= j < 512 && is_pointer(#[trigger] word(t1, j)) ==> orig.contains_key(next_table(word(t1, j))),
        copied_upto(orig, m, base, delta, free0, free, c1, t1, k, r),
    ensures
        ({
            let s = clone_level2(m, free, base, delta, c1, k, cur);
            &&& mem_ok(orig, s.0, free0, s.1)
            &&& copied_upto(orig, s.0, base, delta, free0, s.1, c1, t1, 512, r)
            &&& forall|a: usize|
                copy_page(base, delta, free0, free, a) ==> #[trigger] copy_page(base, delta, free0, s.1, a)
            &&& forall|a: usize|
                copy_page(base, delta, free0, free, a) && a != c1 && m.contains_key(a)
                    ==> #[trigger] s.0.contains_key(a) && s.0[a] == m[a]
        }),
    decreases 512 - k,
{
    if k < 512 {
        let wk = word(m[c1], k);
        assert(wk == word(t1, k));
        if is_pointer(wk) {
            let p = alloc_addr(base, free);
            let c = (p + delta) as usize;
            let f1 = after_alloc_page(free);
            lemma_alloc_fresh(orig, m, base, delta, free0, free);
            lemma_copy_not_orig(orig, base, delta, free0, free, c1);
            lemma_copy_not_orig(orig, base, delta, free0, free, r);
            let m1 = m.insert(p, zero_table());
            assert(c1 != p && c1 != c && r != c);
            assert(m1[c1] == m[c1]);
            let l2 = next_table(word(m1[c1], k));
            assert(orig.contains_key(l2));
            assert(l2 != p);
            let m2 = m1.insert(c, m1[l2]);
            assert(m2[c] == orig[l2]);
            assert(m2[c1] == m[c1]);
            assert(mem_ok(orig, m2, free0, f1)) by {
                assert forall|a: usize| #[trigger] orig.contains_key(a) implies m2.contains_key(a) && m2[a]
                    == orig[a] by {
                    assert(a != p && a != c);
                }
            }
            lemma_copy_maps_to_itself(cur, orig, m2, base, delta, free0, f1, next_page(free));
            lemma_rebuilt(c, word(m2[c1], k));
            let w_new = rebuilt_word(c as u64, word(m2[c1], k));
            let m3 = mem_set_entry(m2, c1, k, w_new);
            lemma_table_set(m2[c1], k, w_new);
            assert(clone_step(m, free, base, delta, c1, k, cur) == (m3, f1, c));
            assert(mem_ok(orig, m3, free0, f1)) by {
                assert forall|a: usize| #[trigger] orig.contains_key(a) implies m3.contains_key(a) && m3[a]
                    == orig[a] by {
                    assert(a != p && a != c && a != c1);
                }
            }
            assert forall|j: int| 0 <= j < 512 implies (j >= k + 1 ==> word(m3[c1], j) == word(t1, j)) && (j
                < k + 1 ==> entry_copied(orig, m3, base, delta, free0, f1, #[trigger] word(m3[c1], j), word(t1, j), c1, r)) by {
                if j < k {
                    assert(entry_copied(orig, m, base, delta, free0, free, word(m[c1], j), word(t1, j), c1, r));
                    if is_pointer(word(t1, j)) {
                        let c2 = next_table(word(m[c1], j));
                        assert(copy_page(base, delta, free0, free, c2));
                        assert(c2 != p && c2 != c);
                        assert(copy_page(base, delta, free0, f1, c2));
                    }
                }
            }
            assert(copied_upto(orig, m3, base, delta, free0, f1, c1, t1, k + 1, r));
            assert(copy_page(base, delta, free0, f1, c1));
            assert(copy_page(base, delta, free0, f1, r));
            lemma_clone_level2(orig, m3, base, delta, free0, f1, c1, t1, k + 1, r, cur);
            let s = clone_level2(m3, f1, base, delta, c1, k + 1, cur);
            assert(clone_level2(m, free, base, delta, c1, k, cur) == s);
            assert forall|a: usize| copy_page(base, delta, free0, free, a) && a != c1 && m.contains_key(a)
                implies #[trigger] s.0.contains_key(a) && s.0[a] == m[a] by {
                assert(a != p && a != c);
                assert(copy_page(base, delta, free0, f1, a));
                assert(m3.contains_key(a));
                assert(m3[a] == m[a]);
                assert(s.0.contains_key(a));
            }
            assert forall|a: usize| copy_page(base, delta, free0, free, a) implies #[trigger] copy_page(
                base,
                delta,
                free0,
                s.1,
                a,
            ) by {
                assert(copy_page(base, delta, free0, f1, a));
            }
        } else {
            assert forall|j: int| 0 <= j < 512 implies (j >= k + 1 ==> word(m[c1], j) == word(t1, j)) && (j
                < k + 1 ==> entry_copied(orig, m, base, delta, free0, free, #[trigger] word(m[c1], j), word(t1, j), c1, r)) by {
            }
            lemma_clone_level2(orig, m, base, delta, free0, free, c1, t1, k + 1, r, cur);
            assert(clone_level2(m, free, base, delta, c1, k, cur) == clone_level2(m, free, base, delta, c1, k + 1, cur));
        }
    }
}

/// The copy `w` of the root entry `s`: a pointer entry is copied into a pointer to a new
/// page, other than `r`, holding a copy of the table that `s` points to; any other entry is
/// kept.
pub open spec fn root_entry_copied(
    orig: Map<usize, Sv39Table>,
    m: Map<usize, Sv39Table>,
    base: usize,
    delta: usize,
    free0: Seq<bool>,
    free: Seq<bool>,
    w: u64,
    s: u64,
    r: usize,
) -> bool {
    if is_pointer(s) {
        &&& is_pointer(w)
        &&& copy_page(base, delta, free0, free, next_table(w))
        &&& next_table(w) != r
        &&& copied_upto(orig, m, base, delta, free0, free, next_table(w), orig[next_table(s)], 512, r)
    } else {
        w == s
    }
}

/// The table at `r` is a copy of `root` in its entries below `i` and equal to it from `i` on.
pub open spec fn root_copied_upto(
    orig: Map<usize, Sv39Table>,
    m: Map<usize, Sv39Table>,
    base: usize,
    delta: usize,
    free0: Seq<bool>,
    free: Seq<bool>,
    r: usize,
    root: Sv39Table,
    i: int,
) -> bool {
    &&& m.contains_key(r)
    &&& forall|j: int|
        0 <= j < 512 ==> (j >= i ==> word(m[r], j) == word(root, j)) && (j < i ==> root_entry_copied(
            orig,
            m,
            base,
            delta,
            free0,
            free,
            #[trigger] word(m[r], j),
            word(root, j),
            r,
        ))
}

/// A copied table stays a copy where memory keeps every copy made so far other than `r`.
proof fn lemma_copied_frame(
    orig: Map<usize, Sv39Table>,
    m: Map<usize, Sv39Table>,
    m2: Map<usize, Sv39Table>,
    base: usize,
    delta: usize,
    free0: Seq<bool>,
    free: Seq<bool>,
    free2: Seq<bool>,
    c1: usize,
    t1: Sv39Table,
    r: usize,
)
    requires
        copied_upto(orig, m, base, delta, free0, free, c1, t1, 512, r),
        copy_page(base, delta, free0, free, c1),
        c1 != r,
        forall|a: usize|
            copy_page(base, delta, free0, free, a) && a != r && m.contains_key(a) ==> #[trigger] m2.contains_key(a)
                && m2[a] == m[a],
        forall|a: usize| copy_page(base, delta, free0, free, a) ==> #[trigger] copy_page(base, delta, free0, free2, a),
    ensures
        copied_upto(orig, m2, base, delta, free0, free2, c1, t1, 512, r),
{
    assert(m2.contains_key(c1) && m2[c1] == m[c1]);
    assert forall|j: int| 0 <= j < 512 implies entry_copied(
        orig,
        m2,
        base,
        delta,
        free0,
        free2,
        #[trigger] word(m2[c1], j),
        word(t1, j),
        c1,
        r,
    ) by {
        assert(entry_copied(orig, m, base, delta, free0, free, word(m[c1], j), word(t1, j), c1, r));
        if is_pointer(word(t1, j)) {
            let c2 = next_table(word(m[c1], j));
            assert(copy_page(base, delta, free0, free, c2));
            assert(m2.contains_key(c2));
            assert(copy_page(base, delta, free0, free2, c2));
        }
    }
}

/// Cloning root entries `i ..` of the root copy at `r` (a copy of `root`) copies each
/// pointer entry's table and its own pointed tables, and points the entries at the copies.
proof fn lemma_clone_level1(
    orig: Map<usize, Sv39Table>,
    m: Map<usize, Sv39Table>,
    base: usize,
    delta: usize,
    free0: Seq<bool>,
    free: Seq<bool>,
    r: usize,
    root: Sv39Table,
    i: int,
    cur: Sv39Table,
)
    requires
        copies_map_to_themselves(cur, orig, base, delta, free0),
        clone_region(base, delta, free0),
        tables_on_taken_pages(orig, base, free0),
        copies_clear(orig, base, delta, free0),
        tables_held(root, orig),
        mem_ok(orig, m, free0, free),
        0 <= i <= 512,
        clone_level1_ready(m, free, base, delta, r, i, cur),
        copy_page(base, delta, free0, free, r),
        root_copied_upto(orig, m, base, delta, free0, free, r, root, i),
    ensures
        ({
            let s = clone_level1(m, free, base, delta, r, i, cur);
            &&& mem_ok(orig, s.0, free0, s.1)
            &&& root_copied_upto(orig, s.0, base, delta, free0, s.1, r, root, 512)
        }),
    decreases 512 - i,
{
    if i < 512 {
        let wi = word(m[r], i);
        assert(wi == word(root, i));
        lemma_copy_not_orig(orig, base, delta, free0, free, r);
        if is_pointer(wi) {
            let p = alloc_addr(base, free);
            let c = (p + delta) as usize;
            let f1 = after_alloc_page(free);
            lemma_alloc_fresh(orig, m, base, delta, free0, free);
            let m1 = m.insert(p, zero_table());
            assert(r != p && r != c);
            assert(m1[r] == m[r]);
            let l1 = next_table(word(m1[r], i));
            assert(orig.contains_key(l1));
            assert(l1 != p);
            let t1 = orig[l1];
            let m2 = m1.insert(c, m1[l1]);
            assert(m2[c] == t1);
            assert(mem_ok(orig, m2, free0, f1)) by {
                assert forall|a: usize| #[trigger] orig.contains_key(a) implies m2.contains_key(a) && m2[a]
                    == orig[a] by {
                    assert(a != p && a != c);
                }
            }
            assert forall|j: int| 0 <= j < 512 implies (j >= 0 ==> word(m2[c], j) == word(t1, j)) && (j < 0
                ==> entry_copied(orig, m2, base, delta, free0, f1, #[trigger] word(m2[c], j), word(t1, j), c, r)) by {
            }
            assert(copied_upto(orig, m2, base, delta, free0, f1, c, t1, 0, r));
            assert(copy_page(base, delta, free0, f1, r));
            lemma_clone_level2(orig, m2, base, delta, free0, f1, c, t1, 0, r, cur);
            let l2 = clone_level2(m2, f1, base, delta, c, 0, cur);
            let big = l2.0;
            let f2 = l2.1;
            assert(big.contains_key(r) && big[r] == m2[r]);
            assert(m2[r] == m[r]);
            lemma_copy_maps_to_itself(cur, orig, big, base, delta, free0, f2, next_page(free));
            lemma_rebuilt(c, word(big[r], i));
            let w_new = rebuilt_word(c as u64, word(big[r], i));
            let m3 = mem_set_entry(big, r, i, w_new);
            lemma_table_set(big[r], i, w_new);
            assert(clone_level1(m, free, base, delta, r, i, cur) == clone_level1(m3, f2, base, delta, r, i + 1, cur));
            assert(mem_ok(orig, m3, free0, f2)) by {
                assert forall|a: usize| #[trigger] orig.contains_key(a) implies m3.contains_key(a) && m3[a]
                    == orig[a] by {
                    assert(a != r);
                }
            }
            // copies made before this entry: unchanged in `m3` but for `r`
            assert forall|a: usize|
                copy_page(base, delta, free0, free, a) && a != r && m.contains_key(a) implies #[trigger] m3.contains_key(a)
                    && m3[a] == m[a] by {
                assert(a != p && a != c);
                assert(copy_page(base, delta, free0, f1, a));
                assert(m2.contains_key(a));
                assert(big.contains_key(a));
            }
            assert forall|a: usize| copy_page(base, delta, free0, free, a) implies #[trigger] copy_page(
                base,
                delta,
                free0,
                f2,
                a,
            ) by {
                assert(copy_page(base, delta, free0, f1, a));
            }
            // copies of this entry: unchanged in `m3` but for `r`
            assert forall|a: usize|
                copy_page(base, delta, free0, f2, a) && a != r && big.contains_key(a) implies #[trigger] m3.contains_key(a)
                    && m3[a] == big[a] by {
            }
            assert(copy_page(base, delta, free0, f2, c));
            lemma_copied_frame(orig, big, m3, base, delta, free0, f2, f2, c, t1, r);
            assert forall|j: int| 0 <= j < 512 implies (j >= i + 1 ==> word(m3[r], j) == word(root, j)) && (j
                < i + 1 ==> root_entry_copied(orig, m3, base, delta, free0, f2, #[trigger] word(m3[r], j), word(root, j), r)) by {
                if j < i {
                    assert(root_entry_copied(orig, m, base, delta, free0, free, word(m[r], j), word(root, j), r));
                    if is_pointer(word(root, j)) {
                        let c1 = next_table(word(m[r], j));
                        lemma_copied_frame(orig, m, m3, base, delta, free0, free, f2, c1, orig[next_table(word(root, j))], r);
                    }
                } else if j == i {
                    assert(word(m3[r], j) == w_new);
                }
            }
            assert(copy_page(base, delta, free0, f2, r));
            lemma_clone_level1(orig, m3, base, delta, free0, f2, r, root, i + 1, cur);
        } else {
            assert forall|j: int| 0 <= j < 512 implies (j >= i + 1 ==> word(m[r], j) == word(root, j)) && (j
                < i + 1 ==> root_entry_copied(orig, m, base, delta, free0, free, #[trigger] word(m[r], j), word(root, j), r)) by {
            }
            lemma_clone_level1(orig, m, base, delta, free0, free, r, root, i + 1, cur);
            assert(clone_level1(m, free, base, delta, r, i, cur) == clone_level1(m, free, base, delta, r, i + 1, cur));
        }
    }
}

/// A copy of `root` in `m` translates every address as `root` does in `orig`.
proof fn lemma_copy_translates(
    orig: Map<usize, Sv39Table>,
    m: Map<usize, Sv39Table>,
    base: usize,
    delta: usize,
    free0: Seq<bool>,
    free: Seq<bool>,
    r: usize,
    root: Sv39Table,
    va: usize,
)
    requires
        tables_held(root, orig),
        root_copied_upto(orig, m, base, delta, free0, free, r, root, 512),
    ensures
        translate(m[r], m, va) == translate(root, orig, va),
{
    let i2 = vpn2_of(va);
    let i1 = vpn1_of(va);
    let i0 = vpn0_of(va);
    assert(0 <= i2 < 512 && 0 <= i1 < 512 && 0 <= i0 < 512);
    let e2 = word(root, i2);
    let c2 = word(m[r], i2);
    assert(root_entry_copied(orig, m, base, delta, free0, free, c2, e2, r));
    if is_pointer(e2) {
        let t1 = orig[next_table(e2)];
        let c1 = next_table(c2);
        assert(orig.contains_key(next_table(e2)));
        assert(copied_upto(orig, m, base, delta, free0, free, c1, t1, 512, r));
        let e1 = word(t1, i1);
        let d1 = word(m[c1], i1);
        assert(entry_copied(orig, m, base, delta, free0, free, d1, e1, c1, r));
        if is_pointer(e1) {
            assert(orig.contains_key(next_table(e1)));
            assert(m[next_table(d1)] == orig[next_table(e1)]);
        }
    }
}

/// Deep cloning a page table for an address space moved by `delta`, while the current table
/// maps the copy of each page it may allocate to itself, gives a root copy that translates
/// every address as the table it copies. This holds provided each table the original points
/// to is held in memory, no held table lies on a page still free or where the copies go, and
/// the pages and their copies lie page-aligned below 2^56, the copies either on the pages
/// themselves or clear of them.
pub proof fn law_deep_clone_translates_as_original(
    root: Sv39Table,
    mem: Map<usize, Sv39Table>,
    base: usize,
    free: Seq<bool>,
    delta: usize,
    current_pt: Sv39Table,
    va: usize,
)
    requires
        copies_map_to_themselves(current_pt, mem, base, delta, free),
        clone_region(base, delta, free),
        tables_on_taken_pages(mem, base, free),
        copies_clear(mem, base, delta, free),
        tables_held(root, mem),
        deep_clone_ready(root, mem, base, free, delta, current_pt),
    ensures
        ({
            let s = deep_clone_post(root, mem, base, free, delta, current_pt);
            let r = (alloc_addr(base, free) + delta) as usize;
            &&& s.0.contains_key(r)
            &&& translate(s.0[r], s.0, va) == translate(root, mem, va)
        }),
{
    let p = alloc_addr(base, free);
    let r = (p + delta) as usize;
    let f1 = after_alloc_page(free);
    assert(mem_ok(mem, mem, free, free));
    lemma_alloc_fresh(mem, mem, base, delta, free, free);
    let m = mem.insert(p, zero_table()).insert(r, root);
    assert(mem_ok(mem, m, free, f1)) by {
        assert forall|a: usize| #[trigger] mem.contains_key(a) implies m.contains_key(a) && m[a] == mem[a] by {
            assert(a != p && a != r);
        }
    }
    assert forall|j: int| 0 <= j < 512 implies (j >= 0 ==> word(m[r], j) == word(root, j)) && (j < 0
        ==> root_entry_copied(mem, m, base, delta, free, f1, #[trigger] word(m[r], j), word(root, j), r)) by {
    }
    assert(root_copied_upto(mem, m, base, delta, free, f1, r, root, 0));
    lemma_clone_level1(mem, m, base, delta, free, f1, r, root, 0, current_pt);
    let s = clone_level1(m, f1, base, delta, r, 0, current_pt);
    lemma_copy_translates(mem, s.0, base, delta, free, s.1, r, root, va);
}

} // verus!
