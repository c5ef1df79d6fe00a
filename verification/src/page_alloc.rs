//! A physical page allocator: a table of one descriptor per page of the heap,
//! handing out contiguous runs of pages by first fit.
use vstd::prelude::*;

verus! {

/// Size of one physical page in bytes.
pub const PAGE_SIZE: usize = 4096;

/// Size of the kernel heap in bytes.
pub const HEAP_SIZE: usize = 0x100000;

/// Number of pages in a region of `size` bytes, for a size that is a whole number of pages.
pub fn pages_subdivide(size: usize) -> (n: usize)
    requires
        size % PAGE_SIZE == 0,
    ensures
        n == size / PAGE_SIZE,
{
    size / PAGE_SIZE
}

/// Number of pages needed to hold `size` bytes (rounding up).
pub open spec fn pages_for(size: int) -> int {
    (size + PAGE_SIZE - 1) / PAGE_SIZE as int
}

/// Number of pages needed to hold `size` bytes: the quotient, plus one when a partial page remains.
pub fn size_to_pages(size: usize) -> (n: usize)
    ensures
        n == pages_for(size as int),
        n as int * PAGE_SIZE >= size,
        (n as int - 1) * PAGE_SIZE < size || n == 0,
{
    let u = size / PAGE_SIZE;
    if size % PAGE_SIZE > 0 {
        u + 1
    } else {
        u
    }
}

/// State of one page descriptor.
#[derive(Debug, Clone, Copy)]
pub enum PageFlags {
    Free,
    Taken,
}

/// The byte that a descriptor holds for a flag.
pub open spec fn flag_byte(f: PageFlags) -> u8 {
    match f {
        PageFlags::Free => 1,
        PageFlags::Taken => 2,
    }
}

impl PageFlags {
    /// The descriptor byte of this flag: one bit each.
    pub fn val(&self) -> (b: u8)
        ensures
            b == flag_byte(*self),
    {
        match self {
            PageFlags::Free => 1,
            PageFlags::Taken => 2,
        }
    }
}

/// Whether the pages `b .. b + n` all exist and are free.
pub open spec fn fits_at(free: Seq<bool>, b: int, n: int) -> bool {
    &&& 0 <= b
    &&& b + n <= free.len()
    &&& forall|j: int| b <= j < b + n ==> free[j]
}

/// `b` is the lowest page at which `n` free pages begin.
pub open spec fn is_first_fit(free: Seq<bool>, n: int, b: int) -> bool {
    &&& fits_at(free, b, n)
    &&& forall|c: int| 0 <= c < b ==> !fits_at(free, c, n)
}

/// Some run of `n` free pages exists.
pub open spec fn has_fit(free: Seq<bool>, n: int) -> bool {
    exists|b: int| fits_at(free, b, n)
}

/// The page map with pages `first .. end` set to `v`.
pub open spec fn mark_range(free: Seq<bool>, first: int, end: int, v: bool) -> Seq<bool> {
    Seq::new(free.len(), |j: int| if first <= j < end { v } else { free[j] })
}

/// Number of taken pages in a page map.
pub open spec fn count_taken(free: Seq<bool>) -> nat
    decreases free.len(),
{
    if free.len() == 0 {
        0
    } else {
        count_taken(free.drop_last()) + if free.last() {
            0nat
        } else {
            1nat
        }
    }
}

/// Number of free pages in a page map.
pub open spec fn count_free(free: Seq<bool>) -> nat
    decreases free.len(),
{
    if free.len() == 0 {
        0
    } else {
        count_free(free.drop_last()) + if free.last() {
            1nat
        } else {
            0nat
        }
    }
}

/// Physical page allocator over a heap of `PAGES` bytes.
pub struct PhysicalPageAllocator<const PAGES: usize> {
    start: usize,
    descriptors: Vec<u8>,
}

proof fn lemma_flag_bits(d: u8)
    requires
        d == 1 || d == 2,
    ensures
        (d & 1u8 != 0) <==> d == 1,
        (d & 2u8 != 0) <==> d == 2,
        (d & !1u8) | 2u8 == 2,
        (d & !2u8) | 1u8 == 1,
{
    crate::sv39_pte::lemma_byte_bits(d, 0);
}

impl<const PAGES: usize> PhysicalPageAllocator<PAGES> {
    /// Base address of the managed region.
    pub closed spec fn base(&self) -> usize {
        self.start
    }

    /// Which pages are free, one entry per page.
    pub closed spec fn free(&self) -> Seq<bool> {
        self.descriptors@.map_values(|d: u8| d == 1)
    }

    /// The descriptor table has one valid descriptor per page, and the region fits in the
    /// address space.
    pub closed spec fn wf(&self) -> bool {
        &&& self.descriptors@.len() == PAGES / PAGE_SIZE
        &&& forall|i: int|
            0 <= i < self.descriptors@.len() ==> #[trigger] self.descriptors@[i] == 1
                || self.descriptors@[i] == 2
        &&& self.start + self.descriptors@.len() * PAGE_SIZE <= usize::MAX
    }

    /// Number of pages that a well-formed allocator manages.
    pub proof fn lemma_len(&self)
        requires
            self.wf(),
        ensures
            self.free().len() == PAGES / PAGE_SIZE,
    {
    }

    /// An allocator with every page free and no base address yet.
    pub fn new() -> (a: Self)
        requires
            PAGES % PAGE_SIZE == 0,
        ensures
            a.wf(),
            a.base() == 0,
            a.free() == Seq::new((PAGES / PAGE_SIZE) as nat, |i: int| true),
    {
        let n = pages_subdivide(PAGES);
        let mut descriptors: Vec<u8> = Vec::new();
        let mut i: usize = 0;
        while i < n
            invariant
                i <= n,
                n == PAGES / PAGE_SIZE,
                descriptors@.len() == i,
                forall|j: int| 0 <= j < i ==> descriptors@[j] == 1,
            decreases n - i,
        {
            descriptors.push(PageFlags::Free.val());
            i = i + 1;
        }
        let a = PhysicalPageAllocator { start: 0, descriptors };
        assert(a.free() =~= Seq::new((PAGES / PAGE_SIZE) as nat, |i: int| true));
        a
    }

    /// Initializes with a heap start address, rounded up to a whole page.
    pub fn default_init(&mut self, heap_start: usize)
        requires
            old(self).wf(),
            heap_start + PAGE_SIZE <= usize::MAX,
            align_up_spec(heap_start as int) + old(self).free().len() * PAGE_SIZE <= usize::MAX,
        ensures
            final(self).wf(),
            final(self).base() == align_up_spec(heap_start as int),
            final(self).free() == old(self).free(),
    {
        let val = align_heap_start(heap_start);
        self.init(val);
    }

    /// Initializes with the given start value.
    pub fn init(&mut self, start: usize)
        requires
            old(self).wf(),
            start + old(self).free().len() * PAGE_SIZE <= usize::MAX,
        ensures
            final(self).wf(),
            final(self).base() == start,
            final(self).free() == old(self).free(),
    {
        self.start = start;
    }

    /// The base address of the managed region.
    pub fn get_base(&self) -> (b: usize)
        ensures
            b == self.base(),
    {
        self.start
    }

    /// Finds the lowest index at which `pages` free descriptors begin.
    fn find_first_fit(&self, pages: usize) -> (r: Option<usize>)
        requires
            self.wf(),
            pages > 0,
        ensures
            match r {
                None => !has_fit(self.free(), pages as int),
                Some(b) => is_first_fit(self.free(), pages as int, b as int),
            },
    {
        let ghost free = self.free();
        let len = self.descriptors.len();
        let mut begin_index: usize = 0;
        let mut matching: usize = 0;
        let mut i: usize = 0;
        while i < len
            invariant
                self.wf(),
                free == self.free(),
                len == free.len(),
                pages > 0,
                i <= len,
                begin_index + matching == i,
                matching < pages,
                forall|j: int| begin_index <= j < i ==> free[j],
                forall|c: int| 0 <= c < begin_index ==> !fits_at(free, c, pages as int),
            decreases len - i,
        {
            let flags = self.descriptors[i];
            proof {
                lemma_flag_bits(flags);
            }
            if flags & PageFlags::Free.val() != 0 {
                matching = matching + 1;
            } else {
                proof {
                    assert forall|c: int| 0 <= c < i + 1 implies !fits_at(free, c, pages as int) by {
                        if c >= begin_index && fits_at(free, c, pages as int) {
                            if c + pages > i {
                                assert(!free[i as int]);
                            }
                        }
                    }
                }
                matching = 0;
                begin_index = i + 1;
            }
            if matching >= pages {
                assert(fits_at(free, begin_index as int, pages as int));
                return Some(begin_index);
            }
            i = i + 1;
        }
        proof {
            assert forall|b: int| !fits_at(free, b, pages as int) by {
                if fits_at(free, b, pages as int) && b >= begin_index {
                    assert(b + pages <= len);
                }
            }
        }
        None
    }

    /// Try to allocate a contiguous region of pages, returning the address of the region if
    /// possible. The descriptors of the found run are marked taken.
    pub fn try_allocate(&mut self, size: usize) -> (r: Option<usize>)
        requires
            old(self).wf(),
            old(self).base() != 0,
            size > 0,
        ensures
            final(self).wf(),
            final(self).base() == old(self).base(),
            match r {
                None => {
                    &&& !has_fit(old(self).free(), pages_for(size as int))
                    &&& final(self).free() == old(self).free()
                },
                Some(p) => exists|b: int|
                    {
                        &&& is_first_fit(old(self).free(), pages_for(size as int), b)
                        &&& p == old(self).base() + b * PAGE_SIZE
                        &&& final(self).free() == mark_range(
                            old(self).free(),
                            b,
                            b + pages_for(size as int),
                            false,
                        )
                    },
            },
    {
        let pages = size_to_pages(size);
        let found = self.find_first_fit(pages);
        match found {
            None => None,
            Some(begin_index) => {
                let ghost old_free = self.free();
                let end = begin_index + pages;
                let mut j = begin_index;
                while j < end
                    invariant
                        self.wf(),
                        self.start == old(self).start,
                        begin_index <= j <= end,
                        end <= self.descriptors@.len(),
                        old_free.len() == self.descriptors@.len(),
                        self.free() == mark_range(old_free, begin_index as int, j as int, false),
                    decreases end - j,
                {
                    let d = self.descriptors[j];
                    proof {
                        lemma_flag_bits(d);
                    }
                    let ghost prev = self.free();
                    let nd = (d & !PageFlags::Free.val()) | PageFlags::Taken.val();
                    assert(nd == 2);
                    self.descriptors.set(j, nd);
                    assert(self.free() =~= prev.update(j as int, false));
                    assert(self.free() =~= mark_range(old_free, begin_index as int, j + 1, false));
                    j = j + 1;
                }
                proof {
                    assert(begin_index * PAGE_SIZE <= self.descriptors@.len() * PAGE_SIZE) by (nonlinear_arith)
                        requires begin_index <= self.descriptors@.len();
                }
                Some(self.start + begin_index * PAGE_SIZE)
            },
        }
    }

    /// Deallocates the given region of pages: the `pages_for(size)` descriptors from the page
    /// of `addr` on are marked free.
    pub fn deallocate(&mut self, addr: usize, size: usize)
        requires
            old(self).wf(),
            old(self).base() != 0,
            addr >= old(self).base(),
            (addr - old(self).base()) / PAGE_SIZE as int + pages_for(size as int) <= old(self).free().len(),
        ensures
            final(self).wf(),
            final(self).base() == old(self).base(),
            final(self).free() == mark_range(
                old(self).free(),
                (addr - old(self).base()) / PAGE_SIZE as int,
                (addr - old(self).base()) / PAGE_SIZE as int + pages_for(size as int),
                true,
            ),
    {
        let offset = addr - self.start;
        let pages = size_to_pages(size);
        let begin_index = offset / PAGE_SIZE;
        let ghost old_free = self.free();
        let end = begin_index + pages;
        let mut j = begin_index;
        while j < end
            invariant
                self.wf(),
                self.start == old(self).start,
                begin_index <= j <= end,
                end <= self.descriptors@.len(),
                old_free.len() == self.descriptors@.len(),
                self.free() == mark_range(old_free, begin_index as int, j as int, true),
            decreases end - j,
        {
            let d = self.descriptors[j];
            proof {
                lemma_flag_bits(d);
            }
            let ghost prev = self.free();
            let nd = (d & !PageFlags::Taken.val()) | PageFlags::Free.val();
            assert(nd == 1);
            self.descriptors.set(j, nd);
            assert(self.free() =~= prev.update(j as int, true));
            assert(self.free() =~= mark_range(old_free, begin_index as int, j + 1, true));
            j = j + 1;
        }
    }

    /// Gets the number of used pages.
    pub fn used(&self) -> (n: usize)
        requires
            self.wf(),
            self.base() != 0,
        ensures
            n == count_taken(self.free()),
    {
        let ghost free = self.free();
        let len = self.descriptors.len();
        let mut count: usize = 0;
        let mut i: usize = 0;
        while i < len
            invariant
                self.wf(),
                free == self.free(),
                len == free.len(),
                i <= len,
                count == count_taken(free.subrange(0, i as int)),
                count <= i,
            decreases len - i,
        {
            let d = self.descriptors[i];
            proof {
                lemma_flag_bits(d);
                assert(free.subrange(0, i + 1).drop_last() =~= free.subrange(0, i as int));
            }
            if d & PageFlags::Taken.val() != 0 {
                count = count + 1;
            }
            i = i + 1;
        }
        assert(free.subrange(0, len as int) =~= free);
        count
    }

    /// Gets the total number of pages.
    pub fn total(&self) -> (n: usize)
        requires
            self.wf(),
        ensures
            n == self.free().len(),
            n == PAGES / PAGE_SIZE,
    {
        self.descriptors.len()
    }

    /// The page allocation table as marks, one per page in order: `.` for a free page and
    /// `X` for a taken one.
    pub fn allocation_marks(&self) -> (r: Vec<char>)
        requires
            self.wf(),
            self.base() != 0,
        ensures
            r@.len() == self.free().len(),
            forall|i: int| 0 <= i < r@.len() ==> #[trigger] r@[i] == if self.free()[i] { '.' } else { 'X' },
    {
        let len = self.descriptors.len();
        let mut marks: Vec<char> = Vec::new();
        let mut i: usize = 0;
        while i < len
            invariant
                self.wf(),
                len == self.free().len(),
                i <= len,
                marks@.len() == i,
                forall|j: int| 0 <= j < i ==> #[trigger] marks@[j] == if self.free()[j] { '.' } else { 'X' },
            decreases len - i,
        {
            let d = self.descriptors[i];
            proof {
                lemma_flag_bits(d);
            }
            if d & PageFlags::Free.val() != 0 {
                marks.push('.');
            }
            if d & PageFlags::Taken.val() != 0 {
                marks.push('X');
            }
            i = i + 1;
        }
        marks
    }
}

/// `h` rounded up to the next multiple of the page size.
pub open spec fn align_up_spec(h: int) -> int {
    if h % PAGE_SIZE as int == 0 {
        h
    } else {
        (h / PAGE_SIZE as int + 1) * PAGE_SIZE
    }
}

/// Rounds a heap start address up to a page boundary.
pub fn align_heap_start(heap_start: usize) -> (r: usize)
    requires
        heap_start + PAGE_SIZE <= usize::MAX,
    ensures
        r == align_up_spec(heap_start as int),
        r % PAGE_SIZE == 0,
        heap_start <= r < heap_start + PAGE_SIZE,
{
    if heap_start % PAGE_SIZE == 0 {
        heap_start
    } else {
        let x = heap_start + PAGE_SIZE;
        let r = x & !(PAGE_SIZE - 1);
        proof {
            crate::sv39_pte::lemma_usize_bits(x);
        }
        assert((x - x % 4096) == (heap_start / 4096 + 1) * 4096);
        r
    }
}


/// Where some run of `n` free pages exists, a lowest one exists.
pub proof fn lemma_first_fit_exists(free: Seq<bool>, n: int, b: int)
    requires
        fits_at(free, b, n),
    ensures
        exists|c: int| is_first_fit(free, n, c),
    decreases b,
{
    if exists|c: int| 0 <= c < b && fits_at(free, c, n) {
        let c = choose|c: int| 0 <= c < b && fits_at(free, c, n);
        lemma_first_fit_exists(free, n, c);
    } else {
        assert(is_first_fit(free, n, b));
    }
}

/// There is at most one first fit for a given page count.
pub proof fn lemma_first_fit_unique(free: Seq<bool>, n: int, b1: int, b2: int)
    requires
        is_first_fit(free, n, b1),
        is_first_fit(free, n, b2),
    ensures
        b1 == b2,
{
    if b1 < b2 {
        assert(!fits_at(free, b1, n));
    } else if b2 < b1 {
        assert(!fits_at(free, b2, n));
    }
}

/// Every page is either taken or free: the used count and the free count add up to the total.
pub proof fn law_used_plus_free_is_total(free: Seq<bool>)
    ensures
        count_taken(free) + count_free(free) == free.len(),
    decreases free.len(),
{
    if free.len() > 0 {
        law_used_plus_free_is_total(free.drop_last());
    }
}

/// A fresh allocator has no page in use.
pub proof fn law_new_allocator_has_none_used(n: nat)
    ensures
        count_taken(Seq::new(n, |i: int| true)) == 0,
    decreases n,
{
    if n > 0 {
        let s = Seq::new(n, |i: int| true);
        assert(s.drop_last() =~= Seq::new((n - 1) as nat, |i: int| true));
        law_new_allocator_has_none_used((n - 1) as nat);
    }
}

/// Marking a run of free pages taken raises the used count by the length of the run.
pub proof fn law_marking_free_run_taken_counts(free: Seq<bool>, first: int, end: int)
    requires
        0 <= first <= end <= free.len(),
        forall|j: int| first <= j < end ==> free[j],
    ensures
        count_taken(mark_range(free, first, end, false)) == count_taken(free) + (end - first),
    decreases free.len(),
{
    let m = mark_range(free, first, end, false);
    if free.len() > 0 {
        let k = free.len() - 1;
        if end == free.len() && first < end {
            assert(m.drop_last() =~= mark_range(free.drop_last(), first, end - 1, false));
            law_marking_free_run_taken_counts(free.drop_last(), first, end - 1);
        } else if first == end {
            assert(m =~= free);
        } else {
            assert(m.drop_last() =~= mark_range(free.drop_last(), first, end, false));
            law_marking_free_run_taken_counts(free.drop_last(), first, end);
        }
    } else {
        assert(m =~= free);
    }
}

/// Deallocating the address and size that an allocation returned frees exactly the pages
/// that the allocation took, and the page map is back to what it was before the allocation.
pub proof fn law_deallocate_undoes_allocate(free: Seq<bool>, base: int, size: int, b: int)
    requires
        size > 0,
        is_first_fit(free, pages_for(size), b),
    ensures
        ((base + b * PAGE_SIZE) - base) / PAGE_SIZE as int == b,
        mark_range(mark_range(free, b, b + pages_for(size), false), b, b + pages_for(size), true)
            == free,
{
    let n = pages_for(size);
    assert((b * PAGE_SIZE) / PAGE_SIZE as int == b) by (nonlinear_arith);
    assert(mark_range(mark_range(free, b, b + n, false), b, b + n, true) =~= free);
}

/// An allocation hands out only pages that were free, inside the managed region.
pub proof fn law_allocation_within_free_region(free: Seq<bool>, base: int, size: int, b: int)
    requires
        size > 0,
        is_first_fit(free, pages_for(size), b),
    ensures
        forall|j: int| b <= j < b + pages_for(size) ==> free[j],
        base <= base + b * PAGE_SIZE,
        base + b * PAGE_SIZE + size <= base + free.len() * PAGE_SIZE,
{
    let n = pages_for(size);
    assert(n * PAGE_SIZE >= size) by (nonlinear_arith)
        requires n == (size + PAGE_SIZE - 1) / PAGE_SIZE as int, size > 0;
    assert(b * PAGE_SIZE + n * PAGE_SIZE <= free.len() * PAGE_SIZE) by (nonlinear_arith)
        requires b + n <= free.len(), b >= 0, n >= 0;
    assert(b * PAGE_SIZE >= 0) by (nonlinear_arith) requires b >= 0;
}

} // verus!
