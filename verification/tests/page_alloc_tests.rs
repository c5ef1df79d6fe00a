use scraps::page_alloc::{
    align_heap_start, pages_subdivide, size_to_pages, PageFlags, PhysicalPageAllocator, HEAP_SIZE,
    PAGE_SIZE,
};

type Heap = PhysicalPageAllocator<HEAP_SIZE>;

fn fresh(start: usize) -> Heap {
    let mut a = Heap::new();
    a.init(start);
    a
}

#[test]
fn pages_subdivide_counts_whole_pages() {
    assert_eq!(pages_subdivide(HEAP_SIZE), 256);
    assert_eq!(pages_subdivide(0), 0);
    assert_eq!(pages_subdivide(3 * PAGE_SIZE), 3);
}

#[test]
fn size_to_pages_rounds_up() {
    assert_eq!(size_to_pages(0), 0);
    assert_eq!(size_to_pages(1), 1);
    assert_eq!(size_to_pages(4096), 1);
    assert_eq!(size_to_pages(4097), 2);
    assert_eq!(size_to_pages(8192), 2);
}

#[test]
fn page_flag_bytes() {
    assert_eq!(PageFlags::Free.val(), 1);
    assert_eq!(PageFlags::Taken.val(), 2);
}

#[test]
fn new_allocator_is_all_free() {
    let a = fresh(0x8000_0000);
    assert_eq!(a.total(), 256);
    assert_eq!(a.used(), 0);
    assert_eq!(a.get_base(), 0x8000_0000);
}

#[test]
fn new_allocator_has_no_base() {
    let a = Heap::new();
    assert_eq!(a.get_base(), 0);
}

#[test]
fn allocation_takes_exactly_its_run() {
    let mut a = fresh(0x8000_0000);
    let p = a.try_allocate(100).unwrap();
    assert_eq!(p, 0x8000_0000);
    assert_eq!(a.used(), 1);
    let q = a.try_allocate(PAGE_SIZE).unwrap();
    assert_eq!(q, 0x8000_1000);
    assert_eq!(a.used(), 2);
    let r = a.try_allocate(2 * PAGE_SIZE).unwrap();
    assert_eq!(r, 0x8000_2000);
    assert_eq!(a.used(), 4);
}

#[test]
fn allocation_is_first_fit() {
    let mut a = fresh(0x1000_0000);
    let p1 = a.try_allocate(PAGE_SIZE).unwrap();
    let p2 = a.try_allocate(PAGE_SIZE).unwrap();
    let _p3 = a.try_allocate(PAGE_SIZE).unwrap();
    assert_eq!(p2, 0x1000_0000 + PAGE_SIZE);
    // free page 0: a one-page request goes back to it
    a.deallocate(p1, PAGE_SIZE);
    let p4 = a.try_allocate(PAGE_SIZE).unwrap();
    assert_eq!(p4, p1);
    // pages 0 and 2 are taken, page 1 is free: a run of two pages starts at page 3
    a.deallocate(p2, PAGE_SIZE);
    let p5 = a.try_allocate(2 * PAGE_SIZE).unwrap();
    assert_eq!(p5, 0x1000_0000 + 3 * PAGE_SIZE);
    // a one-page request fills the gap at page 1
    assert_eq!(a.try_allocate(PAGE_SIZE), Some(p2));
}

#[test]
fn allocation_fails_when_no_run_fits() {
    let mut a = fresh(0x1000_0000);
    assert_eq!(a.try_allocate(257 * PAGE_SIZE), None);
    assert_eq!(a.used(), 0);
    let _ = a.try_allocate(200 * PAGE_SIZE).unwrap();
    assert_eq!(a.used(), 200);
    assert_eq!(a.try_allocate(57 * PAGE_SIZE), None);
    assert_eq!(a.used(), 200);
}

#[test]
fn whole_heap_and_last_page_can_be_allocated() {
    let mut a = fresh(0x1000_0000);
    assert_eq!(a.try_allocate(256 * PAGE_SIZE), Some(0x1000_0000));
    assert_eq!(a.used(), 256);
    assert_eq!(a.try_allocate(1), None);
    let mut b = fresh(0x1000_0000);
    b.try_allocate(255 * PAGE_SIZE).unwrap();
    assert_eq!(b.try_allocate(PAGE_SIZE), Some(0x1000_0000 + 255 * PAGE_SIZE));
    assert_eq!(b.used(), 256);
}

#[test]
fn deallocate_undoes_allocate() {
    let mut a = fresh(0x4000_0000);
    a.try_allocate(PAGE_SIZE).unwrap();
    let before = a.allocation_marks();
    let p = a.try_allocate(3 * PAGE_SIZE + 1).unwrap();
    assert_eq!(a.used(), 5);
    a.deallocate(p, 3 * PAGE_SIZE + 1);
    assert_eq!(a.allocation_marks(), before);
    assert_eq!(a.used(), 1);
    // the same request is served at the same place again
    assert_eq!(a.try_allocate(3 * PAGE_SIZE + 1), Some(p));
}

#[test]
fn partial_free_keeps_the_rest_of_the_run() {
    let mut a = fresh(0x8000_0000);
    assert_eq!(a.try_allocate(0x2000), Some(0x8000_0000));
    a.deallocate(0x8000_0000, 0x1000);
    let marks = a.allocation_marks();
    assert_eq!(&marks[0..3], &['.', 'X', '.']);
    assert_eq!(a.used(), 1);
}

#[test]
fn used_and_free_add_up_to_total() {
    let mut a = fresh(0x4000_0000);
    let _ = a.try_allocate(10 * PAGE_SIZE).unwrap();
    let _ = a.try_allocate(PAGE_SIZE).unwrap();
    assert_eq!(a.used(), 11);
    assert_eq!(a.total() - a.used(), 245);
}

#[test]
fn heap_start_is_rounded_up_to_a_page() {
    assert_eq!(align_heap_start(0x8000_0000), 0x8000_0000);
    assert_eq!(align_heap_start(0x8000_0001), 0x8000_1000);
    assert_eq!(align_heap_start(0x8000_0fff), 0x8000_1000);
    let mut a = Heap::new();
    a.default_init(0x8020_0010);
    assert_eq!(a.get_base(), 0x8020_1000);
}

#[test]
fn allocation_marks_show_free_and_taken_pages() {
    let mut a = fresh(0x8000_0000);
    let marks = a.allocation_marks();
    assert_eq!(marks.len(), 256);
    assert!(marks.iter().all(|&c| c == '.'));
    a.try_allocate(PAGE_SIZE).unwrap();
    let marks = a.allocation_marks();
    assert_eq!(&marks[0..3], &['X', '.', '.']);
    assert_eq!(marks.iter().filter(|&&c| c == 'X').count(), a.used());
}
