use scraps::mmu::Permissions;
use scraps::page_alloc::{PhysicalPageAllocator, HEAP_SIZE, PAGE_SIZE};
use scraps::sv39_pte::{split_phys_addr_sv39, split_virt_addr_sv39, unsplit_phys_addr_sv39, Sv39PTE, XWRPermissions};
use scraps::sv39_table::{
    entry_flags, points_to_next_level, satp_value, type_divide, PagingMode, Sv39Table, ENTRIES, ONEGIG,
};
use scraps::table_memory::TableMemory;

fn heap() -> PhysicalPageAllocator<HEAP_SIZE> {
    let mut a = PhysicalPageAllocator::<HEAP_SIZE>::new();
    a.init(0x8010_0000);
    a
}

#[test]
fn split_virtual_address() {
    let va = (3usize << 30) | (5 << 21) | (7 << 12) | 0x123;
    assert_eq!(split_virt_addr_sv39(va), (3, 5, 7));
    assert_eq!(split_virt_addr_sv39(0), (0, 0, 0));
}

#[test]
fn split_and_unsplit_physical_address() {
    let pa = 0x0012_3456_7890_1000usize;
    let parts = split_phys_addr_sv39(pa);
    assert_eq!(parts, ((pa >> 30) as u32 & 0x3ffffff, ((pa >> 21) & 0x1ff) as u16, ((pa >> 12) & 0x1ff) as u16));
    assert_eq!(unsplit_phys_addr_sv39(parts), pa);
    // the page offset is dropped
    assert_eq!(unsplit_phys_addr_sv39(split_phys_addr_sv39(pa + 0xabc)), pa);
}

#[test]
fn pte_round_trips_physical_address() {
    let e = Sv39PTE::from_physical_addr(0x8020_3000);
    assert_eq!(e.physical_addr(), 0x8020_3000);
    assert!(!e.valid());
    assert_eq!(e.into_bits(), (0x8020_3000u64 >> 12) << 10);
}

#[test]
fn pte_flag_setters() {
    let e = Sv39PTE::new().with_valid(true).with_global(true).with_permissions(XWRPermissions::from_bits(5).unwrap());
    assert!(e.valid());
    assert!(e.global());
    assert_eq!(e.permissions().bits(), 5);
    assert_eq!(e.into_bits(), 1 | (5 << 1) | (1 << 5));
    let f = e.with_valid(false);
    assert!(!f.valid());
    assert_eq!(f.permissions().bits(), 5);
}

#[test]
fn permissions_convert_bit_by_bit() {
    assert_eq!(XWRPermissions::from(Permissions::rwx()).bits(), 7);
    assert_eq!(XWRPermissions::from(Permissions::rw()).bits(), 3);
    assert_eq!(XWRPermissions::from(Permissions::wx()).bits(), 6);
    assert_eq!(XWRPermissions::from(Permissions::read()).bits(), 1);
    assert!(XWRPermissions::from_bits(8).is_none());
    assert!(Permissions::from_bits(9).is_none());
    assert!(XWRPermissions::pointer().is_empty());
}

#[test]
fn entries_per_table() {
    assert_eq!(ENTRIES, 512);
    assert_eq!(type_divide::<u64>(PAGE_SIZE), 512);
}

#[test]
fn gigapage_maps_and_unmaps() {
    let mut root = Sv39Table::new();
    let mem = TableMemory::<Sv39Table>::new();
    root.map_gigapage(2 * ONEGIG + 0x1234, 0x8000_0000 + 0x5678, XWRPermissions::from_bits(7).unwrap());
    let e = root.entries()[2];
    assert!(e.valid());
    assert!(e.global());
    assert_eq!(e.physical_addr(), 0x8000_0000);
    // a gigapage leaf maps the whole gibibyte
    assert_eq!(root.virt_to_phys(&mem, 2 * ONEGIG + 0x1234), 0x8000_1234);
    assert_eq!(root.virt_to_phys(&mem, 2 * ONEGIG + (3 << 21) + (4 << 12) + 0x11), 0x8000_0000 + (3 << 21) + (4 << 12) + 0x11);
    root.unmap_gigapage(2 * ONEGIG);
    assert!(!root.entries()[2].valid());
    assert_eq!(root.entries()[2].physical_addr(), 0x8000_0000);
}

#[test]
fn map_page_then_lookup() {
    let mut root = Sv39Table::new();
    let mut mem = TableMemory::<Sv39Table>::new();
    let mut alloc = heap();
    let rw = XWRPermissions::from(Permissions::rw());
    root.map_page(&mut mem, &mut alloc, 0x4000_1000, 0x9000_0123, rw);
    // two tables were allocated, a page each
    assert_eq!(alloc.used(), 2);
    // the walk adds the offset of the address within its page
    assert_eq!(root.virt_to_phys(&mem, 0x4000_1000 + 0x1ff), 0x9000_0000 + 0x1ff);
    assert_eq!(root.virt_to_phys(&mem, 0x4000_1000 + 0x200), 0x9000_0200);
    assert_eq!(root.virt_to_phys(&mem, 0x4000_1fff), 0x9000_0fff);
    // a second page under the same tables allocates nothing
    root.map_page(&mut mem, &mut alloc, 0x4000_2000, 0x9100_0000, rw);
    assert_eq!(alloc.used(), 2);
    assert_eq!(root.virt_to_phys(&mem, 0x4000_2000), 0x9100_0000);
    assert_eq!(root.virt_to_phys(&mem, 0x4000_1000), 0x9000_0000);
    let root_entry = root.entries()[1];
    assert!(root_entry.valid());
    assert!(points_to_next_level(&root_entry));
    assert_eq!(root_entry.physical_addr(), 0x8010_0000);
}

#[test]
fn unmap_page_clears_the_leaf() {
    let mut root = Sv39Table::new();
    let mut mem = TableMemory::<Sv39Table>::new();
    let mut alloc = heap();
    let r = XWRPermissions::read();
    root.map_page(&mut mem, &mut alloc, 0x1000, 0x2000, r);
    root.map_page(&mut mem, &mut alloc, 0x3000, 0x4000, r);
    root.unmap_page(&mut mem, 0x1000);
    assert_eq!(root.virt_to_phys(&mem, 0x3000), 0x4000);
    // the page can be mapped again once unmapped
    root.map_page(&mut mem, &mut alloc, 0x1000, 0x6000, r);
    assert_eq!(root.virt_to_phys(&mem, 0x1000), 0x6000);
    // unmapping an address whose root entry is invalid changes nothing
    root.unmap_page(&mut mem, 5 * ONEGIG);
}

#[test]
fn map_page_range_rounds_outwards() {
    let mut root = Sv39Table::new();
    let mut mem = TableMemory::<Sv39Table>::new();
    let mut alloc = heap();
    let rw = XWRPermissions::from(Permissions::rw());
    root.map_page_range(&mut mem, &mut alloc, 0x10_0800, 0x10_2001, 0x20_0000, rw);
    // pages 0x100, 0x101, 0x102 map to 0x200, 0x201, 0x202
    assert_eq!(root.virt_to_phys(&mem, 0x10_0000), 0x20_0000);
    assert_eq!(root.virt_to_phys(&mem, 0x10_1000), 0x20_1000);
    assert_eq!(root.virt_to_phys(&mem, 0x10_2000), 0x20_2000);
    root.unmap_page_range(&mut mem, 0x10_1000, 0x10_2000);
    assert_eq!(root.virt_to_phys(&mem, 0x10_2000), 0x20_2000);
}

#[test]
fn satp_for_sv39() {
    assert_eq!(satp_value(PagingMode::Sv39, 0x8020_0000), (8u64 << 60) | 0x80200);
}

#[test]
fn table_printer_flags() {
    let leaf = Sv39PTE::new().with_valid(true).with_permissions(XWRPermissions::from_bits(3).unwrap());
    assert_eq!(entry_flags(&leaf), ['V', ' ', 'R', 'W', ' ']);
    let ptr = Sv39PTE::new().with_valid(true).with_global(true);
    assert_eq!(entry_flags(&ptr), ['V', 'G', '*', '*', '*']);
    assert_eq!(entry_flags(&Sv39PTE::new()), [' ', ' ', ' ', ' ', ' ']);
    assert!(!points_to_next_level(&leaf));
    assert!(points_to_next_level(&ptr));
}

#[test]
fn deep_free_of_a_table_of_leaves_frees_only_itself() {
    let mut alloc = heap();
    let root_addr = alloc.try_allocate(PAGE_SIZE).unwrap();
    assert_eq!(alloc.used(), 1);
    let mut root = Sv39Table::new();
    let rx = XWRPermissions::from_bits(5).unwrap();
    for i in 0..512 {
        root.map_gigapage(i * ONEGIG, i * ONEGIG, rx);
    }
    let mem = TableMemory::<Sv39Table>::new();
    root.deep_free(root_addr, &mem, &mut alloc);
    assert_eq!(alloc.used(), 0);
}

#[test]
fn deep_clone_of_a_table_of_leaves_copies_only_the_root() {
    let mut alloc = heap();
    let mut root = Sv39Table::new();
    let rx = XWRPermissions::from_bits(5).unwrap();
    for i in 0..512 {
        root.map_gigapage(i * ONEGIG, i * ONEGIG, rx);
    }
    let mut mem = TableMemory::<Sv39Table>::new();
    let current = Sv39Table::new();
    let old_base = 0x8000_0000usize;
    let new_base = 0x8000_0000usize + 0x10_0000;
    let first_free = 0x8010_0000usize;
    let copy = root.deep_clone(&mut mem, &mut alloc, &current, old_base, new_base);
    assert_eq!(copy, first_free + 0x10_0000);
    let cloned = mem.read(copy).unwrap();
    for i in 0..512 {
        assert_eq!(cloned.entries()[i].into_bits(), root.entries()[i].into_bits());
    }
    // the root copy's page itself was allocated and zeroed
    let page = mem.read(first_free).unwrap();
    assert!(page.entries().iter().all(|e| e.into_bits() == 0));
    assert_eq!(alloc.used(), 1);
}

#[test]
fn deep_clone_translates_as_the_original() {
    let mut alloc = heap();
    let mut root = Sv39Table::new();
    let mut mem = TableMemory::<Sv39Table>::new();
    let rw = XWRPermissions::from(Permissions::rw());
    root.map_page(&mut mem, &mut alloc, 0x4000_1000, 0x9000_0000, rw);
    root.map_page(&mut mem, &mut alloc, 0x4020_3000, 0x9100_0000, rw);
    let used = alloc.used();
    // the current table maps every address to itself
    let mut current = Sv39Table::new();
    for i in 0..512 {
        current.map_gigapage(i * ONEGIG, i * ONEGIG, XWRPermissions::from_bits(7).unwrap());
    }
    let copy_addr = root.deep_clone(&mut mem, &mut alloc, &current, 0x8000_0000, 0x8000_0000);
    // one page for the root copy, one for each of the two tables under it
    assert_eq!(alloc.used(), used + 1 + 1 + 2);
    let copy = mem.read(copy_addr).unwrap();
    for va in [0x4000_1000usize, 0x4000_1abc, 0x4020_3000, 0x4020_3fff] {
        assert_eq!(copy.virt_to_phys(&mem, va), root.virt_to_phys(&mem, va));
    }
    // the copy's tables are new ones
    assert_ne!(copy.entries()[1].physical_addr(), root.entries()[1].physical_addr());
}

#[test]
fn deep_free_frees_the_tables_under_a_real_table() {
    let mut alloc = heap();
    let root_addr = alloc.try_allocate(PAGE_SIZE).unwrap();
    let mut root = Sv39Table::new();
    let mut mem = TableMemory::<Sv39Table>::new();
    let rw = XWRPermissions::from(Permissions::rw());
    root.map_page(&mut mem, &mut alloc, 0x4000_1000, 0x9000_0000, rw);
    root.map_page(&mut mem, &mut alloc, 0x4020_3000, 0x9100_0000, rw);
    // the root's page, one level-1 table and two level-2 tables
    assert_eq!(alloc.used(), 4);
    root.deep_free(root_addr, &mem, &mut alloc);
    assert_eq!(alloc.used(), 0);
}
