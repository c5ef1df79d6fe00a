use scraps::aarch64_mmu::{identity_map_low_memory, map_page, virt_to_phys, PageTable, LEVEL_MIB_2, PTE, PTEType};
use scraps::page_alloc::{PhysicalPageAllocator, HEAP_SIZE};
use scraps::table_memory::TableMemory;

fn heap() -> PhysicalPageAllocator<HEAP_SIZE> {
    let mut a = PhysicalPageAllocator::<HEAP_SIZE>::new();
    a.init(0x4000_0000);
    a
}

#[test]
fn aarch64_pte_fields() {
    let mut e = PTE::new();
    assert!(!e.valid());
    e.set_addr(0x12345);
    e.set_ptype(PTEType::Table);
    e.set_valid(true);
    assert!(e.valid());
    assert_eq!(e.addr(), 0x12345);
    assert_eq!(e.ptype(), PTEType::Table);
    assert_eq!(e.into_bits(), (0x12345 << 12) | 0b11);
}

#[test]
fn aarch64_block_mapping_and_lookup() {
    let mut root = PageTable::new();
    let mut mem = TableMemory::<PageTable>::new();
    let mut alloc = heap();
    map_page(&mut root, &mut mem, &mut alloc, 0x0060_0000, 0x0060_0000, LEVEL_MIB_2);
    assert_eq!(alloc.used(), 1);
    assert_eq!(virt_to_phys(&root, &mem, 0x0060_1234), Some(0x0060_1234));
    assert_eq!(virt_to_phys(&root, &mem, 0x0080_0000), None);
    assert_eq!(virt_to_phys(&root, &mem, 0x4000_0000), None);
}

#[test]
fn aarch64_gigabyte_and_page_blocks() {
    let mut root = PageTable::new();
    let mut mem = TableMemory::<PageTable>::new();
    let mut alloc = heap();
    map_page(&mut root, &mut mem, &mut alloc, 0x4000_0000, 0x8000_0000, 0);
    assert_eq!(alloc.used(), 0);
    assert_eq!(virt_to_phys(&root, &mem, 0x4123_4567), Some(0x8123_4567));
    map_page(&mut root, &mut mem, &mut alloc, 0x1000, 0xFE00_1000, 2);
    assert_eq!(alloc.used(), 2);
    assert_eq!(virt_to_phys(&root, &mem, 0x1abc), Some(0xFE00_1abc));
}

#[test]
fn aarch64_identity_map_of_low_memory() {
    let mut root = PageTable::new();
    let mut mem = TableMemory::<PageTable>::new();
    let mut alloc = heap();
    identity_map_low_memory(&mut root, &mut mem, &mut alloc);
    assert_eq!(alloc.used(), 4);
    assert_eq!(virt_to_phys(&root, &mem, 0x1234_5678), Some(0x1234_5678));
    assert_eq!(virt_to_phys(&root, &mem, 0xFFFF_FFFF), Some(0xFFFF_FFFF));
}
