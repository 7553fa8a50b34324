use bootloader::arena::Arena;
use bootloader::entry::{
    Leaf, PageType, PAGE_NX, PAGE_PRESENT, PAGE_SIZE, PAGE_USER, PAGE_WRITE,
};
use bootloader::phys::PhysMem;
use bootloader::table::{MapError, PageTable};

const BASE: u64 = 0x10_0000;

fn arena(frames: usize) -> Arena {
    Arena::new(BASE, frames).expect("arena")
}

#[test]
fn new_table_maps_nothing() {
    let mut mem = arena(16);
    let table = PageTable::new(&mut mem).unwrap();
    assert_eq!(table.table(), BASE);
    assert_eq!(table.lookup(&mem, 0), None);
    assert_eq!(table.lookup(&mem, 0xffff_cafe_0000_0000), None);
    assert_eq!(table.lookup(&mem, 0x7fff_ffff_f000), None);
    assert_eq!(table.lookup(&mem, u64::MAX), None);
}

#[test]
fn new_table_needs_one_frame() {
    let mut mem = arena(0);
    assert!(matches!(PageTable::new(&mut mem), Err(MapError::OutOfFrames)));
    let mut mem = arena(1);
    assert!(PageTable::new(&mut mem).is_ok());
    assert_eq!(mem.remaining(), 0);
}

#[test]
fn map_raw_installs_exactly_the_given_entry() {
    let mut mem = arena(16);
    let mut table = PageTable::new(&mut mem).unwrap();
    let raw = 0x5000 | PAGE_WRITE | PAGE_PRESENT;
    assert_eq!(table.map_raw(&mut mem, 0x40_1000, PageType::Page4K, raw), Ok(()));
    let leaf = table.lookup(&mem, 0x40_1234).unwrap();
    assert_eq!(leaf, Leaf { entry: raw, page: PageType::Page4K });
    assert_eq!(leaf.frame_addr(), 0x5000);
    assert_eq!(leaf.phys_addr(0x40_1234), 0x5234);
    assert!(leaf.is_writable());
    assert!(leaf.is_executable());
    assert_eq!(table.lookup(&mem, 0x40_1000), Some(leaf));
    assert_eq!(table.lookup(&mem, 0x40_1fff), Some(leaf));
    assert_eq!(table.lookup(&mem, 0x40_0fff), None);
    assert_eq!(table.lookup(&mem, 0x40_2000), None);
}

#[test]
fn map_raw_writes_the_walk_the_processor_reads() {
    let mut mem = arena(16);
    let mut table = PageTable::new(&mut mem).unwrap();
    let vaddr: u64 = (3 << 39) | (5 << 30) | (7 << 21) | (9 << 12);
    let raw = 0xabc000 | PAGE_NX | PAGE_PRESENT;
    assert_eq!(table.map_raw(&mut mem, vaddr, PageType::Page4K, raw), Ok(()));
    let link = PAGE_USER | PAGE_WRITE | PAGE_PRESENT;
    let l0 = mem.read(table.table() + 8 * 3);
    assert_eq!(l0, (BASE + 0x1000) | link);
    let l1 = mem.read((l0 & 0x000f_ffff_ffff_f000) + 8 * 5);
    assert_eq!(l1, (BASE + 0x2000) | link);
    let l2 = mem.read((l1 & 0x000f_ffff_ffff_f000) + 8 * 7);
    assert_eq!(l2, (BASE + 0x3000) | link);
    let l3 = mem.read((l2 & 0x000f_ffff_ffff_f000) + 8 * 9);
    assert_eq!(l3, raw);
    assert_eq!(mem.read((l2 & 0x000f_ffff_ffff_f000) + 8 * 8), 0);
}

#[test]
fn map_raw_shares_intermediate_tables() {
    let mut mem = arena(16);
    let mut table = PageTable::new(&mut mem).unwrap();
    let before = mem.remaining();
    assert_eq!(table.map_raw(&mut mem, 0x1000, PageType::Page4K, 0x1003), Ok(()));
    assert_eq!(before - mem.remaining(), 3 * 4096);
    let before = mem.remaining();
    assert_eq!(table.map_raw(&mut mem, 0x2000, PageType::Page4K, 0x2003), Ok(()));
    assert_eq!(before - mem.remaining(), 0);
    let before = mem.remaining();
    assert_eq!(table.map_raw(&mut mem, 0x20_0000, PageType::Page4K, 0x3003), Ok(()));
    assert_eq!(before - mem.remaining(), 4096);
}

#[test]
fn map_raw_rejects_unaligned_base() {
    let mut mem = arena(16);
    let mut table = PageTable::new(&mut mem).unwrap();
    let raw = 0x5000 | PAGE_PRESENT;
    assert_eq!(table.map_raw(&mut mem, 0x1001, PageType::Page4K, raw), Err(MapError::Misaligned));
    assert_eq!(table.map_raw(&mut mem, 0x1800, PageType::Page4K, raw), Err(MapError::Misaligned));
    let big = 0x20_0000 | PAGE_SIZE | PAGE_PRESENT;
    assert_eq!(table.map_raw(&mut mem, 0x1000, PageType::Page2M, big), Err(MapError::Misaligned));
    assert_eq!(
        table.map_raw(&mut mem, 0x20_0000, PageType::Page1G, big),
        Err(MapError::Misaligned)
    );
    assert_eq!(mem.remaining(), 15 * 4096);
    assert_eq!(table.lookup(&mem, 0x1001), None);
}

#[test]
fn map_raw_rejects_values_that_are_not_leaves() {
    let mut mem = arena(16);
    let mut table = PageTable::new(&mut mem).unwrap();
    assert_eq!(
        table.map_raw(&mut mem, 0x1000, PageType::Page4K, 0x5000 | PAGE_WRITE),
        Err(MapError::InvalidEntry)
    );
    assert_eq!(table.map_raw(&mut mem, 0x1000, PageType::Page4K, 0), Err(MapError::InvalidEntry));
    assert_eq!(
        table.map_raw(&mut mem, 0x20_0000, PageType::Page2M, 0x20_0000 | PAGE_PRESENT),
        Err(MapError::InvalidEntry)
    );
    assert_eq!(
        table.map_raw(&mut mem, 0x4000_0000, PageType::Page1G, 0x4000_0000 | PAGE_PRESENT),
        Err(MapError::InvalidEntry)
    );
    assert_eq!(mem.remaining(), 15 * 4096);
}

#[test]
fn map_raw_never_overwrites() {
    let mut mem = arena(16);
    let mut table = PageTable::new(&mut mem).unwrap();
    let first = 0x5000 | PAGE_PRESENT;
    let second = 0x6000 | PAGE_WRITE | PAGE_PRESENT;
    assert_eq!(table.map_raw(&mut mem, 0x1000, PageType::Page4K, first), Ok(()));
    let left = mem.remaining();
    assert_eq!(
        table.map_raw(&mut mem, 0x1000, PageType::Page4K, second),
        Err(MapError::AlreadyMapped)
    );
    assert_eq!(
        table.map_raw(&mut mem, 0x1000, PageType::Page4K, first),
        Err(MapError::AlreadyMapped)
    );
    assert_eq!(mem.remaining(), left);
    assert_eq!(
        table.lookup(&mem, 0x1000),
        Some(Leaf { entry: first, page: PageType::Page4K })
    );
}

#[test]
fn large_pages_end_the_walk_early() {
    let mut mem = arena(16);
    let mut table = PageTable::new(&mut mem).unwrap();
    let two_m = 0x4000_0000 | PAGE_SIZE | PAGE_WRITE | PAGE_PRESENT;
    assert_eq!(table.map_raw(&mut mem, 0x20_0000, PageType::Page2M, two_m), Ok(()));
    let leaf = table.lookup(&mem, 0x20_0000 + 0x12_3456).unwrap();
    assert_eq!(leaf, Leaf { entry: two_m, page: PageType::Page2M });
    assert_eq!(leaf.phys_addr(0x20_0000 + 0x12_3456), 0x4000_0000 + 0x12_3456);
    assert_eq!(table.lookup(&mem, 0x1f_ffff), None);
    assert_eq!(table.lookup(&mem, 0x40_0000), None);

    let one_g = 0x8000_0000 | PAGE_SIZE | PAGE_PRESENT;
    assert_eq!(table.map_raw(&mut mem, 0x4000_0000, PageType::Page1G, one_g), Ok(()));
    let leaf = table.lookup(&mem, 0x4000_0000 + 0x1234_5678).unwrap();
    assert_eq!(leaf, Leaf { entry: one_g, page: PageType::Page1G });
    assert_eq!(leaf.phys_addr(0x4000_0000 + 0x1234_5678), 0x8000_0000 + 0x1234_5678);
}

#[test]
fn pages_of_different_sizes_cannot_overlap() {
    let mut mem = arena(16);
    let mut table = PageTable::new(&mut mem).unwrap();
    let two_m = 0x4000_0000 | PAGE_SIZE | PAGE_PRESENT;
    let small = 0x5000 | PAGE_PRESENT;
    assert_eq!(table.map_raw(&mut mem, 0x20_0000, PageType::Page2M, two_m), Ok(()));
    assert_eq!(
        table.map_raw(&mut mem, 0x20_3000, PageType::Page4K, small),
        Err(MapError::AlreadyMapped)
    );
    assert_eq!(table.map_raw(&mut mem, 0x40_3000, PageType::Page4K, small), Ok(()));
    assert_eq!(
        table.map_raw(&mut mem, 0x40_0000, PageType::Page2M, two_m),
        Err(MapError::AlreadyMapped)
    );
    assert_eq!(
        table.map_raw(&mut mem, 0, PageType::Page1G, 0x4000_0000 | PAGE_SIZE | PAGE_PRESENT),
        Err(MapError::AlreadyMapped)
    );
    assert_eq!(table.lookup(&mem, 0x40_3000), Some(Leaf { entry: small, page: PageType::Page4K }));
}

#[test]
fn map_raw_reports_a_dry_allocator_and_maps_nothing() {
    let mut mem = arena(3);
    let mut table = PageTable::new(&mut mem).unwrap();
    let raw = 0x5000 | PAGE_PRESENT;
    assert_eq!(table.map_raw(&mut mem, 0x1000, PageType::Page4K, raw), Err(MapError::OutOfFrames));
    assert_eq!(table.lookup(&mem, 0x1000), None);
    assert_eq!(mem.remaining(), 0);
    let mut mem = arena(4);
    let mut table = PageTable::new(&mut mem).unwrap();
    assert_eq!(table.map_raw(&mut mem, 0x1000, PageType::Page4K, raw), Ok(()));
    assert_eq!(
        table.map_raw(&mut mem, 0x20_0000, PageType::Page4K, raw),
        Err(MapError::OutOfFrames)
    );
    assert_eq!(table.map_raw(&mut mem, 0x2000, PageType::Page4K, raw), Ok(()));
}

#[test]
fn translation_ignores_the_bits_above_the_forty_eighth() {
    let mut mem = arena(16);
    let mut table = PageTable::new(&mut mem).unwrap();
    let raw = 0x5000 | PAGE_PRESENT;
    assert_eq!(table.map_raw(&mut mem, 0x0000_cafe_0000_0000, PageType::Page4K, raw), Ok(()));
    assert_eq!(
        table.lookup(&mem, 0xffff_cafe_0000_0123),
        Some(Leaf { entry: raw, page: PageType::Page4K })
    );
    assert_eq!(
        table.map_raw(&mut mem, 0xffff_cafe_0000_0000, PageType::Page4K, raw),
        Err(MapError::AlreadyMapped)
    );
}

#[test]
fn two_tables_in_one_memory_do_not_disturb_each_other() {
    let mut mem = arena(32);
    let mut first = PageTable::new(&mut mem).unwrap();
    let mut second = PageTable::new(&mut mem).unwrap();
    assert_ne!(first.table(), second.table());
    let a = 0x5000 | PAGE_PRESENT;
    let b = 0x6000 | PAGE_PRESENT;
    assert_eq!(first.map_raw(&mut mem, 0x1000, PageType::Page4K, a), Ok(()));
    assert_eq!(second.map_raw(&mut mem, 0x1000, PageType::Page4K, b), Ok(()));
    assert_eq!(second.map_raw(&mut mem, 0x2000, PageType::Page4K, b), Ok(()));
    assert_eq!(first.lookup(&mem, 0x1000), Some(Leaf { entry: a, page: PageType::Page4K }));
    assert_eq!(first.lookup(&mem, 0x2000), None);
    assert_eq!(second.lookup(&mem, 0x1000), Some(Leaf { entry: b, page: PageType::Page4K }));
}
