use bootloader::arena::Arena;
use bootloader::entry::{Leaf, PageType, PAGE_NX, PAGE_PRESENT, PAGE_SIZE, PAGE_WRITE};
use bootloader::mapping::{fill, stage};
use bootloader::phys::{read_byte, PhysMem};
use bootloader::table::{MapError, PageTable};

const BASE: u64 = 0x10_0000;

fn arena(frames: usize) -> Arena {
    Arena::new(BASE, frames).expect("arena")
}

fn read_virt(table: &PageTable, mem: &Arena, vaddr: u64) -> Option<u8> {
    let leaf = table.lookup(mem, vaddr)?;
    Some(read_byte(mem, leaf.phys_addr(vaddr)))
}

fn pattern(len: usize) -> Vec<u8> {
    (0..len).map(|i| (i * 7 + 3) as u8).collect()
}

#[test]
fn map_rejects_unaligned_base() {
    let mut mem = arena(16);
    let mut table = PageTable::new(&mut mem).unwrap();
    let left = mem.remaining();
    for vaddr in [1u64, 0x800, 0xfff, 0x1001, 0x7fff_ffff_f008] {
        assert_eq!(
            table.map(&mut mem, vaddr, PageType::Page4K, 0x1000, true, true, false),
            Err(MapError::Misaligned)
        );
    }
    assert_eq!(
        table.map(&mut mem, 0x1000, PageType::Page2M, 0x20_0000, true, true, false),
        Err(MapError::Misaligned)
    );
    assert_eq!(
        table.map(&mut mem, 0x20_0000, PageType::Page1G, 0x4000_0000, true, true, false),
        Err(MapError::Misaligned)
    );
    assert_eq!(mem.remaining(), left);
}

#[test]
fn map_rejects_sizes_that_are_not_whole_pages() {
    let mut mem = arena(16);
    let mut table = PageTable::new(&mut mem).unwrap();
    let left = mem.remaining();
    for size in [0u64, 1, 8, 0xfff, 0x1001, 0x1800, 0x2fff] {
        assert_eq!(
            table.map(&mut mem, 0x1000, PageType::Page4K, size, true, true, false),
            Err(MapError::Misaligned)
        );
        assert_eq!(
            table.map_init(&mut mem, 0x1000, PageType::Page4K, size, true, true, false, &[1, 2]),
            Err(MapError::Misaligned)
        );
    }
    assert_eq!(
        table.map(&mut mem, 0x20_0000, PageType::Page2M, 0x1000, true, true, false),
        Err(MapError::Misaligned)
    );
    assert_eq!(mem.remaining(), left);
    assert_eq!(table.lookup(&mem, 0x1000), None);
}

#[test]
fn map_rejects_ranges_past_the_end_of_the_address_space() {
    let mut mem = arena(16);
    let mut table = PageTable::new(&mut mem).unwrap();
    assert_eq!(
        table.map(&mut mem, 0xffff_ffff_ffff_f000, PageType::Page4K, 0x2000, true, true, false),
        Err(MapError::Misaligned)
    );
    assert_eq!(
        table.map(&mut mem, 0xffff_ffff_ffff_f000, PageType::Page4K, 0x1000, true, true, false),
        Ok(())
    );
    assert!(table.lookup(&mem, u64::MAX).is_some());
}

#[test]
fn map_gives_each_page_a_zeroed_frame_of_its_own() {
    let mut mem = arena(16);
    let mut table = PageTable::new(&mut mem).unwrap();
    assert_eq!(table.map(&mut mem, 0x40_0000, PageType::Page4K, 0x3000, true, true, false), Ok(()));
    let mut frames = Vec::new();
    for k in 0..3u64 {
        let leaf = table.lookup(&mem, 0x40_0000 + k * 0x1000).unwrap();
        assert_eq!(leaf.page, PageType::Page4K);
        assert_eq!(leaf.entry, leaf.frame_addr() | PAGE_PRESENT | PAGE_WRITE | PAGE_NX);
        assert!(leaf.is_writable());
        assert!(!leaf.is_executable());
        assert_eq!(leaf.frame_addr() % 4096, 0);
        frames.push(leaf.frame_addr());
        for off in 0..0x1000u64 {
            assert_eq!(read_virt(&table, &mem, 0x40_0000 + k * 0x1000 + off), Some(0));
        }
    }
    frames.sort();
    frames.dedup();
    assert_eq!(frames.len(), 3);
    assert_eq!(table.lookup(&mem, 0x3f_ffff), None);
    assert_eq!(table.lookup(&mem, 0x40_3000), None);
}

#[test]
fn map_encodes_each_permission() {
    let mut mem = arena(32);
    let mut table = PageTable::new(&mut mem).unwrap();
    let cases = [
        (0x1000u64, false, false, PAGE_PRESENT | PAGE_NX),
        (0x2000, true, false, PAGE_PRESENT | PAGE_WRITE | PAGE_NX),
        (0x3000, false, true, PAGE_PRESENT),
        (0x4000, true, true, PAGE_PRESENT | PAGE_WRITE),
    ];
    for (vaddr, write, execute, flags) in cases {
        assert_eq!(
            table.map(&mut mem, vaddr, PageType::Page4K, 0x1000, true, write, execute),
            Ok(())
        );
        let leaf = table.lookup(&mem, vaddr).unwrap();
        assert_eq!(leaf.entry & !0x000f_ffff_ffff_f000, flags);
        assert_eq!(leaf.is_writable(), write);
        assert_eq!(leaf.is_executable(), execute);
    }
    assert_eq!(table.map(&mut mem, 0x5000, PageType::Page4K, 0x1000, false, true, true), Ok(()));
    assert!(table.lookup(&mem, 0x5000).unwrap().is_writable());
}

#[test]
fn map_init_copies_the_source_then_zero_fills() {
    let mut mem = arena(16);
    let mut table = PageTable::new(&mut mem).unwrap();
    let src = pattern(0x1234);
    assert_eq!(
        table.map_init(&mut mem, 0x80_0000, PageType::Page4K, 0x3000, true, false, false, &src),
        Ok(())
    );
    for off in 0..0x3000u64 {
        let want = if (off as usize) < src.len() { src[off as usize] } else { 0 };
        assert_eq!(read_virt(&table, &mem, 0x80_0000 + off), Some(want), "offset {:#x}", off);
    }
    assert_eq!(read_virt(&table, &mem, 0x80_3000), None);
}

#[test]
fn map_init_ignores_source_bytes_past_the_size() {
    let mut mem = arena(16);
    let mut table = PageTable::new(&mut mem).unwrap();
    let src = pattern(0x2800);
    assert_eq!(
        table.map_init(&mut mem, 0x80_0000, PageType::Page4K, 0x1000, true, false, false, &src),
        Ok(())
    );
    for off in 0..0x1000u64 {
        assert_eq!(read_virt(&table, &mem, 0x80_0000 + off), Some(src[off as usize]));
    }
    assert_eq!(table.lookup(&mem, 0x80_1000), None);
}

#[test]
fn map_init_with_sources_of_odd_lengths() {
    for len in [0usize, 1, 7, 8, 9, 0xfff, 0x1000, 0x1001, 0x1ff9] {
        let mut mem = arena(16);
        let mut table = PageTable::new(&mut mem).unwrap();
        let src = pattern(len);
        assert_eq!(
            table.map_init(&mut mem, 0x1000, PageType::Page4K, 0x2000, true, true, true, &src),
            Ok(())
        );
        for off in 0..0x2000u64 {
            let want = if (off as usize) < len { src[off as usize] } else { 0 };
            assert_eq!(read_virt(&table, &mem, 0x1000 + off), Some(want));
        }
    }
}

#[test]
fn map_init_fills_large_pages() {
    let mut mem = Arena::new(0, 2048).unwrap();
    let mut table = PageTable::new(&mut mem).unwrap();
    let src = pattern(0x3001);
    assert_eq!(
        table.map_init(&mut mem, 0x4000_0000, PageType::Page2M, 0x20_0000, true, true, false, &src),
        Ok(())
    );
    let leaf = table.lookup(&mem, 0x4000_0000).unwrap();
    assert_eq!(leaf.page, PageType::Page2M);
    assert_eq!(leaf.frame_addr() % 0x20_0000, 0);
    assert_eq!(leaf.entry, leaf.frame_addr() | PAGE_PRESENT | PAGE_WRITE | PAGE_NX | PAGE_SIZE);
    for off in [0u64, 1, 0x1000, 0x3000, 0x3001, 0x10_0000, 0x1f_ffff] {
        let want = if (off as usize) < src.len() { src[off as usize] } else { 0 };
        assert_eq!(read_virt(&table, &mem, 0x4000_0000 + off), Some(want));
    }
}

#[test]
fn overlapping_requests_are_rejected_and_nothing_is_overwritten() {
    let mut mem = arena(32);
    let mut table = PageTable::new(&mut mem).unwrap();
    let first = pattern(0x2000);
    assert_eq!(
        table.map_init(&mut mem, 0x2000, PageType::Page4K, 0x2000, true, true, false, &first),
        Ok(())
    );
    let kept: Vec<Leaf> = (0..2u64).map(|k| table.lookup(&mem, 0x2000 + k * 0x1000).unwrap()).collect();
    let other = vec![0xeeu8; 0x3000];
    assert_eq!(
        table.map_init(&mut mem, 0x2000, PageType::Page4K, 0x1000, true, true, false, &other),
        Err(MapError::AlreadyMapped)
    );
    assert_eq!(
        table.map_init(&mut mem, 0x3000, PageType::Page4K, 0x2000, true, true, false, &other),
        Err(MapError::AlreadyMapped)
    );
    assert_eq!(table.lookup(&mem, 0x4000), None);
    assert_eq!(
        table.map(&mut mem, 0x1000, PageType::Page4K, 0x3000, true, true, false),
        Err(MapError::AlreadyMapped)
    );
    for k in 0..2u64 {
        assert_eq!(table.lookup(&mem, 0x2000 + k * 0x1000), Some(kept[k as usize]));
    }
    for off in 0..0x2000u64 {
        assert_eq!(read_virt(&table, &mem, 0x2000 + off), Some(first[off as usize]));
    }
}

#[test]
fn a_run_that_meets_a_taken_slot_keeps_the_pages_before_it() {
    let mut mem = arena(32);
    let mut table = PageTable::new(&mut mem).unwrap();
    assert_eq!(table.map(&mut mem, 0x3000, PageType::Page4K, 0x1000, true, false, false), Ok(()));
    let src = pattern(0x3000);
    assert_eq!(
        table.map_init(&mut mem, 0x1000, PageType::Page4K, 0x3000, true, true, true, &src),
        Err(MapError::AlreadyMapped)
    );
    for off in 0..0x2000u64 {
        assert_eq!(read_virt(&table, &mem, 0x1000 + off), Some(src[off as usize]));
    }
    let leaf = table.lookup(&mem, 0x3000).unwrap();
    assert!(!leaf.is_writable());
    assert_eq!(read_virt(&table, &mem, 0x3000), Some(0));
}

#[test]
fn a_dry_allocator_ends_the_run() {
    let mut mem = arena(6);
    let mut table = PageTable::new(&mut mem).unwrap();
    assert_eq!(
        table.map(&mut mem, 0x1000, PageType::Page4K, 0x4000, true, true, false),
        Err(MapError::OutOfFrames)
    );
    assert!(table.lookup(&mem, 0x1000).is_some());
    assert!(table.lookup(&mem, 0x2000).is_some());
    assert_eq!(table.lookup(&mem, 0x3000), None);
    assert_eq!(mem.remaining(), 0);
}

#[test]
fn stage_claims_and_fills_one_frame() {
    let mut mem = arena(2);
    let src = pattern(20);
    let frame = stage(&mut mem, PageType::Page4K, &src, 4).unwrap();
    assert_eq!(frame, BASE);
    for off in 0..4096u64 {
        let want = if off + 4 < 20 { src[(off + 4) as usize] } else { 0 };
        assert_eq!(read_byte(&mem, frame + off), want);
    }
    assert_eq!(stage(&mut mem, PageType::Page4K, &src, 0), Some(BASE + 0x1000));
    assert_eq!(stage(&mut mem, PageType::Page4K, &src, 0), None);
}

#[test]
fn fill_writes_only_the_region() {
    let mut mem = arena(2);
    let a = mem.alloc_phys(PageType::Page4K).unwrap();
    let b = mem.alloc_phys(PageType::Page4K).unwrap();
    mem.write(b, 0x0101_0101_0101_0101);
    let src = pattern(64);
    fill(&mut mem, a + 0x100, 32, &src, 8);
    for off in 0..32u64 {
        assert_eq!(read_byte(&mem, a + 0x100 + off), src[(off + 8) as usize]);
    }
    assert_eq!(mem.read(a + 0x100 - 8), 0);
    assert_eq!(mem.read(a + 0x100 + 32), 0);
    assert_eq!(mem.read(b), 0x0101_0101_0101_0101);
}

#[test]
fn map_window_maps_physical_memory_linearly() {
    let mut mem = arena(16);
    let mut table = PageTable::new(&mut mem).unwrap();
    let flags = PAGE_WRITE | PAGE_PRESENT;
    assert_eq!(table.map_window(&mut mem, 0xffff_cafe_0000_0000, 0x5001, flags), Ok(()));
    for p in (0..0x6000u64).step_by(0x1000) {
        let leaf = table.lookup(&mem, 0xffff_cafe_0000_0000 + p + 0x123).unwrap();
        assert_eq!(leaf, Leaf { entry: p | flags, page: PageType::Page4K });
        assert_eq!(leaf.phys_addr(0xffff_cafe_0000_0000 + p + 0x123), p + 0x123);
    }
    assert_eq!(table.lookup(&mem, 0xffff_cafe_0000_6000), None);
    assert_eq!(table.lookup(&mem, 0xffff_cafd_ffff_ffff), None);
    assert_eq!(mem.remaining(), 12 * 4096);
}

#[test]
fn map_window_of_nothing_maps_nothing() {
    let mut mem = arena(4);
    let mut table = PageTable::new(&mut mem).unwrap();
    assert_eq!(table.map_window(&mut mem, 0x1000, 0, PAGE_PRESENT), Ok(()));
    assert_eq!(table.lookup(&mem, 0x1000), None);
    assert_eq!(mem.remaining(), 3 * 4096);
}

#[test]
fn map_window_refuses_bad_requests() {
    let mut mem = arena(16);
    let mut table = PageTable::new(&mut mem).unwrap();
    let left = mem.remaining();
    assert_eq!(
        table.map_window(&mut mem, 0x1800, 0x1000, PAGE_PRESENT),
        Err(MapError::Misaligned)
    );
    assert_eq!(
        table.map_window(&mut mem, 0xffff_ffff_ffff_f000, 0x1001, PAGE_PRESENT),
        Err(MapError::Misaligned)
    );
    assert_eq!(table.map_window(&mut mem, 0x1000, 0x1000, PAGE_WRITE), Err(MapError::InvalidEntry));
    assert_eq!(
        table.map_window(&mut mem, 0x1000, 0x1000, 0x1000 | PAGE_PRESENT),
        Err(MapError::InvalidEntry)
    );
    assert_eq!(
        table.map_window(&mut mem, 0, 0x0010_0000_0000_0001, PAGE_PRESENT),
        Err(MapError::InvalidEntry)
    );
    assert_eq!(mem.remaining(), left);
    assert_eq!(table.map_window(&mut mem, 0xffff_ffff_ffff_f000, 0x1000, PAGE_PRESENT), Ok(()));
    let _ = PAGE_SIZE;
}

#[test]
fn map_window_stops_at_a_taken_slot() {
    let mut mem = arena(16);
    let mut table = PageTable::new(&mut mem).unwrap();
    assert_eq!(table.map_raw(&mut mem, 0x3000, PageType::Page4K, 0x9000 | PAGE_PRESENT), Ok(()));
    assert_eq!(
        table.map_window(&mut mem, 0x1000, 0x4000, PAGE_PRESENT),
        Err(MapError::AlreadyMapped)
    );
    assert_eq!(
        table.lookup(&mem, 0x1000),
        Some(Leaf { entry: PAGE_PRESENT, page: PageType::Page4K })
    );
    assert_eq!(
        table.lookup(&mem, 0x2000),
        Some(Leaf { entry: 0x1000 | PAGE_PRESENT, page: PageType::Page4K })
    );
    assert_eq!(
        table.lookup(&mem, 0x3000),
        Some(Leaf { entry: 0x9000 | PAGE_PRESENT, page: PageType::Page4K })
    );
    assert_eq!(table.lookup(&mem, 0x4000), None);
}

#[test]
fn a_window_whose_tables_exist_needs_no_frame() {
    let mut mem = arena(4);
    let mut table = PageTable::new(&mut mem).unwrap();
    let flags = PAGE_WRITE | PAGE_PRESENT;
    assert_eq!(table.map_window(&mut mem, 0x1000, 0x2000, flags), Ok(()));
    assert_eq!(mem.remaining(), 0);
    assert_eq!(table.map_window(&mut mem, 0x10_0000, 0x3001, flags), Ok(()));
    for p in (0..0x4000u64).step_by(0x1000) {
        assert_eq!(
            table.lookup(&mem, 0x10_0000 + p),
            Some(Leaf { entry: p | flags, page: PageType::Page4K })
        );
    }
    assert_eq!(table.lookup(&mem, 0x10_4000), None);
    assert_eq!(
        table.map_window(&mut mem, 0x20_0000, 0x1000, flags),
        Err(MapError::OutOfFrames)
    );
}

#[test]
fn a_dry_allocator_refuses_a_run_before_anything_is_done() {
    let mut mem = arena(1);
    let mut table = PageTable::new(&mut mem).unwrap();
    assert_eq!(mem.remaining(), 0);
    assert_eq!(
        table.map(&mut mem, 0x1000, PageType::Page4K, 0x2000, true, true, false),
        Err(MapError::OutOfFrames)
    );
    assert_eq!(
        table.map_init(&mut mem, 0x1000, PageType::Page4K, 0x1000, true, true, false, &[1, 2, 3]),
        Err(MapError::OutOfFrames)
    );
    assert_eq!(
        table.map_window(&mut mem, 0x1000, 0x1000, PAGE_PRESENT),
        Err(MapError::OutOfFrames)
    );
    assert_eq!(table.lookup(&mem, 0x1000), None);
    assert_eq!(mem.read(table.table()), 0);
}
