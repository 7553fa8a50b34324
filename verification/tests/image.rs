use bootloader::arena::Arena;
use bootloader::entry::{Leaf, PageType, PAGE_NX, PAGE_PRESENT, PAGE_WRITE};
use bootloader::image::{load_image, Image, Section};
use bootloader::phys::read_byte;
use bootloader::table::{MapError, PageTable};

fn arena(frames: usize) -> Arena {
    Arena::new(0x10_0000, frames).expect("arena")
}

fn read_virt(table: &PageTable, mem: &Arena, vaddr: u64) -> Option<u8> {
    let leaf = table.lookup(mem, vaddr)?;
    Some(read_byte(mem, leaf.phys_addr(vaddr)))
}

fn section(vaddr: u64, vsize: u64, raw: Vec<u8>, read: bool, write: bool, execute: bool) -> Section {
    Section { vaddr, vsize, raw, read, write, execute }
}

#[test]
fn section_with_short_raw_data_is_zero_filled() {
    let mut mem = arena(16);
    let mut table = PageTable::new(&mut mem).unwrap();
    let raw: Vec<u8> = (0..0x1000u32).map(|i| (i % 251) as u8 + 1).collect();
    let image = Image {
        entry_point: 0x10_040,
        sections: vec![section(0x10000, 0x2000, raw.clone(), true, false, true)],
    };
    assert_eq!(load_image(&mut table, &mut mem, &image), Ok(0x10_040));
    for off in 0..0x1000u64 {
        assert_eq!(read_virt(&table, &mem, 0x10000 + off), Some(raw[off as usize]));
    }
    for off in 0x1000..0x2000u64 {
        assert_eq!(read_virt(&table, &mem, 0x10000 + off), Some(0));
    }
    for vaddr in [0x10000u64, 0x10fff, 0x11000, 0x11fff] {
        let leaf = table.lookup(&mem, vaddr).unwrap();
        assert!(leaf.is_executable());
        assert!(!leaf.is_writable());
        assert_eq!(leaf.page, PageType::Page4K);
    }
    assert_eq!(table.lookup(&mem, 0xffff), None);
    assert_eq!(table.lookup(&mem, 0x12000), None);
}

#[test]
fn sections_load_in_order_each_with_its_own_permissions() {
    let mut mem = arena(32);
    let mut table = PageTable::new(&mut mem).unwrap();
    let text = vec![0xccu8; 0x1800];
    let data = vec![0x11u8; 0x10];
    let image = Image {
        entry_point: 0x40_1000,
        sections: vec![
            section(0x40_1000, 0x2000, text.clone(), true, false, true),
            section(0x40_3000, 0x1000, data.clone(), true, true, false),
            section(0x40_4000, 0x1000, Vec::new(), true, true, false),
            section(0x40_5000, 0x1000, vec![9u8; 0x1000], true, false, false),
        ],
    };
    assert_eq!(load_image(&mut table, &mut mem, &image), Ok(0x40_1000));
    let text_leaf = table.lookup(&mem, 0x40_1000).unwrap();
    assert!(text_leaf.is_executable() && !text_leaf.is_writable());
    let data_leaf = table.lookup(&mem, 0x40_3000).unwrap();
    assert!(!data_leaf.is_executable() && data_leaf.is_writable());
    let bss_leaf = table.lookup(&mem, 0x40_4000).unwrap();
    assert!(!bss_leaf.is_executable() && bss_leaf.is_writable());
    let ro_leaf = table.lookup(&mem, 0x40_5000).unwrap();
    assert!(!ro_leaf.is_executable() && !ro_leaf.is_writable());
    assert_eq!(read_virt(&table, &mem, 0x40_1000 + 0x17ff), Some(0xcc));
    assert_eq!(read_virt(&table, &mem, 0x40_1000 + 0x1800), Some(0));
    assert_eq!(read_virt(&table, &mem, 0x40_3000 + 0xf), Some(0x11));
    assert_eq!(read_virt(&table, &mem, 0x40_3000 + 0x10), Some(0));
    assert_eq!(read_virt(&table, &mem, 0x40_4000), Some(0));
    assert_eq!(read_virt(&table, &mem, 0x40_5fff), Some(9));
    let mut frames: Vec<u64> = (0..5u64)
        .map(|k| table.lookup(&mem, 0x40_1000 + k * 0x1000).unwrap().frame_addr())
        .collect();
    frames.sort();
    frames.dedup();
    assert_eq!(frames.len(), 5);
}

#[test]
fn an_image_without_sections_loads_to_its_entry_point() {
    let mut mem = arena(4);
    let mut table = PageTable::new(&mut mem).unwrap();
    let image = Image { entry_point: 0xdead_b000, sections: Vec::new() };
    assert_eq!(load_image(&mut table, &mut mem, &image), Ok(0xdead_b000));
    assert_eq!(mem.remaining(), 3 * 4096);
}

#[test]
fn a_misplaced_section_fails_the_load() {
    for (vaddr, vsize) in [(0x10800u64, 0x1000u64), (0x10000, 0x1234), (0x10000, 0)] {
        let mut mem = arena(16);
        let mut table = PageTable::new(&mut mem).unwrap();
        let image = Image {
            entry_point: 0,
            sections: vec![
                section(0x8000, 0x1000, vec![1, 2, 3], true, false, false),
                section(vaddr, vsize, vec![4, 5, 6], true, true, false),
            ],
        };
        assert_eq!(load_image(&mut table, &mut mem, &image), Err(MapError::Misaligned));
        assert_eq!(read_virt(&table, &mem, 0x8001), Some(2));
        assert_eq!(table.lookup(&mem, 0x10000), None);
    }
}

#[test]
fn overlapping_sections_fail_the_load() {
    let mut mem = arena(16);
    let mut table = PageTable::new(&mut mem).unwrap();
    let image = Image {
        entry_point: 0,
        sections: vec![
            section(0x8000, 0x2000, vec![1; 0x2000], true, false, false),
            section(0x9000, 0x1000, vec![2; 0x1000], true, true, false),
        ],
    };
    assert_eq!(load_image(&mut table, &mut mem, &image), Err(MapError::AlreadyMapped));
    assert_eq!(read_virt(&table, &mem, 0x9000), Some(1));
    assert!(!table.lookup(&mem, 0x9000).unwrap().is_writable());
}

#[test]
fn loading_stops_when_frames_run_out() {
    let mut mem = arena(5);
    let mut table = PageTable::new(&mut mem).unwrap();
    let image = Image {
        entry_point: 0x8000,
        sections: vec![section(0x8000, 0x3000, vec![7; 0x3000], true, false, true)],
    };
    assert_eq!(load_image(&mut table, &mut mem, &image), Err(MapError::OutOfFrames));
}

#[test]
fn a_section_over_a_window_is_rejected_and_the_window_stays() {
    let window: u64 = 0xffff_cafe_0000_0000;
    let flags = PAGE_NX | PAGE_WRITE | PAGE_PRESENT;
    let mut mem = arena(32);
    let mut table = PageTable::new(&mut mem).unwrap();
    assert_eq!(table.map_window(&mut mem, window, 0x8000, flags), Ok(()));
    let image = Image {
        entry_point: 0x8000,
        sections: vec![
            section(0x8000, 0x1000, vec![1; 0x10], true, false, true),
            section(window + 0x5000, 0x2000, vec![2; 0x2000], true, true, false),
        ],
    };
    assert_eq!(load_image(&mut table, &mut mem, &image), Err(MapError::AlreadyMapped));
    for p in (0..0x8000u64).step_by(0x1000) {
        assert_eq!(
            table.lookup(&mem, window + p),
            Some(Leaf { entry: p | flags, page: PageType::Page4K })
        );
    }
    assert_eq!(read_virt(&table, &mem, 0x8000), Some(1));
}

#[test]
fn a_section_that_starts_below_a_window_stops_where_it_meets_it() {
    let window: u64 = 0x40_0000;
    let flags = PAGE_NX | PAGE_WRITE | PAGE_PRESENT;
    let mut mem = arena(32);
    let mut table = PageTable::new(&mut mem).unwrap();
    assert_eq!(table.map_window(&mut mem, window, 0x2000, flags), Ok(()));
    let image = Image {
        entry_point: 0,
        sections: vec![section(window - 0x1000, 0x2000, vec![3; 0x2000], true, true, false)],
    };
    assert_eq!(load_image(&mut table, &mut mem, &image), Err(MapError::AlreadyMapped));
    assert_eq!(read_virt(&table, &mem, window - 0x1000), Some(3));
    assert_eq!(
        table.lookup(&mem, window),
        Some(Leaf { entry: flags, page: PageType::Page4K })
    );
}

#[test]
fn a_misplaced_first_section_fails_before_any_frame_is_claimed() {
    for (vaddr, vsize) in [(0x10800u64, 0x1000u64), (0x10000, 0x1234), (0x10000, 0)] {
        let mut mem = arena(16);
        let mut table = PageTable::new(&mut mem).unwrap();
        let left = mem.remaining();
        let image = Image {
            entry_point: 0,
            sections: vec![
                section(vaddr, vsize, vec![4, 5, 6], true, true, false),
                section(0x8000, 0x1000, vec![1, 2, 3], true, false, false),
            ],
        };
        assert_eq!(load_image(&mut table, &mut mem, &image), Err(MapError::Misaligned));
        assert_eq!(mem.remaining(), left);
        assert_eq!(table.lookup(&mem, 0x8000), None);
    }
}

#[test]
fn a_dry_allocator_fails_a_well_placed_first_section_at_once() {
    let mut mem = arena(1);
    let mut table = PageTable::new(&mut mem).unwrap();
    let image = Image {
        entry_point: 0x8000,
        sections: vec![section(0x8000, 0x1000, vec![7; 0x1000], true, false, true)],
    };
    assert_eq!(load_image(&mut table, &mut mem, &image), Err(MapError::OutOfFrames));
    assert_eq!(table.lookup(&mem, 0x8000), None);
}
