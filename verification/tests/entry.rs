use bootloader::entry::{
    make_flags, table_index, Leaf, PageType, FRAME_BYTES, PAGE_ADDR_MASK, PAGE_NX, PAGE_PRESENT,
    PAGE_SIZE, PAGE_USER, PAGE_WRITE, PHYS_LIMIT, TABLE_ENTRIES,
};

#[test]
fn page_sizes_and_levels() {
    assert_eq!(PageType::Page4K.size(), 4096);
    assert_eq!(PageType::Page2M.size(), 2 * 1024 * 1024);
    assert_eq!(PageType::Page1G.size(), 1024 * 1024 * 1024);
    assert_eq!(PageType::Page4K.depth(), 3);
    assert_eq!(PageType::Page2M.depth(), 2);
    assert_eq!(PageType::Page1G.depth(), 1);
    assert_eq!(PageType::from_depth(1), PageType::Page1G);
    assert_eq!(PageType::from_depth(2), PageType::Page2M);
    assert_eq!(PageType::from_depth(3), PageType::Page4K);
}

#[test]
fn entry_bits_are_the_architecture_s() {
    assert_eq!(PAGE_PRESENT, 1 << 0);
    assert_eq!(PAGE_WRITE, 1 << 1);
    assert_eq!(PAGE_USER, 1 << 2);
    assert_eq!(PAGE_SIZE, 1 << 7);
    assert_eq!(PAGE_NX, 1 << 63);
    assert_eq!(PAGE_ADDR_MASK, 0x000f_ffff_ffff_f000);
    assert_eq!(TABLE_ENTRIES * 8, FRAME_BYTES);
    assert_eq!(PHYS_LIMIT, 1 << 52);
}

#[test]
fn index_takes_nine_bits_per_level() {
    let vaddr: u64 = (0x1ff << 39) | (0x0aa << 30) | (0x155 << 21) | (0x001 << 12) | 0xfff;
    assert_eq!(table_index(vaddr, 0), 0x1ff);
    assert_eq!(table_index(vaddr, 1), 0x0aa);
    assert_eq!(table_index(vaddr, 2), 0x155);
    assert_eq!(table_index(vaddr, 3), 0x001);
    assert_eq!(table_index(0xffff_cafe_0000_0000, 0), 0x195);
    assert_eq!(table_index(0xffff_cafe_0000_0000, 1), 0x1f8);
    assert_eq!(table_index(u64::MAX, 3), 0x1ff);
    assert_eq!(table_index(0, 0), 0);
}

#[test]
fn flags_follow_permissions() {
    assert_eq!(make_flags(PageType::Page4K, false, false), PAGE_PRESENT | PAGE_NX);
    assert_eq!(make_flags(PageType::Page4K, true, false), PAGE_PRESENT | PAGE_WRITE | PAGE_NX);
    assert_eq!(make_flags(PageType::Page4K, false, true), PAGE_PRESENT);
    assert_eq!(make_flags(PageType::Page4K, true, true), PAGE_PRESENT | PAGE_WRITE);
    assert_eq!(make_flags(PageType::Page2M, true, true), PAGE_PRESENT | PAGE_WRITE | PAGE_SIZE);
    assert_eq!(make_flags(PageType::Page1G, false, false), PAGE_PRESENT | PAGE_NX | PAGE_SIZE);
}

#[test]
fn leaf_reads_its_fields() {
    let leaf = Leaf { entry: 0x8000_0000_0012_3003, page: PageType::Page4K };
    assert_eq!(leaf.frame_addr(), 0x12_3000);
    assert!(leaf.is_writable());
    assert!(!leaf.is_executable());
    assert_eq!(leaf.phys_addr(0xffff_8000_0000_0abc), 0x12_3abc);
    let leaf = Leaf { entry: 0x4000_0081, page: PageType::Page1G };
    assert_eq!(leaf.frame_addr(), 0x4000_0000);
    assert!(!leaf.is_writable());
    assert!(leaf.is_executable());
    assert_eq!(leaf.phys_addr(0x1_2345_6789), 0x4000_0000 + 0x2345_6789);
}
