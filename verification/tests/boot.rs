use bootloader::arena::Arena;
use bootloader::boot::{BootError, BootState, Fetched, Handoff, SerialClaim};
use bootloader::entry::{Leaf, PageType, PAGE_NX, PAGE_PRESENT, PAGE_WRITE};
use bootloader::image::{Image, Section};
use bootloader::layout::{
    KERNEL_PHYS_WINDOW_BASE, KERNEL_PHYS_WINDOW_SIZE, KERNEL_STACKS_BASE, KERNEL_STACK_PAD,
    KERNEL_STACK_SIZE,
};
use bootloader::phys::read_byte;
use bootloader::spaces::{
    build_kernel, build_trampoline, KernelError, TRAMPOLINE_FLAGS, WINDOW_FLAGS, WINDOW_PAGES,
};
use bootloader::table::MapError;

const ARENA_BASE: u64 = 0x100_0000;
const ARENA_FRAMES: usize = 4096;

fn arena() -> Arena {
    Arena::new(ARENA_BASE, ARENA_FRAMES).expect("arena")
}

fn kernel_image() -> Image {
    let text: Vec<u8> = (0..0x1000u32).map(|i| (i % 253) as u8).collect();
    Image {
        entry_point: 0x10_0040,
        sections: vec![
            Section {
                vaddr: 0x10000,
                vsize: 0x2000,
                raw: text,
                read: true,
                write: false,
                execute: true,
            },
            Section {
                vaddr: 0x20000,
                vsize: 0x1000,
                raw: vec![0xaa; 0x20],
                read: true,
                write: true,
                execute: false,
            },
        ],
    }
}

struct Machine {
    state: BootState,
    mem: Arena,
    downloads: u32,
}

impl Machine {
    fn new() -> Machine {
        Machine { state: BootState::new(), mem: arena(), downloads: 0 }
    }

    fn boot_core(&mut self, bootloader_end: u32) -> Result<Handoff, BootError> {
        let fetched = if self.state.needs_kernel() {
            self.downloads += 1;
            Fetched::Kernel(kernel_image())
        } else {
            Fetched::Skipped
        };
        self.state.enter(&mut self.mem, bootloader_end, fetched)
    }
}

#[test]
fn flags_of_the_two_spaces() {
    assert_eq!(TRAMPOLINE_FLAGS, PAGE_WRITE | PAGE_PRESENT);
    assert_eq!(WINDOW_FLAGS, PAGE_NX | PAGE_WRITE | PAGE_PRESENT);
    assert_eq!(WINDOW_PAGES * 4096, KERNEL_PHYS_WINDOW_SIZE);
}

#[test]
fn trampoline_covers_the_bootloader_at_both_addresses() {
    let mut mem = arena();
    let end: u32 = 0x1_2345;
    let table = build_trampoline(&mut mem, end).unwrap();
    for a in (0..end as u64).step_by(0x333) {
        let low = table.lookup(&mem, a).unwrap();
        let high = table.lookup(&mem, KERNEL_PHYS_WINDOW_BASE + a).unwrap();
        assert_eq!(low, high);
        assert_eq!(low, Leaf { entry: (a & !0xfff) | PAGE_WRITE | PAGE_PRESENT, page: PageType::Page4K });
        assert_eq!(low.phys_addr(a), a);
        assert_eq!(high.phys_addr(KERNEL_PHYS_WINDOW_BASE + a), a);
        assert!(low.is_writable());
        assert!(low.is_executable());
    }
    let last = (end as u64 - 1) | 0xfff;
    assert!(table.lookup(&mem, last).is_some());
    assert_eq!(table.lookup(&mem, last + 1), None);
    assert!(table.lookup(&mem, KERNEL_PHYS_WINDOW_BASE + last).is_some());
    assert_eq!(table.lookup(&mem, KERNEL_PHYS_WINDOW_BASE + last + 1), None);
    assert_eq!(table.lookup(&mem, KERNEL_PHYS_WINDOW_BASE - 1), None);
    assert_eq!(table.lookup(&mem, KERNEL_STACKS_BASE), None);
}

#[test]
fn trampoline_of_an_empty_bootloader_maps_nothing() {
    let mut mem = arena();
    let table = build_trampoline(&mut mem, 0).unwrap();
    assert_eq!(table.lookup(&mem, 0), None);
    assert_eq!(table.lookup(&mem, KERNEL_PHYS_WINDOW_BASE), None);
}

#[test]
fn trampoline_fails_only_for_want_of_frames() {
    let mut mem = Arena::new(ARENA_BASE, 6).unwrap();
    assert!(matches!(build_trampoline(&mut mem, 0x8000), Err(MapError::OutOfFrames)));
    let mut mem = Arena::new(ARENA_BASE, 7).unwrap();
    assert!(build_trampoline(&mut mem, 0x8000).is_ok());
}

#[test]
fn kernel_table_maps_the_whole_physical_window() {
    let mut mem = arena();
    let (table, entry_point) = build_kernel(&mut mem, &kernel_image()).unwrap();
    assert_eq!(entry_point, 0x10_0040);
    let mut p: u64 = 0;
    while p < KERNEL_PHYS_WINDOW_SIZE {
        let leaf = table.lookup(&mem, KERNEL_PHYS_WINDOW_BASE + p).unwrap();
        assert_eq!(leaf.entry, p | PAGE_NX | PAGE_WRITE | PAGE_PRESENT);
        assert_eq!(leaf.page, PageType::Page4K);
        assert_eq!(leaf.frame_addr(), p);
        p += 0x1000;
    }
    assert_eq!(table.lookup(&mem, KERNEL_PHYS_WINDOW_BASE - 1), None);
    assert_eq!(table.lookup(&mem, KERNEL_PHYS_WINDOW_BASE + KERNEL_PHYS_WINDOW_SIZE), None);
    let leaf = table.lookup(&mem, KERNEL_PHYS_WINDOW_BASE + 0x1234_5678).unwrap();
    assert_eq!(leaf.phys_addr(KERNEL_PHYS_WINDOW_BASE + 0x1234_5678), 0x1234_5678);
    assert!(leaf.is_writable());
    assert!(!leaf.is_executable());
}

#[test]
fn kernel_table_holds_the_image() {
    let mut mem = arena();
    let image = kernel_image();
    let (table, _) = build_kernel(&mut mem, &image).unwrap();
    for off in 0..0x2000u64 {
        let want = if off < 0x1000 { image.sections[0].raw[off as usize] } else { 0 };
        let leaf = table.lookup(&mem, 0x10000 + off).unwrap();
        assert_eq!(read_byte(&mem, leaf.phys_addr(0x10000 + off)), want);
        assert!(leaf.is_executable() && !leaf.is_writable());
    }
    let leaf = table.lookup(&mem, 0x20000).unwrap();
    assert!(!leaf.is_executable() && leaf.is_writable());
    assert_eq!(read_byte(&mem, leaf.phys_addr(0x2001f)), 0xaa);
    assert_eq!(read_byte(&mem, leaf.phys_addr(0x20020)), 0);
    assert_eq!(table.lookup(&mem, 0x12000), None);
    assert_eq!(table.lookup(&mem, 0), None);
}

#[test]
fn kernel_table_reports_which_stage_failed() {
    let mut mem = Arena::new(ARENA_BASE, 100).unwrap();
    assert!(matches!(build_kernel(&mut mem, &kernel_image()), Err(KernelError::Window)));
    let mut mem = Arena::new(ARENA_BASE, 2054).unwrap();
    assert!(matches!(
        build_kernel(&mut mem, &kernel_image()),
        Err(KernelError::Section(MapError::OutOfFrames))
    ));
    let mut mem = arena();
    let mut image = kernel_image();
    image.sections[1].vaddr = 0x20010;
    assert!(matches!(
        build_kernel(&mut mem, &image),
        Err(KernelError::Section(MapError::Misaligned))
    ));
    let mut mem = arena();
    let mut image = kernel_image();
    image.sections[1].vaddr = KERNEL_PHYS_WINDOW_BASE + 0x5000;
    assert!(matches!(
        build_kernel(&mut mem, &image),
        Err(KernelError::Section(MapError::AlreadyMapped))
    ));
}

#[test]
fn a_new_state_has_nothing_set() {
    let state = BootState::new();
    assert!(state.needs_kernel());
    assert_eq!(state.kernel_entry(), None);
    assert_eq!(state.kernel_root(), None);
    assert_eq!(state.trampoline_root(), None);
    assert_eq!(state.next_stack(), KERNEL_STACKS_BASE);
    let mem = arena();
    assert_eq!(state.kernel_lookup(&mem, 0x10000), None);
    assert_eq!(state.trampoline_lookup(&mem, 0), None);
}

#[test]
fn one_time_initialization_is_idempotent() {
    let mut state = BootState::new();
    let mut mem = arena();
    assert_eq!(state.load_kernel(&mut mem, 0x8000, &kernel_image()), Ok(()));
    assert!(!state.needs_kernel());
    let entry = state.kernel_entry();
    let root = state.kernel_root();
    let tramp = state.trampoline_root();
    let left = mem.remaining();
    assert_eq!(entry, Some(0x10_0040));
    assert!(root.is_some() && tramp.is_some() && root != tramp);

    let mut other = kernel_image();
    other.entry_point = 0x9999_0000;
    assert_eq!(state.load_kernel(&mut mem, 0x4000, &other), Ok(()));
    assert_eq!(state.kernel_entry(), entry);
    assert_eq!(state.kernel_root(), root);
    assert_eq!(state.trampoline_root(), tramp);
    assert_eq!(mem.remaining(), left);
    assert_eq!(state.next_stack(), KERNEL_STACKS_BASE);
}

#[test]
fn a_failed_initialization_leaves_the_state_unset() {
    let mut state = BootState::new();
    let mut mem = Arena::new(ARENA_BASE, 3).unwrap();
    assert_eq!(state.load_kernel(&mut mem, 0x8000, &kernel_image()), Err(BootError::Trampoline));
    assert!(state.needs_kernel());
    let mut mem = Arena::new(ARENA_BASE, 64).unwrap();
    assert_eq!(state.load_kernel(&mut mem, 0x8000, &kernel_image()), Err(BootError::Window));
    assert!(state.needs_kernel());
    assert_eq!(state.kernel_root(), None);
    assert_eq!(state.trampoline_root(), None);
    let mut mem = arena();
    let mut image = kernel_image();
    image.sections[0].vsize = 0x2001;
    assert_eq!(
        state.load_kernel(&mut mem, 0x8000, &image),
        Err(BootError::Section(MapError::Misaligned))
    );
    assert!(state.needs_kernel());
    assert_eq!(state.next_stack(), KERNEL_STACKS_BASE);
}

#[test]
fn a_core_without_a_kernel_fails_and_claims_nothing() {
    let mut state = BootState::new();
    let mut mem = arena();
    let left = mem.remaining();
    assert_eq!(state.prepare_core(&mut mem), Err(BootError::KernelMissing));
    assert_eq!(state.enter(&mut mem, 0x8000, Fetched::Skipped), Err(BootError::KernelMissing));
    assert_eq!(state.enter(&mut mem, 0x8000, Fetched::Missing), Err(BootError::Download));
    assert_eq!(state.enter(&mut mem, 0x8000, Fetched::Malformed), Err(BootError::Malformed));
    assert_eq!(state.next_stack(), KERNEL_STACKS_BASE);
    assert_eq!(mem.remaining(), left);
    assert!(state.needs_kernel());
}

#[test]
fn three_cores_share_one_kernel_and_get_their_own_stacks() {
    let mut machine = Machine::new();
    let a = machine.boot_core(0x8000).unwrap();
    let b = machine.boot_core(0x8000).unwrap();
    let c = machine.boot_core(0x8000).unwrap();
    assert_eq!(machine.downloads, 1);
    assert_eq!(a.stack, KERNEL_STACKS_BASE + KERNEL_STACK_SIZE);
    assert_eq!(b.stack, a.stack + KERNEL_STACK_SIZE + KERNEL_STACK_PAD);
    assert_eq!(c.stack, b.stack + KERNEL_STACK_SIZE + KERNEL_STACK_PAD);
    for h in [a, b, c] {
        assert_eq!(h.entry_point, 0x10_0040);
        assert_eq!(h.cr3, a.cr3);
        assert_eq!(h.tramp_cr3, a.tramp_cr3);
        assert_eq!(h.phys_window_base, KERNEL_PHYS_WINDOW_BASE);
        assert_eq!(h.stack % 4096, 0);
    }
    assert_ne!(a.cr3, a.tramp_cr3);
    assert_eq!(Some(a.cr3), machine.state.kernel_root());
    assert_eq!(Some(a.tramp_cr3), machine.state.trampoline_root());
    assert_eq!(machine.state.kernel_entry(), Some(0x10_0040));
}

#[test]
fn each_core_s_stack_is_mapped_and_its_guard_is_not() {
    let mut state = BootState::new();
    let mut mem = arena();
    assert_eq!(state.load_kernel(&mut mem, 0x8000, &kernel_image()), Ok(()));
    let first = state.prepare_core(&mut mem).unwrap();
    let second = state.prepare_core(&mut mem).unwrap();
    assert_eq!(Some(first.cr3), state.kernel_root());
    let mut frames = Vec::new();
    for h in [first, second] {
        let base = h.stack - KERNEL_STACK_SIZE;
        for off in (0..KERNEL_STACK_SIZE).step_by(0x1000) {
            let leaf = state.kernel_lookup(&mem, base + off).unwrap();
            assert!(leaf.is_writable());
            assert!(!leaf.is_executable());
            assert_eq!(leaf.page, PageType::Page4K);
            assert_eq!(read_byte(&mem, leaf.phys_addr(base + off)), 0);
            frames.push(leaf.frame_addr());
            assert_eq!(state.trampoline_lookup(&mem, base + off), None);
        }
        for off in (0..KERNEL_STACK_PAD).step_by(0x1000) {
            assert_eq!(state.kernel_lookup(&mem, h.stack + off), None);
        }
        assert_eq!(state.kernel_lookup(&mem, base - 0x1000), None);
    }
    frames.sort();
    frames.dedup();
    assert_eq!(frames.len(), 16);
    assert_eq!(
        state.kernel_lookup(&mem, KERNEL_PHYS_WINDOW_BASE + 0x7000),
        Some(Leaf { entry: 0x7000 | WINDOW_FLAGS, page: PageType::Page4K })
    );
    assert!(state.kernel_lookup(&mem, 0x10000).unwrap().is_executable());
    assert_eq!(
        state.trampoline_lookup(&mem, 0x7000),
        Some(Leaf { entry: 0x7000 | TRAMPOLINE_FLAGS, page: PageType::Page4K })
    );
}

#[test]
fn a_stack_that_cannot_be_mapped_still_consumes_its_ticket() {
    let mut state = BootState::new();
    let mut mem = Arena::new(ARENA_BASE, 2080).unwrap();
    assert_eq!(state.load_kernel(&mut mem, 0x8000, &kernel_image()), Ok(()));
    let mut failed = 0;
    let mut tops = Vec::new();
    for _ in 0..4 {
        match state.prepare_core(&mut mem) {
            Ok(h) => tops.push(h.stack),
            Err(e) => {
                assert_eq!(e, BootError::Stack(MapError::OutOfFrames));
                failed += 1;
            },
        }
    }
    assert!(failed > 0 && !tops.is_empty());
    assert_eq!(state.next_stack(), KERNEL_STACKS_BASE + 4 * (KERNEL_STACK_SIZE + KERNEL_STACK_PAD));
    assert_eq!(state.kernel_entry(), Some(0x10_0040));
}

#[test]
fn a_later_core_ignores_what_it_is_handed() {
    let mut machine = Machine::new();
    let first = machine.boot_core(0x8000).unwrap();
    let mut other = kernel_image();
    other.entry_point = 0x7777_0000;
    let second = machine.state.enter(&mut machine.mem, 0x1000, Fetched::Kernel(other)).unwrap();
    let third = machine.state.enter(&mut machine.mem, 0x1000, Fetched::Missing).unwrap();
    assert_eq!(second.entry_point, first.entry_point);
    assert_eq!(third.entry_point, first.entry_point);
    assert_eq!(second.cr3, first.cr3);
    assert_eq!(third.tramp_cr3, first.tramp_cr3);
    assert_eq!(third.stack, first.stack + 2 * (KERNEL_STACK_SIZE + KERNEL_STACK_PAD));
}

#[test]
fn a_section_over_the_physical_window_aborts_the_first_core() {
    for (write, execute) in [(true, false), (false, true), (true, true), (false, false)] {
        let mut state = BootState::new();
        let mut mem = arena();
        let mut image = kernel_image();
        image.sections.push(Section {
            vaddr: KERNEL_PHYS_WINDOW_BASE + 0x5000,
            vsize: 0x1000,
            raw: vec![0x55; 0x1000],
            read: true,
            write,
            execute,
        });
        assert_eq!(
            state.enter(&mut mem, 0x8000, Fetched::Kernel(image)),
            Err(BootError::Section(MapError::AlreadyMapped))
        );
        assert!(state.needs_kernel());
        assert_eq!(state.kernel_entry(), None);
        assert_eq!(state.kernel_root(), None);
        assert_eq!(state.trampoline_root(), None);
        assert_eq!(state.next_stack(), KERNEL_STACKS_BASE);
    }
}

#[test]
fn two_sections_that_share_a_page_abort_the_first_core() {
    let mut state = BootState::new();
    let mut mem = arena();
    let mut image = kernel_image();
    image.sections.push(Section {
        vaddr: 0x11000,
        vsize: 0x1000,
        raw: vec![0x77; 0x1000],
        read: true,
        write: true,
        execute: false,
    });
    assert_eq!(
        state.enter(&mut mem, 0x8000, Fetched::Kernel(image)),
        Err(BootError::Section(MapError::AlreadyMapped))
    );
    assert!(state.needs_kernel());
    assert_eq!(state.kernel_entry(), None);
    assert_eq!(state.next_stack(), KERNEL_STACKS_BASE);
}

#[test]
fn the_serial_port_is_claimed_once() {
    let mut serial = SerialClaim::new();
    assert!(serial.claim());
    assert!(!serial.claim());
    assert!(!serial.claim());
}

#[test]
fn nothing_is_built_without_a_first_frame() {
    let mut mem = Arena::new(ARENA_BASE, 0).unwrap();
    assert!(matches!(build_trampoline(&mut mem, 0x8000), Err(MapError::OutOfFrames)));
    assert!(matches!(build_kernel(&mut mem, &kernel_image()), Err(KernelError::Window)));
    let mut state = BootState::new();
    assert_eq!(state.load_kernel(&mut mem, 0x8000, &kernel_image()), Err(BootError::Trampoline));
    assert_eq!(
        state.enter(&mut mem, 0x8000, Fetched::Kernel(kernel_image())),
        Err(BootError::Trampoline)
    );
    assert!(state.needs_kernel());
    assert_eq!(state.next_stack(), KERNEL_STACKS_BASE);
}

#[test]
fn the_tables_start_in_the_first_frames_offered() {
    let mut mem = arena();
    let trampoline = build_trampoline(&mut mem, 0x8000).unwrap();
    assert_eq!(trampoline.table(), ARENA_BASE);
    let next = ARENA_BASE + (ARENA_FRAMES as u64) * 4096 - mem.remaining();
    let (kernel, _) = build_kernel(&mut mem, &kernel_image()).unwrap();
    assert_eq!(kernel.table(), next);
}

#[test]
fn a_loaded_state_with_a_dry_allocator_fails_the_core_at_its_stack() {
    let mut state = BootState::new();
    let mut mem = Arena::new(ARENA_BASE, 2080).unwrap();
    assert_eq!(state.load_kernel(&mut mem, 0x8000, &kernel_image()), Ok(()));
    while mem.remaining() > 0 {
        let _ = state.prepare_core(&mut mem);
    }
    let cursor = state.next_stack();
    let root = state.kernel_root();
    assert_eq!(state.prepare_core(&mut mem), Err(BootError::Stack(MapError::OutOfFrames)));
    assert_eq!(state.next_stack(), cursor + KERNEL_STACK_SIZE + KERNEL_STACK_PAD);
    assert_eq!(state.kernel_root(), root);
    assert_eq!(state.kernel_lookup(&mem, cursor), None);
}
