//! The two address spaces of the bootstrap: the trampoline table, which
//! carries execution through the switch to long mode, and the kernel table.

use vstd::prelude::*;
use crate::entry;
use crate::entry::Leaf;
use crate::entry::PageType;
use crate::image;
use crate::image::Image;
use crate::layout::KERNEL_PHYS_WINDOW_BASE;
use crate::layout::KERNEL_PHYS_WINDOW_SIZE;
use crate::mapping;
use crate::phys;
use crate::phys::PhysMem;
use crate::table;
use crate::table::MapError;
use crate::table::PageTable;
use crate::table::Slot;

verus! {

/// Flags of every trampoline entry: present and writable. The pages hold the
/// running bootloader, so they stay executable.
pub const TRAMPOLINE_FLAGS: u64 = 0x3;

/// Flags of every entry of the kernel's physical window: present, writable,
/// never executable.
pub const WINDOW_FLAGS: u64 = 0x8000_0000_0000_0003;

/// Number of pages in the kernel's physical window.
pub const WINDOW_PAGES: u64 = 0x10_0000;

/// Why a kernel table could not be built.
#[derive(Clone, Copy, Debug, PartialEq, Eq, Structural)]
pub enum KernelError {
    /// The allocator ran dry before the physical window was complete.
    Window,
    /// A section of the image could not be mapped.
    Section(MapError),
}

/// Whether table `t` in memory `m1` was built from frames that were out of
/// use in `m0`, with nothing that was in use in `m0` touched.
pub open spec fn built_in(t: PageTable, m0: Map<u64, u64>, m1: Map<u64, u64>) -> bool {
    &&& t.wf(m1)
    &&& forall|a: u64| #[trigger]
        m0.dom().contains(a) ==> m1.dom().contains(a) && m1[a] == m0[a] && !t.owns(a)
}

/// The trampoline leaf for the page that holds physical address `a`.
pub open spec fn trampoline_leaf(a: u64) -> Leaf {
    Leaf { entry: ((a - a % 4096) as u64) | TRAMPOLINE_FLAGS, page: PageType::Page4K }
}

/// The window leaf for the page-aligned physical address `p`.
pub open spec fn window_leaf(p: u64) -> Leaf {
    Leaf { entry: p | WINDOW_FLAGS, page: PageType::Page4K }
}

/// Window leaves map to the address they were made for, writable and not
/// executable; trampoline leaves map to the page of theirs, writable and
/// executable.
pub proof fn lemma_leaves(a: u64)
    requires
        a < entry::PHYS_LIMIT,
    ensures
        trampoline_leaf(a).frame() == a - a % 4096,
        trampoline_leaf(a).writable(),
        trampoline_leaf(a).executable(),
        a % 4096 == 0 ==> window_leaf(a).frame() == a,
        a % 4096 == 0 ==> window_leaf(a).writable(),
        a % 4096 == 0 ==> !window_leaf(a).executable(),
        entry::present(TRAMPOLINE_FLAGS),
        entry::present(WINDOW_FLAGS),
        TRAMPOLINE_FLAGS & entry::PAGE_ADDR_MASK == 0,
        WINDOW_FLAGS & entry::PAGE_ADDR_MASK == 0,
{
    let p = (a - a % 4096) as u64;
    assert(0x3u64 & 0x000f_ffff_ffff_f000 == 0 && 0x8000_0000_0000_0003u64 & 0x000f_ffff_ffff_f000
        == 0 && 0x3u64 & 1 != 0 && 0x8000_0000_0000_0003u64 & 1 != 0 && 0x3u64 & 2 != 0
        && 0x8000_0000_0000_0003u64 & 2 != 0 && 0x3u64 & 0x8000_0000_0000_0000 == 0
        && 0x8000_0000_0000_0003u64 & 0x8000_0000_0000_0000 != 0) by (bit_vector);
    entry::lemma_entry_fields(p, TRAMPOLINE_FLAGS);
    if a % 4096 == 0 {
        entry::lemma_entry_fields(a, WINDOW_FLAGS);
    }
}

/// A table fresh from [`PageTable::new`] and grown since is built from
/// frames that were out of use before it was made.
proof fn lemma_built(
    t0: PageTable,
    t: PageTable,
    m0: Map<u64, u64>,
    m_n: Map<u64, u64>,
    m1: Map<u64, u64>,
)
    requires
        phys::claimed(m0, m_n, PageType::Page4K, t0.root()),
        t0.frames() == set![t0.root()],
        t.grown_from(t0, m_n, m1),
    ensures
        built_in(t, m0, m1),
{
    table::lemma_grown_facts(t0, t, m_n, m1);
    assert forall|a: u64| #[trigger] m0.dom().contains(a) implies m1.dom().contains(a) && m1[a]
        == m0[a] && !t.owns(a) by {
        assert(m_n.dom().contains(a));
        if t0.owns(a) {
            assert(table::frame_base(a) == t0.root());
            assert(t0.root() <= a < t0.root() + 4096);
        }
    }
}

/// No page of the low four gigabytes shares a slot with a page of the
/// physical window over them.
proof fn lemma_window_apart(j: int, k: int)
    requires
        0 <= j <= 0x10_0000,
        0 <= k <= 0x10_0000,
    ensures
        !entry::covers(
            mapping::page_addr(0, PageType::Page4K, j),
            PageType::Page4K,
            mapping::page_addr(KERNEL_PHYS_WINDOW_BASE, PageType::Page4K, k),
        ),
{
    let x = mapping::page_addr(0, PageType::Page4K, j);
    let y = mapping::page_addr(KERNEL_PHYS_WINDOW_BASE, PageType::Page4K, k);
    let d = (k * 4096) as u64;
    assert(x == j * 4096);
    assert(y == 0xffff_cafe_0000_0000 + d);
    assert((x >> 39) & 0x1ff != ((0xffff_cafe_0000_0000u64 + d) as u64 >> 39) & 0x1ff) by (bit_vector)
        requires
            x <= 0x1_0000_0000,
            d <= 0x1_0000_0000,
    ;
}

/// Whether address `a` falls in a page of the trampoline's identity map.
pub open spec fn in_identity(bootloader_end: u32, a: u64) -> bool {
    mapping::run_covers(0, PageType::Page4K, mapping::pages_for(bootloader_end as u64), a)
}

/// Whether address `a` falls in a page of the trampoline's shifted map.
pub open spec fn in_shifted(bootloader_end: u32, a: u64) -> bool {
    mapping::run_covers(
        KERNEL_PHYS_WINDOW_BASE,
        PageType::Page4K,
        mapping::pages_for(bootloader_end as u64),
        a,
    )
}

/// Whether table `t` in memory `m` maps the bootloader's footprint, from
/// physical address zero up to `bootloader_end`, twice: every address `a` of
/// it is mapped to its own page, and so is `a` shifted up by the base of the
/// kernel's physical window, by the same entry, writable and executable; and
/// nothing else is mapped.
pub open spec fn trampoline_maps(t: PageTable, bootloader_end: u32, m: Map<u64, u64>) -> bool {
    &&& t.wf(m)
    &&& forall|a: u64|
        a < bootloader_end ==> #[trigger] t.mapping(m, a) == Some(trampoline_leaf(a))
    &&& forall|a: u64|
        a < bootloader_end ==> t.mapping(m, #[trigger] ((KERNEL_PHYS_WINDOW_BASE + a) as u64))
            == Some(trampoline_leaf(a))
    &&& t.linear_at(m, 0, TRAMPOLINE_FLAGS, mapping::pages_for(bootloader_end as u64))
    &&& t.linear_at(
        m,
        KERNEL_PHYS_WINDOW_BASE,
        TRAMPOLINE_FLAGS,
        mapping::pages_for(bootloader_end as u64),
    )
    &&& forall|a: u64|
        !in_identity(bootloader_end, a) && !in_shifted(bootloader_end, a) ==> #[trigger] t.mapping(
            m,
            a,
        ) is None
}

/// A trampoline table stays what it is when memory changes only outside
/// its frames.
pub proof fn lemma_trampoline_stable(
    t: PageTable,
    bootloader_end: u32,
    m0: Map<u64, u64>,
    m1: Map<u64, u64>,
)
    requires
        trampoline_maps(t, bootloader_end, m0),
        forall|a: u64| #[trigger]
            m0.dom().contains(a) && t.owns(a) ==> m1.dom().contains(a) && m1[a] == m0[a],
    ensures
        trampoline_maps(t, bootloader_end, m1),
{
    table::lemma_untouched(t, m0, m1);
    assert forall|a: u64| #[trigger] t.mapping(m1, a) == t.mapping(m0, a) by {
        assert(t.probe(m1, a, 3) == t.probe(m0, a, 3));
    }
    assert forall|a: u64| a < bootloader_end implies t.mapping(
        m1,
        #[trigger] ((KERNEL_PHYS_WINDOW_BASE + a) as u64),
    ) == Some(trampoline_leaf(a)) by {
        let v = (KERNEL_PHYS_WINDOW_BASE + a) as u64;
        assert(t.mapping(m1, v) == t.mapping(m0, v));
    }
}

/// Builds the trampoline table: the bootloader's own footprint, from
/// physical address zero up to `bootloader_end`, mapped twice, once at its
/// physical addresses and once shifted up by the base of the kernel's
/// physical window, writable at both, with the same entry at both.
///
/// Nothing is copied: the pages already hold the running bootloader.
/// Building fails only when the allocator runs dry, and at once, with
/// memory untouched, when it has no frame to offer for the root. The root
/// is the first frame the allocator offers.
#[verifier::rlimit(40)]
pub fn build_trampoline<M: PhysMem>(mem: &mut M, bootloader_end: u32) -> (r: Result<
    PageTable,
    MapError,
>)
    requires
        old(mem).inv(),
    ensures
        final(mem).inv(),
        forall|a: u64| #[trigger]
            old(mem).view().dom().contains(a) ==> final(mem).view().dom().contains(a)
                && final(mem).view()[a] == old(mem).view()[a],
        old(mem).offer(PageType::Page4K) is None ==> r is Err && final(mem).view() == old(mem).view(),
        match r {
            Ok(t) => {
                &&& built_in(t, old(mem).view(), final(mem).view())
                &&& trampoline_maps(t, bootloader_end, final(mem).view())
                &&& Some(t.root()) == old(mem).offer(PageType::Page4K)
            },
            Err(e) => e == MapError::OutOfFrames,
        },
{
    let ghost m0 = mem.view();
    let len: u64 = bootloader_end as u64;
    let ghost n = mapping::pages_for(len);
    let page = PageType::Page4K;
    let mut t = match PageTable::new(mem) {
        Ok(t) => t,
        Err(e) => {
            return Err(e);
        },
    };
    let ghost t0 = t;
    let ghost m_n = mem.view();
    proof {
        lemma_leaves(0);
        table::lemma_grown_refl(t0, m_n);
        lemma_built(t0, t0, m0, m_n, m_n);
    }
    let r1 = t.map_window(mem, 0, len, TRAMPOLINE_FLAGS);
    let ghost t1 = t;
    let ghost m1 = mem.view();
    proof {
        lemma_built(t0, t1, m0, m_n, m1);
        assert(!t0.overlaps(m_n, 0, page, (4096 * n) as u64)) by {
            if t0.overlaps(m_n, 0, page, (4096 * n) as u64) {
                let k = choose|k: int|
                    0 <= k < ((4096 * n) as u64) / page.bytes() && t0.in_use(
                        m_n,
                        #[trigger] mapping::page_addr(0, page, k),
                        page,
                    );
                assert(t0.probe(m_n, mapping::page_addr(0, page, k), 3) == Slot::Vacant);
            }
        }
    }
    match r1 {
        Ok(()) => {},
        Err(e) => {
            return Err(e);
        },
    }
    let r2 = t.map_window(mem, KERNEL_PHYS_WINDOW_BASE, len, TRAMPOLINE_FLAGS);
    let ghost m2 = mem.view();
    proof {
        table::lemma_grown_trans(t0, t1, t, m_n, m1, m2);
        lemma_built(t0, t, m0, m_n, m2);
        assert forall|k: int| 0 <= k < n implies !mapping::run_covers(
            0,
            page,
            n,
            #[trigger] mapping::page_addr(KERNEL_PHYS_WINDOW_BASE, page, k),
        ) by {
            let va = mapping::page_addr(KERNEL_PHYS_WINDOW_BASE, page, k);
            if mapping::run_covers(0, page, n, va) {
                let j = choose|j: int|
                    0 <= j < n && #[trigger] entry::covers(mapping::page_addr(0, page, j), page, va);
                lemma_window_apart(j, k);
            }
        }
        assert(!t1.overlaps(m1, KERNEL_PHYS_WINDOW_BASE, page, (4096 * n) as u64)) by {
            if t1.overlaps(m1, KERNEL_PHYS_WINDOW_BASE, page, (4096 * n) as u64) {
                let k = choose|k: int|
                    0 <= k < ((4096 * n) as u64) / page.bytes() && t1.in_use(
                        m1,
                        #[trigger] mapping::page_addr(KERNEL_PHYS_WINDOW_BASE, page, k),
                        page,
                    );
                let va = mapping::page_addr(KERNEL_PHYS_WINDOW_BASE, page, k);
                assert(!mapping::run_covers(0, page, n, va));
                assert(t1.probe(m1, va, 3) == t0.probe(m_n, va, 3));
            }
        }
    }
    match r2 {
        Ok(()) => {},
        Err(e) => {
            return Err(e);
        },
    }
    proof {
        table::lemma_grown_facts(t0, t, m_n, m2);
        mapping::lemma_linear_stable(t1, t, m1, m2, 0, TRAMPOLINE_FLAGS, n);
        assert forall|a: u64| a < bootloader_end implies #[trigger] t.mapping(m2, a) == Some(
            trampoline_leaf(a),
        ) by {
            mapping::lemma_linear_lookup(t, m2, 0, TRAMPOLINE_FLAGS, n, a);
        }
        assert forall|a: u64| a < bootloader_end implies t.mapping(
            m2,
            #[trigger] ((KERNEL_PHYS_WINDOW_BASE + a) as u64),
        ) == Some(trampoline_leaf(a)) by {
            mapping::lemma_linear_lookup(t, m2, KERNEL_PHYS_WINDOW_BASE, TRAMPOLINE_FLAGS, n, a);
        }
        assert forall|a: u64|
            !mapping::run_covers(0, page, n, a) && !mapping::run_covers(
                KERNEL_PHYS_WINDOW_BASE,
                page,
                n,
                a,
            ) implies #[trigger] t.mapping(m2, a) is None by {
            assert(t.probe(m2, a, 3) == t1.probe(m1, a, 3));
            assert(t1.probe(m1, a, 3) == t0.probe(m_n, a, 3));
            assert(t0.probe(m_n, a, 3) == Slot::Vacant);
        }
    }
    Ok(t)
}

/// Whether address `a` falls in a page of the kernel's physical window.
pub open spec fn in_window(a: u64) -> bool {
    mapping::run_covers(KERNEL_PHYS_WINDOW_BASE, PageType::Page4K, WINDOW_PAGES as int, a)
}

/// Whether every page of the first `count` sections lies clear: outside the
/// physical window and outside the pages of every earlier section.
pub open spec fn sections_clear(sections: Seq<image::Section>, count: int) -> bool {
    forall|i: int, k: int|
        0 <= i < count && 0 <= k < sections[i].pages() ==> {
            &&& !in_window(#[trigger] mapping::page_addr(sections[i].vaddr, PageType::Page4K, k))
            &&& !image::sections_cover(
                sections,
                i,
                mapping::page_addr(sections[i].vaddr, PageType::Page4K, k),
            )
        }
}

/// Whether some page of section `i` lies in the physical window or in a
/// page of an earlier section.
pub open spec fn section_hits(sections: Seq<image::Section>, i: int) -> bool {
    exists|k: int|
        0 <= k < sections[i].pages() && (in_window(
            #[trigger] mapping::page_addr(sections[i].vaddr, PageType::Page4K, k),
        ) || image::sections_cover(
            sections,
            i,
            mapping::page_addr(sections[i].vaddr, PageType::Page4K, k),
        ))
}

/// Whether some section of the image shares a page with the physical window
/// or with an earlier section.
pub open spec fn image_hits(sections: Seq<image::Section>) -> bool {
    exists|i: int| 0 <= i < sections.len() && #[trigger] section_hits(sections, i)
}

/// Whether a kernel build that gave up with error `e` can have done so at
/// section `i`: the sections before it are well placed and lie clear; the
/// error is a misplaced request exactly when section `i` is misplaced; and
/// where the error is a taken slot, section `i` shares a page with the
/// window or with an earlier section, or is so long that it wraps onto
/// itself.
pub open spec fn stopped_here(sections: Seq<image::Section>, i: int, e: MapError) -> bool {
    &&& sections_clear(sections, i)
    &&& forall|j: int| 0 <= j < i ==> (#[trigger] sections[j]).well_placed()
    &&& e == MapError::Misaligned <==> !sections[i].well_placed()
    &&& e == MapError::AlreadyMapped ==> section_hits(sections, i) || sections[i].vsize
        > 0x1_0000_0000_0000
}

/// Whether a kernel build that gave up with error `e` did so at one of the
/// sections, for the reason the error names.
pub open spec fn section_stopped(sections: Seq<image::Section>, e: MapError) -> bool {
    exists|i: int| 0 <= i < sections.len() && #[trigger] stopped_here(sections, i, e)
}

/// In a table that holds the physical window and nothing else, a slot is
/// taken exactly when it lies in the window.
proof fn lemma_window_taken(
    t0: PageTable,
    t1: PageTable,
    m_n: Map<u64, u64>,
    m1: Map<u64, u64>,
    a: u64,
)
    requires
        forall|b: u64, target: nat| target <= 3 ==> #[trigger] t0.probe(m_n, b, target) == Slot::Vacant,
        t1.window_mapped(t0, m_n, m1, KERNEL_PHYS_WINDOW_BASE, WINDOW_FLAGS, WINDOW_PAGES as int),
    ensures
        t1.in_use(m1, a, PageType::Page4K) <==> in_window(a),
{
    let page = PageType::Page4K;
    table::lemma_in_use_is_mapped(t1, m1, a);
    if in_window(a) {
        let k = choose|k: int|
            0 <= k < WINDOW_PAGES as int && #[trigger] entry::covers(
                mapping::page_addr(KERNEL_PHYS_WINDOW_BASE, page, k),
                page,
                a,
            );
        assert(t1.mapping(m1, a) is Some);
    } else {
        assert(t1.probe(m1, a, 3) == t0.probe(m_n, a, 3));
    }
}

/// Sections whose pages each had a free slot in a table that holds the
/// window lie clear of the window.
proof fn lemma_free_is_clear(
    sections: Seq<image::Section>,
    count: int,
    t1: PageTable,
    m1: Map<u64, u64>,
)
    requires
        forall|a: u64| #[trigger] t1.in_use(m1, a, PageType::Page4K) <==> in_window(a),
        image::sections_free(sections, count, t1, m1),
    ensures
        sections_clear(sections, count),
{
    assert forall|i: int, k: int| 0 <= i < count && 0 <= k < sections[i].pages() implies {
        &&& !in_window(#[trigger] mapping::page_addr(sections[i].vaddr, PageType::Page4K, k))
        &&& !image::sections_cover(
            sections,
            i,
            mapping::page_addr(sections[i].vaddr, PageType::Page4K, k),
        )
    } by {
        let va = mapping::page_addr(sections[i].vaddr, PageType::Page4K, k);
        assert(!t1.in_use(m1, va, PageType::Page4K));
    }
}

/// A load into a table that holds the window, given up at a section, is a
/// kernel build given up at that section.
proof fn lemma_stopped(
    sections: Seq<image::Section>,
    t1: PageTable,
    t: PageTable,
    m1: Map<u64, u64>,
    m2: Map<u64, u64>,
    e: MapError,
)
    requires
        forall|a: u64| #[trigger] t1.in_use(m1, a, PageType::Page4K) <==> in_window(a),
        image::stopped_at_section(sections, t1, t, m1, m2, e),
    ensures
        section_stopped(sections, e),
{
    let i = choose|i: int|
        0 <= i < sections.len() && #[trigger] image::sections_backed(sections, i, t, m1, m2)
            && image::sections_free(sections, i, t1, m1) && (e == MapError::Misaligned
            <==> !sections[i].well_placed()) && (e == MapError::AlreadyMapped
            ==> image::section_collides(sections, i, t1, m1) || sections[i].vsize
            > 0x1_0000_0000_0000);
    lemma_free_is_clear(sections, i, t1, m1);
    assert forall|j: int| 0 <= j < i implies (#[trigger] sections[j]).well_placed() by {
        assert(sections[j].loaded(t, m1, m2));
    }
    if e == MapError::AlreadyMapped && sections[i].vsize <= 0x1_0000_0000_0000 {
        let k = choose|k: int|
            0 <= k < sections[i].pages() && (t1.in_use(
                m1,
                #[trigger] mapping::page_addr(sections[i].vaddr, PageType::Page4K, k),
                PageType::Page4K,
            ) || image::sections_cover(
                sections,
                i,
                mapping::page_addr(sections[i].vaddr, PageType::Page4K, k),
            ));
        assert(section_hits(sections, i));
    }
    assert(stopped_here(sections, i, e));
}

/// An image whose sections lie clear shares no page with the window or
/// with itself.
proof fn lemma_clear_hits_nothing(sections: Seq<image::Section>)
    requires
        sections_clear(sections, sections.len() as int),
    ensures
        !image_hits(sections),
{
    if image_hits(sections) {
        let i = choose|i: int| 0 <= i < sections.len() && #[trigger] section_hits(sections, i);
        let k = choose|k: int|
            0 <= k < sections[i].pages() && (in_window(
                #[trigger] mapping::page_addr(sections[i].vaddr, PageType::Page4K, k),
            ) || image::sections_cover(
                sections,
                i,
                mapping::page_addr(sections[i].vaddr, PageType::Page4K, k),
            ));
    }
}

/// Whether table `t` in memory `m1` is a kernel table for `img`, built from
/// frames that were out of use in `m0`: the whole physical window is mapped
/// linearly, writable and not executable; every section of the image is
/// loaded, each page in a frame of its own, clear of the window and of the
/// sections before it; and nothing else is mapped.
pub open spec fn kernel_built(t: PageTable, img: Image, m0: Map<u64, u64>, m1: Map<u64, u64>) -> bool {
    &&& built_in(t, m0, m1)
    &&& sections_clear(img.sections@, img.sections@.len() as int)
    &&& t.linear_at(m1, KERNEL_PHYS_WINDOW_BASE, WINDOW_FLAGS, WINDOW_PAGES as int)
    &&& forall|p: u64|
        p % 4096 == 0 && p < KERNEL_PHYS_WINDOW_SIZE ==> t.mapping(
            m1,
            #[trigger] ((KERNEL_PHYS_WINDOW_BASE + p) as u64),
        ) == Some(window_leaf(p))
    &&& image::sections_backed(img.sections@, img.sections@.len() as int, t, m0, m1)
    &&& forall|a: u64|
        !in_window(a) && !image::sections_cover(img.sections@, img.sections@.len() as int, a)
            ==> #[trigger] t.mapping(m1, a) is None
}

/// Builds the kernel table for `img`: first the linear window onto physical
/// memory, page by page, writable and never executable; then the sections
/// of the image, in order. Returns the table and the image's entry point.
///
/// The window fails only when the allocator runs dry, and at once, with
/// memory untouched, when it has no frame to offer for the root. The root
/// is the first frame the allocator offers. A section fails as
/// [`image::load_image`] says; a section that shares a page with the window
/// or with an earlier section always fails the build.
#[verifier::rlimit(40)]
pub fn build_kernel<M: PhysMem>(mem: &mut M, img: &Image) -> (r: Result<(PageTable, u64), KernelError>)
    requires
        old(mem).inv(),
    ensures
        final(mem).inv(),
        forall|a: u64| #[trigger]
            old(mem).view().dom().contains(a) ==> final(mem).view().dom().contains(a)
                && final(mem).view()[a] == old(mem).view()[a],
        old(mem).offer(PageType::Page4K) is None ==> r == Err::<(PageTable, u64), KernelError>(
            KernelError::Window,
        ) && final(mem).view() == old(mem).view(),
        match r {
            Ok((t, entry_point)) => {
                &&& entry_point == img.entry_point
                &&& kernel_built(t, *img, old(mem).view(), final(mem).view())
                &&& Some(t.root()) == old(mem).offer(PageType::Page4K)
            },
            Err(KernelError::Window) => true,
            Err(KernelError::Section(e)) => {
                &&& e != MapError::InvalidEntry
                &&& section_stopped(img.sections@, e)
            },
        },
        image_hits(img.sections@) ==> r is Err,
{
    let ghost m0 = mem.view();
    let ghost n = WINDOW_PAGES as int;
    let page = PageType::Page4K;
    let mut t = match PageTable::new(mem) {
        Ok(t) => t,
        Err(_) => {
            return Err(KernelError::Window);
        },
    };
    let ghost t0 = t;
    let ghost m_n = mem.view();
    proof {
        lemma_leaves(0);
        table::lemma_grown_refl(t0, m_n);
        lemma_built(t0, t0, m0, m_n, m_n);
        assert(mapping::pages_for(KERNEL_PHYS_WINDOW_SIZE) == n);
    }
    let r1 = t.map_window(mem, KERNEL_PHYS_WINDOW_BASE, KERNEL_PHYS_WINDOW_SIZE, WINDOW_FLAGS);
    let ghost t1 = t;
    let ghost m1 = mem.view();
    proof {
        lemma_built(t0, t1, m0, m_n, m1);
        assert(!t0.overlaps(m_n, KERNEL_PHYS_WINDOW_BASE, page, (4096 * n) as u64)) by {
            if t0.overlaps(m_n, KERNEL_PHYS_WINDOW_BASE, page, (4096 * n) as u64) {
                let k = choose|k: int|
                    0 <= k < ((4096 * n) as u64) / page.bytes() && t0.in_use(
                        m_n,
                        #[trigger] mapping::page_addr(KERNEL_PHYS_WINDOW_BASE, page, k),
                        page,
                    );
                assert(t0.probe(m_n, mapping::page_addr(KERNEL_PHYS_WINDOW_BASE, page, k), 3)
                    == Slot::Vacant);
            }
        }
    }
    match r1 {
        Ok(()) => {},
        Err(e) => {
            assert(e == MapError::OutOfFrames);
            return Err(KernelError::Window);
        },
    }
    let r2 = image::load_image(&mut t, mem, img);
    let ghost m2 = mem.view();
    proof {
        table::lemma_grown_trans(t0, t1, t, m_n, m1, m2);
        lemma_built(t0, t, m0, m_n, m2);
        assert forall|a: u64| #[trigger] t1.in_use(m1, a, PageType::Page4K) <==> in_window(a) by {
            lemma_window_taken(t0, t1, m_n, m1, a);
        }
    }
    match r2 {
        Ok(entry_point) => {
            proof {
                let sections = img.sections@;
                let count = sections.len() as int;
                table::lemma_grown_facts(t0, t, m_n, m2);
                lemma_free_is_clear(sections, count, t1, m1);
                lemma_clear_hits_nothing(sections);
                mapping::lemma_linear_stable(t1, t, m1, m2, KERNEL_PHYS_WINDOW_BASE, WINDOW_FLAGS, n);
                assert forall|p: u64| p % 4096 == 0 && p < KERNEL_PHYS_WINDOW_SIZE implies t.mapping(
                    m2,
                    #[trigger] ((KERNEL_PHYS_WINDOW_BASE + p) as u64),
                ) == Some(window_leaf(p)) by {
                    mapping::lemma_linear_lookup(
                        t,
                        m2,
                        KERNEL_PHYS_WINDOW_BASE,
                        WINDOW_FLAGS,
                        n,
                        p,
                    );
                }
                lemma_sections_rebased(sections, count, t, m0, m1, m2);
                assert forall|a: u64|
                    !in_window(a) && !image::sections_cover(
                        sections,
                        count,
                        a,
                    ) implies #[trigger] t.mapping(m2, a) is None by {
                    assert(t.mapping(m2, a) == t1.mapping(m1, a));
                    assert(t1.probe(m1, a, 3) == t0.probe(m_n, a, 3));
                    assert(t0.probe(m_n, a, 3) == Slot::Vacant);
                }
            }
            Ok((t, entry_point))
        },
        Err(e) => {
            proof {
                lemma_stopped(img.sections@, t1, t, m1, m2, e);
            }
            Err(KernelError::Section(e))
        },
    }
}

/// Frames that were out of use in a memory were out of use in every
/// earlier one: sections loaded relative to `m1` are loaded relative to any
/// memory `m0` that `m1` grew from.
pub proof fn lemma_sections_rebased(
    sections: Seq<image::Section>,
    count: int,
    t: PageTable,
    m0: Map<u64, u64>,
    m1: Map<u64, u64>,
    m2: Map<u64, u64>,
)
    requires
        image::sections_backed(sections, count, t, m1, m2),
        forall|a: u64| #[trigger] m0.dom().contains(a) ==> m1.dom().contains(a),
    ensures
        image::sections_backed(sections, count, t, m0, m2),
{
    assert forall|i: int| 0 <= i < count implies (#[trigger] sections[i]).loaded(t, m0, m2) by {
        let s = sections[i];
        assert(s.loaded(t, m1, m2));
        assert forall|k: int| 0 <= k < s.pages() implies mapping::unused_region(
            m0,
            t.frame_at(m2, #[trigger] mapping::page_addr(s.vaddr, PageType::Page4K, k)),
            4096,
        ) by {
            let f = t.frame_at(m2, mapping::page_addr(s.vaddr, PageType::Page4K, k));
            assert(mapping::unused_region(m1, f, 4096));
            assert forall|a: u64| f <= a < f + 4096 implies !m0.dom().contains(a) by {
                if m0.dom().contains(a) {
                    assert(m1.dom().contains(a));
                }
            }
        }
    }
}

/// A kernel table built from frames that were out of use in a memory was
/// built from frames that were out of use in every earlier one.
pub proof fn lemma_kernel_rebased(
    t: PageTable,
    img: Image,
    m0: Map<u64, u64>,
    m1: Map<u64, u64>,
    m2: Map<u64, u64>,
)
    requires
        kernel_built(t, img, m1, m2),
        forall|a: u64| #[trigger] m0.dom().contains(a) ==> m1.dom().contains(a) && m1[a] == m0[a],
    ensures
        kernel_built(t, img, m0, m2),
{
    lemma_sections_rebased(img.sections@, img.sections@.len() as int, t, m0, m1, m2);
    assert forall|a: u64| #[trigger] m0.dom().contains(a) implies m2.dom().contains(a) && m2[a]
        == m0[a] && !t.owns(a) by {
        assert(m1.dom().contains(a));
    }
}

/// A trampoline table and a kernel table built after it share no frame, and
/// the trampoline is as it was.
pub proof fn lemma_spaces_apart(
    tramp: PageTable,
    kernel: PageTable,
    bootloader_end: u32,
    m1: Map<u64, u64>,
    m2: Map<u64, u64>,
)
    requires
        trampoline_maps(tramp, bootloader_end, m1),
        built_in(kernel, m1, m2),
    ensures
        trampoline_maps(tramp, bootloader_end, m2),
        kernel.frames().disjoint(tramp.frames()),
{
    lemma_trampoline_stable(tramp, bootloader_end, m1, m2);
    assert forall|f: u64| tramp.frames().contains(f) implies !kernel.frames().contains(f) by {
        table::lemma_frames_in_use(tramp, m1, f);
        assert(table::frame_base(f) == f);
        assert(!kernel.owns(f));
    }
}

/// The trampoline maps every byte of the bootloader twice: at its physical
/// address and at that address shifted up by the base of the kernel's
/// physical window. Both mappings go through the same entry, so they name
/// the same physical byte with the same permissions: present, writable,
/// executable.
pub proof fn lemma_trampoline_twice(t: PageTable, bootloader_end: u32, m: Map<u64, u64>, a: u64)
    requires
        trampoline_maps(t, bootloader_end, m),
        a < bootloader_end,
    ensures
        t.mapping(m, a) == Some(trampoline_leaf(a)),
        t.mapping(m, (KERNEL_PHYS_WINDOW_BASE + a) as u64) == Some(trampoline_leaf(a)),
        entry::present(trampoline_leaf(a).entry),
        trampoline_leaf(a).writable(),
        trampoline_leaf(a).executable(),
        trampoline_leaf(a).translate(a) == a,
        trampoline_leaf(a).translate((KERNEL_PHYS_WINDOW_BASE + a) as u64) == a,
{
    lemma_leaves(a);
    let p = (a - a % 4096) as u64;
    let v = (KERNEL_PHYS_WINDOW_BASE + a) as u64;
    let w = (KERNEL_PHYS_WINDOW_BASE + p) as u64;
    entry::lemma_page_offset(p, PageType::Page4K, a);
    entry::lemma_page_offset(w, PageType::Page4K, v);
    entry::lemma_entry_fields(p, TRAMPOLINE_FLAGS);
}

/// Through the kernel's physical window, physical address `p` is found at
/// the window's base plus `p`, writable and never executable, for every `p`
/// inside the window.
pub proof fn lemma_window_translates(
    t: PageTable,
    img: Image,
    m0: Map<u64, u64>,
    m1: Map<u64, u64>,
    p: u64,
)
    requires
        kernel_built(t, img, m0, m1),
        p < KERNEL_PHYS_WINDOW_SIZE,
    ensures
        match t.mapping(m1, (KERNEL_PHYS_WINDOW_BASE + p) as u64) {
            Some(leaf) => {
                &&& leaf == window_leaf((p - p % 4096) as u64)
                &&& leaf.translate((KERNEL_PHYS_WINDOW_BASE + p) as u64) == p
                &&& leaf.writable()
                &&& !leaf.executable()
            },
            None => false,
        },
{
    lemma_window_lookup(t, m1, p);
}

/// In a table that maps the window linearly, the address `p` bytes into
/// the window is mapped to physical address `p`, writable and not
/// executable.
proof fn lemma_window_lookup(t: PageTable, m1: Map<u64, u64>, p: u64)
    requires
        t.linear_at(m1, KERNEL_PHYS_WINDOW_BASE, WINDOW_FLAGS, WINDOW_PAGES as int),
        p < KERNEL_PHYS_WINDOW_SIZE,
    ensures
        match t.mapping(m1, (KERNEL_PHYS_WINDOW_BASE + p) as u64) {
            Some(leaf) => {
                &&& leaf == window_leaf((p - p % 4096) as u64)
                &&& leaf.translate((KERNEL_PHYS_WINDOW_BASE + p) as u64) == p
                &&& leaf.writable()
                &&& !leaf.executable()
            },
            None => false,
        },
{
    let q = (p - p % 4096) as u64;
    let v = (KERNEL_PHYS_WINDOW_BASE + p) as u64;
    let w = (KERNEL_PHYS_WINDOW_BASE + q) as u64;
    lemma_leaves(q);
    mapping::lemma_linear_lookup(t, m1, KERNEL_PHYS_WINDOW_BASE, WINDOW_FLAGS, WINDOW_PAGES as int, p);
    entry::lemma_page_offset(w, PageType::Page4K, v);
}

} // verus!
