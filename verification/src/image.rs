//! Loading a parsed kernel image into a page table.

use vstd::prelude::*;
use crate::entry;
use crate::entry::PageType;
use crate::mapping;
use crate::phys;
use crate::phys::PhysMem;
use crate::table;
use crate::table::MapError;
use crate::table::PageTable;

verus! {

/// One section of an image, as the parser describes it: where it goes, how
/// large it is once loaded, the bytes recorded for it in the file, and what
/// may be done with it. The recorded bytes may be fewer than the loaded
/// size; the rest of the section reads as zero.
pub struct Section {
    pub vaddr: u64,
    pub vsize: u64,
    pub raw: Vec<u8>,
    pub read: bool,
    pub write: bool,
    pub execute: bool,
}

/// A parsed image: the address at which execution starts, and the sections
/// in the order in which the parser yields them.
pub struct Image {
    pub entry_point: u64,
    pub sections: Vec<Section>,
}

impl Section {
    /// Number of pages the section takes once loaded.
    pub open spec fn pages(&self) -> int {
        (self.vsize / 4096) as int
    }

    /// Whether the section can be mapped at all: page-aligned base, size a
    /// positive multiple of the page size, end inside the address space.
    pub open spec fn well_placed(&self) -> bool {
        mapping::request_ok(self.vaddr, PageType::Page4K, self.vsize)
    }

    /// Whether address `a` falls in one of the section's pages.
    pub open spec fn covers(&self, a: u64) -> bool {
        mapping::run_covers(self.vaddr, PageType::Page4K, self.pages(), a)
    }

    /// Whether table `t` in memory `m` holds the section: every page of it
    /// is mapped with the section's permissions to a frame of its own that
    /// was out of use in `m0` and holds the section's bytes for that page,
    /// zero past the recorded ones; and every address in those pages is
    /// mapped by its page's leaf.
    pub open spec fn loaded(&self, t: PageTable, m0: Map<u64, u64>, m: Map<u64, u64>) -> bool {
        &&& self.well_placed()
        &&& forall|k: int|
            0 <= k < self.pages() ==> {
                &&& t.backs(
                    m,
                    #[trigger] mapping::page_addr(self.vaddr, PageType::Page4K, k),
                    PageType::Page4K,
                    self.write,
                    self.execute,
                    self.raw@,
                    k * 4096,
                )
                &&& mapping::unused_region(
                    m0,
                    t.frame_at(m, mapping::page_addr(self.vaddr, PageType::Page4K, k)),
                    4096,
                )
            }
        &&& t.frames_distinct(m, self.vaddr, PageType::Page4K, self.pages())
        &&& t.pages_uniform(m, self.vaddr, PageType::Page4K, self.pages())
    }
}

/// Whether address `a` falls in a page of one of the first `count` sections.
pub open spec fn sections_cover(sections: Seq<Section>, count: int, a: u64) -> bool {
    exists|i: int| 0 <= i < count && #[trigger] sections[i].covers(a)
}

/// Whether the first `count` sections are loaded in table `t`, and no two
/// pages of different sections share a frame.
pub open spec fn sections_backed(
    sections: Seq<Section>,
    count: int,
    t: PageTable,
    m0: Map<u64, u64>,
    m: Map<u64, u64>,
) -> bool {
    &&& forall|i: int| 0 <= i < count ==> (#[trigger] sections[i]).loaded(t, m0, m)
    &&& forall|i: int, j: int, k: int, l: int|
        0 <= i < j < count && 0 <= k < sections[i].pages() && 0 <= l < sections[j].pages()
            ==> t.frame_at(m, #[trigger] mapping::page_addr(sections[i].vaddr, PageType::Page4K, k))
            != t.frame_at(m, #[trigger] mapping::page_addr(sections[j].vaddr, PageType::Page4K, l))
}

/// Whether every page of the first `count` sections had a slot to itself:
/// the slot was free in `before`, and no earlier section has a page there.
pub open spec fn sections_free(
    sections: Seq<Section>,
    count: int,
    before: PageTable,
    m0: Map<u64, u64>,
) -> bool {
    forall|i: int, k: int|
        0 <= i < count && 0 <= k < sections[i].pages() ==> {
            &&& !before.in_use(
                m0,
                #[trigger] mapping::page_addr(sections[i].vaddr, PageType::Page4K, k),
                PageType::Page4K,
            )
            &&& !sections_cover(
                sections,
                i,
                mapping::page_addr(sections[i].vaddr, PageType::Page4K, k),
            )
        }
}

/// Whether some page of section `i` lies where something is mapped
/// already: in a slot that was taken in `before`, or in a page of an earlier
/// section.
pub open spec fn section_collides(
    sections: Seq<Section>,
    i: int,
    before: PageTable,
    m0: Map<u64, u64>,
) -> bool {
    exists|k: int|
        0 <= k < sections[i].pages() && (before.in_use(
            m0,
            #[trigger] mapping::page_addr(sections[i].vaddr, PageType::Page4K, k),
            PageType::Page4K,
        ) || sections_cover(
            sections,
            i,
            mapping::page_addr(sections[i].vaddr, PageType::Page4K, k),
        ))
}

/// Whether some section of the image collides with what `before` maps or
/// with an earlier section.
pub open spec fn image_collides(sections: Seq<Section>, before: PageTable, m0: Map<u64, u64>) -> bool {
    exists|i: int| 0 <= i < sections.len() && #[trigger] section_collides(sections, i, before, m0)
}

/// Whether the first `count` sections are loaded in table `t`, each page in
/// a frame of its own and in a slot that was free in `before` and in no
/// earlier section, and every address outside the sections is mapped as it
/// was for `before`.
pub open spec fn sections_loaded(
    sections: Seq<Section>,
    count: int,
    before: PageTable,
    t: PageTable,
    m0: Map<u64, u64>,
    m: Map<u64, u64>,
) -> bool {
    &&& sections_backed(sections, count, t, m0, m)
    &&& sections_free(sections, count, before, m0)
    &&& forall|a: u64|
        !sections_cover(sections, count, a) ==> #[trigger] t.mapping(m, a) == before.mapping(m0, a)
}

/// A loaded section stays loaded, frame for frame and byte for byte, however
/// the table grows.
#[verifier::rlimit(40)]
pub proof fn lemma_loaded_stable(
    s: Section,
    before: PageTable,
    after: PageTable,
    m_init: Map<u64, u64>,
    m0: Map<u64, u64>,
    m1: Map<u64, u64>,
)
    requires
        s.loaded(before, m_init, m0),
        after.grown_from(before, m0, m1),
    ensures
        s.loaded(after, m_init, m1),
        forall|a: u64| s.covers(a) ==> #[trigger] after.mapping(m1, a) == before.mapping(m0, a),
{
    let page = PageType::Page4K;
    table::lemma_grown_facts(before, after, m0, m1);
    assert forall|k: int| 0 <= k < s.pages() implies {
        &&& after.backs(
            m1,
            #[trigger] mapping::page_addr(s.vaddr, page, k),
            page,
            s.write,
            s.execute,
            s.raw@,
            k * 4096,
        )
        &&& after.mapping(m1, mapping::page_addr(s.vaddr, page, k)) == before.mapping(
            m0,
            mapping::page_addr(s.vaddr, page, k),
        )
    } by {
        mapping::lemma_backs_stable(
            before,
            after,
            m0,
            m1,
            mapping::page_addr(s.vaddr, page, k),
            page,
            s.write,
            s.execute,
            s.raw@,
            k * 4096,
        );
    }
    assert forall|a: u64| s.covers(a) implies #[trigger] after.mapping(m1, a) == before.mapping(
        m0,
        a,
    ) by {
        let k = choose|k: int|
            0 <= k < s.pages() && #[trigger] entry::covers(
                mapping::page_addr(s.vaddr, page, k),
                page,
                a,
            );
        assert(before.mapping(m0, a) == before.mapping(m0, mapping::page_addr(s.vaddr, page, k)));
        assert(before.probe(m0, a, 3) != table::Slot::Vacant);
    }
    assert(after.pages_uniform(m1, s.vaddr, page, s.pages())) by {
        assert forall|a: u64, k: int|
            0 <= k < s.pages() && #[trigger] entry::covers(
                mapping::page_addr(s.vaddr, page, k),
                page,
                a,
            ) implies after.mapping(m1, a) == after.mapping(
            m1,
            mapping::page_addr(s.vaddr, page, k),
        ) by {
            assert(s.covers(a));
        }
    }
}

/// The section just mapped is loaded, relative to the memory before the
/// whole load.
proof fn lemma_new_section(
    s: Section,
    cur: PageTable,
    nxt: PageTable,
    m0: Map<u64, u64>,
    m: Map<u64, u64>,
    m1: Map<u64, u64>,
)
    requires
        forall|a: u64| #[trigger] m0.dom().contains(a) ==> m.dom().contains(a),
        s.well_placed(),
        nxt.mapped_range(
            cur,
            m,
            m1,
            s.vaddr,
            PageType::Page4K,
            s.write,
            s.execute,
            s.raw@,
            s.pages(),
        ),
    ensures
        s.loaded(nxt, m0, m1),
{
    let page = PageType::Page4K;
    assert forall|k: int| 0 <= k < s.pages() implies mapping::unused_region(
        m0,
        nxt.frame_at(m1, #[trigger] mapping::page_addr(s.vaddr, page, k)),
        4096,
    ) by {
        let f = nxt.frame_at(m1, mapping::page_addr(s.vaddr, page, k));
        assert(mapping::unused_region(m, f, 4096));
        assert forall|a: u64| f <= a < f + 4096 implies !m0.dom().contains(a) by {
            if m0.dom().contains(a) {
                assert(m.dom().contains(a));
            }
        }
    }
}

/// A page of a section loaded earlier and a page of the section just
/// mapped lie in different frames.
#[verifier::rlimit(40)]
proof fn lemma_new_section_apart(
    earlier: Section,
    s: Section,
    cur: PageTable,
    nxt: PageTable,
    m_init: Map<u64, u64>,
    m: Map<u64, u64>,
    m1: Map<u64, u64>,
    k: int,
    l: int,
)
    requires
        earlier.loaded(cur, m_init, m),
        nxt.grown_from(cur, m, m1),
        nxt.mapped_range(
            cur,
            m,
            m1,
            s.vaddr,
            PageType::Page4K,
            s.write,
            s.execute,
            s.raw@,
            s.pages(),
        ),
        0 <= k < earlier.pages(),
        0 <= l < s.pages(),
    ensures
        nxt.frame_at(m1, mapping::page_addr(earlier.vaddr, PageType::Page4K, k)) != nxt.frame_at(
            m1,
            mapping::page_addr(s.vaddr, PageType::Page4K, l),
        ),
{
    let page = PageType::Page4K;
    let ve = mapping::page_addr(earlier.vaddr, page, k);
    let vs = mapping::page_addr(s.vaddr, page, l);
    assert(cur.backs(m, ve, page, earlier.write, earlier.execute, earlier.raw@, k * 4096));
    mapping::lemma_backs_stable(
        cur,
        nxt,
        m,
        m1,
        ve,
        page,
        earlier.write,
        earlier.execute,
        earlier.raw@,
        k * 4096,
    );
    let fe = cur.frame_at(m, ve);
    let fs = nxt.frame_at(m1, vs);
    assert(nxt.frame_at(m1, ve) == fe);
    assert(mapping::unused_region(m, fs, 4096));
    assert(fe % 8 == 0);
    assert(m.dom().contains(fe));
}

/// Whether a load that gave up with error `e` did so at one of the sections:
/// the sections before that one are loaded, each page in a frame and a slot
/// of its own; the error is a misplaced request exactly when that section
/// is misplaced; and where the error is a taken slot, that section collides
/// with what `before` maps or with an earlier section, or is so long that
/// it wraps onto itself.
pub open spec fn stopped_at_section(
    sections: Seq<Section>,
    before: PageTable,
    t: PageTable,
    m0: Map<u64, u64>,
    m1: Map<u64, u64>,
    e: MapError,
) -> bool {
    exists|i: int|
        0 <= i < sections.len() && #[trigger] sections_backed(sections, i, t, m0, m1)
            && sections_free(sections, i, before, m0) && (e == MapError::Misaligned
            <==> !sections[i].well_placed()) && (e == MapError::AlreadyMapped ==> section_collides(
            sections,
            i,
            before,
            m0,
        ) || sections[i].vsize > 0x1_0000_0000_0000)
}

/// While the first `i` sections are loaded, a slot is taken exactly when
/// it was taken before the load or lies in a page of one of them.
proof fn lemma_taken_by(
    sections: Seq<Section>,
    i: int,
    before: PageTable,
    cur: PageTable,
    m0: Map<u64, u64>,
    m: Map<u64, u64>,
    a: u64,
)
    requires
        cur.grown_from(before, m0, m),
        sections_loaded(sections, i, before, cur, m0, m),
    ensures
        cur.in_use(m, a, PageType::Page4K) <==> (before.in_use(m0, a, PageType::Page4K)
            || sections_cover(sections, i, a)),
{
    let page = PageType::Page4K;
    table::lemma_in_use_is_mapped(cur, m, a);
    table::lemma_in_use_is_mapped(before, m0, a);
    if sections_cover(sections, i, a) {
        let j = choose|j: int| 0 <= j < i && #[trigger] sections[j].covers(a);
        let l = choose|l: int|
            0 <= l < sections[j].pages() && #[trigger] entry::covers(
                mapping::page_addr(sections[j].vaddr, page, l),
                page,
                a,
            );
        let va = mapping::page_addr(sections[j].vaddr, page, l);
        assert(sections[j].loaded(cur, m0, m));
        assert(cur.backs(m, va, page, sections[j].write, sections[j].execute, sections[j].raw@, l * 4096));
        assert(cur.mapping(m, a) == cur.mapping(m, va));
    } else {
        assert(cur.mapping(m, a) == before.mapping(m0, a));
    }
}

/// The pages of a section just mapped each had a slot to themselves.
proof fn lemma_new_section_free(
    sections: Seq<Section>,
    i: int,
    before: PageTable,
    cur: PageTable,
    nxt: PageTable,
    m0: Map<u64, u64>,
    m: Map<u64, u64>,
    m1: Map<u64, u64>,
)
    requires
        0 <= i < sections.len(),
        cur.grown_from(before, m0, m),
        sections_loaded(sections, i, before, cur, m0, m),
        nxt.pages_backed(
            cur,
            m,
            m1,
            sections[i].vaddr,
            PageType::Page4K,
            sections[i].write,
            sections[i].execute,
            sections[i].raw@,
            sections[i].pages(),
        ),
    ensures
        sections_free(sections, i + 1, before, m0),
{
    let page = PageType::Page4K;
    assert forall|j: int, k: int| 0 <= j < i + 1 && 0 <= k < sections[j].pages() implies {
        &&& !before.in_use(m0, #[trigger] mapping::page_addr(sections[j].vaddr, page, k), page)
        &&& !sections_cover(sections, j, mapping::page_addr(sections[j].vaddr, page, k))
    } by {
        if j == i {
            let va = mapping::page_addr(sections[i].vaddr, page, k);
            assert(!cur.in_use(m, va, page));
            lemma_taken_by(sections, i, before, cur, m0, m, va);
        }
    }
}

/// One more section: after section `i` was mapped, the first `i + 1`
/// sections are loaded.
#[verifier::rlimit(40)]
proof fn lemma_load_step(
    sections: Seq<Section>,
    i: int,
    before: PageTable,
    cur: PageTable,
    nxt: PageTable,
    m0: Map<u64, u64>,
    m: Map<u64, u64>,
    m1: Map<u64, u64>,
)
    requires
        0 <= i < sections.len(),
        cur.grown_from(before, m0, m),
        sections_loaded(sections, i, before, cur, m0, m),
        nxt.grown_from(cur, m, m1),
        sections[i].well_placed(),
        nxt.mapped_range(
            cur,
            m,
            m1,
            sections[i].vaddr,
            PageType::Page4K,
            sections[i].write,
            sections[i].execute,
            sections[i].raw@,
            sections[i].pages(),
        ),
    ensures
        nxt.grown_from(before, m0, m1),
        sections_loaded(sections, i + 1, before, nxt, m0, m1),
{
    let page = PageType::Page4K;
    let s = sections[i];
    table::lemma_grown_trans(before, cur, nxt, m0, m, m1);
    lemma_sections_stable(sections, i, cur, nxt, m0, m, m1);
    assert(forall|a: u64| #[trigger] m0.dom().contains(a) ==> m.dom().contains(a)) by {
        table::lemma_grown_facts(before, cur, m0, m);
    }
    lemma_new_section(s, cur, nxt, m0, m, m1);
    lemma_new_section_free(sections, i, before, cur, nxt, m0, m, m1);
    assert(sections_backed(sections, i + 1, nxt, m0, m1)) by {
        assert forall|j: int| 0 <= j < i + 1 implies (#[trigger] sections[j]).loaded(nxt, m0, m1) by {}
        assert forall|j: int, l: int, k: int, n: int|
            0 <= j < l < i + 1 && 0 <= k < sections[j].pages() && 0 <= n < sections[l].pages() implies nxt.frame_at(
            m1,
            #[trigger] mapping::page_addr(sections[j].vaddr, page, k),
        ) != nxt.frame_at(m1, #[trigger] mapping::page_addr(sections[l].vaddr, page, n)) by {
            if l == i {
                assert(sections[j].loaded(cur, m0, m));
                lemma_new_section_apart(sections[j], s, cur, nxt, m0, m, m1, k, n);
            }
        }
    }
    assert forall|a: u64| !sections_cover(sections, i + 1, a) implies #[trigger] nxt.mapping(m1, a)
        == before.mapping(m0, a) by {
        assert(!s.covers(a));
        assert(!sections_cover(sections, i, a)) by {
            if sections_cover(sections, i, a) {
                let j = choose|j: int| 0 <= j < i && #[trigger] sections[j].covers(a);
                assert(sections[j].covers(a));
            }
        }
        assert(nxt.probe(m1, a, 3) == cur.probe(m, a, 3));
        assert(cur.mapping(m, a) == before.mapping(m0, a));
    }
}

/// A load that gives up at section `i` has grown the table, has touched
/// nothing outside the image's sections, and has stopped there for the
/// reason its error names.
#[verifier::rlimit(40)]
proof fn lemma_load_abort(
    sections: Seq<Section>,
    i: int,
    before: PageTable,
    cur: PageTable,
    nxt: PageTable,
    m0: Map<u64, u64>,
    m: Map<u64, u64>,
    m1: Map<u64, u64>,
    e: MapError,
)
    requires
        0 <= i < sections.len(),
        cur.grown_from(before, m0, m),
        sections_loaded(sections, i, before, cur, m0, m),
        nxt.grown_from(cur, m, m1),
        nxt.rest_untouched(cur, m, m1, sections[i].vaddr, PageType::Page4K, sections[i].pages()),
        e == MapError::Misaligned <==> !sections[i].well_placed(),
        e == MapError::AlreadyMapped ==> cur.overlaps(
            m,
            sections[i].vaddr,
            PageType::Page4K,
            sections[i].vsize,
        ) || sections[i].vsize > 0x1_0000_0000_0000,
    ensures
        nxt.grown_from(before, m0, m1),
        forall|a: u64|
            !sections_cover(sections, sections.len() as int, a) ==> #[trigger] nxt.mapping(m1, a)
                == before.mapping(m0, a),
        stopped_at_section(sections, before, nxt, m0, m1, e),
{
    let page = PageType::Page4K;
    table::lemma_grown_trans(before, cur, nxt, m0, m, m1);
    assert forall|a: u64|
        !sections_cover(sections, sections.len() as int, a) implies #[trigger] nxt.mapping(m1, a)
        == before.mapping(m0, a) by {
        assert(!sections[i].covers(a));
        assert(!sections_cover(sections, i, a)) by {
            if sections_cover(sections, i, a) {
                let j = choose|j: int| 0 <= j < i && #[trigger] sections[j].covers(a);
                assert(sections[j].covers(a));
            }
        }
        assert(nxt.probe(m1, a, 3) == cur.probe(m, a, 3));
        assert(cur.mapping(m, a) == before.mapping(m0, a));
    }
    lemma_sections_stable(sections, i, cur, nxt, m0, m, m1);
    if e == MapError::AlreadyMapped && sections[i].vsize <= 0x1_0000_0000_0000 {
        let k = choose|k: int|
            0 <= k < sections[i].vsize / page.bytes() && cur.in_use(
                m,
                #[trigger] mapping::page_addr(sections[i].vaddr, page, k),
                page,
            );
        lemma_taken_by(sections, i, before, cur, m0, m, mapping::page_addr(sections[i].vaddr, page, k));
        assert(section_collides(sections, i, before, m0));
    }
    assert(sections_backed(sections, i, nxt, m0, m1));
}

/// An image that has loaded collided with nothing.
proof fn lemma_loaded_clear(
    sections: Seq<Section>,
    before: PageTable,
    t: PageTable,
    m0: Map<u64, u64>,
    m: Map<u64, u64>,
)
    requires
        sections_loaded(sections, sections.len() as int, before, t, m0, m),
    ensures
        !image_collides(sections, before, m0),
{
    if image_collides(sections, before, m0) {
        let i = choose|i: int|
            0 <= i < sections.len() && #[trigger] section_collides(sections, i, before, m0);
        let k = choose|k: int|
            0 <= k < sections[i].pages() && (before.in_use(
                m0,
                #[trigger] mapping::page_addr(sections[i].vaddr, PageType::Page4K, k),
                PageType::Page4K,
            ) || sections_cover(
                sections,
                i,
                mapping::page_addr(sections[i].vaddr, PageType::Page4K, k),
            ));
        assert(sections_free(sections, sections.len() as int, before, m0));
    }
}

/// Maps every section of `image` into `page_table`, in order, each page to a
/// fresh frame that holds the section's bytes for that page and zeros past
/// the recorded ones; returns the image's entry point.
///
/// The first section that cannot be mapped ends the load with its error:
/// a misplaced request where that section is misplaced, a taken slot where
/// one of its pages lies on something mapped before the load or on a page
/// of an earlier section. The sections before it stay loaded, and nothing
/// outside the image's sections has changed. A misplaced first section
/// fails before any frame is claimed, and a well-placed one fails at once
/// when the allocator has no frame to offer. An image in which any section
/// collides with what is mapped, or with an earlier section, never loads.
#[verifier::rlimit(40)]
pub fn load_image<M: PhysMem>(page_table: &mut PageTable, mem: &mut M, image: &Image) -> (r: Result<
    u64,
    MapError,
>)
    requires
        old(mem).inv(),
        old(page_table).wf(old(mem).view()),
    ensures
        final(mem).inv(),
        final(page_table).wf(final(mem).view()),
        final(page_table).grown_from(*old(page_table), old(mem).view(), final(mem).view()),
        forall|a: u64|
            !sections_cover(image.sections@, image.sections@.len() as int, a) ==> #[trigger] final(page_table).mapping(final(mem).view(), a) == old(page_table).mapping(old(mem).view(), a),
        image.sections@.len() == 0 ==> r is Ok && *final(page_table) == *old(page_table) && final(mem).view()
            == old(mem).view(),
        image.sections@.len() > 0 && !image.sections@[0].well_placed() ==> r == Err::<
            u64,
            MapError,
        >(MapError::Misaligned) && *final(page_table) == *old(page_table) && final(mem).view()
            == old(mem).view(),
        image.sections@.len() > 0 && image.sections@[0].well_placed() && old(mem).offer(
            PageType::Page4K,
        ) is None ==> r == Err::<u64, MapError>(MapError::OutOfFrames) && *final(page_table)
            == *old(page_table) && final(mem).view() == old(mem).view(),
        image_collides(image.sections@, *old(page_table), old(mem).view()) ==> r is Err,
        match r {
            Ok(entry_point) => {
                &&& entry_point == image.entry_point
                &&& sections_loaded(
                    image.sections@,
                    image.sections@.len() as int,
                    *old(page_table),
                    *final(page_table),
                    old(mem).view(),
                    final(mem).view(),
                )
            },
            Err(e) => {
                &&& e != MapError::InvalidEntry
                &&& stopped_at_section(
                    image.sections@,
                    *old(page_table),
                    *final(page_table),
                    old(mem).view(),
                    final(mem).view(),
                    e,
                )
            },
        },
{
    let ghost before = *page_table;
    let ghost m0 = mem.view();
    let ghost sections = image.sections@;
    proof {
        table::lemma_grown_refl(before, m0);
    }
    let mut i: usize = 0;
    while i < image.sections.len()
        invariant
            mem.inv(),
            before == *old(page_table),
            m0 == old(mem).view(),
            sections == image.sections@,
            0 <= i <= sections.len(),
            page_table.wf(mem.view()),
            page_table.grown_from(before, m0, mem.view()),
            sections_loaded(sections, i as int, before, *page_table, m0, mem.view()),
            i == 0 ==> *page_table == before && *mem == *old(mem),
            i > 0 ==> old(mem).offer(PageType::Page4K) is Some,
        decreases sections.len() - i,
    {
        let ghost cur = *page_table;
        let ghost m = mem.view();
        proof {
            table::lemma_grown_facts(before, cur, m0, m);
        }
        let s = &image.sections[i];
        let r = page_table.map_init(
            mem,
            s.vaddr,
            PageType::Page4K,
            s.vsize,
            s.read,
            s.write,
            s.execute,
            s.raw.as_slice(),
        );
        match r {
            Ok(()) => {
                proof {
                    lemma_load_step(sections, i as int, before, cur, *page_table, m0, m, mem.view());
                }
            },
            Err(e) => {
                proof {
                    lemma_load_abort(sections, i as int, before, cur, *page_table, m0, m, mem.view(), e);
                }
                return Err(e);
            },
        }
        i = i + 1;
    }
    proof {
        lemma_loaded_clear(sections, before, *page_table, m0, mem.view());
    }
    Ok(image.entry_point)
}

/// Loaded sections stay loaded, each page in its frame, however the table
/// grows.
#[verifier::rlimit(40)]
pub proof fn lemma_sections_stable(
    sections: Seq<Section>,
    count: int,
    before: PageTable,
    after: PageTable,
    m_init: Map<u64, u64>,
    m0: Map<u64, u64>,
    m1: Map<u64, u64>,
)
    requires
        sections_backed(sections, count, before, m_init, m0),
        after.grown_from(before, m0, m1),
    ensures
        sections_backed(sections, count, after, m_init, m1),
{
    let page = PageType::Page4K;
    assert forall|i: int| 0 <= i < count implies (#[trigger] sections[i]).loaded(after, m_init, m1) by {
        lemma_loaded_stable(sections[i], before, after, m_init, m0, m1);
    }
    assert forall|i: int, j: int, k: int, l: int|
        0 <= i < j < count && 0 <= k < sections[i].pages() && 0 <= l < sections[j].pages() implies after.frame_at(
        m1,
        #[trigger] mapping::page_addr(sections[i].vaddr, page, k),
    ) != after.frame_at(m1, #[trigger] mapping::page_addr(sections[j].vaddr, page, l)) by {
        assert(sections[i].loaded(before, m_init, m0));
        assert(sections[j].loaded(before, m_init, m0));
        mapping::lemma_backs_stable(
            before,
            after,
            m0,
            m1,
            mapping::page_addr(sections[i].vaddr, page, k),
            page,
            sections[i].write,
            sections[i].execute,
            sections[i].raw@,
            k * 4096,
        );
        mapping::lemma_backs_stable(
            before,
            after,
            m0,
            m1,
            mapping::page_addr(sections[j].vaddr, page, l),
            page,
            sections[j].write,
            sections[j].execute,
            sections[j].raw@,
            l * 4096,
        );
    }
}

/// Reading a loaded section gives its recorded bytes and then zeros: byte
/// `j` of the section lies behind a leaf with the section's permissions, and
/// the byte of memory that the leaf translates it to is byte `j` of the
/// recorded bytes, or zero past their end.
pub proof fn lemma_section_byte(s: Section, t: PageTable, m0: Map<u64, u64>, m: Map<u64, u64>, j: u64)
    requires
        s.loaded(t, m0, m),
        j < s.vsize,
    ensures
        match t.mapping(m, (s.vaddr + j) as u64) {
            Some(leaf) => {
                &&& leaf.page == PageType::Page4K
                &&& leaf.writable() == s.write
                &&& leaf.executable() == s.execute
                &&& phys::byte_at(m, leaf.translate((s.vaddr + j) as u64)) == phys::source_byte(
                    s.raw@,
                    j as int,
                )
            },
            None => false,
        },
{
    let page = PageType::Page4K;
    let k = (j / 4096) as int;
    let r = (j % 4096) as u64;
    let a = (s.vaddr + j) as u64;
    let va = mapping::page_addr(s.vaddr, page, k);
    mapping::lemma_page_addr(s.vaddr, page, s.vsize, k);
    assert(a - va == r);
    entry::lemma_page_covers(va, page, a);
    entry::lemma_page_offset(va, page, a);
    assert(t.backs(m, va, page, s.write, s.execute, s.raw@, k * 4096));
    assert(t.mapping(m, a) == t.mapping(m, va));
    let leaf = t.mapping(m, va).unwrap();
    assert(leaf.translate(a) == leaf.frame() + r);
    assert(phys::byte_at(m, (leaf.frame() + r) as u64) == phys::source_byte(s.raw@, k * 4096 + r));
}

} // verus!
