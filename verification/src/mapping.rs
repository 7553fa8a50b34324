//! Mapping whole ranges: fresh frames behind each page, optionally filled
//! from a byte source, and linear windows onto physical memory.

use vstd::prelude::*;
use crate::entry;
use crate::entry::Leaf;
use crate::entry::PageType;
use crate::phys;
use crate::phys::PhysMem;
use crate::table;
use crate::table::MapError;
use crate::table::PageTable;
use crate::table::Slot;

verus! {

/// Virtual address of page `k` of a run of pages of type `page` that starts
/// at `vaddr`.
pub open spec fn page_addr(vaddr: u64, page: PageType, k: int) -> u64 {
    (vaddr + k * page.bytes()) as u64
}

/// Whether a request to map `size` bytes at `vaddr` in pages of type `page`
/// is one that can be served: the base is aligned to the page size, the size
/// is a positive multiple of it, and the range ends inside the address space.
pub open spec fn request_ok(vaddr: u64, page: PageType, size: u64) -> bool {
    &&& size > 0
    &&& vaddr % page.bytes() == 0
    &&& size % page.bytes() == 0
    &&& vaddr + (size - 1) <= u64::MAX
}

/// Whether none of the `len` bytes from `frame` on was in use in memory `m`.
pub open spec fn unused_region(m: Map<u64, u64>, frame: u64, len: u64) -> bool {
    forall|a: u64| frame <= a < frame + len ==> !m.dom().contains(a)
}

/// Copies source bytes into a zeroed region of memory: afterwards the `len`
/// bytes at `frame` are the bytes of `src` from offset `off` on, zero where
/// the source has ended. Nothing outside the region is written.
#[verifier::rlimit(40)]
pub fn fill<M: PhysMem>(mem: &mut M, frame: u64, len: u64, src: &[u8], off: u64)
    requires
        old(mem).inv(),
        frame % 8 == 0,
        len % 8 == 0,
        frame + len <= u64::MAX,
        off + len <= u64::MAX,
        forall|a: u64|
            frame <= a < frame + len && a % 8 == 0 ==> #[trigger] old(mem).view().dom().contains(a)
                && old(mem).view()[a] == 0,
    ensures
        final(mem).inv(),
        final(mem).view().dom() == old(mem).view().dom(),
        forall|a: u64| #[trigger]
            old(mem).view().dom().contains(a) && !(frame <= a < frame + len) ==> final(mem).view()[a]
                == old(mem).view()[a],
        phys::holds_bytes(final(mem).view(), frame, len, src@, off as int),
{
    let ghost m0 = mem.view();
    let mut done: u64 = 0;
    while done < len && off + done < src.len() as u64
        invariant
            mem.inv(),
            frame % 8 == 0,
            len % 8 == 0,
            frame + len <= u64::MAX,
            off + len <= u64::MAX,
            done % 8 == 0,
            done <= len,
            mem.view().dom() == m0.dom(),
            forall|a: u64| #[trigger]
                m0.dom().contains(a) && !(frame <= a < frame + len) ==> mem.view()[a] == m0[a],
            forall|a: u64| frame <= a < frame + len && a % 8 == 0 ==> #[trigger] m0.dom().contains(a),
            forall|a: u64| #[trigger]
                m0.dom().contains(a) && frame <= a < frame + done && a % 8 == 0 ==> mem.view()[a]
                    == phys::source_word(src@, off + (a - frame)),
            forall|a: u64| #[trigger]
                m0.dom().contains(a) && frame + done <= a < frame + len && a % 8 == 0
                    ==> mem.view()[a] == 0,
        decreases len - done,
    {
        let word: u64 = phys::source_load(src, off + done);
        let ghost before = mem.view();
        assert(m0.dom().contains((frame + done) as u64));
        mem.write(frame + done, word);
        proof {
            assert(mem.view().dom() =~= m0.dom());
        }
        done = done + 8;
    }
    proof {
        let m = mem.view();
        phys::lemma_pack_bytes(0, 0, 0, 0, 0, 0, 0, 0);
        assert forall|a: u64| frame <= a < frame + len && a % 8 == 0 implies #[trigger] m[a]
            == phys::source_word(src@, off + (a - frame)) by {
            assert(m0.dom().contains(a));
            if a >= frame + done {
                assert(off + done >= src@.len());
            }
        }
        assert forall|j: u64| j < len implies #[trigger] phys::byte_at(m, (frame + j) as u64)
            == phys::source_byte(src@, off + j) by {
            let i = j % 8;
            let a = (frame + (j - i)) as u64;
            assert(a == (frame + j) - (frame + j) % 8);
            assert(m[a] == phys::source_word(src@, off + (j - i)));
            let o = off + (j - i);
            phys::lemma_pack_bytes(
                phys::source_byte(src@, o),
                phys::source_byte(src@, o + 1),
                phys::source_byte(src@, o + 2),
                phys::source_byte(src@, o + 3),
                phys::source_byte(src@, o + 4),
                phys::source_byte(src@, o + 5),
                phys::source_byte(src@, o + 6),
                phys::source_byte(src@, o + 7),
            );
            assert((frame + j) % 8 == i);
        }
    }
}

impl PageTable {
    /// Physical address of the page that maps `vaddr`; zero when nothing
    /// does.
    pub open spec fn frame_at(&self, m: Map<u64, u64>, vaddr: u64) -> u64 {
        match self.mapping(m, vaddr) {
            Some(leaf) => leaf.frame(),
            None => 0,
        }
    }

    /// Whether `vaddr` is mapped by a page of type `page` with the given
    /// permissions, whose frame is aligned, lies in memory in use and
    /// outside the table's own frames, and holds the bytes of `src` from
    /// offset `off` on.
    pub open spec fn backs(
        &self,
        m: Map<u64, u64>,
        vaddr: u64,
        page: PageType,
        write: bool,
        execute: bool,
        src: Seq<u8>,
        off: int,
    ) -> bool {
        match self.mapping(m, vaddr) {
            Some(leaf) => {
                &&& leaf.page == page
                &&& leaf.entry == leaf.frame() | entry::leaf_flags(page, write, execute)
                &&& leaf.writable() == write
                &&& leaf.executable() == execute
                &&& leaf.frame() % page.bytes() == 0
                &&& leaf.frame() + page.bytes() <= entry::PHYS_LIMIT
                &&& forall|a: u64|
                    leaf.frame() <= a < leaf.frame() + page.bytes() ==> !#[trigger] self.owns(a)
                &&& forall|a: u64|
                    leaf.frame() <= a < leaf.frame() + page.bytes() && a % 8 == 0
                        ==> #[trigger] m.dom().contains(a)
                &&& phys::holds_bytes(m, leaf.frame(), page.bytes(), src, off)
            },
            None => false,
        }
    }

    /// Whether each of the first `count` pages of the run at `vaddr` is
    /// backed by a frame that was out of use in `m0` and holds that page's
    /// part of `src`, in a slot that was free in `before`.
    pub open spec fn pages_backed(
        &self,
        before: PageTable,
        m0: Map<u64, u64>,
        m1: Map<u64, u64>,
        vaddr: u64,
        page: PageType,
        write: bool,
        execute: bool,
        src: Seq<u8>,
        count: int,
    ) -> bool {
        forall|k: int|
            0 <= k < count ==> {
                &&& !before.in_use(m0, #[trigger] page_addr(vaddr, page, k), page)
                &&& self.backs(
                    m1,
                    page_addr(vaddr, page, k),
                    page,
                    write,
                    execute,
                    src,
                    k * page.bytes(),
                )
                &&& unused_region(m0, self.frame_at(m1, page_addr(vaddr, page, k)), page.bytes())
            }
    }

    /// Whether the first `count` pages of the run at `vaddr` are mapped to
    /// frames that differ from one another.
    pub open spec fn frames_distinct(
        &self,
        m1: Map<u64, u64>,
        vaddr: u64,
        page: PageType,
        count: int,
    ) -> bool {
        forall|i: int, j: int|
            0 <= i < j < count ==> self.frame_at(m1, #[trigger] page_addr(vaddr, page, i))
                != self.frame_at(m1, #[trigger] page_addr(vaddr, page, j))
    }

    /// Whether every address in the slot of one of the first `count` pages
    /// of the run at `vaddr` is mapped by the leaf that maps the page's
    /// first byte.
    pub open spec fn pages_uniform(
        &self,
        m1: Map<u64, u64>,
        vaddr: u64,
        page: PageType,
        count: int,
    ) -> bool {
        forall|a: u64, k: int|
            0 <= k < count && #[trigger] entry::covers(page_addr(vaddr, page, k), page, a)
                ==> self.mapping(m1, a) == self.mapping(m1, page_addr(vaddr, page, k))
    }

    /// Whether the first `count` pages of the run at `vaddr` are mapped to
    /// frames of their own that were out of use in `m0` and hold the bytes of
    /// `src`, page after page; whether their slots were free in `before`;
    /// and whether walks of addresses outside those pages give what they
    /// gave in `before`.
    pub open spec fn mapped_range(
        &self,
        before: PageTable,
        m0: Map<u64, u64>,
        m1: Map<u64, u64>,
        vaddr: u64,
        page: PageType,
        write: bool,
        execute: bool,
        src: Seq<u8>,
        count: int,
    ) -> bool {
        &&& self.pages_backed(before, m0, m1, vaddr, page, write, execute, src, count)
        &&& self.frames_distinct(m1, vaddr, page, count)
        &&& self.pages_uniform(m1, vaddr, page, count)
        &&& self.rest_untouched(before, m0, m1, vaddr, page, count)
    }

    /// Whether every walk that goes at least as deep as the level of `page`,
    /// for an address outside the first `count` pages of the run at `vaddr`,
    /// gives in `m1` what it gave for `before` in `m0`.
    pub open spec fn rest_untouched(
        &self,
        before: PageTable,
        m0: Map<u64, u64>,
        m1: Map<u64, u64>,
        vaddr: u64,
        page: PageType,
        count: int,
    ) -> bool {
        forall|a: u64, t: nat|
            page.level() <= t <= 3 && !run_covers(vaddr, page, count, a) ==> #[trigger] self.probe(
                m1,
                a,
                t,
            ) == before.probe(m0, a, t)
    }

    /// Whether, for some number of pages short of the whole request, exactly
    /// that many pages from the start of the run at `vaddr` are mapped as
    /// [`PageTable::mapped_range`] says.
    pub open spec fn mapped_short(
        &self,
        before: PageTable,
        m0: Map<u64, u64>,
        m1: Map<u64, u64>,
        vaddr: u64,
        page: PageType,
        size: u64,
        write: bool,
        execute: bool,
        src: Seq<u8>,
    ) -> bool {
        exists|k: int|
            0 <= k < size / page.bytes() && #[trigger] self.mapped_range(
                before,
                m0,
                m1,
                vaddr,
                page,
                write,
                execute,
                src,
                k,
            )
    }

    /// Whether some page of the run of `size` bytes at `vaddr` has its slot
    /// taken.
    pub open spec fn overlaps(&self, m: Map<u64, u64>, vaddr: u64, page: PageType, size: u64) -> bool {
        exists|k: int|
            0 <= k < size / page.bytes() && self.in_use(m, #[trigger] page_addr(vaddr, page, k), page)
    }
}

/// Whether address `a` falls in the slot of one of the first `count` pages of
/// the run at `vaddr`.
pub open spec fn run_covers(vaddr: u64, page: PageType, count: int, a: u64) -> bool {
    exists|k: int| 0 <= k < count && #[trigger] entry::covers(page_addr(vaddr, page, k), page, a)
}

/// The word that holds a byte lies in the same frame as the byte, and in any
/// word-aligned region that the byte lies in.
proof fn lemma_word_of(a: u64, frame: u64, len: u64)
    requires
        frame % 8 == 0,
        len % 8 == 0,
        frame <= a < frame + len,
    ensures
        ((a - a % 8) as u64) % 8 == 0,
        table::frame_base((a - a % 8) as u64) == table::frame_base(a),
        frame <= (a - a % 8) as u64,
        ((a - a % 8) as u64) < frame + len,
{
    let w = (a - a % 8) as u64;
    let q = a as int / 4096;
    let r = (a % 4096) as u64;
    let base = (a - r) as u64;
    vstd::arithmetic::div_mod::lemma_fundamental_div_mod(a as int, 4096);
    vstd::arithmetic::div_mod::lemma_fundamental_div_mod(a as int, 8);
    vstd::arithmetic::div_mod::lemma_fundamental_div_mod(frame as int, 8);
    vstd::arithmetic::div_mod::lemma_mod_multiples_vanish(q, 0, 4096);
    vstd::arithmetic::div_mod::lemma_mod_multiples_vanish(512 * q, r as int, 8);
    vstd::arithmetic::div_mod::lemma_mod_multiples_vanish(a as int / 8, 0, 8);
    vstd::arithmetic::div_mod::lemma_div_is_ordered(frame as int, a as int, 8);
    assert(a == 8 * (512 * q) + r);
    assert(a % 8 == r % 8);
    assert(base % 4096 == 0);
    let off = (r - r % 8) as u64;
    assert(w == base + off);
    entry::lemma_base_plus_offset(base, off, 4096);
}

/// A page that a table backs stays backed, with the same frame and the same
/// bytes, however the table grows.
#[verifier::rlimit(40)]
pub proof fn lemma_backs_stable(
    before: PageTable,
    after: PageTable,
    m0: Map<u64, u64>,
    m1: Map<u64, u64>,
    vaddr: u64,
    page: PageType,
    write: bool,
    execute: bool,
    src: Seq<u8>,
    off: int,
)
    requires
        before.backs(m0, vaddr, page, write, execute, src, off),
        after.grown_from(before, m0, m1),
    ensures
        after.backs(m1, vaddr, page, write, execute, src, off),
        after.mapping(m1, vaddr) == before.mapping(m0, vaddr),
{
    table::lemma_grown_facts(before, after, m0, m1);
    let leaf = before.mapping(m0, vaddr).unwrap();
    let frame = leaf.frame();
    let len = page.bytes();
    assert(before.probe(m0, vaddr, 3) != Slot::Vacant);
    assert(after.probe(m1, vaddr, 3) == before.probe(m0, vaddr, 3));
    entry::lemma_aligned(frame, page);
    assert forall|a: u64| frame <= a < frame + len implies !#[trigger] after.owns(a) by {
        let w = (a - a % 8) as u64;
        lemma_word_of(a, frame, len);
        assert(m0.dom().contains(w));
        assert(!before.owns(w));
        assert(!before.owns(a));
        assert(after.owns(w) == after.owns(a));
    }
    assert forall|a: u64| frame <= a < frame + len && a % 8 == 0 implies #[trigger] m1.dom().contains(
        a,
    ) by {
        assert(m0.dom().contains(a));
    }
    assert forall|j: u64| j < len implies #[trigger] phys::byte_at(m1, (frame + j) as u64)
        == phys::source_byte(src, off + j) by {
        let a = (frame + j) as u64;
        let w = (a - a % 8) as u64;
        lemma_word_of(a, frame, len);
        assert(m0.dom().contains(w));
        assert(!before.owns(w));
        assert(m1[w] == m0[w]);
        assert(phys::byte_at(m0, a) == phys::source_byte(src, off + j));
    }
}

/// Pages of a valid request lie inside the address space, one page size
/// apart.
pub proof fn lemma_page_addr(vaddr: u64, page: PageType, size: u64, k: int)
    requires
        request_ok(vaddr, page, size),
        0 <= k < size / page.bytes(),
    ensures
        page_addr(vaddr, page, k) == vaddr + k * page.bytes(),
        page_addr(vaddr, page, k) % page.bytes() == 0,
        k * page.bytes() + page.bytes() <= size,
        entry::covers(page_addr(vaddr, page, k), page, page_addr(vaddr, page, k)),
{
    match page {
        PageType::Page4K => {
            assert(k * 0x1000 + 0x1000 <= size);
            assert((vaddr + k * 0x1000) % 0x1000 == 0);
        },
        PageType::Page2M => {
            assert(k * 0x20_0000 + 0x20_0000 <= size);
            assert((vaddr + k * 0x20_0000) % 0x20_0000 == 0);
        },
        PageType::Page1G => {
            assert(k * 0x4000_0000 + 0x4000_0000 <= size);
            assert((vaddr + k * 0x4000_0000) % 0x4000_0000 == 0);
        },
    }
}

/// The pages that a run has mapped stay as they are when the table grows:
/// each keeps its leaf, its frame and its bytes.
#[verifier::rlimit(40)]
proof fn lemma_step_old(
    before: PageTable,
    cur: PageTable,
    nxt: PageTable,
    m0: Map<u64, u64>,
    m: Map<u64, u64>,
    m_c: Map<u64, u64>,
    vaddr: u64,
    page: PageType,
    write: bool,
    execute: bool,
    src: Seq<u8>,
    k: int,
)
    requires
        cur.pages_backed(before, m0, m, vaddr, page, write, execute, src, k),
        nxt.grown_from(cur, m, m_c),
    ensures
        nxt.pages_backed(before, m0, m_c, vaddr, page, write, execute, src, k),
        forall|j: int|
            0 <= j < k ==> nxt.mapping(m_c, #[trigger] page_addr(vaddr, page, j)) == cur.mapping(
                m,
                page_addr(vaddr, page, j),
            ) && m.dom().contains(cur.frame_at(m, page_addr(vaddr, page, j))),
{
    let len = page.bytes();
    assert forall|j: int| 0 <= j < k implies {
        &&& nxt.backs(m_c, #[trigger] page_addr(vaddr, page, j), page, write, execute, src, j * len)
        &&& nxt.mapping(m_c, page_addr(vaddr, page, j)) == cur.mapping(m, page_addr(vaddr, page, j))
        &&& m.dom().contains(cur.frame_at(m, page_addr(vaddr, page, j)))
    } by {
        let vj = page_addr(vaddr, page, j);
        lemma_backs_stable(cur, nxt, m, m_c, vj, page, write, execute, src, j * len);
        let fj = cur.frame_at(m, vj);
        assert(cur.backs(m, vj, page, write, execute, src, j * len));
        entry::lemma_aligned(fj, page);
    }
    assert forall|j: int| 0 <= j < k implies {
        &&& !before.in_use(m0, #[trigger] page_addr(vaddr, page, j), page)
        &&& nxt.backs(m_c, page_addr(vaddr, page, j), page, write, execute, src, j * len)
        &&& unused_region(m0, nxt.frame_at(m_c, page_addr(vaddr, page, j)), len)
    } by {
        assert(nxt.frame_at(m_c, page_addr(vaddr, page, j)) == cur.frame_at(
            m,
            page_addr(vaddr, page, j),
        ));
    }
}

/// A frame just claimed, filled and installed backs its page.
#[verifier::rlimit(40)]
proof fn lemma_step_new(
    cur: PageTable,
    nxt: PageTable,
    m: Map<u64, u64>,
    m_b: Map<u64, u64>,
    m_c: Map<u64, u64>,
    va: u64,
    page: PageType,
    write: bool,
    execute: bool,
    src: Seq<u8>,
    off: int,
    frame: u64,
)
    requires
        cur.wf(m),
        staged(m, m_b, page, frame, src, off),
        nxt.grown_from(cur, m_b, m_c),
        nxt.mapping(m_c, va) == Some(
            Leaf { entry: frame | entry::leaf_flags(page, write, execute), page },
        ),
    ensures
        nxt.backs(m_c, va, page, write, execute, src, off),
        nxt.frame_at(m_c, va) == frame,
        !m.dom().contains(frame),
{
    let len = page.bytes();
    let raw = frame | entry::leaf_flags(page, write, execute);
    let leaf = Leaf { entry: raw, page };
    table::lemma_grown_facts(cur, nxt, m_b, m_c);
    entry::lemma_leaf_flags(page, write, execute);
    entry::lemma_aligned(frame, page);
    entry::lemma_entry_fields(frame, entry::leaf_flags(page, write, execute));
    assert(leaf.frame() == frame);
    assert forall|a: u64| frame <= a < frame + len implies !cur.owns(a) by {
        if cur.owns(a) {
            table::lemma_owned_in_use(cur, m, a);
            let f = table::frame_base(a);
            assert(frame <= f <= a);
        }
    }
    assert forall|a: u64| frame <= a < frame + len implies !#[trigger] nxt.owns(a) by {
        let w = (a - a % 8) as u64;
        lemma_word_of(a, frame, len);
        assert(m_b.dom().contains(w));
        assert(!cur.owns(w));
        assert(nxt.owns(w) == nxt.owns(a));
    }
    assert forall|a: u64| frame <= a < frame + len && a % 8 == 0 implies #[trigger] m_c.dom().contains(
        a,
    ) by {
        assert(m_b.dom().contains(a));
    }
    assert forall|j: u64| j < len implies #[trigger] phys::byte_at(m_c, (frame + j) as u64)
        == phys::source_byte(src, off + j) by {
        let a = (frame + j) as u64;
        let w = (a - a % 8) as u64;
        lemma_word_of(a, frame, len);
        assert(m_b.dom().contains(w));
        assert(!cur.owns(w));
        assert(m_c[w] == m_b[w]);
        assert(phys::byte_at(m_b, a) == phys::source_byte(src, off + j));
    }
}

/// The pages backed so far, and one more.
proof fn lemma_step_backed(
    before: PageTable,
    nxt: PageTable,
    m0: Map<u64, u64>,
    m_c: Map<u64, u64>,
    vaddr: u64,
    page: PageType,
    write: bool,
    execute: bool,
    src: Seq<u8>,
    k: int,
)
    requires
        nxt.pages_backed(before, m0, m_c, vaddr, page, write, execute, src, k),
        !before.in_use(m0, page_addr(vaddr, page, k), page),
        nxt.backs(m_c, page_addr(vaddr, page, k), page, write, execute, src, k * page.bytes()),
        unused_region(m0, nxt.frame_at(m_c, page_addr(vaddr, page, k)), page.bytes()),
    ensures
        nxt.pages_backed(before, m0, m_c, vaddr, page, write, execute, src, k + 1),
{
}

/// The frames of the pages mapped so far differ, and the new one differs
/// from each of them.
proof fn lemma_step_distinct(
    cur: PageTable,
    nxt: PageTable,
    m: Map<u64, u64>,
    m_c: Map<u64, u64>,
    vaddr: u64,
    page: PageType,
    k: int,
)
    requires
        cur.frames_distinct(m, vaddr, page, k),
        forall|j: int|
            0 <= j < k ==> nxt.mapping(m_c, #[trigger] page_addr(vaddr, page, j)) == cur.mapping(
                m,
                page_addr(vaddr, page, j),
            ) && m.dom().contains(cur.frame_at(m, page_addr(vaddr, page, j))),
        !m.dom().contains(nxt.frame_at(m_c, page_addr(vaddr, page, k))),
    ensures
        nxt.frames_distinct(m_c, vaddr, page, k + 1),
{
    assert forall|i: int, j: int| 0 <= i < j < k + 1 implies nxt.frame_at(
        m_c,
        #[trigger] page_addr(vaddr, page, i),
    ) != nxt.frame_at(m_c, #[trigger] page_addr(vaddr, page, j)) by {
        assert(nxt.mapping(m_c, page_addr(vaddr, page, i)) == cur.mapping(
            m,
            page_addr(vaddr, page, i),
        ));
        if j < k {
            assert(nxt.mapping(m_c, page_addr(vaddr, page, j)) == cur.mapping(
                m,
                page_addr(vaddr, page, j),
            ));
        }
    }
}

/// Every address in the slot of a page mapped so far, or of the new page,
/// is mapped by that page's leaf.
proof fn lemma_step_uniform(
    cur: PageTable,
    nxt: PageTable,
    m: Map<u64, u64>,
    m_c: Map<u64, u64>,
    vaddr: u64,
    page: PageType,
    k: int,
    leaf: Leaf,
)
    requires
        cur.pages_uniform(m, vaddr, page, k),
        forall|a: u64| #[trigger]
            nxt.mapping(m_c, a) == (if entry::covers(page_addr(vaddr, page, k), page, a) {
                Some(leaf)
            } else {
                cur.mapping(m, a)
            }),
    ensures
        nxt.pages_uniform(m_c, vaddr, page, k + 1),
{
    let va = page_addr(vaddr, page, k);
    assert forall|a: u64, j: int|
        0 <= j < k + 1 && #[trigger] entry::covers(page_addr(vaddr, page, j), page, a) implies nxt.mapping(
        m_c,
        a,
    ) == nxt.mapping(m_c, page_addr(vaddr, page, j)) by {
        let vj = page_addr(vaddr, page, j);
        assert(nxt.mapping(m_c, a) == (if entry::covers(va, page, a) {
            Some(leaf)
        } else {
            cur.mapping(m, a)
        }));
        assert(nxt.mapping(m_c, vj) == (if entry::covers(va, page, vj) {
            Some(leaf)
        } else {
            cur.mapping(m, vj)
        }));
        if j < k {
            assert(cur.mapping(m, a) == cur.mapping(m, vj));
        }
    }
}

/// Walks outside the pages mapped so far, and outside the new page, give
/// what they gave before the run.
proof fn lemma_step_rest(
    before: PageTable,
    cur: PageTable,
    nxt: PageTable,
    m0: Map<u64, u64>,
    m: Map<u64, u64>,
    m_c: Map<u64, u64>,
    vaddr: u64,
    page: PageType,
    k: int,
)
    requires
        0 <= k,
        cur.rest_untouched(before, m0, m, vaddr, page, k),
        forall|a: u64, t: nat|
            page.level() <= t <= 3 && !entry::covers(page_addr(vaddr, page, k), page, a)
                ==> #[trigger] nxt.probe(m_c, a, t) == cur.probe(m, a, t),
    ensures
        nxt.rest_untouched(before, m0, m_c, vaddr, page, k + 1),
{
    assert forall|a: u64, t: nat|
        page.level() <= t <= 3 && !run_covers(vaddr, page, k + 1, a) implies #[trigger] nxt.probe(
        m_c,
        a,
        t,
    ) == before.probe(m0, a, t) by {
        assert(!entry::covers(page_addr(vaddr, page, k), page, a));
        assert(!run_covers(vaddr, page, k, a)) by {
            if run_covers(vaddr, page, k, a) {
                let j = choose|j: int|
                    0 <= j < k && #[trigger] entry::covers(page_addr(vaddr, page, j), page, a);
                assert(entry::covers(page_addr(vaddr, page, j), page, a));
            }
        }
        assert(nxt.probe(m_c, a, t) == cur.probe(m, a, t));
    }
}

/// What installing page `k` did to walks, seen from before its frame was
/// staged.
#[verifier::rlimit(40)]
proof fn lemma_step_walks(
    before: PageTable,
    cur: PageTable,
    nxt: PageTable,
    m0: Map<u64, u64>,
    m: Map<u64, u64>,
    m_b: Map<u64, u64>,
    m_c: Map<u64, u64>,
    va: u64,
    page: PageType,
    leaf: Leaf,
)
    requires
        cur.wf(m),
        cur.grown_from(before, m0, m),
        forall|a: u64| #[trigger] m.dom().contains(a) ==> m_b.dom().contains(a) && m_b[a] == m[a],
        nxt.grown_from(cur, m_b, m_c),
        !cur.in_use(m_b, va, page),
        forall|a: u64, t: nat|
            page.level() <= t <= 3 ==> #[trigger] nxt.probe(m_c, a, t) == (if entry::covers(
                va,
                page,
                a,
            ) {
                Slot::Mapped(leaf)
            } else {
                cur.probe(m_b, a, t)
            }),
    ensures
        nxt.grown_from(cur, m, m_c),
        nxt.grown_from(before, m0, m_c),
        !before.in_use(m0, va, page),
        forall|a: u64| #[trigger]
            nxt.mapping(m_c, a) == (if entry::covers(va, page, a) {
                Some(leaf)
            } else {
                cur.mapping(m, a)
            }),
        forall|a: u64, t: nat|
            page.level() <= t <= 3 && !entry::covers(va, page, a) ==> #[trigger] nxt.probe(
                m_c,
                a,
                t,
            ) == cur.probe(m, a, t),
{
    table::lemma_grown_facts(before, cur, m0, m);
    table::lemma_untouched(cur, m, m_b);
    table::lemma_grown_trans(cur, cur, nxt, m, m_b, m_c);
    table::lemma_grown_trans(before, cur, nxt, m0, m, m_c);
    assert(!before.in_use(m0, va, page)) by {
        assert(cur.probe(m_b, va, page.level()) == cur.probe(m, va, page.level()));
        if before.probe(m0, va, page.level()) != Slot::Vacant {
            assert(cur.probe(m, va, page.level()) == before.probe(m0, va, page.level()));
        }
    }
    assert forall|a: u64| #[trigger]
        nxt.mapping(m_c, a) == (if entry::covers(va, page, a) {
            Some(leaf)
        } else {
            cur.mapping(m, a)
        }) by {
        assert(nxt.probe(m_c, a, 3) == (if entry::covers(va, page, a) {
            Slot::Mapped(leaf)
        } else {
            cur.probe(m_b, a, 3)
        }));
        assert(cur.probe(m_b, a, 3) == cur.probe(m, a, 3));
    }
    assert forall|a: u64, t: nat|
        page.level() <= t <= 3 && !entry::covers(va, page, a) implies #[trigger] nxt.probe(
        m_c,
        a,
        t,
    ) == cur.probe(m, a, t) by {
        assert(cur.probe(m_b, a, t) == cur.probe(m, a, t));
    }
}

/// One more page of a run: after a frame was claimed, filled and installed
/// for page `k`, the first `k + 1` pages are mapped as asked.
#[verifier::rlimit(40)]
proof fn lemma_map_step(
    before: PageTable,
    cur: PageTable,
    nxt: PageTable,
    m0: Map<u64, u64>,
    m: Map<u64, u64>,
    m_b: Map<u64, u64>,
    m_c: Map<u64, u64>,
    vaddr: u64,
    page: PageType,
    size: u64,
    write: bool,
    execute: bool,
    src: Seq<u8>,
    k: int,
    frame: u64,
)
    requires
        request_ok(vaddr, page, size),
        0 <= k < size / page.bytes(),
        cur.wf(m),
        cur.grown_from(before, m0, m),
        cur.mapped_range(before, m0, m, vaddr, page, write, execute, src, k),
        staged(m, m_b, page, frame, src, k * page.bytes()),
        nxt.grown_from(cur, m_b, m_c),
        !cur.in_use(m_b, page_addr(vaddr, page, k), page),
        forall|a: u64, t: nat|
            page.level() <= t <= 3 ==> #[trigger] nxt.probe(m_c, a, t) == (if entry::covers(
                page_addr(vaddr, page, k),
                page,
                a,
            ) {
                Slot::Mapped(
                    Leaf { entry: frame | entry::leaf_flags(page, write, execute), page },
                )
            } else {
                cur.probe(m_b, a, t)
            }),
    ensures
        nxt.grown_from(before, m0, m_c),
        nxt.mapped_range(before, m0, m_c, vaddr, page, write, execute, src, k + 1),
{
    let va = page_addr(vaddr, page, k);
    let leaf = Leaf { entry: frame | entry::leaf_flags(page, write, execute), page };
    lemma_page_addr(vaddr, page, size, k);
    lemma_step_walks(before, cur, nxt, m0, m, m_b, m_c, va, page, leaf);
    lemma_step_old(before, cur, nxt, m0, m, m_c, vaddr, page, write, execute, src, k);
    assert(nxt.mapping(m_c, va) == Some(leaf));
    lemma_step_new(cur, nxt, m, m_b, m_c, va, page, write, execute, src, k * page.bytes(), frame);
    assert(unused_region(m0, frame, page.bytes())) by {
        table::lemma_grown_facts(before, cur, m0, m);
        assert forall|a: u64| frame <= a < frame + page.bytes() implies !m0.dom().contains(a) by {
            if m0.dom().contains(a) {
                assert(m.dom().contains(a));
            }
        }
    }
    lemma_step_backed(before, nxt, m0, m_c, vaddr, page, write, execute, src, k);
    lemma_step_distinct(cur, nxt, m, m_c, vaddr, page, k);
    lemma_step_uniform(cur, nxt, m, m_c, vaddr, page, k, leaf);
    lemma_step_rest(before, cur, nxt, m0, m, m_c, vaddr, page, k);
}

/// The pages that a run has mapped stay mapped as they are, and the rest
/// stays untouched, when the table grows without a walk changing.
#[verifier::rlimit(40)]
proof fn lemma_range_stable(
    before: PageTable,
    cur: PageTable,
    nxt: PageTable,
    m0: Map<u64, u64>,
    m: Map<u64, u64>,
    m_c: Map<u64, u64>,
    vaddr: u64,
    page: PageType,
    write: bool,
    execute: bool,
    src: Seq<u8>,
    k: int,
)
    requires
        0 <= k,
        cur.mapped_range(before, m0, m, vaddr, page, write, execute, src, k),
        nxt.grown_from(cur, m, m_c),
        forall|a: u64, t: nat|
            page.level() <= t <= 3 ==> #[trigger] nxt.probe(m_c, a, t) == cur.probe(m, a, t),
    ensures
        nxt.mapped_range(before, m0, m_c, vaddr, page, write, execute, src, k),
{
    lemma_step_old(before, cur, nxt, m0, m, m_c, vaddr, page, write, execute, src, k);
    assert forall|a: u64| #[trigger] nxt.mapping(m_c, a) == cur.mapping(m, a) by {
        assert(nxt.probe(m_c, a, 3) == cur.probe(m, a, 3));
    }
    assert(nxt.frames_distinct(m_c, vaddr, page, k));
    assert(nxt.pages_uniform(m_c, vaddr, page, k)) by {
        assert forall|a: u64, j: int|
            0 <= j < k && #[trigger] entry::covers(page_addr(vaddr, page, j), page, a) implies nxt.mapping(
            m_c,
            a,
        ) == nxt.mapping(m_c, page_addr(vaddr, page, j)) by {
            assert(cur.mapping(m, a) == cur.mapping(m, page_addr(vaddr, page, j)));
        }
    }
    assert(nxt.rest_untouched(before, m0, m_c, vaddr, page, k)) by {
        assert forall|a: u64, t: nat|
            page.level() <= t <= 3 && !run_covers(vaddr, page, k, a) implies #[trigger] nxt.probe(
            m_c,
            a,
            t,
        ) == before.probe(m0, a, t) by {
            assert(nxt.probe(m_c, a, t) == cur.probe(m, a, t));
        }
    }
}

/// What held outside the first pages of a run holds outside the whole run.
proof fn lemma_rest_widens(
    before: PageTable,
    cur: PageTable,
    m0: Map<u64, u64>,
    m: Map<u64, u64>,
    vaddr: u64,
    page: PageType,
    k: int,
    n: int,
)
    requires
        k <= n,
        cur.rest_untouched(before, m0, m, vaddr, page, k),
    ensures
        cur.rest_untouched(before, m0, m, vaddr, page, n),
{
    assert forall|a: u64, t: nat|
        page.level() <= t <= 3 && !run_covers(vaddr, page, n, a) implies #[trigger] cur.probe(
        m,
        a,
        t,
    ) == before.probe(m0, a, t) by {
        if run_covers(vaddr, page, k, a) {
            let j = choose|j: int|
                0 <= j < k && #[trigger] entry::covers(page_addr(vaddr, page, j), page, a);
            assert(entry::covers(page_addr(vaddr, page, j), page, a));
        }
    }
}

/// A run given up at page `k`: the table has grown, and walks outside the
/// run still give what they gave.
#[verifier::rlimit(40)]
proof fn lemma_map_abort(
    before: PageTable,
    cur: PageTable,
    nxt: PageTable,
    m0: Map<u64, u64>,
    m: Map<u64, u64>,
    m_b: Map<u64, u64>,
    m_c: Map<u64, u64>,
    vaddr: u64,
    page: PageType,
    k: int,
    n: int,
)
    requires
        0 <= k <= n,
        cur.grown_from(before, m0, m),
        cur.rest_untouched(before, m0, m, vaddr, page, k),
        forall|a: u64| #[trigger] m.dom().contains(a) ==> m_b.dom().contains(a) && m_b[a] == m[a],
        nxt.grown_from(cur, m_b, m_c),
        forall|a: u64, t: nat|
            page.level() <= t <= 3 ==> #[trigger] nxt.probe(m_c, a, t) == cur.probe(m_b, a, t),
    ensures
        nxt.grown_from(before, m0, m_c),
        nxt.rest_untouched(before, m0, m_c, vaddr, page, n),
{
    table::lemma_grown_facts(before, cur, m0, m);
    table::lemma_untouched(cur, m, m_b);
    table::lemma_grown_trans(cur, cur, nxt, m, m_b, m_c);
    table::lemma_grown_trans(before, cur, nxt, m0, m, m_c);
    assert(nxt.rest_untouched(before, m0, m_c, vaddr, page, k)) by {
        assert forall|a: u64, t: nat|
            page.level() <= t <= 3 && !run_covers(vaddr, page, k, a) implies #[trigger] nxt.probe(
            m_c,
            a,
            t,
        ) == before.probe(m0, a, t) by {
            assert(cur.probe(m_b, a, t) == cur.probe(m, a, t));
        }
    }
    lemma_rest_widens(before, nxt, m0, m_c, vaddr, page, k, n);
}

/// When page `k` of a run finds its slot taken, either that slot was taken
/// before the run began, or the run is so long that it wraps around the
/// translated address space onto itself.
#[verifier::rlimit(40)]
proof fn lemma_overlap_found(
    before: PageTable,
    cur: PageTable,
    m0: Map<u64, u64>,
    m: Map<u64, u64>,
    vaddr: u64,
    page: PageType,
    size: u64,
    k: int,
)
    requires
        request_ok(vaddr, page, size),
        0 <= k < size / page.bytes(),
        cur.rest_untouched(before, m0, m, vaddr, page, k),
        cur.in_use(m, page_addr(vaddr, page, k), page),
    ensures
        before.overlaps(m0, vaddr, page, size) || size > 0x1_0000_0000_0000,
{
    let va = page_addr(vaddr, page, k);
    lemma_page_addr(vaddr, page, size, k);
    if run_covers(vaddr, page, k, va) {
        let j = choose|j: int|
            0 <= j < k && #[trigger] entry::covers(page_addr(vaddr, page, j), page, va);
        let vj = page_addr(vaddr, page, j);
        lemma_page_addr(vaddr, page, size, j);
        assert(va - vj == (k - j) * page.bytes()) by (nonlinear_arith)
            requires
                va == vaddr + k * page.bytes(),
                vj == vaddr + j * page.bytes(),
        ;
        assert((k - j) * page.bytes() >= page.bytes()) by (nonlinear_arith)
            requires
                k - j >= 1,
                page.bytes() > 0,
        ;
        if va - vj < 0x1_0000_0000_0000 {
            entry::lemma_covers_same_page(vj, page, va);
        }
    } else {
        assert(cur.probe(m, va, page.level()) == before.probe(m0, va, page.level()));
        assert(before.in_use(m0, page_addr(vaddr, page, k), page));
    }
}

/// Whether memory `m1` is memory `m0` with one more frame claimed for a
/// page of type `page`, at `frame`, and filled with the bytes of `src` from
/// offset `off` on: the frame is aligned and within reach of an entry, none
/// of it was in use, and nothing that was in use has changed.
pub open spec fn staged(
    m0: Map<u64, u64>,
    m1: Map<u64, u64>,
    page: PageType,
    frame: u64,
    src: Seq<u8>,
    off: int,
) -> bool {
    &&& frame % page.bytes() == 0
    &&& frame + page.bytes() <= entry::PHYS_LIMIT
    &&& unused_region(m0, frame, page.bytes())
    &&& forall|a: u64| #[trigger] m0.dom().contains(a) ==> m1.dom().contains(a) && m1[a] == m0[a]
    &&& forall|a: u64|
        frame <= a < frame + page.bytes() && a % 8 == 0 ==> #[trigger] m1.dom().contains(a)
    &&& phys::holds_bytes(m1, frame, page.bytes(), src, off)
}

/// Claims a frame for a page of type `page` and fills it with the bytes of
/// `src` from offset `off` on. Returns the frame that the allocator offered
/// for that page size: one claim is made, of that size, and its answer is
/// the result. `None` means the allocator is exhausted; memory is then
/// untouched.
pub fn stage<M: PhysMem>(mem: &mut M, page: PageType, src: &[u8], off: u64) -> (r: Option<u64>)
    requires
        old(mem).inv(),
        off + page.bytes() <= u64::MAX,
    ensures
        final(mem).inv(),
        r == old(mem).offer(page),
        match r {
            Some(frame) => staged(old(mem).view(), final(mem).view(), page, frame, src@, off as int),
            None => final(mem).view() == old(mem).view(),
        },
{
    let ghost m = mem.view();
    let psize: u64 = page.size();
    let frame: u64 = match mem.alloc_phys(page) {
        Some(frame) => frame,
        None => {
            return None;
        },
    };
    let ghost m_a = mem.view();
    proof {
        entry::lemma_aligned(frame, page);
    }
    fill(mem, frame, psize, src, off);
    proof {
        let m_b = mem.view();
        assert forall|a: u64| #[trigger] m.dom().contains(a) implies m_b.dom().contains(a) && m_b[a]
            == m[a] by {
            assert(m_a.dom().contains(a));
        }
        assert forall|a: u64| frame <= a < frame + psize && a % 8 == 0 implies #[trigger] m_b.dom().contains(
            a,
        ) by {
            assert(m_a.dom().contains(a));
        }
    }
    Some(frame)
}

/// The state of a run after `k` pages: the request is valid, the table is
/// well formed and has grown from where the run began, and the first `k`
/// pages are mapped as asked.
#[verifier::opaque]
spec fn run_inv(
    before: PageTable,
    cur: PageTable,
    m0: Map<u64, u64>,
    m: Map<u64, u64>,
    vaddr: u64,
    page: PageType,
    size: u64,
    write: bool,
    execute: bool,
    src: Seq<u8>,
    k: int,
) -> bool {
    &&& request_ok(vaddr, page, size)
    &&& 0 <= k <= size / page.bytes()
    &&& cur.wf(m)
    &&& cur.grown_from(before, m0, m)
    &&& cur.mapped_range(before, m0, m, vaddr, page, write, execute, src, k)
}

/// A request refused at the door leaves every walk as it was.
proof fn lemma_run_refused(before: PageTable, m0: Map<u64, u64>, vaddr: u64, page: PageType, size: u64)
    requires
        before.wf(m0),
    ensures
        before.grown_from(before, m0, m0),
        before.rest_untouched(before, m0, m0, vaddr, page, (size / page.bytes()) as int),
{
    table::lemma_grown_refl(before, m0);
}

/// A run begins with no page mapped.
proof fn lemma_run_start(
    before: PageTable,
    m0: Map<u64, u64>,
    vaddr: u64,
    page: PageType,
    size: u64,
    write: bool,
    execute: bool,
    src: Seq<u8>,
)
    requires
        before.wf(m0),
        request_ok(vaddr, page, size),
    ensures
        run_inv(before, before, m0, m0, vaddr, page, size, write, execute, src, 0),
{
    reveal(run_inv);
    table::lemma_grown_refl(before, m0);
}

/// While pages remain, the next page lies inside the request.
proof fn lemma_run_arith(
    before: PageTable,
    cur: PageTable,
    m0: Map<u64, u64>,
    m: Map<u64, u64>,
    vaddr: u64,
    page: PageType,
    size: u64,
    write: bool,
    execute: bool,
    src: Seq<u8>,
    k: int,
)
    requires
        run_inv(before, cur, m0, m, vaddr, page, size, write, execute, src, k),
        k < size / page.bytes(),
    ensures
        k * page.bytes() + page.bytes() <= size,
        vaddr + k * page.bytes() + page.bytes() - 1 <= u64::MAX,
        cur.wf(m),
{
    reveal(run_inv);
    lemma_page_addr(vaddr, page, size, k);
}

/// A run that ends because no frame is left has touched nothing outside
/// its pages.
proof fn lemma_run_dry(
    before: PageTable,
    cur: PageTable,
    m0: Map<u64, u64>,
    m: Map<u64, u64>,
    vaddr: u64,
    page: PageType,
    size: u64,
    write: bool,
    execute: bool,
    src: Seq<u8>,
    k: int,
)
    requires
        run_inv(before, cur, m0, m, vaddr, page, size, write, execute, src, k),
        k < size / page.bytes(),
    ensures
        request_ok(vaddr, page, size),
        cur.wf(m),
        cur.grown_from(before, m0, m),
        cur.rest_untouched(before, m0, m, vaddr, page, (size / page.bytes()) as int),
        cur.mapped_short(before, m0, m, vaddr, page, size, write, execute, src),
{
    reveal(run_inv);
    assert(cur.mapped_range(before, m0, m, vaddr, page, write, execute, src, k));
    lemma_rest_widens(before, cur, m0, m, vaddr, page, k, (size / page.bytes()) as int);
}

/// A run that has mapped all its pages has done what was asked.
proof fn lemma_run_done(
    before: PageTable,
    cur: PageTable,
    m0: Map<u64, u64>,
    m: Map<u64, u64>,
    vaddr: u64,
    page: PageType,
    size: u64,
    write: bool,
    execute: bool,
    src: Seq<u8>,
)
    requires
        run_inv(
            before,
            cur,
            m0,
            m,
            vaddr,
            page,
            size,
            write,
            execute,
            src,
            (size / page.bytes()) as int,
        ),
    ensures
        request_ok(vaddr, page, size),
        cur.wf(m),
        cur.grown_from(before, m0, m),
        cur.mapped_range(
            before,
            m0,
            m,
            vaddr,
            page,
            write,
            execute,
            src,
            (size / page.bytes()) as int,
        ),
        !before.overlaps(m0, vaddr, page, size),
{
    reveal(run_inv);
}

/// Staging a frame leaves the table intact and gives a word that is a leaf
/// for the page.
proof fn lemma_run_staged(
    before: PageTable,
    cur: PageTable,
    m0: Map<u64, u64>,
    m: Map<u64, u64>,
    m_b: Map<u64, u64>,
    vaddr: u64,
    page: PageType,
    size: u64,
    write: bool,
    execute: bool,
    src: Seq<u8>,
    k: int,
    frame: u64,
)
    requires
        run_inv(before, cur, m0, m, vaddr, page, size, write, execute, src, k),
        k < size / page.bytes(),
        staged(m, m_b, page, frame, src, k * page.bytes()),
    ensures
        cur.wf(m_b),
        (vaddr + k * page.bytes()) % (page.bytes() as int) == 0,
        entry::leaf_for((frame | entry::leaf_flags(page, write, execute)), page),
{
    reveal(run_inv);
    lemma_page_addr(vaddr, page, size, k);
    table::lemma_untouched(cur, m, m_b);
    entry::lemma_leaf_flags(page, write, execute);
    entry::lemma_aligned(frame, page);
    entry::lemma_entry_fields(frame, entry::leaf_flags(page, write, execute));
}

/// Installing the staged frame for page `k` carries the run to page
/// `k + 1`.
proof fn lemma_run_step(
    before: PageTable,
    cur: PageTable,
    nxt: PageTable,
    m0: Map<u64, u64>,
    m: Map<u64, u64>,
    m_b: Map<u64, u64>,
    m_c: Map<u64, u64>,
    vaddr: u64,
    page: PageType,
    size: u64,
    write: bool,
    execute: bool,
    src: Seq<u8>,
    k: int,
    frame: u64,
)
    requires
        run_inv(before, cur, m0, m, vaddr, page, size, write, execute, src, k),
        k < size / page.bytes(),
        staged(m, m_b, page, frame, src, k * page.bytes()),
        nxt.wf(m_c),
        nxt.grown_from(cur, m_b, m_c),
        !cur.in_use(m_b, (vaddr + k * page.bytes()) as u64, page),
        forall|a: u64, t: nat|
            page.level() <= t <= 3 ==> #[trigger] nxt.probe(m_c, a, t) == (if entry::covers(
                (vaddr + k * page.bytes()) as u64,
                page,
                a,
            ) {
                Slot::Mapped(
                    Leaf { entry: frame | entry::leaf_flags(page, write, execute), page },
                )
            } else {
                cur.probe(m_b, a, t)
            }),
    ensures
        run_inv(before, nxt, m0, m_c, vaddr, page, size, write, execute, src, k + 1),
{
    reveal(run_inv);
    lemma_map_step(
        before,
        cur,
        nxt,
        m0,
        m,
        m_b,
        m_c,
        vaddr,
        page,
        size,
        write,
        execute,
        src,
        k,
        frame,
    );
}

/// A run that ends at page `k` because its entry could not be installed
/// has touched nothing outside its pages; where the slot was taken, it was
/// taken before the run or by the run itself.
proof fn lemma_run_abort(
    before: PageTable,
    cur: PageTable,
    nxt: PageTable,
    m0: Map<u64, u64>,
    m: Map<u64, u64>,
    m_b: Map<u64, u64>,
    m_c: Map<u64, u64>,
    vaddr: u64,
    page: PageType,
    size: u64,
    write: bool,
    execute: bool,
    src: Seq<u8>,
    k: int,
    frame: u64,
    taken: bool,
)
    requires
        run_inv(before, cur, m0, m, vaddr, page, size, write, execute, src, k),
        k < size / page.bytes(),
        staged(m, m_b, page, frame, src, k * page.bytes()),
        nxt.wf(m_c),
        nxt.grown_from(cur, m_b, m_c),
        forall|a: u64, t: nat|
            page.level() <= t <= 3 ==> #[trigger] nxt.probe(m_c, a, t) == cur.probe(m_b, a, t),
        taken ==> cur.in_use(m_b, (vaddr + k * page.bytes()) as u64, page),
    ensures
        request_ok(vaddr, page, size),
        nxt.grown_from(before, m0, m_c),
        nxt.rest_untouched(before, m0, m_c, vaddr, page, (size / page.bytes()) as int),
        nxt.mapped_short(before, m0, m_c, vaddr, page, size, write, execute, src),
        taken ==> before.overlaps(m0, vaddr, page, size) || size > 0x1_0000_0000_0000,
{
    reveal(run_inv);
    lemma_page_addr(vaddr, page, size, k);
    lemma_map_abort(before, cur, nxt, m0, m, m_b, m_c, vaddr, page, k, (size / page.bytes()) as int);
    table::lemma_untouched(cur, m, m_b);
    table::lemma_grown_trans(cur, cur, nxt, m, m_b, m_c);
    assert forall|a: u64, t: nat| page.level() <= t <= 3 implies #[trigger] nxt.probe(m_c, a, t)
        == cur.probe(m, a, t) by {
        assert(cur.probe(m_b, a, t) == cur.probe(m, a, t));
    }
    lemma_range_stable(before, cur, nxt, m0, m, m_c, vaddr, page, write, execute, src, k);
    assert(nxt.mapped_range(before, m0, m_c, vaddr, page, write, execute, src, k));
    if taken {
        assert(cur.probe(m_b, page_addr(vaddr, page, k), page.level()) == cur.probe(
            m,
            page_addr(vaddr, page, k),
            page.level(),
        ));
        lemma_overlap_found(before, cur, m0, m, vaddr, page, size, k);
    }
}

impl PageTable {
    /// Maps `size` bytes at `vaddr` in pages of type `page`, each page to a
    /// frame of its own, freshly claimed, that holds that page's part of
    /// `source` and zeros where `source` has ended.
    ///
    /// The pages are taken in order: claim a frame, fill it, install its
    /// entry. A request that is not aligned is refused before anything is
    /// done, and so is any request when the allocator has no frame of the
    /// page size to offer. A page whose slot is taken, or a dry allocator, ends the run
    /// where it stands: the pages before it stay mapped, and nothing that
    /// was mapped before the call has changed. `read` is accepted for
    /// symmetry; the architecture cannot withhold reads from a present
    /// page.
    #[verifier::rlimit(40)]
    pub fn map_init<M: PhysMem>(
        &mut self,
        mem: &mut M,
        vaddr: u64,
        page: PageType,
        size: u64,
        read: bool,
        write: bool,
        execute: bool,
        source: &[u8],
    ) -> (r: Result<(), MapError>)
        requires
            old(mem).inv(),
            old(self).wf(old(mem).view()),
        ensures
            final(mem).inv(),
            final(self).wf(final(mem).view()),
            final(self).grown_from(*old(self), old(mem).view(), final(mem).view()),
            final(self).rest_untouched(
                *old(self),
                old(mem).view(),
                final(mem).view(),
                vaddr,
                page,
                (size / page.bytes()) as int,
            ),
            !request_ok(vaddr, page, size) ==> r == Err::<(), MapError>(MapError::Misaligned),
            request_ok(vaddr, page, size) && old(mem).offer(page) is None ==> r == Err::<
                (),
                MapError,
            >(MapError::OutOfFrames) && *final(self) == *old(self) && final(mem).view()
                == old(mem).view(),
            request_ok(vaddr, page, size) && old(self).overlaps(old(mem).view(), vaddr, page, size)
                ==> r is Err,
            match r {
                Ok(()) => {
                    &&& request_ok(vaddr, page, size)
                    &&& final(self).mapped_range(
                        *old(self),
                        old(mem).view(),
                        final(mem).view(),
                        vaddr,
                        page,
                        write,
                        execute,
                        source@,
                        (size / page.bytes()) as int,
                    )
                },
                Err(MapError::Misaligned) => {
                    &&& !request_ok(vaddr, page, size)
                    &&& *final(self) == *old(self)
                    &&& final(mem).view() == old(mem).view()
                },
                Err(MapError::InvalidEntry) => false,
                Err(MapError::AlreadyMapped) => {
                    &&& request_ok(vaddr, page, size)
                    &&& (old(self).overlaps(old(mem).view(), vaddr, page, size) || size
                        > 0x1_0000_0000_0000)
                    &&& final(self).mapped_short(
                        *old(self),
                        old(mem).view(),
                        final(mem).view(),
                        vaddr,
                        page,
                        size,
                        write,
                        execute,
                        source@,
                    )
                },
                Err(MapError::OutOfFrames) => {
                    &&& request_ok(vaddr, page, size)
                    &&& final(self).mapped_short(
                        *old(self),
                        old(mem).view(),
                        final(mem).view(),
                        vaddr,
                        page,
                        size,
                        write,
                        execute,
                        source@,
                    )
                },
            },
    {
        let ghost before = *self;
        let ghost m0 = mem.view();
        let psize: u64 = page.size();
        if size == 0 || vaddr % psize != 0 || size % psize != 0 {
            proof {
                lemma_run_refused(before, m0, vaddr, page, size);
            }
            return Err(MapError::Misaligned);
        }
        if vaddr > u64::MAX - (size - 1) {
            proof {
                lemma_run_refused(before, m0, vaddr, page, size);
            }
            return Err(MapError::Misaligned);
        }
        let flags: u64 = entry::make_flags(page, write, execute);
        let count: u64 = size / psize;
        let mut k: u64 = 0;
        proof {
            lemma_run_start(before, m0, vaddr, page, size, write, execute, source@);
        }
        while k < count
            invariant
                mem.inv(),
                count == size / page.bytes(),
                psize == page.bytes(),
                flags == entry::leaf_flags(page, write, execute),
                before == *old(self),
                m0 == old(mem).view(),
                0 <= k <= count,
                k == 0 ==> *mem == *old(mem) && *self == before,
                k > 0 ==> old(mem).offer(page) is Some,
                run_inv(
                    before,
                    *self,
                    m0,
                    mem.view(),
                    vaddr,
                    page,
                    size,
                    write,
                    execute,
                    source@,
                    k as int,
                ),
            decreases count - k,
        {
            let ghost cur = *self;
            let ghost m = mem.view();
            proof {
                lemma_run_arith(before, cur, m0, m, vaddr, page, size, write, execute, source@, k as int);
            }
            let off: u64 = k * psize;
            let va: u64 = vaddr + off;
            let frame: u64 = match stage(mem, page, source, off) {
                Some(frame) => frame,
                None => {
                    proof {
                        lemma_run_dry(before, cur, m0, m, vaddr, page, size, write, execute, source@, k as int);
                    }
                    return Err(MapError::OutOfFrames);
                },
            };
            let ghost m_b = mem.view();
            proof {
                lemma_run_staged(
                    before,
                    cur,
                    m0,
                    m,
                    m_b,
                    vaddr,
                    page,
                    size,
                    write,
                    execute,
                    source@,
                    k as int,
                    frame,
                );
            }
            let raw: u64 = frame | flags;
            match self.map_raw(mem, va, page, raw) {
                Ok(()) => {
                    proof {
                        lemma_run_step(
                            before,
                            cur,
                            *self,
                            m0,
                            m,
                            m_b,
                            mem.view(),
                            vaddr,
                            page,
                            size,
                            write,
                            execute,
                            source@,
                            k as int,
                            frame,
                        );
                    }
                },
                Err(e) => {
                    proof {
                        lemma_run_abort(
                            before,
                            cur,
                            *self,
                            m0,
                            m,
                            m_b,
                            mem.view(),
                            vaddr,
                            page,
                            size,
                            write,
                            execute,
                            source@,
                            k as int,
                            frame,
                            e == MapError::AlreadyMapped,
                        );
                    }
                    return Err(e);
                },
            }
            k = k + 1;
        }
        proof {
            lemma_run_done(before, *self, m0, mem.view(), vaddr, page, size, write, execute, source@);
        }
        Ok(())
    }

    /// Maps `size` bytes at `vaddr` in pages of type `page`, each page to a
    /// zeroed frame of its own, freshly claimed.
    pub fn map<M: PhysMem>(
        &mut self,
        mem: &mut M,
        vaddr: u64,
        page: PageType,
        size: u64,
        read: bool,
        write: bool,
        execute: bool,
    ) -> (r: Result<(), MapError>)
        requires
            old(mem).inv(),
            old(self).wf(old(mem).view()),
        ensures
            final(mem).inv(),
            final(self).wf(final(mem).view()),
            final(self).grown_from(*old(self), old(mem).view(), final(mem).view()),
            final(self).rest_untouched(
                *old(self),
                old(mem).view(),
                final(mem).view(),
                vaddr,
                page,
                (size / page.bytes()) as int,
            ),
            !request_ok(vaddr, page, size) ==> r == Err::<(), MapError>(MapError::Misaligned),
            request_ok(vaddr, page, size) && old(mem).offer(page) is None ==> r == Err::<
                (),
                MapError,
            >(MapError::OutOfFrames) && *final(self) == *old(self) && final(mem).view()
                == old(mem).view(),
            request_ok(vaddr, page, size) && old(self).overlaps(old(mem).view(), vaddr, page, size)
                ==> r is Err,
            match r {
                Ok(()) => {
                    &&& request_ok(vaddr, page, size)
                    &&& final(self).mapped_range(
                        *old(self),
                        old(mem).view(),
                        final(mem).view(),
                        vaddr,
                        page,
                        write,
                        execute,
                        Seq::<u8>::empty(),
                        (size / page.bytes()) as int,
                    )
                },
                Err(MapError::Misaligned) => {
                    &&& !request_ok(vaddr, page, size)
                    &&& *final(self) == *old(self)
                    &&& final(mem).view() == old(mem).view()
                },
                Err(MapError::InvalidEntry) => false,
                Err(MapError::AlreadyMapped) => {
                    &&& request_ok(vaddr, page, size)
                    &&& (old(self).overlaps(old(mem).view(), vaddr, page, size) || size
                        > 0x1_0000_0000_0000)
                    &&& final(self).mapped_short(
                        *old(self),
                        old(mem).view(),
                        final(mem).view(),
                        vaddr,
                        page,
                        size,
                        write,
                        execute,
                        Seq::<u8>::empty(),
                    )
                },
                Err(MapError::OutOfFrames) => {
                    &&& request_ok(vaddr, page, size)
                    &&& final(self).mapped_short(
                        *old(self),
                        old(mem).view(),
                        final(mem).view(),
                        vaddr,
                        page,
                        size,
                        write,
                        execute,
                        Seq::<u8>::empty(),
                    )
                },
            },
    {
        let nothing: Vec<u8> = Vec::new();
        let r = self.map_init(mem, vaddr, page, size, read, write, execute, nothing.as_slice());
        proof {
            assert(nothing@ =~= Seq::<u8>::empty());
        }
        r
    }
}

/// Number of smallest pages needed to hold `len` bytes.
pub open spec fn pages_for(len: u64) -> int {
    (len + 4095) / 4096
}

/// Whether a window of `len` bytes at `vbase` can be asked for: the base is
/// page-aligned and the last page ends inside the address space.
pub open spec fn window_fits(vbase: u64, len: u64) -> bool {
    &&& vbase % 4096 == 0
    &&& vbase + 4096 * pages_for(len) <= u64::MAX + 1
}

/// Whether `flags` can be joined with any physical address below `len` to
/// give a leaf entry: the present bit is set, no address bit is, and `len`
/// does not reach past what an entry can name.
pub open spec fn window_flags_ok(len: u64, flags: u64) -> bool {
    &&& entry::present(flags)
    &&& flags & entry::PAGE_ADDR_MASK == 0
    &&& len <= entry::PHYS_LIMIT
}

impl PageTable {
    /// Whether the first `count` pages at `vbase` map physical memory from
    /// address zero on: every address in the slot of page `k` is mapped by
    /// the entry `4096 * k | flags`.
    pub open spec fn linear_at(&self, m: Map<u64, u64>, vbase: u64, flags: u64, count: int) -> bool {
        forall|a: u64, k: int|
            0 <= k < count && #[trigger] entry::covers(
                page_addr(vbase, PageType::Page4K, k),
                PageType::Page4K,
                a,
            ) ==> self.mapping(m, a) == Some(
                Leaf { entry: ((k * 4096) as u64) | flags, page: PageType::Page4K },
            )
    }

    /// Whether the first `count` pages at `vbase` map physical memory from
    /// address zero on, page `k` to physical page `k` with `flags`; whether
    /// their slots were free in `before`; and whether walks of addresses
    /// outside those pages give what they gave in `before`.
    pub open spec fn window_mapped(
        &self,
        before: PageTable,
        m0: Map<u64, u64>,
        m1: Map<u64, u64>,
        vbase: u64,
        flags: u64,
        count: int,
    ) -> bool {
        &&& forall|k: int|
            0 <= k < count ==> !before.in_use(
                m0,
                #[trigger] page_addr(vbase, PageType::Page4K, k),
                PageType::Page4K,
            )
        &&& self.linear_at(m1, vbase, flags, count)
        &&& self.rest_untouched(before, m0, m1, vbase, PageType::Page4K, count)
    }

    /// Whether every table on the way to each of the first `count` pages at
    /// `vbase` exists.
    pub open spec fn window_paths(&self, m: Map<u64, u64>, vbase: u64, count: int) -> bool {
        forall|k: int|
            0 <= k < count ==> self.path_complete(
                m,
                #[trigger] page_addr(vbase, PageType::Page4K, k),
                PageType::Page4K,
            )
    }

    /// Whether the pages of a window from number `from` on each have a free
    /// slot and every table on the way to it, so that mapping them needs no
    /// frame.
    pub open spec fn window_ready(&self, m: Map<u64, u64>, vbase: u64, len: u64, from: int) -> bool {
        forall|k: int|
            from <= k < pages_for(len) ==> {
                &&& !self.in_use(
                    m,
                    #[trigger] page_addr(vbase, PageType::Page4K, k),
                    PageType::Page4K,
                )
                &&& self.path_complete(m, page_addr(vbase, PageType::Page4K, k), PageType::Page4K)
            }
    }

    /// Whether, for some number of pages short of the whole window, exactly
    /// that many pages from `vbase` on are mapped as
    /// [`PageTable::window_mapped`] says.
    pub open spec fn window_short(
        &self,
        before: PageTable,
        m0: Map<u64, u64>,
        m1: Map<u64, u64>,
        vbase: u64,
        len: u64,
        flags: u64,
    ) -> bool {
        exists|k: int|
            0 <= k < pages_for(len) && #[trigger] self.window_mapped(before, m0, m1, vbase, flags, k)
    }
}

/// The pages of a window mapped so far stay mapped, and the rest stays
/// untouched, when the table grows without a walk to the last level
/// changing.
proof fn lemma_window_stable(
    before: PageTable,
    cur: PageTable,
    nxt: PageTable,
    m0: Map<u64, u64>,
    m: Map<u64, u64>,
    m_c: Map<u64, u64>,
    vbase: u64,
    flags: u64,
    k: int,
)
    requires
        cur.window_mapped(before, m0, m, vbase, flags, k),
        nxt.grown_from(cur, m, m_c),
        forall|a: u64, t: nat| 3 <= t <= 3 ==> #[trigger] nxt.probe(m_c, a, t) == cur.probe(m, a, t),
    ensures
        nxt.window_mapped(before, m0, m_c, vbase, flags, k),
{
    lemma_linear_stable(cur, nxt, m, m_c, vbase, flags, k);
    assert forall|a: u64, t: nat|
        PageType::Page4K.level() <= t <= 3 && !run_covers(vbase, PageType::Page4K, k, a) implies #[trigger] nxt.probe(
        m_c,
        a,
        t,
    ) == before.probe(m0, a, t) by {
        assert(nxt.probe(m_c, a, t) == cur.probe(m, a, t));
    }
}

/// One more page of a window.
#[verifier::rlimit(40)]
proof fn lemma_window_step(
    before: PageTable,
    cur: PageTable,
    nxt: PageTable,
    m0: Map<u64, u64>,
    m: Map<u64, u64>,
    m_c: Map<u64, u64>,
    vbase: u64,
    flags: u64,
    k: int,
)
    requires
        0 <= k,
        cur.grown_from(before, m0, m),
        cur.window_mapped(before, m0, m, vbase, flags, k),
        nxt.grown_from(cur, m, m_c),
        !cur.in_use(m, page_addr(vbase, PageType::Page4K, k), PageType::Page4K),
        forall|a: u64, t: nat|
            3 <= t <= 3 ==> #[trigger] nxt.probe(m_c, a, t) == (if entry::covers(
                page_addr(vbase, PageType::Page4K, k),
                PageType::Page4K,
                a,
            ) {
                Slot::Mapped(Leaf { entry: ((k * 4096) as u64) | flags, page: PageType::Page4K })
            } else {
                cur.probe(m, a, t)
            }),
    ensures
        nxt.grown_from(before, m0, m_c),
        nxt.window_mapped(before, m0, m_c, vbase, flags, k + 1),
{
    let page = PageType::Page4K;
    let va = page_addr(vbase, page, k);
    table::lemma_grown_facts(before, cur, m0, m);
    table::lemma_grown_trans(before, cur, nxt, m0, m, m_c);
    assert(!before.in_use(m0, va, page)) by {
        if before.probe(m0, va, 3) != Slot::Vacant {
            assert(cur.probe(m, va, 3) == before.probe(m0, va, 3));
        }
    }
    assert forall|a: u64, j: int|
        0 <= j < k + 1 && #[trigger] entry::covers(page_addr(vbase, page, j), page, a) implies nxt.mapping(
        m_c,
        a,
    ) == Some(Leaf { entry: ((j * 4096) as u64) | flags, page }) by {
        assert(nxt.probe(m_c, a, 3) == (if entry::covers(va, page, a) {
            Slot::Mapped(Leaf { entry: ((k * 4096) as u64) | flags, page })
        } else {
            cur.probe(m, a, 3)
        }));
        if j < k {
            assert(cur.mapping(m, a) == Some(Leaf { entry: ((j * 4096) as u64) | flags, page }));
            if entry::covers(va, page, a) {
                assert(entry::covers(page_addr(vbase, page, j), page, va));
                assert(cur.mapping(m, va) == Some(
                    Leaf { entry: ((j * 4096) as u64) | flags, page },
                ));
            }
        }
    }
    assert(nxt.rest_untouched(before, m0, m_c, vbase, page, k + 1)) by {
        assert forall|a: u64, t: nat|
            page.level() <= t <= 3 && !run_covers(vbase, page, k + 1, a) implies #[trigger] nxt.probe(
            m_c,
            a,
            t,
        ) == before.probe(m0, a, t) by {
            assert(!entry::covers(page_addr(vbase, page, k), page, a));
            assert(!run_covers(vbase, page, k, a)) by {
                if run_covers(vbase, page, k, a) {
                    let j = choose|j: int|
                        0 <= j < k && #[trigger] entry::covers(page_addr(vbase, page, j), page, a);
                    assert(entry::covers(page_addr(vbase, page, j), page, a));
                }
            }
        }
    }
}

/// The tables on the way to the pages of a window stay when the table
/// grows, and the page just mapped has all of its own.
proof fn lemma_paths_step(
    cur: PageTable,
    nxt: PageTable,
    m: Map<u64, u64>,
    m_c: Map<u64, u64>,
    vbase: u64,
    k: int,
)
    requires
        0 <= k,
        nxt.grown_from(cur, m, m_c),
        cur.window_paths(m, vbase, k),
        nxt.path_complete(m_c, page_addr(vbase, PageType::Page4K, k), PageType::Page4K),
    ensures
        nxt.window_paths(m_c, vbase, k + 1),
{
    table::lemma_grown_facts(cur, nxt, m, m_c);
    assert forall|j: int| 0 <= j < k + 1 implies nxt.path_complete(
        m_c,
        #[trigger] page_addr(vbase, PageType::Page4K, j),
        PageType::Page4K,
    ) by {
        if j < k {
            let vj = page_addr(vbase, PageType::Page4K, j);
            assert(cur.path_complete(m, vj, PageType::Page4K));
            assert(cur.probe(m, vj, 2) != Slot::Vacant);
        }
    }
}

/// Mapping one page of a window leaves the pages after it as ready as they
/// were: their slots are other slots, and no table is ever unlinked.
proof fn lemma_ready_step(
    cur: PageTable,
    nxt: PageTable,
    m: Map<u64, u64>,
    m_c: Map<u64, u64>,
    vbase: u64,
    len: u64,
    k: int,
    leaf: Leaf,
)
    requires
        window_fits(vbase, len),
        len <= 0x1_0000_0000_0000 - 4096,
        0 <= k < pages_for(len),
        nxt.grown_from(cur, m, m_c),
        forall|a: u64, t: nat|
            3 <= t <= 3 ==> #[trigger] nxt.probe(m_c, a, t) == (if entry::covers(
                page_addr(vbase, PageType::Page4K, k),
                PageType::Page4K,
                a,
            ) {
                Slot::Mapped(leaf)
            } else {
                cur.probe(m, a, t)
            }),
        cur.window_ready(m, vbase, len, k),
    ensures
        nxt.window_ready(m_c, vbase, len, k + 1),
{
    let page = PageType::Page4K;
    let size = (4096 * pages_for(len)) as u64;
    let vk = page_addr(vbase, page, k);
    table::lemma_grown_facts(cur, nxt, m, m_c);
    lemma_page_addr(vbase, page, size, k);
    assert forall|j: int| k + 1 <= j < pages_for(len) implies {
        &&& !nxt.in_use(m_c, #[trigger] page_addr(vbase, page, j), page)
        &&& nxt.path_complete(m_c, page_addr(vbase, page, j), page)
    } by {
        let vj = page_addr(vbase, page, j);
        lemma_page_addr(vbase, page, size, j);
        assert(page.bytes() == 4096);
        assert(vk == vbase + k * 4096);
        assert(vj == vbase + j * 4096);
        assert(vj - vk == (j - k) * 4096);
        if entry::covers(vk, page, vj) {
            entry::lemma_covers_same_page(vk, page, vj);
        }
        assert(nxt.probe(m_c, vj, 3) == cur.probe(m, vj, 3));
        assert(cur.path_complete(m, vj, page));
        assert(cur.probe(m, vj, 2) != Slot::Vacant);
    }
}

impl PageTable {
    /// Maps the first `len` bytes of physical memory at `vbase`, page by
    /// page: the page at `vbase + p` gets the entry `p | flags`, for every
    /// page-aligned `p` below `len`. No frame is claimed for the pages
    /// themselves, and nothing is written to them.
    ///
    /// A window that is misplaced, or flags that cannot make a leaf, are
    /// refused before anything is done. A page whose slot is taken, or a
    /// dry allocator, ends the run where it stands. Where every page has a
    /// free slot and every table on the way to it, no frame is asked for
    /// and the window is mapped.
    #[verifier::rlimit(40)]
    pub fn map_window<M: PhysMem>(&mut self, mem: &mut M, vbase: u64, len: u64, flags: u64) -> (r:
        Result<(), MapError>)
        requires
            old(mem).inv(),
            old(self).wf(old(mem).view()),
        ensures
            final(mem).inv(),
            final(self).wf(final(mem).view()),
            final(self).grown_from(*old(self), old(mem).view(), final(mem).view()),
            final(self).rest_untouched(
                *old(self),
                old(mem).view(),
                final(mem).view(),
                vbase,
                PageType::Page4K,
                pages_for(len),
            ),
            window_fits(vbase, len) && window_flags_ok(len, flags) && len <= 0x1_0000_0000_0000
                - 4096 && old(self).window_ready(old(mem).view(), vbase, len, 0) ==> r is Ok
                && final(self).frames() == old(self).frames() && final(mem).view().dom()
                == old(mem).view().dom(),
            window_fits(vbase, len) && window_flags_ok(len, flags) && len > 0 && !old(self).in_use(
                old(mem).view(),
                vbase,
                PageType::Page4K,
            ) && !old(self).path_complete(old(mem).view(), vbase, PageType::Page4K) 
                && old(mem).offer(PageType::Page4K) is None ==> r == Err::<(), MapError>(MapError::OutOfFrames)
                && *final(self) == *old(self) && final(mem).view() == old(mem).view(),
            match r {
                Ok(()) => {
                    &&& window_fits(vbase, len)
                    &&& window_flags_ok(len, flags)
                    &&& final(self).window_mapped(
                        *old(self),
                        old(mem).view(),
                        final(mem).view(),
                        vbase,
                        flags,
                        pages_for(len),
                    )
                    &&& final(self).window_paths(final(mem).view(), vbase, pages_for(len))
                },
                Err(MapError::Misaligned) => {
                    &&& window_flags_ok(len, flags)
                    &&& !window_fits(vbase, len)
                    &&& *final(self) == *old(self)
                    &&& final(mem).view() == old(mem).view()
                },
                Err(MapError::InvalidEntry) => {
                    &&& !window_flags_ok(len, flags)
                    &&& *final(self) == *old(self)
                    &&& final(mem).view() == old(mem).view()
                },
                Err(MapError::AlreadyMapped) => {
                    &&& window_fits(vbase, len)
                    &&& window_flags_ok(len, flags)
                    &&& (old(self).overlaps(
                        old(mem).view(),
                        vbase,
                        PageType::Page4K,
                        (4096 * pages_for(len)) as u64,
                    ) || len > 0x1_0000_0000_0000 - 4096)
                    &&& final(self).window_short(
                        *old(self),
                        old(mem).view(),
                        final(mem).view(),
                        vbase,
                        len,
                        flags,
                    )
                },
                Err(MapError::OutOfFrames) => {
                    &&& window_fits(vbase, len)
                    &&& window_flags_ok(len, flags)
                    &&& final(self).window_short(
                        *old(self),
                        old(mem).view(),
                        final(mem).view(),
                        vbase,
                        len,
                        flags,
                    )
                },
            },
    {
        let ghost before = *self;
        let ghost m0 = mem.view();
        let page = PageType::Page4K;
        proof {
            table::lemma_grown_refl(before, m0);
        }
        if flags & entry::PAGE_PRESENT == 0 || flags & entry::PAGE_ADDR_MASK != 0 || len
            > entry::PHYS_LIMIT {
            return Err(MapError::InvalidEntry);
        }
        let count: u64 = (len + 4095) / 4096;
        if vbase % 4096 != 0 {
            return Err(MapError::Misaligned);
        }
        if count > 0 && vbase > u64::MAX - (4096 * count - 1) {
            return Err(MapError::Misaligned);
        }
        let ghost size: u64 = (4096 * count) as u64;
        let ghost ready: bool = len <= 0x1_0000_0000_0000 - 4096 && before.window_ready(
            m0,
            vbase,
            len,
            0,
        );
        let mut k: u64 = 0;
        while k < count
            invariant
                mem.inv(),
                page == PageType::Page4K,
                window_fits(vbase, len),
                window_flags_ok(len, flags),
                count == pages_for(len),
                size == 4096 * count,
                before == *old(self),
                m0 == old(mem).view(),
                0 <= k <= count,
                self.wf(mem.view()),
                self.grown_from(before, m0, mem.view()),
                self.window_mapped(before, m0, mem.view(), vbase, flags, k as int),
                self.window_paths(mem.view(), vbase, k as int),
                k == 0 ==> *mem == *old(mem) && *self == before,
                k > 0 ==> before.in_use(m0, vbase, PageType::Page4K) || before.path_complete(
                    m0,
                    vbase,
                    PageType::Page4K,
                ) || old(mem).offer(PageType::Page4K) is Some,
                ready ==> len <= 0x1_0000_0000_0000 - 4096 && self.window_ready(
                    mem.view(),
                    vbase,
                    len,
                    k as int,
                ) && self.frames() == before.frames() && mem.view().dom() == m0.dom(),
            decreases count - k,
        {
            let ghost cur = *self;
            let ghost m = mem.view();
            let p: u64 = k * 4096;
            let va: u64 = vbase + p;
            proof {
                lemma_page_addr(vbase, page, size, k as int);
                table::lemma_grown_facts(before, cur, m0, m);
                entry::lemma_entry_fields(p, flags);
            }
            let raw: u64 = p | flags;
            match self.map_raw(mem, va, page, raw) {
                Ok(()) => {
                    proof {
                        lemma_window_step(before, cur, *self, m0, m, mem.view(), vbase, flags, k as int);
                        lemma_paths_step(cur, *self, m, mem.view(), vbase, k as int);
                        if ready {
                            lemma_ready_step(
                                cur,
                                *self,
                                m,
                                mem.view(),
                                vbase,
                                len,
                                k as int,
                                Leaf { entry: raw, page },
                            );
                        }
                    }
                },
                Err(e) => {
                    proof {
                        lemma_map_abort(
                            before,
                            cur,
                            *self,
                            m0,
                            m,
                            m,
                            mem.view(),
                            vbase,
                            page,
                            k as int,
                            count as int,
                        );
                        if e == MapError::AlreadyMapped {
                            lemma_overlap_found(before, cur, m0, m, vbase, page, size, k as int);
                        }
                        lemma_window_stable(
                            before,
                            cur,
                            *self,
                            m0,
                            m,
                            mem.view(),
                            vbase,
                            flags,
                            k as int,
                        );
                    }
                    return Err(e);
                },
            }
            k = k + 1;
        }
        Ok(())
    }
}

/// In a window, the address `p` bytes in is mapped to the physical page
/// that holds `p`.
pub proof fn lemma_linear_lookup(t: PageTable, m: Map<u64, u64>, vbase: u64, flags: u64, count: int, p: u64)
    requires
        t.linear_at(m, vbase, flags, count),
        vbase % 4096 == 0,
        p < 4096 * count,
        vbase + p <= u64::MAX,
    ensures
        t.mapping(m, (vbase + p) as u64) == Some(
            Leaf { entry: ((p - p % 4096) as u64) | flags, page: PageType::Page4K },
        ),
{
    let k = (p / 4096) as int;
    let va = page_addr(vbase, PageType::Page4K, k);
    assert(PageType::Page4K.bytes() == 4096);
    assert(k * 4096 == p - p % 4096);
    assert(vbase + k * 4096 <= u64::MAX);
    assert(va == vbase + (p - p % 4096));
    entry::lemma_page_covers(va, PageType::Page4K, (vbase + p) as u64);
}

/// A table that grows keeps its windows.
pub proof fn lemma_linear_stable(
    before: PageTable,
    after: PageTable,
    m0: Map<u64, u64>,
    m1: Map<u64, u64>,
    vbase: u64,
    flags: u64,
    count: int,
)
    requires
        before.linear_at(m0, vbase, flags, count),
        after.grown_from(before, m0, m1),
    ensures
        after.linear_at(m1, vbase, flags, count),
{
    table::lemma_grown_facts(before, after, m0, m1);
    assert forall|a: u64, k: int|
        0 <= k < count && #[trigger] entry::covers(
            page_addr(vbase, PageType::Page4K, k),
            PageType::Page4K,
            a,
        ) implies after.mapping(m1, a) == Some(
        Leaf { entry: ((k * 4096) as u64) | flags, page: PageType::Page4K },
    ) by {
        assert(before.probe(m0, a, 3) != Slot::Vacant);
    }
}

/// Reading through a mapped range gives the source: byte `j` of a range
/// mapped from `src` lies behind a leaf with the permissions asked for, and
/// the byte of memory that the leaf translates it to is byte `j` of `src`,
/// or zero where `src` has ended.
#[verifier::rlimit(40)]
pub proof fn lemma_mapped_byte(
    t: PageTable,
    before: PageTable,
    m0: Map<u64, u64>,
    m1: Map<u64, u64>,
    vaddr: u64,
    page: PageType,
    size: u64,
    write: bool,
    execute: bool,
    src: Seq<u8>,
    j: u64,
)
    requires
        request_ok(vaddr, page, size),
        t.mapped_range(before, m0, m1, vaddr, page, write, execute, src, (size / page.bytes()) as int),
        j < size,
    ensures
        match t.mapping(m1, (vaddr + j) as u64) {
            Some(leaf) => {
                &&& leaf.page == page
                &&& leaf.writable() == write
                &&& leaf.executable() == execute
                &&& phys::byte_at(m1, leaf.translate((vaddr + j) as u64)) == phys::source_byte(
                    src,
                    j as int,
                )
            },
            None => false,
        },
{
    let len = page.bytes();
    let k = (j / len) as int;
    let r = (j % len) as u64;
    let a = (vaddr + j) as u64;
    let va = page_addr(vaddr, page, k);
    match page {
        PageType::Page4K => {
            assert(k * 0x1000 + r == j && 0 <= k < size / 0x1000);
        },
        PageType::Page2M => {
            assert(k * 0x20_0000 + r == j && 0 <= k < size / 0x20_0000);
        },
        PageType::Page1G => {
            assert(k * 0x4000_0000 + r == j && 0 <= k < size / 0x4000_0000);
        },
    }
    lemma_page_addr(vaddr, page, size, k);
    assert(a - va == r);
    entry::lemma_page_covers(va, page, a);
    entry::lemma_page_offset(va, page, a);
    assert(t.backs(m1, va, page, write, execute, src, k * len));
    assert(t.mapping(m1, a) == t.mapping(m1, va));
    let leaf = t.mapping(m1, va).unwrap();
    assert(leaf.translate(a) == leaf.frame() + r);
    assert(phys::byte_at(m1, (leaf.frame() + r) as u64) == phys::source_byte(src, k * len + r));
}

} // verus!
