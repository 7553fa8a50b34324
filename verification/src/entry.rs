//! Encoding of x86-64 translation entries and of virtual addresses.
//!
//! A virtual address selects one slot at each of four levels, nine bits per
//! level, level 0 being the root. An entry is a 64-bit word: a frame address
//! in bits 12 to 51 and flag bits around it.

use vstd::prelude::*;

verus! {

/// The entry translates; a clear bit means the slot is empty.
pub const PAGE_PRESENT: u64 = 0x1;

/// Writes through the entry are allowed.
pub const PAGE_WRITE: u64 = 0x2;

/// User-mode accesses through the entry are allowed.
pub const PAGE_USER: u64 = 0x4;

/// Above the last level: the entry maps a large page instead of naming a
/// table.
pub const PAGE_SIZE: u64 = 0x80;

/// Instruction fetches through the entry are refused.
pub const PAGE_NX: u64 = 0x8000_0000_0000_0000;

/// The bits of an entry that hold the frame address.
pub const PAGE_ADDR_MASK: u64 = 0x000f_ffff_ffff_f000;

/// Number of entries in one table.
pub const TABLE_ENTRIES: u64 = 512;

/// Bytes in one table, which is also the smallest page.
pub const FRAME_BYTES: u64 = 4096;

/// One past the largest physical address that an entry can name.
pub const PHYS_LIMIT: u64 = 0x0010_0000_0000_0000;

/// The three page sizes of the architecture.
#[derive(Clone, Copy, Debug, PartialEq, Eq, Structural)]
pub enum PageType {
    Page4K,
    Page2M,
    Page1G,
}

impl PageType {
    /// Bytes covered by one page of this type.
    pub open spec fn bytes(self) -> u64 {
        match self {
            PageType::Page4K => 0x1000,
            PageType::Page2M => 0x20_0000,
            PageType::Page1G => 0x4000_0000,
        }
    }

    /// The level whose entries map pages of this type.
    pub open spec fn level(self) -> nat {
        match self {
            PageType::Page4K => 3,
            PageType::Page2M => 2,
            PageType::Page1G => 1,
        }
    }

    /// The page type mapped by leaves of `level`; levels outside 1 and 2 give
    /// the smallest page.
    pub open spec fn at_level(level: nat) -> PageType {
        if level == 1 {
            PageType::Page1G
        } else if level == 2 {
            PageType::Page2M
        } else {
            PageType::Page4K
        }
    }

    /// Bytes covered by one page of this type.
    pub fn size(self) -> (r: u64)
        ensures
            r == self.bytes(),
    {
        match self {
            PageType::Page4K => 0x1000,
            PageType::Page2M => 0x20_0000,
            PageType::Page1G => 0x4000_0000,
        }
    }

    /// The level whose entries map pages of this type.
    pub fn depth(self) -> (r: usize)
        ensures
            r == self.level(),
            1 <= r <= 3,
    {
        match self {
            PageType::Page4K => 3,
            PageType::Page2M => 2,
            PageType::Page1G => 1,
        }
    }

    /// The page type mapped by leaves of `level`.
    pub fn from_depth(level: usize) -> (r: PageType)
        ensures
            r == PageType::at_level(level as nat),
    {
        if level == 1 {
            PageType::Page1G
        } else if level == 2 {
            PageType::Page2M
        } else {
            PageType::Page4K
        }
    }
}

/// The slot that `vaddr` selects in a table of `level`.
pub open spec fn index(vaddr: u64, level: nat) -> u64 {
    if level == 0 {
        (vaddr >> 39) & 0x1ff
    } else if level == 1 {
        (vaddr >> 30) & 0x1ff
    } else if level == 2 {
        (vaddr >> 21) & 0x1ff
    } else {
        (vaddr >> 12) & 0x1ff
    }
}

/// Every index is below the number of entries in a table.
pub proof fn lemma_index_bound(vaddr: u64, level: nat)
    ensures
        index(vaddr, level) < TABLE_ENTRIES,
{
    assert(((vaddr >> 39) & 0x1ff) < 512 && ((vaddr >> 30) & 0x1ff) < 512 && ((vaddr >> 21)
        & 0x1ff) < 512 && ((vaddr >> 12) & 0x1ff) < 512) by (bit_vector);
}

/// The slot that `vaddr` selects in a table of `level`.
pub fn table_index(vaddr: u64, level: usize) -> (r: u64)
    ensures
        r == index(vaddr, level as nat),
        r < TABLE_ENTRIES,
{
    proof {
        lemma_index_bound(vaddr, level as nat);
    }
    if level == 0 {
        (vaddr >> 39) & 0x1ff
    } else if level == 1 {
        (vaddr >> 30) & 0x1ff
    } else if level == 2 {
        (vaddr >> 21) & 0x1ff
    } else {
        (vaddr >> 12) & 0x1ff
    }
}

/// Whether `a` and `b` select the same slot at every level below `levels`.
pub open spec fn same_prefix(a: u64, b: u64, levels: nat) -> bool {
    &&& levels > 0 ==> index(a, 0) == index(b, 0)
    &&& levels > 1 ==> index(a, 1) == index(b, 1)
    &&& levels > 2 ==> index(a, 2) == index(b, 2)
    &&& levels > 3 ==> index(a, 3) == index(b, 3)
}

/// Whether address `a` falls in the slot that maps the page of type `page` at
/// `vaddr`. Translation ignores bits 48 and up, so addresses that differ only
/// there share their slots.
pub open spec fn covers(vaddr: u64, page: PageType, a: u64) -> bool {
    same_prefix(a, vaddr, page.level() + 1)
}

/// Every address inside an aligned page falls in that page's slot.
pub proof fn lemma_page_covers(vaddr: u64, page: PageType, a: u64)
    requires
        vaddr % page.bytes() == 0,
        vaddr <= a,
        a - vaddr < page.bytes(),
    ensures
        covers(vaddr, page, a),
{
    match page {
        PageType::Page4K => {
            assert((a >> 39) & 0x1ff == (vaddr >> 39) & 0x1ff && (a >> 30) & 0x1ff == (vaddr
                >> 30) & 0x1ff && (a >> 21) & 0x1ff == (vaddr >> 21) & 0x1ff && (a >> 12) & 0x1ff
                == (vaddr >> 12) & 0x1ff) by (bit_vector)
                requires
                    vaddr % 0x1000 == 0,
                    vaddr <= a,
                    a - vaddr < 0x1000,
            ;
        },
        PageType::Page2M => {
            assert((a >> 39) & 0x1ff == (vaddr >> 39) & 0x1ff && (a >> 30) & 0x1ff == (vaddr
                >> 30) & 0x1ff && (a >> 21) & 0x1ff == (vaddr >> 21) & 0x1ff) by (bit_vector)
                requires
                    vaddr % 0x20_0000 == 0,
                    vaddr <= a,
                    a - vaddr < 0x20_0000,
            ;
        },
        PageType::Page1G => {
            assert((a >> 39) & 0x1ff == (vaddr >> 39) & 0x1ff && (a >> 30) & 0x1ff == (vaddr
                >> 30) & 0x1ff) by (bit_vector)
                requires
                    vaddr % 0x4000_0000 == 0,
                    vaddr <= a,
                    a - vaddr < 0x4000_0000,
            ;
        },
    }
}

/// Two addresses less than 2^48 bytes apart that share a slot lie in the same
/// aligned page.
pub proof fn lemma_covers_same_page(vaddr: u64, page: PageType, a: u64)
    requires
        vaddr % page.bytes() == 0,
        covers(vaddr, page, a),
        vaddr <= a,
        a - vaddr < 0x1_0000_0000_0000,
    ensures
        a - vaddr < page.bytes(),
{
    match page {
        PageType::Page4K => {
            assert(a - vaddr < 0x1000) by (bit_vector)
                requires
                    vaddr % 0x1000 == 0,
                    vaddr <= a,
                    a - vaddr < 0x1_0000_0000_0000,
                    (a >> 39) & 0x1ff == (vaddr >> 39) & 0x1ff,
                    (a >> 30) & 0x1ff == (vaddr >> 30) & 0x1ff,
                    (a >> 21) & 0x1ff == (vaddr >> 21) & 0x1ff,
                    (a >> 12) & 0x1ff == (vaddr >> 12) & 0x1ff,
            ;
        },
        PageType::Page2M => {
            assert(a - vaddr < 0x20_0000) by (bit_vector)
                requires
                    vaddr % 0x20_0000 == 0,
                    vaddr <= a,
                    a - vaddr < 0x1_0000_0000_0000,
                    (a >> 39) & 0x1ff == (vaddr >> 39) & 0x1ff,
                    (a >> 30) & 0x1ff == (vaddr >> 30) & 0x1ff,
                    (a >> 21) & 0x1ff == (vaddr >> 21) & 0x1ff,
            ;
        },
        PageType::Page1G => {
            assert(a - vaddr < 0x4000_0000) by (bit_vector)
                requires
                    vaddr % 0x4000_0000 == 0,
                    vaddr <= a,
                    a - vaddr < 0x1_0000_0000_0000,
                    (a >> 39) & 0x1ff == (vaddr >> 39) & 0x1ff,
                    (a >> 30) & 0x1ff == (vaddr >> 30) & 0x1ff,
            ;
        },
    }
}

/// Whether the entry translates.
pub open spec fn present(e: u64) -> bool {
    e & PAGE_PRESENT != 0
}

/// Whether the large-page bit is set.
pub open spec fn large(e: u64) -> bool {
    e & PAGE_SIZE != 0
}

/// Whether a present entry found at `level` ends the walk there. The last
/// level always does; levels 1 and 2 do when the entry maps a large page.
pub open spec fn ends_walk(e: u64, level: nat) -> bool {
    level >= 3 || (level >= 1 && large(e))
}

/// The frame address held in the entry.
pub open spec fn frame_of(e: u64) -> u64 {
    e & PAGE_ADDR_MASK
}

/// Whether `raw` can be installed as the entry of a page of type `page`: it
/// must translate, and above the last level it must carry the large-page bit.
pub open spec fn leaf_for(raw: u64, page: PageType) -> bool {
    present(raw) && (page != PageType::Page4K ==> large(raw))
}

/// The flag bits of an entry made for a page of type `page` with the given
/// permissions. The architecture has no read permission: every present entry
/// is readable.
pub open spec fn leaf_flags(page: PageType, write: bool, execute: bool) -> u64 {
    PAGE_PRESENT | (if write { PAGE_WRITE } else { 0 }) | (if execute { 0 } else { PAGE_NX })
        | (if page == PageType::Page4K { 0 } else { PAGE_SIZE })
}

/// The flag bits of an entry made for a page of type `page` with the given
/// permissions.
pub fn make_flags(page: PageType, write: bool, execute: bool) -> (r: u64)
    ensures
        r == leaf_flags(page, write, execute),
{
    let w: u64 = if write { PAGE_WRITE } else { 0 };
    let x: u64 = if execute { 0 } else { PAGE_NX };
    let s: u64 = match page {
        PageType::Page4K => 0,
        _ => PAGE_SIZE,
    };
    PAGE_PRESENT | w | x | s
}

/// What a finished walk found: the entry and the size of the page it maps.
#[derive(Clone, Copy, Debug, PartialEq, Eq, Structural)]
pub struct Leaf {
    pub entry: u64,
    pub page: PageType,
}

impl Leaf {
    /// Physical address of the first byte of the page.
    pub open spec fn frame(self) -> u64 {
        frame_of(self.entry)
    }

    /// Whether writes are allowed.
    pub open spec fn writable(self) -> bool {
        self.entry & PAGE_WRITE != 0
    }

    /// Whether instruction fetches are allowed.
    pub open spec fn executable(self) -> bool {
        self.entry & PAGE_NX == 0
    }

    /// The physical address that `vaddr` translates to through this leaf.
    pub open spec fn translate(self, vaddr: u64) -> u64 {
        (self.frame() + (vaddr & ((self.page.bytes() - 1) as u64))) as u64
    }

    /// Physical address of the first byte of the page.
    pub fn frame_addr(&self) -> (r: u64)
        ensures
            r == self.frame(),
    {
        self.entry & PAGE_ADDR_MASK
    }

    /// Whether writes are allowed.
    pub fn is_writable(&self) -> (r: bool)
        ensures
            r == self.writable(),
    {
        self.entry & PAGE_WRITE != 0
    }

    /// Whether instruction fetches are allowed.
    pub fn is_executable(&self) -> (r: bool)
        ensures
            r == self.executable(),
    {
        self.entry & PAGE_NX == 0
    }

    /// The physical address that `vaddr` translates to through this leaf.
    pub fn phys_addr(&self, vaddr: u64) -> (r: u64)
        ensures
            r == self.translate(vaddr),
    {
        let mask: u64 = self.page.size() - 1;
        let entry: u64 = self.entry;
        let frame: u64 = entry & PAGE_ADDR_MASK;
        let off: u64 = vaddr & mask;
        assert(frame + off <= u64::MAX) by {
            assert(entry & 0x000f_ffff_ffff_f000 <= 0x000f_ffff_ffff_f000) by (bit_vector);
            assert(vaddr & mask <= mask) by (bit_vector);
        }
        frame + off
    }
}

/// A page-aligned frame address below the physical limit, joined with flag
/// bits that lie outside the address field, reads back as that address with
/// those flags.
pub proof fn lemma_entry_fields(frame: u64, flags: u64)
    requires
        frame % FRAME_BYTES == 0,
        frame < PHYS_LIMIT,
        flags & PAGE_ADDR_MASK == 0,
    ensures
        frame_of(frame | flags) == frame,
        present(frame | flags) == present(flags),
        large(frame | flags) == large(flags),
        (frame | flags) & PAGE_WRITE == flags & PAGE_WRITE,
        (frame | flags) & PAGE_NX == flags & PAGE_NX,
{
    assert((frame | flags) & 0x000f_ffff_ffff_f000 == frame && (frame | flags) & 0x1 == flags & 0x1
        && (frame | flags) & 0x80 == flags & 0x80 && (frame | flags) & 0x2 == flags & 0x2 && (frame
        | flags) & 0x8000_0000_0000_0000 == flags & 0x8000_0000_0000_0000) by (bit_vector)
        requires
            frame % 4096 == 0,
            frame < 0x0010_0000_0000_0000,
            flags & 0x000f_ffff_ffff_f000 == 0,
    ;
}

/// The flags made for a leaf lie outside the address field and say what was
/// asked for.
pub proof fn lemma_leaf_flags(page: PageType, write: bool, execute: bool)
    ensures
        leaf_flags(page, write, execute) & PAGE_ADDR_MASK == 0,
        present(leaf_flags(page, write, execute)),
        large(leaf_flags(page, write, execute)) == (page != PageType::Page4K),
        (leaf_flags(page, write, execute) & PAGE_WRITE != 0) == write,
        (leaf_flags(page, write, execute) & PAGE_NX == 0) == execute,
{
    let w: u64 = if write { PAGE_WRITE } else { 0 };
    let x: u64 = if execute { 0 } else { PAGE_NX };
    let s: u64 = if page == PageType::Page4K { 0 } else { PAGE_SIZE };
    let f = 0x1u64 | w | x | s;
    assert(f == leaf_flags(page, write, execute));
    assert((0x1u64 | w | x | s) & 0x000f_ffff_ffff_f000 == 0
        && (0x1u64 | w | x | s) & 0x1 != 0
        && ((0x1u64 | w | x | s) & 0x80 != 0) == (s != 0)
        && ((0x1u64 | w | x | s) & 0x2 != 0) == (w != 0)
        && ((0x1u64 | w | x | s) & 0x8000_0000_0000_0000 == 0) == (x == 0)) by (bit_vector)
        requires
            w == 0 || w == 0x2,
            x == 0 || x == 0x8000_0000_0000_0000,
            s == 0 || s == 0x80,
    ;
}

/// Inside an aligned page, the bits of an address below the page size are
/// its distance from the start of the page.
pub proof fn lemma_page_offset(vaddr: u64, page: PageType, a: u64)
    requires
        vaddr % page.bytes() == 0,
        vaddr <= a,
        a - vaddr < page.bytes(),
    ensures
        a & ((page.bytes() - 1) as u64) == a - vaddr,
{
    match page {
        PageType::Page4K => {
            assert(a & 0xfff == a - vaddr) by (bit_vector)
                requires
                    vaddr % 0x1000 == 0,
                    vaddr <= a,
                    a - vaddr < 0x1000,
            ;
        },
        PageType::Page2M => {
            assert(a & 0x1f_ffff == a - vaddr) by (bit_vector)
                requires
                    vaddr % 0x20_0000 == 0,
                    vaddr <= a,
                    a - vaddr < 0x20_0000,
            ;
        },
        PageType::Page1G => {
            assert(a & 0x3fff_ffff == a - vaddr) by (bit_vector)
                requires
                    vaddr % 0x4000_0000 == 0,
                    vaddr <= a,
                    a - vaddr < 0x4000_0000,
            ;
        },
    }
}

/// An address aligned to a page size is aligned to every smaller page size
/// and to the size of a word.
pub proof fn lemma_aligned(addr: u64, page: PageType)
    requires
        addr % page.bytes() == 0,
    ensures
        addr % 4096 == 0,
        addr % 8 == 0,
        page.bytes() % 4096 == 0,
        page.bytes() % 8 == 0,
        page.bytes() >= 4096,
{
    let q = addr as int / page.bytes() as int;
    match page {
        PageType::Page4K => {
            assert(addr == 0x1000 * q);
            vstd::arithmetic::div_mod::lemma_mod_multiples_vanish(512 * q, 0, 8);
        },
        PageType::Page2M => {
            assert(addr == 0x20_0000 * q);
            vstd::arithmetic::div_mod::lemma_mod_multiples_vanish(512 * q, 0, 4096);
            vstd::arithmetic::div_mod::lemma_mod_multiples_vanish(0x4_0000 * q, 0, 8);
        },
        PageType::Page1G => {
            assert(addr == 0x4000_0000 * q);
            vstd::arithmetic::div_mod::lemma_mod_multiples_vanish(0x4_0000 * q, 0, 4096);
            vstd::arithmetic::div_mod::lemma_mod_multiples_vanish(0x800_0000 * q, 0, 8);
        },
    }
}

/// An aligned base plus an offset smaller than the alignment: the offset
/// is the remainder, and rounding down gives the base.
pub proof fn lemma_base_plus_offset(base: u64, off: u64, align: u64)
    requires
        align > 0,
        base % align == 0,
        off < align,
    ensures
        (base + off) % (align as int) == off,
        (base + off) - (base + off) % (align as int) == base,
{
    let q = base as int / align as int;
    vstd::arithmetic::div_mod::lemma_fundamental_div_mod(base as int, align as int);
    vstd::arithmetic::div_mod::lemma_mod_multiples_vanish(q, off as int, align as int);
    vstd::arithmetic::div_mod::lemma_small_mod(off as nat, align as nat);
}

} // verus!
