//! Physical memory as the page-table builder sees it: a store of 64-bit
//! words from which zeroed, aligned frames can be claimed one at a time.

use vstd::prelude::*;
use crate::entry::PageType;

verus! {

/// What one successful claim of a frame does to memory: the frame is aligned
/// and nameable by an entry, none of it was in use, all of it now reads as
/// zero, and everything that was in use is as it was.
pub open spec fn claimed(before: Map<u64, u64>, after: Map<u64, u64>, page: PageType, frame: u64) -> bool {
    &&& frame % page.bytes() == 0
    &&& frame + page.bytes() <= crate::entry::PHYS_LIMIT
    &&& forall|a: u64| frame <= a < frame + page.bytes() ==> !before.dom().contains(a)
    &&& forall|a: u64|
        frame <= a < frame + page.bytes() && a % 8 == 0 ==> #[trigger] after.dom().contains(a)
            && after[a] == 0
    &&& forall|a: u64| #[trigger] before.dom().contains(a) ==> after.dom().contains(a) && after[a] == before[a]
}

/// Physical memory together with the allocator that hands out its frames.
///
/// The view maps each word-aligned physical address that has been handed out
/// to the word stored there. Frames are never returned, so the domain only
/// grows.
///
/// The contracts of the three methods are what the page-table builder
/// relies on, and what every result in this library is proved from. An
/// implementation defines `view`, `inv` and `offer` for its own state and
/// proves the contracts against them, as the arena of this library does.
///
/// The three spec functions have bodies here for one reason only: code that
/// cannot hold ghost definitions can then still implement the trait. The
/// bodies describe no memory. With them no frame could ever be handed out
/// and no word could ever be read, so nothing proved in this library speaks
/// of an implementation that keeps them: that its methods do what the
/// contracts ask is vouched for by its author alone.
pub trait PhysMem {
    /// The words of every frame handed out so far, by physical address. The
    /// body is a placeholder, to be replaced by every verified
    /// implementation.
    open spec fn view(&self) -> Map<u64, u64> {
        Map::empty()
    }

    /// The implementation's own consistency condition. The body is a
    /// placeholder, to be replaced by every verified implementation.
    open spec fn inv(&self) -> bool {
        true
    }

    /// What the allocator, as it stands, answers to a claim of one frame of
    /// the size of `page`: the address of the frame, or `None` where it has
    /// none of that size left. The body is a placeholder, to be replaced by
    /// every verified implementation.
    open spec fn offer(&self, page: PageType) -> Option<u64> {
        None
    }

    /// Claims one frame of the size of `page`, aligned to that size and
    /// filled with zeros. The answer is the allocator's offer for that size.
    /// `None` means the allocator is exhausted; memory is then untouched.
    fn alloc_phys(&mut self, page: PageType) -> (r: Option<u64>)
        requires
            old(self).inv(),
        ensures
            final(self).inv(),
            r == old(self).offer(page),
            match r {
                Some(frame) => claimed(old(self).view(), final(self).view(), page, frame),
                None => final(self).view() == old(self).view(),
            },
    ;

    /// Reads the word at `paddr`.
    fn read(&self, paddr: u64) -> (r: u64)
        requires
            self.inv(),
            self.view().dom().contains(paddr),
        ensures
            r == self.view()[paddr],
    ;

    /// Stores `value` at `paddr` and changes nothing else.
    fn write(&mut self, paddr: u64, value: u64)
        requires
            old(self).inv(),
            old(self).view().dom().contains(paddr),
        ensures
            final(self).inv(),
            final(self).view() == old(self).view().insert(paddr, value),
    ;
}

/// Byte `i` of a word, counted from the least significant.
pub open spec fn byte_of(word: u64, i: u64) -> u8 {
    ((word >> ((8 * i) as u64)) & 0xff) as u8
}

/// The byte that memory `m` holds at physical address `addr`. Words are
/// little-endian.
pub open spec fn byte_at(m: Map<u64, u64>, addr: u64) -> u8 {
    byte_of(m[(addr - addr % 8) as u64], addr % 8)
}

/// The byte at offset `off` of a source that reads as zero past its end.
pub open spec fn source_byte(src: Seq<u8>, off: int) -> u8 {
    if 0 <= off < src.len() {
        src[off]
    } else {
        0
    }
}

/// Eight bytes joined into a word, the first one least significant.
pub open spec fn pack(b0: u8, b1: u8, b2: u8, b3: u8, b4: u8, b5: u8, b6: u8, b7: u8) -> u64 {
    (b0 as u64) | (b1 as u64) << 8 | (b2 as u64) << 16 | (b3 as u64) << 24 | (b4 as u64) << 32 | (
    b5 as u64) << 40 | (b6 as u64) << 48 | (b7 as u64) << 56
}

/// The word made of the eight source bytes from offset `off` on.
pub open spec fn source_word(src: Seq<u8>, off: int) -> u64 {
    pack(
        source_byte(src, off),
        source_byte(src, off + 1),
        source_byte(src, off + 2),
        source_byte(src, off + 3),
        source_byte(src, off + 4),
        source_byte(src, off + 5),
        source_byte(src, off + 6),
        source_byte(src, off + 7),
    )
}

/// Whether the `len` bytes of memory from `frame` on are the source bytes
/// from offset `off` on.
pub open spec fn holds_bytes(m: Map<u64, u64>, frame: u64, len: u64, src: Seq<u8>, off: int) -> bool {
    forall|j: u64| j < len ==> #[trigger] byte_at(m, (frame + j) as u64) == source_byte(src, off + j)
}

/// Each byte of a packed word is the byte that was packed.
pub proof fn lemma_pack_bytes(b0: u8, b1: u8, b2: u8, b3: u8, b4: u8, b5: u8, b6: u8, b7: u8)
    ensures
        byte_of(pack(b0, b1, b2, b3, b4, b5, b6, b7), 0) == b0,
        byte_of(pack(b0, b1, b2, b3, b4, b5, b6, b7), 1) == b1,
        byte_of(pack(b0, b1, b2, b3, b4, b5, b6, b7), 2) == b2,
        byte_of(pack(b0, b1, b2, b3, b4, b5, b6, b7), 3) == b3,
        byte_of(pack(b0, b1, b2, b3, b4, b5, b6, b7), 4) == b4,
        byte_of(pack(b0, b1, b2, b3, b4, b5, b6, b7), 5) == b5,
        byte_of(pack(b0, b1, b2, b3, b4, b5, b6, b7), 6) == b6,
        byte_of(pack(b0, b1, b2, b3, b4, b5, b6, b7), 7) == b7,
        pack(0, 0, 0, 0, 0, 0, 0, 0) == 0,
{
    let w = pack(b0, b1, b2, b3, b4, b5, b6, b7);
    assert(w == (b0 as u64) | (b1 as u64) << 8 | (b2 as u64) << 16 | (b3 as u64) << 24 | (b4 as u64)
        << 32 | (b5 as u64) << 40 | (b6 as u64) << 48 | (b7 as u64) << 56);
    assert(((w >> 0) & 0xff) as u8 == b0 && ((w >> 8) & 0xff) as u8 == b1 && ((w >> 16) & 0xff) as u8
        == b2 && ((w >> 24) & 0xff) as u8 == b3 && ((w >> 32) & 0xff) as u8 == b4 && ((w >> 40)
        & 0xff) as u8 == b5 && ((w >> 48) & 0xff) as u8 == b6 && ((w >> 56) & 0xff) as u8 == b7)
        by (bit_vector)
        requires
            w == (b0 as u64) | (b1 as u64) << 8 | (b2 as u64) << 16 | (b3 as u64) << 24 | (b4 as u64)
                << 32 | (b5 as u64) << 40 | (b6 as u64) << 48 | (b7 as u64) << 56,
    ;
    assert((0u8 as u64) | (0u8 as u64) << 8 | (0u8 as u64) << 16 | (0u8 as u64) << 24 | (0u8 as u64)
        << 32 | (0u8 as u64) << 40 | (0u8 as u64) << 48 | (0u8 as u64) << 56 == 0) by (bit_vector);
}

/// The byte of `src` at offset `off`, zero past the end.
pub fn source_get(src: &[u8], off: u64) -> (r: u8)
    ensures
        r == source_byte(src@, off as int),
{
    if off < src.len() as u64 {
        src[off as usize]
    } else {
        0
    }
}

/// The word made of the eight bytes of `src` from offset `off` on.
pub fn source_load(src: &[u8], off: u64) -> (r: u64)
    requires
        off + 7 <= u64::MAX,
    ensures
        r == source_word(src@, off as int),
{
    let b0: u8 = source_get(src, off);
    let b1: u8 = source_get(src, off + 1);
    let b2: u8 = source_get(src, off + 2);
    let b3: u8 = source_get(src, off + 3);
    let b4: u8 = source_get(src, off + 4);
    let b5: u8 = source_get(src, off + 5);
    let b6: u8 = source_get(src, off + 6);
    let b7: u8 = source_get(src, off + 7);
    (b0 as u64) | (b1 as u64) << 8 | (b2 as u64) << 16 | (b3 as u64) << 24 | (b4 as u64) << 32 | (
    b5 as u64) << 40 | (b6 as u64) << 48 | (b7 as u64) << 56
}

/// The byte at physical address `addr`.
pub fn read_byte<M: PhysMem>(mem: &M, addr: u64) -> (r: u8)
    requires
        mem.inv(),
        mem.view().dom().contains((addr - addr % 8) as u64),
    ensures
        r == byte_at(mem.view(), addr),
{
    let i: u64 = addr % 8;
    let word: u64 = mem.read(addr - i);
    let shift: u64 = 8 * i;
    assert(((word >> shift) & 0xff) < 256) by (bit_vector);
    ((word >> shift) & 0xff) as u8
}

} // verus!
