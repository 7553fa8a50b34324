//! A self-contained physical memory: one contiguous run of frames, claimed
//! from the bottom up and never given back.

use vstd::prelude::*;
use crate::entry::PageType;
use crate::entry::PHYS_LIMIT;
use crate::phys::PhysMem;

verus! {

/// A contiguous range of physical memory with a bump allocator over it.
pub struct Arena {
    base: u64,
    words: Vec<u64>,
    used: usize,
}

impl Arena {
    /// Physical address of the first byte of the arena.
    pub closed spec fn start(&self) -> u64 {
        self.base
    }

    /// Physical address of the first byte that has not been claimed.
    pub closed spec fn next(&self) -> int {
        self.base + 8 * self.used
    }

    /// Physical address one past the last byte of the arena.
    pub closed spec fn limit(&self) -> int {
        self.base + 8 * self.words.len()
    }

    /// The address at or after `addr` that is a multiple of `align`.
    pub open spec fn round_up(addr: int, align: int) -> int {
        if addr % align == 0 {
            addr
        } else {
            addr + (align - addr % align)
        }
    }

    /// Rounding up lands on a multiple of `align`, less than `align` away.
    proof fn lemma_round_up(addr: int, align: int)
        requires
            addr >= 0,
            align > 0,
        ensures
            Arena::round_up(addr, align) % align == 0,
            addr <= Arena::round_up(addr, align) < addr + align,
    {
        let q = addr / align;
        vstd::arithmetic::div_mod::lemma_fundamental_div_mod(addr, align);
        vstd::arithmetic::div_mod::lemma_mod_bound(addr, align);
        if addr % align != 0 {
            vstd::arithmetic::div_mod::lemma_mod_multiples_vanish(q + 1, 0, align);
            assert(addr + (align - addr % align) == align * (q + 1)) by (nonlinear_arith)
                requires
                    addr == align * q + addr % align,
            ;
        }
    }

    /// An arena of `frames` smallest pages starting at physical address
    /// `base`, all of them unclaimed. `None` when `base` is not page-aligned,
    /// when the arena would reach past what an entry can name, or when its
    /// word count does not fit the machine's `usize`.
    pub fn new(base: u64, frames: usize) -> (r: Option<Arena>)
        ensures
            r.is_some() <==> base % 4096 == 0 && base + 4096 * frames <= PHYS_LIMIT && 512 * frames
                <= usize::MAX,
            match r {
                Some(arena) => {
                    &&& arena.inv()
                    &&& arena.view() == Map::<u64, u64>::empty()
                    &&& arena.start() == base
                    &&& arena.next() == base
                    &&& arena.limit() == base + 4096 * frames
                },
                None => true,
            },
    {
        if base % 4096 != 0 || base > PHYS_LIMIT {
            return None;
        }
        let room: u64 = (PHYS_LIMIT - base) / 4096;
        if frames as u64 > room {
            return None;
        }
        let count: usize = match frames.checked_mul(512) {
            Some(count) => count,
            None => {
                return None;
            },
        };
        let words: Vec<u64> = vec![0u64; count];
        let arena = Arena { base, words, used: 0 };
        assert(arena.view() =~= Map::<u64, u64>::empty());
        Some(arena)
    }

    /// Bytes that have not been claimed yet, alignment gaps not counted.
    pub fn remaining(&self) -> (r: u64)
        requires
            self.inv(),
        ensures
            r == self.limit() - self.next(),
    {
        8 * ((self.words.len() - self.used) as u64)
    }
}

impl PhysMem for Arena {
    closed spec fn view(&self) -> Map<u64, u64> {
        Map::new(
            |a: u64| a % 8 == 0 && self.base <= a && a < self.base + 8 * self.used,
            |a: u64| self.words@[(a - self.base) / 8],
        )
    }

    closed spec fn inv(&self) -> bool {
        &&& self.base % 4096 == 0
        &&& self.base + 8 * self.words.len() <= PHYS_LIMIT
        &&& self.used <= self.words.len()
        &&& forall|i: int| self.used <= i < self.words.len() ==> self.words@[i] == 0
    }

    /// The lowest suitably aligned frame above everything claimed so far,
    /// where that frame still lies inside the arena.
    open spec fn offer(&self, page: PageType) -> Option<u64> {
        if Arena::round_up(self.next(), page.bytes() as int) + page.bytes() <= self.limit() {
            Some(Arena::round_up(self.next(), page.bytes() as int) as u64)
        } else {
            None
        }
    }

    /// Claims the lowest suitably aligned frame above everything claimed so
    /// far. Succeeds exactly when that frame still lies inside the arena.
    #[verifier::rlimit(40)]
    fn alloc_phys(&mut self, page: PageType) -> (r: Option<u64>)
        ensures
            final(self).start() == old(self).start(),
            final(self).limit() == old(self).limit(),
            final(self).next() == (match r {
                Some(frame) => frame + page.bytes(),
                None => old(self).next(),
            }),
    {
        let size: u64 = page.size();
        let next: u64 = self.base + 8 * (self.used as u64);
        let limit: u64 = self.base + 8 * (self.words.len() as u64);
        let rem: u64 = next % size;
        let start: u64 = if rem == 0 {
            next
        } else {
            next + (size - rem)
        };
        proof {
            Arena::lemma_round_up(next as int, size as int);
        }
        if start > limit || limit - start < size {
            return None;
        }
        let ghost before = self.view();
        let ghost base = self.base;
        let ghost words = self.words@;
        let ghost used = self.used;
        assert((start + size - base) % 8 == 0) by {
            assert(base % 8 == 0);
            assert(size % 8 == 0);
            crate::entry::lemma_aligned(start, page);
        }
        self.used = ((start + size - self.base) / 8) as usize;
        proof {
            let after = self.view();
            assert(base + 8 * self.used == start + size);
            assert forall|a: u64| #[trigger] before.dom().contains(a) implies after.dom().contains(
                a,
            ) && after[a] == before[a] by {}
            assert forall|a: u64| start <= a < start + size && a % 8 == 0 implies #[trigger] after.dom().contains(
                a,
            ) && after[a] == 0 by {
                let i = (a - base) / 8;
                assert(used <= i < words.len());
            }
        }
        Some(start)
    }

    fn read(&self, paddr: u64) -> (r: u64) {
        let idx: usize = ((paddr - self.base) / 8) as usize;
        self.words[idx]
    }

    fn write(&mut self, paddr: u64, value: u64) {
        let idx: usize = ((paddr - self.base) / 8) as usize;
        let ghost before = self.view();
        self.words[idx] = value;
        proof {
            let after = self.view();
            assert forall|a: u64| after.dom().contains(a) implies after[a] == before.insert(
                paddr,
                value,
            )[a] by {
                if a != paddr {
                    assert((a - self.base) / 8 != (paddr - self.base) / 8);
                }
            }
            assert(after =~= before.insert(paddr, value));
        }
    }
}

} // verus!
