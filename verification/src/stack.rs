//! Handing out kernel stacks: a cursor over virtual address space that
//! advances by one stack and one guard region per claim.

use vstd::prelude::*;
use crate::layout::KERNEL_STACK_PAD;
use crate::layout::KERNEL_STACK_SIZE;
use crate::layout::KERNEL_STACK_STRIDE;

verus! {

/// The cursor from which stack bases are claimed. It only moves forward.
pub struct StackCursor {
    next: u64,
}

/// The base of the stack handed out by claim number `n`, counted from zero,
/// on a cursor that started at `start`. The cursor wraps at the end of the
/// address space, as the machine's fetch-and-add does.
pub open spec fn ticket(start: u64, n: nat) -> u64 {
    ((start + n * KERNEL_STACK_STRIDE) % 0x1_0000_0000_0000_0000) as u64
}

impl StackCursor {
    /// The base that the next claim will return.
    pub closed spec fn value(&self) -> u64 {
        self.next
    }

    /// A cursor whose first claim returns `start`.
    pub fn new(start: u64) -> (r: StackCursor)
        ensures
            r.value() == start,
    {
        StackCursor { next: start }
    }

    /// The base that the next claim will return.
    pub fn peek(&self) -> (r: u64)
        ensures
            r == self.value(),
    {
        self.next
    }

    /// Advances the cursor by `n`, wrapping at the end of the address
    /// space, and returns where it stood.
    pub fn fetch_add(&mut self, n: u64) -> (r: u64)
        ensures
            r == old(self).value(),
            final(self).value() == (old(self).value() + n) % 0x1_0000_0000_0000_0000,
    {
        let prev: u64 = self.next;
        self.next = prev.wrapping_add(n);
        prev
    }

    /// Claims the next stack: returns its base and moves the cursor past the
    /// stack and its guard region.
    pub fn claim(&mut self) -> (r: u64)
        ensures
            r == old(self).value(),
            final(self).value() == ticket(old(self).value(), 1),
    {
        self.fetch_add(KERNEL_STACK_STRIDE)
    }
}

/// The claim after claim `n` returns the base after base `n`: claiming from
/// where `n` claims have left the cursor is the same as claiming `n + 1`
/// times from the start.
pub proof fn lemma_ticket_step(start: u64, n: nat)
    ensures
        ticket(start, 0) == start,
        ticket(ticket(start, n), 1) == ticket(start, n + 1),
{
    let w = 0x1_0000_0000_0000_0000int;
    let s = KERNEL_STACK_STRIDE as int;
    let x = start + n * s;
    assert((start + (n + 1) * s) == x + s) by (nonlinear_arith)
        requires
            x == start + n * s,
    ;
    assert(((x % 0x1_0000_0000_0000_0000) + 0x1_0000) % 0x1_0000_0000_0000_0000 == (x + 0x1_0000)
        % 0x1_0000_0000_0000_0000);
}

/// Any number of claims, in any interleaving, give stacks that are each
/// exactly one stack size long, pairwise disjoint, and separated by at least
/// one guard region, as long as the cursor has not run off the end of the
/// address space.
pub proof fn lemma_stacks_disjoint(start: u64, i: nat, j: nat)
    requires
        i < j,
        start + (j + 1) * KERNEL_STACK_STRIDE <= 0x1_0000_0000_0000_0000,
    ensures
        ticket(start, i) == start + i * KERNEL_STACK_STRIDE,
        ticket(start, j) == start + j * KERNEL_STACK_STRIDE,
        ticket(start, i) + KERNEL_STACK_SIZE + KERNEL_STACK_PAD <= ticket(start, j),
        ticket(start, j) + KERNEL_STACK_SIZE <= 0x1_0000_0000_0000_0000,
{
    let s = KERNEL_STACK_STRIDE as int;
    assert(i * s + s <= j * s && j * s + s == (j + 1) * s && 0 <= i * s) by (nonlinear_arith)
        requires
            i < j,
            s > 0,
    ;
}

} // verus!
