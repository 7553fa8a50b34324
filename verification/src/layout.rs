//! Build-time layout of the kernel's address space.

use vstd::prelude::*;

verus! {

/// Virtual address of the first per-core kernel stack.
pub const KERNEL_STACKS_BASE: u64 = 0x0000_7473_0000_0000;

/// Bytes mapped for each core's kernel stack.
pub const KERNEL_STACK_SIZE: u64 = 0x8000;

/// Unmapped bytes left above each stack, so that running off the end of one
/// stack faults instead of reaching the next.
pub const KERNEL_STACK_PAD: u64 = 0x8000;

/// Distance between the bases of two consecutive stacks.
pub const KERNEL_STACK_STRIDE: u64 = KERNEL_STACK_SIZE + KERNEL_STACK_PAD;

/// Virtual address at which physical address zero appears in the kernel's
/// linear window.
pub const KERNEL_PHYS_WINDOW_BASE: u64 = 0xffff_cafe_0000_0000;

/// Bytes of physical memory reachable through the linear window.
pub const KERNEL_PHYS_WINDOW_SIZE: u64 = 0x1_0000_0000;

} // verus!
