use bootloader::layout::{
    KERNEL_PHYS_WINDOW_BASE, KERNEL_PHYS_WINDOW_SIZE, KERNEL_STACKS_BASE, KERNEL_STACK_PAD,
    KERNEL_STACK_SIZE, KERNEL_STACK_STRIDE,
};
use bootloader::stack::StackCursor;

#[test]
fn layout_constants_fit_together() {
    assert_eq!(KERNEL_STACK_STRIDE, KERNEL_STACK_SIZE + KERNEL_STACK_PAD);
    assert_eq!(KERNEL_STACK_SIZE % 4096, 0);
    assert_eq!(KERNEL_STACK_PAD % 4096, 0);
    assert_eq!(KERNEL_STACKS_BASE % 4096, 0);
    assert_eq!(KERNEL_PHYS_WINDOW_BASE % 4096, 0);
    assert_eq!(KERNEL_PHYS_WINDOW_SIZE % 4096, 0);
    assert!(KERNEL_PHYS_WINDOW_BASE.checked_add(KERNEL_PHYS_WINDOW_SIZE).is_some());
}

#[test]
fn claims_are_one_stride_apart() {
    let mut cursor = StackCursor::new(KERNEL_STACKS_BASE);
    assert_eq!(cursor.peek(), KERNEL_STACKS_BASE);
    assert_eq!(cursor.claim(), KERNEL_STACKS_BASE);
    assert_eq!(cursor.claim(), KERNEL_STACKS_BASE + 0x1_0000);
    assert_eq!(cursor.claim(), KERNEL_STACKS_BASE + 0x2_0000);
    assert_eq!(cursor.peek(), KERNEL_STACKS_BASE + 0x3_0000);
}

#[test]
fn claimed_stacks_are_disjoint_and_padded() {
    let mut cursor = StackCursor::new(KERNEL_STACKS_BASE);
    let bases: Vec<u64> = (0..64).map(|_| cursor.claim()).collect();
    for (i, a) in bases.iter().enumerate() {
        for b in &bases[i + 1..] {
            let (lo, hi) = if a < b { (*a, *b) } else { (*b, *a) };
            assert!(lo + KERNEL_STACK_SIZE + KERNEL_STACK_PAD <= hi);
        }
    }
}

#[test]
fn fetch_add_returns_the_previous_value_and_wraps() {
    let mut cursor = StackCursor::new(10);
    assert_eq!(cursor.fetch_add(5), 10);
    assert_eq!(cursor.fetch_add(0), 15);
    assert_eq!(cursor.peek(), 15);
    let mut cursor = StackCursor::new(u64::MAX - 1);
    assert_eq!(cursor.fetch_add(3), u64::MAX - 1);
    assert_eq!(cursor.peek(), 1);
    let mut cursor = StackCursor::new(0xffff_ffff_ffff_0000);
    assert_eq!(cursor.claim(), 0xffff_ffff_ffff_0000);
    assert_eq!(cursor.claim(), 0);
}
