//! Tests for the frame provider and the bump arena.

use kmem::area_allocator::{AreaAllocator, MemoryArea};
use kmem::heap_allocator::{align_down, align_up, BumpAllocator};
use kmem::memory::Allocator;
use kmem::{HEAP_SIZE, HEAP_START};

fn boot_allocator() -> AreaAllocator {
    // One 16 MiB usable area at 0x100000; kernel at 0x100000-0x2FFFFF,
    // loader info at 0x800000-0x8003FF.
    AreaAllocator::new(
        0x100000,
        0x2FFFFF,
        0x800000,
        0x8003FF,
        vec![MemoryArea { start: 0x100000, size: 16 * 1024 * 1024 }],
    )
}

#[test]
fn first_frames_follow_the_kernel() {
    let mut allocator = boot_allocator();
    assert_eq!(allocator.allocate().unwrap().number, 0x300);
    assert_eq!(allocator.allocate().unwrap().number, 0x301);
    assert_eq!(allocator.allocate().unwrap().number, 0x302);
    assert_eq!(allocator.allocate().unwrap().number, 0x303);
}

#[test]
fn frames_avoid_forbidden_ranges_and_increase() {
    let mut allocator = boot_allocator();
    let area_first = 0x100;
    let area_last = (0x100000u64 + 16 * 1024 * 1024 - 1) / 4096;
    let mut previous: Option<u64> = None;
    let mut frame_2049 = 0;
    for call in 0..2049 {
        let frame = allocator.allocate().expect("area is large enough").number;
        assert!(frame >= area_first && frame <= area_last);
        assert!(!(0x100..=0x2ff).contains(&frame));
        assert_ne!(frame, 0x800);
        if let Some(p) = previous {
            assert!(frame > p);
        }
        previous = Some(frame);
        if call == 2048 {
            frame_2049 = frame;
        }
    }
    assert!(frame_2049 > 0x300);
}

#[test]
fn exhaustion_is_final() {
    // Two usable frames beyond the kernel: 0x102 and 0x103.
    let mut allocator = AreaAllocator::new(
        0x100000,
        0x101FFF,
        0x105000,
        0x1053FF,
        vec![MemoryArea { start: 0x100000, size: 4 * 4096 }],
    );
    assert_eq!(allocator.allocate().unwrap().number, 0x102);
    assert_eq!(allocator.allocate().unwrap().number, 0x103);
    assert!(allocator.allocate().is_none());
    assert!(allocator.allocate().is_none());
}

#[test]
fn areas_are_visited_in_start_order() {
    let mut allocator = AreaAllocator::new(
        0x0,
        0xFFF,
        0x1000,
        0x1FFF,
        vec![
            MemoryArea { start: 0x5000, size: 0x2000 },
            MemoryArea { start: 0x3000, size: 0x1000 },
        ],
    );
    assert_eq!(allocator.allocate().unwrap().number, 0x3);
    assert_eq!(allocator.allocate().unwrap().number, 0x5);
    assert_eq!(allocator.allocate().unwrap().number, 0x6);
    assert!(allocator.allocate().is_none());
}

#[test]
fn alignment_helpers_round_as_documented() {
    assert_eq!(align_down(13, 8), 8);
    assert_eq!(align_down(16, 8), 16);
    assert_eq!(align_down(13, 0), 13);
    assert_eq!(align_up(13, 8), 16);
    assert_eq!(align_up(16, 8), 16);
    assert_eq!(align_up(0, 4096), 0);
    assert_eq!(align_up(1, 4096), 4096);
}

#[test]
fn heap_allocation_is_aligned_and_in_range() {
    let mut arena = BumpAllocator::new(HEAP_START, HEAP_START + HEAP_SIZE);
    let a = arena.allocate(32, 8).unwrap();
    assert!(a >= HEAP_START && a + 32 <= HEAP_START + HEAP_SIZE);
    assert_eq!(a % 8, 0);
    assert_eq!(a, HEAP_START);
}

#[test]
fn heap_allocations_never_overlap() {
    let mut arena = BumpAllocator::new(0x1000, 0x2000);
    let a = arena.allocate(100, 8).unwrap();
    let b = arena.allocate(100, 64).unwrap();
    let c = arena.allocate(8, 1).unwrap();
    assert!(a + 100 <= b);
    assert_eq!(b % 64, 0);
    assert!(b + 100 <= c);
    assert!(c + 8 <= 0x2000);
}

#[test]
fn heap_exhaustion_is_monotonic() {
    let mut arena = BumpAllocator::new(0x1000, 0x1100);
    assert!(arena.allocate(0x100, 1).is_ok());
    assert!(arena.allocate(1, 1).is_err());
    assert!(arena.allocate(1, 1).is_err());
}
