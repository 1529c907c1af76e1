//! Tests for the paging model: the walk, map and unmap, the remapper,
//! and the stack carver.

use kmem::area_allocator::{AreaAllocator, MemoryArea};
use kmem::entry::{Entry, EntryFlags, NO_EXECUTE, PRESENT, WRITABLE};
use kmem::memory::{Allocator, MemoryController, PhysicalPage};
use kmem::paging::{
    ActivePageTable, BootInfo, ElfSectionInfo, InactivePageTable, VirtualPage, VirtualPageIter,
};
use kmem::temporary::TemporaryPage;
use kmem::stack_allocator::StackAllocator;
use kmem::{HEAP_SIZE, HEAP_START};

fn fresh_allocator() -> AreaAllocator {
    // Usable memory from 16 MiB to 48 MiB; kernel and loader info low.
    AreaAllocator::new(
        0x100000,
        0x2FFFFF,
        0x800000,
        0x8003FF,
        vec![MemoryArea { start: 0x100_0000, size: 32 * 1024 * 1024 }],
    )
}

#[test]
fn virtual_page_indices_decompose_the_number() {
    let page = VirtualPage::containing_address(0xcafebabe000);
    assert_eq!(page.number, 0xcafebabe);
    assert_eq!(page.p4_index(), (0xcafebabeusize >> 27) & 0x1ff);
    assert_eq!(page.p3_index(), (0xcafebabeusize >> 18) & 0x1ff);
    assert_eq!(page.p2_index(), (0xcafebabeusize >> 9) & 0x1ff);
    assert_eq!(page.p1_index(), 0xcafebabeusize & 0x1ff);
}

#[test]
fn entry_round_trips_frame_and_flags() {
    let mut entry = Entry(0);
    assert!(entry.is_unused());
    entry.set(
        PhysicalPage { number: 0x1234 },
        EntryFlags::from_bits_truncate(PRESENT | WRITABLE),
    );
    assert!(!entry.is_unused());
    let pointed = entry.pointed_physical_page().unwrap();
    assert_eq!(pointed.number, 0x1234);
    let flags = entry.flags();
    assert!(flags.contains(EntryFlags::from_bits_truncate(PRESENT)));
    assert!(flags.contains(EntryFlags::from_bits_truncate(WRITABLE)));
    entry.set_unused();
    assert!(entry.is_unused());
    assert!(entry.pointed_physical_page().is_none());
}

#[test]
fn elf_flags_translate_to_entry_flags() {
    // allocated + executable: present, read-only, executable
    assert_eq!(EntryFlags::from_elf_section_flags(0x2 | 0x4).bits, PRESENT);
    // allocated + writable: present, writable, not executable
    assert_eq!(
        EntryFlags::from_elf_section_flags(0x2 | 0x1).bits,
        PRESENT | WRITABLE | NO_EXECUTE
    );
    // not allocated: no flags at all, whatever else is set
    assert_eq!(EntryFlags::from_elf_section_flags(0).bits, 0);
    assert_eq!(EntryFlags::from_elf_section_flags(0x1 | 0x4).bits, 0);
}

#[test]
fn map_translate_unmap_round_trip() {
    let mut active_table = ActivePageTable::new(0x99);
    let mut allocator = fresh_allocator();
    let page = VirtualPage::containing_address(0xdeadbeef000);
    let frame = PhysicalPage { number: 0x4242 };
    let flags = EntryFlags::from_bits_truncate(WRITABLE);
    active_table.mapper.map_to(page, frame, flags, &mut allocator);
    assert_eq!(
        active_table.mapper.translate(0xdeadbeef000),
        Some(0x4242 * 4096)
    );
    assert_eq!(
        active_table.mapper.translate(0xdeadbeef123),
        Some(0x4242 * 4096 + 0x123)
    );
    // a neighbouring page stays unmapped
    assert_eq!(active_table.mapper.translate(0xdeadbee0000), None);
    active_table.mapper.unmap(page, &mut allocator);
    assert_eq!(active_table.mapper.translate(0xdeadbeef000), None);
}

#[test]
fn map_allocates_a_usable_frame() {
    let mut active_table = ActivePageTable::new(0x99);
    let mut allocator = fresh_allocator();
    let page = VirtualPage::containing_address(HEAP_START);
    let flags = EntryFlags::from_bits_truncate(WRITABLE);
    active_table.mapper.map(page, flags, &mut allocator);
    let physical = active_table.mapper.translate(HEAP_START).unwrap();
    assert_eq!(physical % 4096, 0);
    assert!(physical >= 0x100_0000);
}

fn boot_sections() -> Vec<ElfSectionInfo> {
    vec![
        // text: allocated + executable, frames 0x100..=0x107
        ElfSectionInfo { start: 0x100000, size: 0x8000, flags: 0x2 | 0x4 },
        // data: allocated + writable, frames 0x108..=0x10F
        ElfSectionInfo { start: 0x108000, size: 0x8000, flags: 0x2 | 0x1 },
        // a non-allocated section is skipped entirely
        ElfSectionInfo { start: 0x0, size: 0x100, flags: 0x0 },
    ]
}

#[test]
fn kernel_extents_span_the_allocated_sections() {
    let sections = boot_sections();
    let (lo, hi) = kmem::paging::kernel_extents(&sections).unwrap();
    assert_eq!(lo, 0x100000);
    assert_eq!(hi, 0x110000);
    let none = vec![ElfSectionInfo { start: 0x0, size: 0x100, flags: 0x4 }];
    assert!(kmem::paging::kernel_extents(&none).is_none());
}

#[test]
fn remap_kernel_rebuilds_the_address_space() {
    // The processor starts on a boot hierarchy whose top-level table sits
    // inside the kernel image, at frame 0x100.
    let mut active_table = ActivePageTable::new(0x100);
    let mut allocator = fresh_allocator();
    let boot_info = BootInfo {
        sections: boot_sections(),
        multiboot_start: 0x800000,
        multiboot_end: 0x800400,
    };
    let old_table = kmem::paging::remap_kernel(&mut allocator, &boot_info, &mut active_table);
    assert_eq!(old_table.p4.number, 0x100);
    // the new top-level table names itself in its recursive slot
    assert_eq!(active_table.mapper.cr3_frame(), active_table.mapper.p4_frame());
    assert_ne!(active_table.mapper.cr3_frame(), 0x100);
    // kernel sections are identity mapped
    assert_eq!(active_table.mapper.translate(0x101000), Some(0x101000));
    assert_eq!(active_table.mapper.translate(0x108000), Some(0x108000));
    // the VGA framebuffer and the loader info block are reachable
    assert_eq!(active_table.mapper.translate(0xb8000), Some(0xb8000));
    assert_eq!(active_table.mapper.translate(0x800000), Some(0x800000));
    // the old top-level page is now a guard page
    assert_eq!(active_table.mapper.translate(0x100000), None);
    // unrelated memory is not mapped
    assert_eq!(active_table.mapper.translate(0xdeadbeef000), None);
}

#[test]
fn heap_and_stack_ranges_work_after_remapping() {
    let mut active_table = ActivePageTable::new(0x100);
    let mut allocator = fresh_allocator();
    let boot_info = BootInfo {
        sections: boot_sections(),
        multiboot_start: 0x800000,
        multiboot_end: 0x800400,
    };
    kmem::paging::remap_kernel(&mut allocator, &boot_info, &mut active_table);

    // back the heap range and set up the stack carver above it
    let mut controller = kmem::memory::init(allocator, active_table);
    assert!(controller.active_table.mapper.translate(HEAP_START).is_some());
    assert!(controller.active_table.mapper.translate(HEAP_START + HEAP_SIZE).is_some());
    assert!(controller.active_table.mapper.translate(HEAP_START + 0x1000).is_some());

    // carve a one-page stack above the heap
    let heap_end_page = VirtualPage::containing_address(HEAP_START + HEAP_SIZE);
    let stack_base = heap_end_page.add_pages(1);
    let stack = controller.alloc_stack(1).expect("one page fits");
    let base = stack_base.number;
    assert_eq!(stack.bottom(), (base + 1) * 4096);
    assert_eq!(stack.top(), (base + 2) * 4096);
    assert_eq!(stack.top() - stack.bottom(), 4096);
    // the guard page below the stack stays unmapped, the stack is mapped
    assert_eq!(controller.active_table.mapper.translate(base * 4096), None);
    assert!(controller.active_table.mapper.translate((base + 1) * 4096).is_some());
    // a second stack leaves its own guard page
    let second = controller.alloc_stack(2).expect("two pages fit");
    assert_eq!(second.bottom(), (base + 3) * 4096);
    assert_eq!(second.top(), (base + 5) * 4096);
    assert_eq!(
        controller.active_table.mapper.translate((base + 2) * 4096),
        None
    );
}

#[test]
fn stack_requests_that_do_not_fit_return_none() {
    let mut active_table = ActivePageTable::new(0x99);
    let mut allocator = fresh_allocator();
    let base = VirtualPage::containing_address(HEAP_START);
    let mut stack_allocator =
        StackAllocator::new(VirtualPageIter { start: base, end: base.add_pages(2) });
    assert!(stack_allocator
        .alloc_stack(&mut active_table, &mut allocator, 0)
        .is_none());
    assert!(stack_allocator
        .alloc_stack(&mut active_table, &mut allocator, 3)
        .is_none());
    let stack = stack_allocator
        .alloc_stack(&mut active_table, &mut allocator, 2)
        .expect("guard plus two pages fit exactly");
    assert_eq!(stack.top() - stack.bottom(), 2 * 4096);
}

#[test]
fn temporary_page_reaches_an_arbitrary_frame() {
    let mut active_table = ActivePageTable::new(0x99);
    let mut allocator = fresh_allocator();
    let mut temporary_page =
        TemporaryPage::new(VirtualPage { number: 0xcafebabe }, &mut allocator);
    let address = temporary_page.map(PhysicalPage { number: 0x7777 }, &mut active_table);
    assert_eq!(address, 0xcafebabe * 4096);
    assert_eq!(active_table.mapper.translate(address), Some(0x7777 * 4096));
    temporary_page.unmap(&mut active_table);
    assert_eq!(active_table.mapper.translate(address), None);
    // the reserve alone serves a second cycle
    let address = temporary_page.map(PhysicalPage { number: 0x8888 }, &mut active_table);
    assert_eq!(active_table.mapper.translate(address), Some(0x8888 * 4096));
    temporary_page.unmap(&mut active_table);
    assert_eq!(active_table.mapper.translate(address), None);
}

#[test]
fn inactive_table_carries_its_own_recursive_entry() {
    let mut active_table = ActivePageTable::new(0x99);
    let mut allocator = fresh_allocator();
    let mut temporary_page =
        TemporaryPage::new(VirtualPage { number: 0xcafebabe }, &mut allocator);
    let frame = allocator.allocate().unwrap();
    let new_table = InactivePageTable::new(frame, &mut active_table, &mut temporary_page);
    let old = active_table.switch(new_table);
    assert_eq!(old.p4.number, 0x99);
    // the new hierarchy resolves through its own recursive entry
    assert_eq!(active_table.mapper.cr3_frame(), frame.number);
    assert_eq!(active_table.mapper.p4_frame(), frame.number);
}

#[test]
fn page_range_cursor_walks_inclusively() {
    let start = VirtualPage::containing_address(0x1000);
    let end = VirtualPage::containing_address(0x3000);
    let mut range = VirtualPage::range_inclusive(start, end);
    assert_eq!(range.next().unwrap().number, 1);
    assert_eq!(range.next().unwrap().number, 2);
    assert_eq!(range.next().unwrap().number, 3);
    assert!(range.next().is_none());
    assert!(range.next().is_none());
}
