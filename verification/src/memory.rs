//! Physical frames and the allocator interface of the memory core, and
//! the boot-time set-up that backs the heap and the stack ranges.

use vstd::prelude::*;
use crate::area_allocator::AreaAllocator;
use crate::entry::{entry_writable, EntryFlags};
use crate::paging::{ActivePageTable, VirtualPage};
use crate::stack_allocator::{Stack, StackAllocator};
use crate::table::{can_map, idx4, mapped_p1, p1_slot, page_canonical, same_walk, tables_needed};
use crate::{HEAP_SIZE, HEAP_START};

verus! {

/// Bytes per page and per frame.
pub const PAGE_SIZE: u64 = 4096;

/// Frame numbers must fit in the 40 address bits of a page-table entry.
pub const MAX_FRAME: u64 = 0x100_0000_0000;

/// A 4096-byte block of physical memory, identified by its number:
/// the frame covers bytes `number * 4096 .. (number + 1) * 4096`.
#[derive(Clone, Copy, PartialEq, Eq, Structural, Debug)]
pub struct PhysicalPage {
    pub number: u64,
}

impl PhysicalPage {
    /// Frame that contains the given physical address (rounds down).
    pub fn containing_address(address: u64) -> (r: PhysicalPage)
        ensures
            r.number == address / PAGE_SIZE,
    {
        PhysicalPage { number: address / PAGE_SIZE }
    }

    /// First physical address covered by this frame.
    pub fn start_address(&self) -> (r: u64)
        requires
            self.number < MAX_FRAME,
        ensures
            r == self.number * PAGE_SIZE,
    {
        self.number * PAGE_SIZE
    }
}

/// Source of unused physical frames.
///
/// `pool()` over-approximates the frames the allocator may still hand out,
/// `avail()` is a number of allocations that are guaranteed to succeed, and
/// `ok_frame(f)` is the allocator-specific guarantee that holds of every
/// frame it returns.
pub trait Allocator: Sized {
    spec fn wf(&self) -> bool;

    spec fn pool(&self) -> Set<u64>;

    spec fn avail(&self) -> nat;

    spec fn ok_frame(&self, f: u64) -> bool;

    spec fn dealloc_ok(&self, page: PhysicalPage) -> bool;

    /// Hand out a frame that was never handed out before, or `None` when
    /// no further frame is guaranteed.
    fn allocate(&mut self) -> (r: Option<PhysicalPage>)
        requires
            old(self).wf(),
        ensures
            final(self).wf(),
            match r {
                Some(p) => {
                    &&& p.number < MAX_FRAME
                    &&& old(self).pool().contains(p.number)
                    &&& old(self).ok_frame(p.number)
                    &&& final(self).pool().subset_of(old(self).pool().remove(p.number))
                    &&& old(self).avail() >= 1
                    &&& final(self).avail() + 1 == old(self).avail()
                },
                None => {
                    &&& old(self).avail() == 0
                    &&& final(self).avail() == 0
                    &&& final(self).pool().subset_of(old(self).pool())
                },
            },
    ;

    /// Return a frame.  The boot-time allocators either remember it or
    /// deliberately leak it; either way the pool grows by at most this frame.
    fn deallocate(&mut self, page: PhysicalPage)
        requires
            old(self).wf(),
            old(self).dealloc_ok(page),
        ensures
            final(self).wf(),
            final(self).pool().subset_of(old(self).pool().insert(page.number)),
            final(self).avail() >= old(self).avail(),
            final(self).avail() <= old(self).avail() + 1,
    ;
}

/// The pieces of the memory core once boot-time setup is done: the
/// active hierarchy, the frame provider, and the stack carver.
pub struct MemoryController {
    pub active_table: ActivePageTable,
    pub allocator: AreaAllocator,
    pub stack_allocator: StackAllocator,
}

impl MemoryController {
    /// The pieces fit together: the machine model is well formed, every
    /// remaining stack-range page can still be mapped, and the frame
    /// provider only hands out frames that hold no page table.
    pub open spec fn inv(self) -> bool {
        &&& self.active_table.mapper.wf()
        &&& self.allocator.wf()
        &&& self.stack_allocator.range.end.number < 0x8_0000_0000
        &&& forall|q: u64|
            self.stack_allocator.range.start.number <= q
                <= self.stack_allocator.range.end.number ==> can_map(
                self.active_table.mapper.mem(),
                self.active_table.mapper.root_of(),
                q,
            )
        &&& forall|f: u64|
            #[trigger] self.allocator.pool().contains(f)
                ==> !self.active_table.mapper.mem().contains_key(f)
    }

    /// Number of allocations the frame provider still guarantees.
    pub open spec fn frames_left(self) -> nat {
        self.allocator.avail()
    }

    /// Carve a guarded kernel stack of `size_in_pages` pages.
    pub fn alloc_stack(&mut self, size_in_pages: u64) -> (r: Option<Stack>)
        requires
            old(self).inv(),
            size_in_pages < 0x8_0000_0000,
            old(self).allocator.avail() >= 4 * size_in_pages,
        ensures
            final(self).inv(),
            match r {
                Some(stack) => {
                    &&& 1 <= size_in_pages
                    &&& stack.top_of() == stack.bottom_of() + size_in_pages * 4096
                    &&& stack.bottom_of() == (old(self).stack_allocator.range.start.number + 1)
                        * 4096
                    &&& crate::table::translate_page_spec(
                        final(self).active_table.mapper.mem(),
                        final(self).active_table.mapper.root_of(),
                        old(self).stack_allocator.range.start.number,
                    ) is None
                },
                None => size_in_pages == 0 || old(self).stack_allocator.range.pages_left()
                    < size_in_pages + 1,
            },
    {
        let ghost pre = *self;
        let r = self.stack_allocator.alloc_stack(
            &mut self.active_table,
            &mut self.allocator,
            size_in_pages,
        );
        proof {
            if r is Some {
                assert forall|q: u64|
                    self.stack_allocator.range.start.number <= q
                        <= self.stack_allocator.range.end.number implies can_map(
                    self.active_table.mapper.mem(),
                    self.active_table.mapper.root_of(),
                    q,
                ) by {
                    assert(q < 0x8_0000_0000);
                    assert((q >> 27) & 0x1ff < 256) by (bit_vector)
                        requires
                            q < 0x8_0000_0000,
                    ;
                    assert(crate::table::page_canonical(q) && crate::table::idx4(q) != 511);
                    assert(crate::table::same_walk(
                        pre.active_table.mapper.mem(),
                        self.active_table.mapper.mem(),
                        pre.active_table.mapper.root_of(),
                        q,
                    ));
                }
            }
        }
        r
    }
}

/// Boot-time set-up once the kernel has been remapped: back every page
/// of the fixed heap range with a freshly allocated frame, mapped
/// writable, and put the stack carver on the 100-page range just above
/// the heap.
pub fn init(allocator: AreaAllocator, active_table: ActivePageTable) -> (r: MemoryController)
    requires
        active_table.mapper.wf(),
        allocator.wf(),
        forall|q: u64|
            HEAP_START / 4096 <= q <= (HEAP_START + HEAP_SIZE) / 4096 + 101 ==> can_map(
                active_table.mapper.mem(),
                active_table.mapper.root_of(),
                q,
            ),
        allocator.avail() >= 104,
        forall|f: u64|
            allocator.pool().contains(f) ==> !active_table.mapper.mem().contains_key(f),
    ensures
        r.inv(),
        r.active_table.mapper.cr3_of() == active_table.mapper.cr3_of(),
        r.active_table.mapper.root_of() == active_table.mapper.root_of(),
        forall|q: u64|
            HEAP_START / 4096 <= q <= (HEAP_START + HEAP_SIZE) / 4096 ==> mapped_p1(
                r.active_table.mapper.mem(),
                active_table.mapper.root_of(),
                q,
            ) && entry_writable(
                #[trigger] p1_slot(
                    r.active_table.mapper.mem(),
                    active_table.mapper.root_of(),
                    q,
                ),
            ),
        r.stack_allocator.range.start.number == (HEAP_START + HEAP_SIZE) / 4096 + 1,
        r.stack_allocator.range.end.number == (HEAP_START + HEAP_SIZE) / 4096 + 101,
        forall|w: u64|
            page_canonical(w) && idx4(w) != 511 && !(HEAP_START / 4096 <= w <= (HEAP_START
                + HEAP_SIZE) / 4096) ==> #[trigger] same_walk(
                active_table.mapper.mem(),
                r.active_table.mapper.mem(),
                active_table.mapper.root_of(),
                w,
            ),
{
    let mut active_table = active_table;
    let mut allocator = allocator;
    let ghost m0 = active_table.mapper.mem();
    let ghost root = active_table.mapper.root_of();
    let ghost cr30 = active_table.mapper.cr3_of();
    let ghost pool0 = allocator.pool();
    let heap_start_page = VirtualPage::containing_address(HEAP_START);
    let heap_end_page = VirtualPage::containing_address(HEAP_START + HEAP_SIZE);
    let writable = EntryFlags::from_bits_truncate(2);
    proof {
        assert(2u64 & 0x8000_0000_0000_01ff == 2 && 2u64 & 0x80 == 0 && 2u64 & 2 == 2)
            by (bit_vector);
        assert(forall|q: u64| q < 0x800_0000 ==> #[trigger] ((q >> 27) & 0x1ff) == 0)
            by (bit_vector);
    }
    let mut q = heap_start_page.number;
    while q <= heap_end_page.number
        invariant
            active_table.mapper.wf(),
            active_table.mapper.cr3_of() == cr30,
            active_table.mapper.root_of() == root,
            heap_start_page.number == HEAP_START / 4096,
            heap_end_page.number == (HEAP_START + HEAP_SIZE) / 4096,
            heap_start_page.number <= q <= heap_end_page.number + 1,
            writable.bits == 2,
            writable.wf(),
            forall|w: u64|
                HEAP_START / 4096 <= w <= (HEAP_START + HEAP_SIZE) / 4096 + 101 ==> can_map(
                    m0,
                    root,
                    w,
                ),
            forall|p: u64|
                heap_start_page.number <= p < q ==> mapped_p1(
                    active_table.mapper.mem(),
                    root,
                    p,
                ) && entry_writable(p1_slot(active_table.mapper.mem(), root, p)),
            forall|w: u64|
                page_canonical(w) && idx4(w) != 511 && !(heap_start_page.number <= w < q)
                    ==> #[trigger] same_walk(m0, active_table.mapper.mem(), root, w),
            allocator.wf(),
            allocator.pool().subset_of(pool0),
            allocator.avail() + 4 * (q - heap_start_page.number) >= 104,
            forall|f: u64|
                #[trigger] allocator.pool().contains(f)
                    ==> !active_table.mapper.mem().contains_key(f),
            forall|w: u64| w < 0x800_0000 ==> #[trigger] ((w >> 27) & 0x1ff) == 0,
        decreases heap_end_page.number + 1 - q,
    {
        let ghost m_cur = active_table.mapper.mem();
        let ghost a_cur = allocator;
        proof {
            assert(2u64 & 0x80 == 0 && 2u64 & 2 == 2) by (bit_vector);
            assert(page_canonical(q) && idx4(q) == 0);
            assert(same_walk(m0, m_cur, root, q));
            assert(can_map(m_cur, root, q));
            assert(tables_needed(m_cur, root, q) <= 3);
        }
        active_table.mapper.map(VirtualPage { number: q }, writable, &mut allocator);
        proof {
            let m_new = active_table.mapper.mem();
            assert(entry_writable(p1_slot(m_new, root, q)));
            assert forall|p: u64| heap_start_page.number <= p < q + 1 implies mapped_p1(
                m_new,
                root,
                p,
            ) && entry_writable(p1_slot(m_new, root, p)) by {
                if p < q {
                    assert(page_canonical(p) && idx4(p) == 0);
                    assert(same_walk(m_cur, m_new, root, p));
                }
            }
            assert forall|w: u64|
                page_canonical(w) && idx4(w) != 511 && !(heap_start_page.number <= w < q + 1)
                    implies #[trigger] same_walk(m0, m_new, root, w) by {
                assert(same_walk(m0, m_cur, root, w));
                assert(same_walk(m_cur, m_new, root, w));
            }
            assert forall|f: u64| #[trigger] allocator.pool().contains(f) implies
                !m_new.contains_key(f) by {
                assert(a_cur.pool().contains(f));
                assert(!m_cur.contains_key(f));
            }
        }
        q = q + 1;
    }
    let stack_allocator = StackAllocator::new(
        VirtualPage::range_inclusive(heap_end_page.add_pages(1), heap_end_page.add_pages(101)),
    );
    let r = MemoryController { active_table, allocator, stack_allocator };
    proof {
        assert forall|w: u64|
            r.stack_allocator.range.start.number <= w <= r.stack_allocator.range.end.number
                implies can_map(r.active_table.mapper.mem(), root, w) by {
            assert(page_canonical(w) && idx4(w) == 0);
            assert(same_walk(m0, r.active_table.mapper.mem(), root, w));
            assert(can_map(m0, root, w));
        }
    }
    r
}

} // verus!
