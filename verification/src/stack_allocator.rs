//! Carves guarded kernel stacks out of a contiguous virtual page range:
//! one unmapped guard page, then `n` pages mapped writable.

use vstd::prelude::*;
use crate::entry::{entry_writable, EntryFlags};
use crate::memory::{Allocator, PAGE_SIZE};
use crate::paging::{ActivePageTable, VirtualPage, VirtualPageIter};
use crate::table::{
    can_map, idx4, lemma_can_map_not_translated, mapped_p1, p1_slot, page_canonical, same_walk,
    tables_needed, translate_page_spec,
};

verus! {

/// Hands out stacks from a fixed, initially unmapped page range.
pub struct StackAllocator {
    pub range: VirtualPageIter,
}

impl StackAllocator {
    pub fn new(page_range: VirtualPageIter) -> (r: StackAllocator)
        ensures
            r.range == page_range,
    {
        StackAllocator { range: page_range }
    }

    /// Carve a stack of `size_in_pages` pages: skip one page as an
    /// unmapped guard, map the next `size_in_pages` pages writable, and
    /// return their extent.  `None` when the request is empty or the
    /// range cannot hold guard and stack.
    pub fn alloc_stack<A: Allocator>(
        &mut self,
        active_table: &mut ActivePageTable,
        allocator: &mut A,
        size_in_pages: u64,
    ) -> (r: Option<Stack>)
        requires
            old(active_table).mapper.wf(),
            size_in_pages < 0x8_0000_0000,
            old(self).range.end.number < 0x8_0000_0000,
            forall|q: u64|
                old(self).range.start.number <= q <= old(self).range.end.number ==> can_map(
                    old(active_table).mapper.mem(),
                    old(active_table).mapper.root_of(),
                    q,
                ),
            old(allocator).wf(),
            old(allocator).avail() >= 4 * size_in_pages,
            size_in_pages > 0 ==> forall|f: u64|
                old(allocator).pool().contains(f) ==> !old(
                    active_table,
                ).mapper.mem().contains_key(f),
        ensures
            final(active_table).mapper.wf(),
            final(active_table).mapper.cr3_of() == old(active_table).mapper.cr3_of(),
            final(active_table).mapper.root_of() == old(active_table).mapper.root_of(),
            final(allocator).wf(),
            final(allocator).pool().subset_of(old(allocator).pool()),
            final(self).range.end == old(self).range.end,
            match r {
                Some(stack) => {
                    &&& 1 <= size_in_pages
                    &&& old(self).range.pages_left() >= size_in_pages + 1
                    &&& stack.bottom_of() == (old(self).range.start.number + 1) * 4096
                    &&& stack.top_of() == stack.bottom_of() + size_in_pages * 4096
                    &&& final(self).range.start.number == old(self).range.start.number
                        + size_in_pages + 1
                    &&& translate_page_spec(
                        final(active_table).mapper.mem(),
                        old(active_table).mapper.root_of(),
                        old(self).range.start.number,
                    ) is None
                    &&& forall|q: u64|
                        old(self).range.start.number + 1 <= q <= old(self).range.start.number
                            + size_in_pages ==> mapped_p1(
                            final(active_table).mapper.mem(),
                            old(active_table).mapper.root_of(),
                            q,
                        ) && entry_writable(
                            #[trigger] p1_slot(
                                final(active_table).mapper.mem(),
                                old(active_table).mapper.root_of(),
                                q,
                            ),
                        )
                    &&& forall|w: u64|
                        page_canonical(w) && idx4(w) != 511 && !(old(self).range.start.number + 1
                            <= w <= old(self).range.start.number + size_in_pages)
                            ==> #[trigger] same_walk(
                            old(active_table).mapper.mem(),
                            final(active_table).mapper.mem(),
                            old(active_table).mapper.root_of(),
                            w,
                        )
                    &&& forall|f: u64|
                        #[trigger] final(allocator).pool().contains(f)
                            ==> !(final(active_table).mapper.mem().contains_key(f))
                },
                None => {
                    &&& (size_in_pages == 0 || old(self).range.pages_left() < size_in_pages + 1)
                    &&& *final(self) == *old(self)
                    &&& *final(active_table) == *old(active_table)
                    &&& *final(allocator) == *old(allocator)
                },
            },
    {
        if size_in_pages == 0 {
            return None;
        }
        let available: u64 = if self.range.start.number <= self.range.end.number {
            self.range.end.number - self.range.start.number + 1
        } else {
            0
        };
        if available < size_in_pages + 1 {
            return None;
        }
        let ghost m0 = active_table.mapper.mem();
        let ghost root = active_table.mapper.root_of();
        let ghost pool0 = allocator.pool();
        let guard_page = self.range.start;
        let stack_start = guard_page.add_pages(1);
        let stack_end = guard_page.add_pages(size_in_pages);
        let flags = EntryFlags::from_bits_truncate(2);
        proof {
            assert(2u64 & 0x8000_0000_0000_01ff == 2 && 2u64 & 0x80 == 0) by (bit_vector);
            assert(forall|q: u64| q < 0x8_0000_0000 ==> #[trigger] ((q >> 27) & 0x1ff) < 256)
                by (bit_vector);
        }
        let mut q = stack_start.number;
        while q <= stack_end.number
            invariant
                active_table.mapper.wf(),
                active_table.mapper.cr3_of() == old(active_table).mapper.cr3_of(),
                active_table.mapper.root_of() == root,
                root == old(active_table).mapper.root_of(),
                m0 == old(active_table).mapper.mem(),
                pool0 == old(allocator).pool(),
                flags.bits == 2,
                guard_page == old(self).range.start,
                stack_start.number == guard_page.number + 1,
                stack_end.number == guard_page.number + size_in_pages,
                stack_end.number <= old(self).range.end.number,
                old(self).range.end.number < 0x8_0000_0000,
                1 <= size_in_pages,
                stack_start.number <= q <= stack_end.number + 1,
                flags.wf(),
                forall|w: u64|
                    old(self).range.start.number <= w <= old(self).range.end.number ==> can_map(
                        m0,
                        root,
                        w,
                    ),
                forall|p: u64|
                    stack_start.number <= p < q ==> mapped_p1(
                        active_table.mapper.mem(),
                        root,
                        p,
                    ) && entry_writable(p1_slot(active_table.mapper.mem(), root, p)),
                forall|w: u64|
                    page_canonical(w) && idx4(w) != 511 && !(stack_start.number <= w < q)
                        ==> #[trigger] same_walk(m0, active_table.mapper.mem(), root, w),
                allocator.wf(),
                allocator.pool().subset_of(pool0),
                allocator.avail() + 4 * (q - stack_start.number) >= old(allocator).avail(),
                old(allocator).avail() >= 4 * size_in_pages,
                forall|f: u64|
                    #[trigger] allocator.pool().contains(f)
                        ==> !active_table.mapper.mem().contains_key(f),
                forall|w: u64| w < 0x8_0000_0000 ==> #[trigger] ((w >> 27) & 0x1ff) < 256,
            decreases stack_end.number + 1 - q,
        {
            let ghost m_cur = active_table.mapper.mem();
            let ghost a_cur = *allocator;
            proof {
                assert(2u64 & 0x80 == 0 && 2u64 & 2 == 2) by (bit_vector);
                assert(page_canonical(q) && idx4(q) != 511);
                assert(same_walk(m0, m_cur, root, q));
                assert(can_map(m_cur, root, q));
                assert(tables_needed(m_cur, root, q) <= 3);
            }
            active_table.mapper.map(VirtualPage { number: q }, flags, allocator);
            proof {
                let m_new = active_table.mapper.mem();
                assert(2u64 & 2 == 2) by (bit_vector);
                assert(entry_writable(p1_slot(m_new, root, q)));
                assert forall|p: u64| stack_start.number <= p < q + 1 implies mapped_p1(
                    m_new,
                    root,
                    p,
                ) && entry_writable(p1_slot(m_new, root, p)) by {
                    if p < q {
                        assert(page_canonical(p) && idx4(p) != 511);
                        assert(same_walk(m_cur, m_new, root, p));
                    }
                }
                assert forall|w: u64|
                    page_canonical(w) && idx4(w) != 511 && !(stack_start.number <= w < q + 1)
                        implies #[trigger] same_walk(m0, m_new, root, w) by {
                    assert(same_walk(m0, m_cur, root, w));
                    assert(same_walk(m_cur, m_new, root, w));
                }
                assert forall|f: u64| #[trigger] allocator.pool().contains(f) implies
                    !m_new.contains_key(f) by {
                    assert(a_cur.pool().contains(f));
                    assert(!m_cur.contains_key(f));
                }
            }
            q = q + 1;
        }
        self.range.start = VirtualPage { number: stack_end.number + 1 };
        proof {
            assert(same_walk(m0, active_table.mapper.mem(), root, guard_page.number));
            lemma_can_map_not_translated(active_table.mapper.mem(), root, guard_page.number);
        }
        let top_of_stack = stack_end.start_address() + PAGE_SIZE;
        Some(Stack::new(top_of_stack, stack_start.start_address()))
    }
}

/// A kernel stack: `top` is the first byte past it, `bottom` its lowest
/// address; the guard page lies just below `bottom`.
#[derive(Clone, Copy, PartialEq, Eq, Structural, Debug)]
pub struct Stack {
    top: u64,
    bottom: u64,
}

impl Stack {
    /// First byte past the stack.
    pub closed spec fn top_of(self) -> u64 {
        self.top
    }

    /// Lowest byte of the stack.
    pub closed spec fn bottom_of(self) -> u64 {
        self.bottom
    }

    fn new(top: u64, bottom: u64) -> (r: Stack)
        requires
            top > bottom,
        ensures
            r.top_of() == top,
            r.bottom_of() == bottom,
    {
        Stack { top, bottom }
    }

    pub fn top(&self) -> (r: u64)
        ensures
            r == self.top_of(),
    {
        self.top
    }

    pub fn bottom(&self) -> (r: u64)
        ensures
            r == self.bottom_of(),
    {
        self.bottom
    }
}

} // verus!
