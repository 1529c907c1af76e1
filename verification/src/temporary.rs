//! Short-lived mappings of arbitrary frames, backed by a three-slot
//! frame reserve that breaks the allocator/mapper bootstrap cycle.

use vstd::prelude::*;
use crate::entry::EntryFlags;
use crate::memory::{Allocator, PhysicalPage, MAX_FRAME};
use crate::paging::{ActivePageTable, VirtualPage};
use crate::table::{
    can_map, idx4, mapped_p1, mem_extends, p1_slot, preserves_walks, read, tables_needed,
    translate_page_spec,
};

verus! {

/// Frames held by one reserve slot.
pub open spec fn slot_set(s: Option<PhysicalPage>) -> Set<u64> {
    match s {
        Some(p) => Set::empty().insert(p.number),
        None => Set::empty(),
    }
}

/// Number of frames held by one reserve slot.
pub open spec fn slot_count(s: Option<PhysicalPage>) -> nat {
    match s {
        Some(p) => 1nat,
        None => 0nat,
    }
}

/// A reserve of at most three physical frames, refilled only by its own
/// deallocations.  It panics if asked to hold a fourth frame, so
/// `dealloc_ok` demands a free slot.
pub struct TinyAllocator {
    s0: Option<PhysicalPage>,
    s1: Option<PhysicalPage>,
    s2: Option<PhysicalPage>,
}

impl Allocator for TinyAllocator {
    closed spec fn wf(&self) -> bool {
        &&& (self.s0 matches Some(p) ==> p.number < MAX_FRAME)
        &&& (self.s1 matches Some(p) ==> p.number < MAX_FRAME)
        &&& (self.s2 matches Some(p) ==> p.number < MAX_FRAME)
        &&& (self.s0 is Some && self.s1 is Some ==> self.s0 != self.s1)
        &&& (self.s0 is Some && self.s2 is Some ==> self.s0 != self.s2)
        &&& (self.s1 is Some && self.s2 is Some ==> self.s1 != self.s2)
    }

    closed spec fn pool(&self) -> Set<u64> {
        slot_set(self.s0).union(slot_set(self.s1)).union(slot_set(self.s2))
    }

    closed spec fn avail(&self) -> nat {
        slot_count(self.s0) + slot_count(self.s1) + slot_count(self.s2)
    }

    closed spec fn ok_frame(&self, f: u64) -> bool {
        self.pool().contains(f)
    }

    closed spec fn dealloc_ok(&self, page: PhysicalPage) -> bool {
        &&& (self.s0 is None || self.s1 is None || self.s2 is None)
        &&& page.number < MAX_FRAME
        &&& !self.pool().contains(page.number)
    }

    fn allocate(&mut self) -> (r: Option<PhysicalPage>) {
        if self.s0.is_some() {
            let r = self.s0;
            self.s0 = None;
            proof {
                assert(final(self).pool().subset_of(
                    old(self).pool().remove(r.unwrap().number),
                ));
            }
            r
        } else if self.s1.is_some() {
            let r = self.s1;
            self.s1 = None;
            r
        } else if self.s2.is_some() {
            let r = self.s2;
            self.s2 = None;
            r
        } else {
            None
        }
    }

    /// Stash the frame in the first free reserve slot; `dealloc_ok`
    /// excludes the case of a full reserve, where the kernel would stop.
    fn deallocate(&mut self, page: PhysicalPage)
        ensures
            final(self).pool() == old(self).pool().insert(page.number),
            final(self).avail() == old(self).avail() + 1,
    {
        if self.s0.is_none() {
            self.s0 = Some(page);
            proof {
                assert(self.pool() =~= old(self).pool().insert(page.number));
            }
        } else if self.s1.is_none() {
            self.s1 = Some(page);
            proof {
                assert(self.pool() =~= old(self).pool().insert(page.number));
            }
        } else {
            self.s2 = Some(page);
            proof {
                assert(self.pool() =~= old(self).pool().insert(page.number));
            }
        }
    }
}

/// A reserve with a free slot accepts any frame it does not already hold.
pub proof fn lemma_tiny_dealloc_ok(t: TinyAllocator, f: u64)
    requires
        t.avail() < 3,
        f < MAX_FRAME,
        !t.pool().contains(f),
    ensures
        t.dealloc_ok(PhysicalPage { number: f }),
{
}

impl TinyAllocator {
    /// Pre-acquire up to three frames from the real allocator.
    pub fn new<A: Allocator>(allocator: &mut A) -> (r: TinyAllocator)
        requires
            old(allocator).wf(),
        ensures
            r.wf(),
            final(allocator).wf(),
            final(allocator).pool().subset_of(old(allocator).pool()),
            forall|f: u64|
                #[trigger] r.pool().contains(f) ==> old(allocator).pool().contains(f)
                    && !(final(allocator).pool().contains(f)),
            old(allocator).avail() >= 3 ==> r.avail() == 3,
            final(allocator).avail() + 3 >= old(allocator).avail(),
    {
        let f0 = allocator.allocate();
        let f1 = allocator.allocate();
        let f2 = allocator.allocate();
        TinyAllocator { s0: f0, s1: f1, s2: f2 }
    }
}

/// A designated virtual page through which one arbitrary physical frame
/// at a time can be reached, using only the three-frame reserve for any
/// intermediate tables its walk needs.
pub struct TemporaryPage {
    pub page: VirtualPage,
    pub allocator: TinyAllocator,
}

impl TemporaryPage {
    pub fn new<A: Allocator>(page: VirtualPage, allocator: &mut A) -> (r: TemporaryPage)
        requires
            old(allocator).wf(),
        ensures
            r.page == page,
            r.allocator.wf(),
            final(allocator).wf(),
            final(allocator).pool().subset_of(old(allocator).pool()),
            forall|f: u64|
                #[trigger] r.allocator.pool().contains(f) ==> old(allocator).pool().contains(f)
                    && !final(allocator).pool().contains(f),
            old(allocator).avail() >= 3 ==> r.allocator.avail() == 3,
            final(allocator).avail() + 3 >= old(allocator).avail(),
    {
        TemporaryPage { page, allocator: TinyAllocator::new(allocator) }
    }

    /// Map this page to `physical_page`, drawing intermediate tables from
    /// the reserve, and return the page's start address.
    pub fn map(&mut self, physical_page: PhysicalPage, active_table: &mut ActivePageTable) -> (r:
        u64)
        requires
            old(active_table).mapper.wf(),
            old(self).page.wf(),
            old(self).page.number < 0x10_0000_0000_0000,
            idx4(old(self).page.number) != 511,
            physical_page.number < MAX_FRAME,
            can_map(
                old(active_table).mapper.mem(),
                old(active_table).mapper.root_of(),
                old(self).page.number,
            ),
            old(self).allocator.wf(),
            old(self).allocator.avail() >= tables_needed(
                old(active_table).mapper.mem(),
                old(active_table).mapper.root_of(),
                old(self).page.number,
            ),
            tables_needed(
                old(active_table).mapper.mem(),
                old(active_table).mapper.root_of(),
                old(self).page.number,
            ) > 0 ==> (forall|f: u64|
                old(self).allocator.pool().contains(f) ==> !old(
                    active_table,
                ).mapper.mem().contains_key(f)),
        ensures
            final(self).page == old(self).page,
            final(self).allocator.wf(),
            final(self).allocator.pool().subset_of(old(self).allocator.pool()),
            final(self).allocator.avail() + tables_needed(
                old(active_table).mapper.mem(),
                old(active_table).mapper.root_of(),
                old(self).page.number,
            ) == old(self).allocator.avail(),
            final(active_table).mapper.wf(),
            final(active_table).mapper.cr3_of() == old(active_table).mapper.cr3_of(),
            final(active_table).mapper.root_of() == old(active_table).mapper.root_of(),
            r == old(self).page.number * 4096,
            mapped_p1(
                final(active_table).mapper.mem(),
                old(active_table).mapper.root_of(),
                old(self).page.number,
            ),
            p1_slot(
                final(active_table).mapper.mem(),
                old(active_table).mapper.root_of(),
                old(self).page.number,
            ) == (physical_page.number << 12) | 2 | 1,
            translate_page_spec(
                final(active_table).mapper.mem(),
                old(active_table).mapper.root_of(),
                old(self).page.number,
            ) == Some(physical_page.number as int),
            preserves_walks(
                old(active_table).mapper.mem(),
                final(active_table).mapper.mem(),
                old(active_table).mapper.root_of(),
                old(self).page.number,
            ),
            mem_extends(old(active_table).mapper.mem(), final(active_table).mapper.mem()),
            forall|f: u64|
                #[trigger] final(active_table).mapper.mem().contains_key(f) ==> old(
                    active_table,
                ).mapper.mem().contains_key(f) || old(self).allocator.pool().contains(f),
            forall|f: u64|
                old(active_table).mapper.is_p4(f) ==> #[trigger] final(active_table).mapper.is_p4(
                    f,
                ),
            forall|f: u64, j: int|
                old(active_table).mapper.is_p4(f) && f != old(active_table).mapper.root_of()
                    ==> read(final(active_table).mapper.mem(), f, j) == read(
                    old(active_table).mapper.mem(),
                    f,
                    j,
                ),
    {
        let flags = EntryFlags::from_bits_truncate(2);
        proof {
            assert(2u64 & 0x8000_0000_0000_01ff == 2 && 2u64 & 0x80 == 0) by (bit_vector);
        }
        active_table.mapper.map_to(self.page, physical_page, flags, &mut self.allocator);
        self.page.start_address()
    }

    /// Remove this page's mapping, returning the frame it reached to the
    /// reserve.
    pub fn unmap(&mut self, active_table: &mut ActivePageTable)
        requires
            old(active_table).mapper.wf(),
            old(self).page.wf(),
            idx4(old(self).page.number) != 511,
            mapped_p1(
                old(active_table).mapper.mem(),
                old(active_table).mapper.root_of(),
                old(self).page.number,
            ),
            old(self).allocator.wf(),
            old(self).allocator.dealloc_ok(
                PhysicalPage {
                    number: crate::entry::entry_frame(
                        p1_slot(
                            old(active_table).mapper.mem(),
                            old(active_table).mapper.root_of(),
                            old(self).page.number,
                        ),
                    ),
                },
            ),
        ensures
            final(self).page == old(self).page,
            final(self).allocator.wf(),
            final(self).allocator.pool().subset_of(
                old(self).allocator.pool().insert(
                    crate::entry::entry_frame(
                        p1_slot(
                            old(active_table).mapper.mem(),
                            old(active_table).mapper.root_of(),
                            old(self).page.number,
                        ),
                    ),
                ),
            ),
            final(self).allocator.avail() >= old(self).allocator.avail(),
            final(self).allocator.avail() <= old(self).allocator.avail() + 1,
            final(active_table).mapper.wf(),
            final(active_table).mapper.cr3_of() == old(active_table).mapper.cr3_of(),
            final(active_table).mapper.root_of() == old(active_table).mapper.root_of(),
            translate_page_spec(
                final(active_table).mapper.mem(),
                old(active_table).mapper.root_of(),
                old(self).page.number,
            ) is None,
            p1_slot(
                final(active_table).mapper.mem(),
                old(active_table).mapper.root_of(),
                old(self).page.number,
            ) == 0,
            can_map(
                final(active_table).mapper.mem(),
                old(active_table).mapper.root_of(),
                old(self).page.number,
            ),
            tables_needed(
                final(active_table).mapper.mem(),
                old(active_table).mapper.root_of(),
                old(self).page.number,
            ) == 0,
            preserves_walks(
                old(active_table).mapper.mem(),
                final(active_table).mapper.mem(),
                old(active_table).mapper.root_of(),
                old(self).page.number,
            ),
            forall|f: u64|
                #[trigger] final(active_table).mapper.mem().contains_key(f) == old(
                    active_table,
                ).mapper.mem().contains_key(f),
            forall|f: u64|
                old(active_table).mapper.is_p4(f) == #[trigger] final(active_table).mapper.is_p4(
                    f,
                ),
            forall|f: u64, j: int|
                old(active_table).mapper.is_p4(f) ==> read(
                    final(active_table).mapper.mem(),
                    f,
                    j,
                ) == read(old(active_table).mapper.mem(), f, j),
            forall|r2: u64, w: u64|
                old(active_table).mapper.is_p4(r2) && r2 != old(active_table).mapper.root_of()
                    && crate::table::page_canonical(w) && idx4(w) != 511 ==> #[trigger]
                crate::table::same_walk(
                    old(active_table).mapper.mem(),
                    final(active_table).mapper.mem(),
                    r2,
                    w,
                ),
    {
        active_table.mapper.unmap(self.page, &mut self.allocator);
    }
}

} // verus!
