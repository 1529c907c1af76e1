//! Virtual pages and the address-space level of the paging model.

use vstd::prelude::*;
use crate::entry::EntryFlags;
use crate::mapper::Mapper;
use crate::memory::{Allocator, PhysicalPage, MAX_FRAME, PAGE_SIZE};
use crate::table::{
    can_map, idx1, idx2, idx3, idx4, mapped_p1, p1_slot, page_canonical, read, same_walk,
    tables_needed, translate_page_spec, zero_table,
};
use crate::temporary::TemporaryPage;

verus! {

/// A physical address, in bytes.
pub type PhysicalAddress = u64;

/// A virtual address, in bytes.
pub type VirtualAddress = u64;

/// Largest page number of a canonical virtual address, exclusive.
pub const MAX_PAGE: u64 = 0x10_0000_0000_0000;

/// A 4096-byte block of virtual memory, identified by its number.
#[derive(Clone, Copy, PartialEq, Eq, Structural, Debug)]
pub struct VirtualPage {
    pub number: u64,
}

impl VirtualPage {
    /// The page belongs to a canonical virtual address.
    pub open spec fn wf(self) -> bool {
        page_canonical(self.number)
    }

    /// Page containing the given canonical virtual address (rounds down).
    pub fn containing_address(address: VirtualAddress) -> (r: VirtualPage)
        requires
            address < 0x8000_0000_0000 || address >= 0xffff_8000_0000_0000,
        ensures
            r.number == address / PAGE_SIZE,
            r.wf(),
    {
        proof {
            let a = address;
            assert(a / 4096 == a >> 12) by (bit_vector);
            assert((a < 0x8000_0000_0000 || a >= 0xffff_8000_0000_0000) ==> ((a >> 12)
                < 0x8_0000_0000 || (0x10_0000_0000_0000 - 0x8_0000_0000 <= (a >> 12) && (a >> 12)
                < 0x10_0000_0000_0000))) by (bit_vector);
        }
        VirtualPage { number: address / PAGE_SIZE }
    }

    /// First virtual address of this page.
    pub fn start_address(&self) -> (r: VirtualAddress)
        requires
            self.number < MAX_PAGE,
        ensures
            r == self.number * PAGE_SIZE,
    {
        self.number * PAGE_SIZE
    }

    /// Index of this page's entry in the level-4 table.
    pub fn p4_index(&self) -> (r: usize)
        ensures
            r as int == idx4(self.number),
            r < 512,
    {
        proof {
            let n = self.number;
            assert((n >> 27) & 0x1ff < 512) by (bit_vector);
        }
        ((self.number >> 27) & 0x1ff) as usize
    }

    /// Index of this page's entry in the level-3 table.
    pub fn p3_index(&self) -> (r: usize)
        ensures
            r as int == idx3(self.number),
            r < 512,
    {
        proof {
            let n = self.number;
            assert((n >> 18) & 0x1ff < 512) by (bit_vector);
        }
        ((self.number >> 18) & 0x1ff) as usize
    }

    /// Index of this page's entry in the level-2 table.
    pub fn p2_index(&self) -> (r: usize)
        ensures
            r as int == idx2(self.number),
            r < 512,
    {
        proof {
            let n = self.number;
            assert((n >> 9) & 0x1ff < 512) by (bit_vector);
        }
        ((self.number >> 9) & 0x1ff) as usize
    }

    /// Index of this page's entry in the level-1 table.
    pub fn p1_index(&self) -> (r: usize)
        ensures
            r as int == idx1(self.number),
            r < 512,
    {
        proof {
            let n = self.number;
            assert(n & 0x1ff < 512) by (bit_vector);
        }
        (self.number & 0x1ff) as usize
    }

    /// The page `n` pages above this one.
    pub fn add_pages(self, n: u64) -> (r: VirtualPage)
        requires
            self.number + n < MAX_PAGE,
        ensures
            r.number == self.number + n,
    {
        VirtualPage { number: self.number + n }
    }

    /// All pages from `start` to `end`, inclusive.
    pub fn range_inclusive(start: VirtualPage, end: VirtualPage) -> (r: VirtualPageIter)
        ensures
            r.start == start,
            r.end == end,
    {
        VirtualPageIter { start, end }
    }
}

/// A cursor over an inclusive range of virtual pages.
#[derive(Clone, Copy, PartialEq, Eq, Structural, Debug)]
pub struct VirtualPageIter {
    pub start: VirtualPage,
    pub end: VirtualPage,
}

impl VirtualPageIter {
    /// Number of pages the cursor still covers.
    pub open spec fn pages_left(self) -> int {
        if self.start.number <= self.end.number {
            self.end.number - self.start.number + 1
        } else {
            0
        }
    }

    /// The first remaining page, advancing the cursor past it.
    pub fn next(&mut self) -> (r: Option<VirtualPage>)
        requires
            old(self).end.number < MAX_PAGE,
        ensures
            match r {
                Some(p) => {
                    &&& old(self).pages_left() > 0
                    &&& p == old(self).start
                    &&& final(self).start.number == old(self).start.number + 1
                    &&& final(self).end == old(self).end
                },
                None => {
                    &&& old(self).pages_left() == 0
                    &&& *final(self) == *old(self)
                },
            },
    {
        if self.start.number <= self.end.number {
            let page = self.start;
            self.start = VirtualPage { number: self.start.number + 1 };
            Some(page)
        } else {
            None
        }
    }
}

/// The hierarchy the processor is running on.  All edits go through the
/// recursive entry 511 of the `cr3` table, so `mapper` roots there.
pub struct ActivePageTable {
    pub mapper: Mapper,
}

impl ActivePageTable {
    /// The boot hierarchy: one level-4 table at `p4_frame` holding only
    /// its own recursive entry.
    pub fn new(p4_frame: u64) -> (r: ActivePageTable)
        requires
            p4_frame < MAX_FRAME,
        ensures
            r.mapper.wf(),
            r.mapper.cr3_of() == p4_frame,
            r.mapper.root_of() == p4_frame,
            r.mapper.mem() =~= Map::<u64, Seq<u64>>::empty().insert(
                p4_frame,
                zero_table().update(511, (p4_frame << 12) | 3),
            ),
    {
        ActivePageTable { mapper: Mapper::new_at(p4_frame) }
    }

    /// Load `new_table` into the processor's table register and hand back
    /// the previously active table.
    pub fn switch(&mut self, new_table: InactivePageTable) -> (old_table: InactivePageTable)
        requires
            old(self).mapper.wf(),
            old(self).mapper.is_p4(new_table.p4.number),
            new_table.p4.number < MAX_FRAME,
        ensures
            final(self).mapper.wf(),
            final(self).mapper.mem() == old(self).mapper.mem(),
            final(self).mapper.cr3_of() == new_table.p4.number,
            final(self).mapper.root_of() == crate::entry::entry_frame(
                read(old(self).mapper.mem(), new_table.p4.number, 511),
            ),
            old_table.p4.number == old(self).mapper.cr3_of(),
            forall|f: u64| #[trigger] final(self).mapper.is_p4(f) == old(self).mapper.is_p4(f),
    {
        let old_cr3 = self.mapper.switch_root(new_table.p4.number);
        InactivePageTable { p4: PhysicalPage { number: old_cr3 } }
    }
}

/// One ELF section of the kernel image, as the loader reports it.
#[derive(Clone, Copy, PartialEq, Eq, Structural, Debug)]
pub struct ElfSectionInfo {
    pub start: u64,
    pub size: u64,
    pub flags: u64,
}

/// The loader handoff the remapper needs: the kernel's sections and the
/// physical extent of the loader information block.
pub struct BootInfo {
    pub sections: Vec<ElfSectionInfo>,
    pub multiboot_start: u64,
    pub multiboot_end: u64,
}

/// The section occupies memory at run time.
pub open spec fn sec_allocated(s: ElfSectionInfo) -> bool {
    s.flags & 0x2 == 0x2
}

/// First frame of the section.
pub open spec fn sec_first(s: ElfSectionInfo) -> int {
    s.start as int / 4096
}

/// Last frame of the section (its end address rounded up, inclusive).
pub open spec fn sec_last(s: ElfSectionInfo) -> int {
    (s.start + s.size - 1) / 4096
}

/// An allocated section is page aligned, non-empty and below 64 GiB.
pub open spec fn sec_wf(s: ElfSectionInfo) -> bool {
    sec_allocated(s) ==> s.start % 4096 == 0 && s.size >= 1 && s.start + s.size
        <= 0x10_0000_0000
}

/// Frame `q` belongs to the section.
pub open spec fn sec_covers(s: ElfSectionInfo, q: int) -> bool {
    sec_allocated(s) && sec_first(s) <= q <= sec_last(s)
}

/// Frame `q` belongs to some allocated kernel section.
pub open spec fn boot_covers(b: BootInfo, q: int) -> bool {
    exists|k: int| 0 <= k < b.sections@.len() && sec_covers(#[trigger] b.sections@[k], q)
}

/// First frame of the loader information block.
pub open spec fn mb_first(b: BootInfo) -> int {
    b.multiboot_start as int / 4096
}

/// Last frame of the loader information block.
pub open spec fn mb_last(b: BootInfo) -> int {
    (b.multiboot_end - 1) / 4096
}

/// Frame number of the VGA text framebuffer.
pub const VGA_FRAME: u64 = 0xb8;

/// Frame `q` belongs to the loader information block.
pub open spec fn mb_covers(b: BootInfo, q: int) -> bool {
    mb_first(b) <= q <= mb_last(b)
}

/// Frame `q` is identity mapped by the remapper.
pub open spec fn identity_target(b: BootInfo, q: int) -> bool {
    boot_covers(b, q) || q == VGA_FRAME || (mb_first(b) <= q <= mb_last(b))
}

/// The loader handoff is consistent: sections are well formed and the
/// identity-mapped regions are pairwise disjoint, so no frame is mapped
/// twice.
pub open spec fn boot_wf(b: BootInfo) -> bool {
    &&& forall|k: int| 0 <= k < b.sections@.len() ==> sec_wf(#[trigger] b.sections@[k])
    &&& 1 <= b.multiboot_start < b.multiboot_end <= 0x10_0000_0000
    &&& forall|k1: int, k2: int|
        #![trigger b.sections@[k1], b.sections@[k2]]
        0 <= k1 < k2 < b.sections@.len() && sec_allocated(b.sections@[k1]) && sec_allocated(
            b.sections@[k2],
        ) ==> sec_last(b.sections@[k1]) < sec_first(b.sections@[k2]) || sec_last(b.sections@[k2])
            < sec_first(b.sections@[k1])
    &&& forall|k: int|
        0 <= k < b.sections@.len() ==> !sec_covers(#[trigger] b.sections@[k], VGA_FRAME as int)
    &&& forall|k: int|
        0 <= k < b.sections@.len() && sec_allocated(#[trigger] b.sections@[k]) ==> sec_last(
            b.sections@[k],
        ) < mb_first(b) || mb_last(b) < sec_first(b.sections@[k])
    &&& !(mb_first(b) <= VGA_FRAME <= mb_last(b))
}

/// Pages of the allocated sections from index `k` on.
pub open spec fn secs_pages_from(ss: Seq<ElfSectionInfo>, k: int) -> int
    decreases ss.len() - k,
{
    if k < 0 || k >= ss.len() {
        0
    } else {
        (if sec_allocated(ss[k]) {
            sec_last(ss[k]) - sec_first(ss[k]) + 1
        } else {
            0
        }) + secs_pages_from(ss, k + 1)
    }
}

/// Pages the remapper maps in all: the sections, the VGA frame, and the
/// loader information block.
pub open spec fn total_identity_pages(b: BootInfo) -> int {
    secs_pages_from(b.sections@, 0) + 1 + (mb_last(b) - mb_first(b) + 1)
}

/// Frame `q` is covered by an allocated section before index `k`.
pub open spec fn boot_covers_upto(b: BootInfo, k: int, q: int) -> bool {
    exists|j: int| 0 <= j < k && j < b.sections@.len() && sec_covers(#[trigger] b.sections@[j], q)
}

proof fn lemma_sec_pages_nonneg(s: ElfSectionInfo)
    requires
        sec_wf(s),
        sec_allocated(s),
    ensures
        sec_first(s) <= sec_last(s),
        sec_last(s) < 0x100_0000,
{
    vstd::arithmetic::div_mod::lemma_div_is_ordered(
        s.start as int,
        s.start + s.size - 1,
        4096,
    );
    vstd::arithmetic::div_mod::lemma_div_is_ordered(
        s.start + s.size - 1,
        0x10_0000_0000 - 1,
        4096,
    );
}

proof fn lemma_secs_pages_nonneg(ss: Seq<ElfSectionInfo>, k: int)
    requires
        forall|j: int| 0 <= j < ss.len() ==> sec_wf(#[trigger] ss[j]),
    ensures
        secs_pages_from(ss, k) >= 0,
    decreases ss.len() - k,
{
    if 0 <= k < ss.len() {
        lemma_secs_pages_nonneg(ss, k + 1);
        if sec_allocated(ss[k]) {
            lemma_sec_pages_nonneg(ss[k]);
        }
    }
}

/// A level-4 table that exists in memory but is not loaded.
pub struct InactivePageTable {
    pub p4: PhysicalPage,
}

impl InactivePageTable {
    /// Zero the frame through the temporary page and set its recursive
    /// entry 511 to itself, making it a valid inactive hierarchy.
    pub fn new(
        page: PhysicalPage,
        active_table: &mut ActivePageTable,
        temporary_page: &mut TemporaryPage,
    ) -> (r: InactivePageTable)
        requires
            old(active_table).mapper.wf(),
            page.number < MAX_FRAME,
            !old(active_table).mapper.mem().contains_key(page.number),
            old(temporary_page).page.wf(),
            old(temporary_page).page.number < 0x10_0000_0000_0000,
            idx4(old(temporary_page).page.number) != 511,
            can_map(
                old(active_table).mapper.mem(),
                old(active_table).mapper.root_of(),
                old(temporary_page).page.number,
            ),
            old(temporary_page).allocator.wf(),
            old(temporary_page).allocator.avail() >= tables_needed(
                old(active_table).mapper.mem(),
                old(active_table).mapper.root_of(),
                old(temporary_page).page.number,
            ),
            old(temporary_page).allocator.avail() < 2 + tables_needed(
                old(active_table).mapper.mem(),
                old(active_table).mapper.root_of(),
                old(temporary_page).page.number,
            ),
            forall|f: u64|
                old(temporary_page).allocator.pool().contains(f) ==> !old(
                    active_table,
                ).mapper.mem().contains_key(f) && f != page.number,
        ensures
            r.p4 == page,
            final(active_table).mapper.wf(),
            final(active_table).mapper.cr3_of() == old(active_table).mapper.cr3_of(),
            final(active_table).mapper.root_of() == old(active_table).mapper.root_of(),
            final(active_table).mapper.is_p4(page.number),
            read(final(active_table).mapper.mem(), page.number, 511) == (page.number << 12) | 3,
            forall|j: int|
                j != 511 ==> read(final(active_table).mapper.mem(), page.number, j) == 0,
            forall|f: u64|
                old(active_table).mapper.is_p4(f) ==> #[trigger] final(active_table).mapper.is_p4(
                    f,
                ),
            forall|f: u64, j: int|
                old(active_table).mapper.is_p4(f) && f != old(active_table).mapper.root_of()
                    ==> read(final(active_table).mapper.mem(), f, j) == read(
                    old(active_table).mapper.mem(),
                    f,
                    j,
                ),
            forall|w: u64|
                page_canonical(w) && w != old(temporary_page).page.number && idx4(w) != 511
                    ==> #[trigger] crate::table::same_walk(
                    old(active_table).mapper.mem(),
                    final(active_table).mapper.mem(),
                    old(active_table).mapper.root_of(),
                    w,
                ),
            translate_page_spec(
                final(active_table).mapper.mem(),
                old(active_table).mapper.root_of(),
                old(temporary_page).page.number,
            ) is None,
            can_map(
                final(active_table).mapper.mem(),
                old(active_table).mapper.root_of(),
                old(temporary_page).page.number,
            ),
            tables_needed(
                final(active_table).mapper.mem(),
                old(active_table).mapper.root_of(),
                old(temporary_page).page.number,
            ) == 0,
            final(temporary_page).page == old(temporary_page).page,
            final(temporary_page).allocator.wf(),
            final(temporary_page).allocator.avail() < 3,
            !final(temporary_page).allocator.pool().contains(old(active_table).mapper.cr3_of()),
            forall|f: u64|
                #[trigger] final(temporary_page).allocator.pool().contains(f) ==> old(
                    temporary_page,
                ).allocator.pool().contains(f) || f == page.number,
            forall|f: u64|
                #[trigger] final(active_table).mapper.mem().contains_key(f) ==> old(
                    active_table,
                ).mapper.mem().contains_key(f) || old(temporary_page).allocator.pool().contains(f)
                    || f == page.number,
    {
        let ghost m0 = active_table.mapper.mem();
        let ghost root = active_table.mapper.root_of();
        let ghost tv = temporary_page.page.number;
        proof {
            active_table.mapper.lemma_cr3_is_p4();
            active_table.mapper.lemma_root_is_p4();
            assert(old(active_table).mapper.is_p4(root));
        }
        let _address = temporary_page.map(page, active_table);
        let ghost m1 = active_table.mapper.mem();
        proof {
            assert(!m1.contains_key(page.number));
        }
        active_table.mapper.install_p4(page.number);
        let ghost m2 = active_table.mapper.mem();
        proof {
            assert(same_walk(m1, m2, root, tv));
            assert(mapped_p1(m2, root, tv));
            let slotv = p1_slot(m2, root, tv);
            assert(slotv == (page.number << 12) | 2 | 1);
            let pn = page.number;
            crate::table::lemma_low_page_bits();
            assert(((pn << 12) | 2 | 1) == ((pn << 12) | 3));
            crate::entry::lemma_entry_build(page.number, 3);
            assert(crate::entry::entry_frame(slotv) == page.number);
            assert(temporary_page.allocator.avail() < 3);
            assert(!temporary_page.allocator.pool().contains(page.number));
            crate::temporary::lemma_tiny_dealloc_ok(temporary_page.allocator, page.number);
        }
        temporary_page.unmap(active_table);
        proof {
            let m3 = active_table.mapper.mem();
            assert(active_table.mapper.is_p4(page.number));
            assert(read(m3, page.number, 511) == (page.number << 12) | 3);
            assert forall|j: int| j != 511 implies read(m3, page.number, j) == 0 by {
                assert(read(m2, page.number, j) == 0);
            }
            assert forall|w: u64|
                page_canonical(w) && w != tv && idx4(w) != 511 implies #[trigger] same_walk(
                m0,
                m3,
                root,
                w,
            ) by {
                assert(same_walk(m0, m1, root, w));
                assert(same_walk(m1, m2, root, w));
                assert(same_walk(m2, m3, root, w));
            }
            assert forall|f: u64, j: int|
                old(active_table).mapper.is_p4(f) && f != root implies read(m3, f, j) == read(
                m0,
                f,
                j,
            ) by {
                old(active_table).mapper.lemma_is_p4_contains(f);
                assert(m0.contains_key(f));
                assert(f != page.number);
                assert(read(m1, f, j) == read(m0, f, j));
                assert(read(m2, f, j) == read(m1, f, j));
                assert(read(m3, f, j) == read(m2, f, j));
            }
        }
        InactivePageTable { p4: page }
    }
}

/// The physical extent of the kernel image: the smallest start address
/// and the largest end address over the allocated sections, or `None`
/// when no section is allocated.
pub fn kernel_extents(sections: &Vec<ElfSectionInfo>) -> (r: Option<(u64, u64)>)
    requires
        forall|k: int| 0 <= k < sections@.len() ==> sec_wf(#[trigger] sections@[k]),
    ensures
        match r {
            Some(extent) => {
                &&& exists|k: int|
                    0 <= k < sections@.len() && sec_allocated(#[trigger] sections@[k])
                &&& forall|k: int|
                    0 <= k < sections@.len() && sec_allocated(#[trigger] sections@[k])
                        ==> extent.0 <= sections@[k].start && sections@[k].start
                        + sections@[k].size <= extent.1
                &&& exists|k: int|
                    0 <= k < sections@.len() && sec_allocated(#[trigger] sections@[k])
                        && sections@[k].start == extent.0
                &&& exists|k: int|
                    0 <= k < sections@.len() && sec_allocated(#[trigger] sections@[k])
                        && sections@[k].start + sections@[k].size == extent.1
            },
            None => forall|k: int|
                0 <= k < sections@.len() ==> !sec_allocated(#[trigger] sections@[k]),
        },
{
    let n = sections.len();
    let mut extent: Option<(u64, u64)> = None;
    let mut k: usize = 0;
    while k < n
        invariant
            k <= n,
            n == sections@.len(),
            forall|j: int| 0 <= j < n ==> sec_wf(#[trigger] sections@[j]),
            match extent {
                Some(e) => {
                    &&& exists|j: int|
                        0 <= j < k && sec_allocated(#[trigger] sections@[j])
                    &&& forall|j: int|
                        0 <= j < k && sec_allocated(#[trigger] sections@[j]) ==> e.0
                            <= sections@[j].start && sections@[j].start + sections@[j].size <= e.1
                    &&& exists|j: int|
                        0 <= j < k && sec_allocated(#[trigger] sections@[j]) && sections@[j].start
                            == e.0
                    &&& exists|j: int|
                        0 <= j < k && sec_allocated(#[trigger] sections@[j]) && sections@[j].start
                            + sections@[j].size == e.1
                },
                None => forall|j: int|
                    0 <= j < k ==> !sec_allocated(#[trigger] sections@[j]),
            },
        decreases n - k,
    {
        let section = sections[k];
        if section.flags & 0x2 == 0x2 {
            proof {
                assert(sec_wf(sections@[k as int]));
            }
            let section_end = section.start + section.size;
            extent = match extent {
                None => Some((section.start, section_end)),
                Some(e) => Some(
                    (
                        if section.start < e.0 {
                            section.start
                        } else {
                            e.0
                        },
                        if section_end > e.1 {
                            section_end
                        } else {
                            e.1
                        },
                    ),
                ),
            };
        }
        k = k + 1;
    }
    extent
}

/// Identity map every frame in `first ..= last` with the given flags.
fn identity_map_range<A: Allocator>(
    active_table: &mut ActivePageTable,
    first: u64,
    last: u64,
    flags: EntryFlags,
    allocator: &mut A,
)
    requires
        old(active_table).mapper.wf(),
        first <= last,
        last < 0x100_0000,
        flags.wf(),
        flags.bits & 0x80 == 0,
        forall|q: u64|
            first <= q <= last ==> can_map(
                old(active_table).mapper.mem(),
                old(active_table).mapper.root_of(),
                q,
            ),
        old(allocator).wf(),
        old(allocator).avail() >= 3 * (last - first + 1),
        forall|f: u64|
            old(allocator).pool().contains(f) ==> !old(active_table).mapper.mem().contains_key(f),
    ensures
        final(active_table).mapper.wf(),
        final(active_table).mapper.cr3_of() == old(active_table).mapper.cr3_of(),
        final(active_table).mapper.root_of() == old(active_table).mapper.root_of(),
        forall|q: u64|
            first <= q <= last ==> mapped_p1(
                final(active_table).mapper.mem(),
                old(active_table).mapper.root_of(),
                q,
            ) && p1_slot(final(active_table).mapper.mem(), old(active_table).mapper.root_of(), q)
                == (q << 12) | flags.bits | 1 && translate_page_spec(
                final(active_table).mapper.mem(),
                old(active_table).mapper.root_of(),
                q,
            ) == Some(q as int),
        forall|w: u64|
            page_canonical(w) && idx4(w) != 511 && !(first <= w <= last) ==> #[trigger] same_walk(
                old(active_table).mapper.mem(),
                final(active_table).mapper.mem(),
                old(active_table).mapper.root_of(),
                w,
            ),
        crate::table::mem_extends(old(active_table).mapper.mem(), final(active_table).mapper.mem()),
        forall|f: u64|
            #[trigger] final(active_table).mapper.mem().contains_key(f) ==> old(
                active_table,
            ).mapper.mem().contains_key(f) || old(allocator).pool().contains(f),
        forall|f: u64|
            #[trigger] final(allocator).pool().contains(f)
                ==> !(final(active_table).mapper.mem().contains_key(f)),
        final(allocator).wf(),
        final(allocator).pool().subset_of(old(allocator).pool()),
        final(allocator).avail() + 3 * (last - first + 1) >= old(allocator).avail(),
        forall|f: u64|
            old(active_table).mapper.is_p4(f) ==> #[trigger] final(active_table).mapper.is_p4(f),
        forall|f: u64, j: int|
            old(active_table).mapper.is_p4(f) && f != old(active_table).mapper.root_of() ==> read(
                final(active_table).mapper.mem(),
                f,
                j,
            ) == read(old(active_table).mapper.mem(), f, j),
        forall|r2: u64, w: u64|
            old(active_table).mapper.is_p4(r2) && r2 != old(active_table).mapper.root_of()
                && page_canonical(w) && idx4(w) != 511 ==> #[trigger] same_walk(
                old(active_table).mapper.mem(),
                final(active_table).mapper.mem(),
                r2,
                w,
            ),
{
    let ghost m0 = active_table.mapper.mem();
    let ghost root = active_table.mapper.root_of();
    let ghost pool0 = allocator.pool();
    proof {
        assert(forall|q: u64| q < 0x100_0000 ==> #[trigger] ((q >> 27) & 0x1ff) == 0)
            by (bit_vector);
    }
    let mut p = first;
    while p <= last
        invariant
            active_table.mapper.wf(),
            active_table.mapper.cr3_of() == old(active_table).mapper.cr3_of(),
            active_table.mapper.root_of() == root,
            root == old(active_table).mapper.root_of(),
            m0 == old(active_table).mapper.mem(),
            pool0 == old(allocator).pool(),
            first <= p <= last + 1,
            last < 0x100_0000,
            flags.wf(),
            flags.bits & 0x80 == 0,
            forall|q: u64| first <= q <= last ==> can_map(m0, root, q),
            forall|q: u64|
                first <= q < p ==> mapped_p1(active_table.mapper.mem(), root, q) && p1_slot(
                    active_table.mapper.mem(),
                    root,
                    q,
                ) == (q << 12) | flags.bits | 1 && translate_page_spec(
                    active_table.mapper.mem(),
                    root,
                    q,
                ) == Some(q as int),
            forall|w: u64|
                page_canonical(w) && idx4(w) != 511 && !(first <= w < p) ==> #[trigger] same_walk(
                    m0,
                    active_table.mapper.mem(),
                    root,
                    w,
                ),
            crate::table::mem_extends(m0, active_table.mapper.mem()),
            forall|f: u64|
                #[trigger] active_table.mapper.mem().contains_key(f) ==> m0.contains_key(f)
                    || pool0.contains(f),
            forall|f: u64|
                #[trigger] allocator.pool().contains(f)
                    ==> !active_table.mapper.mem().contains_key(f),
            allocator.wf(),
            allocator.pool().subset_of(pool0),
            allocator.avail() + 3 * (p - first) >= old(allocator).avail(),
            old(allocator).avail() >= 3 * (last - first + 1),
            forall|f: u64|
                old(active_table).mapper.is_p4(f) ==> #[trigger] active_table.mapper.is_p4(f),
            forall|f: u64, j: int|
                old(active_table).mapper.is_p4(f) && f != root ==> read(
                    active_table.mapper.mem(),
                    f,
                    j,
                ) == read(m0, f, j),
            forall|r2: u64, w: u64|
                old(active_table).mapper.is_p4(r2) && r2 != root && page_canonical(w) && idx4(w)
                    != 511 ==> #[trigger] same_walk(m0, active_table.mapper.mem(), r2, w),
            forall|q: u64| q < 0x100_0000 ==> #[trigger] ((q >> 27) & 0x1ff) == 0,
        decreases last + 1 - p,
    {
        let ghost m_cur = active_table.mapper.mem();
        let ghost a_cur = *allocator;
        proof {
            assert(page_canonical(p) && idx4(p) == 0);
            assert(same_walk(m0, m_cur, root, p));
            assert(can_map(m_cur, root, p));
            assert(tables_needed(m_cur, root, p) <= 3);
            assert(allocator.avail() >= 3) by {
                assert(old(allocator).avail() >= 3 * (last - first + 1));
                assert(3 * (p - first) + 3 <= 3 * (last - first + 1));
            }
        }
        active_table.mapper.identity_map(PhysicalPage { number: p }, flags, allocator);
        proof {
            let m_new = active_table.mapper.mem();
            assert forall|q: u64| first <= q < p + 1 implies mapped_p1(m_new, root, q) && p1_slot(
                m_new,
                root,
                q,
            ) == (q << 12) | flags.bits | 1 && translate_page_spec(m_new, root, q) == Some(
                q as int,
            ) by {
                if q < p {
                    assert(same_walk(m_cur, m_new, root, q));
                }
            }
            assert forall|w: u64|
                page_canonical(w) && idx4(w) != 511 && !(first <= w < p + 1) implies #[trigger]
                same_walk(m0, m_new, root, w) by {
                assert(same_walk(m0, m_cur, root, w));
                assert(same_walk(m_cur, m_new, root, w));
            }
            assert forall|r2: u64, w: u64|
                old(active_table).mapper.is_p4(r2) && r2 != root && page_canonical(w) && idx4(w)
                    != 511 implies #[trigger] same_walk(m0, m_new, r2, w) by {
                assert(same_walk(m0, m_cur, r2, w));
                assert(same_walk(m_cur, m_new, r2, w));
            }
            assert forall|f: u64| #[trigger] allocator.pool().contains(f) implies !m_new.contains_key(
                f,
            ) by {
                assert(a_cur.pool().contains(f));
                assert(!m_cur.contains_key(f));
            }
        }
        p = p + 1;
    }
}

/// Rebuild the address space: identity map every allocated kernel section
/// with section-correct permissions, the VGA framebuffer, and the loader
/// information block into a fresh top-level table, switch to it, and turn
/// the page of the old top-level table into a guard page.
pub fn remap_kernel<A: Allocator>(
    allocator: &mut A,
    boot_info: &BootInfo,
    active_table: &mut ActivePageTable,
) -> (old_table: InactivePageTable)
    requires
        old(active_table).mapper.wf(),
        old(active_table).mapper.root_of() == old(active_table).mapper.cr3_of(),
        boot_wf(*boot_info),
        boot_covers(*boot_info, old(active_table).mapper.cr3_of() as int),
        crate::table::walk_e4(
            old(active_table).mapper.mem(),
            old(active_table).mapper.root_of(),
            0xcafebabe,
        ) == 0,
        old(allocator).wf(),
        old(allocator).avail() >= 4 + 3 * total_identity_pages(*boot_info),
        forall|f: u64|
            old(allocator).pool().contains(f) ==> !old(active_table).mapper.mem().contains_key(f),
        forall|a: A|
            #[trigger] a.dealloc_ok(PhysicalPage { number: old(active_table).mapper.cr3_of() }),
    ensures
        final(active_table).mapper.wf(),
        old_table.p4.number == old(active_table).mapper.cr3_of(),
        final(active_table).mapper.cr3_of() != old(active_table).mapper.cr3_of(),
        final(active_table).mapper.root_of() == final(active_table).mapper.cr3_of(),
        read(
            final(active_table).mapper.mem(),
            final(active_table).mapper.cr3_of(),
            511,
        ) == (final(active_table).mapper.cr3_of() << 12) | 3,
        forall|k: int, q: u64|
            0 <= k < boot_info.sections@.len() && #[trigger] sec_covers(
                boot_info.sections@[k],
                q as int,
            ) && q != old(active_table).mapper.cr3_of() ==> translate_page_spec(
                final(active_table).mapper.mem(),
                final(active_table).mapper.cr3_of(),
                q,
            ) == Some(q as int) && p1_slot(
                final(active_table).mapper.mem(),
                final(active_table).mapper.cr3_of(),
                q,
            ) == (q << 12) | crate::entry::elf_to_entry_bits(boot_info.sections@[k].flags) | 1,
        translate_page_spec(
            final(active_table).mapper.mem(),
            final(active_table).mapper.cr3_of(),
            VGA_FRAME,
        ) == Some(VGA_FRAME as int),
        p1_slot(final(active_table).mapper.mem(), final(active_table).mapper.cr3_of(), VGA_FRAME)
            == (VGA_FRAME << 12) | 2 | 1,
        forall|q: u64|
            #[trigger] mb_covers(*boot_info, q as int) ==> translate_page_spec(
                final(active_table).mapper.mem(),
                final(active_table).mapper.cr3_of(),
                q,
            ) == Some(q as int) && p1_slot(
                final(active_table).mapper.mem(),
                final(active_table).mapper.cr3_of(),
                q,
            ) == (q << 12) | 1 | 1,
        translate_page_spec(
            final(active_table).mapper.mem(),
            final(active_table).mapper.cr3_of(),
            old(active_table).mapper.cr3_of(),
        ) is None,
        forall|w: u64|
            page_canonical(w) && idx4(w) != 511 && !identity_target(*boot_info, w as int)
                ==> can_map(
                final(active_table).mapper.mem(),
                final(active_table).mapper.cr3_of(),
                w,
            ) && translate_page_spec(
                final(active_table).mapper.mem(),
                final(active_table).mapper.cr3_of(),
                w,
            ) is None,
        final(allocator).wf(),
        final(allocator).pool().subset_of(
            old(allocator).pool().insert(old(active_table).mapper.cr3_of()),
        ),
        forall|f: u64|
            #[trigger] final(allocator).pool().contains(f) && f != old(
                active_table,
            ).mapper.cr3_of() ==> !(final(active_table).mapper.mem().contains_key(f)),
{
    let ghost b = *boot_info;
    let ghost m0 = active_table.mapper.mem();
    let ghost cr30 = active_table.mapper.cr3_of();
    let ghost pool0 = allocator.pool();
    proof {
        lemma_secs_pages_nonneg(b.sections@, 0);
        vstd::arithmetic::div_mod::lemma_div_is_ordered(
            b.multiboot_start as int,
            b.multiboot_end - 1,
            4096,
        );
        vstd::arithmetic::div_mod::lemma_div_is_ordered(
            b.multiboot_end - 1,
            0x10_0000_0000 - 1,
            4096,
        );
        assert(mb_first(b) <= mb_last(b) < 0x100_0000);
        crate::table::lemma_low_page_bits();
        assert((0xcafebabeu64 >> 27) & 0x1ff != 511 && 0xcafebabeu64 < 0x8_0000_0000);
        active_table.mapper.lemma_cr3_is_p4();
    }
    let mut temporary_page = TemporaryPage::new(VirtualPage { number: 0xcafebabe }, allocator);
    let t_frame = match allocator.allocate() {
        Some(p) => p,
        None => {
            proof {
                assert(false);
            }
            PhysicalPage { number: 0 }
        },
    };
    let mut new_table = InactivePageTable::new(t_frame, active_table, &mut temporary_page);
    let ghost m_b = active_table.mapper.mem();
    let backup = PhysicalPage { number: active_table.mapper.cr3_frame() };
    let _backup_address = temporary_page.map(backup, active_table);
    let ghost m_c = active_table.mapper.mem();
    proof {
        assert(active_table.mapper.is_p4(t_frame.number));
    }
    active_table.mapper.set_recursive_slot(t_frame.number);
    let ghost m_s = active_table.mapper.mem();
    let ghost t = t_frame.number;
    proof {
        // the fresh top-level table is still empty but for its recursive slot
        assert forall|j: int| j != 511 implies read(m_s, t, j) == 0 by {
            assert(read(m_b, t, j) == 0);
            assert(read(m_c, t, j) == read(m_b, t, j));
            assert(read(m_s, t, j) == read(m_c, t, j));
        }
        assert forall|w: u64| page_canonical(w) && idx4(w) != 511 implies can_map(m_s, t, w)
            && translate_page_spec(m_s, t, w) is None by {
            crate::table::lemma_idx_bounds(w);
            assert(crate::table::walk_e4(m_s, t, w) == 0);
        }
        assert(read(m_s, t, 511) == (t << 12) | 3) by {
            assert(read(m_b, t, 511) == (t << 12) | 3);
            assert(read(m_c, t, 511) == read(m_b, t, 511));
        }
        assert(active_table.mapper.root_of() == t);
    }
    let ghost mapper_s = active_table.mapper;
    proof {
        assert(mapper_s.is_p4(t));
        assert(mapper_s.is_p4(cr30));
        crate::table::lemma_low_page_bits();
        crate::entry::lemma_entry_build(t, 3);
        assert(read(m_s, t, 511) != 0);
    }
    // map every allocated kernel section with section-correct permissions
    let n = boot_info.sections.len();
    let mut k: usize = 0;
    while k < n
        invariant
            active_table.mapper.wf(),
            active_table.mapper.cr3_of() == cr30,
            active_table.mapper.root_of() == t,
            n == b.sections@.len(),
            k <= n,
            *boot_info == b,
            boot_wf(b),
            t < 0x100_0000_0000,
            forall|j: int, q: u64|
                0 <= j < k && #[trigger] sec_covers(b.sections@[j], q as int) ==> mapped_p1(
                    active_table.mapper.mem(),
                    t,
                    q,
                ) && p1_slot(active_table.mapper.mem(), t, q) == (q << 12)
                    | crate::entry::elf_to_entry_bits(b.sections@[j].flags) | 1
                    && translate_page_spec(active_table.mapper.mem(), t, q) == Some(q as int),
            forall|w: u64|
                page_canonical(w) && idx4(w) != 511 && !boot_covers_upto(b, k as int, w as int)
                    ==> #[trigger] same_walk(m_s, active_table.mapper.mem(), t, w),
            forall|w: u64|
                page_canonical(w) && idx4(w) != 511 ==> can_map(m_s, t, w) && translate_page_spec(
                    m_s,
                    t,
                    w,
                ) is None,
            crate::table::mem_extends(m_s, active_table.mapper.mem()),
            allocator.wf(),
            allocator.pool().subset_of(pool0),
            allocator.avail() >= 3 * (secs_pages_from(b.sections@, k as int) + 1 + (mb_last(b)
                - mb_first(b) + 1)),
            forall|f: u64|
                #[trigger] allocator.pool().contains(f)
                    ==> !active_table.mapper.mem().contains_key(f),
            forall|f: u64| mapper_s.is_p4(f) ==> #[trigger] active_table.mapper.is_p4(f),
            forall|r2: u64, w: u64|
                mapper_s.is_p4(r2) && r2 != t && page_canonical(w) && idx4(w) != 511
                    ==> #[trigger] same_walk(m_s, active_table.mapper.mem(), r2, w),
            read(active_table.mapper.mem(), t, 511) == (t << 12) | 3,
        decreases n - k,
    {
        let ghost m_cur = active_table.mapper.mem();
        let ghost mapper_cur = active_table.mapper;
        let section = boot_info.sections[k];
        proof {
            assert(b.sections@[k as int] == section);
            assert(sec_wf(section));
            assert(secs_pages_from(b.sections@, k as int) == (if sec_allocated(section) {
                sec_last(section) - sec_first(section) + 1
            } else {
                0
            }) + secs_pages_from(b.sections@, k as int + 1));
            lemma_secs_pages_nonneg(b.sections@, k as int + 1);
        }
        if section.flags & 0x2 == 0x2 {
            let first = section.start / 4096;
            let last = (section.start + section.size - 1) / 4096;
            let flags = EntryFlags::from_elf_section_flags(section.flags);
            proof {
                lemma_sec_pages_nonneg(section);
                assert(first as int == sec_first(section) && last as int == sec_last(section));
                assert forall|q: u64| first <= q <= last implies can_map(m_cur, t, q) by {
                    assert(q < 0x100_0000);
                    crate::table::lemma_low_page_bits();
                    assert(page_canonical(q) && idx4(q) != 511);
                    assert(!boot_covers_upto(b, k as int, q as int)) by {
                        if boot_covers_upto(b, k as int, q as int) {
                            let j = choose|j: int|
                                0 <= j < k && j < b.sections@.len() && sec_covers(
                                    #[trigger] b.sections@[j],
                                    q as int,
                                );
                            assert(sec_covers(b.sections@[j], q as int) && sec_covers(
                                b.sections@[k as int],
                                q as int,
                            ));
                            assert(false);
                        }
                    }
                    assert(same_walk(m_s, m_cur, t, q));
                    assert(can_map(m_s, t, q));
                }
            }
            identity_map_range(active_table, first, last, flags, allocator);
            proof {
                let m_new = active_table.mapper.mem();
                assert forall|j: int, q: u64|
                    0 <= j < k + 1 && #[trigger] sec_covers(b.sections@[j], q as int) implies
                    mapped_p1(m_new, t, q) && p1_slot(m_new, t, q) == (q << 12)
                        | crate::entry::elf_to_entry_bits(b.sections@[j].flags) | 1
                        && translate_page_spec(m_new, t, q) == Some(q as int) by {
                    if j < k {
                        crate::table::lemma_low_page_bits();
                        assert(page_canonical(q) && idx4(q) != 511);
                        assert(!(first <= q <= last)) by {
                            assert(sec_covers(b.sections@[j], q as int));
                        }
                        assert(same_walk(m_cur, m_new, t, q));
                    }
                }
                assert forall|w: u64|
                    page_canonical(w) && idx4(w) != 511 && !boot_covers_upto(
                        b,
                        k as int + 1,
                        w as int,
                    ) implies #[trigger] same_walk(m_s, m_new, t, w) by {
                    assert(!boot_covers_upto(b, k as int, w as int));
                    assert(same_walk(m_s, m_cur, t, w));
                    assert(!(first <= w <= last)) by {
                        if first <= w <= last {
                            assert(sec_covers(b.sections@[k as int], w as int));
                            assert(boot_covers_upto(b, k as int + 1, w as int));
                        }
                    }
                    assert(same_walk(m_cur, m_new, t, w));
                }
                assert forall|r2: u64, w: u64|
                    mapper_s.is_p4(r2) && r2 != t && page_canonical(w) && idx4(w) != 511 implies
                    #[trigger] same_walk(m_s, m_new, r2, w) by {
                    assert(mapper_cur.is_p4(r2));
                    assert(same_walk(m_s, m_cur, r2, w));
                    assert(same_walk(m_cur, m_new, r2, w));
                }
                assert(read(m_new, t, 511) == (t << 12) | 3) by {
                    crate::table::lemma_low_page_bits();
                    crate::entry::lemma_entry_build(t, 3);
                    assert(read(m_cur, t, 511) == (t << 12) | 3 && read(m_cur, t, 511) != 0);
                }
            }
        } else {
            proof {
                assert forall|w: u64|
                    page_canonical(w) && idx4(w) != 511 && !boot_covers_upto(
                        b,
                        k as int + 1,
                        w as int,
                    ) implies #[trigger] same_walk(m_s, active_table.mapper.mem(), t, w) by {
                    assert(!boot_covers_upto(b, k as int, w as int)) by {
                        if boot_covers_upto(b, k as int, w as int) {
                            let j = choose|j: int|
                                0 <= j < k && j < b.sections@.len() && sec_covers(
                                    #[trigger] b.sections@[j],
                                    w as int,
                                );
                            assert(boot_covers_upto(b, k as int + 1, w as int));
                        }
                    }
                }
                assert forall|j: int, q: u64|
                    0 <= j < k + 1 && #[trigger] sec_covers(b.sections@[j], q as int) implies
                    mapped_p1(active_table.mapper.mem(), t, q) && p1_slot(
                    active_table.mapper.mem(),
                    t,
                    q,
                ) == (q << 12) | crate::entry::elf_to_entry_bits(b.sections@[j].flags) | 1
                    && translate_page_spec(active_table.mapper.mem(), t, q) == Some(q as int) by {
                    assert(j < k);
                }
            }
        }
        k = k + 1;
    }
    let ghost m_k = active_table.mapper.mem();
    let ghost mapper_k = active_table.mapper;
    // identity map the VGA framebuffer, writable
    let vga_flags = EntryFlags::from_bits_truncate(2);
    proof {
        crate::table::lemma_low_page_bits();
        assert((0xb8u64 >> 27) & 0x1ff == 0);
        assert(!boot_covers_upto(b, n as int, VGA_FRAME as int)) by {
            if boot_covers_upto(b, n as int, VGA_FRAME as int) {
                let j = choose|j: int|
                    0 <= j < n && j < b.sections@.len() && sec_covers(
                        #[trigger] b.sections@[j],
                        VGA_FRAME as int,
                    );
                assert(false);
            }
        }
        assert(same_walk(m_s, m_k, t, VGA_FRAME));
        lemma_secs_pages_nonneg(b.sections@, n as int);
        assert(secs_pages_from(b.sections@, n as int) == 0);
    }
    identity_map_range(active_table, VGA_FRAME, VGA_FRAME, vga_flags, allocator);
    let ghost m_v = active_table.mapper.mem();
    let ghost mapper_v = active_table.mapper;
    // identity map the loader information block, present only
    let mb_first_frame = boot_info.multiboot_start / 4096;
    let mb_last_frame = (boot_info.multiboot_end - 1) / 4096;
    let mb_flags = EntryFlags::from_bits_truncate(1);
    proof {
        crate::table::lemma_low_page_bits();
        assert(mb_first_frame as int == mb_first(b) && mb_last_frame as int == mb_last(b));
        assert forall|q: u64| mb_first_frame <= q <= mb_last_frame implies can_map(m_v, t, q) by {
            assert(q < 0x100_0000);
            crate::table::lemma_low_page_bits();
            assert(!boot_covers_upto(b, n as int, q as int)) by {
                if boot_covers_upto(b, n as int, q as int) {
                    let j = choose|j: int|
                        0 <= j < n && j < b.sections@.len() && sec_covers(
                            #[trigger] b.sections@[j],
                            q as int,
                        );
                    assert(false);
                }
            }
            assert(same_walk(m_s, m_k, t, q));
            assert(!(VGA_FRAME <= q <= VGA_FRAME));
            assert(same_walk(m_k, m_v, t, q));
        }
    }
    identity_map_range(active_table, mb_first_frame, mb_last_frame, mb_flags, allocator);
    let ghost m_m = active_table.mapper.mem();
    let ghost mapper_m = active_table.mapper;
    // leave the editing scope: restore the recursive slot and drop the
    // temporary mapping of the old top-level table
    proof {
        assert(active_table.mapper.is_p4(backup.number));
    }
    active_table.mapper.set_recursive_slot(backup.number);
    let ghost m_r = active_table.mapper.mem();
    let ghost mapper_r = active_table.mapper;
    proof {
        // the temporary mapping, rooted at the old table, survived the scope
        assert(active_table.mapper.root_of() == backup.number);
        assert(backup.number == cr30);
        assert((0xcafebabeu64 >> 27) & 0x1ff != 511 && 0xcafebabeu64 < 0x8_0000_0000)
            by (bit_vector);
        assert(mapped_p1(m_c, cr30, 0xcafebabe));
        assert(same_walk(m_c, m_s, cr30, 0xcafebabe));
        assert(mapper_s.is_p4(cr30) && cr30 != t);
        assert(same_walk(m_s, m_k, cr30, 0xcafebabe));
        assert(mapper_k.is_p4(cr30));
        assert(same_walk(m_k, m_v, cr30, 0xcafebabe));
        assert(mapper_v.is_p4(cr30));
        assert(same_walk(m_v, m_m, cr30, 0xcafebabe));
        assert(mapper_m.is_p4(cr30));
        assert(same_walk(m_m, m_r, cr30, 0xcafebabe));
        assert(mapped_p1(m_r, cr30, 0xcafebabe));
        let slotv = p1_slot(m_r, cr30, 0xcafebabe);
        assert(slotv == (backup.number << 12) | 2 | 1);
        let pn = backup.number;
        crate::table::lemma_low_page_bits();
        assert(((pn << 12) | 2 | 1) == ((pn << 12) | 3));
        crate::entry::lemma_entry_build(backup.number, 3);
        assert(crate::entry::entry_frame(slotv) == backup.number);
        assert(temporary_page.allocator.avail() < 3);
        assert(!temporary_page.allocator.pool().contains(backup.number));
        crate::temporary::lemma_tiny_dealloc_ok(temporary_page.allocator, backup.number);
    }
    temporary_page.unmap(active_table);
    let ghost m_u = active_table.mapper.mem();
    proof {
        // the new table still names itself in its recursive slot
        crate::table::lemma_low_page_bits();
        crate::entry::lemma_entry_build(t, 3);
        assert(read(m_u, t, 511) == (t << 12) | 3) by {
            assert(read(m_k, t, 511) == (t << 12) | 3);
            assert(read(m_k, t, 511) != 0);
            assert(read(m_v, t, 511) == read(m_k, t, 511));
            assert(read(m_v, t, 511) != 0);
            assert(read(m_m, t, 511) == read(m_v, t, 511));
            assert(t != cr30);
            assert(read(m_r, t, 511) == read(m_m, t, 511));
            assert(mapper_r.is_p4(t));
            assert(read(m_u, t, 511) == read(m_r, t, 511));
        }
        assert(active_table.mapper.is_p4(t));
    }
    let old_table = active_table.switch(new_table);
    proof {
        assert(active_table.mapper.cr3_of() == t);
        assert(active_table.mapper.root_of() == t);
        assert(old_table.p4.number == cr30);
    }
    // the page that held the old top-level table becomes a guard page
    let old_p4_page = VirtualPage::containing_address(backup.start_address());
    proof {
        let pn = backup.number;
        assert(boot_covers(b, pn as int));
        let kc = choose|kc: int|
            0 <= kc < b.sections@.len() && sec_covers(#[trigger] b.sections@[kc], pn as int);
        lemma_sec_pages_nonneg(b.sections@[kc]);
        assert(pn < 0x100_0000);
        crate::table::lemma_low_page_bits();
        assert((pn >> 27) & 0x1ff == 0 && (pn * 4096) / 4096 == pn && pn * 4096
            < 0x8000_0000_0000);
        assert(old_p4_page.number == pn);
        // it was identity mapped as part of its section, and every later
        // step preserved that walk
        assert(mapped_p1(m_k, t, pn)) by {
            assert(sec_covers(b.sections@[kc], pn as int));
        }
        assert(pn != VGA_FRAME) by {
            assert(!sec_covers(b.sections@[kc], VGA_FRAME as int));
        }
        assert(same_walk(m_k, m_v, t, pn));
        assert(!(mb_first(b) <= pn as int <= mb_last(b)));
        assert(same_walk(m_v, m_m, t, pn));
        assert(mapped_p1(m_m, t, pn));
        assert(mapper_m.is_p4(t));
        assert(same_walk(m_m, m_r, t, pn));
        assert(mapper_r.is_p4(t) && t != cr30);
        assert(same_walk(m_r, m_u, t, pn));
        assert(mapped_p1(m_u, t, pn));
    }
    active_table.mapper.unmap(old_p4_page, allocator);
    proof {
        let m_f = active_table.mapper.mem();
        let pn = backup.number;
        // final shape of the address space
        assert forall|kk: int, q: u64|
            0 <= kk < b.sections@.len() && #[trigger] sec_covers(b.sections@[kk], q as int) && q
                != cr30 implies translate_page_spec(m_f, t, q) == Some(q as int) && p1_slot(
            m_f,
            t,
            q,
        ) == (q << 12) | crate::entry::elf_to_entry_bits(b.sections@[kk].flags) | 1 by {
            lemma_sec_pages_nonneg(b.sections@[kk]);
            assert(q < 0x100_0000);
            crate::table::lemma_low_page_bits();
            assert(page_canonical(q) && idx4(q) != 511);
            assert(mapped_p1(m_k, t, q));
            assert(q != VGA_FRAME) by {
                assert(!sec_covers(b.sections@[kk], VGA_FRAME as int));
            }
            assert(same_walk(m_k, m_v, t, q));
            assert(!(mb_first(b) <= q as int <= mb_last(b))) by {
                assert(sec_last(b.sections@[kk]) < mb_first(b) || mb_last(b) < sec_first(
                    b.sections@[kk],
                ));
            }
            assert(same_walk(m_v, m_m, t, q));
            assert(mapped_p1(m_m, t, q) && translate_page_spec(m_m, t, q) == Some(q as int));
            assert(mapper_m.is_p4(t));
            assert(same_walk(m_m, m_r, t, q));
            assert(mapper_r.is_p4(t) && t != cr30);
            assert(same_walk(m_r, m_u, t, q));
            assert(q != old_p4_page.number);
            assert(same_walk(m_u, m_f, t, q));
        }
        assert(translate_page_spec(m_f, t, VGA_FRAME) == Some(VGA_FRAME as int) && p1_slot(
            m_f,
            t,
            VGA_FRAME,
        ) == (VGA_FRAME << 12) | 2 | 1) by {
            crate::table::lemma_low_page_bits();
            assert((0xb8u64 >> 27) & 0x1ff == 0);
            assert(page_canonical(VGA_FRAME) && idx4(VGA_FRAME) != 511);
            assert(mapped_p1(m_v, t, VGA_FRAME));
            assert(!(mb_first(b) <= VGA_FRAME <= mb_last(b)));
            assert(same_walk(m_v, m_m, t, VGA_FRAME));
            assert(mapper_m.is_p4(t));
            assert(same_walk(m_m, m_r, t, VGA_FRAME));
            assert(mapper_r.is_p4(t) && t != cr30);
            assert(same_walk(m_r, m_u, t, VGA_FRAME));
            assert(VGA_FRAME != pn) by {
                let kc2 = choose|kc2: int|
                    0 <= kc2 < b.sections@.len() && sec_covers(
                        #[trigger] b.sections@[kc2],
                        pn as int,
                    );
                assert(!sec_covers(b.sections@[kc2], VGA_FRAME as int));
            }
            assert(same_walk(m_u, m_f, t, VGA_FRAME));
        }
        assert forall|q: u64| #[trigger] mb_covers(b, q as int) implies translate_page_spec(
            m_f,
            t,
            q,
        ) == Some(q as int) && p1_slot(m_f, t, q) == (q << 12) | 1 | 1 by {
            assert(mb_first(b) <= q <= mb_last(b));
            assert(q < 0x100_0000);
            crate::table::lemma_low_page_bits();
            assert(page_canonical(q) && idx4(q) != 511);
            assert(mapped_p1(m_m, t, q));
            assert(mapper_m.is_p4(t));
            assert(same_walk(m_m, m_r, t, q));
            assert(mapper_r.is_p4(t) && t != cr30);
            assert(same_walk(m_r, m_u, t, q));
            assert(q != pn) by {
                let kc2 = choose|kc2: int|
                    0 <= kc2 < b.sections@.len() && sec_covers(
                        #[trigger] b.sections@[kc2],
                        pn as int,
                    );
                assert(sec_last(b.sections@[kc2]) < mb_first(b) || mb_last(b) < sec_first(
                    b.sections@[kc2],
                ));
            }
            assert(same_walk(m_u, m_f, t, q));
        }
        assert forall|q: u64|
            #[trigger] mb_covers(*boot_info, q as int) implies translate_page_spec(
            active_table.mapper.mem(),
            active_table.mapper.cr3_of(),
            q,
        ) == Some(q as int) && p1_slot(
            active_table.mapper.mem(),
            active_table.mapper.cr3_of(),
            q,
        ) == (q << 12) | 1 | 1 by {
            assert(mb_covers(b, q as int));
            assert(p1_slot(m_f, t, q) == (q << 12) | 1 | 1);
            assert(translate_page_spec(m_f, t, q) == Some(q as int));
            assert(active_table.mapper.cr3_of() == t);
            assert(active_table.mapper.mem() == m_f);
        }
        assert forall|w: u64|
            page_canonical(w) && idx4(w) != 511 && !identity_target(b, w as int) implies can_map(
            m_f,
            t,
            w,
        ) && translate_page_spec(m_f, t, w) is None by {
            assert(can_map(m_s, t, w) && translate_page_spec(m_s, t, w) is None);
            assert(!boot_covers_upto(b, n as int, w as int)) by {
                if boot_covers_upto(b, n as int, w as int) {
                    let j = choose|j: int|
                        0 <= j < n && j < b.sections@.len() && sec_covers(
                            #[trigger] b.sections@[j],
                            w as int,
                        );
                    assert(boot_covers(b, w as int));
                    assert(false);
                }
            }
            assert(same_walk(m_s, m_k, t, w));
            assert(w != VGA_FRAME);
            assert(same_walk(m_k, m_v, t, w));
            assert(!(mb_first(b) <= w as int <= mb_last(b)));
            assert(same_walk(m_v, m_m, t, w));
            assert(same_walk(m_m, m_r, t, w));
            assert(same_walk(m_r, m_u, t, w));
            if w != pn {
                assert(same_walk(m_u, m_f, t, w));
            } else {
                assert(can_map(m_f, t, w));
                assert(translate_page_spec(m_f, t, w) is None);
            }
        }
        assert(translate_page_spec(m_f, t, cr30) is None);
    }
    old_table
}

} // verus!
