//! The boot-time frame provider: hands out frames from the loader's
//! memory map, skipping the kernel image and the loader information
//! block, in strictly increasing order.

use vstd::prelude::*;
use crate::memory::{Allocator, PhysicalPage, MAX_FRAME};

verus! {

/// One usable physical memory area from the loader's memory map.
#[derive(Clone, Copy, PartialEq, Eq, Structural, Debug)]
pub struct MemoryArea {
    pub start: u64,
    pub size: u64,
}

/// The area is non-empty and small enough that frame arithmetic cannot
/// overflow.
pub open spec fn area_wf(a: MemoryArea) -> bool {
    1 <= a.size && a.start + a.size <= 0x4_0000_0000_0000
}

/// First frame of the area.
pub open spec fn area_first(a: MemoryArea) -> int {
    a.start as int / 4096
}

/// Last frame of the area.
pub open spec fn area_last(a: MemoryArea) -> int {
    (a.start + a.size - 1) / 4096
}

/// One past the largest frame of any area.
pub open spec fn areas_bound(s: Seq<MemoryArea>) -> int
    decreases s.len(),
{
    if s.len() == 0 {
        0
    } else {
        let b = areas_bound(s.drop_last());
        if area_last(s.last()) + 1 > b {
            area_last(s.last()) + 1
        } else {
            b
        }
    }
}

proof fn lemma_last_lt_bound(s: Seq<MemoryArea>, k: int)
    requires
        0 <= k < s.len(),
    ensures
        area_last(s[k]) < areas_bound(s),
        areas_bound(s) >= 0,
    decreases s.len(),
{
    if k == s.len() - 1 {
        if s.len() > 1 {
            lemma_last_lt_bound(s.drop_last(), 0);
        }
    } else {
        lemma_last_lt_bound(s.drop_last(), k);
    }
}

proof fn lemma_bound_nonneg(s: Seq<MemoryArea>)
    ensures
        areas_bound(s) >= 0,
    decreases s.len(),
{
    if s.len() > 0 {
        lemma_bound_nonneg(s.drop_last());
    }
}

/// Walks the loader's memory areas with a strictly advancing cursor,
/// never returning a frame of the kernel image or of the loader
/// information block.
pub struct AreaAllocator {
    next_free: PhysicalPage,
    current_area: Option<MemoryArea>,
    areas: Vec<MemoryArea>,
    kernel_start: PhysicalPage,
    kernel_end: PhysicalPage,
    multiboot_start: PhysicalPage,
    multiboot_end: PhysicalPage,
}

impl AreaAllocator {
    /// The loader-reported areas.
    pub closed spec fn areas_view(self) -> Seq<MemoryArea> {
        self.areas@
    }

    /// The cursor: every frame returned from now on is at least this.
    pub closed spec fn cursor(self) -> int {
        self.next_free.number as int
    }

    /// First frame of the kernel image.
    pub closed spec fn kernel_first(self) -> int {
        self.kernel_start.number as int
    }

    /// Last frame of the kernel image.
    pub closed spec fn kernel_last(self) -> int {
        self.kernel_end.number as int
    }

    /// First frame of the loader information block.
    pub closed spec fn mb_first(self) -> int {
        self.multiboot_start.number as int
    }

    /// Last frame of the loader information block.
    pub closed spec fn mb_last(self) -> int {
        self.multiboot_end.number as int
    }

    /// Frame `f` lies in some loader-reported area.
    pub open spec fn in_some_area(self, f: int) -> bool {
        exists|k: int|
            0 <= k < self.areas_view().len() && area_first(#[trigger] self.areas_view()[k]) <= f
                <= area_last(self.areas_view()[k])
    }

    /// Frame `f` belongs to the kernel image or the loader block.
    pub open spec fn forbidden(self, f: int) -> bool {
        (self.kernel_first() <= f <= self.kernel_last()) || (self.mb_first() <= f
            <= self.mb_last())
    }

    /// Frame `f` may be handed out: usable and not forbidden.
    pub open spec fn eligible(self, f: int) -> bool {
        self.in_some_area(f) && !self.forbidden(f)
    }

    /// One past the largest usable frame.
    pub closed spec fn bound(self) -> int {
        areas_bound(self.areas@)
    }

    /// Number of eligible frames at or above `f`.
    pub closed spec fn count_from(self, f: int) -> nat
        decreases self.bound() - f,
    {
        if f >= self.bound() {
            0
        } else {
            self.count_from(f + 1) + (if self.eligible(f) {
                1nat
            } else {
                0nat
            })
        }
    }

    /// Fixed configuration shared by two allocator states.
    pub open spec fn same_config(self, other: AreaAllocator) -> bool {
        &&& self.areas_view() == other.areas_view()
        &&& self.kernel_first() == other.kernel_first()
        &&& self.kernel_last() == other.kernel_last()
        &&& self.mb_first() == other.mb_first()
        &&& self.mb_last() == other.mb_last()
    }

    pub closed spec fn base_inv(self) -> bool {
        &&& forall|k: int| 0 <= k < self.areas@.len() ==> area_wf(#[trigger] self.areas@[k])
        &&& self.next_free.number < MAX_FRAME
        &&& self.kernel_end.number < 0x40_0000_0000
        &&& self.multiboot_end.number < 0x40_0000_0000
    }

    pub closed spec fn inv(self) -> bool {
        &&& self.base_inv()
        &&& match self.current_area {
            Some(a) => {
                &&& self.areas@.contains(a)
                &&& self.cursor() >= area_first(a)
            },
            None => forall|k: int|
                0 <= k < self.areas@.len() ==> area_last(#[trigger] self.areas@[k])
                    < self.cursor(),
        }
    }

    proof fn lemma_beyond_bound(self, f: int)
        requires
            f >= self.bound(),
        ensures
            !self.in_some_area(f),
    {
        if self.in_some_area(f) {
            let k = choose|k: int|
                0 <= k < self.areas_view().len() && area_first(#[trigger] self.areas_view()[k])
                    <= f <= area_last(self.areas_view()[k]);
            lemma_last_lt_bound(self.areas@, k);
        }
    }

    proof fn lemma_count_zero(self, f: int)
        requires
            forall|g: int| g >= f ==> !self.eligible(g),
        ensures
            self.count_from(f) == 0,
        decreases self.bound() - f,
    {
        if f < self.bound() {
            self.lemma_count_zero(f + 1);
        }
    }

    proof fn lemma_count_skip(self, a: int, b: int)
        requires
            a <= b,
            forall|g: int| a <= g < b ==> !self.eligible(g),
        ensures
            self.count_from(a) == self.count_from(b),
        decreases b - a,
    {
        if a < b {
            if a >= self.bound() {
                lemma_bound_nonneg(self.areas@);
                assert forall|g: int| g >= a implies !self.eligible(g) by {
                    self.lemma_beyond_bound(g);
                }
                self.lemma_count_zero(a);
                self.lemma_count_zero(b);
            } else {
                self.lemma_count_skip(a + 1, b);
            }
        }
    }

    proof fn lemma_count_here(self, f: int)
        requires
            self.eligible(f),
        ensures
            self.count_from(f) == self.count_from(f + 1) + 1,
    {
        let k = choose|k: int|
            0 <= k < self.areas_view().len() && area_first(#[trigger] self.areas_view()[k]) <= f
                <= area_last(self.areas_view()[k]);
        lemma_last_lt_bound(self.areas@, k);
    }

    proof fn lemma_count_monotone(self, a: int, b: int)
        requires
            a <= b,
        ensures
            self.count_from(a) >= self.count_from(b),
        decreases b - a,
    {
        if a < b {
            self.lemma_count_monotone(a + 1, b);
        }
    }

    proof fn lemma_count_run(self, lo: int, hi: int)
        requires
            lo <= hi,
            forall|g: int| lo <= g < hi ==> self.eligible(g),
        ensures
            self.count_from(lo) >= hi - lo,
        decreases hi - lo,
    {
        if lo < hi {
            self.lemma_count_here(lo);
            self.lemma_count_run(lo + 1, hi);
        }
    }

    /// A frame returned by `allocate` is the least eligible frame of the
    /// whole map: combining `new`'s start-state clause with `allocate`'s
    /// no-skip clause, nothing eligible lies below it.
    pub proof fn lemma_returned_is_least(self, p: u64)
        requires
            forall|g: int| 0 <= g < self.cursor() ==> !self.in_some_area(g),
            self.eligible(p as int),
            p as int >= self.cursor(),
            forall|g: int| self.cursor() <= g < p ==> !self.eligible(g),
        ensures
            forall|g: int| 0 <= g < p ==> !self.eligible(g),
    {
    }

    /// The provider owes at least as many allocations as any contiguous
    /// run of eligible frames at or beyond the cursor is long: with this,
    /// callers can discharge the `avail()` preconditions of the mapping
    /// routines from the memory map's geometry alone.
    pub proof fn lemma_avail_lower_bound(self, lo: int, hi: int)
        requires
            self.cursor() <= lo <= hi,
            forall|g: int| lo <= g < hi ==> self.eligible(g),
        ensures
            self.avail() >= hi - lo,
    {
        self.lemma_count_monotone(self.cursor(), lo);
        self.lemma_count_run(lo, hi);
    }

    /// Two states with the same configuration count the same frames.
    proof fn lemma_count_config(self, other: AreaAllocator, f: int)
        requires
            self.same_config(other),
        ensures
            self.count_from(f) == other.count_from(f),
        decreases self.bound() - f,
    {
        assert(self.bound() == other.bound());
        assert(forall|g: int| self.eligible(g) == other.eligible(g));
        if f < self.bound() {
            self.lemma_count_config(other, f + 1);
        }
    }

    /// Select the area with the smallest start address whose last frame
    /// is not below the cursor, snapping the cursor up to its first
    /// frame.
    fn choose_next_area(&mut self)
        requires
            old(self).base_inv(),
        ensures
            final(self).inv(),
            final(self).same_config(*old(self)),
            final(self).cursor() >= old(self).cursor(),
            forall|g: int|
                old(self).cursor() <= g < final(self).cursor() ==> !old(self).in_some_area(g),
            match final(self).spec_current() {
                Some(a) => {
                    &&& old(self).areas_view().contains(a)
                    &&& area_last(a) >= final(self).cursor()
                    &&& area_last(a) >= old(self).cursor()
                },
                None => {
                    &&& final(self).cursor() == old(self).cursor()
                    &&& forall|k: int|
                        0 <= k < old(self).areas_view().len() ==> area_last(
                            #[trigger] old(self).areas_view()[k],
                        ) < old(self).cursor()
                },
            },
    {
        let nf = self.next_free.number;
        let n = self.areas.len();
        let mut best: Option<MemoryArea> = None;
        let mut k: usize = 0;
        while k < n
            invariant
                self.base_inv(),
                *self == *old(self),
                nf == self.next_free.number,
                n == self.areas@.len(),
                k <= n,
                match best {
                    None => forall|j: int|
                        0 <= j < k ==> area_last(#[trigger] self.areas@[j]) < nf,
                    Some(b) => {
                        &&& self.areas@.contains(b)
                        &&& area_last(b) >= nf
                        &&& forall|j: int|
                            0 <= j < k && area_last(#[trigger] self.areas@[j]) >= nf ==> b.start
                                <= self.areas@[j].start
                    },
                },
            decreases n - k,
        {
            let a = self.areas[k];
            proof {
                assert(area_wf(a));
            }
            let a_last = (a.start + a.size - 1) / 4096;
            if a_last >= nf {
                match best {
                    None => {
                        best = Some(a);
                        proof {
                            assert(self.areas@.contains(a)) by {
                                assert(self.areas@[k as int] == a);
                            }
                        }
                    },
                    Some(b) => {
                        if a.start < b.start {
                            best = Some(a);
                            proof {
                                assert(self.areas@.contains(a)) by {
                                    assert(self.areas@[k as int] == a);
                                }
                            }
                        }
                    },
                }
            }
            k = k + 1;
        }
        self.current_area = best;
        match best {
            Some(a) => {
                let first = a.start / 4096;
                proof {
                    let jw = choose|jw: int|
                        0 <= jw < self.areas@.len() && self.areas@[jw] == a;
                    assert(area_wf(a));
                    vstd::arithmetic::div_mod::lemma_div_is_ordered(
                        a.start as int,
                        a.start + a.size - 1,
                        4096,
                    );
                    assert(area_first(a) <= area_last(a));
                }
                if self.next_free.number < first {
                    self.next_free = PhysicalPage { number: first };
                }
                proof {
                    assert(self.next_free.number < MAX_FRAME) by {
                        let jw = choose|jw: int|
                            0 <= jw < self.areas@.len() && self.areas@[jw] == a;
                        vstd::arithmetic::div_mod::lemma_div_is_ordered(
                            a.start as int,
                            0x4_0000_0000_0000 - 1,
                            4096,
                        );
                    }
                    assert forall|g: int|
                        old(self).cursor() <= g < self.cursor() implies !old(
                        self,
                    ).in_some_area(g) by {
                        if old(self).in_some_area(g) {
                            let j = choose|j: int|
                                0 <= j < old(self).areas_view().len() && area_first(
                                    #[trigger] old(self).areas_view()[j],
                                ) <= g <= area_last(old(self).areas_view()[j]);
                            assert(area_last(self.areas@[j]) >= nf);
                            assert(a.start <= self.areas@[j].start);
                            vstd::arithmetic::div_mod::lemma_div_is_ordered(
                                a.start as int,
                                self.areas@[j].start as int,
                                4096,
                            );
                            assert(area_first(self.areas@[j]) >= area_first(a));
                            assert(false);
                        }
                    }
                }
            },
            None => {
            },
        }
    }

    /// The area the cursor currently walks.
    pub closed spec fn spec_current(self) -> Option<MemoryArea> {
        self.current_area
    }

    /// What the abstract pool means for this provider: exactly the
    /// eligible frames at or beyond the cursor.
    pub proof fn lemma_pool_meaning(self, f: u64)
        ensures
            self.pool().contains(f) == (self.eligible(f as int) && f as int >= self.cursor()),
    {
    }

    /// Build the provider from the kernel and loader extents (given as
    /// physical addresses) and the loader's memory areas.
    pub fn new(
        kernel_start: u64,
        kernel_end: u64,
        multiboot_start: u64,
        multiboot_end: u64,
        memory_areas: Vec<MemoryArea>,
    ) -> (r: AreaAllocator)
        requires
            forall|k: int| 0 <= k < memory_areas@.len() ==> area_wf(#[trigger] memory_areas@[k]),
            kernel_end < 0x4_0000_0000_0000,
            multiboot_end < 0x4_0000_0000_0000,
        ensures
            r.inv(),
            r.wf(),
            r.areas_view() == memory_areas@,
            r.kernel_first() == kernel_start as int / 4096,
            r.kernel_last() == kernel_end as int / 4096,
            r.mb_first() == multiboot_start as int / 4096,
            r.mb_last() == multiboot_end as int / 4096,
            r.cursor() >= 0,
            forall|g: int| 0 <= g < r.cursor() ==> !r.in_some_area(g),
    {
        let mut allocator = AreaAllocator {
            next_free: PhysicalPage::containing_address(0),
            current_area: None,
            areas: memory_areas,
            kernel_start: PhysicalPage::containing_address(kernel_start),
            kernel_end: PhysicalPage::containing_address(kernel_end),
            multiboot_start: PhysicalPage::containing_address(multiboot_start),
            multiboot_end: PhysicalPage::containing_address(multiboot_end),
        };
        proof {
            assert(allocator.kernel_end.number < 0x40_0000_0000) by {
                vstd::arithmetic::div_mod::lemma_div_is_ordered(
                    kernel_end as int,
                    0x4_0000_0000_0000 - 1,
                    4096,
                );
            }
            assert(allocator.multiboot_end.number < 0x40_0000_0000) by {
                vstd::arithmetic::div_mod::lemma_div_is_ordered(
                    multiboot_end as int,
                    0x4_0000_0000_0000 - 1,
                    4096,
                );
            }
        }
        let ghost fresh = allocator;
        allocator.choose_next_area();
        proof {
            assert forall|g: int| 0 <= g < allocator.cursor() implies !allocator.in_some_area(
                g,
            ) by {
                if allocator.in_some_area(g) {
                    let j = choose|j: int|
                        0 <= j < allocator.areas_view().len() && area_first(
                            #[trigger] allocator.areas_view()[j],
                        ) <= g <= area_last(allocator.areas_view()[j]);
                    assert(area_first(fresh.areas_view()[j]) <= g <= area_last(
                        fresh.areas_view()[j],
                    ));
                    assert(fresh.in_some_area(g));
                    assert(false);
                }
            }
        }
        allocator
    }
}

impl Allocator for AreaAllocator {
    closed spec fn wf(&self) -> bool {
        self.inv()
    }

    closed spec fn pool(&self) -> Set<u64> {
        Set::new(|f: u64| self.eligible(f as int) && f as int >= self.cursor())
    }

    closed spec fn avail(&self) -> nat {
        self.count_from(self.cursor())
    }

    closed spec fn ok_frame(&self, f: u64) -> bool {
        self.eligible(f as int) && f as int >= self.cursor()
    }

    closed spec fn dealloc_ok(&self, page: PhysicalPage) -> bool {
        true
    }

    /// Return the next eligible frame and advance past it, or `None`
    /// once no usable frame at or above the cursor remains.  Returned
    /// frames lie in a loader-reported area, outside the kernel and
    /// loader-info ranges, and strictly increase from call to call: the
    /// cursor moves just past each returned frame.
    fn allocate(&mut self) -> (r: Option<PhysicalPage>)
        ensures
            final(self).same_config(*old(self)),
            match r {
                Some(p) => {
                    &&& old(self).eligible(p.number as int)
                    &&& p.number as int >= old(self).cursor()
                    &&& final(self).cursor() == p.number + 1
                    &&& forall|g: int|
                        old(self).cursor() <= g < p.number ==> !old(self).eligible(g)
                },
                None => {
                    &&& final(self).cursor() >= old(self).cursor()
                    &&& forall|g: int| g >= old(self).cursor() ==> !old(self).eligible(g)
                },
            },
    {
        let ghost orig = *self;
        loop
            invariant
                orig == *old(self),
                self.inv(),
                self.same_config(orig),
                self.cursor() >= orig.cursor(),
                forall|g: int| orig.cursor() <= g < self.cursor() ==> !orig.eligible(g),
                self.pool().subset_of(orig.pool()),
            decreases (if self.cursor() <= self.kernel_last() {
                2int
            } else {
                0int
            }) + (if self.cursor() <= self.mb_last() {
                2int
            } else {
                0int
            }), (match self.spec_current() {
                Some(a) => if self.cursor() > area_last(a) {
                    1int
                } else {
                    0int
                },
                None => 0int,
            }),
        {
            match self.current_area {
                None => {
                    proof {
                        assert forall|g: int| g >= orig.cursor() implies !orig.eligible(g) by {
                            if g < self.cursor() {
                            } else {
                                if orig.in_some_area(g) {
                                    let j = choose|j: int|
                                        0 <= j < orig.areas_view().len() && area_first(
                                            #[trigger] orig.areas_view()[j],
                                        ) <= g <= area_last(orig.areas_view()[j]);
                                    assert(area_last(self.areas@[j]) < self.cursor());
                                    assert(false);
                                }
                            }
                        }
                        orig.lemma_count_zero(orig.cursor());
                        self.lemma_count_config(orig, self.cursor());
                        self.lemma_count_zero(self.cursor());
                    }
                    return None;
                },
                Some(area) => {
                    let page = PhysicalPage { number: self.next_free.number };
                    proof {
                        assert(self.areas@.contains(area));
                        let jw = choose|jw: int|
                            0 <= jw < self.areas@.len() && self.areas@[jw] == area;
                        assert(area_wf(area));
                    }
                    let current_area_last = (area.start + area.size - 1) / 4096;
                    if page.number > current_area_last {
                        let ghost pre = *self;
                        self.choose_next_area();
                        proof {
                            assert forall|g: int|
                                orig.cursor() <= g < self.cursor() implies !orig.eligible(g) by {
                                if g >= pre.cursor() {
                                    assert(!pre.in_some_area(g));
                                    if orig.in_some_area(g) {
                                        let j = choose|j: int|
                                            0 <= j < orig.areas_view().len() && area_first(
                                                #[trigger] orig.areas_view()[j],
                                            ) <= g <= area_last(orig.areas_view()[j]);
                                        assert(area_first(pre.areas_view()[j]) <= g <= area_last(
                                            pre.areas_view()[j],
                                        ));
                                        assert(false);
                                    }
                                }
                            }
                        }
                    } else if page.number >= self.kernel_start.number && page.number
                        <= self.kernel_end.number {
                        self.next_free = PhysicalPage { number: self.kernel_end.number + 1 };
                        proof {
                            assert forall|g: int|
                                orig.cursor() <= g < self.cursor() implies !orig.eligible(g) by {
                                if g >= page.number as int {
                                    assert(orig.forbidden(g));
                                }
                            }
                        }
                    } else if page.number >= self.multiboot_start.number && page.number
                        <= self.multiboot_end.number {
                        self.next_free = PhysicalPage { number: self.multiboot_end.number + 1 };
                        proof {
                            assert forall|g: int|
                                orig.cursor() <= g < self.cursor() implies !orig.eligible(g) by {
                                if g >= page.number as int {
                                    assert(orig.forbidden(g));
                                }
                            }
                        }
                    } else {
                        proof {
                            let jw = choose|jw: int|
                                0 <= jw < self.areas@.len() && self.areas@[jw] == area;
                            assert(self.in_some_area(page.number as int)) by {
                                assert(area_first(self.areas@[jw]) <= page.number as int
                                    <= area_last(self.areas@[jw]));
                            }
                            assert(self.eligible(page.number as int));
                            assert(orig.eligible(page.number as int));
                            assert(page.number < MAX_FRAME) by {
                                lemma_last_lt_bound(self.areas@, jw);
                                vstd::arithmetic::div_mod::lemma_div_is_ordered(
                                    area.start as int,
                                    0x4_0000_0000_0000 - 1,
                                    4096,
                                );
                            }
                        }
                        self.next_free = PhysicalPage { number: page.number + 1 };
                        proof {
                            // exactly one eligible frame was consumed
                            orig.lemma_count_skip(orig.cursor(), page.number as int);
                            orig.lemma_count_here(page.number as int);
                            self.lemma_count_config(orig, page.number as int + 1);
                            assert(orig.count_from(orig.cursor()) == self.count_from(
                                self.cursor(),
                            ) + 1);
                            assert(orig.pool().contains(page.number));
                            assert(self.pool().subset_of(orig.pool().remove(page.number)));
                        }
                        return Some(page);
                    }
                },
            }
        }
    }

    /// Deallocation is documented as unimplemented on the boot allocator:
    /// the frame leaks and the provider is left exactly as it was.
    fn deallocate(&mut self, page: PhysicalPage)
        ensures
            *final(self) == *old(self),
    {
    }
}

} // verus!
