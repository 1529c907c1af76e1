//! The fallback heap backend: a single-threaded model of the monotonic
//! bump arena, with the alignment helpers it builds on.

use vstd::prelude::*;

verus! {

/// `a` is a power of two.
pub open spec fn is_pow2(a: u64) -> bool {
    a != 0 && a & ((a - 1) as u64) == 0
}

/// Largest multiple of `align` at or below `addr`.
pub open spec fn align_down_spec(addr: u64, align: u64) -> int {
    (addr as int / align as int) * align
}

/// Smallest multiple of `align` at or above `addr`.
pub open spec fn align_up_spec(addr: u64, align: u64) -> int {
    ((addr + align - 1) / align as int) * align
}

#[verifier::rlimit(100)]
#[verifier::spinoff_prover]
proof fn lemma_mask_align(addr: u64, align: u64)
    by (bit_vector)
    requires
        align != 0,
        align & ((align - 1) as u64) == 0,
    ensures
        (addr & !((align - 1) as u64)) % align == 0,
        addr & !((align - 1) as u64) <= addr,
        addr < (addr & !((align - 1) as u64)) + align,
{
}

/// Round `addr` down to a multiple of `align`; an alignment of zero
/// leaves the address unchanged, anything else must be a power of two.
pub fn align_down(addr: u64, align: u64) -> (r: u64)
    requires
        is_pow2(align) || align == 0,
    ensures
        align == 0 ==> r == addr,
        is_pow2(align) ==> r as int == align_down_spec(addr, align),
{
    if align != 0 && (align & (align - 1)) == 0 {
        let r = addr & !(align - 1);
        proof {
            lemma_mask_align(addr, align);
            let a = align as int;
            let x = addr as int;
            let rr = r as int;
            vstd::arithmetic::div_mod::lemma_fundamental_div_mod(rr, a);
            vstd::arithmetic::div_mod::lemma_fundamental_div_mod(x, a);
            assert(rr == (rr / a) * a);
            vstd::arithmetic::div_mod::lemma_div_is_ordered(rr, x, a);
            assert(rr / a == x / a) by {
                if rr / a < x / a {
                    vstd::arithmetic::mul::lemma_mul_inequality(rr / a + 1, x / a, a);
                    assert((rr / a + 1) * a == (rr / a) * a + a) by {
                        vstd::arithmetic::mul::lemma_mul_is_distributive_add_other_way(
                            a,
                            rr / a,
                            1,
                        );
                    }
                    vstd::arithmetic::div_mod::lemma_mod_bound(x, a);
                    assert((x / a) * a <= x);
                    assert(false);
                }
            }
        }
        r
    } else if align == 0 {
        addr
    } else {
        proof {
            assert(false);
        }
        addr
    }
}

/// Round `addr` up to a multiple of `align`, a power of two.
pub fn align_up(addr: u64, align: u64) -> (r: u64)
    requires
        is_pow2(align),
        addr + align - 1 <= u64::MAX,
    ensures
        r as int == align_up_spec(addr, align),
        r % align == 0,
        addr <= r < addr + align,
{
    let r = align_down(addr + (align - 1), align);
    proof {
        let a = align as int;
        let x = addr + align - 1;
        let rr = r as int;
        vstd::arithmetic::div_mod::lemma_fundamental_div_mod(x, a);
        vstd::arithmetic::div_mod::lemma_mod_bound(x, a);
        assert(rr == (x / a) * a);
        assert(r % align == 0) by {
            vstd::arithmetic::div_mod::lemma_mod_multiples_basic(x / a, a);
            assert(((x / a) * a) % a == 0);
        }
        assert((x / a) * a <= x);
        assert(x < (x / a) * a + a);
        assert(addr <= r) by {
            assert(x < rr + a);
        }
        assert(r < addr + align) by {
            assert(rr <= x);
        }
    }
    r
}

/// Allocation failure of the bump arena.
#[derive(Clone, Copy, PartialEq, Eq, Structural, Debug)]
pub struct AllocErr;

/// A monotonic arena over `[heap_start, heap_end)`: the cursor only ever
/// advances, deallocation is a no-op, and exhaustion is final.
pub struct BumpAllocator {
    heap_start: u64,
    heap_end: u64,
    next: u64,
}

impl BumpAllocator {
    pub closed spec fn start_of(self) -> u64 {
        self.heap_start
    }

    pub closed spec fn end_of(self) -> u64 {
        self.heap_end
    }

    pub closed spec fn next_of(self) -> u64 {
        self.next
    }

    pub open spec fn inv(self) -> bool {
        self.start_of() <= self.next_of() <= self.end_of()
    }

    pub fn new(heap_start: u64, heap_end: u64) -> (r: BumpAllocator)
        requires
            heap_start <= heap_end,
        ensures
            r.start_of() == heap_start,
            r.end_of() == heap_end,
            r.next_of() == heap_start,
            r.inv(),
    {
        BumpAllocator { heap_start, heap_end, next: heap_start }
    }

    /// Carve `size` bytes at alignment `align` off the arena: the result
    /// is the aligned cursor, and the cursor advances past the block.
    /// Fails exactly when the aligned block does not fit.
    pub fn allocate(&mut self, size: u64, align: u64) -> (r: Result<u64, AllocErr>)
        requires
            old(self).inv(),
            is_pow2(align),
            old(self).end_of() + align - 1 <= u64::MAX,
        ensures
            final(self).inv(),
            final(self).start_of() == old(self).start_of(),
            final(self).end_of() == old(self).end_of(),
            match r {
                Ok(a) => {
                    &&& a as int == align_up_spec(old(self).next_of(), align)
                    &&& a % align == 0
                    &&& old(self).next_of() <= a
                    &&& a + size <= old(self).end_of()
                    &&& final(self).next_of() == a + size
                },
                Err(e) => {
                    &&& *final(self) == *old(self)
                    &&& align_up_spec(old(self).next_of(), align) + size > old(self).end_of()
                },
            },
    {
        let start = align_up(self.next, align);
        if start > self.heap_end || size > self.heap_end - start {
            return Err(AllocErr);
        }
        self.next = start + size;
        Ok(start)
    }

    /// Deallocation of the bump arena is documented as unimplemented.
    pub fn dealloc(&mut self, _pointer: u64)
        ensures
            *final(self) == *old(self),
    {
    }
}

} // verus!
