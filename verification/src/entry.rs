//! Page-table entries: a 64-bit word holding flag bits and a frame address.

use vstd::prelude::*;
use crate::memory::{PhysicalPage, MAX_FRAME};

verus! {

/// Bits of an entry that carry flags: bits 0..=8 and bit 63.
pub const FLAG_MASK: u64 = 0x8000_0000_0000_01ff;

/// Bits of an entry that carry the physical address.
pub const ADDRESS_MASK: u64 = 0x000f_ffff_ffff_f000;

pub const PRESENT: u64 = 0x1;
pub const WRITABLE: u64 = 0x2;
pub const USER_ACCESSIBLE: u64 = 0x4;
pub const WRITE_THROUGH: u64 = 0x8;
pub const NO_CACHE: u64 = 0x10;
pub const ACCESSED: u64 = 0x20;
pub const DIRTY: u64 = 0x40;
pub const HUGE_PAGE: u64 = 0x80;
pub const GLOBAL: u64 = 0x100;
pub const NO_EXECUTE: u64 = 0x8000_0000_0000_0000;

/// The entry word has its PRESENT bit set.
pub open spec fn entry_present(e: u64) -> bool {
    e & PRESENT == PRESENT
}

/// The entry word has its HUGE_PAGE bit set.
pub open spec fn entry_huge(e: u64) -> bool {
    e & HUGE_PAGE == HUGE_PAGE
}

/// The entry word has its WRITABLE bit set.
pub open spec fn entry_writable(e: u64) -> bool {
    e & WRITABLE == WRITABLE
}

/// Number of the frame the entry points at.
pub open spec fn entry_frame(e: u64) -> u64 {
    (e & ADDRESS_MASK) >> 12
}

/// An entry built from a frame number and flag bits decomposes back into
/// exactly those parts.
pub proof fn lemma_entry_build(n: u64, f: u64)
    by (bit_vector)
    requires
        n < 0x100_0000_0000,
        f & 0x8000_0000_0000_01ff == f,
    ensures
        (((n << 12) | f) & 0x000f_ffff_ffff_f000) >> 12 == n,
        ((n << 12) | f) & 1 == f & 1,
        ((n << 12) | f) & 0x80 == f & 0x80,
        ((n << 12) | f) & 2 == f & 2,
        ((n << 12) | f) != 0 <==> (n != 0 || f != 0),
{
}

pub const ELF_WRITABLE: u64 = 0x1;
pub const ELF_ALLOCATED: u64 = 0x2;
pub const ELF_EXECUTABLE: u64 = 0x4;

/// Entry-flag bits owed to an ELF section.  A section that is not
/// allocated occupies no memory at run time and gets no flags at all;
/// an allocated one is PRESENT, WRITABLE iff it is writable, and
/// NO_EXECUTE iff it is not executable.
pub open spec fn elf_to_entry_bits(elf_flags: u64) -> u64 {
    if elf_flags & ELF_ALLOCATED != ELF_ALLOCATED {
        0u64
    } else {
        PRESENT | (if elf_flags & ELF_WRITABLE == ELF_WRITABLE {
            WRITABLE
        } else {
            0u64
        }) | (if elf_flags & ELF_EXECUTABLE == ELF_EXECUTABLE {
            0u64
        } else {
            NO_EXECUTE
        })
    }
}

/// A set of page-table flag bits.  Only the bits in `FLAG_MASK` are ever set.
#[derive(Clone, Copy, PartialEq, Eq, Structural, Debug)]
pub struct EntryFlags {
    pub bits: u64,
}

impl EntryFlags {
    /// Only flag bits are set.
    pub open spec fn wf(self) -> bool {
        self.bits & FLAG_MASK == self.bits
    }

    /// No flag set.
    pub fn empty() -> (r: EntryFlags)
        ensures
            r.bits == 0,
            r.wf(),
    {
        proof {
            assert(0u64 & FLAG_MASK == 0u64) by (bit_vector);
        }
        EntryFlags { bits: 0 }
    }

    /// The flags named by `bits`, ignoring non-flag bits.
    pub fn from_bits_truncate(bits: u64) -> (r: EntryFlags)
        ensures
            r.bits == bits & FLAG_MASK,
            r.wf(),
    {
        proof {
            assert((bits & FLAG_MASK) & FLAG_MASK == bits & FLAG_MASK) by (bit_vector);
        }
        EntryFlags { bits: bits & FLAG_MASK }
    }

    /// All flags of `self` and `other` together.
    pub fn union(self, other: EntryFlags) -> (r: EntryFlags)
        requires
            self.wf(),
            other.wf(),
        ensures
            r.bits == self.bits | other.bits,
            r.wf(),
    {
        proof {
            let a = self.bits;
            let b = other.bits;
            assert(a & FLAG_MASK == a && b & FLAG_MASK == b ==> (a | b) & FLAG_MASK == (a | b))
                by (bit_vector);
        }
        EntryFlags { bits: self.bits | other.bits }
    }

    /// The entry flags for an ELF section with the given flag bits: no
    /// flags at all for an unallocated section, otherwise PRESENT with
    /// the writability and executability the section asks for.
    pub fn from_elf_section_flags(section_flags: u64) -> (r: EntryFlags)
        ensures
            r.bits == elf_to_entry_bits(section_flags),
            r.wf(),
            r.bits & HUGE_PAGE == 0,
    {
        if section_flags & ELF_ALLOCATED != ELF_ALLOCATED {
            proof {
                assert(0u64 & 0x80 == 0) by (bit_vector);
            }
            return EntryFlags::empty();
        }
        let b: u64 = if section_flags & ELF_WRITABLE == ELF_WRITABLE {
            WRITABLE
        } else {
            0
        };
        let c: u64 = if section_flags & ELF_EXECUTABLE == ELF_EXECUTABLE {
            0
        } else {
            NO_EXECUTE
        };
        proof {
            assert((b == 2 || b == 0) && (c == 0x8000_0000_0000_0000 || c == 0) ==> ((1u64 | b
                | c) & 0x8000_0000_0000_01ff == (1u64 | b | c) && (1u64 | b | c) & 0x80 == 0))
                by (bit_vector);
        }
        EntryFlags { bits: PRESENT | b | c }
    }

    /// Whether every flag of `other` is also set in `self`.
    pub fn contains(self, other: EntryFlags) -> (r: bool)
        ensures
            r == (self.bits & other.bits == other.bits),
    {
        self.bits & other.bits == other.bits
    }
}

/// One 64-bit page-table entry.
pub struct Entry(pub u64);

impl Entry {
    /// The entry holds no mapping and no flags at all.
    pub fn is_unused(&self) -> (r: bool)
        ensures
            r == (self.0 == 0),
    {
        self.0 == 0
    }

    /// Clear the entry.
    pub fn set_unused(&mut self)
        ensures
            final(self).0 == 0,
    {
        self.0 = 0;
    }

    /// The flag bits of the entry.
    pub fn flags(&self) -> (r: EntryFlags)
        ensures
            r.bits == self.0 & FLAG_MASK,
    {
        EntryFlags::from_bits_truncate(self.0)
    }

    /// The frame a present entry points at, or `None` for an absent entry.
    pub fn pointed_physical_page(&self) -> (r: Option<PhysicalPage>)
        ensures
            r == if entry_present(self.0) {
                Some(PhysicalPage { number: entry_frame(self.0) })
            } else {
                None::<PhysicalPage>
            },
    {
        if self.0 & PRESENT == PRESENT {
            Some(PhysicalPage { number: (self.0 & ADDRESS_MASK) >> 12 })
        } else {
            None
        }
    }

    /// Point the entry at `physical_page` with the given flags.
    pub fn set(&mut self, physical_page: PhysicalPage, flags: EntryFlags)
        requires
            physical_page.number < MAX_FRAME,
            flags.wf(),
        ensures
            final(self).0 == (physical_page.number << 12) | flags.bits,
    {
        self.0 = (physical_page.number << 12) | flags.bits;
    }
}

} // verus!
