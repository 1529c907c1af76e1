//! The model of physical memory that holds page tables, and the
//! mathematical four-level page walk over it.
//!
//! A `TableStore` records, for each physical frame that holds a page table,
//! the 512 entry words of that table.  Its view is a map from frame number
//! to the sequence of entry words; a frame outside the map reads as a table
//! of zeroes (`read`), which the walk treats as absent.

use vstd::prelude::*;
use crate::entry::{entry_present, entry_huge, entry_frame};

verus! {

/// Entries per page table.
pub const ENTRY_COUNT: usize = 512;

/// Entry word `i` of the table held by frame `f`, or 0 when `f` holds no
/// table known to the model.
pub open spec fn read(m: Map<u64, Seq<u64>>, f: u64, i: int) -> u64 {
    if m.contains_key(f) && 0 <= i < m[f].len() {
        m[f][i]
    } else {
        0
    }
}

/// Every table of the model has exactly 512 entries.
pub open spec fn mem_wf(m: Map<u64, Seq<u64>>) -> bool {
    forall|f: u64| #[trigger] m.contains_key(f) ==> m[f].len() == 512
}

/// Index into the level-4 table for virtual page number `n`.
pub open spec fn idx4(n: u64) -> int {
    ((n >> 27) & 0x1ff) as int
}

/// Index into the level-3 table for virtual page number `n`.
pub open spec fn idx3(n: u64) -> int {
    ((n >> 18) & 0x1ff) as int
}

/// Index into the level-2 table for virtual page number `n`.
pub open spec fn idx2(n: u64) -> int {
    ((n >> 9) & 0x1ff) as int
}

/// Index into the level-1 table for virtual page number `n`.
pub open spec fn idx1(n: u64) -> int {
    (n & 0x1ff) as int
}

/// The page number belongs to a canonical virtual address: below
/// `0x0000_8000_0000_0000`, or at or above `0xffff_8000_0000_0000`.
pub open spec fn page_canonical(n: u64) -> bool {
    n < 0x8_0000_0000 || (0x10_0000_0000_0000 - 0x8_0000_0000 <= n && n < 0x10_0000_0000_0000)
}

/// Bit-level facts about low pages and the flag constants, collected so
/// that callers need a single appeal to the bit-vector solver.
#[verifier::rlimit(100)]
#[verifier::spinoff_prover]
pub proof fn lemma_low_page_bits()
    by (bit_vector)
    ensures
        0u64 & 1 != 1,
        0u64 & 0x80 != 0x80,
        1u64 & 0x8000_0000_0000_01ff == 1 && 1u64 & 0x80 == 0 && 1u64 & 1 == 1,
        2u64 & 0x8000_0000_0000_01ff == 2 && 2u64 & 0x80 == 0 && 2u64 & 2 == 2,
        3u64 & 0x8000_0000_0000_01ff == 3 && 3u64 & 1 == 1 && 3u64 & 0x80 == 0,
        forall|q: u64| q < 0x100_0000 ==> #[trigger] ((q >> 27) & 0x1ff) == 0,
        forall|q: u64| q < 0x8_0000_0000 ==> #[trigger] ((q >> 27) & 0x1ff) < 256,
        (0xcafebabeu64 >> 27) & 0x1ff == 25,
        forall|pn: u64| ((pn << 12) | 2 | 1) == #[trigger] ((pn << 12) | 3),
        forall|pn: u64|
            pn < 0x100_0000 ==> (#[trigger] (pn * 4096)) / 4096 == pn && pn * 4096
                < 0x8000_0000_0000,
{
}

/// All four indices lie in `0 .. 512`.
pub proof fn lemma_idx_bounds(n: u64)
    ensures
        0 <= idx4(n) < 512,
        0 <= idx3(n) < 512,
        0 <= idx2(n) < 512,
        0 <= idx1(n) < 512,
{
    assert((n >> 27) & 0x1ff < 512 && (n >> 18) & 0x1ff < 512 && (n >> 9) & 0x1ff < 512 && n
        & 0x1ff < 512) by (bit_vector);
}

/// Two canonical pages with the same four indices are the same page.
pub proof fn lemma_page_index_injective(a: u64, b: u64)
    requires
        page_canonical(a),
        page_canonical(b),
        idx4(a) == idx4(b),
        idx3(a) == idx3(b),
        idx2(a) == idx2(b),
        idx1(a) == idx1(b),
    ensures
        a == b,
{
    assert((a < 0x8_0000_0000 || (0x10_0000_0000_0000 - 0x8_0000_0000 <= a && a
        < 0x10_0000_0000_0000)) && (b < 0x8_0000_0000 || (0x10_0000_0000_0000 - 0x8_0000_0000 <= b
        && b < 0x10_0000_0000_0000)) && (a >> 27) & 0x1ff == (b >> 27) & 0x1ff && (a >> 18) & 0x1ff
        == (b >> 18) & 0x1ff && (a >> 9) & 0x1ff == (b >> 9) & 0x1ff && a & 0x1ff == b & 0x1ff
        ==> a == b) by (bit_vector);
}

/// The level-4 entry the walk for page `n` reads under root table `root`.
pub open spec fn walk_e4(m: Map<u64, Seq<u64>>, root: u64, n: u64) -> u64 {
    read(m, root, idx4(n))
}

/// The frame of the level-3 table on the walk for `n`.
pub open spec fn walk_f3(m: Map<u64, Seq<u64>>, root: u64, n: u64) -> u64 {
    entry_frame(walk_e4(m, root, n))
}

/// The level-3 entry the walk for `n` reads.
pub open spec fn walk_e3(m: Map<u64, Seq<u64>>, root: u64, n: u64) -> u64 {
    read(m, walk_f3(m, root, n), idx3(n))
}

/// The frame of the level-2 table on the walk for `n`.
pub open spec fn walk_f2(m: Map<u64, Seq<u64>>, root: u64, n: u64) -> u64 {
    entry_frame(walk_e3(m, root, n))
}

/// The level-2 entry the walk for `n` reads.
pub open spec fn walk_e2(m: Map<u64, Seq<u64>>, root: u64, n: u64) -> u64 {
    read(m, walk_f2(m, root, n), idx2(n))
}

/// The frame of the level-1 table on the walk for `n`.
pub open spec fn walk_f1(m: Map<u64, Seq<u64>>, root: u64, n: u64) -> u64 {
    entry_frame(walk_e2(m, root, n))
}

/// The level-1 entry the walk for `n` reads.
pub open spec fn walk_e1(m: Map<u64, Seq<u64>>, root: u64, n: u64) -> u64 {
    read(m, walk_f1(m, root, n), idx1(n))
}

/// The physical frame number that virtual page `n` translates to, walking
/// the tables from `root`, with 1 GiB pages recognised at level 3 and
/// 2 MiB pages at level 2.
pub open spec fn translate_page_spec(m: Map<u64, Seq<u64>>, root: u64, n: u64) -> Option<int> {
    let e4 = walk_e4(m, root, n);
    let e3 = walk_e3(m, root, n);
    let e2 = walk_e2(m, root, n);
    let e1 = walk_e1(m, root, n);
    if !entry_present(e4) || entry_huge(e4) {
        None
    } else if !entry_present(e3) {
        None
    } else if entry_huge(e3) {
        Some(entry_frame(e3) + idx2(n) * 512 + idx1(n))
    } else if !entry_present(e2) {
        None
    } else if entry_huge(e2) {
        Some(entry_frame(e2) + idx1(n))
    } else if !entry_present(e1) {
        None
    } else {
        Some(entry_frame(e1) as int)
    }
}

/// Page `n` is mapped through a full four-level walk (no huge page).
pub open spec fn mapped_p1(m: Map<u64, Seq<u64>>, root: u64, n: u64) -> bool {
    &&& entry_present(walk_e4(m, root, n)) && !entry_huge(walk_e4(m, root, n))
    &&& entry_present(walk_e3(m, root, n)) && !entry_huge(walk_e3(m, root, n))
    &&& entry_present(walk_e2(m, root, n)) && !entry_huge(walk_e2(m, root, n))
    &&& entry_present(walk_e1(m, root, n))
}

/// The level-1 entry word of page `n`; meaningful when `mapped_p1` holds.
pub open spec fn p1_slot(m: Map<u64, Seq<u64>>, root: u64, n: u64) -> u64 {
    walk_e1(m, root, n)
}

/// The walk for `n` can be extended to a fresh level-1 mapping: every
/// entry on it is either unused or a present non-huge table pointer, and
/// the final level-1 slot is unused.
pub open spec fn can_map(m: Map<u64, Seq<u64>>, root: u64, n: u64) -> bool {
    let e4 = walk_e4(m, root, n);
    e4 == 0 || (entry_present(e4) && !entry_huge(e4) && {
        let e3 = walk_e3(m, root, n);
        e3 == 0 || (entry_present(e3) && !entry_huge(e3) && {
            let e2 = walk_e2(m, root, n);
            e2 == 0 || (entry_present(e2) && !entry_huge(e2) && walk_e1(m, root, n) == 0)
        })
    })
}

/// Number of page tables still missing on the walk for `n`.
pub open spec fn tables_needed(m: Map<u64, Seq<u64>>, root: u64, n: u64) -> nat {
    if walk_e4(m, root, n) == 0 {
        3nat
    } else if walk_e3(m, root, n) == 0 {
        2nat
    } else if walk_e2(m, root, n) == 0 {
        1nat
    } else {
        0nat
    }
}

/// A present, non-huge level-4 entry over a present huge level-3 entry
/// translates every page of its 1 GiB window to the window base plus the
/// level-2 index times 512 plus the level-1 index — in any table memory.
pub proof fn lemma_huge_p3_translation(m: Map<u64, Seq<u64>>, root: u64, n: u64)
    requires
        entry_present(walk_e4(m, root, n)),
        !entry_huge(walk_e4(m, root, n)),
        entry_present(walk_e3(m, root, n)),
        entry_huge(walk_e3(m, root, n)),
    ensures
        translate_page_spec(m, root, n) == Some(
            entry_frame(walk_e3(m, root, n)) + idx2(n) * 512 + idx1(n),
        ),
{
}

/// The 2 MiB analogue: a present huge level-2 entry translates every
/// page of its window to the window base plus the level-1 index.
pub proof fn lemma_huge_p2_translation(m: Map<u64, Seq<u64>>, root: u64, n: u64)
    requires
        entry_present(walk_e4(m, root, n)),
        !entry_huge(walk_e4(m, root, n)),
        entry_present(walk_e3(m, root, n)),
        !entry_huge(walk_e3(m, root, n)),
        entry_present(walk_e2(m, root, n)),
        entry_huge(walk_e2(m, root, n)),
    ensures
        translate_page_spec(m, root, n) == Some(entry_frame(walk_e2(m, root, n)) + idx1(n)),
{
}

/// Map/unmap round trip at the level of the walk: once the page tables
/// for `v` are in place, installing `p` in `v`'s level-1 slot makes `v`
/// translate to exactly `p`, and clearing that same slot afterwards
/// makes `v` translate to nothing again.
pub proof fn lemma_map_unmap_round_trip(m: Map<u64, Seq<u64>>, root: u64, v: u64, p: u64, fb: u64)
    requires
        mem_wf(m),
        m.contains_key(walk_f1(m, root, v)),
        entry_present(walk_e4(m, root, v)) && !entry_huge(walk_e4(m, root, v)),
        entry_present(walk_e3(m, root, v)) && !entry_huge(walk_e3(m, root, v)),
        entry_present(walk_e2(m, root, v)) && !entry_huge(walk_e2(m, root, v)),
        root != walk_f1(m, root, v),
        walk_f3(m, root, v) != walk_f1(m, root, v),
        walk_f2(m, root, v) != walk_f1(m, root, v),
        p < 0x100_0000_0000,
        fb & 0x8000_0000_0000_01ff == fb,
        fb & 0x80 == 0,
    ensures
        ({
            let mapped = m.insert(
                walk_f1(m, root, v),
                m[walk_f1(m, root, v)].update(idx1(v), (p << 12) | fb | 1),
            );
            let unmapped = mapped.insert(
                walk_f1(m, root, v),
                mapped[walk_f1(m, root, v)].update(idx1(v), 0),
            );
            &&& translate_page_spec(mapped, root, v) == Some(p as int)
            &&& translate_page_spec(unmapped, root, v) is None
        }),
{
    let f1 = walk_f1(m, root, v);
    lemma_idx_bounds(v);
    assert(fb & 0x8000_0000_0000_01ff == fb ==> ((fb | 1) & 0x8000_0000_0000_01ff == (fb | 1) && (
    fb | 1) & 1 == 1)) by (bit_vector);
    crate::entry::lemma_entry_build(p, (fb | 1) as u64);
    assert(fb & 0x80 == 0 ==> (fb | 1) & 0x80 != 0x80) by (bit_vector);
    assert(((p << 12) | (fb | 1)) == ((p << 12) | fb | 1)) by (bit_vector);
    lemma_low_page_bits();
    let mapped = m.insert(f1, m[f1].update(idx1(v), (p << 12) | fb | 1));
    let unmapped = mapped.insert(f1, mapped[f1].update(idx1(v), 0));
    assert(walk_e4(mapped, root, v) == walk_e4(m, root, v));
    assert(walk_e3(mapped, root, v) == walk_e3(m, root, v));
    assert(walk_e2(mapped, root, v) == walk_e2(m, root, v));
    assert(walk_e1(mapped, root, v) == (p << 12) | fb | 1);
    assert(walk_e4(unmapped, root, v) == walk_e4(m, root, v));
    assert(walk_e3(unmapped, root, v) == walk_e3(m, root, v));
    assert(walk_e2(unmapped, root, v) == walk_e2(m, root, v));
    assert(walk_e1(unmapped, root, v) == 0);
}

/// A page whose walk can still be mapped does not translate.
pub proof fn lemma_can_map_not_translated(m: Map<u64, Seq<u64>>, root: u64, n: u64)
    requires
        can_map(m, root, n),
    ensures
        translate_page_spec(m, root, n) is None,
        !mapped_p1(m, root, n),
{
    assert(0u64 & 1 != 1) by (bit_vector);
}

/// The walk for page `w` reads the same entries in `m2` as in `m1`, so
/// every notion derived from the walk agrees.
pub open spec fn same_walk(m1: Map<u64, Seq<u64>>, m2: Map<u64, Seq<u64>>, root: u64, w: u64) -> bool {
    &&& translate_page_spec(m2, root, w) == translate_page_spec(m1, root, w)
    &&& mapped_p1(m2, root, w) == mapped_p1(m1, root, w)
    &&& can_map(m2, root, w) == can_map(m1, root, w)
    &&& (mapped_p1(m1, root, w) ==> p1_slot(m2, root, w) == p1_slot(m1, root, w))
}

/// Every canonical page other than `except` (and outside the recursive
/// level-4 slot 511) walks identically in `m1` and `m2`.
pub open spec fn preserves_walks(m1: Map<u64, Seq<u64>>, m2: Map<u64, Seq<u64>>, root: u64, except: u64) -> bool {
    forall|w: u64|
        page_canonical(w) && w != except && idx4(w) != 511 ==> #[trigger] same_walk(m1, m2, root, w)
}

/// Nothing that was written is lost: every table of `m1` is still a table
/// of `m2`, and every non-zero entry word kept its value.
pub open spec fn mem_extends(m1: Map<u64, Seq<u64>>, m2: Map<u64, Seq<u64>>) -> bool {
    &&& forall|f: u64| #[trigger] m1.contains_key(f) ==> m2.contains_key(f)
    &&& forall|f: u64, i: int|
        0 <= i < 512 && read(m1, f, i) != 0 ==> #[trigger] read(m2, f, i) == read(m1, f, i)
}

/// A fresh, all-zero page table.
pub open spec fn zero_table() -> Seq<u64> {
    Seq::new(512, |i: int| 0u64)
}

/// The contents of every frame that holds a page table.
///
/// Tables are kept as one flat vector of entry words; the table recorded
/// for `frames[k]` occupies `words[512 * k .. 512 * k + 512]`.
pub struct TableStore {
    frames: Vec<u64>,
    words: Vec<u64>,
}

pub open spec fn store_view_rec(frames: Seq<u64>, words: Seq<u64>) -> Map<u64, Seq<u64>>
    decreases frames.len(),
{
    if frames.len() == 0 {
        Map::empty()
    } else {
        store_view_rec(frames.drop_last(), words.take(words.len() - 512)).insert(
            frames.last(),
            words.skip(words.len() - 512),
        )
    }
}

impl View for TableStore {
    type V = Map<u64, Seq<u64>>;

    closed spec fn view(&self) -> Map<u64, Seq<u64>> {
        store_view_rec(self.frames@, self.words@)
    }
}

proof fn lemma_view_rec_dom(frames: Seq<u64>, words: Seq<u64>)
    requires
        words.len() == 512 * frames.len(),
    ensures
        forall|f: u64| store_view_rec(frames, words).contains_key(f) == frames.contains(f),
        mem_wf(store_view_rec(frames, words)),
    decreases frames.len(),
{
    if frames.len() > 0 {
        lemma_view_rec_dom(frames.drop_last(), words.take(words.len() - 512));
        assert forall|f: u64| store_view_rec(frames, words).contains_key(f) == frames.contains(f) by {
            if frames.contains(f) {
                let k = choose|k: int| 0 <= k < frames.len() && frames[k] == f;
                if k < frames.len() - 1 {
                    assert(frames.drop_last().contains(f)) by {
                        assert(frames.drop_last()[k] == f);
                    }
                }
            }
            if store_view_rec(frames, words).contains_key(f) && f != frames.last() {
                assert(frames.drop_last().contains(f));
                let k = choose|k: int| 0 <= k < frames.drop_last().len() && frames.drop_last()[k] == f;
                assert(frames[k] == f);
            }
        }
    }
}

proof fn lemma_view_rec_at(frames: Seq<u64>, words: Seq<u64>, k: int)
    requires
        words.len() == 512 * frames.len(),
        0 <= k < frames.len(),
        forall|i: int, j: int| 0 <= i < j < frames.len() ==> frames[i] != frames[j],
    ensures
        store_view_rec(frames, words)[frames[k]] =~= words.subrange(512 * k, 512 * k + 512),
        store_view_rec(frames, words).contains_key(frames[k]),
    decreases frames.len(),
{
    lemma_view_rec_dom(frames, words);
    if k == frames.len() - 1 {
        assert(words.skip(words.len() - 512) =~= words.subrange(512 * k, 512 * k + 512));
    } else {
        lemma_view_rec_at(frames.drop_last(), words.take(words.len() - 512), k);
        assert(frames.drop_last()[k] == frames[k]);
        assert(frames[k] != frames.last());
        assert(words.take(words.len() - 512).subrange(512 * k, 512 * k + 512) =~= words.subrange(
            512 * k,
            512 * k + 512,
        ));
    }
}

impl TableStore {
    /// Frames are recorded once each, with 512 entry words per table.
    pub closed spec fn wf(&self) -> bool {
        &&& self.words@.len() == 512 * self.frames@.len()
        &&& forall|i: int, j: int| 0 <= i < j < self.frames@.len() ==> self.frames@[i] != self.frames@[j]
    }

    /// A store with no tables at all.
    pub fn new() -> (r: TableStore)
        ensures
            r.wf(),
            r@ == Map::<u64, Seq<u64>>::empty(),
    {
        TableStore { frames: Vec::new(), words: Vec::new() }
    }

    /// The store is well formed, so its view is too.
    pub proof fn lemma_wf(&self)
        requires
            self.wf(),
        ensures
            mem_wf(self@),
    {
        lemma_view_rec_dom(self.frames@, self.words@);
    }

    /// Whether frame `f` holds a table of the model.
    pub fn contains(&self, f: u64) -> (b: bool)
        requires
            self.wf(),
        ensures
            b == self@.contains_key(f),
    {
        let n = self.frames.len();
        let mut k: usize = 0;
        while k < n
            invariant
                self.wf(),
                n == self.frames@.len(),
                k <= n,
                forall|j: int| 0 <= j < k ==> self.frames@[j] != f,
            decreases n - k,
        {
            if self.frames[k] == f {
                proof {
                    lemma_view_rec_dom(self.frames@, self.words@);
                    assert(self.frames@.contains(f)) by {
                        assert(self.frames@[k as int] == f);
                    }
                }
                return true;
            }
            k += 1;
        }
        proof {
            lemma_view_rec_dom(self.frames@, self.words@);
            if self.frames@.contains(f) {
                let j = choose|j: int| 0 <= j < self.frames@.len() && self.frames@[j] == f;
                assert(false);
            }
        }
        false
    }

    /// Entry word `i` of the table at frame `f`; 0 when `f` holds no table.
    pub fn get_entry(&self, f: u64, i: usize) -> (e: u64)
        requires
            self.wf(),
            i < 512,
        ensures
            e == read(self@, f, i as int),
    {
        let n = self.frames.len();
        let mut k: usize = 0;
        while k < n
            invariant
                self.wf(),
                n == self.frames@.len(),
                k <= n,
                i < 512,
                forall|j: int| 0 <= j < k ==> self.frames@[j] != f,
            decreases n - k,
        {
            if self.frames[k] == f {
                let wl = self.words.len();
                proof {
                    lemma_view_rec_at(self.frames@, self.words@, k as int);
                    assert(512 * ((k as int) + 1) <= 512 * (n as int));
                    assert(512 * (k as int) + (i as int) < wl);
                }
                return self.words[512 * k + i];
            }
            k += 1;
        }
        proof {
            lemma_view_rec_dom(self.frames@, self.words@);
            if self.frames@.contains(f) {
                let j = choose|j: int| 0 <= j < self.frames@.len() && self.frames@[j] == f;
                assert(false);
            }
        }
        0
    }

    /// Overwrite entry word `i` of the table at frame `f`.
    pub fn set_entry(&mut self, f: u64, i: usize, e: u64)
        requires
            old(self).wf(),
            old(self)@.contains_key(f),
            i < 512,
        ensures
            final(self).wf(),
            final(self)@ =~= old(self)@.insert(f, old(self)@[f].update(i as int, e)),
    {
        let n = self.frames.len();
        let mut k: usize = 0;
        while k < n
            invariant
                *self == *old(self),
                old(self).wf(),
                old(self)@.contains_key(f),
                n == self.frames@.len(),
                k <= n,
                i < 512,
                forall|j: int| 0 <= j < k ==> self.frames@[j] != f,
            decreases n - k,
        {
            if self.frames[k] == f {
                let wl = self.words.len();
                proof {
                    lemma_view_rec_at(self.frames@, self.words@, k as int);
                    assert(512 * ((k as int) + 1) <= 512 * (n as int));
                    assert(512 * (k as int) + (i as int) < wl);
                }
                self.words.set(512 * k + i, e);
                proof {
                    lemma_store_update(old(self).frames@, old(self).words@, k as int, i as int, e);
                    assert(self.words@ =~= old(self).words@.update(512 * (k as int) + (i as int), e));
                    assert(self.words@ == old(self).words@.update(512 * (k as int) + (i as int), e));
                    assert(store_view_rec(self.frames@, self.words@) =~= old(self)@.insert(
                        f,
                        old(self)@[f].update(i as int, e),
                    ));
                }
                return;
            }
            k += 1;
        }
        proof {
            lemma_view_rec_dom(self.frames@, self.words@);
            if self.frames@.contains(f) {
                let j = choose|j: int| 0 <= j < self.frames@.len() && self.frames@[j] == f;
                assert(false);
            }
            assert(false);
        }
    }

    /// Record a fresh, zeroed table at frame `f`.
    pub fn insert_table(&mut self, f: u64)
        requires
            old(self).wf(),
            !old(self)@.contains_key(f),
        ensures
            final(self).wf(),
            final(self)@ =~= old(self)@.insert(f, zero_table()),
    {
        proof {
            lemma_view_rec_dom(self.frames@, self.words@);
        }
        let ghost old_store = *self;
        self.frames.push(f);
        let mut c: usize = 0;
        while c < 512
            invariant
                0 <= c <= 512,
                self.frames@ == old_store.frames@.push(f),
                self.words@ == old_store.words@ + Seq::new(c as nat, |i: int| 0u64),
            decreases 512 - c,
        {
            self.words.push(0);
            proof {
                assert(self.words@ =~= old_store.words@ + Seq::new((c + 1) as nat, |i: int| 0u64));
            }
            c += 1;
        }
        proof {
            assert(!old_store.frames@.contains(f));
            assert(forall|j: int|
                0 <= j < old_store.frames@.len() ==> old_store.frames@[j] != f);
            assert(self.words@.len() == 512 * self.frames@.len());
            assert(self.words@.take(self.words@.len() - 512) =~= old_store.words@);
            assert(self.words@.skip(self.words@.len() - 512) =~= zero_table());
            assert(self.frames@.drop_last() =~= old_store.frames@);
            assert(self.frames@.last() == f);
        }
    }
}

proof fn lemma_store_update(frames: Seq<u64>, words: Seq<u64>, k: int, i: int, e: u64)
    requires
        words.len() == 512 * frames.len(),
        0 <= k < frames.len(),
        0 <= i < 512,
        forall|a: int, b: int| 0 <= a < b < frames.len() ==> frames[a] != frames[b],
    ensures
        store_view_rec(frames, words.update(512 * k + i, e)) =~= store_view_rec(frames, words).insert(
            frames[k],
            store_view_rec(frames, words)[frames[k]].update(i, e),
        ),
    decreases frames.len(),
{
    lemma_view_rec_dom(frames, words);
    lemma_view_rec_at(frames, words, k);
    let words2 = words.update(512 * k + i, e);
    lemma_view_rec_dom(frames, words2);
    if k == frames.len() - 1 {
        assert(words2.take(words2.len() - 512) =~= words.take(words.len() - 512));
        assert(words2.skip(words2.len() - 512) =~= words.skip(words.len() - 512).update(i, e));
    } else {
        lemma_store_update(frames.drop_last(), words.take(words.len() - 512), k, i, e);
        assert(words2.take(words2.len() - 512) =~= words.take(words.len() - 512).update(
            512 * k + i,
            e,
        ));
        assert(words2.skip(words2.len() - 512) =~= words.skip(words.len() - 512));
        lemma_view_rec_at(frames.drop_last(), words.take(words.len() - 512), k);
        assert(frames.drop_last()[k] == frames[k]);
        assert(frames[k] != frames.last());
    }
}

} // verus!
