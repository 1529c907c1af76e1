//! The four-level mapper: translate, map, unmap over the active hierarchy.
//!
//! A `Mapper` owns the model of every frame that holds a page table
//! (`TableStore`), together with the frame `cr3` whose table the processor
//! walks.  As on the hardware with a recursive entry 511, every operation
//! roots at the table that entry 511 of the `cr3` table points at, so that
//! redirecting entry 511 redirects the whole mapper.
//!
//! The private well-formedness invariant assigns each table a level and
//! demands that table pointers step down one level, that distinct table
//! pointers never share a target, and that huge-page entries are aligned.
//! It is what makes the frame conditions below (`preserves_walks`) provable.

use vstd::prelude::*;
use crate::entry::{
    entry_present, entry_huge, entry_frame, entry_writable, lemma_entry_build, EntryFlags,
    ADDRESS_MASK, PRESENT, HUGE_PAGE,
};
use crate::memory::{Allocator, PhysicalPage, MAX_FRAME};
use crate::paging::VirtualPage;
use crate::table::{
    can_map, idx1, idx2, idx3, idx4, lemma_idx_bounds, lemma_page_index_injective, mapped_p1,
    mem_extends, mem_wf, p1_slot, page_canonical, preserves_walks, read, same_walk,
    tables_needed, translate_page_spec, walk_e1, walk_e2, walk_e3, walk_e4, walk_f1, walk_f2,
    walk_f3, zero_table, TableStore,
};

verus! {

/// One entry of a well-formed table respects its table's level: pointers
/// step down one level into a known table, huge entries are aligned, and
/// entry 511 of a level-4 table is a recursive slot naming a level-4 table.
pub open spec fn entry_ok(m: Map<u64, Seq<u64>>, lv: Map<u64, int>, f: u64, i: int) -> bool {
    let e = read(m, f, i);
    &&& (lv[f] == 4 && i == 511 ==> entry_present(e) && !entry_huge(e) && m.contains_key(
        entry_frame(e),
    ) && lv[entry_frame(e)] == 4)
    &&& (lv[f] == 4 && i != 511 && e != 0 ==> entry_present(e) && !entry_huge(e)
        && m.contains_key(entry_frame(e)) && lv[entry_frame(e)] == 3)
    &&& (lv[f] == 3 && e != 0 && !entry_huge(e) ==> entry_present(e) && m.contains_key(
        entry_frame(e),
    ) && lv[entry_frame(e)] == 2)
    &&& (lv[f] == 3 && e != 0 && entry_huge(e) ==> entry_present(e) && entry_frame(e) % 0x40000
        == 0)
    &&& (lv[f] == 2 && e != 0 && !entry_huge(e) ==> entry_present(e) && m.contains_key(
        entry_frame(e),
    ) && lv[entry_frame(e)] == 1)
    &&& (lv[f] == 2 && e != 0 && entry_huge(e) ==> entry_present(e) && entry_frame(e) % 512 == 0)
}

/// The entry at `(f, i)` is a table pointer (not a recursive slot).
pub open spec fn ref_at(m: Map<u64, Seq<u64>>, lv: Map<u64, int>, f: u64, i: int) -> bool {
    &&& m.contains_key(f)
    &&& 0 <= i < 512
    &&& 2 <= lv[f] <= 4
    &&& !(lv[f] == 4 && i == 511)
    &&& read(m, f, i) != 0
    &&& !entry_huge(read(m, f, i))
}

/// Well-formedness of the whole table memory under a level assignment.
pub open spec fn wf_mem(m: Map<u64, Seq<u64>>, lv: Map<u64, int>, cr3: u64) -> bool {
    &&& mem_wf(m)
    &&& forall|f: u64| m.contains_key(f) <==> #[trigger] lv.contains_key(f)
    &&& m.contains_key(cr3)
    &&& lv[cr3] == 4
    &&& forall|f: u64| #[trigger] m.contains_key(f) ==> 1 <= lv[f] <= 4
    &&& forall|f: u64, i: int|
        m.contains_key(f) && 0 <= i < 512 ==> #[trigger] entry_ok(m, lv, f, i)
    &&& forall|f: u64, i: int, g: u64, j: int|
        #[trigger] ref_at(m, lv, f, i) && #[trigger] ref_at(m, lv, g, j) && entry_frame(
            read(m, f, i),
        ) == entry_frame(read(m, g, j)) ==> f == g && i == j
}

/// A present entry is not zero.
pub proof fn lemma_present_nonzero(e: u64)
    ensures
        entry_present(e) ==> e != 0,
        entry_frame(e) < MAX_FRAME,
{
    assert(e & 1 == 1 ==> e != 0) by (bit_vector);
    assert((e & 0x000f_ffff_ffff_f000) >> 12 < 0x100_0000_0000) by (bit_vector);
}

proof fn lemma_zero_entry()
    ensures
        !entry_present(0),
        !entry_huge(0),
{
    assert(0u64 & 1 != 1 && 0u64 & 0x80 != 0x80) by (bit_vector);
}

/// Installing a fresh, zeroed table under an unused slot of a table at
/// level `k` keeps the memory well formed and leaves every walk outside
/// the recursive region unchanged: the new slot was absent before and
/// leads only into zeroes now.
proof fn lemma_attach_step(
    m: Map<u64, Seq<u64>>,
    lv: Map<u64, int>,
    cr3: u64,
    pf: u64,
    i: int,
    nf: u64,
    k: int,
    m2: Map<u64, Seq<u64>>,
    lv2: Map<u64, int>,
)
    requires
        wf_mem(m, lv, cr3),
        m.contains_key(pf),
        lv[pf] == k,
        2 <= k <= 4,
        0 <= i < 512,
        !(k == 4 && i == 511),
        read(m, pf, i) == 0,
        !m.contains_key(nf),
        nf < MAX_FRAME,
        m2 == m.insert(nf, zero_table()).insert(pf, m[pf].update(i, (nf << 12) | 3)),
        lv2 == lv.insert(nf, k - 1),
    ensures
        wf_mem(m2, lv2, cr3),
        mem_extends(m, m2),
        read(m2, pf, i) == (nf << 12) | 3,
        entry_frame(read(m2, pf, i)) == nf,
        read(m2, cr3, 511) == read(m, cr3, 511),
        forall|f: u64, j: int| !(f == pf && j == i) ==> read(m2, f, j) == read(m, f, j),
        forall|j: int| read(m2, nf, j) == 0,
        forall|f: u64| m2.contains_key(f) == (m.contains_key(f) || f == nf),
        forall|r2: u64, w: u64|
            m.contains_key(r2) && lv[r2] == 4 && idx4(w) != 511 ==> #[trigger] same_walk(
                m,
                m2,
                r2,
                w,
            ),
{
    let ptr = (nf << 12) | 3;
    assert(3u64 & 0x8000_0000_0000_01ff == 3) by (bit_vector);
    lemma_entry_build(nf, 3);
    assert(3u64 & 1 == 1 && 3u64 & 0x80 == 0 && 0u64 & 1 != 1 && 0u64 & 0x80 != 0x80)
        by (bit_vector);
    assert(entry_present(ptr) && !entry_huge(ptr) && entry_frame(ptr) == nf && ptr != 0);
    lemma_zero_entry();
    assert(nf != pf && nf != cr3);
    // read characterisation
    assert(m[pf].len() == 512);
    assert forall|j: int| read(m2, nf, j) == 0 by {
        if 0 <= j < 512 {
            assert(m2[nf] == zero_table());
            assert(zero_table()[j] == 0);
        }
    }
    assert forall|f: u64, j: int| !(f == pf && j == i) implies read(m2, f, j) == read(m, f, j) by {
        if f == nf {
            assert(read(m, nf, j) == 0);
            assert(read(m2, nf, j) == 0);
        }
    }
    assert(read(m2, pf, i) == ptr);
    // well-formedness of the new memory
    assert forall|f: u64, j: int| m2.contains_key(f) && 0 <= j < 512 implies #[trigger] entry_ok(
        m2,
        lv2,
        f,
        j,
    ) by {
        if f == nf {
            assert(read(m2, f, j) == 0);
        } else if f == pf && j == i {
            assert(lv2[pf] == k);
            assert(m2.contains_key(nf) && lv2[nf] == k - 1);
        } else {
            assert(entry_ok(m, lv, f, j));
            assert(read(m2, f, j) == read(m, f, j));
            let e = read(m, f, j);
            if e != 0 {
                if (lv[f] == 4 && j != 511 && !entry_huge(e)) || (lv[f] == 3 && !entry_huge(e))
                    || (lv[f] == 2 && !entry_huge(e)) || (lv[f] == 4 && j == 511) {
                    assert(m.contains_key(entry_frame(e)));
                    assert(entry_frame(e) != nf);
                    assert(lv2[entry_frame(e)] == lv[entry_frame(e)]);
                }
            }
        }
    }
    assert forall|f: u64, j: int, g: u64, jj: int|
        #[trigger] ref_at(m2, lv2, f, j) && #[trigger] ref_at(m2, lv2, g, jj) && entry_frame(
            read(m2, f, j),
        ) == entry_frame(read(m2, g, jj)) implies f == g && j == jj by {
        if f == nf || g == nf {
            assert(false);
        } else {
            let fnew = f == pf && j == i;
            let gnew = g == pf && jj == i;
            if fnew && gnew {
            } else if fnew {
                assert(ref_at(m, lv, g, jj));
                assert(entry_ok(m, lv, g, jj));
                assert(m.contains_key(entry_frame(read(m, g, jj))));
                assert(false);
            } else if gnew {
                assert(ref_at(m, lv, f, j));
                assert(entry_ok(m, lv, f, j));
                assert(m.contains_key(entry_frame(read(m, f, j))));
                assert(false);
            } else {
                assert(ref_at(m, lv, f, j) && ref_at(m, lv, g, jj));
            }
        }
    }
    assert(wf_mem(m2, lv2, cr3));
    // the frame condition, for walks rooted at any level-4 table
    assert forall|root: u64, w: u64|
        m.contains_key(root) && lv[root] == 4 && idx4(w) != 511 implies #[trigger] same_walk(
            m,
            m2,
            root,
            w,
        ) by {
        assert(root != nf);
        lemma_idx_bounds(w);
        let e4o = walk_e4(m, root, w);
        let e4n = walk_e4(m2, root, w);
        if root == pf && idx4(w) == i {
            assert(e4o == 0);
            assert(e4n == ptr);
            assert(walk_f3(m2, root, w) == nf);
            assert(walk_e3(m2, root, w) == 0);
            assert(translate_page_spec(m, root, w) is None);
            assert(translate_page_spec(m2, root, w) is None);
            assert(can_map(m, root, w) && can_map(m2, root, w));
            assert(!mapped_p1(m, root, w) && !mapped_p1(m2, root, w));
        } else {
            assert(e4n == e4o);
            if !entry_present(e4o) || entry_huge(e4o) {
                assert(same_walk(m, m2, root, w));
            } else {
                lemma_present_nonzero(e4o);
                assert(entry_ok(m, lv, root, idx4(w)));
                let f3 = walk_f3(m, root, w);
                assert(m.contains_key(f3) && lv[f3] == 3);
                assert(f3 != nf);
                let e3o = walk_e3(m, root, w);
                let e3n = walk_e3(m2, root, w);
                if f3 == pf && idx3(w) == i {
                    assert(e3o == 0);
                    assert(e3n == ptr);
                    assert(walk_f2(m2, root, w) == nf);
                    assert(walk_e2(m2, root, w) == 0);
                    assert(translate_page_spec(m, root, w) is None);
                    assert(translate_page_spec(m2, root, w) is None);
                    assert(can_map(m, root, w) && can_map(m2, root, w));
                    assert(!mapped_p1(m, root, w) && !mapped_p1(m2, root, w));
                } else {
                    assert(e3n == e3o);
                    if !entry_present(e3o) || entry_huge(e3o) {
                        assert(same_walk(m, m2, root, w));
                    } else {
                        lemma_present_nonzero(e3o);
                        assert(entry_ok(m, lv, f3, idx3(w)));
                        let f2 = walk_f2(m, root, w);
                        assert(m.contains_key(f2) && lv[f2] == 2);
                        assert(f2 != nf);
                        let e2o = walk_e2(m, root, w);
                        let e2n = walk_e2(m2, root, w);
                        if f2 == pf && idx2(w) == i {
                            assert(e2o == 0);
                            assert(e2n == ptr);
                            assert(walk_f1(m2, root, w) == nf);
                            assert(walk_e1(m2, root, w) == 0);
                            assert(translate_page_spec(m, root, w) is None);
                            assert(translate_page_spec(m2, root, w) is None);
                            assert(can_map(m, root, w) && can_map(m2, root, w));
                            assert(!mapped_p1(m, root, w) && !mapped_p1(m2, root, w));
                        } else {
                            assert(e2n == e2o);
                            if !entry_present(e2o) || entry_huge(e2o) {
                                assert(same_walk(m, m2, root, w));
                            } else {
                                lemma_present_nonzero(e2o);
                                assert(entry_ok(m, lv, f2, idx2(w)));
                                let f1 = walk_f1(m, root, w);
                                assert(m.contains_key(f1) && lv[f1] == 1);
                                assert(f1 != nf);
                                if f1 == pf && idx1(w) == i {
                                    assert(lv[pf] == k && k >= 2);
                                    assert(false);
                                }
                                assert(walk_e1(m2, root, w) == walk_e1(m, root, w));
                                assert(same_walk(m, m2, root, w));
                            }
                        }
                    }
                }
            }
        }
    }
}

/// Writing the level-1 slot of a fully walked page changes that page's
/// mapping alone: every other canonical page outside the recursive region
/// walks exactly as before.
proof fn lemma_leaf_step(
    m: Map<u64, Seq<u64>>,
    lv: Map<u64, int>,
    cr3: u64,
    v: u64,
    val: u64,
    m2: Map<u64, Seq<u64>>,
)
    requires
        wf_mem(m, lv, cr3),
        page_canonical(v),
        idx4(v) != 511,
        entry_present(walk_e4(m, entry_frame(read(m, cr3, 511)), v)) && !entry_huge(
            walk_e4(m, entry_frame(read(m, cr3, 511)), v),
        ),
        entry_present(walk_e3(m, entry_frame(read(m, cr3, 511)), v)) && !entry_huge(
            walk_e3(m, entry_frame(read(m, cr3, 511)), v),
        ),
        entry_present(walk_e2(m, entry_frame(read(m, cr3, 511)), v)) && !entry_huge(
            walk_e2(m, entry_frame(read(m, cr3, 511)), v),
        ),
        m2 == m.insert(
            walk_f1(m, entry_frame(read(m, cr3, 511)), v),
            m[walk_f1(m, entry_frame(read(m, cr3, 511)), v)].update(idx1(v), val),
        ),
    ensures
        wf_mem(m2, lv, cr3),
        read(m2, cr3, 511) == read(m, cr3, 511),
        forall|f: u64| m2.contains_key(f) == m.contains_key(f),
        forall|f: u64, j: int|
            !(f == walk_f1(m, entry_frame(read(m, cr3, 511)), v) && j == idx1(v)) ==> read(
                m2,
                f,
                j,
            ) == read(m, f, j),
        walk_e4(m2, entry_frame(read(m, cr3, 511)), v) == walk_e4(
            m,
            entry_frame(read(m, cr3, 511)),
            v,
        ),
        walk_e3(m2, entry_frame(read(m, cr3, 511)), v) == walk_e3(
            m,
            entry_frame(read(m, cr3, 511)),
            v,
        ),
        walk_e2(m2, entry_frame(read(m, cr3, 511)), v) == walk_e2(
            m,
            entry_frame(read(m, cr3, 511)),
            v,
        ),
        walk_e1(m2, entry_frame(read(m, cr3, 511)), v) == val,
        forall|r2: u64, w: u64|
            m.contains_key(r2) && lv[r2] == 4 && page_canonical(w) && idx4(w) != 511 && (w != v
                || r2 != entry_frame(read(m, cr3, 511))) ==> #[trigger] same_walk(m, m2, r2, w),
{
    let root = entry_frame(read(m, cr3, 511));
    assert(entry_ok(m, lv, cr3, 511));
    assert(m.contains_key(root) && lv[root] == 4);
    lemma_idx_bounds(v);
    lemma_present_nonzero(walk_e4(m, root, v));
    lemma_present_nonzero(walk_e3(m, root, v));
    lemma_present_nonzero(walk_e2(m, root, v));
    assert(entry_ok(m, lv, root, idx4(v)));
    let f3v = walk_f3(m, root, v);
    assert(m.contains_key(f3v) && lv[f3v] == 3);
    assert(entry_ok(m, lv, f3v, idx3(v)));
    let f2v = walk_f2(m, root, v);
    assert(m.contains_key(f2v) && lv[f2v] == 2);
    assert(entry_ok(m, lv, f2v, idx2(v)));
    let f1v = walk_f1(m, root, v);
    assert(m.contains_key(f1v) && lv[f1v] == 1);
    assert(m[f1v].len() == 512);
    assert forall|f: u64, j: int| !(f == f1v && j == idx1(v)) implies read(m2, f, j) == read(
        m,
        f,
        j,
    ) by {}
    // well-formedness: a level-1 slot carries no structural obligation
    assert forall|f: u64, j: int| m2.contains_key(f) && 0 <= j < 512 implies #[trigger] entry_ok(
        m2,
        lv,
        f,
        j,
    ) by {
        assert(entry_ok(m, lv, f, j));
        if f == f1v && j == idx1(v) {
            assert(lv[f] == 1);
        } else {
            assert(read(m2, f, j) == read(m, f, j));
            let e = read(m, f, j);
            if e != 0 {
                if (lv[f] == 4 && j != 511 && !entry_huge(e)) || (lv[f] == 3 && !entry_huge(e))
                    || (lv[f] == 2 && !entry_huge(e)) || (lv[f] == 4 && j == 511) {
                    assert(m.contains_key(entry_frame(e)));
                }
            }
        }
    }
    assert forall|f: u64, j: int, g: u64, jj: int|
        #[trigger] ref_at(m2, lv, f, j) && #[trigger] ref_at(m2, lv, g, jj) && entry_frame(
            read(m2, f, j),
        ) == entry_frame(read(m2, g, jj)) implies f == g && j == jj by {
        assert(ref_at(m, lv, f, j) && ref_at(m, lv, g, jj));
    }
    assert(wf_mem(m2, lv, cr3));
    assert(walk_e1(m2, root, v) == val);
    // the frame condition, for walks rooted at any level-4 table
    assert forall|r2: u64, w: u64|
        m.contains_key(r2) && lv[r2] == 4 && page_canonical(w) && idx4(w) != 511 && (w != v || r2
            != root) implies #[trigger] same_walk(m, m2, r2, w) by {
        lemma_idx_bounds(w);
        assert(r2 != f1v);
        let e4o = walk_e4(m, r2, w);
        assert(walk_e4(m2, r2, w) == e4o);
        if !entry_present(e4o) || entry_huge(e4o) {
            assert(same_walk(m, m2, r2, w));
        } else {
            lemma_present_nonzero(e4o);
            assert(entry_ok(m, lv, r2, idx4(w)));
            let f3 = walk_f3(m, r2, w);
            assert(m.contains_key(f3) && lv[f3] == 3);
            assert(f3 != f1v);
            let e3o = walk_e3(m, r2, w);
            assert(walk_e3(m2, r2, w) == e3o);
            if !entry_present(e3o) || entry_huge(e3o) {
                assert(same_walk(m, m2, r2, w));
            } else {
                lemma_present_nonzero(e3o);
                assert(entry_ok(m, lv, f3, idx3(w)));
                let f2 = walk_f2(m, r2, w);
                assert(m.contains_key(f2) && lv[f2] == 2);
                assert(f2 != f1v);
                let e2o = walk_e2(m, r2, w);
                assert(walk_e2(m2, r2, w) == e2o);
                if !entry_present(e2o) || entry_huge(e2o) {
                    assert(same_walk(m, m2, r2, w));
                } else {
                    lemma_present_nonzero(e2o);
                    assert(entry_ok(m, lv, f2, idx2(w)));
                    let f1 = walk_f1(m, r2, w);
                    assert(m.contains_key(f1) && lv[f1] == 1);
                    if f1 == f1v && idx1(w) == idx1(v) {
                        // two full walks sharing the level-1 slot are the same page
                        // under the same root
                        assert(ref_at(m, lv, f2, idx2(w)) && ref_at(m, lv, f2v, idx2(v)));
                        assert(f2 == f2v && idx2(w) == idx2(v));
                        assert(ref_at(m, lv, f3, idx3(w)) && ref_at(m, lv, f3v, idx3(v)));
                        assert(f3 == f3v && idx3(w) == idx3(v));
                        assert(ref_at(m, lv, r2, idx4(w)) && ref_at(m, lv, root, idx4(v)));
                        assert(r2 == root && idx4(w) == idx4(v));
                        lemma_page_index_injective(w, v);
                        assert(false);
                    }
                    assert(walk_e1(m2, r2, w) == walk_e1(m, r2, w));
                    assert(same_walk(m, m2, r2, w));
                }
            }
        }
    }
}

/// Operations on the active page-table hierarchy, rooted at the table
/// that the recursive entry 511 of the `cr3` table points at.
pub struct Mapper {
    cr3: u64,
    store: TableStore,
    levels: Ghost<Map<u64, int>>,
}

impl Mapper {
    /// The contents of every frame holding a page table.
    pub closed spec fn mem(self) -> Map<u64, Seq<u64>> {
        self.store@
    }

    /// The frame of the table the processor register points at.
    pub closed spec fn cr3_of(self) -> u64 {
        self.cr3
    }

    /// The frame all mapper operations are rooted at: the target of the
    /// recursive entry 511 of the `cr3` table.
    pub open spec fn root_of(self) -> u64 {
        entry_frame(read(self.mem(), self.cr3_of(), 511))
    }

    pub closed spec fn wf(self) -> bool {
        &&& self.store.wf()
        &&& wf_mem(self.store@, self.levels@, self.cr3)
        &&& self.cr3 < MAX_FRAME
    }

    /// Frame `f` holds a level-4 table of the model: the top of an active
    /// or inactive hierarchy.
    pub closed spec fn is_p4(self, f: u64) -> bool {
        self.mem().contains_key(f) && self.levels@[f] == 4
    }

    /// A level-4 table is a table of the model.
    pub proof fn lemma_is_p4_contains(self, f: u64)
        requires
            self.is_p4(f),
        ensures
            self.mem().contains_key(f),
    {
    }

    /// The `cr3` table is a level-4 table.
    pub proof fn lemma_cr3_is_p4(self)
        requires
            self.wf(),
        ensures
            self.is_p4(self.cr3_of()),
            self.mem().contains_key(self.cr3_of()),
    {
    }

    /// The table the mapper roots at is a level-4 table.
    pub proof fn lemma_root_is_p4(self)
        requires
            self.wf(),
        ensures
            self.is_p4(self.root_of()),
            self.is_p4(self.cr3_of()),
            self.mem().contains_key(self.root_of()),
    {
        assert(entry_ok(self.mem(), self.levels@, self.cr3, 511));
    }

    /// The well-formedness facts callers may rely on.
    pub proof fn lemma_wf(self)
        requires
            self.wf(),
        ensures
            self.mem().contains_key(self.cr3_of()),
            self.mem().contains_key(self.root_of()),
            mem_wf(self.mem()),
            self.cr3_of() < MAX_FRAME,
    {
        assert(entry_ok(self.mem(), self.levels@, self.cr3, 511));
    }

    /// A mapper for a boot hierarchy that consists of a single level-4
    /// table at `p4`, empty but for its recursive entry 511.
    pub fn new_at(p4: u64) -> (r: Mapper)
        requires
            p4 < MAX_FRAME,
        ensures
            r.wf(),
            r.cr3_of() == p4,
            r.root_of() == p4,
            r.mem() =~= Map::<u64, Seq<u64>>::empty().insert(
                p4,
                zero_table().update(511, (p4 << 12) | 3),
            ),
    {
        let mut store = TableStore::new();
        store.insert_table(p4);
        store.set_entry(p4, 511, (p4 << 12) | 3);
        let r = Mapper { cr3: p4, store, levels: Ghost(Map::empty().insert(p4, 4)) };
        proof {
            let m = r.store@;
            let lv = r.levels@;
            assert(3u64 & 0x8000_0000_0000_01ff == 3 && 3u64 & 1 == 1 && 3u64 & 0x80 == 0)
                by (bit_vector);
            lemma_entry_build(p4, 3);
            assert(m[p4].len() == 512);
            assert(read(m, p4, 511) == (p4 << 12) | 3);
            assert(entry_present(read(m, p4, 511)));
            assert(!entry_huge(read(m, p4, 511)));
            assert(entry_frame(read(m, p4, 511)) == p4);
            assert forall|f: u64, i: int| m.contains_key(f) && 0 <= i < 512 implies #[trigger]
                entry_ok(m, lv, f, i) by {
                if i != 511 {
                    assert(read(m, f, i) == 0);
                }
            }
            assert forall|f: u64, i: int, g: u64, j: int|
                #[trigger] ref_at(m, lv, f, i) && #[trigger] ref_at(m, lv, g, j) && entry_frame(
                    read(m, f, i),
                ) == entry_frame(read(m, g, j)) implies f == g && i == j by {
                assert(read(m, f, i) == 0 || (f == p4 && i == 511));
            }
        }
        r
    }

    /// The frame of the root table, read through the recursive entry.
    pub fn p4_frame(&self) -> (r: u64)
        requires
            self.wf(),
        ensures
            r == self.root_of(),
    {
        let e = self.store_get(self.cr3, 511);
        (e & ADDRESS_MASK) >> 12
    }

    /// Read one entry of one table of the model.
    fn store_get(&self, f: u64, i: usize) -> (e: u64)
        requires
            self.wf(),
            i < 512,
        ensures
            e == read(self.mem(), f, i as int),
    {
        self.store.get_entry(f, i)
    }

    /// Walk the tables for `page`, recognising 1 GiB mappings at level 3
    /// and 2 MiB mappings at level 2.
    pub fn translate_page(&self, page: VirtualPage) -> (r: Option<PhysicalPage>)
        requires
            self.wf(),
        ensures
            translate_page_spec(self.mem(), self.root_of(), page.number) == match r {
                Some(p) => Some(p.number as int),
                None => None,
            },
            r matches Some(p) ==> p.number < 0x200_0000_0000,
    {
        let ghost m = self.mem();
        let ghost root_g = self.root_of();
        let ghost n = page.number;
        let root = self.p4_frame();
        let e4 = self.store_get(root, page.p4_index());
        if e4 & PRESENT != PRESENT || e4 & HUGE_PAGE == HUGE_PAGE {
            return None;
        }
        let f3 = (e4 & ADDRESS_MASK) >> 12;
        proof {
            assert(f3 == walk_f3(m, root_g, n));
            lemma_present_nonzero(walk_e3(m, root_g, n));
            lemma_present_nonzero(walk_e2(m, root_g, n));
            lemma_present_nonzero(walk_e1(m, root_g, n));
            lemma_idx_bounds(n);
        }
        let e3 = self.store_get(f3, page.p3_index());
        if e3 & PRESENT != PRESENT {
            return None;
        }
        if e3 & HUGE_PAGE == HUGE_PAGE {
            let start = (e3 & ADDRESS_MASK) >> 12;
            return Some(
                PhysicalPage { number: start + (page.p2_index() as u64) * 512 + (
                page.p1_index() as u64) },
            );
        }
        let f2 = (e3 & ADDRESS_MASK) >> 12;
        let e2 = self.store_get(f2, page.p2_index());
        if e2 & PRESENT != PRESENT {
            return None;
        }
        if e2 & HUGE_PAGE == HUGE_PAGE {
            let start = (e2 & ADDRESS_MASK) >> 12;
            return Some(PhysicalPage { number: start + (page.p1_index() as u64) });
        }
        let f1 = (e2 & ADDRESS_MASK) >> 12;
        let e1 = self.store_get(f1, page.p1_index());
        if e1 & PRESENT == PRESENT {
            Some(PhysicalPage { number: (e1 & ADDRESS_MASK) >> 12 })
        } else {
            None
        }
    }

    /// Return the table the walk for `index` under `parent` descends into,
    /// installing a fresh zeroed table from `allocator` if the slot is
    /// unused.
    fn next_table_create<A: Allocator>(
        &mut self,
        parent: u64,
        index: usize,
        Ghost(k): Ghost<int>,
        allocator: &mut A,
    ) -> (child: u64)
        requires
            old(self).wf(),
            old(self).mem().contains_key(parent),
            old(self).levels@[parent] == k,
            2 <= k <= 4,
            index < 512,
            !(k == 4 && index == 511),
            read(old(self).mem(), parent, index as int) == 0 || (entry_present(
                read(old(self).mem(), parent, index as int),
            ) && !entry_huge(read(old(self).mem(), parent, index as int))),
            old(allocator).wf(),
            read(old(self).mem(), parent, index as int) == 0 ==> old(allocator).avail() >= 1
                && (forall|f: u64|
                old(allocator).pool().contains(f) ==> !old(self).mem().contains_key(f)),
        ensures
            final(self).wf(),
            final(self).cr3_of() == old(self).cr3_of(),
            read(final(self).mem(), old(self).cr3_of(), 511) == read(
                old(self).mem(),
                old(self).cr3_of(),
                511,
            ),
            final(self).root_of() == old(self).root_of(),
            final(allocator).wf(),
            final(allocator).pool().subset_of(old(allocator).pool()),
            entry_present(read(final(self).mem(), parent, index as int)),
            !entry_huge(read(final(self).mem(), parent, index as int)),
            entry_frame(read(final(self).mem(), parent, index as int)) == child,
            final(self).mem().contains_key(child),
            final(self).levels@[child] == k - 1,
            child < MAX_FRAME,
            forall|f: u64| old(self).is_p4(f) ==> #[trigger] final(self).is_p4(f),
            forall|f: u64|
                #[trigger] old(self).mem().contains_key(f) ==> final(self).levels@[f] == old(
                    self,
                ).levels@[f],
            forall|f: u64, j: int|
                !(f == parent && j == index as int) ==> read(final(self).mem(), f, j) == read(
                    old(self).mem(),
                    f,
                    j,
                ),
            mem_extends(old(self).mem(), final(self).mem()),
            if read(old(self).mem(), parent, index as int) == 0 {
                &&& (forall|j: int| read(final(self).mem(), child, j) == 0)
                &&& old(allocator).pool().contains(child)
                &&& (forall|f: u64|
                    final(self).mem().contains_key(f) == (old(self).mem().contains_key(f) || f
                        == child))
                &&& final(allocator).pool().subset_of(old(allocator).pool().remove(child))
                &&& final(allocator).avail() + 1 == old(allocator).avail()
                &&& (forall|r2: u64, w: u64|
                    old(self).is_p4(r2) && idx4(w) != 511 ==> #[trigger] same_walk(
                        old(self).mem(),
                        final(self).mem(),
                        r2,
                        w,
                    ))
            } else {
                &&& *final(self) == *old(self)
                &&& *final(allocator) == *old(allocator)
            },
    {
        let ghost m0 = self.mem();
        let ghost lv0 = self.levels@;
        let e = self.store_get(parent, index);
        if e == 0 {
            let fr = match allocator.allocate() {
                Some(p) => p,
                None => {
                    proof {
                        assert(false);
                    }
                    PhysicalPage { number: 0 }
                },
            };
            self.store.insert_table(fr.number);
            self.store.set_entry(parent, index, (fr.number << 12) | 3);
            proof {
                self.levels@ = lv0.insert(fr.number, k - 1);
                assert(self.store@ =~= m0.insert(fr.number, zero_table()).insert(
                    parent,
                    m0[parent].update(index as int, (fr.number << 12) | 3),
                ));
                lemma_attach_step(
                    m0,
                    lv0,
                    self.cr3,
                    parent,
                    index as int,
                    fr.number,
                    k,
                    self.store@,
                    self.levels@,
                );
                assert(3u64 & 0x8000_0000_0000_01ff == 3 && 3u64 & 1 == 1 && 3u64 & 0x80 == 0)
                    by (bit_vector);
                lemma_entry_build(fr.number, 3);
            }
            fr.number
        } else {
            proof {
                lemma_present_nonzero(e);
                assert(entry_ok(m0, lv0, parent, index as int));
                assert(mem_extends(m0, m0));
            }
            (e & ADDRESS_MASK) >> 12
        }
    }

    /// Map `virtual_page` to `physical_page` with the given flags (plus
    /// PRESENT), creating intermediate tables from `allocator` as needed.
    /// The target level-1 slot must be unused; no other page's walk
    /// changes.
    pub fn map_to<A: Allocator>(
        &mut self,
        virtual_page: VirtualPage,
        physical_page: PhysicalPage,
        flags: EntryFlags,
        allocator: &mut A,
    )
        requires
            old(self).wf(),
            virtual_page.wf(),
            idx4(virtual_page.number) != 511,
            flags.wf(),
            flags.bits & HUGE_PAGE == 0,
            physical_page.number < MAX_FRAME,
            can_map(old(self).mem(), old(self).root_of(), virtual_page.number),
            old(allocator).wf(),
            old(allocator).avail() >= tables_needed(
                old(self).mem(),
                old(self).root_of(),
                virtual_page.number,
            ),
            tables_needed(old(self).mem(), old(self).root_of(), virtual_page.number) > 0 ==> (
            forall|f: u64|
                old(allocator).pool().contains(f) ==> !old(self).mem().contains_key(f)),
        ensures
            final(self).wf(),
            final(self).cr3_of() == old(self).cr3_of(),
            final(self).root_of() == old(self).root_of(),
            mapped_p1(final(self).mem(), old(self).root_of(), virtual_page.number),
            p1_slot(final(self).mem(), old(self).root_of(), virtual_page.number) == (
            physical_page.number << 12) | flags.bits | 1,
            translate_page_spec(final(self).mem(), old(self).root_of(), virtual_page.number)
                == Some(physical_page.number as int),
            preserves_walks(
                old(self).mem(),
                final(self).mem(),
                old(self).root_of(),
                virtual_page.number,
            ),
            mem_extends(old(self).mem(), final(self).mem()),
            forall|f: u64|
                #[trigger] final(self).mem().contains_key(f) ==> old(self).mem().contains_key(f)
                    || (old(allocator).pool().contains(f)
                        && !(final(allocator).pool().contains(f))),
            final(allocator).wf(),
            final(allocator).pool().subset_of(old(allocator).pool()),
            final(allocator).avail() + tables_needed(
                old(self).mem(),
                old(self).root_of(),
                virtual_page.number,
            ) == old(allocator).avail(),
            forall|f: u64| old(self).is_p4(f) ==> #[trigger] final(self).is_p4(f),
            forall|f: u64, j: int|
                old(self).is_p4(f) && f != old(self).root_of() ==> read(
                    final(self).mem(),
                    f,
                    j,
                ) == read(old(self).mem(), f, j),
            forall|r2: u64, w: u64|
                old(self).is_p4(r2) && r2 != old(self).root_of() && page_canonical(w) && idx4(w)
                    != 511 ==> #[trigger] same_walk(old(self).mem(), final(self).mem(), r2, w),
    {
        let ghost m0 = self.mem();
        let ghost root = self.root_of();
        let ghost v = virtual_page.number;
        let ghost need = tables_needed(m0, root, v);
        proof {
            lemma_idx_bounds(v);
            assert(entry_ok(m0, self.levels@, self.cr3, 511));
            lemma_zero_entry();
        }
        let rootx = self.p4_frame();
        let i4 = virtual_page.p4_index();
        let i3 = virtual_page.p3_index();
        let i2 = virtual_page.p2_index();
        let i1 = virtual_page.p1_index();
        let ghost e4o = walk_e4(m0, root, v);
        let f3 = self.next_table_create(rootx, i4, Ghost(4), allocator);
        let ghost m1 = self.mem();
        let ghost a1 = *allocator;
        proof {
            assert(walk_e3(m1, root, v) == read(m1, f3, i3 as int));
            if e4o == 0 {
                assert(read(m1, f3, i3 as int) == 0);
            } else {
                assert(f3 != rootx);
                assert(read(m1, f3, i3 as int) == walk_e3(m0, root, v));
            }
        }
        let ghost e3x = read(m1, f3, i3 as int);
        let f2 = self.next_table_create(f3, i3, Ghost(3), allocator);
        let ghost m2 = self.mem();
        let ghost a2 = *allocator;
        proof {
            assert(read(m2, rootx, i4 as int) == read(m1, rootx, i4 as int));
            assert(walk_e4(m2, root, v) == walk_e4(m1, root, v));
            assert(walk_f3(m2, root, v) == f3);
            assert(walk_e3(m2, root, v) == read(m2, f3, i3 as int));
            assert(walk_e2(m2, root, v) == read(m2, f2, i2 as int));
            if e3x == 0 {
                assert(read(m2, f2, i2 as int) == 0);
            } else {
                assert(f2 != f3 && f2 != rootx);
                assert(read(m2, f2, i2 as int) == read(m1, f2, i2 as int));
                if e4o == 0 {
                    assert(read(m1, f2, i2 as int) == 0);
                } else {
                    assert(read(m1, f2, i2 as int) == walk_e2(m0, root, v));
                }
            }
        }
        let ghost e2x = read(m2, f2, i2 as int);
        let f1 = self.next_table_create(f2, i2, Ghost(2), allocator);
        let ghost m3 = self.mem();
        let ghost a3 = *allocator;
        proof {
            assert(f1 != rootx && f1 != f3 && f1 != f2);
            assert(read(m3, rootx, i4 as int) == read(m2, rootx, i4 as int));
            assert(read(m3, f3, i3 as int) == read(m2, f3, i3 as int));
            assert(walk_e4(m3, root, v) == walk_e4(m2, root, v));
            assert(walk_f3(m3, root, v) == f3);
            assert(walk_e3(m3, root, v) == walk_e3(m2, root, v));
            assert(walk_f2(m3, root, v) == f2);
            assert(walk_e2(m3, root, v) == read(m3, f2, i2 as int));
            assert(entry_present(walk_e2(m3, root, v)) && !entry_huge(walk_e2(m3, root, v)));
            assert(walk_f1(m3, root, v) == f1);
            assert(walk_e1(m3, root, v) == read(m3, f1, i1 as int));
            if e2x == 0 {
                assert(read(m3, f1, i1 as int) == 0);
            } else {
                assert(read(m3, f1, i1 as int) == read(m2, f1, i1 as int));
                assert(read(m2, f1, i1 as int) == read(m1, f1, i1 as int));
                assert(read(m1, f1, i1 as int) == walk_e1(m0, root, v));
            }
            assert(read(m3, f1, i1 as int) == 0);
        }
        let val = (physical_page.number << 12) | (flags.bits | 1);
        proof {
            let fb = flags.bits;
            assert(fb & 0x8000_0000_0000_01ff == fb ==> (fb | 1) & 0x8000_0000_0000_01ff == (fb
                | 1)) by (bit_vector);
            assert(fb & 0x80 == 0 ==> ((fb | 1) & 1 == 1 && (fb | 1) & 0x80 != 0x80))
                by (bit_vector);
            lemma_entry_build(physical_page.number, flags.bits | 1);
        }
        self.store.set_entry(f1, i1, val);
        proof {
            assert(self.store@ =~= m3.insert(f1, m3[f1].update(i1 as int, val)));
            lemma_leaf_step(m3, self.levels@, self.cr3, v, val, self.store@);
            let m4 = self.store@;
            assert(mapped_p1(m4, root, v));
            assert(p1_slot(m4, root, v) == val);
            let pn = physical_page.number;
            let fb = flags.bits;
            assert(((pn << 12) | (fb | 1)) == (((pn << 12) | fb) | 1)) by (bit_vector);
            assert(entry_frame(val) == physical_page.number);
            assert(translate_page_spec(m4, root, v) == Some(physical_page.number as int));
            // frame condition, composed across the four steps
            assert(old(self).is_p4(root));
            assert forall|w: u64|
                page_canonical(w) && w != v && idx4(w) != 511 implies #[trigger] same_walk(
                m0,
                m4,
                root,
                w,
            ) by {
                if e4o == 0 {
                    assert(same_walk(m0, m1, root, w));
                }
                if e3x == 0 {
                    assert(same_walk(m1, m2, root, w));
                }
                if e2x == 0 {
                    assert(same_walk(m2, m3, root, w));
                }
                assert(same_walk(m3, m4, root, w));
            }
            assert(preserves_walks(m0, m4, root, v));
            // walks rooted at any other level-4 table are untouched
            assert forall|r2: u64, w: u64|
                old(self).is_p4(r2) && r2 != root && page_canonical(w) && idx4(w) != 511 implies
                #[trigger] same_walk(m0, m4, r2, w) by {
                if e4o == 0 {
                    assert(same_walk(m0, m1, r2, w));
                }
                if e3x == 0 {
                    assert(same_walk(m1, m2, r2, w));
                }
                if e2x == 0 {
                    assert(same_walk(m2, m3, r2, w));
                }
                assert(same_walk(m3, m4, r2, w));
            }
            // memory extension: the leaf slot was zero before the write
            assert(mem_extends(m3, m4)) by {
                assert(forall|f: u64, j: int|
                    !(f == f1 && j == i1 as int) ==> read(m4, f, j) == read(m3, f, j));
                assert(read(m3, f1, i1 as int) == 0);
            }
            assert(mem_extends(m0, m4));
            assert forall|f: u64| #[trigger] m4.contains_key(f) implies m0.contains_key(f) || (old(
                allocator,
            ).pool().contains(f) && !a3.pool().contains(f)) by {
                assert(m4.contains_key(f) == m3.contains_key(f));
                if e2x == 0 && f == f1 {
                    assert(a2.pool().contains(f1));
                    assert(!a3.pool().contains(f1));
                } else if e3x == 0 && f == f2 {
                    assert(a1.pool().contains(f2));
                    assert(!a2.pool().contains(f2));
                } else if e4o == 0 && f == f3 {
                    assert(old(allocator).pool().contains(f3));
                    assert(!a1.pool().contains(f3));
                }
            }
            assert(a3.avail() + need == old(allocator).avail());
            assert(a3.pool().subset_of(old(allocator).pool()));
            // inactive level-4 tables keep their role and their contents
            assert forall|f: u64| old(self).is_p4(f) implies #[trigger] self.is_p4(f) by {
                assert(m1.contains_key(f) && m2.contains_key(f) && m3.contains_key(f));
            }
            assert forall|f: u64, j: int| old(self).is_p4(f) && f != root implies read(
                m4,
                f,
                j,
            ) == read(m0, f, j) by {
                assert(m0.contains_key(f));
                assert(f != rootx);
                assert(f != f3 && f != f2 && f != f1);
                assert(read(m1, f, j) == read(m0, f, j));
                assert(read(m2, f, j) == read(m1, f, j));
                assert(read(m3, f, j) == read(m2, f, j));
                assert(read(m4, f, j) == read(m3, f, j));
            }
        }
    }

    /// Map `virtual_page` to a freshly allocated frame.
    pub fn map<A: Allocator>(
        &mut self,
        virtual_page: VirtualPage,
        flags: EntryFlags,
        allocator: &mut A,
    )
        requires
            old(self).wf(),
            virtual_page.wf(),
            idx4(virtual_page.number) != 511,
            flags.wf(),
            flags.bits & HUGE_PAGE == 0,
            can_map(old(self).mem(), old(self).root_of(), virtual_page.number),
            old(allocator).wf(),
            old(allocator).avail() >= tables_needed(
                old(self).mem(),
                old(self).root_of(),
                virtual_page.number,
            ) + 1,
            tables_needed(old(self).mem(), old(self).root_of(), virtual_page.number) > 0 ==> (
            forall|f: u64|
                old(allocator).pool().contains(f) ==> !old(self).mem().contains_key(f)),
        ensures
            final(self).wf(),
            final(self).cr3_of() == old(self).cr3_of(),
            final(self).root_of() == old(self).root_of(),
            exists|pn: u64|
                {
                    &&& pn < MAX_FRAME
                    &&& old(allocator).pool().contains(pn)
                    &&& old(allocator).ok_frame(pn)
                    &&& #[trigger] p1_slot(
                        final(self).mem(),
                        old(self).root_of(),
                        virtual_page.number,
                    ) == (pn << 12) | flags.bits | 1
                    &&& translate_page_spec(
                        final(self).mem(),
                        old(self).root_of(),
                        virtual_page.number,
                    ) == Some(pn as int)
                },
            mapped_p1(final(self).mem(), old(self).root_of(), virtual_page.number),
            entry_writable(p1_slot(final(self).mem(), old(self).root_of(), virtual_page.number))
                == (flags.bits & 2 == 2),
            preserves_walks(
                old(self).mem(),
                final(self).mem(),
                old(self).root_of(),
                virtual_page.number,
            ),
            mem_extends(old(self).mem(), final(self).mem()),
            forall|f: u64|
                #[trigger] final(self).mem().contains_key(f) ==> old(self).mem().contains_key(f)
                    || (old(allocator).pool().contains(f)
                        && !(final(allocator).pool().contains(f))),
            final(allocator).wf(),
            final(allocator).pool().subset_of(old(allocator).pool()),
            final(allocator).avail() + tables_needed(
                old(self).mem(),
                old(self).root_of(),
                virtual_page.number,
            ) + 1 == old(allocator).avail(),
            forall|f: u64| old(self).is_p4(f) ==> #[trigger] final(self).is_p4(f),
            forall|f: u64, j: int|
                old(self).is_p4(f) && f != old(self).root_of() ==> read(
                    final(self).mem(),
                    f,
                    j,
                ) == read(old(self).mem(), f, j),
            forall|r2: u64, w: u64|
                old(self).is_p4(r2) && r2 != old(self).root_of() && page_canonical(w) && idx4(w)
                    != 511 ==> #[trigger] same_walk(old(self).mem(), final(self).mem(), r2, w),
    {
        let physical_page = match allocator.allocate() {
            Some(p) => p,
            None => {
                proof {
                    assert(false);
                }
                PhysicalPage { number: 0 }
            },
        };
        self.map_to(virtual_page, physical_page, flags, allocator);
        proof {
            let pn = physical_page.number;
            let fb = flags.bits;
            assert(fb & 0x8000_0000_0000_01ff == fb ==> ((((pn << 12) | fb) | 1) & 2 == 2) == (fb
                & 2 == 2)) by (bit_vector);
            assert(p1_slot(self.mem(), old(self).root_of(), virtual_page.number) == (pn << 12)
                | flags.bits | 1);
        }
    }

    /// Map the page with the same number as `physical_page` to that frame.
    pub fn identity_map<A: Allocator>(
        &mut self,
        physical_page: PhysicalPage,
        flags: EntryFlags,
        allocator: &mut A,
    )
        requires
            old(self).wf(),
            physical_page.number < 0x8_0000_0000,
            flags.wf(),
            flags.bits & HUGE_PAGE == 0,
            can_map(old(self).mem(), old(self).root_of(), physical_page.number),
            old(allocator).wf(),
            old(allocator).avail() >= tables_needed(
                old(self).mem(),
                old(self).root_of(),
                physical_page.number,
            ),
            tables_needed(old(self).mem(), old(self).root_of(), physical_page.number) > 0 ==> (
            forall|f: u64|
                old(allocator).pool().contains(f) ==> !old(self).mem().contains_key(f)),
        ensures
            final(self).wf(),
            final(self).cr3_of() == old(self).cr3_of(),
            final(self).root_of() == old(self).root_of(),
            mapped_p1(final(self).mem(), old(self).root_of(), physical_page.number),
            p1_slot(final(self).mem(), old(self).root_of(), physical_page.number) == (
            physical_page.number << 12) | flags.bits | 1,
            translate_page_spec(final(self).mem(), old(self).root_of(), physical_page.number)
                == Some(physical_page.number as int),
            preserves_walks(
                old(self).mem(),
                final(self).mem(),
                old(self).root_of(),
                physical_page.number,
            ),
            mem_extends(old(self).mem(), final(self).mem()),
            forall|f: u64|
                #[trigger] final(self).mem().contains_key(f) ==> old(self).mem().contains_key(f)
                    || (old(allocator).pool().contains(f)
                        && !(final(allocator).pool().contains(f))),
            final(allocator).wf(),
            final(allocator).pool().subset_of(old(allocator).pool()),
            final(allocator).avail() + tables_needed(
                old(self).mem(),
                old(self).root_of(),
                physical_page.number,
            ) == old(allocator).avail(),
            forall|f: u64| old(self).is_p4(f) ==> #[trigger] final(self).is_p4(f),
            forall|f: u64, j: int|
                old(self).is_p4(f) && f != old(self).root_of() ==> read(
                    final(self).mem(),
                    f,
                    j,
                ) == read(old(self).mem(), f, j),
            forall|r2: u64, w: u64|
                old(self).is_p4(r2) && r2 != old(self).root_of() && page_canonical(w) && idx4(w)
                    != 511 ==> #[trigger] same_walk(old(self).mem(), final(self).mem(), r2, w),
    {
        proof {
            let pn = physical_page.number;
            assert(pn < 0x8_0000_0000 ==> (pn * 4096) / 4096 == pn && pn * 4096 < 0x8000_0000_0000
                && (pn >> 27) & 0x1ff < 256) by (bit_vector);
        }
        let virtual_page = VirtualPage::containing_address(physical_page.start_address());
        self.map_to(virtual_page, physical_page, flags, allocator);
    }

    /// Remove the mapping of `page`, leaving its level-1 slot unused, and
    /// hand the frame it pointed at back to `allocator`.
    pub fn unmap<A: Allocator>(&mut self, page: VirtualPage, allocator: &mut A)
        requires
            old(self).wf(),
            page.wf(),
            idx4(page.number) != 511,
            mapped_p1(old(self).mem(), old(self).root_of(), page.number),
            old(allocator).wf(),
            old(allocator).dealloc_ok(
                PhysicalPage {
                    number: entry_frame(
                        p1_slot(old(self).mem(), old(self).root_of(), page.number),
                    ),
                },
            ),
        ensures
            final(self).wf(),
            final(self).cr3_of() == old(self).cr3_of(),
            final(self).root_of() == old(self).root_of(),
            translate_page_spec(final(self).mem(), old(self).root_of(), page.number) is None,
            p1_slot(final(self).mem(), old(self).root_of(), page.number) == 0,
            can_map(final(self).mem(), old(self).root_of(), page.number),
            tables_needed(final(self).mem(), old(self).root_of(), page.number) == 0,
            preserves_walks(old(self).mem(), final(self).mem(), old(self).root_of(), page.number),
            forall|f: u64|
                #[trigger] final(self).mem().contains_key(f) == old(self).mem().contains_key(f),
            final(allocator).wf(),
            final(allocator).pool().subset_of(
                old(allocator).pool().insert(
                    entry_frame(p1_slot(old(self).mem(), old(self).root_of(), page.number)),
                ),
            ),
            final(allocator).avail() >= old(allocator).avail(),
            final(allocator).avail() <= old(allocator).avail() + 1,
            forall|f: u64| old(self).is_p4(f) == #[trigger] final(self).is_p4(f),
            forall|f: u64, j: int|
                old(self).is_p4(f) ==> read(final(self).mem(), f, j) == read(old(self).mem(), f, j),
            forall|r2: u64, w: u64|
                old(self).is_p4(r2) && r2 != old(self).root_of() && page_canonical(w) && idx4(w)
                    != 511 ==> #[trigger] same_walk(old(self).mem(), final(self).mem(), r2, w),
    {
        let ghost m0 = self.mem();
        let ghost root = self.root_of();
        let ghost v = page.number;
        proof {
            lemma_idx_bounds(v);
            assert(entry_ok(m0, self.levels@, self.cr3, 511));
            lemma_present_nonzero(walk_e4(m0, root, v));
            lemma_present_nonzero(walk_e3(m0, root, v));
            lemma_present_nonzero(walk_e2(m0, root, v));
            assert(entry_ok(m0, self.levels@, root, idx4(v)));
            assert(entry_ok(m0, self.levels@, walk_f3(m0, root, v), idx3(v)));
            assert(entry_ok(m0, self.levels@, walk_f2(m0, root, v), idx2(v)));
            assert(m0.contains_key(walk_f1(m0, root, v)));
        }
        let rootx = self.p4_frame();
        let e4 = self.store_get(rootx, page.p4_index());
        let f3 = (e4 & ADDRESS_MASK) >> 12;
        let e3 = self.store_get(f3, page.p3_index());
        let f2 = (e3 & ADDRESS_MASK) >> 12;
        let e2 = self.store_get(f2, page.p2_index());
        let f1 = (e2 & ADDRESS_MASK) >> 12;
        let e1 = self.store_get(f1, page.p1_index());
        let physical_frame = (e1 & ADDRESS_MASK) >> 12;
        self.store.set_entry(f1, page.p1_index(), 0);
        proof {
            assert(self.store@ =~= m0.insert(f1, m0[f1].update(idx1(v), 0)));
            lemma_leaf_step(m0, self.levels@, self.cr3, v, 0, self.store@);
            lemma_zero_entry();
            assert(translate_page_spec(self.store@, root, v) is None);
            assert forall|f: u64, j: int| old(self).is_p4(f) implies read(self.store@, f, j)
                == read(m0, f, j) by {
                assert(f != walk_f1(m0, root, v));
            }
        }
        allocator.deallocate(PhysicalPage { number: physical_frame });
    }

    /// The frame currently named by the processor's table register.
    pub fn cr3_frame(&self) -> (r: u64)
        ensures
            r == self.cr3_of(),
            r < 0x100_0000_0000 || !self.wf(),
    {
        self.cr3
    }

    /// Point the recursive entry 511 of the `cr3` table at `target`, an
    /// inactive level-4 table: afterwards every mapper operation edits
    /// `target`'s hierarchy while the processor still runs on `cr3`.
    pub fn set_recursive_slot(&mut self, target: u64)
        requires
            old(self).wf(),
            old(self).is_p4(target),
            target < MAX_FRAME,
        ensures
            final(self).wf(),
            final(self).cr3_of() == old(self).cr3_of(),
            final(self).root_of() == target,
            read(final(self).mem(), old(self).cr3_of(), 511) == (target << 12) | 3,
            forall|f: u64, j: int|
                !(f == old(self).cr3_of() && j == 511) ==> read(final(self).mem(), f, j) == read(
                    old(self).mem(),
                    f,
                    j,
                ),
            forall|f: u64|
                #[trigger] final(self).mem().contains_key(f) == old(self).mem().contains_key(f),
            forall|f: u64| #[trigger] final(self).is_p4(f) == old(self).is_p4(f),
            forall|r2: u64, w: u64|
                old(self).is_p4(r2) && idx4(w) != 511 ==> #[trigger] same_walk(
                    old(self).mem(),
                    final(self).mem(),
                    r2,
                    w,
                ),
    {
        let ghost m0 = self.mem();
        let ghost lv = self.levels@;
        let cr3 = self.cr3;
        proof {
            assert(entry_ok(m0, lv, cr3, 511));
            assert(3u64 & 0x8000_0000_0000_01ff == 3 && 3u64 & 1 == 1 && 3u64 & 0x80 == 0)
                by (bit_vector);
            lemma_entry_build(target, 3);
        }
        self.store.set_entry(cr3, 511, (target << 12) | 3);
        proof {
            let m2 = self.store@;
            assert(m2 =~= m0.insert(cr3, m0[cr3].update(511, (target << 12) | 3)));
            assert forall|f: u64, j: int| m2.contains_key(f) && 0 <= j < 512 implies #[trigger]
                entry_ok(m2, lv, f, j) by {
                assert(entry_ok(m0, lv, f, j));
                if f == cr3 && j == 511 {
                } else {
                    assert(read(m2, f, j) == read(m0, f, j));
                }
            }
            assert forall|f: u64, j: int, g: u64, jj: int|
                #[trigger] ref_at(m2, lv, f, j) && #[trigger] ref_at(m2, lv, g, jj) && entry_frame(
                    read(m2, f, j),
                ) == entry_frame(read(m2, g, jj)) implies f == g && j == jj by {
                assert(ref_at(m0, lv, f, j) && ref_at(m0, lv, g, jj));
            }
            assert(wf_mem(m2, lv, self.cr3));
            lemma_zero_entry();
            assert forall|root: u64, w: u64|
                m0.contains_key(root) && lv[root] == 4 && idx4(w) != 511 implies #[trigger]
                same_walk(m0, m2, root, w) by {
                lemma_idx_bounds(w);
                let e4o = walk_e4(m0, root, w);
                assert(walk_e4(m2, root, w) == e4o);
                if entry_present(e4o) && !entry_huge(e4o) {
                    lemma_present_nonzero(e4o);
                    assert(entry_ok(m0, lv, root, idx4(w)));
                    let f3 = walk_f3(m0, root, w);
                    assert(m0.contains_key(f3) && lv[f3] == 3 && f3 != cr3);
                    let e3o = walk_e3(m0, root, w);
                    assert(walk_e3(m2, root, w) == e3o);
                    if entry_present(e3o) && !entry_huge(e3o) {
                        lemma_present_nonzero(e3o);
                        assert(entry_ok(m0, lv, f3, idx3(w)));
                        let f2 = walk_f2(m0, root, w);
                        assert(m0.contains_key(f2) && lv[f2] == 2 && f2 != cr3);
                        let e2o = walk_e2(m0, root, w);
                        assert(walk_e2(m2, root, w) == e2o);
                        if entry_present(e2o) && !entry_huge(e2o) {
                            lemma_present_nonzero(e2o);
                            assert(entry_ok(m0, lv, f2, idx2(w)));
                            let f1 = walk_f1(m0, root, w);
                            assert(m0.contains_key(f1) && lv[f1] == 1 && f1 != cr3);
                            assert(walk_e1(m2, root, w) == walk_e1(m0, root, w));
                        }
                    }
                }
            }
        }
    }

    /// Make `target` the processor's table, returning the frame of the
    /// table that was active before.
    pub fn switch_root(&mut self, target: u64) -> (old_cr3: u64)
        requires
            old(self).wf(),
            old(self).is_p4(target),
            target < MAX_FRAME,
        ensures
            final(self).wf(),
            old_cr3 == old(self).cr3_of(),
            final(self).cr3_of() == target,
            final(self).mem() == old(self).mem(),
            final(self).root_of() == entry_frame(read(old(self).mem(), target, 511)),
            forall|f: u64| #[trigger] final(self).is_p4(f) == old(self).is_p4(f),
    {
        let r = self.cr3;
        self.cr3 = target;
        r
    }

    /// Record a fresh level-4 table at `frame`: zeroed, with entry 511
    /// pointing at itself.  No existing walk changes, since nothing in the
    /// old memory points at `frame`.
    pub fn install_p4(&mut self, frame: u64)
        requires
            old(self).wf(),
            !old(self).mem().contains_key(frame),
            frame < MAX_FRAME,
        ensures
            final(self).wf(),
            final(self).cr3_of() == old(self).cr3_of(),
            final(self).root_of() == old(self).root_of(),
            read(final(self).mem(), frame, 511) == (frame << 12) | 3,
            entry_frame(read(final(self).mem(), frame, 511)) == frame,
            forall|j: int| j != 511 ==> read(final(self).mem(), frame, j) == 0,
            forall|f: u64, j: int|
                f != frame ==> read(final(self).mem(), f, j) == read(old(self).mem(), f, j),
            forall|f: u64|
                #[trigger] final(self).mem().contains_key(f) == (old(self).mem().contains_key(f)
                    || f == frame),
            final(self).is_p4(frame),
            forall|f: u64| old(self).is_p4(f) ==> #[trigger] final(self).is_p4(f),
            forall|r2: u64, w: u64|
                old(self).is_p4(r2) && idx4(w) != 511 ==> #[trigger] same_walk(
                    old(self).mem(),
                    final(self).mem(),
                    r2,
                    w,
                ),
    {
        let ghost m0 = self.mem();
        let ghost lv0 = self.levels@;
        proof {
            assert(entry_ok(m0, lv0, self.cr3, 511));
            assert(3u64 & 0x8000_0000_0000_01ff == 3 && 3u64 & 1 == 1 && 3u64 & 0x80 == 0)
                by (bit_vector);
            lemma_entry_build(frame, 3);
            lemma_zero_entry();
        }
        self.store.insert_table(frame);
        self.store.set_entry(frame, 511, (frame << 12) | 3);
        proof {
            self.levels@ = lv0.insert(frame, 4);
            let m2 = self.store@;
            let lv2 = self.levels@;
            assert(m2 =~= m0.insert(frame, zero_table().update(511, (frame << 12) | 3)));
            assert forall|j: int| j != 511 implies read(m2, frame, j) == 0 by {
                if 0 <= j < 512 {
                    assert(m2[frame][j] == 0);
                }
            }
            assert forall|f: u64, j: int| m2.contains_key(f) && 0 <= j < 512 implies #[trigger]
                entry_ok(m2, lv2, f, j) by {
                if f == frame {
                    if j != 511 {
                        assert(read(m2, f, j) == 0);
                    }
                } else {
                    assert(entry_ok(m0, lv0, f, j));
                    assert(read(m2, f, j) == read(m0, f, j));
                    let e = read(m0, f, j);
                    if e != 0 {
                        if (lv0[f] == 4 && j != 511 && !entry_huge(e)) || (lv0[f] == 3
                            && !entry_huge(e)) || (lv0[f] == 2 && !entry_huge(e)) || (lv0[f] == 4
                            && j == 511) {
                            assert(m0.contains_key(entry_frame(e)));
                            assert(entry_frame(e) != frame);
                        }
                    }
                }
            }
            assert forall|f: u64, j: int, g: u64, jj: int|
                #[trigger] ref_at(m2, lv2, f, j) && #[trigger] ref_at(m2, lv2, g, jj)
                    && entry_frame(read(m2, f, j)) == entry_frame(read(m2, g, jj)) implies f == g
                && j == jj by {
                assert(f != frame && g != frame);
                assert(ref_at(m0, lv0, f, j) && ref_at(m0, lv0, g, jj));
            }
            assert(wf_mem(m2, lv2, self.cr3));
            assert forall|root: u64, w: u64|
                m0.contains_key(root) && lv0[root] == 4 && idx4(w) != 511 implies #[trigger]
                same_walk(m0, m2, root, w) by {
                assert(root != frame);
                lemma_idx_bounds(w);
                let e4o = walk_e4(m0, root, w);
                assert(walk_e4(m2, root, w) == e4o);
                if entry_present(e4o) && !entry_huge(e4o) {
                    lemma_present_nonzero(e4o);
                    assert(entry_ok(m0, lv0, root, idx4(w)));
                    let f3 = walk_f3(m0, root, w);
                    assert(m0.contains_key(f3) && f3 != frame);
                    let e3o = walk_e3(m0, root, w);
                    assert(walk_e3(m2, root, w) == e3o);
                    if entry_present(e3o) && !entry_huge(e3o) {
                        lemma_present_nonzero(e3o);
                        assert(entry_ok(m0, lv0, f3, idx3(w)));
                        let f2 = walk_f2(m0, root, w);
                        assert(m0.contains_key(f2) && f2 != frame);
                        let e2o = walk_e2(m0, root, w);
                        assert(walk_e2(m2, root, w) == e2o);
                        if entry_present(e2o) && !entry_huge(e2o) {
                            lemma_present_nonzero(e2o);
                            assert(entry_ok(m0, lv0, f2, idx2(w)));
                            let f1 = walk_f1(m0, root, w);
                            assert(m0.contains_key(f1) && f1 != frame);
                            assert(walk_e1(m2, root, w) == walk_e1(m0, root, w));
                        }
                    }
                }
            }
        }
    }

    /// Physical address that the given canonical virtual address maps to.
    pub fn translate(&self, virtual_address: u64) -> (r: Option<u64>)
        requires
            self.wf(),
            virtual_address < 0x8000_0000_0000 || virtual_address >= 0xffff_8000_0000_0000,
        ensures
            r == match translate_page_spec(
                self.mem(),
                self.root_of(),
                virtual_address / 4096,
            ) {
                Some(p) => Some((p * 4096 + virtual_address % 4096) as u64),
                None => None::<u64>,
            },
    {
        let offset = virtual_address % 4096;
        match self.translate_page(VirtualPage::containing_address(virtual_address)) {
            Some(physical_page) => Some(physical_page.number * 4096 + offset),
            None => None,
        }
    }
}

} // verus!
