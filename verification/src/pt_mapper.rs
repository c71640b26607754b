//! The page-table mapper: four-level walks over the machine model.
//!
//! All specifications are stated over the store's map view.  A walk is
//! parameterized by the root frame it starts from, because the mapper's
//! addressing always goes through the recursive slot of the table the
//! root-pointer register names: normally that slot points at the active
//! root itself, and while an inactive table is being edited it points at
//! that table instead.

use vstd::prelude::*;
use crate::{ENTRY_COUNT, PAGE_SIZE};
use crate::entry::{
    cleared_bits, encode_entry, entry_flag_bits, entry_frame, entry_huge, entry_present,
    EntryFlags, PageEntry, PRESENT, WRITABLE,
};
use crate::memory::{at_least, Frame, FrameAllocator, FRAME_LIMIT};
use crate::paging::{Page, PhysicalAddress, VirtualAddress, PAGE_LIMIT, VIRT_SPACE};
use crate::table::{Table, TableInfo, TableStore};

verus! {

/// The contents of a freshly zeroed table.
pub open spec fn zero_entries() -> Seq<u64> {
    Seq::new(ENTRY_COUNT as nat, |i: int| 0u64)
}

/// The store after overwriting entry `i` of the table at frame `f`.
pub open spec fn write_map(m: Map<int, TableInfo>, f: int, i: int, b: u64) -> Map<int, TableInfo> {
    m.insert(f, TableInfo { level: m[f].level, entries: m[f].entries.update(i, b) })
}

/// Is entry `i` of the table at `f` a pointer to a child table?  The
/// recursive slot of a root table is not: it points back into level 4.
pub open spec fn is_ptr_entry(m: Map<int, TableInfo>, f: int, i: int) -> bool {
    &&& m.contains_key(f)
    &&& 0 <= i < ENTRY_COUNT
    &&& m[f].level >= 2
    &&& entry_present(m[f].entries[i])
    &&& !entry_huge(m[f].entries[i])
    &&& !(m[f].level == 4 && i == 511)
}

/// The paging invariant of the machine model.
///
/// Every stored table is full-size and tagged with a level; every
/// pointer entry names a stored table one level down; level-4 tables
/// never hold huge entries; recursive slots of level-4 tables point at
/// level-4 tables; and no frame is referenced by two pointer entries, so
/// the stored tables form a forest of disjoint hierarchies.
pub open spec fn mem_wf(m: Map<int, TableInfo>) -> bool {
    &&& forall|f: int| #[trigger] m.contains_key(f) ==> m[f].entries.len() == ENTRY_COUNT
    &&& forall|f: int| #[trigger] m.contains_key(f) ==> 1 <= m[f].level <= 4
    &&& forall|f: int| #[trigger] m.contains_key(f) ==> 0 <= f < FRAME_LIMIT
    &&& forall|f: int, i: int|
        #[trigger] is_ptr_entry(m, f, i) ==> m.contains_key(entry_frame(m[f].entries[i]))
            && m[entry_frame(m[f].entries[i])].level == m[f].level - 1
    &&& forall|f: int, i: int|
        m.contains_key(f) && m[f].level == 4 && 0 <= i < ENTRY_COUNT
            && #[trigger] entry_present(m[f].entries[i]) ==> !entry_huge(m[f].entries[i])
    &&& forall|f: int|
        m.contains_key(f) && (#[trigger] m[f]).level == 4 && entry_present(m[f].entries[511])
            ==> m.contains_key(entry_frame(m[f].entries[511]))
                && m[entry_frame(m[f].entries[511])].level == 4
    &&& forall|f1: int, i1: int, f2: int, i2: int|
        #[trigger] is_ptr_entry(m, f1, i1) && #[trigger] is_ptr_entry(m, f2, i2)
            && !(f1 == f2 && i1 == i2) ==> entry_frame(m[f1].entries[i1])
            != entry_frame(m[f2].entries[i2])
}

/// The pointer table of `q`'s walk from root `r`: where the root entry
/// leads, if it is present.
pub open spec fn l3_table_at(m: Map<int, TableInfo>, r: int, q: Page) -> Option<int> {
    let e = m[r].entries[q.l4_index()];
    if entry_present(e) {
        Some(entry_frame(e))
    } else {
        None
    }
}

/// The page directory of `q`'s walk: one more present, non-huge descent.
pub open spec fn l2_table_at(m: Map<int, TableInfo>, r: int, q: Page) -> Option<int> {
    match l3_table_at(m, r, q) {
        Some(t3) => {
            let e = m[t3].entries[q.l3_index()];
            if entry_present(e) && !entry_huge(e) {
                Some(entry_frame(e))
            } else {
                None
            }
        },
        None => None,
    }
}

/// The leaf table of `q`'s walk.
pub open spec fn l1_table_at(m: Map<int, TableInfo>, r: int, q: Page) -> Option<int> {
    match l2_table_at(m, r, q) {
        Some(t2) => {
            let e = m[t2].entries[q.l2_index()];
            if entry_present(e) && !entry_huge(e) {
                Some(entry_frame(e))
            } else {
                None
            }
        },
        None => None,
    }
}

/// The raw bits of `q`'s leaf entry, where the walk reaches a leaf table.
pub open spec fn leaf_entry_at(m: Map<int, TableInfo>, r: int, q: Page) -> Option<u64> {
    match l1_table_at(m, r, q) {
        Some(t1) => Some(m[t1].entries[q.l1_index()]),
        None => None,
    }
}

/// The frame `q` resolves to under root `r`: the full four-level walk,
/// with huge entries at the two middle levels ending it early by adding
/// the remaining lower-level indices to the huge entry's base frame.
pub open spec fn translate_page_at(m: Map<int, TableInfo>, r: int, q: Page) -> Option<int> {
    match l3_table_at(m, r, q) {
        None => None,
        Some(t3) => {
            let e3 = m[t3].entries[q.l3_index()];
            if !entry_present(e3) {
                None
            } else if entry_huge(e3) {
                Some(entry_frame(e3) + ENTRY_COUNT * q.l2_index() + q.l1_index())
            } else {
                let t2 = entry_frame(e3);
                let e2 = m[t2].entries[q.l2_index()];
                if !entry_present(e2) {
                    None
                } else if entry_huge(e2) {
                    Some(entry_frame(e2) + q.l1_index())
                } else {
                    let t1 = entry_frame(e2);
                    let e1 = m[t1].entries[q.l1_index()];
                    if entry_present(e1) {
                        Some(entry_frame(e1))
                    } else {
                        None
                    }
                }
            }
        },
    }
}

/// Every frame the allocator may still issue is representable and holds
/// no table yet, so it can safely become one.
pub open spec fn frames_fresh(s: Set<int>, m: Map<int, TableInfo>) -> bool {
    forall|n: int| #[trigger] s.contains(n) ==> 0 <= n < FRAME_LIMIT && !m.contains_key(n)
}

/// Does `q`'s walk from root `r` read entry `i` of the table at `f`?
pub open spec fn walk_reads(m: Map<int, TableInfo>, r: int, q: Page, f: int, i: int) -> bool {
    ||| (r == f && q.l4_index() == i)
    ||| (l3_table_at(m, r, q) == Some(f) && q.l3_index() == i)
    ||| (l2_table_at(m, r, q) == Some(f) && q.l2_index() == i)
    ||| (l1_table_at(m, r, q) == Some(f) && q.l1_index() == i)
}

/// A present entry of a table at level two or above leads to a stored
/// table: one level down through a pointer entry, or back into level 4
/// through a root's recursive slot.
proof fn lemma_descend_in_dom(m: Map<int, TableInfo>, f: int, i: int)
    requires
        mem_wf(m),
        m.contains_key(f),
        0 <= i < ENTRY_COUNT,
        m[f].level >= 2,
        entry_present(m[f].entries[i]),
        !entry_huge(m[f].entries[i]) || m[f].level == 4,
    ensures
        m.contains_key(entry_frame(m[f].entries[i])),
        m[f].level == 4 ==> !entry_huge(m[f].entries[i])
            && 3 <= m[entry_frame(m[f].entries[i])].level <= 4,
        m[f].level == 4 && i != 511 ==> m[entry_frame(m[f].entries[i])].level == 3,
        m[f].level < 4 ==> m[entry_frame(m[f].entries[i])].level == m[f].level - 1,
{
    if m[f].level == 4 {
        assert(!entry_huge(m[f].entries[i]));
        if i == 511 {
            assert(m.contains_key(entry_frame(m[f].entries[511]))
                && m[entry_frame(m[f].entries[511])].level == 4);
        } else {
            assert(is_ptr_entry(m, f, i));
        }
    } else {
        assert(is_ptr_entry(m, f, i));
    }
}

/// The store after installing a fresh, zeroed child table for entry
/// `idx` of the table at `parent`.
pub open spec fn create_map(m: Map<int, TableInfo>, parent: int, idx: int, fresh: int)
    -> Map<int, TableInfo> {
    write_map(m.insert(fresh, (TableInfo { level: m[parent].level - 1, entries: zero_entries() })),
        parent, idx, encode_entry(fresh, PRESENT | WRITABLE))
}

/// Field decomposition of an encoded entry: the stored frame and flags
/// come back out unharmed, because well-formed flag bits never reach
/// into the address field.
pub proof fn lemma_encode_fields(fr: u64, fl: u64)
    requires
        fr < FRAME_LIMIT,
        fl & crate::entry::ALL_FLAGS == fl,
    ensures
        entry_frame(encode_entry(fr as int, fl)) == fr,
        entry_flag_bits(encode_entry(fr as int, fl)) == fl,
        entry_present(encode_entry(fr as int, fl)) == (fl & PRESENT == PRESENT),
        entry_huge(encode_entry(fr as int, fl)) == (fl & crate::entry::HUGE_PAGE
            == crate::entry::HUGE_PAGE),
{
    assert(0 <= fr as int * PAGE_SIZE < 0x10_0000_0000_0000) by (nonlinear_arith)
        requires fr < 0x100_0000_0000u64;
    let a = (fr as int * PAGE_SIZE) as u64;
    assert(a == fr as int * PAGE_SIZE);
    vstd::arithmetic::div_mod::lemma_mod_multiples_basic(fr as int, PAGE_SIZE as int);
    assert(a % 4096 == 0);
    vstd::arithmetic::div_mod::lemma_div_by_multiple(fr as int, PAGE_SIZE as int);
    assert(a / 4096 == fr);
    assert((a | fl) & crate::entry::PAGE_ALIGNED_52_BIT_MASK == a
        && (a | fl) & crate::entry::ALL_FLAGS == fl
        && ((a | fl) & PRESENT == PRESENT) == (fl & PRESENT == PRESENT)
        && ((a | fl) & crate::entry::HUGE_PAGE == crate::entry::HUGE_PAGE)
            == (fl & crate::entry::HUGE_PAGE == crate::entry::HUGE_PAGE)) by (bit_vector)
        requires
            a % 4096u64 == 0u64,
            a < 0x10_0000_0000_0000u64,
            fl & crate::entry::ALL_FLAGS == fl,
    ;
    assert((encode_entry(fr as int, fl) & crate::entry::PAGE_ALIGNED_52_BIT_MASK) / 4096u64 == fr);
}

/// Entries of a zeroed table are never present.
pub proof fn lemma_zero_entry()
    ensures
        !entry_present(0u64),
        !entry_huge(0u64),
{
    crate::entry::lemma_flag_algebra(0, 0);
}

/// Every level index of a page lies inside a table.
pub proof fn lemma_page_index_bounds(q: Page)
    ensures
        0 <= q.l4_index() < ENTRY_COUNT,
        0 <= q.l3_index() < ENTRY_COUNT,
        0 <= q.l2_index() < ENTRY_COUNT,
        0 <= q.l1_index() < ENTRY_COUNT,
{
    let n = q.page_num;
    assert((n >> 27u64) & 0x1FFu64 < 512u64 && (n >> 18u64) & 0x1FFu64 < 512u64
        && (n >> 9u64) & 0x1FFu64 < 512u64 && n & 0x1FFu64 < 512u64) by (bit_vector);
}

/// A write that the walk never reads leaves the walk alone.
pub(crate) proof fn lemma_walk_after_write(m: Map<int, TableInfo>, f: int, i: int, b: u64, r: int, q: Page)
    requires
        mem_wf(m),
        m.contains_key(r),
        m[r].level == 4,
        m.contains_key(f),
        0 <= i < ENTRY_COUNT,
        !walk_reads(m, r, q, f, i),
    ensures
        ({
            let m2 = write_map(m, f, i, b);
            &&& l3_table_at(m2, r, q) == l3_table_at(m, r, q)
            &&& l2_table_at(m2, r, q) == l2_table_at(m, r, q)
            &&& l1_table_at(m2, r, q) == l1_table_at(m, r, q)
            &&& leaf_entry_at(m2, r, q) == leaf_entry_at(m, r, q)
            &&& translate_page_at(m2, r, q) == translate_page_at(m, r, q)
        }),
{
    let m2 = write_map(m, f, i, b);
    lemma_page_index_bounds(q);
    assert(m2[r].entries[q.l4_index()] == m[r].entries[q.l4_index()]);
    assert(l3_table_at(m2, r, q) == l3_table_at(m, r, q));
    match l3_table_at(m, r, q) {
        Some(t3) => {
            lemma_descend_in_dom(m, r, q.l4_index());
            assert(m2[t3].entries[q.l3_index()] == m[t3].entries[q.l3_index()]);
            assert(l2_table_at(m2, r, q) == l2_table_at(m, r, q));
            match l2_table_at(m, r, q) {
                Some(t2) => {
                    lemma_descend_in_dom(m, t3, q.l3_index());
                    assert(m2[t2].entries[q.l2_index()] == m[t2].entries[q.l2_index()]);
                    assert(l1_table_at(m2, r, q) == l1_table_at(m, r, q));
                    match l1_table_at(m, r, q) {
                        Some(t1) => {
                            lemma_descend_in_dom(m, t2, q.l2_index());
                            assert(m2[t1].entries[q.l1_index()] == m[t1].entries[q.l1_index()]);
                        },
                        None => {},
                    }
                },
                None => {},
            }
        },
        None => {},
    }
}

/// Installing a table at a frame the store does not know cannot change
/// any walk: walks only visit stored tables.
pub(crate) proof fn lemma_walk_after_fresh_insert(m: Map<int, TableInfo>, f: int, info: TableInfo, r: int,
    q: Page)
    requires
        mem_wf(m),
        !m.contains_key(f),
        m.contains_key(r),
        m[r].level == 4,
    ensures
        ({
            let m2 = m.insert(f, info);
            &&& l3_table_at(m2, r, q) == l3_table_at(m, r, q)
            &&& l2_table_at(m2, r, q) == l2_table_at(m, r, q)
            &&& l1_table_at(m2, r, q) == l1_table_at(m, r, q)
            &&& leaf_entry_at(m2, r, q) == leaf_entry_at(m, r, q)
            &&& translate_page_at(m2, r, q) == translate_page_at(m, r, q)
        }),
{
    let m2 = m.insert(f, info);
    lemma_page_index_bounds(q);
    assert(l3_table_at(m2, r, q) == l3_table_at(m, r, q));
    match l3_table_at(m, r, q) {
        Some(t3) => {
            lemma_descend_in_dom(m, r, q.l4_index());
            assert(m.contains_key(t3));
            assert(m2[t3] == m[t3]);
            match l2_table_at(m, r, q) {
                Some(t2) => {
                    lemma_descend_in_dom(m, t3, q.l3_index());
                    assert(m.contains_key(t2));
                    assert(m2[t2] == m[t2]);
                    match l1_table_at(m, r, q) {
                        Some(t1) => {
                            lemma_descend_in_dom(m, t2, q.l2_index());
                            assert(m.contains_key(t1));
                            assert(m2[t1] == m[t1]);
                        },
                        None => {},
                    }
                },
                None => {},
            }
        },
        None => {},
    }
}

/// Writing into a leaf-level table preserves the paging invariant: no
/// pointer entry lives at level 1.
proof fn lemma_mem_wf_after_leaf_write(m: Map<int, TableInfo>, f: int, i: int, b: u64)
    requires
        mem_wf(m),
        m.contains_key(f),
        m[f].level == 1,
        0 <= i < ENTRY_COUNT,
    ensures
        mem_wf(write_map(m, f, i, b)),
{
    let m2 = write_map(m, f, i, b);
    assert forall|g: int, j: int| #[trigger] is_ptr_entry(m2, g, j) implies is_ptr_entry(m, g, j)
        && m2[g].entries[j] == m[g].entries[j] by {
        assert(g != f);
    }
    assert forall|g: int, j: int| #[trigger] is_ptr_entry(m, g, j) implies is_ptr_entry(m2, g, j)
        by {
        assert(g != f);
    }
}

/// Writing a root table's recursive slot to point at a (possibly other)
/// root table preserves the paging invariant: recursive slots are not
/// pointer entries.
pub(crate) proof fn lemma_mem_wf_after_recursive_write(m: Map<int, TableInfo>, f: int, x: int)
    requires
        mem_wf(m),
        m.contains_key(f),
        m[f].level == 4,
        m.contains_key(x),
        m[x].level == 4,
        0 <= x < FRAME_LIMIT,
    ensures
        mem_wf(write_map(m, f, 511, encode_entry(x, PRESENT | WRITABLE))),
        entry_present(write_map(m, f, 511, encode_entry(x, PRESENT | WRITABLE))[f].entries[511]),
        entry_frame(write_map(m, f, 511, encode_entry(x, PRESENT | WRITABLE))[f].entries[511])
            == x,
{
    let b = encode_entry(x, PRESENT | WRITABLE);
    let m2 = write_map(m, f, 511, b);
    crate::entry::lemma_flag_algebra(0, 0);
    lemma_encode_fields(x as u64, PRESENT | WRITABLE);
    assert forall|g: int, j: int| #[trigger] is_ptr_entry(m2, g, j) implies is_ptr_entry(m, g, j)
        && m2[g].entries[j] == m[g].entries[j] by {
        assert(!(g == f && j == 511));
    }
    assert forall|g: int, j: int| #[trigger] is_ptr_entry(m, g, j) implies is_ptr_entry(m2, g, j)
        by {
        assert(!(g == f && j == 511));
    }
}

/// Creating a child table under a non-present pointer slot preserves the
/// paging invariant: the slot becomes the unique reference to a fresh,
/// empty table one level down.
proof fn lemma_mem_wf_after_create(m: Map<int, TableInfo>, parent: int, idx: int, fresh: int)
    requires
        mem_wf(m),
        m.contains_key(parent),
        2 <= m[parent].level <= 4,
        0 <= idx < ENTRY_COUNT,
        !(m[parent].level == 4 && idx == 511),
        !entry_present(m[parent].entries[idx]),
        !m.contains_key(fresh),
        0 <= fresh < FRAME_LIMIT,
    ensures
        ({
            let m2 = create_map(m, parent, idx, fresh);
            &&& mem_wf(m2)
            &&& m2.dom() == m.dom().insert(fresh)
            &&& is_ptr_entry(m2, parent, idx)
            &&& entry_frame(m2[parent].entries[idx]) == fresh
            &&& m2[fresh].level == m[parent].level - 1
            &&& m2[fresh].entries == zero_entries()
            &&& m2[parent].level == m[parent].level
            &&& m2[parent].entries == m[parent].entries.update(idx, encode_entry(fresh,
                PRESENT | WRITABLE))
        }),
{
    let b = encode_entry(fresh, PRESENT | WRITABLE);
    let m2 = create_map(m, parent, idx, fresh);
    crate::entry::lemma_flag_algebra(0, 0);
    lemma_encode_fields(fresh as u64, PRESENT | WRITABLE);
    lemma_zero_entry();
    assert(m2.dom() =~= m.dom().insert(fresh));
    assert(is_ptr_entry(m2, parent, idx));
    assert forall|g: int, j: int|
        #[trigger] is_ptr_entry(m2, g, j) && !(g == parent && j == idx) implies is_ptr_entry(m, g,
        j) && m2[g].entries[j] == m[g].entries[j] by {
        if g == fresh {
            assert(m2[fresh].entries[j] == 0u64);
            assert(!entry_present(m2[fresh].entries[j]));
        } else if g == parent {
            assert(m2[g].entries[j] == m[g].entries[j]);
        }
    }
    assert forall|g: int, j: int| #[trigger] is_ptr_entry(m, g, j) implies is_ptr_entry(m2, g, j)
        && m2[g].entries[j] == m[g].entries[j] by {
        assert(!(g == parent && j == idx));
        assert(g != fresh);
    }
    assert forall|g1: int, i1: int, g2: int, i2: int|
        #[trigger] is_ptr_entry(m2, g1, i1) && #[trigger] is_ptr_entry(m2, g2, i2)
            && !(g1 == g2 && i1 == i2) implies entry_frame(m2[g1].entries[i1])
            != entry_frame(m2[g2].entries[i2]) by {
        if g1 == parent && i1 == idx {
            assert(is_ptr_entry(m, g2, i2));
            assert(m.contains_key(entry_frame(m[g2].entries[i2])));
        } else if g2 == parent && i2 == idx {
            assert(is_ptr_entry(m, g1, i1));
            assert(m.contains_key(entry_frame(m[g1].entries[i1])));
        }
    }
    assert(mem_wf(m2)) by {
        assert forall|f: int| #[trigger] m2.contains_key(f) implies m2[f].entries.len()
            == ENTRY_COUNT && 1 <= m2[f].level <= 4 && 0 <= f < FRAME_LIMIT by {
            if f != fresh {
                assert(m.contains_key(f));
            }
        }
        assert forall|f: int, i: int|
            m2.contains_key(f) && m2[f].level == 4 && 0 <= i < ENTRY_COUNT
                && #[trigger] entry_present(m2[f].entries[i]) implies !entry_huge(
            m2[f].entries[i]) by {
            if f == parent && i == idx {
            } else if f == fresh {
                assert(m2[f].entries[i] == 0u64);
            } else {
                assert(m.contains_key(f));
                assert(m2[f].entries[i] == m[f].entries[i]);
            }
        }
        assert forall|f: int|
            m2.contains_key(f) && (#[trigger] m2[f]).level == 4
                && entry_present(m2[f].entries[511]) implies m2.contains_key(entry_frame(
            m2[f].entries[511])) && m2[entry_frame(m2[f].entries[511])].level == 4 by {
            assert(!(f == parent && idx == 511));
            if f == fresh {
                assert(m2[f].entries[511] == 0u64);
            } else {
                assert(m.contains_key(f));
                assert(m2[f].entries[511] == m[f].entries[511]);
            }
        }
    }
}

/// Off the recursive region, a walk's tables sit at strictly
/// descending levels, each reached through a pointer entry.
pub(crate) proof fn lemma_path_levels(m: Map<int, TableInfo>, r: int, q: Page)
    requires
        mem_wf(m),
        m.contains_key(r),
        m[r].level == 4,
        q.l4_index() != 511,
    ensures
        l3_table_at(m, r, q) matches Some(t3) ==> is_ptr_entry(m, r, q.l4_index())
            && t3 == entry_frame(m[r].entries[q.l4_index()]) && m.contains_key(t3)
            && m[t3].level == 3,
        l2_table_at(m, r, q) matches Some(t2) ==> is_ptr_entry(m, l3_table_at(m, r, q).unwrap(),
            q.l3_index()) && t2 == entry_frame(m[l3_table_at(m, r, q).unwrap()].entries[
            q.l3_index()]) && m.contains_key(t2) && m[t2].level == 2,
        l1_table_at(m, r, q) matches Some(t1) ==> is_ptr_entry(m, l2_table_at(m, r, q).unwrap(),
            q.l2_index()) && t1 == entry_frame(m[l2_table_at(m, r, q).unwrap()].entries[
            q.l2_index()]) && m.contains_key(t1) && m[t1].level == 1,
{
    lemma_page_index_bounds(q);
    match l3_table_at(m, r, q) {
        Some(t3) => {
            assert(is_ptr_entry(m, r, q.l4_index())) by {
                assert(entry_present(m[r].entries[q.l4_index()]));
            }
            match l2_table_at(m, r, q) {
                Some(t2) => {
                    assert(is_ptr_entry(m, t3, q.l3_index()));
                    match l1_table_at(m, r, q) {
                        Some(t1) => {
                            assert(is_ptr_entry(m, t2, q.l2_index()));
                        },
                        None => {},
                    }
                },
                None => {},
            }
        },
        None => {},
    }
}

/// Two mappable pages whose walks end in the same leaf slot are the same
/// page: pointer entries reference each table exactly once, so the path
/// up from the leaf table is unique.
pub(crate) proof fn lemma_leaf_slot_determines_page(m: Map<int, TableInfo>, rr: int, p: Page,
    r: int, q: Page)
    requires
        mem_wf(m),
        m.contains_key(rr),
        m[rr].level == 4,
        m.contains_key(r),
        m[r].level == 4,
        p.page_num < PAGE_LIMIT,
        p.l4_index() != 511,
        q.page_num < PAGE_LIMIT,
        q.l4_index() != 511,
        l1_table_at(m, rr, p) == l1_table_at(m, r, q),
        l1_table_at(m, rr, p) matches Some(t1),
        p.l1_index() == q.l1_index(),
    ensures
        r == rr,
        p.page_num == q.page_num,
{
    lemma_path_levels(m, rr, p);
    lemma_path_levels(m, r, q);
    let t2p = l2_table_at(m, rr, p).unwrap();
    let t2q = l2_table_at(m, r, q).unwrap();
    assert(is_ptr_entry(m, t2p, p.l2_index()) && is_ptr_entry(m, t2q, q.l2_index()));
    assert(t2p == t2q && p.l2_index() == q.l2_index());
    let t3p = l3_table_at(m, rr, p).unwrap();
    let t3q = l3_table_at(m, r, q).unwrap();
    assert(is_ptr_entry(m, t3p, p.l3_index()) && is_ptr_entry(m, t3q, q.l3_index()));
    assert(t3p == t3q && p.l3_index() == q.l3_index());
    assert(is_ptr_entry(m, rr, p.l4_index()) && is_ptr_entry(m, r, q.l4_index()));
    assert(rr == r && p.l4_index() == q.l4_index());
    crate::paging::lemma_indices_determine_page(p, q);
}

/// Writing the leaf entry of page `p` (under root `rr`) leaves the walk
/// of any other mappable page, and of every page under any other root,
/// exactly as it was.
pub(crate) proof fn lemma_leaf_write_framing(m: Map<int, TableInfo>, rr: int, p: Page, b: u64,
    r: int, q: Page)
    requires
        mem_wf(m),
        m.contains_key(rr),
        m[rr].level == 4,
        m.contains_key(r),
        m[r].level == 4,
        p.page_num < PAGE_LIMIT,
        p.l4_index() != 511,
        q.page_num < PAGE_LIMIT,
        q.l4_index() != 511,
        l1_table_at(m, rr, p) matches Some(t1),
        r != rr || q.page_num != p.page_num,
    ensures
        ({
            let t1 = l1_table_at(m, rr, p).unwrap();
            let m2 = write_map(m, t1, p.l1_index(), b);
            &&& l1_table_at(m2, r, q) == l1_table_at(m, r, q)
            &&& leaf_entry_at(m2, r, q) == leaf_entry_at(m, r, q)
            &&& translate_page_at(m2, r, q) == translate_page_at(m, r, q)
        }),
{
    let t1 = l1_table_at(m, rr, p).unwrap();
    lemma_path_levels(m, rr, p);
    lemma_path_levels(m, r, q);
    lemma_page_index_bounds(p);
    assert(!walk_reads(m, r, q, t1, p.l1_index())) by {
        if l1_table_at(m, r, q) == Some(t1) && q.l1_index() == p.l1_index() {
            lemma_leaf_slot_determines_page(m, rr, p, r, q);
        }
    }
    lemma_walk_after_write(m, t1, p.l1_index(), b, r, q);
}

/// A fresh zeroed table below root level keeps the paging invariant: it
/// is unreferenced and references nothing.
pub(crate) proof fn lemma_mem_wf_after_fresh_table(m: Map<int, TableInfo>, fresh: int, lv: int)
    requires
        mem_wf(m),
        !m.contains_key(fresh),
        0 <= fresh < FRAME_LIMIT,
        1 <= lv <= 3,
    ensures
        mem_wf(m.insert(fresh, (TableInfo { level: lv, entries: zero_entries() }))),
{
    let m2 = m.insert(fresh, (TableInfo { level: lv, entries: zero_entries() }));
    lemma_zero_entry();
    assert forall|g: int, j: int| #[trigger] is_ptr_entry(m2, g, j) implies is_ptr_entry(m, g, j)
        && m2[g].entries[j] == m[g].entries[j] by {
        if g == fresh {
            assert(m2[g].entries[j] == 0u64);
        }
    }
    assert forall|g: int, j: int| #[trigger] is_ptr_entry(m, g, j) implies is_ptr_entry(m2, g, j)
        && m2[g].entries[j] == m[g].entries[j] by {
        assert(g != fresh);
    }
}

/// Installing a fresh child table under a non-present pointer slot
/// changes no translation at all, under any root: pages whose walks pass
/// the slot were unmapped before and keep resolving to nothing through
/// the zeroed table; every other walk never sees the write.  Complete
/// walks are untouched entirely.
pub(crate) proof fn lemma_create_step_framing(m: Map<int, TableInfo>, parent: int, idx: int,
    fresh: int, r: int, q: Page)
    requires
        mem_wf(m),
        m.contains_key(parent),
        2 <= m[parent].level <= 4,
        0 <= idx < ENTRY_COUNT,
        !(m[parent].level == 4 && idx == 511),
        !entry_present(m[parent].entries[idx]),
        !m.contains_key(fresh),
        0 <= fresh < FRAME_LIMIT,
        m.contains_key(r),
        m[r].level == 4,
        q.page_num < PAGE_LIMIT,
        q.l4_index() != 511,
    ensures
        ({
            let m2 = create_map(m, parent, idx, fresh);
            &&& translate_page_at(m2, r, q) == translate_page_at(m, r, q)
            &&& (l1_table_at(m, r, q) matches Some(t) ==> l1_table_at(m2, r, q)
                == l1_table_at(m, r, q) && leaf_entry_at(m2, r, q) == leaf_entry_at(m, r, q))
        }),
{
    let info = TableInfo { level: m[parent].level - 1, entries: zero_entries() };
    let ma = m.insert(fresh, info);
    let b = encode_entry(fresh, PRESENT | WRITABLE);
    let m2 = create_map(m, parent, idx, fresh);
    lemma_page_index_bounds(q);
    lemma_path_levels(m, r, q);
    lemma_walk_after_fresh_insert(m, fresh, info, r, q);
    lemma_mem_wf_after_fresh_table(m, fresh, m[parent].level - 1);
    crate::entry::lemma_flag_algebra(0, 0);
    lemma_encode_fields(fresh as u64, PRESENT | WRITABLE);
    lemma_zero_entry();
    if !walk_reads(m, r, q, parent, idx) {
        assert(!walk_reads(ma, r, q, parent, idx));
        lemma_walk_after_write(ma, parent, idx, b, r, q);
    } else {
        // The walk passes the written slot, so the page resolved to
        // nothing before and still does, through the zeroed table.
        assert(parent != fresh);
        if r == parent && q.l4_index() == idx {
            assert(translate_page_at(m, r, q) is None);
            assert(m2[r].entries[q.l4_index()] == b);
            assert(l3_table_at(m2, r, q) == Some(fresh));
            assert(m2[fresh].entries[q.l3_index()] == 0u64);
            assert(translate_page_at(m2, r, q) is None);
            assert(l1_table_at(m, r, q) is None);
        } else if l3_table_at(m, r, q) == Some(parent) && q.l3_index() == idx {
            assert(m[parent].level == 3);
            assert(r != parent);
            assert(translate_page_at(m, r, q) is None);
            assert(m2[r].entries[q.l4_index()] == m[r].entries[q.l4_index()]);
            assert(l3_table_at(m2, r, q) == Some(parent));
            assert(m2[parent].entries[q.l3_index()] == b);
            assert(m2[fresh].entries[q.l2_index()] == 0u64);
            assert(translate_page_at(m2, r, q) is None);
            assert(l1_table_at(m, r, q) is None);
        } else {
            assert(l2_table_at(m, r, q) == Some(parent) && q.l2_index() == idx);
            assert(m[parent].level == 2);
            let t3 = l3_table_at(m, r, q).unwrap();
            assert(r != parent && t3 != parent);
            assert(translate_page_at(m, r, q) is None);
            assert(m2[r].entries[q.l4_index()] == m[r].entries[q.l4_index()]);
            assert(m2[t3].entries[q.l3_index()] == m[t3].entries[q.l3_index()]);
            assert(l3_table_at(m2, r, q) == l3_table_at(m, r, q));
            assert(l2_table_at(m2, r, q) == Some(parent));
            assert(m2[parent].entries[q.l2_index()] == b);
            assert(m2[fresh].entries[q.l1_index()] == 0u64);
            assert(translate_page_at(m2, r, q) is None);
            assert(l1_table_at(m, r, q) is None);
        }
    }
}

/// What `map_page_to_frame` does to the machine: the page's leaf entry
/// now encodes the frame with the flags plus the present bit; every
/// other mappable page translates as before, under the mapper's root and
/// under every other stored root alike; and leaf entries that existed
/// keep their exact bits, so established mappings keep their protection
/// flags.  Only fresh frames joined the store.
pub open spec fn map_to_effect(pre: PTMapper, post: PTMapper, page: Page, frame: Frame,
    flags: EntryFlags) -> bool {
    &&& post.wf()
    &&& post.cr3 == pre.cr3
    &&& post.root() == pre.root()
    &&& pre.mem@.dom().subset_of(post.mem@.dom())
    &&& post.leaf_entry(page) == Some(encode_entry(frame.frame_num as int, flags.bits | PRESENT))
    &&& post.translate_page(page) == Some(frame.frame_num as int)
    &&& forall|rr: int, q: Page|
        pre.mem@.contains_key(rr) && pre.mem@[rr].level == 4 && q.page_num < PAGE_LIMIT
            && q.l4_index() != 511 && (rr != pre.root() || q.page_num != page.page_num)
            ==> #[trigger] translate_page_at(post.mem@, rr, q) == translate_page_at(pre.mem@, rr,
            q)
    &&& forall|rr: int, q: Page|
        pre.mem@.contains_key(rr) && pre.mem@[rr].level == 4 && q.page_num < PAGE_LIMIT
            && q.l4_index() != 511 && (rr != pre.root() || q.page_num != page.page_num)
            && (#[trigger] leaf_entry_at(pre.mem@, rr, q)) is Some
            ==> leaf_entry_at(post.mem@, rr, q) == leaf_entry_at(pre.mem@, rr, q)
    &&& roots_keep_recursive_slots(pre.mem@, post.mem@)
}

/// Every root table of `pre` is still a root table of `post` with the
/// same recursive slot: mapping work never touches the slot the
/// recursive addressing trick depends on.
pub open spec fn roots_keep_recursive_slots(pre: Map<int, TableInfo>, post: Map<int, TableInfo>)
    -> bool {
    forall|f: int|
        pre.contains_key(f) && pre[f].level == 4 ==> post.contains_key(f)
            && (#[trigger] post[f]).level == 4 && post[f].entries[511] == pre[f].entries[511]
}

/// What `unmap` does to the machine: the page's leaf entry loses its
/// present bit and the page translates to nothing, while every other
/// mappable page, under every stored root, keeps its translation and its
/// exact leaf bits.  No table comes or goes.
pub open spec fn unmap_effect(pre: PTMapper, post: PTMapper, page: Page) -> bool {
    &&& post.wf()
    &&& post.cr3 == pre.cr3
    &&& post.root() == pre.root()
    &&& post.mem@.dom() == pre.mem@.dom()
    &&& post.translate_page(page) is None
    &&& post.leaf_entry(page) == Some(cleared_bits(pre.leaf_entry(page).unwrap()))
    &&& forall|rr: int, q: Page|
        pre.mem@.contains_key(rr) && pre.mem@[rr].level == 4 && q.page_num < PAGE_LIMIT
            && q.l4_index() != 511 && (rr != pre.root() || q.page_num != page.page_num)
            ==> #[trigger] translate_page_at(post.mem@, rr, q) == translate_page_at(pre.mem@, rr,
            q) && #[trigger] leaf_entry_at(post.mem@, rr, q) == leaf_entry_at(pre.mem@, rr, q)
    &&& roots_keep_recursive_slots(pre.mem@, post.mem@)
}

/// Contents of a freshly initialised root table: empty but for the
/// recursive slot, which points back at the table's own frame.
pub open spec fn pristine_root_entries(f: int) -> Seq<u64> {
    zero_entries().update(511, encode_entry(f, PRESENT | WRITABLE))
}

/// Installing a pristine, self-linked root table at a fresh frame keeps
/// the paging invariant, and nothing translates under the new root.
pub(crate) proof fn lemma_mem_wf_after_insert_root(m: Map<int, TableInfo>, f: int)
    requires
        mem_wf(m),
        !m.contains_key(f),
        0 <= f < FRAME_LIMIT,
    ensures
        ({
            let m2 = m.insert(f, (TableInfo { level: 4, entries: pristine_root_entries(f) }));
            &&& mem_wf(m2)
            &&& entry_present(m2[f].entries[511])
            &&& entry_frame(m2[f].entries[511]) == f
            &&& forall|q: Page|
                q.l4_index() != 511 ==> #[trigger] translate_page_at(m2, f, q) is None
                    && l1_table_at(m2, f, q) is None && leaf_entry_at(m2, f, q) is None
        }),
{
    let m2 = m.insert(f, (TableInfo { level: 4, entries: pristine_root_entries(f) }));
    crate::entry::lemma_flag_algebra(0, 0);
    lemma_encode_fields(f as u64, PRESENT | WRITABLE);
    lemma_zero_entry();
    assert forall|g: int, j: int| #[trigger] is_ptr_entry(m2, g, j) implies is_ptr_entry(m, g, j)
        && m2[g].entries[j] == m[g].entries[j] by {
        if g == f {
            assert(j != 511);
            assert(m2[g].entries[j] == 0u64);
        }
    }
    assert forall|g: int, j: int| #[trigger] is_ptr_entry(m, g, j) implies is_ptr_entry(m2, g, j)
        && m2[g].entries[j] == m[g].entries[j] by {
        assert(g != f);
    }
    assert forall|q: Page| q.l4_index() != 511 implies #[trigger] translate_page_at(m2, f, q)
        is None && l1_table_at(m2, f, q) is None && leaf_entry_at(m2, f, q) is None by {
        lemma_page_index_bounds(q);
        assert(m2[f].entries[q.l4_index()] == 0u64);
    }
}

/// Owner of the machine model: the simulated physical memory together
/// with the root-pointer register, addressed through the recursive slot.
pub struct PTMapper {
    pub mem: TableStore,
    pub cr3: Frame,
}

impl PTMapper {
    /// The frame the mapper's walks start from: whatever the recursive
    /// slot of the register-named table points at.
    pub open spec fn root(self) -> int {
        entry_frame(self.mem@[self.cr3.frame_num as int].entries[511])
    }

    /// The machine model is sound: the store satisfies the paging
    /// invariant, the register names a root table, and the table the
    /// recursive slot leads to is linked to itself, as the recursive
    /// mapping demands.
    pub open spec fn wf(self) -> bool {
        &&& self.mem.wf()
        &&& mem_wf(self.mem@)
        &&& self.cr3.frame_num < FRAME_LIMIT
        &&& self.mem@.contains_key(self.cr3.frame_num as int)
        &&& self.mem@[self.cr3.frame_num as int].level == 4
        &&& entry_present(self.mem@[self.cr3.frame_num as int].entries[511])
        &&& entry_present(self.mem@[self.root()].entries[511])
        &&& entry_frame(self.mem@[self.root()].entries[511]) == self.root()
    }

    /// Is the hierarchy the register names also the one the mapper
    /// addresses?  False only in the middle of an inactive-table edit.
    pub open spec fn normal(self) -> bool {
        self.root() == self.cr3.frame_num as int
    }

    /// `q`'s pointer table under the current root.
    pub open spec fn l3_table(self, q: Page) -> Option<int> {
        l3_table_at(self.mem@, self.root(), q)
    }

    /// `q`'s page directory under the current root.
    pub open spec fn l2_table(self, q: Page) -> Option<int> {
        l2_table_at(self.mem@, self.root(), q)
    }

    /// `q`'s leaf table under the current root.
    pub open spec fn l1_table(self, q: Page) -> Option<int> {
        l1_table_at(self.mem@, self.root(), q)
    }

    /// `q`'s leaf entry bits under the current root.
    pub open spec fn leaf_entry(self, q: Page) -> Option<u64> {
        leaf_entry_at(self.mem@, self.root(), q)
    }

    /// The frame `q` resolves to under the current root.
    pub open spec fn translate_page(self, q: Page) -> Option<int> {
        translate_page_at(self.mem@, self.root(), q)
    }

    /// Read the root frame out of the recursive slot.
    fn root_frame(&self) -> (r: u64)
        requires
            self.wf(),
        ensures
            r == self.root(),
            self.mem@.contains_key(r as int),
            self.mem@[r as int].level == 4,
            r < FRAME_LIMIT,
    {
        let e = self.mem.read_entry(self.cr3.frame_num, ENTRY_COUNT - 1);
        proof {
            assert(self.mem@.contains_key(self.root()) && self.mem@[self.root()].level == 4);
            assert(0 <= self.root() < FRAME_LIMIT);
        }
        match e.target_frame() {
            Some(f) => f.frame_num,
            None => {
                proof {
                    assert(false);
                }
                0
            },
        }
    }

    /// Walk the tables for `page` and return the frame it is loaded in,
    /// if any; huge entries at the two middle levels are resolved by
    /// reconstructing the frame from the entry's base and the remaining
    /// indices.
    pub fn translate_page_to_frame(&self, page: Page) -> (r: Option<Frame>)
        requires
            self.wf(),
            page.page_num < PAGE_LIMIT,
        ensures
            r == (match self.translate_page(page) {
                Some(n) => Some(Frame { frame_num: n as u64 }),
                None => None::<Frame>,
            }),
            (match self.translate_page(page) {
                Some(n) => 0 <= n < FRAME_LIMIT + ENTRY_COUNT * 512,
                None => true,
            }),
    {
        let l4i = page.page_map_index();
        let l3i = page.pointer_table_index();
        let l2i = page.page_dir_index();
        let l1i = page.page_table_index();
        let root = self.root_frame();

        let e4 = self.mem.read_entry(root, l4i);
        let t3 = match e4.target_frame() {
            Some(f) => f.frame_num,
            None => {
                return None;
            },
        };
        proof {
            lemma_descend_in_dom(self.mem@, self.root(), page.l4_index());
            assert(self.mem@.contains_key(t3 as int));
            assert(self.mem@[t3 as int].level >= 2);
        }

        let e3 = self.mem.read_entry(t3, l3i);
        let f3 = match e3.target_frame() {
            Some(f) => f,
            None => {
                return None;
            },
        };
        if e3.flags().contains(EntryFlags { bits: crate::entry::HUGE_PAGE }) {
            proof {
                crate::entry::lemma_entry_bits(self.mem@[t3 as int].entries[page.l3_index()]);
            }
            return Some(Frame {
                frame_num: f3.frame_num + (ENTRY_COUNT as u64) * (l2i as u64) + (l1i as u64),
            });
        }
        proof {
            let b = self.mem@[t3 as int].entries[page.l3_index()];
            crate::entry::lemma_entry_bits(b);
            lemma_descend_in_dom(self.mem@, t3 as int, page.l3_index());
            assert(self.mem@[entry_frame(b)].level >= 2);
        }
        let t2 = f3.frame_num;

        let e2 = self.mem.read_entry(t2, l2i);
        let f2 = match e2.target_frame() {
            Some(f) => f,
            None => {
                return None;
            },
        };
        if e2.flags().contains(EntryFlags { bits: crate::entry::HUGE_PAGE }) {
            proof {
                crate::entry::lemma_entry_bits(self.mem@[t2 as int].entries[page.l2_index()]);
            }
            return Some(Frame { frame_num: f2.frame_num + (l1i as u64) });
        }
        proof {
            crate::entry::lemma_entry_bits(self.mem@[t2 as int].entries[page.l2_index()]);
            lemma_descend_in_dom(self.mem@, t2 as int, page.l2_index());
        }
        let t1 = f2.frame_num;

        let e1 = self.mem.read_entry(t1, l1i);
        proof {
            crate::entry::lemma_entry_bits(self.mem@[t1 as int].entries[page.l1_index()]);
        }
        e1.target_frame()
    }

    /// No huge entry blocks building a leaf mapping for `p`: creating
    /// intermediate tables is only supported below plain pointer
    /// entries, and a huge obstruction is a fatal configuration error.
    pub open spec fn path_clear(self, p: Page) -> bool {
        &&& (self.l3_table(p) matches Some(t3) ==> {
            let e = self.mem@[t3].entries[p.l3_index()];
            entry_present(e) ==> !entry_huge(e)
        })
        &&& (self.l2_table(p) matches Some(t2) ==> {
            let e = self.mem@[t2].entries[p.l2_index()];
            entry_present(e) ==> !entry_huge(e)
        })
    }

    /// How many intermediate tables a mapping of `p` still has to
    /// create: at most the three levels below the root.
    pub open spec fn tables_needed(self, p: Page) -> nat {
        if self.l3_table(p) is None {
            3
        } else if self.l2_table(p) is None {
            2
        } else if self.l1_table(p) is None {
            1
        } else {
            0
        }
    }

    /// Return the child table behind entry `index` of the table at
    /// `parent`, creating a fresh zeroed one there first if the entry is
    /// empty.
    fn next_table_create<A: FrameAllocator>(&mut self, parent: u64, index: usize, allocator:
        &mut A) -> (child: u64)
        requires
            old(self).wf(),
            old(self).mem@.contains_key(parent as int),
            2 <= old(self).mem@[parent as int].level,
            index < ENTRY_COUNT,
            !(old(self).mem@[parent as int].level == 4 && index == 511),
            entry_present(old(self).mem@[parent as int].entries[index as int])
                ==> !entry_huge(old(self).mem@[parent as int].entries[index as int]),
            old(allocator).inv(),
            frames_fresh(old(allocator).issuable(), old(self).mem@),
            !entry_present(old(self).mem@[parent as int].entries[index as int])
                ==> at_least(old(allocator).issuable(), 1),
        ensures
            final(self).wf(),
            final(allocator).inv(),
            final(self).cr3 == old(self).cr3,
            final(self).root() == old(self).root(),
            old(self).mem@.dom().subset_of(final(self).mem@.dom()),
            frames_fresh(final(allocator).issuable(), final(self).mem@),
            final(allocator).issuable().subset_of(old(allocator).issuable()),
            final(self).mem@.contains_key(child as int),
            final(self).mem@[child as int].level == old(self).mem@[parent as int].level - 1,
            child < FRAME_LIMIT,
            entry_present(final(self).mem@[parent as int].entries[index as int]),
            !entry_huge(final(self).mem@[parent as int].entries[index as int]),
            entry_frame(final(self).mem@[parent as int].entries[index as int]) == child as int,
            if entry_present(old(self).mem@[parent as int].entries[index as int]) {
                &&& final(self).mem@ == old(self).mem@
                &&& *final(allocator) == *old(allocator)
                &&& child as int == entry_frame(old(self).mem@[parent as int].entries[index as int])
            } else {
                &&& final(self).mem@ == create_map(old(self).mem@, parent as int, index as int,
                    child as int)
                &&& !old(self).mem@.contains_key(child as int)
                &&& old(allocator).issuable().contains(child as int)
                &&& final(self).mem@[child as int].entries == zero_entries()
                &&& final(allocator).issuable() == old(allocator).issuable().remove(child as int)
            },
            forall|rr: int, q: Page|
                old(self).mem@.contains_key(rr) && old(self).mem@[rr].level == 4
                    && q.page_num < PAGE_LIMIT && q.l4_index() != 511
                    ==> #[trigger] translate_page_at(final(self).mem@, rr, q)
                    == translate_page_at(old(self).mem@, rr, q),
            forall|rr: int, q: Page|
                old(self).mem@.contains_key(rr) && old(self).mem@[rr].level == 4
                    && q.page_num < PAGE_LIMIT && q.l4_index() != 511
                    && (#[trigger] leaf_entry_at(old(self).mem@, rr, q)) is Some
                    ==> leaf_entry_at(final(self).mem@, rr, q)
                    == leaf_entry_at(old(self).mem@, rr, q)
                    && l1_table_at(final(self).mem@, rr, q)
                    == l1_table_at(old(self).mem@, rr, q),
    {
        let e = self.mem.read_entry(parent, index);
        match e.target_frame() {
            Some(f) => {
                proof {
                    assert(is_ptr_entry(self.mem@, parent as int, index as int));
                }
                f.frame_num
            },
            None => {
                let frame = match allocator.allocate_frame() {
                    Some(f) => f,
                    None => {
                        proof {
                            let s = old(allocator).issuable();
                            let t = choose|t: Set<int>|
                                t.finite() && t.subset_of(s) && t.len() == 1nat;
                            assert(t.len() != 0);
                            assert(t.contains(t.choose()));
                            assert(false);
                        }
                        Frame { frame_num: 0 }
                    },
                };
                let fresh = frame.frame_num;
                let ghost m0 = self.mem@;
                let ghost lv = self.mem@[parent as int].level;
                let table = Table::empty();
                proof {
                    assert(table@ =~= zero_entries());
                    lemma_mem_wf_after_create(m0, parent as int, index as int, fresh as int);
                }
                self.mem.insert_table(fresh, Ghost(lv - 1), table);
                let mut pe = PageEntry(0);
                proof {
                    crate::entry::lemma_flag_algebra(0, 0);
                }
                pe.set(frame, EntryFlags { bits: PRESENT | WRITABLE });
                self.mem.write_entry(parent, index, pe);
                proof {
                    let m4 = self.mem@;
                    assert(m4 =~= create_map(m0, parent as int, index as int, fresh as int));
                    lemma_encode_fields(fresh, PRESENT | WRITABLE);
                    crate::entry::lemma_flag_algebra(0, 0);
                    assert(self.cr3 == old(self).cr3);
                    assert(m4[self.cr3.frame_num as int].entries[511]
                        == m0[self.cr3.frame_num as int].entries[511]) by {
                        assert(!(m0[parent as int].level == 4 && index == 511));
                        if parent as int == self.cr3.frame_num as int {
                            assert(m0[parent as int].level == 4);
                        }
                    }
                    assert(self.root() == old(self).root());
                    let rt = self.root();
                    assert(m4[rt].entries[511] == m0[rt].entries[511]) by {
                        if parent as int == rt {
                            assert(m0[parent as int].level == 4);
                        }
                        assert(fresh as int != rt);
                    }
                    assert forall|rr: int, q: Page|
                        m0.contains_key(rr) && m0[rr].level == 4 && q.page_num < PAGE_LIMIT
                            && q.l4_index() != 511 implies #[trigger] translate_page_at(m4, rr, q)
                            == translate_page_at(m0, rr, q) by {
                        lemma_create_step_framing(m0, parent as int, index as int, fresh as int,
                            rr, q);
                    }
                    assert forall|rr: int, q: Page|
                        m0.contains_key(rr) && m0[rr].level == 4 && q.page_num < PAGE_LIMIT
                            && q.l4_index() != 511
                            && (#[trigger] leaf_entry_at(m0, rr, q)) matches Some(b) implies
                        leaf_entry_at(m4, rr, q) == leaf_entry_at(m0, rr, q)
                            && l1_table_at(m4, rr, q) == l1_table_at(m0, rr, q) by {
                        lemma_create_step_framing(m0, parent as int, index as int, fresh as int,
                            rr, q);
                    }
                    assert forall|n: int| final(allocator).issuable().contains(n) implies 0 <= n
                        < FRAME_LIMIT && !(#[trigger] self.mem@.contains_key(n)) by {
                        assert(old(allocator).issuable().contains(n));
                    }
                }
                fresh
            },
        }
    }

    /// Map `page` to `frame` with the given flags, creating missing
    /// intermediate tables from the allocator.  Re-mapping a mapped page
    /// silently overwrites its leaf entry.
    pub fn map_page_to_frame<A: FrameAllocator>(&mut self, page: Page, frame: Frame,
        flags: EntryFlags, allocator: &mut A)
        requires
            old(self).wf(),
            page.mappable(),
            frame.frame_num < FRAME_LIMIT,
            flags.wf(),
            old(self).path_clear(page),
            old(allocator).inv(),
            frames_fresh(old(allocator).issuable(), old(self).mem@),
            at_least(old(allocator).issuable(), old(self).tables_needed(page)),
        ensures
            map_to_effect(*old(self), *final(self), page, frame, flags),
            final(allocator).inv(),
            final(allocator).issuable().subset_of(old(allocator).issuable()),
            frames_fresh(final(allocator).issuable(), final(self).mem@),
            forall|k: nat|
                at_least(old(allocator).issuable(), (k + old(self).tables_needed(page)) as nat)
                    ==> at_least(final(allocator).issuable(), k),
            forall|n: int|
                #[trigger] final(self).mem@.contains_key(n) ==> old(self).mem@.contains_key(n)
                    || old(allocator).issuable().contains(n),
            old(self).tables_needed(page) == 0 ==> *final(allocator) == *old(allocator),
    {
        let l4i = page.page_map_index();
        let l3i = page.pointer_table_index();
        let l2i = page.page_dir_index();
        let l1i = page.page_table_index();
        let root = self.root_frame();
        let ghost m0 = self.mem@;
        let ghost iss0 = allocator.issuable();
        let ghost needed = old(self).tables_needed(page);

        proof {
            lemma_page_index_bounds(page);
            if !entry_present(m0[root as int].entries[page.l4_index()]) {
                crate::memory::lemma_at_least_mono(iss0, 1, needed);
            }
        }
        let t3 = self.next_table_create(root, l4i, allocator);
        let ghost m1 = self.mem@;
        let ghost iss1 = allocator.issuable();
        proof {
            if entry_present(m1[t3 as int].entries[page.l3_index()]) {
                assert(!entry_huge(m1[t3 as int].entries[page.l3_index()])) by {
                    if entry_present(m0[root as int].entries[page.l4_index()]) {
                        assert(m1 == m0);
                        assert(old(self).l3_table(page) == Some(t3 as int));
                    } else {
                        assert(m1[t3 as int].entries =~= zero_entries());
                        assert(m1[t3 as int].entries[page.l3_index()] == 0u64);
                        lemma_zero_entry();
                    }
                }
            }
            if !entry_present(m1[t3 as int].entries[page.l3_index()]) {
                if entry_present(m0[root as int].entries[page.l4_index()]) {
                    assert(m1 == m0);
                    assert(self.l3_table(page) == Some(t3 as int));
                    assert(needed >= 2);
                    crate::memory::lemma_at_least_mono(iss0, 1, needed);
                } else {
                    assert(needed == 3);
                    crate::memory::lemma_at_least_remove(iss0, t3 as int, 2);
                    crate::memory::lemma_at_least_mono(iss1, 1, 2);
                }
            }
        }
        let t2 = self.next_table_create(t3, l3i, allocator);
        let ghost m2 = self.mem@;
        let ghost iss2 = allocator.issuable();
        proof {
            assert(m2[t2 as int].level == 2);
            if entry_present(m2[t2 as int].entries[page.l2_index()]) {
                assert(!entry_huge(m2[t2 as int].entries[page.l2_index()])) by {
                    if entry_present(m1[t3 as int].entries[page.l3_index()]) {
                        assert(m2 == m1);
                        if entry_present(m0[root as int].entries[page.l4_index()]) {
                            assert(m1 == m0);
                            assert(old(self).l2_table(page) == Some(t2 as int));
                        } else {
                            assert(m1[t3 as int].entries[page.l3_index()] == 0u64);
                            lemma_zero_entry();
                        }
                    } else {
                        assert(m2[t2 as int].entries =~= zero_entries());
                        assert(m2[t2 as int].entries[page.l2_index()] == 0u64);
                        lemma_zero_entry();
                    }
                }
            }
            if !entry_present(m2[t2 as int].entries[page.l2_index()]) {
                if entry_present(m1[t3 as int].entries[page.l3_index()]) {
                    assert(m2 == m1);
                    if entry_present(m0[root as int].entries[page.l4_index()]) {
                        assert(m1 == m0);
                        assert(l2_table_at(m0, root as int, page) == Some(t2 as int));
                        assert(needed >= 1);
                        crate::memory::lemma_at_least_mono(iss0, 1, needed);
                    } else {
                        assert(needed == 3);
                        crate::memory::lemma_at_least_remove(iss0, t3 as int, 2);
                        crate::memory::lemma_at_least_mono(iss1, 1, 2);
                    }
                } else {
                    if entry_present(m0[root as int].entries[page.l4_index()]) {
                        assert(needed >= 2);
                        crate::memory::lemma_at_least_mono(iss0, 2, needed);
                        crate::memory::lemma_at_least_remove(iss0, t2 as int, 1);
                    } else {
                        assert(needed == 3);
                        crate::memory::lemma_at_least_remove(iss0, t3 as int, 2);
                        crate::memory::lemma_at_least_remove(iss1, t2 as int, 1);
                    }
                    crate::memory::lemma_at_least_mono(iss2, 1, 1);
                }
            }
        }
        let t1 = self.next_table_create(t2, l2i, allocator);
        let ghost m3 = self.mem@;
        let ghost iss3 = allocator.issuable();

        let mut pe = PageEntry(0);
        proof {
            crate::entry::lemma_flag_algebra(flags.bits, 0);
        }
        let full_flags = flags.union(EntryFlags { bits: PRESENT });
        pe.set(frame, full_flags);
        proof {
            assert(self.mem.wf());
        }
        self.mem.write_entry(t1, l1i, pe);

        proof {
            let rt = old(self).root();
            let b = pe.0;
            let m4 = self.mem@;
            assert(m4 =~= write_map(m3, t1 as int, page.l1_index(), b));
            assert(m3[t1 as int].level == 1);
            lemma_mem_wf_after_leaf_write(m3, t1 as int, page.l1_index(), b);

            // the register table and the root keep their recursive slots
            assert(t1 as int != self.cr3.frame_num as int && t1 as int != rt);
            assert(self.root() == rt);
            assert(self.wf());

            // the page's own walk now ends in the written leaf slot
            assert(m3[root as int].entries[page.l4_index()]
                == m1[root as int].entries[page.l4_index()]) by {
                assert(m1[t3 as int].level == 3 && root as int != t3 as int);
                if !entry_present(m1[t3 as int].entries[page.l3_index()]) {
                    assert(!m1.contains_key(t2 as int));
                }
                assert(m2[t2 as int].level == 2 && root as int != t2 as int);
                if !entry_present(m2[t2 as int].entries[page.l2_index()]) {
                    assert(!m2.contains_key(t1 as int));
                }
            }
            assert(l3_table_at(m3, rt, page) == Some(t3 as int));
            assert(m3[t3 as int].entries[page.l3_index()]
                == m2[t3 as int].entries[page.l3_index()]) by {
                assert(m2[t2 as int].level == 2 && t3 as int != t2 as int);
                if !entry_present(m2[t2 as int].entries[page.l2_index()]) {
                    assert(!m2.contains_key(t1 as int));
                }
            }
            assert(l2_table_at(m3, rt, page) == Some(t2 as int));
            assert(l1_table_at(m3, rt, page) == Some(t1 as int));
            assert(l1_table_at(m4, rt, page) == Some(t1 as int)) by {
                assert(m4[root as int].entries[page.l4_index()]
                    == m3[root as int].entries[page.l4_index()]);
                assert(m4[t3 as int].entries[page.l3_index()]
                    == m3[t3 as int].entries[page.l3_index()]);
                assert(m4[t2 as int].entries[page.l2_index()]
                    == m3[t2 as int].entries[page.l2_index()]);
            }
            assert(self.leaf_entry(page) == Some(encode_entry(frame.frame_num as int,
                flags.bits | PRESENT)));
            lemma_encode_fields(frame.frame_num, flags.bits | PRESENT);
            crate::entry::lemma_flag_algebra(flags.bits, 0);
            assert(self.translate_page(page) == Some(frame.frame_num as int));

            // levels survive every step, so the framing lemmas chain
            assert forall|f: int| #[trigger] m0.contains_key(f) implies m3.contains_key(f)
                && m3[f].level == m0[f].level && m4.contains_key(f) && m4[f].level == m0[f].level
                by {}

            assert forall|rr: int, q: Page|
                m0.contains_key(rr) && m0[rr].level == 4 && q.page_num < PAGE_LIMIT
                    && q.l4_index() != 511 && (rr != rt || q.page_num != page.page_num) implies
                #[trigger] translate_page_at(m4, rr, q) == translate_page_at(m0, rr, q) by {
                lemma_leaf_write_framing(m3, rt, page, b, rr, q);
                assert(translate_page_at(m4, rr, q) == translate_page_at(m3, rr, q));
            }
            assert forall|rr: int, q: Page|
                m0.contains_key(rr) && m0[rr].level == 4 && q.page_num < PAGE_LIMIT
                    && q.l4_index() != 511 && (rr != rt || q.page_num != page.page_num)
                    && (#[trigger] leaf_entry_at(m0, rr, q)) is Some implies
                leaf_entry_at(m4, rr, q) == leaf_entry_at(m0, rr, q) by {
                assert(leaf_entry_at(m3, rr, q) == leaf_entry_at(m0, rr, q));
                lemma_leaf_write_framing(m3, rt, page, b, rr, q);
            }

            // every table that joined the store came from the allocator
            assert forall|n: int| #[trigger] m4.contains_key(n) implies m0.contains_key(n)
                || iss0.contains(n) by {
                if !m0.contains_key(n) {
                    assert(n == t3 as int || n == t2 as int || n == t1 as int);
                }
            }

            // allocator budget: one issuable frame went into each table
            // that had to be created
            let c1 = entry_present(m0[root as int].entries[page.l4_index()]);
            let c2 = entry_present(m1[t3 as int].entries[page.l3_index()]);
            let c3 = entry_present(m2[t2 as int].entries[page.l2_index()]);
            assert forall|k: nat| at_least(iss0, (k + needed) as nat) implies at_least(iss3, k)
                by {
                if c1 && c2 && c3 {
                    assert(needed == 0);
                    crate::memory::lemma_at_least_mono(iss0, k, (k + needed) as nat);
                } else if c1 && c2 && !c3 {
                    assert(needed == 1);
                    crate::memory::lemma_at_least_remove(iss0, t1 as int, k);
                } else if c1 && !c2 {
                    assert(needed == 2);
                    assert(!c3) by {
                        assert(m2[t2 as int].entries[page.l2_index()] == 0u64);
                        lemma_zero_entry();
                    }
                    crate::memory::lemma_at_least_remove(iss0, t2 as int, (k + 1) as nat);
                    crate::memory::lemma_at_least_remove(iss1.remove(t2 as int), t1 as int, k);
                } else {
                    assert(!c1 && needed == 3);
                    assert(!c2) by {
                        assert(m1[t3 as int].entries[page.l3_index()] == 0u64);
                        lemma_zero_entry();
                    }
                    assert(!c3) by {
                        assert(m2[t2 as int].entries[page.l2_index()] == 0u64);
                        lemma_zero_entry();
                    }
                    crate::memory::lemma_at_least_remove(iss0, t3 as int, (k + 2) as nat);
                    crate::memory::lemma_at_least_remove(iss1, t2 as int, (k + 1) as nat);
                    crate::memory::lemma_at_least_remove(iss2, t1 as int, k);
                }
            }
        }
    }

    /// Map `page` to the next free frame of the allocator; exhaustion is
    /// excluded by the supply precondition, mirroring the fatal abort of
    /// a kernel that cannot get memory during boot.
    pub fn map_page<A: FrameAllocator>(&mut self, page: Page, flags: EntryFlags, allocator:
        &mut A)
        requires
            old(self).wf(),
            page.mappable(),
            flags.wf(),
            old(self).path_clear(page),
            old(allocator).inv(),
            frames_fresh(old(allocator).issuable(), old(self).mem@),
            at_least(old(allocator).issuable(), old(self).tables_needed(page) + 1),
        ensures
            exists|f: Frame|
                #[trigger] map_to_effect(*old(self), *final(self), page, f, flags)
                    && old(allocator).issuable().contains(f.frame_num as int),
            final(allocator).inv(),
            final(allocator).issuable().subset_of(old(allocator).issuable()),
            frames_fresh(final(allocator).issuable(), final(self).mem@),
            forall|k: nat|
                at_least(old(allocator).issuable(), (k + old(self).tables_needed(page) + 1)
                    as nat) ==> at_least(final(allocator).issuable(), k),
    {
        let ghost iss0 = allocator.issuable();
        proof {
            crate::memory::lemma_at_least_mono(iss0, 1, old(self).tables_needed(page) + 1);
        }
        let frame = match allocator.allocate_frame() {
            Some(f) => f,
            None => {
                proof {
                    let t = choose|t: Set<int>|
                        t.finite() && t.subset_of(iss0) && t.len() == 1nat;
                    assert(t.len() != 0);
                    assert(t.contains(t.choose()));
                    assert(false);
                }
                Frame { frame_num: 0 }
            },
        };
        proof {
            crate::memory::lemma_at_least_remove(iss0, frame.frame_num as int, old(
                self).tables_needed(page));
            assert forall|k: nat|
                #[trigger] at_least(iss0, (k + old(self).tables_needed(page) + 1) as nat) implies
                at_least(allocator.issuable(), (k + old(self).tables_needed(page)) as nat) by {
                crate::memory::lemma_at_least_remove(iss0, frame.frame_num as int, (k + old(
                    self).tables_needed(page)) as nat);
            }
        }
        self.map_page_to_frame(page, frame, flags, allocator);
    }

    /// Map the page whose number equals the frame's number to that
    /// frame: the identity mapping used for the kernel image, the
    /// diagnostic buffer and the boot information block.
    pub fn identity_map<A: FrameAllocator>(&mut self, frame: Frame, flags: EntryFlags, allocator:
        &mut A)
        requires
            old(self).wf(),
            (Page { page_num: frame.frame_num }).mappable(),
            flags.wf(),
            old(self).path_clear((Page { page_num: frame.frame_num })),
            old(allocator).inv(),
            frames_fresh(old(allocator).issuable(), old(self).mem@),
            at_least(old(allocator).issuable(), old(self).tables_needed((Page {
                page_num: frame.frame_num }))),
        ensures
            map_to_effect(*old(self), *final(self), (Page { page_num: frame.frame_num }), frame,
                flags),
            final(allocator).inv(),
            final(allocator).issuable().subset_of(old(allocator).issuable()),
            frames_fresh(final(allocator).issuable(), final(self).mem@),
            forall|k: nat|
                at_least(old(allocator).issuable(), (k + old(self).tables_needed((Page {
                    page_num: frame.frame_num }))) as nat) ==> at_least(final(
                allocator).issuable(), k),
    {
        proof {
            vstd::arithmetic::div_mod::lemma_div_by_multiple(frame.frame_num as int,
                PAGE_SIZE as int);
        }
        let page = Page::containing_address(frame.address());
        self.map_page_to_frame(page, frame, flags, allocator);
    }

    /// Clear the present bit on `page`'s leaf entry, making the page
    /// translate to nothing.  The vacated frame is deliberately not
    /// returned to the allocator, and in this model the lookup-cache
    /// invalidation of the hardware has no observable effect, since
    /// every walk reads the current entries.
    pub fn unmap<A: FrameAllocator>(&mut self, page: Page, allocator: &mut A)
        requires
            old(self).wf(),
            page.mappable(),
            old(self).leaf_entry(page) is Some,
            entry_present(old(self).leaf_entry(page).unwrap()),
        ensures
            unmap_effect(*old(self), *final(self), page),
            *final(allocator) == *old(allocator),
    {
        let l4i = page.page_map_index();
        let l3i = page.pointer_table_index();
        let l2i = page.page_dir_index();
        let l1i = page.page_table_index();
        let root = self.root_frame();
        let ghost m0 = self.mem@;
        let ghost rt = old(self).root();
        proof {
            lemma_page_index_bounds(page);
            lemma_path_levels(m0, rt, page);
        }
        let e4 = self.mem.read_entry(root, l4i);
        let t3 = match e4.target_frame() {
            Some(f) => f.frame_num,
            None => {
                proof {
                    assert(false);
                }
                0
            },
        };
        let e3 = self.mem.read_entry(t3, l3i);
        let t2 = match e3.target_frame() {
            Some(f) => f.frame_num,
            None => {
                proof {
                    assert(false);
                }
                0
            },
        };
        let e2 = self.mem.read_entry(t2, l2i);
        let t1 = match e2.target_frame() {
            Some(f) => f.frame_num,
            None => {
                proof {
                    assert(false);
                }
                0
            },
        };
        proof {
            assert(l1_table_at(m0, rt, page) == Some(t1 as int));
        }
        let mut leaf = self.mem.read_entry(t1, l1i);
        leaf.mark_unused();
        self.mem.write_entry(t1, l1i, leaf);
        proof {
            let b = leaf.0;
            let m2 = self.mem@;
            assert(m2 =~= write_map(m0, t1 as int, page.l1_index(), b));
            assert(m2.dom() =~= m0.dom());
            lemma_mem_wf_after_leaf_write(m0, t1 as int, page.l1_index(), b);
            assert(t1 as int != self.cr3.frame_num as int && t1 as int != rt);
            assert(self.root() == rt);
            assert(self.wf());
            assert(l1_table_at(m2, rt, page) == Some(t1 as int)) by {
                assert(m2[rt].entries[page.l4_index()] == m0[rt].entries[page.l4_index()]);
                assert(m2[t3 as int].entries[page.l3_index()]
                    == m0[t3 as int].entries[page.l3_index()]);
                assert(m2[t2 as int].entries[page.l2_index()]
                    == m0[t2 as int].entries[page.l2_index()]);
            }
            assert(self.leaf_entry(page) == Some(cleared_bits(old(self).leaf_entry(
                page).unwrap())));
            assert(self.translate_page(page) is None);
            assert forall|rr: int, q: Page|
                m0.contains_key(rr) && m0[rr].level == 4 && q.page_num < PAGE_LIMIT
                    && q.l4_index() != 511 && (rr != rt || q.page_num != page.page_num) implies
                #[trigger] translate_page_at(m2, rr, q) == translate_page_at(m0, rr, q)
                    && leaf_entry_at(m2, rr, q) == leaf_entry_at(m0, rr, q) by {
                lemma_leaf_write_framing(m0, rt, page, b, rr, q);
            }
        }
    }

    /// Translate a virtual address, preserving its offset in the page.
    pub fn translate(&self, v_addr: VirtualAddress) -> (r: Option<PhysicalAddress>)
        requires
            self.wf(),
            v_addr < VIRT_SPACE,
        ensures
            r == (match translate_page_at(self.mem@, self.root(),
                (Page { page_num: v_addr / PAGE_SIZE })) {
                Some(n) => Some((n * PAGE_SIZE + v_addr % PAGE_SIZE) as u64),
                None => None::<u64>,
            }),
            (match r {
                Some(a) => a % PAGE_SIZE == v_addr % PAGE_SIZE,
                None => true,
            }),
    {
        let page_offset = v_addr & 0x0FFF;
        proof {
            assert(v_addr & 0x0FFFu64 == v_addr % 4096u64 && (v_addr < 0x1_0000_0000_0000u64
                ==> v_addr / 4096u64 < 0x10_0000_0000u64)) by (bit_vector);
        }
        let page = Page::containing_address(v_addr);
        match self.translate_page_to_frame(page) {
            Some(frame) => {
                let a = frame.frame_num * PAGE_SIZE + page_offset;
                proof {
                    let n = frame.frame_num as int;
                    let off = (v_addr % PAGE_SIZE) as int;
                    vstd::arithmetic::div_mod::lemma_mod_multiples_vanish(n, off, PAGE_SIZE as int);
                    vstd::arithmetic::div_mod::lemma_small_mod((v_addr % PAGE_SIZE) as nat,
                        PAGE_SIZE as nat);
                }
                Some(a)
            },
            None => None,
        }
    }
}

/// A page that translates to nothing has no huge obstruction on its
/// path: a huge entry would have ended its walk with a frame.  Nor has a
/// page whose walk reaches a leaf slot.
pub proof fn lemma_path_clear_trivial(m: PTMapper, q: Page)
    requires
        m.translate_page(q) is None || m.leaf_entry(q) is Some,
    ensures
        m.path_clear(q),
{
}

/// A page resolves to a frame exactly when its walk ends in a present
/// leaf entry, or a huge entry at one of the two middle levels ends the
/// walk early.  Together with the mapping and unmapping effects this
/// pins down when `translate` answers: a page translates if and only if
/// it was mapped, directly or under a huge ancestor, and not unmapped
/// since; the offset clause of `translate`'s own contract adds that the
/// low twelve bits of the query come back unchanged.
pub proof fn lemma_translate_some_iff(m: PTMapper, q: Page)
    ensures
        (m.translate_page(q) is Some) <==> ({
            let mm = m.mem@;
            let r = m.root();
            ||| (m.leaf_entry(q) matches Some(b) && entry_present(b))
            ||| (l3_table_at(mm, r, q) matches Some(t3)
                && entry_present(mm[t3].entries[q.l3_index()])
                && entry_huge(mm[t3].entries[q.l3_index()]))
            ||| (l2_table_at(mm, r, q) matches Some(t2)
                && entry_present(mm[t2].entries[q.l2_index()])
                && entry_huge(mm[t2].entries[q.l2_index()]))
        }),
{
}

/// Round trip: after `map_page_to_frame(page, frame, flags, ..)`, any
/// address inside the page belongs to that page and carries its offset,
/// so translating it yields the frame's base address plus the offset.
pub proof fn lemma_map_round_trip(pre: PTMapper, post: PTMapper, page: Page, frame: Frame,
    flags: EntryFlags, off: int)
    requires
        map_to_effect(pre, post, page, frame, flags),
        0 <= off < PAGE_SIZE,
    ensures
        translate_page_at(post.mem@, post.root(), page) == Some(frame.frame_num as int),
        (page.page_num * PAGE_SIZE + off) / (PAGE_SIZE as int) == page.page_num as int,
        (page.page_num * PAGE_SIZE + off) % (PAGE_SIZE as int) == off,
{
    let p = PAGE_SIZE as int;
    let n = page.page_num as int;
    vstd::arithmetic::div_mod::lemma_fundamental_div_mod(n * p + off, p);
    vstd::arithmetic::div_mod::lemma_mod_multiples_vanish(n, off, p);
    vstd::arithmetic::div_mod::lemma_small_mod(off as nat, p as nat);
    assert((n * p + off) % p == off);
    assert(n * p + off == p * ((n * p + off) / p) + off);
    assert(p * ((n * p + off) / p) == p * n) by (nonlinear_arith)
        requires n * p + off == p * ((n * p + off) / p) + off;
    assert((n * p + off) / p == n) by (nonlinear_arith)
        requires p * ((n * p + off) / p) == p * n, p > 0;
}

/// Idempotence: mapping the same page to the same frame with the same
/// flags a second time leaves every translation exactly as the first
/// mapping left it.
pub proof fn lemma_map_to_idempotent(m0: PTMapper, m1: PTMapper, m2: PTMapper, page: Page,
    frame: Frame, flags: EntryFlags)
    requires
        map_to_effect(m0, m1, page, frame, flags),
        map_to_effect(m1, m2, page, frame, flags),
    ensures
        forall|q: Page|
            q.page_num < PAGE_LIMIT && q.l4_index() != 511
                ==> #[trigger] translate_page_at(m2.mem@, m2.root(), q)
                == translate_page_at(m1.mem@, m1.root(), q),
        leaf_entry_at(m2.mem@, m2.root(), page) == leaf_entry_at(m1.mem@, m1.root(), page),
{
    let rt = m1.root();
    assert(m1.mem@.contains_key(rt) && m1.mem@[rt].level == 4);
    assert forall|q: Page|
        q.page_num < PAGE_LIMIT && q.l4_index() != 511 implies #[trigger] translate_page_at(
        m2.mem@, m2.root(), q) == translate_page_at(m1.mem@, m1.root(), q) by {
        if q.page_num == page.page_num {
            assert(q == page);
            assert(translate_page_at(m2.mem@, m2.root(), q) == Some(frame.frame_num as int));
            assert(translate_page_at(m1.mem@, m1.root(), q) == Some(frame.frame_num as int));
        } else {
            assert(translate_page_at(m2.mem@, rt, q) == translate_page_at(m1.mem@, rt, q));
        }
    }
}

/// After `unmap(page)` the page translates to nothing, while a mapping
/// previously established for any other page is unaffected, in both its
/// target frame and its exact leaf bits.
pub proof fn lemma_unmap_leaves_others(pre: PTMapper, post: PTMapper, page: Page, q: Page)
    requires
        pre.wf(),
        unmap_effect(pre, post, page),
        q.page_num < PAGE_LIMIT,
        q.l4_index() != 511,
        q.page_num != page.page_num,
    ensures
        translate_page_at(post.mem@, post.root(), page) is None,
        translate_page_at(post.mem@, post.root(), q) == translate_page_at(pre.mem@, pre.root(),
            q),
        leaf_entry_at(post.mem@, post.root(), q) == leaf_entry_at(pre.mem@, pre.root(), q),
{
    let rt = pre.root();
    assert(pre.mem@.contains_key(rt) && pre.mem@[rt].level == 4);
    assert(translate_page_at(post.mem@, rt, q) == translate_page_at(pre.mem@, rt, q)
        && leaf_entry_at(post.mem@, rt, q) == leaf_entry_at(pre.mem@, rt, q));
}

} // verus!
