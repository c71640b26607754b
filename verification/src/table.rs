//! Table nodes of the four-level radix tree, and the model of physical
//! memory that holds them.
//!
//! On hardware a table is 512 entries living in one physical frame,
//! reached through the recursive self-mapping.  Here a `TableStore` keeps
//! each table beside its frame number, so walks and mutations are plain
//! verified code; the recursive-address formula itself survives as
//! `Table::next_table_addr`.

use vstd::prelude::*;
use crate::ENTRY_COUNT;
use crate::entry::{cleared_bits, entry_present, PageEntry};

verus! {

/// A fixed array of 512 entries: one node of the paging radix tree.
pub struct Table {
    pub entries: Vec<PageEntry>,
}

impl View for Table {
    type V = Seq<u64>;

    open spec fn view(&self) -> Seq<u64> {
        self.entries@.map_values(|e: PageEntry| e.0)
    }
}

impl Table {
    /// A table holds exactly 512 entries.
    pub open spec fn wf(self) -> bool {
        self.entries@.len() == ENTRY_COUNT
    }

    /// A table with every entry zero.
    pub fn empty() -> (t: Table)
        ensures
            t.wf(),
            forall|i: int| 0 <= i < ENTRY_COUNT ==> t@[i] == 0u64,
    {
        let mut entries: Vec<PageEntry> = Vec::new();
        let mut k: usize = 0;
        while k < ENTRY_COUNT
            invariant
                k == entries@.len(),
                k <= ENTRY_COUNT,
                forall|i: int| 0 <= i < k ==> entries@[i] == (PageEntry(0u64)),
            decreases ENTRY_COUNT - k,
        {
            entries.push(PageEntry(0));
            k = k + 1;
        }
        Table { entries }
    }

    /// Mark every entry unused by clearing its present bit; stored
    /// addresses and the other known flags are kept.
    pub fn clear(&mut self)
        requires
            old(self).wf(),
        ensures
            final(self).wf(),
            forall|i: int| 0 <= i < ENTRY_COUNT ==> final(self)@[i] == cleared_bits(old(self)@[i]),
            forall|i: int| 0 <= i < ENTRY_COUNT ==> !entry_present(final(self)@[i]),
    {
        let mut k: usize = 0;
        while k < ENTRY_COUNT
            invariant
                old(self).wf(),
                self.wf(),
                k <= ENTRY_COUNT,
                forall|i: int| k <= i < ENTRY_COUNT ==> self@[i] == old(self)@[i],
                forall|i: int| 0 <= i < k ==> self@[i] == cleared_bits(old(self)@[i]),
                forall|i: int| 0 <= i < k ==> !entry_present(self@[i]),
            decreases ENTRY_COUNT - k,
        {
            let ghost pre = *self;
            let mut e = self.entries[k];
            e.mark_unused();
            self.entries[k] = e;
            proof {
                assert(self.entries@ =~= pre.entries@.update(k as int, e));
                assert forall|i: int| 0 <= i < ENTRY_COUNT implies #[trigger] self@[i] == if i == k {
                    e.0
                } else {
                    pre@[i]
                } by {
                    assert(self@[i] == self.entries@[i].0);
                    assert(pre@[i] == pre.entries@[i].0);
                }
            }
            k = k + 1;
        }
    }

    /// The descent formula of the recursive mapping: given this table's
    /// own virtual address, the virtual address of the child table behind
    /// the entry at `index`, or `None` when that entry is not present.
    ///
    /// On hardware the table's own address comes from the pointer it is
    /// reached through; the model passes it explicitly.
    pub fn next_table_addr(&self, own_addr: u64, index: usize) -> (r: Option<u64>)
        requires
            self.wf(),
            index < ENTRY_COUNT,
        ensures
            r == if entry_present(self@[index as int]) {
                Some((own_addr << 9u64) | ((index as u64) << 12u64))
            } else {
                None::<u64>
            },
    {
        let e = self.entries[index];
        if !e.is_unused() {
            Some((own_addr << 9u64) | ((index as u64) << 12u64))
        } else {
            None
        }
    }
}

/// With the canonical root address, the descent formula at the recursive
/// index returns the root address itself: the table whose last slot
/// points at itself is its own child there, which is what makes every
/// descendant table addressable from physical frame numbers alone.
pub proof fn lemma_recursive_address_fixpoint()
    ensures
        (0xFFFF_FFFF_FFFF_F000u64 << 9u64) | (511u64 << 12u64) == 0xFFFF_FFFF_FFFF_F000u64,
{
    assert((0xFFFF_FFFF_FFFF_F000u64 << 9u64) | (511u64 << 12u64) == 0xFFFF_FFFF_FFFF_F000u64)
        by (bit_vector);
}

/// What the model records of one stored table: the level it serves at
/// (4 is the root) and its raw entries.
pub ghost struct TableInfo {
    pub level: int,
    pub entries: Seq<u64>,
}

/// One table living at a physical frame.  The level is ghost: the
/// machine never tags frames, but the proofs track the role each table
/// plays in the hierarchy.
pub struct StoredTable {
    pub frame_num: u64,
    pub level: Ghost<int>,
    pub table: Table,
}

impl StoredTable {
    /// The model view of this slot.
    pub open spec fn info(self) -> TableInfo {
        TableInfo { level: self.level@, entries: self.table@ }
    }
}

/// The model of physical memory: every frame known to hold a page table,
/// with that table's contents.  Frames absent from the store hold plain
/// data and are never interpreted as tables.
pub struct TableStore {
    pub slots: Vec<StoredTable>,
}

/// The map from frame number to stored table described by a slot list.
pub open spec fn slots_view(s: Seq<StoredTable>) -> Map<int, TableInfo>
    decreases s.len(),
{
    if s.len() == 0 {
        Map::empty()
    } else {
        slots_view(s.drop_last()).insert(s.last().frame_num as int, s.last().info())
    }
}

impl View for TableStore {
    type V = Map<int, TableInfo>;

    open spec fn view(&self) -> Map<int, TableInfo> {
        slots_view(self.slots@)
    }
}

/// A frame number appears in the view exactly when some slot carries it.
proof fn lemma_view_contains(s: Seq<StoredTable>, k: int)
    ensures
        slots_view(s).contains_key(k) <==> exists|i: int|
            0 <= i < s.len() && (#[trigger] s[i]).frame_num == k,
    decreases s.len(),
{
    if s.len() > 0 {
        lemma_view_contains(s.drop_last(), k);
        if s.last().frame_num == k {
            assert(s[s.len() - 1].frame_num == k);
        } else if slots_view(s).contains_key(k) {
            let i = choose|i: int| 0 <= i < s.len() - 1 && (#[trigger] s.drop_last()[i]).frame_num == k;
            assert(s[i].frame_num == k);
        } else if exists|i: int| 0 <= i < s.len() && (#[trigger] s[i]).frame_num == k {
            let i = choose|i: int| 0 <= i < s.len() && (#[trigger] s[i]).frame_num == k;
            assert(s.drop_last()[i].frame_num == k);
        }
    }
}

/// Under unique frame numbers, slot `i` is what the view holds for its
/// frame.
proof fn lemma_view_index(s: Seq<StoredTable>, i: int)
    requires
        forall|a: int, b: int|
            0 <= a < b < s.len() ==> (#[trigger] s[a]).frame_num != (#[trigger] s[b]).frame_num,
        0 <= i < s.len(),
    ensures
        slots_view(s).contains_key(s[i].frame_num as int),
        slots_view(s)[s[i].frame_num as int] == s[i].info(),
    decreases s.len(),
{
    if i < s.len() - 1 {
        lemma_view_index(s.drop_last(), i);
        assert(s.drop_last()[i] == s[i]);
        assert(s[i].frame_num != s.last().frame_num);
    }
}

/// Updating slot `i` with the same frame number updates the view at that
/// key alone.
proof fn lemma_view_update(s: Seq<StoredTable>, i: int, t: StoredTable)
    requires
        forall|a: int, b: int|
            0 <= a < b < s.len() ==> (#[trigger] s[a]).frame_num != (#[trigger] s[b]).frame_num,
        0 <= i < s.len(),
        t.frame_num == s[i].frame_num,
    ensures
        slots_view(s.update(i, t)) == slots_view(s).insert(t.frame_num as int, t.info()),
    decreases s.len(),
{
    let su = s.update(i, t);
    if i == s.len() - 1 {
        assert(su.drop_last() =~= s.drop_last());
        assert(su.last() == t);
        assert(slots_view(su) == slots_view(s.drop_last()).insert(t.frame_num as int, t.info()));
        assert(slots_view(s) == slots_view(s.drop_last()).insert(s.last().frame_num as int, s.last().info()));
        assert(slots_view(su) =~= slots_view(s).insert(t.frame_num as int, t.info()));
    } else {
        assert(su.drop_last() =~= s.drop_last().update(i, t));
        assert(su.last() == s.last());
        lemma_view_update(s.drop_last(), i, t);
        assert(s.last().frame_num != t.frame_num);
        assert(slots_view(su) =~= slots_view(s).insert(t.frame_num as int, t.info()));
    }
}

impl TableStore {
    /// Frame numbers are unique and every stored table is full-size.
    pub open spec fn wf(self) -> bool {
        &&& forall|i: int| 0 <= i < self.slots@.len() ==> (#[trigger] self.slots@[i]).table.wf()
        &&& forall|a: int, b: int|
            0 <= a < b < self.slots@.len() ==> (#[trigger] self.slots@[a]).frame_num
                != (#[trigger] self.slots@[b]).frame_num
    }

    /// A store with no tables at all.
    pub fn new() -> (r: TableStore)
        ensures
            r.wf(),
            r@ == Map::<int, TableInfo>::empty(),
    {
        TableStore { slots: Vec::new() }
    }

    /// Every table in the view is full-size.
    pub proof fn lemma_wf_view(&self)
        requires
            self.wf(),
        ensures
            forall|f: int| self@.contains_key(f) ==> (#[trigger] self@[f]).entries.len() == ENTRY_COUNT,
    {
        assert forall|f: int| self@.contains_key(f) implies
            (#[trigger] self@[f]).entries.len() == ENTRY_COUNT by {
            lemma_view_contains(self.slots@, f);
            let i = choose|i: int|
                0 <= i < self.slots@.len() && (#[trigger] self.slots@[i]).frame_num == f;
            lemma_view_index(self.slots@, i);
        }
    }

    /// Index of the slot holding `frame`, if the store has one.
    fn find_slot(&self, frame: u64) -> (r: Option<usize>)
        requires
            self.wf(),
        ensures
            match r {
                Some(i) => {
                    &&& i < self.slots@.len()
                    &&& self.slots@[i as int].frame_num == frame
                    &&& self@.contains_key(frame as int)
                    &&& self@[frame as int] == self.slots@[i as int].info()
                },
                None => !self@.contains_key(frame as int),
            },
    {
        let n = self.slots.len();
        let mut k: usize = 0;
        while k < n
            invariant
                self.wf(),
                n == self.slots@.len(),
                k <= n,
                forall|i: int| 0 <= i < k ==> (#[trigger] self.slots@[i]).frame_num != frame,
            decreases n - k,
        {
            if self.slots[k].frame_num == frame {
                proof {
                    lemma_view_index(self.slots@, k as int);
                }
                return Some(k);
            }
            k = k + 1;
        }
        proof {
            lemma_view_contains(self.slots@, frame as int);
        }
        None
    }

    /// Does the store hold a table at `frame`?
    pub fn contains_frame(&self, frame: u64) -> (b: bool)
        requires
            self.wf(),
        ensures
            b == self@.contains_key(frame as int),
    {
        self.find_slot(frame).is_some()
    }

    /// Read one entry of the table at `frame`.
    pub fn read_entry(&self, frame: u64, index: usize) -> (e: PageEntry)
        requires
            self.wf(),
            self@.contains_key(frame as int),
            index < ENTRY_COUNT,
        ensures
            e.0 == self@[frame as int].entries[index as int],
    {
        let slot = match self.find_slot(frame) {
            Some(i) => i,
            None => {
                proof {
                    assert(false);
                }
                0
            },
        };
        self.slots[slot].table.entries[index]
    }

    /// Overwrite one entry of the table at `frame`.
    pub(crate) fn write_entry(&mut self, frame: u64, index: usize, e: PageEntry)
        requires
            old(self).wf(),
            old(self)@.contains_key(frame as int),
            index < ENTRY_COUNT,
        ensures
            final(self).wf(),
            final(self)@ == old(self)@.insert(frame as int, (TableInfo {
                level: old(self)@[frame as int].level,
                entries: old(self)@[frame as int].entries.update(index as int, e.0),
            })),
    {
        let slot = match self.find_slot(frame) {
            Some(i) => i,
            None => {
                proof {
                    assert(false);
                }
                0
            },
        };
        let ghost pre_slots = self.slots@;
        let ghost pre_st = self.slots@[slot as int];
        self.slots[slot].table.entries[index] = e;
        proof {
            let st = self.slots@[slot as int];
            assert(st.frame_num == pre_st.frame_num);
            assert(st.level == pre_st.level);
            assert(st.table@ =~= pre_st.table@.update(index as int, e.0));
            assert(self.slots@ =~= pre_slots.update(slot as int, st));
            lemma_view_update(pre_slots, slot as int, st);
            assert(st.info().entries =~= old(self)@[frame as int].entries.update(index as int, e.0));
        }
    }

    /// Install a table at a frame the store does not know yet.
    pub(crate) fn insert_table(&mut self, frame: u64, level: Ghost<int>, table: Table)
        requires
            old(self).wf(),
            !old(self)@.contains_key(frame as int),
            table.wf(),
        ensures
            final(self).wf(),
            final(self)@ == old(self)@.insert(frame as int, (TableInfo {
                level: level@,
                entries: table@,
            })),
    {
        let ghost pre_slots = self.slots@;
        let st = StoredTable { frame_num: frame, level, table };
        self.slots.push(st);
        proof {
            assert(self.slots@.drop_last() =~= pre_slots);
            assert forall|a: int, b: int|
                0 <= a < b < self.slots@.len() implies (#[trigger] self.slots@[a]).frame_num
                    != (#[trigger] self.slots@[b]).frame_num by {
                if b == self.slots@.len() - 1 {
                    lemma_view_contains(pre_slots, frame as int);
                    assert(pre_slots[a].frame_num != frame);
                }
            }
        }
    }
}

} // verus!
