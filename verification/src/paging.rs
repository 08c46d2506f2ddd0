use vstd::prelude::*;
use crate::addr::{Frame, Page, PhysAddr, VirtAddr, spec_align_down};
use crate::frames::{FrameSupply, FRAME_ADDR_MASK, frame_addr_wf};

verus! {

/// Number of entries in one hardware page table: one frame's worth.
pub const ENTRY_COUNT: usize = 512;

/// First entry index of the higher half, the part of every address space that
/// aliases the kernel's own mappings.
pub const HIGHER_HALF_ENTRY: usize = 256;

pub const FLAG_PRESENT: u64 = 0x1;

pub const FLAG_WRITABLE: u64 = 0x2;

pub const FLAG_USER_ACCESSIBLE: u64 = 0x4;

pub const FLAG_WRITE_THROUGH: u64 = 0x8;

pub const FLAG_NO_CACHE: u64 = 0x10;

pub const FLAG_ACCESSED: u64 = 0x20;

pub const FLAG_DIRTY: u64 = 0x40;

pub const FLAG_HUGE_PAGE: u64 = 0x80;

pub const FLAG_GLOBAL: u64 = 0x100;

pub const FLAG_NO_EXECUTE: u64 = 0x8000_0000_0000_0000;

/// All defined flag bits of a page-table entry. Flag bits and address bits
/// never alias: this mask and `FRAME_ADDR_MASK` are disjoint.
pub const ALL_FLAG_BITS: u64 = 0x8000_0000_0000_01ff;

/// A bit-set of page-table entry flags.
#[derive(Debug, Clone, Copy, PartialEq, Eq, Structural)]
pub struct EntryFlags {
    pub bits: u64,
}

impl EntryFlags {
    /// Only defined flag bits are set.
    pub open spec fn wf(&self) -> bool {
        self.bits & ALL_FLAG_BITS == self.bits
    }

    /// The flag set with exactly the defined bits of `bits`.
    pub fn from_bits_truncate(bits: u64) -> (r: Self)
        ensures
            r.bits == bits & ALL_FLAG_BITS,
            r.wf(),
    {
        proof {
            assert((bits & 0x8000_0000_0000_01ffu64) & 0x8000_0000_0000_01ffu64 == bits
                & 0x8000_0000_0000_01ffu64) by (bit_vector);
        }
        EntryFlags { bits: bits & ALL_FLAG_BITS }
    }

    /// The empty flag set.
    pub fn empty() -> (r: Self)
        ensures
            r.bits == 0,
            r.wf(),
    {
        proof {
            assert(0u64 & 0x8000_0000_0000_01ffu64 == 0u64) by (bit_vector);
        }
        EntryFlags { bits: 0 }
    }

    /// Whether every flag of `other` is also set in `self`.
    pub fn contains(&self, other: EntryFlags) -> (r: bool)
        ensures
            r == (self.bits & other.bits == other.bits),
    {
        self.bits & other.bits == other.bits
    }

    /// The union of the two flag sets.
    pub fn union(&self, other: EntryFlags) -> (r: Self)
        ensures
            r.bits == self.bits | other.bits,
    {
        EntryFlags { bits: self.bits | other.bits }
    }
}

/// Whether a raw entry word has the PRESENT bit set.
pub open spec fn entry_present(e: u64) -> bool {
    e & FLAG_PRESENT == FLAG_PRESENT
}

/// The physical address packed into a raw entry word.
pub open spec fn entry_addr(e: u64) -> u64 {
    e & FRAME_ADDR_MASK
}

/// The defined flag bits of a raw entry word.
pub open spec fn entry_flag_bits(e: u64) -> u64 {
    e & ALL_FLAG_BITS
}

/// The raw word that encodes `addr` with flags `fbits`.
pub open spec fn entry_value(fbits: u64, addr: u64) -> u64 {
    addr | fbits
}

/// The raw word after re-mapping an existing entry with extra flags: the
/// address is kept, the old defined flags are kept, `fbits` is added, and
/// undefined bits are dropped.
pub open spec fn merged_value(e: u64, fbits: u64) -> u64 {
    entry_addr(e) | entry_flag_bits(e) | fbits
}

/// One slot of a hardware page table: a single machine word packing flag bits
/// and a frame-aligned physical address, which never alias.
#[derive(Debug, Clone, Copy, PartialEq, Eq, Structural)]
pub struct Entry(pub u64);

impl Entry {
    /// The backing frame, only when the entry is PRESENT. An absent entry has
    /// no frame, whatever its address bits hold.
    pub fn frame(&self) -> (r: Option<Frame>)
        ensures
            entry_present(self.0) ==> r == Some(Frame { start_address: entry_addr(self.0) }),
            !entry_present(self.0) ==> r is None,
    {
        let present = EntryFlags { bits: FLAG_PRESENT };
        if self.flags().contains(present) {
            proof {
                let e = self.0;
                assert(((e & 0x8000_0000_0000_01ffu64) & 1u64 == 1u64) == (e & 1u64 == 1u64))
                    by (bit_vector);
                assert(spec_align_down(e & 0x000f_ffff_ffff_f000u64, 4096) == (e
                    & 0x000f_ffff_ffff_f000u64)) by (bit_vector);
            }
            Some(Frame::containing_address(self.0 & FRAME_ADDR_MASK))
        } else {
            proof {
                let e = self.0;
                assert(((e & 0x8000_0000_0000_01ffu64) & 1u64 == 1u64) == (e & 1u64 == 1u64))
                    by (bit_vector);
            }
            None
        }
    }

    /// The defined flag bits of the entry.
    pub fn flags(&self) -> (r: EntryFlags)
        ensures
            r.bits == entry_flag_bits(self.0),
            r.wf(),
    {
        EntryFlags::from_bits_truncate(self.0)
    }

    /// Encodes `(flags, addr)` into one word. The caller is responsible for
    /// handing in a frame-aligned address; a misaligned one would bleed into
    /// the flag bits.
    pub fn new(flags: EntryFlags, addr: PhysAddr) -> (r: Self)
        ensures
            r.0 == entry_value(flags.bits, addr),
    {
        Self(addr | flags.bits)
    }

    /// Overwrites the entry with the encoding of `(flags, addr)`.
    pub fn set(&mut self, flags: EntryFlags, addr: PhysAddr)
        ensures
            final(self).0 == entry_value(flags.bits, addr),
    {
        *self = Self::new(flags, addr)
    }
}

/// Decoding an encoded entry gives back exactly what was put in: the flags,
/// and the frame-aligned address.
pub proof fn lemma_entry_round_trip(fbits: u64, addr: u64)
    requires
        fbits & ALL_FLAG_BITS == fbits,
        addr & FRAME_ADDR_MASK == addr,
    ensures
        entry_flag_bits(entry_value(fbits, addr)) == fbits,
        entry_addr(entry_value(fbits, addr)) == addr,
        entry_present(entry_value(fbits, addr)) == (fbits & FLAG_PRESENT == FLAG_PRESENT),
{
    assert({
        &&& ((addr | fbits) & 0x8000_0000_0000_01ffu64) == fbits
        &&& ((addr | fbits) & 0x000f_ffff_ffff_f000u64) == addr
        &&& ((addr | fbits) & 1u64 == 1u64) == (fbits & 1u64 == 1u64)
    }) by (bit_vector)
        requires
            fbits & 0x8000_0000_0000_01ffu64 == fbits && addr & 0x000f_ffff_ffff_f000u64 == addr,
    ;
}

/// The contents of a freshly cleared table: 512 absent entries.
pub open spec fn zero_table() -> Seq<u64> {
    Seq::new(512, |i: int| 0u64)
}

/// An array of exactly 512 entries, sized to one physical frame. A table
/// stands at one of 4 levels of the hierarchy; entries `[256, 512)` of a root
/// table are the higher half, shared with every other address space.
#[derive(Debug, Clone)]
pub struct PageTable {
    pub entries: Vec<Entry>,
}

impl PageTable {
    /// The raw entry words of the table.
    pub open spec fn raw(&self) -> Seq<u64> {
        self.entries@.map_values(|e: Entry| e.0)
    }

    pub open spec fn wf(&self) -> bool {
        self.entries@.len() == 512
    }

    /// A freshly cleared table: all 512 entries absent.
    pub fn new() -> (r: Self)
        ensures
            r.wf(),
            r.raw() =~= zero_table(),
    {
        let mut entries: Vec<Entry> = Vec::new();
        let mut i: usize = 0;
        while i < ENTRY_COUNT
            invariant
                i == entries@.len(),
                i <= 512,
                forall|k: int| 0 <= k < i ==> entries@[k].0 == 0,
            decreases 512 - i,
        {
            entries.push(Entry(0));
            i = i + 1;
        }
        PageTable { entries }
    }

    /// Clears all 512 entries. A freshly allocated table frame holds arbitrary
    /// bytes and cannot be trusted until this has run.
    pub fn zeroize(&mut self)
        requires
            old(self).wf(),
        ensures
            final(self).wf(),
            final(self).raw() =~= zero_table(),
    {
        let mut i: usize = 0;
        while i < ENTRY_COUNT
            invariant
                self.wf(),
                i <= 512,
                forall|k: int| 0 <= k < i ==> self.entries@[k].0 == 0,
            decreases 512 - i,
        {
            self.entries[i] = Entry(0);
            i = i + 1;
        }
        proof {
            assert(self.raw() =~= zero_table());
        }
    }

    /// Copies entries `[256, 512)` verbatim from `source`, the currently
    /// active root table. The copied entries still reference the same child
    /// tables as the source, so the kernel region is aliased, not duplicated:
    /// later kernel mapping changes are seen by every address space made this
    /// way.
    pub fn copy_higher_half(&mut self, source: &PageTable)
        requires
            old(self).wf(),
            source.wf(),
        ensures
            final(self).wf(),
            forall|k: int| 0 <= k < 256 ==> final(self).raw()[k] == old(self).raw()[k],
            forall|k: int| 256 <= k < 512 ==> final(self).raw()[k] == source.raw()[k],
    {
        let mut i: usize = HIGHER_HALF_ENTRY;
        while i < ENTRY_COUNT
            invariant
                self.wf(),
                source.wf(),
                256 <= i <= 512,
                forall|k: int| 0 <= k < 256 ==> self.entries@[k] == old(self).entries@[k],
                forall|k: int| 256 <= k < i ==> self.entries@[k] == source.entries@[k],
            decreases 512 - i,
        {
            self.entries[i] = source.entries[i];
            i = i + 1;
        }
    }
}

/// Errors of the mapping path.
#[derive(Debug, Clone, Copy, PartialEq, Eq, Structural)]
pub enum MapToError {
    /// The frame supply could not produce a frame for a table or for the
    /// mapping itself.
    FrameAllocationFailed,
}

/// The byte offset of `va` inside its page.
pub open spec fn page_offset(va: u64) -> u64 {
    va & 0xfff
}

/// The root-table index of a virtual address: bits 39..48.
pub open spec fn l4_index(va: u64) -> int {
    ((va >> 39) & 0x1ff) as int
}

/// The level-3 table index of a virtual address: bits 30..39.
pub open spec fn l3_index(va: u64) -> int {
    ((va >> 30) & 0x1ff) as int
}

/// The level-2 table index of a virtual address: bits 21..30.
pub open spec fn l2_index(va: u64) -> int {
    ((va >> 21) & 0x1ff) as int
}

/// The level-1 (leaf) table index of a virtual address: bits 12..21.
pub open spec fn l1_index(va: u64) -> int {
    ((va >> 12) & 0x1ff) as int
}

/// Splits a virtual address into its page offset and its four table indices,
/// leaf level first: the standard 9-9-9-9-12 split of a 4-level, 4 KiB-page
/// scheme.
pub fn translate(address: VirtAddr) -> (r: (u64, usize, usize, usize, usize))
    ensures
        r.0 == page_offset(address),
        r.1 == l1_index(address),
        r.2 == l2_index(address),
        r.3 == l3_index(address),
        r.4 == l4_index(address),
        r.1 < 512 && r.2 < 512 && r.3 < 512 && r.4 < 512,
{
    proof {
        lemma_index_bounds(address);
    }
    (
        address & 0xfff,
        ((address >> 12) & 0x1ff) as usize,
        ((address >> 21) & 0x1ff) as usize,
        ((address >> 30) & 0x1ff) as usize,
        ((address >> 39) & 0x1ff) as usize,
    )
}

/// Each of the four indices of a virtual address is below 512.
pub proof fn lemma_index_bounds(va: u64)
    ensures
        0 <= l4_index(va) < 512,
        0 <= l3_index(va) < 512,
        0 <= l2_index(va) < 512,
        0 <= l1_index(va) < 512,
{
    assert((va >> 39) & 0x1ff < 512 && (va >> 30) & 0x1ff < 512 && (va >> 21) & 0x1ff < 512 && (va
        >> 12) & 0x1ff < 512) by (bit_vector);
}

/// All the page tables of one level of the hierarchy, indexed by the physical
/// address of the frame each one lives in. This is the model of the window
/// through which the kernel reaches physical memory: the tables a parent
/// entry's address bits denote are found here, not by dereferencing.
pub struct TableSet {
    pub slots: Vec<(PhysAddr, PageTable)>,
}

impl TableSet {
    pub open spec fn addr_at(&self, i: int) -> u64 {
        self.slots@[i].0
    }

    /// Whether a table lives at physical address `a`.
    pub open spec fn has_addr(&self, a: u64) -> bool {
        exists|i: int| 0 <= i < self.slots@.len() && #[trigger] self.addr_at(i) == a
    }

    pub open spec fn index_of(&self, a: u64) -> int {
        choose|i: int| 0 <= i < self.slots@.len() && #[trigger] self.addr_at(i) == a
    }

    /// The tables of this level, as a map from frame address to raw contents.
    pub open spec fn view(&self) -> Map<u64, Seq<u64>> {
        Map::new(|a: u64| self.has_addr(a), |a: u64| self.slots@[self.index_of(a)].1.raw())
    }

    /// Every table is full-sized, every address fits the entry address mask,
    /// and no two slots share an address.
    pub open spec fn wf(&self) -> bool {
        &&& forall|i: int|
            0 <= i < self.slots@.len() ==> (#[trigger] self.slots@[i]).1.wf() && frame_addr_wf(
                self.slots@[i].0,
            )
        &&& forall|i: int, j: int|
            0 <= i < j < self.slots@.len() ==> self.addr_at(i) != self.addr_at(j)
    }

    /// With distinct addresses, the slot of address `addr_at(i)` is `i`.
    pub proof fn lemma_index_of(&self, i: int)
        requires
            self.wf(),
            0 <= i < self.slots@.len(),
        ensures
            self.has_addr(self.addr_at(i)),
            self.index_of(self.addr_at(i)) == i,
            self@.contains_key(self.addr_at(i)),
            self@[self.addr_at(i)] == self.slots@[i].1.raw(),
    {
        assert(self.has_addr(self.addr_at(i)));
        let j = self.index_of(self.addr_at(i));
        if i != j {
            assert(self.addr_at(i) != self.addr_at(j));
        }
    }

    /// An empty level.
    pub fn new() -> (r: Self)
        ensures
            r.wf(),
            r@ =~= Map::<u64, Seq<u64>>::empty(),
    {
        let r = TableSet { slots: Vec::new() };
        proof {
            assert(forall|a: u64| !r.has_addr(a));
        }
        r
    }

    /// The slot index of the table at `a`, if any.
    fn find(&self, a: u64) -> (r: Option<usize>)
        requires
            self.wf(),
        ensures
            match r {
                Some(i) => i < self.slots@.len() && self.addr_at(i as int) == a && self.has_addr(a)
                    && self.index_of(a) == i,
                None => !self.has_addr(a),
            },
    {
        let mut i: usize = 0;
        while i < self.slots.len()
            invariant
                self.wf(),
                i <= self.slots@.len(),
                forall|k: int| 0 <= k < i ==> #[trigger] self.addr_at(k) != a,
            decreases self.slots@.len() - i,
        {
            if self.slots[i].0 == a {
                proof {
                    self.lemma_index_of(i as int);
                }
                return Some(i);
            }
            i = i + 1;
        }
        None
    }

    /// Whether a table lives at `a`.
    pub fn contains_addr(&self, a: u64) -> (r: bool)
        requires
            self.wf(),
        ensures
            r == self.has_addr(a),
    {
        self.find(a).is_some()
    }

    /// Reads entry `ei` of the table at `a`.
    pub fn get_entry(&self, a: u64, ei: usize) -> (r: Entry)
        requires
            self.wf(),
            self.has_addr(a),
            ei < 512,
        ensures
            r.0 == self@[a][ei as int],
    {
        let i = self.find(a).unwrap();
        self.slots[i].1.entries[ei]
    }

    /// Overwrites entry `ei` of the table at `a`.
    pub fn set_entry(&mut self, a: u64, ei: usize, e: Entry)
        requires
            old(self).wf(),
            old(self).has_addr(a),
            ei < 512,
        ensures
            final(self).wf(),
            final(self)@ =~= old(self)@.insert(a, old(self)@[a].update(ei as int, e.0)),
    {
        let i = self.find(a).unwrap();
        self.slots[i].1.entries[ei] = e;
        proof {
            let ghost iold = old(self).index_of(a);
            assert(self.slots@.len() == old(self).slots@.len());
            assert(forall|k: int|
                0 <= k < self.slots@.len() && k != iold ==> self.slots@[k] == old(self).slots@[k]);
            assert(forall|k: int|
                0 <= k < self.slots@.len() ==> #[trigger] self.addr_at(k) == old(self).addr_at(k));
            assert(self.addr_at(iold) == a);
            assert(self.slots@[iold].1.wf());
            assert(self.wf());
            assert(self.slots@[iold].1.raw() =~= old(self).slots@[iold].1.raw().update(
                ei as int,
                e.0,
            ));
            assert forall|b: u64| self.has_addr(b) == old(self).has_addr(b) by {
                if self.has_addr(b) {
                    let k = self.index_of(b);
                    assert(old(self).addr_at(k) == b);
                    assert(old(self).has_addr(b));
                }
                if old(self).has_addr(b) {
                    let k = old(self).index_of(b);
                    assert(self.addr_at(k) == b);
                    assert(self.has_addr(b));
                }
            }
            assert forall|b: u64| #[trigger]
                self.has_addr(b) && b != a implies self@[b] == old(self)@[b] by {
                let k = old(self).index_of(b);
                assert(old(self).addr_at(k) == b);
                assert(k != iold);
                self.lemma_index_of(k);
                old(self).lemma_index_of(k);
            }
            self.lemma_index_of(iold);
        }
    }

    /// Installs a table at a fresh address `a`.
    pub fn insert(&mut self, a: u64, table: PageTable)
        requires
            old(self).wf(),
            !old(self).has_addr(a),
            frame_addr_wf(a),
            table.wf(),
        ensures
            final(self).wf(),
            final(self)@ =~= old(self)@.insert(a, table.raw()),
    {
        let n = self.slots.len();
        self.slots.push((a, table));
        proof {
            assert(self.addr_at(n as int) == a);
            assert(forall|k: int| 0 <= k < n ==> self.slots@[k] == old(self).slots@[k]);
            assert(forall|k: int| 0 <= k < n ==> #[trigger] self.addr_at(k) == old(self).addr_at(k));
            assert forall|i: int, j: int|
                0 <= i < j < self.slots@.len() implies self.addr_at(i) != self.addr_at(j) by {
                if j == n {
                    assert(old(self).addr_at(i) == self.addr_at(i));
                    assert(old(self).has_addr(self.addr_at(i)));
                } else {
                    assert(old(self).addr_at(i) != old(self).addr_at(j));
                }
            }
            assert(self.wf());
            assert forall|b: u64| #[trigger] self.has_addr(b) && b != a implies old(self).has_addr(
                b,
            ) && self@[b] == old(self)@[b] by {
                let k = self.index_of(b);
                assert(self.addr_at(k) == b);
                assert(k != n);
                assert(old(self).addr_at(k) == b);
                old(self).lemma_index_of(k);
                self.lemma_index_of(k);
            }
            assert forall|b: u64| old(self).has_addr(b) implies self.has_addr(b) by {
                let k = old(self).index_of(b);
                assert(self.addr_at(k) == b);
            }
            self.lemma_index_of(n as int);
        }
    }

    /// Takes the table at `a` out of the level, if one lives there.
    pub fn remove(&mut self, a: u64) -> (r: Option<PageTable>)
        requires
            old(self).wf(),
        ensures
            final(self).wf(),
            match r {
                Some(t) => old(self)@.contains_key(a) && t.raw() == old(self)@[a] && t.wf()
                    && final(self)@ =~= old(self)@.remove(a),
                None => !old(self)@.contains_key(a) && *final(self) == *old(self),
            },
    {
        match self.find(a) {
            None => None,
            Some(i) => {
                proof {
                    old(self).lemma_index_of(i as int);
                }
                let (_, t) = self.slots.remove(i);
                proof {
                    let n = self.slots@.len();
                    assert(forall|k: int|
                        0 <= k < i ==> self.slots@[k] == old(self).slots@[k]);
                    assert(forall|k: int|
                        i <= k < n ==> self.slots@[k] == old(self).slots@[k + 1]);
                    assert forall|p: int, q: int|
                        0 <= p < q < n implies self.addr_at(p) != self.addr_at(q) by {
                        let po: int = if p < i { p } else { p + 1 };
                        let qo: int = if q < i { q } else { q + 1 };
                        assert(old(self).addr_at(po) != old(self).addr_at(qo));
                    }
                    assert(self.wf());
                    assert forall|b: u64| #[trigger] self.has_addr(b) implies b != a && old(self).has_addr(b) && self@[b] == old(self)@[b] by {
                        let k = self.index_of(b);
                        assert(self.addr_at(k) == b);
                        let ko: int = if k < i { k } else { k + 1 };
                        assert(old(self).addr_at(ko) == b);
                        assert(ko != i);
                        if b == a {
                            old(self).lemma_index_of(ko);
                            old(self).lemma_index_of(i as int);
                        }
                        old(self).lemma_index_of(ko);
                        self.lemma_index_of(k);
                    }
                    assert forall|b: u64| old(self).has_addr(b) && b != a implies self.has_addr(
                        b,
                    ) by {
                        let ko = old(self).index_of(b);
                        assert(old(self).addr_at(ko) == b);
                        assert(ko != i);
                        let k: int = if ko < i { ko } else { ko - 1 };
                        assert(self.addr_at(k) == b);
                    }
                    assert(final(self)@ =~= old(self)@.remove(a));
                }
                Some(t)
            },
        }
    }
}

/// The model of the physical-memory window under one root table: every child
/// table of the hierarchy, grouped by its level, each reachable by the
/// physical frame address packed into its parent's entry.
pub struct TableArena {
    pub l3: TableSet,
    pub l2: TableSet,
    pub l1: TableSet,
}

impl TableArena {
    pub open spec fn wf(&self) -> bool {
        &&& self.l3.wf()
        &&& self.l2.wf()
        &&& self.l1.wf()
    }

    /// An empty window: no child tables yet.
    pub fn new() -> (r: Self)
        ensures
            r.wf(),
            r.l3@ =~= Map::<u64, Seq<u64>>::empty(),
            r.l2@ =~= Map::<u64, Seq<u64>>::empty(),
            r.l1@ =~= Map::<u64, Seq<u64>>::empty(),
    {
        TableArena { l3: TableSet::new(), l2: TableSet::new(), l1: TableSet::new() }
    }
}

/// No frame of `sup` currently holds one of the tables of `m`.
pub open spec fn sup_disjoint(sup: Seq<u64>, m: Map<u64, Seq<u64>>) -> bool {
    forall|i: int| 0 <= i < sup.len() ==> !m.contains_key(#[trigger] sup[i])
}

/// Every table of `m` has the full 512 entries.
pub open spec fn tables_len(m: Map<u64, Seq<u64>>) -> bool {
    forall|a: u64| #[trigger] m.contains_key(a) ==> m[a].len() == 512
}

/// Every present entry of a table of `m` points to a table of `next`.
pub open spec fn points_into(m: Map<u64, Seq<u64>>, next: Map<u64, Seq<u64>>) -> bool {
    forall|a: u64, i: int|
        m.contains_key(a) && 0 <= i < 512 && entry_present(#[trigger] m[a][i])
            ==> next.contains_key(entry_addr(m[a][i]))
}

/// Every present entry of the root table points to a level-3 table.
pub open spec fn root_points_into(root: Seq<u64>, next: Map<u64, Seq<u64>>) -> bool {
    forall|i: int|
        0 <= i < 512 && entry_present(#[trigger] root[i]) ==> next.contains_key(
            entry_addr(root[i]),
        )
}

/// No frame holds a table of two different levels.
pub open spec fn levels_disjoint(
    l3: Map<u64, Seq<u64>>,
    l2: Map<u64, Seq<u64>>,
    l1: Map<u64, Seq<u64>>,
) -> bool {
    &&& forall|a: u64| #[trigger]
        l3.contains_key(a) ==> !l2.contains_key(a) && !l1.contains_key(a)
    &&& forall|a: u64| #[trigger] l2.contains_key(a) ==> !l1.contains_key(a)
}

/// The well-formedness of a whole address space, stated over the mathematical
/// views: full-sized tables, a clean frame supply that does not alias any live
/// table, levels that do not alias one another, and a hierarchy in which every
/// present intermediate entry leads to a table of the next level.
pub open spec fn view_inv(
    root: Seq<u64>,
    l3: Map<u64, Seq<u64>>,
    l2: Map<u64, Seq<u64>>,
    l1: Map<u64, Seq<u64>>,
    sup: Seq<u64>,
) -> bool {
    &&& root.len() == 512
    &&& tables_len(l3) && tables_len(l2) && tables_len(l1)
    &&& crate::frames::frames_wf(sup)
    &&& sup_disjoint(sup, l3) && sup_disjoint(sup, l2) && sup_disjoint(sup, l1)
    &&& levels_disjoint(l3, l2, l1)
    &&& root_points_into(root, l3)
    &&& points_into(l3, l2)
    &&& points_into(l2, l1)
}

/// The full invariant tying a root table, its window of child tables, and the
/// frame supply together.
pub open spec fn mem_inv(root: PageTable, arena: TableArena, supply: FrameSupply) -> bool {
    &&& root.wf()
    &&& arena.wf()
    &&& supply.wf()
    &&& view_inv(root.raw(), arena.l3@, arena.l2@, arena.l1@, supply@)
}

/// What one step of the mapping walk does to one entry, to the child level it
/// points into, and to the frame supply.
pub ghost struct StepOutcome {
    /// The entry word after the step.
    pub entry: u64,
    /// The physical address of the child table the walk continues in.
    pub child: u64,
    /// The child level after the step.
    pub tables: Map<u64, Seq<u64>>,
    /// The frame supply after the step.
    pub supply: Seq<u64>,
    /// Whether the step succeeded.
    pub ok: bool,
}

/// One step of the mapping walk over one entry. A present entry keeps its
/// address and existing flags and gains the requested ones; an absent entry
/// takes the next free frame, which is installed as a cleared child table.
/// The step fails only when the entry is absent and the supply is empty.
pub open spec fn spec_step(
    e: u64,
    tables: Map<u64, Seq<u64>>,
    supply: Seq<u64>,
    fbits: u64,
) -> StepOutcome {
    if entry_present(e) {
        StepOutcome { entry: merged_value(e, fbits), child: entry_addr(e), tables, supply, ok: true }
    } else if supply.len() == 0 {
        StepOutcome { entry: e, child: 0, tables, supply, ok: false }
    } else {
        let a = supply.last();
        StepOutcome {
            entry: entry_value(fbits, a),
            child: a,
            tables: tables.insert(a, zero_table()),
            supply: supply.drop_last(),
            ok: true,
        }
    }
}

/// The full state of one address space, as mathematical values.
pub ghost struct MapOutcome {
    pub root: Seq<u64>,
    pub l3: Map<u64, Seq<u64>>,
    pub l2: Map<u64, Seq<u64>>,
    pub l1: Map<u64, Seq<u64>>,
    pub supply: Seq<u64>,
    pub ok: bool,
}

/// What mapping `va` to the frame at `fa` with flags `fbits` does to an
/// address space: three walk steps from the root to the leaf table, then the
/// unconditional overwrite of the leaf entry. On failure the tables already
/// created are kept (a deliberate leak-on-failure: allocation failure here is
/// fatal to the kernel), and the walked entries keep what the successful steps
/// wrote.
pub open spec fn spec_map_to(
    root: Seq<u64>,
    l3: Map<u64, Seq<u64>>,
    l2: Map<u64, Seq<u64>>,
    l1: Map<u64, Seq<u64>>,
    supply: Seq<u64>,
    va: u64,
    fa: u64,
    fbits: u64,
) -> MapOutcome {
    let s4 = spec_step(root[l4_index(va)], l3, supply, fbits);
    let root1 = root.update(l4_index(va), s4.entry);
    if !s4.ok {
        MapOutcome { root: root1, l3: s4.tables, l2, l1, supply: s4.supply, ok: false }
    } else {
        let a3 = s4.child;
        let t3 = s4.tables[a3];
        let s3 = spec_step(t3[l3_index(va)], l2, s4.supply, fbits);
        let l3m = s4.tables.insert(a3, t3.update(l3_index(va), s3.entry));
        if !s3.ok {
            MapOutcome { root: root1, l3: l3m, l2: s3.tables, l1, supply: s3.supply, ok: false }
        } else {
            let a2 = s3.child;
            let t2 = s3.tables[a2];
            let s2 = spec_step(t2[l2_index(va)], l1, s3.supply, fbits);
            let l2m = s3.tables.insert(a2, t2.update(l2_index(va), s2.entry));
            if !s2.ok {
                MapOutcome { root: root1, l3: l3m, l2: l2m, l1: s2.tables, supply: s2.supply, ok: false }
            } else {
                let a1 = s2.child;
                let t1 = s2.tables[a1];
                let l1m = s2.tables.insert(a1, t1.update(l1_index(va), entry_value(fbits, fa)));
                MapOutcome { root: root1, l3: l3m, l2: l2m, l1: l1m, supply: s2.supply, ok: true }
            }
        }
    }
}

/// The leaf entry the hardware page-walker would reach for `va`: the walk
/// follows the address bits of present entries through the three levels below
/// the root and stops at the first absent entry or dangling table address.
pub open spec fn walk(
    root: Seq<u64>,
    l3: Map<u64, Seq<u64>>,
    l2: Map<u64, Seq<u64>>,
    l1: Map<u64, Seq<u64>>,
    va: u64,
) -> Option<u64> {
    let e4 = root[l4_index(va)];
    if !entry_present(e4) {
        None
    } else {
        let a3 = entry_addr(e4);
        if !l3.contains_key(a3) {
            None
        } else {
            let e3 = l3[a3][l3_index(va)];
            if !entry_present(e3) {
                None
            } else {
                let a2 = entry_addr(e3);
                if !l2.contains_key(a2) {
                    None
                } else {
                    let e2 = l2[a2][l2_index(va)];
                    if !entry_present(e2) {
                        None
                    } else {
                        let a1 = entry_addr(e2);
                        if !l1.contains_key(a1) {
                            None
                        } else {
                            Some(l1[a1][l1_index(va)])
                        }
                    }
                }
            }
        }
    }
}

/// A cleared entry is absent.
pub proof fn lemma_zero_entry_absent()
    ensures
        !entry_present(0),
{
    assert(!(0u64 & 1u64 == 1u64)) by (bit_vector);
}

/// Re-mapping a present entry keeps its address and its presence, adds the
/// requested flags, and keeps the old ones.
pub proof fn lemma_merged_entry(e: u64, fbits: u64)
    requires
        fbits & ALL_FLAG_BITS == fbits,
    ensures
        entry_addr(merged_value(e, fbits)) == entry_addr(e),
        entry_present(e) ==> entry_present(merged_value(e, fbits)),
        entry_flag_bits(merged_value(e, fbits)) == entry_flag_bits(e) | fbits,
        merged_value(e, fbits) & fbits == fbits,
{
    assert({
        let m = (e & 0x000f_ffff_ffff_f000u64) | (e & 0x8000_0000_0000_01ffu64) | fbits;
        &&& m & 0x000f_ffff_ffff_f000u64 == e & 0x000f_ffff_ffff_f000u64
        &&& (e & 1u64 == 1u64) ==> (m & 1u64 == 1u64)
        &&& m & 0x8000_0000_0000_01ffu64 == (e & 0x8000_0000_0000_01ffu64) | fbits
        &&& m & fbits == fbits
    }) by (bit_vector)
        requires
            fbits & 0x8000_0000_0000_01ffu64 == fbits,
    ;
}

impl Entry {
    /// One step of the mapping walk through this entry. If the entry is
    /// present, the requested flags are added to the existing ones and the
    /// already-resident child table is the result; if it is absent, a fresh
    /// frame is taken from the supply, installed in `child` as a cleared
    /// table, and the entry is set to it with exactly the requested flags.
    pub fn map(&mut self, flags: EntryFlags, child: &mut TableSet, supply: &mut FrameSupply) -> (r:
        Result<PhysAddr, MapToError>)
        requires
            old(child).wf(),
            old(supply).wf(),
            sup_disjoint(old(supply)@, old(child)@),
            entry_present(old(self).0) ==> old(child).has_addr(entry_addr(old(self).0)),
            flags.wf(),
        ensures
            final(child).wf(),
            final(supply).wf(),
            sup_disjoint(final(supply)@, final(child)@),
            ({
                let s = spec_step(old(self).0, old(child)@, old(supply)@, flags.bits);
                &&& final(self).0 == s.entry
                &&& final(child)@ == s.tables
                &&& final(supply)@ == s.supply
                &&& (r is Ok <==> s.ok)
                &&& (s.ok ==> r == Ok::<PhysAddr, MapToError>(s.child) && final(child)@.contains_key(
                    s.child,
                ) && frame_addr_wf(s.child))
                &&& (!s.ok ==> r == Err::<PhysAddr, MapToError>(MapToError::FrameAllocationFailed))
            }),
            forall|i: int| 0 <= i < final(supply)@.len() ==> final(supply)@[i] == old(supply)@[i],
    {
        let present = EntryFlags { bits: FLAG_PRESENT };
        proof {
            let e = self.0;
            assert(((e & 0x8000_0000_0000_01ffu64) & 1u64 == 1u64) == (e & 1u64 == 1u64))
                by (bit_vector);
        }
        if self.flags().contains(present) {
            let addr = self.0 & FRAME_ADDR_MASK;
            proof {
                let e = self.0;
                let fb = flags.bits;
                assert((e & 0x000f_ffff_ffff_f000u64) | (fb | (e & 0x8000_0000_0000_01ffu64)) == ((
                e & 0x000f_ffff_ffff_f000u64) | (e & 0x8000_0000_0000_01ffu64)) | fb)
                    by (bit_vector);
                assert((e & 0x000f_ffff_ffff_f000u64) & 0x000f_ffff_ffff_f000u64 == (e
                    & 0x000f_ffff_ffff_f000u64)) by (bit_vector);
            }
            let merged = flags.union(self.flags());
            self.set(merged, addr);
            Ok(addr)
        } else {
            match supply.allocate_frame() {
                None => Err(MapToError::FrameAllocationFailed),
                Some(frame) => {
                    let a = frame.start_address;
                    proof {
                        assert(old(supply)@.contains(a)) by {
                            assert(old(supply)@[old(supply)@.len() - 1] == a);
                        }
                        assert(!old(child)@.contains_key(a));
                    }
                    let table = PageTable::new();
                    self.set(flags, a);
                    child.insert(a, table);
                    proof {
                        assert(final(child)@ =~= old(child)@.insert(a, zero_table()));
                        assert forall|i: int|
                            0 <= i < supply@.len() implies !child@.contains_key(
                            #[trigger] supply@[i],
                        ) by {
                            assert(supply@[i] == old(supply)@[i]);
                            assert(old(supply)@[i] != a);
                            assert(!old(child)@.contains_key(supply@[i]));
                        }
                    }
                    Ok(a)
                },
            }
        }
    }
}

/// Everything one walk step keeps intact: the supply stays clean and disjoint
/// from every level (`oa` and `ob` are the two other levels), existing tables
/// keep their contents, and the stepped entry leads to a table of the child
/// level.
pub proof fn lemma_step_facts(
    e: u64,
    m: Map<u64, Seq<u64>>,
    oa: Map<u64, Seq<u64>>,
    ob: Map<u64, Seq<u64>>,
    s: Seq<u64>,
    fbits: u64,
)
    requires
        crate::frames::frames_wf(s),
        sup_disjoint(s, m),
        sup_disjoint(s, oa),
        sup_disjoint(s, ob),
        tables_len(m),
        fbits & ALL_FLAG_BITS == fbits,
        entry_present(e) ==> m.contains_key(entry_addr(e)),
    ensures
        ({
            let st = spec_step(e, m, s, fbits);
            &&& crate::frames::frames_wf(st.supply)
            &&& forall|i: int| 0 <= i < st.supply.len() ==> st.supply[i] == s[i]
            &&& sup_disjoint(st.supply, st.tables)
            &&& sup_disjoint(st.supply, oa)
            &&& sup_disjoint(st.supply, ob)
            &&& tables_len(st.tables)
            &&& forall|b: u64| #[trigger]
                m.contains_key(b) ==> st.tables.contains_key(b) && st.tables[b] == m[b]
            &&& forall|b: u64| #[trigger]
                st.tables.contains_key(b) ==> m.contains_key(b) || (st.ok && b == st.child)
            &&& (st.ok ==> st.tables.contains_key(st.child) && frame_addr_wf(st.child)
                && entry_addr(st.entry) == st.child)
            &&& (st.ok && entry_present(e) ==> st.tables == m && st.supply == s && st.child
                == entry_addr(e) && st.entry == merged_value(e, fbits))
            &&& (st.ok && !entry_present(e) ==> st.tables == m.insert(st.child, zero_table())
                && !m.contains_key(st.child) && !oa.contains_key(st.child) && !ob.contains_key(
                st.child,
            ) && st.entry == entry_value(fbits, st.child))
            &&& (!st.ok ==> st.tables == m && st.supply == s && st.entry == e && !entry_present(e)
                && s.len() == 0)
            &&& (entry_present(st.entry) ==> st.tables.contains_key(entry_addr(st.entry)))
            &&& (st.ok && fbits & FLAG_PRESENT == FLAG_PRESENT ==> entry_present(st.entry))
            &&& (st.ok ==> st.entry & fbits == fbits)
        }),
{
    let st = spec_step(e, m, s, fbits);
    if entry_present(e) {
        lemma_merged_entry(e, fbits);
        assert(fbits & 1u64 == 1u64 ==> merged_value(e, fbits) & 1u64 == 1u64) by {
            assert(entry_present(e) ==> entry_present(merged_value(e, fbits)));
        }
        assert((e & 0x000f_ffff_ffff_f000u64) & 0x000f_ffff_ffff_f000u64 == (e
            & 0x000f_ffff_ffff_f000u64)) by (bit_vector);
    } else if s.len() == 0 {
    } else {
        let a = s.last();
        assert(frame_addr_wf(a));
        lemma_entry_round_trip(fbits, a);
        assert((a | fbits) & fbits == fbits) by (bit_vector);
        assert(!m.contains_key(a)) by {
            assert(s[s.len() - 1] == a);
        }
        assert(!oa.contains_key(a) && !ob.contains_key(a)) by {
            assert(s[s.len() - 1] == a);
        }
        assert(zero_table().len() == 512);
        assert forall|i: int| 0 <= i < st.supply.len() implies st.supply[i] == s[i] by {}
        assert forall|i: int|
            0 <= i < st.supply.len() implies !st.tables.contains_key(#[trigger] st.supply[i]) by {
            assert(st.supply[i] == s[i]);
            assert(s[i] != a);
            assert(!m.contains_key(s[i]));
        }
    }
}

/// Mapping preserves the address-space invariant, whether or not it runs out
/// of frames part-way.
pub proof fn lemma_map_to_preserves_inv(
    root: Seq<u64>,
    l3: Map<u64, Seq<u64>>,
    l2: Map<u64, Seq<u64>>,
    l1: Map<u64, Seq<u64>>,
    sup: Seq<u64>,
    va: u64,
    fa: u64,
    fbits: u64,
)
    requires
        view_inv(root, l3, l2, l1, sup),
        fbits & ALL_FLAG_BITS == fbits,
        fa & FRAME_ADDR_MASK == fa,
    ensures
        ({
            let o = spec_map_to(root, l3, l2, l1, sup, va, fa, fbits);
            view_inv(o.root, o.l3, o.l2, o.l1, o.supply)
        }),
{
    lemma_index_bounds(va);
    let i4 = l4_index(va);
    let i3 = l3_index(va);
    let i2 = l2_index(va);
    let i1 = l1_index(va);
    let o = spec_map_to(root, l3, l2, l1, sup, va, fa, fbits);

    let s4 = spec_step(root[i4], l3, sup, fbits);
    let root1 = root.update(i4, s4.entry);
    lemma_step_facts(root[i4], l3, l2, l1, sup, fbits);
    assert(root_points_into(root1, s4.tables)) by {
        assert forall|i: int|
            0 <= i < 512 && entry_present(#[trigger] root1[i]) implies s4.tables.contains_key(
            entry_addr(root1[i]),
        ) by {
            if i != i4 {
                assert(root1[i] == root[i]);
            }
        }
    }
    assert(points_into(s4.tables, l2)) by {
        assert forall|a: u64, i: int|
            s4.tables.contains_key(a) && 0 <= i < 512 && entry_present(
                #[trigger] s4.tables[a][i],
            ) implies l2.contains_key(entry_addr(s4.tables[a][i])) by {
            if m_has(l3, a) {
                assert(s4.tables[a] == l3[a]);
            } else {
                assert(s4.tables[a] == zero_table());
                assert(zero_table()[i] == 0);
                lemma_zero_entry_absent();
            }
        }
    }
    if !s4.ok {
        assert(o.root == root1 && o.l3 == s4.tables && o.l2 == l2 && o.l1 == l1 && o.supply
            == s4.supply);
    } else {
        let a3 = s4.child;
        let t3 = s4.tables[a3];
        let s3 = spec_step(t3[i3], l2, s4.supply, fbits);
        let l3m = s4.tables.insert(a3, t3.update(i3, s3.entry));
        assert(entry_present(t3[i3]) ==> l2.contains_key(entry_addr(t3[i3]))) by {
            if m_has(l3, a3) {
                assert(t3 == l3[a3]);
            } else {
                assert(t3 == zero_table());
                assert(zero_table()[i3] == 0);
                lemma_zero_entry_absent();
            }
        }
        lemma_step_facts(t3[i3], l2, l1, s4.tables, s4.supply, fbits);
        assert(l3m.contains_key(a3));
        assert(tables_len(l3m)) by {
            assert(t3.update(i3, s3.entry).len() == t3.len());
            assert(forall|b: u64| #[trigger]
                l3m.contains_key(b) && b != a3 ==> l3m[b] == s4.tables[b]);
        }
        assert(sup_disjoint(s3.supply, l3m)) by {
            assert forall|i: int|
                0 <= i < s3.supply.len() implies !l3m.contains_key(#[trigger] s3.supply[i]) by {
                assert(s3.supply[i] == s4.supply[i]);
                assert(!s4.tables.contains_key(s4.supply[i]));
            }
        }
        assert(root_points_into(root1, l3m)) by {
            assert forall|i: int|
                0 <= i < 512 && entry_present(#[trigger] root1[i]) implies l3m.contains_key(
                entry_addr(root1[i]),
            ) by {
                assert(s4.tables.contains_key(entry_addr(root1[i])));
            }
        }
        assert(points_into(l3m, s3.tables)) by {
            assert forall|a: u64, i: int|
                l3m.contains_key(a) && 0 <= i < 512 && entry_present(
                    #[trigger] l3m[a][i],
                ) implies s3.tables.contains_key(entry_addr(l3m[a][i])) by {
                if a == a3 && i == i3 {
                    assert(l3m[a][i] == s3.entry);
                } else if a == a3 {
                    assert(l3m[a][i] == t3[i]);
                    assert(l2.contains_key(entry_addr(t3[i]))) by {
                        if m_has(l3, a3) {
                            assert(t3 == l3[a3]);
                        } else {
                            assert(t3 == zero_table());
                            assert(zero_table()[i] == 0);
                            lemma_zero_entry_absent();
                        }
                    }
                } else {
                    assert(l3m[a] == s4.tables[a]);
                    assert(l2.contains_key(entry_addr(s4.tables[a][i])));
                }
            }
        }
        if !s3.ok {
            assert(levels_disjoint(o.l3, o.l2, o.l1)) by {
                assert(forall|b: u64| #[trigger]
                    l3m.contains_key(b) ==> l3.contains_key(b) || b == a3);
            }
        } else {
            let a2 = s3.child;
            let t2 = s3.tables[a2];
            let s2 = spec_step(t2[i2], l1, s3.supply, fbits);
            let l2m = s3.tables.insert(a2, t2.update(i2, s2.entry));
            assert(entry_present(t2[i2]) ==> l1.contains_key(entry_addr(t2[i2]))) by {
                if m_has(l2, a2) {
                    assert(t2 == l2[a2]);
                } else {
                    assert(t2 == zero_table());
                    assert(zero_table()[i2] == 0);
                    lemma_zero_entry_absent();
                }
            }
            lemma_step_facts(t2[i2], l1, s3.tables, l3m, s3.supply, fbits);
            assert(tables_len(l2m)) by {
                assert(t2.update(i2, s2.entry).len() == t2.len());
                assert(forall|b: u64| #[trigger]
                    l2m.contains_key(b) && b != a2 ==> l2m[b] == s3.tables[b]);
            }
            assert(sup_disjoint(s2.supply, l2m)) by {
                assert forall|i: int|
                    0 <= i < s2.supply.len() implies !l2m.contains_key(#[trigger] s2.supply[i]) by {
                    assert(s2.supply[i] == s3.supply[i]);
                    assert(!s3.tables.contains_key(s3.supply[i]));
                }
            }
            assert(sup_disjoint(s2.supply, l3m)) by {
                assert forall|i: int|
                    0 <= i < s2.supply.len() implies !l3m.contains_key(#[trigger] s2.supply[i]) by {
                    assert(s2.supply[i] == s3.supply[i]);
                    assert(!l3m.contains_key(s3.supply[i]));
                }
            }
            assert(points_into(l3m, l2m)) by {
                assert forall|a: u64, i: int|
                    l3m.contains_key(a) && 0 <= i < 512 && entry_present(
                        #[trigger] l3m[a][i],
                    ) implies l2m.contains_key(entry_addr(l3m[a][i])) by {
                    assert(s3.tables.contains_key(entry_addr(l3m[a][i])));
                }
            }
            assert(points_into(l2m, s2.tables)) by {
                assert forall|a: u64, i: int|
                    l2m.contains_key(a) && 0 <= i < 512 && entry_present(
                        #[trigger] l2m[a][i],
                    ) implies s2.tables.contains_key(entry_addr(l2m[a][i])) by {
                    if a == a2 && i == i2 {
                        assert(l2m[a][i] == s2.entry);
                    } else if a == a2 {
                        assert(l2m[a][i] == t2[i]);
                        assert(l1.contains_key(entry_addr(t2[i]))) by {
                            if m_has(l2, a2) {
                                assert(t2 == l2[a2]);
                            } else {
                                assert(t2 == zero_table());
                                assert(zero_table()[i] == 0);
                                lemma_zero_entry_absent();
                            }
                        }
                    } else {
                        assert(l2m[a] == s3.tables[a]);
                        assert(l1.contains_key(entry_addr(s3.tables[a][i])));
                    }
                }
            }
            if !s2.ok {
                assert(levels_disjoint(o.l3, o.l2, o.l1)) by {
                    assert(forall|b: u64| #[trigger]
                        l3m.contains_key(b) ==> l3.contains_key(b) || b == a3);
                    assert(forall|b: u64| #[trigger]
                        l2m.contains_key(b) ==> l2.contains_key(b) || b == a2);
                }
            } else {
                let a1 = s2.child;
                let t1 = s2.tables[a1];
                let l1m = s2.tables.insert(a1, t1.update(i1, entry_value(fbits, fa)));
                assert(tables_len(l1m)) by {
                    assert(t1.update(i1, entry_value(fbits, fa)).len() == t1.len());
                    assert(forall|b: u64| #[trigger]
                        l1m.contains_key(b) && b != a1 ==> l1m[b] == s2.tables[b]);
                }
                assert(sup_disjoint(s2.supply, l1m)) by {
                    assert forall|i: int|
                        0 <= i < s2.supply.len() implies !l1m.contains_key(
                        #[trigger] s2.supply[i],
                    ) by {
                        assert(!s2.tables.contains_key(s2.supply[i]));
                    }
                }
                assert(points_into(l2m, l1m)) by {
                    assert forall|a: u64, i: int|
                        l2m.contains_key(a) && 0 <= i < 512 && entry_present(
                            #[trigger] l2m[a][i],
                        ) implies l1m.contains_key(entry_addr(l2m[a][i])) by {
                        assert(s2.tables.contains_key(entry_addr(l2m[a][i])));
                    }
                }
                assert(levels_disjoint(o.l3, o.l2, o.l1)) by {
                    assert(forall|b: u64| #[trigger]
                        l3m.contains_key(b) ==> l3.contains_key(b) || b == a3);
                    assert(forall|b: u64| #[trigger]
                        l2m.contains_key(b) ==> l2.contains_key(b) || b == a2);
                    assert(forall|b: u64| #[trigger]
                        l1m.contains_key(b) ==> l1.contains_key(b) || b == a1);
                }
            }
        }
    }
}

/// Short form of `contains_key`, to keep case splits readable.
pub open spec fn m_has(m: Map<u64, Seq<u64>>, a: u64) -> bool {
    m.contains_key(a)
}

/// A freshly built state — a cleared root table, an empty window, and any
/// clean frame supply — satisfies the address-space invariant, so mapping can
/// start from it.
pub proof fn lemma_fresh_state_inv(root: PageTable, arena: TableArena, supply: FrameSupply)
    requires
        root.wf(),
        root.raw() == zero_table(),
        arena.wf(),
        arena.l3@ == Map::<u64, Seq<u64>>::empty(),
        arena.l2@ == Map::<u64, Seq<u64>>::empty(),
        arena.l1@ == Map::<u64, Seq<u64>>::empty(),
        supply.wf(),
    ensures
        mem_inv(root, arena, supply),
{
    lemma_zero_entry_absent();
    assert(forall|i: int| 0 <= i < 512 ==> root.raw()[i] == 0);
}

impl PageTable {
    /// Maps the virtual `page` to the physical `frame` with `flags`, walking
    /// this root table down through the three lower levels and lazily
    /// allocating any table still missing on the way; intermediate tables get
    /// the same flags as the leaf request. The whole effect on the address
    /// space, including the partial effect when the supply runs dry part-way
    /// (already-created tables are kept), is exactly `spec_map_to`; in
    /// particular the leaf entry is overwritten unconditionally, so mapping an
    /// already-mapped page replaces its mapping without freeing the old frame.
    pub fn map_to(
        &mut self,
        page: Page,
        frame: Frame,
        flags: EntryFlags,
        arena: &mut TableArena,
        supply: &mut FrameSupply,
    ) -> (r: Result<(), MapToError>)
        requires
            mem_inv(*old(self), *old(arena), *old(supply)),
            flags.wf(),
            frame_addr_wf(frame.start_address),
        ensures
            mem_inv(*final(self), *final(arena), *final(supply)),
            ({
                let o = spec_map_to(
                    old(self).raw(),
                    old(arena).l3@,
                    old(arena).l2@,
                    old(arena).l1@,
                    old(supply)@,
                    page.start_address,
                    frame.start_address,
                    flags.bits,
                );
                &&& final(self).raw() == o.root
                &&& final(arena).l3@ == o.l3
                &&& final(arena).l2@ == o.l2
                &&& final(arena).l1@ == o.l1
                &&& final(supply)@ == o.supply
                &&& (r is Ok <==> o.ok)
                &&& (r is Err ==> r == Err::<(), MapToError>(MapToError::FrameAllocationFailed))
            }),
            final(supply)@.len() <= old(supply)@.len(),
            forall|i: int| 0 <= i < final(supply)@.len() ==> final(supply)@[i] == old(supply)@[i],
            final(supply)@.len() + 3 >= old(supply)@.len(),
            old(supply)@.len() >= 3 ==> r is Ok,
    {
        let ghost va = page.start_address;
        let ghost fb = flags.bits;
        let ghost fa = frame.start_address;
        let ghost root0 = old(self).raw();
        let ghost l30 = old(arena).l3@;
        let ghost l20 = old(arena).l2@;
        let ghost l10 = old(arena).l1@;
        let ghost sup0 = old(supply)@;
        let ghost o = spec_map_to(root0, l30, l20, l10, sup0, va, fa, fb);
        proof {
            lemma_map_to_preserves_inv(root0, l30, l20, l10, sup0, va, fa, fb);
            lemma_index_bounds(va);
        }
        let (_, i1, i2, i3, i4) = translate(page.start_address);

        let ghost s4 = spec_step(root0[l4_index(va)], l30, sup0, fb);
        proof {
            lemma_step_facts(root0[l4_index(va)], l30, l20, l10, sup0, fb);
        }
        let mut e4 = self.entries[i4];
        proof {
            assert(e4.0 == root0[l4_index(va)]);
        }
        let r4 = e4.map(flags, &mut arena.l3, supply);
        self.entries[i4] = e4;
        proof {
            assert(self.raw() =~= root0.update(l4_index(va), s4.entry));
        }
        let a3 = match r4 {
            Ok(a) => a,
            Err(err) => {
                return Err(err);
            },
        };

        let ghost t3 = s4.tables[a3];
        let ghost s3 = spec_step(t3[l3_index(va)], l20, s4.supply, fb);
        let mut e3 = arena.l3.get_entry(a3, i3);
        proof {
            assert(e3.0 == t3[l3_index(va)]);
            assert(entry_present(e3.0) ==> l20.contains_key(entry_addr(e3.0))) by {
                if m_has(l30, a3) {
                    assert(t3 == l30[a3]);
                } else {
                    assert(t3 == zero_table());
                    assert(zero_table()[l3_index(va)] == 0);
                    lemma_zero_entry_absent();
                }
            }
            lemma_step_facts(t3[l3_index(va)], l20, l10, s4.tables, s4.supply, fb);
        }
        let r3 = e3.map(flags, &mut arena.l2, supply);
        arena.l3.set_entry(a3, i3, e3);
        proof {
            assert(arena.l3@ =~= s4.tables.insert(a3, t3.update(l3_index(va), s3.entry)));
        }
        let a2 = match r3 {
            Ok(a) => a,
            Err(err) => {
                return Err(err);
            },
        };

        let ghost t2 = s3.tables[a2];
        let ghost s2 = spec_step(t2[l2_index(va)], l10, s3.supply, fb);
        let mut e2 = arena.l2.get_entry(a2, i2);
        proof {
            assert(e2.0 == t2[l2_index(va)]);
            assert(entry_present(e2.0) ==> l10.contains_key(entry_addr(e2.0))) by {
                if m_has(l20, a2) {
                    assert(t2 == l20[a2]);
                } else {
                    assert(t2 == zero_table());
                    assert(zero_table()[l2_index(va)] == 0);
                    lemma_zero_entry_absent();
                }
            }
            lemma_step_facts(t2[l2_index(va)], l10, s3.tables, arena.l3@, s3.supply, fb);
        }
        let r2 = e2.map(flags, &mut arena.l1, supply);
        arena.l2.set_entry(a2, i2, e2);
        proof {
            assert(arena.l2@ =~= s3.tables.insert(a2, t2.update(l2_index(va), s2.entry)));
        }
        let a1 = match r2 {
            Ok(a) => a,
            Err(err) => {
                return Err(err);
            },
        };

        let leaf = Entry::new(flags, frame.start_address);
        arena.l1.set_entry(a1, i1, leaf);
        proof {
            let t1 = s2.tables[a1];
            assert(arena.l1@ =~= s2.tables.insert(a1, t1.update(l1_index(va), entry_value(fb, fa))));
        }
        Ok(())
    }

    /// Maps a kernel-only page to `frame` with the PRESENT and WRITABLE flags.
    pub fn map_to_writeable(
        &mut self,
        page: Page,
        frame: Frame,
        arena: &mut TableArena,
        supply: &mut FrameSupply,
    ) -> (r: Result<(), MapToError>)
        requires
            mem_inv(*old(self), *old(arena), *old(supply)),
            frame_addr_wf(frame.start_address),
        ensures
            mem_inv(*final(self), *final(arena), *final(supply)),
            ({
                let o = spec_map_to(
                    old(self).raw(),
                    old(arena).l3@,
                    old(arena).l2@,
                    old(arena).l1@,
                    old(supply)@,
                    page.start_address,
                    frame.start_address,
                    FLAG_PRESENT | FLAG_WRITABLE,
                );
                &&& final(self).raw() == o.root
                &&& final(arena).l3@ == o.l3
                &&& final(arena).l2@ == o.l2
                &&& final(arena).l1@ == o.l1
                &&& final(supply)@ == o.supply
                &&& (r is Ok <==> o.ok)
            }),
            final(supply)@.len() <= old(supply)@.len(),
            forall|i: int| 0 <= i < final(supply)@.len() ==> final(supply)@[i] == old(supply)@[i],
            final(supply)@.len() + 3 >= old(supply)@.len(),
            old(supply)@.len() >= 3 ==> r is Ok,
    {
        let flags = EntryFlags::from_bits_truncate(FLAG_PRESENT | FLAG_WRITABLE);
        proof {
            assert((1u64 | 2u64) & 0x8000_0000_0000_01ffu64 == (1u64 | 2u64)) by (bit_vector);
        }
        self.map_to(page, frame, flags, arena, supply)
    }

    /// Walks from this root table to the leaf entry of `va`, following the
    /// address bits of present entries through the window, and returns the
    /// leaf entry, or `None` wherever the walk stops early.
    pub fn lookup(&self, va: VirtAddr, arena: &TableArena) -> (r: Option<Entry>)
        requires
            self.wf(),
            arena.wf(),
        ensures
            match r {
                Some(e) => walk(self.raw(), arena.l3@, arena.l2@, arena.l1@, va) == Some(e.0),
                None => walk(self.raw(), arena.l3@, arena.l2@, arena.l1@, va) is None,
            },
    {
        let (_, i1, i2, i3, i4) = translate(va);
        let present = EntryFlags { bits: FLAG_PRESENT };
        proof {
            lemma_present_check(self.entries@[i4 as int].0);
        }
        let e4 = self.entries[i4];
        if !e4.flags().contains(present) {
            return None;
        }
        let a3 = e4.0 & FRAME_ADDR_MASK;
        if !arena.l3.contains_addr(a3) {
            return None;
        }
        let e3 = arena.l3.get_entry(a3, i3);
        proof {
            lemma_present_check(e3.0);
        }
        if !e3.flags().contains(present) {
            return None;
        }
        let a2 = e3.0 & FRAME_ADDR_MASK;
        if !arena.l2.contains_addr(a2) {
            return None;
        }
        let e2 = arena.l2.get_entry(a2, i2);
        proof {
            lemma_present_check(e2.0);
        }
        if !e2.flags().contains(present) {
            return None;
        }
        let a1 = e2.0 & FRAME_ADDR_MASK;
        if !arena.l1.contains_addr(a1) {
            return None;
        }
        Some(arena.l1.get_entry(a1, i1))
    }
}

/// The PRESENT test through the truncated flag bits agrees with the raw word.
pub proof fn lemma_present_check(e: u64)
    ensures
        ((e & ALL_FLAG_BITS) & FLAG_PRESENT == FLAG_PRESENT) == entry_present(e),
{
    assert(((e & 0x8000_0000_0000_01ffu64) & 1u64 == 1u64) == (e & 1u64 == 1u64)) by (bit_vector);
}

/// Builds a fresh root table for a new address space: takes one frame from
/// the supply, clears the table, and copies the higher half from the
/// currently active root so the new space aliases the kernel's mappings. The
/// table and the physical address of its frame are returned.
pub fn allocate_pml4(current: &PageTable, supply: &mut FrameSupply) -> (r: Result<
    (PhysAddr, PageTable),
    MapToError,
>)
    requires
        current.wf(),
        old(supply).wf(),
    ensures
        final(supply).wf(),
        old(supply)@.len() == 0 ==> r is Err,
        old(supply)@.len() > 0 ==> {
            &&& r matches Ok(p)
            &&& p.0 == old(supply)@.last()
            &&& final(supply)@ == old(supply)@.drop_last()
            &&& p.1.wf()
            &&& forall|k: int| 0 <= k < 256 ==> p.1.raw()[k] == 0
            &&& forall|k: int| 256 <= k < 512 ==> p.1.raw()[k] == current.raw()[k]
            &&& frame_addr_wf(p.0)
        },
        r is Err ==> r == Err::<(PhysAddr, PageTable), MapToError>(
            MapToError::FrameAllocationFailed,
        ) && final(supply)@ == old(supply)@,
{
    let frame = match supply.allocate_frame() {
        Some(f) => f,
        None => {
            return Err(MapToError::FrameAllocationFailed);
        },
    };
    let mut table = PageTable::new();
    table.copy_higher_half(current);
    Ok((frame.start_address, table))
}

/// Some present entry of the private half `[0, 256)` of the table `t` holds
/// the address `a`.
pub open spec fn names_private_child(t: Seq<u64>, a: u64) -> bool {
    exists|k: int| 0 <= k < 256 && entry_present(#[trigger] t[k]) && entry_addr(t[k]) == a
}

/// `f` is accounted for by the given window: it is the frame of a table that
/// was registered at some level, or the address packed into a present entry of
/// such a table. Teardown can only return such frames to the supply.
pub open spec fn frame_from_tables(
    l3: Map<u64, Seq<u64>>,
    l2: Map<u64, Seq<u64>>,
    l1: Map<u64, Seq<u64>>,
    f: u64,
) -> bool {
    ||| l3.contains_key(f)
    ||| l2.contains_key(f)
    ||| l1.contains_key(f)
    ||| exists|a: u64, j: int|
        #![auto]
        l3.contains_key(a) && 0 <= j < 512 && entry_present(l3[a][j]) && entry_addr(l3[a][j]) == f
    ||| exists|a: u64, j: int|
        #![auto]
        l2.contains_key(a) && 0 <= j < 512 && entry_present(l2[a][j]) && entry_addr(l2[a][j]) == f
    ||| exists|a: u64, j: int|
        #![auto]
        l1.contains_key(a) && 0 <= j < 512 && entry_present(l1[a][j]) && entry_addr(l1[a][j]) == f
}

/// A frame accounted for by a window is accounted for by any larger window
/// that keeps the smaller one's tables and contents.
pub proof fn lemma_frame_from_tables_mono(
    l3a: Map<u64, Seq<u64>>,
    l2a: Map<u64, Seq<u64>>,
    l1a: Map<u64, Seq<u64>>,
    l3b: Map<u64, Seq<u64>>,
    l2b: Map<u64, Seq<u64>>,
    l1b: Map<u64, Seq<u64>>,
    f: u64,
)
    requires
        forall|a: u64| #[trigger] l3a.contains_key(a) ==> l3b.contains_key(a) && l3b[a] == l3a[a],
        forall|a: u64| #[trigger] l2a.contains_key(a) ==> l2b.contains_key(a) && l2b[a] == l2a[a],
        forall|a: u64| #[trigger] l1a.contains_key(a) ==> l1b.contains_key(a) && l1b[a] == l1a[a],
        frame_from_tables(l3a, l2a, l1a, f),
    ensures
        frame_from_tables(l3b, l2b, l1b, f),
{
}

impl Entry {
    /// Tears down what this present entry references. At level 0 the entry
    /// points directly at a data frame, which is returned to the supply; at a
    /// higher level it points at a child table, which leaves the window and is
    /// recursively freed, its own frame returned too. After the call, nothing
    /// the entry referenced is live any more: its frame is back in the supply,
    /// no table remains at its address, and the entry itself is dangling and
    /// must not be walked again.
    pub fn free(&self, level: u8, arena: &mut TableArena, supply: &mut FrameSupply)
        requires
            old(arena).wf(),
            old(supply).wf(),
            level <= 3,
            entry_present(self.0),
        ensures
            final(arena).wf(),
            final(supply).wf(),
            forall|a: u64| #[trigger]
                final(arena).l3@.contains_key(a) ==> old(arena).l3@.contains_key(a) && final(arena).l3@[a] == old(arena).l3@[a],
            forall|a: u64| #[trigger]
                final(arena).l2@.contains_key(a) ==> old(arena).l2@.contains_key(a) && final(arena).l2@[a] == old(arena).l2@[a],
            forall|a: u64| #[trigger]
                final(arena).l1@.contains_key(a) ==> old(arena).l1@.contains_key(a) && final(arena).l1@[a] == old(arena).l1@[a],
            forall|f: u64| old(supply).has_frame(f) ==> final(supply).has_frame(f),
            final(supply).has_frame(entry_addr(self.0)),
            level == 3 ==> !final(arena).l3@.contains_key(entry_addr(self.0)) && forall|a: u64| #[trigger]
                old(arena).l3@.contains_key(a) && a != entry_addr(self.0) ==> final(arena).l3@.contains_key(a),
            level == 2 ==> !final(arena).l2@.contains_key(entry_addr(self.0)) && forall|a: u64| #[trigger]
                old(arena).l2@.contains_key(a) && a != entry_addr(self.0) ==> final(arena).l2@.contains_key(a),
            level == 1 ==> !final(arena).l1@.contains_key(entry_addr(self.0)) && forall|a: u64| #[trigger]
                old(arena).l1@.contains_key(a) && a != entry_addr(self.0) ==> final(arena).l1@.contains_key(a),
            level <= 2 ==> final(arena).l3@ == old(arena).l3@,
            level <= 1 ==> final(arena).l2@ == old(arena).l2@,
            level == 0 ==> final(arena).l1@ == old(arena).l1@,
            forall|f: u64|
                final(supply).has_frame(f) && !old(supply).has_frame(f) ==> f == entry_addr(
                    self.0,
                ) || frame_from_tables(old(arena).l3@, old(arena).l2@, old(arena).l1@, f),
        decreases level, 1int,
    {
        let frame_addr = self.0 & FRAME_ADDR_MASK;
        proof {
            let e = self.0;
            assert((e & 0x000f_ffff_ffff_f000u64) & 0x000f_ffff_ffff_f000u64 == (e
                & 0x000f_ffff_ffff_f000u64)) by (bit_vector);
        }
        if level == 0 {
            supply.deallocate_frame(Frame { start_address: frame_addr });
        } else {
            let taken = if level == 3 {
                arena.l3.remove(frame_addr)
            } else if level == 2 {
                arena.l2.remove(frame_addr)
            } else {
                arena.l1.remove(frame_addr)
            };
            match taken {
                Some(table) => table.free(frame_addr, level, arena, supply),
                // No table is registered at this address: the window has
                // nothing to tear down, but the entry's frame still goes back.
                None => supply.deallocate_frame(Frame { start_address: frame_addr }),
            }
        }
    }
}

impl PageTable {
    /// Tears down this table: recursively frees everything below its present
    /// entries in the private half `[0, 256)` — the shared higher half is
    /// never recursed into, or the kernel mappings every address space aliases
    /// would be destroyed — then returns the table's own frame, at `own_addr`,
    /// to the supply. Every present private entry's frame ends up back in the
    /// supply, and no child table remains at such an entry's address. The
    /// table is consumed: it and everything beneath it are invalid afterwards.
    pub fn free(self, own_addr: PhysAddr, level: u8, arena: &mut TableArena, supply: &mut FrameSupply)
        requires
            old(arena).wf(),
            old(supply).wf(),
            self.wf(),
            frame_addr_wf(own_addr),
            1 <= level <= 4,
        ensures
            final(arena).wf(),
            final(supply).wf(),
            forall|a: u64| #[trigger]
                final(arena).l3@.contains_key(a) ==> old(arena).l3@.contains_key(a)
                    && final(arena).l3@[a] == old(arena).l3@[a],
            forall|a: u64| #[trigger]
                final(arena).l2@.contains_key(a) ==> old(arena).l2@.contains_key(a)
                    && final(arena).l2@[a] == old(arena).l2@[a],
            forall|a: u64| #[trigger]
                final(arena).l1@.contains_key(a) ==> old(arena).l1@.contains_key(a)
                    && final(arena).l1@[a] == old(arena).l1@[a],
            forall|f: u64| old(supply).has_frame(f) ==> final(supply).has_frame(f),
            final(supply).has_frame(own_addr),
            forall|k: int|
                0 <= k < 256 && #[trigger] entry_present(self.raw()[k])
                    ==> final(supply).has_frame(entry_addr(self.raw()[k])),
            level == 4 ==> forall|k: int|
                0 <= k < 256 && #[trigger] entry_present(self.raw()[k])
                    ==> !final(arena).l3@.contains_key(entry_addr(self.raw()[k])),
            level == 3 ==> forall|k: int|
                0 <= k < 256 && #[trigger] entry_present(self.raw()[k])
                    ==> !final(arena).l2@.contains_key(entry_addr(self.raw()[k])),
            level == 2 ==> forall|k: int|
                0 <= k < 256 && #[trigger] entry_present(self.raw()[k])
                    ==> !final(arena).l1@.contains_key(entry_addr(self.raw()[k])),
            level == 4 ==> forall|a: u64| #[trigger]
                old(arena).l3@.contains_key(a) && !names_private_child(self.raw(), a)
                    ==> final(arena).l3@.contains_key(a),
            level == 3 ==> forall|a: u64| #[trigger]
                old(arena).l2@.contains_key(a) && !names_private_child(self.raw(), a)
                    ==> final(arena).l2@.contains_key(a),
            level == 2 ==> forall|a: u64| #[trigger]
                old(arena).l1@.contains_key(a) && !names_private_child(self.raw(), a)
                    ==> final(arena).l1@.contains_key(a),
            level <= 3 ==> final(arena).l3@ == old(arena).l3@,
            level <= 2 ==> final(arena).l2@ == old(arena).l2@,
            level <= 1 ==> final(arena).l1@ == old(arena).l1@,
            // The shared higher half is spared: a table referenced by a
            // higher-half entry stays in the window, untouched, as long as no
            // private entry aliases it (spec'd ownership: a private subtree
            // never shares a table with the higher half).
            level == 4 ==> forall|k: int|
                256 <= k < 512 && #[trigger] entry_present(self.raw()[k]) && old(
                    arena,
                ).l3@.contains_key(entry_addr(self.raw()[k])) && !names_private_child(
                    self.raw(),
                    entry_addr(self.raw()[k]),
                ) ==> final(arena).l3@.contains_key(entry_addr(self.raw()[k]))
                    && final(arena).l3@[entry_addr(self.raw()[k])] == old(arena).l3@[entry_addr(
                    self.raw()[k],
                )],
            forall|f: u64|
                final(supply).has_frame(f) && !old(supply).has_frame(f) ==> f == own_addr
                    || names_private_child(self.raw(), f) || frame_from_tables(
                    old(arena).l3@,
                    old(arena).l2@,
                    old(arena).l1@,
                    f,
                ),
        decreases level, 0int,
    {
        let mut i: usize = 0;
        while i < HIGHER_HALF_ENTRY
            invariant
                arena.wf(),
                supply.wf(),
                self.wf(),
                i <= 256,
                1 <= level <= 4,
                forall|a: u64| #[trigger]
                    arena.l3@.contains_key(a) ==> old(arena).l3@.contains_key(a) && arena.l3@[a]
                        == old(arena).l3@[a],
                forall|a: u64| #[trigger]
                    arena.l2@.contains_key(a) ==> old(arena).l2@.contains_key(a) && arena.l2@[a]
                        == old(arena).l2@[a],
                forall|a: u64| #[trigger]
                    arena.l1@.contains_key(a) ==> old(arena).l1@.contains_key(a) && arena.l1@[a]
                        == old(arena).l1@[a],
                forall|f: u64| old(supply).has_frame(f) ==> supply.has_frame(f),
                forall|k: int|
                    0 <= k < i && #[trigger] entry_present(self.raw()[k]) ==> supply.has_frame(
                        entry_addr(self.raw()[k]),
                    ),
                level == 4 ==> forall|k: int|
                    0 <= k < i && #[trigger] entry_present(self.raw()[k])
                        ==> !arena.l3@.contains_key(entry_addr(self.raw()[k])),
                level == 3 ==> forall|k: int|
                    0 <= k < i && #[trigger] entry_present(self.raw()[k])
                        ==> !arena.l2@.contains_key(entry_addr(self.raw()[k])),
                level == 2 ==> forall|k: int|
                    0 <= k < i && #[trigger] entry_present(self.raw()[k])
                        ==> !arena.l1@.contains_key(entry_addr(self.raw()[k])),
                level == 4 ==> forall|a: u64| #[trigger]
                    old(arena).l3@.contains_key(a) && !names_private_child(self.raw(), a)
                        ==> arena.l3@.contains_key(a),
                level == 3 ==> forall|a: u64| #[trigger]
                    old(arena).l2@.contains_key(a) && !names_private_child(self.raw(), a)
                        ==> arena.l2@.contains_key(a),
                level == 2 ==> forall|a: u64| #[trigger]
                    old(arena).l1@.contains_key(a) && !names_private_child(self.raw(), a)
                        ==> arena.l1@.contains_key(a),
                level <= 3 ==> arena.l3@ == old(arena).l3@,
                level <= 2 ==> arena.l2@ == old(arena).l2@,
                level <= 1 ==> arena.l1@ == old(arena).l1@,
                forall|f: u64|
                    supply.has_frame(f) && !old(supply).has_frame(f) ==> names_private_child(
                        self.raw(),
                        f,
                    ) || frame_from_tables(old(arena).l3@, old(arena).l2@, old(arena).l1@, f),
            decreases 256 - i,
        {
            let entry = self.entries[i];
            let present = EntryFlags { bits: FLAG_PRESENT };
            proof {
                lemma_present_check(entry.0);
                lemma_zero_entry_absent();
                assert(entry.0 == self.raw()[i as int]);
            }
            if entry.0 != 0 && entry.flags().contains(present) {
                let ghost l3b = arena.l3@;
                let ghost l2b = arena.l2@;
                let ghost l1b = arena.l1@;
                let ghost supb = *supply;
                entry.free(level - 1, arena, supply);
                proof {
                    assert(names_private_child(self.raw(), entry_addr(entry.0))) by {
                        assert(entry_present(self.raw()[i as int]) && entry_addr(
                            self.raw()[i as int],
                        ) == entry_addr(entry.0));
                    }
                    assert forall|f: u64|
                        supply.has_frame(f) && !old(supply).has_frame(f) implies
                        names_private_child(self.raw(), f) || frame_from_tables(
                        old(arena).l3@,
                        old(arena).l2@,
                        old(arena).l1@,
                        f,
                    ) by {
                        if !supb.has_frame(f) {
                            if f != entry_addr(entry.0) {
                                assert(frame_from_tables(l3b, l2b, l1b, f));
                                lemma_frame_from_tables_mono(
                                    l3b,
                                    l2b,
                                    l1b,
                                    old(arena).l3@,
                                    old(arena).l2@,
                                    old(arena).l1@,
                                    f,
                                );
                            }
                        }
                    }
                }
            }
            i = i + 1;
        }
        supply.deallocate_frame(Frame { start_address: own_addr });
    }
}

/// After a successful `map_to` of `va` to the frame at `fa` with PRESENT
/// among the requested flags, the hardware walk for `va` reaches a leaf entry
/// that encodes exactly `(fbits, fa)`: it is present, its address bits are
/// `fa`, and it carries all the requested flags.
pub proof fn lemma_map_to_then_walk(
    root: Seq<u64>,
    l3: Map<u64, Seq<u64>>,
    l2: Map<u64, Seq<u64>>,
    l1: Map<u64, Seq<u64>>,
    sup: Seq<u64>,
    va: u64,
    fa: u64,
    fbits: u64,
)
    requires
        view_inv(root, l3, l2, l1, sup),
        fbits & ALL_FLAG_BITS == fbits,
        fbits & FLAG_PRESENT == FLAG_PRESENT,
        fa & FRAME_ADDR_MASK == fa,
    ensures
        ({
            let o = spec_map_to(root, l3, l2, l1, sup, va, fa, fbits);
            o.ok ==> {
                &&& walk(o.root, o.l3, o.l2, o.l1, va) == Some(entry_value(fbits, fa))
                &&& entry_present(entry_value(fbits, fa))
                &&& entry_addr(entry_value(fbits, fa)) == fa
                &&& entry_flag_bits(entry_value(fbits, fa)) == fbits
            }
        }),
{
    lemma_index_bounds(va);
    lemma_entry_round_trip(fbits, fa);
    let o = spec_map_to(root, l3, l2, l1, sup, va, fa, fbits);
    if o.ok {
        let i4 = l4_index(va);
        let i3 = l3_index(va);
        let i2 = l2_index(va);
        let i1 = l1_index(va);
        let s4 = spec_step(root[i4], l3, sup, fbits);
        lemma_step_facts(root[i4], l3, l2, l1, sup, fbits);
        let a3 = s4.child;
        let t3 = s4.tables[a3];
        assert(entry_present(t3[i3]) ==> l2.contains_key(entry_addr(t3[i3]))) by {
            if m_has(l3, a3) {
                assert(t3 == l3[a3]);
            } else {
                assert(t3 == zero_table());
                assert(zero_table()[i3] == 0);
                lemma_zero_entry_absent();
            }
        }
        let s3 = spec_step(t3[i3], l2, s4.supply, fbits);
        lemma_step_facts(t3[i3], l2, l1, s4.tables, s4.supply, fbits);
        let a2 = s3.child;
        let t2 = s3.tables[a2];
        assert(entry_present(t2[i2]) ==> l1.contains_key(entry_addr(t2[i2]))) by {
            if m_has(l2, a2) {
                assert(t2 == l2[a2]);
            } else {
                assert(t2 == zero_table());
                assert(zero_table()[i2] == 0);
                lemma_zero_entry_absent();
            }
        }
        let s2 = spec_step(t2[i2], l1, s3.supply, fbits);
        lemma_step_facts(t2[i2], l1, s3.tables, s4.tables, s3.supply, fbits);
        let a1 = s2.child;

        assert(o.root[i4] == s4.entry);
        assert(entry_present(s4.entry) && entry_addr(s4.entry) == a3);
        assert(o.l3.contains_key(a3));
        assert(o.l3[a3][i3] == s3.entry);
        assert(entry_present(s3.entry) && entry_addr(s3.entry) == a2);
        assert(o.l2.contains_key(a2));
        assert(o.l2[a2][i2] == s2.entry);
        assert(entry_present(s2.entry) && entry_addr(s2.entry) == a1);
        assert(o.l1.contains_key(a1));
        assert(o.l1[a1][i1] == entry_value(fbits, fa));
    }
}

/// The hardware walk for `va` reaches a present leaf entry that carries the
/// WRITABLE flag.
pub open spec fn walk_writable(
    root: Seq<u64>,
    l3: Map<u64, Seq<u64>>,
    l2: Map<u64, Seq<u64>>,
    l1: Map<u64, Seq<u64>>,
    va: u64,
) -> bool {
    &&& walk(root, l3, l2, l1, va) is Some
    &&& entry_present(walk(root, l3, l2, l1, va)->Some_0)
    &&& walk(root, l3, l2, l1, va)->Some_0 & FLAG_WRITABLE == FLAG_WRITABLE
}

/// The physical frame address the hardware walk for `va` ends at.
pub open spec fn leaf_frame(
    root: Seq<u64>,
    l3: Map<u64, Seq<u64>>,
    l2: Map<u64, Seq<u64>>,
    l1: Map<u64, Seq<u64>>,
    va: u64,
) -> u64 {
    entry_addr(walk(root, l3, l2, l1, va)->Some_0)
}

/// Mapping one page leaves the walk of every other page with a different leaf
/// index exactly as it was: intermediate entries only gain flags, fresh tables
/// take fresh frames, and the one leaf overwrite lands in a slot the other
/// page does not read. This holds whether or not the mapping ran out of
/// frames part-way.
pub proof fn lemma_map_to_preserves_walk(
    root: Seq<u64>,
    l3: Map<u64, Seq<u64>>,
    l2: Map<u64, Seq<u64>>,
    l1: Map<u64, Seq<u64>>,
    sup: Seq<u64>,
    va: u64,
    fa: u64,
    fbits: u64,
    q: u64,
)
    requires
        view_inv(root, l3, l2, l1, sup),
        fbits & ALL_FLAG_BITS == fbits,
        fa & FRAME_ADDR_MASK == fa,
        l1_index(q) != l1_index(va),
        walk(root, l3, l2, l1, q) is Some,
    ensures
        ({
            let o = spec_map_to(root, l3, l2, l1, sup, va, fa, fbits);
            walk(o.root, o.l3, o.l2, o.l1, q) == walk(root, l3, l2, l1, q)
        }),
{
    lemma_index_bounds(va);
    lemma_index_bounds(q);
    let i4 = l4_index(va);
    let i3 = l3_index(va);
    let i2 = l2_index(va);
    let i1 = l1_index(va);
    let j4 = l4_index(q);
    let j3 = l3_index(q);
    let j2 = l2_index(q);
    let j1 = l1_index(q);
    let o = spec_map_to(root, l3, l2, l1, sup, va, fa, fbits);

    // The walked path of `q` before the map.
    let e4q = root[j4];
    let a3q = entry_addr(e4q);
    let e3q = l3[a3q][j3];
    let a2q = entry_addr(e3q);
    let e2q = l2[a2q][j2];
    let a1q = entry_addr(e2q);

    let s4 = spec_step(root[i4], l3, sup, fbits);
    lemma_step_facts(root[i4], l3, l2, l1, sup, fbits);
    lemma_merged_entry(e4q, fbits);
    assert(entry_present(o.root[j4]) && entry_addr(o.root[j4]) == a3q);
    if s4.ok {
        let a3 = s4.child;
        let t3 = s4.tables[a3];
        assert(entry_present(t3[i3]) ==> l2.contains_key(entry_addr(t3[i3]))) by {
            if m_has(l3, a3) {
                assert(t3 == l3[a3]);
            } else {
                assert(t3 == zero_table());
                assert(zero_table()[i3] == 0);
                lemma_zero_entry_absent();
            }
        }
        let s3 = spec_step(t3[i3], l2, s4.supply, fbits);
        lemma_step_facts(t3[i3], l2, l1, s4.tables, s4.supply, fbits);
        let l3m = s4.tables.insert(a3, t3.update(i3, s3.entry));
        lemma_merged_entry(e3q, fbits);
        assert(l3m.contains_key(a3q) && entry_present(l3m[a3q][j3]) && entry_addr(l3m[a3q][j3])
            == a2q) by {
            if a3q == a3 {
                assert(m_has(l3, a3q));
                assert(t3 == l3[a3q]);
                if j3 == i3 {
                    assert(l3m[a3q][j3] == s3.entry);
                    assert(s3.entry == merged_value(e3q, fbits));
                } else {
                    assert(l3m[a3q][j3] == t3[j3]);
                }
            } else {
                assert(l3m[a3q] == s4.tables[a3q]);
                assert(s4.tables[a3q] == l3[a3q]);
            }
        }
        if s3.ok {
            let a2 = s3.child;
            let t2 = s3.tables[a2];
            assert(entry_present(t2[i2]) ==> l1.contains_key(entry_addr(t2[i2]))) by {
                if m_has(l2, a2) {
                    assert(t2 == l2[a2]);
                } else {
                    assert(t2 == zero_table());
                    assert(zero_table()[i2] == 0);
                    lemma_zero_entry_absent();
                }
            }
            let s2 = spec_step(t2[i2], l1, s3.supply, fbits);
            lemma_step_facts(t2[i2], l1, s3.tables, s4.tables, s3.supply, fbits);
            let l2m = s3.tables.insert(a2, t2.update(i2, s2.entry));
            lemma_merged_entry(e2q, fbits);
            assert(l2m.contains_key(a2q) && entry_present(l2m[a2q][j2]) && entry_addr(
                l2m[a2q][j2],
            ) == a1q) by {
                if a2q == a2 {
                    assert(m_has(l2, a2q));
                    assert(t2 == l2[a2q]);
                    if j2 == i2 {
                        assert(l2m[a2q][j2] == s2.entry);
                        assert(s2.entry == merged_value(e2q, fbits));
                    } else {
                        assert(l2m[a2q][j2] == t2[j2]);
                    }
                } else {
                    assert(l2m[a2q] == s3.tables[a2q]);
                    assert(s3.tables[a2q] == l2[a2q]);
                }
            }
            if s2.ok {
                let a1 = s2.child;
                let t1 = s2.tables[a1];
                let l1m = s2.tables.insert(a1, t1.update(i1, entry_value(fbits, fa)));
                assert(l1m.contains_key(a1q) && l1m[a1q][j1] == l1[a1q][j1]) by {
                    if a1q == a1 {
                        assert(m_has(l1, a1q));
                        assert(t1 == l1[a1q]);
                        assert(l1m[a1q][j1] == t1[j1]);
                    } else {
                        assert(l1m[a1q] == s2.tables[a1q]);
                        assert(s2.tables[a1q] == l1[a1q]);
                    }
                }
            }
        }
    }
}

/// Mapping a second page that goes through the same intermediate tables as an
/// already-mapped page reuses those tables and corrupts neither mapping: after
/// both maps succeed, the walks of both pages reach exactly the leaf entries
/// the two maps wrote. The two pages are distinct, so with equal root and
/// intermediate indices their leaf indices differ.
pub proof fn lemma_shared_intermediates_keep_both(
    root: Seq<u64>,
    l3: Map<u64, Seq<u64>>,
    l2: Map<u64, Seq<u64>>,
    l1: Map<u64, Seq<u64>>,
    sup: Seq<u64>,
    va1: u64,
    fa1: u64,
    fb1: u64,
    va2: u64,
    fa2: u64,
    fb2: u64,
)
    requires
        view_inv(root, l3, l2, l1, sup),
        fb1 & ALL_FLAG_BITS == fb1,
        fb1 & FLAG_PRESENT == FLAG_PRESENT,
        fa1 & FRAME_ADDR_MASK == fa1,
        fb2 & ALL_FLAG_BITS == fb2,
        fb2 & FLAG_PRESENT == FLAG_PRESENT,
        fa2 & FRAME_ADDR_MASK == fa2,
        l4_index(va1) == l4_index(va2),
        l3_index(va1) == l3_index(va2),
        l2_index(va1) == l2_index(va2),
        l1_index(va1) != l1_index(va2),
        spec_map_to(root, l3, l2, l1, sup, va1, fa1, fb1).ok,
    ensures
        ({
            let o1 = spec_map_to(root, l3, l2, l1, sup, va1, fa1, fb1);
            let o2 = spec_map_to(o1.root, o1.l3, o1.l2, o1.l1, o1.supply, va2, fa2, fb2);
            &&& o2.ok
            &&& walk(o2.root, o2.l3, o2.l2, o2.l1, va1) == Some(entry_value(fb1, fa1))
            &&& walk(o2.root, o2.l3, o2.l2, o2.l1, va2) == Some(entry_value(fb2, fa2))
        }),
{
    lemma_index_bounds(va1);
    lemma_index_bounds(va2);
    let i4 = l4_index(va1);
    let i3 = l3_index(va1);
    let i2 = l2_index(va1);
    let j1 = l1_index(va1);
    let k1 = l1_index(va2);
    let o1 = spec_map_to(root, l3, l2, l1, sup, va1, fa1, fb1);
    let o2 = spec_map_to(o1.root, o1.l3, o1.l2, o1.l1, o1.supply, va2, fa2, fb2);
    lemma_map_to_preserves_inv(root, l3, l2, l1, sup, va1, fa1, fb1);
    lemma_map_to_then_walk(root, l3, l2, l1, sup, va1, fa1, fb1);
    lemma_map_to_then_walk(o1.root, o1.l3, o1.l2, o1.l1, o1.supply, va2, fa2, fb2);

    // The path of the first map.
    let s4 = spec_step(root[i4], l3, sup, fb1);
    lemma_step_facts(root[i4], l3, l2, l1, sup, fb1);
    let a3 = s4.child;
    let t3 = s4.tables[a3];
    assert(entry_present(t3[i3]) ==> l2.contains_key(entry_addr(t3[i3]))) by {
        if m_has(l3, a3) {
            assert(t3 == l3[a3]);
        } else {
            assert(t3 == zero_table());
            assert(zero_table()[i3] == 0);
            lemma_zero_entry_absent();
        }
    }
    let s3 = spec_step(t3[i3], l2, s4.supply, fb1);
    lemma_step_facts(t3[i3], l2, l1, s4.tables, s4.supply, fb1);
    let a2 = s3.child;
    let t2 = s3.tables[a2];
    assert(entry_present(t2[i2]) ==> l1.contains_key(entry_addr(t2[i2]))) by {
        if m_has(l2, a2) {
            assert(t2 == l2[a2]);
        } else {
            assert(t2 == zero_table());
            assert(zero_table()[i2] == 0);
            lemma_zero_entry_absent();
        }
    }
    let s2 = spec_step(t2[i2], l1, s3.supply, fb1);
    lemma_step_facts(t2[i2], l1, s3.tables, s4.tables, s3.supply, fb1);
    let a1 = s2.child;
    assert(o1.root[i4] == s4.entry && entry_present(s4.entry) && entry_addr(s4.entry) == a3);
    assert(o1.l3[a3][i3] == s3.entry && entry_present(s3.entry) && entry_addr(s3.entry) == a2);
    assert(o1.l2[a2][i2] == s2.entry && entry_present(s2.entry) && entry_addr(s2.entry) == a1);
    assert(o1.l1.contains_key(a1) && o1.l1[a1][j1] == entry_value(fb1, fa1));

    // The second map walks the same indices, finds every entry present, and
    // reuses the same three tables.
    let r4 = spec_step(o1.root[i4], o1.l3, o1.supply, fb2);
    lemma_step_facts(o1.root[i4], o1.l3, o1.l2, o1.l1, o1.supply, fb2);
    assert(r4.ok && r4.child == a3 && r4.tables == o1.l3 && r4.supply == o1.supply);
    let u3 = r4.tables[a3];
    let r3 = spec_step(u3[i3], o1.l2, r4.supply, fb2);
    lemma_step_facts(u3[i3], o1.l2, o1.l1, r4.tables, r4.supply, fb2);
    assert(u3[i3] == s3.entry);
    assert(r3.ok && r3.child == a2 && r3.tables == o1.l2 && r3.supply == o1.supply);
    let u2 = r3.tables[a2];
    let r2 = spec_step(u2[i2], o1.l1, r3.supply, fb2);
    lemma_step_facts(u2[i2], o1.l1, r3.tables, r4.tables, r3.supply, fb2);
    assert(u2[i2] == s2.entry);
    assert(r2.ok && r2.child == a1 && r2.tables == o1.l1 && r2.supply == o1.supply);
    assert(o2.ok);

    // The first page's walk through the doubly-merged entries.
    lemma_merged_entry(s4.entry, fb2);
    lemma_merged_entry(s3.entry, fb2);
    lemma_merged_entry(s2.entry, fb2);
    assert(o2.root[i4] == merged_value(s4.entry, fb2));
    assert(entry_present(o2.root[i4]) && entry_addr(o2.root[i4]) == a3);
    assert(o2.l3 == o1.l3.insert(a3, u3.update(i3, merged_value(s3.entry, fb2))));
    assert(o2.l3[a3][i3] == merged_value(s3.entry, fb2));
    assert(entry_present(o2.l3[a3][i3]) && entry_addr(o2.l3[a3][i3]) == a2);
    assert(o2.l2[a2][i2] == merged_value(s2.entry, fb2));
    assert(entry_present(o2.l2[a2][i2]) && entry_addr(o2.l2[a2][i2]) == a1);
    let u1 = r2.tables[a1];
    assert(o2.l1 == o1.l1.insert(a1, u1.update(k1, entry_value(fb2, fa2))));
    assert(o2.l1[a1][j1] == u1[j1]);
    assert(u1[j1] == o1.l1[a1][j1]);
    assert(walk(o2.root, o2.l3, o2.l2, o2.l1, va1) == Some(entry_value(fb1, fa1)));
}

} // verus!
