use vstd::prelude::*;
use crate::PAGE_SIZE;
use crate::page_aligned;
use crate::addr::{Page, is_pow2, spec_align_up, align_up, spec_align_down, lemma_align_up};
use crate::frames::FrameSupply;
use crate::frames::frame_addr_wf;
use crate::paging::{
    FLAG_PRESENT, FLAG_WRITABLE, PageTable, TableArena, entry_present, entry_value,
    leaf_frame, lemma_entry_round_trip, lemma_map_to_preserves_walk, lemma_map_to_then_walk,
    mem_inv, spec_map_to, walk_writable,
};

verus! {

/// The in-memory footprint of one free-list link: a machine-word size and a
/// machine-word next pointer, placed at the start of the free block it
/// describes. Every free block must be able to host one, so no allocation or
/// leftover fragment may be smaller.
pub const NODE_SIZE: u64 = 16;

/// The alignment of a free-list link; every block address is a multiple.
pub const NODE_ALIGN: u64 = 8;

/// How many pages one heap extension maps.
pub const PAGES_PER_EXTEND: u64 = 128;

/// The byte size of one whole heap extension.
pub const EXTEND_BYTES: u64 = PAGE_SIZE * PAGES_PER_EXTEND;

/// One free block of the heap: `size` bytes starting at `addr`. In memory the
/// link lives at the start of the very block it describes; here the block's
/// address is carried alongside its size.
#[derive(Debug, Clone, Copy, PartialEq, Eq, Structural)]
pub struct Node {
    pub size: u64,
    pub addr: u64,
}

impl Node {
    /// One past the last byte of the block.
    pub open spec fn end(&self) -> int {
        self.addr + self.size
    }

    /// A block is aligned for a link, can host one, and lies within the
    /// address space.
    pub open spec fn wf(&self) -> bool {
        &&& self.addr & 7 == 0
        &&& self.addr > 0
        &&& self.size >= NODE_SIZE
        &&& self.addr + self.size <= u64::MAX
    }

    /// A link of `size` bytes, not yet placed at any address.
    pub fn new(size: u64) -> (r: Self)
        ensures
            r.size == size,
            r.addr == 0,
    {
        Self { size, addr: 0 }
    }

    /// The address of the block's first byte.
    pub fn start_addr(&self) -> (r: u64)
        ensures
            r == self.addr,
    {
        self.addr
    }

    /// One past the block's last byte.
    pub fn end_addr(&self) -> (r: u64)
        requires
            self.addr + self.size <= u64::MAX,
        ensures
            r == self.end(),
    {
        self.addr + self.size
    }

    /// Where an allocation of `size` bytes aligned to `align` would start
    /// inside this block, or `Err` when the block cannot hold it: the aligned
    /// request must fit, and the leftover tail must be zero or large enough to
    /// host a link of its own — a smaller tail would be unusable and
    /// unrecoverable, so such a block is rejected even though the request
    /// technically fits.
    pub fn can_hold(&self, size: u64, align: u64) -> (r: Result<u64, ()>)
        requires
            self.wf(),
            is_pow2(align),
        ensures
            r == spec_can_hold(*self, size, align),
            r matches Ok(a) ==> {
                &&& a == spec_align_up(self.addr, align)
                &&& a & ((align - 1) as u64) == 0
                &&& self.addr <= a
                &&& a + size <= self.end()
                &&& (self.end() - (a + size) == 0 || self.end() - (a + size) >= NODE_SIZE)
            },
    {
        if align - 1 > u64::MAX - self.addr {
            return Err(());
        }
        let start = align_up(self.addr, align);
        if size > u64::MAX - start {
            return Err(());
        }
        let end = start + size;
        if end > self.end_addr() {
            return Err(());
        }
        let excess = self.end_addr() - end;
        if excess > 0 && excess < NODE_SIZE {
            return Err(());
        }
        Ok(start)
    }
}

/// The mathematical content of `Node::can_hold`.
pub open spec fn spec_can_hold(n: Node, size: u64, align: u64) -> Result<u64, ()> {
    if n.addr + align - 1 > u64::MAX {
        Err(())
    } else {
        let start = spec_align_up(n.addr, align);
        if start + size > n.addr + n.size {
            Err(())
        } else if n.addr + n.size - (start + size) > 0 && n.addr + n.size - (start + size)
            < NODE_SIZE {
            Err(())
        } else {
            Ok(start)
        }
    }
}

/// The first block of `list` that can hold the request, with the index of the
/// block and the address the allocation would get: first-fit in list order.
pub open spec fn spec_find(list: Seq<Node>, size: u64, align: u64) -> Option<(int, u64)>
    decreases list.len(),
{
    if list.len() == 0 {
        None
    } else if spec_can_hold(list[0], size, align) is Ok {
        Some((0int, spec_can_hold(list[0], size, align)->Ok_0))
    } else {
        match spec_find(list.drop_first(), size, align) {
            None => None,
            Some(p) => Some((p.0 + 1, p.1)),
        }
    }
}

/// When `spec_find` succeeds, it names the first block that fits.
pub proof fn lemma_spec_find_ok(list: Seq<Node>, size: u64, align: u64)
    requires
        spec_find(list, size, align) is Some,
    ensures
        ({
            let (i, a) = spec_find(list, size, align)->Some_0;
            &&& 0 <= i < list.len()
            &&& spec_can_hold(list[i], size, align) == Ok::<u64, ()>(a)
            &&& forall|k: int| 0 <= k < i ==> spec_can_hold(list[k], size, align) is Err
        }),
    decreases list.len(),
{
    if spec_can_hold(list[0], size, align) is Ok {
    } else {
        lemma_spec_find_ok(list.drop_first(), size, align);
        let (i, a) = spec_find(list, size, align)->Some_0;
        assert(list.drop_first()[i - 1] == list[i]);
        assert forall|k: int| 0 <= k < i implies spec_can_hold(list[k], size, align) is Err by {
            if k > 0 {
                assert(list.drop_first()[k - 1] == list[k]);
            }
        }
    }
}

/// When the first `i` blocks cannot hold the request and block `i` can,
/// `spec_find` picks block `i`.
pub proof fn lemma_spec_find_at(list: Seq<Node>, size: u64, align: u64, i: int)
    requires
        0 <= i < list.len(),
        spec_can_hold(list[i], size, align) is Ok,
        forall|k: int| 0 <= k < i ==> spec_can_hold(list[k], size, align) is Err,
    ensures
        spec_find(list, size, align) == Some((i, spec_can_hold(list[i], size, align)->Ok_0)),
    decreases i,
{
    if i == 0 {
    } else {
        assert forall|k: int|
            0 <= k < i - 1 implies spec_can_hold(list.drop_first()[k], size, align) is Err by {
            assert(list.drop_first()[k] == list[k + 1]);
        }
        assert(list.drop_first()[i - 1] == list[i]);
        lemma_spec_find_at(list.drop_first(), size, align, i - 1);
    }
}

/// When no block holds the request, `spec_find` fails.
pub proof fn lemma_spec_find_none(list: Seq<Node>, size: u64, align: u64)
    requires
        forall|k: int| 0 <= k < list.len() ==> spec_can_hold(list[k], size, align) is Err,
    ensures
        spec_find(list, size, align) is None,
    decreases list.len(),
{
    if list.len() > 0 {
        assert forall|k: int|
            0 <= k < list.drop_first().len() implies spec_can_hold(
            list.drop_first()[k],
            size,
            align,
        ) is Err by {
            assert(list.drop_first()[k] == list[k + 1]);
        }
        lemma_spec_find_none(list.drop_first(), size, align);
    }
}

/// The free blocks cover pairwise-disjoint byte ranges. This is a property of
/// a heap state, not an invariant the allocator can keep: the extension-merge
/// pass (`spec_coalesce`) adds up whole-extension blocks that are not
/// address-adjacent — consecutive extensions are separated by one page — so
/// after a merge the head block's range can reach over addresses that a later
/// extension inserts again. Allocation preserves the property and hands out a
/// range disjoint from every remaining block; deallocation preserves it when
/// the freed range does not overlap the list; heap growth need not.
pub open spec fn blocks_disjoint(list: Seq<Node>) -> bool {
    forall|i: int, j: int|
        #![trigger list[i], list[j]]
        0 <= i < j < list.len() ==> list[i].addr + list[i].size <= list[j].addr || list[j].addr
            + list[j].size <= list[i].addr
}

/// The block `[addr, addr + size)` does not overlap any block of `list`.
pub open spec fn range_disjoint_from(list: Seq<Node>, addr: u64, size: u64) -> bool {
    forall|k: int|
        0 <= k < list.len() ==> (#[trigger] list[k]).addr + list[k].size <= addr || addr + size
            <= list[k].addr
}

/// The `(size, align)` pair a request is normalised to before it meets the
/// free list: the alignment is raised to at least the link alignment, the
/// size is padded to a multiple of that alignment, and it is at least one
/// link, so any freed block can host a link later.
pub open spec fn spec_size_align(size: u64, align: u64) -> (u64, u64) {
    let a = if align < NODE_ALIGN {
        NODE_ALIGN
    } else {
        align
    };
    let padded = spec_align_up(size, a);
    let s = if padded < NODE_SIZE {
        NODE_SIZE
    } else {
        padded
    };
    (s, a)
}

/// Normalises a request, as `spec_size_align`.
pub fn size_align(size: u64, align: u64) -> (r: (u64, u64))
    requires
        is_pow2(align),
        size + align + NODE_ALIGN <= u64::MAX,
    ensures
        r == spec_size_align(size, align),
        is_pow2(r.1),
        r.1 >= NODE_ALIGN,
        align <= r.1,
        r.0 >= NODE_SIZE,
        r.0 & 7 == 0,
        size <= r.0,
{
    let a = if align < NODE_ALIGN {
        NODE_ALIGN
    } else {
        align
    };
    proof {
        assert(8u64 & 7u64 == 0 && 8u64 > 0) by (bit_vector);
        lemma_align_up(size, a);
        let p = spec_align_up(size, a);
        assert(p & ((a - 1) as u64) == 0 && a >= 8 && a > 0 && a & ((a - 1) as u64) == 0 ==> p & 7
            == 0) by (bit_vector);
        assert(16u64 & 7u64 == 0) by (bit_vector);
    }
    let padded = align_up(size, a);
    let s = if padded < NODE_SIZE {
        NODE_SIZE
    } else {
        padded
    };
    (s, a)
}

/// A multiple of a larger power of two is a multiple of a smaller one.
pub proof fn lemma_align_divides(x: u64, small: u64, big: u64)
    requires
        is_pow2(small),
        is_pow2(big),
        small <= big,
        x & ((big - 1) as u64) == 0,
    ensures
        x & ((small - 1) as u64) == 0,
{
    assert((small > 0 && small & ((small - 1) as u64) == 0 && big > 0 && big & ((big - 1) as u64)
        == 0 && small <= big && x & ((big - 1) as u64) == 0) ==> x & ((small - 1) as u64) == 0)
        by (bit_vector);
}

/// The head-first free list plus the current upper bound of the heap range.
/// A block is either in the list or handed out; membership in the list is the
/// only record. The list is unordered by address and insertion is always at
/// the head.
pub struct LinkedListAllocator {
    pub free: Vec<Node>,
    /// The current end of the heap's virtual range, kept so the heap can be
    /// extended later.
    pub heap_end: u64,
}

impl LinkedListAllocator {
    /// The free blocks, head first.
    pub open spec fn list(&self) -> Seq<Node> {
        self.free@
    }

    pub open spec fn wf(&self) -> bool {
        forall|i: int| 0 <= i < self.free@.len() ==> (#[trigger] self.free@[i]).wf()
    }

    /// An empty allocator: no free blocks, no heap range yet.
    pub fn new() -> (r: Self)
        ensures
            r.wf(),
            r.list() =~= Seq::<Node>::empty(),
            r.heap_end == 0,
    {
        LinkedListAllocator { free: Vec::new(), heap_end: 0 }
    }

    /// Puts the block `[addr, addr + size)` at the head of the free list.
    pub fn add_free_node(&mut self, addr: u64, size: u64)
        requires
            old(self).wf(),
            addr & 7 == 0,
            addr > 0,
            size >= NODE_SIZE,
            addr + size <= u64::MAX,
        ensures
            final(self).wf(),
            final(self).list() == old(self).list().insert(0, Node { size, addr }),
            final(self).heap_end == old(self).heap_end,
    {
        let node = Node { size, addr };
        self.free.insert(0, node);
        proof {
            assert forall|i: int| 0 <= i < self.free@.len() implies (#[trigger] self.free@[i]).wf()
                by {
                if i > 0 {
                    assert(self.free@[i] == old(self).free@[i - 1]);
                }
            }
        }
    }

    /// Carves the initial heap out of `[possible_start, possible_start + size)`:
    /// the start is aligned up for a link, the usable size shrinks to match,
    /// one free block spans the whole region, and `heap_end` records its end.
    /// The region must already be mapped.
    pub fn init(&mut self, possible_start: u64, size: u64)
        requires
            old(self).wf(),
            possible_start > 0,
            possible_start + size <= u64::MAX,
            size >= NODE_SIZE,
            spec_align_up(possible_start, NODE_SIZE) + NODE_SIZE <= possible_start + size,
        ensures
            final(self).wf(),
            final(self).heap_end == possible_start + size,
            final(self).list() == old(self).list().insert(
                0,
                Node {
                    size: (possible_start + size - spec_align_up(possible_start, NODE_SIZE)) as u64,
                    addr: spec_align_up(possible_start, NODE_SIZE),
                },
            ),
    {
        proof {
            assert(16u64 > 0 && 16u64 & 15u64 == 0) by (bit_vector);
            lemma_align_up(possible_start, NODE_SIZE);
            let hs = spec_align_up(possible_start, NODE_SIZE);
            assert(hs & 15u64 == 0 ==> hs & 7u64 == 0) by (bit_vector);
        }
        let heap_start = align_up(possible_start, NODE_SIZE);
        let size = size - (heap_start - possible_start);
        let heap_end = heap_start + size;
        self.heap_end = heap_end;
        self.add_free_node(heap_start, size);
    }
}

/// The narrow coalescing pass run after a heap extension: starting from the
/// head, the freshly inserted block absorbs the block after it as long as that
/// block's size is an exact multiple of one whole extension — so consecutive
/// extension-sized blocks merge into one, while any other fragment, adjacent
/// or not, is left alone.
pub open spec fn spec_coalesce(list: Seq<Node>) -> Seq<Node>
    decreases list.len(),
{
    if list.len() >= 2 && list[1].size % EXTEND_BYTES == 0 && list[0].addr + list[0].size
        + list[1].size <= u64::MAX {
        spec_coalesce(
            list.remove(1).update(
                0,
                Node { size: (list[0].size + list[1].size) as u64, addr: list[0].addr },
            ),
        )
    } else {
        list
    }
}

/// Coalescing never loses the head block: it keeps its address and can only
/// grow.
pub proof fn lemma_coalesce_head(list: Seq<Node>)
    requires
        list.len() >= 1,
    ensures
        spec_coalesce(list).len() >= 1,
        spec_coalesce(list)[0].addr == list[0].addr,
        spec_coalesce(list)[0].size >= list[0].size,
    decreases list.len(),
{
    if list.len() >= 2 && list[1].size % EXTEND_BYTES == 0 && list[0].addr + list[0].size
        + list[1].size <= u64::MAX {
        let merged = list.remove(1).update(
            0,
            Node { size: (list[0].size + list[1].size) as u64, addr: list[0].addr },
        );
        assert(merged[0].addr == list[0].addr && merged[0].size >= list[0].size);
        lemma_coalesce_head(merged);
    }
}

impl LinkedListAllocator {
    /// Grows the heap by `PAGES_PER_EXTEND` pages just above `heap_end`:
    /// takes a frame for each page from the supply and maps it PRESENT and
    /// WRITABLE through the root table, inserts the whole extension as one
    /// free block, and then merges that block with following whole-extension
    /// blocks. On failure the free list and `heap_end` are exactly as before
    /// the call; pages already mapped stay mapped, which is a deliberate
    /// leak: a frame supply that cannot feed the heap is fatal to the kernel.
    pub fn extend_heap(
        &mut self,
        root: &mut PageTable,
        arena: &mut TableArena,
        supply: &mut FrameSupply,
    ) -> (r: Result<(), ()>)
        requires
            old(self).wf(),
            mem_inv(*old(root), *old(arena), *old(supply)),
        ensures
            final(self).wf(),
            mem_inv(*final(root), *final(arena), *final(supply)),
            final(supply)@.len() <= old(supply)@.len(),
            r is Err ==> final(self).free@ == old(self).free@ && final(self).heap_end == old(
                self,
            ).heap_end,
            old(supply)@.len() >= 4 * PAGES_PER_EXTEND && old(self).heap_end <= u64::MAX
                - PAGE_SIZE * (PAGES_PER_EXTEND + 1) ==> r is Ok,
            final(supply)@.len() + 4 * PAGES_PER_EXTEND >= old(supply)@.len(),
            old(supply)@.len() == 0 ==> r is Err && *final(root) == *old(root)
                && final(arena).l3@ == old(arena).l3@ && final(arena).l2@ == old(arena).l2@
                && final(arena).l1@ == old(arena).l1@ && final(supply)@ == old(supply)@,
            r is Ok ==> final(self).heap_end > old(self).heap_end,
            r is Ok ==> {
                let start = spec_align_down((old(self).heap_end + PAGE_SIZE) as u64, PAGE_SIZE);
                &&& final(supply)@.len() + PAGES_PER_EXTEND <= old(supply)@.len()
                &&& final(self).free@ == spec_coalesce(
                    old(self).free@.insert(0, Node { size: EXTEND_BYTES, addr: start }),
                )
                &&& final(self).heap_end == spec_align_down(
                    (old(self).heap_end + PAGE_SIZE * PAGES_PER_EXTEND) as u64,
                    PAGE_SIZE,
                ) + PAGE_SIZE
                &&& forall|p: u64|
                    page_aligned(p) && start <= p < start + EXTEND_BYTES ==> walk_writable(
                        final(root).raw(),
                        final(arena).l3@,
                        final(arena).l2@,
                        final(arena).l1@,
                        p,
                    ) && old(supply)@.contains(
                        leaf_frame(
                            final(root).raw(),
                            final(arena).l3@,
                            final(arena).l2@,
                            final(arena).l1@,
                            p,
                        ),
                    ) && !final(supply)@.contains(
                        leaf_frame(
                            final(root).raw(),
                            final(arena).l3@,
                            final(arena).l2@,
                            final(arena).l1@,
                            p,
                        ),
                    )
                &&& forall|p1: u64, p2: u64|
                    page_aligned(p1) && start <= p1 < start + EXTEND_BYTES && page_aligned(p2)
                        && start <= p2 < start + EXTEND_BYTES && p1 != p2 ==> leaf_frame(
                        final(root).raw(),
                        final(arena).l3@,
                        final(arena).l2@,
                        final(arena).l1@,
                        p1,
                    ) != leaf_frame(
                        final(root).raw(),
                        final(arena).l3@,
                        final(arena).l2@,
                        final(arena).l1@,
                        p2,
                    )
            },
    {
        if self.heap_end > u64::MAX - PAGE_SIZE * (PAGES_PER_EXTEND + 1) {
            return Err(());
        }
        let start_page = Page::containing_address(self.heap_end + PAGE_SIZE);
        let end_page = Page::containing_address(self.heap_end + PAGE_SIZE * PAGES_PER_EXTEND);
        proof {
            let he = self.heap_end;
            assert((he <= u64::MAX - 4096 * 129) ==> {
                let s = ((he + 4096) as u64) & !0xfffu64;
                let e = ((he + 4096 * 128) as u64) & !0xfffu64;
                s <= e && e / 4096 - s / 4096 == 127 && s >= 4096 && s & 7u64 == 0 && e + 4096
                    <= u64::MAX && s + 4096 * 128 <= u64::MAX && e + 4096 == s + 4096 * 128 && e
                    + 4096 > he
            }) by (bit_vector);
        }
        let mut it = Page::iter_pages(start_page, end_page);
        let ghost sup0 = old(supply)@;
        proof {
            assert(it.remaining() == 128);
        }
        loop
            invariant
                it.wf(),
                self.free@ == old(self).free@,
                self.heap_end == old(self).heap_end,
                self.wf(),
                mem_inv(*root, *arena, *supply),
                it.remaining() <= 128,
                sup0 == old(supply)@,
                supply@.len() + (128 - it.remaining()) <= sup0.len(),
                sup0.len() <= supply@.len() + 4 * (128 - it.remaining()),
                sup0.len() >= 4 * PAGES_PER_EXTEND ==> supply@.len() >= 4 * it.remaining(),
                sup0.len() == 0 ==> *root == *old(root) && *arena == *old(arena) && supply@
                    == sup0,
                page_aligned(start_page.start_address),
                start_page.start_address + PAGE_SIZE * PAGES_PER_EXTEND <= u64::MAX,
                it.remaining() > 0 ==> it.start.start_address == start_page.start_address + (128
                    - it.remaining()) * PAGE_SIZE,
                forall|p: u64|
                    page_aligned(p) && start_page.start_address <= p < start_page.start_address + (
                    128 - it.remaining()) * PAGE_SIZE ==> walk_writable(
                        root.raw(),
                        arena.l3@,
                        arena.l2@,
                        arena.l1@,
                        p,
                    ) && sup0.contains(leaf_frame(root.raw(), arena.l3@, arena.l2@, arena.l1@, p))
                        && !supply@.contains(
                        leaf_frame(root.raw(), arena.l3@, arena.l2@, arena.l1@, p),
                    ),
                forall|p1: u64, p2: u64|
                    page_aligned(p1) && start_page.start_address <= p1 < start_page.start_address
                        + (128 - it.remaining()) * PAGE_SIZE && page_aligned(p2)
                        && start_page.start_address <= p2 < start_page.start_address + (128
                        - it.remaining()) * PAGE_SIZE && p1 != p2 ==> leaf_frame(
                        root.raw(),
                        arena.l3@,
                        arena.l2@,
                        arena.l1@,
                        p1,
                    ) != leaf_frame(root.raw(), arena.l3@, arena.l2@, arena.l1@, p2),
                forall|i: int| 0 <= i < supply@.len() ==> supply@[i] == sup0[i],
            ensures
                self.free@ == old(self).free@,
                self.heap_end == old(self).heap_end,
                self.wf(),
                mem_inv(*root, *arena, *supply),
                supply@.len() + 128 <= sup0.len(),
                sup0.len() <= supply@.len() + 4 * 128,
                forall|p: u64|
                    page_aligned(p) && start_page.start_address <= p < start_page.start_address
                        + EXTEND_BYTES ==> walk_writable(
                        root.raw(),
                        arena.l3@,
                        arena.l2@,
                        arena.l1@,
                        p,
                    ) && sup0.contains(leaf_frame(root.raw(), arena.l3@, arena.l2@, arena.l1@, p))
                        && !supply@.contains(
                        leaf_frame(root.raw(), arena.l3@, arena.l2@, arena.l1@, p),
                    ),
                forall|p1: u64, p2: u64|
                    page_aligned(p1) && start_page.start_address <= p1 < start_page.start_address
                        + EXTEND_BYTES && page_aligned(p2) && start_page.start_address <= p2
                        < start_page.start_address + EXTEND_BYTES && p1 != p2 ==> leaf_frame(
                        root.raw(),
                        arena.l3@,
                        arena.l2@,
                        arena.l1@,
                        p1,
                    ) != leaf_frame(root.raw(), arena.l3@, arena.l2@, arena.l1@, p2),
            decreases it.remaining(),
        {
            match it.next() {
                None => {
                    break ;
                },
                Some(page) => {
                    let ghost svb = supply@;
                    let frame = match supply.allocate_frame() {
                        Some(f) => f,
                        None => {
                            return Err(());
                        },
                    };
                    let ghost r0 = *root;
                    let ghost a0 = *arena;
                    let ghost sv0 = supply@;
                    match root.map_to_writeable(page, frame, arena, supply) {
                        Ok(()) => {
                            proof {
                                let va = page.start_address;
                                let fa = frame.start_address;
                                let fb: u64 = FLAG_PRESENT | FLAG_WRITABLE;
                                assert((1u64 | 2u64) & 0x8000_0000_0000_01ffu64 == (1u64 | 2u64)
                                    && (1u64 | 2u64) & 1u64 == 1u64) by (bit_vector);
                                lemma_map_to_then_walk(
                                    r0.raw(),
                                    a0.l3@,
                                    a0.l2@,
                                    a0.l1@,
                                    sv0,
                                    va,
                                    fa,
                                    fb,
                                );
                                assert((fa | (1u64 | 2u64)) & 2u64 == 2u64 && (fa | (1u64 | 2u64))
                                    & 1u64 == 1u64) by (bit_vector);
                                assert(walk_writable(root.raw(), arena.l3@, arena.l2@, arena.l1@, va));
                                lemma_entry_round_trip(fb, fa);
                                assert(leaf_frame(root.raw(), arena.l3@, arena.l2@, arena.l1@, va)
                                    == fa);
                                // The supply only ever loses frames from its
                                // end, so it stays a prefix of what it was.
                                assert(forall|i: int|
                                    0 <= i < supply@.len() ==> supply@[i] == svb[i]);
                                assert(fa == svb[svb.len() - 1]);
                                assert(sup0.contains(fa)) by {
                                    assert(sup0[svb.len() - 1] == fa);
                                }
                                assert(!supply@.contains(fa)) by {
                                    assert forall|i: int|
                                        0 <= i < supply@.len() implies supply@[i] != fa by {
                                        assert(supply@[i] == svb[i]);
                                        assert(svb[i] != svb[svb.len() - 1]);
                                    }
                                }
                                let bound = start_page.start_address + (128 - it.remaining())
                                    * PAGE_SIZE;
                                assert(bound == va + PAGE_SIZE);
                                assert forall|p: u64|
                                    page_aligned(p) && start_page.start_address <= p < bound && p
                                        != va implies p < va && walk_writable(
                                    root.raw(),
                                    arena.l3@,
                                    arena.l2@,
                                    arena.l1@,
                                    p,
                                ) && leaf_frame(root.raw(), arena.l3@, arena.l2@, arena.l1@, p)
                                    == leaf_frame(r0.raw(), a0.l3@, a0.l2@, a0.l1@, p) by {
                                    assert((p & 0xfff == 0 && va & 0xfff == 0 && p < va + 4096 && p
                                        != va && va + 4096 <= u64::MAX) ==> p < va)
                                        by (bit_vector);
                                    assert(p < va);
                                    assert(walk_writable(r0.raw(), a0.l3@, a0.l2@, a0.l1@, p));
                                    assert((p & 0xfff == 0 && va & 0xfff == 0 && p < va && va - p
                                        < 0x200000) ==> ((p >> 12) & 0x1ff) != ((va >> 12)
                                        & 0x1ff)) by (bit_vector);
                                    lemma_map_to_preserves_walk(
                                        r0.raw(),
                                        a0.l3@,
                                        a0.l2@,
                                        a0.l1@,
                                        sv0,
                                        va,
                                        fa,
                                        fb,
                                        p,
                                    );
                                }
                                assert forall|p: u64|
                                    page_aligned(p) && start_page.start_address <= p < bound && p
                                        != va implies sup0.contains(
                                    leaf_frame(root.raw(), arena.l3@, arena.l2@, arena.l1@, p),
                                ) && !supply@.contains(
                                    leaf_frame(root.raw(), arena.l3@, arena.l2@, arena.l1@, p),
                                ) && leaf_frame(root.raw(), arena.l3@, arena.l2@, arena.l1@, p)
                                    != fa by {
                                    let lf = leaf_frame(r0.raw(), a0.l3@, a0.l2@, a0.l1@, p);
                                    assert(!svb.contains(lf));
                                    assert(lf != fa) by {
                                        assert(svb.contains(fa)) by {
                                            assert(svb[svb.len() - 1] == fa);
                                        }
                                    }
                                    assert forall|i: int|
                                        0 <= i < supply@.len() implies supply@[i] != lf by {
                                        assert(supply@[i] == svb[i]);
                                        assert(!svb.contains(lf) ==> svb[i] != lf);
                                    }
                                }
                            }
                        },
                        Err(_) => {
                            return Err(());
                        },
                    }
                },
            }
        }
        self.add_free_node(start_page.start_address, PAGE_SIZE * PAGES_PER_EXTEND);
        let ghost inserted = self.free@;
        let ghost heap_end0 = self.heap_end;
        loop
            invariant
                self.wf(),
                self.heap_end == heap_end0,
                spec_coalesce(self.free@) == spec_coalesce(inserted),
            ensures
                self.wf(),
                self.heap_end == heap_end0,
                self.free@ == spec_coalesce(inserted),
            decreases self.free@.len(),
        {
            if self.free.len() < 2 {
                proof {
                    assert(spec_coalesce(self.free@) == self.free@);
                }
                break ;
            }
            let head = self.free[0];
            let second = self.free[1];
            if second.size % EXTEND_BYTES != 0 {
                proof {
                    assert(spec_coalesce(self.free@) == self.free@);
                }
                break ;
            }
            if second.size > u64::MAX - head.size {
                proof {
                    assert(spec_coalesce(self.free@) == self.free@);
                }
                break ;
            }
            if head.addr > u64::MAX - (head.size + second.size) {
                proof {
                    assert(spec_coalesce(self.free@) == self.free@);
                }
                break ;
            }
            let ghost prev = self.free@;
            let merged = Node { size: head.size + second.size, addr: head.addr };
            self.free[0] = merged;
            let _ = self.free.remove(1);
            proof {
                assert(self.free@ =~= prev.remove(1).update(
                    0,
                    Node { size: (prev[0].size + prev[1].size) as u64, addr: prev[0].addr },
                ));
                assert(spec_coalesce(prev) == spec_coalesce(self.free@));
                assert forall|i: int| 0 <= i < self.free@.len() implies (
                #[trigger] self.free@[i]).wf() by {
                    if i > 0 {
                        assert(self.free@[i] == prev[i + 1]);
                    }
                }
            }
        }
        self.heap_end = end_page.start_address + PAGE_SIZE;
        Ok(())
    }

    /// First-fit search over the free list, in list order. The found block is
    /// unlinked and returned together with the address the allocation gets
    /// inside it. When nothing fits, the heap is grown once and the search
    /// retried; when growth fails too, the search fails.
    pub fn find_free_node(
        &mut self,
        size: u64,
        align: u64,
        root: &mut PageTable,
        arena: &mut TableArena,
        supply: &mut FrameSupply,
    ) -> (r: Option<(Node, u64)>)
        requires
            old(self).wf(),
            mem_inv(*old(root), *old(arena), *old(supply)),
            is_pow2(align),
        ensures
            final(self).wf(),
            mem_inv(*final(root), *final(arena), *final(supply)),
            match spec_find(old(self).list(), size, align) {
                Some((i, a)) => {
                    &&& r == Some((old(self).list()[i], a))
                    &&& final(self).free@ == old(self).free@.remove(i)
                    &&& final(self).heap_end == old(self).heap_end
                    &&& *final(root) == *old(root)
                    &&& final(arena).l3@ == old(arena).l3@
                    &&& final(arena).l2@ == old(arena).l2@
                    &&& final(arena).l1@ == old(arena).l1@
                    &&& final(supply)@ == old(supply)@
                },
                None => true,
            },
            r matches Some(p) ==> spec_can_hold(p.0, size, align) == Ok::<u64, ()>(p.1)
                && p.0.wf(),
            r is None ==> spec_find(final(self).list(), size, align) is None,
            (old(supply)@.len() >= 4 * PAGES_PER_EXTEND && old(self).heap_end <= u64::MAX
                - PAGE_SIZE * (PAGES_PER_EXTEND + 1) && align <= PAGE_SIZE && size <= EXTEND_BYTES
                - NODE_SIZE) ==> r is Some,
            final(supply)@.len() <= old(supply)@.len(),
            final(self).heap_end >= old(self).heap_end,
            (spec_find(old(self).list(), size, align) is None && old(supply)@.len() == 0)
                ==> (r is None && final(self).free@ == old(self).free@
                && final(self).heap_end == old(self).heap_end && *final(root) == *old(root)
                && final(arena).l3@ == old(arena).l3@ && final(arena).l2@ == old(arena).l2@
                && final(arena).l1@ == old(arena).l1@ && final(supply)@ == old(supply)@),
            (r matches Some(p) && spec_find(old(self).list(), size, align) is None)
                ==> (final(self).heap_end > old(self).heap_end && final(supply)@.len()
                + PAGES_PER_EXTEND <= old(supply)@.len()),
        decreases old(supply)@.len(),
    {
        let mut i: usize = 0;
        loop
            invariant
                self.wf(),
                is_pow2(align),
                i <= self.free@.len(),
                self.free@ == old(self).free@,
                self.heap_end == old(self).heap_end,
                *root == *old(root),
                *arena == *old(arena),
                *supply == *old(supply),
                mem_inv(*root, *arena, *supply),
                forall|k: int| 0 <= k < i ==> spec_can_hold(self.free@[k], size, align) is Err,
            ensures
                self.free@ == old(self).free@,
                self.heap_end == old(self).heap_end,
                *root == *old(root),
                *arena == *old(arena),
                *supply == *old(supply),
                mem_inv(*root, *arena, *supply),
                forall|k: int|
                    0 <= k < self.free@.len() ==> spec_can_hold(self.free@[k], size, align) is Err,
            decreases self.free@.len() - i,
        {
            if i >= self.free.len() {
                break ;
            }
            let node = self.free[i];
            match node.can_hold(size, align) {
                Ok(addr) => {
                    proof {
                        lemma_spec_find_at(self.free@, size, align, i as int);
                    }
                    let n = self.free.remove(i);
                    return Some((n, addr));
                },
                Err(()) => {
                    i = i + 1;
                },
            }
        }
        proof {
            lemma_spec_find_none(self.free@, size, align);
        }
        let ghost free_before = self.free@;
        let ghost he_before = self.heap_end;
        match self.extend_heap(root, arena, supply) {
            Err(()) => None,
            Ok(()) => {
                proof {
                    if align <= PAGE_SIZE && size <= EXTEND_BYTES - NODE_SIZE {
                        let start = spec_align_down((he_before + PAGE_SIZE) as u64, PAGE_SIZE);
                        let inserted = free_before.insert(
                            0,
                            Node { size: EXTEND_BYTES, addr: start },
                        );
                        assert(inserted[0] == Node { size: EXTEND_BYTES, addr: start });
                        lemma_coalesce_head(inserted);
                        let head = self.free@[0];
                        assert(head.addr == start && head.size >= EXTEND_BYTES);
                        assert(start & 0xfffu64 == 0 && start <= he_before + PAGE_SIZE) by {
                            let x = (he_before + PAGE_SIZE) as u64;
                            assert((x & !0xfffu64) & 0xfffu64 == 0 && (x & !0xfffu64) <= x)
                                by (bit_vector);
                        }
                        assert(4096u64 > 0 && 4096u64 & 4095u64 == 0) by (bit_vector);
                        lemma_align_divides(start, align, PAGE_SIZE);
                        lemma_align_up(start, align);
                        assert(spec_align_up(start, align) == start);
                        assert(spec_can_hold(head, size, align) == Ok::<u64, ()>(start));
                        assert(spec_find(self.free@, size, align) is Some);
                    }
                }
                self.find_free_node(size, align, root, arena, supply)
            },
        }
    }

    /// Serves an allocation of `size` bytes aligned to `align`. The request
    /// is normalised by `spec_size_align`, the first fitting block is taken,
    /// any leftover tail of that block goes back to the head of the free
    /// list, and the address of the allocation is returned; `0` is the
    /// out-of-memory signal, returned only when no block fits even after the
    /// heap could not be grown any further.
    pub fn alloc_mut(
        &mut self,
        size: u64,
        align: u64,
        root: &mut PageTable,
        arena: &mut TableArena,
        supply: &mut FrameSupply,
    ) -> (r: u64)
        requires
            old(self).wf(),
            mem_inv(*old(root), *old(arena), *old(supply)),
            is_pow2(align),
            size + align + NODE_ALIGN <= u64::MAX,
        ensures
            final(self).wf(),
            mem_inv(*final(root), *final(arena), *final(supply)),
            r != 0 ==> r & ((align - 1) as u64) == 0 && r & ((spec_size_align(size, align).1
                - 1) as u64) == 0,
            ({
                let (s, a) = spec_size_align(size, align);
                match spec_find(old(self).list(), s, a) {
                    Some((i, addr)) => {
                        let n = old(self).list()[i];
                        let excess = n.addr + n.size - (addr + s);
                        &&& r == addr
                        &&& r != 0
                        &&& final(self).free@ == (if excess > 0 {
                            old(self).free@.remove(i).insert(
                                0,
                                Node { size: excess as u64, addr: (addr + s) as u64 },
                            )
                        } else {
                            old(self).free@.remove(i)
                        })
                        &&& final(self).heap_end == old(self).heap_end
                        &&& final(supply)@ == old(supply)@
                    },
                    None => true,
                }
            }),
            r == 0 ==> spec_find(
                final(self).list(),
                spec_size_align(size, align).0,
                spec_size_align(size, align).1,
            ) is None,
            ({
                let (s, a) = spec_size_align(size, align);
                (old(supply)@.len() >= 4 * PAGES_PER_EXTEND && old(self).heap_end <= u64::MAX
                    - PAGE_SIZE * (PAGES_PER_EXTEND + 1) && a <= PAGE_SIZE && s <= EXTEND_BYTES
                    - NODE_SIZE) ==> r != 0
            }),
            ({
                let (s, a) = spec_size_align(size, align);
                (spec_find(old(self).list(), s, a) is None && old(supply)@.len() == 0) ==> (r == 0
                    && final(self).free@ == old(self).free@
                    && final(self).heap_end == old(self).heap_end && *final(root) == *old(root)
                    && final(arena).l3@ == old(arena).l3@ && final(arena).l2@ == old(arena).l2@
                    && final(arena).l1@ == old(arena).l1@ && final(supply)@ == old(supply)@)
            }),
            ({
                let (s, a) = spec_size_align(size, align);
                (spec_find(old(self).list(), s, a) is Some && blocks_disjoint(old(self).list()))
                    ==> blocks_disjoint(final(self).list()) && range_disjoint_from(
                    final(self).list(),
                    r,
                    s,
                )
            }),
    {
        let (s, a) = size_align(size, align);
        match self.find_free_node(s, a, root, arena, supply) {
            None => 0,
            Some((node, addr)) => {
                proof {
                    assert(8u64 > 0 && 8u64 & 7u64 == 0) by (bit_vector);
                    lemma_align_up(node.addr, a);
                    assert(node.addr <= addr);
                }
                let alloc_end = addr + s;
                let excess = node.end_addr() - alloc_end;
                proof {
                    assert(addr & 7u64 == 0) by {
                        lemma_align_divides(addr, 8, a);
                    }
                    assert(s & 7u64 == 0);
                    assert((addr & 7u64 == 0 && s & 7u64 == 0 && addr + s <= u64::MAX) ==> ((addr
                        + s) as u64) & 7u64 == 0) by (bit_vector);
                    assert(addr > 0);
                    assert(addr & ((align - 1) as u64) == 0) by {
                        lemma_align_divides(addr, align, a);
                    }
                }
                if excess > 0 {
                    self.add_free_node(alloc_end, excess);
                }
                proof {
                    let list0 = old(self).list();
                    if spec_find(list0, s, a) is Some && blocks_disjoint(list0) {
                        let (fi, faddr) = spec_find(list0, s, a)->Some_0;
                        lemma_spec_find_ok(list0, s, a);
                        let removed = list0.remove(fi);
                        assert(forall|k: int|
                            0 <= k < removed.len() ==> removed[k] == (if k < fi {
                                #[trigger] list0[k]
                            } else {
                                list0[k + 1]
                            }));
                        assert forall|k: int|
                            0 <= k < removed.len() implies removed[k].addr + removed[k].size
                            <= node.addr || node.addr + node.size <= removed[k].addr by {
                            if k < fi {
                                assert(list0[k].addr + list0[k].size <= list0[fi].addr
                                    || list0[fi].addr + list0[fi].size <= list0[k].addr);
                            } else {
                                assert(list0[fi].addr + list0[fi].size <= list0[k + 1].addr
                                    || list0[k + 1].addr + list0[k + 1].size <= list0[fi].addr);
                            }
                        }
                        assert(node.addr <= addr && addr + s <= node.addr + node.size);
                        assert(range_disjoint_from(removed, addr, s));
                        assert(blocks_disjoint(removed));
                        if excess > 0 {
                            let leftover = Node { size: excess as u64, addr: (addr + s) as u64 };
                            assert(self.free@ == removed.insert(0, leftover));
                            assert(forall|k: int|
                                1 <= k < self.free@.len() ==> #[trigger] self.free@[k] == removed[k
                                    - 1]);
                            assert(leftover.addr >= addr + s && leftover.addr + leftover.size
                                == node.addr + node.size);
                            assert(range_disjoint_from(self.free@, addr, s));
                            assert(blocks_disjoint(self.free@));
                        } else {
                            assert(self.free@ == removed);
                        }
                    }
                }
                addr
            },
        }
    }

    /// Returns the region at `ptr` that was allocated with `(size, align)` to
    /// the head of the free list, recomputing the same normalised size the
    /// allocation used. No merging with neighbouring free blocks happens
    /// here: only a later heap extension coalesces, and only whole-extension
    /// blocks.
    pub fn dealloc_mut(&mut self, ptr: u64, size: u64, align: u64)
        requires
            old(self).wf(),
            is_pow2(align),
            size + align + NODE_ALIGN <= u64::MAX,
            ptr & 7 == 0,
            ptr > 0,
            ptr + spec_size_align(size, align).0 <= u64::MAX,
        ensures
            final(self).wf(),
            final(self).free@ == old(self).free@.insert(
                0,
                Node { size: spec_size_align(size, align).0, addr: ptr },
            ),
            final(self).heap_end == old(self).heap_end,
            (blocks_disjoint(old(self).list()) && range_disjoint_from(
                old(self).list(),
                ptr,
                spec_size_align(size, align).0,
            )) ==> blocks_disjoint(final(self).list()),
    {
        let (s, _) = size_align(size, align);
        self.add_free_node(ptr, s);
        proof {
            if blocks_disjoint(old(self).list()) && range_disjoint_from(old(self).list(), ptr, s) {
                assert(forall|k: int|
                    1 <= k < self.free@.len() ==> #[trigger] self.free@[k] == old(self).free@[k
                        - 1]);
                assert(self.free@[0] == Node { size: s, addr: ptr });
                assert(blocks_disjoint(self.free@));
            }
        }
    }
}

/// Allocating, freeing, and allocating again with the same request succeeds
/// and reuses the same address: after an allocation is returned to the list,
/// the very next first-fit search for the same normalised request finds the
/// freed block at the head and places the allocation exactly where it was.
pub proof fn lemma_alloc_roundtrip(list: Seq<Node>, size: u64, align: u64)
    requires
        forall|i: int| 0 <= i < list.len() ==> (#[trigger] list[i]).wf(),
        forall|i: int| 0 <= i < list.len() ==> (#[trigger] list[i]).addr + list[i].size + (
        spec_size_align(size, align).1) <= u64::MAX,
        is_pow2(align),
        size + align + NODE_ALIGN <= u64::MAX,
        spec_find(list, spec_size_align(size, align).0, spec_size_align(size, align).1) is Some,
    ensures
        ({
            let (s, a) = spec_size_align(size, align);
            let (i, addr) = spec_find(list, s, a)->Some_0;
            let n = list[i];
            let excess = n.addr + n.size - (addr + s);
            let after_alloc = if excess > 0 {
                list.remove(i).insert(0, Node { size: excess as u64, addr: (addr + s) as u64 })
            } else {
                list.remove(i)
            };
            let after_free = after_alloc.insert(0, Node { size: s, addr });
            spec_find(after_free, s, a) == Some((0int, addr))
        }),
{
    let (s, a) = spec_size_align(size, align);
    let (i, addr) = spec_find(list, s, a)->Some_0;
    lemma_spec_find_ok(list, s, a);
    let n = list[i];
    assert(8u64 > 0 && 8u64 & 7u64 == 0) by (bit_vector);
    lemma_align_up(n.addr, a);
    assert(addr == spec_align_up(n.addr, a));
    assert(addr & ((a - 1) as u64) == 0);
    let excess = n.addr + n.size - (addr + s);
    let after_alloc = if excess > 0 {
        list.remove(i).insert(0, Node { size: excess as u64, addr: (addr + s) as u64 })
    } else {
        list.remove(i)
    };
    let after_free = after_alloc.insert(0, Node { size: s, addr });
    let head = Node { size: s, addr };
    assert(after_free[0] == head);
    assert(head.addr + a - 1 <= u64::MAX);
    lemma_align_up(head.addr, a);
    assert(spec_align_up(head.addr, a) == head.addr);
    assert(spec_can_hold(head, s, a) == Ok::<u64, ()>(addr));
}

/// On a freshly carved heap of `heap_size` bytes (a multiple of the
/// allocation unit), any request of at most `heap_size - NODE_SIZE` bytes
/// with an alignment no stricter than the carve alignment fits in the single
/// free block, at its very start.
pub proof fn lemma_fresh_heap_alloc_succeeds(start: u64, heap_size: u64, size: u64, align: u64)
    requires
        start & 15 == 0,
        start > 0,
        heap_size % NODE_SIZE == 0,
        heap_size >= NODE_SIZE,
        start + heap_size <= u64::MAX,
        is_pow2(align),
        align <= NODE_SIZE,
        size <= heap_size - NODE_SIZE,
    ensures
        ({
            let (s, a) = spec_size_align(size, align);
            spec_find(seq![Node { size: heap_size, addr: start }], s, a) == Some((0int, start))
        }),
{
    let (s, a) = spec_size_align(size, align);
    let n = Node { size: heap_size, addr: start };
    assert(a <= 16 && a >= 8 && is_pow2(a)) by {
        assert(8u64 > 0 && 8u64 & 7u64 == 0) by (bit_vector);
    }
    lemma_align_up(size, a);
    let padded = spec_align_up(size, a);
    assert((a > 0 && a & ((a - 1) as u64) == 0 && a <= 16 && heap_size & 15u64 == 0 && 16
        <= heap_size && heap_size % 16u64 == 0 && size <= heap_size - 16) ==> ((size + ((a
        - 1) as u64)) as u64) & !((a - 1) as u64) <= heap_size - 16) by (bit_vector);
    assert(heap_size & 15u64 == 0) by {
        assert(heap_size % 16u64 == 0 ==> heap_size & 15u64 == 0) by (bit_vector);
    }
    assert(padded <= heap_size - 16);
    assert(s == if padded < 16 { 16u64 } else { padded });
    assert(s <= heap_size - 16 || (s == 16 && heap_size == 16));
    assert(start & ((a - 1) as u64) == 0) by {
        assert((start & 15u64 == 0 && a > 0 && a & ((a - 1) as u64) == 0 && a <= 16) ==> start & ((
        a - 1) as u64) == 0) by (bit_vector);
    }
    assert(start + a - 1 <= u64::MAX);
    lemma_align_up(start, a);
    assert(spec_align_up(start, a) == start);
    assert(spec_can_hold(n, s, a) == Ok::<u64, ()>(start));
}

} // verus!
