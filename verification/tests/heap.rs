use kmem::allocator::{EXTEND_BYTES, LinkedListAllocator, Node, size_align};
use kmem::frames::FrameSupply;
use kmem::paging::{PageTable, TableArena};

const PAGE: u64 = 4096;

fn supply_with(n: u64) -> FrameSupply {
    let mut frames = Vec::new();
    let mut i: u64 = 0;
    while i < n {
        frames.push(0x1000_0000 + i * PAGE);
        i += 1;
    }
    FrameSupply { frames }
}

struct Ctx {
    root: PageTable,
    arena: TableArena,
    supply: FrameSupply,
}

fn ctx(frames: u64) -> Ctx {
    Ctx { root: PageTable::new(), arena: TableArena::new(), supply: supply_with(frames) }
}

#[test]
fn size_align_normalises_requests() {
    // Alignment is raised to the link alignment, size to one whole link.
    assert_eq!(size_align(5, 1), (16, 8));
    // Size is padded to a multiple of the effective alignment.
    assert_eq!(size_align(17, 8), (24, 8));
    // A stricter alignment is kept.
    assert_eq!(size_align(100, 64), (128, 64));
    // A zero-size request still reserves room for a link.
    assert_eq!(size_align(0, 32), (16, 32));
}

#[test]
fn node_accessors() {
    let n = Node { size: 64, addr: 0x1000 };
    assert_eq!(n.start_addr(), 0x1000);
    assert_eq!(n.end_addr(), 0x1040);
    let fresh = Node::new(32);
    assert_eq!(fresh.size, 32);
    assert_eq!(fresh.addr, 0);
}

#[test]
fn can_hold_exact_fit() {
    let n = Node { size: 64, addr: 0x1000 };
    assert_eq!(n.can_hold(64, 8), Ok(0x1000));
}

#[test]
fn can_hold_rejects_small_leftover() {
    let n = Node { size: 64, addr: 0x1000 };
    // 8 leftover bytes could never host a free-list link.
    assert_eq!(n.can_hold(56, 8), Err(()));
    // 16 leftover bytes can.
    assert_eq!(n.can_hold(48, 8), Ok(0x1000));
}

#[test]
fn can_hold_rejects_oversized_request() {
    let n = Node { size: 64, addr: 0x1000 };
    assert_eq!(n.can_hold(128, 8), Err(()));
}

#[test]
fn can_hold_aligns_the_start() {
    let n = Node { size: 64, addr: 0x1008 };
    assert_eq!(n.can_hold(32, 16), Ok(0x1010));
}

#[test]
fn init_carves_one_spanning_block() {
    let mut heap = LinkedListAllocator::new();
    assert_eq!(heap.heap_end, 0);
    heap.init(0x10_0000, 1024);
    assert_eq!(heap.heap_end, 0x10_0000 + 1024);
    assert_eq!(heap.free.len(), 1);
    assert_eq!(heap.free[0], Node { size: 1024, addr: 0x10_0000 });
}

#[test]
fn init_aligns_an_odd_start_up() {
    let mut heap = LinkedListAllocator::new();
    heap.init(0x10_0004, 1024);
    assert_eq!(heap.heap_end, 0x10_0004 + 1024);
    assert_eq!(heap.free[0], Node { size: 1024 - 12, addr: 0x10_0010 });
}

#[test]
fn fresh_heap_serves_all_but_one_link() {
    let mut heap = LinkedListAllocator::new();
    heap.init(0x10_0000, 1024);
    let mut c = ctx(0);
    let r = heap.alloc_mut(1024 - 16, 8, &mut c.root, &mut c.arena, &mut c.supply);
    assert_eq!(r, 0x10_0000);
    assert_eq!(heap.free.len(), 1);
    assert_eq!(heap.free[0], Node { size: 16, addr: 0x10_0000 + 1008 });
}

#[test]
fn oversized_request_with_no_growth_returns_null() {
    let mut heap = LinkedListAllocator::new();
    heap.init(0x10_0000, 1024);
    let mut c = ctx(0);
    let r = heap.alloc_mut(2048, 8, &mut c.root, &mut c.arena, &mut c.supply);
    assert_eq!(r, 0);
    assert_eq!(heap.heap_end, 0x10_0000 + 1024);
    assert_eq!(heap.free.len(), 1);
}

#[test]
fn alloc_dealloc_alloc_reuses_the_same_region() {
    let mut heap = LinkedListAllocator::new();
    heap.init(0x10_0000, 4096);
    let mut c = ctx(0);
    let a = heap.alloc_mut(64, 8, &mut c.root, &mut c.arena, &mut c.supply);
    assert_ne!(a, 0);
    heap.dealloc_mut(a, 64, 8);
    let b = heap.alloc_mut(64, 8, &mut c.root, &mut c.arena, &mut c.supply);
    assert_eq!(b, a);
}

#[test]
fn first_fit_reuses_a_freed_hole_before_extending() {
    let mut heap = LinkedListAllocator::new();
    heap.init(0x10_0000, 4096);
    let mut c = ctx(0);
    let a = heap.alloc_mut(64, 8, &mut c.root, &mut c.arena, &mut c.supply);
    let b = heap.alloc_mut(128, 8, &mut c.root, &mut c.arena, &mut c.supply);
    assert_eq!(a, 0x10_0000);
    assert_eq!(b, 0x10_0000 + 64);
    heap.dealloc_mut(a, 64, 8);
    let heap_end = heap.heap_end;
    let c_addr = heap.alloc_mut(64, 8, &mut c.root, &mut c.arena, &mut c.supply);
    assert_eq!(c_addr, a);
    assert_eq!(heap.heap_end, heap_end);
}

#[test]
fn alloc_honours_alignment() {
    let mut heap = LinkedListAllocator::new();
    heap.init(0x10_0008, 4096);
    let mut c = ctx(0);
    let a = heap.alloc_mut(10, 64, &mut c.root, &mut c.arena, &mut c.supply);
    assert_ne!(a, 0);
    assert_eq!(a % 64, 0);
}

#[test]
fn extend_with_exhausted_supply_fails_cleanly() {
    let mut heap = LinkedListAllocator::new();
    heap.init(0x10_0000, 1024);
    let mut c = ctx(0);
    let free_before = heap.free.clone();
    let end_before = heap.heap_end;
    let r = heap.extend_heap(&mut c.root, &mut c.arena, &mut c.supply);
    assert_eq!(r, Err(()));
    assert_eq!(heap.heap_end, end_before);
    assert_eq!(heap.free, free_before);
}

#[test]
fn extend_maps_and_inserts_one_extension_block() {
    let mut heap = LinkedListAllocator::new();
    let mut c = ctx(300);
    let r = heap.extend_heap(&mut c.root, &mut c.arena, &mut c.supply);
    assert_eq!(r, Ok(()));
    assert_eq!(heap.free.len(), 1);
    assert_eq!(heap.free[0], Node { size: EXTEND_BYTES, addr: PAGE });
    assert_eq!(heap.heap_end, EXTEND_BYTES + PAGE);
    // Every page of the extension is mapped.
    assert!(c.root.lookup(PAGE, &c.arena).is_some());
    assert!(c.root.lookup(EXTEND_BYTES, &c.arena).is_some());
}

#[test]
fn two_extensions_coalesce_into_one_block() {
    let mut heap = LinkedListAllocator::new();
    let mut c = ctx(300);
    heap.extend_heap(&mut c.root, &mut c.arena, &mut c.supply).unwrap();
    heap.extend_heap(&mut c.root, &mut c.arena, &mut c.supply).unwrap();
    assert_eq!(heap.free.len(), 1);
    assert_eq!(heap.free[0].size, 2 * EXTEND_BYTES);
}

#[test]
fn a_fragment_is_not_merged_with_an_extension() {
    let mut heap = LinkedListAllocator::new();
    // A block whose size is no multiple of one extension sits behind the
    // fresh extension block and must stay separate.
    heap.init(0x7000_0000, 1024);
    heap.heap_end = 0x8000_0000;
    let mut c = ctx(300);
    heap.extend_heap(&mut c.root, &mut c.arena, &mut c.supply).unwrap();
    assert_eq!(heap.free.len(), 2);
    assert_eq!(heap.free[0].size, EXTEND_BYTES);
    assert_eq!(heap.free[1], Node { size: 1024, addr: 0x7000_0000 });
}

#[test]
fn growth_serves_an_allocation_that_did_not_fit() {
    let mut heap = LinkedListAllocator::new();
    heap.init(0x10_0000, 1024);
    let mut c = ctx(300);
    let r = heap.alloc_mut(8192, 8, &mut c.root, &mut c.arena, &mut c.supply);
    assert_ne!(r, 0);
    assert!(heap.heap_end > 0x10_0000 + 1024);
}
