use kmem::addr::{Frame, IterPage, Page, align_down, align_up, count_pages};
use kmem::frames::{FRAME_ADDR_MASK, FrameSupply};
use kmem::paging::{
    ALL_FLAG_BITS, Entry, EntryFlags, FLAG_NO_EXECUTE, FLAG_PRESENT, FLAG_WRITABLE, MapToError,
    PageTable, TableArena, allocate_pml4, translate,
};

const PAGE: u64 = 4096;

fn supply_with(n: u64) -> FrameSupply {
    let mut frames = Vec::new();
    let mut i: u64 = 0;
    while i < n {
        frames.push(0x1000_0000 + i * PAGE);
        i += 1;
    }
    FrameSupply { frames }
}

fn flags(bits: u64) -> EntryFlags {
    EntryFlags::from_bits_truncate(bits)
}

#[test]
fn align_helpers_round_as_expected() {
    assert_eq!(align_down(0x2fff, 4096), 0x2000);
    assert_eq!(align_down(0x3000, 4096), 0x3000);
    assert_eq!(align_up(0x2001, 4096), 0x3000);
    assert_eq!(align_up(0x3000, 4096), 0x3000);
    assert_eq!(align_up(13, 16), 16);
}

#[test]
fn containing_address_of_aligned_address_is_identity() {
    let p = Page::containing_address(0x2000);
    assert_eq!(p.start_address, 0x2000);
}

#[test]
fn containing_address_rounds_down_within_page() {
    let a = Page::containing_address(0x2000);
    assert_eq!(Page::containing_address(0x2001).start_address, a.start_address);
    assert_eq!(Page::containing_address(0x2fff).start_address, a.start_address);
    assert_eq!(Page::containing_address(0x3000).start_address, 0x3000);
}

#[test]
fn frame_containing_address_rounds_down() {
    let f = Frame::containing_address(0xdead_beef);
    assert_eq!(f.start_address, 0xdead_b000);
}

#[test]
fn iter_single_page_yields_exactly_one() {
    let p = Page { start_address: 0x5000 };
    let mut it = Page::iter_pages(p, p);
    assert_eq!(it.next(), Some(p));
    assert_eq!(it.next(), None);
}

#[test]
fn iter_at_top_of_address_space_terminates() {
    let top = u64::MAX - (PAGE - 1);
    let start = Page { start_address: top - 2 * PAGE };
    let end = Page { start_address: top };
    let mut it = Page::iter_pages(start, end);
    assert_eq!(it.next(), Some(Page { start_address: top - 2 * PAGE }));
    assert_eq!(it.next(), Some(Page { start_address: top - PAGE }));
    assert_eq!(it.next(), Some(Page { start_address: top }));
    assert_eq!(it.next(), None);
    assert_eq!(count_pages(Page::iter_pages(start, end)), 3);
}

#[test]
fn count_pages_over_small_range() {
    let it = IterPage {
        start: Page { start_address: 0x1000 },
        end: Page { start_address: 0x3000 },
    };
    assert_eq!(count_pages(it), 3);
}

#[test]
fn entry_round_trips_flags_and_frame() {
    let fl = flags(FLAG_PRESENT | FLAG_WRITABLE | FLAG_NO_EXECUTE);
    let e = Entry::new(fl, 0xdead_b000);
    assert_eq!(e.flags().bits, FLAG_PRESENT | FLAG_WRITABLE | FLAG_NO_EXECUTE);
    assert_eq!(e.frame(), Some(Frame { start_address: 0xdead_b000 }));
}

#[test]
fn absent_entry_has_no_frame() {
    let e = Entry::new(flags(FLAG_WRITABLE), 0xdead_b000);
    assert_eq!(e.frame(), None);
    assert_eq!(Entry(0).frame(), None);
}

#[test]
fn entry_set_overwrites_word() {
    let mut e = Entry(0);
    e.set(flags(FLAG_PRESENT), 0x4000);
    assert_eq!(e.0, 0x4001);
}

#[test]
fn flags_truncate_undefined_bits() {
    assert_eq!(EntryFlags::from_bits_truncate(u64::MAX).bits, ALL_FLAG_BITS);
    assert_eq!(EntryFlags::empty().bits, 0);
    let f = flags(FLAG_PRESENT).union(flags(FLAG_WRITABLE));
    assert!(f.contains(flags(FLAG_PRESENT)));
    assert!(f.contains(flags(FLAG_WRITABLE)));
    assert!(!f.contains(flags(FLAG_NO_EXECUTE)));
}

#[test]
fn translate_splits_the_standard_way() {
    let va = (1u64 << 39) | (2u64 << 30) | (3u64 << 21) | (4u64 << 12) | 0x123;
    let (off, l1, l2, l3, l4) = translate(va);
    assert_eq!(off, 0x123);
    assert_eq!(l1, 4);
    assert_eq!(l2, 3);
    assert_eq!(l3, 2);
    assert_eq!(l4, 1);
}

#[test]
fn map_then_walk_reports_frame_and_flags() {
    let mut root = PageTable::new();
    let mut arena = TableArena::new();
    let mut supply = supply_with(8);
    let fl = flags(FLAG_PRESENT | FLAG_WRITABLE);
    let frame = Frame { start_address: 0x5555_5000 };
    let page = Page { start_address: 0x1000 };
    root.map_to(page, frame, fl, &mut arena, &mut supply).unwrap();
    let leaf = root.lookup(0x1000, &arena).expect("leaf entry");
    assert_eq!(leaf.frame(), Some(frame));
    assert!(leaf.flags().contains(fl));
    // Three intermediate tables were taken from the supply.
    assert_eq!(supply.frames.len(), 5);
}

#[test]
fn shared_intermediate_tables_are_reused_and_neither_mapping_corrupts() {
    let mut root = PageTable::new();
    let mut arena = TableArena::new();
    let mut supply = supply_with(8);
    let fl = flags(FLAG_PRESENT | FLAG_WRITABLE);
    let f1 = Frame { start_address: 0x5555_5000 };
    let f2 = Frame { start_address: 0x6666_6000 };
    root.map_to(Page { start_address: 0x1000 }, f1, fl, &mut arena, &mut supply).unwrap();
    let left = supply.frames.len();
    root.map_to(Page { start_address: 0x2000 }, f2, fl, &mut arena, &mut supply).unwrap();
    // The second map allocated no new table.
    assert_eq!(supply.frames.len(), left);
    assert_eq!(arena.l3.slots.len(), 1);
    assert_eq!(arena.l2.slots.len(), 1);
    assert_eq!(arena.l1.slots.len(), 1);
    let leaf1 = root.lookup(0x1000, &arena).expect("first leaf");
    let leaf2 = root.lookup(0x2000, &arena).expect("second leaf");
    assert_eq!(leaf1.frame(), Some(f1));
    assert_eq!(leaf2.frame(), Some(f2));
}

#[test]
fn remapping_a_page_replaces_the_frame() {
    let mut root = PageTable::new();
    let mut arena = TableArena::new();
    let mut supply = supply_with(8);
    let fl = flags(FLAG_PRESENT | FLAG_WRITABLE);
    let f1 = Frame { start_address: 0x5555_5000 };
    let f2 = Frame { start_address: 0x6666_6000 };
    root.map_to(Page { start_address: 0x1000 }, f1, fl, &mut arena, &mut supply).unwrap();
    root.map_to(Page { start_address: 0x1000 }, f2, fl, &mut arena, &mut supply).unwrap();
    let leaf = root.lookup(0x1000, &arena).expect("leaf");
    assert_eq!(leaf.frame(), Some(f2));
}

#[test]
fn mapping_without_present_is_invisible_to_the_walk() {
    let mut root = PageTable::new();
    let mut arena = TableArena::new();
    let mut supply = supply_with(8);
    let fl = flags(FLAG_WRITABLE);
    let r = root.map_to(
        Page { start_address: 0x1000 },
        Frame { start_address: 0x5555_5000 },
        fl,
        &mut arena,
        &mut supply,
    );
    assert_eq!(r, Ok(()));
    // The intermediate entries were written without PRESENT, so the hardware
    // walk stops at the root.
    assert_eq!(root.lookup(0x1000, &arena), None);
}

#[test]
fn map_with_exhausted_supply_fails() {
    let mut root = PageTable::new();
    let mut arena = TableArena::new();
    let mut supply = FrameSupply::new();
    let fl = flags(FLAG_PRESENT | FLAG_WRITABLE);
    let r = root.map_to(
        Page { start_address: 0x1000 },
        Frame { start_address: 0x5555_5000 },
        fl,
        &mut arena,
        &mut supply,
    );
    assert_eq!(r, Err(MapToError::FrameAllocationFailed));
    assert_eq!(root.lookup(0x1000, &arena), None);
}

#[test]
fn lookup_on_empty_root_finds_nothing() {
    let root = PageTable::new();
    let arena = TableArena::new();
    assert_eq!(root.lookup(0x1000, &arena), None);
}

#[test]
fn zeroize_clears_all_entries() {
    let mut t = PageTable::new();
    t.entries[7] = Entry(0xabc1);
    t.zeroize();
    assert_eq!(t.entries[7].0, 0);
    assert_eq!(t.entries.len(), 512);
}

#[test]
fn copy_higher_half_aliases_kernel_entries() {
    let mut current = PageTable::new();
    current.entries[256] = Entry::new(flags(FLAG_PRESENT), 0x7000_0000);
    current.entries[300] = Entry::new(flags(FLAG_PRESENT | FLAG_WRITABLE), 0x7100_0000);
    current.entries[0] = Entry::new(flags(FLAG_PRESENT), 0x7200_0000);
    let mut fresh = PageTable::new();
    fresh.copy_higher_half(&current);
    assert_eq!(fresh.entries[256], current.entries[256]);
    assert_eq!(fresh.entries[300], current.entries[300]);
    assert_eq!(fresh.entries[0].0, 0);
}

#[test]
fn allocate_pml4_takes_a_frame_and_copies_higher_half() {
    let mut current = PageTable::new();
    current.entries[256] = Entry::new(flags(FLAG_PRESENT), 0x7000_0000);
    let mut supply = supply_with(2);
    let top = supply.frames[supply.frames.len() - 1];
    let (addr, table) = allocate_pml4(&current, &mut supply).unwrap();
    assert_eq!(addr, top);
    assert_eq!(supply.frames.len(), 1);
    assert_eq!(table.entries[256], current.entries[256]);
    assert_eq!(table.entries[0].0, 0);
}

#[test]
fn allocate_pml4_fails_without_frames() {
    let current = PageTable::new();
    let mut supply = FrameSupply::new();
    let r = allocate_pml4(&current, &mut supply);
    assert!(matches!(r, Err(MapToError::FrameAllocationFailed)));
}

#[test]
fn free_returns_every_frame_of_the_private_half() {
    let mut root = PageTable::new();
    let mut arena = TableArena::new();
    let mut supply = supply_with(10);
    let fl = flags(FLAG_PRESENT | FLAG_WRITABLE);
    let data = Frame { start_address: 0x5555_5000 };
    root.map_to(Page { start_address: 0x1000 }, data, fl, &mut arena, &mut supply).unwrap();
    assert_eq!(supply.frames.len(), 7);
    let own = 0x2000_0000 & FRAME_ADDR_MASK;
    root.free(own, 4, &mut arena, &mut supply);
    // Three table frames, the data frame, and the root's own frame came back.
    assert_eq!(supply.frames.len(), 12);
    assert!(supply.frames.contains(&own));
    assert!(supply.frames.contains(&0x5555_5000));
    assert_eq!(arena.l3.slots.len(), 0);
    assert_eq!(arena.l2.slots.len(), 0);
    assert_eq!(arena.l1.slots.len(), 0);
}

#[test]
fn free_spares_the_shared_higher_half() {
    // A higher-half entry aliases a kernel table; tearing the space down
    // frees the private mapping but leaves the shared table alone.
    let mut root = PageTable::new();
    let mut arena = TableArena::new();
    let mut supply = supply_with(10);
    let fl = flags(FLAG_PRESENT | FLAG_WRITABLE);
    let kernel_table = PageTable::new();
    let kernel_addr: u64 = 0x7000_0000;
    arena.l3.insert(kernel_addr, kernel_table);
    root.entries[300] = Entry::new(flags(FLAG_PRESENT), kernel_addr);
    let data = Frame { start_address: 0x5555_5000 };
    root.map_to(Page { start_address: 0x1000 }, data, fl, &mut arena, &mut supply).unwrap();
    let own = 0x2000_0000 & FRAME_ADDR_MASK;
    root.free(own, 4, &mut arena, &mut supply);
    assert_eq!(arena.l3.slots.len(), 1);
    assert_eq!(arena.l3.slots[0].0, kernel_addr);
    assert!(!supply.frames.contains(&kernel_addr));
}

#[test]
fn supply_hands_frames_back_in_reverse_order() {
    let mut supply = supply_with(2);
    assert_eq!(
        supply.allocate_frame(),
        Some(Frame { start_address: 0x1000_0000 + PAGE })
    );
    assert_eq!(supply.allocate_frame(), Some(Frame { start_address: 0x1000_0000 }));
    assert_eq!(supply.allocate_frame(), None);
    supply.deallocate_frame(Frame { start_address: 0x1000_0000 });
    supply.deallocate_frame(Frame { start_address: 0x1000_0000 });
    assert_eq!(supply.frames.len(), 1);
}
