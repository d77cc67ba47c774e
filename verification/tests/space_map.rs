//! Address-space construction, mapping, lookup, the register encoding,
//! and cross-space reads.
use zihai_mm::{
    get_satp_sv39, translate_frame_read, AddressSpaceId, FrameBox, MapError, PageError, PageLevel,
    PagedAddrSpace, PhysAddr, PhysPageNum, StackFrameAllocator, Sv39, Sv39Flags, Sv39PageEntry,
    Sv39x4, VirtAddr, VirtPageNum,
};

fn rwx() -> Sv39Flags {
    Sv39Flags::readable()
        .union(Sv39Flags::writable())
        .union(Sv39Flags::executable())
}

fn table_allocator() -> StackFrameAllocator {
    StackFrameAllocator::new(PhysPageNum(0x80400), PhysPageNum(0x80800))
}

#[test]
fn fresh_space_has_nothing_mapped() {
    let mut alloc = table_allocator();
    let space: PagedAddrSpace<Sv39> = PagedAddrSpace::try_new_in(Sv39, &mut alloc).unwrap();
    assert!(matches!(
        space.find_ppn(VirtPageNum(0x80000)),
        Err(PageError::InvalidEntry)
    ));
}

#[test]
fn space_creation_fails_without_frames() {
    let mut alloc = StackFrameAllocator::new(PhysPageNum(7), PhysPageNum(7));
    let r: Result<PagedAddrSpace<Sv39>, _> = PagedAddrSpace::try_new_in(Sv39, &mut alloc);
    assert!(r.is_err());
}

#[test]
fn map_then_find_every_page() {
    // after a successful mapping, looking up each covered page returns a
    // leaf whose physical page continues the contiguous physical range
    let mut alloc = table_allocator();
    let mut space: PagedAddrSpace<Sv39> = PagedAddrSpace::try_new_in(Sv39, &mut alloc).unwrap();
    let vpn = VirtPageNum(0x90000);
    let ppn = PhysPageNum(0x50000);
    space.allocate_map(vpn, ppn, 4, rwx(), &mut alloc).unwrap();
    for k in 0..4u64 {
        let (entry, level) = space.find_ppn(VirtPageNum(vpn.0 + k)).unwrap();
        assert_eq!(level, PageLevel(0));
        assert_eq!(entry.ppn(), PhysPageNum(ppn.0 + k));
        assert!(entry.flags().contains(Sv39Flags::valid()));
        assert!(entry.flags().contains(Sv39Flags::readable()));
    }
    assert!(matches!(
        space.find_ppn(VirtPageNum(vpn.0 + 4)),
        Err(PageError::InvalidEntry)
    ));
}

#[test]
fn map_superpage_and_find_inside_it() {
    let mut alloc = table_allocator();
    let mut space: PagedAddrSpace<Sv39> = PagedAddrSpace::try_new_in(Sv39, &mut alloc).unwrap();
    // both starts aligned to one level-1 superpage, count exactly one
    let vpn = VirtPageNum(512 * 9);
    let ppn = PhysPageNum(512 * 21);
    space.allocate_map(vpn, ppn, 512, rwx(), &mut alloc).unwrap();
    let (entry, level) = space.find_ppn(VirtPageNum(vpn.0 + 37)).unwrap();
    assert_eq!(level, PageLevel(1), "covered by one superpage leaf");
    assert_eq!(entry.ppn(), ppn, "the leaf stores the block base");
}

#[test]
fn mapping_same_page_twice_fails_without_overwriting() {
    let mut alloc = table_allocator();
    let mut space: PagedAddrSpace<Sv39> = PagedAddrSpace::try_new_in(Sv39, &mut alloc).unwrap();
    let vpn = VirtPageNum(0x90000);
    space
        .allocate_map(vpn, PhysPageNum(0x50000), 2, rwx(), &mut alloc)
        .unwrap();
    let again = space.allocate_map(vpn, PhysPageNum(0x60000), 2, rwx(), &mut alloc);
    assert_eq!(
        again,
        Err(MapError::AlreadyMapped),
        "mapping the same virtual page twice fails as the contract violation it is"
    );
    let (entry, _) = space.find_ppn(vpn).unwrap();
    assert_eq!(
        entry.ppn(),
        PhysPageNum(0x50000),
        "the first mapping is untouched"
    );
}

#[test]
fn mapping_fails_when_allocator_is_exhausted() {
    // one frame only: the root consumes it, and the first mapping that
    // needs an intermediate table fails with the allocator's error
    let mut alloc = StackFrameAllocator::new(PhysPageNum(0x300), PhysPageNum(0x301));
    let mut space: PagedAddrSpace<Sv39> = PagedAddrSpace::try_new_in(Sv39, &mut alloc).unwrap();
    let r = space.allocate_map(
        VirtPageNum(0x90000),
        PhysPageNum(0x50000),
        1,
        rwx(),
        &mut alloc,
    );
    assert!(matches!(r, Err(MapError::FrameAlloc(_))));
}

#[test]
fn satp_encoding() {
    let bits = get_satp_sv39(AddressSpaceId(1), PhysPageNum(0x80253));
    assert_eq!(bits, (8u64 << 60) | (1u64 << 44) | 0x80253);
    let bits = get_satp_sv39(AddressSpaceId(0), PhysPageNum(0));
    assert_eq!(bits, 8u64 << 60);
}

#[test]
fn entry_encoding_round_trip() {
    let mut entry = Sv39PageEntry { bits: 0 };
    entry.write_ppn_flags(PhysPageNum(0xABCDE), rwx().union(Sv39Flags::valid()));
    assert_eq!(entry.ppn(), PhysPageNum(0xABCDE));
    assert_eq!(entry.flags().bits(), 0xF);
    assert_eq!(entry.bits, (0xABCDEu64 << 10) | 0xF);
}

#[test]
fn addresses_and_page_numbers() {
    assert_eq!(
        PhysAddr(0x80400000).page_number::<Sv39>(),
        PhysPageNum(0x80400)
    );
    assert_eq!(
        VirtAddr(0x80401234).page_number::<Sv39>(),
        VirtPageNum(0x80401)
    );
    assert_eq!(VirtAddr(0x80401234).page_offset::<Sv39>(PageLevel(0)), 0x234);
    assert_eq!(
        VirtAddr(0x80401234).page_offset::<Sv39>(PageLevel(1)),
        0x1234
    );
    assert_eq!(
        PhysPageNum(0x80400).addr_begin::<Sv39>(),
        PhysAddr(0x80400000)
    );
    assert_eq!(PhysPageNum(7).next_page(), PhysPageNum(8));
    assert!(PhysPageNum(7).is_within_range(PhysPageNum(7), PhysPageNum(8)));
    assert!(!PhysPageNum(8).is_within_range(PhysPageNum(7), PhysPageNum(8)));
    assert_eq!(
        VirtPageNum(100).next_page_by_level::<Sv39>(PageLevel(1)),
        VirtPageNum(612)
    );
}

#[test]
fn translate_across_two_leaf_pages() {
    // a read split across two base pages: one fragment per physically
    // contiguous piece, ascending, lengths adding up exactly
    let mut alloc = table_allocator();
    let mut space: PagedAddrSpace<Sv39> = PagedAddrSpace::try_new_in(Sv39, &mut alloc).unwrap();
    let vpn = VirtPageNum(0x90000);
    let ppn = PhysPageNum(0x50000);
    space.allocate_map(vpn, ppn, 4, rwx(), &mut alloc).unwrap();
    let vaddr = VirtAddr((0x90000u64 << 12) + 100);
    let frags = translate_frame_read(&space, vaddr, 8000).unwrap();
    assert_eq!(frags.len(), 2);
    assert_eq!(frags[0], (PhysPageNum(0x50000), 100, 3996));
    assert_eq!(frags[1], (PhysPageNum(0x50001), 0, 4004));
    let total: u64 = frags.iter().map(|f| f.2).sum();
    assert_eq!(total, 8000);
}

#[test]
fn translate_unmapped_range_fails() {
    let mut alloc = table_allocator();
    let mut space: PagedAddrSpace<Sv39> = PagedAddrSpace::try_new_in(Sv39, &mut alloc).unwrap();
    space
        .allocate_map(VirtPageNum(0x90000), PhysPageNum(0x50000), 1, rwx(), &mut alloc)
        .unwrap();
    // the second page of the range is unmapped
    let vaddr = VirtAddr(0x90000u64 << 12);
    let r = translate_frame_read(&space, vaddr, 2 * 4096);
    assert!(matches!(r, Err(PageError::InvalidEntry)));
    // a zero-length read touches nothing
    let empty = translate_frame_read(&space, VirtAddr(0x123456), 0).unwrap();
    assert!(empty.is_empty());
}

#[test]
fn second_stage_space_uses_wider_root() {
    // a guest-physical page whose root index needs the two extra bits of
    // the second-stage scheme's 2048-slot root table
    let mut alloc = table_allocator();
    let mut space: PagedAddrSpace<Sv39x4> = PagedAddrSpace::try_new_in(Sv39x4, &mut alloc).unwrap();
    let vpn = VirtPageNum(1536u64 << 18 | 5);
    let ppn = PhysPageNum(0x41000);
    space.allocate_map(vpn, ppn, 2, rwx(), &mut alloc).unwrap();
    let (entry, level) = space.find_ppn(VirtPageNum(vpn.0 + 1)).unwrap();
    assert_eq!(level, PageLevel(0));
    assert_eq!(entry.ppn(), PhysPageNum(0x41001));
    assert!(matches!(
        space.find_ppn(VirtPageNum(vpn.0 + 2)),
        Err(PageError::InvalidEntry)
    ));
}

#[test]
fn frame_box_owns_and_releases_once() {
    let mut alloc = StackFrameAllocator::new(PhysPageNum(40), PhysPageNum(44));
    let b = FrameBox::try_new_in(&mut alloc).unwrap();
    let p = b.phys_page_num();
    assert_eq!(p, PhysPageNum(40));
    b.release(&mut alloc);
    // the released frame re-enters the pool and comes back first
    assert_eq!(alloc.allocate_frame(), Ok(p));
}

#[test]
fn releasing_a_space_returns_every_frame() {
    let mut alloc = StackFrameAllocator::new(PhysPageNum(0x300), PhysPageNum(0x320));
    let mut space: PagedAddrSpace<Sv39> = PagedAddrSpace::try_new_in(Sv39, &mut alloc).unwrap();
    space
        .allocate_map(VirtPageNum(0x90000), PhysPageNum(0x50000), 4, rwx(), &mut alloc)
        .unwrap();
    space.release_frames(&mut alloc);
    // no frame is both in use and free: the whole region can be handed
    // out again, once per page
    let mut count = 0u64;
    while alloc.allocate_frame().is_ok() {
        count += 1;
    }
    assert_eq!(count, 0x20);
}

#[test]
fn root_page_number_reports_root_frame() {
    let mut alloc = table_allocator();
    let space: PagedAddrSpace<Sv39> = PagedAddrSpace::try_new_in(Sv39, &mut alloc).unwrap();
    assert_eq!(space.root_page_number(), PhysPageNum(0x80400));
}
