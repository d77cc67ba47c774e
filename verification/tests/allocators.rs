//! Frame and address-space-identifier allocator behaviour.
use zihai_mm::{
    AddressSpaceId, AsidAllocError, FrameAllocError, PhysPageNum, StackAsidAllocator,
    StackFrameAllocator,
};

#[test]
fn test_frame_alloc() {
    let from = PhysPageNum(0x80000);
    let to = PhysPageNum(0x100000);
    let mut alloc = StackFrameAllocator::new(from, to);
    let f1 = alloc.allocate_frame();
    assert_eq!(f1, Ok(PhysPageNum(0x80000)), "first allocation");
    let f2 = alloc.allocate_frame();
    assert_eq!(f2, Ok(PhysPageNum(0x80001)), "second allocation");
    alloc.deallocate_frame(f1.unwrap());
    let f3 = alloc.allocate_frame();
    assert_eq!(
        f3,
        Ok(PhysPageNum(0x80000)),
        "after free first, third allocation"
    );
}

#[test]
fn frame_alloc_no_double_issue() {
    // a page handed out is never handed out again until deallocated
    let mut alloc = StackFrameAllocator::new(PhysPageNum(10), PhysPageNum(14));
    let a = alloc.allocate_frame().unwrap();
    let b = alloc.allocate_frame().unwrap();
    let c = alloc.allocate_frame().unwrap();
    assert!(a != b && b != c && a != c);
    alloc.deallocate_frame(b);
    let d = alloc.allocate_frame().unwrap();
    assert_eq!(d, b, "recycled page is preferred");
    let e = alloc.allocate_frame().unwrap();
    assert!(e != a && e != d);
}

#[test]
fn frame_alloc_exhaustion_fails() {
    // allocating past the configured region end with nothing recycled fails
    let mut alloc = StackFrameAllocator::new(PhysPageNum(5), PhysPageNum(7));
    assert_eq!(alloc.allocate_frame(), Ok(PhysPageNum(5)));
    assert_eq!(alloc.allocate_frame(), Ok(PhysPageNum(6)));
    assert_eq!(alloc.allocate_frame(), Err(FrameAllocError));
    alloc.deallocate_frame(PhysPageNum(6));
    assert_eq!(alloc.allocate_frame(), Ok(PhysPageNum(6)));
    assert_eq!(alloc.allocate_frame(), Err(FrameAllocError));
}

#[test]
fn frame_dealloc_unallocated_is_refused() {
    // a page still in the untouched region was never allocated; taking it
    // back must not silently succeed
    let mut alloc = StackFrameAllocator::new(PhysPageNum(100), PhysPageNum(200));
    assert!(!alloc.try_deallocate_frame(PhysPageNum(150)));
    let a = alloc.allocate_frame().unwrap();
    assert!(alloc.try_deallocate_frame(a));
    // and a second return of the same page is a double free
    assert!(!alloc.try_deallocate_frame(a));
    // the refused calls changed nothing: the next watermark page is still 101
    assert_eq!(alloc.allocate_frame(), Ok(a));
    assert_eq!(alloc.allocate_frame(), Ok(PhysPageNum(101)));
}

#[test]
fn test_asid_alloc() {
    let max_asid = AddressSpaceId(0xffff);
    let mut alloc = StackAsidAllocator::new(max_asid);
    let a1 = alloc.allocate_asid();
    assert_eq!(a1, Ok(AddressSpaceId(0)), "first allocation");
    let a2 = alloc.allocate_asid();
    assert_eq!(a2, Ok(AddressSpaceId(1)), "second allocation");
    alloc.deallocate_asid(a1.unwrap());
    let a3 = alloc.allocate_asid();
    assert_eq!(
        a3,
        Ok(AddressSpaceId(0)),
        "after free first one, third allocation"
    );
    for _ in 0..max_asid.0 - 2 {
        alloc.allocate_asid().unwrap();
    }
    let an = alloc.allocate_asid();
    assert_eq!(an, Ok(max_asid), "last asid");
    let an = alloc.allocate_asid();
    assert_eq!(an, Err(AsidAllocError), "when asid exhausted, allocate next");
    alloc.deallocate_asid(a2.unwrap());
    let an = alloc.allocate_asid();
    assert_eq!(
        an,
        Ok(AddressSpaceId(1)),
        "after free second one, allocate next"
    );
    let an = alloc.allocate_asid();
    assert_eq!(an, Err(AsidAllocError), "no asid remains, allocate next");
}

#[test]
fn asid_alloc_hardware_without_asids() {
    // probed maximum 0: only the reserved default tag ever exists
    let mut alloc = StackAsidAllocator::new(AddressSpaceId(0));
    let a1 = alloc.allocate_asid();
    assert_eq!(
        a1,
        Ok(AddressSpaceId(0)),
        "asid not implemented, first allocation"
    );
    let a2 = alloc.allocate_asid();
    assert_eq!(
        a2,
        Err(AsidAllocError),
        "asid not implemented, second allocation"
    );
}

#[test]
fn asid_alloc_walks_up_to_max_and_prefers_recycled() {
    let mut alloc = StackAsidAllocator::new(AddressSpaceId(3));
    assert_eq!(alloc.allocate_asid(), Ok(AddressSpaceId(0)));
    assert_eq!(alloc.allocate_asid(), Ok(AddressSpaceId(1)));
    assert_eq!(alloc.allocate_asid(), Ok(AddressSpaceId(2)));
    assert_eq!(alloc.allocate_asid(), Ok(AddressSpaceId(3)));
    assert_eq!(alloc.allocate_asid(), Err(AsidAllocError));
    alloc.deallocate_asid(AddressSpaceId(1));
    assert_eq!(
        alloc.allocate_asid(),
        Ok(AddressSpaceId(1)),
        "a freed tag comes back before any untouched tag"
    );
    assert_eq!(alloc.allocate_asid(), Err(AsidAllocError));
}

#[test]
fn asid_dealloc_out_of_range_is_refused() {
    let mut alloc = StackAsidAllocator::new(AddressSpaceId(4));
    assert!(!alloc.try_deallocate_asid(AddressSpaceId(7)));
    assert!(alloc.try_deallocate_asid(AddressSpaceId(2)));
    assert!(!alloc.try_deallocate_asid(AddressSpaceId(2)));
}

#[test]
fn asid_max_tag_can_be_freed_and_reused() {
    // the maximum tag is allocatable, so it is inside the valid range
    // and handing it back must be accepted
    let mut alloc = StackAsidAllocator::new(AddressSpaceId(2));
    assert_eq!(alloc.allocate_asid(), Ok(AddressSpaceId(0)));
    assert_eq!(alloc.allocate_asid(), Ok(AddressSpaceId(1)));
    assert_eq!(alloc.allocate_asid(), Ok(AddressSpaceId(2)));
    assert_eq!(alloc.allocate_asid(), Err(AsidAllocError));
    alloc.deallocate_asid(AddressSpaceId(2));
    assert_eq!(alloc.allocate_asid(), Ok(AddressSpaceId(2)));
    assert_eq!(alloc.allocate_asid(), Err(AsidAllocError));
}
