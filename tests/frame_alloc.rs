use armkernel::frame::LameFrameAllocator;
use armkernel::mem::{FrameAllocator, PhysicalAddress};

fn base(r: Option<PhysicalAddress>) -> Option<usize> {
    r.map(|p| p.0)
}

#[test]
fn alloc_miss_reserved() {
    let mut fa = LameFrameAllocator::new(vec![0x4000..0x8000], 0x100_0000);
    assert_eq!(base(fa.allocate(1)), Some(0x1000));
    assert_eq!(base(fa.allocate(1)), Some(0x2000));
    assert_eq!(base(fa.allocate(1)), Some(0x3000));
    assert_eq!(base(fa.allocate(2)), Some(0x8000));
    assert_eq!(base(fa.allocate(1)), Some(0xA000));
}

#[test]
fn allocations_come_back_to_back() {
    let mut fa = LameFrameAllocator::new(vec![], 0x100_0000);
    assert_eq!(base(fa.allocate(1)), Some(0x1000));
    assert_eq!(base(fa.allocate(3)), Some(0x2000));
    assert_eq!(base(fa.allocate(2)), Some(0x5000));
    assert_eq!(base(fa.allocate(1)), Some(0x7000));
}

#[test]
fn first_frame_is_never_frame_zero() {
    let mut fa = LameFrameAllocator::new(vec![], 0x10_0000);
    assert_eq!(base(fa.allocate(1)), Some(0x1000));
}

#[test]
fn adjacent_reserved_ranges_are_all_skipped() {
    let mut fa = LameFrameAllocator::new(vec![0x2000..0x3000, 0x3000..0x5000], 0x100_0000);
    assert_eq!(base(fa.allocate(1)), Some(0x1000));
    assert_eq!(base(fa.allocate(1)), Some(0x5000));
}

#[test]
fn later_range_pushes_back_to_earlier_check() {
    // The run at 0x1000 meets the second range; after jumping to 0x6000 it
    // meets the first range, which is checked again from the top.
    let mut fa = LameFrameAllocator::new(vec![0x6000..0x7000, 0x2000..0x6000], 0x100_0000);
    assert_eq!(base(fa.allocate(2)), Some(0x7000));
}

#[test]
fn allocation_past_the_end_fails_and_changes_nothing() {
    let mut fa = LameFrameAllocator::new(vec![], 0x3000);
    assert_eq!(base(fa.allocate(1)), Some(0x1000));
    assert_eq!(base(fa.allocate(2)), None);
    assert_eq!(base(fa.allocate(1)), Some(0x2000));
    assert_eq!(base(fa.allocate(1)), None);
}

#[test]
fn allocation_into_reserved_end_fails() {
    let mut fa = LameFrameAllocator::new(vec![0x1000..0x3000], 0x3000);
    assert_eq!(base(fa.allocate(1)), None);
}

#[test]
fn huge_request_fails() {
    let mut fa = LameFrameAllocator::new(vec![], 0x100_0000);
    assert_eq!(base(fa.allocate(usize::MAX / 2)), None);
    assert_eq!(base(fa.allocate(1)), Some(0x1000));
}

#[test]
fn deallocate_changes_nothing() {
    let mut fa = LameFrameAllocator::new(vec![], 0x100_0000);
    let p = fa.allocate(1).unwrap();
    fa.deallocate(p, 1);
    assert_eq!(base(fa.allocate(1)), Some(0x2000));
}
