use armkernel::frame::LameFrameAllocator;
use armkernel::machine::Machine;
use armkernel::mem::{MemoryMapper, MemorySize, PVMapper, PhysicalAddress, VirtualAddress};
use armkernel::paging::{
    boot_request_ok, build_mode_stacks, check_layout, get_init_frames, init_page_table, up, MemLayout, PageTable, L1_SELF,
};
use armkernel::desc::L2TableDescriptor;
use armkernel::mem::FrameAllocator;

fn layout() -> MemLayout {
    MemLayout {
        kernel_start_phy: PhysicalAddress(0x8000),
        kernel_start_virt: VirtualAddress(0x8000),
        kernel_end_virt: VirtualAddress(0x20000),
        stack_phy: PhysicalAddress(0x00F0_0FF0),
        stack_virt: VirtualAddress(0xD000_0FF0),
    }
}

fn boot_with_max(max: usize) -> Result<PageTable, ()> {
    let mut m = Machine::new(0x100_0000);
    m.set_ttb0(0x10000);
    let fa = LameFrameAllocator::new(vec![0x10000..0x15000], max);
    init_page_table(m, VirtualAddress(0x10000), VirtualAddress(0x14000), &layout(), fa)
}

fn boot() -> PageTable {
    boot_with_max(0x100_0000).unwrap()
}

fn v2p(pt: &PageTable, v: usize) -> Option<usize> {
    pt.v2p(VirtualAddress(v)).map(|p| p.0)
}

/// Boot tables above the allocator's memory, nothing reserved.
fn boot_unreserved() -> PageTable {
    let mut m = Machine::new(0x110_0000);
    m.set_ttb0(0x100_0000);
    let fa = LameFrameAllocator::new(vec![], 0x100_0000);
    assert!(boot_request_ok(&m, VirtualAddress(0x100_0000), VirtualAddress(0x100_4000), &layout(), &fa));
    init_page_table(m, VirtualAddress(0x100_0000), VirtualAddress(0x100_4000), &layout(), fa).unwrap()
}

#[test]
fn bootstrap_self_map() {
    let pt = boot_unreserved();
    assert_eq!(v2p(&pt, L1_SELF), Some(0x4000));
    let w = pt.read_word(VirtualAddress(L1_SELF)).unwrap();
    assert_eq!(Some(w), pt.read_phys_word(0x4000));
    assert_eq!(w, 0x8001);
    assert_eq!(pt.read_word(VirtualAddress(L1_SELF + 4 * 0xE00)), Some(0x1001));
    assert_eq!(v2p(&pt, 0xD000_0FF0), Some(0x00F0_0FF0));
}

#[test]
fn bootstrap_self_map_reserved_boot_tables() {
    let pt = boot();
    // First level in 0x4000..0x8000, self-map L2 in 0x1000.
    assert_eq!(v2p(&pt, L1_SELF), Some(0x4000));
    assert_eq!(v2p(&pt, L1_SELF + 4 * 4096), Some(0x1000));
    let w = pt.read_word(VirtualAddress(L1_SELF)).unwrap();
    assert_eq!(Some(w), pt.read_phys_word(0x4000));
    assert_eq!(w, 0x8001);
}

#[test]
fn self_map_covers_whole_first_level() {
    let pt = boot();
    for i in 0..4096usize {
        assert_eq!(v2p(&pt, L1_SELF + 4 * i), Some(0x4000 + 4 * i));
        assert_eq!(pt.read_word(VirtualAddress(L1_SELF + 4 * i)), pt.read_phys_word(0x4000 + 4 * i));
    }
    let frames = [0x4000usize, 0x5000, 0x6000, 0x7000, 0x1000];
    for (k, f) in frames.iter().enumerate() {
        assert_eq!(pt.read_phys_word(0x1000 + 4 * k), Some((*f as u32) | 0x3E));
    }
}

#[test]
fn bootstrap_maps_kernel_and_stack() {
    let pt = boot();
    assert_eq!(v2p(&pt, 0), Some(0x8000));
    assert_eq!(v2p(&pt, 0x1234), Some(0x9234));
    assert_eq!(v2p(&pt, 0xF_F000), Some(0x10_7000));
    assert_eq!(v2p(&pt, 0x10_0000), None);
    assert_eq!(v2p(&pt, 0xD000_0FF0), Some(0x00F0_0FF0));
    assert_eq!(v2p(&pt, 0xD000_0000), Some(0x00F0_0000));
    assert_eq!(v2p(&pt, 0xD000_1000), None);
}

#[test]
fn bootstrap_fails_without_frames() {
    assert!(boot_with_max(0x8000).is_err());
    assert!(boot_with_max(0x9000).is_err());
    assert!(boot_with_max(0xA000).is_ok());
}

#[test]
fn mapped_range_is_visible() {
    let mut pt = boot();
    let p = 0x20_0000usize;
    let v = 0x4000_0000usize;
    assert_eq!(pt.map(PhysicalAddress(p), VirtualAddress(v), MemorySize::PageSizes(3)), Ok(()));
    assert_eq!(pt.map(PhysicalAddress(p), VirtualAddress(0x5000_0000), MemorySize::PageSizes(3)), Ok(()));
    for i in (0..3 * 4096usize).step_by(4) {
        assert_eq!(v2p(&pt, v + i), Some(p + i));
        assert_eq!(pt.read_word(VirtualAddress(v + i)), pt.read_phys_word(p + i));
        assert_eq!(pt.read_word(VirtualAddress(v + i)), pt.read_word(VirtualAddress(0x5000_0000 + i)));
    }
    assert_eq!(v2p(&pt, v + 3 * 4096), None);
    assert_eq!(v2p(&pt, 0), Some(0x8000));
}

#[test]
fn mapping_can_be_read_back_through_the_self_map() {
    let mut pt = boot();
    let v = 0x4000_0000usize;
    assert_eq!(pt.map(PhysicalAddress(0x30_0000), VirtualAddress(v), MemorySize::KiloBytes(4)), Ok(()));
    let e = pt.read_word(VirtualAddress(L1_SELF + 4 * (v >> 20))).unwrap();
    assert_eq!(e & 0xFFF, 1);
    let leaf = pt.read_phys_word((e & 0xFFFF_F000) as usize).unwrap();
    assert_eq!(leaf, 0x30_003E);
}

#[test]
fn device_mapping_is_uncached() {
    let mut pt = boot();
    let v = 0x6000_0000usize;
    assert_eq!(pt.map_device(PhysicalAddress(0x00C0_0000), VirtualAddress(v)), Ok(()));
    let e = pt.read_word(VirtualAddress(L1_SELF + 4 * (v >> 20))).unwrap();
    let leaf = pt.read_phys_word((e & 0xFFFF_F000) as usize).unwrap();
    assert_eq!(leaf, 0x00C0_0032);
    assert_eq!(leaf & 0xC, 0);
    assert_eq!(v2p(&pt, v + 8), Some(0x00C0_0008));
}

#[test]
fn device_range_mapping() {
    let mut pt = boot();
    assert_eq!(pt.map_device_range(PhysicalAddress(0x1000_0000), VirtualAddress(0x7000_0000), MemorySize::PageSizes(2)), Ok(()));
    assert_eq!(v2p(&pt, 0x7000_1004), Some(0x1000_1004));
}

#[test]
fn single_page_map_and_unmap() {
    let mut pt = boot();
    assert_eq!(pt.map_single(PhysicalAddress(0x50_0000), VirtualAddress(0x8000_0123)), Ok(()));
    assert_eq!(v2p(&pt, 0x8000_0000), Some(0x50_0000));
    assert_eq!(v2p(&pt, 0x8000_0FFF), Some(0x50_0FFF));
    pt.unmap_single(VirtualAddress(0x8000_0000));
    assert_eq!(v2p(&pt, 0x8000_0000), None);
}

#[test]
fn unmap_range() {
    let mut pt = boot();
    assert_eq!(pt.map(PhysicalAddress(0x20_0000), VirtualAddress(0x4000_0000), MemorySize::PageSizes(4)), Ok(()));
    assert_eq!(pt.unmap(VirtualAddress(0x4000_1000), MemorySize::PageSizes(2)), Ok(()));
    assert_eq!(v2p(&pt, 0x4000_0000), Some(0x20_0000));
    assert_eq!(v2p(&pt, 0x4000_1000), None);
    assert_eq!(v2p(&pt, 0x4000_2FFC), None);
    assert_eq!(v2p(&pt, 0x4000_3000), Some(0x20_3000));
    assert_eq!(pt.unmap(VirtualAddress(0x4000_0001), MemorySize::PageSizes(1)), Err(()));
}

#[test]
fn bad_map_requests_are_refused() {
    let mut pt = boot();
    assert_eq!(pt.map(PhysicalAddress(0x20_0010), VirtualAddress(0x4000_0000), MemorySize::PageSizes(1)), Err(()));
    assert_eq!(pt.map(PhysicalAddress(0x20_0000), VirtualAddress(0x4000_0010), MemorySize::PageSizes(1)), Err(()));
    assert_eq!(pt.map(PhysicalAddress(0x20_0000), VirtualAddress(L1_SELF), MemorySize::PageSizes(1)), Err(()));
    assert_eq!(pt.map(PhysicalAddress(0x20_0000), VirtualAddress(0xDFFF_F000), MemorySize::PageSizes(2)), Err(()));
    assert_eq!(pt.map(PhysicalAddress(0x20_0000), VirtualAddress(0xFFFF_F000), MemorySize::PageSizes(2)), Err(()));
    assert_eq!(v2p(&pt, 0x4000_0000), None);
}

#[test]
fn map_fails_when_frames_run_out() {
    let mut pt = boot_with_max(0xA000).unwrap();
    assert_eq!(pt.map(PhysicalAddress(0x20_0000), VirtualAddress(0x4000_0000), MemorySize::PageSizes(1)), Err(()));
    // A MiB that already has an L2 needs no new frame.
    assert_eq!(pt.map(PhysicalAddress(0x20_0000), VirtualAddress(0xD000_2000), MemorySize::PageSizes(1)), Ok(()));
    assert_eq!(v2p(&pt, 0xD000_2000), Some(0x20_0000));
}

#[test]
fn physical_to_virtual() {
    let mut pt = boot();
    assert_eq!(pt.map(PhysicalAddress(0x20_0000), VirtualAddress(0x5000_0000), MemorySize::PageSizes(1)), Ok(()));
    assert_eq!(pt.map(PhysicalAddress(0x20_0000), VirtualAddress(0x4000_0000), MemorySize::PageSizes(1)), Ok(()));
    assert_eq!(pt.p2v(PhysicalAddress(0x20_0010)), Some(VirtualAddress(0x4000_0010)));
    assert_eq!(pt.p2v(PhysicalAddress(0x8004)), Some(VirtualAddress(0x4)));
    assert_eq!(pt.p2v(PhysicalAddress(0x90_0000)), None);
}

#[test]
fn mode_stacks_are_mapped() {
    let mut pt = boot();
    let stacks = build_mode_stacks(&mut pt).unwrap();
    assert_eq!(stacks.len(), 4);
    let modes = [0x12u32, 0x17, 0x1B, 0x1F];
    for (i, s) in stacks.iter().enumerate() {
        assert_eq!(s.mode, modes[i]);
        assert_eq!(s.top, VirtualAddress(0xB000_0000 + (i + 1) * 4096));
        assert_eq!(v2p(&pt, 0xB000_0000 + i * 4096 + 0x10), Some(s.frame.0 + 0x10));
    }
}

#[test]
fn round_up_to_pages() {
    assert_eq!(up(0), 0);
    assert_eq!(up(1), 4096);
    assert_eq!(up(4096), 4096);
    assert_eq!(up(0x18001), 0x19000);
}

#[test]
fn init_frames_from_a_fresh_allocator() {
    let mut fa = LameFrameAllocator::new(vec![], 0x100_0000);
    let fs = get_init_frames(&mut fa).unwrap();
    let got: Vec<usize> = fs.iter().map(|p| p.0).collect();
    assert_eq!(got, vec![0x4000, 0x5000, 0x6000, 0x7000, 0x1000]);
    assert_eq!(fa.allocate(1), Some(PhysicalAddress(0x8000)));
}

#[test]
fn init_frames_from_an_aligned_start() {
    let mut fa = LameFrameAllocator::new(vec![0x1000..0x4000], 0x100_0000);
    let fs = get_init_frames(&mut fa).unwrap();
    let got: Vec<usize> = fs.iter().map(|p| p.0).collect();
    assert_eq!(got, vec![0x4000, 0x5000, 0x6000, 0x7000, 0x8000]);
}

#[test]
fn init_frames_fail_when_memory_is_short() {
    let mut fa = LameFrameAllocator::new(vec![], 0x7000);
    assert!(get_init_frames(&mut fa).is_none());
    assert_eq!(fa.allocate(1), Some(PhysicalAddress(0x1000)));
}

#[test]
fn boot_requests_are_checked() {
    let mut m = Machine::new(0x110_0000);
    m.set_ttb0(0x100_0000);
    let fa = LameFrameAllocator::new(vec![], 0x100_0000);
    assert!(boot_request_ok(&m, VirtualAddress(0x100_0000), VirtualAddress(0x100_4000), &layout(), &fa));
    // Boot tables the allocator would hand out.
    let mut m2 = Machine::new(0x110_0000);
    m2.set_ttb0(0x10000);
    assert!(!boot_request_ok(&m2, VirtualAddress(0x10000), VirtualAddress(0x14000), &layout(), &fa));
    // Boot first level not 16 KiB aligned.
    assert!(!boot_request_ok(&m, VirtualAddress(0x100_1000), VirtualAddress(0x100_4000), &layout(), &fa));
    // Stack in the self-map window.
    let mut bad = layout();
    bad.stack_virt = VirtualAddress(0xE000_1000);
    assert!(!check_layout(&bad));
    assert!(check_layout(&layout()));
}

#[test]
fn checked_descriptor_refuses_unaligned_frames() {
    assert_eq!(L2TableDescriptor::checked_new(PhysicalAddress(0x1234)), None);
    assert_eq!(L2TableDescriptor::checked_new(PhysicalAddress(0x1_0000_0000)), None);
    assert_eq!(L2TableDescriptor::checked_new(PhysicalAddress(0x2000)), Some(L2TableDescriptor(0x203E)));
}

#[test]
fn mode_stack_frames_are_distinct() {
    let mut pt = boot();
    let stacks = build_mode_stacks(&mut pt).unwrap();
    for i in 0..4 {
        for j in (i + 1)..4 {
            assert_ne!(stacks[i].frame, stacks[j].frame);
        }
    }
}

#[test]
fn mode_stacks_fail_without_frames() {
    let mut pt = boot_with_max(0xB000).unwrap();
    assert!(build_mode_stacks(&mut pt).is_err());
}
