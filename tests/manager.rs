use armkernel::frame::LameFrameAllocator;
use armkernel::machine::Machine;
use armkernel::manager::DefaultMemoryManagaer;
use armkernel::mem::{MemoryManagaer, MemorySize, PVMapper, PhysicalAddress, VirtualAddress};
use armkernel::paging::{init_page_table, MemLayout};

fn manager() -> DefaultMemoryManagaer {
    let mut m = Machine::new(0x100_0000);
    m.set_ttb0(0x10000);
    let fa = LameFrameAllocator::new(vec![0x10000..0x15000], 0x100_0000);
    let ml = MemLayout {
        kernel_start_phy: PhysicalAddress(0x10_0000),
        kernel_start_virt: VirtualAddress(0xC000_0000),
        kernel_end_virt: VirtualAddress(0xC000_4000),
        stack_phy: PhysicalAddress(0x20_0000),
        stack_virt: VirtualAddress(0xC000_3FF8),
    };
    DefaultMemoryManagaer::new(init_page_table(m, VirtualAddress(0x10000), VirtualAddress(0x14000), &ml, fa).unwrap())
}

#[test]
fn manager_maps_and_unmaps() {
    let mut mgr = manager();
    assert_eq!(mgr.v2p(VirtualAddress(0xC000_1000)), Some(PhysicalAddress(0x10_1000)));
    assert_eq!(mgr.v2p(VirtualAddress(0xC000_3FF8)), Some(PhysicalAddress(0x20_0FF8)));
    assert_eq!(mgr.map(PhysicalAddress(0x40_0000), VirtualAddress(0x4000_0000), MemorySize::PageSizes(2)), Ok(()));
    assert_eq!(mgr.v2p(VirtualAddress(0x4000_1010)), Some(PhysicalAddress(0x40_1010)));
    assert_eq!(mgr.p2v(PhysicalAddress(0x40_1010)), Some(VirtualAddress(0x4000_1010)));
    assert_eq!(mgr.unmap(VirtualAddress(0x4000_0000), MemorySize::PageSizes(2)), Ok(()));
    assert_eq!(mgr.v2p(VirtualAddress(0x4000_1010)), None);
}

#[test]
fn manager_maps_devices() {
    let mut mgr = manager();
    assert_eq!(mgr.map_device(PhysicalAddress(0x1600_0000), VirtualAddress(0x9000_0000), MemorySize::KiloBytes(4)), Ok(()));
    assert_eq!(mgr.v2p(VirtualAddress(0x9000_0004)), Some(PhysicalAddress(0x1600_0004)));
    assert_eq!(mgr.map_device(PhysicalAddress(0x1600_0001), VirtualAddress(0x9000_0000), MemorySize::KiloBytes(4)), Err(()));
}
