use armkernel::desc::{L1TableDescriptor, L2TableDescriptor};
use armkernel::mem::PhysicalAddress;

#[test]
fn normal_page_entry_bits() {
    let d = L2TableDescriptor::new(PhysicalAddress(0x1234_5000));
    assert_eq!(d.0, 0x1234_503E);
    assert!(d.is_present());
    assert_eq!(d.get_physical_address(), PhysicalAddress(0x1234_5000));
}

#[test]
fn device_page_entry_has_no_cache_bits() {
    let d = L2TableDescriptor::new_device(PhysicalAddress(0x1000_0000));
    assert_eq!(d.0, 0x1000_0032);
    assert_eq!(d.0 & 0xC, 0);
    assert!(d.is_present());
    assert_eq!(d.get_physical_address(), PhysicalAddress(0x1000_0000));
}

#[test]
fn coarse_entry_bits() {
    let d = L1TableDescriptor::new(PhysicalAddress(0x8000));
    assert_eq!(d.0, 0x8001);
    assert!(d.is_present());
    assert_eq!(d.get_physical_address(), PhysicalAddress(0x8000));
}

#[test]
fn zero_entries_are_absent() {
    assert!(!L1TableDescriptor(0).is_present());
    assert!(!L2TableDescriptor(0).is_present());
}

#[test]
fn descriptor_round_trip() {
    for p in [0usize, 0x1000, 0x8000_0000, 0xFFFF_F000, 0x00AB_C000] {
        let d = L2TableDescriptor::new(PhysicalAddress(p));
        assert!(d.is_present());
        assert_eq!(d.get_physical_address(), PhysicalAddress(p));
        let e = L1TableDescriptor::new(PhysicalAddress(p));
        assert!(e.is_present());
        assert_eq!(e.get_physical_address(), PhysicalAddress(p));
    }
}
