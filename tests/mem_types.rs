use armkernel::mem::{to_bytes, to_pages, MemorySize, PhysicalAddress, VirtualAddress};

#[test]
fn sizes_convert_to_bytes() {
    assert_eq!(to_bytes(MemorySize::Bytes(5)), 5);
    assert_eq!(to_bytes(MemorySize::KiloBytes(3)), 3072);
    assert_eq!(to_bytes(MemorySize::MegaBytes(2)), 0x20_0000);
    assert_eq!(to_bytes(MemorySize::GigaBytes(1)), 0x4000_0000);
    assert_eq!(to_bytes(MemorySize::PageSizes(3)), 0x3000);
}

#[test]
fn sizes_convert_to_pages() {
    assert_eq!(to_pages(MemorySize::Bytes(8192)), Ok(2));
    assert_eq!(to_pages(MemorySize::KiloBytes(4)), Ok(1));
    assert_eq!(to_pages(MemorySize::MegaBytes(1)), Ok(256));
    assert_eq!(to_pages(MemorySize::Bytes(0)), Ok(0));
}

#[test]
fn unaligned_size_has_no_page_count() {
    assert_eq!(to_pages(MemorySize::Bytes(100)), Err(()));
    assert_eq!(to_pages(MemorySize::KiloBytes(1)), Err(()));
}

#[test]
fn addresses_offset_both_ways() {
    assert_eq!(VirtualAddress(0x1000).offset(-0x10), VirtualAddress(0xFF0));
    assert_eq!(VirtualAddress(0x1000).offset(0x10), VirtualAddress(0x1010));
    assert_eq!(VirtualAddress(0x1000).uoffset(0x2000), VirtualAddress(0x3000));
    assert_eq!(PhysicalAddress(0x5000).offset(-0x5000), PhysicalAddress(0));
    assert_eq!(PhysicalAddress(0x5000).uoffset(4), PhysicalAddress(0x5004));
}

#[test]
fn address_difference_is_a_size() {
    match PhysicalAddress(0x3000).sub(PhysicalAddress(0x1000)) {
        MemorySize::Bytes(b) => assert_eq!(b, 0x2000),
        _ => panic!("not a byte count"),
    }
    match VirtualAddress(0x20_0000).sub(VirtualAddress(0x8000)) {
        MemorySize::Bytes(b) => assert_eq!(b, 0x1F_8000),
        _ => panic!("not a byte count"),
    }
}
