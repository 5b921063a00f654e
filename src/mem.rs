//! Address types, memory sizes and the interfaces between the memory
//! subsystems.
use vstd::prelude::*;

verus! {

/// 4 KiB pages.
pub const PAGE_SHIFT: usize = 12;

pub const PAGE_SIZE: usize = 4096;

pub const PAGE_MASK: usize = 4095;

/// 1 MiB first-level sections.
pub const MB_SHIFT: usize = 20;

pub const MB_SIZE: usize = 0x10_0000;

pub const MB_MASK: usize = 0xF_FFFF;

/// A size given in one of several units.
#[derive(Clone, Copy, Debug)]
pub enum MemorySize {
    Bytes(usize),
    KiloBytes(usize),
    MegaBytes(usize),
    GigaBytes(usize),
    PageSizes(usize),
}

impl MemorySize {
    /// The number of bytes this size stands for.
    pub open spec fn bytes(self) -> int {
        match self {
            MemorySize::Bytes(b) => b as int,
            MemorySize::KiloBytes(k) => k * 0x400,
            MemorySize::MegaBytes(m) => m * 0x10_0000,
            MemorySize::GigaBytes(g) => g * 0x4000_0000,
            MemorySize::PageSizes(p) => p * 0x1000,
        }
    }
}

/// Converts a size to bytes. The byte count must fit a machine word.
pub fn to_bytes(x: MemorySize) -> (r: usize)
    requires
        x.bytes() <= usize::MAX,
    ensures
        r == x.bytes(),
{
    match x {
        MemorySize::Bytes(b) => b,
        MemorySize::KiloBytes(k) => k * 0x400,
        MemorySize::MegaBytes(m) => m * 0x10_0000,
        MemorySize::GigaBytes(g) => g * 0x4000_0000,
        MemorySize::PageSizes(p) => p * PAGE_SIZE,
    }
}

/// Converts a size to whole pages; fails when the byte count is not a
/// multiple of the page size.
pub fn to_pages(x: MemorySize) -> (r: Result<usize, ()>)
    requires
        x.bytes() <= usize::MAX,
    ensures
        x.bytes() % PAGE_SIZE as int != 0 <==> r is Err,
        r matches Ok(n) ==> n == x.bytes() / PAGE_SIZE as int,
{
    let b = to_bytes(x);
    if b % PAGE_SIZE != 0 {
        Err(())
    } else {
        Ok(b / PAGE_SIZE)
    }
}

/// A virtual address. Never converts to a physical one implicitly.
#[derive(Clone, Copy, Debug, PartialEq, Eq, Structural, Hash)]
pub struct VirtualAddress(pub usize);

/// A physical address. Never converts to a virtual one implicitly.
#[derive(Clone, Copy, Debug, PartialEq, Eq, Structural, Hash)]
pub struct PhysicalAddress(pub usize);

impl VirtualAddress {
    /// The address `off` bytes away; the result must stay in the address space.
    pub fn offset(&self, off: isize) -> (r: VirtualAddress)
        requires
            0 <= self.0 + off <= usize::MAX,
        ensures
            r.0 == self.0 + off,
    {
        VirtualAddress(add_signed(self.0, off))
    }

    /// The address `off` bytes above this one.
    pub fn uoffset(&self, off: usize) -> (r: VirtualAddress)
        requires
            self.0 + off <= usize::MAX,
        ensures
            r.0 == self.0 + off,
    {
        VirtualAddress(self.0 + off)
    }

    /// The distance from `rhs` up to this address.
    pub fn sub(self, rhs: VirtualAddress) -> (r: MemorySize)
        requires
            rhs.0 <= self.0,
        ensures
            r == MemorySize::Bytes((self.0 - rhs.0) as usize),
    {
        MemorySize::Bytes(self.0 - rhs.0)
    }
}

impl PhysicalAddress {
    /// The address `off` bytes away; the result must stay in the address space.
    pub fn offset(&self, off: isize) -> (r: PhysicalAddress)
        requires
            0 <= self.0 + off <= usize::MAX,
        ensures
            r.0 == self.0 + off,
    {
        PhysicalAddress(add_signed(self.0, off))
    }

    /// The address `off` bytes above this one.
    pub fn uoffset(&self, off: usize) -> (r: PhysicalAddress)
        requires
            self.0 + off <= usize::MAX,
        ensures
            r.0 == self.0 + off,
    {
        PhysicalAddress(self.0 + off)
    }

    /// The distance from `rhs` up to this address.
    pub fn sub(self, rhs: PhysicalAddress) -> (r: MemorySize)
        requires
            rhs.0 <= self.0,
        ensures
            r == MemorySize::Bytes((self.0 - rhs.0) as usize),
    {
        MemorySize::Bytes(self.0 - rhs.0)
    }
}

fn add_signed(a: usize, off: isize) -> (r: usize)
    requires
        0 <= a + off <= usize::MAX,
    ensures
        r == a + off,
{
    if off >= 0 {
        a + off as usize
    } else {
        let back: usize = (-(off as i128)) as usize;
        a - back
    }
}

} // verus!

verus! {

/// Hands out runs of physical page frames.
pub trait FrameAllocator {
    /// A run of `num_frames` contiguous frames, or `None` when memory is exhausted.
    fn allocate(&mut self, num_frames: usize) -> Option<PhysicalAddress>;

    /// Gives a run of frames back.
    fn deallocate(&mut self, start: PhysicalAddress, num_frames: usize);
}

/// Translates between the two kinds of address.
pub trait PVMapper {
    /// The state in which the translation can be asked for.
    spec fn ready(&self) -> bool;

    /// The physical address that `v` is mapped to.
    fn v2p(&self, v: VirtualAddress) -> Option<PhysicalAddress>
        requires
            self.ready(),
    ;

    /// A virtual address mapped to `p`.
    fn p2v(&self, p: PhysicalAddress) -> Option<VirtualAddress>
        requires
            self.ready(),
    ;
}

/// Installs and removes mappings of ranges of pages.
pub trait MemoryMapper: PVMapper {
    /// Maps `size` bytes of normal memory at `p` to `v`.
    fn map(&mut self, p: PhysicalAddress, v: VirtualAddress, size: MemorySize) -> (r: Result<(), ()>)
        requires
            old(self).ready(),
            size.bytes() <= usize::MAX,
        ensures
            final(self).ready(),
    ;

    /// Removes the mappings of `size` bytes at `v`.
    fn unmap(&mut self, v: VirtualAddress, size: MemorySize) -> (r: Result<(), ()>)
        requires
            old(self).ready(),
            size.bytes() <= usize::MAX,
        ensures
            final(self).ready(),
    ;

    /// Maps `size` bytes of device memory at `p` to `v`.
    fn map_device_range(&mut self, p: PhysicalAddress, v: VirtualAddress, size: MemorySize) -> (r: Result<(), ()>)
        requires
            old(self).ready(),
            size.bytes() <= usize::MAX,
        ensures
            final(self).ready(),
    ;
}

/// A memory manager: a mapper that owns its frame allocator and tells the
/// other CPUs when the mappings change.
pub trait MemoryManagaer: PVMapper {
    /// Maps `size` bytes of normal memory at `p` to `v`.
    fn map(&mut self, p: PhysicalAddress, v: VirtualAddress, size: MemorySize) -> (r: Result<(), ()>)
        requires
            old(self).ready(),
            size.bytes() <= usize::MAX,
        ensures
            final(self).ready(),
    ;

    /// Removes the mappings of `size` bytes at `v`.
    fn unmap(&mut self, v: VirtualAddress, size: MemorySize) -> (r: Result<(), ()>)
        requires
            old(self).ready(),
            size.bytes() <= usize::MAX,
        ensures
            final(self).ready(),
    ;

    /// Maps `size` bytes of device memory at `p` to `v`.
    fn map_device(&mut self, p: PhysicalAddress, v: VirtualAddress, size: MemorySize) -> (r: Result<(), ()>)
        requires
            old(self).ready(),
            size.bytes() <= usize::MAX,
        ensures
            final(self).ready(),
    ;
}

} // verus!
