//! The memory manager: the page table together with the frames it owns,
//! behind the interface the rest of the kernel maps memory through.
use vstd::prelude::*;
use crate::frame::alloc_step;
use crate::machine::l1_index;
use crate::mem::{MemoryManagaer, MemoryMapper, MemorySize, PVMapper, PhysicalAddress, VirtualAddress};
use crate::paging::{map_request_ok, pages_for, range_mapped, PageTable, SELF_INDEX};

verus! {

/// The memory manager of a single-CPU kernel.
pub struct DefaultMemoryManagaer {
    mem_mapper: PageTable,
}

/// Tells the other CPUs that the mappings changed. With one CPU there is
/// no other translation to bring up to date.
fn send_ipi() {
}

impl DefaultMemoryManagaer {
    /// The page table the manager edits.
    pub closed spec fn mapper(&self) -> PageTable {
        self.mem_mapper
    }

    /// A manager over the page table `m` and the frames it owns.
    pub fn new(m: PageTable) -> (r: DefaultMemoryManagaer)
        ensures
            r.mapper() == m,
    {
        DefaultMemoryManagaer { mem_mapper: m }
    }
}

impl PVMapper for DefaultMemoryManagaer {
    open spec fn ready(&self) -> bool {
        self.mapper().wf()
    }

    fn v2p(&self, v: VirtualAddress) -> (r: Option<PhysicalAddress>)
        ensures
            r matches Some(p) ==> self.mapper().translation(v.0 as int) == Some(p.0 as int),
            r is None ==> self.mapper().translation(v.0 as int) is None,
    {
        self.mem_mapper.v2p(v)
    }

    fn p2v(&self, p: PhysicalAddress) -> (r: Option<VirtualAddress>)
        ensures
            r matches Some(v) ==> self.mapper().translation(v.0 as int) == Some(p.0 as int),
            r is None ==> forall|u: int| 0 <= u ==> #[trigger] self.mapper().translation(u) != Some(p.0 as int),
    {
        self.mem_mapper.p2v(p)
    }
}

impl MemoryManagaer for DefaultMemoryManagaer {
    /// As the page table's `map`; the other CPUs hear of a change.
    fn map(&mut self, p: PhysicalAddress, v: VirtualAddress, size: MemorySize) -> (r: Result<(), ()>)
        ensures
            !map_request_ok(p.0 as int, v.0 as int, pages_for(size.bytes())) ==> r is Err && final(self).mapper() == old(self).mapper(),
            r is Err && map_request_ok(p.0 as int, v.0 as int, pages_for(size.bytes()))
                ==> alloc_step(final(self).mapper().allocator(), 1).1 is None,
            range_mapped(old(self).mapper(), final(self).mapper(), p.0 as int, v.0 as int, pages_for(size.bytes()), false, r is Ok),
            r is Ok ==> forall|i: int| #![trigger final(self).mapper().translation(v.0 + i)]
                0 <= i < pages_for(size.bytes()) * 4096 ==> final(self).mapper().translation(v.0 + i) == Some(p.0 + i),
            r is Ok ==> forall|u: int| #![trigger final(self).mapper().translation(u)]
                !(v.0 <= u < v.0 + pages_for(size.bytes()) * 4096) && l1_index(u) != SELF_INDEX
                    ==> final(self).mapper().translation(u) == old(self).mapper().translation(u),
    {
        let r = self.mem_mapper.map(p, v, size);
        if r.is_ok() {
            send_ipi();
        }
        r
    }

    /// As the page table's `unmap`; the other CPUs hear of a change.
    fn unmap(&mut self, v: VirtualAddress, size: MemorySize) -> (r: Result<(), ()>)
        ensures
            !map_request_ok(0, v.0 as int, pages_for(size.bytes())) <==> r is Err,
            r is Err ==> final(self).mapper() == old(self).mapper(),
            r is Ok ==> forall|u: int| #![trigger final(self).mapper().translation(u)]
                v.0 <= u < v.0 + pages_for(size.bytes()) * 4096 ==> final(self).mapper().translation(u) is None,
            r is Ok ==> forall|u: int| #![trigger final(self).mapper().translation(u)]
                !(v.0 <= u < v.0 + pages_for(size.bytes()) * 4096) && l1_index(u) != SELF_INDEX
                    ==> final(self).mapper().translation(u) == old(self).mapper().translation(u),
    {
        let r = self.mem_mapper.unmap(v, size);
        if r.is_ok() {
            send_ipi();
        }
        r
    }

    /// As the page table's `map_device_range`; the other CPUs hear of a change.
    fn map_device(&mut self, p: PhysicalAddress, v: VirtualAddress, size: MemorySize) -> (r: Result<(), ()>)
        ensures
            !map_request_ok(p.0 as int, v.0 as int, pages_for(size.bytes())) ==> r is Err && final(self).mapper() == old(self).mapper(),
            r is Err && map_request_ok(p.0 as int, v.0 as int, pages_for(size.bytes()))
                ==> alloc_step(final(self).mapper().allocator(), 1).1 is None,
            range_mapped(old(self).mapper(), final(self).mapper(), p.0 as int, v.0 as int, pages_for(size.bytes()), true, r is Ok),
            r is Ok ==> forall|i: int| #![trigger final(self).mapper().translation(v.0 + i)]
                0 <= i < pages_for(size.bytes()) * 4096 ==> final(self).mapper().translation(v.0 + i) == Some(p.0 + i),
            r is Ok ==> forall|u: int| #![trigger final(self).mapper().translation(u)]
                !(v.0 <= u < v.0 + pages_for(size.bytes()) * 4096) && l1_index(u) != SELF_INDEX
                    ==> final(self).mapper().translation(u) == old(self).mapper().translation(u),
    {
        let r = self.mem_mapper.map_device_range(p, v, size);
        if r.is_ok() {
            send_ipi();
        }
        r
    }
}

} // verus!
