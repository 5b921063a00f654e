//! Physical memory as a sequence of 32-bit words, and the walk that the MMU
//! makes through a two-level table held in it.
use vstd::prelude::*;
use crate::desc::frame_of;

verus! {

/// The largest physical memory the walk can address: 4 GiB.
pub const ADDRESS_SPACE: u64 = 0x1_0000_0000;

/// The first-level index of virtual address `v`: its MiB.
pub open spec fn l1_index(v: int) -> int {
    v / 0x10_0000
}

/// The second-level index of virtual address `v`: its page within the MiB.
pub open spec fn l2_index(v: int) -> int {
    (v / 4096) % 256
}

/// The physical address that virtual address `v` reaches through the table
/// whose first level starts at byte `l1` of `mem`, or `None` where an entry
/// is absent or lies outside memory.
pub open spec fn walk(mem: Seq<u32>, l1: int, v: int) -> Option<int> {
    let i1 = l1 / 4 + l1_index(v);
    if !(0 <= v < 0x1_0000_0000 && 0 <= i1 < mem.len()) {
        None
    } else if mem[i1] == 0 {
        None
    } else {
        let i2 = frame_of(mem[i1]) / 4 + l2_index(v);
        if !(0 <= i2 < mem.len()) {
            None
        } else if mem[i2] == 0 {
            None
        } else {
            Some(frame_of(mem[i2]) + v % 4096)
        }
    }
}

/// The word at byte address `pa`.
pub open spec fn word_at(mem: Seq<u32>, pa: int) -> u32 {
    mem[pa / 4]
}

/// What the machine holds: its memory and the base of the active first-level
/// table.
pub struct MachineState {
    pub mem: Seq<u32>,
    pub ttbr: usize,
}

/// A CPU with its physical memory. Memory is read and written a word at a
/// time; virtual accesses go through the active table.
pub struct Machine {
    mem: Vec<u32>,
    ttbr: usize,
}

impl View for Machine {
    type V = MachineState;

    closed spec fn view(&self) -> MachineState {
        MachineState { mem: self.mem@, ttbr: self.ttbr }
    }
}

impl Machine {
    /// Memory fits the 32-bit address space.
    pub open spec fn wf(&self) -> bool {
        &&& self@.mem.len() * 4 <= ADDRESS_SPACE
        &&& self@.mem.len() * 4 <= usize::MAX
    }

    /// The number of bytes of memory.
    pub open spec fn size_spec(&self) -> int {
        self@.mem.len() as int * 4
    }

    /// A machine with `bytes` bytes of zeroed memory and no active table.
    pub fn new(bytes: usize) -> (r: Machine)
        requires
            bytes as int <= ADDRESS_SPACE as int,
            bytes < usize::MAX,
        ensures
            r.wf(),
            r@.mem.len() == bytes / 4,
            forall|i: int| 0 <= i < r@.mem.len() ==> #[trigger] r@.mem[i] == 0,
            r@.ttbr == 0,
    {
        Machine { mem: vec![0u32; bytes / 4], ttbr: 0 }
    }

    /// The number of bytes of memory.
    pub fn size(&self) -> (r: usize)
        requires
            self.wf(),
        ensures
            r == self.size_spec(),
    {
        self.mem.len() * 4
    }

    /// The word at physical address `pa`.
    pub fn read_phys(&self, pa: usize) -> (r: u32)
        requires
            pa % 4 == 0,
            pa / 4 < self@.mem.len(),
        ensures
            r == word_at(self@.mem, pa as int),
    {
        self.mem[pa / 4]
    }

    /// Stores `val` at physical address `pa`.
    pub fn write_phys(&mut self, pa: usize, val: u32)
        requires
            pa % 4 == 0,
            pa / 4 < old(self)@.mem.len(),
        ensures
            final(self)@.mem == old(self)@.mem.update(pa as int / 4, val),
            final(self)@.ttbr == old(self)@.ttbr,
    {
        self.mem.set(pa / 4, val);
    }

    /// The base of the active first-level table.
    pub fn get_ttb0(&self) -> (r: usize)
        ensures
            r == self@.ttbr,
    {
        self.ttbr
    }

    /// Makes the table at physical address `pa` the active one.
    pub fn set_ttb0(&mut self, pa: usize)
        ensures
            final(self)@ == (MachineState { ttbr: pa, ..old(self)@ }),
    {
        self.ttbr = pa;
    }

    /// The physical address that `v` reaches through the active table.
    pub fn translate(&self, v: usize) -> (r: Option<usize>)
        requires
            self.wf(),
        ensures
            r matches Some(p) ==> walk(self@.mem, self@.ttbr as int, v as int) == Some(p as int),
            r is None ==> walk(self@.mem, self@.ttbr as int, v as int) is None,
    {
        if v as u64 >= ADDRESS_SPACE {
            return None;
        }
        let i1: usize = self.ttbr / 4 + v / 0x10_0000;
        if i1 >= self.mem.len() {
            return None;
        }
        let e1: u32 = self.mem[i1];
        if e1 == 0 {
            return None;
        }
        let i2: usize = ((e1 & 0xFFFF_F000u32) as usize) / 4 + (v / 4096) % 256;
        if i2 >= self.mem.len() {
            return None;
        }
        let e2: u32 = self.mem[i2];
        if e2 == 0 {
            return None;
        }
        assert(e2 & 0xFFFF_F000u32 <= 0xFFFF_F000u32) by (bit_vector);
        Some(((e2 & 0xFFFF_F000u32) as usize) + v % 4096)
    }

    /// The word at virtual address `v`, which must be mapped and word aligned.
    pub fn read_virt(&self, v: usize) -> (r: u32)
        requires
            self.wf(),
            walk(self@.mem, self@.ttbr as int, v as int) matches Some(p) && p / 4 < self@.mem.len(),
        ensures
            r == word_at(self@.mem, walk(self@.mem, self@.ttbr as int, v as int)->Some_0),
    {
        let p = self.translate(v);
        match p {
            Some(pa) => self.mem[pa / 4],
            None => 0,
        }
    }

    /// Stores `val` at virtual address `v`, which must be mapped and word aligned.
    pub fn write_virt(&mut self, v: usize, val: u32)
        requires
            old(self).wf(),
            walk(old(self)@.mem, old(self)@.ttbr as int, v as int) matches Some(p) && p / 4 < old(self)@.mem.len(),
        ensures
            final(self)@.mem == old(self)@.mem.update(
                walk(old(self)@.mem, old(self)@.ttbr as int, v as int)->Some_0 / 4, val),
            final(self)@.ttbr == old(self)@.ttbr,
    {
        let p = self.translate(v);
        match p {
            Some(pa) => {
                self.mem.set(pa / 4, val);
            },
            None => {},
        }
    }
}

} // verus!
