//! The page-table engine: a two-level table that keeps its own frames mapped
//! at a fixed virtual window, so that it can edit itself through the MMU.
use core::ops::Range;
use vstd::prelude::*;
use crate::desc::{
    frame_of, lemma_frame_of_aligned, is_frame, l1_coarse_word, l2_normal_word, l2_device_word, lemma_descriptor_words,
    L1TableDescriptor, L2TableDescriptor,
};
use crate::frame::{kept_from_allocator, alloc_frames, alloc_step, lemma_placed, lemma_reserved_ranges_skipped, overlaps, FrameState, LameFrameAllocator};
use crate::machine::{l1_index, l2_index, walk, Machine};
use crate::mem::{
    to_bytes, FrameAllocator, MemoryMapper, MemorySize, PVMapper, PhysicalAddress, VirtualAddress, PAGE_SIZE, MB_SIZE,
};

verus! {

/// Entries of the first-level table.
pub const L1TABLE_ENTRIES: usize = 4096;

/// Entries of a second-level table.
pub const L2TABLE_ENTRIES: usize = 256;

/// Where the first-level table sees itself.
pub const L1_SELF: usize = 0xE000_0000;

/// The first-level slot of the self-map window.
pub const SELF_INDEX: usize = 0xE00;

/// The slot of the self-map L2 in which the self-map L2 maps itself.
pub const SELF_L2_SLOT: usize = 4;

/// The slot of the self-map L2 that lends its page to whatever L2 is being edited.
pub const SCRATCH_SLOT: usize = 5;

/// Word `i` of the first-level table at byte `l1`.
pub open spec fn l1_entry(mem: Seq<u32>, l1: int, i: int) -> u32 {
    mem[l1 / 4 + i]
}

/// The `k`-th frame of the self map: the four frames of the first-level
/// table, then the self-map L2.
pub open spec fn table_frame(l1: int, l2s: int, k: int) -> int {
    if k < 4 {
        l1 + k * 4096
    } else {
        l2s
    }
}

/// The self-map: the first-level slot of the window points at the self-map
/// L2, whose first five entries map the table's own five frames.
pub open spec fn self_mapped(mem: Seq<u32>, l1: int, l2s: int) -> bool {
    &&& l1_entry(mem, l1, SELF_INDEX as int) == l1_coarse_word(l2s)
    &&& forall|k: int| 0 <= k < 5 ==> mem[l2s / 4 + k] == l2_normal_word(#[trigger] table_frame(l1, l2s, k))
}

/// Frame `f` lies outside the table's own frames.
pub open spec fn outside_table(f: int, l1: int, l2s: int) -> bool {
    &&& f + 4096 <= l1 || f >= l1 + 0x4000
    &&& f != l2s
}

/// First-level slot `i` is empty or points at an L2 frame in memory, below
/// `bound`, outside the table's own frames.
pub open spec fn l2_slot_ok(mem: Seq<u32>, l1: int, l2s: int, bound: int, i: int) -> bool {
    let e = l1_entry(mem, l1, i);
    e != 0 ==> {
        &&& e == l1_coarse_word(frame_of(e))
        &&& frame_of(e) % 4096 == 0
        &&& frame_of(e) + 4096 <= bound
        &&& frame_of(e) / 4 + 1024 <= mem.len()
        &&& outside_table(frame_of(e), l1, l2s)
    }
}

/// The table invariant: the first level at `l1` (16 KiB aligned) and the
/// self-map L2 at `l2s` lie in memory below `bound`, the self map is in
/// place, and every other present slot points at an L2 frame of its own.
pub open spec fn table_inv(mem: Seq<u32>, l1: int, l2s: int, bound: int) -> bool {
    &&& mem.len() * 4 <= 0x1_0000_0000
    &&& 0 <= l1 && l1 % 0x4000 == 0 && l1 + 0x4000 <= bound && l1 / 4 + 4096 <= mem.len()
    &&& is_frame(l2s) && l2s + 4096 <= bound && l2s / 4 + 1024 <= mem.len()
    &&& l2s + 4096 <= l1 || l2s >= l1 + 0x4000
    &&& self_mapped(mem, l1, l2s)
    &&& forall|i: int| 0 <= i < 4096 && i != SELF_INDEX ==> #[trigger] l2_slot_ok(mem, l1, l2s, bound, i)
    &&& forall|i: int, j: int|
        0 <= i < 4096 && 0 <= j < 4096 && i != j && i != SELF_INDEX && j != SELF_INDEX
            && #[trigger] l1_entry(mem, l1, i) != 0 && #[trigger] l1_entry(mem, l1, j) != 0
            ==> frame_of(l1_entry(mem, l1, i)) != frame_of(l1_entry(mem, l1, j))
}

/// Two memories that agree on the words a walk of `v` reads give the same walk.
proof fn lemma_walk_agree(m1: Seq<u32>, m2: Seq<u32>, l1: int, v: int)
    requires
        m1.len() == m2.len(),
        0 <= l1 / 4 + l1_index(v) < m1.len() ==> m1[l1 / 4 + l1_index(v)] == m2[l1 / 4 + l1_index(v)],
        0 <= l1 / 4 + l1_index(v) < m1.len() && m1[l1 / 4 + l1_index(v)] != 0
            && 0 <= frame_of(m1[l1 / 4 + l1_index(v)]) / 4 + l2_index(v) < m1.len()
            ==> m1[frame_of(m1[l1 / 4 + l1_index(v)]) / 4 + l2_index(v)]
                == m2[frame_of(m1[l1 / 4 + l1_index(v)]) / 4 + l2_index(v)],
    ensures
        walk(m1, l1, v) == walk(m2, l1, v),
{
}

/// An address reaches the frame that its page reaches, at the same offset.
proof fn lemma_walk_page(mem: Seq<u32>, l1: int, u: int)
    requires
        0 <= u,
    ensures
        walk(mem, l1, u) == (match walk(mem, l1, u - u % 4096) {
            Some(f) => Some(f + u % 4096),
            None => None,
        }),
        walk(mem, l1, u - u % 4096) matches Some(f) ==> f % 4096 == 0,
{
    let b = u - u % 4096;
    assert(l1_index(b) == l1_index(u));
    assert(l2_index(b) == l2_index(u));
    assert(b % 4096 == 0);
    let i1 = l1 / 4 + l1_index(u);
    if 0 <= u < 0x1_0000_0000 && 0 <= i1 < mem.len() && mem[i1] != 0 {
        let i2 = frame_of(mem[i1]) / 4 + l2_index(u);
        if 0 <= i2 < mem.len() {
            lemma_frame_of_aligned(mem[i2]);
        }
    }
}

/// The pages of a request for `bytes` bytes.
pub open spec fn pages_for(bytes: int) -> int {
    (bytes + 4095) / 4096
}

/// A request to map `npages` pages from `v` on to frames from `p` on that
/// the table can serve: both page aligned, inside the 32-bit address space,
/// clear of the self-map window.
pub open spec fn map_request_ok(p: int, v: int, npages: int) -> bool {
    &&& p % 4096 == 0 && v % 4096 == 0 && p >= 0 && v >= 0
    &&& p + npages * 4096 <= 0x1_0000_0000
    &&& v + npages * 4096 <= 0x1_0000_0000
    &&& v + npages * 4096 <= L1_SELF || v >= L1_SELF + MB_SIZE
}

/// What one leaf edit at `v` may change, going from `old` to `new`: the
/// leaf word, the first-level slot of `v`, the scratch slot of the self map
/// and, when the slot was empty, the L2 frame taken for it, which is the
/// frame `allocate(1)` returned and is cleared but for the leaf. The table
/// stays where it was, and the allocator is used only for that frame.
pub open spec fn single_edit(old: PageTable, new: PageTable, v: int) -> bool {
    let fresh = old.l1_entry_of(v) == 0;
    let f = new.l2_of(v);
    &&& new.l1_base() == old.l1_base()
    &&& new.l2_self_base() == old.l2_self_base()
    &&& new.mem().len() == old.mem().len()
    &&& !fresh ==> new.l1_entry_of(v) == old.l1_entry_of(v) && new.allocator() == old.allocator()
    &&& fresh ==> {
        &&& new.allocator() == alloc_step(old.allocator(), 1).0
        &&& alloc_step(old.allocator(), 1).1 == Some(f as usize)
        &&& new.l1_entry_of(v) == l1_coarse_word(f)
        &&& forall|j: int| 0 <= j < 1024 && j != l2_index(v) ==> #[trigger] new.mem()[f / 4 + j] == 0
    }
    &&& forall|w: int| 0 <= w < old.mem().len() && w != new.leaf_index(v) && w != old.l1_base() / 4 + l1_index(v)
        && w != old.l2_self_base() / 4 + 5 && !(fresh && f / 4 <= w < f / 4 + 1024)
        ==> #[trigger] new.mem()[w] == old.mem()[w]
}

/// Distinct page-aligned frames hold distinct words.
proof fn lemma_frames_apart(a: int, b: int, x: int, y: int)
    requires
        a % 4096 == 0,
        b % 4096 == 0,
        a != b,
        0 <= x < 1024,
        0 <= y < 1024,
    ensures
        a / 4 + x != b / 4 + y,
{
    assert(a / 4 == (a / 4096) * 1024);
    assert(b / 4 == (b / 4096) * 1024);
    assert(a / 4096 != b / 4096);
    if a / 4096 < b / 4096 {
        assert((a / 4096) * 1024 + 1024 <= (b / 4096) * 1024) by (nonlinear_arith)
            requires a / 4096 < b / 4096;
    } else {
        assert((b / 4096) * 1024 + 1024 <= (a / 4096) * 1024) by (nonlinear_arith)
            requires b / 4096 < a / 4096;
    }
}

/// Page `k` of the self-map window reaches frame `f` when the window's slot
/// `k` maps `f`.
proof fn lemma_window(mem: Seq<u32>, l1: int, l2s: int, k: int, f: int, off: int)
    requires
        0 <= l1 && l1 % 4 == 0 && l1 / 4 + 4096 <= mem.len(),
        is_frame(l2s),
        l2s / 4 + 1024 <= mem.len(),
        l1_entry(mem, l1, SELF_INDEX as int) == l1_coarse_word(l2s),
        0 <= k < 256,
        mem[l2s / 4 + k] == l2_normal_word(f),
        is_frame(f),
        0 <= off < 4096,
    ensures
        walk(mem, l1, L1_SELF + k * 4096 + off) == Some(f + off),
{
    lemma_descriptor_words(l2s);
    lemma_descriptor_words(f);
    let v = L1_SELF + k * 4096 + off;
    assert(l1_index(v) == SELF_INDEX);
    assert(v / 4096 == 0xE0000 + k);
    assert(l2_index(v) == k);
    assert(v % 4096 == off);
}

/// Under the table invariant, word `i` of the first level is seen at
/// `L1_SELF + 4 * i`, and the self-map L2 at the window's slot four.
proof fn lemma_self_window(mem: Seq<u32>, l1: int, l2s: int, bound: int)
    requires
        table_inv(mem, l1, l2s, bound),
    ensures
        forall|i: int| 0 <= i < 4096 ==> #[trigger] walk(mem, l1, L1_SELF + 4 * i) == Some(l1 + 4 * i),
        forall|j: int| 0 <= j < 1024 ==> #[trigger] walk(mem, l1, L1_SELF + 4 * 4096 + 4 * j) == Some(l2s + 4 * j),
{
    assert forall|i: int| 0 <= i < 4096 implies #[trigger] walk(mem, l1, L1_SELF + 4 * i) == Some(l1 + 4 * i) by {
        let k = i / 1024;
        assert(table_frame(l1, l2s, k) == l1 + k * 4096);
        lemma_window(mem, l1, l2s, k, l1 + k * 4096, 4 * (i % 1024));
        assert(L1_SELF + k * 4096 + 4 * (i % 1024) == L1_SELF + 4 * i);
    }
    assert forall|j: int| 0 <= j < 1024 implies #[trigger] walk(mem, l1, L1_SELF + 4 * 4096 + 4 * j) == Some(l2s + 4 * j) by {
        assert(table_frame(l1, l2s, 4) == l2s);
        lemma_window(mem, l1, l2s, 4, l2s, 4 * j);
    }
}

/// The invariant depends only on the first level and the self-map slots.
proof fn lemma_table_inv_agree(m1: Seq<u32>, m2: Seq<u32>, l1: int, l2s: int, bound: int)
    requires
        table_inv(m1, l1, l2s, bound),
        m1.len() == m2.len(),
        forall|i: int| 0 <= i < 4096 ==> #[trigger] l1_entry(m2, l1, i) == l1_entry(m1, l1, i),
        forall|k: int| 0 <= k < 5 ==> #[trigger] m2[l2s / 4 + k] == m1[l2s / 4 + k],
    ensures
        table_inv(m2, l1, l2s, bound),
{
    assert(l1_entry(m2, l1, SELF_INDEX as int) == l1_entry(m1, l1, SELF_INDEX as int));
    assert forall|k: int| 0 <= k < 5 implies m2[l2s / 4 + k] == l2_normal_word(#[trigger] table_frame(l1, l2s, k)) by {
        assert(m2[l2s / 4 + k] == m1[l2s / 4 + k]);
    }
    assert forall|i: int| 0 <= i < 4096 && i != SELF_INDEX implies #[trigger] l2_slot_ok(m2, l1, l2s, bound, i) by {
        assert(l1_entry(m2, l1, i) == l1_entry(m1, l1, i));
        assert(l2_slot_ok(m1, l1, l2s, bound, i));
    }
    assert forall|i: int, j: int|
        0 <= i < 4096 && 0 <= j < 4096 && i != j && i != SELF_INDEX && j != SELF_INDEX
            && #[trigger] l1_entry(m2, l1, i) != 0 && #[trigger] l1_entry(m2, l1, j) != 0
            implies frame_of(l1_entry(m2, l1, i)) != frame_of(l1_entry(m2, l1, j)) by {
        assert(l1_entry(m2, l1, i) == l1_entry(m1, l1, i));
        assert(l1_entry(m2, l1, j) == l1_entry(m1, l1, j));
    }
}

} // verus!

verus! {

/// The first-level table as seen through a virtual window.
pub struct L1Table {
    pub base: VirtualAddress,
}

/// A second-level table as seen through a virtual window.
pub struct L2Table {
    pub base: VirtualAddress,
}

/// The kernel's active page table: its first level seen at `L1_SELF`, the
/// self-map L2 seen right after it, the frame allocator that feeds new L2
/// tables, and the machine whose memory holds them.
pub struct PageTable {
    pub descriptors: L1Table,
    pub frameallocator: LameFrameAllocator,
    tmp_map: L2Table,
    machine: Machine,
    l2_self: usize,
}

impl PageTable {
    /// The machine's memory.
    pub closed spec fn mem(&self) -> Seq<u32> {
        self.machine@.mem
    }

    /// The state of the frame allocator.
    pub closed spec fn allocator(&self) -> FrameState {
        self.frameallocator@
    }

    /// The physical base of the first-level table.
    pub closed spec fn l1_base(&self) -> int {
        self.machine@.ttbr as int
    }

    /// The physical frame of the self-map L2.
    pub closed spec fn l2_self_base(&self) -> int {
        self.l2_self as int
    }

    /// Where virtual address `v` leads through this table.
    pub open spec fn translation(&self, v: int) -> Option<int> {
        walk(self.mem(), self.l1_base(), v)
    }

    /// The table is active on its machine and keeps its invariant; every
    /// frame the allocator can still hand out lies in memory.
    pub closed spec fn wf(&self) -> bool {
        &&& self.machine.wf()
        &&& self.frameallocator.wf()
        &&& self.descriptors.base.0 == L1_SELF
        &&& self.tmp_map.base.0 == L1_SELF + 4 * PAGE_SIZE
        &&& self.frameallocator@.max <= self.machine.size_spec()
        &&& table_inv(self.mem(), self.l1_base(), self.l2_self as int, self.frameallocator@.next_free as int)
    }

    /// The frame of the L2 table that the first-level entry for `v` points at.
    pub closed spec fn l2_of(&self, v: int) -> int {
        frame_of(self.l1_entry_of(v))
    }

    /// The word of the L2 table that holds the leaf entry for `v`.
    pub closed spec fn leaf_index(&self, v: int) -> int {
        self.l2_of(v) / 4 + l2_index(v)
    }

    /// The leaf entry for `v`.
    pub closed spec fn leaf_word(&self, v: int) -> u32 {
        self.mem()[self.leaf_index(v)]
    }

    /// The first-level entry for virtual address `v`.
    pub closed spec fn l1_entry_of(&self, v: int) -> u32 {
        l1_entry(self.mem(), self.l1_base(), l1_index(v))
    }

    /// The invariant of the table, with the self window in view.
    proof fn lemma_wf_window(&self)
        requires
            self.wf(),
        ensures
            table_inv(self.mem(), self.l1_base(), self.l2_self as int, self.frameallocator@.next_free as int),
            forall|i: int| 0 <= i < 4096 ==> #[trigger] walk(self.mem(), self.l1_base(), L1_SELF + 4 * i)
                == Some(self.l1_base() + 4 * i),
            forall|j: int| 0 <= j < 1024 ==> #[trigger] walk(self.mem(), self.l1_base(), L1_SELF + 4 * 4096 + 4 * j)
                == Some(self.l2_self + 4 * j),
    {
        lemma_self_window(self.mem(), self.l1_base(), self.l2_self as int, self.frameallocator@.next_free as int);
    }

    /// Gives first-level slot `l1_idx` an L2 table when it has none; says
    /// whether it did. Fails, changing nothing, when no frame is left.
    #[verifier::rlimit(100)]
    fn ensure_l2(&mut self, l1_idx: usize) -> (r: Result<bool, ()>)
        requires
            old(self).wf(),
            l1_idx < 4096,
            l1_idx != SELF_INDEX,
        ensures
            final(self).wf(),
            final(self).l1_base() == old(self).l1_base(),
            final(self).l2_self == old(self).l2_self,
            final(self).allocator().max == old(self).allocator().max,
            final(self).allocator().ranges == old(self).allocator().ranges,
            final(self).allocator().next_free >= old(self).allocator().next_free,
            r is Err <==> (l1_entry(old(self).mem(), old(self).l1_base(), l1_idx as int) == 0
                && alloc_step(old(self).allocator(), 1).1 is None),
            r is Err ==> final(self).mem() == old(self).mem() && final(self).allocator() == old(self).allocator(),
            r == Ok::<bool, ()>(false) ==> final(self).mem() == old(self).mem() && final(self).allocator() == old(self).allocator(),
            r is Ok ==> (r == Ok::<bool, ()>(true)) == (l1_entry(old(self).mem(), old(self).l1_base(), l1_idx as int) == 0),
            r is Ok ==> l1_entry(final(self).mem(), final(self).l1_base(), l1_idx as int) != 0,
            r == Ok::<bool, ()>(true) ==> {
                let e = l1_entry(final(self).mem(), final(self).l1_base(), l1_idx as int);
                &&& final(self).mem() == old(self).mem().update(old(self).l1_base() / 4 + l1_idx, e)
                &&& frame_of(e) >= old(self).allocator().next_free
                &&& e == l1_coarse_word(frame_of(e))
                &&& final(self).allocator() == alloc_step(old(self).allocator(), 1).0
                &&& alloc_step(old(self).allocator(), 1).1 == Some(frame_of(e) as usize)
            },
    {
        let ghost mem0 = self.mem();
        let ghost l1 = self.l1_base();
        let ghost l2s = self.l2_self as int;
        let ghost bound0 = self.frameallocator@.next_free as int;
        proof {
            self.lemma_wf_window();
        }
        let entry = self.descriptors.get(&self.machine, l1_idx);
        if entry.is_present() {
            return Ok(false);
        }
        let frame = match self.frameallocator.allocate(1) {
            Some(f) => f,
            None => {
                return Err(());
            },
        };
        proof {
            lemma_placed(old(self).allocator().ranges, old(self).allocator().next_free, 4096);
            assert(frame.0 % 4096 == 0);
        }
        let ghost bound1 = self.frameallocator@.next_free as int;
        let d = L1TableDescriptor::new(frame);
        self.descriptors.set_entry(&mut self.machine, l1_idx, d);
        proof {
            let m = self.mem();
            assert(m == mem0.update(l1 / 4 + l1_idx, d.0));
            assert(l2_slot_ok(m, l1, l2s, bound1, l1_idx as int));
            assert forall|i: int| 0 <= i < 4096 && i != SELF_INDEX implies #[trigger] l2_slot_ok(m, l1, l2s, bound1, i) by {
                if i != l1_idx {
                    assert(l1_entry(m, l1, i) == l1_entry(mem0, l1, i));
                    assert(l2_slot_ok(mem0, l1, l2s, bound0, i));
                }
            }
            assert forall|i: int, j: int|
                0 <= i < 4096 && 0 <= j < 4096 && i != j && i != SELF_INDEX && j != SELF_INDEX
                    && #[trigger] l1_entry(m, l1, i) != 0 && #[trigger] l1_entry(m, l1, j) != 0
                    implies frame_of(l1_entry(m, l1, i)) != frame_of(l1_entry(m, l1, j)) by {
                if i == l1_idx {
                    assert(l2_slot_ok(mem0, l1, l2s, bound0, j));
                } else if j == l1_idx {
                    assert(l2_slot_ok(mem0, l1, l2s, bound0, i));
                } else {
                    assert(l1_entry(m, l1, i) == l1_entry(mem0, l1, i));
                    assert(l1_entry(m, l1, j) == l1_entry(mem0, l1, j));
                }
            }
            assert(l1_entry(m, l1, SELF_INDEX as int) == l1_entry(mem0, l1, SELF_INDEX as int));
            assert forall|k: int| 0 <= k < 5 implies m[l2s / 4 + k] == l2_normal_word(#[trigger] table_frame(l1, l2s, k)) by {
                assert(m[l2s / 4 + k] == mem0[l2s / 4 + k]);
            }
            assert(table_inv(m, l1, l2s, bound1));
        }
        Ok(true)
    }

    /// Lends the scratch slot of the self map to the L2 table of first-level
    /// slot `l1_idx`, which must be present; returns that table's frame.
    #[verifier::rlimit(100)]
    fn open_scratch(&mut self, l1_idx: usize) -> (r: PhysicalAddress)
        requires
            old(self).wf(),
            l1_idx < 4096,
            l1_idx != SELF_INDEX,
            l1_entry(old(self).mem(), old(self).l1_base(), l1_idx as int) != 0,
        ensures
            final(self).wf(),
            final(self).l1_base() == old(self).l1_base(),
            final(self).l2_self == old(self).l2_self,
            final(self).allocator() == old(self).allocator(),
            r.0 == frame_of(l1_entry(old(self).mem(), old(self).l1_base(), l1_idx as int)),
            final(self).mem() == old(self).mem().update(old(self).l2_self / 4 + 5, l2_normal_word(r.0 as int)),
            is_frame(r.0 as int),
            r.0 / 4 + 1024 <= old(self).mem().len(),
            outside_table(r.0 as int, old(self).l1_base(), old(self).l2_self as int),
            r.0 + 4096 <= old(self).allocator().next_free,
    {
        let ghost l1 = self.l1_base();
        let ghost l2s = self.l2_self as int;
        let ghost bound = self.frameallocator@.next_free as int;
        proof {
            self.lemma_wf_window();
            assert(l2_slot_ok(self.mem(), l1, l2s, bound, l1_idx as int));
        }
        let entry = self.descriptors.get(&self.machine, l1_idx);
        let l2phy = entry.get_physical_address();
        let ghost mem1 = self.mem();
        self.tmp_map.set_entry(&mut self.machine, SCRATCH_SLOT, L2TableDescriptor::new(l2phy));
        proof {
            lemma_table_inv_agree(mem1, self.mem(), l1, l2s, bound);
        }
        l2phy
    }

    /// Clears the L2 frame `f` that the scratch slot maps.
    #[verifier::rlimit(100)]
    fn clear_scratch(&mut self, f: PhysicalAddress)
        requires
            old(self).wf(),
            old(self).mem()[old(self).l2_self / 4 + 5] == l2_normal_word(f.0 as int),
            is_frame(f.0 as int),
            f.0 / 4 + 1024 <= old(self).mem().len(),
            outside_table(f.0 as int, old(self).l1_base(), old(self).l2_self as int),
        ensures
            final(self).wf(),
            final(self).l1_base() == old(self).l1_base(),
            final(self).l2_self == old(self).l2_self,
            final(self).allocator() == old(self).allocator(),
            final(self).mem().len() == old(self).mem().len(),
            final(self).mem()[final(self).l2_self / 4 + 5] == l2_normal_word(f.0 as int),
            forall|w: int| 0 <= w < old(self).mem().len() && !(f.0 / 4 <= w < f.0 / 4 + 1024)
                ==> #[trigger] final(self).mem()[w] == old(self).mem()[w],
            forall|w: int| f.0 / 4 <= w < f.0 / 4 + 1024 ==> #[trigger] final(self).mem()[w] == 0,
    {
        let ghost mem2 = self.mem();
        let ghost l1 = self.l1_base();
        let ghost l2s = self.l2_self as int;
        let ghost bound = self.frameallocator@.next_free as int;
        let scratch = L2Table { base: VirtualAddress(L1_SELF + SCRATCH_SLOT * PAGE_SIZE) };
        let mut j: usize = 0;
        while j < 1024
            invariant
                self.machine.wf(),
                self.machine@.ttbr == l1,
                self.l2_self == old(self).l2_self,
                self.frameallocator == old(self).frameallocator,
                self.descriptors == old(self).descriptors,
                self.tmp_map == old(self).tmp_map,
                self.machine.size_spec() == old(self).machine.size_spec(),
                scratch.base.0 == L1_SELF + 5 * 4096,
                0 <= j <= 1024,
                self.mem().len() == mem2.len(),
                mem2 == old(self).mem(),
                0 <= l1 && l1 % 4 == 0 && l1 / 4 + 4096 <= mem2.len(),
                is_frame(l2s),
                l2s / 4 + 1024 <= mem2.len(),
                l2s + 4096 <= l1 || l2s >= l1 + 0x4000,
                l1_entry(mem2, l1, SELF_INDEX as int) == l1_coarse_word(l2s),
                mem2[l2s / 4 + 5] == l2_normal_word(f.0 as int),
                is_frame(f.0 as int),
                f.0 / 4 + 1024 <= mem2.len(),
                outside_table(f.0 as int, l1, l2s),
                forall|w: int| 0 <= w < mem2.len() && !(f.0 / 4 <= w < f.0 / 4 + 1024)
                    ==> #[trigger] self.mem()[w] == mem2[w],
                forall|w: int| f.0 / 4 <= w < f.0 / 4 + j ==> #[trigger] self.mem()[w] == 0,
            decreases 1024 - j,
        {
            let ghost m = self.mem();
            proof {
                assert(m[l1 / 4 + SELF_INDEX] == mem2[l1 / 4 + SELF_INDEX]);
                assert(m[l2s / 4 + 5] == mem2[l2s / 4 + 5]);
                lemma_window(m, l1, l2s, 5, f.0 as int, 4 * j as int);
            }
            scratch.set_word(&mut self.machine, j, 0);
            j = j + 1;
        }
        proof {
            let mem3 = self.mem();
            assert forall|i: int| 0 <= i < 4096 implies #[trigger] l1_entry(mem3, l1, i) == l1_entry(mem2, l1, i) by {
                assert(mem3[l1 / 4 + i] == mem2[l1 / 4 + i]);
            }
            assert forall|k: int| 0 <= k < 5 implies #[trigger] mem3[l2s / 4 + k] == mem2[l2s / 4 + k] by {
            }
            lemma_table_inv_agree(mem2, mem3, l1, l2s, bound);
            assert(mem3[l2s / 4 + 5] == mem2[l2s / 4 + 5]);
        }
    }

    /// Writes the leaf entry `p` for the page holding `v`, first giving that
    /// page's MiB an L2 table when it has none. The L2 table is reached
    /// through the scratch slot of the self map; a new one is cleared before
    /// use. Fails, changing nothing, when no frame is left for the L2 table.
    #[verifier::rlimit(100)]
    fn map_single_descriptor(&mut self, p: L2TableDescriptor, v: VirtualAddress) -> (r: Result<(), ()>)
        requires
            old(self).wf(),
            v.0 < 0x1_0000_0000,
            l1_index(v.0 as int) != SELF_INDEX,
        ensures
            final(self).wf(),
            r is Err <==> (old(self).l1_entry_of(v.0 as int) == 0
                && alloc_step(old(self).allocator(), 1).1 is None),
            r is Err ==> final(self).mem() == old(self).mem() && final(self).allocator() == old(self).allocator(),
            final(self).allocator().max == old(self).allocator().max,
            final(self).allocator().ranges == old(self).allocator().ranges,
            final(self).allocator().next_free >= old(self).allocator().next_free,
            final(self).l1_base() == old(self).l1_base(),
            final(self).l2_self_base() == old(self).l2_self_base(),
            final(self).mem().len() == old(self).mem().len(),
            r is Ok ==> final(self).leaf_word(v.0 as int) == p.0,
            r is Ok ==> single_edit(*old(self), *final(self), v.0 as int),
            r is Ok ==> forall|u: int| #![trigger final(self).translation(u)]
                u / 4096 == v.0 / 4096 ==> final(self).translation(u) == (if p.0 == 0 {
                    None
                } else {
                    Some(frame_of(p.0) + u % 4096)
                }),
            r is Ok ==> forall|u: int| #![trigger final(self).translation(u)]
                u / 4096 != v.0 / 4096 && l1_index(u) != SELF_INDEX
                    ==> final(self).translation(u) == old(self).translation(u),
    {
        let ghost mem0 = self.mem();
        let ghost l1 = self.l1_base();
        let ghost l2s = self.l2_self as int;
        let ghost bound0 = self.frameallocator@.next_free as int;
        proof {
            self.lemma_wf_window();
        }
        let l1_idx: usize = v.0 / MB_SIZE;
        let fresh = match self.ensure_l2(l1_idx) {
            Ok(b) => b,
            Err(()) => {
                return Err(());
            },
        };
        let ghost mem1 = self.mem();
        let ghost bound1 = self.frameallocator@.next_free as int;
        let l2phy = self.open_scratch(l1_idx);
        let ghost mem2 = self.mem();
        if fresh {
            self.clear_scratch(l2phy);
        }
        let ghost mem3 = self.mem();
        let l2_idx: usize = (v.0 / PAGE_SIZE) % 256;
        proof {
            self.lemma_wf_window();
            assert(mem3[l1 / 4 + SELF_INDEX] == mem2[l1 / 4 + SELF_INDEX]);
            assert(mem2[l1 / 4 + SELF_INDEX] == mem1[l1 / 4 + SELF_INDEX]);
            lemma_window(mem3, l1, l2s, 5, l2phy.0 as int, 4 * l2_idx as int);
        }
        let scratch = L2Table { base: VirtualAddress(L1_SELF + SCRATCH_SLOT * PAGE_SIZE) };
        scratch.set_entry(&mut self.machine, l2_idx, p);
        let ghost mem4 = self.mem();
        proof {
            assert(mem4 == mem3.update(l2phy.0 / 4 + l2_idx, p.0));
            assert forall|i: int| 0 <= i < 4096 implies #[trigger] l1_entry(mem4, l1, i) == l1_entry(mem3, l1, i) by {
                assert(mem4[l1 / 4 + i] == mem3[l1 / 4 + i]);
            }
            assert forall|k: int| 0 <= k < 5 implies #[trigger] mem4[l2s / 4 + k] == mem3[l2s / 4 + k] by {
            }
            lemma_table_inv_agree(mem3, mem4, l1, l2s, bound1);
            self.lemma_translation_after(mem0, mem1, mem2, mem3, bound0, bound1, l1_idx, l2_idx, l2phy, fresh, p, v);
            lemma_single_edit(*old(self), *self, mem1, mem2, mem3, l2phy.0 as int, fresh, p.0, v.0 as int);
        }
        Ok(())
    }

    #[verifier::rlimit(100)]
    proof fn lemma_translation_after(&self, mem0: Seq<u32>, mem1: Seq<u32>, mem2: Seq<u32>, mem3: Seq<u32>,
        bound0: int, bound1: int, l1_idx: usize, l2_idx: usize, l2phy: PhysicalAddress, fresh: bool,
        p: L2TableDescriptor, v: VirtualAddress)
        requires
            table_inv(mem0, self.l1_base(), self.l2_self as int, bound0),
            table_inv(mem1, self.l1_base(), self.l2_self as int, bound1),
            l1_idx == l1_index(v.0 as int),
            l2_idx == l2_index(v.0 as int),
            l1_idx != SELF_INDEX,
            v.0 < 0x1_0000_0000,
            !fresh ==> mem1 == mem0,
            fresh ==> l1_entry(mem0, self.l1_base(), l1_idx as int) == 0,
            fresh ==> mem1 == mem0.update(self.l1_base() / 4 + l1_idx, l1_entry(mem1, self.l1_base(), l1_idx as int)),
            fresh ==> frame_of(l1_entry(mem1, self.l1_base(), l1_idx as int)) >= bound0,
            l2phy.0 == frame_of(l1_entry(mem1, self.l1_base(), l1_idx as int)),
            l1_entry(mem1, self.l1_base(), l1_idx as int) != 0,
            mem2 == mem1.update(self.l2_self / 4 + 5, l2_normal_word(l2phy.0 as int)),
            l2phy.0 / 4 + 1024 <= mem1.len(),
            is_frame(l2phy.0 as int),
            outside_table(l2phy.0 as int, self.l1_base(), self.l2_self as int),
            mem3.len() == mem2.len(),
            forall|w: int| 0 <= w < mem2.len() && !(l2phy.0 / 4 <= w < l2phy.0 / 4 + 1024)
                ==> #[trigger] mem3[w] == mem2[w],
            fresh ==> forall|w: int| l2phy.0 / 4 <= w < l2phy.0 / 4 + 1024 ==> #[trigger] mem3[w] == 0,
            !fresh ==> mem3 == mem2,
            self.mem() == mem3.update(l2phy.0 / 4 + l2_idx, p.0),
        ensures
            forall|u: int| #![trigger walk(self.mem(), self.l1_base(), u)]
                u / 4096 == v.0 / 4096 ==> walk(self.mem(), self.l1_base(), u) == (if p.0 == 0 {
                    None
                } else {
                    Some(frame_of(p.0) + u % 4096)
                }),
            forall|u: int| #![trigger walk(self.mem(), self.l1_base(), u)]
                u / 4096 != v.0 / 4096 && l1_index(u) != SELF_INDEX
                    ==> walk(self.mem(), self.l1_base(), u) == walk(mem0, self.l1_base(), u),
    {
        let l1 = self.l1_base();
        let l2s = self.l2_self as int;
        let mem4 = self.mem();
        assert(l1_entry(mem4, l1, l1_idx as int) == l1_entry(mem1, l1, l1_idx as int));
        assert forall|u: int| #![trigger walk(mem4, l1, u)]
            u / 4096 == v.0 / 4096 implies walk(mem4, l1, u) == (if p.0 == 0 {
                None
            } else {
                Some(frame_of(p.0) + u % 4096)
            }) by {
            assert(l1_index(u) == l1_idx);
            assert(l2_index(u) == l2_idx);
        }
        assert forall|u: int| #![trigger walk(mem4, l1, u)]
            u / 4096 != v.0 / 4096 && l1_index(u) != SELF_INDEX implies walk(mem4, l1, u) == walk(mem0, l1, u) by {
            if 0 <= u < 0x1_0000_0000 {
                let i1 = l1_index(u);
                assert(l2_slot_ok(mem0, l1, l2s, bound0, i1));
                assert(l2_slot_ok(mem1, l1, l2s, bound1, i1));
                if i1 == l1_idx {
                    assert(l2_index(u) != l2_idx);
                    if fresh {
                        assert(l2phy.0 / 4 + l2_index(u) != l2phy.0 / 4 + l2_idx);
                        assert(mem4[l2phy.0 / 4 + l2_index(u)] == 0);
                        assert(walk(mem4, l1, u) is None);
                    } else {
                        lemma_frames_apart(l2phy.0 as int, l2s, l2_index(u), 5);
                        lemma_walk_agree(mem0, mem4, l1, u);
                    }
                } else {
                    assert(l1_entry(mem4, l1, i1) == l1_entry(mem0, l1, i1));
                    let e = l1_entry(mem0, l1, i1);
                    if e != 0 {
                        let f = frame_of(e);
                        if !fresh {
                            assert(l1_entry(mem1, l1, i1) == e);
                        }
                        assert(f != l2phy.0);
                        lemma_frames_apart(f, l2phy.0 as int, l2_index(u), l2_idx as int);
                        lemma_frames_apart(f, l2s, l2_index(u), 5);
                        assert(mem4[f / 4 + l2_index(u)] == mem0[f / 4 + l2_index(u)]);
                    }
                    lemma_walk_agree(mem0, mem4, l1, u);
                }
            }
        }
    }
}

impl PageTable {
    /// Maps the page holding `v` to the normal-memory frame `p`. Fails,
    /// changing nothing, when no frame is left for a new L2 table.
    pub fn map_single(&mut self, p: PhysicalAddress, v: VirtualAddress) -> (r: Result<(), ()>)
        requires
            old(self).wf(),
            is_frame(p.0 as int),
            v.0 < 0x1_0000_0000,
            l1_index(v.0 as int) != SELF_INDEX,
        ensures
            final(self).wf(),
            r is Err <==> (old(self).l1_entry_of(v.0 as int) == 0
                && alloc_step(old(self).allocator(), 1).1 is None),
            r is Err ==> final(self).mem() == old(self).mem() && final(self).allocator() == old(self).allocator(),
            final(self).allocator().max == old(self).allocator().max,
            final(self).allocator().ranges == old(self).allocator().ranges,
            final(self).allocator().next_free >= old(self).allocator().next_free,
            final(self).l1_base() == old(self).l1_base(),
            final(self).l2_self_base() == old(self).l2_self_base(),
            final(self).mem().len() == old(self).mem().len(),
            r is Ok ==> forall|u: int| #![trigger final(self).translation(u)]
                u / 4096 == v.0 / 4096 ==> final(self).translation(u) == Some(p.0 + u % 4096),
            r is Ok ==> forall|u: int| #![trigger final(self).translation(u)]
                u / 4096 != v.0 / 4096 && l1_index(u) != SELF_INDEX
                    ==> final(self).translation(u) == old(self).translation(u),
            r is Ok ==> final(self).leaf_word(v.0 as int) == l2_normal_word(p.0 as int),
            r is Ok ==> single_edit(*old(self), *final(self), v.0 as int),
    {
        self.map_single_descriptor(L2TableDescriptor::new(p), v)
    }

    /// Maps the page holding `v` to the device frame `p` (strongly ordered:
    /// neither cached nor buffered). Fails, changing nothing, when no frame
    /// is left for a new L2 table.
    pub fn map_device(&mut self, p: PhysicalAddress, v: VirtualAddress) -> (r: Result<(), ()>)
        requires
            old(self).wf(),
            is_frame(p.0 as int),
            v.0 < 0x1_0000_0000,
            l1_index(v.0 as int) != SELF_INDEX,
        ensures
            final(self).wf(),
            r is Err <==> (old(self).l1_entry_of(v.0 as int) == 0
                && alloc_step(old(self).allocator(), 1).1 is None),
            r is Err ==> final(self).mem() == old(self).mem() && final(self).allocator() == old(self).allocator(),
            final(self).allocator().max == old(self).allocator().max,
            final(self).allocator().ranges == old(self).allocator().ranges,
            final(self).allocator().next_free >= old(self).allocator().next_free,
            final(self).l1_base() == old(self).l1_base(),
            final(self).l2_self_base() == old(self).l2_self_base(),
            final(self).mem().len() == old(self).mem().len(),
            r is Ok ==> forall|u: int| #![trigger final(self).translation(u)]
                u / 4096 == v.0 / 4096 ==> final(self).translation(u) == Some(p.0 + u % 4096),
            r is Ok ==> forall|u: int| #![trigger final(self).translation(u)]
                u / 4096 != v.0 / 4096 && l1_index(u) != SELF_INDEX
                    ==> final(self).translation(u) == old(self).translation(u),
            r is Ok ==> final(self).leaf_word(v.0 as int) == l2_device_word(p.0 as int),
            r is Ok ==> single_edit(*old(self), *final(self), v.0 as int),
    {
        let ghost l1 = self.l1_base();
        let r = self.map_single_descriptor(L2TableDescriptor::new_device(p), v);
        proof {
            if r is Ok {
                assert(self.translation(v.0 as int) == Some(p.0 + v.0 % 4096));
            }
        }
        r
    }

    /// Removes the mapping of the page holding `v`.
    #[verifier::rlimit(100)]
    pub fn unmap_single(&mut self, v: VirtualAddress)
        requires
            old(self).wf(),
            v.0 < 0x1_0000_0000,
            l1_index(v.0 as int) != SELF_INDEX,
        ensures
            final(self).wf(),
            final(self).allocator() == old(self).allocator(),
            final(self).l1_base() == old(self).l1_base(),
            final(self).mem().len() == old(self).mem().len(),
            forall|u: int| #![trigger final(self).translation(u)]
                u / 4096 == v.0 / 4096 ==> final(self).translation(u) is None,
            forall|u: int| #![trigger final(self).translation(u)]
                u / 4096 != v.0 / 4096 && l1_index(u) != SELF_INDEX
                    ==> final(self).translation(u) == old(self).translation(u),
    {
        let ghost mem0 = self.mem();
        let ghost l1 = self.l1_base();
        let ghost l2s = self.l2_self as int;
        let ghost bound0 = self.frameallocator@.next_free as int;
        proof {
            self.lemma_wf_window();
        }
        let l1_idx: usize = v.0 / MB_SIZE;
        let entry = self.descriptors.get(&self.machine, l1_idx);
        if !entry.is_present() {
            proof {
                assert forall|u: int| #![trigger self.translation(u)]
                    u / 4096 == v.0 / 4096 implies self.translation(u) is None by {
                    assert(l1_index(u) == l1_idx);
                }
            }
            return;
        }
        let l2phy = self.open_scratch(l1_idx);
        let ghost mem2 = self.mem();
        let l2_idx: usize = (v.0 / PAGE_SIZE) % 256;
        proof {
            self.lemma_wf_window();
            lemma_window(mem2, l1, l2s, 5, l2phy.0 as int, 4 * l2_idx as int);
        }
        let scratch = L2Table { base: VirtualAddress(L1_SELF + SCRATCH_SLOT * PAGE_SIZE) };
        scratch.set_entry(&mut self.machine, l2_idx, L2TableDescriptor(0));
        proof {
            let mem4 = self.mem();
            assert(mem4 == mem2.update(l2phy.0 / 4 + l2_idx, 0u32));
            assert forall|i: int| 0 <= i < 4096 implies #[trigger] l1_entry(mem4, l1, i) == l1_entry(mem2, l1, i) by {
                assert(mem4[l1 / 4 + i] == mem2[l1 / 4 + i]);
            }
            assert forall|k: int| 0 <= k < 5 implies #[trigger] mem4[l2s / 4 + k] == mem2[l2s / 4 + k] by {
            }
            lemma_table_inv_agree(mem2, mem4, l1, l2s, bound0);
            self.lemma_translation_after(mem0, mem0, mem2, mem2, bound0, bound0, l1_idx, l2_idx, l2phy, false,
                L2TableDescriptor(0), v);
        }
    }

    /// Maps `npages` pages from `v` on to the frames from `p` on, as normal
    /// or device memory. Fails when no frame is left for a new L2 table; the
    /// pages before the failing one stay mapped.
    #[verifier::rlimit(100)]
    fn map_range(&mut self, p: PhysicalAddress, v: VirtualAddress, npages: usize, device: bool) -> (r: Result<(), ()>)
        requires
            old(self).wf(),
            p.0 % 4096 == 0,
            v.0 % 4096 == 0,
            p.0 + npages * 4096 <= 0x1_0000_0000,
            v.0 + npages * 4096 <= 0x1_0000_0000,
            v.0 + npages * 4096 <= L1_SELF || v.0 >= L1_SELF + MB_SIZE,
        ensures
            final(self).wf(),
            final(self).allocator().max == old(self).allocator().max,
            final(self).allocator().ranges == old(self).allocator().ranges,
            final(self).l1_base() == old(self).l1_base(),
            final(self).l2_self_base() == old(self).l2_self_base(),
            exists|used: nat| used <= npages && final(self).allocator() == alloc_frames(old(self).allocator(), used),
            old(self).allocator().ranges.len() == 0 && old(self).allocator().next_free + npages * 4096
                <= old(self).allocator().max ==> r is Ok,
            alloc_step(old(self).allocator(), 1).1 is None
                && (exists|k: int| 0 <= k < npages && #[trigger] old(self).l1_entry_of(v.0 + k * 4096) == 0) ==> r is Err,
            r is Err ==> alloc_step(final(self).allocator(), 1).1 is None,
            r is Ok ==> range_done(*old(self), *final(self), p.0 as int, v.0 as int, npages as int, device),
            r is Ok ==> forall|u: int| #![trigger final(self).translation(u)]
                v.0 <= u < v.0 + npages * 4096 ==> final(self).translation(u) == Some(p.0 + (u - v.0)),
            r is Ok ==> forall|u: int| #![trigger final(self).translation(u)]
                !(v.0 <= u < v.0 + npages * 4096) && l1_index(u) != SELF_INDEX
                    ==> final(self).translation(u) == old(self).translation(u),
    {
        let mut k: usize = 0;
        let ghost mut used: nat = 0;
        proof {
            assert(range_done(*old(self), *self, p.0 as int, v.0 as int, 0, device));
        }
        while k < npages
            invariant
                self.wf(),
                0 <= k <= npages,
                p.0 % 4096 == 0,
                v.0 % 4096 == 0,
                p.0 + npages * 4096 <= 0x1_0000_0000,
                v.0 + npages * 4096 <= 0x1_0000_0000,
                v.0 + npages * 4096 <= L1_SELF || v.0 >= L1_SELF + MB_SIZE,
                self.frameallocator@.max == old(self).allocator().max,
                self.frameallocator@.ranges == old(self).allocator().ranges,
                self.l1_base() == old(self).l1_base(),
                self.l2_self_base() == old(self).l2_self_base(),
                self.mem().len() == old(self).mem().len(),
                used <= k,
                self.allocator() == alloc_frames(old(self).allocator(), used),
                old(self).allocator().next_free <= self.allocator().next_free,
                old(self).allocator().ranges.len() == 0 ==> self.allocator().next_free
                    <= old(self).allocator().next_free + k * 4096,
                range_done(*old(self), *self, p.0 as int, v.0 as int, k as int, device),
                alloc_step(old(self).allocator(), 1).1 is None ==> self.allocator() == old(self).allocator()
                    && (forall|i: int| 0 <= i < 4096 ==> #[trigger] l1_entry(self.mem(), self.l1_base(), i)
                        == l1_entry(old(self).mem(), old(self).l1_base(), i))
                    && (forall|j: int| 0 <= j < k ==> #[trigger] old(self).l1_entry_of(v.0 + j * 4096) != 0),
                forall|u: int| #![trigger self.translation(u)]
                    v.0 <= u < v.0 + k * 4096 ==> self.translation(u) == Some(p.0 + (u - v.0)),
                forall|u: int| #![trigger self.translation(u)]
                    !(v.0 <= u < v.0 + k * 4096) && l1_index(u) != SELF_INDEX
                        ==> self.translation(u) == old(self).translation(u),
            decreases npages - k,
        {
            assert(k * 4096 < npages * 4096) by (nonlinear_arith)
                requires k < npages;
            let pk = PhysicalAddress(p.0 + k * PAGE_SIZE);
            let vk = VirtualAddress(v.0 + k * PAGE_SIZE);
            proof {
                assert(pk.0 % 4096 == 0);
                assert(vk.0 / 4096 * 4096 == vk.0);
            }
            let ghost before = *self;
            proof {
                if old(self).allocator().ranges.len() == 0 {
                    lemma_alloc_no_ranges(self.allocator(), 1);
                    if old(self).allocator().next_free + npages * 4096 <= old(self).allocator().max {
                        assert(k * 4096 + 4096 <= npages * 4096) by (nonlinear_arith)
                            requires k < npages;
                    }
                }
            }
            let r = if device {
                self.map_device(pk, vk)
            } else {
                self.map_single(pk, vk)
            };
            if r.is_err() {
                return Err(());
            }
            proof {
                assert forall|j: int| 0 <= j <= k implies #[trigger] l1_index(v.0 + j * 4096) != SELF_INDEX by {
                    assert(j * 4096 <= k * 4096) by (nonlinear_arith)
                        requires j <= k;
                }
                assert(self.translation(vk.0 as int) is Some);
                lemma_range_step(*old(self), before, *self, p.0 as int, v.0 as int, k as int, device);
                if alloc_step(old(self).allocator(), 1).1 is None {
                    lemma_exhausted_edit(before, *self, vk.0 as int);
                    assert(before.l1_entry_of(vk.0 as int) != 0);
                    assert(old(self).l1_entry_of(vk.0 as int) == before.l1_entry_of(vk.0 as int));
                }
                if self.allocator() != before.allocator() {
                    used = used + 1;
                    if old(self).allocator().ranges.len() == 0 {
                        lemma_alloc_no_ranges(before.allocator(), 1);
                    }
                }

                assert forall|u: int| #![trigger self.translation(u)]
                    v.0 <= u < v.0 + (k + 1) * 4096 implies self.translation(u) == Some(p.0 + (u - v.0)) by {
                    if u < v.0 + k * 4096 {
                        assert(u / 4096 != vk.0 / 4096);
                        assert(l1_index(u) != SELF_INDEX);
                        assert(before.translation(u) == Some(p.0 + (u - v.0)));
                    } else {
                        assert(u / 4096 == vk.0 / 4096);
                        assert(u % 4096 == u - vk.0);
                    }
                }
                assert forall|u: int| #![trigger self.translation(u)]
                    !(v.0 <= u < v.0 + (k + 1) * 4096) && l1_index(u) != SELF_INDEX
                        implies self.translation(u) == old(self).translation(u) by {
                    assert(u / 4096 != vk.0 / 4096);
                    assert(before.translation(u) == old(self).translation(u));
                }
            }
            k = k + 1;
        }
        Ok(())
    }
}

impl PageTable {
    /// The physical address that `v` is mapped to, found by walking both levels.
    pub fn virt_to_phys(&self, v: VirtualAddress) -> (r: Option<PhysicalAddress>)
        requires
            self.wf(),
        ensures
            r matches Some(p) ==> self.translation(v.0 as int) == Some(p.0 as int),
            r is None ==> self.translation(v.0 as int) is None,
    {
        match self.machine.translate(v.0) {
            Some(p) => Some(PhysicalAddress(p)),
            None => None,
        }
    }

    /// The lowest virtual address mapped to `p`, found by walking every page.
    #[verifier::rlimit(100)]
    pub fn phys_to_virt(&self, p: PhysicalAddress) -> (r: Option<VirtualAddress>)
        requires
            self.wf(),
        ensures
            r matches Some(v) ==> self.translation(v.0 as int) == Some(p.0 as int),
            r is None ==> forall|u: int| 0 <= u ==> #[trigger] self.translation(u) != Some(p.0 as int),
    {
        let off: usize = p.0 % PAGE_SIZE;
        let target: usize = p.0 - off;
        let mut page: usize = 0;
        while page < 0x10_0000
            invariant
                self.wf(),
                0 <= page <= 0x10_0000,
                off == p.0 % 4096,
                target == p.0 - off,
                forall|q: int| 0 <= q < page ==> #[trigger] self.translation(q * 4096) != Some(target as int),
            decreases 0x10_0000 - page,
        {
            let v: usize = page * PAGE_SIZE;
            match self.machine.translate(v) {
                Some(f) => {
                    if f == target {
                        proof {
                            lemma_walk_page(self.mem(), self.l1_base(), v + off);
                            assert((v + off) - (v + off) % 4096 == v);
                        }
                        return Some(VirtualAddress(v + off));
                    }
                },
                None => {},
            }
            page = page + 1;
        }
        proof {
            assert forall|u: int| 0 <= u implies #[trigger] self.translation(u) != Some(p.0 as int) by {
                lemma_walk_page(self.mem(), self.l1_base(), u);
                let b = u - u % 4096;
                if self.translation(u) == Some(p.0 as int) {
                    let f = self.translation(b)->Some_0;
                    assert(u < 0x1_0000_0000);
                    assert(f + u % 4096 == p.0);
                    assert(u % 4096 == off);
                    assert(b == (u / 4096) * 4096);
                    assert(self.translation((u / 4096) * 4096) != Some(target as int));
                }
            }
        }
        None
    }

    /// Checks a mapping request of `size` bytes and serves it.
    #[verifier::rlimit(100)]
    fn map_checked(&mut self, p: PhysicalAddress, v: VirtualAddress, size: MemorySize, device: bool) -> (r: Result<(), ()>)
        requires
            old(self).wf(),
            size.bytes() <= usize::MAX,
        ensures
            final(self).wf(),
            !map_request_ok(p.0 as int, v.0 as int, pages_for(size.bytes())) ==> r is Err && *final(self) == *old(self),
            r is Err && map_request_ok(p.0 as int, v.0 as int, pages_for(size.bytes()))
                ==> alloc_step(final(self).allocator(), 1).1 is None,
            range_mapped(*old(self), *final(self), p.0 as int, v.0 as int, pages_for(size.bytes()), device, r is Ok),
            r is Ok ==> forall|u: int| #![trigger final(self).translation(u)]
                v.0 <= u < v.0 + pages_for(size.bytes()) * 4096 ==> final(self).translation(u) == Some(p.0 + (u - v.0)),
            r is Ok ==> forall|u: int| #![trigger final(self).translation(u)]
                !(v.0 <= u < v.0 + pages_for(size.bytes()) * 4096) && l1_index(u) != SELF_INDEX
                    ==> final(self).translation(u) == old(self).translation(u),
    {
        let bytes = to_bytes(size);
        let npages: usize = bytes / PAGE_SIZE + if bytes % PAGE_SIZE != 0 { 1usize } else { 0usize };
        assert(npages == pages_for(size.bytes()));
        proof {
            assert(alloc_frames(old(self).allocator(), 0) == old(self).allocator());
        }
        if npages > 0x10_0000 || p.0 % PAGE_SIZE != 0 || v.0 % PAGE_SIZE != 0 {
            return Err(());
        }
        let span: u64 = npages as u64 * 4096;
        if p.0 as u64 > 0x1_0000_0000u64 - span || v.0 as u64 > 0x1_0000_0000u64 - span {
            return Err(());
        }
        if !(v.0 as u64 + span <= L1_SELF as u64 || v.0 as u64 >= L1_SELF as u64 + MB_SIZE as u64) {
            return Err(());
        }
        self.map_range(p, v, npages, device)
    }
}

impl PVMapper for PageTable {
    open spec fn ready(&self) -> bool {
        self.wf()
    }

    fn v2p(&self, v: VirtualAddress) -> (r: Option<PhysicalAddress>)
        ensures
            r matches Some(p) ==> self.translation(v.0 as int) == Some(p.0 as int),
            r is None ==> self.translation(v.0 as int) is None,
    {
        self.virt_to_phys(v)
    }

    fn p2v(&self, p: PhysicalAddress) -> (r: Option<VirtualAddress>)
        ensures
            r matches Some(v) ==> self.translation(v.0 as int) == Some(p.0 as int),
            r is None ==> forall|u: int| 0 <= u ==> #[trigger] self.translation(u) != Some(p.0 as int),
    {
        self.phys_to_virt(p)
    }
}

impl MemoryMapper for PageTable {
    /// Maps the pages covering `size` bytes from `v` on to the frames from
    /// `p` on. Refused, changing nothing, unless both addresses are page
    /// aligned, the range fits the address space and stays clear of the
    /// self-map window; fails when frames for L2 tables run out.
    fn map(&mut self, p: PhysicalAddress, v: VirtualAddress, size: MemorySize) -> (r: Result<(), ()>)
        ensures
            !map_request_ok(p.0 as int, v.0 as int, pages_for(size.bytes())) ==> r is Err && *final(self) == *old(self),
            r is Err && map_request_ok(p.0 as int, v.0 as int, pages_for(size.bytes()))
                ==> alloc_step(final(self).allocator(), 1).1 is None,
            range_mapped(*old(self), *final(self), p.0 as int, v.0 as int, pages_for(size.bytes()), false, r is Ok),
            r is Ok ==> forall|i: int| #![trigger final(self).translation(v.0 + i)]
                0 <= i < pages_for(size.bytes()) * 4096 ==> final(self).translation(v.0 + i) == Some(p.0 + i),
            r is Ok ==> forall|u: int| #![trigger final(self).translation(u)]
                !(v.0 <= u < v.0 + pages_for(size.bytes()) * 4096) && l1_index(u) != SELF_INDEX
                    ==> final(self).translation(u) == old(self).translation(u),
    {
        let r = self.map_checked(p, v, size, false);
        proof {
            if r is Ok {
                assert forall|i: int| #![trigger self.translation(v.0 + i)]
                    0 <= i < pages_for(size.bytes()) * 4096 implies self.translation(v.0 + i) == Some(p.0 + i) by {
                    assert(v.0 <= v.0 + i < v.0 + pages_for(size.bytes()) * 4096);
                }
            }
        }
        r
    }

    /// Removes the mappings of the pages covering `size` bytes from `v` on.
    /// Refused, changing nothing, unless `v` is page aligned and the range
    /// fits the address space and stays clear of the self-map window.
    fn unmap(&mut self, v: VirtualAddress, size: MemorySize) -> (r: Result<(), ()>)
        ensures
            !map_request_ok(0, v.0 as int, pages_for(size.bytes())) <==> r is Err,
            r is Err ==> *final(self) == *old(self),
            r is Ok ==> forall|u: int| #![trigger final(self).translation(u)]
                v.0 <= u < v.0 + pages_for(size.bytes()) * 4096 ==> final(self).translation(u) is None,
            r is Ok ==> forall|u: int| #![trigger final(self).translation(u)]
                !(v.0 <= u < v.0 + pages_for(size.bytes()) * 4096) && l1_index(u) != SELF_INDEX
                    ==> final(self).translation(u) == old(self).translation(u),
            final(self).allocator() == old(self).allocator(),
    {
        let bytes = to_bytes(size);
        let npages: usize = bytes / PAGE_SIZE + if bytes % PAGE_SIZE != 0 { 1usize } else { 0usize };
        assert(npages == pages_for(size.bytes()));
        if npages > 0x10_0000 || v.0 % PAGE_SIZE != 0 {
            return Err(());
        }
        let span: u64 = npages as u64 * 4096;
        if v.0 as u64 > 0x1_0000_0000u64 - span {
            return Err(());
        }
        if !(v.0 as u64 + span <= L1_SELF as u64 || v.0 as u64 >= L1_SELF as u64 + MB_SIZE as u64) {
            return Err(());
        }
        let mut k: usize = 0;
        while k < npages
            invariant
                self.wf(),
                0 <= k <= npages,
                npages <= 0x10_0000,
                v.0 % 4096 == 0,
                v.0 + npages * 4096 <= 0x1_0000_0000,
                v.0 + npages * 4096 <= L1_SELF || v.0 >= L1_SELF + MB_SIZE,
                self.allocator() == old(self).allocator(),
                self.l1_base() == old(self).l1_base(),
                forall|u: int| #![trigger self.translation(u)]
                    v.0 <= u < v.0 + k * 4096 ==> self.translation(u) is None,
                forall|u: int| #![trigger self.translation(u)]
                    !(v.0 <= u < v.0 + k * 4096) && l1_index(u) != SELF_INDEX
                        ==> self.translation(u) == old(self).translation(u),
            decreases npages - k,
        {
            assert(k * 4096 < npages * 4096) by (nonlinear_arith)
                requires k < npages;
            let vk = VirtualAddress(v.0 + k * PAGE_SIZE);
            proof {
                assert(vk.0 / 4096 * 4096 == vk.0);
            }
            let ghost before = *self;
            self.unmap_single(vk);
            proof {
                assert forall|u: int| #![trigger self.translation(u)]
                    v.0 <= u < v.0 + (k + 1) * 4096 implies self.translation(u) is None by {
                    if u < v.0 + k * 4096 {
                        assert(u / 4096 != vk.0 / 4096);
                        assert(before.translation(u) is None);
                    } else {
                        assert(u / 4096 == vk.0 / 4096);
                    }
                }
                assert forall|u: int| #![trigger self.translation(u)]
                    !(v.0 <= u < v.0 + (k + 1) * 4096) && l1_index(u) != SELF_INDEX
                        implies self.translation(u) == old(self).translation(u) by {
                    assert(u / 4096 != vk.0 / 4096);
                    assert(before.translation(u) == old(self).translation(u));
                }
            }
            k = k + 1;
        }
        Ok(())
    }

    /// As `map`, for device memory.
    fn map_device_range(&mut self, p: PhysicalAddress, v: VirtualAddress, size: MemorySize) -> (r: Result<(), ()>)
        ensures
            !map_request_ok(p.0 as int, v.0 as int, pages_for(size.bytes())) ==> r is Err && *final(self) == *old(self),
            r is Err && map_request_ok(p.0 as int, v.0 as int, pages_for(size.bytes()))
                ==> alloc_step(final(self).allocator(), 1).1 is None,
            range_mapped(*old(self), *final(self), p.0 as int, v.0 as int, pages_for(size.bytes()), true, r is Ok),
            r is Ok ==> forall|i: int| #![trigger final(self).translation(v.0 + i)]
                0 <= i < pages_for(size.bytes()) * 4096 ==> final(self).translation(v.0 + i) == Some(p.0 + i),
            r is Ok ==> forall|u: int| #![trigger final(self).translation(u)]
                !(v.0 <= u < v.0 + pages_for(size.bytes()) * 4096) && l1_index(u) != SELF_INDEX
                    ==> final(self).translation(u) == old(self).translation(u),
    {
        let r = self.map_checked(p, v, size, true);
        proof {
            if r is Ok {
                assert forall|i: int| #![trigger self.translation(v.0 + i)]
                    0 <= i < pages_for(size.bytes()) * 4096 implies self.translation(v.0 + i) == Some(p.0 + i) by {
                    assert(v.0 <= v.0 + i < v.0 + pages_for(size.bytes()) * 4096);
                }
            }
        }
        r
    }
}

impl L1Table {
    /// The virtual address of entry `i`.
    pub open spec fn entry_addr(&self, i: int) -> int {
        self.base.0 + 4 * i
    }

    /// Entry `i`, read through the active table.
    pub fn get(&self, m: &Machine, i: usize) -> (r: L1TableDescriptor)
        requires
            m.wf(),
            i < L1TABLE_ENTRIES,
            self.base.0 + 4 * L1TABLE_ENTRIES <= usize::MAX,
            walk(m@.mem, m@.ttbr as int, self.entry_addr(i as int)) matches Some(p) && p % 4 == 0 && p / 4 < m@.mem.len(),
        ensures
            r.0 == m@.mem[walk(m@.mem, m@.ttbr as int, self.entry_addr(i as int))->Some_0 / 4],
    {
        L1TableDescriptor(m.read_virt(self.base.0 + 4 * i))
    }

    /// Writes entry `i` through the active table.
    pub fn set_entry(&self, m: &mut Machine, i: usize, desc: L1TableDescriptor)
        requires
            old(m).wf(),
            i < L1TABLE_ENTRIES,
            self.base.0 + 4 * L1TABLE_ENTRIES <= usize::MAX,
            walk(old(m)@.mem, old(m)@.ttbr as int, self.entry_addr(i as int)) matches Some(p) && p / 4 < old(m)@.mem.len(),
        ensures
            final(m)@.mem == old(m)@.mem.update(
                walk(old(m)@.mem, old(m)@.ttbr as int, self.entry_addr(i as int))->Some_0 / 4, desc.0),
            final(m)@.ttbr == old(m)@.ttbr,
            final(m).wf(),
    {
        m.write_virt(self.base.0 + 4 * i, desc.0);
    }

    /// Writes the entry for the MiB holding `v` through the active table.
    pub fn set(&self, m: &mut Machine, v: VirtualAddress, desc: L1TableDescriptor)
        requires
            old(m).wf(),
            v.0 < 0x1_0000_0000,
            self.base.0 + 4 * L1TABLE_ENTRIES <= usize::MAX,
            walk(old(m)@.mem, old(m)@.ttbr as int, self.entry_addr(l1_index(v.0 as int))) matches Some(p)
                && p / 4 < old(m)@.mem.len(),
        ensures
            final(m)@.mem == old(m)@.mem.update(
                walk(old(m)@.mem, old(m)@.ttbr as int, self.entry_addr(l1_index(v.0 as int)))->Some_0 / 4, desc.0),
            final(m)@.ttbr == old(m)@.ttbr,
            final(m).wf(),
    {
        self.set_entry(m, v.0 / MB_SIZE, desc);
    }
}

impl L2Table {
    /// The virtual address of entry `i`.
    pub open spec fn entry_addr(&self, i: int) -> int {
        self.base.0 + 4 * i
    }

    /// Writes entry `i` through the active table.
    pub fn set_entry(&self, m: &mut Machine, i: usize, desc: L2TableDescriptor)
        requires
            old(m).wf(),
            i < L2TABLE_ENTRIES,
            self.base.0 + 4 * 1024 <= usize::MAX,
            walk(old(m)@.mem, old(m)@.ttbr as int, self.entry_addr(i as int)) matches Some(p) && p / 4 < old(m)@.mem.len(),
        ensures
            final(m)@.mem == old(m)@.mem.update(
                walk(old(m)@.mem, old(m)@.ttbr as int, self.entry_addr(i as int))->Some_0 / 4, desc.0),
            final(m)@.ttbr == old(m)@.ttbr,
            final(m).wf(),
    {
        m.write_virt(self.base.0 + 4 * i, desc.0);
    }

    /// Writes word `i` of the page behind the window (of which the first
    /// quarter holds the entries) through the active table.
    pub fn set_word(&self, m: &mut Machine, i: usize, val: u32)
        requires
            old(m).wf(),
            i < 1024,
            self.base.0 + 4 * 1024 <= usize::MAX,
            walk(old(m)@.mem, old(m)@.ttbr as int, self.entry_addr(i as int)) matches Some(p) && p / 4 < old(m)@.mem.len(),
        ensures
            final(m)@.mem == old(m)@.mem.update(
                walk(old(m)@.mem, old(m)@.ttbr as int, self.entry_addr(i as int))->Some_0 / 4, val),
            final(m)@.ttbr == old(m)@.ttbr,
            final(m).wf(),
    {
        m.write_virt(self.base.0 + 4 * i, val);
    }
}

} // verus!

verus! {

/// Rounds `a` up to a whole number of pages.
pub fn up(a: usize) -> (r: usize)
    requires
        a + 4095 <= usize::MAX,
    ensures
        r == (a + 4095) / 4096 * 4096,
        r >= a,
        r % 4096 == 0,
{
    (a + (PAGE_SIZE - 1)) / PAGE_SIZE * PAGE_SIZE
}

/// How many frames into a run starting at `at` the first 16 KiB boundary lies.
pub open spec fn init_shift(at: int) -> int {
    (4 - (at / 4096) % 4) % 4
}

/// Takes seven frames and picks five of them: four contiguous ones that
/// start on a 16 KiB boundary (room for a first-level table) and one more.
/// Gives the other two back. Fails, changing nothing, when seven frames
/// cannot be had.
#[verifier::rlimit(100)]
pub fn get_init_frames(fa: &mut LameFrameAllocator) -> (r: Option<[PhysicalAddress; 5]>)
    requires
        old(fa).wf(),
    ensures
        final(fa).wf(),
        final(fa)@.max == old(fa)@.max,
        final(fa)@.ranges == old(fa)@.ranges,
        r is None <==> alloc_step(old(fa)@, 7).1 is None,
        r is None ==> final(fa)@ == old(fa)@,
        r matches Some(fs) ==> {
            &&& final(fa)@ == alloc_step(old(fa)@, 7).0
            &&& fs@[0].0 % 0x4000 == 0
            &&& forall|k: int| 0 <= k < 4 ==> #[trigger] fs@[k].0 == fs@[0].0 + k * 4096
            &&& fs@[4].0 % 4096 == 0
            &&& fs@[4].0 + 4096 <= fs@[0].0 || fs@[4].0 >= fs@[0].0 + 0x4000
            &&& fs@[0].0 >= old(fa)@.next_free && fs@[4].0 >= old(fa)@.next_free
            &&& fs@[0].0 == alloc_step(old(fa)@, 7).1->Some_0 + init_shift(alloc_step(old(fa)@, 7).1->Some_0 as int) * 4096
            &&& fs@[4].0 == alloc_step(old(fa)@, 7).1->Some_0
                + ((4 + init_shift(alloc_step(old(fa)@, 7).1->Some_0 as int)) % 7) * 4096
            &&& alloc_step(old(fa)@, 7).1->Some_0 <= fs@[0].0
            &&& fs@[0].0 + 0x4000 <= alloc_step(old(fa)@, 7).1->Some_0 + 7 * 4096
            &&& alloc_step(old(fa)@, 7).1->Some_0 <= fs@[4].0
            &&& fs@[4].0 + 4096 <= alloc_step(old(fa)@, 7).1->Some_0 + 7 * 4096
            &&& fs@[0].0 + 0x4000 <= final(fa)@.next_free && fs@[4].0 + 4096 <= final(fa)@.next_free
        },
{
    let pa = match fa.allocate(7) {
        Some(pa) => pa,
        None => {
            return None;
        },
    };
    proof {
        lemma_placed(old(fa)@.ranges, old(fa)@.next_free, 7 * 4096int);
        assert(pa.0 % 4096 == 0);
    }
    let start: usize = (4 - (pa.0 / PAGE_SIZE) % 4) % 4;
    let mut free_frames: [PhysicalAddress; 7] = [PhysicalAddress(0); 7];
    let mut i: usize = 0;
    while i < 7
        invariant
            0 <= i <= 7,
            pa.0 + 7 * 4096 <= usize::MAX,
            start < 4,
            forall|j: int| 0 <= j < i ==> #[trigger] free_frames@[j].0 == pa.0 + ((j + start) % 7) * 4096,
        decreases 7 - i,
    {
        free_frames[i] = PhysicalAddress(pa.0 + ((i + start) % 7) * PAGE_SIZE);
        i = i + 1;
    }
    fa.deallocate(free_frames[5], 1);
    fa.deallocate(free_frames[6], 1);
    let r = [free_frames[0], free_frames[1], free_frames[2], free_frames[3], free_frames[4]];
    proof {
        assert((pa.0 + start * 4096) % 0x4000 == 0);
        assert(r@[4].0 == pa.0 + ((4 + start) % 7) * 4096);
    }
    Some(r)
}

/// The word that `fill_window` leaves at index `j`: zero, or a normal
/// small-page entry for the `j`-th frame from `first` on.
pub open spec fn fill_word(first: Option<usize>, j: int) -> u32 {
    match first {
        Some(p) => l2_normal_word(p + j * 4096),
        None => 0,
    }
}

/// Writes `n` words from virtual address `start` on, inside the self-map
/// window of the active table, whose window L2 is the frame `w`: zeros, or
/// small-page entries for consecutive frames from `first` on. The words
/// land at physical `base` on, clear of the active first level and of `w`.
fn fill_window(m: &mut Machine, w: Ghost<int>, start: usize, base: Ghost<int>, n: usize, first: Option<usize>)
    requires
        old(m).wf(),
        0 <= old(m)@.ttbr && old(m)@.ttbr % 4 == 0 && old(m)@.ttbr / 4 + 4096 <= old(m)@.mem.len(),
        is_frame(w@),
        w@ / 4 + 1024 <= old(m)@.mem.len(),
        l1_entry(old(m)@.mem, old(m)@.ttbr as int, SELF_INDEX as int) == l1_coarse_word(w@),
        L1_SELF <= start,
        start + 4 * n <= L1_SELF + MB_SIZE,
        forall|j: int| 0 <= j < n ==> #[trigger] walk(old(m)@.mem, old(m)@.ttbr as int, start + 4 * j) == Some(base@ + 4 * j),
        0 <= base@,
        base@ % 4 == 0,
        base@ / 4 + n <= old(m)@.mem.len(),
        base@ / 4 + n <= old(m)@.ttbr / 4 || base@ / 4 >= old(m)@.ttbr / 4 + 4096,
        base@ / 4 + n <= w@ / 4 || base@ / 4 >= w@ / 4 + 1024,
        first matches Some(p) ==> p % 4096 == 0 && p + n * 4096 <= 0x1_0000_0000,
    ensures
        final(m).wf(),
        final(m)@.ttbr == old(m)@.ttbr,
        final(m)@.mem.len() == old(m)@.mem.len(),
        forall|i: int| 0 <= i < old(m)@.mem.len() && !(base@ / 4 <= i < base@ / 4 + n)
            ==> #[trigger] final(m)@.mem[i] == old(m)@.mem[i],
        forall|j: int| 0 <= j < n ==> #[trigger] final(m)@.mem[base@ / 4 + j] == fill_word(first, j),
{
    let ghost mem0 = m@.mem;
    let ghost a = m@.ttbr as int;
    let mut j: usize = 0;
    while j < n
        invariant
            m.wf(),
            m@.ttbr == a,
            m@.mem.len() == mem0.len(),
            0 <= j <= n,
            0 <= a && a % 4 == 0 && a / 4 + 4096 <= mem0.len(),
            is_frame(w@),
            w@ / 4 + 1024 <= mem0.len(),
            l1_entry(mem0, a, SELF_INDEX as int) == l1_coarse_word(w@),
            L1_SELF <= start,
            start + 4 * n <= L1_SELF + MB_SIZE,
            forall|k: int| 0 <= k < n ==> #[trigger] walk(mem0, a, start + 4 * k) == Some(base@ + 4 * k),
            0 <= base@,
            base@ % 4 == 0,
            base@ / 4 + n <= mem0.len(),
            base@ / 4 + n <= a / 4 || base@ / 4 >= a / 4 + 4096,
            base@ / 4 + n <= w@ / 4 || base@ / 4 >= w@ / 4 + 1024,
            first matches Some(p) ==> p % 4096 == 0 && p + n * 4096 <= 0x1_0000_0000,
            forall|i: int| 0 <= i < mem0.len() && !(base@ / 4 <= i < base@ / 4 + n)
                ==> #[trigger] m@.mem[i] == mem0[i],
            forall|k: int| 0 <= k < j ==> #[trigger] m@.mem[base@ / 4 + k] == fill_word(first, k),
        decreases n - j,
    {
        proof {
            let v = start + 4 * j;
            assert(walk(mem0, a, v) == Some(base@ + 4 * j));
            assert(l1_index(v) == SELF_INDEX);
            lemma_descriptor_words(w@);
            assert(m@.mem[a / 4 + SELF_INDEX] == mem0[a / 4 + SELF_INDEX]);
            assert(m@.mem[w@ / 4 + l2_index(v)] == mem0[w@ / 4 + l2_index(v)]);
            lemma_walk_agree(mem0, m@.mem, a, v);
        }
        let val: u32 = match first {
            Some(p) => {
                proof {
                    assert(p + j * 4096 + 4096 <= 0x1_0000_0000) by (nonlinear_arith)
                        requires j < n, p + n * 4096 <= 0x1_0000_0000;
                    assert((p + j * 4096) % 4096 == 0) by (nonlinear_arith)
                        requires p % 4096 == 0;
                }
                L2TableDescriptor::new(PhysicalAddress(p + j * PAGE_SIZE)).0
            },
            None => 0,
        };
        m.write_virt(start + 4 * j, val);
        j = j + 1;
    }
}

} // verus!

verus! {

/// Installing a fresh L2 frame `f` in slot `idx` keeps the table invariant.
proof fn lemma_table_inv_install(mem: Seq<u32>, l1: int, l2s: int, bound0: int, bound1: int, idx: int, f: int)
    requires
        table_inv(mem, l1, l2s, bound0),
        0 <= idx < 4096,
        idx != SELF_INDEX,
        is_frame(f),
        f >= bound0,
        f + 4096 <= bound1,
        f / 4 + 1024 <= mem.len(),
    ensures
        table_inv(mem.update(l1 / 4 + idx, l1_coarse_word(f)), l1, l2s, bound1),
{
    let m = mem.update(l1 / 4 + idx, l1_coarse_word(f));
    lemma_descriptor_words(f);
    assert(l2_slot_ok(m, l1, l2s, bound1, idx));
    assert forall|i: int| 0 <= i < 4096 && i != SELF_INDEX implies #[trigger] l2_slot_ok(m, l1, l2s, bound1, i) by {
        if i != idx {
            assert(l1_entry(m, l1, i) == l1_entry(mem, l1, i));
            assert(l2_slot_ok(mem, l1, l2s, bound0, i));
        }
    }
    assert forall|i: int, j: int|
        0 <= i < 4096 && 0 <= j < 4096 && i != j && i != SELF_INDEX && j != SELF_INDEX
            && #[trigger] l1_entry(m, l1, i) != 0 && #[trigger] l1_entry(m, l1, j) != 0
            implies frame_of(l1_entry(m, l1, i)) != frame_of(l1_entry(m, l1, j)) by {
        if i == idx {
            assert(l2_slot_ok(mem, l1, l2s, bound0, j));
        } else if j == idx {
            assert(l2_slot_ok(mem, l1, l2s, bound0, i));
        } else {
            assert(l1_entry(m, l1, i) == l1_entry(mem, l1, i));
            assert(l1_entry(m, l1, j) == l1_entry(mem, l1, j));
        }
    }
    assert(l1_entry(m, l1, SELF_INDEX as int) == l1_entry(mem, l1, SELF_INDEX as int));
    assert forall|k: int| 0 <= k < 5 implies m[l2s / 4 + k] == l2_normal_word(#[trigger] table_frame(l1, l2s, k)) by {
        assert(m[l2s / 4 + k] == mem[l2s / 4 + k]);
    }
}

/// The invariant survives a larger bound.
proof fn lemma_table_inv_grow(mem: Seq<u32>, l1: int, l2s: int, bound0: int, bound1: int)
    requires
        table_inv(mem, l1, l2s, bound0),
        bound0 <= bound1,
    ensures
        table_inv(mem, l1, l2s, bound1),
{
    assert forall|i: int| 0 <= i < 4096 && i != SELF_INDEX implies #[trigger] l2_slot_ok(mem, l1, l2s, bound1, i) by {
        assert(l2_slot_ok(mem, l1, l2s, bound0, i));
    }
}

/// Frame run `[f, f + size)` keeps clear of the boot first level at `a`
/// and the boot L2 at `w`.
pub open spec fn clear_of_boot(f: int, size: int, a: int, w: int) -> bool {
    &&& f + size <= a || f >= a + 0x4000
    &&& f + size <= w || f >= w + 4096
}

/// Neither boot table can be handed out.
pub open spec fn boot_tables_kept(ranges: Seq<Range<usize>>, floor: int, max: int, a: int, w: int) -> bool {
    kept_from_allocator(ranges, floor, max, a, a + 0x4000) && kept_from_allocator(ranges, floor, max, w, w + 4096)
}

/// A run handed out at or above `floor`, meeting no reserved range, keeps
/// clear of the boot tables.
proof fn lemma_fresh_clear(ranges: Seq<Range<usize>>, floor: int, max: int, a: int, w: int, x: int, size: int)
    requires
        boot_tables_kept(ranges, floor, max, a, w),
        x >= floor,
        x + size <= max,
        size >= 0,
        forall|j: int| 0 <= j < ranges.len() ==> !overlaps(#[trigger] ranges[j], x, x + size),
    ensures
        clear_of_boot(x, size, a, w),
{
    if !(a + 0x4000 <= floor) && !(a >= max) {
        let i = choose|i: int| 0 <= i < ranges.len() && ranges[i].start <= a && a + 0x4000 <= ranges[i].end;
        assert(!overlaps(ranges[i], x, x + size));
    }
    if !(w + 4096 <= floor) && !(w >= max) {
        let i = choose|i: int| 0 <= i < ranges.len() && ranges[i].start <= w && w + 4096 <= ranges[i].end;
        assert(!overlaps(ranges[i], x, x + size));
    }
}

/// The state while a new table (first level `f0`, self-map L2 `f4`) is
/// built under the boot table `a`, whose window L2 `w` maps the five new
/// frames: the new table keeps its invariant, and neither it nor any L2
/// it points at shares a frame with the boot tables.
pub open spec fn boot_inv(mem: Seq<u32>, a: int, w: int, f0: int, f4: int, bound: int) -> bool {
    &&& table_inv(mem, f0, f4, bound)
    &&& 0 <= a && a % 4 == 0 && a / 4 + 4096 <= mem.len()
    &&& is_frame(w) && w / 4 + 1024 <= mem.len()
    &&& w + 4096 <= a || w >= a + 0x4000
    &&& clear_of_boot(f0, 0x4000, a, w) && clear_of_boot(f4, 4096, a, w)
    &&& l1_entry(mem, a, SELF_INDEX as int) == l1_coarse_word(w)
    &&& forall|k: int| 0 <= k < 5 ==> mem[w / 4 + k] == l2_normal_word(#[trigger] table_frame(f0, f4, k))
    &&& forall|i: int| 0 <= i < 4096 && i != SELF_INDEX && #[trigger] l1_entry(mem, f0, i) != 0
        ==> clear_of_boot(frame_of(l1_entry(mem, f0, i)), 4096, a, w)
}

/// Under the boot table, word `i` of the new first level is seen at
/// `L1_SELF + 4 * i`.
proof fn lemma_boot_window(mem: Seq<u32>, a: int, w: int, f0: int, f4: int, bound: int, i: int)
    requires
        boot_inv(mem, a, w, f0, f4, bound),
        0 <= i < 4096,
    ensures
        walk(mem, a, L1_SELF + 4 * i) == Some(f0 + 4 * i),
{
    let k = i / 1024;
    assert(table_frame(f0, f4, k) == f0 + k * 4096);
    assert(is_frame(f0 + k * 4096));
    lemma_window(mem, a, w, k, f0 + k * 4096, 4 * (i % 1024));
}

/// Takes a fresh frame for the L2 table of slot `idx` of the new table,
/// fills it through the boot window's scratch slot (with small-page entries
/// for 256 frames from `first` on, or with zeros) and installs it.
/// Fails, changing nothing, when no frame is left.
#[verifier::rlimit(100)]
fn boot_install_l2(m: &mut Machine, fa: &mut LameFrameAllocator, w: usize, f0: Ghost<int>, f4: Ghost<int>,
    floor: Ghost<int>, idx: usize, first: Option<usize>) -> (r: Result<(), ()>)
    requires
        old(m).wf(),
        old(fa).wf(),
        old(fa)@.max <= old(m)@.mem.len() * 4,
        boot_inv(old(m)@.mem, old(m)@.ttbr as int, w as int, f0@, f4@, old(fa)@.next_free as int),
        boot_tables_kept(old(fa)@.ranges, floor@, old(fa)@.max as int, old(m)@.ttbr as int, w as int),
        floor@ <= old(fa)@.next_free,
        idx < 4096,
        idx != SELF_INDEX,
        first matches Some(p) ==> p % 4096 == 0 && p + 256 * 4096 <= 0x1_0000_0000,
    ensures
        final(m).wf(),
        final(fa).wf(),
        final(m)@.ttbr == old(m)@.ttbr,
        final(m)@.mem.len() == old(m)@.mem.len(),
        final(fa)@.max == old(fa)@.max,
        final(fa)@.ranges == old(fa)@.ranges,
        final(fa)@ == alloc_step(old(fa)@, 1).0,
        final(fa)@.next_free >= old(fa)@.next_free,
        r is Ok <==> alloc_step(old(fa)@, 1).1 is Some,
        r is Err ==> final(m)@ == old(m)@,
        boot_inv(final(m)@.mem, final(m)@.ttbr as int, w as int, f0@, f4@, final(fa)@.next_free as int),
        r is Ok ==> l1_entry(final(m)@.mem, f0@, idx as int) != 0,
        r is Ok ==> forall|i: int| 0 <= i < 4096 && i != idx
            ==> #[trigger] l1_entry(final(m)@.mem, f0@, i) == l1_entry(old(m)@.mem, f0@, i),
        r is Ok ==> forall|u: int| #![trigger walk(final(m)@.mem, f0@, u)]
            0 <= u < 0x1_0000_0000 && l1_index(u) == idx ==> walk(final(m)@.mem, f0@, u) == (match first {
                Some(p) => Some(p + l2_index(u) * 4096 + u % 4096),
                None => None,
            }),
        r is Ok ==> forall|u: int| #![trigger walk(final(m)@.mem, f0@, u)]
            l1_index(u) != idx ==> walk(final(m)@.mem, f0@, u) == walk(old(m)@.mem, f0@, u),
{
    let ghost mem0 = m@.mem;
    let ghost a = m@.ttbr as int;
    let ghost bound0 = fa@.next_free as int;
    let frame = match fa.allocate(1) {
        Some(f) => f,
        None => {
            return Err(());
        },
    };
    let ghost bound1 = fa@.next_free as int;
    proof {
        lemma_placed(old(fa)@.ranges, old(fa)@.next_free, 4096int);
        assert(frame.0 % 4096 == 0);
        lemma_descriptor_words(frame.0 as int);
        lemma_fresh_clear(old(fa)@.ranges, floor@, old(fa)@.max as int, a, w as int, frame.0 as int, 4096);
    }
    m.write_phys(w + 4 * SCRATCH_SLOT, L2TableDescriptor::new(frame).0);
    let ghost mem1 = m@.mem;
    proof {
        assert(mem1 == mem0.update(w / 4 + 5, l2_normal_word(frame.0 as int)));
        assert(mem1[a / 4 + SELF_INDEX] == mem0[a / 4 + SELF_INDEX]);
        lemma_window(mem1, a, w as int, 5, frame.0 as int, 0);
        assert forall|j: int| 0 <= j < (if first is Some { 256int } else { 1024int })
            implies #[trigger] walk(mem1, a, L1_SELF + 5 * 4096 + 4 * j) == Some(frame.0 + 4 * j) by {
            lemma_window(mem1, a, w as int, 5, frame.0 as int, 4 * j);
        }
    }
    let n: usize = if first.is_some() { 256 } else { 1024 };
    fill_window(m, Ghost(w as int), L1_SELF + SCRATCH_SLOT * PAGE_SIZE, Ghost(frame.0 as int), n, first);
    let ghost mem2 = m@.mem;
    proof {
        assert forall|i: int| 0 <= i < 4096 implies #[trigger] l1_entry(mem2, f0@, i) == l1_entry(mem0, f0@, i) by {
            assert(mem2[f0@ / 4 + i] == mem1[f0@ / 4 + i]);
        }
        assert forall|k: int| 0 <= k < 5 implies #[trigger] mem2[f4@ / 4 + k] == mem0[f4@ / 4 + k] by {
            assert(mem2[f4@ / 4 + k] == mem1[f4@ / 4 + k]);
        }
        lemma_table_inv_agree(mem0, mem2, f0@, f4@, bound0);
        lemma_table_inv_grow(mem2, f0@, f4@, bound0, bound1);
        lemma_boot_window(mem0, a, w as int, f0@, f4@, bound0, idx as int);
        lemma_descriptor_words(w as int);
        assert(l1_index(L1_SELF + 4 * idx) == SELF_INDEX);
        assert(l2_index(L1_SELF + 4 * idx) == idx / 1024);
        assert(mem2[a / 4 + l1_index(L1_SELF + 4 * idx)] == mem0[a / 4 + l1_index(L1_SELF + 4 * idx)]);
        assert(mem2[w / 4 + l2_index(L1_SELF + 4 * idx)] == mem0[w / 4 + l2_index(L1_SELF + 4 * idx)]);
        lemma_walk_agree(mem0, mem2, a, L1_SELF + 4 * idx);
    }
    m.write_virt(L1_SELF + 4 * idx, L1TableDescriptor::new(frame).0);
    proof {
        let mem3 = m@.mem;
        assert(mem3 == mem2.update(f0@ / 4 + idx, l1_coarse_word(frame.0 as int)));
        assert(l1_entry(mem3, f0@, idx as int) == l1_coarse_word(frame.0 as int));
        assert forall|i: int| 0 <= i < 4096 && i != idx implies #[trigger] l1_entry(mem3, f0@, i) == l1_entry(mem0, f0@, i) by {
            assert(l1_entry(mem2, f0@, i) == l1_entry(mem0, f0@, i));
        }
        lemma_table_inv_install(mem2, f0@, f4@, bound0, bound1, idx as int, frame.0 as int);
        assert(mem3[a / 4 + SELF_INDEX] == mem0[a / 4 + SELF_INDEX]);
        assert forall|k: int| 0 <= k < 5 implies mem3[w / 4 + k] == l2_normal_word(#[trigger] table_frame(f0@, f4@, k)) by {
            assert(mem3[w / 4 + k] == mem0[w / 4 + k]);
        }
        assert forall|i: int| 0 <= i < 4096 && i != SELF_INDEX && #[trigger] l1_entry(mem3, f0@, i) != 0
            implies clear_of_boot(frame_of(l1_entry(mem3, f0@, i)), 4096, a, w as int) by {
            if i != idx {
                assert(l1_entry(mem3, f0@, i) == l1_entry(mem0, f0@, i));
            }
        }
        let n: int = if first is Some { 256 } else { 1024 };
        assert forall|x: int| 0 <= x < mem0.len() && !(frame.0 / 4 <= x < frame.0 / 4 + n) && x != w / 4 + 5
            && x != f0@ / 4 + idx implies #[trigger] mem3[x] == mem0[x] by {
            assert(mem2[x] == mem1[x]);
        }
        assert forall|j: int| 0 <= j < n implies #[trigger] mem3[frame.0 / 4 + j] == fill_word(first, j) by {
            assert(mem2[frame.0 / 4 + j] == fill_word(first, j));
        }
        lemma_boot_install_walks(mem0, mem3, a, w as int, f0@, f4@, bound0, idx as int, frame.0 as int, n, first);
    }
    Ok(())
}

} // verus!

verus! {

/// What an installed L2 table of slot `idx`, filled with `fill_word`, does
/// to the walks of the new table.
#[verifier::rlimit(100)]
proof fn lemma_boot_install_walks(mem0: Seq<u32>, mem3: Seq<u32>, a: int, w: int, f0: int, f4: int, bound0: int,
    idx: int, frame: int, n: int, first: Option<usize>)
    requires
        boot_inv(mem0, a, w, f0, f4, bound0),
        mem3.len() == mem0.len(),
        256 <= n <= 1024,
        0 <= idx < 4096,
        idx != SELF_INDEX,
        is_frame(frame),
        frame >= bound0,
        frame / 4 + 1024 <= mem0.len(),
        clear_of_boot(frame, 4096, a, w),
        l1_entry(mem3, f0, idx) == l1_coarse_word(frame),
        forall|x: int| 0 <= x < mem0.len() && !(frame / 4 <= x < frame / 4 + n) && x != w / 4 + 5
            && x != f0 / 4 + idx ==> #[trigger] mem3[x] == mem0[x],
        forall|j: int| 0 <= j < n ==> #[trigger] mem3[frame / 4 + j] == fill_word(first, j),
        first matches Some(p) ==> p % 4096 == 0 && p + 256 * 4096 <= 0x1_0000_0000,
    ensures
        forall|u: int| #![trigger walk(mem3, f0, u)]
            0 <= u < 0x1_0000_0000 && l1_index(u) == idx ==> walk(mem3, f0, u) == (match first {
                Some(p) => Some(p + l2_index(u) * 4096 + u % 4096),
                None => None,
            }),
        forall|u: int| #![trigger walk(mem3, f0, u)]
            l1_index(u) != idx ==> walk(mem3, f0, u) == walk(mem0, f0, u),
{
    lemma_descriptor_words(frame);
    lemma_descriptor_words(f4);
    assert forall|u: int| #![trigger walk(mem3, f0, u)]
        0 <= u < 0x1_0000_0000 && l1_index(u) == idx implies walk(mem3, f0, u) == (match first {
            Some(p) => Some(p + l2_index(u) * 4096 + u % 4096),
            None => None,
        }) by {
        assert(mem3[frame / 4 + l2_index(u)] == fill_word(first, l2_index(u)));
        if let Some(p) = first {
            lemma_descriptor_words(p + l2_index(u) * 4096);
        }
    }
    assert forall|u: int| #![trigger walk(mem3, f0, u)]
        l1_index(u) != idx implies walk(mem3, f0, u) == walk(mem0, f0, u) by {
        let i1 = l1_index(u);
        if 0 <= u < 0x1_0000_0000 {
            assert(mem3[f0 / 4 + i1] == mem0[f0 / 4 + i1]);
            let e = l1_entry(mem0, f0, i1);
            if e != 0 {
                let g = frame_of(e);
                if i1 == SELF_INDEX {
                    assert(g == f4);
                } else {
                    assert(l2_slot_ok(mem0, f0, f4, bound0, i1));
                }
                lemma_frames_apart(g, frame, l2_index(u), 0);
                assert(mem3[g / 4 + l2_index(u)] == mem0[g / 4 + l2_index(u)]);
            }
            lemma_walk_agree(mem0, mem3, f0, u);
        }
    }
}

/// Writing the leaf word `l2_idx` of the L2 frame `g` of slot `idx` (and
/// the boot window's scratch slot `w`) changes no other walk.
#[verifier::rlimit(100)]
proof fn lemma_set_leaf_walks(mem0: Seq<u32>, mem2: Seq<u32>, f0: int, f4: int, bound: int, idx: int, l2_idx: int,
    g: int, word: u32, w: int)
    requires
        table_inv(mem0, f0, f4, bound),
        0 <= idx < 4096,
        idx != SELF_INDEX,
        0 <= l2_idx < 256,
        l1_entry(mem0, f0, idx) != 0,
        g == frame_of(l1_entry(mem0, f0, idx)),
        w % 4096 == 0,
        0 <= w,
        w / 4 + 5 < mem0.len(),
        g != w,
        f4 != w,
        f0 + 0x4000 <= w || f0 >= w + 4096,
        forall|i: int| 0 <= i < 4096 && i != SELF_INDEX && #[trigger] l1_entry(mem0, f0, i) != 0
            ==> frame_of(l1_entry(mem0, f0, i)) != w,
        mem2 == mem0.update(w / 4 + 5, l2_normal_word(g)).update(g / 4 + l2_idx, word),
    ensures
        forall|u: int| #![trigger walk(mem2, f0, u)]
            !(l1_index(u) == idx && l2_index(u) == l2_idx) ==> walk(mem2, f0, u) == walk(mem0, f0, u),
{
    lemma_descriptor_words(f4);
    assert(l2_slot_ok(mem0, f0, f4, bound, idx));
    assert forall|u: int| #![trigger walk(mem2, f0, u)]
        !(l1_index(u) == idx && l2_index(u) == l2_idx) implies walk(mem2, f0, u) == walk(mem0, f0, u) by {
        let i1 = l1_index(u);
        if 0 <= u < 0x1_0000_0000 {
            assert(mem2[f0 / 4 + i1] == mem0[f0 / 4 + i1]);
            let e = l1_entry(mem0, f0, i1);
            if e != 0 {
                let h = frame_of(e);
                if i1 == SELF_INDEX {
                    lemma_frames_apart(g, f4, l2_idx, l2_index(u));
                    lemma_frames_apart(w, f4, 5, l2_index(u));
                } else {
                    assert(l2_slot_ok(mem0, f0, f4, bound, i1));
                    lemma_frames_apart(w, h, 5, l2_index(u));
                    if i1 != idx {
                        lemma_frames_apart(g, h, l2_idx, l2_index(u));
                    }
                }
                assert(mem2[h / 4 + l2_index(u)] == mem0[h / 4 + l2_index(u)]);
            }
            lemma_walk_agree(mem0, mem2, f0, u);
        }
    }
}

/// Writes entry `l2_idx` of the L2 table of slot `idx` of the new table,
/// which must be present, through the boot window's scratch slot.
#[verifier::rlimit(100)]
fn boot_set_leaf(m: &mut Machine, w: usize, f0: Ghost<int>, f4: Ghost<int>, bound: Ghost<int>,
    idx: usize, l2_idx: usize, desc: L2TableDescriptor)
    requires
        old(m).wf(),
        boot_inv(old(m)@.mem, old(m)@.ttbr as int, w as int, f0@, f4@, bound@),
        idx < 4096,
        idx != SELF_INDEX,
        l2_idx < 256,
        l1_entry(old(m)@.mem, f0@, idx as int) != 0,
    ensures
        final(m).wf(),
        final(m)@.ttbr == old(m)@.ttbr,
        final(m)@.mem.len() == old(m)@.mem.len(),
        boot_inv(final(m)@.mem, final(m)@.ttbr as int, w as int, f0@, f4@, bound@),
        forall|u: int| #![trigger walk(final(m)@.mem, f0@, u)]
            0 <= u < 0x1_0000_0000 && l1_index(u) == idx && l2_index(u) == l2_idx
                ==> walk(final(m)@.mem, f0@, u) == (if desc.0 == 0 {
                    None
                } else {
                    Some(frame_of(desc.0) + u % 4096)
                }),
        forall|u: int| #![trigger walk(final(m)@.mem, f0@, u)]
            !(l1_index(u) == idx && l2_index(u) == l2_idx) ==> walk(final(m)@.mem, f0@, u) == walk(old(m)@.mem, f0@, u),
{
    let ghost mem0 = m@.mem;
    let ghost a = m@.ttbr as int;
    proof {
        lemma_boot_window(mem0, a, w as int, f0@, f4@, bound@, idx as int);
        assert(l2_slot_ok(mem0, f0@, f4@, bound@, idx as int));
    }
    let entry = L1TableDescriptor(m.read_virt(L1_SELF + 4 * idx));
    let l2phy = entry.get_physical_address();
    let ghost g = l2phy.0 as int;
    proof {
        assert(clear_of_boot(g, 4096, a, w as int));
        lemma_descriptor_words(g);
    }
    m.write_phys(w + 4 * SCRATCH_SLOT, L2TableDescriptor::new(l2phy).0);
    let ghost mem1 = m@.mem;
    proof {
        assert(mem1[a / 4 + SELF_INDEX] == mem0[a / 4 + SELF_INDEX]);
        lemma_window(mem1, a, w as int, 5, g, 4 * l2_idx as int);
    }
    m.write_virt(L1_SELF + SCRATCH_SLOT * PAGE_SIZE + 4 * l2_idx, desc.0);
    proof {
        let mem2 = m@.mem;
        assert(mem2 == mem1.update(g / 4 + l2_idx, desc.0));
        assert forall|i: int| 0 <= i < 4096 implies #[trigger] l1_entry(mem2, f0@, i) == l1_entry(mem0, f0@, i) by {
            assert(mem2[f0@ / 4 + i] == mem0[f0@ / 4 + i]);
        }
        assert forall|k: int| 0 <= k < 5 implies #[trigger] mem2[f4@ / 4 + k] == mem0[f4@ / 4 + k] by {
            lemma_frames_apart(g, f4@, l2_idx as int, k);
        }
        lemma_table_inv_agree(mem0, mem2, f0@, f4@, bound@);
        assert(mem2[a / 4 + SELF_INDEX] == mem0[a / 4 + SELF_INDEX]);
        assert forall|k: int| 0 <= k < 5 implies mem2[w / 4 + k] == l2_normal_word(#[trigger] table_frame(f0@, f4@, k)) by {
            assert(mem2[w / 4 + k] == mem0[w / 4 + k]);
        }
        assert forall|i: int| 0 <= i < 4096 && i != SELF_INDEX && #[trigger] l1_entry(mem2, f0@, i) != 0
            implies clear_of_boot(frame_of(l1_entry(mem2, f0@, i)), 4096, a, w as int) by {
            assert(l1_entry(mem2, f0@, i) == l1_entry(mem0, f0@, i));
        }
        lemma_set_leaf_walks(mem0, mem2, f0@, f4@, bound@, idx as int, l2_idx as int, g, desc.0, w as int);
    }
}

/// Builds the new table's self map under the boot table: points the boot
/// window at the five new frames, clears the new first level and self-map
/// L2 through it, then makes the new table map its own frames at `L1_SELF`.
#[verifier::rlimit(100)]
fn boot_self_map(m: &mut Machine, l1_id: usize, l2_id: usize, fs: &[PhysicalAddress; 5], bound: Ghost<int>)
    requires
        old(m).wf(),
        old(m)@.ttbr == l1_id,
        l1_id % 0x4000 == 0,
        l1_id / 4 + 4096 <= old(m)@.mem.len(),
        is_frame(l2_id as int),
        l2_id / 4 + 1024 <= old(m)@.mem.len(),
        l2_id + 4096 <= l1_id || l2_id >= l1_id + 0x4000,
        fs@[0].0 % 0x4000 == 0,
        forall|k: int| 0 <= k < 4 ==> #[trigger] fs@[k].0 == fs@[0].0 + k * 4096,
        fs@[4].0 % 4096 == 0,
        fs@[4].0 + 4096 <= fs@[0].0 || fs@[4].0 >= fs@[0].0 + 0x4000,
        clear_of_boot(fs@[0].0 as int, 0x4000, l1_id as int, l2_id as int),
        clear_of_boot(fs@[4].0 as int, 4096, l1_id as int, l2_id as int),
        fs@[0].0 + 0x4000 <= bound@,
        fs@[4].0 + 4096 <= bound@,
        bound@ <= old(m)@.mem.len() * 4,
    ensures
        final(m).wf(),
        final(m)@.ttbr == old(m)@.ttbr,
        final(m)@.mem.len() == old(m)@.mem.len(),
        boot_inv(final(m)@.mem, l1_id as int, l2_id as int, fs@[0].0 as int, fs@[4].0 as int, bound@),
        forall|u: int| #![trigger walk(final(m)@.mem, fs@[0].0 as int, u)]
            l1_index(u) != SELF_INDEX ==> walk(final(m)@.mem, fs@[0].0 as int, u) is None,
        forall|i: int| 0 <= i < 4096 && i != SELF_INDEX ==> #[trigger] l1_entry(final(m)@.mem, fs@[0].0 as int, i) == 0,
{
    let ghost a = l1_id as int;
    let ghost w = l2_id as int;
    let ghost f0 = fs@[0].0 as int;
    let ghost f4 = fs@[4].0 as int;
    proof {
        lemma_descriptor_words(w);
        assert forall|k: int| 0 <= k < 5 implies is_frame(#[trigger] table_frame(f0, f4, k)) by {
            if k < 4 {
                assert(fs@[k].0 == f0 + k * 4096);
            }
        }
    }
    m.write_phys(l1_id + 4 * SELF_INDEX, L1TableDescriptor::new(PhysicalAddress(l2_id)).0);
    let mut k: usize = 0;
    while k < 5
        invariant
            m.wf(),
            m@.ttbr == a,
            m@.mem.len() == old(m)@.mem.len(),
            0 <= k <= 5,
            is_frame(w),
            w / 4 + 1024 <= m@.mem.len(),
            a % 0x4000 == 0,
            a / 4 + 4096 <= m@.mem.len(),
            w + 4096 <= a || w >= a + 0x4000,
            l1_entry(m@.mem, a, SELF_INDEX as int) == l1_coarse_word(w),
            forall|j: int| 0 <= j < 5 ==> is_frame(#[trigger] table_frame(f0, f4, j)),
            forall|j: int| 0 <= j < 4 ==> #[trigger] fs@[j].0 == fs@[0].0 + j * 4096,
            f0 == fs@[0].0,
            f4 == fs@[4].0,
            w == l2_id,
            a == l1_id,
            forall|j: int| 0 <= j < k ==> m@.mem[w / 4 + j] == l2_normal_word(#[trigger] table_frame(f0, f4, j)),
        decreases 5 - k,
    {
        proof {
            assert(fs@[k as int].0 == table_frame(f0, f4, k as int));
            assert(w / 4 * 4 + 4096 <= m@.mem.len() * 4);
            assert((l2_id + 4 * k) / 4 == w / 4 + k);
            assert(w / 4 + k != a / 4 + SELF_INDEX);
        }
        m.write_phys(l2_id + 4 * k, L2TableDescriptor::new(fs[k]).0);
        proof {
            assert(m@.mem[a / 4 + SELF_INDEX] == l1_coarse_word(w));
        }
        k = k + 1;
    }
    let ghost mem1 = m@.mem;
    proof {
        assert forall|j: int| 0 <= j < 4096 implies #[trigger] walk(mem1, a, L1_SELF + 4 * j) == Some(f0 + 4 * j) by {
            let q = j / 1024;
            assert(table_frame(f0, f4, q) == f0 + q * 4096);
            lemma_window(mem1, a, w, q, f0 + q * 4096, 4 * (j % 1024));
        }
    }
    fill_window(m, Ghost(w), L1_SELF, Ghost(f0), 4096, None);
    let ghost mem2 = m@.mem;
    proof {
        assert(mem2[a / 4 + SELF_INDEX] == mem1[a / 4 + SELF_INDEX]);
        assert forall|j: int| 0 <= j < 5 implies mem2[w / 4 + j] == l2_normal_word(#[trigger] table_frame(f0, f4, j)) by {
            assert(mem2[w / 4 + j] == mem1[w / 4 + j]);
        }
        assert forall|j: int| 0 <= j < 1024 implies #[trigger] walk(mem2, a, L1_SELF + 4 * 4096 + 4 * j) == Some(f4 + 4 * j) by {
            assert(table_frame(f0, f4, 4) == f4);
            lemma_window(mem2, a, w, 4, f4, 4 * j);
        }
    }
    fill_window(m, Ghost(w), L1_SELF + 4 * PAGE_SIZE, Ghost(f4), 1024, None);
    let ghost mem3 = m@.mem;
    proof {
        assert(mem3[a / 4 + SELF_INDEX] == mem1[a / 4 + SELF_INDEX]);
        assert forall|j: int| 0 <= j < 5 implies mem3[w / 4 + j] == l2_normal_word(#[trigger] table_frame(f0, f4, j)) by {
            assert(mem3[w / 4 + j] == mem1[w / 4 + j]);
        }
        assert forall|j: int| 0 <= j < 4096 implies #[trigger] mem3[f0 / 4 + j] == 0 by {
            assert(mem2[f0 / 4 + j] == fill_word(None, j));
            assert(mem3[f0 / 4 + j] == mem2[f0 / 4 + j]);
        }
        assert(table_frame(f0, f4, 3) == f0 + 3 * 4096);
        assert(mem3[w / 4 + 3] == l2_normal_word(table_frame(f0, f4, 3)));
        lemma_window(mem3, a, w, 3, f0 + 3 * 4096, 4 * (SELF_INDEX - 3072));
    }
    m.write_virt(L1_SELF + 4 * SELF_INDEX, L1TableDescriptor::new(fs[4]).0);
    let mut k: usize = 0;
    while k < 5
        invariant
            m.wf(),
            m@.ttbr == a,
            m@.mem.len() == old(m)@.mem.len(),
            0 <= k <= 5,
            is_frame(w),
            w / 4 + 1024 <= m@.mem.len(),
            a % 0x4000 == 0,
            a / 4 + 4096 <= m@.mem.len(),
            w + 4096 <= a || w >= a + 0x4000,
            f0 % 0x4000 == 0,
            clear_of_boot(f0, 0x4000, a, w),
            clear_of_boot(f4, 4096, a, w),
            is_frame(f4),
            f4 + 4096 <= f0 || f4 >= f0 + 0x4000,
            f0 / 4 + 4096 <= m@.mem.len(),
            f4 / 4 + 1024 <= m@.mem.len(),
            l1_entry(m@.mem, a, SELF_INDEX as int) == l1_coarse_word(w),
            forall|j: int| 0 <= j < 5 ==> is_frame(#[trigger] table_frame(f0, f4, j)),
            forall|j: int| 0 <= j < 4 ==> #[trigger] fs@[j].0 == fs@[0].0 + j * 4096,
            f0 == fs@[0].0,
            f4 == fs@[4].0,
            w == l2_id,
            a == l1_id,
            forall|j: int| 0 <= j < 5 ==> m@.mem[w / 4 + j] == l2_normal_word(#[trigger] table_frame(f0, f4, j)),
            forall|j: int| 0 <= j < 4096 && j != SELF_INDEX ==> #[trigger] m@.mem[f0 / 4 + j] == 0,
            m@.mem[f0 / 4 + SELF_INDEX] == l1_coarse_word(f4),
            forall|j: int| 0 <= j < k ==> m@.mem[f4 / 4 + j] == l2_normal_word(#[trigger] table_frame(f0, f4, j)),
        decreases 5 - k,
    {
        proof {
            assert(table_frame(f0, f4, 4) == f4);
            lemma_window(m@.mem, a, w, 4, f4, 4 * k as int);
            assert(fs@[k as int].0 == table_frame(f0, f4, k as int));
        }
        m.write_virt(L1_SELF + 4 * PAGE_SIZE + 4 * k, L2TableDescriptor::new(fs[k]).0);
        proof {
            let mm = m@.mem;
            assert forall|j: int| 0 <= j < 4096 && j != SELF_INDEX implies #[trigger] mm[f0 / 4 + j] == 0 by {
                lemma_frames_apart(f4, f0 + (j / 1024) * 4096, k as int, j % 1024);
            }
        }
        k = k + 1;
    }
    proof {
        let mm = m@.mem;
        lemma_descriptor_words(f4);
        assert forall|i: int| 0 <= i < 4096 && i != SELF_INDEX implies #[trigger] l2_slot_ok(mm, f0, f4, bound@, i) by {
            assert(l1_entry(mm, f0, i) == 0);
        }
        assert(self_mapped(mm, f0, f4));
        assert(table_inv(mm, f0, f4, bound@));
        assert forall|u: int| #![trigger walk(mm, f0, u)] l1_index(u) != SELF_INDEX implies walk(mm, f0, u) is None by {
            if 0 <= u < 0x1_0000_0000 {
                assert(l1_entry(mm, f0, l1_index(u)) == 0);
            }
        }
    }
}

} // verus!

verus! {

/// Where the kernel image and the current stack lie.
pub struct MemLayout {
    pub kernel_start_phy: PhysicalAddress,
    pub kernel_start_virt: VirtualAddress,
    pub kernel_end_virt: VirtualAddress,
    pub stack_phy: PhysicalAddress,
    pub stack_virt: VirtualAddress,
}

/// The MiBs that the kernel image, rounded up to whole pages, spans.
pub open spec fn kernel_mbs(ml: &MemLayout) -> int {
    let size = (ml.kernel_end_virt.0 - ml.kernel_start_virt.0 + 4095) / 4096 * 4096;
    (size + 0xF_FFFF) / 0x10_0000
}

/// The virtual MiB boundary at which the kernel's mapping starts.
pub open spec fn kernel_base(ml: &MemLayout) -> int {
    ml.kernel_start_virt.0 - ml.kernel_start_virt.0 % 0x10_0000
}

/// The page that holds the stack pointer.
pub open spec fn stack_page(ml: &MemLayout) -> int {
    ml.stack_virt.0 - ml.stack_virt.0 % 4096
}

/// The frame that holds the stack.
pub open spec fn stack_frame(ml: &MemLayout) -> int {
    ml.stack_phy.0 - ml.stack_phy.0 % 4096
}

/// A layout the bootstrap can map: the kernel's frames are page aligned,
/// both kernel spans fit the 32-bit address space, and neither the kernel
/// nor the stack falls in the self-map window.
pub open spec fn layout_ok(ml: &MemLayout) -> bool {
    &&& ml.kernel_start_virt.0 <= ml.kernel_end_virt.0
    &&& ml.kernel_end_virt.0 - ml.kernel_start_virt.0 + 0x10_1000 <= usize::MAX
    &&& ml.kernel_start_phy.0 % 4096 == 0
    &&& ml.kernel_start_phy.0 + kernel_mbs(ml) * 0x10_0000 <= 0x1_0000_0000
    &&& kernel_base(ml) + kernel_mbs(ml) * 0x10_0000 <= 0x1_0000_0000
    &&& kernel_base(ml) + kernel_mbs(ml) * 0x10_0000 <= L1_SELF || kernel_base(ml) >= L1_SELF + MB_SIZE
    &&& ml.stack_virt.0 < 0x1_0000_0000
    &&& ml.stack_phy.0 < 0x1_0000_0000
    &&& l1_index(ml.stack_virt.0 as int) != SELF_INDEX
}

/// The frames the bootstrap takes when nothing is reserved: seven for the
/// table, one per kernel MiB, and one for the stack's L2.
pub open spec fn boot_frames(ml: &MemLayout) -> int {
    8 + kernel_mbs(ml)
}

/// The stack's page lies in the kernel's MiBs, whose L2 tables it shares.
pub open spec fn stack_in_kernel(ml: &MemLayout) -> bool {
    kernel_base(ml) <= stack_page(ml) < kernel_base(ml) + kernel_mbs(ml) * 0x10_0000
}

/// Whether `n` one-frame allocations in turn succeed, then one more when
/// `extra` holds.
pub open spec fn single_allocs_ok(s: crate::frame::FrameState, n: nat, extra: bool) -> bool
    decreases n,
{
    if n == 0 {
        !extra || alloc_step(s, 1).1 is Some
    } else {
        alloc_step(s, 1).1 is Some && single_allocs_ok(alloc_step(s, 1).0, (n - 1) as nat, extra)
    }
}

/// Whether every allocation of the bootstrap succeeds: seven frames, one
/// per kernel MiB, and one for the stack's L2 unless the stack lies in a
/// kernel MiB.
pub open spec fn boot_allocs_ok(s: crate::frame::FrameState, ml: &MemLayout) -> bool {
    alloc_step(s, 7).1 is Some && single_allocs_ok(alloc_step(s, 7).0, kernel_mbs(ml) as nat, !stack_in_kernel(ml))
}

/// Without reserved ranges, an allocation succeeds exactly when it fits.
proof fn lemma_alloc_no_ranges(s: crate::frame::FrameState, n: nat)
    requires
        s.ranges.len() == 0,
    ensures
        s.next_free < s.max && s.next_free + n * 4096 <= s.max ==> alloc_step(s, n).1 == Some(s.next_free)
            && alloc_step(s, n).0.next_free == s.next_free + n * 4096
            && alloc_step(s, n).0.ranges.len() == 0,
        alloc_step(s, n).1 is Some ==> alloc_step(s, n).0.next_free == s.next_free + n * 4096,
{
    let size = n * PAGE_SIZE as int;
    assert(crate::frame::first_overlap_end(s.ranges, s.next_free as int, s.next_free + size, 0) is None);
}

/// An address `r` bytes into the MiB at `base` has `r`'s page index and offset.
proof fn lemma_mb_split(base: int, r: int)
    requires
        base % 0x10_0000 == 0,
        base >= 0,
        0 <= r < 0x10_0000,
    ensures
        l2_index(base + r) * 4096 + (base + r) % 4096 == r,
        l1_index(base + r) == base / 0x10_0000,
{
    assert((base + r) / 4096 == base / 4096 + r / 4096);
    assert((base / 4096) % 256 == 0);
    assert(r / 4096 < 256);
    assert((base + r) % 4096 == r % 4096);
}

/// Two addresses share a page exactly when they share both table indices.
proof fn lemma_same_page(u: int, s: int)
    requires
        0 <= u,
        0 <= s,
    ensures
        (u / 4096 == s / 4096) <==> (l1_index(u) == l1_index(s) && l2_index(u) == l2_index(s)),
{
    vstd::arithmetic::div_mod::lemma_div_denominator(u, 4096, 256);
    vstd::arithmetic::div_mod::lemma_div_denominator(s, 4096, 256);
    vstd::arithmetic::div_mod::lemma_fundamental_div_mod(u / 4096, 256);
    vstd::arithmetic::div_mod::lemma_fundamental_div_mod(s / 4096, 256);
}

/// Builds the kernel's page table from the boot tables and switches to it.
///
/// The boot stub hands over the active identity-mapped first level at
/// `l1table_identity` and a blank identity-mapped L2 at
/// `l2table_identity`, both below the allocator's first free frame. Seven
/// frames are taken, five kept (a 16 KiB aligned first level and the
/// self-map L2); the boot L2 becomes a window onto them at `L1_SELF`, through
/// which the new table is cleared and given its self map. Each MiB of the
/// kernel image gets a fresh L2 filled, through the window's scratch slot,
/// with the 256 pages of the matching physical MiB; the stack's page is
/// mapped last, in a fresh L2 when its MiB has none. Then the new table is
/// made active.
///
/// Fails when the allocator runs out; it does not when nothing is reserved
/// and `boot_frames` frames are free.
#[verifier::rlimit(100)]
pub fn init_page_table(machine: Machine, l1table_identity: VirtualAddress, l2table_identity: VirtualAddress,
    ml: &MemLayout, fa: LameFrameAllocator) -> (r: Result<PageTable, ()>)
    requires
        machine.wf(),
        machine@.ttbr == l1table_identity.0,
        l1table_identity.0 % 0x4000 == 0,
        l1table_identity.0 / 4 + 4096 <= machine@.mem.len(),
        is_frame(l2table_identity.0 as int),
        l2table_identity.0 / 4 + 1024 <= machine@.mem.len(),
        l2table_identity.0 + 4096 <= l1table_identity.0 || l2table_identity.0 >= l1table_identity.0 + 0x4000,
        fa.wf(),
        fa@.max <= machine@.mem.len() * 4,
        boot_tables_kept(fa@.ranges, fa@.next_free as int, fa@.max as int, l1table_identity.0 as int, l2table_identity.0 as int),
        layout_ok(ml),
    ensures
        r is Ok <==> boot_allocs_ok(fa@, ml),
        fa@.ranges.len() == 0 && fa@.next_free + boot_frames(ml) * 4096 <= fa@.max ==> r is Ok,
        r matches Ok(pt) ==> {
            &&& pt.wf()
            &&& pt.mem().len() == machine@.mem.len()
            &&& pt.allocator().max == fa@.max
            &&& pt.allocator().ranges == fa@.ranges
            &&& forall|u: int| #![trigger pt.translation(u)]
                kernel_base(ml) <= u < kernel_base(ml) + kernel_mbs(ml) * 0x10_0000 && u / 4096 != stack_page(ml) / 4096
                    ==> pt.translation(u) == Some(ml.kernel_start_phy.0 + (u - kernel_base(ml)))
            &&& forall|u: int| #![trigger pt.translation(u)]
                0 <= u && u / 4096 == stack_page(ml) / 4096 ==> pt.translation(u) == Some(stack_frame(ml) + u % 4096)
        },
{
    let l1_id = l1table_identity.0;
    let l2_id = l2table_identity.0;
    let mut m = machine;
    let mut falloc = fa;
    let ghost fa0 = falloc@;
    assert(fa0 == fa@);
    let ghost floor = falloc@.next_free as int;
    proof {
        if fa0.ranges.len() == 0 {
            lemma_alloc_no_ranges(fa0, 7);
        }
    }
    let fs = match get_init_frames(&mut falloc) {
        Some(fs) => fs,
        None => {
            return Err(());
        },
    };
    let ghost f0 = fs@[0].0 as int;
    let ghost f4 = fs@[4].0 as int;
    proof {
        let at = alloc_step(fa0, 7).1->Some_0 as int;
        lemma_reserved_ranges_skipped(fa0, 7);
        lemma_placed(fa0.ranges, fa0.next_free, 7 * 4096int);
        assert forall|j: int| 0 <= j < fa0.ranges.len() implies !overlaps(#[trigger] fa0.ranges[j], f0, f0 + 0x4000) by {
            assert(!overlaps(fa0.ranges[j], at, at + 7 * 4096));
        }
        assert forall|j: int| 0 <= j < fa0.ranges.len() implies !overlaps(#[trigger] fa0.ranges[j], f4, f4 + 4096) by {
            assert(!overlaps(fa0.ranges[j], at, at + 7 * 4096));
        }
        lemma_fresh_clear(fa0.ranges, floor, fa0.max as int, l1_id as int, l2_id as int, f0, 0x4000);
        lemma_fresh_clear(fa0.ranges, floor, fa0.max as int, l1_id as int, l2_id as int, f4, 4096);
    }
    boot_self_map(&mut m, l1_id, l2_id, &fs, Ghost(falloc@.next_free as int));
    let kernel_size = up(ml.kernel_end_virt.0 - ml.kernel_start_virt.0);
    let nummb: usize = (kernel_size + (MB_SIZE - 1)) / MB_SIZE;
    let kidx: usize = ml.kernel_start_virt.0 / MB_SIZE;
    let ghost kbase = kernel_base(ml);
    proof {
        assert(nummb == kernel_mbs(ml));
        assert(kbase == kidx * 0x10_0000);
        assert(kidx * 0x10_0000 + nummb * 0x10_0000 <= 0x1_0000_0000);
        assert(kidx + nummb <= 4096) by (nonlinear_arith)
            requires kidx * 0x10_0000 + nummb * 0x10_0000 <= 0x1_0000_0000;
    }
    let mut i: usize = 0;
    while i < nummb
        invariant
            m.wf(),
            falloc.wf(),
            m@.ttbr == l1_id,
            m@.mem.len() == machine@.mem.len(),
            falloc@.max == fa0.max,
            falloc@.ranges == fa0.ranges,
            falloc@.max <= m@.mem.len() * 4,
            boot_inv(m@.mem, l1_id as int, l2_id as int, f0, f4, falloc@.next_free as int),
            0 <= i <= nummb,
            nummb == kernel_mbs(ml),
            kbase == kidx * 0x10_0000,
            kbase == kernel_base(ml),
            layout_ok(ml),
            fa0.ranges.len() == 0 ==> falloc@.next_free == floor + (7 + i) * 4096,
            fa0.ranges.len() == 0 && fa0.next_free + boot_frames(ml) * 4096 <= fa0.max ==> falloc@.next_free
                + (boot_frames(ml) - 7 - i) * 4096 <= falloc@.max,
            floor == fa0.next_free,
            fa0 == fa@,
            floor <= falloc@.next_free,
            boot_allocs_ok(fa0, ml) == single_allocs_ok(falloc@, (nummb - i) as nat, !stack_in_kernel(ml)),
            forall|j: int| 0 <= j < 4096 && j != SELF_INDEX
                ==> (#[trigger] l1_entry(m@.mem, f0, j) != 0 <==> kidx <= j < kidx + i),
            kidx + nummb <= 4096,
            boot_tables_kept(fa0.ranges, floor, fa0.max as int, l1_id as int, l2_id as int),
            forall|u: int| #![trigger walk(m@.mem, f0, u)]
                kbase <= u < kbase + i * 0x10_0000 ==> walk(m@.mem, f0, u) == Some(ml.kernel_start_phy.0 + (u - kbase)),
            forall|u: int| #![trigger walk(m@.mem, f0, u)]
                l1_index(u) != SELF_INDEX && !(kbase <= u < kbase + i * 0x10_0000) ==> walk(m@.mem, f0, u) is None,
        decreases nummb - i,
    {
        proof {
            if fa0.ranges.len() == 0 {
                lemma_alloc_no_ranges(falloc@, 1);
                if fa0.next_free + boot_frames(ml) * 4096 <= fa0.max {
                    assert(boot_frames(ml) == 8 + nummb);
                    assert((boot_frames(ml) - 7 - i) * 4096 >= 2 * 4096) by (nonlinear_arith)
                        requires boot_frames(ml) - 7 - i >= 2;
                    assert(falloc@.next_free + 2 * 4096 <= falloc@.max);
                    assert(alloc_step(falloc@, 1).1 is Some);
                }
            }
            assert(kbase + (i + 1) * 0x10_0000 <= kbase + nummb * 0x10_0000) by (nonlinear_arith)
                requires i < nummb;
            assert(i * 0x10_0000 + 0x10_0000 <= nummb * 0x10_0000) by (nonlinear_arith)
                requires i < nummb;
        }
        let idx: usize = kidx + i;
        proof {
            assert(idx * 0x10_0000 == kbase + i * 0x10_0000);
            assert(idx != SELF_INDEX);
        }
        let ghost before = m@.mem;
        match boot_install_l2(&mut m, &mut falloc, l2_id, Ghost(f0), Ghost(f4), Ghost(floor), idx,
            Some(ml.kernel_start_phy.0 + i * MB_SIZE)) {
            Ok(()) => {},
            Err(()) => {
                return Err(());
            },
        }
        proof {
            let mm = m@.mem;
            assert forall|u: int| #![trigger walk(mm, f0, u)]
                kbase <= u < kbase + (i + 1) * 0x10_0000 implies walk(mm, f0, u) == Some(ml.kernel_start_phy.0 + (u - kbase)) by {
                if u < kbase + i * 0x10_0000 {
                    assert(l1_index(u) != idx);
                } else {
                    lemma_mb_split(kbase + i * 0x10_0000, u - kbase - i * 0x10_0000);
                }
            }
            assert forall|u: int| #![trigger walk(mm, f0, u)]
                l1_index(u) != SELF_INDEX && !(kbase <= u < kbase + (i + 1) * 0x10_0000) implies walk(mm, f0, u) is None by {
                assert(l1_index(u) != idx);
            }
        }
        i = i + 1;
    }
    let sp: usize = ml.stack_virt.0 - ml.stack_virt.0 % PAGE_SIZE;
    let spframe: usize = ml.stack_phy.0 - ml.stack_phy.0 % PAGE_SIZE;
    let s_idx: usize = sp / MB_SIZE;
    let ghost mem_k = m@.mem;
    proof {
        lemma_boot_window(m@.mem, l1_id as int, l2_id as int, f0, f4, falloc@.next_free as int, s_idx as int);
        lemma_same_page(sp as int, ml.stack_virt.0 as int);
        if fa0.ranges.len() == 0 {
            lemma_alloc_no_ranges(falloc@, 1);
        }
    }
    let e = m.read_virt(L1_SELF + 4 * s_idx);
    proof {
        assert((f0 + 4 * s_idx) / 4 == f0 / 4 + s_idx);
        vstd::arithmetic::div_mod::lemma_fundamental_div_mod(sp as int, 0x10_0000);
        assert(sp as int == stack_page(ml));
        assert(stack_in_kernel(ml) <==> (kidx <= s_idx < kidx + nummb));
        assert(e == l1_entry(m@.mem, f0, s_idx as int));
        assert(s_idx == l1_index(ml.stack_virt.0 as int));
        assert(s_idx < 4096 && s_idx != SELF_INDEX);
        assert((l1_entry(m@.mem, f0, s_idx as int) != 0) <==> (kidx <= s_idx < kidx + i));
        assert((e != 0) <==> stack_in_kernel(ml));
        if fa0.ranges.len() == 0 && fa0.next_free + boot_frames(ml) * 4096 <= fa0.max {
            assert(falloc@.next_free + 4096 <= falloc@.max);
        }
    }
    if e == 0 {
        match boot_install_l2(&mut m, &mut falloc, l2_id, Ghost(f0), Ghost(f4), Ghost(floor), s_idx, None) {
            Ok(()) => {},
            Err(()) => {
                return Err(());
            },
        }
        proof {
            assert forall|u: int| #![trigger walk(m@.mem, f0, u)]
                kbase <= u < kbase + nummb * 0x10_0000 implies walk(m@.mem, f0, u) == Some(ml.kernel_start_phy.0 + (u - kbase)) by {
                if l1_index(u) == s_idx {
                    assert(walk(mem_k, f0, u) is None);
                }
            }
        }
    }
    let ghost mem_s = m@.mem;
    proof {
        assert((f0 + 4 * s_idx) / 4 == f0 / 4 + s_idx);
        assert(l1_entry(m@.mem, f0, s_idx as int) != 0);
    }
    boot_set_leaf(&mut m, l2_id, Ghost(f0), Ghost(f4), Ghost(falloc@.next_free as int), s_idx,
        (sp / PAGE_SIZE) % 256, L2TableDescriptor::new(PhysicalAddress(spframe)));
    proof {
        let mm = m@.mem;
        lemma_descriptor_words(spframe as int);
        assert forall|u: int| #![trigger walk(mm, f0, u)]
            kbase <= u < kbase + nummb * 0x10_0000 && u / 4096 != stack_page(ml) / 4096
                implies walk(mm, f0, u) == Some(ml.kernel_start_phy.0 + (u - kbase)) by {
            lemma_same_page(u, sp as int);
        }
        assert forall|u: int| #![trigger walk(mm, f0, u)]
            0 <= u && u / 4096 == stack_page(ml) / 4096 implies walk(mm, f0, u) == Some(stack_frame(ml) + u % 4096) by {
            lemma_same_page(u, sp as int);
            assert(u < 0x1_0000_0000);
        }
    }
    m.set_ttb0(fs[0].0);
    Ok(PageTable {
        descriptors: L1Table { base: VirtualAddress(L1_SELF) },
        frameallocator: falloc,
        tmp_map: L2Table { base: VirtualAddress(L1_SELF + 4 * PAGE_SIZE) },
        machine: m,
        l2_self: fs[4].0,
    })
}

/// The self map holds in every table: word `i` of the first level is seen
/// at `L1_SELF + 4 * i`, and the first five entries of the self-map L2 map
/// the four frames of the first level and the self-map L2 itself.
pub proof fn lemma_self_map(pt: &PageTable)
    requires
        pt.wf(),
    ensures
        forall|i: int| 0 <= i < 4096 ==> #[trigger] pt.translation(L1_SELF + 4 * i) == Some(pt.l1_base() + 4 * i),
        forall|k: int| 0 <= k < 5 ==> pt.mem()[pt.l2_self_base() / 4 + k]
            == l2_normal_word(#[trigger] table_frame(pt.l1_base(), pt.l2_self_base(), k)),
        pt.l1_base() % 0x4000 == 0,
        l1_entry(pt.mem(), pt.l1_base(), SELF_INDEX as int) == l1_coarse_word(pt.l2_self_base()),
{
    pt.lemma_wf_window();
}

} // verus!

verus! {

/// Processor mode numbers of the modes that get a stack of their own.
pub const IRQ_MODE: u32 = 0x12;

pub const ABRT_MODE: u32 = 0x17;

pub const UNDEF_MODE: u32 = 0x1B;

pub const SYS_MODE: u32 = 0x1F;

/// Where the stacks of the exception modes are mapped, one page each.
pub const STACK_BASE: usize = 0xB000_0000;

/// A mapped mode stack: the mode, the top of its stack and the frame behind it.
#[derive(Clone, Copy, Debug)]
pub struct ModeStack {
    pub mode: u32,
    pub top: VirtualAddress,
    pub frame: PhysicalAddress,
}

/// The mode whose stack is the `i`-th.
pub open spec fn stack_mode(i: int) -> u32 {
    if i == 0 {
        IRQ_MODE
    } else if i == 1 {
        ABRT_MODE
    } else if i == 2 {
        UNDEF_MODE
    } else {
        SYS_MODE
    }
}

impl PageTable {
    /// Takes one frame from the allocator. The frame lies in memory and
    /// outside every table, and no mapping changes.
    pub fn allocate_frame(&mut self) -> (r: Option<PhysicalAddress>)
        requires
            old(self).wf(),
        ensures
            final(self).wf(),
            final(self).mem() == old(self).mem(),
            final(self).l1_base() == old(self).l1_base(),
            final(self).allocator() == alloc_step(old(self).allocator(), 1).0,
            r.is_some() <==> alloc_step(old(self).allocator(), 1).1 is Some,
            r matches Some(p) ==> is_frame(p.0 as int) && p.0 as int == alloc_step(old(self).allocator(), 1).1->Some_0,
    {
        let r = self.frameallocator.allocate(1);
        proof {
            lemma_placed(old(self).allocator().ranges, old(self).allocator().next_free, 4096int);
            lemma_table_inv_grow(self.mem(), self.l1_base(), self.l2_self as int,
                old(self).allocator().next_free as int, self.frameallocator@.next_free as int);
        }
        r
    }
}

/// Gives each exception mode (IRQ, abort, undefined, system) a stack page
/// of its own at `STACK_BASE + i * PAGE_SIZE`, backed by a fresh frame, and
/// returns where each stack's top lies. Fails when frames run out.
#[verifier::rlimit(100)]
pub fn build_mode_stacks(mapper: &mut PageTable) -> (r: Result<Vec<ModeStack>, ()>)
    requires
        old(mapper).wf(),
    ensures
        final(mapper).wf(),
        r is Err ==> alloc_step(final(mapper).allocator(), 1).1 is None,
        old(mapper).allocator().ranges.len() == 0
            && old(mapper).allocator().next_free + 8 * 4096 <= old(mapper).allocator().max ==> r is Ok,
        r matches Ok(stacks) ==> {
            &&& stacks@.len() == 4
            &&& forall|i: int| 0 <= i < 4 ==> old(mapper).allocator().next_free <= (#[trigger] stacks@[i]).frame.0
                && stacks@[i].frame.0 + 4096 <= final(mapper).allocator().next_free
            &&& forall|i: int, j: int| 0 <= i < j < 4 ==> (#[trigger] stacks@[i]).frame != (#[trigger] stacks@[j]).frame
            &&& forall|i: int| 0 <= i < 4 ==> (#[trigger] stacks@[i]).mode == stack_mode(i)
                && stacks@[i].top.0 == STACK_BASE + (i + 1) * 4096
            &&& forall|i: int, off: int| 0 <= i < 4 && 0 <= off < 4096
                ==> #[trigger] final(mapper).translation(STACK_BASE + i * 4096 + off) == Some(stacks@[i].frame.0 + off)
        },
{
    let modes: [u32; 4] = [IRQ_MODE, ABRT_MODE, UNDEF_MODE, SYS_MODE];
    let mut stacks: Vec<ModeStack> = Vec::new();
    let mut i: usize = 0;
    while i < 4
        invariant
            mapper.wf(),
            0 <= i <= 4,
            stacks@.len() == i,
            modes@ == seq![IRQ_MODE, ABRT_MODE, UNDEF_MODE, SYS_MODE],
            forall|j: int| 0 <= j < i ==> (#[trigger] stacks@[j]).mode == stack_mode(j)
                && stacks@[j].top.0 == STACK_BASE + (j + 1) * 4096,
            forall|j: int, off: int| 0 <= j < i && 0 <= off < 4096
                ==> #[trigger] mapper.translation(STACK_BASE + j * 4096 + off) == Some(stacks@[j].frame.0 + off),
            old(mapper).allocator().next_free <= mapper.allocator().next_free,
            mapper.allocator().ranges == old(mapper).allocator().ranges,
            mapper.allocator().max == old(mapper).allocator().max,
            old(mapper).allocator().ranges.len() == 0 ==> mapper.allocator().next_free
                <= old(mapper).allocator().next_free + 2 * i * 4096,
            forall|j: int| 0 <= j < i ==> old(mapper).allocator().next_free <= (#[trigger] stacks@[j]).frame.0
                && stacks@[j].frame.0 + 4096 <= mapper.allocator().next_free,
            forall|a: int, b: int| 0 <= a < b < i ==> (#[trigger] stacks@[a]).frame != (#[trigger] stacks@[b]).frame,
        decreases 4 - i,
    {
        let ghost at_start = *mapper;
        proof {
            lemma_placed(mapper.allocator().ranges, mapper.allocator().next_free, 4096int);
            if old(mapper).allocator().ranges.len() == 0 {
                lemma_alloc_no_ranges(mapper.allocator(), 1);
            }
        }
        let pa = match mapper.allocate_frame() {
            Some(pa) => pa,
            None => {
                return Err(());
            },
        };
        let stack_start = VirtualAddress(STACK_BASE + i * PAGE_SIZE);
        let stack_end = stack_start.uoffset(PAGE_SIZE);
        let ghost before = *mapper;
        proof {
            assert(map_request_ok(pa.0 as int, stack_start.0 as int, pages_for(MemorySize::PageSizes(1).bytes())));
        }
        let ghost after_alloc = *mapper;
        proof {
            lemma_placed(after_alloc.allocator().ranges, after_alloc.allocator().next_free, 4096int);
            if old(mapper).allocator().ranges.len() == 0 {
                lemma_alloc_no_ranges(after_alloc.allocator(), 1);
            }
            assert(alloc_frames(after_alloc.allocator(), 0) == after_alloc.allocator());
            assert(alloc_frames(after_alloc.allocator(), 1) == alloc_step(after_alloc.allocator(), 1).0);
        }
        match mapper.map(pa, stack_start, MemorySize::PageSizes(1)) {
            Ok(()) => {},
            Err(()) => {
                return Err(());
            },
        }
        proof {
            let used = choose|used: nat| used <= 1 && mapper.allocator() == alloc_frames(after_alloc.allocator(), used);
            if used == 1 {
                assert(mapper.allocator() == alloc_step(after_alloc.allocator(), 1).0);
            }
            assert forall|j: int, off: int| 0 <= j < i && 0 <= off < 4096
                implies #[trigger] mapper.translation(STACK_BASE + j * 4096 + off) == Some(stacks@[j].frame.0 + off) by {
                let u = STACK_BASE + j * 4096 + off;
                assert(!(stack_start.0 <= u < stack_start.0 + 4096));
                assert(l1_index(u) != SELF_INDEX);
                assert(at_start.translation(STACK_BASE + j * 4096 + off) == Some(stacks@[j].frame.0 + off));
                assert(before.translation(u) == at_start.translation(u));
            }
            assert forall|off: int| 0 <= off < 4096
                implies #[trigger] mapper.translation(STACK_BASE + i * 4096 + off) == Some(pa.0 + off) by {
                assert(mapper.translation(stack_start.0 + off) == Some(pa.0 + off));
            }
        }
        stacks.push(ModeStack { mode: modes[i], top: stack_end, frame: pa });
        i = i + 1;
    }
    Ok(stacks)
}

} // verus!

verus! {

impl PageTable {
    /// The word at virtual address `v`, read through this table; `None`
    /// where `v` is unmapped or leads outside memory.
    pub fn read_word(&self, v: VirtualAddress) -> (r: Option<u32>)
        requires
            self.wf(),
        ensures
            r matches Some(x) ==> self.translation(v.0 as int) matches Some(p) && x == self.mem()[p / 4],
            r is None ==> !(self.translation(v.0 as int) matches Some(p) && p / 4 < self.mem().len()),
    {
        match self.machine.translate(v.0) {
            Some(p) => {
                if p / 4 < self.machine.size() / 4 {
                    Some(self.machine.read_phys(p - p % 4))
                } else {
                    None
                }
            },
            None => None,
        }
    }

    /// The word at physical address `pa`, which is rounded down to a word;
    /// `None` outside memory.
    pub fn read_phys_word(&self, pa: usize) -> (r: Option<u32>)
        requires
            self.wf(),
        ensures
            pa / 4 < self.mem().len() ==> r == Some(self.mem()[pa as int / 4]),
            pa / 4 >= self.mem().len() ==> r is None,
    {
        if pa / 4 < self.machine.size() / 4 {
            Some(self.machine.read_phys(pa - pa % 4))
        } else {
            None
        }
    }
}

} // verus!

verus! {

/// The memory snapshots of one leaf edit make a `single_edit`.
#[verifier::rlimit(100)]
proof fn lemma_single_edit(old: PageTable, new: PageTable, mem1: Seq<u32>, mem2: Seq<u32>, mem3: Seq<u32>,
    f: int, fresh: bool, p: u32, v: int)
    requires
        old.wf(),
        new.l1_base() == old.l1_base(),
        new.l2_self_base() == old.l2_self_base(),
        0 <= v < 0x1_0000_0000,
        l1_index(v) != SELF_INDEX,
        fresh == (old.l1_entry_of(v) == 0),
        !fresh ==> mem1 == old.mem() && new.allocator() == old.allocator(),
        fresh ==> {
            let e = l1_entry(mem1, old.l1_base(), l1_index(v));
            &&& mem1 == old.mem().update(old.l1_base() / 4 + l1_index(v), e)
            &&& e == l1_coarse_word(frame_of(e))
            &&& new.allocator() == alloc_step(old.allocator(), 1).0
            &&& alloc_step(old.allocator(), 1).1 == Some(frame_of(e) as usize)
        },
        f == frame_of(l1_entry(mem1, old.l1_base(), l1_index(v))),
        f % 4096 == 0,
        f / 4 + 1024 <= mem1.len(),
        outside_table(f, old.l1_base(), old.l2_self_base()),
        mem2 == mem1.update(old.l2_self_base() / 4 + 5, l2_normal_word(f)),
        mem3.len() == mem2.len(),
        forall|w: int| 0 <= w < mem2.len() && !(f / 4 <= w < f / 4 + 1024) ==> #[trigger] mem3[w] == mem2[w],
        fresh ==> forall|w: int| f / 4 <= w < f / 4 + 1024 ==> #[trigger] mem3[w] == 0,
        !fresh ==> mem3 == mem2,
        new.mem() == mem3.update(f / 4 + l2_index(v), p),
    ensures
        single_edit(old, new, v),
{
    let l1 = old.l1_base();
    let idx = l1_index(v);
    assert(l1 / 4 + idx < f / 4 || l1 / 4 + idx >= f / 4 + 1024);
    assert(new.mem()[l1 / 4 + idx] == mem1[l1 / 4 + idx]);
    assert(new.l1_entry_of(v) == l1_entry(mem1, l1, idx));
    assert(new.l2_of(v) == f);
    if fresh {
        assert forall|j: int| 0 <= j < 1024 && j != l2_index(v) implies #[trigger] new.mem()[f / 4 + j] == 0 by {
            assert(mem3[f / 4 + j] == 0);
        }
    }
    assert forall|w: int| 0 <= w < old.mem().len() && w != new.leaf_index(v) && w != old.l1_base() / 4 + l1_index(v)
        && w != old.l2_self_base() / 4 + 5 && !(fresh && f / 4 <= w < f / 4 + 1024)
        implies #[trigger] new.mem()[w] == old.mem()[w] by {
        if !fresh {
            if f / 4 <= w < f / 4 + 1024 {
                assert(mem3 == mem2);
            }
        }
    }
}

} // verus!

verus! {

/// The leaf entry that a range mapping writes for frame `p`.
pub open spec fn page_word(device: bool, p: int) -> u32 {
    if device {
        l2_device_word(p)
    } else {
        l2_normal_word(p)
    }
}

/// A range request from `o` to `t`: the table stays where it was, at most
/// one frame per page is taken from the allocator, success is owed when the
/// request is valid and (nothing being reserved) enough frames are free,
/// and on success every page has its leaf entry and nothing else changed
/// but first-level slots, leaf words, the scratch slot and taken frames.
pub open spec fn range_mapped(o: PageTable, t: PageTable, p: int, v: int, npages: int, device: bool, ok: bool) -> bool {
    &&& t.l1_base() == o.l1_base()
    &&& t.l2_self_base() == o.l2_self_base()
    &&& exists|used: nat| used <= npages && t.allocator() == alloc_frames(o.allocator(), used)
    &&& map_request_ok(p, v, npages) && o.allocator().ranges.len() == 0
        && o.allocator().next_free + npages * 4096 <= o.allocator().max ==> ok
    &&& map_request_ok(p, v, npages) && alloc_step(o.allocator(), 1).1 is None
        && (exists|k: int| 0 <= k < npages && #[trigger] o.l1_entry_of(v + k * 4096) == 0) ==> !ok
    &&& ok ==> range_done(o, t, p, v, npages, device)
}

/// An edit made with no frame left installs no L2 table: the first level
/// and the allocator stay as they were.
#[verifier::rlimit(100)]
proof fn lemma_exhausted_edit(c: PageTable, n: PageTable, vk: int)
    requires
        c.wf(),
        n.wf(),
        0 <= vk < 0x1_0000_0000,
        l1_index(vk) != SELF_INDEX,
        single_edit(c, n, vk),
        alloc_step(c.allocator(), 1).1 is None,
    ensures
        n.allocator() == c.allocator(),
        forall|i: int| 0 <= i < 4096 ==> #[trigger] l1_entry(n.mem(), n.l1_base(), i) == l1_entry(c.mem(), c.l1_base(), i),
{
    let l1 = c.l1_base();
    let l2s = c.l2_self_base();
    let nb = n.allocator().next_free as int;
    assert(c.l1_entry_of(vk) != 0);
    assert(n.l1_entry_of(vk) != 0);
    assert(l2_slot_ok(n.mem(), l1, l2s, nb, l1_index(vk)));
    assert forall|i: int| 0 <= i < 4096 implies #[trigger] l1_entry(n.mem(), n.l1_base(), i) == l1_entry(c.mem(), c.l1_base(), i) by {
        if i != l1_index(vk) {
            let w = l1 / 4 + i;
            assert(w != n.leaf_index(vk));
            assert(w != l2s / 4 + 5);
            assert(n.mem()[w] == c.mem()[w]);
        }
    }
}

/// Word `w` is none of the first-level slots and leaf words of the first
/// `k` pages from `v` on, in table `t` whose first level is at `l1`.
pub open spec fn off_range(t: PageTable, l1: int, v: int, k: int, w: int) -> bool {
    forall|j: int| 0 <= j < k ==> !#[trigger] page_hits(t, l1, v, j, w)
}

/// Word `w` is the first-level slot or the leaf word of page `j` from `v` on.
pub open spec fn page_hits(t: PageTable, l1: int, v: int, j: int, w: int) -> bool {
    w == l1 / 4 + l1_index(v + j * 4096) || w == t.leaf_index(v + j * 4096)
}

/// What a range mapping has done after its first `k` pages: each has a
/// present slot and its leaf entry, and every other word outside the
/// frames taken since, and outside the scratch slot, is as in `o`.
pub open spec fn range_done(o: PageTable, t: PageTable, p: int, v: int, k: int, device: bool) -> bool {
    &&& forall|j: int| 0 <= j < k ==> #[trigger] t.l1_entry_of(v + j * 4096) != 0
        && t.leaf_word(v + j * 4096) == page_word(device, p + j * 4096)
    &&& forall|w: int| 0 <= w < o.mem().len()
        && !(o.allocator().next_free / 4 <= w < t.allocator().next_free / 4)
        && w != o.l2_self_base() / 4 + 5 && off_range(t, o.l1_base(), v, k, w)
        ==> #[trigger] t.mem()[w] == o.mem()[w]
}

proof fn lemma_off_range_shrink(c: PageTable, n: PageTable, l1: int, v: int, k: int, w: int)
    requires
        off_range(n, l1, v, k + 1, w),
        forall|j: int| 0 <= j < k ==> n.leaf_index(v + j * 4096) == #[trigger] c.leaf_index(v + j * 4096),
    ensures
        off_range(c, l1, v, k, w),
{
    assert forall|j: int| 0 <= j < k implies !#[trigger] page_hits(c, l1, v, j, w) by {
        assert(!page_hits(n, l1, v, j, w));
        assert(n.leaf_index(v + j * 4096) == c.leaf_index(v + j * 4096));
    }
}

/// One more page keeps `range_done`.
#[verifier::rlimit(100)]
proof fn lemma_range_step(o: PageTable, c: PageTable, n: PageTable, p: int, v: int, k: int, device: bool)
    requires
        c.wf(),
        n.wf(),
        range_done(o, c, p, v, k, device),
        o.mem().len() == c.mem().len(),
        o.l1_base() == c.l1_base(),
        o.l2_self_base() == c.l2_self_base(),
        o.allocator().next_free <= c.allocator().next_free,
        0 <= k,
        v % 4096 == 0,
        0 <= v,
        v + (k + 1) * 4096 <= 0x1_0000_0000,
        forall|j: int| 0 <= j <= k ==> #[trigger] l1_index(v + j * 4096) != SELF_INDEX,
        single_edit(c, n, v + k * 4096),
        n.leaf_word(v + k * 4096) == page_word(device, p + k * 4096),
        n.translation(v + k * 4096) is Some,
    ensures
        range_done(o, n, p, v, k + 1, device),
        o.allocator().next_free <= n.allocator().next_free,
{
    let l1 = c.l1_base();
    let l2s = c.l2_self_base();
    let vk = v + k * 4096;
    let fresh = c.l1_entry_of(vk) == 0;
    let f = n.l2_of(vk);
    let cb = c.allocator().next_free as int;
    let nb = n.allocator().next_free as int;
    if fresh {
        lemma_placed(c.allocator().ranges, c.allocator().next_free, 4096int);
        assert(f >= cb && f + 4096 == nb);
    }
    assert(cb <= nb);
    assert(n.l1_entry_of(vk) != 0);
    assert(l2_slot_ok(n.mem(), l1, l2s, nb, l1_index(vk)));
    lemma_descriptor_words(l2s);
    // Earlier pages keep their slot and leaf.
    assert forall|j: int| 0 <= j < k implies n.l1_entry_of(v + j * 4096) == c.l1_entry_of(v + j * 4096)
        && n.leaf_index(v + j * 4096) == #[trigger] c.leaf_index(v + j * 4096)
        && n.mem()[c.leaf_index(v + j * 4096)] == c.mem()[c.leaf_index(v + j * 4096)] by {
        let vj = v + j * 4096;
        let ij = l1_index(vj);
        assert(c.l1_entry_of(vj) != 0);
        assert(l2_slot_ok(c.mem(), l1, l2s, cb, ij));
        let w1 = l1 / 4 + ij;
        if ij != l1_index(vk) {
            lemma_frames_apart(f, l2s, l2_index(vk), 5);
            assert(n.mem()[w1] == c.mem()[w1]);
        }
        assert(n.l1_entry_of(vj) == c.l1_entry_of(vj));
        let g = c.l2_of(vj);
        let wl = c.leaf_index(vj);
        assert(vj / 4096 != vk / 4096);
        if ij == l1_index(vk) {
            lemma_same_page(vj, vk);
            assert(l2_index(vj) != l2_index(vk));
        } else {
            assert(l2_slot_ok(n.mem(), l1, l2s, nb, ij));
            assert(g != f);
            lemma_frames_apart(g, f, l2_index(vj), l2_index(vk));
        }
        lemma_frames_apart(g, l2s, l2_index(vj), 5);
        if fresh {
            assert(g + 4096 <= cb);
        }
        assert(n.mem()[wl] == c.mem()[wl]);
    }
    assert forall|j: int| 0 <= j < k + 1 implies #[trigger] n.l1_entry_of(v + j * 4096) != 0
        && n.leaf_word(v + j * 4096) == page_word(device, p + j * 4096) by {
        if j < k {
            assert(c.l1_entry_of(v + j * 4096) != 0);
        }
    }
    assert forall|w: int| 0 <= w < o.mem().len()
        && !(o.allocator().next_free / 4 <= w < nb / 4)
        && w != o.l2_self_base() / 4 + 5 && off_range(n, o.l1_base(), v, k + 1, w)
        implies #[trigger] n.mem()[w] == o.mem()[w] by {
        assert(!page_hits(n, o.l1_base(), v, k, w));
        if fresh {
            assert(!(f / 4 <= w < f / 4 + 1024));
        }
        assert(n.mem()[w] == c.mem()[w]);
        lemma_off_range_shrink(c, n, o.l1_base(), v, k, w);
    }
}

} // verus!

verus! {

/// Whether the bootstrap can map layout `ml` (see `layout_ok`).
pub fn check_layout(ml: &MemLayout) -> (r: bool)
    ensures
        r == layout_ok(ml),
{
    let ks = ml.kernel_start_virt.0;
    let ke = ml.kernel_end_virt.0;
    if ks > ke || ke - ks > usize::MAX - 0x10_1000 {
        return false;
    }
    let mbs: usize = (up(ke - ks) + (MB_SIZE - 1)) / MB_SIZE;
    assert(mbs == kernel_mbs(ml));
    if mbs > 4096 {
        assert(mbs * 0x10_0000 > 0x1_0000_0000) by (nonlinear_arith)
            requires mbs > 4096;
        return false;
    }
    let span: u64 = mbs as u64 * 0x10_0000;
    let kbase: u64 = (ks - ks % MB_SIZE) as u64;
    let kphys = ml.kernel_start_phy.0;
    let sv = ml.stack_virt.0;
    kphys % PAGE_SIZE == 0
        && kphys as u64 <= 0x1_0000_0000u64 - span
        && kbase <= 0x1_0000_0000u64 - span
        && (kbase + span <= L1_SELF as u64 || kbase >= L1_SELF as u64 + MB_SIZE as u64)
        && (sv as u64) < 0x1_0000_0000u64
        && (ml.stack_phy.0 as u64) < 0x1_0000_0000u64
        && sv / MB_SIZE != SELF_INDEX
}

/// Whether `init_page_table` may be called on these arguments: the boot
/// tables are active, aligned, in memory and never handed out, the
/// allocator's memory lies in the machine's, and the layout can be mapped.
pub fn boot_request_ok(machine: &Machine, l1table_identity: VirtualAddress, l2table_identity: VirtualAddress,
    ml: &MemLayout, fa: &LameFrameAllocator) -> (r: bool)
    requires
        machine.wf(),
    ensures
        r == (machine@.ttbr == l1table_identity.0
            && l1table_identity.0 % 0x4000 == 0
            && l1table_identity.0 / 4 + 4096 <= machine@.mem.len()
            && is_frame(l2table_identity.0 as int)
            && l2table_identity.0 / 4 + 1024 <= machine@.mem.len()
            && (l2table_identity.0 + 4096 <= l1table_identity.0 || l2table_identity.0 >= l1table_identity.0 + 0x4000)
            && fa@.max <= machine@.mem.len() * 4
            && boot_tables_kept(fa@.ranges, fa@.next_free as int, fa@.max as int, l1table_identity.0 as int,
                l2table_identity.0 as int)
            && layout_ok(ml)),
{
    let l1 = l1table_identity.0;
    let l2 = l2table_identity.0;
    let words = machine.size() / 4;
    if !(machine.get_ttb0() == l1 && l1 % 0x4000 == 0 && l1 / 4 < words && words - l1 / 4 >= 4096) {
        return false;
    }
    if !(l2 % PAGE_SIZE == 0 && (l2 as u64) <= 0xFFFF_FFFFu64 && l2 / 4 < words && words - l2 / 4 >= 1024) {
        return false;
    }
    if !(l2 + 4096 <= l1 || l2 >= l1 + 0x4000) {
        return false;
    }
    if fa.max() > machine.size() {
        return false;
    }
    fa.keeps(l1, l1 + 0x4000) && fa.keeps(l2, l2 + 4096) && check_layout(ml)
}

} // verus!
