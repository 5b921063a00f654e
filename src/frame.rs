//! A bump allocator of physical frames that steps over reserved ranges.
use core::ops::Range;
use vstd::prelude::*;
use crate::mem::{FrameAllocator, PhysicalAddress, PAGE_SIZE};

verus! {

/// What the allocator holds: the next free byte, the end of memory and the
/// reserved ranges.
pub struct FrameState {
    pub next_free: usize,
    pub max: usize,
    pub ranges: Seq<Range<usize>>,
}

/// Whether the byte spans `[lo, hi)` and `r` intersect.
pub open spec fn overlaps(r: Range<usize>, lo: int, hi: int) -> bool {
    lo < r.end && r.start < hi
}

/// The end of the first range, from index `i` on, that meets `[lo, hi)`.
pub open spec fn first_overlap_end(ranges: Seq<Range<usize>>, lo: int, hi: int, i: int) -> Option<usize>
    decreases ranges.len() - i,
{
    if i < 0 || i >= ranges.len() {
        None
    } else if overlaps(ranges[i], lo, hi) {
        Some(ranges[i].end)
    } else {
        first_overlap_end(ranges, lo, hi, i + 1)
    }
}

/// Where a span of `size` bytes lands when placed at `nf`: past the end of
/// the first reserved range that it meets, retried from the top until it
/// meets none.
pub open spec fn placed(ranges: Seq<Range<usize>>, nf: usize, size: int) -> usize
    decreases usize::MAX - nf,
{
    match first_overlap_end(ranges, nf as int, nf + size, 0) {
        Some(e) => if e > nf {
            placed(ranges, e, size)
        } else {
            nf
        },
        None => nf,
    }
}

/// One call of `allocate(n)`: the new state and the result.
pub open spec fn alloc_step(s: FrameState, n: nat) -> (FrameState, Option<usize>) {
    let size = n * PAGE_SIZE as int;
    let at = placed(s.ranges, s.next_free, size);
    if s.next_free >= s.max || at + size > s.max {
        (s, None)
    } else {
        (FrameState { next_free: (at + size) as usize, ..s }, Some(at))
    }
}

/// The state after `k` allocations of one frame each.
pub open spec fn alloc_frames(s: FrameState, k: nat) -> FrameState
    decreases k,
{
    if k == 0 {
        s
    } else {
        alloc_step(alloc_frames(s, (k - 1) as nat), 1).0
    }
}

/// The results of allocating `ks[0]`, `ks[1]`, ... frames in turn.
pub open spec fn alloc_run(s: FrameState, ks: Seq<nat>) -> Seq<Option<usize>>
    decreases ks.len(),
{
    if ks.len() == 0 {
        Seq::empty()
    } else {
        let (t, r) = alloc_step(s, ks[0]);
        seq![r] + alloc_run(t, ks.drop_first())
    }
}

/// The sum of the first `i` entries of `ks`.
pub open spec fn prefix_sum(ks: Seq<nat>, i: int) -> nat
    decreases i,
{
    if i <= 0 || ks.len() == 0 {
        0
    } else {
        (prefix_sum(ks, i - 1) + ks[i - 1]) as nat
    }
}

proof fn lemma_first_overlap_end(ranges: Seq<Range<usize>>, lo: int, hi: int, i: int)
    ensures
        first_overlap_end(ranges, lo, hi, i) matches Some(e) ==> lo < e && exists|j: int|
            0 <= j < ranges.len() && ranges[j].end == e && overlaps(ranges[j], lo, hi),
        first_overlap_end(ranges, lo, hi, i) is None ==> forall|j: int|
            i <= j < ranges.len() && 0 <= i ==> !overlaps(#[trigger] ranges[j], lo, hi),
    decreases ranges.len() - i,
{
    if 0 <= i < ranges.len() && !overlaps(ranges[i], lo, hi) {
        lemma_first_overlap_end(ranges, lo, hi, i + 1);
        if first_overlap_end(ranges, lo, hi, i) is None {
            assert forall|j: int| i <= j < ranges.len() implies !overlaps(#[trigger] ranges[j], lo, hi) by {
                if j > i {
                }
            }
        }
    }
}

/// A placed span starts no lower than where it was asked for, meets no
/// reserved range, and, when it moved, starts at the end of one.
pub proof fn lemma_placed(ranges: Seq<Range<usize>>, nf: usize, size: int)
    ensures
        placed(ranges, nf, size) >= nf,
        forall|j: int| 0 <= j < ranges.len() ==> !overlaps(#[trigger] ranges[j],
            placed(ranges, nf, size) as int, placed(ranges, nf, size) + size),
        placed(ranges, nf, size) != nf ==> exists|j: int|
            0 <= j < ranges.len() && ranges[j].end == placed(ranges, nf, size),
    decreases usize::MAX - nf,
{
    lemma_first_overlap_end(ranges, nf as int, nf + size, 0);
    match first_overlap_end(ranges, nf as int, nf + size, 0) {
        Some(e) => {
            lemma_placed(ranges, e, size);
        },
        None => {},
    }
}

/// The base address of an allocated run, as a plain number.
pub open spec fn frame_base(r: Option<PhysicalAddress>) -> Option<usize> {
    match r {
        Some(p) => Some(p.0),
        None => None,
    }
}

proof fn lemma_prefix_sum_shift(ks: Seq<nat>, i: int)
    requires
        0 <= i < ks.len(),
    ensures
        prefix_sum(ks, i + 1) == ks[0] + prefix_sum(ks.drop_first(), i),
    decreases i,
{
    let rest = ks.drop_first();
    if i > 0 {
        lemma_prefix_sum_shift(ks, i - 1);
        assert(rest[i - 1] == ks[i]);
        assert(prefix_sum(rest, i) == prefix_sum(rest, i - 1) + rest[i - 1]);
    } else {
        assert(prefix_sum(ks, 0) == 0);
        assert(prefix_sum(rest, 0) == 0);
    }
}

proof fn lemma_prefix_sum_mono(ks: Seq<nat>, i: int, j: int)
    requires
        0 <= i <= j <= ks.len(),
    ensures
        prefix_sum(ks, i) <= prefix_sum(ks, j),
    decreases j - i,
{
    if i < j {
        lemma_prefix_sum_mono(ks, i, j - 1);
    }
}

/// Without reserved ranges, allocations that together fit in memory come out
/// back to back: the `i`-th run starts `ks[0] + ... + ks[i-1]` pages above
/// the first free byte. (A request for zero frames at the very end of memory
/// fails, so every request here asks for at least one frame.)
pub proof fn lemma_linear_allocation(s: FrameState, ks: Seq<nat>)
    requires
        s.ranges.len() == 0,
        forall|i: int| 0 <= i < ks.len() ==> #[trigger] ks[i] >= 1,
        s.next_free + prefix_sum(ks, ks.len() as int) * PAGE_SIZE <= s.max,
    ensures
        alloc_run(s, ks).len() == ks.len(),
        forall|i: int| 0 <= i < ks.len() ==> #[trigger] alloc_run(s, ks)[i] == Some(
            (s.next_free + prefix_sum(ks, i) * PAGE_SIZE) as usize),
    decreases ks.len(),
{
    if ks.len() > 0 {
        let size = ks[0] * PAGE_SIZE as int;
        assert(first_overlap_end(s.ranges, s.next_free as int, s.next_free + size, 0) is None);
        assert(placed(s.ranges, s.next_free, size) == s.next_free);
        lemma_prefix_sum_mono(ks, 1, ks.len() as int);
        assert(prefix_sum(ks, 1) == ks[0]) by {
            assert(prefix_sum(ks, 0) == 0);
        }
        assert(ks[0] * PAGE_SIZE as int <= prefix_sum(ks, ks.len() as int) * PAGE_SIZE as int) by (nonlinear_arith)
            requires ks[0] <= prefix_sum(ks, ks.len() as int);
        assert(ks[0] * PAGE_SIZE as int >= 4096) by (nonlinear_arith)
            requires ks[0] >= 1;
        let (t, r) = alloc_step(s, ks[0]);
        assert(r == Some(s.next_free));
        let rest = ks.drop_first();
        assert forall|i: int| 0 <= i < rest.len() implies #[trigger] rest[i] >= 1 by {
            assert(rest[i] == ks[i + 1]);
        }
        lemma_prefix_sum_shift(ks, ks.len() - 1);
        assert(t.next_free + prefix_sum(rest, rest.len() as int) * PAGE_SIZE <= t.max) by (nonlinear_arith)
            requires
                t.next_free == s.next_free + ks[0] * 4096,
                prefix_sum(ks, ks.len() as int) == ks[0] + prefix_sum(rest, rest.len() as int),
                s.next_free + prefix_sum(ks, ks.len() as int) * 4096 <= s.max,
                t.max == s.max;
        lemma_linear_allocation(t, rest);
        assert forall|i: int| 0 <= i < ks.len() implies #[trigger] alloc_run(s, ks)[i] == Some(
            (s.next_free + prefix_sum(ks, i) * PAGE_SIZE) as usize) by {
            if i > 0 {
                assert(alloc_run(s, ks)[i] == alloc_run(t, rest)[i - 1]);
                lemma_prefix_sum_shift(ks, i - 1);
                assert(t.next_free + prefix_sum(rest, i - 1) * PAGE_SIZE
                    == s.next_free + prefix_sum(ks, i) * PAGE_SIZE) by (nonlinear_arith)
                    requires
                        t.next_free == s.next_free + ks[0] * 4096,
                        prefix_sum(ks, i) == ks[0] + prefix_sum(rest, i - 1);
            }
        }
    }
}

/// An allocation never meets a reserved range, and one that did not start at
/// the first free byte starts at the end of a reserved range.
pub proof fn lemma_reserved_ranges_skipped(s: FrameState, n: nat)
    ensures
        alloc_step(s, n).1 matches Some(a) ==> {
            &&& forall|j: int| 0 <= j < s.ranges.len() ==> !overlaps(#[trigger] s.ranges[j], a as int, a + n * PAGE_SIZE)
            &&& a != s.next_free ==> exists|j: int| 0 <= j < s.ranges.len() && s.ranges[j].end == a
        },
{
    lemma_placed(s.ranges, s.next_free, n * PAGE_SIZE as int);
}

/// The bytes `[lo, hi)` are never handed out by an allocator whose first
/// free byte is at least `floor` and whose memory ends at `max`: they lie
/// below the one, at or above the other, or in a reserved range.
pub open spec fn kept_from_allocator(ranges: Seq<Range<usize>>, floor: int, max: int, lo: int, hi: int) -> bool {
    hi <= floor || lo >= max || exists|i: int| 0 <= i < ranges.len() && ranges[i].start <= lo && hi <= ranges[i].end
}

/// A bump allocator over physical frames that never hands out a frame of a
/// reserved range. Frame zero holds the vector table and is never handed out.
pub struct LameFrameAllocator {
    nextfree: usize,
    max: usize,
    ranges: Vec<Range<usize>>,
}

impl View for LameFrameAllocator {
    type V = FrameState;

    closed spec fn view(&self) -> FrameState {
        FrameState { next_free: self.nextfree, max: self.max, ranges: self.ranges@ }
    }
}

impl LameFrameAllocator {
    /// Frames are whole pages: the next free byte and the end of every
    /// reserved range are page aligned.
    pub open spec fn wf(&self) -> bool {
        &&& self@.next_free % PAGE_SIZE == 0
        &&& forall|i: int| 0 <= i < self@.ranges.len() ==> (#[trigger] self@.ranges[i]).end % PAGE_SIZE == 0
    }

    /// The end of the first reserved range that meets `[lo, hi)`.
    fn first_hit(&self, lo: usize, hi: usize) -> (r: Option<usize>)
        ensures
            r == first_overlap_end(self@.ranges, lo as int, hi as int, 0),
    {
        let mut i: usize = 0;
        while i < self.ranges.len()
            invariant
                i <= self.ranges@.len(),
                first_overlap_end(self@.ranges, lo as int, hi as int, 0)
                    == first_overlap_end(self@.ranges, lo as int, hi as int, i as int),
            decreases self.ranges@.len() - i,
        {
            let r = &self.ranges[i];
            if lo < r.end && r.start < hi {
                return Some(r.end);
            }
            i = i + 1;
        }
        None
    }

    /// The first byte not yet handed out.
    pub fn next_free(&self) -> (r: usize)
        ensures
            r == self@.next_free,
    {
        self.nextfree
    }

    /// The end of the memory the allocator hands out.
    pub fn max(&self) -> (r: usize)
        ensures
            r == self@.max,
    {
        self.max
    }

    /// Whether the bytes `[lo, hi)` can never be handed out.
    pub fn keeps(&self, lo: usize, hi: usize) -> (r: bool)
        ensures
            r == kept_from_allocator(self@.ranges, self@.next_free as int, self@.max as int, lo as int, hi as int),
    {
        if hi <= self.nextfree || lo >= self.max {
            return true;
        }
        let mut i: usize = 0;
        while i < self.ranges.len()
            invariant
                i <= self.ranges@.len(),
                forall|j: int| 0 <= j < i ==> !(self.ranges@[j].start <= lo && hi <= #[trigger] self.ranges@[j].end),
            decreases self.ranges@.len() - i,
        {
            if self.ranges[i].start <= lo && hi <= self.ranges[i].end {
                return true;
            }
            i = i + 1;
        }
        false
    }

    /// An allocator of the frames below `max_size`, skipping `ranges`.
    pub fn new(ranges: Vec<Range<usize>>, max_size: usize) -> (r: LameFrameAllocator)
        requires
            forall|i: int| 0 <= i < ranges@.len() ==> (#[trigger] ranges@[i]).end % PAGE_SIZE == 0,
        ensures
            r.wf(),
            r@ == (FrameState { next_free: PAGE_SIZE, max: max_size, ranges: ranges@ }),
    {
        LameFrameAllocator { max: max_size, nextfree: PAGE_SIZE, ranges }
    }
}

impl FrameAllocator for LameFrameAllocator {
    /// Takes `number` frames at the next free byte, first stepping past
    /// every reserved range that the run would meet.
    fn allocate(&mut self, number: usize) -> (r: Option<PhysicalAddress>)
        ensures
            old(self).wf() ==> final(self).wf(),
            (final(self)@, frame_base(r)) == alloc_step(old(self)@, number as nat),
    {
        if self.nextfree >= self.max {
            return None;
        }
        let ghost size: int = number as int * PAGE_SIZE as int;
        proof {
            lemma_placed(self.ranges@, self.nextfree, size);
        }
        if number > (usize::MAX - self.nextfree) / PAGE_SIZE {
            assert(number * 4096 > usize::MAX - self.nextfree) by (nonlinear_arith)
                requires number > (usize::MAX - self.nextfree) / 4096;
            return None;
        }
        assert(number * 4096 <= usize::MAX - self.nextfree) by (nonlinear_arith)
            requires number <= (usize::MAX - self.nextfree) / 4096;
        let size_bytes: usize = number * PAGE_SIZE;
        let mut cur: usize = self.nextfree;
        loop
            invariant
                self@ == old(self)@,
                size_bytes == size,
                size == number * PAGE_SIZE,
                cur >= self.nextfree,
                placed(self.ranges@, cur, size) == placed(self.ranges@, self.nextfree, size),
                old(self).wf() ==> cur % PAGE_SIZE == 0,
            ensures
                cur + size <= usize::MAX,
                placed(self.ranges@, cur, size) == cur,
                placed(self.ranges@, cur, size) == placed(self.ranges@, self.nextfree, size),
                old(self).wf() ==> cur % PAGE_SIZE == 0,
            decreases usize::MAX - cur,
        {
            proof {
                lemma_placed(self.ranges@, cur, size);
            }
            if size_bytes > usize::MAX - cur {
                assert(placed(self.ranges@, self.nextfree, size) + size > self.max);
                return None;
            }
            let pot: usize = cur + size_bytes;
            match self.first_hit(cur, pot) {
                Some(e) => {
                    proof {
                        lemma_first_overlap_end(self.ranges@, cur as int, pot as int, 0);
                    }
                    cur = e;
                },
                None => {
                    break;
                },
            }
        }
        if cur + size_bytes > self.max {
            return None;
        }
        self.nextfree = cur + size_bytes;
        proof {
            if old(self).wf() {
                assert((cur + size) % 4096 == 0) by (nonlinear_arith)
                    requires cur % 4096 == 0, size == number * 4096;
            }
        }
        Some(PhysicalAddress(cur))
    }

    /// Frames are not reused: giving them back changes nothing.
    fn deallocate(&mut self, start: PhysicalAddress, num_frames: usize)
        ensures
            final(self)@ == old(self)@,
    {
    }
}

} // verus!
