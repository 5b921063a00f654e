//! First- and second-level ARM page-table descriptors.
use vstd::prelude::*;
use crate::mem::PhysicalAddress;

verus! {

/// Type bits of a coarse first-level entry (one that points at an L2 table).
pub const L1_COARSE_TYPE: u32 = 1;

/// Execute-never bit of a small-page entry.
pub const L2_NX: u32 = 1;

/// Type bit of a small-page entry.
pub const L2_XPAGE_TYPE: u32 = 0x2;

/// Bufferable bit of a small-page entry.
pub const L2_BUFFERABLE: u32 = 0x4;

/// Cacheable bit of a small-page entry.
pub const L2_CACHEABLE: u32 = 0x8;

/// Shareable bit of a small-page entry.
pub const L2_SHAREABLE: u32 = 0x400;

/// Access permission bits: read and write from every mode.
pub const L2_AP_ALL_ACCESS: u32 = 0x30;

/// The frame that an entry points at: the word with its low twelve bits cleared.
pub open spec fn frame_of(w: u32) -> int {
    (w & 0xFFFF_F000u32) as int
}

/// Whether `p` is a page-aligned 32-bit physical address.
pub open spec fn is_frame(p: int) -> bool {
    0 <= p <= u32::MAX && p % 4096 == 0
}

/// A coarse first-level entry pointing at the L2 table in frame `p`.
pub open spec fn l1_coarse_word(p: int) -> u32 {
    (p as u32) | L1_COARSE_TYPE
}

/// A small-page entry for normal memory: executable, cacheable, bufferable,
/// accessible from every mode.
pub open spec fn l2_normal_word(p: int) -> u32 {
    (p as u32) | (L2_XPAGE_TYPE | L2_BUFFERABLE | L2_CACHEABLE | L2_AP_ALL_ACCESS)
}

/// A small-page entry for device memory: neither cacheable nor bufferable.
pub open spec fn l2_device_word(p: int) -> u32 {
    (p as u32) | (L2_XPAGE_TYPE | L2_AP_ALL_ACCESS)
}

proof fn lemma_low_bits(p: u32, c: u32)
    by (bit_vector)
    requires
        p & 0xFFF == 0,
        0 < c < 0x1000,
    ensures
        (p | c) & 0xFFFF_F000u32 == p,
        (p | c) != 0,
{
}

proof fn lemma_aligned_low_bits(p: u32)
    by (bit_vector)
    requires
        p % 4096 == 0,
    ensures
        p & 0xFFF == 0,
{
}

/// Every descriptor built for a page-aligned frame is present and gives that
/// frame back.
pub proof fn lemma_descriptor_words(p: int)
    requires
        is_frame(p),
    ensures
        l1_coarse_word(p) != 0,
        frame_of(l1_coarse_word(p)) == p,
        l2_normal_word(p) != 0,
        frame_of(l2_normal_word(p)) == p,
        l2_device_word(p) != 0,
        frame_of(l2_device_word(p)) == p,
{
    let q = p as u32;
    lemma_aligned_low_bits(q);
    lemma_low_bits(q, 1);
    lemma_low_bits(q, 0x3E);
    lemma_low_bits(q, 0x32);
    assert(L2_XPAGE_TYPE | L2_BUFFERABLE | L2_CACHEABLE | L2_AP_ALL_ACCESS == 0x3E) by (bit_vector);
    assert(L2_XPAGE_TYPE | L2_AP_ALL_ACCESS == 0x32) by (bit_vector);
}

/// The frame an entry points at is page aligned and a 32-bit address.
pub proof fn lemma_frame_of_aligned(w: u32)
    ensures
        frame_of(w) % 4096 == 0,
        0 <= frame_of(w) <= 0xFFFF_F000,
{
    assert((w & 0xFFFF_F000u32) % 4096 == 0) by (bit_vector);
    assert((w & 0xFFFF_F000u32) <= 0xFFFF_F000u32) by (bit_vector);
}

/// A first-level section entry (maps one MiB directly).
pub struct L1TableSectionDescriptor(pub u32);

/// A first-level coarse entry (points at a second-level table).
pub struct L1TableCoarseDescriptor(pub u32);

/// A first-level entry of any kind.
pub struct FirstLevelTableDescriptor(pub u32);

/// An entry of the first-level table; zero means not present.
#[derive(Clone, Copy, Debug, PartialEq, Eq, Structural)]
pub struct L1TableDescriptor(pub u32);

/// An entry of a second-level table; zero means not present.
#[derive(Clone, Copy, Debug, PartialEq, Eq, Structural)]
pub struct L2TableDescriptor(pub u32);

impl L1TableDescriptor {
    /// A coarse entry for the L2 table in frame `physical_address_of_l2`,
    /// which must be page aligned.
    pub fn new(physical_address_of_l2: PhysicalAddress) -> (r: L1TableDescriptor)
        requires
            is_frame(physical_address_of_l2.0 as int),
        ensures
            r.0 == l1_coarse_word(physical_address_of_l2.0 as int),
            r.is_present_spec(),
            frame_of(r.0) == physical_address_of_l2.0,
    {
        proof {
            lemma_descriptor_words(physical_address_of_l2.0 as int);
        }
        L1TableDescriptor((physical_address_of_l2.0 as u32) | L1_COARSE_TYPE)
    }

    pub open spec fn is_present_spec(&self) -> bool {
        self.0 != 0
    }

    /// Whether the entry is present.
    pub fn is_present(&self) -> (r: bool)
        ensures
            r == self.is_present_spec(),
    {
        self.0 != 0
    }

    /// The frame of the L2 table that a present entry points at.
    pub fn get_physical_address(&self) -> (r: PhysicalAddress)
        requires
            self.is_present_spec(),
        ensures
            r.0 == frame_of(self.0),
    {
        PhysicalAddress((self.0 & 0xFFFF_F000u32) as usize)
    }
}

impl L2TableDescriptor {
    /// A small-page entry for normal memory in frame
    /// `physical_address_of_page`, which must be page aligned.
    pub fn new(physical_address_of_page: PhysicalAddress) -> (r: L2TableDescriptor)
        requires
            is_frame(physical_address_of_page.0 as int),
        ensures
            r.0 == l2_normal_word(physical_address_of_page.0 as int),
            r.is_present_spec(),
            frame_of(r.0) == physical_address_of_page.0,
    {
        proof {
            lemma_descriptor_words(physical_address_of_page.0 as int);
        }
        L2TableDescriptor((physical_address_of_page.0 as u32) | (L2_XPAGE_TYPE | L2_BUFFERABLE
            | L2_CACHEABLE | L2_AP_ALL_ACCESS))
    }

    /// A small-page entry for normal memory in frame `p`, or `None` when
    /// `p` is not a page-aligned 32-bit address (the case `new` excludes).
    pub fn checked_new(p: PhysicalAddress) -> (r: Option<L2TableDescriptor>)
        ensures
            r is None <==> !is_frame(p.0 as int),
            r matches Some(d) ==> d.0 == l2_normal_word(p.0 as int) && frame_of(d.0) == p.0,
    {
        if p.0 % 4096 != 0 || p.0 > 0xFFFF_FFFF {
            None
        } else {
            Some(L2TableDescriptor::new(p))
        }
    }

    /// A small-page entry for device memory in frame
    /// `physical_address_of_page`, which must be page aligned.
    pub fn new_device(physical_address_of_page: PhysicalAddress) -> (r: L2TableDescriptor)
        requires
            is_frame(physical_address_of_page.0 as int),
        ensures
            r.0 == l2_device_word(physical_address_of_page.0 as int),
            r.is_present_spec(),
            frame_of(r.0) == physical_address_of_page.0,
    {
        proof {
            lemma_descriptor_words(physical_address_of_page.0 as int);
        }
        L2TableDescriptor((physical_address_of_page.0 as u32) | (L2_XPAGE_TYPE | L2_AP_ALL_ACCESS))
    }

    pub open spec fn is_present_spec(&self) -> bool {
        self.0 != 0
    }

    /// Whether the entry is present.
    pub fn is_present(&self) -> (r: bool)
        ensures
            r == self.is_present_spec(),
    {
        self.0 != 0
    }

    /// The frame that a present entry maps.
    pub fn get_physical_address(&self) -> (r: PhysicalAddress)
        requires
            self.is_present_spec(),
        ensures
            r.0 == frame_of(self.0),
    {
        PhysicalAddress((self.0 & 0xFFFF_F000u32) as usize)
    }
}

/// A normal-memory entry built for a page-aligned frame is present and
/// gives that frame back.
pub proof fn lemma_l2_round_trip(p: PhysicalAddress)
    requires
        is_frame(p.0 as int),
    ensures
        l2_normal_word(p.0 as int) != 0,
        frame_of(l2_normal_word(p.0 as int)) == p.0,
{
    lemma_descriptor_words(p.0 as int);
}

} // verus!
