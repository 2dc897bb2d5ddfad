//! Physical and virtual addresses and page numbers.

use vstd::prelude::*;

verus! {

/// Bytes in one page (and one physical frame).
pub const PAGE_SIZE: usize = 4096;

/// Bits of a byte address that lie inside a page.
pub const PAGE_SIZE_BITS: usize = 12;

/// Page-table entries held by one radix node.
pub const ENTRIES_PER_NODE: usize = 512;

/// A physical byte address.
#[derive(Clone, Copy, Debug, PartialEq, Eq, Structural)]
pub struct PhysAddr(pub usize);

/// A virtual byte address.
#[derive(Clone, Copy, Debug, PartialEq, Eq, Structural)]
pub struct VirtAddr(pub usize);

/// The number of a physical frame.
#[derive(Clone, Copy, Debug, PartialEq, Eq, Structural)]
pub struct PhysPageNum(pub usize);

/// The number of a virtual page.
#[derive(Clone, Copy, Debug, PartialEq, Eq, Structural)]
pub struct VirtPageNum(pub usize);

/// Index into the radix node of `level` (0 = root) for virtual page `vpn`.
pub open spec fn vpn_index(vpn: nat, level: nat) -> nat {
    if level == 0 {
        (vpn / (512 * 512)) % 512
    } else if level == 1 {
        (vpn / 512) % 512
    } else {
        vpn % 512
    }
}

impl PhysAddr {
    /// The frame that holds this address.
    pub fn floor(&self) -> (r: PhysPageNum)
        ensures
            r.0 == self.0 / PAGE_SIZE,
    {
        PhysPageNum(self.0 / PAGE_SIZE)
    }

    /// The first frame that starts at or above this address.
    pub fn ceil(&self) -> (r: PhysPageNum)
        ensures
            r.0 == (self.0 + PAGE_SIZE - 1) / PAGE_SIZE as int,
    {
        if self.0 % PAGE_SIZE == 0 {
            PhysPageNum(self.0 / PAGE_SIZE)
        } else {
            PhysPageNum(self.0 / PAGE_SIZE + 1)
        }
    }

    /// The offset of this address inside its frame.
    pub fn page_offset(&self) -> (r: usize)
        ensures
            r == self.0 % PAGE_SIZE,
    {
        self.0 % PAGE_SIZE
    }
}

impl VirtAddr {
    /// The page that holds this address.
    pub fn floor(&self) -> (r: VirtPageNum)
        ensures
            r.0 == self.0 / PAGE_SIZE,
    {
        VirtPageNum(self.0 / PAGE_SIZE)
    }

    /// The first page that starts at or above this address.
    pub fn ceil(&self) -> (r: VirtPageNum)
        ensures
            r.0 == (self.0 + PAGE_SIZE - 1) / PAGE_SIZE as int,
    {
        if self.0 % PAGE_SIZE == 0 {
            VirtPageNum(self.0 / PAGE_SIZE)
        } else {
            VirtPageNum(self.0 / PAGE_SIZE + 1)
        }
    }

    /// The offset of this address inside its page.
    pub fn page_offset(&self) -> (r: usize)
        ensures
            r == self.0 % PAGE_SIZE,
    {
        self.0 % PAGE_SIZE
    }
}

impl PhysPageNum {
    /// The address of the first byte of this frame.
    pub fn addr(&self) -> (r: PhysAddr)
        requires
            self.0 * PAGE_SIZE <= usize::MAX,
        ensures
            r.0 == self.0 * PAGE_SIZE,
    {
        PhysAddr(self.0 * PAGE_SIZE)
    }
}

impl VirtPageNum {
    /// The address of the first byte of this page.
    pub fn addr(&self) -> (r: VirtAddr)
        requires
            self.0 * PAGE_SIZE <= usize::MAX,
        ensures
            r.0 == self.0 * PAGE_SIZE,
    {
        VirtAddr(self.0 * PAGE_SIZE)
    }

    /// The three radix indices of this page, most significant first.
    pub fn indexes(&self) -> (r: [usize; 3])
        ensures
            r@.len() == 3,
            forall|l: int| 0 <= l < 3 ==> r@[l] == vpn_index(self.0 as nat, l as nat),
            forall|l: int| 0 <= l < 3 ==> r@[l] < ENTRIES_PER_NODE,
    {
        let i0 = (self.0 / (ENTRIES_PER_NODE * ENTRIES_PER_NODE)) % ENTRIES_PER_NODE;
        let i1 = (self.0 / ENTRIES_PER_NODE) % ENTRIES_PER_NODE;
        let i2 = self.0 % ENTRIES_PER_NODE;
        [i0, i1, i2]
    }

    /// Moves to the next page.
    pub fn step(&mut self)
        requires
            old(self).0 < usize::MAX,
        ensures
            final(self).0 == old(self).0 + 1,
    {
        self.0 = self.0 + 1;
    }
}

} // verus!
