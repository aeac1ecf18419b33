//! Physical and virtual addresses, and 4 KiB page alignment.

use vstd::prelude::*;

verus! {

/// Size of one page (and of one physical frame) in bytes.
pub const PAGE_SIZE_4K: u64 = 0x1000;

/// Whether `x` is a multiple of the page size.
pub open spec fn aligned(x: int) -> bool {
    x % (PAGE_SIZE_4K as int) == 0
}

/// A physical address.
#[derive(Clone, Copy, Debug, PartialEq, Eq, Structural)]
pub struct PhysAddr(pub u64);

/// A virtual address.
#[derive(Clone, Copy, Debug, PartialEq, Eq, Structural)]
pub struct VirtAddr(pub u64);

impl PhysAddr {
    /// The address as an integer.
    pub fn as_u64(self) -> (r: u64)
        ensures
            r == self.0,
    {
        self.0
    }

    /// Whether the address lies on a page boundary.
    pub fn is_aligned_4k(self) -> (r: bool)
        ensures
            r == aligned(self.0 as int),
    {
        is_aligned_4k(self.0)
    }
}

impl VirtAddr {
    /// The address as an integer.
    pub fn as_u64(self) -> (r: u64)
        ensures
            r == self.0,
    {
        self.0
    }

    /// Whether the address lies on a page boundary.
    pub fn is_aligned_4k(self) -> (r: bool)
        ensures
            r == aligned(self.0 as int),
    {
        is_aligned_4k(self.0)
    }

    /// The address `n` bytes further on, or `None` where that leaves the
    /// address width.
    pub fn checked_add(self, n: u64) -> (r: Option<VirtAddr>)
        ensures
            r == (if self.0 + n <= u64::MAX {
                Some(VirtAddr((self.0 + n) as u64))
            } else {
                None::<VirtAddr>
            }),
    {
        match self.0.checked_add(n) {
            Some(v) => Some(VirtAddr(v)),
            None => None,
        }
    }
}

/// Whether `x` is a multiple of the page size.
pub fn is_aligned_4k(x: u64) -> (r: bool)
    ensures
        r == aligned(x as int),
{
    x % PAGE_SIZE_4K == 0
}

/// Rounds `x` down to the page boundary at or below it.
pub fn align_down_4k(x: u64) -> (r: u64)
    ensures
        r as int == x as int - x as int % (PAGE_SIZE_4K as int),
        aligned(r as int),
        r <= x,
        x - r < PAGE_SIZE_4K,
{
    x - x % PAGE_SIZE_4K
}

} // verus!
