//! Virtual pages, canonical addresses, and the index decomposition that
//! drives the four-level table walk.

use vstd::prelude::*;
use crate::mem::PAGE_SIZE;

verus! {

/// A physical address.
pub type PhysicalAddress = u64;

/// A virtual address.
pub type VirtualAddress = u64;

/// Number of entries in one table.
pub const ENTRY_COUNT: u64 = 512;

/// A virtual address is canonical when it lies in the lower half
/// (below `0x0000_8000_0000_0000`) or in the sign-extended upper half
/// (at or above `0xffff_8000_0000_0000`).
pub open spec fn canonical(address: VirtualAddress) -> bool {
    address < 0x0000_8000_0000_0000 || address >= 0xffff_8000_0000_0000
}

/// The canonical ranges are exactly as the hardware draws them: the
/// last lower-half address is accepted, the first address past it is
/// rejected, and the upper half begins at its sign-extended boundary.
pub proof fn lemma_canonical_boundaries()
    ensures
        canonical(0x0000_7fff_ffff_ffff),
        !canonical(0x0000_8000_0000_0000),
        canonical(0xffff_8000_0000_0001),
{
}

/// One virtual page, identified by its index.
#[derive(Debug, Clone, Copy, PartialEq, Eq, Structural)]
pub struct Page {
    pub number: u64,
}

impl Page {
    /// The virtual address at which this page starts.
    pub fn start_address(&self) -> (r: VirtualAddress)
        requires
            self.number * PAGE_SIZE <= u64::MAX,
        ensures
            r == self.number * PAGE_SIZE,
    {
        self.number * PAGE_SIZE
    }

    /// Index of this page's entry in the level-4 table.
    pub fn p4_index(&self) -> (r: u64)
        ensures
            r == (self.number >> 27) & 0o777,
            r < ENTRY_COUNT,
    {
        proof {
            let n = self.number;
            assert(((n >> 27) & 0o777) < 512) by (bit_vector);
        }
        (self.number >> 27) & 0o777
    }

    /// Index of this page's entry in its level-3 table.
    pub fn p3_index(&self) -> (r: u64)
        ensures
            r == (self.number >> 18) & 0o777,
            r < ENTRY_COUNT,
    {
        proof {
            let n = self.number;
            assert(((n >> 18) & 0o777) < 512) by (bit_vector);
        }
        (self.number >> 18) & 0o777
    }

    /// Index of this page's entry in its level-2 table.
    pub fn p2_index(&self) -> (r: u64)
        ensures
            r == (self.number >> 9) & 0o777,
            r < ENTRY_COUNT,
    {
        proof {
            let n = self.number;
            assert(((n >> 9) & 0o777) < 512) by (bit_vector);
        }
        (self.number >> 9) & 0o777
    }

    /// Index of this page's entry in its level-1 table.
    pub fn p1_index(&self) -> (r: u64)
        ensures
            r == self.number & 0o777,
            r < ENTRY_COUNT,
    {
        proof {
            let n = self.number;
            assert((n & 0o777) < 512) by (bit_vector);
        }
        self.number & 0o777
    }
}

/// Recombining the four 9-bit table indices of a page reconstructs the
/// page number, for every page that the four indices can address
/// (the lower 36 bits; higher page numbers only occur as the
/// sign-extended images of the same indices).
pub proof fn lemma_page_index_roundtrip(n: u64)
    requires
        n < 0x10_0000_0000,
    ensures
        (((n >> 27) & 0o777) << 27) | (((n >> 18) & 0o777) << 18) | (((n >> 9) & 0o777) << 9) | (
        n & 0o777) == n,
{
    assert(n < 0x10_0000_0000 ==> ((((n >> 27) & 0o777) << 27) | (((n >> 18) & 0o777) << 18) | ((
    (n >> 9) & 0o777) << 9) | (n & 0o777)) == n) by (bit_vector);
}

/// The page containing a canonical virtual address. A non-canonical
/// address indicates a kernel logic error, so it is excluded outright
/// rather than reported back.
pub fn containing_address(address: VirtualAddress) -> (r: Page)
    requires
        canonical(address),
    ensures
        r.number == address / PAGE_SIZE,
{
    Page { number: address / PAGE_SIZE }
}

} // verus!
