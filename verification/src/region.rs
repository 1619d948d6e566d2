//! A bump allocator over the bounded heap region.
//!
//! Every reference is an offset from the region's base. Offset `0` is the null
//! reference, so a freshly initialised region never hands it out.

use vstd::prelude::*;
use crate::state::{Runtime, State};

verus! {

/// Size of the bounded heap region in bytes.
pub const REGION_SIZE: u32 = 0x10_0000;

/// Allocation alignment in bytes.
pub const ALIGN: u32 = 8;

/// A region-relative offset.
pub type Offset = u32;

/// The null reference.
pub const NULL: Offset = 0;

/// The allocator's state: its high-water mark and whether it was initialised.
#[derive(Clone, Copy)]
pub struct Region {
    pub top: u32,
    pub initialized: bool,
}

/// `n` rounded up to a multiple of eight.
pub open spec fn align_up(n: int) -> int {
    (n + 7) / 8 * 8
}

impl State {
    /// Reserves `size` bytes: the offset of the block, or the null reference when
    /// the region cannot hold it.
    pub open spec fn region_alloc(self, size: int) -> (State, u32) {
        let end = self.region.top + align_up(size);
        if end > REGION_SIZE {
            (self, NULL)
        } else {
            (
                State { region: Region { top: end as u32, ..self.region }, ..self },
                self.region.top,
            )
        }
    }

    /// The state after the region was initialised or reset.
    pub open spec fn region_init(self) -> State {
        State { region: Region { top: 8, initialized: true }, ..self }
    }
}

/// Total capacity of the bounded region in bytes.
pub fn capacity() -> (r: usize)
    ensures
        r == REGION_SIZE,
{
    REGION_SIZE as usize
}

/// Initialises or resets the region. The first word stays reserved, so that the
/// null reference is never handed out.
pub fn init(rt: &mut Runtime)
    ensures
        final(rt)@ == old(rt)@.region_init(),
{
    rt.region = Region { top: ALIGN, initialized: true };
}

/// Whether [`init`] has run.
pub fn is_initialized(rt: &Runtime) -> (r: bool)
    ensures
        r == rt@.region.initialized,
{
    rt.region.initialized
}

/// Reserves `size` bytes and returns their offset, or [`NULL`] if the region is
/// exhausted.
pub fn alloc_bytes(rt: &mut Runtime, size: usize) -> (r: Offset)
    ensures
        (final(rt)@, r) == old(rt)@.region_alloc(size as int),
{
    if size > REGION_SIZE as usize {
        return NULL;
    }
    let start: u32 = rt.region.top;
    let end: u64 = start as u64 + (size as u64 + 7) / 8 * 8;
    if end > REGION_SIZE as u64 {
        return NULL;
    }
    rt.region.top = end as u32;
    start
}

/// Bytes in use: the region's high-water mark.
pub fn used(rt: &Runtime) -> (r: usize)
    ensures
        r == rt@.region.top,
{
    rt.region.top as usize
}

/// An initialised region never hands out the null reference, keeps its blocks
/// eight-byte aligned and inside its capacity, and never hands out overlapping
/// blocks.
pub proof fn law_region_blocks(s: State, n: int, m: int)
    requires
        0 <= n,
        0 <= m,
        8 <= s.region.top <= REGION_SIZE,
        s.region.top % 8 == 0,
    ensures
        ({
            let (s1, a) = s.region_alloc(n);
            let (s2, b) = s1.region_alloc(m);
            &&& 8 <= s1.region.top <= REGION_SIZE
            &&& s1.region.top % 8 == 0
            &&& a == NULL <==> s.region.top + align_up(n) > REGION_SIZE
            &&& a != NULL ==> a % 8 == 0 && a + n <= s1.region.top
            &&& a != NULL && b != NULL ==> a + n <= b
        }),
{
}

} // verus!
