//! A verified CoreMark-style workload suite built around a free-list
//! allocator for a growable linear memory.
//!
//! The heart of the crate is [`allocator::FreeListAllocator`]: a first-class model
//! of a header-less heap allocator whose free space is tracked by an
//! address-ordered ledger of disjoint, non-adjacent blocks, and which obtains
//! further memory from a page source one whole page at a time.  The remaining
//! modules are the allocation-traffic workloads that the benchmark drives
//! through such an allocator: a singly linked list, dense integer matrices,
//! and a lexical state machine that classifies numeric tokens, together with
//! the CRC-16 checksum that folds their results into one digest.

use vstd::prelude::*;

pub mod allocator;
pub mod crc;
pub mod list;
pub mod matrix;
pub mod square_matrix;
pub mod state;
pub mod workload;

verus! {

use crate::allocator::{
    FreeListAllocator, MemoryGrower, divides, find_fit, spec_eff_align, spec_full_size,
    spec_round_up, range_covered_by_block, valid_align, NODE_SIZE, PAGE_SIZE,
};

/// The thread-safety façade around the allocator core.
///
/// The sandboxed execution environment runs exactly one logical thread of
/// control, so the core needs no locking to serve as the process-wide
/// allocation backend; this wrapper documents that single-caller precondition
/// and otherwise forwards each request unchanged.  Invoking it from more than
/// one thread of control at a time is outside its contract by design.
pub struct SyncAllocator<G: MemoryGrower>(pub FreeListAllocator<G>);

impl<G: MemoryGrower> SyncAllocator<G> {
    /// Forwards an allocation request to the core; see
    /// [`FreeListAllocator::allocate`].
    pub fn allocate(&mut self, size: usize, align: usize) -> (r: Option<usize>)
        requires
            old(self).0.wf(),
            valid_align(align as int),
            size <= usize::MAX - 2 * PAGE_SIZE,
        ensures
            final(self).0.wf(),
            final(self).0.base_pages() == old(self).0.base_pages(),
            match r {
                Some(p) => {
                    let esize = spec_full_size(size as int);
                    let ealign = spec_eff_align(align as int);
                    &&& divides(align as int, p as int)
                    &&& divides(NODE_SIZE as int, p as int)
                    &&& !old(self).0.live_allocs().dom().contains(p as int)
                    &&& final(self).0.live_allocs() == old(self).0.live_allocs().insert(
                        p as int,
                        esize,
                    )
                    &&& old(self).0.base_pages() * PAGE_SIZE <= p
                    &&& p + esize <= final(self).0.pages() * PAGE_SIZE
                    &&& match find_fit(old(self).0.blocks(), esize, ealign) {
                        Some((i, pos)) => p == pos && final(self).0.pages() == old(self).0.pages(),
                        None => {
                            &&& final(self).0.pages() == old(self).0.pages() + spec_round_up(
                                esize,
                                PAGE_SIZE as int,
                            ) / (PAGE_SIZE as int)
                            &&& old(self).0.pages() * PAGE_SIZE <= p
                        },
                    }
                },
                None => {
                    &&& find_fit(
                        old(self).0.blocks(),
                        spec_full_size(size as int),
                        spec_eff_align(align as int),
                    ) is None
                    &&& final(self).0.blocks() == old(self).0.blocks()
                    &&& final(self).0.live_allocs() == old(self).0.live_allocs()
                    &&& final(self).0.pages() == old(self).0.pages()
                },
            },
    {
        self.0.allocate(size, align)
    }

    /// Forwards a deallocation to the core; see
    /// [`FreeListAllocator::deallocate`].
    pub fn deallocate(&mut self, ptr: usize, size: usize, align: usize)
        requires
            old(self).0.wf(),
            old(self).0.live_allocs().dom().contains(ptr as int),
            old(self).0.live_allocs()[ptr as int] == spec_full_size(size as int),
        ensures
            final(self).0.wf(),
            final(self).0.live_allocs() == old(self).0.live_allocs().remove(ptr as int),
            final(self).0.pages() == old(self).0.pages(),
            final(self).0.base_pages() == old(self).0.base_pages(),
            range_covered_by_block(
                final(self).0.blocks(),
                ptr as int,
                spec_full_size(size as int),
            ),
    {
        self.0.deallocate(ptr, size, align)
    }
}

} // verus!
