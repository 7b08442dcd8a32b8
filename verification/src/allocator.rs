//! A free-list heap allocator for a growable linear memory.
//!
//! Free space is tracked by a *ledger*: an address-ordered list of disjoint,
//! mutually non-adjacent free blocks.  Allocation carves the request out of
//! the *end* of the first block that can hold it (so a leading remainder keeps
//! the block's place in the ledger and a trailing remainder, when alignment
//! forces one, becomes a fresh block right after it).  Deallocation inserts
//! the freed range back at its sorted position, coalescing with the
//! neighbouring block on either side.  When no block fits, the allocator asks
//! the page source for just enough whole pages and retries once.
//!
//! The allocator itself never touches the bytes it hands out: blocks are
//! described by explicit start addresses and sizes, and a ghost map of the
//! currently live allocations ties the ledger to the conservation and
//! no-overlap invariants.

use vstd::prelude::*;

verus! {

use vstd::arithmetic::div_mod::{
    lemma_fundamental_div_mod, lemma_mod_bound, lemma_mod_multiples_basic, lemma_div_is_ordered,
};
use vstd::arithmetic::mul::{lemma_mul_inequality, lemma_mul_is_associative, lemma_mul_is_commutative};
use vstd::arithmetic::power2::{pow2, lemma_pow2_adds, lemma_pow2_strictly_increases, lemma2_to64};

/// Number of bytes in one page granted by the page source.
pub const PAGE_SIZE: usize = 65536;

/// Size in bytes of one free-block descriptor.  Every effective size and
/// every free block is a multiple of it, so any freed range can host a
/// descriptor again.
pub const NODE_SIZE: usize = 8;

/// Sentinel page count: a `memory_grow` call that returns this value was
/// refused by the host.
pub const ERROR_PAGE_COUNT: usize = usize::MAX;

/// A count of whole pages of linear memory.
#[derive(Debug, Clone, Copy, PartialEq, Eq, Structural)]
pub struct PageCount(pub usize);

impl PageCount {
    /// The number of bytes these pages span.
    pub fn size_in_bytes(self) -> (r: usize)
        requires
            self.0 * PAGE_SIZE <= usize::MAX,
        ensures
            r == self.0 * PAGE_SIZE,
    {
        self.0 * PAGE_SIZE
    }
}

/// One maximal contiguous free byte range `[start, start + size)` of the
/// ledger.
#[derive(Debug, Clone, Copy, PartialEq, Eq, Structural)]
pub struct FreeBlock {
    pub start: usize,
    pub size: usize,
}

/// The first byte past the end of a free block.
pub open spec fn block_end(b: FreeBlock) -> int {
    b.start + b.size
}

/// `d` divides `x` evenly.
pub open spec fn divides(d: int, x: int) -> bool {
    x % d == 0
}

/// `n` is a power of two.
pub open spec fn is_pow2(n: int) -> bool {
    exists|k: nat| n == pow2(k)
}

/// The largest multiple of `inc` that is at most `v`.
pub open spec fn spec_multiple_below(v: int, inc: int) -> int {
    (v / inc) * inc
}

/// `v` rounded up to the next multiple of `inc`.
pub open spec fn spec_round_up(v: int, inc: int) -> int {
    spec_multiple_below(v + inc - 1, inc)
}

/// The effective size reserved for a request of `size` bytes: at least one
/// descriptor, in whole descriptor-size multiples.
pub open spec fn spec_full_size(size: int) -> int {
    let grown = if size >= NODE_SIZE { size } else { NODE_SIZE as int };
    spec_round_up(grown, NODE_SIZE as int)
}

/// The effective alignment for a requested alignment: widened to at least the
/// descriptor size.
pub open spec fn spec_eff_align(align: int) -> int {
    if align >= NODE_SIZE { align } else { NODE_SIZE as int }
}

/// A requested alignment the allocator accepts: a power of two that divides
/// the page size.
pub open spec fn valid_align(align: int) -> bool {
    is_pow2(align) && divides(align, PAGE_SIZE as int)
}

/// Basic facts about `spec_multiple_below`.
pub proof fn lemma_multiple_below(v: int, inc: int)
    requires
        inc >= 1,
        v >= 0,
    ensures
        divides(inc, spec_multiple_below(v, inc)),
        spec_multiple_below(v, inc) <= v,
        v < spec_multiple_below(v, inc) + inc,
        divides(inc, v) ==> spec_multiple_below(v, inc) == v,
{
    lemma_fundamental_div_mod(v, inc);
    lemma_mod_bound(v, inc);
    lemma_mod_multiples_basic(v / inc, inc);
    lemma_mul_is_commutative(inc, v / inc);
}

/// No multiple of `inc` between `spec_multiple_below(v, inc)` and `v`: any
/// aligned value at most `v` is at most the rounded-down one.
pub proof fn lemma_multiple_below_is_largest(v: int, inc: int, x: int)
    requires
        inc >= 1,
        0 <= x <= v,
        divides(inc, x),
    ensures
        x <= spec_multiple_below(v, inc),
{
    lemma_fundamental_div_mod(x, inc);
    lemma_div_is_ordered(x, v, inc);
    lemma_mul_inequality(x / inc, v / inc, inc);
}

/// Divisibility is transitive: if `d` divides `m` and `m` divides `x`, then
/// `d` divides `x`.
pub proof fn lemma_divides_transitive(d: int, m: int, x: int)
    requires
        d >= 1,
        m >= 1,
        x >= 0,
        divides(d, m),
        divides(m, x),
    ensures
        divides(d, x),
{
    lemma_fundamental_div_mod(x, m);
    lemma_fundamental_div_mod(m, d);
    assert(x == m * (x / m));
    assert(m == d * (m / d));
    lemma_mul_is_associative(d, m / d, x / m);
    assert(x == d * ((m / d) * (x / m)));
    lemma_mod_multiples_basic((m / d) * (x / m), d);
    lemma_mul_is_commutative(d, (m / d) * (x / m));
}

/// A smaller power of two divides a larger one.
pub proof fn lemma_pow2_divides(a: int, b: int)
    requires
        is_pow2(a),
        is_pow2(b),
        a <= b,
    ensures
        divides(a, b),
{
    let j = choose|j: nat| a == pow2(j);
    let k = choose|k: nat| b == pow2(k);
    if j > k {
        lemma_pow2_strictly_increases(k, j);
    }
    assert(j <= k);
    vstd::arithmetic::power2::lemma_pow2_pos(j);
    lemma_pow2_adds(j, (k - j) as nat);
    assert(b == a * pow2((k - j) as nat));
    lemma_mod_multiples_basic(pow2((k - j) as nat) as int, a);
    lemma_mul_is_commutative(a, pow2((k - j) as nat) as int);
}

/// The effective alignment of a valid alignment is itself a power of two at
/// least `NODE_SIZE`; it is divisible by the requested alignment and by
/// `NODE_SIZE`, and still divides the page size.
pub proof fn lemma_eff_align(align: int)
    requires
        valid_align(align),
    ensures
        spec_eff_align(align) >= NODE_SIZE,
        divides(align, spec_eff_align(align)),
        divides(NODE_SIZE as int, spec_eff_align(align)),
        divides(spec_eff_align(align), PAGE_SIZE as int),
        align >= 1,
{
    lemma2_to64();
    assert(NODE_SIZE == pow2(3));
    assert(PAGE_SIZE == pow2(16));
    let k = choose|k: nat| align == pow2(k);
    vstd::arithmetic::power2::lemma_pow2_pos(k);
    if align >= NODE_SIZE {
        lemma_pow2_divides(NODE_SIZE as int, align);
        lemma_multiple_below(align, align);
        assert(divides(align, align)) by {
            lemma_mod_multiples_basic(1, align);
        }
    } else {
        lemma_pow2_divides(align, NODE_SIZE as int);
        lemma_pow2_divides(NODE_SIZE as int, PAGE_SIZE as int);
        assert(divides(NODE_SIZE as int, NODE_SIZE as int)) by {
            lemma_mod_multiples_basic(1, NODE_SIZE as int);
        }
    }
}

/// Returns the largest multiple of `increment` that does not exceed `value`.
pub fn multiple_below(value: usize, increment: usize) -> (r: usize)
    requires
        increment >= 1,
    ensures
        r == spec_multiple_below(value as int, increment as int),
{
    proof {
        lemma_fundamental_div_mod(value as int, increment as int);
        lemma_mod_bound(value as int, increment as int);
        lemma_mul_is_commutative(increment as int, value as int / increment as int);
    }
    value - (value % increment)
}

/// Rounds `value` up to the next multiple of `increment`.
pub fn round_up(value: usize, increment: usize) -> (r: usize)
    requires
        increment >= 1,
        value + increment - 1 <= usize::MAX,
    ensures
        r == spec_round_up(value as int, increment as int),
{
    multiple_below(value + (increment - 1), increment)
}

/// Computes the effective size reserved for a request of `size` bytes.
pub fn full_size(size: usize) -> (r: usize)
    requires
        size + NODE_SIZE - 1 <= usize::MAX,
    ensures
        r == spec_full_size(size as int),
{
    let grown = if size >= NODE_SIZE {
        size
    } else {
        NODE_SIZE
    };
    round_up(grown, NODE_SIZE)
}

/// Facts about the effective size: it is at least the request and at least
/// one descriptor, it is a whole number of descriptors, and it overshoots the
/// request by less than one descriptor beyond the minimum.
pub proof fn lemma_full_size(size: int)
    requires
        size >= 0,
    ensures
        spec_full_size(size) >= size,
        spec_full_size(size) >= NODE_SIZE,
        divides(NODE_SIZE as int, spec_full_size(size)),
        spec_full_size(size) < size + 2 * NODE_SIZE,
{
    let grown = if size >= NODE_SIZE { size } else { NODE_SIZE as int };
    lemma_multiple_below(grown + NODE_SIZE - 1, NODE_SIZE as int);
}

/// A single free block is well formed: it is at least one descriptor, a whole
/// number of descriptors, placed on a descriptor boundary, and its end fits
/// in the address space.
pub open spec fn block_wf(b: FreeBlock) -> bool {
    &&& b.size >= NODE_SIZE
    &&& divides(NODE_SIZE as int, b.size as int)
    &&& divides(NODE_SIZE as int, b.start as int)
    &&& b.start + b.size <= usize::MAX
}

/// The ledger is strictly ascending by start address and no two blocks touch:
/// every earlier block ends strictly below the start of every later one.
pub open spec fn blocks_ordered(blocks: Seq<FreeBlock>) -> bool {
    forall|i: int, j: int|
        0 <= i < j < blocks.len() ==> block_end(#[trigger] blocks[i]) < (#[trigger] blocks[j]).start
}

/// Every block is well formed and the ledger is ordered and gap-separated.
pub open spec fn blocks_wf(blocks: Seq<FreeBlock>) -> bool {
    &&& forall|i: int| 0 <= i < blocks.len() ==> block_wf(#[trigger] blocks[i])
    &&& blocks_ordered(blocks)
}

/// Total number of free bytes the ledger describes.
pub open spec fn blocks_sum(blocks: Seq<FreeBlock>) -> int
    decreases blocks.len(),
{
    if blocks.len() == 0 {
        0
    } else {
        blocks_sum(blocks.drop_last()) + blocks.last().size
    }
}

/// The two byte ranges `[s1, e1)` and `[s2, e2)` have no byte in common.
pub open spec fn ranges_disjoint(s1: int, e1: int, s2: int, e2: int) -> bool {
    e1 <= s2 || e2 <= s1
}

/// The range `[start, start + size)` shares no byte with any ledger block.
pub open spec fn range_free_of_blocks(blocks: Seq<FreeBlock>, start: int, size: int) -> bool {
    forall|i: int|
        0 <= i < blocks.len() ==> ranges_disjoint(
            start,
            start + size,
            (#[trigger] blocks[i]).start as int,
            block_end(blocks[i]),
        )
}

/// Replacing one block changes the free-byte total by the difference in size.
pub proof fn lemma_blocks_sum_update(s: Seq<FreeBlock>, i: int, b: FreeBlock)
    requires
        0 <= i < s.len(),
    ensures
        blocks_sum(s.update(i, b)) == blocks_sum(s) - s[i].size + b.size,
    decreases s.len(),
{
    if i == s.len() - 1 {
        assert(s.update(i, b).drop_last() =~= s.drop_last());
    } else {
        assert(s.update(i, b).drop_last() =~= s.drop_last().update(i, b));
        lemma_blocks_sum_update(s.drop_last(), i, b);
    }
}

/// Inserting a block adds its size to the free-byte total.
pub proof fn lemma_blocks_sum_insert(s: Seq<FreeBlock>, i: int, b: FreeBlock)
    requires
        0 <= i <= s.len(),
    ensures
        blocks_sum(s.insert(i, b)) == blocks_sum(s) + b.size,
    decreases s.len(),
{
    if i == s.len() {
        assert(s.insert(i, b).drop_last() =~= s);
        assert(s.insert(i, b).last() == b);
    } else {
        assert(s.insert(i, b).drop_last() =~= s.drop_last().insert(i, b));
        assert(s.insert(i, b).last() == s.last());
        lemma_blocks_sum_insert(s.drop_last(), i, b);
    }
}

/// Removing a block subtracts its size from the free-byte total.
pub proof fn lemma_blocks_sum_remove(s: Seq<FreeBlock>, i: int)
    requires
        0 <= i < s.len(),
    ensures
        blocks_sum(s.remove(i)) == blocks_sum(s) - s[i].size,
    decreases s.len(),
{
    if i == s.len() - 1 {
        assert(s.remove(i) =~= s.drop_last());
    } else {
        assert(s.remove(i).drop_last() =~= s.drop_last().remove(i));
        assert(s.remove(i).last() == s.last());
        lemma_blocks_sum_remove(s.drop_last(), i);
    }
}

/// A live allocation at address `a` of `v` effective bytes is well formed.
pub open spec fn live_range_wf(a: int, v: int) -> bool {
    &&& a >= 0
    &&& divides(NODE_SIZE as int, a)
    &&& v >= NODE_SIZE
    &&& divides(NODE_SIZE as int, v)
    &&& a + v <= usize::MAX
}

/// The ghost record of live allocations: each well formed, pairwise disjoint.
pub open spec fn live_wf(m: Map<int, int>) -> bool {
    &&& m.dom().finite()
    &&& forall|a: int| #[trigger] m.dom().contains(a) ==> live_range_wf(a, m[a])
    &&& forall|a: int, b: int|
        #[trigger] m.dom().contains(a) && #[trigger] m.dom().contains(b) && a != b
            ==> ranges_disjoint(a, a + m[a], b, b + m[b])
}

/// Total number of effective bytes held by live allocations.
pub open spec fn live_sum(m: Map<int, int>) -> int
    decreases m.dom().len() when m.dom().finite()
{
    if m.dom().len() == 0 {
        0
    } else {
        let a = m.dom().choose();
        m[a] + live_sum(m.remove(a))
    }
}

/// Removing a live allocation subtracts its size from the live-byte total.
pub proof fn lemma_live_sum_remove(m: Map<int, int>, a: int)
    requires
        m.dom().finite(),
        m.dom().contains(a),
    ensures
        live_sum(m) == live_sum(m.remove(a)) + m[a],
    decreases m.dom().len(),
{
    let c = m.dom().choose();
    assert(m.dom().len() != 0) by {
        if m.dom().len() == 0 {
            assert(m.dom() =~= Set::<int>::empty());
        }
    }
    assert(m.dom().contains(c));
    if c == a {
    } else {
        lemma_live_sum_remove(m.remove(c), a);
        lemma_live_sum_remove(m.remove(a), c);
        assert(m.remove(c).remove(a) =~= m.remove(a).remove(c));
    }
}

/// Adding a new live allocation adds its size to the live-byte total.
pub proof fn lemma_live_sum_insert(m: Map<int, int>, a: int, v: int)
    requires
        m.dom().finite(),
        !m.dom().contains(a),
    ensures
        live_sum(m.insert(a, v)) == live_sum(m) + v,
{
    lemma_live_sum_remove(m.insert(a, v), a);
    assert(m.insert(a, v).remove(a) =~= m);
}

/// A source of additional pages of linear memory.
///
/// `pages` is the abstract total page count of the memory; a successful
/// `memory_grow` extends it and returns the count that existed before, so the
/// freshly granted byte range is exactly
/// `[old_pages * PAGE_SIZE, new_pages * PAGE_SIZE)`.
pub trait MemoryGrower: Sized {
    /// The total number of pages the linear memory currently spans.
    spec fn pages(&self) -> nat;

    /// The grower's own consistency condition.
    spec fn wf(&self) -> bool;

    /// Requests `delta` additional pages appended to the linear memory.
    /// Returns the page count from before the growth, or `ERROR_PAGE_COUNT`
    /// if the host refused.
    fn memory_grow(&mut self, delta: PageCount) -> (r: PageCount)
        requires
            old(self).wf(),
        ensures
            final(self).wf(),
            r.0 == ERROR_PAGE_COUNT ==> final(self).pages() == old(self).pages(),
            r.0 != ERROR_PAGE_COUNT ==> {
                &&& r.0 as nat == old(self).pages()
                &&& final(self).pages() == old(self).pages() + delta.0
                &&& (old(self).pages() + delta.0) * PAGE_SIZE <= usize::MAX
            },
    ;
}

/// The page source of the sandboxed execution environment itself, which
/// grows the process's own linear memory.  Only that target wires it up to
/// a [`MemoryGrower`] implementation; elsewhere it is inert and a simulated
/// source such as [`BoundedGrower`] stands in.
pub struct DefaultGrower;

/// A page source with a hard ceiling: growth succeeds until the memory spans
/// `max_pages` pages and is refused from then on, like a host that enforces
/// a fixed memory limit.  It also counts how often it was consulted.
pub struct BoundedGrower {
    pub pages: usize,
    pub max_pages: usize,
    pub grow_calls: usize,
}

impl BoundedGrower {
    /// A bounded page source that starts with `initial_pages` pages granted
    /// and refuses to go beyond `max_pages`.
    pub fn new(initial_pages: usize, max_pages: usize) -> (r: Self)
        requires
            initial_pages <= max_pages,
            max_pages * PAGE_SIZE <= usize::MAX,
        ensures
            r.wf(),
            r.pages() == initial_pages,
            r.grow_calls == 0,
    {
        BoundedGrower { pages: initial_pages, max_pages, grow_calls: 0 }
    }
}

impl MemoryGrower for BoundedGrower {
    open spec fn pages(&self) -> nat {
        self.pages as nat
    }

    open spec fn wf(&self) -> bool {
        self.pages <= self.max_pages && self.max_pages * PAGE_SIZE <= usize::MAX
    }

    fn memory_grow(&mut self, delta: PageCount) -> (r: PageCount)
        ensures
            final(self).max_pages == old(self).max_pages,
            old(self).grow_calls < usize::MAX ==> final(self).grow_calls == old(self).grow_calls + 1,
            r.0 != ERROR_PAGE_COUNT <==> old(self).pages() + delta.0 <= old(self).max_pages,
    {
        if self.grow_calls < usize::MAX {
            self.grow_calls = self.grow_calls + 1;
        }
        if delta.0 <= self.max_pages - self.pages {
            let prev = self.pages;
            proof {
                lemma_mul_inequality(self.pages + delta.0, self.max_pages as int, PAGE_SIZE as int);
                assert(prev < usize::MAX) by (nonlinear_arith)
                    requires
                        prev <= self.max_pages,
                        self.max_pages * PAGE_SIZE <= usize::MAX,
                        PAGE_SIZE == 65536,
                ;
            }
            self.pages = self.pages + delta.0;
            PageCount(prev)
        } else {
            PageCount(ERROR_PAGE_COUNT)
        }
    }
}

/// Two distinct multiples of `d` are at least `d` apart.
pub proof fn lemma_multiple_gap(d: int, w: int, v: int)
    requires
        d >= 1,
        divides(d, w),
        divides(d, v),
        w < v,
    ensures
        w + d <= v,
{
    lemma_fundamental_div_mod(w, d);
    lemma_fundamental_div_mod(v, d);
    assert(w == d * (w / d));
    assert(v == d * (v / d));
    assert(w / d < v / d) by {
        if w / d >= v / d {
            lemma_mul_inequality(v / d, w / d, d);
            lemma_mul_is_commutative(d, v / d);
            lemma_mul_is_commutative(d, w / d);
        }
    }
    lemma_mul_inequality(w / d + 1, v / d, d);
    lemma_mul_is_commutative(d, v / d);
    lemma_mul_is_commutative(d, w / d);
    assert((w / d + 1) * d == (w / d) * d + d) by (nonlinear_arith);
}

/// Every ledger block lies inside the byte span `[lo, hi)`.
pub open spec fn blocks_in_span(blocks: Seq<FreeBlock>, lo: int, hi: int) -> bool {
    forall|i: int|
        0 <= i < blocks.len() ==> lo <= (#[trigger] blocks[i]).start && block_end(blocks[i]) <= hi
}

/// Every live allocation lies inside the byte span `[lo, hi)`.
pub open spec fn live_in_span(m: Map<int, int>, lo: int, hi: int) -> bool {
    forall|a: int| #[trigger] m.dom().contains(a) ==> lo <= a && a + m[a] <= hi
}

/// The range `[start, start + size)` shares no byte with any live allocation.
pub open spec fn range_free_of_live(m: Map<int, int>, start: int, size: int) -> bool {
    forall|a: int|
        #[trigger] m.dom().contains(a) ==> ranges_disjoint(a, a + m[a], start, start + size)
}

/// No live allocation shares a byte with any ledger block.
pub open spec fn live_blocks_disjoint(m: Map<int, int>, blocks: Seq<FreeBlock>) -> bool {
    forall|a: int, i: int|
        #[trigger] m.dom().contains(a) && 0 <= i < blocks.len() ==> ranges_disjoint(
            a,
            a + m[a],
            (#[trigger] blocks[i]).start as int,
            block_end(blocks[i]),
        )
}

/// A heap allocator over a growable linear memory, tracking its free space in
/// an address-ordered ledger of disjoint, non-adjacent free blocks.
pub struct FreeListAllocator<G: MemoryGrower> {
    free_list: Vec<FreeBlock>,
    grower: G,
    live: Ghost<Map<int, int>>,
    base: Ghost<nat>,
}

impl<G: MemoryGrower> FreeListAllocator<G> {
    /// The ledger of free blocks, in ascending address order.
    pub closed spec fn blocks(&self) -> Seq<FreeBlock> {
        self.free_list@
    }

    /// The ghost record of live allocations: start address to effective size.
    pub closed spec fn live_allocs(&self) -> Map<int, int> {
        self.live@
    }

    /// The page count the memory had when this allocator was created; pages
    /// below it are not the allocator's to manage.
    pub closed spec fn base_pages(&self) -> nat {
        self.base@
    }

    /// The grower this allocator draws pages from.
    pub closed spec fn spec_grower(&self) -> G {
        self.grower
    }

    /// The current total page count of the memory.
    pub open spec fn pages(&self) -> nat {
        self.spec_grower().pages()
    }

    /// Total bytes granted to this allocator by the page source so far.
    pub open spec fn granted_bytes(&self) -> int {
        (self.pages() - self.base_pages()) * PAGE_SIZE
    }

    /// The allocator's invariant: the ledger is ordered, disjoint and
    /// non-adjacent; live allocations are disjoint from each other and from
    /// every free block; everything lies in the granted region; and the free
    /// bytes plus the live bytes account exactly for every byte granted.
    pub open spec fn wf(&self) -> bool {
        &&& self.spec_grower().wf()
        &&& blocks_wf(self.blocks())
        &&& live_wf(self.live_allocs())
        &&& self.base_pages() <= self.pages()
        &&& blocks_in_span(self.blocks(), self.base_pages() * PAGE_SIZE, self.pages() * PAGE_SIZE)
        &&& live_in_span(self.live_allocs(), self.base_pages() * PAGE_SIZE, self.pages() * PAGE_SIZE)
        &&& live_blocks_disjoint(self.live_allocs(), self.blocks())
        &&& blocks_sum(self.blocks()) + live_sum(self.live_allocs()) == self.granted_bytes()
    }

    /// A borrow of the page source.
    pub fn grower(&self) -> (r: &G)
        ensures
            *r == self.spec_grower(),
    {
        &self.grower
    }

    /// A copy of the ledger of free blocks, in ascending address order.
    pub fn free_blocks(&self) -> (r: Vec<FreeBlock>)
        ensures
            r@ == self.blocks(),
    {
        let mut r: Vec<FreeBlock> = Vec::new();
        let n = self.free_list.len();
        let mut i: usize = 0;
        while i < n
            invariant
                0 <= i <= n,
                n == self.free_list@.len(),
                r@ == self.free_list@.take(i as int),
            decreases n - i,
        {
            let b = self.free_list[i];
            r.push(b);
            proof {
                assert(r@ =~= self.free_list@.take(i + 1));
            }
            i = i + 1;
        }
        proof {
            assert(self.free_list@.take(n as int) =~= self.free_list@);
        }
        r
    }

    /// A fresh allocator over `grower`, with an empty ledger and no live
    /// allocations.
    pub fn new(grower: G) -> (r: Self)
        requires
            grower.wf(),
        ensures
            r.wf(),
            r.blocks() == Seq::<FreeBlock>::empty(),
            r.live_allocs() == Map::<int, int>::empty(),
            r.pages() == grower.pages(),
            r.base_pages() == grower.pages(),
    {
        let ghost start_pages = grower.pages();
        let r = FreeListAllocator {
            free_list: Vec::new(),
            grower,
            live: Ghost(Map::empty()),
            base: Ghost(start_pages),
        };
        proof {
            assert(r.blocks() =~= Seq::<FreeBlock>::empty());
            assert(r.live_allocs().dom() =~= Set::<int>::empty());
        }
        r
    }
}


/// Some single ledger block contains the whole range `[start, start + size)`.
pub open spec fn range_covered_by_block(blocks: Seq<FreeBlock>, start: int, size: int) -> bool {
    exists|j: int|
        0 <= j < blocks.len() && (#[trigger] blocks[j]).start <= start && start + size
            <= block_end(blocks[j])
}

/// The context in which a free range `[start, start + size)` is returned
/// to the ledger `s` at insertion index `idx`: the ledger and the live
/// record `m` are consistent, the range is genuinely free and lies in the
/// span `[lo, hi)` along with the whole ledger, and every block below
/// `idx` ends at or before the range while every block from `idx` on
/// starts at or after its end.
pub open spec fn insert_ctx(
    s: Seq<FreeBlock>,
    m: Map<int, int>,
    start: int,
    size: int,
    lo: int,
    hi: int,
    idx: int,
) -> bool {
    &&& blocks_wf(s)
    &&& live_wf(m)
    &&& live_blocks_disjoint(m, s)
    &&& blocks_in_span(s, lo, hi)
    &&& range_free_of_blocks(s, start, size)
    &&& range_free_of_live(m, start, size)
    &&& size >= NODE_SIZE
    &&& divides(NODE_SIZE as int, start)
    &&& divides(NODE_SIZE as int, size)
    &&& start + size <= usize::MAX
    &&& lo <= start
    &&& start + size <= hi
    &&& 0 <= idx <= s.len()
    &&& forall|i: int| 0 <= i < idx ==> block_end(#[trigger] s[i]) <= start
    &&& forall|i: int| idx <= i < s.len() ==> (#[trigger] s[i]).start >= start + size
}

/// What returning the range to the ledger guarantees, whichever way it
/// coalesced: consistency is restored, the free-byte total grew by
/// exactly `size`, everything stays in the span, and one block now
/// contains the whole range.
pub open spec fn insert_post(
s0: Seq<FreeBlock>,
s1: Seq<FreeBlock>,
m: Map<int, int>,
start: int,
size: int,
lo: int,
hi: int,
) -> bool {
&&& blocks_wf(s1)
&&& blocks_sum(s1) == blocks_sum(s0) + size
&&& blocks_in_span(s1, lo, hi)
&&& live_blocks_disjoint(m, s1)
&&& range_covered_by_block(s1, start, size)
&&& forall|j: int|
    0 <= j < s1.len() ==> ((exists|i: int| 0 <= i < s0.len() && #[trigger] s1[j] == s0[i])
        || ((#[trigger] s1[j]).start <= start < block_end(s1[j])))
}

impl<G: MemoryGrower> FreeListAllocator<G> {
    /// Inserts the free range `[start, start + size)` into the ledger at its
    /// sorted position, coalescing with the block before and/or the block
    /// after it when they touch.  The range must be genuinely free: disjoint
    /// from every ledger block and from every live allocation.
    fn insert_free_range(&mut self, start: usize, size: usize)
        requires
            blocks_wf(old(self).blocks()),
            live_wf(old(self).live_allocs()),
            size >= NODE_SIZE,
            divides(NODE_SIZE as int, start as int),
            divides(NODE_SIZE as int, size as int),
            start + size <= usize::MAX,
            old(self).base_pages() * PAGE_SIZE <= start,
            start + size <= old(self).pages() * PAGE_SIZE,
            blocks_in_span(
                old(self).blocks(),
                old(self).base_pages() * PAGE_SIZE,
                old(self).pages() * PAGE_SIZE,
            ),
            range_free_of_blocks(old(self).blocks(), start as int, size as int),
            range_free_of_live(old(self).live_allocs(), start as int, size as int),
            live_blocks_disjoint(old(self).live_allocs(), old(self).blocks()),
        ensures
            final(self).live_allocs() == old(self).live_allocs(),
            final(self).spec_grower() == old(self).spec_grower(),
            final(self).base_pages() == old(self).base_pages(),
            insert_post(
                old(self).blocks(),
                final(self).blocks(),
                old(self).live_allocs(),
                start as int,
                size as int,
                old(self).base_pages() * PAGE_SIZE,
                old(self).pages() * PAGE_SIZE,
            ),
    {
        let ghost s0 = self.free_list@;
        let ghost live0 = self.live@;
        let ghost lo = self.base@ * PAGE_SIZE;
        let ghost hi = self.spec_grower().pages() * PAGE_SIZE;
        let n = self.free_list.len();

        let mut idx: usize = 0;
        while idx < n && self.free_list[idx].start < start
            invariant
                0 <= idx <= n,
                n == self.free_list.len(),
                self.free_list@ == s0,
                blocks_wf(s0),
                range_free_of_blocks(s0, start as int, size as int),
                size >= NODE_SIZE,
                forall|i: int| 0 <= i < idx ==> block_end(#[trigger] s0[i]) <= start,
            decreases n - idx,
        {
            proof {
                assert(ranges_disjoint(
                    start as int,
                    start + size,
                    s0[idx as int].start as int,
                    block_end(s0[idx as int]),
                ));
            }
            idx = idx + 1;
        }

        proof {
            assert forall|i: int| idx <= i < n implies (#[trigger] s0[i]).start >= start + size by {
                assert(ranges_disjoint(
                    start as int,
                    start + size,
                    s0[idx as int].start as int,
                    block_end(s0[idx as int]),
                ));
                if i > idx {
                    assert(block_end(s0[idx as int]) < s0[i].start);
                }
            }
            assert(insert_ctx(s0, live0, start as int, size as int, lo, hi, idx as int));
        }

        let merge_right = idx < n && start + size == self.free_list[idx].start;
        let merge_left = idx > 0 && {
            let b = self.free_list[idx - 1];
            b.start + b.size == start
        };

        if merge_left && merge_right {
            self.coalesce_both(idx, start, size);
        } else if merge_right {
            self.coalesce_right(idx, start, size);
        } else if merge_left {
            self.coalesce_left(idx, start, size);
        } else {
            self.insert_lone(idx, start, size);
        }
    }

    /// The freed range exactly fills the gap between the blocks on either
    /// side of the insertion point: all three become one block.
    #[verifier::rlimit(60)]
    fn coalesce_both(&mut self, idx: usize, start: usize, size: usize)
        requires
            insert_ctx(
                old(self).blocks(),
                old(self).live_allocs(),
                start as int,
                size as int,
                old(self).base_pages() * PAGE_SIZE,
                old(self).pages() * PAGE_SIZE,
                idx as int,
            ),
            1 <= idx < old(self).blocks().len(),
            block_end(old(self).blocks()[idx - 1]) == start,
            old(self).blocks()[idx as int].start == start + size,
        ensures
            final(self).live_allocs() == old(self).live_allocs(),
            final(self).spec_grower() == old(self).spec_grower(),
            final(self).base_pages() == old(self).base_pages(),
            insert_post(
                old(self).blocks(),
                final(self).blocks(),
                old(self).live_allocs(),
                start as int,
                size as int,
                old(self).base_pages() * PAGE_SIZE,
                old(self).pages() * PAGE_SIZE,
            ),
    {
        let ghost s0 = self.free_list@;
        let ghost live0 = self.live@;
        let ghost i0 = idx as int;
        let left = self.free_list[idx - 1];
        let right = self.free_list[idx];
        proof {
            assert(block_wf(s0[i0 - 1]) && block_wf(s0[i0]));
            assert(left.size + size + right.size == block_end(s0[i0]) - left.start);
        }
        let merged = FreeBlock { start: left.start, size: left.size + size + right.size };
        self.free_list[idx - 1] = merged;
        let _ = self.free_list.remove(idx);
        proof {
            let snew = self.free_list@;
            assert(snew == s0.update(i0 - 1, merged).remove(i0));
            assert forall|j: int| 0 <= j < snew.len() implies #[trigger] snew[j] == (if j < i0
                - 1 {
                s0[j]
            } else if j == i0 - 1 {
                merged
            } else {
                s0[j + 1]
            }) by {}
            lemma_blocks_sum_update(s0, i0 - 1, merged);
            lemma_blocks_sum_remove(s0.update(i0 - 1, merged), i0);
            assert(blocks_wf(snew)) by {
                assert forall|j: int| 0 <= j < snew.len() implies block_wf(#[trigger] snew[j]) by {}
            }
            assert(range_covered_by_block(snew, start as int, size as int)) by {
                assert(snew[i0 - 1] == merged);
            }
            assert(live_blocks_disjoint(live0, snew)) by {
                assert forall|a: int, j: int|
                    #[trigger] live0.dom().contains(a) && 0 <= j < snew.len() implies
                    ranges_disjoint(
                    a,
                    a + live0[a],
                    (#[trigger] snew[j]).start as int,
                    block_end(snew[j]),
                ) by {
                    assert(live_range_wf(a, live0[a]));
                    if j == i0 - 1 {
                        assert(ranges_disjoint(
                            a,
                            a + live0[a],
                            s0[i0 - 1].start as int,
                            block_end(s0[i0 - 1]),
                        ));
                        assert(ranges_disjoint(
                            a,
                            a + live0[a],
                            s0[i0].start as int,
                            block_end(s0[i0]),
                        ));
                        assert(ranges_disjoint(a, a + live0[a], start as int, start + size));
                    } else if j < i0 - 1 {
                        assert(ranges_disjoint(
                            a,
                            a + live0[a],
                            s0[j].start as int,
                            block_end(s0[j]),
                        ));
                    } else {
                        assert(ranges_disjoint(
                            a,
                            a + live0[a],
                            s0[j + 1].start as int,
                            block_end(s0[j + 1]),
                        ));
                    }
                }
            }
        }
    }

    /// The freed range ends where the block at the insertion point starts:
    /// that block grows downwards to absorb it.
    #[verifier::rlimit(60)]
    fn coalesce_right(&mut self, idx: usize, start: usize, size: usize)
        requires
            insert_ctx(
                old(self).blocks(),
                old(self).live_allocs(),
                start as int,
                size as int,
                old(self).base_pages() * PAGE_SIZE,
                old(self).pages() * PAGE_SIZE,
                idx as int,
            ),
            idx < old(self).blocks().len(),
            old(self).blocks()[idx as int].start == start + size,
            idx >= 1 ==> block_end(old(self).blocks()[idx - 1]) < start,
        ensures
            final(self).live_allocs() == old(self).live_allocs(),
            final(self).spec_grower() == old(self).spec_grower(),
            final(self).base_pages() == old(self).base_pages(),
            insert_post(
                old(self).blocks(),
                final(self).blocks(),
                old(self).live_allocs(),
                start as int,
                size as int,
                old(self).base_pages() * PAGE_SIZE,
                old(self).pages() * PAGE_SIZE,
            ),
    {
        let ghost s0 = self.free_list@;
        let ghost live0 = self.live@;
        let ghost i0 = idx as int;
        let right = self.free_list[idx];
        proof {
            assert(block_wf(s0[i0]));
            assert(size + right.size == block_end(s0[i0]) - start);
        }
        let merged = FreeBlock { start, size: size + right.size };
        self.free_list[idx] = merged;
        proof {
            let snew = self.free_list@;
            assert(snew == s0.update(i0, merged));
            lemma_blocks_sum_update(s0, i0, merged);
            assert(blocks_wf(snew)) by {
                assert forall|j: int| 0 <= j < snew.len() implies block_wf(#[trigger] snew[j]) by {}
                assert forall|x: int, y: int| 0 <= x < y < snew.len() implies block_end(
                    #[trigger] snew[x],
                ) < (#[trigger] snew[y]).start by {}
            }
            assert(range_covered_by_block(snew, start as int, size as int)) by {
                assert(snew[i0] == merged);
            }
            assert(live_blocks_disjoint(live0, snew)) by {
                assert forall|a: int, j: int|
                    #[trigger] live0.dom().contains(a) && 0 <= j < snew.len() implies
                    ranges_disjoint(
                    a,
                    a + live0[a],
                    (#[trigger] snew[j]).start as int,
                    block_end(snew[j]),
                ) by {
                    assert(live_range_wf(a, live0[a]));
                    assert(ranges_disjoint(a, a + live0[a], s0[j].start as int, block_end(s0[j])));
                    if j == i0 {
                        assert(ranges_disjoint(a, a + live0[a], start as int, start + size));
                    }
                }
            }
        }
    }

    /// The freed range starts where the block before the insertion point
    /// ends: that block grows upwards to absorb it.
    #[verifier::rlimit(60)]
    fn coalesce_left(&mut self, idx: usize, start: usize, size: usize)
        requires
            insert_ctx(
                old(self).blocks(),
                old(self).live_allocs(),
                start as int,
                size as int,
                old(self).base_pages() * PAGE_SIZE,
                old(self).pages() * PAGE_SIZE,
                idx as int,
            ),
            1 <= idx <= old(self).blocks().len(),
            block_end(old(self).blocks()[idx - 1]) == start,
            idx < old(self).blocks().len() ==> old(self).blocks()[idx as int].start > start + size,
        ensures
            final(self).live_allocs() == old(self).live_allocs(),
            final(self).spec_grower() == old(self).spec_grower(),
            final(self).base_pages() == old(self).base_pages(),
            insert_post(
                old(self).blocks(),
                final(self).blocks(),
                old(self).live_allocs(),
                start as int,
                size as int,
                old(self).base_pages() * PAGE_SIZE,
                old(self).pages() * PAGE_SIZE,
            ),
    {
        let ghost s0 = self.free_list@;
        let ghost live0 = self.live@;
        let ghost i0 = idx as int;
        let left = self.free_list[idx - 1];
        proof {
            assert(block_wf(s0[i0 - 1]));
            assert(left.size + size == start + size - left.start);
        }
        let merged = FreeBlock { start: left.start, size: left.size + size };
        self.free_list[idx - 1] = merged;
        proof {
            let snew = self.free_list@;
            assert(snew == s0.update(i0 - 1, merged));
            lemma_blocks_sum_update(s0, i0 - 1, merged);
            assert(blocks_wf(snew)) by {
                assert forall|j: int| 0 <= j < snew.len() implies block_wf(#[trigger] snew[j]) by {}
                assert forall|x: int, y: int| 0 <= x < y < snew.len() implies block_end(
                    #[trigger] snew[x],
                ) < (#[trigger] snew[y]).start by {
                    if x == i0 - 1 {
                        assert(s0[y].start >= start + size);
                    }
                }
            }
            assert(range_covered_by_block(snew, start as int, size as int)) by {
                assert(snew[i0 - 1] == merged);
            }
            assert(live_blocks_disjoint(live0, snew)) by {
                assert forall|a: int, j: int|
                    #[trigger] live0.dom().contains(a) && 0 <= j < snew.len() implies
                    ranges_disjoint(
                    a,
                    a + live0[a],
                    (#[trigger] snew[j]).start as int,
                    block_end(snew[j]),
                ) by {
                    assert(live_range_wf(a, live0[a]));
                    assert(ranges_disjoint(a, a + live0[a], s0[j].start as int, block_end(s0[j])));
                    if j == i0 - 1 {
                        assert(ranges_disjoint(a, a + live0[a], start as int, start + size));
                    }
                }
            }
        }
    }

    /// The freed range touches no block: it becomes a descriptor of its own
    /// at the insertion point.
    #[verifier::rlimit(60)]
    fn insert_lone(&mut self, idx: usize, start: usize, size: usize)
        requires
            insert_ctx(
                old(self).blocks(),
                old(self).live_allocs(),
                start as int,
                size as int,
                old(self).base_pages() * PAGE_SIZE,
                old(self).pages() * PAGE_SIZE,
                idx as int,
            ),
            idx <= old(self).blocks().len(),
            idx >= 1 ==> block_end(old(self).blocks()[idx - 1]) < start,
            idx < old(self).blocks().len() ==> old(self).blocks()[idx as int].start > start + size,
        ensures
            final(self).live_allocs() == old(self).live_allocs(),
            final(self).spec_grower() == old(self).spec_grower(),
            final(self).base_pages() == old(self).base_pages(),
            insert_post(
                old(self).blocks(),
                final(self).blocks(),
                old(self).live_allocs(),
                start as int,
                size as int,
                old(self).base_pages() * PAGE_SIZE,
                old(self).pages() * PAGE_SIZE,
            ),
    {
        let ghost s0 = self.free_list@;
        let ghost live0 = self.live@;
        let ghost i0 = idx as int;
        let fresh = FreeBlock { start, size };
        self.free_list.insert(idx, fresh);
        proof {
            let snew = self.free_list@;
            assert(snew == s0.insert(i0, fresh));
            assert forall|j: int| 0 <= j < snew.len() implies #[trigger] snew[j] == (if j < i0 {
                s0[j]
            } else if j == i0 {
                fresh
            } else {
                s0[j - 1]
            }) by {}
            lemma_blocks_sum_insert(s0, i0, fresh);
            assert(blocks_wf(snew)) by {
                assert forall|j: int| 0 <= j < snew.len() implies block_wf(#[trigger] snew[j]) by {}
                assert forall|x: int, y: int| 0 <= x < y < snew.len() implies block_end(
                    #[trigger] snew[x],
                ) < (#[trigger] snew[y]).start by {
                    if x == i0 {
                        assert(s0[y - 1].start >= start + size);
                    } else if y == i0 {
                        assert(block_end(s0[x]) <= start);
                        if x < i0 - 1 {
                            assert(block_end(s0[x]) < s0[i0 - 1].start);
                        }
                    }
                }
            }
            assert(range_covered_by_block(snew, start as int, size as int)) by {
                assert(snew[i0] == fresh);
            }
            assert(live_blocks_disjoint(live0, snew)) by {
                assert forall|a: int, j: int|
                    #[trigger] live0.dom().contains(a) && 0 <= j < snew.len() implies
                    ranges_disjoint(
                    a,
                    a + live0[a],
                    (#[trigger] snew[j]).start as int,
                    block_end(snew[j]),
                ) by {
                    assert(live_range_wf(a, live0[a]));
                    if j == i0 {
                        assert(ranges_disjoint(a, a + live0[a], start as int, start + size));
                    } else if j < i0 {
                        assert(ranges_disjoint(
                            a,
                            a + live0[a],
                            s0[j].start as int,
                            block_end(s0[j]),
                        ));
                    } else {
                        assert(ranges_disjoint(
                            a,
                            a + live0[a],
                            s0[j - 1].start as int,
                            block_end(s0[j - 1]),
                        ));
                    }
                }
            }
        }
    }

    /// Returns the freed range `[ptr, ptr + effective size)` to the ledger.
    ///
    /// The caller must hand back the pointer with the same `size` it passed
    /// to the matching [`Self::allocate`] call; the effective size is recomputed
    /// from it.  Deallocation never fails and never consults the page source;
    /// afterwards the ledger is again strictly ordered and non-adjacent, with
    /// one block containing the whole freed range.
    pub fn deallocate(&mut self, ptr: usize, size: usize, align: usize)
        requires
            old(self).wf(),
            old(self).live_allocs().dom().contains(ptr as int),
            old(self).live_allocs()[ptr as int] == spec_full_size(size as int),
        ensures
            final(self).wf(),
            final(self).live_allocs() == old(self).live_allocs().remove(ptr as int),
            final(self).pages() == old(self).pages(),
            final(self).base_pages() == old(self).base_pages(),
            final(self).spec_grower() == old(self).spec_grower(),
            blocks_sum(final(self).blocks()) == blocks_sum(old(self).blocks()) + spec_full_size(
                size as int,
            ),
            range_covered_by_block(final(self).blocks(), ptr as int, spec_full_size(size as int)),
    {
        proof {
            lemma_full_size(size as int);
            let v = self.live@[ptr as int];
            assert(live_range_wf(ptr as int, v));
            assert(size + NODE_SIZE - 1 <= usize::MAX) by {
                if size + NODE_SIZE - 1 > usize::MAX {
                    assert(v > usize::MAX - NODE_SIZE + 1);
                    assert(divides(NODE_SIZE as int, usize::MAX - NODE_SIZE + 1));
                    lemma_multiple_gap(NODE_SIZE as int, usize::MAX - NODE_SIZE + 1, v);
                }
            }
        }
        let eff = full_size(size);
        proof {
            let m0 = self.live@;
            lemma_live_sum_remove(m0, ptr as int);
            self.live@ = m0.remove(ptr as int);
        }
        self.insert_free_range(ptr, eff);
    }
}

/// End-of-block placement: the highest `ealign`-aligned address that still
/// leaves room for `esize` bytes before the block's end.
pub open spec fn spec_place(b: FreeBlock, esize: int, ealign: int) -> int {
    spec_multiple_below(block_end(b) - esize, ealign)
}

/// The block can serve the request: the effective size fits and the
/// end-aligned position does not fall below the block's start.
pub open spec fn block_fits(b: FreeBlock, esize: int, ealign: int) -> bool {
    esize <= b.size && spec_place(b, esize, ealign) >= b.start
}

/// First-fit search over the ledger from index `k` on: the first block that
/// can serve the request, together with the position placed in it.
pub open spec fn find_fit_from(
    blocks: Seq<FreeBlock>,
    esize: int,
    ealign: int,
    k: int,
) -> Option<(int, int)>
    decreases blocks.len() - k when 0 <= k <= blocks.len()
{
    if k >= blocks.len() {
        None
    } else if block_fits(blocks[k], esize, ealign) {
        Some((k, spec_place(blocks[k], esize, ealign)))
    } else {
        find_fit_from(blocks, esize, ealign, k + 1)
    }
}

/// The first block of the ledger that can serve the request, with the chosen
/// position.
pub open spec fn find_fit(blocks: Seq<FreeBlock>, esize: int, ealign: int) -> Option<(int, int)> {
    find_fit_from(blocks, esize, ealign, 0)
}

/// What a first-fit answer means: a found pair names the first fitting block
/// and its placement; no answer means no block fits.
pub proof fn lemma_find_fit_from_props(blocks: Seq<FreeBlock>, esize: int, ealign: int, k: int)
    requires
        0 <= k <= blocks.len(),
    ensures
        match find_fit_from(blocks, esize, ealign, k) {
            Some((i, p)) => {
                &&& k <= i < blocks.len()
                &&& block_fits(blocks[i], esize, ealign)
                &&& p == spec_place(blocks[i], esize, ealign)
                &&& forall|j: int| k <= j < i ==> !block_fits(#[trigger] blocks[j], esize, ealign)
            },
            None => forall|j: int|
                k <= j < blocks.len() ==> !block_fits(#[trigger] blocks[j], esize, ealign),
        },
    decreases blocks.len() - k,
{
    if k < blocks.len() && !block_fits(blocks[k], esize, ealign) {
        lemma_find_fit_from_props(blocks, esize, ealign, k + 1);
    }
}

impl<G: MemoryGrower> FreeListAllocator<G> {
    /// Walks the ledger for the first block that can serve `esize` bytes at
    /// alignment `ealign`, returning its index and the end-aligned position.
    fn find_fit_index(&self, esize: usize, ealign: usize) -> (r: Option<(usize, usize)>)
        requires
            ealign >= 1,
            blocks_wf(self.blocks()),
        ensures
            match r {
                Some(ip) => find_fit(self.blocks(), esize as int, ealign as int) == Some(
                    (ip.0 as int, ip.1 as int),
                ),
                None => find_fit(self.blocks(), esize as int, ealign as int) is None,
            },
    {
        let ghost s0 = self.free_list@;
        let n = self.free_list.len();
        let mut i: usize = 0;
        while i < n
            invariant
                0 <= i <= n,
                n == self.free_list.len(),
                self.free_list@ == s0,
                ealign >= 1,
                blocks_wf(s0),
                find_fit(s0, esize as int, ealign as int) == find_fit_from(
                    s0,
                    esize as int,
                    ealign as int,
                    i as int,
                ),
            decreases n - i,
        {
            let b = self.free_list[i];
            if esize <= b.size {
                let end = b.start + b.size;
                let pos = multiple_below(end - esize, ealign);
                if pos >= b.start {
                    proof {
                        assert(block_fits(s0[i as int], esize as int, ealign as int));
                    }
                    return Some((i, pos));
                }
            }
            proof {
                assert(!block_fits(s0[i as int], esize as int, ealign as int));
            }
            i = i + 1;
        }
        None
    }
}

/// Divisibility is preserved by addition.
pub proof fn lemma_divides_add(d: int, x: int, y: int)
    requires
        d >= 1,
        x >= 0,
        y >= 0,
        divides(d, x),
        divides(d, y),
    ensures
        divides(d, x + y),
{
    lemma_fundamental_div_mod(x, d);
    lemma_fundamental_div_mod(y, d);
    vstd::arithmetic::mul::lemma_mul_is_distributive_add(d, x / d, y / d);
    assert(x + y == d * (x / d + y / d));
    lemma_mod_multiples_basic(x / d + y / d, d);
    lemma_mul_is_commutative(d, x / d + y / d);
}

/// Divisibility is preserved by subtraction.
pub proof fn lemma_divides_sub(d: int, x: int, y: int)
    requires
        d >= 1,
        0 <= y <= x,
        divides(d, x),
        divides(d, y),
    ensures
        divides(d, x - y),
{
    lemma_fundamental_div_mod(x, d);
    lemma_fundamental_div_mod(y, d);
    vstd::arithmetic::mul::lemma_mul_is_distributive_sub(d, x / d, y / d);
    assert(x - y == d * (x / d - y / d));
    lemma_mod_multiples_basic(x / d - y / d, d);
    lemma_mul_is_commutative(d, x / d - y / d);
}

impl<G: MemoryGrower> FreeListAllocator<G> {
    /// Carves the range `[pos, pos + esize)` out of block `i` of the ledger
    /// and records it as a live allocation.  A leading remainder keeps the
    /// block's ledger position; a trailing remainder becomes a fresh block
    /// right after it.
    #[verifier::rlimit(100)]
    fn take_from_block(&mut self, i: usize, pos: usize, esize: usize)
        requires
            old(self).wf(),
            i < old(self).blocks().len(),
            old(self).blocks()[i as int].start <= pos,
            pos + esize <= block_end(old(self).blocks()[i as int]),
            esize >= NODE_SIZE,
            divides(NODE_SIZE as int, esize as int),
            divides(NODE_SIZE as int, pos as int),
        ensures
            final(self).wf(),
            !old(self).live_allocs().dom().contains(pos as int),
            final(self).live_allocs() == old(self).live_allocs().insert(pos as int, esize as int),
            final(self).pages() == old(self).pages(),
            final(self).base_pages() == old(self).base_pages(),
            final(self).spec_grower() == old(self).spec_grower(),
            blocks_sum(final(self).blocks()) == blocks_sum(old(self).blocks()) - esize,
    {
        let ghost s0 = self.free_list@;
        let ghost live0 = self.live@;
        let ghost i0 = i as int;
        let n = self.free_list.len();
        let b = self.free_list[i];
        let bend = b.start + b.size;

        proof {
            assert(block_wf(s0[i0]));
            assert(!live0.dom().contains(pos as int)) by {
                if live0.dom().contains(pos as int) {
                    assert(live_range_wf(pos as int, live0[pos as int]));
                    assert(ranges_disjoint(
                        pos as int,
                        pos + live0[pos as int],
                        s0[i0].start as int,
                        block_end(s0[i0]),
                    ));
                }
            }
            lemma_divides_add(NODE_SIZE as int, b.start as int, b.size as int);
            lemma_divides_add(NODE_SIZE as int, pos as int, esize as int);
            if pos + esize < bend {
                lemma_divides_sub(NODE_SIZE as int, bend as int, pos + esize);
                lemma_multiple_gap(NODE_SIZE as int, pos + esize, bend as int);
            }
            if b.start < pos {
                lemma_divides_sub(NODE_SIZE as int, pos as int, b.start as int);
                lemma_multiple_gap(NODE_SIZE as int, b.start as int, pos as int);
            }
            // the carved range is disjoint from every other block
            assert forall|x: int| 0 <= x < s0.len() && x != i0 implies ranges_disjoint(
                pos as int,
                pos + esize,
                (#[trigger] s0[x]).start as int,
                block_end(s0[x]),
            ) by {
                if x < i0 {
                    assert(block_end(s0[x]) < s0[i0].start);
                } else {
                    assert(block_end(s0[i0]) < s0[x].start);
                }
            }
        }

        let has_tail = pos + esize < bend;
        if has_tail {
            let tail = FreeBlock { start: pos + esize, size: bend - (pos + esize) };
            self.free_list.insert(i + 1, tail);
        }
        let has_lead = pos > b.start;
        if has_lead {
            let lead = FreeBlock { start: b.start, size: pos - b.start };
            self.free_list[i] = lead;
        } else {
            let _ = self.free_list.remove(i);
        }

        proof {
            self.live@ = live0.insert(pos as int, esize as int);
            lemma_live_sum_insert(live0, pos as int, esize as int);

            let snew = self.free_list@;
            let tail = FreeBlock {
                start: (pos + esize) as usize,
                size: (bend - (pos + esize)) as usize,
            };
            let lead = FreeBlock { start: b.start, size: (pos - b.start) as usize };

            if has_tail && has_lead {
                assert(snew == s0.insert(i0 + 1, tail).update(i0, lead));
                lemma_blocks_sum_insert(s0, i0 + 1, tail);
                lemma_blocks_sum_update(s0.insert(i0 + 1, tail), i0, lead);
                assert(s0.insert(i0 + 1, tail)[i0] == s0[i0]);
                assert forall|j: int| 0 <= j < snew.len() implies #[trigger] snew[j] == (if j < i0 {
                    s0[j]
                } else if j == i0 {
                    lead
                } else if j == i0 + 1 {
                    tail
                } else {
                    s0[j - 1]
                }) by {}
            } else if has_tail {
                assert(snew == s0.insert(i0 + 1, tail).remove(i0));
                lemma_blocks_sum_insert(s0, i0 + 1, tail);
                lemma_blocks_sum_remove(s0.insert(i0 + 1, tail), i0);
                assert(s0.insert(i0 + 1, tail)[i0] == s0[i0]);
                assert forall|j: int| 0 <= j < snew.len() implies #[trigger] snew[j] == (if j < i0 {
                    s0[j]
                } else if j == i0 {
                    tail
                } else {
                    s0[j]
                }) by {}
            } else if has_lead {
                assert(snew == s0.update(i0, lead));
                lemma_blocks_sum_update(s0, i0, lead);
            } else {
                assert(snew == s0.remove(i0));
                lemma_blocks_sum_remove(s0, i0);
                assert(pos == b.start && pos + esize == bend);
                assert forall|j: int| 0 <= j < snew.len() implies #[trigger] snew[j] == (if j < i0 {
                    s0[j]
                } else {
                    s0[j + 1]
                }) by {}
            }

            assert(blocks_wf(snew)) by {
                assert forall|j: int| 0 <= j < snew.len() implies block_wf(#[trigger] snew[j]) by {}
                assert forall|x: int, y: int| 0 <= x < y < snew.len() implies block_end(
                    #[trigger] snew[x],
                ) < (#[trigger] snew[y]).start by {}
            }

            assert(blocks_in_span(
                snew,
                self.base@ * PAGE_SIZE,
                self.spec_grower().pages() * PAGE_SIZE,
            )) by {
                assert forall|j: int| 0 <= j < snew.len() implies self.base@ * PAGE_SIZE <= (
                #[trigger] snew[j]).start && block_end(snew[j]) <= self.spec_grower().pages()
                    * PAGE_SIZE by {}
            }

            let live1 = self.live@;
            assert(live_wf(live1)) by {
                assert forall|a: int, c: int|
                    #[trigger] live1.dom().contains(a) && #[trigger] live1.dom().contains(c) && a
                    != c implies ranges_disjoint(a, a + live1[a], c, c + live1[c]) by {
                    if a == pos as int {
                        assert(live_range_wf(c, live0[c]));
                        assert(ranges_disjoint(
                            c,
                            c + live0[c],
                            s0[i0].start as int,
                            block_end(s0[i0]),
                        ));
                    } else if c == pos as int {
                        assert(live_range_wf(a, live0[a]));
                        assert(ranges_disjoint(
                            a,
                            a + live0[a],
                            s0[i0].start as int,
                            block_end(s0[i0]),
                        ));
                    }
                }
            }

            assert(live_blocks_disjoint(live1, snew)) by {
                assert forall|a: int, j: int|
                    #[trigger] live1.dom().contains(a) && 0 <= j < snew.len() implies
                    ranges_disjoint(
                    a,
                    a + live1[a],
                    (#[trigger] snew[j]).start as int,
                    block_end(snew[j]),
                ) by {
                    if a != pos as int {
                        assert(live_range_wf(a, live0[a]));
                        assert(ranges_disjoint(
                            a,
                            a + live0[a],
                            s0[i0].start as int,
                            block_end(s0[i0]),
                        ));
                    }
                }
            }

            assert(live_in_span(
                live1,
                self.base@ * PAGE_SIZE,
                self.spec_grower().pages() * PAGE_SIZE,
            )) by {
                assert forall|a: int| #[trigger] live1.dom().contains(a) implies self.base@
                    * PAGE_SIZE <= a && a + live1[a] <= self.spec_grower().pages() * PAGE_SIZE by {}
            }
        }
    }
}

impl<G: MemoryGrower> FreeListAllocator<G> {
    /// Serves an allocation request of `size` bytes at alignment `align`.
    ///
    /// The effective size (the request rounded up to whole descriptors) is
    /// carved out of the first ledger block that can hold it, flush against
    /// the block's end at the effective alignment.  When no block fits, the
    /// page source is asked for exactly enough whole pages and the search is
    /// retried once on the freshly granted range; `None` is returned only
    /// when no block fits and the page source refused to grow.
    #[verifier::rlimit(100)]
    pub fn allocate(&mut self, size: usize, align: usize) -> (r: Option<usize>)
        requires
            old(self).wf(),
            valid_align(align as int),
            size <= usize::MAX - 2 * PAGE_SIZE,
        ensures
            final(self).wf(),
            final(self).base_pages() == old(self).base_pages(),
            match r {
                Some(p) => {
                    let esize = spec_full_size(size as int);
                    let ealign = spec_eff_align(align as int);
                    &&& divides(align as int, p as int)
                    &&& divides(NODE_SIZE as int, p as int)
                    &&& !old(self).live_allocs().dom().contains(p as int)
                    &&& final(self).live_allocs() == old(self).live_allocs().insert(
                        p as int,
                        esize,
                    )
                    &&& old(self).base_pages() * PAGE_SIZE <= p
                    &&& p + esize <= final(self).pages() * PAGE_SIZE
                    &&& match find_fit(old(self).blocks(), esize, ealign) {
                        Some((i, pos)) => p == pos && final(self).pages() == old(self).pages(),
                        None => {
                            &&& final(self).pages() == old(self).pages() + spec_round_up(
                                esize,
                                PAGE_SIZE as int,
                            ) / (PAGE_SIZE as int)
                            &&& old(self).pages() * PAGE_SIZE <= p
                        },
                    }
                },
                None => {
                    &&& find_fit(
                        old(self).blocks(),
                        spec_full_size(size as int),
                        spec_eff_align(align as int),
                    ) is None
                    &&& final(self).blocks() == old(self).blocks()
                    &&& final(self).live_allocs() == old(self).live_allocs()
                    &&& final(self).pages() == old(self).pages()
                },
            },
    {
        let ghost s0 = self.free_list@;
        let ghost pages0 = self.spec_grower().pages();
        let ghost base0 = self.base@;

        proof {
            lemma_full_size(size as int);
            lemma_eff_align(align as int);
        }
        let eff = full_size(size);
        let ealign = if align >= NODE_SIZE {
            align
        } else {
            NODE_SIZE
        };

        match self.find_fit_index(eff, ealign) {
            Some(ip) => {
                let (i, pos) = ip;
                proof {
                    lemma_find_fit_from_props(s0, eff as int, ealign as int, 0);
                    let b = s0[i as int];
                    assert(block_wf(b));
                    lemma_multiple_below(block_end(b) - eff, ealign as int);
                    lemma_divides_transitive(NODE_SIZE as int, ealign as int, pos as int);
                    lemma_divides_transitive(align as int, ealign as int, pos as int);
                }
                self.take_from_block(i, pos, eff);
                Some(pos)
            },
            None => {
                proof {
                    lemma_multiple_below(eff + PAGE_SIZE - 1, PAGE_SIZE as int);
                }
                let requested = round_up(eff, PAGE_SIZE);
                let delta = requested / PAGE_SIZE;
                proof {
                    lemma_fundamental_div_mod(requested as int, PAGE_SIZE as int);
                    lemma_mul_is_commutative(PAGE_SIZE as int, requested as int / PAGE_SIZE as int);
                    assert(delta * PAGE_SIZE == requested);
                }
                let prev = self.grower.memory_grow(PageCount(delta));
                if prev.0 == ERROR_PAGE_COUNT {
                    return None;
                }
                proof {
                    assert(prev.0 as nat == pages0);
                    lemma_mul_inequality(prev.0 as int, pages0 + delta, PAGE_SIZE as int);
                }
                let start_new = prev.0 * PAGE_SIZE;
                let ghost pages1 = self.spec_grower().pages();
                proof {
                    assert(pages1 == pages0 + delta);
                    vstd::arithmetic::mul::lemma_mul_is_distributive_add(
                        PAGE_SIZE as int,
                        prev.0 as int,
                        delta as int,
                    );
                    lemma_mul_is_commutative(PAGE_SIZE as int, prev.0 as int);
                    lemma_mul_is_commutative(PAGE_SIZE as int, delta as int);
                    lemma_mul_is_commutative(PAGE_SIZE as int, prev.0 + delta as int);
                    assert(start_new + requested == pages1 * PAGE_SIZE);
                    lemma_mod_multiples_basic(prev.0 as int, PAGE_SIZE as int);
                    lemma_divides_transitive(NODE_SIZE as int, PAGE_SIZE as int, start_new as int);
                    lemma_divides_transitive(NODE_SIZE as int, PAGE_SIZE as int, requested as int);
                    lemma_mul_inequality(base0 as int, prev.0 as int, PAGE_SIZE as int);
                    lemma_mul_inequality(pages0 as int, pages1 as int, PAGE_SIZE as int);
                    assert(blocks_in_span(s0, base0 * PAGE_SIZE, pages1 * PAGE_SIZE)) by {
                        assert forall|j: int| 0 <= j < s0.len() implies base0 * PAGE_SIZE <= (
                        #[trigger] s0[j]).start && block_end(s0[j]) <= pages1 * PAGE_SIZE by {}
                    }
                    assert(range_free_of_blocks(s0, start_new as int, requested as int)) by {
                        assert forall|j: int| 0 <= j < s0.len() implies ranges_disjoint(
                            start_new as int,
                            start_new + requested,
                            (#[trigger] s0[j]).start as int,
                            block_end(s0[j]),
                        ) by {}
                    }
                    assert(range_free_of_live(self.live@, start_new as int, requested as int)) by {
                        assert forall|a: int| #[trigger] self.live@.dom().contains(a) implies
                            ranges_disjoint(
                            a,
                            a + self.live@[a],
                            start_new as int,
                            start_new + requested,
                        ) by {}
                    }
                }
                self.insert_free_range(start_new, requested);
                proof {
                    // conservation is restored: the ledger grew by exactly the
                    // bytes the page source granted
                    assert((pages1 - base0) * PAGE_SIZE == (pages0 - base0) * PAGE_SIZE + delta
                        * PAGE_SIZE) by (nonlinear_arith)
                        requires
                            pages1 == pages0 + delta,
                    ;
                    assert(live_in_span(self.live@, base0 * PAGE_SIZE, pages1 * PAGE_SIZE)) by {
                        assert forall|a: int| #[trigger] self.live@.dom().contains(a) implies base0
                            * PAGE_SIZE <= a && a + self.live@[a] <= pages1 * PAGE_SIZE by {}
                    }
                    assert(self.wf());
                }
                let ghost s1 = self.free_list@;
                proof {
                    // the freshly granted range lies inside one ledger block,
                    // which therefore fits the request
                    let j0 = choose|j0: int|
                        0 <= j0 < s1.len() && (#[trigger] s1[j0]).start <= start_new && start_new
                            + requested <= block_end(s1[j0]);
                    lemma_divides_transitive(
                        spec_eff_align(align as int),
                        PAGE_SIZE as int,
                        start_new as int,
                    );
                    assert(block_fits(s1[j0], eff as int, ealign as int)) by {
                        lemma_multiple_below_is_largest(
                            block_end(s1[j0]) - eff,
                            ealign as int,
                            start_new as int,
                        );
                    }
                    lemma_find_fit_from_props(s1, eff as int, ealign as int, 0);
                    if find_fit(s1, eff as int, ealign as int) is None {
                        assert(!block_fits(s1[j0], eff as int, ealign as int));
                    }
                }
                match self.find_fit_index(eff, ealign) {
                    Some(ip) => {
                        let (i, pos) = ip;
                        proof {
                            lemma_find_fit_from_props(s1, eff as int, ealign as int, 0);
                            lemma_find_fit_from_props(s0, eff as int, ealign as int, 0);
                            let b = s1[i as int];
                            assert(block_wf(b));
                            lemma_multiple_below(block_end(b) - eff, ealign as int);
                            lemma_divides_transitive(NODE_SIZE as int, ealign as int, pos as int);
                            lemma_divides_transitive(align as int, ealign as int, pos as int);
                            // the block found is not one of the old blocks (none
                            // of those fit), so it holds the new range's start
                            assert(b.start <= start_new < block_end(b)) by {
                                if exists|x: int| 0 <= x < s0.len() && #[trigger] s1[i as int]
                                    == s0[x] {
                                    let x = choose|x: int|
                                        0 <= x < s0.len() && #[trigger] s1[i as int] == s0[x];
                                    assert(!block_fits(s0[x], eff as int, ealign as int));
                                }
                            }
                            // and since blocks are disjoint it is the covering
                            // block itself, so the placement lands in the
                            // freshly granted pages
                            let j0 = choose|j0: int|
                                0 <= j0 < s1.len() && (#[trigger] s1[j0]).start <= start_new
                                    && start_new + requested <= block_end(s1[j0]);
                            assert(j0 == i as int) by {
                                if j0 < i as int {
                                    assert(block_end(s1[j0]) < s1[i as int].start);
                                } else if j0 > i as int {
                                    assert(block_end(s1[i as int]) < s1[j0].start);
                                }
                            }
                            assert(start_new <= block_end(b) - eff);
                            lemma_divides_transitive(
                                ealign as int,
                                PAGE_SIZE as int,
                                start_new as int,
                            );
                            lemma_multiple_below_is_largest(
                                block_end(b) - eff,
                                ealign as int,
                                start_new as int,
                            );
                            assert(pos >= start_new);
                        }
                        self.take_from_block(i, pos, eff);
                        Some(pos)
                    },
                    None => {
                        proof {
                            assert(false);
                        }
                        None
                    },
                }
            },
        }
    }
}

/// **Reuse without growth.**  Once a block of the ledger again covers the
/// range `[ptr, ptr + esize)` — as it does right after that range is
/// deallocated — a new request with the same effective size and alignment
/// finds a fit, so `allocate` serves it without consulting the page source.
pub proof fn lemma_reuse_without_growth(blocks: Seq<FreeBlock>, ptr: int, esize: int, ealign: int)
    requires
        blocks_wf(blocks),
        range_covered_by_block(blocks, ptr, esize),
        esize >= 1,
        ealign >= 1,
        ptr >= 0,
        divides(ealign, ptr),
    ensures
        find_fit(blocks, esize, ealign) is Some,
{
    let j = choose|j: int|
        0 <= j < blocks.len() && (#[trigger] blocks[j]).start <= ptr && ptr + esize <= block_end(
            blocks[j],
        );
    assert(block_fits(blocks[j], esize, ealign)) by {
        lemma_multiple_below_is_largest(block_end(blocks[j]) - esize, ealign, ptr);
    }
    lemma_find_fit_from_props(blocks, esize, ealign, 0);
    if find_fit(blocks, esize, ealign) is None {
        assert(!block_fits(blocks[j], esize, ealign));
    }
}

/// **No overlap.**  In a consistent allocator two distinct live allocations
/// never share a byte.
pub proof fn lemma_live_no_overlap<G: MemoryGrower>(
    al: &FreeListAllocator<G>,
    a: int,
    b: int,
)
    requires
        al.wf(),
        al.live_allocs().dom().contains(a),
        al.live_allocs().dom().contains(b),
        a != b,
    ensures
        ranges_disjoint(a, a + al.live_allocs()[a], b, b + al.live_allocs()[b]),
{
}

/// **No overlap with the ledger.**  In a consistent allocator no live
/// allocation shares a byte with any free block.
pub proof fn lemma_live_ledger_disjoint<G: MemoryGrower>(
    al: &FreeListAllocator<G>,
    a: int,
    i: int,
)
    requires
        al.wf(),
        al.live_allocs().dom().contains(a),
        0 <= i < al.blocks().len(),
    ensures
        ranges_disjoint(
            a,
            a + al.live_allocs()[a],
            al.blocks()[i].start as int,
            block_end(al.blocks()[i]),
        ),
{
}

/// **Conservation.**  In a consistent allocator the free bytes of the ledger
/// plus the effective bytes of the live allocations account exactly for
/// every byte the page source has granted.
pub proof fn lemma_conservation<G: MemoryGrower>(al: &FreeListAllocator<G>)
    requires
        al.wf(),
    ensures
        blocks_sum(al.blocks()) + live_sum(al.live_allocs()) == al.granted_bytes(),
{
}

} // verus!
