use vstd::prelude::*;
use crate::alloc_layout::{self, AllocationGeometry, Layout, layout_valid, placement_spec, required_size_spec};
use crate::mem::page::pagealloc::{BuddyAllocator, PAGE_SIZE, Placement, alloc_fn, lemma_alloc_outcome_fn, block_pages, law_allocation_fresh, disjoint};
use crate::mem::page::pagemapper::KERNEL_VMA;

verus! {

/// A free block of the kernel heap: `size` bytes from `start`.
#[derive(Debug, Clone, Copy, PartialEq, Eq, Structural)]
pub struct FreeBlock {
    pub start: usize,
    pub size: usize,
}

/// One past the last byte of a block.
pub open spec fn end_of(b: FreeBlock) -> int {
    b.start + b.size
}

/// The free blocks are non-empty, in address order, and neither overlap nor
/// touch: touching blocks would have been merged.
pub open spec fn canonical(s: Seq<FreeBlock>) -> bool {
    &&& forall|i: int| 0 <= i < s.len() ==> (#[trigger] s[i]).size > 0 && end_of(s[i]) <= usize::MAX
    &&& forall|i: int, j: int| 0 <= i < j < s.len() ==> end_of(#[trigger] s[i]) < (#[trigger] s[j]).start
}

/// Whether the byte at `a` is free.
pub open spec fn covers(s: Seq<FreeBlock>, a: int) -> bool {
    exists|i: int| 0 <= i < s.len() && s[i].start <= a < end_of(#[trigger] s[i])
}

/// The free bytes of `t` are those of `s` and the bytes `[lo, hi)`.
pub open spec fn covers_plus(t: Seq<FreeBlock>, s: Seq<FreeBlock>, lo: int, hi: int) -> bool {
    forall|a: int| #[trigger] covers(t, a) <==> covers(s, a) || lo <= a < hi
}

/// The free blocks of the kernel heap, in address order.
pub struct FreeList {
    blocks: Vec<FreeBlock>,
}

impl FreeList {
    /// The free blocks, in address order.
    pub closed spec fn view(&self) -> Seq<FreeBlock> {
        self.blocks@
    }

    /// An empty heap.
    pub fn new() -> (l: Self)
        ensures
            l.view() == Seq::<FreeBlock>::empty(),
            canonical(l.view()),
    {
        FreeList { blocks: Vec::new() }
    }

    /// Whether `[start, start + size)` is a non-empty range within the address
    /// space that holds no free byte, so that `insert_and_coalesce` can take it.
    pub fn can_return(&self, start: usize, size: usize) -> (b: bool)
        ensures
            b == (size > 0 && start + size <= usize::MAX && forall|a: int| start <= a < start + size ==> !covers(
                self.view(),
                a,
            )),
    {
        if size == 0 || size > usize::MAX - start {
            return false;
        }
        let n = self.blocks.len();
        let mut i: usize = 0;
        while i < n
            invariant
                n == self.blocks@.len(),
                i <= n,
                size > 0,
                start + size <= usize::MAX,
                forall|k: int| 0 <= k < i ==> (#[trigger] self.blocks@[k]).size == 0 || end_of(self.blocks@[k]) <= start
                    || start + size <= self.blocks@[k].start,
            decreases n - i,
        {
            let blk = self.blocks[i];
            let overlaps = if blk.start <= start {
                start - blk.start < blk.size
            } else {
                blk.start < start + size && blk.size > 0
            };
            if overlaps {
                proof {
                    let a: int = if blk.start <= start { start as int } else { blk.start as int };
                    assert(self.blocks@[i as int].start <= a < end_of(self.blocks@[i as int]));
                    assert(covers(self.view(), a));
                }
                return false;
            }
            i = i + 1;
        }
        proof {
            assert forall|a: int| start <= a < start + size implies !covers(self.view(), a) by {
                if covers(self.view(), a) {
                    let k = choose|k: int| 0 <= k < self.blocks@.len() && self.blocks@[k].start <= a < end_of(
                        #[trigger] self.blocks@[k]);
                    assert(self.blocks@[k].size == 0 || end_of(self.blocks@[k]) <= start || start + size
                        <= self.blocks@[k].start);
                }
            }
        }
        true
    }

    /// The free blocks, in address order.
    pub fn blocks(&self) -> (r: &Vec<FreeBlock>)
        ensures
            r@ == self.view(),
    {
        &self.blocks
    }

    /// Returns the `size` bytes at `start` to the heap, merged with the free
    /// blocks right before and right after them.
    pub fn insert_and_coalesce(&mut self, start: usize, size: usize)
        requires
            canonical(old(self).view()),
            size > 0,
            start + size <= usize::MAX,
            forall|a: int| start <= a < start + size ==> !covers(old(self).view(), a),
        ensures
            canonical(final(self).view()),
            covers_plus(final(self).view(), old(self).view(), start as int, start + size),
    {
        let ghost s = self.blocks@;
        let mut i: usize = 0;
        while i < self.blocks.len() && self.blocks[i].start < start
            invariant
                i <= self.blocks@.len(),
                s == self.blocks@,
                s == old(self).blocks@,
                forall|k: int| 0 <= k < i ==> s[k].start < start,
            decreases self.blocks@.len() - i,
        {
            i = i + 1;
        }
        let ghost nb = FreeBlock { start, size };
        proof {
            lemma_neighbours(s, i as int, nb);
        }
        let merge_prev = i > 0 && self.blocks[i - 1].start + self.blocks[i - 1].size == start;
        let merge_next = i < self.blocks.len() && start + size == self.blocks[i].start;
        if merge_prev && merge_next {
            let p = self.blocks[i - 1];
            let n = self.blocks[i];
            self.blocks.set(i - 1, FreeBlock { start: p.start, size: p.size + size + n.size });
            self.blocks.remove(i);
            proof {
                lemma_merge_both(s, i as int, nb);
                let m = FreeBlock { start: s[i - 1].start, size: (s[i - 1].size + nb.size + s[i as int].size) as usize };
                assert(self.blocks@ == s.update(i - 1, m).remove(i as int));
            }
        } else if merge_prev {
            let p = self.blocks[i - 1];
            self.blocks.set(i - 1, FreeBlock { start: p.start, size: p.size + size });
            proof {
                lemma_merge_prev(s, i as int, nb);
                let m = FreeBlock { start: s[i - 1].start, size: (s[i - 1].size + nb.size) as usize };
                assert(self.blocks@ == s.update(i - 1, m));
            }
        } else if merge_next {
            let n = self.blocks[i];
            self.blocks.set(i, FreeBlock { start, size: size + n.size });
            proof {
                lemma_merge_next(s, i as int, nb);
                let m = FreeBlock { start: nb.start, size: (nb.size + s[i as int].size) as usize };
                assert(self.blocks@ == s.update(i as int, m));
            }
        } else {
            self.blocks.insert(i, FreeBlock { start, size });
            proof {
                lemma_insert_alone(s, i as int, nb);
                assert(self.blocks@ == s.insert(i as int, nb));
            }
        }
    }
}

/// Where a new block goes between its neighbours: the block before it ends
/// at or before it, the block after it starts at or after its end.
proof fn lemma_neighbours(s: Seq<FreeBlock>, i: int, b: FreeBlock)
    requires
        canonical(s),
        0 <= i <= s.len(),
        forall|k: int| 0 <= k < i ==> s[k].start < b.start,
        i < s.len() ==> s[i].start >= b.start,
        b.size > 0,
        forall|a: int| b.start <= a < end_of(b) ==> !covers(s, a),
    ensures
        i > 0 ==> end_of(s[i - 1]) <= b.start,
        i < s.len() ==> end_of(b) <= s[i].start,
{
    if i > 0 && end_of(s[i - 1]) > b.start {
        assert(s[i - 1].start <= b.start < end_of(s[i - 1]));
        assert(covers(s, b.start as int));
    }
    if i < s.len() && end_of(b) > s[i].start {
        assert(s[i].start <= s[i].start < end_of(s[i]));
        assert(covers(s, s[i].start as int));
    }
}

proof fn lemma_merge_both(s: Seq<FreeBlock>, i: int, b: FreeBlock)
    requires
        canonical(s),
        0 < i < s.len(),
        end_of(s[i - 1]) == b.start,
        end_of(b) == s[i].start,
        b.size > 0,
        end_of(b) <= usize::MAX,
    ensures
        ({
            let m = FreeBlock { start: s[i - 1].start, size: (s[i - 1].size + b.size + s[i].size) as usize };
            let t = s.update(i - 1, m).remove(i);
            &&& canonical(t)
            &&& covers_plus(t, s, b.start as int, end_of(b))
        }),
{
    let m = FreeBlock { start: s[i - 1].start, size: (s[i - 1].size + b.size + s[i].size) as usize };
    let t = s.update(i - 1, m).remove(i);
    assert(end_of(m) == end_of(s[i]));
    assert forall|x: int, y: int| 0 <= x < y < t.len() implies end_of(#[trigger] t[x]) < (#[trigger] t[y]).start by {
        let x2 = if x < i { x } else { x + 1 };
        let y2 = if y < i { y } else { y + 1 };
        if x == i - 1 {
            assert(end_of(t[x]) == end_of(s[i]));
            assert(end_of(s[i]) < s[y2].start);
        } else {
            assert(t[x] == s[x2]);
        }
        if y != i - 1 {
            assert(t[y] == s[y2]);
        }
    }
    assert forall|a: int| covers(t, a) <==> covers(s, a) || b.start <= a < end_of(b) by {
        if covers(t, a) {
            let k = choose|k: int| 0 <= k < t.len() && t[k].start <= a < end_of(#[trigger] t[k]);
            if k == i - 1 {
                if a < end_of(s[i - 1]) {
                    assert(s[i - 1].start <= a < end_of(s[i - 1]));
                } else if a >= s[i].start {
                    assert(s[i].start <= a < end_of(s[i]));
                }
            } else {
                let k2 = if k < i { k } else { k + 1 };
                assert(t[k] == s[k2]);
                assert(s[k2].start <= a < end_of(s[k2]));
            }
        }
        if covers(s, a) {
            let k = choose|k: int| 0 <= k < s.len() && s[k].start <= a < end_of(#[trigger] s[k]);
            if k == i - 1 || k == i {
                assert(t[i - 1].start <= a < end_of(t[i - 1]));
            } else if k < i {
                assert(t[k] == s[k]);
                assert(t[k].start <= a < end_of(t[k]));
            } else {
                assert(t[k - 1] == s[k]);
                assert(t[k - 1].start <= a < end_of(t[k - 1]));
            }
        }
        if b.start <= a < end_of(b) {
            assert(t[i - 1].start <= a < end_of(t[i - 1]));
        }
    }
}

proof fn lemma_merge_prev(s: Seq<FreeBlock>, i: int, b: FreeBlock)
    requires
        canonical(s),
        0 < i <= s.len(),
        end_of(s[i - 1]) == b.start,
        i < s.len() ==> end_of(b) < s[i].start,
        b.size > 0,
        end_of(b) <= usize::MAX,
    ensures
        ({
            let m = FreeBlock { start: s[i - 1].start, size: (s[i - 1].size + b.size) as usize };
            let t = s.update(i - 1, m);
            &&& canonical(t)
            &&& covers_plus(t, s, b.start as int, end_of(b))
        }),
{
    let m = FreeBlock { start: s[i - 1].start, size: (s[i - 1].size + b.size) as usize };
    let t = s.update(i - 1, m);
    assert forall|x: int, y: int| 0 <= x < y < t.len() implies end_of(#[trigger] t[x]) < (#[trigger] t[y]).start by {
        if x == i - 1 {
            assert(end_of(s[i - 1]) < s[i].start || i == s.len());
            if y > i {
                assert(end_of(s[i]) < s[y].start);
            }
        }
    }
    assert forall|a: int| covers(t, a) <==> covers(s, a) || b.start <= a < end_of(b) by {
        if covers(t, a) {
            let k = choose|k: int| 0 <= k < t.len() && t[k].start <= a < end_of(#[trigger] t[k]);
            if k == i - 1 {
                if a < end_of(s[i - 1]) {
                    assert(s[i - 1].start <= a < end_of(s[i - 1]));
                }
            } else {
                assert(s[k].start <= a < end_of(s[k]));
            }
        }
        if covers(s, a) {
            let k = choose|k: int| 0 <= k < s.len() && s[k].start <= a < end_of(#[trigger] s[k]);
            assert(t[k].start <= a < end_of(t[k]));
        }
        if b.start <= a < end_of(b) {
            assert(t[i - 1].start <= a < end_of(t[i - 1]));
        }
    }
}

proof fn lemma_merge_next(s: Seq<FreeBlock>, i: int, b: FreeBlock)
    requires
        canonical(s),
        0 <= i < s.len(),
        i > 0 ==> end_of(s[i - 1]) < b.start,
        end_of(b) == s[i].start,
        b.size > 0,
        end_of(b) <= usize::MAX,
    ensures
        ({
            let m = FreeBlock { start: b.start, size: (b.size + s[i].size) as usize };
            let t = s.update(i, m);
            &&& canonical(t)
            &&& covers_plus(t, s, b.start as int, end_of(b))
        }),
{
    let m = FreeBlock { start: b.start, size: (b.size + s[i].size) as usize };
    let t = s.update(i, m);
    assert forall|x: int, y: int| 0 <= x < y < t.len() implies end_of(#[trigger] t[x]) < (#[trigger] t[y]).start by {
        if y == i && x < i - 1 {
            assert(end_of(s[x]) < s[i - 1].start);
        }
    }
    assert forall|a: int| covers(t, a) <==> covers(s, a) || b.start <= a < end_of(b) by {
        if covers(t, a) {
            let k = choose|k: int| 0 <= k < t.len() && t[k].start <= a < end_of(#[trigger] t[k]);
            if k == i {
                if a >= s[i].start {
                    assert(s[i].start <= a < end_of(s[i]));
                }
            } else {
                assert(s[k].start <= a < end_of(s[k]));
            }
        }
        if covers(s, a) {
            let k = choose|k: int| 0 <= k < s.len() && s[k].start <= a < end_of(#[trigger] s[k]);
            assert(t[k].start <= a < end_of(t[k]));
        }
        if b.start <= a < end_of(b) {
            assert(t[i].start <= a < end_of(t[i]));
        }
    }
}

proof fn lemma_insert_alone(s: Seq<FreeBlock>, i: int, b: FreeBlock)
    requires
        canonical(s),
        0 <= i <= s.len(),
        i > 0 ==> end_of(s[i - 1]) < b.start,
        i < s.len() ==> end_of(b) < s[i].start,
        b.size > 0,
        end_of(b) <= usize::MAX,
    ensures
        canonical(s.insert(i, b)),
        covers_plus(s.insert(i, b), s, b.start as int, end_of(b)),
{
    let t = s.insert(i, b);
    assert forall|x: int| 0 <= x < t.len() implies (#[trigger] t[x]).size > 0 && end_of(t[x]) <= usize::MAX by {
        if x < i {
            assert(t[x] == s[x]);
        } else if x > i {
            assert(t[x] == s[x - 1]);
        }
    }
    assert forall|x: int, y: int| 0 <= x < y < t.len() implies end_of(#[trigger] t[x]) < (#[trigger] t[y]).start by {
        if x < i && y < i {
            assert(t[x] == s[x] && t[y] == s[y]);
        } else if x < i && y == i {
            assert(t[x] == s[x]);
            if x < i - 1 {
                assert(end_of(s[x]) < s[i - 1].start);
            }
        } else if x < i {
            assert(t[x] == s[x] && t[y] == s[y - 1]);
        } else if x == i {
            assert(t[y] == s[y - 1]);
            if y - 1 > i {
                assert(end_of(s[i]) < s[y - 1].start);
            }
        } else {
            assert(t[x] == s[x - 1] && t[y] == s[y - 1]);
        }
    }
    assert forall|a: int| covers(t, a) <==> covers(s, a) || b.start <= a < end_of(b) by {
        if covers(t, a) {
            let k = choose|k: int| 0 <= k < t.len() && t[k].start <= a < end_of(#[trigger] t[k]);
            if k < i {
                assert(t[k] == s[k]);
                assert(s[k].start <= a < end_of(s[k]));
            } else if k > i {
                assert(t[k] == s[k - 1]);
                assert(s[k - 1].start <= a < end_of(s[k - 1]));
            }
        }
        if covers(s, a) {
            let k = choose|k: int| 0 <= k < s.len() && s[k].start <= a < end_of(#[trigger] s[k]);
            if k < i {
                assert(t[k] == s[k]);
                assert(t[k].start <= a < end_of(t[k]));
            } else {
                assert(t[k + 1] == s[k]);
                assert(t[k + 1].start <= a < end_of(t[k + 1]));
            }
        }
        if b.start <= a < end_of(b) {
            assert(t[i] == b);
            assert(t[i].start <= a < end_of(t[i]));
        }
    }
}

/// Order of the buddy blocks the heap grows by.
pub const CHUNK_ORDER: usize = 10;
/// Size of the buddy blocks the heap grows by.
pub const CHUNK_SIZE: usize = 4194304;
/// Size of the pointer, right below each allocation, back to its block.
pub const BACK_PTR_SIZE: usize = 8;
/// Size of the header at the start of each block: its size and two list links.
pub const HEAP_NODE_SIZE: usize = 24;
/// Alignment of blocks and of their headers.
pub const HEAP_ALIGN: usize = 8;
/// The smallest remainder worth keeping as a free block.
pub const MIN_FREE_BLOCK_SIZE: usize = 33;

proof fn lemma_heap_align()
    ensures
        crate::arith::is_power_of_two(HEAP_ALIGN as int),
{
    vstd::arithmetic::power2::lemma2_to64();
    assert(vstd::arithmetic::power2::pow2(3) == 8);
}

/// The layout of heap blocks: a header, a back pointer, and 8-byte alignment.
pub open spec fn heap_geometry() -> AllocationGeometry {
    AllocationGeometry { header_size: HEAP_NODE_SIZE, block_align: HEAP_ALIGN, back_ptr_size: BACK_PTR_SIZE }
}

/// The layout of heap blocks.
pub fn allocation_geometry() -> (g: AllocationGeometry)
    ensures
        g == heap_geometry(),
{
    AllocationGeometry { header_size: HEAP_NODE_SIZE, block_align: HEAP_ALIGN, back_ptr_size: BACK_PTR_SIZE }
}

/// `layout` with at least one byte and at least the heap's alignment.
pub fn normalize_layout(layout: Layout) -> (r: Layout)
    requires
        layout_valid(
            if layout.size_spec() > 1 { layout.size_spec() as int } else { 1 },
            if layout.align_spec() > HEAP_ALIGN { layout.align_spec() as int } else { HEAP_ALIGN as int },
        ),
    ensures
        r.size_spec() == if layout.size_spec() > 1 { layout.size_spec() } else { 1 },
        r.align_spec() == if layout.align_spec() > HEAP_ALIGN { layout.align_spec() } else { HEAP_ALIGN },
{
    proof {
        lemma_heap_align();
    }
    alloc_layout::normalize_layout(layout, HEAP_ALIGN)
}

/// Where an allocation with `layout` goes in the block `[start, start + size)`:
/// the user pointer and the bytes used.
pub fn allocation_for_block(block_start: usize, block_size: usize, layout: Layout) -> (r: Option<(usize, usize)>)
    ensures
        r == match placement_spec(block_start as int, block_size as int, layout.size_spec() as int, layout.align_spec() as int, heap_geometry()) {
            Some(p) => Some((p.user_ptr, p.used_size)),
            None => None::<(usize, usize)>,
        },
{
    proof {
        lemma_heap_align();
    }
    match alloc_layout::allocation_for_block(block_start, block_size, layout, allocation_geometry()) {
        Some(p) => Some((p.user_ptr, p.used_size)),
        None => None,
    }
}

/// The bytes, counted from `block_start`, that an allocation with `layout` needs.
pub fn required_block_size(block_start: usize, layout: Layout) -> (r: Option<usize>)
    ensures
        r is Some <==> required_size_spec(block_start as int, layout.size_spec() as int, layout.align_spec() as int, heap_geometry()) is Some,
        r matches Some(v) ==> required_size_spec(block_start as int, layout.size_spec() as int, layout.align_spec() as int, heap_geometry()) == Some(v as int),
{
    proof {
        lemma_heap_align();
    }
    alloc_layout::required_block_size(block_start, layout, allocation_geometry())
}

/// Whether the block `left` ends exactly where the block at `right` starts.
pub fn blocks_are_adjacent(left: FreeBlock, right_start: usize) -> (r: bool)
    ensures
        r == (if left.start + left.size > usize::MAX { usize::MAX as int } else { left.start + left.size } == right_start),
{
    left.start.saturating_add(left.size) == right_start
}

/// Where an allocation was placed.
#[derive(Debug, Clone, Copy, PartialEq, Eq, Structural)]
pub struct HeapAllocation {
    /// The pointer handed to the caller.
    pub user_ptr: usize,
    /// The block the allocation took; its header goes here.
    pub block_start: usize,
    /// The bytes of the block the allocation uses.
    pub used_size: usize,
}

/// The first free block in address order, from index `k` on, where an
/// allocation with `layout` fits.
pub open spec fn first_fitting(s: Seq<FreeBlock>, size: int, align: int, k: int) -> Option<int>
    decreases s.len() - k,
{
    if k < 0 || k >= s.len() {
        None
    } else if placement_spec(s[k].start as int, s[k].size as int, size, align, heap_geometry()) is Some {
        Some(k)
    } else {
        first_fitting(s, size, align, k + 1)
    }
}

proof fn lemma_first_fitting(s: Seq<FreeBlock>, size: int, align: int, k: int)
    requires
        0 <= k <= s.len(),
    ensures
        first_fitting(s, size, align, k) matches Some(j) ==> k <= j < s.len() && placement_spec(
            s[j].start as int,
            s[j].size as int,
            size,
            align,
            heap_geometry(),
        ) is Some,
        first_fitting(s, size, align, k) is None ==> forall|j: int| k <= j < s.len() ==> placement_spec(
            s[j].start as int,
            s[j].size as int,
            size,
            align,
            heap_geometry(),
        ) is None,
    decreases s.len() - k,
{
    if k < s.len() {
        lemma_first_fitting(s, size, align, k + 1);
    }
}

/// The free blocks without block `k`.
proof fn lemma_remove_block(s: Seq<FreeBlock>, k: int)
    requires
        canonical(s),
        0 <= k < s.len(),
    ensures
        canonical(s.remove(k)),
        forall|a: int| covers(s.remove(k), a) <==> covers(s, a) && !(s[k].start <= a < end_of(s[k])),
{
    let t = s.remove(k);
    assert forall|x: int, y: int| 0 <= x < y < t.len() implies end_of(#[trigger] t[x]) < (#[trigger] t[y]).start by {
        let x2 = if x < k { x } else { x + 1 };
        let y2 = if y < k { y } else { y + 1 };
        assert(t[x] == s[x2] && t[y] == s[y2]);
    }
    assert forall|a: int| covers(t, a) <==> covers(s, a) && !(s[k].start <= a < end_of(s[k])) by {
        if covers(t, a) {
            let j = choose|j: int| 0 <= j < t.len() && t[j].start <= a < end_of(#[trigger] t[j]);
            let j2 = if j < k { j } else { j + 1 };
            assert(t[j] == s[j2]);
            assert(s[j2].start <= a < end_of(s[j2]));
            if s[k].start <= a < end_of(s[k]) {
                if j2 < k {
                    assert(end_of(s[j2]) < s[k].start);
                } else {
                    assert(end_of(s[k]) < s[j2].start);
                }
            }
        }
        if covers(s, a) && !(s[k].start <= a < end_of(s[k])) {
            let j = choose|j: int| 0 <= j < s.len() && s[j].start <= a < end_of(#[trigger] s[j]);
            if j < k {
                assert(t[j] == s[j]);
                assert(t[j].start <= a < end_of(t[j]));
            } else {
                assert(j != k);
                assert(t[j - 1] == s[j]);
                assert(t[j - 1].start <= a < end_of(t[j - 1]));
            }
        }
    }
}

impl FreeList {
    /// Takes the first free block, in address order, where an allocation with
    /// `layout` fits. What is left of the block after the allocation goes back
    /// to the heap when it is at least `MIN_FREE_BLOCK_SIZE` bytes; a smaller
    /// rest is left out of both the heap and the size the allocation records.
    pub fn allocate_from_free_list(&mut self, layout: Layout) -> (r: Option<HeapAllocation>)
        requires
            canonical(old(self).view()),
        ensures
            canonical(final(self).view()),
            ({
                let s = old(self).view();
                match first_fitting(s, layout.size_spec() as int, layout.align_spec() as int, 0) {
                    None => r is None && final(self).view() == s,
                    Some(k) => {
                        let b = s[k];
                        let p = placement_spec(b.start as int, b.size as int, layout.size_spec() as int, layout.align_spec() as int, heap_geometry())->Some_0;
                        let rest = b.size - p.used_size;
                        &&& r == Some(HeapAllocation { user_ptr: p.user_ptr, block_start: b.start, used_size: p.used_size })
                        &&& if rest >= MIN_FREE_BLOCK_SIZE {
                            covers_plus(final(self).view(), s.remove(k), b.start + p.used_size, end_of(b))
                        } else {
                            final(self).view() == s.remove(k)
                        }
                    },
                }
            }),
    {
        let ghost s = self.blocks@;
        let ghost size = layout.size_spec() as int;
        let ghost align = layout.align_spec() as int;
        let mut i: usize = 0;
        while i < self.blocks.len()
            invariant
                i <= self.blocks@.len(),
                s == self.blocks@,
                s == old(self).blocks@,
                canonical(s),
                size == layout.size_spec(),
                align == layout.align_spec(),
                first_fitting(s, size, align, 0) == first_fitting(s, size, align, i as int),
            decreases self.blocks@.len() - i,
        {
            let b = self.blocks[i];
            match allocation_for_block(b.start, b.size, layout) {
                Some((user_ptr, used_size)) => {
                    proof {
                        lemma_remove_block(s, i as int);
                    }
                    self.blocks.remove(i);
                    let remaining = b.size - used_size;
                    if remaining >= MIN_FREE_BLOCK_SIZE {
                        proof {
                            assert forall|a: int| b.start + used_size <= a < b.start + used_size + remaining implies !covers(
                                self.blocks@,
                                a,
                            ) by {
                                assert(b.start <= a < end_of(b));
                            }
                        }
                        self.insert_and_coalesce(b.start + used_size, remaining);
                    }
                    return Some(HeapAllocation { user_ptr, block_start: b.start, used_size });
                },
                None => {},
            }
            i = i + 1;
        }
        proof {
            lemma_first_fitting(s, size, align, i as int);
        }
        None
    }

    /// Grows the heap by a block of `CHUNK_SIZE` bytes from `buddy`, addressed
    /// through the higher half; `false` when `buddy` has no such block.
    pub fn grow_heap(&mut self, buddy: &mut BuddyAllocator) -> (grown: bool)
        requires
            canonical(old(self).view()),
            old(buddy).wf(),
            old(buddy).total() * PAGE_SIZE + KERNEL_VMA <= usize::MAX,
            heap_backed(old(self).view(), old(buddy).allocated_blocks()),
        ensures
            canonical(final(self).view()),
            heap_backed(final(self).view(), final(buddy).allocated_blocks()),
            final(buddy).wf(),
            final(buddy).total() == old(buddy).total(),
            ({
                let (r, l, al) = alloc_fn(old(buddy).free_lists(), old(buddy).allocated_blocks(), CHUNK_ORDER as nat, Placement::Anywhere);
                &&& final(buddy).free_lists() == l
                &&& final(buddy).allocated_blocks() == al
                &&& grown == r is Some
                &&& r is None ==> final(self).view() == old(self).view()
                &&& r matches Some(phys) ==> covers_plus(final(self).view(), old(self).view(), phys + KERNEL_VMA, phys + KERNEL_VMA + CHUNK_SIZE)
            }),
    {
        let ghost l0 = buddy.free_lists();
        let ghost a0 = buddy.allocated_blocks();
        let ghost b0 = *buddy;
        let r = buddy.allocate(CHUNK_ORDER);
        proof {
            lemma_alloc_outcome_fn(l0, a0, CHUNK_ORDER as nat, Placement::Anywhere, r, buddy.free_lists(), buddy.allocated_blocks());
        }
        let phys = match r {
            Some(p) => p,
            None => {
                return false;
            },
        };
        let ghost pfn = phys / PAGE_SIZE;
        proof {
            law_allocation_fresh(b0, *buddy, CHUNK_ORDER as nat, Placement::Anywhere, r);
            vstd::arithmetic::power2::lemma2_to64();
            assert(block_pages(CHUNK_ORDER as nat) == 1024);
            assert(phys + CHUNK_SIZE == (pfn + 1024) * PAGE_SIZE);
        }
        let virt = (phys as u64 + KERNEL_VMA) as usize;
        proof {
            assert forall|a: int| virt <= a < virt + CHUNK_SIZE implies !covers(self.blocks@, a) by {
                if covers(self.blocks@, a) {
                    let q = choose|q: usize| #[trigger] a0.dom().contains(q) && in_block_image(a, q, a0[q]);
                    assert(disjoint(pfn as int, CHUNK_ORDER as nat, q as int, a0[q]));
                    let oq = a0[q];
                    assert(q * PAGE_SIZE + block_pages(oq) * PAGE_SIZE == (q + block_pages(oq)) * PAGE_SIZE) by (nonlinear_arith);
                    if pfn + 1024 <= q {
                        assert((pfn + 1024) * PAGE_SIZE <= q * PAGE_SIZE) by (nonlinear_arith)
                            requires
                                pfn + 1024 <= q,
                        ;
                    } else {
                        assert((q + block_pages(oq)) * PAGE_SIZE <= pfn * PAGE_SIZE) by (nonlinear_arith)
                            requires
                                q + block_pages(oq) <= pfn,
                        ;
                    }
                }
            }
        }
        self.insert_and_coalesce(virt, CHUNK_SIZE);
        proof {
            let a1 = buddy.allocated_blocks();
            assert forall|a: int| covers(self.blocks@, a) implies exists|q: usize| #[trigger] a1.dom().contains(q) && in_block_image(a, q, a1[q]) by {
                if virt <= a < virt + CHUNK_SIZE {
                    assert(a1.dom().contains(pfn as usize));
                    assert(in_block_image(a, pfn as usize, a1[pfn as usize]));
                } else {
                    assert(covers(old(self).blocks@, a));
                    let q = choose|q: usize| #[trigger] a0.dom().contains(q) && in_block_image(a, q, a0[q]);
                    assert(a1.dom().contains(q) && a1[q] == a0[q]);
                }
            }
        }
        true
    }
}

/// The byte at `a` lies in the higher-half image of the block of `order` at frame `q`.
pub open spec fn in_block_image(a: int, q: usize, order: nat) -> bool {
    KERNEL_VMA + q * PAGE_SIZE <= a < KERNEL_VMA + (q + block_pages(order)) * PAGE_SIZE
}

/// Every free byte of the heap lies in a block that the heap took from the buddy allocator.
pub open spec fn heap_backed(s: Seq<FreeBlock>, alloc: Map<usize, nat>) -> bool {
    forall|a: int| covers(s, a) ==> exists|q: usize| #[trigger] alloc.dom().contains(q) && in_block_image(a, q, alloc[q])
}

/// Taking block `k` out of a list of disjoint blocks uncovers exactly the
/// addresses of that block.
proof fn lemma_remove_uncovers(s: Seq<FreeBlock>, k: int, a: int)
    requires
        canonical(s),
        0 <= k < s.len(),
    ensures
        covers(s.remove(k), a) <==> covers(s, a) && !(s[k].start <= a < end_of(s[k])),
{
    let r = s.remove(k);
    if covers(r, a) {
        let i = choose|i: int| 0 <= i < r.len() && r[i].start <= a < end_of(#[trigger] r[i]);
        let j = if i < k { i } else { i + 1 };
        assert(r[i] == s[j]);
        assert(s[j].start <= a < end_of(s[j]));
        if j < k {
            assert(end_of(s[j]) < s[k].start);
        } else {
            assert(end_of(s[k]) < s[j].start);
        }
    }
    if covers(s, a) && !(s[k].start <= a < end_of(s[k])) {
        let j = choose|j: int| 0 <= j < s.len() && s[j].start <= a < end_of(#[trigger] s[j]);
        assert(j != k);
        let i = if j < k { j } else { j - 1 };
        assert(r[i] == s[j]);
        assert(r[i].start <= a < end_of(r[i]));
    }
}

/// Freeing what an allocation took from block `k` gives the heap back the
/// addresses it had, except the small rest of the block that the allocation
/// left out (when that rest is under `MIN_FREE_BLOCK_SIZE`). `t` is a free
/// list after the allocation took `used` bytes at the start of block `k`,
/// and `u` the list after those bytes are freed again.
pub proof fn law_free_after_allocate(s: Seq<FreeBlock>, t: Seq<FreeBlock>, u: Seq<FreeBlock>, k: int, used: int)
    requires
        canonical(s),
        0 <= k < s.len(),
        0 < used <= s[k].size,
        s[k].size - used >= MIN_FREE_BLOCK_SIZE ==> covers_plus(t, s.remove(k), s[k].start + used, end_of(s[k])),
        s[k].size - used < MIN_FREE_BLOCK_SIZE ==> t == s.remove(k),
        covers_plus(u, t, s[k].start as int, s[k].start + used),
    ensures
        forall|a: int| #[trigger] covers(u, a) <==> covers(s, a) && !(s[k].size - used < MIN_FREE_BLOCK_SIZE
            && s[k].start + used <= a < end_of(s[k])),
{
    assert forall|a: int| #[trigger] covers(u, a) <==> covers(s, a) && !(s[k].size - used < MIN_FREE_BLOCK_SIZE
        && s[k].start + used <= a < end_of(s[k])) by {
        lemma_remove_uncovers(s, k, a);
        assert(covers(u, a) <==> covers(t, a) || s[k].start <= a < s[k].start + used);
        if s[k].start <= a < end_of(s[k]) {
            assert(covers(s, a));
        }
    }
}

} // verus!
