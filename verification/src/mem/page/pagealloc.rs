use vstd::prelude::*;
use vstd::arithmetic::power2::{pow2, lemma2_to64, lemma_pow2_pos};
use vstd::bits::{lemma_usize_shl_is_mul, lemma_usize_low_bits_mask_is_mod, lemma_u64_shl_is_mul, low_bits_mask};
use vstd::std_specs::bits::{u64_trailing_zeros, u64_leading_zeros, axiom_u64_trailing_zeros, axiom_u64_leading_zeros};

verus! {

/// Size of a page frame in bytes.
pub const PAGE_SIZE: usize = 4096;
/// log2 of `PAGE_SIZE`.
pub const PAGE_SHIFT: usize = 12;
/// Number of block orders: blocks hold 2^0 .. 2^(MAX_ORDER - 1) pages.
pub const MAX_ORDER: usize = 11;
/// Encoded "no link" value of `PageInfo::next` / `PageInfo::prev`.
pub const LINK_NONE: u32 = 0;

/// Per-frame metadata: 8 bytes per page frame.
#[derive(Clone, Copy)]
pub struct PageInfo {
    /// Order of the block the frame belongs to.
    pub order: u8,
    /// bit 0: the frame is the head of its block; bit 1: the block is free.
    pub flags: u8,
    /// Next block in the free list, stored as frame number + 1 (0 = none).
    pub next: u32,
    /// Previous block in the free list, stored as frame number + 1 (0 = none).
    pub prev: u32,
}

/// The stored form of an optional frame link.
pub open spec fn enc_link(v: Option<usize>) -> u32 {
    match v {
        None => 0u32,
        Some(x) => (x + 1) as u32,
    }
}

/// The frame link a stored value stands for.
pub open spec fn dec_link(raw: u32) -> Option<usize> {
    if raw == 0 { None } else { Some((raw - 1) as usize) }
}

/// A link fits the 32-bit encoding.
pub open spec fn link_fits(v: Option<usize>) -> bool {
    match v {
        None => true,
        Some(x) => x + 1 <= u32::MAX,
    }
}

impl PageInfo {
    /// The frame is the first of its block.
    pub open spec fn head_bit(self) -> bool {
        self.flags & 1u8 != 0
    }

    /// The block of the frame is free.
    pub open spec fn free_bit(self) -> bool {
        self.flags & 2u8 != 0
    }

    /// Metadata of a frame that belongs to no block.
    pub open spec fn blank() -> PageInfo {
        PageInfo { order: 255, flags: 0, next: LINK_NONE, prev: LINK_NONE }
    }

    /// The next block in the free list.
    pub fn next(&self) -> (r: Option<usize>)
        ensures
            r == dec_link(self.next),
    {
        if self.next == LINK_NONE {
            None
        } else {
            Some((self.next - 1) as usize)
        }
    }

    /// Links the next block in the free list.
    pub fn set_next(&mut self, v: Option<usize>)
        requires
            link_fits(v),
        ensures
            *final(self) == (PageInfo { next: enc_link(v), ..*old(self) }),
    {
        self.next = match v {
            Some(x) => (x + 1) as u32,
            None => LINK_NONE,
        };
    }

    /// The previous block in the free list.
    pub fn prev(&self) -> (r: Option<usize>)
        ensures
            r == dec_link(self.prev),
    {
        if self.prev == LINK_NONE {
            None
        } else {
            Some((self.prev - 1) as usize)
        }
    }

    /// Links the previous block in the free list.
    pub fn set_prev(&mut self, v: Option<usize>)
        requires
            link_fits(v),
        ensures
            *final(self) == (PageInfo { prev: enc_link(v), ..*old(self) }),
    {
        self.prev = match v {
            Some(x) => (x + 1) as u32,
            None => LINK_NONE,
        };
    }

    /// Whether the frame is the first of its block.
    pub fn is_head(&self) -> (r: bool)
        ensures
            r == self.head_bit(),
    {
        self.flags & 1 != 0
    }

    /// Marks whether the frame is the first of its block.
    pub fn set_head(&mut self, v: bool)
        ensures
            final(self).head_bit() == v,
            final(self).free_bit() == old(self).free_bit(),
            final(self).order == old(self).order,
            final(self).next == old(self).next,
            final(self).prev == old(self).prev,
    {
        let f = self.flags;
        if v {
            self.flags = f | 1;
            assert((f | 1u8) & 1u8 != 0 && ((f | 1u8) & 2u8 != 0) == (f & 2u8 != 0)) by (bit_vector);
        } else {
            self.flags = f & !1u8;
            assert((f & !1u8) & 1u8 == 0 && ((f & !1u8) & 2u8 != 0) == (f & 2u8 != 0)) by (bit_vector);
        }
    }

    /// Whether the block of the frame is free.
    pub fn is_free(&self) -> (r: bool)
        ensures
            r == self.free_bit(),
    {
        self.flags & 2 != 0
    }

    /// Marks whether the block of the frame is free.
    pub fn set_free(&mut self, v: bool)
        ensures
            final(self).free_bit() == v,
            final(self).head_bit() == old(self).head_bit(),
            final(self).order == old(self).order,
            final(self).next == old(self).next,
            final(self).prev == old(self).prev,
    {
        let f = self.flags;
        if v {
            self.flags = f | 2;
            assert((f | 2u8) & 2u8 != 0 && ((f | 2u8) & 1u8 != 0) == (f & 1u8 != 0)) by (bit_vector);
        } else {
            self.flags = f & !2u8;
            assert((f & !2u8) & 2u8 == 0 && ((f & !2u8) & 1u8 != 0) == (f & 1u8 != 0)) by (bit_vector);
        }
    }
}

impl Default for PageInfo {
    fn default() -> (r: Self)
        ensures
            r == PageInfo::blank(),
    {
        PageInfo { order: 255, flags: 0, next: LINK_NONE, prev: LINK_NONE }
    }
}

} // verus!

verus! {

/// The first frame of a free list.
pub open spec fn first_of(s: Seq<usize>) -> Option<usize> {
    if s.len() == 0 { None } else { Some(s[0]) }
}

/// The successor of position `i` in a free list.
pub open spec fn next_in(s: Seq<usize>, i: int) -> Option<usize> {
    if i + 1 < s.len() { Some(s[i + 1]) } else { None }
}

/// The predecessor of position `i` in a free list.
pub open spec fn prev_in(s: Seq<usize>, i: int) -> Option<usize> {
    if i > 0 { Some(s[i - 1]) } else { None }
}

/// The free lists are threaded through the frame metadata: each list starts at
/// its head, the links of each member name its neighbours, and no frame is in
/// two places.
pub open spec fn linked(meta: Seq<PageInfo>, heads: Seq<Option<usize>>, lists: Seq<Seq<usize>>) -> bool {
    &&& meta.len() < u32::MAX
    &&& heads.len() == MAX_ORDER
    &&& lists.len() == MAX_ORDER
    &&& forall|o: int| 0 <= o < MAX_ORDER ==> #[trigger] heads[o] == first_of(lists[o])
    &&& forall|o: int, i: int|
        0 <= o < MAX_ORDER && 0 <= i < lists[o].len() ==> {
            &&& #[trigger] lists[o][i] < meta.len()
            &&& meta[lists[o][i] as int].next == enc_link(next_in(lists[o], i))
            &&& meta[lists[o][i] as int].prev == enc_link(prev_in(lists[o], i))
        }
    &&& forall|o1: int, i1: int, o2: int, i2: int|
        0 <= o1 < MAX_ORDER && 0 <= o2 < MAX_ORDER && 0 <= i1 < lists[o1].len() && 0 <= i2
            < lists[o2].len() && (o1 != o2 || i1 != i2) ==> #[trigger] lists[o1][i1]
            != #[trigger] lists[o2][i2]
}

/// Two metadata arrays agree on every frame's order and flags.
pub open spec fn same_shape(m1: Seq<PageInfo>, m2: Seq<PageInfo>) -> bool {
    &&& m1.len() == m2.len()
    &&& forall|q: int| 0 <= q < m1.len() ==> #[trigger] same_at(m1, m2, q)
}

/// Whether `p` is in some free list.
pub open spec fn listed(lists: Seq<Seq<usize>>, p: usize) -> bool {
    exists|o: int, i: int| 0 <= o < MAX_ORDER && 0 <= i < lists[o].len() && #[trigger] lists[o][i] == p
}

/// Physical page allocator: free blocks of 2^order frames are kept in one
/// doubly linked list per order, threaded through the frame metadata.
pub struct BuddyAllocator {
    metadata: Vec<PageInfo>,
    free_heads: Vec<Option<usize>>,
    total_pages: usize,
    lists: Ghost<Seq<Seq<usize>>>,
    allocated: Ghost<Map<usize, nat>>,
}

impl BuddyAllocator {
    /// The free blocks of each order, in list order (first is taken first).
    pub closed spec fn free_lists(&self) -> Seq<Seq<usize>> {
        self.lists@
    }

    /// The allocated blocks: first frame to order.
    pub closed spec fn allocated_blocks(&self) -> Map<usize, nat> {
        self.allocated@
    }

    /// Number of page frames that the allocator manages.
    pub closed spec fn total(&self) -> nat {
        self.total_pages as nat
    }

    /// The metadata of every frame.
    pub closed spec fn meta(&self) -> Seq<PageInfo> {
        self.metadata@
    }

    spec fn is_linked(&self) -> bool {
        linked(self.metadata@, self.free_heads@, self.lists@)
    }

    /// Unlinks the block at position `idx` of the list of `order`.
    #[verifier::spinoff_prover]
    #[verifier::rlimit(60)]
    fn remove_from_free(&mut self, pfn: usize, order: usize, Ghost(idx): Ghost<int>)
        requires
            old(self).is_linked(),
            order < MAX_ORDER,
            0 <= idx < old(self).lists@[order as int].len(),
            old(self).lists@[order as int][idx] == pfn,
        ensures
            final(self).is_linked(),
            final(self).lists@ == old(self).lists@.update(order as int, old(self).lists@[order as int].remove(idx)),
            same_shape(old(self).metadata@, final(self).metadata@),
            final(self).total_pages == old(self).total_pages,
            final(self).allocated == old(self).allocated,
    {
        let ghost lists = self.lists@;
        let ghost l = lists[order as int];
        let ghost meta0 = self.metadata@;
        let node = self.metadata[pfn];
        let prev = node.prev();
        let next = node.next();
        assert(prev == prev_in(l, idx));
        assert(next == next_in(l, idx));
        match prev {
            Some(p) => {
                let mut m = self.metadata[p];
                m.set_next(next);
                self.metadata.set(p, m);
            },
            None => {
                self.free_heads.set(order, next);
            },
        }
        let ghost meta1 = self.metadata@;
        match next {
            Some(n) => {
                let mut m = self.metadata[n];
                m.set_prev(prev);
                self.metadata.set(n, m);
            },
            None => {},
        }
        proof {
            let nl = l.remove(idx);
            let nlists = lists.update(order as int, nl);
            self.lists@ = nlists;
            let meta = self.metadata@;
            assert forall|o: int, i: int| 0 <= o < MAX_ORDER && 0 <= i < nlists[o].len() implies {
                &&& #[trigger] nlists[o][i] < meta.len()
                &&& meta[nlists[o][i] as int].next == enc_link(next_in(nlists[o], i))
                &&& meta[nlists[o][i] as int].prev == enc_link(prev_in(nlists[o], i))
            } by {
                if o == order {
                    let j = if i < idx { i } else { i + 1 };
                    assert(nlists[o][i] == l[j]);
                    assert(lists[order as int][j] == l[j]);
                    if j == idx - 1 {
                    } else if j == idx + 1 {
                    } else {
                        assert(l[j] != l[idx]);
                        if idx > 0 {
                            assert(l[j] != l[idx - 1]);
                        }
                        if idx + 1 < l.len() {
                            assert(l[j] != l[idx + 1]);
                        }
                    }
                } else {
                    assert(nlists[o][i] == lists[o][i]);
                    if idx > 0 {
                        assert(lists[o][i] != l[idx - 1]);
                    }
                    if idx + 1 < l.len() {
                        assert(lists[o][i] != l[idx + 1]);
                    }
                }
            }
            assert forall|o1: int, i1: int, o2: int, i2: int|
                0 <= o1 < MAX_ORDER && 0 <= o2 < MAX_ORDER && 0 <= i1 < nlists[o1].len() && 0 <= i2
                    < nlists[o2].len() && (o1 != o2 || i1 != i2) implies #[trigger] nlists[o1][i1]
                    != #[trigger] nlists[o2][i2] by {
                let j1 = if o1 == order && i1 >= idx { i1 + 1 } else { i1 };
                let j2 = if o2 == order && i2 >= idx { i2 + 1 } else { i2 };
                assert(nlists[o1][i1] == lists[o1][j1]);
                assert(nlists[o2][i2] == lists[o2][j2]);
            }
            assert forall|o: int| 0 <= o < MAX_ORDER implies #[trigger] self.free_heads@[o] == first_of(nlists[o]) by {
                if o == order && idx == 0 && nl.len() > 0 {
                    assert(nl[0] == l[1]);
                }
            }
            assert forall|q: int| 0 <= q < meta0.len() implies #[trigger] meta0[q].order == meta[q].order && meta0[q].flags == meta[q].flags by {
            }
        }
    }

    /// Puts the block at `pfn` at the front of the list of `order` and marks its
    /// head frame free.
    #[verifier::spinoff_prover]
    #[verifier::rlimit(60)]
    fn push_free(&mut self, pfn: usize, order: usize)
        requires
            old(self).is_linked(),
            order < MAX_ORDER,
            pfn < old(self).metadata@.len(),
            !listed(old(self).lists@, pfn),
        ensures
            final(self).is_linked(),
            final(self).lists@ == old(self).lists@.update(order as int, seq![pfn] + old(self).lists@[order as int]),
            final(self).metadata@.len() == old(self).metadata@.len(),
            forall|q: int| 0 <= q < old(self).metadata@.len() && q != pfn ==> #[trigger] final(self).metadata@[q].order == old(self).metadata@[q].order
                && final(self).metadata@[q].flags == old(self).metadata@[q].flags,
            final(self).metadata@[pfn as int].order == old(self).metadata@[pfn as int].order,
            final(self).metadata@[pfn as int].head_bit() == old(self).metadata@[pfn as int].head_bit(),
            final(self).metadata@[pfn as int].free_bit(),
            final(self).total_pages == old(self).total_pages,
            final(self).allocated == old(self).allocated,
    {
        let ghost lists = self.lists@;
        let ghost l = lists[order as int];
        let head = self.free_heads[order];
        assert(head == first_of(l));
        let mut p = self.metadata[pfn];
        p.set_free(true);
        p.set_next(head);
        p.set_prev(None);
        self.metadata.set(pfn, p);
        match head {
            Some(h) => {
                assert(h == l[0]);
                let mut m = self.metadata[h];
                m.set_prev(Some(pfn));
                self.metadata.set(h, m);
            },
            None => {},
        }
        self.free_heads.set(order, Some(pfn));
        proof {
            let nl = seq![pfn] + l;
            let nlists = lists.update(order as int, nl);
            self.lists@ = nlists;
            let meta = self.metadata@;
            assert forall|o: int, i: int| 0 <= o < MAX_ORDER && 0 <= i < nlists[o].len() implies {
                &&& #[trigger] nlists[o][i] < meta.len()
                &&& meta[nlists[o][i] as int].next == enc_link(next_in(nlists[o], i))
                &&& meta[nlists[o][i] as int].prev == enc_link(prev_in(nlists[o], i))
            } by {
                if o == order {
                    if i > 0 {
                        assert(nlists[o][i] == l[i - 1]);
                        assert(lists[order as int][i - 1] == l[i - 1]);
                        if i > 1 {
                            assert(l[i - 1] != l[0]);
                        }
                    }
                } else {
                    assert(nlists[o][i] == lists[o][i]);
                    if l.len() > 0 {
                        assert(lists[o][i] != l[0]);
                    }
                }
            }
            assert forall|o1: int, i1: int, o2: int, i2: int|
                0 <= o1 < MAX_ORDER && 0 <= o2 < MAX_ORDER && 0 <= i1 < nlists[o1].len() && 0 <= i2
                    < nlists[o2].len() && (o1 != o2 || i1 != i2) implies #[trigger] nlists[o1][i1]
                    != #[trigger] nlists[o2][i2] by {
                if o1 == order && i1 == 0 {
                    if o2 == order {
                        assert(nlists[o2][i2] == lists[o2][i2 - 1]);
                    } else {
                        assert(nlists[o2][i2] == lists[o2][i2]);
                    }
                } else if o2 == order && i2 == 0 {
                    if o1 == order {
                        assert(nlists[o1][i1] == lists[o1][i1 - 1]);
                    } else {
                        assert(nlists[o1][i1] == lists[o1][i1]);
                    }
                } else {
                    let j1 = if o1 == order { i1 - 1 } else { i1 };
                    let j2 = if o2 == order { i2 - 1 } else { i2 };
                    assert(nlists[o1][i1] == lists[o1][j1]);
                    assert(nlists[o2][i2] == lists[o2][j2]);
                }
            }
        }
    }
}

} // verus!

verus! {

/// Number of frames in a block of `order`.
pub open spec fn block_pages(order: nat) -> nat {
    pow2(order)
}

/// The frame `p` starts a block of `order`: it is a multiple of the block size.
pub open spec fn aligned(p: int, order: nat) -> bool {
    p % (block_pages(order) as int) == 0
}

/// The blocks `[p1, p1 + 2^o1)` and `[p2, p2 + 2^o2)` share no frame.
pub open spec fn disjoint(p1: int, o1: nat, p2: int, o2: nat) -> bool {
    p1 + block_pages(o1) <= p2 || p2 + block_pages(o2) <= p1
}

/// Block orders as shifts: `1 << o` is the block size, at most 1024 frames.
pub proof fn lemma_order_pages(o: usize)
    requires
        o < MAX_ORDER,
    ensures
        (1usize << o) == block_pages(o as nat),
        1 <= block_pages(o as nat) <= 1024,
        block_pages((o + 1) as nat) == 2 * block_pages(o as nat),
{
    lemma2_to64();
    lemma_usize_shl_is_mul(1, o);
    vstd::arithmetic::power2::lemma_pow2_unfold((o + 1) as nat);
}

/// Alignment to a block size is the same as clearing the low bits.
pub proof fn lemma_aligned_mask(p: usize, o: usize)
    requires
        o < MAX_ORDER,
    ensures
        aligned(p as int, o as nat) <==> p & (((1usize << o) - 1) as usize) == 0,
{
    lemma_order_pages(o);
    lemma2_to64();
    lemma_usize_low_bits_mask_is_mod(p, o as nat);
    assert(low_bits_mask(o as nat) == block_pages(o as nat) - 1);
}

/// Inside a block of order `o`, the buddy of the sub-block at `p` of order
/// `s < o` lies right after it.
pub proof fn lemma_split_buddy(p: usize, s: usize, o: usize)
    requires
        s < o < MAX_ORDER,
        aligned(p as int, o as nat),
    ensures
        p ^ (1usize << s) == p + block_pages(s as nat),
        aligned(p as int, s as nat),
        aligned(p + block_pages(s as nat), s as nat),
        block_pages(o as nat) >= 2 * block_pages(s as nat),
{
    lemma_aligned_mask(p, o);
    lemma_aligned_mask(p, s);
    lemma_order_pages(s);
    lemma_order_pages(o);
    assert(p ^ (1usize << s) == p + (1usize << s) && (p & (((1usize << s) - 1) as usize) == 0))
        by (bit_vector)
        requires
            s < o < 11,
            p & (((1usize << o) - 1) as usize) == 0,
    ;
    let q = (p + (1usize << s)) as usize;
    assert(q & (((1usize << s) - 1) as usize) == 0) by (bit_vector)
        requires
            s < o < 11,
            p & (((1usize << o) - 1) as usize) == 0,
            q == p + (1usize << s),
    ;
    lemma_aligned_mask(q, s);
    if s + 1 < o {
        vstd::arithmetic::power2::lemma_pow2_strictly_increases((s + 1) as nat, o as nat);
    }
    lemma_order_pages((s + 1) as usize);
}

/// The buddy of an aligned block of order `k` is its neighbour, and the lower
/// of the two starts a block of order `k + 1`.
pub proof fn lemma_merge_buddy(c: usize, k: usize)
    requires
        k + 1 < MAX_ORDER,
        aligned(c as int, k as nat),
    ensures
        ({
            let b = c ^ (1usize << k);
            ||| (b == c + block_pages(k as nat) && aligned(c as int, (k + 1) as nat))
            ||| (b + block_pages(k as nat) == c && aligned(b as int, (k + 1) as nat))
        }),
{
    lemma_aligned_mask(c, k);
    lemma_order_pages(k);
    lemma_order_pages((k + 1) as usize);
    let b = c ^ (1usize << k);
    assert(
        (b == c + (1usize << k) && c & (((1usize << ((k + 1) as usize)) - 1) as usize) == 0)
        || (b + (1usize << k) == c && b & (((1usize << ((k + 1) as usize)) - 1) as usize) == 0)
    ) by (bit_vector)
        requires
            k < 10,
            c & (((1usize << k) - 1) as usize) == 0,
            b == c ^ (1usize << k),
    ;
    lemma_aligned_mask(c, (k + 1) as usize);
    lemma_aligned_mask(b, (k + 1) as usize);
}

} // verus!

verus! {

/// A listed free block at `p` of order `o`: aligned, inside the managed
/// frames, and its head frame says so.
pub open spec fn entry_ok(meta: Seq<PageInfo>, p: usize, o: nat, total: nat) -> bool {
    &&& aligned(p as int, o)
    &&& p + block_pages(o) <= total
    &&& meta[p as int].head_bit()
    &&& meta[p as int].free_bit()
    &&& meta[p as int].order == o
}

/// Every block in the free lists is marked as a free head of its order.
pub open spec fn entries_ok(meta: Seq<PageInfo>, lists: Seq<Seq<usize>>, total: nat) -> bool {
    forall|o: int, i: int|
        0 <= o < MAX_ORDER && 0 <= i < lists[o].len() ==> entry_ok(meta, #[trigger] lists[o][i], o as nat, total)
}

/// No two listed free blocks overlap.
pub open spec fn lists_disjoint(lists: Seq<Seq<usize>>) -> bool {
    forall|o1: int, i1: int, o2: int, i2: int|
        0 <= o1 < MAX_ORDER && 0 <= o2 < MAX_ORDER && 0 <= i1 < lists[o1].len() && 0 <= i2
            < lists[o2].len() && (o1 != o2 || i1 != i2) ==> disjoint(
            #[trigger] lists[o1][i1] as int,
            o1 as nat,
            #[trigger] lists[o2][i2] as int,
            o2 as nat,
        )
}

/// Allocated blocks are aligned, inside the managed frames, and their head
/// frame is marked as an allocated head.
pub open spec fn alloc_ok(meta: Seq<PageInfo>, alloc: Map<usize, nat>, total: nat) -> bool {
    forall|a: usize| #[trigger] alloc.dom().contains(a) ==> {
        &&& alloc[a] < MAX_ORDER
        &&& aligned(a as int, alloc[a])
        &&& a + block_pages(alloc[a]) <= total
        &&& meta[a as int].head_bit()
        &&& !meta[a as int].free_bit()
        &&& meta[a as int].order == alloc[a]
    }
}

/// No two allocated blocks overlap.
pub open spec fn alloc_disjoint(alloc: Map<usize, nat>) -> bool {
    forall|a1: usize, a2: usize|
        #[trigger] alloc.dom().contains(a1) && #[trigger] alloc.dom().contains(a2) && a1 != a2 ==> disjoint(
            a1 as int,
            alloc[a1],
            a2 as int,
            alloc[a2],
        )
}

/// No free block overlaps an allocated one.
pub open spec fn free_alloc_disjoint(lists: Seq<Seq<usize>>, alloc: Map<usize, nat>) -> bool {
    forall|o: int, i: int, a: usize|
        0 <= o < MAX_ORDER && 0 <= i < lists[o].len() && #[trigger] alloc.dom().contains(a) ==> disjoint(
            #[trigger] lists[o][i] as int,
            o as nat,
            a as int,
            alloc[a],
        )
}

/// Outside `[lo, hi)`, every frame marked as a free head is listed under its
/// order and every frame marked as an allocated head is an allocated block.
pub open spec fn heads_accounted(meta: Seq<PageInfo>, lists: Seq<Seq<usize>>, alloc: Map<usize, nat>, lo: int, hi: int) -> bool {
    forall|q: int|
        0 <= q < meta.len() && !(lo <= q < hi) ==> {
            &&& (#[trigger] meta[q]).head_bit() && meta[q].free_bit() ==> meta[q].order < MAX_ORDER
                && lists[meta[q].order as int].contains(q as usize)
            &&& meta[q].head_bit() && !meta[q].free_bit() ==> alloc.dom().contains(q as usize)
        }
}

/// The frames `[lo, hi)` belong to no listed and no allocated block.
pub open spec fn region_clear(lists: Seq<Seq<usize>>, alloc: Map<usize, nat>, lo: int, hi: int) -> bool {
    &&& forall|o: int, i: int|
        0 <= o < MAX_ORDER && 0 <= i < lists[o].len() ==> #[trigger] lists[o][i] + block_pages(o as nat) <= lo
            || hi <= lists[o][i]
    &&& forall|a: usize| #[trigger] alloc.dom().contains(a) ==> a + block_pages(alloc[a]) <= lo || hi <= a
}

/// Which blocks an allocation may take.
#[derive(Clone, Copy)]
pub enum Placement {
    /// Any block.
    Anywhere,
    /// Only blocks whose requested part ends at or below this physical address.
    Below(usize),
}

/// Whether a block at frame `pfn` may serve a request of `order`.
pub open spec fn accepts(place: Placement, pfn: usize, order: nat) -> bool {
    match place {
        Placement::Anywhere => true,
        Placement::Below(limit) => pfn * PAGE_SIZE + block_pages(order) * PAGE_SIZE <= limit,
    }
}

/// Index of the first block at or after `k` in `l` that `place` accepts.
pub open spec fn first_fit(l: Seq<usize>, place: Placement, order: nat, k: int) -> Option<int>
    decreases l.len() - k,
{
    if k < 0 || k >= l.len() {
        None
    } else if accepts(place, l[k], order) {
        Some(k)
    } else {
        first_fit(l, place, order, k + 1)
    }
}

/// The block that serves a request of `order`: the first accepted block of
/// the smallest order at or above `o` that has one.
pub open spec fn choose_block(lists: Seq<Seq<usize>>, place: Placement, order: nat, o: nat) -> Option<(nat, int)>
    decreases MAX_ORDER - o,
{
    if o >= MAX_ORDER {
        None
    } else {
        match first_fit(lists[o as int], place, order, 0) {
            Some(i) => Some((o, i)),
            None => choose_block(lists, place, order, o + 1),
        }
    }
}

/// The free lists after taking the block at position `i` of the list of `o`
/// and splitting it down to `order`: the upper halves go to the front of the
/// lists of orders `order .. o`.
pub open spec fn split_lists(lists: Seq<Seq<usize>>, o: nat, i: int, pfn: usize, order: nat) -> Seq<Seq<usize>> {
    Seq::new(
        lists.len(),
        |s: int|
            if s == o {
                lists[s].remove(i)
            } else if order <= s < o {
                seq![(pfn + block_pages(s as nat)) as usize] + lists[s]
            } else {
                lists[s]
            },
    )
}

/// The outcome of an allocation request on the allocator state
/// `(lists, alloc)`: the result and the new state.
pub open spec fn alloc_outcome(
    lists: Seq<Seq<usize>>,
    alloc: Map<usize, nat>,
    order: nat,
    place: Placement,
    r: Option<usize>,
    new_lists: Seq<Seq<usize>>,
    new_alloc: Map<usize, nat>,
) -> bool {
    match choose_block(lists, place, order, order) {
        None => r is None && new_lists == lists && new_alloc == alloc,
        Some((o, i)) => {
            let pfn = lists[o as int][i];
            &&& r == Some((pfn * PAGE_SIZE) as usize)
            &&& new_lists == split_lists(lists, o, i, pfn, order)
            &&& new_alloc == alloc.insert(pfn, order)
        },
    }
}

/// The result and new state `(lists, alloc)` of an allocation request on
/// the state `(lists, alloc)`.
pub open spec fn alloc_fn(lists: Seq<Seq<usize>>, alloc: Map<usize, nat>, order: nat, place: Placement) -> (Option<usize>, Seq<Seq<usize>>, Map<usize, nat>) {
    match choose_block(lists, place, order, order) {
        None => (None, lists, alloc),
        Some((o, i)) => {
            let pfn = lists[o as int][i];
            (Some((pfn * PAGE_SIZE) as usize), split_lists(lists, o, i, pfn, order), alloc.insert(pfn, order))
        },
    }
}

/// The outcome of an allocation is the one `alloc_fn` gives.
pub proof fn lemma_alloc_outcome_fn(
    lists: Seq<Seq<usize>>,
    alloc: Map<usize, nat>,
    order: nat,
    place: Placement,
    r: Option<usize>,
    new_lists: Seq<Seq<usize>>,
    new_alloc: Map<usize, nat>,
)
    requires
        alloc_outcome(lists, alloc, order, place, r, new_lists, new_alloc),
    ensures
        (r, new_lists, new_alloc) == alloc_fn(lists, alloc, order, place),
{
}

impl BuddyAllocator {
    /// The allocator's invariant.
    pub closed spec fn wf(&self) -> bool {
        &&& linked(self.metadata@, self.free_heads@, self.lists@)
        &&& self.metadata@.len() == self.total_pages
        &&& self.total_pages * PAGE_SIZE <= usize::MAX
        &&& entries_ok(self.metadata@, self.lists@, self.total_pages as nat)
        &&& lists_disjoint(self.lists@)
        &&& alloc_ok(self.metadata@, self.allocated@, self.total_pages as nat)
        &&& alloc_disjoint(self.allocated@)
        &&& free_alloc_disjoint(self.lists@, self.allocated@)
        &&& heads_accounted(self.metadata@, self.lists@, self.allocated@, 0, 0)
    }

    /// Sets order, head bit and free bit of every frame of the block
    /// `[start, start + 2^order)`, and clears their links when asked.
    fn mark_block(&mut self, start: usize, order: usize, free: bool, clear_links: bool)
        requires
            order < MAX_ORDER,
            start + block_pages(order as nat) <= old(self).metadata@.len(),
        ensures
            final(self).metadata@.len() == old(self).metadata@.len(),
            final(self).free_heads == old(self).free_heads,
            final(self).lists == old(self).lists,
            final(self).allocated == old(self).allocated,
            final(self).total_pages == old(self).total_pages,
            forall|q: int|
                0 <= q < old(self).metadata@.len() ==> {
                    let m = #[trigger] final(self).metadata@[q];
                    let m0 = old(self).metadata@[q];
                    if start <= q < start + block_pages(order as nat) {
                        &&& m.order == order
                        &&& m.head_bit() == (q == start)
                        &&& m.free_bit() == free
                        &&& m.next == if clear_links { 0u32 } else { m0.next }
                        &&& m.prev == if clear_links { 0u32 } else { m0.prev }
                    } else {
                        m == m0
                    }
                },
    {
        proof {
            lemma_order_pages(order);
        }
        let n = 1usize << order;
        let len = self.metadata.len();
        let mut i: usize = 0;
        while i < n
            invariant
                order < MAX_ORDER,
                len == old(self).metadata@.len(),
                n == block_pages(order as nat),
                start + n <= old(self).metadata@.len(),
                i <= n,
                self.metadata@.len() == old(self).metadata@.len(),
                self.free_heads == old(self).free_heads,
                self.lists == old(self).lists,
                self.allocated == old(self).allocated,
                self.total_pages == old(self).total_pages,
                forall|q: int|
                    0 <= q < old(self).metadata@.len() ==> {
                        let m = #[trigger] self.metadata@[q];
                        let m0 = old(self).metadata@[q];
                        if start <= q < start + i {
                            &&& m.order == order
                            &&& m.head_bit() == (q == start)
                            &&& m.free_bit() == free
                            &&& m.next == if clear_links { 0u32 } else { m0.next }
                            &&& m.prev == if clear_links { 0u32 } else { m0.prev }
                        } else {
                            m == m0
                        }
                    },
            decreases n - i,
        {
            let mut p = self.metadata[start + i];
            p.order = order as u8;
            p.set_head(i == 0);
            p.set_free(free);
            if clear_links {
                p.set_next(None);
                p.set_prev(None);
            }
            self.metadata.set(start + i, p);
            i = i + 1;
        }
    }

    /// Whether a block at frame `pfn` may serve a request of `order`.
    fn accepts_block(place: Placement, pfn: usize, order: usize) -> (b: bool)
        requires
            pfn * PAGE_SIZE <= usize::MAX,
            order < MAX_ORDER,
        ensures
            b == accepts(place, pfn, order as nat),
    {
        match place {
            Placement::Anywhere => true,
            Placement::Below(limit) => {
                proof {
                    lemma_order_pages(order);
                }
                let start = pfn * PAGE_SIZE;
                let size = (1usize << order) * PAGE_SIZE;
                match start.checked_add(size) {
                    Some(end) => end <= limit,
                    None => false,
                }
            },
        }
    }

    /// The first block in the list of `list_order` that `place` accepts for a
    /// request of `order`, with its position.
    fn find_free(&self, list_order: usize, order: usize, place: Placement) -> (r: Option<(usize, Ghost<int>)>)
        requires
            self.wf(),
            list_order < MAX_ORDER,
            order < MAX_ORDER,
        ensures
            match first_fit(self.lists@[list_order as int], place, order as nat, 0) {
                None => r is None,
                Some(i) => r matches Some((pfn, gi)) && gi@ == i && pfn == self.lists@[list_order as int][i],
            },
    {
        let ghost l = self.lists@[list_order as int];
        let mut current = self.free_heads[list_order];
        let ghost mut k: int = 0;
        loop
            invariant
                self.wf(),
                list_order < MAX_ORDER,
                order < MAX_ORDER,
                l == self.lists@[list_order as int],
                0 <= k <= l.len(),
                current == (if k < l.len() { Some(l[k]) } else { None::<usize> }),
                first_fit(l, place, order as nat, 0) == first_fit(l, place, order as nat, k),
            decreases l.len() - k,
        {
            match current {
                None => {
                    return None;
                },
                Some(pfn) => {
                    assert(l[k] < self.total_pages);
                    if Self::accepts_block(place, pfn, order) {
                        return Some((pfn, Ghost(k)));
                    }
                    current = self.metadata[pfn].next();
                    proof {
                        k = k + 1;
                    }
                },
            }
        }
    }
}

} // verus!

verus! {

broadcast use vstd::arithmetic::power2::lemma_pow2_pos;

/// Frame `q` has the same order and flags in both metadata arrays.
pub open spec fn same_at(m1: Seq<PageInfo>, m2: Seq<PageInfo>, q: int) -> bool {
    m1[q].order == m2[q].order && m1[q].flags == m2[q].flags
}

/// The block invariants with the frames `[lo, hi)` set aside.
pub open spec fn blocks_except(meta: Seq<PageInfo>, lists: Seq<Seq<usize>>, alloc: Map<usize, nat>, total: nat, lo: int, hi: int) -> bool {
    &&& entries_ok(meta, lists, total)
    &&& lists_disjoint(lists)
    &&& alloc_ok(meta, alloc, total)
    &&& alloc_disjoint(alloc)
    &&& free_alloc_disjoint(lists, alloc)
    &&& region_clear(lists, alloc, lo, hi)
    &&& heads_accounted(meta, lists, alloc, lo, hi)
}

/// Taking the listed block at position `idx` of the list of `o` out of its list
/// and marking its head allocated leaves its frames set aside.
#[verifier::spinoff_prover]
#[verifier::rlimit(60)]
proof fn lemma_taken(
    meta0: Seq<PageInfo>, meta: Seq<PageInfo>, heads: Seq<Option<usize>>,
    l0: Seq<Seq<usize>>, l1: Seq<Seq<usize>>, alloc: Map<usize, nat>, total: nat,
    o: int, idx: int, pfn: usize,
)
    requires
        0 <= o < MAX_ORDER,
        l0.len() == MAX_ORDER,
        0 <= idx < l0[o].len(),
        l0[o][idx] == pfn,
        l1 == l0.update(o, l0[o].remove(idx)),
        meta0.len() == total,
        meta.len() == total,
        forall|q: int| 0 <= q < total && q != pfn ==> #[trigger] same_at(meta, meta0, q),
        meta[pfn as int].order == meta0[pfn as int].order,
        meta[pfn as int].head_bit(),
        !meta[pfn as int].free_bit(),
        linked(meta0, heads, l0),
        entries_ok(meta0, l0, total),
        lists_disjoint(l0),
        alloc_ok(meta0, alloc, total),
        alloc_disjoint(alloc),
        free_alloc_disjoint(l0, alloc),
        heads_accounted(meta0, l0, alloc, 0, 0),
    ensures
        blocks_except(meta, l1, alloc, total, pfn as int, pfn + block_pages(o as nat)),
{
    assert forall|s: int, j: int| 0 <= s < MAX_ORDER && 0 <= j < l1[s].len() implies
        #[trigger] l1[s][j] == l0[s][if s == o && j >= idx { j + 1 } else { j }] && l1[s][j] != pfn by {
    }
    assert(entries_ok(meta, l1, total)) by {
        assert forall|s: int, j: int| 0 <= s < MAX_ORDER && 0 <= j < l1[s].len() implies
            entry_ok(meta, #[trigger] l1[s][j], s as nat, total) by {
            let jj = if s == o && j >= idx { j + 1 } else { j };
            assert(l1[s][j] == l0[s][jj]);
            assert(entry_ok(meta0, l0[s][jj], s as nat, total));
            assert(same_at(meta, meta0, l0[s][jj] as int));
        }
    }
    assert(lists_disjoint(l1)) by {
        assert forall|o1: int, i1: int, o2: int, i2: int|
            0 <= o1 < MAX_ORDER && 0 <= o2 < MAX_ORDER && 0 <= i1 < l1[o1].len() && 0 <= i2
                < l1[o2].len() && (o1 != o2 || i1 != i2) implies disjoint(
                #[trigger] l1[o1][i1] as int, o1 as nat, #[trigger] l1[o2][i2] as int, o2 as nat) by {
            let j1 = if o1 == o && i1 >= idx { i1 + 1 } else { i1 };
            let j2 = if o2 == o && i2 >= idx { i2 + 1 } else { i2 };
            assert(l1[o1][i1] == l0[o1][j1]);
            assert(l1[o2][i2] == l0[o2][j2]);
        }
    }
    assert(region_clear(l1, alloc, pfn as int, pfn + block_pages(o as nat))) by {
        assert forall|s: int, j: int| 0 <= s < MAX_ORDER && 0 <= j < l1[s].len() implies
            #[trigger] l1[s][j] + block_pages(s as nat) <= pfn || pfn + block_pages(o as nat) <= l1[s][j] by {
            let jj = if s == o && j >= idx { j + 1 } else { j };
            assert(l1[s][j] == l0[s][jj]);
            assert(disjoint(l0[s][jj] as int, s as nat, l0[o][idx] as int, o as nat));
        }
        assert forall|a: usize| #[trigger] alloc.dom().contains(a) implies
            a + block_pages(alloc[a]) <= pfn || pfn + block_pages(o as nat) <= a by {
            assert(disjoint(l0[o][idx] as int, o as nat, a as int, alloc[a]));
        }
    }
    assert(free_alloc_disjoint(l1, alloc)) by {
        assert forall|s: int, j: int, a: usize|
            0 <= s < MAX_ORDER && 0 <= j < l1[s].len() && #[trigger] alloc.dom().contains(a) implies disjoint(
                #[trigger] l1[s][j] as int, s as nat, a as int, alloc[a]) by {
            let jj = if s == o && j >= idx { j + 1 } else { j };
            assert(l1[s][j] == l0[s][jj]);
        }
    }
    assert(alloc_ok(meta, alloc, total)) by {
        assert forall|a: usize| #[trigger] alloc.dom().contains(a) implies same_at(meta, meta0, a as int) by {
            assert(disjoint(l0[o][idx] as int, o as nat, a as int, alloc[a]));
        }
    }
    assert(heads_accounted(meta, l1, alloc, pfn as int, pfn + block_pages(o as nat))) by {
        assert forall|q: int| 0 <= q < meta.len() && !(pfn <= q < pfn + block_pages(o as nat)) implies {
            &&& (#[trigger] meta[q]).head_bit() && meta[q].free_bit() ==> meta[q].order < MAX_ORDER
                && l1[meta[q].order as int].contains(q as usize)
            &&& meta[q].head_bit() && !meta[q].free_bit() ==> alloc.dom().contains(q as usize)
        } by {
            assert(same_at(meta, meta0, q));
            if meta[q].head_bit() && meta[q].free_bit() {
                let s = meta[q].order as int;
                assert(heads_accounted(meta0, l0, alloc, 0, 0));
                assert(l0[s].contains(q as usize));
                let j = choose|j: int| 0 <= j < l0[s].len() && l0[s][j] == q as usize;
                if s == o {
                    assert(j != idx);
                    let jn = if j > idx { j - 1 } else { j };
                    assert(l1[s][jn] == q as usize);
                } else {
                    assert(l1[s][j] == q as usize);
                }
            }
        }
    }
}

/// Splitting the upper half `[buddy, buddy + 2^split)` off the set-aside
/// region `[pfn, pfn + 2^(split+1))` and listing it as a free block of
/// `split` leaves `[pfn, pfn + 2^split)` set aside.
#[verifier::spinoff_prover]
#[verifier::rlimit(60)]
proof fn lemma_split_step(
    meta_b: Seq<PageInfo>, meta: Seq<PageInfo>,
    lists_b: Seq<Seq<usize>>, lists: Seq<Seq<usize>>, alloc: Map<usize, nat>, total: nat,
    pfn: usize, split: int, buddy: usize,
)
    requires
        0 <= split,
        split + 1 < MAX_ORDER,
        lists_b.len() == MAX_ORDER,
        buddy == pfn + block_pages(split as nat),
        block_pages((split + 1) as nat) == 2 * block_pages(split as nat),
        block_pages(split as nat) >= 1,
        aligned(buddy as int, split as nat),
        buddy + block_pages(split as nat) <= total,
        lists == lists_b.update(split, seq![buddy] + lists_b[split]),
        meta_b.len() == total,
        meta.len() == total,
        forall|q: int| 0 <= q < total && !(buddy <= q < buddy + block_pages(split as nat)) ==> #[trigger] same_at(meta, meta_b, q),
        forall|q: int| buddy <= q < buddy + block_pages(split as nat) ==> {
            &&& (#[trigger] meta[q]).order == split
            &&& meta[q].head_bit() == (q == buddy)
            &&& meta[q].free_bit()
        },
        blocks_except(meta_b, lists_b, alloc, total, pfn as int, pfn + block_pages((split + 1) as nat)),
    ensures
        blocks_except(meta, lists, alloc, total, pfn as int, pfn + block_pages(split as nat)),
{
    let bp = block_pages(split as nat);
    assert forall|s: int, j: int| 0 <= s < MAX_ORDER && 0 <= j < lists[s].len() && !(s == split && j == 0) implies
        #[trigger] lists[s][j] == lists_b[s][if s == split { j - 1 } else { j }] by {
    }
    assert(entries_ok(meta, lists, total)) by {
        assert forall|s: int, j: int| 0 <= s < MAX_ORDER && 0 <= j < lists[s].len() implies
            entry_ok(meta, #[trigger] lists[s][j], s as nat, total) by {
            if s == split && j == 0 {
                assert(lists[s][j] == buddy);
            } else {
                let jj = if s == split { j - 1 } else { j };
                assert(lists[s][j] == lists_b[s][jj]);
                assert(entry_ok(meta_b, lists_b[s][jj], s as nat, total));
                assert(same_at(meta, meta_b, lists_b[s][jj] as int));
            }
        }
    }
    assert(lists_disjoint(lists)) by {
        assert forall|o1: int, i1: int, o2: int, i2: int|
            0 <= o1 < MAX_ORDER && 0 <= o2 < MAX_ORDER && 0 <= i1 < lists[o1].len() && 0 <= i2
                < lists[o2].len() && (o1 != o2 || i1 != i2) implies disjoint(
                #[trigger] lists[o1][i1] as int, o1 as nat, #[trigger] lists[o2][i2] as int, o2 as nat) by {
            let j1 = if o1 == split { i1 - 1 } else { i1 };
            let j2 = if o2 == split { i2 - 1 } else { i2 };
            if o1 == split && i1 == 0 {
                assert(lists[o2][i2] == lists_b[o2][j2]);
            } else if o2 == split && i2 == 0 {
                assert(lists[o1][i1] == lists_b[o1][j1]);
            } else {
                assert(lists[o1][i1] == lists_b[o1][j1]);
                assert(lists[o2][i2] == lists_b[o2][j2]);
            }
        }
    }
    assert(alloc_ok(meta, alloc, total)) by {
        assert forall|a: usize| #[trigger] alloc.dom().contains(a) implies same_at(meta, meta_b, a as int) by {
        }
    }
    assert(free_alloc_disjoint(lists, alloc)) by {
        assert forall|s: int, j: int, a: usize|
            0 <= s < MAX_ORDER && 0 <= j < lists[s].len() && #[trigger] alloc.dom().contains(a) implies disjoint(
                #[trigger] lists[s][j] as int, s as nat, a as int, alloc[a]) by {
            if !(s == split && j == 0) {
                let jj = if s == split { j - 1 } else { j };
                assert(lists[s][j] == lists_b[s][jj]);
            }
        }
    }
    assert(region_clear(lists, alloc, pfn as int, pfn + bp)) by {
        assert forall|s: int, j: int| 0 <= s < MAX_ORDER && 0 <= j < lists[s].len() implies
            #[trigger] lists[s][j] + block_pages(s as nat) <= pfn || pfn + bp <= lists[s][j] by {
            if !(s == split && j == 0) {
                let jj = if s == split { j - 1 } else { j };
                assert(lists[s][j] == lists_b[s][jj]);
            }
        }
    }
    assert(heads_accounted(meta, lists, alloc, pfn as int, pfn + bp)) by {
        assert forall|q: int| 0 <= q < meta.len() && !(pfn <= q < pfn + bp) implies {
            &&& (#[trigger] meta[q]).head_bit() && meta[q].free_bit() ==> meta[q].order < MAX_ORDER
                && lists[meta[q].order as int].contains(q as usize)
            &&& meta[q].head_bit() && !meta[q].free_bit() ==> alloc.dom().contains(q as usize)
        } by {
            if q == buddy {
                assert(lists[split][0] == q as usize);
            } else if buddy < q < buddy + bp {
            } else {
                assert(same_at(meta, meta_b, q));
                if meta[q].head_bit() && meta[q].free_bit() {
                    let s = meta[q].order as int;
                    let j = choose|j: int| 0 <= j < lists_b[s].len() && lists_b[s][j] == q as usize;
                    if s == split {
                        assert(lists[s][j + 1] == q as usize);
                    } else {
                        assert(lists[s][j] == q as usize);
                    }
                }
            }
        }
    }
}

/// Marking the set-aside block `[pfn, pfn + 2^order)` allocated restores the
/// block invariants with the block recorded as allocated.
#[verifier::spinoff_prover]
#[verifier::rlimit(60)]
proof fn lemma_claimed(
    meta_f: Seq<PageInfo>, meta: Seq<PageInfo>,
    lists: Seq<Seq<usize>>, alloc0: Map<usize, nat>, total: nat,
    pfn: usize, order: nat,
)
    requires
        order < MAX_ORDER,
        lists.len() == MAX_ORDER,
        aligned(pfn as int, order),
        pfn + block_pages(order) <= total,
        block_pages(order) >= 1,
        meta_f.len() == total,
        meta.len() == total,
        forall|q: int| 0 <= q < total && !(pfn <= q < pfn + block_pages(order)) ==> #[trigger] meta[q] == meta_f[q],
        forall|q: int| pfn <= q < pfn + block_pages(order) ==> {
            &&& (#[trigger] meta[q]).order == order
            &&& meta[q].head_bit() == (q == pfn)
            &&& !meta[q].free_bit()
        },
        blocks_except(meta_f, lists, alloc0, total, pfn as int, pfn + block_pages(order)),
    ensures
        blocks_except(meta, lists, alloc0.insert(pfn, order), total, 0, 0),
{
    let bp = block_pages(order);
    let alloc = alloc0.insert(pfn, order);
    assert(entries_ok(meta, lists, total)) by {
        assert forall|s: int, j: int| 0 <= s < MAX_ORDER && 0 <= j < lists[s].len() implies
            entry_ok(meta, #[trigger] lists[s][j], s as nat, total) by {
            assert(meta[lists[s][j] as int] == meta_f[lists[s][j] as int]);
        }
    }
    assert(alloc_ok(meta, alloc, total)) by {
        assert forall|a: usize| #[trigger] alloc.dom().contains(a) implies {
            &&& alloc[a] < MAX_ORDER
            &&& aligned(a as int, alloc[a])
            &&& a + block_pages(alloc[a]) <= total
            &&& meta[a as int].head_bit()
            &&& !meta[a as int].free_bit()
            &&& meta[a as int].order == alloc[a]
        } by {
            if a != pfn {
                assert(alloc0.dom().contains(a));
                assert(meta[a as int] == meta_f[a as int]);
            }
        }
    }
    assert(alloc_disjoint(alloc)) by {
        assert forall|a1: usize, a2: usize|
            #[trigger] alloc.dom().contains(a1) && #[trigger] alloc.dom().contains(a2) && a1 != a2 implies disjoint(
                a1 as int, alloc[a1], a2 as int, alloc[a2]) by {
            if a1 != pfn && a2 != pfn {
                assert(alloc0.dom().contains(a1) && alloc0.dom().contains(a2));
            } else if a1 == pfn {
                assert(alloc0.dom().contains(a2));
            } else {
                assert(alloc0.dom().contains(a1));
            }
        }
    }
    assert(free_alloc_disjoint(lists, alloc)) by {
        assert forall|s: int, j: int, a: usize|
            0 <= s < MAX_ORDER && 0 <= j < lists[s].len() && #[trigger] alloc.dom().contains(a) implies disjoint(
                #[trigger] lists[s][j] as int, s as nat, a as int, alloc[a]) by {
            if a != pfn {
                assert(alloc0.dom().contains(a));
            }
        }
    }
    assert(heads_accounted(meta, lists, alloc, 0, 0)) by {
        assert forall|q: int| 0 <= q < meta.len() && !(0 <= q < 0) implies {
            &&& (#[trigger] meta[q]).head_bit() && meta[q].free_bit() ==> meta[q].order < MAX_ORDER
                && lists[meta[q].order as int].contains(q as usize)
            &&& meta[q].head_bit() && !meta[q].free_bit() ==> alloc.dom().contains(q as usize)
        } by {
            if !(pfn <= q < pfn + bp) {
                assert(meta[q] == meta_f[q]);
            }
        }
    }
}

/// Metadata changes that keep every listed frame's links keep the lists linked.
proof fn lemma_links_kept(meta0: Seq<PageInfo>, meta: Seq<PageInfo>, heads: Seq<Option<usize>>, lists: Seq<Seq<usize>>)
    requires
        linked(meta0, heads, lists),
        meta.len() == meta0.len(),
        forall|o: int, i: int| 0 <= o < MAX_ORDER && 0 <= i < lists[o].len() ==>
            meta[#[trigger] lists[o][i] as int].next == meta0[lists[o][i] as int].next
            && meta[lists[o][i] as int].prev == meta0[lists[o][i] as int].prev,
    ensures
        linked(meta, heads, lists),
{
}

impl BuddyAllocator {
    /// Lists the upper half `[pfn + 2^split, pfn + 2^(split+1))` of the
    /// set-aside region as a free block of `split`.
    #[verifier::spinoff_prover]
    #[verifier::rlimit(60)]
    fn split_off_buddy(&mut self, pfn: usize, split: usize, Ghost(total): Ghost<nat>)
        requires
            split + 1 < MAX_ORDER,
            aligned(pfn as int, (split + 1) as nat),
            pfn + block_pages((split + 1) as nat) <= total,
            total == old(self).total_pages,
            old(self).metadata@.len() == total,
            linked(old(self).metadata@, old(self).free_heads@, old(self).lists@),
            blocks_except(old(self).metadata@, old(self).lists@, old(self).allocated@, total, pfn as int, pfn + block_pages((split + 1) as nat)),
        ensures
            final(self).total_pages == old(self).total_pages,
            final(self).allocated == old(self).allocated,
            final(self).metadata@.len() == total,
            linked(final(self).metadata@, final(self).free_heads@, final(self).lists@),
            final(self).lists@ == old(self).lists@.update(split as int, seq![(pfn + block_pages(split as nat)) as usize] + old(self).lists@[split as int]),
            blocks_except(final(self).metadata@, final(self).lists@, final(self).allocated@, total, pfn as int, pfn + block_pages(split as nat)),
    {
        proof {
            lemma_split_buddy(pfn, split, (split + 1) as usize);
            lemma_order_pages(split);
        }
        let buddy_pfn = pfn ^ (1usize << split);
        let ghost lists_b = self.lists@;
        let ghost meta_b = self.metadata@;
        let ghost alloc0 = self.allocated@;
        self.mark_block(buddy_pfn, split, true, false);
        proof {
            lemma_links_kept(meta_b, self.metadata@, self.free_heads@, lists_b);
            assert forall|s: int, j: int| 0 <= s < MAX_ORDER && 0 <= j < lists_b[s].len() implies
                #[trigger] lists_b[s][j] != buddy_pfn by {
            }
        }
        let ghost meta_m = self.metadata@;
        self.push_free(buddy_pfn, split);
        proof {
            assert forall|q: int| 0 <= q < total && !(buddy_pfn <= q < buddy_pfn + block_pages(split as nat)) implies
                #[trigger] same_at(self.metadata@, meta_b, q) by {
                assert(meta_m[q] == meta_b[q]);
                assert(q != buddy_pfn);
                assert(0 <= q < meta_m.len());
                assert(self.metadata@[q].order == meta_m[q].order);
                assert(self.metadata@[q].flags == meta_m[q].flags);
            }
            lemma_split_step(meta_b, self.metadata@, lists_b, self.lists@, alloc0, total, pfn, split as int, buddy_pfn);
        }
    }

    /// Takes the free block at position `idx` of the list of `o`, splits it
    /// down to `order` and marks the lower part allocated.
    #[verifier::spinoff_prover]
    #[verifier::rlimit(100)]
    fn take_block(&mut self, pfn: usize, o: usize, Ghost(idx): Ghost<int>, order: usize) -> (r: usize)
        requires
            old(self).wf(),
            order <= o < MAX_ORDER,
            0 <= idx < old(self).lists@[o as int].len(),
            old(self).lists@[o as int][idx] == pfn,
        ensures
            final(self).wf(),
            r == pfn * PAGE_SIZE,
            final(self).lists@ == split_lists(old(self).lists@, o as nat, idx, pfn, order as nat),
            final(self).allocated@ == old(self).allocated@.insert(pfn, order as nat),
            final(self).total_pages == old(self).total_pages,
    {
        let ghost l0 = self.lists@;
        let ghost alloc0 = self.allocated@;
        let ghost total = self.total_pages as nat;
        let ghost meta0 = self.metadata@;
        let ghost heads0 = self.free_heads@;
        assert(entry_ok(meta0, pfn, o as nat, total));
        self.remove_from_free(pfn, o, Ghost(idx));
        let ghost l1 = self.lists@;
        let ghost meta_r = self.metadata@;
        let mut p = self.metadata[pfn];
        p.set_free(false);
        p.set_next(None);
        p.set_prev(None);
        self.metadata.set(pfn, p);
        proof {
            assert forall|s: int, j: int| 0 <= s < MAX_ORDER && 0 <= j < l1[s].len() implies
                #[trigger] l1[s][j] != pfn by {
                let jj = if s == o && j >= idx { j + 1 } else { j };
                assert(l1[s][j] == l0[s][jj]);
            }
            lemma_links_kept(meta_r, self.metadata@, self.free_heads@, l1);
            assert forall|q: int| 0 <= q < total && q != pfn implies #[trigger] same_at(self.metadata@, meta0, q) by {
                assert(same_at(meta0, meta_r, q));
            }
            assert(same_at(meta0, meta_r, pfn as int));
            lemma_taken(meta0, self.metadata@, heads0, l0, l1, alloc0, total, o as int, idx, pfn);
        }
        let mut split = o;
        while split > order
            invariant
                order <= split <= o < MAX_ORDER,
                aligned(pfn as int, o as nat),
                pfn + block_pages(o as nat) <= total,
                total == self.total_pages,
                self.metadata@.len() == total,
                self.total_pages * PAGE_SIZE <= usize::MAX,
                self.allocated@ == alloc0,
                linked(self.metadata@, self.free_heads@, self.lists@),
                self.lists@.len() == MAX_ORDER,
                forall|s: int| 0 <= s < MAX_ORDER ==> #[trigger] self.lists@[s] == if split <= s < o {
                    seq![(pfn + block_pages(s as nat)) as usize] + l1[s]
                } else {
                    l1[s]
                },
                blocks_except(self.metadata@, self.lists@, alloc0, total, pfn as int, pfn + block_pages(split as nat)),
            decreases split,
        {
            split = split - 1;
            proof {
                lemma_order_pages(split);
                if split + 1 < o {
                    lemma_split_buddy(pfn, (split + 1) as usize, o);
                    vstd::arithmetic::power2::lemma_pow2_strictly_increases((split + 1) as nat, o as nat);
                }
            }
            let ghost lists_b = self.lists@;
            self.split_off_buddy(pfn, split, Ghost(total));
            proof {
                assert forall|s: int| 0 <= s < MAX_ORDER implies #[trigger] self.lists@[s] == if split <= s < o {
                    seq![(pfn + block_pages(s as nat)) as usize] + l1[s]
                } else {
                    l1[s]
                } by {
                }
            }
        }
        let ghost lists_f = self.lists@;
        let ghost meta_f = self.metadata@;
        proof {
            lemma_order_pages(order);
            if order < o {
                lemma_split_buddy(pfn, order, o);
                vstd::arithmetic::power2::lemma_pow2_strictly_increases(order as nat, o as nat);
            }
        }
        self.mark_block(pfn, order, false, false);
        proof {
            lemma_links_kept(meta_f, self.metadata@, self.free_heads@, lists_f);
            lemma_claimed(meta_f, self.metadata@, lists_f, alloc0, total, pfn, order as nat);
            self.allocated@ = alloc0.insert(pfn, order as nat);
            assert(self.lists@ =~= split_lists(l0, o as nat, idx, pfn, order as nat));
        }
        pfn * PAGE_SIZE
    }
}

} // verus!

verus! {

/// A position found by `first_fit` is an accepted position of the list.
pub proof fn lemma_first_fit(l: Seq<usize>, place: Placement, order: nat, k: int)
    requires
        0 <= k,
    ensures
        first_fit(l, place, order, k) matches Some(i) ==> k <= i < l.len() && accepts(place, l[i], order),
    decreases l.len() - k,
{
    if k < l.len() && !accepts(place, l[k], order) {
        lemma_first_fit(l, place, order, k + 1);
    }
}

impl BuddyAllocator {
    /// Serves a request for 2^order frames from the first block that `place`
    /// accepts, looking at the smallest order first.
    fn allocate_where(&mut self, order: usize, place: Placement) -> (r: Option<usize>)
        requires
            old(self).wf(),
        ensures
            final(self).wf(),
            final(self).total_pages == old(self).total_pages,
            order >= MAX_ORDER ==> r is None && final(self).lists@ == old(self).lists@
                && final(self).allocated@ == old(self).allocated@,
            order < MAX_ORDER ==> alloc_outcome(old(self).lists@, old(self).allocated@, order as nat, place, r,
                final(self).lists@, final(self).allocated@),
    {
        if order >= MAX_ORDER {
            return None;
        }
        let mut o = order;
        while o < MAX_ORDER
            invariant
                self.wf(),
                order <= o <= MAX_ORDER,
                order < MAX_ORDER,
                self.lists == old(self).lists,
                self.allocated == old(self).allocated,
                self.total_pages == old(self).total_pages,
                choose_block(self.lists@, place, order as nat, order as nat)
                    == choose_block(self.lists@, place, order as nat, o as nat),
            decreases MAX_ORDER - o,
        {
            match self.find_free(o, order, place) {
                Some((pfn, gidx)) => {
                    proof {
                        lemma_first_fit(self.lists@[o as int], place, order as nat, 0);
                    }
                    let r = self.take_block(pfn, o, gidx, order);
                    return Some(r);
                },
                None => {},
            }
            o = o + 1;
        }
        None
    }

    /// Allocates 2^order contiguous frames and returns the physical address
    /// of the first; `None` when no free block of that order or above exists.
    pub fn allocate(&mut self, order: usize) -> (r: Option<usize>)
        requires
            old(self).wf(),
        ensures
            final(self).wf(),
            final(self).total() == old(self).total(),
            order >= MAX_ORDER ==> r is None && final(self).free_lists() == old(self).free_lists()
                && final(self).allocated_blocks() == old(self).allocated_blocks(),
            order < MAX_ORDER ==> alloc_outcome(old(self).free_lists(), old(self).allocated_blocks(), order as nat,
                Placement::Anywhere, r, final(self).free_lists(), final(self).allocated_blocks()),
    {
        self.allocate_where(order, Placement::Anywhere)
    }

    /// Allocates 2^order contiguous frames that all lie below the physical
    /// address `limit`.
    pub fn allocate_below(&mut self, order: usize, limit: usize) -> (r: Option<usize>)
        requires
            old(self).wf(),
        ensures
            final(self).wf(),
            final(self).total() == old(self).total(),
            order >= MAX_ORDER ==> r is None && final(self).free_lists() == old(self).free_lists()
                && final(self).allocated_blocks() == old(self).allocated_blocks(),
            order < MAX_ORDER ==> alloc_outcome(old(self).free_lists(), old(self).allocated_blocks(), order as nat,
                Placement::Below(limit), r, final(self).free_lists(), final(self).allocated_blocks()),
    {
        self.allocate_where(order, Placement::Below(limit))
    }
}

} // verus!

verus! {

/// The buddy of the block at `cur` of `order`: the neighbour it merges with.
pub open spec fn buddy_of(cur: usize, order: nat) -> usize {
    cur ^ (1usize << (order as usize))
}

/// Coalescing a freed block at `cur` of `order` with free buddies: while the
/// buddy is a listed free block of the same order, it leaves its list and the
/// two form a block of the next order. Gives the lists and the final block.
pub open spec fn merge_spec(lists: Seq<Seq<usize>>, cur: usize, order: nat, total: nat) -> (Seq<Seq<usize>>, usize, nat)
    decreases MAX_ORDER - order,
{
    if order + 1 >= MAX_ORDER {
        (lists, cur, order)
    } else {
        let b = buddy_of(cur, order);
        if b >= total || !lists[order as int].contains(b) {
            (lists, cur, order)
        } else {
            merge_spec(
                lists.update(order as int, lists[order as int].remove(lists[order as int].index_of(b))),
                if b < cur { b } else { cur },
                order + 1,
                total,
            )
        }
    }
}

/// The state after freeing the allocated block whose first frame is `pfn`.
pub open spec fn free_outcome(
    lists: Seq<Seq<usize>>,
    alloc: Map<usize, nat>,
    total: nat,
    pfn: usize,
    new_lists: Seq<Seq<usize>>,
    new_alloc: Map<usize, nat>,
) -> bool {
    let (ls, c, o) = merge_spec(lists, pfn, alloc[pfn], total);
    &&& new_lists == ls.update(o as int, seq![c] + ls[o as int])
    &&& new_alloc == alloc.remove(pfn)
}

/// Releasing the allocated block at `pfn` sets its frames aside.
#[verifier::spinoff_prover]
#[verifier::rlimit(60)]
proof fn lemma_released(meta: Seq<PageInfo>, lists: Seq<Seq<usize>>, alloc: Map<usize, nat>, total: nat, pfn: usize)
    requires
        lists.len() == MAX_ORDER,
        meta.len() == total,
        total <= usize::MAX,
        alloc.dom().contains(pfn),
        blocks_except(meta, lists, alloc, total, 0, 0),
    ensures
        blocks_except(meta, lists, alloc.remove(pfn), total, pfn as int, pfn + block_pages(alloc[pfn])),
{
    let a1 = alloc.remove(pfn);
    let bp = block_pages(alloc[pfn]);
    assert(alloc_ok(meta, a1, total)) by {
        assert forall|a: usize| #[trigger] a1.dom().contains(a) implies alloc.dom().contains(a) by {
        }
    }
    assert(alloc_disjoint(a1)) by {
        assert forall|x: usize, y: usize| #[trigger] a1.dom().contains(x) && #[trigger] a1.dom().contains(y) && x != y implies
            disjoint(x as int, a1[x], y as int, a1[y]) by {
            assert(alloc.dom().contains(x) && alloc.dom().contains(y));
        }
    }
    assert(free_alloc_disjoint(lists, a1)) by {
        assert forall|s: int, j: int, a: usize|
            0 <= s < MAX_ORDER && 0 <= j < lists[s].len() && #[trigger] a1.dom().contains(a) implies disjoint(
                #[trigger] lists[s][j] as int, s as nat, a as int, a1[a]) by {
            assert(alloc.dom().contains(a));
        }
    }
    assert(region_clear(lists, a1, pfn as int, pfn + bp)) by {
        assert forall|s: int, j: int| 0 <= s < MAX_ORDER && 0 <= j < lists[s].len() implies
            #[trigger] lists[s][j] + block_pages(s as nat) <= pfn || pfn + bp <= lists[s][j] by {
            assert(disjoint(lists[s][j] as int, s as nat, pfn as int, alloc[pfn]));
        }
        assert forall|a: usize| #[trigger] a1.dom().contains(a) implies a + block_pages(a1[a]) <= pfn || pfn + bp <= a by {
            assert(alloc.dom().contains(a));
            assert(disjoint(a as int, alloc[a], pfn as int, alloc[pfn]));
        }
    }
    assert(heads_accounted(meta, lists, a1, pfn as int, pfn + bp)) by {
        assert forall|q: int| 0 <= q < meta.len() && !(pfn <= q < pfn + bp) implies {
            &&& (#[trigger] meta[q]).head_bit() && meta[q].free_bit() ==> meta[q].order < MAX_ORDER
                && lists[meta[q].order as int].contains(q as usize)
            &&& meta[q].head_bit() && !meta[q].free_bit() ==> a1.dom().contains(q as usize)
        } by {
            assert(q != pfn);
            assert(meta[q].head_bit() && !meta[q].free_bit() ==> alloc.dom().contains(q as usize));
            assert(meta[q].head_bit() && meta[q].free_bit() ==> meta[q].order < MAX_ORDER
                && lists[meta[q].order as int].contains(q as usize));
        }
    }
}

/// Absorbing the listed buddy at `b` of `order` into the set-aside region
/// `[cur, cur + 2^order)` gives the set-aside region `[lo, lo + 2^(order+1))`.
#[verifier::spinoff_prover]
#[verifier::rlimit(60)]
proof fn lemma_absorb(
    meta0: Seq<PageInfo>, meta: Seq<PageInfo>,
    l0: Seq<Seq<usize>>, l1: Seq<Seq<usize>>, alloc: Map<usize, nat>, total: nat,
    cur: usize, order: int, b: usize, idx: int, lo: usize,
)
    requires
        0 <= order,
        order + 1 < MAX_ORDER,
        l0.len() == MAX_ORDER,
        0 <= idx < l0[order].len(),
        l0[order][idx] == b,
        l1 == l0.update(order, l0[order].remove(idx)),
        (b + block_pages(order as nat) == cur && lo == b) || (b == cur + block_pages(order as nat) && lo == cur),
        block_pages((order + 1) as nat) == 2 * block_pages(order as nat),
        meta0.len() == total,
        total <= usize::MAX,
        same_shape(meta0, meta),
        blocks_except(meta0, l0, alloc, total, cur as int, cur + block_pages(order as nat)),
    ensures
        blocks_except(meta, l1, alloc, total, lo as int, lo + block_pages((order + 1) as nat)),
{
    let bp = block_pages(order as nat);
    let hi = lo + block_pages((order + 1) as nat);
    assert forall|s: int, j: int| 0 <= s < MAX_ORDER && 0 <= j < l1[s].len() implies
        #[trigger] l1[s][j] == l0[s][if s == order && j >= idx { j + 1 } else { j }] by {
    }
    assert(entries_ok(meta, l1, total)) by {
        assert forall|s: int, j: int| 0 <= s < MAX_ORDER && 0 <= j < l1[s].len() implies
            entry_ok(meta, #[trigger] l1[s][j], s as nat, total) by {
            let jj = if s == order && j >= idx { j + 1 } else { j };
            assert(l1[s][j] == l0[s][jj]);
            assert(entry_ok(meta0, l0[s][jj], s as nat, total));
            assert(same_at(meta0, meta, l0[s][jj] as int));
        }
    }
    assert(lists_disjoint(l1)) by {
        assert forall|o1: int, i1: int, o2: int, i2: int|
            0 <= o1 < MAX_ORDER && 0 <= o2 < MAX_ORDER && 0 <= i1 < l1[o1].len() && 0 <= i2
                < l1[o2].len() && (o1 != o2 || i1 != i2) implies disjoint(
                #[trigger] l1[o1][i1] as int, o1 as nat, #[trigger] l1[o2][i2] as int, o2 as nat) by {
            let j1 = if o1 == order && i1 >= idx { i1 + 1 } else { i1 };
            let j2 = if o2 == order && i2 >= idx { i2 + 1 } else { i2 };
            assert(l1[o1][i1] == l0[o1][j1]);
            assert(l1[o2][i2] == l0[o2][j2]);
        }
    }
    assert(alloc_ok(meta, alloc, total)) by {
        assert forall|a: usize| #[trigger] alloc.dom().contains(a) implies same_at(meta, meta0, a as int) by {
            assert(same_at(meta0, meta, a as int));
        }
    }
    assert(free_alloc_disjoint(l1, alloc)) by {
        assert forall|s: int, j: int, a: usize|
            0 <= s < MAX_ORDER && 0 <= j < l1[s].len() && #[trigger] alloc.dom().contains(a) implies disjoint(
                #[trigger] l1[s][j] as int, s as nat, a as int, alloc[a]) by {
            let jj = if s == order && j >= idx { j + 1 } else { j };
            assert(l1[s][j] == l0[s][jj]);
        }
    }
    assert(region_clear(l1, alloc, lo as int, hi)) by {
        assert forall|s: int, j: int| 0 <= s < MAX_ORDER && 0 <= j < l1[s].len() implies
            #[trigger] l1[s][j] + block_pages(s as nat) <= lo || hi <= l1[s][j] by {
            let jj = if s == order && j >= idx { j + 1 } else { j };
            assert(l1[s][j] == l0[s][jj]);
            assert(disjoint(l0[s][jj] as int, s as nat, l0[order][idx] as int, order as nat));
        }
        assert forall|a: usize| #[trigger] alloc.dom().contains(a) implies a + block_pages(alloc[a]) <= lo || hi <= a by {
            assert(disjoint(l0[order][idx] as int, order as nat, a as int, alloc[a]));
        }
    }
    assert(heads_accounted(meta, l1, alloc, lo as int, hi)) by {
        assert forall|q: int| 0 <= q < meta.len() && !(lo <= q < hi) implies {
            &&& (#[trigger] meta[q]).head_bit() && meta[q].free_bit() ==> meta[q].order < MAX_ORDER
                && l1[meta[q].order as int].contains(q as usize)
            &&& meta[q].head_bit() && !meta[q].free_bit() ==> alloc.dom().contains(q as usize)
        } by {
            assert(same_at(meta0, meta, q));
            assert(q != b);
            if meta[q].head_bit() && meta[q].free_bit() {
                let s = meta[q].order as int;
                assert(l0[s].contains(q as usize));
                let j = choose|j: int| 0 <= j < l0[s].len() && l0[s][j] == q as usize;
                if s == order {
                    assert(j != idx);
                    let jn = if j > idx { j - 1 } else { j };
                    assert(l1[s][jn] == q as usize);
                } else {
                    assert(l1[s][j] == q as usize);
                }
            }
        }
    }
}

/// Listing the set-aside region `[cur, cur + 2^order)` as a free block restores
/// the block invariants.
#[verifier::spinoff_prover]
#[verifier::rlimit(60)]
proof fn lemma_freed(
    meta_f: Seq<PageInfo>, meta: Seq<PageInfo>,
    lists_f: Seq<Seq<usize>>, lists: Seq<Seq<usize>>, alloc: Map<usize, nat>, total: nat,
    cur: usize, order: nat,
)
    requires
        order < MAX_ORDER,
        lists_f.len() == MAX_ORDER,
        aligned(cur as int, order),
        cur + block_pages(order) <= total,
        lists == lists_f.update(order as int, seq![cur] + lists_f[order as int]),
        meta_f.len() == total,
        meta.len() == total,
        forall|q: int| 0 <= q < total && !(cur <= q < cur + block_pages(order)) ==> #[trigger] same_at(meta, meta_f, q),
        forall|q: int| cur <= q < cur + block_pages(order) ==> {
            &&& (#[trigger] meta[q]).order == order
            &&& meta[q].head_bit() == (q == cur)
            &&& meta[q].free_bit()
        },
        blocks_except(meta_f, lists_f, alloc, total, cur as int, cur + block_pages(order)),
    ensures
        blocks_except(meta, lists, alloc, total, 0, 0),
{
    let bp = block_pages(order);
    assert forall|s: int, j: int| 0 <= s < MAX_ORDER && 0 <= j < lists[s].len() && !(s == order && j == 0) implies
        #[trigger] lists[s][j] == lists_f[s][if s == order { j - 1 } else { j }] by {
    }
    assert(entries_ok(meta, lists, total)) by {
        assert forall|s: int, j: int| 0 <= s < MAX_ORDER && 0 <= j < lists[s].len() implies
            entry_ok(meta, #[trigger] lists[s][j], s as nat, total) by {
            if !(s == order && j == 0) {
                let jj = if s == order { j - 1 } else { j };
                assert(lists[s][j] == lists_f[s][jj]);
                assert(entry_ok(meta_f, lists_f[s][jj], s as nat, total));
                assert(same_at(meta, meta_f, lists_f[s][jj] as int));
            }
        }
    }
    assert(lists_disjoint(lists)) by {
        assert forall|o1: int, i1: int, o2: int, i2: int|
            0 <= o1 < MAX_ORDER && 0 <= o2 < MAX_ORDER && 0 <= i1 < lists[o1].len() && 0 <= i2
                < lists[o2].len() && (o1 != o2 || i1 != i2) implies disjoint(
                #[trigger] lists[o1][i1] as int, o1 as nat, #[trigger] lists[o2][i2] as int, o2 as nat) by {
            let j1 = if o1 == order { i1 - 1 } else { i1 };
            let j2 = if o2 == order { i2 - 1 } else { i2 };
            if o1 == order && i1 == 0 {
                assert(lists[o2][i2] == lists_f[o2][j2]);
            } else if o2 == order && i2 == 0 {
                assert(lists[o1][i1] == lists_f[o1][j1]);
            } else {
                assert(lists[o1][i1] == lists_f[o1][j1]);
                assert(lists[o2][i2] == lists_f[o2][j2]);
            }
        }
    }
    assert(alloc_ok(meta, alloc, total)) by {
        assert forall|a: usize| #[trigger] alloc.dom().contains(a) implies same_at(meta, meta_f, a as int) by {
        }
    }
    assert(free_alloc_disjoint(lists, alloc)) by {
        assert forall|s: int, j: int, a: usize|
            0 <= s < MAX_ORDER && 0 <= j < lists[s].len() && #[trigger] alloc.dom().contains(a) implies disjoint(
                #[trigger] lists[s][j] as int, s as nat, a as int, alloc[a]) by {
            if !(s == order && j == 0) {
                let jj = if s == order { j - 1 } else { j };
                assert(lists[s][j] == lists_f[s][jj]);
            }
        }
    }
    assert(heads_accounted(meta, lists, alloc, 0, 0)) by {
        assert forall|q: int| 0 <= q < meta.len() && !(0 <= q < 0) implies {
            &&& (#[trigger] meta[q]).head_bit() && meta[q].free_bit() ==> meta[q].order < MAX_ORDER
                && lists[meta[q].order as int].contains(q as usize)
            &&& meta[q].head_bit() && !meta[q].free_bit() ==> alloc.dom().contains(q as usize)
        } by {
            if q == cur {
                assert(lists[order as int][0] == q as usize);
            } else if cur < q < cur + bp {
            } else {
                assert(same_at(meta, meta_f, q));
                if meta[q].head_bit() && meta[q].free_bit() {
                    let s = meta[q].order as int;
                    let j = choose|j: int| 0 <= j < lists_f[s].len() && lists_f[s][j] == q as usize;
                    if s == order {
                        assert(lists[s][j + 1] == q as usize);
                    } else {
                        assert(lists[s][j] == q as usize);
                    }
                }
            }
        }
    }
}

impl BuddyAllocator {
    /// The number of frames the allocator manages.
    pub fn total_pages(&self) -> (n: usize)
        ensures
            n == self.total(),
    {
        self.total_pages
    }

    /// Whether `addr` lies in the first frame of an allocated block, the only
    /// addresses that `deallocate` accepts.
    pub fn can_deallocate(&self, addr: usize) -> (b: bool)
        requires
            self.wf(),
        ensures
            b == self.allocated_blocks().dom().contains(addr / PAGE_SIZE),
    {
        let pfn = addr / PAGE_SIZE;
        if pfn >= self.total_pages {
            return false;
        }
        let info = self.metadata[pfn];
        proof {
            if self.allocated@.dom().contains(pfn) {
                assert(alloc_ok(self.metadata@, self.allocated@, self.total_pages as nat));
            }
            assert(heads_accounted(self.metadata@, self.lists@, self.allocated@, 0, 0));
            assert(self.metadata@[pfn as int] == info);
        }
        info.is_head() && !info.is_free()
    }

    /// Returns the allocated block that starts in the frame of `addr` and
    /// merges it with free buddies of the same order, as far as possible.
    pub fn deallocate(&mut self, addr: usize)
        requires
            old(self).wf(),
            old(self).allocated_blocks().dom().contains(addr / PAGE_SIZE),
        ensures
            final(self).wf(),
            final(self).total() == old(self).total(),
            free_outcome(old(self).free_lists(), old(self).allocated_blocks(), old(self).total(), addr / PAGE_SIZE,
                final(self).free_lists(), final(self).allocated_blocks()),
    {
        let ghost l0 = self.lists@;
        let ghost alloc0 = self.allocated@;
        let ghost total = self.total_pages as nat;
        let pfn = addr / PAGE_SIZE;
        proof {
            assert(alloc_ok(self.metadata@, self.allocated@, total));
        }
        let mut order = self.metadata[pfn].order as usize;
        let mut current_pfn = pfn;
        proof {
            lemma_released(self.metadata@, self.lists@, self.allocated@, total, pfn);
            self.allocated@ = alloc0.remove(pfn);
        }
        let ghost alloc1 = self.allocated@;
        loop
            invariant_except_break
                order < MAX_ORDER,
                aligned(current_pfn as int, order as nat),
                current_pfn + block_pages(order as nat) <= total,
                total == self.total_pages,
                self.metadata@.len() == total,
                self.total_pages * PAGE_SIZE <= usize::MAX,
                self.allocated@ == alloc1,
                linked(self.metadata@, self.free_heads@, self.lists@),
                self.lists@.len() == MAX_ORDER,
                blocks_except(self.metadata@, self.lists@, alloc1, total, current_pfn as int, current_pfn + block_pages(order as nat)),
                merge_spec(self.lists@, current_pfn, order as nat, total) == merge_spec(l0, pfn, alloc0[pfn], total),
            ensures
                order < MAX_ORDER,
                aligned(current_pfn as int, order as nat),
                current_pfn + block_pages(order as nat) <= total,
                total == self.total_pages,
                self.metadata@.len() == total,
                self.total_pages * PAGE_SIZE <= usize::MAX,
                self.allocated@ == alloc1,
                linked(self.metadata@, self.free_heads@, self.lists@),
                self.lists@.len() == MAX_ORDER,
                blocks_except(self.metadata@, self.lists@, alloc1, total, current_pfn as int, current_pfn + block_pages(order as nat)),
                merge_spec(l0, pfn, alloc0[pfn], total) == (self.lists@, current_pfn, order as nat),
            decreases MAX_ORDER - order,
        {
            if order + 1 >= MAX_ORDER {
                break;
            }
            proof {
                lemma_order_pages(order);
                lemma_merge_buddy(current_pfn, order);
            }
            let buddy_pfn = current_pfn ^ (1usize << order);
            if buddy_pfn >= self.total_pages {
                break;
            }
            let buddy = self.metadata[buddy_pfn];
            let ghost lists = self.lists@;
            proof {
                // The buddy lies outside the set-aside region, so its head frame
                // tells whether it is a listed free block of this order.
                assert(!(current_pfn <= buddy_pfn < current_pfn + block_pages(order as nat)));
                assert(heads_accounted(self.metadata@, lists, alloc1, current_pfn as int, current_pfn + block_pages(order as nat)));
                if lists[order as int].contains(buddy_pfn) {
                    let j = choose|j: int| 0 <= j < lists[order as int].len() && lists[order as int][j] == buddy_pfn;
                    assert(entry_ok(self.metadata@, lists[order as int][j], order as nat, total));
                }
                assert(buddy_of(current_pfn, order as nat) == buddy_pfn);
            }
            if !buddy.is_free() || buddy.order as usize != order || !buddy.is_head() {
                break;
            }
            let ghost idx = lists[order as int].index_of(buddy_pfn);
            let ghost meta0 = self.metadata@;
            self.remove_from_free(buddy_pfn, order, Ghost(idx));
            let lo = if buddy_pfn < current_pfn { buddy_pfn } else { current_pfn };
            proof {
                lemma_absorb(meta0, self.metadata@, lists, self.lists@, alloc1, total, current_pfn, order as int, buddy_pfn, idx, lo);
                lemma_order_pages((order + 1) as usize);
            }
            current_pfn = lo;
            order = order + 1;
        }
        let ghost lists_f = self.lists@;
        let ghost meta_f = self.metadata@;
        self.mark_block(current_pfn, order, true, false);
        proof {
            lemma_links_kept(meta_f, self.metadata@, self.free_heads@, lists_f);
            assert forall|s: int, j: int| 0 <= s < MAX_ORDER && 0 <= j < lists_f[s].len() implies
                #[trigger] lists_f[s][j] != current_pfn by {
            }
        }
        let ghost meta_m = self.metadata@;
        self.push_free(current_pfn, order);
        proof {
            assert forall|q: int| 0 <= q < total && !(current_pfn <= q < current_pfn + block_pages(order as nat)) implies
                #[trigger] same_at(self.metadata@, meta_f, q) by {
                assert(meta_m[q] == meta_f[q]);
                assert(q != current_pfn);
                assert(self.metadata@[q].order == meta_m[q].order);
                assert(self.metadata@[q].flags == meta_m[q].flags);
            }
            lemma_freed(meta_f, self.metadata@, lists_f, self.lists@, alloc1, total, current_pfn, order as nat);
        }
    }
}

} // verus!

verus! {

/// The largest block order that both the alignment of `start` and the
/// number of whole pages `pages` allow, capped at `MAX_ORDER - 1`.
fn region_block_order(start: usize, pages: usize) -> (order: usize)
    requires
        pages >= 1,
        start % PAGE_SIZE == 0,
    ensures
        order < MAX_ORDER,
        block_pages(order as nat) <= pages,
        aligned(start as int / PAGE_SIZE as int, order as nat),
        order + 1 == MAX_ORDER || block_pages((order + 1) as nat) > pages || !aligned(
            start as int / PAGE_SIZE as int,
            (order + 1) as nat,
        ),
{
    let align_order = (start as u64).trailing_zeros() as usize;
    let order_by_align = if align_order > PAGE_SHIFT { align_order - PAGE_SHIFT } else { 0 };
    let top_bit = 63 - (pages as u64).leading_zeros() as usize;
    let order_by_size = if top_bit < MAX_ORDER - 1 { top_bit } else { MAX_ORDER - 1 };
    let order = if order_by_align < order_by_size { order_by_align } else { order_by_size };
    let order = if order < MAX_ORDER - 1 { order } else { MAX_ORDER - 1 };
    proof {
        let s = start as u64;
        let p = pages as u64;
        let t = u64_trailing_zeros(s) as u64;
        let l = u64_leading_zeros(p) as u64;
        axiom_u64_trailing_zeros(s);
        axiom_u64_leading_zeros(p);
        let k = order as u64;
        lemma_order_pages(order);
        lemma2_to64();
        // size: the top set bit of `pages` is at `63 - l >= order`
        let m = (63 - l) as u64;
        assert(p >= (1u64 << m)) by (bit_vector)
            requires
                m < 64,
                (p >> m) & 1u64 != 0u64,
        ;
        vstd::bits::lemma_u64_pow2_no_overflow(m as nat);
        lemma_u64_shl_is_mul(1, m);
        if k < m {
            vstd::arithmetic::power2::lemma_pow2_strictly_increases(k as nat, m as nat);
        }
        // alignment: the low `t >= k + 12` bits of `start` are clear
        if order > 0 {
            assert((s >> 12u64) & (((1u64 << k) - 1) as u64) == 0) by (bit_vector)
                requires
                    t <= 64,
                    s << ((64 - t) as u64) == 0,
                    k + 12 <= t,
                    k < 11,
            ;
            vstd::bits::lemma_u64_pow2_no_overflow(k as nat);
            lemma_u64_shl_is_mul(1, k);
            vstd::bits::lemma_u64_low_bits_mask_is_mod(s >> 12u64, k as nat);
            assert(low_bits_mask(k as nat) == block_pages(k as nat) - 1);
            assert((s >> 12u64) == s / 4096) by (bit_vector);
        }
        // the next order up fails: it is past the largest, or more than `pages`, or misaligned
        if order + 1 < MAX_ORDER {
            if order == order_by_size {
                let m1 = (m + 1) as u64;
                assert(p < (1u64 << m1)) by (bit_vector)
                    requires
                        m1 < 64,
                        m1 == 64 - l,
                        p >> ((64 - l) as u64) == 0,
                ;
                vstd::bits::lemma_u64_pow2_no_overflow(m1 as nat);
                lemma_u64_shl_is_mul(1, m1);
            } else {
                assert(s % 4096 == 0);
                assert(t >= 12) by (bit_vector)
                    requires
                        t <= 64,
                        t < 64 ==> (s >> t) & 1u64 == 1u64,
                        s == 0 <==> t == 64,
                        s % 4096 == 0,
                ;
                let k1 = (k + 1) as u64;
                assert(k == t - 12);
                assert((s >> 12u64) & (((1u64 << k1) - 1) as u64) != 0) by (bit_vector)
                    requires
                        12 <= t < 64,
                        (s >> t) & 1u64 == 1u64,
                        k1 == t - 11,
                        k1 <= 11,
                ;
                vstd::bits::lemma_u64_pow2_no_overflow(k1 as nat);
                lemma_u64_shl_is_mul(1, k1);
                vstd::bits::lemma_u64_low_bits_mask_is_mod(s >> 12u64, k1 as nat);
                assert(low_bits_mask(k1 as nat) == block_pages(k1 as nat) - 1);
                assert((s >> 12u64) == s / 4096) by (bit_vector);
            }
        }
    }
    order
}

} // verus!

verus! {

/// Multiboot2 type of a memory map entry whose frames the OS may use.
pub const AVAILABLE_MEMORY: u32 = 1;

/// An entry of the boot memory map: the physical range `[start, end)` and the
/// entry's type as the boot loader reports it.
#[derive(Clone, Copy, Debug, PartialEq, Eq)]
pub struct MemoryArea {
    pub start: u64,
    pub end: u64,
    pub typ: u32,
}

/// The most frames the allocator keeps metadata for (512 MiB of memory).
pub const MAX_SUPPORTED_PAGES: usize = 131072;

/// The highest end address among `areas`; 0 when there are none.
pub open spec fn max_end(areas: Seq<MemoryArea>) -> u64
    decreases areas.len(),
{
    if areas.len() == 0 {
        0
    } else {
        let m = max_end(areas.drop_last());
        if areas.last().end > m {
            areas.last().end
        } else {
            m
        }
    }
}

/// The number of frames to keep metadata for: enough to reach the highest
/// end address of `areas`, at most `limit`.
pub open spec fn frame_count_spec(areas: Seq<MemoryArea>, limit: usize) -> usize {
    let pages = (max_end(areas) as int + PAGE_SIZE - 1) / PAGE_SIZE as int;
    if pages > limit {
        limit
    } else {
        pages as usize
    }
}

/// The number of frames to keep metadata for; see `frame_count_spec`.
pub fn frame_count(areas: &[MemoryArea], limit: usize) -> (n: usize)
    ensures
        n == frame_count_spec(areas@, limit),
{
    let mut m: u64 = 0;
    let mut i: usize = 0;
    assert(areas@.take(0) =~= Seq::<MemoryArea>::empty());
    while i < areas.len()
        invariant
            i <= areas@.len(),
            m == max_end(areas@.take(i as int)),
        decreases areas@.len() - i,
    {
        assert(areas@.take(i + 1).drop_last() =~= areas@.take(i as int));
        if areas[i].end > m {
            m = areas[i].end;
        }
        i = i + 1;
    }
    assert(areas@.take(i as int) =~= areas@);
    let pages: u64 = m / 4096 + if m % 4096 == 0 { 0 } else { 1 };
    assert(pages == (m as int + 4095) / 4096);
    if pages > limit as u64 {
        limit
    } else {
        pages as usize
    }
}

/// Decides whether a raw Multiboot2 memory type marks usable RAM.
///
/// Calls `multiboot2::MemoryAreaType::from`, which maps the raw value 1 to
/// `MemoryAreaType::Available` and every other value to another variant; the
/// contract claims exactly that.
#[verifier::external_body]
pub(crate) fn is_available_area(typ: u32) -> (b: bool)
    ensures
        b == (typ == AVAILABLE_MEMORY),
{
    match multiboot2::MemoryAreaType::from(typ) {
        multiboot2::MemoryAreaType::Available => true,
        _ => false,
    }
}

/// The block of `order` at frame `p` lies in the physical range `[lo, hi)`.
pub open spec fn block_within(p: usize, order: nat, lo: int, hi: int) -> bool {
    lo <= p * PAGE_SIZE && (p + block_pages(order)) * PAGE_SIZE <= hi
}

/// The block of `order` at frame `p` overlaps none of the reserved ranges.
pub open spec fn avoids_reserved(p: usize, order: nat, reserved: Seq<(usize, usize)>) -> bool {
    forall|j: int|
        0 <= j < reserved.len() ==> (p + block_pages(order)) * PAGE_SIZE <= (#[trigger] reserved[j]).0
            || reserved[j].1 <= p * PAGE_SIZE
}

/// The smallest multiple of `PAGE_SIZE` at or above `addr`.
fn align_up(addr: usize, align: usize) -> (r: usize)
    requires
        align == PAGE_SIZE,
        addr + align <= usize::MAX,
    ensures
        r % PAGE_SIZE == 0,
        addr <= r < addr + PAGE_SIZE,
{
    let v = addr + align - 1;
    proof {
        assert(v & !4095usize == v - v % 4096) by (bit_vector);
    }
    v & !(align - 1)
}

/// The greatest multiple of `PAGE_SIZE` at or below `addr`.
fn align_down(addr: usize, align: usize) -> (r: usize)
    requires
        align == PAGE_SIZE,
    ensures
        r % PAGE_SIZE == 0,
        r <= addr < r + PAGE_SIZE,
{
    proof {
        assert(addr & !4095usize == addr - addr % 4096) by (bit_vector);
    }
    addr & !(align - 1)
}

/// Set-aside frames may be narrowed to a sub-range.
proof fn lemma_narrow(meta: Seq<PageInfo>, lists: Seq<Seq<usize>>, alloc: Map<usize, nat>, total: nat, lo: int, hi: int, lo2: int, hi2: int)
    requires
        blocks_except(meta, lists, alloc, total, 0, 0),
        region_clear(lists, alloc, lo, hi),
        lo <= lo2 <= hi2 <= hi,
    ensures
        blocks_except(meta, lists, alloc, total, lo2, hi2),
{
    assert(heads_accounted(meta, lists, alloc, lo2, hi2)) by {
        assert forall|q: int| 0 <= q < meta.len() && !(lo2 <= q < hi2) implies {
            &&& (#[trigger] meta[q]).head_bit() && meta[q].free_bit() ==> meta[q].order < MAX_ORDER
                && lists[meta[q].order as int].contains(q as usize)
            &&& meta[q].head_bit() && !meta[q].free_bit() ==> alloc.dom().contains(q as usize)
        } by {
            assert(!(0 <= q < 0));
        }
    }
}

/// The block of `order` at frame `p`, in a region that ends at `end`, is as
/// large as it can be: the next order up is past the largest, or its block
/// at `p` would be misaligned, reach past `end`, or hold the start of a
/// reserved range.
pub open spec fn largest_block(p: usize, order: nat, end: int, reserved: Seq<(usize, usize)>) -> bool {
    ||| order + 1 >= MAX_ORDER
    ||| !aligned(p as int, order + 1)
    ||| (p + block_pages(order + 1)) * PAGE_SIZE > end
    ||| exists|j: int|
        0 <= j < reserved.len() && p * PAGE_SIZE < (#[trigger] reserved[j]).0 < (p + block_pages(order + 1)) * PAGE_SIZE
}

/// Frame `q` is a whole page of `[lo, hi)` that no reserved range touches:
/// none holds its first byte and none starts inside it.
pub open spec fn clear_frame(q: int, lo: int, hi: int, reserved: Seq<(usize, usize)>) -> bool {
    &&& lo <= q * PAGE_SIZE
    &&& (q + 1) * PAGE_SIZE <= hi
    &&& forall|j: int|
        0 <= j < reserved.len() ==> !((#[trigger] reserved[j]).0 <= q * PAGE_SIZE < reserved[j].1) && !(q * PAGE_SIZE
            < reserved[j].0 < (q + 1) * PAGE_SIZE)
}

/// Frame `q` lies in a block of the free lists.
pub open spec fn frame_listed(lists: Seq<Seq<usize>>, q: int) -> bool {
    exists|o: int, i: int|
        #![trigger lists[o][i]]
        0 <= o < MAX_ORDER && 0 <= i < lists[o].len() && lists[o][i] <= q < lists[o][i] + block_pages(o as nat)
}

/// A frame start and a page-aligned address are a whole page apart or equal.
proof fn lemma_frame_vs_aligned(q: int, a: int)
    requires
        a % 4096 == 0,
    ensures
        q * 4096 < a ==> (q + 1) * 4096 <= a,
        a < (q + 1) * 4096 ==> a <= q * 4096,
{
    vstd::arithmetic::div_mod::lemma_fundamental_div_mod(a, 4096);
}

/// Pushing a block on a free list keeps every frame listed that was.
proof fn lemma_push_keeps_listed(lists: Seq<Seq<usize>>, order: int, pfn: usize, q: int)
    requires
        lists.len() == MAX_ORDER,
        0 <= order < lists.len(),
        frame_listed(lists, q),
    ensures
        frame_listed(lists.update(order, seq![pfn] + lists[order]), q),
{
    let l2 = lists.update(order, seq![pfn] + lists[order]);
    let (o, i) = choose|o: int, i: int|
        #![trigger lists[o][i]]
        0 <= o < MAX_ORDER && 0 <= i < lists[o].len() && lists[o][i] <= q < lists[o][i] + block_pages(o as nat);
    if o == order {
        assert(l2[o][i + 1] == lists[o][i]);
    } else {
        assert(l2[o][i] == lists[o][i]);
    }
}

/// The block pushed on a free list lists its own frames.
proof fn lemma_pushed_block_listed(lists: Seq<Seq<usize>>, order: int, pfn: usize, q: int)
    requires
        lists.len() == MAX_ORDER,
        0 <= order < lists.len(),
        order < MAX_ORDER,
        pfn <= q < pfn + block_pages(order as nat),
    ensures
        frame_listed(lists.update(order, seq![pfn] + lists[order]), q),
{
    let l2 = lists.update(order, seq![pfn] + lists[order]);
    assert(l2[order][0] == pfn);
}

/// Pushing a block on a free list keeps every block listed that was.
proof fn lemma_push_keeps_blocks(lists: Seq<Seq<usize>>, l0: Seq<Seq<usize>>, order: int, pfn: usize)
    requires
        lists.len() == MAX_ORDER,
        0 <= order < lists.len(),
        forall|o: int, i: int| 0 <= o < MAX_ORDER && 0 <= i < l0[o].len() ==> lists[o].contains(#[trigger] l0[o][i]),
    ensures
        forall|o: int, i: int|
            0 <= o < MAX_ORDER && 0 <= i < l0[o].len() ==> lists.update(order, seq![pfn] + lists[order])[o].contains(
                #[trigger] l0[o][i],
            ),
{
    let l2 = lists.update(order, seq![pfn] + lists[order]);
    assert forall|o: int, i: int| 0 <= o < MAX_ORDER && 0 <= i < l0[o].len() implies l2[o].contains(#[trigger] l0[o][i]) by {
        assert(lists[o].contains(l0[o][i]));
        let k = choose|k: int| 0 <= k < lists[o].len() && lists[o][k] == l0[o][i];
        if o == order {
            assert(l2[o][k + 1] == lists[o][k]);
        } else {
            assert(l2[o][k] == lists[o][k]);
        }
    }
}

/// The block of `order` at frame `b` is on a free list or allocated.
pub open spec fn taken_block(lists: Seq<Seq<usize>>, alloc: Map<usize, nat>, b: usize, order: nat) -> bool {
    ||| order < MAX_ORDER && lists[order as int].contains(b)
    ||| alloc.dom().contains(b) && alloc[b] == order
}

/// Frame `q` lies in an allocated block.
pub open spec fn frame_allocated(alloc: Map<usize, nat>, q: int) -> bool {
    exists|a: usize| #[trigger] alloc.dom().contains(a) && a <= q < a + block_pages(alloc[a])
}

/// The byte range of the block of `order` at frame `b`.
pub open spec fn range_of(b: usize, order: nat) -> (int, int) {
    (b * PAGE_SIZE, (b + block_pages(order)) * PAGE_SIZE)
}

/// One of the ranges is the byte range of the block of `order` at `b`.
pub open spec fn range_present(v: Seq<(usize, usize)>, b: usize, order: nat) -> bool {
    exists|j: int| 0 <= j < v.len() && (#[trigger] v[j]).0 == range_of(b, order).0 && v[j].1 == range_of(b, order).1
}

/// The range is the byte range of a free or allocated block.
pub open spec fn block_range(r: (usize, usize), lists: Seq<Seq<usize>>, alloc: Map<usize, nat>) -> bool {
    exists|b: usize, o: nat|
        #[trigger] taken_block(lists, alloc, b, o) && r.0 == range_of(b, o).0 && r.1 == range_of(b, o).1
}

/// The block of `order` at frame `p`, in a region that ends at `end`, is as
/// large as it can be: see `largest_block`, where a block already free or
/// allocated that begins inside the next order up counts as a boundary too.
pub open spec fn largest_free_block(
    p: usize,
    order: nat,
    end: int,
    reserved: Seq<(usize, usize)>,
    lists: Seq<Seq<usize>>,
    alloc: Map<usize, nat>,
) -> bool {
    ||| largest_block(p, order, end, reserved)
    ||| exists|b: usize, o2: nat| #[trigger] taken_block(lists, alloc, b, o2) && p < b < p + block_pages(order + 1)
}

impl BuddyAllocator {
    /// The ranges of `reserved`, followed by the byte range of every block
    /// that is free or allocated, found from the head frames of the metadata.
    fn taken_ranges(&self, reserved: &[(usize, usize)]) -> (v: Vec<(usize, usize)>)
        requires
            self.wf(),
        ensures
            reserved@.len() <= v@.len(),
            forall|j: int| 0 <= j < reserved@.len() ==> v@[j] == reserved@[j],
            forall|j: int| reserved@.len() <= j < v@.len() ==> block_range(#[trigger] v@[j], self.lists@, self.allocated@),
            forall|o: int, i: int|
                0 <= o < MAX_ORDER && 0 <= i < self.lists@[o].len() ==> range_present(v@, #[trigger] self.lists@[o][i], o as nat),
            forall|a: usize| #[trigger] self.allocated@.dom().contains(a) ==> range_present(v@, a, self.allocated@[a]),
    {
        let mut v: Vec<(usize, usize)> = Vec::new();
        let mut j: usize = 0;
        while j < reserved.len()
            invariant
                j <= reserved@.len(),
                v@.len() == j,
                forall|x: int| 0 <= x < j ==> v@[x] == reserved@[x],
            decreases reserved@.len() - j,
        {
            v.push(reserved[j]);
            j = j + 1;
        }
        let total = self.total_pages;
        let mut q: usize = 0;
        while q < total
            invariant
                self.wf(),
                total == self.total_pages,
                q <= total,
                reserved@.len() <= v@.len(),
                forall|x: int| 0 <= x < reserved@.len() ==> v@[x] == reserved@[x],
                forall|x: int| reserved@.len() <= x < v@.len() ==> block_range(#[trigger] v@[x], self.lists@, self.allocated@),
                forall|o: int, i: int|
                    0 <= o < MAX_ORDER && 0 <= i < self.lists@[o].len() && #[trigger] self.lists@[o][i] < q ==> range_present(
                        v@, self.lists@[o][i], o as nat),
                forall|a: usize| #[trigger] self.allocated@.dom().contains(a) && a < q ==> range_present(v@, a, self.allocated@[a]),
            decreases total - q,
        {
            let m = self.metadata[q];
            if m.is_head() && (m.order as usize) < MAX_ORDER && (1usize << m.order as usize) <= total - q {
                let ord = m.order as usize;
                proof {
                    lemma_order_pages(ord);
                }
                let n = 1usize << ord;
                let ghost v0 = v@;
                v.push((q * PAGE_SIZE, (q + n) * PAGE_SIZE));
                proof {
                    let b = q;
                    let o = ord as nat;
                    assert(m == self.metadata@[q as int]);
                    assert(taken_block(self.lists@, self.allocated@, b, o)) by {
                        assert(!(0 <= q < 0));
                        if m.free_bit() {
                            assert(self.lists@[m.order as int].contains(q));
                        } else {
                            assert(self.allocated@.dom().contains(q));
                        }
                    }
                    assert forall|x: int| reserved@.len() <= x < v@.len() implies block_range(#[trigger] v@[x], self.lists@, self.allocated@) by {
                        if x < v0.len() {
                            assert(v@[x] == v0[x]);
                        }
                    }
                    assert forall|o2: int, i: int|
                        0 <= o2 < MAX_ORDER && 0 <= i < self.lists@[o2].len() && #[trigger] self.lists@[o2][i] < q + 1 implies range_present(
                            v@, self.lists@[o2][i], o2 as nat) by {
                        let c = self.lists@[o2][i];
                        if c < q {
                            let jj = choose|jj: int| 0 <= jj < v0.len() && (#[trigger] v0[jj]).0 == range_of(c, o2 as nat).0 && v0[jj].1 == range_of(c, o2 as nat).1;
                            assert(v@[jj] == v0[jj]);
                        } else {
                            assert(v@[v0.len() as int].0 == range_of(c, o2 as nat).0);
                        }
                    }
                    assert forall|a: usize| #[trigger] self.allocated@.dom().contains(a) && a < q + 1 implies range_present(v@, a, self.allocated@[a]) by {
                        if a < q {
                            let jj = choose|jj: int| 0 <= jj < v0.len() && (#[trigger] v0[jj]).0 == range_of(a, self.allocated@[a]).0 && v0[jj].1 == range_of(a, self.allocated@[a]).1;
                            assert(v@[jj] == v0[jj]);
                        } else {
                            assert(v@[v0.len() as int].0 == range_of(a, self.allocated@[a]).0);
                        }
                    }
                }
            } else {
                proof {
                    assert forall|o2: int, i: int|
                        0 <= o2 < MAX_ORDER && 0 <= i < self.lists@[o2].len() && #[trigger] self.lists@[o2][i] < q + 1 implies range_present(
                            v@, self.lists@[o2][i], o2 as nat) by {
                        if self.lists@[o2][i] == q {
                            lemma_order_pages(o2 as usize);
                            assert(m == self.metadata@[q as int]);
                        }
                    }
                    assert forall|a: usize| #[trigger] self.allocated@.dom().contains(a) && a < q + 1 implies range_present(v@, a, self.allocated@[a]) by {
                        if a == q {
                            lemma_order_pages(self.allocated@[a] as usize);
                            assert(m == self.metadata@[q as int]);
                        }
                    }
                }
            }
            q = q + 1;
        }
        v
    }

    /// Adds the whole free pages of `[start, end)` that overlap no reserved
    /// range and no block already free or allocated, as aligned blocks as
    /// large as possible; stops at the first block that would reach past the
    /// managed frames. So every such page ends up in a free block unless it
    /// is already taken or lies within a largest block of the end of the
    /// managed frames, and the blocks listed before stay listed.
    #[verifier::spinoff_prover]
    #[verifier::rlimit(100)]
    fn add_region(&mut self, start: usize, end: usize, reserved: &[(usize, usize)])
        requires
            old(self).wf(),
            start + PAGE_SIZE <= usize::MAX,
            forall|j: int| 0 <= j < reserved@.len() ==> (#[trigger] reserved@[j]).1 + PAGE_SIZE <= usize::MAX,
        ensures
            final(self).wf(),
            final(self).allocated@ == old(self).allocated@,
            final(self).total_pages == old(self).total_pages,
            forall|o: int, i: int|
                0 <= o < MAX_ORDER && 0 <= i < final(self).lists@[o].len() ==> old(self).lists@[o].contains(
                    #[trigger] final(self).lists@[o][i],
                ) || (block_within(final(self).lists@[o][i], o as nat, start as int, end as int)
                    && avoids_reserved(final(self).lists@[o][i], o as nat, reserved@)
                    && largest_free_block(final(self).lists@[o][i], o as nat, end as int, reserved@, old(self).lists@,
                    old(self).allocated@)),
            forall|o: int, i: int|
                0 <= o < MAX_ORDER && 0 <= i < old(self).lists@[o].len() ==> final(self).lists@[o].contains(
                    #[trigger] old(self).lists@[o][i],
                ),
            forall|q: int|
                clear_frame(q, start as int, end as int, reserved@) && q + block_pages((MAX_ORDER - 1) as nat)
                    <= final(self).total_pages ==> #[trigger] frame_listed(final(self).lists@, q) || frame_allocated(
                    old(self).allocated@, q),
    {
        proof {
            lemma2_to64();
        }
        let bounds = self.taken_ranges(reserved);
        let ghost start0 = start;
        let ghost l0 = self.lists@;
        let ghost a0 = self.allocated@;
        proof {
            assert forall|j: int| 0 <= j < bounds@.len() implies (#[trigger] bounds@[j]).1 % PAGE_SIZE == 0
                || bounds@[j].1 + PAGE_SIZE <= usize::MAX by {
                if j >= reserved@.len() {
                    let (b, o) = choose|b: usize, o: nat|
                        #[trigger] taken_block(l0, a0, b, o) && bounds@[j].0 == range_of(b, o).0 && bounds@[j].1 == range_of(b, o).1;
                    vstd::arithmetic::div_mod::lemma_mod_multiples_basic(b + block_pages(o), 4096);
                }
            }
        }
        let mut start = align_up(start, PAGE_SIZE);
        let end0 = end;
        let end = align_down(end, PAGE_SIZE);
        let ghost mut stopped = false;
        proof {
            assert forall|q: int| clear_frame(q, start0 as int, end0 as int, bounds@) implies !(q * PAGE_SIZE < start) by {
                lemma_frame_vs_aligned(q, start as int);
            }
        }
        while start < end
            invariant
                forall|o: int, i: int| 0 <= o < MAX_ORDER && 0 <= i < l0[o].len() ==> self.lists@[o].contains(
                    #[trigger] l0[o][i],
                ),
                forall|q: int|
                    clear_frame(q, start0 as int, end0 as int, bounds@) && q + 1024 <= self.total_pages && (stopped
                        || q * PAGE_SIZE < start) ==> #[trigger] frame_listed(self.lists@, q),
                self.wf(),
                self.allocated == old(self).allocated,
                self.total_pages == old(self).total_pages,
                start % PAGE_SIZE == 0,
                end % PAGE_SIZE == 0,
                start0 <= start,
                end <= end0,
                end0 < end + PAGE_SIZE,
                forall|j: int| 0 <= j < bounds@.len() ==> (#[trigger] bounds@[j]).1 % PAGE_SIZE == 0
                    || bounds@[j].1 + PAGE_SIZE <= usize::MAX,
                reserved@.len() <= bounds@.len(),
                forall|j: int| 0 <= j < reserved@.len() ==> bounds@[j] == reserved@[j],
                forall|j: int| reserved@.len() <= j < bounds@.len() ==> block_range(#[trigger] bounds@[j], l0, a0),
                forall|o: int, i: int|
                    0 <= o < MAX_ORDER && 0 <= i < l0[o].len() ==> range_present(bounds@, #[trigger] l0[o][i], o as nat),
                forall|a: usize| #[trigger] a0.dom().contains(a) ==> range_present(bounds@, a, a0[a]),
                self.allocated@ == a0,
                forall|o: int, i: int|
                    0 <= o < MAX_ORDER && 0 <= i < self.lists@[o].len() ==> l0[o].contains(#[trigger] self.lists@[o][i])
                        || self.lists@[o][i] + block_pages(o as nat) <= start / PAGE_SIZE,
                forall|o: int, i: int|
                    0 <= o < MAX_ORDER && 0 <= i < self.lists@[o].len() ==> l0[o].contains(
                        #[trigger] self.lists@[o][i],
                    ) || (block_within(self.lists@[o][i], o as nat, start0 as int, end0 as int)
                        && avoids_reserved(self.lists@[o][i], o as nat, bounds@)
                        && largest_block(self.lists@[o][i], o as nat, end0 as int, bounds@)),
            ensures
                stopped || end <= start,
                forall|o: int, i: int| 0 <= o < MAX_ORDER && 0 <= i < l0[o].len() ==> self.lists@[o].contains(
                    #[trigger] l0[o][i],
                ),
                forall|q: int|
                    clear_frame(q, start0 as int, end0 as int, bounds@) && q + 1024 <= self.total_pages && (stopped
                        || q * PAGE_SIZE < start) ==> #[trigger] frame_listed(self.lists@, q),
                self.wf(),
                self.allocated == old(self).allocated,
                self.total_pages == old(self).total_pages,
                end <= end0,
                end % PAGE_SIZE == 0,
                forall|o: int, i: int|
                    0 <= o < MAX_ORDER && 0 <= i < self.lists@[o].len() ==> l0[o].contains(
                        #[trigger] self.lists@[o][i],
                    ) || (block_within(self.lists@[o][i], o as nat, start0 as int, end0 as int)
                        && avoids_reserved(self.lists@[o][i], o as nat, bounds@)
                        && largest_block(self.lists@[o][i], o as nat, end0 as int, bounds@)),
            decreases if start < end { end - start } else { 0 },
        {
            let mut in_reserved = false;
            let mut j: usize = 0;
            while j < bounds.len() && !(start >= bounds[j].0 && start < bounds[j].1)
                invariant
                    j <= bounds@.len(),
                    forall|k: int| 0 <= k < j ==> !((#[trigger] bounds@[k]).0 <= start < bounds@[k].1),
                decreases bounds@.len() - j,
            {
                j = j + 1;
            }
            if j < bounds.len() {
                let (_, res_end) = bounds[j];
                let ghost old_start = start;
                start = if res_end % PAGE_SIZE == 0 {
                    res_end
                } else {
                    align_up(res_end, PAGE_SIZE)
                };
                in_reserved = true;
                assert(start > old_start);
                proof {
                    assert forall|q: int|
                        clear_frame(q, start0 as int, end0 as int, bounds@) && q + 1024 <= self.total_pages && (stopped
                            || q * PAGE_SIZE < start) implies #[trigger] frame_listed(self.lists@, q) by {
                        if !stopped && old_start <= q * PAGE_SIZE {
                            lemma_frame_vs_aligned(q, start as int);
                            assert(!(bounds@[j as int].0 <= q * PAGE_SIZE < bounds@[j as int].1));
                        }
                    }
                }
            }
            if in_reserved || start >= end {
                continue;
            }
            let mut next_boundary = end;
            let mut k: usize = 0;
            let ghost mut bm: int = -1;
            while k < bounds.len()
                invariant
                    start < next_boundary <= end,
                    k <= bounds@.len(),
                    forall|m: int| 0 <= m < k && (#[trigger] bounds@[m]).0 > start ==> next_boundary <= bounds@[m].0,
                    bm == -1 ==> next_boundary == end,
                    bm != -1 ==> 0 <= bm < bounds@.len() && bounds@[bm].0 == next_boundary,
                decreases bounds@.len() - k,
            {
                let (s, _) = bounds[k];
                if s > start && s < next_boundary {
                    next_boundary = s;
                    proof {
                        bm = k as int;
                    }
                }
                k = k + 1;
            }
            let size = next_boundary - start;
            let pages = size >> PAGE_SHIFT;
            assert(pages == size / 4096) by (bit_vector)
                requires
                    pages == size >> 12usize,
            ;
            if pages == 0 {
                proof {
                    lemma_frame_vs_aligned(start as int / 4096, end as int);
                    vstd::arithmetic::div_mod::lemma_fundamental_div_mod(start as int, 4096);
                    assert(bm != -1);
                    assert forall|q: int|
                        clear_frame(q, start0 as int, end0 as int, bounds@) && q + 1024 <= self.total_pages && (stopped
                            || q * PAGE_SIZE < start + PAGE_SIZE) implies #[trigger] frame_listed(self.lists@, q) by {
                        if !stopped && start <= q * PAGE_SIZE {
                            lemma_frame_vs_aligned(q, start as int);
                            assert(q * PAGE_SIZE == start);
                            assert(!(q * PAGE_SIZE < bounds@[bm].0 < (q + 1) * PAGE_SIZE));
                        }
                    }
                }
                start = start + PAGE_SIZE;
                continue;
            }
            let order = region_block_order(start, pages);
            proof {
                lemma_order_pages(order);
            }
            let n_pages = 1usize << order;
            let block_size = n_pages * PAGE_SIZE;
            let pfn = start >> PAGE_SHIFT;
            assert(pfn == start / 4096) by (bit_vector)
                requires
                    pfn == start >> 12usize,
            ;
            if pfn + n_pages > self.total_pages {
                proof {
                    vstd::arithmetic::div_mod::lemma_fundamental_div_mod(start as int, 4096);
                    assert forall|q: int|
                        clear_frame(q, start0 as int, end0 as int, bounds@) && q + 1024 <= self.total_pages
                            implies #[trigger] frame_listed(self.lists@, q) by {
                        if !stopped && start <= q * PAGE_SIZE {
                            assert(pfn <= q);
                        }
                    }
                    stopped = true;
                }
                break;
            }
            let ghost total = self.total_pages as nat;
            let ghost lists_f = self.lists@;
            let ghost meta_0 = self.metadata@;
            proof {
                // the new block avoids every reserved range and every block already taken
                assert(avoids_reserved(pfn, order as nat, bounds@)) by {
                    assert forall|m: int| 0 <= m < bounds@.len() implies (pfn + block_pages(order as nat)) * PAGE_SIZE
                        <= (#[trigger] bounds@[m]).0 || bounds@[m].1 <= pfn * PAGE_SIZE by {
                        assert(!(bounds@[m].0 <= start < bounds@[m].1));
                    }
                }
                vstd::arithmetic::div_mod::lemma_fundamental_div_mod(start as int, 4096);
                assert(pfn * PAGE_SIZE == start);
                assert(region_clear(lists_f, a0, pfn as int, pfn + n_pages)) by {
                    assert forall|s: int, i: int| 0 <= s < MAX_ORDER && 0 <= i < lists_f[s].len() implies
                        #[trigger] lists_f[s][i] + block_pages(s as nat) <= pfn || pfn + n_pages <= lists_f[s][i] by {
                        let c = lists_f[s][i];
                        if l0[s].contains(c) {
                            let ii = choose|ii: int| 0 <= ii < l0[s].len() && l0[s][ii] == c;
                            assert(range_present(bounds@, l0[s][ii], s as nat));
                            let m = choose|m: int| 0 <= m < bounds@.len() && (#[trigger] bounds@[m]).0 == range_of(c, s as nat).0
                                && bounds@[m].1 == range_of(c, s as nat).1;
                            assert((pfn + block_pages(order as nat)) * PAGE_SIZE <= bounds@[m].0 || bounds@[m].1 <= pfn * PAGE_SIZE);
                        }
                    }
                    assert forall|a: usize| #[trigger] a0.dom().contains(a) implies a + block_pages(a0[a]) <= pfn
                        || pfn + n_pages <= a by {
                        assert(range_present(bounds@, a, a0[a]));
                        let m = choose|m: int| 0 <= m < bounds@.len() && (#[trigger] bounds@[m]).0 == range_of(a, a0[a]).0
                            && bounds@[m].1 == range_of(a, a0[a]).1;
                        assert((pfn + block_pages(order as nat)) * PAGE_SIZE <= bounds@[m].0 || bounds@[m].1 <= pfn * PAGE_SIZE);
                    }
                }
                lemma_narrow(meta_0, lists_f, self.allocated@, total, pfn as int, pfn + n_pages, pfn as int, pfn + n_pages);
                assert forall|s: int, i: int| 0 <= s < MAX_ORDER && 0 <= i < lists_f[s].len() implies
                    #[trigger] lists_f[s][i] + block_pages(s as nat) <= pfn || pfn + n_pages <= lists_f[s][i] by {
                }
            }
            self.mark_block(pfn, order, true, true);
            proof {
                lemma_links_kept(meta_0, self.metadata@, self.free_heads@, lists_f);
                assert forall|s: int, i: int| 0 <= s < MAX_ORDER && 0 <= i < lists_f[s].len() implies
                    #[trigger] lists_f[s][i] != pfn by {
                }
            }
            let ghost meta_m = self.metadata@;
            self.push_free(pfn, order);
            proof {
                assert forall|q: int| 0 <= q < total && !(pfn <= q < pfn + block_pages(order as nat)) implies
                    #[trigger] same_at(self.metadata@, meta_0, q) by {
                    assert(meta_m[q] == meta_0[q]);
                    assert(q != pfn);
                    assert(self.metadata@[q].order == meta_m[q].order);
                    assert(self.metadata@[q].flags == meta_m[q].flags);
                }
                lemma_freed(meta_0, self.metadata@, lists_f, self.lists@, self.allocated@, total, pfn, order as nat);
                assert(largest_block(pfn, order as nat, end0 as int, bounds@)) by {
                    vstd::arithmetic::div_mod::lemma_fundamental_div_mod(start as int, 4096);
                    vstd::arithmetic::div_mod::lemma_fundamental_div_mod(size as int, 4096);
                    assert(pfn * PAGE_SIZE == start);
                    assert(pfn as int == start as int / PAGE_SIZE as int);
                    assert(order + 1 == MAX_ORDER || block_pages((order + 1) as nat) > pages || !aligned(
                        pfn as int,
                        (order + 1) as nat,
                    ));
                    assert(pages == size / 4096);
                    assert(size == next_boundary - start);
                    if order + 1 < MAX_ORDER && block_pages((order + 1) as nat) > pages {
                        let top = pfn + block_pages((order + 1) as nat);
                        assert(top * PAGE_SIZE >= start + (pages + 1) * PAGE_SIZE);
                        assert(top * PAGE_SIZE > next_boundary);
                        if bm == -1 {
                            lemma_frame_vs_aligned(top - 1, end as int);
                        } else {
                            assert(pfn * PAGE_SIZE < bounds@[bm].0 < top * PAGE_SIZE);
                        }
                    }
                }
                let lists = self.lists@;
                assert forall|o: int, i: int|
                    0 <= o < MAX_ORDER && 0 <= i < lists[o].len() implies l0[o].contains(#[trigger] lists[o][i])
                        || (block_within(lists[o][i], o as nat, start0 as int, end0 as int)
                        && avoids_reserved(lists[o][i], o as nat, bounds@)
                        && largest_block(lists[o][i], o as nat, end0 as int, bounds@)) by {
                    if !(o == order && i == 0) {
                        let ii = if o == order { i - 1 } else { i };
                        assert(lists[o][i] == lists_f[o][ii]);
                    }
                }
                assert forall|o: int, i: int|
                    0 <= o < MAX_ORDER && 0 <= i < lists[o].len() implies l0[o].contains(#[trigger] lists[o][i])
                        || lists[o][i] + block_pages(o as nat) <= (start + block_size) as int / PAGE_SIZE as int by {
                    if !(o == order && i == 0) {
                        let ii = if o == order { i - 1 } else { i };
                        assert(lists[o][i] == lists_f[o][ii]);
                    }
                }
            }
            proof {
                vstd::arithmetic::div_mod::lemma_fundamental_div_mod(start as int, 4096);
                lemma_push_keeps_blocks(lists_f, l0, order as int, pfn);
                assert forall|q: int|
                    clear_frame(q, start0 as int, end0 as int, bounds@) && q + 1024 <= self.total_pages && (stopped
                        || q * PAGE_SIZE < start + block_size) implies #[trigger] frame_listed(self.lists@, q) by {
                    if !stopped && start <= q * PAGE_SIZE {
                        lemma_pushed_block_listed(lists_f, order as int, pfn, q);
                    } else {
                        lemma_push_keeps_listed(lists_f, order as int, pfn, q);
                    }
                }
            }
            start = start + block_size;
        }
        proof {
            let lists = self.lists@;
            assert forall|o: int, i: int|
                0 <= o < MAX_ORDER && 0 <= i < lists[o].len() && !l0[o].contains(#[trigger] lists[o][i]) implies
                avoids_reserved(lists[o][i], o as nat, reserved@)
                && largest_free_block(lists[o][i], o as nat, end0 as int, reserved@, l0, a0) by {
                let p = lists[o][i];
                assert forall|m: int| 0 <= m < reserved@.len() implies (p + block_pages(o as nat)) * PAGE_SIZE
                    <= (#[trigger] reserved@[m]).0 || reserved@[m].1 <= p * PAGE_SIZE by {
                    assert(bounds@[m] == reserved@[m]);
                }
                if !largest_block(p, o as nat, end0 as int, reserved@) {
                    let m = choose|m: int| 0 <= m < bounds@.len() && p * PAGE_SIZE < (#[trigger] bounds@[m]).0
                        < (p + block_pages((o + 1) as nat)) * PAGE_SIZE;
                    if m < reserved@.len() {
                        assert(bounds@[m] == reserved@[m]);
                    } else {
                        let (b, o2) = choose|b: usize, o2: nat|
                            #[trigger] taken_block(l0, a0, b, o2) && bounds@[m].0 == range_of(b, o2).0 && bounds@[m].1 == range_of(b, o2).1;
                        assert(p < b < p + block_pages((o + 1) as nat));
                    }
                }
            }
            assert forall|q: int|
                clear_frame(q, start0 as int, end0 as int, reserved@) && q + block_pages((MAX_ORDER - 1) as nat)
                    <= self.total_pages implies #[trigger] frame_listed(lists, q) || frame_allocated(a0, q) by {
                lemma_order_pages((MAX_ORDER - 1) as usize);
                if !clear_frame(q, start0 as int, end0 as int, bounds@) {
                    let m = choose|m: int| 0 <= m < bounds@.len() && !(!((#[trigger] bounds@[m]).0 <= q * PAGE_SIZE < bounds@[m].1)
                        && !(q * PAGE_SIZE < bounds@[m].0 < (q + 1) * PAGE_SIZE));
                    if m < reserved@.len() {
                        assert(bounds@[m] == reserved@[m]);
                    } else {
                        let (b, o2) = choose|b: usize, o2: nat|
                            #[trigger] taken_block(l0, a0, b, o2) && bounds@[m].0 == range_of(b, o2).0 && bounds@[m].1 == range_of(b, o2).1;
                        assert(b <= q < b + block_pages(o2));
                        if o2 < MAX_ORDER && l0[o2 as int].contains(b) {
                            let ii = choose|ii: int| 0 <= ii < l0[o2 as int].len() && l0[o2 as int][ii] == b;
                            assert(lists[o2 as int].contains(l0[o2 as int][ii]));
                            let k = choose|k: int| 0 <= k < lists[o2 as int].len() && lists[o2 as int][k] == b;
                            assert(lists[o2 as int][k] <= q < lists[o2 as int][k] + block_pages(o2));
                        } else {
                            assert(a0.dom().contains(b));
                        }
                    }
                }
            }
        }
    }
}

} // verus!

verus! {

/// Start of a memory map entry as a physical address.
pub open spec fn area_lo(a: MemoryArea) -> int {
    (a.start as usize) as int
}

/// End of a memory map entry as a physical address.
pub open spec fn area_hi(a: MemoryArea) -> int {
    (a.end as usize) as int
}

/// The block of `order` at frame `b` is listed in `lists` and lies in an
/// available entry of the memory map before entry `k`.
pub open spec fn earlier_block(lists: Seq<Seq<usize>>, areas: Seq<MemoryArea>, k: int, b: usize, order: nat) -> bool {
    &&& order < MAX_ORDER && lists[order as int].contains(b)
    &&& exists|j: int|
        0 <= j < k && (#[trigger] areas[j]).typ == AVAILABLE_MEMORY && block_within(b, order, area_lo(areas[j]), area_hi(areas[j]))
}

/// The block of `order` at frame `p` is as large as it can be in entry `k`
/// of the memory map: see `largest_block`, where a block taken from an
/// earlier entry that begins inside the next order up counts as a boundary
/// too.
pub open spec fn largest_in_area(
    p: usize,
    order: nat,
    areas: Seq<MemoryArea>,
    k: int,
    reserved: Seq<(usize, usize)>,
    lists: Seq<Seq<usize>>,
) -> bool {
    ||| largest_block(p, order, area_hi(areas[k]), reserved)
    ||| exists|b: usize, o2: nat| #[trigger] earlier_block(lists, areas, k, b, o2) && p < b < p + block_pages(order + 1)
}

/// The block of `order` at frame `p` lies in one of the first `n` entries of
/// the memory map, that entry is available, and the block is as large as it
/// can be there (see `largest_in_area`).
pub open spec fn in_available_area(
    p: usize,
    order: nat,
    areas: Seq<MemoryArea>,
    n: int,
    reserved: Seq<(usize, usize)>,
    lists: Seq<Seq<usize>>,
) -> bool {
    exists|k: int|
        0 <= k < n && (#[trigger] areas[k]).typ == AVAILABLE_MEMORY && block_within(p, order, area_lo(areas[k]), area_hi(areas[k]))
            && largest_in_area(p, order, areas, k, reserved, lists)
}

/// Frame `q` is a whole page of the available entry `k` of the memory map
/// that no reserved range touches.
pub open spec fn usable_frame(q: int, areas: Seq<MemoryArea>, k: int, reserved: Seq<(usize, usize)>) -> bool {
    areas[k].typ == AVAILABLE_MEMORY && clear_frame(q, area_lo(areas[k]), area_hi(areas[k]), reserved)
}

/// A frame listed in some free lists stays listed in lists that keep every
/// block of them.
proof fn lemma_listed_kept(l1: Seq<Seq<usize>>, l2: Seq<Seq<usize>>, q: int)
    requires
        forall|o: int, i: int| 0 <= o < MAX_ORDER && 0 <= i < l1[o].len() ==> l2[o].contains(#[trigger] l1[o][i]),
        frame_listed(l1, q),
    ensures
        frame_listed(l2, q),
{
    let (o, i) = choose|o: int, i: int|
        #![trigger l1[o][i]]
        0 <= o < MAX_ORDER && 0 <= i < l1[o].len() && l1[o][i] <= q < l1[o][i] + block_pages(o as nat);
    assert(l2[o].contains(l1[o][i]));
    let k = choose|k: int| 0 <= k < l2[o].len() && l2[o][k] == l1[o][i];
    assert(l2[o][k] <= q < l2[o][k] + block_pages(o as nat));
}

/// Whether every available entry of `areas` and every reserved range can be
/// rounded up to a page within the address space, as `BuddyAllocator::new`
/// needs.
pub fn allocator_inputs_fit(areas: &[MemoryArea], reserved: &[(usize, usize)]) -> (b: bool)
    ensures
        b == ((forall|i: int| 0 <= i < areas@.len() && (#[trigger] areas@[i]).typ == AVAILABLE_MEMORY
            ==> area_lo(areas@[i]) + PAGE_SIZE <= usize::MAX)
            && (forall|j: int| 0 <= j < reserved@.len() ==> (#[trigger] reserved@[j]).1 + PAGE_SIZE <= usize::MAX)),
{
    let mut i: usize = 0;
    while i < areas.len()
        invariant
            i <= areas@.len(),
            forall|x: int| 0 <= x < i && (#[trigger] areas@[x]).typ == AVAILABLE_MEMORY ==> area_lo(areas@[x])
                + PAGE_SIZE <= usize::MAX,
        decreases areas@.len() - i,
    {
        let a = areas[i];
        if is_available_area(a.typ) && a.start as usize > usize::MAX - PAGE_SIZE {
            return false;
        }
        i = i + 1;
    }
    let mut j: usize = 0;
    while j < reserved.len()
        invariant
            j <= reserved@.len(),
            forall|x: int| 0 <= x < areas@.len() && (#[trigger] areas@[x]).typ == AVAILABLE_MEMORY ==> area_lo(areas@[x])
                + PAGE_SIZE <= usize::MAX,
            forall|x: int| 0 <= x < j ==> (#[trigger] reserved@[x]).1 + PAGE_SIZE <= usize::MAX,
        decreases reserved@.len() - j,
    {
        if reserved[j].1 > usize::MAX - PAGE_SIZE {
            return false;
        }
        j = j + 1;
    }
    true
}

impl BuddyAllocator {
    /// Builds the allocator over the frames described by `metadata` (one entry
    /// per frame, all overwritten) and adds the free pages of every available
    /// memory map entry that overlap no reserved range, as aligned blocks as
    /// large as possible. Every such page ends up in a free block unless it
    /// lies within a largest block of the end of the managed frames; a page
    /// that two entries share is listed once.
    pub fn new(metadata: Vec<PageInfo>, mem_map: &[MemoryArea], reserved: &[(usize, usize)]) -> (r: Self)
        requires
            metadata@.len() < u32::MAX,
            metadata@.len() * PAGE_SIZE <= usize::MAX,
            forall|i: int| 0 <= i < mem_map@.len() && (#[trigger] mem_map@[i]).typ == AVAILABLE_MEMORY
                ==> area_lo(mem_map@[i]) + PAGE_SIZE <= usize::MAX,
            forall|j: int| 0 <= j < reserved@.len() ==> (#[trigger] reserved@[j]).1 + PAGE_SIZE <= usize::MAX,
        ensures
            r.wf(),
            r.total() == metadata@.len(),
            r.allocated_blocks() == Map::<usize, nat>::empty(),
            forall|o: int, i: int|
                0 <= o < MAX_ORDER && 0 <= i < r.free_lists()[o].len() ==> in_available_area(
                    #[trigger] r.free_lists()[o][i], o as nat, mem_map@, mem_map@.len() as int, reserved@, r.free_lists())
                    && avoids_reserved(r.free_lists()[o][i], o as nat, reserved@),
            forall|q: int, k: int|
                0 <= k < mem_map@.len() && #[trigger] usable_frame(q, mem_map@, k, reserved@) && q + block_pages(
                    (MAX_ORDER - 1) as nat) <= r.total() ==> frame_listed(r.free_lists(), q),
    {
        let total_pages = metadata.len();
        let mut metadata = metadata;
        let mut q: usize = 0;
        while q < total_pages
            invariant
                metadata@.len() == total_pages,
                q <= total_pages,
                forall|x: int| 0 <= x < q ==> #[trigger] metadata@[x] == PageInfo::blank(),
            decreases total_pages - q,
        {
            metadata.set(q, PageInfo { order: 255, flags: 0, next: LINK_NONE, prev: LINK_NONE });
            q = q + 1;
        }
        let mut free_heads: Vec<Option<usize>> = Vec::new();
        let mut o: usize = 0;
        while o < MAX_ORDER
            invariant
                o <= MAX_ORDER,
                free_heads@.len() == o,
                forall|x: int| 0 <= x < o ==> #[trigger] free_heads@[x] == None::<usize>,
            decreases MAX_ORDER - o,
        {
            free_heads.push(None);
            o = o + 1;
        }
        let ghost empty_lists = Seq::new(MAX_ORDER as nat, |x: int| Seq::<usize>::empty());
        let mut buddy = BuddyAllocator {
            metadata,
            free_heads,
            total_pages,
            lists: Ghost(empty_lists),
            allocated: Ghost(Map::empty()),
        };
        proof {
            assert(0u8 & 1u8 == 0u8) by (bit_vector);
            assert(linked(buddy.metadata@, buddy.free_heads@, buddy.lists@));
            assert(heads_accounted(buddy.metadata@, buddy.lists@, buddy.allocated@, 0, 0)) by {
                assert forall|x: int| 0 <= x < buddy.metadata@.len() implies !(#[trigger] buddy.metadata@[x]).head_bit() by {
                    assert(buddy.metadata@[x] == PageInfo::blank());
                }
            }
        }
        let mut k: usize = 0;
        while k < mem_map.len()
            invariant
                buddy.wf(),
                buddy.total_pages == total_pages,
                buddy.allocated@ == Map::<usize, nat>::empty(),
                k <= mem_map@.len(),
                forall|i: int| 0 <= i < mem_map@.len() && (#[trigger] mem_map@[i]).typ == AVAILABLE_MEMORY
                    ==> area_lo(mem_map@[i]) + PAGE_SIZE <= usize::MAX,
                forall|j: int| 0 <= j < reserved@.len() ==> (#[trigger] reserved@[j]).1 + PAGE_SIZE <= usize::MAX,
                forall|o: int, i: int|
                    0 <= o < MAX_ORDER && 0 <= i < buddy.lists@[o].len() ==> in_available_area(
                        #[trigger] buddy.lists@[o][i], o as nat, mem_map@, k as int, reserved@, buddy.lists@)
                        && avoids_reserved(buddy.lists@[o][i], o as nat, reserved@),
                forall|q: int, kk: int|
                    0 <= kk < k && #[trigger] usable_frame(q, mem_map@, kk, reserved@) && q + block_pages(
                        (MAX_ORDER - 1) as nat) <= total_pages ==> frame_listed(buddy.lists@, q),
            decreases mem_map@.len() - k,
        {
            let area = mem_map[k];
            if is_available_area(area.typ) {
                let start = area.start as usize;
                let end = area.end as usize;
                let ghost l_before = buddy.lists@;
                buddy.add_region(start, end, reserved);
                proof {
                    let lists = buddy.lists@;
                    assert(mem_map@[k as int] == area);
                    assert forall|o: int, i: int|
                        0 <= o < MAX_ORDER && 0 <= i < lists[o].len() implies in_available_area(
                            #[trigger] lists[o][i], o as nat, mem_map@, (k + 1) as int, reserved@, lists)
                            && avoids_reserved(lists[o][i], o as nat, reserved@) by {
                        let p = lists[o][i];
                        if l_before[o].contains(p) {
                            let ii = choose|ii: int| 0 <= ii < l_before[o].len() && l_before[o][ii] == p;
                            assert(l_before[o][ii] == p);
                            let kk = choose|kk: int| 0 <= kk < k && (#[trigger] mem_map@[kk]).typ == AVAILABLE_MEMORY
                                && block_within(p, o as nat, area_lo(mem_map@[kk]), area_hi(mem_map@[kk]))
                                && largest_in_area(p, o as nat, mem_map@, kk, reserved@, l_before);
                            if !largest_block(p, o as nat, area_hi(mem_map@[kk]), reserved@) {
                                let (b, o2) = choose|b: usize, o2: nat|
                                    #[trigger] earlier_block(l_before, mem_map@, kk, b, o2) && p < b < p + block_pages(
                                        o as nat + 1);
                                let i2 = choose|i2: int| 0 <= i2 < l_before[o2 as int].len() && l_before[o2 as int][i2] == b;
                                assert(lists[o2 as int].contains(l_before[o2 as int][i2]));
                                assert(earlier_block(lists, mem_map@, kk, b, o2));
                            }
                            assert(largest_in_area(p, o as nat, mem_map@, kk, reserved@, lists));
                        } else {
                            assert(mem_map@[k as int].typ == AVAILABLE_MEMORY);
                            if !largest_block(p, o as nat, area_hi(mem_map@[k as int]), reserved@) {
                                let (b, o2) = choose|b: usize, o2: nat|
                                    #[trigger] taken_block(l_before, Map::<usize, nat>::empty(), b, o2) && p < b < p
                                        + block_pages(o as nat + 1);
                                let i2 = choose|i2: int| 0 <= i2 < l_before[o2 as int].len() && l_before[o2 as int][i2] == b;
                                assert(l_before[o2 as int][i2] == b);
                                let kk = choose|kk: int| 0 <= kk < k && (#[trigger] mem_map@[kk]).typ == AVAILABLE_MEMORY
                                    && block_within(b, o2, area_lo(mem_map@[kk]), area_hi(mem_map@[kk]))
                                    && largest_in_area(b, o2, mem_map@, kk, reserved@, l_before);
                                assert(lists[o2 as int].contains(l_before[o2 as int][i2]));
                                assert(earlier_block(lists, mem_map@, k as int, b, o2));
                            }
                            assert(largest_in_area(p, o as nat, mem_map@, k as int, reserved@, lists));
                        }
                    }
                    assert forall|q: int, kk: int|
                        0 <= kk < k + 1 && #[trigger] usable_frame(q, mem_map@, kk, reserved@) && q + block_pages(
                            (MAX_ORDER - 1) as nat) <= total_pages implies frame_listed(lists, q) by {
                        if kk < k {
                            lemma_listed_kept(l_before, lists, q);
                        } else {
                            assert(!frame_allocated(Map::<usize, nat>::empty(), q));
                        }
                    }
                }
            } else {
                proof {
                    assert(mem_map@[k as int] == area);
                    assert forall|o: int, i: int|
                        0 <= o < MAX_ORDER && 0 <= i < buddy.lists@[o].len() implies in_available_area(
                            #[trigger] buddy.lists@[o][i], o as nat, mem_map@, (k + 1) as int, reserved@, buddy.lists@) by {
                        let p = buddy.lists@[o][i];
                        let kk = choose|kk: int| 0 <= kk < k && (#[trigger] mem_map@[kk]).typ == AVAILABLE_MEMORY
                            && block_within(p, o as nat, area_lo(mem_map@[kk]), area_hi(mem_map@[kk]))
                                && largest_in_area(p, o as nat, mem_map@, kk, reserved@, buddy.lists@);
                        assert(mem_map@[kk].typ == AVAILABLE_MEMORY);
                    }
                }
            }
            k = k + 1;
        }
        buddy
    }
}

} // verus!

verus! {

/// The block that `choose_block` picks is a listed block of order at least `o`.
pub proof fn lemma_choose_block(lists: Seq<Seq<usize>>, place: Placement, order: nat, o: nat)
    ensures
        choose_block(lists, place, order, o) matches Some((o2, i)) ==> o <= o2 < MAX_ORDER && 0 <= i < lists[o2 as int].len()
            && accepts(place, lists[o2 as int][i], order),
    decreases MAX_ORDER - o,
{
    if o < MAX_ORDER {
        lemma_first_fit(lists[o as int], place, order, 0);
        lemma_choose_block(lists, place, order, o + 1);
    }
}

/// Pushing a block on a free list lists exactly the frames listed before
/// and the frames of that block.
proof fn lemma_push_listed_exact(lists: Seq<Seq<usize>>, order: int, pfn: usize)
    requires
        lists.len() == MAX_ORDER,
        0 <= order < MAX_ORDER,
    ensures
        forall|q: int|
            #[trigger] frame_listed(lists.update(order, seq![pfn] + lists[order]), q) <==> frame_listed(lists, q) || pfn
                <= q < pfn + block_pages(order as nat),
{
    let l2 = lists.update(order, seq![pfn] + lists[order]);
    assert forall|q: int|
        #[trigger] frame_listed(l2, q) <==> frame_listed(lists, q) || pfn <= q < pfn + block_pages(order as nat) by {
        if frame_listed(l2, q) {
            let (o, i) = choose|o: int, i: int|
                #![trigger l2[o][i]]
                0 <= o < MAX_ORDER && 0 <= i < l2[o].len() && l2[o][i] <= q < l2[o][i] + block_pages(o as nat);
            if o == order && i > 0 {
                assert(l2[o][i] == lists[o][i - 1]);
            } else if o != order {
                assert(l2[o][i] == lists[o][i]);
            }
        }
        if frame_listed(lists, q) {
            lemma_push_keeps_listed(lists, order, pfn, q);
        }
        if pfn <= q < pfn + block_pages(order as nat) {
            lemma_pushed_block_listed(lists, order, pfn, q);
        }
    }
}

/// Taking block `b` off the list of `order` unlists its frames and no others.
proof fn lemma_remove_listed(lists: Seq<Seq<usize>>, order: int, idx: int, q: int)
    requires
        lists.len() == MAX_ORDER,
        0 <= order < MAX_ORDER,
        0 <= idx < lists[order].len(),
    ensures
        frame_listed(lists.update(order, lists[order].remove(idx)), q) ==> frame_listed(lists, q),
        frame_listed(lists, q) && !(lists[order][idx] <= q < lists[order][idx] + block_pages(order as nat))
            ==> frame_listed(lists.update(order, lists[order].remove(idx)), q),
{
    let l2 = lists.update(order, lists[order].remove(idx));
    if frame_listed(l2, q) {
        let (o, i) = choose|o: int, i: int|
            #![trigger l2[o][i]]
            0 <= o < MAX_ORDER && 0 <= i < l2[o].len() && l2[o][i] <= q < l2[o][i] + block_pages(o as nat);
        if o == order {
            if i < idx {
                assert(l2[o][i] == lists[o][i]);
            } else {
                assert(l2[o][i] == lists[o][i + 1]);
            }
        } else {
            assert(l2[o][i] == lists[o][i]);
        }
    }
    if frame_listed(lists, q) && !(lists[order][idx] <= q < lists[order][idx] + block_pages(order as nat)) {
        let (o, i) = choose|o: int, i: int|
            #![trigger lists[o][i]]
            0 <= o < MAX_ORDER && 0 <= i < lists[o].len() && lists[o][i] <= q < lists[o][i] + block_pages(o as nat);
        if o == order {
            if i < idx {
                assert(l2[o][i] == lists[o][i]);
            } else {
                assert(i != idx);
                assert(l2[o][i - 1] == lists[o][i]);
            }
        } else {
            assert(l2[o][i] == lists[o][i]);
        }
    }
}

/// Coalescing keeps the frames of the lists and the block being freed: after
/// `merge_spec`, the lists and the merged block hold the same frames as
/// before, and the merged block is aligned to its order.
proof fn lemma_merge_frames(lists: Seq<Seq<usize>>, cur: usize, order: nat, total: nat)
    requires
        lists.len() == MAX_ORDER,
        order < MAX_ORDER,
        aligned(cur as int, order),
    ensures
        ({
            let (ls, c, o) = merge_spec(lists, cur, order, total);
            &&& ls.len() == MAX_ORDER
            &&& o < MAX_ORDER
            &&& forall|q: int|
                #![trigger frame_listed(ls, q)]
                #![trigger frame_listed(lists, q)]
                frame_listed(ls, q) || c <= q < c + block_pages(o) <==> frame_listed(lists, q) || cur <= q < cur
                    + block_pages(order)
        }),
    decreases MAX_ORDER - order,
{
    if order + 1 < MAX_ORDER {
        let b = buddy_of(cur, order);
        if !(b >= total || !lists[order as int].contains(b)) {
            let idx = lists[order as int].index_of(b);
            let l2 = lists.update(order as int, lists[order as int].remove(idx));
            let c2 = if b < cur { b } else { cur };
            lemma_merge_buddy(cur, order as usize);
            lemma_order_pages(order as usize);
            assert(lists[order as int][idx] == b);
            lemma_merge_frames(l2, c2, order + 1, total);
            let (ls, c, o) = merge_spec(l2, c2, order + 1, total);
            assert(merge_spec(lists, cur, order, total) == (ls, c, o));
            assert forall|q: int|
                #![trigger frame_listed(ls, q)]
                #![trigger frame_listed(lists, q)]
                frame_listed(ls, q) || c <= q < c + block_pages(o) <==> frame_listed(lists, q) || cur <= q < cur
                    + block_pages(order) by {
                lemma_remove_listed(lists, order as int, idx, q);
                assert(frame_listed(l2, q) || c2 <= q < c2 + block_pages(order + 1) <==> frame_listed(ls, q) || c <= q
                    < c + block_pages(o));
                if b <= q < b + block_pages(order) {
                    assert(frame_listed(lists, q)) by {
                        assert(lists[order as int][idx] <= q < lists[order as int][idx] + block_pages(order));
                    }
                }
            }
        }
    }
}

/// Deallocating a block adds exactly its frames to the frames of the free
/// lists, whatever buddies it merges with.
pub proof fn law_deallocation_frees(
    b: BuddyAllocator,
    pfn: usize,
    new_lists: Seq<Seq<usize>>,
    new_alloc: Map<usize, nat>,
)
    requires
        b.wf(),
        b.allocated_blocks().dom().contains(pfn),
        free_outcome(b.free_lists(), b.allocated_blocks(), b.total(), pfn, new_lists, new_alloc),
    ensures
        forall|q: int|
            #[trigger] frame_listed(new_lists, q) <==> frame_listed(b.free_lists(), q) || pfn <= q < pfn + block_pages(
                b.allocated_blocks()[pfn]),
{
    lemma_free_frames(b.free_lists(), b.allocated_blocks(), b.total(), pfn, new_lists, new_alloc);
}

/// Coalescing stops only at a block whose buddy is not a listed free block
/// of its order, and the final block holds the freed one.
proof fn lemma_merge_stops(lists: Seq<Seq<usize>>, cur: usize, order: nat, total: nat)
    requires
        lists.len() == MAX_ORDER,
        order < MAX_ORDER,
        aligned(cur as int, order),
    ensures
        ({
            let (ls, c, o) = merge_spec(lists, cur, order, total);
            &&& ls.len() == MAX_ORDER
            &&& order <= o < MAX_ORDER
            &&& c <= cur
            &&& cur + block_pages(order) <= c + block_pages(o)
            &&& aligned(c as int, o)
            &&& o + 1 >= MAX_ORDER || buddy_of(c, o) >= total || !ls[o as int].contains(buddy_of(c, o))
        }),
    decreases MAX_ORDER - order,
{
    if order + 1 < MAX_ORDER {
        let b = buddy_of(cur, order);
        if !(b >= total || !lists[order as int].contains(b)) {
            let idx = lists[order as int].index_of(b);
            let l2 = lists.update(order as int, lists[order as int].remove(idx));
            let c2 = if b < cur { b } else { cur };
            lemma_merge_buddy(cur, order as usize);
            lemma_order_pages(order as usize);
            lemma_merge_stops(l2, c2, order + 1, total);
            let (ls, c, o) = merge_spec(l2, c2, order + 1, total);
            assert(merge_spec(lists, cur, order, total) == (ls, c, o));
        }
    }
}

/// Freeing a block coalesces it as far as it goes: the block that holds the
/// freed frames afterwards is at the head of its list, at least as large as
/// the freed one, and its buddy is not a free block of the same order (or it
/// has none: it is of the largest order or its buddy lies past the managed
/// frames).
pub proof fn law_deallocation_coalesces(
    b: BuddyAllocator,
    pfn: usize,
    new_lists: Seq<Seq<usize>>,
    new_alloc: Map<usize, nat>,
)
    requires
        b.wf(),
        b.allocated_blocks().dom().contains(pfn),
        free_outcome(b.free_lists(), b.allocated_blocks(), b.total(), pfn, new_lists, new_alloc),
    ensures
        exists|o: int, c: usize|
            #![trigger new_lists[o].contains(c)]
            0 <= o < MAX_ORDER && new_lists[o].len() > 0 && new_lists[o][0] == c && new_lists[o].contains(c)
                && c <= pfn && pfn + block_pages(b.allocated_blocks()[pfn]) <= c + block_pages(o as nat)
                && (o + 1 >= MAX_ORDER || buddy_of(c, o as nat) >= b.total()
                || !new_lists[o].contains(buddy_of(c, o as nat))),
{
    let lists = b.free_lists();
    let alloc = b.allocated_blocks();
    let k = alloc[pfn];
    lemma_merge_stops(lists, pfn, k, b.total());
    let (ls, c, o) = merge_spec(lists, pfn, k, b.total());
    let l = seq![c] + ls[o as int];
    assert(new_lists[o as int] == l);
    assert(l[0] == c);
    assert(new_lists[o as int].contains(c));
    if o + 1 < MAX_ORDER {
        let bd = buddy_of(c, o);
        lemma_merge_buddy(c, o as usize);
        lemma_order_pages(o as usize);
        assert(bd != c);
        if bd < b.total() && l.contains(bd) {
            let j = choose|j: int| 0 <= j < l.len() && l[j] == bd;
            assert(j != 0);
            assert(ls[o as int][j - 1] == bd);
        }
    }
}

/// See `law_deallocation_frees`, over the lists and allocations themselves.
proof fn lemma_free_frames(
    lists: Seq<Seq<usize>>,
    alloc: Map<usize, nat>,
    total: nat,
    pfn: usize,
    new_lists: Seq<Seq<usize>>,
    new_alloc: Map<usize, nat>,
)
    requires
        lists.len() == MAX_ORDER,
        alloc.dom().contains(pfn),
        alloc[pfn] < MAX_ORDER,
        aligned(pfn as int, alloc[pfn]),
        free_outcome(lists, alloc, total, pfn, new_lists, new_alloc),
    ensures
        forall|q: int|
            #[trigger] frame_listed(new_lists, q) <==> frame_listed(lists, q) || pfn <= q < pfn + block_pages(alloc[pfn]),
{
    lemma_merge_frames(lists, pfn, alloc[pfn], total);
    let (ls, c, o) = merge_spec(lists, pfn, alloc[pfn], total);
    lemma_push_listed_exact(ls, o as int, c);
    assert forall|q: int|
        #[trigger] frame_listed(new_lists, q) <==> frame_listed(lists, q) || pfn <= q < pfn + block_pages(alloc[pfn]) by {
        assert(frame_listed(new_lists, q) <==> frame_listed(ls, q) || c <= q < c + block_pages(o));
        assert(frame_listed(ls, q) || c <= q < c + block_pages(o) <==> frame_listed(lists, q) || pfn <= q < pfn
            + block_pages(alloc[pfn]));
    }
}

/// Block sizes grow with the order.
proof fn lemma_pages_monotone(a: nat, b: nat)
    requires
        a <= b,
    ensures
        block_pages(a) <= block_pages(b),
{
    if a < b {
        vstd::arithmetic::power2::lemma_pow2_strictly_increases(a, b);
    }
}

/// A frame of a block of order `o` above its first sub-block of order
/// `order` lies in one of the upper halves split off on the way down.
proof fn lemma_upper_half(pfn: usize, order: nat, o: nat, q: int)
    requires
        order <= o < MAX_ORDER,
        pfn + block_pages(order) <= q < pfn + block_pages(o),
    ensures
        exists|s: nat| order <= s < o && pfn + block_pages(s) <= q < pfn + #[trigger] block_pages(s + 1),
    decreases o,
{
    lemma_order_pages((o - 1) as usize);
    if q >= pfn + block_pages((o - 1) as nat) {
        assert(pfn + block_pages((o - 1) as nat) <= q < pfn + block_pages(((o - 1) + 1) as nat));
    } else {
        lemma_upper_half(pfn, order, (o - 1) as nat, q);
    }
}

/// Taking the block at `pfn` of order `o` and splitting it down to `order`
/// unlists exactly the frames of the part of order `order` at `pfn`.
proof fn lemma_split_frames(lists: Seq<Seq<usize>>, o: nat, i: int, pfn: usize, order: nat, q: int)
    requires
        lists.len() == MAX_ORDER,
        order <= o < MAX_ORDER,
        0 <= i < lists[o as int].len(),
        lists[o as int][i] == pfn,
        lists_disjoint(lists),
        pfn + block_pages(o) <= usize::MAX,
    ensures
        frame_listed(split_lists(lists, o, i, pfn, order), q) <==> frame_listed(lists, q) && !(pfn <= q < pfn
            + block_pages(order)),
{
    let l2 = split_lists(lists, o, i, pfn, order);
    lemma_pages_monotone(order, o);
    if frame_listed(l2, q) {
        let (s, j) = choose|s: int, j: int|
            #![trigger l2[s][j]]
            0 <= s < MAX_ORDER && 0 <= j < l2[s].len() && l2[s][j] <= q < l2[s][j] + block_pages(s as nat);
        if s == o {
            let jj = if j < i { j } else { j + 1 };
            assert(l2[s][j] == lists[s][jj]);
            assert(disjoint(lists[s][jj] as int, s as nat, lists[o as int][i] as int, o));
        } else if order <= s < o {
            if j == 0 {
                lemma_order_pages(s as usize);
                lemma_pages_monotone((s + 1) as nat, o);
                lemma_pages_monotone(order, s as nat);
                assert(lists[o as int][i] <= q < lists[o as int][i] + block_pages(o));
            } else {
                assert(l2[s][j] == lists[s][j - 1]);
                assert(disjoint(lists[s][j - 1] as int, s as nat, lists[o as int][i] as int, o));
            }
        } else {
            assert(l2[s][j] == lists[s][j]);
            assert(disjoint(lists[s][j] as int, s as nat, lists[o as int][i] as int, o));
        }
    }
    if frame_listed(lists, q) && !(pfn <= q < pfn + block_pages(order)) {
        let (s, j) = choose|s: int, j: int|
            #![trigger lists[s][j]]
            0 <= s < MAX_ORDER && 0 <= j < lists[s].len() && lists[s][j] <= q < lists[s][j] + block_pages(s as nat);
        if s == o && j == i {
            lemma_upper_half(pfn, order, o, q);
            let t = choose|t: nat| order <= t < o && pfn + block_pages(t) <= q < pfn + #[trigger] block_pages(t + 1);
            lemma_order_pages(t as usize);
            assert(l2[t as int][0] == (pfn + block_pages(t)) as usize);
            assert(l2[t as int][0] <= q < l2[t as int][0] + block_pages(t));
        } else if s == o {
            let jj = if j < i { j } else { j - 1 };
            assert(l2[s][jj] == lists[s][j]);
        } else if order <= s < o {
            assert(l2[s][j + 1] == lists[s][j]);
        } else {
            assert(l2[s][j] == lists[s][j]);
        }
    }
}

/// An allocation unlists exactly the frames of the block it hands out.
pub proof fn law_allocation_takes(
    b: BuddyAllocator,
    order: nat,
    place: Placement,
    r: Option<usize>,
    new_lists: Seq<Seq<usize>>,
    new_alloc: Map<usize, nat>,
)
    requires
        b.wf(),
        order < MAX_ORDER,
        alloc_outcome(b.free_lists(), b.allocated_blocks(), order, place, r, new_lists, new_alloc),
        r is Some,
    ensures
        forall|q: int|
            #[trigger] frame_listed(new_lists, q) <==> frame_listed(b.free_lists(), q) && !(r->Some_0 / PAGE_SIZE <= q
                < r->Some_0 / PAGE_SIZE + block_pages(order)),
{
    let lists = b.free_lists();
    lemma_chosen_block(b, order, place);
    let (o, i) = choose_block(lists, place, order, order)->Some_0;
    let pfn = lists[o as int][i];
    assert(r->Some_0 / PAGE_SIZE == pfn);
    assert forall|q: int|
        #[trigger] frame_listed(new_lists, q) <==> frame_listed(lists, q) && !(r->Some_0 / PAGE_SIZE <= q < r->Some_0
            / PAGE_SIZE + block_pages(order)) by {
        lemma_split_frames(lists, o, i, pfn, order, q);
    }
}

/// What the allocator's invariant says of the block an allocation picks.
#[verifier::spinoff_prover]
#[verifier::rlimit(40)]
proof fn lemma_chosen_block(b: BuddyAllocator, order: nat, place: Placement)
    requires
        b.wf(),
        order < MAX_ORDER,
        choose_block(b.free_lists(), place, order, order) is Some,
    ensures
        ({
            let (o, i) = choose_block(b.free_lists(), place, order, order)->Some_0;
            let pfn = b.free_lists()[o as int][i];
            &&& order <= o < MAX_ORDER
            &&& 0 <= i < b.free_lists()[o as int].len()
            &&& aligned(pfn as int, order)
            &&& pfn + block_pages(o) <= b.total()
            &&& pfn * PAGE_SIZE <= usize::MAX
            &&& !b.allocated_blocks().dom().contains(pfn)
        }),
        b.free_lists().len() == MAX_ORDER,
        lists_disjoint(b.free_lists()),
{
    let lists = b.free_lists();
    lemma_choose_block(lists, place, order, order);
    let (o, i) = choose_block(lists, place, order, order)->Some_0;
    let pfn = lists[o as int][i];
    assert(entry_ok(b.meta(), pfn, o, b.total()));
    if order < o {
        lemma_split_buddy(pfn, order as usize, o as usize);
    }
    assert(!b.allocated_blocks().dom().contains(pfn)) by {
        if b.allocated_blocks().dom().contains(pfn) {
            assert(disjoint(lists[o as int][i] as int, o, pfn as int, b.allocated_blocks()[pfn]));
        }
    }
}

/// Freeing what an allocation handed out gives back the free frames and
/// the allocated blocks there were before it.
pub proof fn law_allocate_then_free(
    b: BuddyAllocator,
    order: nat,
    place: Placement,
    r: Option<usize>,
    lists1: Seq<Seq<usize>>,
    alloc1: Map<usize, nat>,
    lists2: Seq<Seq<usize>>,
    alloc2: Map<usize, nat>,
)
    requires
        b.wf(),
        order < MAX_ORDER,
        alloc_outcome(b.free_lists(), b.allocated_blocks(), order, place, r, lists1, alloc1),
        r is Some,
        free_outcome(lists1, alloc1, b.total(), r->Some_0 / PAGE_SIZE, lists2, alloc2),
    ensures
        alloc2 == b.allocated_blocks(),
        forall|q: int| #[trigger] frame_listed(lists2, q) <==> frame_listed(b.free_lists(), q),
{
    let lists = b.free_lists();
    lemma_chosen_block(b, order, place);
    law_allocation_takes(b, order, place, r, lists1, alloc1);
    let (o, i) = choose_block(lists, place, order, order)->Some_0;
    let pfn = lists[o as int][i];
    assert(r->Some_0 / PAGE_SIZE == pfn);
    assert(alloc2 =~= b.allocated_blocks());
    lemma_free_frames(lists1, alloc1, b.total(), pfn, lists2, alloc2);
    assert forall|q: int| #[trigger] frame_listed(lists2, q) <==> frame_listed(lists, q) by {
        assert(frame_listed(lists2, q) <==> frame_listed(lists1, q) || pfn <= q < pfn + block_pages(order));
        assert(frame_listed(lists1, q) <==> frame_listed(lists, q) && !(pfn <= q < pfn + block_pages(order)));
        if pfn <= q < pfn + block_pages(order) {
            lemma_pages_monotone(order, o);
            assert(lists[o as int][i] <= q < lists[o as int][i] + block_pages(o));
        }
    }
}

/// An allocation hands out a block that was not allocated before: aligned to
/// its size, inside the managed frames, and overlapping no block allocated
/// before. The allocated blocks gain exactly that block.
pub proof fn law_allocation_fresh(b0: BuddyAllocator, b1: BuddyAllocator, order: nat, place: Placement, r: Option<usize>)
    requires
        b0.wf(),
        b1.wf(),
        order < MAX_ORDER,
        b1.total() == b0.total(),
        alloc_outcome(b0.free_lists(), b0.allocated_blocks(), order, place, r, b1.free_lists(), b1.allocated_blocks()),
        r is Some,
    ensures
        ({
            let addr = r->Some_0;
            let pfn = addr / PAGE_SIZE;
            &&& addr == pfn * PAGE_SIZE
            &&& !b0.allocated_blocks().dom().contains(pfn)
            &&& b1.allocated_blocks() == b0.allocated_blocks().insert(pfn, order)
            &&& aligned(pfn as int, order)
            &&& pfn + block_pages(order) <= b0.total()
            &&& forall|q: usize| #[trigger] b0.allocated_blocks().dom().contains(q) ==> disjoint(
                pfn as int,
                order,
                q as int,
                b0.allocated_blocks()[q],
            )
        }),
{
    let lists = b0.free_lists();
    let alloc = b0.allocated_blocks();
    lemma_choose_block(lists, place, order, order);
    let (o, i) = choose_block(lists, place, order, order)->Some_0;
    let p = lists[o as int][i];
    assert(entries_ok(b0.metadata@, b0.lists@, b0.total_pages as nat));
    assert(entry_ok(b0.metadata@, p, o, b0.total_pages as nat));
    assert(p * PAGE_SIZE <= usize::MAX) by (nonlinear_arith)
        requires
            p < b0.total_pages,
            b0.total_pages * PAGE_SIZE <= usize::MAX,
    ;
    assert((p * PAGE_SIZE) / (PAGE_SIZE as int) == p) by (nonlinear_arith);
    assert(!alloc.dom().contains(p)) by {
        if alloc.dom().contains(p) {
            assert(free_alloc_disjoint(b0.lists@, b0.allocated@));
            assert(disjoint(lists[o as int][i] as int, o, p as int, alloc[p]));
            lemma_pow2_pos(o);
            lemma_pow2_pos(alloc[p]);
        }
    }
    let a1 = b1.allocated_blocks();
    assert(a1.dom().contains(p));
    assert(alloc_ok(b1.metadata@, b1.allocated@, b1.total_pages as nat));
    assert forall|q: usize| #[trigger] alloc.dom().contains(q) implies disjoint(p as int, order, q as int, alloc[q]) by {
        assert(a1.dom().contains(q) && q != p);
        assert(alloc_disjoint(b1.allocated@));
        assert(a1[q] == alloc[q]);
    }
}

/// Every allocated block is aligned to its size and lies inside the managed
/// frames, and two different allocated blocks never overlap.
pub proof fn law_allocated_blocks(b: BuddyAllocator, p: usize, q: usize)
    requires
        b.wf(),
        b.allocated_blocks().dom().contains(p),
    ensures
        b.allocated_blocks()[p] < MAX_ORDER,
        aligned(p as int, b.allocated_blocks()[p]),
        p + block_pages(b.allocated_blocks()[p]) <= b.total(),
        b.allocated_blocks().dom().contains(q) && p != q ==> disjoint(
            p as int,
            b.allocated_blocks()[p],
            q as int,
            b.allocated_blocks()[q],
        ),
{
    assert(alloc_ok(b.metadata@, b.allocated@, b.total_pages as nat));
    assert(alloc_disjoint(b.allocated@));
}

/// Deallocating a block takes exactly that block out of the allocated ones.
pub proof fn law_deallocation_releases(lists: Seq<Seq<usize>>, alloc: Map<usize, nat>, total: nat, pfn: usize, new_lists: Seq<Seq<usize>>, new_alloc: Map<usize, nat>)
    requires
        free_outcome(lists, alloc, total, pfn, new_lists, new_alloc),
    ensures
        new_alloc == alloc.remove(pfn),
        !new_alloc.dom().contains(pfn),
{
}

} // verus!
