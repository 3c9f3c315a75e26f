use vstd::prelude::*;
use crate::arith::{is_power_of_two, lemma_mask_mod, usize_is_power_of_two};

verus! {

/// Size and alignment of a requested allocation.
///
/// Like `core::alloc::Layout`, the alignment is a power of two and the size,
/// rounded up to the alignment, does not exceed `isize::MAX`.
#[derive(Clone, Copy, Debug, PartialEq, Eq)]
pub struct Layout {
    size: usize,
    align: usize,
}

/// Returned by `Layout::from_size_align` for an invalid size/alignment pair.
#[derive(Clone, Copy, Debug, PartialEq, Eq)]
pub struct LayoutError;

/// Whether `size` and `align` form a valid layout.
pub open spec fn layout_valid(size: int, align: int) -> bool {
    &&& is_power_of_two(align)
    &&& size + (align - 1) <= isize::MAX
}

impl Layout {
    #[verifier::type_invariant]
    spec fn inv(self) -> bool {
        layout_valid(self.size as int, self.align as int)
    }

    /// Size in bytes.
    pub closed spec fn size_spec(&self) -> usize {
        self.size
    }

    /// Alignment in bytes.
    pub closed spec fn align_spec(&self) -> usize {
        self.align
    }

    /// Builds a layout; fails exactly when the pair is not valid.
    pub fn from_size_align(size: usize, align: usize) -> (r: Result<Layout, LayoutError>)
        ensures
            r is Ok <==> layout_valid(size as int, align as int),
            r matches Ok(l) ==> l.size_spec() == size && l.align_spec() == align,
    {
        if !usize_is_power_of_two(align) {
            return Err(LayoutError);
        }
        proof {
            lemma_mask_mod(0, align);
        }
        if align - 1 > isize::MAX as usize || size > (isize::MAX as usize) - (align - 1) {
            return Err(LayoutError);
        }
        Ok(Layout { size, align })
    }

    /// The size in bytes.
    #[verifier::when_used_as_spec(size_spec)]
    pub fn size(&self) -> (r: usize)
        ensures
            r == self.size_spec(),
            layout_valid(self.size_spec() as int, self.align_spec() as int),
    {
        proof {
            use_type_invariant(self);
        }
        self.size
    }

    /// The alignment in bytes.
    #[verifier::when_used_as_spec(align_spec)]
    pub fn align(&self) -> (r: usize)
        ensures
            r == self.align_spec(),
    {
        self.align
    }
}

/// How a heap block is laid out: a header at its start, then a back pointer
/// right below the user pointer, and blocks are multiples of `block_align`.
#[derive(Clone, Copy, Debug, PartialEq, Eq)]
pub struct AllocationGeometry {
    pub header_size: usize,
    pub block_align: usize,
    pub back_ptr_size: usize,
}

/// Where an allocation sits in a block and how much of the block it uses.
#[derive(Clone, Copy, Debug, PartialEq, Eq)]
pub struct AllocationPlacement {
    pub user_ptr: usize,
    pub used_size: usize,
}

/// The smallest multiple of `align` that is at least `addr`.
pub open spec fn round_up(addr: int, align: int) -> int {
    ((addr + align - 1) / align) * align
}

/// `align_up` succeeds when `addr + align - 1` does not overflow.
pub open spec fn align_up_spec(addr: int, align: int) -> Option<int> {
    if addr + align - 1 > usize::MAX {
        None
    } else {
        Some(round_up(addr, align))
    }
}

/// The user pointer of an allocation placed in the block at `block_start`.
pub open spec fn user_ptr_spec(block_start: int, align: int, geometry: AllocationGeometry) -> Option<int> {
    let after_header = block_start + geometry.header_size;
    let after_back_ptr = after_header + geometry.back_ptr_size;
    if after_header > usize::MAX || after_back_ptr > usize::MAX {
        None
    } else {
        align_up_spec(after_back_ptr, align)
    }
}

/// The bytes of a block, counted from `block_start`, that an allocation of
/// `size` bytes aligned to `align` occupies.
pub open spec fn required_size_spec(block_start: int, size: int, align: int, geometry: AllocationGeometry) -> Option<int> {
    match user_ptr_spec(block_start, align, geometry) {
        None => None,
        Some(user_ptr) => {
            let allocation_end = user_ptr + size;
            if allocation_end > usize::MAX {
                None
            } else {
                match align_up_spec(allocation_end, geometry.block_align as int) {
                    None => None,
                    Some(used_end) => if used_end < block_start { None } else { Some(used_end - block_start) },
                }
            }
        },
    }
}

/// The placement in a block of `block_size` bytes, if the allocation fits.
pub open spec fn placement_spec(block_start: int, block_size: int, size: int, align: int, geometry: AllocationGeometry) -> Option<AllocationPlacement> {
    match required_size_spec(block_start, size, align, geometry) {
        None => None,
        Some(used) => if used <= block_size {
            Some(AllocationPlacement {
                user_ptr: user_ptr_spec(block_start, align, geometry)->0 as usize,
                used_size: used as usize,
            })
        } else {
            None
        },
    }
}

proof fn lemma_round_up(addr: int, align: int)
    requires
        align > 0,
        addr >= 0,
    ensures
        round_up(addr, align) % align == 0,
        addr <= round_up(addr, align) < addr + align,
        round_up(addr, align) == (addr + align - 1) - (addr + align - 1) % align,
{
    vstd::arithmetic::div_mod::lemma_fundamental_div_mod(addr + align - 1, align);
    vstd::arithmetic::div_mod::lemma_mod_multiples_basic((addr + align - 1) / align, align);
    vstd::arithmetic::div_mod::lemma_mod_bound(addr + align - 1, align);
    assert(round_up(addr, align) == align * ((addr + align - 1) / align)) by {
        vstd::arithmetic::mul::lemma_mul_is_commutative((addr + align - 1) / align, align);
    }
}

/// Rounds `addr` up to the next multiple of the power of two `align`, or
/// `None` when `addr + align - 1` overflows.
pub fn align_up(addr: usize, align: usize) -> (r: Option<usize>)
    requires
        is_power_of_two(align as int),
    ensures
        r is Some <==> align_up_spec(addr as int, align as int) is Some,
        r matches Some(v) ==> align_up_spec(addr as int, align as int) == Some(v as int),
        r matches Some(v) ==> v % align == 0 && addr <= v < addr + align,
{
    proof {
        lemma_mask_mod(0, align);
    }
    let mask = align.checked_sub(1);
    let mask = match mask {
        Some(m) => m,
        None => {
            return None;
        },
    };
    match addr.checked_add(mask) {
        Some(v) => {
            proof {
                lemma_mask_mod(v, align);
                lemma_round_up(addr as int, align as int);
            }
            Some(v & !mask)
        },
        None => None,
    }
}

/// The layout actually used by the heap: at least one byte, aligned to at
/// least `min_align`.
pub fn normalize_layout(layout: Layout, min_align: usize) -> (r: Layout)
    requires
        is_power_of_two(min_align as int),
        layout_valid(
            if layout.size_spec() > 1 { layout.size_spec() as int } else { 1 },
            if layout.align_spec() > min_align { layout.align_spec() as int } else { min_align as int },
        ),
    ensures
        r.size_spec() == if layout.size_spec() > 1 { layout.size_spec() } else { 1 },
        r.align_spec() == if layout.align_spec() > min_align { layout.align_spec() } else { min_align },
{
    let size = if layout.size() > 1 { layout.size() } else { 1 };
    let align = if layout.align() > min_align { layout.align() } else { min_align };
    match Layout::from_size_align(size, align) {
        Ok(l) => l,
        Err(_) => {
            assert(false);
            layout
        },
    }
}

/// The user pointer for an allocation with `layout` in the block at
/// `block_start`: past the header and the back pointer, aligned up.
pub fn user_ptr_for_block(block_start: usize, layout: Layout, geometry: AllocationGeometry) -> (r: Option<usize>)
    ensures
        r is Some <==> user_ptr_spec(block_start as int, layout.align_spec() as int, geometry) is Some,
        r matches Some(v) ==> user_ptr_spec(block_start as int, layout.align_spec() as int, geometry) == Some(v as int),
        r matches Some(v) ==> v % layout.align_spec() == 0 && v >= block_start + geometry.header_size + geometry.back_ptr_size,
{
    proof {
        use_type_invariant(&layout);
    }
    let after_header = match block_start.checked_add(geometry.header_size) {
        Some(v) => v,
        None => {
            return None;
        },
    };
    let after_back_ptr = match after_header.checked_add(geometry.back_ptr_size) {
        Some(v) => v,
        None => {
            return None;
        },
    };
    align_up(after_back_ptr, layout.align())
}

/// The number of bytes from `block_start` that an allocation with `layout`
/// occupies, rounded up to `geometry.block_align`.
pub fn required_block_size(block_start: usize, layout: Layout, geometry: AllocationGeometry) -> (r: Option<usize>)
    requires
        is_power_of_two(geometry.block_align as int),
    ensures
        r is Some <==> required_size_spec(block_start as int, layout.size_spec() as int, layout.align_spec() as int, geometry) is Some,
        r matches Some(v) ==> required_size_spec(block_start as int, layout.size_spec() as int, layout.align_spec() as int, geometry) == Some(v as int),
{
    let user_ptr = match user_ptr_for_block(block_start, layout, geometry) {
        Some(v) => v,
        None => {
            return None;
        },
    };
    let allocation_end = match user_ptr.checked_add(layout.size()) {
        Some(v) => v,
        None => {
            return None;
        },
    };
    match align_up(allocation_end, geometry.block_align) {
        Some(used_end) => used_end.checked_sub(block_start),
        None => None,
    }
}

/// Places an allocation with `layout` in the free block
/// `[block_start, block_start + block_size)`, or `None` when it does not fit or
/// an address computation overflows.
pub fn allocation_for_block(block_start: usize, block_size: usize, layout: Layout, geometry: AllocationGeometry) -> (r: Option<AllocationPlacement>)
    requires
        is_power_of_two(geometry.block_align as int),
    ensures
        r == placement_spec(block_start as int, block_size as int, layout.size_spec() as int, layout.align_spec() as int, geometry),
        r matches Some(p) ==> {
            &&& p.user_ptr % layout.align_spec() == 0
            &&& p.user_ptr >= block_start + geometry.header_size + geometry.back_ptr_size
            &&& p.user_ptr + layout.size_spec() <= block_start + p.used_size
            &&& (block_start + p.used_size) % (geometry.block_align as int) == 0
            &&& p.used_size <= block_size
        },
{
    proof {
        use_type_invariant(&layout);
    }
    let user_ptr = match user_ptr_for_block(block_start, layout, geometry) {
        Some(v) => v,
        None => {
            return None;
        },
    };
    let allocation_end = match user_ptr.checked_add(layout.size()) {
        Some(v) => v,
        None => {
            return None;
        },
    };
    let used_end = match align_up(allocation_end, geometry.block_align) {
        Some(v) => v,
        None => {
            return None;
        },
    };
    let used_size = match used_end.checked_sub(block_start) {
        Some(v) => v,
        None => {
            return None;
        },
    };
    if used_size <= block_size {
        assert(user_ptr % layout.align_spec() == 0);
        assert(user_ptr >= block_start + geometry.header_size + geometry.back_ptr_size);
        assert(user_ptr + layout.size_spec() <= block_start + used_size);
        assert(used_end % geometry.block_align == 0);
        Some(AllocationPlacement { user_ptr, used_size })
    } else {
        None
    }
}

/// An allocation fits a block exactly when the size it requires is available.
pub proof fn law_fits_iff_required_size_fits(block_start: usize, block_size: usize, layout: Layout, geometry: AllocationGeometry)
    ensures
        placement_spec(block_start as int, block_size as int, layout.size_spec() as int, layout.align_spec() as int, geometry) is Some
            <==> (required_size_spec(block_start as int, layout.size_spec() as int, layout.align_spec() as int, geometry) matches Some(s) && s <= block_size),
{
}

} // verus!
