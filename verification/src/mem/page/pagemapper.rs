use vstd::prelude::*;

verus! {

/// Start of the higher half, where all physical memory is mapped at `KERNEL_VMA + phys`.
pub const KERNEL_VMA: u64 = 0xFFFF_8000_0000_0000;
/// Page tables must lie below this physical address, which the boot page tables cover.
pub const EARLY_PAGE_TABLE_LIMIT: usize = 0x4000_0000;

} // verus!
