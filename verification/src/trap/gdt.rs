use vstd::prelude::*;

verus! {

/// Selector of the kernel code segment.
pub const KERNEL_CODE_SELECTOR: u16 = 0x08;
/// Selector of the kernel data segment.
pub const KERNEL_DATA_SELECTOR: u16 = 0x10;
/// Selector of the user data segment, with requested privilege level 3.
pub const USER_DATA_SELECTOR: u16 = 0x18 | 3;
/// Selector of the user code segment, with requested privilege level 3.
pub const USER_CODE_SELECTOR: u16 = 0x20 | 3;
/// Selector of the task state segment.
pub const TSS_SELECTOR: u16 = 0x28;
/// Interrupt stack used for double faults.
pub const DOUBLE_FAULT_IST_INDEX: u8 = 1;
/// Number of descriptors in the table.
pub const GDT_ENTRIES: usize = 7;
/// Size of each of the two boot stacks.
pub const STACK_SIZE: usize = 16384;
/// Slot of the low half of the task state segment descriptor.
pub const GDT_TSS_LOW: usize = 5;
/// Slot of the high half of the task state segment descriptor.
pub const GDT_TSS_HIGH: usize = 6;

/// A flat 64-bit segment descriptor with access byte `access` and flags `flags`.
pub open spec fn segment_bits(access: u8, flags: u8) -> u64 {
    0xFFFFu64 | ((access as u64) << 40u64) | (0xFu64 << 48u64) | ((flags as u64) << 52u64)
}

/// The two halves of a 64-bit TSS descriptor for `base` and `limit`.
pub open spec fn tss_bits(base: u64, limit: u32) -> (u64, u64) {
    (
        ((limit as u64) & 0xFFFF) | ((base & 0xFF_FFFF) << 16u64) | (0x89u64 << 40u64) | ((((limit as u64) >> 16u64) & 0xF)
            << 48u64) | (((base >> 24u64) & 0xFF) << 56u64),
        base >> 32u64,
    )
}

/// A flat segment descriptor (base 0, limit 0xFFFFF) with the given access byte and flags.
pub fn segment_descriptor(access: u8, flags: u8) -> (d: u64)
    ensures
        d == segment_bits(access, flags),
{
    let limit: u64 = 0x000F_FFFF;
    proof {
        assert((limit & 0xFFFF) == 0xFFFFu64 && ((limit >> 16u64) & 0xF) == 0xFu64) by (bit_vector)
            requires
                limit == 0x000F_FFFFu64,
        ;
    }
    (limit & 0xFFFF) | ((access as u64) << 40) | (((limit >> 16) & 0xF) << 48) | ((flags as u64) << 52)
}

/// The two descriptor slots of a task state segment at `base` with `limit`.
pub fn tss_descriptor(base: u64, limit: u32) -> (r: (u64, u64))
    ensures
        r == tss_bits(base, limit),
{
    let low = ((limit as u64) & 0xFFFF) | ((base & 0xFF_FFFF) << 16) | (0x89u64 << 40) | ((((limit as u64) >> 16) & 0xF)
        << 48) | (((base >> 24) & 0xFF) << 56);
    let high = base >> 32;
    (low, high)
}

/// The descriptor table before the TSS is installed: null, kernel code,
/// kernel data, user data, user code, and two empty TSS slots.
pub fn initial_gdt() -> (t: [u64; 7])
    ensures
        t@ == seq![
            0u64,
            segment_bits(0x9A, 0xA),
            segment_bits(0x92, 0xC),
            segment_bits(0xF2, 0xC),
            segment_bits(0xFA, 0xA),
            0u64,
            0u64,
        ],
{
    [0, segment_descriptor(0x9A, 0xA), segment_descriptor(0x92, 0xC), segment_descriptor(0xF2, 0xC), segment_descriptor(
        0xFA,
        0xA,
    ), 0, 0]
}

/// The privilege level a descriptor grants.
pub open spec fn descriptor_level(d: u64) -> u64 {
    (d >> 45u64) & 3
}

/// Each segment selector names the descriptor of its segment, and the
/// privilege level it requests is the level of that descriptor.
pub proof fn law_selectors_match_descriptors()
    ensures
        KERNEL_CODE_SELECTOR >> 3u16 == 1 && KERNEL_CODE_SELECTOR & 3 == 0,
        KERNEL_DATA_SELECTOR >> 3u16 == 2 && KERNEL_DATA_SELECTOR & 3 == 0,
        USER_DATA_SELECTOR >> 3u16 == 3 && USER_DATA_SELECTOR & 3 == 3,
        USER_CODE_SELECTOR >> 3u16 == 4 && USER_CODE_SELECTOR & 3 == 3,
        TSS_SELECTOR >> 3u16 == GDT_TSS_LOW,
        descriptor_level(segment_bits(0x9A, 0xA)) == 0,
        descriptor_level(segment_bits(0x92, 0xC)) == 0,
        descriptor_level(segment_bits(0xF2, 0xC)) == 3,
        descriptor_level(segment_bits(0xFA, 0xA)) == 3,
{
    assert(0x08u16 >> 3u16 == 1 && 0x08u16 & 3 == 0 && 0x10u16 >> 3u16 == 2 && 0x10u16 & 3 == 0) by (bit_vector);
    assert((0x18u16 | 3) >> 3u16 == 3 && (0x18u16 | 3) & 3 == 3 && (0x20u16 | 3) >> 3u16 == 4 && (0x20u16 | 3) & 3
        == 3 && 0x28u16 >> 3u16 == 5) by (bit_vector);
    assert(((0xFFFFu64 | ((0x9Au8 as u64) << 40u64) | (0xFu64 << 48u64) | ((0xAu8 as u64) << 52u64)) >> 45u64) & 3
        == 0) by (bit_vector);
    assert(((0xFFFFu64 | ((0x92u8 as u64) << 40u64) | (0xFu64 << 48u64) | ((0xCu8 as u64) << 52u64)) >> 45u64) & 3
        == 0) by (bit_vector);
    assert(((0xFFFFu64 | ((0xF2u8 as u64) << 40u64) | (0xFu64 << 48u64) | ((0xCu8 as u64) << 52u64)) >> 45u64) & 3
        == 3) by (bit_vector);
    assert(((0xFFFFu64 | ((0xFAu8 as u64) << 40u64) | (0xFu64 << 48u64) | ((0xAu8 as u64) << 52u64)) >> 45u64) & 3
        == 3) by (bit_vector);
}

/// The base and the 20-bit limit are read back from a TSS descriptor unchanged.
pub proof fn law_tss_descriptor_round_trip(base: u64, limit: u32)
    ensures
        ({
            let (low, high) = tss_bits(base, limit);
            &&& ((low >> 16u64) & 0xFF_FFFF) | (((low >> 56u64) & 0xFF) << 24u64) | (high << 32u64) == base
            &&& (low & 0xFFFF) | (((low >> 48u64) & 0xF) << 16u64) == (limit as u64) & 0xF_FFFF
            &&& (low >> 40u64) & 0xFF == 0x89
        }),
{
    let low = ((limit as u64) & 0xFFFF) | ((base & 0xFF_FFFF) << 16u64) | (0x89u64 << 40u64) | ((((limit as u64)
        >> 16u64) & 0xF) << 48u64) | (((base >> 24u64) & 0xFF) << 56u64);
    let high = base >> 32u64;
    let l = limit as u64;
    assert(l <= 0xFFFF_FFFF);
    assert(((((l & 0xFFFF) | ((base & 0xFF_FFFF) << 16u64) | (0x89u64 << 40u64) | (((l >> 16u64) & 0xF) << 48u64) | (((
    base >> 24u64) & 0xFF) << 56u64)) >> 16u64) & 0xFF_FFFF) | (((((l & 0xFFFF) | ((base & 0xFF_FFFF) << 16u64) | (
    0x89u64 << 40u64) | (((l >> 16u64) & 0xF) << 48u64) | (((base >> 24u64) & 0xFF) << 56u64)) >> 56u64) & 0xFF)
        << 24u64) | ((base >> 32u64) << 32u64) == base) by (bit_vector);
    assert((((l & 0xFFFF) | ((base & 0xFF_FFFF) << 16u64) | (0x89u64 << 40u64) | (((l >> 16u64) & 0xF) << 48u64) | (((
    base >> 24u64) & 0xFF) << 56u64)) & 0xFFFF) | (((((l & 0xFFFF) | ((base & 0xFF_FFFF) << 16u64) | (0x89u64 << 40u64)
        | (((l >> 16u64) & 0xF) << 48u64) | (((base >> 24u64) & 0xFF) << 56u64)) >> 48u64) & 0xF) << 16u64) == l
        & 0xF_FFFF) by (bit_vector);
    assert(((((l & 0xFFFF) | ((base & 0xFF_FFFF) << 16u64) | (0x89u64 << 40u64) | (((l >> 16u64) & 0xF) << 48u64) | (((
    base >> 24u64) & 0xFF) << 56u64)) >> 40u64) & 0xFF) == 0x89) by (bit_vector);
}

/// Size of the task state segment, in bytes; also where its (empty) I/O map starts.
pub const TSS_SIZE: u16 = 104;

/// The fields of the task state segment that the kernel sets: the stacks
/// for entering rings 0 to 2, the seven interrupt stacks, and the offset of
/// the I/O permission map.
#[derive(Debug, Clone, Copy, PartialEq, Eq)]
pub struct TaskStateSegment {
    pub rsp: [u64; 3],
    pub ist: [u64; 7],
    pub iomap_base: u16,
}

impl TaskStateSegment {
    /// A segment with no stacks and no I/O map.
    pub fn new() -> (t: Self)
        ensures
            forall|i: int| 0 <= i < 3 ==> t.rsp@[i] == 0,
            forall|i: int| 0 <= i < 7 ==> t.ist@[i] == 0,
            t.iomap_base == TSS_SIZE,
    {
        TaskStateSegment { rsp: [0; 3], ist: [0; 7], iomap_base: TSS_SIZE }
    }

    /// Sets the stack the CPU switches to when it enters ring 0 from user mode.
    pub fn set_kernel_stack(&mut self, stack_top: usize)
        ensures
            final(self).rsp@ == old(self).rsp@.update(0, stack_top as u64),
            final(self).ist == old(self).ist,
            final(self).iomap_base == old(self).iomap_base,
    {
        self.rsp.set(0, stack_top as u64);
    }

    /// Sets the ring-0 stack and the stack the double fault runs on.
    pub fn init_stacks(&mut self, ring0_top: usize, double_fault_top: usize)
        ensures
            final(self).rsp@ == old(self).rsp@.update(0, ring0_top as u64),
            final(self).ist@ == old(self).ist@.update(DOUBLE_FAULT_IST_INDEX - 1, double_fault_top as u64),
            final(self).iomap_base == old(self).iomap_base,
    {
        self.rsp.set(0, ring0_top as u64);
        self.ist.set((DOUBLE_FAULT_IST_INDEX - 1) as usize, double_fault_top as u64);
    }
}

/// The top of a stack of `STACK_SIZE` bytes that starts at `base`.
pub fn stack_top(base: usize) -> (r: usize)
    requires
        base + STACK_SIZE <= usize::MAX,
    ensures
        r == base + STACK_SIZE,
{
    base + STACK_SIZE
}

} // verus!
