use vstd::prelude::*;
use crate::arith::{is_power_of_two, lemma_mask_mod};

verus! {

/// Virtual base of the code slot of the process with pid 0.
pub const USER_CODE_BASE: u64 = 0x0000_0000_0040_0000;
/// Distance between the code slots (and the stack slots) of consecutive pids.
pub const USER_SLOT_SIZE: u64 = 0x20_0000;
/// Top of the user stack of the process with pid 0.
pub const USER_STACK_TOP: u64 = 0x0000_7fff_ffff_f000;
/// Number of timer ticks a process runs before it is preempted.
pub const DEFAULT_TIME_SLICE_TICKS: u32 = 5;

/// Start of the user code slot of `pid`: slots are laid out upwards from
/// `USER_CODE_BASE`, one `USER_SLOT_SIZE` apart.
pub fn user_code_base(pid: u64) -> (r: u64)
    requires
        USER_CODE_BASE + pid * USER_SLOT_SIZE <= u64::MAX,
    ensures
        r == USER_CODE_BASE + pid * USER_SLOT_SIZE,
{
    USER_CODE_BASE + pid * USER_SLOT_SIZE
}

/// Top of the user stack of `pid`: stacks are laid out downwards from
/// `USER_STACK_TOP`, one `USER_SLOT_SIZE` apart.
pub fn user_stack_top(pid: u64) -> (r: u64)
    requires
        pid * USER_SLOT_SIZE <= USER_STACK_TOP,
    ensures
        r == USER_STACK_TOP - pid * USER_SLOT_SIZE,
{
    USER_STACK_TOP - pid * USER_SLOT_SIZE
}

/// The tick count after one tick has been spent (it never goes below zero).
pub open spec fn ticks_after(ticks_left: u32) -> u32 {
    if ticks_left > 0 { (ticks_left - 1) as u32 } else { 0 }
}

/// Spends one tick of the time slice. When the slice is used up the counter is
/// reloaded with `default_slice` and `true` (reschedule) is returned.
pub fn consume_tick(ticks_left: &mut u32, default_slice: u32) -> (expired: bool)
    ensures
        expired == (ticks_after(*old(ticks_left)) == 0),
        expired ==> *final(ticks_left) == default_slice,
        !expired ==> *final(ticks_left) == ticks_after(*old(ticks_left)),
{
    if *ticks_left > 0 {
        *ticks_left -= 1;
    }
    if *ticks_left == 0 {
        *ticks_left = default_slice;
        true
    } else {
        false
    }
}

/// Clears the bits of `addr` below `align`; for a power-of-two `align` this is
/// the greatest multiple of `align` not above `addr`.
pub fn align_down(addr: usize, align: usize) -> (r: usize)
    requires
        align > 0,
    ensures
        r == addr & !((align - 1) as usize),
        is_power_of_two(align as int) ==> r == addr - addr % align,
        is_power_of_two(align as int) ==> r % align == 0,
{
    proof {
        if is_power_of_two(align as int) {
            lemma_mask_mod(addr, align);
        }
    }
    addr & !(align - 1)
}

} // verus!
