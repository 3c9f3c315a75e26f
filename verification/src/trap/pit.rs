use vstd::prelude::*;
use crate::trap::PortWrite;

verus! {

/// Data port of channel 0.
pub const PIT_CHANNEL0: u16 = 0x40;
/// Command port.
pub const PIT_COMMAND: u16 = 0x43;
/// Input frequency of the timer, in Hz.
pub const PIT_BASE_FREQ: u32 = 1_193_182;
/// Channel 0, low then high byte, square wave, binary.
pub const PIT_MODE: u8 = 0x36;

/// The writes that program channel 0 with the low sixteen bits of `divisor`:
/// the mode, then the low and the high byte.
pub open spec fn pit_spec(divisor: u32) -> Seq<PortWrite> {
    let d = divisor as u16;
    seq![
        PortWrite { port: PIT_COMMAND, value: PIT_MODE },
        PortWrite { port: PIT_CHANNEL0, value: (d & 0xff) as u8 },
        PortWrite { port: PIT_CHANNEL0, value: (d >> 8) as u8 },
    ]
}

/// The writes that program the timer with `divisor`; see `pit_spec`.
pub fn init(divisor: u32) -> (w: Vec<PortWrite>)
    ensures
        w@ == pit_spec(divisor),
{
    let d = divisor as u16;
    let mut w: Vec<PortWrite> = Vec::new();
    w.push(PortWrite { port: PIT_COMMAND, value: PIT_MODE });
    w.push(PortWrite { port: PIT_CHANNEL0, value: (d & 0xff) as u8 });
    w.push(PortWrite { port: PIT_CHANNEL0, value: (d >> 8) as u8 });
    assert(w@ =~= pit_spec(divisor));
    w
}

/// The writes that make the timer tick 100 times a second.
pub fn init_100hz() -> (w: Vec<PortWrite>)
    ensures
        w@ == pit_spec(11931),
{
    init(PIT_BASE_FREQ / 100)
}

} // verus!
