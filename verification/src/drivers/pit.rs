//! The programmable interval timer.
use vstd::prelude::*;

verus! {

/// IRQ line of the PIT.
pub const PIT_IRQ: u8 = 0;
/// Data port of channel 0.
pub const CHANNEL0_DATA_PORT: u16 = 0x40;
/// Command port.
pub const CMD_PORT: u16 = 0x43;
/// Channel 0, low byte then high byte, rate generator, binary.
pub const ICW: u8 = 0x36;
/// Input frequency constant of the timer.
pub const INPUT_CLOCK_FREQUENCY: u32 = 3579545;

/// The reload value for a period of `ms` milliseconds, as a 16-bit counter.
pub open spec fn spec_reload(ms: int) -> int {
    ((ms * INPUT_CLOCK_FREQUENCY) / 3000) % 0x1_0000
}

/// The port writes that program channel 0 for a period of `ms` milliseconds: the command,
/// then the low and high bytes of the reload value.
pub fn set_frequency(ms: u16) -> (r: Vec<(u16, u8)>)
    requires
        ms * INPUT_CLOCK_FREQUENCY <= u32::MAX,
    ensures
        r@ == seq![
            (CMD_PORT, ICW),
            (CHANNEL0_DATA_PORT, (spec_reload(ms as int) % 256) as u8),
            (CHANNEL0_DATA_PORT, (spec_reload(ms as int) / 256) as u8),
        ],
{
    let full: u32 = ((ms as u32) * INPUT_CLOCK_FREQUENCY) / 3000;
    let reload_value: u16 = full as u16;
    let mut r: Vec<(u16, u8)> = Vec::new();
    r.push((CMD_PORT, ICW));
    r.push((CHANNEL0_DATA_PORT, (reload_value & 0xFF) as u8));
    r.push((CHANNEL0_DATA_PORT, (reload_value >> 8) as u8));
    proof {
        assert((full as u16) as int == full % 0x1_0000) by (bit_vector);
        assert(((reload_value & 0xFFu16) as u8) as int == reload_value % 256 && ((reload_value >> 8u16) as u8) as int == reload_value / 256) by (bit_vector);
        assert(r@ =~= seq![
            (CMD_PORT, ICW),
            (CHANNEL0_DATA_PORT, (spec_reload(ms as int) % 256) as u8),
            (CHANNEL0_DATA_PORT, (spec_reload(ms as int) / 256) as u8),
        ]);
    }
    r
}

} // verus!
