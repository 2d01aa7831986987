use vstd::prelude::*;

verus! {

/// Basic colors - values match CSS definitions, packed as 0x00_RR_GG_BB.
pub const BLACK: u32 = 0x00_00_00_00;

pub const WHITE: u32 = 0x00_FF_FF_FF;

pub const RED: u32 = 0x00_FF_00_00;

pub const LIME: u32 = 0x00_00_FF_00;

pub const BLUE: u32 = 0x00_00_00_FF;

pub const YELLOW: u32 = 0x00_FF_FF_00;

pub const CYAN: u32 = 0x00_00_FF_FF;

pub const MAGENTA: u32 = 0x00_FF_00_FF;

pub const SILVER: u32 = 0x00_C0_C0_C0;

pub const GRAY: u32 = 0x00_80_80_80;

pub const MAROON: u32 = 0x00_80_00_00;

pub const OLIVE: u32 = 0x00_80_80_00;

pub const GREEN: u32 = 0x00_00_80_00;

pub const PURPLE: u32 = 0x00_80_00_80;

pub const TEAL: u32 = 0x00_00_80_80;

pub const NAVY: u32 = 0x00_00_00_80;

} // verus!
