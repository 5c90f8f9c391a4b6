//! The graphics card: clock, busy share and video memory.
use vstd::prelude::*;
use vstd::utf8::*;
use crate::text::{parse_bounded, parse_u16, parse_usize};
use crate::unit_types::{Magnitude, Size, shifted};
use crate::ITER;

verus! {

/// The clock in megahertz that the part of `pp_dpm_sclk` kept by a reading
/// gives: the text ` 70` stands for 700, any other text is read as a `u16`.
pub open spec fn clock_reading(text: Seq<char>) -> Option<nat> {
    if text == " 70"@ {
        Some(700)
    } else {
        parse_bounded(encode_utf8(text), u16::MAX as nat)
    }
}

/// A byte count read as a `usize`, in mebibytes.
pub open spec fn mebibytes(text: Seq<char>) -> Option<nat> {
    match parse_bounded(encode_utf8(text), usize::MAX as nat) {
        Some(v) => Some(v / 1_048_576),
        None => None,
    }
}

/// The clock that `clock_reading` states.
pub fn read_clock(text: &str) -> (r: Option<u16>)
    ensures
        r matches Some(v) ==> clock_reading(text@) == Some(v as nat),
        r is None ==> clock_reading(text@) is None,
{
    let ghost lit = " 70"@;
    proof {
        reveal_strlit(" 70");
        assert(is_ascii_chars(lit));
        is_ascii_chars_encode_utf8(lit);
        assert(encode_utf8(lit) =~= seq![32u8, 55u8, 48u8]);
        encode_utf8_decode_utf8(lit);
        encode_utf8_decode_utf8(text@);
    }
    let bytes = text.as_bytes();
    if bytes.len() == 3 && bytes[0] == 32u8 && bytes[1] == 55u8 && bytes[2] == 48u8 {
        assert(encode_utf8(text@) =~= encode_utf8(lit));
        return Some(700);
    }
    parse_u16(text)
}

/// The mebibytes that `mebibytes` states.
pub fn read_mebibytes(text: &str) -> (r: Option<usize>)
    ensures
        r matches Some(v) ==> mebibytes(text@) == Some(v as nat),
        r is None ==> mebibytes(text@) is None,
{
    match parse_usize(text) {
        Some(v) => Some(v / 1_048_576),
        None => None,
    }
}

/// The graphics card behind `/sys/class/drm/renderD128`.
#[derive(Debug)]
pub struct Gpu {
    pub clock: Magnitude,
    pub util: Magnitude,
    pub memory: Size,
}

impl Gpu {
    /// Every window holds `ITER` readings.
    pub open spec fn well_formed(&self) -> bool {
        self.clock.well_formed() && self.util.well_formed()
    }

    /// The card with empty windows and `vram_total` (the text of
    /// `mem_info_vram_total`) as its video memory total.
    pub fn new(vram_total: &str) -> (g: Self)
        requires
            mebibytes(vram_total@) is Some,
        ensures
            g.well_formed(),
            g.clock.source() == "/sys/class/drm/renderD128/device/pp_dpm_sclk"@,
            g.util.source() == "/sys/class/drm/renderD128/device/gpu_busy_percent"@,
            g.memory.source() == "/sys/class/drm/renderD128/device/mem_info_vram_used"@,
            g.clock.window() == Seq::new(ITER as nat, |i: int| 0u16),
            g.util.window() == Seq::new(ITER as nat, |i: int| 0u16),
            g.memory.total == mebibytes(vram_total@)->0,
            g.memory.used == 0,
    {
        let total = match read_mebibytes(vram_total) {
            Some(v) => v,
            None => 0,
        };
        Gpu {
            clock: Magnitude::new("/sys/class/drm/renderD128/device/pp_dpm_sclk"),
            util: Magnitude::new("/sys/class/drm/renderD128/device/gpu_busy_percent"),
            memory: Size::new("/sys/class/drm/renderD128/device/mem_info_vram_used", total),
        }
    }

    /// Takes in a clock reading (the text kept of `pp_dpm_sclk`), a busy
    /// share reading and the video memory in use in bytes; hands back the
    /// clock and the share that left their windows.
    pub fn update(&mut self, clock: &str, util: &str, vram_used: &str) -> (evicted: (u16, u16))
        requires
            old(self).well_formed(),
            clock_reading(clock@) is Some,
            parse_bounded(encode_utf8(util@), u16::MAX as nat) is Some,
            mebibytes(vram_used@) is Some,
        ensures
            final(self).well_formed(),
            final(self).clock.window() == shifted(old(self).clock.window(), clock_reading(clock@)->0 as u16),
            final(self).util.window() == shifted(
                old(self).util.window(),
                parse_bounded(encode_utf8(util@), u16::MAX as nat)->0 as u16,
            ),
            final(self).clock.source() == old(self).clock.source(),
            final(self).util.source() == old(self).util.source(),
            final(self).memory.used == mebibytes(vram_used@)->0,
            final(self).memory.total == old(self).memory.total,
            final(self).memory.file == old(self).memory.file,
            evicted.0 == old(self).clock.window()[0],
            evicted.1 == old(self).util.window()[0],
    {
        let c = match read_clock(clock) {
            Some(v) => v,
            None => 0,
        };
        let u = match parse_u16(util) {
            Some(v) => v,
            None => 0,
        };
        let m = match read_mebibytes(vram_used) {
            Some(v) => v,
            None => 0,
        };
        let out_clock = self.clock.add(c);
        let out_util = self.util.add(u);
        self.memory.used = m;
        (out_clock, out_util)
    }
}

} // verus!
