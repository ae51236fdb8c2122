//! Waveform look-up tables.
//!
//! The controller's LUT register reads back as one 107-byte image. It opens
//! with the waveform voltages of five LUT rows, then come the timings: for each
//! phase four durations and a repeat count. Behind them lies a trailer with
//! the drive voltages. How long rows and trailer are depends on the variant.

use vstd::prelude::*;

verus! {

/// Length of one LUT image.
pub const LUT_LEN: usize = 107;

/// Lowest ambient temperature (in degrees Celsius) covered by a LUT table.
/// Below this, entry 0 is used.
pub const LUT_TABLE_MIN_C: i16 = -10;

/// Width of one LUT-table band in tenths of a degree.
pub const LUT_TABLE_STEP_C10: u16 = 40;

/// Number of LUT-table entries. 16 bands of 4 degrees cover -10 to +54.
pub const LUT_TABLE_SIZE: usize = 16;

/// Default LUT-cycle scale. `100` = OEM duration.
pub const DEFAULT_LUT_SPEED_SSD1675: u8 = 100;

pub const DEFAULT_LUT_SPEED_SSD1675B: u8 = 100;

/// Display controller variant.
#[derive(Debug, Clone, Copy, PartialEq, Eq, Structural)]
pub enum DisplayVariant {
    /// 10-byte-per-row LUT format: 50 waveform bytes, 50 timing bytes, voltage
    /// trailer in bytes 100..=106.
    Ssd1675B,
    /// 7-byte-per-row LUT format: 35 waveform bytes, 35 timing bytes, voltage
    /// trailer in bytes 70..=75.
    Ssd1675,
}

impl DisplayVariant {
    /// Number of bytes pushed to the controller's LUT register.
    pub open spec fn body_len(self) -> int {
        match self {
            DisplayVariant::Ssd1675 => 70,
            DisplayVariant::Ssd1675B => 99,
        }
    }

    /// First byte of the timing region.
    pub open spec fn timing_start(self) -> int {
        match self {
            DisplayVariant::Ssd1675 => 35,
            DisplayVariant::Ssd1675B => 50,
        }
    }

    /// First byte behind the timing region.
    pub open spec fn timing_end(self) -> int {
        match self {
            DisplayVariant::Ssd1675 => 70,
            DisplayVariant::Ssd1675B => 100,
        }
    }

    /// Number of bytes pushed to the controller's LUT register: waveform and
    /// timing. The last timing byte of the B variant is unused.
    pub fn lut_byte_len(self) -> (n: usize)
        ensures
            n == self.body_len(),
    {
        match self {
            DisplayVariant::Ssd1675 => 70,
            DisplayVariant::Ssd1675B => 99,
        }
    }

    /// Half-open byte range of the timing-cycle bytes (durations and repeats)
    /// inside a LUT image.
    pub fn timing_range(self) -> (range: core::ops::Range<usize>)
        ensures
            range.start == self.timing_start(),
            range.end == self.timing_end(),
    {
        match self {
            DisplayVariant::Ssd1675 => 35..70,
            DisplayVariant::Ssd1675B => 50..100,
        }
    }

    /// Per-variant default of the LUT timing scale.
    pub fn default_lut_speed(self) -> (speed: u8)
        ensures
            speed == 100,
    {
        match self {
            DisplayVariant::Ssd1675 => DEFAULT_LUT_SPEED_SSD1675,
            DisplayVariant::Ssd1675B => DEFAULT_LUT_SPEED_SSD1675B,
        }
    }
}

/// Best-effort guess of the controller variant from a LUT-register readback.
///
/// Bytes 7 to 9 are the start of the second row in the 7-byte-row layout and
/// in use there; in the 10-byte-row layout they end the first row and read
/// back as zero. Byte 100 holds a voltage of the B variant and reads back as
/// zero on the other. Where the two signals disagree the row layout decides.
pub fn detect_variant_from_otp(otp: &[u8; LUT_LEN]) -> (variant: DisplayVariant)
    ensures
        variant == (if otp@[7] == 0 && otp@[8] == 0 && otp@[9] == 0 {
            DisplayVariant::Ssd1675B
        } else {
            DisplayVariant::Ssd1675
        }),
{
    let row_signal_b: bool = otp[7] == 0 && otp[8] == 0 && otp[9] == 0;
    let trailer_signal_b: bool = otp[100] != 0;
    if row_signal_b && trailer_signal_b {
        DisplayVariant::Ssd1675B
    } else if !row_signal_b && !trailer_signal_b {
        DisplayVariant::Ssd1675
    } else if row_signal_b {
        DisplayVariant::Ssd1675B
    } else {
        DisplayVariant::Ssd1675
    }
}

/// A duration cut to 30%, but never to nothing: a duration of zero skips its
/// phase.
pub open spec fn shortened(b: u8) -> u8 {
    if b == 0 {
        0
    } else if b < 7 {
        1
    } else {
        (b as int * 3 / 10) as u8
    }
}

/// Byte `i` of an SSD1675 image without its inversion phases.
///
/// Phases 0 to 2 become a uniform white wipe at 30% of their time, with VCOM
/// idle. The drive phases 3 and 4 are retimed and lose the last quarter of
/// their black drive, and phase 5 becomes a tail that only drives white.
pub open spec fn no_invert_byte(lut: Seq<u8>, i: int) -> u8 {
    if 0 <= i < 28 && i % 7 < 3 {
        0x80
    } else if 28 <= i < 31 {
        0x00
    } else if 35 <= i < 50 {
        shortened(lut[i])
    } else if i == 51 || i == 53 || i == 55 {
        2
    } else if i == 52 || i == 54 {
        ((lut[i] + 0x10) % 0x100) as u8
    } else if i == 3 || i == 4 {
        (lut[i] / 4 * 4) as u8
    } else if i == 12 || i == 26 {
        0x80
    } else if i == 5 || i == 19 || i == 33 {
        0x00
    } else if i == 60 {
        0x16
    } else if 61 <= i < 65 {
        0
    } else {
        lut[i]
    }
}

/// Byte `i` of an SSD1675B image without its inversion phases: the timings of
/// phases 0 to 2 are gone, and no phase repeats.
pub open spec fn no_invert_byte_b(lut: Seq<u8>, i: int) -> u8 {
    if 50 <= i < 64 {
        0
    } else if 50 <= i < 100 && i % 5 == 4 {
        0
    } else {
        lut[i]
    }
}

/// A LUT image without its inversion phases.
pub open spec fn no_invert(lut: Seq<u8>, variant: DisplayVariant) -> Seq<u8> {
    Seq::new(
        LUT_LEN as nat,
        |i: int|
            match variant {
                DisplayVariant::Ssd1675 => no_invert_byte(lut, i),
                DisplayVariant::Ssd1675B => no_invert_byte_b(lut, i),
            },
    )
}

/// Takes the inversion and pre-charge phases out of an OTP-probed LUT.
///
/// The OTP waveform drives every pixel through an inversion / erase cycle
/// before settling on the target colour, visible as a brief flash on every
/// refresh. Without those phases the refresh is fast and free of flicker, at
/// the cost of ghosting from prior frames.
pub fn patch_no_invert(lut: &mut [u8; LUT_LEN], variant: DisplayVariant)
    ensures
        final(lut)@ == no_invert(old(lut)@, variant),
{
    let ghost raw = lut@;
    match variant {
        DisplayVariant::Ssd1675 => {
            let mut p: usize = 0;
            while p < 3
                invariant
                    p <= 3,
                    raw.len() == LUT_LEN,
                    forall|i: int|
                        0 <= i < LUT_LEN ==> #[trigger] lut@[i] == (if i < 28 && i % 7 < p {
                            0x80
                        } else if 28 <= i < 28 + p {
                            0x00
                        } else {
                            raw[i]
                        }),
                decreases 3 - p,
            {
                lut[p] = 0x80;
                lut[7 + p] = 0x80;
                lut[14 + p] = 0x80;
                lut[21 + p] = 0x80;
                lut[28 + p] = 0x00;
                p += 1;
            }
            let mut t: usize = 35;
            while t < 50
                invariant
                    35 <= t <= 50,
                    raw.len() == LUT_LEN,
                    forall|i: int|
                        0 <= i < LUT_LEN ==> #[trigger] lut@[i] == (if i < 28 && i % 7 < 3 {
                            0x80
                        } else if 28 <= i < 31 {
                            0x00
                        } else if 35 <= i < t {
                            shortened(raw[i])
                        } else {
                            raw[i]
                        }),
                decreases 50 - t,
            {
                if lut[t] != 0 {
                    let cut: u16 = lut[t] as u16 * 3 / 10;
                    lut[t] = if cut < 1 {
                        1
                    } else {
                        cut as u8
                    };
                }
                t += 1;
            }
            proof {
                lemma_drop_quarter(raw[3]);
                lemma_drop_quarter(raw[4]);
            }
            lut[51] = 2;
            let retimed: u8 = lut[52].wrapping_add(0x10);
            lut[52] = retimed;
            lut[53] = 2;
            let retimed: u8 = lut[54].wrapping_add(0x10);
            lut[54] = retimed;
            lut[55] = 2;
            let driven: u8 = lut[3] & 0xFC;
            lut[3] = driven;
            let driven: u8 = lut[4] & 0xFC;
            lut[4] = driven;
            lut[5] = 0x00;
            lut[12] = 0x80;
            lut[19] = 0x00;
            lut[26] = 0x80;
            lut[33] = 0x00;
            lut[60] = 0x16;
            lut[61] = 0;
            lut[62] = 0;
            lut[63] = 0;
            lut[64] = 0;
        },
        DisplayVariant::Ssd1675B => {
            let mut t: usize = 50;
            while t < 64
                invariant
                    50 <= t <= 64,
                    raw.len() == LUT_LEN,
                    forall|i: int|
                        0 <= i < LUT_LEN ==> #[trigger] lut@[i] == (if 50 <= i < t {
                            0
                        } else {
                            raw[i]
                        }),
                decreases 64 - t,
            {
                lut[t] = 0;
                t += 1;
            }
            let mut g: usize = 0;
            while g < 10
                invariant
                    g <= 10,
                    raw.len() == LUT_LEN,
                    forall|i: int|
                        0 <= i < LUT_LEN ==> #[trigger] lut@[i] == (if 50 <= i < 64 {
                            0
                        } else if 50 <= i < 50 + g * 5 && i % 5 == 4 {
                            0
                        } else {
                            raw[i]
                        }),
                decreases 10 - g,
            {
                lut[50 + g * 5 + 4] = 0;
                g += 1;
            }
        },
    }
    assert(lut@ =~= no_invert(raw, variant));
}

proof fn lemma_drop_quarter(b: u8)
    by (bit_vector)
    ensures
        b & 0xFC == b / 4 * 4,
{
}

/// A byte of the timing region at `scale` percent. Zero stays zero.
pub open spec fn scaled(b: u8, scale: u8) -> u8 {
    let v = b * scale / 100;
    (if v > 0xFF {
        0xFF
    } else {
        v
    }) as u8
}

/// A LUT image with its timings scaled.
pub open spec fn scaled_lut(src: Seq<u8>, variant: DisplayVariant, scale: u8) -> Seq<u8> {
    Seq::new(
        src.len(),
        |i: int|
            if variant.timing_start() <= i < variant.timing_end() {
                scaled(src[i], scale)
            } else {
                src[i]
            },
    )
}

/// Copies `src` into `out` and scales every non-zero byte in the LUT timing
/// region by `scale / 100`. Returns the byte count copied. Zero bytes (e.g. a
/// deliberately zeroed inversion phase) stay zero.
pub fn scale_lut_into(
    out: &mut [u8; LUT_LEN],
    src: &[u8],
    variant: DisplayVariant,
    scale: u8,
) -> (n: usize)
    requires
        src@.len() >= variant.timing_start(),
    ensures
        n == (if src@.len() < LUT_LEN {
            src@.len() as int
        } else {
            LUT_LEN as int
        }),
        final(out)@.subrange(0, n as int) == scaled_lut(
            src@.subrange(0, n as int),
            variant,
            scale,
        ),
        final(out)@.subrange(n as int, LUT_LEN as int) == old(out)@.subrange(
            n as int,
            LUT_LEN as int,
        ),
{
    let n: usize = if src.len() < LUT_LEN {
        src.len()
    } else {
        LUT_LEN
    };
    let range = variant.timing_range();
    let mut i: usize = 0;
    while i < n
        invariant
            i <= n <= LUT_LEN,
            n <= src@.len(),
            range.start == variant.timing_start(),
            range.end == variant.timing_end(),
            forall|k: int|
                0 <= k < i ==> #[trigger] out@[k] == (if variant.timing_start() <= k
                    < variant.timing_end() {
                    scaled(src@[k], scale)
                } else {
                    src@[k]
                }),
            forall|k: int| n <= k < LUT_LEN ==> #[trigger] out@[k] == old(out)@[k],
        decreases n - i,
    {
        let b: u8 = src[i];
        if range.start <= i && i < range.end && b != 0 {
            assert(0 <= b * scale <= 0xFE01) by (nonlinear_arith)
                requires
                    0 <= b <= 0xFF,
                    0 <= scale <= 0xFF,
            ;
            let v: u16 = b as u16 * scale as u16 / 100;
            out[i] = if v > 0xFF {
                0xFF
            } else {
                v as u8
            };
        } else {
            assert(0 * scale == 0) by (nonlinear_arith);
            out[i] = b;
        }
        i += 1;
    }
    assert(out@.subrange(0, n as int) =~= scaled_lut(src@.subrange(0, n as int), variant, scale));
    assert(out@.subrange(n as int, LUT_LEN as int) =~= old(out)@.subrange(
        n as int,
        LUT_LEN as int,
    ));
    n
}

/// Frames that the phase whose five timing bytes start at `at` takes: four
/// durations, executed once more than the repeat count.
pub open spec fn phase_frames(lut: Seq<u8>, at: int) -> int {
    (lut[at] + lut[at + 1] + lut[at + 2] + lut[at + 3]) * (lut[at + 4] + 1)
}

/// Frames that the phases from the one at `at` up to byte `end` take.
pub open spec fn frames_from(lut: Seq<u8>, at: int, end: int) -> int
    decreases end - at,
{
    if at + 5 <= end && at + 5 <= lut.len() {
        phase_frames(lut, at) + frames_from(lut, at + 5, end)
    } else {
        0
    }
}

/// Total panel frames that a LUT schedules.
pub open spec fn frames(lut: Seq<u8>, variant: DisplayVariant) -> int {
    frames_from(lut, variant.timing_start(), variant.timing_end())
}

/// Total panel frames a LUT's timing region schedules: for each phase, the sum
/// of its four durations times one more than its repeat count.
pub fn waveform_frames(lut: &[u8], variant: DisplayVariant) -> (n: u32)
    ensures
        n == frames(lut@, variant),
{
    let range = variant.timing_range();
    let mut total: u32 = 0;
    let mut tp: usize = range.start;
    while tp + 5 <= range.end && tp + 5 <= lut.len()
        invariant
            range.start == variant.timing_start(),
            range.end == variant.timing_end(),
            range.start <= tp <= range.end,
            (tp - range.start) % 5 == 0,
            total <= (tp - range.start) / 5 * 0x4_0000,
            total + frames_from(lut@, tp as int, range.end as int) == frames(lut@, variant),
        decreases range.end - tp,
    {
        let sub: u32 = lut[tp] as u32 + lut[tp + 1] as u32 + lut[tp + 2] as u32 + lut[tp
            + 3] as u32;
        let rp: u32 = lut[tp + 4] as u32 + 1;
        assert(0 <= sub * rp <= 1020 * 256) by (nonlinear_arith)
            requires
                0 <= sub <= 1020,
                0 <= rp <= 256,
        ;
        total = total + sub * rp;
        tp = tp + 5;
    }
    total
}

/// Drive-voltage / timing register set pushed before every refresh.
#[derive(Debug, Clone, Copy, PartialEq, Eq, Structural)]
pub struct VoltageProfile {
    /// Gate driving voltage.
    pub vgh: u8,
    /// Source driving voltages.
    pub vsh1: u8,
    pub vsh2: u8,
    pub vsl: u8,
    pub vcom: u8,
    /// Dummy line period.
    pub dummy: u8,
    /// Gate line width.
    pub gate: u8,
}

/// The voltages in the trailer of a LUT image. An SSD1675 image has no VCOM.
pub open spec fn trailer(lut: Seq<u8>, variant: DisplayVariant) -> VoltageProfile {
    match variant {
        DisplayVariant::Ssd1675 => VoltageProfile {
            vgh: lut[70],
            vsh1: lut[71],
            vsh2: lut[72],
            vsl: lut[73],
            vcom: 0x50,
            dummy: lut[74],
            gate: lut[75],
        },
        DisplayVariant::Ssd1675B => VoltageProfile {
            vgh: lut[100],
            vsh1: lut[101],
            vsh2: lut[102],
            vsl: lut[103],
            vcom: lut[104],
            dummy: lut[105],
            gate: lut[106],
        },
    }
}

impl VoltageProfile {
    /// Reads the voltages out of the trailer of a LUT image.
    pub fn of_trailer(src: &[u8; LUT_LEN], variant: DisplayVariant) -> (v: Self)
        ensures
            v == trailer(src@, variant),
    {
        match variant {
            DisplayVariant::Ssd1675 => VoltageProfile {
                vgh: src[70],
                vsh1: src[71],
                vsh2: src[72],
                vsl: src[73],
                vcom: 0x50,
                dummy: src[74],
                gate: src[75],
            },
            DisplayVariant::Ssd1675B => VoltageProfile {
                vgh: src[100],
                vsh1: src[101],
                vsh2: src[102],
                vsl: src[103],
                vcom: src[104],
                dummy: src[105],
                gate: src[106],
            },
        }
    }
}

/// The band that a temperature in tenths of a degree falls into.
pub open spec fn band_of(c10: int) -> int {
    if c10 < -100 {
        0
    } else if (c10 + 100) / 40 > 15 {
        15
    } else {
        (c10 + 100) / 40
    }
}

/// One LUT image per temperature band.
#[derive(Debug, Clone, Copy)]
pub struct LutTable {
    pub bands: [[u8; LUT_LEN]; LUT_TABLE_SIZE],
}

impl LutTable {
    /// A table that holds one image in every band.
    pub fn replicate(image: &[u8; LUT_LEN]) -> (table: Self)
        ensures
            forall|b: int| 0 <= b < LUT_TABLE_SIZE ==> #[trigger] table.bands@[b]@ == image@,
    {
        LutTable { bands: [*image;LUT_TABLE_SIZE] }
    }

    /// Temperature band index, clamped to the table.
    pub fn band_idx(active_temp_c10: i16) -> (band: usize)
        ensures
            band == band_of(active_temp_c10 as int),
            band < LUT_TABLE_SIZE,
    {
        let offset: i32 = active_temp_c10 as i32 - LUT_TABLE_MIN_C as i32 * 10;
        if offset < 0 {
            return 0;
        }
        let band: i32 = offset / LUT_TABLE_STEP_C10 as i32;
        if band > 15 {
            15
        } else {
            band as usize
        }
    }

    /// The LUT entry whose band contains a temperature.
    pub fn select(&self, active_temp_c10: i16) -> (lut: [u8; LUT_LEN])
        ensures
            lut@ == self.bands@[band_of(active_temp_c10 as int)]@,
    {
        self.bands[LutTable::band_idx(active_temp_c10)]
    }
}

/// At a scale of 100 a waveform keeps its OEM duration.
pub proof fn law_scale_100_is_the_oem_timing(src: Seq<u8>, variant: DisplayVariant)
    ensures
        scaled_lut(src, variant, 100) == src,
{
    assert(scaled_lut(src, variant, 100) =~= src);
}

/// A lower scale never lengthens a phase, and one of zero leaves no drive at
/// all. Phases that were taken out stay out at every scale.
pub proof fn law_scaling_is_monotone(b: u8, slow: u8, fast: u8)
    requires
        fast <= slow,
    ensures
        scaled(b, fast) <= scaled(b, slow),
        scaled(b, 0) == 0,
        scaled(0, slow) == 0,
{
    assert(b * fast <= b * slow && b * 0 == 0 && 0 * slow == 0) by (nonlinear_arith)
        requires
            0 <= fast <= slow,
            0 <= b,
    ;
    assert(b * slow >= 0) by (nonlinear_arith)
        requires
            b >= 0,
            slow >= 0,
    ;
    assert(b * fast >= 0) by (nonlinear_arith)
        requires
            b >= 0,
            fast >= 0,
    ;
}

proof fn lemma_frames_nonnegative(lut: Seq<u8>, at: int, end: int)
    requires
        0 <= at,
    ensures
        frames_from(lut, at, end) >= 0,
    decreases end - at,
{
    if at + 5 <= end && at + 5 <= lut.len() {
        lemma_frames_nonnegative(lut, at + 5, end);
        let sub = lut[at] + lut[at + 1] + lut[at + 2] + lut[at + 3];
        let rp = lut[at + 4] + 1;
        assert(sub * rp >= 0) by (nonlinear_arith)
            requires
                sub >= 0,
                rp >= 0,
        ;
    }
}

/// On an SSD1675 the fast waveform always drives the panel: the white tail
/// alone takes 22 frames.
pub proof fn law_the_fast_waveform_drives_an_ssd1675(lut: Seq<u8>)
    requires
        lut.len() == LUT_LEN,
    ensures
        frames(no_invert(lut, DisplayVariant::Ssd1675), DisplayVariant::Ssd1675) >= 22,
{
    let fast = no_invert(lut, DisplayVariant::Ssd1675);
    lemma_frames_nonnegative(fast, 65, 70);
    assert(phase_frames(fast, 60) == 22) by {
        let sub = fast[60] + fast[61] + fast[62] + fast[63];
        let rp = fast[64] + 1;
        assert(sub * rp == 22) by (nonlinear_arith)
            requires
                sub == 22,
                rp == 1,
        ;
    }
    assert(frames_from(fast, 60, 70) >= 22);
    lemma_frames_skip(fast, 35, 60, 70);
}

/// The phases in front of a later one only add frames.
proof fn lemma_frames_skip(lut: Seq<u8>, at: int, to: int, end: int)
    requires
        0 <= at <= to <= end,
        end <= lut.len(),
        (to - at) % 5 == 0,
    ensures
        frames_from(lut, at, end) >= frames_from(lut, to, end),
    decreases to - at,
{
    if at < to {
        lemma_frames_skip(lut, at + 5, to, end);
        let sub = lut[at] + lut[at + 1] + lut[at + 2] + lut[at + 3];
        let rp = lut[at + 4] + 1;
        assert(sub * rp >= 0) by (nonlinear_arith)
            requires
                sub >= 0,
                rp >= 0,
        ;
    }
}

proof fn lemma_no_invert_b(lut: Seq<u8>, at: int)
    requires
        lut.len() == LUT_LEN,
        50 <= at <= 100,
        at % 5 == 0,
    ensures
        frames_from(no_invert(lut, DisplayVariant::Ssd1675B), at, 100) <= frames_from(
            lut,
            at,
            100,
        ),
    decreases 100 - at,
{
    if at < 100 {
        lemma_no_invert_b(lut, at + 5);
        let fast = no_invert(lut, DisplayVariant::Ssd1675B);
        let sub = lut[at] + lut[at + 1] + lut[at + 2] + lut[at + 3];
        let fast_sub = fast[at] + fast[at + 1] + fast[at + 2] + fast[at + 3];
        let rp = lut[at + 4] + 1;
        assert(fast[at + 4] == 0);
        assert(fast_sub <= sub);
        assert(fast_sub * 1 <= sub * rp) by (nonlinear_arith)
            requires
                0 <= fast_sub <= sub,
                rp >= 1,
        ;
        assert(fast_sub * 1 == fast_sub * (fast[at + 4] + 1));
    }
}

/// On an SSD1675B the fast waveform never takes more frames than the one it is
/// made from.
pub proof fn law_the_fast_waveform_is_no_longer_on_an_ssd1675b(lut: Seq<u8>)
    requires
        lut.len() == LUT_LEN,
    ensures
        frames(no_invert(lut, DisplayVariant::Ssd1675B), DisplayVariant::Ssd1675B) <= frames(
            lut,
            DisplayVariant::Ssd1675B,
        ),
{
    lemma_no_invert_b(lut, 50);
}

/// Taking out the inversion phases leaves the drive voltages alone.
pub proof fn law_the_voltages_survive_the_patch(lut: Seq<u8>, variant: DisplayVariant)
    requires
        lut.len() == LUT_LEN,
    ensures
        trailer(no_invert(lut, variant), variant) == trailer(lut, variant),
{
}

/// The voltage code that an image of `phases` phases gives a LUT row in a
/// phase. Rows 0 to 3 belong to the pixels, row 4 to VCOM.
pub open spec fn level(lut: Seq<u8>, phases: int, row: int, phase: int) -> u8 {
    lut[row * phases + phase]
}

/// Timing byte `part` of a phase in an image of `phases` phases: the durations
/// A to D, then the repeat count.
pub open spec fn timing(lut: Seq<u8>, phases: int, phase: int, part: int) -> u8 {
    lut[5 * phases + 5 * phase + part]
}

/// Taking out the inversion leaves the drive phases of an SSD1675 in: phases 3,
/// 4 and 6 keep the probed voltages, but for the last of the four black-drive
/// steps of phases 3 and 4, which is gone. Phases 0 to 2 pull all pixels white
/// alike while VCOM idles, and phase 5 drives the two white-target rows only.
pub proof fn law_the_fast_waveform_keeps_the_drive_voltages(lut: Seq<u8>, row: int, phase: int)
    requires
        lut.len() == LUT_LEN,
        0 <= row < 5,
        0 <= phase < 7,
    ensures
        ({
            let probed = level(lut, 7, row, phase);
            let fast = level(no_invert(lut, DisplayVariant::Ssd1675), 7, row, phase);
            &&& phase < 3 ==> fast == if row < 4 {
                0x80u8
            } else {
                0
            }
            &&& phase == 3 || phase == 4 ==> if row == 0 {
                fast & 0x03 == 0 && fast & 0xFC == probed & 0xFC
            } else {
                fast == probed
            }
            &&& phase == 5 ==> fast == if row == 1 || row == 3 {
                0x80u8
            } else {
                0
            }
            &&& phase == 6 ==> fast == probed
        }),
{
    let i = row * 7 + phase;
    let b = lut[i];
    assert(((b / 4 * 4) as u8) & 0x03 == 0 && ((b / 4 * 4) as u8) & 0xFC == b & 0xFC)
        by (bit_vector);
    assert(row == 0 || row == 1 || row == 2 || row == 3 || row == 4);
}

/// Taking out the inversion leaves the drive phases of an SSD1675 their time:
/// phase 4 keeps its durations B, C and D and its repeat count, phase 3 its
/// duration A, and phase 6 all of its bytes. The wipe takes three tenths of the
/// probed durations and repeats, rounded down but never to nothing, and the
/// tail 22 frames, once.
pub proof fn law_the_fast_waveform_keeps_the_drive_times(lut: Seq<u8>, phase: int, part: int)
    requires
        lut.len() == LUT_LEN,
        0 <= phase < 7,
        0 <= part < 5,
    ensures
        ({
            let probed = timing(lut, 7, phase, part);
            let fast = timing(no_invert(lut, DisplayVariant::Ssd1675), 7, phase, part);
            &&& phase < 3 ==> {
                &&& fast == 0 <==> probed == 0
                &&& 10 * fast <= 3 * probed || fast == 1
                &&& 3 * probed < 10 * (fast + 1)
            }
            &&& phase == 3 ==> {
                &&& part == 0 ==> fast == probed
                &&& part == 1 || part == 3 ==> fast == 2
                &&& part == 2 || part == 4 ==> (fast - probed - 16) % 256 == 0
            }
            &&& phase == 4 ==> fast == if part == 0 {
                2u8
            } else {
                probed
            }
            &&& phase == 5 ==> fast == if part == 0 {
                22u8
            } else {
                0
            }
            &&& phase == 6 ==> fast == probed
        }),
{
}

/// Each byte of an SSD1675 image equals the probed one outside the wipe (phases
/// 0 to 2), the retimed bytes 51 to 55, the two trimmed black-drive bytes and
/// the tail (phase 5).
pub proof fn law_the_rest_of_an_ssd1675_image_is_kept(lut: Seq<u8>, i: int)
    requires
        lut.len() == LUT_LEN,
        0 <= i < LUT_LEN,
        !(i < 35 && (i % 7 < 3 || i % 7 == 5)),
        !(35 <= i < 50),
        !(51 <= i <= 55),
        i != 3 && i != 4,
        !(60 <= i < 65),
    ensures
        no_invert(lut, DisplayVariant::Ssd1675)[i] == lut[i],
        no_invert(lut, DisplayVariant::Ssd1675).len() == lut.len(),
{
}

/// Taking out the inversion of an SSD1675B only cuts time: phases 0 to 2 take
/// none, every further phase keeps its four durations and runs once, and the
/// voltages of all rows and phases stay as probed, as does the trailer.
pub proof fn law_the_fast_waveform_only_cuts_time_on_an_ssd1675b(
    lut: Seq<u8>,
    row: int,
    phase: int,
    part: int,
)
    requires
        lut.len() == LUT_LEN,
        0 <= row < 5,
        0 <= phase < 10,
        0 <= part < 5,
    ensures
        ({
            let fast = no_invert(lut, DisplayVariant::Ssd1675B);
            &&& fast.len() == lut.len()
            &&& level(fast, 10, row, phase) == level(lut, 10, row, phase)
            &&& timing(fast, 10, phase, part) == if phase < 3 || part == 4 {
                0
            } else {
                timing(lut, 10, phase, part)
            }
            &&& fast.skip(100) == lut.skip(100)
        }),
{
    let fast = no_invert(lut, DisplayVariant::Ssd1675B);
    assert(fast.skip(100) =~= lut.skip(100));
}

/// Scaling stretches the timings and nothing else: a timing byte becomes
/// `scale` percent of itself, rounded down and held at 255, and all other bytes
/// stay as they are.
pub proof fn law_scaling_stretches_the_timings_only(
    src: Seq<u8>,
    variant: DisplayVariant,
    scale: u8,
    i: int,
)
    requires
        0 <= i < src.len(),
    ensures
        ({
            let out = scaled_lut(src, variant, scale);
            let timed = match variant {
                DisplayVariant::Ssd1675 => 35 <= i < 70,
                DisplayVariant::Ssd1675B => 50 <= i < 100,
            };
            &&& out.len() == src.len()
            &&& !timed ==> out[i] == src[i]
            &&& timed ==> 100 * out[i] <= src[i] * scale
            &&& timed && out[i] < 0xFF ==> src[i] * scale < 100 * out[i] + 100
        }),
{
    assert(src[i] * scale >= 0) by (nonlinear_arith);
}

/// The number of phases in an image.
pub open spec fn phases_of(variant: DisplayVariant) -> int {
    match variant {
        DisplayVariant::Ssd1675 => 7,
        DisplayVariant::Ssd1675B => 10,
    }
}

/// The frames of a waveform are the durations of its phases, each as often as
/// its phase is run: one more in a duration adds as many frames as its phase
/// has runs, which is one more than it has repeats, and one more repeat adds
/// all durations of its phase.
pub proof fn law_frames_count_durations_by_runs(
    lut: Seq<u8>,
    variant: DisplayVariant,
    phase: int,
    part: int,
)
    requires
        lut.len() == LUT_LEN,
        0 <= phase < phases_of(variant),
        0 <= part < 5,
        timing(lut, phases_of(variant), phase, part) < 0xFF,
    ensures
        ({
            let phases = phases_of(variant);
            let at = 5 * phases + 5 * phase + part;
            let more = lut.update(at, (lut[at] + 1) as u8);
            frames(more, variant) - frames(lut, variant) == if part < 4 {
                timing(lut, phases, phase, 4) + 1
            } else {
                timing(lut, phases, phase, 0) + timing(lut, phases, phase, 1) + timing(
                    lut,
                    phases,
                    phase,
                    2,
                ) + timing(lut, phases, phase, 3)
            }
        }),
{
    let phases = phases_of(variant);
    let start = 5 * phases + 5 * phase;
    let at = start + part;
    let more = lut.update(at, (lut[at] + 1) as u8);
    lemma_frames_of_one_byte(lut, more, at, start, 5 * phases, 10 * phases);
    let sub = lut[start] + lut[start + 1] + lut[start + 2] + lut[start + 3];
    let runs = lut[start + 4] + 1;
    assert((sub + 1) * runs == sub * runs + runs && sub * (runs + 1) == sub * runs + sub)
        by (nonlinear_arith);
    if part < 4 {
        assert(more[start] + more[start + 1] + more[start + 2] + more[start + 3] == sub + 1);
        assert(more[start + 4] + 1 == runs);
        assert(phase_frames(more, start) == (sub + 1) * runs);
    } else {
        assert(more[start] + more[start + 1] + more[start + 2] + more[start + 3] == sub);
        assert(more[start + 4] + 1 == runs + 1);
        assert(phase_frames(more, start) == sub * (runs + 1));
    }
}

/// An image whose durations are all zero schedules no frames, however often
/// its phases repeat.
pub proof fn law_no_durations_no_frames(lut: Seq<u8>, variant: DisplayVariant)
    requires
        lut.len() == LUT_LEN,
        forall|p: int, d: int|
            0 <= p < phases_of(variant) && 0 <= d < 4 ==> #[trigger] timing(
                lut,
                phases_of(variant),
                p,
                d,
            ) == 0,
    ensures
        frames(lut, variant) == 0,
{
    lemma_no_frames(lut, phases_of(variant), 0);
}

/// One changed byte changes the frames by what it changes in its own phase.
proof fn lemma_frames_of_one_byte(
    lut: Seq<u8>,
    more: Seq<u8>,
    changed: int,
    start: int,
    at: int,
    end: int,
)
    requires
        0 <= at <= end <= lut.len(),
        more.len() == lut.len(),
        (end - at) % 5 == 0,
        (end - start) % 5 == 0,
        start <= changed < start + 5,
        start < end,
        forall|i: int| 0 <= i < lut.len() && i != changed ==> lut[i] == more[i],
    ensures
        frames_from(more, at, end) - frames_from(lut, at, end) == if at <= start {
            phase_frames(more, start) - phase_frames(lut, start)
        } else {
            0
        },
    decreases end - at,
{
    if at < end {
        lemma_frames_of_one_byte(lut, more, changed, start, at + 5, end);
    }
}

proof fn lemma_no_frames(lut: Seq<u8>, phases: int, phase: int)
    requires
        phases == 7 || phases == 10,
        lut.len() == LUT_LEN,
        0 <= phase <= phases,
        forall|p: int, d: int|
            0 <= p < phases && 0 <= d < 4 ==> #[trigger] timing(lut, phases, p, d) == 0,
    ensures
        frames_from(lut, 5 * phases + 5 * phase, 10 * phases) == 0,
    decreases phases - phase,
{
    if phase < phases {
        lemma_no_frames(lut, phases, phase + 1);
        assert(timing(lut, phases, phase, 0) == 0 && timing(lut, phases, phase, 1) == 0 && timing(
            lut,
            phases,
            phase,
            2,
        ) == 0 && timing(lut, phases, phase, 3) == 0);
        let runs = lut[5 * phases + 5 * phase + 4] + 1;
        assert(0 * runs == 0) by (nonlinear_arith);
    }
}

/// The bands are four degrees wide from -10 degrees on: a temperature lies in
/// its band, and one below the first or above the last band counts to that
/// band.
pub proof fn law_a_temperature_lies_in_its_band(c10: int)
    ensures
        ({
            let band = band_of(c10);
            &&& 0 <= band <= 15
            &&& -100 <= c10 ==> -100 + 40 * band <= c10
            &&& c10 < -100 + 40 * 16 ==> c10 < -100 + 40 * (band + 1)
        }),
{
}

} // verus!
