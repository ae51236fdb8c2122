//! 4-bit IMA ADPCM decoder.
//!
//! A sound file is a 20-byte header followed by fixed-size blocks. Each block
//! carries its own starting predictor and step index, so any block decodes
//! without the ones before it and playback can start or resync at a block
//! boundary.

use crate::bytes::{has_magic, le16, le32, read_le16, read_le32};
use vstd::prelude::*;

verus! {

/// `AEGGSND1`, the first eight bytes of a sound file.
pub const MAGIC: [u8; 8] = [0x41, 0x45, 0x47, 0x47, 0x53, 0x4E, 0x44, 0x31];

pub const HEADER_LEN: usize = 20;

/// Bytes of block header ahead of the packed nibbles.
pub const BLOCK_HEADER_LEN: usize = 4;

/// Step sizes of the quantiser, by step index.
pub const STEP_TABLE: [i32; 89] = [
    7, 8, 9, 10, 11, 12, 13, 14, 16, 17, 19, 21, 23, 25, 28, 31, 34, 37, 41, 45, 50, 55, 60, 66,
    73, 80, 88, 97, 107, 118, 130, 143, 157, 173, 190, 209, 230, 253, 279, 307, 337, 371, 408, 449,
    494, 544, 598, 658, 724, 796, 876, 963, 1060, 1166, 1282, 1411, 1552, 1707, 1878, 2066, 2272,
    2499, 2749, 3024, 3327, 3660, 4026, 4428, 4871, 5358, 5894, 6484, 7132, 7845, 8630, 9493,
    10442, 11487, 12635, 13899, 15289, 16818, 18500, 20350, 22385, 24623, 27086, 29794, 32767,
];

/// How far a code moves the step index.
pub const INDEX_TABLE: [i8; 16] = [-1, -1, -1, -1, 2, 4, 6, 8, -1, -1, -1, -1, 2, 4, 6, 8];

/// Parsed sound file header.
#[derive(Clone, Copy, Debug)]
pub struct SoundHeader {
    pub sample_rate: u32,
    pub sample_count: u32,
    pub block_samples: u16,
    pub block_bytes: u16,
}

/// Whether `buf` opens with a usable header: the magic, blocks longer than
/// their own header, at least one sample per block, and a sample rate.
pub open spec fn is_sound_header(buf: Seq<u8>) -> bool {
    &&& buf.len() >= HEADER_LEN
    &&& buf.subrange(0, 8) == MAGIC@
    &&& le32(buf, 8) != 0
    &&& le16(buf, 16) != 0
    &&& le16(buf, 18) > BLOCK_HEADER_LEN
}

impl SoundHeader {
    /// What `parse` promises of every header that it hands out.
    pub open spec fn wf(&self) -> bool {
        &&& self.sample_rate > 0
        &&& self.block_samples > 0
        &&& self.block_bytes > BLOCK_HEADER_LEN
    }

    /// Where block `block` starts in the file.
    pub open spec fn offset_of(&self, block: int) -> int {
        HEADER_LEN + block * self.block_bytes
    }

    /// The number of blocks that hold the file's samples.
    pub open spec fn blocks(&self) -> int {
        (self.sample_count + self.block_samples - 1) / self.block_samples as int
    }

    /// Parses the header at the start of `buf`.
    pub fn parse(buf: &[u8]) -> (header: Option<Self>)
        ensures
            header is Some <==> is_sound_header(buf@),
            header matches Some(hdr) ==> {
                &&& hdr.wf()
                &&& hdr.sample_rate == le32(buf@, 8)
                &&& hdr.sample_count == le32(buf@, 12)
                &&& hdr.block_samples == le16(buf@, 16)
                &&& hdr.block_bytes == le16(buf@, 18)
            },
    {
        if buf.len() < HEADER_LEN || !has_magic(buf, &MAGIC) {
            return None;
        }
        let hdr = SoundHeader {
            sample_rate: read_le32(buf, 8),
            sample_count: read_le32(buf, 12),
            block_samples: read_le16(buf, 16),
            block_bytes: read_le16(buf, 18),
        };
        if hdr.block_bytes as usize <= BLOCK_HEADER_LEN || hdr.block_samples == 0
            || hdr.sample_rate == 0 {
            return None;
        }
        Some(hdr)
    }

    /// Byte offset of a block within the file.
    pub fn block_offset(&self, block: u32) -> (offset: u32)
        requires
            self.offset_of(block as int) <= u32::MAX,
        ensures
            offset == self.offset_of(block as int),
    {
        assert(0 <= block * self.block_bytes) by (nonlinear_arith);
        HEADER_LEN as u32 + block * self.block_bytes as u32
    }

    /// The number of blocks that hold the file's samples, the last one perhaps
    /// in part.
    pub fn block_count(&self) -> (count: u32)
        requires
            self.block_samples > 0,
        ensures
            count == self.blocks(),
    {
        let per_block: u32 = self.block_samples as u32;
        let whole: u32 = self.sample_count / per_block;
        let ghost n = self.sample_count as int;
        let ghost d = self.block_samples as int;
        if self.sample_count % per_block == 0 {
            assert((n + d - 1) / d == n / d) by (nonlinear_arith)
                requires
                    d > 0,
                    n >= 0,
                    n % d == 0,
            ;
            whole
        } else {
            assert(n != 0) by {
                vstd::arithmetic::div_mod::lemma_small_mod(0, d as nat);
            }
            assert((n + d - 1) / d == n / d + 1 && n / d + 1 <= n) by (nonlinear_arith)
                requires
                    d > 1,
                    n > 0,
                    n % d != 0,
            ;
            whole + 1
        }
    }
}

/// `x` held inside `lo..=hi`.
pub open spec fn clamped(x: int, lo: int, hi: int) -> int {
    if x < lo {
        lo
    } else if x > hi {
        hi
    } else {
        x
    }
}

/// Code `k` of a block: each byte after the block header packs two, the low
/// nibble first.
pub open spec fn code_at(block: Seq<u8>, k: int) -> int {
    let byte = block[BLOCK_HEADER_LEN + k / 2] as int;
    if k % 2 == 0 {
        byte % 16
    } else {
        byte / 16
    }
}

/// The number of codes that a block packs.
pub open spec fn code_count(block: Seq<u8>) -> int {
    2 * (block.len() - BLOCK_HEADER_LEN)
}

/// The distance that a code asks for: an eighth of the step, plus the whole
/// step, half of it and a quarter of it for each magnitude bit that is set.
pub open spec fn magnitude(step: int, code: int) -> int {
    step / 8 + (if (code / 4) % 2 == 1 {
        step
    } else {
        0
    }) + (if (code / 2) % 2 == 1 {
        step / 2
    } else {
        0
    }) + (if code % 2 == 1 {
        step / 4
    } else {
        0
    })
}

/// The decoder's registers: the last sample and the step index.
pub struct Registers {
    pub pred: int,
    pub index: int,
}

/// The registers after one more code: bit 3 of the code is the sign of the
/// move, and the index table moves the step index. Both stay inside their
/// ranges.
pub open spec fn stepped(r: Registers, code: int) -> Registers {
    let delta = magnitude(STEP_TABLE@[r.index] as int, code);
    Registers {
        pred: clamped(
            if code >= 8 {
                r.pred - delta
            } else {
                r.pred + delta
            },
            i16::MIN as int,
            i16::MAX as int,
        ),
        index: clamped(r.index + INDEX_TABLE@[code], 0, 88),
    }
}

/// The two's complement value of the little-endian field at `at`.
pub open spec fn signed_le16(buf: Seq<u8>, at: int) -> int {
    let v = le16(buf, at);
    if v < 0x8000 {
        v
    } else {
        v - 0x1_0000
    }
}

/// The registers after the first `n` codes of a block.
pub open spec fn registers(block: Seq<u8>, n: nat) -> Registers
    decreases n,
{
    if n == 0 {
        Registers {
            pred: signed_le16(block, 0),
            index: clamped(block[2] as int, 0, 88),
        }
    } else {
        stepped(registers(block, (n - 1) as nat), code_at(block, n - 1))
    }
}

/// Sample `k` of a block. The first one is the predictor in the block header.
pub open spec fn block_sample(block: Seq<u8>, k: int) -> int {
    registers(block, k as nat).pred
}

/// How many samples a block decodes to when `room` of them can be kept.
pub open spec fn decoded_count(block: Seq<u8>, room: int) -> int {
    if block.len() < BLOCK_HEADER_LEN || room <= 0 {
        0
    } else if 1 + code_count(block) < room {
        1 + code_count(block)
    } else {
        room
    }
}

/// One decoding step: the next predictor and step index.
fn step_code(pred: i32, index: usize, code: u8) -> (next: (i32, usize))
    requires
        i16::MIN <= pred <= i16::MAX,
        index <= 88,
        code < 16,
    ensures
        ({
            let r = stepped(Registers { pred: pred as int, index: index as int }, code as int);
            next.0 == r.pred && next.1 == r.index
        }),
        i16::MIN <= next.0 <= i16::MAX,
        next.1 <= 88,
{
    proof {
        lemma_step_table();
        lemma_code_bits(code);
    }
    let step: i32 = STEP_TABLE[index];
    let mut delta: i32 = step / 8;
    if code & 4 != 0 {
        delta += step;
    }
    if code & 2 != 0 {
        delta += step / 2;
    }
    if code & 1 != 0 {
        delta += step / 4;
    }
    let moved: i32 = if code & 8 != 0 {
        pred - delta
    } else {
        pred + delta
    };
    let pred: i32 = if moved < -32768 {
        -32768
    } else if moved > 32767 {
        32767
    } else {
        moved
    };
    let moved: i32 = index as i32 + INDEX_TABLE[code as usize] as i32;
    let index: usize = if moved < 0 {
        0
    } else if moved > 88 {
        88
    } else {
        moved as usize
    };
    (pred, index)
}

/// Decodes one block into `out`, returning how many samples were written.
///
/// Writes at most `out.len()` samples. Trailing nibbles that would not fit
/// are dropped rather than silently wrapping.
pub fn decode_block(block: &[u8], out: &mut [i16]) -> (n: usize)
    ensures
        final(out)@.len() == old(out)@.len(),
        n == decoded_count(block@, old(out)@.len() as int),
        forall|k: int| 0 <= k < n ==> final(out)@[k] == block_sample(block@, k),
        forall|k: int| n <= k < old(out)@.len() ==> final(out)@[k] == old(out)@[k],
{
    if block.len() < BLOCK_HEADER_LEN || out.len() == 0 {
        return 0;
    }
    let raw: i32 = block[0] as i32 + 0x100 * (block[1] as i32);
    let mut pred: i32 = if raw < 0x8000 {
        raw
    } else {
        raw - 0x1_0000
    };
    let mut index: usize = if block[2] < 88 {
        block[2] as usize
    } else {
        88
    };

    out[0] = pred as i16;
    let mut n: usize = 1;
    let mut at: usize = BLOCK_HEADER_LEN;

    while at < block.len() && n < out.len()
        invariant
            BLOCK_HEADER_LEN <= at <= block@.len(),
            out@.len() == old(out)@.len(),
            1 <= n <= out@.len(),
            n == 1 + 2 * (at - BLOCK_HEADER_LEN) || n == out@.len() <= 1 + code_count(block@),
            i16::MIN <= pred <= i16::MAX,
            index <= 88,
            n == 1 + 2 * (at - BLOCK_HEADER_LEN) ==> {
                let r = registers(block@, (n - 1) as nat);
                pred == r.pred && index == r.index
            },
            forall|k: int| 0 <= k < n ==> out@[k] == block_sample(block@, k),
            forall|k: int| n <= k < out@.len() ==> out@[k] == old(out)@[k],
        decreases block@.len() - at,
    {
        let byte = block[at];
        let ghost done = (n - 1) as nat;
        proof {
            lemma_nibbles(byte);
            assert(done == 2 * (at - BLOCK_HEADER_LEN));
            assert(code_at(block@, done as int) == (byte & 0x0F) as int);
            assert(code_at(block@, done as int + 1) == (byte >> 4) as int);
            assert(registers(block@, done + 1) == stepped(
                registers(block@, done),
                code_at(block@, done as int),
            ));
            assert(registers(block@, done + 2) == stepped(
                registers(block@, done + 1),
                code_at(block@, done as int + 1),
            ));
        }
        let (low_pred, low_index) = step_code(pred, index, byte & 0x0F);
        pred = low_pred;
        index = low_index;
        out[n] = pred as i16;
        n += 1;
        if n < out.len() {
            let (high_pred, high_index) = step_code(pred, index, byte >> 4);
            pred = high_pred;
            index = high_index;
            out[n] = pred as i16;
            n += 1;
        }
        at += 1;
    }
    n
}

/// Playback gain, applied before the sample is mapped to a duty cycle.
///
/// A piezo is a poor loudspeaker, so the loud parts are clipped in exchange
/// for a higher average power.
pub const GAIN: i32 = 4;

/// The quotient of a division that rounds toward zero.
pub open spec fn toward_zero(n: int, d: int) -> int {
    if n >= 0 {
        n / d
    } else {
        -((-n) / d)
    }
}

/// The duty value of a sample: silence at half scale, the amplified waveform
/// swinging either side of it, clipped to `0..=top`.
pub open spec fn duty_of(sample: int, top: int) -> int {
    clamped(top / 2 + toward_zero(sample * GAIN * (top / 2), 32768), 0, top)
}

/// Maps a signed sample onto a PWM duty value in `0..=top`.
///
/// The piezo is driven single-ended, so silence sits at half scale and the
/// waveform swings either side of it. Gain above unity clips rather than
/// wrapping, whatever the sample and the scale.
pub fn sample_to_duty(sample: i16, top: u16) -> (duty: u16)
    ensures
        duty == duty_of(sample as int, top as int),
{
    let mid: i64 = (top / 2) as i64;
    assert(-0x1_0000_0000 <= sample * GAIN * mid <= 0x1_0000_0000) by (nonlinear_arith)
        requires
            -0x8000 <= sample < 0x8000,
            0 <= mid < 0x8000,
            GAIN == 4,
    ;
    let swing: i64 = sample as i64 * GAIN as i64 * mid;
    let moved: i64 = if swing >= 0 {
        mid + swing / 32768
    } else {
        mid - (0 - swing) / 32768
    };
    if moved < 0 {
        0
    } else if moved > top as i64 {
        top
    } else {
        moved as u16
    }
}

proof fn lemma_nibbles(byte: u8)
    by (bit_vector)
    ensures
        byte & 0x0F == byte % 16,
        byte & 0x0F < 16,
        byte >> 4 == byte / 16,
        byte >> 4 < 16,
{
}

proof fn lemma_step_table()
    ensures
        forall|i: int| 0 <= i < 89 ==> 7 <= #[trigger] STEP_TABLE@[i] <= 32767,
        forall|i: int| 0 <= i < 16 ==> -1 <= #[trigger] INDEX_TABLE@[i] <= 8,
{
}

proof fn lemma_code_bits(code: u8)
    by (bit_vector)
    requires
        code < 16,
    ensures
        (code & 4 != 0) == ((code / 4) % 2 == 1),
        (code & 2 != 0) == ((code / 2) % 2 == 1),
        (code & 1 != 0) == (code % 2 == 1),
        (code & 8 != 0) == (code >= 8),
{
}

/// Decoding never leaves the 16-bit range, and the step index never leaves its
/// table, whatever the codes are.
pub proof fn law_registers_stay_in_range(block: Seq<u8>, n: nat)
    requires
        block.len() >= BLOCK_HEADER_LEN,
        n <= code_count(block),
    ensures
        i16::MIN <= registers(block, n).pred <= i16::MAX,
        0 <= registers(block, n).index <= 88,
    decreases n,
{
    if n > 0 {
        law_registers_stay_in_range(block, (n - 1) as nat);
    }
}

/// A block decodes without the ones before it: blocks with the same bytes give
/// the same samples wherever they stand, and a block that agrees with another
/// on its header and its first `n` codes agrees on the first `n + 1` samples.
pub proof fn law_samples_depend_on_earlier_codes_only(a: Seq<u8>, b: Seq<u8>, n: nat)
    requires
        a.len() >= BLOCK_HEADER_LEN,
        b.len() >= BLOCK_HEADER_LEN,
        n <= code_count(a),
        n <= code_count(b),
        a.take(3) == b.take(3),
        forall|k: int| 0 <= k < n ==> code_at(a, k) == code_at(b, k),
    ensures
        block_sample(a, n as int) == block_sample(b, n as int),
        registers(a, n) == registers(b, n),
    decreases n,
{
    if n == 0 {
        assert(a.take(3)[0] == a[0] && a.take(3)[1] == a[1] && a.take(3)[2] == a[2]);
        assert(b.take(3)[0] == b[0] && b.take(3)[1] == b[1] && b.take(3)[2] == b[2]);
    } else {
        law_samples_depend_on_earlier_codes_only(a, b, (n - 1) as nat);
    }
}

/// The counted blocks hold every sample of the file, and no block fewer does.
pub proof fn law_blocks_cover_the_samples(header: SoundHeader)
    requires
        header.wf(),
    ensures
        header.blocks() * header.block_samples >= header.sample_count,
        header.sample_count > 0 ==> (header.blocks() - 1) * header.block_samples
            < header.sample_count,
{
    let n = header.sample_count as int;
    let d = header.block_samples as int;
    assert(((n + d - 1) / d) * d >= n && ((n + d - 1) / d - 1) * d < n) by (nonlinear_arith)
        requires
            d > 0,
            n >= 0,
    ;
}

/// Silence sits at half scale.
pub proof fn law_silence_is_half_scale(top: u16)
    ensures
        duty_of(0, top as int) == top / 2,
{
    assert(0 * GAIN * (top as int / 2) == 0) by (nonlinear_arith);
}

/// A louder sample never gets a smaller duty value: gain clips, it does not
/// wrap.
pub proof fn law_duty_is_monotone(quiet: i16, loud: i16, top: u16)
    requires
        quiet <= loud,
    ensures
        0 <= duty_of(quiet as int, top as int) <= duty_of(loud as int, top as int) <= top,
{
    let mid = top as int / 2;
    let a = quiet * GAIN * mid;
    let b = loud * GAIN * mid;
    assert(a <= b) by (nonlinear_arith)
        requires
            a == quiet * GAIN * mid,
            b == loud * GAIN * mid,
            quiet <= loud,
            mid >= 0,
            GAIN == 4,
    ;
}

/// How far `code` moves the predictor from `r`, in the direction of its sign
/// bit.
pub open spec fn travel(r: Registers, code: int) -> int {
    if code < 8 {
        stepped(r, code).pred - r.pred
    } else {
        r.pred - stepped(r, code).pred
    }
}

/// Whether `code` moves the predictor from `r` without running into the end of
/// the 16-bit range.
pub open spec fn runs_free(r: Registers, code: int) -> bool {
    if code < 8 {
        stepped(r, code).pred < i16::MAX
    } else {
        stepped(r, code).pred > i16::MIN
    }
}

/// The quantiser is uniform: a code of magnitude `m = code % 8` at step size
/// `s` moves the predictor by `(2 * m + 1) * s / 8` in the direction of its
/// sign bit, short of that by less than three for rounding. The ends of the
/// 16-bit range only ever shorten the move.
pub proof fn law_the_quantiser_is_uniform(r: Registers, code: int)
    requires
        i16::MIN <= r.pred <= i16::MAX,
        0 <= r.index <= 88,
        0 <= code < 16,
    ensures
        ({
            let asked = (2 * (code % 8) + 1) * STEP_TABLE@[r.index];
            &&& 0 <= 8 * travel(r, code) <= asked
            &&& runs_free(r, code) ==> asked < 8 * travel(r, code) + 24
        }),
{
    lemma_step_table();
    lemma_eighths(STEP_TABLE@[r.index] as int, code);
}

/// What a code asks for is an odd number of eighths of the step, less than
/// three of them lost to rounding.
proof fn lemma_eighths(step: int, code: int)
    requires
        7 <= step <= 32767,
        0 <= code < 16,
    ensures
        0 <= 8 * magnitude(step, code) <= (2 * (code % 8) + 1) * step < 8 * magnitude(step, code)
            + 24,
        magnitude(step, code) == magnitude(step, code % 8),
{
    let m = code % 8;
    assert(m == 4 * ((code / 4) % 2) + 2 * ((code / 2) % 2) + code % 2);
    assert((2 * m + 1) * step == if m == 0 {
        step
    } else if m == 1 {
        3 * step
    } else if m == 2 {
        5 * step
    } else if m == 3 {
        7 * step
    } else if m == 4 {
        9 * step
    } else if m == 5 {
        11 * step
    } else if m == 6 {
        13 * step
    } else {
        15 * step
    }) by (nonlinear_arith)
        requires
            0 <= m < 8,
    ;
}

/// A greater magnitude never moves the predictor less, and moves it further
/// wherever it can.
pub proof fn law_a_greater_magnitude_moves_further(r: Registers, small: int, great: int)
    requires
        i16::MIN <= r.pred <= i16::MAX,
        0 <= r.index <= 88,
        0 <= small < great < 16,
        small < 8 <==> great < 8,
    ensures
        travel(r, small) <= travel(r, great),
        runs_free(r, small) ==> travel(r, small) < travel(r, great),
{
    lemma_step_table();
    let step = STEP_TABLE@[r.index] as int;
    assert(small == 8 * (small / 8) + 4 * ((small / 4) % 2) + 2 * ((small / 2) % 2) + small % 2);
    assert(great == 8 * (great / 8) + 4 * ((great / 4) % 2) + 2 * ((great / 2) % 2) + great % 2);
    assert(magnitude(step, small) < magnitude(step, great));
}

/// Each bit of a magnitude counts by itself: the high one adds the step, the
/// middle one half of it and the low one a quarter of it, on top of an eighth,
/// each rounded down once.
pub proof fn law_magnitude_bits_count_separately(r: Registers, m: int)
    requires
        i16::MIN <= r.pred <= i16::MAX,
        0 <= r.index <= 88,
        0 <= m < 8,
    ensures
        ({
            let s = STEP_TABLE@[r.index] as int;
            &&& m == 0 && runs_free(r, m) ==> s - 7 <= 8 * travel(r, m) <= s
            &&& m >= 4 && runs_free(r, m) ==> travel(r, m) - travel(r, m - 4) == s
            &&& m % 4 >= 2 && runs_free(r, m) ==> s - 1 <= 2 * (travel(r, m) - travel(r, m - 2)) <= s
            &&& m % 2 == 1 && runs_free(r, m) ==> s - 3 <= 4 * (travel(r, m) - travel(r, m - 1)) <= s
        }),
{
    lemma_step_table();
    let s = STEP_TABLE@[r.index] as int;
    assert(m == 4 * ((m / 4) % 2) + 2 * ((m / 2) % 2) + m % 2);
    if m >= 4 {
        assert(magnitude(s, m) == magnitude(s, m - 4) + s);
    }
    if m % 4 >= 2 {
        assert(magnitude(s, m) == magnitude(s, m - 2) + s / 2);
    }
    if m % 2 == 1 {
        assert(magnitude(s, m) == magnitude(s, m - 1) + s / 4);
    }
}

/// The sign bit mirrors a move: from a predictor and from its negative, the two
/// codes of one magnitude lead to values that are each other's negatives, and
/// to the same step index.
pub proof fn law_the_sign_bit_mirrors_a_move(r: Registers, m: int)
    requires
        i16::MIN < r.pred <= i16::MAX,
        0 <= r.index <= 88,
        0 <= m < 8,
    ensures
        ({
            let mirrored = Registers { pred: -r.pred, index: r.index };
            let (up, down) = (stepped(r, m), stepped(mirrored, m + 8));
            &&& up.pred < i16::MAX ==> down.pred == -up.pred
            &&& up.index == down.index
        }),
{
    lemma_step_table();
    lemma_index_table();
    let s = STEP_TABLE@[r.index] as int;
    lemma_eighths(s, m + 8);
    lemma_eighths(s, m);
}

/// The step adapts: a code of the lower half of the magnitudes makes the step
/// index fall by one, one of the upper half makes it rise by twice its place
/// there, and the index stays inside its table.
pub proof fn law_the_step_adapts(r: Registers, code: int)
    requires
        0 <= r.index <= 88,
        0 <= code < 16,
    ensures
        ({
            let m = code % 8;
            let next = stepped(r, code).index;
            &&& m < 4 ==> next == if r.index > 0 {
                r.index - 1
            } else {
                0
            }
            &&& m >= 4 ==> next == if r.index + 2 * (m - 3) <= 88 {
                r.index + 2 * (m - 3)
            } else {
                88
            }
        }),
{
    lemma_index_table();
}

proof fn lemma_index_table()
    ensures
        forall|c: int|
            0 <= c < 16 ==> #[trigger] INDEX_TABLE@[c] == if c % 8 < 4 {
                -1
            } else {
                2 * (c % 8 - 3)
            },
{
    assert forall|c: int| 0 <= c < 16 implies #[trigger] INDEX_TABLE@[c] == if c % 8 < 4 {
        -1
    } else {
        2 * (c % 8 - 3)
    } by {
        assert(c == 0 || c == 1 || c == 2 || c == 3 || c == 4 || c == 5 || c == 6 || c == 7 || c
            == 8 || c == 9 || c == 10 || c == 11 || c == 12 || c == 13 || c == 14 || c == 15);
    }
}

/// The steps grow by a tenth: from 7 up to the top of the 16-bit range, each
/// one is 11/10 of the one before it, off by less than one except for the last,
/// which is the top itself.
pub proof fn law_the_steps_grow_by_a_tenth(i: int)
    requires
        0 <= i < 88,
    ensures
        STEP_TABLE@[0] == 7,
        STEP_TABLE@[88] == i16::MAX,
        STEP_TABLE@[i] < STEP_TABLE@[i + 1],
        i < 87 ==> -8 < 10 * STEP_TABLE@[i + 1] - 11 * STEP_TABLE@[i] < 9,
        i == 87 ==> -70 < 10 * STEP_TABLE@[i + 1] - 11 * STEP_TABLE@[i] < 0,
{
}

/// A block spells its samples out: the first one stands in bytes 0 and 1 as a
/// 16-bit two's complement number, low byte first, with the step index in byte
/// 2, and every byte from the fifth on moves it twice, by its low nibble and
/// then by its high nibble.
pub proof fn law_a_block_spells_its_samples_out(block: Seq<u8>, j: int)
    requires
        block.len() >= BLOCK_HEADER_LEN,
        0 <= j,
        4 + j < block.len(),
    ensures
        i16::MIN <= block_sample(block, 0) <= i16::MAX,
        (block_sample(block, 0) - (block[0] + 256 * block[1])) % 0x1_0000 == 0,
        registers(block, 0).index == if block[2] <= 88 {
            block[2] as int
        } else {
            88
        },
        ({
            let before = registers(block, (2 * j) as nat);
            let between = stepped(before, block[4 + j] as int % 16);
            let after = stepped(between, block[4 + j] as int / 16);
            &&& block_sample(block, 2 * j) == before.pred
            &&& block_sample(block, 2 * j + 1) == between.pred
            &&& block_sample(block, 2 * j + 2) == after.pred
            &&& registers(block, (2 * j + 2) as nat) == after
        }),
{
    let n = (2 * j) as nat;
    assert(registers(block, n + 1) == stepped(registers(block, n), code_at(block, 2 * j)));
    assert(registers(block, n + 2) == stepped(registers(block, n + 1), code_at(block, 2 * j + 1)));
}

/// No code is dropped and none is made up: a block of `n` bytes behind its
/// header decodes to `1 + 2 * n` samples wherever there is room for them, and
/// fills the room otherwise.
pub proof fn law_every_code_gives_a_sample(block: Seq<u8>, room: int)
    requires
        block.len() >= BLOCK_HEADER_LEN,
        room >= 0,
    ensures
        room >= 1 + 2 * (block.len() - 4) ==> decoded_count(block, room) == 1 + 2 * (block.len()
            - 4),
        room < 1 + 2 * (block.len() - 4) ==> decoded_count(block, room) == room,
{
}

/// The swing is the sample at four times its size: where it does not clip, the
/// duty value lies off half scale by `4 * sample` parts in 32768 of half scale,
/// rounded toward it, and it clips only where that leaves `0..=top`.
pub proof fn law_the_swing_is_four_times_the_sample(sample: i16, top: u16)
    ensures
        ({
            let mid = top as int / 2;
            let off = duty_of(sample as int, top as int) - mid;
            let asked = 4 * sample * mid;
            &&& asked >= 0 ==> 0 <= off && 32768 * off <= asked
            &&& asked <= 0 ==> off <= 0 && 32768 * off >= asked
            &&& 0 < mid + off < top ==> -32768 < asked - 32768 * off < 32768
            &&& mid + off == top && top > 0 ==> asked >= 32768 * (top - mid)
            &&& mid + off == 0 && top > 1 ==> asked <= -32768 * mid
        }),
{
    let mid = top as int / 2;
    assert(sample * GAIN * mid == 4 * sample * mid) by (nonlinear_arith)
        requires
            GAIN == 4,
    ;
}

/// What a sound file starts with: its magic, then little-endian a sample rate
/// and the number of samples per block, neither of them zero, and a block length
/// that leaves room behind the block's own header of four bytes. The number of
/// samples in bytes 12 to 15 does not matter.
pub proof fn law_a_sound_file_is_known_by_its_header(buf: Seq<u8>)
    ensures
        is_sound_header(buf) <==> {
            &&& buf.len() >= 20
            &&& buf.take(8) == seq![0x41u8, 0x45, 0x47, 0x47, 0x53, 0x4E, 0x44, 0x31]
            &&& !(buf[8] == 0 && buf[9] == 0 && buf[10] == 0 && buf[11] == 0)
            &&& !(buf[16] == 0 && buf[17] == 0)
            &&& buf[18] > 4 || buf[19] > 0
        },
{
    if buf.len() >= 20 {
        assert(buf.take(8) =~= buf.subrange(0, 8));
        assert(MAGIC@ =~= seq![0x41u8, 0x45, 0x47, 0x47, 0x53, 0x4E, 0x44, 0x31]);
    }
}

/// The sum of the first `n` steps.
pub open spec fn steps_sum(n: int) -> int
    decreases n,
{
    if n <= 0 {
        0
    } else {
        steps_sum(n - 1) + STEP_TABLE@[n - 1]
    }
}

/// All steps of the table together, which a single wrong one would change.
pub proof fn law_the_steps_add_up()
    ensures
        steps_sum(89) == 360393,
{
    reveal_with_fuel(steps_sum, 90);
}

} // verus!
