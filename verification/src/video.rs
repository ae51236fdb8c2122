//! Bit-run-length frame decoder.
//!
//! A video file is a 20-byte header, then a table of `frame_count + 1`
//! little-endian byte offsets, then the coded frames back to back. The trailing
//! offset marks the end of the last frame, so a frame's coded length is always
//! the difference of two neighbouring offsets.
//!
//! Frames are coded independently, with no reference to the frame before. That
//! is what lets the player jump straight to whichever frame the audio clock
//! currently calls for.

use crate::bytes::{has_magic, le16, le32, read_le16, read_le32};
use vstd::prelude::*;

verus! {

/// `AEGGVID1`, the first eight bytes of a video file.
pub const MAGIC: [u8; 8] = [0x41, 0x45, 0x47, 0x47, 0x56, 0x49, 0x44, 0x31];

pub const HEADER_LEN: usize = 20;

pub const WIDTH: usize = 152;

pub const HEIGHT: usize = 152;

pub const STRIDE: usize = WIDTH / 8;

pub const FRAME_BYTES: usize = STRIDE * HEIGHT;

/// Pixels in one frame.
pub const TOTAL_BITS: usize = FRAME_BYTES * 8;

/// Parsed video file header.
#[derive(Clone, Copy, Debug)]
pub struct VideoHeader {
    pub width: u16,
    pub height: u16,
    pub fps: u16,
    pub frame_count: u32,
}

/// Whether `buf` opens with a header that this player can show: the magic, the
/// panel's own geometry, and neither a zero rate nor a zero frame count.
pub open spec fn is_video_header(buf: Seq<u8>) -> bool {
    &&& buf.len() >= HEADER_LEN
    &&& buf.subrange(0, 8) == MAGIC@
    &&& le16(buf, 8) == WIDTH
    &&& le16(buf, 10) == HEIGHT
    &&& le16(buf, 12) != 0
    &&& le32(buf, 16) != 0
}

impl VideoHeader {
    /// What `parse` promises of every header that it hands out.
    pub open spec fn wf(&self) -> bool {
        &&& self.width == WIDTH
        &&& self.height == HEIGHT
        &&& self.fps > 0
        &&& self.frame_count > 0
    }

    /// Parses the header at the start of `buf`. The panel is a fixed 152x152;
    /// a file built for any other geometry is refused.
    pub fn parse(buf: &[u8]) -> (header: Option<Self>)
        ensures
            header is Some <==> is_video_header(buf@),
            header matches Some(hdr) ==> {
                &&& hdr.wf()
                &&& hdr.width == le16(buf@, 8)
                &&& hdr.height == le16(buf@, 10)
                &&& hdr.fps == le16(buf@, 12)
                &&& hdr.frame_count == le32(buf@, 16)
            },
    {
        if buf.len() < HEADER_LEN || !has_magic(buf, &MAGIC) {
            return None;
        }
        let hdr = VideoHeader {
            width: read_le16(buf, 8),
            height: read_le16(buf, 10),
            fps: read_le16(buf, 12),
            frame_count: read_le32(buf, 16),
        };
        if hdr.width as usize != WIDTH || hdr.height as usize != HEIGHT {
            return None;
        }
        if hdr.fps == 0 || hdr.frame_count == 0 {
            return None;
        }
        Some(hdr)
    }

    /// Byte offset of the entry for `frame` in the offset table.
    pub fn offset_entry(&self, frame: u32) -> (offset: u32)
        requires
            HEADER_LEN + frame * 4 <= u32::MAX,
        ensures
            offset == HEADER_LEN + frame * 4,
    {
        HEADER_LEN as u32 + frame * 4
    }

    /// Duration of the whole clip in milliseconds.
    pub fn duration_ms(&self) -> (ms: u32)
        requires
            self.fps > 0,
            self.frame_count as int * 1000 / self.fps as int <= u32::MAX,
        ensures
            ms == self.frame_count as int * 1000 / self.fps as int,
            ms * self.fps <= self.frame_count * 1000 < (ms + 1) * self.fps,
    {
        proof {
            let (n, d) = (self.frame_count * 1000, self.fps as int);
            assert((n / d) * d <= n < (n / d + 1) * d) by (nonlinear_arith)
                requires
                    d > 0,
                    n >= 0,
            ;
        }
        (self.frame_count as u64 * 1000 / self.fps as u64) as u32
    }
}

/// Bit `k` of a byte, counted from its most significant bit.
pub open spec fn byte_bit(byte: u8, k: u8) -> bool {
    byte & (0x80u8 >> k) != 0
}

/// Pixel `i` of an MSB-first packed bitmap.
pub open spec fn pixel(plane: Seq<u8>, i: int) -> bool {
    byte_bit(plane[i / 8], (i % 8) as u8)
}

/// All pixels of an MSB-first packed bitmap, in order.
pub open spec fn pixels(plane: Seq<u8>) -> Seq<bool> {
    Seq::new(plane.len() * 8, |i: int| pixel(plane, i))
}

/// The run length at the head of `code` and the number of bytes it takes, or
/// `None` where the code ends inside it: one byte when under 128, otherwise two
/// bytes `0x80 | hi7` then `lo8`.
pub open spec fn head_run(code: Seq<u8>) -> Option<(nat, nat)> {
    if code.len() == 0 {
        None
    } else if code[0] < 0x80 {
        Some((code[0] as nat, 1))
    } else if code.len() == 1 {
        None
    } else {
        Some(((0x100 * (code[0] - 0x80) + code[1]) as nat, 2))
    }
}

/// Whether `code` is a sequence of whole runs that describe exactly `room`
/// pixels.
pub open spec fn describes(code: Seq<u8>, room: nat) -> bool
    decreases code.len(),
{
    if code.len() == 0 {
        room == 0
    } else {
        match head_run(code) {
            None => false,
            Some((run, used)) => run <= room && describes(code.skip(used as int), (room - run) as nat),
        }
    }
}

/// The pixels that the runs of `code` draw, the first of them in colour `bit`
/// and each further one in the other colour, up to the end of the code or to
/// the first run that is cut short or does not fit into `room` pixels.
pub open spec fn drawn(code: Seq<u8>, bit: bool, room: nat) -> Seq<bool>
    decreases code.len(),
{
    if code.len() == 0 {
        Seq::empty()
    } else {
        match head_run(code) {
            None => Seq::empty(),
            Some((run, used)) => if run <= room {
                Seq::new(run, |i: int| bit) + drawn(
                    code.skip(used as int),
                    !bit,
                    (room - run) as nat,
                )
            } else {
                Seq::empty()
            },
        }
    }
}

/// `bits` followed by as many clear pixels as fill up a frame.
pub open spec fn on_clear_frame(bits: Seq<bool>) -> Seq<bool> {
    Seq::new(TOTAL_BITS as nat, |i: int| i < bits.len() && bits[i])
}

/// Whether `enc` is a whole coded frame: a leading bit of 0 or 1, then runs for
/// exactly the pixels of one frame.
pub open spec fn is_coded_frame(enc: Seq<u8>) -> bool {
    enc.len() > 0 && enc[0] <= 1 && describes(enc.skip(1), TOTAL_BITS as nat)
}

/// The pixels that a coded frame draws.
pub open spec fn frame_pixels(enc: Seq<u8>) -> Seq<bool> {
    if enc.len() > 0 && enc[0] <= 1 {
        drawn(enc.skip(1), enc[0] == 1, TOTAL_BITS as nat)
    } else {
        Seq::empty()
    }
}

/// Decodes a bit-run-length coded frame into a 1bpp plane.
///
/// The first byte is the value of the leading bit; each run length follows.
/// Returns `None` if the runs do not describe exactly one frame, which means a
/// corrupt or truncated file; the plane then holds what was drawn before the
/// fault, on a clear background.
pub fn decode_frame(enc: &[u8], out: &mut [u8; FRAME_BYTES]) -> (done: Option<()>)
    ensures
        done is Some <==> is_coded_frame(enc@),
        done is Some ==> pixels(final(out)@) == frame_pixels(enc@),
        pixels(final(out)@) == on_clear_frame(frame_pixels(enc@)),
{
    let mut k: usize = 0;
    while k < FRAME_BYTES
        invariant
            k <= FRAME_BYTES,
            forall|j: int| 0 <= j < k ==> out@[j] == 0u8,
        decreases FRAME_BYTES - k,
    {
        out[k] = 0;
        k += 1;
    }
    proof {
        assert forall|i: int| 0 <= i < TOTAL_BITS implies !pixel(out@, i) by {
            lemma_clear_byte((i % 8) as u8);
        }
    }

    if enc.len() == 0 || enc[0] > 1 {
        assert(pixels(out@) =~= on_clear_frame(frame_pixels(enc@)));
        return None;
    }
    let mut bit: bool = enc[0] != 0;
    let mut pos: usize = 0;
    let mut i: usize = 1;
    let ghost whole = frame_pixels(enc@);
    proof {
        lemma_drawn_fits(enc@.skip(1), bit, TOTAL_BITS as nat);
    }

    while i < enc.len()
        invariant
            1 <= i <= enc@.len(),
            pos <= TOTAL_BITS,
            enc@[0] <= 1,
            whole == frame_pixels(enc@),
            whole.len() == pos + drawn(
                enc@.skip(i as int),
                bit,
                (TOTAL_BITS - pos) as nat,
            ).len(),
            whole.skip(pos as int) == drawn(enc@.skip(i as int), bit, (TOTAL_BITS - pos) as nat),
            is_coded_frame(enc@) <==> describes(enc@.skip(i as int), (TOTAL_BITS - pos) as nat),
            forall|j: int| 0 <= j < pos ==> pixel(out@, j) == whole[j],
            forall|j: int| pos <= j < TOTAL_BITS ==> !pixel(out@, j),
        decreases enc@.len() - i,
    {
        let ghost code = enc@.skip(i as int);
        let ghost room = (TOTAL_BITS - pos) as nat;
        let ghost before = out@;
        let b = enc[i];
        i += 1;
        let run: usize = if b & 0x80 != 0 {
            if i >= enc.len() {
                proof {
                    lemma_high_bit(b);
                    assert(head_run(code) is None);
                    assert(pixels(out@) =~= on_clear_frame(whole));
                }
                return None;
            }
            let lo = enc[i];
            i += 1;
            proof {
                lemma_high_bit(b);
            }
            0x100 * ((b & 0x7F) as usize) + lo as usize
        } else {
            proof {
                lemma_high_bit(b);
            }
            b as usize
        };
        assert(head_run(code) matches Some((r, used)) && r == run && code.skip(used as int)
            =~= enc@.skip(i as int));

        if run > TOTAL_BITS - pos {
            assert(pixels(out@) =~= on_clear_frame(whole));
            return None;
        }
        let end: usize = pos + run;

        if bit {
            set_bits(out, pos, end);
        }
        proof {
            let rest = drawn(enc@.skip(i as int), !bit, (room - run) as nat);
            assert(drawn(code, bit, room) == Seq::new(run as nat, |j: int| bit) + rest);
            assert(whole.skip(end as int) =~= rest) by {
                assert forall|j: int| 0 <= j < rest.len() implies whole.skip(end as int)[j]
                    == rest[j] by {
                    assert(whole.skip(pos as int)[run + j] == whole[end + j]);
                }
            }
            assert forall|j: int| 0 <= j < end implies pixel(out@, j) == whole[j] by {
                if j >= pos {
                    assert(whole.skip(pos as int)[j - pos] == whole[j]);
                }
            }
        }

        pos = end;
        bit = !bit;
    }
    assert(enc@.skip(i as int).len() == 0);
    assert(pixels(out@) =~= on_clear_frame(whole));

    if pos == TOTAL_BITS {
        assert(pixels(out@) =~= whole);
        Some(())
    } else {
        None
    }
}

/// Sets bits `[from, to)` in an MSB-first packed bitmap.
///
/// Whole bytes in the middle are filled at once; only the partial bytes at
/// each end are masked.
fn set_bits(out: &mut [u8; FRAME_BYTES], from: usize, to: usize)
    requires
        to <= TOTAL_BITS,
    ensures
        forall|i: int|
            0 <= i < TOTAL_BITS ==> #[trigger] pixel(final(out)@, i) == (from <= i < to || pixel(
                old(out)@,
                i,
            )),
{
    if from >= to {
        return;
    }
    let first_byte: usize = from / 8;
    let last_byte: usize = (to - 1) / 8;
    let head: u8 = (from % 8) as u8;
    let tail: u8 = ((to - 1) % 8) as u8;
    let ghost before = out@;

    if first_byte == last_byte {
        let mask: u8 = (0xFFu8 >> head) & !(0x7Fu8 >> tail);
        out[first_byte] = out[first_byte] | mask;
        proof {
            assert forall|i: int| 0 <= i < TOTAL_BITS implies #[trigger] pixel(out@, i) == (from <= i < to
                || pixel(before, i)) by {
                lemma_mask_both(before[first_byte as int], head, tail, (i % 8) as u8);
            }
        }
        return;
    }
    out[first_byte] = out[first_byte] | (0xFFu8 >> head);
    let mut k: usize = first_byte + 1;
    while k < last_byte
        invariant
            first_byte < k <= last_byte < FRAME_BYTES,
            out@[first_byte as int] == before[first_byte as int] | (0xFFu8 >> head),
            forall|j: int| first_byte < j < k ==> out@[j] == 0xFFu8,
            forall|j: int|
                0 <= j < FRAME_BYTES && (j < first_byte || j >= k) ==> out@[j] == before[j],
        decreases last_byte - k,
    {
        out[k] = 0xFF;
        k += 1;
    }
    out[last_byte] = out[last_byte] | !(0x7Fu8 >> tail);
    proof {
        assert forall|i: int| 0 <= i < TOTAL_BITS implies #[trigger] pixel(out@, i) == (from <= i < to
            || pixel(before, i)) by {
            let k = (i % 8) as u8;
            lemma_mask_head(before[i / 8], head, k);
            lemma_mask_tail(before[i / 8], tail, k);
            lemma_full_byte(k);
        }
    }
}

proof fn lemma_clear_byte(k: u8)
    by (bit_vector)
    requires
        k < 8,
    ensures
        !(0u8 & (0x80u8 >> k) != 0),
{
}

proof fn lemma_full_byte(k: u8)
    by (bit_vector)
    requires
        k < 8,
    ensures
        0xFFu8 & (0x80u8 >> k) != 0,
{
}

proof fn lemma_high_bit(b: u8)
    by (bit_vector)
    ensures
        (b & 0x80 != 0) == (b >= 0x80),
        b >= 0x80 ==> b & 0x7F == b - 0x80,
        b & 0x7F <= 0x7F,
{
}

proof fn lemma_mask_head(b: u8, head: u8, k: u8)
    by (bit_vector)
    requires
        head < 8,
        k < 8,
    ensures
        ((b | (0xFFu8 >> head)) & (0x80u8 >> k) != 0) == (k >= head || b & (0x80u8 >> k) != 0),
{
}

proof fn lemma_mask_tail(b: u8, tail: u8, k: u8)
    by (bit_vector)
    requires
        tail < 8,
        k < 8,
    ensures
        ((b | !(0x7Fu8 >> tail)) & (0x80u8 >> k) != 0) == (k <= tail || b & (0x80u8 >> k) != 0),
{
}

proof fn lemma_mask_both(b: u8, head: u8, tail: u8, k: u8)
    by (bit_vector)
    requires
        head < 8,
        tail < 8,
        k < 8,
    ensures
        ((b | ((0xFFu8 >> head) & !(0x7Fu8 >> tail))) & (0x80u8 >> k) != 0) == ((head <= k && k
            <= tail) || b & (0x80u8 >> k) != 0),
{
}

/// What a code draws never exceeds the room it is given, and fills it exactly
/// where the code describes it.
proof fn lemma_drawn_fits(code: Seq<u8>, bit: bool, room: nat)
    ensures
        drawn(code, bit, room).len() <= room,
        describes(code, room) ==> drawn(code, bit, room).len() == room,
    decreases code.len(),
{
    if code.len() > 0 {
        if let Some((run, used)) = head_run(code) {
            if run <= room {
                lemma_drawn_fits(code.skip(used as int), !bit, (room - run) as nat);
            }
        }
    }
}

/// The number of pixels at the head of `bits` that share its first colour.
pub open spec fn leading_run(bits: Seq<bool>) -> nat
    decreases bits.len(),
{
    if bits.len() <= 1 {
        bits.len()
    } else if bits[0] != bits[1] {
        1
    } else {
        1 + leading_run(bits.skip(1))
    }
}

/// The bytes that code a run of `run` pixels.
pub open spec fn coded_run(run: nat) -> Seq<u8> {
    if run < 0x80 {
        seq![run as u8]
    } else {
        seq![(0x80 + run / 0x100) as u8, (run % 0x100) as u8]
    }
}

/// The bytes that code `bits` as maximal runs.
pub open spec fn coded_runs(bits: Seq<bool>) -> Seq<u8>
    decreases bits.len(),
{
    if bits.len() == 0 {
        Seq::empty()
    } else {
        proof {
            lemma_leading_run(bits);
        }
        let run = leading_run(bits);
        coded_run(run) + coded_runs(bits.skip(run as int))
    }
}

/// A frame as the encoder writes it: the colour of the first pixel, then the
/// maximal runs.
pub open spec fn coded_frame(bits: Seq<bool>) -> Seq<u8> {
    seq![if bits[0] { 1u8 } else { 0u8 }] + coded_runs(bits)
}

/// Decoding undoes encoding: for every picture of one frame, the encoder's
/// bytes are a whole coded frame and draw that picture.
pub proof fn law_decoding_undoes_encoding(bits: Seq<bool>)
    requires
        bits.len() == TOTAL_BITS,
    ensures
        is_coded_frame(coded_frame(bits)),
        frame_pixels(coded_frame(bits)) == bits,
{
    lemma_runs_round_trip(bits);
    assert(coded_frame(bits).skip(1) =~= coded_runs(bits));
}

/// A frame that lost its tail is refused: no proper prefix of an encoded frame
/// is a whole coded frame.
pub proof fn law_a_truncated_frame_is_refused(bits: Seq<bool>, kept: int)
    requires
        bits.len() == TOTAL_BITS,
        0 <= kept < coded_frame(bits).len(),
    ensures
        !is_coded_frame(coded_frame(bits).take(kept)),
{
    if kept > 0 {
        lemma_runs_are_prefix_free(bits, kept - 1);
        assert(coded_frame(bits).take(kept).skip(1) =~= coded_runs(bits).take(kept - 1));
    }
}

/// A coded frame is decided by its bytes alone: two planes decoded from the
/// same bytes show the same picture, whatever they held before.
pub proof fn law_frames_are_independent(enc: Seq<u8>, first: Seq<u8>, second: Seq<u8>)
    requires
        first.len() == FRAME_BYTES,
        second.len() == FRAME_BYTES,
        pixels(first) == on_clear_frame(frame_pixels(enc)),
        pixels(second) == on_clear_frame(frame_pixels(enc)),
    ensures
        first == second,
{
    assert forall|k: int| 0 <= k < FRAME_BYTES implies first[k] == second[k] by {
        assert forall|j: u8| j < 8 implies byte_bit(first[k], j) == byte_bit(second[k], j) by {
            let i = 8 * k + j;
            assert(i / 8 == k && (i % 8) as u8 == j);
            assert(pixels(first)[i] == pixel(first, i));
            assert(pixels(second)[i] == pixel(second, i));
        }
        lemma_byte_from_bits(first[k], second[k]);
    }
    assert(first =~= second);
}

proof fn lemma_byte_from_bits(a: u8, b: u8)
    requires
        forall|j: u8| j < 8 ==> byte_bit(a, j) == byte_bit(b, j),
    ensures
        a == b,
{
    assert(byte_bit(a, 0) == byte_bit(b, 0));
    assert(byte_bit(a, 1) == byte_bit(b, 1));
    assert(byte_bit(a, 2) == byte_bit(b, 2));
    assert(byte_bit(a, 3) == byte_bit(b, 3));
    assert(byte_bit(a, 4) == byte_bit(b, 4));
    assert(byte_bit(a, 5) == byte_bit(b, 5));
    assert(byte_bit(a, 6) == byte_bit(b, 6));
    assert(byte_bit(a, 7) == byte_bit(b, 7));
    assert(a == b) by (bit_vector)
        requires
            (a & (0x80u8 >> 0u8) != 0) == (b & (0x80u8 >> 0u8) != 0),
            (a & (0x80u8 >> 1u8) != 0) == (b & (0x80u8 >> 1u8) != 0),
            (a & (0x80u8 >> 2u8) != 0) == (b & (0x80u8 >> 2u8) != 0),
            (a & (0x80u8 >> 3u8) != 0) == (b & (0x80u8 >> 3u8) != 0),
            (a & (0x80u8 >> 4u8) != 0) == (b & (0x80u8 >> 4u8) != 0),
            (a & (0x80u8 >> 5u8) != 0) == (b & (0x80u8 >> 5u8) != 0),
            (a & (0x80u8 >> 6u8) != 0) == (b & (0x80u8 >> 6u8) != 0),
            (a & (0x80u8 >> 7u8) != 0) == (b & (0x80u8 >> 7u8) != 0),
    ;
}

/// The leading run is not empty, has one colour, and is as long as it can be.
pub proof fn lemma_leading_run(bits: Seq<bool>)
    requires
        bits.len() > 0,
    ensures
        1 <= leading_run(bits) <= bits.len(),
        forall|i: int| 0 <= i < leading_run(bits) ==> #[trigger] bits[i] == bits[0],
        leading_run(bits) < bits.len() ==> bits[leading_run(bits) as int] != bits[0],
    decreases bits.len(),
{
    if bits.len() > 1 && bits[0] == bits[1] {
        let tail = bits.skip(1);
        lemma_leading_run(tail);
        assert forall|i: int| 0 <= i < leading_run(bits) implies #[trigger] bits[i] == bits[0] by {
            if i > 0 {
                assert(tail[i - 1] == bits[i]);
            }
        }
        if leading_run(bits) < bits.len() {
            assert(tail[leading_run(tail) as int] == bits[leading_run(bits) as int]);
        }
    }
}

proof fn lemma_head_of_coded_run(run: nat, rest: Seq<u8>)
    requires
        run < 0x8000,
    ensures
        head_run(coded_run(run) + rest) == Some((run, coded_run(run).len())),
        (coded_run(run) + rest).skip(coded_run(run).len() as int) == rest,
{
    assert((coded_run(run) + rest).skip(coded_run(run).len() as int) =~= rest);
}

proof fn lemma_runs_round_trip(bits: Seq<bool>)
    requires
        bits.len() < 0x8000,
    ensures
        describes(coded_runs(bits), bits.len()),
        bits.len() > 0 ==> drawn(coded_runs(bits), bits[0], bits.len()) == bits,
    decreases bits.len(),
{
    if bits.len() > 0 {
        lemma_leading_run(bits);
        let run = leading_run(bits);
        let tail = bits.skip(run as int);
        lemma_head_of_coded_run(run, coded_runs(tail));
        lemma_runs_round_trip(tail);
        let rest = drawn(coded_runs(tail), !bits[0], tail.len());
        assert(rest =~= tail);
        assert(Seq::new(run, |i: int| bits[0]) + rest =~= bits);
    }
}

proof fn lemma_runs_are_prefix_free(bits: Seq<bool>, kept: int)
    requires
        bits.len() < 0x8000,
        0 <= kept < coded_runs(bits).len(),
    ensures
        !describes(coded_runs(bits).take(kept), bits.len()),
    decreases bits.len(),
{
    lemma_leading_run(bits);
    let run = leading_run(bits);
    let tail = bits.skip(run as int);
    let used = coded_run(run).len() as int;
    lemma_head_of_coded_run(run, coded_runs(tail));
    let code = coded_runs(bits).take(kept);
    if used <= kept {
        lemma_runs_are_prefix_free(tail, kept - used);
        assert(code.skip(used) =~= coded_runs(tail).take(kept - used));
        assert(code[0] == coded_runs(bits)[0]);
        assert(used == 2 ==> code[1] == coded_runs(bits)[1]);
        assert(head_run(code) == Some((run, used as nat)));
    } else if kept > 0 {
        assert(code[0] == coded_runs(bits)[0]);
        assert(head_run(code) is None);
    }
}

/// Planes are packed with the leftmost pixel of a byte in its most significant
/// bit: pixel `8 * k + j` is worth `128 >> j` in byte `k`, and is set exactly if
/// what the pixels to its left leave of the byte is at least that.
pub proof fn law_the_leftmost_pixel_is_the_highest_bit(plane: Seq<u8>, k: int)
    requires
        0 <= k < plane.len(),
    ensures
        pixels(plane).len() == 8 * plane.len(),
        pixels(plane)[8 * k] == (plane[k] >= 128),
        pixels(plane)[8 * k + 1] == (plane[k] % 128 >= 64),
        pixels(plane)[8 * k + 2] == (plane[k] % 64 >= 32),
        pixels(plane)[8 * k + 3] == (plane[k] % 32 >= 16),
        pixels(plane)[8 * k + 4] == (plane[k] % 16 >= 8),
        pixels(plane)[8 * k + 5] == (plane[k] % 8 >= 4),
        pixels(plane)[8 * k + 6] == (plane[k] % 4 >= 2),
        pixels(plane)[8 * k + 7] == (plane[k] % 2 >= 1),
{
    lemma_worth(plane[k]);
}

proof fn lemma_worth(b: u8)
    ensures
        byte_bit(b, 0) == (b >= 128),
        byte_bit(b, 1) == (b % 128 >= 64),
        byte_bit(b, 2) == (b % 64 >= 32),
        byte_bit(b, 3) == (b % 32 >= 16),
        byte_bit(b, 4) == (b % 16 >= 8),
        byte_bit(b, 5) == (b % 8 >= 4),
        byte_bit(b, 6) == (b % 4 >= 2),
        byte_bit(b, 7) == (b % 2 >= 1),
{
    assert((b & (0x80u8 >> 0u8) != 0) == (b >= 128) && (b & (0x80u8 >> 1u8) != 0) == (b % 128
        >= 64) && (b & (0x80u8 >> 2u8) != 0) == (b % 64 >= 32) && (b & (0x80u8 >> 3u8) != 0) == (b
        % 32 >= 16) && (b & (0x80u8 >> 4u8) != 0) == (b % 16 >= 8) && (b & (0x80u8 >> 5u8) != 0)
        == (b % 8 >= 4) && (b & (0x80u8 >> 6u8) != 0) == (b % 4 >= 2) && (b & (0x80u8 >> 7u8) != 0)
        == (b % 2 >= 1)) by (bit_vector);
}

/// A run draws its pixels and the next one the other colour. A run under 128 is
/// its own byte, and any run under 32768 can be two bytes, `0x80` more than the
/// high seven bits and then the low eight.
pub proof fn law_a_run_draws_its_pixels(run: nat, rest: Seq<u8>, bit: bool, room: nat)
    requires
        run < 0x8000,
    ensures
        ({
            let long = seq![(0x80 + run / 256) as u8, (run % 256) as u8] + rest;
            let short = seq![run as u8] + rest;
            let run_bits = Seq::new(run, |i: int| bit);
            &&& run <= room ==> {
                &&& drawn(long, bit, room) == run_bits + drawn(rest, !bit, (room - run) as nat)
                &&& describes(long, room) == describes(rest, (room - run) as nat)
            }
            &&& run <= room && run < 128 ==> {
                &&& drawn(short, bit, room) == run_bits + drawn(rest, !bit, (room - run) as nat)
                &&& describes(short, room) == describes(rest, (room - run) as nat)
            }
            &&& run > room ==> !describes(long, room)
            &&& run > room && run < 128 ==> !describes(short, room)
        }),
        describes(Seq::empty(), room) == (room == 0),
        drawn(Seq::empty(), bit, room) == Seq::<bool>::empty(),
        !describes(seq![(0x80 + run / 256) as u8], room),
{
    let long = seq![(0x80 + run / 256) as u8, (run % 256) as u8] + rest;
    let short = seq![run as u8] + rest;
    assert(long.skip(2) =~= rest);
    assert(short.skip(1) =~= rest);
}

/// What a frame is: a first byte of 0 or 1, the colour of the first run, and
/// runs for exactly the 152 x 152 pixels of the panel. A decoded plane has a
/// bit for each of them, clear where nothing was drawn.
pub proof fn law_a_frame_has_the_pixels_of_the_panel(first: u8, code: Seq<u8>, i: int)
    ensures
        is_coded_frame(seq![first] + code) <==> first <= 1 && describes(code, (152 * 152) as nat),
        first <= 1 ==> frame_pixels(seq![first] + code) == drawn(
            code,
            first == 1,
            (152 * 152) as nat,
        ),
        first > 1 ==> frame_pixels(seq![first] + code) == Seq::<bool>::empty(),
        !is_coded_frame(Seq::empty()),
        0 <= i < 152 * 152 ==> ({
            let bits = frame_pixels(seq![first] + code);
            on_clear_frame(bits)[i] == (i < bits.len() && bits[i])
        }),
        on_clear_frame(frame_pixels(seq![first] + code)).len() == 152 * 152,
{
    assert((seq![first] + code).skip(1) =~= code);
}

/// What a video file starts with: `AEGGVID1`, then little-endian the panel's
/// width and height, a frame rate and, in bytes 16 to 19, a number of frames,
/// neither of them zero. Bytes 14 and 15 do not matter.
pub proof fn law_a_video_file_is_known_by_its_header(buf: Seq<u8>)
    ensures
        is_video_header(buf) <==> {
            &&& buf.len() >= 20
            &&& buf.take(8) == seq![0x41u8, 0x45, 0x47, 0x47, 0x56, 0x49, 0x44, 0x31]
            &&& buf.subrange(8, 12) == seq![152u8, 0, 152, 0]
            &&& buf.subrange(12, 14) != seq![0u8, 0]
            &&& buf.subrange(16, 20) != seq![0u8, 0, 0, 0]
        },
{
    if buf.len() >= 20 {
        assert(buf.take(8) =~= buf.subrange(0, 8));
        assert(MAGIC@ =~= seq![0x41u8, 0x45, 0x47, 0x47, 0x56, 0x49, 0x44, 0x31]);
        assert(buf.subrange(8, 12) =~= seq![buf[8], buf[9], buf[10], buf[11]]);
        assert(buf.subrange(12, 14) =~= seq![buf[12], buf[13]]);
        assert(buf.subrange(16, 20) =~= seq![buf[16], buf[17], buf[18], buf[19]]);
        let (s, t, u) = (buf.subrange(8, 12), buf.subrange(12, 14), buf.subrange(16, 20));
        if s == seq![152u8, 0, 152, 0] {
            assert(s[0] == 152 && s[1] == 0 && s[2] == 152 && s[3] == 0);
        } else {
            assert(!(buf[8] == 152 && buf[9] == 0 && buf[10] == 152 && buf[11] == 0)) by {
                if buf[8] == 152 && buf[9] == 0 && buf[10] == 152 && buf[11] == 0 {
                    assert(s =~= seq![152u8, 0, 152, 0]);
                }
            }
        }
        if t == seq![0u8, 0] {
            assert(t[0] == 0 && t[1] == 0);
        } else if buf[12] == 0 && buf[13] == 0 {
            assert(t =~= seq![0u8, 0]);
        }
        if u == seq![0u8, 0, 0, 0] {
            assert(u[0] == 0 && u[1] == 0 && u[2] == 0 && u[3] == 0);
        } else if buf[16] == 0 && buf[17] == 0 && buf[18] == 0 && buf[19] == 0 {
            assert(u =~= seq![0u8, 0, 0, 0]);
        }
    }
}

} // verus!
