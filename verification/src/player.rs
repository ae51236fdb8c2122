//! The player: which frame is due, and when playback stops.
//!
//! Video and audio are not driven from a shared timer. Audio runs freely out
//! of its buffers and acts as the master clock; the video loop asks how many
//! samples have played and shows whichever frame that lands on. When the panel
//! cannot keep up, frames are skipped rather than queued, so the picture stays
//! with the music instead of sliding steadily behind it.

use crate::adpcm::{is_sound_header, SoundHeader};
use crate::asset::AssetRead;
use crate::bytes::{le32, read_le32};
use crate::fat12::to_8_3;
use crate::video::{
    decode_frame, frame_pixels, is_coded_frame, is_video_header, on_clear_frame, pixels,
    VideoHeader, FRAME_BYTES, HEADER_LEN,
};
use vstd::prelude::*;
use vstd::string::StringSliceAdditionalSpecFns;

verus! {

/// Largest coded frame that is accepted.
///
/// Thresholded video cannot approach this, so it exists only to bound the read
/// buffer if the file is corrupt.
pub const MAX_FRAME_BYTES: usize = 8 * 1024;

/// LUT timing scale used for playback refreshes: the OEM timing.
pub const LUT_SPEED: u8 = 100;

/// Backstop for a single panel refresh, in milliseconds. Longer than the
/// slowest full waveform (~6 s) so it only fires on a stuck controller.
pub const REFRESH_TIMEOUT_MS: u64 = 15_000;

/// How long the video waits for the first sample, in microseconds.
pub const SILENCE_US: u64 = 1_500_000;

/// Pause when the picture is ahead of the music, in milliseconds.
pub const AHEAD_MS: u64 = 20;

/// Why playback ended. Blinked out on the red LED.
#[derive(Debug, Clone, Copy, PartialEq, Eq, Structural)]
pub enum Stop {
    /// Ran to the end of the video. The happy path.
    Complete,
    /// Fire was held.
    Fire,
    /// The audio stream ended first.
    AudioEnded,
    /// The offset table or frame data could not be read.
    ReadFailed,
    /// A frame's run coding did not describe a whole frame.
    DecodeFailed,
}

impl Stop {
    /// How often the red LED blinks for it.
    pub fn blinks(&self) -> (n: u8)
        ensures
            n == (match *self {
                Stop::Complete => 1u8,
                Stop::Fire => 2,
                Stop::AudioEnded => 3,
                Stop::ReadFailed => 4,
                Stop::DecodeFailed => 5,
            }),
    {
        match self {
            Stop::Complete => 1,
            Stop::Fire => 2,
            Stop::AudioEnded => 3,
            Stop::ReadFailed => 4,
            Stop::DecodeFailed => 5,
        }
    }
}

/// What the player sees when it looks up.
#[derive(Debug, Clone, Copy, PartialEq, Eq, Structural)]
pub struct Look {
    /// Whether Fire is held.
    pub fire: bool,
    /// Whether the audio stream has been played to the end.
    pub finished: bool,
    /// Samples queued for playback so far.
    pub samples_played: u32,
    /// Microseconds since playback began.
    pub elapsed_us: u64,
}

/// What the player does next.
#[derive(Debug, Clone, Copy, PartialEq, Eq, Structural)]
pub enum Tick {
    /// Playback is over.
    Stop(Stop),
    /// The frame that is due is on the panel: look again after this many
    /// milliseconds.
    Wait(u64),
    /// Read, decode and show this frame.
    Show(u32),
}

/// The state of the video loop.
#[derive(Debug, Clone, Copy)]
pub struct Player {
    pub header: VideoHeader,
    pub sample_rate: u32,
    /// The frame on the panel.
    pub shown: Option<u32>,
    /// Frames that were passed over.
    pub skipped: u32,
    /// Refreshes that did not end in time.
    pub stalled: u32,
    /// Whether the video has had to fall back to the wall clock.
    pub warned_silent: bool,
}

/// Whether no sample has come in time, so that the wall clock takes over.
pub open spec fn is_silent(look: Look) -> bool {
    look.samples_played == 0 && look.elapsed_us > SILENCE_US
}

/// The frame that the music has reached: by the samples played, or by the wall
/// clock if audio never starts.
pub open spec fn due(fps: int, sample_rate: int, look: Look) -> int {
    (if look.samples_played > 0 {
        look.samples_played * fps / (if sample_rate < 1 {
            1
        } else {
            sample_rate
        })
    } else if is_silent(look) {
        look.elapsed_us as int / 1000 * fps / 1000
    } else {
        0
    }) % 0x1_0000_0000
}

/// Frames between the one that was shown and the one that is due.
pub open spec fn gap(shown: Option<u32>, target: int) -> int {
    match shown {
        Some(prev) if target > prev => target - prev - 1,
        _ => 0,
    }
}

impl Player {
    /// The frame that is due.
    pub open spec fn target(&self, look: Look) -> int {
        due(self.header.fps as int, self.sample_rate as int, look)
    }

    /// Whether the arithmetic of a step stays in range: the wall clock times
    /// the frame rate has 64 bits, and the count of skipped frames has 32.
    pub open spec fn in_range(&self, look: Look) -> bool {
        look.fire || look.finished || {
            &&& is_silent(look) ==> look.elapsed_us as int / 1000 * self.header.fps <= u64::MAX
            &&& self.target(look) < self.header.frame_count ==> self.skipped + gap(
                self.shown,
                self.target(look),
            ) <= u32::MAX
        }
    }

    /// What the player does by what it sees.
    pub open spec fn decided(&self, look: Look) -> Tick {
        let target = self.target(look);
        if look.fire {
            Tick::Stop(Stop::Fire)
        } else if look.finished {
            Tick::Stop(Stop::AudioEnded)
        } else if target >= self.header.frame_count {
            Tick::Stop(Stop::Complete)
        } else if self.shown == Some(target as u32) {
            Tick::Wait(AHEAD_MS)
        } else {
            Tick::Show(target as u32)
        }
    }

    pub fn new(header: VideoHeader, sample_rate: u32) -> (player: Self)
        ensures
            player.header == header,
            player.sample_rate == sample_rate,
            player.shown is None,
            player.skipped == 0,
            player.stalled == 0,
            !player.warned_silent,
    {
        Player {
            header,
            sample_rate,
            shown: None,
            skipped: 0,
            stalled: 0,
            warned_silent: false,
        }
    }

    /// The frame that is due, `None` if the wall clock has run out of range.
    fn due_frame(&self, look: Look) -> (frame: Option<u32>)
        ensures
            frame is None <==> is_silent(look) && look.elapsed_us as int / 1000 * self.header.fps
                > u64::MAX,
            frame matches Some(f) ==> f == self.target(look),
    {
        let fps: u64 = self.header.fps as u64;
        let target: u64 = if look.samples_played > 0 {
            let rate: u32 = if self.sample_rate < 1 {
                1
            } else {
                self.sample_rate
            };
            assert(0 <= look.samples_played * fps <= 0xFFFF_FFFF * 0xFFFF) by (nonlinear_arith)
                requires
                    0 <= look.samples_played <= 0xFFFF_FFFF,
                    0 <= fps <= 0xFFFF,
            ;
            look.samples_played as u64 * fps / rate as u64
        } else if look.elapsed_us > SILENCE_US {
            match (look.elapsed_us / 1000).checked_mul(fps) {
                Some(v) => v / 1000,
                None => {
                    return None;
                },
            }
        } else {
            0
        };
        assert(target as u32 == target % 0x1_0000_0000) by (bit_vector);
        Some(target as u32)
    }

    /// Whether a step can be taken by what the player sees.
    pub fn can_tick(&self, look: Look) -> (ok: bool)
        ensures
            ok == self.in_range(look),
    {
        if look.fire || look.finished {
            return true;
        }
        let target: u32 = match self.due_frame(look) {
            Some(target) => target,
            None => {
                return false;
            },
        };
        match self.shown {
            Some(prev) => target >= self.header.frame_count || target <= prev || target - prev - 1
                <= u32::MAX - self.skipped,
            None => true,
        }
    }

    /// Decides what to do, by what the player sees.
    pub fn tick(&mut self, look: Look) -> (tick: Tick)
        requires
            old(self).in_range(look),
        ensures
            final(self).header == old(self).header,
            final(self).sample_rate == old(self).sample_rate,
            final(self).stalled == old(self).stalled,
            tick == old(self).decided(look),
            ({
                let target = old(self).target(look);
                &&& tick == (if look.fire {
                    Tick::Stop(Stop::Fire)
                } else if look.finished {
                    Tick::Stop(Stop::AudioEnded)
                } else if target >= old(self).header.frame_count {
                    Tick::Stop(Stop::Complete)
                } else if old(self).shown == Some(target as u32) {
                    Tick::Wait(AHEAD_MS)
                } else {
                    Tick::Show(target as u32)
                })
                &&& tick matches Tick::Show(frame) ==> {
                    &&& frame == target
                    &&& final(self).shown == Some(frame)
                    &&& final(self).skipped == old(self).skipped + gap(old(self).shown, target)
                }
                &&& !(tick is Show) ==> {
                    &&& final(self).shown == old(self).shown
                    &&& final(self).skipped == old(self).skipped
                }
                &&& final(self).warned_silent == (old(self).warned_silent || (!look.fire
                    && !look.finished && is_silent(look)))
            }),
    {
        if look.fire {
            return Tick::Stop(Stop::Fire);
        }
        if look.finished {
            return Tick::Stop(Stop::AudioEnded);
        }
        let target: u32 = match self.due_frame(look) {
            Some(target) => target,
            None => 0,
        };
        if look.samples_played == 0 && look.elapsed_us > SILENCE_US {
            self.warned_silent = true;
        }
        if target >= self.header.frame_count {
            return Tick::Stop(Stop::Complete);
        }
        if let Some(prev) = self.shown {
            if prev == target {
                return Tick::Wait(AHEAD_MS);
            }
            if target > prev {
                self.skipped = self.skipped + (target - prev - 1);
            }
        }
        self.shown = Some(target);
        Tick::Show(target)
    }

    /// Takes the coded frame that was read, `None` if it could not be, and
    /// draws it. Returns why playback ends, if it does.
    pub fn draw(&self, encoded: Option<&[u8]>, plane: &mut [u8; FRAME_BYTES]) -> (stop: Option<
        Stop,
    >)
        ensures
            stop == (match encoded {
                None => Some(Stop::ReadFailed),
                Some(bytes) => if is_coded_frame(bytes@) {
                    None
                } else {
                    Some(Stop::DecodeFailed)
                },
            }),
            encoded is None ==> final(plane)@ == old(plane)@,
            encoded matches Some(bytes) ==> pixels(final(plane)@) == on_clear_frame(
                frame_pixels(bytes@),
            ),
    {
        match encoded {
            None => Some(Stop::ReadFailed),
            Some(bytes) => {
                if decode_frame(bytes, plane).is_none() {
                    Some(Stop::DecodeFailed)
                } else {
                    None
                }
            },
        }
    }

    /// A refresh has returned, or was given up. A stalled one costs one frame,
    /// not the whole video.
    pub fn refreshed(&mut self, in_time: bool)
        requires
            in_time || old(self).stalled < u32::MAX,
        ensures
            *final(self) == (Player {
                stalled: (old(self).stalled + (if in_time {
                    0int
                } else {
                    1
                })) as u32,
                ..*old(self)
            }),
    {
        if !in_time {
            self.stalled = self.stalled + 1;
        }
    }
}

/// The place of a coded frame in the file, as two neighbouring entries of the
/// offset table state it.
#[derive(Debug, Clone, Copy, PartialEq, Eq, Structural)]
pub struct FrameBounds {
    pub start: u32,
    pub len: usize,
}

/// Whether two entries of the offset table bound a frame: it is neither empty
/// nor longer than the buffer.
pub open spec fn bounds_frame(entries: Seq<u8>) -> bool {
    0 < le32(entries, 4) - le32(entries, 0) <= MAX_FRAME_BYTES
}

/// Reads the bounds of a frame out of the part of the offset table that a read
/// of two entries delivered.
///
/// The table carries one entry more than there are frames, so both bounds of
/// any valid frame are present and the length is simply their difference.
pub fn frame_bounds(entries: &[u8]) -> (bounds: Option<FrameBounds>)
    ensures
        bounds is Some <==> entries@.len() >= 8 && bounds_frame(entries@),
        bounds matches Some(b) ==> {
            &&& b.start == le32(entries@, 0)
            &&& b.len == le32(entries@, 4) - le32(entries@, 0)
            &&& 0 < b.len <= MAX_FRAME_BYTES
        },
{
    if entries.len() < 8 {
        return None;
    }
    let start: u32 = read_le32(entries, 0);
    let end: u32 = read_le32(entries, 4);
    if end < start {
        return None;
    }
    let len: usize = (end - start) as usize;
    if len == 0 || len > MAX_FRAME_BYTES {
        return None;
    }
    Some(FrameBounds { start, len })
}

/// The two entries of the offset table that bound a frame.
pub open spec fn entries_of(file: Seq<u8>, frame: int) -> Seq<u8> {
    file.subrange(HEADER_LEN + frame * 4, HEADER_LEN + frame * 4 + 8)
}

/// Whether a file holds the two table entries of a frame, and they bound one.
pub open spec fn has_bounds(file: Seq<u8>, frame: int) -> bool {
    &&& HEADER_LEN + frame * 4 + 8 <= file.len()
    &&& bounds_frame(entries_of(file, frame))
}

/// Whether a file holds a frame: its two table entries, and all of the bytes
/// that they bound.
pub open spec fn holds_frame(file: Seq<u8>, frame: int) -> bool {
    &&& has_bounds(file, frame)
    &&& le32(entries_of(file, frame), 4) <= file.len()
}

/// The coded bytes of a frame.
pub open spec fn coded_bytes(file: Seq<u8>, frame: int) -> Seq<u8> {
    file.subrange(le32(entries_of(file, frame), 0), le32(entries_of(file, frame), 4))
}

/// Reads one coded frame via the offset table, returning its length.
pub fn read_frame<R: AssetRead>(
    file: &mut R,
    header: &VideoHeader,
    frame: u32,
    out: &mut [u8; MAX_FRAME_BYTES],
) -> (len: Option<usize>)
    requires
        HEADER_LEN + frame * 4 <= u32::MAX,
    ensures
        final(file).contents() == old(file).contents(),
        final(file).reliable() == old(file).reliable(),
        len matches Some(n) ==> {
            &&& holds_frame(old(file).contents(), frame as int)
            &&& n <= MAX_FRAME_BYTES
            &&& final(out)@.subrange(0, n as int) == coded_bytes(
                old(file).contents(),
                frame as int,
            )
        },
        old(file).reliable() ==> (len is Some <==> holds_frame(
            old(file).contents(),
            frame as int,
        )),
        len matches Some(n) ==> final(out)@.subrange(n as int, MAX_FRAME_BYTES as int) == old(out)@.subrange(n as int, MAX_FRAME_BYTES as int),
        old(file).dead() || !has_bounds(old(file).contents(), frame as int) ==> len is None
            && final(out)@ == old(out)@ && final(file).asked() == old(file).asked().push(
            ((HEADER_LEN + frame * 4) as u32, 8),
        ),
        len matches Some(n) ==> final(file).asked() == old(file).asked().push(
            ((HEADER_LEN + frame * 4) as u32, 8),
        ).push(
            (le32(entries_of(old(file).contents(), frame as int), 0) as u32, n as nat),
        ),
{
    let ghost bytes = file.contents();
    let mut entries: [u8; 8] = [0u8;8];
    let n: usize = {
        let buf: &mut [u8] = &mut entries;
        file.read_at(header.offset_entry(frame), buf)
    };
    if n < 8 {
        return None;
    }
    assert(entries@ =~= entries_of(bytes, frame as int));
    let bounds: FrameBounds = match frame_bounds(&entries) {
        Some(bounds) => bounds,
        None => {
            return None;
        },
    };
    let all: &mut [u8] = out;
    let (head, _) = all.split_at_mut(bounds.len);
    let n: usize = file.read_at(bounds.start, head);
    if n != bounds.len {
        return None;
    }
    assert(head@ =~= coded_bytes(bytes, frame as int));
    Some(bounds.len)
}

/// Reads and parses the header of the video file.
pub fn open_video<R: AssetRead>(file: &mut R) -> (header: Option<VideoHeader>)
    ensures
        final(file).contents() == old(file).contents(),
        final(file).reliable() == old(file).reliable(),
        header matches Some(hdr) ==> {
            &&& is_video_header(old(file).contents())
            &&& hdr.wf()
            &&& hdr.fps == crate::bytes::le16(old(file).contents(), 12)
            &&& hdr.frame_count == le32(old(file).contents(), 16)
        },
        final(file).asked() == old(file).asked().push((0, 20)),
        old(file).dead() ==> header is None,
        old(file).reliable() ==> (header is Some <==> is_video_header(old(file).contents())),
{
    let ghost bytes = file.contents();
    let mut head: [u8; HEADER_LEN] = [0u8;HEADER_LEN];
    let n: usize = {
        let buf: &mut [u8] = &mut head;
        file.read_at(0, buf)
    };
    if n < HEADER_LEN {
        return None;
    }
    assert(head@ =~= bytes.subrange(0, HEADER_LEN as int));
    assert(head@.subrange(0, 8) =~= bytes.subrange(0, 8));
    VideoHeader::parse(&head)
}

/// Reads and parses the header of the sound file.
pub fn open_sound<R: AssetRead>(file: &mut R) -> (header: Option<SoundHeader>)
    ensures
        final(file).contents() == old(file).contents(),
        final(file).reliable() == old(file).reliable(),
        header matches Some(hdr) ==> {
            &&& is_sound_header(old(file).contents())
            &&& hdr.wf()
            &&& hdr.sample_rate == le32(old(file).contents(), 8)
            &&& hdr.sample_count == le32(old(file).contents(), 12)
            &&& hdr.block_samples == crate::bytes::le16(old(file).contents(), 16)
            &&& hdr.block_bytes == crate::bytes::le16(old(file).contents(), 18)
        },
        final(file).asked() == old(file).asked().push((0, 20)),
        old(file).dead() ==> header is None,
        old(file).reliable() ==> (header is Some <==> is_sound_header(old(file).contents())),
{
    let ghost bytes = file.contents();
    let mut head: [u8; crate::adpcm::HEADER_LEN] = [0u8;crate::adpcm::HEADER_LEN];
    let n: usize = {
        let buf: &mut [u8] = &mut head;
        file.read_at(0, buf)
    };
    if n < crate::adpcm::HEADER_LEN {
        return None;
    }
    assert(head@ =~= bytes.subrange(0, HEADER_LEN as int));
    assert(head@.subrange(0, 8) =~= bytes.subrange(0, 8));
    SoundHeader::parse(&head)
}

/// `BADAPPLEVID`, the directory name of the video file.
pub open spec fn video_name_bytes() -> Seq<u8> {
    seq![0x42, 0x41, 0x44, 0x41, 0x50, 0x50, 0x4C, 0x45, 0x56, 0x49, 0x44]
}

/// `BADAPPLESND`, the directory name of the sound file.
pub open spec fn sound_name_bytes() -> Seq<u8> {
    seq![0x42, 0x41, 0x44, 0x41, 0x50, 0x50, 0x4C, 0x45, 0x53, 0x4E, 0x44]
}

/// The directory name of the video file.
pub fn video_name() -> (name: Option<[u8; 11]>)
    ensures
        name matches Some(n) && n@ == video_name_bytes(),
{
    proof {
        reveal_strlit("BADAPPLE.VID");
        assert(vstd::string::is_ascii("BADAPPLE.VID"));
        assert(crate::fat12::directory::fits_8_3("BADAPPLE.VID".spec_bytes(), 8));
        assert(crate::fat12::directory::form_8_3("BADAPPLE.VID".spec_bytes(), 8)
            =~= video_name_bytes());
    }
    to_8_3("BADAPPLE.VID")
}

/// The directory name of the sound file.
pub fn sound_name() -> (name: Option<[u8; 11]>)
    ensures
        name matches Some(n) && n@ == sound_name_bytes(),
{
    proof {
        reveal_strlit("BADAPPLE.SND");
        assert(vstd::string::is_ascii("BADAPPLE.SND"));
        assert(crate::fat12::directory::fits_8_3("BADAPPLE.SND".spec_bytes(), 8));
        assert(crate::fat12::directory::form_8_3("BADAPPLE.SND".spec_bytes(), 8)
            =~= sound_name_bytes());
    }
    to_8_3("BADAPPLE.SND")
}

/// The picture stays with the music: within a pass of the track the frame that
/// is due only moves forward, and frame `frame` is due exactly while the samples
/// played lie in its share of the track.
pub proof fn law_the_picture_follows_the_music(
    fps: int,
    sample_rate: int,
    look: Look,
    later: Look,
    frame: int,
)
    requires
        fps > 0,
        sample_rate > 0,
        0 < look.samples_played <= later.samples_played,
        later.samples_played * fps < 0x1_0000_0000 * sample_rate,
    ensures
        due(fps, sample_rate, look) <= due(fps, sample_rate, later),
        due(fps, sample_rate, look) == frame <==> frame * sample_rate <= look.samples_played * fps
            < (frame + 1) * sample_rate,
{
    let a = look.samples_played * fps;
    let b = later.samples_played * fps;
    assert(0 < a <= b) by (nonlinear_arith)
        requires
            a == look.samples_played * fps,
            b == later.samples_played * fps,
            fps > 0,
            0 < look.samples_played <= later.samples_played,
    ;
    assert(a / sample_rate <= b / sample_rate < 0x1_0000_0000) by (nonlinear_arith)
        requires
            0 < a <= b,
            b < 0x1_0000_0000 * sample_rate,
            sample_rate > 0,
    ;
    assert(a / sample_rate >= 0) by (nonlinear_arith)
        requires
            0 < a,
            sample_rate > 0,
    ;
    assert(a / sample_rate == frame <==> frame * sample_rate <= a < (frame + 1) * sample_rate)
        by (nonlinear_arith)
        requires
            sample_rate > 0,
    ;
}

/// The wall clock stands in for the music: as long as no sample has played, the
/// first frame is due for one and a half seconds, and after that frame `frame`
/// is due exactly while the whole milliseconds since the start lie in its share
/// of a second.
pub proof fn law_the_wall_clock_stands_in(fps: int, sample_rate: int, look: Look, frame: int)
    requires
        fps > 0,
        look.samples_played == 0,
        look.elapsed_us as int / 1000 * fps < 1000 * 0x1_0000_0000,
    ensures
        look.elapsed_us <= 1_500_000 ==> due(fps, sample_rate, look) == 0,
        look.elapsed_us > 1_500_000 ==> (due(fps, sample_rate, look) == frame <==> frame * 1000
            <= look.elapsed_us as int / 1000 * fps < (frame + 1) * 1000),
{
    let a = look.elapsed_us as int / 1000 * fps;
    assert(a >= 0) by (nonlinear_arith)
        requires
            a == look.elapsed_us as int / 1000 * fps,
            fps > 0,
    ;
}

/// Every frame between two that are shown is counted as skipped, once: none if
/// they are neighbours, and showing one in between counts one less. Going back
/// to the start of the track skips nothing.
pub proof fn law_frames_in_between_are_skipped(first: u32, between: u32, last: u32)
    requires
        first < between < last,
    ensures
        gap(Some(first), first + 1) == 0,
        gap(Some(first), last as int) == gap(Some(first), between as int) + 1 + gap(
            Some(between),
            last as int,
        ),
        gap(Some(last), first as int) == 0,
        gap(Some(first), first as int) == 0,
        gap(None, last as int) == 0,
{
}

/// The offset table places the frames: where the table behind the header of 20
/// bytes holds `offsets`, four bytes each and the least significant one first,
/// frame `frame` is what lies between its own offset and the next one. It can be
/// read exactly if that is at least one byte, at most 8192 and inside the file.
pub proof fn law_the_offset_table_places_the_frames(file: Seq<u8>, offsets: Seq<u32>, frame: int)
    requires
        0 <= frame < offsets.len() - 1,
        20 + 4 * offsets.len() <= file.len(),
        forall|f: int|
            0 <= f < offsets.len() ==> file.subrange(20 + 4 * f, 24 + 4 * f) == seq![
                (#[trigger] offsets[f] % 0x100) as u8,
                (offsets[f] / 0x100 % 0x100) as u8,
                (offsets[f] / 0x1_0000 % 0x100) as u8,
                (offsets[f] / 0x100_0000) as u8,
            ],
    ensures
        holds_frame(file, frame) <==> offsets[frame] < offsets[frame + 1] <= file.len()
            && offsets[frame + 1] - offsets[frame] <= 8192,
        holds_frame(file, frame) ==> coded_bytes(file, frame) == file.subrange(
            offsets[frame] as int,
            offsets[frame + 1] as int,
        ),
{
    let entries = entries_of(file, frame);
    let near = file.subrange(20 + 4 * frame, 24 + 4 * frame);
    let far = file.subrange(24 + 4 * frame, 28 + 4 * frame);
    let n = offsets[frame];
    assert(near == seq![
        (n % 0x100) as u8,
        (n / 0x100 % 0x100) as u8,
        (n / 0x1_0000 % 0x100) as u8,
        (n / 0x100_0000) as u8,
    ]);
    let m = offsets[frame + 1];
    assert(20 + 4 * (frame + 1) == 24 + 4 * frame);
    assert(far == seq![
        (m % 0x100) as u8,
        (m / 0x100 % 0x100) as u8,
        (m / 0x1_0000 % 0x100) as u8,
        (m / 0x100_0000) as u8,
    ]);
    assert(entries[0] == near[0] && entries[1] == near[1] && entries[2] == near[2] && entries[3]
        == near[3]);
    assert(entries[4] == far[0] && entries[5] == far[1] && entries[6] == far[2] && entries[7]
        == far[3]);
    crate::bytes::law_numbers_read_back(entries, 0, n);
    crate::bytes::law_numbers_read_back(entries, 4, m);
}

/// What the player does, by the music: while it plays, frame `frame` is shown
/// exactly if the samples played lie in its share of the track, the video has
/// that frame and it is not on the panel yet. Playback stops for Fire first,
/// then for the end of the music, then for the end of the video.
pub proof fn law_the_player_shows_the_frame_of_the_music(player: Player, look: Look, frame: u32)
    requires
        player.header.wf(),
        player.sample_rate > 0,
        look.samples_played > 0,
        look.samples_played * player.header.fps < 0x1_0000_0000 * player.sample_rate,
    ensures
        ({
            let reached = look.samples_played * player.header.fps;
            let rate = player.sample_rate as int;
            let tick = player.decided(look);
            &&& look.fire ==> tick == Tick::Stop(Stop::Fire)
            &&& !look.fire && look.finished ==> tick == Tick::Stop(Stop::AudioEnded)
            &&& !look.fire && !look.finished ==> {
                &&& player.header.frame_count * rate <= reached <==> tick == Tick::Stop(
                    Stop::Complete,
                )
                &&& tick == Tick::Show(frame) <==> frame * rate <= reached < (frame + 1) * rate
                    && frame < player.header.frame_count && player.shown != Some(frame)
                &&& tick is Wait ==> {
                    &&& tick == Tick::Wait(20)
                    &&& player.shown matches Some(f) && f * rate <= reached < (f + 1) * rate
                }
            }
        }),
{
    let reached = look.samples_played * player.header.fps;
    let rate = player.sample_rate as int;
    let target = player.target(look);
    let fps = player.header.fps as int;
    law_the_picture_follows_the_music(fps, rate, look, look, target);
    law_the_picture_follows_the_music(fps, rate, look, look, frame as int);
    let count = player.header.frame_count as int;
    assert(target >= count <==> count * rate <= reached) by (nonlinear_arith)
        requires
            target * rate <= reached < (target + 1) * rate,
            rate > 0,
    ;
}

/// Frame numbers have 32 bits: where the music, or the wall clock in its place,
/// has come to frame `frame`, that frame is due modulo 2^32.
pub proof fn law_frame_numbers_wrap(fps: int, sample_rate: int, look: Look, frame: int)
    requires
        fps > 0,
        sample_rate > 0,
        0 <= frame,
    ensures
        look.samples_played > 0 && frame * sample_rate <= look.samples_played * fps < (frame + 1)
            * sample_rate ==> due(fps, sample_rate, look) == frame % 0x1_0000_0000,
        is_silent(look) && frame * 1000 <= look.elapsed_us as int / 1000 * fps < (frame + 1) * 1000
            ==> due(fps, sample_rate, look) == frame % 0x1_0000_0000,
{
    let a = look.samples_played * fps;
    assert(frame * sample_rate <= a < (frame + 1) * sample_rate ==> a / sample_rate == frame)
        by (nonlinear_arith)
        requires
            sample_rate > 0,
    ;
}

} // verus!
