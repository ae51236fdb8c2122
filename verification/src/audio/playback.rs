//! The playback loop: two buffers, refilled in turn, and the clock that they
//! drive.
//!
//! Refilling a buffer and waiting for the peripheral are I/O. [`Playback`]
//! decides what happens next, and [`Fill`] what goes into a buffer.

use super::carrier::{carrier_for, held_top, is_hold_count, meets_period};
use super::stream::{fits, track_len, track_sample, Stream};
use crate::adpcm::{duty_of, sample_to_duty, SoundHeader, HEADER_LEN};
use crate::asset::AssetRead;
use vstd::prelude::*;

verus! {

/// Samples per buffer. At 6 kHz this is ~85 ms.
pub const CHUNK: usize = 512;

/// Pause between two looks at the peripheral, in milliseconds.
pub const POLL_MS: u64 = 5;

/// The clock that playback drives.
#[derive(Debug, Clone, Copy, PartialEq, Eq, Structural)]
pub struct Clock {
    /// Samples handed to the peripheral since the track began.
    pub samples_played: u32,
    /// Completed passes through the track.
    pub loops: u32,
    /// Set once the audio stream has run out.
    pub finished: bool,
}

/// Number of completed passes through the track.
pub fn loops(clock: &Clock) -> (n: u32)
    ensures
        n == clock.loops,
{
    clock.loops
}

/// How many samples have been queued for playback so far.
///
/// This lags what has physically left the pin by up to one buffer (~85 ms),
/// which is well under one frame at 4 fps and so does not affect frame
/// selection.
pub fn samples_played(clock: &Clock) -> (n: u32)
    ensures
        n == clock.samples_played,
{
    clock.samples_played
}

/// Whether the audio stream has been played to the end.
pub fn finished(clock: &Clock) -> (done: bool)
    ensures
        done == clock.finished,
{
    clock.finished
}

impl Clock {
    pub fn new() -> (clock: Self)
        ensures
            clock.samples_played == 0,
            clock.loops == 0,
            !clock.finished,
    {
        Clock { samples_played: 0, loops: 0, finished: false }
    }

    /// The clock after the track has begun again: the sample count restarts
    /// with it, which makes the picture wrap back to frame 0 with the music.
    /// `completed` says whether the pass before had come to the end of the track:
    /// one that broke off is not counted.
    pub open spec fn restarted(self, completed: bool) -> Clock {
        Clock {
            samples_played: 0,
            loops: if completed {
                ((self.loops + 1) % 0x1_0000_0000) as u32
            } else {
                self.loops
            },
            finished: self.finished,
        }
    }

    /// The clock after one more buffer has started.
    pub open spec fn advanced(self) -> Clock {
        Clock {
            samples_played: ((self.samples_played + CHUNK) % 0x1_0000_0000) as u32,
            loops: self.loops,
            finished: self.finished,
        }
    }
}

/// A buffer being filled.
#[derive(Debug, Clone, Copy)]
pub struct Fill {
    /// The slot that comes next.
    pub at: usize,
    /// Whether the track was begun again for this slot.
    pub again: bool,
}

impl Fill {
    pub open spec fn wf(&self) -> bool {
        self.at <= CHUNK
    }

    pub fn new() -> (fill: Self)
        ensures
            fill.at == 0,
            !fill.again,
    {
        Fill { at: 0, again: false }
    }

    /// Whether every slot has its value.
    pub fn is_full(&self) -> (full: bool)
        requires
            self.wf(),
        ensures
            full == (self.at == CHUNK),
    {
        self.at >= CHUNK
    }

    /// Takes the next sample of the stream, `None` if it is exhausted.
    ///
    /// At the end of the track the stream is rewound, and the slot waits for
    /// the first sample: there is no gap. A stream that is exhausted again at
    /// once cannot be read, and the slot is silent.
    pub fn take(
        &mut self,
        sample: Option<i16>,
        stream: &mut Stream,
        clock: &mut Clock,
        buf: &mut [u16; CHUNK],
        top: u16,
        silence: u16,
    )
        requires
            old(self).at < CHUNK,
            old(stream).wf(),
        ensures
            final(stream).wf(),
            final(stream).header == old(stream).header,
            final(stream).size == old(stream).size,
            sample is None && !old(self).again ==> {
                &&& final(self).at == old(self).at
                &&& final(self).again
                &&& *final(clock) == old(clock).restarted(old(stream).completed())
                &&& final(buf)@ == old(buf)@
                &&& final(stream).position() == 0
                &&& final(stream).next_block == 0
                &&& !final(stream).done
                &&& forall|file: Seq<u8>|
                    file.len() == old(stream).size ==> #[trigger] final(stream).shows(file)
                        && final(stream).ends_with(file)
            },
            sample is Some || old(self).again ==> {
                &&& final(self).at == old(self).at + 1
                &&& !final(self).again
                &&& *final(clock) == *old(clock)
                &&& *final(stream) == *old(stream)
                &&& final(buf)@ == old(buf)@.update(
                    old(self).at as int,
                    match sample {
                        Some(s) => duty_of(s as int, top as int) as u16,
                        None => silence,
                    },
                )
            },
    {
        let duty: u16 = match sample {
            Some(s) => sample_to_duty(s, top),
            None => {
                if !self.again {
                    if stream.is_complete() {
                        clock.loops = clock.loops.wrapping_add(1);
                    }
                    stream.rewind();
                    clock.samples_played = 0;
                    self.again = true;
                    return;
                }
                silence
            },
        };
        buf[self.at] = duty;
        self.at = self.at + 1;
        self.again = false;
    }
}

/// The sample that slot `k` of a buffer holds when `start` samples of a track
/// of `len` samples were pulled before it: the track begins again at its end.
pub open spec fn looped(start: int, len: int, k: int) -> int {
    (start + k) % len
}

/// How often a track of `len` samples begins again within `n` slots.
pub open spec fn turns(start: int, len: int, n: int) -> int {
    if start + n == 0 {
        0
    } else {
        (start + n - 1) / len
    }
}

/// How many samples of the track are pulled after `n` slots.
pub open spec fn place(start: int, len: int, n: int) -> int {
    if start + n == 0 {
        0
    } else {
        (start + n - 1) % len + 1
    }
}

/// The clock after `n` restarts.
pub open spec fn turned(clock: Clock, n: int) -> Clock {
    Clock {
        samples_played: if n > 0 {
            0
        } else {
            clock.samples_played
        },
        loops: ((clock.loops + n) % 0x1_0000_0000) as u32,
        finished: clock.finished,
    }
}

/// What went into one slot of a buffer.
pub struct Heard {
    /// The sample of the track, `None` for silence.
    pub sample: Option<int>,
    /// Whether the stream had ended, and the track was begun again for it.
    pub again: bool,
}

/// How many samples of the track are pulled before slot `k` when `start` were
/// before the first one.
pub open spec fn resumed(start: int, heard: Seq<Heard>, k: int) -> int {
    if k == 0 {
        start
    } else {
        match heard[k - 1].sample {
            Some(p) => p + 1,
            None => 0,
        }
    }
}

/// Whether slot `k` goes on where the one before it stopped, or the track of
/// `len` samples was begun again for it. Silence is heard only where that was in
/// vain.
pub open spec fn slot_fits(start: int, len: int, heard: Seq<Heard>, k: int) -> bool {
    match heard[k].sample {
        Some(p) => 0 <= p < len && p == (if heard[k].again {
            0
        } else {
            resumed(start, heard, k)
        }),
        None => heard[k].again,
    }
}

/// Whether a buffer can be filled like this out of a track of `len` samples.
pub open spec fn is_hearing(start: int, len: int, heard: Seq<Heard>) -> bool {
    forall|k: int| 0 <= k < heard.len() ==> #[trigger] slot_fits(start, len, heard, k)
}

/// The duty value of a slot.
pub open spec fn slot_duty(
    header: SoundHeader,
    file: Seq<u8>,
    heard: Heard,
    top: u16,
    silence: u16,
) -> u16 {
    match heard.sample {
        Some(p) => duty_of(track_sample(header, file, p), top as int) as u16,
        None => silence,
    }
}

/// Whether `pulled` samples are a complete pass through a track of `len`.
pub open spec fn is_pass(len: int, pulled: int) -> bool {
    len > 0 && pulled == len
}

/// The clock after the first `n` slots.
pub open spec fn clock_through(
    clock: Clock,
    start: int,
    len: int,
    heard: Seq<Heard>,
    n: int,
) -> Clock
    decreases n,
{
    if n <= 0 {
        clock
    } else {
        let before = clock_through(clock, start, len, heard, n - 1);
        if heard[n - 1].again {
            before.restarted(is_pass(len, resumed(start, heard, n - 1)))
        } else {
            before
        }
    }
}

/// A buffer that was filled out of a track, whatever the medium delivered.
pub open spec fn is_filled(
    header: SoundHeader,
    file: Seq<u8>,
    before: (Stream, Clock),
    after: (Stream, Clock),
    buf: Seq<u16>,
    top: u16,
    silence: u16,
    heard: Seq<Heard>,
) -> bool {
    let start = before.0.position();
    &&& heard.len() == CHUNK
    &&& is_hearing(start, track_len(header, file), heard)
    &&& forall|k: int|
        0 <= k < CHUNK ==> #[trigger] buf[k] == slot_duty(header, file, heard[k], top, silence)
    &&& after.0.position() == resumed(start, heard, CHUNK as int)
    &&& after.1 == clock_through(
        before.1,
        start,
        track_len(header, file),
        heard,
        CHUNK as int,
    )
    &&& forall|k: int|
        0 <= k < CHUNK && k < before.0.valid - before.0.cursor ==> !(#[trigger] heard[k].again)
    &&& !before.0.done || before.0.cursor == before.0.valid ==> (after.0.done <==> heard[CHUNK
        - 1].sample is None)
}

/// Whether the stream ends for good once `decoded` slots are filled.
pub open spec fn falls_silent(decoded: int, heard: Seq<Heard>) -> bool {
    forall|k: int|
        #![trigger heard[k].again]
        0 <= k < heard.len() ==> {
            &&& heard[k].again <==> k >= decoded
            &&& heard[k].sample is None <==> heard[k].again
        }
}

/// Whether at slot `k` the stream ends exactly where the track does.
pub open spec fn slot_loops(start: int, len: int, heard: Seq<Heard>, k: int) -> bool {
    &&& heard[k].again <==> resumed(start, heard, k) >= len
    &&& heard[k].sample is None <==> len == 0
}

/// Whether the stream ends exactly where the track does.
pub open spec fn loops_on(start: int, len: int, heard: Seq<Heard>) -> bool {
    forall|k: int| 0 <= k < heard.len() ==> #[trigger] slot_loops(start, len, heard, k)
}

/// Fills one buffer from the stream. Returns false once the stream has ended,
/// after padding the remainder with silence.
///
/// On a file that can be read the track loops without a gap: the buffer goes
/// on where the last one stopped, and behind the last sample comes the first.
/// A file without a single whole block gives silence. A medium that delivers
/// nothing any more gives the samples that are decoded already, and silence
/// behind them.
pub fn fill<R: AssetRead>(
    buf: &mut [u16; CHUNK],
    stream: &mut Stream,
    reader: &mut R,
    clock: &mut Clock,
    top: u16,
    silence: u16,
) -> (more: bool)
    requires
        old(stream).shows(old(reader).contents()),
        fits(old(stream).header),
    ensures
        final(reader).contents() == old(reader).contents(),
        final(reader).reliable() == old(reader).reliable(),
        final(stream).shows(old(reader).contents()),
        final(stream).header == old(stream).header,
        final(stream).size == old(stream).size,
        more == !final(stream).done,
        exists|heard: Seq<Heard>| #[trigger]
            is_filled(
                old(stream).header,
                old(reader).contents(),
                (*old(stream), *old(clock)),
                (*final(stream), *final(clock)),
                final(buf)@,
                top,
                silence,
                heard,
            ),
        forall|k: int|
            0 <= k < CHUNK ==> #[trigger] final(buf)@[k] == silence || exists|p: int|
                {
                    &&& 0 <= p < track_len(old(stream).header, old(reader).contents())
                    &&& final(buf)@[k] == duty_of(
                        #[trigger] track_sample(
                            old(stream).header,
                            old(reader).contents(),
                            p,
                        ),
                        top as int,
                    ) as u16
                },
        old(reader).dead() ==> {
            let file = old(reader).contents();
            let header = old(stream).header;
            let start = old(stream).position();
            let decoded = old(stream).valid - old(stream).cursor;
            &&& final(reader).dead()
            &&& forall|k: int|
                0 <= k < CHUNK ==> #[trigger] final(buf)@[k] == (if k < decoded {
                    duty_of(track_sample(header, file, start + k), top as int) as u16
                } else {
                    silence
                })
            &&& !old(stream).done || decoded == 0 ==> more == (decoded >= CHUNK)
            &&& *final(clock) == (if decoded >= CHUNK {
                *old(clock)
            } else {
                old(clock).restarted(is_pass(track_len(header, file), start + decoded))
            })
        },
        old(reader).reliable() && old(stream).ends_with(old(reader).contents()) ==> {
            let file = old(reader).contents();
            let header = old(stream).header;
            let len = track_len(header, file);
            let start = old(stream).position();
            &&& final(stream).ends_with(file)
            &&& len > 0 ==> {
                &&& more
                &&& forall|k: int|
                    0 <= k < CHUNK ==> #[trigger] final(buf)@[k] == duty_of(
                        track_sample(header, file, looped(start, len, k)),
                        top as int,
                    ) as u16
                &&& final(stream).position() == place(start, len, CHUNK as int)
                &&& *final(clock) == turned(*old(clock), turns(start, len, CHUNK as int))
            }
            &&& len == 0 ==> {
                &&& !more
                &&& forall|k: int| 0 <= k < CHUNK ==> #[trigger] final(buf)@[k] == silence
                &&& *final(clock) == (Clock { samples_played: 0, ..*old(clock) })
            }
        },
{
    let ghost file = reader.contents();
    let ghost header = stream.header;
    let ghost len = track_len(header, file);
    let ghost start = stream.position();
    let ghost decoded = stream.valid - stream.cursor;
    let ghost steady = reader.reliable() && stream.ends_with(file);
    let ghost dead = reader.dead();
    let ghost settled = !stream.done || stream.cursor == stream.valid;
    let ghost mut heard: Seq<Heard> = Seq::empty();
    proof {
        super::stream::lemma_position(*stream, file);
    }
    let mut fill = Fill::new();
    while !fill.is_full()
        invariant
            fill.at <= CHUNK,
            !fill.again,
            reader.contents() == file,
            reader.reliable() == old(reader).reliable(),
            dead ==> reader.dead(),
            stream.shows(file),
            stream.header == header,
            fits(header),
            len == track_len(header, file),
            len >= 0,
            0 <= start <= len,
            old(stream).position() == start,
            old(stream).valid - old(stream).cursor == decoded,
            decoded >= 0,
            stream.size == old(stream).size,
            fill.at <= decoded ==> stream.valid - stream.cursor == decoded - fill.at,
            forall|k: int| 0 <= k < fill.at && k < decoded ==> !(#[trigger] heard[k].again),
            heard.len() == fill.at,
            is_hearing(start, len, heard),
            forall|k: int|
                0 <= k < fill.at ==> #[trigger] buf@[k] == slot_duty(
                    header,
                    file,
                    heard[k],
                    top,
                    silence,
                ),
            stream.position() == resumed(start, heard, fill.at as int),
            *clock == clock_through(*old(clock), start, len, heard, fill.at as int),
            settled ==> (stream.done ==> stream.cursor == stream.valid),
            settled && fill.at > 0 ==> (stream.done <==> heard[fill.at - 1].sample is None),
            dead ==> {
                &&& falls_silent(decoded, heard)
                &&& stream.valid - stream.cursor == (if fill.at <= decoded {
                    decoded - fill.at
                } else {
                    0
                })
            },
            steady == (old(reader).reliable() && old(stream).ends_with(file)),
            steady ==> stream.ends_with(file) && loops_on(start, len, heard),
        decreases CHUNK - fill.at,
    {
        let ghost at = fill.at as int;
        let ghost known = heard;
        let ghost from = stream.position();
        let (sample, again) = fill_slot(&mut fill, buf, stream, reader, clock, top, silence);
        proof {
            heard = known.push(
                Heard {
                    sample: if sample is None {
                        None
                    } else if again {
                        Some(0)
                    } else {
                        Some(from)
                    },
                    again,
                },
            );
            lemma_one_more(*old(clock), start, len, known, heard[at]);
            if steady {
                lemma_loops_on_more(start, len, known, heard[at]);
            }
        }
    }
    proof {
        assert(is_filled(
            header,
            file,
            (*old(stream), *old(clock)),
            (*stream, *clock),
            buf@,
            top,
            silence,
            heard,
        ));
        assert forall|k: int| 0 <= k < CHUNK implies #[trigger] buf@[k] == silence || exists|p: int|
            {
                &&& 0 <= p < track_len(header, file)
                &&& buf@[k] == duty_of(#[trigger] track_sample(header, file, p), top as int) as u16
            } by {
            assert(slot_fits(start, len, heard, k));
            if let Some(p) = heard[k].sample {
                assert(buf@[k] == duty_of(track_sample(header, file, p), top as int) as u16);
            }
        }
        if dead {
            lemma_silence_follows(*old(clock), start, len, decoded, heard, CHUNK as int);
        }
        if steady {
            lemma_the_track_loops(*old(clock), start, len, heard, CHUNK as int);
        }
    }
    !stream.done
}

/// The read that a track begins with, if it has a block.
pub open spec fn first_block(header: SoundHeader) -> Seq<(u32, nat)> {
    if header.blocks() > 0 {
        seq![(HEADER_LEN as u32, header.block_bytes as nat)]
    } else {
        Seq::empty()
    }
}

/// Fills the next slot. A read that fails ends the pass: what is read next is
/// the first block. Returns the sample, `None` for silence, and whether the
/// track was begun again for it.
fn fill_slot<R: AssetRead>(
    fill: &mut Fill,
    buf: &mut [u16; CHUNK],
    stream: &mut Stream,
    reader: &mut R,
    clock: &mut Clock,
    top: u16,
    silence: u16,
) -> (slot: (Option<i16>, bool))
    requires
        old(stream).shows(old(reader).contents()),
        fits(old(stream).header),
        old(fill).at < CHUNK,
        !old(fill).again,
    ensures
        final(reader).contents() == old(reader).contents(),
        final(reader).reliable() == old(reader).reliable(),
        final(stream).shows(old(reader).contents()),
        final(stream).header == old(stream).header,
        final(stream).size == old(stream).size,
        final(fill).at == old(fill).at + 1,
        !final(fill).again,
        final(buf)@ == old(buf)@.update(
            old(fill).at as int,
            match slot.0 {
                Some(s) => duty_of(s as int, top as int) as u16,
                None => silence,
            },
        ),
        ({
            let file = old(reader).contents();
            let header = old(stream).header;
            let len = track_len(header, file);
            let from = old(stream).position();
            let to = final(stream).position();
            let (sample, again) = slot;
            &&& !again ==> {
                &&& sample is Some
                &&& 0 <= from < len
                &&& sample->0 == track_sample(header, file, from)
                &&& to == from + 1
                &&& final(stream).done == old(stream).done
                &&& *final(clock) == *old(clock)
            }
            &&& again ==> {
                &&& *final(clock) == old(clock).restarted(is_pass(len, from))
                &&& sample matches Some(s) ==> {
                    &&& 0 < len
                    &&& s == track_sample(header, file, 0)
                    &&& to == 1
                    &&& !final(stream).done
                }
                &&& sample is None ==> {
                    &&& to == 0
                    &&& final(stream).done
                    &&& final(stream).cursor == final(stream).valid
                }
            }
            &&& old(stream).cursor < old(stream).valid ==> {
                &&& !again
                &&& final(stream).valid - final(stream).cursor == old(stream).valid
                    - old(stream).cursor - 1
            }
            &&& old(stream).done && old(stream).cursor == old(stream).valid ==> again
            &&& final(reader).asked() == old(reader).asked() + old(stream).asks() + (if again {
                first_block(header)
            } else {
                Seq::empty()
            })
            &&& old(reader).dead() ==> {
                &&& final(reader).dead()
                &&& again <==> old(stream).cursor == old(stream).valid
                &&& again <==> sample is None
                &&& !again ==> final(stream).valid - final(stream).cursor == old(stream).valid
                    - old(stream).cursor - 1
            }
            &&& old(reader).reliable() && old(stream).ends_with(file) ==> {
                &&& final(stream).ends_with(file)
                &&& again <==> from >= len
                &&& sample is None <==> len == 0
            }
        }),
{
    proof {
        super::stream::lemma_position(*stream, reader.contents());
    }
    let ghost header = stream.header;
    let ghost asked = reader.asked();
    let ghost asks = stream.asks();
    let first: Option<i16> = stream.next(reader);
    fill.take(first, stream, clock, buf, top, silence);
    if first.is_some() {
        assert(asked + asks + Seq::<(u32, nat)>::empty() =~= asked + asks);
        return (first, false);
    }
    assert(stream.asks() == first_block(header)) by {
        assert(0 * header.block_bytes == 0) by (nonlinear_arith);
    }
    let second: Option<i16> = stream.next(reader);
    fill.take(second, stream, clock, buf, top, silence);
    (second, true)
}

/// One slot more is heard.
proof fn lemma_one_more(clock: Clock, start: int, len: int, known: Seq<Heard>, next: Heard)
    requires
        is_hearing(start, len, known),
        match next.sample {
            Some(p) => 0 <= p < len && p == (if next.again {
                0
            } else {
                resumed(start, known, known.len() as int)
            }),
            None => next.again,
        },
    ensures
        ({
            let n = known.len() as int;
            let heard = known.push(next);
            let before = clock_through(clock, start, len, known, n);
            &&& is_hearing(start, len, heard)
            &&& clock_through(clock, start, len, heard, n + 1) == (if next.again {
                before.restarted(is_pass(len, resumed(start, known, n)))
            } else {
                before
            })
            &&& resumed(start, heard, n + 1) == (match next.sample {
                Some(p) => p + 1,
                None => 0,
            })
        }),
{
    let n = known.len() as int;
    let heard = known.push(next);
    lemma_clock_prefix(clock, start, len, known, heard, n);
    assert forall|k: int| 0 <= k < heard.len() implies #[trigger] slot_fits(start, len, heard, k) by {
        assert(resumed(start, heard, k) == resumed(start, known, k));
        if k < n {
            assert(slot_fits(start, len, known, k));
        }
    }
    assert(resumed(start, heard, n) == resumed(start, known, n));
}

/// One slot more is heard of a stream that ends where the track does.
proof fn lemma_loops_on_more(start: int, len: int, known: Seq<Heard>, next: Heard)
    requires
        loops_on(start, len, known),
        next.again <==> resumed(start, known, known.len() as int) >= len,
        next.sample is None <==> len == 0,
    ensures
        loops_on(start, len, known.push(next)),
{
    let heard = known.push(next);
    assert forall|k: int| 0 <= k < heard.len() implies #[trigger] slot_loops(
        start,
        len,
        heard,
        k,
    ) by {
        assert(resumed(start, heard, k) == resumed(start, known, k));
        if k < known.len() {
            assert(slot_loops(start, len, known, k));
        }
    }
}

/// A stream that ends for good gives its samples, and silence behind them.
proof fn lemma_silence_follows(
    clock: Clock,
    start: int,
    len: int,
    decoded: int,
    heard: Seq<Heard>,
    n: int,
)
    requires
        is_hearing(start, len, heard),
        falls_silent(decoded, heard),
        0 <= n <= heard.len(),
        0 <= decoded,
        0 <= start,
    ensures
        forall|k: int|
            0 <= k < n ==> (#[trigger] heard[k]).sample == (if k < decoded {
                Some(start + k)
            } else {
                None
            }),
        resumed(start, heard, n) == (if n <= decoded {
            start + n
        } else {
            0
        }),
        clock_through(clock, start, len, heard, n) == (if n <= decoded {
            clock
        } else {
            clock.restarted(is_pass(len, start + decoded))
        }),
    decreases n,
{
    if n > 0 {
        lemma_silence_follows(clock, start, len, decoded, heard, n - 1);
        assert(slot_fits(start, len, heard, n - 1));
        assert(heard[n - 1].again <==> n - 1 >= decoded);
    }
}

/// A stream that ends where the track does loops without a gap.
proof fn lemma_the_track_loops(clock: Clock, start: int, len: int, heard: Seq<Heard>, n: int)
    requires
        is_hearing(start, len, heard),
        loops_on(start, len, heard),
        0 <= n <= heard.len(),
        0 <= start <= len,
    ensures
        len > 0 ==> {
            &&& forall|k: int|
                0 <= k < n ==> (#[trigger] heard[k]).sample == Some(looped(start, len, k))
            &&& resumed(start, heard, n) == place(start, len, n)
            &&& turns(start, len, n) >= 0
            &&& clock_through(clock, start, len, heard, n) == turned(clock, turns(start, len, n))
        },
        len == 0 ==> {
            &&& forall|k: int| 0 <= k < n ==> (#[trigger] heard[k]).sample is None
            &&& resumed(start, heard, n) == 0
            &&& clock_through(clock, start, len, heard, n) == (if n > 0 {
                Clock { samples_played: 0, ..clock }
            } else {
                clock
            })
        },
    decreases n,
{
    if n > 0 {
        lemma_the_track_loops(clock, start, len, heard, n - 1);
        assert(slot_fits(start, len, heard, n - 1));
        assert(slot_loops(start, len, heard, n - 1));
        if len > 0 {
            lemma_slot(start, len, n - 1);
            lemma_turned(clock, turns(start, len, n - 1));
        }
    } else if len > 0 {
        lemma_slot(start, len, 0);
    }
}

/// One restart more.
proof fn lemma_turned(clock: Clock, n: int)
    requires
        n >= 0,
    ensures
        turned(clock, n).restarted(true) == turned(clock, n + 1),
{
}

/// One slot further round a track of `len` samples.
proof fn lemma_slot(start: int, len: int, k: int)
    requires
        0 <= start <= len,
        0 < len,
        0 <= k,
    ensures
        0 <= place(start, len, k) <= len,
        turns(start, len, k) >= 0,
        k == 0 ==> place(start, len, k) == start && turns(start, len, k) == 0,
        place(start, len, k) < len ==> {
            &&& looped(start, len, k) == place(start, len, k)
            &&& place(start, len, k + 1) == place(start, len, k) + 1
            &&& turns(start, len, k + 1) == turns(start, len, k)
        },
        place(start, len, k) == len ==> {
            &&& looped(start, len, k) == 0
            &&& place(start, len, k + 1) == 1
            &&& turns(start, len, k + 1) == turns(start, len, k) + 1
        },
{
    lemma_turn(start + k, len);
}

/// The clock after some slots does not depend on what is heard behind them.
proof fn lemma_clock_prefix(
    clock: Clock,
    start: int,
    len: int,
    a: Seq<Heard>,
    b: Seq<Heard>,
    n: int,
)
    requires
        0 <= n <= a.len(),
        n <= b.len(),
        forall|k: int| 0 <= k < n ==> a[k] == b[k],
    ensures
        clock_through(clock, start, len, a, n) == clock_through(clock, start, len, b, n),
    decreases n,
{
    if n > 0 {
        lemma_clock_prefix(clock, start, len, a, b, n - 1);
    }
}

/// Until the stream first ends, a buffer holds the track in order from where the
/// last one stopped, and the clock stands still.
pub proof fn law_a_buffer_follows_the_track_until_the_stream_ends(
    clock: Clock,
    start: int,
    len: int,
    heard: Seq<Heard>,
    n: int,
)
    requires
        is_hearing(start, len, heard),
        0 <= n <= heard.len(),
        forall|k: int| 0 <= k < n ==> !(#[trigger] heard[k].again),
    ensures
        forall|k: int| 0 <= k < n ==> (#[trigger] heard[k]).sample == Some(start + k),
        n > 0 ==> start + n <= len,
        resumed(start, heard, n) == start + n,
        clock_through(clock, start, len, heard, n) == clock,
    decreases n,
{
    if n > 0 {
        law_a_buffer_follows_the_track_until_the_stream_ends(clock, start, len, heard, n - 1);
        assert(slot_fits(start, len, heard, n - 1));
        assert(!heard[n - 1].again);
    }
}

/// What happens to the clock.
pub enum Tally {
    /// A buffer was seen to start.
    Started,
    /// The track was begun again; whether the pass before was complete.
    Restarted(bool),
    /// Playback has ended.
    Ended,
}

/// The clock after what happened to it.
pub open spec fn tallied(clock: Clock, events: Seq<Tally>) -> Clock
    decreases events.len(),
{
    if events.len() == 0 {
        clock
    } else {
        let before = tallied(clock, events.drop_last());
        match events.last() {
            Tally::Started => before.advanced(),
            Tally::Restarted(heard) => before.restarted(heard),
            Tally::Ended => Clock { finished: true, ..before },
        }
    }
}

/// The buffers that were seen to start since the track last began again.
pub open spec fn starts(events: Seq<Tally>) -> int
    decreases events.len(),
{
    if events.len() == 0 {
        0
    } else {
        match events.last() {
            Tally::Started => starts(events.drop_last()) + 1,
            Tally::Restarted(_) => 0,
            Tally::Ended => starts(events.drop_last()),
        }
    }
}

/// The sample count is the number of buffers that were seen to start since the
/// track began, times their length: it is 0 before playback, and a multiple of
/// the buffer length in every state. It has 32 bits and wraps.
pub proof fn law_the_clock_counts_the_buffers(clock: Clock, events: Seq<Tally>)
    requires
        clock.samples_played == 0,
    ensures
        tallied(clock, events).samples_played == starts(events) * 512 % 0x1_0000_0000,
        tallied(clock, events).samples_played % 512 == 0,
        starts(events) >= 0,
        CHUNK == 512,
    decreases events.len(),
{
    if events.len() > 0 {
        law_the_clock_counts_the_buffers(clock, events.drop_last());
    }
}

/// One step further round a track of `len` samples.
proof fn lemma_turn(v: int, len: int)
    requires
        v >= 0,
        len > 0,
    ensures
        v == 0 ==> v % len == 0 && v / len == 0,
        v > 0 ==> {
            let place = (v - 1) % len + 1;
            &&& 1 <= place <= len
            &&& (v - 1) / len >= 0
            &&& place < len ==> v % len == place && v / len == (v - 1) / len
            &&& place == len ==> v % len == 0 && v / len == (v - 1) / len + 1
        },
        v <= len && v > 0 ==> (v - 1) / len == 0 && (v - 1) % len == v - 1,
{
    if v == 0 {
        vstd::arithmetic::div_mod::lemma_small_mod(0, len as nat);
        vstd::arithmetic::div_mod::lemma_basic_div(0, len);
    } else {
        let w = (v - 1) / len;
        let r = (v - 1) % len;
        vstd::arithmetic::div_mod::lemma_fundamental_div_mod(v - 1, len);
        vstd::arithmetic::div_mod::lemma_mod_bound(v - 1, len);
        vstd::arithmetic::div_mod::lemma_div_pos_is_pos(v - 1, len);
        assert(len * w == w * len) by (nonlinear_arith);
        assert((w + 1) * len == w * len + len) by (nonlinear_arith);
        if r + 1 < len {
            vstd::arithmetic::div_mod::lemma_fundamental_div_mod_converse(v, len, w, r + 1);
        } else {
            vstd::arithmetic::div_mod::lemma_fundamental_div_mod_converse(v, len, w + 1, 0);
        }
        if v <= len {
            vstd::arithmetic::div_mod::lemma_basic_div(v - 1, len);
            vstd::arithmetic::div_mod::lemma_small_mod((v - 1) as nat, len as nat);
        }
    }
}

/// Where playback stands.
#[derive(Debug, Clone, Copy, PartialEq, Eq, Structural)]
pub enum Phase {
    /// Filling both buffers before the start, this one first.
    Priming(usize),
    /// Both buffers are filled.
    Starting,
    /// A buffer is playing; waiting for the other one to start.
    Polling,
    /// A buffer has started; the other one is being refilled.
    Refilling,
    /// The stream has ended; the tail is still playing.
    Draining,
    /// Playback is over.
    Over,
}

/// What playback wants done.
#[derive(Debug, Clone, Copy, PartialEq, Eq, Structural)]
pub enum Action {
    /// Fill this buffer and report to [`Playback::filled`].
    Fill(usize),
    /// Start the sequencer and report to [`Playback::started`].
    Start,
    /// Wait this many milliseconds, then read and clear the two start events
    /// and report them to [`Playback::polled`].
    Poll(u64),
    /// Wait this many milliseconds, stop the sequencer and report to
    /// [`Playback::drained`].
    Drain(u64),
    /// Nothing more.
    Return,
}

/// The playback of one track.
#[derive(Debug, Clone, Copy, PartialEq, Eq, Structural)]
pub struct Playback {
    pub phase: Phase,
    /// The buffer that the peripheral was last seen to start.
    pub playing: usize,
    /// Whether the stream ended while a buffer was filled.
    pub ended: bool,
    /// Counter top of the carrier.
    pub top: u16,
    /// Extra periods that each sample is held for.
    pub refresh: u32,
    /// Duty value of a silent sample.
    pub silence: u16,
    pub sample_rate: u32,
}

impl Playback {
    pub open spec fn wf(&self) -> bool {
        &&& self.playing < 2
        &&& self.sample_rate > 0
        &&& match self.phase {
            Phase::Priming(half) => half < 2 && self.playing == 0,
            Phase::Starting => self.playing == 0,
            Phase::Polling | Phase::Refilling => !self.ended,
            Phase::Draining => self.ended,
            Phase::Over => true,
        }
    }

    /// Whether the peripheral is reading the buffers.
    pub open spec fn running(&self) -> bool {
        self.phase is Polling || self.phase is Refilling || self.phase is Draining
    }

    /// Sets up the playback of a track.
    pub fn new(header: &SoundHeader) -> (playback: Self)
        requires
            header.wf(),
        ensures
            playback.wf(),
            playback.phase == Phase::Priming(0),
            playback.playing == 0,
            !playback.ended,
            playback.sample_rate == header.sample_rate,
            is_hold_count(header.sample_rate as int, playback.refresh as int),
            playback.top == held_top(header.sample_rate as int, playback.refresh as int),
            header.sample_rate <= 8_000_000 ==> meets_period(
                header.sample_rate as int,
                playback.top as int,
                playback.refresh as int,
            ),
            playback.silence == duty_of(0, playback.top as int),
    {
        let (top, refresh) = carrier_for(header.sample_rate);
        Playback {
            phase: Phase::Priming(0),
            playing: 0,
            ended: false,
            top,
            refresh,
            silence: sample_to_duty(0, top),
            sample_rate: header.sample_rate,
        }
    }

    /// What to do next. While the peripheral is reading the buffers, only the
    /// one that is not playing is ever filled.
    pub fn action(&self) -> (action: Action)
        requires
            self.wf(),
        ensures
            action == (match self.phase {
                Phase::Priming(half) => Action::Fill(half),
                Phase::Starting => Action::Start,
                Phase::Polling => Action::Poll(POLL_MS),
                Phase::Refilling => Action::Fill((1 - self.playing) as usize),
                Phase::Draining => Action::Drain(
                    ((CHUNK * 2 * 1000) / self.sample_rate as int) as u64,
                ),
                Phase::Over => Action::Return,
            }),
            action matches Action::Fill(half) ==> half < 2 && (self.running() ==> half
                != self.playing),
            action matches Action::Drain(ms) ==> ms * self.sample_rate <= 2 * CHUNK * 1000 < (ms
                + 1) * self.sample_rate,
    {
        proof {
            let d = self.sample_rate as int;
            assert((1_024_000int / d) * d <= 1_024_000 < (1_024_000int / d + 1) * d)
                by (nonlinear_arith)
                requires
                    d > 0,
            ;
        }
        match self.phase {
            Phase::Priming(half) => Action::Fill(half),
            Phase::Starting => Action::Start,
            Phase::Polling => Action::Poll(POLL_MS),
            Phase::Refilling => Action::Fill(1 - self.playing),
            Phase::Draining => Action::Drain((CHUNK as u64 * 2 * 1000) / self.sample_rate as u64),
            Phase::Over => Action::Return,
        }
    }

    /// A buffer has been filled; `more` is false once the stream has ended.
    pub fn filled(&mut self, more: bool)
        requires
            old(self).wf(),
            old(self).phase is Priming || old(self).phase is Refilling,
        ensures
            final(self).wf(),
            final(self).ended == (old(self).ended || !more),
            *final(self) == (match old(self).phase {
                Phase::Priming(half) => Playback {
                    phase: if half == 0 {
                        Phase::Priming(1)
                    } else {
                        Phase::Starting
                    },
                    ended: old(self).ended || !more,
                    ..*old(self)
                },
                _ => Playback {
                    phase: if more {
                        Phase::Polling
                    } else {
                        Phase::Draining
                    },
                    ended: !more,
                    ..*old(self)
                },
            }),
    {
        match self.phase {
            Phase::Priming(half) => {
                self.ended = self.ended || !more;
                self.phase = if half == 0 {
                    Phase::Priming(1)
                } else {
                    Phase::Starting
                };
            },
            _ => {
                self.ended = !more;
                self.phase = if more {
                    Phase::Polling
                } else {
                    Phase::Draining
                };
            },
        }
    }

    /// The sequencer was started, or could not be. It plays buffer 0 first.
    pub fn started(&mut self, ok: bool)
        requires
            old(self).wf(),
            old(self).phase is Starting,
        ensures
            final(self).wf(),
            *final(self) == (Playback {
                phase: if !ok {
                    Phase::Over
                } else if old(self).ended {
                    Phase::Draining
                } else {
                    Phase::Polling
                },
                ..*old(self)
            }),
    {
        self.phase = if !ok {
            Phase::Over
        } else if self.ended {
            Phase::Draining
        } else {
            Phase::Polling
        };
    }

    /// The buffer that is playing after these start events were seen.
    pub open spec fn seen(&self, events: Seq<bool>) -> int {
        if events[0] && self.playing != 0 {
            0
        } else if events[1] && self.playing != 1 {
            1
        } else {
            self.playing as int
        }
    }

    /// The start events of the two buffers since the last look.
    pub fn polled(&mut self, events: [bool; 2], clock: &mut Clock)
        requires
            old(self).wf(),
            old(self).phase is Polling,
        ensures
            final(self).wf(),
            !events@[0] && !events@[1] ==> *final(self) == *old(self) && *final(clock) == *old(
                clock,
            ),
            events@[0] || events@[1] ==> {
                &&& *final(self) == (Playback {
                    phase: Phase::Refilling,
                    playing: old(self).seen(events@) as usize,
                    ..*old(self)
                })
                &&& *final(clock) == old(clock).advanced()
            },
    {
        if events[0] && self.playing != 0 {
            self.playing = 0;
        } else if events[1] && self.playing != 1 {
            self.playing = 1;
        } else if !events[0] && !events[1] {
            return;
        }
        clock.samples_played = clock.samples_played.wrapping_add(CHUNK as u32);
        self.phase = Phase::Refilling;
    }

    /// The tail has been played and the sequencer is stopped.
    pub fn drained(&mut self, clock: &mut Clock)
        requires
            old(self).wf(),
            old(self).phase is Draining,
        ensures
            final(self).wf(),
            *final(self) == (Playback { phase: Phase::Over, ..*old(self) }),
            *final(clock) == (Clock { finished: true, ..*old(clock) }),
    {
        clock.finished = true;
        self.phase = Phase::Over;
    }
}

/// The track goes round without a gap: before the first slot nothing has
/// changed, every slot holds the sample behind the last one that was pulled, or
/// the first sample where the track had come to its end, and only that counts as
/// a turn.
pub proof fn law_the_track_goes_round(start: int, len: int, n: int)
    requires
        0 <= start <= len,
        0 < len,
        0 <= n,
    ensures
        place(start, len, 0) == start,
        turns(start, len, 0) == 0,
        ({
            let at_end = place(start, len, n) == len;
            &&& 0 <= place(start, len, n) <= len
            &&& looped(start, len, n) == if at_end {
                0
            } else {
                place(start, len, n)
            }
            &&& place(start, len, n + 1) == looped(start, len, n) + 1
            &&& turns(start, len, n + 1) == turns(start, len, n) + if at_end {
                1int
            } else {
                0
            }
        }),
{
    lemma_turn(start, len);
    lemma_turn(start + n, len);
}

/// Turns are restarts behind complete passes, one by one: each sets the sample
/// count back and counts one more pass.
pub proof fn law_turns_are_restarts(clock: Clock, n: int)
    requires
        n >= 0,
    ensures
        turned(clock, 0) == clock,
        turned(clock, n + 1) == turned(clock, n).restarted(true),
        turned(clock, n + 1).samples_played == 0,
        (turned(clock, n + 1).loops - turned(clock, n).loops - 1) % 0x1_0000_0000 == 0,
{
}

/// The complete passes among what happened to the clock.
pub open spec fn passes(events: Seq<Tally>) -> int
    decreases events.len(),
{
    if events.len() == 0 {
        0
    } else {
        passes(events.drop_last()) + (match events.last() {
            Tally::Restarted(true) => 1int,
            _ => 0,
        })
    }
}

/// The loop count is the number of complete passes: a pass that broke off, the
/// buffers and the end of playback do not change it. It has 32 bits and wraps.
/// Playback counts as finished exactly once it has ended.
pub proof fn law_the_clock_counts_the_passes(clock: Clock, events: Seq<Tally>)
    requires
        clock.loops == 0,
        !clock.finished,
    ensures
        tallied(clock, events).loops == passes(events) % 0x1_0000_0000,
        passes(events) >= 0,
        tallied(clock, events).finished <==> exists|i: int|
            0 <= i < events.len() && #[trigger] events[i] is Ended,
    decreases events.len(),
{
    if events.len() > 0 {
        let before = events.drop_last();
        law_the_clock_counts_the_passes(clock, before);
        if exists|i: int| 0 <= i < before.len() && #[trigger] before[i] is Ended {
            let i = choose|i: int| 0 <= i < before.len() && #[trigger] before[i] is Ended;
            assert(events[i] is Ended);
        }
        if exists|i: int| 0 <= i < events.len() && #[trigger] events[i] is Ended {
            let i = choose|i: int| 0 <= i < events.len() && #[trigger] events[i] is Ended;
            if i < before.len() {
                assert(before[i] is Ended);
            }
        }
        assert(events.last() is Ended ==> events[events.len() - 1] is Ended);
    }
}

/// The buffers take turns: the start event of the buffer that is not playing
/// makes it the one that is, whatever the other event says, and without that
/// event nothing changes.
pub proof fn law_the_buffers_take_turns(playback: Playback, events: Seq<bool>)
    requires
        playback.playing < 2,
        events.len() == 2,
    ensures
        events[1 - playback.playing] ==> playback.seen(events) == 1 - playback.playing,
        !events[1 - playback.playing] ==> playback.seen(events) == playback.playing,
{
}

/// The peripheral is looked at often enough: at every sample rate up to 48 kHz
/// the pause between two looks is shorter than a buffer plays.
pub proof fn law_no_buffer_is_missed(sample_rate: int)
    requires
        0 < sample_rate <= 48_000,
    ensures
        POLL_MS * sample_rate < CHUNK * 1000,
{
}

/// Slot by slot, only a track that is begun again touches the clock, and only
/// one that had been pulled to its last sample counts as a pass.
pub proof fn law_only_whole_passes_count(
    clock: Clock,
    start: int,
    len: int,
    heard: Seq<Heard>,
    k: int,
)
    requires
        0 <= k < heard.len(),
    ensures
        ({
            let before = clock_through(clock, start, len, heard, k);
            let after = clock_through(clock, start, len, heard, k + 1);
            let pulled = resumed(start, heard, k);
            &&& !heard[k].again ==> after == before
            &&& heard[k].again ==> after.samples_played == 0 && after.finished == before.finished
            &&& heard[k].again && 0 < len && pulled == len ==> (after.loops - before.loops - 1)
                % 0x1_0000_0000 == 0
            &&& heard[k].again && !(0 < len && pulled == len) ==> after.loops == before.loops
        }),
{
}

} // verus!
