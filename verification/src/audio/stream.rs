//! Samples out of a sound file, one block at a time.

use crate::adpcm::{block_sample, decode_block, SoundHeader, BLOCK_HEADER_LEN, HEADER_LEN};
use crate::asset::{available, AssetRead};
use vstd::prelude::*;

verus! {

/// Largest ADPCM block that is accepted, in samples and in bytes. The encoder
/// emits 1017-sample, 512-byte blocks.
pub const MAX_BLOCK_SAMPLES: usize = 1024;

pub const MAX_BLOCK_BYTES: usize = 1024;

/// Whether the blocks of a sound file, if it has any, fit the block buffer.
pub open spec fn fits(header: SoundHeader) -> bool {
    header.blocks() == 0 || header.block_bytes <= MAX_BLOCK_BYTES
}

/// Samples that one block gives: all that it packs, as far as the header
/// claims them and the sample buffer holds them.
pub open spec fn per_block(header: SoundHeader) -> int {
    let packed = 1 + 2 * (header.block_bytes - BLOCK_HEADER_LEN);
    let room = if header.block_samples < MAX_BLOCK_SAMPLES {
        header.block_samples as int
    } else {
        MAX_BLOCK_SAMPLES as int
    };
    if packed < room {
        packed
    } else {
        room
    }
}

/// Blocks of the track that a file of `size` bytes holds in full.
pub open spec fn blocks_in(header: SoundHeader, size: int) -> int {
    let whole = if size < HEADER_LEN {
        0
    } else {
        (size - HEADER_LEN) / header.block_bytes as int
    };
    if whole < header.blocks() {
        whole
    } else {
        header.blocks()
    }
}

/// Blocks of the track that the file holds in full.
pub open spec fn track_blocks(header: SoundHeader, file: Seq<u8>) -> int {
    blocks_in(header, file.len() as int)
}

/// Samples of the track.
pub open spec fn track_len(header: SoundHeader, file: Seq<u8>) -> int {
    track_blocks(header, file) * per_block(header)
}

/// Block `b` of a sound file.
pub open spec fn block_of(header: SoundHeader, file: Seq<u8>, b: int) -> Seq<u8> {
    file.subrange(header.offset_of(b), header.offset_of(b) + header.block_bytes)
}

/// Sample `k` of the track.
pub open spec fn track_sample(header: SoundHeader, file: Seq<u8>, k: int) -> int {
    block_sample(block_of(header, file, k / per_block(header)), k % per_block(header))
}

/// What a stream has to offer next.
#[derive(Debug, Clone, Copy, PartialEq, Eq, Structural)]
pub enum Pull {
    /// A sample.
    Sample(i16),
    /// Nothing before the `len` bytes at `offset` of the file are handed to
    /// [`Stream::supply`].
    Block { offset: u32, len: usize },
    /// The stream is exhausted.
    End,
}

/// Pulls decoded samples out of the ADPCM stream one block at a time.
pub struct Stream {
    pub header: SoundHeader,
    /// Size of the sound file in bytes.
    pub size: u32,
    /// The most recently decoded block.
    pub samples: [i16; MAX_BLOCK_SAMPLES],
    /// How many of `samples` are valid.
    pub valid: usize,
    /// Read cursor within `samples`.
    pub cursor: usize,
    /// Index of the next block to decode.
    pub next_block: u32,
    pub done: bool,
}

impl Stream {
    pub open spec fn wf(&self) -> bool {
        &&& self.header.wf()
        &&& self.cursor <= self.valid
        &&& self.valid == (if self.next_block == 0 {
            0
        } else {
            per_block(self.header)
        })
        &&& self.next_block <= blocks_in(self.header, self.size as int)
    }

    /// How many samples of the track have been pulled.
    pub open spec fn position(&self) -> int {
        if self.next_block == 0 {
            0
        } else {
            (self.next_block - 1) * per_block(self.header) + self.cursor
        }
    }

    /// Whether the decoded block is the one of a file that is due.
    pub open spec fn shows(&self, file: Seq<u8>) -> bool {
        &&& self.wf()
        &&& self.size == file.len()
        &&& self.next_block > 0 ==> forall|i: int|
            0 <= i < self.valid ==> #[trigger] self.samples@[i] == block_sample(
                block_of(self.header, file, self.next_block - 1),
                i,
            )
    }

    /// Whether the pass through the track is complete: every sample that the
    /// file has of it has been pulled.
    pub open spec fn completed(&self) -> bool {
        &&& self.position() > 0
        &&& self.position() == blocks_in(self.header, self.size as int) * per_block(self.header)
    }

    /// The read that pulling the next sample takes, if it takes one.
    pub open spec fn asks(&self) -> Seq<(u32, nat)> {
        if self.cursor < self.valid || self.done || self.next_block >= self.header.blocks() {
            Seq::empty()
        } else {
            seq![
                (
                    self.header.offset_of(self.next_block as int) as u32,
                    self.header.block_bytes as nat,
                ),
            ]
        }
    }

    /// Whether the stream has ended only if the track of a file has.
    pub open spec fn ends_with(&self, file: Seq<u8>) -> bool {
        self.done ==> self.position() == track_len(self.header, file)
    }

    /// A stream over a sound file of `size` bytes.
    pub fn new(header: SoundHeader, size: u32) -> (stream: Self)
        requires
            header.wf(),
        ensures
            stream.wf(),
            stream.header == header,
            stream.size == size,
            stream.valid == 0,
            stream.cursor == 0,
            stream.next_block == 0,
            !stream.done,
            stream.position() == 0,
            forall|file: Seq<u8>|
                file.len() == size ==> #[trigger] stream.shows(file) && stream.ends_with(file),
    {
        proof {
            lemma_blocks_in(header, size as int);
        }
        let stream = Stream {
            header,
            size,
            samples: [0i16;MAX_BLOCK_SAMPLES],
            valid: 0,
            cursor: 0,
            next_block: 0,
            done: false,
        };
        stream
    }

    /// Rewinds to the first block. Used to loop the track.
    pub fn rewind(&mut self)
        requires
            old(self).wf(),
        ensures
            final(self).wf(),
            final(self).header == old(self).header,
            final(self).size == old(self).size,
            final(self).samples@ == old(self).samples@,
            final(self).valid == 0,
            final(self).cursor == 0,
            final(self).next_block == 0,
            !final(self).done,
            final(self).position() == 0,
            forall|file: Seq<u8>|
                file.len() == old(self).size ==> #[trigger] final(self).shows(file) && final(self).ends_with(file),
    {
        proof {
            lemma_blocks_in(self.header, self.size as int);
        }
        self.next_block = 0;
        self.cursor = 0;
        self.valid = 0;
        self.done = false;
    }

    /// Whether the pass through the track is complete.
    pub fn is_complete(&self) -> (complete: bool)
        requires
            self.wf(),
        ensures
            complete == self.completed(),
    {
        let size: u32 = self.size;
        let whole: u32 = if size < HEADER_LEN as u32 {
            0
        } else {
            (size - HEADER_LEN as u32) / self.header.block_bytes as u32
        };
        let count: u32 = self.header.block_count();
        let blocks: u32 = if whole < count {
            whole
        } else {
            count
        };
        proof {
            lemma_complete(*self);
        }
        blocks > 0 && self.next_block == blocks && self.cursor == self.valid
    }

    /// The next sample, or what is missing for it.
    pub fn poll(&mut self) -> (pull: Pull)
        requires
            old(self).wf(),
        ensures
            final(self).wf(),
            final(self).header == old(self).header,
            final(self).size == old(self).size,
            final(self).samples@ == old(self).samples@,
            final(self).valid == old(self).valid,
            final(self).next_block == old(self).next_block,
            pull == (if old(self).cursor < old(self).valid {
                Pull::Sample(old(self).samples@[old(self).cursor as int])
            } else if old(self).done || old(self).next_block >= old(self).header.blocks() {
                Pull::End
            } else {
                Pull::Block {
                    offset: old(self).header.offset_of(old(self).next_block as int) as u32,
                    len: old(self).header.block_bytes as usize,
                }
            }),
            final(self).cursor == old(self).cursor + (if pull is Sample {
                1int
            } else {
                0
            }),
            final(self).done == (old(self).done || pull is End),
            final(self).position() == old(self).position() + (if pull is Sample {
                1int
            } else {
                0
            }),
            forall|file: Seq<u8>| #[trigger]
                old(self).shows(file) ==> {
                    &&& final(self).shows(file)
                    &&& pull matches Pull::Sample(s) ==> {
                        &&& old(self).position() < track_len(old(self).header, file)
                        &&& s == track_sample(old(self).header, file, old(self).position())
                    }
                },
    {
        if self.cursor < self.valid {
            let ghost before = *self;
            proof {
                lemma_blocks(self.header);
                assert forall|file: Seq<u8>| #[trigger] before.shows(file) implies before.position()
                    < track_len(before.header, file) && before.samples@[before.cursor as int]
                    == track_sample(before.header, file, before.position()) by {
                    lemma_in_block(before, file);
                }
            }
            let s: i16 = self.samples[self.cursor];
            self.cursor = self.cursor + 1;
            return Pull::Sample(s);
        }
        if self.done {
            return Pull::End;
        }
        if self.next_block >= self.header.block_count() {
            self.done = true;
            return Pull::End;
        }
        proof {
            lemma_blocks_in(self.header, self.size as int);
            lemma_offset(self.header, self.size as int, self.next_block as int);
        }
        Pull::Block {
            offset: self.header.block_offset(self.next_block),
            len: self.header.block_bytes as usize,
        }
    }

    /// Takes what a read of the next block delivered and decodes it. Returns
    /// false at the end of the stream: a block that is not there in full ends
    /// it.
    pub fn supply(&mut self, raw: &[u8]) -> (more: bool)
        requires
            old(self).wf(),
            old(self).cursor == old(self).valid,
            old(self).next_block < old(self).header.blocks(),
            raw@.len() <= old(self).header.block_bytes,
            raw@.len() == old(self).header.block_bytes ==> old(self).next_block < blocks_in(
                old(self).header,
                old(self).size as int,
            ),
        ensures
            final(self).wf(),
            final(self).header == old(self).header,
            final(self).size == old(self).size,
            more == (raw@.len() == old(self).header.block_bytes),
            !more ==> {
                &&& final(self).done
                &&& final(self).samples@ == old(self).samples@
                &&& final(self).valid == old(self).valid
                &&& final(self).cursor == old(self).cursor
                &&& final(self).next_block == old(self).next_block
            },
            more ==> {
                &&& final(self).done == old(self).done
                &&& final(self).cursor == 0
                &&& final(self).next_block == old(self).next_block + 1
                &&& final(self).valid == per_block(old(self).header)
                &&& final(self).valid > 0
                &&& forall|i: int|
                    0 <= i < final(self).valid ==> #[trigger] final(self).samples@[i]
                        == block_sample(raw@, i)
                &&& forall|i: int|
                    final(self).valid <= i < MAX_BLOCK_SAMPLES ==> #[trigger] final(self).samples@[i] == old(self).samples@[i]
            },
            final(self).position() == old(self).position(),
            forall|file: Seq<u8>|
                #![trigger old(self).shows(file)]
                old(self).shows(file) && (more ==> raw@ == block_of(
                    old(self).header,
                    file,
                    old(self).next_block as int,
                )) ==> final(self).shows(file),
    {
        proof {
            lemma_blocks(self.header);
            lemma_blocks_in(self.header, self.size as int);
            let n = self.next_block as int;
            let per = per_block(self.header);
            assert(n * per == (n - 1) * per + per) by (nonlinear_arith);
            assert(0 * per == 0) by (nonlinear_arith);
        }
        let len: usize = self.header.block_bytes as usize;
        if raw.len() < len {
            self.done = true;
            return false;
        }
        let want: usize = if (self.header.block_samples as usize) < MAX_BLOCK_SAMPLES {
            self.header.block_samples as usize
        } else {
            MAX_BLOCK_SAMPLES
        };
        let samples: &mut [i16] = &mut self.samples;
        let (head, _) = samples.split_at_mut(want);
        self.valid = decode_block(raw, head);
        self.cursor = 0;
        self.next_block = self.next_block + 1;
        self.valid > 0
    }

    /// Decodes the next block into `samples`, returning false at end of stream.
    pub fn refill<R: AssetRead>(&mut self, reader: &mut R) -> (more: bool)
        requires
            old(self).shows(old(reader).contents()),
            old(self).cursor == old(self).valid,
            fits(old(self).header),
        ensures
            final(reader).contents() == old(reader).contents(),
            final(reader).reliable() == old(reader).reliable(),
            final(self).shows(old(reader).contents()),
            final(self).header == old(self).header,
            final(self).size == old(self).size,
            final(self).position() == old(self).position(),
            more ==> {
                &&& final(self).cursor == 0
                &&& final(self).valid == per_block(old(self).header)
                &&& final(self).valid > 0
                &&& final(self).next_block == old(self).next_block + 1
                &&& final(self).done == old(self).done
                &&& old(self).position() < track_len(old(self).header, old(reader).contents())
                &&& forall|i: int|
                    final(self).valid <= i < MAX_BLOCK_SAMPLES ==> #[trigger] final(self).samples@[i]
                        == old(self).samples@[i]
            },
            !more ==> {
                &&& final(self).done
                &&& final(self).samples@ == old(self).samples@
                &&& final(self).valid == old(self).valid
                &&& final(self).cursor == old(self).cursor
                &&& final(self).next_block == old(self).next_block
            },
            old(self).next_block >= old(self).header.blocks() ==> !more && *final(reader) == *old(reader),
            old(self).next_block < old(self).header.blocks() ==> final(reader).asked() == old(reader).asked().push(
                (
                    old(self).header.offset_of(old(self).next_block as int) as u32,
                    old(self).header.block_bytes as nat,
                ),
            ),
            old(reader).dead() ==> !more && final(reader).dead(),
            old(reader).reliable() ==> more == (old(self).position() < track_len(
                old(self).header,
                old(reader).contents(),
            )),
            old(reader).reliable() && old(self).ends_with(old(reader).contents()) ==> final(self).ends_with(old(reader).contents()),
    {
        let ghost file = reader.contents();
        proof {
            lemma_blocks(self.header);
            lemma_track(self.header, file);
            lemma_at_block_end(*self, file);
        }
        if self.next_block >= self.header.block_count() {
            self.done = true;
            return false;
        }
        proof {
            lemma_offset(self.header, self.size as int, self.next_block as int);
        }
        let len: usize = self.header.block_bytes as usize;
        let offset: u32 = self.header.block_offset(self.next_block);
        let mut raw: [u8; MAX_BLOCK_BYTES] = [0u8;MAX_BLOCK_BYTES];
        let buffer: &mut [u8] = &mut raw;
        let (head, _) = buffer.split_at_mut(len);
        let n: usize = reader.read_at(offset, head);
        proof {
            lemma_block_present(self.header, file, self.next_block as int);
        }
        if n < len {
            self.done = true;
            return false;
        }
        assert(head@ =~= block_of(self.header, file, self.next_block as int));
        let more: bool = self.supply(head);
        proof {
            lemma_track(self.header, file);
        }
        more
    }

    /// Next sample, or `None` once the stream is exhausted.
    pub fn next<R: AssetRead>(&mut self, reader: &mut R) -> (sample: Option<i16>)
        requires
            old(self).shows(old(reader).contents()),
            fits(old(self).header),
        ensures
            final(reader).contents() == old(reader).contents(),
            final(reader).reliable() == old(reader).reliable(),
            final(reader).asked() == old(reader).asked() + old(self).asks(),
            final(self).shows(old(reader).contents()),
            final(self).header == old(self).header,
            final(self).size == old(self).size,
            sample matches Some(s) ==> {
                &&& old(self).position() < track_len(old(self).header, old(reader).contents())
                &&& s == track_sample(
                    old(self).header,
                    old(reader).contents(),
                    old(self).position(),
                )
                &&& final(self).position() == old(self).position() + 1
                &&& final(self).done == old(self).done
            },
            sample is None ==> {
                &&& final(self).position() == old(self).position()
                &&& final(self).done
                &&& final(self).cursor == final(self).valid
                &&& final(self).samples@ == old(self).samples@
                &&& final(self).valid == old(self).valid
                &&& final(self).next_block == old(self).next_block
            },
            old(self).cursor < old(self).valid ==> {
                &&& sample == Some(old(self).samples@[old(self).cursor as int])
                &&& *final(self) == (Stream { cursor: final(self).cursor, ..*old(self) })
                &&& final(self).cursor == old(self).cursor + 1
                &&& *final(reader) == *old(reader)
            },
            old(self).cursor == old(self).valid && old(self).done ==> {
                &&& sample is None
                &&& *final(reader) == *old(reader)
            },
            old(reader).dead() ==> {
                &&& sample is Some <==> old(self).cursor < old(self).valid
                &&& final(reader).dead()
            },
            old(reader).reliable() && old(self).ends_with(old(reader).contents()) ==> {
                &&& sample is Some <==> old(self).position() < track_len(
                    old(self).header,
                    old(reader).contents(),
                )
                &&& final(self).ends_with(old(reader).contents())
            },
    {
        let ghost file = reader.contents();
        proof {
            lemma_blocks(self.header);
            lemma_track(self.header, file);
        }
        let ghost asked = reader.asked();
        assert(asked + Seq::empty() =~= asked);
        if self.cursor >= self.valid {
            if self.done {
                return None;
            }
            let ghost asks = self.asks();
            let more: bool = self.refill(reader);
            assert(reader.asked() =~= asked + asks);
            if !more {
                return None;
            }
        }
        proof {
            lemma_in_block(*self, file);
        }
        let s: i16 = self.samples[self.cursor];
        self.cursor = self.cursor + 1;
        Some(s)
    }
}

/// Whether the blocks of a sound file fit the block buffer.
pub fn streamable(header: &SoundHeader) -> (ok: bool)
    requires
        header.wf(),
    ensures
        ok == fits(*header),
{
    header.block_count() == 0 || header.block_bytes as usize <= MAX_BLOCK_BYTES
}

proof fn lemma_blocks(header: SoundHeader)
    requires
        header.wf(),
    ensures
        0 < per_block(header) <= MAX_BLOCK_SAMPLES,
        0 <= header.blocks() <= u32::MAX,
{
    let n = header.sample_count as int;
    let d = header.block_samples as int;
    assert(0 <= (n + d - 1) / d <= n) by (nonlinear_arith)
        requires
            n >= 0,
            d >= 1,
    ;
}

proof fn lemma_blocks_in(header: SoundHeader, size: int)
    requires
        header.wf(),
    ensures
        0 <= blocks_in(header, size) <= header.blocks() <= u32::MAX,
{
    lemma_blocks(header);
    if size >= HEADER_LEN {
        let m = size - HEADER_LEN;
        let len = header.block_bytes as int;
        assert(m / len >= 0) by (nonlinear_arith)
            requires
                m >= 0,
                len > 0,
        ;
    }
}

/// A block whose predecessors lie inside the file starts inside 32 bits.
proof fn lemma_offset(header: SoundHeader, size: int, b: int)
    requires
        header.wf(),
        0 <= size <= u32::MAX,
        0 <= b <= blocks_in(header, size),
    ensures
        HEADER_LEN <= header.offset_of(b) <= u32::MAX,
{
    let len = header.block_bytes as int;
    if b > 0 {
        let m = size - HEADER_LEN;
        assert(0 <= b * len <= m) by (nonlinear_arith)
            requires
                0 < b <= m / len,
                len > 0,
                m >= 0,
        ;
    } else {
        assert(0 * len == 0) by (nonlinear_arith);
    }
}

/// A pass is complete at the end of the last block.
proof fn lemma_complete(stream: Stream)
    requires
        stream.wf(),
    ensures
        ({
            let blocks = blocks_in(stream.header, stream.size as int);
            stream.completed() <==> blocks > 0 && stream.next_block == blocks && stream.cursor
                == stream.valid
        }),
{
    lemma_blocks(stream.header);
    lemma_blocks_in(stream.header, stream.size as int);
    let per = per_block(stream.header);
    let blocks = blocks_in(stream.header, stream.size as int);
    let b = stream.next_block - 1;
    let c = stream.cursor as int;
    assert(0 * per == 0) by (nonlinear_arith);
    if stream.next_block > 0 {
        assert(b * per + c == blocks * per <==> b + 1 == blocks && c == per) by (nonlinear_arith)
            requires
                0 <= b < blocks,
                0 <= c <= per,
                0 < per,
        ;
        assert(blocks * per > 0) by (nonlinear_arith)
            requires
                0 < blocks,
                0 < per,
        ;
    }
}

proof fn lemma_track(header: SoundHeader, file: Seq<u8>)
    requires
        header.wf(),
    ensures
        0 <= track_blocks(header, file) <= header.blocks(),
        0 <= track_len(header, file),
        track_len(header, file) > 0 <==> track_blocks(header, file) > 0,
{
    lemma_blocks(header);
    let n = track_blocks(header, file);
    let per = per_block(header);
    if file.len() >= HEADER_LEN {
        let m = file.len() - HEADER_LEN;
        let len = header.block_bytes as int;
        assert(m / len >= 0) by (nonlinear_arith)
            requires
                m >= 0,
                len > 0,
        ;
    }
    assert(n * per >= 0 && (n * per > 0 <==> n > 0)) by (nonlinear_arith)
        requires
            n >= 0,
            per > 0,
    ;
}

/// Block `b` is part of the track exactly where the header counts it and the
/// file reaches to its end.
proof fn lemma_block_present(header: SoundHeader, file: Seq<u8>, b: int)
    requires
        header.wf(),
        0 <= b < header.blocks(),
    ensures
        b < track_blocks(header, file) <==> header.offset_of(b) + header.block_bytes <= file.len(),
        b < track_blocks(header, file) <==> available(
            file,
            header.offset_of(b),
            header.block_bytes as int,
        ) == header.block_bytes,
        header.offset_of(b) >= HEADER_LEN,
{
    let len = header.block_bytes as int;
    assert(b * len >= 0) by (nonlinear_arith)
        requires
            b >= 0,
            len > 0,
    ;
    if file.len() >= HEADER_LEN {
        let m = file.len() - HEADER_LEN;
        assert(b < m / len <==> b * len + len <= m) by (nonlinear_arith)
            requires
                len > 0,
                m >= 0,
                b >= 0,
        ;
    }
}

/// A stream at the end of its block stands before the next block of the track.
proof fn lemma_at_block_end(stream: Stream, file: Seq<u8>)
    requires
        stream.shows(file),
        stream.cursor == stream.valid,
    ensures
        stream.position() == stream.next_block * per_block(stream.header),
        stream.next_block < track_blocks(stream.header, file) <==> stream.position() < track_len(
            stream.header,
            file,
        ),
        stream.position() <= track_len(stream.header, file),
{
    lemma_blocks(stream.header);
    let n = stream.next_block as int;
    let per = per_block(stream.header);
    let t = track_blocks(stream.header, file);
    assert(n * per == (n - 1) * per + per) by (nonlinear_arith);
    assert(0 * per == 0) by (nonlinear_arith);
    assert(n < t <==> n * per < t * per) by (nonlinear_arith)
        requires
            per > 0,
    ;
    assert(n * per <= t * per) by (nonlinear_arith)
        requires
            per > 0,
            n <= t,
    ;
}

/// A stream inside its block stands inside the track, at a sample of it.
proof fn lemma_in_block(stream: Stream, file: Seq<u8>)
    requires
        stream.shows(file),
        stream.cursor < stream.valid,
    ensures
        0 <= stream.position() < track_len(stream.header, file),
        stream.samples@[stream.cursor as int] == track_sample(
            stream.header,
            file,
            stream.position(),
        ),
{
    lemma_blocks(stream.header);
    let b = stream.next_block - 1;
    let per = per_block(stream.header);
    let c = stream.cursor as int;
    let t = track_blocks(stream.header, file);
    vstd::arithmetic::div_mod::lemma_fundamental_div_mod_converse(b * per + c, per, b, c);
    assert(b * per + c < t * per && b * per >= 0) by (nonlinear_arith)
        requires
            0 <= b < t,
            0 <= c < per,
    ;
}

/// No stream stands outside its track.
pub(crate) proof fn lemma_position(stream: Stream, file: Seq<u8>)
    requires
        stream.shows(file),
    ensures
        0 <= stream.position() <= track_len(stream.header, file),
        stream.cursor < stream.valid ==> stream.position() < track_len(stream.header, file),
{
    lemma_blocks(stream.header);
    lemma_track(stream.header, file);
    if stream.cursor < stream.valid {
        lemma_in_block(stream, file);
    } else {
        lemma_at_block_end(stream, file);
        let n = stream.next_block as int;
        let per = per_block(stream.header);
        assert(n * per >= 0) by (nonlinear_arith)
            requires
                n >= 0,
                per > 0,
        ;
    }
}

/// No sample is lost: where a block packs as many samples as the header claims
/// and they fit the sample buffer, a file that holds all its blocks plays every
/// sample of every block, in order. `count` is the number of blocks that it
/// takes to hold the samples.
pub proof fn law_no_sample_is_lost(header: SoundHeader, file: Seq<u8>, count: int, k: int)
    requires
        header.wf(),
        header.block_samples == 1 + 2 * (header.block_bytes - 4),
        header.block_samples <= 1024,
        (count - 1) * header.block_samples < header.sample_count <= count * header.block_samples,
        file.len() >= 20 + count * header.block_bytes,
    ensures
        track_len(header, file) == count * header.block_samples,
        track_len(header, file) >= header.sample_count,
        0 <= k < count * header.block_samples ==> ({
            let b = k / header.block_samples as int;
            let block = file.subrange(
                20 + b * header.block_bytes,
                20 + (b + 1) * header.block_bytes,
            );
            track_sample(header, file, k) == block_sample(block, k % header.block_samples as int)
        }),
{
    let d = header.block_samples as int;
    let bytes = header.block_bytes as int;
    let n = header.sample_count as int;
    assert((n + d - 1) / d == count) by (nonlinear_arith)
        requires
            (count - 1) * d < n <= count * d,
            d > 0,
    ;
    assert(header.blocks() == count);
    assert(count >= 0) by (nonlinear_arith)
        requires
            0 <= n <= count * d,
            d > 0,
    ;
    assert((file.len() - 20) / bytes >= count) by (nonlinear_arith)
        requires
            file.len() - 20 >= count * bytes,
            bytes > 0,
    ;
    assert(count * bytes >= 0) by (nonlinear_arith)
        requires
            count >= 0,
            bytes > 0,
    ;
    let b = k / d;
    assert((b + 1) * bytes == b * bytes + bytes) by (nonlinear_arith);
}

/// The general case: whatever the header claims, a block plays no sample that
/// it does not pack, none that is not claimed and none beyond the sample
/// buffer, and it plays every one that meets all three. The next block follows
/// right behind the last of them.
pub proof fn law_blocks_play_what_they_pack(header: SoundHeader, file: Seq<u8>, b: int, j: int)
    requires
        header.wf(),
        0 <= b,
        0 <= j,
    ensures
        j < per_block(header) <==> j < header.block_samples && j < 1024 && j <= 2 * (
        header.block_bytes - 4),
        j < per_block(header) ==> track_sample(header, file, b * per_block(header) + j)
            == block_sample(
            file.subrange(20 + b * header.block_bytes, 20 + (b + 1) * header.block_bytes),
            j,
        ),
{
    let d = per_block(header);
    if j < d {
        vstd::arithmetic::div_mod::lemma_fundamental_div_mod_converse(b * d + j, d, b, j);
    }
    let bytes = header.block_bytes as int;
    assert((b + 1) * bytes == b * bytes + bytes) by (nonlinear_arith);
}

/// A file that was cut short plays the blocks that it holds in full and no part
/// of a further one: block `b` is played exactly if the file reaches its end and
/// samples that the header claims fall into it.
pub proof fn law_a_cut_file_plays_its_whole_blocks(header: SoundHeader, file: Seq<u8>, b: int)
    requires
        header.wf(),
        0 <= b,
    ensures
        b < track_blocks(header, file) <==> 20 + (b + 1) * header.block_bytes <= file.len() && b
            * header.block_samples < header.sample_count,
        track_len(header, file) == track_blocks(header, file) * per_block(header),
        0 <= track_blocks(header, file),
{
    let d = header.block_samples as int;
    let bytes = header.block_bytes as int;
    let n = header.sample_count as int;
    assert(b < (n + d - 1) / d <==> b * d < n) by (nonlinear_arith)
        requires
            d > 0,
    ;
    assert((n + d - 1) / d >= 0) by (nonlinear_arith)
        requires
            d > 0,
            n >= 0,
    ;
    let size = file.len() - 20;
    if size >= 0 {
        assert(b < size / bytes <==> (b + 1) * bytes <= size) by (nonlinear_arith)
            requires
                bytes > 0,
        ;
        assert(size / bytes >= 0) by (nonlinear_arith)
            requires
                bytes > 0,
                size >= 0,
        ;
    } else {
        assert((b + 1) * bytes > 0) by (nonlinear_arith)
            requires
                bytes > 0,
                b >= 0,
        ;
    }
}

/// Which files can be played: those without samples, and those whose blocks are
/// at most 1024 bytes long.
pub proof fn law_blocks_of_a_kibibyte_fit(header: SoundHeader)
    requires
        header.wf(),
    ensures
        fits(header) <==> header.sample_count == 0 || header.block_bytes <= 1024,
{
    let d = header.block_samples as int;
    let n = header.sample_count as int;
    assert((n + d - 1) / d == 0 <==> n == 0) by (nonlinear_arith)
        requires
            d > 0,
            n >= 0,
    ;
}

/// A pass is complete at the end of the track, and a track without samples has
/// no complete pass.
pub proof fn law_a_pass_is_complete_at_the_end_of_the_track(stream: Stream, file: Seq<u8>)
    requires
        stream.shows(file),
    ensures
        stream.completed() <==> stream.position() == track_len(stream.header, file)
            && stream.position() != 0,
        0 <= stream.position() <= track_len(stream.header, file),
{
    lemma_position(stream, file);
}

} // verus!
