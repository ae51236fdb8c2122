//! Random-access reads over an asset file.
//!
//! Both the video and the audio streams are far too large to hold in RAM, so
//! each is read a piece at a time: the audio in ADPCM blocks, the video a
//! frame at a time via its offset table. The readers here are written against
//! this trait rather than the FAT12 layer directly, which lets them run over
//! any medium.

use vstd::prelude::*;

verus! {

/// Bytes that a read of `want` bytes at `offset` finds in a file.
pub open spec fn available(file: Seq<u8>, offset: int, want: int) -> int {
    if offset >= file.len() {
        0
    } else if want < file.len() - offset {
        want
    } else {
        file.len() - offset
    }
}

/// A file that can be read at an arbitrary offset.
pub trait AssetRead {
    /// The bytes of the file.
    spec fn contents(&self) -> Seq<u8>;

    /// Whether the medium never fails to deliver what the file holds.
    spec fn reliable(&self) -> bool;

    /// Whether the medium delivers nothing any more, now and from now on.
    spec fn dead(&self) -> bool;

    /// The reads that were made so far, each with its offset and length.
    spec fn asked(&self) -> Seq<(u32, nat)>;

    /// Fills `buf` from `offset` bytes into the file.
    ///
    /// Returns the number of bytes read, which is short only at end of file;
    /// a read that the medium fails delivers nothing.
    fn read_at(&mut self, offset: u32, buf: &mut [u8]) -> (n: usize)
        ensures
            final(self).contents() == old(self).contents(),
            final(self).contents().len() <= u32::MAX,
            final(self).reliable() == old(self).reliable(),
            old(self).dead() ==> final(self).dead() && n == 0,
            final(self).asked() == old(self).asked().push((offset, old(buf)@.len())),
            final(buf)@.len() == old(buf)@.len(),
            n == 0 || n == available(
                old(self).contents(),
                offset as int,
                old(buf)@.len() as int,
            ),
            old(self).reliable() ==> n == available(
                old(self).contents(),
                offset as int,
                old(buf)@.len() as int,
            ),
            forall|i: int|
                0 <= i < n ==> #[trigger] final(buf)@[i] == old(self).contents()[offset + i],
    ;
}

/// A file that is held in memory. Offsets have 32 bits, so anything beyond the
/// first 4 GiB is not part of it.
pub struct MemoryFile<'a> {
    bytes: &'a [u8],
    asked: Ghost<Seq<(u32, nat)>>,
}

impl<'a> MemoryFile<'a> {
    pub fn new(bytes: &'a [u8]) -> (file: Self)
        ensures
            bytes@.len() <= u32::MAX ==> file.contents() == bytes@,
            file.asked() == Seq::<(u32, nat)>::empty(),
    {
        let file = MemoryFile { bytes, asked: Ghost(Seq::empty()) };
        assert(bytes@.len() <= u32::MAX ==> file.contents() =~= bytes@);
        file
    }
}

impl<'a> AssetRead for MemoryFile<'a> {
    closed spec fn contents(&self) -> Seq<u8> {
        if self.bytes@.len() <= u32::MAX {
            self.bytes@
        } else {
            self.bytes@.subrange(0, u32::MAX as int)
        }
    }

    open spec fn reliable(&self) -> bool {
        true
    }

    /// An empty file has nothing to deliver.
    open spec fn dead(&self) -> bool {
        self.contents().len() == 0
    }

    closed spec fn asked(&self) -> Seq<(u32, nat)> {
        self.asked@
    }

    fn read_at(&mut self, offset: u32, buf: &mut [u8]) -> (n: usize) {
        proof {
            self.asked@ = self.asked@.push((offset, buf@.len()));
        }
        let len: usize = if self.bytes.len() as u64 > u32::MAX as u64 {
            u32::MAX as usize
        } else {
            self.bytes.len()
        };
        let at: usize = offset as usize;
        if at >= len {
            return 0;
        }
        let n: usize = if buf.len() < len - at {
            buf.len()
        } else {
            len - at
        };
        let mut k: usize = 0;
        while k < n
            invariant
                k <= n,
                n <= buf@.len(),
                at == offset,
                at + n <= self.contents().len(),
                self.contents().len() <= self.bytes@.len(),
                self.bytes == old(self).bytes,
                self.asked() == old(self).asked().push((offset, old(buf)@.len())),
                buf@.len() == old(buf)@.len(),
                forall|i: int| 0 <= i < k ==> #[trigger] buf@[i] == self.contents()[at + i],
            decreases n - k,
        {
            buf[k] = self.bytes[at + k];
            k += 1;
        }
        n
    }
}

/// A read is short only at the end of the file: it delivers what was asked for
/// where the file has that much from the offset on, all the rest of the file
/// where it has less, and nothing from its end on.
pub proof fn law_reads_are_short_only_at_the_end(file: Seq<u8>, offset: int, want: int)
    requires
        0 <= offset,
        0 <= want,
    ensures
        ({
            let n = available(file, offset, want);
            &&& 0 <= n <= want
            &&& n > 0 ==> offset + n <= file.len()
            &&& n < want ==> offset + n >= file.len()
        }),
{
}

} // verus!
