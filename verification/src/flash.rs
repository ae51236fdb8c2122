//! Read-only access to the external flash chip.
//!
//! The flash (2 MiB) is partitioned into:
//!   - **key-value store**: first 1 MiB (0x000000-0x0FFFFF)
//!   - **FAT12 volume**: second 1 MiB (0x100000-0x1FFFFF)
//!
//! Only the FAT12 half is read. The first MiB belongs to the badge's own
//! firmware and must survive untouched, so no write or erase primitive exists.
//!
//! The bus wants aligned transfers into a small aligned buffer. [`read`] opens
//! a request for any byte range, [`Read::transfer`] names the next bus transfer
//! and [`Read::supply`] takes its bytes, until the range is complete. A transfer
//! that the bus fails ends the read with [`Read::failed`].

use vstd::prelude::*;

verus! {

/// One erase sector (4 KiB). Nothing here erases; this is the size of the
/// transfer buffer.
pub const PAGE_SIZE: usize = 4096;

/// Flash chip capacity in bytes (2 MiB).
pub const FLASH_TOTAL_BYTES: usize = 2 * 1024 * 1024;

/// Key-value store partition: first 1 MiB. **Off limits.**
pub const KV_BYTES: usize = 1024 * 1024;

/// FAT12 partition: second 1 MiB.
pub const FAT_OFFSET: u32 = 1024 * 1024;

pub const FAT_BYTES: usize = FLASH_TOTAL_BYTES - KV_BYTES;

#[derive(Debug, Clone, Copy, PartialEq, Eq, Structural)]
pub enum FlashError {
    OutOfBounds,
    Hardware,
    NotInitialised,
}

/// Whether a chip answered the identification command: a bus with nothing on
/// it reads back as all ones or all zeros.
pub fn answers(jedec: [u8; 3]) -> (present: bool)
    ensures
        present == (jedec@ != seq![0xFFu8, 0xFF, 0xFF] && jedec@ != seq![0u8, 0, 0]),
{
    let all_ones: bool = jedec[0] == 0xFF && jedec[1] == 0xFF && jedec[2] == 0xFF;
    let all_zeros: bool = jedec[0] == 0 && jedec[1] == 0 && jedec[2] == 0;
    assert(all_ones == (jedec@ =~= seq![0xFFu8, 0xFF, 0xFF]));
    assert(all_zeros == (jedec@ =~= seq![0u8, 0, 0]));
    !all_ones && !all_zeros
}

/// What a read of `len` bytes at `addr` gives on a flash that holds `image`.
pub open spec fn image_read(image: Seq<u8>, addr: int, len: int) -> Result<Seq<u8>, FlashError> {
    if addr + len > FLASH_TOTAL_BYTES {
        Err(FlashError::OutOfBounds)
    } else {
        Ok(image.subrange(addr, addr + len))
    }
}

/// Whether `image` is the contents of a whole chip.
pub open spec fn is_image(image: Seq<u8>) -> bool {
    image.len() == FLASH_TOTAL_BYTES
}

/// One aligned transfer over the bus.
#[derive(Debug, Clone, Copy, PartialEq, Eq, Structural)]
pub struct Transfer {
    /// Address handed to the bus, a multiple of four.
    pub addr: u32,
    /// Bytes to transfer, a multiple of four, at most one page.
    pub len: usize,
    /// Bytes at the front of the transfer that were not asked for.
    pub skip: usize,
    /// Bytes after `skip` that were asked for.
    pub usable: usize,
}

/// A read in progress.
#[derive(Debug, Clone, Copy)]
pub struct Read {
    addr: u32,
    remaining: usize,
    done: usize,
}

/// The transfer that fetches as much as possible of `remaining` bytes at
/// `addr`.
pub open spec fn transfer_for(addr: int, remaining: int) -> Transfer {
    let skip = addr % 4;
    let wanted = (skip + remaining + 3) / 4 * 4;
    let len = if wanted < PAGE_SIZE {
        wanted
    } else {
        PAGE_SIZE as int
    };
    Transfer {
        addr: (addr - skip) as u32,
        len: len as usize,
        skip: skip as usize,
        usable: (if len - skip < remaining {
            len - skip
        } else {
            remaining
        }) as usize,
    }
}

/// Opens a read of `len` bytes at an absolute flash address. `ready` says
/// whether the chip has been brought up.
pub fn read(addr: u32, len: usize, ready: bool) -> (opened: Result<Read, FlashError>)
    ensures
        addr + len > FLASH_TOTAL_BYTES ==> opened == Err::<Read, _>(FlashError::OutOfBounds),
        addr + len <= FLASH_TOTAL_BYTES && !ready ==> opened == Err::<Read, _>(
            FlashError::NotInitialised,
        ),
        addr + len <= FLASH_TOTAL_BYTES && ready ==> opened is Ok,
        opened matches Ok(r) ==> {
            &&& r.wf()
            &&& r.start() == addr
            &&& r.total() == len
            &&& r.progress() == 0
        },
{
    if len > FLASH_TOTAL_BYTES || addr as usize > FLASH_TOTAL_BYTES - len {
        return Err(FlashError::OutOfBounds);
    }
    if !ready {
        return Err(FlashError::NotInitialised);
    }
    Ok(Read { addr, remaining: len, done: 0 })
}

impl Read {
    /// First address of the requested range.
    pub closed spec fn start(&self) -> int {
        self.addr - self.done
    }

    /// Length of the requested range.
    pub closed spec fn total(&self) -> int {
        self.done + self.remaining
    }

    /// Bytes already delivered, from the front of the range.
    pub closed spec fn progress(&self) -> int {
        self.done as int
    }

    pub open spec fn wf(&self) -> bool {
        &&& 0 <= self.start()
        &&& 0 <= self.progress() <= self.total()
        &&& self.start() + self.total() <= FLASH_TOTAL_BYTES
    }

    /// Whether `data` holds, as far as the read has come, what the flash image
    /// holds in the requested range.
    pub open spec fn matches(&self, image: Seq<u8>, data: Seq<u8>) -> bool {
        &&& data.len() == self.total()
        &&& data.subrange(0, self.progress()) == image.subrange(
            self.start(),
            self.start() + self.progress(),
        )
    }

    /// The next bus transfer, or `None` once the range is complete.
    pub fn transfer(&self) -> (next: Option<Transfer>)
        requires
            self.wf(),
        ensures
            next is None <==> self.progress() == self.total(),
            next matches Some(t) ==> t == transfer_for(
                self.start() + self.progress(),
                self.total() - self.progress(),
            ),
    {
        if self.remaining == 0 {
            return None;
        }
        let skip: u32 = self.addr % 4;
        let wanted: usize = (skip as usize + self.remaining + 3) / 4 * 4;
        let len: usize = if wanted < PAGE_SIZE {
            wanted
        } else {
            PAGE_SIZE
        };
        let usable: usize = if len - (skip as usize) < self.remaining {
            len - skip as usize
        } else {
            self.remaining
        };
        Some(Transfer { addr: self.addr - skip, len, skip: skip as usize, usable })
    }

    /// The outcome of a read whose current transfer the bus failed.
    pub fn failed(&self) -> (error: FlashError)
        ensures
            error == FlashError::Hardware,
    {
        FlashError::Hardware
    }

    /// Takes the bytes of the current transfer and delivers the part of them
    /// that was asked for.
    pub fn supply(&mut self, raw: &[u8], data: &mut [u8])
        requires
            old(self).wf(),
            old(self).progress() < old(self).total(),
            old(data)@.len() == old(self).total(),
            raw@.len() == transfer_for(
                old(self).start() + old(self).progress(),
                old(self).total() - old(self).progress(),
            ).len,
        ensures
            final(self).wf(),
            final(self).start() == old(self).start(),
            final(self).total() == old(self).total(),
            final(data)@.len() == old(data)@.len(),
            ({
                let t = transfer_for(
                    old(self).start() + old(self).progress(),
                    old(self).total() - old(self).progress(),
                );
                let from = old(self).progress();
                &&& final(self).progress() == from + t.usable
                &&& final(self).progress() > from
                &&& final(data)@ == old(data)@.subrange(0, from) + raw@.subrange(
                    t.skip as int,
                    t.skip + t.usable,
                ) + old(data)@.subrange(from + t.usable, old(data)@.len() as int)
            }),
    {
        let skip: usize = (self.addr % 4) as usize;
        let usable: usize = if raw.len() - skip < self.remaining {
            raw.len() - skip
        } else {
            self.remaining
        };
        let base: usize = self.done;
        let mut k: usize = 0;
        while k < usable
            invariant
                k <= usable,
                skip + usable <= raw.len(),
                base + usable <= data.len(),
                data@.len() == old(data)@.len(),
                forall|j: int|
                    base <= j < base + k ==> #[trigger] data@[j] == raw@[j - base + skip],
                forall|j: int|
                    0 <= j < data@.len() && !(base <= j < base + k) ==> data@[j] == old(data)@[j],
            decreases usable - k,
        {
            data[base + k] = raw[skip + k];
            k += 1;
        }
        proof {
            let want = old(data)@.subrange(0, base as int) + raw@.subrange(
                skip as int,
                skip + usable,
            ) + old(data)@.subrange(base + usable, old(data)@.len() as int);
            assert(data@ =~= want);
        }
        self.done = self.done + usable;
        self.addr = self.addr + usable as u32;
        self.remaining = self.remaining - usable;
    }
}

/// Every bus transfer of a read is aligned, at most one page long, inside the
/// chip, and fetches at least one byte that was asked for. A read that starts
/// in the FAT12 partition never touches the key-value store.
pub proof fn law_transfers_are_aligned_and_in_bounds(addr: int, remaining: int)
    requires
        0 <= addr,
        0 < remaining,
        addr + remaining <= FLASH_TOTAL_BYTES,
    ensures
        ({
            let t = transfer_for(addr, remaining);
            &&& t.addr % 4 == 0
            &&& t.len % 4 == 0
            &&& t.len <= PAGE_SIZE
            &&& t.addr + t.len <= FLASH_TOTAL_BYTES
            &&& t.addr + t.skip == addr
            &&& 0 < t.usable <= remaining
            &&& t.skip + t.usable <= t.len
            &&& addr >= FAT_OFFSET ==> t.addr >= FAT_OFFSET
        }),
{
}

/// A read delivers what the flash holds: if every transfer brings the bytes of
/// one image, each step keeps the delivered front equal to the image, so a
/// complete read has exactly the requested range.
pub proof fn law_reads_deliver_the_image(
    image: Seq<u8>,
    before: Read,
    after: Read,
    raw: Seq<u8>,
    data: Seq<u8>,
    filled: Seq<u8>,
)
    requires
        is_image(image),
        before.wf(),
        after.wf(),
        before.progress() < before.total(),
        before.matches(image, data),
        after.start() == before.start(),
        after.total() == before.total(),
        ({
            let t = transfer_for(
                before.start() + before.progress(),
                before.total() - before.progress(),
            );
            let from = before.progress();
            &&& raw == image.subrange(t.addr as int, t.addr + t.len)
            &&& after.progress() == from + t.usable
            &&& filled == data.subrange(0, from) + raw.subrange(t.skip as int, t.skip + t.usable)
                + data.subrange(from + t.usable, data.len() as int)
        }),
    ensures
        after.matches(image, filled),
        after.progress() == after.total() ==> image_read(image, after.start(), after.total())
            == Ok::<_, FlashError>(filled),
{
    let from = before.progress();
    let t = transfer_for(before.start() + from, before.total() - from);
    law_transfers_are_aligned_and_in_bounds(before.start() + from, before.total() - from);
    let shown = image.subrange(after.start(), after.start() + after.progress());
    assert forall|j: int| 0 <= j < after.progress() implies filled.subrange(0, after.progress())[j]
        == shown[j] by {
        if j < from {
            assert(data.subrange(0, from)[j] == image.subrange(
                before.start(),
                before.start() + from,
            )[j]);
        }
    }
    assert(filled.subrange(0, after.progress()) =~= shown);
    if after.progress() == after.total() {
        assert(filled.subrange(0, after.progress()) =~= filled);
    }
}

/// No transfer is smaller or larger than it has to be: one that leaves bytes
/// over is a whole page, and one that does not stops at the word that holds
/// the last byte.
pub proof fn law_transfers_are_as_large_as_they_need_to_be(addr: int, remaining: int)
    requires
        0 <= addr,
        0 < remaining,
        addr + remaining <= FLASH_TOTAL_BYTES,
    ensures
        ({
            let t = transfer_for(addr, remaining);
            &&& t.skip < 4
            &&& t.usable < remaining ==> t.len == 4096 && t.skip + t.usable == t.len
            &&& t.usable == remaining ==> t.len - 4 < t.skip + t.usable <= t.len
        }),
{
}

} // verus!
