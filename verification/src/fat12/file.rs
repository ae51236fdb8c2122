//! Reading a run of bytes out of a file.
//!
//! [`read_at`] seeks to a byte offset, resuming the chain walk from a
//! remembered position where there is one, and reads across as many clusters
//! as needed. The work is a sequence of flash reads: [`ReadAt::step`] names the
//! next one, [`ReadAt::link`] and [`ReadAt::data`] take its outcome.

use super::chain::{
    law_hints_do_not_change_the_walk, law_true_hints_stay_true, law_walks_compose,
    home_of, lemma_stated_clusters_fit, link, link_addr, link_start, next_cluster, stored, walk,
    SeekHint, SeekTable,
};
use super::geometry::{law_valid_geometry_stays_in_the_partition, FatError, FatParams, FileRef};
use crate::flash::{image_read, is_image, FlashError, FAT_OFFSET};
use vstd::prelude::*;

verus! {

/// Bytes that a read of up to `want` bytes at `offset` delivers: fewer than
/// `want` when the file ends first, none at or past its end.
pub open spec fn readable(file: FileRef, offset: int, want: int) -> int {
    if offset >= file.size {
        0
    } else if want < file.size - offset {
        want
    } else {
        file.size - offset
    }
}

/// Bytes that one cluster contributes to a read of `remaining` bytes that
/// starts `skip` bytes into it.
pub open spec fn chunk(p: FatParams, skip: int, remaining: int) -> int {
    if remaining < p.cluster_len() - skip {
        remaining
    } else {
        p.cluster_len() - skip
    }
}

/// The outcome of reading `remaining` bytes from `skip` bytes into a cluster,
/// on a flash that holds `image`.
pub open spec fn run(image: Seq<u8>, p: FatParams, cluster: u16, skip: int, remaining: int) -> Result<
    Seq<u8>,
    FatError,
>
    decreases remaining,
{
    let n = chunk(p, skip, remaining);
    if n <= 0 {
        Ok(Seq::empty())
    } else {
        match image_read(image, p.cluster_start(cluster as int) + skip, n) {
            Err(_) => Err(FatError::FlashError),
            Ok(bytes) => if n == remaining {
                Ok(bytes)
            } else {
                match link(image, p, cluster) {
                    Err(e) => Err(e),
                    Ok(next) => match run(image, p, next, 0, remaining - n) {
                        Err(e) => Err(e),
                        Ok(more) => Ok(bytes + more),
                    },
                }
            },
        }
    }
}

/// The outcome of a read of up to `want` bytes at `offset` of a file.
pub open spec fn read_outcome(
    image: Seq<u8>,
    p: FatParams,
    file: FileRef,
    offset: int,
    want: int,
) -> Result<Seq<u8>, FatError> {
    let n = readable(file, offset, want);
    if n == 0 {
        Ok(Seq::empty())
    } else if file.first_cluster < 2 {
        Err(FatError::Corrupt)
    } else {
        match walk(image, p, file.first_cluster, (offset / p.cluster_len()) as nat) {
            Err(e) => Err(e),
            Ok(cluster) => run(image, p, cluster, offset % p.cluster_len(), n),
        }
    }
}

/// Whether the bytes that a read starts at have an address: the first cluster
/// number is host-written, and so large a one that the address leaves 32 bits
/// is possible. Later clusters come out of the FAT and are small.
pub open spec fn in_address_range(p: FatParams, file: FileRef, offset: int, want: int) -> bool {
    readable(file, offset, want) > 0 && file.first_cluster >= 2 && offset < p.cluster_len()
        ==> p.cluster_start(file.first_cluster as int) + offset <= u32::MAX
}

/// Bytes to read: as many as are wanted and the file has.
fn to_read(file: &FileRef, offset: u32, want: usize) -> (n: usize)
    ensures
        n == readable(*file, offset as int, want as int),
{
    let remaining: usize = if offset < file.size {
        (file.size - offset) as usize
    } else {
        0
    };
    if want < remaining {
        want
    } else {
        remaining
    }
}

/// Whether a read of up to `want` bytes at `offset` can be addressed.
pub fn addressable(params: &FatParams, file: &FileRef, offset: u32, want: usize) -> (ok: bool)
    requires
        params.valid(),
    ensures
        ok == in_address_range(*params, *file, offset as int, want as int),
{
    proof {
        law_valid_geometry_stays_in_the_partition(*params);
    }
    if to_read(file, offset, want) > 0 && file.first_cluster >= 2 && offset
        < params.cluster_bytes() {
        let start: u32 = params.cluster_addr(file.first_cluster);
        offset <= u32::MAX - start
    } else {
        true
    }
}

/// What a read is waiting for.
#[derive(Debug, Clone, Copy, PartialEq, Eq, Structural)]
pub enum Stage {
    /// Following the chain to the cluster that holds the offset.
    Walking,
    /// Reading the wanted part of a cluster.
    Reading,
    /// Following the chain to the next cluster.
    Linking,
    /// Everything has been read.
    Done,
}

/// The next thing that a read needs.
#[derive(Debug, Clone, Copy, PartialEq, Eq, Structural)]
pub enum Step {
    /// Two bytes at `addr`, for [`ReadAt::link`].
    Link { addr: u32 },
    /// `len` bytes at `addr`, into the buffer from `at` on, for
    /// [`ReadAt::data`].
    Data { addr: u32, at: usize, len: usize },
    /// Nothing: this many bytes have been read.
    Done(usize),
}

/// A read in progress.
#[derive(Debug, Clone, Copy)]
pub struct ReadAt {
    pub params: FatParams,
    pub file: FileRef,
    pub stage: Stage,
    /// The cluster that the chain walk has come to.
    pub cluster: u16,
    /// Its index within the chain, while walking.
    pub index: u32,
    /// Index of the cluster that holds the offset.
    pub target: u32,
    /// Bytes to pass over in the current cluster: only the first one has any.
    pub skip: u32,
    /// Bytes read so far.
    pub done: usize,
    /// Bytes to read.
    pub total: usize,
}

impl ReadAt {
    pub open spec fn wf(&self) -> bool {
        &&& self.params.valid()
        &&& self.done <= self.total
        &&& self.skip < self.params.cluster_len()
        &&& match self.stage {
            Stage::Walking => {
                &&& self.index < self.target
                &&& self.done == 0
                &&& self.total > 0
                &&& self.index == 0 ==> self.cluster == self.file.first_cluster
            },
            Stage::Reading => {
                &&& self.done < self.total
                &&& self.params.cluster_start(self.cluster as int) + self.skip <= u32::MAX
            },
            Stage::Linking => self.done < self.total && self.skip == 0,
            Stage::Done => self.done == self.total,
        }
    }

    /// The outcome of the rest of this read on a flash image: the bytes that
    /// are still to come.
    pub open spec fn rest(&self, image: Seq<u8>) -> Result<Seq<u8>, FatError> {
        let remaining = self.total - self.done;
        match self.stage {
            Stage::Walking => match walk(
                image,
                self.params,
                self.cluster,
                (self.target - self.index) as nat,
            ) {
                Err(e) => Err(e),
                Ok(cluster) => run(image, self.params, cluster, self.skip as int, remaining),
            },
            Stage::Reading => run(image, self.params, self.cluster, self.skip as int, remaining),
            Stage::Linking => match link(image, self.params, self.cluster) {
                Err(e) => Err(e),
                Ok(next) => run(image, self.params, next, 0, remaining),
            },
            Stage::Done => Ok(Seq::empty()),
        }
    }

    /// Whether a walk in progress is where the chain of a flash image leads.
    pub open spec fn on_track(&self, image: Seq<u8>) -> bool {
        self.stage is Walking ==> walk(
            image,
            self.params,
            self.file.first_cluster,
            self.index as nat,
        ) == Ok::<u16, FatError>(self.cluster)
    }

    /// The position that this read remembers when its walk ends.
    pub open spec fn hint(&self) -> SeekHint {
        SeekHint {
            first_cluster: self.file.first_cluster,
            index: self.target,
            cluster: self.cluster,
        }
    }

    /// This read after a FAT word named the next cluster.
    pub open spec fn linked(self, next: u16) -> ReadAt {
        if self.stage is Walking {
            ReadAt {
                cluster: next,
                index: (self.index + 1) as u32,
                stage: if self.index + 1 == self.target {
                    Stage::Reading
                } else {
                    Stage::Walking
                },
                ..self
            }
        } else {
            ReadAt { cluster: next, stage: Stage::Reading, ..self }
        }
    }

    /// Flash reads that this read needs at most from here on. Every step uses
    /// some of them up, so a read ends whatever the flash holds, be it a chain
    /// that runs in a circle.
    pub open spec fn budget(&self) -> int {
        let remaining = self.total - self.done;
        match self.stage {
            Stage::Walking => self.target - self.index + 2 * remaining,
            Stage::Reading => 2 * remaining,
            Stage::Linking => 2 * remaining + 1,
            Stage::Done => 0,
        }
    }

    /// The next flash read. No address lies below the FAT12 partition.
    pub fn step(&self) -> (step: Step)
        requires
            self.wf(),
        ensures
            step == (match self.stage {
                Stage::Walking | Stage::Linking => Step::Link {
                    addr: link_start(self.params, self.cluster as int) as u32,
                },
                Stage::Reading => Step::Data {
                    addr: (self.params.cluster_start(self.cluster as int) + self.skip) as u32,
                    at: self.done,
                    len: chunk(
                        self.params,
                        self.skip as int,
                        self.total - self.done,
                    ) as usize,
                },
                Stage::Done => Step::Done(self.total),
            }),
            step matches Step::Link { addr } ==> {
                &&& addr >= FAT_OFFSET
                &&& addr == link_start(self.params, self.cluster as int)
            },
            step matches Step::Data { addr, at, len } ==> {
                &&& addr >= FAT_OFFSET
                &&& addr == self.params.cluster_start(self.cluster as int) + self.skip
                &&& len == chunk(self.params, self.skip as int, self.total - self.done)
                &&& 0 < len
                &&& at + len <= self.total
            },
    {
        proof {
            law_valid_geometry_stays_in_the_partition(self.params);
        }
        match self.stage {
            Stage::Walking => Step::Link { addr: link_addr(&self.params, self.cluster) },
            Stage::Linking => Step::Link { addr: link_addr(&self.params, self.cluster) },
            Stage::Reading => Step::Data {
                addr: self.params.cluster_addr(self.cluster) + self.skip,
                at: self.done,
                len: self.chunk_len(),
            },
            Stage::Done => Step::Done(self.total),
        }
    }

    /// Bytes to take out of the current cluster.
    fn chunk_len(&self) -> (len: usize)
        requires
            self.wf(),
            self.done < self.total,
        ensures
            len == chunk(self.params, self.skip as int, self.total - self.done),
            0 < len <= self.total - self.done,
    {
        let room: usize = (self.params.cluster_bytes() - self.skip) as usize;
        if self.total - self.done < room {
            self.total - self.done
        } else {
            room
        }
    }

    /// Takes the outcome of reading a FAT word. An end of the chain where the
    /// file goes on is corrupt. When a walk reaches its target, the position is
    /// remembered.
    pub fn link(&mut self, word: Result<[u8; 2], FlashError>, table: &mut SeekTable) -> (went:
        Result<(), FatError>)
        requires
            old(self).wf(),
            old(self).stage is Walking || old(self).stage is Linking,
            old(table).wf(),
        ensures
            final(self).wf(),
            final(table).wf(),
            final(self).params == old(self).params,
            final(self).file == old(self).file,
            final(self).target == old(self).target,
            final(self).skip == old(self).skip,
            final(self).done == old(self).done,
            final(self).total == old(self).total,
            went == (match word {
                Err(_) => Err::<(), _>(FatError::FlashError),
                Ok(pair) => match super::chain::stated_link(pair@, old(self).cluster as int) {
                    None => Err(FatError::Corrupt),
                    Some(_) => Ok(()),
                },
            }),
            went is Err ==> *final(self) == *old(self),
            went is Ok ==> super::chain::stated_link(word->Ok_0@, old(self).cluster as int) == Some(
                final(self).cluster,
            ),
            went is Ok ==> *final(self) == old(self).linked(final(self).cluster),
            went is Ok ==> 0 <= final(self).budget() < old(self).budget(),
            went is Ok && old(self).stage is Linking ==> {
                &&& final(self).stage is Reading
                &&& final(self).index == old(self).index
            },
            went is Ok && old(self).stage is Walking ==> {
                &&& final(self).index == old(self).index + 1
                &&& final(self).stage == (if final(self).index == old(self).target {
                    Stage::Reading
                } else {
                    Stage::Walking
                })
            },
            final(table).slots@ == (if went is Ok && old(self).stage is Walking && final(self).index
                == old(self).target {
                stored(old(table).slots@, final(self).hint())
            } else {
                old(table).slots@
            }),
            forall|image: Seq<u8>|
                #![trigger old(self).rest(image)]
                (match (word, image_read(
                    image,
                    link_start(old(self).params, old(self).cluster as int),
                    2,
                )) {
                    (Ok(pair), Ok(bytes)) => pair@ == bytes,
                    (Err(_), Err(_)) => true,
                    _ => false,
                }) ==> {
                    &&& old(self).rest(image) == (match went {
                        Err(e) => Err(e),
                        Ok(_) => final(self).rest(image),
                    })
                    &&& old(self).on_track(image) && old(table).holds(image, old(self).params)
                        ==> final(self).on_track(image) && final(table).holds(
                        image,
                        old(self).params,
                    )
                },
    {
        let ghost before = *self;
        let ghost known = *table;
        let pair: [u8; 2] = match word {
            Err(_) => {
                return Err(FatError::FlashError);
            },
            Ok(pair) => pair,
        };
        let next: u16 = match next_cluster(pair, self.cluster) {
            None => {
                return Err(FatError::Corrupt);
            },
            Some(next) => next,
        };
        proof {
            lemma_stated_clusters_fit(self.params, next as int, self.skip as int);
        }
        self.cluster = next;
        match self.stage {
            Stage::Walking => {
                self.index = self.index + 1;
                if self.index == self.target {
                    self.stage = Stage::Reading;
                    table.store_hint(
                        SeekHint {
                            first_cluster: self.file.first_cluster,
                            index: self.index,
                            cluster: self.cluster,
                        },
                    );
                }
            },
            _ => {
                self.stage = Stage::Reading;
            },
        }
        proof {
            let after = *self;
            let kept = *table;
            assert forall|image: Seq<u8>|
                #![trigger before.rest(image)]
                (match image_read(image, link_start(before.params, before.cluster as int), 2) {
                    Ok(bytes) => pair@ == bytes,
                    Err(_) => false,
                }) implies before.rest(image) == after.rest(image) && (before.on_track(image)
                && known.holds(image, before.params) ==> after.on_track(image) && kept.holds(
                image,
                before.params,
            )) by {
                assert(link(image, before.params, before.cluster) == Ok::<u16, FatError>(next));
                if before.stage is Walking {
                    let left = (before.target - before.index) as nat;
                    assert(walk(image, before.params, before.cluster, left) == walk(
                        image,
                        before.params,
                        next,
                        (left - 1) as nat,
                    ));
                    if before.on_track(image) && known.holds(image, before.params) {
                        law_walks_compose(
                            image,
                            before.params,
                            before.file.first_cluster,
                            before.index as nat,
                            1,
                        );
                        assert(walk(image, before.params, before.cluster, 1) == walk(
                            image,
                            before.params,
                            next,
                            0,
                        ));
                        if after.index == after.target {
                            law_true_hints_stay_true(
                                image,
                                before.params,
                                known,
                                kept,
                                after.hint(),
                            );
                        }
                    }
                }
            }
        }
        Ok(())
    }

    /// Takes the outcome of reading the bytes that `step` asked for.
    pub fn data(&mut self, outcome: Result<(), FlashError>) -> (went: Result<(), FatError>)
        requires
            old(self).wf(),
            old(self).stage is Reading,
        ensures
            final(self).wf(),
            final(self).params == old(self).params,
            final(self).file == old(self).file,
            final(self).total == old(self).total,
            went == (match outcome {
                Err(_) => Err::<(), _>(FatError::FlashError),
                Ok(_) => Ok(()),
            }),
            went is Err ==> *final(self) == *old(self),
            went is Ok ==> 0 <= final(self).budget() < old(self).budget(),
            went is Ok ==> {
                &&& final(self).done == old(self).done + chunk(
                    old(self).params,
                    old(self).skip as int,
                    old(self).total - old(self).done,
                )
                &&& final(self).cluster == old(self).cluster
                &&& final(self).index == old(self).index
                &&& final(self).target == old(self).target
                &&& final(self).skip == 0
                &&& final(self).stage == (if final(self).done == old(self).total {
                    Stage::Done
                } else {
                    Stage::Linking
                })
            },
            forall|image: Seq<u8>|
                #![trigger old(self).rest(image)]
                match image_read(
                    image,
                    old(self).params.cluster_start(old(self).cluster as int) + old(self).skip,
                    chunk(
                        old(self).params,
                        old(self).skip as int,
                        old(self).total - old(self).done,
                    ),
                ) {
                    Err(_) => old(self).rest(image) == Err::<Seq<u8>, _>(FatError::FlashError),
                    Ok(bytes) => went is Ok ==> old(self).rest(image) == (match final(self).rest(
                        image,
                    ) {
                        Err(e) => Err(e),
                        Ok(more) => Ok(bytes + more),
                    }),
                },
    {
        let ghost before = *self;
        match outcome {
            Err(_) => Err(FatError::FlashError),
            Ok(_) => {
                let len: usize = self.chunk_len();
                self.done = self.done + len;
                self.skip = 0;
                self.stage = if self.done == self.total {
                    Stage::Done
                } else {
                    Stage::Linking
                };
                proof {
                    let after = *self;
                    assert forall|image: Seq<u8>| #![trigger before.rest(image)]
                        match image_read(
                            image,
                            before.params.cluster_start(before.cluster as int) + before.skip,
                            len as int,
                        ) {
                            Err(_) => before.rest(image) == Err::<Seq<u8>, _>(
                                FatError::FlashError,
                            ),
                            Ok(bytes) => before.rest(image) == (match after.rest(image) {
                                Err(e) => Err(e),
                                Ok(more) => Ok(bytes + more),
                            }),
                        } by {
                        if let Ok(bytes) = image_read(
                            image,
                            before.params.cluster_start(before.cluster as int) + before.skip,
                            len as int,
                        ) {
                            assert(bytes + Seq::<u8>::empty() =~= bytes);
                        }
                    }
                }
                Ok(())
            },
        }
    }
}

/// Where a walk to byte `offset` starts and ends: the cluster and its index to
/// start from, the index of the cluster that holds the offset, and the offset
/// within that cluster.
fn seek(params: &FatParams, file: &FileRef, offset: u32, table: &SeekTable) -> (place: (
    u16,
    u32,
    u32,
    u32,
))
    requires
        params.valid(),
        table.wf(),
    ensures
        place.2 == offset as int / params.cluster_len(),
        place.3 == offset as int % params.cluster_len(),
        (place.0, place.1) == (match table.best(*file, place.2 as int) {
            Some(h) => (h.cluster, h.index),
            None => (file.first_cluster, 0u32),
        }),
        place.1 <= place.2,
        place.1 == 0 ==> place.0 == file.first_cluster,
        place.1 > 0 ==> place.0 < 0x1000,
{
    proof {
        law_valid_geometry_stays_in_the_partition(*params);
    }
    let cluster_bytes: u32 = params.cluster_bytes();
    let target: u32 = offset / cluster_bytes;
    let within: u32 = offset % cluster_bytes;
    match table.seek_hint(file, target) {
        Some(h) => (h.cluster, h.index, target, within),
        None => (file.first_cluster, 0, target, within),
    }
}

/// Whether `r` is the read of up to `want` bytes at `offset` of a file, opened
/// with the hints of a table, and `slots` what the table holds then: the walk
/// starts at the best hint, and where that is the target it is remembered.
pub open spec fn is_opened(
    p: FatParams,
    file: FileRef,
    offset: int,
    want: int,
    table: SeekTable,
    r: ReadAt,
    slots: Seq<Option<SeekHint>>,
) -> bool {
    &&& r.params == p
    &&& r.file == file
    &&& r.done == 0
    &&& r.total == readable(file, offset, want)
    &&& r.total == 0 ==> r.stage is Done && slots == table.slots@
    &&& r.total > 0 ==> {
        &&& r.target == offset / p.cluster_len()
        &&& r.skip == offset % p.cluster_len()
        &&& (r.cluster, r.index) == (match table.best(file, r.target as int) {
            Some(h) => (h.cluster, h.index),
            None => (file.first_cluster, 0u32),
        })
        &&& r.stage == (if r.index == r.target {
            Stage::Reading
        } else {
            Stage::Walking
        })
        &&& slots == (if r.index == r.target {
            stored(table.slots@, r.hint())
        } else {
            table.slots@
        })
    }
}

/// Opens a read of up to `want` bytes from `file`, starting at byte `offset`.
///
/// The [`FileRef`] is not consumed: reuse it for any number of reads at any
/// offsets.
pub fn read_at(
    params: &FatParams,
    file: &FileRef,
    offset: u32,
    want: usize,
    table: &mut SeekTable,
) -> (opened: Result<ReadAt, FatError>)
    requires
        params.valid(),
        old(table).wf(),
        in_address_range(*params, *file, offset as int, want as int),
    ensures
        final(table).wf(),
        opened is Err <==> readable(*file, offset as int, want as int) > 0 && file.first_cluster
            < 2,
        opened matches Err(e) ==> e == FatError::Corrupt && final(table).slots@ == old(
            table,
        ).slots@,
        opened matches Ok(r) ==> {
            &&& r.wf()
            &&& is_opened(
                *params,
                *file,
                offset as int,
                want as int,
                *old(table),
                r,
                final(table).slots@,
            )
        },
        forall|image: Seq<u8>|
            #![trigger read_outcome(image, *params, *file, offset as int, want as int)]
            old(table).holds(image, *params) ==> {
                &&& read_outcome(image, *params, *file, offset as int, want as int) == (
                match opened {
                    Err(e) => Err(e),
                    Ok(r) => r.rest(image),
                })
                &&& final(table).holds(image, *params)
                &&& opened matches Ok(r) ==> r.on_track(image)
            },
{
    proof {
        law_valid_geometry_stays_in_the_partition(*params);
    }
    let ghost known = *table;
    let total: usize = to_read(file, offset, want);
    if total == 0 {
        return Ok(
            ReadAt {
                params: *params,
                file: *file,
                stage: Stage::Done,
                cluster: file.first_cluster,
                index: 0,
                target: 0,
                skip: 0,
                done: 0,
                total: 0,
            },
        );
    }
    // Clusters 0 and 1 are reserved; a directory entry claiming size > 0 with
    // first_cluster < 2 is corrupt (host-written, so untrusted).
    if file.first_cluster < 2 {
        return Err(FatError::Corrupt);
    }
    let (cluster, index, target, skip) = seek(params, file, offset, table);
    proof {
        vstd::arithmetic::div_mod::lemma_fundamental_div_mod(
            offset as int,
            params.cluster_len(),
        );
        if target == 0 {
            assert(params.cluster_len() * 0 == 0) by (nonlinear_arith);
        } else {
            if index > 0 {
                lemma_stated_clusters_fit(*params, cluster as int, skip as int);
            }
        }
    }
    let opened = ReadAt {
        params: *params,
        file: *file,
        stage: if index == target {
            Stage::Reading
        } else {
            Stage::Walking
        },
        cluster,
        index,
        target,
        skip,
        done: 0,
        total,
    };
    if index == target {
        table.store_hint(SeekHint { first_cluster: file.first_cluster, index, cluster });
    }
    proof {
        let kept = *table;
        assert forall|image: Seq<u8>|
            #![trigger read_outcome(image, *params, *file, offset as int, want as int)]
            known.holds(image, *params) implies read_outcome(
            image,
            *params,
            *file,
            offset as int,
            want as int,
        ) == opened.rest(image) && kept.holds(image, *params) && opened.on_track(image) by {
            let hint = SeekHint { first_cluster: file.first_cluster, index, cluster };
            match known.best(*file, target as int) {
                Some(h) => {
                    assert(h == hint);
                    assert(h.holds(image, *params));
                },
                None => {
                    assert(walk(image, *params, file.first_cluster, 0) == Ok::<u16, FatError>(
                        file.first_cluster,
                    ));
                },
            }
            law_hints_do_not_change_the_walk(image, *params, hint, target as nat);
            if index == target {
                assert(walk(image, *params, cluster, 0) == Ok::<u16, FatError>(cluster));
                law_true_hints_stay_true(image, *params, known, kept, hint);
            }
        }
    }
    Ok(opened)
}

/// A read and the hints after its walk is over, on a flash that holds `image`:
/// one FAT word after the other is read and handed to [`ReadAt::link`].
pub open spec fn sought(image: Seq<u8>, r: ReadAt, slots: Seq<Option<SeekHint>>) -> (
    Result<ReadAt, FatError>,
    Seq<Option<SeekHint>>,
)
    decreases r.target - r.index,
{
    if r.stage is Walking && r.index < r.target {
        match link(image, r.params, r.cluster) {
            Err(e) => (Err(e), slots),
            Ok(next) => {
                let s = r.linked(next);
                sought(
                    image,
                    s,
                    if s.stage is Reading {
                        stored(slots, s.hint())
                    } else {
                        slots
                    },
                )
            },
        }
    } else {
        (Ok(r), slots)
    }
}

proof fn lemma_sought(image: Seq<u8>, r: ReadAt, slots: Seq<Option<SeekHint>>)
    requires
        r.stage is Walking,
        r.index < r.target,
    ensures
        sought(image, r, slots) == (match walk(
            image,
            r.params,
            r.cluster,
            (r.target - r.index) as nat,
        ) {
            Err(e) => (Err(e), slots),
            Ok(c) => {
                let s = ReadAt { cluster: c, index: r.target, stage: Stage::Reading, ..r };
                (Ok(s), stored(slots, s.hint()))
            },
        }),
    decreases r.target - r.index,
{
    if let Ok(next) = link(image, r.params, r.cluster) {
        let s = r.linked(next);
        assert(walk(image, r.params, r.cluster, (r.target - r.index) as nat) == walk(
            image,
            r.params,
            next,
            (r.target - s.index) as nat,
        ));
        if s.stage is Walking {
            lemma_sought(image, s, slots);
        } else {
            assert(walk(image, r.params, next, 0) == Ok::<u16, FatError>(next));
            assert(sought(image, s, stored(slots, s.hint())) == (
                Ok::<ReadAt, FatError>(s),
                stored(slots, s.hint()),
            ));
        }
    }
}

/// A seek leads to the cluster that holds the offset, whichever true hints are
/// held: where the chain has one, the walk ends there, the offset within it is
/// left to pass over, and the position is remembered. Where the chain ends
/// before it (or cannot be read), the seek fails with that error and the hints
/// stay as they were. Either way every hint is still true.
pub proof fn law_a_seek_finds_the_cluster_of_the_offset(
    image: Seq<u8>,
    p: FatParams,
    file: FileRef,
    offset: int,
    want: int,
    before: SeekTable,
    r: ReadAt,
    slots: Seq<Option<SeekHint>>,
)
    requires
        p.valid(),
        before.holds(image, p),
        0 <= offset <= u32::MAX,
        readable(file, offset, want) > 0,
        is_opened(p, file, offset, want, before, r, slots),
    ensures
        ({
            let target = offset / p.cluster_len();
            let (end, kept) = sought(image, r, slots);
            &&& match walk(image, p, file.first_cluster, target as nat) {
                Err(e) => end == Err::<ReadAt, _>(e) && kept == before.slots@,
                Ok(c) => {
                    let hint = SeekHint {
                        first_cluster: file.first_cluster,
                        index: target as u32,
                        cluster: c,
                    };
                    &&& end matches Ok(s) && s.stage is Reading && s.cluster == c && s.skip
                        == offset % p.cluster_len() && s.done == 0 && s.total == readable(
                        file,
                        offset,
                        want,
                    )
                    &&& kept == stored(before.slots@, hint)
                    &&& kept[home_of(before.slots@, file.first_cluster)] == Some(hint)
                },
            }
            &&& forall|i: int|
                0 <= i < 2 ==> (#[trigger] kept[i] matches Some(h) ==> h.holds(image, p))
        }),
{
    law_valid_geometry_stays_in_the_partition(p);
    let start = SeekHint { first_cluster: file.first_cluster, index: r.index, cluster: r.cluster };
    match before.best(file, r.target as int) {
        Some(h) => {
            assert(h == start);
            assert(h.holds(image, p));
        },
        None => {
            assert(walk(image, p, file.first_cluster, 0) == Ok::<u16, FatError>(
                file.first_cluster,
            ));
        },
    }
    law_hints_do_not_change_the_walk(image, p, start, r.target as nat);
    let (end, kept) = sought(image, r, slots);
    if r.index < r.target {
        lemma_sought(image, r, slots);
    } else {
        assert(walk(image, p, r.cluster, 0) == Ok::<u16, FatError>(r.cluster));
    }
    assert forall|i: int| 0 <= i < 2 implies (#[trigger] kept[i] matches Some(h) ==> h.holds(
        image,
        p,
    )) by {
        assert(before.slots@[i] matches Some(h) ==> h.holds(image, p));
    }
}

/// Byte `k` of a file as the flash holds it: the chain leads to a cluster, and
/// the byte lies in it.
pub open spec fn is_file_byte(image: Seq<u8>, p: FatParams, file: FileRef, k: int, byte: u8) -> bool {
    let cluster = walk(image, p, file.first_cluster, (k / p.cluster_len()) as nat);
    &&& cluster is Ok
    &&& byte == image[p.cluster_start(cluster->Ok_0 as int) + k % p.cluster_len()]
}

proof fn lemma_run(
    image: Seq<u8>,
    p: FatParams,
    file: FileRef,
    index: nat,
    cluster: u16,
    skip: int,
    remaining: int,
)
    requires
        p.valid(),
        walk(image, p, file.first_cluster, index) == Ok::<u16, FatError>(cluster),
        0 <= skip < p.cluster_len(),
        0 < remaining,
        run(image, p, cluster, skip, remaining) is Ok,
        is_image(image),
    ensures
        ({
            let bytes = run(image, p, cluster, skip, remaining)->Ok_0;
            &&& bytes.len() == remaining
            &&& forall|i: int|
                0 <= i < remaining ==> is_file_byte(
                    image,
                    p,
                    file,
                    index * p.cluster_len() + skip + i,
                    #[trigger] bytes[i],
                )
        }),
    decreases remaining,
{
    law_valid_geometry_stays_in_the_partition(p);
    let len = p.cluster_len();
    let n = chunk(p, skip, remaining);
    let bytes = run(image, p, cluster, skip, remaining)->Ok_0;
    let start = p.cluster_start(cluster as int);
    let here = image_read(image, start + skip, n)->Ok_0;
    assert(here == image.subrange(start + skip, start + skip + n));
    assert forall|i: int| 0 <= i < n implies is_file_byte(
        image,
        p,
        file,
        index * len + skip + i,
        #[trigger] here[i],
    ) by {
        vstd::arithmetic::div_mod::lemma_fundamental_div_mod_converse(
            index * len + skip + i,
            len,
            index as int,
            skip + i,
        );
    }
    if n < remaining {
        let next = link(image, p, cluster)->Ok_0;
        law_walks_compose(image, p, file.first_cluster, index, 1);
        assert(walk(image, p, cluster, 1) == walk(image, p, next, 0));
        lemma_run(image, p, file, index + 1, next, 0, remaining - n);
        let more = run(image, p, next, 0, remaining - n)->Ok_0;
        assert(bytes == here + more);
        assert((index + 1) * len == index * len + len) by (nonlinear_arith);
        assert forall|i: int| 0 <= i < remaining implies is_file_byte(
            image,
            p,
            file,
            index * len + skip + i,
            #[trigger] bytes[i],
        ) by {
            if i < n {
                assert(bytes[i] == here[i]);
            } else {
                assert(bytes[i] == more[i - n]);
                assert((index + 1) * len + 0 + (i - n) == index * len + skip + i);
            }
        }
    }
}

/// A read that succeeds delivers the bytes of the file, each as the chain and
/// the cluster's address place it, and as many as were asked for unless the
/// file ends first. So the offset at which a read starts, and the reads before
/// it, do not matter: two reads of the same file agree on every byte that both
/// deliver.
pub proof fn law_reads_give_the_bytes_of_the_file(
    image: Seq<u8>,
    p: FatParams,
    file: FileRef,
    offset: int,
    want: int,
)
    requires
        is_image(image),
        p.valid(),
        0 <= offset,
        0 <= want,
    ensures
        read_outcome(image, p, file, offset, want) matches Ok(bytes) ==> {
            &&& bytes.len() == readable(file, offset, want)
            &&& forall|i: int|
                0 <= i < bytes.len() ==> is_file_byte(
                    image,
                    p,
                    file,
                    offset + i,
                    #[trigger] bytes[i],
                )
        },
{
    law_valid_geometry_stays_in_the_partition(p);
    if read_outcome(image, p, file, offset, want) is Ok && readable(file, offset, want) > 0 {
        let len = p.cluster_len();
        let target = (offset / len) as nat;
        vstd::arithmetic::div_mod::lemma_fundamental_div_mod(offset, len);
        vstd::arithmetic::div_mod::lemma_div_pos_is_pos(offset, len);
        assert(len * (offset / len) == (offset / len) * len) by (nonlinear_arith);
        let cluster = walk(image, p, file.first_cluster, target)->Ok_0;
        lemma_run(
            image,
            p,
            file,
            target,
            cluster,
            offset % len,
            readable(file, offset, want),
        );
    }
}

/// A stored file reads back: where the chain of a file leads through clusters
/// of the chip that are enough for its size, every read of it succeeds and
/// delivers the bytes that stand in those clusters, one cluster behind the
/// other, from the offset on and until the file ends or enough are read.
pub proof fn law_a_stored_file_reads_back(
    image: Seq<u8>,
    p: FatParams,
    file: FileRef,
    chain: Seq<u16>,
    contents: Seq<u8>,
    offset: int,
    want: int,
)
    requires
        is_image(image),
        p.valid(),
        is_stored(image, p, file, chain, contents),
        0 <= offset,
        0 <= want,
    ensures
        read_outcome(image, p, file, offset, want) == Ok::<Seq<u8>, FatError>(
            if offset >= contents.len() {
                Seq::empty()
            } else if offset + want <= contents.len() {
                contents.subrange(offset, offset + want)
            } else {
                contents.skip(offset)
            },
        ),
{
    law_valid_geometry_stays_in_the_partition(p);
    law_reads_give_the_bytes_of_the_file(image, p, file, offset, want);
    let n = readable(file, offset, want);
    if n > 0 {
        let len = p.cluster_len();
        let index = offset / len;
        lemma_place(offset, len);
        lemma_place_below(offset, len, chain.len() as int);
        lemma_linked(image, p, file, chain, index as nat);
        lemma_stored_run(image, p, file, chain, contents, index as nat, offset % len, n);
        let bytes = read_outcome(image, p, file, offset, want)->Ok_0;
        assert forall|i: int| 0 <= i < n implies bytes[i] == contents[offset + i] by {
            let k = offset + i;
            assert(is_file_byte(image, p, file, k, bytes[i]));
            lemma_place(k, len);
            lemma_place_below(k, len, chain.len() as int);
            lemma_linked(image, p, file, chain, (k / len) as nat);
            assert(in_place(image, p, chain, contents, k));
        }
        if offset + want <= contents.len() {
            assert(bytes =~= contents.subrange(offset, offset + want));
        } else {
            assert(bytes =~= contents.skip(offset));
        }
    } else if offset < contents.len() {
        assert(contents.subrange(offset, offset + want) =~= Seq::<u8>::empty());
    }
}

/// Whether byte `k` of a file's contents stands where its chain of clusters
/// puts it: clusters are numbered from 2, from the start of the data region on.
pub open spec fn in_place(
    image: Seq<u8>,
    p: FatParams,
    chain: Seq<u16>,
    contents: Seq<u8>,
    k: int,
) -> bool {
    let len = p.sectors_per_cluster * p.bytes_per_sector;
    contents[k] == image[p.data_start() + (chain[k / len] - 2) * len + k % len]
}

/// Whether a flash image holds a file: its chain is linked up in the FAT and
/// long enough, and the clusters hold the contents.
pub open spec fn is_stored(
    image: Seq<u8>,
    p: FatParams,
    file: FileRef,
    chain: Seq<u16>,
    contents: Seq<u8>,
) -> bool {
    &&& contents.len() == file.size
    &&& contents.len() <= chain.len() * (p.sectors_per_cluster * p.bytes_per_sector)
    &&& is_linked(image, p, file, chain)
    &&& forall|k: int| 0 <= k < contents.len() ==> #[trigger] in_place(image, p, chain, contents, k)
}

/// Whether a file's chain starts with these clusters: each one is linked to the
/// next in the FAT and lies on the chip.
pub open spec fn is_linked(
    image: Seq<u8>,
    p: FatParams,
    file: FileRef,
    chain: Seq<u16>,
) -> bool {
    let len = p.sectors_per_cluster * p.bytes_per_sector;
    &&& chain.len() > 0
    &&& chain[0] == file.first_cluster
    &&& forall|i: int|
        0 <= i < chain.len() ==> 2 <= #[trigger] chain[i] && p.data_start() + (chain[i] - 1) * len
            <= image.len()
    &&& forall|i: int|
        0 <= i < chain.len() - 1 ==> link(image, p, #[trigger] chain[i]) == Ok::<u16, FatError>(
            chain[i + 1],
        )
}

proof fn lemma_place(k: int, len: int)
    requires
        0 <= k,
        0 < len,
    ensures
        0 <= k / len,
        0 <= k % len < len,
        k / len * len + k % len == k,
{
    vstd::arithmetic::div_mod::lemma_fundamental_div_mod(k, len);
    vstd::arithmetic::div_mod::lemma_div_pos_is_pos(k, len);
    assert(len * (k / len) == (k / len) * len) by (nonlinear_arith);
}

proof fn lemma_place_below(k: int, len: int, count: int)
    by (nonlinear_arith)
    requires
        0 <= k < count * len,
        0 < len,
    ensures
        k / len < count,
{
}

/// The chain of a file is what a walk along it meets.
proof fn lemma_linked(image: Seq<u8>, p: FatParams, file: FileRef, chain: Seq<u16>, index: nat)
    requires
        p.valid(),
        is_image(image),
        is_linked(image, p, file, chain),
        index < chain.len(),
    ensures
        walk(image, p, file.first_cluster, index) == Ok::<u16, FatError>(chain[index as int]),
        p.cluster_start(chain[index as int] as int) == p.data_start() + (chain[index as int] - 2)
            * p.cluster_len(),
        p.cluster_start(chain[index as int] as int) + p.cluster_len() <= image.len(),
    decreases index,
{
    let len = p.cluster_len();
    let c = chain[index as int] as int;
    assert((c - 1) * len == (c - 2) * len + len) by (nonlinear_arith);
    law_valid_geometry_stays_in_the_partition(p);
    if index > 0 {
        let before = (index - 1) as nat;
        lemma_linked(image, p, file, chain, before);
        law_walks_compose(image, p, file.first_cluster, before, 1);
        let near = chain[before as int];
        assert(link(image, p, near) == Ok::<u16, FatError>(chain[index as int]));
        assert(walk(image, p, near, 1) == walk(image, p, chain[index as int], 0));
    }
}

/// A run inside a stored file succeeds.
proof fn lemma_stored_run(
    image: Seq<u8>,
    p: FatParams,
    file: FileRef,
    chain: Seq<u16>,
    contents: Seq<u8>,
    index: nat,
    skip: int,
    remaining: int,
)
    requires
        p.valid(),
        is_image(image),
        is_stored(image, p, file, chain, contents),
        0 <= skip < p.cluster_len(),
        0 < remaining,
        index < chain.len(),
        index * p.cluster_len() + skip + remaining <= chain.len() * p.cluster_len(),
    ensures
        run(image, p, chain[index as int], skip, remaining) is Ok,
    decreases remaining,
{
    lemma_linked(image, p, file, chain, index);
    let len = p.cluster_len();
    let n = chunk(p, skip, remaining);
    if n < remaining {
        assert((index + 1) * len == index * len + len) by (nonlinear_arith);
        assert(index + 1 < chain.len()) by (nonlinear_arith)
            requires
                (index + 1) * len < chain.len() * len,
                len > 0,
        ;
        assert(link(image, p, chain[index as int]) == Ok::<u16, FatError>(
            chain[index as int + 1],
        ));
        lemma_stored_run(image, p, file, chain, contents, index + 1, 0, remaining - n);
    }
}

/// Nothing to read needs no chain: a read of no bytes, or from the end of the
/// file on, succeeds on any flash and for any first cluster. Where there are
/// bytes to read, a first cluster that no chain can start at is an error.
pub proof fn law_nothing_to_read_needs_no_chain(
    image: Seq<u8>,
    p: FatParams,
    file: FileRef,
    offset: int,
    want: int,
)
    requires
        0 <= offset,
        0 <= want,
    ensures
        offset >= file.size || want == 0 ==> read_outcome(image, p, file, offset, want) == Ok::<
            Seq<u8>,
            FatError,
        >(Seq::empty()),
        offset < file.size && want > 0 && file.first_cluster < 2 ==> read_outcome(
            image,
            p,
            file,
            offset,
            want,
        ) == Err::<Seq<u8>, _>(FatError::Corrupt),
{
}

/// A chain that breaks off fails the reads that need more of it, and only with
/// what stopped it: where `chain` is the part of a file's clusters that can be
/// followed and its last one leads nowhere, a read that reaches behind it ends in
/// the error of that last link, and no part of it counts as read.
pub proof fn law_a_broken_chain_fails_the_read(
    image: Seq<u8>,
    p: FatParams,
    file: FileRef,
    chain: Seq<u16>,
    offset: int,
    want: int,
    error: FatError,
)
    requires
        is_image(image),
        p.valid(),
        is_linked(image, p, file, chain),
        link(image, p, chain.last()) == Err::<u16, _>(error),
        0 <= offset,
        0 < want,
        offset < file.size,
        offset + want > chain.len() * (p.sectors_per_cluster * p.bytes_per_sector),
        file.size > chain.len() * (p.sectors_per_cluster * p.bytes_per_sector),
    ensures
        read_outcome(image, p, file, offset, want) == Err::<Seq<u8>, _>(error),
{
    law_valid_geometry_stays_in_the_partition(p);
    let len = p.cluster_len();
    let index = (offset / len) as nat;
    lemma_place(offset, len);
    if offset < chain.len() * len {
        lemma_place_below(offset, len, chain.len() as int);
        lemma_linked(image, p, file, chain, index);
        lemma_broken_run(
            image,
            p,
            file,
            chain,
            index,
            offset % len,
            readable(file, offset, want),
            error,
        );
    } else {
        assert(offset / len >= chain.len()) by (nonlinear_arith)
            requires
                offset >= chain.len() * len,
                len > 0,
        ;
        let last = (chain.len() - 1) as nat;
        lemma_linked(image, p, file, chain, last);
        law_walks_compose(image, p, file.first_cluster, last, (index - last) as nat);
        assert(walk(image, p, chain.last(), (index - last) as nat) == Err::<u16, _>(error));
    }
}

proof fn lemma_broken_run(
    image: Seq<u8>,
    p: FatParams,
    file: FileRef,
    chain: Seq<u16>,
    index: nat,
    skip: int,
    remaining: int,
    error: FatError,
)
    requires
        p.valid(),
        is_image(image),
        is_linked(image, p, file, chain),
        link(image, p, chain.last()) == Err::<u16, _>(error),
        0 <= skip < p.cluster_len(),
        index < chain.len(),
        index * p.cluster_len() + skip + remaining > chain.len() * p.cluster_len(),
    ensures
        run(image, p, chain[index as int], skip, remaining) == Err::<Seq<u8>, _>(error),
    decreases chain.len() - index,
{
    lemma_linked(image, p, file, chain, index);
    let len = p.cluster_len();
    assert(index * len + len <= chain.len() * len) by (nonlinear_arith)
        requires
            index + 1 <= chain.len(),
            len > 0,
    ;
    assert(chunk(p, skip, remaining) == len - skip);
    if index + 1 < chain.len() {
        assert((index + 1) * len == index * len + len) by (nonlinear_arith);
        assert(link(image, p, chain[index as int]) == Ok::<u16, FatError>(
            chain[index as int + 1],
        ));
        lemma_broken_run(
            image,
            p,
            file,
            chain,
            index + 1,
            0,
            remaining - (len - skip),
            error,
        );
    } else {
        assert(chain[index as int] == chain.last());
    }
}

/// Every file whose first cluster a FAT could state can be addressed.
pub proof fn law_small_cluster_numbers_are_addressable(
    p: FatParams,
    file: FileRef,
    offset: int,
    want: int,
)
    requires
        p.valid(),
        file.first_cluster < 0x1000,
        0 <= offset,
    ensures
        in_address_range(p, file, offset, want),
{
    if offset < p.cluster_len() {
        lemma_stated_clusters_fit(p, file.first_cluster as int, offset);
    }
}

} // verus!
