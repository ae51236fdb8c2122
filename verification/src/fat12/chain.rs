//! Cluster chains: one link at a time, and remembered positions.
//!
//! Each FAT entry is 12 bits, two entries packed into three bytes. For cluster
//! N the 16-bit word at byte `N * 3 / 2` holds the entry in its low 12 bits if
//! N is even and in its high 12 bits if N is odd. An entry of zero is free and
//! one of 0xFF8 and up ends the chain; any other value is the next cluster.

use super::geometry::{lemma_product, FatError, FatParams, FileRef};
use crate::bytes::{le16, read_le16};
use crate::flash::{image_read, is_image, FAT_OFFSET};
use vstd::prelude::*;

verus! {

/// Address of the FAT word that holds the entry of `cluster`.
pub open spec fn link_start(p: FatParams, cluster: int) -> int {
    p.fat_start() + cluster * 3 / 2
}

/// The next cluster that a FAT word states for `cluster`, `None` at the end of
/// the chain and for a free entry.
pub open spec fn stated_link(pair: Seq<u8>, cluster: int) -> Option<u16> {
    let entry = if cluster % 2 == 0 {
        le16(pair, 0) % 0x1000
    } else {
        le16(pair, 0) / 0x10
    };
    if entry >= 0xFF8 || entry == 0 {
        None
    } else {
        Some(entry as u16)
    }
}

/// The cluster behind `cluster` on a flash that holds `image`.
pub open spec fn link(image: Seq<u8>, p: FatParams, cluster: u16) -> Result<u16, FatError> {
    match image_read(image, link_start(p, cluster as int), 2) {
        Err(_) => Err(FatError::FlashError),
        Ok(pair) => match stated_link(pair, cluster as int) {
            None => Err(FatError::Corrupt),
            Some(next) => Ok(next),
        },
    }
}

/// The cluster `steps` links behind `cluster`.
pub open spec fn walk(image: Seq<u8>, p: FatParams, cluster: u16, steps: nat) -> Result<
    u16,
    FatError,
>
    decreases steps,
{
    if steps == 0 {
        Ok(cluster)
    } else {
        match link(image, p, cluster) {
            Err(e) => Err(e),
            Ok(next) => walk(image, p, next, (steps - 1) as nat),
        }
    }
}

/// Flash address of the FAT word for `cluster`.
pub fn link_addr(params: &FatParams, cluster: u16) -> (addr: u32)
    requires
        params.valid(),
    ensures
        addr == link_start(*params, cluster as int),
        addr >= FAT_OFFSET,
        8 * (addr - params.fat_start()) <= 12 * cluster < 8 * (addr - params.fat_start()) + 8,
{
    proof {
        super::geometry::law_valid_geometry_stays_in_the_partition(*params);
    }
    params.fat_offset() + (cluster as u32 * 3) / 2
}

/// Decodes the FAT word for `cluster`: the next cluster of the chain, or
/// `None` for end-of-chain or a free entry.
pub fn next_cluster(pair: [u8; 2], cluster: u16) -> (next: Option<u16>)
    ensures
        next == stated_link(pair@, cluster as int),
        next matches Some(c) ==> 0 < c < 0xFF8,
{
    let word: u16 = read_le16(&pair, 0);
    let entry: u16 = if cluster % 2 == 0 {
        word % 0x1000
    } else {
        word / 0x10
    };
    if entry >= 0xFF8 || entry == 0 {
        None
    } else {
        Some(entry)
    }
}

/// One remembered position in a file's cluster chain.
#[derive(Debug, Clone, Copy, PartialEq, Eq, Structural)]
pub struct SeekHint {
    /// Identifies the file (its first cluster is unique per file).
    pub first_cluster: u16,
    /// Index of `cluster` within the chain (0 = first cluster).
    pub index: u32,
    /// Cluster number at `index`.
    pub cluster: u16,
}

impl SeekHint {
    /// A hint holds a file's own first cluster, or a number out of the FAT.
    pub open spec fn wf(&self) -> bool {
        if self.index == 0 {
            self.cluster == self.first_cluster
        } else {
            self.cluster < 0x1000
        }
    }

    /// Whether the hint is true of a flash image.
    pub open spec fn holds(&self, image: Seq<u8>, p: FatParams) -> bool {
        walk(image, p, self.first_cluster, self.index as nat) == Ok::<u16, FatError>(self.cluster)
    }
}

/// One hint slot per concurrently played file: video and audio. Entries are
/// pure hints derived from immutable on-flash data; without one a walk is
/// merely longer.
#[derive(Debug, Clone, Copy)]
pub struct SeekTable {
    pub slots: [Option<SeekHint>; 2],
}

/// Whether slot `i` belongs to the file that starts at `first_cluster`.
pub open spec fn owned(slots: Seq<Option<SeekHint>>, i: int, first_cluster: u16) -> bool {
    slots[i] matches Some(h) && h.first_cluster == first_cluster
}

/// The slot that a new hint for `first_cluster` goes to: the file's own one,
/// else a free one, else the first.
pub open spec fn home_of(slots: Seq<Option<SeekHint>>, first_cluster: u16) -> int {
    if owned(slots, 0, first_cluster) {
        0
    } else if owned(slots, 1, first_cluster) {
        1
    } else if slots[0] is None {
        0
    } else if slots[1] is None {
        1
    } else {
        0
    }
}

/// The slots after a hint was remembered.
pub open spec fn stored(slots: Seq<Option<SeekHint>>, hint: SeekHint) -> Seq<Option<SeekHint>> {
    slots.update(home_of(slots, hint.first_cluster), Some(hint))
}

impl SeekTable {
    pub open spec fn wf(&self) -> bool {
        forall|i: int|
            0 <= i < 2 ==> (#[trigger] self.slots@[i] matches Some(h) ==> h.wf())
    }

    /// Whether every hint is true of a flash image.
    pub open spec fn holds(&self, image: Seq<u8>, p: FatParams) -> bool {
        forall|i: int|
            0 <= i < 2 ==> (#[trigger] self.slots@[i] matches Some(h) ==> h.holds(image, p))
    }

    /// Whether slot `i` has a position of `file` at or before `target`.
    pub open spec fn helps(&self, i: int, file: FileRef, target: int) -> bool {
        self.slots@[i] matches Some(h) && h.first_cluster == file.first_cluster && h.index
            <= target
    }

    /// The position that a walk to `target` can start from.
    pub open spec fn best(&self, file: FileRef, target: int) -> Option<SeekHint> {
        if self.helps(0, file, target) {
            self.slots@[0]
        } else if self.helps(1, file, target) {
            self.slots@[1]
        } else {
            None
        }
    }

    /// The slot that a new hint for `first_cluster` goes to.
    pub open spec fn home(&self, first_cluster: u16) -> int {
        home_of(self.slots@, first_cluster)
    }

    pub fn new() -> (table: Self)
        ensures
            table.slots@ == seq![None::<SeekHint>, None],
            table.wf(),
    {
        let table = SeekTable { slots: [None, None] };
        assert(table.slots@ =~= seq![None::<SeekHint>, None]);
        table
    }

    /// Looks up the cached chain position for `file`, if it is at or before
    /// `target` (the chain is forward-only, so a hint past it is useless).
    pub fn seek_hint(&self, file: &FileRef, target: u32) -> (hint: Option<SeekHint>)
        ensures
            hint == self.best(*file, target as int),
    {
        let mut i: usize = 0;
        while i < 2
            invariant
                i <= 2,
                forall|k: int| 0 <= k < i ==> !self.helps(k, *file, target as int),
            decreases 2 - i,
        {
            if let Some(h) = self.slots[i] {
                if h.first_cluster == file.first_cluster && h.index <= target {
                    assert(self.helps(i as int, *file, target as int));
                    return Some(h);
                }
            }
            i += 1;
        }
        None
    }

    /// Remembers where a walk ended up, replacing this file's slot or claiming
    /// a free or the first one.
    pub fn store_hint(&mut self, hint: SeekHint)
        ensures
            final(self).slots@ == stored(old(self).slots@, hint),
    {
        let own0: bool = match self.slots[0] {
            Some(h) => h.first_cluster == hint.first_cluster,
            None => false,
        };
        let own1: bool = match self.slots[1] {
            Some(h) => h.first_cluster == hint.first_cluster,
            None => false,
        };
        let at: usize = if own0 {
            0
        } else if own1 {
            1
        } else if self.slots[0].is_none() {
            0
        } else if self.slots[1].is_none() {
            1
        } else {
            0
        };
        self.slots[at] = Some(hint);
    }
}

/// A walk can be broken anywhere: walking `near` links and then `far` more is
/// walking all of them at once.
pub proof fn law_walks_compose(image: Seq<u8>, p: FatParams, cluster: u16, near: nat, far: nat)
    ensures
        walk(image, p, cluster, near + far) == (match walk(image, p, cluster, near) {
            Err(e) => Err(e),
            Ok(mid) => walk(image, p, mid, far),
        }),
    decreases near,
{
    if near > 0 {
        if let Ok(next) = link(image, p, cluster) {
            law_walks_compose(image, p, next, (near - 1) as nat, far);
        }
    }
}

/// Starting from a true hint leads to the same cluster as walking from the top.
pub proof fn law_hints_do_not_change_the_walk(
    image: Seq<u8>,
    p: FatParams,
    hint: SeekHint,
    target: nat,
)
    requires
        hint.holds(image, p),
        hint.index <= target,
    ensures
        walk(image, p, hint.first_cluster, target) == walk(
            image,
            p,
            hint.cluster,
            (target - hint.index) as nat,
        ),
{
    law_walks_compose(
        image,
        p,
        hint.first_cluster,
        hint.index as nat,
        (target - hint.index) as nat,
    );
}

/// Storing a true hint keeps a table true: hints never go wrong while the
/// flash does not change.
pub proof fn law_true_hints_stay_true(
    image: Seq<u8>,
    p: FatParams,
    before: SeekTable,
    after: SeekTable,
    hint: SeekHint,
)
    requires
        before.holds(image, p),
        hint.holds(image, p),
        after.slots@ == stored(before.slots@, hint),
    ensures
        after.holds(image, p),
        after.best(FileRef { first_cluster: hint.first_cluster, size: 0 }, hint.index as int) is Some,
{
    let i = before.home(hint.first_cluster);
    assert(after.slots@[i] == Some(hint));
    assert(after.helps(
        i,
        FileRef { first_cluster: hint.first_cluster, size: 0 },
        hint.index as int,
    ));
}

/// Every cluster number that a FAT can state has an address range inside 32
/// bits.
pub(crate) proof fn lemma_stated_clusters_fit(p: FatParams, cluster: int, skip: int)
    requires
        p.valid(),
        0 <= cluster < 0x1000,
        0 <= skip < p.cluster_len(),
    ensures
        p.cluster_start(cluster) + skip <= u32::MAX,
{
    let index = if cluster < 2 {
        0
    } else {
        cluster - 2
    };
    let spc = p.sectors_per_cluster as int;
    let bps = p.bytes_per_sector as int;
    lemma_product(spc, bps, 128, 4096);
    lemma_product(index, p.cluster_len(), 0xFFF, 0x8_0000);
}

/// `n` halved `times` times, each time rounded down.
pub open spec fn halved(n: int, times: int) -> int
    decreases times,
{
    if times <= 0 {
        n
    } else {
        halved(n / 2, times - 1)
    }
}

/// Bit `n` of a run of bytes, the least significant bit of each byte first.
pub open spec fn packed_bit(bytes: Seq<u8>, n: int) -> int {
    halved(bytes[n / 8] as int, n % 8) % 2
}

/// The number that `count` bits from bit `first` on spell, the least
/// significant one first.
pub open spec fn packed_field(bytes: Seq<u8>, first: int, count: nat) -> int
    decreases count,
{
    if count == 0 {
        0
    } else {
        packed_bit(bytes, first) + 2 * packed_field(bytes, first + 1, (count - 1) as nat)
    }
}

/// The FAT packs 12-bit entries densely: the link of a cluster is the 12-bit
/// little-endian field that starts at bit `12 * cluster` of the first FAT,
/// which stands behind the reserved sectors. A field of zero and one of 0xFF8
/// and up lead nowhere, and a field that the chip does not hold is a failed
/// read.
pub proof fn law_the_fat_packs_entries_densely(image: Seq<u8>, p: FatParams, cluster: u16)
    requires
        is_image(image),
        p.valid(),
    ensures
        ({
            let first = FAT_OFFSET + p.reserved_sectors * p.bytes_per_sector;
            let field = packed_field(image.skip(first), 12 * cluster, 12);
            if first + (12 * cluster + 11) / 8 >= image.len() {
                link(image, p, cluster) == Err::<u16, _>(FatError::FlashError)
            } else if 0 < field < 0xFF8 {
                link(image, p, cluster) == Ok::<u16, FatError>(field as u16)
            } else {
                link(image, p, cluster) == Err::<u16, _>(FatError::Corrupt)
            }
        }),
{
    super::geometry::law_valid_geometry_stays_in_the_partition(p);
    let first = FAT_OFFSET + p.reserved_sectors * p.bytes_per_sector;
    if first + (12 * cluster + 11) / 8 < image.len() {
        lemma_field(image.skip(first), cluster as int);
        let at = link_start(p, cluster as int);
        let pair = image.subrange(at, at + 2);
        assert(pair[0] == image.skip(first)[cluster * 3 / 2]);
        assert(pair[1] == image.skip(first)[cluster * 3 / 2 + 1]);
    }
}

/// No two clusters share an entry: two images that differ only in the field of
/// one cluster agree on the links of all others.
pub proof fn law_links_are_independent(
    a: Seq<u8>,
    b: Seq<u8>,
    p: FatParams,
    changed: u16,
    other: u16,
)
    requires
        is_image(a),
        is_image(b),
        p.valid(),
        changed != other,
        forall|n: int|
            !(12 * changed <= n < 12 * changed + 12) && n / 8 < a.skip(p.fat_start()).len()
                && n >= 0 ==> #[trigger] packed_bit(a.skip(p.fat_start()), n) == packed_bit(
                b.skip(p.fat_start()),
                n,
            ),
    ensures
        link(a, p, other) == link(b, p, other),
{
    super::geometry::law_valid_geometry_stays_in_the_partition(p);
    law_the_fat_packs_entries_densely(a, p, other);
    law_the_fat_packs_entries_densely(b, p, other);
    let first = p.fat_start();
    if first + (12 * other + 11) / 8 < a.len() {
        assert forall|n: int| 12 * other <= n < 12 * other + 12 implies #[trigger] packed_bit(
            a.skip(first),
            n,
        ) == packed_bit(b.skip(first), n) by {
            assert(n / 8 < a.skip(first).len());
        }
        lemma_same_field(a.skip(first), b.skip(first), 12 * other, 12);
    }
}

proof fn lemma_same_field(a: Seq<u8>, b: Seq<u8>, first: int, count: nat)
    requires
        forall|n: int|
            first <= n < first + count ==> #[trigger] packed_bit(a, n) == packed_bit(b, n),
    ensures
        packed_field(a, first, count) == packed_field(b, first, count),
    decreases count,
{
    if count > 0 {
        assert(packed_bit(a, first) == packed_bit(b, first));
        lemma_same_field(a, b, first + 1, (count - 1) as nat);
    }
}

proof fn lemma_field(fat: Seq<u8>, cluster: int)
    requires
        cluster >= 0,
        (12 * cluster + 11) / 8 < fat.len(),
    ensures
        ({
            let word = fat[cluster * 3 / 2] + 0x100 * fat[cluster * 3 / 2 + 1];
            packed_field(fat, 12 * cluster, 12) == if cluster % 2 == 0 {
                word % 0x1000
            } else {
                word / 0x10
            }
        }),
{
    let n = 12 * cluster;
    lemma_nibble(fat, n, 8);
    lemma_nibble(fat, n + 4, 4);
    lemma_nibble(fat, n + 8, 0);
    assert(packed_field(fat, n + 12, 0) == 0);
}

/// A field that starts at a nibble opens with that nibble.
proof fn lemma_nibble(bytes: Seq<u8>, n: int, more: nat)
    requires
        0 <= n,
        n % 4 == 0,
    ensures
        packed_field(bytes, n, more + 4) == (if n % 8 == 0 {
            bytes[n / 8] % 0x10
        } else {
            bytes[n / 8] / 0x10
        }) + 0x10 * packed_field(bytes, n + 4, more),
{
    let b = bytes[n / 8] as int;
    lemma_halved(b);
    assert(packed_field(bytes, n, more + 4) == packed_bit(bytes, n) + 2 * packed_field(
        bytes,
        n + 1,
        more + 3,
    ));
    assert(packed_field(bytes, n + 1, more + 3) == packed_bit(bytes, n + 1) + 2 * packed_field(
        bytes,
        n + 2,
        more + 2,
    ));
    assert(packed_field(bytes, n + 2, more + 2) == packed_bit(bytes, n + 2) + 2 * packed_field(
        bytes,
        n + 3,
        more + 1,
    ));
    assert(packed_field(bytes, n + 3, more + 1) == packed_bit(bytes, n + 3) + 2 * packed_field(
        bytes,
        n + 4,
        more,
    ));
}

proof fn lemma_halved(b: int)
    requires
        0 <= b < 0x100,
    ensures
        halved(b, 0) % 2 + 2 * (halved(b, 1) % 2) + 4 * (halved(b, 2) % 2) + 8 * (halved(b, 3) % 2)
            == b % 0x10,
        halved(b, 4) % 2 + 2 * (halved(b, 5) % 2) + 4 * (halved(b, 6) % 2) + 8 * (halved(b, 7) % 2)
            == b / 0x10,
{
    reveal_with_fuel(halved, 8);
    let c = b / 2 / 2 / 2 / 2;
    assert(c == b / 0x10);
}

/// Two files play at once: once each of two files has a remembered position,
/// remembering a further one of either replaces that file's own and leaves the
/// other's alone.
pub proof fn law_two_files_keep_their_places(table: SeekTable, hint: SeekHint, other: SeekHint)
    requires
        hint.first_cluster != other.first_cluster,
        forall|i: int|
            0 <= i < 2 ==> (#[trigger] table.slots@[i] matches Some(h) ==> h.first_cluster
                == hint.first_cluster || h == other),
        forall|i: int, j: int|
            0 <= i < 2 && 0 <= j < 2 ==> (#[trigger] table.slots@[i] matches Some(h)
                ==> #[trigger] table.slots@[j] matches Some(g) ==> h.first_cluster
                == g.first_cluster ==> i == j),
    ensures
        exists|i: int| 0 <= i < 2 && stored(table.slots@, hint)[i] == Some(hint),
        forall|i: int|
            0 <= i < 2 && #[trigger] table.slots@[i] == Some(other) ==> stored(
                table.slots@,
                hint,
            )[i] == Some(other),
        forall|i: int|
            0 <= i < 2 && #[trigger] stored(table.slots@, hint)[i] is Some && stored(
                table.slots@,
                hint,
            )[i] != Some(hint) ==> stored(table.slots@, hint)[i] == Some(other),
{
    let slots = table.slots@;
    let i = home_of(slots, hint.first_cluster);
    assert(stored(slots, hint)[i] == Some(hint));
    assert(slots[0] is None || slots[0] is Some);
    assert(slots[1] is None || slots[1] is Some);
    let far = 1 - i;
    assert(stored(slots, hint)[far] == slots[far]);
}

/// A walk starts from a position of its own file that is not past its target,
/// if the table has one.
pub proof fn law_a_hint_helps_its_own_file(table: SeekTable, file: FileRef, target: int, i: int)
    requires
        0 <= i < 2,
    ensures
        table.best(file, target) matches Some(h) ==> h.first_cluster == file.first_cluster
            && h.index <= target,
        table.slots@[i] matches Some(h) ==> h.first_cluster == file.first_cluster && h.index
            <= target ==> table.best(file, target) is Some,
{
}

/// A new hint takes another file's place only where it has to: one slot takes
/// the hint and the other stays, and a slot of another file is given up only if
/// both are taken by other files, and then the first.
pub proof fn law_a_hint_evicts_only_where_it_has_to(
    slots: Seq<Option<SeekHint>>,
    hint: SeekHint,
    i: int,
)
    requires
        slots.len() == 2,
        0 <= i < 2,
    ensures
        ({
            let after = stored(slots, hint);
            &&& after.len() == 2
            &&& after[0] == Some(hint) && after[1] == slots[1] || after[1] == Some(hint)
                && after[0] == slots[0]
            &&& slots[i] is Some && !owned(slots, i, hint.first_cluster) && after[i] != slots[i]
                ==> i == 0 && slots[1] is Some && !owned(slots, 1, hint.first_cluster)
        }),
{
}

} // verus!
