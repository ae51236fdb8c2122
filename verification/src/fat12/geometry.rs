//! Boot sector parameters and the addresses that follow from them.

use crate::bytes::{le16, read_le16};
use crate::flash::{FlashError, FAT_BYTES, FAT_OFFSET};
use vstd::prelude::*;

verus! {

#[derive(Debug, Clone, Copy, PartialEq, Eq, Structural)]
pub enum FatError {
    /// No valid FAT12 boot sector found.
    NoFilesystem,
    /// File not found in root directory.
    FileNotFound,
    /// Flash read failed.
    FlashError,
    /// Corrupt FAT chain or directory entry (unexpected end-of-chain or bad
    /// cluster).
    Corrupt,
}

/// Handle to a file on the filesystem: the first cluster number and the file
/// size, enough to read any part of the file by following the FAT chain.
///
/// Copy it, keep it in a task, reuse it for any number of reads at any
/// offsets; it never needs the directory to be re-scanned.
#[derive(Debug, Clone, Copy, PartialEq, Eq, Structural)]
pub struct FileRef {
    /// First cluster in the FAT chain (cluster 2 = first data cluster).
    pub first_cluster: u16,
    /// File size in bytes.
    pub size: u32,
}

/// Geometry parsed from the boot sector.
#[derive(Debug, Clone, Copy, PartialEq, Eq, Structural)]
pub struct FatParams {
    pub bytes_per_sector: u16,
    pub sectors_per_cluster: u8,
    pub reserved_sectors: u16,
    pub num_fats: u8,
    pub root_entry_count: u16,
    pub sectors_per_fat: u16,
}

/// Length of the part of the boot sector that is read.
pub const BOOT_LEN: usize = 64;

/// The parameters that a boot sector states.
pub open spec fn stated_params(boot: Seq<u8>) -> FatParams {
    FatParams {
        bytes_per_sector: le16(boot, 11) as u16,
        sectors_per_cluster: boot[13],
        reserved_sectors: le16(boot, 14) as u16,
        num_fats: boot[16],
        root_entry_count: le16(boot, 17) as u16,
        sectors_per_fat: le16(boot, 22) as u16,
    }
}

/// Whether a boot sector starts with a jump instruction (short or near).
pub open spec fn has_jump(boot: Seq<u8>) -> bool {
    boot[0] == 0xEB || boot[0] == 0xE9
}

/// The sector sizes of the FAT standard.
pub open spec fn is_sector_size(n: int) -> bool {
    n == 512 || n == 1024 || n == 2048 || n == 4096
}

/// The powers of two that fit into a byte.
pub open spec fn is_cluster_factor(n: int) -> bool {
    n == 1 || n == 2 || n == 4 || n == 8 || n == 16 || n == 32 || n == 64 || n == 128
}

impl FatParams {
    /// Bytes per cluster.
    pub open spec fn cluster_len(&self) -> int {
        self.sectors_per_cluster * self.bytes_per_sector
    }

    /// Address of the first FAT.
    pub open spec fn fat_start(&self) -> int {
        FAT_OFFSET + self.reserved_sectors * self.bytes_per_sector
    }

    /// Address of the root directory, behind all FATs.
    pub open spec fn root_start(&self) -> int {
        FAT_OFFSET + (self.reserved_sectors + self.num_fats * self.sectors_per_fat)
            * self.bytes_per_sector
    }

    /// Sectors that the root directory occupies.
    pub open spec fn root_len_sectors(&self) -> int {
        (self.root_entry_count * 32 + self.bytes_per_sector - 1) / self.bytes_per_sector as int
    }

    /// Address of the data region, where cluster 2 starts.
    pub open spec fn data_start(&self) -> int {
        self.root_start() + self.root_len_sectors() * self.bytes_per_sector
    }

    /// Address of a cluster's data, held at the top of the address range where
    /// a bogus cluster number leads past it. Clusters 0 and 1 are reserved and
    /// count as cluster 2.
    pub open spec fn cluster_start(&self, cluster: int) -> int {
        let index = if cluster < 2 {
            0
        } else {
            cluster - 2
        };
        let addr = self.data_start() + index * self.cluster_len();
        if addr > u32::MAX {
            u32::MAX as int
        } else {
            addr
        }
    }

    /// Geometry that is in range and leaves room for at least one cluster
    /// inside the FAT partition.
    pub open spec fn valid(&self) -> bool {
        &&& is_sector_size(self.bytes_per_sector as int)
        &&& is_cluster_factor(self.sectors_per_cluster as int)
        &&& self.num_fats == 1 || self.num_fats == 2
        &&& self.reserved_sectors > 0
        &&& self.data_start() + self.cluster_len() <= FAT_OFFSET + FAT_BYTES
    }

    /// Bytes per cluster (sector size x sectors per cluster).
    pub fn cluster_bytes(&self) -> (n: u32)
        ensures
            n == self.cluster_len(),
    {
        proof {
            lemma_product(
                self.sectors_per_cluster as int,
                self.bytes_per_sector as int,
                0xFF,
                0xFFFF,
            );
        }
        self.sectors_per_cluster as u32 * self.bytes_per_sector as u32
    }

    /// Absolute flash address of the first FAT.
    pub fn fat_offset(&self) -> (addr: u32)
        requires
            self.fat_start() <= u32::MAX,
        ensures
            addr == self.fat_start(),
    {
        proof {
            lemma_product(
                self.reserved_sectors as int,
                self.bytes_per_sector as int,
                0xFFFF,
                0xFFFF,
            );
        }
        FAT_OFFSET + self.reserved_sectors as u32 * self.bytes_per_sector as u32
    }

    /// Absolute flash address of the root directory.
    pub fn root_dir_offset(&self) -> (addr: u32)
        requires
            self.root_start() <= u32::MAX,
        ensures
            addr == self.root_start(),
    {
        proof {
            lemma_product(self.num_fats as int, self.sectors_per_fat as int, 0xFF, 0xFFFF);
            let sectors = self.reserved_sectors + self.num_fats * self.sectors_per_fat;
            lemma_product(sectors, self.bytes_per_sector as int, sectors, 0xFFFF);
        }
        let fat_size: u32 = self.num_fats as u32 * self.sectors_per_fat as u32;
        FAT_OFFSET + (self.reserved_sectors as u32 + fat_size) * self.bytes_per_sector as u32
    }

    /// Number of sectors occupied by the root directory.
    pub fn root_dir_sectors(&self) -> (n: u32)
        requires
            self.bytes_per_sector > 0,
        ensures
            n == self.root_len_sectors(),
    {
        (self.root_entry_count as u32 * 32 + (self.bytes_per_sector as u32 - 1))
            / self.bytes_per_sector as u32
    }

    /// Absolute flash address of the data region (cluster 2 starts here).
    pub fn data_region_offset(&self) -> (addr: u32)
        requires
            self.bytes_per_sector > 0,
            self.data_start() <= u32::MAX,
        ensures
            addr == self.data_start(),
    {
        proof {
            let sectors = self.root_len_sectors();
            assert(sectors >= 0) by (nonlinear_arith)
                requires
                    sectors == (self.root_entry_count * 32 + self.bytes_per_sector - 1)
                        / self.bytes_per_sector as int,
                    self.bytes_per_sector > 0,
            ;
            lemma_product(sectors, self.bytes_per_sector as int, sectors, 0xFFFF);
        }
        self.root_dir_offset() + self.root_dir_sectors() * self.bytes_per_sector as u32
    }

    /// Absolute flash address of the given cluster's data. Clusters are
    /// numbered from 2; a corrupt chain could hand out a reserved or a bogus
    /// number, which neither underflows nor overflows the address.
    pub fn cluster_addr(&self, cluster: u16) -> (addr: u32)
        requires
            self.bytes_per_sector > 0,
            self.data_start() <= u32::MAX,
        ensures
            addr == self.cluster_start(cluster as int),
    {
        let index: u64 = if cluster < 2 {
            0
        } else {
            cluster as u64 - 2
        };
        let len: u64 = self.cluster_bytes() as u64;
        proof {
            lemma_product(index as int, len as int, 0xFFFF, 0xFFFF_FFFF);
        }
        let addr: u64 = self.data_region_offset() as u64 + index * len;
        if addr > 0xFFFF_FFFF {
            0xFFFF_FFFF
        } else {
            addr as u32
        }
    }

    /// Rejects boot-sector geometry that is out of range or whose derived
    /// addresses fall outside the FAT partition. Every field is written by a
    /// host, so none of them can be trusted.
    pub fn validate(&self) -> (checked: Result<(), FatError>)
        ensures
            checked == (if self.valid() {
                Ok(())
            } else {
                Err(FatError::NoFilesystem)
            }),
    {
        let bps: u16 = self.bytes_per_sector;
        if !(bps == 512 || bps == 1024 || bps == 2048 || bps == 4096) {
            return Err(FatError::NoFilesystem);
        }
        let spc: u8 = self.sectors_per_cluster;
        if !(spc == 1 || spc == 2 || spc == 4 || spc == 8 || spc == 16 || spc == 32 || spc == 64
            || spc == 128) {
            return Err(FatError::NoFilesystem);
        }
        if !(self.num_fats == 1 || self.num_fats == 2) || self.reserved_sectors == 0 {
            return Err(FatError::NoFilesystem);
        }
        proof {
            self.lemma_bounded();
        }
        let region_end: u32 = self.data_region_offset() + self.cluster_bytes();
        if region_end > FAT_OFFSET + FAT_BYTES as u32 {
            return Err(FatError::NoFilesystem);
        }
        Ok(())
    }

    /// Standard sector sizes keep every derived address far inside 32 bits.
    proof fn lemma_bounded(&self)
        requires
            is_sector_size(self.bytes_per_sector as int),
            is_cluster_factor(self.sectors_per_cluster as int),
            self.num_fats == 1 || self.num_fats == 2,
        ensures
            self.data_start() <= 0x4000_0000,
            0 < self.cluster_len() <= 0x8_0000,
    {
        let bps = self.bytes_per_sector as int;
        let fats = self.num_fats * self.sectors_per_fat;
        lemma_product(self.num_fats as int, self.sectors_per_fat as int, 2, 0xFFFF);
        let sectors = self.root_len_sectors();
        assert(0 <= sectors <= 0x1_0000) by (nonlinear_arith)
            requires
                sectors == (self.root_entry_count * 32 + bps - 1) / bps,
                0 <= self.root_entry_count <= 0xFFFF,
                512 <= bps <= 4096,
        ;
        lemma_product(sectors, bps, 0x1_0000, 4096);
        lemma_product(self.reserved_sectors + fats, bps, 0x3_0000, 4096);
        let spc = self.sectors_per_cluster as int;
        assert(0 < spc * bps <= 0x8_0000) by (nonlinear_arith)
            requires
                1 <= spc <= 128,
                512 <= bps <= 4096,
        ;
    }

    /// Parses the boot sector.
    pub fn parse(boot: &[u8; BOOT_LEN]) -> (parsed: Result<FatParams, FatError>)
        ensures
            parsed == (if has_jump(boot@) && stated_params(boot@).valid() {
                Ok(stated_params(boot@))
            } else {
                Err(FatError::NoFilesystem)
            }),
    {
        if boot[0] != 0xEB && boot[0] != 0xE9 {
            return Err(FatError::NoFilesystem);
        }
        let params = FatParams {
            bytes_per_sector: read_le16(boot, 11),
            sectors_per_cluster: boot[13],
            reserved_sectors: read_le16(boot, 14),
            num_fats: boot[16],
            root_entry_count: read_le16(boot, 17),
            sectors_per_fat: read_le16(boot, 22),
        };
        match params.validate() {
            Ok(()) => Ok(params),
            Err(e) => Err(e),
        }
    }
}

/// The boot sector's parameters, kept after the first read.
///
/// The volume is read-only, so the geometry cannot change; caching it saves a
/// boot-sector read ahead of every access.
pub struct ParamCache {
    params: Option<FatParams>,
}

impl ParamCache {
    pub closed spec fn kept(&self) -> Option<FatParams> {
        self.params
    }

    pub open spec fn wf(&self) -> bool {
        self.kept() matches Some(p) ==> p.valid()
    }

    pub fn new() -> (cache: Self)
        ensures
            cache.kept() is None,
            cache.wf(),
    {
        ParamCache { params: None }
    }

    /// The cached parameters; `None` asks the caller to read the boot sector
    /// and hand it to `read_params`.
    pub fn get(&self) -> (params: Option<FatParams>)
        ensures
            params == self.kept(),
    {
        self.params
    }

    /// Takes the outcome of reading the boot sector: the parameters, which are
    /// kept, or the reason why there are none, which is not.
    pub fn read_params(&mut self, boot: Result<[u8; BOOT_LEN], FlashError>) -> (params: Result<
        FatParams,
        FatError,
    >)
        requires
            old(self).wf(),
        ensures
            final(self).wf(),
            params == (match (old(self).kept(), boot) {
                (Some(p), _) => Ok(p),
                (None, Err(_)) => Err(FatError::FlashError),
                (None, Ok(b)) => if has_jump(b@) && stated_params(b@).valid() {
                    Ok(stated_params(b@))
                } else {
                    Err(FatError::NoFilesystem)
                },
            }),
            final(self).kept() == (match params {
                Ok(p) => Some(p),
                Err(_) => None::<FatParams>,
            }),
    {
        match self.params {
            Some(p) => Ok(p),
            None => match boot {
                Err(_) => Err(FatError::FlashError),
                Ok(b) => match FatParams::parse(&b) {
                    Err(e) => Err(e),
                    Ok(p) => {
                        self.params = Some(p);
                        Ok(p)
                    },
                },
            },
        }
    }
}

/// A product of two non-negative factors stays inside the product of their
/// bounds.
pub(crate) proof fn lemma_product(a: int, b: int, a_max: int, b_max: int)
    by (nonlinear_arith)
    requires
        0 <= a <= a_max,
        0 <= b <= b_max,
    ensures
        0 <= a * b <= a_max * b_max,
{
}

/// A valid volume lies inside the FAT partition: its tables, its root directory
/// and its first cluster are in order and end before the partition does, and
/// none of them reaches into the key-value store.
pub proof fn law_valid_geometry_stays_in_the_partition(p: FatParams)
    requires
        p.valid(),
    ensures
        FAT_OFFSET < p.fat_start() <= p.root_start() <= p.data_start(),
        p.root_start() + p.root_entry_count * 32 <= p.data_start(),
        p.cluster_start(2) == p.data_start(),
        p.data_start() + p.cluster_len() <= FAT_OFFSET + FAT_BYTES,
        p.cluster_len() > 0,
{
    p.lemma_bounded();
    let bps = p.bytes_per_sector as int;
    let fats = p.num_fats * p.sectors_per_fat;
    lemma_product(p.num_fats as int, p.sectors_per_fat as int, 2, 0xFFFF);
    assert((p.reserved_sectors + fats) * bps == p.reserved_sectors * bps + fats * bps
        && fats * bps >= 0 && p.reserved_sectors * bps > 0) by (nonlinear_arith)
        requires
            fats >= 0,
            bps >= 512,
            p.reserved_sectors > 0,
    ;
    let entries = p.root_entry_count * 32;
    let sectors = p.root_len_sectors();
    assert(sectors * bps >= entries && sectors >= 0) by (nonlinear_arith)
        requires
            sectors == (entries + bps - 1) / bps,
            bps >= 512,
            entries >= 0,
    ;
    assert((2 - 2) * p.cluster_len() == 0) by (nonlinear_arith);
}

/// The volume is laid out region by region: the reserved sectors, all copies
/// of the FAT, the root directory rounded up to whole sectors, then the
/// clusters.
pub proof fn law_the_regions_follow_one_another(p: FatParams)
    requires
        p.bytes_per_sector > 0,
    ensures
        p.fat_start() - FAT_OFFSET == p.reserved_sectors * p.bytes_per_sector,
        p.root_start() - p.fat_start() == p.num_fats * (p.sectors_per_fat * p.bytes_per_sector),
        (p.data_start() - p.root_start()) % p.bytes_per_sector as int == 0,
        32 * p.root_entry_count <= p.data_start() - p.root_start() < 32 * p.root_entry_count
            + p.bytes_per_sector,
{
    let bps = p.bytes_per_sector as int;
    let sectors = p.root_len_sectors();
    let (r, n, f) = (p.reserved_sectors as int, p.num_fats as int, p.sectors_per_fat as int);
    assert((r + n * f) * bps - r * bps == n * (f * bps)) by (nonlinear_arith);
    let entries = p.root_entry_count * 32;
    assert(entries <= sectors * bps < entries + bps) by (nonlinear_arith)
        requires
            sectors == (entries + bps - 1) / bps,
            bps > 0,
    ;
    vstd::arithmetic::div_mod::lemma_mod_multiples_basic(sectors, bps);
}

/// Clusters are packed: cluster 2 opens the data region and every further one
/// starts where the one before it ends, as long as that is a 32-bit address.
pub proof fn law_clusters_are_packed(p: FatParams, cluster: int)
    requires
        p.bytes_per_sector > 0,
        p.data_start() <= u32::MAX,
        cluster >= 2,
    ensures
        p.cluster_start(2) == p.data_start(),
        p.cluster_start(cluster) + p.sectors_per_cluster * p.bytes_per_sector <= u32::MAX
            ==> p.cluster_start(cluster + 1) == p.cluster_start(cluster) + p.sectors_per_cluster
            * p.bytes_per_sector,
        p.cluster_start(cluster) <= p.cluster_start(cluster + 1) <= u32::MAX,
{
    let len = p.sectors_per_cluster * p.bytes_per_sector;
    assert(0 * len == 0 && len >= 0) by (nonlinear_arith)
        requires
            len == p.sectors_per_cluster * p.bytes_per_sector,
    ;
    assert((cluster + 1 - 2) * len == (cluster - 2) * len + len) by (nonlinear_arith);
}

/// A boot sector reads back: whatever parameters a formatter wrote into the
/// standard places, low byte first, are the ones that are stated, and nothing
/// else in the sector matters to them.
pub proof fn law_the_boot_sector_reads_back(p: FatParams, boot: Seq<u8>)
    requires
        boot.len() >= BOOT_LEN,
        boot.subrange(11, 19) == seq![
            (p.bytes_per_sector % 0x100) as u8,
            (p.bytes_per_sector / 0x100) as u8,
            p.sectors_per_cluster,
            (p.reserved_sectors % 0x100) as u8,
            (p.reserved_sectors / 0x100) as u8,
            p.num_fats,
            (p.root_entry_count % 0x100) as u8,
            (p.root_entry_count / 0x100) as u8,
        ],
        boot.subrange(22, 24) == seq![
            (p.sectors_per_fat % 0x100) as u8,
            (p.sectors_per_fat / 0x100) as u8,
        ],
    ensures
        stated_params(boot) == p,
{
    let near = boot.subrange(11, 19);
    assert(near[0] == boot[11] && near[1] == boot[12] && near[2] == boot[13] && near[3] == boot[14]
        && near[4] == boot[15] && near[5] == boot[16] && near[6] == boot[17] && near[7]
        == boot[18]);
    let far = boot.subrange(22, 24);
    assert(far[0] == boot[22] && far[1] == boot[23]);
}

/// What a usable volume is: power-of-two sectors of 512 to 4096 bytes, a
/// power-of-two number of them per cluster, one FAT or two, a boot sector, and
/// a first cluster that ends inside the partition.
pub proof fn law_a_volume_is_usable_if_its_first_cluster_fits(p: FatParams)
    ensures
        p.valid() <==> {
            &&& 512 <= p.bytes_per_sector <= 4096
            &&& p.bytes_per_sector & sub1(p.bytes_per_sector) == 0
            &&& p.sectors_per_cluster > 0
            &&& p.sectors_per_cluster as u16 & sub1(p.sectors_per_cluster as u16) == 0
            &&& 1 <= p.num_fats <= 2
            &&& p.reserved_sectors >= 1
            &&& p.data_start() - FAT_OFFSET + p.sectors_per_cluster * p.bytes_per_sector
                <= 0x10_0000
        },
{
    lemma_sector_sizes(p.bytes_per_sector);
    lemma_cluster_factors(p.sectors_per_cluster as u16);
}

/// One less, for a value that is not zero.
pub open spec fn sub1(n: u16) -> u16 {
    (n - 1) as u16
}

proof fn lemma_sector_sizes(n: u16)
    by (bit_vector)
    ensures
        (512 <= n <= 4096 && n & ((n - 1) as u16) == 0) == (n == 512 || n == 1024 || n == 2048 || n
            == 4096),
{
}

proof fn lemma_cluster_factors(n: u16)
    by (bit_vector)
    ensures
        n < 256 ==> (0 < n && n & ((n - 1) as u16) == 0) == (n == 1 || n == 2 || n == 4 || n == 8
            || n == 16 || n == 32 || n == 64 || n == 128),
{
}

/// A boot sector is known by its first byte, a short jump or a near one.
pub proof fn law_a_boot_sector_starts_with_a_jump(boot: Seq<u8>)
    requires
        boot.len() >= BOOT_LEN,
    ensures
        has_jump(boot) <==> boot[0] == 0xEB || boot[0] == 0xE9,
{
}

/// The numbers that no cluster has: 0 and 1 lead to the first cluster, and one
/// whose data would start past 32 bits leads to the last address there is.
pub proof fn law_bogus_clusters_have_an_address(p: FatParams, cluster: int)
    requires
        p.bytes_per_sector > 0,
        p.data_start() <= u32::MAX,
        cluster >= 2,
    ensures
        p.cluster_start(0) == p.data_start(),
        p.cluster_start(1) == p.data_start(),
        p.cluster_start(cluster) + p.sectors_per_cluster * p.bytes_per_sector > u32::MAX
            ==> p.cluster_start(cluster + 1) == u32::MAX,
{
    let len = p.sectors_per_cluster * p.bytes_per_sector;
    assert(0 * len == 0 && len >= 0) by (nonlinear_arith)
        requires
            len == p.sectors_per_cluster * p.bytes_per_sector,
    ;
    assert((cluster + 1 - 2) * len == (cluster - 2) * len + len) by (nonlinear_arith);
}

} // verus!
