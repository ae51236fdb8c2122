use aegg_apple::fat12::chain::{link_addr, next_cluster, SeekHint, SeekTable};
use aegg_apple::fat12::file::addressable;
use aegg_apple::fat12::{
    find_file, read_at, to_8_3, FatError, FatParams, FileRef, ParamCache, Scan, Step,
};
use aegg_apple::flash::{FlashError, FAT_OFFSET, FLASH_TOTAL_BYTES};

const SECTOR: usize = 512;
const BASE: usize = FAT_OFFSET as usize;

/// A volume with one reserved sector, two FATs of two sectors, a directory of
/// 32 entries and clusters of two sectors.
struct Volume {
    image: Vec<u8>,
}

impl Volume {
    fn new() -> Self {
        let mut image = vec![0u8; FLASH_TOTAL_BYTES];
        image[BASE] = 0xEB;
        image[BASE + 11..BASE + 13].copy_from_slice(&512u16.to_le_bytes());
        image[BASE + 13] = 2;
        image[BASE + 14..BASE + 16].copy_from_slice(&1u16.to_le_bytes());
        image[BASE + 16] = 2;
        image[BASE + 17..BASE + 19].copy_from_slice(&32u16.to_le_bytes());
        image[BASE + 22..BASE + 24].copy_from_slice(&2u16.to_le_bytes());
        Volume { image }
    }

    fn boot(&self) -> [u8; 64] {
        let mut boot = [0u8; 64];
        boot.copy_from_slice(&self.image[BASE..BASE + 64]);
        boot
    }

    fn params(&self) -> FatParams {
        FatParams::parse(&self.boot()).unwrap()
    }

    fn link(&mut self, cluster: u16, entry: u16) {
        let at = BASE + SECTOR + cluster as usize * 3 / 2;
        let old = u16::from_le_bytes([self.image[at], self.image[at + 1]]);
        let new = if cluster % 2 == 0 {
            (old & 0xF000) | (entry & 0x0FFF)
        } else {
            (old & 0x000F) | (entry << 4)
        };
        self.image[at..at + 2].copy_from_slice(&new.to_le_bytes());
    }

    fn entry(&mut self, index: usize, name: &[u8; 11], attributes: u8, first: u16, size: u32) {
        let at = BASE + 5 * SECTOR + index * 32;
        self.image[at..at + 11].copy_from_slice(name);
        self.image[at + 11] = attributes;
        self.image[at + 26..at + 28].copy_from_slice(&first.to_le_bytes());
        self.image[at + 28..at + 32].copy_from_slice(&size.to_le_bytes());
    }

    /// Fills the clusters of a chain with a file's bytes.
    fn store(&mut self, chain: &[u16], bytes: &[u8]) {
        for (i, piece) in bytes.chunks(2 * SECTOR).enumerate() {
            let at = BASE + 7 * SECTOR + (chain[i] as usize - 2) * 2 * SECTOR;
            self.image[at..at + piece.len()].copy_from_slice(piece);
        }
        for pair in chain.windows(2) {
            self.link(pair[0], pair[1]);
        }
        self.link(chain[chain.len() - 1], 0xFFF);
    }

    fn read(&self, addr: u32, len: usize) -> Result<Vec<u8>, FlashError> {
        let from = addr as usize;
        if from + len > self.image.len() {
            return Err(FlashError::OutOfBounds);
        }
        Ok(self.image[from..from + len].to_vec())
    }

    fn find(&self, name: &str) -> Result<FileRef, FatError> {
        let mut scan = find_file(&self.params(), &to_8_3(name).unwrap());
        loop {
            match scan.next() {
                Scan::Missing => return Err(FatError::FileNotFound),
                Scan::Entry(addr) => {
                    let mut raw = [0u8; 32];
                    let entry = self.read(addr, 32).map(|bytes| {
                        raw.copy_from_slice(&bytes);
                        raw
                    });
                    if let Some(end) = scan.supply(entry) {
                        return end;
                    }
                }
            }
        }
    }

    /// Reads, and counts the FAT words that were looked at.
    fn read_at(
        &self,
        file: &FileRef,
        offset: u32,
        buf: &mut [u8],
        table: &mut SeekTable,
    ) -> (Result<usize, FatError>, usize) {
        let params = self.params();
        let mut links = 0;
        let mut r = match read_at(&params, file, offset, buf.len(), table) {
            Ok(r) => r,
            Err(e) => return (Err(e), links),
        };
        loop {
            let went = match r.step() {
                Step::Done(n) => return (Ok(n), links),
                Step::Link { addr } => {
                    links += 1;
                    let word = self.read(addr, 2).map(|w| [w[0], w[1]]);
                    r.link(word, table)
                }
                Step::Data { addr, at, len } => match self.read(addr, len) {
                    Ok(bytes) => {
                        buf[at..at + len].copy_from_slice(&bytes);
                        r.data(Ok(()))
                    }
                    Err(e) => r.data(Err(e)),
                },
            };
            if let Err(e) = went {
                return (Err(e), links);
            }
        }
    }
}

fn sample_bytes(n: usize) -> Vec<u8> {
    (0..n).map(|i| (i * 31 + i / 256) as u8).collect()
}

#[test]
fn names_become_8_3() {
    assert_eq!(to_8_3("HELLO.TXT"), Some(*b"HELLO   TXT"));
    assert_eq!(to_8_3("badapple.vid"), Some(*b"BADAPPLEVID"));
    assert_eq!(to_8_3("a.b"), Some(*b"A       B  "));
    assert_eq!(to_8_3(".cfg"), Some(*b"        CFG"));
    assert_eq!(to_8_3("NOEXT."), Some(*b"NOEXT      "));
    assert_eq!(to_8_3("A.B.C"), Some(*b"A       B.C"));
}

#[test]
fn names_that_do_not_fit_are_refused() {
    assert_eq!(to_8_3("NODOT"), None);
    assert_eq!(to_8_3("NINECHARS.TXT"), None);
    assert_eq!(to_8_3("A.LONG"), None);
    assert_eq!(to_8_3(""), None);
}

#[test]
fn geometry_follows_from_the_boot_sector() {
    let p = Volume::new().params();
    assert_eq!(p.cluster_bytes(), 1024);
    assert_eq!(p.fat_offset(), FAT_OFFSET + 512);
    assert_eq!(p.root_dir_offset(), FAT_OFFSET + 5 * 512);
    assert_eq!(p.root_dir_sectors(), 2);
    assert_eq!(p.data_region_offset(), FAT_OFFSET + 7 * 512);
    assert_eq!(p.cluster_addr(2), FAT_OFFSET + 7 * 512);
    assert_eq!(p.cluster_addr(0), FAT_OFFSET + 7 * 512);
    assert_eq!(p.cluster_addr(5), FAT_OFFSET + 7 * 512 + 3 * 1024);
    assert_eq!(p.validate(), Ok(()));
}

#[test]
fn a_bogus_cluster_stays_inside_32_bits() {
    let mut p = Volume::new().params();
    p.bytes_per_sector = 4096;
    p.sectors_per_cluster = 128;
    p.reserved_sectors = 1;
    p.num_fats = 1;
    p.sectors_per_fat = 1;
    p.root_entry_count = 16;
    assert_eq!(p.validate(), Ok(()));
    assert_eq!(p.cluster_addr(0xFFFF), u32::MAX);
    let file = FileRef { first_cluster: 0xFFFF, size: 100 };
    assert!(addressable(&p, &file, 0, 1));
    assert!(!addressable(&p, &file, 1, 1));
    assert!(addressable(&p, &file, 4096 * 128, 1));
    // Nothing to read, nothing to address.
    assert!(addressable(&p, &file, 1, 0));
    assert!(addressable(&p, &file, 100, 1));
    let reserved = FileRef { first_cluster: 1, size: 100 };
    assert!(addressable(&p, &reserved, 1, 1));
}

#[test]
fn crafted_geometry_is_refused() {
    let good = Volume::new().params();
    let bad = |change: fn(&mut FatParams)| {
        let mut p = good;
        change(&mut p);
        p.validate()
    };
    assert_eq!(bad(|p| p.bytes_per_sector = 0xFFFF), Err(FatError::NoFilesystem));
    assert_eq!(bad(|p| p.bytes_per_sector = 0), Err(FatError::NoFilesystem));
    assert_eq!(bad(|p| p.sectors_per_cluster = 3), Err(FatError::NoFilesystem));
    assert_eq!(bad(|p| p.sectors_per_cluster = 0), Err(FatError::NoFilesystem));
    assert_eq!(bad(|p| p.num_fats = 0), Err(FatError::NoFilesystem));
    assert_eq!(bad(|p| p.num_fats = 3), Err(FatError::NoFilesystem));
    assert_eq!(bad(|p| p.reserved_sectors = 0), Err(FatError::NoFilesystem));
    assert_eq!(bad(|p| p.reserved_sectors = 0xFFFF), Err(FatError::NoFilesystem));
    assert_eq!(bad(|p| p.sectors_per_fat = 0xFFFF), Err(FatError::NoFilesystem));
    // 32768 entries fill the partition.
    assert_eq!(bad(|p| p.root_entry_count = 32_768), Err(FatError::NoFilesystem));
    assert_eq!(bad(|p| p.root_entry_count = 512), Ok(()));
}

#[test]
fn the_boot_sector_is_read_once() {
    let volume = Volume::new();
    let mut cache = ParamCache::new();
    assert!(cache.get().is_none());
    assert_eq!(cache.read_params(Err(FlashError::Hardware)), Err(FatError::FlashError));
    assert!(cache.get().is_none());
    let mut bad = volume.boot();
    bad[0] = 0x00;
    assert_eq!(cache.read_params(Ok(bad)), Err(FatError::NoFilesystem));
    assert!(cache.get().is_none());
    assert_eq!(cache.read_params(Ok(volume.boot())), Ok(volume.params()));
    assert_eq!(cache.get(), Some(volume.params()));
    // From now on the medium does not matter.
    assert_eq!(cache.read_params(Err(FlashError::Hardware)), Ok(volume.params()));
    let mut near = volume.boot();
    near[0] = 0xE9;
    assert!(FatParams::parse(&near).is_ok());
}

#[test]
fn fat_entries_are_twelve_bits() {
    assert_eq!(next_cluster([0x34, 0xF2], 2), Some(0x234));
    assert_eq!(next_cluster([0x4F, 0x12], 3), Some(0x124));
    assert_eq!(next_cluster([0xF8, 0x0F], 2), None);
    assert_eq!(next_cluster([0xF7, 0x0F], 2), Some(0xFF7));
    assert_eq!(next_cluster([0x00, 0xF0], 2), None);
    assert_eq!(next_cluster([0xFF, 0xFF], 3), None);
    let p = Volume::new().params();
    assert_eq!(link_addr(&p, 2), p.fat_offset() + 3);
    assert_eq!(link_addr(&p, 3), p.fat_offset() + 4);
}

#[test]
fn files_are_found_behind_holes() {
    let mut v = Volume::new();
    v.entry(0, b"BADAPPLE   ", 0x08, 0, 0);
    v.entry(1, b"BADAPPLEVID", 0x0F, 9, 9);
    v.entry(2, b"BADAPPLEVID", 0x10, 9, 9);
    v.entry(3, b"\xE5ADAPPLEVID", 0x20, 9, 9);
    // Entry 4 is empty.
    v.entry(5, b"BADAPPLEVID", 0x20, 7, 1234);
    v.entry(6, b"BADAPPLEVID", 0x20, 8, 5678);
    v.entry(31, b"BADAPPLESND", 0x01, 300, 0x0102_0304);
    assert_eq!(v.find("BADAPPLE.VID"), Ok(FileRef { first_cluster: 7, size: 1234 }));
    assert_eq!(v.find("badapple.snd"), Ok(FileRef { first_cluster: 300, size: 0x0102_0304 }));
    assert_eq!(v.find("OTHER.TXT"), Err(FatError::FileNotFound));
}

#[test]
fn a_failed_directory_read_ends_the_lookup() {
    let mut scan = find_file(&Volume::new().params(), b"BADAPPLEVID");
    assert_eq!(scan.next(), Scan::Entry(FAT_OFFSET + 5 * 512));
    assert_eq!(scan.supply(Err(FlashError::Hardware)), Some(Err(FatError::FlashError)));
}

#[test]
fn reads_cross_cluster_boundaries() {
    let mut v = Volume::new();
    let bytes = sample_bytes(3500);
    v.store(&[5, 9, 3, 20], &bytes);
    let file = FileRef { first_cluster: 5, size: 3500 };
    let mut table = SeekTable::new();
    for (offset, len) in [(0usize, 3500usize), (1000, 100), (1024, 1024), (2047, 2), (3499, 1)] {
        let mut buf = vec![0u8; len];
        let (n, _) = v.read_at(&file, offset as u32, &mut buf, &mut table);
        assert_eq!(n, Ok(len));
        assert_eq!(buf, bytes[offset..offset + len]);
    }
}

#[test]
fn reads_stop_at_the_end_of_the_file() {
    let mut v = Volume::new();
    let bytes = sample_bytes(1100);
    v.store(&[2, 3], &bytes);
    let file = FileRef { first_cluster: 2, size: 1100 };
    let mut table = SeekTable::new();
    let mut buf = [0u8; 200];
    assert_eq!(v.read_at(&file, 1000, &mut buf, &mut table).0, Ok(100));
    assert_eq!(&buf[..100], &bytes[1000..]);
    assert_eq!(v.read_at(&file, 1100, &mut buf, &mut table).0, Ok(0));
    assert_eq!(v.read_at(&file, u32::MAX, &mut buf, &mut table).0, Ok(0));
    assert_eq!(v.read_at(&file, 0, &mut [], &mut table).0, Ok(0));
}

#[test]
fn forward_seeks_resume_the_walk() {
    let mut v = Volume::new();
    let bytes = sample_bytes(8 * 1024);
    v.store(&[2, 4, 6, 8, 10, 12, 14, 16], &bytes);
    let file = FileRef { first_cluster: 2, size: 8 * 1024 };
    let mut table = SeekTable::new();
    let mut byte = [0u8; 1];
    let mut links_at = |offset: u32| {
        let (n, links) = v.read_at(&file, offset, &mut byte, &mut table);
        assert_eq!(n, Ok(1));
        assert_eq!(byte[0], bytes[offset as usize]);
        links
    };
    assert_eq!(links_at(5 * 1024), 5);
    assert_eq!(links_at(5 * 1024 + 7), 0);
    assert_eq!(links_at(7 * 1024), 2);
    // Backwards, the chain is walked from the top.
    assert_eq!(links_at(1024), 1);
    assert_eq!(links_at(3 * 1024), 2);
}

#[test]
fn a_seek_remembers_where_it_ended() {
    let mut v = Volume::new();
    v.store(&[2, 4, 6, 8], &sample_bytes(4 * 1024));
    let file = FileRef { first_cluster: 2, size: 9 * 1024 };
    let mut table = SeekTable::new();
    let mut byte = [0u8; 1];
    assert_eq!(v.read_at(&file, 2 * 1024 + 5, &mut byte, &mut table).0, Ok(1));
    let hint = SeekHint { first_cluster: 2, index: 2, cluster: 6 };
    assert_eq!(table.seek_hint(&file, 2), Some(hint));
    // The chain ends before the offset: the hint stays.
    assert_eq!(v.read_at(&file, 8 * 1024, &mut byte, &mut table).0, Err(FatError::Corrupt));
    assert_eq!(table.seek_hint(&file, 8), Some(hint));
}

#[test]
fn two_files_keep_their_hints() {
    let mut table = SeekTable::new();
    let a = FileRef { first_cluster: 2, size: 1 };
    let b = FileRef { first_cluster: 3, size: 1 };
    let hint = |first_cluster: u16, index: u32, cluster: u16| SeekHint {
        first_cluster,
        index,
        cluster,
    };
    assert_eq!(table.seek_hint(&a, 10), None);
    table.store_hint(hint(2, 4, 40));
    table.store_hint(hint(3, 6, 60));
    assert_eq!(table.seek_hint(&a, 10), Some(hint(2, 4, 40)));
    assert_eq!(table.seek_hint(&b, 6), Some(hint(3, 6, 60)));
    assert_eq!(table.seek_hint(&b, 5), None);
    table.store_hint(hint(3, 7, 70));
    assert_eq!(table.seek_hint(&b, 7), Some(hint(3, 7, 70)));
    assert_eq!(table.seek_hint(&a, 4), Some(hint(2, 4, 40)));
    // A third file takes the first slot.
    table.store_hint(hint(9, 0, 9));
    assert_eq!(table.seek_hint(&a, 10), None);
    assert_eq!(table.seek_hint(&b, 7), Some(hint(3, 7, 70)));
}

#[test]
fn a_chain_that_ends_early_is_corrupt() {
    let mut v = Volume::new();
    v.store(&[2, 3], &sample_bytes(2048));
    let file = FileRef { first_cluster: 2, size: 4000 };
    let mut table = SeekTable::new();
    let mut buf = [0u8; 100];
    assert_eq!(v.read_at(&file, 3000, &mut buf, &mut table).0, Err(FatError::Corrupt));
    let mut buf = [0u8; 4000];
    assert_eq!(v.read_at(&file, 0, &mut buf, &mut table).0, Err(FatError::Corrupt));
    assert_eq!(&buf[..2048], &sample_bytes(2048)[..]);
    let reserved = FileRef { first_cluster: 1, size: 10 };
    assert_eq!(v.read_at(&reserved, 0, &mut buf, &mut table).0, Err(FatError::Corrupt));
    let empty = FileRef { first_cluster: 0, size: 0 };
    assert_eq!(v.read_at(&empty, 0, &mut buf, &mut table).0, Ok(0));
}

#[test]
fn clusters_beyond_the_chip_fail_the_read() {
    let v = Volume::new();
    let file = FileRef { first_cluster: 4000, size: 10 };
    let mut buf = [0u8; 10];
    assert_eq!(
        v.read_at(&file, 0, &mut buf, &mut SeekTable::new()).0,
        Err(FatError::FlashError)
    );
}
