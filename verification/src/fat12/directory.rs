//! Lookup by 8.3 name in the root directory.

use super::geometry::{law_valid_geometry_stays_in_the_partition, FatError, FatParams, FileRef};
use crate::bytes::{le16, le32, read_le16, read_le32};
use crate::flash::{image_read, is_image, FlashError, FAT_OFFSET, FLASH_TOTAL_BYTES};
use vstd::prelude::*;
use vstd::string::StringSliceAdditionalSpecFns;

verus! {

/// Length of one directory entry.
pub const ENTRY_LEN: usize = 32;

/// Whether an attribute byte marks a long-filename fragment, a volume label or
/// a directory.
pub open spec fn is_no_file(attributes: int) -> bool {
    attributes % 0x10 == 0x0F || (attributes / 0x08) % 4 != 0
}

/// Whether a directory entry names the file `name`: not an empty slot, not
/// deleted, a plain file, and with that name.
pub open spec fn entry_names(raw: Seq<u8>, name: Seq<u8>) -> bool {
    &&& raw[0] != 0x00
    &&& raw[0] != 0xE5
    &&& !is_no_file(raw[11] as int)
    &&& raw.subrange(0, 11) == name
}

/// The handle that a directory entry describes.
pub open spec fn entry_file(raw: Seq<u8>) -> FileRef {
    FileRef { first_cluster: le16(raw, 26) as u16, size: le32(raw, 28) as u32 }
}

/// Address of entry `index` of the root directory.
pub open spec fn entry_start(p: FatParams, index: int) -> int {
    p.root_start() + index * 32
}

/// The outcome of scanning the root directory of a flash image from entry
/// `index` on. Empty slots do not end the scan.
pub open spec fn found_from(image: Seq<u8>, p: FatParams, name: Seq<u8>, index: int) -> Result<
    FileRef,
    FatError,
>
    decreases p.root_entry_count - index,
{
    if index >= p.root_entry_count {
        Err(FatError::FileNotFound)
    } else {
        match image_read(image, entry_start(p, index), ENTRY_LEN as int) {
            Err(_) => Err(FatError::FlashError),
            Ok(raw) => if entry_names(raw, name) {
                Ok(entry_file(raw))
            } else {
                found_from(image, p, name, index + 1)
            },
        }
    }
}

/// What a scan does next.
#[derive(Debug, Clone, Copy, PartialEq, Eq, Structural)]
pub enum Scan {
    /// Read one directory entry at this address and hand it to `supply`.
    Entry(u32),
    /// The directory has no such file.
    Missing,
}

/// A lookup in progress: one entry is read at a time.
#[derive(Debug, Clone, Copy)]
pub struct DirScan {
    pub params: FatParams,
    pub name: [u8; 11],
    pub index: u32,
}

/// Starts a lookup of a file by its 8.3 name. Use [`to_8_3`] to convert a
/// human-readable name.
pub fn find_file(params: &FatParams, name_8_3: &[u8; 11]) -> (scan: DirScan)
    requires
        params.valid(),
    ensures
        scan.wf(),
        scan.params == *params,
        scan.name@ == name_8_3@,
        scan.index == 0,
        forall|image: Seq<u8>| #[trigger]
            scan.outcome(image) == found_from(image, *params, name_8_3@, 0),
{
    DirScan { params: *params, name: *name_8_3, index: 0 }
}

impl DirScan {
    pub open spec fn wf(&self) -> bool {
        self.params.valid() && self.index <= self.params.root_entry_count
    }

    /// The outcome that the rest of this scan has on a flash image.
    pub open spec fn outcome(&self, image: Seq<u8>) -> Result<FileRef, FatError> {
        found_from(image, self.params, self.name@, self.index as int)
    }

    /// The next entry to read.
    pub fn next(&self) -> (step: Scan)
        requires
            self.wf(),
        ensures
            step == (if self.index < self.params.root_entry_count {
                Scan::Entry(entry_start(self.params, self.index as int) as u32)
            } else {
                Scan::Missing
            }),
            step matches Scan::Entry(addr) ==> {
                &&& addr == entry_start(self.params, self.index as int)
                &&& FAT_OFFSET <= addr
                &&& addr + ENTRY_LEN <= FLASH_TOTAL_BYTES
            },
            step is Missing ==> forall|image: Seq<u8>| #[trigger]
                self.outcome(image) == Err::<FileRef, _>(FatError::FileNotFound),
    {
        proof {
            law_valid_geometry_stays_in_the_partition(self.params);
        }
        if self.index < self.params.root_entry_count as u32 {
            Scan::Entry(self.params.root_dir_offset() + self.index * 32)
        } else {
            Scan::Missing
        }
    }

    /// Takes the outcome of reading the entry that `next` asked for: `None` to
    /// go on, else the end of the lookup.
    pub fn supply(&mut self, entry: Result<[u8; ENTRY_LEN], FlashError>) -> (end: Option<
        Result<FileRef, FatError>,
    >)
        requires
            old(self).wf(),
            old(self).index < old(self).params.root_entry_count,
        ensures
            final(self).wf(),
            final(self).params == old(self).params,
            final(self).name@ == old(self).name@,
            end == (match entry {
                Err(_) => Some(Err(FatError::FlashError)),
                Ok(raw) => if entry_names(raw@, old(self).name@) {
                    Some(Ok(entry_file(raw@)))
                } else {
                    None
                },
            }),
            final(self).index == (if end is None {
                old(self).index + 1
            } else {
                old(self).index as int
            }),
            forall|image: Seq<u8>|
                #![trigger old(self).outcome(image)]
                match (entry, image_read(
                    image,
                    entry_start(old(self).params, old(self).index as int),
                    ENTRY_LEN as int,
                )) {
                    (Ok(raw), Ok(bytes)) => raw@ == bytes,
                    (Err(_), Err(_)) => true,
                    _ => false,
                } ==> old(self).outcome(image) == (match end {
                    Some(r) => r,
                    None => final(self).outcome(image),
                }),
    {
        match entry {
            Err(_) => Some(Err(FatError::FlashError)),
            Ok(raw) => {
                if names(&raw, &self.name) {
                    Some(
                        Ok(
                            FileRef {
                                first_cluster: read_le16(&raw, 26),
                                size: read_le32(&raw, 28),
                            },
                        ),
                    )
                } else {
                    self.index = self.index + 1;
                    None
                }
            },
        }
    }
}

/// Whether a directory entry names a file, skipping deleted entries, empty
/// slots, long-filename fragments, volume labels and subdirectories.
fn names(raw: &[u8; ENTRY_LEN], name: &[u8; 11]) -> (same: bool)
    ensures
        same == entry_names(raw@, name@),
{
    proof {
        lemma_attribute_bits(raw@[11]);
    }
    if raw[0] == 0x00 || raw[0] == 0xE5 {
        return false;
    }
    if raw[11] & 0x0F == 0x0F {
        return false;
    }
    if raw[11] & 0x18 != 0 {
        return false;
    }
    let mut i: usize = 0;
    while i < 11
        invariant
            i <= 11,
            forall|k: int| 0 <= k < i ==> raw@[k] == name@[k],
        decreases 11 - i,
    {
        if raw[i] != name[i] {
            assert(raw@.subrange(0, 11)[i as int] != name@[i as int]);
            return false;
        }
        i += 1;
    }
    assert(raw@.subrange(0, 11) =~= name@);
    true
}

proof fn lemma_attribute_bits(b: u8)
    by (bit_vector)
    ensures
        (b & 0x0F == 0x0F) == (b % 0x10 == 0x0F),
        (b & 0x18 != 0) == ((b / 0x08) % 4 != 0),
{
}

/// A byte with `a`..`z` mapped to `A`..`Z`.
pub open spec fn upper(b: u8) -> u8 {
    if 0x61 <= b <= 0x7A {
        (b - 0x20) as u8
    } else {
        b
    }
}

/// Whether a name has a dot, at most eight bytes before the first one and at
/// most three behind it.
pub open spec fn fits_8_3(name: Seq<u8>, dot: int) -> bool {
    &&& 0 <= dot < name.len()
    &&& name[dot] == 0x2E
    &&& forall|i: int| 0 <= i < dot ==> name[i] != 0x2E
    &&& dot <= 8
    &&& name.len() - dot - 1 <= 3
}

/// The 8.3 form of a name whose first dot is at `dot`: space-padded and upper
/// case.
pub open spec fn form_8_3(name: Seq<u8>, dot: int) -> Seq<u8> {
    Seq::new(
        11,
        |i: int|
            if i < 8 {
                if i < dot {
                    upper(name[i])
                } else {
                    0x20u8
                }
            } else {
                if dot + 1 + (i - 8) < name.len() {
                    upper(name[dot + 1 + (i - 8)])
                } else {
                    0x20u8
                }
            },
    )
}

/// Converts a human-readable filename to 8.3 format.
///
/// `"HELLO.TXT"` becomes `"HELLO   TXT"` (space-padded, uppercase).
/// Returns `None` if the name is too long or has no dot.
pub fn to_8_3(name: &str) -> (form: Option<[u8; 11]>)
    ensures
        form is Some <==> exists|dot: int| fits_8_3(name.spec_bytes(), dot),
        form matches Some(f) ==> forall|dot: int|
            fits_8_3(name.spec_bytes(), dot) ==> f@ == form_8_3(name.spec_bytes(), dot),
{
    let mut result: [u8; 11] = [0x20u8; 11];
    let bytes: &[u8] = name.as_bytes();
    let mut dot: usize = 0;
    while dot < bytes.len() && bytes[dot] != 0x2E
        invariant
            dot <= bytes@.len(),
            forall|i: int| 0 <= i < dot ==> bytes@[i] != 0x2E,
        decreases bytes@.len() - dot,
    {
        dot += 1;
    }
    if dot == bytes.len() {
        return None;
    }
    if dot > 8 || bytes.len() - dot - 1 > 3 {
        return None;
    }
    let mut i: usize = 0;
    while i < dot
        invariant
            i <= dot <= 8,
            dot < bytes@.len(),
            forall|k: int| 0 <= k < i ==> result@[k] == upper(bytes@[k]),
            forall|k: int| i <= k < 11 ==> result@[k] == 0x20,
        decreases dot - i,
    {
        result[i] = to_upper(bytes[i]);
        i += 1;
    }
    let extension: usize = bytes.len() - dot - 1;
    let mut j: usize = 0;
    while j < extension
        invariant
            j <= extension <= 3,
            dot <= 8,
            dot + 1 + extension == bytes@.len(),
            forall|k: int| 0 <= k < dot ==> result@[k] == upper(bytes@[k]),
            forall|k: int| dot <= k < 8 ==> result@[k] == 0x20,
            forall|k: int| 8 <= k < 8 + j ==> result@[k] == upper(bytes@[dot + 1 + (k - 8)]),
            forall|k: int| 8 + j <= k < 11 ==> result@[k] == 0x20,
        decreases extension - j,
    {
        result[8 + j] = to_upper(bytes[dot + 1 + j]);
        j += 1;
    }
    assert(fits_8_3(name.spec_bytes(), dot as int));
    assert(result@ =~= form_8_3(name.spec_bytes(), dot as int));
    Some(result)
}

fn to_upper(b: u8) -> (c: u8)
    ensures
        c == upper(b),
{
    if 0x61 <= b && b <= 0x7A {
        b - 0x20
    } else {
        b
    }
}

/// The directory decides a lookup by its first matching entry: if no earlier
/// entry names the file and entry `index` does, that entry's file is found, and
/// if none does the file is missing. Slots that are empty or deleted in between
/// hide nothing.
pub proof fn law_the_first_match_is_found(
    image: Seq<u8>,
    p: FatParams,
    name: Seq<u8>,
    from: int,
    index: int,
)
    requires
        p.valid(),
        0 <= from <= index <= p.root_entry_count,
        forall|k: int|
            #![trigger entry_start(p, k)]
            from <= k < index ==> !entry_names(
                image.subrange(entry_start(p, k), entry_start(p, k) + ENTRY_LEN),
                name,
            ),
        index < p.root_entry_count ==> entry_names(
            image.subrange(entry_start(p, index), entry_start(p, index) + ENTRY_LEN),
            name,
        ),
    ensures
        found_from(image, p, name, from) == (if index < p.root_entry_count {
            Ok(
                entry_file(
                    image.subrange(entry_start(p, index), entry_start(p, index) + ENTRY_LEN),
                ),
            )
        } else {
            Err(FatError::FileNotFound)
        }),
    decreases index - from,
{
    law_valid_geometry_stays_in_the_partition(p);
    if from < index {
        assert(!entry_names(
            image.subrange(entry_start(p, from), entry_start(p, from) + ENTRY_LEN),
            name,
        ));
        law_the_first_match_is_found(image, p, name, from + 1, index);
    }
}

/// What names a file: the eleven bytes of the name in an entry that is neither
/// empty nor deleted, and whose attributes have neither the volume bit nor the
/// directory bit. The read-only, hidden, system and archive bits hide nothing.
pub proof fn law_only_labels_and_directories_are_hidden(raw: Seq<u8>, name: Seq<u8>)
    requires
        raw.len() == ENTRY_LEN,
        name.len() == 11,
        name[0] != 0x00,
        name[0] != 0xE5,
    ensures
        entry_names(raw, name) <==> raw.take(11) == name && raw[11] & 0x08 == 0 && raw[11] & 0x10
            == 0,
{
    let a = raw[11];
    assert((a % 0x10 == 0x0F || (a / 0x08) % 4 != 0) == !(a & 0x08 == 0 && a & 0x10 == 0))
        by (bit_vector);
    assert(raw.take(11) =~= raw.subrange(0, 11));
    if raw.take(11) == name {
        assert(raw[0] == raw.take(11)[0]);
    }
}

/// A file that was entered is found: where the entries stand in the root
/// directory behind all FATs, 32 bytes each, and entry `index` is the first one
/// with that name in a plain file's entry, the lookup gives the first cluster
/// and the size that were entered, low bytes first.
pub proof fn law_an_entered_file_is_found(
    image: Seq<u8>,
    p: FatParams,
    name: Seq<u8>,
    index: int,
    file: FileRef,
)
    requires
        p.valid(),
        is_image(image),
        name.len() == 11,
        name[0] != 0x00,
        name[0] != 0xE5,
        0 <= index < p.root_entry_count,
        ({
            let root = image.skip(
                FAT_OFFSET + (p.reserved_sectors + p.num_fats * p.sectors_per_fat)
                    * p.bytes_per_sector,
            );
            &&& forall|k: int|
                0 <= k < index ==> (#[trigger] root.subrange(32 * k, 32 * k + 11) != name
                    || root[32 * k + 11] & 0x18 != 0)
            &&& root.subrange(32 * index, 32 * index + 11) == name
            &&& root[32 * index + 11] & 0x18 == 0
            &&& root.subrange(32 * index + 26, 32 * index + 32) == seq![
                (file.first_cluster % 0x100) as u8,
                (file.first_cluster / 0x100) as u8,
                (file.size % 0x100) as u8,
                (file.size / 0x100 % 0x100) as u8,
                (file.size / 0x1_0000 % 0x100) as u8,
                (file.size / 0x100_0000) as u8,
            ]
        }),
    ensures
        found_from(image, p, name, 0) == Ok::<FileRef, FatError>(file),
{
    law_valid_geometry_stays_in_the_partition(p);
    let start = FAT_OFFSET + (p.reserved_sectors + p.num_fats * p.sectors_per_fat)
        * p.bytes_per_sector;
    let root = image.skip(start);
    assert forall|k: int|
        #![trigger entry_start(p, k)]
        0 <= k < index implies !entry_names(
        image.subrange(entry_start(p, k), entry_start(p, k) + ENTRY_LEN),
        name,
    ) by {
        let raw = image.subrange(entry_start(p, k), entry_start(p, k) + ENTRY_LEN);
        assert(root.subrange(32 * k, 32 * k + 11) =~= raw.take(11));
        assert(raw[11] == root[32 * k + 11]);
        lemma_hiding_bits(raw[11]);
        law_only_labels_and_directories_are_hidden(raw, name);
    }
    let raw = image.subrange(entry_start(p, index), entry_start(p, index) + ENTRY_LEN);
    assert(root.subrange(32 * index, 32 * index + 11) =~= raw.take(11));
    assert(raw[11] == root[32 * index + 11]);
    lemma_hiding_bits(raw[11]);
    law_only_labels_and_directories_are_hidden(raw, name);
    law_the_first_match_is_found(image, p, name, 0, index);
    let tail = root.subrange(32 * index + 26, 32 * index + 32);
    assert(tail[0] == raw[26] && tail[1] == raw[27] && tail[2] == raw[28] && tail[3] == raw[29]
        && tail[4] == raw[30] && tail[5] == raw[31]);
}

/// A file that was not entered is missing: where every entry of the root
/// directory has another name or is a label or a directory, the lookup fails,
/// and only after the last entry.
pub proof fn law_a_file_not_entered_is_missing(image: Seq<u8>, p: FatParams, name: Seq<u8>)
    requires
        p.valid(),
        is_image(image),
        name.len() == 11,
        name[0] != 0x00,
        name[0] != 0xE5,
        ({
            let root = image.skip(
                FAT_OFFSET + (p.reserved_sectors + p.num_fats * p.sectors_per_fat)
                    * p.bytes_per_sector,
            );
            forall|k: int|
                0 <= k < p.root_entry_count ==> (#[trigger] root.subrange(32 * k, 32 * k + 11)
                    != name || root[32 * k + 11] & 0x18 != 0)
        }),
    ensures
        found_from(image, p, name, 0) == Err::<FileRef, _>(FatError::FileNotFound),
{
    law_valid_geometry_stays_in_the_partition(p);
    let root = image.skip(
        FAT_OFFSET + (p.reserved_sectors + p.num_fats * p.sectors_per_fat) * p.bytes_per_sector,
    );
    assert forall|k: int|
        #![trigger entry_start(p, k)]
        0 <= k < p.root_entry_count implies !entry_names(
        image.subrange(entry_start(p, k), entry_start(p, k) + ENTRY_LEN),
        name,
    ) by {
        let raw = image.subrange(entry_start(p, k), entry_start(p, k) + ENTRY_LEN);
        assert(root.subrange(32 * k, 32 * k + 11) =~= raw.take(11));
        assert(raw[11] == root[32 * k + 11]);
        lemma_hiding_bits(raw[11]);
        law_only_labels_and_directories_are_hidden(raw, name);
    }
    law_the_first_match_is_found(image, p, name, 0, p.root_entry_count as int);
}

proof fn lemma_hiding_bits(a: u8)
    by (bit_vector)
    ensures
        (a & 0x18 == 0) == (a & 0x08 == 0 && a & 0x10 == 0),
{
}

/// `text` in capitals.
pub open spec fn capitals(text: Seq<u8>) -> Seq<u8> {
    Seq::new(
        text.len(),
        |i: int|
            if 'a' as u8 <= text[i] <= 'z' as u8 {
                (text[i] - 'a' as u8 + 'A' as u8) as u8
            } else {
                text[i]
            },
    )
}

/// `text` filled up with spaces to `width` bytes.
pub open spec fn spaced(text: Seq<u8>, width: int) -> Seq<u8> {
    text + Seq::new((width - text.len()) as nat, |i: int| ' ' as u8)
}

/// The 8.3 form is the base in capitals and spaced to eight bytes, then the
/// extension in capitals and spaced to three.
pub proof fn law_the_form_is_base_and_extension(base: Seq<u8>, extension: Seq<u8>)
    requires
        base.len() <= 8,
        extension.len() <= 3,
        !base.contains('.' as u8),
    ensures
        ({
            let name = base + seq!['.' as u8] + extension;
            &&& fits_8_3(name, base.len() as int)
            &&& form_8_3(name, base.len() as int) == spaced(capitals(base), 8) + spaced(
                capitals(extension),
                3,
            )
        }),
{
    let name = base + seq!['.' as u8] + extension;
    let dot = base.len() as int;
    assert(forall|i: int| 0 <= i < dot ==> name[i] == base[i]);
    assert(forall|i: int| 0 <= i < extension.len() ==> name[dot + 1 + i] == extension[i]);
    assert forall|i: int| 0 <= i < dot implies name[i] != 0x2E by {
        assert(base[i] == name[i]);
        assert(base.contains(base[i]));
    }
    assert(form_8_3(name, dot) =~= spaced(capitals(base), 8) + spaced(capitals(extension), 3));
}

/// Lookups ignore case and nothing else: two names without spaces have the
/// same 8.3 form exactly if they are the same in capitals.
pub proof fn law_forms_tell_names_apart(a: Seq<u8>, b: Seq<u8>, dot_a: int, dot_b: int)
    requires
        fits_8_3(a, dot_a),
        fits_8_3(b, dot_b),
        !a.contains(' ' as u8),
        !b.contains(' ' as u8),
    ensures
        form_8_3(a, dot_a) == form_8_3(b, dot_b) <==> capitals(a) == capitals(b),
{
    let fa = form_8_3(a, dot_a);
    let fb = form_8_3(b, dot_b);
    assert forall|i: int| 0 <= i < a.len() implies a[i] != 0x20 by {
        assert(a.contains(a[i]));
    }
    assert forall|i: int| 0 <= i < b.len() implies b[i] != 0x20 by {
        assert(b.contains(b[i]));
    }
    if fa == fb {
        if dot_a < dot_b {
            assert(fa[dot_a] == 0x20 && fb[dot_a] == upper(b[dot_a]));
        }
        if dot_b < dot_a {
            assert(fb[dot_b] == 0x20 && fa[dot_b] == upper(a[dot_b]));
        }
        let (na, nb) = (a.len() - dot_a - 1, b.len() - dot_b - 1);
        if na < nb {
            assert(fa[8 + na] == 0x20 && fb[8 + na] == upper(b[dot_b + 1 + na]));
        }
        if nb < na {
            assert(fb[8 + nb] == 0x20 && fa[8 + nb] == upper(a[dot_a + 1 + nb]));
        }
        assert forall|i: int| 0 <= i < a.len() implies capitals(a)[i] == capitals(b)[i] by {
            if i < dot_a {
                assert(fa[i] == upper(a[i]) && fb[i] == upper(b[i]));
            } else if i > dot_a {
                let j = 8 + (i - dot_a - 1);
                assert(fa[j] == upper(a[i]) && fb[j] == upper(b[i]));
            }
        }
        assert(capitals(a) =~= capitals(b));
    }
    if capitals(a) == capitals(b) {
        assert(a.len() == capitals(a).len() && b.len() == capitals(b).len());
        assert forall|i: int| 0 <= i < a.len() implies upper(#[trigger] a[i]) == upper(b[i]) by {
            assert(capitals(a)[i] == upper(a[i]));
            assert(capitals(b)[i] == upper(b[i]));
        }
        if dot_a < dot_b {
            assert(upper(a[dot_a]) == upper(b[dot_a]));
        }
        if dot_b < dot_a {
            assert(upper(a[dot_b]) == upper(b[dot_b]));
        }
        assert(fa =~= fb);
    }
}

/// Only names with a dot, at most eight bytes before the first one and at most
/// three behind it have an 8.3 form.
pub proof fn law_only_short_names_have_a_form(name: Seq<u8>, dot: int)
    requires
        fits_8_3(name, dot),
    ensures
        ({
            let (base, extension) = (name.take(dot), name.skip(dot + 1));
            &&& name == base + seq!['.' as u8] + extension
            &&& !base.contains('.' as u8)
            &&& base.len() <= 8
            &&& extension.len() <= 3
        }),
{
    let (base, extension) = (name.take(dot), name.skip(dot + 1));
    assert(name =~= base + seq!['.' as u8] + extension);
    if base.contains('.' as u8) {
        let i = choose|i: int| 0 <= i < base.len() && base[i] == '.' as u8;
        assert(name[i] == base[i]);
    }
}

/// A name that marks an empty or a deleted entry is never found, whatever the
/// directory holds.
pub proof fn law_deleted_names_are_never_found(
    image: Seq<u8>,
    p: FatParams,
    name: Seq<u8>,
    from: int,
)
    requires
        p.valid(),
        is_image(image),
        name.len() == 11,
        name[0] == 0x00 || name[0] == 0xE5,
        0 <= from <= p.root_entry_count,
    ensures
        found_from(image, p, name, from) == Err::<FileRef, _>(FatError::FileNotFound),
    decreases p.root_entry_count - from,
{
    law_valid_geometry_stays_in_the_partition(p);
    if from < p.root_entry_count {
        let raw = image.subrange(entry_start(p, from), entry_start(p, from) + ENTRY_LEN);
        if raw.subrange(0, 11) == name {
            assert(raw[0] == raw.subrange(0, 11)[0]);
        }
        law_deleted_names_are_never_found(image, p, name, from + 1);
    }
}

} // verus!
