//! Minimal **read-only** FAT12 reader for the external flash volume.
//!
//! Two operations, which is all the player needs: look a file up by its 8.3
//! name, and read an arbitrary byte range out of it. Nothing here writes,
//! erases or formats.
//!
//! # On-disk layout
//!
//! ```text
//!   +------------------+  sector 0
//!   |   Boot sector    |  sector size, cluster size, FAT count, root entry
//!   |                  |  count, etc.
//!   +------------------+  sector 1  (= reserved_sectors)
//!   |   FAT #1         |  linked list of cluster chains, 12 bits per entry
//!   +------------------+
//!   |   FAT #2         |  backup copy, never read
//!   +------------------+
//!   |  Root directory  |  fixed-size array of 32-byte entries
//!   +------------------+
//!   |   Data region    |  file contents; cluster 2 is the first one
//!   +------------------+
//! ```
//!
//! # Driving the reader
//!
//! The reader decides and never waits: each operation is a value that names the
//! next flash access, and takes the bytes that came back. The caller performs
//! the access. [`geometry`] holds the boot sector, [`chain`] the cluster chain,
//! [`directory`] the lookup by name and [`file`] the random-access read.

pub mod chain;
pub mod directory;
pub mod file;
pub mod geometry;

pub use chain::{SeekHint, SeekTable};
pub use directory::{find_file, to_8_3, DirScan, Scan};
pub use file::{read_at, ReadAt, Stage, Step};
pub use geometry::{FatError, FatParams, FileRef, ParamCache};
