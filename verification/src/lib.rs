//! Video on an e-paper badge, with sound.

pub mod adpcm;
pub mod asset;
pub mod audio;
pub mod bytes;
pub mod epd;
pub mod fat12;
pub mod flash;
pub mod player;
pub mod ssd1675;
pub mod usblog;
pub mod video;
