//! SSD1675 e-paper display driver.
//!
//! The driver prepares waveforms ([`lut`]) and turns a refresh into a sequence
//! of bus operations ([`display`]), which the bus then performs one by one.

pub mod display;
pub mod lut;

pub use display::{
    clear, work_plane, Color, Command, Config, Display, Encoded, Op, Plane, Refresh, Script, UpdateMode,
};
pub use lut::{
    detect_variant_from_otp, patch_no_invert, scale_lut_into, waveform_frames, DisplayVariant,
    LutTable, VoltageProfile, LUT_LEN, LUT_TABLE_MIN_C, LUT_TABLE_SIZE, LUT_TABLE_STEP_C10,
};
