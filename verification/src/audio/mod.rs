//! ADPCM playback by modulating a PWM duty cycle, and the clock everything
//! else follows.
//!
//! The counter top and the hold count are set so that one sample period is a
//! whole number of PWM periods ([`carrier`]), and each sample becomes a duty
//! value. The samples come out of the sound file a block at a time
//! ([`stream`]).
//!
//! Two buffers are played in turn; whenever one starts playing, the other is
//! idle and gets refilled ([`playback`]).
//!
//! Audio is the master clock. It is the one thing here that must not stutter:
//! a late video frame is invisible, a late sample is an audible click. The
//! video side reads [`samples_played`] and picks whichever frame matches,
//! skipping any it could not keep up with.

pub mod carrier;
pub mod playback;
pub mod stream;

pub use carrier::carrier_for;
pub use playback::{fill, finished, loops, samples_played, Action, Clock, Fill, Phase, Playback};
pub use stream::{Pull, Stream};
