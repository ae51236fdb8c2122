//! E-paper panel bring-up and frames.
//!
//! The controller's OTP waveform is read back out of the LUT register once
//! ([`probe_lut`]): the panel does not change its temperature band during a
//! playthrough, so the one image serves every band. [`Panel::init`] detects
//! the controller variant from it and derives the fast waveform, and
//! [`Panel::show`] puts one plane per video frame on the panel.

use crate::ssd1675::display::{
    clear, refresh_ops, work_plane, Color, Command, Config, Display, Op, Plane,
    Refresh, Script, UpdateMode, DEFAULT_ACTIVE_TEMP_C10,
};
use crate::ssd1675::lut::{
    band_of, detect_variant_from_otp, frames, no_invert, patch_no_invert, scaled_lut, trailer,
    waveform_frames, DisplayVariant, LutTable, LUT_LEN,
};
use vstd::prelude::*;

verus! {

/// Panel geometry: 152 x 152 pixels.
pub const ROWS: u16 = 152;

pub const COLS: u8 = 152;

/// One 1bpp plane, `152 * 152 / 8` bytes.
pub const BUF_SIZE: usize = 2888;

/// A GPIO port.
#[derive(Debug, Clone, Copy, PartialEq, Eq, Structural)]
pub enum Port {
    Port0,
    Port1,
}

/// The number of a pin among those of both ports.
pub fn pin_nr(port: Port, pin: u8) -> (nr: u8)
    requires
        pin < 32,
    ensures
        nr == pin + (match port {
            Port::Port0 => 0int,
            Port::Port1 => 32,
        }),
        nr % 32 == pin,
        nr >= 32 <==> port is Port1,
{
    let port: u8 = match port {
        Port::Port0 => 0,
        Port::Port1 => 1,
    };
    port * 32 + pin
}

/// How often BUSY is looked at before the wait for it is given up.
pub const BUSY_POLLS: u8 = 100;

/// Pause between two looks at BUSY, in milliseconds.
pub const BUSY_POLL_MS: u64 = 10;

/// One step of the OTP probe.
#[derive(Debug, Clone, Copy, PartialEq, Eq, Structural)]
pub enum ProbeStep {
    /// Wait this many milliseconds.
    Wait(u64),
    /// Release the reset line.
    ReleaseReset,
    /// Pull chip select low.
    Select,
    /// Let chip select go high.
    Deselect,
    /// Send a command byte.
    Command(u8),
    /// Send a data byte.
    Data(u8),
    /// Wait for BUSY to go low.
    AwaitIdle,
    /// Turn the data line round and read the LUT.
    ReadLut,
    /// Turn the data line back, for the display to transmit.
    RestoreTransmit,
}

/// The probe: a hardware reset with a flat settling time (BUSY does not
/// reliably pulse during it), a soft reset, the analog and digital block
/// controls, the selection of the controller's own temperature sensor, the load
/// of the waveform for that temperature, and the readback.
pub open spec fn probe_steps() -> Seq<ProbeStep> {
    seq![
        ProbeStep::Wait(10),
        ProbeStep::ReleaseReset,
        ProbeStep::Wait(100),
        ProbeStep::Select,
        ProbeStep::Command(0x12),
        ProbeStep::Deselect,
        ProbeStep::AwaitIdle,
        ProbeStep::Select,
        ProbeStep::Command(0x74),
        ProbeStep::Data(0x54),
        ProbeStep::Command(0x7E),
        ProbeStep::Data(0x3B),
        ProbeStep::Deselect,
        ProbeStep::Select,
        ProbeStep::Command(0x18),
        ProbeStep::Data(0x80),
        ProbeStep::Command(0x22),
        ProbeStep::Data(0xB1),
        ProbeStep::Command(0x20),
        ProbeStep::Deselect,
        ProbeStep::AwaitIdle,
        ProbeStep::Select,
        ProbeStep::Command(0x33),
        ProbeStep::ReadLut,
        ProbeStep::Deselect,
        ProbeStep::RestoreTransmit,
    ]
}

/// Number of steps of the probe.
pub const PROBE_STEPS: usize = 26;

fn probe_step(at: usize) -> (step: ProbeStep)
    requires
        at < PROBE_STEPS,
    ensures
        step == probe_steps()[at as int],
{
    let steps: [ProbeStep; PROBE_STEPS] = [
        ProbeStep::Wait(10),
        ProbeStep::ReleaseReset,
        ProbeStep::Wait(100),
        // Soft reset puts the chip in a known state.
        ProbeStep::Select,
        ProbeStep::Command(0x12),
        ProbeStep::Deselect,
        ProbeStep::AwaitIdle,
        // Analog and digital block control: without these, the OTP zone reload
        // does not execute.
        ProbeStep::Select,
        ProbeStep::Command(0x74),
        ProbeStep::Data(0x54),
        ProbeStep::Command(0x7E),
        ProbeStep::Data(0x3B),
        ProbeStep::Deselect,
        // Select the internal temperature sensor, load temperature and LUT, and
        // activate.
        ProbeStep::Select,
        ProbeStep::Command(0x18),
        ProbeStep::Data(0x80),
        ProbeStep::Command(0x22),
        ProbeStep::Data(0xB1),
        ProbeStep::Command(0x20),
        ProbeStep::Deselect,
        ProbeStep::AwaitIdle,
        // Read the LUT register.
        ProbeStep::Select,
        ProbeStep::Command(0x33),
        ProbeStep::ReadLut,
        ProbeStep::Deselect,
        ProbeStep::RestoreTransmit,
    ];
    assert(steps@ =~= probe_steps());
    steps[at]
}

/// The probe of the OTP waveform, in progress.
#[derive(Debug, Clone, Copy)]
pub struct Probe {
    /// The step that is due.
    pub at: usize,
    /// How often BUSY was found high during this step.
    pub polls: u8,
}

impl Probe {
    pub open spec fn wf(&self) -> bool {
        &&& self.at <= PROBE_STEPS
        &&& self.polls < BUSY_POLLS
        &&& self.polls > 0 ==> self.at < PROBE_STEPS && probe_steps()[self.at as int] is AwaitIdle
    }

    /// Steps and looks at BUSY that the probe needs at most from here on. Each
    /// one uses some of them up, so the probe ends whatever the controller does.
    pub open spec fn budget(&self) -> int {
        (PROBE_STEPS - self.at) * BUSY_POLLS - self.polls
    }

    /// The step that is due, `None` when the probe is complete.
    pub fn step(&self) -> (step: Option<ProbeStep>)
        requires
            self.wf(),
        ensures
            step == (if self.at < PROBE_STEPS {
                Some(probe_steps()[self.at as int])
            } else {
                None
            }),
    {
        if self.at < PROBE_STEPS {
            Some(probe_step(self.at))
        } else {
            None
        }
    }

    /// The step is done. A transfer that the bus fails counts as done too: what
    /// was read then decides.
    pub fn done(&mut self)
        requires
            old(self).wf(),
            old(self).at < PROBE_STEPS,
            !(probe_steps()[old(self).at as int] is AwaitIdle),
        ensures
            final(self).wf(),
            final(self).at == old(self).at + 1,
            final(self).polls == 0,
            0 <= final(self).budget() < old(self).budget(),
    {
        self.at = self.at + 1;
    }

    /// BUSY has been looked at. Returns whether to pause before going on. A
    /// controller that stays busy too long is not waited for any more.
    pub fn looked(&mut self, busy: bool) -> (pause: bool)
        requires
            old(self).wf(),
            old(self).at < PROBE_STEPS,
            probe_steps()[old(self).at as int] is AwaitIdle,
        ensures
            final(self).wf(),
            pause == busy,
            0 <= final(self).budget() < old(self).budget(),
            busy && old(self).polls + 1 < BUSY_POLLS ==> {
                &&& final(self).at == old(self).at
                &&& final(self).polls == old(self).polls + 1
            },
            !busy || old(self).polls + 1 == BUSY_POLLS ==> {
                &&& final(self).at == old(self).at + 1
                &&& final(self).polls == 0
            },
    {
        if busy && self.polls + 1 < BUSY_POLLS {
            self.polls = self.polls + 1;
        } else {
            self.at = self.at + 1;
            self.polls = 0;
        }
        busy
    }
}

/// Starts reading back the OTP waveform.
pub fn probe_lut() -> (probe: Probe)
    ensures
        probe.wf(),
        probe.at == 0,
        probe.polls == 0,
{
    Probe { at: 0, polls: 0 }
}

/// The e-paper panel, ready to be fed video frames.
pub struct Panel {
    pub display: Display,
    /// The planes that are drawn into.
    pub black: [u8; BUF_SIZE],
    pub red: [u8; BUF_SIZE],
    pub work: [u8; BUF_SIZE],
    /// Waveform frames in the fast (inversion-stripped) LUT. Zero means it
    /// drives nothing and `show` must use the full waveform instead.
    pub fast_frames: u32,
}

/// The variant that a probed waveform belongs to.
pub open spec fn variant_of(otp: Seq<u8>) -> DisplayVariant {
    if otp[7] == 0 && otp[8] == 0 && otp[9] == 0 {
        DisplayVariant::Ssd1675B
    } else {
        DisplayVariant::Ssd1675
    }
}

/// Whether every band of a table holds the same image.
pub open spec fn uniform(table: Option<LutTable>, image: Seq<u8>) -> bool {
    table matches Some(t) && forall|b: int| 0 <= b < 16 ==> #[trigger] t.bands@[b]@ == image
}

impl Panel {
    /// A panel that was set up from a probed waveform.
    pub open spec fn set_up(&self, otp: Seq<u8>) -> bool {
        let variant = variant_of(otp);
        &&& otp.len() == LUT_LEN
        &&& self.display.wf()
        &&& self.display.config.rows == ROWS
        &&& self.display.config.cols == COLS
        &&& self.display.variant == variant
        &&& uniform(self.display.lut_table, otp)
        &&& uniform(self.display.lut_table_no_invert, no_invert(otp, variant))
        &&& self.fast_frames == frames(no_invert(otp, variant), variant)
    }

    /// The waveform that a frame is shown with.
    pub open spec fn shown_lut(&self) -> Seq<u8> {
        if self.fast_frames == 0 {
            self.display.full_lut()
        } else {
            self.display.fast_lut()
        }
    }

    /// The planes that a frame is sent as, to the black/white and the red RAM.
    pub open spec fn shown_planes(&self) -> (Plane, Plane) {
        if self.fast_frames == 0 {
            (Plane::Work, Plane::Red)
        } else {
            (Plane::Frame, Plane::Zeros)
        }
    }

    /// Sets the panel up from its probed OTP waveform: registers it, and the
    /// fast one derived from it, for every temperature band. A reset has to
    /// follow.
    pub fn init(otp: &[u8; LUT_LEN], config: Config) -> (panel: Panel)
        requires
            config.wf(),
            config.rows == ROWS,
            config.cols == COLS,
        ensures
            panel.set_up(otp@),
            panel.display.config == config,
            !panel.display.activation_pending,
            panel.black@ == Seq::new(BUF_SIZE as nat, |i: int| 0u8),
            panel.red@ == Seq::new(BUF_SIZE as nat, |i: int| 0u8),
            panel.work@ == Seq::new(BUF_SIZE as nat, |i: int| 0u8),
            panel.display.active_temp_c10 == DEFAULT_ACTIVE_TEMP_C10,
    {
        let variant = detect_variant_from_otp(otp);
        let mut fast: [u8; LUT_LEN] = *otp;
        patch_no_invert(&mut fast, variant);
        let fast_frames: u32 = waveform_frames(&fast, variant);
        let mut display = Display::new(config);
        display.set_variant(variant);
        display.register_lut_tables(LutTable::replicate(otp), LutTable::replicate(&fast));
        let panel = Panel {
            display,
            black: [0u8;BUF_SIZE],
            red: [0u8;BUF_SIZE],
            work: [0u8;BUF_SIZE],
            fast_frames,
        };
        assert(panel.black@ =~= Seq::new(BUF_SIZE as nat, |i: int| 0u8));
        assert(panel.red@ =~= Seq::new(BUF_SIZE as nat, |i: int| 0u8));
        assert(panel.work@ =~= Seq::new(BUF_SIZE as nat, |i: int| 0u8));
        panel
    }

    /// A full refresh of the panel's own planes.
    fn update_tc(&mut self, speed: u8) -> (refresh: Refresh)
        requires
            old(self).display.registered(),
        ensures
            final(self).display == old(self).display,
            final(self).black@ == old(self).black@,
            final(self).red@ == old(self).red@,
            final(self).fast_frames == old(self).fast_frames,
            final(self).work@ == Seq::new(
                BUF_SIZE as nat,
                |i: int| old(self).black@[i] & !old(self).red@[i],
            ),
            refresh.script.wf(),
            refresh.script@ == refresh_ops(
                trailer(old(self).display.full_lut(), old(self).display.variant),
                Plane::Work,
                Plane::Red,
                old(self).display.config.plane_len() as usize,
                UpdateMode::Mode1,
            ),
            refresh.lut_len == old(self).display.variant.body_len(),
            refresh.sent_lut() == scaled_lut(
                old(self).display.full_lut().subrange(0, old(self).display.variant.body_len()),
                old(self).display.variant,
                speed,
            ),
    {
        work_plane(&self.black, &self.red, &mut self.work);
        self.display.update_tc(Plane::Work, Plane::Red, speed)
    }

    /// Puts one 1bpp black plane on the panel. `speed` is the LUT timing scale:
    /// 100 is the OEM duration, lower is faster.
    ///
    /// The refresh is a fast one without flashing. Where the fast waveform is
    /// empty it cannot draw anything, and the full one is used: a slow visible
    /// video beats a fast invisible one.
    pub fn show(&mut self, frame: &[u8; BUF_SIZE], speed: u8) -> (refresh: Refresh)
        requires
            old(self).display.registered(),
        ensures
            final(self).display == old(self).display,
            final(self).red@ == old(self).red@,
            final(self).fast_frames == old(self).fast_frames,
            refresh.script.wf(),
            refresh.script@ == refresh_ops(
                trailer(old(self).display.full_lut(), old(self).display.variant),
                if old(self).fast_frames == 0 {
                    Plane::Work
                } else {
                    Plane::Frame
                },
                if old(self).fast_frames == 0 {
                    Plane::Red
                } else {
                    Plane::Zeros
                },
                old(self).display.config.plane_len() as usize,
                UpdateMode::Mode1,
            ),
            refresh.lut_len == old(self).display.variant.body_len(),
            refresh.sent_lut() == scaled_lut(
                (if old(self).fast_frames == 0 {
                    old(self).display.full_lut()
                } else {
                    old(self).display.fast_lut()
                }).subrange(0, old(self).display.variant.body_len()),
                old(self).display.variant,
                speed,
            ),
            refresh.sent_lut() == scaled_lut(
                old(self).shown_lut().subrange(0, old(self).display.variant.body_len()),
                old(self).display.variant,
                speed,
            ),
            refresh.script@[10] == Op::SendBlack(
                old(self).shown_planes().0,
                old(self).display.config.plane_len() as usize,
            ),
            refresh.script@[13] == Op::SendRed(
                old(self).shown_planes().1,
                old(self).display.config.plane_len() as usize,
            ),
            old(self).fast_frames == 0 ==> {
                &&& final(self).black@ == frame@
                &&& final(self).work@ == Seq::new(
                    BUF_SIZE as nat,
                    |i: int| frame@[i] & !old(self).red@[i],
                )
            },
            old(self).fast_frames != 0 ==> {
                &&& final(self).black@ == old(self).black@
                &&& final(self).work@ == old(self).work@
            },
    {
        if self.fast_frames == 0 {
            self.black = *frame;
            return self.update_tc(speed);
        }
        self.display.update_bw(Plane::Frame, Plane::Zeros, UpdateMode::Mode1, speed)
    }

    /// Full flashing refresh to clean white, after a reset. The inversion
    /// phases of the full waveform are what clears accumulated ghosting.
    pub fn clear_white(&mut self) -> (ops: (Script, Refresh))
        requires
            old(self).display.registered(),
            old(self).display.wf(),
        ensures
            final(self).display == old(self).display,
            final(self).fast_frames == old(self).fast_frames,
            final(self).black@ == Seq::new(BUF_SIZE as nat, |i: int| 0xFFu8),
            final(self).red@ == Seq::new(BUF_SIZE as nat, |i: int| 0x00u8),
            final(self).work@ == Seq::new(BUF_SIZE as nat, |i: int| 0xFFu8),
            ops.0.wf(),
            ops.0@ == old(self).display.reset_ops(),
            ops.1.script.wf(),
            ops.1.script@ == refresh_ops(
                trailer(old(self).display.full_lut(), old(self).display.variant),
                Plane::Work,
                Plane::Red,
                old(self).display.config.plane_len() as usize,
                UpdateMode::Mode1,
            ),
            ops.1.lut_len == old(self).display.variant.body_len(),
            ops.1.sent_lut() == old(self).display.full_lut().subrange(
                0,
                old(self).display.variant.body_len(),
            ),
    {
        clear(&mut self.black, &mut self.red, Color::White);
        let reset = self.display.reset();
        let speed: u8 = self.display.variant.default_lut_speed();
        let refresh = self.update_tc(speed);
        proof {
            crate::ssd1675::lut::law_scale_100_is_the_oem_timing(
                self.display.full_lut().subrange(0, self.display.variant.body_len()),
                self.display.variant,
            );
            assert(0xFFu8 & !0x00u8 == 0xFFu8) by (bit_vector);
            assert(self.work@ =~= Seq::new(BUF_SIZE as nat, |i: int| 0xFFu8));
        }
        (reset, refresh)
    }

    /// Puts the controller into deep sleep (RAM preserved). Any later refresh
    /// must be preceded by a reset.
    pub fn sleep(&self) -> (script: Script)
        ensures
            script.wf(),
            script@ == seq![Op::Send(Command::DeepSleep)],
    {
        self.display.deep_sleep()
    }
}

/// One probe serves every temperature: a panel that was set up from it selects
/// the same waveforms in every band.
pub proof fn law_one_probe_serves_every_band(panel: Panel, otp: Seq<u8>)
    requires
        panel.set_up(otp),
    ensures
        panel.display.registered(),
        panel.display.full_lut() == otp,
        panel.display.fast_lut() == no_invert(otp, variant_of(otp)),
{
    let b = band_of(panel.display.active_temp_c10 as int);
    assert(panel.display.lut_table->0.bands@[b]@ == otp);
    assert(panel.display.lut_table_no_invert->0.bands@[b]@ == no_invert(otp, variant_of(otp)));
}

/// A frame goes out whole: the planes that a refresh sends are exactly as long
/// as the frame buffer.
pub proof fn law_a_refresh_sends_the_whole_frame(panel: Panel, otp: Seq<u8>)
    requires
        panel.set_up(otp),
    ensures
        panel.display.config.plane_len() == BUF_SIZE,
        BUF_SIZE == crate::video::FRAME_BYTES,
{
}

/// No video is invisible: whatever waveform was probed, a frame is shown with
/// one that drives the panel, unless the panel has none at all.
pub proof fn law_a_frame_is_shown_with_a_waveform_that_drives(panel: Panel, otp: Seq<u8>)
    requires
        panel.set_up(otp),
        frames(otp, variant_of(otp)) > 0,
    ensures
        frames(
            if panel.fast_frames == 0 {
                panel.display.full_lut()
            } else {
                panel.display.fast_lut()
            },
            panel.display.variant,
        ) > 0,
{
    law_one_probe_serves_every_band(panel, otp);
}

/// The row layout decides: an image is one of a B variant exactly if bytes 7 to
/// 9 read back as zero.
pub proof fn law_the_row_layout_decides(otp: Seq<u8>)
    requires
        otp.len() == LUT_LEN,
    ensures
        variant_of(otp) is Ssd1675B <==> otp.subrange(7, 10) == seq![0u8, 0, 0],
{
    let row = otp.subrange(7, 10);
    assert(row[0] == otp[7] && row[1] == otp[8] && row[2] == otp[9]);
    if otp[7] == 0 && otp[8] == 0 && otp[9] == 0 {
        assert(row =~= seq![0u8, 0, 0]);
    }
}

/// Whether chip select is low after the first `n` steps of the probe.
pub open spec fn selected(n: int) -> bool
    decreases n,
{
    if n <= 0 {
        false
    } else {
        match probe_steps()[n - 1] {
            ProbeStep::Select => true,
            ProbeStep::Deselect => false,
            _ => selected(n - 1),
        }
    }
}

/// The probe keeps to the bus: bytes go over it only while the chip is selected,
/// it is selected and deselected in turn, the controller is waited for only
/// while it is not, and in the end it is not.
pub proof fn law_the_probe_keeps_to_the_bus(n: int)
    requires
        0 <= n < probe_steps().len(),
    ensures
        match probe_steps()[n] {
            ProbeStep::Command(_) | ProbeStep::Data(_) | ProbeStep::ReadLut => selected(n),
            ProbeStep::Deselect => selected(n),
            ProbeStep::Select | ProbeStep::AwaitIdle => !selected(n),
            ProbeStep::Wait(_) | ProbeStep::ReleaseReset | ProbeStep::RestoreTransmit => !selected(
                n,
            ),
        },
        !selected(probe_steps().len() as int),
{
    reveal_with_fuel(selected, 28);
}

/// The command and data bytes of the probe from step `n` on, each with whether
/// it is a command.
pub open spec fn probe_bytes(n: int) -> Seq<(bool, u8)>
    decreases 26 - n,
{
    if n >= 26 {
        Seq::empty()
    } else {
        (match probe_steps()[n] {
            ProbeStep::Command(b) => seq![(true, b)],
            ProbeStep::Data(b) => seq![(false, b)],
            _ => Seq::empty(),
        }) + probe_bytes(n + 1)
    }
}

/// What the probe tells the controller: a soft reset, both block controls, the
/// internal temperature sensor, an activation that loads temperature and LUT
/// but drives nothing, and to read the LUT register.
pub proof fn law_the_probe_loads_the_waveform()
    ensures
        probe_bytes(0) == seq![
            (true, 0x12u8),
            (true, 0x74u8),
            (false, 0x54u8),
            (true, 0x7Eu8),
            (false, 0x3Bu8),
            (true, 0x18u8),
            (false, 0x80u8),
            (true, 0x22u8),
            (false, 0xB1u8),
            (true, 0x20u8),
            (true, 0x33u8),
        ],
        0xB1u8 & 0x20 != 0 && 0xB1u8 & 0x10 != 0 && 0xB1u8 & 0x04 == 0,
        probe_steps().len() == 26,
{
    reveal_with_fuel(probe_bytes, 28);
    assert(0xB1u8 & 0x20 != 0 && 0xB1u8 & 0x10 != 0 && 0xB1u8 & 0x04 == 0) by (bit_vector);
    assert(probe_bytes(0) =~= seq![
        (true, 0x12u8),
        (true, 0x74u8),
        (false, 0x54u8),
        (true, 0x7Eu8),
        (false, 0x3Bu8),
        (true, 0x18u8),
        (false, 0x80u8),
        (true, 0x22u8),
        (false, 0xB1u8),
        (true, 0x20u8),
        (true, 0x33u8),
    ]);
}

/// The controller is waited for whenever it works: between the reset, the
/// activation and the next command there is a wait, the reset line is released
/// between two pauses, and the readback follows its command at once.
pub proof fn law_the_probe_waits_for_the_controller(n: int)
    requires
        0 <= n < probe_steps().len(),
    ensures
        probe_steps()[n] == ProbeStep::Command(0x12) || probe_steps()[n] == ProbeStep::Command(0x20)
            ==> probe_steps()[n + 1] is Deselect && probe_steps()[n + 2] is AwaitIdle,
        probe_steps()[n] is ReleaseReset ==> n == 1 && probe_steps()[0] == ProbeStep::Wait(10)
            && probe_steps()[2] == ProbeStep::Wait(100),
        probe_steps()[n] is ReadLut ==> probe_steps()[n - 1] == ProbeStep::Command(0x33),
        probe_steps()[n] is RestoreTransmit <==> n == 25,
{
}

/// A frame is shown without flashing wherever that can be: with the probed
/// waveform without its inversion, sent from the frame alone, if that one drives
/// the panel at all, and else with the probed waveform as it is.
pub proof fn law_a_frame_flashes_only_where_it_has_to(panel: Panel, otp: Seq<u8>)
    requires
        panel.set_up(otp),
    ensures
        frames(no_invert(otp, variant_of(otp)), variant_of(otp)) > 0 ==> panel.shown_lut()
            == no_invert(otp, variant_of(otp)) && panel.shown_planes() == (
            Plane::Frame,
            Plane::Zeros,
        ),
        frames(no_invert(otp, variant_of(otp)), variant_of(otp)) == 0 ==> panel.shown_lut() == otp
            && panel.shown_planes() == (Plane::Work, Plane::Red),
        variant_of(otp) is Ssd1675 ==> panel.shown_lut() == no_invert(
            otp,
            DisplayVariant::Ssd1675,
        ),
{
    law_one_probe_serves_every_band(panel, otp);
    if variant_of(otp) is Ssd1675 {
        crate::ssd1675::lut::law_the_fast_waveform_drives_an_ssd1675(otp);
    }
}

} // verus!
