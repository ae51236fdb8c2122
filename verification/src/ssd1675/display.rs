//! Refreshes and resets as sequences of bus operations.
//!
//! An operation sequence ends early when the bus reports an error or when the
//! caller gives up on it. [`Display::begin`] and [`Display::complete`] record
//! how far it came, so that the next reset knows whether the panel may still
//! be running a waveform.

use super::lut::{
    band_of, scale_lut_into, scaled_lut, trailer, DisplayVariant, LutTable, VoltageProfile,
    LUT_LEN, LUT_TABLE_SIZE,
};
use vstd::prelude::*;

verus! {

/// Waveform update mode.
#[derive(Debug, Clone, Copy, PartialEq, Eq, Structural)]
pub enum UpdateMode {
    /// Mode 1: uses the LUT register directly, no OTP reload.
    Mode1,
    /// Mode 2, neither with an OTP reload.
    Mode2,
}

/// A controller command with its arguments.
#[derive(Debug, Clone, Copy, PartialEq, Eq, Structural)]
pub enum Command {
    SoftReset,
    AnalogBlockControl(u8),
    DigitalBlockControl(u8),
    GateDrivingVoltage(u8),
    SourceDrivingVoltage(u8, u8, u8),
    WriteVCOM(u8),
    DummyLinePeriod(u8),
    GateLineWidth(u8),
    DriverOutputControl(u16, u8),
    DataEntryMode(u8),
    BorderWaveform(u8),
    StartEndXPosition(u8, u8),
    StartEndYPosition(u16, u16),
    XAddress(u8),
    YAddress(u16),
    /// Selects the steps of the next activation: clock, analog, display in the
    /// given mode, and everything off again. Neither temperature nor LUT is
    /// reloaded, so the pushed LUT is used as it is.
    UpdateDisplayOption2(UpdateMode),
    /// Master activation.
    UpdateDisplay,
    /// Deep sleep that preserves the display RAM.
    DeepSleep,
}

/// A command as it goes over the bus: the command byte, then `len` data bytes.
#[derive(Debug, Clone, Copy)]
pub struct Encoded {
    pub opcode: u8,
    pub data: [u8; 4],
    pub len: usize,
}

/// The two bytes of a row number, the low one first.
pub open spec fn row_bytes(row: u16) -> Seq<u8> {
    seq![(row % 0x100) as u8, (row / 0x100) as u8]
}

impl Command {
    /// The command byte.
    pub open spec fn opcode(self) -> u8 {
        match self {
            Command::SoftReset => 0x12,
            Command::AnalogBlockControl(_) => 0x74,
            Command::DigitalBlockControl(_) => 0x7E,
            Command::GateDrivingVoltage(_) => 0x03,
            Command::SourceDrivingVoltage(_, _, _) => 0x04,
            Command::WriteVCOM(_) => 0x2C,
            Command::DummyLinePeriod(_) => 0x3A,
            Command::GateLineWidth(_) => 0x3B,
            Command::DriverOutputControl(_, _) => 0x01,
            Command::DataEntryMode(_) => 0x11,
            Command::BorderWaveform(_) => 0x3C,
            Command::StartEndXPosition(_, _) => 0x44,
            Command::StartEndYPosition(_, _) => 0x45,
            Command::XAddress(_) => 0x4E,
            Command::YAddress(_) => 0x4F,
            Command::UpdateDisplayOption2(_) => 0x22,
            Command::UpdateDisplay => 0x20,
            Command::DeepSleep => 0x10,
        }
    }

    /// The data bytes that follow it.
    pub open spec fn payload(self) -> Seq<u8> {
        match self {
            Command::SoftReset => Seq::empty(),
            Command::AnalogBlockControl(b) => seq![b],
            Command::DigitalBlockControl(b) => seq![b],
            Command::GateDrivingVoltage(b) => seq![b],
            Command::SourceDrivingVoltage(a, b, c) => seq![a, b, c],
            Command::WriteVCOM(b) => seq![b],
            Command::DummyLinePeriod(b) => seq![b],
            Command::GateLineWidth(b) => seq![b],
            Command::DriverOutputControl(rows, mode) => row_bytes(rows).push(mode),
            Command::DataEntryMode(b) => seq![b],
            Command::BorderWaveform(b) => seq![b],
            Command::StartEndXPosition(a, b) => seq![a, b],
            Command::StartEndYPosition(a, b) => row_bytes(a) + row_bytes(b),
            Command::XAddress(b) => seq![b],
            Command::YAddress(row) => row_bytes(row),
            Command::UpdateDisplayOption2(UpdateMode::Mode1) => seq![0xC7u8],
            Command::UpdateDisplayOption2(UpdateMode::Mode2) => seq![0xCFu8],
            Command::UpdateDisplay => Seq::empty(),
            Command::DeepSleep => seq![0x01u8],
        }
    }

    /// Encodes the command for the bus.
    pub fn encode(self) -> (e: Encoded)
        ensures
            e.opcode == self.opcode(),
            e.len == self.payload().len(),
            e.len <= 4,
            e.data@.subrange(0, e.len as int) == self.payload(),
    {
        let (opcode, data, len): (u8, [u8; 4], usize) = match self {
            Command::SoftReset => (0x12, [0, 0, 0, 0], 0),
            Command::AnalogBlockControl(b) => (0x74, [b, 0, 0, 0], 1),
            Command::DigitalBlockControl(b) => (0x7E, [b, 0, 0, 0], 1),
            Command::GateDrivingVoltage(b) => (0x03, [b, 0, 0, 0], 1),
            Command::SourceDrivingVoltage(a, b, c) => (0x04, [a, b, c, 0], 3),
            Command::WriteVCOM(b) => (0x2C, [b, 0, 0, 0], 1),
            Command::DummyLinePeriod(b) => (0x3A, [b, 0, 0, 0], 1),
            Command::GateLineWidth(b) => (0x3B, [b, 0, 0, 0], 1),
            Command::DriverOutputControl(rows, mode) => (
                0x01,
                [(rows % 0x100) as u8, (rows / 0x100) as u8, mode, 0],
                3,
            ),
            Command::DataEntryMode(b) => (0x11, [b, 0, 0, 0], 1),
            Command::BorderWaveform(b) => (0x3C, [b, 0, 0, 0], 1),
            Command::StartEndXPosition(a, b) => (0x44, [a, b, 0, 0], 2),
            Command::StartEndYPosition(a, b) => (
                0x45,
                [
                    (a % 0x100) as u8,
                    (a / 0x100) as u8,
                    (b % 0x100) as u8,
                    (b / 0x100) as u8,
                ],
                4,
            ),
            Command::XAddress(b) => (0x4E, [b, 0, 0, 0], 1),
            Command::YAddress(row) => (
                0x4F,
                [(row % 0x100) as u8, (row / 0x100) as u8, 0, 0],
                2,
            ),
            Command::UpdateDisplayOption2(UpdateMode::Mode1) => (0x22, [0xC7, 0, 0, 0], 1),
            Command::UpdateDisplayOption2(UpdateMode::Mode2) => (0x22, [0xCF, 0, 0, 0], 1),
            Command::UpdateDisplay => (0x20, [0, 0, 0, 0], 0),
            Command::DeepSleep => (0x10, [0x01, 0, 0, 0], 1),
        };
        assert(data@.subrange(0, len as int) =~= self.payload());
        Encoded { opcode, data, len }
    }
}

/// The command that writes the LUT register.
pub const WRITE_LUT: u8 = 0x32;

/// The command that writes the black/white RAM.
pub const WRITE_BLACK_DATA: u8 = 0x24;

/// The command that writes the red RAM.
pub const WRITE_RED_DATA: u8 = 0x26;

/// A buffer that a plane is sent from.
#[derive(Debug, Clone, Copy, PartialEq, Eq, Structural)]
pub enum Plane {
    /// The frame that the caller handed over.
    Frame,
    /// The black plane with the red pixels taken out.
    Work,
    /// The red plane.
    Red,
    /// A plane of zeros.
    Zeros,
}

/// One operation on the bus.
#[derive(Debug, Clone, Copy, PartialEq, Eq, Structural)]
pub enum Op {
    /// Pulse the reset line.
    HardReset,
    /// Wait, with a bound, for the controller to be idle.
    AwaitIdle,
    /// Wait, with a bound, for an activation to begin and to end.
    AwaitCompletion,
    Send(Command),
    /// Send the LUT of the refresh.
    SendLut,
    /// Send this many bytes of a plane to the black/white RAM.
    SendBlack(Plane, usize),
    /// Send this many bytes of a plane to the red RAM.
    SendRed(Plane, usize),
}

/// Room for the operations of one sequence.
pub const MAX_OPS: usize = 24;

/// A sequence of operations.
#[derive(Debug, Clone, Copy)]
pub struct Script {
    ops: [Op; MAX_OPS],
    len: usize,
    at: usize,
}

impl Script {
    pub closed spec fn wf(&self) -> bool {
        self.at <= self.len <= MAX_OPS
    }

    /// The operations that are still to be performed.
    pub closed spec fn view(&self) -> Seq<Op> {
        self.ops@.subrange(self.at as int, self.len as int)
    }

    fn new() -> (script: Self)
        ensures
            script.wf(),
            script@ == Seq::<Op>::empty(),
            script.room() == MAX_OPS,
    {
        let script = Script { ops: [Op::AwaitIdle;MAX_OPS], len: 0, at: 0 };
        assert(script@ =~= Seq::<Op>::empty());
        script
    }

    /// How many more operations there is room for.
    closed spec fn room(&self) -> int {
        MAX_OPS - self.len
    }

    fn push(&mut self, op: Op)
        requires
            old(self).wf(),
            old(self).room() > 0,
        ensures
            final(self).wf(),
            final(self)@ == old(self)@.push(op),
            final(self).room() == old(self).room() - 1,
    {
        let ghost before = *self;
        self.ops[self.len] = op;
        self.len = self.len + 1;
        assert(self@ =~= before@.push(op));
    }

    /// Takes the next operation off the sequence.
    pub fn next(&mut self) -> (op: Option<Op>)
        requires
            old(self).wf(),
        ensures
            final(self).wf(),
            op == (if old(self)@.len() > 0 {
                Some(old(self)@[0])
            } else {
                None
            }),
            final(self)@ == (if old(self)@.len() > 0 {
                old(self)@.skip(1)
            } else {
                old(self)@
            }),
    {
        if self.at >= self.len {
            return None;
        }
        let ghost before = *self;
        let op: Op = self.ops[self.at];
        self.at = self.at + 1;
        assert(self@ =~= before@.skip(1));
        Some(op)
    }
}

/// What depends on the panel behind the controller.
#[derive(Debug, Clone, Copy, PartialEq, Eq, Structural)]
pub struct Config {
    /// The number of rows the display has.
    pub rows: u16,
    /// The number of columns the display has.
    pub cols: u8,
    pub dummy_line_period: Command,
    pub gate_line_width: Command,
    pub write_vcom: Option<Command>,
    pub data_entry_mode: Command,
}

impl Config {
    pub open spec fn wf(&self) -> bool {
        &&& self.rows >= 1
        &&& self.cols >= 8
        &&& self.dummy_line_period is DummyLinePeriod
        &&& self.gate_line_width is GateLineWidth
        &&& self.write_vcom matches Some(c) ==> c is WriteVCOM
        &&& self.data_entry_mode is DataEntryMode
    }

    /// Bytes of one plane, a last one in part.
    pub open spec fn plane_len(&self) -> int {
        (self.rows * self.cols + 7) / 8
    }
}

/// Temperature in tenths of a degree that a display starts with: typical indoor
/// ambient.
pub const DEFAULT_ACTIVE_TEMP_C10: i16 = 200;

/// A configured display.
#[derive(Debug, Clone, Copy)]
pub struct Display {
    pub config: Config,
    /// The full OTP waveforms, inversion phases intact.
    pub lut_table: Option<LutTable>,
    /// The same without inversion phases, for flicker-free fast refreshes.
    pub lut_table_no_invert: Option<LutTable>,
    /// Ambient temperature in tenths of a degree.
    pub active_temp_c10: i16,
    pub variant: DisplayVariant,
    /// True between a master activation and its observed completion, i.e.
    /// while the panel *may* be running a waveform whose completion this host
    /// has not yet seen.
    pub activation_pending: bool,
}

/// A refresh: its operations, and the LUT that they send.
#[derive(Debug, Clone, Copy)]
pub struct Refresh {
    pub script: Script,
    pub lut: [u8; LUT_LEN],
    pub lut_len: usize,
}

impl Refresh {
    /// The LUT that the refresh sends.
    pub open spec fn sent_lut(&self) -> Seq<u8> {
        self.lut@.subrange(0, self.lut_len as int)
    }
}

/// The operations that set a voltage profile.
pub open spec fn trailer_ops(v: VoltageProfile) -> Seq<Op> {
    seq![
        Op::Send(Command::GateDrivingVoltage(v.vgh)),
        Op::Send(Command::SourceDrivingVoltage(v.vsh1, v.vsh2, v.vsl)),
        Op::Send(Command::WriteVCOM(v.vcom)),
        Op::Send(Command::DummyLinePeriod(v.dummy)),
        Op::Send(Command::GateLineWidth(v.gate)),
    ]
}

/// The operations that send both planes.
pub open spec fn plane_ops(black: Plane, red: Plane, len: usize) -> Seq<Op> {
    seq![
        Op::AwaitIdle,
        Op::Send(Command::BorderWaveform(0x80)),
        Op::Send(Command::XAddress(0)),
        Op::Send(Command::YAddress(0)),
        Op::SendBlack(black, len),
        Op::Send(Command::XAddress(0)),
        Op::Send(Command::YAddress(0)),
        Op::SendRed(red, len),
    ]
}

/// The operations of a refresh: the LUT, its voltages, both planes, and the
/// activation.
pub open spec fn refresh_ops(
    v: VoltageProfile,
    black: Plane,
    red: Plane,
    len: usize,
    mode: UpdateMode,
) -> Seq<Op> {
    seq![Op::SendLut] + trailer_ops(v) + plane_ops(black, red, len) + seq![
        Op::Send(Command::UpdateDisplayOption2(mode)),
        Op::Send(Command::UpdateDisplay),
        Op::AwaitCompletion,
    ]
}

impl Display {
    pub open spec fn wf(&self) -> bool {
        self.config.wf()
    }

    /// Whether both LUT tables are registered: without them there is no
    /// waveform to refresh with.
    pub open spec fn registered(&self) -> bool {
        self.lut_table is Some && self.lut_table_no_invert is Some
    }

    /// The full waveform for the current temperature.
    pub open spec fn full_lut(&self) -> Seq<u8> {
        self.lut_table->0.bands@[band_of(self.active_temp_c10 as int)]@
    }

    /// The waveform without inversion phases for the current temperature.
    pub open spec fn fast_lut(&self) -> Seq<u8> {
        self.lut_table_no_invert->0.bands@[band_of(self.active_temp_c10 as int)]@
    }

    /// The driving voltage that brings the analog rail up: the one of the middle
    /// temperature band.
    pub open spec fn bootstrap_vgh(&self) -> u8 {
        match self.lut_table {
            Some(table) => table.bands@[LUT_TABLE_SIZE as int / 2]@[100],
            None => 0x0E,
        }
    }

    /// The operations that set up the controller's drivers. The B variant does
    /// not drive the panel before it has a gate voltage.
    pub open spec fn driver_ops(&self) -> Seq<Op> {
        seq![
            Op::Send(Command::AnalogBlockControl(0x54)),
            Op::Send(Command::DigitalBlockControl(0x3B)),
        ] + (if self.variant is Ssd1675B {
            seq![Op::Send(Command::GateDrivingVoltage(self.bootstrap_vgh()))]
        } else {
            Seq::empty()
        }) + seq![
            Op::Send(Command::DriverOutputControl((self.config.rows - 1) as u16, 0x00)),
            Op::Send(self.config.dummy_line_period),
            Op::Send(self.config.gate_line_width),
        ] + (match self.config.write_vcom {
            Some(write_vcom) => seq![Op::Send(write_vcom)],
            None => Seq::empty(),
        })
    }

    /// The operations that set up the RAM window.
    pub open spec fn window_ops(&self) -> Seq<Op> {
        seq![
            Op::Send(self.config.data_entry_mode),
            Op::Send(Command::BorderWaveform(0x05)),
            Op::Send(Command::StartEndXPosition(0, (self.config.cols / 8 - 1) as u8)),
            Op::Send(Command::StartEndYPosition(0, (self.config.rows - 1) as u16)),
            Op::Send(Command::XAddress(0x00)),
            Op::Send(Command::YAddress(0x00)),
        ]
    }

    /// The operations of a reset. Aborting a waveform leaves the picture of a
    /// B variant inverted, so there it is waited out first.
    pub open spec fn reset_ops(&self) -> Seq<Op> {
        (if self.activation_pending && self.variant is Ssd1675B {
            seq![Op::AwaitIdle]
        } else {
            Seq::empty()
        }) + seq![Op::HardReset, Op::Send(Command::SoftReset), Op::AwaitIdle] + self.driver_ops()
            + self.window_ops()
    }

    pub fn new(config: Config) -> (display: Self)
        requires
            config.wf(),
        ensures
            display.wf(),
            display.config == config,
            display.lut_table is None,
            display.lut_table_no_invert is None,
            display.active_temp_c10 == DEFAULT_ACTIVE_TEMP_C10,
            display.variant is Ssd1675B,
            !display.activation_pending,
    {
        Display {
            config,
            lut_table: None,
            lut_table_no_invert: None,
            active_temp_c10: DEFAULT_ACTIVE_TEMP_C10,
            variant: DisplayVariant::Ssd1675B,
            activation_pending: false,
        }
    }

    /// Registers the LUT tables: the full waveforms, and those without
    /// inversion phases.
    pub fn register_lut_tables(&mut self, full: LutTable, no_invert: LutTable)
        ensures
            *final(self) == (Display {
                lut_table: Some(full),
                lut_table_no_invert: Some(no_invert),
                ..*old(self)
            }),
    {
        self.lut_table = Some(full);
        self.lut_table_no_invert = Some(no_invert);
    }

    /// Sets the controller variant. Call before a reset or refresh.
    pub fn set_variant(&mut self, variant: DisplayVariant)
        ensures
            *final(self) == (Display { variant, ..*old(self) }),
    {
        self.variant = variant;
    }

    /// Sets the ambient temperature in tenths of a degree that selects the
    /// waveform of the next refresh.
    pub fn set_active_temperature(&mut self, c10: i16)
        ensures
            *final(self) == (Display { active_temp_c10: c10, ..*old(self) }),
    {
        self.active_temp_c10 = c10;
    }

    /// Whether a waveform may be running after an operation has begun.
    pub open spec fn pending_in(pending: bool, op: Op) -> bool {
        pending && !(op is HardReset)
    }

    /// Whether a waveform may be running after an operation has succeeded.
    pub open spec fn pending_after(pending: bool, op: Op) -> bool {
        if op == Op::Send(Command::UpdateDisplay) {
            true
        } else if op is AwaitCompletion {
            false
        } else {
            pending
        }
    }

    /// An operation is about to be performed.
    pub fn begin(&mut self, op: Op)
        ensures
            *final(self) == (Display {
                activation_pending: Display::pending_in(old(self).activation_pending, op),
                ..*old(self)
            }),
    {
        if let Op::HardReset = op {
            self.activation_pending = false;
        }
    }

    /// An operation has succeeded. The activation counts as pending only once
    /// its command has left the bus: before that nothing is running.
    pub fn complete(&mut self, op: Op)
        ensures
            *final(self) == (Display {
                activation_pending: Display::pending_after(old(self).activation_pending, op),
                ..*old(self)
            }),
    {
        match op {
            Op::Send(Command::UpdateDisplay) => {
                self.activation_pending = true;
            },
            Op::AwaitCompletion => {
                self.activation_pending = false;
            },
            _ => {},
        }
    }

    /// A hardware reset followed by software reset and initialisation.
    pub fn reset(&self) -> (script: Script)
        requires
            self.wf(),
        ensures
            script.wf(),
            script@ == self.reset_ops(),
    {
        let mut s = Script::new();
        if self.activation_pending && self.variant == DisplayVariant::Ssd1675B {
            s.push(Op::AwaitIdle);
        }
        s.push(Op::HardReset);
        s.push(Op::Send(Command::SoftReset));
        s.push(Op::AwaitIdle);
        self.init_driver(&mut s);
        self.init_window(&mut s);
        assert(s@ =~= self.reset_ops());
        s
    }

    fn init_driver(&self, s: &mut Script)
        requires
            self.wf(),
            old(s).wf(),
            old(s).room() >= 7,
        ensures
            final(s).wf(),
            final(s)@ == old(s)@ + self.driver_ops(),
            final(s).room() >= old(s).room() - 7,
    {
        let ghost before = s@;
        s.push(Op::Send(Command::AnalogBlockControl(0x54)));
        s.push(Op::Send(Command::DigitalBlockControl(0x3B)));
        if self.variant == DisplayVariant::Ssd1675B {
            let vgh: u8 = match &self.lut_table {
                Some(table) => table.bands[8][100],
                None => 0x0E,
            };
            s.push(Op::Send(Command::GateDrivingVoltage(vgh)));
        }
        s.push(Op::Send(Command::DriverOutputControl(self.config.rows - 1, 0x00)));
        s.push(Op::Send(self.config.dummy_line_period));
        s.push(Op::Send(self.config.gate_line_width));
        if let Some(write_vcom) = self.config.write_vcom {
            s.push(Op::Send(write_vcom));
        }
        assert(s@ =~= before + self.driver_ops());
    }

    fn init_window(&self, s: &mut Script)
        requires
            self.wf(),
            old(s).wf(),
            old(s).room() >= 6,
        ensures
            final(s).wf(),
            final(s)@ == old(s)@ + self.window_ops(),
    {
        let ghost before = s@;
        s.push(Op::Send(self.config.data_entry_mode));
        s.push(Op::Send(Command::BorderWaveform(0x05)));
        s.push(Op::Send(Command::StartEndXPosition(0, self.config.cols / 8 - 1)));
        s.push(Op::Send(Command::StartEndYPosition(0, self.config.rows - 1)));
        s.push(Op::Send(Command::XAddress(0x00)));
        s.push(Op::Send(Command::YAddress(0x00)));
        assert(s@ =~= before + self.window_ops());
    }

    /// The operations that send a waveform, its voltages and the planes, and
    /// start it.
    fn refresh(
        &self,
        lut: [u8; LUT_LEN],
        voltages: VoltageProfile,
        black: Plane,
        red: Plane,
        mode: UpdateMode,
        lut_speed: u8,
    ) -> (refresh: Refresh)
        ensures
            refresh.script.wf(),
            refresh.script@ == refresh_ops(
                voltages,
                black,
                red,
                self.config.plane_len() as usize,
                mode,
            ),
            refresh.lut_len == self.variant.body_len(),
            refresh.sent_lut() == scaled_lut(
                lut@.subrange(0, self.variant.body_len()),
                self.variant,
                lut_speed,
            ),
    {
        let mut scratch: [u8; LUT_LEN] = [0u8;LUT_LEN];
        let body: &[u8] = vstd::slice::slice_subrange(
            vstd::array::array_as_slice(&lut),
            0,
            self.variant.lut_byte_len(),
        );
        let n: usize = scale_lut_into(&mut scratch, body, self.variant, lut_speed);
        assert(body@.subrange(0, n as int) =~= lut@.subrange(0, self.variant.body_len()));
        assert(0 <= self.config.rows * self.config.cols <= 0xFFFF * 0xFF) by (nonlinear_arith)
            requires
                0 <= self.config.rows <= 0xFFFF,
                0 <= self.config.cols <= 0xFF,
        ;
        let pixels: usize = self.config.rows as usize * self.config.cols as usize;
        let limit: usize = pixels / 8 + (if pixels % 8 != 0 {
            1usize
        } else {
            0
        });
        let mut s = Script::new();
        s.push(Op::SendLut);
        s.push(Op::Send(Command::GateDrivingVoltage(voltages.vgh)));
        s.push(
            Op::Send(Command::SourceDrivingVoltage(voltages.vsh1, voltages.vsh2, voltages.vsl)),
        );
        s.push(Op::Send(Command::WriteVCOM(voltages.vcom)));
        s.push(Op::Send(Command::DummyLinePeriod(voltages.dummy)));
        s.push(Op::Send(Command::GateLineWidth(voltages.gate)));
        s.push(Op::AwaitIdle);
        s.push(Op::Send(Command::BorderWaveform(0x80)));
        s.push(Op::Send(Command::XAddress(0)));
        s.push(Op::Send(Command::YAddress(0)));
        s.push(Op::SendBlack(black, limit));
        s.push(Op::Send(Command::XAddress(0)));
        s.push(Op::Send(Command::YAddress(0)));
        s.push(Op::SendRed(red, limit));
        s.push(Op::Send(Command::UpdateDisplayOption2(mode)));
        s.push(Op::Send(Command::UpdateDisplay));
        s.push(Op::AwaitCompletion);
        assert(s@ =~= refresh_ops(voltages, black, red, limit, mode));
        Refresh { script: s, lut: scratch, lut_len: n }
    }

    /// Full tri-color refresh with the full waveform. The voltages come from
    /// the waveform as it was probed, so they stay at OEM levels regardless of
    /// `lut_speed`.
    pub fn update_tc(&self, black: Plane, red: Plane, lut_speed: u8) -> (refresh: Refresh)
        requires
            self.registered(),
        ensures
            refresh.script.wf(),
            refresh.script@ == refresh_ops(
                trailer(self.full_lut(), self.variant),
                black,
                red,
                self.config.plane_len() as usize,
                UpdateMode::Mode1,
            ),
            refresh.lut_len == self.variant.body_len(),
            refresh.sent_lut() == scaled_lut(
                self.full_lut().subrange(0, self.variant.body_len()),
                self.variant,
                lut_speed,
            ),
    {
        let lut: [u8; LUT_LEN] = self.otp_band();
        let voltages = VoltageProfile::of_trailer(&lut, self.variant);
        self.refresh(lut, voltages, black, red, UpdateMode::Mode1, lut_speed)
    }

    /// Black/white refresh with the waveform without inversion phases, at the
    /// voltages of the full one.
    pub fn update_bw(&self, black: Plane, red: Plane, mode: UpdateMode, lut_speed: u8) -> (refresh:
        Refresh)
        requires
            self.registered(),
        ensures
            refresh.script.wf(),
            refresh.script@ == refresh_ops(
                trailer(self.full_lut(), self.variant),
                black,
                red,
                self.config.plane_len() as usize,
                mode,
            ),
            refresh.lut_len == self.variant.body_len(),
            refresh.sent_lut() == scaled_lut(
                self.fast_lut().subrange(0, self.variant.body_len()),
                self.variant,
                lut_speed,
            ),
    {
        let lut: [u8; LUT_LEN] = match &self.lut_table_no_invert {
            Some(table) => table.select(self.active_temp_c10),
            None => [0u8;LUT_LEN],
        };
        let otp: [u8; LUT_LEN] = self.otp_band();
        let voltages = VoltageProfile::of_trailer(&otp, self.variant);
        self.refresh(lut, voltages, black, red, mode, lut_speed)
    }

    /// The panel's own probed OTP entry for the current temperature band.
    fn otp_band(&self) -> (lut: [u8; LUT_LEN])
        requires
            self.lut_table is Some,
        ensures
            lut@ == self.full_lut(),
    {
        match &self.lut_table {
            Some(table) => table.select(self.active_temp_c10),
            None => [0u8;LUT_LEN],
        }
    }

    /// Puts the controller into deep sleep, RAM preserved. Any later refresh
    /// must be preceded by a reset.
    pub fn deep_sleep(&self) -> (script: Script)
        ensures
            script.wf(),
            script@ == seq![Op::Send(Command::DeepSleep)],
    {
        let mut s = Script::new();
        s.push(Op::Send(Command::DeepSleep));
        assert(s@ =~= seq![Op::Send(Command::DeepSleep)]);
        s
    }
}

/// Represents the state of a pixel in the display.
#[derive(Debug, Clone, Copy, PartialEq, Eq, Structural)]
pub enum Color {
    Black,
    White,
    Red,
}

/// The bytes of the black and the red plane for a color.
pub open spec fn color_bytes(color: Color) -> (u8, u8) {
    match color {
        Color::White => (0xFF, 0x00),
        Color::Black => (0x00, 0x00),
        Color::Red => (0xFF, 0xFF),
    }
}

fn fill_plane(plane: &mut [u8], byte: u8)
    ensures
        final(plane)@ == Seq::new(old(plane)@.len(), |i: int| byte),
{
    let mut i: usize = 0;
    while i < plane.len()
        invariant
            i <= plane@.len(),
            plane@.len() == old(plane)@.len(),
            forall|k: int| 0 <= k < i ==> plane@[k] == byte,
        decreases plane@.len() - i,
    {
        plane[i] = byte;
        i += 1;
    }
    assert(plane@ =~= Seq::new(old(plane)@.len(), |i: int| byte));
}

/// Clears the planes, filling them with a single color.
pub fn clear(black: &mut [u8], red: &mut [u8], color: Color)
    ensures
        final(black)@ == Seq::new(old(black)@.len(), |i: int| color_bytes(color).0),
        final(red)@ == Seq::new(old(red)@.len(), |i: int| color_bytes(color).1),
{
    let (black_byte, red_byte): (u8, u8) = match color {
        Color::White => (0xFF, 0x00),
        Color::Black => (0x00, 0x00),
        Color::Red => (0xFF, 0xFF),
    };
    fill_plane(black, black_byte);
    fill_plane(red, red_byte);
}

/// Takes the red pixels out of the black plane.
///
/// The full waveform selects each pixel's row from its two RAM bits: black,
/// white, red, or no drive where both are set. The planes hold red with both
/// bits set, which would leave red pixels undriven.
pub fn work_plane(black: &[u8], red: &[u8], work: &mut [u8])
    requires
        black@.len() == old(work)@.len(),
        red@.len() == old(work)@.len(),
    ensures
        final(work)@ == Seq::new(old(work)@.len(), |i: int| black@[i] & !red@[i]),
        forall|i: int|
            0 <= i < final(work)@.len() ==> (#[trigger] final(work)@[i]) & red@[i] == 0
                && final(work)@[i] | (black@[i] & red@[i]) == black@[i],
{
    let mut i: usize = 0;
    while i < work.len()
        invariant
            i <= work@.len(),
            work@.len() == old(work)@.len(),
            black@.len() == work@.len(),
            red@.len() == work@.len(),
            forall|k: int| 0 <= k < i ==> work@[k] == black@[k] & !red@[k],
        decreases work@.len() - i,
    {
        work[i] = black[i] & !red[i];
        i += 1;
    }
    assert(work@ =~= Seq::new(old(work)@.len(), |i: int| black@[i] & !red@[i]));
    assert forall|i: int| 0 <= i < work@.len() implies (#[trigger] work@[i]) & red@[i] == 0
        && work@[i] | (black@[i] & red@[i]) == black@[i] by {
        let (b, r) = (black@[i], red@[i]);
        assert((b & !r) & r == 0 && (b & !r) | (b & r) == b) by (bit_vector);
    }
}

/// Whether a waveform may be running after the first `n` of `ops` have
/// succeeded.
pub open spec fn pending_through(pending: bool, ops: Seq<Op>, n: nat) -> bool
    decreases n,
{
    if n == 0 {
        pending
    } else {
        let before = pending_through(pending, ops, (n - 1) as nat);
        Display::pending_after(Display::pending_in(before, ops[n - 1]), ops[n - 1])
    }
}

/// A reset never cuts a waveform of a B variant short: where one may be
/// running, the reset line is pulsed only after a wait for the controller, and
/// not before.
pub proof fn law_a_reset_waits_out_the_waveform(display: Display)
    requires
        display.activation_pending,
        display.variant is Ssd1675B,
    ensures
        display.reset_ops()[0] == Op::AwaitIdle,
        display.reset_ops()[1] == Op::HardReset,
        forall|i: int|
            2 <= i < display.reset_ops().len() ==> #[trigger] display.reset_ops()[i]
                != Op::HardReset,
{
}

/// Once a reset has pulsed the reset line, nothing is pending any more.
pub proof fn law_a_reset_leaves_nothing_pending(display: Display, n: nat)
    requires
        display.wf(),
        2 <= n <= display.reset_ops().len(),
    ensures
        !pending_through(display.activation_pending, display.reset_ops(), n),
    decreases n,
{
    let ops = display.reset_ops();
    let pending = display.activation_pending;
    if n > 2 {
        law_a_reset_leaves_nothing_pending(display, (n - 1) as nat);
        assert(ops[n - 1] != Op::Send(Command::UpdateDisplay));
    } else {
        reveal_with_fuel(pending_through, 3);
        assert(ops[0] == Op::HardReset || ops[1] == Op::HardReset);
    }
}

/// Wherever a refresh breaks off, what is remembered is right: an activation is
/// pending exactly when its command has been sent and its end has not been
/// seen.
pub proof fn law_a_broken_off_refresh_is_remembered(
    v: VoltageProfile,
    black: Plane,
    red: Plane,
    len: usize,
    mode: UpdateMode,
    n: nat,
)
    requires
        n <= refresh_ops(v, black, red, len, mode).len(),
    ensures
        refresh_ops(v, black, red, len, mode)[15] == Op::Send(Command::UpdateDisplay),
        refresh_ops(v, black, red, len, mode)[16] == Op::AwaitCompletion,
        pending_through(false, refresh_ops(v, black, red, len, mode), n) == (n == 16),
    decreases n,
{
    if n > 0 {
        law_a_broken_off_refresh_is_remembered(v, black, red, len, mode, (n - 1) as nat);
    }
}

/// The waveform and both planes are in place before the panel is activated.
pub proof fn law_a_refresh_sends_everything_first(
    v: VoltageProfile,
    black: Plane,
    red: Plane,
    len: usize,
    mode: UpdateMode,
)
    ensures
        ({
            let ops = refresh_ops(v, black, red, len, mode);
            &&& ops.len() == 17
            &&& ops[0] == Op::SendLut
            &&& ops[10] == Op::SendBlack(black, len)
            &&& ops[13] == Op::SendRed(red, len)
            &&& forall|i: int|
                0 <= i < 15 ==> #[trigger] ops[i] != Op::Send(Command::UpdateDisplay)
        }),
{
}

/// The data bytes of a sequence of operations that send commands, one behind
/// the other in the order sent.
pub open spec fn data_sent(ops: Seq<Op>) -> Seq<u8>
    decreases ops.len(),
{
    if ops.len() == 0 {
        Seq::empty()
    } else {
        data_sent(ops.drop_last()) + (match ops.last() {
            Op::Send(command) => command.payload(),
            _ => Seq::empty(),
        })
    }
}

/// Whether an operation sends the command byte `opcode` followed by `data`.
pub open spec fn puts_on_bus(op: Op, opcode: u8, data: Seq<u8>) -> bool {
    op matches Op::Send(command) && command.opcode() == opcode && command.payload() == data
}

/// The trailer goes out as it was probed: the data bytes of the five voltage
/// commands of a refresh, put one behind the other in the order sent, are the
/// trailer of the image, with a VCOM of 0x50 in between where the image has
/// none.
pub proof fn law_the_trailer_goes_out_as_probed(
    lut: Seq<u8>,
    variant: DisplayVariant,
    black: Plane,
    red: Plane,
    len: usize,
    mode: UpdateMode,
)
    requires
        lut.len() == LUT_LEN,
    ensures
        ({
            let ops = refresh_ops(trailer(lut, variant), black, red, len, mode).subrange(1, 6);
            &&& data_sent(ops) == match variant {
                DisplayVariant::Ssd1675B => lut.subrange(100, 107),
                DisplayVariant::Ssd1675 => lut.subrange(70, 74) + seq![0x50u8] + lut.subrange(
                    74,
                    76,
                ),
            }
            &&& ops[0] matches Op::Send(c) && c.opcode() == 0x03 && c.payload().len() == 1
            &&& ops[1] matches Op::Send(c) && c.opcode() == 0x04 && c.payload().len() == 3
            &&& ops[2] matches Op::Send(c) && c.opcode() == 0x2C && c.payload().len() == 1
            &&& ops[3] matches Op::Send(c) && c.opcode() == 0x3A && c.payload().len() == 1
            &&& ops[4] matches Op::Send(c) && c.opcode() == 0x3B && c.payload().len() == 1
        }),
{
    let v = trailer(lut, variant);
    let ops = refresh_ops(v, black, red, len, mode).subrange(1, 6);
    assert(ops =~= trailer_ops(v));
    reveal_with_fuel(data_sent, 6);
    assert(ops.drop_last() =~= ops.take(4));
    assert(ops.take(4).drop_last() =~= ops.take(3));
    assert(ops.take(3).drop_last() =~= ops.take(2));
    assert(ops.take(2).drop_last() =~= ops.take(1));
    assert(ops.take(1).drop_last() =~= ops.take(0));
    assert(data_sent(ops) =~= seq![v.vgh, v.vsh1, v.vsh2, v.vsl, v.vcom, v.dummy, v.gate]);
    match variant {
        DisplayVariant::Ssd1675B => {
            assert(data_sent(ops) =~= lut.subrange(100, 107));
        },
        DisplayVariant::Ssd1675 => {
            assert(data_sent(ops) =~= lut.subrange(70, 74) + seq![0x50u8] + lut.subrange(74, 76));
        },
    }
}

/// A refresh fills both RAMs from their first byte: in front of each plane the
/// RAM pointer goes to column 0 and row 0, no command comes in between, and the
/// activation that follows loads no other waveform.
pub proof fn law_a_refresh_writes_both_rams_from_the_start(
    v: VoltageProfile,
    black: Plane,
    red: Plane,
    len: usize,
    mode: UpdateMode,
)
    ensures
        ({
            let ops = refresh_ops(v, black, red, len, mode);
            &&& ops[6] == Op::AwaitIdle
            &&& puts_on_bus(ops[7], 0x3C, seq![0x80u8])
            &&& puts_on_bus(ops[8], 0x4E, seq![0u8])
            &&& puts_on_bus(ops[9], 0x4F, seq![0u8, 0])
            &&& ops[10] == Op::SendBlack(black, len)
            &&& puts_on_bus(ops[11], 0x4E, seq![0u8])
            &&& puts_on_bus(ops[12], 0x4F, seq![0u8, 0])
            &&& ops[13] == Op::SendRed(red, len)
            &&& ops[14] matches Op::Send(c) && c.opcode() == 0x22 && c.payload().len() == 1
                && activates_as_pushed(c.payload()[0], mode)
            &&& puts_on_bus(ops[15], 0x20, Seq::empty())
        }),
{
    assert(0xC7u8 & 0x10 == 0 && 0xC7u8 & 0x20 == 0 && 0xC7u8 & 0x04 != 0 && 0xC7u8 & 0x08 == 0
        && 0xC7u8 & 0xC3 == 0xC3) by (bit_vector);
    assert(0xCFu8 & 0x10 == 0 && 0xCFu8 & 0x20 == 0 && 0xCFu8 & 0x04 != 0 && 0xCFu8 & 0x08 != 0
        && 0xCFu8 & 0xC3 == 0xC3) by (bit_vector);
}

/// Whether an activation selects the steps that use the pushed LUT: clock and
/// analog on and off again, the display step, the mode bit for mode 2 alone,
/// and neither the temperature (bit 5) nor the LUT (bit 4) loaded.
pub open spec fn activates_as_pushed(steps: u8, mode: UpdateMode) -> bool {
    &&& steps & 0xC3 == 0xC3
    &&& steps & 0x04 != 0
    &&& (steps & 0x08 != 0) == (mode is Mode2)
    &&& steps & 0x20 == 0
    &&& steps & 0x10 == 0
}

/// Rows go over the bus in two bytes, the low one first, wherever a command has
/// one.
pub proof fn law_rows_take_two_bytes(first: u16, last: u16, mode: u8)
    ensures
        ({
            let window = Command::StartEndYPosition(first, last).payload();
            let pointer = Command::YAddress(first).payload();
            let driver = Command::DriverOutputControl(last, mode).payload();
            &&& window.len() == 4
            &&& window[0] + 0x100 * window[1] == first
            &&& window[2] + 0x100 * window[3] == last
            &&& pointer.len() == 2
            &&& pointer[0] + 0x100 * pointer[1] == first
            &&& driver.len() == 3
            &&& driver[0] + 0x100 * driver[1] == last
            &&& driver[2] == mode
        }),
{
}

/// A reset opens the whole panel: the RAM window has all columns, eight to a
/// byte, and all rows, the controller drives all rows, and the RAM pointer
/// stands at the first byte.
pub proof fn law_a_reset_opens_the_whole_panel(display: Display)
    requires
        display.wf(),
    ensures
        ({
            let ops = display.reset_ops();
            let n = ops.len();
            &&& puts_on_bus(ops[n - 5], 0x3C, seq![0x05u8])
            &&& ops[n - 6] == Op::Send(display.config.data_entry_mode)
            &&& ops[n - 4] matches Op::Send(c) && c.opcode() == 0x44 && c.payload().len() == 2
                && c.payload()[0] == 0 && 8 * (c.payload()[1] + 1) <= display.config.cols < 8 * (
            c.payload()[1] + 2)
            &&& ops[n - 3] matches Op::Send(c) && c.opcode() == 0x45 && c.payload().take(2)
                == seq![0u8, 0] && c.payload()[2] + 0x100 * c.payload()[3] + 1
                == display.config.rows
            &&& puts_on_bus(ops[n - 2], 0x4E, seq![0u8])
            &&& puts_on_bus(ops[n - 1], 0x4F, seq![0u8, 0])
            &&& exists|i: int|
                0 <= i < n && #[trigger] drives_rows(ops[i], display.config.rows as int)
            &&& forall|i: int| 0 <= i < n ==> !(#[trigger] ops[i] is SendLut || ops[i] is SendBlack
                || ops[i] is SendRed)
        }),
{
    let ops = display.reset_ops();
    let n = ops.len() as int;
    assert(ops[n - 3] == Op::Send(
        Command::StartEndYPosition(0, (display.config.rows - 1) as u16),
    ));
    assert(Command::StartEndYPosition(0, (display.config.rows - 1) as u16).payload().take(2)
        =~= seq![0u8, 0]);
    let lead: int = if display.activation_pending && display.variant is Ssd1675B {
        4
    } else {
        3
    };
    let at: int = lead + 2 + (if display.variant is Ssd1675B {
        1int
    } else {
        0
    });
    assert(ops[at] == Op::Send(
        Command::DriverOutputControl((display.config.rows - 1) as u16, 0x00),
    ));
    assert(drives_rows(ops[at], display.config.rows as int));
}

/// Whether an operation sets the controller up to drive this many rows from the
/// first one on.
pub open spec fn drives_rows(op: Op, rows: int) -> bool {
    op matches Op::Send(c) && c.opcode() == 0x01 && c.payload().len() == 3 && c.payload()[0] + 0x100
        * c.payload()[1] + 1 == rows && c.payload()[2] == 0
}

/// How a reset begins: the reset line, the software reset, and a wait for it
/// before any other command; then both block controls, and on a B variant alone
/// the driving voltage, which is the one that a refresh in the middle band
/// would set.
pub proof fn law_a_reset_powers_the_panel_up(display: Display)
    requires
        display.wf(),
        !display.activation_pending,
    ensures
        ({
            let ops = display.reset_ops();
            &&& ops[0] == Op::HardReset
            &&& puts_on_bus(ops[1], 0x12, Seq::empty())
            &&& ops[2] == Op::AwaitIdle
            &&& puts_on_bus(ops[3], 0x74, seq![0x54u8])
            &&& puts_on_bus(ops[4], 0x7E, seq![0x3Bu8])
            &&& display.variant is Ssd1675B ==> match display.lut_table {
                Some(table) => puts_on_bus(
                    ops[5],
                    0x03,
                    seq![trailer(table.bands@[8]@, DisplayVariant::Ssd1675B).vgh],
                ),
                None => puts_on_bus(ops[5], 0x03, seq![0x0Eu8]),
            }
            &&& display.variant is Ssd1675 ==> forall|i: int|
                0 <= i < ops.len() && #[trigger] ops[i] is Send ==> ops[i]->Send_0.opcode() != 0x03
        }),
{
}

/// A plane has a bit for every pixel of the panel and no byte more than that
/// takes.
pub proof fn law_a_plane_covers_the_panel(config: Config)
    ensures
        8 * config.plane_len() - 8 < config.rows * config.cols <= 8 * config.plane_len(),
{
}

/// Every color is driven, and each by itself: with red taken out of the black
/// plane no color has both bits of a pixel set, which would leave it undriven,
/// and no two colors have the same two bits.
pub proof fn law_every_color_is_driven(a: Color, b: Color)
    ensures
        ({
            let (black, red) = color_bytes(a);
            (black & !red) & red == 0
        }),
        a != b ==> ({
            let (black_a, red_a) = color_bytes(a);
            let (black_b, red_b) = color_bytes(b);
            (black_a & !red_a, red_a) != (black_b & !red_b, red_b)
        }),
        color_bytes(Color::Black) == (0x00u8, 0x00u8),
        color_bytes(Color::White).0 & !color_bytes(Color::White).1 == 0xFF,
        color_bytes(Color::Red).1 == 0xFF,
{
    assert((0xFFu8 & !0x00u8) == 0xFF && (0x00u8 & !0x00u8) == 0 && (0xFFu8 & !0xFFu8) == 0 && (0xFFu8
        & 0x00u8) == 0 && (0x00u8 & 0xFFu8) == 0 && (0x00u8 & 0x00u8) == 0) by (bit_vector);
}

/// No two commands look alike on the bus.
pub proof fn law_commands_are_told_apart_by_their_bytes(a: Command, b: Command)
    requires
        a.opcode() == b.opcode(),
        a.payload() == b.payload(),
    ensures
        a == b,
{
    let (p, q) = (a.payload(), b.payload());
    assert(p.len() > 0 ==> p[0] == q[0]);
    assert(p.len() > 1 ==> p[1] == q[1]);
    assert(p.len() > 2 ==> p[2] == q[2]);
    assert(p.len() > 3 ==> p[3] == q[3]);
}

/// What the commands that no refresh sends put on the bus: the data entry mode
/// as it was configured, and a deep sleep that keeps the RAM.
pub proof fn law_setup_commands_carry_their_byte(b: u8)
    ensures
        puts_on_bus(Op::Send(Command::DataEntryMode(b)), 0x11, seq![b]),
        puts_on_bus(Op::Send(Command::DeepSleep), 0x10, seq![1u8]),
        puts_on_bus(Op::Send(Command::DummyLinePeriod(b)), 0x3A, seq![b]),
        puts_on_bus(Op::Send(Command::GateLineWidth(b)), 0x3B, seq![b]),
        puts_on_bus(Op::Send(Command::WriteVCOM(b)), 0x2C, seq![b]),
{
}

/// Only a waveform that may be running on a B variant is waited for: otherwise
/// a reset is the same whatever was pending.
pub proof fn law_only_a_b_variant_is_waited_for(display: Display)
    ensures
        ({
            let idle = Display { activation_pending: false, ..display };
            display.reset_ops() == if display.activation_pending && display.variant is Ssd1675B {
                seq![Op::AwaitIdle] + idle.reset_ops()
            } else {
                idle.reset_ops()
            }
        }),
{
    let idle = Display { activation_pending: false, ..display };
    assert(idle.driver_ops() =~= display.driver_ops());
    if display.activation_pending && display.variant is Ssd1675B {
        assert(display.reset_ops() =~= seq![Op::AwaitIdle] + idle.reset_ops());
    } else {
        assert(display.reset_ops() =~= idle.reset_ops());
    }
}

/// What was configured goes out with every reset, in front of the RAM window:
/// the dummy line period, the line width, and VCOM where there is one.
pub proof fn law_a_reset_sends_the_configuration(display: Display)
    requires
        display.wf(),
    ensures
        ({
            let ops = display.reset_ops();
            let k = ops.len() - 6 - (if display.config.write_vcom is Some {
                1int
            } else {
                0
            });
            &&& drives_rows(ops[k - 3], display.config.rows as int)
            &&& ops[k - 2] == Op::Send(display.config.dummy_line_period)
            &&& ops[k - 1] == Op::Send(display.config.gate_line_width)
            &&& display.config.write_vcom matches Some(c) ==> ops[k] == Op::Send(c)
        }),
{
}

} // verus!
