use aegg_apple::epd::{pin_nr, probe_lut, Panel, Port, ProbeStep, BUF_SIZE, BUSY_POLLS};
use aegg_apple::ssd1675::{
    clear, detect_variant_from_otp, patch_no_invert, scale_lut_into, waveform_frames, work_plane,
    Color, Command, Config, Display, DisplayVariant, LutTable, Op, Plane, Script, UpdateMode,
    VoltageProfile, LUT_LEN,
};

const CONFIG: Config = Config {
    rows: 152,
    cols: 152,
    dummy_line_period: Command::DummyLinePeriod(0x1B),
    gate_line_width: Command::GateLineWidth(0x0B),
    write_vcom: None,
    data_entry_mode: Command::DataEntryMode(0x03),
};

fn image() -> [u8; LUT_LEN] {
    let mut lut = [0u8; LUT_LEN];
    for (i, b) in lut.iter_mut().enumerate() {
        *b = (i * 5 + 1) as u8;
    }
    lut
}

/// An image in the 10-byte-row layout.
fn image_b() -> [u8; LUT_LEN] {
    let mut lut = image();
    lut[7] = 0;
    lut[8] = 0;
    lut[9] = 0;
    lut
}

fn ops(mut script: Script) -> Vec<Op> {
    let mut all = Vec::new();
    while let Some(op) = script.next() {
        all.push(op);
    }
    all
}

#[test]
fn pins_are_numbered_over_both_ports() {
    assert_eq!(pin_nr(Port::Port0, 0), 0);
    assert_eq!(pin_nr(Port::Port0, 27), 27);
    assert_eq!(pin_nr(Port::Port1, 9), 41);
    assert_eq!(pin_nr(Port::Port1, 31), 63);
}

#[test]
fn the_probe_runs_its_script() {
    let mut probe = probe_lut();
    let mut sent = Vec::new();
    let mut looks = 0;
    let mut slept = 0;
    while let Some(step) = probe.step() {
        match step {
            ProbeStep::AwaitIdle => {
                looks += 1;
                // Busy twice, idle at the third look.
                if probe.looked(looks % 3 != 0) {
                    slept += 10;
                }
                continue;
            }
            ProbeStep::Wait(ms) => slept += ms,
            ProbeStep::Command(c) => sent.push((false, c)),
            ProbeStep::Data(d) => sent.push((true, d)),
            _ => {}
        }
        probe.done();
    }
    assert_eq!(looks, 6);
    assert_eq!(slept, 10 + 100 + 40);
    assert_eq!(
        sent,
        vec![
            (false, 0x12),
            (false, 0x74),
            (true, 0x54),
            (false, 0x7E),
            (true, 0x3B),
            (false, 0x18),
            (true, 0x80),
            (false, 0x22),
            (true, 0xB1),
            (false, 0x20),
            (false, 0x33),
        ]
    );
}

#[test]
fn the_probe_gives_a_stuck_controller_up() {
    let mut probe = probe_lut();
    let mut looks = 0u32;
    let mut pauses = 0u32;
    let mut reads = 0;
    while let Some(step) = probe.step() {
        if step == ProbeStep::AwaitIdle {
            looks += 1;
            if probe.looked(true) {
                pauses += 1;
            }
            continue;
        }
        if step == ProbeStep::ReadLut {
            reads += 1;
        }
        probe.done();
    }
    assert_eq!(looks, 2 * BUSY_POLLS as u32);
    assert_eq!(pauses, looks);
    assert_eq!(reads, 1);
}

#[test]
fn the_row_layout_tells_the_variant() {
    let mut otp = [0u8; LUT_LEN];
    otp[100] = 0x17;
    assert_eq!(detect_variant_from_otp(&otp), DisplayVariant::Ssd1675B);
    otp[100] = 0;
    assert_eq!(detect_variant_from_otp(&otp), DisplayVariant::Ssd1675B);
    otp[8] = 1;
    assert_eq!(detect_variant_from_otp(&otp), DisplayVariant::Ssd1675);
    otp[100] = 0x17;
    assert_eq!(detect_variant_from_otp(&otp), DisplayVariant::Ssd1675);
}

#[test]
fn variant_layouts() {
    assert_eq!(DisplayVariant::Ssd1675.lut_byte_len(), 70);
    assert_eq!(DisplayVariant::Ssd1675B.lut_byte_len(), 99);
    assert_eq!(DisplayVariant::Ssd1675.timing_range(), 35..70);
    assert_eq!(DisplayVariant::Ssd1675B.timing_range(), 50..100);
    assert_eq!(DisplayVariant::Ssd1675.default_lut_speed(), 100);
    assert_eq!(DisplayVariant::Ssd1675B.default_lut_speed(), 100);
}

#[test]
fn the_fast_waveform_of_an_ssd1675_wipes_white() {
    let raw = image();
    let mut lut = raw;
    patch_no_invert(&mut lut, DisplayVariant::Ssd1675);
    for p in 0..3 {
        assert_eq!([lut[p], lut[7 + p], lut[14 + p], lut[21 + p], lut[28 + p]], [
            0x80, 0x80, 0x80, 0x80, 0
        ]);
    }
    for i in 35..50 {
        assert_eq!(lut[i] as u16, (raw[i] as u16 * 3 / 10).max(1));
    }
    assert_eq!(&lut[50..56], &[raw[50], 2, raw[52].wrapping_add(16), 2, raw[54].wrapping_add(16), 2]);
    assert_eq!((lut[3], lut[4]), (raw[3] & 0xFC, raw[4] & 0xFC));
    assert_eq!([lut[5], lut[12], lut[19], lut[26], lut[33]], [0, 0x80, 0, 0x80, 0]);
    assert_eq!(&lut[60..65], &[0x16, 0, 0, 0, 0]);
    assert_eq!(&lut[65..], &raw[65..]);
    assert_eq!(&lut[10..12], &raw[10..12]);
    assert!(waveform_frames(&lut, DisplayVariant::Ssd1675) >= 22);

    // Skipped phases stay skipped, short ones stay in.
    let mut short = [0u8; LUT_LEN];
    short[36] = 1;
    short[37] = 7;
    patch_no_invert(&mut short, DisplayVariant::Ssd1675);
    assert_eq!(&short[35..39], &[0, 1, 2, 0]);
}

#[test]
fn the_fast_waveform_of_an_ssd1675b_does_not_repeat() {
    let raw = image_b();
    let mut lut = raw;
    patch_no_invert(&mut lut, DisplayVariant::Ssd1675B);
    for i in 0..LUT_LEN {
        let gone = (50..64).contains(&i) || ((50..100).contains(&i) && i % 5 == 4);
        assert_eq!(lut[i], if gone { 0 } else { raw[i] });
    }
    assert!(
        waveform_frames(&lut, DisplayVariant::Ssd1675B)
            <= waveform_frames(&raw, DisplayVariant::Ssd1675B)
    );
}

#[test]
fn frames_count_durations_and_repeats() {
    let mut lut = [0u8; LUT_LEN];
    lut[35..40].copy_from_slice(&[1, 2, 3, 4, 0]);
    lut[65..70].copy_from_slice(&[255, 255, 255, 255, 255]);
    assert_eq!(waveform_frames(&lut, DisplayVariant::Ssd1675), 10 + 1020 * 256);
    assert_eq!(waveform_frames(&lut[..69], DisplayVariant::Ssd1675), 10);
    assert_eq!(waveform_frames(&[], DisplayVariant::Ssd1675), 0);
}

#[test]
fn scaling_touches_the_timings_only() {
    let raw = image();
    let mut out = [0xEEu8; LUT_LEN];
    assert_eq!(scale_lut_into(&mut out, &raw[..70], DisplayVariant::Ssd1675, 50), 70);
    assert_eq!(&out[..35], &raw[..35]);
    for i in 35..70 {
        assert_eq!(out[i], raw[i] / 2);
    }
    assert!(out[70..].iter().all(|&b| b == 0xEE));

    let mut out = [0u8; LUT_LEN];
    scale_lut_into(&mut out, &raw[..70], DisplayVariant::Ssd1675, 100);
    assert_eq!(&out[..70], &raw[..70]);
    scale_lut_into(&mut out, &raw[..99], DisplayVariant::Ssd1675B, 255);
    assert_eq!(out[60] as u16, (raw[60] as u16 * 255 / 100).min(255));
    scale_lut_into(&mut out, &raw[..99], DisplayVariant::Ssd1675B, 0);
    assert!(out[50..99].iter().all(|&b| b == 0));
}

#[test]
fn bands_are_clamped() {
    let band = LutTable::band_idx;
    assert_eq!(band(-100), 0);
    assert_eq!(band(-61), 0);
    assert_eq!(band(-60), 1);
    assert_eq!(band(200), 7);
    assert_eq!(band(540), 15);
    assert_eq!(band(i16::MAX), 15);
    assert_eq!(band(i16::MIN), 0);
}

#[test]
fn trailers_differ_by_variant() {
    let raw = image();
    assert_eq!(
        VoltageProfile::of_trailer(&raw, DisplayVariant::Ssd1675),
        VoltageProfile {
            vgh: raw[70],
            vsh1: raw[71],
            vsh2: raw[72],
            vsl: raw[73],
            vcom: 0x50,
            dummy: raw[74],
            gate: raw[75],
        }
    );
    assert_eq!(VoltageProfile::of_trailer(&raw, DisplayVariant::Ssd1675B).vcom, raw[104]);
    assert_eq!(VoltageProfile::of_trailer(&raw, DisplayVariant::Ssd1675B).gate, raw[106]);
}

#[test]
fn a_fast_frame_goes_out_in_order() {
    let otp = image();
    let mut panel = Panel::init(&otp, CONFIG);
    assert!(panel.fast_frames > 0);
    let refresh = panel.show(&[0x5A; BUF_SIZE], 100);
    assert_eq!(
        ops(refresh.script),
        vec![
            Op::SendLut,
            Op::Send(Command::GateDrivingVoltage(otp[70])),
            Op::Send(Command::SourceDrivingVoltage(otp[71], otp[72], otp[73])),
            Op::Send(Command::WriteVCOM(0x50)),
            Op::Send(Command::DummyLinePeriod(otp[74])),
            Op::Send(Command::GateLineWidth(otp[75])),
            Op::AwaitIdle,
            Op::Send(Command::BorderWaveform(0x80)),
            Op::Send(Command::XAddress(0)),
            Op::Send(Command::YAddress(0)),
            Op::SendBlack(Plane::Frame, BUF_SIZE),
            Op::Send(Command::XAddress(0)),
            Op::Send(Command::YAddress(0)),
            Op::SendRed(Plane::Zeros, BUF_SIZE),
            Op::Send(Command::UpdateDisplayOption2(UpdateMode::Mode1)),
            Op::Send(Command::UpdateDisplay),
            Op::AwaitCompletion,
        ]
    );
    let mut fast = otp;
    patch_no_invert(&mut fast, DisplayVariant::Ssd1675);
    assert_eq!(refresh.lut_len, 70);
    assert_eq!(&refresh.lut[..70], &fast[..70]);
    let half = panel.show(&[0; BUF_SIZE], 50);
    assert_eq!(half.lut[60], 11);
}

#[test]
fn an_empty_fast_waveform_falls_back() {
    // All drive is in the phases that the fast waveform leaves out.
    let mut otp = [0u8; LUT_LEN];
    otp[50] = 9;
    otp[100] = 0x17;
    let mut panel = Panel::init(&otp, CONFIG);
    assert_eq!(panel.display.variant, DisplayVariant::Ssd1675B);
    assert_eq!(panel.fast_frames, 0);
    let refresh = panel.show(&[0x5A; BUF_SIZE], 100);
    assert_eq!(&refresh.lut[..99], &otp[..99]);
    assert!(ops(refresh.script).contains(&Op::SendBlack(Plane::Work, BUF_SIZE)));
    assert_eq!(panel.black, [0x5A; BUF_SIZE]);
    assert_eq!(panel.work, [0x5A; BUF_SIZE]);
}

#[test]
fn clearing_white_resets_first() {
    let otp = image_b();
    let mut panel = Panel::init(&otp, CONFIG);
    let (reset, refresh) = panel.clear_white();
    let reset = ops(reset);
    assert_eq!(
        &reset[..6],
        &[
            Op::HardReset,
            Op::Send(Command::SoftReset),
            Op::AwaitIdle,
            Op::Send(Command::AnalogBlockControl(0x54)),
            Op::Send(Command::DigitalBlockControl(0x3B)),
            Op::Send(Command::GateDrivingVoltage(otp[100])),
        ]
    );
    assert_eq!(
        &reset[6..],
        &[
            Op::Send(Command::DriverOutputControl(151, 0)),
            Op::Send(CONFIG.dummy_line_period),
            Op::Send(CONFIG.gate_line_width),
            Op::Send(CONFIG.data_entry_mode),
            Op::Send(Command::BorderWaveform(0x05)),
            Op::Send(Command::StartEndXPosition(0, 18)),
            Op::Send(Command::StartEndYPosition(0, 151)),
            Op::Send(Command::XAddress(0)),
            Op::Send(Command::YAddress(0)),
        ]
    );
    assert_eq!(&refresh.lut[..99], &otp[..99]);
    assert_eq!(panel.black, [0xFF; BUF_SIZE]);
    assert_eq!(panel.red, [0; BUF_SIZE]);
    assert_eq!(panel.work, [0xFF; BUF_SIZE]);
    assert_eq!(ops(panel.sleep()), vec![Op::Send(Command::DeepSleep)]);
}

#[test]
fn a_reset_waits_out_a_pending_waveform() {
    let mut config = CONFIG;
    config.write_vcom = Some(Command::WriteVCOM(0x36));
    let mut display = Display::new(config);
    display.complete(Op::Send(Command::UpdateDisplay));
    assert!(display.activation_pending);
    let b = ops(display.reset());
    assert_eq!(&b[..2], &[Op::AwaitIdle, Op::HardReset]);
    // No table is registered: the bootstrap voltage is the fallback.
    assert!(b.contains(&Op::Send(Command::GateDrivingVoltage(0x0E))));
    assert!(b.contains(&Op::Send(Command::WriteVCOM(0x36))));
    display.set_variant(DisplayVariant::Ssd1675);
    let a = ops(display.reset());
    assert_eq!(a[0], Op::HardReset);
    assert!(!a.contains(&Op::Send(Command::GateDrivingVoltage(0x0E))));
    display.begin(Op::HardReset);
    assert!(!display.activation_pending);
    display.complete(Op::Send(Command::UpdateDisplay));
    display.complete(Op::AwaitCompletion);
    assert!(!display.activation_pending);
}

#[test]
fn the_temperature_selects_the_band() {
    let mut tables = LutTable::replicate(&image());
    tables.bands[0][0] = 0xAB;
    let mut display = Display::new(CONFIG);
    display.set_variant(DisplayVariant::Ssd1675);
    display.register_lut_tables(tables, tables);
    let warm = display.update_tc(Plane::Work, Plane::Red, 100);
    assert_eq!(warm.lut[0], image()[0]);
    display.set_active_temperature(-200);
    let cold = display.update_bw(Plane::Frame, Plane::Zeros, UpdateMode::Mode2, 100);
    assert_eq!(cold.lut[0], 0xAB);
    assert!(ops(cold.script).contains(&Op::Send(Command::UpdateDisplayOption2(UpdateMode::Mode2))));
}

#[test]
fn red_pixels_leave_the_black_plane() {
    let mut work = [0u8; 3];
    work_plane(&[0xFF, 0xF0, 0x0F], &[0x00, 0xFF, 0x01], &mut work);
    assert_eq!(work, [0xFF, 0x00, 0x0E]);
    let (mut black, mut red) = ([9u8; 2], [9u8; 2]);
    clear(&mut black, &mut red, Color::Red);
    assert_eq!((black, red), ([0xFF; 2], [0xFF; 2]));
    clear(&mut black, &mut red, Color::Black);
    assert_eq!((black, red), ([0; 2], [0; 2]));
}

#[test]
fn commands_are_encoded_low_byte_first() {
    let bytes = |c: Command| {
        let e = c.encode();
        let mut all = vec![e.opcode];
        all.extend_from_slice(&e.data[..e.len]);
        all
    };
    assert_eq!(bytes(Command::SoftReset), [0x12]);
    assert_eq!(bytes(Command::SourceDrivingVoltage(1, 2, 3)), [0x04, 1, 2, 3]);
    assert_eq!(bytes(Command::DriverOutputControl(0x0128, 7)), [0x01, 0x28, 0x01, 7]);
    assert_eq!(bytes(Command::StartEndXPosition(0, 18)), [0x44, 0, 18]);
    assert_eq!(bytes(Command::StartEndYPosition(0, 0x0127)), [0x45, 0, 0, 0x27, 0x01]);
    assert_eq!(bytes(Command::YAddress(0x0102)), [0x4F, 2, 1]);
    assert_eq!(bytes(Command::UpdateDisplayOption2(UpdateMode::Mode1)), [0x22, 0xC7]);
    assert_eq!(bytes(Command::UpdateDisplayOption2(UpdateMode::Mode2)), [0x22, 0xCF]);
    assert_eq!(bytes(Command::UpdateDisplay), [0x20]);
    assert_eq!(bytes(Command::DeepSleep), [0x10, 1]);
    assert_eq!(bytes(Command::WriteVCOM(0x50)), [0x2C, 0x50]);
}
