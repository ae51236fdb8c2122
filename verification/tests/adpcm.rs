use aegg_apple::adpcm::{decode_block, sample_to_duty, SoundHeader, HEADER_LEN, MAGIC, STEP_TABLE};

fn header(rate: u32, samples: u32, block_samples: u16, block_bytes: u16) -> [u8; HEADER_LEN] {
    let mut buf = [0u8; HEADER_LEN];
    buf[..8].copy_from_slice(&MAGIC);
    buf[8..12].copy_from_slice(&rate.to_le_bytes());
    buf[12..16].copy_from_slice(&samples.to_le_bytes());
    buf[16..18].copy_from_slice(&block_samples.to_le_bytes());
    buf[18..20].copy_from_slice(&block_bytes.to_le_bytes());
    buf
}

#[test]
fn header_rejects_bad_magic() {
    let mut buf = [0u8; HEADER_LEN];
    buf[..8].copy_from_slice(b"NOTASND1");
    assert!(SoundHeader::parse(&buf).is_none());
}

#[test]
fn header_rejects_degenerate_sizes() {
    let mut buf = [0u8; HEADER_LEN];
    buf[..8].copy_from_slice(&MAGIC);
    buf[8..12].copy_from_slice(&6000u32.to_le_bytes());
    buf[12..16].copy_from_slice(&1000u32.to_le_bytes());
    // block_samples = 0, block_bytes = 0
    assert!(SoundHeader::parse(&buf).is_none());
}

#[test]
fn silence_decodes_to_the_starting_predictor() {
    // All-zero codes still step the predictor by step/8 each time, so
    // only the first sample is guaranteed. Check that one.
    let mut block = [0u8; 512];
    block[..2].copy_from_slice(&1234i16.to_le_bytes());
    let mut out = [0i16; 1017];
    let n = decode_block(&block, &mut out);
    assert_eq!(n, 1017);
    assert_eq!(out[0], 1234);
}

#[test]
fn decode_respects_a_short_output_buffer() {
    let block = [0u8; 512];
    let mut out = [0i16; 8];
    assert_eq!(decode_block(&block, &mut out), 8);
}

#[test]
fn duty_maps_silence_to_half_scale() {
    assert_eq!(sample_to_duty(0, 2666), 1333);
    assert_eq!(sample_to_duty(i16::MIN, 2666), 0);
    assert!(sample_to_duty(i16::MAX, 2666) <= 2666);
    // Gain clips instead of wrapping.
    assert_eq!(sample_to_duty(i16::MAX / 2, 2666), 2666);
}

#[test]
fn magic_is_the_ascii_signature() {
    assert_eq!(&MAGIC, b"AEGGSND1");
}

#[test]
fn sound_header_fields_are_little_endian() {
    let h = SoundHeader::parse(&header(6000, 100_000, 1017, 512)).unwrap();
    assert_eq!(h.sample_rate, 6000);
    assert_eq!(h.sample_count, 100_000);
    assert_eq!(h.block_samples, 1017);
    assert_eq!(h.block_bytes, 512);
    assert_eq!(h.block_offset(0), 20);
    assert_eq!(h.block_offset(3), 20 + 3 * 512);
    // 98 full blocks hold 99666 samples; the rest needs one more.
    assert_eq!(h.block_count(), 99);
}

#[test]
fn block_count_rounds_up() {
    let count = |n: u32| SoundHeader::parse(&header(1, n, 10, 9)).unwrap().block_count();
    assert_eq!(count(0), 0);
    assert_eq!(count(1), 1);
    assert_eq!(count(10), 1);
    assert_eq!(count(11), 2);
    assert_eq!(count(u32::MAX), 429_496_730);
}

#[test]
fn sound_header_needs_a_rate_and_a_block_body() {
    assert!(SoundHeader::parse(&header(0, 1, 10, 9)).is_none());
    assert!(SoundHeader::parse(&header(1, 1, 10, 4)).is_none());
    assert!(SoundHeader::parse(&header(1, 1, 10, 5)).is_some());
    assert!(SoundHeader::parse(&header(1, 1, 0, 9)).is_none());
    assert!(SoundHeader::parse(&header(1, 1, 10, 9)[..19]).is_none());
}

#[test]
fn codes_step_the_predictor_low_nibble_first() {
    // Predictor 0, step index 0 (step 7). Code 7 moves up by 0 + 7 + 3 + 1 and
    // the index by 8 (step 16); code 8 then moves down by 16 / 8.
    let block = [0, 0, 0, 0, 0x87];
    let mut out = [0i16; 3];
    assert_eq!(decode_block(&block, &mut out), 3);
    assert_eq!(out, [0, 11, 9]);
}

#[test]
fn predictor_and_step_saturate() {
    // Full steps upwards from just below the ceiling.
    let mut block = [0x77u8; 12];
    block[..2].copy_from_slice(&32_000i16.to_le_bytes());
    block[2] = 200;
    block[3] = 0;
    let mut out = [0i16; 17];
    assert_eq!(decode_block(&block, &mut out), 17);
    assert_eq!(out[0], 32_000);
    assert!(out[1..].iter().all(|&s| s == i16::MAX));
    assert_eq!(STEP_TABLE[88], 32767);
}

#[test]
fn a_block_without_a_header_gives_nothing() {
    let mut out = [7i16; 4];
    assert_eq!(decode_block(&[1, 2, 3], &mut out), 0);
    assert_eq!(out, [7; 4]);
    assert_eq!(decode_block(&[1, 2, 3, 4], &mut []), 0);
    assert_eq!(decode_block(&[0x34, 0x12, 0, 0], &mut out), 1);
    assert_eq!(out, [0x1234, 7, 7, 7]);
}

#[test]
fn duty_rises_with_the_sample() {
    let mut last = 0;
    for s in (i16::MIN..=i16::MAX).step_by(37) {
        let d = sample_to_duty(s, 296);
        assert!(last <= d && d <= 296);
        last = d;
    }
    // 148 + 1000 * 4 * 148 / 32768.
    assert_eq!(sample_to_duty(1000, 296), 166);
    assert_eq!(sample_to_duty(-1000, 296), 130);
    assert_eq!(sample_to_duty(i16::MAX, u16::MAX), u16::MAX);
    assert_eq!(sample_to_duty(i16::MIN, u16::MAX), 0);
}
