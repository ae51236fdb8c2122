use aegg_apple::video::{
    decode_frame, VideoHeader, FRAME_BYTES, HEADER_LEN, HEIGHT, MAGIC, WIDTH,
};

/// Encodes a plane as alternating runs.
fn encode(plane: &[u8; FRAME_BYTES]) -> Vec<u8> {
    let bit = |i: usize| (plane[i / 8] >> (7 - i % 8)) & 1;
    let mut out = Vec::new();
    let mut cur = bit(0);
    out.push(cur);
    let mut run = 1usize;
    for i in 1..FRAME_BYTES * 8 {
        if bit(i) == cur {
            run += 1;
        } else {
            emit(&mut out, run);
            cur = bit(i);
            run = 1;
        }
    }
    emit(&mut out, run);
    out
}

fn emit(out: &mut Vec<u8>, run: usize) {
    if run < 128 {
        out.push(run as u8);
    } else {
        out.push(0x80 | (run >> 8) as u8);
        out.push((run & 0xFF) as u8);
    }
}

fn header(width: u16, height: u16, fps: u16, frames: u32) -> [u8; HEADER_LEN] {
    let mut buf = [0u8; HEADER_LEN];
    buf[..8].copy_from_slice(&MAGIC);
    buf[8..10].copy_from_slice(&width.to_le_bytes());
    buf[10..12].copy_from_slice(&height.to_le_bytes());
    buf[12..14].copy_from_slice(&fps.to_le_bytes());
    buf[16..20].copy_from_slice(&frames.to_le_bytes());
    buf
}

#[test]
fn round_trips_all_white() {
    let plane = [0xFFu8; FRAME_BYTES];
    let enc = encode(&plane);
    let mut out = [0u8; FRAME_BYTES];
    assert!(decode_frame(&enc, &mut out).is_some());
    assert_eq!(out, plane);
}

#[test]
fn round_trips_all_black() {
    let plane = [0x00u8; FRAME_BYTES];
    let enc = encode(&plane);
    let mut out = [0xAAu8; FRAME_BYTES];
    assert!(decode_frame(&enc, &mut out).is_some());
    assert_eq!(out, plane);
}

#[test]
fn round_trips_a_pattern_with_long_and_short_runs() {
    let mut plane = [0u8; FRAME_BYTES];
    // Long white band, then fine alternating detail: exercises both the
    // one-byte and two-byte run encodings and the partial-byte edges.
    for byte in plane.iter_mut().take(FRAME_BYTES / 2) {
        *byte = 0xFF;
    }
    for (i, byte) in plane.iter_mut().skip(FRAME_BYTES / 2).enumerate() {
        *byte = if i % 2 == 0 { 0b1010_1010 } else { 0b0011_0011 };
    }
    let enc = encode(&plane);
    let mut out = [0u8; FRAME_BYTES];
    assert!(decode_frame(&enc, &mut out).is_some());
    assert_eq!(out, plane);
}

#[test]
fn rejects_a_truncated_frame() {
    let plane = [0xFFu8; FRAME_BYTES];
    let mut enc = encode(&plane);
    enc.pop();
    let mut out = [0u8; FRAME_BYTES];
    assert!(decode_frame(&enc, &mut out).is_none());
}

#[test]
fn rejects_runs_past_the_end_of_the_frame() {
    // Leading bit 0, then a run longer than the whole frame.
    let enc = [0x00u8, 0xFF, 0xFF];
    let mut out = [0u8; FRAME_BYTES];
    assert!(decode_frame(&enc, &mut out).is_none());
}

#[test]
fn rejects_a_bad_leading_bit() {
    let mut out = [0u8; FRAME_BYTES];
    assert!(decode_frame(&[0x02, 0x01], &mut out).is_none());
}

#[test]
fn header_rejects_wrong_geometry() {
    let mut buf = [0u8; HEADER_LEN];
    buf[..8].copy_from_slice(&MAGIC);
    buf[8..10].copy_from_slice(&200u16.to_le_bytes());
    buf[10..12].copy_from_slice(&200u16.to_le_bytes());
    buf[12..14].copy_from_slice(&4u16.to_le_bytes());
    buf[16..20].copy_from_slice(&10u32.to_le_bytes());
    assert!(VideoHeader::parse(&buf).is_none());
}

#[test]
fn video_header_fields_are_read() {
    let h = VideoHeader::parse(&header(WIDTH as u16, HEIGHT as u16, 4, 877)).unwrap();
    assert_eq!((h.width, h.height, h.fps, h.frame_count), (152, 152, 4, 877));
    assert_eq!(h.offset_entry(0), 20);
    assert_eq!(h.offset_entry(10), 60);
    assert_eq!(h.duration_ms(), 219_250);
    let long = VideoHeader { width: 152, height: 152, fps: 1000, frame_count: 5_000_000 };
    assert_eq!(long.duration_ms(), 5_000_000);
}

#[test]
fn video_header_needs_a_rate_and_frames() {
    assert!(VideoHeader::parse(&header(152, 152, 0, 1)).is_none());
    assert!(VideoHeader::parse(&header(152, 152, 1, 0)).is_none());
    assert!(VideoHeader::parse(&header(152, 151, 1, 1)).is_none());
    assert!(VideoHeader::parse(&header(152, 152, 1, 1)).is_some());
    assert!(VideoHeader::parse(&header(152, 152, 1, 1)[..19]).is_none());
    let mut bad = header(152, 152, 1, 1);
    bad[0] ^= 1;
    assert!(VideoHeader::parse(&bad).is_none());
}

#[test]
fn decoding_does_not_depend_on_the_frame_before() {
    let mut plane = [0u8; FRAME_BYTES];
    plane[100] = 0x3C;
    let enc = encode(&plane);
    let mut a = [0x00u8; FRAME_BYTES];
    let mut b = [0xFFu8; FRAME_BYTES];
    assert!(decode_frame(&enc, &mut a).is_some());
    assert!(decode_frame(&enc, &mut b).is_some());
    assert_eq!(a, plane);
    assert_eq!(b, plane);
}

#[test]
fn every_truncation_of_a_frame_is_refused() {
    let mut plane = [0u8; FRAME_BYTES];
    plane[7] = 0xF0;
    plane[2000] = 0x55;
    let enc = encode(&plane);
    let mut out = [0u8; FRAME_BYTES];
    for kept in 0..enc.len() {
        assert!(decode_frame(&enc[..kept], &mut out).is_none());
    }
}

#[test]
fn a_failed_frame_keeps_what_was_drawn() {
    // Leading bit 1, one run of eleven pixels and no more.
    let mut out = [0xAAu8; FRAME_BYTES];
    assert!(decode_frame(&[1, 11], &mut out).is_none());
    assert_eq!(&out[..3], &[0xFF, 0b1110_0000, 0]);
    assert!(out[2..].iter().all(|&b| b == 0));
    assert!(decode_frame(&[], &mut out).is_none());
}
