use aegg_apple::adpcm;
use aegg_apple::asset::{AssetRead, MemoryFile};
use aegg_apple::player::{
    frame_bounds, open_sound, open_video, read_frame, sound_name, video_name, FrameBounds, Look,
    Player, Stop, Tick, AHEAD_MS, MAX_FRAME_BYTES,
};
use aegg_apple::video::{VideoHeader, FRAME_BYTES, MAGIC};

const HEADER: VideoHeader = VideoHeader { width: 152, height: 152, fps: 4, frame_count: 100 };

fn look(samples_played: u32, elapsed_us: u64) -> Look {
    Look { fire: false, finished: false, samples_played, elapsed_us }
}

fn movie(frames: &[&[u8]]) -> Vec<u8> {
    let mut bytes = Vec::new();
    bytes.extend_from_slice(&MAGIC);
    for field in [152u16, 152, 4, 0] {
        bytes.extend_from_slice(&field.to_le_bytes());
    }
    bytes.extend_from_slice(&(frames.len() as u32).to_le_bytes());
    let mut at = 20 + 4 * (frames.len() as u32 + 1);
    bytes.extend_from_slice(&at.to_le_bytes());
    for frame in frames {
        at += frame.len() as u32;
        bytes.extend_from_slice(&at.to_le_bytes());
    }
    for frame in frames {
        bytes.extend_from_slice(frame);
    }
    bytes
}

#[test]
fn stops_have_their_blink_counts() {
    let stops = [
        Stop::Complete,
        Stop::Fire,
        Stop::AudioEnded,
        Stop::ReadFailed,
        Stop::DecodeFailed,
    ];
    for (i, stop) in stops.iter().enumerate() {
        assert_eq!(stop.blinks() as usize, i + 1);
    }
}

#[test]
fn the_frame_follows_the_samples() {
    let mut p = Player::new(HEADER, 6000);
    assert_eq!(p.tick(look(0, 0)), Tick::Show(0));
    assert_eq!(p.tick(look(1499, 0)), Tick::Wait(AHEAD_MS));
    assert_eq!(p.tick(look(1500, 0)), Tick::Show(1));
    assert_eq!(p.tick(look(1500, 0)), Tick::Wait(20));
    assert_eq!(p.skipped, 0);
    // The panel was busy for three frames.
    assert_eq!(p.tick(look(7500, 0)), Tick::Show(5));
    assert_eq!(p.skipped, 3);
    // The track has begun again.
    assert_eq!(p.tick(look(512, 0)), Tick::Show(0));
    assert_eq!(p.skipped, 3);
    assert_eq!(p.tick(look(150_000, 0)), Tick::Stop(Stop::Complete));
    assert_eq!(p.shown, Some(0));
}

#[test]
fn without_sound_the_wall_clock_counts() {
    let mut p = Player::new(HEADER, 6000);
    assert_eq!(p.tick(look(0, 1_500_000)), Tick::Show(0));
    assert!(!p.warned_silent);
    assert_eq!(p.tick(look(0, 1_500_001)), Tick::Show(6));
    assert!(p.warned_silent);
    assert_eq!(p.tick(look(0, 1_999_999)), Tick::Show(7));
    assert_eq!(p.tick(look(0, 25_000_000)), Tick::Stop(Stop::Complete));
    // Sound that comes late takes over again.
    assert_eq!(p.tick(look(512, 25_000_000)), Tick::Show(0));
}

#[test]
fn fire_comes_before_everything() {
    let mut p = Player::new(HEADER, 6000);
    let both = Look { fire: true, finished: true, samples_played: u32::MAX, elapsed_us: 0 };
    assert_eq!(p.tick(both), Tick::Stop(Stop::Fire));
    let ended = Look { fire: false, ..both };
    assert_eq!(p.tick(ended), Tick::Stop(Stop::AudioEnded));
    assert_eq!(p.shown, None);
}

#[test]
fn a_zero_sample_rate_counts_as_one() {
    let mut p = Player::new(HEADER, 0);
    assert_eq!(p.tick(look(20, 0)), Tick::Show(80));
}

#[test]
fn frames_that_cannot_be_drawn_stop_playback() {
    let p = Player::new(HEADER, 6000);
    let mut plane = [0xAAu8; FRAME_BYTES];
    assert_eq!(p.draw(None, &mut plane), Some(Stop::ReadFailed));
    assert_eq!(plane[0], 0xAA);
    assert_eq!(p.draw(Some(&[1, 5]), &mut plane), Some(Stop::DecodeFailed));
    // One white run of 23104 pixels.
    assert_eq!(p.draw(Some(&[1, 0x80 | 90, 64]), &mut plane), None);
    assert!(plane.iter().all(|&b| b == 0xFF));
}

#[test]
fn stalled_refreshes_are_counted() {
    let mut p = Player::new(HEADER, 6000);
    p.refreshed(true);
    assert_eq!(p.stalled, 0);
    p.refreshed(false);
    p.refreshed(false);
    assert_eq!(p.stalled, 2);
}

#[test]
fn frame_bounds_are_checked() {
    let entries = |start: u32, end: u32| {
        let mut e = [0u8; 8];
        e[..4].copy_from_slice(&start.to_le_bytes());
        e[4..].copy_from_slice(&end.to_le_bytes());
        e
    };
    assert_eq!(
        frame_bounds(&entries(100, 150)),
        Some(FrameBounds { start: 100, len: 50 })
    );
    assert_eq!(frame_bounds(&entries(100, 100)), None);
    assert_eq!(frame_bounds(&entries(101, 100)), None);
    assert_eq!(
        frame_bounds(&entries(0, 8192)),
        Some(FrameBounds { start: 0, len: MAX_FRAME_BYTES })
    );
    assert_eq!(frame_bounds(&entries(0, 8193)), None);
    assert_eq!(frame_bounds(&entries(0, u32::MAX)), None);
    assert_eq!(frame_bounds(&entries(100, 150)[..7]), None);
}

#[test]
fn frames_are_read_through_the_offset_table() {
    let bytes = movie(&[&[1, 2, 3], &[], &[9, 8, 7, 6]]);
    let mut file = MemoryFile::new(&bytes);
    let header = open_video(&mut file).unwrap();
    assert_eq!(header.frame_count, 3);
    let mut out = [0xEEu8; MAX_FRAME_BYTES];
    assert_eq!(read_frame(&mut file, &header, 0, &mut out), Some(3));
    assert_eq!(&out[..3], &[1, 2, 3]);
    assert!(out[3..].iter().all(|&b| b == 0xEE));
    // An empty frame cannot be shown.
    let before = out;
    assert_eq!(read_frame(&mut file, &header, 1, &mut out), None);
    assert_eq!(out, before);
    assert_eq!(read_frame(&mut file, &header, 2, &mut out), Some(4));
    assert_eq!(&out[..4], &[9, 8, 7, 6]);
    assert_eq!(read_frame(&mut file, &header, 1_000_000, &mut out), None);
    let mut short = MemoryFile::new(&bytes[..bytes.len() - 1]);
    assert_eq!(read_frame(&mut short, &header, 2, &mut out), None);
}

#[test]
fn headers_are_opened_from_files() {
    let video = movie(&[&[1]]);
    assert!(open_video(&mut MemoryFile::new(&video)).is_some());
    assert!(open_sound(&mut MemoryFile::new(&video)).is_none());
    assert!(open_video(&mut MemoryFile::new(&video[..19])).is_none());

    let mut bytes = adpcm::MAGIC.to_vec();
    bytes.extend_from_slice(&6000u32.to_le_bytes());
    bytes.extend_from_slice(&1017u32.to_le_bytes());
    bytes.extend_from_slice(&1017u16.to_le_bytes());
    bytes.extend_from_slice(&512u16.to_le_bytes());
    let header = open_sound(&mut MemoryFile::new(&bytes)).unwrap();
    assert_eq!((header.sample_rate, header.block_bytes), (6000, 512));
    assert!(open_video(&mut MemoryFile::new(&bytes)).is_none());
    assert!(open_sound(&mut MemoryFile::new(&bytes[..19])).is_none());
}

#[test]
fn reads_are_short_only_at_the_end() {
    let mut file = MemoryFile::new(b"0123456789");
    let mut buf = [0u8; 4];
    assert_eq!(file.read_at(3, &mut buf), 4);
    assert_eq!(&buf, b"3456");
    assert_eq!(file.read_at(8, &mut buf), 2);
    assert_eq!(&buf, b"8956");
    assert_eq!(file.read_at(10, &mut buf), 0);
    assert_eq!(file.read_at(u32::MAX, &mut buf), 0);
}

#[test]
fn asset_names() {
    assert_eq!(video_name(), Some(*b"BADAPPLEVID"));
    assert_eq!(sound_name(), Some(*b"BADAPPLESND"));
}
