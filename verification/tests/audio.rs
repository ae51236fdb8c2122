use aegg_apple::adpcm::{decode_block, sample_to_duty, SoundHeader, MAGIC};
use aegg_apple::asset::MemoryFile;
use aegg_apple::audio::playback::{CHUNK, POLL_MS};
use aegg_apple::audio::stream::streamable;
use aegg_apple::audio::{
    carrier_for, fill, finished, loops, samples_played, Action, Clock, Fill, Phase, Playback, Pull,
    Stream,
};

fn track(blocks: usize) -> (Vec<u8>, SoundHeader, Vec<i16>) {
    let samples = blocks as u32 * 11;
    let mut bytes = Vec::new();
    bytes.extend_from_slice(&MAGIC);
    bytes.extend_from_slice(&6000u32.to_le_bytes());
    bytes.extend_from_slice(&samples.to_le_bytes());
    bytes.extend_from_slice(&11u16.to_le_bytes());
    bytes.extend_from_slice(&9u16.to_le_bytes());
    let mut all = Vec::new();
    for b in 0..blocks {
        let mut block = [0u8; 9];
        block[..2].copy_from_slice(&(b as i16 * 100 - 500).to_le_bytes());
        block[2] = 20;
        for (i, byte) in block[4..].iter_mut().enumerate() {
            *byte = (b * 37 + i * 91) as u8;
        }
        let mut out = [0i16; 11];
        assert_eq!(decode_block(&block, &mut out), 11);
        all.extend_from_slice(&out);
        bytes.extend_from_slice(&block);
    }
    let header = SoundHeader::parse(&bytes).unwrap();
    (bytes, header, all)
}

#[test]
fn six_kilohertz_is_held_for_nine_periods() {
    assert_eq!(carrier_for(6000), (296, 8));
    assert_eq!(16_000_000 / (296 * 9), 6006);
}

#[test]
fn carrier_edges() {
    // Rates that need no hold.
    assert_eq!(carrier_for(50_000), (320, 0));
    assert_eq!(carrier_for(49_999), (320, 0));
    assert_eq!(carrier_for(49_844), (160, 1));
    assert_eq!(carrier_for(u32::MAX), (2, 0));
    assert_eq!(carrier_for(8_000_000), (2, 0));
    // The hold count ends at fifteen.
    assert_eq!(carrier_for(1000), (1000, 15));
    assert_eq!(carrier_for(16), (62_500, 15));
    assert_eq!(carrier_for(0), carrier_for(1));
    // Where sixteen periods leave a top beyond the counter, they are doubled.
    assert_eq!(carrier_for(15), (33_333, 31));
    assert_eq!(carrier_for(8), (62_500, 31));
    assert_eq!(carrier_for(7), (35_714, 63));
    assert_eq!(carrier_for(1), (62_500, 255));
}

#[test]
fn every_carrier_meets_its_sample_period() {
    for rate in (1u64..60_000).chain([8_000_000]) {
        let (top, refresh) = carrier_for(rate as u32);
        let (top, held) = (top as u64, refresh as u64 + 1);
        assert!(top * held * rate <= 16_000_000);
        assert!((top + 1) * held * rate > 16_000_000);
        assert!(rate < 3125 || 16_000_000 / top >= 50_000);
    }
}

#[test]
fn a_stream_gives_every_block_in_order() {
    let (bytes, header, all) = track(5);
    let mut file = MemoryFile::new(&bytes);
    let mut stream = Stream::new(header, bytes.len() as u32);
    for &s in &all {
        assert_eq!(stream.next(&mut file), Some(s));
    }
    assert_eq!(stream.next(&mut file), None);
    assert!(stream.done);
    assert_eq!(stream.next(&mut file), None);
    stream.rewind();
    assert!(!stream.done);
    assert_eq!(stream.next(&mut file), Some(all[0]));
}

#[test]
fn a_stream_asks_for_its_blocks() {
    let (bytes, header, all) = track(2);
    let mut stream = Stream::new(header, bytes.len() as u32);
    assert_eq!(stream.poll(), Pull::Block { offset: 20, len: 9 });
    assert!(stream.supply(&bytes[20..29]));
    for &s in &all[..11] {
        assert_eq!(stream.poll(), Pull::Sample(s));
    }
    assert_eq!(stream.poll(), Pull::Block { offset: 29, len: 9 });
    // A short block ends the stream.
    assert!(!stream.supply(&bytes[29..37]));
    assert_eq!(stream.poll(), Pull::End);
    assert!(stream.done);
}

#[test]
fn a_refill_reads_one_block() {
    let (bytes, header, all) = track(2);
    // The second block is cut off.
    let mut file = MemoryFile::new(&bytes[..30]);
    let mut stream = Stream::new(header, 30);
    assert!(stream.refill(&mut file));
    assert_eq!(stream.valid, 11);
    assert_eq!(&stream.samples[..11], &all[..11]);
    stream.cursor = stream.valid;
    assert!(!stream.refill(&mut file));
    assert!(stream.done);
}

#[test]
fn a_truncated_file_ends_at_its_last_whole_block() {
    let (mut bytes, header, all) = track(3);
    bytes.pop();
    let mut file = MemoryFile::new(&bytes);
    let mut stream = Stream::new(header, bytes.len() as u32);
    for &s in &all[..22] {
        assert_eq!(stream.next(&mut file), Some(s));
    }
    assert_eq!(stream.next(&mut file), None);
}

#[test]
fn oversized_blocks_are_not_streamable() {
    let (_, mut header, _) = track(1);
    assert!(streamable(&header));
    header.block_bytes = 1024;
    assert!(streamable(&header));
    header.block_bytes = 1025;
    assert!(!streamable(&header));
    // Without a block there is none to fit.
    header.sample_count = 0;
    assert!(streamable(&header));
}

#[test]
fn buffers_loop_without_a_gap() {
    let (bytes, header, all) = track(7);
    let mut file = MemoryFile::new(&bytes);
    let mut stream = Stream::new(header, bytes.len() as u32);
    let mut clock = Clock::new();
    clock.samples_played = 99;
    let mut heard = Vec::new();
    for _ in 0..3 {
        let mut buf = [0u16; CHUNK];
        assert!(fill(&mut buf, &mut stream, &mut file, &mut clock, 296, 148));
        heard.extend_from_slice(&buf);
    }
    for (k, &duty) in heard.iter().enumerate() {
        assert_eq!(duty, sample_to_duty(all[k % all.len()], 296));
    }
    // 1536 slots over 77 samples.
    assert_eq!(loops(&clock), (3 * CHUNK as u32 - 1) / 77);
    assert_eq!(samples_played(&clock), 0);
    assert!(!finished(&clock));
}

#[test]
fn an_unreadable_file_is_silent_and_ends() {
    let (bytes, header, _) = track(2);
    let mut file = MemoryFile::new(&bytes[..28]);
    let mut stream = Stream::new(header, 28);
    let mut clock = Clock::new();
    let mut buf = [0u16; CHUNK];
    assert!(!fill(&mut buf, &mut stream, &mut file, &mut clock, 296, 148));
    assert!(buf.iter().all(|&d| d == 148));
    // No pass was completed.
    assert_eq!(loops(&clock), 0);
    assert_eq!(samples_played(&clock), 0);
}

#[test]
fn silence_follows_when_the_medium_fails() {
    let (bytes, header, all) = track(2);
    let mut stream = Stream::new(header, bytes.len() as u32);
    let mut file = MemoryFile::new(&bytes);
    for &s in &all[..4] {
        assert_eq!(stream.next(&mut file), Some(s));
    }
    // Seven samples of the first block are decoded; nothing more comes.
    let mut clock = Clock::new();
    clock.samples_played = 1024;
    let mut buf = [0u16; CHUNK];
    let mut f = Fill::new();
    while !f.is_full() {
        let sample = match stream.poll() {
            Pull::Sample(s) => Some(s),
            Pull::End => None,
            Pull::Block { .. } => {
                assert!(!stream.supply(&[]));
                None
            }
        };
        f.take(sample, &mut stream, &mut clock, &mut buf, 296, 148);
    }
    for (k, &duty) in buf.iter().enumerate() {
        let expected = if k < 7 { sample_to_duty(all[4 + k], 296) } else { 148 };
        assert_eq!(duty, expected);
    }
    // The pass broke off, so it does not count.
    assert_eq!((loops(&clock), samples_played(&clock)), (0, 0));
    assert!(stream.done);
}

#[test]
fn a_short_read_leaves_the_decoded_block() {
    let (bytes, header, _) = track(2);
    let mut file = MemoryFile::new(&bytes[..37]);
    let mut stream = Stream::new(header, 37);
    assert!(stream.refill(&mut file));
    stream.cursor = stream.valid;
    let samples = stream.samples;
    assert!(!stream.refill(&mut file));
    assert_eq!(stream.samples, samples);
    assert_eq!((stream.valid, stream.cursor, stream.next_block), (11, 11, 1));
}

#[test]
fn the_clock_counts_started_buffers() {
    let (_, header, _) = track(1);
    let mut clock = Clock::new();
    let mut p = Playback::new(&header);
    p.filled(true);
    p.filled(true);
    p.started(true);
    for k in 1..=5u32 {
        p.polled([k % 2 == 0, k % 2 == 1], &mut clock);
        assert_eq!(samples_played(&clock), 512 * k);
        p.filled(true);
    }
    clock.samples_played = u32::MAX - 511;
    p.polled([true, false], &mut clock);
    assert_eq!(samples_played(&clock), 0);
}

#[test]
fn a_fill_in_steps_does_the_same() {
    let (bytes, header, _) = track(3);
    let mut file = MemoryFile::new(&bytes);
    let mut whole = [0u16; CHUNK];
    let mut clock = Clock::new();
    let mut stream = Stream::new(header, bytes.len() as u32);
    assert!(fill(&mut whole, &mut stream, &mut file, &mut clock, 300, 150));

    let mut stepped = [0u16; CHUNK];
    let mut step_clock = Clock::new();
    let mut stream = Stream::new(header, bytes.len() as u32);
    let mut f = Fill::new();
    while !f.is_full() {
        let sample = match stream.poll() {
            Pull::Sample(s) => Some(s),
            Pull::End => None,
            Pull::Block { offset, len } => {
                stream.supply(&bytes[offset as usize..offset as usize + len]);
                continue;
            }
        };
        f.take(sample, &mut stream, &mut step_clock, &mut stepped, 300, 150);
    }
    assert_eq!(stepped, whole);
    assert_eq!(step_clock, clock);
}

#[test]
fn playback_primes_then_follows_the_peripheral() {
    let (_, header, _) = track(1);
    let mut clock = Clock::new();
    let mut p = Playback::new(&header);
    assert_eq!((p.top, p.refresh, p.silence), (296, 8, 148));
    assert_eq!(p.action(), Action::Fill(0));
    p.filled(true);
    assert_eq!(p.action(), Action::Fill(1));
    p.filled(true);
    assert_eq!(p.action(), Action::Start);
    p.started(true);
    assert_eq!(p.action(), Action::Poll(POLL_MS));

    p.polled([false, false], &mut clock);
    assert_eq!(p.action(), Action::Poll(5));
    assert_eq!(samples_played(&clock), 0);

    // Buffer 0 is known to play; its own start event makes buffer 1 idle.
    p.polled([true, false], &mut clock);
    assert_eq!(p.action(), Action::Fill(1));
    assert_eq!(samples_played(&clock), 512);
    p.filled(true);
    p.polled([false, true], &mut clock);
    assert_eq!(p.action(), Action::Fill(0));
    p.filled(true);
    p.polled([true, true], &mut clock);
    assert_eq!(p.action(), Action::Fill(1));
    p.filled(true);
    assert_eq!(samples_played(&clock), 1536);

    p.polled([false, true], &mut clock);
    p.filled(false);
    assert_eq!(p.action(), Action::Drain(170));
    p.drained(&mut clock);
    assert_eq!(p.action(), Action::Return);
    assert!(finished(&clock));
}

#[test]
fn playback_of_nothing_drains_at_once() {
    let (_, header, _) = track(0);
    let mut p = Playback::new(&header);
    p.filled(false);
    p.filled(true);
    p.started(true);
    assert_eq!(p.phase, Phase::Draining);
    let mut q = Playback::new(&header);
    q.filled(true);
    q.filled(true);
    q.started(false);
    assert_eq!(q.action(), Action::Return);
}

#[test]
fn a_pass_is_complete_at_the_end_of_the_track() {
    let (bytes, header, all) = track(3);
    // The last block is cut off: the track of this file has two.
    for (size, len) in [(bytes.len(), 33), (bytes.len() - 1, 22)] {
        let mut file = MemoryFile::new(&bytes[..size]);
        let mut stream = Stream::new(header, size as u32);
        for &s in &all[..len] {
            assert!(!stream.is_complete());
            assert_eq!(stream.next(&mut file), Some(s));
        }
        assert!(stream.is_complete());
        assert_eq!(stream.next(&mut file), None);
        assert!(stream.is_complete());
        stream.rewind();
        assert!(!stream.is_complete());
    }
    assert!(!Stream::new(header, 0).is_complete());
}

#[test]
fn a_pass_that_ends_at_the_track_counts_though_nothing_follows() {
    let (bytes, header, all) = track(1);
    let mut stream = Stream::new(header, bytes.len() as u32);
    let mut file = MemoryFile::new(&bytes);
    for &s in &all {
        assert_eq!(stream.next(&mut file), Some(s));
    }
    let mut clock = Clock::new();
    let mut buf = [0u16; CHUNK];
    let mut f = Fill::new();
    f.take(None, &mut stream, &mut clock, &mut buf, 296, 148);
    assert_eq!(loops(&clock), 1);
    f.take(None, &mut stream, &mut clock, &mut buf, 296, 148);
    assert_eq!((buf[0], f.at), (148, 1));
    f.take(None, &mut stream, &mut clock, &mut buf, 296, 148);
    assert_eq!(loops(&clock), 1);
}
