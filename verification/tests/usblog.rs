use aegg_apple::usblog::{
    append, drain, packet_bytes, push, stamp, start_hfxo, write_line, CrystalStep, Line, WriteError,
    Wrote, CRYSTAL_POLLS, LINE_LEN,
};

fn line(text: &str) -> Line {
    append(Line::new(), text).0
}

/// The packets of a line.
fn sent(line: &Line) -> Vec<Vec<u8>> {
    let mut out = write_line(line);
    let mut packets = Vec::new();
    while let Some(p) = out.next() {
        packets.push(packet_bytes(line, p).to_vec());
        out.wrote(Wrote::Sent).unwrap();
    }
    packets
}

#[test]
fn lines_are_stamped_with_the_uptime() {
    assert_eq!(stamp(0).as_str(), "[       0] ");
    assert_eq!(stamp(1234).as_str(), "[    1234] ");
    assert_eq!(stamp(12_345_678).as_str(), "[12345678] ");
    assert_eq!(stamp(123_456_789).as_str(), "[123456789] ");
    assert_eq!(stamp(u64::MAX).as_str(), "[18446744073709551615] ");
}

#[test]
fn messages_follow_the_stamp() {
    let (l, whole) = append(stamp(7), "frame 3");
    assert!(whole);
    assert_eq!(push(l).as_str(), "[       7] frame 3\r\n");
}

#[test]
fn what_does_not_fit_is_cut_off() {
    let full = line(&"x".repeat(LINE_LEN));
    assert_eq!(full.len(), LINE_LEN);
    let (out, whole) = append(full.clone(), "y");
    assert_eq!(out.as_str(), full.as_str());
    assert!(!whole);
    assert!(append(full, "").1);
    assert_eq!(line(&"x".repeat(LINE_LEN + 1)).as_str(), "x".repeat(LINE_LEN));
    let (out, whole) = append(line(&"x".repeat(LINE_LEN - 3)), "abcdef");
    assert!(out.as_str().ends_with("xabc"));
    assert!(!whole);
}

#[test]
fn lines_are_cut_between_characters() {
    // Three bytes each.
    let (out, whole) = append(line(&"x".repeat(LINE_LEN - 5)), "\u{20AC}\u{20AC}");
    assert!(out.as_str().ends_with("x\u{20AC}"));
    assert_eq!(out.len(), LINE_LEN - 2);
    assert!(!whole);
}

#[test]
fn the_line_ending_is_dropped_whole() {
    let full = line(&"x".repeat(LINE_LEN));
    assert_eq!(push(full.clone()).as_str(), full.as_str());
    let tight = line(&"x".repeat(LINE_LEN - 2));
    assert!(push(tight).as_str().ends_with("x\r\n"));
    let tighter = line(&"x".repeat(LINE_LEN - 1));
    assert_eq!(push(tighter.clone()).as_str(), tighter.as_str());
}

#[test]
fn packets_carry_the_line_in_order() {
    for n in [0usize, 1, 63, 64, 65, 127, 128] {
        let text: String = (0..n).map(|i| (b'a' + (i % 26) as u8) as char).collect();
        let l = line(&text);
        let packets = sent(&l);
        assert_eq!(packets.concat(), text.as_bytes());
        if n == 0 {
            assert!(packets.is_empty());
        } else {
            let (last, full) = packets.split_last().unwrap();
            assert!(full.iter().all(|p| p.len() == 64));
            assert!(last.len() < 64);
        }
    }
    assert_eq!(sent(&line(&"x".repeat(64))).len(), 2);
    assert_eq!(sent(&line(&"x".repeat(128))).len(), 3);
}

#[test]
fn a_packet_that_is_not_taken_gives_the_line_up() {
    let l = line("hello");
    let mut out = write_line(&l);
    assert_eq!(out.wrote(Wrote::TimedOut), Err(WriteError::Disabled));
    assert_eq!(
        out.wrote(Wrote::Failed(WriteError::BufferOverflow)),
        Err(WriteError::BufferOverflow)
    );
    assert_eq!(out.wrote(Wrote::Sent), Ok(()));
    assert!(out.next().is_none());
}

#[test]
fn a_running_crystal_is_left_alone() {
    assert_eq!(start_hfxo(true).step, CrystalStep::Done(true));
}

#[test]
fn a_crystal_that_starts_is_waited_for() {
    let mut c = start_hfxo(false);
    assert_eq!(c.step, CrystalStep::Request);
    c.wrote();
    assert_eq!(c.step, CrystalStep::Check);
    c.checked(false);
    assert_eq!(c.step, CrystalStep::Check);
    c.checked(true);
    assert_eq!(c.step, CrystalStep::Done(true));
}

#[test]
fn a_dead_crystal_is_given_up() {
    let mut c = start_hfxo(false);
    c.wrote();
    for _ in 0..CRYSTAL_POLLS {
        assert_eq!(c.step, CrystalStep::Check);
        c.checked(false);
    }
    assert_eq!(c.step, CrystalStep::Cancel);
    c.wrote();
    assert_eq!(c.step, CrystalStep::Done(false));
}

#[test]
fn lines_are_discarded_while_nobody_listens() {
    let l = line("hello");
    assert!(drain(&l, false).next().is_none());
    let p = drain(&l, true).next().unwrap();
    assert_eq!(packet_bytes(&l, p), b"hello");
}
