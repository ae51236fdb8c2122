//! The log lines of a serial console, and their way onto a USB bulk endpoint.
//!
//! Logging must never change the timing of the thing it is observing: a line
//! has a fixed capacity, text that does not fit is cut off, and a packet that
//! is not taken in time gives the line up. Consequently the log is lossy by
//! construction. It is a debugging aid, not a transcript.

use core::fmt::Write;
use vstd::prelude::*;
use vstd::string::StringSliceAdditionalSpecFns;
use vstd::utf8::*;

verus! {

/// Longest single log line, in bytes.
pub const LINE_LEN: usize = 128;

/// Lines that may be queued before new ones are dropped.
pub const QUEUE_LEN: usize = 32;

/// Maximum packet size for the bulk endpoints. 64 is the full-speed maximum.
pub const MAX_PACKET_SIZE: usize = 64;

/// How long a single packet write may take before the current line is given
/// up, in milliseconds.
pub const WRITE_TIMEOUT_MS: u64 = 250;

/// `heapless::String`, text in a buffer of fixed capacity.
#[verifier::external_type_specification]
#[verifier::external_body]
pub struct ExHeaplessString<const N: usize>(heapless::String<N>);

/// One line of the log.
pub type Line = heapless::String<LINE_LEN>;

/// The bytes that a line holds.
pub uninterp spec fn text(line: heapless::String<LINE_LEN>) -> Seq<u8>;

/// `heapless::String::new`: the new line is empty.
#[verifier::external_body]
fn new_line() -> (line: Line)
    ensures
        text(line) == Seq::<u8>::empty(),
{
    heapless::String::new()
}

/// `heapless::String::push_str`: appends all of `s` where the capacity allows
/// it, else nothing, and says which.
#[verifier::external_body]
fn push_str(line: &mut Line, s: &str) -> (pushed: bool)
    ensures
        pushed == (text(*old(line)).len() + s.spec_bytes().len() <= LINE_LEN),
        text(*final(line)) == (if pushed {
            text(*old(line)) + s.spec_bytes()
        } else {
            text(*old(line))
        }),
{
    line.push_str(s).is_ok()
}

/// `heapless::String::as_bytes`, through its `Deref` to `str`: the bytes of the
/// line, never more than its capacity.
#[verifier::external_body]
fn as_bytes(line: &Line) -> (bytes: &[u8])
    ensures
        bytes@ == text(*line),
        bytes@.len() <= LINE_LEN,
{
    line.as_bytes()
}

/// The decimal digits of a number.
pub open spec fn decimal(n: nat) -> Seq<u8>
    decreases n,
{
    if n < 10 {
        seq![(0x30 + n) as u8]
    } else {
        decimal(n / 10).push((0x30 + n % 10) as u8)
    }
}

/// The decimal digits of a number, aligned to the right in eight columns.
pub open spec fn padded(n: nat) -> Seq<u8> {
    let digits = decimal(n);
    let pad = if digits.len() < 8 {
        (8 - digits.len()) as nat
    } else {
        0
    };
    Seq::new(pad, |i: int| 0x20u8) + digits
}

/// The prefix of a line: the milliseconds since boot in brackets, and a space.
pub open spec fn stamp_text(uptime_ms: nat) -> Seq<u8> {
    seq![0x5Bu8] + padded(uptime_ms) + seq![0x5Du8, 0x20u8]
}

/// `core::fmt::Write::write_fmt` on a `heapless::String`, with one number
/// aligned to the right in eight columns: its decimal digits are appended,
/// behind as many spaces as it takes. A 64-bit number has at most twenty
/// digits, so with that much room nothing is dropped.
#[verifier::external_body]
fn write_padded(line: &mut Line, n: u64)
    requires
        text(*old(line)).len() + 20 <= LINE_LEN,
    ensures
        text(*final(line)) == text(*old(line)) + padded(n as nat),
{
    let _ = write!(line, "{:>8}", n);
}

proof fn lemma_digits(n: nat, most: nat)
    requires
        most >= 1,
        n < vstd::arithmetic::power::pow(10, most),
    ensures
        1 <= decimal(n).len() <= most,
    decreases most,
{
    vstd::arithmetic::power::lemma_pow1(10);
    if n >= 10 {
        assert(most > 1);
        vstd::arithmetic::power::lemma_pow_adds(10, 1, (most - 1) as nat);
        lemma_digits(n / 10, (most - 1) as nat);
    }
}

/// A 64-bit number has at most twenty digits.
proof fn lemma_padded_len(n: u64)
    ensures
        padded(n as nat).len() <= 20,
{
    assert(vstd::arithmetic::power::pow(10, 20) > u64::MAX) by {
        vstd::arithmetic::power::lemma_pow_adds(10, 10, 10);
        reveal_with_fuel(vstd::arithmetic::power::pow, 11);
    }
    lemma_digits(n as nat, 20);
}

/// Opens a line: the milliseconds since boot, for the message to follow.
pub fn stamp(uptime_ms: u64) -> (line: Line)
    ensures
        text(line) == stamp_text(uptime_ms as nat),
{
    proof {
        reveal_strlit("[");
        reveal_strlit("] ");
        assert(vstd::string::is_ascii("["));
        assert(vstd::string::is_ascii("] "));
        assert("[".spec_bytes() =~= seq![0x5Bu8]);
        assert("] ".spec_bytes() =~= seq![0x5Du8, 0x20u8]);
        lemma_padded_len(uptime_ms);
    }
    let mut line: Line = new_line();
    let _ = push_str(&mut line, "[");
    write_padded(&mut line, uptime_ms);
    let _ = push_str(&mut line, "] ");
    assert(text(line) =~= stamp_text(uptime_ms as nat));
    line
}

/// Whether a message is cut to its first `cut` bytes when there is room for
/// `room` of them: as much as fits of it, in whole characters.
pub open spec fn is_cut(message: Seq<u8>, room: int, cut: int) -> bool {
    &&& 0 <= cut <= message.len()
    &&& cut <= room
    &&& is_char_boundary(message, cut)
    &&& forall|k: int|
        cut < k <= message.len() && k <= room ==> !#[trigger] is_char_boundary(message, k)
}

/// Adds a message to a line. What does not fit is cut off. Returns the line,
/// and whether it holds all of the message.
pub fn append(line: Line, message: &str) -> (out: (Line, bool))
    ensures
        exists|cut: int|
            {
                &&& #[trigger] is_cut(message.spec_bytes(), LINE_LEN - text(line).len(), cut)
                &&& text(out.0) == text(line) + message.spec_bytes().subrange(0, cut)
                &&& out.1 == (cut == message.spec_bytes().len())
            },
{
    let mut line: Line = line;
    let used: usize = as_bytes(&line).len();
    let room: usize = LINE_LEN - used;
    let len: usize = message.as_bytes().len();
    let ghost bytes = message.spec_bytes();
    let mut cut: usize = if len < room {
        len
    } else {
        room
    };
    proof {
        encode_utf8_valid_utf8(message@);
        is_char_boundary_start_end_of_seq(bytes);
    }
    while !message.is_char_boundary(cut)
        invariant
            bytes == message.spec_bytes(),
            is_char_boundary(bytes, 0),
            cut <= room,
            cut <= bytes.len(),
            forall|k: int|
                cut < k <= bytes.len() && k <= room ==> !#[trigger] is_char_boundary(bytes, k),
        decreases cut,
    {
        cut = cut - 1;
    }
    let (head, _) = message.split_at(cut);
    let _ = push_str(&mut line, head);
    assert(is_cut(bytes, room as int, cut as int));
    (line, cut == len)
}

/// The line ending that a terminal wants.
pub open spec fn line_ending() -> Seq<u8> {
    seq![0x0Du8, 0x0Au8]
}

/// Finishes an already-formatted line for the queue.
///
/// A terminal that was opened with the usual line settings wants CRLF; the
/// trailing pair is added here so no call site has to remember it.
pub fn push(line: Line) -> (out: Line)
    ensures
        text(out) == (if text(line).len() + 2 <= LINE_LEN {
            text(line) + line_ending()
        } else {
            text(line)
        }),
{
    proof {
        reveal_strlit("\r\n");
        assert(vstd::string::is_ascii("\r\n"));
        assert("\r\n".spec_bytes() =~= line_ending());
    }
    let mut line: Line = line;
    let _ = push_str(&mut line, "\r\n");
    line
}

/// Why a line was given up.
#[derive(Debug, Clone, Copy, PartialEq, Eq, Structural)]
pub enum WriteError {
    /// A packet was longer than the endpoint takes.
    BufferOverflow,
    /// The host went away, or did not take a packet in time.
    Disabled,
}

/// What came of writing a packet.
#[derive(Debug, Clone, Copy, PartialEq, Eq, Structural)]
pub enum Wrote {
    Sent,
    Failed(WriteError),
    TimedOut,
}

/// One packet, as a range of the line's bytes.
#[derive(Debug, Clone, Copy, PartialEq, Eq, Structural)]
pub struct Packet {
    pub from: usize,
    pub to: usize,
}

/// The packets that carry the rest of a line of `len` bytes from byte `at` on,
/// as ranges. A transfer that ends on a full packet needs a zero-length packet
/// to terminate it, or the host holds the data back waiting for more.
pub open spec fn packets(len: int, at: int) -> Seq<(int, int)>
    decreases len - at,
{
    if at >= len {
        if len > 0 && len % 64 == 0 {
            seq![(len, len)]
        } else {
            Seq::empty()
        }
    } else {
        let to = if at + MAX_PACKET_SIZE < len {
            at + MAX_PACKET_SIZE
        } else {
            len
        };
        seq![(at, to)] + packets(len, to)
    }
}

/// A line on its way out.
#[derive(Debug, Clone, Copy)]
pub struct Packets {
    pub len: usize,
    /// Bytes that have been sent.
    pub at: usize,
    /// Whether the terminating packet has been sent.
    pub closed: bool,
}

impl Packets {
    pub open spec fn wf(&self) -> bool {
        &&& self.at <= self.len
        &&& self.at < self.len ==> self.at % MAX_PACKET_SIZE == 0
        &&& self.closed ==> self.at == self.len
    }

    /// The packets that are still to be sent.
    pub open spec fn left(&self) -> Seq<(int, int)> {
        if self.closed {
            Seq::empty()
        } else {
            packets(self.len as int, self.at as int)
        }
    }

    /// The next packet, `None` once the line is out.
    pub fn next(&self) -> (packet: Option<Packet>)
        requires
            self.wf(),
        ensures
            packet is None <==> self.left().len() == 0,
            packet matches Some(p) ==> {
                &&& (p.from as int, p.to as int) == self.left()[0]
                &&& p.from <= p.to <= self.len
                &&& p.to - p.from <= MAX_PACKET_SIZE
            },
    {
        if self.at < self.len {
            let to: usize = if self.len - self.at > MAX_PACKET_SIZE {
                self.at + MAX_PACKET_SIZE
            } else {
                self.len
            };
            Some(Packet { from: self.at, to })
        } else if !self.closed && self.len > 0 && self.len % 64 == 0 {
            Some(Packet { from: self.len, to: self.len })
        } else {
            None
        }
    }

    /// Takes what came of writing the packet that `next` named. A failure gives
    /// the line up.
    pub fn wrote(&mut self, outcome: Wrote) -> (went: Result<(), WriteError>)
        requires
            old(self).wf(),
            old(self).left().len() > 0,
        ensures
            final(self).wf(),
            final(self).len == old(self).len,
            went == (match outcome {
                Wrote::Sent => Ok(()),
                Wrote::Failed(e) => Err(e),
                Wrote::TimedOut => Err(WriteError::Disabled),
            }),
            went is Err ==> *final(self) == *old(self),
            went is Ok ==> final(self).left() == old(self).left().skip(1),
    {
        match outcome {
            Wrote::Failed(e) => Err(e),
            Wrote::TimedOut => Err(WriteError::Disabled),
            Wrote::Sent => {
                let ghost before = *self;
                if self.at >= self.len {
                    self.closed = true;
                } else if self.len - self.at > MAX_PACKET_SIZE {
                    self.at = self.at + MAX_PACKET_SIZE;
                } else {
                    self.at = self.len;
                }
                assert(self.left() =~= before.left().skip(1));
                Ok(())
            },
        }
    }
}

/// Starts writing a line as a sequence of full-speed packets.
pub fn write_line(line: &Line) -> (out: Packets)
    ensures
        out.wf(),
        out.len == text(*line).len(),
        out.left() == packets(text(*line).len() as int, 0),
{
    Packets { len: as_bytes(line).len(), at: 0, closed: false }
}

/// Starts sending a line that came out of the queue, or discards it where no
/// terminal has the port open: waiting for one would fill the queue with stale
/// lines.
pub fn drain(line: &Line, listening: bool) -> (out: Packets)
    ensures
        out.wf(),
        out.len == text(*line).len(),
        out.left() == (if listening {
            packets(text(*line).len() as int, 0)
        } else {
            Seq::empty()
        }),
{
    let mut out: Packets = write_line(line);
    if !listening {
        out.at = out.len;
        out.closed = true;
    }
    out
}

/// The bytes of a packet.
pub fn packet_bytes<'a>(line: &'a Line, packet: Packet) -> (bytes: &'a [u8])
    requires
        packet.from <= packet.to <= text(*line).len(),
    ensures
        bytes@ == text(*line).subrange(packet.from as int, packet.to as int),
{
    let all: &'a [u8] = as_bytes(line);
    vstd::slice::slice_subrange(all, packet.from, packet.to)
}

/// The bytes that a sequence of packets carries.
pub open spec fn carried(line: Seq<u8>, ranges: Seq<(int, int)>) -> Seq<u8>
    decreases ranges.len(),
{
    if ranges.len() == 0 {
        Seq::empty()
    } else {
        line.subrange(ranges[0].0, ranges[0].1) + carried(line, ranges.skip(1))
    }
}

proof fn lemma_packets(line: Seq<u8>, at: int)
    requires
        0 <= at <= line.len(),
        at < line.len() ==> at % 64 == 0,
    ensures
        carried(line, packets(line.len() as int, at)) == line.subrange(at, line.len() as int),
        forall|i: int|
            #![trigger packets(line.len() as int, at)[i]]
            0 <= i < packets(line.len() as int, at).len() ==> {
                let p = packets(line.len() as int, at)[i];
                &&& 0 <= p.1 - p.0 <= 64
                &&& p.1 - p.0 < 64 <==> i == packets(line.len() as int, at).len() - 1
            },
        at < line.len() ==> packets(line.len() as int, at).len() > 0,
    decreases line.len() - at,
{
    let len = line.len() as int;
    let all = packets(len, at);
    if at >= len {
        if len > 0 && len % 64 == 0 {
            assert(all.skip(1) =~= Seq::empty());
            assert(carried(line, all.skip(1)) =~= Seq::empty());
        }
        assert(carried(line, all) =~= line.subrange(at, len));
    } else {
        let to = if at + 64 < len {
            at + 64
        } else {
            len
        };
        lemma_packets(line, to);
        let more = packets(len, to);
        assert(all =~= seq![(at, to)] + more);
        assert(all.skip(1) =~= more);
        assert(carried(line, all) =~= line.subrange(at, to) + line.subrange(to, len));
        assert(line.subrange(at, to) + line.subrange(to, len) =~= line.subrange(at, len));
        assert forall|i: int|
            #![trigger all[i]]
            0 <= i < all.len() implies {
            &&& 0 <= all[i].1 - all[i].0 <= 64
            &&& all[i].1 - all[i].0 < 64 <==> i == all.len() - 1
        } by {
            if i > 0 {
                assert(all[i] == more[i - 1]);
            } else if to - at == 64 {
                // More follows a full packet, be it the terminator.
                assert(more.len() > 0) by {
                    if to == len {
                        assert(len % 64 == 0);
                    }
                }
            } else {
                assert(to == len);
                assert(len % 64 != 0);
                assert(more.len() == 0);
            }
        }
    }
}

/// The packets of a line carry exactly its bytes, in order.
pub proof fn law_packets_carry_the_line(line: Seq<u8>)
    ensures
        carried(line, packets(line.len() as int, 0)) == line,
{
    lemma_packets(line, 0);
    assert(line.subrange(0, line.len() as int) =~= line);
}

/// Every packet of a line but the last is full, and the last one is short: the
/// host sees where the transfer ends.
pub proof fn law_only_the_last_packet_is_short(line: Seq<u8>, i: int)
    requires
        0 <= i < packets(line.len() as int, 0).len(),
    ensures
        ({
            let all = packets(line.len() as int, 0);
            let size = all[i].1 - all[i].0;
            if i < all.len() - 1 {
                size == MAX_PACKET_SIZE
            } else {
                0 <= size < MAX_PACKET_SIZE
            }
        }),
{
    lemma_packets(line, 0);
}

/// How often the crystal is looked at before it is given up, one millisecond
/// apart. A healthy one starts in well under a millisecond.
pub const CRYSTAL_POLLS: u16 = 100;

/// What starting the crystal wants done.
#[derive(Debug, Clone, Copy, PartialEq, Eq, Structural)]
pub enum CrystalStep {
    /// Clear the start event and request the crystal.
    Request,
    /// Read the start event and report it; if it is not set, sleep one
    /// millisecond.
    Check,
    /// Cancel the request.
    Cancel,
    /// Nothing: the crystal runs, or does not.
    Done(bool),
}

/// The start of the crystal that USB needs, with a cap: on timeout the request
/// is cancelled, so that the controller stops driving a crystal that is not
/// oscillating, and the chip carries on without it.
#[derive(Debug, Clone, Copy, PartialEq, Eq, Structural)]
pub struct Crystal {
    pub step: CrystalStep,
    /// How often the start event was found unset.
    pub polls: u16,
}

impl Crystal {
    pub open spec fn wf(&self) -> bool {
        &&& self.step is Request ==> self.polls == 0
        &&& self.step is Check ==> self.polls < CRYSTAL_POLLS
        &&& self.step is Cancel ==> self.polls == CRYSTAL_POLLS
    }

    /// The request has been made, or cancelled.
    pub fn wrote(&mut self)
        requires
            old(self).wf(),
            old(self).step is Request || old(self).step is Cancel,
        ensures
            final(self).wf(),
            final(self).polls == old(self).polls,
            final(self).step == (if old(self).step is Request {
                CrystalStep::Check
            } else {
                CrystalStep::Done(false)
            }),
    {
        self.step = match self.step {
            CrystalStep::Request => CrystalStep::Check,
            _ => CrystalStep::Done(false),
        };
    }

    /// The start event has been read.
    pub fn checked(&mut self, started: bool)
        requires
            old(self).wf(),
            old(self).step is Check,
        ensures
            final(self).wf(),
            final(self).polls == old(self).polls + (if started {
                0int
            } else {
                1
            }),
            final(self).step == (if started {
                CrystalStep::Done(true)
            } else if old(self).polls + 1 < CRYSTAL_POLLS {
                CrystalStep::Check
            } else {
                CrystalStep::Cancel
            }),
    {
        if started {
            self.step = CrystalStep::Done(true);
            return;
        }
        self.polls = self.polls + 1;
        if self.polls >= CRYSTAL_POLLS {
            self.step = CrystalStep::Cancel;
        }
    }
}

/// Starts the crystal, unless it is running already.
pub fn start_hfxo(running: bool) -> (crystal: Crystal)
    ensures
        crystal.wf(),
        crystal.polls == 0,
        crystal.step == (if running {
            CrystalStep::Done(true)
        } else {
            CrystalStep::Request
        }),
{
    Crystal {
        step: if running {
            CrystalStep::Done(true)
        } else {
            CrystalStep::Request
        },
        polls: 0,
    }
}

/// The number that decimal digits spell.
pub open spec fn spelled(digits: Seq<u8>) -> int
    decreases digits.len(),
{
    if digits.len() == 0 {
        0
    } else {
        10 * spelled(digits.drop_last()) + (digits.last() - '0' as u8)
    }
}

/// A stamp reads back: its digits spell the number, none of them is anything
/// else, and none leads with a zero but the number zero.
pub proof fn law_a_stamp_reads_back(n: nat)
    ensures
        spelled(decimal(n)) == n,
        forall|i: int|
            0 <= i < decimal(n).len() ==> '0' as u8 <= #[trigger] decimal(n)[i] <= '9' as u8,
        n > 0 ==> decimal(n)[0] != '0' as u8,
        n == 0 ==> decimal(n).len() == 1,
        decimal(n).len() > 0,
    decreases n,
{
    if n < 10 {
        assert(decimal(n).drop_last() =~= Seq::<u8>::empty());
        assert(spelled(Seq::<u8>::empty()) == 0);
    } else {
        law_a_stamp_reads_back(n / 10);
        let digits = decimal(n);
        assert(digits.drop_last() =~= decimal(n / 10));
        assert(digits[0] == decimal(n / 10)[0]);
    }
}

/// Stamps line up: an opening bracket, the digits pushed to the right edge of
/// eight columns by spaces, wider only where there are more digits, a closing
/// bracket and a space.
pub proof fn law_stamps_line_up(n: nat)
    ensures
        ({
            let stamp = stamp_text(n);
            let digits = decimal(n);
            let end = stamp.len() - 2;
            &&& stamp.len() == (if digits.len() < 8 {
                8
            } else {
                digits.len() as int
            }) + 3
            &&& stamp[0] == '[' as u8
            &&& stamp.subrange(end - digits.len(), end) == digits
            &&& forall|i: int|
                1 <= i < end - digits.len() ==> #[trigger] stamp[i] == ' ' as u8
            &&& stamp.skip(end) == seq![']' as u8, ' ' as u8]
        }),
{
    law_a_stamp_reads_back(n);
    let stamp = stamp_text(n);
    let digits = decimal(n);
    let end = stamp.len() - 2;
    assert(stamp.subrange(end - digits.len(), end) =~= digits);
    assert(stamp.skip(end) =~= seq![']' as u8, ' ' as u8]);
}

/// As much of a message is kept as fits: all of it where there is room, else
/// the longest run of whole characters that does not take more, and never two
/// different lengths.
pub proof fn law_as_much_is_kept_as_fits(message: Seq<u8>, room: int, cut: int, k: int)
    requires
        is_cut(message, room, cut),
        is_char_boundary(message, message.len() as int),
        room >= 0,
    ensures
        message.len() <= room ==> cut == message.len(),
        cut <= room,
        is_char_boundary(message, cut),
        0 <= k <= room && k <= message.len() && is_char_boundary(message, k) ==> k <= cut,
        is_cut(message, room, k) ==> k == cut,
{
}

} // verus!
