//! The connection state machine: handshake, byte-offset sequencing,
//! cumulative and selective acknowledgment, a selective-repeat receive
//! buffer, one retransmission timer keyed off the oldest unacknowledged
//! segment, and a FIN exchange with its own acknowledgment bit. SYN and
//! FIN consume no sequence space.
//!
//! Poll-driven: every method takes the caller's current tick and returns
//! the encoded datagrams to hand to whatever carries them.
//!
//! The state is modelled by `ConnectionModel`; every public method's
//! contract says exactly which model and which datagrams it produces, by
//! the spec functions below. Two ghost histories ride along: every byte
//! ever queued for sending and every byte ever delivered, in order.

use crate::channel::tick::Tick;
use crate::frame::{decode, encode, spec_decode, spec_encode, Frame, FrameModel};
use crate::le::append;
use crate::transport::rto::{
    rto_wf, spec_current, spec_on_sample, spec_on_timeout, RtoEstimator, RtoModel, MAX_RTO_LIMIT,
    MAX_RTT_SAMPLE,
};
use crate::transport::segment::{
    spec_decode_header, spec_encode_header, SackRange, SegmentHeader, SegmentHeaderModel,
    MAX_SACK_RANGES,
};
use vstd::prelude::*;

verus! {

pub const FLAG_SYN: u16 = 1;

pub const FLAG_ACK: u16 = 2;

pub const FLAG_FIN: u16 = 4;

/// `FLAG_SYN | FLAG_ACK`.
pub const FLAGS_SYN_ACK: u16 = 3;

/// `FLAG_FIN | FLAG_ACK`.
pub const FLAGS_FIN_ACK: u16 = 6;

#[derive(Debug, Clone, Copy, PartialEq, Eq, Structural)]
pub enum FailureReason {
    /// A control message or a data segment went unacknowledged for more
    /// than `Config::max_retries` retransmissions.
    TooManyRetries,
}

#[derive(Debug, Clone, Copy, PartialEq, Eq, Structural)]
pub enum State {
    Listening,
    SynSent,
    SynReceived,
    Established,
    /// `close()` was called; outstanding data and/or the FIN exchange are
    /// still finishing.
    Closing,
    Closed,
    Failed(FailureReason),
}

#[derive(Debug, Clone, Copy)]
pub struct Config {
    /// Maximum application bytes per data segment.
    pub segment_size: usize,
    /// Maximum number of data segments outstanding at once.
    pub max_in_flight_segments: usize,
    pub min_rto: u64,
    pub max_rto: u64,
    /// A segment or control message failing this many consecutive
    /// retransmissions fails the connection.
    pub max_retries: u32,
}

impl Default for Config {
    fn default() -> (c: Config)
        ensures
            c.segment_size == 512,
            c.max_in_flight_segments == 8,
            c.min_rto == 2,
            c.max_rto == 500,
            c.max_retries == 12,
    {
        Config {
            segment_size: 512,
            max_in_flight_segments: 8,
            min_rto: 2,
            max_rto: 500,
            max_retries: 12,
        }
    }
}

/// The configurations a connection accepts: nonempty segments (an empty
/// one would never drain the send queue), a sane timeout range whose
/// backed-off values fit in a `u64`, and a retry bound below `u32::MAX`.
pub open spec fn config_valid(c: Config) -> bool {
    &&& c.segment_size > 0
    &&& c.min_rto <= c.max_rto <= MAX_RTO_LIMIT
    &&& c.max_retries < u32::MAX
}

#[derive(Debug, Clone, Copy, PartialEq, Eq, Structural)]
pub struct Stats {
    pub data_segments_sent: u64,
    pub data_segments_retransmitted: u64,
    pub ack_segments_sent: u64,
    pub control_retransmissions: u64,
    pub bytes_sent_app: u64,
    pub bytes_delivered_app: u64,
    pub duplicate_bytes_received: u64,
}

impl Default for Stats {
    fn default() -> (s: Stats)
        ensures
            s == zero_stats(),
    {
        Stats {
            data_segments_sent: 0,
            data_segments_retransmitted: 0,
            ack_segments_sent: 0,
            control_retransmissions: 0,
            bytes_sent_app: 0,
            bytes_delivered_app: 0,
            duplicate_bytes_received: 0,
        }
    }
}

pub open spec fn zero_stats() -> Stats {
    Stats {
        data_segments_sent: 0,
        data_segments_retransmitted: 0,
        ack_segments_sent: 0,
        control_retransmissions: 0,
        bytes_sent_app: 0,
        bytes_delivered_app: 0,
        duplicate_bytes_received: 0,
    }
}

/// `a + b`, saturating at `u64::MAX` (for counters of events that nothing
/// bounds).
pub open spec fn sat_add(a: u64, b: int) -> u64 {
    if a + b > u64::MAX {
        u64::MAX
    } else {
        (a + b) as u64
    }
}

/// A control message (SYN, SYN-ACK or FIN) awaiting acknowledgment.
#[derive(Debug, Clone, Copy, PartialEq, Eq, Structural)]
pub struct PendingControl {
    pub sent_at: Tick,
    pub attempts: u32,
}

/// A sent, not yet cumulatively acknowledged data segment.
#[derive(Debug)]
pub struct UnackedSegment {
    seq: u32,
    data: Vec<u8>,
    sent_at: Tick,
    retransmit_count: u32,
    /// The peer reported this range as held out of order; a timeout sweep
    /// skips it.
    sacked: bool,
}

#[verifier::ext_equal]
pub struct SegmentModel {
    pub seq: u32,
    pub data: Seq<u8>,
    pub sent_at: u64,
    pub retransmit_count: u32,
    pub sacked: bool,
}

impl View for UnackedSegment {
    type V = SegmentModel;

    closed spec fn view(&self) -> SegmentModel {
        SegmentModel {
            seq: self.seq,
            data: self.data@,
            sent_at: self.sent_at.0,
            retransmit_count: self.retransmit_count,
            sacked: self.sacked,
        }
    }
}

/// The models of a list of segments.
pub open spec fn seg_views(v: Seq<UnackedSegment>) -> Seq<SegmentModel> {
    v.map_values(|s: UnackedSegment| s@)
}

/// Bytes held out of order at stream offset `seq`.
#[derive(Debug)]
pub struct Buffered {
    seq: u32,
    data: Vec<u8>,
}

impl View for Buffered {
    type V = (u32, Seq<u8>);

    closed spec fn view(&self) -> (u32, Seq<u8>) {
        (self.seq, self.data@)
    }
}

pub struct Connection {
    config: Config,
    state: State,
    now: Tick,
    rto: RtoEstimator,
    stats: Stats,
    handshake: Option<PendingControl>,
    send_queue: Vec<u8>,
    next_seq: u32,
    send_base: u32,
    /// Sorted by strictly increasing `seq`.
    unacked: Vec<UnackedSegment>,
    close_requested: bool,
    fin_pending: Option<PendingControl>,
    fin_acked: bool,
    expected_seq: u32,
    /// Sorted by strictly increasing offset.
    recv_buffer: Vec<Buffered>,
    delivered: Vec<u8>,
    peer_fin_seen: bool,
    /// Every byte ever queued by `send`, in order.
    sent: Ghost<Seq<u8>>,
    /// Every byte ever delivered in order, whether or not `recv` took it.
    received: Ghost<Seq<u8>>,
}

/// A connection's state as plain values.
#[verifier::ext_equal]
pub struct ConnectionModel {
    pub config: Config,
    pub state: State,
    pub now: u64,
    pub rto: RtoModel,
    pub stats: Stats,
    pub handshake: Option<PendingControl>,
    pub send_queue: Seq<u8>,
    pub next_seq: u32,
    pub send_base: u32,
    pub unacked: Seq<SegmentModel>,
    pub close_requested: bool,
    pub fin_pending: Option<PendingControl>,
    pub fin_acked: bool,
    pub expected_seq: u32,
    pub recv_buffer: Seq<(u32, Seq<u8>)>,
    pub delivered: Seq<u8>,
    pub peer_fin_seen: bool,
    pub sent: Seq<u8>,
    pub received: Seq<u8>,
}

impl View for Connection {
    type V = ConnectionModel;

    closed spec fn view(&self) -> ConnectionModel {
        ConnectionModel {
            config: self.config,
            state: self.state,
            now: self.now.0,
            rto: self.rto@,
            stats: self.stats,
            handshake: self.handshake,
            send_queue: self.send_queue@,
            next_seq: self.next_seq,
            send_base: self.send_base,
            unacked: seg_views(self.unacked@),
            close_requested: self.close_requested,
            fin_pending: self.fin_pending,
            fin_acked: self.fin_acked,
            expected_seq: self.expected_seq,
            recv_buffer: self.recv_buffer@.map_values(|b: Buffered| b@),
            delivered: self.delivered@,
            peer_fin_seen: self.peer_fin_seen,
            sent: self.sent@,
            received: self.received@,
        }
    }
}

/// A pending control message's invariant: sent no later than now, and an
/// attempt count that can still be incremented.
pub open spec fn pending_wf(p: Option<PendingControl>, now: u64, max_retries: u32) -> bool {
    match p {
        Some(c) => c.sent_at.0 <= now && 1 <= c.attempts && (c.attempts == 1 || c.attempts
            <= max_retries),
        None => true,
    }
}

/// The connection's invariant.
pub open spec fn conn_inv(m: ConnectionModel) -> bool {
    &&& config_valid(m.config)
    &&& rto_wf(m.rto)
    &&& m.now <= MAX_RTT_SAMPLE
    &&& pending_wf(m.handshake, m.now, m.config.max_retries)
    &&& pending_wf(m.fin_pending, m.now, m.config.max_retries)
    // Send side: the queue is the unsent tail of everything ever queued.
    &&& m.sent.len() == m.next_seq + m.send_queue.len()
    &&& m.sent.len() <= u32::MAX
    &&& m.send_queue == m.sent.skip(m.next_seq as int)
    &&& m.stats.bytes_sent_app == m.sent.len()
    &&& m.stats.data_segments_sent <= m.next_seq
    &&& forall|i: int, j: int|
        0 <= i < j < m.unacked.len() ==> #[trigger] m.unacked[i].seq < #[trigger] m.unacked[j].seq
    &&& forall|i: int|
        0 <= i < m.unacked.len() ==> {
            let s = #[trigger] m.unacked[i];
            &&& s.data.len() > 0
            &&& s.seq + s.data.len() <= m.next_seq
            &&& s.data == m.sent.subrange(s.seq as int, s.seq + s.data.len())
            &&& s.retransmit_count <= m.config.max_retries
            &&& s.sent_at <= m.now
        }
    // Receive side: the delivered history is as long as the stream
    // offset it reached.
    &&& m.received.len() == m.expected_seq
    &&& m.stats.bytes_delivered_app == m.expected_seq
    &&& forall|i: int, j: int|
        0 <= i < j < m.recv_buffer.len() ==> #[trigger] m.recv_buffer[i].0
            < #[trigger] m.recv_buffer[j].0
    &&& forall|i: int|
        0 <= i < m.recv_buffer.len() ==> {
            let b = #[trigger] m.recv_buffer[i];
            &&& b.1.len() > 0
            &&& b.0 + b.1.len() <= u32::MAX
        }
}


// ---- Datagrams --------------------------------------------------------

/// A transport datagram: a frame of type 0.
pub open spec fn frame_bytes(sequence: u32, flags: u16, payload: Seq<u8>) -> Seq<u8> {
    spec_encode(FrameModel { frame_type: 0, sequence, flags, payload })
}

pub open spec fn syn_bytes() -> Seq<u8> {
    frame_bytes(0, FLAG_SYN, Seq::empty())
}

pub open spec fn synack_bytes() -> Seq<u8> {
    frame_bytes(0, FLAGS_SYN_ACK, Seq::empty())
}

pub open spec fn handshake_ack_bytes() -> Seq<u8> {
    frame_bytes(0, FLAG_ACK, Seq::empty())
}

/// The end (inclusive) of the run of adjacent buffered ranges that starts
/// with a range ending at `end` and continues from `buf[j]`, and the index
/// just past that run.
pub open spec fn run_from(buf: Seq<(u32, Seq<u8>)>, j: int, end: int) -> (int, int)
    decreases buf.len() - j,
{
    if 0 <= j < buf.len() && buf[j].0 == end + 1 {
        run_from(buf, j + 1, buf[j].0 + buf[j].1.len() - 1)
    } else {
        (end, j)
    }
}

/// Following a run of adjacent buffered ranges only moves forward, and
/// stays within the buffer.
pub proof fn lemma_run_from_advances(buf: Seq<(u32, Seq<u8>)>, j: int, end: int)
    requires
        0 <= j,
    ensures
        j <= run_from(buf, j, end).1,
        run_from(buf, j, end).1 <= if j <= buf.len() { buf.len() as int } else { j },
    decreases buf.len() - j,
{
    if 0 <= j < buf.len() && buf[j].0 == end + 1 {
        lemma_run_from_advances(buf, j + 1, buf[j].0 + buf[j].1.len() - 1);
    }
}

/// The maximal runs of adjacent buffered ranges from `buf[i]` on, each as
/// one inclusive SACK range.
pub open spec fn runs_from(buf: Seq<(u32, Seq<u8>)>, i: int) -> Seq<SackRange>
    decreases buf.len() - i,
{
    if 0 <= i < buf.len() {
        let r = run_from(buf, i + 1, buf[i].0 + buf[i].1.len() - 1);
        proof {
            lemma_run_from_advances(buf, i + 1, buf[i].0 + buf[i].1.len() - 1);
        }
        seq![SackRange { start: buf[i].0, end: r.0 as u32 }] + runs_from(buf, r.1)
    } else {
        Seq::empty()
    }
}

/// The SACK ranges a connection reports: the first `MAX_SACK_RANGES` runs
/// of its receive buffer.
pub open spec fn current_sack(m: ConnectionModel) -> Seq<SackRange> {
    let all = runs_from(m.recv_buffer, 0);
    if all.len() <= MAX_SACK_RANGES {
        all
    } else {
        all.take(MAX_SACK_RANGES as int)
    }
}

/// The transport header a connection piggybacks: its cumulative ack and
/// SACK ranges.
pub open spec fn ack_header(m: ConnectionModel, fin_ack: bool) -> Seq<u8> {
    spec_encode_header(SegmentHeaderModel { ack: m.expected_seq, fin_ack, sack: current_sack(m) })
}

pub open spec fn pure_ack_bytes(m: ConnectionModel, fin_ack: bool) -> Seq<u8> {
    frame_bytes(m.send_base, FLAG_ACK, ack_header(m, fin_ack))
}

pub open spec fn fin_bytes(m: ConnectionModel) -> Seq<u8> {
    frame_bytes(m.send_base, FLAGS_FIN_ACK, ack_header(m, false))
}

pub open spec fn data_bytes(seq: u32, data: Seq<u8>, header: Seq<u8>) -> Seq<u8> {
    frame_bytes(seq, FLAG_ACK, header + data)
}

// ---- Sending ------------------------------------------------------------

pub open spec fn with_now(m: ConnectionModel, now: u64) -> ConnectionModel {
    ConnectionModel {
        now: if now > m.now {
            now
        } else {
            m.now
        },
        ..m
    }
}

pub open spec fn min_usize(a: usize, b: nat) -> nat {
    if a < b {
        a as nat
    } else {
        b
    }
}

/// Cuts queued bytes into segments while the connection is established
/// or closing and fewer than `max_in_flight_segments` are outstanding.
pub open spec fn spec_try_send_more(m: ConnectionModel) -> (ConnectionModel, Seq<Seq<u8>>)
    decreases m.send_queue.len(),
{
    if !(m.state == State::Established || m.state == State::Closing) || m.send_queue.len() == 0
        || m.unacked.len() >= m.config.max_in_flight_segments || m.config.segment_size == 0 {
        (m, Seq::empty())
    } else {
        let n = min_usize(m.config.segment_size, m.send_queue.len());
        let data = m.send_queue.take(n as int);
        let seg = SegmentModel {
            seq: m.next_seq,
            data,
            sent_at: m.now,
            retransmit_count: 0,
            sacked: false,
        };
        let m1 = ConnectionModel {
            send_queue: m.send_queue.skip(n as int),
            next_seq: (m.next_seq + n) as u32,
            unacked: m.unacked.push(seg),
            stats: Stats { data_segments_sent: (m.stats.data_segments_sent + 1) as u64, ..m.stats },
            ..m
        };
        let (m2, out) = spec_try_send_more(m1);
        (m2, seq![data_bytes(m.next_seq, data, ack_header(m, false))] + out)
    }
}

/// Sends the FIN once close was asked for and every queued byte is
/// acknowledged.
pub open spec fn spec_maybe_send_fin(m: ConnectionModel) -> (ConnectionModel, Seq<Seq<u8>>) {
    if m.close_requested && m.fin_pending is None && !m.fin_acked && m.state == State::Established
        && m.send_queue.len() == 0 && m.unacked.len() == 0 {
        (
            ConnectionModel {
                state: State::Closing,
                fin_pending: Some(PendingControl { sent_at: Tick(m.now), attempts: 1 }),
                ..m
            },
            seq![fin_bytes(m)],
        )
    } else {
        (m, Seq::empty())
    }
}

/// Closed once our FIN is acknowledged and the peer's FIN was seen.
pub open spec fn spec_check_closed(m: ConnectionModel) -> ConnectionModel {
    if m.state == State::Closing && m.fin_acked && m.peer_fin_seen {
        ConnectionModel { state: State::Closed, ..m }
    } else {
        m
    }
}

pub open spec fn spec_drain(m: ConnectionModel) -> (ConnectionModel, Seq<Seq<u8>>) {
    let (m1, o1) = spec_try_send_more(m);
    let (m2, o2) = spec_maybe_send_fin(m1);
    (spec_check_closed(m2), o1 + o2)
}

pub open spec fn spec_send(m: ConnectionModel, now: u64, data: Seq<u8>) -> (
    ConnectionModel,
    Seq<Seq<u8>>,
) {
    let m1 = with_now(m, now);
    spec_drain(
        ConnectionModel {
            send_queue: m1.send_queue + data,
            sent: m1.sent + data,
            stats: Stats {
                bytes_sent_app: (m1.stats.bytes_sent_app + data.len()) as u64,
                ..m1.stats
            },
            ..m1
        },
    )
}

pub open spec fn spec_close(m: ConnectionModel, now: u64) -> (ConnectionModel, Seq<Seq<u8>>) {
    spec_drain(ConnectionModel { close_requested: true, ..with_now(m, now) })
}

/// A fresh connection in `state`.
pub open spec fn blank_model(config: Config, now: u64, state: State) -> ConnectionModel {
    ConnectionModel {
        config,
        state,
        now,
        rto: RtoModel {
            srtt: None,
            rttvar: 0,
            min_rto: config.min_rto,
            max_rto: config.max_rto,
            backoff: 1,
        },
        stats: zero_stats(),
        handshake: None,
        send_queue: Seq::empty(),
        next_seq: 0,
        send_base: 0,
        unacked: Seq::empty(),
        close_requested: false,
        fin_pending: None,
        fin_acked: false,
        expected_seq: 0,
        recv_buffer: Seq::empty(),
        delivered: Seq::empty(),
        peer_fin_seen: false,
        sent: Seq::empty(),
        received: Seq::empty(),
    }
}


// ---- Receiving ----------------------------------------------------------

/// The index of the first buffered range from `i` on whose offset is at
/// least `x` (the buffer's length if none).
pub open spec fn first_at_least(buf: Seq<(u32, Seq<u8>)>, x: int, i: int) -> int
    decreases buf.len() - i,
{
    if i < 0 || i >= buf.len() {
        buf.len() as int
    } else if buf[i].0 >= x {
        i
    } else {
        first_at_least(buf, x, i + 1)
    }
}

/// The first buffered range starting at or after `x` lies in range, and
/// every range before it starts before `x`.
pub proof fn lemma_first_at_least(buf: Seq<(u32, Seq<u8>)>, x: int, i: int)
    requires
        0 <= i <= buf.len(),
    ensures
        i <= first_at_least(buf, x, i) <= buf.len(),
        forall|k: int| i <= k < first_at_least(buf, x, i) ==> buf[k].0 < x,
        first_at_least(buf, x, i) < buf.len() ==> buf[first_at_least(buf, x, i)].0 >= x,
    decreases buf.len() - i,
{
    if i < buf.len() && buf[i].0 < x {
        lemma_first_at_least(buf, x, i + 1);
    }
}

/// Moves buffered ranges that start exactly at the next expected offset
/// into the delivered stream, as long as there are any.
pub open spec fn spec_absorb(m: ConnectionModel) -> ConnectionModel
    decreases m.recv_buffer.len(),
{
    let buf = m.recv_buffer;
    let i = first_at_least(buf, m.expected_seq as int, 0);
    if 0 <= i < buf.len() && buf[i].0 == m.expected_seq {
        let v = buf[i].1;
        spec_absorb(
            ConnectionModel {
                recv_buffer: buf.remove(i),
                expected_seq: (m.expected_seq + v.len()) as u32,
                delivered: m.delivered + v,
                received: m.received + v,
                stats: Stats {
                    bytes_delivered_app: (m.stats.bytes_delivered_app + v.len()) as u64,
                    ..m.stats
                },
                ..m
            },
        )
    } else {
        m
    }
}

/// Buffers out-of-order bytes at `seq`, replacing what was buffered at
/// exactly that offset.
pub open spec fn spec_buffer_insert(buf: Seq<(u32, Seq<u8>)>, seq: u32, data: Seq<u8>) -> Seq<
    (u32, Seq<u8>),
> {
    let i = first_at_least(buf, seq as int, 0);
    if 0 <= i < buf.len() && buf[i].0 == seq {
        buf.update(i, (seq, data))
    } else {
        buf.insert(i, (seq, data))
    }
}

/// Accepts `data` found at stream offset `seq`: wholly old bytes only
/// count as duplicates; bytes reaching past the expected offset from at
/// or before it are delivered (their old prefix counted as duplicate),
/// then anything buffered that now fits; bytes beyond a gap are
/// buffered.
pub open spec fn spec_deliver(m: ConnectionModel, seq: u32, data: Seq<u8>) -> ConnectionModel {
    if data.len() == 0 {
        m
    } else if seq + data.len() <= m.expected_seq {
        ConnectionModel {
            stats: Stats {
                duplicate_bytes_received: sat_add(m.stats.duplicate_bytes_received, data.len() as int),
                ..m.stats
            },
            ..m
        }
    } else if seq <= m.expected_seq {
        let skip = m.expected_seq - seq;
        let fresh = data.skip(skip);
        spec_absorb(
            ConnectionModel {
                stats: Stats {
                    duplicate_bytes_received: sat_add(m.stats.duplicate_bytes_received, skip),
                    bytes_delivered_app: (m.stats.bytes_delivered_app + fresh.len()) as u64,
                    ..m.stats
                },
                delivered: m.delivered + fresh,
                received: m.received + fresh,
                expected_seq: (seq + data.len()) as u32,
                ..m
            },
        )
    } else {
        ConnectionModel { recv_buffer: spec_buffer_insert(m.recv_buffer, seq, data), ..m }
    }
}

/// How many leading segments start below `ack`.
pub open spec fn count_below(segs: Seq<SegmentModel>, ack: u32) -> nat
    decreases segs.len(),
{
    if segs.len() > 0 && segs[0].seq < ack {
        1 + count_below(segs.skip(1), ack)
    } else {
        0
    }
}

/// The estimator after sampling, in order, every segment of `segs` that
/// was never retransmitted (Karn's rule).
pub open spec fn sample_all(rto: RtoModel, now: u64, segs: Seq<SegmentModel>) -> RtoModel
    decreases segs.len(),
{
    if segs.len() == 0 {
        rto
    } else {
        let next = if segs[0].retransmit_count == 0 {
            spec_on_sample(rto, (now - segs[0].sent_at) as u64)
        } else {
            rto
        };
        sample_all(next, now, segs.skip(1))
    }
}

/// Whether some range of `sack` covers offset `seq`.
pub open spec fn sack_covers(sack: Seq<SackRange>, seq: u32) -> bool {
    exists|j: int| 0 <= j < sack.len() && #[trigger] sack[j].start <= seq <= sack[j].end
}

pub open spec fn mark_sacked(segs: Seq<SegmentModel>, sack: Seq<SackRange>) -> Seq<SegmentModel> {
    segs.map_values(
        |s: SegmentModel| SegmentModel { sacked: s.sacked || sack_covers(sack, s.seq), ..s },
    )
}

/// Applies the peer's acknowledgment: a cumulative ack beyond our base
/// retires every segment starting below it (sampling the RTT of those
/// never retransmitted), SACK ranges mark the segments they cover, and a
/// `fin_ack` settles our FIN.
pub open spec fn spec_apply_ack(m: ConnectionModel, h: SegmentHeaderModel) -> ConnectionModel {
    let m1 = if h.ack > m.send_base {
        let k = count_below(m.unacked, h.ack);
        ConnectionModel {
            rto: sample_all(m.rto, m.now, m.unacked.take(k as int)),
            unacked: m.unacked.skip(k as int),
            send_base: h.ack,
            ..m
        }
    } else {
        m
    };
    let m2 = ConnectionModel { unacked: mark_sacked(m1.unacked, h.sack), ..m1 };
    if h.fin_ack {
        spec_check_closed(ConnectionModel { fin_acked: true, fin_pending: None, ..m2 })
    } else {
        m2
    }
}

/// SACK ranges that a walk from start to end can take: each start at
/// most its end.
pub open spec fn sack_ranges_ordered(sack: Seq<SackRange>) -> bool {
    forall|j: int| 0 <= j < sack.len() ==> #[trigger] sack[j].start <= sack[j].end
}

pub open spec fn is_syn(flags: u16) -> bool {
    flags & FLAG_SYN != 0
}

pub open spec fn is_ack(flags: u16) -> bool {
    flags & FLAG_ACK != 0
}

pub open spec fn is_fin(flags: u16) -> bool {
    flags & FLAG_FIN != 0
}

/// Completes our side of the handshake: the handshake timer is retired,
/// and its RTT sampled if it was never retransmitted.
pub open spec fn handshake_done(m: ConnectionModel) -> ConnectionModel {
    match m.handshake {
        Some(h) => ConnectionModel {
            state: State::Established,
            rto: if h.attempts == 1 {
                spec_on_sample(m.rto, (m.now - h.sent_at.0) as u64)
            } else {
                m.rto
            },
            handshake: None,
            ..m
        },
        None => ConnectionModel { state: State::Established, ..m },
    }
}

/// The handshake part of handling a segment with these flags: the state
/// it leaves, what it sends, and whether the segment's ack, data and FIN
/// are processed afterwards.
pub open spec fn spec_handshake_step(m: ConnectionModel, flags: u16) -> (
    ConnectionModel,
    Seq<Seq<u8>>,
    bool,
) {
    let syn = is_syn(flags);
    let ack = is_ack(flags);
    if m.state == State::Listening && syn && !ack {
        (
            ConnectionModel {
                state: State::SynReceived,
                handshake: Some(PendingControl { sent_at: Tick(m.now), attempts: 1 }),
                ..m
            },
            seq![synack_bytes()],
            false,
        )
    } else if m.state == State::SynReceived && syn && !ack {
        // Our SYN-ACK was likely lost: answer again without counting an
        // attempt of our own.
        (m, seq![synack_bytes()], false)
    } else if m.state == State::SynSent && syn && ack {
        (handshake_done(m), seq![handshake_ack_bytes()], true)
    } else if m.state == State::SynReceived && ack && !syn {
        // Any ACK-flagged segment completes the handshake, data included.
        (handshake_done(m), Seq::empty(), true)
    } else if (m.state == State::Established || m.state == State::Closing) && syn && ack {
        // A duplicate SYN-ACK: our completing ACK was lost; send it again.
        (m, seq![handshake_ack_bytes()], true)
    } else {
        (m, Seq::empty(), true)
    }
}

/// Whether, after the handshake step, the segment's ack, data and FIN
/// are processed.
pub open spec fn processes(m: ConnectionModel, flags: u16) -> bool {
    let (m1, _, cont) = spec_handshake_step(m, flags);
    cont && (m1.state == State::Established || m1.state == State::Closing)
}

/// An established (or closing) connection's handling of a segment: its
/// ack, then its data, then its FIN; data or a FIN gets a pure ACK back
/// (with `fin_ack` for a FIN); then whatever can now be sent.
pub open spec fn spec_process(
    m: ConnectionModel,
    f: FrameModel,
    h: SegmentHeaderModel,
    app: Seq<u8>,
) -> (ConnectionModel, Seq<Seq<u8>>) {
    let fin = is_fin(f.flags);
    let m2 = if is_ack(f.flags) {
        spec_apply_ack(m, h)
    } else {
        m
    };
    let m3 = if app.len() > 0 {
        spec_deliver(m2, f.sequence, app)
    } else {
        m2
    };
    let m4 = if fin {
        ConnectionModel { peer_fin_seen: true, ..m3 }
    } else {
        m3
    };
    let (m5, o5) = if app.len() > 0 || fin {
        (
            ConnectionModel {
                stats: Stats {
                    ack_segments_sent: sat_add(m4.stats.ack_segments_sent, 1),
                    ..m4.stats
                },
                ..m4
            },
            seq![pure_ack_bytes(m4, fin)],
        )
    } else {
        (m4, Seq::empty())
    };
    let (m6, o6) = spec_drain(m5);
    (m6, o5 + o6)
}

/// Handling a decoded segment: a `Closed` connection still answers a
/// FIN with a fresh `fin_ack`; otherwise the handshake step, then, if it
/// leaves the connection established or closing, the segment's
/// processing.
pub open spec fn spec_on_segment(
    m: ConnectionModel,
    f: FrameModel,
    h: SegmentHeaderModel,
    app: Seq<u8>,
) -> (ConnectionModel, Seq<Seq<u8>>) {
    if m.state == State::Closed && is_fin(f.flags) {
        (m, seq![pure_ack_bytes(m, true)])
    } else {
        let (m1, o1, cont) = spec_handshake_step(m, f.flags);
        if cont && (m1.state == State::Established || m1.state == State::Closing) {
            let (m2, o2) = spec_process(m1, f, h, app);
            (m2, o1 + o2)
        } else {
            (m1, o1)
        }
    }
}

/// The header and application bytes of a frame's payload: an empty
/// payload (a bare SYN or SYN-ACK) has an empty header and no data; a
/// payload whose header does not decode yields `None`.
pub open spec fn split_payload(payload: Seq<u8>) -> Option<(SegmentHeaderModel, Seq<u8>)> {
    if payload.len() == 0 {
        Some((SegmentHeaderModel { ack: 0, fin_ack: false, sack: Seq::empty() }, Seq::empty()))
    } else {
        spec_decode_header(payload)
    }
}

/// Handling an incoming datagram: a datagram that is not a valid frame,
/// or whose transport header is malformed, changes nothing but the clock.
pub open spec fn spec_on_datagram(m: ConnectionModel, now: u64, d: Seq<u8>) -> (
    ConnectionModel,
    Seq<Seq<u8>>,
) {
    let m0 = with_now(m, now);
    match spec_decode(d) {
        Err(_) => (m0, Seq::empty()),
        Ok(f) => match split_payload(f.payload) {
            None => (m0, Seq::empty()),
            Some((h, app)) => spec_on_segment(m0, f, h, app),
        },
    }
}

/// The datagrams on which handling does not hit an arithmetic or range
/// failure: when the segment is processed, its data must end within the
/// 32-bit stream offsets, and (when it carries an ACK) its SACK ranges
/// must each start no later than they end.
pub open spec fn datagram_safe(m: ConnectionModel, now: u64, d: Seq<u8>) -> bool {
    let m0 = with_now(m, now);
    match spec_decode(d) {
        Err(_) => true,
        Ok(f) => match split_payload(f.payload) {
            None => true,
            Some((h, app)) => !(m0.state == State::Closed && is_fin(f.flags)) && processes(
                m0,
                f.flags,
            ) ==> {
                &&& is_ack(f.flags) ==> sack_ranges_ordered(h.sack)
                &&& f.sequence + app.len() <= u32::MAX
            },
        },
    }
}

// ---- Timers -------------------------------------------------------------

/// Whether a timer armed at `sent_at` has run for the current timeout.
pub open spec fn expired(now: u64, sent_at: u64, rto: RtoModel) -> bool {
    (if now >= sent_at {
        now - sent_at
    } else {
        0
    }) >= spec_current(rto)
}

/// The segments after a timeout sweep: every one not SACKed is resent
/// now, one more retransmission on its count.
pub open spec fn retransmit_marks(segs: Seq<SegmentModel>, now: u64) -> Seq<SegmentModel> {
    segs.map_values(
        |s: SegmentModel|
            if s.sacked {
                s
            } else {
                SegmentModel {
                    retransmit_count: (s.retransmit_count + 1) as u32,
                    sent_at: now,
                    ..s
                }
            },
    )
}

/// The datagrams of a timeout sweep: each segment not SACKed, in order,
/// with the current header.
pub open spec fn retransmit_frames(segs: Seq<SegmentModel>, header: Seq<u8>) -> Seq<Seq<u8>>
    decreases segs.len(),
{
    if segs.len() == 0 {
        Seq::empty()
    } else {
        let last = segs.last();
        retransmit_frames(segs.drop_last(), header) + if last.sacked {
            Seq::empty()
        } else {
            seq![data_bytes(last.seq, last.data, header)]
        }
    }
}

/// How many segments a sweep resends.
pub open spec fn unsacked_count(segs: Seq<SegmentModel>) -> nat
    decreases segs.len(),
{
    if segs.len() == 0 {
        0
    } else {
        unsacked_count(segs.drop_last()) + if segs.last().sacked {
            0nat
        } else {
            1nat
        }
    }
}

/// Whether a sweep pushes some segment past `max_retries`.
pub open spec fn retransmit_fails(segs: Seq<SegmentModel>, max_retries: u32) -> bool {
    exists|i: int|
        0 <= i < segs.len() && !segs[i].sacked && #[trigger] segs[i].retransmit_count + 1
            > max_retries
}

/// The FIN timer, then whatever can be sent.
pub open spec fn spec_tick_fin(m: ConnectionModel) -> (ConnectionModel, Seq<Seq<u8>>) {
    match m.fin_pending {
        Some(f) => if expired(m.now, f.sent_at.0, m.rto) {
            if f.attempts + 1 > m.config.max_retries {
                (
                    ConnectionModel {
                        state: State::Failed(FailureReason::TooManyRetries),
                        fin_pending: None,
                        ..m
                    },
                    Seq::empty(),
                )
            } else {
                let m1 = ConnectionModel {
                    rto: spec_on_timeout(m.rto),
                    fin_pending: Some(
                        PendingControl { sent_at: Tick(m.now), attempts: (f.attempts + 1) as u32 },
                    ),
                    stats: Stats {
                        control_retransmissions: sat_add(m.stats.control_retransmissions, 1),
                        ..m.stats
                    },
                    ..m
                };
                let (m2, o2) = spec_drain(m1);
                (m2, seq![fin_bytes(m1)] + o2)
            }
        } else {
            spec_drain(m)
        },
        None => spec_drain(m),
    }
}

/// An established or closing connection's timers: when the oldest
/// unacknowledged segment's timeout has run, back off and resend every
/// segment the peer has not SACKed (failing the connection if one runs
/// out of retries); then the FIN timer.
pub open spec fn spec_tick_established(m: ConnectionModel) -> (ConnectionModel, Seq<Seq<u8>>) {
    if m.unacked.len() > 0 && expired(m.now, m.unacked[0].sent_at, m.rto) {
        let header = ack_header(m, false);
        let frames = retransmit_frames(m.unacked, header);
        let m1 = ConnectionModel {
            rto: spec_on_timeout(m.rto),
            unacked: retransmit_marks(m.unacked, m.now),
            stats: Stats {
                data_segments_retransmitted: sat_add(
                    m.stats.data_segments_retransmitted,
                    unsacked_count(m.unacked) as int,
                ),
                ..m.stats
            },
            ..m
        };
        if retransmit_fails(m.unacked, m.config.max_retries) {
            (
                ConnectionModel {
                    state: State::Failed(FailureReason::TooManyRetries),
                    unacked: Seq::empty(),
                    ..m1
                },
                frames,
            )
        } else {
            let (m2, o2) = spec_tick_fin(m1);
            (m2, frames + o2)
        }
    } else {
        spec_tick_fin(m)
    }
}

/// Advancing the clock: a handshake whose timeout has run is resent (or,
/// past `max_retries`, fails the connection); an established or closing
/// connection runs its data and FIN timers.
pub open spec fn spec_on_tick(m: ConnectionModel, now: u64) -> (ConnectionModel, Seq<Seq<u8>>) {
    let m0 = with_now(m, now);
    if m0.state == State::SynSent || m0.state == State::SynReceived {
        match m0.handshake {
            Some(h) => if expired(m0.now, h.sent_at.0, m0.rto) {
                if h.attempts + 1 > m0.config.max_retries {
                    (
                        ConnectionModel {
                            state: State::Failed(FailureReason::TooManyRetries),
                            handshake: None,
                            ..m0
                        },
                        Seq::empty(),
                    )
                } else {
                    (
                        ConnectionModel {
                            rto: spec_on_timeout(m0.rto),
                            handshake: Some(
                                PendingControl {
                                    sent_at: Tick(m0.now),
                                    attempts: (h.attempts + 1) as u32,
                                },
                            ),
                            stats: Stats {
                                control_retransmissions: sat_add(
                                    m0.stats.control_retransmissions,
                                    1,
                                ),
                                ..m0.stats
                            },
                            ..m0
                        },
                        seq![
                            if m0.state == State::SynSent {
                                syn_bytes()
                            } else {
                                synack_bytes()
                            },
                        ],
                    )
                }
            } else {
                (m0, Seq::empty())
            },
            None => (m0, Seq::empty()),
        }
    } else if m0.state == State::Established || m0.state == State::Closing {
        spec_tick_established(m0)
    } else {
        (m0, Seq::empty())
    }
}

fn encode_frame(sequence: u32, flags: u16, payload: Vec<u8>) -> (out: Vec<u8>)
    ensures
        out@ == frame_bytes(sequence, flags, payload@),
{
    encode(&Frame { frame_type: 0, sequence, flags, payload })
}

/// The output of a step as plain byte strings.
pub open spec fn datagrams(v: Vec<Vec<u8>>) -> Seq<Seq<u8>> {
    v@.map_values(|d: Vec<u8>| d@)
}

fn push_datagram(out: &mut Vec<Vec<u8>>, d: Vec<u8>)
    ensures
        datagrams(*final(out)) == datagrams(*old(out)).push(d@),
{
    out.push(d);
    assert(datagrams(*out) =~= datagrams(*old(out)).push(d@));
}

/// Appends `more` to `out`.
pub fn append_datagrams(out: &mut Vec<Vec<u8>>, more: Vec<Vec<u8>>)
    ensures
        datagrams(*final(out)) == datagrams(*old(out)) + datagrams(more),
{
    let ghost extra = datagrams(more);
    let mut more = more;
    out.append(&mut more);
    assert(datagrams(*out) =~= datagrams(*old(out)) + extra);
}


impl Connection {
    fn blank(config: Config, now: Tick, state: State) -> (c: Connection)
        requires
            config_valid(config),
            now.0 <= MAX_RTT_SAMPLE,
        ensures
            c@ == blank_model(config, now.0, state),
            conn_inv(c@),
    {
        let c = Connection {
            config,
            state,
            now,
            rto: RtoEstimator::new(config.min_rto, config.max_rto),
            stats: Stats::default(),
            handshake: None,
            send_queue: Vec::new(),
            next_seq: 0,
            send_base: 0,
            unacked: Vec::new(),
            close_requested: false,
            fin_pending: None,
            fin_acked: false,
            expected_seq: 0,
            recv_buffer: Vec::new(),
            delivered: Vec::new(),
            peer_fin_seen: false,
            sent: Ghost(Seq::empty()),
            received: Ghost(Seq::empty()),
        };
        assert(c@ =~= blank_model(config, now.0, state));
        assert(c@.send_queue =~= c@.sent.skip(0));
        c
    }

    /// Begins an active (client) connection: the connection in `SynSent`
    /// and the SYN to send.
    pub fn connect(config: Config, now: Tick) -> (r: (Connection, Vec<u8>))
        requires
            config_valid(config),
            now.0 <= MAX_RTT_SAMPLE,
        ensures
            r.0@ == (ConnectionModel {
                handshake: Some(PendingControl { sent_at: now, attempts: 1 }),
                ..blank_model(config, now.0, State::SynSent)
            }),
            r.1@ == syn_bytes(),
            conn_inv(r.0@),
    {
        let mut c = Self::blank(config, now, State::SynSent);
        c.handshake = Some(PendingControl { sent_at: now, attempts: 1 });
        let syn = c.build_syn();
        assert(c@ =~= ConnectionModel {
            handshake: Some(PendingControl { sent_at: now, attempts: 1 }),
            ..blank_model(config, now.0, State::SynSent)
        });
        (c, syn)
    }

    /// Begins a passive (server) connection, waiting for a SYN.
    pub fn listen(config: Config, now: Tick) -> (c: Connection)
        requires
            config_valid(config),
            now.0 <= MAX_RTT_SAMPLE,
        ensures
            c@ == blank_model(config, now.0, State::Listening),
            conn_inv(c@),
    {
        Self::blank(config, now, State::Listening)
    }

    pub fn state(&self) -> (s: State)
        ensures
            s == self@.state,
    {
        self.state
    }

    pub fn stats(&self) -> (s: Stats)
        ensures
            s == self@.stats,
    {
        self.stats
    }

    pub fn is_closed(&self) -> (b: bool)
        ensures
            b == (self@.state == State::Closed),
    {
        match self.state {
            State::Closed => true,
            _ => false,
        }
    }

    pub fn failure(&self) -> (r: Option<FailureReason>)
        ensures
            r == (match self@.state {
                State::Failed(reason) => Some(reason),
                _ => None,
            }),
    {
        match self.state {
            State::Failed(r) => Some(r),
            _ => None,
        }
    }

    /// Whether the peer's FIN has been seen: the peer is done sending.
    /// The connection never closes on the caller's behalf.
    pub fn peer_closed(&self) -> (b: bool)
        ensures
            b == self@.peer_fin_seen,
    {
        self.peer_fin_seen
    }

    // ---- Frame builders ------------------------------------------------
    fn header_bytes(&self) -> (b: Vec<u8>)
        requires
            conn_inv(self@),
        ensures
            b@ == ack_header(self@, false),
    {
        let h = SegmentHeader {
            ack: self.expected_seq,
            fin_ack: false,
            sack: self.current_sack_ranges(),
        };
        let mut b: Vec<u8> = Vec::new();
        h.encode(&mut b);
        assert(b@ =~= ack_header(self@, false));
        b
    }

    fn current_sack_ranges(&self) -> (ranges: Vec<SackRange>)
        requires
            conn_inv(self@),
        ensures
            ranges@ == current_sack(self@),
    {
        let ghost buf = self@.recv_buffer;
        let mut ranges: Vec<SackRange> = Vec::new();
        let n = self.recv_buffer.len();
        let mut i: usize = 0;
        while i < n && ranges.len() < MAX_SACK_RANGES
            invariant
                conn_inv(self@),
                buf == self@.recv_buffer,
                n == buf.len(),
                i <= n,
                ranges@.len() <= MAX_SACK_RANGES,
                ranges@ + runs_from(buf, i as int) == runs_from(buf, 0),
            decreases n - i,
        {
            assert(buf[i as int] == self.recv_buffer@[i as int]@);
            let start = self.recv_buffer[i].seq;
            let len0 = self.recv_buffer[i].data.len();
            let mut end: u32 = start + (len0 as u32) - 1;
            let ghost end0 = end as int;
            let mut j: usize = i + 1;
            proof {
                lemma_run_from_advances(buf, i + 1, end0);
            }
            while j < n && self.recv_buffer[j].seq == end + 1
                invariant
                    conn_inv(self@),
                    buf == self@.recv_buffer,
                    n == buf.len(),
                    i + 1 <= j <= n,
                    end < u32::MAX,
                    run_from(buf, j as int, end as int) == run_from(buf, i + 1, end0),
                decreases n - j,
            {
                assert(buf[j as int] == self.recv_buffer@[j as int]@);
                let len_j = self.recv_buffer[j].data.len();
                end = self.recv_buffer[j].seq + (len_j as u32) - 1;
                j = j + 1;
            }
            ranges.push(SackRange { start, end });
            proof {
                let r = run_from(buf, i + 1, end0);
                assert(r == (end as int, j as int));
                assert(runs_from(buf, i as int) == seq![SackRange { start, end }] + runs_from(
                    buf,
                    j as int,
                ));
                assert(ranges@ + runs_from(buf, j as int) =~= runs_from(buf, 0));
            }
            i = j;
        }
        proof {
            let all = runs_from(buf, 0);
            if i == n {
                assert(runs_from(buf, n as int) =~= Seq::<SackRange>::empty());
                assert(ranges@ =~= all);
            } else {
                assert(ranges@ =~= all.take(MAX_SACK_RANGES as int));
            }
        }
        ranges
    }

    fn build_syn(&self) -> (b: Vec<u8>)
        ensures
            b@ == syn_bytes(),
    {
        let b = encode_frame(0, FLAG_SYN, Vec::new());
        assert(b@ =~= syn_bytes());
        b
    }

    fn build_synack(&self) -> (b: Vec<u8>)
        ensures
            b@ == synack_bytes(),
    {
        let b = encode_frame(0, FLAGS_SYN_ACK, Vec::new());
        assert(b@ =~= synack_bytes());
        b
    }

    fn build_handshake_ack(&self) -> (b: Vec<u8>)
        ensures
            b@ == handshake_ack_bytes(),
    {
        let b = encode_frame(0, FLAG_ACK, Vec::new());
        assert(b@ =~= handshake_ack_bytes());
        b
    }

    /// The FIN carries the normal header piggybacked, so a lost pure ACK
    /// does not regress the peer's view of what was received.
    pub fn build_fin(&self) -> (b: Vec<u8>)
        requires
            conn_inv(self@),
        ensures
            b@ == fin_bytes(self@),
    {
        let payload = self.header_bytes();
        encode_frame(self.send_base, FLAGS_FIN_ACK, payload)
    }

    fn build_pure_ack(&self, fin_ack: bool) -> (b: Vec<u8>)
        requires
            conn_inv(self@),
        ensures
            b@ == pure_ack_bytes(self@, fin_ack),
    {
        let h = SegmentHeader {
            ack: self.expected_seq,
            fin_ack,
            sack: self.current_sack_ranges(),
        };
        let mut payload: Vec<u8> = Vec::new();
        h.encode(&mut payload);
        assert(payload@ =~= ack_header(self@, fin_ack));
        encode_frame(self.send_base, FLAG_ACK, payload)
    }

    fn build_data_frame(seq: u32, data: &[u8], header_bytes: &[u8]) -> (b: Vec<u8>)
        ensures
            b@ == data_bytes(seq, data@, header_bytes@),
    {
        let mut payload: Vec<u8> = Vec::new();
        append(&mut payload, header_bytes);
        append(&mut payload, data);
        assert(payload@ =~= header_bytes@ + data@);
        encode_frame(seq, FLAG_ACK, payload)
    }

    // ---- Sending --------------------------------------------------------
    /// Queues `data` for reliable delivery and returns what can be sent at
    /// once.
    pub fn send(&mut self, now: Tick, data: &[u8]) -> (out: Vec<Vec<u8>>)
        requires
            conn_inv(old(self)@),
            now.0 <= MAX_RTT_SAMPLE,
            old(self)@.sent.len() + data@.len() <= u32::MAX,
        ensures
            (final(self)@, datagrams(out)) == spec_send(old(self)@, now.0, data@),
            conn_inv(final(self)@),
    {
        if now.0 > self.now.0 {
            self.now = now;
        }
        append(&mut self.send_queue, data);
        self.stats.bytes_sent_app = self.stats.bytes_sent_app + data.len() as u64;
        proof {
            self.sent@ = self.sent@ + data@;
            assert(self@.unacked == old(self)@.unacked);
            assert(self@.recv_buffer == old(self)@.recv_buffer);
            assert(self@.send_queue =~= self@.sent.skip(self@.next_seq as int));
            assert forall|i: int| 0 <= i < self@.unacked.len() implies {
                let s = #[trigger] self@.unacked[i];
                s.data == self@.sent.subrange(s.seq as int, s.seq + s.data.len())
            } by {
                let s = self@.unacked[i];
                assert(old(self)@.unacked[i] == s);
                assert(self@.sent.subrange(s.seq as int, s.seq + s.data.len()) =~= old(
                    self,
                )@.sent.subrange(s.seq as int, s.seq + s.data.len()));
            }
        }
        self.drain_and_maybe_fin()
    }

    #[verifier::spinoff_prover]
    fn try_send_more(&mut self) -> (out: Vec<Vec<u8>>)
        requires
            conn_inv(old(self)@),
        ensures
            (final(self)@, datagrams(out)) == spec_try_send_more(old(self)@),
            conn_inv(final(self)@),
    {
        let mut out: Vec<Vec<u8>> = Vec::new();
        let active = match self.state {
            State::Established => true,
            State::Closing => true,
            _ => false,
        };
        if !active {
            assert(datagrams(out) =~= Seq::<Seq<u8>>::empty());
            return out;
        }
        let header = self.header_bytes();
        while self.send_queue.len() > 0 && self.unacked.len() < self.config.max_in_flight_segments
            invariant
                conn_inv(self@),
                self@.state == State::Established || self@.state == State::Closing,
                header@ == ack_header(self@, false),
                spec_try_send_more(old(self)@) == (
                    spec_try_send_more(self@).0,
                    datagrams(out) + spec_try_send_more(self@).1,
                ),
            decreases self@.send_queue.len(),
        {
            let ghost m = self@;
            let chunk_len = if self.config.segment_size < self.send_queue.len() {
                self.config.segment_size
            } else {
                self.send_queue.len()
            };
            let mut data = self.send_queue.split_off(chunk_len);
            std::mem::swap(&mut data, &mut self.send_queue);
            let seq = self.next_seq;
            self.next_seq = self.next_seq + chunk_len as u32;
            let frame = Self::build_data_frame(seq, data.as_slice(), header.as_slice());
            let ghost out_before = datagrams(out);
            push_datagram(&mut out, frame);
            let seg = UnackedSegment {
                seq,
                data,
                sent_at: self.now,
                retransmit_count: 0,
                sacked: false,
            };
            self.unacked.push(seg);
            self.stats.data_segments_sent = self.stats.data_segments_sent + 1;
            proof {
                let n = min_usize(m.config.segment_size, m.send_queue.len());
                let dseg = m.send_queue.take(n as int);
                let sm = SegmentModel {
                    seq: m.next_seq,
                    data: dseg,
                    sent_at: m.now,
                    retransmit_count: 0,
                    sacked: false,
                };
                assert(self@.unacked =~= m.unacked.push(sm));
                let m1 = ConnectionModel {
                    send_queue: m.send_queue.skip(n as int),
                    next_seq: (m.next_seq + n) as u32,
                    unacked: m.unacked.push(sm),
                    stats: Stats {
                        data_segments_sent: (m.stats.data_segments_sent + 1) as u64,
                        ..m.stats
                    },
                    ..m
                };
                assert(self@ =~= m1);
                assert(dseg =~= m.sent.subrange(m.next_seq as int, m.next_seq + n));
                assert(self@.send_queue =~= self@.sent.skip(self@.next_seq as int));
                assert(datagrams(out) == out_before.push(data_bytes(m.next_seq, dseg, header@)));
                let (m2, o2) = spec_try_send_more(m1);
                assert(spec_try_send_more(m) == (m2, seq![data_bytes(m.next_seq, dseg, header@)]
                    + o2));
                assert(datagrams(out) + o2 =~= out_before + (seq![
                    data_bytes(m.next_seq, dseg, header@),
                ] + o2));
            }
        }
        assert(datagrams(out) + spec_try_send_more(self@).1 =~= datagrams(out));
        out
    }

    fn maybe_send_fin(&mut self) -> (r: Option<Vec<u8>>)
        requires
            conn_inv(old(self)@),
        ensures
            final(self)@ == spec_maybe_send_fin(old(self)@).0,
            match r {
                Some(d) => spec_maybe_send_fin(old(self)@).1 == seq![d@],
                None => spec_maybe_send_fin(old(self)@).1.len() == 0,
            },
            conn_inv(final(self)@),
    {
        let established = match self.state {
            State::Established => true,
            _ => false,
        };
        if self.close_requested && self.fin_pending.is_none() && !self.fin_acked && established
            && self.send_queue.len() == 0 && self.unacked.len() == 0 {
            let fin = self.build_fin();
            self.state = State::Closing;
            self.fin_pending = Some(PendingControl { sent_at: self.now, attempts: 1 });
            proof {
                assert(self@ =~= spec_maybe_send_fin(old(self)@).0);
            }
            Some(fin)
        } else {
            None
        }
    }

    fn drain_and_maybe_fin(&mut self) -> (out: Vec<Vec<u8>>)
        requires
            conn_inv(old(self)@),
        ensures
            (final(self)@, datagrams(out)) == spec_drain(old(self)@),
            conn_inv(final(self)@),
    {
        let mut out = self.try_send_more();
        let fin = self.maybe_send_fin();
        let ghost before = datagrams(out);
        match fin {
            Some(d) => {
                push_datagram(&mut out, d);
            },
            None => {
                assert(datagrams(out) =~= before + Seq::<Seq<u8>>::empty());
            },
        }
        self.check_fully_closed();
        out
    }

    /// Begins a graceful close: once everything queued is acknowledged a
    /// FIN is sent and retried until acknowledged. Fully `Closed` once our
    /// FIN is acknowledged and the peer's FIN was seen.
    pub fn close(&mut self, now: Tick) -> (out: Vec<Vec<u8>>)
        requires
            conn_inv(old(self)@),
            now.0 <= MAX_RTT_SAMPLE,
        ensures
            (final(self)@, datagrams(out)) == spec_close(old(self)@, now.0),
            conn_inv(final(self)@),
    {
        if now.0 > self.now.0 {
            self.now = now;
        }
        self.close_requested = true;
        assert(self@.unacked == old(self)@.unacked);
        assert(self@.recv_buffer == old(self)@.recv_buffer);
        self.drain_and_maybe_fin()
    }

    fn check_fully_closed(&mut self)
        requires
            conn_inv(old(self)@),
        ensures
            final(self)@ == spec_check_closed(old(self)@),
            conn_inv(final(self)@),
    {
        let closing = match self.state {
            State::Closing => true,
            _ => false,
        };
        if closing && self.fin_acked && self.peer_fin_seen {
            self.state = State::Closed;
        }
    }

    // ---- Receiving ------------------------------------------------------
    fn find_at_least(&self, x: u32) -> (i: usize)
        requires
            conn_inv(self@),
        ensures
            i == first_at_least(self@.recv_buffer, x as int, 0),
    {
        let ghost buf = self@.recv_buffer;
        let n = self.recv_buffer.len();
        let mut i: usize = 0;
        while i < n && self.recv_buffer[i].seq < x
            invariant
                buf == self@.recv_buffer,
                n == buf.len(),
                i <= n,
                first_at_least(buf, x as int, 0) == first_at_least(buf, x as int, i as int),
            decreases n - i,
        {
            assert(buf[i as int] == self.recv_buffer@[i as int]@);
            i = i + 1;
        }
        proof {
            if i < n {
                assert(buf[i as int] == self.recv_buffer@[i as int]@);
            }
        }
        i
    }

    fn absorb_buffered(&mut self)
        requires
            conn_inv(old(self)@),
        ensures
            final(self)@ == spec_absorb(old(self)@),
            conn_inv(final(self)@),
    {
        let mut more = true;
        while more
            invariant
                conn_inv(self@),
                spec_absorb(old(self)@) == if more {
                    spec_absorb(self@)
                } else {
                    self@
                },
            decreases self@.recv_buffer.len() + if more {
                1int
            } else {
                0int
            },
        {
            let ghost m = self@;
            let i = self.find_at_least(self.expected_seq);
            proof {
                lemma_first_at_least(m.recv_buffer, m.expected_seq as int, 0);
            }
            if i < self.recv_buffer.len() && self.recv_buffer[i].seq == self.expected_seq {
                assert(m.recv_buffer[i as int] == self.recv_buffer@[i as int]@);
                let b = self.recv_buffer.remove(i);
                let len = b.data.len();
                self.expected_seq = self.expected_seq + len as u32;
                self.stats.bytes_delivered_app = self.stats.bytes_delivered_app + len as u64;
                append(&mut self.delivered, b.data.as_slice());
                proof {
                    let v = m.recv_buffer[i as int].1;
                    self.received@ = self.received@ + v;
                    assert(self@.recv_buffer =~= m.recv_buffer.remove(i as int));
                    assert(self@ =~= ConnectionModel {
                        recv_buffer: m.recv_buffer.remove(i as int),
                        expected_seq: (m.expected_seq + v.len()) as u32,
                        delivered: m.delivered + v,
                        received: m.received + v,
                        stats: Stats {
                            bytes_delivered_app: (m.stats.bytes_delivered_app + v.len()) as u64,
                            ..m.stats
                        },
                        ..m
                    });
                    assert(self@.unacked == m.unacked);
                    assert forall|a: int, c: int|
                        0 <= a < c < self@.recv_buffer.len() implies #[trigger] self@.recv_buffer[a].0
                        < #[trigger] self@.recv_buffer[c].0 by {
                        let a0 = if a < i { a } else { a + 1 };
                        let c0 = if c < i { c } else { c + 1 };
                        assert(self@.recv_buffer[a] == m.recv_buffer[a0]);
                        assert(self@.recv_buffer[c] == m.recv_buffer[c0]);
                    }
                    assert forall|a: int| 0 <= a < self@.recv_buffer.len() implies {
                        let e = #[trigger] self@.recv_buffer[a];
                        &&& e.1.len() > 0
                        &&& e.0 + e.1.len() <= u32::MAX
                    } by {
                        let a0 = if a < i { a } else { a + 1 };
                        assert(self@.recv_buffer[a] == m.recv_buffer[a0]);
                    }
                }
            } else {
                more = false;
            }
        }
    }

    fn buffer_insert(&mut self, seq: u32, data: &[u8])
        requires
            conn_inv(old(self)@),
            data@.len() > 0,
            seq + data@.len() <= u32::MAX,
        ensures
            final(self)@ == (ConnectionModel {
                recv_buffer: spec_buffer_insert(old(self)@.recv_buffer, seq, data@),
                ..old(self)@
            }),
            conn_inv(final(self)@),
    {
        let ghost m = self@;
        let i = self.find_at_least(seq);
        proof {
            lemma_first_at_least(m.recv_buffer, seq as int, 0);
        }
        let copy = vstd::slice::slice_to_vec(data);
        let entry = Buffered { seq, data: copy };
        if i < self.recv_buffer.len() && self.recv_buffer[i].seq == seq {
            assert(m.recv_buffer[i as int] == self.recv_buffer@[i as int]@);
            self.recv_buffer.set(i, entry);
            proof {
                assert(self@.recv_buffer =~= m.recv_buffer.update(i as int, (seq, data@)));
                assert forall|a: int, c: int|
                    0 <= a < c < self@.recv_buffer.len() implies #[trigger] self@.recv_buffer[a].0
                    < #[trigger] self@.recv_buffer[c].0 by {
                    assert(self@.recv_buffer[a].0 == m.recv_buffer[a].0);
                    assert(self@.recv_buffer[c].0 == m.recv_buffer[c].0);
                }
            }
        } else {
            self.recv_buffer.insert(i, entry);
            proof {
                assert(self@.recv_buffer =~= m.recv_buffer.insert(i as int, (seq, data@)));
                assert forall|a: int, c: int|
                    0 <= a < c < self@.recv_buffer.len() implies #[trigger] self@.recv_buffer[a].0
                    < #[trigger] self@.recv_buffer[c].0 by {
                    if a < i && c > i {
                        assert(self@.recv_buffer[a] == m.recv_buffer[a]);
                        assert(self@.recv_buffer[c] == m.recv_buffer[c - 1]);
                        if c - 1 >= i {
                            assert(m.recv_buffer[c - 1].0 >= m.recv_buffer[i as int].0);
                        }
                    }
                }
                assert forall|a: int| 0 <= a < self@.recv_buffer.len() implies {
                    let e = #[trigger] self@.recv_buffer[a];
                    &&& e.1.len() > 0
                    &&& e.0 + e.1.len() <= u32::MAX
                } by {
                    if a < i {
                        assert(self@.recv_buffer[a] == m.recv_buffer[a]);
                    } else if a > i {
                        assert(self@.recv_buffer[a] == m.recv_buffer[a - 1]);
                    }
                }
            }
        }
        assert(self@ =~= ConnectionModel {
            recv_buffer: spec_buffer_insert(m.recv_buffer, seq, data@),
            ..m
        });
    }

    #[verifier::spinoff_prover]
    fn deliver_data(&mut self, seq: u32, data: &[u8])
        requires
            conn_inv(old(self)@),
            seq + data@.len() <= u32::MAX,
        ensures
            final(self)@ == spec_deliver(old(self)@, seq, data@),
            conn_inv(final(self)@),
    {
        let ghost m = self@;
        if data.len() == 0 {
            return;
        }
        let end = seq + data.len() as u32;
        if end <= self.expected_seq {
            self.stats.duplicate_bytes_received = self.stats.duplicate_bytes_received.saturating_add(
                data.len() as u64,
            );
            assert(self@ =~= spec_deliver(m, seq, data@));
            return;
        }
        if seq <= self.expected_seq {
            let skip = (self.expected_seq - seq) as usize;
            self.stats.duplicate_bytes_received = self.stats.duplicate_bytes_received.saturating_add(
                skip as u64,
            );
            let fresh = vstd::slice::slice_subrange(data, skip, data.len());
            append(&mut self.delivered, fresh);
            self.stats.bytes_delivered_app = self.stats.bytes_delivered_app + (data.len()
                - skip) as u64;
            self.expected_seq = end;
            proof {
                self.received@ = self.received@ + fresh@;
                assert(fresh@ =~= data@.skip(skip as int));
                assert(self@ =~= ConnectionModel {
                    stats: Stats {
                        duplicate_bytes_received: sat_add(
                            m.stats.duplicate_bytes_received,
                            skip as int,
                        ),
                        bytes_delivered_app: (m.stats.bytes_delivered_app + fresh@.len()) as u64,
                        ..m.stats
                    },
                    delivered: m.delivered + fresh@,
                    received: m.received + fresh@,
                    expected_seq: (seq + data@.len()) as u32,
                    ..m
                });
                assert(self@.unacked == m.unacked);
                assert(self@.recv_buffer == m.recv_buffer);
            }
            self.absorb_buffered();
        } else {
            self.buffer_insert(seq, data);
        }
    }

    fn apply_ack(&mut self, header: &SegmentHeader)
        requires
            conn_inv(old(self)@),
            sack_ranges_ordered(header@.sack),
        ensures
            final(self)@ == spec_apply_ack(old(self)@, header@),
            conn_inv(final(self)@),
    {
        let ghost m = self@;
        if header.ack > self.send_base {
            let n = self.unacked.len();
            let mut k: usize = 0;
            assert(m.unacked.skip(0) =~= m.unacked);
            while k < n && self.unacked[k].seq < header.ack
                invariant
                    self@ == m,
                    n == m.unacked.len(),
                    k <= n,
                    count_below(m.unacked, header.ack) == k + count_below(
                        m.unacked.skip(k as int),
                        header.ack,
                    ),
                decreases n - k,
            {
                assert(m.unacked[k as int] == self.unacked@[k as int]@);
                assert(m.unacked.skip(k as int).skip(1) =~= m.unacked.skip(k + 1));
                k = k + 1;
            }
            proof {
                if k < n {
                    assert(m.unacked[k as int] == self.unacked@[k as int]@);
                }
                assert(count_below(m.unacked.skip(k as int), header.ack) == 0);
            }
            let ghost vec0 = self.unacked@;
            let mut removed = self.unacked.split_off(k);
            std::mem::swap(&mut removed, &mut self.unacked);
            proof {
                assert(self.unacked@ == vec0.subrange(k as int, n as int));
                assert(removed@ == vec0.subrange(0, k as int));
                assert forall|a: int| 0 <= a < n - k implies #[trigger] self@.unacked[a]
                    == m.unacked.skip(k as int)[a] by {
                    assert(self@.unacked[a] == self.unacked@[a]@);
                    assert(self.unacked@[a] == vec0[k + a]);
                    assert(m.unacked[k + a] == vec0[k + a]@);
                }
                assert(self@.unacked =~= m.unacked.skip(k as int));
            }
            let ghost gone = m.unacked.take(k as int);
            assert(seg_views(removed@) =~= gone);
            assert(gone.skip(0) =~= gone);
            let ghost m_sw = self@;
            let mut j: usize = 0;
            while j < k
                invariant
                    self@ == (ConnectionModel { rto: self@.rto, ..m_sw }),
                    j <= k,
                    k == removed@.len(),
                    seg_views(removed@) == gone,
                    rto_wf(self@.rto),
                    self@.now == m.now,
                    m.now <= MAX_RTT_SAMPLE,
                    forall|a: int| 0 <= a < gone.len() ==> #[trigger] gone[a].sent_at <= m.now,
                    sample_all(m.rto, m.now, gone) == sample_all(
                        self@.rto,
                        m.now,
                        gone.skip(j as int),
                    ),
                decreases k - j,
            {
                assert(gone[j as int] == removed@[j as int]@);
                assert(gone.skip(j as int).skip(1) =~= gone.skip(j + 1));
                if removed[j].retransmit_count == 0 {
                    let rtt = self.now.since(removed[j].sent_at);
                    self.rto.on_sample(rtt);
                }
                j = j + 1;
            }
            self.send_base = header.ack;
            proof {
                assert(gone.skip(k as int) =~= Seq::<SegmentModel>::empty());
            }
        }
        let ghost m1 = self@;
        proof {
            assert(m1 =~= if header@.ack > m.send_base {
                let k = count_below(m.unacked, header@.ack);
                ConnectionModel {
                    rto: sample_all(m.rto, m.now, m.unacked.take(k as int)),
                    unacked: m.unacked.skip(k as int),
                    send_base: header@.ack,
                    ..m
                }
            } else {
                m
            });
        }
        let n = self.unacked.len();
        let mut i: usize = 0;
        while i < n
            invariant
                n == m1.unacked.len() == self@.unacked.len(),
                i <= n,
                self@ == (ConnectionModel { unacked: self@.unacked, ..m1 }),
                forall|a: int|
                    0 <= a < i ==> #[trigger] self@.unacked[a] == mark_sacked(
                        m1.unacked,
                        header@.sack,
                    )[a],
                forall|a: int| i <= a < n ==> #[trigger] self@.unacked[a] == m1.unacked[a],
            decreases n - i,
        {
            let seq = self.unacked[i].seq;
            let mut covered = false;
            let mut r: usize = 0;
            while r < header.sack.len()
                invariant
                    r <= header@.sack.len(),
                    covered == exists|j: int|
                        0 <= j < r && #[trigger] header@.sack[j].start <= seq
                            <= header@.sack[j].end,
                decreases header@.sack.len() - r,
            {
                let range = header.sack[r];
                if range.start <= seq && seq <= range.end {
                    covered = true;
                }
                r = r + 1;
            }
            let ghost before = self@.unacked;
            proof {
                assert(before[i as int] == self.unacked@[i as int]@);
                assert(covered == sack_covers(header@.sack, seq));
            }
            if covered {
                let mut seg = self.unacked.remove(i);
                seg.sacked = true;
                self.unacked.insert(i, seg);
                proof {
                    assert(self@.unacked =~= before.update(
                        i as int,
                        SegmentModel { sacked: true, ..before[i as int] },
                    ));
                }
            }
            proof {
                assert(self@.unacked[i as int] == mark_sacked(m1.unacked, header@.sack)[i as int]);
                assert forall|a: int| 0 <= a < n && a != i implies #[trigger] self@.unacked[a]
                    == before[a] by {}
            }
            i = i + 1;
        }
        proof {
            assert(self@.unacked =~= mark_sacked(m1.unacked, header@.sack));
            let m2 = ConnectionModel { unacked: mark_sacked(m1.unacked, header@.sack), ..m1 };
            assert(self@ =~= m2);
        }
        if header.fin_ack {
            self.fin_acked = true;
            self.fin_pending = None;
            self.check_fully_closed();
        }
    }

    fn handshake_done(&mut self)
        requires
            conn_inv(old(self)@),
        ensures
            final(self)@ == handshake_done(old(self)@),
            conn_inv(final(self)@),
    {
        match self.handshake {
            Some(h) => {
                if h.attempts == 1 {
                    let rtt = self.now.since(h.sent_at);
                    self.rto.on_sample(rtt);
                }
            },
            None => {},
        }
        self.handshake = None;
        self.state = State::Established;
        assert(self@ =~= handshake_done(old(self)@));
    }

    fn handshake_step(&mut self, flags: u16) -> (r: (Vec<Vec<u8>>, bool))
        requires
            conn_inv(old(self)@),
        ensures
            (final(self)@, datagrams(r.0), r.1) == spec_handshake_step(old(self)@, flags),
            conn_inv(final(self)@),
    {
        let syn = flags & FLAG_SYN != 0;
        let ack = flags & FLAG_ACK != 0;
        let mut out: Vec<Vec<u8>> = Vec::new();
        let ghost m = self@;
        assert(datagrams(out) =~= Seq::<Seq<u8>>::empty());
        if self.state == State::Listening && syn && !ack {
            self.state = State::SynReceived;
            self.handshake = Some(PendingControl { sent_at: self.now, attempts: 1 });
            push_datagram(&mut out, self.build_synack());
            assert(self@ =~= spec_handshake_step(m, flags).0);
            assert(datagrams(out) =~= seq![synack_bytes()]);
            (out, false)
        } else if self.state == State::SynReceived && syn && !ack {
            push_datagram(&mut out, self.build_synack());
            assert(datagrams(out) =~= seq![synack_bytes()]);
            (out, false)
        } else if self.state == State::SynSent && syn && ack {
            self.handshake_done();
            push_datagram(&mut out, self.build_handshake_ack());
            assert(datagrams(out) =~= seq![handshake_ack_bytes()]);
            (out, true)
        } else if self.state == State::SynReceived && ack && !syn {
            self.handshake_done();
            (out, true)
        } else if (self.state == State::Established || self.state == State::Closing) && syn && ack {
            push_datagram(&mut out, self.build_handshake_ack());
            assert(datagrams(out) =~= seq![handshake_ack_bytes()]);
            (out, true)
        } else {
            (out, true)
        }
    }

    #[verifier::rlimit(40)]
    #[verifier::spinoff_prover]
    fn process(&mut self, f: &Frame, header: &SegmentHeader, app: &[u8]) -> (out: Vec<Vec<u8>>)
        requires
            conn_inv(old(self)@),
            is_ack(f@.flags) ==> sack_ranges_ordered(header@.sack),
            f@.sequence + app@.len() <= u32::MAX,
        ensures
            (final(self)@, datagrams(out)) == spec_process(old(self)@, f@, header@, app@),
            conn_inv(final(self)@),
    {
        let ghost m = self@;
        let fin = f.flags & FLAG_FIN != 0;
        if f.flags & FLAG_ACK != 0 {
            self.apply_ack(header);
        }
        if app.len() > 0 {
            self.deliver_data(f.sequence, app);
        }
        if fin {
            self.peer_fin_seen = true;
        }
        let mut out: Vec<Vec<u8>> = Vec::new();
        let ghost m4 = self@;
        if app.len() > 0 || fin {
            self.stats.ack_segments_sent = self.stats.ack_segments_sent.saturating_add(1);
            assert(self@.unacked == m4.unacked);
            assert(self@.recv_buffer == m4.recv_buffer);
            let ack = self.build_pure_ack(fin);
            push_datagram(&mut out, ack);
            assert(datagrams(out) =~= seq![pure_ack_bytes(m4, fin)]);
        } else {
            assert(datagrams(out) =~= Seq::<Seq<u8>>::empty());
        }
        proof {
            assert(self@.unacked == m4.unacked);
            assert(self@.recv_buffer == m4.recv_buffer);
        }
        let more = self.drain_and_maybe_fin();
        append_datagrams(&mut out, more);
        out
    }

    /// Handles one incoming datagram and returns the datagrams to send in
    /// response. A corrupted datagram is indistinguishable from a lost
    /// one: it is dropped.
    #[verifier::spinoff_prover]
    pub fn on_datagram(&mut self, now: Tick, datagram: &[u8]) -> (out: Vec<Vec<u8>>)
        requires
            conn_inv(old(self)@),
            now.0 <= MAX_RTT_SAMPLE,
            datagram_safe(old(self)@, now.0, datagram@),
        ensures
            (final(self)@, datagrams(out)) == spec_on_datagram(old(self)@, now.0, datagram@),
            conn_inv(final(self)@),
    {
        if now.0 > self.now.0 {
            self.now = now;
        }
        let ghost m0 = self@;
        assert(m0 == with_now(old(self)@, now.0));
        assert(m0.unacked == old(self)@.unacked);
        assert(m0.recv_buffer == old(self)@.recv_buffer);
        let mut out: Vec<Vec<u8>> = Vec::new();
        assert(datagrams(out) =~= Seq::<Seq<u8>>::empty());
        let f = match decode(datagram) {
            Ok(f) => f,
            Err(_) => {
                return out;
            },
        };
        let parsed: Option<(SegmentHeader, &[u8])> = if f.payload.len() == 0 {
            Some((SegmentHeader::default(), vstd::slice::slice_subrange(f.payload.as_slice(), 0, 0)))
        } else {
            SegmentHeader::decode(f.payload.as_slice())
        };
        let (header, app_payload) = match parsed {
            Some(v) => v,
            None => {
                return out;
            },
        };
        proof {
            assert(split_payload(f@.payload) == Some((header@, app_payload@))) by {
                if f@.payload.len() == 0 {
                    assert(header@.sack =~= Seq::<SackRange>::empty());
                    assert(app_payload@ =~= Seq::<u8>::empty());
                }
            }
        }
        let fin = f.flags & FLAG_FIN != 0;
        if self.state == State::Closed && fin {
            let ack = self.build_pure_ack(true);
            push_datagram(&mut out, ack);
            assert(datagrams(out) =~= seq![pure_ack_bytes(m0, true)]);
            return out;
        }
        let (first, cont) = self.handshake_step(f.flags);
        out = first;
        if cont && (self.state == State::Established || self.state == State::Closing) {
            let rest = self.process(&f, &header, app_payload);
            append_datagrams(&mut out, rest);
        }
        out
    }

    // ---- Timers ---------------------------------------------------------
    fn tick_fin(&mut self) -> (out: Vec<Vec<u8>>)
        requires
            conn_inv(old(self)@),
            old(self)@.state == State::Established || old(self)@.state == State::Closing,
        ensures
            (final(self)@, datagrams(out)) == spec_tick_fin(old(self)@),
            conn_inv(final(self)@),
    {
        let ghost m = self@;
        match self.fin_pending {
            Some(f) => {
                let elapsed = self.now.since(f.sent_at);
                if elapsed >= self.rto.current() {
                    let attempts = f.attempts + 1;
                    if attempts > self.config.max_retries {
                        self.state = State::Failed(FailureReason::TooManyRetries);
                        self.fin_pending = None;
                        let out: Vec<Vec<u8>> = Vec::new();
                        assert(self@ =~= spec_tick_fin(m).0);
                        assert(datagrams(out) =~= Seq::<Seq<u8>>::empty());
                        return out;
                    }
                    self.rto.on_timeout();
                    self.fin_pending = Some(PendingControl { sent_at: self.now, attempts });
                    self.stats.control_retransmissions = self.stats.control_retransmissions.saturating_add(1);
                    assert(self@.unacked == m.unacked);
                    assert(self@.recv_buffer == m.recv_buffer);
                    let mut out: Vec<Vec<u8>> = Vec::new();
                    let fin = self.build_fin();
                    push_datagram(&mut out, fin);
                    assert(datagrams(out) =~= seq![fin_bytes(self@)]);
                    let more = self.drain_and_maybe_fin();
                    append_datagrams(&mut out, more);
                    return out;
                }
                self.drain_and_maybe_fin()
            },
            None => self.drain_and_maybe_fin(),
        }
    }

    #[verifier::spinoff_prover]
    fn tick_established(&mut self) -> (out: Vec<Vec<u8>>)
        requires
            conn_inv(old(self)@),
            old(self)@.state == State::Established || old(self)@.state == State::Closing,
        ensures
            (final(self)@, datagrams(out)) == spec_tick_established(old(self)@),
            conn_inv(final(self)@),
    {
        let ghost m = self@;
        let mut out: Vec<Vec<u8>> = Vec::new();
        let timed_out = if self.unacked.len() > 0 {
            assert(m.unacked[0] == self.unacked@[0]@);
            let elapsed = self.now.since(self.unacked[0].sent_at);
            elapsed >= self.rto.current()
        } else {
            false
        };
        if !timed_out {
            return self.tick_fin();
        }
        let header = self.header_bytes();
        self.rto.on_timeout();
        let ghost segs0 = m.unacked;
        let mut pending: Vec<UnackedSegment> = Vec::new();
        std::mem::swap(&mut pending, &mut self.unacked);
        let mut resent: Vec<UnackedSegment> = Vec::new();
        let mut failed = false;
        let n = pending.len();
        let now = self.now;
        let max_retries = self.config.max_retries;
        let ghost mt = self@;
        assert(mt.unacked =~= Seq::<SegmentModel>::empty());
        assert(seg_views(pending@) =~= segs0.skip(0));
        assert(datagrams(out) =~= retransmit_frames(segs0.take(0), header@));
        assert(seg_views(resent@) =~= retransmit_marks(segs0.take(0), now.0));
        while pending.len() > 0
            invariant
                n == segs0.len(),
                pending@.len() <= n,
                now.0 == m.now,
                max_retries == m.config.max_retries,
                seg_views(pending@) == segs0.skip(n - pending@.len()),
                seg_views(resent@) == retransmit_marks(
                    segs0.take(n - pending@.len()),
                    now.0,
                ),
                datagrams(out) == retransmit_frames(segs0.take(n - pending@.len()), header@),
                self@.stats == (Stats {
                    data_segments_retransmitted: sat_add(
                        m.stats.data_segments_retransmitted,
                        unsacked_count(segs0.take(n - pending@.len())) as int,
                    ),
                    ..m.stats
                }),
                failed == retransmit_fails(segs0.take(n - pending@.len()), max_retries),
                self@ == (ConnectionModel { stats: self@.stats, ..mt }),
                mt.unacked == Seq::<SegmentModel>::empty(),
                mt.rto == spec_on_timeout(m.rto),
                mt == (ConnectionModel { rto: mt.rto, unacked: mt.unacked, ..m }),
                max_retries < u32::MAX,
                forall|a: int| 0 <= a < n ==> #[trigger] segs0[a].retransmit_count <= max_retries,
            decreases pending@.len(),
        {
            let ghost i = n - pending@.len();
            let ghost pv = pending@;
            let mut seg = pending.remove(0);
            assert(pending@ == pv.subrange(1, pv.len() as int));
            let ghost sm = seg@;
            assert(sm == segs0[i]) by {
                assert(segs0.skip(i)[0] == segs0[i]);
                assert(pv.map_values(|s: UnackedSegment| s@)[0] == pv[0]@);
            }
            let ghost take1 = segs0.take(i + 1);
            assert(take1.drop_last() =~= segs0.take(i));
            assert(take1.last() == sm);
            assert(segs0[i].retransmit_count <= max_retries);
            let ghost rv = seg_views(resent@);
            if !seg.sacked {
                seg.retransmit_count = seg.retransmit_count + 1;
                seg.sent_at = now;
                self.stats.data_segments_retransmitted = self.stats.data_segments_retransmitted.saturating_add(1);
                if seg.retransmit_count > max_retries {
                    failed = true;
                }
                let frame = Self::build_data_frame(seg.seq, seg.data.as_slice(), header.as_slice());
                push_datagram(&mut out, frame);
            }
            let ghost marked = if sm.sacked {
                sm
            } else {
                SegmentModel { retransmit_count: (sm.retransmit_count + 1) as u32, sent_at: now.0, ..sm }
            };
            assert(seg@ == marked);
            resent.push(seg);
            proof {
                assert(seg_views(resent@) =~= rv.push(marked));
                assert(retransmit_marks(take1, now.0) =~= retransmit_marks(segs0.take(i), now.0).push(marked));
                assert forall|a: int| 0 <= a < pending@.len() implies #[trigger] seg_views(pending@)[a] == segs0.skip(i + 1)[a] by {
                    assert(pending@[a] == pv[a + 1]);
                    assert(pv.map_values(|s: UnackedSegment| s@)[a + 1] == pv[a + 1]@);
                    assert(segs0.skip(i)[a + 1] == segs0.skip(i + 1)[a]);
                }
                assert(seg_views(pending@) =~= segs0.skip(i + 1));
                assert(seg_views(resent@) =~= retransmit_marks(take1, now.0));
                assert(datagrams(out) =~= retransmit_frames(take1, header@));
                if failed {
                    if retransmit_fails(segs0.take(i), max_retries) {
                        let w = choose|w: int|
                            0 <= w < segs0.take(i).len() && !segs0.take(i)[w].sacked && #[trigger] segs0.take(i)[w].retransmit_count + 1 > max_retries;
                        assert(take1[w] == segs0.take(i)[w]);
                    } else {
                        assert(take1[i] == sm);
                    }
                }
                if retransmit_fails(take1, max_retries) {
                    let w = choose|w: int|
                        0 <= w < take1.len() && !take1[w].sacked && #[trigger] take1[w].retransmit_count + 1 > max_retries;
                    if w < i {
                        assert(segs0.take(i)[w] == take1[w]);
                    }
                }
            }
        }
        proof {
            assert(segs0.take(n as int) =~= segs0);
        }
        if failed {
            self.state = State::Failed(FailureReason::TooManyRetries);
            assert(self@ =~= spec_tick_established(m).0);
            return out;
        }
        self.unacked = resent;
        proof {
            let m1 = ConnectionModel {
                rto: spec_on_timeout(m.rto),
                unacked: retransmit_marks(m.unacked, m.now),
                stats: Stats {
                    data_segments_retransmitted: sat_add(
                        m.stats.data_segments_retransmitted,
                        unsacked_count(m.unacked) as int,
                    ),
                    ..m.stats
                },
                ..m
            };
            assert(self@ =~= m1);
            assert forall|a: int, b: int|
                0 <= a < b < self@.unacked.len() implies #[trigger] self@.unacked[a].seq
                < #[trigger] self@.unacked[b].seq by {
                assert(self@.unacked[a].seq == m.unacked[a].seq);
                assert(self@.unacked[b].seq == m.unacked[b].seq);
            }
            assert forall|a: int| 0 <= a < self@.unacked.len() implies {
                let s = #[trigger] self@.unacked[a];
                &&& s.data.len() > 0
                &&& s.seq + s.data.len() <= self@.next_seq
                &&& s.data == self@.sent.subrange(s.seq as int, s.seq + s.data.len())
                &&& s.retransmit_count <= self@.config.max_retries
                &&& s.sent_at <= self@.now
            } by {
                assert(m.unacked[a] == segs0[a]);
                if !segs0[a].sacked {
                    assert(!(segs0[a].retransmit_count + 1 > max_retries));
                }
            }
        }
        let more = self.tick_fin();
        append_datagrams(&mut out, more);
        out
    }

    /// Advances the connection's clock to `now` and fires whatever timers
    /// have run out, returning the datagrams to resend.
    #[verifier::spinoff_prover]
    pub fn on_tick(&mut self, now: Tick) -> (out: Vec<Vec<u8>>)
        requires
            conn_inv(old(self)@),
            now.0 <= MAX_RTT_SAMPLE,
        ensures
            (final(self)@, datagrams(out)) == spec_on_tick(old(self)@, now.0),
            conn_inv(final(self)@),
    {
        if now.0 > self.now.0 {
            self.now = now;
        }
        let ghost m0 = self@;
        assert(m0 == with_now(old(self)@, now.0));
        assert(m0.unacked == old(self)@.unacked);
        assert(m0.recv_buffer == old(self)@.recv_buffer);
        let mut out: Vec<Vec<u8>> = Vec::new();
        assert(datagrams(out) =~= Seq::<Seq<u8>>::empty());
        if self.state == State::SynSent || self.state == State::SynReceived {
            match self.handshake {
                Some(h) => {
                    let elapsed = self.now.since(h.sent_at);
                    if elapsed >= self.rto.current() {
                        let attempts = h.attempts + 1;
                        if attempts > self.config.max_retries {
                            self.state = State::Failed(FailureReason::TooManyRetries);
                            self.handshake = None;
                            assert(self@ =~= spec_on_tick(old(self)@, now.0).0);
                            return out;
                        }
                        self.rto.on_timeout();
                        self.handshake = Some(PendingControl { sent_at: self.now, attempts });
                        self.stats.control_retransmissions = self.stats.control_retransmissions.saturating_add(1);
                        let d = if self.state == State::SynSent {
                            self.build_syn()
                        } else {
                            self.build_synack()
                        };
                        push_datagram(&mut out, d);
                        assert(self@ =~= spec_on_tick(old(self)@, now.0).0);
                        assert(datagrams(out) =~= spec_on_tick(old(self)@, now.0).1);
                    }
                },
                None => {},
            }
            out
        } else if self.state == State::Established || self.state == State::Closing {
            self.tick_established()
        } else {
            out
        }
    }

    /// Whether `on_datagram(now, datagram)` is within its contract:
    /// handling a datagram this rejects would run a stream offset past 32
    /// bits, or walk a SACK range backwards.
    pub fn datagram_is_safe(&self, now: Tick, datagram: &[u8]) -> (b: bool)
        requires
            conn_inv(self@),
        ensures
            b == datagram_safe(self@, now.0, datagram@),
    {
        let ghost m0 = with_now(self@, now.0);
        let f = match decode(datagram) {
            Ok(f) => f,
            Err(_) => {
                return true;
            },
        };
        let parsed: Option<(SegmentHeader, &[u8])> = if f.payload.len() == 0 {
            Some((SegmentHeader::default(), vstd::slice::slice_subrange(f.payload.as_slice(), 0, 0)))
        } else {
            SegmentHeader::decode(f.payload.as_slice())
        };
        let (header, app) = match parsed {
            Some(v) => v,
            None => {
                return true;
            },
        };
        proof {
            assert(split_payload(f@.payload) == Some((header@, app@))) by {
                if f@.payload.len() == 0 {
                    assert(header@.sack =~= Seq::<SackRange>::empty());
                    assert(app@ =~= Seq::<u8>::empty());
                }
            }
        }
        let syn = f.flags & FLAG_SYN != 0;
        let ack = f.flags & FLAG_ACK != 0;
        let fin = f.flags & FLAG_FIN != 0;
        if self.state == State::Closed && fin {
            return true;
        }
        let (next, cont) = if self.state == State::Listening && syn && !ack {
            (State::SynReceived, false)
        } else if self.state == State::SynReceived && syn && !ack {
            (self.state, false)
        } else if self.state == State::SynSent && syn && ack {
            (State::Established, true)
        } else if self.state == State::SynReceived && ack && !syn {
            (State::Established, true)
        } else {
            (self.state, true)
        };
        assert(cont == spec_handshake_step(m0, f@.flags).2);
        assert(next == spec_handshake_step(m0, f@.flags).0.state);
        if !(cont && (next == State::Established || next == State::Closing)) {
            return true;
        }
        let mut ordered = true;
        if ack {
            let mut r: usize = 0;
            while r < header.sack.len()
                invariant
                    r <= header@.sack.len(),
                    ordered <==> forall|j: int| 0 <= j < r ==> #[trigger] header@.sack[j].start <= header@.sack[j].end,
                decreases header@.sack.len() - r,
            {
                if header.sack[r].start > header.sack[r].end {
                    ordered = false;
                }
                r = r + 1;
            }
        }
        assert(ack ==> (ordered == sack_ranges_ordered(header@.sack)));
        ordered && (f.sequence as u64) + (app.len() as u64) <= u32::MAX as u64
    }


    /// Newly available in-order application bytes.
    pub fn recv(&mut self) -> (data: Vec<u8>)
        requires
            conn_inv(old(self)@),
        ensures
            data@ == old(self)@.delivered,
            final(self)@ == (ConnectionModel { delivered: Seq::empty(), ..old(self)@ }),
            conn_inv(final(self)@),
    {
        let mut data: Vec<u8> = Vec::new();
        std::mem::swap(&mut data, &mut self.delivered);
        assert(self@ =~= ConnectionModel { delivered: Seq::empty(), ..old(self)@ });
        data
    }
}

} // verus!
