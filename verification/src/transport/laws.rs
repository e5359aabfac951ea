//! What the connection state machine guarantees about the byte stream:
//! everything a receiver delivers is a gap-free, in-order prefix of what
//! the sender queued, as long as every data segment it accepts carries
//! the sender's bytes at their offset — and every datagram a connection
//! emits does exactly that.

use crate::frame::{
    lemma_encode_decodes_to_itself, lemma_prefix_decodes_to_prefix, spec_decode, spec_encode,
    FrameModel,
};
use crate::transport::connection::{
    ack_header, blank_model, conn_inv, current_sack, data_bytes, expired, fin_bytes,
    count_below, first_at_least, frame_bytes, is_ack, is_fin, lemma_first_at_least, min_usize, pure_ack_bytes,
    retransmit_fails, retransmit_frames, retransmit_marks, sat_add, spec_absorb, spec_apply_ack,
    spec_buffer_insert, spec_close, spec_deliver, spec_drain, spec_handshake_step,
    spec_maybe_send_fin, spec_on_datagram, spec_on_tick, spec_process, spec_send, spec_tick_fin,
    spec_try_send_more, split_payload, unsacked_count, with_now, Config, ConnectionModel,
    PendingControl, SegmentModel, State, Stats, FLAGS_FIN_ACK, FLAGS_SYN_ACK, FLAG_ACK, FLAG_SYN,
};
use crate::transport::segment::{
    lemma_header_roundtrip, SegmentHeaderModel, FIXED_LEN, RANGE_LEN,
};
use vstd::prelude::*;

verus! {

/// The offset and application bytes a datagram carries, when it is a
/// valid frame with a well-formed transport header.
pub open spec fn segment_data(d: Seq<u8>) -> Option<(u32, Seq<u8>)> {
    match spec_decode(d) {
        Ok(f) => match split_payload(f.payload) {
            Some((h, app)) => Some((f.sequence, app)),
            None => None,
        },
        Err(_) => None,
    }
}

/// A datagram carries bytes of stream `s`: any application bytes it
/// holds are exactly `s` at their offset.
pub open spec fn carries(d: Seq<u8>, s: Seq<u8>) -> bool {
    match segment_data(d) {
        Some((seq, app)) => app.len() == 0 || (seq + app.len() <= s.len() && app == s.subrange(
            seq as int,
            seq + app.len(),
        )),
        None => true,
    }
}

/// The application bytes frame `f` holds, if any, are stream `s` at
/// their offset.
pub open spec fn frame_carries(f: FrameModel, s: Seq<u8>) -> bool {
    match split_payload(f.payload) {
        Some((h, app)) => app.len() == 0 || (f.sequence + app.len() <= s.len() && app
            == s.subrange(f.sequence as int, f.sequence + app.len())),
        None => true,
    }
}

/// What a connection may emit on stream `s`: the encoding of a frame
/// whose application bytes are `s` at their offset.
pub open spec fn emits(d: Seq<u8>, s: Seq<u8>) -> bool {
    exists|f: FrameModel| d == #[trigger] spec_encode(f) && frame_carries(f, s)
}

/// Every datagram of `out` is what a connection may emit on `s`.
pub open spec fn all_carry(out: Seq<Seq<u8>>, s: Seq<u8>) -> bool {
    forall|i: int| 0 <= i < out.len() ==> #[trigger] emits(out[i], s)
}

/// The receiver's state agrees with stream `s`: what it delivered is a
/// prefix of `s`, and what it holds out of order is `s` at its offsets.
pub open spec fn receiver_consistent(m: ConnectionModel, s: Seq<u8>) -> bool {
    &&& m.received.len() <= s.len()
    &&& m.received == s.take(m.received.len() as int)
    &&& forall|i: int|
        0 <= i < m.recv_buffer.len() ==> {
            let b = #[trigger] m.recv_buffer[i];
            &&& b.0 + b.1.len() <= s.len()
            &&& b.1 == s.subrange(b.0 as int, b.0 + b.1.len())
        }
}

/// The receive side of a model: what a send-side step must leave alone.
pub open spec fn same_receive_side(a: ConnectionModel, b: ConnectionModel) -> bool {
    &&& a.received == b.received
    &&& a.recv_buffer == b.recv_buffer
    &&& a.expected_seq == b.expected_seq
}

/// The send-side bookkeeping: the queue is the unsent tail of `sent`.
pub open spec fn sender_ok(m: ConnectionModel) -> bool {
    &&& m.sent.len() == m.next_seq + m.send_queue.len()
    &&& m.send_queue == m.sent.skip(m.next_seq as int)
}

/// The stream bookkeeping the laws rest on, on both sides.
pub open spec fn stream_ok(m: ConnectionModel) -> bool {
    &&& sender_ok(m)
    &&& m.sent.len() <= u32::MAX
    &&& m.received.len() == m.expected_seq
}

// ---- Datagram shapes ----------------------------------------------------

proof fn lemma_ack_header_splits(m: ConnectionModel, fin_ack: bool, rest: Seq<u8>)
    ensures
        split_payload(ack_header(m, fin_ack) + rest) == Some(
            (
                SegmentHeaderModel { ack: m.expected_seq, fin_ack, sack: current_sack(m) },
                rest,
            ),
        ),
{
    let h = SegmentHeaderModel { ack: m.expected_seq, fin_ack, sack: current_sack(m) };
    lemma_header_roundtrip(h, rest);
    crate::transport::segment::lemma_encode_caps_ranges(h);
}

proof fn lemma_empty_payload_carries(seq: u32, flags: u16, s: Seq<u8>)
    ensures
        emits(frame_bytes(seq, flags, Seq::empty()), s),
{
    let f = FrameModel { frame_type: 0, sequence: seq, flags, payload: Seq::empty() };
    lemma_encode_decodes_to_itself(f);
    assert(frame_bytes(seq, flags, Seq::empty()) == spec_encode(f));
    assert(frame_carries(f, s));
}

proof fn lemma_header_only_carries(m: ConnectionModel, seq: u32, flags: u16, fin_ack: bool, s: Seq<u8>)
    ensures
        emits(frame_bytes(seq, flags, ack_header(m, fin_ack)), s),
{
    let p = ack_header(m, fin_ack);
    let f = FrameModel { frame_type: 0, sequence: seq, flags, payload: p };
    lemma_encode_decodes_to_itself(f);
    assert(frame_bytes(seq, flags, p) == spec_encode(f));
    lemma_ack_header_splits(m, fin_ack, Seq::empty());
    assert(p + Seq::<u8>::empty() =~= p);
}

proof fn lemma_data_carries(m: ConnectionModel, seq: u32, data: Seq<u8>, s: Seq<u8>)
    requires
        seq + data.len() <= s.len(),
        data == s.subrange(seq as int, seq + data.len()),
    ensures
        emits(data_bytes(seq, data, ack_header(m, false)), s),
{
    let p = ack_header(m, false) + data;
    let f = FrameModel { frame_type: 0, sequence: seq, flags: FLAG_ACK, payload: p };
    lemma_encode_decodes_to_itself(f);
    assert(data_bytes(seq, data, ack_header(m, false)) == spec_encode(f));
    lemma_ack_header_splits(m, false, data);
}

pub(crate) proof fn lemma_all_carry_concat(a: Seq<Seq<u8>>, b: Seq<Seq<u8>>, s: Seq<u8>)
    requires
        all_carry(a, s),
        all_carry(b, s),
    ensures
        all_carry(a + b, s),
{
    assert forall|i: int| 0 <= i < (a + b).len() implies #[trigger] emits((a + b)[i], s) by {
        if i < a.len() {
            assert((a + b)[i] == a[i]);
        } else {
            assert((a + b)[i] == b[i - a.len()]);
        }
    }
}

// ---- Send-side steps ------------------------------------------------------

proof fn lemma_try_send_more(m: ConnectionModel)
    requires
        sender_ok(m),
        m.sent.len() <= u32::MAX,
    ensures
        sender_ok(spec_try_send_more(m).0),
        spec_try_send_more(m).0.sent == m.sent,
        same_receive_side(spec_try_send_more(m).0, m),
        all_carry(spec_try_send_more(m).1, m.sent),
    decreases m.send_queue.len(),
{
    if !(m.state == State::Established || m.state == State::Closing) || m.send_queue.len() == 0
        || m.unacked.len() >= m.config.max_in_flight_segments || m.config.segment_size == 0 {
    } else {
        let n = min_usize(m.config.segment_size, m.send_queue.len());
        let data = m.send_queue.take(n as int);
        let seg = SegmentModel {
            seq: m.next_seq,
            data,
            sent_at: m.now,
            retransmit_count: 0,
            sacked: false,
        };
        let m1 = ConnectionModel {
            send_queue: m.send_queue.skip(n as int),
            next_seq: (m.next_seq + n) as u32,
            unacked: m.unacked.push(seg),
            stats: Stats { data_segments_sent: (m.stats.data_segments_sent + 1) as u64, ..m.stats },
            ..m
        };
        assert(m1.send_queue =~= m1.sent.skip(m1.next_seq as int));
        lemma_try_send_more(m1);
        assert(data =~= m.sent.subrange(m.next_seq as int, m.next_seq + data.len()));
        lemma_data_carries(m, m.next_seq, data, m.sent);
        let (m2, out) = spec_try_send_more(m1);
        let first = seq![data_bytes(m.next_seq, data, ack_header(m, false))];
        assert(all_carry(first, m.sent));
        lemma_all_carry_concat(first, out, m.sent);
    }
}

proof fn lemma_drain(m: ConnectionModel)
    requires
        sender_ok(m),
        m.sent.len() <= u32::MAX,
    ensures
        sender_ok(spec_drain(m).0),
        spec_drain(m).0.sent == m.sent,
        same_receive_side(spec_drain(m).0, m),
        all_carry(spec_drain(m).1, m.sent),
{
    lemma_try_send_more(m);
    let (m1, o1) = spec_try_send_more(m);
    let (m2, o2) = spec_maybe_send_fin(m1);
    lemma_header_only_carries(m1, m1.send_base, FLAGS_FIN_ACK, false, m.sent);
    assert(all_carry(o2, m.sent));
    lemma_all_carry_concat(o1, o2, m.sent);
}

/// Sending keeps the receive side, extends the sent stream by exactly
/// the queued bytes, and every datagram it emits carries that stream's
/// bytes.
pub proof fn lemma_send_law(m: ConnectionModel, now: u64, data: Seq<u8>)
    requires
        conn_inv(m),
        m.sent.len() + data.len() <= u32::MAX,
    ensures
        spec_send(m, now, data).0.sent == m.sent + data,
        same_receive_side(spec_send(m, now, data).0, m),
        all_carry(spec_send(m, now, data).1, m.sent + data),
{
    let m1 = with_now(m, now);
    let m2 = ConnectionModel {
        send_queue: m1.send_queue + data,
        sent: m1.sent + data,
        stats: Stats { bytes_sent_app: (m1.stats.bytes_sent_app + data.len()) as u64, ..m1.stats },
        ..m1
    };
    assert(m2.send_queue =~= m2.sent.skip(m2.next_seq as int));
    lemma_drain(m2);
}

/// Closing keeps the receive side and the sent stream, and every datagram
/// it emits carries that stream's bytes.
pub proof fn lemma_close_law(m: ConnectionModel, now: u64)
    requires
        conn_inv(m),
    ensures
        spec_close(m, now).0.sent == m.sent,
        same_receive_side(spec_close(m, now).0, m),
        all_carry(spec_close(m, now).1, m.sent),
{
    lemma_drain(ConnectionModel { close_requested: true, ..with_now(m, now) });
}

// ---- Timers -------------------------------------------------------------

proof fn lemma_retransmit_frames_carry(segs: Seq<SegmentModel>, m: ConnectionModel, s: Seq<u8>)
    requires
        forall|i: int|
            0 <= i < segs.len() ==> {
                let g = #[trigger] segs[i];
                &&& g.seq + g.data.len() <= s.len()
                &&& g.data == s.subrange(g.seq as int, g.seq + g.data.len())
            },
    ensures
        all_carry(retransmit_frames(segs, ack_header(m, false)), s),
    decreases segs.len(),
{
    if segs.len() > 0 {
        let init = segs.drop_last();
        assert forall|i: int| 0 <= i < init.len() implies {
            let g = #[trigger] init[i];
            &&& g.seq + g.data.len() <= s.len()
            &&& g.data == s.subrange(g.seq as int, g.seq + g.data.len())
        } by {
            assert(init[i] == segs[i]);
        }
        lemma_retransmit_frames_carry(init, m, s);
        let last = segs.last();
        let tail = if last.sacked {
            Seq::<Seq<u8>>::empty()
        } else {
            seq![data_bytes(last.seq, last.data, ack_header(m, false))]
        };
        if !last.sacked {
            lemma_data_carries(m, last.seq, last.data, s);
        }
        assert(all_carry(tail, s));
        lemma_all_carry_concat(retransmit_frames(init, ack_header(m, false)), tail, s);
    }
}

proof fn lemma_tick_fin(m: ConnectionModel)
    requires
        sender_ok(m),
        m.sent.len() <= u32::MAX,
    ensures
        spec_tick_fin(m).0.sent == m.sent,
        same_receive_side(spec_tick_fin(m).0, m),
        all_carry(spec_tick_fin(m).1, m.sent),
{
    match m.fin_pending {
        Some(f) => if expired(m.now, f.sent_at.0, m.rto) {
            if f.attempts + 1 > m.config.max_retries {
            } else {
                let m1 = ConnectionModel {
                    rto: crate::transport::rto::spec_on_timeout(m.rto),
                    fin_pending: Some(
                        PendingControl {
                            sent_at: crate::channel::tick::Tick(m.now),
                            attempts: (f.attempts + 1) as u32,
                        },
                    ),
                    stats: Stats {
                        control_retransmissions: sat_add(m.stats.control_retransmissions, 1),
                        ..m.stats
                    },
                    ..m
                };
                lemma_drain(m1);
                lemma_header_only_carries(m1, m1.send_base, FLAGS_FIN_ACK, false, m.sent);
                let first = seq![fin_bytes(m1)];
                assert(all_carry(first, m.sent));
                lemma_all_carry_concat(first, spec_drain(m1).1, m.sent);
            }
        } else {
            lemma_drain(m);
        },
        None => lemma_drain(m),
    }
}

/// The timers keep the receive side and the sent stream, and every
/// datagram they resend carries that stream's bytes.
pub proof fn lemma_on_tick_law(m: ConnectionModel, now: u64)
    requires
        conn_inv(m),
    ensures
        spec_on_tick(m, now).0.sent == m.sent,
        same_receive_side(spec_on_tick(m, now).0, m),
        all_carry(spec_on_tick(m, now).1, m.sent),
{
    let m0 = with_now(m, now);
    if m0.state == State::SynSent || m0.state == State::SynReceived {
        lemma_empty_payload_carries(0, FLAG_SYN, m.sent);
        lemma_empty_payload_carries(0, FLAGS_SYN_ACK, m.sent);
        let out = spec_on_tick(m, now).1;
        assert(all_carry(out, m.sent));
    } else if m0.state == State::Established || m0.state == State::Closing {
        if m0.unacked.len() > 0 && expired(m0.now, m0.unacked[0].sent_at, m0.rto) {
            assert forall|i: int| 0 <= i < m0.unacked.len() implies {
                let g = #[trigger] m0.unacked[i];
                &&& g.seq + g.data.len() <= m.sent.len()
                &&& g.data == m.sent.subrange(g.seq as int, g.seq + g.data.len())
            } by {
                let g = m0.unacked[i];
                assert(g == m.unacked[i]);
            }
            lemma_retransmit_frames_carry(m0.unacked, m0, m.sent);
            let m1 = ConnectionModel {
                rto: crate::transport::rto::spec_on_timeout(m0.rto),
                unacked: retransmit_marks(m0.unacked, m0.now),
                stats: Stats {
                    data_segments_retransmitted: sat_add(
                        m0.stats.data_segments_retransmitted,
                        unsacked_count(m0.unacked) as int,
                    ),
                    ..m0.stats
                },
                ..m0
            };
            if !retransmit_fails(m0.unacked, m0.config.max_retries) {
                lemma_tick_fin(m1);
                lemma_all_carry_concat(
                    retransmit_frames(m0.unacked, ack_header(m0, false)),
                    spec_tick_fin(m1).1,
                    m.sent,
                );
            }
        } else {
            lemma_tick_fin(m0);
        }
    }
}

// ---- Receiving ------------------------------------------------------------

proof fn lemma_absorb(m: ConnectionModel, s: Seq<u8>)
    requires
        receiver_consistent(m, s),
        m.received.len() == m.expected_seq,
        s.len() <= u32::MAX,
    ensures
        receiver_consistent(spec_absorb(m), s),
        spec_absorb(m).received.len() == spec_absorb(m).expected_seq,
        spec_absorb(m).sent == m.sent,
        spec_absorb(m).send_queue == m.send_queue,
        spec_absorb(m).next_seq == m.next_seq,
    decreases m.recv_buffer.len(),
{
    let buf = m.recv_buffer;
    let i = first_at_least(buf, m.expected_seq as int, 0);
    lemma_first_at_least(buf, m.expected_seq as int, 0);
    if 0 <= i < buf.len() && buf[i].0 == m.expected_seq {
        let v = buf[i].1;
        let b = buf[i];
        assert(b.0 + b.1.len() <= s.len());
        let m1 = ConnectionModel {
            recv_buffer: buf.remove(i),
            expected_seq: (m.expected_seq + v.len()) as u32,
            delivered: m.delivered + v,
            received: m.received + v,
            stats: Stats {
                bytes_delivered_app: (m.stats.bytes_delivered_app + v.len()) as u64,
                ..m.stats
            },
            ..m
        };
        assert(m1.received =~= s.take(m1.received.len() as int));
        assert forall|k: int| 0 <= k < m1.recv_buffer.len() implies {
            let e = #[trigger] m1.recv_buffer[k];
            &&& e.0 + e.1.len() <= s.len()
            &&& e.1 == s.subrange(e.0 as int, e.0 + e.1.len())
        } by {
            let k0 = if k < i {
                k
            } else {
                k + 1
            };
            assert(m1.recv_buffer[k] == buf[k0]);
        }
        lemma_absorb(m1, s);
    }
}

proof fn lemma_deliver(m: ConnectionModel, seq: u32, data: Seq<u8>, s: Seq<u8>)
    requires
        receiver_consistent(m, s),
        m.received.len() == m.expected_seq,
        s.len() <= u32::MAX,
        data.len() > 0 ==> seq + data.len() <= s.len() && data == s.subrange(
            seq as int,
            seq + data.len(),
        ),
    ensures
        receiver_consistent(spec_deliver(m, seq, data), s),
        spec_deliver(m, seq, data).received.len() == spec_deliver(m, seq, data).expected_seq,
        spec_deliver(m, seq, data).sent == m.sent,
        spec_deliver(m, seq, data).send_queue == m.send_queue,
        spec_deliver(m, seq, data).next_seq == m.next_seq,
{
    if data.len() == 0 {
    } else if seq + data.len() <= m.expected_seq {
    } else if seq <= m.expected_seq {
        let skip = m.expected_seq - seq;
        let fresh = data.skip(skip);
        let m1 = ConnectionModel {
            stats: Stats {
                duplicate_bytes_received: sat_add(m.stats.duplicate_bytes_received, skip),
                bytes_delivered_app: (m.stats.bytes_delivered_app + fresh.len()) as u64,
                ..m.stats
            },
            delivered: m.delivered + fresh,
            received: m.received + fresh,
            expected_seq: (seq + data.len()) as u32,
            ..m
        };
        assert(m1.received =~= s.take(m1.received.len() as int));
        lemma_absorb(m1, s);
    } else {
        let buf = m.recv_buffer;
        let i = first_at_least(buf, seq as int, 0);
        lemma_first_at_least(buf, seq as int, 0);
        let nb = spec_buffer_insert(buf, seq, data);
        assert forall|k: int| 0 <= k < nb.len() implies {
            let e = #[trigger] nb[k];
            &&& e.0 + e.1.len() <= s.len()
            &&& e.1 == s.subrange(e.0 as int, e.0 + e.1.len())
        } by {
            if 0 <= i < buf.len() && buf[i].0 == seq {
                if k != i {
                    assert(nb[k] == buf[k]);
                }
            } else {
                if k < i {
                    assert(nb[k] == buf[k]);
                } else if k > i {
                    assert(nb[k] == buf[k - 1]);
                }
            }
        }
    }
}

proof fn lemma_process(m: ConnectionModel, f: FrameModel, h: SegmentHeaderModel, app: Seq<u8>, s: Seq<u8>)
    requires
        stream_ok(m),
        receiver_consistent(m, s),
        s.len() <= u32::MAX,
        app.len() > 0 ==> f.sequence + app.len() <= s.len() && app == s.subrange(
            f.sequence as int,
            f.sequence + app.len(),
        ),
    ensures
        receiver_consistent(spec_process(m, f, h, app).0, s),
        spec_process(m, f, h, app).0.sent == m.sent,
        all_carry(spec_process(m, f, h, app).1, m.sent),
{
    let fin = is_fin(f.flags);
    let m2 = if is_ack(f.flags) {
        spec_apply_ack(m, h)
    } else {
        m
    };
    assert(same_receive_side(m2, m) && m2.sent == m.sent && m2.send_queue == m.send_queue
        && m2.next_seq == m.next_seq);
    let m3 = if app.len() > 0 {
        spec_deliver(m2, f.sequence, app)
    } else {
        m2
    };
    lemma_deliver(m2, f.sequence, app, s);
    let m4 = if fin {
        ConnectionModel { peer_fin_seen: true, ..m3 }
    } else {
        m3
    };
    let m5 = if app.len() > 0 || fin {
        ConnectionModel {
            stats: Stats { ack_segments_sent: sat_add(m4.stats.ack_segments_sent, 1), ..m4.stats },
            ..m4
        }
    } else {
        m4
    };
    let o5: Seq<Seq<u8>> = if app.len() > 0 || fin {
        seq![pure_ack_bytes(m4, fin)]
    } else {
        Seq::empty()
    };
    lemma_header_only_carries(m4, m4.send_base, FLAG_ACK, fin, m.sent);
    assert(all_carry(o5, m.sent));
    lemma_drain(m5);
    lemma_all_carry_concat(o5, spec_drain(m5).1, m.sent);
}

/// The receiving law: when the connection accepts a datagram whose
/// application bytes (if any) are stream `s` at their offset, the bytes
/// it has delivered stay a gap-free prefix of `s` and the bytes it holds
/// out of order stay `s` at theirs. The sent stream is untouched, and
/// every datagram sent in response carries its bytes.
pub proof fn lemma_receive_law(m: ConnectionModel, now: u64, d: Seq<u8>, s: Seq<u8>)
    requires
        conn_inv(m),
        receiver_consistent(m, s),
        carries(d, s),
        s.len() <= u32::MAX,
    ensures
        receiver_consistent(spec_on_datagram(m, now, d).0, s),
        spec_on_datagram(m, now, d).0.sent == m.sent,
        all_carry(spec_on_datagram(m, now, d).1, m.sent),
{
    let m0 = with_now(m, now);
    match spec_decode(d) {
        Err(_) => {},
        Ok(f) => match split_payload(f.payload) {
            None => {},
            Some((h, app)) => {
                if m0.state == State::Closed && is_fin(f.flags) {
                    lemma_header_only_carries(m0, m0.send_base, FLAG_ACK, true, m.sent);
                    assert(all_carry(spec_on_datagram(m, now, d).1, m.sent));
                } else {
                    let (m1, o1, cont) = spec_handshake_step(m0, f.flags);
                    lemma_empty_payload_carries(0, FLAGS_SYN_ACK, m.sent);
                    lemma_empty_payload_carries(0, FLAG_ACK, m.sent);
                    assert(all_carry(o1, m.sent));
                    assert(same_receive_side(m1, m0) && m1.sent == m0.sent);
                    if cont && (m1.state == State::Established || m1.state == State::Closing) {
                        lemma_process(m1, f, h, app, s);
                        lemma_all_carry_concat(o1, spec_process(m1, f, h, app).1, m.sent);
                    }
                }
            },
        },
    }
}

/// A prefix of a segment payload that splits at all splits into the
/// same header and a prefix of the same application bytes (or none).
proof fn lemma_split_prefix(p: Seq<u8>, j: int)
    requires
        0 <= j <= p.len(),
    ensures
        split_payload(p.take(j)) matches Some((h2, a2)) ==> a2.len() == 0 || (split_payload(p)
            matches Some((h, a)) && a2.len() <= a.len() && a2 == a.take(a2.len() as int)),
{
    let q = p.take(j);
    if j > 0 && q.len() >= FIXED_LEN {
        assert(q[5] == p[5]);
        let c = p[5] as int;
        if q.len() >= FIXED_LEN + RANGE_LEN * c {
            assert(q.subrange(FIXED_LEN + RANGE_LEN * c, j) =~= p.subrange(
                FIXED_LEN + RANGE_LEN * c,
                p.len() as int,
            ).take(j - (FIXED_LEN + RANGE_LEN * c)));
        }
    }
}

/// Every prefix of what a connection emits on stream `s`, the whole of
/// it included, carries bytes of `s`: a datagram cut short either does
/// not decode or decodes to the same segment with fewer of its bytes.
pub proof fn lemma_emits_prefix(d: Seq<u8>, s: Seq<u8>, k: int)
    requires
        emits(d, s),
        0 <= k <= d.len(),
    ensures
        carries(d.take(k), s),
{
    let f = choose|f: FrameModel| d == #[trigger] spec_encode(f) && frame_carries(f, s);
    if k == d.len() {
        assert(d.take(k) =~= d);
        lemma_encode_decodes_to_itself(f);
        assert(spec_decode(d) is Ok ==> spec_decode(d) == Ok::<FrameModel, crate::frame::DecodeError>(f));
    } else {
        lemma_prefix_decodes_to_prefix(f, k);
        if let Ok(g) = spec_decode(d.take(k)) {
            lemma_split_prefix(f.payload, k - 16);
            if let Some((h2, a2)) = split_payload(g.payload) {
                if a2.len() > 0 {
                    let (h, a) = split_payload(f.payload).unwrap();
                    let t = a2.len() as int;
                    assert(a.take(t) =~= s.subrange(f.sequence as int, f.sequence + t));
                }
            }
        }
    }
}

// ---- The sent stream ------------------------------------------------------

proof fn lemma_try_send_more_sent(m: ConnectionModel)
    ensures
        spec_try_send_more(m).0.sent == m.sent,
        spec_try_send_more(m).0.received == m.received,
        spec_try_send_more(m).0.delivered == m.delivered,
    decreases m.send_queue.len(),
{
    if !(m.state == State::Established || m.state == State::Closing) || m.send_queue.len() == 0
        || m.unacked.len() >= m.config.max_in_flight_segments || m.config.segment_size == 0 {
    } else {
        let n = min_usize(m.config.segment_size, m.send_queue.len());
        let data = m.send_queue.take(n as int);
        let seg = SegmentModel {
            seq: m.next_seq,
            data,
            sent_at: m.now,
            retransmit_count: 0,
            sacked: false,
        };
        let m1 = ConnectionModel {
            send_queue: m.send_queue.skip(n as int),
            next_seq: (m.next_seq + n) as u32,
            unacked: m.unacked.push(seg),
            stats: Stats { data_segments_sent: (m.stats.data_segments_sent + 1) as u64, ..m.stats },
            ..m
        };
        lemma_try_send_more_sent(m1);
    }
}

proof fn lemma_absorb_sent(m: ConnectionModel)
    ensures
        spec_absorb(m).sent == m.sent,
        delivers_what_it_receives(m, spec_absorb(m)),
    decreases m.recv_buffer.len(),
{
    let buf = m.recv_buffer;
    let i = first_at_least(buf, m.expected_seq as int, 0);
    if 0 <= i < buf.len() && buf[i].0 == m.expected_seq {
        let v = buf[i].1;
        let m1 = ConnectionModel {
            recv_buffer: buf.remove(i),
            expected_seq: (m.expected_seq + v.len()) as u32,
            delivered: m.delivered + v,
            received: m.received + v,
            stats: Stats {
                bytes_delivered_app: (m.stats.bytes_delivered_app + v.len()) as u64,
                ..m.stats
            },
            ..m
        };
        lemma_absorb_sent(m1);
        assert(m1.received.subrange(0, m.received.len() as int) =~= m.received);
        assert(m1.received.skip(m.received.len() as int) =~= v);
        lemma_delivers_chain(m, m1, spec_absorb(m1));
    } else {
        lemma_delivers_same(m);
    }
}

/// `c` took in exactly the bytes it added to its received history: they
/// are what was added to its undelivered bytes.
pub open spec fn delivers_what_it_receives(m: ConnectionModel, c: ConnectionModel) -> bool {
    &&& m.received.is_prefix_of(c.received)
    &&& c.delivered == m.delivered + c.received.skip(m.received.len() as int)
}

proof fn lemma_delivers_same(m: ConnectionModel)
    ensures
        delivers_what_it_receives(m, m),
{
    assert(m.received.subrange(0, m.received.len() as int) =~= m.received);
    assert(m.delivered + m.received.skip(m.received.len() as int) =~= m.delivered);
}

proof fn lemma_delivers_chain(a: ConnectionModel, b: ConnectionModel, c: ConnectionModel)
    requires
        delivers_what_it_receives(a, b),
        delivers_what_it_receives(b, c),
    ensures
        delivers_what_it_receives(a, c),
{
    let ra = a.received.len() as int;
    let rb = b.received.len() as int;
    assert(c.received.subrange(0, ra) =~= b.received.subrange(0, ra));
    assert(c.received.skip(ra) =~= b.received.skip(ra) + c.received.skip(rb)) by {
        assert(b.received =~= c.received.subrange(0, rb));
    }
    assert(c.delivered =~= a.delivered + c.received.skip(ra));
}

proof fn lemma_drain_sent(m: ConnectionModel)
    ensures
        spec_drain(m).0.sent == m.sent,
        spec_drain(m).0.received == m.received,
        spec_drain(m).0.delivered == m.delivered,
{
    lemma_try_send_more_sent(m);
}

/// Queuing bytes extends the sent stream by exactly those bytes, whatever
/// state the connection is in.
pub proof fn lemma_send_extends_sent(m: ConnectionModel, now: u64, data: Seq<u8>)
    ensures
        spec_send(m, now, data).0.sent == m.sent + data,
        spec_send(m, now, data).0.received == m.received,
        spec_send(m, now, data).0.delivered == m.delivered,
{
    let m1 = with_now(m, now);
    lemma_drain_sent(
        ConnectionModel {
            send_queue: m1.send_queue + data,
            sent: m1.sent + data,
            stats: Stats { bytes_sent_app: (m1.stats.bytes_sent_app + data.len()) as u64, ..m1.stats },
            ..m1
        },
    );
}

/// Accepting data never changes the sent stream, and delivers exactly
/// what it adds to the received history.
proof fn lemma_deliver_sent(m: ConnectionModel, seq: u32, data: Seq<u8>)
    ensures
        spec_deliver(m, seq, data).sent == m.sent,
        delivers_what_it_receives(m, spec_deliver(m, seq, data)),
{
    if data.len() == 0 || seq + data.len() <= m.expected_seq || !(seq <= m.expected_seq) {
        lemma_delivers_same(m);
    } else {
        let skip = m.expected_seq - seq;
        let fresh = data.skip(skip);
        let m1 = ConnectionModel {
            stats: Stats {
                duplicate_bytes_received: sat_add(m.stats.duplicate_bytes_received, skip),
                bytes_delivered_app: (m.stats.bytes_delivered_app + fresh.len()) as u64,
                ..m.stats
            },
            delivered: m.delivered + fresh,
            received: m.received + fresh,
            expected_seq: (seq + data.len()) as u32,
            ..m
        };
        lemma_absorb_sent(m1);
        assert(m1.received.subrange(0, m.received.len() as int) =~= m.received);
        assert(m1.received.skip(m.received.len() as int) =~= fresh);
        lemma_delivers_chain(m, m1, spec_absorb(m1));
    }
}

/// Taking a datagram never changes the sent stream, whatever the
/// datagram and whatever state the connection is in; the bytes it adds
/// to the received history are exactly those it adds to the undelivered
/// bytes.
pub proof fn lemma_on_datagram_keeps_sent(m: ConnectionModel, now: u64, d: Seq<u8>)
    ensures
        spec_on_datagram(m, now, d).0.sent == m.sent,
        delivers_what_it_receives(m, spec_on_datagram(m, now, d).0),
{
    let m0 = with_now(m, now);
    lemma_delivers_same(m);
    if let Ok(f) = spec_decode(d) {
        if let Some((h, app)) = split_payload(f.payload) {
            if !(m0.state == State::Closed && is_fin(f.flags)) {
                let (m1, o1, cont) = spec_handshake_step(m0, f.flags);
                if cont && (m1.state == State::Established || m1.state == State::Closing) {
                    let fin = is_fin(f.flags);
                    let m2 = if is_ack(f.flags) {
                        spec_apply_ack(m1, h)
                    } else {
                        m1
                    };
                    assert(m2.received == m.received && m2.delivered == m.delivered);
                    let m3 = if app.len() > 0 {
                        spec_deliver(m2, f.sequence, app)
                    } else {
                        m2
                    };
                    if app.len() > 0 {
                        lemma_deliver_sent(m2, f.sequence, app);
                    }
                    let m4 = if fin {
                        ConnectionModel { peer_fin_seen: true, ..m3 }
                    } else {
                        m3
                    };
                    let m5 = if app.len() > 0 || fin {
                        ConnectionModel {
                            stats: Stats {
                                ack_segments_sent: sat_add(m4.stats.ack_segments_sent, 1),
                                ..m4.stats
                            },
                            ..m4
                        }
                    } else {
                        m4
                    };
                    lemma_drain_sent(m5);
                    assert(delivers_what_it_receives(m, m3));
                    assert(spec_on_datagram(m, now, d).0 == spec_drain(m5).0);
                }
            }
        }
    }
}

/// The timers never change the sent stream, whatever state the
/// connection is in.
pub proof fn lemma_on_tick_keeps_sent(m: ConnectionModel, now: u64)
    ensures
        spec_on_tick(m, now).0.sent == m.sent,
        spec_on_tick(m, now).0.received == m.received,
        spec_on_tick(m, now).0.delivered == m.delivered,
{
    let m0 = with_now(m, now);
    lemma_drain_sent(m0);
    if m0.unacked.len() > 0 && expired(m0.now, m0.unacked[0].sent_at, m0.rto) {
        let m1 = ConnectionModel {
            rto: crate::transport::rto::spec_on_timeout(m0.rto),
            unacked: retransmit_marks(m0.unacked, m0.now),
            stats: Stats {
                data_segments_retransmitted: sat_add(
                    m0.stats.data_segments_retransmitted,
                    unsacked_count(m0.unacked) as int,
                ),
                ..m0.stats
            },
            ..m0
        };
        lemma_tick_fin_sent(m1);
    } else {
        lemma_tick_fin_sent(m0);
    }
}

proof fn lemma_tick_fin_sent(m: ConnectionModel)
    ensures
        spec_tick_fin(m).0.sent == m.sent,
        spec_tick_fin(m).0.received == m.received,
        spec_tick_fin(m).0.delivered == m.delivered,
{
    lemma_drain_sent(m);
    if let Some(f) = m.fin_pending {
        let m1 = ConnectionModel {
            rto: crate::transport::rto::spec_on_timeout(m.rto),
            fin_pending: Some(
                PendingControl {
                    sent_at: crate::channel::tick::Tick(m.now),
                    attempts: (f.attempts + 1) as u32,
                },
            ),
            stats: Stats {
                control_retransmissions: sat_add(m.stats.control_retransmissions, 1),
                ..m.stats
            },
            ..m
        };
        lemma_drain_sent(m1);
    }
}

// ---- Admission -----------------------------------------------------------

/// At most `max_in_flight_segments` segments are unacknowledged.
pub open spec fn in_flight_ok(m: ConnectionModel) -> bool {
    m.unacked.len() <= m.config.max_in_flight_segments
}

/// Cutting segments admits one only while fewer than
/// `max_in_flight_segments` are unacknowledged.
proof fn lemma_try_send_more_admits(m: ConnectionModel)
    requires
        in_flight_ok(m),
    ensures
        in_flight_ok(spec_try_send_more(m).0),
        spec_try_send_more(m).0.config == m.config,
    decreases m.send_queue.len(),
{
    if !(m.state == State::Established || m.state == State::Closing) || m.send_queue.len() == 0
        || m.unacked.len() >= m.config.max_in_flight_segments || m.config.segment_size == 0 {
    } else {
        let n = min_usize(m.config.segment_size, m.send_queue.len());
        let data = m.send_queue.take(n as int);
        let seg = SegmentModel {
            seq: m.next_seq,
            data,
            sent_at: m.now,
            retransmit_count: 0,
            sacked: false,
        };
        let m1 = ConnectionModel {
            send_queue: m.send_queue.skip(n as int),
            next_seq: (m.next_seq + n) as u32,
            unacked: m.unacked.push(seg),
            stats: Stats { data_segments_sent: (m.stats.data_segments_sent + 1) as u64, ..m.stats },
            ..m
        };
        lemma_try_send_more_admits(m1);
    }
}

proof fn lemma_drain_admits(m: ConnectionModel)
    requires
        in_flight_ok(m),
    ensures
        in_flight_ok(spec_drain(m).0),
        spec_drain(m).0.config == m.config,
{
    lemma_try_send_more_admits(m);
}

proof fn lemma_tick_fin_admits(m: ConnectionModel)
    requires
        in_flight_ok(m),
    ensures
        in_flight_ok(spec_tick_fin(m).0),
{
    lemma_drain_admits(m);
    if let Some(f) = m.fin_pending {
        let m1 = ConnectionModel {
            rto: crate::transport::rto::spec_on_timeout(m.rto),
            fin_pending: Some(
                PendingControl {
                    sent_at: crate::channel::tick::Tick(m.now),
                    attempts: (f.attempts + 1) as u32,
                },
            ),
            stats: Stats {
                control_retransmissions: sat_add(m.stats.control_retransmissions, 1),
                ..m.stats
            },
            ..m
        };
        lemma_drain_admits(m1);
    }
}

/// The admission law: whatever a connection is asked to do (queue bytes,
/// close, run its timers, take any datagram at all), it never lets more
/// than `max_in_flight_segments` segments be unacknowledged: a segment
/// is admitted only while fewer are outstanding, acknowledgments only
/// retire segments, and a timeout resends without admitting.
pub proof fn lemma_in_flight_bounded(m: ConnectionModel, now: u64, data: Seq<u8>, d: Seq<u8>)
    requires
        in_flight_ok(m),
    ensures
        in_flight_ok(spec_send(m, now, data).0),
        in_flight_ok(spec_close(m, now).0),
        in_flight_ok(spec_on_tick(m, now).0),
        in_flight_ok(spec_on_datagram(m, now, d).0),
{
    let m0 = with_now(m, now);
    lemma_drain_admits(
        ConnectionModel {
            send_queue: m0.send_queue + data,
            sent: m0.sent + data,
            stats: Stats { bytes_sent_app: (m0.stats.bytes_sent_app + data.len()) as u64, ..m0.stats },
            ..m0
        },
    );
    lemma_drain_admits(ConnectionModel { close_requested: true, ..m0 });
    lemma_on_tick_admits(m, now);
    lemma_on_datagram_admits(m, now, d);
}

proof fn lemma_on_tick_admits(m: ConnectionModel, now: u64)
    requires
        in_flight_ok(m),
    ensures
        in_flight_ok(spec_on_tick(m, now).0),
{
    let m0 = with_now(m, now);
    if m0.state == State::Established || m0.state == State::Closing {
        if m0.unacked.len() > 0 && expired(m0.now, m0.unacked[0].sent_at, m0.rto) {
            let m1 = ConnectionModel {
                rto: crate::transport::rto::spec_on_timeout(m0.rto),
                unacked: retransmit_marks(m0.unacked, m0.now),
                stats: Stats {
                    data_segments_retransmitted: sat_add(
                        m0.stats.data_segments_retransmitted,
                        unsacked_count(m0.unacked) as int,
                    ),
                    ..m0.stats
                },
                ..m0
            };
            lemma_tick_fin_admits(m1);
        } else {
            lemma_tick_fin_admits(m0);
        }
    }
}

proof fn lemma_on_datagram_admits(m: ConnectionModel, now: u64, d: Seq<u8>)
    requires
        in_flight_ok(m),
    ensures
        in_flight_ok(spec_on_datagram(m, now, d).0),
{
    let m0 = with_now(m, now);
    if let Ok(f) = spec_decode(d) {
        if let Some((h, app)) = split_payload(f.payload) {
            if !(m0.state == State::Closed && is_fin(f.flags)) {
                let (m1, o1, cont) = spec_handshake_step(m0, f.flags);
                if cont && (m1.state == State::Established || m1.state == State::Closing) {
                    let fin = is_fin(f.flags);
                    let m2 = if is_ack(f.flags) {
                        spec_apply_ack(m1, h)
                    } else {
                        m1
                    };
                    if is_ack(f.flags) {
                        lemma_apply_ack_retires(m1, h);
                    }
                    assert(in_flight_ok(m2) && m2.config == m.config);
                    let m3 = if app.len() > 0 {
                        spec_deliver(m2, f.sequence, app)
                    } else {
                        m2
                    };
                    if app.len() > 0 {
                        lemma_deliver_keeps_unacked(m2, f.sequence, app);
                    }
                    let m4 = if fin {
                        ConnectionModel { peer_fin_seen: true, ..m3 }
                    } else {
                        m3
                    };
                    let m5 = if app.len() > 0 || fin {
                        ConnectionModel {
                            stats: Stats {
                                ack_segments_sent: sat_add(m4.stats.ack_segments_sent, 1),
                                ..m4.stats
                            },
                            ..m4
                        }
                    } else {
                        m4
                    };
                    lemma_drain_admits(m5);
                    assert(spec_on_datagram(m, now, d).0 == spec_drain(m5).0);
                }
            }
        }
    }
}

proof fn lemma_count_below_len(segs: Seq<SegmentModel>, ack: u32)
    ensures
        count_below(segs, ack) <= segs.len(),
    decreases segs.len(),
{
    if segs.len() > 0 && segs[0].seq < ack {
        lemma_count_below_len(segs.skip(1), ack);
    }
}

/// An acknowledgment only retires segments.
proof fn lemma_apply_ack_retires(m: ConnectionModel, h: SegmentHeaderModel)
    ensures
        spec_apply_ack(m, h).unacked.len() <= m.unacked.len(),
        spec_apply_ack(m, h).config == m.config,
{
    lemma_count_below_len(m.unacked, h.ack);
}

proof fn lemma_deliver_keeps_unacked(m: ConnectionModel, seq: u32, data: Seq<u8>)
    ensures
        spec_deliver(m, seq, data).unacked == m.unacked,
        spec_deliver(m, seq, data).config == m.config,
{
    if !(data.len() == 0 || seq + data.len() <= m.expected_seq || !(seq <= m.expected_seq)) {
        let skip = m.expected_seq - seq;
        let fresh = data.skip(skip);
        lemma_absorb_keeps_unacked(
            ConnectionModel {
                stats: Stats {
                    duplicate_bytes_received: sat_add(m.stats.duplicate_bytes_received, skip),
                    bytes_delivered_app: (m.stats.bytes_delivered_app + fresh.len()) as u64,
                    ..m.stats
                },
                delivered: m.delivered + fresh,
                received: m.received + fresh,
                expected_seq: (seq + data.len()) as u32,
                ..m
            },
        );
    }
}

proof fn lemma_absorb_keeps_unacked(m: ConnectionModel)
    ensures
        spec_absorb(m).unacked == m.unacked,
        spec_absorb(m).config == m.config,
    decreases m.recv_buffer.len(),
{
    let buf = m.recv_buffer;
    let i = first_at_least(buf, m.expected_seq as int, 0);
    if 0 <= i < buf.len() && buf[i].0 == m.expected_seq {
        let v = buf[i].1;
        lemma_absorb_keeps_unacked(
            ConnectionModel {
                recv_buffer: buf.remove(i),
                expected_seq: (m.expected_seq + v.len()) as u32,
                delivered: m.delivered + v,
                received: m.received + v,
                stats: Stats {
                    bytes_delivered_app: (m.stats.bytes_delivered_app + v.len()) as u64,
                    ..m.stats
                },
                ..m
            },
        );
    }
}

/// Consistency with a stream carries over to any extension of it.
pub proof fn lemma_receiver_consistent_extends(m: ConnectionModel, s: Seq<u8>, more: Seq<u8>)
    requires
        receiver_consistent(m, s),
    ensures
        receiver_consistent(m, s + more),
{
    assert(m.received =~= (s + more).take(m.received.len() as int));
    assert forall|i: int| 0 <= i < m.recv_buffer.len() implies {
        let b = #[trigger] m.recv_buffer[i];
        &&& b.0 + b.1.len() <= (s + more).len()
        &&& b.1 == (s + more).subrange(b.0 as int, b.0 + b.1.len())
    } by {
        let b = m.recv_buffer[i];
        assert(b.1 =~= (s + more).subrange(b.0 as int, b.0 + b.1.len()));
    }
}

/// A datagram carrying bytes of a stream carries bytes of any extension
/// of it.
pub proof fn lemma_carries_extends(d: Seq<u8>, s: Seq<u8>, more: Seq<u8>)
    requires
        carries(d, s),
    ensures
        carries(d, s + more),
{
    match segment_data(d) {
        Some((seq, app)) => {
            if app.len() > 0 {
                assert(app =~= (s + more).subrange(seq as int, seq + app.len()));
            }
        },
        None => {},
    }
}

/// What a connection may emit on a stream it may emit on any extension
/// of.
pub proof fn lemma_all_carry_extends(out: Seq<Seq<u8>>, s: Seq<u8>, more: Seq<u8>)
    requires
        all_carry(out, s),
    ensures
        all_carry(out, s + more),
{
    assert forall|i: int| 0 <= i < out.len() implies #[trigger] emits(out[i], s + more) by {
        assert(emits(out[i], s));
        let f = choose|f: FrameModel| out[i] == #[trigger] spec_encode(f) && frame_carries(f, s);
        if let Some((h, app)) = split_payload(f.payload) {
            if app.len() > 0 {
                assert(app =~= (s + more).subrange(f.sequence as int, f.sequence + app.len()));
            }
        }
        assert(frame_carries(f, s + more));
    }
}

/// A fresh connection is consistent with every stream.
pub proof fn lemma_fresh_receiver_consistent(config: Config, now: u64, state: State, s: Seq<u8>)
    ensures
        receiver_consistent(blank_model(config, now, state), s),
{
    assert(Seq::<u8>::empty() =~= s.take(0));
}

} // verus!
