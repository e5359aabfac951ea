//! Every operation keeps a connection intact: what `conn_inv` demands of
//! a connection holds after sending, closing, running the timers and
//! taking a datagram, stated on the models alone.

use crate::transport::connection::{
    conn_inv, count_below, datagram_safe, expired, first_at_least, handshake_done, is_ack, is_fin,
    lemma_first_at_least, mark_sacked, min_usize, retransmit_fails, retransmit_marks,
    sample_all, sat_add, spec_absorb, spec_apply_ack, spec_buffer_insert,
    spec_check_closed, spec_close, spec_deliver, spec_drain, spec_handshake_step,
    spec_maybe_send_fin, spec_on_datagram, spec_on_tick, spec_process, spec_send, spec_tick_established,
    spec_tick_fin, spec_try_send_more, split_payload, unsacked_count, with_now, ConnectionModel,
    PendingControl, SegmentModel, State, Stats,
};
use crate::transport::rto::{rto_wf, spec_on_sample, spec_on_timeout, RtoModel, MAX_RTT_SAMPLE};
use vstd::prelude::*;

verus! {

proof fn lemma_on_sample_wf(r: RtoModel, rtt: u64)
    requires
        rto_wf(r),
        rtt <= MAX_RTT_SAMPLE,
    ensures
        rto_wf(spec_on_sample(r, rtt)),
        spec_on_sample(r, rtt).min_rto == r.min_rto,
        spec_on_sample(r, rtt).max_rto == r.max_rto,
{
}

proof fn lemma_on_timeout_wf(r: RtoModel)
    requires
        rto_wf(r),
    ensures
        rto_wf(spec_on_timeout(r)),
        spec_on_timeout(r).min_rto == r.min_rto,
        spec_on_timeout(r).max_rto == r.max_rto,
{
}

proof fn lemma_with_now_inv(m: ConnectionModel, now: u64)
    requires
        conn_inv(m),
        now <= MAX_RTT_SAMPLE,
    ensures
        conn_inv(with_now(m, now)),
{
    let m0 = with_now(m, now);
    assert(m0.unacked == m.unacked);
    assert(m0.recv_buffer == m.recv_buffer);
}

proof fn lemma_check_closed_inv(m: ConnectionModel)
    requires
        conn_inv(m),
    ensures
        conn_inv(spec_check_closed(m)),
{
    let c = spec_check_closed(m);
    assert(c.unacked == m.unacked);
    assert(c.recv_buffer == m.recv_buffer);
}

proof fn lemma_maybe_send_fin_inv(m: ConnectionModel)
    requires
        conn_inv(m),
    ensures
        conn_inv(spec_maybe_send_fin(m).0),
{
    let c = spec_maybe_send_fin(m).0;
    assert(c.unacked == m.unacked);
    assert(c.recv_buffer == m.recv_buffer);
}

proof fn lemma_try_send_more_inv(m: ConnectionModel)
    requires
        conn_inv(m),
    ensures
        conn_inv(spec_try_send_more(m).0),
    decreases m.send_queue.len(),
{
    if !(m.state == State::Established || m.state == State::Closing) || m.send_queue.len() == 0
        || m.unacked.len() >= m.config.max_in_flight_segments || m.config.segment_size == 0 {
    } else {
        let n = min_usize(m.config.segment_size, m.send_queue.len());
        let data = m.send_queue.take(n as int);
        let seg = SegmentModel {
            seq: m.next_seq,
            data,
            sent_at: m.now,
            retransmit_count: 0,
            sacked: false,
        };
        let m1 = ConnectionModel {
            send_queue: m.send_queue.skip(n as int),
            next_seq: (m.next_seq + n) as u32,
            unacked: m.unacked.push(seg),
            stats: Stats { data_segments_sent: (m.stats.data_segments_sent + 1) as u64, ..m.stats },
            ..m
        };
        assert(data =~= m.sent.subrange(m.next_seq as int, m.next_seq + n));
        assert(m1.send_queue =~= m1.sent.skip(m1.next_seq as int));
        assert forall|i: int, j: int|
            0 <= i < j < m1.unacked.len() implies #[trigger] m1.unacked[i].seq
            < #[trigger] m1.unacked[j].seq by {
            if j == m.unacked.len() {
                assert(m1.unacked[i] == m.unacked[i]);
            }
        }
        assert forall|i: int| 0 <= i < m1.unacked.len() implies {
            let s = #[trigger] m1.unacked[i];
            &&& s.data.len() > 0
            &&& s.seq + s.data.len() <= m1.next_seq
            &&& s.data == m1.sent.subrange(s.seq as int, s.seq + s.data.len())
            &&& s.retransmit_count <= m1.config.max_retries
            &&& s.sent_at <= m1.now
        } by {
            if i < m.unacked.len() {
                assert(m1.unacked[i] == m.unacked[i]);
            }
        }
        lemma_try_send_more_inv(m1);
    }
}

proof fn lemma_drain_inv(m: ConnectionModel)
    requires
        conn_inv(m),
    ensures
        conn_inv(spec_drain(m).0),
{
    lemma_try_send_more_inv(m);
    let m1 = spec_try_send_more(m).0;
    lemma_maybe_send_fin_inv(m1);
    lemma_check_closed_inv(spec_maybe_send_fin(m1).0);
}

/// Queuing bytes keeps a connection intact, while they fit the stream's
/// 32-bit offsets.
pub proof fn lemma_send_keeps_inv(m: ConnectionModel, now: u64, data: Seq<u8>)
    requires
        conn_inv(m),
        now <= MAX_RTT_SAMPLE,
        m.sent.len() + data.len() <= u32::MAX,
    ensures
        conn_inv(spec_send(m, now, data).0),
{
    lemma_with_now_inv(m, now);
    let m1 = with_now(m, now);
    let m2 = ConnectionModel {
        send_queue: m1.send_queue + data,
        sent: m1.sent + data,
        stats: Stats { bytes_sent_app: (m1.stats.bytes_sent_app + data.len()) as u64, ..m1.stats },
        ..m1
    };
    assert(m2.send_queue =~= m2.sent.skip(m2.next_seq as int));
    assert forall|i: int| 0 <= i < m2.unacked.len() implies {
        let s = #[trigger] m2.unacked[i];
        s.data == m2.sent.subrange(s.seq as int, s.seq + s.data.len())
    } by {
        let s = m2.unacked[i];
        assert(m1.sent.subrange(s.seq as int, s.seq + s.data.len()) =~= m2.sent.subrange(
            s.seq as int,
            s.seq + s.data.len(),
        ));
    }
    lemma_drain_inv(m2);
}

/// Closing keeps a connection intact.
pub proof fn lemma_close_keeps_inv(m: ConnectionModel, now: u64)
    requires
        conn_inv(m),
        now <= MAX_RTT_SAMPLE,
    ensures
        conn_inv(spec_close(m, now).0),
{
    lemma_with_now_inv(m, now);
    let m1 = ConnectionModel { close_requested: true, ..with_now(m, now) };
    assert(m1.unacked == m.unacked);
    assert(m1.recv_buffer == m.recv_buffer);
    lemma_drain_inv(m1);
}

proof fn lemma_tick_fin_inv(m: ConnectionModel)
    requires
        conn_inv(m),
    ensures
        conn_inv(spec_tick_fin(m).0),
{
    lemma_drain_inv(m);
    if let Some(f) = m.fin_pending {
        if expired(m.now, f.sent_at.0, m.rto) {
            if f.attempts + 1 > m.config.max_retries {
                let c = spec_tick_fin(m).0;
                assert(c.unacked == m.unacked);
                assert(c.recv_buffer == m.recv_buffer);
            } else {
                lemma_on_timeout_wf(m.rto);
                let m1 = ConnectionModel {
                    rto: spec_on_timeout(m.rto),
                    fin_pending: Some(
                        PendingControl {
                            sent_at: crate::channel::tick::Tick(m.now),
                            attempts: (f.attempts + 1) as u32,
                        },
                    ),
                    stats: Stats {
                        control_retransmissions: sat_add(m.stats.control_retransmissions, 1),
                        ..m.stats
                    },
                    ..m
                };
                assert(m1.unacked == m.unacked);
                assert(m1.recv_buffer == m.recv_buffer);
                lemma_drain_inv(m1);
            }
        }
    }
}

proof fn lemma_tick_established_inv(m: ConnectionModel)
    requires
        conn_inv(m),
    ensures
        conn_inv(spec_tick_established(m).0),
{
    if m.unacked.len() > 0 && expired(m.now, m.unacked[0].sent_at, m.rto) {
        lemma_on_timeout_wf(m.rto);
        let marks = retransmit_marks(m.unacked, m.now);
        let m1 = ConnectionModel {
            rto: spec_on_timeout(m.rto),
            unacked: marks,
            stats: Stats {
                data_segments_retransmitted: sat_add(
                    m.stats.data_segments_retransmitted,
                    unsacked_count(m.unacked) as int,
                ),
                ..m.stats
            },
            ..m
        };
        if retransmit_fails(m.unacked, m.config.max_retries) {
            let c = spec_tick_established(m).0;
            assert(c.recv_buffer == m.recv_buffer);
            assert(c.unacked.len() == 0);
        } else {
            assert forall|i: int, j: int|
                0 <= i < j < marks.len() implies #[trigger] marks[i].seq < #[trigger] marks[j].seq by {
                assert(marks[i].seq == m.unacked[i].seq);
                assert(marks[j].seq == m.unacked[j].seq);
            }
            assert forall|i: int| 0 <= i < marks.len() implies {
                let s = #[trigger] marks[i];
                &&& s.data.len() > 0
                &&& s.seq + s.data.len() <= m1.next_seq
                &&& s.data == m1.sent.subrange(s.seq as int, s.seq + s.data.len())
                &&& s.retransmit_count <= m1.config.max_retries
                &&& s.sent_at <= m1.now
            } by {
                let s0 = m.unacked[i];
                assert(marks[i].data == s0.data && marks[i].seq == s0.seq);
                if !s0.sacked {
                    assert(!(s0.retransmit_count + 1 > m.config.max_retries));
                }
            }
            assert(m1.recv_buffer == m.recv_buffer);
            lemma_tick_fin_inv(m1);
        }
    } else {
        lemma_tick_fin_inv(m);
    }
}

/// Running the timers keeps a connection intact.
pub proof fn lemma_on_tick_keeps_inv(m: ConnectionModel, now: u64)
    requires
        conn_inv(m),
        now <= MAX_RTT_SAMPLE,
    ensures
        conn_inv(spec_on_tick(m, now).0),
{
    lemma_with_now_inv(m, now);
    let m0 = with_now(m, now);
    if m0.state == State::SynSent || m0.state == State::SynReceived {
        lemma_on_timeout_wf(m0.rto);
        let c = spec_on_tick(m, now).0;
        assert(c.unacked == m0.unacked);
        assert(c.recv_buffer == m0.recv_buffer);
    } else if m0.state == State::Established || m0.state == State::Closing {
        lemma_tick_established_inv(m0);
    }
}

proof fn lemma_sample_all_wf(r: RtoModel, now: u64, segs: Seq<SegmentModel>)
    requires
        rto_wf(r),
        now <= MAX_RTT_SAMPLE,
        forall|i: int| 0 <= i < segs.len() ==> #[trigger] segs[i].sent_at <= now,
    ensures
        rto_wf(sample_all(r, now, segs)),
        sample_all(r, now, segs).min_rto == r.min_rto,
        sample_all(r, now, segs).max_rto == r.max_rto,
    decreases segs.len(),
{
    if segs.len() > 0 {
        let next = if segs[0].retransmit_count == 0 {
            lemma_on_sample_wf(r, (now - segs[0].sent_at) as u64);
            spec_on_sample(r, (now - segs[0].sent_at) as u64)
        } else {
            r
        };
        let rest = segs.skip(1);
        assert forall|i: int| 0 <= i < rest.len() implies #[trigger] rest[i].sent_at <= now by {
            assert(rest[i] == segs[i + 1]);
        }
        lemma_sample_all_wf(next, now, rest);
    }
}

proof fn lemma_count_below(segs: Seq<SegmentModel>, ack: u32)
    ensures
        count_below(segs, ack) <= segs.len(),
    decreases segs.len(),
{
    if segs.len() > 0 && segs[0].seq < ack {
        lemma_count_below(segs.skip(1), ack);
    }
}

proof fn lemma_handshake_done_inv(m: ConnectionModel)
    requires
        conn_inv(m),
    ensures
        conn_inv(handshake_done(m)),
{
    if let Some(h) = m.handshake {
        if h.attempts == 1 {
            lemma_on_sample_wf(m.rto, (m.now - h.sent_at.0) as u64);
        }
    }
    let c = handshake_done(m);
    assert(c.unacked == m.unacked);
    assert(c.recv_buffer == m.recv_buffer);
}

proof fn lemma_handshake_step_inv(m: ConnectionModel, flags: u16)
    requires
        conn_inv(m),
    ensures
        conn_inv(spec_handshake_step(m, flags).0),
{
    lemma_handshake_done_inv(m);
    let c = spec_handshake_step(m, flags).0;
    assert(c.unacked == m.unacked || c == handshake_done(m));
    assert(c.recv_buffer == m.recv_buffer);
}

proof fn lemma_apply_ack_inv(m: ConnectionModel, h: crate::transport::segment::SegmentHeaderModel)
    requires
        conn_inv(m),
    ensures
        conn_inv(spec_apply_ack(m, h)),
{
    let m1 = if h.ack > m.send_base {
        let k = count_below(m.unacked, h.ack);
        lemma_count_below(m.unacked, h.ack);
        let gone = m.unacked.take(k as int);
        assert forall|i: int| 0 <= i < gone.len() implies #[trigger] gone[i].sent_at <= m.now by {
            assert(gone[i] == m.unacked[i]);
        }
        lemma_sample_all_wf(m.rto, m.now, gone);
        let kept = m.unacked.skip(k as int);
        let m1 = ConnectionModel {
            rto: sample_all(m.rto, m.now, gone),
            unacked: kept,
            send_base: h.ack,
            ..m
        };
        assert forall|i: int, j: int|
            0 <= i < j < kept.len() implies #[trigger] kept[i].seq < #[trigger] kept[j].seq by {
            assert(kept[i] == m.unacked[i + k]);
            assert(kept[j] == m.unacked[j + k]);
        }
        assert forall|i: int| 0 <= i < kept.len() implies {
            let s = #[trigger] kept[i];
            &&& s.data.len() > 0
            &&& s.seq + s.data.len() <= m1.next_seq
            &&& s.data == m1.sent.subrange(s.seq as int, s.seq + s.data.len())
            &&& s.retransmit_count <= m1.config.max_retries
            &&& s.sent_at <= m1.now
        } by {
            assert(kept[i] == m.unacked[i + k]);
        }
        assert(conn_inv(m1));
        m1
    } else {
        m
    };
    let marked = mark_sacked(m1.unacked, h.sack);
    let m2 = ConnectionModel { unacked: marked, ..m1 };
    assert forall|i: int, j: int|
        0 <= i < j < marked.len() implies #[trigger] marked[i].seq < #[trigger] marked[j].seq by {
        assert(marked[i].seq == m1.unacked[i].seq);
        assert(marked[j].seq == m1.unacked[j].seq);
    }
    assert forall|i: int| 0 <= i < marked.len() implies {
        let s = #[trigger] marked[i];
        &&& s.data.len() > 0
        &&& s.seq + s.data.len() <= m2.next_seq
        &&& s.data == m2.sent.subrange(s.seq as int, s.seq + s.data.len())
        &&& s.retransmit_count <= m2.config.max_retries
        &&& s.sent_at <= m2.now
    } by {
        let s0 = m1.unacked[i];
        assert(marked[i] == SegmentModel { sacked: s0.sacked || crate::transport::connection::sack_covers(h.sack, s0.seq), ..s0 });
    }
    assert(conn_inv(m2));
    if h.fin_ack {
        let m3 = ConnectionModel { fin_acked: true, fin_pending: None, ..m2 };
        assert(m3.unacked == m2.unacked);
        assert(m3.recv_buffer == m2.recv_buffer);
        lemma_check_closed_inv(m3);
    }
}

proof fn lemma_absorb_inv(m: ConnectionModel)
    requires
        conn_inv(m),
    ensures
        conn_inv(spec_absorb(m)),
    decreases m.recv_buffer.len(),
{
    let buf = m.recv_buffer;
    let i = first_at_least(buf, m.expected_seq as int, 0);
    lemma_first_at_least(buf, m.expected_seq as int, 0);
    if 0 <= i < buf.len() && buf[i].0 == m.expected_seq {
        let v = buf[i].1;
        let m1 = ConnectionModel {
            recv_buffer: buf.remove(i),
            expected_seq: (m.expected_seq + v.len()) as u32,
            delivered: m.delivered + v,
            received: m.received + v,
            stats: Stats {
                bytes_delivered_app: (m.stats.bytes_delivered_app + v.len()) as u64,
                ..m.stats
            },
            ..m
        };
        let nb = m1.recv_buffer;
        assert forall|a: int, c: int| 0 <= a < c < nb.len() implies #[trigger] nb[a].0
            < #[trigger] nb[c].0 by {
            let a0 = if a < i { a } else { a + 1 };
            let c0 = if c < i { c } else { c + 1 };
            assert(nb[a] == buf[a0]);
            assert(nb[c] == buf[c0]);
        }
        assert forall|a: int| 0 <= a < nb.len() implies {
            let e = #[trigger] nb[a];
            &&& e.1.len() > 0
            &&& e.0 + e.1.len() <= u32::MAX
        } by {
            let a0 = if a < i { a } else { a + 1 };
            assert(nb[a] == buf[a0]);
        }
        assert(m1.unacked == m.unacked);
        lemma_absorb_inv(m1);
    }
}

proof fn lemma_buffer_insert_inv(m: ConnectionModel, seq: u32, data: Seq<u8>)
    requires
        conn_inv(m),
        data.len() > 0,
        seq + data.len() <= u32::MAX,
    ensures
        conn_inv(ConnectionModel { recv_buffer: spec_buffer_insert(m.recv_buffer, seq, data), ..m }),
{
    let buf = m.recv_buffer;
    let i = first_at_least(buf, seq as int, 0);
    lemma_first_at_least(buf, seq as int, 0);
    let nb = spec_buffer_insert(buf, seq, data);
    if 0 <= i < buf.len() && buf[i].0 == seq {
        assert forall|a: int, c: int| 0 <= a < c < nb.len() implies #[trigger] nb[a].0
            < #[trigger] nb[c].0 by {
            assert(nb[a].0 == buf[a].0);
            assert(nb[c].0 == buf[c].0);
        }
        assert forall|a: int| 0 <= a < nb.len() implies {
            let e = #[trigger] nb[a];
            &&& e.1.len() > 0
            &&& e.0 + e.1.len() <= u32::MAX
        } by {
            if a != i {
                assert(nb[a] == buf[a]);
            }
        }
    } else {
        assert forall|a: int, c: int| 0 <= a < c < nb.len() implies #[trigger] nb[a].0
            < #[trigger] nb[c].0 by {
            if a < i && c > i {
                assert(nb[a] == buf[a]);
                assert(nb[c] == buf[c - 1]);
                if c - 1 >= i {
                    assert(buf[c - 1].0 >= buf[i].0);
                }
            } else if a < i && c < i {
                assert(nb[a] == buf[a]);
                assert(nb[c] == buf[c]);
            } else if a > i {
                assert(nb[a] == buf[a - 1]);
                assert(nb[c] == buf[c - 1]);
            } else if a == i {
                assert(nb[c] == buf[c - 1]);
                if c - 1 > i {
                    assert(buf[i].0 < buf[c - 1].0);
                }
            } else {
                assert(nb[a] == buf[a]);
            }
        }
        assert forall|a: int| 0 <= a < nb.len() implies {
            let e = #[trigger] nb[a];
            &&& e.1.len() > 0
            &&& e.0 + e.1.len() <= u32::MAX
        } by {
            if a < i {
                assert(nb[a] == buf[a]);
            } else if a > i {
                assert(nb[a] == buf[a - 1]);
            }
        }
    }
}

proof fn lemma_deliver_inv(m: ConnectionModel, seq: u32, data: Seq<u8>)
    requires
        conn_inv(m),
        seq + data.len() <= u32::MAX,
    ensures
        conn_inv(spec_deliver(m, seq, data)),
{
    if data.len() == 0 {
    } else if seq + data.len() <= m.expected_seq {
    } else if seq <= m.expected_seq {
        let skip = m.expected_seq - seq;
        let fresh = data.skip(skip);
        let m1 = ConnectionModel {
            stats: Stats {
                duplicate_bytes_received: sat_add(m.stats.duplicate_bytes_received, skip),
                bytes_delivered_app: (m.stats.bytes_delivered_app + fresh.len()) as u64,
                ..m.stats
            },
            delivered: m.delivered + fresh,
            received: m.received + fresh,
            expected_seq: (seq + data.len()) as u32,
            ..m
        };
        assert(m1.unacked == m.unacked);
        assert(m1.recv_buffer == m.recv_buffer);
        lemma_absorb_inv(m1);
    } else {
        lemma_buffer_insert_inv(m, seq, data);
    }
}

proof fn lemma_process_inv(
    m: ConnectionModel,
    f: crate::frame::FrameModel,
    h: crate::transport::segment::SegmentHeaderModel,
    app: Seq<u8>,
)
    requires
        conn_inv(m),
        f.sequence + app.len() <= u32::MAX,
    ensures
        conn_inv(spec_process(m, f, h, app).0),
{
    let fin = is_fin(f.flags);
    let m2 = if is_ack(f.flags) {
        lemma_apply_ack_inv(m, h);
        spec_apply_ack(m, h)
    } else {
        m
    };
    let m3 = if app.len() > 0 {
        lemma_deliver_inv(m2, f.sequence, app);
        spec_deliver(m2, f.sequence, app)
    } else {
        m2
    };
    let m4 = if fin {
        ConnectionModel { peer_fin_seen: true, ..m3 }
    } else {
        m3
    };
    assert(m4.unacked == m3.unacked && m4.recv_buffer == m3.recv_buffer);
    let m5 = if app.len() > 0 || fin {
        ConnectionModel {
            stats: Stats { ack_segments_sent: sat_add(m4.stats.ack_segments_sent, 1), ..m4.stats },
            ..m4
        }
    } else {
        m4
    };
    assert(m5.unacked == m4.unacked && m5.recv_buffer == m4.recv_buffer);
    lemma_drain_inv(m5);
}

/// Taking a datagram keeps a connection intact, for every datagram the
/// connection can take safely.
pub proof fn lemma_on_datagram_keeps_inv(m: ConnectionModel, now: u64, d: Seq<u8>)
    requires
        conn_inv(m),
        now <= MAX_RTT_SAMPLE,
        datagram_safe(m, now, d),
    ensures
        conn_inv(spec_on_datagram(m, now, d).0),
{
    lemma_with_now_inv(m, now);
    let m0 = with_now(m, now);
    if let Ok(f) = crate::frame::spec_decode(d) {
        if let Some((h, app)) = split_payload(f.payload) {
            if !(m0.state == State::Closed && is_fin(f.flags)) {
                lemma_handshake_step_inv(m0, f.flags);
                let (m1, o1, cont) = spec_handshake_step(m0, f.flags);
                if cont && (m1.state == State::Established || m1.state == State::Closing) {
                    lemma_process_inv(m1, f, h, app);
                }
            }
        }
    }
}

} // verus!
