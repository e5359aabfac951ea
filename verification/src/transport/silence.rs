//! Under total, permanent loss a connection does not hang: one that is
//! waiting for data to be acknowledged and hears nothing more fails
//! within a bounded number of ticks, each timeout counting a
//! retransmission of its oldest segment until the retry limit is passed.
//! So does one waiting on its handshake or its FIN; and a connection
//! whose SYN is never answered gives up by tick
//! `max(1, max_retries) * max(1, max_rto)`, having resent its SYN
//! `max_retries - 1` times.

use crate::channel::tick::Tick;
use crate::transport::connection::{
    blank_model, config_valid, conn_inv, expired, retransmit_fails, Config, PendingControl, retransmit_marks, spec_drain, spec_on_tick,
    spec_tick_established, spec_tick_fin, spec_try_send_more, with_now, ConnectionModel,
    FailureReason, State,
};
use crate::transport::rto::{lemma_current_in_range, rto_wf, spec_on_timeout, MAX_RTT_SAMPLE};
use vstd::prelude::*;

verus! {

/// `k` ticks of a connection that receives nothing: its timer runs once
/// per tick, at `now + 1`, ..., `now + k`.
pub open spec fn silent_ticks(m: ConnectionModel, k: nat) -> ConnectionModel
    decreases k,
{
    if k == 0 {
        m
    } else {
        spec_on_tick(silent_ticks(m, (k - 1) as nat), (m.now + k) as u64).0
    }
}

/// Waiting for data to be acknowledged: established or closing, the
/// oldest unacknowledged segment not selectively acknowledged, and not
/// about to close.
pub open spec fn awaiting_ack(m: ConnectionModel) -> bool {
    &&& (m.state == State::Established || m.state == State::Closing)
    &&& m.unacked.len() > 0
    &&& !m.unacked[0].sacked
    &&& !(m.fin_acked && m.peer_fin_seen)
}

/// How many ticks a silent connection waiting for an ack can last.
pub open spec fn silence_bound(m: ConnectionModel) -> nat {
    ((m.config.max_retries + 1) * (m.rto.max_rto + 1)) as nat
}

/// What the induction keeps of a silent connection.
spec fn still_waiting(m: ConnectionModel) -> bool {
    &&& awaiting_ack(m)
    &&& rto_wf(m.rto)
    &&& m.unacked[0].retransmit_count <= m.config.max_retries
    &&& m.unacked[0].sent_at <= m.now
}

/// Retries left, weighted by the longest timeout, plus the ticks until
/// the oldest segment's longest timeout runs out.
spec fn measure(m: ConnectionModel) -> int {
    let r = m.rto.max_rto;
    let due = m.unacked[0].sent_at + r;
    (m.config.max_retries - m.unacked[0].retransmit_count) * (r + 1) + if m.now >= due {
        0
    } else {
        due - m.now
    }
}

/// What the tail of a step keeps: the state, the oldest segment, the
/// clock, the configuration, the timer bounds and the closing flags.
spec fn keeps(a: ConnectionModel, b: ConnectionModel) -> bool {
    &&& b.state == a.state
    &&& b.unacked.len() > 0
    &&& b.unacked[0] == a.unacked[0]
    &&& b.now == a.now
    &&& b.config == a.config
    &&& b.rto.max_rto == a.rto.max_rto
    &&& (rto_wf(a.rto) ==> rto_wf(b.rto))
    &&& b.fin_acked == a.fin_acked
    &&& b.peer_fin_seen == a.peer_fin_seen
}

proof fn lemma_try_send_more_keeps(m: ConnectionModel)
    requires
        m.unacked.len() > 0,
    ensures
        keeps(m, spec_try_send_more(m).0),
        spec_try_send_more(m).0.rto == m.rto,
    decreases m.send_queue.len(),
{
    if !(!(m.state == State::Established || m.state == State::Closing) || m.send_queue.len() == 0
        || m.unacked.len() >= m.config.max_in_flight_segments || m.config.segment_size == 0) {
        let n = if m.config.segment_size < m.send_queue.len() {
            m.config.segment_size as nat
        } else {
            m.send_queue.len()
        };
        let data = m.send_queue.take(n as int);
        let m1 = spec_try_send_more(m);
        lemma_try_send_more_keeps(
            ConnectionModel {
                send_queue: m.send_queue.skip(n as int),
                next_seq: (m.next_seq + n) as u32,
                unacked: m.unacked.push(
                    crate::transport::connection::SegmentModel {
                        seq: m.next_seq,
                        data,
                        sent_at: m.now,
                        retransmit_count: 0,
                        sacked: false,
                    },
                ),
                stats: crate::transport::connection::Stats {
                    data_segments_sent: (m.stats.data_segments_sent + 1) as u64,
                    ..m.stats
                },
                ..m
            },
        );
    }
}

proof fn lemma_drain_keeps(m: ConnectionModel)
    requires
        m.unacked.len() > 0,
        !(m.fin_acked && m.peer_fin_seen),
    ensures
        keeps(m, spec_drain(m).0),
        spec_drain(m).0.rto == m.rto,
{
    lemma_try_send_more_keeps(m);
}

proof fn lemma_tick_fin_keeps(m: ConnectionModel)
    requires
        m.unacked.len() > 0,
        !(m.fin_acked && m.peer_fin_seen),
    ensures
        spec_tick_fin(m).0.state == State::Failed(FailureReason::TooManyRetries) || keeps(
            m,
            spec_tick_fin(m).0,
        ),
{
    match m.fin_pending {
        Some(f) => if expired(m.now, f.sent_at.0, m.rto) {
            if f.attempts + 1 <= m.config.max_retries {
                let m1 = ConnectionModel {
                    rto: spec_on_timeout(m.rto),
                    fin_pending: Some(
                        crate::transport::connection::PendingControl {
                            sent_at: crate::channel::tick::Tick(m.now),
                            attempts: (f.attempts + 1) as u32,
                        },
                    ),
                    stats: crate::transport::connection::Stats {
                        control_retransmissions: crate::transport::connection::sat_add(
                            m.stats.control_retransmissions,
                            1,
                        ),
                        ..m.stats
                    },
                    ..m
                };
                lemma_drain_keeps(m1);
            }
        } else {
            lemma_drain_keeps(m);
        },
        None => lemma_drain_keeps(m),
    }
}

/// One silent tick either fails the connection or keeps it waiting with
/// a smaller measure.
proof fn lemma_silent_step(x: ConnectionModel, now: u64)
    requires
        still_waiting(x),
        now == x.now + 1,
    ensures
        ({
            let y = spec_on_tick(x, now).0;
            ||| y.state == State::Failed(FailureReason::TooManyRetries)
            ||| {
                &&& still_waiting(y)
                &&& y.now == now
                &&& y.config == x.config
                &&& y.rto.max_rto == x.rto.max_rto
                &&& measure(y) + 1 <= measure(x)
            }
        }),
{
    let m0 = with_now(x, now);
    let r = x.rto.max_rto;
    let s0 = x.unacked[0];
    let c = s0.retransmit_count;
    let mr = x.config.max_retries;
    lemma_current_in_range(x.rto);
    assert(spec_on_tick(x, now) == spec_tick_established(m0));
    if expired(m0.now, s0.sent_at, m0.rto) {
        let marks = retransmit_marks(m0.unacked, m0.now);
        if !retransmit_fails(m0.unacked, mr) {
            assert(!(m0.unacked[0].retransmit_count + 1 > mr));
            let m1 = ConnectionModel {
                rto: spec_on_timeout(m0.rto),
                unacked: marks,
                stats: crate::transport::connection::Stats {
                    data_segments_retransmitted: crate::transport::connection::sat_add(
                        m0.stats.data_segments_retransmitted,
                        crate::transport::connection::unsacked_count(m0.unacked) as int,
                    ),
                    ..m0.stats
                },
                ..m0
            };
            assert(marks[0].retransmit_count == c + 1);
            assert(marks[0].sent_at == now);
            assert(!marks[0].sacked);
            lemma_tick_fin_keeps(m1);
            let y = spec_tick_fin(m1).0;
            if y.state != State::Failed(FailureReason::TooManyRetries) {
                assert(measure(y) <= (mr - (c + 1)) * (r + 1) + r);
                assert((mr - (c + 1)) * (r + 1) + r + 1 == (mr - c) * (r + 1)) by (nonlinear_arith);
            }
        }
    } else {
        assert(now - s0.sent_at < r + 1);
        lemma_tick_fin_keeps(m0);
    }
}

proof fn lemma_silent_progress(m: ConnectionModel, k: nat)
    requires
        still_waiting(m),
        m.now + k <= MAX_RTT_SAMPLE,
    ensures
        ({
            let x = silent_ticks(m, k);
            ||| x.state == State::Failed(FailureReason::TooManyRetries)
            ||| {
                &&& still_waiting(x)
                &&& x.now == m.now + k
                &&& x.config == m.config
                &&& x.rto.max_rto == m.rto.max_rto
                &&& measure(x) + k <= measure(m)
            }
        }),
    decreases k,
{
    if k > 0 {
        lemma_silent_progress(m, (k - 1) as nat);
        let x = silent_ticks(m, (k - 1) as nat);
        let now = (m.now + k) as u64;
        if x.state != State::Failed(FailureReason::TooManyRetries) {
            lemma_silent_step(x, now);
        }
    }
}

/// A connection waiting for an acknowledgment that never comes fails,
/// for too many retries, within `(max_retries + 1) * (max_rto + 1)`
/// ticks of its timer running once per tick.
pub proof fn lemma_silence_fails(m: ConnectionModel)
    requires
        conn_inv(m),
        awaiting_ack(m),
        m.now + silence_bound(m) <= MAX_RTT_SAMPLE,
    ensures
        silent_ticks(m, silence_bound(m)).state == State::Failed(FailureReason::TooManyRetries),
{
    let k = silence_bound(m);
    assert(m.unacked[0] == m.unacked[0]);
    lemma_silent_progress(m, k);
    let r = m.rto.max_rto;
    let mr = m.config.max_retries;
    assert(measure(m) < k) by {
        let c = m.unacked[0].retransmit_count;
        assert((mr - c) * (r + 1) <= mr * (r + 1)) by (nonlinear_arith)
            requires
                0 <= c <= mr,
                r >= 0,
        ;
        assert(measure(m) <= mr * (r + 1) + r);
        assert(mr * (r + 1) + r < (mr + 1) * (r + 1)) by (nonlinear_arith);
    }
    let x = silent_ticks(m, k);
    if x.state != State::Failed(FailureReason::TooManyRetries) {
        assert(measure(x) >= 0) by {
            assert((mr - x.unacked[0].retransmit_count) * (r + 1) >= 0) by (nonlinear_arith)
                requires
                    x.unacked[0].retransmit_count <= mr,
            ;
        }
    }
}

/// Waiting for the handshake to complete: a SYN or SYN-ACK sent and not
/// yet answered.
pub open spec fn awaiting_handshake(m: ConnectionModel) -> bool {
    &&& (m.state == State::SynSent || m.state == State::SynReceived)
    &&& m.handshake is Some
}

/// Waiting for the FIN to be acknowledged, with nothing else left to
/// send.
pub open spec fn awaiting_fin(m: ConnectionModel) -> bool {
    &&& m.state == State::Closing
    &&& m.unacked.len() == 0
    &&& m.send_queue.len() == 0
    &&& m.fin_pending is Some
    &&& !(m.fin_acked && m.peer_fin_seen)
}

/// The attempts and send time of the control message a connection waits
/// on: the handshake's during the handshake, else the FIN's.
spec fn control_timer(m: ConnectionModel) -> (u32, u64) {
    let p = if m.state == State::SynSent || m.state == State::SynReceived {
        m.handshake
    } else {
        m.fin_pending
    };
    match p {
        Some(c) => (c.attempts, c.sent_at.0),
        None => (0, 0),
    }
}

spec fn control_waiting(m: ConnectionModel) -> bool {
    &&& (awaiting_handshake(m) || awaiting_fin(m))
    &&& rto_wf(m.rto)
    &&& 1 <= control_timer(m).0 <= m.config.max_retries + 1
    &&& control_timer(m).1 <= m.now
}

spec fn control_measure(m: ConnectionModel) -> int {
    let r = m.rto.max_rto;
    let due = control_timer(m).1 + r;
    (m.config.max_retries + 1 - control_timer(m).0) * (r + 1) + if m.now >= due {
        0
    } else {
        due - m.now
    }
}

proof fn lemma_control_step(x: ConnectionModel, now: u64)
    requires
        control_waiting(x),
        now == x.now + 1,
    ensures
        ({
            let y = spec_on_tick(x, now).0;
            ||| y.state == State::Failed(FailureReason::TooManyRetries)
            ||| {
                &&& control_waiting(y)
                &&& y.now == now
                &&& y.config == x.config
                &&& y.rto.max_rto == x.rto.max_rto
                &&& control_measure(y) + 1 <= control_measure(x)
            }
        }),
{
    let m0 = with_now(x, now);
    let r = x.rto.max_rto;
    let (a, sent) = control_timer(x);
    let mr = x.config.max_retries;
    lemma_current_in_range(x.rto);
    if awaiting_handshake(x) {
        if expired(m0.now, sent, m0.rto) && a + 1 <= mr {
            let y = spec_on_tick(x, now).0;
            assert(control_timer(y) == ((a + 1) as u32, now));
            assert(control_measure(y) <= (mr + 1 - (a + 1)) * (r + 1) + r);
            assert((mr + 1 - (a + 1)) * (r + 1) + r + 1 == (mr + 1 - a) * (r + 1))
                by (nonlinear_arith);
        } else if !expired(m0.now, sent, m0.rto) {
            assert(now - sent < r + 1);
        }
    } else {
        assert(spec_on_tick(x, now) == spec_tick_established(m0));
        assert(spec_tick_established(m0) == spec_tick_fin(m0));
        if expired(m0.now, sent, m0.rto) {
            if a + 1 <= mr {
                let y = spec_on_tick(x, now).0;
                assert(control_timer(y) == ((a + 1) as u32, now));
                assert(control_measure(y) <= (mr + 1 - (a + 1)) * (r + 1) + r);
                assert((mr + 1 - (a + 1)) * (r + 1) + r + 1 == (mr + 1 - a) * (r + 1))
                    by (nonlinear_arith);
            }
        } else {
            assert(now - sent < r + 1);
        }
    }
}

proof fn lemma_control_progress(m: ConnectionModel, k: nat)
    requires
        control_waiting(m),
        m.now + k <= MAX_RTT_SAMPLE,
    ensures
        ({
            let x = silent_ticks(m, k);
            ||| x.state == State::Failed(FailureReason::TooManyRetries)
            ||| {
                &&& control_waiting(x)
                &&& x.now == m.now + k
                &&& x.config == m.config
                &&& x.rto.max_rto == m.rto.max_rto
                &&& control_measure(x) + k <= control_measure(m)
            }
        }),
    decreases k,
{
    if k > 0 {
        lemma_control_progress(m, (k - 1) as nat);
        let x = silent_ticks(m, (k - 1) as nat);
        if x.state != State::Failed(FailureReason::TooManyRetries) {
            lemma_control_step(x, (m.now + k) as u64);
        }
    }
}

/// A connection whose SYN or SYN-ACK, or whose FIN (with nothing else
/// left to send), is never answered fails, for too many retries, within
/// `(max_retries + 1) * (max_rto + 1)` ticks of its timer running once
/// per tick.
pub proof fn lemma_silent_control_fails(m: ConnectionModel)
    requires
        conn_inv(m),
        awaiting_handshake(m) || awaiting_fin(m),
        m.now + silence_bound(m) <= MAX_RTT_SAMPLE,
    ensures
        silent_ticks(m, silence_bound(m)).state == State::Failed(FailureReason::TooManyRetries),
{
    let k = silence_bound(m);
    let r = m.rto.max_rto;
    let mr = m.config.max_retries;
    assert(control_waiting(m));
    lemma_control_progress(m, k);
    let a = control_timer(m).0;
    assert(control_measure(m) < k) by {
        assert((mr + 1 - a) * (r + 1) <= mr * (r + 1)) by (nonlinear_arith)
            requires
                1 <= a <= mr + 1,
                r >= 0,
        ;
        assert(mr * (r + 1) + r < (mr + 1) * (r + 1)) by (nonlinear_arith);
    }
    let x = silent_ticks(m, k);
    if x.state != State::Failed(FailureReason::TooManyRetries) {
        let b = control_timer(x).0;
        assert((mr + 1 - b) * (r + 1) >= 0) by (nonlinear_arith)
            requires
                b <= mr + 1,
        ;
    }
}

/// The connection `connect` begins with `config` at tick 0.
pub open spec fn connected(config: Config) -> ConnectionModel {
    ConnectionModel {
        handshake: Some(PendingControl { sent_at: Tick(0), attempts: 1 }),
        ..blank_model(config, 0, State::SynSent)
    }
}

/// `n`, or 1 where `n` is 0.
pub open spec fn at_least_one(n: int) -> int {
    if n < 1 {
        1
    } else {
        n
    }
}

/// How many ticks a SYN that nothing answers can go on: one timeout of
/// at most `max_rto` (and at least one tick) per attempt allowed.
pub open spec fn syn_silence_bound(config: Config) -> int {
    at_least_one(config.max_retries as int) * at_least_one(config.max_rto as int)
}

/// How many times the SYN is sent again before the connection gives up:
/// one less than the retry limit, and none for a limit of 0.
pub open spec fn syn_resends(config: Config) -> int {
    if config.max_retries == 0 {
        0
    } else {
        config.max_retries - 1
    }
}

/// Given up on for too many retries, after every resend of the SYN.
spec fn syn_gave_up(m: ConnectionModel, config: Config) -> bool {
    &&& m.state == State::Failed(FailureReason::TooManyRetries)
    &&& m.stats.control_retransmissions == syn_resends(config)
}

/// Still waiting on the SYN: its `attempts`-th sending went out no later
/// than `attempts - 1` longest timeouts after tick 0, and less than one
/// longest timeout ago.
spec fn syn_waiting(m: ConnectionModel, config: Config) -> bool {
    let r = at_least_one(config.max_rto as int);
    &&& m.state == State::SynSent
    &&& m.config == config
    &&& rto_wf(m.rto)
    &&& m.rto.max_rto == config.max_rto
    &&& m.handshake matches Some(h) && {
        &&& 1 <= h.attempts <= at_least_one(config.max_retries as int)
        &&& h.sent_at.0 <= m.now < h.sent_at.0 + r
        &&& h.sent_at.0 <= (h.attempts - 1) * r
        &&& m.stats.control_retransmissions == h.attempts - 1
    }
}

proof fn lemma_syn_step(x: ConnectionModel, config: Config, now: u64)
    requires
        config_valid(config),
        syn_waiting(x, config) || syn_gave_up(x, config),
        now == x.now + 1,
    ensures
        ({
            let y = spec_on_tick(x, now).0;
            &&& y.now == now
            &&& syn_gave_up(y, config) || syn_waiting(y, config)
        }),
{
    if syn_waiting(x, config) {
        let h = x.handshake->Some_0;
        let r = at_least_one(config.max_rto as int);
        let a = h.attempts as int;
        let s = h.sent_at.0 as int;
        lemma_current_in_range(x.rto);
        let m0 = with_now(x, now);
        if expired(m0.now, h.sent_at.0, m0.rto) {
            if a + 1 <= config.max_retries {
                assert(now <= a * r) by (nonlinear_arith)
                    requires
                        now <= s + r,
                        s <= (a - 1) * r,
                ;
            }
        }
    }
}

proof fn lemma_syn_progress(config: Config, k: nat)
    requires
        config_valid(config),
        k <= MAX_RTT_SAMPLE,
    ensures
        ({
            let x = silent_ticks(connected(config), k);
            &&& x.now == k
            &&& syn_gave_up(x, config) || syn_waiting(x, config)
        }),
    decreases k,
{
    if k == 0 {
        assert(rto_wf(connected(config).rto));
    } else {
        lemma_syn_progress(config, (k - 1) as nat);
        lemma_syn_step(silent_ticks(connected(config), (k - 1) as nat), config, k as u64);
    }
}

/// A connection that `connect` began at tick 0 and that never hears from
/// its peer does not hang: with its timer run once per tick, by any tick
/// `n` from `max(1, max_retries) * max(1, max_rto)` on it has failed for
/// too many retries, having sent its SYN again `max_retries - 1` times
/// (none for a limit of 0).
pub proof fn lemma_unanswered_syn_fails(config: Config, n: nat)
    requires
        config_valid(config),
        syn_silence_bound(config) <= n <= MAX_RTT_SAMPLE,
    ensures
        silent_ticks(connected(config), n).state == State::Failed(FailureReason::TooManyRetries),
        silent_ticks(connected(config), n).stats.control_retransmissions == syn_resends(config),
{
    lemma_syn_progress(config, n);
    let x = silent_ticks(connected(config), n);
    if !syn_gave_up(x, config) {
        let h = x.handshake->Some_0;
        let r = at_least_one(config.max_rto as int);
        let mr = at_least_one(config.max_retries as int);
        let a = h.attempts as int;
        let s = h.sent_at.0 as int;
        assert(s + r <= mr * r) by (nonlinear_arith)
            requires
                s <= (a - 1) * r,
                1 <= a <= mr,
                r >= 1,
        ;
    }
}

} // verus!
