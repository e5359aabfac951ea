use distrans::channel::rng::PROB_ONE;
use distrans::channel::{Channel, FaultProfile, Tick};
use distrans::frame::decode;
use distrans::transport::connection::{Config, Connection, FailureReason, State, FLAG_ACK, FLAG_SYN};
use distrans::transport::segment::{FIXED_LEN, MAX_SACK_RANGES, RANGE_LEN};
use distrans::transport::{RtoEstimator, SackRange, SegmentHeader};

fn cfg() -> Config {
    Config {
        segment_size: 16,
        max_in_flight_segments: 4,
        min_rto: 5,
        max_rto: 100,
        max_retries: 5,
    }
}

// ---- The connection --------------------------------------------------------

#[test]
fn a_lost_bare_completing_ack_does_not_strand_the_server_if_data_follows() {
    let (mut client, syn) = Connection::connect(cfg(), Tick(0));
    let mut server = Connection::listen(cfg(), Tick(0));

    let synack = server.on_datagram(Tick(1), &syn);
    assert_eq!(synack.len(), 1);
    assert_eq!(server.state(), State::SynReceived);

    let client_responses = client.on_datagram(Tick(2), &synack[0]);
    assert_eq!(client.state(), State::Established);
    assert_eq!(client_responses.len(), 1);

    let data_segments = client.send(Tick(3), b"hello, server");
    assert_eq!(data_segments.len(), 1);

    server.on_datagram(Tick(4), &data_segments[0]);
    assert_eq!(
        server.state(),
        State::Established,
        "server must complete its handshake from a data-carrying ACK alone"
    );
    assert_eq!(server.recv(), b"hello, server");
}

#[test]
fn a_duplicate_synack_after_establishment_gets_the_completing_ack_resent() {
    let (mut client, syn) = Connection::connect(cfg(), Tick(0));
    let mut server = Connection::listen(cfg(), Tick(0));
    let synack = server.on_datagram(Tick(1), &syn);
    client.on_datagram(Tick(2), &synack[0]);
    assert_eq!(client.state(), State::Established);

    let resent = client.on_datagram(Tick(3), &synack[0]);
    assert_eq!(
        resent.len(),
        1,
        "a duplicate SYN-ACK after establishment must still get a completing ACK back"
    );
    let ack_frame = decode(&resent[0]).unwrap();
    assert_eq!(ack_frame.flags & FLAG_ACK, FLAG_ACK);
    assert_eq!(ack_frame.flags & FLAG_SYN, 0);
}

#[test]
fn a_closed_connection_still_acks_a_lingering_retransmitted_fin() {
    let (mut client, syn) = Connection::connect(cfg(), Tick(0));
    let mut server = Connection::listen(cfg(), Tick(0));
    let synack = server.on_datagram(Tick(1), &syn);
    let ack = client.on_datagram(Tick(2), &synack[0]);
    server.on_datagram(Tick(3), &ack[0]);
    assert_eq!(server.state(), State::Established);

    let fin = client.close(Tick(4));
    assert_eq!(fin.len(), 1);
    let fin_ack = server.on_datagram(Tick(5), &fin[0]);
    assert_eq!(fin_ack.len(), 1);
    let server_fin = server.close(Tick(6));
    assert_eq!(server_fin.len(), 1);
    let client_fin_ack = client.on_datagram(Tick(7), &server_fin[0]);
    server.on_datagram(Tick(8), &client_fin_ack[0]);
    assert_eq!(server.state(), State::Closed);

    let retransmitted_fin = client.build_fin();
    let response = server.on_datagram(Tick(9), &retransmitted_fin);
    assert_eq!(response.len(), 1);
    let (header, _) = SegmentHeader::decode(&decode(&response[0]).unwrap().payload).unwrap();
    assert!(header.fin_ack);
}

/// Establishes a client/server pair by hand, delivering every datagram.
fn established() -> (Connection, Connection) {
    let (mut client, syn) = Connection::connect(cfg(), Tick(0));
    let mut server = Connection::listen(cfg(), Tick(0));
    let synack = server.on_datagram(Tick(1), &syn);
    let ack = client.on_datagram(Tick(2), &synack[0]);
    server.on_datagram(Tick(3), &ack[0]);
    (client, server)
}

#[test]
fn data_sent_in_segments_arrives_whole_and_in_order_even_reordered() {
    let (mut client, mut server) = established();
    let data: Vec<u8> = (0..40u8).collect();
    let segments = client.send(Tick(4), &data);
    assert_eq!(segments.len(), 3);
    let mut acks = Vec::new();
    for d in segments.iter().rev() {
        acks.extend(server.on_datagram(Tick(5), d));
    }
    assert_eq!(server.recv(), data);
    for a in &acks {
        client.on_datagram(Tick(6), a);
    }
    assert_eq!(client.stats().bytes_sent_app, 40);
    assert_eq!(server.stats().bytes_delivered_app, 40);
}

#[test]
fn a_lost_segment_is_retransmitted_after_the_timeout() {
    let (mut client, mut server) = established();
    let segments = client.send(Tick(4), b"lost once");
    assert_eq!(segments.len(), 1);
    // The handshake's round trip of 2 ticks gives an RTO of 2 + 4 * 2.
    for t in 5..14 {
        assert!(client.on_tick(Tick(t)).is_empty(), "early retransmission at {t}");
    }
    let again = client.on_tick(Tick(14));
    assert_eq!(again.len(), 1);
    server.on_datagram(Tick(15), &again[0]);
    assert_eq!(server.recv(), b"lost once");
    assert_eq!(client.stats().data_segments_retransmitted, 1);
}

#[test]
fn a_segment_retried_past_max_retries_fails_the_connection() {
    let (mut client, _server) = established();
    client.send(Tick(4), b"into the void");
    let mut now = 4;
    for _ in 0..200 {
        now += 100;
        client.on_tick(Tick(now));
        if client.failure().is_some() {
            break;
        }
    }
    assert_eq!(client.state(), State::Failed(FailureReason::TooManyRetries));
    assert!(!client.is_closed());
}

#[test]
fn garbage_datagrams_are_ignored() {
    let (mut client, _server) = established();
    let before = client.stats();
    assert!(client.datagram_is_safe(Tick(5), b"not a frame"));
    assert!(client.on_datagram(Tick(5), b"not a frame").is_empty());
    assert_eq!(client.stats(), before);
    assert_eq!(client.state(), State::Established);
}

// ---- The retransmission timeout -------------------------------------------

#[test]
fn with_no_samples_yet_rto_is_the_conservative_minimum() {
    let e = RtoEstimator::new(10, 1000);
    assert_eq!(e.current(), 10);
}

#[test]
fn a_sample_shifts_the_estimate_toward_it() {
    let mut e = RtoEstimator::new(1, 1000);
    e.on_sample(50);
    assert!(e.current() > 50);
    assert!(e.current() <= 1000);
}

#[test]
fn repeated_consistent_samples_shrink_the_variance_and_thus_the_rto() {
    let mut e = RtoEstimator::new(1, 10_000);
    for _ in 0..50 {
        e.on_sample(100);
    }
    let converged = e.current();
    assert!(converged < 150, "converged RTO {converged} too high");
    assert!(converged >= 100);
}

#[test]
fn timeout_doubles_backoff_and_sample_resets_it() {
    let mut e = RtoEstimator::new(10, 100_000);
    e.on_sample(50);
    let base = e.current();
    e.on_timeout();
    assert_eq!(e.current(), base * 2);
    e.on_timeout();
    assert_eq!(e.current(), base * 4);
    e.on_sample(50);
    assert!(
        e.current() <= base,
        "backoff did not reset: {} > {base}",
        e.current()
    );
}

#[test]
fn backoff_and_rto_are_both_capped_by_max_rto() {
    let mut e = RtoEstimator::new(10, 200);
    e.on_sample(1000);
    assert!(e.current() <= 200);
    for _ in 0..10 {
        e.on_timeout();
    }
    assert!(e.current() <= 200);
}

#[test]
fn the_first_sample_sets_srtt_and_half_rttvar() {
    let mut e = RtoEstimator::new(1, 1000);
    e.on_sample(50);
    // srtt is 50, and after one sample the variance term is 4 * 50.
    assert_eq!(e.current(), 250);
}

// ---- The segment header ----------------------------------------------------

#[test]
fn round_trips_with_no_sack_ranges() {
    let h = SegmentHeader {
        ack: 42,
        fin_ack: false,
        sack: vec![],
    };
    let mut buf = Vec::new();
    h.encode(&mut buf);
    let (decoded, rest) = SegmentHeader::decode(&buf).unwrap();
    assert_eq!(decoded, h);
    assert!(rest.is_empty());
}

#[test]
fn round_trips_with_fin_ack_set() {
    let h = SegmentHeader {
        ack: 1,
        fin_ack: true,
        sack: vec![],
    };
    let mut buf = Vec::new();
    h.encode(&mut buf);
    assert_eq!(SegmentHeader::decode(&buf).unwrap().0, h);
}

#[test]
fn round_trips_with_sack_ranges_and_trailing_payload() {
    let h = SegmentHeader {
        ack: 7,
        fin_ack: false,
        sack: vec![
            SackRange { start: 10, end: 19 },
            SackRange { start: 30, end: 39 },
        ],
    };
    let mut buf = Vec::new();
    h.encode(&mut buf);
    buf.extend_from_slice(b"payload");
    let (decoded, rest) = SegmentHeader::decode(&buf).unwrap();
    assert_eq!(decoded, h);
    assert_eq!(rest, b"payload");
}

#[test]
fn segment_decode_rejects_too_short_input() {
    assert_eq!(SegmentHeader::decode(&[1, 2, 3]), None);
}

#[test]
fn decode_rejects_a_range_count_that_overruns_the_buffer() {
    let mut buf = vec![0u8; 5];
    buf.push(2);
    assert_eq!(SegmentHeader::decode(&buf), None);
}

#[test]
fn encode_caps_at_max_sack_ranges() {
    let h = SegmentHeader {
        ack: 0,
        fin_ack: false,
        sack: (0..10).map(|i| SackRange { start: i, end: i }).collect(),
    };
    let mut buf = Vec::new();
    h.encode(&mut buf);
    assert_eq!(buf[5] as usize, MAX_SACK_RANGES);
    assert_eq!(buf.len(), FIXED_LEN + MAX_SACK_RANGES * RANGE_LEN);
}

// ---- Silence ends in failure -------------------------------------------------

/// `(max_retries + 1) * (max_rto + 1)` for `cfg()`.
const SILENCE_BOUND: u64 = 6 * 101;

fn tick_silently(conn: &mut Connection, from: u64) -> u64 {
    for t in from + 1..=from + SILENCE_BOUND {
        conn.on_tick(Tick(t));
        if conn.failure().is_some() {
            return t;
        }
    }
    panic!("still alive after {SILENCE_BOUND} silent ticks: {:?}", conn.state());
}

#[test]
fn unacknowledged_data_fails_within_the_silence_bound() {
    let (mut client, _server) = established();
    client.send(Tick(4), b"nobody is listening");
    tick_silently(&mut client, 4);
    assert_eq!(client.state(), State::Failed(FailureReason::TooManyRetries));
}

#[test]
fn an_unanswered_syn_fails_within_the_silence_bound() {
    let (mut client, _syn) = Connection::connect(cfg(), Tick(0));
    tick_silently(&mut client, 0);
    assert_eq!(client.state(), State::Failed(FailureReason::TooManyRetries));
}

#[test]
fn an_unanswered_syn_gives_up_after_its_retries_by_the_product_bound() {
    let config = Config { segment_size: 64, max_in_flight_segments: 4, min_rto: 2, max_rto: 5, max_retries: 4 };
    let (mut client, _syn) = Connection::connect(config, Tick(0));
    for t in 1..=4 * 5 {
        client.on_tick(Tick(t));
    }
    assert_eq!(client.state(), State::Failed(FailureReason::TooManyRetries));
    assert_eq!(client.failure(), Some(FailureReason::TooManyRetries));
    assert_eq!(client.stats().control_retransmissions, 3);

    let zero = Config { segment_size: 64, max_in_flight_segments: 4, min_rto: 0, max_rto: 0, max_retries: 0 };
    let (mut client, _syn) = Connection::connect(zero, Tick(0));
    client.on_tick(Tick(1));
    assert_eq!(client.state(), State::Failed(FailureReason::TooManyRetries));
    assert_eq!(client.stats().control_retransmissions, 0);
}

#[test]
fn an_unanswered_synack_fails_within_the_silence_bound() {
    let (_client, syn) = Connection::connect(cfg(), Tick(0));
    let mut server = Connection::listen(cfg(), Tick(0));
    server.on_datagram(Tick(1), &syn);
    assert_eq!(server.state(), State::SynReceived);
    tick_silently(&mut server, 1);
    assert_eq!(server.state(), State::Failed(FailureReason::TooManyRetries));
}

#[test]
fn an_unanswered_fin_fails_within_the_silence_bound() {
    let (mut client, _server) = established();
    let fin = client.close(Tick(4));
    assert_eq!(fin.len(), 1);
    tick_silently(&mut client, 4);
    assert_eq!(client.state(), State::Failed(FailureReason::TooManyRetries));
}

// ---- A link over a channel that damages one way --------------------------

fn prob(p: f64) -> u64 {
    (p * (PROB_ONE as f64)).ceil() as u64
}

/// Runs a client sending `data` to a server over two channels with
/// `profile`, checking after every tick that what the server has
/// delivered is a prefix of `data`; returns what it delivered.
fn drive_pair(profile: FaultProfile, seed: u64, data: &[u8], ticks: u64) -> Vec<u8> {
    let (mut client, syn) = Connection::connect(cfg(), Tick(0));
    let mut server = Connection::listen(cfg(), Tick(0));
    let mut c2s = Channel::new(seed, profile);
    let mut s2c = Channel::new(seed ^ 0xABCD, profile);
    c2s.send(&syn);
    let mut got = Vec::new();
    let mut sent = false;
    for t in 1..=ticks {
        let now = Tick(t);
        for d in c2s.advance(now) {
            if server.datagram_is_safe(now, &d) {
                for out in server.on_datagram(now, &d) {
                    s2c.send(&out);
                }
            }
        }
        for d in s2c.advance(now) {
            if client.datagram_is_safe(now, &d) {
                for out in client.on_datagram(now, &d) {
                    c2s.send(&out);
                }
            }
        }
        for out in client.on_tick(now) {
            c2s.send(&out);
        }
        for out in server.on_tick(now) {
            s2c.send(&out);
        }
        got.extend(server.recv());
        assert!(data.starts_with(&got), "seed {seed}: delivered bytes are not a prefix at tick {t}");
        if !sent && client.state() == State::Established {
            for out in client.send(now, data) {
                c2s.send(&out);
            }
            sent = true;
        }
    }
    got
}

#[test]
fn over_a_corrupting_channel_the_receiver_only_ever_holds_a_prefix() {
    let mut profile = FaultProfile::CLEAN();
    profile.loss = prob(0.1);
    profile.duplication = prob(0.2);
    profile.reorder_max_delay = 3;
    profile.corruption = prob(0.4);
    let data: Vec<u8> = (0..300u32).map(|i| (i * 13 % 256) as u8).collect();
    let mut whole = 0;
    for seed in 0..12u64 {
        if drive_pair(profile, seed, &data, 1500) == data {
            whole += 1;
        }
    }
    assert!(whole > 0);
}

#[test]
fn over_a_truncating_channel_the_receiver_only_ever_holds_a_prefix() {
    let mut profile = FaultProfile::CLEAN();
    profile.loss = prob(0.1);
    profile.duplication = prob(0.2);
    profile.reorder_max_delay = 3;
    profile.truncation = prob(0.4);
    let data: Vec<u8> = (0..300u32).map(|i| (i * 29 % 256) as u8).collect();
    let mut whole = 0;
    for seed in 0..12u64 {
        if drive_pair(profile, seed, &data, 1500) == data {
            whole += 1;
        }
    }
    assert!(whole > 0);
}

#[test]
fn a_connection_never_has_more_segments_outstanding_than_it_may() {
    let (mut client, syn) = Connection::connect(cfg(), Tick(0));
    let mut server = Connection::listen(cfg(), Tick(0));
    let synack = server.on_datagram(Tick(1), &syn);
    client.on_datagram(Tick(2), &synack[0]);
    // Far more than four segments' worth of bytes, queued at once and then
    // again: only four segments may go out before an acknowledgment.
    let first = client.send(Tick(3), &[7u8; 200]);
    assert_eq!(first.len(), 4);
    assert!(client.send(Tick(4), &[8u8; 50]).is_empty());
    // A timeout resends the four, and admits nothing new.
    let resent = client.on_tick(Tick(200));
    assert_eq!(resent.len(), 4);
    for d in &resent {
        assert_eq!(decode(d).unwrap().flags & FLAG_ACK, FLAG_ACK);
    }
    // Acknowledging them lets exactly four more out.
    let mut acks = Vec::new();
    for d in &first {
        acks.extend(server.on_datagram(Tick(201), d));
    }
    let mut more = Vec::new();
    for a in &acks {
        more.extend(client.on_datagram(Tick(202), a));
    }
    assert_eq!(more.len(), 4);
}
