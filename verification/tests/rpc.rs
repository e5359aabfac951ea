use distrans::channel::rng::PROB_ONE;
use distrans::channel::{Channel, FaultProfile, Tick};
use distrans::rpc::{frame, FrameReader, Handler, Request, Response, RpcClient, RpcServer};
use distrans::transport::connection::{Config, Connection, State};

// ---- Framing ----------------------------------------------------------------

#[test]
fn a_single_frame_fed_whole_is_read_back() {
    let mut r = FrameReader::new();
    r.feed(&frame(b"hello"));
    assert_eq!(r.drain_frames(), vec![b"hello".to_vec()]);
}

#[test]
fn a_frame_fed_one_byte_at_a_time_is_still_read_correctly() {
    let mut r = FrameReader::new();
    let encoded = frame(b"world");
    for b in &encoded {
        r.feed(&[*b]);
    }
    assert_eq!(r.drain_frames(), vec![b"world".to_vec()]);
}

#[test]
fn multiple_frames_concatenated_in_one_feed_are_all_read() {
    let mut r = FrameReader::new();
    let mut bytes = frame(b"a");
    bytes.extend(frame(b"bb"));
    bytes.extend(frame(b""));
    r.feed(&bytes);
    assert_eq!(
        r.drain_frames(),
        vec![b"a".to_vec(), b"bb".to_vec(), b"".to_vec()]
    );
}

#[test]
fn a_trailing_partial_frame_is_held_until_the_rest_arrives() {
    let mut r = FrameReader::new();
    let encoded = frame(b"complete");
    r.feed(&encoded[..encoded.len() - 2]);
    assert!(r.drain_frames().is_empty());
    r.feed(&encoded[encoded.len() - 2..]);
    assert_eq!(r.drain_frames(), vec![b"complete".to_vec()]);
}

#[test]
fn an_empty_payload_frame_round_trips() {
    let mut r = FrameReader::new();
    r.feed(&frame(&[]));
    assert_eq!(r.drain_frames(), vec![Vec::<u8>::new()]);
}

#[test]
fn a_frame_starts_with_its_length_in_little_endian() {
    assert_eq!(frame(b"abc"), vec![3, 0, 0, 0, b'a', b'b', b'c']);
}

// ---- Messages ---------------------------------------------------------------

#[test]
fn request_round_trips() {
    let r = Request {
        id: 42,
        method: 3,
        payload: b"hello".to_vec(),
    };
    assert_eq!(Request::decode(&r.encode()), Some(r));
}

#[test]
fn response_round_trips_ok_and_err() {
    for ok in [true, false] {
        let r = Response {
            id: 7,
            ok,
            payload: b"result".to_vec(),
        };
        assert_eq!(Response::decode(&r.encode()), Some(r));
    }
}

#[test]
fn message_decode_rejects_too_short_input() {
    assert_eq!(Request::decode(&[1, 2, 3]), None);
    assert_eq!(Response::decode(&[1, 2, 3]), None);
}

#[test]
fn empty_payload_round_trips() {
    let r = Request {
        id: 0,
        method: 0,
        payload: vec![],
    };
    assert_eq!(Request::decode(&r.encode()), Some(r));
}

#[test]
fn a_request_encodes_its_id_little_endian_then_its_method() {
    let r = Request {
        id: 0x0102,
        method: 9,
        payload: vec![7],
    };
    assert_eq!(r.encode(), vec![2, 1, 0, 0, 0, 0, 0, 0, 9, 7]);
}

// ---- Client and server ------------------------------------------------------

/// Counts its executions and answers with the method, the payload and
/// the count so far, so a second execution would answer differently.
struct Counter {
    runs: u8,
}

impl Handler for Counter {
    fn handle(&mut self, method: u8, payload: &[u8]) -> (bool, Vec<u8>) {
        self.runs += 1;
        let mut out = vec![method];
        out.extend_from_slice(payload);
        out.push(self.runs);
        (true, out)
    }
}

fn config() -> Config {
    Config {
        segment_size: 64,
        max_in_flight_segments: 8,
        min_rto: 2,
        max_rto: 300,
        max_retries: 30,
    }
}

/// A client and a server, connected by hand over a perfect link.
fn pair(retry_deadline: u64, max_attempts: u32) -> (RpcClient, RpcServer<Counter>) {
    let (client_conn, syn) = Connection::connect(config(), Tick(0));
    let mut server = RpcServer::new(Connection::listen(config(), Tick(0)), Counter { runs: 0 });
    let mut client = RpcClient::new(client_conn, retry_deadline, max_attempts);
    let synack = server.on_datagram(Tick(1), &syn);
    let acks = client.on_datagram(Tick(2), &synack[0]);
    for a in &acks {
        server.on_datagram(Tick(3), a);
    }
    assert_eq!(client.connection().state(), State::Established);
    assert_eq!(server.connection().state(), State::Established);
    (client, server)
}

#[test]
fn a_call_is_answered_once_with_its_handler_result() {
    let (mut client, mut server) = pair(50, 5);
    let (id, out) = client.call(Tick(4), 7, b"hi");
    assert_eq!(id, 0);
    assert_eq!(client.pending_count(), 1);
    let mut back = Vec::new();
    for d in &out {
        back.extend(server.on_datagram(Tick(5), d));
    }
    assert_eq!(server.executions(), 1);
    for d in &back {
        client.on_datagram(Tick(6), d);
    }
    let done = client.poll_completed();
    assert_eq!(done.len(), 1);
    assert_eq!(done[0].0, 0);
    assert_eq!(done[0].1.payload, vec![7, b'h', b'i', 1]);
    assert!(done[0].1.ok);
    assert_eq!(client.pending_count(), 0);
    assert!(client.poll_completed().is_empty());
}

/// A raw connection and a server, connected by hand over a perfect link.
fn raw_pair() -> (Connection, RpcServer<Counter>) {
    let (mut c, syn) = Connection::connect(config(), Tick(0));
    let mut s = RpcServer::new(Connection::listen(config(), Tick(0)), Counter { runs: 0 });
    let synack = s.on_datagram(Tick(1), &syn);
    let acks = c.on_datagram(Tick(2), &synack[0]);
    for a in &acks {
        s.on_datagram(Tick(3), a);
    }
    (c, s)
}

#[test]
fn a_duplicated_request_replays_the_stored_response_without_running_again() {
    let (mut c, mut s) = raw_pair();
    let request = Request {
        id: 11,
        method: 1,
        payload: b"x".to_vec(),
    };
    // The same request twice on the stream: the second is a retry.
    let bytes = frame(&request.encode());
    let mut stream = bytes.clone();
    stream.extend(bytes);
    let segments = c.send(Tick(4), &stream);
    let mut replies = Vec::new();
    for d in &segments {
        replies.extend(s.on_datagram(Tick(5), d));
    }
    assert_eq!(s.executions(), 1);
    assert_eq!(s.handler().runs, 1);
    for d in &replies {
        c.on_datagram(Tick(6), d);
    }
    let mut reader = FrameReader::new();
    reader.feed(&c.recv());
    let got: Vec<Response> = reader
        .drain_frames()
        .iter()
        .map(|f| Response::decode(f).unwrap())
        .collect();
    assert_eq!(got.len(), 2);
    assert_eq!(got[0], got[1]);
    assert_eq!(got[0].payload, vec![1, b'x', 1]);
}

#[test]
fn an_unanswered_call_is_retried_then_given_up() {
    let (mut client, _server) = pair(3, 2);
    let (id, _out) = client.call(Tick(4), 1, b"lost");
    // First retry at tick 7 (attempt 2), then attempt 3 exceeds the limit.
    let resent = client.on_tick(Tick(7));
    assert!(!resent.is_empty());
    assert!(client.poll_failed().is_empty());
    client.on_tick(Tick(10));
    assert_eq!(client.poll_failed(), vec![id]);
    assert_eq!(client.pending_count(), 0);
}

#[test]
fn a_malformed_request_frame_is_dropped() {
    let (mut c, mut s) = raw_pair();
    let segments = c.send(Tick(4), &frame(&[1, 2, 3]));
    for d in &segments {
        s.on_datagram(Tick(5), d);
    }
    assert_eq!(s.executions(), 0);
}

// ---- Answers heard over a hostile link ------------------------------------

#[test]
fn over_a_hostile_link_every_answer_heard_is_its_one_execution_s_answer() {
    let mut profile = FaultProfile::CLEAN();
    profile.loss = (0.1 * PROB_ONE as f64) as u64;
    profile.duplication = (0.2 * PROB_ONE as f64) as u64;
    profile.reorder_max_delay = 3;
    profile.corruption = (0.2 * PROB_ONE as f64) as u64;
    let mut total_heard = 0;
    for seed in 0..6u64 {
        let (mut c, syn) = Connection::connect(config(), Tick(0));
        let mut s = RpcServer::new(Connection::listen(config(), Tick(0)), Counter { runs: 0 });
        let mut c2s = Channel::new(seed, profile);
        let mut s2c = Channel::new(seed + 100, profile);
        c2s.send(&syn);
        let mut reader = FrameReader::new();
        let mut heard: Vec<Response> = Vec::new();
        let mut issued = 0u64;
        for t in 1..3000u64 {
            let now = Tick(t);
            for d in c2s.advance(now) {
                if s.connection().datagram_is_safe(now, &d) {
                    for out in s.on_datagram(now, &d) {
                        s2c.send(&out);
                    }
                }
            }
            for d in s2c.advance(now) {
                if c.datagram_is_safe(now, &d) {
                    for out in c.on_datagram(now, &d) {
                        c2s.send(&out);
                    }
                }
            }
            for out in c.on_tick(now) {
                c2s.send(&out);
            }
            for out in s.on_tick(now) {
                s2c.send(&out);
            }
            reader.feed(&c.recv());
            for f in reader.drain_frames() {
                heard.push(Response::decode(&f).unwrap());
            }
            // Every request goes out twice, the second time as a retry.
            if c.state() == State::Established && t % 20 == 0 && issued < 10 {
                let id = issued / 2;
                let request = Request { id, method: 3, payload: vec![id as u8] };
                for out in c.send(now, &frame(&request.encode())) {
                    c2s.send(&out);
                }
                issued += 1;
            }
        }
        assert!(s.executions() <= 5);
        for a in &heard {
            for b in &heard {
                if a.id == b.id {
                    assert_eq!(a, b, "seed {seed}: two different answers for request {}", a.id);
                }
            }
            assert_eq!(a.payload[..2], [3, a.id as u8]);
        }
        total_heard += heard.len();
    }
    assert!(total_heard > 0);
}

#[test]
fn over_a_hostile_link_every_completed_call_holds_its_one_execution_s_answer() {
    let mut profile = FaultProfile::CLEAN();
    profile.loss = (0.1 * PROB_ONE as f64) as u64;
    profile.duplication = (0.2 * PROB_ONE as f64) as u64;
    profile.reorder_max_delay = 3;
    profile.corruption = (0.2 * PROB_ONE as f64) as u64;
    let mut total_completed = 0;
    for seed in 0..6u64 {
        let (conn, syn) = Connection::connect(config(), Tick(0));
        // A short deadline: calls are retried while their answers travel.
        let mut client = RpcClient::new(conn, 4, 50);
        let mut s = RpcServer::new(Connection::listen(config(), Tick(0)), Counter { runs: 0 });
        let mut c2s = Channel::new(seed, profile);
        let mut s2c = Channel::new(seed + 200, profile);
        c2s.send(&syn);
        let mut completed: Vec<(u64, Response)> = Vec::new();
        let mut issued = 0u64;
        for t in 1..3000u64 {
            let now = Tick(t);
            for d in c2s.advance(now) {
                if s.connection().datagram_is_safe(now, &d) {
                    for out in s.on_datagram(now, &d) {
                        s2c.send(&out);
                    }
                }
            }
            for d in s2c.advance(now) {
                if client.connection().datagram_is_safe(now, &d) {
                    for out in client.on_datagram(now, &d) {
                        c2s.send(&out);
                    }
                }
            }
            for out in client.on_tick(now) {
                c2s.send(&out);
            }
            for out in s.on_tick(now) {
                s2c.send(&out);
            }
            completed.extend(client.poll_completed());
            if client.connection().state() == State::Established && t % 25 == 0 && issued < 5 {
                let (_, out) = client.call(now, 4, &[issued as u8]);
                for d in &out {
                    c2s.send(d);
                }
                issued += 1;
            }
        }
        assert!(s.executions() <= issued);
        for (i, (id, r)) in completed.iter().enumerate() {
            assert_eq!(r.id, *id);
            assert!(r.ok);
            // The method, the payload, then which execution this was.
            assert_eq!(r.payload[..2], [4, *id as u8]);
            assert!(r.payload[2] as u64 <= s.executions());
            for (other, _) in &completed[i + 1..] {
                assert_ne!(id, other, "seed {seed}: request {id} completed twice");
            }
        }
        total_completed += completed.len();
    }
    assert!(total_completed > 0);
}
