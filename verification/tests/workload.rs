use distrans::channel::rng::PROB_ONE;
use distrans::channel::{Channel, FaultProfile, Tick};
use distrans::rpc::{Handler, RpcClient};
use distrans::transport::connection::{Config, Connection, State};
use distrans::workload::baselines::{
    ack_frame, data_frame, run_go_back_n, run_stop_and_wait, split_chunks, ArqConfig,
};
use distrans::workload::chaos::{
    key_name, make_link, run_chaos, sorted_switches, transport_config, ChaosConfig, ChaosFailure,
    ChaosSummary,
};
use distrans::workload::cli::parse_u64;
use distrans::workload::client::call;
use distrans::workload::kv::{apply, KvStore, Op, ReferenceStore, METHOD_DELETE, METHOD_GET, METHOD_PUT};
use distrans::workload::profiles;
use distrans::workload::server::{make_server, KvHandler};

// ---- The key-value service ------------------------------------------------------

#[test]
fn op_encoding_round_trips() {
    for op in [
        Op::Get { key: b"k".to_vec() },
        Op::Delete {
            key: b"k2".to_vec(),
        },
        Op::Put {
            key: b"k3".to_vec(),
            value: b"v".to_vec(),
        },
    ] {
        let decoded = Op::decode(op.method(), &op.encode_payload()).unwrap();
        assert_eq!(decoded, op);
    }
}

#[test]
fn apply_and_reference_store_agree_on_a_fixed_sequence() {
    let mut store = KvStore::new();
    let mut reference = ReferenceStore::new();
    let ops = [
        Op::Put {
            key: b"a".to_vec(),
            value: b"1".to_vec(),
        },
        Op::Get { key: b"a".to_vec() },
        Op::Get {
            key: b"missing".to_vec(),
        },
        Op::Delete { key: b"a".to_vec() },
        Op::Get { key: b"a".to_vec() },
        Op::Delete { key: b"a".to_vec() },
        Op::Put {
            key: b"a".to_vec(),
            value: b"2".to_vec(),
        },
        Op::Put {
            key: b"a".to_vec(),
            value: b"3".to_vec(),
        },
        Op::Get { key: b"a".to_vec() },
    ];
    for op in &ops {
        assert_eq!(apply(&mut store, op), reference.apply(op), "{op:?}");
    }
}

#[test]
fn the_store_answers_each_operation_exactly() {
    let mut store = KvStore::new();
    assert_eq!(apply(&mut store, &Op::Get { key: b"k".to_vec() }), (false, vec![]));
    assert_eq!(
        apply(&mut store, &Op::Put { key: b"k".to_vec(), value: b"v1".to_vec() }),
        (true, vec![])
    );
    assert_eq!(apply(&mut store, &Op::Get { key: b"k".to_vec() }), (true, b"v1".to_vec()));
    assert_eq!(
        apply(&mut store, &Op::Put { key: b"k".to_vec(), value: b"v2".to_vec() }),
        (true, vec![])
    );
    assert_eq!(store.get(b"k"), Some(b"v2".to_vec()));
    assert_eq!(apply(&mut store, &Op::Delete { key: b"k".to_vec() }), (true, vec![]));
    assert_eq!(apply(&mut store, &Op::Delete { key: b"k".to_vec() }), (false, vec![]));
    assert_eq!(store.get(b"k"), None);
}

#[test]
fn a_get_sees_the_last_write_of_its_key_and_no_other_on_both_stores() {
    let k = || b"key".to_vec();
    let mut store = KvStore::new();
    let mut reference = ReferenceStore::new();
    let ops = [
        Op::Put { key: k(), value: b"one".to_vec() },
        Op::Put { key: b"other".to_vec(), value: b"x".to_vec() },
        Op::Delete { key: b"third".to_vec() },
    ];
    for op in &ops {
        apply(&mut store, op);
        reference.apply(op);
    }
    assert_eq!(apply(&mut store, &Op::Get { key: k() }), (true, b"one".to_vec()));
    assert_eq!(reference.apply(&Op::Get { key: k() }), (true, b"one".to_vec()));
    apply(&mut store, &Op::Delete { key: k() });
    reference.apply(&Op::Delete { key: k() });
    assert_eq!(apply(&mut store, &Op::Get { key: k() }), (false, vec![]));
    assert_eq!(reference.apply(&Op::Get { key: k() }), (false, vec![]));
    assert_eq!(apply(&mut store, &Op::Get { key: b"other".to_vec() }), (true, b"x".to_vec()));
}

#[test]
fn a_put_payload_carries_the_key_length_first() {
    let op = Op::Put {
        key: b"ab".to_vec(),
        value: b"xyz".to_vec(),
    };
    assert_eq!(op.method(), METHOD_PUT);
    assert_eq!(op.encode_payload(), vec![2, 0, b'a', b'b', b'x', b'y', b'z']);
    assert_eq!(Op::Get { key: vec![] }.method(), METHOD_GET);
    assert_eq!(Op::Delete { key: vec![] }.method(), METHOD_DELETE);
}

#[test]
fn malformed_requests_decode_to_no_operation() {
    assert_eq!(Op::decode(9, b"anything"), None);
    assert_eq!(Op::decode(METHOD_PUT, &[5]), None);
    assert_eq!(Op::decode(METHOD_PUT, &[5, 0, b'a']), None);
    assert_eq!(
        Op::decode(METHOD_PUT, &[1, 0, b'a']),
        Some(Op::Put {
            key: b"a".to_vec(),
            value: vec![]
        })
    );
}

#[test]
fn the_handler_logs_each_execution_and_ignores_malformed_requests() {
    let mut h = KvHandler::new(KvStore::new());
    let put = Op::Put {
        key: b"k".to_vec(),
        value: b"v".to_vec(),
    };
    assert_eq!(h.handle(METHOD_PUT, &put.encode_payload()), (true, vec![]));
    assert_eq!(h.handle(METHOD_GET, b"k"), (true, b"v".to_vec()));
    assert_eq!(h.handle(77, b"k"), (false, vec![]));
    let log = h.log();
    assert_eq!(log.len(), 2);
    assert_eq!(log[0], (put, true, vec![]));
    assert_eq!(log[1], (Op::Get { key: b"k".to_vec() }, true, b"v".to_vec()));
}

#[test]
fn replaying_the_handler_log_on_a_reference_store_gives_every_logged_answer() {
    let mut h = KvHandler::new(KvStore::new());
    let ops = [
        Op::Put { key: b"a".to_vec(), value: b"1".to_vec() },
        Op::Get { key: b"a".to_vec() },
        Op::Delete { key: b"b".to_vec() },
        Op::Put { key: b"b".to_vec(), value: b"2".to_vec() },
        Op::Put { key: b"a".to_vec(), value: b"3".to_vec() },
        Op::Delete { key: b"b".to_vec() },
        Op::Get { key: b"a".to_vec() },
        Op::Get { key: b"b".to_vec() },
    ];
    for op in &ops {
        h.handle(op.method(), &op.encode_payload());
    }
    let mut reference = ReferenceStore::new();
    let log = h.log();
    assert_eq!(log.len(), ops.len());
    for (op, ok, reply) in log {
        assert_eq!(reference.apply(op), (*ok, reply.clone()), "{op:?}");
    }
}

#[test]
fn a_put_with_the_longest_encodable_key_round_trips() {
    let op = Op::Put { key: vec![7u8; u16::MAX as usize], value: b"tail".to_vec() };
    assert_eq!(Op::decode(op.method(), &op.encode_payload()), Some(op));
}

// ---- Named profiles -------------------------------------------------------------

#[test]
fn every_named_profile_validates() {
    for (name, p) in profiles::all() {
        assert!(p.validate().is_ok(), "{name}: {p:?}");
    }
}

#[test]
fn profile_thresholds_are_the_named_probabilities() {
    let to_threshold = |p: f64| (p * PROB_ONE as f64).ceil() as u64;
    let lossy = profiles::lossy();
    assert_eq!(lossy.loss, to_threshold(0.10));
    assert_eq!(lossy.duplication, to_threshold(0.02));
    assert_eq!(lossy.corruption, to_threshold(0.01));
    assert_eq!(profiles::bursty_corruption().corruption, to_threshold(0.25));
    assert_eq!(profiles::bursty_corruption().truncation, to_threshold(0.05));
    assert_eq!(profiles::near_partition().loss, to_threshold(0.6));
    assert_eq!(profiles::clean(), FaultProfile::CLEAN());
    let names: Vec<&str> = profiles::all().iter().map(|(n, _)| *n).collect();
    assert_eq!(
        names,
        vec!["clean", "lossy", "high_latency_reordering", "bursty_corruption", "near_partition"]
    );
}

// ---- The ARQ baselines ----------------------------------------------------------

fn cfg() -> ArqConfig {
    ArqConfig {
        segment_size: 32,
        rto: 10,
        max_retries: 30,
    }
}

fn prob(p: f64) -> u64 {
    (p * (PROB_ONE as f64)).ceil() as u64
}

#[test]
fn stop_and_wait_delivers_correctly_on_a_clean_channel() {
    let mut fwd = Channel::new(1, FaultProfile::CLEAN());
    let mut back = Channel::new(2, FaultProfile::CLEAN());
    let data: Vec<u8> = (0..500u32).map(|i| i as u8).collect();
    let result = run_stop_and_wait(&data, &mut fwd, &mut back, cfg(), 5000);
    assert!(result.completed);
    assert_eq!(result.delivered, data);
}

#[test]
fn go_back_n_delivers_correctly_on_a_clean_channel() {
    let mut fwd = Channel::new(1, FaultProfile::CLEAN());
    let mut back = Channel::new(2, FaultProfile::CLEAN());
    let data: Vec<u8> = (0..2000u32).map(|i| i as u8).collect();
    let result = run_go_back_n(&data, &mut fwd, &mut back, cfg(), 8, 5000);
    assert!(result.completed);
    assert_eq!(result.delivered, data);
}

#[test]
fn both_schemes_deliver_correctly_under_moderate_loss() {
    let mut profile = FaultProfile::CLEAN();
    profile.loss = prob(0.1);
    profile.corruption = prob(0.05);
    for seed in 0..15u64 {
        let mut fwd = Channel::new(seed, profile);
        let mut back = Channel::new(seed + 500, profile);
        let data: Vec<u8> = (0..600u32).map(|i| (i % 200) as u8).collect();
        let r1 = run_stop_and_wait(&data, &mut fwd, &mut back, cfg(), 20_000);
        assert!(r1.completed, "stop-and-wait seed {seed}");
        assert_eq!(r1.delivered, data, "stop-and-wait seed {seed}");

        let mut fwd = Channel::new(seed, profile);
        let mut back = Channel::new(seed + 500, profile);
        let r2 = run_go_back_n(&data, &mut fwd, &mut back, cfg(), 8, 20_000);
        assert!(r2.completed, "go-back-n seed {seed}");
        assert_eq!(r2.delivered, data, "go-back-n seed {seed}");
    }
}

#[test]
fn go_back_n_is_never_slower_than_stop_and_wait_on_a_clean_channel() {
    let data: Vec<u8> = (0..4000u32).map(|i| i as u8).collect();
    let mut fwd = Channel::new(9, FaultProfile::CLEAN());
    let mut back = Channel::new(10, FaultProfile::CLEAN());
    let saw = run_stop_and_wait(&data, &mut fwd, &mut back, cfg(), 50_000);

    let mut fwd = Channel::new(9, FaultProfile::CLEAN());
    let mut back = Channel::new(10, FaultProfile::CLEAN());
    let gbn = run_go_back_n(&data, &mut fwd, &mut back, cfg(), 8, 50_000);

    assert!(gbn.ticks_used < saw.ticks_used);
}

#[test]
fn over_a_lossy_duplicating_reordering_channel_only_a_prefix_is_ever_delivered() {
    let mut profile = FaultProfile::CLEAN();
    profile.loss = prob(0.3);
    profile.duplication = prob(0.3);
    profile.reorder_max_delay = 6;
    let data: Vec<u8> = (0..900u32).map(|i| (i * 7 % 251) as u8).collect();
    for seed in 0..10u64 {
        for max_ticks in [1u64, 40, 200, 20_000] {
            let mut fwd = Channel::new(seed, profile);
            let mut back = Channel::new(seed + 77, profile);
            let r = run_stop_and_wait(&data, &mut fwd, &mut back, cfg(), max_ticks);
            assert!(data.starts_with(&r.delivered), "stop-and-wait seed {seed}");
            if r.completed {
                assert_eq!(r.delivered, data);
            }

            let mut fwd = Channel::new(seed, profile);
            let mut back = Channel::new(seed + 77, profile);
            let r = run_go_back_n(&data, &mut fwd, &mut back, cfg(), 8, max_ticks);
            assert!(data.starts_with(&r.delivered), "go-back-n seed {seed}");
            if r.completed {
                assert_eq!(r.delivered, data);
            }
        }
    }
}

#[test]
fn over_channels_that_damage_one_way_only_a_prefix_is_ever_delivered() {
    let data: Vec<u8> = (0..700u32).map(|i| (i * 11 % 253) as u8).collect();
    for (corruption, truncation) in [(0.3, 0.0), (0.0, 0.3)] {
        let mut profile = FaultProfile::CLEAN();
        profile.loss = prob(0.1);
        profile.duplication = prob(0.1);
        profile.reorder_max_delay = 2;
        profile.corruption = prob(corruption);
        profile.truncation = prob(truncation);
        for seed in 0..8u64 {
            let mut fwd = Channel::new(seed, profile);
            let mut back = Channel::new(seed + 31, profile);
            let r = run_stop_and_wait(&data, &mut fwd, &mut back, cfg(), 20_000);
            assert!(data.starts_with(&r.delivered));
            if r.completed {
                assert_eq!(r.delivered, data);
            }
            let mut fwd = Channel::new(seed, profile);
            let mut back = Channel::new(seed + 31, profile);
            let r = run_go_back_n(&data, &mut fwd, &mut back, cfg(), 4, 20_000);
            assert!(data.starts_with(&r.delivered));
            if r.completed {
                assert_eq!(r.delivered, data);
            }
        }
    }
}

#[test]
fn chunks_put_back_together_are_the_data() {
    let data: Vec<u8> = (0..70u8).collect();
    let chunks = split_chunks(&data, 32);
    assert_eq!(chunks.iter().map(|c| c.len()).collect::<Vec<_>>(), vec![32, 32, 6]);
    assert_eq!(chunks.concat(), data);
    assert_eq!(split_chunks(&data, 0).len(), 70);
    assert!(split_chunks(&[], 8).is_empty());
}

#[test]
fn baseline_frames_are_plain_frames() {
    let d = distrans::frame::decode(&data_frame(3, b"abc")).unwrap();
    assert_eq!((d.sequence, d.flags, d.payload), (3, 0, b"abc".to_vec()));
    let a = distrans::frame::decode(&ack_frame(4)).unwrap();
    assert_eq!((a.sequence, a.flags, a.payload.len()), (4, 1, 0));
}

#[test]
fn a_silent_channel_exhausts_the_retries() {
    let mut profile = FaultProfile::CLEAN();
    profile.loss = prob(1.0);
    let mut fwd = Channel::new(1, profile);
    let mut back = Channel::new(2, profile);
    let config = ArqConfig {
        segment_size: 8,
        rto: 5,
        max_retries: 3,
    };
    let r = run_stop_and_wait(b"never arrives", &mut fwd, &mut back, config, 10_000);
    assert!(!r.completed);
    assert!(r.delivered.is_empty());
    // Sent at tick 1, resent at 6, 11 and 16, given up at 21.
    assert_eq!(r.ticks_used, 21);
}

// ---- Client glue ----------------------------------------------------------------

#[test]
fn a_call_carries_the_operation_method_and_payload() {
    let (conn, _syn) = Connection::connect(transport_config(), Tick(0));
    let mut client = RpcClient::new(conn, 25, 60);
    let op = Op::Put {
        key: b"k".to_vec(),
        value: b"v".to_vec(),
    };
    let (id, _out) = call(&mut client, Tick(1), &op);
    assert_eq!(id, 0);
    assert_eq!(client.pending_count(), 1);
    // 4-byte frame length, 8-byte id, method, payload.
    assert_eq!(
        client.connection().stats().bytes_sent_app,
        (4 + 8 + 1 + op.encode_payload().len()) as u64
    );
}

#[test]
fn a_served_put_then_get_round_trips_through_rpc() {
    let (mut c, syn) = Connection::connect(transport_config(), Tick(0));
    let mut server = make_server(Connection::listen(transport_config(), Tick(0)), KvStore::new());
    let synack = server.on_datagram(Tick(1), &syn);
    let acks = c.on_datagram(Tick(2), &synack[0]);
    for a in &acks {
        server.on_datagram(Tick(3), a);
    }
    assert_eq!(server.connection().state(), State::Established);
    let mut client = RpcClient::new(c, 25, 60);
    let mut now = 4;
    for op in [
        Op::Put {
            key: b"k".to_vec(),
            value: b"v".to_vec(),
        },
        Op::Get { key: b"k".to_vec() },
    ] {
        let (_id, out) = call(&mut client, Tick(now), &op);
        for d in &out {
            for back in server.on_datagram(Tick(now + 1), d) {
                client.on_datagram(Tick(now + 2), &back);
            }
        }
        now += 3;
    }
    let done = client.poll_completed();
    assert_eq!(done.len(), 2);
    assert_eq!(done[1].1.payload, b"v".to_vec());
    assert_eq!(server.handler().log().len(), 2);
}

// ---- Chaos runs ----------------------------------------------------------------

#[test]
fn many_seeds_run_clean_on_every_named_profile() {
    for (name, profile) in profiles::all() {
        for seed in 0..12u64 {
            let cfg = ChaosConfig {
                seed,
                initial_profile: profile,
                calls: 30,
                max_ticks: 100_000,
                ..Default::default()
            };
            if let Err(failure) = run_chaos(cfg) {
                panic!("{name}: {}", failure.describe());
            }
        }
    }
}

#[test]
fn a_run_is_a_pure_function_of_its_seed() {
    let cfg = |seed| ChaosConfig {
        seed,
        calls: 25,
        ..Default::default()
    };
    let a = run_chaos(cfg(42)).unwrap();
    let b = run_chaos(cfg(42)).unwrap();
    assert_eq!(a, b, "same seed must reproduce identically");
    assert_ne!(a.ticks_used, 0);
}

#[test]
fn mid_stream_profile_switches_are_handled_correctly() {
    for seed in 0..15u64 {
        let cfg = ChaosConfig {
            seed,
            initial_profile: profiles::clean(),
            profile_switches: vec![
                (40, profiles::lossy()),
                (120, profiles::high_latency_reordering()),
                (220, profiles::bursty_corruption()),
            ],
            calls: 45,
            max_ticks: 150_000,
            ..Default::default()
        };
        if let Err(failure) = run_chaos(cfg) {
            panic!("seed {seed}: {}", failure.describe());
        }
    }
}

#[test]
fn near_partition_produces_legitimate_call_failures_not_invariant_violations() {
    let mut any_failed = false;
    for seed in 0..20u64 {
        let cfg = ChaosConfig {
            seed,
            initial_profile: profiles::near_partition(),
            calls: 20,
            max_ticks: 150_000,
            ..Default::default()
        };
        let summary = run_chaos(cfg).unwrap_or_else(|e| panic!("seed {seed}: {}", e.describe()));
        any_failed |= summary.calls_failed > 0;
    }
    assert!(
        any_failed,
        "near_partition (60% loss) never produced a single call failure across 20 seeds — \
         either the profile isn't as hostile as intended, or failures are being swallowed"
    );
}

#[test]
fn more_clients_and_a_larger_key_space_still_run_clean() {
    for seed in 0..8u64 {
        let cfg = ChaosConfig {
            seed,
            clients: 6,
            key_space: 16,
            calls: 80,
            initial_profile: profiles::lossy(),
            max_ticks: 200_000,
            ..Default::default()
        };
        if let Err(failure) = run_chaos(cfg) {
            panic!("seed {seed}: {}", failure.describe());
        }
    }
}

#[test]
fn a_run_with_too_few_ticks_fails_naming_its_seed() {
    let cfg = ChaosConfig {
        seed: 5,
        max_ticks: 3,
        ..Default::default()
    };
    let failure = run_chaos(cfg).unwrap_err();
    assert_eq!(failure.seed, 5);
    assert!(failure.message.starts_with("did not drain within 3 ticks"));
    assert!(failure.describe().contains("replay: distrans-chaos --seed 0x5"));
}

#[test]
fn a_run_that_ends_before_its_first_call_fails_with_none_issued() {
    for seed in [3u64, 11, 42, 0xDEAD_BEEF] {
        let first = 2 + distrans::workload::rng::SplitMix64::new(seed).below(4) as u64;
        for max_ticks in 0..first {
            let cfg = ChaosConfig {
                seed,
                max_ticks,
                ..Default::default()
            };
            let failure = run_chaos(cfg).unwrap_err();
            assert_eq!(failure.seed, seed);
            assert_eq!(
                failure.message,
                format!("did not drain within {max_ticks} ticks (0 of 60 calls issued)")
            );
        }
    }
}

#[test]
fn a_run_without_calls_finishes_at_once() {
    let cfg = ChaosConfig {
        calls: 0,
        ..Default::default()
    };
    let s = run_chaos(cfg).unwrap();
    assert_eq!(
        s,
        ChaosSummary {
            seed: 0,
            executions: 0,
            calls_completed: 0,
            calls_failed: 0,
            ticks_used: 1
        }
    );
}

#[test]
fn chaos_helpers_build_what_they_name() {
    assert_eq!(key_name(0), b"k0".to_vec());
    assert_eq!(key_name(407), b"k407".to_vec());
    let c: Config = transport_config();
    assert_eq!((c.segment_size, c.min_rto, c.max_rto, c.max_retries), (128, 2, 400, 40));
    let (mut a, b) = make_link(7, FaultProfile::CLEAN());
    a.send(b"x");
    assert_eq!(a.advance(Tick(1)), vec![b"x".to_vec()]);
    assert_eq!(b.stats().sent, 0);
    let switches = vec![(9, profiles::lossy()), (3, profiles::clean()), (9, profiles::clean())];
    let sorted = sorted_switches(&switches);
    assert_eq!(
        sorted,
        vec![(3, profiles::clean()), (9, profiles::lossy()), (9, profiles::clean())]
    );
    let f = ChaosFailure {
        seed: 16,
        message: "m".to_string(),
    };
    assert_eq!(f.describe(), "chaos invariant violated (seed 0x10): m\n  replay: distrans-chaos --seed 0x10");
}

// ---- Command-line numbers --------------------------------------------------------

#[test]
fn command_line_numbers_parse_as_rust_reads_them() {
    assert_eq!(parse_u64("--seed", Some("42".to_string())), Ok(42));
    assert_eq!(parse_u64("--seed", Some("+7".to_string())), Ok(7));
    assert_eq!(parse_u64("--seed", Some("0xff".to_string())), Ok(255));
    assert_eq!(parse_u64("--seed", Some("0xFF".to_string())), Ok(255));
    assert_eq!(
        parse_u64("--seed", Some("18446744073709551615".to_string())),
        Ok(u64::MAX)
    );
    assert_eq!(
        parse_u64("--seed", None),
        Err("--seed needs a value".to_string())
    );
    assert_eq!(
        parse_u64("--runs", Some("".to_string())),
        Err("--runs : cannot parse integer from empty string".to_string())
    );
    assert_eq!(
        parse_u64("--runs", Some("12a".to_string())),
        Err("--runs 12a: invalid digit found in string".to_string())
    );
    assert_eq!(
        parse_u64("--runs", Some("18446744073709551616".to_string())),
        Err("--runs 18446744073709551616: number too large to fit in target type".to_string())
    );
    assert_eq!(
        parse_u64("--runs", Some("0x".to_string())),
        Err("--runs 0x: cannot parse integer from empty string".to_string())
    );
    assert_eq!(
        parse_u64("--runs", Some("+".to_string())),
        Err("--runs +: invalid digit found in string".to_string())
    );
    for text in ["0", "123", "+5", "0x1f", "x", "-1", " 1", "99999999999999999999", "0x+a"] {
        let expected = match text.strip_prefix("0x") {
            Some(hex) => u64::from_str_radix(hex, 16),
            None => text.parse::<u64>(),
        };
        let got = parse_u64("--n", Some(text.to_string()));
        match expected {
            Ok(v) => assert_eq!(got, Ok(v), "{text}"),
            Err(e) => assert_eq!(got, Err(format!("--n {text}: {e}")), "{text}"),
        }
    }
}

// ---- Goodput report ------------------------------------------------------------

const SEGMENT_SIZE: usize = 64;
const PAYLOAD_LEN: usize = 20_000;

fn profile_at(loss: f64) -> FaultProfile {
    FaultProfile {
        loss: prob(loss),
        duplication: 0,
        reorder_max_delay: 1,
        corruption: 0,
        truncation: 0,
        base_delay: 1,
    }
}

/// One client-to-server bulk transfer over the transport: (ticks used,
/// bytes delivered, completed).
fn run_transport(loss: f64, seed: u64) -> (u64, usize, bool) {
    let config = Config {
        segment_size: SEGMENT_SIZE,
        max_in_flight_segments: 16,
        min_rto: 2,
        max_rto: 400,
        max_retries: 30,
    };
    let profile = profile_at(loss);
    let (mut client, syn) = Connection::connect(config, Tick(0));
    let mut server = Connection::listen(config, Tick(0));
    let mut c2s = Channel::new(seed, profile);
    let mut s2c = Channel::new(seed.wrapping_add(9999), profile);
    c2s.send(&syn);

    let data = vec![3u8; PAYLOAD_LEN];
    let mut sent = false;
    let mut closed_client = false;
    let mut delivered = Vec::new();
    let max_ticks = 300_000u64;

    for tick in 1..=max_ticks {
        let now = Tick(tick);
        for d in c2s.advance(now) {
            for out in server.on_datagram(now, &d) {
                s2c.send(&out);
            }
        }
        for d in s2c.advance(now) {
            for out in client.on_datagram(now, &d) {
                c2s.send(&out);
            }
        }
        for out in client.on_tick(now) {
            c2s.send(&out);
        }
        for out in server.on_tick(now) {
            s2c.send(&out);
        }
        delivered.extend(server.recv());

        if client.state() == State::Established && !sent {
            for out in client.send(now, &data) {
                c2s.send(&out);
            }
            sent = true;
        }
        if sent && !closed_client && client.state() == State::Established {
            for out in client.close(now) {
                c2s.send(&out);
            }
            closed_client = true;
        }
        if server.state() == State::Established && server.peer_closed() {
            for out in server.close(now) {
                s2c.send(&out);
            }
        }

        let done = client.state() == State::Closed && server.state() == State::Closed;
        let failed = matches!(client.state(), State::Failed(_))
            || matches!(server.state(), State::Failed(_));
        if done {
            return (tick, delivered.len(), true);
        }
        if failed {
            return (tick, delivered.len(), false);
        }
    }
    (max_ticks, delivered.len(), false)
}

#[test]
fn report_goodput_vs_loss_across_schemes() {
    let cfg = ArqConfig {
        segment_size: SEGMENT_SIZE,
        rto: 30,
        max_retries: 60,
    };
    let data = vec![3u8; PAYLOAD_LEN];
    let goodput = |ticks: u64, bytes: usize| bytes as f64 / ticks.max(1) as f64;

    let ideal = FaultProfile::CLEAN();
    let mut fwd = Channel::new(1, ideal);
    let mut back = Channel::new(2, ideal);
    let saw = run_stop_and_wait(&data, &mut fwd, &mut back, cfg, 500_000);
    let mut fwd = Channel::new(1, ideal);
    let mut back = Channel::new(2, ideal);
    let gbn = run_go_back_n(&data, &mut fwd, &mut back, cfg, 8, 500_000);
    println!(
        "ideal (no loss, no reorder)  stop-and-wait: {:>6} ticks {:>7.3} B/t   go-back-n(w=8): {:>6} ticks {:>7.3} B/t",
        saw.ticks_used, goodput(saw.ticks_used, saw.delivered.len()),
        gbn.ticks_used, goodput(gbn.ticks_used, gbn.delivered.len()),
    );

    for loss in [0.0, 0.02, 0.05, 0.1, 0.2] {
        let profile = profile_at(loss);

        let mut fwd = Channel::new(1, profile);
        let mut back = Channel::new(2, profile);
        let saw = run_stop_and_wait(&data, &mut fwd, &mut back, cfg, 500_000);

        let mut fwd = Channel::new(1, profile);
        let mut back = Channel::new(2, profile);
        let gbn = run_go_back_n(&data, &mut fwd, &mut back, cfg, 8, 500_000);

        let (t_ticks, t_bytes, t_ok) = run_transport(loss, 1);

        println!(
            "loss={loss:>4.2}  stop-and-wait: {:>7} ticks {:>7.3} B/t (ok={})   go-back-n(w=8): {:>7} ticks {:>7.3} B/t (ok={})   distrans: {:>7} ticks {:>7.3} B/t (ok={t_ok})",
            saw.ticks_used, goodput(saw.ticks_used, saw.delivered.len()), saw.completed,
            gbn.ticks_used, goodput(gbn.ticks_used, gbn.delivered.len()), gbn.completed,
            t_ticks, goodput(t_ticks, t_bytes),
        );
    }
}

#[test]
fn a_run_that_does_not_drain_says_how_many_calls_it_issued() {
    let cfg = ChaosConfig {
        seed: 9,
        max_ticks: 4,
        ..Default::default()
    };
    let failure = run_chaos(cfg).unwrap_err();
    let m = failure.message;
    let rest = m.strip_prefix("did not drain within 4 ticks (").unwrap();
    let fired = rest.strip_suffix(" of 60 calls issued)").unwrap();
    let fired: usize = fired.parse().unwrap();
    assert!(fired <= 60);
}
