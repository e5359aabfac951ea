use distrans::channel::rng::{SplitMix64, PROB_ONE};
use distrans::channel::{Channel, FaultProfile, Script, ScriptedFault, Tick};
use distrans::workload::rng::SplitMix64 as WorkloadRng;

/// The fixed-point threshold of a probability: `ceil(p * 2^53)`.
fn prob(p: f64) -> u64 {
    (p * (PROB_ONE as f64)).ceil() as u64
}

// ---- The channel ---------------------------------------------------------

#[test]
fn a_clean_channel_delivers_everything_unmodified_after_base_delay() {
    let mut ch = Channel::new(1, FaultProfile::CLEAN());
    ch.send(b"hello");
    ch.send(b"world");
    assert_eq!(ch.advance(Tick(0)), Vec::<Vec<u8>>::new());
    let delivered = ch.advance(Tick(1));
    assert_eq!(delivered, vec![b"hello".to_vec(), b"world".to_vec()]);
    assert_eq!(ch.stats().sent, 2);
    assert_eq!(ch.stats().delivered, 2);
    assert_eq!(ch.stats().dropped, 0);
}

#[test]
fn total_loss_drops_everything() {
    let mut profile = FaultProfile::CLEAN();
    profile.loss = prob(1.0);
    let mut ch = Channel::new(1, profile);
    for _ in 0..20 {
        ch.send(b"x");
    }
    assert_eq!(ch.advance(Tick(100)), Vec::<Vec<u8>>::new());
    assert_eq!(ch.stats().dropped, 20);
    assert_eq!(ch.stats().delivered, 0);
}

#[test]
fn total_duplication_delivers_everything_twice() {
    let mut profile = FaultProfile::CLEAN();
    profile.duplication = prob(1.0);
    let mut ch = Channel::new(1, profile);
    ch.send(b"x");
    let delivered = ch.advance(Tick(1));
    assert_eq!(delivered, vec![b"x".to_vec(), b"x".to_vec()]);
    assert_eq!(ch.stats().duplicated, 1);
}

#[test]
fn total_corruption_always_changes_the_payload() {
    let mut profile = FaultProfile::CLEAN();
    profile.corruption = prob(1.0);
    let mut ch = Channel::new(3, profile);
    for _ in 0..50 {
        ch.send(b"deadbeef");
    }
    let delivered = ch.advance(Tick(1));
    assert_eq!(delivered.len(), 50);
    assert!(delivered.iter().all(|d| d.as_slice() != b"deadbeef"));
    assert_eq!(ch.stats().corrupted, 50);
}

#[test]
fn total_truncation_always_shortens_a_nonempty_payload() {
    let mut profile = FaultProfile::CLEAN();
    profile.truncation = prob(1.0);
    let mut ch = Channel::new(5, profile);
    for _ in 0..50 {
        ch.send(b"deadbeef");
    }
    let delivered = ch.advance(Tick(1));
    assert!(delivered.iter().all(|d| d.len() < 8));
    assert_eq!(ch.stats().truncated, 50);
}

#[test]
fn reordering_can_deliver_a_later_send_first() {
    let mut profile = FaultProfile::CLEAN();
    profile.reorder_max_delay = 20;
    let mut found = false;
    for seed in 0..50 {
        let mut ch = Channel::new(seed, profile);
        ch.send(b"first");
        ch.send(b"second");
        let delivered = ch.advance(Tick(200));
        if delivered == vec![b"second".to_vec(), b"first".to_vec()] {
            found = true;
            break;
        }
    }
    assert!(found, "expected at least one seed to reorder two sends");
}

#[test]
fn deliver_ready_never_returns_a_datagram_before_its_tick() {
    let mut profile = FaultProfile::CLEAN();
    profile.base_delay = 10;
    let mut ch = Channel::new(2, profile);
    ch.send(b"x");
    assert!(ch.advance(Tick(9)).is_empty());
    assert_eq!(ch.advance(Tick(10)), vec![b"x".to_vec()]);
}

#[test]
fn next_arrival_reports_the_soonest_pending_datagram() {
    let mut profile = FaultProfile::CLEAN();
    profile.base_delay = 5;
    let mut ch = Channel::new(1, profile);
    assert_eq!(ch.next_arrival(), None);
    ch.send(b"x");
    assert_eq!(ch.next_arrival(), Some(Tick(5)));
    ch.advance(Tick(5));
    assert_eq!(ch.next_arrival(), None);
}

#[test]
fn a_scripted_drop_overrides_a_zero_loss_profile() {
    let script = Script::new().at(1, ScriptedFault::Drop);
    let mut ch = Channel::with_script(1, FaultProfile::CLEAN(), script);
    ch.send(b"a");
    ch.send(b"b");
    ch.send(b"c");
    let delivered = ch.advance(Tick(1));
    assert_eq!(delivered, vec![b"a".to_vec(), b"c".to_vec()]);
    assert_eq!(ch.stats().dropped, 1);
}

#[test]
fn a_scripted_corrupt_targets_an_exact_byte() {
    let script = Script::new().at(0, ScriptedFault::Corrupt { byte_offset: 0 });
    let mut ch = Channel::with_script(9, FaultProfile::CLEAN(), script);
    ch.send(&[0u8]);
    let delivered = ch.advance(Tick(1));
    assert_eq!(delivered.len(), 1);
    assert_ne!(delivered[0][0], 0);
}

#[test]
fn a_scripted_truncate_gives_an_exact_length() {
    let script = Script::new().at(0, ScriptedFault::Truncate { to_len: 2 });
    let mut ch = Channel::with_script(9, FaultProfile::CLEAN(), script);
    ch.send(b"deadbeef");
    let delivered = ch.advance(Tick(1));
    assert_eq!(delivered[0], b"de");
}

// ---- Profiles and scripts ------------------------------------------------

#[test]
fn clean_profile_validates() {
    assert!(FaultProfile::CLEAN().validate().is_ok());
}

#[test]
fn out_of_range_probability_is_rejected() {
    let mut p = FaultProfile::CLEAN();
    p.loss = prob(1.5);
    assert!(p.validate().is_err());
}

#[test]
fn script_returns_rules_for_the_right_index_only() {
    let s = Script::new()
        .at(3, ScriptedFault::Drop)
        .at(5, ScriptedFault::Delay(10));
    assert_eq!(s.for_index(3), vec![ScriptedFault::Drop]);
    assert_eq!(s.for_index(4).len(), 0);
    assert_eq!(s.for_index(5), vec![ScriptedFault::Delay(10)]);
}

#[test]
fn multiple_rules_at_same_index_all_apply_in_order() {
    let s = Script::new()
        .at(0, ScriptedFault::Delay(2))
        .at(0, ScriptedFault::Corrupt { byte_offset: 0 });
    assert_eq!(s.for_index(0).len(), 2);
}

// ---- The generators --------------------------------------------------------

#[test]
fn rng_same_seed_same_stream() {
    let mut a = SplitMix64::new(42);
    let mut b = SplitMix64::new(42);
    for _ in 0..100 {
        assert_eq!(a.next_u64(), b.next_u64());
    }
}

#[test]
fn matches_published_reference_stream() {
    let mut r = SplitMix64::new(0);
    assert_eq!(r.next_u64(), 0xE220_A839_7B1D_CDAF);
    assert_eq!(r.next_u64(), 0x6E78_9E6A_A1B9_65F4);
}

#[test]
fn chance_zero_and_one_are_exact() {
    let mut r = SplitMix64::new(7);
    for _ in 0..1000 {
        assert!(!r.chance(prob(0.0)));
    }
    for _ in 0..1000 {
        assert!(r.chance(prob(1.0)));
    }
}

#[test]
fn rng_below_stays_in_bounds() {
    let mut r = SplitMix64::new(9);
    for n in 1..40 {
        for _ in 0..20 {
            assert!(r.below(n) < n);
        }
    }
}

// ---- Virtual time ------------------------------------------------------------

#[test]
fn same_seed_same_stream() {
    let mut a = WorkloadRng::new(1);
    let mut b = WorkloadRng::new(1);
    for _ in 0..50 {
        assert_eq!(a.next_u64(), b.next_u64());
    }
}

#[test]
fn below_stays_in_bounds() {
    let mut r = WorkloadRng::new(3);
    for n in 1..30 {
        for _ in 0..10 {
            assert!(r.below(n) < n);
        }
    }
}

#[test]
fn advance_and_subtract() {
    let a = Tick(10);
    let b = a.advance(5);
    assert_eq!(b, Tick(15));
    assert_eq!(b - a, 5);
    assert_eq!(a - b, 0);
}

#[test]
fn ordering_is_by_value() {
    assert!(Tick(3) < Tick(4));
    assert!(Tick::ZERO() < Tick(1));
}

// ---- Statistics over many seeds --------------------------------------------

fn run(
    seed: u64,
    profile: FaultProfile,
    payloads: &[Vec<u8>],
) -> (Vec<Vec<u8>>, distrans::channel::FaultStats) {
    let mut ch = Channel::new(seed, profile);
    for p in payloads {
        ch.send(p);
    }
    let delivered = ch.advance(Tick(1000));
    (delivered, ch.stats())
}

#[test]
fn different_seeds_produce_different_outcomes_at_a_mid_band_probability() {
    let mut profile = FaultProfile::CLEAN();
    profile.loss = prob(0.5);
    let payloads: Vec<Vec<u8>> = (0..500u32).map(|i| i.to_le_bytes().to_vec()).collect();

    let (baseline, _) = run(1000, profile, &payloads);
    let mut distinct = std::collections::HashSet::new();
    distinct.insert(baseline);
    for seed in 0..16u64 {
        distinct.insert(run(seed, profile, &payloads).0);
    }
    assert!(
        distinct.len() > 1,
        "16 seeds all agreed — RNG isn't being consumed"
    );
}

#[test]
fn observed_fault_rates_match_configured_probabilities() {
    const N: u64 = 20_000;
    const TOLERANCE: f64 = 0.03;

    for &p in &[0.01, 0.1, 0.3, 0.5, 0.9] {
        for seed in [1u64, 2, 3] {
            let mut loss_profile = FaultProfile::CLEAN();
            loss_profile.loss = prob(p);
            let mut ch = Channel::new(seed, loss_profile);
            for _ in 0..N {
                ch.send(b"x");
            }
            ch.advance(Tick(10));
            let rate = ch.stats().dropped as f64 / N as f64;
            assert!(
                (rate - p).abs() < TOLERANCE,
                "loss p={p} seed={seed}: observed {rate}, expected ~{p}"
            );

            let mut dup_profile = FaultProfile::CLEAN();
            dup_profile.duplication = prob(p);
            let mut ch = Channel::new(seed, dup_profile);
            for _ in 0..N {
                ch.send(b"x");
            }
            ch.advance(Tick(10));
            let rate = ch.stats().duplicated as f64 / N as f64;
            assert!(
                (rate - p).abs() < TOLERANCE,
                "duplication p={p} seed={seed}: observed {rate}, expected ~{p}"
            );

            let mut corrupt_profile = FaultProfile::CLEAN();
            corrupt_profile.corruption = prob(p);
            let mut ch = Channel::new(seed, corrupt_profile);
            for _ in 0..N {
                ch.send(b"deadbeef");
            }
            ch.advance(Tick(10));
            let rate = ch.stats().corrupted as f64 / N as f64;
            assert!(
                (rate - p).abs() < TOLERANCE,
                "corruption p={p} seed={seed}: observed {rate}, expected ~{p}"
            );

            let mut trunc_profile = FaultProfile::CLEAN();
            trunc_profile.truncation = prob(p);
            let mut ch = Channel::new(seed, trunc_profile);
            for _ in 0..N {
                ch.send(b"deadbeef");
            }
            ch.advance(Tick(10));
            let rate = ch.stats().truncated as f64 / N as f64;
            assert!(
                (rate - p).abs() < TOLERANCE,
                "truncation p={p} seed={seed}: observed {rate}, expected ~{p}"
            );
        }
    }
}

// ---- No physical time ----------------------------------------------------------

const FORBIDDEN: &[&str] = &[
    "std::time",
    "SystemTime",
    "Instant",
    "UNIX_EPOCH",
    "chrono",
    "time::OffsetDateTime",
];

fn code_part(line: &str) -> &str {
    line.split("//").next().unwrap_or("")
}

#[test]
fn the_scanner_would_catch_a_violation() {
    assert!(FORBIDDEN
        .iter()
        .any(|n| code_part("let t = std::time::Instant::now();").contains(n)));
    assert!(!FORBIDDEN
        .iter()
        .any(|n| code_part("// never call Instant::now()").contains(n)));
}

// ---- Further cases -------------------------------------------------------------

#[test]
fn the_same_seed_and_profile_replay_exactly() {
    let mut profile = FaultProfile::CLEAN();
    profile.loss = prob(0.3);
    profile.duplication = prob(0.2);
    profile.reorder_max_delay = 4;
    profile.corruption = prob(0.2);
    profile.truncation = prob(0.1);
    let payloads: Vec<Vec<u8>> = (0..40u8).map(|i| vec![i; (i % 7) as usize]).collect();
    assert_eq!(run(77, profile, &payloads), run(77, profile, &payloads));
}

#[test]
fn each_probability_out_of_range_is_named() {
    let mut p = FaultProfile::CLEAN();
    p.duplication = PROB_ONE + 1;
    assert_eq!(p.validate(), Err("duplication must be in [0.0, 1.0]"));
    let mut p = FaultProfile::CLEAN();
    p.corruption = PROB_ONE + 1;
    assert_eq!(p.validate(), Err("corruption must be in [0.0, 1.0]"));
    let mut p = FaultProfile::CLEAN();
    p.truncation = u64::MAX;
    assert_eq!(p.validate(), Err("truncation must be in [0.0, 1.0]"));
    let mut p = FaultProfile::CLEAN();
    p.loss = PROB_ONE;
    assert_eq!(p.validate(), Ok(()));
}

#[test]
fn a_scripted_delay_and_duplicate_apply_to_their_datagram() {
    let script = Script::new()
        .at(0, ScriptedFault::Delay(3))
        .at(1, ScriptedFault::Duplicate);
    let mut ch = Channel::with_script(4, FaultProfile::CLEAN(), script);
    ch.send(b"late");
    ch.send(b"twice");
    assert_eq!(ch.advance(Tick(1)), vec![b"twice".to_vec(), b"twice".to_vec()]);
    assert_eq!(ch.advance(Tick(4)), vec![b"late".to_vec()]);
}

#[test]
fn advance_saturates_at_the_end_of_time() {
    assert_eq!(Tick(u64::MAX - 1).advance(5), Tick(u64::MAX));
}

// ---- How much damage one datagram can take ----------------------------------

#[test]
fn corruption_and_truncation_together_change_at_most_one_byte_of_a_prefix() {
    let mut profile = FaultProfile::CLEAN();
    profile.corruption = prob(1.0);
    profile.truncation = prob(1.0);
    profile.reorder_max_delay = 7;
    let sent = b"the quick brown fox jumps".to_vec();
    let mut ch = Channel::new(11, profile);
    for _ in 0..100 {
        ch.send(&sent);
    }
    assert_eq!(ch.advance(Tick(0)), Vec::<Vec<u8>>::new());
    let delivered = ch.advance(Tick(8));
    assert_eq!(delivered.len(), 100);
    for d in &delivered {
        assert!(d.len() <= sent.len());
        let differing = d.iter().zip(&sent).filter(|(a, b)| a != b).count();
        assert!(differing <= 1, "{differing} bytes differ in {d:?}");
    }
}

#[test]
fn a_clean_channel_delivers_each_send_exactly_one_tick_later() {
    let mut ch = Channel::new(9, FaultProfile::CLEAN());
    for t in 0..5u64 {
        let delivered = ch.advance(Tick(t));
        if t == 0 {
            assert!(delivered.is_empty());
        } else {
            assert_eq!(delivered, vec![vec![(t - 1) as u8; 3]]);
        }
        ch.send(&[t as u8; 3]);
        assert_eq!(ch.next_arrival(), Some(Tick(t + 1)));
    }
    assert_eq!(ch.advance(Tick(5)), vec![vec![4u8; 3]]);
    assert_eq!(ch.stats().delivered, 5);
}
