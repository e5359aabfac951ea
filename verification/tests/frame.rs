use distrans::channel::rng::PROB_ONE;
use distrans::channel::{Channel, FaultProfile, Tick};
use distrans::frame::{crc32c, decode, encode, DecodeError, Frame, HEADER_LEN, MIN_FRAME_LEN};

fn sample() -> Frame {
    Frame {
        frame_type: 7,
        sequence: 42,
        flags: 0b1010,
        payload: b"hello, hostile world".to_vec(),
    }
}

// ---- The checksum ------------------------------------------------------------

#[test]
fn matches_known_test_vector() {
    assert_eq!(crc32c(b"123456789"), 0xE306_9283);
}

#[test]
fn empty_input_has_a_fixed_value() {
    assert_eq!(crc32c(b""), 0);
}

#[test]
fn different_inputs_usually_differ() {
    assert_ne!(crc32c(b"hello"), crc32c(b"world"));
}

#[test]
fn every_single_bit_flip_changes_the_crc() {
    let base = b"the quick brown fox".to_vec();
    let base_crc = crc32c(&base);
    for byte_idx in 0..base.len() {
        for bit in 0..8u8 {
            let mut mutated = base.clone();
            mutated[byte_idx] ^= 1 << bit;
            assert_ne!(
                crc32c(&mutated),
                base_crc,
                "single bit flip at byte {byte_idx} bit {bit} went undetected"
            );
        }
    }
}

// ---- Frames --------------------------------------------------------------------

#[test]
fn round_trips() {
    let f = sample();
    assert_eq!(decode(&encode(&f)), Ok(f));
}

#[test]
fn round_trips_with_empty_payload() {
    let f = Frame {
        frame_type: 0,
        sequence: 0,
        flags: 0,
        payload: vec![],
    };
    assert_eq!(decode(&encode(&f)), Ok(f));
}

#[test]
fn round_trips_at_max_u16_flags_and_type() {
    let f = Frame {
        frame_type: 255,
        sequence: u32::MAX,
        flags: u16::MAX,
        payload: vec![9; 300],
    };
    assert_eq!(decode(&encode(&f)), Ok(f));
}

#[test]
fn empty_datagram_is_too_short_not_a_panic() {
    assert_eq!(decode(&[]), Err(DecodeError::TooShort { len: 0 }));
}

#[test]
fn a_datagram_one_byte_short_of_minimum_is_too_short() {
    let datagram = vec![0u8; MIN_FRAME_LEN - 1];
    assert_eq!(
        decode(&datagram),
        Err(DecodeError::TooShort {
            len: MIN_FRAME_LEN - 1
        })
    );
}

#[test]
fn unsupported_version_is_rejected() {
    let mut d = encode(&sample());
    d[0] = 99;
    assert_eq!(decode(&d), Err(DecodeError::UnsupportedVersion { found: 99 }));
}

#[test]
fn a_truncated_payload_is_a_length_mismatch_not_a_wrong_frame() {
    let mut d = encode(&sample());
    d.truncate(d.len() - 3);
    assert!(matches!(decode(&d), Err(DecodeError::LengthMismatch { .. })));
}

#[test]
fn a_bit_flip_in_the_payload_is_caught_by_the_checksum() {
    let mut d = encode(&sample());
    let payload_byte = HEADER_LEN;
    d[payload_byte] ^= 1;
    assert!(matches!(decode(&d), Err(DecodeError::ChecksumMismatch { .. })));
}

#[test]
fn a_bit_flip_in_the_header_is_caught_by_the_checksum() {
    let mut d = encode(&sample());
    d[2] ^= 1;
    assert!(matches!(decode(&d), Err(DecodeError::ChecksumMismatch { .. })));
}

#[test]
fn a_corrupted_length_field_is_caught_before_the_checksum_even_runs() {
    let mut d = encode(&sample());
    d[8..12].copy_from_slice(&(sample().payload.len() as u32 + 1000).to_le_bytes());
    assert!(matches!(decode(&d), Err(DecodeError::LengthMismatch { .. })));
}

#[test]
fn decode_never_panics_on_arbitrary_short_garbage() {
    for len in 0..40 {
        let garbage = vec![0xAAu8; len];
        let _ = decode(&garbage);
    }
}

#[test]
fn each_decode_error_carries_its_details() {
    let mut d = encode(&sample());
    d.push(0);
    assert_eq!(
        decode(&d),
        Err(DecodeError::LengthMismatch {
            declared: 20,
            available: 21
        })
    );
    let mut d = encode(&sample());
    let n = d.len();
    d[n - 1] ^= 0x80;
    match decode(&d) {
        Err(DecodeError::ChecksumMismatch { computed, claimed }) => {
            assert_eq!(computed ^ claimed, 0x8000_0000)
        }
        other => panic!("expected a checksum mismatch, got {other:?}"),
    }
}

// ---- Frames through a hostile channel ------------------------------------------

fn numbered(i: u32) -> Frame {
    Frame {
        frame_type: 1,
        sequence: i,
        flags: 0,
        payload: format!("payload #{i}").into_bytes(),
    }
}

fn prob(p: f64) -> u64 {
    (p * (PROB_ONE as f64)).ceil() as u64
}

#[test]
fn frames_through_a_heavily_hostile_channel_are_intact_or_typed_errors() {
    let mut profile = FaultProfile::CLEAN();
    profile.corruption = prob(0.4);
    profile.truncation = prob(0.3);
    profile.loss = 0;
    profile.duplication = 0;

    for seed in 0..40u64 {
        let mut ch = Channel::new(seed, profile);
        let frames: Vec<Frame> = (0..30).map(numbered).collect();
        for f in &frames {
            ch.send(&encode(f));
        }
        let delivered = ch.advance(Tick(10));

        let mut intact = 0;
        let mut rejected = 0;
        for (sent, datagram) in frames.iter().zip(&delivered) {
            match decode(datagram) {
                Ok(decoded) => {
                    assert_eq!(&decoded, sent, "seed {seed}: a corrupted frame decoded to a DIFFERENT valid-looking frame instead of being rejected");
                    intact += 1;
                }
                Err(
                    DecodeError::ChecksumMismatch { .. }
                    | DecodeError::LengthMismatch { .. }
                    | DecodeError::TooShort { .. }
                    | DecodeError::UnsupportedVersion { .. },
                ) => {
                    rejected += 1;
                }
            }
        }
        assert_eq!(intact + rejected, delivered.len());
    }
}

#[test]
fn with_no_faults_every_frame_arrives_decodable_and_unchanged() {
    let mut ch = Channel::new(1, FaultProfile::CLEAN());
    let frames: Vec<Frame> = (0..10).map(numbered).collect();
    for f in &frames {
        ch.send(&encode(f));
    }
    let delivered = ch.advance(Tick(5));
    assert_eq!(delivered.len(), frames.len());
    for (sent, datagram) in frames.iter().zip(&delivered) {
        assert_eq!(&decode(datagram).unwrap(), sent);
    }
}

#[test]
fn total_corruption_and_truncation_are_always_caught_never_silently_wrong() {
    let mut profile = FaultProfile::CLEAN();
    profile.corruption = prob(1.0);
    let mut ch = Channel::new(2, profile);
    let frames: Vec<Frame> = (0..50).map(numbered).collect();
    for f in &frames {
        ch.send(&encode(f));
    }
    let delivered = ch.advance(Tick(5));
    for (sent, datagram) in frames.iter().zip(&delivered) {
        if let Ok(decoded) = decode(datagram) {
            assert_eq!(&decoded, sent);
        }
    }
}

// ---- Damage is never mistaken for a frame ---------------------------------------

#[test]
fn every_single_damaged_byte_is_rejected() {
    let d = encode(&sample());
    for i in 0..d.len() {
        for x in [0u8, 1, 0x7F, 0x80, 0xFF, d[i] ^ 0x5A] {
            if x == d[i] {
                continue;
            }
            let mut damaged = d.clone();
            damaged[i] = x;
            assert!(decode(&damaged).is_err(), "byte {i} set to {x:#x} was accepted");
        }
    }
}

#[test]
fn a_damaged_trailer_byte_is_a_checksum_mismatch() {
    let d = encode(&sample());
    for i in d.len() - 4..d.len() {
        let mut damaged = d.clone();
        damaged[i] ^= 0x11;
        assert!(matches!(decode(&damaged), Err(DecodeError::ChecksumMismatch { .. })));
    }
}

#[test]
fn three_bit_flips_in_the_checked_bytes_are_rejected() {
    let d = encode(&sample());
    let checked = d.len() - 4;
    for a in [1usize, 3, 13, checked - 1] {
        for b in [2usize, 5, HEADER_LEN, checked - 2] {
            let mut damaged = d.clone();
            damaged[a] ^= 0x01;
            damaged[b] ^= 0x40;
            damaged[HEADER_LEN + 3] ^= 0x08;
            assert!(decode(&damaged).is_err(), "flips at {a}, {b} were accepted");
        }
    }
}

#[test]
fn no_strict_prefix_decodes_to_the_frame() {
    let f = sample();
    let d = encode(&f);
    for k in 0..d.len() {
        assert_ne!(decode(&d[..k]), Ok(f.clone()), "prefix of length {k} decoded");
    }
}

#[test]
fn no_strict_prefix_of_a_frame_decodes_at_all() {
    for f in [sample(), Frame { frame_type: 1, sequence: 9, flags: 3, payload: vec![] }] {
        let d = encode(&f);
        for k in 0..d.len() {
            assert!(decode(&d[..k]).is_err(), "prefix of length {k} decoded");
        }
    }
}

#[test]
fn odd_bit_flips_spanning_the_trailer_are_rejected() {
    let d = encode(&sample());
    let trailer = d.len() - 4;
    // One flip in the checked bytes and two in the trailer; then three
    // flips all in the trailer; then five spread over both.
    let cases: [&[(usize, u8)]; 3] = [
        &[(HEADER_LEN, 0x01), (trailer, 0x80), (trailer + 3, 0x02)],
        &[(trailer, 0x01), (trailer + 1, 0x10), (trailer + 2, 0x04)],
        &[(1, 0x02), (6, 0x20), (HEADER_LEN + 1, 0x01), (trailer + 1, 0x08), (trailer + 3, 0x40)],
    ];
    for flips in cases {
        let mut damaged = d.clone();
        for (i, bit) in flips {
            damaged[*i] ^= *bit;
        }
        assert!(decode(&damaged).is_err(), "flips {flips:?} were accepted");
    }
}

#[test]
fn every_burst_of_up_to_32_flipped_bits_is_rejected() {
    let d = encode(&sample());
    let bits = d.len() * 8;
    for len in [2usize, 9, 17, 25, 30, 32] {
        for start in 0..=bits - len {
            // First and last bit of the burst flipped, and every third
            // bit between them.
            let mut damaged = d.clone();
            for k in 0..len {
                if k == 0 || k == len - 1 || k % 3 == 0 {
                    let b = start + k;
                    damaged[b / 8] ^= 1 << (b % 8);
                }
            }
            assert!(decode(&damaged).is_err(), "burst of {len} at bit {start} was accepted");
        }
    }
}

#[test]
fn any_damage_to_four_aligned_bytes_is_rejected_trailer_included() {
    let d = encode(&sample());
    for j in 0..=d.len() - 4 {
        for pattern in [[0xffu8, 0xff, 0xff, 0xff], [0x80, 0, 0, 0x01], [0, 0x5a, 0xa5, 0]] {
            let mut damaged = d.clone();
            for k in 0..4 {
                damaged[j + k] ^= pattern[k];
            }
            assert!(decode(&damaged).is_err(), "damage {pattern:?} at byte {j} was accepted");
        }
    }
}
