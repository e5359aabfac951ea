//! Framing and integrity: a versioned 12-byte header, the payload, and a
//! CRC-32C trailer over everything before it.
//!
//! Wire format (multi-byte integers little-endian):
//! ```text
//! byte 0:      version (only VERSION is accepted)
//! byte 1:      frame type (opaque here)
//! bytes 2..6:  sequence number (u32)
//! bytes 6..8:  flags (u16)
//! bytes 8..12: payload length (u32)
//! bytes 12..12+len: payload
//! last 4 bytes: CRC-32C over every preceding byte
//! ```

pub mod crc32c;

use crate::le::{append, copy_range, get_u16, get_u32, lemma_le_roundtrips, put_u16, put_u32};
use vstd::bytes::*;
use vstd::prelude::*;

pub use self::crc32c::{crc32c, spec_crc32c};
use self::crc32c::{crc_bytes, crc_of, lemma_crc_bytes};

verus! {

pub const VERSION: u8 = 1;

pub const HEADER_LEN: usize = 12;

pub const CRC_LEN: usize = 4;

pub const MIN_FRAME_LEN: usize = 16;

#[derive(Debug, Clone, PartialEq, Eq)]
pub struct Frame {
    pub frame_type: u8,
    pub sequence: u32,
    pub flags: u16,
    pub payload: Vec<u8>,
}

/// A frame as a mathematical value.
pub struct FrameModel {
    pub frame_type: u8,
    pub sequence: u32,
    pub flags: u16,
    pub payload: Seq<u8>,
}

impl View for Frame {
    type V = FrameModel;

    open spec fn view(&self) -> FrameModel {
        FrameModel {
            frame_type: self.frame_type,
            sequence: self.sequence,
            flags: self.flags,
            payload: self.payload@,
        }
    }
}

/// Why a datagram is not a valid frame. Each check has its own variant.
#[derive(Debug, Clone, Copy, PartialEq, Eq, Structural)]
pub enum DecodeError {
    TooShort { len: usize },
    UnsupportedVersion { found: u8 },
    LengthMismatch { declared: u32, available: usize },
    ChecksumMismatch { computed: u32, claimed: u32 },
}

/// Everything before the CRC trailer.
pub open spec fn spec_header_and_payload(f: FrameModel) -> Seq<u8> {
    seq![VERSION, f.frame_type] + spec_u32_to_le_bytes(f.sequence) + spec_u16_to_le_bytes(f.flags)
        + spec_u32_to_le_bytes(f.payload.len() as u32) + f.payload
}

/// The wire encoding of a frame.
pub open spec fn spec_encode(f: FrameModel) -> Seq<u8> {
    let body = spec_header_and_payload(f);
    body + crc_bytes(spec_crc32c(body))
}

/// What `decode` makes of a datagram: the checks in order, length first,
/// then version, then the declared length, then the checksum.
pub open spec fn spec_decode(d: Seq<u8>) -> Result<FrameModel, DecodeError> {
    if d.len() < MIN_FRAME_LEN {
        Err(DecodeError::TooShort { len: d.len() as usize })
    } else if d[0] != VERSION {
        Err(DecodeError::UnsupportedVersion { found: d[0] })
    } else {
        let declared = spec_u32_from_le_bytes(d.subrange(8, 12));
        let available = d.len() - MIN_FRAME_LEN;
        if declared != available {
            Err(DecodeError::LengthMismatch { declared, available: available as usize })
        } else {
            let end = d.len() - CRC_LEN;
            let claimed = crc_of(d.subrange(end, d.len() as int));
            let computed = spec_crc32c(d.subrange(0, end));
            if computed != claimed {
                Err(DecodeError::ChecksumMismatch { computed, claimed })
            } else {
                Ok(
                    FrameModel {
                        frame_type: d[1],
                        sequence: spec_u32_from_le_bytes(d.subrange(2, 6)),
                        flags: spec_u16_from_le_bytes(d.subrange(6, 8)),
                        payload: d.subrange(HEADER_LEN as int, end),
                    },
                )
            }
        }
    }
}

/// Encodes `frame`; always succeeds.
pub fn encode(frame: &Frame) -> (out: Vec<u8>)
    ensures
        out@ == spec_encode(frame@),
{
    let mut out: Vec<u8> = Vec::new();
    out.push(VERSION);
    out.push(frame.frame_type);
    put_u32(&mut out, frame.sequence);
    put_u16(&mut out, frame.flags);
    put_u32(&mut out, frame.payload.len() as u32);
    append(&mut out, frame.payload.as_slice());
    assert(out@ =~= spec_header_and_payload(frame@));
    let crc = crc32c(out.as_slice());
    let ghost body = out@;
    out.push((crc & 0xff) as u8);
    out.push(((crc >> 8) & 0xff) as u8);
    out.push(((crc >> 16) & 0xff) as u8);
    out.push(((crc >> 24) & 0xff) as u8);
    assert(out@ =~= body + crc_bytes(crc));
    out
}

/// Decodes a raw datagram; never panics, and never returns a frame that
/// fails any of the checks.
pub fn decode(datagram: &[u8]) -> (r: Result<Frame, DecodeError>)
    ensures
        match r {
            Ok(f) => spec_decode(datagram@) == Ok::<FrameModel, DecodeError>(f@),
            Err(e) => spec_decode(datagram@) == Err::<FrameModel, DecodeError>(e),
        },
{
    let len = datagram.len();
    if len < MIN_FRAME_LEN {
        return Err(DecodeError::TooShort { len });
    }
    let version = datagram[0];
    if version != VERSION {
        return Err(DecodeError::UnsupportedVersion { found: version });
    }
    let frame_type = datagram[1];
    let sequence = get_u32(datagram, 2);
    let flags = get_u16(datagram, 6);
    let declared_len = get_u32(datagram, 8);
    let available = len - MIN_FRAME_LEN;
    if declared_len as usize != available {
        return Err(DecodeError::LengthMismatch { declared: declared_len, available });
    }
    let payload_end = HEADER_LEN + available;
    let claimed_crc = (datagram[payload_end] as u32) | ((datagram[payload_end + 1] as u32) << 8)
        | ((datagram[payload_end + 2] as u32) << 16) | ((datagram[payload_end + 3] as u32) << 24);
    assert(claimed_crc == crc_of(datagram@.subrange(payload_end as int, len as int)));
    let body = vstd::slice::slice_subrange(datagram, 0, payload_end);
    let computed_crc = crc32c(body);
    if computed_crc != claimed_crc {
        return Err(DecodeError::ChecksumMismatch { computed: computed_crc, claimed: claimed_crc });
    }
    let payload = copy_range(datagram, HEADER_LEN, payload_end);
    Ok(Frame { frame_type, sequence, flags, payload })
}

/// Decoding an encoded frame gives the frame back, for every frame whose
/// payload length fits the 32-bit length field.
pub proof fn lemma_decode_encode(f: FrameModel)
    requires
        f.payload.len() <= u32::MAX,
    ensures
        spec_decode(spec_encode(f)) == Ok::<FrameModel, DecodeError>(f),
{
    lemma_le_roundtrips();
    let body = spec_header_and_payload(f);
    let d = spec_encode(f);
    let n = f.payload.len();
    assert(body.len() == 12 + n);
    assert(d.len() == 16 + n);
    assert(d.subrange(8, 12) =~= spec_u32_to_le_bytes(n as u32));
    assert(d.subrange(2, 6) =~= spec_u32_to_le_bytes(f.sequence));
    assert(d.subrange(6, 8) =~= spec_u16_to_le_bytes(f.flags));
    assert(d.subrange(0, d.len() - 4) =~= body);
    assert(d.subrange(d.len() - 4, d.len() as int) =~= crc_bytes(spec_crc32c(body)));
    lemma_crc_bytes(spec_crc32c(body), d.subrange(d.len() - 4, d.len() as int));
    assert(d.subrange(12, d.len() - 4) =~= f.payload);
    assert(d[0] == VERSION);
    assert(d[1] == f.frame_type);
}

/// Whenever an encoding decodes at all, it decodes to the frame encoded
/// (an oversized payload's length field wraps, and decoding rejects it).
pub proof fn lemma_encode_decodes_to_itself(f: FrameModel)
    ensures
        spec_decode(spec_encode(f)) is Ok ==> spec_decode(spec_encode(f)) == Ok::<
            FrameModel,
            DecodeError,
        >(f),
{
    lemma_le_roundtrips();
    if f.payload.len() <= u32::MAX {
        lemma_decode_encode(f);
    } else {
        let d = spec_encode(f);
        assert(d.subrange(8, 12) =~= spec_u32_to_le_bytes(f.payload.len() as u32));
    }
}

/// A datagram that decodes is exactly the encoding of the frame it
/// decodes to: decoding never accepts a second spelling of a frame.
pub proof fn lemma_encode_decode(d: Seq<u8>)
    requires
        spec_decode(d) is Ok,
    ensures
        spec_encode(spec_decode(d)->Ok_0) == d,
{
    lemma_le_roundtrips();
    let f = spec_decode(d)->Ok_0;
    let end = d.len() - 4;
    let n = f.payload.len();
    assert(n == d.len() - 16);
    assert(spec_u32_to_le_bytes(spec_u32_from_le_bytes(d.subrange(8, 12))) == d.subrange(8, 12));
    assert(spec_u32_to_le_bytes(spec_u32_from_le_bytes(d.subrange(2, 6))) == d.subrange(2, 6));
    assert(spec_u16_to_le_bytes(spec_u16_from_le_bytes(d.subrange(6, 8))) == d.subrange(6, 8));
    let claimed = crc_of(d.subrange(end, d.len() as int));
    lemma_crc_bytes(claimed, d.subrange(end, d.len() as int));
    assert(spec_header_and_payload(f) =~= d.subrange(0, end));
    assert(spec_encode(f) =~= d);
}

/// Damage confined to one byte of an encoded frame is always rejected,
/// by the version check, the length check or the checksum; every
/// single-bit flip is such damage. Decoding never turns it into a frame.
/// (The encoding of a payload too long for the length field never
/// decodes, damaged or not.)
pub proof fn lemma_one_damaged_byte_is_rejected(f: FrameModel, i: int, x: u8)
    requires
        0 <= i < spec_encode(f).len(),
        x != spec_encode(f)[i],
    ensures
        spec_decode(spec_encode(f).update(i, x)) is Err,
{
    lemma_le_roundtrips();
    let d = spec_encode(f);
    let e = d.update(i, x);
    let n = f.payload.len();
    let end = d.len() - 4;
    assert(d.len() == 16 + n);
    if n <= u32::MAX {
        lemma_decode_encode(f);
        if i == 0 {
            assert(e[0] != VERSION);
        } else if 8 <= i < 12 {
            let s1 = d.subrange(8, 12);
            let s2 = e.subrange(8, 12);
            assert(s1[i - 8] != s2[i - 8]);
            if spec_u32_from_le_bytes(s1) == spec_u32_from_le_bytes(s2) {
                assert(spec_u32_to_le_bytes(spec_u32_from_le_bytes(s1)) == s1);
                assert(spec_u32_to_le_bytes(spec_u32_from_le_bytes(s2)) == s2);
            }
            assert(spec_u32_from_le_bytes(s1) == n);
        } else if i < end {
            assert(e.subrange(8, 12) =~= d.subrange(8, 12));
            assert(e.subrange(end, e.len() as int) =~= d.subrange(end, d.len() as int));
            let b1 = d.subrange(0, end);
            let b2 = e.subrange(0, end);
            assert(b1[i] != b2[i]);
            crc32c::lemma_crc_detects_one_byte(b1, b2, i);
        } else {
            assert(e.subrange(8, 12) =~= d.subrange(8, 12));
            assert(e.subrange(0, end) =~= d.subrange(0, end));
            let t1 = d.subrange(end, d.len() as int);
            let t2 = e.subrange(end, e.len() as int);
            assert(t1[i - end] != t2[i - end]);
            lemma_crc_bytes(0, t1);
            lemma_crc_bytes(0, t2);
        }
    }
}

/// A strict prefix of an encoded frame never decodes to that frame, and
/// when the payload fits the length field it does not decode at all.
pub proof fn lemma_truncated_prefix_is_not_the_frame(f: FrameModel, k: int)
    requires
        0 <= k < spec_encode(f).len(),
    ensures
        spec_decode(spec_encode(f).take(k)) != Ok::<FrameModel, DecodeError>(f),
        f.payload.len() <= u32::MAX ==> spec_decode(spec_encode(f).take(k)) is Err,
{
    lemma_le_roundtrips();
    let d = spec_encode(f);
    assert(d.len() == 16 + f.payload.len());
    if f.payload.len() <= u32::MAX && k >= MIN_FRAME_LEN {
        lemma_decode_encode(f);
        assert(d.take(k).subrange(8, 12) =~= d.subrange(8, 12));
    }
}

/// A strict prefix of an encoded frame that decodes at all decodes to a
/// frame of the same type, sequence and flags, with a prefix of the
/// payload.
pub proof fn lemma_prefix_decodes_to_prefix(f: FrameModel, k: int)
    requires
        0 <= k < spec_encode(f).len(),
    ensures
        spec_decode(spec_encode(f).take(k)) matches Ok(g) ==> {
            &&& g.frame_type == f.frame_type
            &&& g.sequence == f.sequence
            &&& g.flags == f.flags
            &&& 0 <= k - 16 <= f.payload.len()
            &&& g.payload == f.payload.take(k - 16)
        },
{
    lemma_le_roundtrips();
    let d = spec_encode(f);
    let e = d.take(k);
    assert(d.len() == 16 + f.payload.len());
    if k >= MIN_FRAME_LEN {
        assert(e.subrange(2, 6) =~= d.subrange(2, 6));
        assert(e.subrange(6, 8) =~= d.subrange(6, 8));
        assert(d.subrange(2, 6) =~= spec_u32_to_le_bytes(f.sequence));
        assert(d.subrange(6, 8) =~= spec_u16_to_le_bytes(f.flags));
        assert(e.subrange(HEADER_LEN as int, k - 4) =~= f.payload.take(k - 16));
    }
}

/// Damage confined to four consecutive bytes of an encoded frame,
/// trailer included, is always rejected. Every burst of flipped bits up
/// to 25 bits long lies within four consecutive bytes, and so does every
/// burst up to 32 bits long that starts at a byte's first bit.
pub proof fn lemma_four_damaged_bytes_are_rejected(f: FrameModel, e: Seq<u8>, j: int)
    requires
        e.len() == spec_encode(f).len(),
        0 <= j <= e.len() - 4,
        forall|i: int| 0 <= i < e.len() && !(j <= i < j + 4) ==> e[i] == spec_encode(f)[i],
        e != spec_encode(f),
    ensures
        spec_decode(e) is Err,
{
    let d = spec_encode(f);
    if spec_decode(e) is Ok {
        let end = e.len() - 4;
        let body = e.subrange(0, end);
        let t = e.subrange(end, e.len() as int);
        assert(spec_crc32c(body) == crc_of(t));
        lemma_crc_bytes(0, t);
        assert(e =~= body + crc_bytes(spec_crc32c(body)));
        let b0 = spec_header_and_payload(f);
        crc32c::lemma_residue(body, b0);
        // The two differ only within the window.
        let p = d.take(j);
        let q = d.skip(j + 4);
        let a = d.subrange(j, j + 4);
        let a2 = e.subrange(j, j + 4);
        assert(d =~= p + a + q);
        assert(e =~= p + a2 + q) by {
            assert forall|i: int| 0 <= i < e.len() implies #[trigger] e[i] == (p + a2 + q)[i] by {
                if i < j {
                    assert(e[i] == d[i]);
                } else if i >= j + 4 {
                    assert(e[i] == d[i]);
                }
            }
        }
        assert(a != a2) by {
            if a == a2 {
                assert(e =~= d);
            }
        }
        crc32c::lemma_crc_detects_four_bytes(p, a, a2, q);
    }
}

/// Whether bit `t` (bit `t % 8` of byte `t / 8`, the least significant
/// bit first) differs between `d` and `e`.
pub open spec fn bit_differs(d: Seq<u8>, e: Seq<u8>, t: int) -> bool {
    (((d[t / 8] ^ e[t / 8]) as u32) >> ((t % 8) as u32)) & 1 == 1
}

/// Bytes that differ differ in some bit.
proof fn lemma_some_bit_differs(d: Seq<u8>, e: Seq<u8>, i: int)
    requires
        0 <= i < d.len(),
        i < e.len(),
        d[i] != e[i],
    ensures
        exists|k: int| 0 <= k < 8 && #[trigger] bit_differs(d, e, 8 * i + k),
{
    let x = d[i];
    let y = e[i];
    let z = (x ^ y) as u32;
    assert((z & 1 == 1 || (z >> 1u32) & 1 == 1 || (z >> 2u32) & 1 == 1 || (z >> 3u32) & 1 == 1 || (z
        >> 4u32) & 1 == 1 || (z >> 5u32) & 1 == 1 || (z >> 6u32) & 1 == 1 || (z >> 7u32) & 1 == 1)
        && z >> 0u32 == z) by (bit_vector)
        requires
            x != y,
            z == (x ^ y) as u32,
    ;
    if z & 1 == 1 {
        assert(bit_differs(d, e, 8 * i + 0));
    } else if (z >> 1u32) & 1 == 1 {
        assert(bit_differs(d, e, 8 * i + 1));
    } else if (z >> 2u32) & 1 == 1 {
        assert(bit_differs(d, e, 8 * i + 2));
    } else if (z >> 3u32) & 1 == 1 {
        assert(bit_differs(d, e, 8 * i + 3));
    } else if (z >> 4u32) & 1 == 1 {
        assert(bit_differs(d, e, 8 * i + 4));
    } else if (z >> 5u32) & 1 == 1 {
        assert(bit_differs(d, e, 8 * i + 5));
    } else if (z >> 6u32) & 1 == 1 {
        assert(bit_differs(d, e, 8 * i + 6));
    } else {
        assert(bit_differs(d, e, 8 * i + 7));
    }
}

/// The bits of a byte difference below bit `s` are clear, read off bit
/// by bit.
proof fn lemma_low_bits_clear(z: u32, s: u32)
    requires
        z < 256,
        0 < s < 8,
        0 < s ==> z & 1 != 1,
        1 < s ==> (z >> 1u32) & 1 != 1,
        2 < s ==> (z >> 2u32) & 1 != 1,
        3 < s ==> (z >> 3u32) & 1 != 1,
        4 < s ==> (z >> 4u32) & 1 != 1,
        5 < s ==> (z >> 5u32) & 1 != 1,
        6 < s ==> (z >> 6u32) & 1 != 1,
    ensures
        z & (((1u32 << s) - 1) as u32) == 0,
{
    assert(z & (((1u32 << s) - 1) as u32) == 0) by (bit_vector)
        requires
            z < 256,
            0 < s < 8,
            0 < s ==> z & 1 != 1,
            1 < s ==> (z >> 1u32) & 1 != 1,
            2 < s ==> (z >> 2u32) & 1 != 1,
            3 < s ==> (z >> 3u32) & 1 != 1,
            4 < s ==> (z >> 4u32) & 1 != 1,
            5 < s ==> (z >> 5u32) & 1 != 1,
            6 < s ==> (z >> 6u32) & 1 != 1,
    ;
}

/// The bits of a byte difference from bit `s` on are clear, read off bit
/// by bit.
proof fn lemma_high_bits_clear(z: u32, s: u32)
    requires
        z < 256,
        0 < s < 8,
        s <= 1 ==> (z >> 1u32) & 1 != 1,
        s <= 2 ==> (z >> 2u32) & 1 != 1,
        s <= 3 ==> (z >> 3u32) & 1 != 1,
        s <= 4 ==> (z >> 4u32) & 1 != 1,
        s <= 5 ==> (z >> 5u32) & 1 != 1,
        s <= 6 ==> (z >> 6u32) & 1 != 1,
        (z >> 7u32) & 1 != 1,
    ensures
        z >> s == 0,
{
    assert(z >> s == 0) by (bit_vector)
        requires
            z < 256,
            0 < s < 8,
            s <= 1 ==> (z >> 1u32) & 1 != 1,
            s <= 2 ==> (z >> 2u32) & 1 != 1,
            s <= 3 ==> (z >> 3u32) & 1 != 1,
            s <= 4 ==> (z >> 4u32) & 1 != 1,
            s <= 5 ==> (z >> 5u32) & 1 != 1,
            s <= 6 ==> (z >> 6u32) & 1 != 1,
            (z >> 7u32) & 1 != 1,
    ;
}

/// Every burst of up to 32 flipped bits in an encoded frame, trailer
/// included, is rejected: whatever bits were flipped, so long as all lie
/// within 32 consecutive bit positions, decoding fails.
#[verifier::rlimit(50)]
#[verifier::spinoff_prover]
pub proof fn lemma_bursts_are_rejected(f: FrameModel, e: Seq<u8>, start: int)
    requires
        e.len() == spec_encode(f).len(),
        e != spec_encode(f),
        0 <= start,
        forall|t: int|
            0 <= t < 8 * e.len() && #[trigger] bit_differs(spec_encode(f), e, t) ==> start <= t
                < start + 32,
    ensures
        spec_decode(e) is Err,
{
    let d = spec_encode(f);
    let n = d.len() as int;
    lemma_le_roundtrips();
    lemma_crc_bytes(spec_crc32c(spec_header_and_payload(f)), seq![0u8, 0u8, 0u8, 0u8]);
    assert(n >= 16);
    let j = start / 8;
    let s = (start % 8) as u32;
    assert(start == 8 * j + s);
    // Every differing byte lies within bytes `j` to `j + 4`, and before
    // `j + 4` when the burst starts on a byte boundary.
    assert forall|i: int| 0 <= i < n && d[i] != e[i] implies j <= i && (i < j + 4 || (s > 0 && i
        == j + 4)) by {
        lemma_some_bit_differs(d, e, i);
        let k = choose|k: int| 0 <= k < 8 && #[trigger] bit_differs(d, e, 8 * i + k);
        assert(0 <= 8 * i + k < 8 * e.len());
    }
    if s == 0 || j + 5 > n {
        let w = if j + 4 <= n {
            j
        } else {
            n - 4
        };
        lemma_four_damaged_bytes_are_rejected(f, e, w);
    } else {
        let p = d.take(j);
        let a = d.subrange(j, j + 5);
        let b = e.subrange(j, j + 5);
        let q = d.skip(j + 5);
        assert(d =~= p + a + q);
        assert(e =~= p + b + q) by {
            assert forall|i: int| 0 <= i < e.len() implies #[trigger] e[i] == (p + b + q)[i] by {
                if i < j || i >= j + 5 {
                    assert(e[i] == d[i]);
                }
            }
        }
        assert(a != b) by {
            if a == b {
                assert(e =~= d);
            }
        }
        // Below bit `s` of the first byte nothing flipped, nor from bit `s`
        // of the last.
        let z0 = (a[0] ^ b[0]) as u32;
        let z4 = (a[4] ^ b[4]) as u32;
        assert(z0 < 256 && z4 < 256 && z0 >> 0u32 == z0 && z4 >> 0u32 == z4) by {
            let (x, y, u, v) = (a[0], b[0], a[4], b[4]);
            assert(z0 < 256 && z4 < 256 && z0 >> 0u32 == z0 && z4 >> 0u32 == z4) by (bit_vector)
                requires
                    z0 == (x ^ y) as u32,
                    z4 == (u ^ v) as u32,
            ;
        }
        assert(!bit_differs(d, e, 8 * j + 0) && (1 < s ==> !bit_differs(d, e, 8 * j + 1)) && (2 < s
            ==> !bit_differs(d, e, 8 * j + 2)) && (3 < s ==> !bit_differs(d, e, 8 * j + 3)) && (4
            < s ==> !bit_differs(d, e, 8 * j + 4)) && (5 < s ==> !bit_differs(d, e, 8 * j + 5)) && (6
            < s ==> !bit_differs(d, e, 8 * j + 6)));
        lemma_low_bits_clear(z0, s);
        let m = j + 4;
        assert((s <= 1 ==> !bit_differs(d, e, 8 * m + 1)) && (s <= 2 ==> !bit_differs(d, e, 8 * m + 2))
            && (s <= 3 ==> !bit_differs(d, e, 8 * m + 3)) && (s <= 4 ==> !bit_differs(d, e, 8 * m + 4))
            && (s <= 5 ==> !bit_differs(d, e, 8 * m + 5)) && (s <= 6 ==> !bit_differs(d, e, 8 * m + 6))
            && !bit_differs(d, e, 8 * m + 7));
        lemma_high_bits_clear(z4, s);
        crc32c::lemma_crc_detects_offset_window(p, a, b, q, s);
        if spec_decode(e) is Ok {
            let end = e.len() - 4;
            let body = e.subrange(0, end);
            let t = e.subrange(end, e.len() as int);
            assert(spec_crc32c(body) == crc_of(t));
            lemma_crc_bytes(0, t);
            assert(e =~= body + crc_bytes(spec_crc32c(body)));
            crc32c::lemma_residue(body, spec_header_and_payload(f));
        }
    }
}

/// An odd number of bit flips anywhere in an encoded frame, trailer
/// included, is always rejected: the checksum's generator has an even
/// number of terms, so no error of odd weight goes unnoticed.
pub proof fn lemma_odd_flips_are_rejected(f: FrameModel, e: Seq<u8>)
    requires
        f.payload.len() <= u32::MAX,
        e.len() == spec_encode(f).len(),
        crc32c::flip_parity(spec_encode(f), e) == 1,
    ensures
        spec_decode(e) is Err,
{
    lemma_le_roundtrips();
    lemma_decode_encode(f);
    let d = spec_encode(f);
    let end = d.len() - 4;
    assert(d.len() == 16 + f.payload.len());
    if e[0] == VERSION && spec_u32_from_le_bytes(e.subrange(8, 12)) == e.len() - 16 {
        let b1 = d.take(end);
        let b2 = e.take(end);
        let t1 = d.skip(end);
        let t2 = e.skip(end);
        assert(b1 + t1 =~= d);
        assert(b2 + t2 =~= e);
        crc32c::lemma_flip_parity_concat(b1, t1, b2, t2);
        crc32c::lemma_crc_flip_parity(b1, b2);
        let c1 = spec_crc32c(b1);
        let c2 = crc_of(t2);
        assert(b1 =~= spec_header_and_payload(f));
        assert(t1 =~= crc_bytes(c1));
        lemma_crc_bytes(c1, t2);
        assert(t2 == crc_bytes(c2));
        crc32c::lemma_word_flip_parity(c1, c2);
        assert(e.subrange(0, end) =~= b2);
        assert(e.subrange(end, e.len() as int) =~= t2);
        if spec_crc32c(b2) == c2 {
            let r1 = crc32c::crc_register(b1);
            let r2 = crc32c::crc_register(b2);
            assert(c1 == !r1 && c2 == !r2);
            let p = crc32c::parity32(r1 ^ r2);
            assert(!r1 ^ !r2 == r1 ^ r2 && p ^ p == 0) by (bit_vector);
        }
    }
}

} // verus!
