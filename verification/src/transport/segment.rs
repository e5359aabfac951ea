//! The transport's sub-header, carried at the front of a frame's payload.
//!
//! Layout (little-endian), followed by any application data:
//! ```text
//! bytes 0..4:  cumulative ack (next contiguous byte expected)
//! byte  4:     fin_ack (nonzero: "I acknowledge your FIN")
//! byte  5:     sack range count (at most MAX_SACK_RANGES when encoded)
//! then, per range: start (u32), end (u32) — inclusive byte offsets
//! ```

use crate::le::{get_u32, lemma_le_roundtrips, put_u32};
use vstd::bytes::*;
use vstd::prelude::*;

verus! {

pub const MAX_SACK_RANGES: usize = 4;

pub const FIXED_LEN: usize = 6;

pub const RANGE_LEN: usize = 8;

/// An inclusive range of byte offsets the receiver holds out of order.
#[derive(Debug, Clone, Copy, PartialEq, Eq, Structural)]
pub struct SackRange {
    pub start: u32,
    pub end: u32,
}

#[derive(Debug, Clone, PartialEq, Eq)]
pub struct SegmentHeader {
    pub ack: u32,
    pub fin_ack: bool,
    pub sack: Vec<SackRange>,
}

/// A segment header as a mathematical value.
pub struct SegmentHeaderModel {
    pub ack: u32,
    pub fin_ack: bool,
    pub sack: Seq<SackRange>,
}

impl View for SegmentHeader {
    type V = SegmentHeaderModel;

    open spec fn view(&self) -> SegmentHeaderModel {
        SegmentHeaderModel { ack: self.ack, fin_ack: self.fin_ack, sack: self.sack@ }
    }
}

impl Default for SegmentHeader {
    fn default() -> (h: SegmentHeader)
        ensures
            h.ack == 0,
            !h.fin_ack,
            h.sack@.len() == 0,
    {
        SegmentHeader { ack: 0, fin_ack: false, sack: Vec::new() }
    }
}

/// The encoding of a list of ranges, eight bytes each.
pub open spec fn spec_encode_ranges(ranges: Seq<SackRange>) -> Seq<u8>
    decreases ranges.len(),
{
    if ranges.len() == 0 {
        Seq::empty()
    } else {
        spec_encode_ranges(ranges.drop_last()) + spec_u32_to_le_bytes(ranges.last().start)
            + spec_u32_to_le_bytes(ranges.last().end)
    }
}

/// The number of ranges that encoding keeps: at most `MAX_SACK_RANGES`.
pub open spec fn encoded_range_count(n: nat) -> nat {
    if n < MAX_SACK_RANGES {
        n
    } else {
        MAX_SACK_RANGES as nat
    }
}

/// The encoding of a header: only its first `MAX_SACK_RANGES` ranges are
/// written.
pub open spec fn spec_encode_header(h: SegmentHeaderModel) -> Seq<u8> {
    let k = encoded_range_count(h.sack.len());
    spec_u32_to_le_bytes(h.ack) + seq![if h.fin_ack { 1u8 } else { 0u8 }, k as u8]
        + spec_encode_ranges(h.sack.take(k as int))
}

/// The `i`-th range stored after the fixed part of `d`.
pub open spec fn spec_range_at(d: Seq<u8>, i: int) -> SackRange {
    SackRange {
        start: spec_u32_from_le_bytes(d.subrange(6 + 8 * i, 10 + 8 * i)),
        end: spec_u32_from_le_bytes(d.subrange(10 + 8 * i, 14 + 8 * i)),
    }
}

/// What `decode` makes of `d`: the header and the bytes after it, or
/// `None` when `d` cannot hold the fixed part or the declared ranges.
pub open spec fn spec_decode_header(d: Seq<u8>) -> Option<(SegmentHeaderModel, Seq<u8>)> {
    if d.len() < FIXED_LEN {
        None
    } else {
        let count = d[5] as int;
        if d.len() < FIXED_LEN + RANGE_LEN * count {
            None
        } else {
            Some(
                (
                    SegmentHeaderModel {
                        ack: spec_u32_from_le_bytes(d.subrange(0, 4)),
                        fin_ack: d[4] != 0,
                        sack: Seq::new(count as nat, |i: int| spec_range_at(d, i)),
                    },
                    d.subrange(FIXED_LEN + RANGE_LEN * count, d.len() as int),
                ),
            )
        }
    }
}

proof fn lemma_encode_ranges_len(ranges: Seq<SackRange>)
    ensures
        spec_encode_ranges(ranges).len() == 8 * ranges.len(),
    decreases ranges.len(),
{
    lemma_le_roundtrips();
    if ranges.len() > 0 {
        lemma_encode_ranges_len(ranges.drop_last());
    }
}

/// Inside the encoding of a range list, the `i`-th range sits at bytes
/// `8 * i .. 8 * i + 8`.
proof fn lemma_encode_ranges_index(ranges: Seq<SackRange>, i: int)
    requires
        0 <= i < ranges.len(),
    ensures
        spec_encode_ranges(ranges).subrange(8 * i, 8 * i + 4) == spec_u32_to_le_bytes(
            ranges[i].start,
        ),
        spec_encode_ranges(ranges).subrange(8 * i + 4, 8 * i + 8) == spec_u32_to_le_bytes(
            ranges[i].end,
        ),
    decreases ranges.len(),
{
    lemma_le_roundtrips();
    let prefix = ranges.drop_last();
    lemma_encode_ranges_len(prefix);
    let e = spec_encode_ranges(ranges);
    let ep = spec_encode_ranges(prefix);
    if i < ranges.len() - 1 {
        lemma_encode_ranges_index(prefix, i);
        assert(e.subrange(8 * i, 8 * i + 4) =~= ep.subrange(8 * i, 8 * i + 4));
        assert(e.subrange(8 * i + 4, 8 * i + 8) =~= ep.subrange(8 * i + 4, 8 * i + 8));
    } else {
        assert(e.subrange(8 * i, 8 * i + 4) =~= spec_u32_to_le_bytes(ranges.last().start));
        assert(e.subrange(8 * i + 4, 8 * i + 8) =~= spec_u32_to_le_bytes(ranges.last().end));
    }
}

impl SegmentHeader {
    /// Appends this header's encoding to `out`, writing at most
    /// `MAX_SACK_RANGES` ranges.
    pub fn encode(&self, out: &mut Vec<u8>)
        ensures
            final(out)@ == old(out)@ + spec_encode_header(self@),
    {
        let ghost start = out@;
        put_u32(out, self.ack);
        out.push(if self.fin_ack { 1u8 } else { 0u8 });
        let count: usize = if self.sack.len() < MAX_SACK_RANGES {
            self.sack.len()
        } else {
            MAX_SACK_RANGES
        };
        out.push(count as u8);
        let ghost fixed = out@;
        let mut i: usize = 0;
        while i < count
            invariant
                count <= self.sack@.len(),
                count <= MAX_SACK_RANGES,
                i <= count,
                out@ == fixed + spec_encode_ranges(self.sack@.take(i as int)),
            decreases count - i,
        {
            let r = self.sack[i];
            put_u32(out, r.start);
            put_u32(out, r.end);
            proof {
                assert(self.sack@.take(i + 1).drop_last() =~= self.sack@.take(i as int));
            }
            i = i + 1;
            assert(out@ =~= fixed + spec_encode_ranges(self.sack@.take(i as int)));
        }
        assert(out@ =~= start + spec_encode_header(self@));
    }

    /// Decodes a header from the front of `data`, returning it with the
    /// bytes after it; `None` when `data` is too short for the fixed part
    /// or for the number of ranges it declares.
    pub fn decode(data: &[u8]) -> (r: Option<(SegmentHeader, &[u8])>)
        ensures
            match r {
                Some((h, rest)) => spec_decode_header(data@) == Some((h@, rest@)),
                None => spec_decode_header(data@) is None,
            },
    {
        let len = data.len();
        if len < FIXED_LEN {
            return None;
        }
        let ack = get_u32(data, 0);
        let fin_ack = data[4] != 0;
        let count = data[5] as usize;
        let ranges_len = count * RANGE_LEN;
        if len < FIXED_LEN + ranges_len {
            return None;
        }
        let mut sack: Vec<SackRange> = Vec::new();
        let mut offset: usize = FIXED_LEN;
        let mut i: usize = 0;
        while i < count
            invariant
                count == data@[5] as int,
                FIXED_LEN + RANGE_LEN * count <= len == data@.len(),
                i <= count,
                offset == FIXED_LEN + RANGE_LEN * i,
                sack@ =~= Seq::new(i as nat, |j: int| spec_range_at(data@, j)),
            decreases count - i,
        {
            let start = get_u32(data, offset);
            let end = get_u32(data, offset + 4);
            sack.push(SackRange { start, end });
            offset = offset + RANGE_LEN;
            i = i + 1;
        }
        let rest = vstd::slice::slice_subrange(data, offset, len);
        let h = SegmentHeader { ack, fin_ack, sack };
        assert(h@.sack =~= Seq::new(count as nat, |j: int| spec_range_at(data@, j)));
        Some((h, rest))
    }
}

/// Decoding an encoded header followed by any bytes gives the header back
/// with exactly those bytes, whenever it holds at most `MAX_SACK_RANGES`
/// ranges.
pub proof fn lemma_header_roundtrip(h: SegmentHeaderModel, rest: Seq<u8>)
    requires
        h.sack.len() <= MAX_SACK_RANGES,
    ensures
        spec_decode_header(spec_encode_header(h) + rest) == Some((h, rest)),
{
    lemma_le_roundtrips();
    let k = h.sack.len();
    assert(h.sack.take(k as int) =~= h.sack);
    let er = spec_encode_ranges(h.sack);
    lemma_encode_ranges_len(h.sack);
    let d = spec_encode_header(h) + rest;
    assert(d.len() == 6 + 8 * k + rest.len());
    assert(d[5] == k as u8);
    assert(d.subrange(0, 4) =~= spec_u32_to_le_bytes(h.ack));
    let (m, r) = spec_decode_header(d).unwrap();
    assert forall|i: int| 0 <= i < k implies #[trigger] m.sack[i] == h.sack[i] by {
        lemma_encode_ranges_index(h.sack, i);
        assert(d.subrange(6 + 8 * i, 10 + 8 * i) =~= er.subrange(8 * i, 8 * i + 4));
        assert(d.subrange(10 + 8 * i, 14 + 8 * i) =~= er.subrange(8 * i + 4, 8 * i + 8));
    }
    assert(m.sack =~= h.sack);
    assert(r =~= rest);
}

/// Encoding keeps exactly the first `MAX_SACK_RANGES` ranges of a longer
/// list: it is the encoding of the truncated header.
pub proof fn lemma_encode_caps_ranges(h: SegmentHeaderModel)
    ensures
        spec_encode_header(h) == spec_encode_header(
            SegmentHeaderModel {
                ack: h.ack,
                fin_ack: h.fin_ack,
                sack: h.sack.take(encoded_range_count(h.sack.len()) as int),
            },
        ),
        spec_encode_header(h).len() == FIXED_LEN + RANGE_LEN * encoded_range_count(h.sack.len()),
{
    lemma_le_roundtrips();
    let k = encoded_range_count(h.sack.len());
    assert(h.sack.take(k as int).take(k as int) =~= h.sack.take(k as int));
    lemma_encode_ranges_len(h.sack.take(k as int));
}

} // verus!
