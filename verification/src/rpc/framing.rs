//! Length-prefixed framing over the transport's byte stream: a 4-byte
//! little-endian length, then that many payload bytes. `FrameReader`
//! reassembles whole frames however the stream happens to be chunked.

use crate::le::{append, copy_range, get_u32, lemma_le_roundtrips, put_u32};
use vstd::bytes::*;
use vstd::prelude::*;

verus! {

pub const LEN_PREFIX: usize = 4;

/// The encoding of one frame.
pub open spec fn spec_frame(payload: Seq<u8>) -> Seq<u8> {
    spec_u32_to_le_bytes(payload.len() as u32) + payload
}

/// Encodes one length-prefixed frame.
pub fn frame(payload: &[u8]) -> (out: Vec<u8>)
    ensures
        out@ == spec_frame(payload@),
{
    let mut out: Vec<u8> = Vec::new();
    put_u32(&mut out, payload.len() as u32);
    append(&mut out, payload);
    out
}

/// The complete frames at the front of `b`, in order, and the bytes
/// left over (a partial frame, or nothing).
pub open spec fn split_frames(b: Seq<u8>) -> (Seq<Seq<u8>>, Seq<u8>)
    decreases b.len(),
{
    if b.len() < LEN_PREFIX {
        (Seq::empty(), b)
    } else {
        let n = spec_u32_from_le_bytes(b.subrange(0, 4)) as int;
        if b.len() - 4 < n {
            (Seq::empty(), b)
        } else {
            let (fs, rest) = split_frames(b.skip(4 + n));
            (seq![b.subrange(4, 4 + n)] + fs, rest)
        }
    }
}

/// Reassembles frames from a byte stream fed in arbitrary chunks.
#[derive(Debug)]
pub struct FrameReader {
    buf: Vec<u8>,
}

impl View for FrameReader {
    type V = Seq<u8>;

    closed spec fn view(&self) -> Seq<u8> {
        self.buf@
    }
}

impl Default for FrameReader {
    fn default() -> (r: FrameReader)
        ensures
            r@ == Seq::<u8>::empty(),
    {
        FrameReader { buf: Vec::new() }
    }
}

pub open spec fn frames_view(v: Vec<Vec<u8>>) -> Seq<Seq<u8>> {
    v@.map_values(|d: Vec<u8>| d@)
}

impl FrameReader {
    pub fn new() -> (r: FrameReader)
        ensures
            r@ == Seq::<u8>::empty(),
    {
        Self::default()
    }

    /// Buffers more of the stream.
    pub fn feed(&mut self, bytes: &[u8])
        ensures
            final(self)@ == old(self)@ + bytes@,
    {
        append(&mut self.buf, bytes);
    }

    /// Every complete frame now available, in order; a trailing partial
    /// frame stays buffered.
    pub fn drain_frames(&mut self) -> (frames: Vec<Vec<u8>>)
        ensures
            frames_view(frames) == split_frames(old(self)@).0,
            final(self)@ == split_frames(old(self)@).1,
    {
        let ghost b = self.buf@;
        let mut frames: Vec<Vec<u8>> = Vec::new();
        let n = self.buf.len();
        let mut at: usize = 0;
        let mut done = false;
        assert(b.skip(0) =~= b);
        assert(frames_view(frames) =~= Seq::<Seq<u8>>::empty());
        while !done
            invariant
                self.buf@ == b,
                n == b.len(),
                at <= n,
                split_frames(b) == (
                    frames_view(frames) + split_frames(b.skip(at as int)).0,
                    split_frames(b.skip(at as int)).1,
                ),
                done ==> split_frames(b.skip(at as int)) == (Seq::<Seq<u8>>::empty(), b.skip(at as int)),
            decreases n - at + if done { 0int } else { 1int },
        {
            let ghost rest = b.skip(at as int);
            if n - at < LEN_PREFIX {
                done = true;
            } else {
                let len = get_u32(self.buf.as_slice(), at) as usize;
                assert(rest.subrange(0, 4) =~= b.subrange(at as int, at + 4));
                if n - at - LEN_PREFIX < len {
                    done = true;
                } else {
                    let payload = copy_range(self.buf.as_slice(), at + LEN_PREFIX, at + LEN_PREFIX + len);
                    let ghost before = frames_view(frames);
                    frames.push(payload);
                    proof {
                        assert(frames_view(frames) =~= before.push(payload@));
                        assert(rest.subrange(4, 4 + len) =~= payload@);
                        assert(rest.skip(4 + len) =~= b.skip(at + LEN_PREFIX + len));
                        let (fs, r) = split_frames(rest.skip(4 + len));
                        assert(split_frames(rest) == (seq![payload@] + fs, r));
                        assert(before + (seq![payload@] + fs) =~= frames_view(frames) + fs);
                    }
                    at = at + LEN_PREFIX + len;
                }
            }
        }
        let rest = copy_range(self.buf.as_slice(), at, n);
        assert(rest@ =~= b.skip(at as int));
        self.buf = rest;
        assert(frames_view(frames) + Seq::<Seq<u8>>::empty() =~= frames_view(frames));
        frames
    }
}

/// A frame followed by any bytes splits into that frame's payload, then
/// whatever those bytes split into: framing loses and invents nothing.
pub proof fn lemma_split_frame(payload: Seq<u8>, rest: Seq<u8>)
    requires
        payload.len() <= u32::MAX,
    ensures
        split_frames(spec_frame(payload) + rest) == (
            seq![payload] + split_frames(rest).0,
            split_frames(rest).1,
        ),
{
    lemma_le_roundtrips();
    let b = spec_frame(payload) + rest;
    let n = payload.len();
    assert(b.subrange(0, 4) =~= spec_u32_to_le_bytes(n as u32));
    assert(b.subrange(4, 4 + n as int) =~= payload);
    assert(b.skip(4 + n as int) =~= rest);
}

/// A strict prefix of a frame is held back whole: nothing comes out
/// until the rest arrives.
pub proof fn lemma_partial_frame_held(payload: Seq<u8>, k: int)
    requires
        payload.len() <= u32::MAX,
        0 <= k < spec_frame(payload).len(),
    ensures
        split_frames(spec_frame(payload).take(k)) == (
            Seq::<Seq<u8>>::empty(),
            spec_frame(payload).take(k),
        ),
{
    lemma_le_roundtrips();
    let f = spec_frame(payload);
    if k >= 4 {
        assert(f.take(k).subrange(0, 4) =~= spec_u32_to_le_bytes(payload.len() as u32));
    }
}

/// The frames a sequence of payloads splits back into when concatenated.
pub open spec fn concat_frames(payloads: Seq<Seq<u8>>) -> Seq<u8>
    decreases payloads.len(),
{
    if payloads.len() == 0 {
        Seq::empty()
    } else {
        spec_frame(payloads[0]) + concat_frames(payloads.skip(1))
    }
}

/// Concatenated frames, then any partial frame, split back into exactly
/// those payloads, with the partial frame left over.
pub proof fn lemma_split_concat(payloads: Seq<Seq<u8>>, tail: Seq<u8>)
    requires
        forall|i: int| 0 <= i < payloads.len() ==> #[trigger] payloads[i].len() <= u32::MAX,
        split_frames(tail).0.len() == 0,
    ensures
        split_frames(concat_frames(payloads) + tail) == (payloads, tail),
    decreases payloads.len(),
{
    if payloads.len() == 0 {
        assert(concat_frames(payloads) + tail =~= tail);
        assert(split_frames(tail).1 == tail) by {
            lemma_split_rest(tail);
        }
    } else {
        let p = payloads[0];
        let more = payloads.skip(1);
        assert forall|i: int| 0 <= i < more.len() implies #[trigger] more[i].len() <= u32::MAX by {
            assert(more[i] == payloads[i + 1]);
        }
        lemma_split_concat(more, tail);
        assert(concat_frames(payloads) + tail =~= spec_frame(p) + (concat_frames(more) + tail));
        lemma_split_frame(p, concat_frames(more) + tail);
        assert(seq![p] + more =~= payloads);
    }
}

proof fn lemma_split_rest(b: Seq<u8>)
    requires
        split_frames(b).0.len() == 0,
    ensures
        split_frames(b).1 == b,
{
}

/// Splitting bytes as they arrive gives what splitting them all at once
/// gives: the whole frames of `a`, then those of its leftover followed by
/// `b`.
pub proof fn lemma_split_append(a: Seq<u8>, b: Seq<u8>)
    ensures
        split_frames(a + b) == (
            split_frames(a).0 + split_frames(split_frames(a).1 + b).0,
            split_frames(split_frames(a).1 + b).1,
        ),
    decreases a.len(),
{
    if a.len() >= LEN_PREFIX {
        let n = spec_u32_from_le_bytes(a.subrange(0, 4)) as int;
        assert((a + b).subrange(0, 4) =~= a.subrange(0, 4));
        if a.len() - 4 >= n {
            let rest = a.skip(4 + n);
            lemma_split_append(rest, b);
            assert((a + b).skip(4 + n) =~= rest + b);
            assert((a + b).subrange(4, 4 + n) =~= a.subrange(4, 4 + n));
            let fa = split_frames(a).0;
            assert(fa =~= seq![a.subrange(4, 4 + n)] + split_frames(rest).0);
            assert(split_frames(a + b).0 =~= fa + split_frames(split_frames(a).1 + b).0);
        } else {
            assert(split_frames(a) == (Seq::<Seq<u8>>::empty(), a));
            assert(Seq::<Seq<u8>>::empty() + split_frames(a + b).0 =~= split_frames(a + b).0);
        }
    } else {
        assert(split_frames(a) == (Seq::<Seq<u8>>::empty(), a));
        assert(Seq::<Seq<u8>>::empty() + split_frames(a + b).0 =~= split_frames(a + b).0);
    }
}

} // verus!
