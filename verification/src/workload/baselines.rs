//! Two textbook ARQ schemes built directly on frames and channels, not on
//! the transport, so that a comparison measures the scheme: stop-and-wait
//! (one segment in flight) and go-back-N (a window, and a timeout resends
//! the whole unacknowledged window). Both use a fixed retransmission
//! timeout.
//!
//! Segments are numbered by index (0, 1, 2, ...) in the frame's
//! `sequence`. An ACK frame has flag bit 0 set and carries the next index
//! the receiver expects; a data frame's payload is one chunk.
//!
//! The channels guarantee nothing, and the frame checksum can in
//! principle accept a damaged datagram; every counter here therefore
//! stays within its type whatever arrives (an index at `u32::MAX` is not
//! advanced further, a window end saturates), and a datagram is sent only
//! while the channel has room for it.
//!
//! A run is stated tick by tick (`sw_tick`, `gbn_tick`) over the
//! channels' own models, so its outcome, delivered bytes and channels
//! included, follows from the two channels it starts with. And over
//! fresh channels that may lose, duplicate, delay and reorder datagrams,
//! and either flip a bit of one or cut one short but never both, with
//! chunks that fit the frame's length field, both schemes deliver a
//! prefix of the data, and a completed run delivers all of it. Over any
//! channels, both deliver a prefix of the data whenever every datagram
//! their receiver takes fails to decode or is the data frame of a chunk
//! (`lemma_stop_and_wait_delivers_prefix`,
//! `lemma_go_back_n_delivers_prefix`).

use crate::channel::laws::{
    carries_only, damages_one_way, lemma_deliver_carries, lemma_uncut_send, lemma_unflipped_send,
    never_truncates,
};
use crate::channel::tick::{saturating_sub_spec, Tick};
use crate::channel::{channel_inv, datagrams_out, send_fits, spec_deliver_ready, spec_send, Channel, ChannelModel};
use crate::frame::{
    decode, encode, lemma_encode_decodes_to_itself, lemma_truncated_prefix_is_not_the_frame,
    spec_decode, spec_encode, Frame, FrameModel,
};
use crate::le::{append, copy_bytes, copy_range};
use vstd::prelude::*;

verus! {

/// Flag bit of an ACK frame.
pub const FLAG_ACK: u16 = 1;

#[derive(Debug, Clone, Copy)]
pub struct ArqConfig {
    pub segment_size: usize,
    pub rto: u64,
    pub max_retries: u32,
}

#[derive(Debug, Clone)]
pub struct RunResult {
    pub delivered: Vec<u8>,
    pub ticks_used: u64,
    pub completed: bool,
}

pub open spec fn data_frame_model(seq: u32, payload: Seq<u8>) -> FrameModel {
    FrameModel { frame_type: 0, sequence: seq, flags: 0, payload }
}

pub open spec fn data_frame_bytes(seq: u32, payload: Seq<u8>) -> Seq<u8> {
    spec_encode(data_frame_model(seq, payload))
}

pub open spec fn ack_frame_model(next_expected: u32) -> FrameModel {
    FrameModel { frame_type: 0, sequence: next_expected, flags: FLAG_ACK, payload: Seq::empty() }
}

pub open spec fn ack_frame_bytes(next_expected: u32) -> Seq<u8> {
    spec_encode(ack_frame_model(next_expected))
}

/// The data frame for segment `seq`.
pub fn data_frame(seq: u32, payload: &[u8]) -> (out: Vec<u8>)
    ensures
        out@ == data_frame_bytes(seq, payload@),
{
    encode(&Frame { frame_type: 0, sequence: seq, flags: 0, payload: copy_bytes(payload) })
}

/// The ACK frame announcing the next segment expected.
pub fn ack_frame(next_expected: u32) -> (out: Vec<u8>)
    ensures
        out@ == ack_frame_bytes(next_expected),
{
    encode(&Frame { frame_type: 0, sequence: next_expected, flags: FLAG_ACK, payload: Vec::new() })
}

/// `d` cut into chunks of `n` bytes, the last one possibly shorter.
pub open spec fn spec_chunks(d: Seq<u8>, n: nat) -> Seq<Seq<u8>>
    decreases d.len(),
{
    if d.len() == 0 || n == 0 {
        Seq::empty()
    } else if d.len() <= n {
        seq![d]
    } else {
        seq![d.take(n as int)] + spec_chunks(d.skip(n as int), n)
    }
}

/// The concatenation of byte strings.
pub open spec fn flatten(s: Seq<Seq<u8>>) -> Seq<u8>
    decreases s.len(),
{
    if s.len() == 0 {
        Seq::empty()
    } else {
        s[0] + flatten(s.skip(1))
    }
}

proof fn lemma_flatten_concat(a: Seq<Seq<u8>>, b: Seq<Seq<u8>>)
    ensures
        flatten(a + b) == flatten(a) + flatten(b),
    decreases a.len(),
{
    if a.len() == 0 {
        assert(a + b =~= b);
        assert(Seq::<u8>::empty() + flatten(b) =~= flatten(b));
    } else {
        lemma_flatten_concat(a.skip(1), b);
        assert((a + b).skip(1) =~= a.skip(1) + b);
        assert((a + b)[0] == a[0]);
        assert(flatten(a + b) =~= flatten(a) + flatten(b));
    }
}

/// The first `e + 1` chunks put together are the first `e` followed by
/// chunk `e`; and the first `e` put together begin the whole.
proof fn lemma_flatten_take(s: Seq<Seq<u8>>, e: int)
    requires
        0 <= e < s.len(),
    ensures
        flatten(s.take(e + 1)) == flatten(s.take(e)) + s[e],
{
    assert(s.take(e + 1) =~= s.take(e) + seq![s[e]]);
    lemma_flatten_concat(s.take(e), seq![s[e]]);
    let one = seq![s[e]];
    assert(one.skip(1) =~= Seq::<Seq<u8>>::empty());
    assert(flatten(one.skip(1)) == Seq::<u8>::empty());
    assert(flatten(one) == one[0] + flatten(one.skip(1)));
    assert(flatten(one) =~= s[e]);
}

proof fn lemma_flatten_prefix(s: Seq<Seq<u8>>, e: int)
    requires
        0 <= e <= s.len(),
    ensures
        flatten(s.take(e)).is_prefix_of(flatten(s)),
{
    assert(s =~= s.take(e) + s.skip(e));
    lemma_flatten_concat(s.take(e), s.skip(e));
    let a = flatten(s.take(e));
    assert(flatten(s).subrange(0, a.len() as int) =~= a);
}

/// Chunking loses and invents nothing: the chunks, put back together,
/// are the data, and each holds between 1 and `n` bytes.
pub proof fn lemma_chunks(d: Seq<u8>, n: nat)
    requires
        n > 0,
    ensures
        flatten(spec_chunks(d, n)) == d,
        forall|i: int|
            0 <= i < spec_chunks(d, n).len() ==> 0 < #[trigger] spec_chunks(d, n)[i].len() <= n,
        spec_chunks(d, n).len() * n >= d.len(),
        spec_chunks(d, n).len() <= d.len(),
    decreases d.len(),
{
    if d.len() == 0 {
    } else if d.len() <= n {
        let c = seq![d];
        assert(c.skip(1) =~= Seq::<Seq<u8>>::empty());
        assert(flatten(c.skip(1)) == Seq::<u8>::empty());
        assert(flatten(c) == c[0] + flatten(c.skip(1)));
        assert(flatten(c) =~= d);
        assert(c.len() * n == n) by (nonlinear_arith)
            requires
                c.len() == 1,
        ;
    } else {
        let rest = spec_chunks(d.skip(n as int), n);
        lemma_chunks(d.skip(n as int), n);
        let c = spec_chunks(d, n);
        assert(c.skip(1) =~= rest);
        assert(d.take(n as int) + d.skip(n as int) =~= d);
        assert forall|i: int| 0 <= i < c.len() implies 0 < #[trigger] c[i].len() <= n by {
            if i > 0 {
                assert(c[i] == rest[i - 1]);
            }
        }
        assert(c.len() * n == n + rest.len() * n) by (nonlinear_arith)
            requires
                c.len() == 1 + rest.len(),
        ;
    }
}

pub open spec fn chunk_views(v: Seq<Vec<u8>>) -> Seq<Seq<u8>> {
    v.map_values(|c: Vec<u8>| c@)
}

/// Cuts `data` into chunks of `size` bytes (`size` 0 counts as 1).
pub fn split_chunks(data: &[u8], size: usize) -> (out: Vec<Vec<u8>>)
    ensures
        chunk_views(out@) == spec_chunks(data@, if size == 0 { 1 } else { size as nat }),
{
    let n: usize = if size == 0 { 1 } else { size };
    let ghost nn = n as nat;
    let mut out: Vec<Vec<u8>> = Vec::new();
    let mut at: usize = 0;
    assert(data@.skip(0) =~= data@);
    while at < data.len()
        invariant
            n > 0,
            nn == n as nat,
            at <= data@.len(),
            chunk_views(out@) + spec_chunks(data@.skip(at as int), nn) == spec_chunks(data@, nn),
        decreases data@.len() - at,
    {
        let ghost rest = data@.skip(at as int);
        let end = if data.len() - at <= n { data.len() } else { at + n };
        let chunk = copy_range(data, at, end);
        let ghost before = chunk_views(out@);
        out.push(chunk);
        proof {
            assert(chunk_views(out@) =~= before.push(chunk@));
            if rest.len() <= nn {
                assert(chunk@ =~= rest);
                assert(data@.skip(end as int) =~= Seq::<u8>::empty());
                assert(before + seq![rest] =~= before.push(chunk@) + Seq::<Seq<u8>>::empty());
            } else {
                assert(chunk@ =~= rest.take(nn as int));
                assert(rest.skip(nn as int) =~= data@.skip(end as int));
                assert(before + (seq![rest.take(nn as int)] + spec_chunks(rest.skip(nn as int), nn))
                    =~= before.push(chunk@) + spec_chunks(data@.skip(end as int), nn));
            }
        }
        at = end;
    }
    assert(spec_chunks(data@.skip(at as int), nn) =~= Seq::<Seq<u8>>::empty());
    assert(chunk_views(out@) + Seq::<Seq<u8>>::empty() =~= chunk_views(out@));
    out
}

/// The data frame of chunk `s`, under index `s`, for some chunk.
pub open spec fn is_data_frame_of(chunks: Seq<Seq<u8>>, b: Seq<u8>) -> bool {
    exists|s: u32| s < chunks.len() && b == #[trigger] data_frame_bytes(s, chunks[s as int])
}

/// What may travel forward: data frames of the chunks, and bytes that
/// do not decode.
pub open spec fn data_frames_of(chunks: Seq<Seq<u8>>) -> spec_fn(Seq<u8>) -> bool {
    |b: Seq<u8>| is_data_frame_of(chunks, b) || spec_decode(b) is Err
}

/// An ACK announcing at most `upto`.
pub open spec fn is_ack_upto(upto: u32, b: Seq<u8>) -> bool {
    exists|k: u32| k <= upto && b == #[trigger] ack_frame_bytes(k)
}

/// What may travel back: ACKs for at most `upto`, and bytes that do not
/// decode.
pub open spec fn acks_upto(upto: u32) -> spec_fn(Seq<u8>) -> bool {
    |b: Seq<u8>| is_ack_upto(upto, b) || spec_decode(b) is Err
}

/// Every chunk fits the frame's 32-bit length field.
pub open spec fn chunks_fit(chunks: Seq<Seq<u8>>) -> bool {
    forall|i: int| 0 <= i < chunks.len() ==> #[trigger] chunks[i].len() <= u32::MAX
}

/// What keeps a run honest over channels that damage a datagram at most
/// one way: forward only data frames of the chunks (or bytes that do not
/// decode), back only ACKs the receiver has earned (or such bytes), and
/// the receiver's output exactly the chunks it counted.
pub open spec fn arq_sound(
    fwd: ChannelModel,
    back: ChannelModel,
    chunks: Seq<Seq<u8>>,
    expected: u32,
    delivered: Seq<u8>,
) -> bool {
    &&& damages_one_way(fwd)
    &&& carries_only(fwd, data_frames_of(chunks))
    &&& damages_one_way(back)
    &&& carries_only(back, acks_upto(expected))
    &&& chunks_fit(chunks)
    &&& expected <= chunks.len()
    &&& delivered == flatten(chunks.take(expected as int))
}

/// `bytes` sent on `ch` if the channel has room for one more datagram;
/// otherwise `ch` unchanged.
pub open spec fn post(ch: ChannelModel, bytes: Seq<u8>) -> ChannelModel {
    if send_fits(ch) {
        spec_send(ch, bytes)
    } else {
        ch
    }
}

/// `ch` advanced to `now` (its clock never goes back): the channel after,
/// and the datagrams it hands over.
pub open spec fn spec_advance_to(ch: ChannelModel, now: u64) -> (ChannelModel, Seq<Seq<u8>>) {
    spec_deliver_ready(ChannelModel { now: if now > ch.now { now } else { ch.now }, ..ch })
}

/// The receiving side of both schemes: the channel it acknowledges on,
/// the next index it expects, and the bytes it has delivered.
pub struct Receiver {
    pub back: ChannelModel,
    pub expected: u32,
    pub delivered: Seq<u8>,
}

/// The receiver taking one datagram: one that decodes is acknowledged
/// with the next index expected, after delivering its payload if it
/// carries exactly that index (an index at `u32::MAX` is not advanced).
pub open spec fn receive_one(r: Receiver, d: Seq<u8>) -> Receiver {
    match spec_decode(d) {
        Ok(f) => {
            let take = f.sequence == r.expected && r.expected < u32::MAX;
            let expected = if take {
                (r.expected + 1) as u32
            } else {
                r.expected
            };
            let delivered = if take {
                r.delivered + f.payload
            } else {
                r.delivered
            };
            Receiver { back: post(r.back, ack_frame_bytes(expected)), expected, delivered }
        },
        Err(_) => r,
    }
}

/// The receiver taking datagrams in order.
pub open spec fn receive_all(r: Receiver, ds: Seq<Seq<u8>>) -> Receiver
    decreases ds.len(),
{
    if ds.len() == 0 {
        r
    } else {
        receive_one(receive_all(r, ds.drop_last()), ds.last())
    }
}

/// One tick of the receiving side: the forward channel advanced to
/// `now`, and the receiver after taking all it handed over.
pub open spec fn spec_receive(fwd: ChannelModel, r: Receiver, now: u64) -> (ChannelModel, Receiver) {
    let (f, arrived) = spec_advance_to(fwd, now);
    (f, receive_all(r, arrived))
}

/// Whether an ACK for exactly `target` is among `ds`.
pub open spec fn has_ack(ds: Seq<Seq<u8>>, target: u32) -> bool {
    exists|i: int|
        0 <= i < ds.len() && (#[trigger] spec_decode(ds[i]) matches Ok(f) && f.flags & FLAG_ACK
            != 0 && f.sequence == target)
}

/// Sends `bytes` on `ch` if the channel has room for one more datagram;
/// otherwise sends nothing.
fn send_if_room(
    ch: &mut Channel,
    bytes: &[u8],
    Ghost(f): Ghost<FrameModel>,
    Ghost(ok): Ghost<spec_fn(Seq<u8>) -> bool>,
)
    requires
        channel_inv(old(ch)@),
    ensures
        channel_inv(final(ch)@),
        final(ch)@ == post(old(ch)@, bytes@),
        damages_one_way(old(ch)@) && carries_only(old(ch)@, ok) && survives(bytes@, f, ok)
            ==> damages_one_way(final(ch)@) && carries_only(final(ch)@, ok),
{
    if ch.can_send() {
        let len: usize = bytes.len();
        proof {
            assert(bytes@.len() == len);
            if damages_one_way(ch@) && carries_only(ch@, ok) && survives(bytes@, f, ok) {
                if never_truncates(ch@) {
                    assert(bytes@.take(bytes@.len() as int) =~= bytes@);
                    assert(ok(bytes@.take(bytes@.len() as int)));
                    lemma_uncut_send(ch@, f, ok);
                } else {
                    lemma_unflipped_send(ch@, bytes@, ok);
                }
            }
        }
        ch.send(bytes);
    }
}

/// Datagram `d`, the encoding of `f`, survives any one-way damage as
/// something `ok` accepts: `ok` takes every prefix of it, the whole of
/// it included, and every datagram that does not decode.
pub open spec fn survives(d: Seq<u8>, f: FrameModel, ok: spec_fn(Seq<u8>) -> bool) -> bool {
    &&& d == spec_encode(f)
    &&& forall|k: int| 0 <= k <= d.len() ==> #[trigger] ok(d.take(k))
    &&& forall|b: Seq<u8>| spec_decode(b) is Err ==> #[trigger] ok(b)
}

/// A data frame of a chunk that fits the length field survives one-way
/// damage as a data frame of the chunks or as bytes that do not decode.
proof fn lemma_data_frame_survives(chunks: Seq<Seq<u8>>, s: u32)
    requires
        s < chunks.len(),
        chunks[s as int].len() <= u32::MAX,
    ensures
        survives(data_frame_bytes(s, chunks[s as int]), data_frame_model(s, chunks[s as int]), data_frames_of(chunks)),
{
    let f = data_frame_model(s, chunks[s as int]);
    let d = spec_encode(f);
    assert forall|k: int| 0 <= k <= d.len() implies #[trigger] data_frames_of(chunks)(d.take(k)) by {
        if k == d.len() {
            assert(d.take(k) =~= d);
            assert(d == data_frame_bytes(s, chunks[s as int]));
            assert(is_data_frame_of(chunks, d));
        } else {
            lemma_truncated_prefix_is_not_the_frame(f, k);
        }
    }
}

/// An ACK survives one-way damage as an ACK for at most `upto` or as
/// bytes that do not decode.
proof fn lemma_ack_survives(k: u32, upto: u32)
    requires
        k <= upto,
    ensures
        survives(ack_frame_bytes(k), ack_frame_model(k), acks_upto(upto)),
{
    let f = ack_frame_model(k);
    let d = spec_encode(f);
    assert forall|j: int| 0 <= j <= d.len() implies #[trigger] acks_upto(upto)(d.take(j)) by {
        if j == d.len() {
            assert(d.take(j) =~= d);
            assert(d == ack_frame_bytes(k));
            assert(is_ack_upto(upto, d));
        } else {
            lemma_truncated_prefix_is_not_the_frame(f, j);
        }
    }
}

/// Advances `ch` to `now`, handing over what has arrived.
fn advance_to(ch: &mut Channel, now: Tick, Ghost(ok): Ghost<spec_fn(Seq<u8>) -> bool>) -> (out: Vec<Vec<u8>>)
    requires
        channel_inv(old(ch)@),
    ensures
        channel_inv(final(ch)@),
        (final(ch)@, datagrams_out(out)) == spec_advance_to(old(ch)@, now.0),
        damages_one_way(old(ch)@) && carries_only(old(ch)@, ok) ==> {
            &&& damages_one_way(final(ch)@)
            &&& carries_only(final(ch)@, ok)
            &&& forall|j: int| 0 <= j < out@.len() ==> ok(#[trigger] out@[j]@)
        },
{
    let ghost m = ChannelModel {
        now: if now.0 > ch@.now { now.0 } else { ch@.now },
        ..ch@
    };
    let out = ch.advance(now);
    proof {
        if damages_one_way(m) && carries_only(m, ok) {
            lemma_deliver_carries(m, ok);
            let handed = spec_deliver_ready(m).1;
            assert(datagrams_out(out) == handed);
            assert forall|j: int| 0 <= j < out@.len() implies ok(#[trigger] out@[j]@) by {
                assert(datagrams_out(out)[j] == out@[j]@);
                assert(ok(handed[j]));
            }
        }
    }
    out
}

/// A datagram that is the data frame of some chunk decodes, if at all,
/// to that chunk under its index.
proof fn lemma_data_frame_decodes(chunks: Seq<Seq<u8>>, b: Seq<u8>)
    requires
        data_frames_of(chunks)(b),
        chunks.len() <= u32::MAX,
    ensures
        crate::frame::spec_decode(b) matches Ok(f) ==> {
            &&& 0 <= f.sequence < chunks.len()
            &&& f.payload == chunks[f.sequence as int]
        },
{
    if is_data_frame_of(chunks, b) {
        let s = choose|s: u32| s < chunks.len() && b == #[trigger] data_frame_bytes(s, chunks[s as int]);
        lemma_encode_decodes_to_itself(data_frame_model(s, chunks[s as int]));
    }
}

/// A datagram that is an ACK for at most `upto` decodes, if at all, to
/// an ACK for at most `upto`.
proof fn lemma_ack_decodes(upto: u32, b: Seq<u8>)
    requires
        acks_upto(upto)(b),
    ensures
        crate::frame::spec_decode(b) matches Ok(f) ==> f.sequence <= upto,
{
    if is_ack_upto(upto, b) {
        let k = choose|k: u32| k <= upto && b == #[trigger] ack_frame_bytes(k);
        lemma_encode_decodes_to_itself(ack_frame_model(k));
    }
}

/// The receiving side of both schemes for one tick: every datagram that
/// arrives on `fwd` and decodes is acknowledged on `back` with the next
/// index expected; one carrying exactly that index is delivered first.
/// The receiver buffers nothing out of order.
#[verifier::spinoff_prover]
fn receive(
    fwd: &mut Channel,
    back: &mut Channel,
    now: Tick,
    expected: &mut u32,
    delivered: &mut Vec<u8>,
    Ghost(chunks): Ghost<Seq<Seq<u8>>>,
)
    requires
        channel_inv(old(fwd)@),
        channel_inv(old(back)@),
        chunks.len() <= u32::MAX,
    ensures
        channel_inv(final(fwd)@),
        channel_inv(final(back)@),
        (
            final(fwd)@,
            Receiver { back: final(back)@, expected: *final(expected), delivered: final(delivered)@ },
        ) == spec_receive(
            old(fwd)@,
            Receiver { back: old(back)@, expected: *old(expected), delivered: old(delivered)@ },
            now.0,
        ),
        *old(expected) <= *final(expected),
        old(delivered)@.is_prefix_of(final(delivered)@),
        arq_sound(old(fwd)@, old(back)@, chunks, *old(expected), old(delivered)@) ==> arq_sound(
            final(fwd)@,
            final(back)@,
            chunks,
            *final(expected),
            final(delivered)@,
        ),
{
    let ghost sound = arq_sound(fwd@, back@, chunks, *expected, delivered@);
    let ghost r0 = Receiver { back: back@, expected: *expected, delivered: delivered@ };
    let arrived = advance_to(fwd, now, Ghost(data_frames_of(chunks)));
    let ghost ds = datagrams_out(arrived);
    let ghost f1 = fwd@;
    proof {
        assert(ds.take(0) =~= Seq::<Seq<u8>>::empty());
    }
    let mut i: usize = 0;
    while i < arrived.len()
        invariant
            channel_inv(fwd@),
            channel_inv(back@),
            chunks.len() <= u32::MAX,
            i <= arrived@.len(),
            ds == datagrams_out(arrived),
            fwd@ == f1,
            (Receiver { back: back@, expected: *expected, delivered: delivered@ }) == receive_all(
                r0,
                ds.take(i as int),
            ),
            *old(expected) <= *expected,
            old(delivered)@.is_prefix_of(delivered@),
            sound ==> arq_sound(fwd@, back@, chunks, *expected, delivered@),
            sound ==> forall|j: int| 0 <= j < arrived@.len() ==> #[trigger] data_frames_of(chunks)(arrived@[j]@),
        decreases arrived@.len() - i,
    {
        let ghost e0 = *expected;
        let ghost d0 = delivered@;
        if let Ok(f) = decode(arrived[i].as_slice()) {
            proof {
                if sound {
                    assert(data_frames_of(chunks)(arrived@[i as int]@));
                    lemma_data_frame_decodes(chunks, arrived@[i as int]@);
                }
            }
            if f.sequence == *expected && *expected < u32::MAX {
                append(delivered, f.payload.as_slice());
                *expected = *expected + 1;
                proof {
                    assert(d0.is_prefix_of(delivered@)) by {
                        assert(delivered@.subrange(0, d0.len() as int) =~= d0);
                    }
                    if sound {
                        lemma_flatten_take(chunks, e0 as int);
                    }
                }
            }
            proof {
                if sound {
                    let e = *expected;
                    assert forall|j: int| 0 <= j < back@.in_flight.len() implies #[trigger] acks_upto(e)(back@.in_flight[j].2) by {
                        let x = back@.in_flight[j].2;
                        assert(acks_upto(e0)(x));
                        if is_ack_upto(e0, x) {
                            let k = choose|k: u32| k <= e0 && x == #[trigger] ack_frame_bytes(k);
                            assert(k <= e && x == ack_frame_bytes(k));
                        }
                    }
                    lemma_ack_survives(e, e);
                }
            }
            send_if_room(back, ack_frame(*expected).as_slice(), Ghost(ack_frame_model(*expected)), Ghost(acks_upto(*expected)));
        }
        proof {
            assert(ds[i as int] == arrived@[i as int]@);
            assert(ds.take(i + 1).drop_last() =~= ds.take(i as int));
        }
        i = i + 1;
    }
    proof {
        assert(ds.take(arrived@.len() as int) =~= ds);
    }
}

/// Whether an ACK for exactly `target` arrives on `back` this tick.
fn ack_arrived(back: &mut Channel, now: Tick, target: u32, Ghost(upto): Ghost<u32>) -> (b: bool)
    requires
        channel_inv(old(back)@),
    ensures
        channel_inv(final(back)@),
        final(back)@ == spec_advance_to(old(back)@, now.0).0,
        b == has_ack(spec_advance_to(old(back)@, now.0).1, target),
        damages_one_way(old(back)@) && carries_only(old(back)@, acks_upto(upto)) ==> {
            &&& damages_one_way(final(back)@)
            &&& carries_only(final(back)@, acks_upto(upto))
            &&& b ==> target <= upto
        },
{
    let ghost sound = damages_one_way(back@) && carries_only(back@, acks_upto(upto));
    let arrived = advance_to(back, now, Ghost(acks_upto(upto)));
    let ghost ds = datagrams_out(arrived);
    let mut seen = false;
    let mut i: usize = 0;
    while i < arrived.len()
        invariant
            i <= arrived@.len(),
            ds == datagrams_out(arrived),
            seen == has_ack(ds.take(i as int), target),
            sound ==> forall|j: int| 0 <= j < arrived@.len() ==> #[trigger] acks_upto(upto)(arrived@[j]@),
            sound && seen ==> target <= upto,
        decreases arrived@.len() - i,
    {
        if let Ok(f) = decode(arrived[i].as_slice()) {
            proof {
                if sound {
                    assert(acks_upto(upto)(arrived@[i as int]@));
                    lemma_ack_decodes(upto, arrived@[i as int]@);
                }
            }
            if f.flags & FLAG_ACK != 0 && f.sequence == target {
                seen = true;
            }
        }
        proof {
            let t = ds.take(i + 1);
            assert(ds[i as int] == arrived@[i as int]@);
            assert(t[i as int] == ds[i as int]);
            assert forall|j: int| 0 <= j < i implies #[trigger] t[j] == ds.take(i as int)[j] by {}
            if has_ack(ds.take(i as int), target) {
                let j = choose|j: int|
                    0 <= j < ds.take(i as int).len() && (#[trigger] spec_decode(ds.take(i as int)[j]) matches Ok(f)
                        && f.flags & FLAG_ACK != 0 && f.sequence == target);
                assert(t[j] == ds.take(i as int)[j]);
            }
            if has_ack(t, target) {
                let j = choose|j: int|
                    0 <= j < t.len() && (#[trigger] spec_decode(t[j]) matches Ok(f) && f.flags & FLAG_ACK
                        != 0 && f.sequence == target);
                if j < i {
                    assert(t[j] == ds.take(i as int)[j]);
                }
            }
        }
        i = i + 1;
    }
    proof {
        assert(ds.take(arrived@.len() as int) =~= ds);
    }
    seen
}

/// A stop-and-wait run in progress: the forward channel, the receiver,
/// the next segment to send, the segment in flight (its index, and the
/// tick it was last sent at), how often it has been resent, and the
/// tick.
pub struct SwState {
    pub fwd: ChannelModel,
    pub rx: Receiver,
    pub next_seq: u32,
    pub unacked: Option<(u32, u64)>,
    pub retries: u32,
    pub tick: u64,
}

/// A stop-and-wait run about to start.
pub open spec fn sw_start(fwd: ChannelModel, back: ChannelModel) -> SwState {
    SwState {
        fwd,
        rx: Receiver { back, expected: 0, delivered: Seq::empty() },
        next_seq: 0,
        unacked: None,
        retries: 0,
        tick: 0,
    }
}

/// The end of a tick: the run is over once every segment is
/// acknowledged or the last tick has passed, and says whether it
/// completed.
pub open spec fn sw_finish(t: SwState, chunks: Seq<Seq<u8>>, max_ticks: u64) -> (SwState, Option<bool>) {
    let done = t.unacked is None && t.next_seq == chunks.len();
    if done || t.tick >= max_ticks {
        (t, Some(done))
    } else {
        (t, None)
    }
}

/// One tick of stop-and-wait: the receiver takes what arrived; an ACK
/// for the segment in flight retires it; then the next segment goes out
/// if none is in flight, or the one in flight is resent once it has
/// waited `rto` ticks, unless it has been resent `max_retries` times
/// already, which ends the run uncompleted.
#[verifier::opaque]
pub open spec fn sw_tick(s: SwState, chunks: Seq<Seq<u8>>, config: ArqConfig, max_ticks: u64) -> (
    SwState,
    Option<bool>,
) {
    let now = (s.tick + 1) as u64;
    let (fwd, rx) = spec_receive(s.fwd, s.rx, now);
    let (back, ds) = spec_advance_to(rx.back, now);
    let acked = match s.unacked {
        Some((seq, _)) => has_ack(ds, (seq + 1) as u32),
        None => false,
    };
    let t = SwState {
        fwd,
        rx: Receiver { back, ..rx },
        unacked: if acked {
            None
        } else {
            s.unacked
        },
        retries: if acked {
            0
        } else {
            s.retries
        },
        tick: now,
        ..s
    };
    match t.unacked {
        None => if s.next_seq < chunks.len() {
            sw_finish(
                SwState {
                    fwd: post(fwd, data_frame_bytes(s.next_seq, chunks[s.next_seq as int])),
                    unacked: Some((s.next_seq, now)),
                    next_seq: (s.next_seq + 1) as u32,
                    ..t
                },
                chunks,
                max_ticks,
            )
        } else {
            sw_finish(t, chunks, max_ticks)
        },
        Some((seq, sent_at)) => if saturating_sub_spec(now, sent_at) >= config.rto {
            if t.retries >= config.max_retries {
                (t, Some(false))
            } else {
                sw_finish(
                    SwState {
                        fwd: post(fwd, data_frame_bytes(seq, chunks[seq as int])),
                        unacked: Some((seq, now)),
                        retries: (t.retries + 1) as u32,
                        ..t
                    },
                    chunks,
                    max_ticks,
                )
            }
        } else {
            sw_finish(t, chunks, max_ticks)
        },
    }
}

/// A stop-and-wait run from `s` to its end, and whether it completed.
#[verifier::opaque]
pub open spec fn sw_run(s: SwState, chunks: Seq<Seq<u8>>, config: ArqConfig, max_ticks: u64) -> (
    SwState,
    bool,
)
    decreases max_ticks - s.tick,
{
    let (t, end) = sw_tick(s, chunks, config, max_ticks);
    match end {
        Some(completed) => (t, completed),
        None => if s.tick < t.tick < max_ticks {
            sw_run(t, chunks, config, max_ticks)
        } else {
            (t, false)
        },
    }
}

/// Stop-and-wait: exactly one segment in flight at a time. Runs until
/// every segment is acknowledged (`completed`), a segment exceeds
/// `max_retries` resends, or `max_ticks` ticks have passed.
#[verifier::spinoff_prover]
pub fn run_stop_and_wait(
    data: &[u8],
    fwd: &mut Channel,
    back: &mut Channel,
    config: ArqConfig,
    max_ticks: u64,
) -> (r: RunResult)
    requires
        channel_inv(old(fwd)@),
        channel_inv(old(back)@),
        spec_chunks(data@, if config.segment_size == 0 { 1 } else { config.segment_size as nat }).len()
            <= u32::MAX,
    ensures
        channel_inv(final(fwd)@),
        channel_inv(final(back)@),
        ({
            let (t, completed) = sw_run(
                sw_start(old(fwd)@, old(back)@),
                spec_chunks(data@, if config.segment_size == 0 { 1 } else { config.segment_size as nat }),
                config,
                max_ticks,
            );
            &&& final(fwd)@ == t.fwd
            &&& final(back)@ == t.rx.back
            &&& r.delivered@ == t.rx.delivered
            &&& r.ticks_used == t.tick
            &&& r.completed == completed
        }),
        1 <= r.ticks_used,
        r.ticks_used <= max_ticks || r.ticks_used == 1,
        fresh_links(old(fwd)@, old(back)@) && config.segment_size <= u32::MAX ==> {
            &&& r.delivered@.is_prefix_of(data@)
            &&& r.completed ==> r.delivered@ == data@
        },
{
    let chunks = split_chunks(data, config.segment_size);
    let ghost cs = chunk_views(chunks@);
    let ghost sound = fresh_links(fwd@, back@) && config.segment_size <= u32::MAX;
    let ghost whole = sw_run(sw_start(fwd@, back@), cs, config, max_ticks);
    let mut next_seq: u32 = 0;
    let mut unacked: Option<(u32, Vec<u8>, Tick)> = None;
    let mut retries: u32 = 0;
    let mut expected: u32 = 0;
    let mut delivered: Vec<u8> = Vec::new();
    let mut tick: u64 = 0;
    proof {
        lemma_chunks(data@, if config.segment_size == 0 { 1 } else { config.segment_size as nat });
        assert(cs.take(0) =~= Seq::<Seq<u8>>::empty());
        assert(delivered@ =~= flatten(cs.take(0)));
        assert(sw_state(fwd@, back@, expected, delivered@, next_seq, unacked, retries, tick) == sw_start(
            fwd@,
            back@,
        ));
    }
    loop
        invariant
            channel_inv(fwd@),
            channel_inv(back@),
            cs == chunk_views(chunks@),
            cs.len() == chunks@.len(),
            flatten(cs) == data@,
            chunks@.len() <= u32::MAX,
            next_seq <= chunks@.len(),
            retries <= config.max_retries,
            tick < max_ticks || tick == 0,
            unacked matches Some(u) ==> u.0 + 1 == next_seq && u.1@ == cs[u.0 as int],
            sound == (fresh_links(old(fwd)@, old(back)@) && config.segment_size <= u32::MAX),
            sound ==> arq_sound(fwd@, back@, cs, expected, delivered@),
            sound && unacked is None ==> next_seq <= expected,
            whole == sw_run(sw_start(old(fwd)@, old(back)@), cs, config, max_ticks),
            cs == spec_chunks(data@, if config.segment_size == 0 { 1 } else { config.segment_size as nat }),
            sw_run(sw_state(fwd@, back@, expected, delivered@, next_seq, unacked, retries, tick), cs, config, max_ticks)
                == whole,
        decreases max_ticks - tick,
    {
        let ghost s0 = sw_state(fwd@, back@, expected, delivered@, next_seq, unacked, retries, tick);
        tick = tick + 1;
        let now = Tick(tick);
        receive(fwd, back, now, &mut expected, &mut delivered, Ghost(cs));
        let ghost b1 = back@;
        if let Some((seq, _, _)) = &unacked {
            if ack_arrived(back, now, *seq + 1, Ghost(expected)) {
                unacked = None;
                retries = 0;
            }
        } else {
            let _ = advance_to(back, now, Ghost(acks_upto(expected)));
        }
        let ghost mid = sw_state(fwd@, back@, expected, delivered@, next_seq, unacked, retries, tick);
        proof {
            assert(back@ == spec_advance_to(b1, tick).0);
        }
        if unacked.is_none() && (next_seq as usize) < chunks.len() {
            let chunk = copy_bytes(chunks[next_seq as usize].as_slice());
            proof {
                assert(cs[next_seq as int] == chunk@);
                if sound {
                    lemma_data_frame_survives(cs, next_seq);
                }
            }
            send_if_room(
                fwd,
                data_frame(next_seq, chunk.as_slice()).as_slice(),
                Ghost(data_frame_model(next_seq, chunk@)),
                Ghost(data_frames_of(cs)),
            );
            unacked = Some((next_seq, chunk, now));
            next_seq = next_seq + 1;
        } else if let Some((seq, chunk, sent_at)) = &unacked {
            if now - *sent_at >= config.rto {
                if retries >= config.max_retries {
                    proof {
                        if sound {
                            lemma_flatten_prefix(cs, expected as int);
                        }
                        assert(sw_tick(s0, cs, config, max_ticks) == (mid, Some(false))) by {
                            reveal(sw_tick);
                        }
                        assert(sw_run(s0, cs, config, max_ticks) == (mid, false)) by {
                            reveal(sw_run);
                        }

                    }
                    return RunResult { delivered, ticks_used: tick, completed: false };
                }
                retries = retries + 1;
                proof {
                    if sound {
                        lemma_data_frame_survives(cs, *seq);
                    }
                }
                send_if_room(
                    fwd,
                    data_frame(*seq, chunk.as_slice()).as_slice(),
                    Ghost(data_frame_model(*seq, chunk@)),
                    Ghost(data_frames_of(cs)),
                );
                let resent = (*seq, copy_bytes(chunk.as_slice()), now);
                unacked = Some(resent);
            }
        }
        let done = unacked.is_none() && (next_seq as usize) == chunks.len();
        let ghost t = sw_state(fwd@, back@, expected, delivered@, next_seq, unacked, retries, tick);
        proof {
            assert(sw_tick(s0, cs, config, max_ticks) == sw_finish(t, cs, max_ticks)) by {
                reveal(sw_tick);
            }
            if done || tick >= max_ticks {
                assert(sw_run(s0, cs, config, max_ticks) == (t, done)) by {
                    reveal(sw_run);
                }
            } else {
                assert(sw_run(s0, cs, config, max_ticks) == sw_run(t, cs, config, max_ticks)) by {
                    reveal(sw_run);
                }
            }
        }
        if done || tick >= max_ticks {
            proof {
                if sound {
                    lemma_flatten_prefix(cs, expected as int);
                    if done {
                        assert(cs.take(expected as int) =~= cs);
                    }
                }
            }
            return RunResult { delivered, ticks_used: tick, completed: done };
        }
    }
}

/// The run state that the executable variables of stop-and-wait stand
/// for.
pub open spec fn sw_state(
    fwd: ChannelModel,
    back: ChannelModel,
    expected: u32,
    delivered: Seq<u8>,
    next_seq: u32,
    unacked: Option<(u32, Vec<u8>, Tick)>,
    retries: u32,
    tick: u64,
) -> SwState {
    SwState {
        fwd,
        rx: Receiver { back, expected, delivered },
        next_seq,
        unacked: match unacked {
            Some(u) => Some((u.0, u.2.0)),
            None => None,
        },
        retries,
        tick,
    }
}

/// Fresh channels, nothing in flight, that damage a datagram at most one
/// way.
pub open spec fn fresh_links(fwd: ChannelModel, back: ChannelModel) -> bool {
    &&& damages_one_way(fwd)
    &&& damages_one_way(back)
    &&& fwd.in_flight.len() == 0
    &&& back.in_flight.len() == 0
}

/// A go-back-N run in progress: the forward channel, the receiver, the
/// oldest unacknowledged segment, the next segment to send, when the
/// timer was last started (if it runs), the timeouts in a row, and the
/// tick.
pub struct GbnState {
    pub fwd: ChannelModel,
    pub rx: Receiver,
    pub base: u32,
    pub next_seq: u32,
    pub oldest_sent_at: Option<u64>,
    pub retries: u32,
    pub tick: u64,
}

/// A go-back-N run about to start.
pub open spec fn gbn_start(fwd: ChannelModel, back: ChannelModel) -> GbnState {
    GbnState {
        fwd,
        rx: Receiver { back, expected: 0, delivered: Seq::empty() },
        base: 0,
        next_seq: 0,
        oldest_sent_at: None,
        retries: 0,
        tick: 0,
    }
}

/// The sender's window bookkeeping: the oldest unacknowledged segment,
/// the timeouts in a row, and the timer.
pub struct GbnWindow {
    pub base: u32,
    pub retries: u32,
    pub oldest_sent_at: Option<u64>,
}

/// The sender taking one datagram from the ACK channel: an ACK beyond
/// `base` moves it there, clears the timeouts, and restarts the timer if
/// segments remain in flight (stops it otherwise).
pub open spec fn gbn_ack_one(w: GbnWindow, d: Seq<u8>, next_seq: u32, now: u64) -> GbnWindow {
    match spec_decode(d) {
        Ok(f) => if f.flags & FLAG_ACK != 0 && f.sequence > w.base {
            GbnWindow {
                base: f.sequence,
                retries: 0,
                oldest_sent_at: if f.sequence < next_seq {
                    Some(now)
                } else {
                    None
                },
            }
        } else {
            w
        },
        Err(_) => w,
    }
}

pub open spec fn gbn_ack_all(w: GbnWindow, ds: Seq<Seq<u8>>, next_seq: u32, now: u64) -> GbnWindow
    decreases ds.len(),
{
    if ds.len() == 0 {
        w
    } else {
        gbn_ack_one(gbn_ack_all(w, ds.drop_last(), next_seq, now), ds.last(), next_seq, now)
    }
}

/// Sending new segments from `next_seq` while below `limit` and while
/// segments remain, starting the timer if it is not running: the
/// channel after, the next segment to send, and the timer.
pub open spec fn gbn_fill(
    fwd: ChannelModel,
    next_seq: u32,
    oldest_sent_at: Option<u64>,
    limit: u32,
    chunks: Seq<Seq<u8>>,
    now: u64,
) -> (ChannelModel, u32, Option<u64>)
    decreases chunks.len() - next_seq,
{
    if next_seq < limit && next_seq < chunks.len() {
        gbn_fill(
            post(fwd, data_frame_bytes(next_seq, chunks[next_seq as int])),
            (next_seq + 1) as u32,
            if oldest_sent_at is None {
                Some(now)
            } else {
                oldest_sent_at
            },
            limit,
            chunks,
            now,
        )
    } else {
        (fwd, next_seq, oldest_sent_at)
    }
}

/// Resending segments `seq` up to `next_seq`, in order.
pub open spec fn gbn_resend(fwd: ChannelModel, seq: u32, next_seq: u32, chunks: Seq<Seq<u8>>) -> ChannelModel
    decreases next_seq - seq,
{
    if seq < next_seq {
        gbn_resend(post(fwd, data_frame_bytes(seq, chunks[seq as int])), (seq + 1) as u32, next_seq, chunks)
    } else {
        fwd
    }
}

/// The end of a tick: the run is over once every segment is
/// acknowledged or the last tick has passed, and says whether it
/// completed.
pub open spec fn gbn_finish(t: GbnState, chunks: Seq<Seq<u8>>, max_ticks: u64) -> (GbnState, Option<bool>) {
    let done = t.base == chunks.len();
    if done || t.tick >= max_ticks {
        (t, Some(done))
    } else {
        (t, None)
    }
}

/// One tick of go-back-N: the receiver takes what arrived; the sender
/// takes the ACKs, fills the window, and, once the timer has run `rto`
/// ticks, resends the whole unacknowledged window and restarts it,
/// unless it has timed out `max_retries` times in a row already, which
/// ends the run uncompleted.
#[verifier::opaque]
pub open spec fn gbn_tick(
    s: GbnState,
    chunks: Seq<Seq<u8>>,
    config: ArqConfig,
    window: usize,
    max_ticks: u64,
) -> (GbnState, Option<bool>) {
    let now = (s.tick + 1) as u64;
    let (fwd, rx) = spec_receive(s.fwd, s.rx, now);
    let (back, ds) = spec_advance_to(rx.back, now);
    let w = gbn_ack_all(
        GbnWindow { base: s.base, retries: s.retries, oldest_sent_at: s.oldest_sent_at },
        ds,
        s.next_seq,
        now,
    );
    let (fwd2, next_seq, oldest) = gbn_fill(
        fwd,
        s.next_seq,
        w.oldest_sent_at,
        w.base.saturating_add(window as u32),
        chunks,
        now,
    );
    let t = GbnState {
        fwd: fwd2,
        rx: Receiver { back, ..rx },
        base: w.base,
        next_seq,
        oldest_sent_at: oldest,
        retries: w.retries,
        tick: now,
    };
    match oldest {
        Some(sent_at) => if saturating_sub_spec(now, sent_at) >= config.rto {
            if t.retries >= config.max_retries {
                (t, Some(false))
            } else {
                gbn_finish(
                    GbnState {
                        fwd: gbn_resend(fwd2, t.base, next_seq, chunks),
                        retries: (t.retries + 1) as u32,
                        oldest_sent_at: Some(now),
                        ..t
                    },
                    chunks,
                    max_ticks,
                )
            }
        } else {
            gbn_finish(t, chunks, max_ticks)
        },
        None => gbn_finish(t, chunks, max_ticks),
    }
}

/// A go-back-N run from `s` to its end, and whether it completed.
#[verifier::opaque]
pub open spec fn gbn_run(
    s: GbnState,
    chunks: Seq<Seq<u8>>,
    config: ArqConfig,
    window: usize,
    max_ticks: u64,
) -> (GbnState, bool)
    decreases max_ticks - s.tick,
{
    let (t, end) = gbn_tick(s, chunks, config, window, max_ticks);
    match end {
        Some(completed) => (t, completed),
        None => if s.tick < t.tick < max_ticks {
            gbn_run(t, chunks, config, window, max_ticks)
        } else {
            (t, false)
        },
    }
}

/// The run state that the executable variables of go-back-N stand for.
pub open spec fn gbn_state(
    fwd: ChannelModel,
    back: ChannelModel,
    expected: u32,
    delivered: Seq<u8>,
    base: u32,
    next_seq: u32,
    oldest_sent_at: Option<Tick>,
    retries: u32,
    tick: u64,
) -> GbnState {
    GbnState {
        fwd,
        rx: Receiver { back, expected, delivered },
        base,
        next_seq,
        oldest_sent_at: tick_view(oldest_sent_at),
        retries,
        tick,
    }
}

pub open spec fn tick_view(t: Option<Tick>) -> Option<u64> {
    match t {
        Some(t) => Some(t.0),
        None => None,
    }
}

/// Go-back-N: up to `window` segments in flight; a timeout on the oldest
/// unacknowledged segment resends the whole unacknowledged window, and
/// the receiver accepts segments strictly in order, discarding the rest.
/// Runs until every segment is acknowledged (`completed`), the window
/// times out more than `max_retries` times in a row, or `max_ticks` ticks
/// have passed.
#[verifier::spinoff_prover]
pub fn run_go_back_n(
    data: &[u8],
    fwd: &mut Channel,
    back: &mut Channel,
    config: ArqConfig,
    window: usize,
    max_ticks: u64,
) -> (r: RunResult)
    requires
        channel_inv(old(fwd)@),
        channel_inv(old(back)@),
        spec_chunks(data@, if config.segment_size == 0 { 1 } else { config.segment_size as nat }).len()
            <= u32::MAX,
    ensures
        channel_inv(final(fwd)@),
        channel_inv(final(back)@),
        ({
            let (t, completed) = gbn_run(
                gbn_start(old(fwd)@, old(back)@),
                spec_chunks(data@, if config.segment_size == 0 { 1 } else { config.segment_size as nat }),
                config,
                window,
                max_ticks,
            );
            &&& final(fwd)@ == t.fwd
            &&& final(back)@ == t.rx.back
            &&& r.delivered@ == t.rx.delivered
            &&& r.ticks_used == t.tick
            &&& r.completed == completed
        }),
        1 <= r.ticks_used,
        r.ticks_used <= max_ticks || r.ticks_used == 1,
        fresh_links(old(fwd)@, old(back)@) && config.segment_size <= u32::MAX ==> {
            &&& r.delivered@.is_prefix_of(data@)
            &&& r.completed ==> r.delivered@ == data@
        },
{
    let chunks = split_chunks(data, config.segment_size);
    let ghost cs = chunk_views(chunks@);
    let ghost sound = fresh_links(fwd@, back@) && config.segment_size <= u32::MAX;
    let ghost whole = gbn_run(gbn_start(fwd@, back@), cs, config, window, max_ticks);
    let w = window as u32;
    let mut base: u32 = 0;
    let mut next_seq: u32 = 0;
    let mut oldest_sent_at: Option<Tick> = None;
    let mut retries: u32 = 0;
    let mut expected: u32 = 0;
    let mut delivered: Vec<u8> = Vec::new();
    let mut tick: u64 = 0;
    proof {
        lemma_chunks(data@, if config.segment_size == 0 { 1 } else { config.segment_size as nat });
        assert(cs.take(0) =~= Seq::<Seq<u8>>::empty());
        assert(delivered@ =~= flatten(cs.take(0)));
        assert(gbn_state(fwd@, back@, expected, delivered@, base, next_seq, oldest_sent_at, retries, tick)
            == gbn_start(fwd@, back@));
    }
    loop
        invariant
            channel_inv(fwd@),
            channel_inv(back@),
            cs == chunk_views(chunks@),
            cs.len() == chunks@.len(),
            flatten(cs) == data@,
            chunks@.len() <= u32::MAX,
            next_seq <= chunks@.len(),
            retries <= config.max_retries,
            tick < max_ticks || tick == 0,
            w == window as u32,
            sound == (fresh_links(old(fwd)@, old(back)@) && config.segment_size <= u32::MAX),
            sound ==> arq_sound(fwd@, back@, cs, expected, delivered@),
            sound ==> base <= expected,
            whole == gbn_run(gbn_start(old(fwd)@, old(back)@), cs, config, window, max_ticks),
            cs == spec_chunks(data@, if config.segment_size == 0 { 1 } else { config.segment_size as nat }),
            gbn_run(
                gbn_state(fwd@, back@, expected, delivered@, base, next_seq, oldest_sent_at, retries, tick),
                cs,
                config,
                window,
                max_ticks,
            ) == whole,
        decreases max_ticks - tick,
    {
        let ghost s0 = gbn_state(fwd@, back@, expected, delivered@, base, next_seq, oldest_sent_at, retries, tick);
        tick = tick + 1;
        let now = Tick(tick);
        receive(fwd, back, now, &mut expected, &mut delivered, Ghost(cs));
        let ghost b1 = back@;
        let arrived = advance_to(back, now, Ghost(acks_upto(expected)));
        let ghost ds = datagrams_out(arrived);
        let ghost w0 = GbnWindow { base, retries, oldest_sent_at: tick_view(oldest_sent_at) };
        proof {
            assert(ds.take(0) =~= Seq::<Seq<u8>>::empty());
        }
        let mut i: usize = 0;
        while i < arrived.len()
            invariant
                i <= arrived@.len(),
                retries <= config.max_retries,
                sound ==> base <= expected,
                sound ==> forall|j: int| 0 <= j < arrived@.len() ==> #[trigger] acks_upto(expected)(arrived@[j]@),
                ds == datagrams_out(arrived),
                (GbnWindow { base, retries, oldest_sent_at: tick_view(oldest_sent_at) }) == gbn_ack_all(
                    w0,
                    ds.take(i as int),
                    next_seq,
                    tick,
                ),
                now.0 == tick,
            decreases arrived@.len() - i,
        {
            if let Ok(f) = decode(arrived[i].as_slice()) {
                proof {
                    if sound {
                        assert(acks_upto(expected)(arrived@[i as int]@));
                        lemma_ack_decodes(expected, arrived@[i as int]@);
                    }
                }
                if f.flags & FLAG_ACK != 0 && f.sequence > base {
                    base = f.sequence;
                    retries = 0;
                    oldest_sent_at = if base < next_seq { Some(now) } else { None };
                }
            }
            proof {
                assert(ds[i as int] == arrived@[i as int]@);
                assert(ds.take(i + 1).drop_last() =~= ds.take(i as int));
            }
            i = i + 1;
        }
        proof {
            assert(ds.take(arrived@.len() as int) =~= ds);
        }
        let ghost f1 = fwd@;
        let ghost n1 = next_seq;
        let ghost o1 = tick_view(oldest_sent_at);
        let ghost limit = base.saturating_add(w);
        while next_seq < base.saturating_add(w) && (next_seq as usize) < chunks.len()
            invariant
                channel_inv(fwd@),
                cs == chunk_views(chunks@),
                cs.len() == chunks@.len(),
                chunks@.len() <= u32::MAX,
                next_seq <= chunks@.len(),
                sound ==> damages_one_way(fwd@) && carries_only(fwd@, data_frames_of(cs)) && chunks_fit(cs),
                limit == base.saturating_add(w),
                now.0 == tick,
                gbn_fill(fwd@, next_seq, tick_view(oldest_sent_at), limit, cs, tick) == gbn_fill(
                    f1,
                    n1,
                    o1,
                    limit,
                    cs,
                    tick,
                ),
            decreases chunks@.len() - next_seq,
        {
            proof {
                assert(cs[next_seq as int] == chunks@[next_seq as int]@);
                if sound {
                    lemma_data_frame_survives(cs, next_seq);
                }
            }
            send_if_room(
                fwd,
                data_frame(next_seq, chunks[next_seq as usize].as_slice()).as_slice(),
                Ghost(data_frame_model(next_seq, chunks@[next_seq as int]@)),
                Ghost(data_frames_of(cs)),
            );
            if oldest_sent_at.is_none() {
                oldest_sent_at = Some(now);
            }
            next_seq = next_seq + 1;
        }
        let ghost mid = gbn_state(fwd@, back@, expected, delivered@, base, next_seq, oldest_sent_at, retries, tick);
        proof {
            assert(back@ == spec_advance_to(b1, tick).0);
            assert(gbn_fill(fwd@, next_seq, tick_view(oldest_sent_at), limit, cs, tick) == (
                fwd@,
                next_seq,
                tick_view(oldest_sent_at),
            ));
        }
        if let Some(sent_at) = oldest_sent_at {
            if now - sent_at >= config.rto {
                if retries >= config.max_retries {
                    proof {
                        if sound {
                            lemma_flatten_prefix(cs, expected as int);
                        }
                        assert(gbn_tick(s0, cs, config, window, max_ticks) == (mid, Some(false))) by {
                            reveal(gbn_tick);
                        }
                        assert(gbn_run(s0, cs, config, window, max_ticks) == (mid, false)) by {
                            reveal(gbn_run);
                        }
                    }
                    return RunResult { delivered, ticks_used: tick, completed: false };
                }
                retries = retries + 1;
                let ghost f2 = fwd@;
                let mut seq = base;
                while seq < next_seq
                    invariant
                        channel_inv(fwd@),
                        cs == chunk_views(chunks@),
                        cs.len() == chunks@.len(),
                        next_seq <= chunks@.len(),
                        sound ==> damages_one_way(fwd@) && carries_only(fwd@, data_frames_of(cs)) && chunks_fit(cs),
                        gbn_resend(fwd@, seq, next_seq, cs) == gbn_resend(f2, base, next_seq, cs),
                    decreases next_seq - seq,
                {
                    proof {
                        assert(cs[seq as int] == chunks@[seq as int]@);
                        if sound {
                            lemma_data_frame_survives(cs, seq);
                        }
                    }
                    send_if_room(
                        fwd,
                        data_frame(seq, chunks[seq as usize].as_slice()).as_slice(),
                        Ghost(data_frame_model(seq, chunks@[seq as int]@)),
                        Ghost(data_frames_of(cs)),
                    );
                    seq = seq + 1;
                }
                oldest_sent_at = Some(now);
            }
        }
        let done = base as usize == chunks.len();
        let ghost t = gbn_state(fwd@, back@, expected, delivered@, base, next_seq, oldest_sent_at, retries, tick);
        proof {
            assert(gbn_tick(s0, cs, config, window, max_ticks) == gbn_finish(t, cs, max_ticks)) by {
                reveal(gbn_tick);
            }
            if done || tick >= max_ticks {
                assert(gbn_run(s0, cs, config, window, max_ticks) == (t, done)) by {
                    reveal(gbn_run);
                }
            } else {
                assert(gbn_run(s0, cs, config, window, max_ticks) == gbn_run(t, cs, config, window, max_ticks)) by {
                    reveal(gbn_run);
                }
            }
        }
        if done || tick >= max_ticks {
            proof {
                if sound {
                    lemma_flatten_prefix(cs, expected as int);
                    if done {
                        assert(cs.take(expected as int) =~= cs);
                    }
                }
            }
            return RunResult { delivered, ticks_used: tick, completed: done };
        }
    }
}

/// The receiver's output is the first `expected` chunks put together.
pub open spec fn receiver_in_step(r: Receiver, chunks: Seq<Seq<u8>>) -> bool {
    &&& r.expected <= chunks.len()
    &&& r.delivered == flatten(chunks.take(r.expected as int))
}

/// Every datagram among `ds` fails to decode or is the data frame of one
/// of the chunks.
pub open spec fn frames_honest(ds: Seq<Seq<u8>>, chunks: Seq<Seq<u8>>) -> bool {
    forall|i: int| 0 <= i < ds.len() ==> #[trigger] data_frames_of(chunks)(ds[i])
}

proof fn lemma_receive_all_in_step(r: Receiver, ds: Seq<Seq<u8>>, chunks: Seq<Seq<u8>>)
    requires
        receiver_in_step(r, chunks),
        frames_honest(ds, chunks),
        chunks.len() <= u32::MAX,
    ensures
        receiver_in_step(receive_all(r, ds), chunks),
    decreases ds.len(),
{
    if ds.len() > 0 {
        let init = ds.drop_last();
        assert forall|i: int| 0 <= i < init.len() implies #[trigger] data_frames_of(chunks)(init[i]) by {
            assert(init[i] == ds[i]);
        }
        lemma_receive_all_in_step(r, init, chunks);
        let p = receive_all(r, init);
        let d = ds.last();
        assert(data_frames_of(chunks)(ds[ds.len() - 1]));
        lemma_data_frame_decodes(chunks, d);
        if let Ok(f) = crate::frame::spec_decode(d) {
            if f.sequence == p.expected && p.expected < u32::MAX {
                lemma_flatten_take(chunks, p.expected as int);
            }
        }
    }
}

/// Every datagram the forward channel hands the receiver during the
/// stop-and-wait run from `s` fails to decode or is the data frame of one
/// of the chunks.
pub open spec fn sw_frames_honest(s: SwState, chunks: Seq<Seq<u8>>, config: ArqConfig, max_ticks: u64) -> bool
    decreases max_ticks - s.tick,
{
    &&& frames_honest(spec_advance_to(s.fwd, (s.tick + 1) as u64).1, chunks)
    &&& ({
        let (t, end) = sw_tick(s, chunks, config, max_ticks);
        end is None && s.tick < t.tick < max_ticks ==> sw_frames_honest(t, chunks, config, max_ticks)
    })
}

proof fn lemma_sw_run_in_step(s: SwState, chunks: Seq<Seq<u8>>, config: ArqConfig, max_ticks: u64)
    requires
        receiver_in_step(s.rx, chunks),
        sw_frames_honest(s, chunks, config, max_ticks),
        chunks.len() <= u32::MAX,
    ensures
        receiver_in_step(sw_run(s, chunks, config, max_ticks).0.rx, chunks),
    decreases max_ticks - s.tick,
{
    reveal(sw_run);
    reveal(sw_tick);
    let now = (s.tick + 1) as u64;
    let (f, arrived) = spec_advance_to(s.fwd, now);
    lemma_receive_all_in_step(s.rx, arrived, chunks);
    let rx = receive_all(s.rx, arrived);
    let (t, end) = sw_tick(s, chunks, config, max_ticks);
    assert(t.rx.expected == rx.expected && t.rx.delivered == rx.delivered);
    if end is None && s.tick < t.tick < max_ticks {
        lemma_sw_run_in_step(t, chunks, config, max_ticks);
    }
}

/// Every datagram the forward channel hands the receiver during the
/// go-back-N run from `s` fails to decode or is the data frame of one of
/// the chunks.
pub open spec fn gbn_frames_honest(
    s: GbnState,
    chunks: Seq<Seq<u8>>,
    config: ArqConfig,
    window: usize,
    max_ticks: u64,
) -> bool
    decreases max_ticks - s.tick,
{
    &&& frames_honest(spec_advance_to(s.fwd, (s.tick + 1) as u64).1, chunks)
    &&& ({
        let (t, end) = gbn_tick(s, chunks, config, window, max_ticks);
        end is None && s.tick < t.tick < max_ticks ==> gbn_frames_honest(t, chunks, config, window, max_ticks)
    })
}

proof fn lemma_gbn_run_in_step(
    s: GbnState,
    chunks: Seq<Seq<u8>>,
    config: ArqConfig,
    window: usize,
    max_ticks: u64,
)
    requires
        receiver_in_step(s.rx, chunks),
        gbn_frames_honest(s, chunks, config, window, max_ticks),
        chunks.len() <= u32::MAX,
    ensures
        receiver_in_step(gbn_run(s, chunks, config, window, max_ticks).0.rx, chunks),
    decreases max_ticks - s.tick,
{
    reveal(gbn_run);
    reveal(gbn_tick);
    let now = (s.tick + 1) as u64;
    let (f, arrived) = spec_advance_to(s.fwd, now);
    lemma_receive_all_in_step(s.rx, arrived, chunks);
    let rx = receive_all(s.rx, arrived);
    let (t, end) = gbn_tick(s, chunks, config, window, max_ticks);
    assert(t.rx.expected == rx.expected && t.rx.delivered == rx.delivered);
    if end is None && s.tick < t.tick < max_ticks {
        lemma_gbn_run_in_step(t, chunks, config, window, max_ticks);
    }
}

/// The chunk size a configuration's segment size makes (1 for 0).
pub open spec fn chunk_size(config: ArqConfig) -> nat {
    if config.segment_size == 0 {
        1
    } else {
        config.segment_size as nat
    }
}

/// Stop-and-wait over any channels: if every datagram its receiver takes
/// during the run fails to decode or is the data frame of one of the
/// chunks (a checksum collision being what would break this), whatever
/// the channels lose, duplicate, delay or reorder, what the receiver
/// delivers is a prefix of the data.
pub proof fn lemma_stop_and_wait_delivers_prefix(
    data: Seq<u8>,
    fwd: ChannelModel,
    back: ChannelModel,
    config: ArqConfig,
    max_ticks: u64,
)
    requires
        spec_chunks(data, chunk_size(config)).len() <= u32::MAX,
        sw_frames_honest(sw_start(fwd, back), spec_chunks(data, chunk_size(config)), config, max_ticks),
    ensures
        sw_run(sw_start(fwd, back), spec_chunks(data, chunk_size(config)), config, max_ticks).0.rx.delivered.is_prefix_of(
            data,
        ),
{
    let chunks = spec_chunks(data, chunk_size(config));
    assert(chunks.take(0) =~= Seq::<Seq<u8>>::empty());
    lemma_sw_run_in_step(sw_start(fwd, back), chunks, config, max_ticks);
    let r = sw_run(sw_start(fwd, back), chunks, config, max_ticks).0.rx;
    lemma_flatten_prefix(chunks, r.expected as int);
    lemma_chunks(data, chunk_size(config));
}

/// Go-back-N over any channels: if every datagram its receiver takes
/// during the run fails to decode or is the data frame of one of the
/// chunks (a checksum collision being what would break this), whatever
/// the channels lose, duplicate, delay or reorder, what the receiver
/// delivers is a prefix of the data.
pub proof fn lemma_go_back_n_delivers_prefix(
    data: Seq<u8>,
    fwd: ChannelModel,
    back: ChannelModel,
    config: ArqConfig,
    window: usize,
    max_ticks: u64,
)
    requires
        spec_chunks(data, chunk_size(config)).len() <= u32::MAX,
        gbn_frames_honest(
            gbn_start(fwd, back),
            spec_chunks(data, chunk_size(config)),
            config,
            window,
            max_ticks,
        ),
    ensures
        gbn_run(gbn_start(fwd, back), spec_chunks(data, chunk_size(config)), config, window, max_ticks).0.rx.delivered.is_prefix_of(
            data,
        ),
{
    let chunks = spec_chunks(data, chunk_size(config));
    assert(chunks.take(0) =~= Seq::<Seq<u8>>::empty());
    lemma_gbn_run_in_step(gbn_start(fwd, back), chunks, config, window, max_ticks);
    let r = gbn_run(gbn_start(fwd, back), chunks, config, window, max_ticks).0.rx;
    lemma_flatten_prefix(chunks, r.expected as int);
    lemma_chunks(data, chunk_size(config));
}

/// The larger of two indices.
pub open spec fn max_u32(a: u32, b: int) -> int {
    if a >= b {
        a as int
    } else {
        b
    }
}

/// The end of the window that starts at `base`: `window` segments on
/// (the window counted as a `u32`, as the sender counts it), held at
/// `u32::MAX`.
pub open spec fn window_end(base: u32, window: usize) -> int {
    let e = base + (window as u32);
    if e > u32::MAX {
        u32::MAX as int
    } else {
        e
    }
}

proof fn lemma_gbn_fill_next(
    fwd: ChannelModel,
    next_seq: u32,
    oldest: Option<u64>,
    limit: u32,
    chunks: Seq<Seq<u8>>,
    now: u64,
)
    ensures
        gbn_fill(fwd, next_seq, oldest, limit, chunks, now).1 == max_u32(
            next_seq,
            if limit < chunks.len() {
                limit as int
            } else {
                chunks.len() as int
            },
        ),
    decreases chunks.len() - next_seq,
{
    if next_seq < limit && next_seq < chunks.len() {
        lemma_gbn_fill_next(
            post(fwd, data_frame_bytes(next_seq, chunks[next_seq as int])),
            (next_seq + 1) as u32,
            if oldest is None {
                Some(now)
            } else {
                oldest
            },
            limit,
            chunks,
            now,
        );
    }
}

/// Go-back-N keeps its window full: in every tick, after the ACKs that
/// arrived have moved the window's base, the sender sends new segments
/// until `window` segments past the base are outstanding or no segment
/// is left. So the next segment to send after the tick is the window's
/// end or the number of chunks, whichever is smaller, unless it was
/// already past that (a timeout resends, but sends nothing new).
pub proof fn lemma_gbn_tick_fills_window(
    s: GbnState,
    chunks: Seq<Seq<u8>>,
    config: ArqConfig,
    window: usize,
    max_ticks: u64,
)
    ensures
        ({
            let t = gbn_tick(s, chunks, config, window, max_ticks).0;
            let end = window_end(t.base, window);
            t.next_seq == max_u32(
                s.next_seq,
                if end < chunks.len() {
                    end
                } else {
                    chunks.len() as int
                },
            )
        }),
{
    reveal(gbn_tick);
    let now = (s.tick + 1) as u64;
    let (fwd, rx) = spec_receive(s.fwd, s.rx, now);
    let (back, ds) = spec_advance_to(rx.back, now);
    let w = gbn_ack_all(
        GbnWindow { base: s.base, retries: s.retries, oldest_sent_at: s.oldest_sent_at },
        ds,
        s.next_seq,
        now,
    );
    lemma_gbn_fill_next(fwd, s.next_seq, w.oldest_sent_at, w.base.saturating_add(window as u32), chunks, now);
    assert(gbn_tick(s, chunks, config, window, max_ticks).0.base == w.base);
}

/// Stop-and-wait keeps one segment in flight: a tick sends at most one
/// new segment, and a tick that starts with none in flight while
/// segments remain sends the next one, which is then in flight, sent at
/// that tick.
pub proof fn lemma_sw_tick_one_in_flight(
    s: SwState,
    chunks: Seq<Seq<u8>>,
    config: ArqConfig,
    max_ticks: u64,
)
    requires
        s.next_seq < u32::MAX,
        s.tick < u64::MAX,
    ensures
        ({
            let t = sw_tick(s, chunks, config, max_ticks).0;
            &&& s.next_seq <= t.next_seq <= s.next_seq + 1
            &&& s.unacked is None && s.next_seq < chunks.len() ==> {
                &&& t.next_seq == s.next_seq + 1
                &&& t.unacked == Some((s.next_seq, (s.tick + 1) as u64))
            }
        }),
{
    reveal(sw_tick);
}

} // verus!
