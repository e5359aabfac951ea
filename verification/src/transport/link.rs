//! Two connections joined by two one-way channels, and the stream law of
//! the whole: over channels that may lose, duplicate, delay and reorder
//! datagrams, and either flip a bit of one or cut one short but never
//! both, whatever the two sides and the two channels do, in whatever
//! order, each side has received a prefix of what the other side sent,
//! and holds out of order only the other side's bytes at their offsets.
//!
//! A channel that can both flip a bit of a datagram and cut it short is
//! left out: the checksum then sees bytes it was never computed over,
//! and nothing rules out a match.

use crate::channel::laws::{
    carries_only, damages_one_way, lemma_deliver_carries, lemma_uncut_send, lemma_unflipped_send,
    never_truncates,
};
use crate::channel::{send_fits, spec_deliver_ready, ChannelModel};
use crate::frame::{spec_decode, spec_encode, FrameModel};
use crate::transport::connection::{
    conn_inv, datagram_safe, spec_close, spec_on_datagram, spec_on_tick, spec_send,
    ConnectionModel,
};
use crate::transport::laws::{
    all_carry, carries, emits, frame_carries, lemma_carries_extends, lemma_close_law,
    lemma_emits_prefix, lemma_on_tick_law, lemma_receive_law, lemma_receiver_consistent_extends,
    lemma_send_law, receiver_consistent, same_receive_side,
};
use crate::transport::rto::MAX_RTT_SAMPLE;
use crate::transport::valid::{
    lemma_close_keeps_inv, lemma_on_datagram_keeps_inv, lemma_on_tick_keeps_inv,
    lemma_send_keeps_inv,
};
use vstd::prelude::*;

verus! {

/// Two connections, the channel from `a` to `b` and the one back, and
/// the datagrams each side has been handed and not yet taken.
#[verifier::ext_equal]
pub struct LinkModel {
    pub a: ConnectionModel,
    pub b: ConnectionModel,
    pub ab: ChannelModel,
    pub ba: ChannelModel,
    pub inbox_a: Seq<Seq<u8>>,
    pub inbox_b: Seq<Seq<u8>>,
}

/// One thing that happens on a link, at side `a` when `at_a` holds and
/// at side `b` otherwise. What a connection emits goes onto its outgoing
/// channel, each datagram while that channel has room for it.
pub enum LinkEvent {
    /// The application queues bytes.
    Send { at_a: bool, now: u64, data: Seq<u8> },
    /// The application asks to close.
    Close { at_a: bool, now: u64 },
    /// The connection's timers run.
    Tick { at_a: bool, now: u64 },
    /// The incoming channel hands over what has arrived by `now`.
    Arrive { at_a: bool, now: u64 },
    /// The connection takes the oldest datagram handed to it.
    Take { at_a: bool, now: u64 },
    /// The oldest datagram handed over is dropped unread.
    Discard { at_a: bool },
    /// The application reads what has been delivered.
    Read { at_a: bool },
}

/// The same link seen from the other side.
pub open spec fn flip(s: LinkModel) -> LinkModel {
    LinkModel { a: s.b, b: s.a, ab: s.ba, ba: s.ab, inbox_a: s.inbox_b, inbox_b: s.inbox_a }
}

/// `out` put on `ch` in order, each datagram while `ch` has room (a
/// datagram is a byte slice, at most `usize::MAX` long).
pub open spec fn post_all(ch: ChannelModel, out: Seq<Seq<u8>>) -> ChannelModel
    decreases out.len(),
{
    if out.len() == 0 {
        ch
    } else {
        let c = post_all(ch, out.drop_last());
        if send_fits(c) && out.last().len() <= usize::MAX {
            crate::channel::spec_send(c, out.last())
        } else {
            c
        }
    }
}

/// An event at side `a`.
pub open spec fn step_at_a(s: LinkModel, e: LinkEvent) -> LinkModel {
    match e {
        LinkEvent::Send { now, data, .. } => {
            let (a, out) = spec_send(s.a, now, data);
            LinkModel { a, ab: post_all(s.ab, out), ..s }
        },
        LinkEvent::Close { now, .. } => {
            let (a, out) = spec_close(s.a, now);
            LinkModel { a, ab: post_all(s.ab, out), ..s }
        },
        LinkEvent::Tick { now, .. } => {
            let (a, out) = spec_on_tick(s.a, now);
            LinkModel { a, ab: post_all(s.ab, out), ..s }
        },
        LinkEvent::Arrive { now, .. } => {
            let ch = ChannelModel { now: if now > s.ba.now { now } else { s.ba.now }, ..s.ba };
            let (ba, got) = spec_deliver_ready(ch);
            LinkModel { ba, inbox_a: s.inbox_a + got, ..s }
        },
        LinkEvent::Take { now, .. } => if s.inbox_a.len() == 0 {
            s
        } else {
            let (a, out) = spec_on_datagram(s.a, now, s.inbox_a[0]);
            LinkModel { a, ab: post_all(s.ab, out), inbox_a: s.inbox_a.skip(1), ..s }
        },
        LinkEvent::Discard { .. } => if s.inbox_a.len() == 0 {
            s
        } else {
            LinkModel { inbox_a: s.inbox_a.skip(1), ..s }
        },
        LinkEvent::Read { .. } => LinkModel { a: ConnectionModel { delivered: Seq::empty(), ..s.a }, ..s },
    }
}

/// The side an event happens at.
pub open spec fn at_a(e: LinkEvent) -> bool {
    match e {
        LinkEvent::Send { at_a, .. } => at_a,
        LinkEvent::Close { at_a, .. } => at_a,
        LinkEvent::Tick { at_a, .. } => at_a,
        LinkEvent::Arrive { at_a, .. } => at_a,
        LinkEvent::Take { at_a, .. } => at_a,
        LinkEvent::Discard { at_a } => at_a,
        LinkEvent::Read { at_a } => at_a,
    }
}

/// What one event does to a link.
#[verifier::opaque]
pub open spec fn link_step(s: LinkModel, e: LinkEvent) -> LinkModel {
    if at_a(e) {
        step_at_a(s, e)
    } else {
        flip(step_at_a(flip(s), e))
    }
}

/// A link after a sequence of events.
pub open spec fn run(s: LinkModel, events: Seq<LinkEvent>) -> LinkModel
    decreases events.len(),
{
    if events.len() == 0 {
        s
    } else {
        link_step(run(s, events.drop_last()), events.last())
    }
}

/// What an event at side `a` asks of the link: what the connection's
/// own operation requires (a clock within range, queued bytes within the
/// stream's 32-bit offsets, a datagram it can take safely).
pub open spec fn event_ok_at_a(s: LinkModel, e: LinkEvent) -> bool {
    match e {
        LinkEvent::Send { now, data, .. } => now <= MAX_RTT_SAMPLE && s.a.sent.len() + data.len()
            <= u32::MAX,
        LinkEvent::Close { now, .. } => now <= MAX_RTT_SAMPLE,
        LinkEvent::Tick { now, .. } => now <= MAX_RTT_SAMPLE,
        LinkEvent::Take { now, .. } => now <= MAX_RTT_SAMPLE && (s.inbox_a.len() > 0
            ==> datagram_safe(s.a, now, s.inbox_a[0])),
        _ => true,
    }
}

pub open spec fn event_ok(s: LinkModel, e: LinkEvent) -> bool {
    if at_a(e) {
        event_ok_at_a(s, e)
    } else {
        event_ok_at_a(flip(s), e)
    }
}

/// Both connections intact.
pub open spec fn link_valid(s: LinkModel) -> bool {
    conn_inv(s.a) && conn_inv(s.b)
}

/// Datagrams carrying bytes of stream `s` only.
pub open spec fn carrying(s: Seq<u8>) -> spec_fn(Seq<u8>) -> bool {
    |d: Seq<u8>| carries(d, s)
}

/// The flow from `a` to `b` is honest: the channel damages a datagram at
/// most one way and carries only `a`'s bytes, so does what `b` has been
/// handed, and `b` agrees with `a`'s stream.
pub open spec fn flow_sound(
    a: ConnectionModel,
    b: ConnectionModel,
    ab: ChannelModel,
    inbox_b: Seq<Seq<u8>>,
) -> bool {
    &&& damages_one_way(ab)
    &&& carries_only(ab, carrying(a.sent))
    &&& forall|i: int| 0 <= i < inbox_b.len() ==> carries(#[trigger] inbox_b[i], a.sent)
    &&& receiver_consistent(b, a.sent)
}

/// Both flows of a link are honest.
pub open spec fn link_sound(s: LinkModel) -> bool {
    &&& flow_sound(s.a, s.b, s.ab, s.inbox_b)
    &&& flow_sound(s.b, s.a, s.ba, s.inbox_a)
}

/// A link about to start: channels that damage a datagram at most one
/// way and hold none, nothing handed over, and two connections that have
/// neither sent nor received a byte.
pub open spec fn fresh_link(s: LinkModel) -> bool {
    &&& damages_one_way(s.ab)
    &&& damages_one_way(s.ba)
    &&& s.ab.in_flight.len() == 0
    &&& s.ba.in_flight.len() == 0
    &&& s.inbox_a.len() == 0
    &&& s.inbox_b.len() == 0
    &&& s.a.sent.len() == 0
    &&& s.b.sent.len() == 0
    &&& s.a.received.len() == 0
    &&& s.b.received.len() == 0
    &&& s.a.recv_buffer.len() == 0
    &&& s.b.recv_buffer.len() == 0
}

pub(crate) proof fn lemma_post_all(ch: ChannelModel, out: Seq<Seq<u8>>, s: Seq<u8>)
    requires
        damages_one_way(ch),
        carries_only(ch, carrying(s)),
        all_carry(out, s),
    ensures
        damages_one_way(post_all(ch, out)),
        carries_only(post_all(ch, out), carrying(s)),
    decreases out.len(),
{
    if out.len() > 0 {
        let init = out.drop_last();
        assert forall|i: int| 0 <= i < init.len() implies #[trigger] emits(init[i], s) by {
            assert(init[i] == out[i]);
        }
        lemma_post_all(ch, init, s);
        let c = post_all(ch, init);
        let d = out.last();
        if send_fits(c) && d.len() <= usize::MAX {
            assert(emits(out[out.len() - 1], s));
            if never_truncates(c) {
                let f = choose|f: FrameModel| d == #[trigger] spec_encode(f) && frame_carries(f, s);
                assert forall|b: Seq<u8>| spec_decode(b) is Err implies #[trigger] carrying(s)(b) by {}
                lemma_emits_prefix(d, s, d.len() as int);
                assert(d.take(d.len() as int) =~= d);
                lemma_uncut_send(c, f, carrying(s));
            } else {
                assert forall|k: int| 0 <= k <= d.len() implies #[trigger] carrying(s)(d.take(k)) by {
                    lemma_emits_prefix(d, s, k);
                }
                lemma_unflipped_send(c, d, carrying(s));
            }
        }
    }
}

/// A channel carrying bytes of a stream carries bytes of any extension
/// of it.
pub(crate) proof fn lemma_channel_extends(ch: ChannelModel, s: Seq<u8>, more: Seq<u8>)
    requires
        carries_only(ch, carrying(s)),
    ensures
        carries_only(ch, carrying(s + more)),
{
    assert forall|i: int| 0 <= i < ch.in_flight.len() implies #[trigger] carrying(s + more)(
        ch.in_flight[i].2,
    ) by {
        assert(carrying(s)(ch.in_flight[i].2));
        lemma_carries_extends(ch.in_flight[i].2, s, more);
    }
}

/// A step of side `a`'s own sending machinery (send, close, timers)
/// that grows its stream by `more`, keeps its receive side, and emits
/// datagrams carrying its stream keeps the link sound.
pub(crate) proof fn lemma_sender_step(s: LinkModel, a: ConnectionModel, out: Seq<Seq<u8>>, more: Seq<u8>)
    requires
        link_sound(s),
        a.sent == s.a.sent + more,
        same_receive_side(a, s.a),
        all_carry(out, a.sent),
    ensures
        link_sound(LinkModel { a, ab: post_all(s.ab, out), ..s }),
{
    let t = LinkModel { a, ab: post_all(s.ab, out), ..s };
    lemma_channel_extends(s.ab, s.a.sent, more);
    lemma_post_all(s.ab, out, a.sent);
    assert forall|i: int| 0 <= i < s.inbox_b.len() implies carries(#[trigger] s.inbox_b[i], a.sent) by {
        lemma_carries_extends(s.inbox_b[i], s.a.sent, more);
    }
    lemma_receiver_consistent_extends(s.b, s.a.sent, more);
    assert(t.a.received == s.a.received && t.a.recv_buffer == s.a.recv_buffer);
}

/// One event at side `a` keeps a sound link sound, and both
/// connections intact.
proof fn lemma_step_at_a(s: LinkModel, e: LinkEvent)
    requires
        link_sound(s),
        link_valid(s),
        event_ok_at_a(s, e),
    ensures
        link_sound(step_at_a(s, e)),
        link_valid(step_at_a(s, e)),
{
    match e {
        LinkEvent::Send { now, data, .. } => {
            lemma_send_keeps_inv(s.a, now, data);
            lemma_send_law(s.a, now, data);
            let (a, out) = spec_send(s.a, now, data);
            lemma_sender_step(s, a, out, data);
        },
        LinkEvent::Close { now, .. } => {
            lemma_close_keeps_inv(s.a, now);
            lemma_close_law(s.a, now);
            let (a, out) = spec_close(s.a, now);
            assert(s.a.sent + Seq::<u8>::empty() =~= s.a.sent);
            lemma_sender_step(s, a, out, Seq::empty());
        },
        LinkEvent::Tick { now, .. } => {
            lemma_on_tick_keeps_inv(s.a, now);
            lemma_on_tick_law(s.a, now);
            let (a, out) = spec_on_tick(s.a, now);
            assert(s.a.sent + Seq::<u8>::empty() =~= s.a.sent);
            lemma_sender_step(s, a, out, Seq::empty());
        },
        LinkEvent::Arrive { now, .. } => {
            let ch = ChannelModel { now: if now > s.ba.now { now } else { s.ba.now }, ..s.ba };
            lemma_deliver_carries(ch, carrying(s.b.sent));
            let (ba, got) = spec_deliver_ready(ch);
            let inbox = s.inbox_a + got;
            assert forall|i: int| 0 <= i < inbox.len() implies carries(#[trigger] inbox[i], s.b.sent) by {
                if i >= s.inbox_a.len() {
                    assert(carrying(s.b.sent)(got[i - s.inbox_a.len()]));
                }
            }
        },
        LinkEvent::Take { now, .. } => {
            if s.inbox_a.len() > 0 {
                let d = s.inbox_a[0];
                lemma_on_datagram_keeps_inv(s.a, now, d);
                lemma_receive_law(s.a, now, d, s.b.sent);
                let (a, out) = spec_on_datagram(s.a, now, d);
                lemma_post_all(s.ab, out, s.a.sent);
                let rest = s.inbox_a.skip(1);
                assert forall|i: int| 0 <= i < rest.len() implies carries(#[trigger] rest[i], s.b.sent) by {
                    assert(rest[i] == s.inbox_a[i + 1]);
                }
            }
        },
        LinkEvent::Discard { .. } => {
            if s.inbox_a.len() > 0 {
                let rest = s.inbox_a.skip(1);
                assert forall|i: int| 0 <= i < rest.len() implies carries(#[trigger] rest[i], s.b.sent) by {
                    assert(rest[i] == s.inbox_a[i + 1]);
                }
            }
        },
        LinkEvent::Read { .. } => {
            let a = ConnectionModel { delivered: Seq::empty(), ..s.a };
            assert(a.unacked == s.a.unacked && a.recv_buffer == s.a.recv_buffer);
        },
    }
}

/// Any event keeps a sound link sound, and both connections intact.
pub(crate) proof fn lemma_step(s: LinkModel, e: LinkEvent)
    requires
        link_sound(s),
        link_valid(s),
        event_ok(s, e),
    ensures
        link_sound(link_step(s, e)),
        link_valid(link_step(s, e)),
{
    reveal(link_step);
    if at_a(e) {
        lemma_step_at_a(s, e);
    } else {
        lemma_step_at_a(flip(s), e);
    }
}

/// A fresh link is sound.
pub(crate) proof fn lemma_fresh_sound(s: LinkModel)
    requires
        fresh_link(s),
    ensures
        link_sound(s),
{
    assert(Seq::<u8>::empty() =~= s.a.sent.take(0));
    assert(Seq::<u8>::empty() =~= s.b.sent.take(0));
    assert(s.a.received =~= s.b.sent.take(0));
    assert(s.b.received =~= s.a.sent.take(0));
}

/// The stream law of a link: starting fresh, with both connections
/// intact, over channels that may lose, duplicate, delay and reorder
/// datagrams and either flip a bit of one or cut one short (never both),
/// after any sequence of events each of which meets what the
/// connection's own operation requires, both connections are still
/// intact, each side has received a prefix of what the other has sent,
/// and holds out of order only the other's bytes at their offsets.
/// Received bytes are thus never lost in the middle, reordered or
/// delivered twice.
pub proof fn lemma_link_streams(s: LinkModel, events: Seq<LinkEvent>)
    requires
        fresh_link(s),
        link_valid(s),
        forall|k: int|
            0 <= k < events.len() ==> event_ok(#[trigger] run(s, events.take(k)), events[k]),
    ensures
        link_valid(run(s, events)),
        link_sound(run(s, events)),
        run(s, events).b.received.is_prefix_of(run(s, events).a.sent),
        run(s, events).a.received.is_prefix_of(run(s, events).b.sent),
    decreases events.len(),
{
    if events.len() == 0 {
        lemma_fresh_sound(s);
    } else {
        let init = events.drop_last();
        let n = init.len() as int;
        assert forall|k: int| 0 <= k < init.len() implies event_ok(#[trigger] run(s, init.take(k)), init[k]) by {
            assert(init.take(k) =~= events.take(k));
        }
        lemma_link_streams(s, init);
        assert(events.take(n) =~= init);
        assert(event_ok(run(s, events.take(n)), events[n]));
        lemma_step(run(s, init), events.last());
    }
    let t = run(s, events);
    assert(t.b.received.subrange(0, t.b.received.len() as int) =~= t.b.received);
    assert(t.a.received.subrange(0, t.a.received.len() as int) =~= t.a.received);
}


/// A taken datagram carries the other side's bytes: every datagram that
/// an event hands to a connection either does not decode, carries no
/// application bytes, or carries the sender's stream at its offset.
pub open spec fn take_carries(s: LinkModel, e: LinkEvent) -> bool {
    match e {
        LinkEvent::Take { at_a, .. } => if at_a {
            s.inbox_a.len() > 0 ==> carries(s.inbox_a[0], s.b.sent)
        } else {
            s.inbox_b.len() > 0 ==> carries(s.inbox_b[0], s.a.sent)
        },
        _ => true,
    }
}

/// Each side agrees with the other side's stream.
pub open spec fn streams_agree(s: LinkModel) -> bool {
    receiver_consistent(s.a, s.b.sent) && receiver_consistent(s.b, s.a.sent)
}

/// One event at side `a` whose taken datagram carries `b`'s bytes keeps
/// both sides agreeing with each other's stream, and both intact.
proof fn lemma_step_agree_at_a(s: LinkModel, e: LinkEvent)
    requires
        streams_agree(s),
        link_valid(s),
        event_ok_at_a(s, e),
        e is Take ==> (s.inbox_a.len() > 0 ==> carries(s.inbox_a[0], s.b.sent)),
    ensures
        streams_agree(step_at_a(s, e)),
        link_valid(step_at_a(s, e)),
{
    match e {
        LinkEvent::Send { now, data, .. } => {
            lemma_send_keeps_inv(s.a, now, data);
            lemma_send_law(s.a, now, data);
            lemma_receiver_consistent_extends(s.b, s.a.sent, data);
        },
        LinkEvent::Close { now, .. } => {
            lemma_close_keeps_inv(s.a, now);
            lemma_close_law(s.a, now);
        },
        LinkEvent::Tick { now, .. } => {
            lemma_on_tick_keeps_inv(s.a, now);
            lemma_on_tick_law(s.a, now);
        },
        LinkEvent::Take { now, .. } => {
            if s.inbox_a.len() > 0 {
                let d = s.inbox_a[0];
                lemma_on_datagram_keeps_inv(s.a, now, d);
                lemma_receive_law(s.a, now, d, s.b.sent);
            }
        },
        LinkEvent::Read { .. } => {
            let a = ConnectionModel { delivered: Seq::empty(), ..s.a };
            assert(a.unacked == s.a.unacked && a.recv_buffer == s.a.recv_buffer);
        },
        _ => {},
    }
}

/// Any event whose taken datagram carries the sender's bytes keeps both
/// sides agreeing with each other's stream, and both intact.
pub(crate) proof fn lemma_step_agree(p: LinkModel, e: LinkEvent)
    requires
        streams_agree(p),
        link_valid(p),
        event_ok(p, e),
        take_carries(p, e),
    ensures
        streams_agree(link_step(p, e)),
        link_valid(link_step(p, e)),
{
    reveal(link_step);
    if at_a(e) {
        lemma_step_agree_at_a(p, e);
    } else {
        lemma_step_agree_at_a(flip(p), e);
    }
}

/// The stream law of a link over any channels: starting with two
/// connections that have neither sent nor received a byte, both intact,
/// whatever the channels do to datagrams (lose, duplicate, delay,
/// reorder, corrupt, truncate, in any combination), after any sequence
/// of events each of which meets what the connection's own operation
/// requires, and in which every datagram a connection takes either fails
/// to decode, carries no application bytes, or carries the sender's
/// bytes at their offset (a checksum collision being what would break
/// this), both connections are intact and each side has received a
/// prefix of what the other sent, holding out of order only the other's
/// bytes at their offsets.
pub proof fn lemma_link_streams_when_takes_carry(s: LinkModel, events: Seq<LinkEvent>)
    requires
        link_valid(s),
        s.a.sent.len() == 0,
        s.b.sent.len() == 0,
        s.a.received.len() == 0,
        s.b.received.len() == 0,
        s.a.recv_buffer.len() == 0,
        s.b.recv_buffer.len() == 0,
        forall|k: int|
            0 <= k < events.len() ==> event_ok(#[trigger] run(s, events.take(k)), events[k])
                && take_carries(run(s, events.take(k)), events[k]),
    ensures
        link_valid(run(s, events)),
        streams_agree(run(s, events)),
        run(s, events).b.received.is_prefix_of(run(s, events).a.sent),
        run(s, events).a.received.is_prefix_of(run(s, events).b.sent),
    decreases events.len(),
{
    if events.len() == 0 {
        assert(s.a.received =~= s.b.sent.take(0));
        assert(s.b.received =~= s.a.sent.take(0));
    } else {
        let init = events.drop_last();
        let n = init.len() as int;
        assert forall|k: int| 0 <= k < init.len() implies event_ok(#[trigger] run(s, init.take(k)), init[k])
            && take_carries(run(s, init.take(k)), init[k]) by {
            assert(init.take(k) =~= events.take(k));
        }
        lemma_link_streams_when_takes_carry(s, init);
        assert(events.take(n) =~= init);
        let p = run(s, init);
        let e = events.last();
        assert(event_ok(p, e) && take_carries(p, e));
        lemma_step_agree(p, e);
    }
    let t = run(s, events);
    assert(t.b.received.subrange(0, t.b.received.len() as int) =~= t.b.received);
    assert(t.a.received.subrange(0, t.a.received.len() as int) =~= t.a.received);
}

} // verus!
