//! A client's connection talking to a server over a link, and the
//! session law: whatever the client, the server's handler and the two
//! channels do, in whatever order, every response frame the client's
//! connection has received is the answer the server stored for that
//! request: the one its handler gave when the request first ran, never
//! replaced. It holds over any channels provided every datagram a
//! connection takes fails to decode or carries the sender's bytes, and
//! unconditionally over channels that damage a datagram at most one way.

use crate::rpc::framing::split_frames;
use crate::rpc::laws::{
    answers_only, lemma_heard_answers_are_stored, lemma_on_datagram_answers,
    lemma_runs_once_keyed, lemma_serve_frames_runs_once, runs_once, stored_answer,
};
use crate::rpc::message::spec_decode_request;
use crate::rpc::server::{
    response_for, serve_frame, serve_frames, spec_server_on_datagram, ServerModel,
};
use crate::transport::connection::{
    conn_inv, datagram_safe, spec_on_datagram, spec_on_tick, ConnectionModel,
};
use crate::transport::laws::{
    all_carry, carries, lemma_all_carry_concat, lemma_all_carry_extends, lemma_carries_extends,
    lemma_on_tick_law, lemma_receive_law, lemma_receiver_consistent_extends, lemma_send_law,
    receiver_consistent, same_receive_side,
};
use crate::transport::link::{
    at_a, event_ok, fresh_link, lemma_channel_extends, lemma_fresh_sound,
    lemma_post_all, lemma_step, lemma_step_agree, link_sound, link_step, link_valid, post_all,
    streams_agree, take_carries, LinkEvent, LinkModel,
};
use crate::transport::rto::MAX_RTT_SAMPLE;
use crate::transport::valid::{
    lemma_on_datagram_keeps_inv, lemma_on_tick_keeps_inv, lemma_send_keeps_inv,
};
use vstd::prelude::*;

verus! {

/// A link whose side `b` is a server: `server.conn` is `link.b`.
pub struct SessionModel {
    pub link: LinkModel,
    pub server: ServerModel,
}

/// One thing that happens in a session.
pub enum SessionEvent {
    /// Something at the client's side, or the server's incoming channel
    /// handing over or dropping a datagram (other link events at the
    /// server's side change nothing: the server does its own).
    Link(LinkEvent),
    /// The server takes the oldest datagram handed to it and serves the
    /// requests it completes, its handler answering `answers` in turn.
    Serve { now: u64, answers: Seq<(bool, Seq<u8>)> },
    /// The server's timers run.
    ServerTick { now: u64 },
}

/// A link event the client side or the server's incoming channel makes.
pub open spec fn link_side_event(e: LinkEvent) -> bool {
    at_a(e) || e is Arrive || e is Discard
}

/// What one event does to a session.
#[verifier::opaque]
pub open spec fn session_step(s: SessionModel, e: SessionEvent) -> SessionModel {
    match e {
        SessionEvent::Link(le) => if link_side_event(le) {
            let l = link_step(s.link, le);
            SessionModel { link: l, server: ServerModel { conn: l.b, ..s.server } }
        } else {
            s
        },
        SessionEvent::Serve { now, answers } => if s.link.inbox_b.len() == 0 {
            s
        } else {
            let (srv, out) = spec_server_on_datagram(s.server, now, s.link.inbox_b[0], answers);
            SessionModel {
                link: LinkModel {
                    b: srv.conn,
                    ba: post_all(s.link.ba, out),
                    inbox_b: s.link.inbox_b.skip(1),
                    ..s.link
                },
                server: srv,
            }
        },
        SessionEvent::ServerTick { now } => {
            let (c, out) = spec_on_tick(s.server.conn, now);
            SessionModel {
                link: LinkModel { b: c, ba: post_all(s.link.ba, out), ..s.link },
                server: ServerModel { conn: c, ..s.server },
            }
        },
    }
}

/// A session after a sequence of events.
pub open spec fn run_session(s: SessionModel, events: Seq<SessionEvent>) -> SessionModel
    decreases events.len(),
{
    if events.len() == 0 {
        s
    } else {
        session_step(run_session(s, events.drop_last()), events.last())
    }
}

/// What an event asks of the session: what the operation it runs
/// requires.
pub open spec fn session_event_ok(s: SessionModel, e: SessionEvent) -> bool {
    match e {
        SessionEvent::Link(le) => event_ok(s.link, le),
        SessionEvent::Serve { now, .. } => now <= MAX_RTT_SAMPLE && (s.link.inbox_b.len() > 0
            ==> datagram_safe(s.server.conn, now, s.link.inbox_b[0])),
        SessionEvent::ServerTick { now } => now <= MAX_RTT_SAMPLE,
    }
}

/// A session that keeps its promises: a sound, intact link; the server
/// owns side `b`; each request ran at most once, its table holding
/// exactly the answers of those runs; and its stream carries only stored
/// answers.
pub open spec fn session_ok(s: SessionModel) -> bool {
    &&& link_sound(s.link)
    &&& link_valid(s.link)
    &&& s.server.conn == s.link.b
    &&& runs_once(s.server)
    &&& answers_only(s.server.conn.sent, s.server.seen)
}

/// A session about to start: a fresh, intact link whose side `b` is a
/// server whose requests so far each ran at most once.
pub open spec fn fresh_session(s: SessionModel) -> bool {
    &&& fresh_link(s.link)
    &&& link_valid(s.link)
    &&& s.server.conn == s.link.b
    &&& runs_once(s.server)
}

/// Serving frames only sends on the server's stream: its receive side
/// stays, its sent stream grows, the connection stays intact, and every
/// datagram sent carries the stream.
proof fn lemma_serve_frames_stream(
    s: ServerModel,
    now: u64,
    frames: Seq<Seq<u8>>,
    answers: Seq<(bool, Seq<u8>)>,
)
    requires
        conn_inv(s.conn),
        now <= MAX_RTT_SAMPLE,
    ensures
        ({
            let (t, out) = serve_frames(s, now, frames, answers);
            &&& conn_inv(t.conn)
            &&& same_receive_side(t.conn, s.conn)
            &&& s.conn.sent.is_prefix_of(t.conn.sent)
            &&& all_carry(out, t.conn.sent)
        }),
    decreases frames.len(),
{
    if frames.len() == 0 {
        assert(s.conn.sent.subrange(0, s.conn.sent.len() as int) =~= s.conn.sent);
    } else {
        lemma_serve_frames_stream(s, now, frames.drop_last(), answers);
        let (s1, o1) = serve_frames(s, now, frames.drop_last(), answers);
        let answer = answers[s1.runs.len() - s.runs.len()];
        let bytes = frames.last();
        let (s2, o2) = serve_frame(s1, now, bytes, answer);
        match spec_decode_request(bytes) {
            None => {},
            Some(req) => {
                let (s1b, resp) = response_for(s1, req, answer);
                assert(s1b.conn == s1.conn);
                let out = crate::rpc::framing::spec_frame(crate::rpc::message::spec_encode_response(resp));
                if s1b.conn.sent.len() + out.len() <= u32::MAX {
                    lemma_send_law(s1b.conn, now, out);
                    lemma_send_keeps_inv(s1b.conn, now, out);
                    assert(s1.conn.sent + out =~= s2.conn.sent);
                    lemma_all_carry_extends(o1, s1.conn.sent, out);
                    lemma_all_carry_concat(o1, o2, s2.conn.sent);
                    assert(s.conn.sent.is_prefix_of(s2.conn.sent)) by {
                        assert(s2.conn.sent.subrange(0, s.conn.sent.len() as int) =~= s1.conn.sent.subrange(
                            0,
                            s.conn.sent.len() as int,
                        ));
                    }
                }
            },
        }
        let (t, out) = serve_frames(s, now, frames, answers);
        assert(t == s2 && out == o1 + o2);
        if o2.len() == 0 {
            assert(o1 + o2 =~= o1);
        }
    }
}

/// A datagram taken and served by the server keeps the session's
/// promises.
pub(crate) proof fn lemma_serve_step(s: SessionModel, now: u64, answers: Seq<(bool, Seq<u8>)>)
    requires
        session_ok(s),
        session_event_ok(s, SessionEvent::Serve { now, answers }),
    ensures
        session_ok(session_step(s, SessionEvent::Serve { now, answers })),
        s.server.seen.submap_of(session_step(s, SessionEvent::Serve { now, answers }).server.seen),
{
    reveal(session_step);
    let l = s.link;
    if l.inbox_b.len() > 0 {
        let a = l.a;
        let b = l.b;
        let d = l.inbox_b[0];
        assert(carries(d, a.sent));
        lemma_on_datagram_keeps_inv(b, now, d);
        lemma_receive_law(b, now, d, a.sent);
        let (c1, o1) = spec_on_datagram(b, now, d);
        let (frames, rest) = split_frames(s.server.reader + c1.delivered);
        let c1r = ConnectionModel { delivered: Seq::empty(), ..c1 };
        assert(c1r.unacked == c1.unacked && c1r.recv_buffer == c1.recv_buffer);
        let s1 = ServerModel { conn: c1r, reader: rest, ..s.server };
        lemma_serve_frames_stream(s1, now, frames, answers);
        let (s2, o2) = serve_frames(s1, now, frames, answers);
        let sent2 = s2.conn.sent;
        let more = sent2.skip(b.sent.len() as int);
        assert(b.sent + more =~= sent2);
        lemma_all_carry_extends(o1, b.sent, more);
        lemma_all_carry_concat(o1, o2, sent2);
        let (srv, out) = spec_server_on_datagram(s.server, now, d, answers);
        assert(srv == s2 && out == o1 + o2);
        lemma_runs_once_keyed(s.server);
        lemma_on_datagram_answers(s.server, now, d, answers);
        lemma_serve_frames_runs_once(s1, now, frames, answers);
        // The flow from the client to the server.
        let rest_in = l.inbox_b.skip(1);
        assert forall|i: int| 0 <= i < rest_in.len() implies carries(#[trigger] rest_in[i], a.sent) by {
            assert(rest_in[i] == l.inbox_b[i + 1]);
        }
        assert(receiver_consistent(s2.conn, a.sent));
        // The flow from the server to the client.
        lemma_channel_extends(l.ba, b.sent, more);
        lemma_post_all(l.ba, out, sent2);
        assert forall|i: int| 0 <= i < l.inbox_a.len() implies carries(#[trigger] l.inbox_a[i], sent2) by {
            lemma_carries_extends(l.inbox_a[i], b.sent, more);
        }
        lemma_receiver_consistent_extends(a, b.sent, more);
    }
}

proof fn lemma_runs_once_same(a: ServerModel, b: ServerModel)
    requires
        runs_once(a),
        a.runs == b.runs,
        a.seen == b.seen,
    ensures
        runs_once(b),
{
}

/// The server's timers keep the session's promises.
pub(crate) proof fn lemma_server_tick_step(s: SessionModel, now: u64)
    requires
        session_ok(s),
        session_event_ok(s, SessionEvent::ServerTick { now }),
    ensures
        session_ok(session_step(s, SessionEvent::ServerTick { now })),
        session_step(s, SessionEvent::ServerTick { now }).server.seen == s.server.seen,
{
    reveal(session_step);
    let l = s.link;
    let b = l.b;
    lemma_on_tick_law(b, now);
    lemma_on_tick_keeps_inv(b, now);
    let (c, out) = spec_on_tick(b, now);
    lemma_post_all(l.ba, out, b.sent);
    assert(receiver_consistent(c, l.a.sent));
    lemma_runs_once_same(s.server, ServerModel { conn: c, ..s.server });
}

/// A link event keeps the session's promises.
pub(crate) proof fn lemma_link_event_step(s: SessionModel, le: LinkEvent)
    requires
        session_ok(s),
        session_event_ok(s, SessionEvent::Link(le)),
    ensures
        session_ok(session_step(s, SessionEvent::Link(le))),
        session_step(s, SessionEvent::Link(le)).server.seen == s.server.seen,
{
    reveal(session_step);
    if link_side_event(le) {
        lemma_step(s.link, le);
        lemma_link_side_keeps_b(s.link, le);
        let l = link_step(s.link, le);
        lemma_runs_once_same(s.server, ServerModel { conn: l.b, ..s.server });
    }
}

/// A client-side event, or the server's channel handing over or
/// dropping a datagram, leaves the server's connection alone.
proof fn lemma_link_side_keeps_b(l: LinkModel, le: LinkEvent)
    requires
        link_side_event(le),
    ensures
        link_step(l, le).b == l.b,
{
    reveal(link_step);
}

/// The session law: starting fresh, over channels that may lose,
/// duplicate, delay and reorder datagrams and either flip a bit of one
/// or cut one short (never both), after any sequence of events each of
/// which meets what its operation requires, and whatever the server's
/// handler answers, each request has run at most once, no stored answer
/// was ever replaced, the client's connection has received a prefix of
/// the server's stream, and every whole frame in what it received is the
/// encoding of the answer the server stored for that request, however
/// often the request was retried.
pub proof fn lemma_session_answers(s: SessionModel, events: Seq<SessionEvent>)
    requires
        fresh_session(s),
        forall|k: int|
            0 <= k < events.len() ==> session_event_ok(
                #[trigger] run_session(s, events.take(k)),
                events[k],
            ),
    ensures
        session_ok(run_session(s, events)),
        forall|k: int|
            0 <= k <= events.len() ==> (#[trigger] run_session(s, events.take(k))).server.seen.submap_of(
                run_session(s, events).server.seen,
            ),
        run_session(s, events).link.a.received.is_prefix_of(run_session(s, events).server.conn.sent),
        forall|k: int|
            0 <= k < split_frames(run_session(s, events).link.a.received).0.len() ==> stored_answer(
                #[trigger] split_frames(run_session(s, events).link.a.received).0[k],
                run_session(s, events).server.seen,
            ),
    decreases events.len(),
{
    if events.len() == 0 {
        lemma_fresh_sound(s.link);
        assert(s.server.conn.sent.len() == 0);
        assert(split_frames(s.server.conn.sent).0.len() == 0);
        assert(events.take(0) =~= events);
    } else {
        let init = events.drop_last();
        let n = init.len() as int;
        assert forall|k: int| 0 <= k < init.len() implies session_event_ok(
            #[trigger] run_session(s, init.take(k)),
            init[k],
        ) by {
            assert(init.take(k) =~= events.take(k));
        }
        lemma_session_answers(s, init);
        assert(events.take(n) =~= init);
        assert(session_event_ok(run_session(s, events.take(n)), events[n]));
        let p = run_session(s, init);
        match events.last() {
            SessionEvent::Link(le) => lemma_link_event_step(p, le),
            SessionEvent::Serve { now, answers } => lemma_serve_step(p, now, answers),
            SessionEvent::ServerTick { now } => lemma_server_tick_step(p, now),
        }
        let t = run_session(s, events);
        assert(p.server.seen.submap_of(t.server.seen));
        assert(events.take(events.len() as int) =~= events);
        assert forall|k: int| 0 <= k <= events.len() implies (#[trigger] run_session(
            s,
            events.take(k),
        )).server.seen.submap_of(t.server.seen) by {
            if k < events.len() {
                assert(init.take(k) =~= events.take(k));
                let q = run_session(s, init.take(k)).server.seen;
                assert(q.submap_of(p.server.seen));
                assert forall|id: u64| #[trigger] q.contains_key(id) implies t.server.seen.contains_key(id)
                    && t.server.seen[id] == q[id] by {
                    assert(q.dom().contains(id));
                    assert(p.server.seen.dom().contains(id));
                    assert(p.server.seen[id] == q[id]);
                    assert(t.server.seen.dom().contains(id));
                    assert(t.server.seen[id] == p.server.seen[id]);
                }
            }
        }
    }
    let t = run_session(s, events);
    assert(t.link.a.received == t.server.conn.sent.take(t.link.a.received.len() as int));
    assert(t.link.a.received.is_prefix_of(t.server.conn.sent)) by {
        assert(t.server.conn.sent.subrange(0, t.link.a.received.len() as int) =~= t.link.a.received);
    }
    lemma_heard_answers_are_stored(t.server.conn.sent, t.link.a.received, t.server.seen);
}

/// Every datagram the event hands to a connection either fails to
/// decode, carries no application bytes, or carries the sender's bytes
/// at their offset.
pub open spec fn session_takes_carry(s: SessionModel, e: SessionEvent) -> bool {
    match e {
        SessionEvent::Link(le) => take_carries(s.link, le),
        SessionEvent::Serve { .. } => s.link.inbox_b.len() > 0 ==> carries(
            s.link.inbox_b[0],
            s.link.a.sent,
        ),
        SessionEvent::ServerTick { .. } => true,
    }
}

/// What a session keeps over any channels: both connections intact and
/// agreeing with each other's stream, the server owning side `b`, each
/// request run at most once, and the server's stream carrying only
/// stored answers.
pub open spec fn session_agrees(s: SessionModel) -> bool {
    &&& streams_agree(s.link)
    &&& link_valid(s.link)
    &&& s.server.conn == s.link.b
    &&& runs_once(s.server)
    &&& answers_only(s.server.conn.sent, s.server.seen)
}

pub(crate) proof fn lemma_serve_agrees(s: SessionModel, now: u64, answers: Seq<(bool, Seq<u8>)>)
    requires
        session_agrees(s),
        session_event_ok(s, SessionEvent::Serve { now, answers }),
        session_takes_carry(s, SessionEvent::Serve { now, answers }),
    ensures
        session_agrees(session_step(s, SessionEvent::Serve { now, answers })),
        s.server.seen.submap_of(session_step(s, SessionEvent::Serve { now, answers }).server.seen),
{
    reveal(session_step);
    let l = s.link;
    if l.inbox_b.len() > 0 {
        let a = l.a;
        let b = l.b;
        let d = l.inbox_b[0];
        lemma_on_datagram_keeps_inv(b, now, d);
        lemma_receive_law(b, now, d, a.sent);
        let (c1, o1) = spec_on_datagram(b, now, d);
        let (frames, rest) = split_frames(s.server.reader + c1.delivered);
        let c1r = ConnectionModel { delivered: Seq::empty(), ..c1 };
        assert(c1r.unacked == c1.unacked && c1r.recv_buffer == c1.recv_buffer);
        let s1 = ServerModel { conn: c1r, reader: rest, ..s.server };
        lemma_serve_frames_stream(s1, now, frames, answers);
        let (s2, o2) = serve_frames(s1, now, frames, answers);
        let sent2 = s2.conn.sent;
        let more = sent2.skip(b.sent.len() as int);
        assert(b.sent + more =~= sent2);
        let (srv, out) = spec_server_on_datagram(s.server, now, d, answers);
        assert(srv == s2 && out == o1 + o2);
        lemma_runs_once_keyed(s.server);
        lemma_on_datagram_answers(s.server, now, d, answers);
        lemma_serve_frames_runs_once(s1, now, frames, answers);
        assert(receiver_consistent(s2.conn, a.sent));
        lemma_receiver_consistent_extends(a, b.sent, more);
    }
}

pub(crate) proof fn lemma_server_tick_agrees(s: SessionModel, now: u64)
    requires
        session_agrees(s),
        session_event_ok(s, SessionEvent::ServerTick { now }),
    ensures
        session_agrees(session_step(s, SessionEvent::ServerTick { now })),
        session_step(s, SessionEvent::ServerTick { now }).server.seen == s.server.seen,
{
    reveal(session_step);
    let l = s.link;
    let b = l.b;
    lemma_on_tick_law(b, now);
    lemma_on_tick_keeps_inv(b, now);
    let (c, out) = spec_on_tick(b, now);
    assert(receiver_consistent(c, l.a.sent));
    lemma_runs_once_same(s.server, ServerModel { conn: c, ..s.server });
}

pub(crate) proof fn lemma_link_event_agrees(s: SessionModel, le: LinkEvent)
    requires
        session_agrees(s),
        session_event_ok(s, SessionEvent::Link(le)),
        session_takes_carry(s, SessionEvent::Link(le)),
    ensures
        session_agrees(session_step(s, SessionEvent::Link(le))),
        session_step(s, SessionEvent::Link(le)).server.seen == s.server.seen,
{
    reveal(session_step);
    if link_side_event(le) {
        lemma_step_agree(s.link, le);
        lemma_link_side_keeps_b(s.link, le);
        let l = link_step(s.link, le);
        lemma_runs_once_same(s.server, ServerModel { conn: l.b, ..s.server });
    }
}

/// The session law over any channels: starting with two intact
/// connections that have neither sent nor received a byte, the server
/// owning side `b` with each of its requests so far run at most once,
/// whatever the channels do to datagrams (lose, duplicate, delay,
/// reorder, corrupt, truncate, in any combination), after any sequence
/// of events each of which meets what its operation requires, and in
/// which every datagram a connection takes either fails to decode,
/// carries no application bytes, or carries the sender's bytes at their
/// offset (a checksum collision being what would break this), and
/// whatever the server's handler answers: each request has run at most
/// once, no stored answer was ever replaced, the client's connection has
/// received a prefix of the server's stream, and every whole frame in
/// what it received is the encoding of the answer the server stored for
/// that request.
pub proof fn lemma_session_answers_when_takes_carry(s: SessionModel, events: Seq<SessionEvent>)
    requires
        link_valid(s.link),
        s.link.a.sent.len() == 0,
        s.link.b.sent.len() == 0,
        s.link.a.received.len() == 0,
        s.link.b.received.len() == 0,
        s.link.a.recv_buffer.len() == 0,
        s.link.b.recv_buffer.len() == 0,
        s.server.conn == s.link.b,
        runs_once(s.server),
        forall|k: int|
            0 <= k < events.len() ==> session_event_ok(
                #[trigger] run_session(s, events.take(k)),
                events[k],
            ) && session_takes_carry(run_session(s, events.take(k)), events[k]),
    ensures
        session_agrees(run_session(s, events)),
        forall|k: int|
            0 <= k <= events.len() ==> (#[trigger] run_session(s, events.take(k))).server.seen.submap_of(
                run_session(s, events).server.seen,
            ),
        run_session(s, events).link.a.received.is_prefix_of(run_session(s, events).server.conn.sent),
        forall|k: int|
            0 <= k < split_frames(run_session(s, events).link.a.received).0.len() ==> stored_answer(
                #[trigger] split_frames(run_session(s, events).link.a.received).0[k],
                run_session(s, events).server.seen,
            ),
    decreases events.len(),
{
    if events.len() == 0 {
        assert(s.link.a.received =~= s.link.b.sent.take(0));
        assert(s.link.b.received =~= s.link.a.sent.take(0));
        assert(split_frames(s.server.conn.sent).0.len() == 0);
        assert(events.take(0) =~= events);
    } else {
        let init = events.drop_last();
        let n = init.len() as int;
        assert forall|k: int| 0 <= k < init.len() implies session_event_ok(
            #[trigger] run_session(s, init.take(k)),
            init[k],
        ) && session_takes_carry(run_session(s, init.take(k)), init[k]) by {
            assert(init.take(k) =~= events.take(k));
        }
        lemma_session_answers_when_takes_carry(s, init);
        assert(events.take(n) =~= init);
        assert(session_event_ok(run_session(s, events.take(n)), events[n]));
        assert(session_takes_carry(run_session(s, events.take(n)), events[n]));
        let p = run_session(s, init);
        match events.last() {
            SessionEvent::Link(le) => lemma_link_event_agrees(p, le),
            SessionEvent::Serve { now, answers } => lemma_serve_agrees(p, now, answers),
            SessionEvent::ServerTick { now } => lemma_server_tick_agrees(p, now),
        }
        let t = run_session(s, events);
        assert(p.server.seen.submap_of(t.server.seen));
        assert(events.take(events.len() as int) =~= events);
        assert forall|k: int| 0 <= k <= events.len() implies (#[trigger] run_session(
            s,
            events.take(k),
        )).server.seen.submap_of(t.server.seen) by {
            if k < events.len() {
                assert(init.take(k) =~= events.take(k));
                let q = run_session(s, init.take(k)).server.seen;
                assert(q.submap_of(p.server.seen));
                assert forall|id: u64| #[trigger] q.contains_key(id) implies t.server.seen.contains_key(id)
                    && t.server.seen[id] == q[id] by {
                    assert(q.dom().contains(id));
                    assert(p.server.seen.dom().contains(id));
                    assert(p.server.seen[id] == q[id]);
                    assert(t.server.seen.dom().contains(id));
                    assert(t.server.seen[id] == p.server.seen[id]);
                }
            }
        }
    }
    let t = run_session(s, events);
    assert(t.link.a.received == t.server.conn.sent.take(t.link.a.received.len() as int));
    assert(t.link.a.received.is_prefix_of(t.server.conn.sent)) by {
        assert(t.server.conn.sent.subrange(0, t.link.a.received.len() as int) =~= t.link.a.received);
    }
    lemma_heard_answers_are_stored(t.server.conn.sent, t.link.a.received, t.server.seen);
}

} // verus!
