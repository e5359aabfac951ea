//! An RPC client and an RPC server talking over a link, and the exchange
//! law: whatever the client calls and whenever its timers retry,
//! whatever the server's handler answers, and whatever the two channels
//! do, every response the client completes is the answer the server
//! stored for that request: the one its handler gave when the request
//! first ran, however often the request was sent. It holds over any
//! channels provided every datagram a connection takes fails to decode
//! or carries the sender's bytes, and unconditionally over channels that
//! damage a datagram at most one way.

use crate::rpc::client::{
    lemma_request_frame_len, spec_call, spec_client_on_datagram, spec_client_on_tick, sweep,
    sweep_call, take_response, take_responses, ClientModel, PendingModel, Sweep,
};
use crate::rpc::framing::{lemma_split_append, spec_frame, split_frames};
use crate::rpc::laws::{lemma_heard_answers_are_stored, stored_answer};
use crate::rpc::message::{spec_decode_response, spec_encode_request, ResponseModel};
use crate::rpc::session::{
    fresh_session, lemma_link_event_agrees, lemma_link_event_step, lemma_serve_agrees,
    lemma_serve_step, lemma_server_tick_agrees, lemma_server_tick_step, session_agrees,
    session_event_ok, session_ok, session_step, session_takes_carry, SessionEvent, SessionModel,
};
use crate::channel::tick::saturating_sub_spec;
use crate::transport::connection::{
    conn_inv, datagram_safe, spec_on_datagram, spec_on_tick, spec_send, ConnectionModel,
};
use crate::transport::laws::{
    all_carry, carries, lemma_all_carry_concat, lemma_receiver_consistent_extends, lemma_all_carry_extends, lemma_on_datagram_keeps_sent,
    lemma_on_tick_keeps_sent, lemma_on_tick_law, lemma_send_extends_sent, lemma_send_law,
    same_receive_side,
};
use crate::transport::link::{
    at_a, lemma_sender_step, link_step, link_valid, post_all, take_carries, LinkEvent, LinkModel,
};
use crate::transport::rto::MAX_RTT_SAMPLE;
use crate::transport::valid::{lemma_on_tick_keeps_inv, lemma_send_keeps_inv};
use vstd::prelude::*;

verus! {

/// A session whose side `a` is an RPC client: `client.conn` is
/// `session.link.a`.
pub struct ExchangeModel {
    pub session: SessionModel,
    pub client: ClientModel,
}

/// One thing that happens in an exchange.
pub enum ExchangeEvent {
    /// The client issues a call.
    Call { now: u64, method: u8, payload: Seq<u8> },
    /// The client takes the oldest datagram handed to it.
    Take { now: u64 },
    /// The client's connection timers and its retry pass run.
    Tick { now: u64 },
    /// The client's caller collects what completed and what failed.
    Poll,
    /// The server or one of the channels does something. An event of the
    /// client's own connection among these changes nothing: the client
    /// drives its connection itself.
    Session(SessionEvent),
}

/// A session event that the client's connection itself would make.
pub open spec fn client_conn_event(e: SessionEvent) -> bool {
    match e {
        SessionEvent::Link(le) => at_a(le) && !(le is Arrive) && !(le is Discard),
        _ => false,
    }
}

/// The session after a client step that leaves its connection `conn`,
/// emits `out` onto the channel to the server, and leaves `inbox` handed
/// over and not yet taken.
pub open spec fn client_side(
    s: SessionModel,
    conn: ConnectionModel,
    out: Seq<Seq<u8>>,
    inbox: Seq<Seq<u8>>,
) -> SessionModel {
    SessionModel {
        link: LinkModel { a: conn, ab: post_all(s.link.ab, out), inbox_a: inbox, ..s.link },
        ..s
    }
}

/// What one event does to an exchange.
#[verifier::opaque]
pub open spec fn exchange_step(m: ExchangeModel, e: ExchangeEvent) -> ExchangeModel {
    let inbox = m.session.link.inbox_a;
    match e {
        ExchangeEvent::Call { now, method, payload } => {
            let (c, _, out) = spec_call(m.client, now, method, payload);
            ExchangeModel { session: client_side(m.session, c.conn, out, inbox), client: c }
        },
        ExchangeEvent::Take { now } => if inbox.len() == 0 {
            m
        } else {
            let (c, out) = spec_client_on_datagram(m.client, now, inbox[0]);
            ExchangeModel { session: client_side(m.session, c.conn, out, inbox.skip(1)), client: c }
        },
        ExchangeEvent::Tick { now } => {
            let (c, out) = spec_client_on_tick(m.client, now);
            ExchangeModel { session: client_side(m.session, c.conn, out, inbox), client: c }
        },
        ExchangeEvent::Poll => ExchangeModel {
            client: ClientModel { completed: Seq::empty(), failed: Seq::empty(), ..m.client },
            ..m
        },
        ExchangeEvent::Session(se) => if client_conn_event(se) {
            m
        } else {
            ExchangeModel { session: session_step(m.session, se), ..m }
        },
    }
}

/// An exchange after a sequence of events.
pub open spec fn run_exchange(m: ExchangeModel, events: Seq<ExchangeEvent>) -> ExchangeModel
    decreases events.len(),
{
    if events.len() == 0 {
        m
    } else {
        exchange_step(run_exchange(m, events.drop_last()), events.last())
    }
}

/// What an event asks of the exchange: what the operation it runs
/// requires.
pub open spec fn exchange_event_ok(m: ExchangeModel, e: ExchangeEvent) -> bool {
    let inbox = m.session.link.inbox_a;
    match e {
        ExchangeEvent::Call { now, payload, .. } => {
            &&& now <= MAX_RTT_SAMPLE
            &&& m.client.next_id < u64::MAX
            &&& m.client.conn.sent.len() + 13 + payload.len() <= u32::MAX
        },
        ExchangeEvent::Take { now } => now <= MAX_RTT_SAMPLE && (inbox.len() > 0 ==> datagram_safe(
            m.client.conn,
            now,
            inbox[0],
        )),
        ExchangeEvent::Tick { now } => now <= MAX_RTT_SAMPLE && m.client.max_attempts < u32::MAX,
        ExchangeEvent::Poll => true,
        ExchangeEvent::Session(se) => session_event_ok(m.session, se),
    }
}

/// Every completed call holds the answer stored for its request.
pub open spec fn answered_as_stored(
    completed: Seq<(u64, ResponseModel)>,
    seen: Map<u64, ResponseModel>,
) -> bool {
    forall|i: int|
        0 <= i < completed.len() ==> {
            let (id, r) = #[trigger] completed[i];
            &&& seen.contains_key(id)
            &&& seen[id] == r
            &&& r.id == id
        }
}

/// An exchange that keeps its promises: the session keeps its own; the
/// client owns side `a`, has read everything its connection delivered,
/// holding back exactly the unfinished frame at the end; and each
/// completed call holds its stored answer.
pub open spec fn exchange_ok(m: ExchangeModel) -> bool {
    &&& session_ok(m.session)
    &&& m.client.conn == m.session.link.a
    &&& m.client.conn.delivered.len() == 0
    &&& m.client.reader == split_frames(m.client.conn.received).1
    &&& answered_as_stored(m.client.completed, m.session.server.seen)
}

/// An exchange about to start: a fresh session whose side `a` is a
/// client that has read nothing and completed nothing.
pub open spec fn fresh_exchange(m: ExchangeModel) -> bool {
    &&& fresh_session(m.session)
    &&& m.client.conn == m.session.link.a
    &&& m.client.conn.delivered.len() == 0
    &&& m.client.reader.len() == 0
    &&& m.client.completed.len() == 0
}

/// Taking frames that are all stored answers completes only calls with
/// their stored answers, and leaves the connection and reader alone.
proof fn lemma_take_stored(m: ClientModel, frames: Seq<Seq<u8>>, seen: Map<u64, ResponseModel>)
    requires
        answered_as_stored(m.completed, seen),
        forall|k: int| 0 <= k < frames.len() ==> stored_answer(#[trigger] frames[k], seen),
    ensures
        take_responses(m, frames).conn == m.conn,
        take_responses(m, frames).reader == m.reader,
        answered_as_stored(take_responses(m, frames).completed, seen),
    decreases frames.len(),
{
    if frames.len() > 0 {
        let init = frames.drop_last();
        assert forall|k: int| 0 <= k < init.len() implies stored_answer(#[trigger] init[k], seen) by {
            assert(init[k] == frames[k]);
        }
        lemma_take_stored(m, init, seen);
        let p = take_responses(m, init);
        let f = frames.last();
        assert(stored_answer(frames[frames.len() - 1], seen));
        let t = take_response(p, f);
        if let Some(r) = spec_decode_response(f) {
            if crate::rpc::client::has_call(p.pending, r.id) {
                assert forall|i: int| 0 <= i < t.completed.len() implies {
                    let (id, q) = #[trigger] t.completed[i];
                    &&& seen.contains_key(id)
                    &&& seen[id] == q
                    &&& q.id == id
                } by {
                    if i < p.completed.len() {
                        assert(t.completed[i] == p.completed[i]);
                    }
                }
            }
        }
    }
}


/// The retry pass only sends on the client's stream: its receive side
/// and undelivered bytes stay, its sent stream grows, the connection
/// stays intact, and every datagram sent carries the stream.
proof fn lemma_sweep_stream(
    s: Sweep,
    now: u64,
    retry_deadline: u64,
    max_attempts: u32,
    p: Seq<PendingModel>,
)
    requires
        conn_inv(s.conn),
        now <= MAX_RTT_SAMPLE,
        all_carry(s.out, s.conn.sent),
    ensures
        ({
            let t = sweep(s, now, retry_deadline, max_attempts, p);
            &&& conn_inv(t.conn)
            &&& same_receive_side(t.conn, s.conn)
            &&& t.conn.delivered == s.conn.delivered
            &&& s.conn.sent.is_prefix_of(t.conn.sent)
            &&& all_carry(t.out, t.conn.sent)
        }),
    decreases p.len(),
{
    if p.len() == 0 {
        assert(s.conn.sent.subrange(0, s.conn.sent.len() as int) =~= s.conn.sent);
    } else {
        lemma_sweep_stream(s, now, retry_deadline, max_attempts, p.drop_last());
        let u = sweep(s, now, retry_deadline, max_attempts, p.drop_last());
        let c = p.last();
        let t = sweep_call(u, now, retry_deadline, max_attempts, c);
        if saturating_sub_spec(now, c.sent_at) >= retry_deadline {
            let attempts = (c.attempts + 1) as u32;
            let bytes = spec_frame(spec_encode_request(c.request));
            if attempts <= max_attempts && u.conn.sent.len() + bytes.len() <= u32::MAX {
                let (conn, o) = spec_send(u.conn, now, bytes);
                lemma_send_law(u.conn, now, bytes);
                lemma_send_keeps_inv(u.conn, now, bytes);
                lemma_send_extends_sent(u.conn, now, bytes);
                lemma_all_carry_extends(u.out, u.conn.sent, bytes);
                lemma_all_carry_concat(u.out, o, conn.sent);
                assert(t.conn == conn && t.out == u.out + o);
                assert(s.conn.sent.is_prefix_of(conn.sent)) by {
                    assert(conn.sent.subrange(0, s.conn.sent.len() as int) =~= u.conn.sent.subrange(
                        0,
                        s.conn.sent.len() as int,
                    ));
                }
            }
        }
    }
}


/// Whatever the client's connection has received splits only into
/// stored answers.
proof fn lemma_heard_stored(s: SessionModel)
    requires
        session_ok(s),
    ensures
        forall|k: int|
            0 <= k < split_frames(s.link.a.received).0.len() ==> stored_answer(
                #[trigger] split_frames(s.link.a.received).0[k],
                s.server.seen,
            ),
{
    let heard = s.link.a.received;
    let stream = s.server.conn.sent;
    assert(heard.is_prefix_of(stream)) by {
        assert(stream.subrange(0, heard.len() as int) =~= heard);
    }
    lemma_heard_answers_are_stored(stream, heard, s.server.seen);
}

/// A call keeps the exchange's promises.
proof fn lemma_call_step(m: ExchangeModel, now: u64, method: u8, payload: Seq<u8>)
    requires
        exchange_ok(m),
        exchange_event_ok(m, ExchangeEvent::Call { now, method, payload }),
    ensures
        exchange_ok(exchange_step(m, ExchangeEvent::Call { now, method, payload })),
        exchange_step(m, ExchangeEvent::Call { now, method, payload }).session.server.seen
            == m.session.server.seen,
{
    reveal(exchange_step);
    reveal(session_step);
    reveal(link_step);
    let (c, id, out) = spec_call(m.client, now, method, payload);
    let req = crate::rpc::message::RequestModel { id: m.client.next_id, method, payload };
    let bytes = spec_frame(spec_encode_request(req));
    lemma_request_frame_len(req);
    let le = LinkEvent::Send { at_a: true, now, data: bytes };
    lemma_link_event_step(m.session, le);
    lemma_send_extends_sent(m.client.conn, now, bytes);
    let t = exchange_step(m, ExchangeEvent::Call { now, method, payload });
    let s1 = session_step(m.session, SessionEvent::Link(le));
    assert(s1.link =~= t.session.link);
    assert(s1.server == t.session.server);
}


/// The client's connection taking the oldest datagram handed to it, and
/// the client reading all it delivered, keep the session's promises.
proof fn lemma_take_session(s: SessionModel, now: u64)
    requires
        session_ok(s),
        now <= MAX_RTT_SAMPLE,
        s.link.inbox_a.len() > 0,
        datagram_safe(s.link.a, now, s.link.inbox_a[0]),
    ensures
        ({
            let (c1, o1) = spec_on_datagram(s.link.a, now, s.link.inbox_a[0]);
            session_ok(
                client_side(
                    s,
                    ConnectionModel { delivered: Seq::empty(), ..c1 },
                    o1,
                    s.link.inbox_a.skip(1),
                ),
            )
        }),
{
    reveal(session_step);
    reveal(link_step);
    let take = LinkEvent::Take { at_a: true, now };
    let read = LinkEvent::Read { at_a: true };
    lemma_link_event_step(s, take);
    let s1 = session_step(s, SessionEvent::Link(take));
    lemma_link_event_step(s1, read);
    let s2 = session_step(s1, SessionEvent::Link(read));
    let (c1, o1) = spec_on_datagram(s.link.a, now, s.link.inbox_a[0]);
    let t = client_side(
        s,
        ConnectionModel { delivered: Seq::empty(), ..c1 },
        o1,
        s.link.inbox_a.skip(1),
    );
    assert(s2.link =~= t.link);
    assert(s2.server == t.server);
}

/// The client taking a datagram keeps the exchange's promises.
proof fn lemma_take_step(m: ExchangeModel, now: u64)
    requires
        exchange_ok(m),
        exchange_event_ok(m, ExchangeEvent::Take { now }),
    ensures
        exchange_ok(exchange_step(m, ExchangeEvent::Take { now })),
        exchange_step(m, ExchangeEvent::Take { now }).session.server.seen == m.session.server.seen,
{
    reveal(exchange_step);
    let inbox = m.session.link.inbox_a;
    if inbox.len() > 0 {
        let a = m.client.conn;
        let d = inbox[0];
        let (c1, o1) = spec_on_datagram(a, now, d);
        let conn = ConnectionModel { delivered: Seq::empty(), ..c1 };
        lemma_take_session(m.session, now);
        let s2 = client_side(m.session, conn, o1, inbox.skip(1));
        // What the reader now holds and what it completes.
        lemma_on_datagram_keeps_sent(a, now, d);
        let more = c1.received.skip(a.received.len() as int);
        assert(a.received + more =~= c1.received);
        assert(c1.delivered =~= more);
        lemma_split_append(a.received, more);
        let (frames, rest) = split_frames(m.client.reader + c1.delivered);
        let whole = split_frames(c1.received).0;
        let n = split_frames(a.received).0.len() as int;
        assert(whole == split_frames(a.received).0 + frames);
        lemma_heard_stored(s2);
        assert(s2.link.a.received == c1.received);
        assert forall|k: int| 0 <= k < frames.len() implies stored_answer(
            #[trigger] frames[k],
            m.session.server.seen,
        ) by {
            assert(frames[k] == whole[n + k]);
        }
        let c0 = ClientModel { conn, reader: rest, ..m.client };
        lemma_take_stored(c0, frames, m.session.server.seen);
    }
}

/// The client's timers and retry pass keep the exchange's promises.
proof fn lemma_tick_step(m: ExchangeModel, now: u64)
    requires
        exchange_ok(m),
        exchange_event_ok(m, ExchangeEvent::Tick { now }),
    ensures
        exchange_ok(exchange_step(m, ExchangeEvent::Tick { now })),
        exchange_step(m, ExchangeEvent::Tick { now }).session.server.seen == m.session.server.seen,
{
    reveal(exchange_step);
    let a = m.client.conn;
    let l = m.session.link;
    lemma_on_tick_law(a, now);
    lemma_on_tick_keeps_inv(a, now);
    lemma_on_tick_keeps_sent(a, now);
    let (c1, o1) = spec_on_tick(a, now);
    let start = Sweep { conn: c1, kept: Seq::empty(), failing: Seq::empty(), out: Seq::empty() };
    lemma_sweep_stream(start, now, m.client.retry_deadline, m.client.max_attempts, m.client.pending);
    let sw = sweep(start, now, m.client.retry_deadline, m.client.max_attempts, m.client.pending);
    let more = sw.conn.sent.skip(a.sent.len() as int);
    assert(a.sent + more =~= sw.conn.sent);
    lemma_all_carry_extends(o1, a.sent, more);
    lemma_all_carry_concat(o1, sw.out, sw.conn.sent);
    lemma_sender_step(l, sw.conn, o1 + sw.out, more);
    let t = exchange_step(m, ExchangeEvent::Tick { now });
    assert(t.session.link =~= LinkModel { a: sw.conn, ab: post_all(l.ab, o1 + sw.out), ..l });
}


/// What the server and the channels do leaves the client's connection
/// alone.
proof fn lemma_others_keep_client_conn(s: SessionModel, se: SessionEvent)
    requires
        !client_conn_event(se),
    ensures
        session_step(s, se).link.a == s.link.a,
{
    reveal(session_step);
    reveal(link_step);
}

/// What the server and the channels do keeps the exchange's promises,
/// and the server's table only grows.
proof fn lemma_others_step(m: ExchangeModel, se: SessionEvent)
    requires
        exchange_ok(m),
        exchange_event_ok(m, ExchangeEvent::Session(se)),
    ensures
        exchange_ok(exchange_step(m, ExchangeEvent::Session(se))),
        m.session.server.seen.submap_of(
            exchange_step(m, ExchangeEvent::Session(se)).session.server.seen,
        ),
{
    reveal(exchange_step);
    let seen = m.session.server.seen;
    if !client_conn_event(se) {
        lemma_others_keep_client_conn(m.session, se);
        match se {
            SessionEvent::Link(le) => lemma_link_event_step(m.session, le),
            SessionEvent::Serve { now, answers } => lemma_serve_step(m.session, now, answers),
            SessionEvent::ServerTick { now } => lemma_server_tick_step(m.session, now),
        }
        let more = session_step(m.session, se).server.seen;
        let completed = m.client.completed;
        assert forall|i: int| 0 <= i < completed.len() implies {
            let (id, r) = #[trigger] completed[i];
            &&& more.contains_key(id)
            &&& more[id] == r
            &&& r.id == id
        } by {
            let (id, r) = completed[i];
            assert(seen.dom().contains(id));
        }
    }
}

/// The exchange law: starting fresh, over channels that may lose,
/// duplicate, delay and reorder datagrams and either flip a bit of one
/// or cut one short (never both), after any sequence of events each of
/// which meets what its operation requires, whatever the client calls,
/// whenever its timers retry, and whatever the server's handler answers,
/// each request has run at most once, no stored answer was ever
/// replaced, and every call the client has completed holds the answer
/// the server stored for its request, the one its handler gave when the
/// request first ran.
pub proof fn lemma_exchange_answers(m: ExchangeModel, events: Seq<ExchangeEvent>)
    requires
        fresh_exchange(m),
        forall|k: int|
            0 <= k < events.len() ==> exchange_event_ok(
                #[trigger] run_exchange(m, events.take(k)),
                events[k],
            ),
    ensures
        exchange_ok(run_exchange(m, events)),
        forall|k: int|
            0 <= k <= events.len() ==> (#[trigger] run_exchange(
                m,
                events.take(k),
            )).session.server.seen.submap_of(run_exchange(m, events).session.server.seen),
        forall|i: int|
            0 <= i < run_exchange(m, events).client.completed.len() ==> {
                let (id, r) = #[trigger] run_exchange(m, events).client.completed[i];
                let seen = run_exchange(m, events).session.server.seen;
                &&& seen.contains_key(id)
                &&& seen[id] == r
                &&& r.id == id
            },
    decreases events.len(),
{
    if events.len() == 0 {
        let s = m.session;
        crate::transport::link::lemma_fresh_sound(s.link);
        assert(s.server.conn.sent.len() == 0);
        assert(split_frames(s.server.conn.sent).0.len() == 0);
        assert(split_frames(s.link.a.received).1 =~= m.client.reader);
        assert(events.take(0) =~= events);
    } else {
        let init = events.drop_last();
        let n = init.len() as int;
        assert forall|k: int| 0 <= k < init.len() implies exchange_event_ok(
            #[trigger] run_exchange(m, init.take(k)),
            init[k],
        ) by {
            assert(init.take(k) =~= events.take(k));
        }
        lemma_exchange_answers(m, init);
        assert(events.take(n) =~= init);
        let p = run_exchange(m, init);
        assert(exchange_event_ok(p, events[n]));
        match events.last() {
            ExchangeEvent::Call { now, method, payload } => lemma_call_step(p, now, method, payload),
            ExchangeEvent::Take { now } => lemma_take_step(p, now),
            ExchangeEvent::Tick { now } => lemma_tick_step(p, now),
            ExchangeEvent::Poll => {
                reveal(exchange_step);
            },
            ExchangeEvent::Session(se) => lemma_others_step(p, se),
        }
        let t = run_exchange(m, events);
        assert(p.session.server.seen.submap_of(t.session.server.seen));
        assert(events.take(events.len() as int) =~= events);
        assert forall|k: int| 0 <= k <= events.len() implies (#[trigger] run_exchange(
            m,
            events.take(k),
        )).session.server.seen.submap_of(t.session.server.seen) by {
            if k < events.len() {
                assert(init.take(k) =~= events.take(k));
                let q = run_exchange(m, init.take(k)).session.server.seen;
                assert(q.submap_of(p.session.server.seen));
                assert forall|id: u64| #[trigger] q.contains_key(id) implies t.session.server.seen.contains_key(id)
                    && t.session.server.seen[id] == q[id] by {
                    assert(q.dom().contains(id));
                    assert(p.session.server.seen.dom().contains(id));
                    assert(t.session.server.seen.dom().contains(id));
                }
            }
        }
    }
}

/// Every datagram the event hands to a connection either fails to
/// decode, carries no application bytes, or carries the sender's bytes
/// at their offset.
pub open spec fn exchange_takes_carry(m: ExchangeModel, e: ExchangeEvent) -> bool {
    match e {
        ExchangeEvent::Take { .. } => m.session.link.inbox_a.len() > 0 ==> carries(
            m.session.link.inbox_a[0],
            m.session.link.b.sent,
        ),
        ExchangeEvent::Session(se) => session_takes_carry(m.session, se),
        _ => true,
    }
}

/// What an exchange keeps over any channels: the session keeps what it
/// keeps over them; the client owns side `a`, has read everything its
/// connection delivered, holding back exactly the unfinished frame at
/// the end; and each completed call holds its stored answer.
pub open spec fn exchange_agrees(m: ExchangeModel) -> bool {
    &&& session_agrees(m.session)
    &&& m.client.conn == m.session.link.a
    &&& m.client.conn.delivered.len() == 0
    &&& m.client.reader == split_frames(m.client.conn.received).1
    &&& answered_as_stored(m.client.completed, m.session.server.seen)
}

proof fn lemma_heard_stored_agrees(s: SessionModel)
    requires
        session_agrees(s),
    ensures
        forall|k: int|
            0 <= k < split_frames(s.link.a.received).0.len() ==> stored_answer(
                #[trigger] split_frames(s.link.a.received).0[k],
                s.server.seen,
            ),
{
    let heard = s.link.a.received;
    let stream = s.server.conn.sent;
    assert(heard.is_prefix_of(stream)) by {
        assert(stream.subrange(0, heard.len() as int) =~= heard);
    }
    lemma_heard_answers_are_stored(stream, heard, s.server.seen);
}

proof fn lemma_call_agrees(m: ExchangeModel, now: u64, method: u8, payload: Seq<u8>)
    requires
        exchange_agrees(m),
        exchange_event_ok(m, ExchangeEvent::Call { now, method, payload }),
    ensures
        exchange_agrees(exchange_step(m, ExchangeEvent::Call { now, method, payload })),
        exchange_step(m, ExchangeEvent::Call { now, method, payload }).session.server.seen
            == m.session.server.seen,
{
    reveal(exchange_step);
    reveal(session_step);
    reveal(link_step);
    let (c, id, out) = spec_call(m.client, now, method, payload);
    let req = crate::rpc::message::RequestModel { id: m.client.next_id, method, payload };
    let bytes = spec_frame(spec_encode_request(req));
    lemma_request_frame_len(req);
    let le = LinkEvent::Send { at_a: true, now, data: bytes };
    lemma_link_event_agrees(m.session, le);
    lemma_send_extends_sent(m.client.conn, now, bytes);
    let t = exchange_step(m, ExchangeEvent::Call { now, method, payload });
    let s1 = session_step(m.session, SessionEvent::Link(le));
    assert(s1.link =~= t.session.link);
    assert(s1.server == t.session.server);
}

proof fn lemma_take_session_agrees(s: SessionModel, now: u64)
    requires
        session_agrees(s),
        now <= MAX_RTT_SAMPLE,
        s.link.inbox_a.len() > 0,
        datagram_safe(s.link.a, now, s.link.inbox_a[0]),
        carries(s.link.inbox_a[0], s.link.b.sent),
    ensures
        ({
            let (c1, o1) = spec_on_datagram(s.link.a, now, s.link.inbox_a[0]);
            session_agrees(
                client_side(
                    s,
                    ConnectionModel { delivered: Seq::empty(), ..c1 },
                    o1,
                    s.link.inbox_a.skip(1),
                ),
            )
        }),
{
    reveal(session_step);
    reveal(link_step);
    let take = LinkEvent::Take { at_a: true, now };
    let read = LinkEvent::Read { at_a: true };
    lemma_link_event_agrees(s, take);
    let s1 = session_step(s, SessionEvent::Link(take));
    lemma_link_event_agrees(s1, read);
    let s2 = session_step(s1, SessionEvent::Link(read));
    let (c1, o1) = spec_on_datagram(s.link.a, now, s.link.inbox_a[0]);
    let t = client_side(
        s,
        ConnectionModel { delivered: Seq::empty(), ..c1 },
        o1,
        s.link.inbox_a.skip(1),
    );
    assert(s2.link =~= t.link);
    assert(s2.server == t.server);
}

proof fn lemma_take_agrees(m: ExchangeModel, now: u64)
    requires
        exchange_agrees(m),
        exchange_event_ok(m, ExchangeEvent::Take { now }),
        exchange_takes_carry(m, ExchangeEvent::Take { now }),
    ensures
        exchange_agrees(exchange_step(m, ExchangeEvent::Take { now })),
        exchange_step(m, ExchangeEvent::Take { now }).session.server.seen == m.session.server.seen,
{
    reveal(exchange_step);
    let inbox = m.session.link.inbox_a;
    if inbox.len() > 0 {
        let a = m.client.conn;
        let d = inbox[0];
        let (c1, o1) = spec_on_datagram(a, now, d);
        let conn = ConnectionModel { delivered: Seq::empty(), ..c1 };
        lemma_take_session_agrees(m.session, now);
        let s2 = client_side(m.session, conn, o1, inbox.skip(1));
        lemma_on_datagram_keeps_sent(a, now, d);
        let more = c1.received.skip(a.received.len() as int);
        assert(a.received + more =~= c1.received);
        assert(c1.delivered =~= more);
        lemma_split_append(a.received, more);
        let (frames, rest) = split_frames(m.client.reader + c1.delivered);
        let whole = split_frames(c1.received).0;
        let n = split_frames(a.received).0.len() as int;
        assert(whole == split_frames(a.received).0 + frames);
        lemma_heard_stored_agrees(s2);
        assert(s2.link.a.received == c1.received);
        assert forall|k: int| 0 <= k < frames.len() implies stored_answer(
            #[trigger] frames[k],
            m.session.server.seen,
        ) by {
            assert(frames[k] == whole[n + k]);
        }
        let c0 = ClientModel { conn, reader: rest, ..m.client };
        lemma_take_stored(c0, frames, m.session.server.seen);
    }
}

proof fn lemma_tick_agrees(m: ExchangeModel, now: u64)
    requires
        exchange_agrees(m),
        exchange_event_ok(m, ExchangeEvent::Tick { now }),
    ensures
        exchange_agrees(exchange_step(m, ExchangeEvent::Tick { now })),
        exchange_step(m, ExchangeEvent::Tick { now }).session.server.seen == m.session.server.seen,
{
    reveal(exchange_step);
    let a = m.client.conn;
    let l = m.session.link;
    lemma_on_tick_law(a, now);
    lemma_on_tick_keeps_inv(a, now);
    lemma_on_tick_keeps_sent(a, now);
    let (c1, o1) = spec_on_tick(a, now);
    let start = Sweep { conn: c1, kept: Seq::empty(), failing: Seq::empty(), out: Seq::empty() };
    lemma_sweep_stream(start, now, m.client.retry_deadline, m.client.max_attempts, m.client.pending);
    let sw = sweep(start, now, m.client.retry_deadline, m.client.max_attempts, m.client.pending);
    let more = sw.conn.sent.skip(a.sent.len() as int);
    assert(a.sent + more =~= sw.conn.sent);
    lemma_receiver_consistent_extends(l.b, a.sent, more);
    let t = exchange_step(m, ExchangeEvent::Tick { now });
    assert(t.session.link =~= LinkModel { a: sw.conn, ab: post_all(l.ab, o1 + sw.out), ..l });
    assert(sw.conn.received == a.received && sw.conn.recv_buffer == a.recv_buffer);
}

proof fn lemma_others_agree(m: ExchangeModel, se: SessionEvent)
    requires
        exchange_agrees(m),
        exchange_event_ok(m, ExchangeEvent::Session(se)),
        exchange_takes_carry(m, ExchangeEvent::Session(se)),
    ensures
        exchange_agrees(exchange_step(m, ExchangeEvent::Session(se))),
        m.session.server.seen.submap_of(
            exchange_step(m, ExchangeEvent::Session(se)).session.server.seen,
        ),
{
    reveal(exchange_step);
    let seen = m.session.server.seen;
    if !client_conn_event(se) {
        lemma_others_keep_client_conn(m.session, se);
        match se {
            SessionEvent::Link(le) => lemma_link_event_agrees(m.session, le),
            SessionEvent::Serve { now, answers } => lemma_serve_agrees(m.session, now, answers),
            SessionEvent::ServerTick { now } => lemma_server_tick_agrees(m.session, now),
        }
        let more = session_step(m.session, se).server.seen;
        let completed = m.client.completed;
        assert forall|i: int| 0 <= i < completed.len() implies {
            let (id, r) = #[trigger] completed[i];
            &&& more.contains_key(id)
            &&& more[id] == r
            &&& r.id == id
        } by {
            let (id, r) = completed[i];
            assert(seen.dom().contains(id));
        }
    }
}

/// The exchange law over any channels: starting with an intact client
/// and server connection that have neither sent nor received a byte, the
/// server's requests so far each run at most once, the client having
/// read and completed nothing; whatever the channels do to datagrams
/// (lose, duplicate, delay, reorder, corrupt, truncate, in any
/// combination), after any sequence of events each of which meets what
/// its operation requires, and in which every datagram a connection
/// takes either fails to decode, carries no application bytes, or
/// carries the sender's bytes at their offset (a checksum collision
/// being what would break this), whatever the client calls, whenever
/// its timers retry, and whatever the server's handler answers: each
/// request has run at most once, no stored answer was ever replaced, and
/// every call the client has completed holds the answer the server
/// stored for its request, the one its handler gave when the request
/// first ran.
pub proof fn lemma_exchange_answers_when_takes_carry(m: ExchangeModel, events: Seq<ExchangeEvent>)
    requires
        link_valid(m.session.link),
        m.session.link.a.sent.len() == 0,
        m.session.link.b.sent.len() == 0,
        m.session.link.a.received.len() == 0,
        m.session.link.b.received.len() == 0,
        m.session.link.a.recv_buffer.len() == 0,
        m.session.link.b.recv_buffer.len() == 0,
        m.session.server.conn == m.session.link.b,
        crate::rpc::laws::runs_once(m.session.server),
        m.client.conn == m.session.link.a,
        m.client.conn.delivered.len() == 0,
        m.client.reader.len() == 0,
        m.client.completed.len() == 0,
        forall|k: int|
            0 <= k < events.len() ==> exchange_event_ok(
                #[trigger] run_exchange(m, events.take(k)),
                events[k],
            ) && exchange_takes_carry(run_exchange(m, events.take(k)), events[k]),
    ensures
        exchange_agrees(run_exchange(m, events)),
        forall|k: int|
            0 <= k <= events.len() ==> (#[trigger] run_exchange(
                m,
                events.take(k),
            )).session.server.seen.submap_of(run_exchange(m, events).session.server.seen),
        forall|i: int|
            0 <= i < run_exchange(m, events).client.completed.len() ==> {
                let (id, r) = #[trigger] run_exchange(m, events).client.completed[i];
                let seen = run_exchange(m, events).session.server.seen;
                &&& seen.contains_key(id)
                &&& seen[id] == r
                &&& r.id == id
            },
    decreases events.len(),
{
    if events.len() == 0 {
        let s = m.session;
        assert(s.link.a.received =~= s.link.b.sent.take(0));
        assert(s.link.b.received =~= s.link.a.sent.take(0));
        assert(split_frames(s.server.conn.sent).0.len() == 0);
        assert(split_frames(s.link.a.received).1 =~= m.client.reader);
        assert(events.take(0) =~= events);
    } else {
        let init = events.drop_last();
        let n = init.len() as int;
        assert forall|k: int| 0 <= k < init.len() implies exchange_event_ok(
            #[trigger] run_exchange(m, init.take(k)),
            init[k],
        ) && exchange_takes_carry(run_exchange(m, init.take(k)), init[k]) by {
            assert(init.take(k) =~= events.take(k));
        }
        lemma_exchange_answers_when_takes_carry(m, init);
        assert(events.take(n) =~= init);
        let p = run_exchange(m, init);
        assert(exchange_event_ok(p, events[n]));
        assert(exchange_takes_carry(p, events[n]));
        match events.last() {
            ExchangeEvent::Call { now, method, payload } => lemma_call_agrees(p, now, method, payload),
            ExchangeEvent::Take { now } => lemma_take_agrees(p, now),
            ExchangeEvent::Tick { now } => lemma_tick_agrees(p, now),
            ExchangeEvent::Poll => {
                reveal(exchange_step);
            },
            ExchangeEvent::Session(se) => lemma_others_agree(p, se),
        }
        let t = run_exchange(m, events);
        assert(p.session.server.seen.submap_of(t.session.server.seen));
        assert(events.take(events.len() as int) =~= events);
        assert forall|k: int| 0 <= k <= events.len() implies (#[trigger] run_exchange(
            m,
            events.take(k),
        )).session.server.seen.submap_of(t.session.server.seen) by {
            if k < events.len() {
                assert(init.take(k) =~= events.take(k));
                let q = run_exchange(m, init.take(k)).session.server.seen;
                assert(q.submap_of(p.session.server.seen));
                assert forall|id: u64| #[trigger] q.contains_key(id) implies t.session.server.seen.contains_key(id)
                    && t.session.server.seen[id] == q[id] by {
                    assert(q.dom().contains(id));
                    assert(p.session.server.seen.dom().contains(id));
                    assert(t.session.server.seen.dom().contains(id));
                }
            }
        }
    }
}

} // verus!
