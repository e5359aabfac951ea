//! The server side of one connection: decodes requests, dispatches each
//! to a handler, and runs each request id's handler **at most once**. A
//! retried or duplicated request gets the response of its one execution
//! replayed, never a second execution.
//!
//! Every handler call is recorded in a ghost history (`ServerModel::runs`),
//! and the contracts tie that history to the calls themselves: the
//! handler went from its state before to its state after through exactly
//! those calls, each answering what its run records (`performs`), so the
//! contracts say which requests ran, with what, and what the handler
//! answered, whatever handler it is.

use crate::channel::tick::Tick;
use crate::rpc::framing::{frame, frames_view, spec_frame, split_frames, FrameReader};
use crate::rpc::message::{
    spec_decode_request, spec_encode_response, Request, RequestModel, Response, ResponseModel,
};
use crate::transport::connection::{
    append_datagrams, conn_inv, datagram_safe, datagrams, spec_on_datagram, spec_on_tick, spec_send, Connection,
    ConnectionModel,
};
use crate::transport::rto::MAX_RTT_SAMPLE;
use std::collections::HashMap;
use vstd::prelude::*;

verus! {

/// A request handler: method id and payload in, `(ok, response payload)`
/// out. It takes `&mut self` so that it can keep application state (a
/// key-value store, a counter, ...). A handler may say what a call does
/// (`handles`); a server's record of executions is then a record of
/// such calls.
pub trait Handler: Sized {
    /// Whether handling `method` and `payload` in state `self` may answer
    /// `r` and leave the handler in state `after`: anything, unless the
    /// handler says more.
    open spec fn handles(&self, method: u8, payload: Seq<u8>, after: Self, r: (bool, Seq<u8>)) -> bool {
        true
    }

    /// One call: it answers and moves the handler as `handles` allows.
    fn handle(&mut self, method: u8, payload: &[u8]) -> (r: (bool, Vec<u8>))
        ensures
            old(self).handles(method, payload@, *final(self), (r.0, r.1@)),
    ;
}

/// One execution of the handler: the request it ran and what it answered.
pub struct Run {
    pub id: u64,
    pub method: u8,
    pub payload: Seq<u8>,
    pub ok: bool,
    pub reply: Seq<u8>,
}

/// The response an execution produced.
pub open spec fn run_response(r: Run) -> ResponseModel {
    ResponseModel { id: r.id, ok: r.ok, payload: r.reply }
}

/// What the handler answered, run by run.
pub open spec fn handler_replies(runs: Seq<Run>) -> Seq<(bool, Seq<u8>)> {
    runs.map_values(|r: Run| (r.ok, r.reply))
}

/// `states` are the handler's states as it is called once for each of
/// `runs`, in order, with that run's method and payload, answering what
/// the run records: from `h0` to `h1`.
pub open spec fn call_chain<H: Handler>(h0: H, runs: Seq<Run>, h1: H, states: Seq<H>) -> bool {
    &&& states.len() == runs.len() + 1
    &&& states[0] == h0
    &&& states[runs.len() as int] == h1
    &&& forall|i: int|
        0 <= i < runs.len() ==> #[trigger] states[i].handles(
            runs[i].method,
            runs[i].payload,
            states[i + 1],
            (runs[i].ok, runs[i].reply),
        )
}

/// Handler state `h0`, called once for each of `runs` in order with its
/// method and payload and answering what the run records, comes to be
/// in state `h1`.
pub open spec fn performs<H: Handler>(h0: H, runs: Seq<Run>, h1: H) -> bool {
    exists|states: Seq<H>| #[trigger] call_chain(h0, runs, h1, states)
}

/// No call leaves the handler as it was.
pub proof fn lemma_performs_none<H: Handler>(h: H)
    ensures
        performs(h, Seq::empty(), h),
{
    assert(call_chain(h, Seq::empty(), h, seq![h]));
}

/// One more call extends a record of calls.
pub proof fn lemma_performs_push<H: Handler>(h0: H, runs: Seq<Run>, h1: H, run: Run, h2: H)
    requires
        performs(h0, runs, h1),
        h1.handles(run.method, run.payload, h2, (run.ok, run.reply)),
    ensures
        performs(h0, runs.push(run), h2),
{
    let st = choose|st: Seq<H>| #[trigger] call_chain(h0, runs, h1, st);
    let st2 = st.push(h2);
    let r2 = runs.push(run);
    assert forall|i: int| 0 <= i < r2.len() implies #[trigger] st2[i].handles(
        r2[i].method,
        r2[i].payload,
        st2[i + 1],
        (r2[i].ok, r2[i].reply),
    ) by {
        if i < runs.len() {
            assert(st[i].handles(runs[i].method, runs[i].payload, st[i + 1], (runs[i].ok, runs[i].reply)));
        }
    }
    assert(call_chain(h0, r2, h2, st2));
}

/// Records of calls chain.
pub proof fn lemma_performs_concat<H: Handler>(h0: H, a: Seq<Run>, h1: H, b: Seq<Run>, h2: H)
    requires
        performs(h0, a, h1),
        performs(h1, b, h2),
    ensures
        performs(h0, a + b, h2),
{
    let sa = choose|st: Seq<H>| #[trigger] call_chain(h0, a, h1, st);
    let sb = choose|st: Seq<H>| #[trigger] call_chain(h1, b, h2, st);
    let st = sa + sb.skip(1);
    let r = a + b;
    let n = a.len() as int;
    assert forall|i: int| 0 <= i < r.len() implies #[trigger] st[i].handles(
        r[i].method,
        r[i].payload,
        st[i + 1],
        (r[i].ok, r[i].reply),
    ) by {
        if i < n {
            assert(sa[i].handles(a[i].method, a[i].payload, sa[i + 1], (a[i].ok, a[i].reply)));
            if i + 1 == n {
                assert(st[i + 1] == sb[0]);
            }
        } else {
            assert(sb[i - n].handles(b[i - n].method, b[i - n].payload, sb[i - n + 1], (b[i - n].ok, b[i - n].reply)));
            if i == n {
                assert(st[i] == sa[n]);
            }
        }
    }
    assert(call_chain(h0, r, h2, st));
}

/// A server's state as plain values.
#[verifier::ext_equal]
pub struct ServerModel {
    pub conn: ConnectionModel,
    /// Stream bytes not yet forming a whole frame.
    pub reader: Seq<u8>,
    /// The response of every request id ever executed.
    pub seen: Map<u64, ResponseModel>,
    pub executions: u64,
    /// Every handler execution, in order.
    pub runs: Seq<Run>,
}

/// The server's invariant: each request id ran at most once, `seen` holds
/// exactly the responses of those runs, and `executions` counts them.
pub open spec fn server_inv(s: ServerModel) -> bool {
    &&& conn_inv(s.conn)
    &&& s.executions == s.runs.len()
    &&& forall|i: int, j: int|
        0 <= i < j < s.runs.len() ==> #[trigger] s.runs[i].id != #[trigger] s.runs[j].id
    &&& forall|i: int|
        0 <= i < s.runs.len() ==> s.seen.contains_key(#[trigger] s.runs[i].id) && s.seen[s.runs[i].id]
            == run_response(s.runs[i])
    &&& forall|id: u64| #[trigger]
        s.seen.contains_key(id) ==> exists|i: int| 0 <= i < s.runs.len() && s.runs[i].id == id
}

/// The response to a decoded request: the stored one for an id already
/// executed; otherwise a new execution answering `answer`.
pub open spec fn response_for(s: ServerModel, req: RequestModel, answer: (bool, Seq<u8>)) -> (
    ServerModel,
    ResponseModel,
) {
    if s.seen.contains_key(req.id) {
        (s, s.seen[req.id])
    } else {
        let resp = ResponseModel { id: req.id, ok: answer.0, payload: answer.1 };
        (
            ServerModel {
                seen: s.seen.insert(req.id, resp),
                executions: (s.executions + 1) as u64,
                runs: s.runs.push(
                    Run {
                        id: req.id,
                        method: req.method,
                        payload: req.payload,
                        ok: answer.0,
                        reply: answer.1,
                    },
                ),
                ..s
            },
            resp,
        )
    }
}

/// Sends `bytes` on the stream, unless the stream's 32-bit offset space
/// has no room left for them, in which case nothing is sent.
pub open spec fn reply_to(s: ServerModel, now: u64, bytes: Seq<u8>) -> (
    ServerModel,
    Seq<Seq<u8>>,
) {
    if s.conn.sent.len() + bytes.len() <= u32::MAX {
        let (c, o) = spec_send(s.conn, now, bytes);
        (ServerModel { conn: c, ..s }, o)
    } else {
        (s, Seq::empty())
    }
}

/// Handling one frame: a malformed request is dropped; a request gets
/// its response framed and sent.
pub open spec fn serve_frame(s: ServerModel, now: u64, bytes: Seq<u8>, answer: (bool, Seq<u8>)) -> (
    ServerModel,
    Seq<Seq<u8>>,
) {
    match spec_decode_request(bytes) {
        None => (s, Seq::empty()),
        Some(req) => {
            let (s1, resp) = response_for(s, req, answer);
            reply_to(s1, now, spec_frame(spec_encode_response(resp)))
        },
    }
}

/// Handling frames in order; the `k`-th new execution answers
/// `answers[k]`.
pub open spec fn serve_frames(
    s: ServerModel,
    now: u64,
    frames: Seq<Seq<u8>>,
    answers: Seq<(bool, Seq<u8>)>,
) -> (ServerModel, Seq<Seq<u8>>)
    decreases frames.len(),
{
    if frames.len() == 0 {
        (s, Seq::empty())
    } else {
        let (s1, o1) = serve_frames(s, now, frames.drop_last(), answers);
        let (s2, o2) = serve_frame(s1, now, frames.last(), answers[s1.runs.len() - s.runs.len()]);
        (s2, o1 + o2)
    }
}

/// Handling a datagram: the connection takes it, whatever it delivers
/// goes through the frame reader, and every whole frame is served.
pub open spec fn spec_server_on_datagram(
    s: ServerModel,
    now: u64,
    d: Seq<u8>,
    answers: Seq<(bool, Seq<u8>)>,
) -> (ServerModel, Seq<Seq<u8>>) {
    let (c1, o1) = spec_on_datagram(s.conn, now, d);
    let (frames, rest) = split_frames(s.reader + c1.delivered);
    let s1 = ServerModel {
        conn: ConnectionModel { delivered: Seq::empty(), ..c1 },
        reader: rest,
        ..s
    };
    let (s2, o2) = serve_frames(s1, now, frames, answers);
    (s2, o1 + o2)
}

/// Serving frames only adds executions: earlier ones stay as they were.
pub proof fn lemma_serve_frames_extends(
    s: ServerModel,
    now: u64,
    frames: Seq<Seq<u8>>,
    answers: Seq<(bool, Seq<u8>)>,
)
    ensures
        s.runs.is_prefix_of(serve_frames(s, now, frames, answers).0.runs),
    decreases frames.len(),
{
    if frames.len() > 0 {
        lemma_serve_frames_extends(s, now, frames.drop_last(), answers);
    }
}

/// Serving frames reads only as many answers as it executes requests.
pub(crate) proof fn lemma_serve_frames_answers(
    s: ServerModel,
    now: u64,
    frames: Seq<Seq<u8>>,
    a: Seq<(bool, Seq<u8>)>,
    b: Seq<(bool, Seq<u8>)>,
)
    requires
        forall|i: int|
            0 <= i < serve_frames(s, now, frames, a).0.runs.len() - s.runs.len() ==> #[trigger] a[i]
                == b[i],
    ensures
        serve_frames(s, now, frames, a) == serve_frames(s, now, frames, b),
    decreases frames.len(),
{
    if frames.len() > 0 {
        let (s1, _) = serve_frames(s, now, frames.drop_last(), a);
        let k = s1.runs.len() - s.runs.len();
        let s2 = serve_frames(s, now, frames, a).0;
        lemma_serve_frames_extends(s, now, frames.drop_last(), a);
        assert(s2.runs.len() >= s1.runs.len());
        lemma_serve_frames_answers(s, now, frames.drop_last(), a, b);
        if let Some(req) = spec_decode_request(frames.last()) {
            if !s1.seen.contains_key(req.id) {
                assert(s2.runs.len() == s1.runs.len() + 1);
                assert(a[k] == b[k]);
            }
        }
    }
}

/// The invariant does not depend on the connection beyond its own.
proof fn lemma_inv_new_conn(s: ServerModel, c: ConnectionModel)
    requires
        server_inv(s),
        conn_inv(c),
    ensures
        server_inv(ServerModel { conn: c, ..s }),
{
    let t = ServerModel { conn: c, ..s };
    assert forall|id: u64| #[trigger] t.seen.contains_key(id) implies exists|i: int|
        0 <= i < t.runs.len() && t.runs[i].id == id by {
        assert(s.seen.contains_key(id));
        let i = choose|i: int| 0 <= i < s.runs.len() && s.runs[i].id == id;
        assert(t.runs[i].id == id);
    }
}

/// Once stored, a request's response never changes: from one valid state
/// to any later one (executions only ever added), every id executed
/// before still maps to the same response. A retry, however late, gets
/// exactly the response of the request's one execution.
pub proof fn lemma_responses_stable(s: ServerModel, t: ServerModel)
    requires
        server_inv(s),
        server_inv(t),
        s.runs.is_prefix_of(t.runs),
    ensures
        s.seen.submap_of(t.seen),
{
    assert forall|id: u64| #[trigger] s.seen.contains_key(id) implies t.seen.contains_key(id)
        && t.seen[id] == s.seen[id] by {
        let i = choose|i: int| 0 <= i < s.runs.len() && s.runs[i].id == id;
        assert(t.runs[i] == s.runs[i]);
    }
}

/// Handles one frame at a time, the server owning one connection.
pub struct RpcServer<H: Handler> {
    conn: Connection,
    reader: FrameReader,
    handler: H,
    seen: HashMap<u64, Response>,
    executions: u64,
    runs: Ghost<Seq<Run>>,
}

impl<H: Handler> View for RpcServer<H> {
    type V = ServerModel;

    closed spec fn view(&self) -> ServerModel {
        ServerModel {
            conn: self.conn@,
            reader: self.reader@,
            seen: self.seen@.map_values(|r: Response| r@),
            executions: self.executions,
            runs: self.runs@,
        }
    }
}

impl<H: Handler> RpcServer<H> {
    /// The server's well-formedness: its invariant, and a table that
    /// holds one entry per execution.
    pub closed spec fn wf(&self) -> bool {
        &&& server_inv(self@)
        &&& self.seen@.len() == self.runs@.len()
    }

    pub fn new(conn: Connection, handler: H) -> (s: Self)
        requires
            conn_inv(conn@),
        ensures
            s.wf(),
            s.current_handler() == handler,
            s@ == (ServerModel {
                conn: conn@,
                reader: Seq::empty(),
                seen: Map::empty(),
                executions: 0,
                runs: Seq::empty(),
            }),
    {
        let s = RpcServer {
            conn,
            reader: FrameReader::new(),
            handler,
            seen: HashMap::new(),
            executions: 0,
            runs: Ghost(Seq::empty()),
        };
        assert(s@.seen =~= Map::empty());
        s
    }

    /// The handler this server dispatches to.
    pub closed spec fn current_handler(&self) -> H {
        self.handler
    }

    pub fn connection(&self) -> (c: &Connection)
        ensures
            c@ == self@.conn,
            self.wf() ==> server_inv(self@),
    {
        &self.conn
    }

    pub fn handler(&self) -> (h: &H)
        ensures
            *h == self.current_handler(),
    {
        &self.handler
    }

    /// Exchanges this server's handler with `other`: lets several servers
    /// take turns with one handler and the state it keeps.
    pub fn swap_handler(&mut self, other: &mut H)
        requires
            old(self).wf(),
        ensures
            final(self).wf(),
            final(self)@ == old(self)@,
            final(self).current_handler() == *old(other),
            *final(other) == old(self).current_handler(),
    {
        std::mem::swap(&mut self.handler, other);
    }

    /// How many times the handler has run: the number of distinct request
    /// ids ever received, however many times each was retried.
    pub fn executions(&self) -> (n: u64)
        ensures
            n == self@.executions,
    {
        self.executions
    }

    /// Handles one incoming datagram and returns the datagrams to send:
    /// the connection's own, then one response per request frame that
    /// arrived whole (a malformed request frame is dropped). A request id
    /// already executed gets its stored response again; a new one runs
    /// the handler once. A response for which the stream has no room
    /// left is not sent.
    #[verifier::spinoff_prover]
    pub fn on_datagram(&mut self, now: Tick, datagram: &[u8]) -> (out: Vec<Vec<u8>>)
        requires
            old(self).wf(),
            now.0 <= MAX_RTT_SAMPLE,
            datagram_safe(old(self)@.conn, now.0, datagram@),
        ensures
            final(self).wf(),
            old(self)@.runs.is_prefix_of(final(self)@.runs),
            old(self)@.seen.submap_of(final(self)@.seen),
            performs(
                old(self).current_handler(),
                final(self)@.runs.skip(old(self)@.runs.len() as int),
                final(self).current_handler(),
            ),
            (final(self)@, datagrams(out)) == spec_server_on_datagram(
                old(self)@,
                now.0,
                datagram@,
                handler_replies(final(self)@.runs.skip(old(self)@.runs.len() as int)),
            ),
    {
        let ghost s0 = self@;
        let ghost h0 = self.handler;
        let mut out = self.conn.on_datagram(now, datagram);
        let ghost c1 = self.conn@;
        let data = self.conn.recv();
        self.reader.feed(data.as_slice());
        let frames = self.reader.drain_frames();
        let ghost fv = frames_view(frames);
        let ghost s1 = self@;
        let ghost o1 = datagrams(out);
        proof {
            assert(s1 == (ServerModel {
                conn: ConnectionModel { delivered: Seq::empty(), ..c1 },
                reader: split_frames(s0.reader + c1.delivered).1,
                ..s0
            }));
            assert(fv == split_frames(s0.reader + c1.delivered).0);
            assert(fv.take(0) =~= Seq::<Seq<u8>>::empty());
            assert(s1.runs.skip(s1.runs.len() as int) =~= Seq::<Run>::empty());
            assert(o1 + Seq::<Seq<u8>>::empty() =~= o1);
            assert(self@.runs.skip(s0.runs.len() as int) =~= Seq::<Run>::empty());
            lemma_performs_none(h0);
        }
        let mut i: usize = 0;
        while i < frames.len()
            invariant
                self.wf(),
                now.0 <= MAX_RTT_SAMPLE,
                fv == frames_view(frames),
                i <= frames.len(),
                s1.runs.is_prefix_of(self@.runs),
                s1.runs == s0.runs,
                performs(h0, self@.runs.skip(s0.runs.len() as int), self.handler),
                (self@, datagrams(out)) == ({
                    let (s, o) = serve_frames(
                        s1,
                        now.0,
                        fv.take(i as int),
                        handler_replies(self@.runs.skip(s1.runs.len() as int)),
                    );
                    (s, o1 + o)
                }),
            decreases frames.len() - i,
        {
            let ghost before = self@;
            let ghost h_before = self.handler;
            let ghost out_before = datagrams(out);
            let ghost base = s1.runs.len() as int;
            let ghost bytes = fv[i as int];
            assert(frames[i as int]@ == bytes);
            let more = self.serve_one(now, frames[i].as_slice());
            proof {
                let k = s0.runs.len() as int;
                let done = before.runs.skip(k);
                if self@.runs.len() == before.runs.len() {
                    assert(self@.runs =~= before.runs);
                } else {
                    let run = self@.runs[before.runs.len() as int];
                    lemma_performs_push(h0, done, h_before, run, self.handler);
                    assert(k <= before.runs.len());
                    assert(self@.runs.subrange(0, before.runs.len() as int) =~= before.runs);
                    assert(self@.runs =~= before.runs.push(run));
                    assert(done.push(run) =~= self@.runs.skip(k));
                }
            }
            let ghost om = datagrams(more);
            append_datagrams(&mut out, more);
            proof {
                let a_before = handler_replies(before.runs.skip(base));
                let a_after = handler_replies(self@.runs.skip(base));
                let step = handler_replies(self@.runs.skip(before.runs.len() as int));
                assert(a_before.len() == before.runs.len() - base);
                assert forall|j: int| 0 <= j < a_before.len() implies #[trigger] a_before[j]
                    == a_after[j] by {
                    assert(self@.runs[base + j] == before.runs[base + j]);
                }
                lemma_serve_frames_answers(s1, now.0, fv.take(i as int), a_before, a_after);
                let t = fv.take(i + 1);
                assert(t.drop_last() =~= fv.take(i as int));
                assert(t.last() == bytes);
                if self@.runs.len() > before.runs.len() {
                    assert(a_after[a_before.len() as int] == step[0]);
                }
                assert(o1 + (serve_frames(s1, now.0, fv.take(i as int), a_before).1 + om)
                    =~= out_before + om);
            }
            i = i + 1;
        }
        assert(fv.take(frames.len() as int) =~= fv);
        proof {
            lemma_responses_stable(s0, self@);
        }
        out
    }

    /// Serves one frame: see `serve_frame`.
    #[verifier::spinoff_prover]
    fn serve_one(&mut self, now: Tick, bytes: &[u8]) -> (out: Vec<Vec<u8>>)
        requires
            old(self).wf(),
            now.0 <= MAX_RTT_SAMPLE,
        ensures
            final(self).wf(),
            old(self)@.runs.is_prefix_of(final(self)@.runs),
            final(self)@.runs.len() <= old(self)@.runs.len() + 1,
            final(self)@.runs.len() == old(self)@.runs.len() ==> final(self).current_handler()
                == old(self).current_handler(),
            final(self)@.runs.len() == old(self)@.runs.len() + 1 ==> old(self).current_handler().handles(
                final(self)@.runs.last().method,
                final(self)@.runs.last().payload,
                final(self).current_handler(),
                (final(self)@.runs.last().ok, final(self)@.runs.last().reply),
            ),
            (final(self)@, datagrams(out)) == serve_frame(
                old(self)@,
                now.0,
                bytes@,
                handler_replies(final(self)@.runs.skip(old(self)@.runs.len() as int))[0],
            ),
    {
        let ghost before = self@;
        let request = match Request::decode(bytes) {
            None => {
                return Vec::new();
            },
            Some(request) => request,
        };
        let cached: Option<Response> = match self.seen.get(&request.id) {
            Some(c) => Some(c.duplicate()),
            None => None,
        };
        let response = match cached {
            Some(c) => c,
            None => {
                let (ok, payload) = self.handler.handle(request.method, request.payload.as_slice());
                let response = Response { id: request.id, ok, payload };
                let stored = response.duplicate();
                self.seen.insert(request.id, stored);
                proof {
                    assert(self.seen@.len() == vstd::std_specs::hash::spec_hash_map_len(&self.seen));
                    assert(self.seen@.dom() =~= old(self).seen@.dom().insert(request.id));
                }
                self.executions = self.executions + 1;
                proof {
                    self.runs@ = self.runs@.push(
                        Run {
                            id: request.id,
                            method: request.method,
                            payload: request.payload@,
                            ok,
                            reply: response.payload@,
                        },
                    );
                    assert(self@.seen =~= before.seen.insert(request.id, response@));
                    let s = self@;
                    let n = before.runs.len() as int;
                    assert(!before.seen.contains_key(request.id));
                    assert forall|i: int, j: int| 0 <= i < j < s.runs.len() implies #[trigger] s.runs[i].id
                        != #[trigger] s.runs[j].id by {
                        if j == n {
                            assert(before.seen.contains_key(before.runs[i].id));
                        } else {
                            assert(before.runs[i].id != before.runs[j].id);
                        }
                    }
                    assert forall|i: int| 0 <= i < s.runs.len() implies s.seen.contains_key(
                        #[trigger] s.runs[i].id,
                    ) && s.seen[s.runs[i].id] == run_response(s.runs[i]) by {
                        if i < n {
                            assert(before.seen.contains_key(before.runs[i].id));
                            assert(s.runs[i] == before.runs[i]);
                        }
                    }
                    assert forall|id: u64| #[trigger] s.seen.contains_key(id) implies exists|i: int|
                        0 <= i < s.runs.len() && s.runs[i].id == id by {
                        if id == request.id {
                            assert(s.runs[n].id == id);
                        } else {
                            assert(before.seen.contains_key(id));
                            let i = choose|i: int| 0 <= i < before.runs.len() && before.runs[i].id == id;
                            assert(s.runs[i].id == id);
                        }
                    }
                }
                response
            },
        };
        let reply = frame(response.encode().as_slice());
        let st = self.conn.stats();
        let ghost mid = self@;
        if (reply.len() as u64) <= (u32::MAX as u64) - st.bytes_sent_app {
            let out = self.conn.send(now, reply.as_slice());
            proof {
                lemma_inv_new_conn(mid, self.conn@);
            }
            assert(self@ == ServerModel { conn: self.conn@, ..mid });
            out
        } else {
            Vec::new()
        }
    }

    /// Forwards the connection's timer.
    pub fn on_tick(&mut self, now: Tick) -> (out: Vec<Vec<u8>>)
        requires
            old(self).wf(),
            now.0 <= MAX_RTT_SAMPLE,
        ensures
            final(self).wf(),
            (final(self)@.conn, datagrams(out)) == spec_on_tick(old(self)@.conn, now.0),
            final(self)@ == (ServerModel { conn: final(self)@.conn, ..old(self)@ }),
            final(self).current_handler() == old(self).current_handler(),
    {
        self.conn.on_tick(now)
    }
}

} // verus!
