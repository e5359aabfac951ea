//! The client side of one connection: assigns request ids, resends a call
//! that has not been answered within a deadline, and hands completed
//! responses back to the caller. Poll-driven like `Connection`: every
//! method returns the datagrams that now need to go out.
//!
//! The connection's own retransmission defends against packet loss; this
//! retry is a second, independent layer of patience, and it can deliver
//! the same request twice. The server's dedup table is what keeps the
//! handler from running twice.
//!
//! Pending calls are kept in id order, which is also the order in which
//! they were issued; retries go out in that order.

use crate::channel::tick::{saturating_sub_spec, Tick};
use crate::rpc::framing::{frame, frames_view, spec_frame, split_frames, FrameReader};
use crate::rpc::message::{
    spec_decode_response, spec_encode_request, Request, RequestModel, Response, ResponseModel,
};
use crate::transport::connection::{
    append_datagrams, conn_inv, datagram_safe, datagrams, spec_on_datagram, spec_on_tick,
    spec_send, Connection, ConnectionModel,
};
use crate::le::{copy_bytes, lemma_le_roundtrips};
use crate::transport::rto::MAX_RTT_SAMPLE;
use vstd::prelude::*;

verus! {

struct PendingCall {
    request: Request,
    sent_at: Tick,
    attempts: u32,
}

/// A call awaiting its response, as plain values.
pub struct PendingModel {
    pub request: RequestModel,
    pub sent_at: u64,
    pub attempts: u32,
}

impl View for PendingCall {
    type V = PendingModel;

    closed spec fn view(&self) -> PendingModel {
        PendingModel { request: self.request@, sent_at: self.sent_at.0, attempts: self.attempts }
    }
}

spec fn pending_views(v: Seq<PendingCall>) -> Seq<PendingModel> {
    v.map_values(|c: PendingCall| c@)
}

/// A client's state as plain values.
#[verifier::ext_equal]
pub struct ClientModel {
    pub conn: ConnectionModel,
    pub reader: Seq<u8>,
    pub next_id: u64,
    /// Calls awaiting a response, in id order.
    pub pending: Seq<PendingModel>,
    /// Answered calls not yet polled.
    pub completed: Seq<(u64, ResponseModel)>,
    pub retry_deadline: u64,
    pub max_attempts: u32,
    /// Calls given up on, not yet polled.
    pub failed: Seq<u64>,
    /// Every id ever answered or given up on, in order.
    pub finished: Seq<u64>,
}

/// The client's invariant: pending calls in strictly increasing id order,
/// all issued; no id finishes twice, and a finished id is never pending.
pub open spec fn client_inv(m: ClientModel) -> bool {
    &&& conn_inv(m.conn)
    &&& forall|i: int, j: int|
        0 <= i < j < m.pending.len() ==> #[trigger] m.pending[i].request.id
            < #[trigger] m.pending[j].request.id
    &&& forall|i: int|
        0 <= i < m.pending.len() ==> {
            let c = #[trigger] m.pending[i];
            &&& c.request.id < m.next_id
            &&& 1 <= c.attempts < u32::MAX
        }
    &&& forall|i: int, j: int|
        0 <= i < j < m.finished.len() ==> #[trigger] m.finished[i] != #[trigger] m.finished[j]
    &&& forall|i: int| 0 <= i < m.finished.len() ==> #[trigger] m.finished[i] < m.next_id
    &&& forall|i: int, j: int|
        0 <= i < m.finished.len() && 0 <= j < m.pending.len() ==> #[trigger] m.finished[i]
            != #[trigger] m.pending[j].request.id
}

/// Whether a call with this id is pending.
pub open spec fn has_call(p: Seq<PendingModel>, id: u64) -> bool {
    exists|i: int| 0 <= i < p.len() && #[trigger] p[i].request.id == id
}

/// The pending calls but the one with this id.
pub open spec fn without_call(p: Seq<PendingModel>, id: u64) -> Seq<PendingModel> {
    p.filter(|c: PendingModel| c.request.id != id)
}

/// Issuing a call: the next id, its frame sent on the stream, and the
/// call pending from `now` with one attempt.
pub open spec fn spec_call(m: ClientModel, now: u64, method: u8, payload: Seq<u8>) -> (
    ClientModel,
    u64,
    Seq<Seq<u8>>,
) {
    let req = RequestModel { id: m.next_id, method, payload };
    let (c, o) = spec_send(m.conn, now, spec_frame(spec_encode_request(req)));
    (
        ClientModel {
            conn: c,
            next_id: (m.next_id + 1) as u64,
            pending: m.pending.push(PendingModel { request: req, sent_at: now, attempts: 1 }),
            ..m
        },
        m.next_id,
        o,
    )
}

/// Taking one frame: a response to a pending call completes it; anything
/// else (malformed, already answered, never ours) is ignored.
pub open spec fn take_response(m: ClientModel, bytes: Seq<u8>) -> ClientModel {
    match spec_decode_response(bytes) {
        Some(r) => if has_call(m.pending, r.id) {
            ClientModel {
                pending: without_call(m.pending, r.id),
                completed: m.completed.push((r.id, r)),
                finished: m.finished.push(r.id),
                ..m
            }
        } else {
            m
        },
        None => m,
    }
}

pub open spec fn take_responses(m: ClientModel, frames: Seq<Seq<u8>>) -> ClientModel
    decreases frames.len(),
{
    if frames.len() == 0 {
        m
    } else {
        take_response(take_responses(m, frames.drop_last()), frames.last())
    }
}

/// Handling a datagram: the connection takes it, and every whole frame
/// it delivers is taken as a response.
pub open spec fn spec_client_on_datagram(m: ClientModel, now: u64, d: Seq<u8>) -> (
    ClientModel,
    Seq<Seq<u8>>,
) {
    let (c1, o1) = spec_on_datagram(m.conn, now, d);
    let (frames, rest) = split_frames(m.reader + c1.delivered);
    (
        take_responses(
            ClientModel {
                conn: ConnectionModel { delivered: Seq::empty(), ..c1 },
                reader: rest,
                ..m
            },
            frames,
        ),
        o1,
    )
}

/// The retry pass's progress: the connection, the calls kept pending,
/// the ids given up on, and the datagrams sent.
pub struct Sweep {
    pub conn: ConnectionModel,
    pub kept: Seq<PendingModel>,
    pub failing: Seq<u64>,
    pub out: Seq<Seq<u8>>,
}

/// One pending call in the retry pass. A call waiting `retry_deadline`
/// ticks or more counts another attempt; past `max_attempts` it is given
/// up on, otherwise it is resent (when the stream has room) and its wait
/// starts over.
pub open spec fn sweep_call(
    s: Sweep,
    now: u64,
    retry_deadline: u64,
    max_attempts: u32,
    c: PendingModel,
) -> Sweep {
    if saturating_sub_spec(now, c.sent_at) >= retry_deadline {
        let attempts = (c.attempts + 1) as u32;
        if attempts > max_attempts {
            Sweep { failing: s.failing.push(c.request.id), ..s }
        } else {
            let bytes = spec_frame(spec_encode_request(c.request));
            let kept = s.kept.push(PendingModel { request: c.request, sent_at: now, attempts });
            if s.conn.sent.len() + bytes.len() <= u32::MAX {
                let (conn, o) = spec_send(s.conn, now, bytes);
                Sweep { conn, kept, out: s.out + o, ..s }
            } else {
                Sweep { kept, ..s }
            }
        }
    } else {
        Sweep { kept: s.kept.push(c), ..s }
    }
}

pub open spec fn sweep(
    s: Sweep,
    now: u64,
    retry_deadline: u64,
    max_attempts: u32,
    p: Seq<PendingModel>,
) -> Sweep
    decreases p.len(),
{
    if p.len() == 0 {
        s
    } else {
        sweep_call(sweep(s, now, retry_deadline, max_attempts, p.drop_last()), now, retry_deadline, max_attempts, p.last())
    }
}

/// A tick: the connection's timer, then the retry pass over the pending
/// calls in id order.
pub open spec fn spec_client_on_tick(m: ClientModel, now: u64) -> (ClientModel, Seq<Seq<u8>>) {
    let (c1, o1) = spec_on_tick(m.conn, now);
    let s = sweep(
        Sweep { conn: c1, kept: Seq::empty(), failing: Seq::empty(), out: Seq::empty() },
        now,
        m.retry_deadline,
        m.max_attempts,
        m.pending,
    );
    (
        ClientModel {
            conn: s.conn,
            pending: s.kept,
            failed: m.failed + s.failing,
            finished: m.finished + s.failing,
            ..m
        },
        o1 + s.out,
    )
}

/// Without a call of that id, removing it changes nothing.
proof fn lemma_without_absent(p: Seq<PendingModel>, id: u64)
    requires
        !has_call(p, id),
    ensures
        without_call(p, id) == p,
    decreases p.len(),
{
    reveal(Seq::filter);
    if p.len() > 0 {
        let q = p.drop_last();
        assert(!has_call(q, id)) by {
            if has_call(q, id) {
                let i = choose|i: int| 0 <= i < q.len() && #[trigger] q[i].request.id == id;
                assert(p[i].request.id == id);
            }
        }
        lemma_without_absent(q, id);
        assert(p[p.len() - 1].request.id != id);
        assert(q.push(p.last()) =~= p);
    }
}

/// With distinct ids, removing the call of an id removes exactly its
/// position.
proof fn lemma_without_at(p: Seq<PendingModel>, id: u64, k: int)
    requires
        0 <= k < p.len(),
        p[k].request.id == id,
        forall|i: int, j: int|
            0 <= i < j < p.len() ==> #[trigger] p[i].request.id < #[trigger] p[j].request.id,
    ensures
        without_call(p, id) == p.remove(k),
    decreases p.len(),
{
    reveal(Seq::filter);
    let q = p.drop_last();
    if k == p.len() - 1 {
        assert(!has_call(q, id)) by {
            if has_call(q, id) {
                let i = choose|i: int| 0 <= i < q.len() && #[trigger] q[i].request.id == id;
                assert(p[i].request.id < p[k].request.id);
            }
        }
        lemma_without_absent(q, id);
        assert(p.remove(k) =~= q);
    } else {
        lemma_without_at(q, id, k);
        assert(p[k].request.id < p[p.len() - 1].request.id);
        assert(q.remove(k).push(p.last()) =~= p.remove(k));
    }
}

/// A request's frame is 13 bytes longer than its payload.
pub(crate) proof fn lemma_request_frame_len(req: RequestModel)
    ensures
        spec_frame(spec_encode_request(req)).len() == 13 + req.payload.len(),
{
    lemma_le_roundtrips();
}

pub struct RpcClient {
    conn: Connection,
    reader: FrameReader,
    next_id: u64,
    pending: Vec<PendingCall>,
    completed: Vec<(u64, Response)>,
    /// Ticks to wait for a response before resending the same request.
    pub retry_deadline: u64,
    /// A request retried this many times without an answer fails the
    /// call (returned by `poll_failed`).
    pub max_attempts: u32,
    failed: Vec<u64>,
    finished: Ghost<Seq<u64>>,
}

pub open spec fn completed_views(v: Seq<(u64, Response)>) -> Seq<(u64, ResponseModel)> {
    v.map_values(|e: (u64, Response)| (e.0, e.1@))
}

impl View for RpcClient {
    type V = ClientModel;

    closed spec fn view(&self) -> ClientModel {
        ClientModel {
            conn: self.conn@,
            reader: self.reader@,
            next_id: self.next_id,
            pending: pending_views(self.pending@),
            completed: completed_views(self.completed@),
            retry_deadline: self.retry_deadline,
            max_attempts: self.max_attempts,
            failed: self.failed@,
            finished: self.finished@,
        }
    }
}

impl RpcClient {
    pub fn new(conn: Connection, retry_deadline: u64, max_attempts: u32) -> (c: Self)
        requires
            conn_inv(conn@),
        ensures
            client_inv(c@),
            c@ == (ClientModel {
                conn: conn@,
                reader: Seq::empty(),
                next_id: 0,
                pending: Seq::empty(),
                completed: Seq::empty(),
                retry_deadline,
                max_attempts,
                failed: Seq::empty(),
                finished: Seq::empty(),
            }),
    {
        let c = RpcClient {
            conn,
            reader: FrameReader::new(),
            next_id: 0,
            pending: Vec::new(),
            completed: Vec::new(),
            retry_deadline,
            max_attempts,
            failed: Vec::new(),
            finished: Ghost(Seq::empty()),
        };
        assert(c@.pending =~= Seq::<PendingModel>::empty());
        assert(c@.completed =~= Seq::<(u64, ResponseModel)>::empty());
        c
    }

    pub fn connection(&self) -> (c: &Connection)
        ensures
            c@ == self@.conn,
    {
        &self.conn
    }

    /// Issues a new call, returning its request id (to match a later
    /// `poll_completed` or `poll_failed`) and the datagrams to send.
    pub fn call(&mut self, now: Tick, method: u8, payload: &[u8]) -> (r: (u64, Vec<Vec<u8>>))
        requires
            client_inv(old(self)@),
            now.0 <= MAX_RTT_SAMPLE,
            old(self)@.next_id < u64::MAX,
            old(self)@.conn.sent.len() + 13 + payload@.len() <= u32::MAX,
        ensures
            client_inv(final(self)@),
            (final(self)@, r.0, datagrams(r.1)) == spec_call(old(self)@, now.0, method, payload@),
    {
        let id = self.next_id;
        self.next_id = self.next_id + 1;
        let request = Request { id, method, payload: copy_bytes(payload) };
        assert(request.payload@ =~= payload@);
        proof {
            lemma_request_frame_len(request@);
        }
        let out = self.conn.send(now, frame(request.encode().as_slice()).as_slice());
        self.pending.push(PendingCall { request, sent_at: now, attempts: 1 });
        proof {
            assert(self@.pending =~= old(self)@.pending.push(
                PendingModel { request: request@, sent_at: now.0, attempts: 1 },
            ));
            let m = self@;
            let n = old(self)@.pending.len() as int;
            assert forall|i: int, j: int| 0 <= i < j < m.pending.len() implies #[trigger] m.pending[i].request.id
                < #[trigger] m.pending[j].request.id by {
                if j == n {
                    assert(old(self)@.pending[i].request.id < old(self)@.next_id);
                } else {
                    assert(old(self)@.pending[i].request.id < old(self)@.pending[j].request.id);
                }
            }
            assert forall|i: int, j: int| 0 <= i < m.finished.len() && 0 <= j < m.pending.len() implies #[trigger] m.finished[i]
                != #[trigger] m.pending[j].request.id by {
                if j == n {
                    assert(old(self)@.finished[i] < old(self)@.next_id);
                } else {
                    assert(old(self)@.finished[i] != old(self)@.pending[j].request.id);
                }
            }
            assert forall|i: int| 0 <= i < m.pending.len() implies {
                let c = #[trigger] m.pending[i];
                &&& c.request.id < m.next_id
                &&& 1 <= c.attempts < u32::MAX
            } by {
                if i < n {
                    assert(m.pending[i] == old(self)@.pending[i]);
                }
            }
            assert(conn_inv(m.conn));
            assert(m.finished == old(self)@.finished);
            assert forall|i: int| 0 <= i < m.finished.len() implies #[trigger] m.finished[i] < m.next_id by {
                assert(old(self)@.finished[i] < old(self)@.next_id);
            }
        }
        (id, out)
    }

    /// Removes the pending call with this id, if there is one.
    fn remove_call(&mut self, id: u64) -> (found: bool)
        requires
            client_inv(old(self)@),
        ensures
            found == has_call(old(self)@.pending, id),
            final(self)@ == (ClientModel { pending: without_call(old(self)@.pending, id), ..old(self)@ }),
            !found ==> final(self)@ == old(self)@,
    {
        let ghost p = self@.pending;
        let mut k: usize = 0;
        while k < self.pending.len() && self.pending[k].request.id != id
            invariant
                k <= self.pending.len(),
                p == pending_views(self.pending@),
                forall|j: int| 0 <= j < k ==> #[trigger] p[j].request.id != id,
            decreases self.pending.len() - k,
        {
            assert(p[k as int].request.id != id);
            k = k + 1;
        }
        if k < self.pending.len() {
            proof {
                assert(p[k as int].request.id == id);
                lemma_without_at(p, id, k as int);
            }
            let _call = self.pending.remove(k);
            assert(pending_views(self.pending@) =~= p.remove(k as int));
            true
        } else {
            proof {
                assert(!has_call(p, id)) by {
                    if has_call(p, id) {
                        let i = choose|i: int| 0 <= i < p.len() && #[trigger] p[i].request.id == id;
                        assert(p[i].request.id != id);
                    }
                }
                lemma_without_absent(p, id);
            }
            false
        }
    }

    /// Takes one frame as a response: see `take_response`.
    fn take_one(&mut self, bytes: &[u8])
        requires
            client_inv(old(self)@),
        ensures
            client_inv(final(self)@),
            final(self)@ == take_response(old(self)@, bytes@),
    {
        if let Some(r) = Response::decode(bytes) {
            let id = r.id;
            let ghost m0 = self@;
            if self.remove_call(id) {
                let ghost rv = r@;
                self.completed.push((id, r));
                proof {
                    self.finished@ = self.finished@.push(id);
                    assert(self@.completed =~= m0.completed.push((id, rv)));
                    let m = self@;
                    let p = m0.pending;
                    let k = choose|i: int| 0 <= i < p.len() && #[trigger] p[i].request.id == id;
                    lemma_without_at(p, id, k);
                    assert(m.pending =~= p.remove(k));
                    assert forall|i: int, j: int| 0 <= i < j < m.pending.len() implies #[trigger] m.pending[i].request.id
                        < #[trigger] m.pending[j].request.id by {
                        if i < k && j >= k {
                            assert(p[i].request.id < p[j + 1].request.id);
                        } else if i >= k {
                            assert(p[i + 1].request.id < p[j + 1].request.id);
                        } else {
                            assert(p[i].request.id < p[j].request.id);
                        }
                    }
                    assert forall|i: int| 0 <= i < m.pending.len() implies {
                        let c = #[trigger] m.pending[i];
                        &&& c.request.id < m.next_id
                        &&& 1 <= c.attempts < u32::MAX
                    } by {
                        if i < k {
                            assert(m.pending[i] == p[i]);
                        } else {
                            assert(m.pending[i] == p[i + 1]);
                        }
                    }
                    let n = m0.finished.len() as int;
                    assert forall|i: int, j: int| 0 <= i < j < m.finished.len() implies #[trigger] m.finished[i]
                        != #[trigger] m.finished[j] by {
                        if j == n {
                            assert(m0.finished[i] != p[k].request.id);
                        } else {
                            assert(m0.finished[i] != m0.finished[j]);
                        }
                    }
                    assert forall|i: int| 0 <= i < m.finished.len() implies #[trigger] m.finished[i] < m.next_id by {
                        if i < n {
                            assert(m0.finished[i] < m0.next_id);
                        } else {
                            assert(p[k].request.id < m0.next_id);
                        }
                    }
                    assert forall|i: int, j: int| 0 <= i < m.finished.len() && 0 <= j < m.pending.len() implies #[trigger] m.finished[i]
                        != #[trigger] m.pending[j].request.id by {
                        let jj = if j < k { j } else { j + 1 };
                        assert(m.pending[j] == p[jj]);
                        if i < n {
                            assert(m0.finished[i] != p[jj].request.id);
                        } else {
                            if jj < k {
                                assert(p[jj].request.id < p[k].request.id);
                            } else {
                                assert(p[k].request.id < p[jj].request.id);
                            }
                        }
                    }
                }
            }
        }
    }

    /// Handles one incoming datagram and returns the datagrams to send.
    /// Every whole frame the connection delivers is taken as a response:
    /// one to a pending call completes it (see `poll_completed`); any
    /// other is ignored, a duplicate answer to a retried call among them.
    #[verifier::spinoff_prover]
    pub fn on_datagram(&mut self, now: Tick, datagram: &[u8]) -> (out: Vec<Vec<u8>>)
        requires
            client_inv(old(self)@),
            now.0 <= MAX_RTT_SAMPLE,
            datagram_safe(old(self)@.conn, now.0, datagram@),
        ensures
            client_inv(final(self)@),
            (final(self)@, datagrams(out)) == spec_client_on_datagram(old(self)@, now.0, datagram@),
            final(self)@.next_id == old(self)@.next_id,
            final(self)@.max_attempts == old(self)@.max_attempts,
            final(self)@.retry_deadline == old(self)@.retry_deadline,
    {
        let ghost m0 = self@;
        let out = self.conn.on_datagram(now, datagram);
        let ghost c1 = self.conn@;
        let data = self.conn.recv();
        self.reader.feed(data.as_slice());
        let frames = self.reader.drain_frames();
        let ghost fv = frames_view(frames);
        let ghost s1 = self@;
        proof {
            assert(s1 == (ClientModel {
                conn: ConnectionModel { delivered: Seq::empty(), ..c1 },
                reader: split_frames(m0.reader + c1.delivered).1,
                ..m0
            }));
            assert(fv.take(0) =~= Seq::<Seq<u8>>::empty());
        }
        let mut i: usize = 0;
        while i < frames.len()
            invariant
                client_inv(self@),
                fv == frames_view(frames),
                i <= frames.len(),
                self@ == take_responses(s1, fv.take(i as int)),
                self@.next_id == m0.next_id,
                self@.max_attempts == m0.max_attempts,
                self@.retry_deadline == m0.retry_deadline,
            decreases frames.len() - i,
        {
            assert(frames[i as int]@ == fv[i as int]);
            self.take_one(frames[i].as_slice());
            assert(fv.take(i + 1).drop_last() =~= fv.take(i as int));
            i = i + 1;
        }
        assert(fv.take(frames.len() as int) =~= fv);
        out
    }

    /// Forwards the connection's timer, then resends every call that has
    /// waited `retry_deadline` ticks or more, giving up on one whose
    /// attempts would exceed `max_attempts` (see `poll_failed`).
    #[verifier::spinoff_prover]
    pub fn on_tick(&mut self, now: Tick) -> (out: Vec<Vec<u8>>)
        requires
            client_inv(old(self)@),
            now.0 <= MAX_RTT_SAMPLE,
            old(self)@.max_attempts < u32::MAX,
        ensures
            client_inv(final(self)@),
            (final(self)@, datagrams(out)) == spec_client_on_tick(old(self)@, now.0),
    {
        let ghost m0 = self@;
        let mut out = self.conn.on_tick(now);
        let ghost o1 = datagrams(out);
        let ghost c1 = self.conn@;
        let mut rest: Vec<PendingCall> = Vec::new();
        std::mem::swap(&mut rest, &mut self.pending);
        let ghost p = pending_views(rest@);
        let ghost start = Sweep {
            conn: c1,
            kept: Seq::empty(),
            failing: Seq::empty(),
            out: Seq::empty(),
        };
        let mut failing: Vec<u64> = Vec::new();
        let mut i: usize = 0;
        proof {
            assert(p.take(0) =~= Seq::<PendingModel>::empty());
            assert(p.len() == rest.len());
            assert(pending_views(self.pending@) =~= Seq::<PendingModel>::empty());
            assert(p.skip(0) =~= p);
            assert(o1 + Seq::<Seq<u8>>::empty() =~= o1);
        }
        while rest.len() > 0
            invariant
                m0 == old(self)@,
                client_inv(m0),
                p == m0.pending,
                now.0 <= MAX_RTT_SAMPLE,
                m0.max_attempts < u32::MAX,
                i <= p.len(),
                p.len() <= usize::MAX,
                pending_views(rest@) == p.skip(i as int),
                conn_inv(self.conn@),
                self.retry_deadline == m0.retry_deadline,
                self.max_attempts == m0.max_attempts,
                self@ == (ClientModel { conn: self.conn@, pending: pending_views(self.pending@), ..m0 }),
                ({
                    let s = sweep(start, now.0, m0.retry_deadline, m0.max_attempts, p.take(i as int));
                    &&& s.conn == self.conn@
                    &&& s.kept == pending_views(self.pending@)
                    &&& s.failing == failing@
                    &&& o1 + s.out == datagrams(out)
                }),
                forall|a: int, b: int|
                    0 <= a < b < self.pending@.len() ==> #[trigger] self.pending@[a]@.request.id
                        < #[trigger] self.pending@[b]@.request.id,
                forall|a: int, b: int|
                    0 <= a < b < failing@.len() ==> #[trigger] failing@[a] < #[trigger] failing@[b],
                forall|a: int|
                    0 <= a < self.pending@.len() ==> {
                        let c = #[trigger] self.pending@[a]@;
                        &&& (i < p.len() ==> c.request.id < p[i as int].request.id)
                        &&& c.request.id < m0.next_id
                        &&& 1 <= c.attempts < u32::MAX
                    },
                forall|a: int|
                    0 <= a < failing@.len() ==> {
                        &&& (i < p.len() ==> #[trigger] failing@[a] < p[i as int].request.id)
                        &&& failing@[a] < m0.next_id
                    },
                forall|a: int, b: int|
                    0 <= a < self.pending@.len() && 0 <= b < failing@.len() ==> #[trigger] self.pending@[a]@.request.id
                        != #[trigger] failing@[b],
                forall|f: int, a: int|
                    0 <= f < m0.finished.len() && 0 <= a < self.pending@.len() ==> #[trigger] m0.finished[f]
                        != #[trigger] self.pending@[a]@.request.id,
                forall|f: int, a: int|
                    0 <= f < m0.finished.len() && 0 <= a < failing@.len() ==> #[trigger] m0.finished[f]
                        != #[trigger] failing@[a],
            decreases rest.len(),
        {
            proof {
                assert(pending_views(rest@).len() == rest@.len());
                assert(i < p.len());
                assert(pending_views(rest@)[0] == rest@[0]@);
                assert(p.skip(i as int)[0] == p[i as int]);
            }
            let ghost rest_before = rest@;
            let call = rest.remove(0);
            let ghost c = call@;
            let ghost before_pending = pending_views(self.pending@);
            let ghost before_failing = failing@;
            let ghost before_out = datagrams(out);
            let ghost s = sweep(start, now.0, m0.retry_deadline, m0.max_attempts, p.take(i as int));
            assert(c == p[i as int]);
            assert(pending_views(rest@) =~= p.skip(i + 1)) by {
                assert forall|k: int| 0 <= k < rest@.len() implies #[trigger] pending_views(rest@)[k]
                    == p.skip(i + 1)[k] by {
                    assert(rest@[k] == rest_before[k + 1]);
                    assert(pending_views(rest_before)[k + 1] == p.skip(i as int)[k + 1]);
                }
            }
            if now - call.sent_at >= self.retry_deadline {
                let attempts = call.attempts + 1;
                if attempts > self.max_attempts {
                    failing.push(call.request.id);
                } else {
                    let bytes = frame(call.request.encode().as_slice());
                    let st = self.conn.stats();
                    if (bytes.len() as u64) <= (u32::MAX as u64) - st.bytes_sent_app {
                        let more = self.conn.send(now, bytes.as_slice());
                        proof {
                            assert(o1 + (s.out + datagrams(more)) =~= before_out + datagrams(more));
                        }
                        append_datagrams(&mut out, more);
                    }
                    self.pending.push(PendingCall { request: call.request, sent_at: now, attempts });
                }
            } else {
                self.pending.push(call);
            }
            proof {
                let t = p.take(i + 1);
                assert(t.drop_last() =~= p.take(i as int));
                assert(t.last() == c);
                assert(pending_views(rest@) =~= p.skip(i + 1));
                assert(pending_views(self.pending@) =~= sweep(start, now.0, m0.retry_deadline, m0.max_attempts, t).kept);
                if i + 1 < p.len() {
                    assert(p[i as int].request.id < p[i + 1].request.id);
                }
            }
            i = i + 1;
        }
        proof {
            assert(p.take(i as int) =~= p);
        }
        let ghost fl = failing@;
        self.failed.append(&mut failing);
        proof {
            self.finished@ = self.finished@ + fl;
            let m = self@;
            let n = m0.finished.len() as int;
            assert(m.failed =~= m0.failed + fl);
            assert forall|a: int, b: int| 0 <= a < b < m.finished.len() implies #[trigger] m.finished[a]
                != #[trigger] m.finished[b] by {
                if b < n {
                    assert(m0.finished[a] != m0.finished[b]);
                } else if a < n {
                    assert(m0.finished[a] != fl[b - n]);
                } else {
                    assert(fl[a - n] < fl[b - n]);
                }
            }
            assert forall|a: int| 0 <= a < m.finished.len() implies #[trigger] m.finished[a] < m.next_id by {
                if a < n {
                    assert(m0.finished[a] < m0.next_id);
                } else {
                    assert(fl[a - n] < m0.next_id);
                }
            }
            assert forall|a: int, b: int| 0 <= a < m.finished.len() && 0 <= b < m.pending.len() implies #[trigger] m.finished[a]
                != #[trigger] m.pending[b].request.id by {
                assert(m.pending[b] == self.pending@[b]@);
                if a < n {
                    assert(m0.finished[a] != self.pending@[b]@.request.id);
                } else {
                    assert(self.pending@[b]@.request.id != fl[a - n]);
                }
            }
            assert forall|a: int, b: int| 0 <= a < b < m.pending.len() implies #[trigger] m.pending[a].request.id
                < #[trigger] m.pending[b].request.id by {
                assert(m.pending[a] == self.pending@[a]@);
                assert(m.pending[b] == self.pending@[b]@);
            }
            assert forall|a: int| 0 <= a < m.pending.len() implies {
                let c = #[trigger] m.pending[a];
                &&& c.request.id < m.next_id
                &&& 1 <= c.attempts < u32::MAX
            } by {
                assert(m.pending[a] == self.pending@[a]@);
            }
        }
        out
    }

    /// Every call answered since the last poll, in the order answered.
    pub fn poll_completed(&mut self) -> (r: Vec<(u64, Response)>)
        requires
            client_inv(old(self)@),
        ensures
            client_inv(final(self)@),
            completed_views(r@) == old(self)@.completed,
            final(self)@ == (ClientModel { completed: Seq::empty(), ..old(self)@ }),
    {
        let mut r: Vec<(u64, Response)> = Vec::new();
        std::mem::swap(&mut r, &mut self.completed);
        assert(self@.completed =~= Seq::<(u64, ResponseModel)>::empty());
        r
    }

    /// Every call given up on since the last poll.
    pub fn poll_failed(&mut self) -> (r: Vec<u64>)
        requires
            client_inv(old(self)@),
        ensures
            client_inv(final(self)@),
            r@ == old(self)@.failed,
            final(self)@ == (ClientModel { failed: Seq::empty(), ..old(self)@ }),
    {
        let mut r: Vec<u64> = Vec::new();
        std::mem::swap(&mut r, &mut self.failed);
        assert(self@.failed =~= Seq::<u64>::empty());
        r
    }

    pub fn pending_count(&self) -> (n: usize)
        ensures
            n == self@.pending.len(),
    {
        self.pending.len()
    }
}

} // verus!
