//! What a server says on its stream: the stream splits into whole
//! frames, each the stored answer of its request's one execution, and it
//! stays so as the server serves requests and runs its timers. Whatever
//! part of that stream a client has received splits only into such
//! answers, so a client reads, for a request, only the answer of its one
//! execution, however often the request was retried.

use crate::rpc::framing::{
    concat_frames, lemma_partial_frame_held, lemma_split_concat, lemma_split_frame, spec_frame,
    split_frames,
};
use crate::rpc::message::{
    lemma_response_roundtrip, spec_decode_request, spec_decode_response, spec_encode_response,
    ResponseModel,
};
use crate::rpc::server::{
    response_for, run_response, serve_frame, serve_frames, server_inv, spec_server_on_datagram,
    ServerModel,
};
use crate::transport::connection::{spec_on_tick, ConnectionModel};
use crate::transport::laws::{
    lemma_on_datagram_keeps_sent, lemma_on_tick_keeps_sent, lemma_send_extends_sent,
};
use vstd::bytes::*;
use vstd::prelude::*;

verus! {

/// Frame `f` is the encoding of the response stored for its request.
pub open spec fn stored_answer(f: Seq<u8>, seen: Map<u64, ResponseModel>) -> bool {
    match spec_decode_response(f) {
        Some(r) => seen.contains_key(r.id) && seen[r.id] == r,
        None => false,
    }
}

/// Every stored answer is filed under its own request id.
pub open spec fn keyed_by_id(seen: Map<u64, ResponseModel>) -> bool {
    forall|id: u64| #[trigger] seen.contains_key(id) ==> seen[id].id == id
}

/// `stream` splits into whole frames, each a stored answer.
pub open spec fn answers_only(stream: Seq<u8>, seen: Map<u64, ResponseModel>) -> bool {
    &&& split_frames(stream).1.len() == 0
    &&& forall|k: int|
        0 <= k < split_frames(stream).0.len() ==> stored_answer(
            #[trigger] split_frames(stream).0[k],
            seen,
        )
}

/// Bytes that split into whole frames are those frames concatenated.
proof fn lemma_split_whole(b: Seq<u8>)
    requires
        split_frames(b).1.len() == 0,
    ensures
        b == concat_frames(split_frames(b).0),
        forall|k: int|
            0 <= k < split_frames(b).0.len() ==> #[trigger] split_frames(b).0[k].len() <= u32::MAX,
    decreases b.len(),
{
    if b.len() >= 4 {
        let n = spec_u32_from_le_bytes(b.subrange(0, 4)) as int;
        if b.len() - 4 >= n {
            let rest = b.skip(4 + n);
            lemma_split_whole(rest);
            let p = b.subrange(4, 4 + n);
            let fs = split_frames(b).0;
            assert(fs =~= seq![p] + split_frames(rest).0);
            lemma_le_roundtrips_u32(b.subrange(0, 4));
            assert(fs.skip(1) =~= split_frames(rest).0);
            assert(b =~= spec_frame(p) + rest);
            assert forall|k: int| 0 <= k < fs.len() implies #[trigger] fs[k].len() <= u32::MAX by {
                if k > 0 {
                    assert(fs[k] == split_frames(rest).0[k - 1]);
                }
            }
        }
    }
}

proof fn lemma_le_roundtrips_u32(b: Seq<u8>)
    requires
        b.len() == 4,
    ensures
        spec_u32_to_le_bytes(spec_u32_from_le_bytes(b)) == b,
{
    crate::le::lemma_le_roundtrips();
}

proof fn lemma_concat_push(fs: Seq<Seq<u8>>, p: Seq<u8>)
    ensures
        concat_frames(fs.push(p)) == concat_frames(fs) + spec_frame(p),
    decreases fs.len(),
{
    if fs.len() == 0 {
        let q = fs.push(p);
        assert(q[0] == p);
        assert(q.skip(1) =~= Seq::<Seq<u8>>::empty());
        assert(concat_frames(q.skip(1)) == Seq::<u8>::empty());
        assert(concat_frames(q) == spec_frame(p) + concat_frames(q.skip(1)));
        assert(concat_frames(q) =~= spec_frame(p));
        assert(concat_frames(fs) + spec_frame(p) =~= spec_frame(p));
    } else {
        lemma_concat_push(fs.skip(1), p);
        assert(fs.push(p).skip(1) =~= fs.skip(1).push(p));
        assert(concat_frames(fs.push(p)) =~= concat_frames(fs) + spec_frame(p));
    }
}

/// Answers stay stored as the table grows.
proof fn lemma_answers_grow(
    stream: Seq<u8>,
    seen: Map<u64, ResponseModel>,
    more: Map<u64, ResponseModel>,
)
    requires
        answers_only(stream, seen),
        seen.submap_of(more),
    ensures
        answers_only(stream, more),
{
    let fs = split_frames(stream).0;
    assert forall|k: int| 0 <= k < fs.len() implies stored_answer(#[trigger] fs[k], more) by {
        assert(stored_answer(fs[k], seen));
        let r = spec_decode_response(fs[k]).unwrap();
        assert(seen.dom().contains(r.id));
        assert(more.contains_key(r.id) && more[r.id] == seen[r.id]);
    }
}

/// Appending the frame of a stored answer keeps a stream of stored
/// answers.
proof fn lemma_answers_append(stream: Seq<u8>, seen: Map<u64, ResponseModel>, r: ResponseModel)
    requires
        answers_only(stream, seen),
        seen.contains_key(r.id),
        seen[r.id] == r,
        spec_encode_response(r).len() <= u32::MAX,
    ensures
        answers_only(stream + spec_frame(spec_encode_response(r)), seen),
{
    let fs = split_frames(stream).0;
    let e = spec_encode_response(r);
    lemma_split_whole(stream);
    lemma_concat_push(fs, e);
    let g = fs.push(e);
    assert forall|k: int| 0 <= k < g.len() implies #[trigger] g[k].len() <= u32::MAX by {
        if k < fs.len() {
            assert(g[k] == fs[k]);
        }
    }
    lemma_split_concat(g, Seq::empty());
    assert(concat_frames(g) + Seq::<u8>::empty() =~= stream + spec_frame(e));
    lemma_response_roundtrip(r);
    assert forall|k: int| 0 <= k < g.len() implies stored_answer(#[trigger] g[k], seen) by {
        if k < fs.len() {
            assert(g[k] == fs[k]);
        }
    }
}

proof fn lemma_serve_frame_answers(
    s: ServerModel,
    now: u64,
    bytes: Seq<u8>,
    answer: (bool, Seq<u8>),
)
    requires
        answers_only(s.conn.sent, s.seen),
        keyed_by_id(s.seen),
    ensures
        answers_only(serve_frame(s, now, bytes, answer).0.conn.sent, serve_frame(s, now, bytes, answer).0.seen),
        keyed_by_id(serve_frame(s, now, bytes, answer).0.seen),
        s.seen.submap_of(serve_frame(s, now, bytes, answer).0.seen),
{
    if let Some(req) = spec_decode_request(bytes) {
        let (s1, resp) = response_for(s, req, answer);
        assert(s.seen.submap_of(s1.seen));
        assert(s1.seen.contains_key(resp.id) && s1.seen[resp.id] == resp);
        lemma_answers_grow(s.conn.sent, s.seen, s1.seen);
        let out = spec_frame(spec_encode_response(resp));
        if s1.conn.sent.len() + out.len() <= u32::MAX {
            lemma_send_extends_sent(s1.conn, now, out);
            lemma_answers_append(s1.conn.sent, s1.seen, resp);
        }
    }
}

proof fn lemma_serve_frames_answers_only(
    s: ServerModel,
    now: u64,
    frames: Seq<Seq<u8>>,
    answers: Seq<(bool, Seq<u8>)>,
)
    requires
        answers_only(s.conn.sent, s.seen),
        keyed_by_id(s.seen),
    ensures
        answers_only(serve_frames(s, now, frames, answers).0.conn.sent, serve_frames(s, now, frames, answers).0.seen),
        keyed_by_id(serve_frames(s, now, frames, answers).0.seen),
        s.seen.submap_of(serve_frames(s, now, frames, answers).0.seen),
    decreases frames.len(),
{
    if frames.len() > 0 {
        lemma_serve_frames_answers_only(s, now, frames.drop_last(), answers);
        let (s1, o1) = serve_frames(s, now, frames.drop_last(), answers);
        lemma_serve_frame_answers(s1, now, frames.last(), answers[s1.runs.len() - s.runs.len()]);
        let s2 = serve_frames(s, now, frames, answers).0;
        assert(s1.seen.submap_of(s2.seen));
        assert forall|k: u64| #[trigger] s.seen.contains_key(k) implies s2.seen.contains_key(k)
            && s2.seen[k] == s.seen[k] by {
            assert(s.seen.dom().contains(k));
            assert(s1.seen.dom().contains(k));
        }
    }
}

/// A server's stream of answers stays one as it takes a datagram and
/// serves the requests it completes: everything it has sent splits into
/// whole frames, each the stored answer of its request's one execution,
/// and every stored answer stays stored.
pub proof fn lemma_server_sends_stored_answers(
    s: ServerModel,
    now: u64,
    d: Seq<u8>,
    answers: Seq<(bool, Seq<u8>)>,
)
    requires
        server_inv(s),
        answers_only(s.conn.sent, s.seen),
    ensures
        answers_only(
            spec_server_on_datagram(s, now, d, answers).0.conn.sent,
            spec_server_on_datagram(s, now, d, answers).0.seen,
        ),
        s.seen.submap_of(spec_server_on_datagram(s, now, d, answers).0.seen),
{
    assert forall|id: u64| #[trigger] s.seen.contains_key(id) implies s.seen[id].id == id by {
        let i = choose|i: int| 0 <= i < s.runs.len() && s.runs[i].id == id;
        assert(s.seen.contains_key(s.runs[i].id));
    }
    lemma_on_datagram_answers(s, now, d, answers);
}

/// The same, for a table that files every answer under its own id.
pub proof fn lemma_on_datagram_answers(
    s: ServerModel,
    now: u64,
    d: Seq<u8>,
    answers: Seq<(bool, Seq<u8>)>,
)
    requires
        keyed_by_id(s.seen),
        answers_only(s.conn.sent, s.seen),
    ensures
        answers_only(
            spec_server_on_datagram(s, now, d, answers).0.conn.sent,
            spec_server_on_datagram(s, now, d, answers).0.seen,
        ),
        keyed_by_id(spec_server_on_datagram(s, now, d, answers).0.seen),
        s.seen.submap_of(spec_server_on_datagram(s, now, d, answers).0.seen),
{
    lemma_on_datagram_keeps_sent(s.conn, now, d);
    let c1 = spec_on_datagram_conn(s, now, d);
    let (frames, rest) = split_frames(s.reader + c1.delivered);
    let s1 = ServerModel {
        conn: ConnectionModel { delivered: Seq::empty(), ..c1 },
        reader: rest,
        ..s
    };
    lemma_serve_frames_answers_only(s1, now, frames, answers);
}

spec fn spec_on_datagram_conn(s: ServerModel, now: u64, d: Seq<u8>) -> ConnectionModel {
    crate::transport::connection::spec_on_datagram(s.conn, now, d).0
}

/// The server's timers send no answer of their own: its stream of
/// answers stays one.
pub proof fn lemma_server_tick_keeps_answers(s: ServerModel, now: u64)
    requires
        answers_only(s.conn.sent, s.seen),
    ensures
        answers_only(spec_on_tick(s.conn, now).0.sent, s.seen),
{
    lemma_on_tick_keeps_sent(s.conn, now);
}

/// Whatever part of a stream of answers has been received splits only
/// into answers, in the order sent: its whole frames are the first
/// frames of the stream, each a stored answer. So every response a
/// client reads off its connection, which receives a prefix of what the
/// server sent, is the stored answer of that request's one execution.
pub proof fn lemma_heard_answers_are_stored(
    stream: Seq<u8>,
    heard: Seq<u8>,
    seen: Map<u64, ResponseModel>,
)
    requires
        answers_only(stream, seen),
        heard.is_prefix_of(stream),
    ensures
        split_frames(heard).0.is_prefix_of(split_frames(stream).0),
        forall|k: int|
            0 <= k < split_frames(heard).0.len() ==> stored_answer(
                #[trigger] split_frames(heard).0[k],
                seen,
            ),
{
    lemma_split_whole(stream);
    let fs = split_frames(stream).0;
    lemma_prefix_of_frames(fs, heard);
    let hs = split_frames(heard).0;
    assert forall|k: int| 0 <= k < hs.len() implies stored_answer(#[trigger] hs[k], seen) by {
        assert(hs[k] == fs[k]);
    }
}

/// A prefix of concatenated frames splits into the first of those
/// frames.
proof fn lemma_prefix_of_frames(fs: Seq<Seq<u8>>, heard: Seq<u8>)
    requires
        forall|k: int| 0 <= k < fs.len() ==> #[trigger] fs[k].len() <= u32::MAX,
        heard.is_prefix_of(concat_frames(fs)),
    ensures
        split_frames(heard).0.is_prefix_of(fs),
    decreases fs.len(),
{
    if fs.len() == 0 {
        assert(heard.len() == 0);
        assert(split_frames(heard).0.len() == 0);
    } else {
        let p = fs[0];
        let rest = fs.skip(1);
        let first = spec_frame(p);
        assert(concat_frames(fs) == first + concat_frames(rest));
        if heard.len() < first.len() {
            assert(heard =~= first.take(heard.len() as int));
            lemma_partial_frame_held(p, heard.len() as int);
        } else {
            let tail = heard.skip(first.len() as int);
            assert(heard =~= first + tail);
            assert(tail.is_prefix_of(concat_frames(rest))) by {
                assert(concat_frames(rest).subrange(0, tail.len() as int) =~= tail);
            }
            assert forall|k: int| 0 <= k < rest.len() implies #[trigger] rest[k].len() <= u32::MAX by {
                assert(rest[k] == fs[k + 1]);
            }
            lemma_prefix_of_frames(rest, tail);
            lemma_split_frame(p, tail);
            let hs = split_frames(heard).0;
            assert(hs =~= seq![p] + split_frames(tail).0);
            assert(hs.subrange(0, hs.len() as int) =~= hs);
            assert forall|k: int| 0 <= k < hs.len() implies #[trigger] hs[k] == fs[k] by {
                if k > 0 {
                    assert(hs[k] == split_frames(tail).0[k - 1]);
                    assert(split_frames(tail).0[k - 1] == rest[k - 1]);
                }
            }
            assert(fs.subrange(0, hs.len() as int) =~= hs);
        }
    }
}

/// Each request id ran at most once, and the table holds exactly the
/// answers of those runs.
pub open spec fn runs_once(s: ServerModel) -> bool {
    &&& forall|i: int, j: int|
        0 <= i < j < s.runs.len() ==> #[trigger] s.runs[i].id != #[trigger] s.runs[j].id
    &&& forall|i: int|
        0 <= i < s.runs.len() ==> s.seen.contains_key(#[trigger] s.runs[i].id) && s.seen[s.runs[i].id]
            == run_response(s.runs[i])
    &&& forall|id: u64| #[trigger]
        s.seen.contains_key(id) ==> exists|i: int| 0 <= i < s.runs.len() && s.runs[i].id == id
}

/// A table of runs that ran once each files every answer under its id.
pub proof fn lemma_runs_once_keyed(s: ServerModel)
    requires
        runs_once(s),
    ensures
        keyed_by_id(s.seen),
{
    assert forall|id: u64| #[trigger] s.seen.contains_key(id) implies s.seen[id].id == id by {
        let i = choose|i: int| 0 <= i < s.runs.len() && s.runs[i].id == id;
        assert(s.seen.contains_key(s.runs[i].id));
    }
}

proof fn lemma_serve_frame_runs_once(s: ServerModel, now: u64, bytes: Seq<u8>, answer: (bool, Seq<u8>))
    requires
        runs_once(s),
    ensures
        runs_once(serve_frame(s, now, bytes, answer).0),
{
    if let Some(req) = spec_decode_request(bytes) {
        let (s1, resp) = response_for(s, req, answer);
        if !s.seen.contains_key(req.id) {
            let n = s.runs.len() as int;
            assert forall|i: int, j: int| 0 <= i < j < s1.runs.len() implies #[trigger] s1.runs[i].id
                != #[trigger] s1.runs[j].id by {
                if j == n {
                    assert(s.seen.contains_key(s.runs[i].id));
                } else {
                    assert(s1.runs[i] == s.runs[i] && s1.runs[j] == s.runs[j]);
                }
            }
            assert forall|i: int| 0 <= i < s1.runs.len() implies s1.seen.contains_key(
                #[trigger] s1.runs[i].id,
            ) && s1.seen[s1.runs[i].id] == run_response(s1.runs[i]) by {
                if i < n {
                    assert(s1.runs[i] == s.runs[i]);
                    assert(s.seen.contains_key(s.runs[i].id));
                }
            }
            assert forall|id: u64| #[trigger] s1.seen.contains_key(id) implies exists|i: int|
                0 <= i < s1.runs.len() && s1.runs[i].id == id by {
                if id == req.id {
                    assert(s1.runs[n].id == id);
                } else {
                    assert(s.seen.contains_key(id));
                    let i = choose|i: int| 0 <= i < s.runs.len() && s.runs[i].id == id;
                    assert(s1.runs[i].id == id);
                }
            }
        }
        let s2 = serve_frame(s, now, bytes, answer).0;
        assert(s2.runs == s1.runs && s2.seen == s1.seen);
    }
}

/// Serving requests runs each request id at most once, however often it
/// arrives.
pub proof fn lemma_serve_frames_runs_once(
    s: ServerModel,
    now: u64,
    frames: Seq<Seq<u8>>,
    answers: Seq<(bool, Seq<u8>)>,
)
    requires
        runs_once(s),
    ensures
        runs_once(serve_frames(s, now, frames, answers).0),
    decreases frames.len(),
{
    if frames.len() > 0 {
        lemma_serve_frames_runs_once(s, now, frames.drop_last(), answers);
        let (s1, o1) = serve_frames(s, now, frames.drop_last(), answers);
        lemma_serve_frame_runs_once(s1, now, frames.last(), answers[s1.runs.len() - s.runs.len()]);
    }
}

} // verus!
