//! The key-value service as an RPC handler. The handler keeps its store
//! and a log of every operation it executed with its answer, in the
//! order executed; the store is always the replay of that log.

use crate::rpc::server::{call_chain, performs, Handler, RpcServer, Run, ServerModel};
use crate::transport::connection::{conn_inv, Connection};
use crate::workload::kv::{apply, spec_apply, spec_decode_op, KvStore, Op, OpModel};
use vstd::prelude::*;

verus! {

/// Executing operations in order from `store`: the store after them and
/// each one's answer.
pub open spec fn replay(store: Map<Seq<u8>, Seq<u8>>, ops: Seq<OpModel>) -> (
    Map<Seq<u8>, Seq<u8>>,
    Seq<(bool, Seq<u8>)>,
)
    decreases ops.len(),
{
    if ops.len() == 0 {
        (store, Seq::empty())
    } else {
        let (m, answers) = replay(store, ops.drop_last());
        let (m2, a) = spec_apply(m, ops.last());
        (m2, answers.push(a))
    }
}

/// One logged execution: the operation, and what it answered.
pub struct ExecutionModel {
    pub op: OpModel,
    pub ok: bool,
    pub reply: Seq<u8>,
}

pub open spec fn log_views(v: Seq<(Op, bool, Vec<u8>)>) -> Seq<ExecutionModel> {
    v.map_values(|e: (Op, bool, Vec<u8>)| ExecutionModel { op: e.0@, ok: e.1, reply: e.2@ })
}

pub open spec fn log_ops(log: Seq<ExecutionModel>) -> Seq<OpModel> {
    log.map_values(|e: ExecutionModel| e.op)
}

pub open spec fn log_answers(log: Seq<ExecutionModel>) -> Seq<(bool, Seq<u8>)> {
    log.map_values(|e: ExecutionModel| (e.ok, e.reply))
}

/// A key-value handler as plain values: the store it started from, its
/// store now, and its execution log.
pub struct KvHandlerModel {
    pub start: Map<Seq<u8>, Seq<u8>>,
    pub store: Map<Seq<u8>, Seq<u8>>,
    pub log: Seq<ExecutionModel>,
}

proof fn lemma_replay_prefix(store: Map<Seq<u8>, Seq<u8>>, ops: Seq<OpModel>, j: int)
    requires
        0 <= j <= ops.len(),
    ensures
        replay(store, ops).1.len() == ops.len(),
        replay(store, ops).1.take(j) == replay(store, ops.take(j)).1,
    decreases ops.len(),
{
    if j == ops.len() {
        assert(ops.take(j) =~= ops);
        if ops.len() > 0 {
            lemma_replay_prefix(store, ops.drop_last(), 0);
        }
        assert(replay(store, ops).1.take(j) =~= replay(store, ops).1);
    } else {
        lemma_replay_prefix(store, ops.drop_last(), j);
        assert(ops.drop_last().take(j) =~= ops.take(j));
        assert(replay(store, ops).1.take(j) =~= replay(store, ops.drop_last()).1.take(j));
    }
}

/// Every logged answer is what its operation answers against the store
/// that the logged operations before it leave, starting from the
/// handler's starting store. So replaying the log, in order, on any
/// store that follows `spec_apply` (such as `ReferenceStore`) from the
/// same start reproduces every logged answer.
pub proof fn lemma_log_replays(h: KvHandlerModel, i: int)
    requires
        handler_inv(h),
        0 <= i < h.log.len(),
    ensures
        spec_apply(replay(h.start, log_ops(h.log).take(i)).0, h.log[i].op).1 == (
            h.log[i].ok,
            h.log[i].reply,
        ),
{
    let ops = log_ops(h.log);
    lemma_replay_prefix(h.start, ops, i + 1);
    let t = ops.take(i + 1);
    assert(t.drop_last() =~= ops.take(i));
    assert(t.last() == h.log[i].op);
    let r0 = replay(h.start, ops.take(i));
    lemma_replay_prefix(h.start, ops.take(i), 0);
    let a = spec_apply(r0.0, t.last());
    assert(replay(h.start, t) == (a.0, r0.1.push(a.1)));
    assert(replay(h.start, t).1[i] == a.1);
    assert(replay(h.start, ops).1[i] == replay(h.start, ops).1.take(i + 1)[i]);
    assert(log_answers(h.log)[i] == (h.log[i].ok, h.log[i].reply));
}

/// The key-value service's handler.
pub struct KvHandler {
    store: KvStore,
    log: Vec<(Op, bool, Vec<u8>)>,
    start: Ghost<Map<Seq<u8>, Seq<u8>>>,
}

impl View for KvHandler {
    type V = KvHandlerModel;

    closed spec fn view(&self) -> KvHandlerModel {
        KvHandlerModel { start: self.start@, store: self.store@, log: log_views(self.log@) }
    }
}

/// The handler's invariant: the store and every logged answer are the
/// replay of the logged operations from the starting store.
pub open spec fn handler_inv(h: KvHandlerModel) -> bool {
    replay(h.start, log_ops(h.log)) == (h.store, log_answers(h.log))
}

impl KvHandler {
    #[verifier::type_invariant]
    spec fn replays(&self) -> bool {
        handler_inv(self@)
    }

    /// A handler serving `store`, with an empty log.
    pub fn new(store: KvStore) -> (h: KvHandler)
        ensures
            h@ == (KvHandlerModel { start: store@, store: store@, log: Seq::empty() }),
    {
        let log: Vec<(Op, bool, Vec<u8>)> = Vec::new();
        assert(log_views(log@) =~= Seq::<ExecutionModel>::empty());
        assert(log_ops(log_views(log@)) =~= Seq::<OpModel>::empty());
        assert(log_answers(log_views(log@)) =~= Seq::<(bool, Seq<u8>)>::empty());
        KvHandler { store, log, start: Ghost(store@) }
    }

    /// Every execution so far, oldest first; they replay to the store.
    pub fn log(&self) -> (l: &Vec<(Op, bool, Vec<u8>)>)
        ensures
            log_views(l@) == self@.log,
            handler_inv(self@),
    {
        proof {
            use_type_invariant(self);
        }
        &self.log
    }
}

/// What one call of the key-value handler does, as plain values.
pub open spec fn kv_handles(
    h: KvHandlerModel,
    method: u8,
    payload: Seq<u8>,
    after: KvHandlerModel,
    r: (bool, Seq<u8>),
) -> bool {
    match spec_decode_op(method, payload) {
        None => r == (false, Seq::<u8>::empty()) && after == h,
        Some(op) => {
            let (m, a) = spec_apply(h.store, op);
            &&& r == a
            &&& after == (KvHandlerModel {
                store: m,
                log: h.log.push(ExecutionModel { op, ok: a.0, reply: a.1 }),
                ..h
            })
        },
    }
}

/// A record of key-value calls never changes the store they started from.
pub proof fn lemma_performs_keeps_start(h0: KvHandler, runs: Seq<Run>, h1: KvHandler)
    requires
        performs(h0, runs, h1),
    ensures
        h1@.start == h0@.start,
{
    let st = choose|st: Seq<KvHandler>| #[trigger] call_chain(h0, runs, h1, st);
    assert forall|i: int| 0 <= i <= runs.len() implies (#[trigger] st[i])@.start == h0@.start by {
        lemma_chain_start(h0, runs, h1, st, i);
    }
    assert(st[runs.len() as int]@.start == h0@.start);
}

proof fn lemma_chain_start(h0: KvHandler, runs: Seq<Run>, h1: KvHandler, st: Seq<KvHandler>, i: int)
    requires
        call_chain(h0, runs, h1, st),
        0 <= i <= runs.len(),
    ensures
        st[i]@.start == h0@.start,
    decreases i,
{
    if i > 0 {
        lemma_chain_start(h0, runs, h1, st, i - 1);
        let j = i - 1;
        assert(st[j].handles(runs[j].method, runs[j].payload, st[j + 1], (runs[j].ok, runs[j].reply)));
    }
}

impl Handler for KvHandler {
    /// A request that decodes to an operation executes it against the
    /// store, logging it with its answer; any other answers `(false, [])`
    /// and changes nothing.
    open spec fn handles(&self, method: u8, payload: Seq<u8>, after: Self, r: (bool, Seq<u8>)) -> bool {
        kv_handles(self@, method, payload, after@, r)
    }

    /// Decodes the operation and executes it, logging it with its answer;
    /// a request that decodes to no operation answers `(false, [])` and
    /// is not logged.
    fn handle(&mut self, method: u8, payload: &[u8]) -> (r: (bool, Vec<u8>))
        ensures
            match spec_decode_op(method, payload@) {
                None => r.0 == false && r.1@ == Seq::<u8>::empty() && final(self)@ == old(self)@,
                Some(op) => {
                    let (m, a) = spec_apply(old(self)@.store, op);
                    &&& (r.0, r.1@) == a
                    &&& final(self)@ == (KvHandlerModel {
                        store: m,
                        log: old(self)@.log.push(ExecutionModel { op, ok: a.0, reply: a.1 }),
                        ..old(self)@
                    })
                },
            },
    {
        proof {
            use_type_invariant(&*self);
        }
        let op = match Op::decode(method, payload) {
            Some(op) => op,
            None => {
                return (false, Vec::new());
            },
        };
        let ghost before = self@;
        let mut taken = KvHandler::new(KvStore::new());
        std::mem::swap(&mut taken, self);
        let KvHandler { mut store, mut log, start } = taken;
        let (ok, reply) = apply(&mut store, &op);
        let logged = (op.duplicate(), ok, crate::le::copy_bytes(reply.as_slice()));
        log.push(logged);
        proof {
            let e = ExecutionModel { op: op@, ok, reply: reply@ };
            assert(log_views(log@) =~= before.log.push(e));
            assert(log_ops(log_views(log@)) =~= log_ops(before.log).push(op@));
            assert(log_answers(log_views(log@)) =~= log_answers(before.log).push((ok, reply@)));
            assert(log_ops(log_views(log@)).drop_last() =~= log_ops(before.log));
        }
        *self = KvHandler { store, log, start };
        (ok, reply)
    }
}

/// A server for one accepted connection, executing against `store`.
pub fn make_server(conn: Connection, store: KvStore) -> (s: RpcServer<KvHandler>)
    requires
        conn_inv(conn@),
    ensures
        s.wf(),
        s@ == (ServerModel {
            conn: conn@,
            reader: Seq::empty(),
            seen: Map::empty(),
            executions: 0,
            runs: Seq::empty(),
        }),
        s.current_handler()@ == (KvHandlerModel {
            start: store@,
            store: store@,
            log: Seq::empty(),
        }),
{
    RpcServer::new(conn, KvHandler::new(store))
}

} // verus!
