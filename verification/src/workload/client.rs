//! Issuing key-value operations through an RPC client.

use crate::channel::tick::Tick;
use crate::rpc::client::{client_inv, spec_call, RpcClient};
use crate::transport::connection::datagrams;
use crate::transport::rto::MAX_RTT_SAMPLE;
use crate::workload::kv::{spec_encode_payload, spec_method, Op};
use vstd::prelude::*;

verus! {

/// Issues `op` as a call: its method, and its encoded payload.
pub fn call(client: &mut RpcClient, now: Tick, op: &Op) -> (r: (u64, Vec<Vec<u8>>))
    requires
        client_inv(old(client)@),
        now.0 <= MAX_RTT_SAMPLE,
        old(client)@.next_id < u64::MAX,
        old(client)@.conn.sent.len() + 13 + spec_encode_payload(op@).len() <= u32::MAX,
    ensures
        client_inv(final(client)@),
        (final(client)@, r.0, datagrams(r.1)) == spec_call(
            old(client)@,
            now.0,
            spec_method(op@),
            spec_encode_payload(op@),
        ),
{
    let payload = op.encode_payload();
    client.call(now, op.method(), payload.as_slice())
}

} // verus!
