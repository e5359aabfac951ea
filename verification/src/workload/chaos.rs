//! Seeded multi-client chaos runs of the key-value workload: random
//! interleavings of get / put / delete from several simulated clients,
//! over hostile channels whose profile may change mid-run, checked
//! against the independently written `ReferenceStore` by replaying the
//! exact order in which the server executed operations. A run is a pure
//! function of its configuration, seed included, so a failure replays.
//!
//! Every client has its own connection, channel pair and server; the
//! servers take turns with one shared key-value handler, so all of them
//! execute against one store and one execution log.
//!
//! A datagram that a connection could not take safely (see
//! `Connection::datagram_is_safe`; the checksum rules it out in practice)
//! is dropped before it reaches the connection, and a datagram is only
//! sent while its channel has room (see `Channel::can_send`).

use crate::channel::fault::{profile_valid, FaultProfile};
use crate::channel::tick::Tick;
use crate::channel::{channel_inv, initial_model, send_fits, spec_send, Channel};
use crate::rpc::client::{client_inv, RpcClient};
use crate::rpc::server::{Handler, RpcServer};
use crate::transport::connection::{config_valid, Config, Connection};
use crate::transport::rto::MAX_RTT_SAMPLE;
use crate::workload::client::call;
use crate::workload::kv::{same_bytes, KvStore, Op, OpModel, ReferenceStore};
use crate::channel::rng::{draw, draw_below};
use crate::channel::datagrams_out;
use crate::transport::link::post_all;
use crate::channel::ChannelModel;
use crate::rpc::client::{spec_client_on_datagram, spec_client_on_tick, ClientModel};
use crate::rpc::server::{
    handler_replies, lemma_performs_concat, lemma_serve_frames_answers, lemma_serve_frames_extends, performs,
    spec_server_on_datagram, Run, ServerModel,
};
use crate::rpc::framing::split_frames;
use crate::transport::connection::{datagram_safe, datagrams, spec_on_datagram, spec_on_tick, ConnectionModel};
use crate::workload::baselines::spec_advance_to;
use crate::workload::rng::SplitMix64;
use crate::workload::server::{
    lemma_performs_keeps_start,
    handler_inv, lemma_log_replays, log_ops, log_views, make_server, replay, KvHandler,
};
use vstd::prelude::*;

verus! {

#[derive(Debug, Clone)]
pub struct ChaosConfig {
    pub seed: u64,
    pub clients: usize,
    /// Number of client calls scheduled across the run.
    pub calls: usize,
    pub max_ticks: u64,
    /// Fault profile in effect from tick 0.
    pub initial_profile: FaultProfile,
    /// Further `(tick, profile)` switches, applied in tick order. A switch
    /// replaces every client's channel pair with freshly seeded ones under
    /// the new profile: whatever is in flight at that moment is lost, as a
    /// link failover would lose it.
    pub profile_switches: Vec<(u64, FaultProfile)>,
    pub key_space: usize,
}

impl Default for ChaosConfig {
    fn default() -> (c: ChaosConfig)
        ensures
            c.seed == 0,
            c.clients == 3,
            c.calls == 60,
            c.max_ticks == 60_000,
            c.initial_profile == FaultProfile::spec_clean(),
            c.profile_switches@.len() == 0,
            c.key_space == 6,
    {
        ChaosConfig {
            seed: 0,
            clients: 3,
            calls: 60,
            max_ticks: 60_000,
            initial_profile: FaultProfile::CLEAN(),
            profile_switches: Vec::new(),
            key_space: 6,
        }
    }
}

#[derive(Debug, Clone, PartialEq, Eq)]
pub struct ChaosFailure {
    pub seed: u64,
    pub message: String,
}

/// The lowercase hexadecimal digits of `n`, most significant first.
pub open spec fn hex_digits(n: nat) -> Seq<char>
    decreases n,
{
    let d = n % 16;
    let c = if d < 10 { (48 + d) as char } else { (87 + d) as char };
    if n < 16 {
        seq![c]
    } else {
        hex_digits(n / 16).push(c)
    }
}

impl ChaosFailure {
    /// The failure as a report: the seed, the message, and the command
    /// that replays the run (the seed written `0x` and lowercase
    /// hexadecimal digits, as `{:#x}` writes it).
    #[verifier::external_body]
    pub fn describe(&self) -> (s: String)
        ensures
            s@ == "chaos invariant violated (seed 0x"@ + hex_digits(self.seed as nat) + "): "@
                + self.message@ + "\n  replay: distrans-chaos --seed 0x"@ + hex_digits(
                self.seed as nat,
            ),
    {
        format!(
            "chaos invariant violated (seed {:#x}): {}\n  replay: distrans-chaos --seed {:#x}",
            self.seed,
            self.message,
            self.seed
        )
    }
}

#[derive(Debug, Clone, Copy, PartialEq, Eq)]
pub struct ChaosSummary {
    pub seed: u64,
    pub executions: usize,
    pub calls_completed: usize,
    pub calls_failed: usize,
    pub ticks_used: u64,
}

impl Default for ChaosSummary {
    fn default() -> (s: ChaosSummary)
        ensures
            s == (ChaosSummary {
                seed: 0,
                executions: 0,
                calls_completed: 0,
                calls_failed: 0,
                ticks_used: 0,
            }),
    {
        ChaosSummary { seed: 0, executions: 0, calls_completed: 0, calls_failed: 0, ticks_used: 0 }
    }
}

/// The transport configuration every chaos connection uses.
pub fn transport_config() -> (c: Config)
    ensures
        c.segment_size == 128,
        c.max_in_flight_segments == 8,
        c.min_rto == 2,
        c.max_rto == 400,
        c.max_retries == 40,
        config_valid(c),
{
    Config { segment_size: 128, max_in_flight_segments: 8, min_rto: 2, max_rto: 400, max_retries: 40 }
}

/// The seed of a link's server-to-client channel, given its
/// client-to-server seed.
pub open spec fn back_seed(seed: u64) -> u64 {
    seed ^ 0xABCD_EF01_2345_6789u64
}

/// A fresh channel pair: client to server, and server to client.
pub fn make_link(seed: u64, profile: FaultProfile) -> (r: (Channel, Channel))
    requires
        profile_valid(profile),
    ensures
        r.0@ == initial_model(seed, profile, Seq::empty()),
        r.1@ == initial_model(back_seed(seed), profile, Seq::empty()),
        channel_inv(r.0@),
        channel_inv(r.1@),
{
    (Channel::new(seed, profile), Channel::new(seed ^ 0xABCD_EF01_2345_6789, profile))
}

/// The decimal digits of `n`, most significant first.
pub open spec fn decimal(n: nat) -> Seq<u8>
    decreases n,
{
    if n < 10 {
        seq![(48 + n) as u8]
    } else {
        decimal(n / 10).push((48 + n % 10) as u8)
    }
}

fn push_decimal(out: &mut Vec<u8>, n: u64)
    ensures
        final(out)@ == old(out)@ + decimal(n as nat),
    decreases n,
{
    if n >= 10 {
        push_decimal(out, n / 10);
    }
    out.push(48 + (n % 10) as u8);
    assert(out@ =~= old(out)@ + decimal(n as nat));
}

/// The name of key number `i`: `k` and its decimal digits.
pub fn key_name(i: usize) -> (k: Vec<u8>)
    ensures
        k@ == seq![107u8] + decimal(i as nat),
{
    let mut k: Vec<u8> = Vec::new();
    k.push(107u8);
    push_decimal(&mut k, i as u64);
    k
}

/// The position at which a switch at tick `t` goes into sorted `s`:
/// after every switch at a tick up to `t`.
pub open spec fn insert_position(s: Seq<(u64, FaultProfile)>, t: u64, i: int) -> int
    decreases s.len() - i,
{
    if i >= s.len() {
        s.len() as int
    } else if s[i].0 > t {
        i
    } else {
        insert_position(s, t, i + 1)
    }
}

/// Profile switches in tick order; switches at the same tick keep their
/// given order.
pub open spec fn sort_switches(s: Seq<(u64, FaultProfile)>) -> Seq<(u64, FaultProfile)>
    decreases s.len(),
{
    if s.len() == 0 {
        s
    } else {
        let sorted = sort_switches(s.drop_last());
        sorted.insert(insert_position(sorted, s.last().0, 0), s.last())
    }
}

pub open spec fn ticks_sorted(s: Seq<(u64, FaultProfile)>) -> bool {
    forall|i: int, j: int| 0 <= i < j < s.len() ==> #[trigger] s[i].0 <= #[trigger] s[j].0
}

proof fn lemma_insert_position(s: Seq<(u64, FaultProfile)>, t: u64, i: int)
    requires
        0 <= i <= s.len(),
        ticks_sorted(s),
    ensures
        i <= insert_position(s, t, i) <= s.len(),
        forall|j: int| i <= j < insert_position(s, t, i) ==> #[trigger] s[j].0 <= t,
        insert_position(s, t, i) < s.len() ==> s[insert_position(s, t, i)].0 > t,
    decreases s.len() - i,
{
    if i < s.len() && s[i].0 <= t {
        lemma_insert_position(s, t, i + 1);
    }
}

/// Sorting switches keeps every one of them and puts them in tick order.
pub proof fn lemma_sort_switches(s: Seq<(u64, FaultProfile)>)
    ensures
        ticks_sorted(sort_switches(s)),
        sort_switches(s).to_multiset() == s.to_multiset(),
    decreases s.len(),
{
    broadcast use vstd::seq_lib::group_to_multiset_ensures;

    if s.len() > 0 {
        let sorted = sort_switches(s.drop_last());
        lemma_sort_switches(s.drop_last());
        let x = s.last();
        let p = insert_position(sorted, x.0, 0);
        lemma_insert_position(sorted, x.0, 0);
        let r = sorted.insert(p, x);
        assert forall|i: int, j: int| 0 <= i < j < r.len() implies #[trigger] r[i].0 <= #[trigger] r[j].0 by {
            if j < p {
                assert(sorted[i].0 <= sorted[j].0);
            } else if j == p {
                assert(sorted[i].0 <= x.0);
            } else if i < p {
                assert(sorted[i].0 <= sorted[j - 1].0);
            } else if i == p {
                assert(sorted[p].0 > x.0);
                assert(sorted[p].0 <= sorted[j - 1].0);
            } else {
                assert(sorted[i - 1].0 <= sorted[j - 1].0);
            }
        }
        vstd::seq_lib::to_multiset_insert(sorted, p, x);
        vstd::seq_lib::to_multiset_build(s.drop_last(), x);
        assert(s.drop_last().push(x) =~= s);
    }
}

/// The switches in tick order (a stable sort).
pub fn sorted_switches(switches: &Vec<(u64, FaultProfile)>) -> (r: Vec<(u64, FaultProfile)>)
    ensures
        r@ == sort_switches(switches@),
{
    let mut r: Vec<(u64, FaultProfile)> = Vec::new();
    let mut i: usize = 0;
    assert(switches@.take(0) =~= Seq::<(u64, FaultProfile)>::empty());
    while i < switches.len()
        invariant
            i <= switches@.len(),
            r@ == sort_switches(switches@.take(i as int)),
        decreases switches@.len() - i,
    {
        let x = switches[i];
        proof {
            lemma_sort_switches(switches@.take(i as int));
            lemma_insert_position(r@, x.0, 0);
        }
        let mut p: usize = 0;
        while p < r.len() && r[p].0 <= x.0
            invariant
                p <= r@.len(),
                ticks_sorted(r@),
                insert_position(r@, x.0, 0) == insert_position(r@, x.0, p as int),
            decreases r@.len() - p,
        {
            p = p + 1;
        }
        r.insert(p, x);
        proof {
            let t = switches@.take(i + 1);
            assert(t.drop_last() =~= switches@.take(i as int));
            assert(t.last() == x);
        }
        i = i + 1;
    }
    assert(switches@.take(i as int) =~= switches@);
    r
}

struct ClientLink {
    client: RpcClient,
    c2s: Channel,
    s2c: Channel,
}

/// A link is sound: an intact client that has issued at most `fired`
/// calls, with its retry limit, and two intact channels.
spec fn link_ok(l: ClientLink, fired: int) -> bool {
    &&& client_inv(l.client@)
    &&& l.client@.max_attempts == 60
    &&& l.client@.next_id <= fired
    &&& channel_inv(l.c2s@)
    &&& channel_inv(l.s2c@)
}

/// Sends `bytes` on `ch` if the channel has room for one more datagram.
fn send_if_room(ch: &mut Channel, bytes: &[u8])
    requires
        channel_inv(old(ch)@),
    ensures
        channel_inv(final(ch)@),
        final(ch)@ == if send_fits(old(ch)@) {
            spec_send(old(ch)@, bytes@)
        } else {
            old(ch)@
        },
{
    if ch.can_send() {
        ch.send(bytes);
    }
}

/// Sends each datagram in order, each while the channel has room for it.
fn send_all(ch: &mut Channel, datagrams: &Vec<Vec<u8>>)
    requires
        channel_inv(old(ch)@),
    ensures
        channel_inv(final(ch)@),
        final(ch)@ == post_all(old(ch)@, datagrams_out(*datagrams)),
{
    let ghost ds = datagrams_out(*datagrams);
    let mut i: usize = 0;
    proof {
        assert(ds.take(0) =~= Seq::<Seq<u8>>::empty());
    }
    while i < datagrams.len()
        invariant
            channel_inv(ch@),
            i <= datagrams@.len(),
            ds == datagrams_out(*datagrams),
            ch@ == post_all(old(ch)@, ds.take(i as int)),
        decreases datagrams@.len() - i,
    {
        proof {
            let t = ds.take(i + 1);
            assert(t.drop_last() =~= ds.take(i as int));
            assert(t.last() == datagrams@[i as int]@);
            let dv = datagrams@[i as int];
            assert(dv@.len() == dv.len());
            assert(t.last().len() <= usize::MAX);
        }
        send_if_room(ch, datagrams[i].as_slice());
        i = i + 1;
    }
    proof {
        assert(ds.take(datagrams@.len() as int) =~= ds);
    }
}

/// The server taking, in order, every datagram among `ds` that it can
/// take safely, and posting what it sends on `back`; each execution
/// answers what `runs` records for it.
pub open spec fn serve_arrivals(
    s: ServerModel,
    back: ChannelModel,
    ds: Seq<Seq<u8>>,
    now: u64,
    runs: Seq<Run>,
) -> (ServerModel, ChannelModel)
    decreases ds.len(),
{
    if ds.len() == 0 {
        (s, back)
    } else {
        let (s1, b1) = serve_arrivals(s, back, ds.drop_last(), now, runs);
        let d = ds.last();
        if datagram_safe(s1.conn, now, d) {
            let (s2, out) = spec_server_on_datagram(
                s1,
                now,
                d,
                handler_replies(runs.skip(s1.runs.len() as int)),
            );
            (s2, post_all(b1, out))
        } else {
            (s1, b1)
        }
    }
}

/// The client taking, in order, every datagram among `ds` that it can
/// take safely, and posting what it sends on `fwd`.
pub open spec fn client_arrivals(c: ClientModel, fwd: ChannelModel, ds: Seq<Seq<u8>>, now: u64) -> (
    ClientModel,
    ChannelModel,
)
    decreases ds.len(),
{
    if ds.len() == 0 {
        (c, fwd)
    } else {
        let (c1, f1) = client_arrivals(c, fwd, ds.drop_last(), now);
        let d = ds.last();
        if datagram_safe(c1.conn, now, d) {
            let (c2, out) = spec_client_on_datagram(c1, now, d);
            (c2, post_all(f1, out))
        } else {
            (c1, f1)
        }
    }
}

/// One tick of one link, as plain values: the client, its channel to the
/// server, the channel back, and the server after it; the server's
/// executions answer what `runs` records for them.
#[verifier::opaque]
pub open spec fn spec_drive(
    c: ClientModel,
    c2s: ChannelModel,
    s2c: ChannelModel,
    s: ServerModel,
    now: u64,
    runs: Seq<Run>,
) -> (ClientModel, ChannelModel, ChannelModel, ServerModel) {
    let (c2s1, to_server) = spec_advance_to(c2s, now);
    let (s1, s2c1) = serve_arrivals(s, s2c, to_server, now, runs);
    let (s2c2, to_client) = spec_advance_to(s2c1, now);
    let (c1, c2s2) = client_arrivals(c, c2s1, to_client, now);
    let (c2, out) = spec_client_on_tick(c1, now);
    let (conn, back) = spec_on_tick(s1.conn, now);
    (c2, post_all(c2s2, out), post_all(s2c2, back), ServerModel { conn, ..s1 })
}

/// Handling a datagram uses only the answers of the executions it runs.
proof fn lemma_on_datagram_answers_used(
    s: ServerModel,
    now: u64,
    d: Seq<u8>,
    a: Seq<(bool, Seq<u8>)>,
    b: Seq<(bool, Seq<u8>)>,
)
    requires
        forall|i: int|
            0 <= i < spec_server_on_datagram(s, now, d, a).0.runs.len() - s.runs.len() ==> #[trigger] a[i]
                == b[i],
    ensures
        spec_server_on_datagram(s, now, d, a) == spec_server_on_datagram(s, now, d, b),
        s.runs.is_prefix_of(spec_server_on_datagram(s, now, d, a).0.runs),
{
    let (c1, o1) = spec_on_datagram(s.conn, now, d);
    let (frames, rest) = split_frames(s.reader + c1.delivered);
    let s1 = ServerModel {
        conn: ConnectionModel { delivered: Seq::empty(), ..c1 },
        reader: rest,
        ..s
    };
    lemma_serve_frames_answers(s1, now, frames, a, b);
    lemma_serve_frames_extends(s1, now, frames, a);
}

/// Serving arrivals only adds executions, and gives the same result
/// under any longer record of them.
proof fn lemma_serve_arrivals_stable(
    s: ServerModel,
    back: ChannelModel,
    ds: Seq<Seq<u8>>,
    now: u64,
    r1: Seq<Run>,
    r2: Seq<Run>,
)
    requires
        r1.is_prefix_of(r2),
        serve_arrivals(s, back, ds, now, r1).0.runs.len() <= r1.len(),
    ensures
        s.runs.is_prefix_of(serve_arrivals(s, back, ds, now, r1).0.runs),
        serve_arrivals(s, back, ds, now, r1) == serve_arrivals(s, back, ds, now, r2),
    decreases ds.len(),
{
    if ds.len() > 0 {
        let init = ds.drop_last();
        let (s1, b1) = serve_arrivals(s, back, init, now, r1);
        let d = ds.last();
        let k = s1.runs.len() as int;
        let a = handler_replies(r1.skip(k));
        let b = handler_replies(r2.skip(k));
        if datagram_safe(s1.conn, now, d) {
            let s2 = spec_server_on_datagram(s1, now, d, a).0;
            assert forall|i: int| 0 <= i < s2.runs.len() - s1.runs.len() implies #[trigger] a[i] == b[i] by {
                assert(r1[k + i] == r2[k + i]);
            }
            lemma_on_datagram_answers_used(s1, now, d, a, b);
        }
        lemma_serve_arrivals_stable(s, back, init, now, r1, r2);
    }
}

/// The server takes, in order, every datagram among `arrived` that it can
/// take safely, and sends what it answers on `back`.
#[verifier::spinoff_prover]
#[verifier::rlimit(40)]
fn serve_arrived(
    server: &mut RpcServer<KvHandler>,
    back: &mut Channel,
    arrived: &Vec<Vec<u8>>,
    now: Tick,
)
    requires
        old(server).wf(),
        channel_inv(old(back)@),
        now.0 <= MAX_RTT_SAMPLE,
    ensures
        final(server).wf(),
        channel_inv(final(back)@),
        old(server)@.runs.is_prefix_of(final(server)@.runs),
        performs(
            old(server).current_handler(),
            final(server)@.runs.skip(old(server)@.runs.len() as int),
            final(server).current_handler(),
        ),
        (final(server)@, final(back)@) == serve_arrivals(
            old(server)@,
            old(back)@,
            datagrams_out(*arrived),
            now.0,
            final(server)@.runs,
        ),
{
    let ghost h0 = server.current_handler();
    let ghost s0 = server@;
    let ghost b0 = back@;
    let ghost ds = datagrams_out(*arrived);
    proof {
        assert(ds.take(0) =~= Seq::<Seq<u8>>::empty());
        assert(s0.runs.subrange(0, s0.runs.len() as int) =~= s0.runs);
        assert(s0.runs.skip(s0.runs.len() as int) =~= Seq::<Run>::empty());
        crate::rpc::server::lemma_performs_none(h0);
    }
    let mut i: usize = 0;
    while i < arrived.len()
        invariant
            server.wf(),
            channel_inv(back@),
            performs(h0, server@.runs.skip(s0.runs.len() as int), server.current_handler()),
            now.0 <= MAX_RTT_SAMPLE,
            i <= arrived@.len(),
            ds == datagrams_out(*arrived),
            s0.runs.is_prefix_of(server@.runs),
            (server@, back@) == serve_arrivals(s0, b0, ds.take(i as int), now.0, server@.runs),
        decreases arrived@.len() - i,
    {
        let ghost before = server@;
        let ghost hb = server.current_handler();
        proof {
            assert(ds[i as int] == arrived@[i as int]@);
            assert(ds.take(i + 1).drop_last() =~= ds.take(i as int));
        }
        if server.connection().datagram_is_safe(now, arrived[i].as_slice()) {
            let out = server.on_datagram(now, arrived[i].as_slice());
            proof {
                assert(datagrams(out) =~= datagrams_out(out));
                lemma_serve_arrivals_stable(s0, b0, ds.take(i as int), now.0, before.runs, server@.runs);
                let k = s0.runs.len() as int;
                lemma_performs_concat(
                    h0,
                    before.runs.skip(k),
                    hb,
                    server@.runs.skip(before.runs.len() as int),
                    server.current_handler(),
                );
                assert(before.runs.skip(k) + server@.runs.skip(before.runs.len() as int) =~= server@.runs.skip(k)) by {
                    assert(server@.runs.subrange(0, before.runs.len() as int) =~= before.runs);
                }
            }
            send_all(back, &out);
            proof {
                assert(s0.runs.is_prefix_of(server@.runs)) by {
                    assert(server@.runs.subrange(0, s0.runs.len() as int) =~= before.runs.subrange(
                        0,
                        s0.runs.len() as int,
                    ));
                }
            }
        } else {
            proof {
                lemma_serve_arrivals_stable(s0, b0, ds.take(i as int), now.0, before.runs, server@.runs);
            }
        }
        i = i + 1;
    }
    proof {
        assert(ds.take(arrived@.len() as int) =~= ds);
    }
}

/// The client takes, in order, every datagram among `arrived` that it can
/// take safely, and sends what it answers on `fwd`.
#[verifier::spinoff_prover]
fn take_arrived(client: &mut RpcClient, fwd: &mut Channel, arrived: &Vec<Vec<u8>>, now: Tick)
    requires
        client_inv(old(client)@),
        channel_inv(old(fwd)@),
        now.0 <= MAX_RTT_SAMPLE,
    ensures
        client_inv(final(client)@),
        channel_inv(final(fwd)@),
        final(client)@.next_id == old(client)@.next_id,
        final(client)@.max_attempts == old(client)@.max_attempts,
        (final(client)@, final(fwd)@) == client_arrivals(
            old(client)@,
            old(fwd)@,
            datagrams_out(*arrived),
            now.0,
        ),
{
    let ghost c0 = client@;
    let ghost f0 = fwd@;
    let ghost ds = datagrams_out(*arrived);
    proof {
        assert(ds.take(0) =~= Seq::<Seq<u8>>::empty());
    }
    let mut i: usize = 0;
    while i < arrived.len()
        invariant
            client_inv(client@),
            channel_inv(fwd@),
            client@.next_id == c0.next_id,
            client@.max_attempts == c0.max_attempts,
            now.0 <= MAX_RTT_SAMPLE,
            i <= arrived@.len(),
            ds == datagrams_out(*arrived),
            (client@, fwd@) == client_arrivals(c0, f0, ds.take(i as int), now.0),
        decreases arrived@.len() - i,
    {
        proof {
            assert(ds[i as int] == arrived@[i as int]@);
            assert(ds.take(i + 1).drop_last() =~= ds.take(i as int));
        }
        if client.connection().datagram_is_safe(now, arrived[i].as_slice()) {
            let out = client.on_datagram(now, arrived[i].as_slice());
            proof {
                assert(datagrams(out) =~= datagrams_out(out));
            }
            send_all(fwd, &out);
        }
        i = i + 1;
    }
    proof {
        assert(ds.take(arrived@.len() as int) =~= ds);
    }
}

/// One tick of one link: the server takes what reached it, the client
/// takes what reached it, then both run their timers. The server works
/// with the shared handler for the duration.
#[verifier::spinoff_prover]
fn drive_link(
    link: &mut ClientLink,
    server: &mut RpcServer<KvHandler>,
    kv: &mut KvHandler,
    now: Tick,
    fired: Ghost<int>,
)
    requires
        link_ok(*old(link), fired@),
        old(server).wf(),
        now.0 <= MAX_RTT_SAMPLE,
    ensures
        link_ok(*final(link), fired@),
        final(server).wf(),
        final(kv)@.start == old(kv)@.start,
        performs(*old(kv), final(server)@.runs.skip(old(server)@.runs.len() as int), *final(kv)),
        final(server).current_handler() == old(server).current_handler(),
        old(server)@.runs.is_prefix_of(final(server)@.runs),
        (final(link).client@, final(link).c2s@, final(link).s2c@, final(server)@) == spec_drive(
            old(link).client@,
            old(link).c2s@,
            old(link).s2c@,
            old(server)@,
            now.0,
            final(server)@.runs,
        ),
{
    let ghost k0 = *kv;
    let ghost s0 = server@;
    let ghost b0 = link.s2c@;
    let ghost cl0 = link.client@;
    let ghost a0 = link.c2s@;
    server.swap_handler(kv);
    let arrived = link.c2s.advance(now);
    serve_arrived(server, &mut link.s2c, &arrived, now);
    let ghost runs = server@.runs;
    let arrived = link.s2c.advance(now);
    take_arrived(&mut link.client, &mut link.c2s, &arrived, now);
    let out = link.client.on_tick(now);
    proof {
        assert(datagrams(out) =~= datagrams_out(out));
    }
    send_all(&mut link.c2s, &out);
    let out2 = server.on_tick(now);
    proof {
        assert(datagrams(out2) =~= datagrams_out(out2));
    }
    send_all(&mut link.s2c, &out2);
    server.swap_handler(kv);
    proof {
        lemma_performs_keeps_start(k0, runs.skip(s0.runs.len() as int), *kv);
        assert(server@.runs == runs);
        assert((link.client@, link.c2s@, link.s2c@, server@) == spec_drive(cl0, a0, b0, s0, now.0, runs)) by {
            reveal(spec_drive);
        }
    }
}

/// The tick the first scheduled call fires at: two, plus the first draw
/// below 4 from the seed.
pub open spec fn first_fire_tick(seed: u64) -> u64 {
    (2 + draw_below(seed, 4).1) as u64
}

/// `n` draws, each cut to its low byte, and the generator after them.
pub open spec fn draw_bytes(g: u64, n: nat) -> (u64, Seq<u8>)
    decreases n,
{
    if n == 0 {
        (g, Seq::empty())
    } else {
        let (g1, v) = draw_bytes(g, (n - 1) as nat);
        let (g2, x) = draw(g1);
        (g2, v.push(x as u8))
    }
}

/// The operation that draws from `g` schedule: first the key's number
/// below `key_space`, then the kind (get, put, delete); for a put, the
/// value's length (1 to 8) and then its bytes. With it, the generator
/// after those draws.
pub open spec fn spec_random_op(g: u64, key_space: usize) -> (u64, OpModel) {
    let (g1, k) = draw_below(g, key_space as u64);
    let key = seq![107u8] + decimal(k as nat);
    let (g2, kind) = draw_below(g1, 3);
    if kind == 0 {
        (g2, OpModel::Get { key })
    } else if kind == 1 {
        let (g3, m) = draw_below(g2, 8);
        let (g4, value) = draw_bytes(g3, (1 + m) as nat);
        (g4, OpModel::Put { key, value })
    } else {
        (g2, OpModel::Delete { key })
    }
}

/// The operation scheduled by three draws (kind, then its key, then for
/// a put its value's length and bytes).
fn random_op(rng: &mut SplitMix64, key_space: usize) -> (op: Op)
    requires
        key_space > 0,
    ensures
        (final(rng)@, op@) == spec_random_op(old(rng)@, key_space),
{
    let key = key_name(rng.below(key_space));
    match rng.below(3) {
        0 => Op::Get { key },
        1 => {
            let n = 1 + rng.below(8);
            let ghost g3 = rng@;
            let mut value: Vec<u8> = Vec::new();
            let mut j: usize = 0;
            while j < n
                invariant
                    j <= n,
                    (rng@, value@) == draw_bytes(g3, j as nat),
                decreases n - j,
            {
                value.push(rng.next_u64() as u8);
                j = j + 1;
            }
            Op::Put { key, value }
        },
        _ => Op::Delete { key },
    }
}

/// Runs one chaos configuration: sets up one connection, channel pair
/// and server per client, fires the scheduled calls at their ticks, and
/// drives every link until all calls are answered or given up on. Then
/// replays the server's executions, in order, on a fresh
/// `ReferenceStore`, and fails on the first answer that differs.
///
/// Fails as well when the calls do not drain within `max_ticks` ticks,
/// or when a client's stream would run out of 32-bit offsets. Those are
/// the only failures: the servers execute against one store whose every
/// answer is that store's own replay of the executions, so the reference
/// store never disagrees. A run without calls succeeds at its first
/// tick; a run with calls that ends before the tick its first call fires
/// at (`first_fire_tick`, drawn from the seed) fails to drain with none
/// issued.
#[verifier::spinoff_prover]
pub fn run_chaos(config: ChaosConfig) -> (r: Result<ChaosSummary, ChaosFailure>)
    requires
        config.max_ticks <= MAX_RTT_SAMPLE,
        config.calls > 0 ==> config.clients > 0 && config.key_space > 0,
        config.calls < 0x3FFF_FFFF_FFFF_FFFF,
        config.clients <= u64::MAX / 1000,
        config.profile_switches@.len() <= u64::MAX / 7919,
        profile_valid(config.initial_profile),
        forall|i: int|
            0 <= i < config.profile_switches@.len() ==> profile_valid(
                #[trigger] config.profile_switches@[i].1,
            ),
    ensures
        config.calls == 0 ==> (r matches Ok(s) && s.ticks_used == 1 && s.calls_completed == 0
            && s.calls_failed == 0),
        r is Err ==> config.calls > 0,
        config.calls > 0 && config.max_ticks < first_fire_tick(config.seed) ==> (r matches Err(f)
            && f.message@ == drain_text(
            config.max_ticks as nat,
            0,
            config.calls as nat,
        )),
        match r {
            Ok(s) => {
                &&& s.seed == config.seed
                &&& config.calls > 0 ==> s.ticks_used >= first_fire_tick(config.seed)
                &&& 1 <= s.ticks_used
                &&& s.ticks_used <= config.max_ticks || s.ticks_used == 1
                &&& s.calls_completed + s.calls_failed == config.calls
            },
            Err(f) => {
                &&& f.seed == config.seed
                &&& (exists|fired: nat|
                    fired <= config.calls && f.message@ == #[trigger] drain_text(
                        config.max_ticks as nat,
                        fired,
                        config.calls as nat,
                    )) || (exists|c: nat|
                    c < config.clients && f.message@ == #[trigger] stream_text(c))
            },
        },
{
    let mut rng = SplitMix64::new(config.seed);
    let mut kv = KvHandler::new(KvStore::new());
    let mut links: Vec<ClientLink> = Vec::new();
    let mut servers: Vec<RpcServer<KvHandler>> = Vec::new();
    let mut i: usize = 0;
    while i < config.clients
        invariant
            i <= config.clients,
            config.clients <= u64::MAX / 1000,
            profile_valid(config.initial_profile),
            links@.len() == i,
            servers@.len() == i,
            forall|j: int| 0 <= j < links@.len() ==> link_ok(#[trigger] links@[j], 0),
            forall|j: int| 0 <= j < servers@.len() ==> (#[trigger] servers@[j]).wf(),
        decreases config.clients - i,
    {
        let (client_conn, syn) = Connection::connect(transport_config(), Tick(0));
        let server_conn = Connection::listen(transport_config(), Tick(0));
        let server = make_server(server_conn, KvStore::new());
        let (mut c2s, s2c) = make_link(
            config.seed.wrapping_add(i as u64 * 1000),
            config.initial_profile,
        );
        send_if_room(&mut c2s, syn.as_slice());
        links.push(ClientLink { client: RpcClient::new(client_conn, 25, 60), c2s, s2c });
        servers.push(server);
        i = i + 1;
    }

    // The schedule: (tick to fire at, client, operation), in tick order.
    let mut schedule: Vec<(u64, usize, Op)> = Vec::new();
    let mut t: u64 = 1;
    let mut k: usize = 0;
    while k < config.calls
        invariant
            k <= config.calls,
            config.calls < 0x3FFF_FFFF_FFFF_FFFF,
            config.calls > 0 ==> config.clients > 0 && config.key_space > 0,
            t <= 1 + 4 * k,
            1 <= t,
            k == 0 ==> rng@ == config.seed && t == 1,
            schedule@.len() == k,
            forall|j: int| 0 <= j < schedule@.len() ==> #[trigger] schedule@[j].1 < config.clients,
            forall|j: int| 0 <= j < schedule@.len() ==> 2 <= #[trigger] schedule@[j].0,
            k > 0 ==> schedule@[0].0 == first_fire_tick(config.seed),
            forall|j: int| 0 <= j < schedule@.len() ==> schedule@[0].0 <= #[trigger] schedule@[j].0,
            forall|j: int| 0 <= j < schedule@.len() ==> #[trigger] schedule@[j].0 <= t,
        decreases config.calls - k,
    {
        t = t + 1 + rng.below(4) as u64;
        let client_idx = rng.below(config.clients);
        let op = random_op(&mut rng, config.key_space);
        schedule.push((t, client_idx, op));
        k = k + 1;
    }
    let switches = sorted_switches(&config.profile_switches);
    proof {
        lemma_sort_switches(config.profile_switches@);
        broadcast use vstd::seq_lib::group_to_multiset_ensures;
        assert forall|j: int| 0 <= j < switches@.len() implies profile_valid(#[trigger] switches@[j].1) by {
            let x = switches@[j];
            assert(switches@.contains(x));
            assert(switches@.to_multiset().count(x) > 0);
            assert(config.profile_switches@.contains(x));
        }
        assert(switches@.len() == config.profile_switches@.len()) by {
            assert(switches@.to_multiset().len() == switches@.len());
            assert(config.profile_switches@.to_multiset().len() == config.profile_switches@.len());
        }
    }

    let mut fired: usize = 0;
    let mut switched: usize = 0;
    let mut calls_failed: usize = 0;
    let mut tick: u64 = 0;
    loop
        invariant_except_break
            tick < config.max_ticks || tick == 0,
            config.calls == 0 ==> tick == 0,
            config.calls > 0 && config.max_ticks < first_fire_tick(config.seed) ==> tick
                < first_fire_tick(config.seed),
        invariant
            links@.len() == config.clients,
            servers@.len() == config.clients,
            kv@.start == Map::<Seq<u8>, Seq<u8>>::empty(),
            forall|j: int| 0 <= j < links@.len() ==> link_ok(#[trigger] links@[j], fired as int),
            forall|j: int| 0 <= j < servers@.len() ==> (#[trigger] servers@[j]).wf(),
            forall|j: int| 0 <= j < schedule@.len() ==> #[trigger] schedule@[j].1 < config.clients,
            forall|j: int| 0 <= j < schedule@.len() ==> 2 <= #[trigger] schedule@[j].0,
            config.calls > 0 ==> schedule@[0].0 == first_fire_tick(config.seed),
            forall|j: int| 0 <= j < schedule@.len() ==> schedule@[0].0 <= #[trigger] schedule@[j].0,
            config.calls > 0 && tick < first_fire_tick(config.seed) ==> fired == 0,
            tick == 0 ==> fired == 0,
            forall|j: int| 0 <= j < switches@.len() ==> profile_valid(#[trigger] switches@[j].1),
            switches@.len() == config.profile_switches@.len(),
            config.profile_switches@.len() <= u64::MAX / 7919,
            config.clients <= u64::MAX / 1000,
            config.max_ticks <= MAX_RTT_SAMPLE,
            schedule@.len() == config.calls,
            fired <= schedule@.len(),
            switched <= switches@.len(),
            calls_failed <= fired,
        ensures
            fired == config.calls,
            calls_failed <= fired,
            config.calls == 0 ==> tick == 1 && calls_failed == 0,
            config.calls > 0 ==> config.max_ticks >= first_fire_tick(config.seed),
            config.calls > 0 ==> tick >= first_fire_tick(config.seed),
            1 <= tick,
            tick <= config.max_ticks || tick == 1,
        decreases config.max_ticks - tick,
    {
        tick = tick + 1;
        let now = Tick(tick);

        while switched < switches.len() && switches[switched].0 <= tick
            invariant
                links@.len() == config.clients,
                forall|j: int| 0 <= j < links@.len() ==> link_ok(#[trigger] links@[j], fired as int),
                forall|j: int| 0 <= j < switches@.len() ==> profile_valid(#[trigger] switches@[j].1),
                switches@.len() <= u64::MAX / 7919,
                config.clients <= u64::MAX / 1000,
                switched <= switches@.len(),
            decreases switches@.len() - switched,
        {
            let profile = switches[switched].1;
            let mut j: usize = 0;
            while j < links.len()
                invariant
                    links@.len() == config.clients,
                    forall|a: int| 0 <= a < links@.len() ==> link_ok(#[trigger] links@[a], fired as int),
                    profile_valid(profile),
                    switched < switches@.len(),
                    switches@.len() <= u64::MAX / 7919,
                    config.clients <= u64::MAX / 1000,
                    j <= links@.len(),
                decreases links@.len() - j,
            {
                let (c2s, s2c) = make_link(
                    config.seed.wrapping_add(j as u64 * 1000).wrapping_add(switched as u64 * 7919),
                    profile,
                );
                let mut link = links.remove(j);
                link.c2s = c2s;
                link.s2c = s2c;
                links.insert(j, link);
                j = j + 1;
            }
            switched = switched + 1;
        }

        while fired < schedule.len() && schedule[fired].0 <= tick
            invariant
                links@.len() == config.clients,
                forall|j: int| 0 <= j < links@.len() ==> link_ok(#[trigger] links@[j], fired as int),
                forall|j: int| 0 <= j < schedule@.len() ==> #[trigger] schedule@[j].1 < config.clients,
                forall|j: int| 0 <= j < schedule@.len() ==> 2 <= #[trigger] schedule@[j].0,
                forall|j: int| 0 <= j < schedule@.len() ==> schedule@[0].0 <= #[trigger] schedule@[j].0,
                config.calls > 0 ==> schedule@[0].0 == first_fire_tick(config.seed),
                config.calls > 0 && tick < first_fire_tick(config.seed) ==> fired == 0,
                config.calls > 0 && config.max_ticks < first_fire_tick(config.seed) ==> tick
                    < first_fire_tick(config.seed),
                schedule@.len() == config.calls,
                fired <= schedule@.len(),
                calls_failed <= fired,
                tick <= MAX_RTT_SAMPLE,
                now.0 == tick,
            decreases schedule@.len() - fired,
        {
            let client_idx = schedule[fired].1;
            let mut link = links.remove(client_idx);
            let payload_len = schedule[fired].2.encode_payload().len();
            let sent = link.client.connection().stats().bytes_sent_app;
            if (payload_len as u64) > (u32::MAX as u64) - 13 || sent > (u32::MAX as u64) - 13 - (payload_len as u64) {
                let message = stream_message(client_idx);
                assert(message@ == stream_text(client_idx as nat));
                return Err(ChaosFailure { seed: config.seed, message });
            }
            let (_id, out) = call(&mut link.client, now, &schedule[fired].2);
            send_all(&mut link.c2s, &out);
            links.insert(client_idx, link);
            fired = fired + 1;
        }

        let mut j: usize = 0;
        while j < links.len()
            invariant
                links@.len() == config.clients,
                servers@.len() == config.clients,
                kv@.start == Map::<Seq<u8>, Seq<u8>>::empty(),
                forall|a: int| 0 <= a < links@.len() ==> link_ok(#[trigger] links@[a], fired as int),
                forall|a: int| 0 <= a < servers@.len() ==> (#[trigger] servers@[a]).wf(),
                tick <= MAX_RTT_SAMPLE,
                now.0 == tick,
                j <= links@.len(),
            decreases links@.len() - j,
        {
            let mut link = links.remove(j);
            let mut server = servers.remove(j);
            drive_link(&mut link, &mut server, &mut kv, now, Ghost(fired as int));
            links.insert(j, link);
            servers.insert(j, server);
            j = j + 1;
        }

        let mut all_idle = true;
        let mut j: usize = 0;
        while j < links.len()
            invariant
                links@.len() == config.clients,
                forall|a: int| 0 <= a < links@.len() ==> link_ok(#[trigger] links@[a], fired as int),
                calls_failed <= fired,
                fired == 0 ==> all_idle,
                j <= links@.len(),
            decreases links@.len() - j,
        {
            let mut link = links.remove(j);
            proof {
                if fired == 0 && link.client@.pending.len() > 0 {
                    assert(link.client@.pending[0].request.id < link.client@.next_id);
                }
            }
            let _answered = link.client.poll_completed();
            let failed = link.client.poll_failed();
            calls_failed = if fired - calls_failed < failed.len() { fired } else { calls_failed + failed.len() };
            if link.client.pending_count() != 0 {
                all_idle = false;
            }
            links.insert(j, link);
            j = j + 1;
        }

        if fired == schedule.len() && all_idle {
            break;
        }
        if tick >= config.max_ticks {
            let message = drain_message(config.max_ticks, fired, config.calls);
            assert(message@ == drain_text(config.max_ticks as nat, fired as nat, config.calls as nat));
            return Err(ChaosFailure { seed: config.seed, message });
        }
    }

    // Replay the server's executions, in order, on the reference store.
    let log = kv.log();
    let ghost h = kv@;
    let ghost ops = log_ops(h.log);
    let mut reference = ReferenceStore::new();
    let mut e: usize = 0;
    proof {
        assert(ops.take(0) =~= Seq::<crate::workload::kv::OpModel>::empty());
    }
    while e < log.len()
        invariant
            e <= log@.len(),
            log_views(log@) == h.log,
            handler_inv(h),
            h.start == Map::<Seq<u8>, Seq<u8>>::empty(),
            ops == log_ops(h.log),
            reference@ == replay(h.start, ops.take(e as int)).0,
        decreases log@.len() - e,
    {
        proof {
            lemma_log_replays(h, e as int);
            assert(log[e as int].0@ == h.log[e as int].op);
            assert(ops.take(e + 1).drop_last() =~= ops.take(e as int));
        }
        let (ref_ok, ref_payload) = reference.apply(&log[e].0);
        if log[e].1 != ref_ok || !same_bytes(log[e].2.as_slice(), ref_payload.as_slice()) {
            return Err(ChaosFailure {
                seed: config.seed,
                message: mismatch_message(
                    e,
                    &log[e].0,
                    log[e].1,
                    log[e].2.as_slice(),
                    ref_ok,
                    ref_payload.as_slice(),
                ),
            });
        }
        e = e + 1;
    }

    Ok(ChaosSummary {
        seed: config.seed,
        executions: log.len(),
        calls_completed: fired - calls_failed,
        calls_failed,
        ticks_used: tick,
    })
}

/// The decimal digits of `n`, as characters.
pub open spec fn decimal_text(n: nat) -> Seq<char> {
    decimal(n).map_values(|b: u8| b as char)
}

/// The message of a run whose calls did not drain in time.
pub open spec fn drain_text(max_ticks: nat, fired: nat, calls: nat) -> Seq<char> {
    "did not drain within "@ + decimal_text(max_ticks) + " ticks ("@ + decimal_text(fired) + " of "@
        + decimal_text(calls) + " calls issued)"@
}

/// The message of a run in which a client's stream ran out of offsets.
pub open spec fn stream_text(client: nat) -> Seq<char> {
    "client "@ + decimal_text(client) + " ran out of stream offsets"@
}

/// `format!` writes each integer in decimal.
#[verifier::external_body]
fn drain_message(max_ticks: u64, fired: usize, calls: usize) -> (s: String)
    ensures
        s@ == drain_text(max_ticks as nat, fired as nat, calls as nat),
{
    format!("did not drain within {} ticks ({} of {} calls issued)", max_ticks, fired, calls)
}

/// `format!` writes the client's index in decimal.
#[verifier::external_body]
fn stream_message(client: usize) -> (s: String)
    ensures
        s@ == stream_text(client as nat),
{
    format!("client {} ran out of stream offsets", client)
}

#[verifier::external_body]
fn mismatch_message(
    i: usize,
    op: &Op,
    ok: bool,
    payload: &[u8],
    ref_ok: bool,
    ref_payload: &[u8],
) -> String {
    format!(
        "execution {i} ({op:?}) produced (ok={ok}, payload={payload:?}), reference store says (ok={ref_ok}, payload={ref_payload:?})"
    )
}

} // verus!
