//! A simulated datagram channel that guarantees nothing. Time is virtual
//! (`Tick`, moved only by `Channel::advance`), and every fault it
//! injects — loss, duplication, reordering, corruption, truncation —
//! comes from a seeded `SplitMix64`, so a run replays exactly from its
//! seed and profile. A `Script` can pin one datagram's fate exactly.
//!
//! A `Channel` is one direction; a duplex link is two of them.

pub mod fault;
pub mod laws;
pub mod rng;
pub mod tick;

use self::fault::rules_for;
use self::rng::{draw_below, draw_chance, SplitMix64};
use self::tick::saturating_add_spec;
pub use self::fault::{FaultProfile, FaultStats, Script, ScriptedFault};
pub use self::tick::Tick;
use vstd::prelude::*;

verus! {

/// The most datagrams a channel accepts: its counters stay within `u64`.
pub const MAX_DATAGRAMS: u64 = 0x3FFF_FFFF_FFFF_FFFF;

/// A datagram in flight: its arrival tick, its place in send order, and
/// its bytes.
#[derive(Debug)]
pub struct InFlight {
    arrives: Tick,
    seq: u64,
    payload: Vec<u8>,
}

impl View for InFlight {
    type V = (u64, u64, Seq<u8>);

    closed spec fn view(&self) -> (u64, u64, Seq<u8>) {
        (self.arrives.0, self.seq, self.payload@)
    }
}

pub open spec fn in_flight_views(v: Seq<InFlight>) -> Seq<(u64, u64, Seq<u8>)> {
    v.map_values(|d: InFlight| d@)
}

/// One direction of a hostile link.
pub struct Channel {
    profile: FaultProfile,
    script: Script,
    rng: SplitMix64,
    now: Tick,
    /// Sorted by (arrival tick, send order).
    in_flight: Vec<InFlight>,
    next_datagram_index: u64,
    /// How many datagrams were ever queued (duplicates included).
    enqueued: u64,
    stats: FaultStats,
}

/// A channel's state as plain values.
#[verifier::ext_equal]
pub struct ChannelModel {
    pub profile: FaultProfile,
    pub script: Seq<(u64, ScriptedFault)>,
    pub rng: u64,
    pub now: u64,
    pub in_flight: Seq<(u64, u64, Seq<u8>)>,
    pub next_datagram_index: u64,
    pub enqueued: u64,
    pub stats: FaultStats,
}

impl View for Channel {
    type V = ChannelModel;

    closed spec fn view(&self) -> ChannelModel {
        ChannelModel {
            profile: self.profile,
            script: self.script@,
            rng: self.rng@,
            now: self.now.0,
            in_flight: in_flight_views(self.in_flight@),
            next_datagram_index: self.next_datagram_index,
            enqueued: self.enqueued,
            stats: self.stats,
        }
    }
}

/// `(a, b)` comes strictly before `(c, d)`.
pub open spec fn lex_lt(a: u64, b: u64, c: u64, d: u64) -> bool {
    a < c || (a == c && b < d)
}

/// The channel's invariant: in-flight datagrams ordered by arrival and
/// then send order, counters that add up, and room left in them.
pub open spec fn channel_inv(m: ChannelModel) -> bool {
    let emitted = m.stats.sent - m.stats.dropped + m.stats.duplicated;
    &&& forall|i: int, j: int|
        0 <= i < j < m.in_flight.len() ==> lex_lt(
            #[trigger] m.in_flight[i].0,
            m.in_flight[i].1,
            #[trigger] m.in_flight[j].0,
            m.in_flight[j].1,
        )
    &&& forall|i: int| 0 <= i < m.in_flight.len() ==> #[trigger] m.in_flight[i].1 < m.enqueued
    &&& m.stats.sent == m.next_datagram_index
    &&& m.next_datagram_index <= MAX_DATAGRAMS
    &&& m.stats.dropped <= m.stats.sent
    &&& m.stats.duplicated <= m.stats.sent
    &&& m.enqueued == emitted
    &&& m.stats.delivered + m.in_flight.len() == emitted
    &&& m.stats.reordered <= emitted
    &&& m.stats.corrupted <= emitted
    &&& m.stats.truncated <= emitted
}

/// The first scripted delay, if any.
pub open spec fn first_delay(rules: Seq<ScriptedFault>) -> Option<u64>
    decreases rules.len(),
{
    if rules.len() == 0 {
        None
    } else {
        match rules[0] {
            ScriptedFault::Delay(d) => Some(d),
            _ => first_delay(rules.skip(1)),
        }
    }
}

/// The first scripted corruption offset, if any.
pub open spec fn first_corrupt(rules: Seq<ScriptedFault>) -> Option<usize>
    decreases rules.len(),
{
    if rules.len() == 0 {
        None
    } else {
        match rules[0] {
            ScriptedFault::Corrupt { byte_offset } => Some(byte_offset),
            _ => first_corrupt(rules.skip(1)),
        }
    }
}

/// The first scripted truncation length, if any.
pub open spec fn first_truncate(rules: Seq<ScriptedFault>) -> Option<usize>
    decreases rules.len(),
{
    if rules.len() == 0 {
        None
    } else {
        match rules[0] {
            ScriptedFault::Truncate { to_len } => Some(to_len),
            _ => first_truncate(rules.skip(1)),
        }
    }
}

pub open spec fn bump(x: u64) -> u64 {
    (x + 1) as u64
}

/// The delay step of building a datagram: a scripted delay, else a
/// random one in `0..=reorder_max_delay` (when reordering is on). A
/// nonzero extra delay counts as a reordering.
pub open spec fn delay_step(m: ChannelModel, rules: Seq<ScriptedFault>) -> (ChannelModel, u64) {
    let (r, extra) = match first_delay(rules) {
        Some(d) => (m.rng, d),
        None => if m.profile.reorder_max_delay > 0 {
            draw_below(m.rng, (m.profile.reorder_max_delay + 1) as u64)
        } else {
            (m.rng, 0u64)
        },
    };
    let stats = if extra > 0 {
        FaultStats { reordered: bump(m.stats.reordered), ..m.stats }
    } else {
        m.stats
    };
    (ChannelModel { rng: r, stats, ..m }, extra)
}

/// The corruption step: a scripted corruption (at its offset modulo the
/// length), else a random one with the profile's probability, flips one
/// random bit of one byte. An empty datagram is left alone.
pub open spec fn corrupt_step(m: ChannelModel, bytes: Seq<u8>, rules: Seq<ScriptedFault>) -> (
    ChannelModel,
    Seq<u8>,
) {
    let scripted = first_corrupt(rules);
    let (r1, corrupt) = if scripted is Some {
        (m.rng, true)
    } else {
        draw_chance(m.rng, m.profile.corruption)
    };
    if corrupt && bytes.len() > 0 {
        let (r2, raw) = match scripted {
            Some(o) => (r1, o),
            None => {
                let (ra, x) = draw_below(r1, bytes.len() as u64);
                (ra, x as usize)
            },
        };
        let off = (raw % (bytes.len() as usize)) as int;
        let (r3, bit) = draw_below(r2, 8);
        (
            ChannelModel {
                rng: r3,
                stats: FaultStats { corrupted: bump(m.stats.corrupted), ..m.stats },
                ..m
            },
            bytes.update(off, bytes[off] ^ (1u8 << (bit as u8))),
        )
    } else {
        (ChannelModel { rng: r1, ..m }, bytes)
    }
}

/// The truncation step: a scripted length, else (with the profile's
/// probability) a random shorter length, possibly zero. Only an actual
/// shortening counts.
pub open spec fn truncate_step(m: ChannelModel, bytes: Seq<u8>, rules: Seq<ScriptedFault>) -> (
    ChannelModel,
    Seq<u8>,
) {
    let scripted = first_truncate(rules);
    let (r1, trunc) = if scripted is Some {
        (m.rng, true)
    } else {
        draw_chance(m.rng, m.profile.truncation)
    };
    if trunc {
        let (r2, want) = match scripted {
            Some(t) => (r1, t as nat),
            None => if bytes.len() == 0 {
                (r1, 0nat)
            } else {
                let (ra, x) = draw_below(r1, bytes.len() as u64);
                (ra, (x as usize) as nat)
            },
        };
        let to_len = if want < bytes.len() {
            want
        } else {
            bytes.len()
        };
        if to_len < bytes.len() {
            (
                ChannelModel {
                    rng: r2,
                    stats: FaultStats { truncated: bump(m.stats.truncated), ..m.stats },
                    ..m
                },
                bytes.take(to_len as int),
            )
        } else {
            (ChannelModel { rng: r2, ..m }, bytes)
        }
    } else {
        (ChannelModel { rng: r1, ..m }, bytes)
    }
}

/// Building one datagram from `payload`: delay, then corruption, then
/// truncation; it arrives `base_delay` plus the extra delay after now.
#[verifier::opaque]
pub open spec fn spec_emit(m: ChannelModel, payload: Seq<u8>, rules: Seq<ScriptedFault>) -> (
    ChannelModel,
    (u64, Seq<u8>),
) {
    let (m1, extra) = delay_step(m, rules);
    let (m2, b1) = corrupt_step(m1, payload, rules);
    let (m3, b2) = truncate_step(m2, b1, rules);
    (m3, (saturating_add_spec(m.now, (m.profile.base_delay + extra) as u64), b2))
}

/// The position a datagram arriving at `arrives` takes: after every
/// datagram arriving no later.
pub open spec fn insert_pos(f: Seq<(u64, u64, Seq<u8>)>, arrives: u64, i: int) -> int
    decreases f.len() - i,
{
    if i < 0 || i >= f.len() {
        f.len() as int
    } else if f[i].0 > arrives {
        i
    } else {
        insert_pos(f, arrives, i + 1)
    }
}

/// The insertion point lies in range, after every datagram arriving no
/// later and at one arriving later (if any).
pub proof fn lemma_insert_pos(f: Seq<(u64, u64, Seq<u8>)>, arrives: u64, i: int)
    requires
        0 <= i <= f.len(),
    ensures
        i <= insert_pos(f, arrives, i) <= f.len(),
        forall|k: int| i <= k < insert_pos(f, arrives, i) ==> f[k].0 <= arrives,
        insert_pos(f, arrives, i) < f.len() ==> f[insert_pos(f, arrives, i)].0 > arrives,
    decreases f.len() - i,
{
    if 0 <= i < f.len() && f[i].0 <= arrives {
        lemma_insert_pos(f, arrives, i + 1);
    }
}

/// Queuing a datagram: it takes the next place in send order and sits
/// after every datagram arriving no later than it.
pub open spec fn spec_enqueue(m: ChannelModel, d: (u64, Seq<u8>)) -> ChannelModel {
    let pos = insert_pos(m.in_flight, d.0, 0);
    ChannelModel {
        in_flight: m.in_flight.insert(pos, (d.0, m.enqueued, d.1)),
        enqueued: bump(m.enqueued),
        ..m
    }
}

/// Sending a datagram: loss (scripted, else drawn) drops it; otherwise it
/// is built and queued, then duplicated (scripted, else drawn), the
/// duplicate built independently. Faults are decided now; virtual time
/// only decides when the result becomes deliverable.
pub open spec fn spec_send(m: ChannelModel, payload: Seq<u8>) -> ChannelModel {
    let index = m.next_datagram_index;
    let rules = rules_for(m.script, index);
    let m0 = ChannelModel {
        next_datagram_index: bump(index),
        stats: FaultStats { sent: bump(m.stats.sent), ..m.stats },
        ..m
    };
    let (r1, dropped) = if rules.contains(ScriptedFault::Drop) {
        (m0.rng, true)
    } else {
        draw_chance(m0.rng, m0.profile.loss)
    };
    let m1 = ChannelModel { rng: r1, ..m0 };
    if dropped {
        ChannelModel { stats: FaultStats { dropped: bump(m1.stats.dropped), ..m1.stats }, ..m1 }
    } else {
        spec_send_delivered(m1, payload, rules)
    }
}

/// Sending a datagram that was not lost: built and queued, then maybe
/// duplicated.
pub open spec fn spec_send_delivered(m1: ChannelModel, payload: Seq<u8>, rules: Seq<ScriptedFault>) -> ChannelModel {
    let (m2, base) = spec_emit(m1, payload, rules);
    let m3 = spec_enqueue(m2, base);
    let (r4, dup) = if rules.contains(ScriptedFault::Duplicate) {
        (m3.rng, true)
    } else {
        draw_chance(m3.rng, m3.profile.duplication)
    };
    let m4 = ChannelModel { rng: r4, ..m3 };
    if dup {
        spec_send_copy(m4, payload, rules)
    } else {
        m4
    }
}

/// Sending the duplicate: built independently and queued.
pub open spec fn spec_send_copy(m4: ChannelModel, payload: Seq<u8>, rules: Seq<ScriptedFault>) -> ChannelModel {
    let m5 = ChannelModel {
        stats: FaultStats { duplicated: bump(m4.stats.duplicated), ..m4.stats },
        ..m4
    };
    let (m6, copy) = spec_emit(m5, payload, rules);
    spec_enqueue(m6, copy)
}

/// How many leading in-flight datagrams have arrived by `now`.
pub open spec fn ready_count(f: Seq<(u64, u64, Seq<u8>)>, now: u64) -> nat
    decreases f.len(),
{
    if f.len() > 0 && f[0].0 <= now {
        1 + ready_count(f.skip(1), now)
    } else {
        0
    }
}

/// Handing over every datagram that has arrived, in arrival order (ties
/// in send order).
pub open spec fn spec_deliver_ready(m: ChannelModel) -> (ChannelModel, Seq<Seq<u8>>) {
    let k = ready_count(m.in_flight, m.now);
    (
        ChannelModel {
            in_flight: m.in_flight.skip(k as int),
            stats: FaultStats { delivered: (m.stats.delivered + k) as u64, ..m.stats },
            ..m
        },
        m.in_flight.take(k as int).map_values(|d: (u64, u64, Seq<u8>)| d.2),
    )
}

/// The sends a channel can take without arithmetic overflow: room in its
/// counters, and every delay (random or scripted for this datagram)
/// fitting on top of the base delay.
pub open spec fn send_fits(m: ChannelModel) -> bool {
    &&& m.next_datagram_index < MAX_DATAGRAMS
    &&& m.profile.reorder_max_delay < u64::MAX
    &&& m.profile.base_delay + m.profile.reorder_max_delay <= u64::MAX
    &&& forall|d: u64|
        #[trigger] rules_for(m.script, m.next_datagram_index).contains(ScriptedFault::Delay(d))
            ==> m.profile.base_delay + d <= u64::MAX
}

/// The ordering part of the channel's invariant.
pub open spec fn channel_inv_order(m: ChannelModel) -> bool {
    &&& forall|i: int, j: int|
        0 <= i < j < m.in_flight.len() ==> lex_lt(
            #[trigger] m.in_flight[i].0,
            m.in_flight[i].1,
            #[trigger] m.in_flight[j].0,
            m.in_flight[j].1,
        )
    &&& forall|i: int| 0 <= i < m.in_flight.len() ==> #[trigger] m.in_flight[i].1 < m.enqueued
}

/// Enough room in the counters for one more send (two emitted
/// datagrams at most).
pub open spec fn counters_room(m: ChannelModel) -> bool {
    &&& m.stats.reordered < u64::MAX - 2
    &&& m.stats.corrupted < u64::MAX - 2
    &&& m.stats.truncated < u64::MAX - 2
    &&& m.stats.duplicated < u64::MAX - 2
    &&& m.enqueued < u64::MAX - 2
}

/// How one send moves the counters: each grows by the datagrams emitted,
/// at most two, and every emitted datagram is queued.
pub open spec fn counters_grow(a: ChannelModel, b: ChannelModel) -> bool {
    let e = b.enqueued - a.enqueued;
    &&& 1 <= e <= 2
    &&& b.stats.duplicated == a.stats.duplicated + (e - 1)
    &&& a.stats.reordered <= b.stats.reordered <= a.stats.reordered + e
    &&& a.stats.corrupted <= b.stats.corrupted <= a.stats.corrupted + e
    &&& a.stats.truncated <= b.stats.truncated <= a.stats.truncated + e
    &&& b.in_flight.len() == a.in_flight.len() + e
    &&& b.stats.sent == a.stats.sent
    &&& b.stats.dropped == a.stats.dropped
    &&& b.stats.delivered == a.stats.delivered
    &&& b.next_datagram_index == a.next_datagram_index
}

/// What building a datagram changes besides the generator: each of the
/// reordering, corruption and truncation counters by at most one.
pub open spec fn emit_moves_counters(a: ChannelModel, b: ChannelModel) -> bool {
    &&& b == (ChannelModel { rng: b.rng, stats: b.stats, ..a })
    &&& b.stats == (FaultStats {
        reordered: b.stats.reordered,
        corrupted: b.stats.corrupted,
        truncated: b.stats.truncated,
        ..a.stats
    })
    &&& a.stats.reordered <= b.stats.reordered <= a.stats.reordered + 1
    &&& a.stats.corrupted <= b.stats.corrupted <= a.stats.corrupted + 1
    &&& a.stats.truncated <= b.stats.truncated <= a.stats.truncated + 1
}

pub open spec fn datagrams_out(v: Vec<Vec<u8>>) -> Seq<Seq<u8>> {
    v@.map_values(|d: Vec<u8>| d@)
}


/// A fresh channel.
pub open spec fn initial_model(seed: u64, profile: FaultProfile, script: Seq<
    (u64, ScriptedFault),
>) -> ChannelModel {
    ChannelModel {
        profile,
        script,
        rng: seed,
        now: 0,
        in_flight: Seq::empty(),
        next_datagram_index: 0,
        enqueued: 0,
        stats: FaultStats {
            sent: 0,
            delivered: 0,
            dropped: 0,
            duplicated: 0,
            reordered: 0,
            corrupted: 0,
            truncated: 0,
        },
    }
}

fn find_delay(rules: &Vec<ScriptedFault>) -> (r: Option<u64>)
    ensures
        r == first_delay(rules@),
{
    let mut i: usize = 0;
    assert(rules@.skip(0) =~= rules@);
    while i < rules.len()
        invariant
            i <= rules@.len(),
            first_delay(rules@) == first_delay(rules@.skip(i as int)),
        decreases rules@.len() - i,
    {
        assert(rules@.skip(i as int)[0] == rules@[i as int]);
        assert(rules@.skip(i as int).skip(1) =~= rules@.skip(i + 1));
        match rules[i] {
            ScriptedFault::Delay(d) => {
                return Some(d);
            },
            _ => {},
        }
        i = i + 1;
    }
    None
}

fn find_corrupt(rules: &Vec<ScriptedFault>) -> (r: Option<usize>)
    ensures
        r == first_corrupt(rules@),
{
    let mut i: usize = 0;
    assert(rules@.skip(0) =~= rules@);
    while i < rules.len()
        invariant
            i <= rules@.len(),
            first_corrupt(rules@) == first_corrupt(rules@.skip(i as int)),
        decreases rules@.len() - i,
    {
        assert(rules@.skip(i as int)[0] == rules@[i as int]);
        assert(rules@.skip(i as int).skip(1) =~= rules@.skip(i + 1));
        match rules[i] {
            ScriptedFault::Corrupt { byte_offset } => {
                return Some(byte_offset);
            },
            _ => {},
        }
        i = i + 1;
    }
    None
}

fn find_truncate(rules: &Vec<ScriptedFault>) -> (r: Option<usize>)
    ensures
        r == first_truncate(rules@),
{
    let mut i: usize = 0;
    assert(rules@.skip(0) =~= rules@);
    while i < rules.len()
        invariant
            i <= rules@.len(),
            first_truncate(rules@) == first_truncate(rules@.skip(i as int)),
        decreases rules@.len() - i,
    {
        assert(rules@.skip(i as int)[0] == rules@[i as int]);
        assert(rules@.skip(i as int).skip(1) =~= rules@.skip(i + 1));
        match rules[i] {
            ScriptedFault::Truncate { to_len } => {
                return Some(to_len);
            },
            _ => {},
        }
        i = i + 1;
    }
    None
}

fn contains_fault(rules: &Vec<ScriptedFault>, f: ScriptedFault) -> (b: bool)
    ensures
        b == rules@.contains(f),
{
    let mut i: usize = 0;
    while i < rules.len()
        invariant
            i <= rules@.len(),
            forall|k: int| 0 <= k < i ==> rules@[k] != f,
        decreases rules@.len() - i,
    {
        if rules[i] == f {
            return true;
        }
        i = i + 1;
    }
    false
}

proof fn lemma_first_delay_listed(rules: Seq<ScriptedFault>)
    ensures
        first_delay(rules) matches Some(d) ==> rules.contains(ScriptedFault::Delay(d)),
    decreases rules.len(),
{
    if rules.len() > 0 {
        match rules[0] {
            ScriptedFault::Delay(d) => {
                assert(rules[0] == ScriptedFault::Delay(d));
            },
            _ => {
                lemma_first_delay_listed(rules.skip(1));
                if let Some(d) = first_delay(rules.skip(1)) {
                    let k = choose|k: int| 0 <= k < rules.skip(1).len() && rules.skip(1)[k] == ScriptedFault::Delay(d);
                    assert(rules[k + 1] == ScriptedFault::Delay(d));
                }
            },
        }
    }
}

impl Channel {
    /// A channel with a random fault profile only.
    pub fn new(seed: u64, profile: FaultProfile) -> (c: Channel)
        requires
            fault::profile_valid(profile),
        ensures
            c@ == initial_model(seed, profile, Seq::empty()),
            channel_inv(c@),
    {
        Self::with_script(seed, profile, Script::new())
    }

    /// A channel with a random profile and scripted overrides: a scripted
    /// fault for a datagram replaces that fault's random draw; its other
    /// faults still draw normally.
    pub fn with_script(seed: u64, profile: FaultProfile, script: Script) -> (c: Channel)
        requires
            fault::profile_valid(profile),
        ensures
            c@ == initial_model(seed, profile, script@),
            channel_inv(c@),
    {
        let c = Channel {
            profile,
            script,
            rng: SplitMix64::new(seed),
            now: Tick(0),
            in_flight: Vec::new(),
            next_datagram_index: 0,
            enqueued: 0,
            stats: FaultStats::default(),
        };
        assert(c@ =~= initial_model(seed, profile, script@));
        c
    }

    pub fn now(&self) -> (t: Tick)
        ensures
            t.0 == self@.now,
    {
        self.now
    }

    pub fn stats(&self) -> (s: FaultStats)
        ensures
            s == self@.stats,
    {
        self.stats
    }

    /// Sends one datagram; its faults are decided now, and what survives
    /// becomes deliverable once virtual time reaches its arrival tick.
    /// Whether `send` can take one more datagram: the channel's counters
    /// and the delays of this datagram all fit in 64 bits.
    pub fn can_send(&self) -> (b: bool)
        ensures
            b == send_fits(self@),
    {
        if self.next_datagram_index >= MAX_DATAGRAMS || self.profile.reorder_max_delay == u64::MAX
            || self.profile.base_delay > u64::MAX - self.profile.reorder_max_delay {
            return false;
        }
        let rules = self.script.for_index(self.next_datagram_index);
        let mut i: usize = 0;
        while i < rules.len()
            invariant
                i <= rules@.len(),
                rules@ == rules_for(self@.script, self@.next_datagram_index),
                forall|k: int|
                    0 <= k < i ==> (#[trigger] rules@[k] matches ScriptedFault::Delay(d) ==> self@.profile.base_delay + d <= u64::MAX),
            decreases rules@.len() - i,
        {
            if let ScriptedFault::Delay(d) = rules[i] {
                if self.profile.base_delay > u64::MAX - d {
                    assert(rules@.contains(ScriptedFault::Delay(d)));
                    return false;
                }
            }
            i = i + 1;
        }
        assert forall|d: u64| #[trigger] rules@.contains(ScriptedFault::Delay(d)) implies self@.profile.base_delay + d <= u64::MAX by {
            let k = choose|k: int| 0 <= k < rules@.len() && rules@[k] == ScriptedFault::Delay(d);
            assert(rules@[k] matches ScriptedFault::Delay(e) && e == d);
        }
        true
    }

    pub fn send(&mut self, payload: &[u8])
        requires
            channel_inv(old(self)@),
            send_fits(old(self)@),
        ensures
            final(self)@ == spec_send(old(self)@, payload@),
            channel_inv(final(self)@),
    {
        let ghost m = self@;
        let index = self.next_datagram_index;
        self.next_datagram_index = self.next_datagram_index + 1;
        self.stats.sent = self.stats.sent + 1;
        let rules = self.script.for_index(index);
        let scripted_drop = contains_fault(&rules, ScriptedFault::Drop);
        let dropped = if scripted_drop {
            true
        } else {
            self.rng.chance(self.profile.loss)
        };
        if dropped {
            self.stats.dropped = self.stats.dropped + 1;
            assert(self@ =~= spec_send(m, payload@));
            return;
        }
        let ghost m1 = self@;
        proof {
            lemma_first_delay_listed(rules@);
            assert(spec_send(m, payload@) == spec_send_delivered(m1, payload@, rules@));
        }
        self.send_delivered(payload, &rules);
    }

    fn send_delivered(&mut self, payload: &[u8], rules: &Vec<ScriptedFault>)
        requires
            channel_inv_order(old(self)@),
            counters_room(old(self)@),
            old(self)@.profile.reorder_max_delay < u64::MAX,
            old(self)@.profile.base_delay + old(self)@.profile.reorder_max_delay <= u64::MAX,
            first_delay(rules@) matches Some(x) ==> old(self)@.profile.base_delay + x <= u64::MAX,
        ensures
            final(self)@ == spec_send_delivered(old(self)@, payload@, rules@),
            channel_inv_order(final(self)@),
            counters_grow(old(self)@, final(self)@),
    {
        let ghost m1 = self@;
        let base = self.emit_one(payload, rules);
        let ghost m2 = self@;
        assert(channel_inv_order(m2)) by {
            assert(m2.in_flight == m1.in_flight);
        }
        self.enqueue(base);
        let ghost m3 = self@;
        proof {
            lemma_insert_pos(m2.in_flight, base@.0, 0);
            assert(m3.in_flight.len() == m2.in_flight.len() + 1);
        }
        let scripted_dup = contains_fault(rules, ScriptedFault::Duplicate);
        let dup = if scripted_dup {
            true
        } else {
            self.rng.chance(self.profile.duplication)
        };
        if dup {
            self.stats.duplicated = self.stats.duplicated + 1;
            let ghost m5 = self@;
            let copy = self.emit_one(payload, rules);
            let ghost m6 = self@;
            assert(channel_inv_order(m6)) by {
                assert(m6.in_flight == m5.in_flight);
                assert(m6.enqueued == m5.enqueued);
                assert(m5.in_flight == m3.in_flight);
                assert(m5.enqueued == m3.enqueued);
            }
            self.enqueue(copy);
            proof {
                lemma_insert_pos(m6.in_flight, copy@.0, 0);
            }
        }
    }

    fn emit_one(&mut self, payload: &[u8], rules: &Vec<ScriptedFault>) -> (d: InFlight)
        requires
            old(self)@.stats.reordered < u64::MAX,
            old(self)@.stats.corrupted < u64::MAX,
            old(self)@.stats.truncated < u64::MAX,
            old(self)@.profile.reorder_max_delay < u64::MAX,
            old(self)@.profile.base_delay + old(self)@.profile.reorder_max_delay <= u64::MAX,
            first_delay(rules@) matches Some(x) ==> old(self)@.profile.base_delay + x <= u64::MAX,
        ensures
            (final(self)@, (d@.0, d@.2)) == spec_emit(old(self)@, payload@, rules@),
            emit_moves_counters(old(self)@, final(self)@),
    {
        reveal(spec_emit);
        let ghost m = self@;
        let mut bytes = vstd::slice::slice_to_vec(payload);
        // Delay.
        let scripted_delay = find_delay(rules);
        let extra_delay = match scripted_delay {
            Some(d) => d,
            None => {
                if self.profile.reorder_max_delay > 0 {
                    self.rng.below(self.profile.reorder_max_delay + 1)
                } else {
                    0
                }
            },
        };
        if extra_delay > 0 {
            self.stats.reordered = self.stats.reordered + 1;
        }
        let ghost m1 = self@;
        assert((m1, extra_delay) == delay_step(m, rules@));
        // Corruption.
        let scripted_corrupt = find_corrupt(rules);
        let should_corrupt = match scripted_corrupt {
            Some(_) => true,
            None => self.rng.chance(self.profile.corruption),
        };
        if should_corrupt && bytes.len() > 0 {
            let raw = match scripted_corrupt {
                Some(o) => o,
                None => self.rng.below(bytes.len() as u64) as usize,
            };
            let offset = raw % bytes.len();
            let bit = self.rng.below(8) as u8;
            let old_byte = bytes[offset];
            bytes.set(offset, old_byte ^ (1u8 << bit));
            self.stats.corrupted = self.stats.corrupted + 1;
        }
        let ghost m2 = self@;
        assert((m2, bytes@) == corrupt_step(m1, payload@, rules@));
        // Truncation.
        let ghost b1 = bytes@;
        let scripted_trunc = find_truncate(rules);
        let should_trunc = match scripted_trunc {
            Some(_) => true,
            None => self.rng.chance(self.profile.truncation),
        };
        if should_trunc {
            let want = match scripted_trunc {
                Some(t) => t,
                None => {
                    if bytes.len() == 0 {
                        0
                    } else {
                        self.rng.below(bytes.len() as u64) as usize
                    }
                },
            };
            let to_len = if want < bytes.len() {
                want
            } else {
                bytes.len()
            };
            if to_len < bytes.len() {
                bytes.truncate(to_len);
                self.stats.truncated = self.stats.truncated + 1;
                assert(bytes@ =~= b1.take(to_len as int));
            }
        }
        assert((self@, bytes@) == truncate_step(m2, b1, rules@));
        let arrives = self.now.advance(self.profile.base_delay + extra_delay);
        InFlight { arrives, seq: 0, payload: bytes }
    }

    fn enqueue(&mut self, datagram: InFlight)
        requires
            channel_inv_order(old(self)@),
            old(self)@.enqueued < u64::MAX,
        ensures
            final(self)@ == spec_enqueue(old(self)@, (datagram@.0, datagram@.2)),
            channel_inv_order(final(self)@),
    {
        let ghost m = self@;
        let arrives = datagram.arrives;
        let mut d = datagram;
        d.seq = self.enqueued;
        let n = self.in_flight.len();
        // The new datagram usually arrives last: search from the back.
        let mut i: usize = n;
        while i > 0 && self.in_flight[i - 1].arrives.0 > arrives.0
            invariant
                self@ == m,
                n == m.in_flight.len(),
                i <= n,
                forall|k: int| i <= k < n ==> #[trigger] m.in_flight[k].0 > arrives.0,
            decreases i,
        {
            assert(m.in_flight[i - 1] == self.in_flight@[i - 1]@);
            i = i - 1;
        }
        proof {
            if i > 0 {
                assert(m.in_flight[i - 1] == self.in_flight@[i - 1]@);
                assert forall|k: int| 0 <= k < i implies #[trigger] m.in_flight[k].0 <= arrives.0 by {
                    if k < i - 1 {
                        assert(lex_lt(m.in_flight[k].0, m.in_flight[k].1, m.in_flight[i - 1].0, m.in_flight[i - 1].1));
                    }
                }
            }
            lemma_insert_pos(m.in_flight, arrives.0, 0);
            let p = insert_pos(m.in_flight, arrives.0, 0);
            if p < i {
                assert(m.in_flight[p].0 > arrives.0);
            } else if p > i {
                assert(m.in_flight[i as int].0 <= arrives.0);
            }
            assert(p == i);
        }
        self.in_flight.insert(i, d);
        self.enqueued = self.enqueued + 1;
        proof {
            let entry = (arrives.0, m.enqueued, datagram@.2);
            assert(self@.in_flight =~= m.in_flight.insert(i as int, entry));
            assert(self@ =~= spec_enqueue(m, (datagram@.0, datagram@.2)));
            let f = self@.in_flight;
            assert forall|a: int, b: int| 0 <= a < b < f.len() implies lex_lt(
                #[trigger] f[a].0,
                f[a].1,
                #[trigger] f[b].0,
                f[b].1,
            ) by {
                if a < i && b == i {
                    assert(f[a] == m.in_flight[a]);
                } else if a == i && b > i {
                    assert(f[b] == m.in_flight[b - 1]);
                    assert(m.in_flight[i as int].0 > arrives.0);
                    if b - 1 > i {
                        assert(lex_lt(m.in_flight[i as int].0, m.in_flight[i as int].1, m.in_flight[b - 1].0, m.in_flight[b - 1].1));
                    }
                } else if a < i && b > i {
                    assert(f[a] == m.in_flight[a]);
                    assert(f[b] == m.in_flight[b - 1]);
                } else if a > i {
                    assert(f[a] == m.in_flight[a - 1]);
                    assert(f[b] == m.in_flight[b - 1]);
                }
            }
            assert forall|a: int| 0 <= a < f.len() implies #[trigger] f[a].1 < self@.enqueued by {
                if a < i {
                    assert(f[a] == m.in_flight[a]);
                } else if a > i {
                    assert(f[a] == m.in_flight[a - 1]);
                }
            }
        }
    }

    /// Moves virtual time forward to `to` (never backward) and returns
    /// every datagram that has arrived by then, in arrival order. This is
    /// the only way time moves on a channel.
    pub fn advance(&mut self, to: Tick) -> (out: Vec<Vec<u8>>)
        requires
            channel_inv(old(self)@),
        ensures
            (final(self)@, datagrams_out(out)) == spec_deliver_ready(
                ChannelModel {
                    now: if to.0 > old(self)@.now {
                        to.0
                    } else {
                        old(self)@.now
                    },
                    ..old(self)@
                },
            ),
            channel_inv(final(self)@),
    {
        if to.0 > self.now.0 {
            self.now = to;
        }
        self.deliver_ready()
    }

    /// Every datagram deliverable at the current tick, in arrival order
    /// (ties in send order), without moving time.
    pub fn deliver_ready(&mut self) -> (out: Vec<Vec<u8>>)
        requires
            channel_inv(old(self)@),
        ensures
            (final(self)@, datagrams_out(out)) == spec_deliver_ready(old(self)@),
            channel_inv(final(self)@),
    {
        let ghost m = self@;
        let n = self.in_flight.len();
        let mut k: usize = 0;
        assert(m.in_flight.skip(0) =~= m.in_flight);
        while k < n && self.in_flight[k].arrives.0 <= self.now.0
            invariant
                self@ == m,
                n == m.in_flight.len(),
                k <= n,
                ready_count(m.in_flight, m.now) == k + ready_count(m.in_flight.skip(k as int), m.now),
            decreases n - k,
        {
            assert(m.in_flight[k as int] == self.in_flight@[k as int]@);
            assert(m.in_flight.skip(k as int).skip(1) =~= m.in_flight.skip(k + 1));
            k = k + 1;
        }
        proof {
            if k < n {
                assert(m.in_flight[k as int] == self.in_flight@[k as int]@);
            }
        }
        let ghost v0 = self.in_flight@;
        let mut ready_items = self.in_flight.split_off(k);
        std::mem::swap(&mut ready_items, &mut self.in_flight);
        // Take the payloads off the back, then off the back again: two
        // reversals restore the arrival order without shifting elements.
        let mut rev: Vec<Vec<u8>> = Vec::new();
        while ready_items.len() > 0
            invariant
                ready_items@.len() + rev@.len() == k,
                k <= v0.len(),
                forall|a: int| 0 <= a < ready_items@.len() ==> #[trigger] ready_items@[a] == v0[a],
                forall|a: int| 0 <= a < rev@.len() ==> (#[trigger] rev@[a])@ == v0[k - 1 - a].payload@,
            decreases ready_items@.len(),
        {
            let ghost rv = ready_items@;
            let item = ready_items.pop().unwrap();
            assert(item == v0[rv.len() - 1]);
            rev.push(item.payload);
        }
        let mut out: Vec<Vec<u8>> = Vec::new();
        let mut j: usize = 0;
        assert(datagrams_out(out) =~= v0.take(0).map_values(|d: InFlight| d.payload@));
        while rev.len() > 0
            invariant
                j + rev@.len() == k,
                k <= v0.len(),
                forall|a: int| 0 <= a < rev@.len() ==> (#[trigger] rev@[a])@ == v0[k - 1 - a].payload@,
                datagrams_out(out) =~= v0.take(j as int).map_values(|d: InFlight| d.payload@),
            decreases rev@.len(),
        {
            let ghost rv = rev@;
            let payload = rev.pop().unwrap();
            assert(payload@ == v0[j as int].payload@);
            let ghost before = datagrams_out(out);
            out.push(payload);
            proof {
                assert(datagrams_out(out) =~= before.push(v0[j as int].payload@));
                assert(v0.take(j + 1).map_values(|d: InFlight| d.payload@) =~= v0.take(j as int).map_values(|d: InFlight| d.payload@).push(v0[j as int].payload@));
            }
            j = j + 1;
        }
        self.stats.delivered = self.stats.delivered + k as u64;
        proof {
            assert(self@.in_flight =~= m.in_flight.skip(k as int));
            assert(datagrams_out(out) =~= m.in_flight.take(k as int).map_values(|d: (u64, u64, Seq<u8>)| d.2));
            assert(self@ =~= spec_deliver_ready(m).0);
            let f = self@.in_flight;
            assert forall|a: int, b: int| 0 <= a < b < f.len() implies lex_lt(
                #[trigger] f[a].0,
                f[a].1,
                #[trigger] f[b].0,
                f[b].1,
            ) by {
                assert(f[a] == m.in_flight[a + k]);
                assert(f[b] == m.in_flight[b + k]);
            }
            assert forall|a: int| 0 <= a < f.len() implies #[trigger] f[a].1 < self@.enqueued by {
                assert(f[a] == m.in_flight[a + k]);
            }
        }
        out
    }

    /// The arrival tick of the next in-flight datagram, if any: the
    /// earliest of them all.
    pub fn next_arrival(&self) -> (t: Option<Tick>)
        requires
            channel_inv(self@),
        ensures
            t == (if self@.in_flight.len() == 0 {
                None
            } else {
                Some(Tick(self@.in_flight[0].0))
            }),
            t matches Some(a) ==> forall|i: int|
                0 <= i < self@.in_flight.len() ==> a.0 <= #[trigger] self@.in_flight[i].0,
    {
        if self.in_flight.len() == 0 {
            None
        } else {
            assert(self@.in_flight[0] == self.in_flight@[0]@);
            proof {
                assert forall|i: int| 0 <= i < self@.in_flight.len() implies self@.in_flight[0].0 <= #[trigger] self@.in_flight[i].0 by {
                    if i > 0 {
                        assert(lex_lt(self@.in_flight[0].0, self@.in_flight[0].1, self@.in_flight[i].0, self@.in_flight[i].1));
                    }
                }
            }
            Some(self.in_flight[0].arrives)
        }
    }
}

} // verus!
