//! What the channel promises, whatever its seed: a scripted drop drops,
//! certain loss loses everything, a clean profile delivers every payload
//! unchanged exactly `base_delay` ticks later, damage to a datagram is at
//! most one flipped byte plus a cut, a channel that damages a datagram
//! at most one way hands over a sent datagram whole, cut short, or with
//! one flipped bit, and nothing is handed over before its arrival tick.

use crate::channel::fault::{rules_for, FaultProfile, FaultStats, ScriptedFault};
use crate::channel::rng::{draw_below, draw_chance, lemma_below_in_bounds, lemma_chance_extremes, PROB_ONE};
use crate::channel::tick::saturating_add_spec;
use crate::frame::{lemma_one_damaged_byte_is_rejected, spec_decode, spec_encode, FrameModel};
use crate::channel::{
    bump, lemma_insert_pos, spec_enqueue,
    channel_inv, corrupt_step, delay_step, first_corrupt, first_delay, first_truncate, insert_pos,
    lex_lt, ready_count, spec_deliver_ready, spec_emit, spec_send, truncate_step, ChannelModel,
};
use vstd::prelude::*;

verus! {

/// A datagram with a scripted drop is lost: nothing new is in flight, and
/// it counts as sent and dropped.
pub proof fn lemma_scripted_drop(m: ChannelModel, payload: Seq<u8>)
    requires
        rules_for(m.script, m.next_datagram_index).contains(ScriptedFault::Drop),
    ensures
        spec_send(m, payload).in_flight == m.in_flight,
        spec_send(m, payload).stats.dropped == (m.stats.dropped + 1) as u64,
        spec_send(m, payload).stats.sent == (m.stats.sent + 1) as u64,
{
}

/// With certain loss, every datagram is lost.
pub proof fn lemma_certain_loss(m: ChannelModel, payload: Seq<u8>)
    requires
        m.profile.loss == PROB_ONE,
    ensures
        spec_send(m, payload).in_flight == m.in_flight,
        spec_send(m, payload).stats.dropped == (m.stats.dropped + 1) as u64,
{
    lemma_chance_extremes(m.rng);
}

/// On a clean profile with no script for this datagram, a send queues
/// exactly the payload, unchanged, arriving `base_delay` (one tick)
/// after now, behind everything arriving no later, and nothing else.
pub proof fn lemma_clean_send(m: ChannelModel, payload: Seq<u8>)
    requires
        m.profile == FaultProfile::spec_clean(),
        rules_for(m.script, m.next_datagram_index) == Seq::<ScriptedFault>::empty(),
    ensures
        ({
            let arrives = saturating_add_spec(m.now, 1);
            spec_send(m, payload).in_flight == m.in_flight.insert(
                insert_pos(m.in_flight, arrives, 0),
                (arrives, m.enqueued, payload),
            )
        }),
{
    reveal(spec_emit);
    let rules = Seq::<ScriptedFault>::empty();
    lemma_chance_extremes(m.rng);
    assert(!rules.contains(ScriptedFault::Drop));
    assert(!rules.contains(ScriptedFault::Duplicate));
    assert(first_delay(rules) is None);
    assert(first_corrupt(rules) is None);
    assert(first_truncate(rules) is None);
    // Every draw below is against a zero threshold and fails, whatever
    // state the generator is in.
    assert forall|s: u64| !(#[trigger] draw_chance(s, 0)).1 by {
        lemma_chance_extremes(s);
    }
}

/// The damage one built datagram can carry: it is no longer than the
/// payload, it differs from the payload in at most one byte, and it
/// arrives no earlier than `base_delay` after now.
pub proof fn lemma_emit_damage(m: ChannelModel, payload: Seq<u8>, rules: Seq<ScriptedFault>)
    requires
        m.profile.reorder_max_delay < u64::MAX,
        m.profile.base_delay + m.profile.reorder_max_delay <= u64::MAX,
        first_delay(rules) matches Some(d) ==> m.profile.base_delay + d <= u64::MAX,
        payload.len() <= usize::MAX,
    ensures
        ({
            let (_, (arrives, bytes)) = spec_emit(m, payload, rules);
            &&& bytes.len() <= payload.len()
            &&& forall|i: int, k: int|
                0 <= i < k < bytes.len() ==> #[trigger] bytes[i] == payload[i] || #[trigger] bytes[k]
                    == payload[k]
            &&& arrives >= saturating_add_spec(m.now, m.profile.base_delay)
        }),
{
    reveal(spec_emit);
    let (m1, extra) = delay_step(m, rules);
    let (m2, b1) = corrupt_step(m1, payload, rules);
    let (m3, b2) = truncate_step(m2, b1, rules);
    lemma_delay_bound(m, rules);
    lemma_corrupt_one_byte(m1, payload, rules);
    lemma_truncate_prefix(m2, b1, rules);
    assert forall|i: int, k: int|
        0 <= i < k < b2.len() implies #[trigger] b2[i] == payload[i] || #[trigger] b2[k]
            == payload[k] by {
        assert(b2[i] == b1[i]);
        assert(b2[k] == b1[k]);
    }
}

proof fn lemma_delay_bound(m: ChannelModel, rules: Seq<ScriptedFault>)
    requires
        m.profile.reorder_max_delay < u64::MAX,
        m.profile.base_delay + m.profile.reorder_max_delay <= u64::MAX,
        first_delay(rules) matches Some(d) ==> m.profile.base_delay + d <= u64::MAX,
    ensures
        delay_step(m, rules).1 + m.profile.base_delay <= u64::MAX,
{
    if first_delay(rules) is None && m.profile.reorder_max_delay > 0 {
        lemma_below_in_bounds(m.rng, (m.profile.reorder_max_delay + 1) as u64);
    }
}

proof fn lemma_corrupt_one_byte(m: ChannelModel, bytes: Seq<u8>, rules: Seq<ScriptedFault>)
    requires
        bytes.len() <= usize::MAX,
    ensures
        ({
            let b = corrupt_step(m, bytes, rules).1;
            &&& b.len() == bytes.len()
            &&& forall|i: int, k: int|
                0 <= i < k < b.len() ==> #[trigger] b[i] == bytes[i] || #[trigger] b[k] == bytes[k]
        }),
{
    let scripted = first_corrupt(rules);
    let (r1, corrupt) = if scripted is Some {
        (m.rng, true)
    } else {
        draw_chance(m.rng, m.profile.corruption)
    };
    if corrupt && bytes.len() > 0 {
        let (r2, raw) = match scripted {
            Some(o) => (r1, o),
            None => {
                let (ra, x) = draw_below(r1, bytes.len() as u64);
                (ra, x as usize)
            },
        };
        let n = bytes.len() as usize;
        assert(n == bytes.len());
        let off = (raw % n) as int;
        assert(0 <= off < bytes.len());
        let (r3, bit) = draw_below(r2, 8);
        let b = bytes.update(off, bytes[off] ^ (1u8 << (bit as u8)));
        assert(corrupt_step(m, bytes, rules).1 == b);
        assert forall|i: int, k: int|
            0 <= i < k < b.len() implies #[trigger] b[i] == bytes[i] || #[trigger] b[k] == bytes[k] by {
            if i != off {
                assert(b[i] == bytes[i]);
            } else {
                assert(b[k] == bytes[k]);
            }
        }
    }
}

proof fn lemma_truncate_prefix(m: ChannelModel, bytes: Seq<u8>, rules: Seq<ScriptedFault>)
    ensures
        ({
            let b = truncate_step(m, bytes, rules).1;
            &&& b.len() <= bytes.len()
            &&& forall|i: int| 0 <= i < b.len() ==> #[trigger] b[i] == bytes[i]
        }),
{
}

/// A channel hands over only datagrams that have arrived, and keeps
/// every one that has not.
pub proof fn lemma_deliver_only_arrived(m: ChannelModel)
    requires
        channel_inv(m),
    ensures
        ({
            let k = ready_count(m.in_flight, m.now) as int;
            &&& k <= m.in_flight.len()
            &&& forall|i: int| 0 <= i < k ==> #[trigger] m.in_flight[i].0 <= m.now
            &&& forall|i: int| k <= i < m.in_flight.len() ==> #[trigger] m.in_flight[i].0 > m.now
            &&& spec_deliver_ready(m).0.in_flight == m.in_flight.skip(k)
        }),
{
    lemma_ready_count(m.in_flight, m.now);
    let k = ready_count(m.in_flight, m.now) as int;
    let f = m.in_flight;
    if k < f.len() {
        assert forall|i: int| k <= i < f.len() implies #[trigger] f[i].0 > m.now by {
            if i > k {
                assert(lex_lt(f[k].0, f[k].1, f[i].0, f[i].1));
            }
        }
    }
}

proof fn lemma_ready_count(f: Seq<(u64, u64, Seq<u8>)>, now: u64)
    ensures
        ready_count(f, now) <= f.len(),
        forall|i: int| 0 <= i < ready_count(f, now) ==> #[trigger] f[i].0 <= now,
        ready_count(f, now) < f.len() ==> f[ready_count(f, now) as int].0 > now,
    decreases f.len(),
{
    if f.len() > 0 && f[0].0 <= now {
        lemma_ready_count(f.skip(1), now);
        assert forall|i: int| 0 <= i < ready_count(f, now) implies #[trigger] f[i].0 <= now by {
            if i > 0 {
                assert(f[i] == f.skip(1)[i - 1]);
            }
        }
        if ready_count(f, now) < f.len() {
            assert(f[ready_count(f, now) as int] == f.skip(1)[ready_count(f.skip(1), now) as int]);
        }
    }
}

/// Every datagram in flight carries bytes that `ok` accepts.
pub open spec fn carries_only(m: ChannelModel, ok: spec_fn(Seq<u8>) -> bool) -> bool {
    forall|i: int| 0 <= i < m.in_flight.len() ==> ok(#[trigger] m.in_flight[i].2)
}

proof fn lemma_enqueue_carries(m: ChannelModel, d: (u64, Seq<u8>), ok: spec_fn(Seq<u8>) -> bool)
    requires
        carries_only(m, ok),
        ok(d.1),
    ensures
        carries_only(spec_enqueue(m, d), ok),
        spec_enqueue(m, d).profile == m.profile,
        spec_enqueue(m, d).script == m.script,
{
    let pos = insert_pos(m.in_flight, d.0, 0);
    lemma_insert_pos(m.in_flight, d.0, 0);
    let f = m.in_flight.insert(pos, (d.0, m.enqueued, d.1));
    assert forall|i: int| 0 <= i < f.len() implies ok(#[trigger] f[i].2) by {
        if i < pos {
            assert(f[i] == m.in_flight[i]);
        } else if i > pos {
            assert(f[i] == m.in_flight[i - 1]);
        }
    }
}

/// Handing over the datagrams that have arrived keeps what stays in
/// flight acceptable to `ok`, hands over only bytes `ok` accepts, and
/// leaves the profile and script alone.
pub proof fn lemma_deliver_carries(m: ChannelModel, ok: spec_fn(Seq<u8>) -> bool)
    requires
        carries_only(m, ok),
    ensures
        carries_only(spec_deliver_ready(m).0, ok),
        forall|j: int|
            0 <= j < spec_deliver_ready(m).1.len() ==> ok(#[trigger] spec_deliver_ready(m).1[j]),
        never_truncates(spec_deliver_ready(m).0) == never_truncates(m),
        never_corrupts(spec_deliver_ready(m).0) == never_corrupts(m),
{
    lemma_ready_count(m.in_flight, m.now);
    let k = ready_count(m.in_flight, m.now) as int;
    let rest = m.in_flight.skip(k);
    assert forall|i: int| 0 <= i < rest.len() implies ok(#[trigger] rest[i].2) by {
        assert(rest[i] == m.in_flight[i + k]);
    }
    let (after, out) = spec_deliver_ready(m);
    assert(after.script == m.script && after.profile == m.profile);
    assert forall|j: int| 0 <= j < out.len() implies ok(#[trigger] out[j]) by {
        assert(out[j] == m.in_flight[j].2);
    }
}

/// A scripted fault that cuts a datagram short.
pub open spec fn cuts(f: ScriptedFault) -> bool {
    f is Truncate
}

/// A channel that never cuts a datagram short: truncation is off, and no
/// rule of its script asks for it. It may still lose, duplicate, delay
/// and reorder datagrams, and flip one bit of one.
pub open spec fn never_truncates(m: ChannelModel) -> bool {
    &&& m.profile.truncation == 0
    &&& forall|i: int| 0 <= i < m.script.len() ==> !cuts(#[trigger] m.script[i].1)
}

proof fn lemma_rules_for_uncut(script: Seq<(u64, ScriptedFault)>, index: u64)
    requires
        forall|i: int| 0 <= i < script.len() ==> !cuts(#[trigger] script[i].1),
    ensures
        forall|k: int|
            0 <= k < rules_for(script, index).len() ==> !cuts(#[trigger] rules_for(script, index)[k]),
    decreases script.len(),
{
    if script.len() > 0 {
        let d = script.drop_last();
        assert forall|i: int| 0 <= i < d.len() implies !cuts(#[trigger] d[i].1) by {
            assert(d[i] == script[i]);
        }
        lemma_rules_for_uncut(d, index);
        let r = rules_for(script, index);
        let rd = rules_for(d, index);
        assert forall|k: int| 0 <= k < r.len() implies !cuts(#[trigger] r[k]) by {
            if k < rd.len() {
                assert(r[k] == rd[k]);
            } else {
                assert(r[k] == script.last().1);
                assert(script.last() == script[script.len() - 1]);
            }
        }
    }
}

proof fn lemma_no_cut_rules(rules: Seq<ScriptedFault>)
    requires
        forall|k: int| 0 <= k < rules.len() ==> !cuts(#[trigger] rules[k]),
    ensures
        first_truncate(rules) is None,
    decreases rules.len(),
{
    if rules.len() > 0 {
        let t = rules.skip(1);
        assert forall|k: int| 0 <= k < t.len() implies !cuts(#[trigger] t[k]) by {
            assert(t[k] == rules[k + 1]);
        }
        lemma_no_cut_rules(t);
        assert(!cuts(rules[0]));
    }
}

/// Building a datagram from a frame's encoding with truncation off and
/// none scripted gives the encoding itself or bytes that do not decode,
/// and leaves the queue, profile and script untouched.
proof fn lemma_uncut_emit(m: ChannelModel, f: FrameModel, rules: Seq<ScriptedFault>)
    requires
        m.profile.truncation == 0,
        first_truncate(rules) is None,
        spec_encode(f).len() <= usize::MAX,
    ensures
        ({
            let bytes = spec_emit(m, spec_encode(f), rules).1.1;
            bytes == spec_encode(f) || spec_decode(bytes) is Err
        }),
        spec_emit(m, spec_encode(f), rules).0.in_flight == m.in_flight,
        spec_emit(m, spec_encode(f), rules).0.profile == m.profile,
        spec_emit(m, spec_encode(f), rules).0.script == m.script,
{
    reveal(spec_emit);
    let p = spec_encode(f);
    let (m1, extra) = delay_step(m, rules);
    lemma_corrupt_one_byte(m1, p, rules);
    let (m2, b1) = corrupt_step(m1, p, rules);
    lemma_chance_extremes(m2.rng);
    assert(truncate_step(m2, b1, rules).1 == b1);
    if b1 != p {
        assert(!(b1 =~= p));
        let i = choose|i: int| 0 <= i < b1.len() && b1[i] != p[i];
        assert(b1 =~= p.update(i, b1[i])) by {
            assert forall|k: int| 0 <= k < b1.len() && k != i implies b1[k] == p[k] by {
                if k < i {
                    assert(b1[k] == p[k] || b1[i] == p[i]);
                } else {
                    assert(b1[i] == p[i] || b1[k] == p[k]);
                }
            }
        }
        lemma_one_damaged_byte_is_rejected(f, i, b1[i]);
    }
}

/// On a channel that never cuts a datagram short, sending a frame's
/// encoding that `ok` accepts, when `ok` accepts every datagram that
/// does not decode, keeps every datagram in flight acceptable to `ok`:
/// each copy arrives whole, or with one flipped bit that decoding
/// rejects.
pub proof fn lemma_uncut_send(m: ChannelModel, f: FrameModel, ok: spec_fn(Seq<u8>) -> bool)
    requires
        never_truncates(m),
        carries_only(m, ok),
        ok(spec_encode(f)),
        spec_encode(f).len() <= usize::MAX,
        forall|b: Seq<u8>| spec_decode(b) is Err ==> #[trigger] ok(b),
    ensures
        never_truncates(spec_send(m, spec_encode(f))),
        carries_only(spec_send(m, spec_encode(f)), ok),
{
    let payload = spec_encode(f);
    let index = m.next_datagram_index;
    let rules = rules_for(m.script, index);
    lemma_rules_for_uncut(m.script, index);
    lemma_no_cut_rules(rules);
    let m0 = ChannelModel {
        next_datagram_index: bump(index),
        stats: FaultStats { sent: bump(m.stats.sent), ..m.stats },
        ..m
    };
    let (r1, dropped) = if rules.contains(ScriptedFault::Drop) {
        (m0.rng, true)
    } else {
        draw_chance(m0.rng, m0.profile.loss)
    };
    let m1 = ChannelModel { rng: r1, ..m0 };
    if !dropped {
        let (m2, base) = spec_emit(m1, payload, rules);
        lemma_uncut_emit(m1, f, rules);
        let m3 = spec_enqueue(m2, base);
        lemma_enqueue_carries(m2, base, ok);
        let (r4, dup) = if rules.contains(ScriptedFault::Duplicate) {
            (m3.rng, true)
        } else {
            draw_chance(m3.rng, m3.profile.duplication)
        };
        let m4 = ChannelModel { rng: r4, ..m3 };
        if dup {
            let m5 = ChannelModel {
                stats: FaultStats { duplicated: bump(m4.stats.duplicated), ..m4.stats },
                ..m4
            };
            let (m6, copy) = spec_emit(m5, payload, rules);
            lemma_uncut_emit(m5, f, rules);
            lemma_enqueue_carries(m6, copy, ok);
        }
    }
}

/// A scripted fault that flips a bit.
pub open spec fn flips(f: ScriptedFault) -> bool {
    f is Corrupt
}

/// A channel that never flips a bit: corruption is off, and no rule of
/// its script asks for it. It may still lose, duplicate, delay and
/// reorder datagrams, and cut one short.
pub open spec fn never_corrupts(m: ChannelModel) -> bool {
    &&& m.profile.corruption == 0
    &&& forall|i: int| 0 <= i < m.script.len() ==> !flips(#[trigger] m.script[i].1)
}

/// A channel that damages a datagram at most one way: it never cuts one
/// short, or it never flips a bit.
pub open spec fn damages_one_way(m: ChannelModel) -> bool {
    never_truncates(m) || never_corrupts(m)
}

proof fn lemma_rules_for_unflipped(script: Seq<(u64, ScriptedFault)>, index: u64)
    requires
        forall|i: int| 0 <= i < script.len() ==> !flips(#[trigger] script[i].1),
    ensures
        forall|k: int|
            0 <= k < rules_for(script, index).len() ==> !flips(#[trigger] rules_for(script, index)[k]),
    decreases script.len(),
{
    if script.len() > 0 {
        let d = script.drop_last();
        assert forall|i: int| 0 <= i < d.len() implies !flips(#[trigger] d[i].1) by {
            assert(d[i] == script[i]);
        }
        lemma_rules_for_unflipped(d, index);
        let r = rules_for(script, index);
        let rd = rules_for(d, index);
        assert forall|k: int| 0 <= k < r.len() implies !flips(#[trigger] r[k]) by {
            if k < rd.len() {
                assert(r[k] == rd[k]);
            } else {
                assert(r[k] == script.last().1);
                assert(script.last() == script[script.len() - 1]);
            }
        }
    }
}

proof fn lemma_no_flip_rules(rules: Seq<ScriptedFault>)
    requires
        forall|k: int| 0 <= k < rules.len() ==> !flips(#[trigger] rules[k]),
    ensures
        first_corrupt(rules) is None,
    decreases rules.len(),
{
    if rules.len() > 0 {
        let t = rules.skip(1);
        assert forall|k: int| 0 <= k < t.len() implies !flips(#[trigger] t[k]) by {
            assert(t[k] == rules[k + 1]);
        }
        lemma_no_flip_rules(t);
        assert(!flips(rules[0]));
    }
}

/// Building a datagram with corruption off and none scripted gives a
/// prefix of the payload, the whole of it included, and leaves the
/// queue, profile and script untouched.
proof fn lemma_unflipped_emit(m: ChannelModel, payload: Seq<u8>, rules: Seq<ScriptedFault>)
    requires
        m.profile.corruption == 0,
        first_corrupt(rules) is None,
    ensures
        ({
            let bytes = spec_emit(m, payload, rules).1.1;
            bytes.len() <= payload.len() && bytes == payload.take(bytes.len() as int)
        }),
        spec_emit(m, payload, rules).0.in_flight == m.in_flight,
        spec_emit(m, payload, rules).0.profile == m.profile,
        spec_emit(m, payload, rules).0.script == m.script,
{
    reveal(spec_emit);
    let (m1, extra) = delay_step(m, rules);
    lemma_chance_extremes(m1.rng);
    let (m2, b1) = corrupt_step(m1, payload, rules);
    assert(b1 == payload);
    lemma_truncate_prefix(m2, b1, rules);
    let b2 = truncate_step(m2, b1, rules).1;
    assert(b2 =~= payload.take(b2.len() as int));
}

/// On a channel that never flips a bit, sending a datagram every prefix
/// of which `ok` accepts keeps every datagram in flight acceptable to
/// `ok`: each copy arrives whole or cut short.
pub proof fn lemma_unflipped_send(m: ChannelModel, payload: Seq<u8>, ok: spec_fn(Seq<u8>) -> bool)
    requires
        never_corrupts(m),
        carries_only(m, ok),
        forall|k: int| 0 <= k <= payload.len() ==> ok(#[trigger] payload.take(k)),
    ensures
        never_corrupts(spec_send(m, payload)),
        carries_only(spec_send(m, payload), ok),
{
    let index = m.next_datagram_index;
    let rules = rules_for(m.script, index);
    lemma_rules_for_unflipped(m.script, index);
    lemma_no_flip_rules(rules);
    let m0 = ChannelModel {
        next_datagram_index: bump(index),
        stats: FaultStats { sent: bump(m.stats.sent), ..m.stats },
        ..m
    };
    let (r1, dropped) = if rules.contains(ScriptedFault::Drop) {
        (m0.rng, true)
    } else {
        draw_chance(m0.rng, m0.profile.loss)
    };
    let m1 = ChannelModel { rng: r1, ..m0 };
    if !dropped {
        let (m2, base) = spec_emit(m1, payload, rules);
        lemma_unflipped_emit(m1, payload, rules);
        assert(ok(payload.take(base.1.len() as int)));
        let m3 = spec_enqueue(m2, base);
        lemma_enqueue_carries(m2, base, ok);
        let (r4, dup) = if rules.contains(ScriptedFault::Duplicate) {
            (m3.rng, true)
        } else {
            draw_chance(m3.rng, m3.profile.duplication)
        };
        let m4 = ChannelModel { rng: r4, ..m3 };
        if dup {
            let m5 = ChannelModel {
                stats: FaultStats { duplicated: bump(m4.stats.duplicated), ..m4.stats },
                ..m4
            };
            let (m6, copy) = spec_emit(m5, payload, rules);
            lemma_unflipped_emit(m5, payload, rules);
            assert(ok(payload.take(copy.1.len() as int)));
            lemma_enqueue_carries(m6, copy, ok);
        }
    }
}

} // verus!
