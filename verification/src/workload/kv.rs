//! The key-value service: get / put / delete, their request encoding, and
//! two stores that execute them. `KvStore` is the one the server uses;
//! `ReferenceStore` is a second, independently written implementation of
//! the same three operations, used as a differential oracle. Both are
//! proved against one model, `spec_apply`, over a map from keys to values.

use crate::le::{append, copy_bytes, copy_range, get_u16, lemma_le_roundtrips, put_u16};
use vstd::bytes::*;
use vstd::prelude::*;

verus! {

pub const METHOD_GET: u8 = 0;

pub const METHOD_PUT: u8 = 1;

pub const METHOD_DELETE: u8 = 2;

#[derive(Debug, Clone, PartialEq, Eq)]
pub enum Op {
    Get { key: Vec<u8> },
    Put { key: Vec<u8>, value: Vec<u8> },
    Delete { key: Vec<u8> },
}

/// An operation as plain values.
pub enum OpModel {
    Get { key: Seq<u8> },
    Put { key: Seq<u8>, value: Seq<u8> },
    Delete { key: Seq<u8> },
}

impl View for Op {
    type V = OpModel;

    open spec fn view(&self) -> OpModel {
        match self {
            Op::Get { key } => OpModel::Get { key: key@ },
            Op::Put { key, value } => OpModel::Put { key: key@, value: value@ },
            Op::Delete { key } => OpModel::Delete { key: key@ },
        }
    }
}

pub open spec fn spec_method(op: OpModel) -> u8 {
    match op {
        OpModel::Get { .. } => METHOD_GET,
        OpModel::Put { .. } => METHOD_PUT,
        OpModel::Delete { .. } => METHOD_DELETE,
    }
}

/// A request payload: the key for get and delete; for put, the key's
/// length as two little-endian bytes (truncated to 16 bits), the key,
/// then the value.
pub open spec fn spec_encode_payload(op: OpModel) -> Seq<u8> {
    match op {
        OpModel::Get { key } => key,
        OpModel::Delete { key } => key,
        OpModel::Put { key, value } => spec_u16_to_le_bytes(key.len() as u16) + key + value,
    }
}

/// The operation a request carries; `None` for an unknown method or a
/// put payload too short for its key.
pub open spec fn spec_decode_op(method: u8, payload: Seq<u8>) -> Option<OpModel> {
    if method == METHOD_GET {
        Some(OpModel::Get { key: payload })
    } else if method == METHOD_DELETE {
        Some(OpModel::Delete { key: payload })
    } else if method == METHOD_PUT {
        if payload.len() < 2 {
            None
        } else {
            let n = spec_u16_from_le_bytes(payload.subrange(0, 2)) as int;
            if payload.len() < 2 + n {
                None
            } else {
                Some(OpModel::Put { key: payload.subrange(2, 2 + n), value: payload.skip(2 + n) })
            }
        }
    } else {
        None
    }
}

/// Executing an operation against a store: the store after it and the
/// `(ok, payload)` answer. Get and delete answer `ok = false` for a
/// missing key; put always succeeds.
pub open spec fn spec_apply(store: Map<Seq<u8>, Seq<u8>>, op: OpModel) -> (
    Map<Seq<u8>, Seq<u8>>,
    (bool, Seq<u8>),
) {
    match op {
        OpModel::Get { key } => (
            store,
            if store.contains_key(key) {
                (true, store[key])
            } else {
                (false, Seq::empty())
            },
        ),
        OpModel::Put { key, value } => (store.insert(key, value), (true, Seq::empty())),
        OpModel::Delete { key } => (store.remove(key), (store.contains_key(key), Seq::empty())),
    }
}

/// The key an operation touches.
pub open spec fn op_key(op: OpModel) -> Seq<u8> {
    match op {
        OpModel::Get { key } => key,
        OpModel::Put { key, .. } => key,
        OpModel::Delete { key } => key,
    }
}

/// What a read gives back of a write: a get right after a put of a key
/// answers the value put; a get right after a delete of it answers that
/// the key is missing; and an operation on another key leaves what a get
/// of this one answers as it was. A get changes nothing.
pub proof fn lemma_reads_see_writes(
    store: Map<Seq<u8>, Seq<u8>>,
    key: Seq<u8>,
    value: Seq<u8>,
    other: OpModel,
)
    ensures
        spec_apply(spec_apply(store, OpModel::Put { key, value }).0, OpModel::Get { key }).1 == (
            true,
            value,
        ),
        spec_apply(spec_apply(store, OpModel::Delete { key }).0, OpModel::Get { key }).1 == (
            false,
            Seq::<u8>::empty(),
        ),
        op_key(other) != key ==> spec_apply(spec_apply(store, other).0, OpModel::Get { key }).1
            == spec_apply(store, OpModel::Get { key }).1,
        spec_apply(store, OpModel::Get { key }).0 == store,
{
    if op_key(other) != key {
        match other {
            OpModel::Put { key: k, value: v } => {
                assert(store.insert(k, v).contains_key(key) == store.contains_key(key));
            },
            OpModel::Delete { key: k } => {
                assert(store.remove(k).contains_key(key) == store.contains_key(key));
            },
            OpModel::Get { .. } => {},
        }
    }
}

impl Op {
    pub fn method(&self) -> (m: u8)
        ensures
            m == spec_method(self@),
    {
        match self {
            Op::Get { .. } => METHOD_GET,
            Op::Put { .. } => METHOD_PUT,
            Op::Delete { .. } => METHOD_DELETE,
        }
    }

    /// Encodes this operation's request payload (the method travels
    /// beside it, in the request).
    pub fn encode_payload(&self) -> (out: Vec<u8>)
        ensures
            out@ == spec_encode_payload(self@),
    {
        match self {
            Op::Get { key } => copy_bytes(key.as_slice()),
            Op::Delete { key } => copy_bytes(key.as_slice()),
            Op::Put { key, value } => {
                let mut out: Vec<u8> = Vec::new();
                put_u16(&mut out, key.len() as u16);
                append(&mut out, key.as_slice());
                append(&mut out, value.as_slice());
                out
            },
        }
    }

    pub fn decode(method: u8, payload: &[u8]) -> (r: Option<Op>)
        ensures
            match r {
                Some(op) => spec_decode_op(method, payload@) == Some(op@),
                None => spec_decode_op(method, payload@) is None,
            },
    {
        if method == METHOD_GET {
            Some(Op::Get { key: copy_bytes(payload) })
        } else if method == METHOD_DELETE {
            Some(Op::Delete { key: copy_bytes(payload) })
        } else if method == METHOD_PUT {
            if payload.len() < 2 {
                return None;
            }
            let key_len = get_u16(payload, 0) as usize;
            if payload.len() - 2 < key_len {
                return None;
            }
            let key = copy_range(payload, 2, 2 + key_len);
            let value = copy_range(payload, 2 + key_len, payload.len());
            assert(value@ =~= payload@.skip(2 + key_len));
            Some(Op::Put { key, value })
        } else {
            None
        }
    }

    /// A copy of this operation.
    pub fn duplicate(&self) -> (r: Op)
        ensures
            r@ == self@,
    {
        match self {
            Op::Get { key } => Op::Get { key: copy_bytes(key.as_slice()) },
            Op::Put { key, value } => Op::Put {
                key: copy_bytes(key.as_slice()),
                value: copy_bytes(value.as_slice()),
            },
            Op::Delete { key } => Op::Delete { key: copy_bytes(key.as_slice()) },
        }
    }
}

/// Decoding an operation's own encoding gives it back, for a key of at
/// most `u16::MAX` bytes (a longer key's length does not fit the field).
pub proof fn lemma_op_roundtrip(op: OpModel)
    requires
        op matches OpModel::Put { key, .. } ==> key.len() <= u16::MAX,
    ensures
        spec_decode_op(spec_method(op), spec_encode_payload(op)) == Some(op),
{
    lemma_le_roundtrips();
    if let OpModel::Put { key, value } = op {
        let b = spec_encode_payload(op);
        assert(b.subrange(0, 2) =~= spec_u16_to_le_bytes(key.len() as u16));
        assert(b.subrange(2, 2 + key.len() as int) =~= key);
        assert(b.skip(2 + key.len() as int) =~= value);
    }
}

/// Whether two byte strings are equal.
pub fn same_bytes(a: &[u8], b: &[u8]) -> (r: bool)
    ensures
        r == (a@ == b@),
{
    if a.len() != b.len() {
        return false;
    }
    let mut i: usize = 0;
    while i < a.len()
        invariant
            a@.len() == b@.len(),
            i <= a@.len(),
            forall|j: int| 0 <= j < i ==> a@[j] == b@[j],
        decreases a@.len() - i,
    {
        if a[i] != b[i] {
            return false;
        }
        i = i + 1;
    }
    assert(a@ =~= b@);
    true
}

/// Key-value pairs as plain values.
pub open spec fn entry_views(v: Seq<(Vec<u8>, Vec<u8>)>) -> Seq<(Seq<u8>, Seq<u8>)> {
    v.map_values(|e: (Vec<u8>, Vec<u8>)| (e.0@, e.1@))
}

/// Whether some pair has this key.
pub open spec fn has_key(s: Seq<(Seq<u8>, Seq<u8>)>, k: Seq<u8>) -> bool {
    exists|i: int| 0 <= i < s.len() && #[trigger] s[i].0 == k
}

/// No key occurs twice.
pub open spec fn keys_distinct(s: Seq<(Seq<u8>, Seq<u8>)>) -> bool {
    forall|i: int, j: int| 0 <= i < j < s.len() ==> #[trigger] s[i].0 != #[trigger] s[j].0
}

/// The map a list of pairs with distinct keys stands for.
pub open spec fn entries_map(s: Seq<(Seq<u8>, Seq<u8>)>) -> Map<Seq<u8>, Seq<u8>> {
    Map::new(
        |k: Seq<u8>| has_key(s, k),
        |k: Seq<u8>| s[choose|i: int| 0 <= i < s.len() && #[trigger] s[i].0 == k].1,
    )
}

/// With distinct keys, the map holds each pair.
pub proof fn lemma_entries_at(s: Seq<(Seq<u8>, Seq<u8>)>, i: int)
    requires
        keys_distinct(s),
        0 <= i < s.len(),
    ensures
        entries_map(s).contains_key(s[i].0),
        entries_map(s)[s[i].0] == s[i].1,
{
    let k = s[i].0;
    assert(has_key(s, k));
    let j = choose|j: int| 0 <= j < s.len() && #[trigger] s[j].0 == k;
    if j != i {
        if j < i {
            assert(s[j].0 != s[i].0);
        } else {
            assert(s[i].0 != s[j].0);
        }
    }
}

/// Changing the value of the pair at `i` changes the map at its key.
proof fn lemma_entries_update(s: Seq<(Seq<u8>, Seq<u8>)>, i: int, v: Seq<u8>)
    requires
        keys_distinct(s),
        0 <= i < s.len(),
    ensures
        keys_distinct(s.update(i, (s[i].0, v))),
        entries_map(s.update(i, (s[i].0, v))) == entries_map(s).insert(s[i].0, v),
{
    let t = s.update(i, (s[i].0, v));
    assert(keys_distinct(t)) by {
        assert forall|a: int, b: int| 0 <= a < b < t.len() implies #[trigger] t[a].0
            != #[trigger] t[b].0 by {
            assert(s[a].0 != s[b].0);
        }
    }
    assert forall|k: Seq<u8>| #[trigger] has_key(t, k) == has_key(s, k) by {
        if has_key(t, k) {
            let j = choose|j: int| 0 <= j < t.len() && #[trigger] t[j].0 == k;
            assert(s[j].0 == k);
        }
        if has_key(s, k) {
            let j = choose|j: int| 0 <= j < s.len() && #[trigger] s[j].0 == k;
            assert(t[j].0 == k);
        }
    }
    assert forall|k: Seq<u8>| #[trigger] entries_map(t).contains_key(k) implies entries_map(t)[k]
        == entries_map(s).insert(s[i].0, v)[k] by {
        let j = choose|j: int| 0 <= j < t.len() && #[trigger] t[j].0 == k;
        lemma_entries_at(t, j);
        lemma_entries_at(s, j);
    }
    assert(entries_map(t) =~= entries_map(s).insert(s[i].0, v));
}

/// Appending a pair with a new key adds it to the map.
proof fn lemma_entries_push(s: Seq<(Seq<u8>, Seq<u8>)>, k: Seq<u8>, v: Seq<u8>)
    requires
        keys_distinct(s),
        !has_key(s, k),
    ensures
        keys_distinct(s.push((k, v))),
        entries_map(s.push((k, v))) == entries_map(s).insert(k, v),
{
    let t = s.push((k, v));
    assert(keys_distinct(t)) by {
        assert forall|a: int, b: int| 0 <= a < b < t.len() implies #[trigger] t[a].0
            != #[trigger] t[b].0 by {
            if b == s.len() {
                assert(s[a].0 != k);
            } else {
                assert(s[a].0 != s[b].0);
            }
        }
    }
    assert forall|x: Seq<u8>| #[trigger] has_key(t, x) == (has_key(s, x) || x == k) by {
        if has_key(t, x) {
            let j = choose|j: int| 0 <= j < t.len() && #[trigger] t[j].0 == x;
            if j < s.len() {
                assert(s[j].0 == x);
            }
        }
        if has_key(s, x) {
            let j = choose|j: int| 0 <= j < s.len() && #[trigger] s[j].0 == x;
            assert(t[j].0 == x);
        }
        if x == k {
            assert(t[s.len() as int].0 == x);
        }
    }
    assert forall|x: Seq<u8>| #[trigger] entries_map(t).contains_key(x) implies entries_map(t)[x]
        == entries_map(s).insert(k, v)[x] by {
        let j = choose|j: int| 0 <= j < t.len() && #[trigger] t[j].0 == x;
        lemma_entries_at(t, j);
        if j < s.len() {
            lemma_entries_at(s, j);
        }
    }
    assert(entries_map(t) =~= entries_map(s).insert(k, v));
}

/// Removing the pair at `i` removes its key from the map.
proof fn lemma_entries_remove(s: Seq<(Seq<u8>, Seq<u8>)>, i: int)
    requires
        keys_distinct(s),
        0 <= i < s.len(),
    ensures
        keys_distinct(s.remove(i)),
        entries_map(s.remove(i)) == entries_map(s).remove(s[i].0),
{
    let t = s.remove(i);
    let k = s[i].0;
    assert(keys_distinct(t)) by {
        assert forall|a: int, b: int| 0 <= a < b < t.len() implies #[trigger] t[a].0
            != #[trigger] t[b].0 by {
            let aa = if a < i { a } else { a + 1 };
            let bb = if b < i { b } else { b + 1 };
            assert(s[aa].0 != s[bb].0);
        }
    }
    assert forall|x: Seq<u8>| #[trigger] has_key(t, x) == (has_key(s, x) && x != k) by {
        if has_key(t, x) {
            let j = choose|j: int| 0 <= j < t.len() && #[trigger] t[j].0 == x;
            let jj = if j < i { j } else { j + 1 };
            assert(s[jj].0 == x);
            if jj < i {
                assert(s[jj].0 != s[i].0);
            } else {
                assert(s[i].0 != s[jj].0);
            }
        }
        if has_key(s, x) && x != k {
            let j = choose|j: int| 0 <= j < s.len() && #[trigger] s[j].0 == x;
            if j < i {
                assert(t[j].0 == x);
            } else {
                assert(t[j - 1].0 == x);
            }
        }
    }
    assert forall|x: Seq<u8>| #[trigger] entries_map(t).contains_key(x) implies entries_map(t)[x]
        == entries_map(s).remove(k)[x] by {
        let j = choose|j: int| 0 <= j < t.len() && #[trigger] t[j].0 == x;
        let jj = if j < i { j } else { j + 1 };
        lemma_entries_at(t, j);
        lemma_entries_at(s, jj);
    }
    assert(entries_map(t) =~= entries_map(s).remove(k));
}

/// The server's store: key-value pairs with distinct keys.
#[derive(Debug, Default)]
pub struct KvStore {
    entries: Vec<(Vec<u8>, Vec<u8>)>,
}

impl View for KvStore {
    type V = Map<Seq<u8>, Seq<u8>>;

    closed spec fn view(&self) -> Map<Seq<u8>, Seq<u8>> {
        entries_map(entry_views(self.entries@))
    }
}

impl KvStore {
    #[verifier::type_invariant]
    spec fn keys_unique(&self) -> bool {
        keys_distinct(entry_views(self.entries@))
    }

    /// An empty store.
    pub fn new() -> (s: KvStore)
        ensures
            s@ == Map::<Seq<u8>, Seq<u8>>::empty(),
    {
        let s = KvStore { entries: Vec::new() };
        assert(s@ =~= Map::<Seq<u8>, Seq<u8>>::empty());
        s
    }

    /// The position of `key`, if present.
    fn find(&self, key: &[u8]) -> (r: Option<usize>)
        ensures
            match r {
                Some(i) => i < self.entries@.len() && entry_views(self.entries@)[i as int].0
                    == key@,
                None => !has_key(entry_views(self.entries@), key@),
            },
    {
        let ghost s = entry_views(self.entries@);
        let mut i: usize = 0;
        while i < self.entries.len()
            invariant
                s == entry_views(self.entries@),
                i <= self.entries@.len(),
                forall|j: int| 0 <= j < i ==> #[trigger] s[j].0 != key@,
            decreases self.entries@.len() - i,
        {
            if same_bytes(self.entries[i].0.as_slice(), key) {
                return Some(i);
            }
            i = i + 1;
        }
        assert(!has_key(s, key@)) by {
            if has_key(s, key@) {
                let j = choose|j: int| 0 <= j < s.len() && #[trigger] s[j].0 == key@;
                assert(s[j].0 != key@);
            }
        }
        None
    }

    /// The value stored under `key`.
    pub fn get(&self, key: &[u8]) -> (r: Option<Vec<u8>>)
        ensures
            match r {
                Some(v) => self@.contains_key(key@) && v@ == self@[key@],
                None => !self@.contains_key(key@),
            },
    {
        proof {
            use_type_invariant(self);
        }
        match self.find(key) {
            Some(i) => {
                proof {
                    lemma_entries_at(entry_views(self.entries@), i as int);
                }
                let v = &self.entries[i].1;
                Some(copy_bytes(v.as_slice()))
            },
            None => None,
        }
    }

    /// Stores `value` under `key`, replacing any earlier value.
    pub fn insert(&mut self, key: Vec<u8>, value: Vec<u8>)
        ensures
            final(self)@ == old(self)@.insert(key@, value@),
    {
        proof {
            use_type_invariant(&*self);
        }
        let ghost s = entry_views(self.entries@);
        match self.find(key.as_slice()) {
            Some(i) => {
                proof {
                    lemma_entries_update(s, i as int, value@);
                }
                let ghost vv = value@;
                let mut entries: Vec<(Vec<u8>, Vec<u8>)> = Vec::new();
                std::mem::swap(&mut entries, &mut self.entries);
                entries.set(i, (key, value));
                assert(entry_views(entries@) =~= s.update(i as int, (s[i as int].0, vv)));
                self.entries = entries;
            },
            None => {
                proof {
                    lemma_entries_push(s, key@, value@);
                }
                let ghost kv = (key@, value@);
                let mut entries: Vec<(Vec<u8>, Vec<u8>)> = Vec::new();
                std::mem::swap(&mut entries, &mut self.entries);
                entries.push((key, value));
                assert(entry_views(entries@) =~= s.push(kv));
                self.entries = entries;
            },
        }
    }

    /// Removes `key`; whether it was present.
    pub fn remove(&mut self, key: &[u8]) -> (existed: bool)
        ensures
            existed == old(self)@.contains_key(key@),
            final(self)@ == old(self)@.remove(key@),
    {
        proof {
            use_type_invariant(&*self);
        }
        let ghost s = entry_views(self.entries@);
        match self.find(key) {
            Some(i) => {
                proof {
                    lemma_entries_remove(s, i as int);
                    lemma_entries_at(s, i as int);
                }
                let mut entries: Vec<(Vec<u8>, Vec<u8>)> = Vec::new();
                std::mem::swap(&mut entries, &mut self.entries);
                let _removed = entries.remove(i);
                assert(entry_views(entries@) =~= s.remove(i as int));
                self.entries = entries;
                true
            },
            None => {
                assert(self@ =~= old(self)@.remove(key@));
                false
            },
        }
    }
}

/// A second, independently written store for the same three operations,
/// used only as a differential oracle: an association list that a put
/// rebuilds without the key and then appends to.
#[derive(Debug, Default)]
pub struct ReferenceStore {
    entries: Vec<(Vec<u8>, Vec<u8>)>,
}

impl View for ReferenceStore {
    type V = Map<Seq<u8>, Seq<u8>>;

    closed spec fn view(&self) -> Map<Seq<u8>, Seq<u8>> {
        entries_map(entry_views(self.entries@))
    }
}

impl ReferenceStore {
    #[verifier::type_invariant]
    spec fn keys_unique(&self) -> bool {
        keys_distinct(entry_views(self.entries@))
    }

    pub fn new() -> (s: ReferenceStore)
        ensures
            s@ == Map::<Seq<u8>, Seq<u8>>::empty(),
    {
        let s = ReferenceStore { entries: Vec::new() };
        assert(s@ =~= Map::<Seq<u8>, Seq<u8>>::empty());
        s
    }

    /// Keeps every pair whose key is not `key`.
    fn retain_other_keys(&mut self, key: &[u8])
        ensures
            final(self)@ == old(self)@.remove(key@),
            final(self).entries@.len() + (if old(self)@.contains_key(key@) { 1int } else { 0 })
                == old(self).entries@.len(),
    {
        proof {
            use_type_invariant(&*self);
        }
        let ghost s = entry_views(self.entries@);
        let mut kept: Vec<(Vec<u8>, Vec<u8>)> = Vec::new();
        let mut i: usize = 0;
        proof {
            assert(s.take(0) =~= Seq::<(Seq<u8>, Seq<u8>)>::empty());
            assert(entries_map(entry_views(kept@)) =~= entries_map(s.take(0)).remove(key@));
        }
        while i < self.entries.len()
            invariant
                s == entry_views(self.entries@),
                keys_distinct(s),
                i <= s.len(),
                keys_distinct(entry_views(kept@)),
                entries_map(entry_views(kept@)) == entries_map(s.take(i as int)).remove(key@),
                kept@.len() + (if has_key(s.take(i as int), key@) { 1int } else { 0 }) == i,
            decreases s.len() - i,
        {
            let ghost t = s.take(i as int);
            let ghost t1 = s.take(i + 1);
            proof {
                assert(t1 =~= t.push(s[i as int]));
                assert(!has_key(t, s[i as int].0)) by {
                    if has_key(t, s[i as int].0) {
                        let j = choose|j: int| 0 <= j < t.len() && #[trigger] t[j].0 == s[i as int].0;
                        assert(s[j].0 != s[i as int].0);
                    }
                }
                assert(keys_distinct(t)) by {
                    assert forall|a: int, b: int| 0 <= a < b < t.len() implies #[trigger] t[a].0
                        != #[trigger] t[b].0 by {
                        assert(s[a].0 != s[b].0);
                    }
                }
                lemma_entries_push(t, s[i as int].0, s[i as int].1);
                assert forall|x: Seq<u8>| #[trigger] has_key(t1, x) == (has_key(t, x) || x == s[i as int].0) by {
                    assert(entries_map(t1).contains_key(x) == has_key(t1, x));
                    assert(entries_map(t).contains_key(x) == has_key(t, x));
                }
            }
            if !same_bytes(self.entries[i].0.as_slice(), key) {
                let ghost kv = kept@;
                let k = copy_bytes(self.entries[i].0.as_slice());
                let v = copy_bytes(self.entries[i].1.as_slice());
                proof {
                    assert(!has_key(entry_views(kv), s[i as int].0)) by {
                        assert(!entries_map(t).remove(key@).contains_key(s[i as int].0));
                        assert(entries_map(entry_views(kv)).contains_key(s[i as int].0) == has_key(
                            entry_views(kv),
                            s[i as int].0,
                        ));
                    }
                    lemma_entries_push(entry_views(kv), k@, v@);
                }
                kept.push((k, v));
                proof {
                    assert(entry_views(kept@) =~= entry_views(kv).push((k@, v@)));
                    assert(entries_map(entry_views(kept@)) =~= entries_map(t1).remove(key@));
                }
            } else {
                proof {
                    assert(entries_map(entry_views(kept@)) =~= entries_map(t1).remove(key@));
                    assert(has_key(t1, key@));
                }
            }
            i = i + 1;
        }
        proof {
            assert(s.take(i as int) =~= s);
            assert(entries_map(s).contains_key(key@) == has_key(s, key@));
        }
        self.entries = kept;
    }

    /// Executes `op`: `(ok, payload)` as in `spec_apply`.
    pub fn apply(&mut self, op: &Op) -> (r: (bool, Vec<u8>))
        ensures
            (final(self)@, (r.0, r.1@)) == spec_apply(old(self)@, op@),
    {
        proof {
            use_type_invariant(&*self);
        }
        match op {
            Op::Get { key } => {
                let ghost s = entry_views(self.entries@);
                let mut i: usize = self.entries.len();
                while i > 0
                    invariant
                        s == entry_views(self.entries@),
                        op@ == (OpModel::Get { key: key@ }),
                        keys_distinct(s),
                        i <= s.len(),
                        forall|j: int| i <= j < s.len() ==> #[trigger] s[j].0 != key@,
                    decreases i,
                {
                    i = i - 1;
                    assert(s[i as int] == (self.entries@[i as int].0@, self.entries@[i as int].1@));
                    if same_bytes(self.entries[i].0.as_slice(), key.as_slice()) {
                        proof {
                            lemma_entries_at(s, i as int);
                        }
                        return (true, copy_bytes(self.entries[i].1.as_slice()));
                    }
                }
                assert(!has_key(s, key@)) by {
                    if has_key(s, key@) {
                        let j = choose|j: int| 0 <= j < s.len() && #[trigger] s[j].0 == key@;
                        assert(s[j].0 != key@);
                    }
                }
                (false, Vec::new())
            },
            Op::Put { key, value } => {
                self.retain_other_keys(key.as_slice());
                proof {
                    use_type_invariant(&*self);
                    let s = entry_views(self.entries@);
                    assert(!has_key(s, key@)) by {
                        assert(entries_map(s).contains_key(key@) == has_key(s, key@));
                    }
                    lemma_entries_push(s, key@, value@);
                }
                let k = copy_bytes(key.as_slice());
                let v = copy_bytes(value.as_slice());
                let ghost s = entry_views(self.entries@);
                let mut entries: Vec<(Vec<u8>, Vec<u8>)> = Vec::new();
                std::mem::swap(&mut entries, &mut self.entries);
                entries.push((k, v));
                assert(entry_views(entries@) =~= s.push((key@, value@)));
                self.entries = entries;
                assert(self@ =~= old(self)@.insert(key@, value@));
                (true, Vec::new())
            },
            Op::Delete { key } => {
                let before = self.entries.len();
                self.retain_other_keys(key.as_slice());
                (self.entries.len() != before, Vec::new())
            },
        }
    }
}

/// Executes `op` against the server's store: `(ok, payload)` as in
/// `spec_apply`.
pub fn apply(store: &mut KvStore, op: &Op) -> (r: (bool, Vec<u8>))
    ensures
        (final(store)@, (r.0, r.1@)) == spec_apply(old(store)@, op@),
{
    match op {
        Op::Get { key } => match store.get(key.as_slice()) {
            Some(v) => (true, v),
            None => (false, Vec::new()),
        },
        Op::Put { key, value } => {
            store.insert(
                copy_bytes(key.as_slice()),
                copy_bytes(value.as_slice()),
            );
            (true, Vec::new())
        },
        Op::Delete { key } => {
            let existed = store.remove(key.as_slice());
            (existed, Vec::new())
        },
    }
}

} // verus!
