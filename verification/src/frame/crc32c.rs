//! CRC-32C (Castagnoli), bit-reflected, computed one bit at a time.

use vstd::prelude::*;

verus! {

/// The Castagnoli polynomial 0x1EDC6F41, bit-reflected.
pub const POLY: u32 = 0x82F6_3B78;

/// One bit of the reflected CRC shift register.
pub open spec fn crc_shift(c: u32) -> u32 {
    if c & 1 != 0 {
        (c >> 1) ^ POLY
    } else {
        c >> 1
    }
}

/// `n` shifts of the register.
pub open spec fn crc_shifts(c: u32, n: nat) -> u32
    decreases n,
{
    if n == 0 {
        c
    } else {
        crc_shift(crc_shifts(c, (n - 1) as nat))
    }
}

/// The register after absorbing one byte.
pub open spec fn crc_absorb(c: u32, b: u8) -> u32 {
    crc_shifts(c ^ (b as u32), 8)
}

/// The register after absorbing `data`, starting from all ones.
pub open spec fn crc_register(data: Seq<u8>) -> u32
    decreases data.len(),
{
    if data.len() == 0 {
        0xFFFF_FFFFu32
    } else {
        crc_absorb(crc_register(data.drop_last()), data.last())
    }
}

/// The CRC-32C of `data`: the final register, inverted.
pub open spec fn spec_crc32c(data: Seq<u8>) -> u32 {
    !crc_register(data)
}

/// The shift register is linear, and loses no nonzero state: the
/// polynomial's top bit keeps a shifted-out one from cancelling.
proof fn lemma_shift_linear(u: u32, v: u32)
    ensures
        crc_shift(u) ^ crc_shift(v) == crc_shift(u ^ v),
        u != 0 ==> crc_shift(u) != 0,
{
    assert((if u & 1 != 0 { (u >> 1) ^ 0x82F6_3B78u32 } else { u >> 1 }) ^ (if v & 1 != 0 {
        (v >> 1) ^ 0x82F6_3B78u32
    } else {
        v >> 1
    }) == (if (u ^ v) & 1 != 0 { ((u ^ v) >> 1) ^ 0x82F6_3B78u32 } else { (u ^ v) >> 1 }))
        by (bit_vector);
    assert(u != 0 ==> (if u & 1 != 0 { (u >> 1) ^ 0x82F6_3B78u32 } else { u >> 1 }) != 0)
        by (bit_vector);
}

proof fn lemma_shifts_linear(u: u32, v: u32, n: nat)
    ensures
        crc_shifts(u, n) ^ crc_shifts(v, n) == crc_shifts(u ^ v, n),
        u != 0 ==> crc_shifts(u, n) != 0,
    decreases n,
{
    if n > 0 {
        lemma_shifts_linear(u, v, (n - 1) as nat);
        lemma_shift_linear(crc_shifts(u, (n - 1) as nat), crc_shifts(v, (n - 1) as nat));
        lemma_shift_linear(crc_shifts(u ^ v, (n - 1) as nat), 0);
    }
}

/// The trailer's four bytes: the checksum, little-endian.
pub open spec fn crc_bytes(c: u32) -> Seq<u8> {
    seq![
        (c & 0xff) as u8,
        ((c >> 8u32) & 0xff) as u8,
        ((c >> 16u32) & 0xff) as u8,
        ((c >> 24u32) & 0xff) as u8,
    ]
}

/// The checksum that four trailer bytes hold, little-endian.
pub open spec fn crc_of(t: Seq<u8>) -> u32 {
    (t[0] as u32) | ((t[1] as u32) << 8u32) | ((t[2] as u32) << 16u32) | ((t[3] as u32) << 24u32)
}

/// Trailer bytes and checksums correspond one to one.
pub proof fn lemma_crc_bytes(c: u32, t: Seq<u8>)
    requires
        t.len() == 4,
    ensures
        crc_bytes(c).len() == 4,
        crc_of(crc_bytes(c)) == c,
        crc_bytes(crc_of(t)) == t,
{
    let (t0, t1, t2, t3) = (t[0], t[1], t[2], t[3]);
    assert(((c & 0xff) as u8 as u32) | ((((c >> 8u32) & 0xff) as u8 as u32) << 8u32) | ((((c
        >> 16u32) & 0xff) as u8 as u32) << 16u32) | ((((c >> 24u32) & 0xff) as u8 as u32) << 24u32)
        == c) by (bit_vector);
    let x = crc_of(t);
    assert(x == (t0 as u32) | ((t1 as u32) << 8u32) | ((t2 as u32) << 16u32) | ((t3 as u32) << 24u32));
    assert({
        &&& (x & 0xff) as u8 == t0
        &&& ((x >> 8u32) & 0xff) as u8 == t1
        &&& ((x >> 16u32) & 0xff) as u8 == t2
        &&& ((x >> 24u32) & 0xff) as u8 == t3
    }) by (bit_vector)
        requires
            x == (t0 as u32) | ((t1 as u32) << 8u32) | ((t2 as u32) << 16u32) | ((t3 as u32) << 24u32),
    ;
    assert(crc_bytes(x) =~= t);
}

/// Shifts compose.
proof fn lemma_shifts_add(x: u32, a: nat, b: nat)
    ensures
        crc_shifts(crc_shifts(x, a), b) == crc_shifts(x, a + b),
    decreases b,
{
    if b > 0 {
        lemma_shifts_add(x, a, (b - 1) as nat);
        assert((a + b - 1) as nat == a + (b - 1) as nat);
    }
}

/// Shifting out `n` zero bits involves no feedback.
proof fn lemma_shifts_zero_low(v: u32, n: u32)
    requires
        n <= 32,
        n < 32 ==> v & (((1u32 << n) - 1) as u32) == 0,
        n == 32 ==> v == 0,
    ensures
        crc_shifts(v, n as nat) == if n == 32 {
            0u32
        } else {
            v >> n
        },
    decreases n,
{
    if n == 0 {
        assert(v >> 0u32 == v) by (bit_vector);
    } else {
        let m = (n - 1) as u32;
        assert(m < 32 ==> v & (((1u32 << m) - 1) as u32) == 0) by (bit_vector)
            requires
                n <= 32,
                m == n - 1,
                n < 32 ==> v & (((1u32 << n) - 1) as u32) == 0,
                n == 32 ==> v == 0,
        ;
        lemma_shifts_zero_low(v, m);
        assert((m as nat + 1) as nat == n as nat);
        let w = crc_shifts(v, m as nat);
        assert(w == v >> m);
        assert(crc_shifts(v, n as nat) == crc_shift(w));
        if n == 32 {
            assert(v >> m == 0) by (bit_vector)
                requires
                    v == 0,
            ;
            assert(crc_shift(0) == 0) by {
                assert(0u32 & 1 == 0 && 0u32 >> 1u32 == 0) by (bit_vector);
            }
        } else {
            assert((v >> m) & 1 == 0 && (v >> m) >> 1u32 == v >> n) by (bit_vector)
                requires
                    n < 32,
                    m == n - 1,
                    v & (((1u32 << n) - 1) as u32) == 0,
            ;
        }
    }
}

/// The register difference after one more byte, when the inputs differ
/// by `x` before it and by `b` in it.
proof fn lemma_absorb_difference(ra: u32, rb: u32, ba: u8, bb: u8)
    ensures
        crc_absorb(ra, ba) ^ crc_absorb(rb, bb) == crc_shifts((ra ^ rb) ^ ((ba ^ bb) as u32), 8),
{
    lemma_shifts_linear(ra ^ (ba as u32), rb ^ (bb as u32), 8);
    assert(((ra ^ (ba as u32)) ^ (rb ^ (bb as u32))) == ((ra ^ rb) ^ ((ba ^ bb) as u32))) by (bit_vector);
}

/// One more byte into a register that has taken `k` bits of a word:
/// the same as taking the byte's bits as the next eight of the word.
proof fn lemma_word_step(w: u32, d: u8, k: u32)
    requires
        k == 8 || k == 16 || k == 24,
    ensures
        crc_shifts(crc_shifts(w, k as nat) ^ (d as u32), 8) == crc_shifts(
            w ^ ((d as u32) << k),
            (k + 8) as nat,
        ),
{
    let v = (d as u32) << k;
    lemma_shifts_add(w ^ v, k as nat, 8);
    lemma_shifts_linear(w, v, k as nat);
    assert(v & (((1u32 << k) - 1) as u32) == 0 && v >> k == d as u32) by (bit_vector)
        requires
            k == 8 || k == 16 || k == 24,
            v == (d as u32) << k,
    ;
    lemma_shifts_zero_low(v, k);
    assert((k as nat + 8) as nat == (k + 8) as nat);
}

/// Four bytes taken into a register are their little-endian word taken
/// at once.
pub proof fn lemma_absorb_word(p: Seq<u8>, t: Seq<u8>)
    requires
        t.len() == 4,
    ensures
        crc_register(p + t) == crc_shifts(crc_register(p) ^ crc_of(t), 32),
{
    let r = crc_register(p);
    let (t0, t1, t2, t3) = (t[0], t[1], t[2], t[3]);
    assert((p + t).drop_last() =~= p + t.take(3));
    assert((p + t.take(3)).drop_last() =~= p + t.take(2));
    assert((p + t.take(2)).drop_last() =~= p + t.take(1));
    assert((p + t.take(1)).drop_last() =~= p);
    let w0 = r ^ (t0 as u32);
    let r1 = crc_register(p + t.take(1));
    assert(r1 == crc_shifts(w0, 8));
    let r2 = crc_register(p + t.take(2));
    assert(r2 == crc_shifts(r1 ^ (t1 as u32), 8));
    lemma_word_step(w0, t1, 8);
    let w1 = w0 ^ ((t1 as u32) << 8u32);
    assert(r2 == crc_shifts(w1, 16));
    let r3 = crc_register(p + t.take(3));
    assert(r3 == crc_shifts(r2 ^ (t2 as u32), 8));
    lemma_word_step(w1, t2, 16);
    let w2 = w1 ^ ((t2 as u32) << 16u32);
    assert(r3 == crc_shifts(w2, 24));
    assert(crc_register(p + t) == crc_shifts(r3 ^ (t3 as u32), 8));
    lemma_word_step(w2, t3, 24);
    let w3 = w2 ^ ((t3 as u32) << 24u32);
    assert(w3 == r ^ ((t0 as u32) | ((t1 as u32) << 8u32) | ((t2 as u32) << 16u32) | ((t3 as u32)
        << 24u32))) by (bit_vector)
        requires
            w0 == r ^ (t0 as u32),
            w1 == w0 ^ ((t1 as u32) << 8u32),
            w2 == w1 ^ ((t2 as u32) << 16u32),
            w3 == w2 ^ ((t3 as u32) << 24u32),
    ;
}

/// Whatever `x` is, `x` followed by its checksum's trailer leaves one and
/// the same register.
pub proof fn lemma_residue(x: Seq<u8>, y: Seq<u8>)
    ensures
        crc_register(x + crc_bytes(spec_crc32c(x))) == crc_register(y + crc_bytes(spec_crc32c(y))),
{
    let rx = crc_register(x);
    let ry = crc_register(y);
    lemma_crc_bytes(spec_crc32c(x), crc_bytes(spec_crc32c(x)));
    lemma_crc_bytes(spec_crc32c(y), crc_bytes(spec_crc32c(y)));
    lemma_absorb_word(x, crc_bytes(spec_crc32c(x)));
    lemma_absorb_word(y, crc_bytes(spec_crc32c(y)));
    assert(rx ^ !rx == ry ^ !ry) by (bit_vector);
}

/// Inputs that agree but in four consecutive bytes, where they differ,
/// leave different registers: the difference is the shifted difference
/// of the two words, and shifting loses no nonzero state.
pub proof fn lemma_crc_detects_four_bytes(p: Seq<u8>, a: Seq<u8>, b: Seq<u8>, q: Seq<u8>)
    requires
        a.len() == 4,
        b.len() == 4,
        a != b,
    ensures
        crc_register(p + a + q) != crc_register(p + b + q),
    decreases q.len(),
{
    if q.len() == 0 {
        assert(p + a + q =~= p + a);
        assert(p + b + q =~= p + b);
        lemma_absorb_word(p, a);
        lemma_absorb_word(p, b);
        let r = crc_register(p);
        lemma_crc_bytes(0, a);
        lemma_crc_bytes(0, b);
        assert(crc_of(a) != crc_of(b)) by {
            if crc_of(a) == crc_of(b) {
                assert(crc_bytes(crc_of(a)) == crc_bytes(crc_of(b)));
            }
        }
        let u = r ^ crc_of(a);
        let v = r ^ crc_of(b);
        lemma_shifts_linear(u, v, 32);
        let ca = crc_of(a);
        let cb = crc_of(b);
        assert(u ^ v != 0) by (bit_vector)
            requires
                u == r ^ ca,
                v == r ^ cb,
                ca != cb,
        ;
        lemma_shifts_linear(u ^ v, 0, 32);
        let su = crc_shifts(u, 32);
        let sv = crc_shifts(v, 32);
        assert(su != sv) by (bit_vector)
            requires
                su ^ sv != 0,
        ;
    } else {
        let q0 = q.drop_last();
        lemma_crc_detects_four_bytes(p, a, b, q0);
        assert((p + a + q).drop_last() =~= p + a + q0);
        assert((p + b + q).drop_last() =~= p + b + q0);
        let ra = crc_register(p + a + q0);
        let rb = crc_register(p + b + q0);
        let x = q.last();
        lemma_absorb_difference(ra, rb, x, x);
        let dd = (ra ^ rb) ^ ((x ^ x) as u32);
        assert(dd != 0) by (bit_vector)
            requires
                dd == (ra ^ rb) ^ ((x ^ x) as u32),
                ra != rb,
        ;
        lemma_shifts_linear(dd, 0, 8);
        let ca = crc_register(p + a + q);
        let cb = crc_register(p + b + q);
        assert(ca != cb) by (bit_vector)
            requires
                ca ^ cb != 0,
        ;
    }
}

/// Registers that differ stay different as the same bytes follow.
proof fn lemma_suffix_keeps_difference(x: Seq<u8>, y: Seq<u8>, q: Seq<u8>)
    requires
        crc_register(x) != crc_register(y),
    ensures
        crc_register(x + q) != crc_register(y + q),
    decreases q.len(),
{
    if q.len() == 0 {
        assert(x + q =~= x);
        assert(y + q =~= y);
    } else {
        let q0 = q.drop_last();
        lemma_suffix_keeps_difference(x, y, q0);
        assert((x + q).drop_last() =~= x + q0);
        assert((y + q).drop_last() =~= y + q0);
        let ra = crc_register(x + q0);
        let rb = crc_register(y + q0);
        let c = q.last();
        lemma_absorb_difference(ra, rb, c, c);
        let dd = (ra ^ rb) ^ ((c ^ c) as u32);
        assert(dd != 0) by (bit_vector)
            requires
                dd == (ra ^ rb) ^ ((c ^ c) as u32),
                ra != rb,
        ;
        lemma_shifts_linear(dd, 0, 8);
        let ca = crc_register(x + q);
        let cb = crc_register(y + q);
        assert(ca != cb) by (bit_vector)
            requires
                ca ^ cb != 0,
        ;
    }
}

/// Inputs that agree but in five consecutive bytes, differing only from
/// bit `s` of the first (`0 < s < 8`) to below bit `s` of the last (a
/// 32-bit window that does not start on a byte boundary), leave different
/// registers.
pub proof fn lemma_crc_detects_offset_window(p: Seq<u8>, a: Seq<u8>, b: Seq<u8>, q: Seq<u8>, s: u32)
    requires
        a.len() == 5,
        b.len() == 5,
        a != b,
        0 < s < 8,
        (a[0] ^ b[0]) as u32 & (((1u32 << s) - 1) as u32) == 0,
        ((a[4] ^ b[4]) as u32) >> s == 0,
    ensures
        crc_register(p + a + q) != crc_register(p + b + q),
{
    let r = crc_register(p);
    let a4 = a.take(4);
    let b4 = b.take(4);
    assert(p + a =~= (p + a4).push(a[4]));
    assert(p + b =~= (p + b4).push(b[4]));
    assert((p + a4).push(a[4]).drop_last() =~= p + a4);
    assert((p + b4).push(b[4]).drop_last() =~= p + b4);
    lemma_absorb_word(p, a4);
    lemma_absorb_word(p, b4);
    let ua = r ^ crc_of(a4);
    let ub = r ^ crc_of(b4);
    let ra = crc_shifts(ua, 32);
    let rb = crc_shifts(ub, 32);
    assert(crc_register(p + a) == crc_absorb(ra, a[4]));
    assert(crc_register(p + b) == crc_absorb(rb, b[4]));
    lemma_absorb_difference(ra, rb, a[4], b[4]);
    lemma_shifts_linear(ua, ub, 32);
    // The two words differ by `w`, whose low `s` bits are zero.
    let (x0, x1, x2, x3) = (a[0], a[1], a[2], a[3]);
    let (y0, y1, y2, y3) = (b[0], b[1], b[2], b[3]);
    let w = ua ^ ub;
    let d4 = (a[4] ^ b[4]) as u32;
    assert(w == ((x0 ^ y0) as u32) | (((x1 ^ y1) as u32) << 8u32) | (((x2 ^ y2) as u32) << 16u32)
        | (((x3 ^ y3) as u32) << 24u32)) by (bit_vector)
        requires
            ua == r ^ ((x0 as u32) | ((x1 as u32) << 8u32) | ((x2 as u32) << 16u32) | ((x3 as u32)
                << 24u32)),
            ub == r ^ ((y0 as u32) | ((y1 as u32) << 8u32) | ((y2 as u32) << 16u32) | ((y3 as u32)
                << 24u32)),
            w == ua ^ ub,
    ;
    let low = ((1u32 << s) - 1) as u32;
    assert(w & low == 0) by (bit_vector)
        requires
            0 < s < 8,
            low == ((1u32 << s) - 1) as u32,
            ((x0 ^ y0) as u32) & low == 0,
            w == ((x0 ^ y0) as u32) | (((x1 ^ y1) as u32) << 8u32) | (((x2 ^ y2) as u32) << 16u32)
                | (((x3 ^ y3) as u32) << 24u32),
    ;
    // The window as one word, starting at bit `s`.
    let t = (32 - s) as u32;
    let v = (w >> s) ^ (d4 << t);
    let hi = d4 << t;
    assert(hi & (((1u32 << t) - 1) as u32) == 0 && hi >> t == d4) by (bit_vector)
        requires
            0 < s < 8,
            t == 32 - s,
            d4 >> s == 0,
            hi == d4 << t,
    ;
    lemma_shifts_zero_low(w, s);
    lemma_shifts_zero_low(hi, t);
    lemma_shifts_add(w, s as nat, t as nat);
    lemma_shifts_add(v, t as nat, s as nat);
    lemma_shifts_linear(w >> s, hi, t as nat);
    assert((s as nat + t as nat) as nat == 32 && (t as nat + s as nat) as nat == 32);
    // crc_shifts(v, 32) == crc_shifts(crc_shifts(w, 32) ^ d4, s).
    let sw = crc_shifts(w, 32);
    assert(crc_shifts(v, t as nat) == sw ^ d4);
    assert(crc_shifts(v, 32) == crc_shifts(sw ^ d4, s as nat));
    // The window is not all zero.
    assert(w != 0 || d4 != 0) by {
        if w == 0 && d4 == 0 {
            assert(x0 == y0 && x1 == y1 && x2 == y2 && x3 == y3) by (bit_vector)
                requires
                    0u32 == ((x0 ^ y0) as u32) | (((x1 ^ y1) as u32) << 8u32) | (((x2 ^ y2) as u32)
                        << 16u32) | (((x3 ^ y3) as u32) << 24u32),
            ;
            let e4 = a[4];
            let f4 = b[4];
            assert(e4 == f4) by (bit_vector)
                requires
                    ((e4 ^ f4) as u32) == 0u32,
            ;
            assert(a =~= b);
        }
    }
    assert(v != 0) by (bit_vector)
        requires
            0 < s < 8,
            t == 32 - s,
            w & (((1u32 << s) - 1) as u32) == 0,
            d4 >> s == 0,
            v == (w >> s) ^ (d4 << t),
            w != 0 || d4 != 0,
    ;
    lemma_shifts_linear(v, 0, 32);
    let z = sw ^ d4;
    assert(z != 0) by {
        if z == 0 {
            assert(0u32 & (((1u32 << s) - 1) as u32) == 0 && 0u32 >> s == 0) by (bit_vector)
                requires
                    0 < s < 8,
            ;
            lemma_shifts_zero_low(0, s);
        }
    }
    lemma_shifts_linear(z, 0, 8);
    assert(sw == ra ^ rb);
    assert((ra ^ rb) ^ d4 == z);
    let ca = crc_register(p + a);
    let cb = crc_register(p + b);
    assert(ca != cb) by (bit_vector)
        requires
            ca ^ cb != 0,
    ;
    lemma_suffix_keeps_difference(p + a, p + b, q);
}

/// Two inputs of one length that differ in exactly one byte leave
/// different registers: any damage confined to one byte (every
/// single-bit flip among them) changes the checksum.
pub proof fn lemma_crc_detects_one_byte(a: Seq<u8>, b: Seq<u8>, j: int)
    requires
        a.len() == b.len(),
        0 <= j < a.len(),
        a[j] != b[j],
        forall|i: int| 0 <= i < a.len() && i != j ==> a[i] == b[i],
    ensures
        crc_register(a) != crc_register(b),
        spec_crc32c(a) != spec_crc32c(b),
    decreases a.len(),
{
    let n = a.len() - 1;
    let ra = crc_register(a.drop_last());
    let rb = crc_register(b.drop_last());
    let x = a.last() as u32;
    let y = b.last() as u32;
    // The registers before the last byte differ by `d0`, and after it by
    // the shifted `d1`, which is nonzero.
    let d1 = (ra ^ x) ^ (rb ^ y);
    if j == n {
        assert(a.drop_last() =~= b.drop_last());
        assert(ra == rb);
        assert(x != y);
        assert(d1 != 0) by (bit_vector)
            requires
                d1 == (ra ^ x) ^ (rb ^ y),
                ra == rb,
                x != y,
        ;
    } else {
        lemma_crc_detects_one_byte(a.drop_last(), b.drop_last(), j);
        assert(a.last() == b.last());
        assert(d1 != 0) by (bit_vector)
            requires
                d1 == (ra ^ x) ^ (rb ^ y),
                ra != rb,
                x == y,
        ;
    }
    lemma_shifts_linear(ra ^ x, rb ^ y, 8);
    lemma_shifts_linear(d1, 0, 8);
    let ca = crc_register(a);
    let cb = crc_register(b);
    assert(ca == crc_shifts(ra ^ x, 8));
    assert(cb == crc_shifts(rb ^ y, 8));
    assert(ca != cb) by (bit_vector)
        requires
            ca ^ cb != 0,
    ;
    assert(!ca != !cb) by (bit_vector)
        requires
            ca != cb,
    ;
}

/// The parity of the number of one bits of `x` (0 or 1).
pub open spec fn parity32(x: u32) -> u32 {
    let p1 = x ^ (x >> 16u32);
    let p2 = p1 ^ (p1 >> 8u32);
    let p3 = p2 ^ (p2 >> 4u32);
    let p4 = p3 ^ (p3 >> 2u32);
    let p5 = p4 ^ (p4 >> 1u32);
    p5 & 1
}

/// The parity of the number of bits in which `a` and `b` differ.
pub open spec fn flip_parity(a: Seq<u8>, b: Seq<u8>) -> u32
    decreases a.len(),
{
    if a.len() == 0 || b.len() == 0 {
        0
    } else {
        flip_parity(a.drop_last(), b.drop_last()) ^ parity32((a.last() ^ b.last()) as u32)
    }
}

/// Parity is linear, and one shift keeps it: the reflected polynomial has
/// an odd number of terms.
proof fn lemma_shift_parity(u: u32, v: u32)
    ensures
        parity32(crc_shift(u)) == parity32(u),
        parity32(u ^ v) == parity32(u) ^ parity32(v),
        parity32(u) <= 1,
{
    assert(({
        let s = if u & 1 != 0 { (u >> 1) ^ 0x82F6_3B78u32 } else { u >> 1 };
        let q1 = s ^ (s >> 16u32);
        let q2 = q1 ^ (q1 >> 8u32);
        let q3 = q2 ^ (q2 >> 4u32);
        let q4 = q3 ^ (q3 >> 2u32);
        let q5 = q4 ^ (q4 >> 1u32);
        let p1 = u ^ (u >> 16u32);
        let p2 = p1 ^ (p1 >> 8u32);
        let p3 = p2 ^ (p2 >> 4u32);
        let p4 = p3 ^ (p3 >> 2u32);
        let p5 = p4 ^ (p4 >> 1u32);
        q5 & 1 == p5 & 1
    })) by (bit_vector);
    assert(({
        let w = u ^ v;
        let r1 = w ^ (w >> 16u32);
        let r2 = r1 ^ (r1 >> 8u32);
        let r3 = r2 ^ (r2 >> 4u32);
        let r4 = r3 ^ (r3 >> 2u32);
        let r5 = r4 ^ (r4 >> 1u32);
        let p1 = u ^ (u >> 16u32);
        let p2 = p1 ^ (p1 >> 8u32);
        let p3 = p2 ^ (p2 >> 4u32);
        let p4 = p3 ^ (p3 >> 2u32);
        let p5 = p4 ^ (p4 >> 1u32);
        let q1 = v ^ (v >> 16u32);
        let q2 = q1 ^ (q1 >> 8u32);
        let q3 = q2 ^ (q2 >> 4u32);
        let q4 = q3 ^ (q3 >> 2u32);
        let q5 = q4 ^ (q4 >> 1u32);
        r5 & 1 == (p5 & 1) ^ (q5 & 1)
    })) by (bit_vector);
    assert(({
        let p1 = u ^ (u >> 16u32);
        let p2 = p1 ^ (p1 >> 8u32);
        let p3 = p2 ^ (p2 >> 4u32);
        let p4 = p3 ^ (p3 >> 2u32);
        let p5 = p4 ^ (p4 >> 1u32);
        p5 & 1 <= 1
    })) by (bit_vector);
}

proof fn lemma_shifts_parity(u: u32, n: nat)
    ensures
        parity32(crc_shifts(u, n)) == parity32(u),
    decreases n,
{
    if n > 0 {
        lemma_shifts_parity(u, (n - 1) as nat);
        lemma_shift_parity(crc_shifts(u, (n - 1) as nat), 0);
    }
}

/// The registers of two inputs of one length differ by a value whose
/// parity is that of the number of bits in which the inputs differ. So
/// an odd number of flipped bits always changes the checksum.
pub proof fn lemma_crc_flip_parity(a: Seq<u8>, b: Seq<u8>)
    requires
        a.len() == b.len(),
    ensures
        parity32(crc_register(a) ^ crc_register(b)) == flip_parity(a, b),
        flip_parity(a, b) == 1 ==> spec_crc32c(a) != spec_crc32c(b),
    decreases a.len(),
{
    if a.len() == 0 {
        assert(0xFFFF_FFFFu32 ^ 0xFFFF_FFFFu32 == 0) by (bit_vector);
        assert(parity32(0) == 0) by (bit_vector);
    } else {
        lemma_crc_flip_parity(a.drop_last(), b.drop_last());
        let ra = crc_register(a.drop_last());
        let rb = crc_register(b.drop_last());
        let x = a.last() as u32;
        let y = b.last() as u32;
        lemma_shifts_linear(ra ^ x, rb ^ y, 8);
        let d = (ra ^ x) ^ (rb ^ y);
        lemma_shifts_parity(d, 8);
        assert(d == (ra ^ rb) ^ (x ^ y)) by (bit_vector)
            requires
                d == (ra ^ x) ^ (rb ^ y),
        ;
        lemma_shift_parity(ra ^ rb, x ^ y);
        let la = a.last();
        let lb = b.last();
        assert((la ^ lb) as u32 == (la as u32) ^ (lb as u32)) by (bit_vector);
    }
    let ca = crc_register(a);
    let cb = crc_register(b);
    if flip_parity(a, b) == 1 {
        assert(ca != cb) by (bit_vector)
            requires
                parity32(ca ^ cb) == 1,
        ;
        assert(!ca != !cb) by (bit_vector)
            requires
                ca != cb,
        ;
    }
}

/// Flip parity adds up over concatenation.
pub proof fn lemma_flip_parity_concat(a1: Seq<u8>, a2: Seq<u8>, b1: Seq<u8>, b2: Seq<u8>)
    requires
        a1.len() == b1.len(),
        a2.len() == b2.len(),
    ensures
        flip_parity(a1 + a2, b1 + b2) == flip_parity(a1, b1) ^ flip_parity(a2, b2),
    decreases a2.len(),
{
    if a2.len() == 0 {
        assert(a1 + a2 =~= a1);
        assert(b1 + b2 =~= b1);
        let p = flip_parity(a1, b1);
        assert(p ^ 0 == p) by (bit_vector);
    } else {
        lemma_flip_parity_concat(a1, a2.drop_last(), b1, b2.drop_last());
        assert((a1 + a2).drop_last() =~= a1 + a2.drop_last());
        assert((b1 + b2).drop_last() =~= b1 + b2.drop_last());
        let p = flip_parity(a1, b1);
        let q = flip_parity(a2.drop_last(), b2.drop_last());
        let r = parity32((a2.last() ^ b2.last()) as u32);
        assert((p ^ q) ^ r == p ^ (q ^ r)) by (bit_vector);
    }
}

/// The flip parity of two four-byte little-endian words is the parity
/// of the bits in which the words differ.
pub proof fn lemma_word_flip_parity(x: u32, y: u32)
    ensures
        flip_parity(
            seq![(x & 0xff) as u8, ((x >> 8u32) & 0xff) as u8, ((x >> 16u32) & 0xff) as u8, ((x >> 24u32) & 0xff) as u8],
            seq![(y & 0xff) as u8, ((y >> 8u32) & 0xff) as u8, ((y >> 16u32) & 0xff) as u8, ((y >> 24u32) & 0xff) as u8],
        ) == parity32(x ^ y),
{
    let a = seq![(x & 0xff) as u8, ((x >> 8u32) & 0xff) as u8, ((x >> 16u32) & 0xff) as u8, ((x >> 24u32) & 0xff) as u8];
    let b = seq![(y & 0xff) as u8, ((y >> 8u32) & 0xff) as u8, ((y >> 16u32) & 0xff) as u8, ((y >> 24u32) & 0xff) as u8];
    let (a0, a1, a2, a3) = (a[0], a[1], a[2], a[3]);
    let (b0, b1, b2, b3) = (b[0], b[1], b[2], b[3]);
    assert(a.drop_last() =~= seq![a0, a1, a2]);
    assert(b.drop_last() =~= seq![b0, b1, b2]);
    assert(a.drop_last().drop_last() =~= seq![a0, a1]);
    assert(b.drop_last().drop_last() =~= seq![b0, b1]);
    assert(a.drop_last().drop_last().drop_last() =~= seq![a0]);
    assert(b.drop_last().drop_last().drop_last() =~= seq![b0]);
    assert(seq![a0].drop_last() =~= Seq::<u8>::empty());
    let p0 = parity32((a0 ^ b0) as u32);
    let p1 = parity32((a1 ^ b1) as u32);
    let p2 = parity32((a2 ^ b2) as u32);
    let p3 = parity32((a3 ^ b3) as u32);
    assert(flip_parity(seq![a0], seq![b0]) == 0u32 ^ p0) by {
        assert(seq![a0].last() == a0 && seq![b0].last() == b0);
        assert(seq![a0].drop_last() =~= Seq::<u8>::empty());
        assert(seq![b0].drop_last() =~= Seq::<u8>::empty());
        assert(flip_parity(Seq::<u8>::empty(), Seq::<u8>::empty()) == 0);
    }
    assert(flip_parity(seq![a0, a1], seq![b0, b1]) == (0u32 ^ p0) ^ p1) by {
        assert(seq![a0, a1].drop_last() =~= seq![a0]);
        assert(seq![b0, b1].drop_last() =~= seq![b0]);
    }
    assert(flip_parity(seq![a0, a1, a2], seq![b0, b1, b2]) == ((0u32 ^ p0) ^ p1) ^ p2) by {
        assert(seq![a0, a1, a2].drop_last() =~= seq![a0, a1]);
        assert(seq![b0, b1, b2].drop_last() =~= seq![b0, b1]);
    }
    assert(flip_parity(a, b) == ((((0u32 ^ p0) ^ p1) ^ p2) ^ p3));
    assert(((((0u32 ^ parity32((((x & 0xff) as u8) ^ ((y & 0xff) as u8)) as u32)) ^ parity32(
        ((((x >> 8u32) & 0xff) as u8) ^ (((y >> 8u32) & 0xff) as u8)) as u32,
    )) ^ parity32(((((x >> 16u32) & 0xff) as u8) ^ (((y >> 16u32) & 0xff) as u8)) as u32)) ^ parity32(
        ((((x >> 24u32) & 0xff) as u8) ^ (((y >> 24u32) & 0xff) as u8)) as u32,
    )) == parity32(x ^ y)) by (bit_vector);
}

/// `a` and `b` agree outside the four bytes from `i` on, which lie
/// within them: every bit in which they differ lies in one burst of at
/// most 32 bits starting on a byte boundary.
pub open spec fn differ_within_word(a: Seq<u8>, b: Seq<u8>, i: int) -> bool {
    &&& 0 <= i
    &&& i + 4 <= a.len()
    &&& forall|j: int| 0 <= j < a.len() && (j < i || i + 4 <= j) ==> a[j] == b[j]
}

/// `a` and `b` agree outside the five bytes from `i` on, and within them
/// differ only from bit `s` of the first (`0 < s < 8`) to below bit `s`
/// of the last: every bit in which they differ lies in one burst of at
/// most 32 bits that does not start on a byte boundary.
pub open spec fn differ_within_offset_word(a: Seq<u8>, b: Seq<u8>, i: int, s: u32) -> bool {
    &&& 0 <= i
    &&& i + 5 <= a.len()
    &&& 0 < s < 8
    &&& forall|j: int| 0 <= j < a.len() && (j < i || i + 5 <= j) ==> a[j] == b[j]
    &&& (a[i] ^ b[i]) as u32 & (((1u32 << s) - 1) as u32) == 0
    &&& ((a[i + 4] ^ b[i + 4]) as u32) >> s == 0
}

proof fn lemma_inverted_distinct(x: u32, y: u32)
    requires
        x != y,
    ensures
        !x != !y,
{
    assert(x != y ==> !x != !y) by (bit_vector);
}

/// Two different inputs of one length have different checksums when they
/// differ in an odd number of bits, or only within one burst of at most
/// 32 bits (four consecutive bytes, or a 32-bit window starting inside a
/// byte).
pub proof fn lemma_crc_detects(a: Seq<u8>, b: Seq<u8>)
    requires
        a.len() == b.len(),
        a != b,
        flip_parity(a, b) == 1 || (exists|i: int| differ_within_word(a, b, i)) || (exists|
            i: int,
            s: u32,
        | differ_within_offset_word(a, b, i, s)),
    ensures
        spec_crc32c(a) != spec_crc32c(b),
{
    if flip_parity(a, b) == 1 {
        lemma_crc_flip_parity(a, b);
    } else if exists|i: int| differ_within_word(a, b, i) {
        let i = choose|i: int| differ_within_word(a, b, i);
        let p = a.take(i);
        let q = a.skip(i + 4);
        let wa = a.subrange(i, i + 4);
        let wb = b.subrange(i, i + 4);
        assert(p + wa + q =~= a);
        assert(p =~= b.take(i));
        assert(q =~= b.skip(i + 4));
        assert(p + wb + q =~= b);
        if wa == wb {
            assert(a =~= b);
        }
        lemma_crc_detects_four_bytes(p, wa, wb, q);
        lemma_inverted_distinct(crc_register(a), crc_register(b));
    } else {
        let (i, s) = choose|i: int, s: u32| differ_within_offset_word(a, b, i, s);
        let p = a.take(i);
        let q = a.skip(i + 5);
        let wa = a.subrange(i, i + 5);
        let wb = b.subrange(i, i + 5);
        assert(p + wa + q =~= a);
        assert(p =~= b.take(i));
        assert(q =~= b.skip(i + 5));
        assert(p + wb + q =~= b);
        if wa == wb {
            assert(a =~= b);
        }
        assert(wa[0] == a[i] && wb[0] == b[i] && wa[4] == a[i + 4] && wb[4] == b[i + 4]);
        lemma_crc_detects_offset_window(p, wa, wb, q, s);
        lemma_inverted_distinct(crc_register(a), crc_register(b));
    }
}

/// The CRC-32C checksum of `data`.
pub fn crc32c(data: &[u8]) -> (crc: u32)
    ensures
        crc == spec_crc32c(data@),
{
    let mut crc: u32 = 0xFFFF_FFFF;
    let mut i: usize = 0;
    while i < data.len()
        invariant
            i <= data@.len(),
            crc == crc_register(data@.take(i as int)),
        decreases data@.len() - i,
    {
        let byte = data[i];
        let start = crc ^ (byte as u32);
        crc = start;
        let mut k: u32 = 0;
        while k < 8
            invariant
                k <= 8,
                crc == crc_shifts(start, k as nat),
            decreases 8 - k,
        {
            crc = if crc & 1 != 0 {
                (crc >> 1) ^ POLY
            } else {
                crc >> 1
            };
            k = k + 1;
        }
        proof {
            assert(data@.take(i + 1).drop_last() =~= data@.take(i as int));
            assert(data@.take(i + 1).last() == byte);
        }
        i = i + 1;
    }
    assert(data@.take(i as int) =~= data@);
    !crc
}

} // verus!
