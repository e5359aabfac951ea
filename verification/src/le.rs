//! Little-endian integer fields and byte-copy helpers shared by every wire
//! format in this crate.

use vstd::bytes::*;
use vstd::prelude::*;

verus! {

/// Appends every byte of `data` to `out`.
pub fn append(out: &mut Vec<u8>, data: &[u8])
    ensures
        final(out)@ == old(out)@ + data@,
{
    let mut i: usize = 0;
    while i < data.len()
        invariant
            i <= data@.len(),
            out@ == old(out)@ + data@.take(i as int),
        decreases data@.len() - i,
    {
        out.push(data[i]);
        i = i + 1;
        assert(out@ =~= old(out)@ + data@.take(i as int));
    }
    assert(data@.take(i as int) =~= data@);
}

/// A fresh vector holding `data[from..to]`.
pub fn copy_range(data: &[u8], from: usize, to: usize) -> (out: Vec<u8>)
    requires
        from <= to <= data@.len(),
    ensures
        out@ == data@.subrange(from as int, to as int),
{
    let mut out: Vec<u8> = Vec::new();
    let mut i: usize = from;
    while i < to
        invariant
            from <= i <= to <= data@.len(),
            out@ == data@.subrange(from as int, i as int),
        decreases to - i,
    {
        out.push(data[i]);
        i = i + 1;
        assert(out@ =~= data@.subrange(from as int, i as int));
    }
    out
}

/// A fresh vector holding all of `data`.
pub fn copy_bytes(data: &[u8]) -> (out: Vec<u8>)
    ensures
        out@ == data@,
{
    let out = copy_range(data, 0, data.len());
    assert(out@ =~= data@);
    out
}

/// Appends the two little-endian bytes of `x`.
pub fn put_u16(out: &mut Vec<u8>, x: u16)
    ensures
        final(out)@ == old(out)@ + spec_u16_to_le_bytes(x),
        spec_u16_to_le_bytes(x).len() == 2,
{
    proof {
        lemma_auto_spec_u16_to_from_le_bytes();
    }
    let b = u16_to_le_bytes(x);
    append(out, b.as_slice());
}

/// Appends the four little-endian bytes of `x`.
pub fn put_u32(out: &mut Vec<u8>, x: u32)
    ensures
        final(out)@ == old(out)@ + spec_u32_to_le_bytes(x),
        spec_u32_to_le_bytes(x).len() == 4,
{
    proof {
        lemma_auto_spec_u32_to_from_le_bytes();
    }
    let b = u32_to_le_bytes(x);
    append(out, b.as_slice());
}

/// Appends the eight little-endian bytes of `x`.
pub fn put_u64(out: &mut Vec<u8>, x: u64)
    ensures
        final(out)@ == old(out)@ + spec_u64_to_le_bytes(x),
        spec_u64_to_le_bytes(x).len() == 8,
{
    proof {
        lemma_auto_spec_u64_to_from_le_bytes();
    }
    let b = u64_to_le_bytes(x);
    append(out, b.as_slice());
}

/// The little-endian `u16` stored at `data[at..at + 2]`.
pub fn get_u16(data: &[u8], at: usize) -> (x: u16)
    requires
        at + 2 <= data@.len(),
    ensures
        x == spec_u16_from_le_bytes(data@.subrange(at as int, at + 2)),
{
    let _n = data.len();
    let s = vstd::slice::slice_subrange(data, at, at + 2);
    u16_from_le_bytes(s)
}

/// The little-endian `u32` stored at `data[at..at + 4]`.
pub fn get_u32(data: &[u8], at: usize) -> (x: u32)
    requires
        at + 4 <= data@.len(),
    ensures
        x == spec_u32_from_le_bytes(data@.subrange(at as int, at + 4)),
{
    let _n = data.len();
    let s = vstd::slice::slice_subrange(data, at, at + 4);
    u32_from_le_bytes(s)
}

/// The little-endian `u64` stored at `data[at..at + 8]`.
pub fn get_u64(data: &[u8], at: usize) -> (x: u64)
    requires
        at + 8 <= data@.len(),
    ensures
        x == spec_u64_from_le_bytes(data@.subrange(at as int, at + 8)),
{
    let _n = data.len();
    let s = vstd::slice::slice_subrange(data, at, at + 8);
    u64_from_le_bytes(s)
}

/// Decoding the encoding of an integer gives the integer back, every
/// encoding has its fixed width, and every byte string of that width is
/// the encoding of the integer it decodes to.
pub proof fn lemma_le_roundtrips()
    ensures
        forall|x: u16|
            #[trigger] spec_u16_to_le_bytes(x).len() == 2 && spec_u16_from_le_bytes(
                spec_u16_to_le_bytes(x),
            ) == x,
        forall|x: u32|
            #[trigger] spec_u32_to_le_bytes(x).len() == 4 && spec_u32_from_le_bytes(
                spec_u32_to_le_bytes(x),
            ) == x,
        forall|x: u64|
            #[trigger] spec_u64_to_le_bytes(x).len() == 8 && spec_u64_from_le_bytes(
                spec_u64_to_le_bytes(x),
            ) == x,
        forall|s: Seq<u8>| s.len() == 2 ==> #[trigger] spec_u16_to_le_bytes(spec_u16_from_le_bytes(s)) == s,
        forall|s: Seq<u8>| s.len() == 4 ==> #[trigger] spec_u32_to_le_bytes(spec_u32_from_le_bytes(s)) == s,
        forall|s: Seq<u8>| s.len() == 8 ==> #[trigger] spec_u64_to_le_bytes(spec_u64_from_le_bytes(s)) == s,
{
    lemma_auto_spec_u16_to_from_le_bytes();
    lemma_auto_spec_u32_to_from_le_bytes();
    lemma_auto_spec_u64_to_from_le_bytes();
}

} // verus!
