//! Appending fixed-width integers and byte runs to an output buffer.

use crate::reader::le_u32;
use vstd::prelude::*;

verus! {

/// The four little-endian bytes of `v`.
pub open spec fn le_bytes(v: u32) -> Seq<u8> {
    seq![(v % 0x100) as u8, ((v / 0x100) % 0x100) as u8, ((v / 0x1_0000) % 0x100) as u8, (v / 0x100_0000) as u8]
}

/// The eight little-endian bytes of `v`.
pub open spec fn le_bytes64(v: u64) -> Seq<u8> {
    le_bytes((v % 0x1_0000_0000) as u32) + le_bytes((v / 0x1_0000_0000) as u32)
}

/// The four big-endian bytes of `v`.
pub open spec fn be_bytes(v: u32) -> Seq<u8> {
    seq![(v / 0x100_0000) as u8, ((v / 0x1_0000) % 0x100) as u8, ((v / 0x100) % 0x100) as u8, (v % 0x100) as u8]
}

/// The two big-endian bytes of `v`.
pub open spec fn be_bytes16(v: u16) -> Seq<u8> {
    seq![(v / 0x100) as u8, (v % 0x100) as u8]
}

/// `n` zero bytes.
pub open spec fn zeros(n: nat) -> Seq<u8> {
    Seq::new(n, |i: int| 0u8)
}

/// Reading back the little-endian bytes of `v` gives `v`.
pub proof fn lemma_le_roundtrip(v: u32)
    ensures
        le_bytes(v).len() == 4,
        le_u32(le_bytes(v)) == v,
{
    let b = le_bytes(v);
    assert(b[0] + b[1] * 0x100 + b[2] * 0x1_0000 + b[3] * 0x100_0000 == v as int);
}

/// Appends the little-endian bytes of `v`.
pub fn push_u32_le(out: &mut Vec<u8>, v: u32)
    ensures
        final(out)@ == old(out)@ + le_bytes(v),
{
    out.push((v % 0x100) as u8);
    out.push(((v / 0x100) % 0x100) as u8);
    out.push(((v / 0x1_0000) % 0x100) as u8);
    out.push((v / 0x100_0000) as u8);
    proof {
        assert(final(out)@ =~= old(out)@ + le_bytes(v));
    }
}

/// Appends the little-endian bytes of `v`.
pub fn push_u64_le(out: &mut Vec<u8>, v: u64)
    ensures
        final(out)@ == old(out)@ + le_bytes64(v),
{
    push_u32_le(out, (v % 0x1_0000_0000) as u32);
    push_u32_le(out, (v / 0x1_0000_0000) as u32);
    proof {
        assert(final(out)@ =~= old(out)@ + le_bytes64(v));
    }
}

/// Appends the big-endian bytes of `v`.
pub fn push_u32_be(out: &mut Vec<u8>, v: u32)
    ensures
        final(out)@ == old(out)@ + be_bytes(v),
{
    out.push((v / 0x100_0000) as u8);
    out.push(((v / 0x1_0000) % 0x100) as u8);
    out.push(((v / 0x100) % 0x100) as u8);
    out.push((v % 0x100) as u8);
    proof {
        assert(final(out)@ =~= old(out)@ + be_bytes(v));
    }
}

/// Appends the big-endian bytes of `v`.
pub fn push_u16_be(out: &mut Vec<u8>, v: u16)
    ensures
        final(out)@ == old(out)@ + be_bytes16(v),
{
    out.push((v / 0x100) as u8);
    out.push((v % 0x100) as u8);
    proof {
        assert(final(out)@ =~= old(out)@ + be_bytes16(v));
    }
}

/// Appends every byte of `data`.
pub fn push_all(out: &mut Vec<u8>, data: &[u8])
    ensures
        final(out)@ == old(out)@ + data@,
{
    let ghost start = out@;
    let mut i: usize = 0;
    while i < data.len()
        invariant
            i <= data@.len(),
            out@ == start + data@.take(i as int),
        decreases data.len() - i,
    {
        out.push(data[i]);
        proof {
            assert(data@.take(i + 1) =~= data@.take(i as int).push(data@[i as int]));
            assert(start + data@.take(i + 1) =~= (start + data@.take(i as int)).push(data@[i as int]));
        }
        i = i + 1;
    }
    proof {
        assert(data@.take(data@.len() as int) =~= data@);
    }
}

/// Appends `n` zero bytes.
pub fn push_zeros(out: &mut Vec<u8>, n: usize)
    ensures
        final(out)@ == old(out)@ + zeros(n as nat),
{
    let ghost start = out@;
    let mut i: usize = 0;
    while i < n
        invariant
            i <= n,
            out@ == start + zeros(i as nat),
        decreases n - i,
    {
        out.push(0u8);
        proof {
            assert(start + zeros((i + 1) as nat) =~= (start + zeros(i as nat)).push(0u8));
        }
        i = i + 1;
    }
}

} // verus!
