//! Big-endian framing of integers, the base of every canonical encoding.

use vstd::prelude::*;

verus! {

/// The four bytes of `x`, most significant first.
pub open spec fn be32(x: u32) -> Seq<u8> {
    seq![
        (x / 0x100_0000) as u8,
        ((x / 0x1_0000) % 0x100) as u8,
        ((x / 0x100) % 0x100) as u8,
        (x % 0x100) as u8,
    ]
}

/// The number whose big-endian bytes are the first four of `b`.
pub open spec fn from_be32(b: Seq<u8>) -> u32
    recommends
        b.len() >= 4,
{
    (b[0] as int * 0x100_0000 + b[1] as int * 0x1_0000 + b[2] as int * 0x100 + b[3] as int) as u32
}

/// The eight bytes of `x`, most significant first.
pub open spec fn be64(x: u64) -> Seq<u8> {
    be32((x / 0x1_0000_0000) as u32) + be32((x % 0x1_0000_0000) as u32)
}

/// The number whose big-endian bytes are the first eight of `b`.
pub open spec fn from_be64(b: Seq<u8>) -> u64
    recommends
        b.len() >= 8,
{
    (from_be32(b.subrange(0, 4)) as int * 0x1_0000_0000 + from_be32(b.subrange(4, 8)) as int) as u64
}

proof fn lemma_be32_decode(x: u32)
    ensures
        from_be32(be32(x)) == x,
{
    let b0: u32 = x / 0x100_0000;
    let b1: u32 = (x / 0x1_0000) % 0x100;
    let b2: u32 = (x / 0x100) % 0x100;
    let b3: u32 = x % 0x100;
    assert(b0 * 0x100_0000 + b1 * 0x1_0000 + b2 * 0x100 + b3 == x) by (bit_vector)
        requires
            b0 == x / 0x100_0000,
            b1 == (x / 0x1_0000) % 0x100,
            b2 == (x / 0x100) % 0x100,
            b3 == x % 0x100,
    ;
    assert(be32(x)[0] == b0 as u8);
    assert(be32(x)[1] == b1 as u8);
    assert(be32(x)[2] == b2 as u8);
    assert(be32(x)[3] == b3 as u8);
}

proof fn lemma_be32_encode(b0: u8, b1: u8, b2: u8, b3: u8)
    ensures
        be32(from_be32(seq![b0, b1, b2, b3])) == seq![b0, b1, b2, b3],
{
    let v: u32 = (b0 as u32 * 0x100_0000 + b1 as u32 * 0x1_0000 + b2 as u32 * 0x100 + b3 as u32) as u32;
    assert(from_be32(seq![b0, b1, b2, b3]) == v);
    assert(v / 0x100_0000 == b0 as u32 && (v / 0x1_0000) % 0x100 == b1 as u32 && (v / 0x100) % 0x100
        == b2 as u32 && v % 0x100 == b3 as u32) by (bit_vector)
        requires
            v == (b0 as u32) * 0x100_0000 + (b1 as u32) * 0x1_0000 + (b2 as u32) * 0x100 + (b3 as u32),
    ;
    assert(be32(v) =~= seq![b0, b1, b2, b3]);
}

/// Decoding undoes encoding, and encoding undoes decoding, for 32-bit numbers.
pub proof fn lemma_be32_inverse(x: u32, b: Seq<u8>)
    ensures
        be32(x).len() == 4,
        from_be32(be32(x)) == x,
        b.len() == 4 ==> be32(from_be32(b)) == b,
{
    lemma_be32_decode(x);
    if b.len() == 4 {
        lemma_be32_encode(b[0], b[1], b[2], b[3]);
        assert(b =~= seq![b[0], b[1], b[2], b[3]]);
    }
}

/// Decoding undoes encoding, and encoding undoes decoding, for 64-bit numbers.
pub proof fn lemma_be64_inverse(x: u64, b: Seq<u8>)
    ensures
        be64(x).len() == 8,
        from_be64(be64(x)) == x,
        b.len() == 8 ==> be64(from_be64(b)) == b,
{
    let hi = (x / 0x1_0000_0000) as u32;
    let lo = (x % 0x1_0000_0000) as u32;
    lemma_be32_inverse(hi, b.subrange(0, 4));
    lemma_be32_inverse(lo, b.subrange(4, 8));
    assert(be64(x).subrange(0, 4) =~= be32(hi));
    assert(be64(x).subrange(4, 8) =~= be32(lo));
    if b.len() == 8 {
        let h = from_be32(b.subrange(0, 4));
        let l = from_be32(b.subrange(4, 8));
        let y = from_be64(b);
        assert((y / 0x1_0000_0000) as u32 == h);
        assert((y % 0x1_0000_0000) as u32 == l);
        assert(be64(y) =~= b.subrange(0, 4) + b.subrange(4, 8));
        assert(b.subrange(0, 4) + b.subrange(4, 8) =~= b);
    }
}

/// Appends the big-endian bytes of `x` to `out`.
pub fn put_be32(out: &mut Vec<u8>, x: u32)
    ensures
        final(out)@ == old(out)@ + be32(x),
{
    out.push((x / 0x100_0000) as u8);
    out.push(((x / 0x1_0000) % 0x100) as u8);
    out.push(((x / 0x100) % 0x100) as u8);
    out.push((x % 0x100) as u8);
    assert(out@ =~= old(out)@ + be32(x));
}

/// Appends the big-endian bytes of `x` to `out`.
pub fn put_be64(out: &mut Vec<u8>, x: u64)
    ensures
        final(out)@ == old(out)@ + be64(x),
{
    let ghost before = out@;
    put_be32(out, (x / 0x1_0000_0000) as u32);
    put_be32(out, (x % 0x1_0000_0000) as u32);
    assert(out@ =~= before + be64(x));
}

/// Appends `bytes` to `out`.
pub fn put_bytes(out: &mut Vec<u8>, bytes: &[u8])
    ensures
        final(out)@ == old(out)@ + bytes@,
{
    let mut i: usize = 0;
    while i < bytes.len()
        invariant
            i <= bytes.len(),
            out@ == old(out)@ + bytes@.take(i as int),
        decreases bytes.len() - i,
    {
        out.push(bytes[i]);
        assert(out@ =~= old(out)@ + bytes@.take(i + 1));
        i += 1;
    }
    assert(bytes@.take(bytes.len() as int) =~= bytes@);
}

/// Reads the 32-bit number that starts at `at`.
pub fn get_be32(data: &[u8], at: usize) -> (x: u32)
    requires
        at + 4 <= data@.len(),
    ensures
        x == from_be32(data@.subrange(at as int, at + 4)),
{
    let b0: u32 = data[at] as u32;
    let b1: u32 = data[at + 1] as u32;
    let b2: u32 = data[at + 2] as u32;
    let b3: u32 = data[at + 3] as u32;
    b0 * 0x100_0000 + b1 * 0x1_0000 + b2 * 0x100 + b3
}

/// Reads the 64-bit number that starts at `at`.
pub fn get_be64(data: &[u8], at: usize) -> (x: u64)
    requires
        at + 8 <= data@.len(),
    ensures
        x == from_be64(data@.subrange(at as int, at + 8)),
{
    assert(at + 8 <= data.len());
    let hi: u64 = get_be32(data, at) as u64;
    let lo: u64 = get_be32(data, at + 4) as u64;
    proof {
        let b = data@.subrange(at as int, at + 8);
        assert(b.subrange(0, 4) =~= data@.subrange(at as int, at + 4));
        assert(b.subrange(4, 8) =~= data@.subrange(at + 4, at + 8));
    }
    hi * 0x1_0000_0000 + lo
}

} // verus!
