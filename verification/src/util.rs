//! Big-endian integer codecs shared by the log and the B-tree blocks.
//!
//! Every on-disk format of this crate is big-endian. The spec
//! functions here define what the bytes of an integer are; the
//! executable functions are proved against them, and the `*_of_bytes`
//! inverses make round-trip proofs one lemma call away.

use vstd::prelude::*;

use crate::error::Error;

verus! {

/// The eight big-endian bytes of `x`, most significant first.
pub open spec fn u64_bytes(x: u64) -> Seq<u8> {
    seq![
        (x >> 56) as u8,
        (x >> 48) as u8,
        (x >> 40) as u8,
        (x >> 32) as u8,
        (x >> 24) as u8,
        (x >> 16) as u8,
        (x >> 8) as u8,
        x as u8,
    ]
}

/// The integer read back from eight big-endian bytes.
pub open spec fn u64_of_bytes(s: Seq<u8>) -> u64
    recommends
        s.len() == 8,
{
    (((s[0] as u64) << 56) | ((s[1] as u64) << 48) | ((s[2] as u64) << 40) | ((s[3] as u64) << 32)
        | ((s[4] as u64) << 24) | ((s[5] as u64) << 16) | ((s[6] as u64) << 8) | (s[7] as u64)) as u64
}

/// The four big-endian bytes of `x`.
pub open spec fn u32_bytes(x: u32) -> Seq<u8> {
    seq![(x >> 24) as u8, (x >> 16) as u8, (x >> 8) as u8, x as u8]
}

/// The integer read back from four big-endian bytes.
pub open spec fn u32_of_bytes(s: Seq<u8>) -> u32
    recommends
        s.len() == 4,
{
    (((s[0] as u32) << 24) | ((s[1] as u32) << 16) | ((s[2] as u32) << 8) | (s[3] as u32)) as u32
}

/// The two big-endian bytes of `x`.
pub open spec fn u16_bytes(x: u16) -> Seq<u8> {
    seq![(x >> 8) as u8, x as u8]
}

/// The integer read back from two big-endian bytes.
pub open spec fn u16_of_bytes(s: Seq<u8>) -> u16
    recommends
        s.len() == 2,
{
    (((s[0] as u16) << 8) | (s[1] as u16)) as u16
}

/// Writing and reading back eight bytes is the identity.
pub proof fn lemma_u64_bytes_id(x: u64)
    ensures
        u64_of_bytes(u64_bytes(x)) == x,
{
    let s = u64_bytes(x);
    assert(((((x >> 56) as u8) as u64) << 56) | ((((x >> 48) as u8) as u64) << 48)
        | ((((x >> 40) as u8) as u64) << 40) | ((((x >> 32) as u8) as u64) << 32)
        | ((((x >> 24) as u8) as u64) << 24) | ((((x >> 16) as u8) as u64) << 16)
        | ((((x >> 8) as u8) as u64) << 8) | ((x as u8) as u64) == x) by (bit_vector);
}

/// Writing and reading back four bytes is the identity.
pub proof fn lemma_u32_bytes_id(x: u32)
    ensures
        u32_of_bytes(u32_bytes(x)) == x,
{
    assert(((((x >> 24) as u8) as u32) << 24) | ((((x >> 16) as u8) as u32) << 16)
        | ((((x >> 8) as u8) as u32) << 8) | ((x as u8) as u32) == x) by (bit_vector);
}

/// Writing and reading back two bytes is the identity.
pub proof fn lemma_u16_bytes_id(x: u16)
    ensures
        u16_of_bytes(u16_bytes(x)) == x,
{
    assert(((((x >> 8) as u8) as u16) << 8) | ((x as u8) as u16) == x) by (bit_vector);
}

/// Eight bytes read as an integer write back to the same bytes.
pub proof fn lemma_u64_bytes_inv(s: Seq<u8>)
    requires
        s.len() == 8,
    ensures
        u64_bytes(u64_of_bytes(s)) == s,
{
    let b0 = s[0];
    let b1 = s[1];
    let b2 = s[2];
    let b3 = s[3];
    let b4 = s[4];
    let b5 = s[5];
    let b6 = s[6];
    let b7 = s[7];
    let x = u64_of_bytes(s);
    assert((x >> 56) as u8 == b0 && (x >> 48) as u8 == b1 && (x >> 40) as u8 == b2 && (x >> 32)
        as u8 == b3 && (x >> 24) as u8 == b4 && (x >> 16) as u8 == b5 && (x >> 8) as u8 == b6
        && x as u8 == b7) by (bit_vector)
        requires
            x == (((b0 as u64) << 56) | ((b1 as u64) << 48) | ((b2 as u64) << 40) | ((b3
                as u64) << 32) | ((b4 as u64) << 24) | ((b5 as u64) << 16) | ((b6 as u64) << 8) | (
            b7 as u64)) as u64,
    ;
    assert(u64_bytes(x) =~= s);
}

/// Two bytes read as an integer write back to the same bytes.
pub proof fn lemma_u16_bytes_inv(s: Seq<u8>)
    requires
        s.len() == 2,
    ensures
        u16_bytes(u16_of_bytes(s)) == s,
{
    let b0 = s[0];
    let b1 = s[1];
    let x = u16_of_bytes(s);
    assert((x >> 8) as u8 == b0 && x as u8 == b1) by (bit_vector)
        requires
            x == ((((b0 as u16) << 8) | (b1 as u16)) as u16),
    ;
    assert(u16_bytes(x) =~= s);
}

/// Append the eight big-endian bytes of `x` to `buf`.
pub fn append_u64(buf: &mut Vec<u8>, x: u64)
    ensures
        final(buf)@ == old(buf)@ + u64_bytes(x),
{
    buf.push((x >> 56) as u8);
    buf.push((x >> 48) as u8);
    buf.push((x >> 40) as u8);
    buf.push((x >> 32) as u8);
    buf.push((x >> 24) as u8);
    buf.push((x >> 16) as u8);
    buf.push((x >> 8) as u8);
    buf.push(x as u8);
    assert(buf@ =~= old(buf)@ + u64_bytes(x));
}

/// Append the four big-endian bytes of `x` to `buf`.
pub fn append_u32(buf: &mut Vec<u8>, x: u32)
    ensures
        final(buf)@ == old(buf)@ + u32_bytes(x),
{
    buf.push((x >> 24) as u8);
    buf.push((x >> 16) as u8);
    buf.push((x >> 8) as u8);
    buf.push(x as u8);
    assert(buf@ =~= old(buf)@ + u32_bytes(x));
}

/// Append the two big-endian bytes of `x` to `buf`.
pub fn append_u16(buf: &mut Vec<u8>, x: u16)
    ensures
        final(buf)@ == old(buf)@ + u16_bytes(x),
{
    buf.push((x >> 8) as u8);
    buf.push(x as u8);
    assert(buf@ =~= old(buf)@ + u16_bytes(x));
}

/// Read a big-endian `u64` at `off`.
pub fn read_u64(buf: &[u8], off: usize) -> (x: u64)
    requires
        off + 8 <= buf@.len(),
    ensures
        x == u64_of_bytes(buf@.subrange(off as int, off + 8)),
{
    let ghost s = buf@.subrange(off as int, off + 8);
    let x = ((buf[off] as u64) << 56) | ((buf[off + 1] as u64) << 48)
        | ((buf[off + 2] as u64) << 40) | ((buf[off + 3] as u64) << 32)
        | ((buf[off + 4] as u64) << 24) | ((buf[off + 5] as u64) << 16)
        | ((buf[off + 6] as u64) << 8) | (buf[off + 7] as u64);
    assert(s[0] == buf@[off as int] && s[1] == buf@[off + 1] && s[2] == buf@[off + 2] && s[3]
        == buf@[off + 3] && s[4] == buf@[off + 4] && s[5] == buf@[off + 5] && s[6] == buf@[off + 6]
        && s[7] == buf@[off + 7]);
    x
}

/// Read a big-endian `u32` at `off`.
pub fn read_u32(buf: &[u8], off: usize) -> (x: u32)
    requires
        off + 4 <= buf@.len(),
    ensures
        x == u32_of_bytes(buf@.subrange(off as int, off + 4)),
{
    let ghost s = buf@.subrange(off as int, off + 4);
    let x = ((buf[off] as u32) << 24) | ((buf[off + 1] as u32) << 16)
        | ((buf[off + 2] as u32) << 8) | (buf[off + 3] as u32);
    assert(s[0] == buf@[off as int] && s[1] == buf@[off + 1] && s[2] == buf@[off + 2] && s[3]
        == buf@[off + 3]);
    x
}

/// Read a big-endian `u16` at `off`.
pub fn read_u16(buf: &[u8], off: usize) -> (x: u16)
    requires
        off + 2 <= buf@.len(),
    ensures
        x == u16_of_bytes(buf@.subrange(off as int, off + 2)),
{
    let ghost s = buf@.subrange(off as int, off + 2);
    let x = ((buf[off] as u16) << 8) | (buf[off + 1] as u16);
    assert(s[0] == buf@[off as int] && s[1] == buf@[off + 1]);
    x
}

/// Copy `buf[from..to]` into a fresh vector.
pub fn copy_range(buf: &[u8], from: usize, to: usize) -> (r: Vec<u8>)
    requires
        from <= to <= buf@.len(),
    ensures
        r@ == buf@.subrange(from as int, to as int),
{
    let mut r: Vec<u8> = Vec::new();
    let mut i: usize = from;
    while i < to
        invariant
            from <= i <= to,
            to <= buf@.len(),
            r@ == buf@.subrange(from as int, i as int),
        decreases to - i,
    {
        r.push(buf[i]);
        proof {
            assert(r@ =~= buf@.subrange(from as int, i + 1));
        }
        i = i + 1;
    }
    r
}

/// Compare a vector with a slice, byte for byte.
pub fn bytes_eq(a: &Vec<u8>, b: &[u8]) -> (r: bool)
    ensures
        r == (a@ == b@),
{
    if a.len() != b.len() {
        proof {
            assert(a@.len() != b@.len());
        }
        return false;
    }
    let mut i: usize = 0;
    while i < a.len()
        invariant
            i <= a@.len(),
            a@.len() == b@.len(),
            forall|j: int| 0 <= j < i ==> a@[j] == b@[j],
        decreases a@.len() - i,
    {
        if a[i] != b[i] {
            return false;
        }
        i = i + 1;
    }
    proof {
        assert(a@ =~= b@);
    }
    true
}

/// Fail with `DecodeFail` unless `buf` holds at least `n` bytes.
pub fn check_remaining(buf: &[u8], n: usize) -> (r: Result<(), Error>)
    ensures
        r is Ok <==> n <= buf@.len(),
        r is Err ==> r == Result::<(), Error>::Err(Error::DecodeFail(n)),
{
    if buf.len() >= n {
        Ok(())
    } else {
        Err(Error::DecodeFail(n))
    }
}

} // verus!
