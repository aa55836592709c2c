//! Fixed-width little-endian integers and byte runs inside a page buffer.
use vstd::prelude::*;

verus! {

/// Little-endian value of two bytes.
pub open spec fn u16_from_le(b0: u8, b1: u8) -> u16 {
    ((b0 as u16) | ((b1 as u16) << 8u16)) as u16
}

/// The two little-endian bytes of `x`.
pub open spec fn u16_to_le(x: u16) -> Seq<u8> {
    seq![(x & 0xffu16) as u8, ((x >> 8u16) & 0xffu16) as u8]
}

/// Little-endian value of the eight bytes `s[0..8]`.
pub open spec fn u64_from_le(s: Seq<u8>) -> u64 {
    ((s[0] as u64) | ((s[1] as u64) << 8u64) | ((s[2] as u64) << 16u64) | ((s[3] as u64)
        << 24u64) | ((s[4] as u64) << 32u64) | ((s[5] as u64) << 40u64) | ((s[6] as u64)
        << 48u64) | ((s[7] as u64) << 56u64)) as u64
}

/// The eight little-endian bytes of `x`.
pub open spec fn u64_to_le(x: u64) -> Seq<u8> {
    seq![
        (x & 0xffu64) as u8,
        ((x >> 8u64) & 0xffu64) as u8,
        ((x >> 16u64) & 0xffu64) as u8,
        ((x >> 24u64) & 0xffu64) as u8,
        ((x >> 32u64) & 0xffu64) as u8,
        ((x >> 40u64) & 0xffu64) as u8,
        ((x >> 48u64) & 0xffu64) as u8,
        ((x >> 56u64) & 0xffu64) as u8,
    ]
}

/// `new` is `old` with `src` written at `pos`, and nothing else changed.
pub open spec fn written(old: Seq<u8>, new: Seq<u8>, pos: int, src: Seq<u8>) -> bool {
    &&& new.len() == old.len()
    &&& forall|k: int| 0 <= k < src.len() ==> #[trigger] new[pos + k] == src[k]
    &&& forall|k: int|
        0 <= k < old.len() && (k < pos || k >= pos + src.len()) ==> #[trigger] new[k] == old[k]
}

/// Decoding the encoding of a 16-bit integer gives it back.
pub proof fn lemma_u16_round_trip(x: u16)
    ensures
        u16_from_le(u16_to_le(x)[0], u16_to_le(x)[1]) == x,
{
    let b0 = (x & 0xffu16) as u8;
    let b1 = ((x >> 8u16) & 0xffu16) as u8;
    assert(((b0 as u16) | ((b1 as u16) << 8u16)) == x) by (bit_vector)
        requires
            b0 == (x & 0xffu16) as u8,
            b1 == ((x >> 8u16) & 0xffu16) as u8,
    ;
}

/// Decoding the encoding of a 64-bit integer gives it back.
pub proof fn lemma_u64_round_trip(x: u64)
    ensures
        u64_from_le(u64_to_le(x)) == x,
{
    let s = u64_to_le(x);
    let b0 = s[0];
    let b1 = s[1];
    let b2 = s[2];
    let b3 = s[3];
    let b4 = s[4];
    let b5 = s[5];
    let b6 = s[6];
    let b7 = s[7];
    assert(((b0 as u64) | ((b1 as u64) << 8u64) | ((b2 as u64) << 16u64) | ((b3 as u64) << 24u64)
        | ((b4 as u64) << 32u64) | ((b5 as u64) << 40u64) | ((b6 as u64) << 48u64) | ((b7 as u64)
        << 56u64)) == x) by (bit_vector)
        requires
            b0 == (x & 0xffu64) as u8,
            b1 == ((x >> 8u64) & 0xffu64) as u8,
            b2 == ((x >> 16u64) & 0xffu64) as u8,
            b3 == ((x >> 24u64) & 0xffu64) as u8,
            b4 == ((x >> 32u64) & 0xffu64) as u8,
            b5 == ((x >> 40u64) & 0xffu64) as u8,
            b6 == ((x >> 48u64) & 0xffu64) as u8,
            b7 == ((x >> 56u64) & 0xffu64) as u8,
    ;
}

/// Writes the two little-endian bytes of `x` at `pos`.
pub fn write_u16_le(buf: &mut Vec<u8>, pos: usize, x: u16)
    requires
        pos + 2 <= old(buf).len(),
    ensures
        written(old(buf)@, final(buf)@, pos as int, u16_to_le(x)),
{
    buf.set(pos, (x & 0xffu16) as u8);
    buf.set(pos + 1, ((x >> 8u16) & 0xffu16) as u8);
}

/// Reads a little-endian 16-bit integer at `pos`.
pub fn read_u16_le(buf: &Vec<u8>, pos: usize) -> (r: u16)
    requires
        pos + 2 <= buf.len(),
    ensures
        r == u16_from_le(buf@[pos as int], buf@[pos + 1]),
{
    (buf[pos] as u16) | ((buf[pos + 1] as u16) << 8u16)
}

/// Writes the eight little-endian bytes of `x` at `pos`.
pub fn write_u64_le(buf: &mut Vec<u8>, pos: usize, x: u64)
    requires
        pos + 8 <= old(buf).len(),
    ensures
        written(old(buf)@, final(buf)@, pos as int, u64_to_le(x)),
{
    buf.set(pos, (x & 0xffu64) as u8);
    buf.set(pos + 1, ((x >> 8u64) & 0xffu64) as u8);
    buf.set(pos + 2, ((x >> 16u64) & 0xffu64) as u8);
    buf.set(pos + 3, ((x >> 24u64) & 0xffu64) as u8);
    buf.set(pos + 4, ((x >> 32u64) & 0xffu64) as u8);
    buf.set(pos + 5, ((x >> 40u64) & 0xffu64) as u8);
    buf.set(pos + 6, ((x >> 48u64) & 0xffu64) as u8);
    buf.set(pos + 7, ((x >> 56u64) & 0xffu64) as u8);
    assert(forall|k: int| 0 <= k < 8 ==> final(buf)@[pos + k] == u64_to_le(x)[k]);
}

/// Reads a little-endian 64-bit integer at `pos`.
pub fn read_u64_le(buf: &Vec<u8>, pos: usize) -> (r: u64)
    requires
        pos + 8 <= buf.len(),
    ensures
        r == u64_from_le(buf@.subrange(pos as int, pos + 8)),
{
    (buf[pos] as u64) | ((buf[pos + 1] as u64) << 8u64) | ((buf[pos + 2] as u64) << 16u64) | ((
    buf[pos + 3] as u64) << 24u64) | ((buf[pos + 4] as u64) << 32u64) | ((buf[pos + 5] as u64)
        << 40u64) | ((buf[pos + 6] as u64) << 48u64) | ((buf[pos + 7] as u64) << 56u64)
}

/// Copies `src` into `buf` at `pos`.
pub fn write_bytes(buf: &mut Vec<u8>, pos: usize, src: &Vec<u8>)
    requires
        pos + src.len() <= old(buf).len(),
    ensures
        written(old(buf)@, final(buf)@, pos as int, src@),
{
    let mut i: usize = 0;
    while i < src.len()
        invariant
            i <= src.len(),
            pos + src.len() <= buf.len(),
            buf@.len() == old(buf)@.len(),
            forall|k: int| 0 <= k < i ==> #[trigger] buf@[pos + k] == src@[k],
            forall|k: int|
                0 <= k < old(buf)@.len() && (k < pos || k >= pos + i) ==> #[trigger] buf@[k]
                    == old(buf)@[k],
        decreases src.len() - i,
    {
        buf.set(pos + i, src[i]);
        i = i + 1;
    }
}

/// A copy of `buf[pos..pos + n]`.
pub fn read_bytes(buf: &Vec<u8>, pos: usize, n: usize) -> (r: Vec<u8>)
    requires
        pos + n <= buf.len(),
    ensures
        r@ == buf@.subrange(pos as int, pos + n),
{
    let mut r: Vec<u8> = Vec::new();
    let mut i: usize = 0;
    while i < n
        invariant
            i <= n,
            pos + n <= buf.len(),
            r@ == buf@.subrange(pos as int, pos + i),
        decreases n - i,
    {
        r.push(buf[pos + i]);
        i = i + 1;
        assert(r@ =~= buf@.subrange(pos as int, pos + i));
    }
    r
}

} // verus!

verus! {

/// After writing a 64-bit integer at `pos`, the eight bytes there decode to it.
pub proof fn lemma_written_u64(before: Seq<u8>, after: Seq<u8>, pos: int, x: u64)
    requires
        0 <= pos,
        pos + 8 <= before.len(),
        written(before, after, pos, u64_to_le(x)),
    ensures
        u64_from_le(after.subrange(pos, pos + 8)) == x,
{
    assert forall|k: int| 0 <= k < 8 implies after.subrange(pos, pos + 8)[k] == u64_to_le(x)[k] by {
        assert(after[pos + k] == u64_to_le(x)[k]);
    }
    assert(after.subrange(pos, pos + 8) =~= u64_to_le(x));
    lemma_u64_round_trip(x);
}

/// A write leaves any range that it does not touch as it was.
pub proof fn lemma_written_keeps(before: Seq<u8>, after: Seq<u8>, pos: int, src: Seq<u8>, a: int, n: int)
    requires
        written(before, after, pos, src),
        0 <= a,
        0 <= n,
        a + n <= before.len(),
        a + n <= pos || a >= pos + src.len(),
    ensures
        after.subrange(a, a + n) == before.subrange(a, a + n),
{
    assert forall|k: int| 0 <= k < n implies #[trigger] after.subrange(a, a + n)[k] == before.subrange(a, a + n)[k] by {
        assert(after[a + k] == before[a + k]);
    }
    assert(after.subrange(a, a + n) =~= before.subrange(a, a + n));
}

} // verus!
