//! Little-endian integer encoding used throughout the file layout.

use vstd::prelude::*;

verus! {

/// The value of four little-endian bytes.
pub open spec fn le_u32_value(b0: u8, b1: u8, b2: u8, b3: u8) -> int {
    b0 + 0x100 * b1 + 0x10000 * b2 + 0x1000000 * b3
}

/// The value of the four little-endian bytes of `s` starting at `i`.
pub open spec fn le_u32_at(s: Seq<u8>, i: int) -> int
    recommends
        0 <= i,
        i + 4 <= s.len(),
{
    le_u32_value(s[i], s[i + 1], s[i + 2], s[i + 3])
}

/// The four little-endian bytes of `x`.
pub open spec fn u32_le_bytes(x: u32) -> Seq<u8> {
    seq![
        (x % 0x100) as u8,
        ((x / 0x100) % 0x100) as u8,
        ((x / 0x10000) % 0x100) as u8,
        ((x / 0x1000000) % 0x100) as u8,
    ]
}

/// The value of eight little-endian bytes, low half first.
pub open spec fn le_u64_at(s: Seq<u8>, i: int) -> int
    recommends
        0 <= i,
        i + 8 <= s.len(),
{
    le_u32_at(s, i) + 0x100000000 * le_u32_at(s, i + 4)
}

/// The eight little-endian bytes of `x`.
pub open spec fn u64_le_bytes(x: u64) -> Seq<u8> {
    u32_le_bytes((x % 0x100000000) as u32) + u32_le_bytes((x / 0x100000000) as u32)
}

/// Reading back the four bytes of `x` yields `x`.
pub proof fn lemma_u32_le_roundtrip(x: u32)
    ensures
        u32_le_bytes(x).len() == 4,
        le_u32_at(u32_le_bytes(x), 0) == x,
{
    let s = u32_le_bytes(x);
    assert(s[0] == (x % 0x100) as u8);
    assert(x == x % 0x100 + 0x100 * (x / 0x100)) by {
        assert(x % 0x100 + 0x100 * (x / 0x100) == x) by (nonlinear_arith);
    }
    let y1 = x / 0x100;
    assert(y1 == y1 % 0x100 + 0x100 * (y1 / 0x100)) by (nonlinear_arith);
    let y2 = y1 / 0x100;
    assert(y2 == y2 % 0x100 + 0x100 * (y2 / 0x100)) by (nonlinear_arith);
    assert(x / 0x10000 == y2) by (nonlinear_arith)
        requires
            y1 == x / 0x100,
            y2 == y1 / 0x100,
    ;
    assert(x / 0x1000000 == y2 / 0x100) by (nonlinear_arith)
        requires
            y2 == x / 0x10000,
    ;
    assert(y2 / 0x100 < 0x100);
}

/// Reading back the eight bytes of `x` yields `x`.
pub proof fn lemma_u64_le_roundtrip(x: u64)
    ensures
        u64_le_bytes(x).len() == 8,
        le_u64_at(u64_le_bytes(x), 0) == x,
{
    let lo = (x % 0x100000000) as u32;
    let hi = (x / 0x100000000) as u32;
    lemma_u32_le_roundtrip(lo);
    lemma_u32_le_roundtrip(hi);
    let s = u64_le_bytes(x);
    assert(s =~= u32_le_bytes(lo) + u32_le_bytes(hi));
    assert(le_u32_at(s, 0) == le_u32_at(u32_le_bytes(lo), 0));
    assert(s[4] == u32_le_bytes(hi)[0] && s[5] == u32_le_bytes(hi)[1] && s[6] == u32_le_bytes(hi)[2]
        && s[7] == u32_le_bytes(hi)[3]);
    assert(le_u32_at(s, 4) == le_u32_at(u32_le_bytes(hi), 0));
    assert(x == x % 0x100000000 + 0x100000000 * (x / 0x100000000)) by (nonlinear_arith);
}

/// The four-byte window at `i` only depends on those four bytes.
pub proof fn lemma_le_u32_at_subrange(s: Seq<u8>, t: Seq<u8>, i: int, j: int)
    requires
        0 <= i,
        i + 4 <= s.len(),
        0 <= j,
        j + 4 <= t.len(),
        s.subrange(i, i + 4) == t.subrange(j, j + 4),
    ensures
        le_u32_at(s, i) == le_u32_at(t, j),
{
    assert(s.subrange(i, i + 4)[0] == s[i]);
    assert(s.subrange(i, i + 4)[1] == s[i + 1]);
    assert(s.subrange(i, i + 4)[2] == s[i + 2]);
    assert(s.subrange(i, i + 4)[3] == s[i + 3]);
    assert(t.subrange(j, j + 4)[0] == t[j]);
    assert(t.subrange(j, j + 4)[1] == t[j + 1]);
    assert(t.subrange(j, j + 4)[2] == t[j + 2]);
    assert(t.subrange(j, j + 4)[3] == t[j + 3]);
}

/// Four bytes are determined by their little-endian value: the window at
/// `i` is the encoding of the value it holds.
pub proof fn lemma_le_u32_at_inverse(s: Seq<u8>, i: int)
    requires
        0 <= i,
        i + 4 <= s.len(),
    ensures
        0 <= le_u32_at(s, i) < 0x100000000,
        s.subrange(i, i + 4) == u32_le_bytes(le_u32_at(s, i) as u32),
{
    let b0 = s[i];
    let b1 = s[i + 1];
    let b2 = s[i + 2];
    let b3 = s[i + 3];
    let x = le_u32_value(b0, b1, b2, b3);
    assert(b3 * 0x1000000 <= 255 * 0x1000000);
    assert(0 <= x < 0x100000000);
    let u = x as u32;
    assert(u % 0x100 == b0 && (u / 0x100) % 0x100 == b1 && (u / 0x10000) % 0x100 == b2 && (u
        / 0x1000000) % 0x100 == b3) by (nonlinear_arith)
        requires
            u == b0 + 0x100 * b1 + 0x10000 * b2 + 0x1000000 * b3,
            b0 < 0x100,
            b1 < 0x100,
            b2 < 0x100,
            b3 < 0x100,
    ;
    assert(s.subrange(i, i + 4) =~= u32_le_bytes(u));
}

/// Append the four little-endian bytes of `x`.
pub fn write_u32_le(out: &mut Vec<u8>, x: u32)
    requires
        old(out)@.len() + 4 <= usize::MAX,
    ensures
        final(out)@ == old(out)@ + u32_le_bytes(x),
{
    out.push((x % 0x100) as u8);
    out.push(((x / 0x100) % 0x100) as u8);
    out.push(((x / 0x10000) % 0x100) as u8);
    out.push(((x / 0x1000000) % 0x100) as u8);
    assert(out@ =~= old(out)@ + u32_le_bytes(x));
}

/// Append the eight little-endian bytes of `x`.
pub fn write_u64_le(out: &mut Vec<u8>, x: u64)
    requires
        old(out)@.len() + 8 <= usize::MAX,
    ensures
        final(out)@ == old(out)@ + u64_le_bytes(x),
{
    write_u32_le(out, (x % 0x100000000) as u32);
    write_u32_le(out, (x / 0x100000000) as u32);
    assert(out@ =~= old(out)@ + u64_le_bytes(x));
}

/// Decode the four little-endian bytes of `s` starting at `pos`.
pub fn read_u32_le(s: &Vec<u8>, pos: usize) -> (r: u32)
    requires
        pos + 4 <= s@.len(),
    ensures
        r == le_u32_at(s@, pos as int),
{
    let n: usize = s.len();
    assert(pos + 4 <= n);
    let b0 = s[pos];
    let b1 = s[pos + 1];
    let b2 = s[pos + 2];
    let b3 = s[pos + 3];
    (b0 as u32) + 0x100 * (b1 as u32) + 0x10000 * (b2 as u32) + 0x1000000 * (b3 as u32)
}

/// Decode the eight little-endian bytes of `s` starting at `pos`.
pub fn read_u64_le(s: &Vec<u8>, pos: usize) -> (r: u64)
    requires
        pos + 8 <= s@.len(),
    ensures
        r == le_u64_at(s@, pos as int),
{
    let n: usize = s.len();
    assert(pos + 8 <= n);
    let lo = read_u32_le(s, pos);
    let hi = read_u32_le(s, pos + 4);
    (lo as u64) + 0x100000000 * (hi as u64)
}

} // verus!
