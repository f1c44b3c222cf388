use vstd::prelude::*;

verus! {

/// The two little-endian bytes of a 16-bit integer.
pub open spec fn u16_le_bytes(n: u16) -> Seq<u8> {
    seq![(n % 256) as u8, (n / 256) as u8]
}

/// The four little-endian bytes of a 32-bit integer.
pub open spec fn u32_le_bytes(n: u32) -> Seq<u8> {
    seq![
        (n % 256) as u8,
        ((n / 0x100) % 256) as u8,
        ((n / 0x10000) % 256) as u8,
        ((n / 0x1000000) % 256) as u8,
    ]
}

/// The eight little-endian bytes of a 64-bit integer.
pub open spec fn u64_le_bytes(n: u64) -> Seq<u8> {
    seq![
        (n % 256) as u8,
        ((n / 0x100) % 256) as u8,
        ((n / 0x10000) % 256) as u8,
        ((n / 0x1000000) % 256) as u8,
        ((n / 0x100000000) % 256) as u8,
        ((n / 0x10000000000) % 256) as u8,
        ((n / 0x1000000000000) % 256) as u8,
        ((n / 0x100000000000000) % 256) as u8,
    ]
}

/// The 16-bit integer spelled little-endian by the two bytes of `s` at `off`.
pub open spec fn parse_u16_le(s: Seq<u8>, off: int) -> u16
    recommends
        0 <= off,
        off + 2 <= s.len(),
{
    (s[off] + s[off + 1] * 0x100) as u16
}

/// The 32-bit integer spelled little-endian by the four bytes of `s` at `off`.
pub open spec fn parse_u32_le(s: Seq<u8>, off: int) -> u32
    recommends
        0 <= off,
        off + 4 <= s.len(),
{
    (s[off] + s[off + 1] * 0x100 + s[off + 2] * 0x10000 + s[off + 3] * 0x1000000) as u32
}

/// The 64-bit integer spelled little-endian by the eight bytes of `s` at `off`.
pub open spec fn parse_u64_le(s: Seq<u8>, off: int) -> u64
    recommends
        0 <= off,
        off + 8 <= s.len(),
{
    (s[off] + s[off + 1] * 0x100 + s[off + 2] * 0x10000 + s[off + 3] * 0x1000000
        + s[off + 4] * 0x100000000 + s[off + 5] * 0x10000000000 + s[off + 6] * 0x1000000000000
        + s[off + 7] * 0x100000000000000) as u64
}

/// Append the two little-endian bytes of `n`.
pub fn put_u16_le(out: &mut Vec<u8>, n: u16)
    ensures
        final(out)@ =~= old(out)@ + u16_le_bytes(n),
{
    out.push((n % 256) as u8);
    out.push((n / 256) as u8);
}

/// Append the four little-endian bytes of `n`.
pub fn put_u32_le(out: &mut Vec<u8>, n: u32)
    ensures
        final(out)@ =~= old(out)@ + u32_le_bytes(n),
{
    out.push((n % 256) as u8);
    out.push(((n / 0x100) % 256) as u8);
    out.push(((n / 0x10000) % 256) as u8);
    out.push(((n / 0x1000000) % 256) as u8);
}

/// Append the eight little-endian bytes of `n`.
pub fn put_u64_le(out: &mut Vec<u8>, n: u64)
    ensures
        final(out)@ =~= old(out)@ + u64_le_bytes(n),
{
    out.push((n % 256) as u8);
    out.push(((n / 0x100) % 256) as u8);
    out.push(((n / 0x10000) % 256) as u8);
    out.push(((n / 0x1000000) % 256) as u8);
    out.push(((n / 0x100000000) % 256) as u8);
    out.push(((n / 0x10000000000) % 256) as u8);
    out.push(((n / 0x1000000000000) % 256) as u8);
    out.push(((n / 0x100000000000000) % 256) as u8);
}

/// Read the 16-bit integer at `off`, little-endian.
pub fn get_u16_le(buf: &Vec<u8>, off: usize) -> (r: u16)
    requires
        off + 2 <= buf@.len(),
    ensures
        r == parse_u16_le(buf@, off as int),
{
    let n = buf.len();
    proof {
        assert(off + 2 <= n);
    }
    buf[off] as u16 + buf[off + 1] as u16 * 0x100
}

/// Read the 32-bit integer at `off`, little-endian.
pub fn get_u32_le(buf: &Vec<u8>, off: usize) -> (r: u32)
    requires
        off + 4 <= buf@.len(),
    ensures
        r == parse_u32_le(buf@, off as int),
{
    let n = buf.len();
    proof {
        assert(off + 4 <= n);
    }
    buf[off] as u32 + buf[off + 1] as u32 * 0x100 + buf[off + 2] as u32 * 0x10000
        + buf[off + 3] as u32 * 0x1000000
}

/// Read the 64-bit integer at `off`, little-endian.
pub fn get_u64_le(buf: &Vec<u8>, off: usize) -> (r: u64)
    requires
        off + 8 <= buf@.len(),
    ensures
        r == parse_u64_le(buf@, off as int),
{
    let n = buf.len();
    proof {
        assert(off + 8 <= n);
    }
    buf[off] as u64 + buf[off + 1] as u64 * 0x100 + buf[off + 2] as u64 * 0x10000
        + buf[off + 3] as u64 * 0x1000000 + buf[off + 4] as u64 * 0x100000000
        + buf[off + 5] as u64 * 0x10000000000 + buf[off + 6] as u64 * 0x1000000000000
        + buf[off + 7] as u64 * 0x100000000000000
}

/// Parsing the two little-endian bytes of `n` yields `n` back.
pub proof fn lemma_u16_le_round_trip(s: Seq<u8>, off: int, n: u16)
    requires
        0 <= off,
        off + 2 <= s.len(),
        s.subrange(off, off + 2) =~= u16_le_bytes(n),
    ensures
        parse_u16_le(s, off) == n,
{
    assert(s[off] == u16_le_bytes(n)[0]);
    assert(s[off + 1] == u16_le_bytes(n)[1]);
    assert(n % 256 + (n / 256) * 0x100 == n) by (bit_vector);
}

/// Parsing the four little-endian bytes of `n` yields `n` back.
pub proof fn lemma_u32_le_round_trip(s: Seq<u8>, off: int, n: u32)
    requires
        0 <= off,
        off + 4 <= s.len(),
        s.subrange(off, off + 4) =~= u32_le_bytes(n),
    ensures
        parse_u32_le(s, off) == n,
{
    assert(s[off] == u32_le_bytes(n)[0]);
    assert(s[off + 1] == u32_le_bytes(n)[1]);
    assert(s[off + 2] == u32_le_bytes(n)[2]);
    assert(s[off + 3] == u32_le_bytes(n)[3]);
    assert(n % 256 + ((n / 0x100) % 256) * 0x100 + ((n / 0x10000) % 256) * 0x10000 + ((n
        / 0x1000000) % 256) * 0x1000000 == n) by (bit_vector);
}

/// Parsing the eight little-endian bytes of `n` yields `n` back.
pub proof fn lemma_u64_le_round_trip(s: Seq<u8>, off: int, n: u64)
    requires
        0 <= off,
        off + 8 <= s.len(),
        s.subrange(off, off + 8) =~= u64_le_bytes(n),
    ensures
        parse_u64_le(s, off) == n,
{
    assert(s[off] == u64_le_bytes(n)[0]);
    assert(s[off + 1] == u64_le_bytes(n)[1]);
    assert(s[off + 2] == u64_le_bytes(n)[2]);
    assert(s[off + 3] == u64_le_bytes(n)[3]);
    assert(s[off + 4] == u64_le_bytes(n)[4]);
    assert(s[off + 5] == u64_le_bytes(n)[5]);
    assert(s[off + 6] == u64_le_bytes(n)[6]);
    assert(s[off + 7] == u64_le_bytes(n)[7]);
    assert(n % 256 + ((n / 0x100) % 256) * 0x100 + ((n / 0x10000) % 256) * 0x10000 + ((n
        / 0x1000000) % 256) * 0x1000000 + ((n / 0x100000000) % 256) * 0x100000000 + ((n
        / 0x10000000000) % 256) * 0x10000000000 + ((n / 0x1000000000000) % 256) * 0x1000000000000
        + ((n / 0x100000000000000) % 256) * 0x100000000000000 == n) by (bit_vector);
}

} // verus!
