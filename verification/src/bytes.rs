//! Big-endian scalars on byte sequences.
//!
//! Every record of the store is laid out from the fields below, most
//! significant byte first and without padding.

use vstd::prelude::*;

verus! {

/// The two bytes of `x`, most significant first.
pub open spec fn be_u16(x: u16) -> Seq<u8> {
    seq![((x >> 8) & 0xff) as u8, (x & 0xff) as u8]
}

/// The four bytes of `x`, most significant first.
pub open spec fn be_u32(x: u32) -> Seq<u8> {
    seq![
        ((x >> 24) & 0xff) as u8,
        ((x >> 16) & 0xff) as u8,
        ((x >> 8) & 0xff) as u8,
        (x & 0xff) as u8,
    ]
}

/// The eight bytes of `x`, most significant first.
pub open spec fn be_u64(x: u64) -> Seq<u8> {
    seq![
        ((x >> 56) & 0xff) as u8,
        ((x >> 48) & 0xff) as u8,
        ((x >> 40) & 0xff) as u8,
        ((x >> 32) & 0xff) as u8,
        ((x >> 24) & 0xff) as u8,
        ((x >> 16) & 0xff) as u8,
        ((x >> 8) & 0xff) as u8,
        (x & 0xff) as u8,
    ]
}

/// The number that the first two bytes of `s` spell.
pub open spec fn u16_at(s: Seq<u8>, at: int) -> u16 {
    ((s[at] as u16) << 8) | (s[at + 1] as u16)
}

/// The number that four bytes of `s` spell, starting at `at`.
pub open spec fn u32_at(s: Seq<u8>, at: int) -> u32 {
    ((s[at] as u32) << 24) | ((s[at + 1] as u32) << 16) | ((s[at + 2] as u32) << 8) | (s[at
        + 3] as u32)
}

/// The number that eight bytes of `s` spell, starting at `at`.
pub open spec fn u64_at(s: Seq<u8>, at: int) -> u64 {
    ((s[at] as u64) << 56) | ((s[at + 1] as u64) << 48) | ((s[at + 2] as u64) << 40) | ((s[at
        + 3] as u64) << 32) | ((s[at + 4] as u64) << 24) | ((s[at + 5] as u64) << 16) | ((s[at
        + 6] as u64) << 8) | (s[at + 7] as u64)
}

/// The two's-complement pattern of a signed 16-bit number.
pub open spec fn pattern_of(x: i16) -> u16 {
    if x < 0 {
        (x + 0x1_0000) as u16
    } else {
        x as u16
    }
}

/// The signed number that a 16-bit two's-complement pattern stands for.
pub open spec fn signed_of(p: u16) -> i16 {
    if p >= 0x8000 {
        (p - 0x1_0000) as i16
    } else {
        p as i16
    }
}

/// Where two bytes of `s` are those of `x`, they spell `x`.
pub proof fn lemma_u16_round_trip(s: Seq<u8>, at: int, x: u16)
    requires
        0 <= at,
        at + 2 <= s.len(),
        s.subrange(at, at + 2) == be_u16(x),
    ensures
        u16_at(s, at) == x,
{
    let w = s.subrange(at, at + 2);
    assert(s[at] == w[0] && s[at + 1] == w[1]);
    assert(((((x >> 8) & 0xff) as u8 as u16) << 8) | ((x & 0xff) as u8 as u16) == x)
        by (bit_vector);
}

/// Where four bytes of `s` are those of `x`, they spell `x`.
pub proof fn lemma_u32_round_trip(s: Seq<u8>, at: int, x: u32)
    requires
        0 <= at,
        at + 4 <= s.len(),
        s.subrange(at, at + 4) == be_u32(x),
    ensures
        u32_at(s, at) == x,
{
    let w = s.subrange(at, at + 4);
    assert(s[at] == w[0] && s[at + 1] == w[1] && s[at + 2] == w[2] && s[at + 3] == w[3]);
    assert(((((x >> 24) & 0xff) as u8 as u32) << 24) | ((((x >> 16) & 0xff) as u8 as u32) << 16)
        | ((((x >> 8) & 0xff) as u8 as u32) << 8) | ((x & 0xff) as u8 as u32) == x)
        by (bit_vector);
}

/// Where eight bytes of `s` are those of `x`, they spell `x`.
pub proof fn lemma_u64_round_trip(s: Seq<u8>, at: int, x: u64)
    requires
        0 <= at,
        at + 8 <= s.len(),
        s.subrange(at, at + 8) == be_u64(x),
    ensures
        u64_at(s, at) == x,
{
    let w = s.subrange(at, at + 8);
    assert(s[at] == w[0] && s[at + 1] == w[1] && s[at + 2] == w[2] && s[at + 3] == w[3]);
    assert(s[at + 4] == w[4] && s[at + 5] == w[5] && s[at + 6] == w[6] && s[at + 7] == w[7]);
    assert(((((x >> 56) & 0xff) as u8 as u64) << 56) | ((((x >> 48) & 0xff) as u8 as u64) << 48)
        | ((((x >> 40) & 0xff) as u8 as u64) << 40) | ((((x >> 32) & 0xff) as u8 as u64) << 32)
        | ((((x >> 24) & 0xff) as u8 as u64) << 24) | ((((x >> 16) & 0xff) as u8 as u64) << 16)
        | ((((x >> 8) & 0xff) as u8 as u64) << 8) | ((x & 0xff) as u8 as u64) == x)
        by (bit_vector);
}

/// Where two bytes of `s` are those of the pattern of `x`, they spell `x`.
pub proof fn lemma_i16_round_trip(s: Seq<u8>, at: int, x: i16)
    requires
        0 <= at,
        at + 2 <= s.len(),
        s.subrange(at, at + 2) == be_u16(pattern_of(x)),
    ensures
        signed_of(u16_at(s, at)) == x,
{
    lemma_u16_round_trip(s, at, pattern_of(x));
}

/// Different numbers have different bytes.
pub proof fn lemma_be_u64_injective(a: u64, b: u64)
    requires
        be_u64(a) == be_u64(b),
    ensures
        a == b,
{
    assert(be_u64(a).subrange(0, 8) =~= be_u64(a));
    assert(be_u64(b).subrange(0, 8) =~= be_u64(b));
    lemma_u64_round_trip(be_u64(a), 0, a);
    lemma_u64_round_trip(be_u64(b), 0, b);
}

/// Appends the two bytes of `x` to `out`.
pub fn put_u16(out: &mut Vec<u8>, x: u16)
    ensures
        final(out)@ == old(out)@ + be_u16(x),
{
    out.push(((x >> 8) & 0xff) as u8);
    out.push((x & 0xff) as u8);
    assert(out@ =~= old(out)@ + be_u16(x));
}

/// Appends the four bytes of `x` to `out`.
pub fn put_u32(out: &mut Vec<u8>, x: u32)
    ensures
        final(out)@ == old(out)@ + be_u32(x),
{
    out.push(((x >> 24) & 0xff) as u8);
    out.push(((x >> 16) & 0xff) as u8);
    out.push(((x >> 8) & 0xff) as u8);
    out.push((x & 0xff) as u8);
    assert(out@ =~= old(out)@ + be_u32(x));
}

/// Appends the eight bytes of `x` to `out`.
pub fn put_u64(out: &mut Vec<u8>, x: u64)
    ensures
        final(out)@ == old(out)@ + be_u64(x),
{
    out.push(((x >> 56) & 0xff) as u8);
    out.push(((x >> 48) & 0xff) as u8);
    out.push(((x >> 40) & 0xff) as u8);
    out.push(((x >> 32) & 0xff) as u8);
    out.push(((x >> 24) & 0xff) as u8);
    out.push(((x >> 16) & 0xff) as u8);
    out.push(((x >> 8) & 0xff) as u8);
    out.push((x & 0xff) as u8);
    assert(out@ =~= old(out)@ + be_u64(x));
}

/// Appends the two bytes of the signed number `x` to `out`.
pub fn put_i16(out: &mut Vec<u8>, x: i16)
    ensures
        final(out)@ == old(out)@ + be_u16(pattern_of(x)),
{
    let wide: i32 = x as i32;
    let pattern: u16 = if wide < 0 {
        (wide + 0x1_0000) as u16
    } else {
        wide as u16
    };
    put_u16(out, pattern);
}

/// Reads two bytes of `bytes`, starting at `at`.
pub fn get_u16(bytes: &[u8], at: usize) -> (x: u16)
    requires
        at + 2 <= bytes@.len(),
    ensures
        x == u16_at(bytes@, at as int),
{
    ((bytes[at] as u16) << 8) | (bytes[at + 1] as u16)
}

/// Reads four bytes of `bytes`, starting at `at`.
pub fn get_u32(bytes: &[u8], at: usize) -> (x: u32)
    requires
        at + 4 <= bytes@.len(),
    ensures
        x == u32_at(bytes@, at as int),
{
    ((bytes[at] as u32) << 24) | ((bytes[at + 1] as u32) << 16) | ((bytes[at + 2] as u32) << 8)
        | (bytes[at + 3] as u32)
}

/// Reads eight bytes of `bytes`, starting at `at`.
pub fn get_u64(bytes: &[u8], at: usize) -> (x: u64)
    requires
        at + 8 <= bytes@.len(),
    ensures
        x == u64_at(bytes@, at as int),
{
    ((bytes[at] as u64) << 56) | ((bytes[at + 1] as u64) << 48) | ((bytes[at + 2] as u64) << 40)
        | ((bytes[at + 3] as u64) << 32) | ((bytes[at + 4] as u64) << 24) | ((bytes[at
        + 5] as u64) << 16) | ((bytes[at + 6] as u64) << 8) | (bytes[at + 7] as u64)
}

/// Reads two bytes of `bytes`, starting at `at`, as a signed number.
pub fn get_i16(bytes: &[u8], at: usize) -> (x: i16)
    requires
        at + 2 <= bytes@.len(),
    ensures
        x == signed_of(u16_at(bytes@, at as int)),
{
    let pattern: u16 = get_u16(bytes, at);
    if pattern >= 0x8000 {
        ((pattern as i32) - 0x1_0000) as i16
    } else {
        pattern as i16
    }
}

} // verus!
