//! Fixed-width integers as byte sequences, in both byte orders.

use vstd::prelude::*;

verus! {

/// The eight bytes of `x`, most significant first.
pub open spec fn u64_be(x: u64) -> Seq<u8> {
    seq![
        (x >> 56) as u8,
        (x >> 48) as u8,
        (x >> 40) as u8,
        (x >> 32) as u8,
        (x >> 24) as u8,
        (x >> 16) as u8,
        (x >> 8) as u8,
        x as u8,
    ]
}

/// The eight bytes of `x`, least significant first.
pub open spec fn u64_le(x: u64) -> Seq<u8> {
    u64_be(x).reverse()
}

/// The number whose eight bytes, most significant first, are `s`.
pub open spec fn u64_of_be(s: Seq<u8>) -> u64 {
    ((s[0] as u64) << 56) | ((s[1] as u64) << 48) | ((s[2] as u64) << 40) | ((s[3] as u64) << 32)
        | ((s[4] as u64) << 24) | ((s[5] as u64) << 16) | ((s[6] as u64) << 8) | (s[7] as u64)
}

/// The sixteen bytes of `x`, most significant first.
pub open spec fn u128_be(x: u128) -> Seq<u8> {
    u64_be((x >> 64) as u64) + u64_be(x as u64)
}

/// The number whose sixteen bytes, most significant first, are `s`.
pub open spec fn u128_of_be(s: Seq<u8>) -> u128 {
    ((u64_of_be(s.subrange(0, 8)) as u128) << 64) | (u64_of_be(s.subrange(8, 16)) as u128)
}

/// The sixteen bytes of `x`, least significant first.
pub open spec fn u128_le(x: u128) -> Seq<u8> {
    u128_be(x).reverse()
}

/// `x` with its sixteen bytes in the opposite order.
pub open spec fn u128_swapped(x: u128) -> u128 {
    u128_of_be(u128_be(x).reverse())
}

/// Reading back the bytes of a number gives the number.
pub proof fn lemma_u64_round_trip(x: u64)
    ensures
        u64_of_be(u64_be(x)) == x,
        u64_be(x).len() == 8,
        u64_le(x).len() == 8,
        u64_le(x).reverse() == u64_be(x),
{
    assert(((((x >> 56) as u8) as u64) << 56) | ((((x >> 48) as u8) as u64) << 48) | ((((x
        >> 40) as u8) as u64) << 40) | ((((x >> 32) as u8) as u64) << 32) | ((((x >> 24) as u8)
        as u64) << 24) | ((((x >> 16) as u8) as u64) << 16) | ((((x >> 8) as u8) as u64) << 8) | (
    (x as u8) as u64) == x) by (bit_vector);
    assert(u64_le(x).reverse() =~= u64_be(x));
}

/// Eight bytes are the bytes of the number that they read as.
pub proof fn lemma_u64_bytes_round_trip(s: Seq<u8>)
    requires
        s.len() == 8,
    ensures
        u64_be(u64_of_be(s)) == s,
{
    let (b0, b1, b2, b3) = (s[0], s[1], s[2], s[3]);
    let (b4, b5, b6, b7) = (s[4], s[5], s[6], s[7]);
    let x = u64_of_be(s);
    assert((x >> 56) as u8 == b0 && (x >> 48) as u8 == b1 && (x >> 40) as u8 == b2 && (x
        >> 32) as u8 == b3 && (x >> 24) as u8 == b4 && (x >> 16) as u8 == b5 && (x >> 8) as u8
        == b6 && x as u8 == b7) by (bit_vector)
        requires
            x == ((b0 as u64) << 56) | ((b1 as u64) << 48) | ((b2 as u64) << 40) | ((b3 as u64)
                << 32) | ((b4 as u64) << 24) | ((b5 as u64) << 16) | ((b6 as u64) << 8) | (
            b7 as u64),
    ;
    assert(u64_be(x) =~= s);
}

/// Numbers with the same bytes are equal.
pub proof fn lemma_u64_le_injective(x: u64, y: u64)
    requires
        u64_le(x) == u64_le(y),
    ensures
        x == y,
{
    lemma_u64_round_trip(x);
    lemma_u64_round_trip(y);
}

/// Reading back the bytes of a number gives the number.
pub proof fn lemma_u128_round_trip(x: u128)
    ensures
        u128_of_be(u128_be(x)) == x,
        u128_be(x).len() == 16,
{
    lemma_u64_round_trip((x >> 64) as u64);
    lemma_u64_round_trip(x as u64);
    let s = u128_be(x);
    assert(s.subrange(0, 8) =~= u64_be((x >> 64) as u64));
    assert(s.subrange(8, 16) =~= u64_be(x as u64));
    assert(((((x >> 64) as u64) as u128) << 64) | ((x as u64) as u128) == x) by (bit_vector);
}

/// Sixteen bytes are the bytes of the number that they read as.
pub proof fn lemma_u128_bytes_round_trip(s: Seq<u8>)
    requires
        s.len() == 16,
    ensures
        u128_be(u128_of_be(s)) == s,
{
    let hi = u64_of_be(s.subrange(0, 8));
    let lo = u64_of_be(s.subrange(8, 16));
    let x = u128_of_be(s);
    assert((x >> 64) as u64 == hi && x as u64 == lo) by (bit_vector)
        requires
            x == ((hi as u128) << 64) | (lo as u128),
    ;
    lemma_u64_bytes_round_trip(s.subrange(0, 8));
    lemma_u64_bytes_round_trip(s.subrange(8, 16));
    assert(u128_be(x) =~= s);
}

/// Swapping the byte order exchanges the two byte sequences, and swapping twice
/// changes nothing.
pub proof fn lemma_u128_swapped(x: u128)
    ensures
        u128_le(u128_swapped(x)) == u128_be(x),
        u128_swapped(u128_swapped(x)) == x,
{
    lemma_u128_round_trip(x);
    lemma_u128_bytes_round_trip(u128_be(x).reverse());
    assert(u128_be(x).reverse().reverse() =~= u128_be(x));
}

/// Numbers with the same bytes are equal.
pub proof fn lemma_u128_le_injective(x: u128, y: u128)
    requires
        u128_le(x) == u128_le(y),
    ensures
        x == y,
{
    lemma_u128_round_trip(x);
    lemma_u128_round_trip(y);
    assert(u128_le(x).reverse() =~= u128_be(x));
    assert(u128_le(y).reverse() =~= u128_be(y));
}

/// A signed count keeps its value through its unsigned bit pattern.
pub proof fn lemma_i64_bits(x: i64, u: u64)
    ensures
        (x as u64) as i64 == x,
        (u as i64) as u64 == u,
{
    assert((x as u64) as i64 == x) by (bit_vector);
    assert((u as i64) as u64 == u) by (bit_vector);
}

/// Appends the eight bytes of `x`, most significant first.
pub fn push_u64_be(out: &mut Vec<u8>, x: u64)
    ensures
        final(out)@ == old(out)@ + u64_be(x),
{
    out.push(#[verifier::truncate] ((x >> 56) as u8));
    out.push(#[verifier::truncate] ((x >> 48) as u8));
    out.push(#[verifier::truncate] ((x >> 40) as u8));
    out.push(#[verifier::truncate] ((x >> 32) as u8));
    out.push(#[verifier::truncate] ((x >> 24) as u8));
    out.push(#[verifier::truncate] ((x >> 16) as u8));
    out.push(#[verifier::truncate] ((x >> 8) as u8));
    out.push(#[verifier::truncate] (x as u8));
    assert(out@ =~= old(out)@ + u64_be(x));
}

/// Reads the eight bytes from `at` on, most significant first.
pub fn read_u64_be(bytes: &[u8], at: usize) -> (x: u64)
    requires
        at + 8 <= bytes@.len(),
    ensures
        x == u64_of_be(bytes@.subrange(at as int, at + 8)),
{
    ((bytes[at] as u64) << 56) | ((bytes[at + 1] as u64) << 48) | ((bytes[at + 2] as u64) << 40)
        | ((bytes[at + 3] as u64) << 32) | ((bytes[at + 4] as u64) << 24) | ((bytes[at + 5] as u64)
        << 16) | ((bytes[at + 6] as u64) << 8) | (bytes[at + 7] as u64)
}

/// The sixteen bytes of `x`, most significant first.
pub fn u128_to_be(x: u128) -> (out: Vec<u8>)
    ensures
        out@ == u128_be(x),
{
    let mut out: Vec<u8> = Vec::new();
    push_u64_be(&mut out, #[verifier::truncate] ((x >> 64) as u64));
    push_u64_be(&mut out, #[verifier::truncate] (x as u64));
    assert(out@ =~= u128_be(x));
    out
}

/// `x` with its sixteen bytes in the opposite order.
pub fn u128_swap(x: u128) -> (y: u128)
    ensures
        y == u128_swapped(x),
{
    let be: Vec<u8> = u128_to_be(x);
    proof {
        lemma_u128_round_trip(x);
    }
    let mut le: Vec<u8> = Vec::new();
    let mut i: usize = 16;
    while i > 0
        invariant
            i <= 16,
            be@.len() == 16,
            le@ == be@.subrange(i as int, 16).reverse(),
        decreases i,
    {
        i = i - 1;
        le.push(be[i]);
        assert(le@ =~= be@.subrange(i as int, 16).reverse());
    }
    assert(be@.subrange(0, 16) =~= be@);
    u128_from_be(&le)
}

/// Reads sixteen bytes, most significant first.
pub fn u128_from_be(bytes: &Vec<u8>) -> (x: u128)
    requires
        bytes@.len() == 16,
    ensures
        x == u128_of_be(bytes@),
{
    let hi: u64 = read_u64_be(bytes.as_slice(), 0);
    let lo: u64 = read_u64_be(bytes.as_slice(), 8);
    ((hi as u128) << 64) | (lo as u128)
}

/// The number that eight bytes from `at` on stand for, the first one counting least.
pub open spec fn le_number(s: Seq<u8>, at: int) -> int {
    s[at] + 0x100 * s[at + 1] + 0x1_0000 * s[at + 2] + 0x100_0000 * s[at + 3] + 0x1_0000_0000
        * s[at + 4] + 0x100_0000_0000 * s[at + 5] + 0x1_0000_0000_0000 * s[at + 6]
        + 0x100_0000_0000_0000 * s[at + 7]
}

/// The number that eight bytes from `at` on stand for, the first one counting most.
pub open spec fn be_number(s: Seq<u8>, at: int) -> int {
    s[at + 7] + 0x100 * s[at + 6] + 0x1_0000 * s[at + 5] + 0x100_0000 * s[at + 4] + 0x1_0000_0000
        * s[at + 3] + 0x100_0000_0000 * s[at + 2] + 0x1_0000_0000_0000 * s[at + 1]
        + 0x100_0000_0000_0000 * s[at]
}

/// The bytes of a number add up to it, each counting 256 times the next in the one order,
/// and 256 times the one before it in the other.
pub proof fn law_bytes_add_up(x: u64)
    ensures
        u64_be(x).len() == 8,
        be_number(u64_be(x), 0) == x,
        u64_le(x).len() == 8,
        le_number(u64_le(x), 0) == x,
{
    assert((x as u8) + 0x100 * ((x >> 8) as u8) + 0x1_0000 * ((x >> 16) as u8) + 0x100_0000 * ((x
        >> 24) as u8) + 0x1_0000_0000 * ((x >> 32) as u8) + 0x100_0000_0000 * ((x >> 40) as u8)
        + 0x1_0000_0000_0000 * ((x >> 48) as u8) + 0x100_0000_0000_0000 * ((x >> 56) as u8) == x)
        by (bit_vector);
}

/// Reading eight bytes, most significant first, gives the number that they add up to.
pub proof fn law_read_bytes_add_up(s: Seq<u8>)
    requires
        s.len() == 8,
    ensures
        u64_of_be(s) == be_number(s, 0),
{
    lemma_u64_bytes_round_trip(s);
    law_bytes_add_up(u64_of_be(s));
}

/// The sixteen bytes of a number add up to it: the first eight count 2 to the 64th each
/// time that the last eight count one.
pub proof fn law_sixteen_bytes_add_up(x: u128)
    ensures
        u128_be(x).len() == 16,
        0x1_0000_0000_0000_0000 * be_number(u128_be(x), 0) + be_number(u128_be(x), 8) == x,
{
    let (hi, lo) = ((x >> 64) as u64, x as u64);
    law_bytes_add_up(hi);
    law_bytes_add_up(lo);
    assert(0x1_0000_0000_0000_0000 * ((x >> 64) as u64) + (x as u64) == x) by (bit_vector);
    assert(u128_be(x).subrange(0, 8) =~= u64_be(hi));
    assert(u128_be(x).subrange(8, 16) =~= u64_be(lo));
    let s = u128_be(x);
    assert(forall|i: int| 0 <= i < 8 ==> #[trigger] s[i] == u64_be(hi)[i]);
    assert(forall|i: int| 0 <= i < 8 ==> #[trigger] u64_be(lo)[i] == s[i + 8]);
    assert(be_number(s, 0) == be_number(u64_be(hi), 0));
    assert(be_number(s, 8) == be_number(u64_be(lo), 0));
}

/// A negative number has the bits of the number that lies 2 to the 64th above it.
pub proof fn law_signed_bits(x: i64)
    ensures
        x >= 0 ==> (x as u64) == x,
        x < 0 ==> (x as u64) == x + 0x1_0000_0000_0000_0000,
{
    assert(x < 0 ==> (x as u64) == x + 0x1_0000_0000_0000_0000) by (bit_vector);
}

} // verus!
