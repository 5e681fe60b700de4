//! The canonical byte encoding of integers: fixed width, most significant
//! byte first. Every hash and every message on the wire is built from it.
use vstd::prelude::*;

verus! {

/// The number that a byte string of any length spells, most significant byte
/// first.
pub open spec fn be_nat(s: Seq<u8>) -> nat
    decreases s.len(),
{
    if s.len() == 0 {
        0
    } else {
        be_nat(s.drop_last()) * 256 + s.last() as nat
    }
}

/// The eight bytes of a 64-bit integer, most significant first: byte `7 - k`
/// is what is left of `x` after `k` divisions by 256, modulo 256.
#[verifier::opaque]
pub open spec fn u64_be(x: u64) -> Seq<u8> {
    let q1 = x / 256;
    let q2 = q1 / 256;
    let q3 = q2 / 256;
    let q4 = q3 / 256;
    let q5 = q4 / 256;
    let q6 = q5 / 256;
    let q7 = q6 / 256;
    seq![
        (q7 % 256) as u8,
        (q6 % 256) as u8,
        (q5 % 256) as u8,
        (q4 % 256) as u8,
        (q3 % 256) as u8,
        (q2 % 256) as u8,
        (q1 % 256) as u8,
        (x % 256) as u8,
    ]
}

/// The 64-bit integer that the first eight bytes of `s` spell.
pub open spec fn u64_of_be(s: Seq<u8>) -> u64 {
    (((((((s[0] as int * 256 + s[1] as int) * 256 + s[2] as int) * 256 + s[3] as int) * 256
        + s[4] as int) * 256 + s[5] as int) * 256 + s[6] as int) * 256 + s[7] as int) as u64
}

/// Reading back the bytes of a 64-bit integer gives the integer, whatever
/// follows them.
pub proof fn lemma_u64_round_trip(x: u64, rest: Seq<u8>)
    ensures
        u64_be(x).len() == 8,
        u64_of_be(u64_be(x) + rest) == x,
{
    reveal(u64_be);
    let s = u64_be(x) + rest;
    assert(s[0] == u64_be(x)[0] && s[1] == u64_be(x)[1] && s[2] == u64_be(x)[2] && s[3]
        == u64_be(x)[3] && s[4] == u64_be(x)[4] && s[5] == u64_be(x)[5] && s[6] == u64_be(x)[6]
        && s[7] == u64_be(x)[7]);
}

/// The bytes of the 64-bit integer that eight bytes spell are those eight
/// bytes.
pub proof fn lemma_u64_bytes_of_value(s: Seq<u8>)
    requires
        s.len() >= 8,
    ensures
        u64_be(u64_of_be(s)) == s.take(8),
{
    reveal(u64_be);
    let h1: int = s[0] as int;
    let h2: int = h1 * 256 + s[1] as int;
    let h3: int = h2 * 256 + s[2] as int;
    let h4: int = h3 * 256 + s[3] as int;
    let h5: int = h4 * 256 + s[4] as int;
    let h6: int = h5 * 256 + s[5] as int;
    let h7: int = h6 * 256 + s[6] as int;
    let h8: int = h7 * 256 + s[7] as int;
    assert(0 <= h1 < 0x100);
    assert(0 <= h2 < 0x1_0000);
    assert(0 <= h3 < 0x100_0000);
    assert(0 <= h4 < 0x1_0000_0000);
    assert(0 <= h5 < 0x100_0000_0000);
    assert(0 <= h6 < 0x1_0000_0000_0000);
    assert(0 <= h7 < 0x100_0000_0000_0000);
    assert(0 <= h8 < 0x1_0000_0000_0000_0000);
    let x = u64_of_be(s);
    assert(x == h8);
    let q1 = x / 256;
    assert(q1 == h7 && x % 256 == s[7]);
    let q2 = q1 / 256;
    assert(q2 == h6 && q1 % 256 == s[6]);
    let q3 = q2 / 256;
    assert(q3 == h5 && q2 % 256 == s[5]);
    let q4 = q3 / 256;
    assert(q4 == h4 && q3 % 256 == s[4]);
    let q5 = q4 / 256;
    assert(q5 == h3 && q4 % 256 == s[3]);
    let q6 = q5 / 256;
    assert(q6 == h2 && q5 % 256 == s[2]);
    let q7 = q6 / 256;
    assert(q7 == h1 && q6 % 256 == s[1]);
    assert(q7 % 256 == s[0]);
    assert(u64_be(x) =~= s.take(8));
}

/// Appending the bytes of a 64-bit integer shifts the number spelt so far by
/// 64 bits and adds the integer.
pub proof fn lemma_be_nat_append_u64(s: Seq<u8>, x: u64)
    ensures
        u64_be(x).len() == 8,
        be_nat(s + u64_be(x)) == be_nat(s) * 0x1_0000_0000_0000_0000 + x,
{
    reveal(u64_be);
    let b = u64_be(x);
    let s1 = s.push(b[0]);
    let s2 = s1.push(b[1]);
    let s3 = s2.push(b[2]);
    let s4 = s3.push(b[3]);
    let s5 = s4.push(b[4]);
    let s6 = s5.push(b[5]);
    let s7 = s6.push(b[6]);
    let s8 = s7.push(b[7]);
    assert(s8 =~= s + b);
    assert(s1.drop_last() =~= s);
    assert(s2.drop_last() =~= s1);
    assert(s3.drop_last() =~= s2);
    assert(s4.drop_last() =~= s3);
    assert(s5.drop_last() =~= s4);
    assert(s6.drop_last() =~= s5);
    assert(s7.drop_last() =~= s6);
    assert(s8.drop_last() =~= s7);
    assert(be_nat(s1) == be_nat(s) * 256 + b[0]);
    assert(be_nat(s2) == be_nat(s1) * 256 + b[1]);
    assert(be_nat(s3) == be_nat(s2) * 256 + b[2]);
    assert(be_nat(s4) == be_nat(s3) * 256 + b[3]);
    assert(be_nat(s5) == be_nat(s4) * 256 + b[4]);
    assert(be_nat(s6) == be_nat(s5) * 256 + b[5]);
    assert(be_nat(s7) == be_nat(s6) * 256 + b[6]);
    assert(be_nat(s8) == be_nat(s7) * 256 + b[7]);
}

/// Appends the eight bytes of `x` to `out`.
pub fn push_u64(out: &mut Vec<u8>, x: u64)
    ensures
        final(out)@ == old(out)@ + u64_be(x),
{
    let q1 = x / 256;
    let q2 = q1 / 256;
    let q3 = q2 / 256;
    let q4 = q3 / 256;
    let q5 = q4 / 256;
    let q6 = q5 / 256;
    let q7 = q6 / 256;
    out.push((q7 % 256) as u8);
    out.push((q6 % 256) as u8);
    out.push((q5 % 256) as u8);
    out.push((q4 % 256) as u8);
    out.push((q3 % 256) as u8);
    out.push((q2 % 256) as u8);
    out.push((q1 % 256) as u8);
    out.push((x % 256) as u8);
    assert(out@ =~= old(out)@ + u64_be(x)) by {
        reveal(u64_be);
    }
}

/// Reads the 64-bit integer that stands at `at` in `data`.
pub fn read_u64(data: &[u8], at: usize) -> (x: u64)
    requires
        at + 8 <= data.len(),
    ensures
        x == u64_of_be(data@.skip(at as int)),
{
    let d0 = data[at] as u64;
    let d1 = data[at + 1] as u64;
    let d2 = data[at + 2] as u64;
    let d3 = data[at + 3] as u64;
    let d4 = data[at + 4] as u64;
    let d5 = data[at + 5] as u64;
    let d6 = data[at + 6] as u64;
    let d7 = data[at + 7] as u64;
    ((((((d0 * 256 + d1) * 256 + d2) * 256 + d3) * 256 + d4) * 256 + d5) * 256 + d6) * 256 + d7
}

/// Reads the 64-bit integer that stands at `at` in `data`, if eight bytes
/// are left there.
pub fn take_u64(data: &[u8], at: usize) -> (r: Option<u64>)
    requires
        at <= data.len(),
    ensures
        r == parse_u64(data@.skip(at as int)),
{
    if data.len() - at >= 8 {
        Some(read_u64(data, at))
    } else {
        None
    }
}

/// The 64-bit integer at the front of `s`, if `s` has eight bytes.
pub open spec fn parse_u64(s: Seq<u8>) -> Option<u64> {
    if s.len() >= 8 {
        Some(u64_of_be(s))
    } else {
        None
    }
}

} // verus!
