//! Unsigned 256-bit integers, held as four 64-bit words.
use vstd::prelude::*;
use crate::codec::{
    be_nat,
    lemma_be_nat_append_u64,
    lemma_u64_bytes_of_value,
    lemma_u64_round_trip,
    push_u64,
    read_u64,
    u64_be,
    u64_of_be,
};

verus! {

/// 2^64.
pub open spec fn word_base() -> nat {
    0x1_0000_0000_0000_0000
}

/// An unsigned 256-bit integer. `w3` is the most significant word.
#[derive(Clone, Copy, Debug, PartialEq, Eq, Structural, Hash)]
pub struct U256 {
    pub w3: u64,
    pub w2: u64,
    pub w1: u64,
    pub w0: u64,
}

impl View for U256 {
    type V = nat;

    /// The number that the four words stand for.
    closed spec fn view(&self) -> nat {
        (((self.w3 as nat * word_base() + self.w2 as nat) * word_base() + self.w1 as nat)
            * word_base() + self.w0 as nat) as nat
    }
}

/// 2^256.
pub open spec fn u256_limit() -> nat {
    0x1_0000_0000_0000_0000_0000_0000_0000_0000_0000_0000_0000_0000_0000_0000_0000_0000nat
}

/// 2^240 - 1: the easiest target a chain ever asks for.
pub open spec fn min_target_value() -> nat {
    0xFFFF_FFFF_FFFF_FFFF_FFFF_FFFF_FFFF_FFFF_FFFF_FFFF_FFFF_FFFF_FFFF_FFFF_FFFFnat
}

/// Every 256-bit integer is below 2^256.
pub proof fn lemma_value_bounds(a: U256)
    ensures
        a@ < u256_limit(),
{
    assert(a@ < u256_limit()) by (nonlinear_arith)
        requires
            a@ == ((a.w3 as nat * word_base() + a.w2 as nat) * word_base() + a.w1 as nat)
                * word_base() + a.w0 as nat,
            a.w3 < word_base(),
            a.w2 < word_base(),
            a.w1 < word_base(),
            a.w0 < word_base(),
            word_base() == 0x1_0000_0000_0000_0000,
            u256_limit()
                == 0x1_0000_0000_0000_0000_0000_0000_0000_0000_0000_0000_0000_0000_0000_0000_0000_0000nat,
    ;
}

/// The value determines the words.
pub proof fn lemma_value_injective(a: U256, b: U256)
    requires
        a@ == b@,
    ensures
        a == b,
{
    let base = word_base() as int;
    let ah = (a.w3 as int * base + a.w2 as int) * base + a.w1 as int;
    let bh = (b.w3 as int * base + b.w2 as int) * base + b.w1 as int;
    assert(ah * base + a.w0 == bh * base + b.w0);
    assert(ah == bh && a.w0 == b.w0) by (nonlinear_arith)
        requires
            ah * base + a.w0 == bh * base + b.w0,
            0 <= a.w0 < base,
            0 <= b.w0 < base,
    ;
    let ahh = a.w3 as int * base + a.w2 as int;
    let bhh = b.w3 as int * base + b.w2 as int;
    assert(ahh == bhh && a.w1 == b.w1) by (nonlinear_arith)
        requires
            ahh * base + a.w1 == bhh * base + b.w1,
            0 <= a.w1 < base,
            0 <= b.w1 < base,
    ;
    assert(a.w3 == b.w3 && a.w2 == b.w2) by (nonlinear_arith)
        requires
            a.w3 as int * base + a.w2 == b.w3 as int * base + b.w2,
            0 <= a.w2 < base,
            0 <= b.w2 < base,
    ;
}

/// Numeric order is the lexicographic order of the words, most significant
/// first.
pub proof fn lemma_order_by_words(a: U256, b: U256)
    ensures
        a@ <= b@ <==> (a.w3 < b.w3 || (a.w3 == b.w3 && (a.w2 < b.w2 || (a.w2 == b.w2 && (a.w1
            < b.w1 || (a.w1 == b.w1 && a.w0 <= b.w0)))))),
{
    let base = word_base() as int;
    let ahh = a.w3 as int * base + a.w2 as int;
    let bhh = b.w3 as int * base + b.w2 as int;
    let ah = ahh * base + a.w1 as int;
    let bh = bhh * base + b.w1 as int;
    assert(ahh < bhh <==> (a.w3 < b.w3 || (a.w3 == b.w3 && a.w2 < b.w2))) by (nonlinear_arith)
        requires
            ahh == a.w3 as int * base + a.w2 as int,
            bhh == b.w3 as int * base + b.w2 as int,
            0 <= a.w2 < base,
            0 <= b.w2 < base,
    ;
    assert(ahh == bhh <==> (a.w3 == b.w3 && a.w2 == b.w2)) by (nonlinear_arith)
        requires
            ahh == a.w3 as int * base + a.w2 as int,
            bhh == b.w3 as int * base + b.w2 as int,
            0 <= a.w2 < base,
            0 <= b.w2 < base,
    ;
    assert(ah < bh <==> (ahh < bhh || (ahh == bhh && a.w1 < b.w1))) by (nonlinear_arith)
        requires
            ah == ahh * base + a.w1 as int,
            bh == bhh * base + b.w1 as int,
            0 <= a.w1 < base,
            0 <= b.w1 < base,
    ;
    assert(ah == bh <==> (ahh == bhh && a.w1 == b.w1)) by (nonlinear_arith)
        requires
            ah == ahh * base + a.w1 as int,
            bh == bhh * base + b.w1 as int,
            0 <= a.w1 < base,
            0 <= b.w1 < base,
    ;
    assert(ah * base + a.w0 <= bh * base + b.w0 <==> (ah < bh || (ah == bh && a.w0 <= b.w0)))
        by (nonlinear_arith)
        requires
            0 <= a.w0 < base,
            0 <= b.w0 < base,
    ;
}

/// The thirty-two bytes of a number spell the number.
pub proof fn lemma_encoding_value(a: U256)
    ensures
        a.encoding().len() == 32,
        be_nat(a.encoding()) == a@,
{
    reveal(U256::encoding);
    let e: Seq<u8> = Seq::empty();
    let s3 = e + u64_be(a.w3);
    let s2 = s3 + u64_be(a.w2);
    let s1 = s2 + u64_be(a.w1);
    let s0 = s1 + u64_be(a.w0);
    assert(be_nat(e) == 0);
    assert(s3 =~= u64_be(a.w3));
    lemma_be_nat_append_u64(e, a.w3);
    lemma_be_nat_append_u64(s3, a.w2);
    lemma_be_nat_append_u64(s2, a.w1);
    lemma_be_nat_append_u64(s1, a.w0);
    assert(s0 =~= a.encoding());
    let v3 = be_nat(s3);
    let v2 = be_nat(s2);
    let v1 = be_nat(s1);
    let v0 = be_nat(s0);
    assert(v3 == a.w3 as nat);
    assert(v2 == v3 * word_base() + a.w2 as nat);
    assert(v1 == v2 * word_base() + a.w1 as nat);
    assert(v0 == v1 * word_base() + a.w0 as nat);
}

/// Reading back the bytes of a number gives the number, whatever follows
/// them.
pub proof fn lemma_u256_round_trip(a: U256, rest: Seq<u8>)
    ensures
        a.encoding().len() == 32,
        U256::parse(a.encoding() + rest) == a,
{
    reveal(U256::encoding);
    reveal(U256::parse);
    let e3 = u64_be(a.w3);
    let e2 = u64_be(a.w2);
    let e1 = u64_be(a.w1);
    let e0 = u64_be(a.w0);
    let s = a.encoding() + rest;
    lemma_u64_round_trip(a.w3, e2 + e1 + e0 + rest);
    lemma_u64_round_trip(a.w2, e1 + e0 + rest);
    lemma_u64_round_trip(a.w1, e0 + rest);
    lemma_u64_round_trip(a.w0, rest);
    assert(s =~= e3 + (e2 + e1 + e0 + rest));
    assert(s.skip(8) =~= e2 + (e1 + e0 + rest));
    assert(s.skip(16) =~= e1 + (e0 + rest));
    assert(s.skip(24) =~= e0 + rest);
}

/// The bytes of the number that thirty-two bytes spell are those
/// thirty-two bytes.
pub proof fn lemma_u256_bytes_of_value(s: Seq<u8>)
    requires
        s.len() >= 32,
    ensures
        U256::parse(s).encoding() == s.take(32),
{
    reveal(U256::encoding);
    reveal(U256::parse);
    lemma_u64_bytes_of_value(s);
    lemma_u64_bytes_of_value(s.skip(8));
    lemma_u64_bytes_of_value(s.skip(16));
    lemma_u64_bytes_of_value(s.skip(24));
    assert(s.take(32) =~= s.take(8) + s.skip(8).take(8) + s.skip(16).take(8) + s.skip(24).take(
        8,
    ));
}

impl U256 {
    /// The number zero.
    pub fn zero() -> (r: U256)
        ensures
            r@ == 0,
            r == (U256 { w3: 0, w2: 0, w1: 0, w0: 0 }),
    {
        U256 { w3: 0, w2: 0, w1: 0, w0: 0 }
    }

    /// The largest 256-bit integer, 2^256 - 1.
    pub fn max_value() -> (r: U256)
        ensures
            r@ == u256_limit() - 1,
    {
        U256 {
            w3: 0xFFFF_FFFF_FFFF_FFFF,
            w2: 0xFFFF_FFFF_FFFF_FFFF,
            w1: 0xFFFF_FFFF_FFFF_FFFF,
            w0: 0xFFFF_FFFF_FFFF_FFFF,
        }
    }

    /// The easiest target, 2^240 - 1: the upper sixteen bits are zero.
    pub fn min_target() -> (r: U256)
        ensures
            r@ == min_target_value(),
    {
        U256 {
            w3: 0x0000_FFFF_FFFF_FFFF,
            w2: 0xFFFF_FFFF_FFFF_FFFF,
            w1: 0xFFFF_FFFF_FFFF_FFFF,
            w0: 0xFFFF_FFFF_FFFF_FFFF,
        }
    }

    /// A small number as a 256-bit integer.
    pub fn from_u64(x: u64) -> (r: U256)
        ensures
            r@ == x,
    {
        U256 { w3: 0, w2: 0, w1: 0, w0: x }
    }

    /// `self <= other`, as numbers.
    pub fn le(&self, other: &U256) -> (r: bool)
        ensures
            r == (self@ <= other@),
    {
        proof {
            lemma_order_by_words(*self, *other);
        }
        if self.w3 != other.w3 {
            self.w3 < other.w3
        } else if self.w2 != other.w2 {
            self.w2 < other.w2
        } else if self.w1 != other.w1 {
            self.w1 < other.w1
        } else {
            self.w0 <= other.w0
        }
    }

    /// `self < other`, as numbers.
    pub fn lt(&self, other: &U256) -> (r: bool)
        ensures
            r == (self@ < other@),
    {
        !other.le(self)
    }

    /// The smaller of two numbers.
    pub fn min(self, other: U256) -> (r: U256)
        ensures
            r@ == if self@ <= other@ { self@ } else { other@ },
            r == self || r == other,
    {
        if self.le(&other) {
            self
        } else {
            other
        }
    }

    /// The thirty-two bytes of the number, most significant first.
    #[verifier::opaque]
    pub open spec fn encoding(self) -> Seq<u8> {
        u64_be(self.w3) + u64_be(self.w2) + u64_be(self.w1) + u64_be(self.w0)
    }

    /// The number that the first thirty-two bytes of `s` spell.
    #[verifier::opaque]
    pub open spec fn parse(s: Seq<u8>) -> U256 {
        U256 {
            w3: u64_of_be(s),
            w2: u64_of_be(s.skip(8)),
            w1: u64_of_be(s.skip(16)),
            w0: u64_of_be(s.skip(24)),
        }
    }

    /// Appends the thirty-two bytes of the number to `out`.
    pub fn encode_into(&self, out: &mut Vec<u8>)
        ensures
            final(out)@ == old(out)@ + self.encoding(),
    {
        reveal(U256::encoding);
        push_u64(out, self.w3);
        push_u64(out, self.w2);
        push_u64(out, self.w1);
        push_u64(out, self.w0);
        assert(out@ =~= old(out)@ + self.encoding());
    }

    /// The thirty-two bytes of the number, most significant first.
    pub fn to_be_bytes(&self) -> (r: Vec<u8>)
        ensures
            r@ == self.encoding(),
            r@.len() == 32,
            be_nat(r@) == self@,
    {
        let mut out: Vec<u8> = Vec::new();
        self.encode_into(&mut out);
        proof {
            assert(out@ =~= self.encoding());
            lemma_encoding_value(*self);
        }
        out
    }

    /// Reads the number that stands at `at` in `data`.
    pub fn read(data: &[u8], at: usize) -> (r: U256)
        requires
            at + 32 <= data.len(),
        ensures
            r == U256::parse(data@.skip(at as int)),
    {
        reveal(U256::parse);
        let w3 = read_u64(data, at);
        let w2 = read_u64(data, at + 8);
        let w1 = read_u64(data, at + 16);
        let w0 = read_u64(data, at + 24);
        proof {
            let s = data@.skip(at as int);
            assert(s.skip(8) =~= data@.skip(at + 8));
            assert(s.skip(16) =~= data@.skip(at + 16));
            assert(s.skip(24) =~= data@.skip(at + 24));
        }
        U256 { w3, w2, w1, w0 }
    }

    /// A quarter of the number, rounded down.
    pub fn quarter(&self) -> (r: U256)
        ensures
            r@ == self@ / 4,
    {
        let q3: u64 = self.w3 / 4;
        let r3: u64 = self.w3 % 4;
        let c2: u128 = r3 as u128 * 0x1_0000_0000_0000_0000 + self.w2 as u128;
        let q2: u64 = (c2 / 4) as u64;
        let r2: u64 = (c2 % 4) as u64;
        let c1: u128 = r2 as u128 * 0x1_0000_0000_0000_0000 + self.w1 as u128;
        let q1: u64 = (c1 / 4) as u64;
        let r1: u64 = (c1 % 4) as u64;
        let c0: u128 = r1 as u128 * 0x1_0000_0000_0000_0000 + self.w0 as u128;
        let q0: u64 = (c0 / 4) as u64;
        let r0: u64 = (c0 % 4) as u64;
        let r = U256 { w3: q3, w2: q2, w1: q1, w0: q0 };
        assert(self@ == r@ * 4 + r0);
        r
    }

    /// Four times the number, or `None` where that does not fit in 256 bits.
    pub fn times_four(&self) -> (r: Option<U256>)
        ensures
            match r {
                Some(v) => v@ == self@ * 4,
                None => self@ * 4 >= u256_limit(),
            },
    {
        self.times_small_plus(4, 0)
    }

    /// `self * factor + addend`, or `None` where that does not fit in 256
    /// bits.
    pub fn times_small_plus(&self, factor: u16, addend: u8) -> (r: Option<U256>)
        ensures
            match r {
                Some(v) => v@ == self@ * factor + addend,
                None => self@ * factor + addend >= u256_limit(),
            },
    {
        let f: u128 = factor as u128;
        assert(self.w0 as u128 * f <= 0xFFFF_FFFF_FFFF_FFFF * 0xFFFF) by (nonlinear_arith)
            requires
                self.w0 <= 0xFFFF_FFFF_FFFF_FFFF,
                f <= 0xFFFF,
        ;
        assert(self.w1 as u128 * f <= 0xFFFF_FFFF_FFFF_FFFF * 0xFFFF) by (nonlinear_arith)
            requires
                self.w1 <= 0xFFFF_FFFF_FFFF_FFFF,
                f <= 0xFFFF,
        ;
        assert(self.w2 as u128 * f <= 0xFFFF_FFFF_FFFF_FFFF * 0xFFFF) by (nonlinear_arith)
            requires
                self.w2 <= 0xFFFF_FFFF_FFFF_FFFF,
                f <= 0xFFFF,
        ;
        assert(self.w3 as u128 * f <= 0xFFFF_FFFF_FFFF_FFFF * 0xFFFF) by (nonlinear_arith)
            requires
                self.w3 <= 0xFFFF_FFFF_FFFF_FFFF,
                f <= 0xFFFF,
        ;
        let c0: u128 = self.w0 as u128 * f + addend as u128;
        let n0: u64 = (c0 % 0x1_0000_0000_0000_0000) as u64;
        let k0: u128 = c0 / 0x1_0000_0000_0000_0000;
        let c1: u128 = self.w1 as u128 * f + k0;
        let n1: u64 = (c1 % 0x1_0000_0000_0000_0000) as u64;
        let k1: u128 = c1 / 0x1_0000_0000_0000_0000;
        let c2: u128 = self.w2 as u128 * f + k1;
        let n2: u64 = (c2 % 0x1_0000_0000_0000_0000) as u64;
        let k2: u128 = c2 / 0x1_0000_0000_0000_0000;
        let c3: u128 = self.w3 as u128 * f + k2;
        let n3: u64 = (c3 % 0x1_0000_0000_0000_0000) as u64;
        let k3: u128 = c3 / 0x1_0000_0000_0000_0000;
        let v = U256 { w3: n3, w2: n2, w1: n1, w0: n0 };
        proof {
            let base = word_base() as int;
            let part0 = self.w0 as int * f as int;
            let part1 = self.w1 as int * f as int;
            let part2 = self.w2 as int * f as int;
            let part3 = self.w3 as int * f as int;
            assert(self@ * factor == ((part3 * base + part2) * base + part1) * base + part0)
                by (nonlinear_arith)
                requires
                    self@ == ((self.w3 as int * base + self.w2 as int) * base + self.w1 as int)
                        * base + self.w0 as int,
                    part0 == self.w0 as int * f as int,
                    part1 == self.w1 as int * f as int,
                    part2 == self.w2 as int * f as int,
                    part3 == self.w3 as int * f as int,
                    f == factor,
            ;
            assert(self@ * factor + addend == v@ + k3 * u256_limit());
            lemma_value_bounds(v);
            assert(k3 != 0 ==> k3 * u256_limit() >= u256_limit()) by (nonlinear_arith)
                requires
                    k3 >= 0,
            ;
        }
        if k3 != 0 {
            None
        } else {
            Some(v)
        }
    }

    /// The number that a byte string of any length spells, most significant
    /// byte first, or `None` where it does not fit in 256 bits.
    pub fn from_be_slice(bytes: &[u8]) -> (r: Option<U256>)
        ensures
            match r {
                Some(v) => v@ == be_nat(bytes@),
                None => be_nat(bytes@) >= u256_limit(),
            },
    {
        let mut acc: Option<U256> = Some(U256::zero());
        let mut i: usize = 0;
        assert(bytes@.take(0) =~= Seq::<u8>::empty());
        while i < bytes.len()
            invariant
                i <= bytes.len(),
                match acc {
                    Some(v) => v@ == be_nat(bytes@.take(i as int)),
                    None => be_nat(bytes@.take(i as int)) >= u256_limit(),
                },
            decreases bytes.len() - i,
        {
            proof {
                let next = bytes@.take(i + 1);
                assert(next.drop_last() =~= bytes@.take(i as int));
                assert(next.last() == bytes@[i as int]);
            }
            acc = match acc {
                Some(v) => v.times_small_plus(256, bytes[i]),
                None => None,
            };
            i = i + 1;
        }
        assert(bytes@.take(i as int) =~= bytes@);
        acc
    }
}

} // verus!
