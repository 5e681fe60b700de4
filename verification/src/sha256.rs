//! SHA-256 digests read as 256-bit numbers.
use vstd::prelude::*;
use crate::u256::U256;

verus! {

/// The text that `sha256::digest` returns for `data`: the SHA-256 digest of
/// the bytes, written as hexadecimal digits.
pub uninterp spec fn sha256_hex(data: Seq<u8>) -> Seq<char>;

/// Whether `c` is one of `0-9`, `a-f`, `A-F`.
pub open spec fn is_hex_digit(c: char) -> bool {
    ('0' <= c && c <= '9') || ('a' <= c && c <= 'f') || ('A' <= c && c <= 'F')
}

/// The number that a hexadecimal digit stands for.
pub open spec fn hex_digit_value(c: char) -> int {
    if '0' <= c && c <= '9' {
        c as int - '0' as int
    } else if 'a' <= c && c <= 'f' {
        c as int - 'a' as int + 10
    } else {
        c as int - 'A' as int + 10
    }
}

/// Whether `text` is an even number of hexadecimal digits.
pub open spec fn is_hex(text: Seq<char>) -> bool {
    text.len() % 2 == 0 && forall|i: int| 0 <= i < text.len() ==> is_hex_digit(#[trigger] text[i])
}

/// The bytes that hexadecimal text spells, two digits to a byte.
pub open spec fn hex_bytes(text: Seq<char>) -> Seq<u8> {
    Seq::new(
        text.len() / 2,
        |i: int| (16 * hex_digit_value(text[2 * i]) + hex_digit_value(text[2 * i + 1])) as u8,
    )
}

/// The SHA-256 digest of `data`, as bytes.
pub open spec fn sha256(data: Seq<u8>) -> Seq<u8> {
    hex_bytes(sha256_hex(data))
}

/// `sha256::digest` on a byte slice. Trusted: the result is the text named
/// `sha256_hex`, which is sixty-four hexadecimal digits (the crate encodes
/// the thirty-two bytes of the digest with `hex::encode`).
#[verifier::external_body]
fn digest_hex(data: &[u8]) -> (text: String)
    ensures
        text@ == sha256_hex(data@),
        text@.len() == 64,
        is_hex(text@),
{
    ::sha256::digest(data)
}

/// `hex::decode` on a string slice. Trusted: it succeeds exactly on an even
/// number of hexadecimal digits, and each pair of digits gives one byte, the
/// first digit being the upper half.
#[verifier::external_body]
fn hex_decode(text: &str) -> (bytes: Option<Vec<u8>>)
    ensures
        bytes is Some <==> is_hex(text@),
        bytes matches Some(v) ==> v@ == hex_bytes(text@),
{
    hex::decode(text).ok()
}

/// Whether `c` is one of `0-9`, `a-f`.
pub open spec fn is_lower_hex_digit(c: char) -> bool {
    ('0' <= c && c <= '9') || ('a' <= c && c <= 'f')
}

/// `hex::encode` on a byte slice. Trusted: the text has two digits for each
/// byte, all of `0-9` and `a-f`, and spells the bytes.
#[verifier::external_body]
fn hex_encode(bytes: &[u8]) -> (text: String)
    ensures
        text@.len() == 2 * bytes@.len(),
        forall|i: int| 0 <= i < text@.len() ==> is_lower_hex_digit(#[trigger] text@[i]),
        hex_bytes(text@) == bytes@,
{
    hex::encode(bytes)
}

/// A SHA-256 digest, read as an unsigned 256-bit number whose most
/// significant byte is the first byte of the digest.
#[derive(Clone, Copy, Debug, PartialEq, Eq, Structural, Hash)]
pub struct Hash(pub U256);

impl Hash {
    /// The hash of a byte string.
    pub open spec fn of(data: Seq<u8>) -> Hash {
        Hash(U256::parse(sha256(data)))
    }

    /// The thirty-two bytes of the hash, least significant first.
    pub open spec fn le_bytes(self) -> Seq<u8> {
        self.0.encoding().reverse()
    }

    /// Hashes a canonical encoding.
    pub fn hash(data: &[u8]) -> (h: Hash)
        ensures
            h == Hash::of(data@),
    {
        let text = digest_hex(data);
        match hex_decode(text.as_str()) {
            Some(bytes) => {
                assert(bytes@.skip(0) =~= bytes@);
                Hash(U256::read(bytes.as_slice(), 0))
            },
            None => Hash::zero(),
        }
    }

    /// The hash as sixty-four hexadecimal digits, most significant first.
    pub fn to_hex(&self) -> (text: String)
        ensures
            text@.len() == 64,
            forall|i: int| 0 <= i < 64 ==> is_lower_hex_digit(#[trigger] text@[i]),
            hex_bytes(text@) == self.0.encoding(),
    {
        let bytes = self.0.to_be_bytes();
        hex_encode(bytes.as_slice())
    }

    /// Whether the hash, as a number, is at most `target`.
    pub fn matches_target(&self, target: U256) -> (r: bool)
        ensures
            r == (self.0@ <= target@),
    {
        self.0.le(&target)
    }

    /// The hash whose bits are all zero.
    pub fn zero() -> (h: Hash)
        ensures
            h.0@ == 0,
            h == Hash(U256 { w3: 0, w2: 0, w1: 0, w0: 0 }),
    {
        Hash(U256::zero())
    }

    /// The thirty-two bytes of the hash, least significant first.
    pub fn as_bytes(&self) -> (bytes: [u8; 32])
        ensures
            bytes@ == self.le_bytes(),
    {
        let be = self.0.to_be_bytes();
        let mut out = [0u8; 32];
        let mut i: usize = 0;
        while i < 32
            invariant
                i <= 32,
                be@.len() == 32,
                out@.len() == 32,
                forall|j: int| 0 <= j < i ==> out@[j] == be@[31 - j],
            decreases 32 - i,
        {
            out[i] = be[31 - i];
            i = i + 1;
        }
        assert(out@ =~= be@.reverse());
        out
    }
}

} // verus!
