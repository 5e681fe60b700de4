use btclib::crypto::{PrivateKey, PublicKey, Signature};
use btclib::error::BtcError;
use btclib::types::block::reward_at;
use btclib::types::blockchain::{clamped_target, next_target};
use btclib::types::{BlockHeader, Transaction, TransactionInput, TransactionOutput};
use btclib::u256::U256;
use btclib::util::{hash_pair, MerkleRoot, Tally};

fn number(w3: u64, w2: u64, w1: u64, w0: u64) -> U256 {
    U256 { w3, w2, w1, w0 }
}

fn some_key(n: u64) -> (PrivateKey, PublicKey) {
    let private = PrivateKey::from_scalar(U256::from_u64(n));
    let public = private.public_key().unwrap();
    (private, public)
}

fn some_transaction(id: u128) -> Transaction {
    let (_, owner) = some_key(3);
    Transaction::new(
        vec![TransactionInput {
            prev_transaction_output_hash: btclib::sha256::Hash::zero(),
            signature: Signature { r: U256::from_u64(1), s: U256::from_u64(2) },
        }],
        vec![TransactionOutput { value: 9, unique_id: id, pubkey: owner }],
    )
}

#[test]
fn hash_is_the_sha256_digest_read_as_a_number() {
    let hello = btclib::sha256::Hash::hash(b"hello");
    assert_eq!(
        hello.0,
        number(0x2cf24dba5fb0a30e, 0x26e83b2ac5b9e29e, 0x1b161e5c1fa7425e, 0x73043362938b9824)
    );
    let empty = btclib::sha256::Hash::hash(b"");
    assert_eq!(
        empty.0,
        number(0xe3b0c44298fc1c14, 0x9afbf4c8996fb924, 0x27ae41e4649b934c, 0xa495991b7852b855)
    );
    assert_eq!(
        hello.to_hex(),
        "2cf24dba5fb0a30e26e83b2ac5b9e29e1b161e5c1fa7425e73043362938b9824"
    );
    assert_eq!(btclib::sha256::Hash::zero().to_hex(), "0".repeat(64));
}

#[test]
fn hash_bytes_are_least_significant_first() {
    let hello = btclib::sha256::Hash::hash(b"hello");
    let bytes = hello.as_bytes();
    assert_eq!(bytes[0], 0x24);
    assert_eq!(bytes[1], 0x98);
    assert_eq!(bytes[31], 0x2c);
    let mut reversed = bytes.to_vec();
    reversed.reverse();
    assert_eq!(reversed, hello.0.to_be_bytes());
    assert_eq!(btclib::sha256::Hash::zero().as_bytes(), [0u8; 32]);
}

#[test]
fn hash_matches_target_when_not_above_it() {
    let h = btclib::sha256::Hash(U256::from_u64(100));
    assert!(h.matches_target(U256::from_u64(100)));
    assert!(h.matches_target(U256::from_u64(101)));
    assert!(!h.matches_target(U256::from_u64(99)));
    assert!(h.matches_target(number(1, 0, 0, 0)));
    let high = btclib::sha256::Hash(number(1, 0, 0, 0));
    assert!(!high.matches_target(number(0, u64::MAX, u64::MAX, u64::MAX)));
    assert!(btclib::sha256::Hash::zero().matches_target(U256::zero()));
}

#[test]
fn easiest_target_has_sixteen_leading_zero_bits() {
    let easiest = U256::min_target();
    assert_eq!(easiest, number(0x0000_FFFF_FFFF_FFFF, u64::MAX, u64::MAX, u64::MAX));
    let bytes = easiest.to_be_bytes();
    assert_eq!(&bytes[..2], &[0, 0]);
    assert!(bytes[2..].iter().all(|b| *b == 0xFF));
}

#[test]
fn u256_order_is_numeric() {
    let small = number(0, 0, 5, 0);
    let large = number(0, 1, 0, 0);
    assert!(small.lt(&large));
    assert!(small.le(&large));
    assert!(!large.le(&small));
    assert!(small.le(&small));
    assert!(!small.lt(&small));
    assert_eq!(small.min(large), small);
    assert_eq!(large.min(small), small);
}

#[test]
fn u256_quarter_and_four_times() {
    assert_eq!(U256::from_u64(1000).quarter(), U256::from_u64(250));
    assert_eq!(U256::from_u64(1003).quarter(), U256::from_u64(250));
    assert_eq!(number(0, 0, 1, 0).quarter(), number(0, 0, 0, 1 << 62));
    assert_eq!(number(3, 0, 0, 1).quarter(), number(0, 3 << 62, 0, 0));
    assert_eq!(U256::from_u64(1000).times_four(), Some(U256::from_u64(4000)));
    assert_eq!(number(0, 0, 0, 1 << 62).times_four(), Some(number(0, 0, 1, 0)));
    assert_eq!(number(1 << 61, 0, 0, 0).times_four(), Some(number(1 << 63, 0, 0, 0)));
    assert_eq!(number(1 << 62, 0, 0, 0).times_four(), None);
    assert_eq!(U256::max_value().times_four(), None);
    assert_eq!(
        U256::min_target().times_four(),
        Some(number(0x0003_FFFF_FFFF_FFFF, u64::MAX, u64::MAX, u64::MAX - 3))
    );
    assert_eq!(U256::from_u64(7).times_small_plus(256, 9), Some(U256::from_u64(7 * 256 + 9)));
}

#[test]
fn u256_bytes_spell_the_number() {
    let n = number(1, 2, 3, 4);
    let bytes = n.to_be_bytes();
    assert_eq!(bytes.len(), 32);
    assert_eq!(bytes[7], 1);
    assert_eq!(bytes[15], 2);
    assert_eq!(bytes[23], 3);
    assert_eq!(bytes[31], 4);
    assert_eq!(U256::from_be_slice(&bytes), Some(n));
    assert_eq!(U256::read(&bytes, 0), n);
    assert_eq!(U256::from_be_slice(&[]), Some(U256::zero()));
    assert_eq!(U256::from_be_slice(&[1, 0]), Some(U256::from_u64(256)));
    let mut long = vec![0u8; 8];
    long.extend_from_slice(&bytes);
    assert_eq!(U256::from_be_slice(&long), Some(n));
    let mut too_long = vec![1u8];
    too_long.extend_from_slice(&bytes);
    assert_eq!(U256::from_be_slice(&too_long), None);
}

#[test]
fn tally_sums_past_128_bits() {
    let mut t = Tally::zero();
    t.add(u128::MAX);
    t.add(5);
    assert_eq!((t.high, t.low), (1, 4));
    let mut u = Tally::zero();
    u.add(10);
    assert_eq!(t.minus(&u), Some(u128::MAX - 5));
    assert_eq!(u.minus(&t), None);
    let mut w = Tally::zero();
    w.add(u128::MAX);
    w.add(u128::MAX);
    w.add(7);
    assert_eq!((w.high, w.low), (2, 5));
    assert_eq!(w.minus(&u), None);
    let mut v = Tally::zero();
    v.add(u128::MAX);
    assert_eq!(t.minus(&v), Some(5));
    assert_eq!(v.minus(&v), Some(0));
}

#[test]
fn signature_verifies_under_the_signers_key() {
    let (private, public) = some_key(12345);
    let hash = btclib::sha256::Hash::hash(b"an output");
    let signature = Signature::sign_output(&hash, &private).unwrap();
    assert!(signature.verify(&hash, &public));
    let again = Signature::sign_output(&hash, &private).unwrap();
    assert_eq!(signature, again);
}

#[test]
fn signature_fails_under_another_key_or_hash() {
    let (private, public) = some_key(12345);
    let (_, other) = some_key(54321);
    let hash = btclib::sha256::Hash::hash(b"an output");
    let signature = Signature::sign_output(&hash, &private).unwrap();
    assert!(!signature.verify(&hash, &other));
    assert!(!signature.verify(&btclib::sha256::Hash::hash(b"another"), &public));
    let forged = Signature { r: signature.s, s: signature.r };
    assert!(!forged.verify(&hash, &public));
    let nothing = Signature { r: U256::zero(), s: U256::zero() };
    assert!(!nothing.verify(&hash, &public));
    let no_point = PublicKey { prefix: 9, x: public.x };
    assert!(!signature.verify(&hash, &no_point));
}

#[test]
fn key_bytes_round_trip() {
    let (_, public) = some_key(1);
    // The generator of the curve, compressed.
    assert_eq!(public.prefix, 2);
    assert_eq!(
        public.x,
        number(0x79BE667EF9DCBBAC, 0x55A06295CE870B07, 0x029BFCDB2DCE28D9, 0x59F2815B16F81798)
    );
    let bytes = public.to_bytes();
    assert_eq!(bytes.len(), 33);
    assert_eq!(PublicKey::from_bytes(&bytes), Some(public));
    assert_eq!(PublicKey::from_bytes(&bytes[..32]), None);
    let signature = Signature { r: U256::from_u64(7), s: U256::from_u64(8) };
    let encoded = signature.to_bytes();
    assert_eq!(encoded.len(), 64);
    assert_eq!(encoded[31], 7);
    assert_eq!(encoded[63], 8);
    assert_eq!(Signature::from_bytes(&encoded), Some(signature));
    assert_eq!(Signature::from_bytes(&encoded[1..]), None);
}

#[test]
fn zero_is_no_private_key() {
    let zero = PrivateKey::from_scalar(U256::zero());
    assert_eq!(zero.public_key(), None);
    assert_eq!(Signature::sign_output(&btclib::sha256::Hash::zero(), &zero), None);
    let too_large = PrivateKey::from_scalar(U256::max_value());
    assert_eq!(too_large.public_key(), None);
}

#[test]
fn fresh_keys_differ_and_sign() {
    let a = PrivateKey::new_key();
    let b = PrivateKey::new_key();
    assert_ne!(a, b);
    let public = a.public_key().unwrap();
    let hash = btclib::sha256::Hash::hash(b"x");
    let signature = Signature::sign_output(&hash, &a).unwrap();
    assert!(signature.verify(&hash, &public));
    assert!(!signature.verify(&hash, &b.public_key().unwrap()));
}

#[test]
fn merkle_root_of_one_is_its_hash() {
    let tx = some_transaction(1);
    assert_eq!(MerkleRoot::calculate(&[tx.clone()]), MerkleRoot(tx.hash()));
}

#[test]
fn merkle_root_pairs_and_duplicates_the_odd_one() {
    let a = some_transaction(1);
    let b = some_transaction(2);
    let c = some_transaction(3);
    let ab = hash_pair(&a.hash(), &b.hash());
    assert_eq!(MerkleRoot::calculate(&[a.clone(), b.clone()]), MerkleRoot(ab));
    let cc = hash_pair(&c.hash(), &c.hash());
    assert_eq!(
        MerkleRoot::calculate(&[a.clone(), b.clone(), c.clone()]),
        MerkleRoot(hash_pair(&ab, &cc))
    );
    assert_ne!(
        MerkleRoot::calculate(&[b.clone(), a.clone()]),
        MerkleRoot::calculate(&[a, b])
    );
    let mut bytes = vec![0, 0, 0, 0, 0, 0, 0, 2];
    bytes.extend_from_slice(&c.hash().0.to_be_bytes());
    bytes.extend_from_slice(&c.hash().0.to_be_bytes());
    assert_eq!(cc, btclib::sha256::Hash::hash(&bytes));
}

#[test]
fn transaction_hash_is_the_hash_of_its_encoding() {
    let tx = some_transaction(1);
    assert_eq!(tx.hash(), btclib::sha256::Hash::hash(&tx.to_bytes()));
    assert_ne!(tx.hash(), some_transaction(2).hash());
    let output = tx.outputs[0];
    let mut bytes = Vec::new();
    output.encode_into(&mut bytes);
    assert_eq!(bytes.len(), 57);
    assert_eq!(output.hash(), btclib::sha256::Hash::hash(&bytes));
    assert_eq!(tx.output_value(), 9);
}

#[test]
fn mining_stops_at_the_first_solution() {
    let root = MerkleRoot(btclib::sha256::Hash::zero());
    let mut easy = BlockHeader::new(5, 17, btclib::sha256::Hash::zero(), root, U256::max_value());
    assert!(easy.mine(100));
    assert_eq!(easy.nonce, 17);
    let mut hopeless = BlockHeader::new(5, 17, btclib::sha256::Hash::zero(), root, U256::zero());
    assert!(!hopeless.mine(10));
    assert_eq!(hopeless.nonce, 27);
    assert_eq!(hopeless.timestamp, 5);
    let mut real = BlockHeader::new(5, 0, btclib::sha256::Hash::zero(), root, U256::min_target());
    let mut rounds = 0;
    while !real.mine(50_000) {
        rounds += 1;
        assert!(rounds < 1_000);
    }
    assert!(real.hash().matches_target(real.target));
    let found = real.nonce;
    let mut again = BlockHeader::new(5, 0, btclib::sha256::Hash::zero(), root, U256::min_target());
    while !again.mine(50_000) {}
    assert_eq!(again.nonce, found);
    if found > 0 {
        let before = BlockHeader::new(5, found - 1, btclib::sha256::Hash::zero(), root, U256::min_target());
        assert!(!before.hash().matches_target(before.target));
    }
}

#[test]
fn mining_wraps_the_nonce_and_takes_the_time() {
    let root = MerkleRoot(btclib::sha256::Hash::zero());
    let mut header = BlockHeader::new(5, u64::MAX - 1, btclib::sha256::Hash::zero(), root, U256::zero());
    assert!(!header.mine(3));
    assert_eq!(header.nonce, 1);
    assert!(header.timestamp > 1_600_000_000);
}

#[test]
fn target_adjustment_scales_and_clamps() {
    let t = U256::from_u64(1_000_000);
    assert_eq!(next_target(&t, 0, 500), t);
    assert_eq!(next_target(&t, 0, 1000), U256::from_u64(2_000_000));
    assert_eq!(next_target(&t, 0, 250), U256::from_u64(500_000));
    assert_eq!(next_target(&t, 0, 333), U256::from_u64(666_000));
    assert_eq!(next_target(&U256::from_u64(7), 0, 333), U256::from_u64(4));
    assert_eq!(next_target(&t, 0, 2000), U256::from_u64(4_000_000));
    assert_eq!(next_target(&t, 0, 2001), U256::from_u64(4_000_000));
    assert_eq!(next_target(&t, 0, 10_000_000), U256::from_u64(4_000_000));
    assert_eq!(next_target(&t, i64::MIN, i64::MAX), U256::from_u64(4_000_000));
    assert_eq!(next_target(&t, 0, 125), U256::from_u64(250_000));
    assert_eq!(next_target(&t, 0, 124), U256::from_u64(250_000));
    assert_eq!(next_target(&t, 0, 1), U256::from_u64(250_000));
    assert_eq!(next_target(&t, 0, 0), U256::from_u64(250_000));
    assert_eq!(next_target(&t, 10, 0), U256::from_u64(250_000));
    assert_eq!(next_target(&U256::zero(), 0, 700), U256::zero());
}

#[test]
fn scaled_target_is_clamped() {
    let t = U256::from_u64(1_000);
    assert_eq!(clamped_target(&t, &[]), U256::from_u64(250));
    assert_eq!(clamped_target(&t, &[0]), U256::from_u64(250));
    assert_eq!(clamped_target(&t, &[249]), U256::from_u64(250));
    assert_eq!(clamped_target(&t, &[250]), U256::from_u64(250));
    assert_eq!(clamped_target(&t, &[251]), U256::from_u64(251));
    assert_eq!(clamped_target(&t, &[0x0F, 0xA0]), U256::from_u64(4_000));
    assert_eq!(clamped_target(&t, &[0x0F, 0xA1]), U256::from_u64(4_000));
    assert_eq!(clamped_target(&t, &[0, 0, 0x0F, 0x9F]), U256::from_u64(3_999));
    assert_eq!(clamped_target(&t, &[1; 40]), U256::from_u64(4_000));
    assert_eq!(clamped_target(&U256::max_value(), &[1; 40]), U256::min_target());
    assert_eq!(clamped_target(&U256::min_target(), &[1; 31]), U256::min_target());
}

#[test]
fn target_adjustment_is_capped_at_the_easiest() {
    let easiest = U256::min_target();
    assert_eq!(next_target(&easiest, 0, 500), easiest);
    assert_eq!(next_target(&easiest, 0, 501), easiest);
    assert_eq!(next_target(&easiest, 0, 5_000), easiest);
    assert_eq!(next_target(&easiest, 0, i64::MAX), easiest);
    assert_eq!(next_target(&U256::max_value(), 0, 5_000), easiest);
    assert_eq!(next_target(&U256::max_value(), 0, 1), easiest);
    assert_eq!(
        next_target(&easiest, 0, 125),
        number(0x0000_3FFF_FFFF_FFFF, u64::MAX, u64::MAX, u64::MAX)
    );
}

#[test]
fn reward_halves_every_interval() {
    assert_eq!(reward_at(0), 50 * 100_000_000);
    assert_eq!(reward_at(2 * btclib::HALVING_INTERVAL), btclib::INITIAL_REWARD * 100_000_000 / 4);
    assert_eq!(reward_at(3 * 210), 625_000_000);
    assert_eq!(reward_at(3 * 210 - 1), 1_250_000_000);
}

#[test]
fn error_messages() {
    assert_eq!(BtcError::InvalidBlock.message(), "invalid block");
    assert_eq!(BtcError::InvalidTransaction.message(), "invalid transaction");
    assert_eq!(BtcError::InvalidSignature.message(), "invalid signature");
    assert_eq!(BtcError::IoError.message(), "malformed stored data");
    assert_eq!(BtcError::NetworkError.message(), "malformed message");
}

#[test]
fn fresh_keys_are_valid_secrets() {
    for _ in 0..20 {
        let key = PrivateKey::new_key();
        assert_ne!(key.scalar, U256::zero());
        let public = key.public_key().unwrap();
        assert!(public.prefix == 2 || public.prefix == 3);
        assert_eq!(public.to_bytes().len(), 33);
        assert_eq!(PrivateKey::from_scalar(key.scalar).public_key(), Some(public));
    }
}
