use btclib::crypto::{PrivateKey, PublicKey, Signature};
use btclib::types::{
    Block, BlockHeader, Blockchain, Transaction, TransactionInput, TransactionOutput,
};
use btclib::u256::U256;
use btclib::util::MerkleRoot;

fn pair(n: u64) -> (PrivateKey, PublicKey) {
    let private = PrivateKey::from_scalar(U256::from_u64(n));
    let public = private.public_key().unwrap();
    (private, public)
}

fn transfer(from: &TransactionOutput, signer: &PrivateKey, value: u64, id: u128) -> Transaction {
    let hash = from.hash();
    let signature = Signature::sign_output(&hash, signer).unwrap();
    Transaction::new(
        vec![TransactionInput { prev_transaction_output_hash: hash, signature }],
        vec![TransactionOutput { value, unique_id: id, pubkey: from.pubkey }],
    )
}

fn funded_chain(outputs: Vec<TransactionOutput>) -> Blockchain {
    let mut chain = Blockchain::new();
    let transactions = vec![Transaction::new(
        vec![TransactionInput {
            prev_transaction_output_hash: btclib::sha256::Hash::zero(),
            signature: Signature { r: U256::zero(), s: U256::zero() },
        }],
        outputs,
    )];
    let root = MerkleRoot::calculate(&transactions);
    let header = BlockHeader::new(1_000, 0, btclib::sha256::Hash::zero(), root, U256::max_value());
    assert_eq!(chain.add_block(Block::new(header, transactions)), Ok(()));
    chain
}

#[test]
fn template_on_an_empty_chain_is_a_coinbase() {
    let (_, miner) = pair(3);
    let chain = Blockchain::new();
    let template = chain.compose_template(miner, 99, 500, 10);
    assert_eq!(template.transactions.len(), 1);
    assert_eq!(template.transactions[0].inputs.len(), 1);
    assert_eq!(
        template.transactions[0].outputs,
        vec![TransactionOutput { value: 5_000_000_000, unique_id: 99, pubkey: miner }]
    );
    assert_eq!(template.header.prev_block_hash, btclib::sha256::Hash::zero());
    assert_eq!(template.header.target, U256::min_target());
    assert_eq!(template.header.timestamp, 500);
    assert_eq!(template.header.nonce, 0);
    assert_eq!(template.header.merkle_root, MerkleRoot::calculate(&template.transactions));
    assert!(chain.validate_template(&template));
}

#[test]
fn template_takes_pending_transactions_by_descending_fee() {
    let (owner_key, owner) = pair(7);
    let (thief_key, _) = pair(8);
    let (_, miner) = pair(9);
    let a = TransactionOutput { value: 100, unique_id: 1, pubkey: owner };
    let b = TransactionOutput { value: 100, unique_id: 2, pubkey: owner };
    let c = TransactionOutput { value: 100, unique_id: 3, pubkey: owner };
    let d = TransactionOutput { value: 4_999_999_700, unique_id: 4, pubkey: owner };
    let mut chain = funded_chain(vec![a, b, c, d]);
    let fee_30 = transfer(&a, &owner_key, 70, 11);
    let fee_10 = transfer(&b, &owner_key, 90, 12);
    let forged_fee_50 = transfer(&c, &thief_key, 50, 13);
    let competing_fee_5 = transfer(&a, &owner_key, 95, 14);
    for tx in [&fee_30, &fee_10, &forged_fee_50, &competing_fee_5] {
        assert_eq!(chain.add_to_mempool_at(tx.clone(), 1), Ok(()));
    }
    assert_eq!(chain.mempool().len(), 4);

    let template = chain.compose_template(miner, 99, 2_000, 10);
    assert_eq!(template.transactions.len(), 3);
    assert_eq!(template.transactions[1], fee_30);
    assert_eq!(template.transactions[2], fee_10);
    assert_eq!(
        template.transactions[0].outputs,
        vec![TransactionOutput { value: 2_500_000_000 * 2 + 40, unique_id: 99, pubkey: miner }]
    );
    assert_eq!(template.header.prev_block_hash, chain.blocks()[0].hash());
    assert!(chain.validate_template(&template));

    let narrow = chain.compose_template(miner, 99, 2_000, 1);
    assert_eq!(narrow.transactions.len(), 2);
    assert_eq!(narrow.transactions[1], fee_30);
    assert_eq!(narrow.transactions[0].outputs[0].value, 5_000_000_030);
    let none = chain.compose_template(miner, 99, 2_000, 0);
    assert_eq!(none.transactions.len(), 1);

    // Mined, the template is admitted, and what it included leaves the pool.
    let mut block = template;
    while !block.header.mine(100_000) {}
    assert_eq!(chain.add_block(block), Ok(()));
    assert_eq!(chain.blocks_height(), 2);
    let left: Vec<btclib::sha256::Hash> = chain.mempool().iter().map(|e| e.1.hash()).collect();
    assert_eq!(left, vec![competing_fee_5.hash(), forged_fee_50.hash()]);
}

#[test]
fn template_validity_follows_the_chain() {
    let (_, owner) = pair(7);
    let (_, miner) = pair(9);
    let a = TransactionOutput { value: 5_000_000_000, unique_id: 1, pubkey: owner };
    let mut chain = funded_chain(vec![a]);
    let stale = chain.compose_template(miner, 99, 1_000, 10);
    assert!(!chain.validate_template(&stale));
    let good = chain.compose_template(miner, 99, 1_001, 10);
    assert!(chain.validate_template(&good));
    let mut tampered = good.clone();
    tampered.transactions[0].outputs[0].value += 1;
    assert!(!chain.validate_template(&tampered));
    tampered.header.merkle_root = MerkleRoot::calculate(&tampered.transactions);
    assert!(!chain.validate_template(&tampered));
    // Another block arrives first: the template no longer links.
    let mut other = chain.compose_template(miner, 100, 1_500, 10);
    while !other.header.mine(100_000) {}
    assert_eq!(chain.add_block(other), Ok(()));
    assert!(!chain.validate_template(&good));
}
