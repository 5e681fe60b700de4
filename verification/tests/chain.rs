use btclib::crypto::{PrivateKey, PublicKey, Signature};
use btclib::error::BtcError;
use btclib::types::{
    Block, BlockHeader, Blockchain, Transaction, TransactionInput, TransactionOutput,
};
use btclib::u256::U256;
use btclib::util::MerkleRoot;

fn key(n: u64) -> (PrivateKey, PublicKey) {
    let private = PrivateKey::from_scalar(U256::from_u64(n));
    let public = private.public_key().unwrap();
    (private, public)
}

fn coinbase(value: u64, id: u128, owner: PublicKey) -> Transaction {
    Transaction::new(
        vec![TransactionInput {
            prev_transaction_output_hash: btclib::sha256::Hash::zero(),
            signature: Signature { r: U256::zero(), s: U256::zero() },
        }],
        vec![TransactionOutput { value, unique_id: id, pubkey: owner }],
    )
}

fn spend(from: &TransactionOutput, signer: &PrivateKey, outputs: Vec<TransactionOutput>) -> Transaction {
    let hash = from.hash();
    let signature = Signature::sign_output(&hash, signer).unwrap();
    Transaction::new(
        vec![TransactionInput { prev_transaction_output_hash: hash, signature }],
        outputs,
    )
}

fn block_on(chain: &Blockchain, timestamp: i64, transactions: Vec<Transaction>) -> Block {
    let prev = match chain.blocks().last() {
        Some(last) => last.hash(),
        None => btclib::sha256::Hash::zero(),
    };
    let root = MerkleRoot::calculate(&transactions);
    Block::new(BlockHeader::new(timestamp, 0, prev, root, U256::max_value()), transactions)
}

fn chain_with_genesis(outputs: Vec<TransactionOutput>) -> Blockchain {
    let mut chain = Blockchain::new();
    let tx = Transaction::new(
        vec![TransactionInput {
            prev_transaction_output_hash: btclib::sha256::Hash::zero(),
            signature: Signature { r: U256::zero(), s: U256::zero() },
        }],
        outputs,
    );
    let block = block_on(&chain, 1_000, vec![tx]);
    assert_eq!(chain.add_block(block), Ok(()));
    chain
}

#[test]
fn genesis_acceptance() {
    let (_, owner) = key(7);
    let mut chain = Blockchain::new();
    let transactions = vec![coinbase(5_000_000_000, 1, owner)];
    let root = MerkleRoot::calculate(&transactions);
    let mut header = BlockHeader::new(1_000, 0, btclib::sha256::Hash::zero(), root, U256::min_target());
    while !header.mine(100_000) {}
    assert!(header.hash().matches_target(U256::min_target()));
    let output = transactions[0].outputs[0];
    assert_eq!(chain.add_block(Block::new(header, transactions)), Ok(()));
    assert_eq!(chain.blocks().len(), 1);
    assert_eq!(chain.blocks_height(), 1);
    assert_eq!(chain.utxos().len(), 1);
    let (marked, held) = chain.utxos().get(&output.hash()).unwrap();
    assert!(!marked);
    assert_eq!(held.value, 5_000_000_000);
    assert_eq!(held, output);
    assert_eq!(chain.target(), U256::min_target());
}

#[test]
fn genesis_must_name_the_zero_hash() {
    let (_, owner) = key(7);
    let mut chain = Blockchain::new();
    let transactions = vec![coinbase(5_000_000_000, 1, owner)];
    let root = MerkleRoot::calculate(&transactions);
    let header = BlockHeader::new(1_000, 0, btclib::sha256::Hash(U256::from_u64(1)), root, U256::max_value());
    assert_eq!(chain.add_block(Block::new(header, transactions)), Err(BtcError::InvalidBlock));
    assert_eq!(chain.blocks_height(), 0);
    assert_eq!(chain.utxos().len(), 0);
}

#[test]
fn unsolved_block_is_refused() {
    let (_, owner) = key(7);
    let mut chain = Blockchain::new();
    let transactions = vec![coinbase(5_000_000_000, 1, owner)];
    let root = MerkleRoot::calculate(&transactions);
    let header = BlockHeader::new(1_000, 0, btclib::sha256::Hash::zero(), root, U256::zero());
    assert_eq!(chain.add_block(Block::new(header, transactions)), Err(BtcError::InvalidBlock));
}

#[test]
fn wrong_merkle_root_is_refused() {
    let (_, owner) = key(7);
    let mut chain = Blockchain::new();
    let transactions = vec![coinbase(5_000_000_000, 1, owner)];
    let other = MerkleRoot::calculate(&[coinbase(5_000_000_000, 2, owner)]);
    let header = BlockHeader::new(1_000, 0, btclib::sha256::Hash::zero(), other, U256::max_value());
    assert_eq!(chain.add_block(Block::new(header, transactions)), Err(BtcError::InvalidBlock));
}

#[test]
fn empty_block_rejected() {
    let mut chain = Blockchain::new();
    let header = BlockHeader::new(
        1_000,
        0,
        btclib::sha256::Hash::zero(),
        MerkleRoot(btclib::sha256::Hash::zero()),
        U256::max_value(),
    );
    let block = Block::new(header, vec![]);
    assert_eq!(
        block.verify_transaction(0, chain.utxos()),
        Err(BtcError::InvalidTransaction)
    );
    assert_eq!(chain.add_block(block), Err(BtcError::InvalidBlock));
    assert_eq!(chain.blocks_height(), 0);
}

#[test]
fn coinbase_only_block_needs_the_exact_reward() {
    let (_, owner) = key(7);
    let mut chain = Blockchain::new();
    let short = block_on(&chain, 1_000, vec![coinbase(4_999_999_999, 1, owner)]);
    assert_eq!(chain.add_block(short), Err(BtcError::InvalidTransaction));
    let long = block_on(&chain, 1_000, vec![coinbase(5_000_000_001, 1, owner)]);
    assert_eq!(chain.add_block(long), Err(BtcError::InvalidTransaction));
    let exact = block_on(&chain, 1_000, vec![coinbase(5_000_000_000, 1, owner)]);
    assert_eq!(chain.add_block(exact), Ok(()));
}

#[test]
fn coinbase_needs_an_input_and_an_output() {
    let (_, owner) = key(7);
    let mut chain = Blockchain::new();
    let no_input = Transaction::new(
        vec![],
        vec![TransactionOutput { value: 5_000_000_000, unique_id: 1, pubkey: owner }],
    );
    let block = block_on(&chain, 1_000, vec![no_input]);
    assert_eq!(chain.add_block(block), Err(BtcError::InvalidTransaction));
    let mut no_output = coinbase(5_000_000_000, 1, owner);
    no_output.outputs.clear();
    let block = block_on(&chain, 1_000, vec![no_output]);
    assert_eq!(chain.add_block(block), Err(BtcError::InvalidTransaction));
}

#[test]
fn stale_timestamp() {
    let (_, owner) = key(7);
    let mut chain = Blockchain::new();
    let first = block_on(&chain, 1_000, vec![coinbase(5_000_000_000, 1, owner)]);
    assert_eq!(chain.add_block(first), Ok(()));
    let same = block_on(&chain, 1_000, vec![coinbase(5_000_000_000, 2, owner)]);
    assert_eq!(chain.add_block(same), Err(BtcError::InvalidBlock));
    let earlier = block_on(&chain, 999, vec![coinbase(5_000_000_000, 2, owner)]);
    assert_eq!(chain.add_block(earlier), Err(BtcError::InvalidBlock));
    let later = block_on(&chain, 1_001, vec![coinbase(5_000_000_000, 2, owner)]);
    assert_eq!(chain.add_block(later), Ok(()));
    assert_eq!(chain.blocks_height(), 2);
}

#[test]
fn wrong_previous_hash_is_refused() {
    let (_, owner) = key(7);
    let mut chain = Blockchain::new();
    let first = block_on(&chain, 1_000, vec![coinbase(5_000_000_000, 1, owner)]);
    assert_eq!(chain.add_block(first), Ok(()));
    let transactions = vec![coinbase(5_000_000_000, 2, owner)];
    let root = MerkleRoot::calculate(&transactions);
    let header = BlockHeader::new(2_000, 0, btclib::sha256::Hash::zero(), root, U256::max_value());
    assert_eq!(chain.add_block(Block::new(header, transactions)), Err(BtcError::InvalidBlock));
}

#[test]
fn fee_accounting() {
    let (owner_key, owner) = key(7);
    let (_, payee) = key(8);
    let funded = TransactionOutput { value: 100, unique_id: 1, pubkey: owner };
    let rest = TransactionOutput { value: 4_999_999_900, unique_id: 2, pubkey: owner };
    let mut chain = chain_with_genesis(vec![funded, rest]);
    let pay = spend(
        &funded,
        &owner_key,
        vec![TransactionOutput { value: 70, unique_id: 3, pubkey: payee }],
    );
    assert_eq!(chain.add_to_mempool_at(pay.clone(), 5), Ok(()));
    assert_eq!(chain.mempool().len(), 1);

    let without_fee = block_on(&chain, 2_000, vec![coinbase(5_000_000_000, 4, owner), pay.clone()]);
    assert_eq!(without_fee.calculate_miner_fees(chain.utxos()), Ok(30));
    assert_eq!(chain.add_block(without_fee), Err(BtcError::InvalidTransaction));
    let too_much = block_on(&chain, 2_000, vec![coinbase(5_000_000_031, 4, owner), pay.clone()]);
    assert_eq!(chain.add_block(too_much), Err(BtcError::InvalidTransaction));
    assert_eq!(chain.mempool().len(), 1);
    assert_eq!(chain.utxos().len(), 2);

    let exact = block_on(&chain, 2_000, vec![coinbase(5_000_000_030, 4, owner), pay.clone()]);
    assert_eq!(chain.add_block(exact), Ok(()));
    assert_eq!(chain.mempool().len(), 0);
    assert!(chain.utxos().get(&funded.hash()).is_none());
    assert_eq!(chain.utxos().get(&pay.outputs[0].hash()), Some((false, pay.outputs[0])));
    assert_eq!(chain.utxos().len(), 3);
}

#[test]
fn spent_outputs_leave_the_unspent_set() {
    let (owner_key, owner) = key(7);
    let (_, payee) = key(8);
    let a = TransactionOutput { value: 10, unique_id: 1, pubkey: owner };
    let b = TransactionOutput { value: 4_999_999_990, unique_id: 2, pubkey: owner };
    let mut chain = chain_with_genesis(vec![a, b]);
    let first = spend(&a, &owner_key, vec![TransactionOutput { value: 10, unique_id: 3, pubkey: payee }]);
    let second = spend(&b, &owner_key, vec![TransactionOutput { value: 4_999_999_990, unique_id: 4, pubkey: payee }]);
    let block = block_on(
        &chain,
        2_000,
        vec![coinbase(5_000_000_000, 5, owner), first.clone(), second.clone()],
    );
    assert_eq!(chain.add_block(block), Ok(()));
    for tx in [&first, &second] {
        for input in &tx.inputs {
            assert!(chain.utxos().get(&input.prev_transaction_output_hash).is_none());
        }
    }
}

#[test]
fn bad_signature_is_refused() {
    let (_, owner) = key(7);
    let (thief_key, thief) = key(9);
    let funded = TransactionOutput { value: 5_000_000_000, unique_id: 1, pubkey: owner };
    let mut chain = chain_with_genesis(vec![funded]);
    let steal = spend(
        &funded,
        &thief_key,
        vec![TransactionOutput { value: 5_000_000_000, unique_id: 2, pubkey: thief }],
    );
    let block = block_on(&chain, 2_000, vec![coinbase(5_000_000_000, 3, owner), steal]);
    assert_eq!(chain.add_block(block), Err(BtcError::InvalidSignature));
    assert_eq!(chain.blocks_height(), 1);
}

#[test]
fn unknown_output_is_refused() {
    let (owner_key, owner) = key(7);
    let funded = TransactionOutput { value: 5_000_000_000, unique_id: 1, pubkey: owner };
    let ghost = TransactionOutput { value: 5, unique_id: 99, pubkey: owner };
    let mut chain = chain_with_genesis(vec![funded]);
    let tx = spend(&ghost, &owner_key, vec![]);
    let block = block_on(&chain, 2_000, vec![coinbase(5_000_000_000, 3, owner), tx.clone()]);
    assert_eq!(block.calculate_miner_fees(chain.utxos()), Err(BtcError::InvalidTransaction));
    assert_eq!(chain.add_block(block), Err(BtcError::InvalidTransaction));
    assert_eq!(chain.add_to_mempool_at(tx, 5), Err(BtcError::InvalidTransaction));
    assert_eq!(chain.mempool().len(), 0);
}

#[test]
fn output_spent_twice_in_one_block_is_refused() {
    let (owner_key, owner) = key(7);
    let (_, payee) = key(8);
    let funded = TransactionOutput { value: 100, unique_id: 1, pubkey: owner };
    let rest = TransactionOutput { value: 4_999_999_900, unique_id: 2, pubkey: owner };
    let mut chain = chain_with_genesis(vec![funded, rest]);
    let first = spend(&funded, &owner_key, vec![TransactionOutput { value: 100, unique_id: 3, pubkey: payee }]);
    let second = spend(&funded, &owner_key, vec![TransactionOutput { value: 100, unique_id: 4, pubkey: payee }]);
    let block = block_on(&chain, 2_000, vec![coinbase(5_000_000_000, 5, owner), first, second]);
    assert_eq!(chain.add_block(block), Err(BtcError::InvalidTransaction));

    let hash = funded.hash();
    let signature = Signature::sign_output(&hash, &owner_key).unwrap();
    let twice = Transaction::new(
        vec![
            TransactionInput { prev_transaction_output_hash: hash, signature },
            TransactionInput { prev_transaction_output_hash: hash, signature },
        ],
        vec![TransactionOutput { value: 200, unique_id: 6, pubkey: payee }],
    );
    assert_eq!(chain.add_to_mempool_at(twice.clone(), 5), Err(BtcError::InvalidTransaction));
    let block = block_on(&chain, 2_000, vec![coinbase(5_000_000_000, 5, owner), twice]);
    assert_eq!(chain.add_block(block), Err(BtcError::InvalidTransaction));
}

#[test]
fn transaction_that_gives_out_too_much_is_refused() {
    let (owner_key, owner) = key(7);
    let funded = TransactionOutput { value: 100, unique_id: 1, pubkey: owner };
    let rest = TransactionOutput { value: 4_999_999_900, unique_id: 2, pubkey: owner };
    let mut chain = chain_with_genesis(vec![funded, rest]);
    let greedy = spend(&funded, &owner_key, vec![TransactionOutput { value: 101, unique_id: 3, pubkey: owner }]);
    assert_eq!(chain.add_to_mempool_at(greedy.clone(), 5), Err(BtcError::InvalidTransaction));
    assert_eq!(chain.utxos().get(&funded.hash()), Some((false, funded)));
    let block = block_on(&chain, 2_000, vec![coinbase(5_000_000_000, 5, owner), greedy.clone()]);
    assert_eq!(block.calculate_miner_fees(chain.utxos()), Err(BtcError::InvalidTransaction));
    assert_eq!(Block::verify_spend(&greedy, chain.utxos()), Err(BtcError::InvalidTransaction));
    assert_eq!(chain.add_block(block), Err(BtcError::InvalidTransaction));
}

#[test]
fn double_spend_in_mempool() {
    let (owner_key, owner) = key(7);
    let (_, x) = key(8);
    let (_, y) = key(9);
    let coin = TransactionOutput { value: 5_000_000_000, unique_id: 1, pubkey: owner };
    let mut chain = chain_with_genesis(vec![coin]);
    let a = spend(&coin, &owner_key, vec![TransactionOutput { value: 5_000_000_000, unique_id: 2, pubkey: x }]);
    let b = spend(&coin, &owner_key, vec![TransactionOutput { value: 4_000_000_000, unique_id: 3, pubkey: y }]);
    assert_eq!(chain.add_to_mempool_at(a.clone(), 10), Ok(()));
    assert_eq!(chain.mempool().len(), 1);
    assert_eq!(chain.utxos().get(&coin.hash()), Some((true, coin)));
    assert_eq!(chain.add_to_mempool_at(b.clone(), 11), Ok(()));
    assert_eq!(chain.utxos().get(&coin.hash()), Some((true, coin)));
    let held: Vec<btclib::sha256::Hash> = chain.mempool().iter().map(|entry| entry.1.hash()).collect();
    assert!(held.contains(&b.hash()));
    // No pending transaction produces the coinbase output, so the mark is
    // released in place and the earlier spender stays; fees ascend.
    assert_eq!(held, vec![a.hash(), b.hash()]);
}

#[test]
fn conflict_evicts_the_pending_producer() {
    let (owner_key, owner) = key(7);
    let (_, payee) = key(8);
    let first = TransactionOutput { value: 100, unique_id: 1, pubkey: owner };
    let second = TransactionOutput { value: 4_999_999_900, unique_id: 2, pubkey: owner };
    let mut chain = chain_with_genesis(vec![first, second]);
    // Pending: spends `second` and produces an output equal to `first`.
    let producer = spend(&second, &owner_key, vec![first]);
    // Pending: spends `first`, which marks it.
    let spender = spend(&first, &owner_key, vec![TransactionOutput { value: 90, unique_id: 3, pubkey: payee }]);
    assert_eq!(chain.add_to_mempool_at(producer.clone(), 10), Ok(()));
    assert_eq!(chain.add_to_mempool_at(spender.clone(), 11), Ok(()));
    assert_eq!(chain.utxos().get(&first.hash()), Some((true, first)));
    assert_eq!(chain.utxos().get(&second.hash()), Some((true, second)));
    // A newcomer that spends `first` finds it marked: the producer leaves
    // and its marks are released.
    let newcomer = spend(&first, &owner_key, vec![TransactionOutput { value: 50, unique_id: 4, pubkey: payee }]);
    assert_eq!(chain.add_to_mempool_at(newcomer.clone(), 12), Ok(()));
    let held: Vec<btclib::sha256::Hash> = chain.mempool().iter().map(|entry| entry.1.hash()).collect();
    assert_eq!(held, vec![spender.hash(), newcomer.hash()]);
    assert_eq!(chain.utxos().get(&second.hash()), Some((false, second)));
    assert_eq!(chain.utxos().get(&first.hash()), Some((true, first)));
}

#[test]
fn mempool_is_sorted_by_ascending_fee() {
    let (owner_key, owner) = key(7);
    let a = TransactionOutput { value: 100, unique_id: 1, pubkey: owner };
    let b = TransactionOutput { value: 100, unique_id: 2, pubkey: owner };
    let c = TransactionOutput { value: 4_999_999_800, unique_id: 3, pubkey: owner };
    let mut chain = chain_with_genesis(vec![a, b, c]);
    let fee_30 = spend(&a, &owner_key, vec![TransactionOutput { value: 70, unique_id: 4, pubkey: owner }]);
    let fee_10 = spend(&b, &owner_key, vec![TransactionOutput { value: 90, unique_id: 5, pubkey: owner }]);
    let fee_30_later = spend(&c, &owner_key, vec![TransactionOutput { value: 4_999_999_770, unique_id: 6, pubkey: owner }]);
    assert_eq!(chain.add_to_mempool_at(fee_30.clone(), 1), Ok(()));
    assert_eq!(chain.add_to_mempool_at(fee_10.clone(), 2), Ok(()));
    assert_eq!(chain.add_to_mempool_at(fee_30_later.clone(), 3), Ok(()));
    let held: Vec<(i64, btclib::sha256::Hash)> = chain.mempool().iter().map(|e| (e.0, e.1.hash())).collect();
    assert_eq!(
        held,
        vec![(2, fee_10.hash()), (1, fee_30.hash()), (3, fee_30_later.hash())]
    );
}

#[test]
fn cleanup_drops_old_entries_and_releases_marks() {
    let (owner_key, owner) = key(7);
    let a = TransactionOutput { value: 100, unique_id: 1, pubkey: owner };
    let b = TransactionOutput { value: 4_999_999_900, unique_id: 2, pubkey: owner };
    let mut chain = chain_with_genesis(vec![a, b]);
    let old = spend(&a, &owner_key, vec![TransactionOutput { value: 70, unique_id: 4, pubkey: owner }]);
    let young = spend(&b, &owner_key, vec![TransactionOutput { value: 90, unique_id: 5, pubkey: owner }]);
    assert_eq!(chain.add_to_mempool_at(old.clone(), 1_000), Ok(()));
    assert_eq!(chain.add_to_mempool_at(young.clone(), 1_001), Ok(()));
    chain.cleanup_mempool_at(1_600);
    assert_eq!(chain.mempool().len(), 2);
    chain.cleanup_mempool_at(1_601);
    let held: Vec<btclib::sha256::Hash> = chain.mempool().iter().map(|e| e.1.hash()).collect();
    assert_eq!(held, vec![young.hash()]);
    assert_eq!(chain.utxos().get(&a.hash()), Some((false, a)));
    assert_eq!(chain.utxos().get(&b.hash()), Some((true, b)));
    chain.cleanup_mempool();
    assert_eq!(chain.mempool().len(), 0);
    assert_eq!(chain.utxos().get(&b.hash()), Some((false, b)));
}

#[test]
fn add_to_mempool_uses_the_clock() {
    let (owner_key, owner) = key(7);
    let a = TransactionOutput { value: 5_000_000_000, unique_id: 1, pubkey: owner };
    let mut chain = chain_with_genesis(vec![a]);
    let tx = spend(&a, &owner_key, vec![]);
    assert_eq!(chain.add_to_mempool(tx), Ok(()));
    assert!(chain.mempool()[0].0 > 1_600_000_000);
}

#[test]
fn rebuild_utxos_twice_is_once() {
    let (owner_key, owner) = key(7);
    let a = TransactionOutput { value: 100, unique_id: 1, pubkey: owner };
    let b = TransactionOutput { value: 4_999_999_900, unique_id: 2, pubkey: owner };
    let mut chain = chain_with_genesis(vec![a, b]);
    let pay = spend(&a, &owner_key, vec![TransactionOutput { value: 100, unique_id: 3, pubkey: owner }]);
    let block = block_on(&chain, 2_000, vec![coinbase(5_000_000_000, 4, owner), pay.clone()]);
    assert_eq!(chain.add_block(block), Ok(()));
    let mut before: Vec<(btclib::sha256::Hash, bool, u64)> = (0..chain.utxos().len())
        .map(|i| chain.utxos().entry(i))
        .map(|e| (e.hash, e.marked, e.output.value))
        .collect();
    chain.rebuild_utxos();
    let mut once: Vec<(btclib::sha256::Hash, bool, u64)> = (0..chain.utxos().len())
        .map(|i| chain.utxos().entry(i))
        .map(|e| (e.hash, e.marked, e.output.value))
        .collect();
    chain.rebuild_utxos();
    let mut twice: Vec<(btclib::sha256::Hash, bool, u64)> = (0..chain.utxos().len())
        .map(|i| chain.utxos().entry(i))
        .map(|e| (e.hash, e.marked, e.output.value))
        .collect();
    let order = |x: &(btclib::sha256::Hash, bool, u64)| (x.0 .0.w3, x.0 .0.w2, x.0 .0.w1, x.0 .0.w0);
    before.sort_by_key(order);
    once.sort_by_key(order);
    twice.sort_by_key(order);
    assert_eq!(once, twice);
    assert_eq!(before, once);
    assert_eq!(once.len(), 3);
}

#[test]
fn halving() {
    let (_, owner) = key(7);
    assert_eq!(btclib::types::block::reward_at(0), 5_000_000_000);
    assert_eq!(btclib::types::block::reward_at(209), 5_000_000_000);
    assert_eq!(btclib::types::block::reward_at(210), 2_500_000_000);
    assert_eq!(btclib::types::block::reward_at(419), 2_500_000_000);
    assert_eq!(btclib::types::block::reward_at(420), 5_000_000_000 / 4);
    assert_eq!(btclib::types::block::reward_at(210 * 32), 1);
    assert_eq!(btclib::types::block::reward_at(210 * 33), 0);
    assert_eq!(btclib::types::block::reward_at(u64::MAX), 0);

    let chain = Blockchain::new();
    let last_full = block_on(&chain, 1_000, vec![coinbase(5_000_000_000, 1, owner)]);
    assert_eq!(last_full.verify_transaction(209, chain.utxos()), Ok(()));
    assert_eq!(
        last_full.verify_transaction(210, chain.utxos()),
        Err(BtcError::InvalidTransaction)
    );
    let halved = block_on(&chain, 1_000, vec![coinbase(2_500_000_000, 1, owner)]);
    assert_eq!(halved.verify_transaction(210, chain.utxos()), Ok(()));
    assert_eq!(halved.verify_coinbase_transaction(210, chain.utxos()), Ok(()));
    assert_eq!(
        halved.verify_transaction(209, chain.utxos()),
        Err(BtcError::InvalidTransaction)
    );
}

#[test]
fn halving_on_a_chain() {
    let (_, owner) = key(7);
    let mut chain = Blockchain::new();
    for height in 0..210u64 {
        let block = block_on(
            &chain,
            1_000 + 10 * height as i64,
            vec![coinbase(5_000_000_000, height as u128, owner)],
        );
        assert_eq!(chain.add_block(block), Ok(()));
    }
    assert_eq!(chain.blocks_height(), 210);
    let full = block_on(&chain, 10_000, vec![coinbase(5_000_000_000, 1_000, owner)]);
    assert_eq!(chain.add_block(full), Err(BtcError::InvalidTransaction));
    let halved = block_on(&chain, 10_000, vec![coinbase(2_500_000_000, 1_000, owner)]);
    assert_eq!(chain.add_block(halved), Ok(()));
    assert_eq!(chain.blocks_height(), 211);
}

#[test]
fn difficulty_decrease() {
    let (_, owner) = key(7);
    let mut chain = Blockchain::new();
    // Fifty blocks one second apart: the target falls to a quarter.
    for height in 0..50u64 {
        let block = block_on(
            &chain,
            height as i64,
            vec![coinbase(5_000_000_000, height as u128, owner)],
        );
        if height == 49 {
            assert_eq!(chain.target(), U256::min_target());
        }
        assert_eq!(chain.add_block(block), Ok(()));
    }
    let quarter = U256 {
        w3: 0x3fff_ffff_ffff,
        w2: u64::MAX,
        w1: u64::MAX,
        w0: u64::MAX,
    };
    assert_eq!(chain.target(), quarter);
    // Fifty blocks forty seconds apart: 1960 seconds from first to last.
    for height in 50..100u64 {
        let block = block_on(
            &chain,
            1_000 + 40 * (height as i64 - 50),
            vec![coinbase(5_000_000_000, height as u128, owner)],
        );
        assert_eq!(chain.add_block(block), Ok(()));
    }
    let expected = U256 {
        w3: 0xfae1_47ae_147a,
        w2: 0xe147_ae14_7ae1_47ae,
        w1: 0x147a_e147_ae14_7ae1,
        w0: 0x47ae_147a_e147_ae10,
    };
    assert_eq!(chain.target(), expected);
    // Fifty blocks fifty seconds apart: more than four times the ideal, so
    // the target is four times as large, capped at the easiest target.
    for height in 100..150u64 {
        let block = block_on(
            &chain,
            10_000 + 50 * (height as i64 - 100),
            vec![coinbase(5_000_000_000, height as u128, owner)],
        );
        assert_eq!(chain.add_block(block), Ok(()));
    }
    assert_eq!(chain.target(), U256::min_target());
}

#[test]
fn every_marked_output_is_spent_by_a_pending_transaction() {
    let (owner_key, owner) = key(7);
    let a = TransactionOutput { value: 100, unique_id: 1, pubkey: owner };
    let b = TransactionOutput { value: 100, unique_id: 2, pubkey: owner };
    let c = TransactionOutput { value: 4_999_999_800, unique_id: 3, pubkey: owner };
    let mut chain = chain_with_genesis(vec![a, b, c]);
    let backed = |chain: &Blockchain| {
        (0..chain.utxos().len()).map(|i| chain.utxos().entry(i)).all(|entry| {
            !entry.marked
                || chain.mempool().iter().any(|pending| {
                    pending.1.inputs.iter().any(|input| input.prev_transaction_output_hash == entry.hash)
                })
        })
    };
    let marked = |chain: &Blockchain| {
        (0..chain.utxos().len()).filter(|i| chain.utxos().entry(*i).marked).count()
    };
    assert!(backed(&chain));
    let first = spend(&a, &owner_key, vec![TransactionOutput { value: 70, unique_id: 4, pubkey: owner }]);
    let second = spend(&b, &owner_key, vec![TransactionOutput { value: 90, unique_id: 5, pubkey: owner }]);
    let rival = spend(&a, &owner_key, vec![TransactionOutput { value: 60, unique_id: 6, pubkey: owner }]);
    assert_eq!(chain.add_to_mempool_at(first.clone(), 10), Ok(()));
    assert_eq!(marked(&chain), 1);
    assert!(backed(&chain));
    assert_eq!(chain.add_to_mempool_at(second.clone(), 20), Ok(()));
    assert_eq!(marked(&chain), 2);
    assert!(backed(&chain));
    assert_eq!(chain.add_to_mempool_at(rival, 30), Ok(()));
    assert!(backed(&chain));
    chain.cleanup_mempool_at(615);
    assert!(backed(&chain));
    let block = block_on(&chain, 2_000, vec![coinbase(5_000_000_010, 9, owner), second.clone()]);
    assert_eq!(chain.add_block(block), Ok(()));
    assert!(backed(&chain));
    chain.rebuild_utxos();
    assert!(backed(&chain));
    assert_eq!(marked(&chain), 0);
    chain.cleanup_mempool_at(10_000);
    assert_eq!(chain.mempool().len(), 0);
    assert!(backed(&chain));
}

#[test]
fn output_created_again_in_the_block_that_spends_it_stays() {
    let (owner_key, owner) = key(7);
    let a = TransactionOutput { value: 5_000_000_000, unique_id: 1, pubkey: owner };
    let mut chain = chain_with_genesis(vec![a]);
    let again = spend(&a, &owner_key, vec![a]);
    let block = block_on(&chain, 2_000, vec![coinbase(5_000_000_000, 2, owner), again]);
    assert_eq!(chain.add_block(block), Ok(()));
    assert_eq!(chain.utxos().get(&a.hash()), Some((false, a)));
}

#[test]
fn chain_from_blocks_is_the_chain_that_admitted_them() {
    let (owner_key, owner) = key(7);
    let a = TransactionOutput { value: 100, unique_id: 1, pubkey: owner };
    let b = TransactionOutput { value: 4_999_999_900, unique_id: 2, pubkey: owner };
    let mut chain = chain_with_genesis(vec![a, b]);
    let pay = spend(&a, &owner_key, vec![TransactionOutput { value: 60, unique_id: 3, pubkey: owner }]);
    let block = block_on(&chain, 2_000, vec![coinbase(5_000_000_040, 4, owner), pay]);
    assert_eq!(chain.add_block(block), Ok(()));
    let replayed = Blockchain::from_blocks(chain.blocks().clone()).unwrap();
    assert_eq!(replayed.blocks(), chain.blocks());
    assert_eq!(replayed.target(), chain.target());
    assert_eq!(replayed.utxos().len(), chain.utxos().len());
    for i in 0..chain.utxos().len() {
        let entry = chain.utxos().entry(i);
        assert_eq!(replayed.utxos().get(&entry.hash), Some((entry.marked, entry.output)));
    }
    let mut reversed = chain.blocks().clone();
    reversed.reverse();
    assert_eq!(Blockchain::from_blocks(reversed).err(), Some(BtcError::InvalidBlock));
    assert_eq!(Blockchain::from_blocks(vec![]).unwrap().blocks_height(), 0);
}
