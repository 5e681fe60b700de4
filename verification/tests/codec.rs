use btclib::crypto::{PrivateKey, PublicKey, Signature};
use btclib::error::BtcError;
use btclib::network::Message;
use btclib::types::{
    Block, BlockHeader, Blockchain, Transaction, TransactionInput, TransactionOutput,
};
use btclib::u256::U256;
use btclib::util::MerkleRoot;

fn owner() -> PublicKey {
    PrivateKey::from_scalar(U256::from_u64(77)).public_key().unwrap()
}

fn sample_transaction(id: u128) -> Transaction {
    Transaction::new(
        vec![
            TransactionInput {
                prev_transaction_output_hash: btclib::sha256::Hash::hash(b"first"),
                signature: Signature { r: U256::from_u64(1), s: U256::max_value() },
            },
            TransactionInput {
                prev_transaction_output_hash: btclib::sha256::Hash::hash(b"second"),
                signature: Signature { r: U256::min_target(), s: U256::from_u64(2) },
            },
        ],
        vec![
            TransactionOutput { value: u64::MAX, unique_id: id, pubkey: owner() },
            TransactionOutput { value: 0, unique_id: u128::MAX, pubkey: owner() },
            TransactionOutput { value: 5, unique_id: 1 << 64, pubkey: owner() },
        ],
    )
}

fn sample_block(timestamp: i64) -> Block {
    let transactions = vec![
        sample_transaction(1),
        Transaction::new(vec![], vec![]),
        sample_transaction(2),
    ];
    let root = MerkleRoot::calculate(&transactions);
    Block::new(
        BlockHeader::new(timestamp, 42, btclib::sha256::Hash::hash(b"prev"), root, U256::min_target()),
        transactions,
    )
}

fn every_kind() -> Vec<Message> {
    vec![
        Message::FetchUTXOS(owner()),
        Message::UTXOS(vec![]),
        Message::UTXOS(vec![
            (TransactionOutput { value: 7, unique_id: 9, pubkey: owner() }, true),
            (TransactionOutput { value: 8, unique_id: 10, pubkey: owner() }, false),
        ]),
        Message::SubmitTransaction(sample_transaction(3)),
        Message::NewTransaction(Transaction::new(vec![], vec![])),
        Message::FetchTemplate(owner()),
        Message::Template(sample_block(1_700_000_000)),
        Message::ValidateTemplate(sample_block(-5)),
        Message::TemplateValidity(true),
        Message::TemplateValidity(false),
        Message::SubmitTemplate(sample_block(i64::MAX)),
        Message::DiscoverNodes,
        Message::NodeList(vec![]),
        Message::NodeList(vec![b"127.0.0.1:9000".to_vec(), vec![], b"node.example:1".to_vec()]),
        Message::AskDifference(0),
        Message::AskDifference(u32::MAX),
        Message::Difference(i32::MIN),
        Message::Difference(-1),
        Message::Difference(i32::MAX),
        Message::FetchBlock(0),
        Message::FetchBlock(usize::MAX),
        Message::NewBlock(Block::new(
            BlockHeader::new(i64::MIN, 0, btclib::sha256::Hash::zero(), MerkleRoot(btclib::sha256::Hash::zero()), U256::zero()),
            vec![],
        )),
    ]
}

#[test]
fn decode_of_encode_is_the_message() {
    for message in every_kind() {
        let bytes = message.encode();
        assert_eq!(Message::decode(&bytes), Ok(message.clone()));
        assert_eq!(Message::decode(&bytes).unwrap().encode(), bytes);
    }
}

#[test]
fn encodings_of_different_messages_differ() {
    let all: Vec<Vec<u8>> = every_kind().iter().map(|m| m.encode()).collect();
    for i in 0..all.len() {
        for j in 0..i {
            assert_ne!(all[i], all[j]);
        }
    }
}

#[test]
fn truncated_or_extended_message_is_refused() {
    for message in every_kind() {
        let bytes = message.encode();
        assert_eq!(Message::decode(&bytes[..bytes.len() - 1]), Err(BtcError::NetworkError));
        let mut longer = bytes.clone();
        longer.push(0);
        assert_eq!(Message::decode(&longer), Err(BtcError::NetworkError));
    }
    assert_eq!(Message::decode(&[]), Err(BtcError::NetworkError));
    assert_eq!(Message::decode(&[15]), Err(BtcError::NetworkError));
    assert_eq!(Message::decode(&[255, 0]), Err(BtcError::NetworkError));
}

#[test]
fn counts_beyond_the_data_are_refused() {
    // A list of 2^64 - 1 marked outputs in nine bytes.
    let mut bytes = vec![1u8];
    bytes.extend_from_slice(&[0xFF; 8]);
    assert_eq!(Message::decode(&bytes), Err(BtcError::NetworkError));
    // A transaction that claims more inputs than there are bytes.
    let mut bytes = vec![2u8];
    bytes.extend_from_slice(&[0, 0, 0, 0, 0, 0, 0, 1]);
    bytes.extend_from_slice(&[0; 95]);
    assert_eq!(Message::decode(&bytes), Err(BtcError::NetworkError));
    // An address that claims more bytes than there are.
    let mut bytes = vec![10u8];
    bytes.extend_from_slice(&[0, 0, 0, 0, 0, 0, 0, 1]);
    bytes.extend_from_slice(&[0, 0, 0, 0, 0, 0, 0, 4, b'a', b'b', b'c']);
    assert_eq!(Message::decode(&bytes), Err(BtcError::NetworkError));
    // Numbers out of range of their kind.
    let mut bytes = vec![11u8];
    bytes.extend_from_slice(&[0, 0, 0, 1, 0, 0, 0, 0]);
    assert_eq!(Message::decode(&bytes), Err(BtcError::NetworkError));
    let mut bytes = vec![12u8];
    bytes.extend_from_slice(&[0; 8]);
    assert_eq!(Message::decode(&bytes), Err(BtcError::NetworkError));
}

#[test]
fn small_messages_byte_for_byte() {
    assert_eq!(Message::TemplateValidity(true).encode(), vec![7, 1]);
    assert_eq!(Message::TemplateValidity(false).encode(), vec![7, 0]);
    assert_eq!(Message::DiscoverNodes.encode(), vec![9]);
    assert_eq!(Message::AskDifference(5).encode(), vec![11, 0, 0, 0, 0, 0, 0, 0, 5]);
    assert_eq!(Message::FetchBlock(258).encode(), vec![13, 0, 0, 0, 0, 0, 0, 1, 2]);
    assert_eq!(
        Message::Difference(-1).encode(),
        vec![12, 0x7F, 0xFF, 0xFF, 0xFF, 0xFF, 0xFF, 0xFF, 0xFF]
    );
    assert_eq!(Message::Difference(0).encode(), vec![12, 0x80, 0, 0, 0, 0, 0, 0, 0]);
    assert_eq!(
        Message::NodeList(vec![b"ab".to_vec()]).encode(),
        vec![10, 0, 0, 0, 0, 0, 0, 0, 1, 0, 0, 0, 0, 0, 0, 0, 2, b'a', b'b']
    );
    let key = owner();
    let mut expected = vec![0u8];
    expected.extend_from_slice(&key.to_bytes());
    assert_eq!(Message::FetchUTXOS(key).encode(), expected);
    assert_eq!(Message::NewTransaction(Transaction::new(vec![], vec![])).encode().len(), 17);
}

#[test]
fn frame_is_length_then_encoding() {
    let message = Message::SubmitTransaction(sample_transaction(3));
    let body = message.encode();
    let framed = message.frame();
    assert_eq!(framed.len(), body.len() + 8);
    assert_eq!(&framed[..8], &(body.len() as u64).to_be_bytes());
    assert_eq!(&framed[8..], &body[..]);
    assert_eq!(Message::framed_length(&framed[..8]), Some(body.len()));
    assert_eq!(Message::framed_length(&framed[..7]), None);
    assert_eq!(Message::framed_length(&[0, 0, 0, 0, 0, 0, 1, 0]), Some(256));
}

#[test]
fn transaction_bytes_round_trip_and_keep_the_hash() {
    let tx = sample_transaction(5);
    let bytes = tx.to_bytes();
    assert_eq!(bytes.len(), 16 + 2 * 96 + 3 * 57);
    let back = Transaction::from_bytes(&bytes).unwrap();
    assert_eq!(back, tx);
    assert_eq!(back.hash(), tx.hash());
    assert_eq!(back.to_bytes(), bytes);
    assert_eq!(tx.duplicate(), tx);
    assert_eq!(Transaction::from_bytes(&bytes[1..]), Err(BtcError::IoError));
    assert_eq!(Transaction::from_bytes(&bytes[..bytes.len() - 1]), Err(BtcError::IoError));
    assert_eq!(Transaction::from_bytes(&[]), Err(BtcError::IoError));
}

#[test]
fn block_bytes_round_trip_and_keep_the_hash() {
    let block = sample_block(1_700_000_000);
    let bytes = block.to_bytes();
    let back = Block::from_bytes(&bytes).unwrap();
    assert_eq!(back, block);
    assert_eq!(back.hash(), block.hash());
    assert_eq!(back.header.hash(), block.header.hash());
    assert_eq!(block.duplicate(), block);
    let mut header = Vec::new();
    block.header.encode_into(&mut header);
    assert_eq!(header.len(), 112);
    assert_eq!(&bytes[..112], &header[..]);
    assert_eq!(BlockHeader::read(&bytes, 0), block.header);
    assert_eq!(block.hash(), btclib::sha256::Hash::hash(&header));
    assert_eq!(Block::from_bytes(&bytes[..200]), Err(BtcError::IoError));
    let mut longer = bytes.clone();
    longer.push(1);
    assert_eq!(Block::from_bytes(&longer), Err(BtcError::IoError));
}

#[test]
fn chain_bytes_round_trip() {
    let key = owner();
    let coinbase = |id: u128| {
        Transaction::new(
            vec![TransactionInput {
                prev_transaction_output_hash: btclib::sha256::Hash::zero(),
                signature: Signature { r: U256::zero(), s: U256::zero() },
            }],
            vec![TransactionOutput { value: 5_000_000_000, unique_id: id, pubkey: key }],
        )
    };
    let mut chain = Blockchain::new();
    for height in 0..3i64 {
        let transactions = vec![coinbase(height as u128)];
        let prev = match chain.blocks().last() {
            Some(last) => last.hash(),
            None => btclib::sha256::Hash::zero(),
        };
        let root = MerkleRoot::calculate(&transactions);
        let block = Block::new(
            BlockHeader::new(100 + height, 0, prev, root, U256::max_value()),
            transactions,
        );
        assert_eq!(chain.add_block(block), Ok(()));
    }
    let bytes = chain.to_bytes();
    let loaded = Blockchain::from_bytes(&bytes).unwrap();
    assert_eq!(loaded.blocks(), chain.blocks());
    assert_eq!(loaded.target(), chain.target());
    assert_eq!(loaded.utxos().len(), 3);
    assert_eq!(loaded.to_bytes(), bytes);
    assert!(Blockchain::from_bytes(&bytes[..bytes.len() - 1]).is_err());
    assert_eq!(
        Blockchain::from_bytes(&bytes[..bytes.len() - 1]).err(),
        Some(BtcError::IoError)
    );
    // The same blocks in another order are a chain that does not link.
    let mut blocks = chain.blocks().clone();
    blocks.swap(1, 2);
    assert_eq!(Blockchain::from_blocks(blocks).err(), Some(BtcError::InvalidBlock));
    let empty = Blockchain::from_bytes(&[0; 8]).unwrap();
    assert_eq!(empty.blocks_height(), 0);
}
