use btclib::crypto::{PrivateKey, PublicKey, Signature};
use btclib::miner::{Action, Event, Miner, Pending};
use btclib::network::Message;
use btclib::types::{Block, BlockHeader, Transaction, TransactionInput, TransactionOutput};
use btclib::u256::U256;
use btclib::util::MerkleRoot;

fn payee() -> PublicKey {
    PrivateKey::from_scalar(U256::from_u64(5)).public_key().unwrap()
}

fn template(target: U256) -> Block {
    let transactions = vec![Transaction::new(
        vec![TransactionInput {
            prev_transaction_output_hash: btclib::sha256::Hash::zero(),
            signature: Signature { r: U256::zero(), s: U256::zero() },
        }],
        vec![TransactionOutput { value: 5_000_000_000, unique_id: 1, pubkey: payee() }],
    )];
    let root = MerkleRoot::calculate(&transactions);
    Block::new(BlockHeader::new(10, 0, btclib::sha256::Hash::zero(), root, target), transactions)
}

#[test]
fn idle_miner_fetches_a_template_on_tick() {
    let mut miner = Miner::new(payee());
    assert!(!miner.mining);
    assert_eq!(miner.step(Event::Tick), Action::Send(Message::FetchTemplate(payee())));
    assert_eq!(miner.pending, Pending::Template);
    // A second tick while the reply is open does nothing.
    assert_eq!(miner.step(Event::Tick), Action::Wait);
    assert_eq!(miner.pending, Pending::Template);
}

#[test]
fn template_reply_starts_mining() {
    let mut miner = Miner::new(payee());
    miner.step(Event::Tick);
    let t = template(U256::max_value());
    assert_eq!(miner.step(Event::Reply(Message::Template(t.clone()))), Action::Wait);
    assert!(miner.mining);
    assert_eq!(miner.current_template, Some(t.clone()));
    assert_eq!(miner.pending, Pending::Nothing);
    // While mining, a tick asks whether the template is still good.
    assert_eq!(miner.step(Event::Tick), Action::Send(Message::ValidateTemplate(t)));
    assert_eq!(miner.pending, Pending::Validity);
}

#[test]
fn negative_verdict_stops_mining() {
    let mut miner = Miner::new(payee());
    miner.step(Event::Tick);
    miner.step(Event::Reply(Message::Template(template(U256::max_value()))));
    miner.step(Event::Tick);
    assert_eq!(miner.step(Event::Reply(Message::TemplateValidity(true))), Action::Wait);
    assert!(miner.mining);
    miner.step(Event::Tick);
    assert_eq!(miner.step(Event::Reply(Message::TemplateValidity(false))), Action::Wait);
    assert!(!miner.mining);
    assert_eq!(miner.step(Event::Tick), Action::Send(Message::FetchTemplate(payee())));
}

#[test]
fn unexpected_reply_ends_the_session() {
    let mut miner = Miner::new(payee());
    assert_eq!(miner.step(Event::Reply(Message::DiscoverNodes)), Action::Fail);
    miner.step(Event::Tick);
    assert_eq!(miner.step(Event::Reply(Message::TemplateValidity(true))), Action::Fail);
    assert_eq!(miner.pending, Pending::Nothing);
    let mut other = Miner::new(payee());
    other.step(Event::Tick);
    other.step(Event::Reply(Message::Template(template(U256::max_value()))));
    other.step(Event::Tick);
    assert_eq!(
        other.step(Event::Reply(Message::Template(template(U256::zero())))),
        Action::Fail
    );
}

#[test]
fn mined_block_is_submitted_and_mining_stops() {
    let mut miner = Miner::new(payee());
    miner.step(Event::Tick);
    let t = template(U256::max_value());
    miner.step(Event::Reply(Message::Template(t.clone())));
    let block = miner.search(10).unwrap();
    assert!(block.header.hash().matches_target(block.header.target));
    assert_eq!(block.transactions, t.transactions);
    assert_eq!(miner.step(Event::Mined(block.clone())), Action::Send(Message::SubmitTemplate(block)));
    assert!(!miner.mining);
    assert_eq!(miner.search(10), None);
}

#[test]
fn search_needs_mining_and_a_template() {
    let miner = Miner::new(payee());
    assert_eq!(miner.search(10), None);
    let mut hopeless = Miner::new(payee());
    hopeless.step(Event::Tick);
    hopeless.step(Event::Reply(Message::Template(template(U256::zero()))));
    assert_eq!(hopeless.search(5), None);
    // The template itself is left as it was.
    assert_eq!(hopeless.current_template.as_ref().unwrap().header.nonce, 0);
    let mut idle = Miner::new(payee());
    idle.mining = true;
    assert_eq!(idle.step(Event::Tick), Action::Wait);
}
