//! Blocks, their headers, the nonce search and the rules that the
//! transactions of a block must meet.
use vstd::prelude::*;
use vstd::arithmetic::div_mod::{lemma_basic_div, lemma_div_denominator, lemma_small_div_converse};
use vstd::arithmetic::power2::{lemma_pow2_pos, lemma_pow2_strictly_increases, lemma_pow2_unfold, pow2};
use crate::codec::{
    lemma_u64_round_trip,
    parse_u64,
    push_u64,
    read_u64,
    take_u64,
    u64_be,
    u64_of_be,
};
use crate::error::BtcError;
use crate::types::transaction::{
    Transaction,
    TransactionInput,
    TransactionOutput,
    TransactionView,
};
use crate::u256::{lemma_u256_round_trip, U256};
use crate::util::{current_time, transaction_views, tally_base, MerkleRoot, Tally};
use crate::utxo::UtxoSet;

verus! {

/// What a block header commits to. The timestamp counts seconds since the
/// Unix epoch.
#[derive(Clone, Copy, Debug, PartialEq, Eq, Structural)]
pub struct BlockHeader {
    pub timestamp: i64,
    pub nonce: u64,
    pub prev_block_hash: crate::sha256::Hash,
    pub merkle_root: MerkleRoot,
    pub target: U256,
}

/// A block: a header and a list of transactions, the first of which is the
/// coinbase.
#[derive(Clone, Debug, PartialEq, Eq)]
pub struct Block {
    pub header: BlockHeader,
    pub transactions: Vec<Transaction>,
}

/// A block as a mathematical value.
pub struct BlockView {
    pub header: BlockHeader,
    pub transactions: Seq<TransactionView>,
}

impl View for Block {
    type V = BlockView;

    open spec fn view(&self) -> BlockView {
        BlockView { header: self.header, transactions: transaction_views(self.transactions@) }
    }
}

/// A timestamp as an unsigned number that keeps the order: 2^63 is added.
pub open spec fn timestamp_key(timestamp: i64) -> u64 {
    (timestamp + 0x8000_0000_0000_0000) as u64
}

/// The subsidy of a block at `height`, in the smallest unit: the initial
/// reward, halved once for every full halving interval below the height.
pub open spec fn block_reward(height: nat) -> nat {
    (crate::INITIAL_REWARD as nat * crate::UNITS_PER_COIN as nat) / pow2(
        height / crate::HALVING_INTERVAL as nat,
    )
}

/// All but the first of some transactions.
pub open spec fn non_coinbase(txs: Seq<TransactionView>) -> Seq<TransactionView> {
    if txs.len() == 0 {
        txs
    } else {
        txs.skip(1)
    }
}

/// The inputs of some transactions, one list after the other.
pub open spec fn block_inputs(txs: Seq<TransactionView>) -> Seq<TransactionInput>
    decreases txs.len(),
{
    if txs.len() == 0 {
        Seq::empty()
    } else {
        block_inputs(txs.drop_last()) + txs.last().inputs
    }
}

/// The sum of what all outputs of some transactions give out.
pub open spec fn block_outputs_total(txs: Seq<TransactionView>) -> nat
    decreases txs.len(),
{
    if txs.len() == 0 {
        0
    } else {
        block_outputs_total(txs.drop_last()) + txs.last().output_value()
    }
}

/// Whether every input spends an output that is in `utxos`.
pub open spec fn spends_known(
    inputs: Seq<TransactionInput>,
    utxos: Map<crate::sha256::Hash, (bool, TransactionOutput)>,
) -> bool {
    forall|i: int|
        0 <= i < inputs.len() ==> utxos.contains_key(
            #[trigger] inputs[i].prev_transaction_output_hash,
        )
}

/// Whether no two inputs spend the same output.
pub open spec fn spends_distinct(inputs: Seq<TransactionInput>) -> bool {
    forall|i: int, j: int|
        0 <= i < j < inputs.len() ==> inputs[i].prev_transaction_output_hash
            != inputs[j].prev_transaction_output_hash
}

/// The value of the output under `hash`; nothing where there is none.
pub open spec fn value_under(
    utxos: Map<crate::sha256::Hash, (bool, TransactionOutput)>,
    hash: crate::sha256::Hash,
) -> nat {
    if utxos.contains_key(hash) {
        utxos[hash].1.value as nat
    } else {
        0
    }
}

/// The sum of the values of the outputs that some inputs spend.
pub open spec fn inputs_total(
    inputs: Seq<TransactionInput>,
    utxos: Map<crate::sha256::Hash, (bool, TransactionOutput)>,
) -> nat
    decreases inputs.len(),
{
    if inputs.len() == 0 {
        0
    } else {
        inputs_total(inputs.drop_last(), utxos) + value_under(
            utxos,
            inputs.last().prev_transaction_output_hash,
        )
    }
}

/// What `calculate_miner_fees` returns: the inputs of the transactions
/// after the first must spend known outputs, each at most once in the whole
/// block; the fees are what they take in less what those transactions give
/// out, and must be a number from 0 to 2^128 - 1.
pub open spec fn miner_fees(
    txs: Seq<TransactionView>,
    utxos: Map<crate::sha256::Hash, (bool, TransactionOutput)>,
) -> Result<u128, BtcError> {
    let spends = block_inputs(non_coinbase(txs));
    let taken = inputs_total(spends, utxos);
    let given = block_outputs_total(non_coinbase(txs));
    if spends_known(spends, utxos) && spends_distinct(spends) && given <= taken && taken - given
        < tally_base() {
        Ok((taken - given) as u128)
    } else {
        Err(BtcError::InvalidTransaction)
    }
}

/// What `verify_coinbase_transaction` returns for a block with at least one
/// transaction: the first one has an input and an output, the fees can be
/// told, and it gives out exactly subsidy plus fees.
pub open spec fn coinbase_check(
    txs: Seq<TransactionView>,
    height: nat,
    utxos: Map<crate::sha256::Hash, (bool, TransactionOutput)>,
) -> Result<(), BtcError> {
    if txs[0].inputs.len() == 0 || txs[0].outputs.len() == 0 {
        Err(BtcError::InvalidTransaction)
    } else {
        match miner_fees(txs, utxos) {
            Err(e) => Err(e),
            Ok(fees) => if txs[0].output_value() == block_reward(height) + fees {
                Ok(())
            } else {
                Err(BtcError::InvalidTransaction)
            },
        }
    }
}

/// The inputs of one transaction, looked at in order: the first that spends
/// an unknown output or carries a signature that its owner's key does not
/// verify decides.
pub open spec fn inputs_check(
    inputs: Seq<TransactionInput>,
    utxos: Map<crate::sha256::Hash, (bool, TransactionOutput)>,
) -> Result<(), BtcError>
    decreases inputs.len(),
{
    if inputs.len() == 0 {
        Ok(())
    } else {
        let first = inputs[0];
        if !utxos.contains_key(first.prev_transaction_output_hash) {
            Err(BtcError::InvalidTransaction)
        } else if !first.signature.verifies(
            first.prev_transaction_output_hash,
            utxos[first.prev_transaction_output_hash].1.pubkey,
        ) {
            Err(BtcError::InvalidSignature)
        } else {
            inputs_check(inputs.drop_first(), utxos)
        }
    }
}

/// One spending transaction: its inputs pass, and it gives out no more than
/// it takes in.
pub open spec fn spend_check(
    tx: TransactionView,
    utxos: Map<crate::sha256::Hash, (bool, TransactionOutput)>,
) -> Result<(), BtcError> {
    match inputs_check(tx.inputs, utxos) {
        Err(e) => Err(e),
        Ok(_) => if inputs_total(tx.inputs, utxos) < tx.output_value() {
            Err(BtcError::InvalidTransaction)
        } else {
            Ok(())
        },
    }
}

/// Some spending transactions, looked at in order: the first that fails
/// decides.
pub open spec fn spends_check(
    txs: Seq<TransactionView>,
    utxos: Map<crate::sha256::Hash, (bool, TransactionOutput)>,
) -> Result<(), BtcError>
    decreases txs.len(),
{
    if txs.len() == 0 {
        Ok(())
    } else {
        match spend_check(txs[0], utxos) {
            Err(e) => Err(e),
            Ok(_) => spends_check(txs.drop_first(), utxos),
        }
    }
}

/// What `verify_transaction` returns: an empty block is refused; then the
/// coinbase is checked, then the other transactions in order.
pub open spec fn transactions_check(
    txs: Seq<TransactionView>,
    height: nat,
    utxos: Map<crate::sha256::Hash, (bool, TransactionOutput)>,
) -> Result<(), BtcError> {
    if txs.len() == 0 {
        Err(BtcError::InvalidTransaction)
    } else {
        match coinbase_check(txs, height, utxos) {
            Err(e) => Err(e),
            Ok(_) => spends_check(txs.skip(1), utxos),
        }
    }
}

/// A block without transactions is refused.
pub proof fn lemma_empty_block_refused(txs: Seq<TransactionView>, height: nat, utxos: Map<
    crate::sha256::Hash,
    (bool, TransactionOutput),
>)
    requires
        txs.len() == 0,
    ensures
        transactions_check(txs, height, utxos) == Err::<(), BtcError>(BtcError::InvalidTransaction),
{
}

/// A block whose only transaction is a coinbase with an input and an output
/// passes exactly where the coinbase gives out the subsidy: there are no
/// fees.
pub proof fn lemma_coinbase_only_block(txs: Seq<TransactionView>, height: nat, utxos: Map<
    crate::sha256::Hash,
    (bool, TransactionOutput),
>)
    requires
        txs.len() == 1,
        txs[0].inputs.len() > 0,
        txs[0].outputs.len() > 0,
    ensures
        miner_fees(txs, utxos) == Ok::<u128, BtcError>(0),
        transactions_check(txs, height, utxos) is Ok <==> txs[0].output_value() == block_reward(
            height,
        ),
{
    let rest = non_coinbase(txs);
    assert(rest =~= Seq::empty());
    assert(txs.skip(1) =~= Seq::empty());
    assert(block_inputs(rest) =~= Seq::empty());
    assert(block_outputs_total(rest) == 0);
    assert(inputs_total(block_inputs(rest), utxos) == 0);
}

/// The subsidy at a given height.
pub fn reward_at(height: u64) -> (reward: u64)
    ensures
        reward == block_reward(height as nat),
{
    let halvings: u64 = height / crate::HALVING_INTERVAL;
    let mut reward: u64 = crate::INITIAL_REWARD * crate::UNITS_PER_COIN;
    let ghost base: int = reward as int;
    let mut done: u64 = 0;
    proof {
        lemma_pow2_unfold(1);
        assert(pow2(0) == 1) by {
            vstd::arithmetic::power2::lemma2_to64();
        }
    }
    while done < halvings && reward > 0
        invariant
            done <= halvings,
            base == 5_000_000_000,
            reward == base / (pow2(done as nat) as int),
        decreases halvings - done,
    {
        proof {
            lemma_pow2_pos(done as nat);
            lemma_pow2_unfold((done + 1) as nat);
            lemma_div_denominator(base, pow2(done as nat) as int, 2);
            assert(pow2(done as nat) as int * 2 == pow2((done + 1) as nat) as int);
        }
        reward = reward / 2;
        done = done + 1;
    }
    proof {
        if done < halvings {
            lemma_pow2_pos(done as nat);
            lemma_pow2_strictly_increases(done as nat, halvings as nat);
            let small = pow2(done as nat) as int;
            let large = pow2(halvings as nat) as int;
            lemma_small_div_converse(base, small);
            lemma_basic_div(base, large);
        }
    }
    reward
}

/// The encodings of some transactions, one after the other.
pub open spec fn transactions_encoding(txs: Seq<TransactionView>) -> Seq<u8>
    decreases txs.len(),
{
    if txs.len() == 0 {
        Seq::empty()
    } else {
        transactions_encoding(txs.drop_last()) + txs.last().encoding()
    }
}

/// The `count` transactions that stand one after the other at the front of
/// `s`, and the number of bytes that they take; none where `s` ends before
/// they do.
pub open spec fn parse_transactions(s: Seq<u8>, count: nat) -> Option<(Seq<TransactionView>, int)>
    decreases count,
{
    if count == 0 {
        Some((Seq::empty(), 0))
    } else {
        match TransactionView::parse(s) {
            None => None,
            Some((first, used)) => if used < 0 || used > s.len() {
                None
            } else {
                match parse_transactions(s.skip(used), (count - 1) as nat) {
                    None => None,
                    Some((more, used_more)) => Some((seq![first] + more, used + used_more)),
                }
            },
        }
    }
}

/// Whether the numbers of inputs and outputs of every transaction fit in 64
/// bits.
pub open spec fn all_fit(txs: Seq<TransactionView>) -> bool {
    forall|i: int| 0 <= i < txs.len() ==> (#[trigger] txs[i]).fits()
}

/// The encoding of a list with one more transaction in front.
pub proof fn lemma_transactions_encoding_front(first: TransactionView, more: Seq<TransactionView>)
    ensures
        transactions_encoding(seq![first] + more) == first.encoding() + transactions_encoding(more),
    decreases more.len(),
{
    let all = seq![first] + more;
    if more.len() == 0 {
        assert(all.drop_last() =~= Seq::empty());
        assert(all.last() == first);
        assert(transactions_encoding(all.drop_last()) =~= Seq::empty());
        assert(transactions_encoding(more) =~= Seq::empty());
        assert(transactions_encoding(all) == transactions_encoding(all.drop_last())
            + first.encoding());
        assert(transactions_encoding(all) =~= first.encoding() + transactions_encoding(more));
    } else {
        lemma_transactions_encoding_front(first, more.drop_last());
        assert(all.drop_last() =~= seq![first] + more.drop_last());
        assert(all.last() == more.last());
        assert(transactions_encoding(all) =~= first.encoding() + transactions_encoding(more));
    }
}

/// Reading back the bytes of some transactions gives the transactions,
/// whatever follows them.
pub proof fn lemma_transactions_round_trip(txs: Seq<TransactionView>, rest: Seq<u8>)
    requires
        all_fit(txs),
    ensures
        parse_transactions(transactions_encoding(txs) + rest, txs.len()) == Some(
            (txs, transactions_encoding(txs).len() as int),
        ),
    decreases txs.len(),
{
    if txs.len() > 0 {
        let first = txs[0];
        let more = txs.drop_first();
        assert(txs =~= seq![first] + more);
        lemma_transactions_encoding_front(first, more);
        assert(all_fit(more)) by {
            assert forall|i: int| 0 <= i < more.len() implies (#[trigger] more[i]).fits() by {
                assert(more[i] == txs[i + 1]);
            }
        }
        let tail = transactions_encoding(more) + rest;
        first.lemma_round_trip(tail);
        lemma_transactions_round_trip(more, rest);
        let s = transactions_encoding(txs) + rest;
        assert(s =~= first.encoding() + tail);
        assert(s.skip(first.encoding().len() as int) =~= tail);
    } else {
        assert(txs =~= Seq::empty());
    }
}

impl BlockHeader {
    /// The 112 bytes of a header: timestamp, nonce, hash of the block
    /// before, Merkle root, target.
    #[verifier::opaque]
    pub open spec fn encoding(self) -> Seq<u8> {
        u64_be(timestamp_key(self.timestamp)) + u64_be(self.nonce)
            + self.prev_block_hash.0.encoding() + self.merkle_root.0.0.encoding()
            + self.target.encoding()
    }

    /// The header at the front of `s`.
    #[verifier::opaque]
    pub open spec fn at_front(s: Seq<u8>) -> BlockHeader {
        BlockHeader {
            timestamp: (u64_of_be(s) as int - 0x8000_0000_0000_0000) as i64,
            nonce: u64_of_be(s.skip(8)),
            prev_block_hash: crate::sha256::Hash(U256::parse(s.skip(16))),
            merkle_root: MerkleRoot(crate::sha256::Hash(U256::parse(s.skip(48)))),
            target: U256::parse(s.skip(80)),
        }
    }

    /// Reading back the bytes of a header gives the header, whatever follows
    /// them.
    pub proof fn lemma_round_trip(self, rest: Seq<u8>)
        ensures
            self.encoding().len() == 112,
            BlockHeader::at_front(self.encoding() + rest) == self,
    {
        reveal(BlockHeader::encoding);
        reveal(BlockHeader::at_front);
        let s = self.encoding() + rest;
        let e_time = u64_be(timestamp_key(self.timestamp));
        let e_nonce = u64_be(self.nonce);
        let e_prev = self.prev_block_hash.0.encoding();
        let e_root = self.merkle_root.0.0.encoding();
        let e_target = self.target.encoding();
        lemma_u64_round_trip(timestamp_key(self.timestamp), e_nonce + e_prev + e_root + e_target + rest);
        lemma_u64_round_trip(self.nonce, e_prev + e_root + e_target + rest);
        lemma_u256_round_trip(self.prev_block_hash.0, e_root + e_target + rest);
        lemma_u256_round_trip(self.merkle_root.0.0, e_target + rest);
        lemma_u256_round_trip(self.target, rest);
        assert(s =~= e_time + (e_nonce + e_prev + e_root + e_target + rest));
        assert(s.skip(8) =~= e_nonce + (e_prev + e_root + e_target + rest));
        assert(s.skip(16) =~= e_prev + (e_root + e_target + rest));
        assert(s.skip(48) =~= e_root + (e_target + rest));
        assert(s.skip(80) =~= e_target + rest);
    }

    /// Reads the header that stands at `at` in `data`.
    pub fn read(data: &[u8], at: usize) -> (r: BlockHeader)
        requires
            at + 112 <= data.len(),
        ensures
            r == BlockHeader::at_front(data@.skip(at as int)),
    {
        reveal(BlockHeader::at_front);
        let key = read_u64(data, at);
        let nonce = read_u64(data, at + 8);
        let prev = U256::read(data, at + 16);
        let root = U256::read(data, at + 48);
        let target = U256::read(data, at + 80);
        proof {
            let s = data@.skip(at as int);
            assert(s.skip(8) =~= data@.skip(at + 8));
            assert(s.skip(16) =~= data@.skip(at + 16));
            assert(s.skip(48) =~= data@.skip(at + 48));
            assert(s.skip(80) =~= data@.skip(at + 80));
        }
        BlockHeader {
            timestamp: (key as i128 - 0x8000_0000_0000_0000) as i64,
            nonce,
            prev_block_hash: crate::sha256::Hash(prev),
            merkle_root: MerkleRoot(crate::sha256::Hash(root)),
            target,
        }
    }

    /// The hash of the header's encoding.
    pub open spec fn spec_hash(self) -> crate::sha256::Hash {
        crate::sha256::Hash::of(self.encoding())
    }

    /// Whether the header's hash is at most its target.
    pub open spec fn is_solved(self) -> bool {
        self.spec_hash().0@ <= self.target@
    }

    /// The header with another nonce.
    pub open spec fn with_nonce(self, nonce: u64) -> BlockHeader {
        BlockHeader { nonce, ..self }
    }

    /// The header after `count` further nonces: the nonce counts on; once
    /// it has passed the largest 64-bit value it has started again at zero,
    /// and the timestamp is `now`, the time of the restart.
    pub open spec fn after_nonces(self, count: int, now: i64) -> BlockHeader {
        if self.nonce + count <= u64::MAX {
            self.with_nonce((self.nonce + count) as u64)
        } else {
            BlockHeader {
                nonce: (self.nonce + count - 0x1_0000_0000_0000_0000) as u64,
                timestamp: now,
                ..self
            }
        }
    }

    /// What a search of up to `steps` further nonces makes of `self`: the
    /// header is left at the first nonce that solves it, or `steps` nonces
    /// further where none does; the result says which. The time of a
    /// restart is whatever the clock gave.
    pub open spec fn mined_to(self, steps: usize, left: BlockHeader, found: bool) -> bool {
        exists|tried: int, now: i64|
            {
                &&& 0 <= tried <= steps
                &&& left == #[trigger] self.after_nonces(tried, now)
                &&& found == left.is_solved()
                &&& found || tried == steps
                &&& forall|count: int|
                    0 <= count < tried ==> !(#[trigger] self.after_nonces(count, now)).is_solved()
            }
    }

    /// Starts the nonce again at zero, with the timestamp set to `now`.
    pub fn restart(&mut self, now: i64)
        ensures
            *final(self) == (BlockHeader { nonce: 0, timestamp: now, ..*old(self) }),
    {
        self.nonce = 0;
        self.timestamp = now;
    }

    /// A header with the given fields.
    pub fn new(
        timestamp: i64,
        nonce: u64,
        prev_block_hash: crate::sha256::Hash,
        merkle_root: MerkleRoot,
        target: U256,
    ) -> (header: BlockHeader)
        ensures
            header == (BlockHeader { timestamp, nonce, prev_block_hash, merkle_root, target }),
    {
        BlockHeader { timestamp, nonce, prev_block_hash, merkle_root, target }
    }

    /// Appends the encoding of the header to `out`.
    pub fn encode_into(&self, out: &mut Vec<u8>)
        ensures
            final(out)@ == old(out)@ + self.encoding(),
    {
        reveal(BlockHeader::encoding);
        let key: u64 = (self.timestamp as i128 + 0x8000_0000_0000_0000) as u64;
        push_u64(out, key);
        push_u64(out, self.nonce);
        self.prev_block_hash.0.encode_into(out);
        self.merkle_root.0.0.encode_into(out);
        self.target.encode_into(out);
        assert(out@ =~= old(out)@ + self.encoding());
    }

    /// The hash of the header's encoding.
    pub fn hash(&self) -> (h: crate::sha256::Hash)
        ensures
            h == self.spec_hash(),
    {
        let mut bytes: Vec<u8> = Vec::new();
        self.encode_into(&mut bytes);
        assert(bytes@ =~= self.encoding());
        crate::sha256::Hash::hash(bytes.as_slice())
    }

    /// Searches for a nonce that solves the header: the header as it stands
    /// is tried first, then up to `steps` further nonces, each one more than
    /// the last. When the nonce has run through all 64-bit values it starts
    /// again at zero, and the timestamp is set to the clock's time.
    ///
    /// The header is left at the first nonce that solves it, or `steps`
    /// nonces further where none does; the result says whether it is solved.
    pub fn mine(&mut self, steps: usize) -> (found: bool)
        ensures
            old(self).mined_to(steps, *final(self), found),
    {
        let ghost start = *self;
        let ghost mut clock: i64 = 0;
        let ghost mut restarted: bool = false;
        if self.hash().matches_target(self.target) {
            assert(*self == start.after_nonces(0, clock));
            return true;
        }
        let mut tried: usize = 0;
        while tried < steps
            invariant
                tried <= steps,
                start == *old(self),
                *self == start.after_nonces(tried as int, clock),
                !restarted ==> start.nonce + tried <= u64::MAX,
                restarted ==> start.nonce + tried > u64::MAX,
                forall|count: int|
                    0 <= count <= tried ==> !(#[trigger] start.after_nonces(count, clock)).is_solved(),
            decreases steps - tried,
        {
            if self.nonce < u64::MAX {
                self.nonce = self.nonce + 1;
            } else {
                let now = current_time();
                proof {
                    assert forall|count: int| 0 <= count <= tried implies !(
                    #[trigger] start.after_nonces(count, now)).is_solved() by {
                        assert(start.after_nonces(count, now) == start.after_nonces(count, clock));
                    }
                    clock = now;
                    restarted = true;
                }
                self.restart(now);
            }
            tried = tried + 1;
            assert(*self == start.after_nonces(tried as int, clock));
            if self.hash().matches_target(self.target) {
                return true;
            }
        }
        assert(*self == start.after_nonces(tried as int, clock));
        false
    }
}

impl BlockView {
    /// The encoding of a block: the header, the number of transactions, the
    /// transactions.
    pub open spec fn encoding(self) -> Seq<u8> {
        self.header.encoding() + u64_be(self.transactions.len() as u64) + transactions_encoding(
            self.transactions,
        )
    }

    /// The block at the front of `s` and the number of bytes that it takes;
    /// none where `s` ends before the block does.
    #[verifier::opaque]
    pub open spec fn parse(s: Seq<u8>) -> Option<(BlockView, int)> {
        if s.len() < 112 {
            None
        } else {
            match parse_u64(s.skip(112)) {
                None => None,
                Some(count) => match parse_transactions(s.skip(120), count as nat) {
                    None => None,
                    Some((transactions, used)) => Some(
                        (
                            BlockView { header: BlockHeader::at_front(s), transactions },
                            120 + used,
                        ),
                    ),
                },
            }
        }
    }

    /// Whether the numbers of transactions, inputs and outputs fit in 64
    /// bits, as those of every block in memory do.
    pub open spec fn fits(self) -> bool {
        self.transactions.len() <= u64::MAX && all_fit(self.transactions)
    }

    /// Reading back the bytes of a block gives the block, whatever follows
    /// them.
    pub proof fn lemma_round_trip(self, rest: Seq<u8>)
        requires
            self.fits(),
        ensures
            BlockView::parse(self.encoding() + rest) == Some((self, self.encoding().len() as int)),
    {
        reveal(BlockView::parse);
        let count = self.transactions.len() as u64;
        let e_txs = transactions_encoding(self.transactions);
        let s = self.encoding() + rest;
        self.header.lemma_round_trip(u64_be(count) + e_txs + rest);
        lemma_u64_round_trip(count, e_txs + rest);
        lemma_transactions_round_trip(self.transactions, rest);
        assert(s =~= self.header.encoding() + (u64_be(count) + e_txs + rest));
        assert(s.skip(112) =~= u64_be(count) + (e_txs + rest));
        assert(s.skip(120) =~= e_txs + rest);
    }

    /// The hash of a block: the hash of its header.
    pub open spec fn hash(self) -> crate::sha256::Hash {
        self.header.spec_hash()
    }
}

impl Block {
    /// A block with the given header and transactions.
    pub fn new(header: BlockHeader, transaction: Vec<Transaction>) -> (block: Block)
        ensures
            block.header == header,
            block.transactions == transaction,
            block@ == (BlockView { header, transactions: transaction_views(transaction@) }),
    {
        Block { header, transactions: transaction }
    }

    /// A copy of the block.
    pub fn duplicate(&self) -> (copy: Block)
        ensures
            copy@ == self@,
    {
        let mut transactions: Vec<Transaction> = Vec::new();
        let mut t: usize = 0;
        while t < self.transactions.len()
            invariant
                t <= self.transactions.len(),
                transactions@.len() == t,
                forall|p: int| 0 <= p < t ==> transactions@[p]@ == self.transactions@[p]@,
            decreases self.transactions.len() - t,
        {
            transactions.push(self.transactions[t].duplicate());
            t = t + 1;
        }
        assert(transaction_views(transactions@) =~= transaction_views(self.transactions@));
        Block { header: self.header, transactions }
    }

    /// Appends the encoding of the block to `out`.
    pub fn encode_into(&self, out: &mut Vec<u8>)
        ensures
            final(out)@ == old(out)@ + self@.encoding(),
    {
        self.header.encode_into(out);
        push_u64(out, self.transactions.len() as u64);
        let ghost head = out@;
        let ghost views = self@.transactions;
        let mut t: usize = 0;
        assert(views.take(0) =~= Seq::empty());
        while t < self.transactions.len()
            invariant
                t <= self.transactions.len(),
                views == transaction_views(self.transactions@),
                out@ == head + transactions_encoding(views.take(t as int)),
            decreases self.transactions.len() - t,
        {
            self.transactions[t].encode_into(out);
            proof {
                let next = views.take(t + 1);
                assert(next.drop_last() =~= views.take(t as int));
                assert(next.last() == self.transactions@[t as int]@);
                assert(out@ =~= head + transactions_encoding(next));
            }
            t = t + 1;
        }
        assert(views.take(t as int) =~= views);
        assert(out@ =~= old(out)@ + self@.encoding());
    }

    /// The canonical encoding of the block.
    pub fn to_bytes(&self) -> (bytes: Vec<u8>)
        ensures
            bytes@ == self@.encoding(),
    {
        let mut bytes: Vec<u8> = Vec::new();
        self.encode_into(&mut bytes);
        assert(bytes@ =~= self@.encoding());
        bytes
    }

    /// Reads the block that stands at `at` in `data`, and says where it
    /// ends. `None` where the data ends before the block does.
    pub fn decode_from(data: &[u8], at: usize) -> (r: Option<(Block, usize)>)
        requires
            at <= data.len(),
        ensures
            match r {
                Some((block, next)) => at <= next <= data.len() && BlockView::parse(
                    data@.skip(at as int),
                ) == Some((block@, next - at)),
                None => BlockView::parse(data@.skip(at as int)) is None,
            },
    {
        reveal(BlockView::parse);
        let ghost s = data@.skip(at as int);
        if data.len() - at < 112 {
            return None;
        }
        let header = BlockHeader::read(data, at);
        assert(s.skip(112) =~= data@.skip(at + 112));
        let count = match take_u64(data, at + 112) {
            Some(n) => n,
            None => {
                return None;
            },
        };
        let start = at + 120;
        let ghost body = s.skip(120);
        assert(body =~= data@.skip(start as int));
        let mut transactions: Vec<Transaction> = Vec::new();
        let mut pos: usize = start;
        let mut done: u64 = 0;
        assert(body.skip(0) =~= body);
        assert(transaction_views(transactions@) =~= Seq::empty());
        while done < count
            invariant
                done <= count,
                start <= pos <= data.len(),
                start == at + 120,
                s == data@.skip(at as int),
                s.len() >= 112,
                parse_u64(s.skip(112)) == Some(count),
                body == s.skip(120),
                body == data@.skip(start as int),
                parse_transactions(body, count as nat) == match parse_transactions(
                    body.skip(pos - start),
                    (count - done) as nat,
                ) {
                    None => None,
                    Some((more, used)) => Some(
                        (transaction_views(transactions@) + more, pos - start + used),
                    ),
                },
            decreases count - done,
        {
            reveal(BlockView::parse);
            let ghost here = body.skip(pos - start);
            assert(here =~= data@.skip(pos as int));
            let ghost before = transaction_views(transactions@);
            match Transaction::decode_from(data, pos) {
                None => {
                    return None;
                },
                Some((tx, next)) => {
                    proof {
                        let used = next - pos;
                        assert(here.skip(used) =~= body.skip(next - start));
                        let after = parse_transactions(here.skip(used), (count - done - 1) as nat);
                        if after is Some {
                            let found = after.unwrap();
                            let more = found.0;
                            assert(before + (seq![tx@] + more) =~= before.push(tx@) + more);
                        }
                    }
                    transactions.push(tx);
                    assert(transaction_views(transactions@) =~= before.push(tx@));
                    pos = next;
                },
            }
            done = done + 1;
        }
        proof {
            let left = parse_transactions(body.skip(pos - start), 0);
            assert(transaction_views(transactions@) + Seq::<TransactionView>::empty()
                =~= transaction_views(transactions@));
        }
        Some((Block { header, transactions }, pos))
    }

    /// The block that `data` spells from its first byte to its last;
    /// `IoError` where `data` is not exactly one block.
    pub fn from_bytes(data: &[u8]) -> (r: Result<Block, BtcError>)
        ensures
            match r {
                Ok(block) => BlockView::parse(data@) == Some((block@, data@.len() as int)),
                Err(e) => e == BtcError::IoError && !(BlockView::parse(data@) matches Some(
                    (_, used),
                ) && used == data@.len()),
            },
    {
        assert(data@.skip(0) =~= data@);
        match Block::decode_from(data, 0) {
            Some((block, next)) => if next == data.len() {
                Ok(block)
            } else {
                Err(BtcError::IoError)
            },
            None => Err(BtcError::IoError),
        }
    }

    /// The hash of the block: the hash of its header.
    pub fn hash(&self) -> (h: crate::sha256::Hash)
        ensures
            h == self@.hash(),
    {
        self.header.hash()
    }

    /// The inputs of all transactions after the first, in order.
    fn collect_spends(&self) -> (spends: Vec<TransactionInput>)
        ensures
            spends@ == block_inputs(non_coinbase(self@.transactions)),
    {
        let mut spends: Vec<TransactionInput> = Vec::new();
        let ghost views = self@.transactions;
        if self.transactions.len() == 0 {
            return spends;
        }
        let mut t: usize = 1;
        assert(views.subrange(1, 1) =~= Seq::empty());
        while t < self.transactions.len()
            invariant
                1 <= t <= self.transactions.len(),
                views == transaction_views(self.transactions@),
                spends@ == block_inputs(views.subrange(1, t as int)),
            decreases self.transactions.len() - t,
        {
            let tx = &self.transactions[t];
            let ghost before = spends@;
            let mut k: usize = 0;
            while k < tx.inputs.len()
                invariant
                    k <= tx.inputs.len(),
                    spends@ == before + tx.inputs@.take(k as int),
                decreases tx.inputs.len() - k,
            {
                spends.push(tx.inputs[k]);
                assert(tx.inputs@.take(k + 1) =~= tx.inputs@.take(k as int).push(
                    tx.inputs@[k as int],
                ));
                k = k + 1;
            }
            proof {
                assert(tx.inputs@.take(k as int) =~= tx.inputs@);
                let next = views.subrange(1, t + 1);
                assert(next.drop_last() =~= views.subrange(1, t as int));
                assert(next.last() == views[t as int]);
                assert(views[t as int].inputs == tx.inputs@);
            }
            t = t + 1;
        }
        assert(views.subrange(1, t as int) =~= views.skip(1));
        spends
    }

    /// What the transactions after the first give out, in all.
    fn spent_outputs_total(&self) -> (given: Tally)
        ensures
            given@ == block_outputs_total(non_coinbase(self@.transactions)),
    {
        let mut given = Tally::zero();
        let ghost views = self@.transactions;
        if self.transactions.len() == 0 {
            return given;
        }
        let mut t: usize = 1;
        assert(views.subrange(1, 1) =~= Seq::empty());
        while t < self.transactions.len()
            invariant
                1 <= t <= self.transactions.len(),
                views == transaction_views(self.transactions@),
                given@ == block_outputs_total(views.subrange(1, t as int)),
                given.high <= t,
            decreases self.transactions.len() - t,
        {
            let value = self.transactions[t].output_value();
            proof {
                let next = views.subrange(1, t + 1);
                assert(next.drop_last() =~= views.subrange(1, t as int));
                assert(next.last() == views[t as int]);
            }
            given.add(value);
            t = t + 1;
        }
        assert(views.subrange(1, t as int) =~= views.skip(1));
        given
    }

    /// The fees that the block leaves to its miner: what the transactions
    /// after the first take in, less what they give out.
    ///
    /// `InvalidTransaction` where one of them spends an output that is not in
    /// `utxos`, where an output is spent twice in the block, or where the
    /// difference is negative or does not fit in 128 bits.
    pub fn calculate_miner_fees(&self, utxos: &UtxoSet) -> (r: Result<u128, BtcError>)
        requires
            utxos.wf(),
        ensures
            r == miner_fees(self@.transactions, utxos@),
    {
        let spends = self.collect_spends();
        let mut taken = Tally::zero();
        let mut i: usize = 0;
        assert(spends@.take(0) =~= Seq::empty());
        while i < spends.len()
            invariant
                i <= spends.len(),
                utxos.wf(),
                spends@ == block_inputs(non_coinbase(self@.transactions)),
                spends_known(spends@.take(i as int), utxos@),
                spends_distinct(spends@.take(i as int)),
                taken@ == inputs_total(spends@.take(i as int), utxos@),
                taken.high <= i,
            decreases spends.len() - i,
        {
            let key = spends[i].prev_transaction_output_hash;
            let ghost next = spends@.take(i + 1);
            proof {
                assert(next.drop_last() =~= spends@.take(i as int));
                assert(next.last() == spends@[i as int]);
            }
            let value = match utxos.get(&key) {
                Some((_, output)) => output.value,
                None => {
                    assert(!spends_known(spends@, utxos@));
                    return Err(BtcError::InvalidTransaction);
                },
            };
            let mut j: usize = 0;
            while j < i
                invariant
                    j <= i,
                    i < spends.len(),
                    spends@ == block_inputs(non_coinbase(self@.transactions)),
                    key == spends@[i as int].prev_transaction_output_hash,
                    forall|p: int|
                        0 <= p < j ==> spends@[p].prev_transaction_output_hash != key,
                decreases i - j,
            {
                if spends[j].prev_transaction_output_hash == key {
                    assert(!spends_distinct(spends@));
                    return Err(BtcError::InvalidTransaction);
                }
                j = j + 1;
            }
            taken.add(value as u128);
            proof {
                assert forall|p: int| 0 <= p < next.len() implies utxos@.contains_key(
                    #[trigger] next[p].prev_transaction_output_hash,
                ) by {
                    if p < i {
                        assert(spends@.take(i as int)[p] == next[p]);
                    }
                }
                assert forall|p: int, q: int| 0 <= p < q < next.len() implies next[p].prev_transaction_output_hash
                    != next[q].prev_transaction_output_hash by {
                    if q < i {
                        assert(spends@.take(i as int)[p] == next[p]);
                        assert(spends@.take(i as int)[q] == next[q]);
                    }
                }
            }
            i = i + 1;
        }
        assert(spends@.take(i as int) =~= spends@);
        let given = self.spent_outputs_total();
        match taken.minus(&given) {
            Some(fees) => Ok(fees),
            None => Err(BtcError::InvalidTransaction),
        }
    }

    /// Checks the coinbase, the first transaction of the block: it must have
    /// at least one input and one output, and give out exactly the subsidy
    /// at `predicted_block_height` plus the fees of the block.
    pub fn verify_coinbase_transaction(&self, predicted_block_height: u64, utxos: &UtxoSet) -> (r:
        Result<(), BtcError>)
        requires
            utxos.wf(),
            self@.transactions.len() > 0,
        ensures
            r == coinbase_check(self@.transactions, predicted_block_height as nat, utxos@),
    {
        let coinbase = &self.transactions[0];
        assert(self@.transactions[0] == coinbase@);
        if coinbase.inputs.len() == 0 {
            return Err(BtcError::InvalidTransaction);
        }
        if coinbase.outputs.len() == 0 {
            return Err(BtcError::InvalidTransaction);
        }
        let fees = match self.calculate_miner_fees(utxos) {
            Ok(fees) => fees,
            Err(e) => {
                return Err(e);
            },
        };
        let reward = reward_at(predicted_block_height);
        let paid = coinbase.output_value();
        if paid >= reward as u128 && paid - reward as u128 == fees {
            Ok(())
        } else {
            Err(BtcError::InvalidTransaction)
        }
    }

    /// Checks one spending transaction against the unspent outputs.
    pub fn verify_spend(tx: &Transaction, utxos: &UtxoSet) -> (r: Result<(), BtcError>)
        requires
            utxos.wf(),
        ensures
            r == spend_check(tx@, utxos@),
    {
        let mut taken: u128 = 0;
        let mut k: usize = 0;
        assert(tx.inputs@.take(0) =~= Seq::empty());
        assert(tx.inputs@.skip(0) =~= tx.inputs@);
        while k < tx.inputs.len()
            invariant
                k <= tx.inputs.len(),
                utxos.wf(),
                inputs_check(tx.inputs@, utxos@) == inputs_check(tx.inputs@.skip(k as int), utxos@),
                taken == inputs_total(tx.inputs@.take(k as int), utxos@),
                taken <= k * 0xFFFF_FFFF_FFFF_FFFF,
            decreases tx.inputs.len() - k,
        {
            let input = tx.inputs[k];
            proof {
                let rest = tx.inputs@.skip(k as int);
                assert(rest[0] == input);
                assert(rest.drop_first() =~= tx.inputs@.skip(k + 1));
                let next = tx.inputs@.take(k + 1);
                assert(next.drop_last() =~= tx.inputs@.take(k as int));
                assert(next.last() == input);
            }
            match utxos.get(&input.prev_transaction_output_hash) {
                None => {
                    return Err(BtcError::InvalidTransaction);
                },
                Some((_, output)) => {
                    if !input.signature.verify(
                        &input.prev_transaction_output_hash,
                        &output.pubkey,
                    ) {
                        return Err(BtcError::InvalidSignature);
                    }
                    taken = taken + output.value as u128;
                },
            }
            k = k + 1;
        }
        assert(tx.inputs@.take(k as int) =~= tx.inputs@);
        let given = tx.output_value();
        if taken < given {
            Err(BtcError::InvalidTransaction)
        } else {
            Ok(())
        }
    }

    /// Checks the transactions of the block against the unspent outputs, for
    /// a block that is to stand at `predicted_block_height`.
    ///
    /// An empty block is refused with `InvalidTransaction`. Then the coinbase
    /// is checked, then each other transaction in order: every input must
    /// spend a known output (`InvalidTransaction`) with a signature that the
    /// owner's key verifies (`InvalidSignature`), and the transaction must
    /// give out no more than it takes in (`InvalidTransaction`). No output
    /// may be spent twice in the block.
    pub fn verify_transaction(&self, predicted_block_height: u64, utxos: &UtxoSet) -> (r: Result<
        (),
        BtcError,
    >)
        requires
            utxos.wf(),
        ensures
            r == transactions_check(self@.transactions, predicted_block_height as nat, utxos@),
    {
        if self.transactions.len() == 0 {
            return Err(BtcError::InvalidTransaction);
        }
        match self.verify_coinbase_transaction(predicted_block_height, utxos) {
            Err(e) => {
                return Err(e);
            },
            Ok(_) => {},
        }
        let ghost views = self@.transactions;
        let mut t: usize = 1;
        while t < self.transactions.len()
            invariant
                1 <= t <= self.transactions.len(),
                utxos.wf(),
                views == transaction_views(self.transactions@),
                transactions_check(views, predicted_block_height as nat, utxos@) == spends_check(
                    views.skip(t as int),
                    utxos@,
                ),
            decreases self.transactions.len() - t,
        {
            proof {
                let rest = views.skip(t as int);
                assert(rest[0] == self.transactions@[t as int]@);
                assert(rest.drop_first() =~= views.skip(t + 1));
            }
            match Block::verify_spend(&self.transactions[t], utxos) {
                Err(e) => {
                    return Err(e);
                },
                Ok(_) => {},
            }
            t = t + 1;
        }
        Ok(())
    }
}

/// The mathematical values of some blocks, in order.
pub open spec fn block_views(blocks: Seq<Block>) -> Seq<BlockView> {
    Seq::new(blocks.len(), |i: int| blocks[i]@)
}

/// The encodings of some blocks, one after the other.
pub open spec fn blocks_encoding(blocks: Seq<BlockView>) -> Seq<u8>
    decreases blocks.len(),
{
    if blocks.len() == 0 {
        Seq::empty()
    } else {
        blocks_encoding(blocks.drop_last()) + blocks.last().encoding()
    }
}

/// The `count` blocks that stand one after the other at the front of `s`,
/// and the number of bytes that they take; none where `s` ends before they
/// do.
pub open spec fn parse_blocks(s: Seq<u8>, count: nat) -> Option<(Seq<BlockView>, int)>
    decreases count,
{
    if count == 0 {
        Some((Seq::empty(), 0))
    } else {
        match BlockView::parse(s) {
            None => None,
            Some((first, used)) => if used < 0 || used > s.len() {
                None
            } else {
                match parse_blocks(s.skip(used), (count - 1) as nat) {
                    None => None,
                    Some((more, used_more)) => Some((seq![first] + more, used + used_more)),
                }
            },
        }
    }
}

/// The encoding of a chain: the number of blocks, then the blocks.
pub open spec fn chain_encoding(blocks: Seq<BlockView>) -> Seq<u8> {
    u64_be(blocks.len() as u64) + blocks_encoding(blocks)
}

/// The blocks that `s` spells from its first byte to its last; none where
/// `s` is not exactly the encoding of a chain.
pub open spec fn parse_chain(s: Seq<u8>) -> Option<Seq<BlockView>> {
    match parse_u64(s) {
        None => None,
        Some(count) => match parse_blocks(s.skip(8), count as nat) {
            None => None,
            Some((blocks, used)) => if 8 + used == s.len() {
                Some(blocks)
            } else {
                None
            },
        },
    }
}

/// Whether every block fits.
pub open spec fn blocks_fit(blocks: Seq<BlockView>) -> bool {
    forall|i: int| 0 <= i < blocks.len() ==> (#[trigger] blocks[i]).fits()
}

/// The encoding of a list with one more block in front.
pub proof fn lemma_blocks_encoding_front(first: BlockView, more: Seq<BlockView>)
    ensures
        blocks_encoding(seq![first] + more) == first.encoding() + blocks_encoding(more),
    decreases more.len(),
{
    let all = seq![first] + more;
    if more.len() == 0 {
        assert(all.drop_last() =~= Seq::empty());
        assert(all.last() == first);
        assert(blocks_encoding(all.drop_last()) =~= Seq::empty());
        assert(blocks_encoding(more) =~= Seq::empty());
        assert(blocks_encoding(all) == blocks_encoding(all.drop_last()) + first.encoding());
        assert(blocks_encoding(all) =~= first.encoding() + blocks_encoding(more));
    } else {
        lemma_blocks_encoding_front(first, more.drop_last());
        assert(all.drop_last() =~= seq![first] + more.drop_last());
        assert(all.last() == more.last());
        assert(blocks_encoding(all) =~= first.encoding() + blocks_encoding(more));
    }
}

/// Reading back the bytes of some blocks gives the blocks, whatever follows
/// them.
pub proof fn lemma_blocks_round_trip(blocks: Seq<BlockView>, rest: Seq<u8>)
    requires
        blocks_fit(blocks),
    ensures
        parse_blocks(blocks_encoding(blocks) + rest, blocks.len()) == Some(
            (blocks, blocks_encoding(blocks).len() as int),
        ),
    decreases blocks.len(),
{
    if blocks.len() > 0 {
        let first = blocks[0];
        let more = blocks.drop_first();
        assert(blocks =~= seq![first] + more);
        lemma_blocks_encoding_front(first, more);
        assert(blocks_fit(more)) by {
            assert forall|i: int| 0 <= i < more.len() implies (#[trigger] more[i]).fits() by {
                assert(more[i] == blocks[i + 1]);
            }
        }
        let tail = blocks_encoding(more) + rest;
        first.lemma_round_trip(tail);
        lemma_blocks_round_trip(more, rest);
        let s = blocks_encoding(blocks) + rest;
        assert(s =~= first.encoding() + tail);
        assert(s.skip(first.encoding().len() as int) =~= tail);
    } else {
        assert(blocks =~= Seq::empty());
    }
}

/// Decoding the encoding of a chain gives its blocks.
pub proof fn lemma_chain_round_trip(blocks: Seq<BlockView>)
    requires
        blocks.len() <= u64::MAX,
        blocks_fit(blocks),
    ensures
        parse_chain(chain_encoding(blocks)) == Some(blocks),
{
    let none: Seq<u8> = Seq::empty();
    let s = chain_encoding(blocks);
    lemma_u64_round_trip(blocks.len() as u64, blocks_encoding(blocks));
    lemma_blocks_round_trip(blocks, none);
    assert(s.skip(8) =~= blocks_encoding(blocks) + none);
    assert(blocks_encoding(blocks) + none =~= blocks_encoding(blocks));
}

/// The encoding of a chain of blocks.
pub fn encode_chain(blocks: &Vec<Block>) -> (bytes: Vec<u8>)
    ensures
        bytes@ == chain_encoding(block_views(blocks@)),
{
    let mut out: Vec<u8> = Vec::new();
    push_u64(&mut out, blocks.len() as u64);
    let ghost head = out@;
    let ghost views = block_views(blocks@);
    let mut b: usize = 0;
    assert(views.take(0) =~= Seq::empty());
    assert(out@ =~= head + blocks_encoding(views.take(0)));
    while b < blocks.len()
        invariant
            b <= blocks.len(),
            views == block_views(blocks@),
            out@ == head + blocks_encoding(views.take(b as int)),
        decreases blocks.len() - b,
    {
        blocks[b].encode_into(&mut out);
        proof {
            let next = views.take(b + 1);
            assert(next.drop_last() =~= views.take(b as int));
            assert(next.last() == blocks@[b as int]@);
            assert(out@ =~= head + blocks_encoding(next));
        }
        b = b + 1;
    }
    assert(views.take(b as int) =~= views);
    assert(out@ =~= chain_encoding(views));
    out
}

/// The blocks that `data` spells from its first byte to its last; `IoError`
/// where `data` is not exactly the encoding of a chain.
pub fn decode_chain(data: &[u8]) -> (r: Result<Vec<Block>, BtcError>)
    ensures
        match r {
            Ok(blocks) => parse_chain(data@) == Some(block_views(blocks@)),
            Err(e) => e == BtcError::IoError && parse_chain(data@) is None,
        },
{
    assert(data@.skip(0) =~= data@);
    let count = match take_u64(data, 0) {
        Some(n) => n,
        None => {
            return Err(BtcError::IoError);
        },
    };
    let ghost body = data@.skip(8);
    let mut blocks: Vec<Block> = Vec::new();
    let mut pos: usize = 8;
    let mut done: u64 = 0;
    assert(body.skip(0) =~= body);
    assert(block_views(blocks@) =~= Seq::empty());
    while done < count
        invariant
            done <= count,
            8 <= pos <= data.len(),
            parse_u64(data@) == Some(count),
            body == data@.skip(8),
            parse_blocks(body, count as nat) == match parse_blocks(
                body.skip(pos - 8),
                (count - done) as nat,
            ) {
                None => None,
                Some((more, used)) => Some((block_views(blocks@) + more, pos - 8 + used)),
            },
        decreases count - done,
    {
        let ghost here = body.skip(pos - 8);
        assert(here =~= data@.skip(pos as int));
        let ghost before = block_views(blocks@);
        match Block::decode_from(data, pos) {
            None => {
                return Err(BtcError::IoError);
            },
            Some((block, next)) => {
                proof {
                    let used = next - pos;
                    assert(here.skip(used) =~= body.skip(next - 8));
                    let after = parse_blocks(here.skip(used), (count - done - 1) as nat);
                    if after is Some {
                        let found = after.unwrap();
                        assert(before + (seq![block@] + found.0) =~= before.push(block@)
                            + found.0);
                    }
                }
                blocks.push(block);
                assert(block_views(blocks@) =~= before.push(block@));
                pos = next;
            },
        }
        done = done + 1;
    }
    proof {
        assert(block_views(blocks@) + Seq::<BlockView>::empty() =~= block_views(blocks@));
    }
    if pos == data.len() {
        Ok(blocks)
    } else {
        Err(BtcError::IoError)
    }
}

} // verus!
