//! Templates: the candidate blocks that a node composes for a miner from the
//! pending transactions, and the check that a template can still be
//! admitted.
use vstd::prelude::*;
use crate::crypto::{PublicKey, Signature};
use crate::ledger::{implied_fee, spends, template_check, ChainView, Pool, Utxos};
use crate::types::block::{
    block_inputs,
    block_outputs_total,
    block_reward,
    coinbase_check,
    inputs_check,
    inputs_total,
    miner_fees,
    non_coinbase,
    reward_at,
    spend_check,
    spends_check,
    spends_distinct,
    spends_known,
    transactions_check,
    Block,
    BlockHeader,
};
use crate::types::blockchain::{fee_of, pool_view, Blockchain};
use crate::types::transaction::{
    outputs_total,
    Transaction,
    TransactionInput,
    TransactionOutput,
    TransactionView,
};
use crate::u256::U256;
use crate::util::{merkle_root, transaction_views, MerkleRoot};

verus! {

/// The input of a coinbase: it spends the zero hash under a zero signature.
pub open spec fn coinbase_input() -> TransactionInput {
    TransactionInput {
        prev_transaction_output_hash: crate::sha256::Hash(U256 { w3: 0, w2: 0, w1: 0, w0: 0 }),
        signature: Signature {
            r: U256 { w3: 0, w2: 0, w1: 0, w0: 0 },
            s: U256 { w3: 0, w2: 0, w1: 0, w0: 0 },
        },
    }
}

/// The coinbase of a template: one output that pays `value` to `owner`.
pub open spec fn template_coinbase(value: u64, unique_id: u128, owner: PublicKey) -> TransactionView {
    TransactionView {
        inputs: seq![coinbase_input()],
        outputs: seq![TransactionOutput { value, unique_id, pubkey: owner }],
    }
}

/// Whether `candidate` joins the transactions chosen so far: there is room
/// for it, it passes the check of a spending transaction, none of its inputs
/// spends what another of its inputs or a chosen transaction spends, and
/// subsidy and fees still fit in one output.
pub open spec fn joins(
    chosen: Seq<TransactionView>,
    fees: nat,
    candidate: TransactionView,
    utxos: Utxos,
    reward: nat,
    budget: nat,
) -> bool {
    &&& chosen.len() < budget
    &&& spend_check(candidate, utxos) is Ok
    &&& spends_distinct(candidate.inputs)
    &&& forall|j: int|
        0 <= j < candidate.inputs.len() ==> !spends(
            block_inputs(chosen),
            #[trigger] candidate.inputs[j].prev_transaction_output_hash,
        )
    &&& reward + fees + implied_fee(candidate, utxos) <= u64::MAX
}

/// The transactions chosen from the last `considered` entries of the pool,
/// and their fees: the entries are looked at from the back, where the fees
/// are highest, and each that joins is taken.
pub open spec fn selection(
    pool: Pool,
    considered: nat,
    utxos: Utxos,
    reward: nat,
    budget: nat,
) -> (Seq<TransactionView>, nat)
    decreases considered,
{
    if considered == 0 || considered > pool.len() {
        (Seq::empty(), 0)
    } else {
        let before = selection(pool, (considered - 1) as nat, utxos, reward, budget);
        let candidate = pool[pool.len() - considered].1;
        if joins(before.0, before.1, candidate, utxos, reward, budget) {
            (before.0.push(candidate), before.1 + implied_fee(candidate, utxos))
        } else {
            before
        }
    }
}

/// The transactions of a template: the coinbase, which pays subsidy and
/// fees to `owner`, then up to `budget` pending transactions, highest fee
/// first.
pub open spec fn template_transactions(
    chain: ChainView,
    owner: PublicKey,
    unique_id: u128,
    budget: nat,
) -> Seq<TransactionView> {
    let reward = block_reward(chain.blocks.len());
    let picked = selection(chain.mempool, chain.mempool.len(), chain.utxos, reward, budget);
    seq![template_coinbase((reward + picked.1) as u64, unique_id, owner)] + picked.0
}

/// Inputs that pass the check spend known outputs.
pub proof fn lemma_checked_inputs_known(inputs: Seq<TransactionInput>, utxos: Utxos)
    requires
        inputs_check(inputs, utxos) is Ok,
    ensures
        spends_known(inputs, utxos),
    decreases inputs.len(),
{
    if inputs.len() > 0 {
        let rest = inputs.drop_first();
        lemma_checked_inputs_known(rest, utxos);
        assert forall|i: int| 0 <= i < inputs.len() implies utxos.contains_key(
            #[trigger] inputs[i].prev_transaction_output_hash,
        ) by {
            if i > 0 {
                assert(rest[i - 1] == inputs[i]);
            }
        }
    }
}

/// What two lists of inputs take is the sum of what each takes.
pub proof fn lemma_inputs_total_sum(
    first: Seq<TransactionInput>,
    second: Seq<TransactionInput>,
    utxos: Utxos,
)
    ensures
        inputs_total(first + second, utxos) == inputs_total(first, utxos) + inputs_total(
            second,
            utxos,
        ),
    decreases second.len(),
{
    if second.len() == 0 {
        assert(first + second =~= first);
    } else {
        lemma_inputs_total_sum(first, second.drop_last(), utxos);
        assert((first + second).drop_last() =~= first + second.drop_last());
        assert((first + second).last() == second.last());
    }
}

/// Spending transactions pass the check one by one: a list with one more at
/// the end passes where the list and the one do.
pub proof fn lemma_spends_check_push(
    txs: Seq<TransactionView>,
    last: TransactionView,
    utxos: Utxos,
)
    requires
        spends_check(txs, utxos) is Ok,
        spend_check(last, utxos) is Ok,
    ensures
        spends_check(txs.push(last), utxos) is Ok,
    decreases txs.len(),
{
    let all = txs.push(last);
    if txs.len() == 0 {
        assert(all.len() == 1);
        assert(all[0] == last);
        assert(all.drop_first() =~= Seq::empty());
        assert(spends_check(all.drop_first(), utxos) is Ok);
    } else {
        assert(spend_check(txs[0], utxos) is Ok);
        assert(spends_check(txs.drop_first(), utxos) is Ok);
        lemma_spends_check_push(txs.drop_first(), last, utxos);
        assert(all[0] == txs[0]);
        assert(all.drop_first() =~= txs.drop_first().push(last));
    }
}

/// What holds of every selection: its transactions spend known outputs,
/// each at most once; what they take is what they give out plus the fees;
/// they pass the check of spending transactions; there are no more of them
/// than the budget allows; and subsidy and fees fit in one output.
pub proof fn lemma_selection(pool: Pool, considered: nat, utxos: Utxos, reward: nat, budget: nat)
    requires
        reward <= u64::MAX,
    ensures
        ({
            let picked = selection(pool, considered, utxos, reward, budget);
            &&& spends_known(block_inputs(picked.0), utxos)
            &&& spends_distinct(block_inputs(picked.0))
            &&& inputs_total(block_inputs(picked.0), utxos) == block_outputs_total(picked.0)
                + picked.1
            &&& spends_check(picked.0, utxos) is Ok
            &&& picked.0.len() <= budget
            &&& reward + picked.1 <= u64::MAX
        }),
    decreases considered,
{
    if considered == 0 || considered > pool.len() {
        let none: Seq<TransactionView> = Seq::empty();
        assert(block_inputs(none) =~= Seq::empty());
    } else {
        lemma_selection(pool, (considered - 1) as nat, utxos, reward, budget);
        let before = selection(pool, (considered - 1) as nat, utxos, reward, budget);
        let candidate = pool[pool.len() - considered].1;
        if joins(before.0, before.1, candidate, utxos, reward, budget) {
            let chosen = before.0.push(candidate);
            let head = block_inputs(before.0);
            let all = block_inputs(chosen);
            assert(chosen.drop_last() =~= before.0);
            assert(chosen.last() == candidate);
            assert(all == head + candidate.inputs);
            lemma_checked_inputs_known(candidate.inputs, utxos);
            lemma_inputs_total_sum(head, candidate.inputs, utxos);
            lemma_spends_check_push(before.0, candidate, utxos);
            assert forall|i: int| 0 <= i < all.len() implies utxos.contains_key(
                #[trigger] all[i].prev_transaction_output_hash,
            ) by {
                if i < head.len() {
                    assert(all[i] == head[i]);
                } else {
                    assert(all[i] == candidate.inputs[i - head.len()]);
                }
            }
            assert forall|i: int, j: int| 0 <= i < j < all.len() implies all[i].prev_transaction_output_hash
                != all[j].prev_transaction_output_hash by {
                if j < head.len() {
                    assert(all[i] == head[i] && all[j] == head[j]);
                } else if i >= head.len() {
                    assert(all[i] == candidate.inputs[i - head.len()]);
                    assert(all[j] == candidate.inputs[j - head.len()]);
                } else {
                    assert(all[i] == head[i]);
                    assert(all[j] == candidate.inputs[j - head.len()]);
                    assert(!spends(
                        head,
                        candidate.inputs[j - head.len()].prev_transaction_output_hash,
                    ));
                }
            }
        }
    }
}

/// The transactions of a template pass the check at the next height.
pub proof fn lemma_template_transactions_pass(
    chain: ChainView,
    owner: PublicKey,
    unique_id: u128,
    budget: nat,
)
    ensures
        transactions_check(
            template_transactions(chain, owner, unique_id, budget),
            chain.blocks.len(),
            chain.utxos,
        ) is Ok,
        template_transactions(chain, owner, unique_id, budget).len() <= budget + 1,
{
    let reward = block_reward(chain.blocks.len());
    assert(reward <= 5_000_000_000) by {
        vstd::arithmetic::power2::lemma_pow2_pos(
            chain.blocks.len() / crate::HALVING_INTERVAL as nat,
        );
        vstd::arithmetic::div_mod::lemma_div_is_ordered_by_denominator(
            5_000_000_000,
            1,
            vstd::arithmetic::power2::pow2(chain.blocks.len() / crate::HALVING_INTERVAL as nat) as int,
        );
    }
    lemma_selection(chain.mempool, chain.mempool.len(), chain.utxos, reward, budget);
    let picked = selection(chain.mempool, chain.mempool.len(), chain.utxos, reward, budget);
    let coinbase = template_coinbase((reward + picked.1) as u64, unique_id, owner);
    let txs = template_transactions(chain, owner, unique_id, budget);
    assert(txs[0] == coinbase);
    assert(txs.skip(1) =~= picked.0);
    assert(non_coinbase(txs) == picked.0);
    assert(coinbase.outputs.drop_last() =~= Seq::empty());
    assert(outputs_total(coinbase.outputs.drop_last()) == 0);
    assert(coinbase.output_value() == reward + picked.1);
    assert(miner_fees(txs, chain.utxos) == Ok::<u128, crate::error::BtcError>(picked.1 as u128));
    assert(coinbase_check(txs, chain.blocks.len(), chain.utxos) is Ok);
}

/// Whether `key` is one of `keys`.
fn key_among(keys: &Vec<crate::sha256::Hash>, key: &crate::sha256::Hash) -> (found: bool)
    ensures
        found == keys@.contains(*key),
{
    let mut i: usize = 0;
    while i < keys.len()
        invariant
            i <= keys.len(),
            forall|p: int| 0 <= p < i ==> keys@[p] != *key,
        decreases keys.len() - i,
    {
        if keys[i] == *key {
            return true;
        }
        i = i + 1;
    }
    false
}

/// Whether no two inputs spend the same output, and none spends what
/// `taken` holds.
fn spends_apart(inputs: &Vec<TransactionInput>, taken: &Vec<crate::sha256::Hash>) -> (apart: bool)
    ensures
        apart == (spends_distinct(inputs@) && forall|p: int|
            0 <= p < inputs@.len() ==> !taken@.contains(
                #[trigger] inputs@[p].prev_transaction_output_hash,
            )),
{
    let mut j: usize = 0;
    while j < inputs.len()
        invariant
            j <= inputs.len(),
            forall|a: int, b: int|
                0 <= a < b < j ==> inputs@[a].prev_transaction_output_hash
                    != inputs@[b].prev_transaction_output_hash,
            forall|p: int|
                0 <= p < j ==> !taken@.contains(#[trigger] inputs@[p].prev_transaction_output_hash),
        decreases inputs.len() - j,
    {
        let key = inputs[j].prev_transaction_output_hash;
        if key_among(taken, &key) {
            return false;
        }
        let mut q: usize = 0;
        while q < j
            invariant
                q <= j,
                j < inputs.len(),
                key == inputs@[j as int].prev_transaction_output_hash,
                forall|p: int| 0 <= p < q ==> inputs@[p].prev_transaction_output_hash != key,
            decreases j - q,
        {
            if inputs[q].prev_transaction_output_hash == key {
                return false;
            }
            q = q + 1;
        }
        j = j + 1;
    }
    true
}

/// The outputs that some inputs spend.
pub open spec fn spent_keys(inputs: Seq<TransactionInput>) -> Seq<crate::sha256::Hash> {
    Seq::new(inputs.len(), |i: int| inputs[i].prev_transaction_output_hash)
}

impl Blockchain {
    /// Whether `block` can still be admitted once a nonce is found for it:
    /// it names the hash of the last block, its Merkle root is that of its
    /// transactions, its timestamp is later than that of the last block, and
    /// its transactions pass the check at the next height. The proof of work
    /// is not looked at.
    pub fn validate_template(&self, block: &Block) -> (valid: bool)
        requires
            self.wf(),
        ensures
            valid == template_check(self@, block@),
    {
        let blocks = self.blocks();
        let linked = if blocks.len() == 0 {
            block.header.prev_block_hash == crate::sha256::Hash::zero()
        } else {
            let last = &blocks[blocks.len() - 1];
            assert(self@.blocks.last() == last@);
            block.header.prev_block_hash == last.hash() && block.header.timestamp
                > last.header.timestamp
        };
        if !linked || block.transactions.len() == 0 {
            return false;
        }
        let root = MerkleRoot::calculate(block.transactions.as_slice());
        if root.0 != block.header.merkle_root.0 {
            return false;
        }
        block.verify_transaction(self.blocks_height(), self.utxos()).is_ok()
    }

    /// Composes a template for a miner: a coinbase that pays subsidy and
    /// fees to `public_key` in one output with the identifier `unique_id`,
    /// then up to `budget` pending transactions, highest fee first. A
    /// pending transaction is left out where it does not pass the check of
    /// a spending transaction, where it spends what a chosen one spends, or
    /// where its fee would make the coinbase overflow. The header names the
    /// last block, carries the chain's target, the time `now` and nonce
    /// zero.
    ///
    /// Where `now` is later than the timestamp of the last block, the
    /// template can be admitted once it is solved.
    pub fn compose_template(&self, public_key: PublicKey, unique_id: u128, now: i64, budget: usize) -> (block:
        Block)
        requires
            self.wf(),
        ensures
            block@.transactions == template_transactions(
                self@,
                public_key,
                unique_id,
                budget as nat,
            ),
            block@.header.timestamp == now,
            block@.header.nonce == 0,
            block@.header.target@ == self@.target,
            block@.header.merkle_root.0 == merkle_root(block@.transactions),
            block@.header.prev_block_hash == if self@.blocks.len() == 0 {
                crate::sha256::Hash(U256 { w3: 0, w2: 0, w1: 0, w0: 0 })
            } else {
                self@.blocks.last().hash()
            },
            self@.blocks.len() > 0 ==> now > self@.blocks.last().header.timestamp
                ==> template_check(self@, block@),
            self@.blocks.len() == 0 ==> template_check(self@, block@),
    {
        let utxos = self.utxos();
        let pool = self.mempool();
        let reward = reward_at(self.blocks_height());
        let ghost views = pool_view(pool@);
        let ghost reward_spec = block_reward(self@.blocks.len());
        proof {
            lemma_template_transactions_pass(self@, public_key, unique_id, budget as nat);
        }
        let mut chosen: Vec<Transaction> = Vec::new();
        let mut taken: Vec<crate::sha256::Hash> = Vec::new();
        let mut fees: u64 = 0;
        let mut considered: usize = 0;
        assert(transaction_views(chosen@) =~= Seq::empty());
        assert(block_inputs(transaction_views(chosen@)) =~= Seq::empty());
        assert(taken@ =~= spent_keys(block_inputs(transaction_views(chosen@))));
        while considered < pool.len()
            invariant
                considered <= pool.len(),
                utxos.wf(),
                views == pool_view(pool@),
                reward == reward_spec,
                reward + fees <= u64::MAX,
                (transaction_views(chosen@), fees as nat) == selection(
                    views,
                    considered as nat,
                    utxos@,
                    reward_spec,
                    budget as nat,
                ),
                taken@ == spent_keys(block_inputs(transaction_views(chosen@))),
            decreases pool.len() - considered,
        {
            let candidate = &pool[pool.len() - considered - 1].1;
            let ghost before = transaction_views(chosen@);
            let ghost spent = block_inputs(before);
            assert(views[pool.len() - (considered + 1)].1 == candidate@);
            let fee = fee_of(candidate, utxos);
            let fits = chosen.len() < budget && Block::verify_spend(candidate, utxos).is_ok() && fee
                <= (u64::MAX - reward - fees) as u128 && spends_apart(&candidate.inputs, &taken);
            proof {
                assert forall|key: crate::sha256::Hash| taken@.contains(key) == spends(
                    spent,
                    key,
                ) by {
                    if taken@.contains(key) {
                        let w = choose|w: int| 0 <= w < taken@.len() && taken@[w] == key;
                        assert(spent[w].prev_transaction_output_hash == key);
                    }
                    if spends(spent, key) {
                        let w = choose|w: int|
                            0 <= w < spent.len() && spent[w].prev_transaction_output_hash == key;
                        assert(taken@[w] == key);
                    }
                }
                assert(fits == joins(
                    before,
                    fees as nat,
                    candidate@,
                    utxos@,
                    reward_spec,
                    budget as nat,
                ));
            }
            if fits {
                let ghost keys_before = taken@;
                let mut k: usize = 0;
                while k < candidate.inputs.len()
                    invariant
                        k <= candidate.inputs.len(),
                        taken@ == keys_before + spent_keys(candidate.inputs@.take(k as int)),
                    decreases candidate.inputs.len() - k,
                {
                    taken.push(candidate.inputs[k].prev_transaction_output_hash);
                    assert(spent_keys(candidate.inputs@.take(k + 1)) =~= spent_keys(
                        candidate.inputs@.take(k as int),
                    ).push(candidate.inputs@[k as int].prev_transaction_output_hash));
                    k = k + 1;
                }
                chosen.push(candidate.duplicate());
                fees = fees + fee as u64;
                proof {
                    assert(candidate.inputs@.take(k as int) =~= candidate.inputs@);
                    let after = transaction_views(chosen@);
                    assert(after =~= before.push(candidate@));
                    assert(after.drop_last() =~= before);
                    assert(block_inputs(after) == spent + candidate@.inputs);
                    assert(taken@ =~= spent_keys(block_inputs(after)));
                }
            }
            considered = considered + 1;
        }
        let coinbase = Transaction::new(
            vec![
                TransactionInput {
                    prev_transaction_output_hash: crate::sha256::Hash::zero(),
                    signature: Signature { r: U256::zero(), s: U256::zero() },
                },
            ],
            vec![TransactionOutput { value: reward + fees, unique_id, pubkey: public_key }],
        );
        let ghost picked = transaction_views(chosen@);
        let ghost first = template_coinbase((reward + fees) as u64, unique_id, public_key);
        proof {
            assert(coinbase@.inputs =~= first.inputs);
            assert(coinbase@.outputs =~= first.outputs);
        }
        let mut transactions: Vec<Transaction> = Vec::new();
        transactions.push(coinbase);
        assert(transaction_views(transactions@) =~= seq![first]);
        while chosen.len() > 0
            invariant
                transaction_views(transactions@) + transaction_views(chosen@) == seq![first]
                    + picked,
                transactions@.len() > 0,
            decreases chosen.len(),
        {
            let ghost done = transaction_views(transactions@);
            let ghost left = transaction_views(chosen@);
            let ghost raw = chosen@;
            let tx = chosen.remove(0);
            transactions.push(tx);
            proof {
                assert(chosen@ == raw.remove(0));
                assert(transaction_views(transactions@) =~= done.push(left[0]));
                assert(transaction_views(chosen@) =~= left.drop_first());
                assert(done.push(left[0]) + left.drop_first() =~= done + left);
            }
        }
        proof {
            assert(transaction_views(chosen@) =~= Seq::empty());
            assert(transaction_views(transactions@) + transaction_views(chosen@)
                =~= transaction_views(transactions@));
        }
        let blocks = self.blocks();
        let prev = if blocks.len() == 0 {
            crate::sha256::Hash::zero()
        } else {
            let last = &blocks[blocks.len() - 1];
            assert(self@.blocks.last() == last@);
            last.hash()
        };
        let root = MerkleRoot::calculate(transactions.as_slice());
        Block::new(BlockHeader::new(now, 0, prev, root, self.target()), transactions)
    }
}

} // verus!
