//! The chain state as a mathematical value, and what each operation makes of
//! it. The executable chain state is proved against these functions.
use vstd::prelude::*;
use crate::error::BtcError;
use crate::types::block::{
    inputs_total,
    spends_distinct,
    spends_known,
    transactions_check,
    BlockView,
};
use crate::types::transaction::{TransactionInput, TransactionOutput, TransactionView};
use crate::u256::{min_target_value, U256};
use crate::util::merkle_root;
use crate::utxo::with_mark;

verus! {

/// The unspent outputs: hash to mark and output.
pub type Utxos = Map<crate::sha256::Hash, (bool, TransactionOutput)>;

/// The pending transactions, each with the time at which it was admitted.
pub type Pool = Seq<(i64, TransactionView)>;

/// The chain state as a mathematical value.
pub struct ChainView {
    pub blocks: Seq<BlockView>,
    pub target: nat,
    pub utxos: Utxos,
    pub mempool: Pool,
}

// ---------------------------------------------------------------------------
// Marks
// ---------------------------------------------------------------------------
/// `utxos` with the mark of every output that `inputs` spend set to `marked`.
pub open spec fn set_marks(utxos: Utxos, inputs: Seq<TransactionInput>, marked: bool) -> Utxos
    decreases inputs.len(),
{
    if inputs.len() == 0 {
        utxos
    } else {
        with_mark(
            set_marks(utxos, inputs.drop_last(), marked),
            inputs.last().prev_transaction_output_hash,
            marked,
        )
    }
}

/// Whether one of `inputs` spends the output under `key`.
pub open spec fn spends(inputs: Seq<TransactionInput>, key: crate::sha256::Hash) -> bool {
    exists|j: int| 0 <= j < inputs.len() && inputs[j].prev_transaction_output_hash == key
}

/// Whether a pending transaction has an input that spends the output under
/// `key`.
pub open spec fn referenced(pool: Pool, key: crate::sha256::Hash) -> bool {
    exists|e: int| 0 <= e < pool.len() && spends(#[trigger] pool[e].1.inputs, key)
}

/// Whether every marked output is spent by an input of some pending
/// transaction.
pub open spec fn marks_backed(utxos: Utxos, pool: Pool) -> bool {
    forall|k: crate::sha256::Hash|
        #![trigger utxos[k]]
        utxos.contains_key(k) && utxos[k].0 ==> referenced(pool, k)
}

/// What `set_marks` does to each key: the keys stay, the outputs stay, and
/// the mark changes exactly under the keys that `inputs` spend.
pub proof fn lemma_set_marks(utxos: Utxos, inputs: Seq<TransactionInput>, marked: bool)
    ensures
        set_marks(utxos, inputs, marked).dom() == utxos.dom(),
        forall|k: crate::sha256::Hash|
            #![trigger set_marks(utxos, inputs, marked)[k]]
            utxos.contains_key(k) ==> set_marks(utxos, inputs, marked)[k] == if spends(inputs, k) {
                (marked, utxos[k].1)
            } else {
                utxos[k]
            },
    decreases inputs.len(),
{
    if inputs.len() > 0 {
        let head = inputs.drop_last();
        let last = inputs.last().prev_transaction_output_hash;
        lemma_set_marks(utxos, head, marked);
        let before = set_marks(utxos, head, marked);
        let after = set_marks(utxos, inputs, marked);
        assert(after.dom() =~= utxos.dom());
        assert forall|k: crate::sha256::Hash| utxos.contains_key(k) implies #[trigger] after[k]
            == if spends(inputs, k) {
            (marked, utxos[k].1)
        } else {
            utxos[k]
        } by {
            if spends(head, k) {
                let j = choose|j: int|
                    0 <= j < head.len() && head[j].prev_transaction_output_hash == k;
                assert(inputs[j].prev_transaction_output_hash == k);
            }
            if k == last {
                assert(inputs[inputs.len() - 1].prev_transaction_output_hash == k);
            }
            if spends(inputs, k) && k != last {
                let j = choose|j: int|
                    0 <= j < inputs.len() && inputs[j].prev_transaction_output_hash == k;
                assert(head[j].prev_transaction_output_hash == k);
            }
        }
    } else {
        assert(set_marks(utxos, inputs, marked).dom() =~= utxos.dom());
    }
}

// ---------------------------------------------------------------------------
// Fees and order of the mempool
// ---------------------------------------------------------------------------
/// The fee that a pending transaction leaves: what its inputs take from
/// `utxos` less what it gives out; nothing where it gives out more.
pub open spec fn implied_fee(tx: TransactionView, utxos: Utxos) -> nat {
    let taken = inputs_total(tx.inputs, utxos);
    let given = tx.output_value();
    if taken >= given {
        (taken - given) as nat
    } else {
        0
    }
}

/// Where a transaction with fee `fee` goes into a list that is sorted by
/// fee: behind every entry whose fee is at most `fee`.
pub open spec fn insert_position(sorted: Pool, fee: nat, utxos: Utxos) -> int
    decreases sorted.len(),
{
    if sorted.len() == 0 {
        0
    } else if implied_fee(sorted.last().1, utxos) <= fee {
        sorted.len() as int
    } else {
        insert_position(sorted.drop_last(), fee, utxos)
    }
}

/// The stable sort of `pool` by ascending fee: entries of equal fee keep
/// their order.
pub open spec fn sort_by_fee(pool: Pool, utxos: Utxos) -> Pool
    decreases pool.len(),
{
    if pool.len() == 0 {
        pool
    } else {
        let head = sort_by_fee(pool.drop_last(), utxos);
        head.insert(
            insert_position(head, implied_fee(pool.last().1, utxos), utxos),
            pool.last(),
        )
    }
}

/// Whether the fees of `pool` ascend.
pub open spec fn ascending_fees(pool: Pool, utxos: Utxos) -> bool {
    forall|i: int, j: int|
        0 <= i <= j < pool.len() ==> implied_fee(pool[i].1, utxos) <= implied_fee(
            pool[j].1,
            utxos,
        )
}

/// The position at which a fee goes in lies in the list; the fees before it
/// are at most the fee, and those from it on are larger.
pub proof fn lemma_insert_position(sorted: Pool, fee: nat, utxos: Utxos)
    requires
        ascending_fees(sorted, utxos),
    ensures
        0 <= insert_position(sorted, fee, utxos) <= sorted.len(),
        forall|i: int|
            0 <= i < insert_position(sorted, fee, utxos) ==> implied_fee(sorted[i].1, utxos)
                <= fee,
        forall|i: int|
            insert_position(sorted, fee, utxos) <= i < sorted.len() ==> implied_fee(
                sorted[i].1,
                utxos,
            ) > fee,
    decreases sorted.len(),
{
    if sorted.len() > 0 && implied_fee(sorted.last().1, utxos) > fee {
        let head = sorted.drop_last();
        assert forall|i: int, j: int| 0 <= i <= j < head.len() implies implied_fee(
            head[i].1,
            utxos,
        ) <= implied_fee(head[j].1, utxos) by {
            assert(head[i] == sorted[i] && head[j] == sorted[j]);
        }
        lemma_insert_position(head, fee, utxos);
        assert forall|i: int| 0 <= i < insert_position(sorted, fee, utxos) implies implied_fee(
            sorted[i].1,
            utxos,
        ) <= fee by {
            assert(head[i] == sorted[i]);
        }
        assert forall|i: int|
            insert_position(sorted, fee, utxos) <= i < sorted.len() implies implied_fee(
            sorted[i].1,
            utxos,
        ) > fee by {
            if i < head.len() {
                assert(head[i] == sorted[i]);
            }
        }
    } else if sorted.len() > 0 {
        assert forall|i: int| 0 <= i < sorted.len() implies implied_fee(sorted[i].1, utxos)
            <= fee by {
            assert(implied_fee(sorted[i].1, utxos) <= implied_fee(
                sorted[sorted.len() - 1].1,
                utxos,
            ));
        }
    }
}

/// The sorted mempool holds the entries of the unsorted one, as many times
/// each, and its fees ascend.
pub proof fn lemma_sort_by_fee(pool: Pool, utxos: Utxos)
    ensures
        sort_by_fee(pool, utxos).len() == pool.len(),
        sort_by_fee(pool, utxos).to_multiset() == pool.to_multiset(),
        ascending_fees(sort_by_fee(pool, utxos), utxos),
    decreases pool.len(),
{
    broadcast use vstd::seq_lib::group_to_multiset_ensures;
    if pool.len() > 0 {
        let head = sort_by_fee(pool.drop_last(), utxos);
        let last = pool.last();
        let fee = implied_fee(last.1, utxos);
        lemma_sort_by_fee(pool.drop_last(), utxos);
        lemma_insert_position(head, fee, utxos);
        let at = insert_position(head, fee, utxos);
        let sorted = head.insert(at, last);
        assert(pool =~= pool.drop_last().push(last));
        vstd::seq_lib::to_multiset_insert(head, at, last);
        assert(sorted.to_multiset() =~= pool.to_multiset());
        assert forall|i: int, j: int| 0 <= i <= j < sorted.len() implies implied_fee(
            sorted[i].1,
            utxos,
        ) <= implied_fee(sorted[j].1, utxos) by {
            let fi = if i < at {
                head[i]
            } else if i == at {
                last
            } else {
                head[i - 1]
            };
            let fj = if j < at {
                head[j]
            } else if j == at {
                last
            } else {
                head[j - 1]
            };
            assert(sorted[i] == fi && sorted[j] == fj);
        }
    }
}

// ---------------------------------------------------------------------------
// Admission to the mempool
// ---------------------------------------------------------------------------
/// Whether one of the outputs of `tx` has the hash `key`.
pub open spec fn produces(tx: TransactionView, key: crate::sha256::Hash) -> bool {
    exists|j: int| 0 <= j < tx.outputs.len() && (#[trigger] tx.outputs[j]).spec_hash() == key
}

/// The position of the first pending transaction at or behind `from` that
/// produces `key`; the length of the pool where there is none.
pub open spec fn first_producer(pool: Pool, key: crate::sha256::Hash, from: int) -> int
    decreases pool.len() - from,
{
    if from < 0 || from >= pool.len() {
        pool.len() as int
    } else if produces(pool[from].1, key) {
        from
    } else {
        first_producer(pool, key, from + 1)
    }
}

/// What a new transaction that spends `key` does to the pending state where
/// the output under `key` is marked: the first pending transaction that
/// produces `key` leaves the pool and the outputs that its inputs spend lose
/// their marks; where no pending transaction produces `key`, the output
/// under `key` loses its mark. An unmarked or unknown output changes
/// nothing.
pub open spec fn resolve_conflict(utxos: Utxos, pool: Pool, key: crate::sha256::Hash) -> (
    Utxos,
    Pool,
) {
    if utxos.contains_key(key) && utxos[key].0 {
        let at = first_producer(pool, key, 0);
        if at < pool.len() {
            (set_marks(utxos, pool[at].1.inputs, false), pool.remove(at))
        } else {
            (with_mark(utxos, key, false), pool)
        }
    } else {
        (utxos, pool)
    }
}

/// `resolve_conflict` for each of `inputs` in order.
pub open spec fn resolve_conflicts(utxos: Utxos, pool: Pool, inputs: Seq<TransactionInput>) -> (
    Utxos,
    Pool,
)
    decreases inputs.len(),
{
    if inputs.len() == 0 {
        (utxos, pool)
    } else {
        let before = resolve_conflicts(utxos, pool, inputs.drop_last());
        resolve_conflict(before.0, before.1, inputs.last().prev_transaction_output_hash)
    }
}

/// Whether the mempool takes `tx`: every input spends a known output, none
/// is spent twice, and the transaction gives out no more than it takes in.
pub open spec fn admission_allowed(utxos: Utxos, tx: TransactionView) -> bool {
    spends_known(tx.inputs, utxos) && spends_distinct(tx.inputs) && inputs_total(
        tx.inputs,
        utxos,
    ) >= tx.output_value()
}

/// The chain state after `tx` was admitted to the mempool at time `now`:
/// conflicts are resolved, the outputs that `tx` spends are marked, `tx`
/// joins the pool, and the pool is sorted by ascending fee.
pub open spec fn admit_to_mempool(chain: ChainView, tx: TransactionView, now: i64) -> ChainView {
    let resolved = resolve_conflicts(chain.utxos, chain.mempool, tx.inputs);
    let utxos = set_marks(resolved.0, tx.inputs, true);
    ChainView { utxos, mempool: sort_by_fee(resolved.1.push((now, tx)), utxos), ..chain }
}

// ---------------------------------------------------------------------------
// Leaving the mempool
// ---------------------------------------------------------------------------
/// Whether a transaction admitted at `admitted` is too old at `now`.
pub open spec fn is_stale(admitted: i64, now: i64) -> bool {
    now - admitted > crate::MAX_MEMPOOL_TRANSACTION_AGE
}

/// The entries that are too old at `now`.
pub open spec fn stale_at(now: i64) -> spec_fn((i64, TransactionView)) -> bool {
    |entry: (i64, TransactionView)| is_stale(entry.0, now)
}

/// The entries whose transaction has one of the given hashes.
pub open spec fn included_in(hashes: Seq<crate::sha256::Hash>) -> spec_fn(
    (i64, TransactionView),
) -> bool {
    |entry: (i64, TransactionView)| hashes.contains(entry.1.hash())
}

/// The pending state without the entries that `gone` picks: the others keep
/// their order, and the outputs that the inputs of a picked entry spend lose
/// their marks.
pub open spec fn drop_entries(
    utxos: Utxos,
    pool: Pool,
    gone: spec_fn((i64, TransactionView)) -> bool,
) -> (Utxos, Pool)
    decreases pool.len(),
{
    if pool.len() == 0 {
        (utxos, pool)
    } else {
        let before = drop_entries(utxos, pool.drop_last(), gone);
        if gone(pool.last()) {
            (set_marks(before.0, pool.last().1.inputs, false), before.1)
        } else {
            (before.0, before.1.push(pool.last()))
        }
    }
}

/// The chain state after the entries that are too old at `now` were dropped.
pub open spec fn clean_mempool(chain: ChainView, now: i64) -> ChainView {
    let left = drop_entries(chain.utxos, chain.mempool, stale_at(now));
    ChainView { utxos: left.0, mempool: left.1, ..chain }
}

// ---------------------------------------------------------------------------
// The unspent outputs of a chain
// ---------------------------------------------------------------------------
/// `utxos` without the outputs that `inputs` spend.
pub open spec fn remove_spent(utxos: Utxos, inputs: Seq<TransactionInput>) -> Utxos
    decreases inputs.len(),
{
    if inputs.len() == 0 {
        utxos
    } else {
        remove_spent(utxos, inputs.drop_last()).remove(inputs.last().prev_transaction_output_hash)
    }
}

/// `utxos` with each of `outputs` under its hash, unmarked.
pub open spec fn insert_created(utxos: Utxos, outputs: Seq<TransactionOutput>) -> Utxos
    decreases outputs.len(),
{
    if outputs.len() == 0 {
        utxos
    } else {
        insert_created(utxos, outputs.drop_last()).insert(
            outputs.last().spec_hash(),
            (false, outputs.last()),
        )
    }
}

/// `utxos` after one transaction: what it spends leaves, what it creates
/// comes in.
pub open spec fn apply_transaction(utxos: Utxos, tx: TransactionView) -> Utxos {
    insert_created(remove_spent(utxos, tx.inputs), tx.outputs)
}

/// `utxos` after some transactions, in order.
pub open spec fn apply_transactions(utxos: Utxos, txs: Seq<TransactionView>) -> Utxos
    decreases txs.len(),
{
    if txs.len() == 0 {
        utxos
    } else {
        apply_transaction(apply_transactions(utxos, txs.drop_last()), txs.last())
    }
}

/// `utxos` after the transactions of some blocks, in order.
pub open spec fn apply_blocks(utxos: Utxos, blocks: Seq<BlockView>) -> Utxos
    decreases blocks.len(),
{
    if blocks.len() == 0 {
        utxos
    } else {
        apply_transactions(apply_blocks(utxos, blocks.drop_last()), blocks.last().transactions)
    }
}

// ---------------------------------------------------------------------------
// The target
// ---------------------------------------------------------------------------
/// The seconds that the ideal number of blocks between two adjustments
/// should take.
pub open spec fn ideal_seconds() -> int {
    crate::IDEAL_BLOCK_TIME as int * crate::DIFFICULTY_UPDATE_INTERVAL as int
}

/// The new target for a scaled target: at least a quarter and at most four
/// times the old target, and never easier than the easiest target.
pub open spec fn clamp_target(target: nat, scaled: int) -> nat {
    let low = (target / 4) as int;
    let high = (target * 4) as int;
    let clamped = if scaled < low {
        low
    } else if scaled > high {
        high
    } else {
        scaled
    };
    if clamped <= min_target_value() {
        clamped as nat
    } else {
        min_target_value()
    }
}

/// The new target after an interval that took `seconds`: the old target
/// times the seconds taken over the ideal seconds, rounded down, then
/// clamped.
pub open spec fn retarget(target: nat, seconds: int) -> nat {
    clamp_target(target, (target * seconds) / ideal_seconds())
}

/// The target after the last of `blocks` was admitted: adjusted where the
/// number of blocks is a positive multiple of the update interval, by the
/// time between the last block and the block one interval before it.
pub open spec fn adjusted_target(blocks: Seq<BlockView>, target: nat) -> nat {
    let interval = crate::DIFFICULTY_UPDATE_INTERVAL as int;
    if blocks.len() == 0 || blocks.len() % (interval as nat) != 0 {
        target
    } else {
        retarget(
            target,
            blocks.last().header.timestamp - blocks[blocks.len() - interval].header.timestamp,
        )
    }
}

// ---------------------------------------------------------------------------
// Admission of a block
// ---------------------------------------------------------------------------
/// Whether `block` may follow `blocks` but for its proof of work: it names
/// the hash of the last block (zero for the first block of a chain), its
/// Merkle root is that of its transactions, of which there is at least one,
/// and its timestamp is later than that of the last block.
pub open spec fn header_links(blocks: Seq<BlockView>, block: BlockView) -> bool {
    &&& block.header.prev_block_hash == if blocks.len() == 0 {
        crate::sha256::Hash(U256 { w3: 0, w2: 0, w1: 0, w0: 0 })
    } else {
        blocks.last().hash()
    }
    &&& block.transactions.len() > 0
    &&& merkle_root(block.transactions) == block.header.merkle_root.0
    &&& blocks.len() > 0 ==> block.header.timestamp > blocks.last().header.timestamp
}

/// Whether `block` may follow `blocks` by its header: it links, and its hash
/// is at most its target.
pub open spec fn header_fits(blocks: Seq<BlockView>, block: BlockView) -> bool {
    header_links(blocks, block) && block.header.is_solved()
}

/// Whether a template can still be admitted once it is solved: its header
/// links, and its transactions pass the check at the next height.
pub open spec fn template_check(chain: ChainView, block: BlockView) -> bool {
    header_links(chain.blocks, block) && transactions_check(
        block.transactions,
        chain.blocks.len(),
        chain.utxos,
    ) is Ok
}

/// What `add_block` returns: `InvalidBlock` where the header does not fit,
/// else what the check of the transactions gives at the next height.
pub open spec fn admission_check(chain: ChainView, block: BlockView) -> Result<(), BtcError> {
    if !header_fits(chain.blocks, block) {
        Err(BtcError::InvalidBlock)
    } else {
        transactions_check(block.transactions, chain.blocks.len(), chain.utxos)
    }
}

/// The hashes of some transactions, in order.
pub open spec fn transaction_hashes(txs: Seq<TransactionView>) -> Seq<crate::sha256::Hash> {
    Seq::new(txs.len(), |i: int| txs[i].hash())
}

/// The chain state after `block` was admitted: the pending transactions
/// whose hash is that of a transaction of the block leave the pool, the
/// transactions of the block are applied to the unspent outputs, the block
/// joins the chain, and the target is adjusted where that is due.
pub open spec fn admit_block(chain: ChainView, block: BlockView) -> ChainView {
    let left = drop_entries(
        chain.utxos,
        chain.mempool,
        included_in(transaction_hashes(block.transactions)),
    );
    let blocks = chain.blocks.push(block);
    ChainView {
        blocks,
        target: adjusted_target(blocks, chain.target),
        utxos: apply_transactions(left.0, block.transactions),
        mempool: left.1,
    }
}

/// The chain state after some blocks were admitted one after the other, or
/// the error of the first that was refused.
pub open spec fn admit_blocks(chain: ChainView, blocks: Seq<BlockView>) -> Result<
    ChainView,
    BtcError,
>
    decreases blocks.len(),
{
    if blocks.len() == 0 {
        Ok(chain)
    } else {
        match admit_blocks(chain, blocks.drop_last()) {
            Err(e) => Err(e),
            Ok(before) => match admission_check(before, blocks.last()) {
                Err(e) => Err(e),
                Ok(_) => Ok(admit_block(before, blocks.last())),
            },
        }
    }
}

/// Whether every block of a chain fits behind the blocks before it.
pub open spec fn chain_valid(blocks: Seq<BlockView>) -> bool {
    forall|h: int| 0 <= h < blocks.len() ==> header_fits(blocks.take(h), #[trigger] blocks[h])
}

impl ChainView {
    /// The state of a chain without blocks.
    pub open spec fn empty() -> ChainView {
        ChainView {
            blocks: Seq::empty(),
            target: min_target_value(),
            utxos: Map::empty(),
            mempool: Seq::empty(),
        }
    }

    /// Whether the state is one that the operations of a chain keep: every
    /// block fits behind the blocks before it, every marked output is spent
    /// by an input of a pending transaction, and the target is no easier
    /// than the easiest target.
    pub open spec fn wf(self) -> bool {
        &&& chain_valid(self.blocks)
        &&& marks_backed(self.utxos, self.mempool)
        &&& self.target <= min_target_value()
    }
}

// ---------------------------------------------------------------------------
// What the operations keep
// ---------------------------------------------------------------------------
/// Whether `after` marks no output that `before` does not mark.
pub open spec fn no_new_marks(before: Utxos, after: Utxos) -> bool {
    forall|k: crate::sha256::Hash|
        #![trigger after[k]]
        after.contains_key(k) && after[k].0 ==> before.contains_key(k) && before[k].0
}

/// Releasing the marks of an entry that leaves the pool keeps every marked
/// output backed.
pub proof fn lemma_release_entry(utxos: Utxos, pool: Pool, at: int)
    requires
        0 <= at < pool.len(),
        marks_backed(utxos, pool),
    ensures
        marks_backed(set_marks(utxos, pool[at].1.inputs, false), pool.remove(at)),
{
    let inputs = pool[at].1.inputs;
    let after = set_marks(utxos, inputs, false);
    let left = pool.remove(at);
    lemma_set_marks(utxos, inputs, false);
    assert forall|k: crate::sha256::Hash| after.contains_key(k) && (#[trigger] after[k]).0 implies referenced(
        left,
        k,
    ) by {
        assert(utxos.contains_key(k));
        assert(!spends(inputs, k));
        assert(utxos[k].0);
        let e = choose|e: int| 0 <= e < pool.len() && spends(#[trigger] pool[e].1.inputs, k);
        assert(e != at);
        if e < at {
            assert(left[e] == pool[e]);
            assert(spends(left[e].1.inputs, k));
        } else {
            assert(left[e - 1] == pool[e]);
            assert(spends(left[e - 1].1.inputs, k));
        }
    }
}

/// Resolving one conflict keeps every marked output backed.
pub proof fn lemma_resolve_conflict_keeps(utxos: Utxos, pool: Pool, key: crate::sha256::Hash)
    requires
        marks_backed(utxos, pool),
    ensures
        marks_backed(resolve_conflict(utxos, pool, key).0, resolve_conflict(utxos, pool, key).1),
{
    if utxos.contains_key(key) && utxos[key].0 {
        let at = first_producer(pool, key, 0);
        lemma_first_producer(pool, key, 0);
        if at < pool.len() {
            lemma_release_entry(utxos, pool, at);
        } else {
            let after = with_mark(utxos, key, false);
            assert forall|k: crate::sha256::Hash|
                after.contains_key(k) && (#[trigger] after[k]).0 implies referenced(pool, k) by {
                assert(utxos[k].0);
            }
        }
    }
}

/// Where the first producer stands.
pub proof fn lemma_first_producer(pool: Pool, key: crate::sha256::Hash, from: int)
    requires
        0 <= from,
    ensures
        from <= first_producer(pool, key, from) || first_producer(pool, key, from) == pool.len(),
        first_producer(pool, key, from) <= pool.len(),
        first_producer(pool, key, from) < pool.len() ==> produces(
            pool[first_producer(pool, key, from)].1,
            key,
        ),
        forall|e: int|
            from <= e < first_producer(pool, key, from) ==> !produces((#[trigger] pool[e]).1, key),
    decreases pool.len() - from,
{
    if from < pool.len() && !produces(pool[from].1, key) {
        lemma_first_producer(pool, key, from + 1);
    }
}

/// Resolving the conflicts of some inputs keeps every marked output backed.
pub proof fn lemma_resolve_conflicts_keeps(
    utxos: Utxos,
    pool: Pool,
    inputs: Seq<TransactionInput>,
)
    requires
        marks_backed(utxos, pool),
    ensures
        marks_backed(
            resolve_conflicts(utxos, pool, inputs).0,
            resolve_conflicts(utxos, pool, inputs).1,
        ),
    decreases inputs.len(),
{
    if inputs.len() > 0 {
        lemma_resolve_conflicts_keeps(utxos, pool, inputs.drop_last());
        let before = resolve_conflicts(utxos, pool, inputs.drop_last());
        lemma_resolve_conflict_keeps(
            before.0,
            before.1,
            inputs.last().prev_transaction_output_hash,
        );
    }
}

/// Sorting the pool keeps every marked output backed.
pub proof fn lemma_sort_keeps(utxos: Utxos, pool: Pool, by: Utxos)
    requires
        marks_backed(utxos, pool),
    ensures
        marks_backed(utxos, sort_by_fee(pool, by)),
{
    broadcast use vstd::seq_lib::group_to_multiset_ensures;
    let sorted = sort_by_fee(pool, by);
    lemma_sort_by_fee(pool, by);
    assert forall|k: crate::sha256::Hash|
        utxos.contains_key(k) && (#[trigger] utxos[k]).0 implies referenced(sorted, k) by {
        let e = choose|e: int| 0 <= e < pool.len() && spends(#[trigger] pool[e].1.inputs, k);
        assert(pool.contains(pool[e]));
        assert(pool.to_multiset().count(pool[e]) > 0);
        assert(sorted.to_multiset().count(pool[e]) > 0);
        assert(sorted.contains(pool[e]));
        let f = choose|f: int| 0 <= f < sorted.len() && sorted[f] == pool[e];
        assert(spends(sorted[f].1.inputs, k));
    }
}

/// Admission to the mempool keeps every marked output backed.
pub proof fn lemma_admit_keeps_marks(chain: ChainView, tx: TransactionView, now: i64)
    requires
        marks_backed(chain.utxos, chain.mempool),
    ensures
        marks_backed(
            admit_to_mempool(chain, tx, now).utxos,
            admit_to_mempool(chain, tx, now).mempool,
        ),
{
    let resolved = resolve_conflicts(chain.utxos, chain.mempool, tx.inputs);
    lemma_resolve_conflicts_keeps(chain.utxos, chain.mempool, tx.inputs);
    let utxos = set_marks(resolved.0, tx.inputs, true);
    let pool = resolved.1.push((now, tx));
    lemma_set_marks(resolved.0, tx.inputs, true);
    assert forall|k: crate::sha256::Hash|
        utxos.contains_key(k) && (#[trigger] utxos[k]).0 implies referenced(pool, k) by {
        assert(resolved.0.contains_key(k));
        if spends(tx.inputs, k) {
            assert(pool[pool.len() - 1].1.inputs == tx.inputs);
            assert(spends(pool[pool.len() - 1].1.inputs, k));
        } else {
            assert(resolved.0[k].0);
            let e = choose|e: int|
                0 <= e < resolved.1.len() && spends(#[trigger] resolved.1[e].1.inputs, k);
            assert(pool[e] == resolved.1[e]);
            assert(spends(pool[e].1.inputs, k));
        }
    }
    lemma_sort_keeps(utxos, pool, utxos);
}

/// Dropping entries from the front part of a pool keeps every marked output
/// backed by what is left of that part and the part behind it.
pub proof fn lemma_drop_keeps_marks(
    utxos: Utxos,
    pool: Pool,
    behind: Pool,
    gone: spec_fn((i64, TransactionView)) -> bool,
)
    requires
        marks_backed(utxos, pool + behind),
    ensures
        marks_backed(drop_entries(utxos, pool, gone).0, drop_entries(utxos, pool, gone).1 + behind),
    decreases pool.len(),
{
    if pool.len() == 0 {
        assert(pool + behind =~= drop_entries(utxos, pool, gone).1 + behind);
    } else {
        let head = pool.drop_last();
        let last = pool.last();
        let more = seq![last] + behind;
        assert(head + more =~= pool + behind);
        lemma_drop_keeps_marks(utxos, head, more, gone);
        let before = drop_entries(utxos, head, gone);
        if gone(last) {
            let all = before.1 + more;
            let at = before.1.len() as int;
            assert(all[at] == last);
            lemma_release_entry(before.0, all, at);
            assert(all.remove(at) =~= before.1 + behind);
        } else {
            assert(before.1.push(last) + behind =~= before.1 + more);
        }
    }
}

/// A state that marks nothing new keeps every marked output backed.
pub proof fn lemma_fewer_marks_backed(before: Utxos, after: Utxos, pool: Pool)
    requires
        marks_backed(before, pool),
        no_new_marks(before, after),
    ensures
        marks_backed(after, pool),
{
    assert forall|k: crate::sha256::Hash|
        after.contains_key(k) && (#[trigger] after[k]).0 implies referenced(pool, k) by {
        assert(before[k].0);
    }
}

/// Spending outputs marks nothing new.
pub proof fn lemma_remove_spent_marks(utxos: Utxos, inputs: Seq<TransactionInput>)
    ensures
        no_new_marks(utxos, remove_spent(utxos, inputs)),
    decreases inputs.len(),
{
    if inputs.len() > 0 {
        lemma_remove_spent_marks(utxos, inputs.drop_last());
    }
}

/// Creating outputs marks nothing new.
pub proof fn lemma_insert_created_marks(utxos: Utxos, outputs: Seq<TransactionOutput>)
    ensures
        no_new_marks(utxos, insert_created(utxos, outputs)),
    decreases outputs.len(),
{
    if outputs.len() > 0 {
        lemma_insert_created_marks(utxos, outputs.drop_last());
    }
}

/// Applying transactions marks nothing new.
pub proof fn lemma_apply_transactions_marks(utxos: Utxos, txs: Seq<TransactionView>)
    ensures
        no_new_marks(utxos, apply_transactions(utxos, txs)),
    decreases txs.len(),
{
    if txs.len() > 0 {
        lemma_apply_transactions_marks(utxos, txs.drop_last());
        let before = apply_transactions(utxos, txs.drop_last());
        lemma_remove_spent_marks(before, txs.last().inputs);
        lemma_insert_created_marks(remove_spent(before, txs.last().inputs), txs.last().outputs);
    }
}

/// Applying blocks marks nothing new.
pub proof fn lemma_apply_blocks_marks(utxos: Utxos, blocks: Seq<BlockView>)
    ensures
        no_new_marks(utxos, apply_blocks(utxos, blocks)),
    decreases blocks.len(),
{
    if blocks.len() > 0 {
        lemma_apply_blocks_marks(utxos, blocks.drop_last());
        lemma_apply_transactions_marks(
            apply_blocks(utxos, blocks.drop_last()),
            blocks.last().transactions,
        );
    }
}

/// A block that fits behind a valid chain makes a valid chain.
pub proof fn lemma_extend_chain(blocks: Seq<BlockView>, block: BlockView)
    requires
        chain_valid(blocks),
        header_fits(blocks, block),
    ensures
        chain_valid(blocks.push(block)),
{
    let longer = blocks.push(block);
    assert forall|h: int| 0 <= h < longer.len() implies header_fits(
        longer.take(h),
        #[trigger] longer[h],
    ) by {
        if h < blocks.len() {
            assert(longer.take(h) =~= blocks.take(h));
            assert(longer[h] == blocks[h]);
        } else {
            assert(longer.take(h) =~= blocks);
        }
    }
}

/// Admission to the mempool keeps the state well formed.
pub proof fn lemma_admit_to_mempool_wf(chain: ChainView, tx: TransactionView, now: i64)
    requires
        chain.wf(),
    ensures
        admit_to_mempool(chain, tx, now).wf(),
{
    lemma_admit_keeps_marks(chain, tx, now);
}

/// Dropping the old entries keeps the state well formed.
pub proof fn lemma_clean_mempool_wf(chain: ChainView, now: i64)
    requires
        chain.wf(),
    ensures
        clean_mempool(chain, now).wf(),
{
    assert(chain.mempool + Seq::<(i64, TransactionView)>::empty() =~= chain.mempool);
    lemma_drop_keeps_marks(chain.utxos, chain.mempool, Seq::empty(), stale_at(now));
    let left = drop_entries(chain.utxos, chain.mempool, stale_at(now));
    assert(left.1 + Seq::<(i64, TransactionView)>::empty() =~= left.1);
}

/// Admission of a block that passes the check keeps the state well formed.
pub proof fn lemma_admit_block_wf(chain: ChainView, block: BlockView)
    requires
        chain.wf(),
        admission_check(chain, block) is Ok,
    ensures
        admit_block(chain, block).wf(),
{
    let gone = included_in(transaction_hashes(block.transactions));
    assert(chain.mempool + Seq::<(i64, TransactionView)>::empty() =~= chain.mempool);
    lemma_drop_keeps_marks(chain.utxos, chain.mempool, Seq::empty(), gone);
    let left = drop_entries(chain.utxos, chain.mempool, gone);
    assert(left.1 + Seq::<(i64, TransactionView)>::empty() =~= left.1);
    lemma_apply_transactions_marks(left.0, block.transactions);
    lemma_fewer_marks_backed(left.0, apply_transactions(left.0, block.transactions), left.1);
    lemma_extend_chain(chain.blocks, block);
}

/// Rebuilding the unspent outputs from the blocks keeps the state well
/// formed.
pub proof fn lemma_rebuild_wf(chain: ChainView)
    requires
        chain.wf(),
    ensures
        (ChainView { utxos: apply_blocks(chain.utxos, chain.blocks), ..chain }).wf(),
{
    lemma_apply_blocks_marks(chain.utxos, chain.blocks);
    lemma_fewer_marks_backed(chain.utxos, apply_blocks(chain.utxos, chain.blocks), chain.mempool);
}

// ---------------------------------------------------------------------------
// What holds of the unspent outputs
// ---------------------------------------------------------------------------
/// Whether one of `outputs` has the hash `key`.
pub open spec fn creates(outputs: Seq<TransactionOutput>, key: crate::sha256::Hash) -> bool {
    exists|j: int| 0 <= j < outputs.len() && (#[trigger] outputs[j]).spec_hash() == key
}

/// Whether one of `txs` spends the output under `key`.
pub open spec fn spent_in(txs: Seq<TransactionView>, key: crate::sha256::Hash) -> bool {
    exists|t: int| 0 <= t < txs.len() && spends(#[trigger] txs[t].inputs, key)
}

/// Whether one of `txs` creates an output with the hash `key`.
pub open spec fn created_in(txs: Seq<TransactionView>, key: crate::sha256::Hash) -> bool {
    exists|t: int| 0 <= t < txs.len() && creates(#[trigger] txs[t].outputs, key)
}

/// Whether a transaction of one of `blocks` spends or creates the output
/// under `key`.
pub open spec fn touched_in(blocks: Seq<BlockView>, key: crate::sha256::Hash) -> bool {
    exists|b: int|
        0 <= b < blocks.len() && (spent_in(#[trigger] blocks[b].transactions, key) || created_in(
            blocks[b].transactions,
            key,
        ))
}

/// Whether two sets of unspent outputs hold the same under `key`.
pub open spec fn agree(a: Utxos, b: Utxos, key: crate::sha256::Hash) -> bool {
    a.contains_key(key) == b.contains_key(key) && (a.contains_key(key) ==> a[key] == b[key])
}

/// What spending does under one key: a spent key is gone, another key is
/// left as it was.
pub proof fn lemma_remove_spent_at(utxos: Utxos, inputs: Seq<TransactionInput>, key: crate::sha256::Hash)
    ensures
        spends(inputs, key) ==> !remove_spent(utxos, inputs).contains_key(key),
        !spends(inputs, key) ==> agree(remove_spent(utxos, inputs), utxos, key),
    decreases inputs.len(),
{
    if inputs.len() > 0 {
        let head = inputs.drop_last();
        lemma_remove_spent_at(utxos, head, key);
        if spends(head, key) {
            let j = choose|j: int| 0 <= j < head.len() && head[j].prev_transaction_output_hash == key;
            assert(inputs[j].prev_transaction_output_hash == key);
        }
        if inputs.last().prev_transaction_output_hash == key {
            assert(inputs[inputs.len() - 1].prev_transaction_output_hash == key);
        } else if spends(inputs, key) {
            let j = choose|j: int|
                0 <= j < inputs.len() && inputs[j].prev_transaction_output_hash == key;
            assert(head[j].prev_transaction_output_hash == key);
        }
    }
}

/// What creating does under one key: under the hash of a created output
/// stands the same whatever stood there, another key is left as it was.
pub proof fn lemma_insert_created_at(
    a: Utxos,
    b: Utxos,
    outputs: Seq<TransactionOutput>,
    key: crate::sha256::Hash,
)
    ensures
        creates(outputs, key) ==> insert_created(a, outputs).contains_key(key) && agree(
            insert_created(a, outputs),
            insert_created(b, outputs),
            key,
        ),
        !creates(outputs, key) ==> agree(insert_created(a, outputs), a, key),
    decreases outputs.len(),
{
    if outputs.len() > 0 {
        let head = outputs.drop_last();
        lemma_insert_created_at(a, b, head, key);
        lemma_insert_created_at(b, a, head, key);
        if creates(head, key) {
            let j = choose|j: int| 0 <= j < head.len() && (#[trigger] head[j]).spec_hash() == key;
            assert(outputs[j].spec_hash() == key);
        }
        if outputs.last().spec_hash() == key {
            assert(outputs[outputs.len() - 1].spec_hash() == key);
        } else if creates(outputs, key) {
            let j = choose|j: int|
                0 <= j < outputs.len() && (#[trigger] outputs[j]).spec_hash() == key;
            assert(head[j].spec_hash() == key);
        }
    }
}

/// What some transactions do under one key: where one of them spends or
/// creates it, the outcome does not depend on what stood there; where none
/// does, it is left as it was. A key that is spent and never created, or
/// never created and not there before, is not there afterwards.
pub proof fn lemma_apply_transactions_at(
    a: Utxos,
    b: Utxos,
    txs: Seq<TransactionView>,
    key: crate::sha256::Hash,
)
    ensures
        spent_in(txs, key) || created_in(txs, key) || agree(a, b, key) ==> agree(
            apply_transactions(a, txs),
            apply_transactions(b, txs),
            key,
        ),
        !spent_in(txs, key) && !created_in(txs, key) ==> agree(apply_transactions(a, txs), a, key),
        !created_in(txs, key) && (spent_in(txs, key) || !a.contains_key(key))
            ==> !apply_transactions(a, txs).contains_key(key),
    decreases txs.len(),
{
    if txs.len() > 0 {
        let head = txs.drop_last();
        let last = txs.last();
        lemma_apply_transactions_at(a, b, head, key);
        let a1 = apply_transactions(a, head);
        let b1 = apply_transactions(b, head);
        lemma_remove_spent_at(a1, last.inputs, key);
        lemma_remove_spent_at(b1, last.inputs, key);
        let a2 = remove_spent(a1, last.inputs);
        let b2 = remove_spent(b1, last.inputs);
        lemma_insert_created_at(a2, b2, last.outputs, key);
        lemma_insert_created_at(b2, a2, last.outputs, key);
        assert(txs[txs.len() - 1] == last);
        if spent_in(head, key) {
            let t = choose|t: int| 0 <= t < head.len() && spends(#[trigger] head[t].inputs, key);
            assert(txs[t] == head[t]);
        }
        if created_in(head, key) {
            let t = choose|t: int| 0 <= t < head.len() && creates(#[trigger] head[t].outputs, key);
            assert(txs[t] == head[t]);
        }
        if spent_in(txs, key) && !spends(last.inputs, key) {
            let t = choose|t: int| 0 <= t < txs.len() && spends(#[trigger] txs[t].inputs, key);
            assert(head[t] == txs[t]);
        }
        if created_in(txs, key) && !creates(last.outputs, key) {
            let t = choose|t: int| 0 <= t < txs.len() && creates(#[trigger] txs[t].outputs, key);
            assert(head[t] == txs[t]);
        }
    }
}

/// What some blocks do under one key: where a transaction of one of them
/// spends or creates it, the outcome does not depend on what stood there;
/// where none does, it is left as it was.
pub proof fn lemma_apply_blocks_at(
    a: Utxos,
    b: Utxos,
    blocks: Seq<BlockView>,
    key: crate::sha256::Hash,
)
    ensures
        touched_in(blocks, key) || agree(a, b, key) ==> agree(
            apply_blocks(a, blocks),
            apply_blocks(b, blocks),
            key,
        ),
        !touched_in(blocks, key) ==> agree(apply_blocks(a, blocks), a, key),
    decreases blocks.len(),
{
    if blocks.len() > 0 {
        let head = blocks.drop_last();
        let last = blocks.last();
        lemma_apply_blocks_at(a, b, head, key);
        let a1 = apply_blocks(a, head);
        let b1 = apply_blocks(b, head);
        lemma_apply_transactions_at(a1, b1, last.transactions, key);
        assert(blocks[blocks.len() - 1] == last);
        if touched_in(head, key) {
            let i = choose|i: int|
                0 <= i < head.len() && (spent_in(#[trigger] head[i].transactions, key)
                    || created_in(head[i].transactions, key));
            assert(blocks[i] == head[i]);
        }
        if touched_in(blocks, key) && !(spent_in(last.transactions, key) || created_in(
            last.transactions,
            key,
        )) {
            let i = choose|i: int|
                0 <= i < blocks.len() && (spent_in(#[trigger] blocks[i].transactions, key)
                    || created_in(blocks[i].transactions, key));
            assert(head[i] == blocks[i]);
        }
    }
}

/// Rebuilding the unspent outputs from the blocks twice gives what
/// rebuilding them once gives.
pub proof fn lemma_rebuild_twice(utxos: Utxos, blocks: Seq<BlockView>)
    ensures
        apply_blocks(apply_blocks(utxos, blocks), blocks) == apply_blocks(utxos, blocks),
{
    let once = apply_blocks(utxos, blocks);
    let twice = apply_blocks(once, blocks);
    assert forall|key: crate::sha256::Hash|
        #[trigger] twice.contains_key(key) == once.contains_key(key) && (twice.contains_key(key)
            ==> twice[key] == once[key]) by {
        lemma_apply_blocks_at(once, utxos, blocks, key);
        assert(agree(twice, once, key));
    }
    assert(twice.dom() =~= once.dom());
    assert(twice =~= once);
}

/// After a block was admitted, an output that one of its transactions
/// spends is not among the unspent outputs, unless a transaction of the
/// block creates an output with the same hash.
pub proof fn lemma_spent_outputs_leave(chain: ChainView, block: BlockView, key: crate::sha256::Hash)
    requires
        spent_in(block.transactions, key),
        !created_in(block.transactions, key),
    ensures
        !admit_block(chain, block).utxos.contains_key(key),
{
    let left = drop_entries(
        chain.utxos,
        chain.mempool,
        included_in(transaction_hashes(block.transactions)),
    );
    lemma_apply_transactions_at(left.0, left.0, block.transactions, key);
}

// ---------------------------------------------------------------------------
// What holds of the target
// ---------------------------------------------------------------------------
/// The clamps of the adjustment: an interval that took at least four times
/// the ideal time makes the target four times as large, one that took at
/// most a quarter of the ideal time makes it a quarter as large; either is
/// capped at the easiest target.
pub proof fn lemma_retarget_clamps(target: nat, seconds: int)
    ensures
        seconds >= 4 * ideal_seconds() ==> retarget(target, seconds) == if target * 4
            <= min_target_value() {
            target * 4
        } else {
            min_target_value()
        },
        4 * seconds <= ideal_seconds() ==> retarget(target, seconds) == if target / 4
            <= min_target_value() {
            target / 4
        } else {
            min_target_value()
        },
        retarget(target, seconds) <= min_target_value(),
{
    let product: int = target * seconds;
    assert(ideal_seconds() == 500);
    if seconds >= 2000 {
        assert(product >= 2000 * target) by (nonlinear_arith)
            requires
                product == target * seconds,
                seconds >= 2000,
        ;
    }
    if seconds <= 125 {
        assert(product <= 125 * target) by (nonlinear_arith)
            requires
                product == target * seconds,
                seconds <= 125,
        ;
    }
}

/// Where a front part of some blocks is refused, the whole is refused with
/// the same error.
pub proof fn lemma_admit_blocks_stops(chain: ChainView, blocks: Seq<BlockView>, upto: int)
    requires
        0 <= upto <= blocks.len(),
        admit_blocks(chain, blocks.take(upto)) is Err,
    ensures
        admit_blocks(chain, blocks) == admit_blocks(chain, blocks.take(upto)),
    decreases blocks.len() - upto,
{
    if upto < blocks.len() {
        let next = blocks.take(upto + 1);
        assert(next.drop_last() =~= blocks.take(upto));
        lemma_admit_blocks_stops(chain, blocks, upto + 1);
    } else {
        assert(blocks.take(upto) =~= blocks);
    }
}

/// One more block after a front part that was admitted: where it passes the
/// check, the longer front part is admitted; where it does not, the whole is
/// refused with its error.
pub proof fn lemma_admit_blocks_next(
    chain: ChainView,
    blocks: Seq<BlockView>,
    upto: int,
    before: ChainView,
)
    requires
        0 <= upto < blocks.len(),
        admit_blocks(chain, blocks.take(upto)) == Ok::<ChainView, BtcError>(before),
    ensures
        admission_check(before, blocks[upto]) is Ok ==> admit_blocks(chain, blocks.take(upto + 1))
            == Ok::<ChainView, BtcError>(admit_block(before, blocks[upto])),
        admission_check(before, blocks[upto]) matches Err(e) ==> admit_blocks(chain, blocks)
            == Err::<ChainView, BtcError>(e),
{
    let next = blocks.take(upto + 1);
    assert(next.drop_last() =~= blocks.take(upto));
    assert(next.last() == blocks[upto]);
    if admission_check(before, blocks[upto]) is Err {
        lemma_admit_blocks_stops(chain, blocks, upto + 1);
    }
}

// ---------------------------------------------------------------------------
// What holds of a valid chain and of the marks
// ---------------------------------------------------------------------------
/// What a valid chain means block by block: the first block names the zero
/// hash; every later block names the hash of the block before it and has a
/// later timestamp; the hash of every block is at most its target; and the
/// Merkle root of every block is that of its transactions.
pub proof fn lemma_chain_valid(blocks: Seq<BlockView>, height: int)
    requires
        chain_valid(blocks),
        0 <= height < blocks.len(),
    ensures
        height > 0 ==> blocks[height].header.prev_block_hash == blocks[height - 1].hash(),
        height > 0 ==> blocks[height].header.timestamp > blocks[height - 1].header.timestamp,
        height == 0 ==> blocks[height].header.prev_block_hash.0 == (U256 {
            w3: 0,
            w2: 0,
            w1: 0,
            w0: 0,
        }),
        blocks[height].header.spec_hash().0@ <= blocks[height].header.target@,
        blocks[height].transactions.len() > 0,
        merkle_root(blocks[height].transactions) == blocks[height].header.merkle_root.0,
{
    let before = blocks.take(height);
    assert(header_fits(before, blocks[height]));
    if height > 0 {
        assert(before.last() == blocks[height - 1]);
    }
}

/// Whether no output is spent by two inputs of the pending transactions,
/// be it of one transaction or of two.
pub open spec fn spent_once(pool: Pool) -> bool {
    forall|e: int, j: int, f: int, k: int|
        0 <= e < pool.len() && 0 <= j < pool[e].1.inputs.len() && 0 <= f < pool.len() && 0 <= k
            < pool[f].1.inputs.len() && (#[trigger] pool[e].1.inputs[j]).prev_transaction_output_hash
            == (#[trigger] pool[f].1.inputs[k]).prev_transaction_output_hash ==> e == f && j == k
}

/// In a pool whose transactions do not compete for an output, every marked
/// output is spent by an input of exactly one pending transaction.
pub proof fn lemma_marked_spent_by_one(chain: ChainView, key: crate::sha256::Hash)
    requires
        chain.wf(),
        spent_once(chain.mempool),
        chain.utxos.contains_key(key),
        chain.utxos[key].0,
    ensures
        exists|e: int|
            0 <= e < chain.mempool.len() && spends(#[trigger] chain.mempool[e].1.inputs, key)
                && forall|f: int|
                0 <= f < chain.mempool.len() && spends(#[trigger] chain.mempool[f].1.inputs, key)
                    ==> f == e,
{
    let pool = chain.mempool;
    assert(referenced(pool, key));
    let e = choose|e: int| 0 <= e < pool.len() && spends(#[trigger] pool[e].1.inputs, key);
    let j = choose|j: int|
        0 <= j < pool[e].1.inputs.len() && pool[e].1.inputs[j].prev_transaction_output_hash == key;
    assert forall|f: int| 0 <= f < pool.len() && spends(#[trigger] pool[f].1.inputs, key) implies f
        == e by {
        let k = choose|k: int|
            0 <= k < pool[f].1.inputs.len() && pool[f].1.inputs[k].prev_transaction_output_hash
                == key;
        assert(pool[e].1.inputs[j].prev_transaction_output_hash
            == pool[f].1.inputs[k].prev_transaction_output_hash);
    }
}

} // verus!
