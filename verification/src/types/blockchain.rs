//! The chain state engine: block admission, the unspent outputs, the mempool
//! and the target.
use vstd::prelude::*;
use crate::codec::be_nat;
use crate::error::BtcError;
use crate::ledger::{
    lemma_admit_block_wf,
    lemma_admit_to_mempool_wf,
    lemma_clean_mempool_wf,
    lemma_rebuild_wf,
    admission_allowed,
    admission_check,
    admit_block,
    admit_to_mempool,
    adjusted_target,
    apply_blocks,
    apply_transactions,
    clean_mempool,
    drop_entries,
    first_producer,
    header_fits,
    clamp_target,
    ideal_seconds,
    implied_fee,
    included_in,
    insert_created,
    insert_position,
    produces,
    remove_spent,
    resolve_conflict,
    resolve_conflicts,
    retarget,
    set_marks,
    sort_by_fee,
    stale_at,
    transaction_hashes,
    ChainView,
    Pool,
};
use crate::types::block::{
    block_views,
    inputs_total,
    spends_distinct,
    spends_known,
    Block,
};
use crate::types::transaction::{Transaction, TransactionInput, TransactionView};
use crate::u256::{lemma_value_bounds, U256};
use crate::util::{current_time, transaction_views, MerkleRoot};
use crate::utxo::UtxoSet;

verus! {

/// `BigInt::from_bytes_be`, `BigDecimal::from`, the `/` and `*` of
/// `BigDecimal`, `with_scale`, `into_bigint_and_exponent` and
/// `BigInt::to_bytes_be`: the number spelt by `value` times `numerator` over
/// `denominator`, cut off at the decimal point, as bytes with the most
/// significant first. The quotient is formed first, which the crate carries
/// to at most a hundred digits; the product is exact. Trusted for
/// denominators that divide a thousand: the quotient of a 64-bit numerator
/// then ends after three decimal places at most, so nothing is rounded.
#[verifier::external_body]
fn decimal_scale(value: &[u8], numerator: u64, denominator: u64) -> (scaled: Vec<u8>)
    requires
        denominator > 0,
        1000u64 % denominator == 0,
    ensures
        be_nat(scaled@) == (be_nat(value@) * numerator) / (denominator as int),
{
    let sign = bigdecimal::num_bigint::Sign::Plus;
    let value = bigdecimal::BigDecimal::from(bigdecimal::num_bigint::BigInt::from_bytes_be(sign, value));
    let ratio = bigdecimal::BigDecimal::from(numerator) / bigdecimal::BigDecimal::from(denominator);
    (value * ratio).with_scale(0).into_bigint_and_exponent().0.to_bytes_be().1
}

/// The chain state: the admitted blocks, the current target, the unspent
/// outputs and the pending transactions.
pub struct Blockchain {
    blocks: Vec<Block>,
    target: U256,
    utxos: UtxoSet,
    mempool: Vec<(i64, Transaction)>,
}

/// The mathematical values of some pending transactions, in order.
pub open spec fn pool_view(pool: Seq<(i64, Transaction)>) -> Pool {
    Seq::new(pool.len(), |i: int| (pool[i].0, pool[i].1@))
}

impl View for Blockchain {
    type V = ChainView;

    closed spec fn view(&self) -> ChainView {
        ChainView {
            blocks: block_views(self.blocks@),
            target: self.target@,
            utxos: self.utxos@,
            mempool: pool_view(self.mempool@),
        }
    }
}

/// Sets the mark of every output that `inputs` spend.
fn mark_inputs(utxos: &mut UtxoSet, inputs: &Vec<TransactionInput>, marked: bool)
    requires
        old(utxos).wf(),
    ensures
        final(utxos).wf(),
        final(utxos)@ == set_marks(old(utxos)@, inputs@, marked),
{
    let mut k: usize = 0;
    assert(inputs@.take(0) =~= Seq::empty());
    while k < inputs.len()
        invariant
            k <= inputs.len(),
            utxos.wf(),
            utxos@ == set_marks(old(utxos)@, inputs@.take(k as int), marked),
        decreases inputs.len() - k,
    {
        proof {
            let next = inputs@.take(k + 1);
            assert(next.drop_last() =~= inputs@.take(k as int));
            assert(next.last() == inputs@[k as int]);
        }
        utxos.set_mark(&inputs[k].prev_transaction_output_hash, marked);
        k = k + 1;
    }
    assert(inputs@.take(k as int) =~= inputs@);
}

/// Whether one of the outputs of `tx` has the hash `key`.
fn produces_key(tx: &Transaction, key: &crate::sha256::Hash) -> (r: bool)
    ensures
        r == produces(tx@, *key),
{
    let mut j: usize = 0;
    while j < tx.outputs.len()
        invariant
            j <= tx.outputs.len(),
            forall|p: int| 0 <= p < j ==> (#[trigger] tx.outputs@[p]).spec_hash() != *key,
        decreases tx.outputs.len() - j,
    {
        if tx.outputs[j].hash() == *key {
            assert(tx@.outputs[j as int].spec_hash() == *key);
            return true;
        }
        j = j + 1;
    }
    false
}

/// The position of the first pending transaction that produces `key`; the
/// length of the pool where there is none.
fn find_producer(pool: &Vec<(i64, Transaction)>, key: &crate::sha256::Hash) -> (at: usize)
    ensures
        at == first_producer(pool_view(pool@), *key, 0),
        at <= pool@.len(),
{
    let mut at: usize = 0;
    while at < pool.len()
        invariant
            at <= pool.len(),
            first_producer(pool_view(pool@), *key, 0) == first_producer(
                pool_view(pool@),
                *key,
                at as int,
            ),
        decreases pool.len() - at,
    {
        if produces_key(&pool[at].1, key) {
            return at;
        }
        at = at + 1;
    }
    at
}

/// Resolves the conflict over the output under `key`, if it is marked.
fn resolve_one(utxos: &mut UtxoSet, pool: &mut Vec<(i64, Transaction)>, key: &crate::sha256::Hash)
    requires
        old(utxos).wf(),
    ensures
        final(utxos).wf(),
        (final(utxos)@, pool_view(final(pool)@)) == resolve_conflict(
            old(utxos)@,
            pool_view(old(pool)@),
            *key,
        ),
{
    match utxos.get(key) {
        Some((true, _)) => {
            let at = find_producer(pool, key);
            if at < pool.len() {
                let entry = pool.remove(at);
                mark_inputs(utxos, &entry.1.inputs, false);
                assert(pool_view(pool@) =~= pool_view(old(pool)@).remove(at as int));
            } else {
                utxos.set_mark(key, false);
            }
        },
        _ => {},
    }
}

/// The fee that `tx` leaves, by the values in `utxos`: what its inputs take
/// less what it gives out; nothing where it gives out more.
pub fn fee_of(tx: &Transaction, utxos: &UtxoSet) -> (fee: u128)
    requires
        utxos.wf(),
    ensures
        fee == implied_fee(tx@, utxos@),
{
    let taken = taken_by(tx, utxos);
    let given = tx.output_value();
    if taken >= given {
        taken - given
    } else {
        0
    }
}

/// What the inputs of `tx` take from `utxos`; an unknown output counts for
/// nothing.
fn taken_by(tx: &Transaction, utxos: &UtxoSet) -> (taken: u128)
    requires
        utxos.wf(),
    ensures
        taken == inputs_total(tx@.inputs, utxos@),
{
    let mut taken: u128 = 0;
    let mut k: usize = 0;
    assert(tx.inputs@.take(0) =~= Seq::empty());
    while k < tx.inputs.len()
        invariant
            k <= tx.inputs.len(),
            utxos.wf(),
            taken == inputs_total(tx.inputs@.take(k as int), utxos@),
            taken <= k * 0xFFFF_FFFF_FFFF_FFFF,
        decreases tx.inputs.len() - k,
    {
        proof {
            let next = tx.inputs@.take(k + 1);
            assert(next.drop_last() =~= tx.inputs@.take(k as int));
            assert(next.last() == tx.inputs@[k as int]);
        }
        match utxos.get(&tx.inputs[k].prev_transaction_output_hash) {
            Some((_, output)) => {
                taken = taken + output.value as u128;
            },
            None => {},
        }
        k = k + 1;
    }
    assert(tx.inputs@.take(k as int) =~= tx.inputs@);
    taken
}

/// Sorts the pool by ascending fee; entries of equal fee keep their order.
fn sort_pool(pool: &mut Vec<(i64, Transaction)>, utxos: &UtxoSet)
    requires
        utxos.wf(),
    ensures
        pool_view(final(pool)@) == sort_by_fee(pool_view(old(pool)@), utxos@),
{
    let ghost orig = pool_view(pool@);
    let mut rest: Vec<(i64, Transaction)> = Vec::new();
    std::mem::swap(pool, &mut rest);
    let ghost mut done: int = 0;
    assert(orig.take(0) =~= Seq::empty());
    assert(orig.skip(0) =~= orig);
    assert(pool_view(pool@) =~= Seq::empty());
    while rest.len() > 0
        invariant
            utxos.wf(),
            0 <= done <= orig.len(),
            rest@.len() == orig.len() - done,
            pool_view(rest@) == orig.skip(done),
            pool_view(pool@) == sort_by_fee(orig.take(done), utxos@),
        decreases rest.len(),
    {
        let ghost sorted = pool_view(pool@);
        let ghost rest_before = pool_view(rest@);
        let ghost raw = rest@;
        let entry = rest.remove(0);
        let ghost entry_view = (entry.0, entry.1@);
        let fee = fee_of(&entry.1, utxos);
        let mut at: usize = pool.len();
        assert(sorted.take(at as int) =~= sorted);
        while at > 0 && fee_of(&pool[at - 1].1, utxos) > fee
            invariant
                utxos.wf(),
                at <= pool.len(),
                sorted == pool_view(pool@),
                insert_position(sorted, fee as nat, utxos@) == insert_position(
                    sorted.take(at as int),
                    fee as nat,
                    utxos@,
                ),
            decreases at,
        {
            proof {
                let head = sorted.take(at as int);
                assert(head.last() == sorted[at - 1]);
                assert(head.drop_last() =~= sorted.take(at - 1));
            }
            at = at - 1;
        }
        proof {
            let head = sorted.take(at as int);
            if at > 0 {
                assert(head.last() == sorted[at - 1]);
            }
            assert(insert_position(head, fee as nat, utxos@) == at);
            assert(rest_before[0] == entry_view);
            assert(entry_view == orig[done]);
            let next = orig.take(done + 1);
            assert(next.drop_last() =~= orig.take(done));
            assert(next.last() == entry_view);
            assert(rest@ == raw.remove(0));
            assert forall|i: int| 0 <= i < rest@.len() implies pool_view(rest@)[i] == orig[done + 1 + i] by {
                assert(rest@[i] == raw[i + 1]);
                assert(rest_before[i + 1] == orig[done + 1 + i]);
            }
            assert(pool_view(rest@) =~= orig.skip(done + 1));
        }
        pool.insert(at, entry);
        proof {
            assert(pool_view(pool@) =~= sorted.insert(at as int, entry_view));
            done = done + 1;
        }
    }
    assert(orig.take(done) =~= orig);
}

/// Why entries leave the mempool.
enum Leaving {
    /// They are too old at the given time.
    Stale(i64),
    /// Their transaction has one of the given hashes.
    Included(Vec<crate::sha256::Hash>),
}

impl Leaving {
    /// The entries that leave.
    spec fn picks(self) -> spec_fn((i64, TransactionView)) -> bool {
        match self {
            Leaving::Stale(now) => stale_at(now),
            Leaving::Included(hashes) => included_in(hashes@),
        }
    }

    /// Whether `entry` leaves.
    fn takes(&self, entry: &(i64, Transaction)) -> (r: bool)
        ensures
            r == (self.picks())((entry.0, entry.1@)),
    {
        match self {
            Leaving::Stale(now) => {
                *now as i128 - entry.0 as i128 > crate::MAX_MEMPOOL_TRANSACTION_AGE as i128
            },
            Leaving::Included(hashes) => {
                let h = entry.1.hash();
                let mut i: usize = 0;
                while i < hashes.len()
                    invariant
                        i <= hashes.len(),
                        h == entry.1@.hash(),
                        self.picks() == included_in(hashes@),
                        forall|p: int| 0 <= p < i ==> hashes@[p] != h,
                    decreases hashes.len() - i,
                {
                    if hashes[i] == h {
                        assert(hashes@[i as int] == h);
                        return true;
                    }
                    i = i + 1;
                }
                false
            },
        }
    }
}

/// Takes the entries that `rule` picks out of the pool and releases the
/// marks that their inputs hold.
fn drop_from_pool(utxos: &mut UtxoSet, pool: &mut Vec<(i64, Transaction)>, rule: &Leaving)
    requires
        old(utxos).wf(),
    ensures
        final(utxos).wf(),
        (final(utxos)@, pool_view(final(pool)@)) == drop_entries(
            old(utxos)@,
            pool_view(old(pool)@),
            rule.picks(),
        ),
{
    let ghost orig = pool_view(pool@);
    let ghost start = utxos@;
    let mut rest: Vec<(i64, Transaction)> = Vec::new();
    std::mem::swap(pool, &mut rest);
    let ghost mut done: int = 0;
    assert(orig.take(0) =~= Seq::empty());
    assert(orig.skip(0) =~= orig);
    assert(pool_view(pool@) =~= Seq::empty());
    while rest.len() > 0
        invariant
            utxos.wf(),
            0 <= done <= orig.len(),
            rest@.len() == orig.len() - done,
            pool_view(rest@) == orig.skip(done),
            (utxos@, pool_view(pool@)) == drop_entries(start, orig.take(done), rule.picks()),
        decreases rest.len(),
    {
        let ghost kept = pool_view(pool@);
        let ghost rest_before = pool_view(rest@);
        let ghost raw = rest@;
        let entry = rest.remove(0);
        proof {
            let entry_view = (entry.0, entry.1@);
            assert(rest_before[0] == entry_view);
            assert(entry_view == orig[done]);
            let next = orig.take(done + 1);
            assert(next.drop_last() =~= orig.take(done));
            assert(next.last() == entry_view);
            assert(rest@ == raw.remove(0));
            assert forall|i: int| 0 <= i < rest@.len() implies pool_view(rest@)[i] == orig[done + 1 + i] by {
                assert(rest@[i] == raw[i + 1]);
                assert(rest_before[i + 1] == orig[done + 1 + i]);
            }
            assert(pool_view(rest@) =~= orig.skip(done + 1));
        }
        if rule.takes(&entry) {
            mark_inputs(utxos, &entry.1.inputs, false);
        } else {
            pool.push(entry);
            assert(pool_view(pool@) =~= kept.push(orig[done]));
        }
        proof {
            done = done + 1;
        }
    }
    assert(orig.take(done) =~= orig);
}

/// Applies the transactions of a block to the unspent outputs.
fn apply_to_utxos(utxos: &mut UtxoSet, txs: &Vec<Transaction>)
    requires
        old(utxos).wf(),
    ensures
        final(utxos).wf(),
        final(utxos)@ == apply_transactions(old(utxos)@, transaction_views(txs@)),
{
    let ghost views = transaction_views(txs@);
    let mut t: usize = 0;
    assert(views.take(0) =~= Seq::empty());
    while t < txs.len()
        invariant
            t <= txs.len(),
            utxos.wf(),
            views == transaction_views(txs@),
            utxos@ == apply_transactions(old(utxos)@, views.take(t as int)),
        decreases txs.len() - t,
    {
        let tx = &txs[t];
        let ghost before = utxos@;
        proof {
            let next = views.take(t + 1);
            assert(next.drop_last() =~= views.take(t as int));
            assert(next.last() == tx@);
        }
        let mut k: usize = 0;
        assert(tx.inputs@.take(0) =~= Seq::empty());
        while k < tx.inputs.len()
            invariant
                k <= tx.inputs.len(),
                utxos.wf(),
                utxos@ == remove_spent(before, tx.inputs@.take(k as int)),
            decreases tx.inputs.len() - k,
        {
            proof {
                let next = tx.inputs@.take(k + 1);
                assert(next.drop_last() =~= tx.inputs@.take(k as int));
                assert(next.last() == tx.inputs@[k as int]);
            }
            utxos.remove(&tx.inputs[k].prev_transaction_output_hash);
            k = k + 1;
        }
        assert(tx.inputs@.take(k as int) =~= tx.inputs@);
        let ghost middle = utxos@;
        let mut j: usize = 0;
        assert(tx.outputs@.take(0) =~= Seq::empty());
        while j < tx.outputs.len()
            invariant
                j <= tx.outputs.len(),
                utxos.wf(),
                utxos@ == insert_created(middle, tx.outputs@.take(j as int)),
            decreases tx.outputs.len() - j,
        {
            proof {
                let next = tx.outputs@.take(j + 1);
                assert(next.drop_last() =~= tx.outputs@.take(j as int));
                assert(next.last() == tx.outputs@[j as int]);
            }
            let output = tx.outputs[j];
            utxos.insert(output.hash(), false, output);
            j = j + 1;
        }
        assert(tx.outputs@.take(j as int) =~= tx.outputs@);
        t = t + 1;
    }
    assert(views.take(t as int) =~= views);
}

/// The new target for a scaled target that is spelt by `scaled`, most
/// significant byte first: at least a quarter and at most four times the
/// old target, and never easier than the easiest target.
pub fn clamped_target(target: &U256, scaled: &[u8]) -> (next: U256)
    ensures
        next@ == clamp_target(target@, be_nat(scaled@) as int),
{
    let low = target.quarter();
    let high = target.times_four();
    let easiest = U256::min_target();
    proof {
        lemma_value_bounds(*target);
        lemma_value_bounds(low);
    }
    let clamped: U256 = match U256::from_be_slice(scaled) {
        None => match high {
            Some(h) => h,
            None => easiest,
        },
        Some(s) => {
            proof {
                lemma_value_bounds(s);
            }
            if s.lt(&low) {
                low
            } else {
                match high {
                    Some(h) => if h.lt(&s) {
                        h
                    } else {
                        s
                    },
                    None => s,
                }
            }
        },
    };
    clamped.min(easiest)
}

/// The target that follows `target` after an interval of blocks that began
/// at `start` and ended at `end`.
pub fn next_target(target: &U256, start: i64, end: i64) -> (next: U256)
    ensures
        next@ == retarget(target@, end - start),
{
    let seconds: i128 = end as i128 - start as i128;
    let ideal: u64 = crate::IDEAL_BLOCK_TIME * crate::DIFFICULTY_UPDATE_INTERVAL;
    let ghost product: int = target@ * seconds;
    proof {
        assert(ideal_seconds() == ideal);
    }
    if seconds <= 0 {
        proof {
            assert(product <= 0) by (nonlinear_arith)
                requires
                    product == target@ * seconds,
                    seconds <= 0,
            ;
            lemma_value_bounds(*target);
        }
        return target.quarter().min(U256::min_target());
    }
    let bytes = target.to_be_bytes();
    let scaled = decimal_scale(bytes.as_slice(), seconds as u64, ideal);
    proof {
        assert(be_nat(bytes@) * (seconds as u64) == product) by (nonlinear_arith)
            requires
                be_nat(bytes@) == target@,
                (seconds as u64) == seconds,
                product == target@ * seconds,
        ;
    }
    clamped_target(target, scaled.as_slice())
}

impl Blockchain {
    /// Whether the chain state is well formed: the unspent outputs hold no
    /// hash twice, and the state is one that the operations keep.
    pub closed spec fn wf(&self) -> bool {
        self.utxos.wf() && self@.wf()
    }

    /// A chain without blocks, at the easiest target.
    pub fn new() -> (chain: Blockchain)
        ensures
            chain.wf(),
            chain@ == ChainView::empty(),
    {
        let chain = Blockchain {
            blocks: Vec::new(),
            target: U256::min_target(),
            utxos: UtxoSet::new(),
            mempool: Vec::new(),
        };
        assert(chain@.blocks =~= Seq::empty());
        assert(chain@.mempool =~= Seq::empty());
        chain
    }

    /// What holds of every well-formed chain state: every block fits behind
    /// the blocks before it, every marked output is spent by an input of a
    /// pending transaction, and the target is no easier than the easiest.
    pub proof fn lemma_invariant(&self)
        requires
            self.wf(),
        ensures
            self@.wf(),
    {
    }

    /// The unspent outputs.
    pub fn utxos(&self) -> (utxos: &UtxoSet)
        ensures
            utxos@ == self@.utxos,
            self.wf() ==> utxos.wf(),
    {
        &self.utxos
    }

    /// The current target.
    pub fn target(&self) -> (target: U256)
        ensures
            target@ == self@.target,
    {
        self.target
    }

    /// The admitted blocks, in order of height.
    pub fn blocks(&self) -> (blocks: &Vec<Block>)
        ensures
            block_views(blocks@) == self@.blocks,
    {
        &self.blocks
    }

    /// The pending transactions, each with the time of its admission.
    pub fn mempool(&self) -> (pool: &Vec<(i64, Transaction)>)
        ensures
            pool_view(pool@) == self@.mempool,
    {
        &self.mempool
    }

    /// The number of admitted blocks.
    pub fn blocks_height(&self) -> (height: u64)
        ensures
            height == self@.blocks.len(),
    {
        self.blocks.len() as u64
    }

    /// Admits a transaction to the mempool, at the clock's time.
    ///
    /// `InvalidTransaction`, and nothing changes, where an input spends an
    /// unknown output, where two inputs spend the same output, or where the
    /// transaction gives out more than it takes in. Signatures are not
    /// looked at here.
    pub fn add_to_mempool(&mut self, transaction: Transaction) -> (r: Result<(), BtcError>)
        requires
            old(self).wf(),
        ensures
            final(self).wf(),
            r is Ok <==> admission_allowed(old(self)@.utxos, transaction@),
            r matches Err(e) ==> e == BtcError::InvalidTransaction && final(self)@ == old(self)@,
            r is Ok ==> exists|now: i64|
                final(self)@ == admit_to_mempool(old(self)@, transaction@, now),
    {
        let now = current_time();
        self.add_to_mempool_at(transaction, now)
    }

    /// Admits a transaction to the mempool at time `now`.
    ///
    /// On success the conflicts with marked outputs are resolved, the
    /// outputs that the transaction spends are marked, and the pool is
    /// sorted by ascending fee. On failure nothing changes.
    pub fn add_to_mempool_at(&mut self, transaction: Transaction, now: i64) -> (r: Result<
        (),
        BtcError,
    >)
        requires
            old(self).wf(),
        ensures
            final(self).wf(),
            r is Ok <==> admission_allowed(old(self)@.utxos, transaction@),
            r matches Err(e) ==> e == BtcError::InvalidTransaction && final(self)@ == old(self)@,
            r is Ok ==> final(self)@ == admit_to_mempool(old(self)@, transaction@, now),
    {
        let ghost tx = transaction@;
        let ghost start = self@;
        let mut i: usize = 0;
        assert(transaction.inputs@.take(0) =~= Seq::empty());
        while i < transaction.inputs.len()
            invariant
                i <= transaction.inputs.len(),
                self.wf(),
                self@ == start,
                *self == *old(self),
                tx == transaction@,
                spends_known(transaction.inputs@.take(i as int), self.utxos@),
                spends_distinct(transaction.inputs@.take(i as int)),
            decreases transaction.inputs.len() - i,
        {
            let key = transaction.inputs[i].prev_transaction_output_hash;
            let ghost next = transaction.inputs@.take(i + 1);
            if !self.utxos.contains_key(&key) {
                assert(!spends_known(tx.inputs, self.utxos@));
                return Err(BtcError::InvalidTransaction);
            }
            let mut j: usize = 0;
            while j < i
                invariant
                    j <= i,
                    i < transaction.inputs.len(),
                    self.wf(),
                    self@ == start,
                    *self == *old(self),
                    tx == transaction@,
                    key == transaction.inputs@[i as int].prev_transaction_output_hash,
                    forall|p: int|
                        0 <= p < j ==> transaction.inputs@[p].prev_transaction_output_hash != key,
                decreases i - j,
            {
                if transaction.inputs[j].prev_transaction_output_hash == key {
                    assert(!spends_distinct(tx.inputs));
                    return Err(BtcError::InvalidTransaction);
                }
                j = j + 1;
            }
            proof {
                assert forall|p: int| 0 <= p < next.len() implies self.utxos@.contains_key(
                    #[trigger] next[p].prev_transaction_output_hash,
                ) by {
                    if p < i {
                        assert(transaction.inputs@.take(i as int)[p] == next[p]);
                    }
                }
                assert forall|p: int, q: int| 0 <= p < q < next.len() implies next[p].prev_transaction_output_hash
                    != next[q].prev_transaction_output_hash by {
                    if q < i {
                        assert(transaction.inputs@.take(i as int)[p] == next[p]);
                        assert(transaction.inputs@.take(i as int)[q] == next[q]);
                    }
                }
            }
            i = i + 1;
        }
        assert(transaction.inputs@.take(i as int) =~= transaction.inputs@);
        let taken = taken_by(&transaction, &self.utxos);
        let given = transaction.output_value();
        if taken < given {
            return Err(BtcError::InvalidTransaction);
        }
        let ghost utxos_before = self.utxos@;
        let ghost pool_before = pool_view(self.mempool@);
        let mut k: usize = 0;
        while k < transaction.inputs.len()
            invariant
                k <= transaction.inputs.len(),
                self.utxos.wf(),
                self.blocks == old(self).blocks,
                self.target == old(self).target,
                tx == transaction@,
                (self.utxos@, pool_view(self.mempool@)) == resolve_conflicts(
                    utxos_before,
                    pool_before,
                    transaction.inputs@.take(k as int),
                ),
            decreases transaction.inputs.len() - k,
        {
            proof {
                let next = transaction.inputs@.take(k + 1);
                assert(next.drop_last() =~= transaction.inputs@.take(k as int));
                assert(next.last() == transaction.inputs@[k as int]);
            }
            let key = transaction.inputs[k].prev_transaction_output_hash;
            resolve_one(&mut self.utxos, &mut self.mempool, &key);
            k = k + 1;
        }
        assert(transaction.inputs@.take(k as int) =~= transaction.inputs@);
        mark_inputs(&mut self.utxos, &transaction.inputs, true);
        let ghost resolved = pool_view(self.mempool@);
        self.mempool.push((now, transaction));
        assert(pool_view(self.mempool@) =~= resolved.push((now, tx)));
        sort_pool(&mut self.mempool, &self.utxos);
        proof {
            lemma_admit_to_mempool_wf(start, tx, now);
            assert(self@ == admit_to_mempool(start, tx, now));
        }
        Ok(())
    }

    /// Drops the pending transactions that were admitted more than
    /// `MAX_MEMPOOL_TRANSACTION_AGE` seconds before the clock's time, and
    /// releases the marks that their inputs hold.
    pub fn cleanup_mempool(&mut self)
        requires
            old(self).wf(),
        ensures
            final(self).wf(),
            exists|now: i64| final(self)@ == clean_mempool(old(self)@, now),
    {
        let now = current_time();
        self.cleanup_mempool_at(now);
    }

    /// Drops the pending transactions that were admitted more than
    /// `MAX_MEMPOOL_TRANSACTION_AGE` seconds before `now`, and releases the
    /// marks that their inputs hold.
    pub fn cleanup_mempool_at(&mut self, now: i64)
        requires
            old(self).wf(),
        ensures
            final(self).wf(),
            final(self)@ == clean_mempool(old(self)@, now),
    {
        let rule = Leaving::Stale(now);
        drop_from_pool(&mut self.utxos, &mut self.mempool, &rule);
        proof {
            lemma_clean_mempool_wf(old(self)@, now);
        }
    }

    /// Applies the transactions of every block, in order, to the unspent
    /// outputs as they stand: what an input spends leaves, what an output
    /// creates comes in unmarked.
    pub fn rebuild_utxos(&mut self)
        requires
            old(self).wf(),
        ensures
            final(self).wf(),
            final(self)@ == (ChainView {
                utxos: apply_blocks(old(self)@.utxos, old(self)@.blocks),
                ..old(self)@
            }),
    {
        let ghost views = block_views(self.blocks@);
        let ghost start = self.utxos@;
        let mut b: usize = 0;
        assert(views.take(0) =~= Seq::empty());
        while b < self.blocks.len()
            invariant
                b <= self.blocks.len(),
                self.utxos.wf(),
                self.blocks == old(self).blocks,
                self.target == old(self).target,
                self.mempool == old(self).mempool,
                views == block_views(self.blocks@),
                self.utxos@ == apply_blocks(start, views.take(b as int)),
            decreases self.blocks.len() - b,
        {
            proof {
                let next = views.take(b + 1);
                assert(next.drop_last() =~= views.take(b as int));
                assert(next.last() == self.blocks@[b as int]@);
            }
            apply_to_utxos(&mut self.utxos, &self.blocks[b].transactions);
            b = b + 1;
        }
        proof {
            assert(views.take(b as int) =~= views);
            lemma_rebuild_wf(old(self)@);
        }
    }

    /// Admits `block` at the next height.
    ///
    /// `InvalidBlock` where the block does not name the hash of the last
    /// block (zero on an empty chain), where its hash is above its target,
    /// where it has no transaction or its Merkle root is not that of its
    /// transactions, or where its timestamp is not later than that of the
    /// last block. Otherwise the error of `verify_transaction` at the next
    /// height, if any. A refused block changes nothing.
    ///
    /// An admitted block takes the pending transactions with the hash of
    /// one of its transactions out of the pool, releasing their marks; its
    /// transactions are applied to the unspent outputs; the block joins the
    /// chain; and the target is adjusted where that is due.
    pub fn add_block(&mut self, block: Block) -> (r: Result<(), BtcError>)
        requires
            old(self).wf(),
        ensures
            final(self).wf(),
            r == admission_check(old(self)@, block@),
            r is Ok ==> final(self)@ == admit_block(old(self)@, block@),
            r is Err ==> final(self)@ == old(self)@,
    {
        let ghost start = self@;
        let ghost view = block@;
        let linked = if self.blocks.len() == 0 {
            block.header.prev_block_hash == crate::sha256::Hash::zero()
        } else {
            let last = &self.blocks[self.blocks.len() - 1];
            assert(start.blocks.last() == last@);
            block.header.prev_block_hash == last.hash() && block.header.timestamp
                > last.header.timestamp
        };
        if !linked {
            return Err(BtcError::InvalidBlock);
        }
        if !block.header.hash().matches_target(block.header.target) {
            return Err(BtcError::InvalidBlock);
        }
        if block.transactions.len() == 0 {
            return Err(BtcError::InvalidBlock);
        }
        let root = MerkleRoot::calculate(block.transactions.as_slice());
        if root.0 != block.header.merkle_root.0 {
            return Err(BtcError::InvalidBlock);
        }
        assert(header_fits(start.blocks, view));
        let height = self.blocks_height();
        let verdict = block.verify_transaction(height, &self.utxos);
        if verdict.is_err() {
            return verdict;
        }
        let mut hashes: Vec<crate::sha256::Hash> = Vec::new();
        let mut t: usize = 0;
        while t < block.transactions.len()
            invariant
                t <= block.transactions.len(),
                hashes@.len() == t,
                view == block@,
                forall|p: int| 0 <= p < t ==> hashes@[p] == view.transactions[p].hash(),
            decreases block.transactions.len() - t,
        {
            hashes.push(block.transactions[t].hash());
            t = t + 1;
        }
        assert(hashes@ =~= transaction_hashes(view.transactions));
        let rule = Leaving::Included(hashes);
        drop_from_pool(&mut self.utxos, &mut self.mempool, &rule);
        apply_to_utxos(&mut self.utxos, &block.transactions);
        let ghost before = block_views(self.blocks@);
        self.blocks.push(block);
        assert(block_views(self.blocks@) =~= before.push(view));
        self.adjust();
        proof {
            lemma_admit_block_wf(start, view);
            assert(self@ == admit_block(start, view));
        }
        verdict
    }

    /// Adjusts the target where the number of blocks is a positive multiple
    /// of the update interval.
    fn adjust(&mut self)
        ensures
            final(self).blocks == old(self).blocks,
            final(self).utxos == old(self).utxos,
            final(self).mempool == old(self).mempool,
            final(self).target@ == adjusted_target(
                block_views(old(self).blocks@),
                old(self).target@,
            ),
    {
        let interval: usize = crate::DIFFICULTY_UPDATE_INTERVAL as usize;
        let count = self.blocks.len();
        if count == 0 || count % interval != 0 {
            return ;
        }
        let start = self.blocks[count - interval].header.timestamp;
        let end = self.blocks[count - 1].header.timestamp;
        self.target = next_target(&self.target, start, end);
    }

    /// Adjusts the target after an admission: where the number of blocks is
    /// a positive multiple of `DIFFICULTY_UPDATE_INTERVAL`, the target is
    /// scaled by the time that the last interval took over the time that it
    /// should have taken, kept within a quarter and four times its value,
    /// and capped at the easiest target.
    pub fn try_adjust_target(&mut self)
        requires
            old(self).wf(),
        ensures
            final(self).wf(),
            final(self)@ == (ChainView {
                target: adjusted_target(old(self)@.blocks, old(self)@.target),
                ..old(self)@
            }),
    {
        self.adjust();
    }
}

} // verus!
