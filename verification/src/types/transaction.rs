//! Transactions: inputs that spend earlier outputs, and new outputs.
use vstd::prelude::*;
use crate::error::BtcError;
use crate::codec::{lemma_u64_round_trip, parse_u64, push_u64, read_u64, take_u64, u64_be, u64_of_be};
use crate::u256::{lemma_u256_round_trip, U256};
use crate::crypto::{PublicKey, Signature};

verus! {

/// A claim on an earlier output, with the owner's signature over its hash.
#[derive(Clone, Copy, Debug, PartialEq, Eq, Structural)]
pub struct TransactionInput {
    pub prev_transaction_output_hash: crate::sha256::Hash,
    pub signature: Signature,
}

/// An amount, in the smallest unit, that belongs to a public key. The
/// identifier keeps two outputs of equal amount and owner apart.
#[derive(Clone, Copy, Debug, PartialEq, Eq, Structural)]
pub struct TransactionOutput {
    pub value: u64,
    pub unique_id: u128,
    pub pubkey: PublicKey,
}

/// A transfer of value from spent outputs to new ones.
#[derive(Clone, Debug, PartialEq, Eq)]
pub struct Transaction {
    pub inputs: Vec<TransactionInput>,
    pub outputs: Vec<TransactionOutput>,
}

/// A transaction as a mathematical value.
pub struct TransactionView {
    pub inputs: Seq<TransactionInput>,
    pub outputs: Seq<TransactionOutput>,
}

impl View for Transaction {
    type V = TransactionView;

    open spec fn view(&self) -> TransactionView {
        TransactionView { inputs: self.inputs@, outputs: self.outputs@ }
    }
}

/// The upper sixty-four bits of an identifier.
pub open spec fn id_high(id: u128) -> u64 {
    (id / 0x1_0000_0000_0000_0000) as u64
}

/// The lower sixty-four bits of an identifier.
pub open spec fn id_low(id: u128) -> u64 {
    (id % 0x1_0000_0000_0000_0000) as u64
}

/// The encodings of some inputs, one after the other.
pub open spec fn inputs_encoding(inputs: Seq<TransactionInput>) -> Seq<u8>
    decreases inputs.len(),
{
    if inputs.len() == 0 {
        Seq::empty()
    } else {
        inputs_encoding(inputs.drop_last()) + inputs.last().encoding()
    }
}

/// The encodings of some outputs, one after the other.
pub open spec fn outputs_encoding(outputs: Seq<TransactionOutput>) -> Seq<u8>
    decreases outputs.len(),
{
    if outputs.len() == 0 {
        Seq::empty()
    } else {
        outputs_encoding(outputs.drop_last()) + outputs.last().encoding()
    }
}

/// The sum of the values of some outputs.
pub open spec fn outputs_total(outputs: Seq<TransactionOutput>) -> nat
    decreases outputs.len(),
{
    if outputs.len() == 0 {
        0
    } else {
        outputs_total(outputs.drop_last()) + outputs.last().value as nat
    }
}

/// The inputs that stand one after the other at the front of `s`.
pub open spec fn inputs_at(s: Seq<u8>, count: nat) -> Seq<TransactionInput> {
    Seq::new(count, |i: int| TransactionInput::at_front(s.skip(96 * i)))
}

/// The outputs that stand one after the other at the front of `s`.
pub open spec fn outputs_at(s: Seq<u8>, count: nat) -> Seq<TransactionOutput> {
    Seq::new(count, |i: int| TransactionOutput::at_front(s.skip(57 * i)))
}

/// Reading back the bytes of some inputs gives the inputs, whatever follows
/// them.
pub proof fn lemma_inputs_round_trip(inputs: Seq<TransactionInput>, rest: Seq<u8>)
    ensures
        inputs_encoding(inputs).len() == 96 * inputs.len(),
        inputs_at(inputs_encoding(inputs) + rest, inputs.len()) == inputs,
    decreases inputs.len(),
{
    if inputs.len() > 0 {
        let head = inputs.drop_last();
        let last = inputs.last();
        let tail = last.encoding() + rest;
        lemma_inputs_round_trip(head, tail);
        last.lemma_round_trip(rest);
        let s = inputs_encoding(inputs) + rest;
        assert(s =~= inputs_encoding(head) + tail);
        assert forall|i: int| 0 <= i < inputs.len() implies inputs_at(s, inputs.len())[i]
            == inputs[i] by {
            if i < head.len() {
                assert(inputs_at(inputs_encoding(head) + tail, head.len())[i] == head[i]);
            } else {
                assert(s.skip(96 * i) =~= tail);
            }
        }
        assert(inputs_at(s, inputs.len()) =~= inputs);
    } else {
        assert(inputs_at(inputs_encoding(inputs) + rest, inputs.len()) =~= inputs);
    }
}

/// Reading back the bytes of some outputs gives the outputs, whatever
/// follows them.
pub proof fn lemma_outputs_round_trip(outputs: Seq<TransactionOutput>, rest: Seq<u8>)
    ensures
        outputs_encoding(outputs).len() == 57 * outputs.len(),
        outputs_at(outputs_encoding(outputs) + rest, outputs.len()) == outputs,
    decreases outputs.len(),
{
    if outputs.len() > 0 {
        let head = outputs.drop_last();
        let last = outputs.last();
        let tail = last.encoding() + rest;
        lemma_outputs_round_trip(head, tail);
        last.lemma_round_trip(rest);
        let s = outputs_encoding(outputs) + rest;
        assert(s =~= outputs_encoding(head) + tail);
        assert forall|i: int| 0 <= i < outputs.len() implies outputs_at(s, outputs.len())[i]
            == outputs[i] by {
            if i < head.len() {
                assert(outputs_at(outputs_encoding(head) + tail, head.len())[i] == head[i]);
            } else {
                assert(s.skip(57 * i) =~= tail);
            }
        }
        assert(outputs_at(s, outputs.len()) =~= outputs);
    } else {
        assert(outputs_at(outputs_encoding(outputs) + rest, outputs.len()) =~= outputs);
    }
}

impl TransactionInput {
    /// The ninety-six bytes of an input: the hash it spends, then the
    /// signature.
    #[verifier::opaque]
    pub open spec fn encoding(self) -> Seq<u8> {
        self.prev_transaction_output_hash.0.encoding() + self.signature.encoding()
    }

    /// The input at the front of `s`.
    #[verifier::opaque]
    pub open spec fn at_front(s: Seq<u8>) -> TransactionInput {
        TransactionInput {
            prev_transaction_output_hash: crate::sha256::Hash(U256::parse(s)),
            signature: Signature::at_front(s.skip(32)),
        }
    }

    /// Reading back the bytes of an input gives the input, whatever follows
    /// them.
    pub proof fn lemma_round_trip(self, rest: Seq<u8>)
        ensures
            self.encoding().len() == 96,
            TransactionInput::at_front(self.encoding() + rest) == self,
    {
        reveal(TransactionInput::encoding);
        reveal(TransactionInput::at_front);
        let s = self.encoding() + rest;
        let h = self.prev_transaction_output_hash.0;
        lemma_u256_round_trip(h, self.signature.encoding() + rest);
        self.signature.lemma_round_trip(rest);
        assert(s =~= h.encoding() + (self.signature.encoding() + rest));
        assert(s.skip(32) =~= self.signature.encoding() + rest);
    }

    /// Reads the input that stands at `at` in `data`.
    pub fn read(data: &[u8], at: usize) -> (r: TransactionInput)
        requires
            at + 96 <= data.len(),
        ensures
            r == TransactionInput::at_front(data@.skip(at as int)),
    {
        reveal(TransactionInput::at_front);
        let hash = U256::read(data, at);
        let signature = Signature::read(data, at + 32);
        assert(data@.skip(at as int).skip(32) =~= data@.skip(at + 32));
        TransactionInput { prev_transaction_output_hash: crate::sha256::Hash(hash), signature }
    }

    /// Appends the encoding of the input to `out`.
    pub fn encode_into(&self, out: &mut Vec<u8>)
        ensures
            final(out)@ == old(out)@ + self.encoding(),
    {
        reveal(TransactionInput::encoding);
        reveal(Signature::encoding);
        self.prev_transaction_output_hash.0.encode_into(out);
        self.signature.r.encode_into(out);
        self.signature.s.encode_into(out);
        assert(out@ =~= old(out)@ + self.encoding());
    }
}

impl TransactionOutput {
    /// The fifty-seven bytes of an output: value, identifier, owner.
    #[verifier::opaque]
    pub open spec fn encoding(self) -> Seq<u8> {
        u64_be(self.value) + u64_be(id_high(self.unique_id)) + u64_be(id_low(self.unique_id))
            + self.pubkey.encoding()
    }

    /// The output at the front of `s`.
    #[verifier::opaque]
    pub open spec fn at_front(s: Seq<u8>) -> TransactionOutput {
        TransactionOutput {
            value: u64_of_be(s),
            unique_id: (u64_of_be(s.skip(8)) as int * 0x1_0000_0000_0000_0000 + u64_of_be(
                s.skip(16),
            ) as int) as u128,
            pubkey: PublicKey::at_front(s.skip(24)),
        }
    }

    /// Reading back the bytes of an output gives the output, whatever
    /// follows them.
    pub proof fn lemma_round_trip(self, rest: Seq<u8>)
        ensures
            self.encoding().len() == 57,
            TransactionOutput::at_front(self.encoding() + rest) == self,
    {
        reveal(TransactionOutput::encoding);
        reveal(TransactionOutput::at_front);
        let s = self.encoding() + rest;
        let e_value = u64_be(self.value);
        let e_high = u64_be(id_high(self.unique_id));
        let e_low = u64_be(id_low(self.unique_id));
        let e_key = self.pubkey.encoding();
        lemma_u64_round_trip(self.value, e_high + e_low + e_key + rest);
        lemma_u64_round_trip(id_high(self.unique_id), e_low + e_key + rest);
        lemma_u64_round_trip(id_low(self.unique_id), e_key + rest);
        self.pubkey.lemma_round_trip(rest);
        assert(s =~= e_value + (e_high + e_low + e_key + rest));
        assert(s.skip(8) =~= e_high + (e_low + e_key + rest));
        assert(s.skip(16) =~= e_low + (e_key + rest));
        assert(s.skip(24) =~= e_key + rest);
    }

    /// Reads the output that stands at `at` in `data`.
    pub fn read(data: &[u8], at: usize) -> (r: TransactionOutput)
        requires
            at + 57 <= data.len(),
        ensures
            r == TransactionOutput::at_front(data@.skip(at as int)),
    {
        reveal(TransactionOutput::at_front);
        let value = read_u64(data, at);
        let high = read_u64(data, at + 8);
        let low = read_u64(data, at + 16);
        let pubkey = PublicKey::read(data, at + 24);
        proof {
            let s = data@.skip(at as int);
            assert(s.skip(8) =~= data@.skip(at + 8));
            assert(s.skip(16) =~= data@.skip(at + 16));
            assert(s.skip(24) =~= data@.skip(at + 24));
        }
        TransactionOutput {
            value,
            unique_id: high as u128 * 0x1_0000_0000_0000_0000 + low as u128,
            pubkey,
        }
    }

    /// The hash by which an output is known and spent.
    pub open spec fn spec_hash(self) -> crate::sha256::Hash {
        crate::sha256::Hash::of(self.encoding())
    }

    /// Appends the encoding of the output to `out`.
    pub fn encode_into(&self, out: &mut Vec<u8>)
        ensures
            final(out)@ == old(out)@ + self.encoding(),
    {
        reveal(TransactionOutput::encoding);
        reveal(PublicKey::encoding);
        push_u64(out, self.value);
        push_u64(out, (self.unique_id / 0x1_0000_0000_0000_0000) as u64);
        push_u64(out, (self.unique_id % 0x1_0000_0000_0000_0000) as u64);
        out.push(self.pubkey.prefix);
        self.pubkey.x.encode_into(out);
        assert(out@ =~= old(out)@ + self.encoding());
    }

    /// The hash of the output's encoding.
    pub fn hash(&self) -> (h: crate::sha256::Hash)
        ensures
            h == self.spec_hash(),
    {
        let mut bytes: Vec<u8> = Vec::new();
        self.encode_into(&mut bytes);
        assert(bytes@ =~= self.encoding());
        crate::sha256::Hash::hash(bytes.as_slice())
    }
}

impl TransactionView {
    /// The encoding of a transaction: the number of inputs, the inputs, the
    /// number of outputs, the outputs.
    pub open spec fn encoding(self) -> Seq<u8> {
        u64_be(self.inputs.len() as u64) + inputs_encoding(self.inputs) + u64_be(
            self.outputs.len() as u64,
        ) + outputs_encoding(self.outputs)
    }

    /// The transaction at the front of `s` and the number of bytes that it
    /// takes; none where `s` ends before the transaction does.
    #[verifier::opaque]
    pub open spec fn parse(s: Seq<u8>) -> Option<(TransactionView, int)> {
        match parse_u64(s) {
            None => None,
            Some(taken) => {
                let after = s.skip(8);
                if after.len() < 96 * taken {
                    None
                } else {
                    let middle = after.skip(96 * taken);
                    match parse_u64(middle) {
                        None => None,
                        Some(given) => {
                            let last = middle.skip(8);
                            if last.len() < 57 * given {
                                None
                            } else {
                                Some(
                                    (
                                        TransactionView {
                                            inputs: inputs_at(after, taken as nat),
                                            outputs: outputs_at(last, given as nat),
                                        },
                                        16 + 96 * taken + 57 * given,
                                    ),
                                )
                            }
                        },
                    }
                }
            },
        }
    }

    /// Whether the numbers of inputs and outputs fit in 64 bits, as those of
    /// every transaction in memory do.
    pub open spec fn fits(self) -> bool {
        self.inputs.len() <= u64::MAX && self.outputs.len() <= u64::MAX
    }

    /// Reading back the bytes of a transaction gives the transaction,
    /// whatever follows them.
    pub proof fn lemma_round_trip(self, rest: Seq<u8>)
        requires
            self.fits(),
        ensures
            self.encoding().len() == 16 + 96 * self.inputs.len() + 57 * self.outputs.len(),
            TransactionView::parse(self.encoding() + rest) == Some(
                (self, self.encoding().len() as int),
            ),
    {
        reveal(TransactionView::parse);
        let taken = self.inputs.len() as u64;
        let given = self.outputs.len() as u64;
        let e_in = inputs_encoding(self.inputs);
        let e_out = outputs_encoding(self.outputs);
        let s = self.encoding() + rest;
        lemma_u64_round_trip(taken, e_in + u64_be(given) + e_out + rest);
        lemma_u64_round_trip(given, e_out + rest);
        lemma_inputs_round_trip(self.inputs, u64_be(given) + e_out + rest);
        lemma_outputs_round_trip(self.outputs, rest);
        assert(s =~= u64_be(taken) + (e_in + u64_be(given) + e_out + rest));
        let after = s.skip(8);
        assert(after =~= e_in + (u64_be(given) + e_out + rest));
        let middle = after.skip(96 * taken);
        assert(middle =~= u64_be(given) + (e_out + rest));
        let last = middle.skip(8);
        assert(last =~= e_out + rest);
    }

    /// The hash of the transaction's encoding.
    pub open spec fn hash(self) -> crate::sha256::Hash {
        crate::sha256::Hash::of(self.encoding())
    }

    /// The sum of the values that the transaction gives out.
    pub open spec fn output_value(self) -> nat {
        outputs_total(self.outputs)
    }
}

impl Transaction {
    /// A transaction with the given inputs and outputs.
    pub fn new(inputs: Vec<TransactionInput>, outputs: Vec<TransactionOutput>) -> (tx: Transaction)
        ensures
            tx@.inputs == inputs@,
            tx@.outputs == outputs@,
    {
        Transaction { inputs, outputs }
    }

    /// Appends the encoding of the transaction to `out`.
    pub fn encode_into(&self, out: &mut Vec<u8>)
        ensures
            final(out)@ == old(out)@ + self@.encoding(),
    {
        push_u64(out, self.inputs.len() as u64);
        let ghost head = out@;
        let mut i: usize = 0;
        assert(self.inputs@.take(0) =~= Seq::empty());
        while i < self.inputs.len()
            invariant
                i <= self.inputs.len(),
                out@ == head + inputs_encoding(self.inputs@.take(i as int)),
            decreases self.inputs.len() - i,
        {
            let ghost before = out@;
            self.inputs[i].encode_into(out);
            proof {
                let next = self.inputs@.take(i + 1);
                assert(next.drop_last() =~= self.inputs@.take(i as int));
                assert(out@ =~= head + inputs_encoding(next));
            }
            i = i + 1;
        }
        assert(self.inputs@.take(i as int) =~= self.inputs@);
        push_u64(out, self.outputs.len() as u64);
        let ghost middle = out@;
        let mut j: usize = 0;
        assert(self.outputs@.take(0) =~= Seq::empty());
        while j < self.outputs.len()
            invariant
                j <= self.outputs.len(),
                out@ == middle + outputs_encoding(self.outputs@.take(j as int)),
            decreases self.outputs.len() - j,
        {
            self.outputs[j].encode_into(out);
            proof {
                let next = self.outputs@.take(j + 1);
                assert(next.drop_last() =~= self.outputs@.take(j as int));
                assert(out@ =~= middle + outputs_encoding(next));
            }
            j = j + 1;
        }
        assert(self.outputs@.take(j as int) =~= self.outputs@);
        assert(out@ =~= old(out)@ + self@.encoding());
    }

    /// Reads the transaction that stands at `at` in `data`, and says where
    /// it ends. `None` where the data ends before the transaction does.
    pub fn decode_from(data: &[u8], at: usize) -> (r: Option<(Transaction, usize)>)
        requires
            at <= data.len(),
        ensures
            match r {
                Some((tx, next)) => at <= next <= data.len() && TransactionView::parse(
                    data@.skip(at as int),
                ) == Some((tx@, next - at)),
                None => TransactionView::parse(data@.skip(at as int)) is None,
            },
    {
        reveal(TransactionView::parse);
        let ghost s = data@.skip(at as int);
        let taken = match take_u64(data, at) {
            Some(n) => n,
            None => {
                return None;
            },
        };
        let first = at + 8;
        if taken > ((data.len() - first) / 96) as u64 {
            return None;
        }
        let count = taken as usize;
        let ghost after = s.skip(8);
        assert(after =~= data@.skip(first as int));
        let mut inputs: Vec<TransactionInput> = Vec::new();
        let mut i: usize = 0;
        while i < count
            invariant
                i <= count,
                first + 96 * count <= data.len(),
                after == data@.skip(first as int),
                inputs@.len() == i,
                forall|p: int| 0 <= p < i ==> inputs@[p] == inputs_at(after, count as nat)[p],
            decreases count - i,
        {
            let input = TransactionInput::read(data, first + 96 * i);
            assert(after.skip(96 * i) =~= data@.skip(first + 96 * i));
            inputs.push(input);
            i = i + 1;
        }
        assert(inputs@ =~= inputs_at(after, taken as nat));
        let second = first + 96 * count;
        let ghost middle = after.skip(96 * taken);
        assert(middle =~= data@.skip(second as int));
        let given = match take_u64(data, second) {
            Some(n) => n,
            None => {
                return None;
            },
        };
        let third = second + 8;
        if given > ((data.len() - third) / 57) as u64 {
            return None;
        }
        let count_out = given as usize;
        let ghost last = middle.skip(8);
        assert(last =~= data@.skip(third as int));
        let mut outputs: Vec<TransactionOutput> = Vec::new();
        let mut j: usize = 0;
        while j < count_out
            invariant
                j <= count_out,
                third + 57 * count_out <= data.len(),
                last == data@.skip(third as int),
                outputs@.len() == j,
                forall|p: int| 0 <= p < j ==> outputs@[p] == outputs_at(last, count_out as nat)[p],
            decreases count_out - j,
        {
            let output = TransactionOutput::read(data, third + 57 * j);
            assert(last.skip(57 * j) =~= data@.skip(third + 57 * j));
            outputs.push(output);
            j = j + 1;
        }
        assert(outputs@ =~= outputs_at(last, given as nat));
        Some((Transaction { inputs, outputs }, third + 57 * count_out))
    }

    /// The transaction that `data` spells from its first byte to its last;
    /// `IoError` where `data` is not exactly one transaction.
    pub fn from_bytes(data: &[u8]) -> (r: Result<Transaction, BtcError>)
        ensures
            match r {
                Ok(tx) => TransactionView::parse(data@) == Some((tx@, data@.len() as int)),
                Err(e) => e == BtcError::IoError && !(TransactionView::parse(data@) matches Some(
                    (_, used),
                ) && used == data@.len()),
            },
    {
        assert(data@.skip(0) =~= data@);
        match Transaction::decode_from(data, 0) {
            Some((tx, next)) => if next == data.len() {
                Ok(tx)
            } else {
                Err(BtcError::IoError)
            },
            None => Err(BtcError::IoError),
        }
    }

    /// A copy of the transaction.
    pub fn duplicate(&self) -> (copy: Transaction)
        ensures
            copy@ == self@,
    {
        let mut inputs: Vec<TransactionInput> = Vec::new();
        let mut i: usize = 0;
        while i < self.inputs.len()
            invariant
                i <= self.inputs.len(),
                inputs@ == self.inputs@.take(i as int),
            decreases self.inputs.len() - i,
        {
            inputs.push(self.inputs[i]);
            assert(self.inputs@.take(i + 1) =~= self.inputs@.take(i as int).push(
                self.inputs@[i as int],
            ));
            i = i + 1;
        }
        assert(self.inputs@.take(i as int) =~= self.inputs@);
        let mut outputs: Vec<TransactionOutput> = Vec::new();
        let mut j: usize = 0;
        while j < self.outputs.len()
            invariant
                j <= self.outputs.len(),
                outputs@ == self.outputs@.take(j as int),
            decreases self.outputs.len() - j,
        {
            outputs.push(self.outputs[j]);
            assert(self.outputs@.take(j + 1) =~= self.outputs@.take(j as int).push(
                self.outputs@[j as int],
            ));
            j = j + 1;
        }
        assert(self.outputs@.take(j as int) =~= self.outputs@);
        Transaction { inputs, outputs }
    }

    /// The canonical encoding of the transaction.
    pub fn to_bytes(&self) -> (bytes: Vec<u8>)
        ensures
            bytes@ == self@.encoding(),
    {
        let mut bytes: Vec<u8> = Vec::new();
        self.encode_into(&mut bytes);
        assert(bytes@ =~= self@.encoding());
        bytes
    }

    /// The hash of the transaction's encoding.
    pub fn hash(&self) -> (h: crate::sha256::Hash)
        ensures
            h == self@.hash(),
    {
        let bytes = self.to_bytes();
        crate::sha256::Hash::hash(bytes.as_slice())
    }

    /// The sum of the values that the transaction gives out.
    pub fn output_value(&self) -> (total: u128)
        ensures
            total == self@.output_value(),
    {
        let mut total: u128 = 0;
        let mut j: usize = 0;
        assert(self.outputs@.take(0) =~= Seq::empty());
        while j < self.outputs.len()
            invariant
                j <= self.outputs.len(),
                total == outputs_total(self.outputs@.take(j as int)),
                total <= j * 0xFFFF_FFFF_FFFF_FFFF,
            decreases self.outputs.len() - j,
        {
            proof {
                let next = self.outputs@.take(j + 1);
                assert(next.drop_last() =~= self.outputs@.take(j as int));
            }
            total = total + self.outputs[j].value as u128;
            j = j + 1;
        }
        assert(self.outputs@.take(j as int) =~= self.outputs@);
        total
    }
}

/// A transaction that is read back from its encoding has the hash that it
/// had.
pub proof fn lemma_hash_survives_round_trip(tx: TransactionView)
    requires
        tx.fits(),
    ensures
        TransactionView::parse(tx.encoding()) matches Some((back, _)) && back.hash() == tx.hash(),
{
    let none: Seq<u8> = Seq::empty();
    tx.lemma_round_trip(none);
    assert(tx.encoding() + none =~= tx.encoding());
}

} // verus!
