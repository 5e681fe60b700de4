//! The messages that nodes, wallets and miners exchange, and their encoding
//! on the wire.
use vstd::prelude::*;
use crate::codec::{lemma_u64_round_trip, parse_u64, push_u64, read_u64, take_u64, u64_be, u64_of_be};
use crate::crypto::PublicKey;
use crate::error::BtcError;
use crate::types::block::{Block, BlockView};
use crate::types::transaction::{Transaction, TransactionOutput, TransactionView};

verus! {

/// A message between two parties of the network. A node address is held as
/// the bytes of its text.
#[derive(Clone, Debug, PartialEq, Eq)]
pub enum Message {
    /// Asks for the unspent outputs that belong to a key.
    FetchUTXOS(PublicKey),
    /// The unspent outputs of a key, each with its mark.
    UTXOS(Vec<(TransactionOutput, bool)>),
    /// A wallet hands a transaction to a node.
    SubmitTransaction(Transaction),
    /// A node passes a transaction on to its peers.
    NewTransaction(Transaction),
    /// A miner asks for a template that pays the given key.
    FetchTemplate(PublicKey),
    /// The template.
    Template(Block),
    /// A miner asks whether its template can still be admitted.
    ValidateTemplate(Block),
    /// Whether the template can still be admitted.
    TemplateValidity(bool),
    /// A miner hands in a mined block.
    SubmitTemplate(Block),
    /// Asks a node for the nodes that it knows.
    DiscoverNodes,
    /// The addresses of the nodes that a node knows.
    NodeList(Vec<Vec<u8>>),
    /// Asks how many blocks a node has beyond the given height.
    AskDifference(u32),
    /// The number of blocks beyond the height asked for.
    Difference(i32),
    /// Asks for the block at a height.
    FetchBlock(usize),
    /// A node passes a block on to its peers.
    NewBlock(Block),
}

/// A message as a mathematical value.
pub enum MessageView {
    FetchUTXOS(PublicKey),
    UTXOS(Seq<(TransactionOutput, bool)>),
    SubmitTransaction(TransactionView),
    NewTransaction(TransactionView),
    FetchTemplate(PublicKey),
    Template(BlockView),
    ValidateTemplate(BlockView),
    TemplateValidity(bool),
    SubmitTemplate(BlockView),
    DiscoverNodes,
    NodeList(Seq<Seq<u8>>),
    AskDifference(u32),
    Difference(i32),
    FetchBlock(usize),
    NewBlock(BlockView),
}

/// The byte strings that some vectors hold, in order.
pub open spec fn address_views(list: Seq<Vec<u8>>) -> Seq<Seq<u8>> {
    Seq::new(list.len(), |i: int| list[i]@)
}

impl View for Message {
    type V = MessageView;

    open spec fn view(&self) -> MessageView {
        match *self {
            Message::FetchUTXOS(key) => MessageView::FetchUTXOS(key),
            Message::UTXOS(list) => MessageView::UTXOS(list@),
            Message::SubmitTransaction(tx) => MessageView::SubmitTransaction(tx@),
            Message::NewTransaction(tx) => MessageView::NewTransaction(tx@),
            Message::FetchTemplate(key) => MessageView::FetchTemplate(key),
            Message::Template(block) => MessageView::Template(block@),
            Message::ValidateTemplate(block) => MessageView::ValidateTemplate(block@),
            Message::TemplateValidity(valid) => MessageView::TemplateValidity(valid),
            Message::SubmitTemplate(block) => MessageView::SubmitTemplate(block@),
            Message::DiscoverNodes => MessageView::DiscoverNodes,
            Message::NodeList(list) => MessageView::NodeList(address_views(list@)),
            Message::AskDifference(height) => MessageView::AskDifference(height),
            Message::Difference(blocks) => MessageView::Difference(blocks),
            Message::FetchBlock(height) => MessageView::FetchBlock(height),
            Message::NewBlock(block) => MessageView::NewBlock(block@),
        }
    }
}

// ---------------------------------------------------------------------------
// Lists in a message
// ---------------------------------------------------------------------------
/// The byte that stands for a truth value.
pub open spec fn bool_byte(b: bool) -> u8 {
    if b {
        1
    } else {
        0
    }
}

/// The encodings of some outputs with their marks, one after the other:
/// fifty-eight bytes each.
pub open spec fn marked_outputs_encoding(list: Seq<(TransactionOutput, bool)>) -> Seq<u8>
    decreases list.len(),
{
    if list.len() == 0 {
        Seq::empty()
    } else {
        marked_outputs_encoding(list.drop_last()) + list.last().0.encoding() + seq![
            bool_byte(list.last().1),
        ]
    }
}

/// The outputs with their marks that stand one after the other at the front
/// of `s`.
pub open spec fn marked_outputs_at(s: Seq<u8>, count: nat) -> Seq<(TransactionOutput, bool)> {
    Seq::new(
        count,
        |i: int| (TransactionOutput::at_front(s.skip(58 * i)), s[58 * i + 57] != 0),
    )
}

/// Reading back the bytes of some marked outputs gives them, whatever
/// follows.
pub proof fn lemma_marked_outputs_round_trip(list: Seq<(TransactionOutput, bool)>, rest: Seq<u8>)
    ensures
        marked_outputs_encoding(list).len() == 58 * list.len(),
        marked_outputs_at(marked_outputs_encoding(list) + rest, list.len()) == list,
    decreases list.len(),
{
    if list.len() > 0 {
        let head = list.drop_last();
        let last = list.last();
        let mark = seq![bool_byte(last.1)];
        let tail = last.0.encoding() + mark + rest;
        lemma_marked_outputs_round_trip(head, tail);
        last.0.lemma_round_trip(mark + rest);
        let s = marked_outputs_encoding(list) + rest;
        assert(s =~= marked_outputs_encoding(head) + tail);
        assert(tail =~= last.0.encoding() + (mark + rest));
        assert forall|i: int| 0 <= i < list.len() implies marked_outputs_at(s, list.len())[i]
            == list[i] by {
            if i < head.len() {
                assert(marked_outputs_at(marked_outputs_encoding(head) + tail, head.len())[i]
                    == head[i]);
            } else {
                assert(s.skip(58 * i) =~= tail);
                assert(s[58 * i + 57] == tail[57]);
            }
        }
        assert(marked_outputs_at(s, list.len()) =~= list);
    } else {
        assert(marked_outputs_at(marked_outputs_encoding(list) + rest, list.len()) =~= list);
    }
}

/// The encodings of some byte strings, one after the other: each is its
/// length, then its bytes.
pub open spec fn addresses_encoding(list: Seq<Seq<u8>>) -> Seq<u8>
    decreases list.len(),
{
    if list.len() == 0 {
        Seq::empty()
    } else {
        addresses_encoding(list.drop_last()) + u64_be(list.last().len() as u64) + list.last()
    }
}

/// The `count` byte strings that stand one after the other at the front of
/// `s`, and the number of bytes that they take; none where `s` ends before
/// they do.
pub open spec fn parse_addresses(s: Seq<u8>, count: nat) -> Option<(Seq<Seq<u8>>, int)>
    decreases count,
{
    if count == 0 {
        Some((Seq::empty(), 0))
    } else {
        match parse_u64(s) {
            None => None,
            Some(length) => if s.len() - 8 < length {
                None
            } else {
                match parse_addresses(s.skip(8 + length), (count - 1) as nat) {
                    None => None,
                    Some((more, used)) => Some(
                        (seq![s.subrange(8, 8 + length)] + more, 8 + length + used),
                    ),
                }
            },
        }
    }
}

/// Whether the length of every byte string fits in 64 bits.
pub open spec fn addresses_fit(list: Seq<Seq<u8>>) -> bool {
    forall|i: int| 0 <= i < list.len() ==> (#[trigger] list[i]).len() <= u64::MAX
}

/// The encoding of a list with one more byte string in front.
pub proof fn lemma_addresses_encoding_front(first: Seq<u8>, more: Seq<Seq<u8>>)
    ensures
        addresses_encoding(seq![first] + more) == u64_be(first.len() as u64) + first
            + addresses_encoding(more),
    decreases more.len(),
{
    let all = seq![first] + more;
    if more.len() == 0 {
        assert(all.drop_last() =~= Seq::empty());
        assert(all.last() == first);
        assert(addresses_encoding(all.drop_last()) =~= Seq::empty());
        assert(addresses_encoding(more) =~= Seq::empty());
        assert(addresses_encoding(all) == addresses_encoding(all.drop_last()) + u64_be(
            first.len() as u64,
        ) + first);
        assert(addresses_encoding(all) =~= u64_be(first.len() as u64) + first
            + addresses_encoding(more));
    } else {
        lemma_addresses_encoding_front(first, more.drop_last());
        assert(all.drop_last() =~= seq![first] + more.drop_last());
        assert(all.last() == more.last());
        assert(addresses_encoding(all) =~= u64_be(first.len() as u64) + first
            + addresses_encoding(more));
    }
}

/// Reading back the bytes of some byte strings gives them, whatever follows.
pub proof fn lemma_addresses_round_trip(list: Seq<Seq<u8>>, rest: Seq<u8>)
    requires
        addresses_fit(list),
    ensures
        parse_addresses(addresses_encoding(list) + rest, list.len()) == Some(
            (list, addresses_encoding(list).len() as int),
        ),
    decreases list.len(),
{
    if list.len() > 0 {
        let first = list[0];
        let more = list.drop_first();
        assert(list =~= seq![first] + more);
        lemma_addresses_encoding_front(first, more);
        assert(addresses_fit(more)) by {
            assert forall|i: int| 0 <= i < more.len() implies (#[trigger] more[i]).len()
                <= u64::MAX by {
                assert(more[i] == list[i + 1]);
            }
        }
        let tail = addresses_encoding(more) + rest;
        lemma_u64_round_trip(first.len() as u64, first + tail);
        lemma_addresses_round_trip(more, rest);
        let s = addresses_encoding(list) + rest;
        assert(s =~= u64_be(first.len() as u64) + (first + tail));
        assert(s.subrange(8, 8 + first.len() as int) =~= first);
        assert(s.skip(8 + first.len() as int) =~= tail);
    } else {
        assert(list =~= Seq::empty());
    }
}

// ---------------------------------------------------------------------------
// Messages
// ---------------------------------------------------------------------------
/// A signed 32-bit number as an unsigned number that keeps the order: 2^63
/// is added.
pub open spec fn difference_key(blocks: i32) -> u64 {
    (blocks + 0x8000_0000_0000_0000) as u64
}

impl MessageView {
    /// The byte that tells the kind of a message.
    pub open spec fn tag(self) -> u8 {
        match self {
            MessageView::FetchUTXOS(_) => 0,
            MessageView::UTXOS(_) => 1,
            MessageView::SubmitTransaction(_) => 2,
            MessageView::NewTransaction(_) => 3,
            MessageView::FetchTemplate(_) => 4,
            MessageView::Template(_) => 5,
            MessageView::ValidateTemplate(_) => 6,
            MessageView::TemplateValidity(_) => 7,
            MessageView::SubmitTemplate(_) => 8,
            MessageView::DiscoverNodes => 9,
            MessageView::NodeList(_) => 10,
            MessageView::AskDifference(_) => 11,
            MessageView::Difference(_) => 12,
            MessageView::FetchBlock(_) => 13,
            MessageView::NewBlock(_) => 14,
        }
    }

    /// What follows the tag.
    pub open spec fn payload(self) -> Seq<u8> {
        match self {
            MessageView::FetchUTXOS(key) => key.encoding(),
            MessageView::UTXOS(list) => u64_be(list.len() as u64) + marked_outputs_encoding(list),
            MessageView::SubmitTransaction(tx) => tx.encoding(),
            MessageView::NewTransaction(tx) => tx.encoding(),
            MessageView::FetchTemplate(key) => key.encoding(),
            MessageView::Template(block) => block.encoding(),
            MessageView::ValidateTemplate(block) => block.encoding(),
            MessageView::TemplateValidity(valid) => seq![bool_byte(valid)],
            MessageView::SubmitTemplate(block) => block.encoding(),
            MessageView::DiscoverNodes => Seq::empty(),
            MessageView::NodeList(list) => u64_be(list.len() as u64) + addresses_encoding(list),
            MessageView::AskDifference(height) => u64_be(height as u64),
            MessageView::Difference(blocks) => u64_be(difference_key(blocks)),
            MessageView::FetchBlock(height) => u64_be(height as u64),
            MessageView::NewBlock(block) => block.encoding(),
        }
    }

    /// The encoding of a message: its tag, then its payload.
    pub open spec fn encoding(self) -> Seq<u8> {
        seq![self.tag()] + self.payload()
    }

    /// The message that a payload spells for a tag; none where the payload
    /// is not exactly one message of that kind.
    pub open spec fn parse_payload(tag: u8, body: Seq<u8>) -> Option<MessageView> {
        if tag == 0 || tag == 4 {
            if body.len() == 33 {
                Some(
                    if tag == 0 {
                        MessageView::FetchUTXOS(PublicKey::at_front(body))
                    } else {
                        MessageView::FetchTemplate(PublicKey::at_front(body))
                    },
                )
            } else {
                None
            }
        } else if tag == 1 {
            match parse_u64(body) {
                Some(count) => if body.len() - 8 == 58 * count {
                    Some(MessageView::UTXOS(marked_outputs_at(body.skip(8), count as nat)))
                } else {
                    None
                },
                None => None,
            }
        } else if tag == 2 || tag == 3 {
            match TransactionView::parse(body) {
                Some((tx, used)) => if used == body.len() {
                    Some(
                        if tag == 2 {
                            MessageView::SubmitTransaction(tx)
                        } else {
                            MessageView::NewTransaction(tx)
                        },
                    )
                } else {
                    None
                },
                None => None,
            }
        } else if tag == 5 || tag == 6 || tag == 8 || tag == 14 {
            match BlockView::parse(body) {
                Some((block, used)) => if used == body.len() {
                    Some(
                        if tag == 5 {
                            MessageView::Template(block)
                        } else if tag == 6 {
                            MessageView::ValidateTemplate(block)
                        } else if tag == 8 {
                            MessageView::SubmitTemplate(block)
                        } else {
                            MessageView::NewBlock(block)
                        },
                    )
                } else {
                    None
                },
                None => None,
            }
        } else if tag == 7 {
            if body.len() == 1 {
                Some(MessageView::TemplateValidity(body[0] != 0))
            } else {
                None
            }
        } else if tag == 9 {
            if body.len() == 0 {
                Some(MessageView::DiscoverNodes)
            } else {
                None
            }
        } else if tag == 10 {
            match parse_u64(body) {
                Some(count) => match parse_addresses(body.skip(8), count as nat) {
                    Some((list, used)) => if 8 + used == body.len() {
                        Some(MessageView::NodeList(list))
                    } else {
                        None
                    },
                    None => None,
                },
                None => None,
            }
        } else if tag == 11 {
            if body.len() == 8 && u64_of_be(body) <= u32::MAX {
                Some(MessageView::AskDifference(u64_of_be(body) as u32))
            } else {
                None
            }
        } else if tag == 12 {
            if body.len() == 8 && 0x7FFF_FFFF_8000_0000 <= u64_of_be(body)
                <= 0x8000_0000_7FFF_FFFF {
                Some(
                    MessageView::Difference(
                        (u64_of_be(body) as int - 0x8000_0000_0000_0000) as i32,
                    ),
                )
            } else {
                None
            }
        } else if tag == 13 {
            if body.len() == 8 && u64_of_be(body) <= usize::MAX {
                Some(MessageView::FetchBlock(u64_of_be(body) as usize))
            } else {
                None
            }
        } else {
            None
        }
    }

    /// The message that `s` spells from its first byte to its last; none
    /// where `s` is not exactly one message.
    pub open spec fn parse(s: Seq<u8>) -> Option<MessageView> {
        if s.len() == 0 {
            None
        } else {
            MessageView::parse_payload(s[0], s.skip(1))
        }
    }

    /// Whether every count and length in the message fits in 64 bits, as
    /// those of every message in memory do.
    pub open spec fn fits(self) -> bool {
        match self {
            MessageView::UTXOS(list) => list.len() <= u64::MAX,
            MessageView::SubmitTransaction(tx) => tx.fits(),
            MessageView::NewTransaction(tx) => tx.fits(),
            MessageView::Template(block) => block.fits(),
            MessageView::ValidateTemplate(block) => block.fits(),
            MessageView::SubmitTemplate(block) => block.fits(),
            MessageView::NodeList(list) => list.len() <= u64::MAX && addresses_fit(list),
            MessageView::NewBlock(block) => block.fits(),
            _ => true,
        }
    }

    /// Decoding the encoding of a message gives the message.
    pub proof fn lemma_round_trip(self)
        requires
            self.fits(),
        ensures
            MessageView::parse(self.encoding()) == Some(self),
    {
        let s = self.encoding();
        let body = self.payload();
        let none: Seq<u8> = Seq::empty();
        assert(s.skip(1) =~= body);
        assert(s[0] == self.tag());
        assert(body + none =~= body);
        match self {
            MessageView::FetchUTXOS(key) => {
                key.lemma_round_trip(none);
            },
            MessageView::FetchTemplate(key) => {
                key.lemma_round_trip(none);
            },
            MessageView::UTXOS(list) => {
                lemma_u64_round_trip(list.len() as u64, marked_outputs_encoding(list));
                lemma_marked_outputs_round_trip(list, none);
                assert(body.skip(8) =~= marked_outputs_encoding(list) + none);
            },
            MessageView::SubmitTransaction(tx) => {
                tx.lemma_round_trip(none);
            },
            MessageView::NewTransaction(tx) => {
                tx.lemma_round_trip(none);
            },
            MessageView::Template(block) => {
                block.lemma_round_trip(none);
            },
            MessageView::ValidateTemplate(block) => {
                block.lemma_round_trip(none);
            },
            MessageView::SubmitTemplate(block) => {
                block.lemma_round_trip(none);
            },
            MessageView::NewBlock(block) => {
                block.lemma_round_trip(none);
            },
            MessageView::TemplateValidity(valid) => {},
            MessageView::DiscoverNodes => {},
            MessageView::NodeList(list) => {
                lemma_u64_round_trip(list.len() as u64, addresses_encoding(list));
                lemma_addresses_round_trip(list, none);
                assert(body.skip(8) =~= addresses_encoding(list) + none);
            },
            MessageView::AskDifference(height) => {
                lemma_u64_round_trip(height as u64, none);
            },
            MessageView::Difference(blocks) => {
                lemma_u64_round_trip(difference_key(blocks), none);
            },
            MessageView::FetchBlock(height) => {
                lemma_u64_round_trip(height as u64, none);
            },
        }
    }
}

/// Appends the encodings of some byte strings to `out`.
fn encode_addresses(list: &Vec<Vec<u8>>, out: &mut Vec<u8>)
    ensures
        final(out)@ == old(out)@ + addresses_encoding(address_views(list@)),
{
    let ghost views = address_views(list@);
    let ghost head = out@;
    let mut i: usize = 0;
    assert(views.take(0) =~= Seq::empty());
    assert(out@ =~= head + addresses_encoding(views.take(0)));
    while i < list.len()
        invariant
            i <= list.len(),
            views == address_views(list@),
            out@ == head + addresses_encoding(views.take(i as int)),
        decreases list.len() - i,
    {
        let item = &list[i];
        push_u64(out, item.len() as u64);
        let ghost before = out@;
        let mut k: usize = 0;
        while k < item.len()
            invariant
                k <= item.len(),
                out@ == before + item@.take(k as int),
            decreases item.len() - k,
        {
            out.push(item[k]);
            assert(item@.take(k + 1) =~= item@.take(k as int).push(item@[k as int]));
            k = k + 1;
        }
        proof {
            assert(item@.take(k as int) =~= item@);
            let next = views.take(i + 1);
            assert(next.drop_last() =~= views.take(i as int));
            assert(next.last() == item@);
            assert(out@ =~= head + addresses_encoding(next));
        }
        i = i + 1;
    }
    assert(views.take(i as int) =~= views);
}

/// Reads `count` byte strings that stand one after the other at `at` in
/// `data`, and says where they end.
fn decode_addresses(data: &[u8], at: usize, count: u64) -> (r: Option<(Vec<Vec<u8>>, usize)>)
    requires
        at <= data.len(),
    ensures
        match r {
            Some((list, next)) => at <= next <= data.len() && parse_addresses(
                data@.skip(at as int),
                count as nat,
            ) == Some((address_views(list@), next - at)),
            None => parse_addresses(data@.skip(at as int), count as nat) is None,
        },
{
    let ghost body = data@.skip(at as int);
    let mut list: Vec<Vec<u8>> = Vec::new();
    let mut pos: usize = at;
    let mut done: u64 = 0;
    assert(body.skip(0) =~= body);
    assert(address_views(list@) =~= Seq::empty());
    while done < count
        invariant
            done <= count,
            at <= pos <= data.len(),
            body == data@.skip(at as int),
            parse_addresses(body, count as nat) == match parse_addresses(
                body.skip(pos - at),
                (count - done) as nat,
            ) {
                None => None,
                Some((more, used)) => Some((address_views(list@) + more, pos - at + used)),
            },
        decreases count - done,
    {
        let ghost here = body.skip(pos - at);
        assert(here =~= data@.skip(pos as int));
        let ghost before = address_views(list@);
        let length = match take_u64(data, pos) {
            Some(n) => n,
            None => {
                return None;
            },
        };
        if length > (data.len() - pos - 8) as u64 {
            return None;
        }
        let size = length as usize;
        let first = pos + 8;
        let mut item: Vec<u8> = Vec::new();
        let mut k: usize = 0;
        while k < size
            invariant
                k <= size,
                first + size <= data.len(),
                item@ == data@.subrange(first as int, first + k),
            decreases size - k,
        {
            item.push(data[first + k]);
            assert(data@.subrange(first as int, first + k + 1) =~= data@.subrange(
                first as int,
                first + k,
            ).push(data@[first + k]));
            k = k + 1;
        }
        proof {
            assert(item@ =~= here.subrange(8, 8 + length));
            assert(here.skip(8 + length) =~= body.skip(first + size - at));
            let after = parse_addresses(here.skip(8 + length), (count - done - 1) as nat);
            if after is Some {
                let found = after.unwrap();
                assert(before + (seq![item@] + found.0) =~= before.push(item@) + found.0);
            }
        }
        list.push(item);
        assert(address_views(list@) =~= before.push(item@));
        pos = first + size;
        done = done + 1;
    }
    proof {
        assert(address_views(list@) + Seq::<Seq<u8>>::empty() =~= address_views(list@));
    }
    Some((list, pos))
}

impl Message {
    /// The canonical encoding of the message: its tag, then its payload.
    pub fn encode(&self) -> (bytes: Vec<u8>)
        ensures
            bytes@ == self@.encoding(),
    {
        let mut out: Vec<u8> = Vec::new();
        match self {
            Message::FetchUTXOS(key) => {
                out.push(0);
                let payload = key.to_bytes();
                append(&mut out, &payload);
            },
            Message::UTXOS(list) => {
                out.push(1);
                push_u64(&mut out, list.len() as u64);
                let ghost head = out@;
                let mut i: usize = 0;
                assert(list@.take(0) =~= Seq::empty());
                assert(out@ =~= head + marked_outputs_encoding(list@.take(0)));
                while i < list.len()
                    invariant
                        i <= list.len(),
                        out@ == head + marked_outputs_encoding(list@.take(i as int)),
                    decreases list.len() - i,
                {
                    list[i].0.encode_into(&mut out);
                    out.push(if list[i].1 {
                        1
                    } else {
                        0
                    });
                    proof {
                        let next = list@.take(i + 1);
                        assert(next.drop_last() =~= list@.take(i as int));
                        assert(next.last() == list@[i as int]);
                        assert(out@ =~= head + marked_outputs_encoding(next));
                    }
                    i = i + 1;
                }
                assert(list@.take(i as int) =~= list@);
            },
            Message::SubmitTransaction(tx) => {
                out.push(2);
                tx.encode_into(&mut out);
            },
            Message::NewTransaction(tx) => {
                out.push(3);
                tx.encode_into(&mut out);
            },
            Message::FetchTemplate(key) => {
                out.push(4);
                let payload = key.to_bytes();
                append(&mut out, &payload);
            },
            Message::Template(block) => {
                out.push(5);
                block.encode_into(&mut out);
            },
            Message::ValidateTemplate(block) => {
                out.push(6);
                block.encode_into(&mut out);
            },
            Message::TemplateValidity(valid) => {
                out.push(7);
                out.push(if *valid {
                    1
                } else {
                    0
                });
            },
            Message::SubmitTemplate(block) => {
                out.push(8);
                block.encode_into(&mut out);
            },
            Message::DiscoverNodes => {
                out.push(9);
            },
            Message::NodeList(list) => {
                out.push(10);
                push_u64(&mut out, list.len() as u64);
                encode_addresses(list, &mut out);
            },
            Message::AskDifference(height) => {
                out.push(11);
                push_u64(&mut out, *height as u64);
            },
            Message::Difference(blocks) => {
                out.push(12);
                push_u64(&mut out, (*blocks as i128 + 0x8000_0000_0000_0000) as u64);
            },
            Message::FetchBlock(height) => {
                out.push(13);
                push_u64(&mut out, *height as u64);
            },
            Message::NewBlock(block) => {
                out.push(14);
                block.encode_into(&mut out);
            },
        }
        assert(out@ =~= self@.encoding());
        out
    }

    /// The message that `data` spells from its first byte to its last;
    /// `NetworkError` where `data` is not exactly one message.
    pub fn decode(data: &[u8]) -> (r: Result<Message, BtcError>)
        ensures
            match r {
                Ok(message) => MessageView::parse(data@) == Some(message@),
                Err(e) => e == BtcError::NetworkError && MessageView::parse(data@) is None,
            },
    {
        match Message::read(data) {
            Some(message) => Ok(message),
            None => Err(BtcError::NetworkError),
        }
    }

    /// The message that `data` spells from its first byte to its last, if
    /// it spells one.
    fn read(data: &[u8]) -> (r: Option<Message>)
        ensures
            match r {
                Some(message) => MessageView::parse(data@) == Some(message@),
                None => MessageView::parse(data@) is None,
            },
    {
        let total = data.len();
        if total == 0 {
            return None;
        }
        let tag = data[0];
        let ghost body = data@.skip(1);
        if tag == 0 || tag == 4 {
            if total != 34 {
                return None;
            }
            let key = PublicKey::read(data, 1);
            if tag == 0 {
                Some(Message::FetchUTXOS(key))
            } else {
                Some(Message::FetchTemplate(key))
            }
        } else if tag == 1 {
            let count = match take_u64(data, 1) {
                Some(n) => n,
                None => {
                    return None;
                },
            };
            let left = total - 9;
            if left % 58 != 0 || count != (left / 58) as u64 {
                return None;
            }
            let size = count as usize;
            let ghost items = body.skip(8);
            assert(items =~= data@.skip(9));
            let mut list: Vec<(TransactionOutput, bool)> = Vec::new();
            let mut i: usize = 0;
            while i < size
                invariant
                    i <= size,
                    9 + 58 * size == data.len(),
                    items == data@.skip(9),
                    list@.len() == i,
                    forall|p: int| 0 <= p < i ==> list@[p] == marked_outputs_at(items, size as nat)[p],
                decreases size - i,
            {
                let output = TransactionOutput::read(data, 9 + 58 * i);
                let marked = data[9 + 58 * i + 57] != 0;
                assert(items.skip(58 * i) =~= data@.skip(9 + 58 * i));
                list.push((output, marked));
                i = i + 1;
            }
            assert(list@ =~= marked_outputs_at(items, count as nat));
            Some(Message::UTXOS(list))
        } else if tag == 2 || tag == 3 {
            match Transaction::decode_from(data, 1) {
                Some((tx, next)) => if next == total {
                    if tag == 2 {
                        Some(Message::SubmitTransaction(tx))
                    } else {
                        Some(Message::NewTransaction(tx))
                    }
                } else {
                    None
                },
                None => None,
            }
        } else if tag == 5 || tag == 6 || tag == 8 || tag == 14 {
            match Block::decode_from(data, 1) {
                Some((block, next)) => if next == total {
                    if tag == 5 {
                        Some(Message::Template(block))
                    } else if tag == 6 {
                        Some(Message::ValidateTemplate(block))
                    } else if tag == 8 {
                        Some(Message::SubmitTemplate(block))
                    } else {
                        Some(Message::NewBlock(block))
                    }
                } else {
                    None
                },
                None => None,
            }
        } else if tag == 7 {
            if total == 2 {
                Some(Message::TemplateValidity(data[1] != 0))
            } else {
                None
            }
        } else if tag == 9 {
            if total == 1 {
                Some(Message::DiscoverNodes)
            } else {
                None
            }
        } else if tag == 10 {
            let count = match take_u64(data, 1) {
                Some(n) => n,
                None => {
                    return None;
                },
            };
            assert(body.skip(8) =~= data@.skip(9));
            match decode_addresses(data, 9, count) {
                Some((list, next)) => if next == total {
                    Some(Message::NodeList(list))
                } else {
                    None
                },
                None => None,
            }
        } else if tag == 11 || tag == 12 || tag == 13 {
            if total != 9 {
                return None;
            }
            let number = read_u64(data, 1);
            if tag == 11 {
                if number <= u32::MAX as u64 {
                    Some(Message::AskDifference(number as u32))
                } else {
                    None
                }
            } else if tag == 12 {
                if 0x7FFF_FFFF_8000_0000 <= number && number <= 0x8000_0000_7FFF_FFFF {
                    Some(Message::Difference((number as i128 - 0x8000_0000_0000_0000) as i32))
                } else {
                    None
                }
            } else {
                if number <= usize::MAX as u64 {
                    Some(Message::FetchBlock(number as usize))
                } else {
                    None
                }
            }
        } else {
            None
        }
    }

    /// The message as it goes over the wire: the length of its encoding as
    /// eight bytes, most significant first, then the encoding.
    pub fn frame(&self) -> (bytes: Vec<u8>)
        ensures
            bytes@ == u64_be(self@.encoding().len() as u64) + self@.encoding(),
    {
        let body = self.encode();
        let mut out: Vec<u8> = Vec::new();
        push_u64(&mut out, body.len() as u64);
        append(&mut out, &body);
        out
    }

    /// The number of bytes of the message that follows a length prefix.
    /// `None` where the prefix has fewer than eight bytes or the length does
    /// not fit in memory.
    pub fn framed_length(prefix: &[u8]) -> (r: Option<usize>)
        ensures
            match r {
                Some(n) => parse_u64(prefix@) == Some(n as u64),
                None => match parse_u64(prefix@) {
                    Some(n) => n > usize::MAX,
                    None => true,
                },
            },
    {
        assert(prefix@.skip(0) =~= prefix@);
        match take_u64(prefix, 0) {
            Some(n) => if n <= usize::MAX as u64 {
                Some(n as usize)
            } else {
                None
            },
            None => None,
        }
    }
}

/// Appends `bytes` to `out`.
fn append(out: &mut Vec<u8>, bytes: &Vec<u8>)
    ensures
        final(out)@ == old(out)@ + bytes@,
{
    let mut k: usize = 0;
    while k < bytes.len()
        invariant
            k <= bytes.len(),
            out@ == old(out)@ + bytes@.take(k as int),
        decreases bytes.len() - k,
    {
        out.push(bytes[k]);
        assert(bytes@.take(k + 1) =~= bytes@.take(k as int).push(bytes@[k as int]));
        k = k + 1;
    }
    assert(bytes@.take(k as int) =~= bytes@);
}

} // verus!
